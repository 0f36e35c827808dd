use cloud_job_orchestrator::domain::{
    default_attempts, validate_identifier, ValidationError, MAX_DEPENDENCIES_PER_DAG,
};
use cloud_job_orchestrator::{DagSpec, Dependency, JobKind, JobSpec};

fn job(id: &str) -> JobSpec {
    JobSpec {
        id: id.to_owned(),
        kind: JobKind::Uppercase,
        payload: "safe".to_owned(),
        max_attempts: 3,
        priority: 0,
    }
}

fn edge(from: &str, to: &str) -> Dependency {
    Dependency {
        from: from.to_owned(),
        to: to.to_owned(),
    }
}

#[test]
fn topological_order_is_stable() {
    let dag = DagSpec {
        id: "release".to_owned(),
        jobs: vec![job("c"), job("b"), job("a")],
        dependencies: vec![
            Dependency {
                from: "a".to_owned(),
                to: "c".to_owned(),
            },
            Dependency {
                from: "b".to_owned(),
                to: "c".to_owned(),
            },
        ],
    };
    assert_eq!(
        dag.validate(),
        Ok(vec!["a".to_owned(), "b".to_owned(), "c".to_owned()])
    );
}

#[test]
fn cycle_is_rejected() {
    let dag = DagSpec {
        id: "cycle".to_owned(),
        jobs: vec![job("a"), job("b")],
        dependencies: vec![
            Dependency {
                from: "a".to_owned(),
                to: "b".to_owned(),
            },
            Dependency {
                from: "b".to_owned(),
                to: "a".to_owned(),
            },
        ],
    };
    assert_eq!(dag.validate(), Err(ValidationError::Cycle));
}

#[test]
fn excessive_dependency_count_is_rejected_before_graph_allocation() {
    let dependency = Dependency {
        from: "a".to_owned(),
        to: "b".to_owned(),
    };
    let dag = DagSpec {
        id: "bounded".to_owned(),
        jobs: vec![job("a"), job("b")],
        dependencies: vec![dependency; MAX_DEPENDENCIES_PER_DAG + 1],
    };

    assert_eq!(dag.validate(), Err(ValidationError::InvalidDependencyCount));
}

#[test]
fn ties_are_broken_by_identifier_and_dependents_follow_parents() {
    let dag = DagSpec {
        id: "diamond".to_owned(),
        jobs: vec![job("d"), job("c"), job("b"), job("a")],
        dependencies: vec![edge("a", "b"), edge("a", "c"), edge("b", "d"), edge("c", "d")],
    };
    assert_eq!(
        dag.validate(),
        Ok(vec![
            "a".to_owned(),
            "b".to_owned(),
            "c".to_owned(),
            "d".to_owned()
        ])
    );
}

#[test]
fn invalid_graph_identifier_is_rejected() {
    let dag = DagSpec {
        id: "bad id".to_owned(),
        jobs: vec![job("a")],
        dependencies: vec![],
    };
    assert_eq!(
        dag.validate(),
        Err(ValidationError::InvalidIdentifier("bad id".to_owned()))
    );
}

#[test]
fn empty_graph_is_rejected() {
    let dag = DagSpec {
        id: "empty".to_owned(),
        jobs: vec![],
        dependencies: vec![],
    };
    assert_eq!(dag.validate(), Err(ValidationError::InvalidJobCount));
}

#[test]
fn duplicate_job_is_rejected() {
    let dag = DagSpec {
        id: "dup".to_owned(),
        jobs: vec![job("a"), job("a")],
        dependencies: vec![],
    };
    assert_eq!(
        dag.validate(),
        Err(ValidationError::DuplicateJob("a".to_owned()))
    );
}

#[test]
fn unknown_dependency_is_rejected() {
    let dag = DagSpec {
        id: "unknown".to_owned(),
        jobs: vec![job("a")],
        dependencies: vec![edge("a", "z")],
    };
    assert_eq!(
        dag.validate(),
        Err(ValidationError::UnknownJob("z".to_owned()))
    );
}

#[test]
fn out_of_range_policy_is_rejected() {
    let mut risky = job("a");
    risky.max_attempts = 21;
    let dag = DagSpec {
        id: "policy".to_owned(),
        jobs: vec![risky],
        dependencies: vec![],
    };
    assert_eq!(dag.validate(), Err(ValidationError::InvalidPolicy));
    let mut loud = job("b");
    loud.priority = 101;
    let dag = DagSpec {
        id: "policy".to_owned(),
        jobs: vec![loud],
        dependencies: vec![],
    };
    assert_eq!(dag.validate(), Err(ValidationError::InvalidPolicy));
}

#[test]
fn payload_limits_are_enforced() {
    assert_eq!(JobKind::Delay.validate_payload("5000"), Ok(()));
    assert_eq!(JobKind::Delay.validate_payload("+12"), Ok(()));
    assert_eq!(
        JobKind::Delay.validate_payload("5001"),
        Err(ValidationError::InvalidDelay)
    );
    assert_eq!(
        JobKind::Delay.validate_payload("-1"),
        Err(ValidationError::InvalidDelay)
    );
    assert_eq!(
        JobKind::Delay.validate_payload(""),
        Err(ValidationError::InvalidDelay)
    );
    assert_eq!(JobKind::Checksum.validate_payload("anything"), Ok(()));
    let big = "x".repeat(4097);
    assert_eq!(
        JobKind::Uppercase.validate_payload(&big),
        Err(ValidationError::PayloadTooLarge)
    );
    assert_eq!(JobKind::Uppercase.validate_payload(&"x".repeat(4096)), Ok(()));
}

#[test]
fn identifiers_follow_the_allowed_alphabet() {
    assert_eq!(validate_identifier("job_1-a", 64), Ok(()));
    assert_eq!(
        validate_identifier("", 64),
        Err(ValidationError::InvalidIdentifier(String::new()))
    );
    assert_eq!(
        validate_identifier("a.b", 64),
        Err(ValidationError::InvalidIdentifier("a.b".to_owned()))
    );
    assert_eq!(
        validate_identifier("abcd", 3),
        Err(ValidationError::InvalidIdentifier("abcd".to_owned()))
    );
}

#[test]
fn default_attempt_budget_is_three() {
    assert_eq!(default_attempts(), 3);
}

#[test]
fn validation_messages_match_the_error_text() {
    assert_eq!(
        ValidationError::Cycle.message(),
        "dependency graph contains a cycle"
    );
    assert_eq!(
        ValidationError::UnknownJob("z".to_owned()).message(),
        "dependency references unknown job: z"
    );
}
