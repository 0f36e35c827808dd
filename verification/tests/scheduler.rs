use cloud_job_orchestrator::domain::ValidationError;
use cloud_job_orchestrator::{
    DagSpec, Dependency, JobKind, JobSpec, JobState, Scheduler, SchedulerConfig, SchedulerError,
};

fn job(id: &str, priority: i16, max_attempts: u16) -> JobSpec {
    JobSpec {
        id: id.to_owned(),
        kind: JobKind::Uppercase,
        payload: id.to_owned(),
        max_attempts,
        priority,
    }
}

fn chain() -> DagSpec {
    DagSpec {
        id: "chain".to_owned(),
        jobs: vec![job("extract", 1, 3), job("publish", 0, 3)],
        dependencies: vec![Dependency {
            from: "extract".to_owned(),
            to: "publish".to_owned(),
        }],
    }
}

#[allow(clippy::unwrap_used)]
#[test]
fn dependent_is_released_only_after_success() {
    let mut scheduler = Scheduler::new(SchedulerConfig::default());
    scheduler.submit(chain(), 0).unwrap();
    let first = scheduler.claim("worker-a", 1, 100).unwrap().unwrap();
    assert_eq!(first.job_id, "extract");
    assert_eq!(scheduler.claim("worker-b", 2, 100), Ok(None));
    scheduler
        .complete(
            &first.dag_id,
            &first.job_id,
            "worker-a",
            &first.lease_token,
            "ok".to_owned(),
            3,
        )
        .unwrap();
    let second = scheduler.claim("worker-b", 4, 100).unwrap().unwrap();
    assert_eq!(second.job_id, "publish");
}

#[allow(clippy::unwrap_used)]
#[test]
fn expired_lease_retries_and_rejects_late_completion() {
    let mut scheduler = Scheduler::new(SchedulerConfig {
        base_retry_ms: 10,
        max_retry_ms: 10,
        ..SchedulerConfig::default()
    });
    scheduler.submit(chain(), 0).unwrap();
    let claim = scheduler.claim("dead-worker", 0, 5).unwrap().unwrap();
    assert_eq!(scheduler.reap(5), 1);
    assert_eq!(
        scheduler.complete(
            "chain",
            "extract",
            "dead-worker",
            &claim.lease_token,
            "late".to_owned(),
            5
        ),
        Err(SchedulerError::LeaseConflict)
    );
    let snapshot = scheduler.snapshot("chain").unwrap();
    assert_eq!(snapshot.jobs[0].state, JobState::RetryWait);
}

#[allow(clippy::unwrap_used)]
#[test]
fn dead_letters_after_attempt_budget() {
    let mut scheduler = Scheduler::new(SchedulerConfig {
        base_retry_ms: 1,
        max_retry_ms: 1,
        ..SchedulerConfig::default()
    });
    let dag = DagSpec {
        id: "dlq".to_owned(),
        jobs: vec![job("fragile", 0, 1)],
        dependencies: vec![],
    };
    scheduler.submit(dag, 0).unwrap();
    let claim = scheduler.claim("worker", 0, 5).unwrap().unwrap();
    assert_eq!(
        scheduler.fail("dlq", "fragile", "worker", &claim.lease_token, 1),
        Ok(JobState::DeadLettered)
    );
}

#[allow(clippy::unwrap_used)]
#[test]
fn cancellation_invalidates_a_live_lease() {
    let mut scheduler = Scheduler::new(SchedulerConfig::default());
    scheduler.submit(chain(), 0).unwrap();
    let claim = scheduler.claim("worker", 0, 100).unwrap().unwrap();
    assert_eq!(scheduler.cancel("chain"), Ok(2));
    assert_eq!(
        scheduler.heartbeat("chain", "extract", "worker", &claim.lease_token, 1, 100),
        Err(SchedulerError::LeaseConflict)
    );
}

#[allow(clippy::unwrap_used)]
#[test]
fn higher_priority_job_is_claimed_first() {
    let mut scheduler = Scheduler::new(SchedulerConfig::default());
    scheduler
        .submit(
            DagSpec {
                id: "priorities".to_owned(),
                jobs: vec![job("low", -5, 1), job("high", 10, 1)],
                dependencies: vec![],
            },
            0,
        )
        .unwrap();
    assert_eq!(
        scheduler.claim("worker", 0, 100).unwrap().unwrap().job_id,
        "high"
    );
}

#[allow(clippy::unwrap_used)]
#[test]
fn claim_reports_the_lease_it_grants() {
    let mut scheduler = Scheduler::new(SchedulerConfig::default());
    scheduler.submit(chain(), 0).unwrap();
    let claim = scheduler.claim("worker", 7, 100).unwrap().unwrap();
    assert_eq!(claim.dag_id, "chain");
    assert_eq!(claim.job_id, "extract");
    assert_eq!(claim.kind, JobKind::Uppercase);
    assert_eq!(claim.payload, "extract");
    assert_eq!(claim.attempt, 1);
    assert_eq!(claim.lease_token, "lease-chain-extract-1");
    assert_eq!(claim.lease_expires_at_ms, 107);
    let snapshot = scheduler.snapshot("chain").unwrap();
    assert_eq!(snapshot.jobs[0].state, JobState::Leased);
    assert_eq!(snapshot.jobs[0].lease_owner, Some("worker".to_owned()));
    assert_eq!(snapshot.jobs[0].lease_expires_at_ms, Some(107));
    assert_eq!(snapshot.jobs[1].state, JobState::Pending);
}

#[allow(clippy::unwrap_used)]
#[test]
fn leased_job_is_not_claimed_twice_before_expiry() {
    let mut scheduler = Scheduler::new(SchedulerConfig::default());
    scheduler
        .submit(
            DagSpec {
                id: "pair".to_owned(),
                jobs: vec![job("a", 0, 3), job("b", 0, 3)],
                dependencies: vec![],
            },
            0,
        )
        .unwrap();
    let first = scheduler.claim("w1", 0, 100).unwrap().unwrap();
    let second = scheduler.claim("w2", 50, 100).unwrap().unwrap();
    assert_eq!(first.job_id, "a");
    assert_eq!(second.job_id, "b");
    assert_ne!(first.lease_token, second.lease_token);
    assert_eq!(scheduler.claim("w3", 99, 100), Ok(None));
}

#[allow(clippy::unwrap_used)]
#[test]
fn earlier_availability_wins_over_priority() {
    let mut scheduler = Scheduler::new(SchedulerConfig::default());
    scheduler
        .submit(
            DagSpec {
                id: "early".to_owned(),
                jobs: vec![job("first", 0, 3)],
                dependencies: vec![],
            },
            0,
        )
        .unwrap();
    scheduler
        .submit(
            DagSpec {
                id: "late".to_owned(),
                jobs: vec![job("urgent", 100, 3)],
                dependencies: vec![],
            },
            5,
        )
        .unwrap();
    let claim = scheduler.claim("worker", 10, 100).unwrap().unwrap();
    assert_eq!(claim.job_id, "first");
    assert_eq!(scheduler.claim("worker", 10, 100).unwrap().unwrap().job_id, "urgent");
}

#[allow(clippy::unwrap_used)]
#[test]
fn failure_waits_for_jittered_backoff() {
    let mut scheduler = Scheduler::new(SchedulerConfig::default());
    scheduler.submit(chain(), 0).unwrap();
    let claim = scheduler.claim("worker", 0, 100).unwrap().unwrap();
    assert_eq!(
        scheduler.fail("chain", "extract", "worker", &claim.lease_token, 10),
        Ok(JobState::RetryWait)
    );
    let snapshot = scheduler.snapshot("chain").unwrap();
    assert_eq!(snapshot.jobs[0].state, JobState::RetryWait);
    assert_eq!(snapshot.jobs[0].available_at_ms, 1123);
    assert_eq!(snapshot.jobs[0].lease_owner, None);
    assert_eq!(scheduler.claim("worker", 1122, 100), Ok(None));
    let retry = scheduler.claim("worker", 1123, 100).unwrap().unwrap();
    assert_eq!(retry.attempt, 2);
    assert_eq!(retry.lease_token, "lease-chain-extract-2");
}

#[allow(clippy::unwrap_used)]
#[test]
fn reaped_lease_waits_out_the_backoff() {
    let mut scheduler = Scheduler::new(SchedulerConfig {
        base_retry_ms: 10,
        max_retry_ms: 10,
        ..SchedulerConfig::default()
    });
    scheduler.submit(chain(), 0).unwrap();
    scheduler.claim("dead-worker", 0, 5).unwrap().unwrap();
    assert_eq!(scheduler.reap(4), 0);
    assert_eq!(scheduler.reap(5), 1);
    assert_eq!(scheduler.reap(5), 0);
    let snapshot = scheduler.snapshot("chain").unwrap();
    assert_eq!(snapshot.jobs[0].available_at_ms, 16);
    assert_eq!(snapshot.jobs[0].attempts, 1);
}

#[allow(clippy::unwrap_used)]
#[test]
fn heartbeat_moves_the_deadline() {
    let mut scheduler = Scheduler::new(SchedulerConfig::default());
    scheduler.submit(chain(), 0).unwrap();
    let claim = scheduler.claim("worker", 0, 100).unwrap().unwrap();
    assert_eq!(
        scheduler.heartbeat("chain", "extract", "worker", &claim.lease_token, 50, 200),
        Ok(250)
    );
    assert_eq!(scheduler.reap(200), 0);
    assert_eq!(
        scheduler.heartbeat("chain", "extract", "other", &claim.lease_token, 60, 200),
        Err(SchedulerError::LeaseConflict)
    );
    assert_eq!(
        scheduler.heartbeat("chain", "extract", "worker", "forged", 60, 200),
        Err(SchedulerError::LeaseConflict)
    );
    assert_eq!(
        scheduler.heartbeat("chain", "extract", "worker", &claim.lease_token, 250, 200),
        Err(SchedulerError::LeaseConflict)
    );
    assert_eq!(
        scheduler.heartbeat("chain", "extract", "worker", &claim.lease_token, 60, 0),
        Err(SchedulerError::InvalidLease)
    );
}

#[allow(clippy::unwrap_used)]
#[test]
fn cancelled_graph_keeps_finished_jobs() {
    let mut scheduler = Scheduler::new(SchedulerConfig::default());
    scheduler.submit(chain(), 0).unwrap();
    let claim = scheduler.claim("worker", 0, 100).unwrap().unwrap();
    scheduler
        .complete("chain", "extract", "worker", &claim.lease_token, "done".to_owned(), 1)
        .unwrap();
    assert_eq!(scheduler.cancel("chain"), Ok(1));
    assert_eq!(scheduler.cancel("chain"), Ok(0));
    let snapshot = scheduler.snapshot("chain").unwrap();
    assert_eq!(snapshot.jobs[0].state, JobState::Succeeded);
    assert_eq!(snapshot.jobs[0].result, Some("done".to_owned()));
    assert_eq!(snapshot.jobs[1].state, JobState::Cancelled);
    assert_eq!(scheduler.claim("worker", 2, 100), Ok(None));
}

#[test]
fn every_error_has_an_input() {
    let mut scheduler = Scheduler::new(SchedulerConfig {
        max_dags: 1,
        ..SchedulerConfig::default()
    });
    let bad = DagSpec {
        id: "bad".to_owned(),
        jobs: vec![],
        dependencies: vec![],
    };
    assert_eq!(
        scheduler.submit(bad, 0),
        Err(SchedulerError::Validation(ValidationError::InvalidJobCount))
    );
    assert_eq!(scheduler.submit(chain(), 0), Ok(()));
    assert_eq!(scheduler.submit(chain(), 0), Err(SchedulerError::DagAlreadyExists));
    let other = DagSpec {
        id: "other".to_owned(),
        jobs: vec![job("a", 0, 1)],
        dependencies: vec![],
    };
    assert_eq!(scheduler.submit(other, 0), Err(SchedulerError::Overloaded));
    assert_eq!(scheduler.cancel("missing"), Err(SchedulerError::DagNotFound));
    assert_eq!(
        scheduler.snapshot("missing").map(|s| s.id),
        Err(SchedulerError::DagNotFound)
    );
    assert_eq!(
        scheduler.fail("chain", "missing", "w", "t", 0),
        Err(SchedulerError::JobNotFound)
    );
    assert_eq!(scheduler.claim("", 0, 100), Err(SchedulerError::InvalidLease));
    assert_eq!(
        scheduler.claim(&"o".repeat(65), 0, 100),
        Err(SchedulerError::InvalidLease)
    );
    assert_eq!(scheduler.claim("w", 0, 60_001), Err(SchedulerError::InvalidLease));
    assert_eq!(
        scheduler.complete("chain", "extract", "w", "t", "x".repeat(4097), 0),
        Err(SchedulerError::ResultTooLarge)
    );
    assert_eq!(
        scheduler.complete("chain", "extract", "w", "t", "ok".to_owned(), 0),
        Err(SchedulerError::LeaseConflict)
    );
    assert_eq!(
        SchedulerError::Overloaded.message(),
        "admission limit exceeded"
    );
}

#[test]
fn ready_queue_limit_refuses_admission() {
    let mut scheduler = Scheduler::new(SchedulerConfig {
        max_ready_jobs: 1,
        ..SchedulerConfig::default()
    });
    let wide = DagSpec {
        id: "wide".to_owned(),
        jobs: vec![job("a", 0, 1), job("b", 0, 1)],
        dependencies: vec![],
    };
    assert_eq!(scheduler.submit(wide, 0), Err(SchedulerError::Overloaded));
    assert_eq!(scheduler.submit(chain(), 0), Ok(()));
}

#[test]
fn default_limits_match_the_documentation() {
    let config = SchedulerConfig::default();
    assert_eq!(config.max_dags, 100);
    assert_eq!(config.max_ready_jobs, 10_000);
    assert_eq!(config.max_lease_ms, 60_000);
    assert_eq!(config.base_retry_ms, 1_000);
    assert_eq!(config.max_retry_ms, 60_000);
}

#[allow(clippy::unwrap_used)]
#[test]
fn attempts_never_exceed_the_budget() {
    let mut scheduler = Scheduler::new(SchedulerConfig {
        base_retry_ms: 1,
        max_retry_ms: 1,
        ..SchedulerConfig::default()
    });
    let dag = DagSpec {
        id: "budget".to_owned(),
        jobs: vec![job("flaky", 0, 2)],
        dependencies: vec![],
    };
    scheduler.submit(dag, 0).unwrap();
    let first = scheduler.claim("worker", 0, 5).unwrap().unwrap();
    assert_eq!(first.attempt, 1);
    assert_eq!(
        scheduler.fail("budget", "flaky", "worker", &first.lease_token, 1),
        Ok(JobState::RetryWait)
    );
    let second = scheduler.claim("worker", 100, 5).unwrap().unwrap();
    assert_eq!(second.attempt, 2);
    assert_eq!(scheduler.reap(105), 1);
    let snapshot = scheduler.snapshot("budget").unwrap();
    assert_eq!(snapshot.jobs[0].state, JobState::DeadLettered);
    assert_eq!(snapshot.jobs[0].attempts, 2);
    assert_eq!(snapshot.jobs[0].max_attempts, 2);
    assert_eq!(scheduler.claim("worker", 1_000, 5), Ok(None));
}

#[allow(clippy::unwrap_used)]
#[test]
fn job_waits_for_every_parent() {
    let mut scheduler = Scheduler::new(SchedulerConfig::default());
    let dag = DagSpec {
        id: "join".to_owned(),
        jobs: vec![job("left", 0, 3), job("right", 0, 3), job("merge", 0, 3)],
        dependencies: vec![
            Dependency {
                from: "left".to_owned(),
                to: "merge".to_owned(),
            },
            Dependency {
                from: "right".to_owned(),
                to: "merge".to_owned(),
            },
        ],
    };
    scheduler.submit(dag, 0).unwrap();
    let first = scheduler.claim("w", 0, 100).unwrap().unwrap();
    assert_eq!(first.job_id, "left");
    scheduler
        .complete("join", "left", "w", &first.lease_token, "l".to_owned(), 1)
        .unwrap();
    let snapshot = scheduler.snapshot("join").unwrap();
    assert_eq!(snapshot.jobs[0].id, "left");
    assert_eq!(snapshot.jobs[1].id, "merge");
    assert_eq!(snapshot.jobs[1].state, JobState::Pending);
    let second = scheduler.claim("w", 2, 100).unwrap().unwrap();
    assert_eq!(second.job_id, "right");
    assert_eq!(scheduler.claim("w", 2, 100), Ok(None));
    scheduler
        .complete("join", "right", "w", &second.lease_token, "r".to_owned(), 3)
        .unwrap();
    let third = scheduler.claim("w", 3, 100).unwrap().unwrap();
    assert_eq!(third.job_id, "merge");
}

#[allow(clippy::unwrap_used)]
#[test]
fn repeated_dependency_is_released_by_one_success() {
    let mut scheduler = Scheduler::new(SchedulerConfig::default());
    let edge = Dependency {
        from: "a".to_owned(),
        to: "b".to_owned(),
    };
    let dag = DagSpec {
        id: "twice".to_owned(),
        jobs: vec![job("a", 0, 3), job("b", 0, 3)],
        dependencies: vec![edge.clone(), edge],
    };
    assert_eq!(dag.validate(), Ok(vec!["a".to_owned(), "b".to_owned()]));
    scheduler.submit(dag, 0).unwrap();
    let first = scheduler.claim("w", 0, 100).unwrap().unwrap();
    scheduler
        .complete("twice", "a", "w", &first.lease_token, "ok".to_owned(), 1)
        .unwrap();
    let second = scheduler.claim("w", 1, 100).unwrap().unwrap();
    assert_eq!(second.job_id, "b");
}

#[allow(clippy::unwrap_used)]
#[test]
fn old_token_stays_refused_after_the_job_is_claimed_again() {
    let mut scheduler = Scheduler::new(SchedulerConfig {
        base_retry_ms: 0,
        max_retry_ms: 0,
        ..SchedulerConfig::default()
    });
    scheduler.submit(chain(), 0).unwrap();
    let first = scheduler.claim("slow", 0, 5).unwrap().unwrap();
    let second = scheduler.claim("fast", 10, 100).unwrap().unwrap();
    assert_eq!(second.job_id, "extract");
    assert_eq!(second.attempt, 2);
    assert_ne!(first.lease_token, second.lease_token);
    assert_eq!(
        scheduler.complete("chain", "extract", "slow", &first.lease_token, "late".to_owned(), 11),
        Err(SchedulerError::LeaseConflict)
    );
    assert_eq!(
        scheduler.fail("chain", "extract", "slow", &first.lease_token, 11),
        Err(SchedulerError::LeaseConflict)
    );
    assert_eq!(
        scheduler.complete("chain", "extract", "fast", &second.lease_token, "ok".to_owned(), 11),
        Ok(())
    );
}

#[allow(clippy::unwrap_used)]
#[test]
fn dead_lettered_job_keeps_its_dependents_blocked() {
    let mut scheduler = Scheduler::new(SchedulerConfig::default());
    let dag = DagSpec {
        id: "blocked".to_owned(),
        jobs: vec![job("root", 0, 1), job("leaf", 0, 1)],
        dependencies: vec![Dependency {
            from: "root".to_owned(),
            to: "leaf".to_owned(),
        }],
    };
    scheduler.submit(dag, 0).unwrap();
    let claim = scheduler.claim("w", 0, 100).unwrap().unwrap();
    assert_eq!(
        scheduler.fail("blocked", "root", "w", &claim.lease_token, 1),
        Ok(JobState::DeadLettered)
    );
    assert_eq!(scheduler.claim("w", 1_000_000, 100), Ok(None));
    assert_eq!(scheduler.reap(2_000_000), 0);
    let snapshot = scheduler.snapshot("blocked").unwrap();
    assert_eq!(snapshot.jobs[0].id, "leaf");
    assert_eq!(snapshot.jobs[0].state, JobState::Pending);
    assert_eq!(snapshot.jobs[0].attempts, 0);
    assert_eq!(snapshot.jobs[1].state, JobState::DeadLettered);
    assert_eq!(snapshot.jobs[1].result, None);
}

#[allow(clippy::unwrap_used)]
#[test]
fn repeated_snapshots_are_equal() {
    let mut scheduler = Scheduler::new(SchedulerConfig::default());
    scheduler.submit(chain(), 0).unwrap();
    scheduler.claim("w", 0, 100).unwrap().unwrap();
    let first = scheduler.snapshot("chain").unwrap();
    let second = scheduler.snapshot("chain").unwrap();
    assert_eq!(first, second);
}
