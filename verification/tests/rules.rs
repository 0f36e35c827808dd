use cloud_job_orchestrator::domain::ValidationError;
use cloud_job_orchestrator::http::{
    default_lease_ms, default_page_size, is_unique_violation, state_name as http_state_name,
    ApiError,
};
use cloud_job_orchestrator::store::{
    ensure_compare_and_set, initial_job_states, kind_name, millis_from_nanos, parse_kind,
    parse_state, state_name, stored_count, unix_millis, validate_owner_and_lease,
    validate_page_limit, validate_pool_size, validate_result, DatabaseFailure,
};
use cloud_job_orchestrator::worker::{bounded_output, plan_execution, WorkerError};
use cloud_job_orchestrator::{DagSpec, Dependency, JobKind, JobSpec, JobState, StoreError};

fn job(id: &str) -> JobSpec {
    JobSpec {
        id: id.to_owned(),
        kind: JobKind::Checksum,
        payload: "p".to_owned(),
        max_attempts: 3,
        priority: 0,
    }
}

#[test]
fn owner_and_lease_limits() {
    assert_eq!(validate_owner_and_lease("worker", 1), Ok(()));
    assert_eq!(validate_owner_and_lease("worker", 60_000), Ok(()));
    assert_eq!(
        validate_owner_and_lease("", 100),
        Err(StoreError::InvalidConfiguration)
    );
    assert_eq!(
        validate_owner_and_lease(&"w".repeat(65), 100),
        Err(StoreError::InvalidConfiguration)
    );
    assert_eq!(validate_owner_and_lease(&"w".repeat(64), 100), Ok(()));
    assert_eq!(
        validate_owner_and_lease("worker", 0),
        Err(StoreError::InvalidConfiguration)
    );
    assert_eq!(
        validate_owner_and_lease("worker", 60_001),
        Err(StoreError::InvalidConfiguration)
    );
}

#[test]
fn compare_and_set_needs_exactly_one_row() {
    assert_eq!(ensure_compare_and_set(1), Ok(()));
    assert_eq!(ensure_compare_and_set(0), Err(StoreError::LeaseConflict));
    assert_eq!(ensure_compare_and_set(2), Err(StoreError::LeaseConflict));
}

#[test]
fn request_size_limits() {
    assert_eq!(validate_pool_size(1), Ok(()));
    assert_eq!(validate_pool_size(100), Ok(()));
    assert_eq!(validate_pool_size(0), Err(StoreError::InvalidConfiguration));
    assert_eq!(validate_pool_size(101), Err(StoreError::InvalidConfiguration));
    assert_eq!(validate_page_limit(25), Ok(()));
    assert_eq!(validate_page_limit(0), Err(StoreError::InvalidConfiguration));
    assert_eq!(validate_page_limit(101), Err(StoreError::InvalidConfiguration));
    assert_eq!(validate_result(&"r".repeat(4096)), Ok(()));
    assert_eq!(
        validate_result(&"r".repeat(4097)),
        Err(StoreError::InvalidConfiguration)
    );
}

#[test]
fn kinds_and_states_round_trip_through_their_names() {
    for kind in [JobKind::Delay, JobKind::Checksum, JobKind::Uppercase] {
        assert_eq!(parse_kind(kind_name(&kind)), Ok(kind));
    }
    assert_eq!(kind_name(&JobKind::Checksum), "checksum");
    assert_eq!(parse_kind("shell"), Err(StoreError::CorruptData));
    let states = [
        JobState::Pending,
        JobState::Ready,
        JobState::RetryWait,
        JobState::Leased,
        JobState::Succeeded,
        JobState::DeadLettered,
        JobState::Cancelled,
    ];
    for state in states {
        assert_eq!(parse_state(state_name(&state)), Ok(state));
        assert_eq!(http_state_name(&state), state_name(&state));
    }
    assert_eq!(state_name(&JobState::RetryWait), "retry_wait");
    assert_eq!(state_name(&JobState::DeadLettered), "dead_lettered");
    assert_eq!(parse_state("Ready"), Err(StoreError::CorruptData));
}

#[test]
fn stored_counts_must_be_non_negative() {
    assert_eq!(stored_count(0), Ok(0));
    assert_eq!(stored_count(20), Ok(20));
    assert_eq!(stored_count(-1), Err(StoreError::CorruptData));
}

#[test]
fn initial_states_follow_dependencies() {
    let spec = DagSpec {
        id: "fan".to_owned(),
        jobs: vec![job("a"), job("b"), job("c")],
        dependencies: vec![
            Dependency {
                from: "a".to_owned(),
                to: "c".to_owned(),
            },
            Dependency {
                from: "b".to_owned(),
                to: "c".to_owned(),
            },
        ],
    };
    assert_eq!(
        initial_job_states(&spec),
        Ok(vec![JobState::Ready, JobState::Ready, JobState::Pending])
    );
    let cyclic = DagSpec {
        id: "loop".to_owned(),
        jobs: vec![job("a")],
        dependencies: vec![Dependency {
            from: "a".to_owned(),
            to: "a".to_owned(),
        }],
    };
    assert_eq!(initial_job_states(&cyclic), Err(ValidationError::Cycle));
}

#[test]
fn timestamps_convert_to_milliseconds_toward_zero() {
    assert_eq!(millis_from_nanos(1_999_999), 1);
    assert_eq!(millis_from_nanos(-1_999_999), -1);
    assert_eq!(millis_from_nanos(0), 0);
    assert_eq!(millis_from_nanos(i128::MAX), i64::MAX);
    assert_eq!(millis_from_nanos(i128::MIN), i64::MIN);
    let instant = time::OffsetDateTime::from_unix_timestamp_nanos(1_700_000_000_123_456_789).unwrap();
    assert_eq!(unix_millis(instant), 1_700_000_000_123);
    let before = time::OffsetDateTime::from_unix_timestamp_nanos(-1_500_000).unwrap();
    assert_eq!(unix_millis(before), -1);
}

#[test]
fn store_error_messages() {
    assert_eq!(StoreError::NotFound.message(), "resource not found");
    assert_eq!(
        StoreError::LeaseConflict.message(),
        "lease compare-and-set failed"
    );
    assert_eq!(
        StoreError::Validation(ValidationError::Cycle).message(),
        "dependency graph contains a cycle"
    );
}

#[test]
fn http_defaults() {
    assert_eq!(default_page_size(), 25);
    assert_eq!(default_lease_ms(), 15_000);
}

#[test]
fn failures_map_to_http_answers() {
    let reply = ApiError::Unavailable.reply();
    assert_eq!((reply.status, reply.code.as_str()), (503, "unavailable"));
    assert_eq!(reply.message, "database is not ready");
    let reply = ApiError::Store(StoreError::NotFound).reply();
    assert_eq!((reply.status, reply.code.as_str()), (404, "not_found"));
    let reply = ApiError::Store(StoreError::LeaseConflict).reply();
    assert_eq!((reply.status, reply.code.as_str()), (409, "lease_conflict"));
    let reply = ApiError::Store(StoreError::Validation(ValidationError::Cycle)).reply();
    assert_eq!((reply.status, reply.code.as_str()), (422, "invalid_dag"));
    assert_eq!(reply.message, "dependency graph contains a cycle");
    let reply = ApiError::Store(StoreError::InvalidConfiguration).reply();
    assert_eq!((reply.status, reply.code.as_str()), (400, "invalid_request"));
    let duplicate = DatabaseFailure {
        code: Some("23505".to_owned()),
        message: "duplicate key".to_owned(),
    };
    assert!(is_unique_violation(&duplicate));
    let reply = ApiError::Store(StoreError::Database(duplicate)).reply();
    assert_eq!((reply.status, reply.code.as_str()), (409, "already_exists"));
    let other = DatabaseFailure {
        code: Some("40001".to_owned()),
        message: "serialization failure".to_owned(),
    };
    assert!(!is_unique_violation(&other));
    let reply = ApiError::Store(StoreError::Database(other)).reply();
    assert_eq!((reply.status, reply.code.as_str()), (500, "internal"));
    assert_eq!(reply.message, "internal control-plane error");
    let reply = ApiError::Store(StoreError::CorruptData).reply();
    assert_eq!((reply.status, reply.code.as_str()), (500, "internal"));
}

#[test]
fn allowlisted_operations_produce_their_outputs() {
    let upper = plan_execution(&JobKind::Uppercase, "safe job").unwrap();
    assert_eq!(upper.output, "SAFE JOB");
    assert_eq!(upper.delay_ms, 0);
    let delay = plan_execution(&JobKind::Delay, "0").unwrap();
    assert_eq!(delay.output, "slept:0ms");
    assert_eq!(delay.delay_ms, 0);
    let delay = plan_execution(&JobKind::Delay, "1250").unwrap();
    assert_eq!(delay.output, "slept:1250ms");
    assert_eq!(delay.delay_ms, 1250);
    let checksum = plan_execution(&JobKind::Checksum, "abc").unwrap();
    assert_eq!(checksum.output.len(), 64);
    assert_eq!(
        checksum.output,
        "ba7816bf8f01cfea414140de5dae2223b00361a396177a9cb410ff61f20015ad"
    );
}

#[test]
fn worker_rejects_invalid_or_oversized_work() {
    assert_eq!(
        plan_execution(&JobKind::Delay, "5001"),
        Err(WorkerError::Validation(ValidationError::InvalidDelay))
    );
    assert_eq!(
        plan_execution(&JobKind::Checksum, &"x".repeat(4097)),
        Err(WorkerError::Validation(ValidationError::PayloadTooLarge))
    );
    let growing = "\u{149}".repeat(2048);
    assert_eq!(growing.len(), 4096);
    assert_eq!(
        plan_execution(&JobKind::Uppercase, &growing),
        Err(WorkerError::ResultTooLarge)
    );
    assert_eq!(
        bounded_output(3, "x".repeat(4097)),
        Err(WorkerError::ResultTooLarge)
    );
    assert_eq!(
        WorkerError::InvalidPayload.message(),
        "worker payload is invalid"
    );
}
