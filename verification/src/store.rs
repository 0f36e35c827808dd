//! The rules the durable store applies around its transactions: request limits, the
//! compare-and-set outcome, the textual encoding of kinds and states, initial job states, and
//! timestamp conversion.

use vstd::prelude::*;
use crate::domain::{
    dag_fault, index_edges, DagSpec, JobKind, JobState, ValidationError, ValidationErrorView,
    MAX_PAYLOAD_BYTES,
};
use crate::scheduler_model::{clamp_i64, in_degree};
use crate::text::{str_eq, utf8};

verus! {

/// A failure reported by the database driver: its SQLSTATE code, if any, and its text.
#[derive(Clone, Debug, PartialEq, Eq)]
pub struct DatabaseFailure {
    pub code: Option<String>,
    pub message: String,
}

/// Why a store operation failed.
#[derive(Clone, Debug, PartialEq, Eq)]
pub enum StoreError {
    Validation(ValidationError),
    Database(DatabaseFailure),
    Migration(String),
    NotFound,
    LeaseConflict,
    InvalidConfiguration,
    CorruptData,
}

/// The kind of a store error, without its payload.
pub enum StoreErrorKind {
    Validation(ValidationErrorView),
    Database,
    Migration,
    NotFound,
    LeaseConflict,
    InvalidConfiguration,
    CorruptData,
}

impl View for StoreError {
    type V = StoreErrorKind;

    open spec fn view(&self) -> StoreErrorKind {
        match self {
            StoreError::Validation(e) => StoreErrorKind::Validation(e@),
            StoreError::Database(_) => StoreErrorKind::Database,
            StoreError::Migration(_) => StoreErrorKind::Migration,
            StoreError::NotFound => StoreErrorKind::NotFound,
            StoreError::LeaseConflict => StoreErrorKind::LeaseConflict,
            StoreError::InvalidConfiguration => StoreErrorKind::InvalidConfiguration,
            StoreError::CorruptData => StoreErrorKind::CorruptData,
        }
    }
}

/// The human-readable text of a store error.
pub open spec fn store_message(e: &StoreError) -> Seq<char> {
    match e {
        StoreError::Validation(v) => crate::domain::validation_message(v@),
        StoreError::Database(f) => f.message@,
        StoreError::Migration(m) => m@,
        StoreError::NotFound => "resource not found"@,
        StoreError::LeaseConflict => "lease compare-and-set failed"@,
        StoreError::InvalidConfiguration => "invalid store configuration or request"@,
        StoreError::CorruptData => "database contains an unknown state"@,
    }
}

impl StoreError {
    /// The human-readable text of this error.
    pub fn message(&self) -> (r: String)
        ensures
            r@ == store_message(self),
    {
        match self {
            StoreError::Validation(e) => e.message(),
            StoreError::Database(f) => f.message.clone(),
            StoreError::Migration(m) => m.clone(),
            StoreError::NotFound => "resource not found".to_owned(),
            StoreError::LeaseConflict => "lease compare-and-set failed".to_owned(),
            StoreError::InvalidConfiguration => "invalid store configuration or request".to_owned(),
            StoreError::CorruptData => "database contains an unknown state".to_owned(),
        }
    }
}

/// The connection pool holds 1 to 100 connections.
pub fn validate_pool_size(max_connections: u32) -> (r: Result<(), StoreError>)
    ensures
        r is Ok <==> 1 <= max_connections <= 100,
        r is Err ==> r->Err_0@ == StoreErrorKind::InvalidConfiguration,
{
    if 1 <= max_connections && max_connections <= 100 {
        Ok(())
    } else {
        Err(StoreError::InvalidConfiguration)
    }
}

/// A page of graph identifiers holds 1 to 100 entries.
pub fn validate_page_limit(limit: u16) -> (r: Result<(), StoreError>)
    ensures
        r is Ok <==> 1 <= limit <= 100,
        r is Err ==> r->Err_0@ == StoreErrorKind::InvalidConfiguration,
{
    if 1 <= limit && limit <= 100 {
        Ok(())
    } else {
        Err(StoreError::InvalidConfiguration)
    }
}

/// A lease request names an owner of 1 to 64 bytes and lasts 1 to 60 000 milliseconds.
pub fn validate_owner_and_lease(owner: &str, lease_ms: i64) -> (r: Result<(), StoreError>)
    ensures
        r is Ok <==> (owner@.len() > 0 && utf8(owner@).len() <= 64 && 1 <= lease_ms <= 60000),
        r is Err ==> r->Err_0@ == StoreErrorKind::InvalidConfiguration,
{
    if owner.is_empty() || owner.as_bytes().len() > 64 || !(1 <= lease_ms && lease_ms <= 60000) {
        Err(StoreError::InvalidConfiguration)
    } else {
        Ok(())
    }
}

/// A result fits the payload limit of 4096 bytes.
pub fn validate_result(result: &str) -> (r: Result<(), StoreError>)
    ensures
        r is Ok <==> utf8(result@).len() <= MAX_PAYLOAD_BYTES,
        r is Err ==> r->Err_0@ == StoreErrorKind::InvalidConfiguration,
{
    if result.as_bytes().len() > MAX_PAYLOAD_BYTES {
        Err(StoreError::InvalidConfiguration)
    } else {
        Ok(())
    }
}

/// A guarded update succeeded exactly when it changed exactly one row.
pub fn ensure_compare_and_set(changed: u64) -> (r: Result<(), StoreError>)
    ensures
        r is Ok <==> changed == 1,
        r is Err ==> r->Err_0@ == StoreErrorKind::LeaseConflict,
{
    if changed == 1 {
        Ok(())
    } else {
        Err(StoreError::LeaseConflict)
    }
}

/// The stored name of a job kind.
pub open spec fn kind_text(kind: JobKind) -> Seq<char> {
    match kind {
        JobKind::Delay => "delay"@,
        JobKind::Checksum => "checksum"@,
        JobKind::Uppercase => "uppercase"@,
    }
}

/// The stored name of a job state.
pub open spec fn state_text(state: JobState) -> Seq<char> {
    match state {
        JobState::Pending => "pending"@,
        JobState::Ready => "ready"@,
        JobState::RetryWait => "retry_wait"@,
        JobState::Leased => "leased"@,
        JobState::Succeeded => "succeeded"@,
        JobState::DeadLettered => "dead_lettered"@,
        JobState::Cancelled => "cancelled"@,
    }
}

/// The stored name of a job kind.
pub fn kind_name(kind: &JobKind) -> (r: &'static str)
    ensures
        r@ == kind_text(*kind),
{
    match kind {
        JobKind::Delay => "delay",
        JobKind::Checksum => "checksum",
        JobKind::Uppercase => "uppercase",
    }
}

/// The job kind with stored name `value`.
pub fn parse_kind(value: &str) -> (r: Result<JobKind, StoreError>)
    ensures
        match r {
            Ok(kind) => kind_text(kind) == value@,
            Err(e) => e@ == StoreErrorKind::CorruptData && forall|k: JobKind| kind_text(k) != value@,
        },
{
    if str_eq(value, "delay") {
        Ok(JobKind::Delay)
    } else if str_eq(value, "checksum") {
        Ok(JobKind::Checksum)
    } else if str_eq(value, "uppercase") {
        Ok(JobKind::Uppercase)
    } else {
        Err(StoreError::CorruptData)
    }
}

/// The stored name of a job state.
pub fn state_name(state: &JobState) -> (r: &'static str)
    ensures
        r@ == state_text(*state),
{
    match state {
        JobState::Pending => "pending",
        JobState::Ready => "ready",
        JobState::RetryWait => "retry_wait",
        JobState::Leased => "leased",
        JobState::Succeeded => "succeeded",
        JobState::DeadLettered => "dead_lettered",
        JobState::Cancelled => "cancelled",
    }
}

/// The job state with stored name `value`.
pub fn parse_state(value: &str) -> (r: Result<JobState, StoreError>)
    ensures
        match r {
            Ok(state) => state_text(state) == value@,
            Err(e) => e@ == StoreErrorKind::CorruptData && forall|s: JobState| state_text(s) != value@,
        },
{
    if str_eq(value, "pending") {
        Ok(JobState::Pending)
    } else if str_eq(value, "ready") {
        Ok(JobState::Ready)
    } else if str_eq(value, "retry_wait") {
        Ok(JobState::RetryWait)
    } else if str_eq(value, "leased") {
        Ok(JobState::Leased)
    } else if str_eq(value, "succeeded") {
        Ok(JobState::Succeeded)
    } else if str_eq(value, "dead_lettered") {
        Ok(JobState::DeadLettered)
    } else if str_eq(value, "cancelled") {
        Ok(JobState::Cancelled)
    } else {
        Err(StoreError::CorruptData)
    }
}

/// Distinct kinds have distinct stored names, so parsing a stored kind name gives back the kind
/// that was written.
pub proof fn kind_names_round_trip(kind: JobKind, other: JobKind)
    ensures
        kind_text(kind) == kind_text(other) ==> kind == other,
{
    reveal_strlit("delay");
    reveal_strlit("checksum");
    reveal_strlit("uppercase");
    if kind != other {
        assert(kind_text(kind)[0] != kind_text(other)[0]);
    }
}

/// Distinct states have distinct stored names, so parsing a stored state name gives back the
/// state that was written.
pub proof fn state_names_round_trip(state: JobState, other: JobState)
    ensures
        state_text(state) == state_text(other) ==> state == other,
{
    reveal_strlit("pending");
    reveal_strlit("ready");
    reveal_strlit("retry_wait");
    reveal_strlit("leased");
    reveal_strlit("succeeded");
    reveal_strlit("dead_lettered");
    reveal_strlit("cancelled");
    if state != other {
        assert(state_text(state).len() != state_text(other).len() || state_text(state)[0]
            != state_text(other)[0] || state_text(state)[1] != state_text(other)[1]);
    }
}

/// A stored attempt counter, which the schema keeps in a signed 16-bit column.
pub fn stored_count(value: i16) -> (r: Result<u16, StoreError>)
    ensures
        match r {
            Ok(n) => value >= 0 && n == value,
            Err(e) => value < 0 && e@ == StoreErrorKind::CorruptData,
        },
{
    if value < 0 {
        Err(StoreError::CorruptData)
    } else {
        Ok(value as u16)
    }
}

/// The initial state of each job of an admitted graph: ready without dependencies, pending
/// otherwise. The graph is validated first.
pub fn initial_job_states(spec: &DagSpec) -> (r: Result<Vec<JobState>, ValidationError>)
    ensures
        match r {
            Ok(states) => {
                &&& dag_fault(spec@) is None
                &&& states@.len() == spec@.jobs.len()
                &&& forall|i: int|
                    0 <= i < states@.len() ==> #[trigger] states@[i] == if in_degree(
                        index_edges(spec@),
                        i as usize,
                    ) == 0 {
                        JobState::Ready
                    } else {
                        JobState::Pending
                    }
            },
            Err(e) => dag_fault(spec@) == Some(e@),
        },
{
    match spec.validate() {
        Err(e) => {
            return Err(e);
        },
        Ok(_) => {},
    }
    let edges = spec.dependency_edges();
    let ghost all = edges@;
    let n = spec.jobs.len();
    let ghost nothing: Seq<usize> = Seq::empty();
    let mut counts: Vec<usize> = Vec::new();
    let mut i: usize = 0;
    while i < n
        invariant
            i <= n,
            counts.len() == i,
            forall|q: int| 0 <= q < i ==> #[trigger] counts[q] == 0,
        decreases n - i,
    {
        counts.push(0);
        i += 1;
    }
    let mut e: usize = 0;
    while e < edges.len()
        invariant
            nothing == Seq::<usize>::empty(),
            all == edges@,
            e <= edges.len(),
            edges.len() <= crate::domain::MAX_DEPENDENCIES_PER_DAG,
            crate::graph::edges_within(n as nat, all),
            counts.len() == n,
            forall|v: int|
                0 <= v < n ==> #[trigger] counts[v] as nat == crate::graph::pending_in(
                    all.take(e as int),
                    nothing,
                    v as usize,
                ),
        decreases edges.len() - e,
    {
        let (from, to) = edges[e];
        let ghost prefix = all.take(e as int);
        let ghost next = all.take(e + 1);
        assert(next.drop_last() =~= prefix);
        assert(next.last() == all[e as int]);
        proof {
            crate::graph::lemma_pending_bounded(prefix, nothing, to);
        }
        counts.set(to, counts[to] + 1);
        assert forall|v: int| 0 <= v < n implies #[trigger] counts[v] as nat == crate::graph::pending_in(
            next,
            nothing,
            v as usize,
        ) by {
            assert(!nothing.contains(from));
        }
        e += 1;
    }
    assert(all.take(edges.len() as int) =~= all);
    let mut states: Vec<JobState> = Vec::new();
    let mut k: usize = 0;
    while k < n
        invariant
            all == index_edges(spec@),
            k <= n,
            n == spec@.jobs.len(),
            counts.len() == n,
            forall|v: int| 0 <= v < n ==> #[trigger] counts[v] as nat == in_degree(all, v as usize),
            states.len() == k,
            forall|q: int|
                0 <= q < k ==> #[trigger] states@[q] == if in_degree(all, q as usize) == 0 {
                    JobState::Ready
                } else {
                    JobState::Pending
                },
        decreases n - k,
    {
        if counts[k] == 0 {
            states.push(JobState::Ready);
        } else {
            states.push(JobState::Pending);
        }
        k += 1;
    }
    Ok(states)
}

/// Whole milliseconds in `nanos` nanoseconds, rounded toward zero and saturated into `i64`.
pub open spec fn millis_of_nanos(nanos: int) -> i64 {
    if nanos >= 0 {
        clamp_i64(nanos / 1_000_000)
    } else {
        clamp_i64(-((-nanos) / 1_000_000))
    }
}

/// Converts a Unix timestamp in nanoseconds to milliseconds.
pub fn millis_from_nanos(nanos: i128) -> (r: i64)
    ensures
        r == millis_of_nanos(nanos as int),
{
    if nanos >= 0 {
        let q: i128 = nanos / 1_000_000;
        if q > i64::MAX as i128 {
            i64::MAX
        } else {
            q as i64
        }
    } else {
        let magnitude: u128 = ((-(nanos + 1)) as u128) + 1;
        let q: u128 = magnitude / 1_000_000;
        if q >= 0x8000_0000_0000_0000u128 {
            i64::MIN
        } else {
            -(q as i64)
        }
    }
}

#[verifier::external_type_specification]
#[verifier::external_body]
pub struct ExOffsetDateTime(time::OffsetDateTime);

/// The instant `value` as nanoseconds since the Unix epoch.
pub uninterp spec fn unix_nanos_of(value: time::OffsetDateTime) -> i128;

/// `OffsetDateTime::unix_timestamp_nanos` of the `time` crate: the instant as nanoseconds since
/// the Unix epoch, a function of the value alone.
#[verifier::external_body]
fn unix_timestamp_nanos(value: time::OffsetDateTime) -> (r: i128)
    ensures
        r == unix_nanos_of(value),
{
    value.unix_timestamp_nanos()
}

/// Converts a database timestamp to Unix milliseconds.
pub fn unix_millis(value: time::OffsetDateTime) -> (r: i64)
    ensures
        r == millis_of_nanos(unix_nanos_of(value) as int),
{
    let nanos = unix_timestamp_nanos(value);
    millis_from_nanos(nanos)
}

} // verus!
