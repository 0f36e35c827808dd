//! The abstract state of the in-memory scheduler and the effect of each operation on it.

use vstd::prelude::*;
use crate::domain::{
    DagSpecView, JobKind, JobSnapshotView, JobSpecView, JobState, ValidationErrorView, dag_fault,
    index_edges, MAX_JOBS_PER_DAG, MAX_PAYLOAD_BYTES,
};
use crate::graph::{occurrences, pending_in, targets_of};
use crate::text::{decimal, text_lt, utf8};

verus! {

/// Admission and timing limits of a scheduler.
#[derive(Clone, Copy, Debug, PartialEq, Eq, Structural)]
pub struct SchedulerConfig {
    pub max_dags: usize,
    pub max_ready_jobs: usize,
    pub max_lease_ms: i64,
    pub base_retry_ms: i64,
    pub max_retry_ms: i64,
}

/// The limits a scheduler uses when none are given.
pub open spec fn default_config() -> SchedulerConfig {
    SchedulerConfig {
        max_dags: 100,
        max_ready_jobs: 10000,
        max_lease_ms: 60000,
        base_retry_ms: 1000,
        max_retry_ms: 60000,
    }
}

pub struct LeaseView {
    pub owner: Seq<char>,
    pub token: Seq<char>,
    pub expires_at_ms: i64,
}

pub struct JobRecordView {
    pub spec: JobSpecView,
    pub state: JobState,
    pub attempts: u16,
    pub available_at_ms: i64,
    pub remaining_dependencies: nat,
    pub lease: Option<LeaseView>,
    pub result: Option<Seq<char>>,
    /// The job has an entry in the ready queue (possibly a stale one, of a cancelled job).
    pub queued: bool,
}

pub struct DagRecordView {
    pub id: Seq<char>,
    pub jobs: Seq<JobRecordView>,
    /// `dependents[i]` lists, once per dependency, the positions of the jobs that wait for job `i`.
    pub dependents: Seq<Seq<usize>>,
}

pub struct SchedulerView {
    pub config: SchedulerConfig,
    pub dags: Seq<DagRecordView>,
    pub sequence: u64,
}

pub struct ClaimedJobView {
    pub dag_id: Seq<char>,
    pub job_id: Seq<char>,
    pub kind: JobKind,
    pub payload: Seq<char>,
    pub attempt: u16,
    pub lease_token: Seq<char>,
    pub lease_expires_at_ms: i64,
}

pub enum SchedulerErrorView {
    Validation(ValidationErrorView),
    DagAlreadyExists,
    DagNotFound,
    JobNotFound,
    Overloaded,
    InvalidLease,
    LeaseConflict,
    ResultTooLarge,
}

/// The ready-queue order key of a job.
pub struct ReadyKeyView {
    pub available_at_ms: i64,
    pub priority_rank: int,
    pub dag_id: Seq<char>,
    pub job_id: Seq<char>,
}

// ---------------------------------------------------------------- arithmetic

/// `x` saturated into the range of `i64`.
pub open spec fn clamp_i64(x: int) -> i64 {
    if x > i64::MAX {
        i64::MAX
    } else if x < i64::MIN {
        i64::MIN
    } else {
        x as i64
    }
}

/// `x + 1` saturated into the range of `u16`.
pub open spec fn succ_u16(x: u16) -> u16 {
    if x == u16::MAX {
        x
    } else {
        (x + 1) as u16
    }
}

/// `x + 1` saturated into the range of `u64`.
pub open spec fn succ_u64(x: u64) -> u64 {
    if x == u64::MAX {
        x
    } else {
        (x + 1) as u64
    }
}

/// `a - b`, or zero when `b > a`.
pub open spec fn monus(a: nat, b: nat) -> nat {
    if a >= b {
        (a - b) as nat
    } else {
        0
    }
}

// ---------------------------------------------------------------- lookups

/// Position of the graph named `id`, if one is admitted.
pub open spec fn dag_lookup(dags: Seq<DagRecordView>, id: Seq<char>) -> Option<int> {
    if exists|i: int| 0 <= i < dags.len() && (#[trigger] dags[i]).id == id {
        Some(choose|i: int| 0 <= i < dags.len() && (#[trigger] dags[i]).id == id)
    } else {
        None
    }
}

/// Position of the job named `id`, if the graph has one.
pub open spec fn job_lookup(jobs: Seq<JobRecordView>, id: Seq<char>) -> Option<int> {
    if exists|i: int| 0 <= i < jobs.len() && (#[trigger] jobs[i]).spec.id == id {
        Some(choose|i: int| 0 <= i < jobs.len() && (#[trigger] jobs[i]).spec.id == id)
    } else {
        None
    }
}

// ---------------------------------------------------------------- well-formedness

/// Succeeded, dead-lettered and cancelled jobs never change state again.
pub open spec fn is_terminal(state: JobState) -> bool {
    state == JobState::Succeeded || state == JobState::DeadLettered || state == JobState::Cancelled
}

/// Ready and retrying jobs wait in the ready queue.
pub open spec fn is_waiting(state: JobState) -> bool {
    state == JobState::Ready || state == JobState::RetryWait
}

/// Number of dependencies from jobs `0..i` into job `k` whose source has not succeeded.
pub open spec fn unmet_into(jobs: Seq<JobRecordView>, dependents: Seq<Seq<usize>>, k: usize, i: nat) -> nat
    decreases i,
{
    if i == 0 {
        0
    } else {
        unmet_into(jobs, dependents, k, (i - 1) as nat) + if jobs[i - 1].state != JobState::Succeeded {
            occurrences(dependents[i - 1], k)
        } else {
            0
        }
    }
}

/// Properties every job record keeps.
pub open spec fn job_wf(job: JobRecordView) -> bool {
    &&& (job.lease is Some) == (job.state == JobState::Leased)
    &&& (job.result is Some) == (job.state == JobState::Succeeded)
    &&& job.state == JobState::Pending ==> job.attempts == 0
    &&& job.queued ==> (is_waiting(job.state) || job.state == JobState::Cancelled)
    &&& is_waiting(job.state) ==> job.queued
    &&& 1 <= job.spec.max_attempts <= 20
    &&& -100 <= job.spec.priority <= 100
    &&& job.attempts <= job.spec.max_attempts
    &&& (job.state == JobState::Pending || is_waiting(job.state)) ==> job.attempts
        < job.spec.max_attempts
    &&& job.state == JobState::Pending ==> job.remaining_dependencies > 0
    &&& !(job.state == JobState::Pending || job.state == JobState::Cancelled)
        ==> job.remaining_dependencies == 0
}

/// Properties every admitted graph keeps.
pub open spec fn dag_wf(dag: DagRecordView) -> bool {
    &&& dag.jobs.len() <= MAX_JOBS_PER_DAG
    &&& dag.dependents.len() == dag.jobs.len()
    &&& forall|i: int, t: int|
        0 <= i < dag.dependents.len() && 0 <= t < dag.dependents[i].len() ==> #[trigger] dag.dependents[i][t]
            < dag.jobs.len()
    &&& forall|a: int, b: int|
        0 <= a < dag.jobs.len() && 0 <= b < dag.jobs.len() && a != b ==> (#[trigger] dag.jobs[a]).spec.id
            != (#[trigger] dag.jobs[b]).spec.id
    &&& forall|j: int| 0 <= j < dag.jobs.len() ==> job_wf(#[trigger] dag.jobs[j])
    &&& forall|k: int|
        0 <= k < dag.jobs.len() ==> (#[trigger] dag.jobs[k]).remaining_dependencies == unmet_into(
            dag.jobs,
            dag.dependents,
            k as usize,
            dag.jobs.len(),
        )
}

/// Properties every scheduler state keeps.
pub open spec fn scheduler_wf(s: SchedulerView) -> bool {
    &&& forall|a: int, b: int|
        0 <= a < s.dags.len() && 0 <= b < s.dags.len() && a != b ==> (#[trigger] s.dags[a]).id != (
        #[trigger] s.dags[b]).id
    &&& forall|d: int| 0 <= d < s.dags.len() ==> dag_wf(#[trigger] s.dags[d])
}

// ---------------------------------------------------------------- ready queue

/// The order key of job `j` of graph `dag`.
pub open spec fn ready_key(dag: DagRecordView, job: JobRecordView) -> ReadyKeyView {
    ReadyKeyView {
        available_at_ms: job.available_at_ms,
        priority_rank: 100 - job.spec.priority,
        dag_id: dag.id,
        job_id: job.spec.id,
    }
}

/// Earlier availability first, then higher priority, then graph and job identifier.
pub open spec fn key_lt(a: ReadyKeyView, b: ReadyKeyView) -> bool {
    ||| a.available_at_ms < b.available_at_ms
    ||| a.available_at_ms == b.available_at_ms && a.priority_rank < b.priority_rank
    ||| a.available_at_ms == b.available_at_ms && a.priority_rank == b.priority_rank && text_lt(
        a.dag_id,
        b.dag_id,
    )
    ||| a.available_at_ms == b.available_at_ms && a.priority_rank == b.priority_rank && a.dag_id
        == b.dag_id && text_lt(a.job_id, b.job_id)
}

/// Number of queue entries among the first `n` jobs.
pub open spec fn queued_in_jobs(jobs: Seq<JobRecordView>, n: nat) -> nat
    decreases n,
{
    if n == 0 {
        0
    } else {
        queued_in_jobs(jobs, (n - 1) as nat) + if jobs[n - 1].queued {
            1nat
        } else {
            0nat
        }
    }
}

/// Number of ready-queue entries among the first `n` graphs.
pub open spec fn queued_in_dags(dags: Seq<DagRecordView>, n: nat) -> nat
    decreases n,
{
    if n == 0 {
        0
    } else {
        queued_in_dags(dags, (n - 1) as nat) + queued_in_jobs(dags[n - 1].jobs, dags[n - 1].jobs.len())
    }
}

/// Length of the ready queue, stale entries included.
pub open spec fn ready_len(s: SchedulerView) -> nat {
    queued_in_dags(s.dags, s.dags.len())
}

/// A job that a claim at `now` may take.
pub open spec fn eligible(s: SchedulerView, d: int, j: int, now: i64) -> bool {
    &&& 0 <= d < s.dags.len()
    &&& 0 <= j < s.dags[d].jobs.len()
    &&& s.dags[d].jobs[j].queued
    &&& is_waiting(s.dags[d].jobs[j].state)
    &&& s.dags[d].jobs[j].available_at_ms <= now
}

/// The key of job `j` of graph `d`.
pub open spec fn key_at(s: SchedulerView, d: int, j: int) -> ReadyKeyView {
    ready_key(s.dags[d], s.dags[d].jobs[j])
}

/// An eligible job whose key no other eligible job undercuts.
pub open spec fn is_best(s: SchedulerView, d: int, j: int, now: i64) -> bool {
    &&& eligible(s, d, j, now)
    &&& forall|d2: int, j2: int|
        #![trigger eligible(s, d2, j2, now)]
        eligible(s, d2, j2, now) ==> !key_lt(key_at(s, d2, j2), key_at(s, d, j))
}

/// The job a claim at `now` takes, if any.
pub open spec fn best_ready(s: SchedulerView, now: i64) -> Option<(int, int)> {
    if exists|d: int, j: int| is_best(s, d, j, now) {
        Some(choose|d: int, j: int| is_best(s, d, j, now))
    } else {
        None
    }
}

/// A queue entry whose job is no longer ready or retrying.
pub open spec fn is_stale(job: JobRecordView) -> bool {
    job.queued && !is_waiting(job.state)
}

/// The queue entries a claim pops before it stops: all entries below the taken key, or all
/// entries available by `now` when it takes none.
pub open spec fn popped(dag: DagRecordView, job: JobRecordView, bound: Option<ReadyKeyView>, now: i64) -> bool {
    match bound {
        Some(k) => key_lt(ready_key(dag, job), k),
        None => job.available_at_ms <= now,
    }
}

/// A job whose stale queue entry is dropped if a claim pops it.
pub open spec fn stale_dropped(dag: DagRecordView, job: JobRecordView, bound: Option<ReadyKeyView>, now: i64) -> JobRecordView {
    if is_stale(job) && popped(dag, job, bound, now) {
        JobRecordView { queued: false, ..job }
    } else {
        job
    }
}

/// Stale entries that a claim pops are dropped.
pub open spec fn drop_stale(s: SchedulerView, bound: Option<ReadyKeyView>, now: i64) -> SchedulerView {
    SchedulerView {
        dags: s.dags.map_values(
            |dag: DagRecordView|
                DagRecordView {
                    jobs: dag.jobs.map_values(|job: JobRecordView| stale_dropped(dag, job, bound, now)),
                    ..dag
                },
        ),
        ..s
    }
}

// ---------------------------------------------------------------- retries and expiry

/// `2^e`.
pub open spec fn two_pow(e: nat) -> nat
    decreases e,
{
    if e == 0 {
        1
    } else {
        2 * two_pow((e - 1) as nat)
    }
}

/// `2^e` grows with `e`.
pub proof fn lemma_two_pow_mono(a: nat, b: nat)
    requires
        a <= b,
    ensures
        1 <= two_pow(a) <= two_pow(b),
    decreases b,
{
    if b > a {
        lemma_two_pow_mono(a, (b - 1) as nat);
    } else if a > 0 {
        lemma_two_pow_mono((a - 1) as nat, (a - 1) as nat);
    }
}

/// The retry delay after `attempts` attempts: `base * 2^(attempts-1)` with the exponent capped at
/// 16, saturated, and capped at the configured maximum.
pub open spec fn retry_bound(config: SchedulerConfig, attempts: u16) -> i64 {
    let exponent: nat = if attempts == 0 {
        0
    } else if attempts - 1 > 16 {
        16
    } else {
        (attempts - 1) as nat
    };
    let base = clamp_i64(config.base_retry_ms * two_pow(exponent));
    if base <= config.max_retry_ms {
        base
    } else {
        config.max_retry_ms
    }
}

/// The wrapping polynomial hash (base 31) of a byte string.
pub open spec fn id_hash(bytes: Seq<u8>) -> nat
    decreases bytes.len(),
{
    if bytes.len() == 0 {
        0
    } else {
        ((id_hash(bytes.drop_last()) * 31 + bytes.last()) % 0x1_0000_0000_0000_0000) as nat
    }
}

/// Stable jitter below `ceiling` derived from a job identifier; zero when `ceiling <= 0`.
pub open spec fn jitter(job_id: Seq<char>, ceiling: i64) -> i64 {
    if ceiling <= 0 {
        0
    } else {
        (id_hash(utf8(job_id)) % (ceiling as nat)) as i64
    }
}

/// A failed or expired attempt: the job is dead-lettered when its attempt budget is spent,
/// and otherwise waits for a bounded, jittered backoff.
pub open spec fn retried(config: SchedulerConfig, job: JobRecordView, now: i64) -> JobRecordView {
    if job.attempts >= job.spec.max_attempts {
        JobRecordView { lease: None, state: JobState::DeadLettered, ..job }
    } else {
        let bounded = retry_bound(config, job.attempts);
        let ceiling: i64 = if bounded > 0 {
            (bounded / 5) as i64
        } else {
            0
        };
        JobRecordView {
            lease: None,
            available_at_ms: clamp_i64(clamp_i64(now + bounded) + jitter(job.spec.id, ceiling)),
            state: JobState::RetryWait,
            queued: true,
            ..job
        }
    }
}

/// A leased job whose deadline has passed at `now`.
pub open spec fn is_expired(job: JobRecordView, now: i64) -> bool {
    &&& job.state == JobState::Leased
    &&& job.lease is Some
    &&& job.lease.unwrap().expires_at_ms <= now
}

/// A job once its lease is reclaimed, if that lease has expired at `now`.
pub open spec fn reap_job(config: SchedulerConfig, job: JobRecordView, now: i64) -> JobRecordView {
    if is_expired(job, now) {
        retried(config, job, now)
    } else {
        job
    }
}

/// Every expired lease is reclaimed.
pub open spec fn reaped(s: SchedulerView, now: i64) -> SchedulerView {
    SchedulerView {
        dags: s.dags.map_values(
            |dag: DagRecordView|
                DagRecordView {
                    jobs: dag.jobs.map_values(|job: JobRecordView| reap_job(s.config, job, now)),
                    ..dag
                },
        ),
        ..s
    }
}

/// Number of expired leases among the first `n` jobs.
pub open spec fn expired_in_jobs(jobs: Seq<JobRecordView>, now: i64, n: nat) -> nat
    decreases n,
{
    if n == 0 {
        0
    } else {
        expired_in_jobs(jobs, now, (n - 1) as nat) + if is_expired(jobs[n - 1], now) {
            1nat
        } else {
            0nat
        }
    }
}

/// Number of expired leases among the first `n` graphs.
pub open spec fn expired_in_dags(dags: Seq<DagRecordView>, now: i64, n: nat) -> nat
    decreases n,
{
    if n == 0 {
        0
    } else {
        expired_in_dags(dags, now, (n - 1) as nat) + expired_in_jobs(
            dags[n - 1].jobs,
            now,
            dags[n - 1].jobs.len(),
        )
    }
}

// ---------------------------------------------------------------- submission

/// Number of dependencies into job `v`.
pub open spec fn in_degree(edges: Seq<(usize, usize)>, v: usize) -> nat {
    pending_in(edges, Seq::empty(), v)
}

/// Number of jobs without dependencies.
pub open spec fn sources_in(edges: Seq<(usize, usize)>, n: nat) -> nat
    decreases n,
{
    if n == 0 {
        0
    } else {
        sources_in(edges, (n - 1) as nat) + if in_degree(edges, (n - 1) as usize) == 0 {
            1nat
        } else {
            0nat
        }
    }
}

/// The record of a newly admitted graph: jobs without dependencies are ready and queued.
pub open spec fn admitted_dag(spec: DagSpecView, now: i64) -> DagRecordView {
    let edges = index_edges(spec);
    DagRecordView {
        id: spec.id,
        jobs: Seq::new(
            spec.jobs.len(),
            |i: int|
                JobRecordView {
                    spec: spec.jobs[i],
                    state: if in_degree(edges, i as usize) == 0 {
                        JobState::Ready
                    } else {
                        JobState::Pending
                    },
                    attempts: 0,
                    available_at_ms: now,
                    remaining_dependencies: in_degree(edges, i as usize),
                    lease: None,
                    result: None,
                    queued: in_degree(edges, i as usize) == 0,
                },
        ),
        dependents: Seq::new(spec.jobs.len(), |i: int| targets_of(edges, i as usize)),
    }
}

/// What submitting `spec` at `now` does: the first failing admission check decides the error.
pub open spec fn submit_outcome(s: SchedulerView, spec: DagSpecView, now: i64) -> Result<
    SchedulerView,
    SchedulerErrorView,
> {
    if dag_fault(spec) is Some {
        Err(SchedulerErrorView::Validation(dag_fault(spec).unwrap()))
    } else if dag_lookup(s.dags, spec.id) is Some {
        Err(SchedulerErrorView::DagAlreadyExists)
    } else if s.dags.len() >= s.config.max_dags {
        Err(SchedulerErrorView::Overloaded)
    } else if ready_len(s) + sources_in(index_edges(spec), spec.jobs.len())
        > s.config.max_ready_jobs {
        Err(SchedulerErrorView::Overloaded)
    } else {
        Ok(SchedulerView { dags: s.dags.push(admitted_dag(spec, now)), ..s })
    }
}

// ---------------------------------------------------------------- leases

/// An owner of 1..=64 bytes and a lease of 1..=`max_lease_ms` milliseconds.
pub open spec fn lease_request_valid(config: SchedulerConfig, owner: Seq<char>, lease_ms: i64) -> bool {
    &&& owner.len() > 0
    &&& utf8(owner).len() <= 64
    &&& 0 < lease_ms <= config.max_lease_ms
}

/// The token of the lease granted on job `j` of graph `dag` with sequence number `seq`.
pub open spec fn lease_token(dag: DagRecordView, job: JobRecordView, seq: u64) -> Seq<char> {
    "lease-"@ + dag.id + "-"@ + job.spec.id + "-"@ + decimal(seq as nat)
}

/// The job once leased to `owner`.
pub open spec fn leased(job: JobRecordView, owner: Seq<char>, token: Seq<char>, expires: i64) -> JobRecordView {
    JobRecordView {
        state: JobState::Leased,
        attempts: succ_u16(job.attempts),
        lease: Some(LeaseView { owner, token, expires_at_ms: expires }),
        queued: false,
        ..job
    }
}

/// State `s` with job `j` of graph `d` replaced.
pub open spec fn with_job(s: SchedulerView, d: int, j: int, job: JobRecordView) -> SchedulerView {
    SchedulerView {
        dags: s.dags.update(d, DagRecordView { jobs: s.dags[d].jobs.update(j, job), ..s.dags[d] }),
        ..s
    }
}

/// What a valid claim at `now` does: it reaps expired leases, pops stale entries, and leases the
/// best eligible job, if there is one.
pub open spec fn claim_outcome(s: SchedulerView, owner: Seq<char>, now: i64, lease_ms: i64) -> (
    SchedulerView,
    Option<ClaimedJobView>,
) {
    let r = reaped(s, now);
    match best_ready(r, now) {
        None => (drop_stale(r, None, now), None),
        Some(p) => {
            let (d, j) = p;
            let t = drop_stale(r, Some(key_at(r, d, j)), now);
            let seq = succ_u64(s.sequence);
            let job = t.dags[d].jobs[j];
            let token = lease_token(t.dags[d], job, seq);
            let expires = clamp_i64(now + lease_ms);
            let u = with_job(t, d, j, leased(job, owner, token, expires));
            (
                SchedulerView { sequence: seq, ..u },
                Some(
                    ClaimedJobView {
                        dag_id: t.dags[d].id,
                        job_id: job.spec.id,
                        kind: job.spec.kind,
                        payload: job.spec.payload,
                        attempt: succ_u16(job.attempts),
                        lease_token: token,
                        lease_expires_at_ms: expires,
                    },
                ),
            )
        },
    }
}

/// Where a lease check on `(dag_id, job_id)` leads: the job's position when the job is leased
/// to `owner` under `token` with a deadline after `now`, and otherwise the error.
pub open spec fn lease_check(
    s: SchedulerView,
    dag_id: Seq<char>,
    job_id: Seq<char>,
    owner: Seq<char>,
    token: Seq<char>,
    now: i64,
) -> Result<(int, int), SchedulerErrorView> {
    match dag_lookup(s.dags, dag_id) {
        None => Err(SchedulerErrorView::DagNotFound),
        Some(d) => match job_lookup(s.dags[d].jobs, job_id) {
            None => Err(SchedulerErrorView::JobNotFound),
            Some(j) => {
                let job = s.dags[d].jobs[j];
                match job.lease {
                    None => Err(SchedulerErrorView::LeaseConflict),
                    Some(l) => if job.state == JobState::Leased && l.owner == owner && l.token == token
                        && l.expires_at_ms > now {
                        Ok((d, j))
                    } else {
                        Err(SchedulerErrorView::LeaseConflict)
                    },
                }
            },
        },
    }
}


/// The job once its lease deadline is moved to `expires`.
pub open spec fn renewed(job: JobRecordView, expires: i64) -> JobRecordView {
    JobRecordView {
        lease: Some(LeaseView { expires_at_ms: expires, ..job.lease.unwrap() }),
        ..job
    }
}

/// What a heartbeat does: a valid duration and a live lease of `owner` under `token` move the
/// deadline to `now + lease_ms`.
pub open spec fn heartbeat_outcome(
    s: SchedulerView,
    dag_id: Seq<char>,
    job_id: Seq<char>,
    owner: Seq<char>,
    token: Seq<char>,
    now: i64,
    lease_ms: i64,
) -> Result<(SchedulerView, i64), SchedulerErrorView> {
    if !(0 < lease_ms <= s.config.max_lease_ms) {
        Err(SchedulerErrorView::InvalidLease)
    } else {
        match lease_check(s, dag_id, job_id, owner, token, now) {
            Err(e) => Err(e),
            Ok(p) => {
                let expires = clamp_i64(now + lease_ms);
                Ok((with_job(s, p.0, p.1, renewed(s.dags[p.0].jobs[p.1], expires)), expires))
            },
        }
    }
}

/// What a failure report does: under a live lease the attempt is retried or dead-lettered.
pub open spec fn fail_outcome(
    s: SchedulerView,
    dag_id: Seq<char>,
    job_id: Seq<char>,
    owner: Seq<char>,
    token: Seq<char>,
    now: i64,
) -> Result<(SchedulerView, JobState), SchedulerErrorView> {
    match lease_check(s, dag_id, job_id, owner, token, now) {
        Err(e) => Err(e),
        Ok(p) => {
            let job = retried(s.config, s.dags[p.0].jobs[p.1], now);
            Ok((with_job(s, p.0, p.1, job), job.state))
        },
    }
}

/// What a completion does: a result within the payload limit, under a live lease, marks the job
/// succeeded and releases its dependents.
pub open spec fn complete_outcome(
    s: SchedulerView,
    dag_id: Seq<char>,
    job_id: Seq<char>,
    owner: Seq<char>,
    token: Seq<char>,
    result: Seq<char>,
    now: i64,
) -> Result<SchedulerView, SchedulerErrorView> {
    if utf8(result).len() > MAX_PAYLOAD_BYTES {
        Err(SchedulerErrorView::ResultTooLarge)
    } else {
        match lease_check(s, dag_id, job_id, owner, token, now) {
            Err(e) => Err(e),
            Ok(p) => Ok(
                SchedulerView {
                    dags: s.dags.update(p.0, completed_dag(s.dags[p.0], p.1, result, now)),
                    ..s
                },
            ),
        }
    }
}

/// What cancelling a graph does, with the number of jobs it cancels.
pub open spec fn cancel_outcome(s: SchedulerView, dag_id: Seq<char>) -> Result<
    (SchedulerView, nat),
    SchedulerErrorView,
> {
    match dag_lookup(s.dags, dag_id) {
        None => Err(SchedulerErrorView::DagNotFound),
        Some(d) => Ok(
            (
                SchedulerView { dags: s.dags.update(d, cancelled_dag(s.dags[d])), ..s },
                unfinished_in(s.dags[d].jobs, s.dags[d].jobs.len()),
            ),
        ),
    }
}

/// Releasing a dependent after one of its parents succeeded through `m` dependencies.
pub open spec fn released(job: JobRecordView, m: nat, now: i64) -> JobRecordView {
    if m == 0 {
        job
    } else if monus(job.remaining_dependencies, m) == 0 && job.state == JobState::Pending {
        JobRecordView {
            remaining_dependencies: 0,
            state: JobState::Ready,
            available_at_ms: now,
            queued: true,
            ..job
        }
    } else {
        JobRecordView { remaining_dependencies: monus(job.remaining_dependencies, m), ..job }
    }
}

/// Graph `dag` once job `j` succeeded with `result` at `now`.
pub open spec fn completed_dag(dag: DagRecordView, j: int, result: Seq<char>, now: i64) -> DagRecordView {
    let finished = JobRecordView {
        state: JobState::Succeeded,
        lease: None,
        result: Some(result),
        ..dag.jobs[j]
    };
    let jobs = dag.jobs.update(j, finished);
    DagRecordView {
        jobs: Seq::new(
            jobs.len(),
            |k: int| released(jobs[k], occurrences(dag.dependents[j], k as usize), now),
        ),
        ..dag
    }
}

/// Graph `dag` once cancelled: unfinished jobs are cancelled and lose their lease.
pub open spec fn cancelled_dag(dag: DagRecordView) -> DagRecordView {
    DagRecordView {
        jobs: dag.jobs.map_values(
            |job: JobRecordView|
                if is_terminal(job.state) {
                    job
                } else {
                    JobRecordView { state: JobState::Cancelled, lease: None, ..job }
                },
        ),
        ..dag
    }
}

/// Number of unfinished jobs among the first `n`.
pub open spec fn unfinished_in(jobs: Seq<JobRecordView>, n: nat) -> nat
    decreases n,
{
    if n == 0 {
        0
    } else {
        unfinished_in(jobs, (n - 1) as nat) + if is_terminal(jobs[n - 1].state) {
            0nat
        } else {
            1nat
        }
    }
}

/// The read model of a job.
pub open spec fn job_snapshot(job: JobRecordView) -> JobSnapshotView {
    JobSnapshotView {
        id: job.spec.id,
        state: job.state,
        attempts: job.attempts,
        max_attempts: job.spec.max_attempts,
        available_at_ms: job.available_at_ms,
        lease_owner: match job.lease {
            Some(l) => Some(l.owner),
            None => None,
        },
        lease_expires_at_ms: match job.lease {
            Some(l) => Some(l.expires_at_ms),
            None => None,
        },
        result: job.result,
    }
}

/// `jobs` is the read model of every job of `dag`, in increasing identifier order.
pub open spec fn is_sorted_snapshot(dag: DagRecordView, jobs: Seq<JobSnapshotView>) -> bool {
    &&& jobs.len() == dag.jobs.len()
    &&& forall|i: int|
        0 <= i < jobs.len() ==> exists|j: int|
            0 <= j < dag.jobs.len() && #[trigger] jobs[i] == job_snapshot(dag.jobs[j])
    &&& forall|a: int, b: int| 0 <= a < b < jobs.len() ==> text_lt(jobs[a].id, jobs[b].id)
}


// ---------------------------------------------------------------- request histories

/// A request to the scheduler, with the arguments its operation takes.
pub enum Request {
    Submit { spec: DagSpecView, now: i64 },
    Claim { owner: Seq<char>, now: i64, lease_ms: i64 },
    Heartbeat {
        dag_id: Seq<char>,
        job_id: Seq<char>,
        owner: Seq<char>,
        token: Seq<char>,
        now: i64,
        lease_ms: i64,
    },
    Complete {
        dag_id: Seq<char>,
        job_id: Seq<char>,
        owner: Seq<char>,
        token: Seq<char>,
        result: Seq<char>,
        now: i64,
    },
    Fail { dag_id: Seq<char>, job_id: Seq<char>, owner: Seq<char>, token: Seq<char>, now: i64 },
    Reap { now: i64 },
    Cancel { dag_id: Seq<char> },
}

/// The state after serving request `r` in state `s`; a refused request leaves the state as it was.
#[verifier::opaque]
pub open spec fn apply(s: SchedulerView, r: Request) -> SchedulerView {
    match r {
        Request::Submit { spec, now } => match submit_outcome(s, spec, now) {
            Ok(t) => t,
            Err(_) => s,
        },
        Request::Claim { owner, now, lease_ms } => if lease_request_valid(s.config, owner, lease_ms) {
            claim_outcome(s, owner, now, lease_ms).0
        } else {
            s
        },
        Request::Heartbeat { dag_id, job_id, owner, token, now, lease_ms } => match heartbeat_outcome(
            s,
            dag_id,
            job_id,
            owner,
            token,
            now,
            lease_ms,
        ) {
            Ok(p) => p.0,
            Err(_) => s,
        },
        Request::Complete { dag_id, job_id, owner, token, result, now } => match complete_outcome(
            s,
            dag_id,
            job_id,
            owner,
            token,
            result,
            now,
        ) {
            Ok(t) => t,
            Err(_) => s,
        },
        Request::Fail { dag_id, job_id, owner, token, now } => match fail_outcome(
            s,
            dag_id,
            job_id,
            owner,
            token,
            now,
        ) {
            Ok(p) => p.0,
            Err(_) => s,
        },
        Request::Reap { now } => reaped(s, now),
        Request::Cancel { dag_id } => match cancel_outcome(s, dag_id) {
            Ok(p) => p.0,
            Err(_) => s,
        },
    }
}

/// The job that serving `r` in state `s` hands out, if `r` is a claim that leases one.
pub open spec fn handed_out(s: SchedulerView, r: Request) -> Option<ClaimedJobView> {
    match r {
        Request::Claim { owner, now, lease_ms } => if lease_request_valid(s.config, owner, lease_ms) {
            claim_outcome(s, owner, now, lease_ms).1
        } else {
            None
        },
        _ => None,
    }
}

/// The states that serving `reqs` one after another passes through, starting from `s0`.
pub open spec fn history(s0: SchedulerView, reqs: Seq<Request>) -> Seq<SchedulerView>
    decreases reqs.len(),
{
    if reqs.len() == 0 {
        seq![s0]
    } else {
        let h = history(s0, reqs.drop_last());
        h.push(apply(h.last(), reqs.last()))
    }
}

/// The ready-queue order is a strict total order on keys.
pub proof fn lemma_key_order(a: ReadyKeyView, b: ReadyKeyView, c: ReadyKeyView)
    ensures
        !key_lt(a, a),
        !(key_lt(a, b) && key_lt(b, a)),
        key_lt(a, b) && key_lt(b, c) ==> key_lt(a, c),
        a != b ==> key_lt(a, b) || key_lt(b, a),
{
    crate::text::lemma_text_lt_order(a.dag_id, b.dag_id, c.dag_id);
    crate::text::lemma_text_lt_order(a.job_id, b.job_id, c.job_id);
    crate::text::lemma_text_lt_order(b.dag_id, c.dag_id, a.dag_id);
    crate::text::lemma_text_lt_order(b.job_id, c.job_id, a.job_id);
    crate::text::lemma_text_lt_order(a.dag_id, c.dag_id, b.dag_id);
    crate::text::lemma_text_lt_order(a.job_id, c.job_id, b.job_id);
}

} // verus!
