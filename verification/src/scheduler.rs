//! The deterministic in-memory scheduler and its lease state machine.

use vstd::prelude::*;
use crate::domain::{
    dag_fault, index_edges, lemma_distinct_ids, lemma_first_job_fault_none, valid_policy,
    DagSnapshot, DagSpec, JobKind, JobSnapshot, JobSpec, JobState, ValidationError,
    MAX_PAYLOAD_BYTES,
};
use crate::graph::{edges_within, occurrences, pending_in, targets_of};
use crate::scheduler_model::{
    admitted_dag, best_ready, clamp_i64, claim_outcome, completed_dag, cancelled_dag, dag_lookup,
    dag_wf, default_config, drop_stale, eligible, expired_in_dags, expired_in_jobs, in_degree,
    is_best, is_sorted_snapshot, job_lookup, job_snapshot, job_wf, jitter, key_at, key_lt,
    lease_check, lease_request_valid, lease_token, leased, lemma_key_order, lemma_two_pow_mono,
    heartbeat_outcome, fail_outcome, complete_outcome, cancel_outcome, renewed, popped,
    queued_in_dags, reap_job, stale_dropped, queued_in_jobs, ready_len, reaped, released, retried,
    retry_bound, scheduler_wf, sources_in, submit_outcome, unfinished_in, unmet_into, with_job,
    id_hash, two_pow, ClaimedJobView, DagRecordView, JobRecordView, LeaseView, ReadyKeyView,
    SchedulerErrorView, SchedulerView, apply, handed_out, Request,
};
use crate::text::{push_decimal, str_eq, str_less, text_lt};

pub use crate::scheduler_model::SchedulerConfig;

verus! {

impl Default for SchedulerConfig {
    fn default() -> (r: Self)
        ensures
            r == default_config(),
    {
        SchedulerConfig {
            max_dags: 100,
            max_ready_jobs: 10000,
            max_lease_ms: 60000,
            base_retry_ms: 1000,
            max_retry_ms: 60000,
        }
    }
}

/// A job handed to a worker together with its lease.
#[derive(Clone, Debug, PartialEq, Eq)]
pub struct ClaimedJob {
    pub dag_id: String,
    pub job_id: String,
    pub kind: JobKind,
    pub payload: String,
    pub attempt: u16,
    pub lease_token: String,
    pub lease_expires_at_ms: i64,
}

impl View for ClaimedJob {
    type V = ClaimedJobView;

    open spec fn view(&self) -> ClaimedJobView {
        ClaimedJobView {
            dag_id: self.dag_id@,
            job_id: self.job_id@,
            kind: self.kind,
            payload: self.payload@,
            attempt: self.attempt,
            lease_token: self.lease_token@,
            lease_expires_at_ms: self.lease_expires_at_ms,
        }
    }
}

#[derive(Clone, Debug, PartialEq, Eq)]
pub enum SchedulerError {
    Validation(ValidationError),
    DagAlreadyExists,
    DagNotFound,
    JobNotFound,
    Overloaded,
    InvalidLease,
    LeaseConflict,
    ResultTooLarge,
}

impl View for SchedulerError {
    type V = SchedulerErrorView;

    open spec fn view(&self) -> SchedulerErrorView {
        match self {
            SchedulerError::Validation(e) => SchedulerErrorView::Validation(e@),
            SchedulerError::DagAlreadyExists => SchedulerErrorView::DagAlreadyExists,
            SchedulerError::DagNotFound => SchedulerErrorView::DagNotFound,
            SchedulerError::JobNotFound => SchedulerErrorView::JobNotFound,
            SchedulerError::Overloaded => SchedulerErrorView::Overloaded,
            SchedulerError::InvalidLease => SchedulerErrorView::InvalidLease,
            SchedulerError::LeaseConflict => SchedulerErrorView::LeaseConflict,
            SchedulerError::ResultTooLarge => SchedulerErrorView::ResultTooLarge,
        }
    }
}

impl SchedulerError {
    /// The human-readable text of this error.
    pub fn message(&self) -> (r: String)
        ensures
            r@ == scheduler_message(self@),
    {
        match self {
            SchedulerError::Validation(e) => e.message(),
            SchedulerError::DagAlreadyExists => "DAG already exists".to_owned(),
            SchedulerError::DagNotFound => "DAG not found".to_owned(),
            SchedulerError::JobNotFound => "job not found".to_owned(),
            SchedulerError::Overloaded => "admission limit exceeded".to_owned(),
            SchedulerError::InvalidLease => "lease duration or owner is invalid".to_owned(),
            SchedulerError::LeaseConflict => "lease is missing, expired, or owned by another worker".to_owned(),
            SchedulerError::ResultTooLarge => "result exceeds the payload limit".to_owned(),
        }
    }
}

/// The human-readable text of a scheduler error.
pub open spec fn scheduler_message(e: SchedulerErrorView) -> Seq<char> {
    match e {
        SchedulerErrorView::Validation(v) => crate::domain::validation_message(v),
        SchedulerErrorView::DagAlreadyExists => "DAG already exists"@,
        SchedulerErrorView::DagNotFound => "DAG not found"@,
        SchedulerErrorView::JobNotFound => "job not found"@,
        SchedulerErrorView::Overloaded => "admission limit exceeded"@,
        SchedulerErrorView::InvalidLease => "lease duration or owner is invalid"@,
        SchedulerErrorView::LeaseConflict => "lease is missing, expired, or owned by another worker"@,
        SchedulerErrorView::ResultTooLarge => "result exceeds the payload limit"@,
    }
}

struct Lease {
    owner: String,
    token: String,
    expires_at_ms: i64,
}

impl View for Lease {
    type V = LeaseView;

    closed spec fn view(&self) -> LeaseView {
        LeaseView { owner: self.owner@, token: self.token@, expires_at_ms: self.expires_at_ms }
    }
}

struct JobRecord {
    spec: JobSpec,
    state: JobState,
    attempts: u16,
    available_at_ms: i64,
    remaining_dependencies: usize,
    lease: Option<Lease>,
    result: Option<String>,
    queued: bool,
}

impl View for JobRecord {
    type V = JobRecordView;

    closed spec fn view(&self) -> JobRecordView {
        JobRecordView {
            spec: self.spec@,
            state: self.state,
            attempts: self.attempts,
            available_at_ms: self.available_at_ms,
            remaining_dependencies: self.remaining_dependencies as nat,
            lease: match self.lease {
                Some(l) => Some(l@),
                None => None,
            },
            result: self.result.deep_view(),
            queued: self.queued,
        }
    }
}

struct DagRecord {
    id: String,
    jobs: Vec<JobRecord>,
    dependents: Vec<Vec<usize>>,
}

impl View for DagRecord {
    type V = DagRecordView;

    closed spec fn view(&self) -> DagRecordView {
        DagRecordView {
            id: self.id@,
            jobs: self.jobs@.map_values(|j: JobRecord| j@),
            dependents: self.dependents@.map_values(|v: Vec<usize>| v@),
        }
    }
}

/// In-memory scheduler: admitted graphs, the ready queue, and the lease sequence number.
pub struct Scheduler {
    config: SchedulerConfig,
    dags: Vec<DagRecord>,
    sequence: u64,
}

impl View for Scheduler {
    type V = SchedulerView;

    closed spec fn view(&self) -> SchedulerView {
        SchedulerView {
            config: self.config,
            dags: self.dags@.map_values(|d: DagRecord| d@),
            sequence: self.sequence,
        }
    }
}

fn copy_job_spec(job: &JobSpec) -> (r: JobSpec)
    ensures
        r@ == job@,
{
    JobSpec {
        id: job.id.clone(),
        kind: job.kind,
        payload: job.payload.clone(),
        max_attempts: job.max_attempts,
        priority: job.priority,
    }
}

/// `a + b` saturated into the range of `i64`.
fn saturating_add_i64(a: i64, b: i64) -> (r: i64)
    ensures
        r == clamp_i64(a + b),
{
    let s: i128 = a as i128 + b as i128;
    if s > i64::MAX as i128 {
        i64::MAX
    } else if s < i64::MIN as i128 {
        i64::MIN
    } else {
        s as i64
    }
}

/// `a * b` saturated into the range of `i64`.
fn saturating_mul_i64(a: i64, b: i64) -> (r: i64)
    ensures
        r == clamp_i64(a * b),
{
    assert(-0x8000_0000_0000_0000_0000_0000_0000_0000 < (a as int) * (b as int)
        < 0x7fff_ffff_ffff_ffff_ffff_ffff_ffff_ffff) by (nonlinear_arith)
        requires
            i64::MIN <= a <= i64::MAX,
            i64::MIN <= b <= i64::MAX,
    ;
    let p: i128 = a as i128 * b as i128;
    if p > i64::MAX as i128 {
        i64::MAX
    } else if p < i64::MIN as i128 {
        i64::MIN
    } else {
        p as i64
    }
}

proof fn lemma_occurrences_push(x: Seq<usize>, t: usize, k: usize)
    ensures
        occurrences(x.push(t), k) == occurrences(x, k) + if t == k {
            1nat
        } else {
            0nat
        },
{
    assert(x.push(t).drop_last() =~= x);
}

proof fn lemma_unmet_push(
    jobs: Seq<JobRecordView>,
    deps1: Seq<Seq<usize>>,
    deps2: Seq<Seq<usize>>,
    k: usize,
    i: nat,
    f: int,
    t: usize,
)
    requires
        0 <= f < deps1.len(),
        i <= deps1.len(),
        deps2 == deps1.update(f, deps1[f].push(t)),
        jobs[f].state != JobState::Succeeded,
    ensures
        unmet_into(jobs, deps2, k, i) == unmet_into(jobs, deps1, k, i) + if f < i && t == k {
            1nat
        } else {
            0nat
        },
    decreases i,
{
    if i > 0 {
        lemma_unmet_push(jobs, deps1, deps2, k, (i - 1) as nat, f, t);
        if i - 1 == f {
            lemma_occurrences_push(deps1[f], t, k);
        }
    }
}

proof fn lemma_unmet_empty(jobs: Seq<JobRecordView>, deps: Seq<Seq<usize>>, k: usize, i: nat)
    requires
        i <= deps.len(),
        forall|q: int| 0 <= q < deps.len() ==> (#[trigger] deps[q]).len() == 0,
    ensures
        unmet_into(jobs, deps, k, i) == 0,
    decreases i,
{
    if i > 0 {
        lemma_unmet_empty(jobs, deps, k, (i - 1) as nat);
    }
}

/// With no succeeded job, the unmet dependencies into `k` are all dependencies into `k`.
proof fn lemma_unmet_initial(jobs: Seq<JobRecordView>, edges: Seq<(usize, usize)>, n: nat, k: usize)
    requires
        n <= usize::MAX,
        edges_within(n, edges),
        jobs.len() == n,
        forall|q: int| 0 <= q < n ==> (#[trigger] jobs[q]).state != JobState::Succeeded,
    ensures
        unmet_into(jobs, Seq::new(n, |i: int| targets_of(edges, i as usize)), k, n) == in_degree(
            edges,
            k,
        ),
    decreases edges.len(),
{
    let deps = Seq::new(n, |i: int| targets_of(edges, i as usize));
    if edges.len() == 0 {
        lemma_unmet_empty(jobs, deps, k, n);
    } else {
        let e0 = edges.drop_last();
        let (f, t) = edges.last();
        assert(edges_within(n, e0)) by {
            assert forall|e: int| 0 <= e < e0.len() implies (#[trigger] e0[e]).0 < n && e0[e].1 < n by {
                assert(e0[e] == edges[e]);
            }
        }
        lemma_unmet_initial(jobs, e0, n, k);
        let deps0 = Seq::new(n, |i: int| targets_of(e0, i as usize));
        assert(edges[edges.len() - 1] == (f, t));
        assert forall|i: int| 0 <= i < n implies #[trigger] deps[i] == deps0.update(
            f as int,
            deps0[f as int].push(t),
        )[i] by {
            assert(edges.drop_last() == e0);
            if i == f {
                assert(targets_of(edges, i as usize) == targets_of(e0, i as usize).push(t));
            } else {
                assert(targets_of(edges, i as usize) == targets_of(e0, i as usize));
            }
        }
        assert(f < n);
        assert(deps =~= deps0.update(f as int, deps0[f as int].push(t)));
        lemma_unmet_push(jobs, deps0, deps, k, n, f as int, t);
        assert(!Seq::<usize>::empty().contains(f));
    }
}

proof fn lemma_targets_within(edges: Seq<(usize, usize)>, u: usize, n: nat)
    requires
        edges_within(n, edges),
    ensures
        forall|t: int| 0 <= t < targets_of(edges, u).len() ==> #[trigger] targets_of(edges, u)[t] < n,
    decreases edges.len(),
{
    if edges.len() > 0 {
        let e0 = edges.drop_last();
        assert(edges_within(n, e0)) by {
            assert forall|e: int| 0 <= e < e0.len() implies (#[trigger] e0[e]).0 < n && e0[e].1 < n by {
                assert(e0[e] == edges[e]);
            }
        }
        lemma_targets_within(e0, u, n);
        assert(edges[edges.len() - 1] == edges.last());
        let x = targets_of(e0, u);
        if edges.last().0 == u {
            assert forall|t: int| 0 <= t < targets_of(edges, u).len() implies #[trigger] targets_of(
                edges,
                u,
            )[t] < n by {
                assert(targets_of(edges, u) == x.push(edges.last().1));
                if t < x.len() {
                    assert(targets_of(edges, u)[t] == x[t]);
                }
            }
        }
    }
}

/// A newly admitted graph is well formed.
pub(crate) proof fn lemma_admitted_wf(spec: crate::domain::DagSpecView, now: i64)
    requires
        dag_fault(spec) is None,
        edges_within(spec.jobs.len(), index_edges(spec)),
    ensures
        dag_wf(admitted_dag(spec, now)),
{
    let dag = admitted_dag(spec, now);
    let edges = index_edges(spec);
    let n = spec.jobs.len();
    lemma_distinct_ids(spec);
    assert forall|i: int, t: int|
        0 <= i < dag.dependents.len() && 0 <= t < dag.dependents[i].len() implies #[trigger] dag.dependents[i][t]
        < dag.jobs.len() by {
        lemma_targets_within(edges, i as usize, n);
    }
    assert forall|j: int| 0 <= j < dag.jobs.len() implies job_wf(#[trigger] dag.jobs[j]) by {
        lemma_first_job_fault_none(spec.jobs, n, j);
        assert(valid_policy(spec.jobs[j]));
    }
    assert forall|k: int| 0 <= k < dag.jobs.len() implies (#[trigger] dag.jobs[k]).remaining_dependencies
        == unmet_into(dag.jobs, dag.dependents, k as usize, dag.jobs.len()) by {
        lemma_unmet_initial(dag.jobs, edges, n, k as usize);
    }
}



pub(crate) proof fn lemma_unmet_frame(
    jobs1: Seq<JobRecordView>,
    jobs2: Seq<JobRecordView>,
    deps: Seq<Seq<usize>>,
    k: usize,
    i: nat,
)
    requires
        i <= jobs1.len(),
        i <= jobs2.len(),
        forall|q: int|
            0 <= q < i ==> ((#[trigger] jobs1[q]).state == JobState::Succeeded) == (jobs2[q].state
                == JobState::Succeeded),
    ensures
        unmet_into(jobs1, deps, k, i) == unmet_into(jobs2, deps, k, i),
    decreases i,
{
    if i > 0 {
        lemma_unmet_frame(jobs1, jobs2, deps, k, (i - 1) as nat);
        assert(jobs1[i - 1].state == JobState::Succeeded <==> jobs2[i - 1].state
            == JobState::Succeeded);
    }
}

/// Replacing one job by a well-formed record with the same specification, dependency count
/// and success status keeps the scheduler well formed.
pub(crate) proof fn lemma_with_job_wf(s: SchedulerView, d: int, j: int, job: JobRecordView)
    requires
        scheduler_wf(s),
        0 <= d < s.dags.len(),
        0 <= j < s.dags[d].jobs.len(),
        job_wf(job),
        job.spec == s.dags[d].jobs[j].spec,
        job.remaining_dependencies == s.dags[d].jobs[j].remaining_dependencies,
        (job.state == JobState::Succeeded) == (s.dags[d].jobs[j].state == JobState::Succeeded),
    ensures
        scheduler_wf(with_job(s, d, j, job)),
{
    let t = with_job(s, d, j, job);
    let dag = s.dags[d];
    let nd = t.dags[d];
    assert(nd.jobs == dag.jobs.update(j, job));
    assert forall|a: int, b: int|
        0 <= a < nd.jobs.len() && 0 <= b < nd.jobs.len() && a != b implies (#[trigger] nd.jobs[a]).spec.id
        != (#[trigger] nd.jobs[b]).spec.id by {
        assert(nd.jobs[a].spec.id == dag.jobs[a].spec.id);
        assert(nd.jobs[b].spec.id == dag.jobs[b].spec.id);
    }
    assert forall|q: int| 0 <= q < nd.jobs.len() implies job_wf(#[trigger] nd.jobs[q]) by {
        if q != j {
            assert(nd.jobs[q] == dag.jobs[q]);
        }
    }
    assert forall|k: int| 0 <= k < nd.jobs.len() implies (#[trigger] nd.jobs[k]).remaining_dependencies
        == unmet_into(nd.jobs, nd.dependents, k as usize, nd.jobs.len()) by {
        assert forall|q: int| 0 <= q < nd.jobs.len() implies ((#[trigger] dag.jobs[q]).state
            == JobState::Succeeded) == (nd.jobs[q].state == JobState::Succeeded) by {
            if q != j {
                assert(nd.jobs[q] == dag.jobs[q]);
            }
        }
        lemma_unmet_frame(dag.jobs, nd.jobs, dag.dependents, k as usize, dag.jobs.len());
        if k != j {
            assert(nd.jobs[k] == dag.jobs[k]);
        }
    }
    assert(dag_wf(nd));
    assert forall|a: int, b: int|
        0 <= a < t.dags.len() && 0 <= b < t.dags.len() && a != b implies (#[trigger] t.dags[a]).id != (
        #[trigger] t.dags[b]).id by {
        assert(t.dags[a].id == s.dags[a].id);
        assert(t.dags[b].id == s.dags[b].id);
    }
    assert forall|x: int| 0 <= x < t.dags.len() implies dag_wf(#[trigger] t.dags[x]) by {
        if x != d {
            assert(t.dags[x] == s.dags[x]);
        }
    }
}


/// `a` and `b` differ at most in the records of their jobs.
spec fn same_frame(a: SchedulerView, b: SchedulerView) -> bool {
    &&& a.config == b.config
    &&& a.sequence == b.sequence
    &&& a.dags.len() == b.dags.len()
    &&& forall|x: int|
        0 <= x < a.dags.len() ==> {
            &&& (#[trigger] a.dags[x]).id == b.dags[x].id
            &&& a.dags[x].dependents == b.dags[x].dependents
            &&& a.dags[x].jobs.len() == b.dags[x].jobs.len()
        }
}

/// Position `(x, y)` comes before `(d, j)` in graph-major order.
spec fn visited(x: int, y: int, d: int, j: int) -> bool {
    x < d || (x == d && y < j)
}


/// The order key of the job at `bound`, if any.
spec fn bound_key(s: SchedulerView, bound: Option<(usize, usize)>) -> Option<ReadyKeyView> {
    match bound {
        Some(p) => Some(key_at(s, p.0 as int, p.1 as int)),
        None => None,
    }
}

/// Two best jobs are the same job, so the best job is the one `best_ready` picks.
proof fn lemma_best_ready_is(s: SchedulerView, d: int, j: int, now: i64)
    requires
        scheduler_wf(s),
        is_best(s, d, j, now),
    ensures
        best_ready(s, now) == Some((d, j)),
{
    assert(exists|a: int, b: int| is_best(s, a, b, now));
    let (d2, j2) = choose|a: int, b: int| is_best(s, a, b, now);
    assert(is_best(s, d2, j2, now));
    assert(eligible(s, d2, j2, now));
    assert(eligible(s, d, j, now));
    let k1 = key_at(s, d, j);
    let k2 = key_at(s, d2, j2);
    assert(!key_lt(k2, k1));
    assert(!key_lt(k1, k2));
    lemma_key_order(k1, k2, k1);
    assert(k1 == k2);
    assert(s.dags[d].id == s.dags[d2].id);
    if d != d2 {
        assert(s.dags[d].id != s.dags[d2].id);
    }
    assert(d == d2);
    assert(dag_wf(s.dags[d]));
    if j != j2 {
        assert(s.dags[d].jobs[j].spec.id != s.dags[d].jobs[j2].spec.id);
    }
}


/// Releasing through `m` dependencies and then through one more is releasing through `m + 1`.
proof fn lemma_released_step(x: JobRecordView, m: nat, now: i64)
    ensures
        released(released(x, m, now), 1, now) == released(x, m + 1, now),
{
}

/// Marking a not-yet-succeeded job `j` as succeeded removes its dependencies from the unmet count.
proof fn lemma_unmet_success(
    jobs: Seq<JobRecordView>,
    jobs1: Seq<JobRecordView>,
    deps: Seq<Seq<usize>>,
    k: usize,
    i: nat,
    j: int,
)
    requires
        i <= jobs.len(),
        jobs1.len() == jobs.len(),
        0 <= j < jobs.len(),
        jobs[j].state != JobState::Succeeded,
        jobs1[j].state == JobState::Succeeded,
        forall|q: int|
            0 <= q < jobs.len() && q != j ==> ((#[trigger] jobs1[q]).state == JobState::Succeeded)
                == (jobs[q].state == JobState::Succeeded),
    ensures
        unmet_into(jobs1, deps, k, i) + (if j < i {
            occurrences(deps[j], k)
        } else {
            0nat
        }) == unmet_into(jobs, deps, k, i),
    decreases i,
{
    if i > 0 {
        lemma_unmet_success(jobs, jobs1, deps, k, (i - 1) as nat, j);
        if i - 1 != j {
            assert((jobs1[i - 1].state == JobState::Succeeded) == (jobs[i - 1].state
                == JobState::Succeeded));
        }
    }
}

/// Completing a leased job keeps the scheduler well formed.
pub(crate) proof fn lemma_completed_wf(s: SchedulerView, d: int, j: int, result: Seq<char>, now: i64)
    requires
        scheduler_wf(s),
        0 <= d < s.dags.len(),
        0 <= j < s.dags[d].jobs.len(),
        s.dags[d].jobs[j].state == JobState::Leased,
    ensures
        scheduler_wf(
            SchedulerView { dags: s.dags.update(d, completed_dag(s.dags[d], j, result, now)), ..s },
        ),
{
    let t = SchedulerView { dags: s.dags.update(d, completed_dag(s.dags[d], j, result, now)), ..s };
    let dag = s.dags[d];
    let n = dag.jobs.len();
    let finished = JobRecordView {
        state: JobState::Succeeded,
        lease: None,
        result: Some(result),
        ..dag.jobs[j]
    };
    let jobs1 = dag.jobs.update(j, finished);
    let nd = completed_dag(dag, j, result, now);
    assert(dag_wf(dag));
    assert(job_wf(dag.jobs[j]));
    assert(nd.jobs.len() == n);
    assert forall|q: int| 0 <= q < n implies #[trigger] nd.jobs[q] == released(
        jobs1[q],
        occurrences(dag.dependents[j], q as usize),
        now,
    ) by {}
    assert forall|q: int|
        0 <= q < n implies ((#[trigger] nd.jobs[q]).state == JobState::Succeeded) == (jobs1[q].state
        == JobState::Succeeded) by {
        let m = occurrences(dag.dependents[j], q as usize);
        assert(nd.jobs[q] == released(jobs1[q], m, now));
    }
    assert forall|k: int| 0 <= k < n implies {
        &&& job_wf(#[trigger] nd.jobs[k])
        &&& nd.jobs[k].remaining_dependencies == unmet_into(nd.jobs, nd.dependents, k as usize, n)
    } by {
        let m = occurrences(dag.dependents[j], k as usize);
        assert forall|q: int|
            0 <= q < jobs1.len() && q != j implies ((#[trigger] jobs1[q]).state == JobState::Succeeded)
            == (dag.jobs[q].state == JobState::Succeeded) by {}
        lemma_unmet_success(dag.jobs, jobs1, dag.dependents, k as usize, n, j);
        lemma_unmet_frame(nd.jobs, jobs1, dag.dependents, k as usize, n);
        assert(dag.jobs[k].remaining_dependencies == unmet_into(
            dag.jobs,
            dag.dependents,
            k as usize,
            n,
        ));
        assert(job_wf(dag.jobs[k]));
        if k == j {
            assert(m == 0);
        }
        assert(nd.jobs[k] == released(jobs1[k], m, now));
    }
    assert forall|a: int, b: int|
        0 <= a < n && 0 <= b < n && a != b implies (#[trigger] nd.jobs[a]).spec.id
        != (#[trigger] nd.jobs[b]).spec.id by {
        assert(nd.jobs[a] == released(jobs1[a], occurrences(dag.dependents[j], a as usize), now));
        assert(nd.jobs[b] == released(jobs1[b], occurrences(dag.dependents[j], b as usize), now));
        assert(dag.jobs[a].spec.id != dag.jobs[b].spec.id);
    }
    assert(dag_wf(nd));
    assert forall|a: int, b: int|
        0 <= a < t.dags.len() && 0 <= b < t.dags.len() && a != b implies (#[trigger] t.dags[a]).id != (
        #[trigger] t.dags[b]).id by {
        assert(t.dags[a].id == s.dags[a].id);
        assert(t.dags[b].id == s.dags[b].id);
    }
    assert forall|x: int| 0 <= x < t.dags.len() implies dag_wf(#[trigger] t.dags[x]) by {
        if x != d {
            assert(t.dags[x] == s.dags[x]);
        }
    }
}

/// `2^e` for an exponent of at most 16.
fn small_two_pow(e: u32) -> (r: i64)
    requires
        e <= 16,
    ensures
        r == two_pow(e as nat),
{
    let mut p: i64 = 1;
    let mut i: u32 = 0;
    while i < e
        invariant
            i <= e <= 16,
            p == two_pow(i as nat),
        decreases e - i,
    {
        proof {
            lemma_two_pow_mono(i as nat, 16);
            reveal_with_fuel(two_pow, 17);
            assert(two_pow(16) == 65536);
        }
        p = p * 2;
        i += 1;
    }
    p
}

/// Stable jitter below `ceiling` derived from the bytes of a job identifier.
fn deterministic_jitter(job_id: &str, ceiling: i64) -> (r: i64)
    ensures
        r == jitter(job_id@, ceiling),
{
    if ceiling <= 0 {
        return 0;
    }
    let bytes = job_id.as_bytes();
    let ghost b = bytes@;
    let mut hash: u64 = 0;
    let mut i: usize = 0;
    while i < bytes.len()
        invariant
            b == bytes@,
            i <= bytes.len(),
            hash == id_hash(b.take(i as int)),
        decreases bytes.len() - i,
    {
        assert(b.take(i + 1).drop_last() =~= b.take(i as int));
        let v: u128 = hash as u128 * 31 + bytes[i] as u128;
        hash = (v % 0x1_0000_0000_0000_0000u128) as u64;
        i += 1;
    }
    assert(b.take(i as int) =~= b);
    (hash % (ceiling as u64)) as i64
}

impl Scheduler {
    /// The scheduler's invariant.
    pub open spec fn wf(&self) -> bool {
        scheduler_wf(self@)
    }

    /// Creates an empty scheduler with explicit admission and timing limits.
    pub fn new(config: SchedulerConfig) -> (r: Self)
        ensures
            r@ == (SchedulerView { config, dags: Seq::empty(), sequence: 0 }),
            r.wf(),
    {
        let r = Scheduler { config, dags: Vec::new(), sequence: 0 };
        assert(r@.dags =~= Seq::<DagRecordView>::empty());
        r
    }

    /// Position of the graph named `id`.
    fn find_dag(&self, id: &str) -> (r: Option<usize>)
        requires
            self.wf(),
        ensures
            match r {
                Some(d) => dag_lookup(self@.dags, id@) == Some(d as int),
                None => dag_lookup(self@.dags, id@) is None,
            },
    {
        let ghost s = self@;
        let mut d: usize = 0;
        while d < self.dags.len()
            invariant
                s == self@,
                scheduler_wf(s),
                d <= self.dags.len(),
                s.dags.len() == self.dags.len(),
                forall|k: int| 0 <= k < d ==> (#[trigger] s.dags[k]).id != id@,
            decreases self.dags.len() - d,
        {
            assert(s.dags[d as int] == self.dags[d as int]@);
            if str_eq(self.dags[d].id.as_str(), id) {
                proof {
                    assert(s.dags[d as int].id == id@);
                    let c = choose|i: int| 0 <= i < s.dags.len() && (#[trigger] s.dags[i]).id == id@;
                    assert(c == d);
                }
                return Some(d);
            }
            d += 1;
        }
        None
    }


    /// Validates and admits a DAG, initializing zero-dependency jobs as ready.
    pub fn submit(&mut self, spec: DagSpec, now_ms: i64) -> (r: Result<(), SchedulerError>)
        requires
            old(self).wf(),
        ensures
            final(self)@ == apply(old(self)@, (Request::Submit { spec: spec@, now: now_ms })),
            final(self).wf(),
            match r {
                Ok(_) => submit_outcome(old(self)@, spec@, now_ms) == Ok::<SchedulerView, SchedulerErrorView>(final(self)@),
                Err(e) => submit_outcome(old(self)@, spec@, now_ms) == Err::<SchedulerView, SchedulerErrorView>(e@) && final(self)@ == old(
                    self,
                )@,
            },
    {
        proof {
            reveal(apply);
        }
        let ghost d = spec@;
        match spec.validate() {
            Err(e) => {
                return Err(SchedulerError::Validation(e));
            },
            Ok(_) => {},
        }
        if self.find_dag(spec.id.as_str()).is_some() {
            return Err(SchedulerError::DagAlreadyExists);
        }
        if self.dags.len() >= self.config.max_dags {
            return Err(SchedulerError::Overloaded);
        }
        let edges = spec.dependency_edges();
        let ghost all = edges@;
        let n = spec.jobs.len();
        assert(d.jobs.len() == n);
        let mut counts: Vec<usize> = Vec::new();
        let mut dependents: Vec<Vec<usize>> = Vec::new();
        let mut i: usize = 0;
        while i < n
            invariant
                i <= n,
                counts.len() == i,
                dependents.len() == i,
                forall|q: int| 0 <= q < i ==> #[trigger] counts[q] == 0,
                forall|q: int| 0 <= q < i ==> (#[trigger] dependents[q])@ == Seq::<usize>::empty(),
            decreases n - i,
        {
            counts.push(0);
            dependents.push(Vec::new());
            i += 1;
        }
        let ghost nothing: Seq<usize> = Seq::empty();
        let mut e: usize = 0;
        while e < edges.len()
            invariant
                nothing == Seq::<usize>::empty(),
                all == edges@,
                e <= edges.len(),
                edges.len() <= crate::domain::MAX_DEPENDENCIES_PER_DAG,
                edges_within(n as nat, all),
                counts.len() == n,
                dependents.len() == n,
                forall|v: int|
                    0 <= v < n ==> #[trigger] counts[v] as nat == pending_in(all.take(e as int), nothing, v as usize),
                forall|u: int| 0 <= u < n ==> (#[trigger] dependents[u])@ == targets_of(all.take(e as int), u as usize),
            decreases edges.len() - e,
        {
            let (from, to) = edges[e];
            let ghost prefix = all.take(e as int);
            let ghost next = all.take(e + 1);
            assert(next.drop_last() =~= prefix);
            assert(next.last() == all[e as int]);
            proof {
                crate::graph::lemma_pending_bounded(prefix, nothing, to);
            }
            counts.set(to, counts[to] + 1);
            assert forall|v: int| 0 <= v < n implies #[trigger] counts[v] as nat == pending_in(
                next,
                nothing,
                v as usize,
            ) by {
                assert(!nothing.contains(from));
            }
            let mut list = Vec::new();
            std::mem::swap(&mut list, &mut dependents[from]);
            list.push(to);
            dependents.set(from, list);
            e += 1;
        }
        assert(all.take(edges.len() as int) =~= all);
        assert(all == index_edges(d));
        let mut sources: u128 = 0;
        let mut q: usize = 0;
        while q < n
            invariant
                q <= n,
                n <= crate::domain::MAX_JOBS_PER_DAG,
                counts.len() == n,
                forall|v: int| 0 <= v < n ==> #[trigger] counts[v] as nat == in_degree(all, v as usize),
                sources == sources_in(all, q as nat),
                sources <= q,
            decreases n - q,
        {
            if counts[q] == 0 {
                sources = sources + 1;
            }
            q += 1;
        }
        let queued_now = self.ready_len();
        if queued_now + sources > self.config.max_ready_jobs as u128 {
            return Err(SchedulerError::Overloaded);
        }
        let ghost target = admitted_dag(d, now_ms);
        let mut jobs: Vec<JobRecord> = Vec::new();
        let mut k: usize = 0;
        while k < n
            invariant
                d == spec@,
                all == index_edges(d),
                target == admitted_dag(d, now_ms),
                n == spec.jobs.len(),
                k <= n,
                counts.len() == n,
                forall|v: int| 0 <= v < n ==> #[trigger] counts[v] as nat == in_degree(all, v as usize),
                jobs.len() == k,
                forall|p: int| 0 <= p < k ==> (#[trigger] jobs[p])@ == target.jobs[p],
            decreases n - k,
        {
            let rem = counts[k];
            assert(d.jobs[k as int] == spec.jobs[k as int]@);
            let job = JobRecord {
                spec: copy_job_spec(&spec.jobs[k]),
                state: if rem == 0 {
                    JobState::Ready
                } else {
                    JobState::Pending
                },
                attempts: 0,
                available_at_ms: now_ms,
                remaining_dependencies: rem,
                lease: None,
                result: None,
                queued: rem == 0,
            };
            jobs.push(job);
            k += 1;
        }
        let record = DagRecord { id: spec.id.clone(), jobs, dependents };
        assert(record@.jobs =~= target.jobs);
        assert(record@.dependents =~= target.dependents);
        assert(record@ == target);
        let ghost before = self@;
        self.dags.push(record);
        proof {
            assert(self@.dags =~= before.dags.push(target));
            lemma_admitted_wf(d, now_ms);
            assert forall|a: int, b: int|
                0 <= a < self@.dags.len() && 0 <= b < self@.dags.len() && a != b implies (
                #[trigger] self@.dags[a]).id != (#[trigger] self@.dags[b]).id by {
                if a == before.dags.len() && b < before.dags.len() {
                    assert(before.dags[b] == self@.dags[b]);
                }
                if b == before.dags.len() && a < before.dags.len() {
                    assert(before.dags[a] == self@.dags[a]);
                }
            }
            assert forall|x: int| 0 <= x < self@.dags.len() implies dag_wf(#[trigger] self@.dags[x]) by {
                if x < before.dags.len() {
                    assert(before.dags[x] == self@.dags[x]);
                }
            }
        }
        Ok(())
    }


    /// Records a failed or expired attempt of job `j` of graph `d`: the job is dead-lettered
    /// when its attempt budget is spent and otherwise waits for a bounded, jittered backoff.
    fn retry_or_dead_letter(&mut self, d: usize, j: usize, now_ms: i64) -> (r: JobState)
        requires
            old(self).wf(),
            d < old(self)@.dags.len(),
            j < old(self)@.dags[d as int].jobs.len(),
            old(self)@.dags[d as int].jobs[j as int].state == JobState::Leased,
        ensures
            final(self).wf(),
            final(self)@ == with_job(
                old(self)@,
                d as int,
                j as int,
                retried(old(self)@.config, old(self)@.dags[d as int].jobs[j as int], now_ms),
            ),
            r == retried(old(self)@.config, old(self)@.dags[d as int].jobs[j as int], now_ms).state,
    {
        let ghost s = self@;
        let ghost want = retried(s.config, s.dags[d as int].jobs[j as int], now_ms);
        assert(s.dags[d as int] == self.dags[d as int]@);
        assert(s.dags[d as int].jobs[j as int] == self.dags[d as int].jobs[j as int]@);
        let base_retry_ms = self.config.base_retry_ms;
        let max_retry_ms = self.config.max_retry_ms;
        let attempts = self.dags[d].jobs[j].attempts;
        let max_attempts = self.dags[d].jobs[j].spec.max_attempts;
        let state = if attempts >= max_attempts {
            self.dags[d].jobs[j].lease = None;
            self.dags[d].jobs[j].state = JobState::DeadLettered;
            JobState::DeadLettered
        } else {
            let exponent: u32 = if attempts == 0 {
                0
            } else if attempts - 1 > 16 {
                16
            } else {
                (attempts - 1) as u32
            };
            let base = saturating_mul_i64(base_retry_ms, small_two_pow(exponent));
            let bounded = if base <= max_retry_ms {
                base
            } else {
                max_retry_ms
            };
            assert(bounded == retry_bound(s.config, attempts));
            let ceiling: i64 = if bounded > 0 {
                bounded / 5
            } else {
                0
            };
            let jit = deterministic_jitter(self.dags[d].jobs[j].spec.id.as_str(), ceiling);
            let at = saturating_add_i64(saturating_add_i64(now_ms, bounded), jit);
            self.dags[d].jobs[j].lease = None;
            self.dags[d].jobs[j].available_at_ms = at;
            self.dags[d].jobs[j].state = JobState::RetryWait;
            self.dags[d].jobs[j].queued = true;
            JobState::RetryWait
        };
        proof {
            assert(self.dags[d as int].jobs[j as int]@ == want);
            assert(self@.dags[d as int].jobs =~= s.dags[d as int].jobs.update(j as int, want));
            assert(self@.dags =~= with_job(s, d as int, j as int, want).dags);
            lemma_with_job_wf(s, d as int, j as int, want);
        }
        state
    }


    /// Reclaims expired leases. Late workers cannot commit after this transition.
    pub fn reap(&mut self, now_ms: i64) -> (r: usize)
        requires
            old(self).wf(),
        ensures
            final(self)@ == apply(old(self)@, (Request::Reap { now: now_ms })),
            final(self).wf(),
            final(self)@ == reaped(old(self)@, now_ms),
            r as nat == if expired_in_dags(old(self)@.dags, now_ms, old(self)@.dags.len())
                > usize::MAX {
                usize::MAX as nat
            } else {
                expired_in_dags(old(self)@.dags, now_ms, old(self)@.dags.len())
            },
    {
        proof {
            reveal(apply);
        }
        let ghost s = self@;
        let ghost mut exact: nat = 0;
        let mut count: usize = 0;
        let mut d: usize = 0;
        while d < self.dags.len()
            invariant
                self.wf(),
                same_frame(self@, s),
                d <= self@.dags.len(),
                forall|x: int, y: int|
                    0 <= x < s.dags.len() && 0 <= y < s.dags[x].jobs.len() ==> (#[trigger] self@.dags[x].jobs[y])
                        == if x < d {
                        reap_job(s.config, s.dags[x].jobs[y], now_ms)
                    } else {
                        s.dags[x].jobs[y]
                    },
                exact == expired_in_dags(s.dags, now_ms, d as nat),
                count as nat == if exact > usize::MAX {
                    usize::MAX as nat
                } else {
                    exact
                },
            decreases self@.dags.len() - d,
        {
            let mut j: usize = 0;
            let ghost base = exact;
            while j < self.dags[d].jobs.len()
                invariant
                    self.wf(),
                    same_frame(self@, s),
                    d < self@.dags.len(),
                    j <= self@.dags[d as int].jobs.len(),
                    forall|x: int, y: int|
                        0 <= x < s.dags.len() && 0 <= y < s.dags[x].jobs.len() ==> (#[trigger] self@.dags[x].jobs[y])
                            == if visited(x, y, d as int, j as int) {
                            reap_job(s.config, s.dags[x].jobs[y], now_ms)
                        } else {
                            s.dags[x].jobs[y]
                        },
                    base == expired_in_dags(s.dags, now_ms, d as nat),
                    exact == base + expired_in_jobs(s.dags[d as int].jobs, now_ms, j as nat),
                    count as nat == if exact > usize::MAX {
                        usize::MAX as nat
                    } else {
                        exact
                    },
                decreases self@.dags[d as int].jobs.len() - j,
            {
                let ghost cur = self@;
                assert(cur.dags[d as int] == self.dags[d as int]@);
                assert(cur.dags[d as int].jobs[j as int] == self.dags[d as int].jobs[j as int]@);
                assert(cur.dags[d as int].jobs[j as int] == s.dags[d as int].jobs[j as int]);
                let expired = match &self.dags[d].jobs[j].lease {
                    Some(l) => self.dags[d].jobs[j].state == JobState::Leased && l.expires_at_ms
                        <= now_ms,
                    None => false,
                };
                if expired {
                    self.retry_or_dead_letter(d, j, now_ms);
                    count = if count == usize::MAX {
                        usize::MAX
                    } else {
                        count + 1
                    };
                }
                proof {
                    exact = exact + if expired {
                        1nat
                    } else {
                        0nat
                    };
                    assert forall|x: int, y: int|
                        0 <= x < s.dags.len() && 0 <= y < s.dags[x].jobs.len() implies (#[trigger] self@.dags[x].jobs[y])
                            == if visited(x, y, d as int, j + 1) {
                            reap_job(s.config, s.dags[x].jobs[y], now_ms)
                        } else {
                            s.dags[x].jobs[y]
                        } by {
                        if x == d && y == j {
                        } else {
                            assert(self@.dags[x].jobs[y] == cur.dags[x].jobs[y]);
                        }
                    }
                    assert forall|x: int| 0 <= x < self@.dags.len() implies {
                        &&& (#[trigger] self@.dags[x]).id == s.dags[x].id
                        &&& self@.dags[x].dependents == s.dags[x].dependents
                        &&& self@.dags[x].jobs.len() == s.dags[x].jobs.len()
                    } by {
                        assert(cur.dags[x].id == s.dags[x].id);
                    }
                }
                j += 1;
            }
            d += 1;
        }
        proof {
            let want = reaped(s, now_ms);
            assert forall|x: int| 0 <= x < s.dags.len() implies #[trigger] self@.dags[x] == want.dags[x] by {
                assert(self@.dags[x].jobs =~= want.dags[x].jobs);
            }
            assert(self@.dags =~= want.dags);
        }
        count
    }


    /// Whether the key of job `(d1, j1)` comes before the key of job `(d2, j2)`.
    fn key_less(&self, d1: usize, j1: usize, d2: usize, j2: usize) -> (r: bool)
        requires
            self.wf(),
            d1 < self@.dags.len(),
            j1 < self@.dags[d1 as int].jobs.len(),
            d2 < self@.dags.len(),
            j2 < self@.dags[d2 as int].jobs.len(),
        ensures
            r == key_lt(key_at(self@, d1 as int, j1 as int), key_at(self@, d2 as int, j2 as int)),
    {
        let ghost s = self@;
        assert(s.dags[d1 as int] == self.dags[d1 as int]@);
        assert(s.dags[d2 as int] == self.dags[d2 as int]@);
        assert(s.dags[d1 as int].jobs[j1 as int] == self.dags[d1 as int].jobs[j1 as int]@);
        assert(s.dags[d2 as int].jobs[j2 as int] == self.dags[d2 as int].jobs[j2 as int]@);
        assert(job_wf(s.dags[d1 as int].jobs[j1 as int]));
        assert(job_wf(s.dags[d2 as int].jobs[j2 as int]));
        let x = &self.dags[d1].jobs[j1];
        let y = &self.dags[d2].jobs[j2];
        if x.available_at_ms != y.available_at_ms {
            return x.available_at_ms < y.available_at_ms;
        }
        let rank_x: i32 = 100 - x.spec.priority as i32;
        let rank_y: i32 = 100 - y.spec.priority as i32;
        if rank_x != rank_y {
            return rank_x < rank_y;
        }
        let dag_x = self.dags[d1].id.as_str();
        let dag_y = self.dags[d2].id.as_str();
        if str_less(dag_x, dag_y) {
            return true;
        }
        if !str_eq(dag_x, dag_y) {
            return false;
        }
        str_less(x.spec.id.as_str(), y.spec.id.as_str())
    }

    /// The eligible job with the smallest key, if any.
    fn best_eligible(&self, now_ms: i64) -> (r: Option<(usize, usize)>)
        requires
            self.wf(),
        ensures
            match r {
                Some(p) => is_best(self@, p.0 as int, p.1 as int, now_ms),
                None => forall|x: int, y: int| !eligible(self@, x, y, now_ms),
            },
    {
        let ghost s = self@;
        let mut best: Option<(usize, usize)> = None;
        let mut d: usize = 0;
        while d < self.dags.len()
            invariant
                s == self@,
                scheduler_wf(s),
                d <= s.dags.len(),
                match best {
                    Some(p) => {
                        &&& eligible(s, p.0 as int, p.1 as int, now_ms)
                        &&& forall|x: int, y: int|
                            #![trigger eligible(s, x, y, now_ms)]
                            x < d && eligible(s, x, y, now_ms) ==> !key_lt(
                                key_at(s, x, y),
                                key_at(s, p.0 as int, p.1 as int),
                            )
                    },
                    None => forall|x: int, y: int|
                        #![trigger eligible(s, x, y, now_ms)]
                        x < d ==> !eligible(s, x, y, now_ms),
                },
            decreases s.dags.len() - d,
        {
            let mut j: usize = 0;
            while j < self.dags[d].jobs.len()
                invariant
                    s == self@,
                    scheduler_wf(s),
                    d < s.dags.len(),
                    j <= s.dags[d as int].jobs.len(),
                    match best {
                        Some(p) => {
                            &&& eligible(s, p.0 as int, p.1 as int, now_ms)
                            &&& forall|x: int, y: int|
                                #![trigger eligible(s, x, y, now_ms)]
                                visited(x, y, d as int, j as int) && eligible(s, x, y, now_ms) ==> !key_lt(
                                    key_at(s, x, y),
                                    key_at(s, p.0 as int, p.1 as int),
                                )
                        },
                        None => forall|x: int, y: int|
                            #![trigger eligible(s, x, y, now_ms)]
                            visited(x, y, d as int, j as int) ==> !eligible(s, x, y, now_ms),
                    },
                decreases s.dags[d as int].jobs.len() - j,
            {
                assert(s.dags[d as int] == self.dags[d as int]@);
                assert(s.dags[d as int].jobs[j as int] == self.dags[d as int].jobs[j as int]@);
                let job = &self.dags[d].jobs[j];
                let ok = job.queued && (job.state == JobState::Ready || job.state == JobState::RetryWait)
                    && job.available_at_ms <= now_ms;
                assert(ok == eligible(s, d as int, j as int, now_ms));
                if ok {
                    let ghost kn = key_at(s, d as int, j as int);
                    match best {
                        None => {
                            best = Some((d, j));
                            proof {
                                lemma_key_order(kn, kn, kn);
                            }
                        },
                        Some(p) => {
                            let ghost ko = key_at(s, p.0 as int, p.1 as int);
                            if self.key_less(d, j, p.0, p.1) {
                                best = Some((d, j));
                                proof {
                                    assert forall|x: int, y: int|
                                        #![trigger eligible(s, x, y, now_ms)]
                                        visited(x, y, d as int, j + 1) && eligible(s, x, y, now_ms)
                                            implies !key_lt(key_at(s, x, y), kn) by {
                                        lemma_key_order(key_at(s, x, y), kn, ko);
                                        if x == d && y == j {
                                            lemma_key_order(kn, kn, kn);
                                        }
                                    }
                                }
                            }
                        },
                    }
                }
                j += 1;
            }
            d += 1;
        }
        best
    }

    /// Drops the stale queue entries that a claim pops before it stops at `bound`.
    fn drop_stale_entries(&mut self, bound: Option<(usize, usize)>, now_ms: i64)
        requires
            old(self).wf(),
            match bound {
                Some(p) => p.0 < old(self)@.dags.len() && p.1 < old(self)@.dags[p.0 as int].jobs.len(),
                None => true,
            },
        ensures
            final(self).wf(),
            final(self)@ == drop_stale(old(self)@, bound_key(old(self)@, bound), now_ms),
    {
        let ghost s = self@;
        let ghost bk = bound_key(s, bound);
        let mut d: usize = 0;
        while d < self.dags.len()
            invariant
                self.wf(),
                same_frame(self@, s),
                bk == bound_key(s, bound),
                match bound {
                    Some(p) => p.0 < s.dags.len() && p.1 < s.dags[p.0 as int].jobs.len(),
                    None => true,
                },
                d <= self@.dags.len(),
                forall|x: int, y: int|
                    0 <= x < s.dags.len() && 0 <= y < s.dags[x].jobs.len() ==> (#[trigger] self@.dags[x].jobs[y])
                        == if x < d {
                        stale_dropped(s.dags[x], s.dags[x].jobs[y], bk, now_ms)
                    } else {
                        s.dags[x].jobs[y]
                    },
            decreases self@.dags.len() - d,
        {
            let mut j: usize = 0;
            while j < self.dags[d].jobs.len()
                invariant
                    self.wf(),
                    same_frame(self@, s),
                    bk == bound_key(s, bound),
                    match bound {
                        Some(p) => p.0 < s.dags.len() && p.1 < s.dags[p.0 as int].jobs.len(),
                        None => true,
                    },
                    d < self@.dags.len(),
                    j <= self@.dags[d as int].jobs.len(),
                    forall|x: int, y: int|
                        0 <= x < s.dags.len() && 0 <= y < s.dags[x].jobs.len() ==> (#[trigger] self@.dags[x].jobs[y])
                            == if visited(x, y, d as int, j as int) {
                            stale_dropped(s.dags[x], s.dags[x].jobs[y], bk, now_ms)
                        } else {
                            s.dags[x].jobs[y]
                        },
                decreases self@.dags[d as int].jobs.len() - j,
            {
                let ghost cur = self@;
                assert(cur.dags[d as int] == self.dags[d as int]@);
                assert(cur.dags[d as int].jobs[j as int] == self.dags[d as int].jobs[j as int]@);
                let ghost sj = s.dags[d as int].jobs[j as int];
                assert(cur.dags[d as int].jobs[j as int] == sj);
                let job = &self.dags[d].jobs[j];
                let stale = job.queued && !(job.state == JobState::Ready || job.state
                    == JobState::RetryWait);
                let pop = match bound {
                    Some(p) => {
                        proof {
                            let pj = cur.dags[p.0 as int].jobs[p.1 as int];
                            let oj = s.dags[p.0 as int].jobs[p.1 as int];
                            assert(pj == oj || pj == JobRecordView { queued: false, ..oj });
                            assert(key_at(cur, p.0 as int, p.1 as int) == key_at(s, p.0 as int, p.1 as int));
                        }
                        self.key_less(d, j, p.0, p.1)
                    },
                    None => job.available_at_ms <= now_ms,
                };
                assert(pop == popped(s.dags[d as int], sj, bk, now_ms));
                if stale && pop {
                    proof {
                        lemma_with_job_wf(cur, d as int, j as int, JobRecordView { queued: false, ..sj });
                    }
                    self.dags[d].jobs[j].queued = false;
                    proof {
                        let want = JobRecordView { queued: false, ..sj };
                        assert(self.dags[d as int].jobs[j as int]@ == want);
                        assert(self@.dags[d as int].jobs =~= cur.dags[d as int].jobs.update(j as int, want));
                        assert(self@.dags =~= with_job(cur, d as int, j as int, want).dags);
                    }
                }
                proof {
                    assert forall|x: int, y: int|
                        0 <= x < s.dags.len() && 0 <= y < s.dags[x].jobs.len() implies (#[trigger] self@.dags[x].jobs[y])
                            == if visited(x, y, d as int, j + 1) {
                            stale_dropped(s.dags[x], s.dags[x].jobs[y], bk, now_ms)
                        } else {
                            s.dags[x].jobs[y]
                        } by {
                        if x == d && y == j {
                        } else {
                            assert(self@.dags[x].jobs[y] == cur.dags[x].jobs[y]);
                        }
                    }
                    assert forall|x: int| 0 <= x < self@.dags.len() implies {
                        &&& (#[trigger] self@.dags[x]).id == s.dags[x].id
                        &&& self@.dags[x].dependents == s.dags[x].dependents
                        &&& self@.dags[x].jobs.len() == s.dags[x].jobs.len()
                    } by {
                        assert(cur.dags[x].id == s.dags[x].id);
                    }
                }
                j += 1;
            }
            d += 1;
        }
        proof {
            let want = drop_stale(s, bk, now_ms);
            assert forall|x: int| 0 <= x < s.dags.len() implies #[trigger] self@.dags[x] == want.dags[x] by {
                assert(self@.dags[x].jobs =~= want.dags[x].jobs);
            }
            assert(self@.dags =~= want.dags);
        }
    }


    /// Claims the highest-priority ready job whose availability time has passed.
    pub fn claim(&mut self, owner: &str, now_ms: i64, lease_ms: i64) -> (r: Result<
        Option<ClaimedJob>,
        SchedulerError,
    >)
        requires
            old(self).wf(),
        ensures
            final(self)@ == apply(old(self)@, (Request::Claim { owner: owner@, now: now_ms, lease_ms })),
            match r {
                Ok(Some(c)) => handed_out(old(self)@, (Request::Claim { owner: owner@, now: now_ms, lease_ms })) == Some(c@),
                _ => handed_out(old(self)@, (Request::Claim { owner: owner@, now: now_ms, lease_ms })) is None,
            },
            final(self).wf(),
            match r {
                Err(e) => {
                    &&& !lease_request_valid(old(self)@.config, owner@, lease_ms)
                    &&& e@ == SchedulerErrorView::InvalidLease
                    &&& final(self)@ == old(self)@
                },
                Ok(None) => {
                    &&& lease_request_valid(old(self)@.config, owner@, lease_ms)
                    &&& claim_outcome(old(self)@, owner@, now_ms, lease_ms) == (
                        final(self)@,
                        None::<ClaimedJobView>,
                    )
                },
                Ok(Some(c)) => {
                    &&& lease_request_valid(old(self)@.config, owner@, lease_ms)
                    &&& claim_outcome(old(self)@, owner@, now_ms, lease_ms) == (
                        final(self)@,
                        Some(c@),
                    )
                },
            },
    {
        proof {
            reveal(apply);
        }
        if owner.is_empty() || owner.as_bytes().len() > 64 || lease_ms <= 0 || lease_ms
            > self.config.max_lease_ms {
            return Err(SchedulerError::InvalidLease);
        }
        let ghost s = self@;
        self.reap(now_ms);
        let ghost r0 = self@;
        match self.best_eligible(now_ms) {
            None => {
                proof {
                    assert(!exists|a: int, b: int| is_best(r0, a, b, now_ms));
                }
                self.drop_stale_entries(None, now_ms);
                Ok(None)
            },
            Some(p) => {
                let (d, j) = p;
                proof {
                    lemma_best_ready_is(r0, d as int, j as int, now_ms);
                }
                self.drop_stale_entries(Some((d, j)), now_ms);
                let ghost t = self@;
                let ghost job = t.dags[d as int].jobs[j as int];
                assert(eligible(r0, d as int, j as int, now_ms));
                assert(t.dags.len() == r0.dags.len());
                assert(t.dags[d as int].jobs.len() == r0.dags[d as int].jobs.len());
                assert(job == r0.dags[d as int].jobs[j as int]);
                assert(t.dags[d as int] == self.dags[d as int]@);
                assert(job == self.dags[d as int].jobs[j as int]@);
                assert(job_wf(job));
                let seq = if self.sequence == u64::MAX {
                    u64::MAX
                } else {
                    self.sequence + 1
                };
                let mut token = String::new();
                token.append("lease-");
                token.append(self.dags[d].id.as_str());
                token.append("-");
                token.append(self.dags[d].jobs[j].spec.id.as_str());
                token.append("-");
                push_decimal(&mut token, seq);
                assert(token@ == lease_token(t.dags[d as int], job, seq));
                let expires = saturating_add_i64(now_ms, lease_ms);
                let attempts = self.dags[d].jobs[j].attempts;
                let attempt = if attempts == u16::MAX {
                    u16::MAX
                } else {
                    attempts + 1
                };
                let claimed = ClaimedJob {
                    dag_id: self.dags[d].id.clone(),
                    job_id: self.dags[d].jobs[j].spec.id.clone(),
                    kind: self.dags[d].jobs[j].spec.kind,
                    payload: self.dags[d].jobs[j].spec.payload.clone(),
                    attempt,
                    lease_token: token.clone(),
                    lease_expires_at_ms: expires,
                };
                let ghost want = leased(job, owner@, token@, expires);
                proof {
                    lemma_with_job_wf(t, d as int, j as int, want);
                }
                self.dags[d].jobs[j].attempts = attempt;
                self.dags[d].jobs[j].state = JobState::Leased;
                self.dags[d].jobs[j].lease = Some(
                    Lease { owner: owner.to_owned(), token, expires_at_ms: expires },
                );
                self.dags[d].jobs[j].queued = false;
                self.sequence = seq;
                proof {
                    assert(self.dags[d as int].jobs[j as int]@ == want);
                    assert(self@.dags[d as int].jobs =~= t.dags[d as int].jobs.update(j as int, want));
                    assert(self@.dags =~= with_job(t, d as int, j as int, want).dags);
                }
                Ok(Some(claimed))
            },
        }
    }


    /// Position of job `job_id` of graph `dag_id`.
    fn locate_job(&self, dag_id: &str, job_id: &str) -> (r: Result<(usize, usize), SchedulerError>)
        requires
            self.wf(),
        ensures
            match r {
                Ok(p) => {
                    &&& p.0 < self@.dags.len()
                    &&& p.1 < self@.dags[p.0 as int].jobs.len()
                    &&& dag_lookup(self@.dags, dag_id@) == Some(p.0 as int)
                    &&& job_lookup(self@.dags[p.0 as int].jobs, job_id@) == Some(p.1 as int)
                },
                Err(e) => match dag_lookup(self@.dags, dag_id@) {
                    None => e@ == SchedulerErrorView::DagNotFound,
                    Some(d) => job_lookup(self@.dags[d].jobs, job_id@) is None && e@
                        == SchedulerErrorView::JobNotFound,
                },
            },
    {
        let ghost s = self@;
        let d = match self.find_dag(dag_id) {
            None => {
                return Err(SchedulerError::DagNotFound);
            },
            Some(d) => d,
        };
        let ghost dv = s.dags[d as int];
        assert(dv == self.dags[d as int]@);
        assert(dag_wf(dv));
        let mut j: usize = 0;
        while j < self.dags[d].jobs.len()
            invariant
                s == self@,
                dv == s.dags[d as int],
                dv == self.dags[d as int]@,
                dag_lookup(s.dags, dag_id@) == Some(d as int),
                dag_wf(dv),
                d < self.dags.len(),
                j <= dv.jobs.len(),
                forall|k: int| 0 <= k < j ==> (#[trigger] dv.jobs[k]).spec.id != job_id@,
            decreases dv.jobs.len() - j,
        {
            assert(dv.jobs[j as int] == self.dags[d as int].jobs[j as int]@);
            if str_eq(self.dags[d].jobs[j].spec.id.as_str(), job_id) {
                proof {
                    assert(dv.jobs[j as int].spec.id == job_id@);
                    assert(exists|i: int| 0 <= i < dv.jobs.len() && (#[trigger] dv.jobs[i]).spec.id == job_id@);
                    let c = choose|i: int| 0 <= i < dv.jobs.len() && (#[trigger] dv.jobs[i]).spec.id == job_id@;
                    if c != j {
                        assert(dv.jobs[c].spec.id != dv.jobs[j as int].spec.id);
                    }
                }
                return Ok((d, j));
            }
            j += 1;
        }
        Err(SchedulerError::JobNotFound)
    }

    /// Checks that job `job_id` of graph `dag_id` is leased to `owner` under `token` with a
    /// deadline after `now_ms`, and returns its position.
    fn assert_lease(&self, dag_id: &str, job_id: &str, owner: &str, token: &str, now_ms: i64) -> (r:
        Result<(usize, usize), SchedulerError>)
        requires
            self.wf(),
        ensures
            match r {
                Ok(p) => lease_check(self@, dag_id@, job_id@, owner@, token@, now_ms) == Ok::<
                    (int, int),
                    SchedulerErrorView,
                >((p.0 as int, p.1 as int)),
                Err(e) => lease_check(self@, dag_id@, job_id@, owner@, token@, now_ms) == Err::<
                    (int, int),
                    SchedulerErrorView,
                >(e@),
            },
    {
        let ghost s = self@;
        let (d, j) = match self.locate_job(dag_id, job_id) {
            Err(e) => {
                return Err(e);
            },
            Ok(p) => p,
        };
        assert(s.dags[d as int] == self.dags[d as int]@);
        assert(s.dags[d as int].jobs[j as int] == self.dags[d as int].jobs[j as int]@);
        let job = &self.dags[d].jobs[j];
        match &job.lease {
            None => Err(SchedulerError::LeaseConflict),
            Some(lease) => {
                if job.state == JobState::Leased && str_eq(lease.owner.as_str(), owner) && str_eq(
                    lease.token.as_str(),
                    token,
                ) && lease.expires_at_ms > now_ms {
                    Ok((d, j))
                } else {
                    Err(SchedulerError::LeaseConflict)
                }
            },
        }
    }

    /// Extends a live lease only when both its owner and unguessable token match.
    pub fn heartbeat(
        &mut self,
        dag_id: &str,
        job_id: &str,
        owner: &str,
        token: &str,
        now_ms: i64,
        lease_ms: i64,
    ) -> (r: Result<i64, SchedulerError>)
        requires
            old(self).wf(),
        ensures
            final(self)@ == apply(
                old(self)@,
                (Request::Heartbeat { dag_id: dag_id@, job_id: job_id@, owner: owner@, token: token@, now: now_ms, lease_ms }),
            ),
            final(self).wf(),
            match r {
                Ok(expires) => heartbeat_outcome(
                    old(self)@,
                    dag_id@,
                    job_id@,
                    owner@,
                    token@,
                    now_ms,
                    lease_ms,
                ) == Ok::<(SchedulerView, i64), SchedulerErrorView>((final(self)@, expires)),
                Err(e) => {
                    &&& heartbeat_outcome(old(self)@, dag_id@, job_id@, owner@, token@, now_ms, lease_ms)
                        == Err::<(SchedulerView, i64), SchedulerErrorView>(e@)
                    &&& final(self)@ == old(self)@
                },
            },
    {
        proof {
            reveal(apply);
        }
        if lease_ms <= 0 || lease_ms > self.config.max_lease_ms {
            return Err(SchedulerError::InvalidLease);
        }
        let (d, j) = match self.assert_lease(dag_id, job_id, owner, token, now_ms) {
            Err(e) => {
                return Err(e);
            },
            Ok(p) => p,
        };
        let ghost s = self@;
        let ghost job = s.dags[d as int].jobs[j as int];
        assert(s.dags[d as int] == self.dags[d as int]@);
        assert(job == self.dags[d as int].jobs[j as int]@);
        let expires = saturating_add_i64(now_ms, lease_ms);
        let ghost want = renewed(job, expires);
        proof {
            lemma_with_job_wf(s, d as int, j as int, want);
        }
        match &mut self.dags[d].jobs[j].lease {
            Some(lease) => {
                lease.expires_at_ms = expires;
            },
            None => {},
        }
        proof {
            assert(self.dags[d as int].jobs[j as int]@ == want);
            assert(self@.dags[d as int].jobs =~= s.dags[d as int].jobs.update(j as int, want));
            assert(self@.dags =~= with_job(s, d as int, j as int, want).dags);
        }
        Ok(expires)
    }

    /// Records a failure and either applies bounded backoff or dead-letters the job.
    pub fn fail(&mut self, dag_id: &str, job_id: &str, owner: &str, token: &str, now_ms: i64) -> (r:
        Result<JobState, SchedulerError>)
        requires
            old(self).wf(),
        ensures
            final(self)@ == apply(
                old(self)@,
                (Request::Fail { dag_id: dag_id@, job_id: job_id@, owner: owner@, token: token@, now: now_ms }),
            ),
            final(self).wf(),
            match r {
                Ok(state) => fail_outcome(old(self)@, dag_id@, job_id@, owner@, token@, now_ms)
                    == Ok::<(SchedulerView, JobState), SchedulerErrorView>((final(self)@, state)),
                Err(e) => {
                    &&& fail_outcome(old(self)@, dag_id@, job_id@, owner@, token@, now_ms) == Err::<
                        (SchedulerView, JobState),
                        SchedulerErrorView,
                    >(e@)
                    &&& final(self)@ == old(self)@
                },
            },
    {
        proof {
            reveal(apply);
        }
        let (d, j) = match self.assert_lease(dag_id, job_id, owner, token, now_ms) {
            Err(e) => {
                return Err(e);
            },
            Ok(p) => p,
        };
        Ok(self.retry_or_dead_letter(d, j, now_ms))
    }


    /// Commits a success using compare-and-set lease semantics and releases dependents.
    pub fn complete(
        &mut self,
        dag_id: &str,
        job_id: &str,
        owner: &str,
        token: &str,
        result: String,
        now_ms: i64,
    ) -> (r: Result<(), SchedulerError>)
        requires
            old(self).wf(),
        ensures
            final(self)@ == apply(
                old(self)@,
                (Request::Complete { dag_id: dag_id@, job_id: job_id@, owner: owner@, token: token@, result: result@, now: now_ms }),
            ),
            final(self).wf(),
            match r {
                Ok(_) => complete_outcome(old(self)@, dag_id@, job_id@, owner@, token@, result@, now_ms)
                    == Ok::<SchedulerView, SchedulerErrorView>(final(self)@),
                Err(e) => {
                    &&& complete_outcome(old(self)@, dag_id@, job_id@, owner@, token@, result@, now_ms)
                        == Err::<SchedulerView, SchedulerErrorView>(e@)
                    &&& final(self)@ == old(self)@
                },
            },
    {
        proof {
            reveal(apply);
        }
        if result.as_str().as_bytes().len() > MAX_PAYLOAD_BYTES {
            return Err(SchedulerError::ResultTooLarge);
        }
        let (d, j) = match self.assert_lease(dag_id, job_id, owner, token, now_ms) {
            Err(e) => {
                return Err(e);
            },
            Ok(p) => p,
        };
        let ghost s = self@;
        let ghost dag = s.dags[d as int];
        assert(dag == self.dags[d as int]@);
        assert(dag.jobs[j as int] == self.dags[d as int].jobs[j as int]@);
        assert(dag_wf(dag));
        let ghost finished = JobRecordView {
            state: JobState::Succeeded,
            lease: None,
            result: Some(result@),
            ..dag.jobs[j as int]
        };
        let ghost jobs1 = dag.jobs.update(j as int, finished);
        let ghost deps = dag.dependents[j as int];
        self.dags[d].jobs[j].state = JobState::Succeeded;
        self.dags[d].jobs[j].lease = None;
        self.dags[d].jobs[j].result = Some(result);
        proof {
            assert(self.dags[d as int].jobs[j as int]@ == finished);
            assert(self@.dags[d as int].jobs =~= jobs1);
        }
        let count = self.dags[d].dependents[j].len();
        assert(self.dags[d as int].dependents[j as int]@ == deps);
        let mut t: usize = 0;
        while t < count
            invariant
                d < self.dags.len(),
                j < dag.jobs.len(),
                dag == s.dags[d as int],
                dag_wf(dag),
                deps == dag.dependents[j as int],
                count == deps.len(),
                t <= count,
                jobs1 == dag.jobs.update(j as int, finished),
                self@.config == s.config,
                self@.sequence == s.sequence,
                self@.dags.len() == s.dags.len(),
                forall|x: int| 0 <= x < s.dags.len() && x != d ==> #[trigger] self@.dags[x] == s.dags[x],
                self@.dags[d as int].id == dag.id,
                self@.dags[d as int].dependents == dag.dependents,
                self@.dags[d as int].jobs.len() == dag.jobs.len(),
                forall|k: int|
                    0 <= k < dag.jobs.len() ==> #[trigger] self@.dags[d as int].jobs[k] == released(
                        jobs1[k],
                        occurrences(deps.take(t as int), k as usize),
                        now_ms,
                    ),
            decreases count - t,
        {
            let ghost cur = self@;
            assert(cur.dags[d as int] == self.dags[d as int]@);
            assert(cur.dags[d as int].dependents[j as int] == self.dags[d as int].dependents[j as int]@);
            let k = self.dags[d].dependents[j][t];
            assert(k == deps[t as int]);
            assert(k < dag.jobs.len());
            assert(cur.dags[d as int].jobs[k as int] == self.dags[d as int].jobs[k as int]@);
            let ghost before = cur.dags[d as int].jobs[k as int];
            let rem = self.dags[d].jobs[k].remaining_dependencies;
            let rem2 = if rem == 0 {
                0
            } else {
                rem - 1
            };
            self.dags[d].jobs[k].remaining_dependencies = rem2;
            if rem2 == 0 && self.dags[d].jobs[k].state == JobState::Pending {
                self.dags[d].jobs[k].state = JobState::Ready;
                self.dags[d].jobs[k].available_at_ms = now_ms;
                self.dags[d].jobs[k].queued = true;
            }
            proof {
                let after = released(before, 1, now_ms);
                assert(self.dags[d as int].jobs[k as int]@ == after);
                assert(self@.dags[d as int].jobs =~= cur.dags[d as int].jobs.update(k as int, after));
                assert(deps.take(t + 1) == deps.take(t as int).push(k));
                assert forall|q: int| 0 <= q < dag.jobs.len() implies #[trigger] self@.dags[d as int].jobs[q]
                    == released(jobs1[q], occurrences(deps.take(t + 1), q as usize), now_ms) by {
                    lemma_occurrences_push(deps.take(t as int), k, q as usize);
                    if q == k {
                        lemma_released_step(
                            jobs1[q],
                            occurrences(deps.take(t as int), q as usize),
                            now_ms,
                        );
                    }
                }
                assert forall|x: int| 0 <= x < s.dags.len() && x != d implies #[trigger] self@.dags[x]
                    == s.dags[x] by {
                    assert(self@.dags[x] == cur.dags[x]);
                }
            }
            t += 1;
        }
        proof {
            assert(deps.take(count as int) == deps);
            let nd = completed_dag(dag, j as int, result@, now_ms);
            assert(self@.dags[d as int].jobs =~= nd.jobs);
            assert(self@.dags =~= s.dags.update(d as int, nd));
            lemma_completed_wf(s, d as int, j as int, result@, now_ms);
        }
        Ok(())
    }


    /// Cancels every non-terminal job in a DAG and invalidates active leases.
    pub fn cancel(&mut self, dag_id: &str) -> (r: Result<usize, SchedulerError>)
        requires
            old(self).wf(),
        ensures
            final(self)@ == apply(old(self)@, (Request::Cancel { dag_id: dag_id@ })),
            final(self).wf(),
            match r {
                Ok(n) => cancel_outcome(old(self)@, dag_id@) == Ok::<(SchedulerView, nat), SchedulerErrorView>(
                    (final(self)@, n as nat),
                ),
                Err(e) => {
                    &&& cancel_outcome(old(self)@, dag_id@) == Err::<(SchedulerView, nat), SchedulerErrorView>(
                        e@,
                    )
                    &&& final(self)@ == old(self)@
                },
            },
    {
        proof {
            reveal(apply);
        }
        let d = match self.find_dag(dag_id) {
            None => {
                return Err(SchedulerError::DagNotFound);
            },
            Some(d) => d,
        };
        let ghost s = self@;
        let ghost dag = s.dags[d as int];
        assert(dag == self.dags[d as int]@);
        assert(dag_wf(dag));
        let n = self.dags[d].jobs.len();
        let mut cancelled: usize = 0;
        let mut i: usize = 0;
        while i < n
            invariant
                self.wf(),
                d < s.dags.len(),
                dag == s.dags[d as int],
                dag_wf(dag),
                n == dag.jobs.len(),
                i <= n,
                self@.config == s.config,
                self@.sequence == s.sequence,
                self@.dags.len() == s.dags.len(),
                forall|x: int| 0 <= x < s.dags.len() && x != d ==> #[trigger] self@.dags[x] == s.dags[x],
                self@.dags[d as int].id == dag.id,
                self@.dags[d as int].dependents == dag.dependents,
                self@.dags[d as int].jobs.len() == n,
                forall|y: int|
                    0 <= y < n ==> #[trigger] self@.dags[d as int].jobs[y] == if y < i {
                        cancelled_dag(dag).jobs[y]
                    } else {
                        dag.jobs[y]
                    },
                cancelled as nat == unfinished_in(dag.jobs, i as nat),
                cancelled <= i,
            decreases n - i,
        {
            let ghost cur = self@;
            assert(cur.dags[d as int] == self.dags[d as int]@);
            assert(cur.dags[d as int].jobs[i as int] == self.dags[d as int].jobs[i as int]@);
            let ghost before = dag.jobs[i as int];
            assert(cur.dags[d as int].jobs[i as int] == before);
            let st = self.dags[d].jobs[i].state;
            if !(st == JobState::Succeeded || st == JobState::DeadLettered || st == JobState::Cancelled) {
                let ghost want = JobRecordView { state: JobState::Cancelled, lease: None, ..before };
                proof {
                    assert(job_wf(before));
                    lemma_with_job_wf(cur, d as int, i as int, want);
                }
                self.dags[d].jobs[i].state = JobState::Cancelled;
                self.dags[d].jobs[i].lease = None;
                cancelled = cancelled + 1;
                proof {
                    assert(self.dags[d as int].jobs[i as int]@ == want);
                    assert(self@.dags[d as int].jobs =~= cur.dags[d as int].jobs.update(i as int, want));
                    assert(self@.dags =~= with_job(cur, d as int, i as int, want).dags);
                }
            }
            proof {
                assert forall|x: int| 0 <= x < s.dags.len() && x != d implies #[trigger] self@.dags[x]
                    == s.dags[x] by {
                    assert(self@.dags[x] == cur.dags[x]);
                }
                assert forall|y: int| 0 <= y < n implies #[trigger] self@.dags[d as int].jobs[y] == if y
                    < i + 1 {
                    cancelled_dag(dag).jobs[y]
                } else {
                    dag.jobs[y]
                } by {
                    if y != i {
                        assert(self@.dags[d as int].jobs[y] == cur.dags[d as int].jobs[y]);
                    }
                }
            }
            i += 1;
        }
        proof {
            assert(self@.dags[d as int].jobs =~= cancelled_dag(dag).jobs);
            assert(self@.dags =~= s.dags.update(d as int, cancelled_dag(dag)));
        }
        Ok(cancelled)
    }

    /// Returns a stable, identifier-sorted read model.
    pub fn snapshot(&self, dag_id: &str) -> (r: Result<DagSnapshot, SchedulerError>)
        requires
            self.wf(),
        ensures
            match r {
                Ok(snap) => {
                    &&& dag_lookup(self@.dags, dag_id@) is Some
                    &&& snap@.id == dag_id@
                    &&& is_sorted_snapshot(self@.dags[dag_lookup(self@.dags, dag_id@).unwrap()], snap@.jobs)
                },
                Err(e) => dag_lookup(self@.dags, dag_id@) is None && e@ == SchedulerErrorView::DagNotFound,
            },
    {
        let d = match self.find_dag(dag_id) {
            None => {
                return Err(SchedulerError::DagNotFound);
            },
            Some(d) => d,
        };
        let ghost s = self@;
        let ghost dag = s.dags[d as int];
        assert(dag == self.dags[d as int]@);
        assert(dag_wf(dag));
        let n = self.dags[d].jobs.len();
        let mut out: Vec<JobSnapshot> = Vec::new();
        let ghost mut src: Seq<int> = Seq::empty();
        let mut i: usize = 0;
        while i < n
            invariant
                s == self@,
                d < s.dags.len(),
                dag == s.dags[d as int],
                dag == self.dags[d as int]@,
                dag_wf(dag),
                n == dag.jobs.len(),
                i <= n,
                out.len() == i,
                src.len() == i,
                forall|q: int|
                    0 <= q < i ==> 0 <= #[trigger] src[q] < i && out@[q]@ == job_snapshot(
                        dag.jobs[src[q]],
                    ),
                forall|a: int, b: int|
                    0 <= a < b < i ==> text_lt((#[trigger] out@[a])@.id, (#[trigger] out@[b])@.id),
            decreases n - i,
        {
            assert(dag.jobs[i as int] == self.dags[d as int].jobs[i as int]@);
            let job = &self.dags[d].jobs[i];
            let snap = JobSnapshot {
                id: job.spec.id.clone(),
                state: job.state,
                attempts: job.attempts,
                max_attempts: job.spec.max_attempts,
                available_at_ms: job.available_at_ms,
                lease_owner: match &job.lease {
                    Some(l) => Some(l.owner.clone()),
                    None => None,
                },
                lease_expires_at_ms: match &job.lease {
                    Some(l) => Some(l.expires_at_ms),
                    None => None,
                },
                result: match &job.result {
                    Some(x) => Some(x.clone()),
                    None => None,
                },
            };
            assert(snap@ == job_snapshot(dag.jobs[i as int]));
            let mut p: usize = 0;
            while p < out.len() && !str_less(snap.id.as_str(), out[p].id.as_str())
                invariant
                    p <= out.len(),
                    forall|q: int| 0 <= q < p ==> !text_lt(snap@.id, (#[trigger] out@[q])@.id),
                decreases out.len() - p,
            {
                p += 1;
            }
            proof {
                assert forall|q: int| 0 <= q < i implies (#[trigger] out@[q])@.id != snap@.id by {
                    assert(src[q] != i);
                    assert(dag.jobs[src[q]].spec.id != dag.jobs[i as int].spec.id);
                }
            }
            let ghost old_out = out@;
            out.insert(p, snap);
            proof {
                src = src.insert(p as int, i as int);
                assert forall|q: int|
                    0 <= q < i + 1 implies 0 <= #[trigger] src[q] < i + 1 && out@[q]@ == job_snapshot(
                        dag.jobs[src[q]],
                    ) by {
                    if q > p {
                        assert(out@[q] == old_out[q - 1]);
                    }
                }
                assert forall|a: int, b: int|
                    0 <= a < b < i + 1 implies text_lt((#[trigger] out@[a])@.id, (#[trigger] out@[b])@.id) by {
                    let na = out@[a]@.id;
                    let nb = out@[b]@.id;
                    if a < p && b < p {
                        assert(out@[a] == old_out[a] && out@[b] == old_out[b]);
                    } else if a < p && b == p {
                        assert(out@[a] == old_out[a]);
                        assert(!text_lt(snap@.id, old_out[a]@.id));
                        assert(old_out[a]@.id != snap@.id);
                        crate::text::lemma_text_lt_order(na, nb, na);
                    } else if a < p && b > p {
                        assert(out@[a] == old_out[a] && out@[b] == old_out[b - 1]);
                    } else if a == p {
                        assert(out@[b] == old_out[b - 1]);
                        assert(text_lt(snap@.id, old_out[p as int]@.id));
                        if b - 1 > p {
                            assert(text_lt(old_out[p as int]@.id, old_out[b - 1]@.id));
                            crate::text::lemma_text_lt_order(snap@.id, old_out[p as int]@.id, nb);
                        }
                    } else {
                        assert(out@[a] == old_out[a - 1] && out@[b] == old_out[b - 1]);
                    }
                }
            }
            i += 1;
        }
        let snapshot = DagSnapshot { id: self.dags[d].id.clone(), jobs: out };
        proof {
            assert(dag.id == dag_id@);
            let v = snapshot@.jobs;
            assert forall|q: int| 0 <= q < v.len() implies exists|jj: int|
                0 <= jj < dag.jobs.len() && #[trigger] v[q] == job_snapshot(dag.jobs[jj]) by {
                assert(v[q] == out@[q]@);
                assert(0 <= src[q] < n);
            }
            assert forall|a: int, b: int| 0 <= a < b < v.len() implies text_lt(v[a].id, v[b].id) by {
                assert(v[a] == out@[a]@ && v[b] == out@[b]@);
            }
        }
        Ok(snapshot)
    }

    /// Number of ready-queue entries, stale ones included.
    fn ready_len(&self) -> (r: u128)
        requires
            self.wf(),
        ensures
            r == ready_len(self@),
            r <= self@.dags.len() * 1000,
    {
        let ghost s = self@;
        let mut total: u128 = 0;
        let mut d: usize = 0;
        while d < self.dags.len()
            invariant
                s == self@,
                scheduler_wf(s),
                d <= self.dags.len(),
                s.dags.len() == self.dags.len(),
                total == queued_in_dags(s.dags, d as nat),
                total <= d * 1000,
            decreases self.dags.len() - d,
        {
            let jobs = &self.dags[d].jobs;
            let ghost dv = s.dags[d as int];
            assert(dv == self.dags[d as int]@);
            assert(dag_wf(dv));
            let mut count: u128 = 0;
            let mut j: usize = 0;
            while j < jobs.len()
                invariant
                    dv.jobs == jobs@.map_values(|x: JobRecord| x@),
                    j <= jobs.len(),
                    count == queued_in_jobs(dv.jobs, j as nat),
                    count <= j,
                decreases jobs.len() - j,
            {
                assert(dv.jobs[j as int] == jobs[j as int]@);
                if jobs[j].queued {
                    count = count + 1;
                }
                j += 1;
            }
            assert(count <= 1000);
            total = total + count;
            d += 1;
        }
        total
    }
}

} // verus!
