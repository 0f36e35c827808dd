//! Job, graph and snapshot values, their admission limits, and graph validation.

use vstd::prelude::*;
use vstd::hash_map::StringHashMap;
use crate::graph::{
    edges_within, is_acyclic, is_release_order, is_topological_order, last_source,
    lemma_distinct_below_missing, lemma_position_at, position_of, topological_order,
};
use crate::text::text_lt;
use crate::text::{parse_u64, parse_u64_spec, str_eq, utf8};

verus! {

pub const MAX_DAG_ID_BYTES: usize = 64;

pub const MAX_JOB_ID_BYTES: usize = 64;

pub const MAX_JOBS_PER_DAG: usize = 1000;

pub const MAX_DEPENDENCIES_PER_DAG: usize = 10000;

pub const MAX_PAYLOAD_BYTES: usize = 4096;

/// Fixed, harmless worker operations. Arbitrary commands are intentionally not representable.
#[derive(Clone, Copy, Debug, PartialEq, Eq, Structural)]
pub enum JobKind {
    Delay,
    Checksum,
    Uppercase,
}

/// Declarative unit of bounded work.
#[derive(Clone, Debug, PartialEq, Eq)]
pub struct JobSpec {
    pub id: String,
    pub kind: JobKind,
    pub payload: String,
    pub max_attempts: u16,
    pub priority: i16,
}

pub struct JobSpecView {
    pub id: Seq<char>,
    pub kind: JobKind,
    pub payload: Seq<char>,
    pub max_attempts: u16,
    pub priority: i16,
}

impl View for JobSpec {
    type V = JobSpecView;

    open spec fn view(&self) -> JobSpecView {
        JobSpecView {
            id: self.id@,
            kind: self.kind,
            payload: self.payload@,
            max_attempts: self.max_attempts,
            priority: self.priority,
        }
    }
}

/// Number of attempts a job gets when its specification names none.
pub fn default_attempts() -> (r: u16)
    ensures
        r == 3,
{
    3
}

/// Directed edge where `from` must succeed before `to` can run.
#[derive(Clone, Debug, PartialEq, Eq)]
pub struct Dependency {
    pub from: String,
    pub to: String,
}

pub struct DependencyView {
    pub from: Seq<char>,
    pub to: Seq<char>,
}

impl View for Dependency {
    type V = DependencyView;

    open spec fn view(&self) -> DependencyView {
        DependencyView { from: self.from@, to: self.to@ }
    }
}

/// Complete user-submitted directed acyclic graph.
#[derive(Clone, Debug, PartialEq, Eq)]
pub struct DagSpec {
    pub id: String,
    pub jobs: Vec<JobSpec>,
    pub dependencies: Vec<Dependency>,
}

pub struct DagSpecView {
    pub id: Seq<char>,
    pub jobs: Seq<JobSpecView>,
    pub dependencies: Seq<DependencyView>,
}

impl View for DagSpec {
    type V = DagSpecView;

    open spec fn view(&self) -> DagSpecView {
        DagSpecView {
            id: self.id@,
            jobs: self.jobs@.map_values(|j: JobSpec| j@),
            dependencies: self.dependencies@.map_values(|d: Dependency| d@),
        }
    }
}

#[derive(Clone, Copy, Debug, PartialEq, Eq, Structural)]
pub enum JobState {
    Pending,
    Ready,
    RetryWait,
    Leased,
    Succeeded,
    DeadLettered,
    Cancelled,
}

#[derive(Clone, Debug, PartialEq, Eq)]
pub struct JobSnapshot {
    pub id: String,
    pub state: JobState,
    pub attempts: u16,
    pub max_attempts: u16,
    pub available_at_ms: i64,
    pub lease_owner: Option<String>,
    pub lease_expires_at_ms: Option<i64>,
    pub result: Option<String>,
}

pub struct JobSnapshotView {
    pub id: Seq<char>,
    pub state: JobState,
    pub attempts: u16,
    pub max_attempts: u16,
    pub available_at_ms: i64,
    pub lease_owner: Option<Seq<char>>,
    pub lease_expires_at_ms: Option<i64>,
    pub result: Option<Seq<char>>,
}

impl View for JobSnapshot {
    type V = JobSnapshotView;

    open spec fn view(&self) -> JobSnapshotView {
        JobSnapshotView {
            id: self.id@,
            state: self.state,
            attempts: self.attempts,
            max_attempts: self.max_attempts,
            available_at_ms: self.available_at_ms,
            lease_owner: self.lease_owner.deep_view(),
            lease_expires_at_ms: self.lease_expires_at_ms,
            result: self.result.deep_view(),
        }
    }
}

#[derive(Clone, Debug, PartialEq, Eq)]
pub struct DagSnapshot {
    pub id: String,
    pub jobs: Vec<JobSnapshot>,
}

pub struct DagSnapshotView {
    pub id: Seq<char>,
    pub jobs: Seq<JobSnapshotView>,
}

impl View for DagSnapshot {
    type V = DagSnapshotView;

    open spec fn view(&self) -> DagSnapshotView {
        DagSnapshotView { id: self.id@, jobs: self.jobs@.map_values(|j: JobSnapshot| j@) }
    }
}

#[derive(Clone, Debug, PartialEq, Eq)]
pub enum ValidationError {
    InvalidIdentifier(String),
    InvalidJobCount,
    InvalidDependencyCount,
    DuplicateJob(String),
    UnknownJob(String),
    Cycle,
    PayloadTooLarge,
    InvalidDelay,
    InvalidPolicy,
}

pub enum ValidationErrorView {
    InvalidIdentifier(Seq<char>),
    InvalidJobCount,
    InvalidDependencyCount,
    DuplicateJob(Seq<char>),
    UnknownJob(Seq<char>),
    Cycle,
    PayloadTooLarge,
    InvalidDelay,
    InvalidPolicy,
}

impl View for ValidationError {
    type V = ValidationErrorView;

    open spec fn view(&self) -> ValidationErrorView {
        match self {
            ValidationError::InvalidIdentifier(s) => ValidationErrorView::InvalidIdentifier(s@),
            ValidationError::InvalidJobCount => ValidationErrorView::InvalidJobCount,
            ValidationError::InvalidDependencyCount => ValidationErrorView::InvalidDependencyCount,
            ValidationError::DuplicateJob(s) => ValidationErrorView::DuplicateJob(s@),
            ValidationError::UnknownJob(s) => ValidationErrorView::UnknownJob(s@),
            ValidationError::Cycle => ValidationErrorView::Cycle,
            ValidationError::PayloadTooLarge => ValidationErrorView::PayloadTooLarge,
            ValidationError::InvalidDelay => ValidationErrorView::InvalidDelay,
            ValidationError::InvalidPolicy => ValidationErrorView::InvalidPolicy,
        }
    }
}

/// The human-readable text of a validation error.
pub open spec fn validation_message(e: ValidationErrorView) -> Seq<char> {
    match e {
        ValidationErrorView::InvalidIdentifier(s) =>
            "identifier must contain 1..=64 ASCII letters, numbers, dashes, or underscores: "@ + s,
        ValidationErrorView::InvalidJobCount => "DAG must contain 1..=1000 jobs"@,
        ValidationErrorView::InvalidDependencyCount => "DAG must contain at most 10000 dependencies"@,
        ValidationErrorView::DuplicateJob(s) => "duplicate job identifier: "@ + s,
        ValidationErrorView::UnknownJob(s) => "dependency references unknown job: "@ + s,
        ValidationErrorView::Cycle => "dependency graph contains a cycle"@,
        ValidationErrorView::PayloadTooLarge => "payload exceeds 4096 bytes"@,
        ValidationErrorView::InvalidDelay =>
            "delay payload must be an integer from 0 through 5000 milliseconds"@,
        ValidationErrorView::InvalidPolicy =>
            "attempts must be 1..=20 and priority must be -100..=100"@,
    }
}

impl ValidationError {
    /// The human-readable text of this error.
    pub fn message(&self) -> (r: String)
        ensures
            r@ == validation_message(self@),
    {
        match self {
            ValidationError::InvalidIdentifier(s) => {
                let mut m =
                    "identifier must contain 1..=64 ASCII letters, numbers, dashes, or underscores: ".to_owned();
                m.append(s.as_str());
                m
            },
            ValidationError::InvalidJobCount => "DAG must contain 1..=1000 jobs".to_owned(),
            ValidationError::InvalidDependencyCount => "DAG must contain at most 10000 dependencies".to_owned(),
            ValidationError::DuplicateJob(s) => {
                let mut m = "duplicate job identifier: ".to_owned();
                m.append(s.as_str());
                m
            },
            ValidationError::UnknownJob(s) => {
                let mut m = "dependency references unknown job: ".to_owned();
                m.append(s.as_str());
                m
            },
            ValidationError::Cycle => "dependency graph contains a cycle".to_owned(),
            ValidationError::PayloadTooLarge => "payload exceeds 4096 bytes".to_owned(),
            ValidationError::InvalidDelay =>
                "delay payload must be an integer from 0 through 5000 milliseconds".to_owned(),
            ValidationError::InvalidPolicy =>
                "attempts must be 1..=20 and priority must be -100..=100".to_owned(),
        }
    }
}

/// ASCII letters, digits, `-` and `_`.
pub open spec fn is_identifier_byte(b: u8) -> bool {
    (48 <= b <= 57) || (65 <= b <= 90) || (97 <= b <= 122) || b == 45 || b == 95
}

/// A non-empty identifier of at most `max_bytes` bytes, each an identifier byte.
pub open spec fn valid_identifier(s: Seq<char>, max_bytes: nat) -> bool {
    &&& s.len() > 0
    &&& utf8(s).len() <= max_bytes
    &&& forall|i: int| 0 <= i < utf8(s).len() ==> is_identifier_byte(#[trigger] utf8(s)[i])
}

/// A delay payload: a `u64` in decimal of at most 5000 milliseconds.
pub open spec fn valid_delay(payload: Seq<char>) -> bool {
    match parse_u64_spec(payload) {
        Some(d) => d <= 5000,
        None => false,
    }
}

/// Why a payload is refused for a job kind, if it is.
pub open spec fn payload_fault(kind: JobKind, payload: Seq<char>) -> Option<ValidationErrorView> {
    if utf8(payload).len() > MAX_PAYLOAD_BYTES {
        Some(ValidationErrorView::PayloadTooLarge)
    } else if kind == JobKind::Delay && !valid_delay(payload) {
        Some(ValidationErrorView::InvalidDelay)
    } else {
        None
    }
}

/// Attempts within `1..=20` and priority within `-100..=100`.
pub open spec fn valid_policy(job: JobSpecView) -> bool {
    1 <= job.max_attempts <= 20 && -100 <= job.priority <= 100
}

/// Why job `i` is refused, given the jobs before it, if it is.
pub open spec fn job_fault(jobs: Seq<JobSpecView>, i: int) -> Option<ValidationErrorView> {
    let job = jobs[i];
    if !valid_identifier(job.id, MAX_JOB_ID_BYTES as nat) {
        Some(ValidationErrorView::InvalidIdentifier(job.id))
    } else if payload_fault(job.kind, job.payload) is Some {
        payload_fault(job.kind, job.payload)
    } else if !valid_policy(job) {
        Some(ValidationErrorView::InvalidPolicy)
    } else if exists|k: int| 0 <= k < i && (#[trigger] jobs[k]).id == job.id {
        Some(ValidationErrorView::DuplicateJob(job.id))
    } else {
        None
    }
}

/// The first fault among the first `n` jobs.
pub open spec fn first_job_fault(jobs: Seq<JobSpecView>, n: nat) -> Option<ValidationErrorView>
    decreases n,
{
    if n == 0 {
        None
    } else {
        match first_job_fault(jobs, (n - 1) as nat) {
            Some(e) => Some(e),
            None => job_fault(jobs, n - 1),
        }
    }
}

/// Identifiers of the jobs of a graph, in specification order.
pub open spec fn job_ids(d: DagSpecView) -> Seq<Seq<char>> {
    d.jobs.map_values(|j: JobSpecView| j.id)
}

/// Why dependency `k` is refused, if it is.
pub open spec fn edge_fault(d: DagSpecView, k: int) -> Option<ValidationErrorView> {
    let dep = d.dependencies[k];
    if dep.from == dep.to {
        Some(ValidationErrorView::Cycle)
    } else if !job_ids(d).contains(dep.from) {
        Some(ValidationErrorView::UnknownJob(dep.from))
    } else if !job_ids(d).contains(dep.to) {
        Some(ValidationErrorView::UnknownJob(dep.to))
    } else {
        None
    }
}

/// The first fault among the first `n` dependencies.
pub open spec fn first_edge_fault(d: DagSpecView, n: nat) -> Option<ValidationErrorView>
    decreases n,
{
    if n == 0 {
        None
    } else {
        match first_edge_fault(d, (n - 1) as nat) {
            Some(e) => Some(e),
            None => edge_fault(d, n - 1),
        }
    }
}

/// Position of the job named `id`.
pub open spec fn job_index(d: DagSpecView, id: Seq<char>) -> int {
    choose|i: int| 0 <= i < d.jobs.len() && d.jobs[i].id == id
}

/// The dependencies as edges between job positions.
pub open spec fn index_edges(d: DagSpecView) -> Seq<(usize, usize)> {
    Seq::new(
        d.dependencies.len(),
        |k: int|
            (
                job_index(d, d.dependencies[k].from) as usize,
                job_index(d, d.dependencies[k].to) as usize,
            ),
    )
}

/// Why a graph is refused, if it is: checks run in a fixed order and the first failing one decides.
pub open spec fn dag_fault(d: DagSpecView) -> Option<ValidationErrorView> {
    if !valid_identifier(d.id, MAX_DAG_ID_BYTES as nat) {
        Some(ValidationErrorView::InvalidIdentifier(d.id))
    } else if d.jobs.len() == 0 || d.jobs.len() > MAX_JOBS_PER_DAG {
        Some(ValidationErrorView::InvalidJobCount)
    } else if d.dependencies.len() > MAX_DEPENDENCIES_PER_DAG {
        Some(ValidationErrorView::InvalidDependencyCount)
    } else if first_job_fault(d.jobs, d.jobs.len()) is Some {
        first_job_fault(d.jobs, d.jobs.len())
    } else if first_edge_fault(d, d.dependencies.len()) is Some {
        first_edge_fault(d, d.dependencies.len())
    } else if !is_acyclic(d.jobs.len(), index_edges(d)) {
        Some(ValidationErrorView::Cycle)
    } else {
        None
    }
}

/// `order` names every job once, and every dependency's `from` comes before its `to`.
pub open spec fn is_dag_order(d: DagSpecView, order: Seq<Seq<char>>) -> bool {
    &&& order.len() == d.jobs.len()
    &&& order.no_duplicates()
    &&& forall|i: int| 0 <= i < order.len() ==> job_ids(d).contains(#[trigger] order[i])
    &&& forall|k: int, a: int, b: int|
        #![trigger d.dependencies[k], order[a], order[b]]
        0 <= k < d.dependencies.len() && 0 <= a <= b < order.len() ==> !(d.dependencies[k].from
            == order[b] && d.dependencies[k].to == order[a])
}

impl JobKind {
    /// Checks operation-specific payload limits before work enters the queue.
    pub fn validate_payload(&self, payload: &str) -> (r: Result<(), ValidationError>)
        ensures
            match r {
                Ok(_) => payload_fault(*self, payload@) is None,
                Err(e) => payload_fault(*self, payload@) == Some(e@),
            },
    {
        if payload.as_bytes().len() > MAX_PAYLOAD_BYTES {
            return Err(ValidationError::PayloadTooLarge);
        }
        if let JobKind::Delay = self {
            match parse_u64(payload) {
                Some(delay) => {
                    if delay > 5000 {
                        return Err(ValidationError::InvalidDelay);
                    }
                },
                None => {
                    return Err(ValidationError::InvalidDelay);
                },
            }
        }
        Ok(())
    }
}

/// Accepts a non-empty identifier of at most `max_bytes` ASCII letters, digits, `-` or `_`.
pub fn validate_identifier(value: &str, max_bytes: usize) -> (r: Result<(), ValidationError>)
    ensures
        match r {
            Ok(_) => valid_identifier(value@, max_bytes as nat),
            Err(e) => !valid_identifier(value@, max_bytes as nat) && e@
                == ValidationErrorView::InvalidIdentifier(value@),
        },
{
    let bytes = value.as_bytes();
    let mut valid = !value.is_empty() && bytes.len() <= max_bytes;
    let mut i: usize = 0;
    while i < bytes.len()
        invariant
            bytes@ == utf8(value@),
            i <= bytes@.len(),
            valid == (value@.len() > 0 && bytes@.len() <= max_bytes && forall|k: int|
                0 <= k < i ==> is_identifier_byte(#[trigger] bytes@[k])),
        decreases bytes@.len() - i,
    {
        let b = bytes[i];
        let ok = (48u8 <= b && b <= 57u8) || (65u8 <= b && b <= 90u8) || (97u8 <= b && b <= 122u8)
            || b == 45u8 || b == 95u8;
        valid = valid && ok;
        i += 1;
    }
    if valid {
        Ok(())
    } else {
        Err(ValidationError::InvalidIdentifier(value.to_owned()))
    }
}

proof fn lemma_first_job_fault_stable(jobs: Seq<JobSpecView>, i: nat, n: nat)
    requires
        i <= n,
        first_job_fault(jobs, i) is Some,
    ensures
        first_job_fault(jobs, n) == first_job_fault(jobs, i),
    decreases n,
{
    if n > i {
        lemma_first_job_fault_stable(jobs, i, (n - 1) as nat);
    }
}

pub proof fn lemma_first_job_fault_none(jobs: Seq<JobSpecView>, n: nat, i: int)
    requires
        first_job_fault(jobs, n) is None,
        0 <= i < n,
    ensures
        job_fault(jobs, i) is None,
    decreases n,
{
    if i < n - 1 {
        lemma_first_job_fault_none(jobs, (n - 1) as nat, i);
    }
}

proof fn lemma_first_edge_fault_stable(d: DagSpecView, i: nat, n: nat)
    requires
        i <= n,
        first_edge_fault(d, i) is Some,
    ensures
        first_edge_fault(d, n) == first_edge_fault(d, i),
    decreases n,
{
    if n > i {
        lemma_first_edge_fault_stable(d, i, (n - 1) as nat);
    }
}

/// Job identifiers are pairwise distinct.
pub open spec fn distinct_job_ids(d: DagSpecView) -> bool {
    forall|p: int, q: int|
        0 <= p < d.jobs.len() && 0 <= q < d.jobs.len() && p != q ==> (#[trigger] d.jobs[p]).id != (
        #[trigger] d.jobs[q]).id
}

pub proof fn lemma_distinct_ids(d: DagSpecView)
    requires
        first_job_fault(d.jobs, d.jobs.len()) is None,
    ensures
        distinct_job_ids(d),
{
    assert forall|p: int, q: int|
        0 <= p < d.jobs.len() && 0 <= q < d.jobs.len() && p != q implies (#[trigger] d.jobs[p]).id != (
        #[trigger] d.jobs[q]).id by {
        let (lo, hi) = if p < q { (p, q) } else { (q, p) };
        lemma_first_job_fault_none(d.jobs, d.jobs.len(), hi);
        if d.jobs[lo].id == d.jobs[hi].id {
            assert(exists|k: int| 0 <= k < hi && (#[trigger] d.jobs[k]).id == d.jobs[hi].id);
        }
    }
}

pub proof fn lemma_job_index(d: DagSpecView, j: int)
    requires
        distinct_job_ids(d),
        0 <= j < d.jobs.len(),
    ensures
        job_index(d, d.jobs[j].id) == j,
{
    let id = d.jobs[j].id;
    assert(exists|i: int| 0 <= i < d.jobs.len() && d.jobs[i].id == id);
    let i = job_index(d, id);
    assert(d.jobs[i].id == id);
}


/// Position of `id` in `order`, or -1 when it is not listed.
pub open spec fn listed_at(order: Seq<Seq<char>>, id: Seq<char>) -> int {
    if order.contains(id) {
        choose|i: int| 0 <= i < order.len() && order[i] == id
    } else {
        -1
    }
}

/// Position in `order` of the last-listed job among those that the first `k` dependencies of
/// job `id` come from, or -1 when none of them is listed.
pub open spec fn last_dependency(d: DagSpecView, order: Seq<Seq<char>>, id: Seq<char>, k: nat) -> int
    decreases k,
{
    if k == 0 {
        -1
    } else {
        let p = last_dependency(d, order, id, (k - 1) as nat);
        let dep = d.dependencies[k - 1];
        if dep.to == id && listed_at(order, dep.from) > p {
            listed_at(order, dep.from)
        } else {
            p
        }
    }
}

/// The order in which validation lists the jobs: Kahn's algorithm, serving available jobs
/// first-come first-served and jobs that become available together by identifier. Along the
/// order, the position of the last-listed job that each job depends on never decreases, and
/// jobs released by the same job come by identifier.
pub open spec fn is_release_listing(d: DagSpecView, order: Seq<Seq<char>>) -> bool {
    &&& is_dag_order(d, order)
    &&& forall|a: int, b: int|
        0 <= a < b < order.len() ==> {
            let pa = last_dependency(d, order, #[trigger] order[a], d.dependencies.len());
            let pb = last_dependency(d, order, #[trigger] order[b], d.dependencies.len());
            pa < pb || (pa == pb && text_lt(order[a], order[b]))
        }
}

proof fn lemma_listed_at(d: DagSpecView, o: Seq<usize>, ids: Seq<Seq<char>>, v: int)
    requires
        distinct_job_ids(d),
        is_topological_order(d.jobs.len(), index_edges(d), o),
        d.jobs.len() <= usize::MAX,
        ids.len() == o.len(),
        forall|q: int| 0 <= q < o.len() ==> #[trigger] ids[q] == d.jobs[o[q] as int].id,
        0 <= v < d.jobs.len(),
    ensures
        listed_at(ids, d.jobs[v].id) == position_of(o, v as usize),
        0 <= position_of(o, v as usize),
{
    let n = d.jobs.len();
    if !o.contains(v as usize) {
        lemma_distinct_below_missing(o, n, v as usize);
    }
    let i = choose|i: int| 0 <= i < o.len() && o[i] == v as usize;
    lemma_position_at(o, i);
    assert(ids[i] == d.jobs[v].id);
    assert(ids.contains(d.jobs[v].id));
    let c = choose|c: int| 0 <= c < ids.len() && ids[c] == d.jobs[v].id;
    if c != i {
        assert(d.jobs[o[c] as int].id == d.jobs[o[i] as int].id);
        assert(o[c] == o[i]);
    }
}

proof fn lemma_last_dependency(
    d: DagSpecView,
    o: Seq<usize>,
    ids: Seq<Seq<char>>,
    v: int,
    k: nat,
)
    requires
        dag_fault(d) is None,
        is_topological_order(d.jobs.len(), index_edges(d), o),
        ids.len() == o.len(),
        forall|q: int| 0 <= q < o.len() ==> #[trigger] ids[q] == d.jobs[o[q] as int].id,
        0 <= v < d.jobs.len(),
        k <= d.dependencies.len(),
    ensures
        last_dependency(d, ids, d.jobs[v].id, k) == last_source(index_edges(d), o, v as usize, k),
    decreases k,
{
    if k > 0 {
        lemma_last_dependency(d, o, ids, v, (k - 1) as nat);
        lemma_distinct_ids(d);
        let dep = d.dependencies[k - 1];
        lemma_accepted_edges(d, k - 1);
        let f = choose|j: int| 0 <= j < job_ids(d).len() && job_ids(d)[j] == dep.from;
        let t = choose|j: int| 0 <= j < job_ids(d).len() && job_ids(d)[j] == dep.to;
        lemma_job_index(d, f);
        lemma_job_index(d, t);
        assert(index_edges(d)[k - 1] == (f as usize, t as usize));
        lemma_listed_at(d, o, ids, f);
        assert((dep.to == d.jobs[v].id) == (t == v)) by {
            if t != v {
                assert(d.jobs[t].id != d.jobs[v].id);
            }
        }
    }
}

/// The identifiers of a release order of the job positions form the validation listing.
proof fn lemma_release_listing(d: DagSpecView, o: Seq<usize>, ids: Seq<Seq<char>>)
    requires
        dag_fault(d) is None,
        is_release_order(d.jobs.len(), index_edges(d), job_ids(d), o),
        ids.len() == o.len(),
        forall|q: int| 0 <= q < o.len() ==> #[trigger] ids[q] == d.jobs[o[q] as int].id,
    ensures
        forall|a: int, b: int|
            0 <= a < b < ids.len() ==> {
                let pa = last_dependency(d, ids, #[trigger] ids[a], d.dependencies.len());
                let pb = last_dependency(d, ids, #[trigger] ids[b], d.dependencies.len());
                pa < pb || (pa == pb && text_lt(ids[a], ids[b]))
            },
{
    let m = d.dependencies.len();
    assert forall|a: int, b: int| 0 <= a < b < ids.len() implies {
        let pa = last_dependency(d, ids, #[trigger] ids[a], m);
        let pb = last_dependency(d, ids, #[trigger] ids[b], m);
        pa < pb || (pa == pb && text_lt(ids[a], ids[b]))
    } by {
        assert(index_edges(d).len() == m);
        lemma_last_dependency(d, o, ids, o[a] as int, m);
        lemma_last_dependency(d, o, ids, o[b] as int, m);
        assert(job_ids(d)[o[a] as int] == ids[a]);
        assert(job_ids(d)[o[b] as int] == ids[b]);
    }
}


proof fn lemma_policy_fault_source(jobs: Seq<JobSpecView>, n: nat)
    requires
        n <= jobs.len(),
        first_job_fault(jobs, n) == Some(ValidationErrorView::InvalidPolicy),
    ensures
        exists|i: int|
            0 <= i < n && ((#[trigger] jobs[i]).max_attempts == 0 || jobs[i].max_attempts > 20
                || jobs[i].priority < -100 || jobs[i].priority > 100),
    decreases n,
{
    if first_job_fault(jobs, (n - 1) as nat) is Some {
        lemma_policy_fault_source(jobs, (n - 1) as nat);
    } else {
        let i = n - 1;
        assert(job_fault(jobs, i) == Some(ValidationErrorView::InvalidPolicy));
        if payload_fault(jobs[i].kind, jobs[i].payload) is Some {
            assert(payload_fault(jobs[i].kind, jobs[i].payload) != Some(
                ValidationErrorView::InvalidPolicy,
            ));
        }
        assert(jobs[i] == jobs[i]);
    }
}

proof fn lemma_edge_fault_not_policy(d: DagSpecView, n: nat)
    requires
        n <= d.dependencies.len(),
    ensures
        first_edge_fault(d, n) != Some(ValidationErrorView::InvalidPolicy),
    decreases n,
{
    if n > 0 {
        lemma_edge_fault_not_policy(d, (n - 1) as nat);
    }
}

/// A graph is refused for its policy only when one of its jobs has an attempt budget outside
/// `1..=20` or a priority outside `-100..=100`: budgets up to 20 and any priority in range are
/// always accepted by the policy check.
pub proof fn policy_refusal_needs_an_out_of_range_job(d: DagSpecView)
    requires
        dag_fault(d) == Some(ValidationErrorView::InvalidPolicy),
    ensures
        exists|i: int|
            0 <= i < d.jobs.len() && ((#[trigger] d.jobs[i]).max_attempts == 0 || d.jobs[i].max_attempts
                > 20 || d.jobs[i].priority < -100 || d.jobs[i].priority > 100),
{
    if first_job_fault(d.jobs, d.jobs.len()) is Some {
        lemma_policy_fault_source(d.jobs, d.jobs.len());
    } else {
        lemma_edge_fault_not_policy(d, d.dependencies.len());
    }
}


/// Every job of an accepted graph has an attempt budget within `1..=20` and a priority within
/// `-100..=100`.
pub proof fn accepted_graphs_respect_policy(d: DagSpecView, i: int)
    requires
        dag_fault(d) is None,
        0 <= i < d.jobs.len(),
    ensures
        1 <= d.jobs[i].max_attempts <= 20,
        -100 <= d.jobs[i].priority <= 100,
{
    lemma_first_job_fault_none(d.jobs, d.jobs.len(), i);
}

impl DagSpec {
    /// Validates identifiers, payloads, edge endpoints, and acyclicity in O(V + E).
    /// On success returns the job identifiers in a dependency-respecting order.
    pub fn validate(&self) -> (r: Result<Vec<String>, ValidationError>)
        ensures
            match r {
                Ok(order) => dag_fault(self@) is None && is_release_listing(
                    self@,
                    order@.map_values(|s: String| s@),
                ),
                Err(e) => dag_fault(self@) == Some(e@),
            },
    {
        let ghost d = self@;
        match validate_identifier(self.id.as_str(), MAX_DAG_ID_BYTES) {
            Err(e) => {
                return Err(e);
            },
            Ok(_) => {},
        }
        let n = self.jobs.len();
        if n == 0 || n > MAX_JOBS_PER_DAG {
            return Err(ValidationError::InvalidJobCount);
        }
        if self.dependencies.len() > MAX_DEPENDENCIES_PER_DAG {
            return Err(ValidationError::InvalidDependencyCount);
        }
        assert(d.jobs.len() == n);
        let mut index: StringHashMap<usize> = StringHashMap::new();
        let mut names: Vec<String> = Vec::new();
        let mut i: usize = 0;
        while i < n
            invariant
                d == self@,
                n == self.jobs.len(),
                d.jobs.len() == n,
                valid_identifier(d.id, MAX_DAG_ID_BYTES as nat),
                0 < d.jobs.len() <= MAX_JOBS_PER_DAG,
                d.dependencies.len() <= MAX_DEPENDENCIES_PER_DAG,
                i <= n,
                first_job_fault(d.jobs, i as nat) is None,
                names@.len() == i,
                forall|k: int| 0 <= k < i ==> (#[trigger] names@[k])@ == d.jobs[k].id,
                forall|k: int|
                    0 <= k < i ==> #[trigger] index@.contains_key(d.jobs[k].id) && index@[d.jobs[k].id]
                        == k,
                forall|id: Seq<char>|
                    #[trigger] index@.contains_key(id) ==> exists|k: int|
                        0 <= k < i && (#[trigger] d.jobs[k]).id == id,
            decreases n - i,
        {
            let job = &self.jobs[i];
            assert(d.jobs[i as int] == job@);
            proof {
                assert(first_job_fault(d.jobs, (i + 1) as nat) == job_fault(d.jobs, i as int));
            }
            match validate_identifier(job.id.as_str(), MAX_JOB_ID_BYTES) {
                Err(e) => {
                    proof {
                        lemma_first_job_fault_stable(d.jobs, (i + 1) as nat, n as nat);
                    }
                    return Err(e);
                },
                Ok(_) => {},
            }
            match job.kind.validate_payload(job.payload.as_str()) {
                Err(e) => {
                    proof {
                        lemma_first_job_fault_stable(d.jobs, (i + 1) as nat, n as nat);
                    }
                    return Err(e);
                },
                Ok(_) => {},
            }
            if job.max_attempts == 0 || job.max_attempts > 20 || job.priority < -100 || job.priority
                > 100 {
                proof {
                    lemma_first_job_fault_stable(d.jobs, (i + 1) as nat, n as nat);
                }
                return Err(ValidationError::InvalidPolicy);
            }
            if index.contains_key(job.id.as_str()) {
                proof {
                    let k = choose|k: int| 0 <= k < i && (#[trigger] d.jobs[k]).id == job.id@;
                    assert(exists|k: int| 0 <= k < i && (#[trigger] d.jobs[k]).id == d.jobs[i as int].id);
                    lemma_first_job_fault_stable(d.jobs, (i + 1) as nat, n as nat);
                }
                return Err(ValidationError::DuplicateJob(job.id.clone()));
            }
            proof {
                assert(!exists|k: int| 0 <= k < i && (#[trigger] d.jobs[k]).id == d.jobs[i as int].id)
                    by {
                    if exists|k: int| 0 <= k < i && (#[trigger] d.jobs[k]).id == d.jobs[i as int].id {
                        let k = choose|k: int| 0 <= k < i && (#[trigger] d.jobs[k]).id == d.jobs[i as int].id;
                        assert(index@.contains_key(d.jobs[k].id));
                    }
                }
            }
            let ghost before = index@;
            index.insert(job.id.clone(), i);
            names.push(job.id.clone());
            proof {
                assert forall|k: int| 0 <= k < i + 1 implies #[trigger] index@.contains_key(d.jobs[k].id)
                    && index@[d.jobs[k].id] == k by {
                    if k < i {
                        assert(d.jobs[k].id != d.jobs[i as int].id);
                        assert(before.contains_key(d.jobs[k].id));
                    }
                }
                assert forall|id: Seq<char>| #[trigger] index@.contains_key(id) implies exists|k: int|
                    0 <= k < i + 1 && (#[trigger] d.jobs[k]).id == id by {
                    if id == job.id@ {
                        assert(d.jobs[i as int].id == id);
                    } else {
                        let k = choose|k: int| 0 <= k < i && (#[trigger] d.jobs[k]).id == id;
                    }
                }
            }
            i += 1;
        }
        proof {
            lemma_distinct_ids(d);
        }
        let m = self.dependencies.len();
        let mut edges: Vec<(usize, usize)> = Vec::new();
        let mut k: usize = 0;
        while k < m
            invariant
                d == self@,
                n == self.jobs.len(),
                d.jobs.len() == n,
                valid_identifier(d.id, MAX_DAG_ID_BYTES as nat),
                0 < d.jobs.len() <= MAX_JOBS_PER_DAG,
                d.dependencies.len() <= MAX_DEPENDENCIES_PER_DAG,
                first_job_fault(d.jobs, n as nat) is None,
                m == d.dependencies.len(),
                k <= m,
                distinct_job_ids(d),
                first_edge_fault(d, k as nat) is None,
                edges@.len() == k,
                forall|e: int| 0 <= e < k ==> #[trigger] edges@[e] == index_edges(d)[e],
                forall|e: int| 0 <= e < k ==> (#[trigger] edges@[e]).0 < n && edges@[e].1 < n,
                forall|j: int|
                    0 <= j < n ==> #[trigger] index@.contains_key(d.jobs[j].id) && index@[d.jobs[j].id]
                        == j,
                forall|id: Seq<char>|
                    #[trigger] index@.contains_key(id) ==> exists|j: int|
                        0 <= j < n && (#[trigger] d.jobs[j]).id == id,
            decreases m - k,
        {
            let dep = &self.dependencies[k];
            assert(d.dependencies[k as int] == dep@);
            proof {
                assert(first_edge_fault(d, (k + 1) as nat) == edge_fault(d, k as int));
            }
            if str_eq(dep.from.as_str(), dep.to.as_str()) {
                proof {
                    lemma_first_edge_fault_stable(d, (k + 1) as nat, m as nat);
                }
                return Err(ValidationError::Cycle);
            }
            let from = match index.get(dep.from.as_str()) {
                Some(x) => *x,
                None => {
                    proof {
                        if job_ids(d).contains(dep.from@) {
                            let j = choose|j: int| 0 <= j < job_ids(d).len() && job_ids(d)[j] == dep.from@;
                            assert(index@.contains_key(d.jobs[j].id));
                        }
                        lemma_first_edge_fault_stable(d, (k + 1) as nat, m as nat);
                    }
                    return Err(ValidationError::UnknownJob(dep.from.clone()));
                },
            };
            let to = match index.get(dep.to.as_str()) {
                Some(x) => *x,
                None => {
                    proof {
                        let j = choose|j: int| 0 <= j < n && (#[trigger] d.jobs[j]).id == dep.from@;
                        assert(job_ids(d)[j] == dep.from@);
                        if job_ids(d).contains(dep.to@) {
                            let j = choose|j: int| 0 <= j < job_ids(d).len() && job_ids(d)[j] == dep.to@;
                            assert(index@.contains_key(d.jobs[j].id));
                        }
                        lemma_first_edge_fault_stable(d, (k + 1) as nat, m as nat);
                    }
                    return Err(ValidationError::UnknownJob(dep.to.clone()));
                },
            };
            proof {
                let jf = choose|j: int| 0 <= j < n && (#[trigger] d.jobs[j]).id == dep.from@;
                let jt = choose|j: int| 0 <= j < n && (#[trigger] d.jobs[j]).id == dep.to@;
                assert(job_ids(d)[jf] == dep.from@);
                assert(job_ids(d)[jt] == dep.to@);
                lemma_job_index(d, jf);
                lemma_job_index(d, jt);
                assert(index@[d.jobs[jf].id] == jf);
                assert(index@[d.jobs[jt].id] == jt);
            }
            edges.push((from, to));
            k += 1;
        }
        assert(edges@ =~= index_edges(d));
        assert(edges_within(n as nat, edges@));
        match topological_order(n, &edges, &names) {
            None => Err(ValidationError::Cycle),
            Some(order) => {
                let mut out: Vec<String> = Vec::new();
                let mut t: usize = 0;
                while t < n
                    invariant
                        is_topological_order(n as nat, edges@, order@),
                        names@.len() == n,
                        forall|q: int| 0 <= q < n ==> (#[trigger] names@[q])@ == d.jobs[q].id,
                        t <= n,
                        out@.len() == t,
                        forall|q: int| 0 <= q < t ==> (#[trigger] out@[q])@ == d.jobs[order@[q] as int].id,
                    decreases n - t,
                {
                    assert(order@[t as int] < n);
                    out.push(names[order[t]].clone());
                    t += 1;
                }
                proof {
                    let ids = out@.map_values(|s: String| s@);
                    let o = order@;
                    assert forall|a: int, b: int| 0 <= a < ids.len() && 0 <= b < ids.len() && a != b implies ids[a]
                        != ids[b] by {
                        if ids[a] == ids[b] {
                            assert(d.jobs[o[a] as int].id == d.jobs[o[b] as int].id);
                        }
                    }
                    assert forall|q: int| 0 <= q < ids.len() implies job_ids(d).contains(#[trigger] ids[q]) by {
                        assert(job_ids(d)[o[q] as int] == ids[q]);
                    }
                    assert(names@.map_values(|s: String| s@) =~= job_ids(d));
                    assert(forall|q: int| 0 <= q < o.len() ==> #[trigger] ids[q] == d.jobs[o[q] as int].id);
                    assert forall|e: int, a: int, b: int|
                        #![trigger d.dependencies[e], ids[a], ids[b]]
                        0 <= e < d.dependencies.len() && 0 <= a <= b < ids.len() implies !(
                        d.dependencies[e].from == ids[b] && d.dependencies[e].to == ids[a]) by {
                        if d.dependencies[e].from == ids[b] && d.dependencies[e].to == ids[a] {
                            lemma_job_index(d, o[b] as int);
                            lemma_job_index(d, o[a] as int);
                            assert(edges@[e] == (o[b], o[a]));
                        }
                    }
                }
                proof {
                    let ids = out@.map_values(|s: String| s@);
                    assert(dag_fault(d) is None);
                    lemma_release_listing(d, order@, ids);
                }
                Ok(out)
            },
        }
    }
}

impl DagSpec {
    /// The dependencies of an accepted graph as edges between job positions.
    pub fn dependency_edges(&self) -> (r: Vec<(usize, usize)>)
        requires
            dag_fault(self@) is None,
        ensures
            r@ == index_edges(self@),
            edges_within(self@.jobs.len(), r@),
    {
        let ghost d = self@;
        proof {
            lemma_distinct_ids(d);
        }
        let n = self.jobs.len();
        let mut index: StringHashMap<usize> = StringHashMap::new();
        let mut i: usize = 0;
        while i < n
            invariant
                d == self@,
                n == d.jobs.len(),
                distinct_job_ids(d),
                i <= n,
                forall|k: int|
                    0 <= k < i ==> #[trigger] index@.contains_key(d.jobs[k].id) && index@[d.jobs[k].id]
                        == k,
            decreases n - i,
        {
            let ghost before = index@;
            index.insert(self.jobs[i].id.clone(), i);
            proof {
                assert forall|k: int| 0 <= k < i + 1 implies #[trigger] index@.contains_key(d.jobs[k].id)
                    && index@[d.jobs[k].id] == k by {
                    if k < i {
                        assert(d.jobs[k].id != d.jobs[i as int].id);
                        assert(before.contains_key(d.jobs[k].id));
                    }
                }
            }
            i += 1;
        }
        let m = self.dependencies.len();
        let mut edges: Vec<(usize, usize)> = Vec::new();
        let mut k: usize = 0;
        while k < m
            invariant
                d == self@,
                n == d.jobs.len(),
                m == d.dependencies.len(),
                dag_fault(d) is None,
                distinct_job_ids(d),
                k <= m,
                edges@.len() == k,
                forall|e: int| 0 <= e < k ==> #[trigger] edges@[e] == index_edges(d)[e],
                forall|e: int| 0 <= e < k ==> (#[trigger] edges@[e]).0 < n && edges@[e].1 < n,
                forall|j: int|
                    0 <= j < n ==> #[trigger] index@.contains_key(d.jobs[j].id) && index@[d.jobs[j].id]
                        == j,
            decreases m - k,
        {
            let dep = &self.dependencies[k];
            assert(d.dependencies[k as int] == dep@);
            proof {
                lemma_no_edge_fault(d, k as int);
            }
            let ghost jf = choose|j: int| 0 <= j < job_ids(d).len() && job_ids(d)[j] == dep.from@;
            let ghost jt = choose|j: int| 0 <= j < job_ids(d).len() && job_ids(d)[j] == dep.to@;
            assert(d.jobs[jf].id == dep.from@);
            assert(d.jobs[jt].id == dep.to@);
            assert(index@.contains_key(d.jobs[jf].id));
            assert(index@.contains_key(d.jobs[jt].id));
            let from = match index.get(dep.from.as_str()) {
                Some(x) => *x,
                None => 0,
            };
            let to = match index.get(dep.to.as_str()) {
                Some(x) => *x,
                None => 0,
            };
            proof {
                lemma_job_index(d, jf);
                lemma_job_index(d, jt);
            }
            edges.push((from, to));
            k += 1;
        }
        assert(edges@ =~= index_edges(d));
        edges
    }
}

proof fn lemma_no_edge_fault(d: DagSpecView, k: int)
    requires
        dag_fault(d) is None,
        0 <= k < d.dependencies.len(),
    ensures
        edge_fault(d, k) is None,
{
    lemma_first_edge_fault_none(d, d.dependencies.len(), k);
}

proof fn lemma_first_edge_fault_none(d: DagSpecView, n: nat, i: int)
    requires
        first_edge_fault(d, n) is None,
        0 <= i < n,
    ensures
        edge_fault(d, i) is None,
    decreases n,
{
    if i < n - 1 {
        lemma_first_edge_fault_none(d, (n - 1) as nat, i);
    }
}

/// An accepted graph's dependencies join two distinct, known jobs.
pub proof fn lemma_accepted_edges(d: DagSpecView, k: int)
    requires
        dag_fault(d) is None,
        0 <= k < d.dependencies.len(),
    ensures
        d.dependencies[k].from != d.dependencies[k].to,
        job_ids(d).contains(d.dependencies[k].from),
        job_ids(d).contains(d.dependencies[k].to),
{
    lemma_no_edge_fault(d, k);
}

} // verus!
