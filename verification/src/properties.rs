//! Guarantees of the scheduler that span operations: what every state keeps, what each
//! transition leaves untouched, and which requests a transition makes fail.

use vstd::prelude::*;
use crate::domain::{index_edges, DagSpecView, JobState};
use crate::graph::occurrences;
use crate::scheduler_model::{
    best_ready, cancel_outcome, cancelled_dag, claim_outcome, complete_outcome, dag_lookup, dag_wf,
    drop_stale, eligible, fail_outcome, heartbeat_outcome, is_best, is_expired, is_terminal,
    job_lookup, job_wf, key_at, key_lt, lease_check, lemma_key_order, reaped, retried,
    scheduler_wf, submit_outcome, unmet_into, admitted_dag, queued_in_dags, queued_in_jobs,
    ready_len, sources_in, lemma_two_pow_mono, retry_bound, jitter, two_pow, default_config,
    SchedulerConfig, lease_token, succ_u64, apply, handed_out, history, Request,
    leased, renewed, completed_dag, reap_job, stale_dropped,
    lease_request_valid, expired_in_dags, expired_in_jobs, is_sorted_snapshot, job_snapshot, DagRecordView, JobRecordView, SchedulerErrorView, SchedulerView,
};

verus! {

proof fn lemma_occurrences_of_member(s: Seq<usize>, k: usize)
    requires
        s.contains(k),
    ensures
        occurrences(s, k) >= 1,
    decreases s.len(),
{
    let i = choose|i: int| 0 <= i < s.len() && s[i] == k;
    if s.last() != k {
        assert(s.drop_last()[i] == k);
        lemma_occurrences_of_member(s.drop_last(), k);
    }
}

proof fn lemma_unmet_includes(
    jobs: Seq<JobRecordView>,
    deps: Seq<Seq<usize>>,
    k: usize,
    n: nat,
    i: int,
)
    requires
        0 <= i < n,
        jobs[i].state != JobState::Succeeded,
    ensures
        unmet_into(jobs, deps, k, n) >= occurrences(deps[i], k),
    decreases n,
{
    if n - 1 > i {
        lemma_unmet_includes(jobs, deps, k, (n - 1) as nat, i);
    }
}

/// A graph position is the one that `dag_lookup` finds when identifiers are distinct.
proof fn lemma_dag_lookup_at(dags: Seq<DagRecordView>, d: int)
    requires
        0 <= d < dags.len(),
        forall|a: int, b: int|
            0 <= a < dags.len() && 0 <= b < dags.len() && a != b ==> (#[trigger] dags[a]).id != (
            #[trigger] dags[b]).id,
    ensures
        dag_lookup(dags, dags[d].id) == Some(d),
{
    let id = dags[d].id;
    assert(exists|i: int| 0 <= i < dags.len() && (#[trigger] dags[i]).id == id);
    let c = choose|i: int| 0 <= i < dags.len() && (#[trigger] dags[i]).id == id;
    if c != d {
        assert(dags[c].id != dags[d].id);
    }
}

/// A job position is the one that `job_lookup` finds when identifiers are distinct.
proof fn lemma_job_lookup_at(jobs: Seq<JobRecordView>, j: int)
    requires
        0 <= j < jobs.len(),
        forall|a: int, b: int|
            0 <= a < jobs.len() && 0 <= b < jobs.len() && a != b ==> (#[trigger] jobs[a]).spec.id
                != (#[trigger] jobs[b]).spec.id,
    ensures
        job_lookup(jobs, jobs[j].spec.id) == Some(j),
{
    let id = jobs[j].spec.id;
    assert(exists|i: int| 0 <= i < jobs.len() && (#[trigger] jobs[i]).spec.id == id);
    let c = choose|i: int| 0 <= i < jobs.len() && (#[trigger] jobs[i]).spec.id == id;
    if c != j {
        assert(jobs[c].spec.id != jobs[j].spec.id);
    }
}

/// A job that is released (ready, retrying, leased, succeeded or dead-lettered) depends only on
/// jobs that have succeeded: dependents are released only after success.
pub proof fn released_jobs_follow_successes(s: SchedulerView, d: int, i: int, k: usize)
    requires
        scheduler_wf(s),
        0 <= d < s.dags.len(),
        0 <= i < s.dags[d].jobs.len(),
        s.dags[d].dependents[i].contains(k),
        s.dags[d].jobs[k as int].state != JobState::Pending,
        s.dags[d].jobs[k as int].state != JobState::Cancelled,
    ensures
        s.dags[d].jobs[i].state == JobState::Succeeded,
{
    let dag = s.dags[d];
    assert(dag_wf(dag));
    let t = choose|t: int| 0 <= t < dag.dependents[i].len() && dag.dependents[i][t] == k;
    assert(k < dag.jobs.len());
    assert(job_wf(dag.jobs[k as int]));
    if dag.jobs[i].state != JobState::Succeeded {
        lemma_occurrences_of_member(dag.dependents[i], k);
        lemma_unmet_includes(dag.jobs, dag.dependents, k, dag.jobs.len(), i);
    }
}

/// No request under a lease that `dag_id`/`job_id` does not hold passes the lease check once
/// the job carries no lease.
proof fn lemma_no_lease_no_access(
    s: SchedulerView,
    d: int,
    j: int,
    dag_id: Seq<char>,
    job_id: Seq<char>,
    owner: Seq<char>,
    token: Seq<char>,
    now: i64,
)
    requires
        0 <= d < s.dags.len(),
        0 <= j < s.dags[d].jobs.len(),
        dag_lookup(s.dags, dag_id) == Some(d),
        job_lookup(s.dags[d].jobs, job_id) == Some(j),
        s.dags[d].jobs[j].lease is None,
    ensures
        lease_check(s, dag_id, job_id, owner, token, now) == Err::<(int, int), SchedulerErrorView>(
            SchedulerErrorView::LeaseConflict,
        ),
{
}

/// Once an expired lease is reaped, the worker that held it can no longer complete, fail or
/// extend the job, whatever time it reports.
pub proof fn reaped_lease_is_rejected(
    s: SchedulerView,
    now: i64,
    d: int,
    j: int,
    owner: Seq<char>,
    token: Seq<char>,
    result: Seq<char>,
    later: i64,
    lease_ms: i64,
)
    requires
        scheduler_wf(s),
        0 <= d < s.dags.len(),
        0 <= j < s.dags[d].jobs.len(),
        is_expired(s.dags[d].jobs[j], now),
    ensures
        ({
            let t = reaped(s, now);
            let dag_id = s.dags[d].id;
            let job_id = s.dags[d].jobs[j].spec.id;
            &&& complete_outcome(t, dag_id, job_id, owner, token, result, later) is Err
            &&& fail_outcome(t, dag_id, job_id, owner, token, later) is Err
            &&& heartbeat_outcome(t, dag_id, job_id, owner, token, later, lease_ms) is Err
        }),
{
    let t = reaped(s, now);
    let dag_id = s.dags[d].id;
    let job_id = s.dags[d].jobs[j].spec.id;
    assert(dag_wf(s.dags[d]));
    assert forall|a: int, b: int|
        0 <= a < t.dags.len() && 0 <= b < t.dags.len() && a != b implies (#[trigger] t.dags[a]).id
        != (#[trigger] t.dags[b]).id by {
        assert(t.dags[a].id == s.dags[a].id);
        assert(t.dags[b].id == s.dags[b].id);
    }
    lemma_dag_lookup_at(t.dags, d);
    let tj = t.dags[d].jobs;
    assert forall|a: int, b: int|
        0 <= a < tj.len() && 0 <= b < tj.len() && a != b implies (#[trigger] tj[a]).spec.id != (
        #[trigger] tj[b]).spec.id by {
        assert(tj[a].spec.id == s.dags[d].jobs[a].spec.id);
        assert(tj[b].spec.id == s.dags[d].jobs[b].spec.id);
    }
    lemma_job_lookup_at(tj, j);
    assert(tj[j] == retried(s.config, s.dags[d].jobs[j], now));
    lemma_no_lease_no_access(t, d, j, dag_id, job_id, owner, token, later);
}

/// After a graph is cancelled, no completion, failure report or heartbeat is accepted for any of
/// its jobs: cancellation invalidates every live lease.
pub proof fn cancelled_graph_rejects_leases(
    s: SchedulerView,
    dag_id: Seq<char>,
    job_id: Seq<char>,
    owner: Seq<char>,
    token: Seq<char>,
    result: Seq<char>,
    now: i64,
    lease_ms: i64,
)
    requires
        scheduler_wf(s),
        cancel_outcome(s, dag_id) is Ok,
    ensures
        ({
            let t = cancel_outcome(s, dag_id)->Ok_0.0;
            &&& complete_outcome(t, dag_id, job_id, owner, token, result, now) is Err
            &&& fail_outcome(t, dag_id, job_id, owner, token, now) is Err
            &&& heartbeat_outcome(t, dag_id, job_id, owner, token, now, lease_ms) is Err
        }),
{
    let d = dag_lookup(s.dags, dag_id).unwrap();
    let t = cancel_outcome(s, dag_id)->Ok_0.0;
    assert(0 <= d < s.dags.len() && s.dags[d].id == dag_id);
    assert(dag_wf(s.dags[d]));
    assert forall|a: int, b: int|
        0 <= a < t.dags.len() && 0 <= b < t.dags.len() && a != b implies (#[trigger] t.dags[a]).id
        != (#[trigger] t.dags[b]).id by {
        assert(t.dags[a].id == s.dags[a].id);
        assert(t.dags[b].id == s.dags[b].id);
    }
    lemma_dag_lookup_at(t.dags, d);
    let tj = t.dags[d].jobs;
    assert(tj == cancelled_dag(s.dags[d]).jobs);
    match job_lookup(tj, job_id) {
        None => {},
        Some(j) => {
            assert(0 <= j < tj.len());
            assert(job_wf(s.dags[d].jobs[j]));
            assert(tj[j].lease is None);
        },
    }
}


/// Position `(x, y)` comes before `(d, j)` in graph-major order.
spec fn visited(x: int, y: int, d: int, j: int) -> bool {
    x < d || (x == d && y < j)
}

/// Among the eligible jobs before position `(d, j)`, one has a key that none of them undercuts,
/// unless there is none.
proof fn lemma_min_in_prefix(s: SchedulerView, now: i64, d: int, j: int) -> (r: Option<(int, int)>)
    requires
        0 <= d <= s.dags.len(),
        0 <= j,
        d < s.dags.len() ==> j <= s.dags[d].jobs.len(),
        d == s.dags.len() ==> j == 0,
    ensures
        match r {
            Some(p) => {
                &&& eligible(s, p.0, p.1, now)
                &&& forall|x: int, y: int|
                    #![trigger eligible(s, x, y, now)]
                    visited(x, y, d, j) && eligible(s, x, y, now) ==> !key_lt(
                        key_at(s, x, y),
                        key_at(s, p.0, p.1),
                    )
            },
            None => forall|x: int, y: int|
                #![trigger eligible(s, x, y, now)]
                visited(x, y, d, j) ==> !eligible(s, x, y, now),
        },
    decreases d, j,
{
    if j > 0 {
        let prev = lemma_min_in_prefix(s, now, d, j - 1);
        if eligible(s, d, j - 1, now) {
            let kn = key_at(s, d, j - 1);
            match prev {
                None => {
                    lemma_key_order(kn, kn, kn);
                    Some((d, j - 1))
                },
                Some(p) => {
                    let ko = key_at(s, p.0, p.1);
                    if key_lt(kn, ko) {
                        assert forall|x: int, y: int|
                            #![trigger eligible(s, x, y, now)]
                            visited(x, y, d, j) && eligible(s, x, y, now) implies !key_lt(
                                key_at(s, x, y),
                                kn,
                            ) by {
                            lemma_key_order(key_at(s, x, y), kn, ko);
                            lemma_key_order(kn, kn, kn);
                        }
                        Some((d, j - 1))
                    } else {
                        prev
                    }
                },
            }
        } else {
            prev
        }
    } else if d > 0 {
        let prev = lemma_min_in_prefix(s, now, d - 1, s.dags[d - 1].jobs.len() as int);
        prev
    } else {
        None
    }
}

/// A claim hands out a job exactly when some job is eligible once expired leases are reaped, and
/// the job it hands out is one whose key no eligible job undercuts: earliest availability first,
/// then highest priority, then graph and job identifier.
pub proof fn claim_takes_the_best_job(s: SchedulerView, owner: Seq<char>, now: i64, lease_ms: i64)
    ensures
        (claim_outcome(s, owner, now, lease_ms).1 is Some) <==> (exists|d: int, j: int|
            eligible(reaped(s, now), d, j, now)),
        claim_outcome(s, owner, now, lease_ms).1 is Some ==> ({
            let c = claim_outcome(s, owner, now, lease_ms).1->Some_0;
            let r = reaped(s, now);
            exists|d: int, j: int|
                #![trigger is_best(r, d, j, now)]
                is_best(r, d, j, now) && c.dag_id == r.dags[d].id && c.job_id
                    == r.dags[d].jobs[j].spec.id
        }),
{
    let r = reaped(s, now);
    if exists|d: int, j: int| eligible(r, d, j, now) {
        let m = lemma_min_in_prefix(r, now, r.dags.len() as int, 0);
        let (d0, j0) = choose|d: int, j: int| eligible(r, d, j, now);
        assert(visited(d0, j0, r.dags.len() as int, 0));
        let p = m->Some_0;
        assert forall|x: int, y: int|
            #![trigger eligible(r, x, y, now)]
            eligible(r, x, y, now) implies !key_lt(key_at(r, x, y), key_at(r, p.0, p.1)) by {
            assert(visited(x, y, r.dags.len() as int, 0));
        }
        assert(is_best(r, p.0, p.1, now));
    }
    match best_ready(r, now) {
        None => {},
        Some(q) => {
            assert(exists|d: int, j: int| is_best(r, d, j, now));
            assert(is_best(r, q.0, q.1, now));
            let t = drop_stale(r, Some(key_at(r, q.0, q.1)), now);
            assert(t.dags[q.0].id == r.dags[q.0].id);
            assert(t.dags[q.0].jobs[q.1].spec.id == r.dags[q.0].jobs[q.1].spec.id);
        },
    }
}

/// While a claimed lease is live, no further claim hands out the same job again.
pub proof fn claimed_job_is_exclusive(
    s: SchedulerView,
    owner: Seq<char>,
    now: i64,
    lease_ms: i64,
    owner2: Seq<char>,
    now2: i64,
    lease_ms2: i64,
)
    requires
        scheduler_wf(s),
        claim_outcome(s, owner, now, lease_ms).1 is Some,
        now2 < claim_outcome(s, owner, now, lease_ms).1->Some_0.lease_expires_at_ms,
    ensures
        ({
            let (t, c) = claim_outcome(s, owner, now, lease_ms);
            let c2 = claim_outcome(t, owner2, now2, lease_ms2).1;
            c2 is Some ==> !(c2->Some_0.dag_id == c->Some_0.dag_id && c2->Some_0.job_id
                == c->Some_0.job_id)
        }),
{
    let r = reaped(s, now);
    let q = best_ready(r, now)->Some_0;
    assert(exists|d: int, j: int| is_best(r, d, j, now));
    assert(is_best(r, q.0, q.1, now));
    let (d, j) = q;
    let (t, c) = claim_outcome(s, owner, now, lease_ms);
    let r2 = reaped(t, now2);
    assert(t.dags[d].jobs[j].state == JobState::Leased);
    assert(r2.dags[d].jobs[j] == t.dags[d].jobs[j]);
    assert(!eligible(r2, d, j, now2));
    let c2 = claim_outcome(t, owner2, now2, lease_ms2).1;
    if c2 is Some {
        let q2 = best_ready(r2, now2)->Some_0;
        assert(exists|a: int, b: int| is_best(r2, a, b, now2));
        assert(is_best(r2, q2.0, q2.1, now2));
        let (d2, j2) = q2;
        let t2 = drop_stale(r2, Some(key_at(r2, d2, j2)), now2);
        assert(c2->Some_0.dag_id == s.dags[d2].id);
        assert(c2->Some_0.job_id == s.dags[d2].jobs[j2].spec.id);
        assert(c->Some_0.dag_id == s.dags[d].id);
        assert(c->Some_0.job_id == s.dags[d].jobs[j].spec.id);
        if d2 != d {
            assert(s.dags[d2].id != s.dags[d].id);
        } else {
            assert(j2 != j);
            assert(dag_wf(s.dags[d]));
            assert(s.dags[d].jobs[j2].spec.id != s.dags[d].jobs[j].spec.id);
        }
    }
}


/// Every job of `s` that had finished (succeeded, dead-lettered or cancelled) is still in `t`,
/// in the same state and with the same result.
pub open spec fn keeps_finished_jobs(s: SchedulerView, t: SchedulerView) -> bool {
    &&& s.dags.len() <= t.dags.len()
    &&& forall|d: int, j: int|
        #![trigger s.dags[d].jobs[j]]
        0 <= d < s.dags.len() && 0 <= j < s.dags[d].jobs.len() && is_terminal(
            s.dags[d].jobs[j].state,
        ) ==> {
            &&& j < t.dags[d].jobs.len()
            &&& t.dags[d].jobs[j].state == s.dags[d].jobs[j].state
            &&& t.dags[d].jobs[j].result == s.dags[d].jobs[j].result
        }
}

/// Admitting a graph leaves every finished job as it was.
pub proof fn submit_keeps_finished_jobs(s: SchedulerView, spec: DagSpecView, now: i64)
    requires
        submit_outcome(s, spec, now) is Ok,
    ensures
        keeps_finished_jobs(s, submit_outcome(s, spec, now)->Ok_0),
{
    let t = submit_outcome(s, spec, now)->Ok_0;
    assert forall|d: int, j: int|
        #![trigger s.dags[d].jobs[j]]
        0 <= d < s.dags.len() && 0 <= j < s.dags[d].jobs.len() && is_terminal(
            s.dags[d].jobs[j].state,
        ) implies j < t.dags[d].jobs.len() && t.dags[d].jobs[j] == s.dags[d].jobs[j] by {
        assert(t.dags[d] == s.dags[d]);
    }
}

/// Reaping expired leases leaves every finished job as it was.
pub proof fn reap_keeps_finished_jobs(s: SchedulerView, now: i64)
    ensures
        keeps_finished_jobs(s, reaped(s, now)),
{
}

/// A claim leaves every finished job as it was.
pub proof fn claim_keeps_finished_jobs(s: SchedulerView, owner: Seq<char>, now: i64, lease_ms: i64)
    ensures
        keeps_finished_jobs(s, claim_outcome(s, owner, now, lease_ms).0),
{
    let r = reaped(s, now);
    match best_ready(r, now) {
        None => {},
        Some(q) => {
            assert(exists|d: int, j: int| is_best(r, d, j, now));
            assert(is_best(r, q.0, q.1, now));
        },
    }
}

/// A heartbeat leaves every finished job as it was.
pub proof fn heartbeat_keeps_finished_jobs(
    s: SchedulerView,
    dag_id: Seq<char>,
    job_id: Seq<char>,
    owner: Seq<char>,
    token: Seq<char>,
    now: i64,
    lease_ms: i64,
)
    requires
        heartbeat_outcome(s, dag_id, job_id, owner, token, now, lease_ms) is Ok,
    ensures
        keeps_finished_jobs(
            s,
            heartbeat_outcome(s, dag_id, job_id, owner, token, now, lease_ms)->Ok_0.0,
        ),
{
}

/// A failure report leaves every finished job as it was.
pub proof fn fail_keeps_finished_jobs(
    s: SchedulerView,
    dag_id: Seq<char>,
    job_id: Seq<char>,
    owner: Seq<char>,
    token: Seq<char>,
    now: i64,
)
    requires
        fail_outcome(s, dag_id, job_id, owner, token, now) is Ok,
    ensures
        keeps_finished_jobs(s, fail_outcome(s, dag_id, job_id, owner, token, now)->Ok_0.0),
{
}

/// A completion leaves every finished job as it was.
pub proof fn complete_keeps_finished_jobs(
    s: SchedulerView,
    dag_id: Seq<char>,
    job_id: Seq<char>,
    owner: Seq<char>,
    token: Seq<char>,
    result: Seq<char>,
    now: i64,
)
    requires
        complete_outcome(s, dag_id, job_id, owner, token, result, now) is Ok,
    ensures
        keeps_finished_jobs(
            s,
            complete_outcome(s, dag_id, job_id, owner, token, result, now)->Ok_0,
        ),
{
}

/// Cancelling a graph leaves every finished job as it was: success and dead-letter evidence
/// remains.
pub proof fn cancel_keeps_finished_jobs(s: SchedulerView, dag_id: Seq<char>)
    requires
        cancel_outcome(s, dag_id) is Ok,
    ensures
        keeps_finished_jobs(s, cancel_outcome(s, dag_id)->Ok_0.0),
{
}


proof fn lemma_queued_prefix(dags: Seq<DagRecordView>, extra: DagRecordView, i: nat)
    requires
        i <= dags.len(),
    ensures
        queued_in_dags(dags.push(extra), i) == queued_in_dags(dags, i),
    decreases i,
{
    if i > 0 {
        lemma_queued_prefix(dags, extra, (i - 1) as nat);
        assert(dags.push(extra)[i - 1] == dags[i - 1]);
    }
}

proof fn lemma_admitted_queue(spec: DagSpecView, now: i64, m: nat)
    requires
        m <= spec.jobs.len(),
    ensures
        queued_in_jobs(admitted_dag(spec, now).jobs, m) == sources_in(index_edges(spec), m),
    decreases m,
{
    if m > 0 {
        lemma_admitted_queue(spec, now, (m - 1) as nat);
    }
}

/// An admitted graph never takes the scheduler past its limits: at most `max_dags` graphs and at
/// most `max_ready_jobs` ready-queue entries.
pub proof fn admission_respects_limits(s: SchedulerView, spec: DagSpecView, now: i64)
    requires
        submit_outcome(s, spec, now) is Ok,
    ensures
        submit_outcome(s, spec, now)->Ok_0.dags.len() <= s.config.max_dags,
        ready_len(submit_outcome(s, spec, now)->Ok_0) <= s.config.max_ready_jobs,
        ready_len(submit_outcome(s, spec, now)->Ok_0) == ready_len(s) + sources_in(
            index_edges(spec),
            spec.jobs.len(),
        ),
{
    let t = submit_outcome(s, spec, now)->Ok_0;
    let a = admitted_dag(spec, now);
    assert(t.dags == s.dags.push(a));
    lemma_queued_prefix(s.dags, a, s.dags.len());
    lemma_admitted_queue(spec, now, spec.jobs.len());
    assert(t.dags[s.dags.len() as int] == a);
}

/// Every job of a well-formed state has used at most its attempt budget, which is 1 to 20.
pub proof fn attempts_stay_within_budget(s: SchedulerView, d: int, j: int)
    requires
        scheduler_wf(s),
        0 <= d < s.dags.len(),
        0 <= j < s.dags[d].jobs.len(),
    ensures
        s.dags[d].jobs[j].attempts <= s.dags[d].jobs[j].spec.max_attempts <= 20,
        1 <= s.dags[d].jobs[j].spec.max_attempts,
{
    assert(dag_wf(s.dags[d]));
    assert(job_wf(s.dags[d].jobs[j]));
}

/// The jitter of a job is below its ceiling, and zero when the ceiling is not positive.
pub proof fn jitter_is_bounded(job_id: Seq<char>, ceiling: i64)
    ensures
        ceiling > 0 ==> 0 <= jitter(job_id, ceiling) < ceiling,
        ceiling <= 0 ==> jitter(job_id, ceiling) == 0,
{
}

/// With the default limits, the backoff after attempt `a >= 1` is `min(60 s, 1 s * 2^(a-1))`,
/// the exponent capped at 16.
pub proof fn default_backoff_policy(a: u16)
    requires
        a >= 1,
    ensures
        retry_bound(default_config(), a) == if 1000 * two_pow(
            if a - 1 > 16 {
                16nat
            } else {
                (a - 1) as nat
            },
        ) <= 60000 {
            1000 * two_pow(
                if a - 1 > 16 {
                    16nat
                } else {
                    (a - 1) as nat
                },
            )
        } else {
            60000
        },
{
    let e: nat = if a - 1 > 16 {
        16nat
    } else {
        (a - 1) as nat
    };
    lemma_two_pow_bounds(e);
}

proof fn lemma_two_pow_bounds(e: nat)
    requires
        e <= 16,
    ensures
        1 <= two_pow(e) <= 65536,
{
    lemma_two_pow_mono(e, 16);
    reveal_with_fuel(two_pow, 17);
}

/// A failed or expired attempt dead-letters the job exactly when its budget is spent; otherwise
/// the job waits at least the backoff and less than a fifth of it longer, unless the clock
/// saturates.
pub proof fn retry_waits_for_backoff(config: SchedulerConfig, job: JobRecordView, now: i64)
    ensures
        (retried(config, job, now).state == JobState::DeadLettered) <==> job.attempts
            >= job.spec.max_attempts,
        job.attempts < job.spec.max_attempts ==> retried(config, job, now).state
            == JobState::RetryWait,
        ({
            let b = retry_bound(config, job.attempts);
            job.attempts < job.spec.max_attempts && b > 0 && now + b + b / 5 <= i64::MAX ==> {
                let at = retried(config, job, now).available_at_ms;
                &&& now + b <= at
                &&& at <= now + b + b / 5
                &&& b / 5 > 0 ==> at < now + b + b / 5
            }
        }),
{
    let b = retry_bound(config, job.attempts);
    if job.attempts < job.spec.max_attempts && b > 0 && now + b + b / 5 <= i64::MAX {
        let c: i64 = (b / 5) as i64;
        jitter_is_bounded(job.spec.id, c);
    }
}


/// After a graph is cancelled, every one of its jobs has finished.
pub proof fn cancel_finishes_every_job(s: SchedulerView, dag_id: Seq<char>, j: int)
    requires
        cancel_outcome(s, dag_id) is Ok,
        0 <= j < s.dags[dag_lookup(s.dags, dag_id).unwrap()].jobs.len(),
    ensures
        ({
            let d = dag_lookup(s.dags, dag_id).unwrap();
            let t = cancel_outcome(s, dag_id)->Ok_0.0;
            is_terminal(t.dags[d].jobs[j].state)
        }),
{
}

/// A claim that leases a job advances the lease sequence by one, saturating at its maximum, and
/// a claim that leases nothing leaves it unchanged.
pub proof fn claim_advances_sequence(s: SchedulerView, owner: Seq<char>, now: i64, lease_ms: i64)
    ensures
        claim_outcome(s, owner, now, lease_ms).1 is Some ==> claim_outcome(
            s,
            owner,
            now,
            lease_ms,
        ).0.sequence == succ_u64(s.sequence),
        claim_outcome(s, owner, now, lease_ms).1 is None ==> claim_outcome(
            s,
            owner,
            now,
            lease_ms,
        ).0.sequence == s.sequence,
{
}

proof fn lemma_digit_injective(a: nat, b: nat)
    requires
        a < 10,
        b < 10,
        crate::text::digit_char(a) == crate::text::digit_char(b),
    ensures
        a == b,
{
}

proof fn lemma_decimal_len(n: nat)
    ensures
        n < 10 ==> crate::text::decimal(n).len() == 1,
        n >= 10 ==> crate::text::decimal(n).len() >= 2,
    decreases n,
{
    if n >= 10 {
        lemma_decimal_len(n / 10);
    }
}

proof fn lemma_decimal_injective(n: nat, m: nat)
    requires
        crate::text::decimal(n) == crate::text::decimal(m),
    ensures
        n == m,
    decreases n,
{
    let dn = crate::text::decimal(n);
    let dm = crate::text::decimal(m);
    lemma_decimal_len(n);
    lemma_decimal_len(m);
    if n < 10 && m < 10 {
        assert(dn[0] == dm[0]);
        lemma_digit_injective(n, m);
    } else if n >= 10 && m >= 10 {
        assert(dn.last() == dm.last());
        lemma_digit_injective(n % 10, m % 10);
        assert(dn.drop_last() =~= crate::text::decimal(n / 10));
        assert(dm.drop_last() =~= crate::text::decimal(m / 10));
        lemma_decimal_injective(n / 10, m / 10);
    }
}

/// Leases of the same job granted under different sequence numbers carry different tokens.
pub proof fn lease_tokens_are_distinct(dag: DagRecordView, job: JobRecordView, s1: u64, s2: u64)
    requires
        s1 != s2,
    ensures
        lease_token(dag, job, s1) != lease_token(dag, job, s2),
{
    let prefix = "lease-"@ + dag.id + "-"@ + job.spec.id + "-"@;
    let t1 = lease_token(dag, job, s1);
    let t2 = lease_token(dag, job, s2);
    assert(t1 == prefix + crate::text::decimal(s1 as nat));
    assert(t2 == prefix + crate::text::decimal(s2 as nat));
    if t1 == t2 {
        assert(t1.skip(prefix.len() as int) =~= crate::text::decimal(s1 as nat));
        assert(t2.skip(prefix.len() as int) =~= crate::text::decimal(s2 as nat));
        lemma_decimal_injective(s1 as nat, s2 as nat);
    }
}


// ---------------------------------------------------------------- histories

/// The states of a history: one more than requests, starting at `s0`, each the result of serving
/// the next request in the one before.
pub proof fn history_steps(s0: SchedulerView, reqs: Seq<Request>)
    ensures
        history(s0, reqs).len() == reqs.len() + 1,
        history(s0, reqs)[0] == s0,
        forall|i: int|
            0 <= i < reqs.len() ==> #[trigger] history(s0, reqs)[i + 1] == apply(
                history(s0, reqs)[i],
                reqs[i],
            ),
    decreases reqs.len(),
{
    if reqs.len() > 0 {
        let pre = reqs.drop_last();
        history_steps(s0, pre);
        let h0 = history(s0, pre);
        let h = history(s0, reqs);
        assert(h == h0.push(apply(h0.last(), reqs.last())));
        assert forall|i: int| 0 <= i < reqs.len() implies #[trigger] h[i + 1] == apply(h[i], reqs[i]) by {
            if i < reqs.len() - 1 {
                assert(h[i + 1] == h0[i + 1]);
                assert(h[i] == h0[i]);
                assert(pre[i] == reqs[i]);
            } else {
                assert(h[i] == h0.last());
            }
        }
    }
}

/// Replacing jobs by well-formed records with the same specification, dependency count and
/// success status, keeping graphs, their order and their dependents, keeps the state well formed.
proof fn lemma_jobwise_wf(s: SchedulerView, t: SchedulerView)
    requires
        scheduler_wf(s),
        t.dags.len() == s.dags.len(),
        forall|d: int|
            0 <= d < s.dags.len() ==> {
                &&& (#[trigger] t.dags[d]).id == s.dags[d].id
                &&& t.dags[d].dependents == s.dags[d].dependents
                &&& t.dags[d].jobs.len() == s.dags[d].jobs.len()
            },
        forall|d: int, j: int|
            0 <= d < s.dags.len() && 0 <= j < s.dags[d].jobs.len() ==> {
                &&& job_wf(#[trigger] t.dags[d].jobs[j])
                &&& t.dags[d].jobs[j].spec == s.dags[d].jobs[j].spec
                &&& t.dags[d].jobs[j].remaining_dependencies == s.dags[d].jobs[j].remaining_dependencies
                &&& (t.dags[d].jobs[j].state == JobState::Succeeded) == (s.dags[d].jobs[j].state
                    == JobState::Succeeded)
            },
    ensures
        scheduler_wf(t),
{
    assert forall|a: int, b: int|
        0 <= a < t.dags.len() && 0 <= b < t.dags.len() && a != b implies (#[trigger] t.dags[a]).id
        != (#[trigger] t.dags[b]).id by {
        assert(t.dags[a].id == s.dags[a].id);
        assert(t.dags[b].id == s.dags[b].id);
    }
    assert forall|d: int| 0 <= d < t.dags.len() implies dag_wf(#[trigger] t.dags[d]) by {
        let sd = s.dags[d];
        let td = t.dags[d];
        assert(dag_wf(sd));
        assert(td.id == sd.id);
        assert forall|a: int, b: int|
            0 <= a < td.jobs.len() && 0 <= b < td.jobs.len() && a != b implies (#[trigger] td.jobs[a]).spec.id
            != (#[trigger] td.jobs[b]).spec.id by {
            assert(td.jobs[a].spec == sd.jobs[a].spec);
            assert(td.jobs[b].spec == sd.jobs[b].spec);
        }
        assert forall|j: int| 0 <= j < td.jobs.len() implies job_wf(#[trigger] td.jobs[j]) by {
            assert(job_wf(t.dags[d].jobs[j]));
        }
        assert forall|k: int| 0 <= k < td.jobs.len() implies (#[trigger] td.jobs[k]).remaining_dependencies
            == unmet_into(td.jobs, td.dependents, k as usize, td.jobs.len()) by {
            assert forall|q: int| 0 <= q < sd.jobs.len() implies ((#[trigger] sd.jobs[q]).state
                == JobState::Succeeded) == (td.jobs[q].state == JobState::Succeeded) by {
                assert((t.dags[d].jobs[q].state == JobState::Succeeded) == (s.dags[d].jobs[q].state
                    == JobState::Succeeded));
            }
            crate::scheduler::lemma_unmet_frame(sd.jobs, td.jobs, sd.dependents, k as usize, sd.jobs.len());
            assert(t.dags[d].jobs[k].remaining_dependencies == s.dags[d].jobs[k].remaining_dependencies);
        }
    }
}

/// Reaping keeps the state well formed.
proof fn lemma_reaped_wf(s: SchedulerView, now: i64)
    requires
        scheduler_wf(s),
    ensures
        scheduler_wf(reaped(s, now)),
{
    let t = reaped(s, now);
    assert forall|d: int, j: int| 0 <= d < s.dags.len() && 0 <= j < s.dags[d].jobs.len() implies {
        &&& job_wf(#[trigger] t.dags[d].jobs[j])
        &&& t.dags[d].jobs[j].spec == s.dags[d].jobs[j].spec
        &&& t.dags[d].jobs[j].remaining_dependencies == s.dags[d].jobs[j].remaining_dependencies
        &&& (t.dags[d].jobs[j].state == JobState::Succeeded) == (s.dags[d].jobs[j].state
            == JobState::Succeeded)
    } by {
        assert(dag_wf(s.dags[d]));
        assert(job_wf(s.dags[d].jobs[j]));
    }
    lemma_jobwise_wf(s, t);
}

/// Dropping stale queue entries keeps the state well formed.
proof fn lemma_dropped_wf(s: SchedulerView, bound: Option<crate::scheduler_model::ReadyKeyView>, now: i64)
    requires
        scheduler_wf(s),
    ensures
        scheduler_wf(drop_stale(s, bound, now)),
{
    let t = drop_stale(s, bound, now);
    assert forall|d: int, j: int| 0 <= d < s.dags.len() && 0 <= j < s.dags[d].jobs.len() implies {
        &&& job_wf(#[trigger] t.dags[d].jobs[j])
        &&& t.dags[d].jobs[j].spec == s.dags[d].jobs[j].spec
        &&& t.dags[d].jobs[j].remaining_dependencies == s.dags[d].jobs[j].remaining_dependencies
        &&& (t.dags[d].jobs[j].state == JobState::Succeeded) == (s.dags[d].jobs[j].state
            == JobState::Succeeded)
    } by {
        assert(dag_wf(s.dags[d]));
        assert(job_wf(s.dags[d].jobs[j]));
    }
    lemma_jobwise_wf(s, t);
}

/// A claim keeps the state well formed.
proof fn lemma_claim_wf(s: SchedulerView, owner: Seq<char>, now: i64, lease_ms: i64)
    requires
        scheduler_wf(s),
    ensures
        scheduler_wf(claim_outcome(s, owner, now, lease_ms).0),
{
    let r = reaped(s, now);
    lemma_reaped_wf(s, now);
    match best_ready(r, now) {
        None => {
            lemma_dropped_wf(r, None, now);
        },
        Some(q) => {
            assert(exists|d: int, j: int| is_best(r, d, j, now));
            assert(is_best(r, q.0, q.1, now));
            let t = drop_stale(r, Some(key_at(r, q.0, q.1)), now);
            lemma_dropped_wf(r, Some(key_at(r, q.0, q.1)), now);
            let job = t.dags[q.0].jobs[q.1];
            assert(job == r.dags[q.0].jobs[q.1]);
            assert(dag_wf(r.dags[q.0]));
            assert(job_wf(job));
            let seq = succ_u64(s.sequence);
            let token = lease_token(t.dags[q.0], job, seq);
            let expires = crate::scheduler_model::clamp_i64(now + lease_ms);
            crate::scheduler::lemma_with_job_wf(t, q.0, q.1, leased(job, owner, token, expires));
        },
    }
}

/// Serving any request keeps the state well formed.
pub proof fn requests_keep_wf(s: SchedulerView, r: Request)
    requires
        scheduler_wf(s),
    ensures
        scheduler_wf(apply(s, r)),
{
    reveal(apply);
    match r {
        Request::Submit { spec, now } => {
            if submit_outcome(s, spec, now) is Ok {
                let n = spec.jobs.len();
                assert(crate::graph::edges_within(n, index_edges(spec))) by {
                    assert forall|e: int| 0 <= e < index_edges(spec).len() implies (#[trigger] index_edges(spec)[e]).0
                        < n && index_edges(spec)[e].1 < n by {
                        crate::domain::lemma_accepted_edges(spec, e);
                        let dep = spec.dependencies[e];
                        let f = choose|j: int| 0 <= j < crate::domain::job_ids(spec).len() && crate::domain::job_ids(spec)[j] == dep.from;
                        let t = choose|j: int| 0 <= j < crate::domain::job_ids(spec).len() && crate::domain::job_ids(spec)[j] == dep.to;
                        assert(spec.jobs[f].id == dep.from);
                        assert(spec.jobs[t].id == dep.to);
                    }
                }
                crate::scheduler::lemma_admitted_wf(spec, now);
                let t = submit_outcome(s, spec, now)->Ok_0;
                let a = admitted_dag(spec, now);
                assert(t.dags == s.dags.push(a));
                assert forall|x: int, y: int|
                    0 <= x < t.dags.len() && 0 <= y < t.dags.len() && x != y implies (#[trigger] t.dags[x]).id
                    != (#[trigger] t.dags[y]).id by {
                    if x == s.dags.len() && y < s.dags.len() {
                        assert(t.dags[y] == s.dags[y]);
                        if s.dags[y].id == spec.id {
                            assert(exists|i: int| 0 <= i < s.dags.len() && (#[trigger] s.dags[i]).id == spec.id);
                        }
                    } else if y == s.dags.len() && x < s.dags.len() {
                        assert(t.dags[x] == s.dags[x]);
                        if s.dags[x].id == spec.id {
                            assert(exists|i: int| 0 <= i < s.dags.len() && (#[trigger] s.dags[i]).id == spec.id);
                        }
                    } else {
                        assert(t.dags[x] == s.dags[x] && t.dags[y] == s.dags[y]);
                    }
                }
                assert forall|x: int| 0 <= x < t.dags.len() implies dag_wf(#[trigger] t.dags[x]) by {
                    if x < s.dags.len() {
                        assert(t.dags[x] == s.dags[x]);
                    }
                }
            }
        },
        Request::Claim { owner, now, lease_ms } => {
            lemma_claim_wf(s, owner, now, lease_ms);
        },
        Request::Heartbeat { dag_id, job_id, owner, token, now, lease_ms } => {
            if heartbeat_outcome(s, dag_id, job_id, owner, token, now, lease_ms) is Ok {
                let p = lease_check(s, dag_id, job_id, owner, token, now)->Ok_0;
                let job = s.dags[p.0].jobs[p.1];
                assert(dag_wf(s.dags[p.0]));
                assert(job_wf(job));
                let expires = crate::scheduler_model::clamp_i64(now + lease_ms);
                crate::scheduler::lemma_with_job_wf(s, p.0, p.1, renewed(job, expires));
            }
        },
        Request::Complete { dag_id, job_id, owner, token, result, now } => {
            if complete_outcome(s, dag_id, job_id, owner, token, result, now) is Ok {
                let p = lease_check(s, dag_id, job_id, owner, token, now)->Ok_0;
                crate::scheduler::lemma_completed_wf(s, p.0, p.1, result, now);
            }
        },
        Request::Fail { dag_id, job_id, owner, token, now } => {
            if fail_outcome(s, dag_id, job_id, owner, token, now) is Ok {
                let p = lease_check(s, dag_id, job_id, owner, token, now)->Ok_0;
                let job = s.dags[p.0].jobs[p.1];
                assert(dag_wf(s.dags[p.0]));
                assert(job_wf(job));
                crate::scheduler::lemma_with_job_wf(s, p.0, p.1, retried(s.config, job, now));
            }
        },
        Request::Reap { now } => {
            lemma_reaped_wf(s, now);
        },
        Request::Cancel { dag_id } => {
            if cancel_outcome(s, dag_id) is Ok {
                let d = dag_lookup(s.dags, dag_id).unwrap();
                let t = cancel_outcome(s, dag_id)->Ok_0.0;
                assert forall|x: int, j: int| 0 <= x < s.dags.len() && 0 <= j < s.dags[x].jobs.len() implies {
                    &&& job_wf(#[trigger] t.dags[x].jobs[j])
                    &&& t.dags[x].jobs[j].spec == s.dags[x].jobs[j].spec
                    &&& t.dags[x].jobs[j].remaining_dependencies == s.dags[x].jobs[j].remaining_dependencies
                    &&& (t.dags[x].jobs[j].state == JobState::Succeeded) == (s.dags[x].jobs[j].state
                        == JobState::Succeeded)
                } by {
                    assert(dag_wf(s.dags[x]));
                    assert(job_wf(s.dags[x].jobs[j]));
                }
                lemma_jobwise_wf(s, t);
            }
        },
    }
}

/// Every state of a history that starts well formed is well formed.
pub proof fn history_stays_wf(s0: SchedulerView, reqs: Seq<Request>, i: int)
    requires
        scheduler_wf(s0),
        0 <= i <= reqs.len(),
    ensures
        scheduler_wf(history(s0, reqs)[i]),
    decreases i,
{
    history_steps(s0, reqs);
    if i > 0 {
        history_stays_wf(s0, reqs, i - 1);
        requests_keep_wf(history(s0, reqs)[i - 1], reqs[i - 1]);
        assert(history(s0, reqs)[(i - 1) + 1] == apply(history(s0, reqs)[i - 1], reqs[i - 1]));
    }
}


/// State `a` of a job may turn into state `b` by the scheduler's transitions: pending to ready,
/// ready or retrying to leased, leased to succeeded, retrying or dead-lettered, and any
/// unfinished state to cancelled, in any number of steps.
pub open spec fn may_become(a: JobState, b: JobState) -> bool {
    a == b || match a {
        JobState::Pending => true,
        JobState::Ready => b != JobState::Pending,
        JobState::RetryWait => b != JobState::Pending && b != JobState::Ready,
        JobState::Leased => b != JobState::Pending && b != JobState::Ready,
        _ => false,
    }
}

/// From `s` to `t`, graphs keep their place, identifier, dependents and jobs; each job keeps
/// its specification, moves only along `may_become`, never loses attempts, and a finished job
/// keeps its state, attempts and result.
pub open spec fn moves_forward(s: SchedulerView, t: SchedulerView) -> bool {
    &&& t.config == s.config
    &&& s.dags.len() <= t.dags.len()
    &&& s.sequence <= t.sequence
    &&& forall|d: int|
        0 <= d < s.dags.len() ==> {
            &&& (#[trigger] t.dags[d]).id == s.dags[d].id
            &&& t.dags[d].dependents == s.dags[d].dependents
            &&& t.dags[d].jobs.len() == s.dags[d].jobs.len()
        }
    &&& forall|d: int, j: int|
        #![trigger s.dags[d].jobs[j]]
        0 <= d < s.dags.len() && 0 <= j < s.dags[d].jobs.len() ==> {
            let a = s.dags[d].jobs[j];
            let b = t.dags[d].jobs[j];
            &&& b.spec == a.spec
            &&& may_become(a.state, b.state)
            &&& a.attempts <= b.attempts
            &&& is_terminal(a.state) ==> b.state == a.state && b.attempts == a.attempts && b.result
                == a.result
        }
}

/// From `s` to `t`, each job's lease is gone, keeps its token, or is the one just granted under
/// the sequence number of `t` to the job at `granted`.
pub open spec fn leases_follow(s: SchedulerView, t: SchedulerView, granted: Option<(int, int)>) -> bool {
    forall|d: int, j: int|
        #![trigger s.dags[d].jobs[j]]
        0 <= d < s.dags.len() && 0 <= j < s.dags[d].jobs.len() ==> {
            let a = s.dags[d].jobs[j];
            let b = t.dags[d].jobs[j];
            ||| b.lease is None
            ||| a.lease is Some && b.lease is Some && b.lease.unwrap().token == a.lease.unwrap().token
            ||| granted == Some((d, j)) && b.lease is Some && b.lease.unwrap().token == lease_token(
                s.dags[d],
                a,
                t.sequence,
            )
        }
}

/// The job a claim leases, if any.
pub open spec fn claim_pick(s: SchedulerView, now: i64) -> Option<(int, int)> {
    best_ready(reaped(s, now), now)
}

/// What a claim does to the job at `(x, y)`.
proof fn lemma_claim_job(s: SchedulerView, owner: Seq<char>, now: i64, lease_ms: i64, x: int, y: int)
    requires
        scheduler_wf(s),
        0 <= x < s.dags.len(),
        0 <= y < s.dags[x].jobs.len(),
    ensures
        ({
            let t = claim_outcome(s, owner, now, lease_ms).0;
            let a = s.dags[x].jobs[y];
            let b = t.dags[x].jobs[y];
            &&& t.dags.len() == s.dags.len()
            &&& t.dags[x].id == s.dags[x].id
            &&& t.dags[x].dependents == s.dags[x].dependents
            &&& t.dags[x].jobs.len() == s.dags[x].jobs.len()
            &&& b.spec == a.spec
            &&& may_become(a.state, b.state)
            &&& a.attempts <= b.attempts
            &&& is_terminal(a.state) ==> b.state == a.state && b.attempts == a.attempts && b.result
                == a.result
            &&& {
                ||| b.lease is None
                ||| a.lease is Some && b.lease is Some && b.lease.unwrap().token == a.lease.unwrap().token
                ||| claim_pick(s, now) == Some((x, y)) && b.lease is Some && b.lease.unwrap().token
                    == lease_token(s.dags[x], a, t.sequence)
            }
        }),
{
    let r = reaped(s, now);
    let a = s.dags[x].jobs[y];
    let ra = r.dags[x].jobs[y];
    assert(ra == reap_job(s.config, a, now));
    assert(dag_wf(s.dags[x]));
    assert(job_wf(a));
    match best_ready(r, now) {
        None => {
            let t = drop_stale(r, None, now);
            assert(t.dags[x].jobs[y] == stale_dropped(r.dags[x], ra, None, now));
        },
        Some(q) => {
            assert(exists|d: int, j: int| is_best(r, d, j, now));
            assert(is_best(r, q.0, q.1, now));
            let k = key_at(r, q.0, q.1);
            let td = drop_stale(r, Some(k), now);
            assert(td.dags[x].jobs[y] == stale_dropped(r.dags[x], ra, Some(k), now));
            assert(td.dags[q.0].jobs[q.1] == r.dags[q.0].jobs[q.1]);
        },
    }
}

/// Serving a claim moves the state forward; the lease it grants, if any, goes to the job it
/// hands out, under the next sequence number.
proof fn lemma_claim_step(s: SchedulerView, owner: Seq<char>, now: i64, lease_ms: i64)
    requires
        scheduler_wf(s),
    ensures
        ({
            let (t, c) = claim_outcome(s, owner, now, lease_ms);
            &&& moves_forward(s, t)
            &&& leases_follow(s, t, claim_pick(s, now))
            &&& c is None ==> t.sequence == s.sequence && claim_pick(s, now) is None
            &&& c is Some ==> {
                let p = claim_pick(s, now)->Some_0;
                &&& claim_pick(s, now) is Some
                &&& 0 <= p.0 < s.dags.len()
                &&& 0 <= p.1 < s.dags[p.0].jobs.len()
                &&& is_best(reaped(s, now), p.0, p.1, now)
                &&& t.sequence == succ_u64(s.sequence)
                &&& c->Some_0.dag_id == s.dags[p.0].id
                &&& c->Some_0.job_id == s.dags[p.0].jobs[p.1].spec.id
                &&& c->Some_0.lease_token == lease_token(s.dags[p.0], s.dags[p.0].jobs[p.1], t.sequence)
            }
        }),
{
    let (t, c) = claim_outcome(s, owner, now, lease_ms);
    let r = reaped(s, now);
    assert forall|x: int, y: int|
        #![trigger s.dags[x].jobs[y]]
        0 <= x < s.dags.len() && 0 <= y < s.dags[x].jobs.len() implies {
        let a = s.dags[x].jobs[y];
        let b = t.dags[x].jobs[y];
        &&& b.spec == a.spec
        &&& may_become(a.state, b.state)
        &&& a.attempts <= b.attempts
        &&& is_terminal(a.state) ==> b.state == a.state && b.attempts == a.attempts && b.result
            == a.result
        &&& {
            ||| b.lease is None
            ||| a.lease is Some && b.lease is Some && b.lease.unwrap().token == a.lease.unwrap().token
            ||| claim_pick(s, now) == Some((x, y)) && b.lease is Some && b.lease.unwrap().token
                == lease_token(s.dags[x], a, t.sequence)
        }
    } by {
        lemma_claim_job(s, owner, now, lease_ms, x, y);
    }
    assert forall|x: int| 0 <= x < s.dags.len() implies {
        &&& (#[trigger] t.dags[x]).id == s.dags[x].id
        &&& t.dags[x].dependents == s.dags[x].dependents
        &&& t.dags[x].jobs.len() == s.dags[x].jobs.len()
    } by {
        if s.dags[x].jobs.len() > 0 {
            lemma_claim_job(s, owner, now, lease_ms, x, 0);
        } else {
            assert(r.dags[x].jobs.len() == 0);
        }
    }
    match best_ready(r, now) {
        None => {},
        Some(q) => {
            assert(exists|d: int, j: int| is_best(r, d, j, now));
            assert(is_best(r, q.0, q.1, now));
        },
    }
}


/// The job whose lease serving `r` in `s` grants, if any.
pub open spec fn granted_by(s: SchedulerView, r: Request) -> Option<(int, int)> {
    match r {
        Request::Claim { owner, now, lease_ms } => if lease_request_valid(s.config, owner, lease_ms) {
            claim_pick(s, now)
        } else {
            None
        },
        _ => None,
    }
}

/// What serving a request other than a claim does to the job at `(x, y)`.
proof fn lemma_other_job(s: SchedulerView, r: Request, x: int, y: int)
    requires
        scheduler_wf(s),
        !(r is Claim),
        0 <= x < s.dags.len(),
        0 <= y < s.dags[x].jobs.len(),
    ensures
        ({
            let t = apply(s, r);
            let a = s.dags[x].jobs[y];
            let b = t.dags[x].jobs[y];
            &&& s.dags.len() <= t.dags.len()
            &&& t.dags[x].id == s.dags[x].id
            &&& t.dags[x].dependents == s.dags[x].dependents
            &&& t.dags[x].jobs.len() == s.dags[x].jobs.len()
            &&& b.spec == a.spec
            &&& may_become(a.state, b.state)
            &&& a.attempts <= b.attempts
            &&& is_terminal(a.state) ==> b.state == a.state && b.attempts == a.attempts && b.result
                == a.result
            &&& (b.lease is None || (a.lease is Some && b.lease is Some && b.lease.unwrap().token
                == a.lease.unwrap().token))
        }),
{
    reveal(apply);
    let a = s.dags[x].jobs[y];
    assert(dag_wf(s.dags[x]));
    assert(job_wf(a));
    match r {
        Request::Submit { spec, now } => {
            if submit_outcome(s, spec, now) is Ok {
                assert(apply(s, r).dags[x] == s.dags[x]);
            }
        },
        Request::Heartbeat { dag_id, job_id, owner, token, now, lease_ms } => {},
        Request::Complete { dag_id, job_id, owner, token, result, now } => {
            if complete_outcome(s, dag_id, job_id, owner, token, result, now) is Ok {
                let p = lease_check(s, dag_id, job_id, owner, token, now)->Ok_0;
                if p.0 == x {
                    let dag = s.dags[x];
                    let nd = completed_dag(dag, p.1, result, now);
                    let finished = JobRecordView {
                        state: JobState::Succeeded,
                        lease: None,
                        result: Some(result),
                        ..dag.jobs[p.1]
                    };
                    let jobs1 = dag.jobs.update(p.1, finished);
                    assert(nd.jobs[y] == crate::scheduler_model::released(
                        jobs1[y],
                        occurrences(dag.dependents[p.1], y as usize),
                        now,
                    ));
                }
            }
        },
        Request::Fail { dag_id, job_id, owner, token, now } => {},
        Request::Reap { now } => {},
        Request::Cancel { dag_id } => {},
        Request::Claim { .. } => {},
    }
}

/// Serving a request other than a claim keeps the limits, the sequence, and every graph's
/// identifier, dependents and number of jobs.
proof fn lemma_other_frame(s: SchedulerView, r: Request)
    requires
        scheduler_wf(s),
        !(r is Claim),
    ensures
        apply(s, r).config == s.config,
        apply(s, r).sequence == s.sequence,
        s.dags.len() <= apply(s, r).dags.len(),
        forall|x: int|
            0 <= x < s.dags.len() ==> {
                &&& (#[trigger] apply(s, r).dags[x]).id == s.dags[x].id
                &&& apply(s, r).dags[x].dependents == s.dags[x].dependents
                &&& apply(s, r).dags[x].jobs.len() == s.dags[x].jobs.len()
            },
{
    reveal(apply);
    let t = apply(s, r);
    match r {
        Request::Submit { spec, now } => {
            if submit_outcome(s, spec, now) is Ok {
                assert forall|x: int| 0 <= x < s.dags.len() implies #[trigger] t.dags[x] == s.dags[x] by {}
            }
        },
        _ => {},
    }
}

/// Serving a request other than a claim moves the state forward and grants no lease.
proof fn lemma_other_step(s: SchedulerView, r: Request)
    requires
        scheduler_wf(s),
        !(r is Claim),
    ensures
        moves_forward(s, apply(s, r)),
        leases_follow(s, apply(s, r), None),
        apply(s, r).sequence == s.sequence,
{
    let t = apply(s, r);
    assert forall|x: int, y: int|
        #![trigger s.dags[x].jobs[y]]
        0 <= x < s.dags.len() && 0 <= y < s.dags[x].jobs.len() implies {
        let a = s.dags[x].jobs[y];
        let b = t.dags[x].jobs[y];
        &&& b.spec == a.spec
        &&& may_become(a.state, b.state)
        &&& a.attempts <= b.attempts
        &&& is_terminal(a.state) ==> b.state == a.state && b.attempts == a.attempts
            && b.result == a.result
        &&& (b.lease is None || (a.lease is Some && b.lease is Some && b.lease.unwrap().token
            == a.lease.unwrap().token))
    } by {
        lemma_other_job(s, r, x, y);
    }
    lemma_other_frame(s, r);
}

/// Serving any request moves the state forward; only a claim grants a lease, to the job it hands
/// out and under the next sequence number, and only a claim that hands out a job advances the
/// sequence.
pub proof fn requests_move_forward(s: SchedulerView, r: Request)
    requires
        scheduler_wf(s),
    ensures
        moves_forward(s, apply(s, r)),
        leases_follow(s, apply(s, r), granted_by(s, r)),
        handed_out(s, r) is None ==> apply(s, r).sequence == s.sequence && granted_by(s, r) is None,
        handed_out(s, r) is Some ==> {
            let p = granted_by(s, r)->Some_0;
            let c = handed_out(s, r)->Some_0;
            &&& granted_by(s, r) is Some
            &&& 0 <= p.0 < s.dags.len()
            &&& 0 <= p.1 < s.dags[p.0].jobs.len()
            &&& apply(s, r).sequence == succ_u64(s.sequence)
            &&& c.dag_id == s.dags[p.0].id
            &&& c.job_id == s.dags[p.0].jobs[p.1].spec.id
            &&& c.lease_token == lease_token(s.dags[p.0], s.dags[p.0].jobs[p.1], apply(s, r).sequence)
            &&& is_best(reaped(s, r->Claim_now), p.0, p.1, r->Claim_now)
        },
{
    match r {
        Request::Claim { owner, now, lease_ms } => {
            reveal(apply);
            if lease_request_valid(s.config, owner, lease_ms) {
                lemma_claim_step(s, owner, now, lease_ms);
            }
        },
        _ => {
            lemma_other_step(s, r);
        },
    }
}


proof fn lemma_moves_forward_trans(a: SchedulerView, b: SchedulerView, c: SchedulerView)
    requires
        moves_forward(a, b),
        moves_forward(b, c),
    ensures
        moves_forward(a, c),
{
    assert forall|d: int, j: int|
        #![trigger a.dags[d].jobs[j]]
        0 <= d < a.dags.len() && 0 <= j < a.dags[d].jobs.len() implies {
        let x = a.dags[d].jobs[j];
        let z = c.dags[d].jobs[j];
        &&& z.spec == x.spec
        &&& may_become(x.state, z.state)
        &&& x.attempts <= z.attempts
        &&& is_terminal(x.state) ==> z.state == x.state && z.attempts == x.attempts && z.result
            == x.result
    } by {
        assert(b.dags[d].jobs[j] == b.dags[d].jobs[j]);
        assert(b.dags[d].jobs.len() == a.dags[d].jobs.len());
    }
    assert forall|d: int| 0 <= d < a.dags.len() implies {
        &&& (#[trigger] c.dags[d]).id == a.dags[d].id
        &&& c.dags[d].dependents == a.dags[d].dependents
        &&& c.dags[d].jobs.len() == a.dags[d].jobs.len()
    } by {
        assert(b.dags[d].id == a.dags[d].id);
    }
}

/// Along any history from a well-formed state, every later state is reached by moving forward:
/// graphs keep their identifiers and dependents, finished jobs keep their state, attempts and
/// result, attempts never decrease, and each job's state changes only along `may_become`.
pub proof fn history_moves_forward(s0: SchedulerView, reqs: Seq<Request>, i: int, k: int)
    requires
        scheduler_wf(s0),
        0 <= i <= k <= reqs.len(),
    ensures
        moves_forward(history(s0, reqs)[i], history(s0, reqs)[k]),
    decreases k - i,
{
    history_steps(s0, reqs);
    let h = history(s0, reqs);
    if k == i {
        assert forall|d: int, j: int|
            #![trigger h[i].dags[d].jobs[j]]
            0 <= d < h[i].dags.len() && 0 <= j < h[i].dags[d].jobs.len() implies may_become(
            h[i].dags[d].jobs[j].state,
            h[i].dags[d].jobs[j].state,
        ) by {}
    } else {
        history_moves_forward(s0, reqs, i, k - 1);
        history_stays_wf(s0, reqs, k - 1);
        requests_move_forward(h[k - 1], reqs[k - 1]);
        assert(h[(k - 1) + 1] == apply(h[k - 1], reqs[k - 1]));
        lemma_moves_forward_trans(h[i], h[k - 1], h[k]);
    }
}

proof fn lemma_decimal_digits(n: nat)
    ensures
        crate::text::decimal(n).len() >= 1,
        forall|i: int|
            0 <= i < crate::text::decimal(n).len() ==> #[trigger] crate::text::decimal(n)[i] != '-',
    decreases n,
{
    if n >= 10 {
        lemma_decimal_digits(n / 10);
        let d = crate::text::decimal(n);
        assert forall|i: int| 0 <= i < d.len() implies #[trigger] d[i] != '-' by {
            if i < d.len() - 1 {
                assert(d[i] == crate::text::decimal(n / 10)[i]);
            }
        }
    }
}

/// Tokens granted under different sequence numbers differ, whatever graphs and jobs they are
/// for: a token ends with its sequence number in decimal, after the last `-`.
pub proof fn lease_tokens_never_coincide(
    dag1: DagRecordView,
    job1: JobRecordView,
    q1: u64,
    dag2: DagRecordView,
    job2: JobRecordView,
    q2: u64,
)
    requires
        q1 != q2,
    ensures
        lease_token(dag1, job1, q1) != lease_token(dag2, job2, q2),
{
    reveal_strlit("-");
    let p1 = "lease-"@ + dag1.id + "-"@ + job1.spec.id + "-"@;
    let p2 = "lease-"@ + dag2.id + "-"@ + job2.spec.id + "-"@;
    let d1 = crate::text::decimal(q1 as nat);
    let d2 = crate::text::decimal(q2 as nat);
    let t1 = lease_token(dag1, job1, q1);
    let t2 = lease_token(dag2, job2, q2);
    assert(t1 == p1 + d1);
    assert(t2 == p2 + d2);
    lemma_decimal_digits(q1 as nat);
    lemma_decimal_digits(q2 as nat);
    assert(p1[p1.len() - 1] == '-');
    assert(p2[p2.len() - 1] == '-');
    if t1 == t2 {
        if d1.len() < d2.len() {
            let idx = t1.len() - d1.len() - 1;
            assert(t1[idx] == p1[p1.len() - 1]);
            assert(t2[idx] == d2[idx - p2.len()]);
        } else if d2.len() < d1.len() {
            let idx = t2.len() - d2.len() - 1;
            assert(t2[idx] == p2[p2.len() - 1]);
            assert(t1[idx] == d1[idx - p1.len()]);
        } else {
            assert(t1.skip(p1.len() as int) =~= d1);
            assert(t2.skip(p2.len() as int) =~= d2);
            lemma_decimal_injective(q1 as nat, q2 as nat);
        }
    }
}

/// The sequence number never decreases along a history.
proof fn lemma_sequence_grows(s0: SchedulerView, reqs: Seq<Request>, i: int, k: int)
    requires
        scheduler_wf(s0),
        0 <= i <= k <= reqs.len(),
    ensures
        history(s0, reqs)[i].sequence <= history(s0, reqs)[k].sequence,
{
    history_moves_forward(s0, reqs, i, k);
}

/// Two claims of one history that both hand out a job hand out different lease tokens, as long
/// as the sequence number has not reached its maximum.
pub proof fn lease_tokens_are_unique(s0: SchedulerView, reqs: Seq<Request>, i: int, k: int)
    requires
        scheduler_wf(s0),
        0 <= i < k < reqs.len(),
        handed_out(history(s0, reqs)[i], reqs[i]) is Some,
        handed_out(history(s0, reqs)[k], reqs[k]) is Some,
        history(s0, reqs)[k].sequence < u64::MAX,
    ensures
        handed_out(history(s0, reqs)[i], reqs[i])->Some_0.lease_token != handed_out(
            history(s0, reqs)[k],
            reqs[k],
        )->Some_0.lease_token,
{
    history_steps(s0, reqs);
    let h = history(s0, reqs);
    history_stays_wf(s0, reqs, i);
    history_stays_wf(s0, reqs, k);
    requests_move_forward(h[i], reqs[i]);
    requests_move_forward(h[k], reqs[k]);
    assert(h[i + 1] == apply(h[i], reqs[i]));
    assert(h[k + 1] == apply(h[k], reqs[k]));
    lemma_sequence_grows(s0, reqs, i + 1, k);
    let p1 = granted_by(h[i], reqs[i])->Some_0;
    let p2 = granted_by(h[k], reqs[k])->Some_0;
    lease_tokens_never_coincide(
        h[i].dags[p1.0],
        h[i].dags[p1.0].jobs[p1.1],
        h[i + 1].sequence,
        h[k].dags[p2.0],
        h[k].dags[p2.0].jobs[p2.1],
        h[k + 1].sequence,
    );
}


/// Once the job a claim leased holds no lease, any lease it holds later was granted under a
/// larger sequence number.
proof fn lemma_lease_after_end(s0: SchedulerView, reqs: Seq<Request>, i: int, e: int, m: int)
    requires
        scheduler_wf(s0),
        0 <= i < e <= m <= reqs.len(),
        handed_out(history(s0, reqs)[i], reqs[i]) is Some,
        ({
            let p = granted_by(history(s0, reqs)[i], reqs[i])->Some_0;
            history(s0, reqs)[e].dags[p.0].jobs[p.1].lease is None
        }),
        history(s0, reqs)[m].sequence < u64::MAX,
    ensures
        ({
            let h = history(s0, reqs);
            let p = granted_by(h[i], reqs[i])->Some_0;
            let lease = h[m].dags[p.0].jobs[p.1].lease;
            lease is None || exists|q: u64|
                q > h[i + 1].sequence && lease.unwrap().token == lease_token(
                    h[i].dags[p.0],
                    h[i].dags[p.0].jobs[p.1],
                    q,
                )
        }),
    decreases m - e,
{
    history_steps(s0, reqs);
    let h = history(s0, reqs);
    history_stays_wf(s0, reqs, i);
    requests_move_forward(h[i], reqs[i]);
    assert(h[i + 1] == apply(h[i], reqs[i]));
    let p = granted_by(h[i], reqs[i])->Some_0;
    if m > e {
        lemma_sequence_grows(s0, reqs, m - 1, m);
        lemma_lease_after_end(s0, reqs, i, e, m - 1);
        history_stays_wf(s0, reqs, m - 1);
        requests_move_forward(h[m - 1], reqs[m - 1]);
        assert(h[(m - 1) + 1] == apply(h[m - 1], reqs[m - 1]));
        history_moves_forward(s0, reqs, i, m - 1);
        lemma_sequence_grows(s0, reqs, i + 1, m - 1);
        let a = h[m - 1].dags[p.0].jobs[p.1];
        assert(a == h[m - 1].dags[p.0].jobs[p.1]);
        let b = h[m].dags[p.0].jobs[p.1];
        if b.lease is Some {
            if a.lease is Some && b.lease.unwrap().token == a.lease.unwrap().token {
            } else {
                let q = h[m].sequence;
                assert(b.lease.unwrap().token == lease_token(h[m - 1].dags[p.0], a, q));
                assert(lease_token(h[m - 1].dags[p.0], a, q) == lease_token(
                    h[i].dags[p.0],
                    h[i].dags[p.0].jobs[p.1],
                    q,
                ));
            }
        }
    }
}

/// A lease that has ended (its job held no lease at some point after the claim that granted it)
/// is refused by every later completion, failure report and heartbeat under its token, as long
/// as the sequence number has not reached its maximum.
pub proof fn ended_lease_is_refused(
    s0: SchedulerView,
    reqs: Seq<Request>,
    i: int,
    e: int,
    k: int,
    owner: Seq<char>,
    result: Seq<char>,
    now: i64,
    lease_ms: i64,
)
    requires
        scheduler_wf(s0),
        0 <= i < e <= k <= reqs.len(),
        handed_out(history(s0, reqs)[i], reqs[i]) is Some,
        ({
            let p = granted_by(history(s0, reqs)[i], reqs[i])->Some_0;
            history(s0, reqs)[e].dags[p.0].jobs[p.1].lease is None
        }),
        history(s0, reqs)[k].sequence < u64::MAX,
    ensures
        ({
            let h = history(s0, reqs);
            let c = handed_out(h[i], reqs[i])->Some_0;
            &&& complete_outcome(h[k], c.dag_id, c.job_id, owner, c.lease_token, result, now) is Err
            &&& fail_outcome(h[k], c.dag_id, c.job_id, owner, c.lease_token, now) is Err
            &&& heartbeat_outcome(h[k], c.dag_id, c.job_id, owner, c.lease_token, now, lease_ms)
                is Err
        }),
{
    history_steps(s0, reqs);
    let h = history(s0, reqs);
    history_stays_wf(s0, reqs, i);
    history_stays_wf(s0, reqs, k);
    requests_move_forward(h[i], reqs[i]);
    assert(h[i + 1] == apply(h[i], reqs[i]));
    let c = handed_out(h[i], reqs[i])->Some_0;
    let p = granted_by(h[i], reqs[i])->Some_0;
    lemma_lease_after_end(s0, reqs, i, e, k);
    history_moves_forward(s0, reqs, i, k);
    let t = h[k];
    assert(t.dags[p.0].id == h[i].dags[p.0].id);
    assert(t.dags[p.0].jobs[p.1].spec == h[i].dags[p.0].jobs[p.1].spec);
    assert(dag_wf(t.dags[p.0]));
    lemma_dag_lookup_at(t.dags, p.0);
    lemma_job_lookup_at(t.dags[p.0].jobs, p.1);
    let lease = t.dags[p.0].jobs[p.1].lease;
    if lease is Some {
        let q = choose|q: u64|
            q > h[i + 1].sequence && lease.unwrap().token == lease_token(
                h[i].dags[p.0],
                h[i].dags[p.0].jobs[p.1],
                q,
            );
        lease_tokens_are_distinct(h[i].dags[p.0], h[i].dags[p.0].jobs[p.1], q, h[i + 1].sequence);
    }
}

/// While a job is dead-lettered, every job that depends on it stays pending or cancelled and is
/// never handed out by a claim, under any later requests.
pub proof fn dead_letter_blocks_dependents(
    s0: SchedulerView,
    reqs: Seq<Request>,
    i: int,
    k: int,
    d: int,
    j: int,
    x: usize,
)
    requires
        scheduler_wf(s0),
        0 <= i <= k <= reqs.len(),
        0 <= d < history(s0, reqs)[i].dags.len(),
        0 <= j < history(s0, reqs)[i].dags[d].jobs.len(),
        history(s0, reqs)[i].dags[d].jobs[j].state == JobState::DeadLettered,
        history(s0, reqs)[i].dags[d].dependents[j].contains(x),
    ensures
        ({
            let s = history(s0, reqs)[k];
            let st = s.dags[d].jobs[x as int].state;
            st == JobState::Pending || st == JobState::Cancelled
        }),
        k < reqs.len() && handed_out(history(s0, reqs)[k], reqs[k]) is Some ==> ({
            let s = history(s0, reqs)[k];
            let c = handed_out(s, reqs[k])->Some_0;
            !(c.dag_id == s.dags[d].id && c.job_id == s.dags[d].jobs[x as int].spec.id)
        }),
{
    history_steps(s0, reqs);
    let h = history(s0, reqs);
    history_moves_forward(s0, reqs, i, k);
    history_stays_wf(s0, reqs, i);
    history_stays_wf(s0, reqs, k);
    let s = h[k];
    assert(s.dags[d].jobs[j].state == JobState::DeadLettered);
    assert(s.dags[d].dependents == h[i].dags[d].dependents);
    assert(dag_wf(s.dags[d]));
    let t0 = choose|t: int| 0 <= t < s.dags[d].dependents[j].len() && s.dags[d].dependents[j][t] == x;
    assert(x < s.dags[d].jobs.len());
    let st = s.dags[d].jobs[x as int].state;
    if st != JobState::Pending && st != JobState::Cancelled {
        released_jobs_follow_successes(s, d, j, x);
    }
    if k < reqs.len() && handed_out(s, reqs[k]) is Some {
        requests_move_forward(s, reqs[k]);
        let p = granted_by(s, reqs[k])->Some_0;
        let now = reqs[k]->Claim_now;
        let r = reaped(s, now);
        assert(eligible(r, p.0, p.1, now));
        assert(r.dags[d].jobs[x as int] == reap_job(s.config, s.dags[d].jobs[x as int], now));
        let c = handed_out(s, reqs[k])->Some_0;
        if c.dag_id == s.dags[d].id && c.job_id == s.dags[d].jobs[x as int].spec.id {
            if p.0 != d {
                assert(s.dags[p.0].id != s.dags[d].id);
            } else if p.1 != x {
                assert(s.dags[d].jobs[p.1].spec.id != s.dags[d].jobs[x as int].spec.id);
            }
        }
    }
}


proof fn lemma_target_listed(edges: Seq<(usize, usize)>, e: int)
    requires
        0 <= e < edges.len(),
    ensures
        crate::graph::targets_of(edges, edges[e].0).contains(edges[e].1),
    decreases edges.len(),
{
    let t = crate::graph::targets_of(edges, edges[e].0);
    if e == edges.len() - 1 {
        assert(t.last() == edges[e].1);
        assert(t[t.len() - 1] == edges[e].1);
    } else {
        let pre = edges.drop_last();
        assert(pre[e] == edges[e]);
        lemma_target_listed(pre, e);
        let tp = crate::graph::targets_of(pre, edges[e].0);
        let w = choose|w: int| 0 <= w < tp.len() && tp[w] == edges[e].1;
        if edges.last().0 == edges[e].0 {
            assert(t == tp.push(edges.last().1));
            assert(t[w] == edges[e].1);
        } else {
            assert(t == tp);
        }
    }
}

/// A job handed out by a claim runs only after every job it depends on, as the graph was
/// submitted, has succeeded: for each dependency of the submitted graph that leads into the
/// handed-out job, the job it comes from has succeeded in the state the claim leaves.
pub proof fn claimed_jobs_follow_their_dependencies(
    s0: SchedulerView,
    reqs: Seq<Request>,
    m: int,
    i: int,
    k: int,
)
    requires
        scheduler_wf(s0),
        0 <= m < i < reqs.len(),
        reqs[m] is Submit,
        submit_outcome(history(s0, reqs)[m], reqs[m]->Submit_spec, reqs[m]->Submit_now) is Ok,
        handed_out(history(s0, reqs)[i], reqs[i]) is Some,
        handed_out(history(s0, reqs)[i], reqs[i])->Some_0.dag_id == reqs[m]->Submit_spec.id,
        0 <= k < reqs[m]->Submit_spec.dependencies.len(),
        reqs[m]->Submit_spec.dependencies[k].to == handed_out(history(s0, reqs)[i], reqs[i])->Some_0.job_id,
    ensures
        ({
            let spec = reqs[m]->Submit_spec;
            let dm = history(s0, reqs)[m].dags.len() as int;
            let f = crate::domain::job_index(spec, spec.dependencies[k].from);
            let t = history(s0, reqs)[i + 1];
            &&& t.dags[dm].id == spec.id
            &&& t.dags[dm].jobs[f].spec.id == spec.dependencies[k].from
            &&& t.dags[dm].jobs[f].state == JobState::Succeeded
        }),
{
    history_steps(s0, reqs);
    let h = history(s0, reqs);
    let spec = reqs[m]->Submit_spec;
    let now0 = reqs[m]->Submit_now;
    let dm = h[m].dags.len() as int;
    reveal(apply);
    assert(h[m + 1] == apply(h[m], reqs[m]));
    let a = admitted_dag(spec, now0);
    assert(h[m + 1].dags == h[m].dags.push(a));
    assert(h[m + 1].dags[dm] == a);
    history_moves_forward(s0, reqs, m + 1, i);
    history_moves_forward(s0, reqs, i, i + 1);
    history_stays_wf(s0, reqs, i);
    let s = h[i];
    requests_move_forward(s, reqs[i]);
    assert(h[i + 1] == apply(s, reqs[i]));
    let p = granted_by(s, reqs[i])->Some_0;
    let c = handed_out(s, reqs[i])->Some_0;
    let now = reqs[i]->Claim_now;
    // The claim picked the submitted graph.
    assert(s.dags[dm].id == spec.id);
    if p.0 != dm {
        assert(s.dags[p.0].id != s.dags[dm].id);
    }
    assert(p.0 == dm);
    // It picked the target of dependency `k`.
    let dep = spec.dependencies[k];
    assert(crate::domain::dag_fault(spec) is None);
    crate::domain::lemma_distinct_ids(spec);
    crate::domain::lemma_accepted_edges(spec, k);
    let fj = choose|j: int| 0 <= j < crate::domain::job_ids(spec).len() && crate::domain::job_ids(spec)[j] == dep.from;
    let tj = choose|j: int| 0 <= j < crate::domain::job_ids(spec).len() && crate::domain::job_ids(spec)[j] == dep.to;
    crate::domain::lemma_job_index(spec, fj);
    crate::domain::lemma_job_index(spec, tj);
    assert(s.dags[dm].jobs[p.1].spec == a.jobs[p.1].spec);
    assert(s.dags[dm].jobs[p.1].spec.id == spec.jobs[p.1].id);
    if p.1 != tj {
        assert(spec.jobs[p.1].id != spec.jobs[tj].id);
    }
    // The source of dependency `k` lists the target among its dependents.
    assert(index_edges(spec)[k] == (fj as usize, tj as usize));
    lemma_target_listed(index_edges(spec), k);
    assert(s.dags[dm].dependents == a.dependents);
    assert(a.dependents[fj] == crate::graph::targets_of(index_edges(spec), fj as usize));
    // In the reaped state the target is eligible, so its sources have succeeded.
    let r = reaped(s, now);
    lemma_reaped_wf(s, now);
    assert(eligible(r, dm, tj, now));
    assert(r.dags[dm].dependents == s.dags[dm].dependents);
    released_jobs_follow_successes(r, dm, fj, tj as usize);
    assert(r.dags[dm].jobs[fj] == reap_job(s.config, s.dags[dm].jobs[fj], now));
    assert(s.dags[dm].jobs[fj].state == JobState::Succeeded);
    assert(s.dags[dm].jobs[fj].spec == a.jobs[fj].spec);
}

/// Reaping a second time at the same instant finds no expired lease and changes nothing.
pub proof fn reaping_twice_changes_nothing(s: SchedulerView, now: i64)
    ensures
        reaped(reaped(s, now), now) == reaped(s, now),
        expired_in_dags(reaped(s, now).dags, now, reaped(s, now).dags.len()) == 0,
{
    let t = reaped(s, now);
    assert forall|d: int| 0 <= d < t.dags.len() implies #[trigger] reaped(t, now).dags[d] == t.dags[d] by {
        assert(reaped(t, now).dags[d].jobs =~= t.dags[d].jobs);
    }
    assert(reaped(t, now).dags =~= t.dags);
    assert forall|d: int| 0 <= d < t.dags.len() implies expired_in_jobs(
        (#[trigger] t.dags[d]).jobs,
        now,
        t.dags[d].jobs.len(),
    ) == 0 by {
        lemma_none_expired(t.dags[d].jobs, now, t.dags[d].jobs.len());
    }
    lemma_no_expired_dags(t.dags, now, t.dags.len());
}

proof fn lemma_none_expired(jobs: Seq<JobRecordView>, now: i64, n: nat)
    requires
        n <= jobs.len(),
        forall|j: int| 0 <= j < n ==> !is_expired(#[trigger] jobs[j], now),
    ensures
        expired_in_jobs(jobs, now, n) == 0,
    decreases n,
{
    if n > 0 {
        lemma_none_expired(jobs, now, (n - 1) as nat);
    }
}

proof fn lemma_no_expired_dags(dags: Seq<DagRecordView>, now: i64, n: nat)
    requires
        n <= dags.len(),
        forall|d: int| 0 <= d < n ==> expired_in_jobs((#[trigger] dags[d]).jobs, now, dags[d].jobs.len()) == 0,
    ensures
        expired_in_dags(dags, now, n) == 0,
    decreases n,
{
    if n > 0 {
        lemma_no_expired_dags(dags, now, (n - 1) as nat);
    }
}

/// Every entry of a read model is consistent: a lease owner and a deadline exactly for a leased
/// job, a result exactly for a succeeded one, attempts within the budget, and none for a job
/// that is still pending.
pub proof fn snapshot_entries_are_consistent(s: SchedulerView, d: int, j: int)
    requires
        scheduler_wf(s),
        0 <= d < s.dags.len(),
        0 <= j < s.dags[d].jobs.len(),
    ensures
        ({
            let e = crate::scheduler_model::job_snapshot(s.dags[d].jobs[j]);
            &&& (e.lease_owner is Some) == (e.state == JobState::Leased)
            &&& (e.lease_expires_at_ms is Some) == (e.state == JobState::Leased)
            &&& (e.result is Some) == (e.state == JobState::Succeeded)
            &&& e.attempts <= e.max_attempts
            &&& e.state == JobState::Pending ==> e.attempts == 0
        }),
{
    assert(dag_wf(s.dags[d]));
    assert(job_wf(s.dags[d].jobs[j]));
}


/// Every job of `dag` appears in a read model of it.
proof fn lemma_model_covers(dag: DagRecordView, v: Seq<crate::domain::JobSnapshotView>, x: int)
    requires
        dag_wf(dag),
        is_sorted_snapshot(dag, v),
        0 <= x < dag.jobs.len(),
    ensures
        exists|p: int| 0 <= p < v.len() && v[p] == job_snapshot(dag.jobs[x]),
{
    let n = dag.jobs.len();
    let idx = Seq::new(
        v.len(),
        |q: int| (choose|y: int| 0 <= y < n && v[q] == job_snapshot(dag.jobs[y])) as usize,
    );
    assert forall|q: int| 0 <= q < v.len() implies #[trigger] idx[q] < n && v[q] == job_snapshot(
        dag.jobs[idx[q] as int],
    ) by {
        assert(exists|y: int| 0 <= y < n && #[trigger] v[q] == job_snapshot(dag.jobs[y]));
    }
    assert forall|a: int, b: int| 0 <= a < idx.len() && 0 <= b < idx.len() && a != b implies idx[a]
        != idx[b] by {
        if idx[a] == idx[b] {
            if a < b {
                crate::text::lemma_text_lt_order(v[a].id, v[b].id, v[a].id);
            } else {
                crate::text::lemma_text_lt_order(v[b].id, v[a].id, v[b].id);
            }
        }
    }
    if !idx.contains(x as usize) {
        crate::graph::lemma_distinct_below_missing(idx, n, x as usize);
    }
    let p = choose|p: int| 0 <= p < idx.len() && idx[p] == x as usize;
    assert(v[p] == job_snapshot(dag.jobs[x]));
}

proof fn lemma_models_agree(
    dag: DagRecordView,
    a: Seq<crate::domain::JobSnapshotView>,
    b: Seq<crate::domain::JobSnapshotView>,
    i: int,
)
    requires
        dag_wf(dag),
        is_sorted_snapshot(dag, a),
        is_sorted_snapshot(dag, b),
        0 <= i <= a.len(),
    ensures
        forall|q: int| 0 <= q < i ==> #[trigger] a[q] == b[q],
    decreases i,
{
    if i > 0 {
        let k = i - 1;
        lemma_models_agree(dag, a, b, k);
        let x = choose|y: int| 0 <= y < dag.jobs.len() && #[trigger] a[k] == job_snapshot(dag.jobs[y]);
        let y = choose|z: int| 0 <= z < dag.jobs.len() && #[trigger] b[k] == job_snapshot(dag.jobs[z]);
        lemma_model_covers(dag, b, x);
        lemma_model_covers(dag, a, y);
        let p = choose|p: int| 0 <= p < b.len() && b[p] == job_snapshot(dag.jobs[x]);
        let p2 = choose|p: int| 0 <= p < a.len() && a[p] == job_snapshot(dag.jobs[y]);
        if a[k] != b[k] {
            if p < k {
                assert(a[p] == b[p]);
                crate::text::lemma_text_lt_order(a[p].id, a[k].id, a[p].id);
            }
            if p2 < k {
                assert(a[p2] == b[p2]);
                crate::text::lemma_text_lt_order(b[p2].id, b[k].id, b[p2].id);
            }
            assert(p > k && p2 > k);
            assert(crate::text::text_lt(b[k].id, b[p].id));
            assert(crate::text::text_lt(a[k].id, a[p2].id));
            crate::text::lemma_text_lt_order(a[k].id, b[k].id, a[k].id);
        }
    }
}

/// A graph has only one read model: two snapshots of the same state are equal.
pub proof fn read_models_are_unique(
    dag: DagRecordView,
    a: Seq<crate::domain::JobSnapshotView>,
    b: Seq<crate::domain::JobSnapshotView>,
)
    requires
        dag_wf(dag),
        is_sorted_snapshot(dag, a),
        is_sorted_snapshot(dag, b),
    ensures
        a == b,
{
    lemma_models_agree(dag, a, b, a.len() as int);
    assert(a =~= b);
}


// ---------------------------------------------------------------- what each operation is for

/// A claim hands out, among the jobs that are eligible once expired leases are reaped, one with
/// the earliest availability; among those, one with the highest priority, whichever graphs they
/// belong to; then the one of the smallest graph identifier, then of the smallest job identifier.
pub proof fn claim_prefers_availability_then_priority(
    s: SchedulerView,
    owner: Seq<char>,
    now: i64,
    lease_ms: i64,
    d2: int,
    j2: int,
)
    requires
        scheduler_wf(s),
        claim_outcome(s, owner, now, lease_ms).1 is Some,
        eligible(reaped(s, now), d2, j2, now),
    ensures
        ({
            let r = reaped(s, now);
            let p = claim_pick(s, now)->Some_0;
            let a = r.dags[p.0].jobs[p.1];
            let b = r.dags[d2].jobs[j2];
            &&& a.available_at_ms <= b.available_at_ms
            &&& a.available_at_ms == b.available_at_ms ==> a.spec.priority >= b.spec.priority
            &&& (a.available_at_ms == b.available_at_ms && a.spec.priority == b.spec.priority && (
            p.0, p.1) != (d2, j2)) ==> {
                ||| crate::text::text_lt(r.dags[p.0].id, r.dags[d2].id)
                ||| r.dags[p.0].id == r.dags[d2].id && crate::text::text_lt(a.spec.id, b.spec.id)
            }
        }),
{
    lemma_claim_step(s, owner, now, lease_ms);
    let r = reaped(s, now);
    lemma_reaped_wf(s, now);
    let p = claim_pick(s, now)->Some_0;
    assert(is_best(r, p.0, p.1, now));
    let ka = key_at(r, p.0, p.1);
    let kb = key_at(r, d2, j2);
    assert(!key_lt(kb, ka));
    if (p.0, p.1) != (d2, j2) {
        if p.0 != d2 {
            assert(r.dags[p.0].id != r.dags[d2].id);
        } else {
            assert(dag_wf(r.dags[p.0]));
            assert(r.dags[p.0].jobs[p.1].spec.id != r.dags[p.0].jobs[j2].spec.id);
        }
        assert(ka != kb);
        lemma_key_order(ka, kb, ka);
        assert(key_lt(ka, kb));
    }
}

/// A completion at `now` makes every dependent it releases (pending before, ready after)
/// available from `now` on, and queues it.
pub proof fn released_jobs_become_available_at_completion(
    s: SchedulerView,
    dag_id: Seq<char>,
    job_id: Seq<char>,
    owner: Seq<char>,
    token: Seq<char>,
    result: Seq<char>,
    now: i64,
    d: int,
    k: int,
)
    requires
        complete_outcome(s, dag_id, job_id, owner, token, result, now) is Ok,
        0 <= d < s.dags.len(),
        0 <= k < s.dags[d].jobs.len(),
        s.dags[d].jobs[k].state == JobState::Pending,
        complete_outcome(s, dag_id, job_id, owner, token, result, now)->Ok_0.dags[d].jobs[k].state
            == JobState::Ready,
    ensures
        complete_outcome(s, dag_id, job_id, owner, token, result, now)->Ok_0.dags[d].jobs[k].available_at_ms
            == now,
        complete_outcome(s, dag_id, job_id, owner, token, result, now)->Ok_0.dags[d].jobs[k].queued,
{
}

/// Number of positions below `n` where `before` and `after` hold jobs in different states.
pub open spec fn state_changes(before: Seq<JobRecordView>, after: Seq<JobRecordView>, n: nat) -> nat
    decreases n,
{
    if n == 0 {
        0
    } else {
        state_changes(before, after, (n - 1) as nat) + if before[n - 1].state != after[n - 1].state {
            1nat
        } else {
            0nat
        }
    }
}

/// Number of jobs, over the first `n` graphs, whose state differs between `before` and `after`.
pub open spec fn state_changes_in_dags(before: Seq<DagRecordView>, after: Seq<DagRecordView>, n: nat) -> nat
    decreases n,
{
    if n == 0 {
        0
    } else {
        state_changes_in_dags(before, after, (n - 1) as nat) + state_changes(
            before[n - 1].jobs,
            after[n - 1].jobs,
            before[n - 1].jobs.len(),
        )
    }
}

proof fn lemma_cancel_count(jobs: Seq<JobRecordView>, n: nat)
    requires
        n <= jobs.len(),
    ensures
        crate::scheduler_model::unfinished_in(jobs, n) == state_changes(
            jobs,
            jobs.map_values(
                |job: JobRecordView|
                    if is_terminal(job.state) {
                        job
                    } else {
                        JobRecordView { state: JobState::Cancelled, lease: None, ..job }
                    },
            ),
            n,
        ),
    decreases n,
{
    if n > 0 {
        lemma_cancel_count(jobs, (n - 1) as nat);
    }
}

/// The count a cancellation reports is the number of the graph's jobs whose state it changes:
/// jobs that had already succeeded, been dead-lettered or been cancelled are not counted.
pub proof fn cancel_counts_the_jobs_it_changes(s: SchedulerView, dag_id: Seq<char>)
    requires
        cancel_outcome(s, dag_id) is Ok,
    ensures
        ({
            let d = dag_lookup(s.dags, dag_id).unwrap();
            let (t, n) = cancel_outcome(s, dag_id)->Ok_0;
            &&& n == state_changes(s.dags[d].jobs, t.dags[d].jobs, s.dags[d].jobs.len())
            &&& (forall|j: int|
                0 <= j < s.dags[d].jobs.len() ==> is_terminal(#[trigger] s.dags[d].jobs[j].state))
                ==> n == 0
        }),
{
    let d = dag_lookup(s.dags, dag_id).unwrap();
    let jobs = s.dags[d].jobs;
    lemma_cancel_count(jobs, jobs.len());
    assert(cancelled_dag(s.dags[d]).jobs == jobs.map_values(
        |job: JobRecordView|
            if is_terminal(job.state) {
                job
            } else {
                JobRecordView { state: JobState::Cancelled, lease: None, ..job }
            },
    ));
    if forall|j: int| 0 <= j < jobs.len() ==> is_terminal(#[trigger] jobs[j].state) {
        lemma_no_unfinished(jobs, jobs.len());
    }
}

proof fn lemma_no_unfinished(jobs: Seq<JobRecordView>, n: nat)
    requires
        n <= jobs.len(),
        forall|j: int| 0 <= j < jobs.len() ==> is_terminal(#[trigger] jobs[j].state),
    ensures
        crate::scheduler_model::unfinished_in(jobs, n) == 0,
    decreases n,
{
    if n > 0 {
        lemma_no_unfinished(jobs, (n - 1) as nat);
    }
}

proof fn lemma_reap_count_jobs(config: SchedulerConfig, jobs: Seq<JobRecordView>, now: i64, n: nat)
    requires
        n <= jobs.len(),
        forall|j: int| 0 <= j < jobs.len() ==> job_wf(#[trigger] jobs[j]),
    ensures
        expired_in_jobs(jobs, now, n) == state_changes(
            jobs,
            jobs.map_values(|job: JobRecordView| reap_job(config, job, now)),
            n,
        ),
    decreases n,
{
    if n > 0 {
        lemma_reap_count_jobs(config, jobs, now, (n - 1) as nat);
        assert(job_wf(jobs[n - 1]));
    }
}

proof fn lemma_reap_count_dags(s: SchedulerView, now: i64, n: nat)
    requires
        scheduler_wf(s),
        n <= s.dags.len(),
    ensures
        expired_in_dags(s.dags, now, n) == state_changes_in_dags(s.dags, reaped(s, now).dags, n),
    decreases n,
{
    if n > 0 {
        lemma_reap_count_dags(s, now, (n - 1) as nat);
        let dag = s.dags[n - 1];
        assert(dag_wf(dag));
        assert forall|j: int| 0 <= j < dag.jobs.len() implies job_wf(#[trigger] dag.jobs[j]) by {}
        lemma_reap_count_jobs(s.config, dag.jobs, now, dag.jobs.len());
        assert(reaped(s, now).dags[n - 1].jobs == dag.jobs.map_values(
            |job: JobRecordView| reap_job(s.config, job, now),
        ));
    }
}

/// The number of expired leases a reap reclaims, which is what `Scheduler::reap` reports, is the
/// number of jobs, counted one by one over all graphs, whose state the reap changes; each of them
/// was leased with a deadline at or before `now` and is leased no longer.
pub proof fn reap_counts_each_reclaimed_job(s: SchedulerView, now: i64)
    requires
        scheduler_wf(s),
    ensures
        expired_in_dags(s.dags, now, s.dags.len()) == state_changes_in_dags(
            s.dags,
            reaped(s, now).dags,
            s.dags.len(),
        ),
        forall|d: int, j: int|
            #![trigger reaped(s, now).dags[d].jobs[j]]
            0 <= d < s.dags.len() && 0 <= j < s.dags[d].jobs.len() && reaped(s, now).dags[d].jobs[j].state
                != s.dags[d].jobs[j].state ==> {
                &&& s.dags[d].jobs[j].state == JobState::Leased
                &&& s.dags[d].jobs[j].lease.unwrap().expires_at_ms <= now
                &&& reaped(s, now).dags[d].jobs[j].state != JobState::Leased
            },
{
    lemma_reap_count_dags(s, now, s.dags.len());
}

} // verus!
