# cloud_job_orchestrator

A bounded DAG job orchestrator whose core is verified with Verus.

## Layout

- `src/` — the verified library.
  - `text.rs`: byte-level string equality and order, decimal printing and parsing.
  - `graph.rs`: Kahn's algorithm with identifier-ordered ties; it lists every node exactly
    when the graph is acyclic, and the listing it returns is characterised exactly.
  - `domain.rs`: jobs, graphs, snapshots, admission limits and graph validation.
  - `scheduler_model.rs`: the abstract scheduler state and the effect of every operation.
  - `scheduler.rs`: the in-memory scheduler (submit, claim, heartbeat, complete, fail, reap,
    cancel, snapshot), each proved to keep the scheduler's invariant and to have exactly the
    effect that `scheduler_model.rs` describes.
  - `properties.rs`: guarantees that span operations. Single steps: dependents run only
    after their dependencies succeed, reaped or cancelled leases accept nothing, finished jobs
    stay finished, claims take the best eligible job and never hand out a live lease twice,
    admission limits hold, backoff stays within its window, reaping twice changes nothing, a
    graph has one read model. Whole histories of requests (`Request`, `apply`, `history` in
    `scheduler_model.rs`, which every scheduler method follows): the invariant holds
    throughout, jobs only move forward, lease tokens never repeat, an ended lease stays
    refused, claimed jobs follow their submitted dependencies, and a dead-lettered job keeps
    its dependents blocked.
  - `store.rs`, `http.rs`, `worker.rs`, `settings.rs`: the decisions that the PostgreSQL store,
    the HTTP API, the worker and the command-line tools take around their I/O.
- `tests/` — executable tests of the library.
- `app/` — the runtime around the library: PostgreSQL transactions (sqlx), the Axum API,
  the worker loop and the command-line tool, plus serde forms of the library's types.
