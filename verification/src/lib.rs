//! Bounded DAG job orchestration: graph validation, a lease-based scheduler,
//! and the pure rules that the durable store, the HTTP layer and the worker apply.

pub mod text;
pub mod graph;
pub mod domain;
pub mod scheduler_model;
pub mod scheduler;
pub mod properties;
pub mod store;
pub mod http;
pub mod worker;
pub mod settings;

pub use domain::{DagSnapshot, DagSpec, Dependency, JobKind, JobSpec, JobState};
pub use scheduler::{ClaimedJob, Scheduler, SchedulerConfig, SchedulerError};
pub use store::StoreError;
