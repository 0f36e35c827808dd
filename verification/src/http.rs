//! The HTTP contract of the control plane: request defaults, the names of job states, and the
//! status, code and message with which each failure is answered.

use vstd::prelude::*;
use crate::domain::{validation_message, JobState};
use crate::store::{state_text, DatabaseFailure, StoreError};

verus! {

/// Page size of a listing request that names none.
pub fn default_page_size() -> (r: u16)
    ensures
        r == 25,
{
    25
}

/// Lease duration of a claim or heartbeat request that names none.
pub fn default_lease_ms() -> (r: i64)
    ensures
        r == 15000,
{
    15000
}

/// The name of a job state in responses.
pub fn state_name(state: &JobState) -> (r: &'static str)
    ensures
        r@ == state_text(*state),
{
    match state {
        JobState::Pending => "pending",
        JobState::Ready => "ready",
        JobState::RetryWait => "retry_wait",
        JobState::Leased => "leased",
        JobState::Succeeded => "succeeded",
        JobState::DeadLettered => "dead_lettered",
        JobState::Cancelled => "cancelled",
    }
}

/// Why a request failed.
#[derive(Clone, Debug, PartialEq, Eq)]
pub enum ApiError {
    Store(StoreError),
    Unavailable,
}

/// The answer to a failed request: HTTP status, stable error code and message.
#[derive(Clone, Debug, PartialEq, Eq)]
pub struct ErrorReply {
    pub status: u16,
    pub code: String,
    pub message: String,
}

/// PostgreSQL's SQLSTATE for a unique-constraint violation.
pub open spec fn is_unique_code(code: Option<Seq<char>>) -> bool {
    code == Some("23505"@)
}

/// Whether a database failure is a unique-constraint violation.
pub fn is_unique_violation(failure: &DatabaseFailure) -> (r: bool)
    ensures
        r == is_unique_code(
            match &failure.code {
                Some(c) => Some(c@),
                None => None,
            },
        ),
{
    match &failure.code {
        Some(c) => crate::text::str_eq(c.as_str(), "23505"),
        None => false,
    }
}

/// The status, code and message that answer `error`.
pub open spec fn reply_for(error: &ApiError) -> (u16, Seq<char>, Seq<char>) {
    match error {
        ApiError::Unavailable => (503, "unavailable"@, "database is not ready"@),
        ApiError::Store(StoreError::NotFound) => (404, "not_found"@, "resource not found"@),
        ApiError::Store(StoreError::LeaseConflict) => (
            409,
            "lease_conflict"@,
            "lease is stale or owned by another worker"@,
        ),
        ApiError::Store(StoreError::Validation(v)) => (422, "invalid_dag"@, validation_message(v@)),
        ApiError::Store(StoreError::InvalidConfiguration) => (
            400,
            "invalid_request"@,
            "request is outside supported limits"@,
        ),
        ApiError::Store(StoreError::Database(f)) => if is_unique_code(
            match f.code {
                Some(c) => Some(c@),
                None => None,
            },
        ) {
            (409, "already_exists"@, "resource already exists"@)
        } else {
            (500, "internal"@, "internal control-plane error"@)
        },
        ApiError::Store(_) => (500, "internal"@, "internal control-plane error"@),
    }
}

impl ApiError {
    /// The answer to this failure.
    pub fn reply(&self) -> (r: ErrorReply)
        ensures
            (r.status, r.code@, r.message@) == reply_for(self),
    {
        match self {
            ApiError::Unavailable => ErrorReply {
                status: 503,
                code: "unavailable".to_owned(),
                message: "database is not ready".to_owned(),
            },
            ApiError::Store(StoreError::NotFound) => ErrorReply {
                status: 404,
                code: "not_found".to_owned(),
                message: "resource not found".to_owned(),
            },
            ApiError::Store(StoreError::LeaseConflict) => ErrorReply {
                status: 409,
                code: "lease_conflict".to_owned(),
                message: "lease is stale or owned by another worker".to_owned(),
            },
            ApiError::Store(StoreError::Validation(v)) => ErrorReply {
                status: 422,
                code: "invalid_dag".to_owned(),
                message: v.message(),
            },
            ApiError::Store(StoreError::InvalidConfiguration) => ErrorReply {
                status: 400,
                code: "invalid_request".to_owned(),
                message: "request is outside supported limits".to_owned(),
            },
            ApiError::Store(StoreError::Database(f)) => {
                if is_unique_violation(f) {
                    ErrorReply {
                        status: 409,
                        code: "already_exists".to_owned(),
                        message: "resource already exists".to_owned(),
                    }
                } else {
                    ErrorReply {
                        status: 500,
                        code: "internal".to_owned(),
                        message: "internal control-plane error".to_owned(),
                    }
                }
            },
            ApiError::Store(_) => ErrorReply {
                status: 500,
                code: "internal".to_owned(),
                message: "internal control-plane error".to_owned(),
            },
        }
    }
}

} // verus!
