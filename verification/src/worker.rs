//! The fixed allowlist of synthetic job operations: what each operation produces from a
//! validated payload, and the bound on its result. Waiting out a delay is left to the caller.

use vstd::prelude::*;
use sha2::{Digest, Sha256};
use crate::domain::{
    payload_fault, validation_message, JobKind, ValidationError, ValidationErrorView,
    MAX_PAYLOAD_BYTES,
};
use crate::text::{decimal, parse_u64, parse_u64_spec, push_decimal, utf8};

verus! {

/// Why a job could not be executed.
#[derive(Clone, Debug, PartialEq, Eq)]
pub enum WorkerError {
    Validation(ValidationError),
    InvalidPayload,
    ResultTooLarge,
}

pub enum WorkerErrorView {
    Validation(ValidationErrorView),
    InvalidPayload,
    ResultTooLarge,
}

impl View for WorkerError {
    type V = WorkerErrorView;

    open spec fn view(&self) -> WorkerErrorView {
        match self {
            WorkerError::Validation(e) => WorkerErrorView::Validation(e@),
            WorkerError::InvalidPayload => WorkerErrorView::InvalidPayload,
            WorkerError::ResultTooLarge => WorkerErrorView::ResultTooLarge,
        }
    }
}

/// The human-readable text of a worker error.
pub open spec fn worker_message(e: WorkerErrorView) -> Seq<char> {
    match e {
        WorkerErrorView::Validation(v) => validation_message(v),
        WorkerErrorView::InvalidPayload => "worker payload is invalid"@,
        WorkerErrorView::ResultTooLarge => "worker result exceeds the output limit"@,
    }
}

impl WorkerError {
    /// The human-readable text of this error.
    pub fn message(&self) -> (r: String)
        ensures
            r@ == worker_message(self@),
    {
        match self {
            WorkerError::Validation(e) => e.message(),
            WorkerError::InvalidPayload => "worker payload is invalid".to_owned(),
            WorkerError::ResultTooLarge => "worker result exceeds the output limit".to_owned(),
        }
    }
}

/// What running a job amounts to: wait `delay_ms` milliseconds, then report `output`.
#[derive(Clone, Debug, PartialEq, Eq)]
pub struct Execution {
    pub delay_ms: u64,
    pub output: String,
}

/// The lowercase hexadecimal digit of `n < 16`.
pub open spec fn hex_digit(n: int) -> char {
    if n < 10 {
        (48 + n) as char
    } else {
        (87 + n) as char
    }
}

/// Lowercase hexadecimal text of a byte string, two digits per byte, high digit first.
pub open spec fn hex_text(bytes: Seq<u8>) -> Seq<char>
    decreases bytes.len(),
{
    if bytes.len() == 0 {
        Seq::empty()
    } else {
        hex_text(bytes.drop_last()) + seq![
            hex_digit(bytes.last() as int / 16),
            hex_digit(bytes.last() as int % 16),
        ]
    }
}

/// The SHA-256 digest of a byte string.
pub uninterp spec fn sha256_digest(data: Seq<u8>) -> Seq<u8>;

/// The Unicode uppercase mapping of a string, as `str::to_uppercase` computes it.
pub uninterp spec fn uppercase_of(s: Seq<char>) -> Seq<char>;

/// `Sha256::digest` of the `sha2` crate: the digest, always 32 bytes.
#[verifier::external_body]
fn sha256(data: &[u8]) -> (r: Vec<u8>)
    ensures
        r@ == sha256_digest(data@),
        r@.len() == 32,
{
    Sha256::digest(data).to_vec()
}

/// `hex::encode` of the `hex` crate: lowercase hexadecimal, two digits per byte, high digit first.
#[verifier::external_body]
fn hex_encode(bytes: &[u8]) -> (r: String)
    ensures
        r@ == hex_text(bytes@),
{
    hex::encode(bytes)
}

/// `str::to_uppercase` of the standard library.
#[verifier::external_body]
fn uppercase(s: &str) -> (r: String)
    ensures
        r@ == uppercase_of(s@),
{
    s.to_uppercase()
}

proof fn lemma_hex_len(bytes: Seq<u8>)
    ensures
        hex_text(bytes).len() == 2 * bytes.len(),
        vstd::utf8::is_ascii_chars(hex_text(bytes)),
    decreases bytes.len(),
{
    if bytes.len() > 0 {
        lemma_hex_len(bytes.drop_last());
        let prev = hex_text(bytes.drop_last());
        let hi = hex_digit(bytes.last() as int / 16);
        let lo = hex_digit(bytes.last() as int % 16);
        assert(hex_text(bytes) == prev + seq![hi, lo]);
        assert forall|i: int| 0 <= i < hex_text(bytes).len() implies '\0' <= #[trigger] hex_text(bytes)[i]
            <= '\u{7f}' by {
            if i >= prev.len() {
                assert(hex_text(bytes)[i] == hi || hex_text(bytes)[i] == lo);
            } else {
                assert(hex_text(bytes)[i] == prev[i]);
            }
        }
    }
}

/// The report of a delay of `ms` milliseconds.
pub open spec fn delay_report(ms: u64) -> Seq<char> {
    "slept:"@ + decimal(ms as nat) + "ms"@
}

/// What an operation produces from a payload that passed validation: the delay to wait and
/// the output text.
pub open spec fn planned_output(kind: JobKind, payload: Seq<char>) -> (u64, Seq<char>) {
    match kind {
        JobKind::Delay => {
            let ms = parse_u64_spec(payload).unwrap();
            (ms, delay_report(ms))
        },
        JobKind::Checksum => (0, hex_text(sha256_digest(utf8(payload)))),
        JobKind::Uppercase => (0, uppercase_of(payload)),
    }
}

/// Accepts an output within the payload limit.
pub fn bounded_output(delay_ms: u64, output: String) -> (r: Result<Execution, WorkerError>)
    ensures
        match r {
            Ok(x) => utf8(output@).len() <= MAX_PAYLOAD_BYTES && x.delay_ms == delay_ms && x.output@
                == output@,
            Err(e) => utf8(output@).len() > MAX_PAYLOAD_BYTES && e@ == WorkerErrorView::ResultTooLarge,
        },
{
    if output.as_str().as_bytes().len() > MAX_PAYLOAD_BYTES {
        return Err(WorkerError::ResultTooLarge);
    }
    Ok(Execution { delay_ms, output })
}

/// Decides what running one harmless operation amounts to: the payload is validated, then the
/// operation's output is computed and bounded. A delay job reports the wait it asks for.
pub fn plan_execution(kind: &JobKind, payload: &str) -> (r: Result<Execution, WorkerError>)
    ensures
        match payload_fault(*kind, payload@) {
            Some(v) => r is Err && r->Err_0@ == WorkerErrorView::Validation(v),
            None => {
                let (ms, out) = planned_output(*kind, payload@);
                match r {
                    Ok(x) => utf8(out).len() <= MAX_PAYLOAD_BYTES && x.delay_ms == ms && x.output@
                        == out,
                    Err(e) => utf8(out).len() > MAX_PAYLOAD_BYTES && e@
                        == WorkerErrorView::ResultTooLarge,
                }
            },
        },
        *kind == JobKind::Checksum && payload_fault(*kind, payload@) is None ==> r is Ok,
        *kind == JobKind::Checksum && r is Ok ==> r->Ok_0.output@.len() == 64,
{
    match kind.validate_payload(payload) {
        Err(e) => {
            return Err(WorkerError::Validation(e));
        },
        Ok(_) => {},
    }
    match kind {
        JobKind::Delay => {
            let ms = match parse_u64(payload) {
                Some(ms) => ms,
                None => {
                    return Err(WorkerError::InvalidPayload);
                },
            };
            let mut output = "slept:".to_owned();
            push_decimal(&mut output, ms);
            output.append("ms");
            bounded_output(ms, output)
        },
        JobKind::Checksum => {
            let digest = sha256(payload.as_bytes());
            let output = hex_encode(digest.as_slice());
            proof {
                lemma_hex_len(digest@);
                vstd::utf8::is_ascii_chars_encode_utf8(output@);
            }
            bounded_output(0, output)
        },
        JobKind::Uppercase => bounded_output(0, uppercase(payload)),
    }
}

} // verus!
