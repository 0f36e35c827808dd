//! Limits that the command-line tools apply to their inputs.

use vstd::prelude::*;

verus! {

/// Largest graph file, in bytes, that the command-line tool reads.
pub const MAX_SPEC_FILE_BYTES: u64 = 1000000;

/// A numeric setting is accepted when it lies within `minimum..=maximum`.
pub fn bounded_setting(value: i64, minimum: i64, maximum: i64) -> (r: Option<i64>)
    ensures
        r == if minimum <= value <= maximum {
            Some(value)
        } else {
            None::<i64>
        },
{
    if minimum <= value && value <= maximum {
        Some(value)
    } else {
        None
    }
}

/// A graph file is read only when it holds at most `MAX_SPEC_FILE_BYTES` bytes.
pub fn spec_file_fits(len: u64) -> (r: bool)
    ensures
        r == (len <= MAX_SPEC_FILE_BYTES),
{
    len <= MAX_SPEC_FILE_BYTES
}

} // verus!
