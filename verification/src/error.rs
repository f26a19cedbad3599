//! Errors of the aggregation run.
//!
//! A malformed record is fatal for the whole run: there is no per-line
//! skip-and-continue. The two per-line failures keep the index of the line
//! they were found on, so a caller can report which line failed.

use vstd::prelude::*;

verus! {

/// Why a single line failed to parse.
#[derive(Clone, Copy, Debug, PartialEq, Eq, Structural)]
pub enum LineError {
    /// The line does not split at exactly one `;` into two non-empty fields.
    Split,
    /// The value field is not a decimal number the library accepts.
    Number,
}

/// Why a whole aggregation run failed.
#[derive(Clone, Copy, Debug, PartialEq, Eq, Structural)]
pub enum Error {
    /// The line at this index does not split at exactly one `;` into two
    /// non-empty fields.
    BadLine(usize),
    /// The value field of the line at this index is not a decimal number the
    /// library accepts.
    BadNumber(usize),
    /// A per-key count or total left the range the accumulator can hold.
    Capacity,
}

} // verus!
