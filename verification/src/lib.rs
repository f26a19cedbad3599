//! Per-key arithmetic means over `key;value` records.
//!
//! The input is a text of newline-separated records, each `key;value` with a
//! decimal value. The library parses records, folds the values of each key
//! into a running summary, merges summaries built from different parts of the
//! input, and hands the result out sorted by key. Values are held exactly, as
//! integers scaled by a fixed power of ten, so every contract here is exact:
//! summaries are sums and counts, the merge of two summaries is associative
//! and commutative, and splitting the input into chunks, aggregating each
//! chunk and merging the results yields the same table as one sequential
//! pass.

pub mod average;
pub mod error;
pub mod number;
pub mod order;
pub mod parse;
pub mod pipeline;
pub mod table;

use vstd::prelude::*;

verus! {

/// Every value is held as an integer count of billionths: a measurement
/// `v` is stored as `v * SCALE`, kept exact for up to `FRAC_DIGITS`
/// fractional digits.
pub const SCALE: i128 = 1_000_000_000;

/// Number of fractional digits a value field may carry.
pub const FRAC_DIGITS: usize = 9;

/// Number of integer digits a value field may carry.
pub const MAX_INT_DIGITS: usize = 27;

} // verus!
