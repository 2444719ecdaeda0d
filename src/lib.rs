use vstd::prelude::*;

/// Building bags of words from document bytes, and their qualifying totals.
pub mod bow;
/// The integer side of classification: admitted tokens, priors' denominator, verdict tallies.
pub mod classify;
/// Properties that relate several calls of the library.
pub mod laws;
/// The frequency table: distinct tokens with their counts.
pub mod table;

verus! {

/// Minimum combined occurrence count for a token to influence a score.
pub const THRESHOLD: u64 = 100;

} // verus!
