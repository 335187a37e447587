use vstd::prelude::*;

verus! {

/// Why a scoring or matching call produced no result.
#[derive(Debug, PartialEq, Eq)]
pub enum MatchError {
    /// The algorithm name is not one of Levenshtein, Hamming, Jaro, JaroWinkler.
    InvalidAlgorithm(String),
    /// The candidate collection was empty.
    EmptyCandidates,
    /// The requested number of matches was below one.
    InvalidN(usize),
    /// Hamming distance asked for on operands whose normalized lengths differ:
    /// the two lengths, in characters.
    LengthMismatch(usize, usize),
}

} // verus!
