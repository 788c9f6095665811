//! Author attribution from token-frequency statistics.
//!
//! A trained frequency model maps each token to per-author occurrence
//! counts; classification rates the tokens of each sentence and combines
//! the ratings into one score per author in fixed-point arithmetic.

use vstd::prelude::*;

pub mod codec;
pub mod fixed;
pub mod model;
pub mod rating;
pub mod segment;

verus! {

/// Scale of all fixed-point ratings and scores: the value `v` stands for
/// the real number `v / RATING_SCALE`.
pub const RATING_SCALE: u64 = 1_000_000;

/// Lower clamp bound of a computed token rating (0.2).
pub const MIN_RATING: u64 = 200_000;

/// Upper clamp bound of a computed token rating (0.7).
pub const MAX_RATING: u64 = 700_000;

/// Neutral rating recorded for a known token never seen for an author (0.4).
pub const NO_TOKEN_RATING: u64 = 400_000;

/// Longest sentence chunk, in characters, that the segmenter produces.
pub const MAX_SENTENCE_LENGTH: usize = 96;

/// Clamp a raw fixed-point rating into `[MIN_RATING, MAX_RATING]`.
pub fn clamp_rating(x: u64) -> (r: u64)
    ensures
        r == spec_clamp_rating(x as int),
{
    if x < MIN_RATING {
        MIN_RATING
    } else if x > MAX_RATING {
        MAX_RATING
    } else {
        x
    }
}

/// The clamp policy on raw ratings, as a mathematical function.
pub open spec fn spec_clamp_rating(x: int) -> int {
    if x < MIN_RATING {
        MIN_RATING as int
    } else if x > MAX_RATING {
        MAX_RATING as int
    } else {
        x
    }
}

} // verus!
