use vstd::prelude::*;

pub mod catalog;
pub mod errors;
pub mod preprocess;
pub mod tagger;
pub mod threshold;

verus! {

/// Fixed-point confidence scale: `SCORE_ONE` units represent probability 1.0.
/// Scores produced by the inference runtime are mapped onto `0..=SCORE_ONE`.
pub const SCORE_ONE: u32 = 1000000;

/// A score is valid when it lies in the probability range `[0, 1]`.
pub open spec fn valid_score(s: u32) -> bool {
    s <= SCORE_ONE
}

} // verus!
