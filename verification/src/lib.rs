//! Solvers for a collection of small text-input puzzles: grid region
//! labeling with perimeter and side pricing, ascending-trail counting,
//! and a set of sibling single-pass solvers sharing the same style of
//! rectangular-grid and line-oriented inputs.

use vstd::prelude::*;

pub mod calibration;
pub mod claw;
pub mod defrag;
pub mod regions;
pub mod reports;
pub mod robots;
pub mod stones;
pub mod trails;
pub mod wordsearch;

verus! {

/// Errors raised while turning raw input into a validated grid.
#[derive(Debug, PartialEq, Eq, Clone, Copy)]
pub enum GridError {
    /// The rows of the input are ragged, or the input is empty.
    MalformedInput,
    /// A raw cell value lies outside the valid height range.
    InvalidHeight,
}

} // verus!
