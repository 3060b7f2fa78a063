//! Feedback grading for a five-letter word-guessing game, on bit-packed words,
//! and the counting behind the choice of an opening guess.
//!
//! A word is five letters of a 26-letter alphabet, five bits each. A grade is
//! five marks (black, yellow, green), two bits each.
//!
//! - `codec` packs text into words and back.
//! - `feedback` states the rules of grading as mathematics, and what follows
//!   from them.
//! - `naive`, `sensible`, `packed` and `squeeze` grade: on text, on bytes, on
//!   packed words, and on batches of packed words. All give the marks that
//!   `feedback` defines.
//! - `tally` counts, for a guess, the candidates by the grade that they give
//!   it, and sorts them into buckets.
//! - `opener` pairs a first guess with the second guesses ranked before it,
//!   up to the caller's bound, and has each pair scored on the buckets.
//! - `refinement` shows that a first guess never makes a second one worse.
//! - `timing` times a computation.

use vstd::prelude::*;

mod bits;
pub mod codec;
pub mod feedback;
pub mod naive;
pub mod opener;
pub mod packed;
mod passes;
pub mod refinement;
pub mod sensible;
pub mod squeeze;
pub mod tally;
pub mod timing;

pub use codec::{is_word, str_from_word, word_from_str};
pub use timing::stopwatch;

verus! {

/// A packed word: five 5-bit letters, the first letter in the lowest bits.
pub type Word = u32;

/// A packed grade: five 2-bit marks, the first position in the lowest bits.
pub type Grade = u16;

/// Mark of a letter in the right place.
pub const GREEN: u16 = 0b10;

/// Mark of a letter that the answer holds elsewhere.
pub const YELLOW: u16 = 0b01;

/// Mark of a letter that the answer has no more of.
pub const BLACK: u16 = 0b00;

/// One more than the largest grade, the all-green one: the size of a table
/// indexed by grade.
pub const N_GRADES: usize = 0b1010101011;

} // verus!
