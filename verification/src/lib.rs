//! Viterbi decoding for a linear-chain conditional random field.
//!
//! A model scores a tag sequence by adding, step by step, a transition score
//! for each pair of neighbouring tags and an emission score for each tag.
//! Decoding finds the sequence with the highest total. Scores are fixed-point
//! integers, so that every sum is exact and the optimum is well defined.
//!
//! * [`score`] fixes the number format and the views used in contracts.
//! * [`path`] says what the score of a tag sequence is and what "best" means.
//! * [`trellis`] defines the forward recursion and proves that following its
//!   backpointers yields the best sequence.
//! * [`sentinel`] says when the sentinel keeps the reserved tags out of a
//!   decoded path, and proves it.
//! * [`crf`] holds the model type and the decoder itself.
//! * [`laws`] collects theorems about the decoder's result.

pub mod score;
pub mod path;
pub mod trellis;
pub mod sentinel;
pub mod crf;
pub mod laws;

pub use crate::crf::{DecodeError, CRF};
pub use crate::score::{SCALE, SCORE_BOUND, SENTINEL};
