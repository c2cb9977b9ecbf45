//! Data-driven vocabulary for bracket-delimited molecular strings: a
//! tokenizer, a two-tier vocabulary, an optimal segmenter, a frequency
//! counter and an n-gram miner.
use vstd::prelude::*;

pub mod error;
pub mod tokenizer;
pub mod windows;
pub mod lexical;
pub mod counter;
pub mod tables;
pub mod vocab;
pub mod encoding;
pub mod utils;
pub mod laws;

verus! {

} // verus!
