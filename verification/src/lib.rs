//! A character-level Markov model over words.
//!
//! Training accumulates transition counts from two-symbol contexts to next
//! symbols, compilation turns each context's counts into a weighted sampler,
//! generation walks the compiled chain to draw candidate words and accepts
//! the first one meeting length and novelty constraints, and a byte codec
//! persists compiled chains and reads them back unchanged.

pub mod assoc;
pub mod codec;
pub mod model;
pub mod naming;
pub mod symbol;
pub mod trusted;
