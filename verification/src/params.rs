//! The constants of the format. Changing any of them changes the wire format.

use vstd::prelude::*;

verus! {

/// Size of the ring buffer (the sliding window).
pub const RING_BUF_SIZE: usize = 4096;

/// Longest match that is ever emitted.
pub const MAX_MATCH_LEN: usize = 60;

/// Matches of this length or shorter are emitted as literals.
pub const THRESHOLD: usize = 2;

/// The tree pointer that stands for "no node".
pub const NIL: usize = 4096;

/// Precision of the arithmetic coder, in bits.
pub const M: usize = 15;

/// First quartile of the coding range.
pub const Q1: u64 = 32768;

/// Second quartile of the coding range.
pub const Q2: u64 = 65536;

/// Third quartile of the coding range.
pub const Q3: u64 = 98304;

/// The whole coding range.
pub const Q4: u64 = 131072;

/// A symbol model is rescaled when its total reaches this value.
pub const MAX_CUM: u64 = 32767;

/// Size of the symbol alphabet: 256 literal bytes and 58 match lengths.
pub const N_CHAR: usize = 314;

} // verus!
