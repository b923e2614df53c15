//! Compile-time tunables shared by the whole kernel.

use vstd::prelude::*;

verus! {

/// Size of the literal/length symbol alphabet.
pub const ZOPFLI_NUM_LL: usize = 288;

/// Size of the distance symbol alphabet.
pub const ZOPFLI_NUM_D: usize = 32;

/// Number of compacted sub-length entries kept per cached position.
pub const ZOPFLI_CACHE_LENGTH: usize = 8;

/// Shortest representable match length.
pub const ZOPFLI_MIN_MATCH: usize = 3;

/// Longest representable match length.
pub const ZOPFLI_MAX_MATCH: usize = 258;

/// Size of the back-reference window.
pub const ZOPFLI_WINDOW_SIZE: usize = 32768;

} // verus!
