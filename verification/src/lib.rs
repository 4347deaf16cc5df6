//! Duplicate-file detection core: size partitioning, two-phase digest
//! grouping, and the bookkeeping for a crash-safe hardlink action.
//!
//! The library works on plain values: file paths as strings, sizes as byte
//! counts, content digests as byte vectors. Reading directories and file
//! contents, and touching the filesystem, is left to the surrounding
//! application; every decision the pipeline makes is verified here.

pub mod actions;
pub mod digest;
pub mod grouping;
pub mod hasher;
pub mod output;
pub mod scanner;

use vstd::prelude::*;

verus! {

/// Caps a mathematical count at the largest value a `usize` can hold;
/// counters that would pass it saturate there.
pub open spec fn cap_usize(x: int) -> int {
    if x > usize::MAX {
        usize::MAX as int
    } else {
        x
    }
}

/// Caps a mathematical count at the largest value a `u64` can hold;
/// counters that would pass it saturate there.
pub open spec fn cap_u64(x: int) -> int {
    if x > u64::MAX {
        u64::MAX as int
    } else {
        x
    }
}

} // verus!
