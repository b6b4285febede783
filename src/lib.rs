//! Binary deltas between two byte sequences: a suffix index over the old
//! data, a greedy match scanner, two patch formats (a compact one with three
//! compressed segments, and a linear uncompressed one), the appliers that
//! replay them through bounded buffers, and a content-addressed cache for the
//! index.
use vstd::prelude::*;

pub mod stream;
pub mod patch;
pub mod compact;
pub mod diff;
pub mod linear_diff;
pub mod cache;

verus! {

} // verus!
