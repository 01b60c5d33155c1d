//! Shortest-path search subsystem: an open-addressing hash table with
//! universal hashing, a binary min-heap priority queue, a weighted directed
//! graph keyed by the hash table, and an A* search that composes all three.

pub mod graph;
pub mod hash_table;
pub mod keys;
pub mod location;
pub mod priority_queue;
pub mod search;
pub mod stack;

use vstd::prelude::*;

verus! {

/// Integer square root: the unique `r` with `r * r <= n < (r + 1) * (r + 1)`.
///
/// Used by the straight-line-distance heuristic; the bound on `n` admits the
/// sum of two squared `u32` differences.
pub fn isqrt(n: u128) -> (r: u64)
    requires
        n < 0x4_0000_0000_0000_0000,
    ensures
        r * r <= n < (r + 1) * (r + 1),
{
    let mut lo: u64 = 0;
    let mut hi: u64 = 0x2_0000_0000;
    assert((0x2_0000_0000 as u128) * (0x2_0000_0000 as u128) == 0x4_0000_0000_0000_0000)
        by (nonlinear_arith);
    while lo + 1 < hi
        invariant
            lo < hi <= 0x2_0000_0000,
            (lo as u128) * (lo as u128) <= n,
            n < (hi as u128) * (hi as u128),
        decreases hi - lo,
    {
        let mid = lo + (hi - lo) / 2;
        assert((mid as u128) * (mid as u128) <= 0x4_0000_0000_0000_0000) by (nonlinear_arith)
            requires
                mid <= 0x2_0000_0000,
        ;
        if (mid as u128) * (mid as u128) <= n {
            lo = mid;
        } else {
            hi = mid;
        }
    }
    lo
}

} // verus!
