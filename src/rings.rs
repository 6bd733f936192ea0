//! The fixed schedule of distance rings, in meters.
//!
//! Ring `i` is the half-open interval `[ring_lower(i), ring_upper(i))`; the
//! last ring has no upper bound. The rings are gapless and strictly increasing,
//! so every distance falls in exactly one of them.
use vstd::prelude::*;

verus! {

/// Number of rings in the schedule.
pub const RING_COUNT: usize = 13;

/// Upper bound (exclusive) of ring `i`, for every ring but the last.
pub open spec fn ring_upper(i: nat) -> nat {
    if i == 0 {
        100
    } else if i == 1 {
        500
    } else if i == 2 {
        1_000
    } else if i == 3 {
        10_000
    } else if i == 4 {
        20_000
    } else if i == 5 {
        50_000
    } else if i == 6 {
        100_000
    } else if i == 7 {
        200_000
    } else if i == 8 {
        500_000
    } else if i == 9 {
        1_000_000
    } else if i == 10 {
        3_000_000
    } else {
        10_000_000
    }
}

/// Lower bound (inclusive) of ring `i`.
pub open spec fn ring_lower(i: nat) -> nat {
    if i == 0 {
        0
    } else {
        ring_upper((i - 1) as nat)
    }
}

/// Whether distance `d` falls inside ring `i`.
pub open spec fn in_ring(i: nat, d: nat) -> bool {
    &&& i < RING_COUNT
    &&& ring_lower(i) <= d
    &&& (i + 1 == RING_COUNT || d < ring_upper(i))
}

/// The ring that holds distance `d`.
pub open spec fn ring_of(d: nat) -> nat {
    if d < 100 {
        0
    } else if d < 500 {
        1
    } else if d < 1_000 {
        2
    } else if d < 10_000 {
        3
    } else if d < 20_000 {
        4
    } else if d < 50_000 {
        5
    } else if d < 100_000 {
        6
    } else if d < 200_000 {
        7
    } else if d < 500_000 {
        8
    } else if d < 1_000_000 {
        9
    } else if d < 3_000_000 {
        10
    } else if d < 10_000_000 {
        11
    } else {
        12
    }
}

/// Every distance lies in exactly one ring, the one `ring_of` names.
pub proof fn lemma_ring_of_unique(i: nat, d: nat)
    ensures
        in_ring(ring_of(d), d),
        in_ring(i, d) <==> i == ring_of(d),
{
}

/// The rings are ordered as the distances: a farther distance never lies in a nearer ring.
pub proof fn lemma_ring_monotone(d1: nat, d2: nat)
    requires
        d1 <= d2,
    ensures
        ring_of(d1) <= ring_of(d2),
{
}

/// The rings are gapless and increasing: each ends where the next begins.
pub proof fn lemma_rings_increasing(i: nat, j: nat)
    requires
        i < j < RING_COUNT,
    ensures
        ring_lower(i) < ring_upper(i) <= ring_lower(j),
{
}

/// A distance in a nearer ring lies below the lower bound of every farther ring.
pub proof fn lemma_below_ring(d: nat, j: nat)
    requires
        ring_of(d) < j < RING_COUNT,
    ensures
        d < ring_lower(j),
{
}

/// Index of the ring that holds distance `d`.
pub fn ring_index(d: u64) -> (r: usize)
    ensures
        r as nat == ring_of(d as nat),
        r < RING_COUNT,
{
    if d < 100 {
        0
    } else if d < 500 {
        1
    } else if d < 1_000 {
        2
    } else if d < 10_000 {
        3
    } else if d < 20_000 {
        4
    } else if d < 50_000 {
        5
    } else if d < 100_000 {
        6
    } else if d < 200_000 {
        7
    } else if d < 500_000 {
        8
    } else if d < 1_000_000 {
        9
    } else if d < 3_000_000 {
        10
    } else if d < 10_000_000 {
        11
    } else {
        12
    }
}

} // verus!
