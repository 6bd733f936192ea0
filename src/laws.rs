//! Properties of the bucketing run, proved over its model.
use crate::bucketer::{geo_order, nearest_first, run_over, run_step, BucketRun};
use crate::rings::{
    lemma_below_ring, lemma_ring_monotone, ring_lower, ring_of, ring_upper, RING_COUNT,
};
use vstd::prelude::*;

verus! {

/// The buckets of a run are non-empty and pairwise disjoint, none meets the
/// unlocated remainder, and together with it they make up the candidates.
pub open spec fn partitions(r: BucketRun, cands: Set<u32>) -> bool {
    &&& r.rings.len() == r.buckets.len()
    &&& forall|i: int| 0 <= i < r.buckets.len() ==> (#[trigger] r.buckets[i]) != Set::<u32>::empty()
    &&& forall|i: int, j: int|
        0 <= i < j < r.buckets.len() ==> (#[trigger] r.buckets[i]).disjoint(#[trigger] r.buckets[j])
    &&& forall|i: int| 0 <= i < r.buckets.len() ==> (#[trigger] r.buckets[i]).disjoint(r.remaining)
    &&& forall|id: u32|
        #[trigger] cands.contains(id) <==> (r.remaining.contains(id) || exists|i: int|
            0 <= i < r.buckets.len() && (#[trigger] r.buckets[i]).contains(id))
}

/// Partition: every candidate ends up in exactly one bucket or stays
/// unlocated, and no id is in two buckets.
pub proof fn lemma_run_partition(entries: Seq<(u32, u64)>, cands: Set<u32>)
    ensures
        partitions(run_over(entries, cands), cands),
    decreases entries.len(),
{
    if entries.len() > 0 {
        let front = entries.drop_last();
        lemma_run_partition(front, cands);
        let s = run_over(front, cands);
        let id = entries.last().0;
        let d = entries.last().1;
        let r = run_step(s, id, d);
        assert(r == run_over(entries, cands));
        if s.remaining.contains(id) {
            if s.buckets.len() > 0 && ring_of(d as nat) == s.rings.last() {
                let n = s.buckets.len() - 1;
                assert forall|x: u32| #[trigger] cands.contains(x) <==> (r.remaining.contains(x)
                    || exists|i: int| 0 <= i < r.buckets.len() && (#[trigger] r.buckets[i]).contains(x)) by {
                    if x == id {
                        assert(r.buckets[n].contains(x));
                    } else if cands.contains(x) && !r.remaining.contains(x) {
                        let i = choose|i: int| 0 <= i < s.buckets.len() && (#[trigger] s.buckets[i]).contains(x);
                        assert(r.buckets[i].contains(x));
                    } else if exists|i: int| 0 <= i < r.buckets.len() && (#[trigger] r.buckets[i]).contains(x) {
                        let i = choose|i: int| 0 <= i < r.buckets.len() && (#[trigger] r.buckets[i]).contains(x);
                        assert(s.buckets[i].contains(x));
                    }
                }
                assert forall|i: int| 0 <= i < r.buckets.len() implies (#[trigger] r.buckets[i]) != Set::<u32>::empty() by {
                    if i == n {
                        assert(r.buckets[i].contains(id));
                    } else {
                        assert(r.buckets[i] == s.buckets[i]);
                    }
                }
                assert forall|i: int, j: int| 0 <= i < j < r.buckets.len() implies
                    (#[trigger] r.buckets[i]).disjoint(#[trigger] r.buckets[j]) by {
                    assert(s.buckets[i].disjoint(s.buckets[j]));
                    assert(s.buckets[i].disjoint(s.remaining));
                }
            } else {
                let n = s.buckets.len() as int;
                assert(r.buckets[n].contains(id));
                assert forall|x: u32| #[trigger] cands.contains(x) <==> (r.remaining.contains(x)
                    || exists|i: int| 0 <= i < r.buckets.len() && (#[trigger] r.buckets[i]).contains(x)) by {
                    if x == id {
                        assert(r.buckets[n].contains(x));
                    } else if cands.contains(x) && !r.remaining.contains(x) {
                        let i = choose|i: int| 0 <= i < s.buckets.len() && (#[trigger] s.buckets[i]).contains(x);
                        assert(r.buckets[i].contains(x));
                    } else if exists|i: int| 0 <= i < r.buckets.len() && (#[trigger] r.buckets[i]).contains(x) {
                        let i = choose|i: int| 0 <= i < r.buckets.len() && (#[trigger] r.buckets[i]).contains(x);
                        assert(s.buckets[i].contains(x));
                    }
                }
                assert forall|i: int| 0 <= i < r.buckets.len() implies (#[trigger] r.buckets[i]) != Set::<u32>::empty() by {
                    if i == n {
                        assert(r.buckets[i].contains(id));
                    } else {
                        assert(r.buckets[i] == s.buckets[i]);
                    }
                }
                assert forall|i: int, j: int| 0 <= i < j < r.buckets.len() implies
                    (#[trigger] r.buckets[i]).disjoint(#[trigger] r.buckets[j]) by {
                    if j == n {
                        assert(s.buckets[i].disjoint(s.remaining));
                    } else {
                        assert(s.buckets[i].disjoint(s.buckets[j]));
                    }
                }
            }
        }
    }
}

/// Rings of a run over `entries`: each bucket's ring is that of the
/// distance at which each of its ids was met, rings grow from bucket to
/// bucket, and the current ring is that of a neighbour already seen.
pub open spec fn rings_ordered(entries: Seq<(u32, u64)>, r: BucketRun) -> bool {
    &&& r.rings.len() == r.buckets.len()
    &&& forall|i: int| 0 <= i < r.rings.len() ==> #[trigger] r.rings[i] < RING_COUNT
    &&& forall|i: int, j: int| 0 <= i < j < r.rings.len() ==> #[trigger] r.rings[i] < #[trigger] r.rings[j]
    &&& forall|i: int, id: u32|
        0 <= i < r.buckets.len() && #[trigger] r.buckets[i].contains(id) ==> exists|k: int|
            0 <= k < entries.len() && (#[trigger] entries[k]).0 == id && ring_of(entries[k].1 as nat)
                == r.rings[i]
    &&& r.rings.len() > 0 ==> exists|k: int|
        0 <= k < entries.len() && ring_of((#[trigger] entries[k]).1 as nat) == r.rings.last()
}

proof fn lemma_rings_ordered(entries: Seq<(u32, u64)>, cands: Set<u32>)
    requires
        nearest_first(entries),
    ensures
        rings_ordered(entries, run_over(entries, cands)),
    decreases entries.len(),
{
    if entries.len() > 0 {
        let front = entries.drop_last();
        lemma_rings_ordered(front, cands);
        let s = run_over(front, cands);
        let last = entries.len() - 1;
        let id = entries[last].0;
        let d = entries[last].1;
        let r = run_step(s, id, d);
        assert(r == run_over(entries, cands));
        assert forall|k: int| 0 <= k < front.len() implies #[trigger] front[k] == entries[k] by {}
        if s.remaining.contains(id) {
            if s.rings.len() > 0 {
                let k0 = choose|k: int|
                    0 <= k < front.len() && ring_of((#[trigger] front[k]).1 as nat) == s.rings.last();
                assert(entries[k0].1 <= d);
                lemma_ring_monotone(entries[k0].1 as nat, d as nat);
            }
            assert forall|i: int, x: u32|
                0 <= i < r.buckets.len() && #[trigger] r.buckets[i].contains(x) implies exists|k: int|
                    0 <= k < entries.len() && (#[trigger] entries[k]).0 == x && ring_of(entries[k].1 as nat)
                        == r.rings[i] by {
                if x == id && (i == r.buckets.len() - 1) && ring_of(d as nat) == r.rings[i] {
                    assert(entries[last].0 == x);
                } else {
                    assert(s.buckets[i].contains(x));
                    let k = choose|k: int|
                        0 <= k < front.len() && (#[trigger] front[k]).0 == x && ring_of(front[k].1 as nat)
                            == s.rings[i];
                    assert(entries[k] == front[k]);
                }
            }
            assert(ring_of(entries[last].1 as nat) == ring_of(d as nat));
            assert(r.rings.len() > 0);
            if s.buckets.len() > 0 && ring_of(d as nat) == s.rings.last() {
                let k0 = choose|k: int|
                    0 <= k < front.len() && ring_of((#[trigger] front[k]).1 as nat) == s.rings.last();
                assert(entries[k0] == front[k0]);
            } else {
                assert(r.rings.last() == ring_of(entries[last].1 as nat));
            }
        } else {
            assert forall|i: int, x: u32|
                0 <= i < r.buckets.len() && #[trigger] r.buckets[i].contains(x) implies exists|k: int|
                    0 <= k < entries.len() && (#[trigger] entries[k]).0 == x && ring_of(entries[k].1 as nat)
                        == r.rings[i] by {
                let k = choose|k: int|
                    0 <= k < front.len() && (#[trigger] front[k]).0 == x && ring_of(front[k].1 as nat)
                        == s.rings[i];
                assert(entries[k] == front[k]);
            }
            if r.rings.len() > 0 {
                let k0 = choose|k: int|
                    0 <= k < front.len() && ring_of((#[trigger] front[k]).1 as nat) == s.rings.last();
                assert(entries[k0] == front[k0]);
            }
        }
    }
}

/// Ordering: over a nearest-first enumeration, each bucket's ring lies beyond
/// the ring of every earlier bucket, and every id of an earlier bucket was met
/// at a distance below the lower bound of the ring of each later bucket.
pub proof fn lemma_ascending_order(entries: Seq<(u32, u64)>, cands: Set<u32>)
    requires
        nearest_first(entries),
    ensures
        ({
            let r = run_over(entries, cands);
            &&& forall|i: int, j: int|
                0 <= i < j < r.rings.len() ==> #[trigger] r.rings[i] < #[trigger] r.rings[j]
            &&& forall|i: int, j: int, id: u32|
                0 <= i < j < r.buckets.len() && #[trigger] r.buckets[i].contains(id)
                    ==> exists|k: int|
                    0 <= k < entries.len() && (#[trigger] entries[k]).0 == id && entries[k].1
                        < ring_lower(#[trigger] r.rings[j])
        }),
{
    lemma_rings_ordered(entries, cands);
    let r = run_over(entries, cands);
    assert forall|i: int, j: int, id: u32|
        0 <= i < j < r.buckets.len() && #[trigger] r.buckets[i].contains(id) implies exists|k: int|
            0 <= k < entries.len() && (#[trigger] entries[k]).0 == id && entries[k].1
                < ring_lower(#[trigger] r.rings[j]) by {
        let k = choose|k: int|
            0 <= k < entries.len() && (#[trigger] entries[k]).0 == id && ring_of(entries[k].1 as nat)
                == r.rings[i];
        assert(r.rings[i] < r.rings[j]);
        assert(r.rings[j] < RING_COUNT);
        lemma_below_ring(entries[k].1 as nat, r.rings[j]);
    }
}

/// Symmetry: descending emission is exactly the ascending sequence reversed.
pub proof fn lemma_descending_reverses(entries: Seq<(u32, u64)>, cands: Set<u32>)
    ensures
        geo_order(entries, cands, false) == geo_order(entries, cands, true).reverse(),
{
}

/// A distance in millimeters rounded to the nearest meter, halves up.
pub open spec fn round_to_meters(mm: nat) -> nat {
    (mm + 500) / 1000
}

/// Whether a distance in millimeters lies within half a meter of the bound
/// between two rings.
pub open spec fn near_ring_bound(mm: nat) -> bool {
    exists|i: nat| i + 1 < RING_COUNT && 1000 * ring_upper(i) <= mm + 500 && mm < 1000 * ring_upper(i) + 500
}

proof fn lemma_floor_below(x: nat, b: nat)
    ensures
        x / 1000 < b <==> x < 1000 * b,
{
    assert(x / 1000 < b <==> x < 1000 * b) by (nonlinear_arith);
}

/// Rounding keeps the ring: a true distance that is not within half a meter
/// of a ring bound falls, once rounded to meters, in the ring that holds it.
pub proof fn lemma_rounding_keeps_ring(mm: nat)
    requires
        !near_ring_bound(mm),
    ensures
        ring_of(round_to_meters(mm)) == ring_of(mm / 1000),
{
    let r = round_to_meters(mm);
    let t = mm / 1000;
    assert forall|i: nat| i + 1 < RING_COUNT implies (r < #[trigger] ring_upper(i) <==> t < ring_upper(i)) by {
        lemma_floor_below((mm + 500) as nat, ring_upper(i));
        lemma_floor_below(mm, ring_upper(i));
        assert(!(1000 * ring_upper(i) <= mm + 500 && mm < 1000 * ring_upper(i) + 500));
    }
    assert(r < ring_upper(0) <==> t < ring_upper(0));
    assert(r < ring_upper(1) <==> t < ring_upper(1));
    assert(r < ring_upper(2) <==> t < ring_upper(2));
    assert(r < ring_upper(3) <==> t < ring_upper(3));
    assert(r < ring_upper(4) <==> t < ring_upper(4));
    assert(r < ring_upper(5) <==> t < ring_upper(5));
    assert(r < ring_upper(6) <==> t < ring_upper(6));
    assert(r < ring_upper(7) <==> t < ring_upper(7));
    assert(r < ring_upper(8) <==> t < ring_upper(8));
    assert(r < ring_upper(9) <==> t < ring_upper(9));
    assert(r < ring_upper(10) <==> t < ring_upper(10));
    assert(r < ring_upper(11) <==> t < ring_upper(11));
}

/// Rounding keeps the order of rings: of two true distances, the farther one
/// never lands, once rounded, in a nearer ring.
pub proof fn lemma_rounding_keeps_order(mm1: nat, mm2: nat)
    requires
        mm1 <= mm2,
    ensures
        ring_of(round_to_meters(mm1)) <= ring_of(round_to_meters(mm2)),
{
    assert((mm1 + 500) / 1000 <= (mm2 + 500) / 1000) by (nonlinear_arith)
        requires
            mm1 <= mm2,
    ;
    lemma_ring_monotone(round_to_meters(mm1), round_to_meters(mm2));
}

} // verus!
