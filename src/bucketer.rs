//! Grouping of candidate ids into distance buckets.
//!
//! The input is a nearest-neighbour enumeration: `(id, distance)` pairs, the
//! distance rounded to whole meters, nearest first. Ids that are not (or no
//! longer) candidates are skipped. A candidate whose distance lies in the ring
//! of the bucket opened last joins that bucket; any other candidate opens a new
//! bucket, and the ring of its distance becomes the current one.
use crate::bitmap::{
    bitmap_insert, bitmap_is_empty, bitmap_remove, empty_bitmap, ids,
};
use crate::rings::{ring_index, ring_of, RING_COUNT};
use roaring::RoaringBitmap;
use vstd::prelude::*;

verus! {

/// State of one bucketing run: the buckets opened so far, nearest first, the
/// ring that opened each of them, and the candidates not yet located.
pub struct BucketRun {
    pub buckets: Seq<Set<u32>>,
    pub rings: Seq<nat>,
    pub remaining: Set<u32>,
}

/// A run that has seen no neighbour yet.
pub open spec fn start_run(cands: Set<u32>) -> BucketRun {
    BucketRun { buckets: Seq::empty(), rings: Seq::empty(), remaining: cands }
}

/// A run after it has seen one more neighbour `id` at distance `d`.
pub open spec fn run_step(s: BucketRun, id: u32, d: u64) -> BucketRun {
    if !s.remaining.contains(id) {
        s
    } else if s.buckets.len() > 0 && ring_of(d as nat) == s.rings.last() {
        BucketRun {
            buckets: s.buckets.update(s.buckets.len() - 1, s.buckets.last().insert(id)),
            rings: s.rings,
            remaining: s.remaining.remove(id),
        }
    } else {
        BucketRun {
            buckets: s.buckets.push(set![id]),
            rings: s.rings.push(ring_of(d as nat)),
            remaining: s.remaining.remove(id),
        }
    }
}

/// A run over a whole enumeration.
pub open spec fn run_over(entries: Seq<(u32, u64)>, cands: Set<u32>) -> BucketRun
    decreases entries.len(),
{
    if entries.len() == 0 {
        start_run(cands)
    } else {
        run_step(run_over(entries.drop_last(), cands), entries.last().0, entries.last().1)
    }
}

/// Buckets nearest first when ascending, farthest first otherwise.
pub open spec fn in_direction(buckets: Seq<Set<u32>>, ascending: bool) -> Seq<Set<u32>> {
    if ascending {
        buckets
    } else {
        buckets.reverse()
    }
}

/// The buckets of a run over `entries` on candidates `cands`, in emission order.
pub open spec fn geo_order(entries: Seq<(u32, u64)>, cands: Set<u32>, ascending: bool) -> Seq<
    Set<u32>,
> {
    in_direction(run_over(entries, cands).buckets, ascending)
}

/// The id sets of a sequence of bitmaps.
pub open spec fn bucket_sets(v: Seq<RoaringBitmap>) -> Seq<Set<u32>> {
    v.map_values(|b: RoaringBitmap| ids(b))
}

/// Whether the distances of an enumeration never decrease.
pub open spec fn nearest_first(entries: Seq<(u32, u64)>) -> bool {
    forall|i: int, j: int| 0 <= i <= j < entries.len() ==> entries[i].1 <= entries[j].1
}

/// Once every candidate is located, further neighbours change nothing.
pub proof fn lemma_run_settled(entries: Seq<(u32, u64)>, cands: Set<u32>, n: nat)
    requires
        n <= entries.len(),
        run_over(entries.take(n as int), cands).remaining == Set::<u32>::empty(),
    ensures
        run_over(entries, cands) == run_over(entries.take(n as int), cands),
    decreases entries.len(),
{
    if n < entries.len() {
        let front = entries.drop_last();
        assert(front.take(n as int) =~= entries.take(n as int));
        lemma_run_settled(front, cands, n);
    } else {
        assert(entries.take(n as int) =~= entries);
    }
}

/// Incremental bucketing: fed one neighbour at a time, so that the
/// enumeration can stop as soon as every candidate is located.
pub struct DistanceBucketer {
    remaining: RoaringBitmap,
    buckets: Vec<RoaringBitmap>,
    ring: usize,
    rings: Ghost<Seq<nat>>,
}

impl View for DistanceBucketer {
    type V = BucketRun;

    closed spec fn view(&self) -> BucketRun {
        BucketRun {
            buckets: bucket_sets(self.buckets@),
            rings: self.rings@,
            remaining: ids(self.remaining),
        }
    }
}

impl DistanceBucketer {
    /// Internal consistency of the state.
    pub closed spec fn wf(&self) -> bool {
        &&& self.rings@.len() == self.buckets@.len()
        &&& self.buckets@.len() > 0 ==> self.ring as nat == self.rings@.last()
    }

    /// A run on `candidates` that has seen no neighbour yet.
    pub fn new(candidates: RoaringBitmap) -> (r: Self)
        ensures
            r.wf(),
            r@ == start_run(ids(candidates)),
    {
        let r = DistanceBucketer {
            remaining: candidates,
            buckets: Vec::new(),
            ring: 0,
            rings: Ghost(Seq::empty()),
        };
        assert(r@.buckets =~= Seq::<Set<u32>>::empty());
        r
    }

    /// Feeds the next neighbour; returns whether candidates are still unlocated.
    pub fn push(&mut self, id: u32, distance: u64) -> (more: bool)
        requires
            old(self).wf(),
        ensures
            final(self).wf(),
            final(self)@ == run_step(old(self)@, id, distance),
            more == (final(self)@.remaining != Set::<u32>::empty()),
    {
        let ghost before = self@;
        if bitmap_remove(&mut self.remaining, id) {
            let r = ring_index(distance);
            if self.buckets.len() > 0 && r == self.ring {
                let mut last = self.buckets.pop().unwrap();
                bitmap_insert(&mut last, id);
                self.buckets.push(last);
                assert(self@.buckets =~= before.buckets.update(
                    before.buckets.len() - 1,
                    before.buckets.last().insert(id),
                ));
            } else {
                let mut fresh = empty_bitmap();
                bitmap_insert(&mut fresh, id);
                self.buckets.push(fresh);
                self.ring = r;
                self.rings = Ghost(self.rings@.push(r as nat));
                assert(set![id] =~= Set::<u32>::empty().insert(id));
                assert(self@.buckets =~= before.buckets.push(set![id]));
            }
        } else {
            assert(self@.remaining =~= before.remaining);
        }
        !bitmap_is_empty(&self.remaining)
    }

    /// Candidates not located yet.
    pub fn is_done(&self) -> (r: bool)
        ensures
            r == (self@.remaining == Set::<u32>::empty()),
    {
        bitmap_is_empty(&self.remaining)
    }

    /// The buckets, nearest first when ascending, farthest first otherwise.
    pub fn finish(self, ascending: bool) -> (r: Vec<RoaringBitmap>)
        requires
            self.wf(),
        ensures
            bucket_sets(r@) == in_direction(self@.buckets, ascending),
    {
        let DistanceBucketer { remaining: _, buckets, ring: _, rings: _ } = self;
        if ascending {
            buckets
        } else {
            let ghost all = buckets@;
            let mut rest = buckets;
            let mut out: Vec<RoaringBitmap> = Vec::new();
            while rest.len() > 0
                invariant
                    rest@ == all.take(rest@.len() as int),
                    rest@.len() <= all.len(),
                    out@.len() + rest@.len() == all.len(),
                    forall|k: int|
                        0 <= k < out@.len() ==> #[trigger] out@[k] == all[all.len() - 1 - k],
                decreases rest.len(),
            {
                let b = rest.pop().unwrap();
                out.push(b);
                assert(rest@ =~= all.take(rest@.len() as int));
            }
            assert(bucket_sets(out@) =~= bucket_sets(all).reverse());
            out
        }
    }
}

/// Groups `candidates` into distance buckets over the enumeration `neighbors`,
/// in emission order. Stops reading the enumeration once every candidate is
/// located.
pub fn geo_buckets(neighbors: &Vec<(u32, u64)>, candidates: RoaringBitmap, ascending: bool) -> (r:
    Vec<RoaringBitmap>)
    ensures
        bucket_sets(r@) == geo_order(neighbors@, ids(candidates), ascending),
{
    let ghost cands = ids(candidates);
    let mut run = DistanceBucketer::new(candidates);
    let mut i: usize = 0;
    let mut done = false;
    assert(neighbors@.take(0) =~= Seq::<(u32, u64)>::empty());
    while i < neighbors.len() && !done
        invariant
            i <= neighbors@.len(),
            run.wf(),
            run@ == run_over(neighbors@.take(i as int), cands),
            done ==> run@.remaining == Set::<u32>::empty(),
        decreases neighbors@.len() - i,
    {
        let (id, distance) = neighbors[i];
        let more = run.push(id, distance);
        proof {
            let next = neighbors@.take(i + 1);
            assert(next.drop_last() =~= neighbors@.take(i as int));
            assert(next.last() == neighbors@[i as int]);
        }
        i = i + 1;
        done = !more;
    }
    proof {
        if done {
            lemma_run_settled(neighbors@, cands, i as nat);
        } else {
            assert(neighbors@.take(i as int) =~= neighbors@);
        }
    }
    run.finish(ascending)
}

} // verus!
