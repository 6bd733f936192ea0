//! The geo criterion: one link of the ranking chain.
//!
//! The caller drives it. It asks `next_bucket` for a bucket; when none is
//! pending it pulls a batch from the parent criterion, resolves it into a
//! candidate set and hands it to `accept_batch`. Where that asks for it, the
//! caller walks the spatial index nearest first, feeding `locate` until it
//! answers that every candidate is located, then calls `finish_locating`,
//! and asks `next_bucket` again.
use crate::bitmap::{
    bitmap_clone, bitmap_difference, bitmap_intersect, bitmap_is_empty, bitmap_subtract,
    bitmap_union, empty_bitmap, ids,
};
use crate::bucketer::{
    bucket_sets, geo_order, in_direction, run_over, DistanceBucketer,
};
use crate::laws::lemma_run_partition;
use roaring::RoaringBitmap;
use vstd::prelude::*;

verus! {

/// One unit emitted by a criterion of the chain.
pub struct CriterionResult {
    /// The ids of the bucket, where they are given explicitly.
    pub candidates: Option<RoaringBitmap>,
    /// A restriction that applies to the candidates.
    pub filtered_candidates: Option<RoaringBitmap>,
    /// Everything seen so far in this logical bucket, for counting.
    pub bucket_candidates: Option<RoaringBitmap>,
}

/// Where the candidate set of a parent's batch comes from.
#[derive(PartialEq, Eq, Structural, Clone, Copy, Debug)]
pub enum CandidateSource {
    /// The explicit candidate set the parent gave.
    Explicit,
    /// The resolution of the parent's residual query expression.
    QueryTree,
    /// Every document of the dataset.
    AllDocuments,
}

pub open spec fn source_of(has_candidates: bool, has_query_tree: bool) -> CandidateSource {
    if has_candidates {
        CandidateSource::Explicit
    } else if has_query_tree {
        CandidateSource::QueryTree
    } else {
        CandidateSource::AllDocuments
    }
}

/// How a parent's batch is to be resolved: the explicit set wins over the
/// query expression, which wins over the whole dataset.
pub fn candidate_source(has_candidates: bool, has_query_tree: bool) -> (r: CandidateSource)
    ensures
        r == source_of(has_candidates, has_query_tree),
{
    if has_candidates {
        CandidateSource::Explicit
    } else if has_query_tree {
        CandidateSource::QueryTree
    } else {
        CandidateSource::AllDocuments
    }
}

/// What became of a batch handed to `accept_batch`.
#[derive(PartialEq, Eq, Structural, Clone, Copy, Debug)]
pub enum BatchStep {
    /// It resolved to no candidate: pull the parent again.
    Empty,
    /// There is no spatial index: its candidates are dropped, pull the parent again.
    Unlocatable,
    /// Feed the spatial index's neighbours to `locate`, then call `finish_locating`.
    Locate,
}

/// What a geo criterion holds, as sets and sequences.
pub struct GeoView {
    pub ascending: bool,
    pub has_index: bool,
    /// Ids of the current batch not emitted yet.
    pub allowed: Set<u32>,
    /// Cumulative statistic of every id seen.
    pub bucket_candidates: Set<u32>,
    /// Buckets of the current batch, in emission order.
    pub pending: Seq<Set<u32>>,
    /// How many of `pending` were emitted.
    pub cursor: nat,
    /// The current batch: its resolved candidates less the excluded ids.
    pub batch: Set<u32>,
    /// The ids emitted from the current batch.
    pub emitted: Set<u32>,
    /// Whether the neighbours of the spatial index are being fed.
    pub locating: bool,
    /// The neighbours fed for the current batch.
    pub fed: Seq<(u32, u64)>,
}

/// The candidates of a batch after the optional filter.
pub open spec fn restricted(candidates: Set<u32>, filtered: Option<RoaringBitmap>) -> Set<u32> {
    match filtered {
        Some(f) => candidates.intersect(ids(f)),
        None => candidates,
    }
}

/// What a batch adds to the cumulative statistic.
pub open spec fn seen_by(resolved: Set<u32>, parent_bucket_candidates: Option<RoaringBitmap>) -> Set<
    u32,
> {
    match parent_bucket_candidates {
        Some(b) => ids(b),
        None => resolved,
    }
}

/// Geo-distance ranking criterion.
pub struct Geo {
    ascending: bool,
    has_index: bool,
    allowed_candidates: RoaringBitmap,
    bucket_candidates: RoaringBitmap,
    pending: Vec<RoaringBitmap>,
    cursor: usize,
    locator: Option<DistanceBucketer>,
    batch: Ghost<Set<u32>>,
    emitted: Ghost<Set<u32>>,
    fed: Ghost<Seq<(u32, u64)>>,
}

impl View for Geo {
    type V = GeoView;

    closed spec fn view(&self) -> GeoView {
        GeoView {
            ascending: self.ascending,
            has_index: self.has_index,
            allowed: ids(self.allowed_candidates),
            bucket_candidates: ids(self.bucket_candidates),
            pending: bucket_sets(self.pending@),
            cursor: self.cursor as nat,
            batch: self.batch@,
            emitted: self.emitted@,
            locating: self.locator is Some,
            fed: self.fed@,
        }
    }
}

impl Geo {
    /// The state is consistent: the emitted ids and the allowed ids split the
    /// batch, and the pending buckets are disjoint allowed ids.
    pub closed spec fn wf(&self) -> bool {
        let v = self@;
        &&& v.cursor <= v.pending.len()
        &&& v.allowed == v.batch.difference(v.emitted)
        &&& v.emitted.subset_of(v.batch)
        &&& forall|k: int| v.cursor <= k < v.pending.len() ==> (#[trigger] v.pending[k]).subset_of(v.allowed)
        &&& forall|k1: int, k2: int|
            v.cursor <= k1 < v.pending.len() && v.cursor <= k2 < v.pending.len() && k1 != k2
                ==> (#[trigger] v.pending[k1]).disjoint(#[trigger] v.pending[k2])
        &&& v.locating ==> {
            &&& self.locator->0.wf()
            &&& self.locator->0@ == run_over(v.fed, v.allowed)
            &&& v.cursor == v.pending.len()
        }
    }

    fn new(geo_faceted: RoaringBitmap, has_index: bool, ascending: bool) -> (r: Self)
        ensures
            r.wf(),
            r@.ascending == ascending,
            r@.has_index == has_index,
            r@.allowed == ids(geo_faceted),
            r@.batch == ids(geo_faceted),
            r@.emitted == Set::<u32>::empty(),
            r@.bucket_candidates == Set::<u32>::empty(),
            r@.pending == Seq::<Set<u32>>::empty(),
            r@.cursor == 0,
            !r@.locating,
    {
        let g = Geo {
            ascending,
            has_index,
            allowed_candidates: geo_faceted,
            bucket_candidates: empty_bitmap(),
            pending: Vec::new(),
            cursor: 0,
            locator: None,
            batch: Ghost(ids(geo_faceted)),
            emitted: Ghost(Set::empty()),
            fed: Ghost(Seq::empty()),
        };
        assert(g@.pending =~= Seq::<Set<u32>>::empty());
        assert(g@.allowed =~= g@.batch.difference(g@.emitted));
        g
    }

    /// A criterion that emits the nearest bucket first. `geo_faceted` holds the
    /// ids that carry coordinates; `has_index` tells whether a spatial index exists.
    pub fn asc(geo_faceted: RoaringBitmap, has_index: bool) -> (r: Self)
        ensures
            r.wf(),
            r@.ascending,
            r@.has_index == has_index,
            r@.allowed == ids(geo_faceted),
            r@.batch == ids(geo_faceted),
            r@.emitted == Set::<u32>::empty(),
            r@.bucket_candidates == Set::<u32>::empty(),
            r@.pending == Seq::<Set<u32>>::empty(),
            r@.cursor == 0,
            !r@.locating,
    {
        Self::new(geo_faceted, has_index, true)
    }

    /// A criterion that emits the farthest bucket first.
    pub fn desc(geo_faceted: RoaringBitmap, has_index: bool) -> (r: Self)
        ensures
            r.wf(),
            !r@.ascending,
            r@.has_index == has_index,
            r@.allowed == ids(geo_faceted),
            r@.batch == ids(geo_faceted),
            r@.emitted == Set::<u32>::empty(),
            r@.bucket_candidates == Set::<u32>::empty(),
            r@.pending == Seq::<Set<u32>>::empty(),
            r@.cursor == 0,
            !r@.locating,
    {
        Self::new(geo_faceted, has_index, false)
    }

    /// Emits the next pending bucket, less the ids excluded by now, and takes
    /// it out of the allowed ids; `None` when no bucket is pending.
    pub fn next_bucket(&mut self, excluded: &RoaringBitmap) -> (r: Option<CriterionResult>)
        requires
            old(self).wf(),
            !old(self)@.locating,
        ensures
            final(self).wf(),
            r is None <==> old(self)@.cursor == old(self)@.pending.len(),
            r is None ==> final(self)@ == old(self)@,
            r is Some ==> ({
                let v = old(self)@;
                let b = v.pending[v.cursor as int].difference(ids(*excluded));
                let res = r->0;
                &&& res.candidates is Some
                &&& ids(res.candidates->0) == b
                &&& res.filtered_candidates is None
                &&& res.bucket_candidates is Some
                &&& ids(res.bucket_candidates->0) == v.bucket_candidates
                &&& b.subset_of(v.allowed)
                &&& b.disjoint(ids(*excluded))
                &&& b.disjoint(v.emitted)
                &&& final(self)@ == (GeoView {
                    allowed: v.allowed.difference(b),
                    emitted: v.emitted.union(b),
                    cursor: v.cursor + 1,
                    ..v
                })
            }),
    {
        if self.cursor < self.pending.len() {
            let ghost v = self@;
            let mut bucket = bitmap_clone(&self.pending[self.cursor]);
            bitmap_subtract(&mut bucket, excluded);
            let ghost b = ids(bucket);
            assert(v.pending[v.cursor as int] == ids(self.pending@[v.cursor as int]));
            bitmap_subtract(&mut self.allowed_candidates, &bucket);
            self.cursor = self.cursor + 1;
            self.emitted = Ghost(self.emitted@.union(b));
            let snapshot = bitmap_clone(&self.bucket_candidates);
            proof {
                let w = self@;
                assert(w.allowed =~= w.batch.difference(w.emitted));
                assert forall|k: int| w.cursor <= k < w.pending.len() implies (#[trigger] w.pending[k]).subset_of(w.allowed) by {
                    assert(v.pending[k].subset_of(v.allowed));
                    assert(v.pending[k].disjoint(v.pending[v.cursor as int]));
                }
                assert(w == (GeoView {
                    allowed: v.allowed.difference(b),
                    emitted: v.emitted.union(b),
                    cursor: v.cursor + 1,
                    ..v
                }));
            }
            Some(CriterionResult {
                candidates: Some(bucket),
                filtered_candidates: None,
                bucket_candidates: Some(snapshot),
            })
        } else {
            None
        }
    }

    /// Takes a batch of the parent, resolved into `candidates`: restricts it by
    /// the filter, adds to the statistic, and, when it is not empty, makes its
    /// ids less the excluded ones the allowed ids of a new batch.
    pub fn accept_batch(
        &mut self,
        candidates: RoaringBitmap,
        filtered_candidates: Option<RoaringBitmap>,
        bucket_candidates: Option<RoaringBitmap>,
        excluded: &RoaringBitmap,
    ) -> (r: BatchStep)
        requires
            old(self).wf(),
            !old(self)@.locating,
            old(self)@.cursor == old(self)@.pending.len(),
        ensures
            final(self).wf(),
            ({
                let v = old(self)@;
                let resolved = restricted(ids(candidates), filtered_candidates);
                let seen = v.bucket_candidates.union(seen_by(resolved, bucket_candidates));
                &&& resolved == Set::<u32>::empty() ==> r == BatchStep::Empty && final(self)@
                    == (GeoView { bucket_candidates: seen, ..v })
                &&& resolved != Set::<u32>::empty() ==> final(self)@ == (GeoView {
                    allowed: resolved.difference(ids(*excluded)),
                    bucket_candidates: seen,
                    pending: Seq::empty(),
                    cursor: 0,
                    batch: resolved.difference(ids(*excluded)),
                    emitted: Set::empty(),
                    locating: v.has_index,
                    fed: Seq::empty(),
                    ..v
                }) && r == (if v.has_index {
                    BatchStep::Locate
                } else {
                    BatchStep::Unlocatable
                })
            }),
    {
        let mut resolved = candidates;
        match filtered_candidates {
            Some(f) => bitmap_intersect(&mut resolved, f),
            None => {},
        }
        match bucket_candidates {
            Some(b) => bitmap_union(&mut self.bucket_candidates, b),
            None => {
                let seen = bitmap_clone(&resolved);
                bitmap_union(&mut self.bucket_candidates, seen);
            },
        }
        if bitmap_is_empty(&resolved) {
            return BatchStep::Empty;
        }
        self.allowed_candidates = bitmap_difference(&resolved, excluded);
        self.pending = Vec::new();
        self.cursor = 0;
        self.batch = Ghost(ids(self.allowed_candidates));
        self.emitted = Ghost(Set::empty());
        self.fed = Ghost(Seq::empty());
        assert(self@.pending =~= Seq::<Set<u32>>::empty());
        assert(self@.allowed =~= self@.batch.difference(self@.emitted));
        if self.has_index {
            self.locator = Some(DistanceBucketer::new(bitmap_clone(&self.allowed_candidates)));
            BatchStep::Locate
        } else {
            BatchStep::Unlocatable
        }
    }

    /// Feeds the next neighbour of the spatial index, nearest first, with its
    /// distance in whole meters; returns whether candidates are still unlocated.
    pub fn locate(&mut self, id: u32, distance: u64) -> (more: bool)
        requires
            old(self).wf(),
            old(self)@.locating,
        ensures
            final(self).wf(),
            final(self)@ == (GeoView { fed: old(self)@.fed.push((id, distance)), ..old(self)@ }),
            more == (run_over(final(self)@.fed, final(self)@.allowed).remaining != Set::<u32>::empty()),
    {
        let mut run = self.locator.take().unwrap();
        let more = run.push(id, distance);
        self.locator = Some(run);
        let ghost before = self.fed@;
        self.fed = Ghost(self.fed@.push((id, distance)));
        assert(self.fed@.drop_last() =~= before);
        more
    }

    /// Ends the walk of the spatial index: the buckets of the batch become the
    /// pending ones, in emission order.
    pub fn finish_locating(&mut self)
        requires
            old(self).wf(),
            old(self)@.locating,
        ensures
            final(self).wf(),
            final(self)@ == (GeoView {
                pending: geo_order(old(self)@.fed, old(self)@.allowed, old(self)@.ascending),
                cursor: 0,
                locating: false,
                ..old(self)@
            }),
    {
        let ghost v = self@;
        let run = self.locator.take().unwrap();
        self.pending = run.finish(self.ascending);
        self.cursor = 0;
        proof {
            lemma_run_partition(v.fed, v.allowed);
            let r = run_over(v.fed, v.allowed);
            let w = self@;
            assert(w.pending == in_direction(r.buckets, v.ascending));
            let n = r.buckets.len();
            assert forall|k: int| w.cursor <= k < w.pending.len() implies (#[trigger] w.pending[k]).subset_of(w.allowed) by {
                let i = if v.ascending { k } else { n - 1 - k };
                assert(w.pending[k] == r.buckets[i]);
                assert forall|x: u32| r.buckets[i].contains(x) implies w.allowed.contains(x) by {
                    assert(v.allowed.contains(x));
                }
            }
            assert forall|k1: int, k2: int|
                w.cursor <= k1 < w.pending.len() && w.cursor <= k2 < w.pending.len() && k1 != k2
                    implies (#[trigger] w.pending[k1]).disjoint(#[trigger] w.pending[k2]) by {
                let i1 = if v.ascending { k1 } else { n - 1 - k1 };
                let i2 = if v.ascending { k2 } else { n - 1 - k2 };
                assert(w.pending[k1] == r.buckets[i1]);
                assert(w.pending[k2] == r.buckets[i2]);
                if i1 < i2 {
                    assert(r.buckets[i1].disjoint(r.buckets[i2]));
                } else {
                    assert(r.buckets[i2].disjoint(r.buckets[i1]));
                }
            }
        }
    }
}

/// Partition of a batch: at every step the ids emitted from the current batch
/// and the ids still allowed split the batch (its resolved candidates less the
/// excluded ids), no id is in both, and no two pending buckets share an id.
pub proof fn lemma_batch_partition(g: &Geo)
    requires
        g.wf(),
    ensures
        g@.emitted.union(g@.allowed) == g@.batch,
        g@.emitted.disjoint(g@.allowed),
        forall|k1: int, k2: int|
            g@.cursor <= k1 < g@.pending.len() && g@.cursor <= k2 < g@.pending.len() && k1 != k2
                ==> (#[trigger] g@.pending[k1]).disjoint(#[trigger] g@.pending[k2]),
        forall|k: int| g@.cursor <= k < g@.pending.len() ==> (#[trigger] g@.pending[k]).subset_of(g@.allowed),
{
    assert(g@.emitted.union(g@.allowed) =~= g@.batch);
}

} // verus!
