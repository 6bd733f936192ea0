use geo_criterion::{
    candidate_source, geo_buckets, ring_index, BatchStep, CandidateSource, CriterionResult,
    DistanceBucketer, Geo, RING_COUNT,
};
use roaring::RoaringBitmap;

fn bitmap(ids: &[u32]) -> RoaringBitmap {
    ids.iter().copied().collect()
}

fn sets(buckets: &[RoaringBitmap]) -> Vec<Vec<u32>> {
    buckets.iter().map(|b| b.iter().collect()).collect()
}

fn scenario() -> Vec<(u32, u64)> {
    vec![(0, 10), (1, 150), (2, 150_000), (3, 150_050), (4, 9_800_000)]
}

fn bucket_of(r: &CriterionResult) -> Vec<u32> {
    r.candidates.as_ref().unwrap().iter().collect()
}

#[test]
fn scenario_ascending_four_buckets() {
    let out = geo_buckets(&scenario(), bitmap(&[0, 1, 2, 3, 4]), true);
    assert_eq!(sets(&out), vec![vec![0], vec![1], vec![2, 3], vec![4]]);
}

#[test]
fn scenario_descending_is_reverse() {
    let asc = geo_buckets(&scenario(), bitmap(&[0, 1, 2, 3, 4]), true);
    let desc = geo_buckets(&scenario(), bitmap(&[0, 1, 2, 3, 4]), false);
    let mut reversed = sets(&asc);
    reversed.reverse();
    assert_eq!(sets(&desc), reversed);
    assert_eq!(sets(&desc), vec![vec![4], vec![2, 3], vec![1], vec![0]]);
}

#[test]
fn ring_boundaries() {
    assert_eq!(RING_COUNT, 13);
    assert_eq!(ring_index(0), 0);
    assert_eq!(ring_index(99), 0);
    assert_eq!(ring_index(100), 1);
    assert_eq!(ring_index(499), 1);
    assert_eq!(ring_index(500), 2);
    assert_eq!(ring_index(1_000), 3);
    assert_eq!(ring_index(10_000), 4);
    assert_eq!(ring_index(20_000), 5);
    assert_eq!(ring_index(50_000), 6);
    assert_eq!(ring_index(100_000), 7);
    assert_eq!(ring_index(199_999), 7);
    assert_eq!(ring_index(200_000), 8);
    assert_eq!(ring_index(500_000), 9);
    assert_eq!(ring_index(1_000_000), 10);
    assert_eq!(ring_index(3_000_000), 11);
    assert_eq!(ring_index(9_999_999), 11);
    assert_eq!(ring_index(10_000_000), 12);
    assert_eq!(ring_index(u64::MAX), 12);
}

#[test]
fn non_candidates_are_skipped() {
    let out = geo_buckets(&scenario(), bitmap(&[1, 3]), true);
    assert_eq!(sets(&out), vec![vec![1], vec![3]]);
}

#[test]
fn each_id_in_one_bucket_only() {
    // the same id met twice is placed once, at its first distance
    let neighbors = vec![(7, 5), (8, 120), (7, 130), (9, 140)];
    let out = geo_buckets(&neighbors, bitmap(&[7, 8, 9]), true);
    assert_eq!(sets(&out), vec![vec![7], vec![8, 9]]);
}

#[test]
fn candidates_missing_from_enumeration_form_no_bucket() {
    let out = geo_buckets(&scenario(), bitmap(&[0, 42]), true);
    assert_eq!(sets(&out), vec![vec![0]]);
}

#[test]
fn empty_candidates_give_no_bucket() {
    let out = geo_buckets(&scenario(), RoaringBitmap::new(), true);
    assert!(out.is_empty());
    let none = geo_buckets(&Vec::new(), bitmap(&[1, 2]), false);
    assert!(none.is_empty());
}

#[test]
fn first_candidate_far_away_opens_first_bucket() {
    let neighbors = vec![(1, 5_000), (2, 9_000), (3, 12_000)];
    let out = geo_buckets(&neighbors, bitmap(&[1, 2, 3]), true);
    assert_eq!(sets(&out), vec![vec![1, 2], vec![3]]);
}

#[test]
fn bucketer_stops_once_all_located() {
    let mut run = DistanceBucketer::new(bitmap(&[1, 2]));
    assert!(!run.is_done());
    assert!(run.push(5, 1));
    assert!(run.push(1, 2));
    assert!(!run.push(2, 700));
    assert!(run.is_done());
    assert_eq!(sets(&run.finish(true)), vec![vec![1], vec![2]]);
}

#[test]
fn candidate_source_precedence() {
    assert_eq!(candidate_source(true, true), CandidateSource::Explicit);
    assert_eq!(candidate_source(true, false), CandidateSource::Explicit);
    assert_eq!(candidate_source(false, true), CandidateSource::QueryTree);
    assert_eq!(candidate_source(false, false), CandidateSource::AllDocuments);
}

fn locate_all(geo: &mut Geo, neighbors: &[(u32, u64)]) {
    for &(id, d) in neighbors {
        if !geo.locate(id, d) {
            break;
        }
    }
    geo.finish_locating();
}

#[test]
fn criterion_emits_scenario_ascending() {
    let mut geo = Geo::asc(bitmap(&[0, 1, 2, 3, 4]), true);
    let excluded = RoaringBitmap::new();
    assert!(geo.next_bucket(&excluded).is_none());
    let step = geo.accept_batch(bitmap(&[0, 1, 2, 3, 4]), None, None, &excluded);
    assert_eq!(step, BatchStep::Locate);
    locate_all(&mut geo, &scenario());
    let mut got = Vec::new();
    while let Some(r) = geo.next_bucket(&excluded) {
        assert!(r.filtered_candidates.is_none());
        assert_eq!(r.bucket_candidates.as_ref().unwrap(), &bitmap(&[0, 1, 2, 3, 4]));
        got.push(bucket_of(&r));
    }
    assert_eq!(got, vec![vec![0], vec![1], vec![2, 3], vec![4]]);
}

#[test]
fn criterion_emits_scenario_descending() {
    let mut geo = Geo::desc(bitmap(&[0, 1, 2, 3, 4]), true);
    let excluded = RoaringBitmap::new();
    let step = geo.accept_batch(bitmap(&[0, 1, 2, 3, 4]), None, None, &excluded);
    assert_eq!(step, BatchStep::Locate);
    locate_all(&mut geo, &scenario());
    let mut got = Vec::new();
    while let Some(r) = geo.next_bucket(&excluded) {
        got.push(bucket_of(&r));
    }
    assert_eq!(got, vec![vec![4], vec![2, 3], vec![1], vec![0]]);
}

#[test]
fn without_index_batch_is_dropped() {
    let mut geo = Geo::asc(bitmap(&[0, 1, 2]), false);
    let excluded = RoaringBitmap::new();
    let step = geo.accept_batch(bitmap(&[0, 1, 2]), None, None, &excluded);
    assert_eq!(step, BatchStep::Unlocatable);
    assert!(geo.next_bucket(&excluded).is_none());
    // the next batch is taken as well, and dropped in the same way
    let step = geo.accept_batch(bitmap(&[5]), None, None, &excluded);
    assert_eq!(step, BatchStep::Unlocatable);
    assert!(geo.next_bucket(&excluded).is_none());
}

#[test]
fn empty_batch_is_skipped_but_counted() {
    let mut geo = Geo::asc(RoaringBitmap::new(), true);
    let excluded = RoaringBitmap::new();
    let step = geo.accept_batch(bitmap(&[1, 2]), Some(bitmap(&[3])), None, &excluded);
    assert_eq!(step, BatchStep::Empty);
    assert!(geo.next_bucket(&excluded).is_none());
    // a non-empty batch then shows the statistic held nothing from the empty one
    let step = geo.accept_batch(bitmap(&[1]), None, None, &excluded);
    assert_eq!(step, BatchStep::Locate);
    locate_all(&mut geo, &[(1, 3)]);
    let r = geo.next_bucket(&excluded).unwrap();
    assert_eq!(r.bucket_candidates.unwrap(), bitmap(&[1]));
}

#[test]
fn filter_and_parent_statistic() {
    let mut geo = Geo::asc(RoaringBitmap::new(), true);
    let excluded = RoaringBitmap::new();
    let step = geo.accept_batch(
        bitmap(&[0, 1, 2, 3]),
        Some(bitmap(&[1, 2, 9])),
        Some(bitmap(&[0, 1, 2, 3, 8])),
        &excluded,
    );
    assert_eq!(step, BatchStep::Locate);
    locate_all(&mut geo, &scenario());
    let first = geo.next_bucket(&excluded).unwrap();
    assert_eq!(bucket_of(&first), vec![1]);
    assert_eq!(first.bucket_candidates.unwrap(), bitmap(&[0, 1, 2, 3, 8]));
    let second = geo.next_bucket(&excluded).unwrap();
    assert_eq!(bucket_of(&second), vec![2]);
    assert!(geo.next_bucket(&excluded).is_none());
}

#[test]
fn excluded_ids_never_emitted() {
    let mut geo = Geo::asc(RoaringBitmap::new(), true);
    let mut excluded = bitmap(&[0]);
    let step = geo.accept_batch(bitmap(&[0, 1, 2, 3, 4]), None, None, &excluded);
    assert_eq!(step, BatchStep::Locate);
    locate_all(&mut geo, &scenario());
    let mut seen = RoaringBitmap::new();
    let mut got = Vec::new();
    // ids excluded after the batch was accepted are left out of later buckets
    excluded.insert(3);
    while let Some(r) = geo.next_bucket(&excluded) {
        let b = r.candidates.unwrap();
        assert!((&b & &excluded).is_empty());
        assert!((&b & &seen).is_empty());
        seen |= &b;
        excluded |= &b;
        got.push(b.iter().collect::<Vec<u32>>());
    }
    assert_eq!(got, vec![vec![1], vec![2], vec![4]]);
    // a second batch with the same ids brings nothing new
    let step = geo.accept_batch(bitmap(&[0, 1, 2, 3, 4]), None, None, &excluded);
    assert_eq!(step, BatchStep::Locate);
    locate_all(&mut geo, &scenario());
    assert!(geo.next_bucket(&excluded).is_none());
}

#[test]
fn rounding_keeps_ring_away_from_bounds() {
    let ring = |meters: f64| ring_index(meters.round() as u64);
    // clear of a bound: rounding keeps the ring of the true distance
    assert_eq!(ring(99.4), 0);
    assert_eq!(ring(100.6), 1);
    assert_eq!(ring(149_999.7), 7);
    assert_eq!(ring(200_000.2), 8);
    // within half a meter below a bound, rounding moves the point up one ring
    assert_eq!(ring(99.6), 1);
    // nearer true distances never land in a farther ring
    assert!(ring(499.4) <= ring(499.5));
}
