//! Geo-distance ranking stage of a multi-criteria document ranking chain.
//!
//! Candidate document ids are grouped into buckets by their distance to a
//! reference point, using a fixed schedule of distance rings that widen with
//! distance, and the buckets are handed out one by one, nearest or farthest
//! first.
pub mod bitmap;
pub mod bucketer;
pub mod criterion;
pub mod laws;
pub mod rings;


pub use bucketer::{geo_buckets, DistanceBucketer};
pub use criterion::{candidate_source, BatchStep, CandidateSource, CriterionResult, Geo};
pub use rings::{ring_index, RING_COUNT};
