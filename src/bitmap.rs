//! Candidate sets of document ids, held in roaring bitmaps.
use roaring::RoaringBitmap;
use vstd::prelude::*;

verus! {

#[verifier::external_type_specification]
#[verifier::external_body]
pub struct ExRoaringBitmap(RoaringBitmap);

/// The set of document ids that a bitmap holds.
pub uninterp spec fn ids(b: RoaringBitmap) -> Set<u32>;

/// Relies on `RoaringBitmap::new`: the bitmap it makes holds no id.
#[verifier::external_body]
pub(crate) fn empty_bitmap() -> (r: RoaringBitmap)
    ensures
        ids(r) == Set::<u32>::empty(),
{
    RoaringBitmap::new()
}

/// Relies on `RoaringBitmap::insert`: the id is added; the result tells whether it was absent.
#[verifier::external_body]
pub(crate) fn bitmap_insert(b: &mut RoaringBitmap, id: u32) -> (r: bool)
    ensures
        ids(*final(b)) == ids(*old(b)).insert(id),
        r == !ids(*old(b)).contains(id),
{
    b.insert(id)
}

/// Relies on `RoaringBitmap::remove`: the id is taken out; the result tells whether it was present.
#[verifier::external_body]
pub(crate) fn bitmap_remove(b: &mut RoaringBitmap, id: u32) -> (r: bool)
    ensures
        ids(*final(b)) == ids(*old(b)).remove(id),
        r == ids(*old(b)).contains(id),
{
    b.remove(id)
}

/// Relies on `RoaringBitmap::is_empty`: whether the bitmap holds no id.
#[verifier::external_body]
pub(crate) fn bitmap_is_empty(b: &RoaringBitmap) -> (r: bool)
    ensures
        r == (ids(*b) == Set::<u32>::empty()),
{
    b.is_empty()
}

/// Relies on `Clone for RoaringBitmap`: the copy holds the same ids.
#[verifier::external_body]
pub(crate) fn bitmap_clone(b: &RoaringBitmap) -> (r: RoaringBitmap)
    ensures
        ids(r) == ids(*b),
{
    b.clone()
}

/// Relies on `SubAssign<&RoaringBitmap> for RoaringBitmap`: set difference in place.
#[verifier::external_body]
pub(crate) fn bitmap_subtract(b: &mut RoaringBitmap, other: &RoaringBitmap)
    ensures
        ids(*final(b)) == ids(*old(b)).difference(ids(*other)),
{
    *b -= other;
}

/// Relies on `BitAndAssign<RoaringBitmap> for RoaringBitmap`: set intersection in place.
#[verifier::external_body]
pub(crate) fn bitmap_intersect(b: &mut RoaringBitmap, other: RoaringBitmap)
    ensures
        ids(*final(b)) == ids(*old(b)).intersect(ids(other)),
{
    *b &= other;
}

/// Relies on `BitOrAssign<RoaringBitmap> for RoaringBitmap`: set union in place.
#[verifier::external_body]
pub(crate) fn bitmap_union(b: &mut RoaringBitmap, other: RoaringBitmap)
    ensures
        ids(*final(b)) == ids(*old(b)).union(ids(other)),
{
    *b |= other;
}

/// Relies on `Sub<&RoaringBitmap> for &RoaringBitmap`: a new bitmap holding the set difference.
#[verifier::external_body]
pub(crate) fn bitmap_difference(b: &RoaringBitmap, other: &RoaringBitmap) -> (r: RoaringBitmap)
    ensures
        ids(r) == ids(*b).difference(ids(*other)),
{
    b - other
}

} // verus!
