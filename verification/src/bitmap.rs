//! The sets of vector ids that the inverted index keeps, held in
//! `roaring::RoaringBitmap`.

use vstd::prelude::*;
use roaring::RoaringBitmap;

verus! {

#[verifier::external_type_specification]
#[verifier::external_body]
pub struct ExRoaringBitmap(RoaringBitmap);

/// The ids a bitmap holds.
pub uninterp spec fn bitmap_ids(b: RoaringBitmap) -> Set<u32>;

/// `RoaringBitmap::new`: a bitmap that holds no id.
#[verifier::external_body]
pub(crate) fn bitmap_new() -> (r: RoaringBitmap)
    ensures
        bitmap_ids(r) == Set::<u32>::empty(),
{
    RoaringBitmap::new()
}

/// `RoaringBitmap::insert`: adds `x`; tells whether it was absent.
#[verifier::external_body]
pub(crate) fn bitmap_insert(b: &mut RoaringBitmap, x: u32) -> (r: bool)
    ensures
        bitmap_ids(*final(b)) == bitmap_ids(*old(b)).insert(x),
        r == !bitmap_ids(*old(b)).contains(x),
{
    b.insert(x)
}

/// `RoaringBitmap::remove`: drops `x`; tells whether it was present.
#[verifier::external_body]
pub(crate) fn bitmap_remove(b: &mut RoaringBitmap, x: u32) -> (r: bool)
    ensures
        bitmap_ids(*final(b)) == bitmap_ids(*old(b)).remove(x),
        r == bitmap_ids(*old(b)).contains(x),
{
    b.remove(x)
}

/// `RoaringBitmap::contains`: whether `x` is held.
#[verifier::external_body]
pub(crate) fn bitmap_contains(b: &RoaringBitmap, x: u32) -> (r: bool)
    ensures
        r == bitmap_ids(*b).contains(x),
{
    b.contains(x)
}

/// `Clone for RoaringBitmap`: a bitmap holding the same ids.
#[verifier::external_body]
pub(crate) fn bitmap_clone(b: &RoaringBitmap) -> (r: RoaringBitmap)
    ensures
        bitmap_ids(r) == bitmap_ids(*b),
{
    b.clone()
}

/// `BitOrAssign<&RoaringBitmap>`: `a |= b`, the union.
#[verifier::external_body]
pub(crate) fn bitmap_union_with(a: &mut RoaringBitmap, b: &RoaringBitmap)
    ensures
        bitmap_ids(*final(a)) == bitmap_ids(*old(a)).union(bitmap_ids(*b)),
{
    *a |= b;
}

/// `BitAndAssign<&RoaringBitmap>`: `a &= b`, the intersection.
#[verifier::external_body]
pub(crate) fn bitmap_intersect_with(a: &mut RoaringBitmap, b: &RoaringBitmap)
    ensures
        bitmap_ids(*final(a)) == bitmap_ids(*old(a)).intersect(bitmap_ids(*b)),
{
    *a &= b;
}

/// `Sub<&RoaringBitmap> for &RoaringBitmap`: `a - b`, the ids of `a` not in `b`.
#[verifier::external_body]
pub(crate) fn bitmap_difference(a: &RoaringBitmap, b: &RoaringBitmap) -> (r: RoaringBitmap)
    ensures
        bitmap_ids(r) == bitmap_ids(*a).difference(bitmap_ids(*b)),
{
    a - b
}

} // verus!
