//! The set of freed cache-line indices, kept in a `roaring::RoaringBitmap`.
//!
//! The items here are trusted: their contracts restate what the `roaring` crate documents of
//! `RoaringBitmap::new`, `RoaringBitmap::min` and `RoaringBitmap::insert`, which they call.
use vstd::prelude::*;

use roaring::RoaringBitmap;

verus! {

/// Declares `roaring::RoaringBitmap` to Verus as an opaque type.
#[verifier::external_type_specification]
#[verifier::external_body]
pub struct ExRoaringBitmap(RoaringBitmap);

/// The set of `u32` values that a `RoaringBitmap` holds.
pub uninterp spec fn roaring_contents(bitmap: RoaringBitmap) -> Set<u32>;

/// The least element of a set of `u32` values (meaningful for a nonempty set).
pub open spec fn set_min(s: Set<u32>) -> u32 {
    choose|m: u32| s.contains(m) && forall|x: u32| s.contains(x) ==> m <= x
}

/// Calls `RoaringBitmap::new`, which creates an empty bitmap.
#[verifier::external_body]
pub(crate) fn bitmap_new() -> (bitmap: RoaringBitmap)
    ensures
        roaring_contents(bitmap) == Set::<u32>::empty(),
{
    RoaringBitmap::new()
}

/// Calls `RoaringBitmap::min`, which returns the least value held, or `None` when the bitmap
/// is empty.
#[verifier::external_body]
pub(crate) fn bitmap_min(bitmap: &RoaringBitmap) -> (least: Option<u32>)
    ensures
        match least {
            None => roaring_contents(*bitmap) == Set::<u32>::empty(),
            Some(m) => roaring_contents(*bitmap).contains(m) && forall|x: u32|
                roaring_contents(*bitmap).contains(x) ==> m <= x,
        },
{
    bitmap.min()
}

/// Calls `RoaringBitmap::insert`, which adds `value` and returns whether it was absent.
#[verifier::external_body]
pub(crate) fn bitmap_insert(bitmap: &mut RoaringBitmap, value: u32) -> (was_absent: bool)
    ensures
        roaring_contents(*final(bitmap)) == roaring_contents(*old(bitmap)).insert(value),
        was_absent == !roaring_contents(*old(bitmap)).contains(value),
{
    bitmap.insert(value)
}

/// The least element of a set is unique.
pub proof fn lemma_set_min(s: Set<u32>, m: u32)
    requires
        s.contains(m),
        forall|x: u32| s.contains(x) ==> m <= x,
    ensures
        set_min(s) == m,
{
    let c = set_min(s);
    assert(s.contains(c) && forall|x: u32| s.contains(x) ==> c <= x);
}

} // verus!
