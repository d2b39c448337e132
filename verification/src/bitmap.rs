//! Sets of row positions, kept as compressed bitmaps by the `roaring` crate.

use roaring::RoaringBitmap;
use vstd::prelude::*;

verus! {

/// A compressed set of `u32`.
#[verifier::external_type_specification]
#[verifier::external_body]
pub struct ExRoaringBitmap(roaring::RoaringBitmap);

/// The members of a bitmap.
pub uninterp spec fn bitmap_set(b: RoaringBitmap) -> Set<u32>;

/// Whether the containers of a bitmap stand in ascending order of their keys,
/// as the operations on it rely on. Only a bitmap that was read from bytes can
/// lack it.
pub uninterp spec fn bitmap_ordered(b: RoaringBitmap) -> bool;

/// The members of the bitmap that the bytes hold, `None` where they hold none.
pub uninterp spec fn bitmap_file_set(bytes: Seq<u8>) -> Option<Set<u32>>;

/// Whether the bytes list the containers in ascending order of their keys.
pub uninterp spec fn bitmap_file_ordered(bytes: Seq<u8>) -> bool;

/// The empty set (`RoaringBitmap::new`).
#[verifier::external_body]
pub(crate) fn empty_bitmap() -> (r: RoaringBitmap)
    ensures
        bitmap_set(r) == Set::<u32>::empty(),
        bitmap_ordered(r),
{
    RoaringBitmap::new()
}

/// Adds a member (`RoaringBitmap::insert`). The result says whether it is new.
#[verifier::external_body]
pub(crate) fn bitmap_insert(b: &mut RoaringBitmap, value: u32) -> (r: bool)
    ensures
        bitmap_ordered(*old(b)) ==> {
            &&& bitmap_ordered(*final(b))
            &&& bitmap_set(*final(b)) == bitmap_set(*old(b)).insert(value)
            &&& r == !bitmap_set(*old(b)).contains(value)
        },
{
    b.insert(value)
}

/// Adds every member of `other` (`RoaringBitmap`'s `|=`).
#[verifier::external_body]
pub(crate) fn bitmap_union(b: &mut RoaringBitmap, other: RoaringBitmap)
    ensures
        bitmap_ordered(*old(b)) && bitmap_ordered(other) ==> {
            &&& bitmap_ordered(*final(b))
            &&& bitmap_set(*final(b)) == bitmap_set(*old(b)).union(bitmap_set(other))
        },
{
    *b |= other;
}

/// Reads a bitmap in the portable format (`RoaringBitmap::deserialize_from`).
/// The reader checks each container, and not that their keys ascend.
#[verifier::external_body]
pub(crate) fn bitmap_read(bytes: &[u8]) -> (r: Option<RoaringBitmap>)
    ensures
        match r {
            Some(b) => bitmap_file_set(bytes@) == Some(bitmap_set(b)) && bitmap_ordered(b)
                == bitmap_file_ordered(bytes@),
            None => bitmap_file_set(bytes@) is None,
        },
{
    RoaringBitmap::deserialize_from(bytes).ok()
}

/// The members in ascending order (`RoaringBitmap::iter`).
#[verifier::external_body]
pub(crate) fn bitmap_members(b: &RoaringBitmap) -> (r: Vec<u32>)
    ensures
        bitmap_ordered(*b) ==> {
            &&& r@.to_set() == bitmap_set(*b)
            &&& forall|i: int, j: int| 0 <= i < j < r.len() ==> r@[i] < r@[j]
        },
{
    b.iter().collect()
}

} // verus!
