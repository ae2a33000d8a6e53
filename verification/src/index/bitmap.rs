//! The compressed bitmap of the `roaring` crate.
//!
//! Nothing is proved here. A bitmap is described by the set of numbers it
//! holds; each function below says what one `roaring` function does to it.

use vstd::prelude::*;

verus! {

#[verifier::external_type_specification]
#[verifier::external_body]
pub struct ExRoaringBitmap(roaring::RoaringBitmap);

/// The numbers in the bitmap.
pub uninterp spec fn bitmap_set(b: roaring::RoaringBitmap) -> Set<u32>;

/// The serialised form of the bitmap. It depends on how the bitmap keeps its
/// numbers, so bitmaps with the same numbers may have different forms.
pub uninterp spec fn bitmap_bytes(b: roaring::RoaringBitmap) -> Seq<u8>;

/// The numbers in the bitmap that `bytes` are the serialised form of, if they
/// are that of one.
pub uninterp spec fn bitmap_decoded(bytes: Seq<u8>) -> Option<Set<u32>>;

/// The numbers ascend strictly.
pub open spec fn numbers_ascend(s: Seq<u32>) -> bool {
    forall|i: int, j: int| 0 <= i < j < s.len() ==> #[trigger] s[i] < #[trigger] s[j]
}

/// `roaring::RoaringBitmap::new`: the empty bitmap.
#[verifier::external_body]
pub(crate) fn bitmap_new() -> (r: roaring::RoaringBitmap)
    ensures
        bitmap_set(r) == Set::<u32>::empty(),
{
    roaring::RoaringBitmap::new()
}

/// `roaring::RoaringBitmap::clone`: a bitmap with the same numbers.
#[verifier::external_body]
pub(crate) fn bitmap_clone(b: &roaring::RoaringBitmap) -> (r: roaring::RoaringBitmap)
    ensures
        bitmap_set(r) == bitmap_set(*b),
{
    b.clone()
}

/// `roaring::RoaringBitmap::insert`: adds a number; whether it was new.
#[verifier::external_body]
pub(crate) fn bitmap_insert(b: &mut roaring::RoaringBitmap, x: u32) -> (r: bool)
    ensures
        bitmap_set(*final(b)) == bitmap_set(*old(b)).insert(x),
        r == !bitmap_set(*old(b)).contains(x),
{
    b.insert(x)
}

/// `roaring::RoaringBitmap::remove`: takes a number out; whether it was there.
#[verifier::external_body]
pub(crate) fn bitmap_remove(b: &mut roaring::RoaringBitmap, x: u32) -> (r: bool)
    ensures
        bitmap_set(*final(b)) == bitmap_set(*old(b)).remove(x),
        r == bitmap_set(*old(b)).contains(x),
{
    b.remove(x)
}

/// `roaring::RoaringBitmap::contains`: whether the number is in the bitmap.
#[verifier::external_body]
pub(crate) fn bitmap_contains(b: &roaring::RoaringBitmap, x: u32) -> (r: bool)
    ensures
        r == bitmap_set(*b).contains(x),
{
    b.contains(x)
}

/// `roaring::RoaringBitmap::len`: how many numbers are in the bitmap.
#[verifier::external_body]
pub(crate) fn bitmap_len(b: &roaring::RoaringBitmap) -> (r: u64)
    ensures
        r == bitmap_set(*b).len(),
{
    b.len()
}

/// `roaring::RoaringBitmap::is_empty`: whether no number is in the bitmap.
#[verifier::external_body]
pub(crate) fn bitmap_is_empty(b: &roaring::RoaringBitmap) -> (r: bool)
    ensures
        r == (bitmap_set(*b) == Set::<u32>::empty()),
{
    b.is_empty()
}

/// `roaring::RoaringBitmap::iter`: the numbers in ascending order.
#[verifier::external_body]
pub(crate) fn bitmap_numbers(b: &roaring::RoaringBitmap) -> (r: Vec<u32>)
    ensures
        numbers_ascend(r@),
        r@.to_set() == bitmap_set(*b),
{
    b.iter().collect()
}

/// `roaring::RoaringBitmap::bitand_assign`: keeps the numbers in both.
#[verifier::external_body]
pub(crate) fn bitmap_and(b: &mut roaring::RoaringBitmap, other: &roaring::RoaringBitmap)
    ensures
        bitmap_set(*final(b)) == bitmap_set(*old(b)).intersect(bitmap_set(*other)),
{
    *b &= other;
}

/// `roaring::RoaringBitmap::bitor_assign`: adds the numbers of the other.
#[verifier::external_body]
pub(crate) fn bitmap_or(b: &mut roaring::RoaringBitmap, other: &roaring::RoaringBitmap)
    ensures
        bitmap_set(*final(b)) == bitmap_set(*old(b)).union(bitmap_set(*other)),
{
    *b |= other;
}

/// `roaring::RoaringBitmap::sub_assign`: takes the numbers of the other out.
#[verifier::external_body]
pub(crate) fn bitmap_sub(b: &mut roaring::RoaringBitmap, other: &roaring::RoaringBitmap)
    ensures
        bitmap_set(*final(b)) == bitmap_set(*old(b)).difference(bitmap_set(*other)),
{
    *b -= other;
}

/// `roaring::RoaringBitmap::serialize_into`, into a vector: the serialised
/// form, from which the numbers can be read back. It starts with a cookie of
/// four bytes. Writing to a vector does not fail.
#[verifier::external_body]
pub(crate) fn bitmap_to_bytes(b: &roaring::RoaringBitmap) -> (r: Vec<u8>)
    ensures
        r@ == bitmap_bytes(*b),
        bitmap_decoded(r@) == Some(bitmap_set(*b)),
        r@.len() >= 4,
{
    let mut out = Vec::with_capacity(b.serialized_size());
    b.serialize_into(&mut out).expect("writing to a vector does not fail");
    out
}

/// `roaring::RoaringBitmap::deserialize_from`: the bitmap with these bytes as
/// its serialised form, or the message why they are not that of one. Of the
/// message nothing is claimed.
#[verifier::external_body]
pub(crate) fn bitmap_from_bytes(bytes: &[u8]) -> (r: Result<roaring::RoaringBitmap, String>)
    ensures
        match r {
            Ok(b) => bitmap_decoded(bytes@) == Some(bitmap_set(b)),
            Err(_) => bitmap_decoded(bytes@) is None,
        },
{
    roaring::RoaringBitmap::deserialize_from(bytes).map_err(|e| e.to_string())
}

} // verus!
