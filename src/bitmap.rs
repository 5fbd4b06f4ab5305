//! The compressed bitmaps of input positions, held in croaring's `Bitmap`.
use vstd::prelude::*;

verus! {

#[verifier::external_type_specification]
#[verifier::external_body]
pub struct ExBitmap(croaring::Bitmap);

/// The positions that a bitmap holds.
pub uninterp spec fn bitmap_contents(b: croaring::Bitmap) -> Set<u32>;

/// The positions that bytes in croaring's portable format decode to, or
/// `None` where the bytes are not a valid encoding.
pub uninterp spec fn roaring_decode(bytes: Seq<u8>) -> Option<Set<u32>>;

/// Relies on croaring's `Bitmap::new`: a new bitmap is empty.
pub assume_specification[ croaring::Bitmap::new ]() -> (r: croaring::Bitmap)
    ensures
        bitmap_contents(r) == Set::<u32>::empty(),
;

/// Relies on croaring's `Bitmap::add`: the element joins the set.
pub assume_specification[ croaring::Bitmap::add ](b: &mut croaring::Bitmap, element: u32)
    ensures
        bitmap_contents(*final(b)) == bitmap_contents(*old(b)).insert(element),
;

/// Relies on croaring's `Bitmap::serialize` in the `Portable` format, whose
/// bytes `Bitmap::try_deserialize` reads back to the same set.
#[verifier::external_body]
pub(crate) fn bitmap_to_bytes(b: &croaring::Bitmap) -> (r: Vec<u8>)
    ensures
        roaring_decode(r@) == Some(bitmap_contents(*b)),
{
    b.serialize::<croaring::Portable>()
}

/// Relies on croaring's `Bitmap::try_deserialize` in the `Portable` format,
/// which returns `None` on invalid input.
#[verifier::external_body]
pub(crate) fn bitmap_from_bytes(bytes: &Vec<u8>) -> (r: Option<croaring::Bitmap>)
    ensures
        match r {
            Some(b) => roaring_decode(bytes@) == Some(bitmap_contents(b)),
            None => roaring_decode(bytes@) is None,
        },
{
    croaring::Bitmap::try_deserialize::<croaring::Portable>(bytes.as_slice())
}

} // verus!
