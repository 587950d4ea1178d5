//! Presence bitmap: one byte per schema field, length rounded up to a
//! four-byte boundary.
//!
//! On the wire a bitmap is prefixed by its own length as a little-endian
//! u32, so peers built against an older or newer schema can still skip it.
//! A byte is `1` when the field has been set at least once; setters never
//! clear a byte again.

use crate::util::{align_up, spec_align_up};
use crate::wire::{le_read_u32, le_write_u32, lemma_splice, lemma_splice_adjacent, splice};
use crate::WireError;
use crate::BITMAP_LENGTH_FIELD;
use vstd::bytes::{lemma_auto_spec_u32_to_from_le_bytes, spec_u32_from_le_bytes, spec_u32_to_le_bytes};
use vstd::prelude::*;

verus! {

/// Bytes a bitmap for `num_fields` fields occupies: the field count aligned
/// up to 4.
pub fn bitmap_length(num_fields: usize) -> (r: usize)
    requires
        num_fields + 4 <= usize::MAX,
    ensures
        r as int == spec_align_up(num_fields as int, 4),
        num_fields <= r < num_fields + 4,
{
    align_up(num_fields, 4)
}

/// A fresh bitmap of `len` zero bytes.
pub fn new_bitmap(len: usize) -> (r: Vec<u8>)
    ensures
        r@.len() == len,
        forall|i: int| 0 <= i < len ==> r@[i] == 0u8,
{
    let mut v: Vec<u8> = Vec::new();
    let mut i: usize = 0;
    while i < len
        invariant
            i <= len,
            v@.len() == i,
            forall|k: int| 0 <= k < i ==> v@[k] == 0u8,
        decreases len - i,
    {
        v.push(0u8);
        i = i + 1;
    }
    v
}

/// Whether `field` is marked present.
pub fn get_bitmap_field(bitmap: &Vec<u8>, field: usize) -> (r: bool)
    requires
        field < bitmap@.len(),
    ensures
        r == (bitmap@[field as int] == 1u8),
{
    bitmap[field] == 1
}

/// Marks `field` present; no call ever clears a byte again.
pub fn set_bitmap_field(bitmap: &mut Vec<u8>, field: usize)
    requires
        field < old(bitmap)@.len(),
    ensures
        final(bitmap)@ == old(bitmap)@.update(field as int, 1u8),
{
    bitmap[field] = 1;
}

/// The wire image of a bitmap: its length as a little-endian u32, then its
/// bytes.
pub open spec fn spec_bitmap_bytes(bitmap: Seq<u8>) -> Seq<u8> {
    spec_u32_to_le_bytes(bitmap.len() as u32) + bitmap
}

/// Reads a serialized bitmap at `off`: `None` when the length prefix or the
/// bitmap bytes would run past the end of the buffer.
pub open spec fn spec_parse_bitmap(buffer: Seq<u8>, off: int) -> Option<Seq<u8>> {
    if 0 <= off && off + BITMAP_LENGTH_FIELD <= buffer.len() {
        let len = spec_u32_from_le_bytes(
            buffer.subrange(off, off + BITMAP_LENGTH_FIELD),
        ) as int;
        if off + BITMAP_LENGTH_FIELD + len <= buffer.len() {
            Some(buffer.subrange(off + BITMAP_LENGTH_FIELD, off + BITMAP_LENGTH_FIELD + len))
        } else {
            None
        }
    } else {
        None
    }
}

/// Writes the length prefix and the bitmap bytes at `offset`.
pub fn serialize_bitmap(header: &mut Vec<u8>, offset: usize, bitmap: &Vec<u8>)
    requires
        offset + BITMAP_LENGTH_FIELD + bitmap@.len() <= old(header)@.len(),
        bitmap@.len() <= u32::MAX,
    ensures
        final(header)@ == splice(old(header)@, offset as int, spec_bitmap_bytes(bitmap@)),
        final(header)@.len() == old(header)@.len(),
{
    proof {
        lemma_auto_spec_u32_to_from_le_bytes();
    }
    le_write_u32(header, offset, bitmap.len() as u32);
    let hlen: usize = header.len();
    let ghost s0 = old(header)@;
    let ghost prefix = spec_u32_to_le_bytes(bitmap@.len() as u32);
    let mut i: usize = 0;
    proof {
        assert(header@ == splice(s0, offset as int, prefix + bitmap@.subrange(0, 0))) by {
            assert(prefix + bitmap@.subrange(0, 0) =~= prefix);
        }
        lemma_splice(s0, offset as int, prefix);
    }
    while i < bitmap.len()
        invariant
            i <= bitmap@.len(),
            offset + BITMAP_LENGTH_FIELD + bitmap@.len() <= s0.len(),
            s0.len() == hlen,
            bitmap@.len() <= u32::MAX,
            prefix == spec_u32_to_le_bytes(bitmap@.len() as u32),
            prefix.len() == 4,
            header@ == splice(s0, offset as int, prefix + bitmap@.subrange(0, i as int)),
            header@.len() == s0.len(),
        decreases bitmap@.len() - i,
    {
        let ghost before = header@;
        let ghost patch = prefix + bitmap@.subrange(0, i as int);
        header[offset + BITMAP_LENGTH_FIELD + i] = bitmap[i];
        proof {
            let b = bitmap@[i as int];
            assert(header@ =~= splice(before, offset + BITMAP_LENGTH_FIELD + i, seq![b])) by {
                lemma_splice(before, offset + BITMAP_LENGTH_FIELD + i, seq![b]);
            }
            lemma_splice_adjacent(s0, offset as int, patch, seq![b]);
            assert(patch + seq![b] =~= prefix + bitmap@.subrange(0, i + 1));
        }
        i = i + 1;
    }
    proof {
        assert(prefix + bitmap@.subrange(0, bitmap@.len() as int) =~= spec_bitmap_bytes(bitmap@));
        lemma_splice(s0, offset as int, spec_bitmap_bytes(bitmap@));
    }
}

/// Reads a serialized bitmap at `offset`, copying its few metadata
/// bytes out of the received buffer (payload bytes are never copied);
/// fails exactly when `spec_parse_bitmap` does.
pub fn deserialize_bitmap(buffer: &[u8], offset: usize) -> (r: Result<Vec<u8>, WireError>)
    ensures
        r.is_ok() <==> spec_parse_bitmap(buffer@, offset as int).is_some(),
        r.is_ok() ==> r.unwrap()@ == spec_parse_bitmap(buffer@, offset as int).unwrap(),
{
    if buffer.len() < BITMAP_LENGTH_FIELD || offset > buffer.len() - BITMAP_LENGTH_FIELD {
        return Err(WireError::Malformed);
    }
    let len_u32 = le_read_u32(buffer, offset);
    let len = len_u32 as usize;
    if len > buffer.len() - BITMAP_LENGTH_FIELD - offset {
        return Err(WireError::Malformed);
    }
    let blen: usize = buffer.len();
    let mut out: Vec<u8> = Vec::new();
    let mut i: usize = 0;
    while i < len
        invariant
            i <= len,
            offset + BITMAP_LENGTH_FIELD + len <= blen,
            blen == buffer@.len(),
            out@.len() == i,
            out@ == buffer@.subrange(
                offset + BITMAP_LENGTH_FIELD,
                offset + BITMAP_LENGTH_FIELD + i,
            ),
        decreases len - i,
    {
        out.push(*vstd::slice::slice_index_get(buffer, offset + BITMAP_LENGTH_FIELD + i));
        proof {
            assert(out@ =~= buffer@.subrange(
                offset + BITMAP_LENGTH_FIELD,
                offset + BITMAP_LENGTH_FIELD + i + 1,
            ));
        }
        i = i + 1;
    }
    Ok(out)
}

} // verus!
