//! Forward pointer codec.
//!
//! A forward pointer is the eight-byte slot a variable-length field leaves
//! in the constant header: a little-endian u32 `size` at bytes `[0, 4)`
//! followed by a little-endian u32 `offset` at bytes `[4, 8)`.  `offset` is
//! a byte offset from the start of the enclosing serialized buffer to the
//! field's out-of-line data; `size` is its byte length, or its element
//! count for lists.

use crate::wire::{le_read_u32, le_write_u32, lemma_splice, lemma_splice_adjacent, splice};
use vstd::bytes::{lemma_auto_spec_u32_to_from_le_bytes, spec_u32_from_le_bytes, spec_u32_to_le_bytes};
use vstd::prelude::*;

verus! {

/// The eight bytes of a forward pointer: size first, then offset.
pub open spec fn spec_fwd_bytes(size: u32, offset: u32) -> Seq<u8> {
    spec_u32_to_le_bytes(size) + spec_u32_to_le_bytes(offset)
}

/// The size half of the forward pointer at `slot`.
pub open spec fn spec_fwd_size(buffer: Seq<u8>, slot: int) -> u32 {
    spec_u32_from_le_bytes(buffer.subrange(slot, slot + 4))
}

/// The offset half of the forward pointer at `slot`.
pub open spec fn spec_fwd_offset(buffer: Seq<u8>, slot: int) -> u32 {
    spec_u32_from_le_bytes(buffer.subrange(slot + 4, slot + 8))
}

/// Writes a whole forward pointer at `slot`.
pub fn write_fwd(header: &mut Vec<u8>, slot: usize, size: u32, offset: u32)
    requires
        slot + 8 <= old(header)@.len(),
    ensures
        final(header)@ == splice(old(header)@, slot as int, spec_fwd_bytes(size, offset)),
        final(header)@.len() == old(header)@.len(),
{
    proof {
        lemma_auto_spec_u32_to_from_le_bytes();
    }
    let n: usize = header.len();
    assert(slot + 8 <= n);
    le_write_u32(header, slot, size);
    le_write_u32(header, slot + 4, offset);
    proof {
        lemma_splice_adjacent(
            old(header)@,
            slot as int,
            spec_u32_to_le_bytes(size),
            spec_u32_to_le_bytes(offset),
        );
        lemma_splice(old(header)@, slot as int, spec_fwd_bytes(size, offset));
    }
}

/// Writes only the offset half of the forward pointer at `slot`, leaving
/// the size half as it was.
pub fn write_fwd_offset(header: &mut Vec<u8>, slot: usize, offset: u32)
    requires
        slot + 8 <= old(header)@.len(),
    ensures
        final(header)@ == splice(old(header)@, slot as int + 4, spec_u32_to_le_bytes(offset)),
        final(header)@.len() == old(header)@.len(),
{
    proof {
        lemma_auto_spec_u32_to_from_le_bytes();
        lemma_splice(old(header)@, slot as int + 4, spec_u32_to_le_bytes(offset));
    }
    let n: usize = header.len();
    assert(slot + 8 <= n);
    le_write_u32(header, slot + 4, offset);
}

/// Reads the size half of the forward pointer at `slot`.
pub fn read_fwd_size(buffer: &[u8], slot: usize) -> (r: u32)
    requires
        slot + 8 <= buffer@.len(),
    ensures
        r == spec_fwd_size(buffer@, slot as int),
{
    le_read_u32(buffer, slot)
}

/// Reads the offset half of the forward pointer at `slot`.
pub fn read_fwd_offset(buffer: &[u8], slot: usize) -> (r: u32)
    requires
        slot + 8 <= buffer@.len(),
    ensures
        r == spec_fwd_offset(buffer@, slot as int),
{
    let n: usize = buffer.len();
    assert(slot + 8 <= n);
    le_read_u32(buffer, slot + 4)
}

/// A forward pointer written by `write_fwd` reads back as written.
pub proof fn lemma_fwd_round_trip(s: Seq<u8>, slot: int, size: u32, offset: u32)
    requires
        0 <= slot,
        slot + 8 <= s.len(),
    ensures
        spec_fwd_bytes(size, offset).len() == 8,
        spec_fwd_size(splice(s, slot, spec_fwd_bytes(size, offset)), slot) == size,
        spec_fwd_offset(splice(s, slot, spec_fwd_bytes(size, offset)), slot) == offset,
{
    crate::wire::lemma_u32_le_round_trip(size);
    crate::wire::lemma_u32_le_round_trip(offset);
    let p = spec_fwd_bytes(size, offset);
    let t = splice(s, slot, p);
    lemma_splice(s, slot, p);
    assert(t.subrange(slot, slot + 4) =~= spec_u32_to_le_bytes(size));
    assert(t.subrange(slot + 4, slot + 8) =~= spec_u32_to_le_bytes(offset));
}

} // verus!
