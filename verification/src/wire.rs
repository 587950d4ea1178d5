//! Little-endian scalar codec over byte buffers.
//!
//! Every multi-byte quantity in the wire format (bitmap length prefixes,
//! forward pointers, scalar list elements) is stored little-endian.  The
//! in-place reads and writes go through byteorder's `LittleEndian`; their
//! contracts are stated with vstd's little-endian byte specifications so
//! that everything built on top is proved against one model.

use byteorder::ByteOrder;
use vstd::bytes::{
    lemma_auto_spec_u32_to_from_le_bytes, lemma_auto_spec_u64_to_from_le_bytes,
    spec_u32_from_le_bytes, spec_u32_to_le_bytes, spec_u64_from_le_bytes, spec_u64_to_le_bytes,
};
use vstd::prelude::*;

verus! {

/// `s` with the bytes at `[off, off + patch.len())` replaced by `patch`.
pub open spec fn splice(s: Seq<u8>, off: int, patch: Seq<u8>) -> Seq<u8>
    recommends
        0 <= off,
        off + patch.len() <= s.len(),
{
    s.subrange(0, off) + patch + s.subrange(off + patch.len(), s.len() as int)
}

/// How `splice` reads back, element by element.
pub proof fn lemma_splice(s: Seq<u8>, off: int, patch: Seq<u8>)
    requires
        0 <= off,
        off + patch.len() <= s.len(),
    ensures
        splice(s, off, patch).len() == s.len(),
        forall|k: int|
            0 <= k < s.len() ==> splice(s, off, patch)[k] == if off <= k < off + patch.len() {
                patch[k - off]
            } else {
                s[k]
            },
{
}

/// Two adjacent splices are one splice of the concatenation.
pub proof fn lemma_splice_adjacent(s: Seq<u8>, off: int, p1: Seq<u8>, p2: Seq<u8>)
    requires
        0 <= off,
        off + p1.len() + p2.len() <= s.len(),
    ensures
        splice(splice(s, off, p1), off + p1.len(), p2) == splice(s, off, p1 + p2),
{
    lemma_splice(s, off, p1);
    lemma_splice(splice(s, off, p1), off + p1.len(), p2);
    lemma_splice(s, off, p1 + p2);
    assert(splice(splice(s, off, p1), off + p1.len(), p2) =~= splice(s, off, p1 + p2));
}

/// Relies on byteorder's `LittleEndian::write_u32`: stores the four
/// little-endian bytes of `n` at `buf[off..off + 4]` and touches nothing
/// else.
#[verifier::external_body]
pub fn le_write_u32(buf: &mut Vec<u8>, off: usize, n: u32)
    requires
        off + 4 <= old(buf)@.len(),
    ensures
        final(buf)@ == splice(old(buf)@, off as int, spec_u32_to_le_bytes(n)),
{
    byteorder::LittleEndian::write_u32(&mut buf[off..off + 4], n);
}

/// Relies on byteorder's `LittleEndian::read_u32`: reads the four bytes at
/// `buf[off..off + 4]` as a little-endian u32.
#[verifier::external_body]
pub fn le_read_u32(buf: &[u8], off: usize) -> (r: u32)
    requires
        off + 4 <= buf@.len(),
    ensures
        r == spec_u32_from_le_bytes(buf@.subrange(off as int, off as int + 4)),
{
    byteorder::LittleEndian::read_u32(&buf[off..off + 4])
}

/// Relies on byteorder's `LittleEndian::write_u64`: stores the eight
/// little-endian bytes of `n` at `buf[off..off + 8]` and touches nothing
/// else.
#[verifier::external_body]
pub fn le_write_u64(buf: &mut Vec<u8>, off: usize, n: u64)
    requires
        off + 8 <= old(buf)@.len(),
    ensures
        final(buf)@ == splice(old(buf)@, off as int, spec_u64_to_le_bytes(n)),
{
    byteorder::LittleEndian::write_u64(&mut buf[off..off + 8], n);
}

/// Relies on byteorder's `LittleEndian::read_u64`: reads the eight bytes at
/// `buf[off..off + 8]` as a little-endian u64.
#[verifier::external_body]
pub fn le_read_u64(buf: &[u8], off: usize) -> (r: u64)
    requires
        off + 8 <= buf@.len(),
    ensures
        r == spec_u64_from_le_bytes(buf@.subrange(off as int, off as int + 8)),
{
    byteorder::LittleEndian::read_u64(&buf[off..off + 8])
}

/// Reading four little-endian bytes back gives the written value, and the
/// encoding of a u32 is exactly four bytes long.
pub proof fn lemma_u32_le_round_trip(n: u32)
    ensures
        spec_u32_to_le_bytes(n).len() == 4,
        spec_u32_from_le_bytes(spec_u32_to_le_bytes(n)) == n,
{
    lemma_auto_spec_u32_to_from_le_bytes();
    let s = spec_u32_to_le_bytes(n);
    assert(s.len() == 4 && spec_u32_from_le_bytes(s) == n);
}

/// Reading eight little-endian bytes back gives the written value, and the
/// encoding of a u64 is exactly eight bytes long.
pub proof fn lemma_u64_le_round_trip(n: u64)
    ensures
        spec_u64_to_le_bytes(n).len() == 8,
        spec_u64_from_le_bytes(spec_u64_to_le_bytes(n)) == n,
{
    lemma_auto_spec_u64_to_from_le_bytes();
    let s = spec_u64_to_le_bytes(n);
    assert(s.len() == 8 && spec_u64_from_le_bytes(s) == n);
}

} // verus!
