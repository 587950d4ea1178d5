//! Fixed-width scalar codec for list elements.
//!
//! Scalar list elements are packed on the wire as consecutive
//! little-endian values of a fixed width; this trait is the per-type
//! codec, proved round-tripping, that replaces any in-memory
//! reinterpretation of byte buffers.

use crate::wire::{le_read_u32, le_read_u64, le_write_u32, le_write_u64, splice};
use vstd::bytes::{
    lemma_auto_spec_u32_to_from_le_bytes, lemma_auto_spec_u64_to_from_le_bytes,
    spec_u32_from_le_bytes, spec_u32_to_le_bytes, spec_u64_from_le_bytes, spec_u64_to_le_bytes,
};
use vstd::prelude::*;

verus! {

/// A value that lists pack as a fixed run of little-endian bytes.
pub trait WireScalar: Copy + Sized {
    /// Bytes one value occupies on the wire.
    spec fn width() -> int;

    /// The value's wire bytes.
    spec fn wire_bytes(&self) -> Seq<u8>;

    /// The value a run of wire bytes decodes to.
    spec fn from_wire(b: Seq<u8>) -> Self;

    /// The width is small and positive.
    proof fn lemma_width()
        ensures
            0 < Self::width() <= 8,
    ;

    /// The codec is exact: the width is small and positive, and decoding
    /// the encoding gives the value back.
    proof fn lemma_codec(&self)
        ensures
            self.wire_bytes().len() == Self::width(),
            0 < Self::width() <= 8,
            Self::from_wire(self.wire_bytes()) == *self,
    ;

    /// Bytes one value occupies on the wire.
    fn width_exec() -> (r: usize)
        ensures
            r as int == Self::width(),
    ;

    /// The zero value lists fill fresh capacity with.
    fn zero() -> (r: Self);

    /// Encodes the value at `buf[off..off + width]`.
    fn write_to(&self, buf: &mut Vec<u8>, off: usize)
        requires
            off + Self::width() <= old(buf)@.len(),
        ensures
            final(buf)@ == splice(old(buf)@, off as int, self.wire_bytes()),
            final(buf)@.len() == old(buf)@.len(),
    ;

    /// Decodes the value at `buf[off..off + width]`.
    fn read_from(buf: &[u8], off: usize) -> (r: Self)
        requires
            off + Self::width() <= buf@.len(),
        ensures
            r == Self::from_wire(buf@.subrange(off as int, off as int + Self::width())),
    ;
}

impl WireScalar for u32 {
    open spec fn width() -> int {
        4
    }

    open spec fn wire_bytes(&self) -> Seq<u8> {
        spec_u32_to_le_bytes(*self)
    }

    open spec fn from_wire(b: Seq<u8>) -> u32 {
        spec_u32_from_le_bytes(b)
    }

    proof fn lemma_width() {
    }

    proof fn lemma_codec(&self) {
        crate::wire::lemma_u32_le_round_trip(*self);
    }

    fn width_exec() -> (r: usize) {
        4
    }

    fn zero() -> (r: u32) {
        0
    }

    fn write_to(&self, buf: &mut Vec<u8>, off: usize) {
        proof {
            lemma_auto_spec_u32_to_from_le_bytes();
            let s = spec_u32_to_le_bytes(*self);
            assert(s.len() == 4);
            crate::wire::lemma_splice(old(buf)@, off as int, s);
        }
        le_write_u32(buf, off, *self);
    }

    fn read_from(buf: &[u8], off: usize) -> (r: u32) {
        le_read_u32(buf, off)
    }
}

impl WireScalar for u64 {
    open spec fn width() -> int {
        8
    }

    open spec fn wire_bytes(&self) -> Seq<u8> {
        spec_u64_to_le_bytes(*self)
    }

    open spec fn from_wire(b: Seq<u8>) -> u64 {
        spec_u64_from_le_bytes(b)
    }

    proof fn lemma_width() {
    }

    proof fn lemma_codec(&self) {
        crate::wire::lemma_u64_le_round_trip(*self);
    }

    fn width_exec() -> (r: usize) {
        8
    }

    fn zero() -> (r: u64) {
        0
    }

    fn write_to(&self, buf: &mut Vec<u8>, off: usize) {
        proof {
            lemma_auto_spec_u64_to_from_le_bytes();
            let s = spec_u64_to_le_bytes(*self);
            assert(s.len() == 8);
            crate::wire::lemma_splice(old(buf)@, off as int, s);
        }
        le_write_u64(buf, off, *self);
    }

    fn read_from(buf: &[u8], off: usize) -> (r: u64) {
        le_read_u64(buf, off)
    }
}

/// The packed wire bytes of a run of scalars.
pub open spec fn spec_packed<T: WireScalar>(elts: Seq<T>) -> Seq<u8>
    decreases elts.len(),
{
    if elts.len() == 0 {
        Seq::empty()
    } else {
        spec_packed(elts.drop_last()) + elts.last().wire_bytes()
    }
}

/// A packed run weighs its element count times the width.
pub proof fn lemma_packed_len<T: WireScalar>(elts: Seq<T>)
    ensures
        spec_packed(elts).len() == elts.len() * T::width(),
    decreases elts.len(),
{
    if elts.len() == 0 {
    } else {
        lemma_packed_len(elts.drop_last());
        elts.last().lemma_codec();
        assert((elts.len() - 1) * T::width() + T::width() == elts.len() * T::width())
            by (nonlinear_arith);
    }
}

} // verus!
