//! Leaf field types: byte-string views.
//!
//! A `CFString` or `CFBytes` wraps a borrowed byte slice without copying
//! it.  Serialization records one scatter-gather entry whose bytes are the
//! slice itself and one slot where the entry's forward pointer is
//! back-patched once the final segment order is known; the leaf writes no
//! header bytes of its own.  Deserialization follows the forward pointer
//! and borrows the pointed-to range of the received buffer.

use crate::fwd::{read_fwd_offset, read_fwd_size, spec_fwd_offset, spec_fwd_size};
use crate::hdr::HeaderRepr;
use crate::sga::Sge;
use crate::WireError;
use vstd::prelude::*;
use vstd::string::StringSliceAdditionalSpecFns;

verus! {

/// What lossy utf8 decoding returns for a byte run: the characters of
/// `String::from_utf8_lossy` on those bytes, a function of the bytes
/// alone.
pub uninterp spec fn utf8_lossy_of(bytes: Seq<u8>) -> Seq<char>;

/// Relies on `String::from_utf8_lossy`: the result depends only on the
/// bytes, with invalid sequences replaced by the replacement character.
#[verifier::external_body]
fn bytes_to_string_lossy(bytes: &[u8]) -> (r: String)
    ensures
        r@ == utf8_lossy_of(bytes@),
{
    String::from_utf8_lossy(bytes).into_owned()
}

/// A borrowed string field: a view of utf8 bytes in some buffer.
#[derive(Debug, Clone, Copy, PartialEq, Eq)]
pub struct CFString<'a> {
    /// The string's bytes.
    pub ptr: &'a [u8],
}

impl<'a> CFString<'a> {
    /// A view of `ptr`'s bytes; nothing is copied.
    pub fn new(ptr: &'a str) -> (r: Self)
        requires
            ptr.spec_bytes().len() < 0x1_0000_0000,
        ensures
            r.ptr@ == ptr.spec_bytes(),
            r.wf(),
    {
        CFString { ptr: ptr.as_bytes() }
    }

    /// A view of `ptr`; nothing is copied.
    pub fn new_from_bytes(ptr: &'a [u8]) -> (r: Self)
        requires
            ptr@.len() < 0x1_0000_0000,
        ensures
            r.ptr@ == ptr@,
            r.wf(),
    {
        CFString { ptr }
    }

    /// Byte length of the string.
    pub fn len(&self) -> (r: usize)
        ensures
            r == self.ptr@.len(),
    {
        self.ptr.len()
    }

    /// The field decoded as an owned string, with invalid utf8 replaced.
    pub fn to_string(&self) -> (r: String)
        ensures
            r@ == utf8_lossy_of(self.ptr@),
    {
        bytes_to_string_lossy(self.ptr)
    }
}

impl<'a> Default for CFString<'a> {
    /// The empty string view.
    fn default() -> (r: Self)
        ensures
            r.ptr@.len() == 0,
            r.wf(),
    {
        CFString { ptr: &[] }
    }
}

/// A borrowed bytes field: a view of raw bytes in some buffer.
#[derive(Debug, Clone, Copy, PartialEq, Eq)]
pub struct CFBytes<'a> {
    /// The field's bytes.
    pub ptr: &'a [u8],
}

impl<'a> CFBytes<'a> {
    /// A view of `ptr`'s bytes; nothing is copied.
    pub fn new(ptr: &'a str) -> (r: Self)
        requires
            ptr.spec_bytes().len() < 0x1_0000_0000,
        ensures
            r.ptr@ == ptr.spec_bytes(),
            r.wf(),
    {
        CFBytes { ptr: ptr.as_bytes() }
    }

    /// A view of `ptr`; nothing is copied.
    pub fn new_from_bytes(ptr: &'a [u8]) -> (r: Self)
        requires
            ptr@.len() < 0x1_0000_0000,
        ensures
            r.ptr@ == ptr@,
            r.wf(),
    {
        CFBytes { ptr }
    }

    /// Byte length of the field.
    pub fn len(&self) -> (r: usize)
        ensures
            r == self.ptr@.len(),
    {
        self.ptr.len()
    }
}

impl<'a> Default for CFBytes<'a> {
    /// The empty bytes view.
    fn default() -> (r: Self)
        ensures
            r.ptr@.len() == 0,
            r.wf(),
    {
        CFBytes { ptr: &[] }
    }
}

/// What a leaf's forward pointer addresses in `buffer`: the `size` bytes
/// starting at `offset`, if they lie inside the buffer.
pub open spec fn spec_parse_leaf(buffer: Seq<u8>, header_offset: int) -> Option<Seq<u8>> {
    if 0 <= header_offset && header_offset + 8 <= buffer.len() {
        let size = spec_fwd_size(buffer, header_offset) as int;
        let offset = spec_fwd_offset(buffer, header_offset) as int;
        if offset + size <= buffer.len() {
            Some(buffer.subrange(offset, offset + size))
        } else {
            None
        }
    } else {
        None
    }
}

/// Follows the forward pointer at `header_offset` and borrows the
/// pointed-to range; fails exactly when `spec_parse_leaf` does.
fn deserialize_leaf<'a>(buffer: &'a [u8], header_offset: usize) -> (r: Result<&'a [u8], WireError>)
    ensures
        r.is_ok() <==> spec_parse_leaf(buffer@, header_offset as int).is_some(),
        r.is_ok() ==> r.unwrap()@ == spec_parse_leaf(buffer@, header_offset as int).unwrap(),
{
    if buffer.len() < 8 || header_offset > buffer.len() - 8 {
        return Err(WireError::Malformed);
    }
    let size = read_fwd_size(buffer, header_offset) as usize;
    let offset = read_fwd_offset(buffer, header_offset) as usize;
    if size > buffer.len() || offset > buffer.len() - size {
        return Err(WireError::Malformed);
    }
    Ok(vstd::slice::slice_subrange(buffer, offset, offset + size))
}

impl<'a> HeaderRepr<'a> for CFString<'a> {
    type Abs = Seq<u8>;

    open spec fn abs(&self) -> Seq<u8> {
        self.ptr@
    }

    open spec fn wf(&self) -> bool {
        self.ptr@.len() < 0x1_0000_0000
    }

    open spec fn const_hdr_size() -> int {
        8
    }

    open spec fn contiguous() -> bool {
        false
    }

    open spec fn is_list_type() -> bool {
        false
    }

    open spec fn dyn_size(&self) -> int {
        0
    }

    open spec fn dyn_start(&self) -> int {
        0
    }

    open spec fn n_sge(&self) -> int {
        1
    }

    open spec fn leaves(&self) -> Seq<Seq<u8>> {
        seq![self.ptr@]
    }

    open spec fn slots(&self, c_off: int, d: int) -> Seq<int> {
        seq![c_off]
    }

    open spec fn image(&self, prior: Seq<u8>, c_off: int, d: int) -> Seq<u8> {
        prior
    }

    open spec fn parse(buffer: Seq<u8>, header_offset: int) -> Option<Seq<u8>> {
        spec_parse_leaf(buffer, header_offset)
    }

    open spec fn deser_wf(&self) -> bool {
        true
    }

    proof fn lemma_basic_facts(&self) {
    }

    proof fn lemma_parse_bounds(buffer: Seq<u8>, header_offset: int) {
    }

    proof fn lemma_serialize_props(&self, prior: Seq<u8>, c_off: int, d: int) {
    }

    fn constant_header_size() -> (r: usize) {
        8
    }

    fn is_contiguous() -> (r: bool) {
        false
    }

    fn is_list(&self) -> (r: bool) {
        false
    }

    fn dynamic_header_size(&self) -> (r: usize) {
        0
    }

    fn dynamic_header_start(&self) -> (r: usize) {
        0
    }

    fn num_scatter_gather_entries(&self) -> (r: usize) {
        1
    }

    fn inner_serialize(
        &self,
        header: &mut Vec<u8>,
        constant_header_offset: usize,
        dynamic_header_start: usize,
        sges: &mut Vec<Sge<'a>>,
        offsets: &mut Vec<usize>,
    ) {
        sges.push(Sge::new(self.ptr));
        offsets.push(constant_header_offset);
        proof {
            assert(final(sges)@.subrange(0, old(sges)@.len() as int) =~= old(sges)@);
            assert(final(offsets)@.subrange(0, old(offsets)@.len() as int) =~= old(offsets)@);
        }
    }

    fn inner_deserialize(&mut self, buffer: &'a [u8], header_offset: usize) -> (r: Result<
        (),
        WireError,
    >) {
        match deserialize_leaf(buffer, header_offset) {
            Ok(ptr) => {
                self.ptr = ptr;
                Ok(())
            },
            Err(e) => Err(e),
        }
    }
}

impl<'a> HeaderRepr<'a> for CFBytes<'a> {
    type Abs = Seq<u8>;

    open spec fn abs(&self) -> Seq<u8> {
        self.ptr@
    }

    open spec fn wf(&self) -> bool {
        self.ptr@.len() < 0x1_0000_0000
    }

    open spec fn const_hdr_size() -> int {
        8
    }

    open spec fn contiguous() -> bool {
        false
    }

    open spec fn is_list_type() -> bool {
        false
    }

    open spec fn dyn_size(&self) -> int {
        0
    }

    open spec fn dyn_start(&self) -> int {
        0
    }

    open spec fn n_sge(&self) -> int {
        1
    }

    open spec fn leaves(&self) -> Seq<Seq<u8>> {
        seq![self.ptr@]
    }

    open spec fn slots(&self, c_off: int, d: int) -> Seq<int> {
        seq![c_off]
    }

    open spec fn image(&self, prior: Seq<u8>, c_off: int, d: int) -> Seq<u8> {
        prior
    }

    open spec fn parse(buffer: Seq<u8>, header_offset: int) -> Option<Seq<u8>> {
        spec_parse_leaf(buffer, header_offset)
    }

    open spec fn deser_wf(&self) -> bool {
        true
    }

    proof fn lemma_basic_facts(&self) {
    }

    proof fn lemma_parse_bounds(buffer: Seq<u8>, header_offset: int) {
    }

    proof fn lemma_serialize_props(&self, prior: Seq<u8>, c_off: int, d: int) {
    }

    fn constant_header_size() -> (r: usize) {
        8
    }

    fn is_contiguous() -> (r: bool) {
        false
    }

    fn is_list(&self) -> (r: bool) {
        false
    }

    fn dynamic_header_size(&self) -> (r: usize) {
        0
    }

    fn dynamic_header_start(&self) -> (r: usize) {
        0
    }

    fn num_scatter_gather_entries(&self) -> (r: usize) {
        1
    }

    fn inner_serialize(
        &self,
        header: &mut Vec<u8>,
        constant_header_offset: usize,
        dynamic_header_start: usize,
        sges: &mut Vec<Sge<'a>>,
        offsets: &mut Vec<usize>,
    ) {
        sges.push(Sge::new(self.ptr));
        offsets.push(constant_header_offset);
        proof {
            assert(final(sges)@.subrange(0, old(sges)@.len() as int) =~= old(sges)@);
            assert(final(offsets)@.subrange(0, old(offsets)@.len() as int) =~= old(offsets)@);
        }
    }

    fn inner_deserialize(&mut self, buffer: &'a [u8], header_offset: usize) -> (r: Result<
        (),
        WireError,
    >) {
        match deserialize_leaf(buffer, header_offset) {
            Ok(ptr) => {
                self.ptr = ptr;
                Ok(())
            },
            Err(e) => Err(e),
        }
    }
}

} // verus!
