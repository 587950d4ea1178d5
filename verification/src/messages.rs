//! Message structs for the echo schema: a single-buffer message, a list
//! message, and a one-level tree message.
//!
//! Each struct mirrors what the code generator emits for its schema
//! message: a presence bitmap, one field per schema field, `new`,
//! `has_`/`get_`/`set_` accessors that maintain the bitmap, a deep
//! equality check over presence and present values, and a header
//! representation following the fixed layout rules: a four-byte bitmap
//! length, the bitmap, one always-reserved eight-byte slot per field,
//! then the dynamic region.

use crate::bitmap::{
    deserialize_bitmap, get_bitmap_field, new_bitmap, serialize_bitmap, set_bitmap_field,
    spec_bitmap_bytes, spec_parse_bitmap,
};
use crate::datapath::bytes_eq;
use crate::hdr::{
    inner_deserialize_with_ref, inner_serialize_with_ref, lemma_appended_pair_run,
    spec_parse_with_ref, HeaderRepr,
};
use crate::leaves::CFBytes;
use crate::sga::Sge;
use crate::varlist::VariableList;
use crate::wire::splice;
use crate::WireError;
use crate::BITMAP_LENGTH_FIELD;
use vstd::prelude::*;

verus! {

/// The abstract value of a `SingleBufferCF`: whether its one field is
/// present, and the field's bytes (empty when absent).
pub struct SingleBufferAbs {
    /// Whether the message field was set.
    pub has_message: bool,
    /// The field's payload bytes.
    pub message: Seq<u8>,
}

/// The default abstract value of a `SingleBufferCF`: nothing present.
pub open spec fn spec_single_abs_default() -> SingleBufferAbs {
    SingleBufferAbs { has_message: false, message: Seq::empty() }
}

/// A message with one optional bytes field.
pub struct SingleBufferCF<'a> {
    /// Presence bitmap: one byte per field, aligned up to four.
    pub bitmap: Vec<u8>,
    /// The one bytes field.
    pub message: CFBytes<'a>,
}

impl<'a> SingleBufferCF<'a> {
    /// A fresh message with no field set.
    pub fn new() -> (r: Self)
        ensures
            r.wf(),
            r.abs() == spec_single_abs_default(),
    {
        let r = SingleBufferCF { bitmap: new_bitmap(4), message: CFBytes::default() };
        proof {
            assert(!(r.bitmap@[0] == 1));
        }
        r
    }

    /// Whether the message field has been set.
    pub fn has_message(&self) -> (r: bool)
        requires
            self.wf(),
        ensures
            r == self.abs().has_message,
    {
        get_bitmap_field(&self.bitmap, 0)
    }

    /// The message field's view.  Reading an absent field yields the
    /// default empty view.
    pub fn get_message(&self) -> (r: CFBytes<'a>)
        ensures
            r == self.message,
    {
        self.message
    }

    /// Sets the message field and marks it present; presence is never
    /// cleared again.
    pub fn set_message(&mut self, field: CFBytes<'a>)
        requires
            old(self).wf(),
            field.wf(),
        ensures
            final(self).wf(),
            final(self).abs() == (SingleBufferAbs { has_message: true, message: field.ptr@ }),
            final(self).abs().has_message,
    {
        set_bitmap_field(&mut self.bitmap, 0);
        self.message = field;
    }

    /// Bitwise presence match plus equality of every present field.
    pub fn check_deep_equality(&self, other: &SingleBufferCF<'a>) -> (r: bool)
        requires
            self.wf(),
            other.wf(),
        ensures
            r == (self.abs() == other.abs()),
    {
        let has_a = self.has_message();
        let has_b = other.has_message();
        if has_a != has_b {
            proof {
                assert(self.abs().has_message != other.abs().has_message);
            }
            false
        } else if has_a {
            bytes_eq(self.message.ptr, other.message.ptr)
        } else {
            true
        }
    }
}

impl<'a> HeaderRepr<'a> for SingleBufferCF<'a> {
    type Abs = SingleBufferAbs;

    open spec fn abs(&self) -> SingleBufferAbs {
        SingleBufferAbs {
            has_message: self.bitmap@[0] == 1,
            message: if self.bitmap@[0] == 1 {
                self.message.ptr@
            } else {
                Seq::empty()
            },
        }
    }

    open spec fn wf(&self) -> bool {
        &&& self.bitmap@.len() == 4
        &&& self.message.wf()
    }

    open spec fn const_hdr_size() -> int {
        8
    }

    open spec fn contiguous() -> bool {
        true
    }

    open spec fn is_list_type() -> bool {
        false
    }

    open spec fn dyn_size(&self) -> int {
        16
    }

    open spec fn dyn_start(&self) -> int {
        16
    }

    open spec fn n_sge(&self) -> int {
        if self.bitmap@[0] == 1 {
            1
        } else {
            0
        }
    }

    open spec fn leaves(&self) -> Seq<Seq<u8>> {
        if self.bitmap@[0] == 1 {
            self.message.leaves()
        } else {
            Seq::empty()
        }
    }

    open spec fn slots(&self, c_off: int, d: int) -> Seq<int> {
        if self.bitmap@[0] == 1 {
            self.message.slots(c_off + 8, d)
        } else {
            Seq::empty()
        }
    }

    open spec fn image(&self, prior: Seq<u8>, c_off: int, d: int) -> Seq<u8> {
        let h1 = splice(prior, c_off, spec_bitmap_bytes(self.bitmap@));
        if self.bitmap@[0] == 1 {
            self.message.image(h1, c_off + 8, d)
        } else {
            h1
        }
    }

    open spec fn parse(buffer: Seq<u8>, header_offset: int) -> Option<SingleBufferAbs> {
        match spec_parse_bitmap(buffer, header_offset) {
            None => None,
            Some(bm) => {
                let has = bm.len() >= 1 && bm[0] == 1;
                if has {
                    match CFBytes::parse(buffer, header_offset + BITMAP_LENGTH_FIELD + bm.len()) {
                        None => None,
                        Some(m) => Some(SingleBufferAbs { has_message: true, message: m }),
                    }
                } else {
                    Some(SingleBufferAbs { has_message: false, message: Seq::empty() })
                }
            },
        }
    }

    open spec fn deser_wf(&self) -> bool {
        true
    }

    proof fn lemma_basic_facts(&self) {
    }

    proof fn lemma_parse_bounds(buffer: Seq<u8>, header_offset: int) {
    }

    proof fn lemma_serialize_props(&self, prior: Seq<u8>, c_off: int, d: int) {
        vstd::bytes::lemma_auto_spec_u32_to_from_le_bytes();
        let bb = spec_bitmap_bytes(self.bitmap@);
        assert(bb.len() == 8);
        crate::wire::lemma_splice(prior, c_off, bb);
        let h1 = splice(prior, c_off, bb);
        if self.bitmap@[0] == 1 {
            self.message.lemma_serialize_props(h1, c_off + 8, d);
        }
    }

    fn constant_header_size() -> (r: usize) {
        8
    }

    fn is_contiguous() -> (r: bool) {
        true
    }

    fn is_list(&self) -> (r: bool) {
        false
    }

    fn dynamic_header_size(&self) -> (r: usize) {
        16
    }

    fn dynamic_header_start(&self) -> (r: usize) {
        16
    }

    fn num_scatter_gather_entries(&self) -> (r: usize) {
        if self.has_message() {
            1
        } else {
            0
        }
    }

    fn inner_serialize(
        &self,
        header: &mut Vec<u8>,
        constant_header_offset: usize,
        dynamic_header_start: usize,
        sges: &mut Vec<Sge<'a>>,
        offsets: &mut Vec<usize>,
    ) {
        serialize_bitmap(header, constant_header_offset, &self.bitmap);
        if self.has_message() {
            self.message.inner_serialize(
                header,
                constant_header_offset + 8,
                dynamic_header_start,
                sges,
                offsets,
            );
        } else {
            proof {
                assert(final(sges)@.subrange(0, old(sges)@.len() as int) =~= old(sges)@);
                assert(final(offsets)@.subrange(0, old(offsets)@.len() as int) =~= old(offsets)@);
            }
        }
    }

    fn inner_deserialize(&mut self, buffer: &'a [u8], header_offset: usize) -> (r: Result<
        (),
        WireError,
    >) {
        let bm = match deserialize_bitmap(buffer, header_offset) {
            Ok(bm) => bm,
            Err(e) => {
                return Err(e);
            },
        };
        let blen: usize = buffer.len();
        proof {
            assert(header_offset + BITMAP_LENGTH_FIELD + bm@.len() <= blen);
        }
        let has = bm.len() >= 1 && get_bitmap_field(&bm, 0);
        let mut bitmap = new_bitmap(4);
        if has {
            let mut m = CFBytes::default();
            match m.inner_deserialize(buffer, header_offset + BITMAP_LENGTH_FIELD + bm.len()) {
                Ok(()) => {},
                Err(e) => {
                    return Err(e);
                },
            }
            set_bitmap_field(&mut bitmap, 0);
            self.bitmap = bitmap;
            self.message = m;
        } else {
            self.bitmap = bitmap;
            self.message = CFBytes::default();
            proof {
                assert(!(final(self).bitmap@[0] == 1));
            }
        }
        Ok(())
    }
}


impl<'a> Default for SingleBufferCF<'a> {
    /// A fresh message with no field set.
    fn default() -> (r: Self)
        ensures
            r.wf(),
            r.abs() == spec_single_abs_default(),
    {
        SingleBufferCF::new()
    }
}

/// The abstract value of a `ListCF`: whether the list field is present,
/// and the byte strings of its elements in order.
pub struct ListAbs {
    /// Whether the list field was initialized or set.
    pub has_messages: bool,
    /// The elements' payload bytes, in order.
    pub messages: Seq<Seq<u8>>,
}

/// A message with one optional list-of-bytes field.
pub struct ListCF<'a> {
    /// Presence bitmap: one byte per field, aligned up to four.
    pub bitmap: Vec<u8>,
    /// The list field.
    pub messages: VariableList<'a, CFBytes<'a>>,
}

impl<'a> ListCF<'a> {
    /// A fresh message with no field set.
    pub fn new() -> (r: Self)
        ensures
            r.wf(),
            r.abs() == (ListAbs { has_messages: false, messages: Seq::empty() }),
    {
        let r = ListCF { bitmap: new_bitmap(4), messages: VariableList::default() };
        proof {
            assert(!(r.bitmap@[0] == 1));
            assert(r.messages.elts@.map_values(|e: CFBytes<'a>| e.abs()) =~= Seq::<
                Seq<u8>,
            >::empty());
        }
        r
    }

    /// Whether the list field has been initialized or set.
    pub fn has_messages(&self) -> (r: bool)
        requires
            self.wf(),
        ensures
            r == self.abs().has_messages,
    {
        get_bitmap_field(&self.bitmap, 0)
    }

    /// The list field.
    pub fn get_messages(&self) -> (r: &VariableList<'a, CFBytes<'a>>)
        ensures
            r == &self.messages,
    {
        &self.messages
    }

    /// Replaces the list field and marks it present.
    pub fn set_messages(&mut self, field: VariableList<'a, CFBytes<'a>>)
        requires
            old(self).wf(),
            field.wf(),
        ensures
            final(self).wf(),
            final(self).abs() == (ListAbs { has_messages: true, messages: field.abs() }),
            final(self).abs().has_messages,
    {
        set_bitmap_field(&mut self.bitmap, 0);
        self.messages = field;
    }

    /// Gives the list field capacity for `num` elements and marks it
    /// present.
    pub fn init_messages(&mut self, num: usize)
        requires
            old(self).wf(),
        ensures
            final(self).wf(),
            final(self).abs() == (ListAbs { has_messages: true, messages: Seq::empty() }),
            final(self).messages.elts_view().len() == 0,
            final(self).messages.num_space_view() == num,
    {
        set_bitmap_field(&mut self.bitmap, 0);
        self.messages = VariableList::init(num);
        proof {
            assert(final(self).messages.abs() =~= Seq::<Seq<u8>>::empty());
        }
    }

    /// Appends one element to the list field.  Appending past the
    /// capacity declared by `init_messages` is a programmer error and is
    /// excluded by contract.
    pub fn append_message(&mut self, val: CFBytes<'a>)
        requires
            old(self).wf(),
            val.wf(),
            old(self).messages.elts_view().len() < old(self).messages.num_space_view(),
        ensures
            final(self).wf(),
            final(self).bitmap@ == old(self).bitmap@,
            final(self).messages.abs() == old(self).messages.abs().push(val.ptr@),
            final(self).messages.num_space_view() == old(self).messages.num_space_view(),
    {
        self.messages.append(val);
    }

    /// Bitwise presence match plus per-element equality of a present
    /// list.
    pub fn check_deep_equality(&self, other: &ListCF<'a>) -> (r: bool)
        requires
            self.wf(),
            other.wf(),
        ensures
            r == (self.abs() == other.abs()),
    {
        let has_a = self.has_messages();
        let has_b = other.has_messages();
        if has_a != has_b {
            proof {
                assert(self.abs().has_messages != other.abs().has_messages);
            }
            return false;
        }
        if !has_a {
            return true;
        }
        let n = self.messages.len();
        if n != other.messages.len() {
            proof {
                assert(self.abs().messages.len() != other.abs().messages.len());
            }
            return false;
        }
        let mut i: usize = 0;
        while i < n
            invariant
                i <= n,
                self.wf(),
                other.wf(),
                n == self.messages.elts_view().len(),
                n == other.messages.elts_view().len(),
                self.bitmap@[0] == 1,
                other.bitmap@[0] == 1,
                forall|k: int|
                    0 <= k < i ==> (#[trigger] self.messages.abs()[k]) == other.messages.abs()[k],
            decreases n - i,
        {
            let a = self.messages.index(i);
            let b = other.messages.index(i);
            if !bytes_eq(a.ptr, b.ptr) {
                proof {
                    assert(self.abs().messages[i as int] != other.abs().messages[i as int]);
                }
                return false;
            }
            i = i + 1;
        }
        proof {
            assert(self.abs().messages =~= other.abs().messages);
        }
        true
    }
}

impl<'a> HeaderRepr<'a> for ListCF<'a> {
    type Abs = ListAbs;

    open spec fn abs(&self) -> ListAbs {
        ListAbs {
            has_messages: self.bitmap@[0] == 1,
            messages: if self.bitmap@[0] == 1 {
                self.messages.abs()
            } else {
                Seq::empty()
            },
        }
    }

    open spec fn wf(&self) -> bool {
        &&& self.bitmap@.len() == 4
        &&& self.messages.wf()
    }

    open spec fn const_hdr_size() -> int {
        8
    }

    open spec fn contiguous() -> bool {
        true
    }

    open spec fn is_list_type() -> bool {
        false
    }

    open spec fn dyn_size(&self) -> int {
        16 + if self.bitmap@[0] == 1 {
            self.messages.dyn_size()
        } else {
            0
        }
    }

    open spec fn dyn_start(&self) -> int {
        16
    }

    open spec fn n_sge(&self) -> int {
        if self.bitmap@[0] == 1 {
            self.messages.n_sge()
        } else {
            0
        }
    }

    open spec fn leaves(&self) -> Seq<Seq<u8>> {
        if self.bitmap@[0] == 1 {
            self.messages.leaves()
        } else {
            Seq::empty()
        }
    }

    open spec fn slots(&self, c_off: int, d: int) -> Seq<int> {
        if self.bitmap@[0] == 1 {
            self.messages.slots(c_off + 8, d)
        } else {
            Seq::empty()
        }
    }

    open spec fn image(&self, prior: Seq<u8>, c_off: int, d: int) -> Seq<u8> {
        let h1 = splice(prior, c_off, spec_bitmap_bytes(self.bitmap@));
        if self.bitmap@[0] == 1 {
            self.messages.image(h1, c_off + 8, d)
        } else {
            h1
        }
    }

    open spec fn parse(buffer: Seq<u8>, header_offset: int) -> Option<ListAbs> {
        match spec_parse_bitmap(buffer, header_offset) {
            None => None,
            Some(bm) => {
                let has = bm.len() >= 1 && bm[0] == 1;
                if has {
                    match VariableList::<CFBytes<'a>>::parse(
                        buffer,
                        header_offset + BITMAP_LENGTH_FIELD + bm.len(),
                    ) {
                        None => None,
                        Some(m) => Some(ListAbs { has_messages: true, messages: m }),
                    }
                } else {
                    Some(ListAbs { has_messages: false, messages: Seq::empty() })
                }
            },
        }
    }

    open spec fn deser_wf(&self) -> bool {
        true
    }

    proof fn lemma_basic_facts(&self) {
        if self.bitmap@[0] == 1 {
            self.messages.lemma_basic_facts();
        }
    }

    proof fn lemma_parse_bounds(buffer: Seq<u8>, header_offset: int) {
    }

    proof fn lemma_serialize_props(&self, prior: Seq<u8>, c_off: int, d: int) {
        vstd::bytes::lemma_auto_spec_u32_to_from_le_bytes();
        let bb = spec_bitmap_bytes(self.bitmap@);
        assert(bb.len() == 8);
        crate::wire::lemma_splice(prior, c_off, bb);
        let h1 = splice(prior, c_off, bb);
        if self.bitmap@[0] == 1 {
            self.messages.lemma_basic_facts();
            self.messages.lemma_serialize_props(h1, c_off + 8, d);
        }
    }

    fn constant_header_size() -> (r: usize) {
        8
    }

    fn is_contiguous() -> (r: bool) {
        true
    }

    fn is_list(&self) -> (r: bool) {
        false
    }

    fn dynamic_header_size(&self) -> (r: usize) {
        proof {
            self.lemma_basic_facts();
        }
        if self.has_messages() {
            16 + self.messages.dynamic_header_size()
        } else {
            16
        }
    }

    fn dynamic_header_start(&self) -> (r: usize) {
        16
    }

    fn num_scatter_gather_entries(&self) -> (r: usize) {
        proof {
            self.lemma_basic_facts();
        }
        if self.has_messages() {
            self.messages.num_scatter_gather_entries()
        } else {
            0
        }
    }

    fn inner_serialize(
        &self,
        header: &mut Vec<u8>,
        constant_header_offset: usize,
        dynamic_header_start: usize,
        sges: &mut Vec<Sge<'a>>,
        offsets: &mut Vec<usize>,
    ) {
        proof {
            self.lemma_basic_facts();
        }
        serialize_bitmap(header, constant_header_offset, &self.bitmap);
        if self.has_messages() {
            self.messages.inner_serialize(
                header,
                constant_header_offset + 8,
                dynamic_header_start,
                sges,
                offsets,
            );
        } else {
            proof {
                assert(final(sges)@.subrange(0, old(sges)@.len() as int) =~= old(sges)@);
                assert(final(offsets)@.subrange(0, old(offsets)@.len() as int) =~= old(offsets)@);
            }
        }
    }

    fn inner_deserialize(&mut self, buffer: &'a [u8], header_offset: usize) -> (r: Result<
        (),
        WireError,
    >) {
        let bm = match deserialize_bitmap(buffer, header_offset) {
            Ok(bm) => bm,
            Err(e) => {
                return Err(e);
            },
        };
        let blen: usize = buffer.len();
        proof {
            assert(header_offset + BITMAP_LENGTH_FIELD + bm@.len() <= blen);
        }
        let has = bm.len() >= 1 && get_bitmap_field(&bm, 0);
        let mut bitmap = new_bitmap(4);
        if has {
            let mut m: VariableList<'a, CFBytes<'a>> = VariableList::default();
            match m.inner_deserialize(buffer, header_offset + BITMAP_LENGTH_FIELD + bm.len()) {
                Ok(()) => {},
                Err(e) => {
                    return Err(e);
                },
            }
            set_bitmap_field(&mut bitmap, 0);
            self.bitmap = bitmap;
            self.messages = m;
        } else {
            self.bitmap = bitmap;
            self.messages = VariableList::default();
            proof {
                assert(!(final(self).bitmap@[0] == 1));
                assert(final(self).messages.abs() =~= Seq::<Seq<u8>>::empty());
            }
        }
        Ok(())
    }
}


impl<'a> Default for ListCF<'a> {
    /// A fresh message with no field set.
    fn default() -> (r: Self)
        ensures
            r.wf(),
            r.abs() == (ListAbs { has_messages: false, messages: Seq::empty() }),
    {
        ListCF::new()
    }
}

/// The abstract value of a `Tree1LCF`: presence and abstract value of
/// each child (default-valued when absent).
pub struct Tree1Abs {
    /// Whether the left child was set.
    pub has_left: bool,
    /// The left child's abstract value.
    pub left: SingleBufferAbs,
    /// Whether the right child was set.
    pub has_right: bool,
    /// The right child's abstract value.
    pub right: SingleBufferAbs,
}

/// A one-level tree message: two optional nested single-buffer messages.
pub struct Tree1LCF<'a> {
    /// Presence bitmap: one byte per field, aligned up to four.
    pub bitmap: Vec<u8>,
    /// The left child.
    pub left: SingleBufferCF<'a>,
    /// The right child.
    pub right: SingleBufferCF<'a>,
}

impl<'a> Tree1LCF<'a> {
    /// A fresh message with no field set.
    pub fn new() -> (r: Self)
        ensures
            r.wf(),
            r.abs() == (Tree1Abs {
                has_left: false,
                left: spec_single_abs_default(),
                has_right: false,
                right: spec_single_abs_default(),
            }),
    {
        let r = Tree1LCF {
            bitmap: new_bitmap(4),
            left: SingleBufferCF::new(),
            right: SingleBufferCF::new(),
        };
        proof {
            assert(!(r.bitmap@[0] == 1) && !(r.bitmap@[1] == 1));
        }
        r
    }

    /// Whether the left child has been set.
    pub fn has_left(&self) -> (r: bool)
        requires
            self.wf(),
        ensures
            r == self.abs().has_left,
    {
        get_bitmap_field(&self.bitmap, 0)
    }

    /// Whether the right child has been set.
    pub fn has_right(&self) -> (r: bool)
        requires
            self.wf(),
        ensures
            r == self.abs().has_right,
    {
        get_bitmap_field(&self.bitmap, 1)
    }

    /// The left child.
    pub fn get_left(&self) -> (r: &SingleBufferCF<'a>)
        ensures
            r == &self.left,
    {
        &self.left
    }

    /// The right child.
    pub fn get_right(&self) -> (r: &SingleBufferCF<'a>)
        ensures
            r == &self.right,
    {
        &self.right
    }

    /// Sets the left child and marks it present; presence is never
    /// cleared again.
    pub fn set_left(&mut self, field: SingleBufferCF<'a>)
        requires
            old(self).wf(),
            field.wf(),
        ensures
            final(self).wf(),
            final(self).abs().has_left,
            final(self).abs().left == field.abs(),
            final(self).abs().has_right == old(self).abs().has_right,
            final(self).abs().right == old(self).abs().right,
    {
        set_bitmap_field(&mut self.bitmap, 0);
        self.left = field;
    }

    /// Sets the right child and marks it present; presence is never
    /// cleared again.
    pub fn set_right(&mut self, field: SingleBufferCF<'a>)
        requires
            old(self).wf(),
            field.wf(),
        ensures
            final(self).wf(),
            final(self).abs().has_right,
            final(self).abs().right == field.abs(),
            final(self).abs().has_left == old(self).abs().has_left,
            final(self).abs().left == old(self).abs().left,
    {
        set_bitmap_field(&mut self.bitmap, 1);
        self.right = field;
    }

    /// Bitwise presence match plus recursive equality of the present
    /// children.
    pub fn check_deep_equality(&self, other: &Tree1LCF<'a>) -> (r: bool)
        requires
            self.wf(),
            other.wf(),
        ensures
            r == (self.abs() == other.abs()),
    {
        let hl_a = self.has_left();
        let hl_b = other.has_left();
        let hr_a = self.has_right();
        let hr_b = other.has_right();
        if hl_a != hl_b || hr_a != hr_b {
            return false;
        }
        if hl_a {
            if !self.left.check_deep_equality(&other.left) {
                return false;
            }
        }
        if hr_a {
            if !self.right.check_deep_equality(&other.right) {
                return false;
            }
        }
        true
    }
}

impl<'a> HeaderRepr<'a> for Tree1LCF<'a> {
    type Abs = Tree1Abs;

    open spec fn abs(&self) -> Tree1Abs {
        Tree1Abs {
            has_left: self.bitmap@[0] == 1,
            left: if self.bitmap@[0] == 1 {
                self.left.abs()
            } else {
                spec_single_abs_default()
            },
            has_right: self.bitmap@[1] == 1,
            right: if self.bitmap@[1] == 1 {
                self.right.abs()
            } else {
                spec_single_abs_default()
            },
        }
    }

    open spec fn wf(&self) -> bool {
        &&& self.bitmap@.len() == 4
        &&& self.left.wf()
        &&& self.right.wf()
    }

    open spec fn const_hdr_size() -> int {
        8
    }

    open spec fn contiguous() -> bool {
        true
    }

    open spec fn is_list_type() -> bool {
        false
    }

    open spec fn dyn_size(&self) -> int {
        24 + (if self.bitmap@[0] == 1 {
            self.left.dyn_size()
        } else {
            0
        }) + (if self.bitmap@[1] == 1 {
            self.right.dyn_size()
        } else {
            0
        })
    }

    open spec fn dyn_start(&self) -> int {
        24
    }

    open spec fn n_sge(&self) -> int {
        (if self.bitmap@[0] == 1 {
            self.left.n_sge()
        } else {
            0
        }) + (if self.bitmap@[1] == 1 {
            self.right.n_sge()
        } else {
            0
        })
    }

    open spec fn leaves(&self) -> Seq<Seq<u8>> {
        (if self.bitmap@[0] == 1 {
            self.left.leaves()
        } else {
            Seq::empty()
        }) + (if self.bitmap@[1] == 1 {
            self.right.leaves()
        } else {
            Seq::empty()
        })
    }

    open spec fn slots(&self, c_off: int, d: int) -> Seq<int> {
        let dl = d;
        let dr = d + (if self.bitmap@[0] == 1 {
            self.left.dyn_size()
        } else {
            0
        });
        (if self.bitmap@[0] == 1 {
            self.left.slots(dl, dl + self.left.dyn_start())
        } else {
            Seq::empty()
        }) + (if self.bitmap@[1] == 1 {
            self.right.slots(dr, dr + self.right.dyn_start())
        } else {
            Seq::empty()
        })
    }

    open spec fn image(&self, prior: Seq<u8>, c_off: int, d: int) -> Seq<u8> {
        let h1 = splice(prior, c_off, spec_bitmap_bytes(self.bitmap@));
        let dl = d;
        let dr = d + (if self.bitmap@[0] == 1 {
            self.left.dyn_size()
        } else {
            0
        });
        let h2 = if self.bitmap@[0] == 1 {
            self.left.image(
                splice(h1, c_off + 8 + 4, vstd::bytes::spec_u32_to_le_bytes(dl as u32)),
                dl,
                dl + self.left.dyn_start(),
            )
        } else {
            h1
        };
        if self.bitmap@[1] == 1 {
            self.right.image(
                splice(h2, c_off + 16 + 4, vstd::bytes::spec_u32_to_le_bytes(dr as u32)),
                dr,
                dr + self.right.dyn_start(),
            )
        } else {
            h2
        }
    }

    open spec fn parse(buffer: Seq<u8>, header_offset: int) -> Option<Tree1Abs> {
        match spec_parse_bitmap(buffer, header_offset) {
            None => None,
            Some(bm) => {
                let has_l = bm.len() >= 1 && bm[0] == 1;
                let has_r = bm.len() >= 2 && bm[1] == 1;
                let slot_l = header_offset + BITMAP_LENGTH_FIELD + bm.len();
                let slot_r = slot_l + 8;
                let left = if has_l {
                    spec_parse_with_ref::<SingleBufferCF<'a>>(buffer, slot_l, true)
                } else {
                    Some(spec_single_abs_default())
                };
                let right = if has_r {
                    spec_parse_with_ref::<SingleBufferCF<'a>>(buffer, slot_r, true)
                } else {
                    Some(spec_single_abs_default())
                };
                match (left, right) {
                    (Some(l), Some(rr)) => Some(
                        Tree1Abs { has_left: has_l, left: l, has_right: has_r, right: rr },
                    ),
                    _ => None,
                }
            },
        }
    }

    open spec fn deser_wf(&self) -> bool {
        true
    }

    proof fn lemma_basic_facts(&self) {
        if self.bitmap@[0] == 1 {
            self.left.lemma_basic_facts();
        }
        if self.bitmap@[1] == 1 {
            self.right.lemma_basic_facts();
        }
    }

    proof fn lemma_parse_bounds(buffer: Seq<u8>, header_offset: int) {
    }

    proof fn lemma_serialize_props(&self, prior: Seq<u8>, c_off: int, d: int) {
        vstd::bytes::lemma_auto_spec_u32_to_from_le_bytes();
        self.lemma_basic_facts();
        let bb = spec_bitmap_bytes(self.bitmap@);
        assert(bb.len() == 8);
        crate::wire::lemma_splice(prior, c_off, bb);
        let h1 = splice(prior, c_off, bb);
        let dl = d;
        let dr = d + (if self.bitmap@[0] == 1 {
            self.left.dyn_size()
        } else {
            0
        });
        let h2 = if self.bitmap@[0] == 1 {
            let hs = splice(h1, c_off + 8 + 4, vstd::bytes::spec_u32_to_le_bytes(dl as u32));
            crate::wire::lemma_splice(
                h1,
                c_off + 8 + 4,
                vstd::bytes::spec_u32_to_le_bytes(dl as u32),
            );
            self.left.lemma_serialize_props(hs, dl, dl + self.left.dyn_start());
            self.left.image(hs, dl, dl + self.left.dyn_start())
        } else {
            h1
        };
        if self.bitmap@[1] == 1 {
            let hs2 = splice(h2, c_off + 16 + 4, vstd::bytes::spec_u32_to_le_bytes(dr as u32));
            crate::wire::lemma_splice(
                h2,
                c_off + 16 + 4,
                vstd::bytes::spec_u32_to_le_bytes(dr as u32),
            );
            self.right.lemma_serialize_props(hs2, dr, dr + self.right.dyn_start());
        }
    }

    fn constant_header_size() -> (r: usize) {
        8
    }

    fn is_contiguous() -> (r: bool) {
        true
    }

    fn is_list(&self) -> (r: bool) {
        false
    }

    fn dynamic_header_size(&self) -> (r: usize) {
        proof {
            self.lemma_basic_facts();
        }
        let mut total: usize = 24;
        if self.has_left() {
            total = total + self.left.dynamic_header_size();
        }
        if self.has_right() {
            total = total + self.right.dynamic_header_size();
        }
        total
    }

    fn dynamic_header_start(&self) -> (r: usize) {
        24
    }

    fn num_scatter_gather_entries(&self) -> (r: usize) {
        proof {
            self.lemma_basic_facts();
        }
        let mut total: usize = 0;
        if self.has_left() {
            total = total + self.left.num_scatter_gather_entries();
        }
        if self.has_right() {
            total = total + self.right.num_scatter_gather_entries();
        }
        total
    }

    fn inner_serialize(
        &self,
        header: &mut Vec<u8>,
        constant_header_offset: usize,
        dynamic_header_start: usize,
        sges: &mut Vec<Sge<'a>>,
        offsets: &mut Vec<usize>,
    ) {
        proof {
            self.lemma_basic_facts();
        }
        serialize_bitmap(header, constant_header_offset, &self.bitmap);
        let mut cur: usize = dynamic_header_start;
        let ghost sges_mid = sges@;
        let ghost offsets_mid = offsets@;
        if self.has_left() {
            inner_serialize_with_ref(
                &self.left,
                header,
                constant_header_offset + 8,
                cur,
                sges,
                offsets,
                true,
            );
            cur = cur + self.left.dynamic_header_size();
        }
        let ghost sges_l = sges@;
        let ghost offsets_l = offsets@;
        if self.has_right() {
            inner_serialize_with_ref(
                &self.right,
                header,
                constant_header_offset + 16,
                cur,
                sges,
                offsets,
                true,
            );
        }
        proof {
            let lv = if self.bitmap@[0] == 1 {
                self.left.leaves()
            } else {
                Seq::<Seq<u8>>::empty()
            };
            let rv = if self.bitmap@[1] == 1 {
                self.right.leaves()
            } else {
                Seq::<Seq<u8>>::empty()
            };
            let dl = dynamic_header_start as int;
            let dr = dl + (if self.bitmap@[0] == 1 {
                self.left.dyn_size()
            } else {
                0
            });
            let lsl = if self.bitmap@[0] == 1 {
                self.left.slots(dl, dl + self.left.dyn_start())
            } else {
                Seq::<int>::empty()
            };
            let rsl = if self.bitmap@[1] == 1 {
                self.right.slots(dr, dr + self.right.dyn_start())
            } else {
                Seq::<int>::empty()
            };
            if self.bitmap@[0] == 1 {
                self.left.lemma_serialize_props(header@, dl, dl + self.left.dyn_start());
            }
            if self.bitmap@[1] == 1 {
                self.right.lemma_serialize_props(header@, dr, dr + self.right.dyn_start());
            }
            assert(lsl.len() == lv.len());
            assert(rsl.len() == rv.len());
            assert(sges_l.subrange(0, old(sges)@.len() as int) =~= old(sges)@);
            assert(offsets_l.subrange(0, old(offsets)@.len() as int) =~= old(offsets)@);
            assert(final(sges)@.subrange(0, sges_l.len() as int) =~= sges_l);
            assert(final(offsets)@.subrange(0, offsets_l.len() as int) =~= offsets_l);
            lemma_appended_pair_run(
                old(sges)@,
                sges_l,
                final(sges)@,
                |e: Sge<'a>| e.buf@,
                lv,
                rv,
            );
            lemma_appended_pair_run(
                old(offsets)@,
                offsets_l,
                final(offsets)@,
                |o: usize| o as int,
                lsl,
                rsl,
            );
            assert(self.leaves() == lv + rv);
            assert(self.slots(constant_header_offset as int, dynamic_header_start as int) == lsl
                + rsl);
        }
    }

    fn inner_deserialize(&mut self, buffer: &'a [u8], header_offset: usize) -> (r: Result<
        (),
        WireError,
    >) {
        let bm = match deserialize_bitmap(buffer, header_offset) {
            Ok(bm) => bm,
            Err(e) => {
                return Err(e);
            },
        };
        let blen: usize = buffer.len();
        proof {
            assert(header_offset + BITMAP_LENGTH_FIELD + bm@.len() <= blen);
        }
        let has_l = bm.len() >= 1 && get_bitmap_field(&bm, 0);
        let has_r = bm.len() >= 2 && get_bitmap_field(&bm, 1);
        let slot_l = header_offset + BITMAP_LENGTH_FIELD + bm.len();
        let mut bitmap = new_bitmap(4);
        let mut left = SingleBufferCF::new();
        let mut right = SingleBufferCF::new();
        if has_l {
            match inner_deserialize_with_ref(&mut left, buffer, slot_l, true) {
                Ok(()) => {},
                Err(e) => {
                    return Err(e);
                },
            }
            set_bitmap_field(&mut bitmap, 0);
        }
        if has_r {
            if blen < 8 || slot_l > blen - 8 {
                proof {
                    assert(spec_parse_with_ref::<SingleBufferCF<'a>>(
                        buffer@,
                        slot_l as int + 8,
                        true,
                    ) is None);
                }
                return Err(WireError::Malformed);
            }
            match inner_deserialize_with_ref(&mut right, buffer, slot_l + 8, true) {
                Ok(()) => {},
                Err(e) => {
                    return Err(e);
                },
            }
            set_bitmap_field(&mut bitmap, 1);
        }
        self.bitmap = bitmap;
        self.left = left;
        self.right = right;
        proof {
            assert((final(self).bitmap@[0] == 1) == has_l);
            assert((final(self).bitmap@[1] == 1) == has_r);
        }
        Ok(())
    }
}


impl<'a> Default for Tree1LCF<'a> {
    /// A fresh message with no field set.
    fn default() -> (r: Self)
        ensures
            r.wf(),
            !r.abs().has_left && !r.abs().has_right,
    {
        Tree1LCF::new()
    }
}



/// The default abstract value of a `Tree1LCF`: nothing present.
pub open spec fn spec_tree1_abs_default() -> Tree1Abs {
    Tree1Abs {
        has_left: false,
        left: spec_single_abs_default(),
        has_right: false,
        right: spec_single_abs_default(),
    }
}

/// The abstract value of a `Tree2LCF`: presence and abstract value of
/// each child (default-valued when absent).
pub struct Tree2Abs {
    /// Whether the left child was set.
    pub has_left: bool,
    /// The left child's abstract value.
    pub left: Tree1Abs,
    /// Whether the right child was set.
    pub has_right: bool,
    /// The right child's abstract value.
    pub right: Tree1Abs,
}

/// A two-level tree message: two optional nested one-level trees,
/// four byte-string leaves in all.
pub struct Tree2LCF<'a> {
    /// Presence bitmap: one byte per field, aligned up to four.
    pub bitmap: Vec<u8>,
    /// The left child.
    pub left: Tree1LCF<'a>,
    /// The right child.
    pub right: Tree1LCF<'a>,
}

impl<'a> Tree2LCF<'a> {
    /// A fresh message with no field set.
    pub fn new() -> (r: Self)
        ensures
            r.wf(),
            r.abs() == (Tree2Abs {
                has_left: false,
                left: spec_tree1_abs_default(),
                has_right: false,
                right: spec_tree1_abs_default(),
            }),
    {
        let r = Tree2LCF {
            bitmap: new_bitmap(4),
            left: Tree1LCF::new(),
            right: Tree1LCF::new(),
        };
        proof {
            assert(!(r.bitmap@[0] == 1) && !(r.bitmap@[1] == 1));
        }
        r
    }

    /// Whether the left child has been set.
    pub fn has_left(&self) -> (r: bool)
        requires
            self.wf(),
        ensures
            r == self.abs().has_left,
    {
        get_bitmap_field(&self.bitmap, 0)
    }

    /// Whether the right child has been set.
    pub fn has_right(&self) -> (r: bool)
        requires
            self.wf(),
        ensures
            r == self.abs().has_right,
    {
        get_bitmap_field(&self.bitmap, 1)
    }

    /// The left child.
    pub fn get_left(&self) -> (r: &Tree1LCF<'a>)
        ensures
            r == &self.left,
    {
        &self.left
    }

    /// The right child.
    pub fn get_right(&self) -> (r: &Tree1LCF<'a>)
        ensures
            r == &self.right,
    {
        &self.right
    }

    /// Sets the left child and marks it present; presence is never
    /// cleared again.
    pub fn set_left(&mut self, field: Tree1LCF<'a>)
        requires
            old(self).wf(),
            field.wf(),
        ensures
            final(self).wf(),
            final(self).abs().has_left,
            final(self).abs().left == field.abs(),
            final(self).abs().has_right == old(self).abs().has_right,
            final(self).abs().right == old(self).abs().right,
    {
        set_bitmap_field(&mut self.bitmap, 0);
        self.left = field;
    }

    /// Sets the right child and marks it present; presence is never
    /// cleared again.
    pub fn set_right(&mut self, field: Tree1LCF<'a>)
        requires
            old(self).wf(),
            field.wf(),
        ensures
            final(self).wf(),
            final(self).abs().has_right,
            final(self).abs().right == field.abs(),
            final(self).abs().has_left == old(self).abs().has_left,
            final(self).abs().left == old(self).abs().left,
    {
        set_bitmap_field(&mut self.bitmap, 1);
        self.right = field;
    }

    /// Bitwise presence match plus recursive equality of the present
    /// children.
    pub fn check_deep_equality(&self, other: &Tree2LCF<'a>) -> (r: bool)
        requires
            self.wf(),
            other.wf(),
        ensures
            r == (self.abs() == other.abs()),
    {
        let hl_a = self.has_left();
        let hl_b = other.has_left();
        let hr_a = self.has_right();
        let hr_b = other.has_right();
        if hl_a != hl_b || hr_a != hr_b {
            return false;
        }
        if hl_a {
            if !self.left.check_deep_equality(&other.left) {
                return false;
            }
        }
        if hr_a {
            if !self.right.check_deep_equality(&other.right) {
                return false;
            }
        }
        true
    }
}

impl<'a> HeaderRepr<'a> for Tree2LCF<'a> {
    type Abs = Tree2Abs;

    open spec fn abs(&self) -> Tree2Abs {
        Tree2Abs {
            has_left: self.bitmap@[0] == 1,
            left: if self.bitmap@[0] == 1 {
                self.left.abs()
            } else {
                spec_tree1_abs_default()
            },
            has_right: self.bitmap@[1] == 1,
            right: if self.bitmap@[1] == 1 {
                self.right.abs()
            } else {
                spec_tree1_abs_default()
            },
        }
    }

    open spec fn wf(&self) -> bool {
        &&& self.bitmap@.len() == 4
        &&& self.left.wf()
        &&& self.right.wf()
    }

    open spec fn const_hdr_size() -> int {
        8
    }

    open spec fn contiguous() -> bool {
        true
    }

    open spec fn is_list_type() -> bool {
        false
    }

    open spec fn dyn_size(&self) -> int {
        24 + (if self.bitmap@[0] == 1 {
            self.left.dyn_size()
        } else {
            0
        }) + (if self.bitmap@[1] == 1 {
            self.right.dyn_size()
        } else {
            0
        })
    }

    open spec fn dyn_start(&self) -> int {
        24
    }

    open spec fn n_sge(&self) -> int {
        (if self.bitmap@[0] == 1 {
            self.left.n_sge()
        } else {
            0
        }) + (if self.bitmap@[1] == 1 {
            self.right.n_sge()
        } else {
            0
        })
    }

    open spec fn leaves(&self) -> Seq<Seq<u8>> {
        (if self.bitmap@[0] == 1 {
            self.left.leaves()
        } else {
            Seq::empty()
        }) + (if self.bitmap@[1] == 1 {
            self.right.leaves()
        } else {
            Seq::empty()
        })
    }

    open spec fn slots(&self, c_off: int, d: int) -> Seq<int> {
        let dl = d;
        let dr = d + (if self.bitmap@[0] == 1 {
            self.left.dyn_size()
        } else {
            0
        });
        (if self.bitmap@[0] == 1 {
            self.left.slots(dl, dl + self.left.dyn_start())
        } else {
            Seq::empty()
        }) + (if self.bitmap@[1] == 1 {
            self.right.slots(dr, dr + self.right.dyn_start())
        } else {
            Seq::empty()
        })
    }

    open spec fn image(&self, prior: Seq<u8>, c_off: int, d: int) -> Seq<u8> {
        let h1 = splice(prior, c_off, spec_bitmap_bytes(self.bitmap@));
        let dl = d;
        let dr = d + (if self.bitmap@[0] == 1 {
            self.left.dyn_size()
        } else {
            0
        });
        let h2 = if self.bitmap@[0] == 1 {
            self.left.image(
                splice(h1, c_off + 8 + 4, vstd::bytes::spec_u32_to_le_bytes(dl as u32)),
                dl,
                dl + self.left.dyn_start(),
            )
        } else {
            h1
        };
        if self.bitmap@[1] == 1 {
            self.right.image(
                splice(h2, c_off + 16 + 4, vstd::bytes::spec_u32_to_le_bytes(dr as u32)),
                dr,
                dr + self.right.dyn_start(),
            )
        } else {
            h2
        }
    }

    open spec fn parse(buffer: Seq<u8>, header_offset: int) -> Option<Tree2Abs> {
        match spec_parse_bitmap(buffer, header_offset) {
            None => None,
            Some(bm) => {
                let has_l = bm.len() >= 1 && bm[0] == 1;
                let has_r = bm.len() >= 2 && bm[1] == 1;
                let slot_l = header_offset + BITMAP_LENGTH_FIELD + bm.len();
                let slot_r = slot_l + 8;
                let left = if has_l {
                    spec_parse_with_ref::<Tree1LCF<'a>>(buffer, slot_l, true)
                } else {
                    Some(spec_tree1_abs_default())
                };
                let right = if has_r {
                    spec_parse_with_ref::<Tree1LCF<'a>>(buffer, slot_r, true)
                } else {
                    Some(spec_tree1_abs_default())
                };
                match (left, right) {
                    (Some(l), Some(rr)) => Some(
                        Tree2Abs { has_left: has_l, left: l, has_right: has_r, right: rr },
                    ),
                    _ => None,
                }
            },
        }
    }

    open spec fn deser_wf(&self) -> bool {
        true
    }

    proof fn lemma_basic_facts(&self) {
        if self.bitmap@[0] == 1 {
            self.left.lemma_basic_facts();
        }
        if self.bitmap@[1] == 1 {
            self.right.lemma_basic_facts();
        }
    }

    proof fn lemma_parse_bounds(buffer: Seq<u8>, header_offset: int) {
    }

    proof fn lemma_serialize_props(&self, prior: Seq<u8>, c_off: int, d: int) {
        vstd::bytes::lemma_auto_spec_u32_to_from_le_bytes();
        self.lemma_basic_facts();
        let bb = spec_bitmap_bytes(self.bitmap@);
        assert(bb.len() == 8);
        crate::wire::lemma_splice(prior, c_off, bb);
        let h1 = splice(prior, c_off, bb);
        let dl = d;
        let dr = d + (if self.bitmap@[0] == 1 {
            self.left.dyn_size()
        } else {
            0
        });
        let h2 = if self.bitmap@[0] == 1 {
            let hs = splice(h1, c_off + 8 + 4, vstd::bytes::spec_u32_to_le_bytes(dl as u32));
            crate::wire::lemma_splice(
                h1,
                c_off + 8 + 4,
                vstd::bytes::spec_u32_to_le_bytes(dl as u32),
            );
            self.left.lemma_serialize_props(hs, dl, dl + self.left.dyn_start());
            self.left.image(hs, dl, dl + self.left.dyn_start())
        } else {
            h1
        };
        if self.bitmap@[1] == 1 {
            let hs2 = splice(h2, c_off + 16 + 4, vstd::bytes::spec_u32_to_le_bytes(dr as u32));
            crate::wire::lemma_splice(
                h2,
                c_off + 16 + 4,
                vstd::bytes::spec_u32_to_le_bytes(dr as u32),
            );
            self.right.lemma_serialize_props(hs2, dr, dr + self.right.dyn_start());
        }
    }

    fn constant_header_size() -> (r: usize) {
        8
    }

    fn is_contiguous() -> (r: bool) {
        true
    }

    fn is_list(&self) -> (r: bool) {
        false
    }

    fn dynamic_header_size(&self) -> (r: usize) {
        proof {
            self.lemma_basic_facts();
        }
        let mut total: usize = 24;
        if self.has_left() {
            total = total + self.left.dynamic_header_size();
        }
        if self.has_right() {
            total = total + self.right.dynamic_header_size();
        }
        total
    }

    fn dynamic_header_start(&self) -> (r: usize) {
        24
    }

    fn num_scatter_gather_entries(&self) -> (r: usize) {
        proof {
            self.lemma_basic_facts();
        }
        let mut total: usize = 0;
        if self.has_left() {
            total = total + self.left.num_scatter_gather_entries();
        }
        if self.has_right() {
            total = total + self.right.num_scatter_gather_entries();
        }
        total
    }

    fn inner_serialize(
        &self,
        header: &mut Vec<u8>,
        constant_header_offset: usize,
        dynamic_header_start: usize,
        sges: &mut Vec<Sge<'a>>,
        offsets: &mut Vec<usize>,
    ) {
        proof {
            self.lemma_basic_facts();
        }
        serialize_bitmap(header, constant_header_offset, &self.bitmap);
        let mut cur: usize = dynamic_header_start;
        let ghost sges_mid = sges@;
        let ghost offsets_mid = offsets@;
        if self.has_left() {
            inner_serialize_with_ref(
                &self.left,
                header,
                constant_header_offset + 8,
                cur,
                sges,
                offsets,
                true,
            );
            cur = cur + self.left.dynamic_header_size();
        }
        let ghost sges_l = sges@;
        let ghost offsets_l = offsets@;
        if self.has_right() {
            inner_serialize_with_ref(
                &self.right,
                header,
                constant_header_offset + 16,
                cur,
                sges,
                offsets,
                true,
            );
        }
        proof {
            let lv = if self.bitmap@[0] == 1 {
                self.left.leaves()
            } else {
                Seq::<Seq<u8>>::empty()
            };
            let rv = if self.bitmap@[1] == 1 {
                self.right.leaves()
            } else {
                Seq::<Seq<u8>>::empty()
            };
            let dl = dynamic_header_start as int;
            let dr = dl + (if self.bitmap@[0] == 1 {
                self.left.dyn_size()
            } else {
                0
            });
            let lsl = if self.bitmap@[0] == 1 {
                self.left.slots(dl, dl + self.left.dyn_start())
            } else {
                Seq::<int>::empty()
            };
            let rsl = if self.bitmap@[1] == 1 {
                self.right.slots(dr, dr + self.right.dyn_start())
            } else {
                Seq::<int>::empty()
            };
            if self.bitmap@[0] == 1 {
                self.left.lemma_serialize_props(header@, dl, dl + self.left.dyn_start());
            }
            if self.bitmap@[1] == 1 {
                self.right.lemma_serialize_props(header@, dr, dr + self.right.dyn_start());
            }
            assert(lsl.len() == lv.len());
            assert(rsl.len() == rv.len());
            assert(sges_l.subrange(0, old(sges)@.len() as int) =~= old(sges)@);
            assert(offsets_l.subrange(0, old(offsets)@.len() as int) =~= old(offsets)@);
            assert(final(sges)@.subrange(0, sges_l.len() as int) =~= sges_l);
            assert(final(offsets)@.subrange(0, offsets_l.len() as int) =~= offsets_l);
            lemma_appended_pair_run(
                old(sges)@,
                sges_l,
                final(sges)@,
                |e: Sge<'a>| e.buf@,
                lv,
                rv,
            );
            lemma_appended_pair_run(
                old(offsets)@,
                offsets_l,
                final(offsets)@,
                |o: usize| o as int,
                lsl,
                rsl,
            );
            assert(self.leaves() == lv + rv);
            assert(self.slots(constant_header_offset as int, dynamic_header_start as int) == lsl
                + rsl);
        }
    }

    fn inner_deserialize(&mut self, buffer: &'a [u8], header_offset: usize) -> (r: Result<
        (),
        WireError,
    >) {
        let bm = match deserialize_bitmap(buffer, header_offset) {
            Ok(bm) => bm,
            Err(e) => {
                return Err(e);
            },
        };
        let blen: usize = buffer.len();
        proof {
            assert(header_offset + BITMAP_LENGTH_FIELD + bm@.len() <= blen);
        }
        let has_l = bm.len() >= 1 && get_bitmap_field(&bm, 0);
        let has_r = bm.len() >= 2 && get_bitmap_field(&bm, 1);
        let slot_l = header_offset + BITMAP_LENGTH_FIELD + bm.len();
        let mut bitmap = new_bitmap(4);
        let mut left = Tree1LCF::new();
        let mut right = Tree1LCF::new();
        if has_l {
            match inner_deserialize_with_ref(&mut left, buffer, slot_l, true) {
                Ok(()) => {},
                Err(e) => {
                    return Err(e);
                },
            }
            set_bitmap_field(&mut bitmap, 0);
        }
        if has_r {
            if blen < 8 || slot_l > blen - 8 {
                proof {
                    assert(spec_parse_with_ref::<Tree1LCF<'a>>(
                        buffer@,
                        slot_l as int + 8,
                        true,
                    ) is None);
                }
                return Err(WireError::Malformed);
            }
            match inner_deserialize_with_ref(&mut right, buffer, slot_l + 8, true) {
                Ok(()) => {},
                Err(e) => {
                    return Err(e);
                },
            }
            set_bitmap_field(&mut bitmap, 1);
        }
        self.bitmap = bitmap;
        self.left = left;
        self.right = right;
        proof {
            assert((final(self).bitmap@[0] == 1) == has_l);
            assert((final(self).bitmap@[1] == 1) == has_r);
        }
        Ok(())
    }
}


impl<'a> Default for Tree2LCF<'a> {
    /// A fresh message with no field set.
    fn default() -> (r: Self)
        ensures
            r.wf(),
            !r.abs().has_left && !r.abs().has_right,
    {
        Tree2LCF::new()
    }
}




} // verus!
