//! Scalar lists: homogeneous fixed-width values, packed out-of-line.
//!
//! An `OwnedList` manages its own elements; a `RefList` is the
//! deserialize target, holding the values decoded from a received
//! packet.  Decoding is an explicit per-element little-endian codec, so
//! mutating a deserialized list changes only the in-memory view, never
//! the received packet's bytes.  `List` is the field type: either
//! variant behind one interface; appending is only legal on the owned
//! variant.

use crate::fwd::{read_fwd_offset, read_fwd_size, spec_fwd_bytes, spec_fwd_offset, spec_fwd_size, write_fwd};
use crate::hdr::HeaderRepr;
use crate::scalars::{lemma_packed_len, spec_packed, WireScalar};
use crate::sga::Sge;
use crate::wire::{lemma_splice, lemma_splice_adjacent, splice};
use crate::WireError;
use vstd::arithmetic::mul::lemma_mul_inequality;
use vstd::prelude::*;

verus! {

/// What a scalar-list forward pointer at `header_offset` decodes to: the
/// `count` values of width `W` packed at its offset, when they lie
/// inside the buffer.
pub open spec fn spec_parse_scalar_list<T: WireScalar>(buffer: Seq<u8>, header_offset: int) -> Option<
    Seq<T>,
> {
    if 0 <= header_offset && header_offset + 8 <= buffer.len() {
        let n = spec_fwd_size(buffer, header_offset) as int;
        let o = spec_fwd_offset(buffer, header_offset) as int;
        if o + n * T::width() <= buffer.len() {
            Some(
                Seq::new(
                    n as nat,
                    |i: int| T::from_wire(
                        buffer.subrange(o + i * T::width(), o + (i + 1) * T::width()),
                    ),
                ),
            )
        } else {
            None
        }
    } else {
        None
    }
}

/// Writes the fixed scalar-list wire form: a forward pointer at `c_off`
/// holding (count, `d`), and the packed elements at `d`.
fn serialize_scalar_elems<T: WireScalar>(
    header: &mut Vec<u8>,
    c_off: usize,
    d: usize,
    elts: &Vec<T>,
    count: usize,
)
    requires
        count <= elts@.len(),
        c_off + 8 <= old(header)@.len(),
        d + (count as int) * T::width() <= old(header)@.len(),
        old(header)@.len() < 0x1_0000_0000,
    ensures
        final(header)@ == splice(
            splice(old(header)@, c_off as int, spec_fwd_bytes(count as u32, d as u32)),
            d as int,
            spec_packed(elts@.subrange(0, count as int)),
        ),
        final(header)@.len() == old(header)@.len(),
{
    let hlen: usize = header.len();
    proof {
        T::lemma_width();
        assert((count as int) <= (count as int) * T::width()) by (nonlinear_arith)
            requires
                T::width() >= 1,
                count >= 0,
        ;
        assert((count as int) < 0x1_0000_0000);
        assert((d as int) < 0x1_0000_0000);
    }
    write_fwd(header, c_off, count as u32, d as u32);
    let ghost h0 = header@;
    let w = T::width_exec();
    let mut pos: usize = d;
    let mut i: usize = 0;
    proof {
        assert(elts@.subrange(0, 0) =~= Seq::<T>::empty());
        assert(header@ == splice(h0, d as int, spec_packed(elts@.subrange(0, 0)))) by {
            assert(spec_packed(elts@.subrange(0, 0)) =~= Seq::<u8>::empty());
            lemma_splice(h0, d as int, Seq::<u8>::empty());
            assert(splice(h0, d as int, Seq::<u8>::empty()) =~= h0);
        }
        lemma_packed_len::<T>(elts@.subrange(0, 0));
    }
    while i < count
        invariant
            i <= count,
            count <= elts@.len(),
            w as int == T::width(),
            0 < T::width() <= 8,
            hlen == header@.len(),
            hlen == h0.len(),
            d + (count as int) * T::width() <= hlen,
            pos as int == d + (i as int) * T::width(),
            header@ == splice(h0, d as int, spec_packed(elts@.subrange(0, i as int))),
        decreases count - i,
    {
        proof {
            lemma_mul_inequality(i as int + 1, count as int, T::width());
            assert((i as int + 1) * T::width() == (i as int) * T::width() + T::width())
                by (nonlinear_arith);
            lemma_packed_len::<T>(elts@.subrange(0, i as int));
        }
        let ghost before = header@;
        let ghost patch = spec_packed(elts@.subrange(0, i as int));
        elts[i].write_to(header, pos);
        proof {
            elts@[i as int].lemma_codec();
            lemma_splice_adjacent(h0, d as int, patch, elts@[i as int].wire_bytes());
            assert(patch + elts@[i as int].wire_bytes() =~= spec_packed(
                elts@.subrange(0, i as int + 1),
            )) by {
                assert(elts@.subrange(0, i as int + 1).drop_last() =~= elts@.subrange(
                    0,
                    i as int,
                ));
            }
        }
        pos = pos + w;
        i = i + 1;
    }
    proof {
        assert(elts@.subrange(0, count as int) == elts@.subrange(0, count as int));
    }
}

/// Reads the scalar-list wire form at `header_offset` into a vector of
/// decoded values; fails exactly when `spec_parse_scalar_list` does.
fn deserialize_scalar_elems<T: WireScalar>(buffer: &[u8], header_offset: usize) -> (r: Result<
    Vec<T>,
    WireError,
>)
    ensures
        r.is_ok() <==> spec_parse_scalar_list::<T>(buffer@, header_offset as int).is_some(),
        r.is_ok() ==> r.unwrap()@ == spec_parse_scalar_list::<T>(
            buffer@,
            header_offset as int,
        ).unwrap(),
{
    let blen: usize = buffer.len();
    if blen < 8 || header_offset > blen - 8 {
        return Err(WireError::Malformed);
    }
    let n32 = read_fwd_size(buffer, header_offset);
    let o32 = read_fwd_offset(buffer, header_offset);
    let n = n32 as usize;
    let o = o32 as usize;
    let w = T::width_exec();
    proof {
        T::lemma_width();
        assert((n as int) * (w as int) <= 0xFFFF_FFFF * 8) by (nonlinear_arith)
            requires
                0 <= (n as int) <= 0xFFFF_FFFF,
                0 <= (w as int) <= 8,
        ;
    }
    if (o as u64) + (n as u64) * (w as u64) > (blen as u64) {
        proof {
            assert((o as int) + (n as int) * (w as int) > blen as int);
        }
        return Err(WireError::Malformed);
    }
    proof {
        assert((o as int) + (n as int) * (w as int) <= blen as int);
    }
    let mut elts: Vec<T> = Vec::new();
    let mut pos: usize = o;
    let mut i: usize = 0;
    let ghost target = spec_parse_scalar_list::<T>(buffer@, header_offset as int).unwrap();
    while i < n
        invariant
            i <= n,
            w as int == T::width(),
            0 < T::width() <= 8,
            blen == buffer@.len(),
            header_offset + 8 <= blen,
            o as int == spec_fwd_offset(buffer@, header_offset as int) as int,
            n as int == spec_fwd_size(buffer@, header_offset as int) as int,
            (o as int) + (n as int) * T::width() <= blen as int,
            pos as int == o + (i as int) * T::width(),
            elts@.len() == i,
            target == spec_parse_scalar_list::<T>(buffer@, header_offset as int).unwrap(),
            spec_parse_scalar_list::<T>(buffer@, header_offset as int).is_some(),
            target.len() == n,
            forall|k: int| 0 <= k < i ==> elts@[k] == #[trigger] target[k],
        decreases n - i,
    {
        proof {
            lemma_mul_inequality(i as int + 1, n as int, T::width());
            assert((i as int + 1) * T::width() == (i as int) * T::width() + T::width())
                by (nonlinear_arith);
        }
        let v = T::read_from(buffer, pos);
        proof {
            assert(target[i as int] == T::from_wire(
                buffer@.subrange(
                    (o as int) + (i as int) * T::width(),
                    (o as int) + (i as int + 1) * T::width(),
                ),
            ));
            assert(v == target[i as int]);
        }
        elts.push(v);
        pos = pos + w;
        i = i + 1;
    }
    proof {
        assert(elts@ =~= target);
    }
    Ok(elts)
}

/// A scalar list that owns and manages its elements.
pub struct OwnedList<'a, T: WireScalar> {
    /// Capacity declared at `init`.
    pub num_space: usize,
    /// How many elements have been appended.
    pub num_set: usize,
    /// Backing elements: `num_space` values, the first `num_set` of them
    /// appended, the rest zero.
    pub elts: Vec<T>,
    /// Ties the list to the buffer lifetime of its enclosing message.
    pub _marker: core::marker::PhantomData<&'a [u8]>,
}

impl<'a, T: WireScalar> OwnedList<'a, T> {
    /// A list of `size` zeroed slots with none appended.
    pub fn init(size: usize) -> (r: Self)
        ensures
            r.wf(),
            r.num_set == 0,
            r.num_space == size,
            r.abs() == Seq::<T>::empty(),
    {
        let mut elts: Vec<T> = Vec::new();
        let mut i: usize = 0;
        while i < size
            invariant
                i <= size,
                elts@.len() == i,
            decreases size - i,
        {
            elts.push(T::zero());
            i = i + 1;
        }
        let r = OwnedList { num_space: size, num_set: 0, elts, _marker: core::marker::PhantomData };
        proof {
            assert(r.abs() =~= Seq::<T>::empty());
        }
        r
    }

    /// Appends one value.  Appending past the declared capacity is a
    /// programmer error and is excluded by contract.
    pub fn append(&mut self, val: T)
        requires
            old(self).wf(),
            old(self).num_set < old(self).num_space,
        ensures
            final(self).wf(),
            final(self).num_set == old(self).num_set + 1,
            final(self).num_space == old(self).num_space,
            final(self).abs() == old(self).abs().push(val),
    {
        self.elts[self.num_set] = val;
        self.num_set = self.num_set + 1;
        proof {
            assert(final(self).abs() =~= old(self).abs().push(val));
        }
    }

    /// Writes the value at `idx`; slots past the appended count keep the
    /// list's observable elements unchanged.
    pub fn replace(&mut self, idx: usize, val: T)
        requires
            old(self).wf(),
            idx < old(self).num_space,
        ensures
            final(self).wf(),
            final(self).num_set == old(self).num_set,
            final(self).num_space == old(self).num_space,
            final(self).elts@ == old(self).elts@.update(idx as int, val),
            final(self).abs() == if idx < old(self).num_set {
                old(self).abs().update(idx as int, val)
            } else {
                old(self).abs()
            },
    {
        self.elts[idx] = val;
        proof {
            if idx < self.num_set {
                assert(final(self).abs() =~= old(self).abs().update(idx as int, val));
            } else {
                assert(final(self).abs() =~= old(self).abs());
            }
        }
    }

    /// Number of appended elements.
    pub fn len(&self) -> (r: usize)
        ensures
            r == self.num_set,
    {
        self.num_set
    }

    /// The value at `idx`; slots past the appended count read zero.
    pub fn index(&self, idx: usize) -> (r: T)
        requires
            self.wf(),
            idx < self.num_space,
        ensures
            r == self.elts@[idx as int],
    {
        self.elts[idx]
    }
}

impl<'a, T: WireScalar> Default for OwnedList<'a, T> {
    /// The empty list with no capacity.
    fn default() -> (r: Self)
        ensures
            r.wf(),
            r.num_set == 0,
            r.num_space == 0,
            r.abs() == Seq::<T>::empty(),
    {
        let r = OwnedList {
            num_space: 0,
            num_set: 0,
            elts: Vec::new(),
            _marker: core::marker::PhantomData,
        };
        proof {
            assert(r.abs() =~= Seq::<T>::empty());
        }
        r
    }
}

impl<'a, T: WireScalar> HeaderRepr<'a> for OwnedList<'a, T> {
    type Abs = Seq<T>;

    open spec fn abs(&self) -> Seq<T> {
        self.elts@.subrange(0, self.num_set as int)
    }

    open spec fn wf(&self) -> bool {
        &&& self.num_set <= self.num_space
        &&& self.elts@.len() == self.num_space
    }

    open spec fn const_hdr_size() -> int {
        8
    }

    open spec fn contiguous() -> bool {
        false
    }

    open spec fn is_list_type() -> bool {
        true
    }

    open spec fn dyn_size(&self) -> int {
        (self.num_set as int) * T::width()
    }

    open spec fn dyn_start(&self) -> int {
        0
    }

    open spec fn n_sge(&self) -> int {
        0
    }

    open spec fn leaves(&self) -> Seq<Seq<u8>> {
        Seq::empty()
    }

    open spec fn slots(&self, c_off: int, d: int) -> Seq<int> {
        Seq::empty()
    }

    open spec fn image(&self, prior: Seq<u8>, c_off: int, d: int) -> Seq<u8> {
        splice(
            splice(prior, c_off, spec_fwd_bytes(self.num_set as u32, d as u32)),
            d,
            spec_packed(self.abs()),
        )
    }

    open spec fn parse(buffer: Seq<u8>, header_offset: int) -> Option<Seq<T>> {
        spec_parse_scalar_list::<T>(buffer, header_offset)
    }

    open spec fn deser_wf(&self) -> bool {
        self.num_set == self.num_space
    }

    proof fn lemma_basic_facts(&self) {
        T::lemma_width();
        assert(self.dyn_size() >= 0) by (nonlinear_arith)
            requires
                T::width() >= 1,
                self.num_set >= 0,
        ;
    }

    proof fn lemma_parse_bounds(buffer: Seq<u8>, header_offset: int) {
    }

    proof fn lemma_serialize_props(&self, prior: Seq<u8>, c_off: int, d: int) {
        T::lemma_width();
        vstd::bytes::lemma_auto_spec_u32_to_from_le_bytes();
        let fwd = spec_fwd_bytes(self.num_set as u32, d as u32);
        assert(fwd.len() == 8);
        lemma_splice(prior, c_off, fwd);
        lemma_packed_len::<T>(self.abs());
        lemma_splice(splice(prior, c_off, fwd), d, spec_packed(self.abs()));
    }

    fn constant_header_size() -> (r: usize) {
        8
    }

    fn is_contiguous() -> (r: bool) {
        false
    }

    fn is_list(&self) -> (r: bool) {
        true
    }

    fn dynamic_header_size(&self) -> (r: usize) {
        let w = T::width_exec();
        proof {
            T::lemma_width();
        }
        self.num_set * w
    }

    fn dynamic_header_start(&self) -> (r: usize) {
        0
    }

    fn num_scatter_gather_entries(&self) -> (r: usize) {
        0
    }

    fn inner_serialize(
        &self,
        header: &mut Vec<u8>,
        constant_header_offset: usize,
        dynamic_header_start: usize,
        sges: &mut Vec<Sge<'a>>,
        offsets: &mut Vec<usize>,
    ) {
        proof {
            T::lemma_width();
        }
        serialize_scalar_elems::<T>(
            header,
            constant_header_offset,
            dynamic_header_start,
            &self.elts,
            self.num_set,
        );
        proof {
            assert(self.elts@.subrange(0, self.num_set as int) == self.abs());
            assert(final(sges)@.subrange(0, old(sges)@.len() as int) =~= old(sges)@);
            assert(final(offsets)@.subrange(0, old(offsets)@.len() as int) =~= old(offsets)@);
        }
    }

    fn inner_deserialize(&mut self, buffer: &'a [u8], header_offset: usize) -> (r: Result<
        (),
        WireError,
    >) {
        match deserialize_scalar_elems::<T>(buffer, header_offset) {
            Ok(elts) => {
                let n = elts.len();
                self.num_space = n;
                self.num_set = n;
                self.elts = elts;
                proof {
                    assert(final(self).abs() =~= final(self).elts@);
                }
                Ok(())
            },
            Err(e) => Err(e),
        }
    }
}

/// The deserialize target for scalar lists: the values decoded from one
/// received packet.  Writing through `replace` changes this view only,
/// never the packet the values came from.
pub struct RefList<'a, T: WireScalar> {
    /// Element count read from the wire.
    pub num_space: usize,
    /// The decoded values.
    pub elts: Vec<T>,
    /// Ties the list to the buffer lifetime of its enclosing message.
    pub _marker: core::marker::PhantomData<&'a [u8]>,
}

impl<'a, T: WireScalar> RefList<'a, T> {
    /// Writes the value at `idx` in this view.
    pub fn replace(&mut self, idx: usize, val: T)
        requires
            old(self).wf(),
            idx < old(self).num_space,
        ensures
            final(self).wf(),
            final(self).num_space == old(self).num_space,
            final(self).abs() == old(self).abs().update(idx as int, val),
    {
        self.elts[idx] = val;
    }

    /// Number of elements.
    pub fn len(&self) -> (r: usize)
        ensures
            r == self.num_space,
    {
        self.num_space
    }

    /// The value at `idx`.
    pub fn index(&self, idx: usize) -> (r: T)
        requires
            self.wf(),
            idx < self.num_space,
        ensures
            r == self.abs()[idx as int],
    {
        self.elts[idx]
    }
}

impl<'a, T: WireScalar> Default for RefList<'a, T> {
    /// The empty view.
    fn default() -> (r: Self)
        ensures
            r.wf(),
            r.num_space == 0,
            r.abs() == Seq::<T>::empty(),
    {
        let r = RefList { num_space: 0, elts: Vec::new(), _marker: core::marker::PhantomData };
        proof {
            assert(r.abs() =~= Seq::<T>::empty());
        }
        r
    }
}

impl<'a, T: WireScalar> HeaderRepr<'a> for RefList<'a, T> {
    type Abs = Seq<T>;

    open spec fn abs(&self) -> Seq<T> {
        self.elts@
    }

    open spec fn wf(&self) -> bool {
        self.elts@.len() == self.num_space
    }

    open spec fn const_hdr_size() -> int {
        8
    }

    open spec fn contiguous() -> bool {
        false
    }

    open spec fn is_list_type() -> bool {
        true
    }

    open spec fn dyn_size(&self) -> int {
        (self.num_space as int) * T::width()
    }

    open spec fn dyn_start(&self) -> int {
        0
    }

    open spec fn n_sge(&self) -> int {
        0
    }

    open spec fn leaves(&self) -> Seq<Seq<u8>> {
        Seq::empty()
    }

    open spec fn slots(&self, c_off: int, d: int) -> Seq<int> {
        Seq::empty()
    }

    open spec fn image(&self, prior: Seq<u8>, c_off: int, d: int) -> Seq<u8> {
        splice(
            splice(prior, c_off, spec_fwd_bytes(self.num_space as u32, d as u32)),
            d,
            spec_packed(self.abs()),
        )
    }

    open spec fn parse(buffer: Seq<u8>, header_offset: int) -> Option<Seq<T>> {
        spec_parse_scalar_list::<T>(buffer, header_offset)
    }

    open spec fn deser_wf(&self) -> bool {
        true
    }

    proof fn lemma_basic_facts(&self) {
        T::lemma_width();
        assert(self.dyn_size() >= 0) by (nonlinear_arith)
            requires
                T::width() >= 1,
                self.num_space >= 0,
        ;
    }

    proof fn lemma_parse_bounds(buffer: Seq<u8>, header_offset: int) {
    }

    proof fn lemma_serialize_props(&self, prior: Seq<u8>, c_off: int, d: int) {
        T::lemma_width();
        vstd::bytes::lemma_auto_spec_u32_to_from_le_bytes();
        let fwd = spec_fwd_bytes(self.num_space as u32, d as u32);
        assert(fwd.len() == 8);
        lemma_splice(prior, c_off, fwd);
        lemma_packed_len::<T>(self.abs());
        lemma_splice(splice(prior, c_off, fwd), d, spec_packed(self.abs()));
    }

    fn constant_header_size() -> (r: usize) {
        8
    }

    fn is_contiguous() -> (r: bool) {
        false
    }

    fn is_list(&self) -> (r: bool) {
        true
    }

    fn dynamic_header_size(&self) -> (r: usize) {
        let w = T::width_exec();
        proof {
            T::lemma_width();
        }
        self.num_space * w
    }

    fn dynamic_header_start(&self) -> (r: usize) {
        0
    }

    fn num_scatter_gather_entries(&self) -> (r: usize) {
        0
    }

    fn inner_serialize(
        &self,
        header: &mut Vec<u8>,
        constant_header_offset: usize,
        dynamic_header_start: usize,
        sges: &mut Vec<Sge<'a>>,
        offsets: &mut Vec<usize>,
    ) {
        proof {
            T::lemma_width();
        }
        serialize_scalar_elems::<T>(
            header,
            constant_header_offset,
            dynamic_header_start,
            &self.elts,
            self.num_space,
        );
        proof {
            assert(self.elts@.subrange(0, self.num_space as int) =~= self.abs());
            assert(final(sges)@.subrange(0, old(sges)@.len() as int) =~= old(sges)@);
            assert(final(offsets)@.subrange(0, old(offsets)@.len() as int) =~= old(offsets)@);
        }
    }

    fn inner_deserialize(&mut self, buffer: &'a [u8], header_offset: usize) -> (r: Result<
        (),
        WireError,
    >) {
        match deserialize_scalar_elems::<T>(buffer, header_offset) {
            Ok(elts) => {
                let n = elts.len();
                self.num_space = n;
                self.elts = elts;
                Ok(())
            },
            Err(e) => Err(e),
        }
    }
}

/// A scalar list field: either a list the message owns or the read-only
/// view produced by deserialization.
pub enum List<'a, T: WireScalar> {
    /// A list the message manages.
    Owned(OwnedList<'a, T>),
    /// The view decoded from a received packet.
    Ref(RefList<'a, T>),
}

impl<'a, T: WireScalar> List<'a, T> {
    /// An owned list with capacity for `size` elements.
    pub fn init(size: usize) -> (r: Self)
        ensures
            r.wf(),
            r is Owned,
            r->Owned_0.num_space == size,
            r.abs() == Seq::<T>::empty(),
    {
        List::Owned(OwnedList::init(size))
    }

    /// An empty deserialize-target view.
    pub fn init_ref() -> (r: Self)
        ensures
            r.wf(),
            r is Ref,
            r.abs() == Seq::<T>::empty(),
    {
        List::Ref(RefList::default())
    }

    /// Appends one value.  Appending to a deserialized view, or past an
    /// owned list's capacity, is a programmer error and is excluded by
    /// contract.
    pub fn append(&mut self, val: T)
        requires
            old(self).wf(),
            *old(self) is Owned,
            (*old(self))->Owned_0.num_set < (*old(self))->Owned_0.num_space,
        ensures
            final(self).wf(),
            *final(self) is Owned,
            final(self).abs() == old(self).abs().push(val),
    {
        match self {
            List::Owned(l) => l.append(val),
            List::Ref(_) => {},
        }
    }

    /// Writes the value at `idx`.
    pub fn replace(&mut self, idx: usize, val: T)
        requires
            old(self).wf(),
            idx < old(self).abs().len(),
        ensures
            final(self).wf(),
            final(self).abs() == old(self).abs().update(idx as int, val),
    {
        match self {
            List::Owned(l) => {
                l.replace(idx, val);
            },
            List::Ref(l) => {
                l.replace(idx, val);
            },
        }
    }

    /// Number of elements.
    pub fn len(&self) -> (r: usize)
        requires
            self.wf(),
        ensures
            r == self.abs().len(),
    {
        match self {
            List::Owned(l) => l.len(),
            List::Ref(l) => l.len(),
        }
    }

    /// The value at `idx`.
    pub fn index(&self, idx: usize) -> (r: T)
        requires
            self.wf(),
            idx < self.abs().len(),
        ensures
            r == self.abs()[idx as int],
    {
        match self {
            List::Owned(l) => l.index(idx),
            List::Ref(l) => l.index(idx),
        }
    }
}

impl<'a, T: WireScalar> Default for List<'a, T> {
    /// The empty owned list.
    fn default() -> (r: Self)
        ensures
            r.wf(),
            r.abs() == Seq::<T>::empty(),
    {
        List::Owned(OwnedList::default())
    }
}

impl<'a, T: WireScalar> HeaderRepr<'a> for List<'a, T> {
    type Abs = Seq<T>;

    open spec fn abs(&self) -> Seq<T> {
        match self {
            List::Owned(l) => l.abs(),
            List::Ref(l) => l.abs(),
        }
    }

    open spec fn wf(&self) -> bool {
        match self {
            List::Owned(l) => l.wf(),
            List::Ref(l) => l.wf(),
        }
    }

    open spec fn const_hdr_size() -> int {
        8
    }

    open spec fn contiguous() -> bool {
        false
    }

    open spec fn is_list_type() -> bool {
        true
    }

    open spec fn dyn_size(&self) -> int {
        match self {
            List::Owned(l) => l.dyn_size(),
            List::Ref(l) => l.dyn_size(),
        }
    }

    open spec fn dyn_start(&self) -> int {
        0
    }

    open spec fn n_sge(&self) -> int {
        0
    }

    open spec fn leaves(&self) -> Seq<Seq<u8>> {
        Seq::empty()
    }

    open spec fn slots(&self, c_off: int, d: int) -> Seq<int> {
        Seq::empty()
    }

    open spec fn image(&self, prior: Seq<u8>, c_off: int, d: int) -> Seq<u8> {
        match self {
            List::Owned(l) => l.image(prior, c_off, d),
            List::Ref(l) => l.image(prior, c_off, d),
        }
    }

    open spec fn parse(buffer: Seq<u8>, header_offset: int) -> Option<Seq<T>> {
        spec_parse_scalar_list::<T>(buffer, header_offset)
    }

    open spec fn deser_wf(&self) -> bool {
        match self {
            List::Owned(l) => l.deser_wf(),
            List::Ref(l) => l.deser_wf(),
        }
    }

    proof fn lemma_basic_facts(&self) {
        match self {
            List::Owned(l) => l.lemma_basic_facts(),
            List::Ref(l) => l.lemma_basic_facts(),
        }
    }

    proof fn lemma_parse_bounds(buffer: Seq<u8>, header_offset: int) {
    }

    proof fn lemma_serialize_props(&self, prior: Seq<u8>, c_off: int, d: int) {
        match self {
            List::Owned(l) => l.lemma_serialize_props(prior, c_off, d),
            List::Ref(l) => l.lemma_serialize_props(prior, c_off, d),
        }
    }

    fn constant_header_size() -> (r: usize) {
        8
    }

    fn is_contiguous() -> (r: bool) {
        false
    }

    fn is_list(&self) -> (r: bool) {
        true
    }

    fn dynamic_header_size(&self) -> (r: usize) {
        match self {
            List::Owned(l) => l.dynamic_header_size(),
            List::Ref(l) => l.dynamic_header_size(),
        }
    }

    fn dynamic_header_start(&self) -> (r: usize) {
        0
    }

    fn num_scatter_gather_entries(&self) -> (r: usize) {
        0
    }

    fn inner_serialize(
        &self,
        header: &mut Vec<u8>,
        constant_header_offset: usize,
        dynamic_header_start: usize,
        sges: &mut Vec<Sge<'a>>,
        offsets: &mut Vec<usize>,
    ) {
        match self {
            List::Owned(l) => l.inner_serialize(
                header,
                constant_header_offset,
                dynamic_header_start,
                sges,
                offsets,
            ),
            List::Ref(l) => l.inner_serialize(
                header,
                constant_header_offset,
                dynamic_header_start,
                sges,
                offsets,
            ),
        }
    }

    fn inner_deserialize(&mut self, buffer: &'a [u8], header_offset: usize) -> (r: Result<
        (),
        WireError,
    >) {
        match self {
            List::Owned(l) => l.inner_deserialize(buffer, header_offset),
            List::Ref(l) => l.inner_deserialize(buffer, header_offset),
        }
    }
}

} // verus!
