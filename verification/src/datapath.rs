//! The datapath boundary: what serialization needs to know about the layer
//! that will transmit its segments.
//!
//! Scatter-gather reordering consults three things: the copying threshold
//! below which a segment is cheaper to copy than to register, the maximum
//! number of zero-copy segments one packet may carry, and whether a buffer
//! lies in NIC-registered memory.  Transport datapaths implement
//! [`Datapath`]; [`LoopbackDatapath`] is the in-process implementation used
//! when nothing leaves the machine.

use crate::WireError;
use vstd::prelude::*;

verus! {

/// What a transmitting datapath tells the serializer.  Implementations fix
/// their answers in the three spec functions, and the executable getters
/// must agree with them.
pub trait Datapath: Sized {
    /// Segment sizes below this are copied into the header segment rather
    /// than sent zero-copy.
    spec fn copying_threshold_spec(&self) -> int;

    /// Most zero-copy segments one packet may carry.
    spec fn max_segments_spec(&self) -> int;

    /// Whether the bytes of `buf` lie in registered memory.
    spec fn registered_spec(&self, buf: Seq<u8>) -> bool;

    /// Current copying threshold for serialization.
    fn get_copying_threshold(&self) -> (r: usize)
        ensures
            r as int == self.copying_threshold_spec(),
    ;

    /// Current maximum number of zero-copy segments per packet.
    fn get_max_segments(&self) -> (r: usize)
        ensures
            r as int == self.max_segments_spec(),
    ;

    /// Whether `buf` is backed by registered memory.
    fn is_registered(&self, buf: &[u8]) -> (r: bool)
        ensures
            r == self.registered_spec(buf@),
    ;
}

/// An in-process datapath: segments never leave the machine, and a buffer
/// counts as registered when its length reaches a configured floor.  This
/// is the datapath the tests and the echo harness run against.
pub struct LoopbackDatapath {
    copying_threshold: usize,
    max_segments: usize,
    registered_floor: usize,
}

impl LoopbackDatapath {
    /// A loopback datapath with the given copying threshold, zero-copy
    /// segment limit and registration floor.
    pub fn new(copying_threshold: usize, max_segments: usize, registered_floor: usize) -> (r:
        LoopbackDatapath)
        requires
            max_segments >= 1,
        ensures
            r.copying_threshold_spec() == copying_threshold as int,
            r.max_segments_spec() == max_segments as int,
            forall|b: Seq<u8>| r.registered_spec(b) == (b.len() >= registered_floor),
    {
        LoopbackDatapath { copying_threshold, max_segments, registered_floor }
    }

    /// Sets the copying threshold for serialization.
    pub fn set_copying_threshold(&mut self, threshold: usize)
        ensures
            final(self).copying_threshold_spec() == threshold as int,
            final(self).max_segments_spec() == old(self).max_segments_spec(),
            forall|b: Seq<u8>| final(self).registered_spec(b) == old(self).registered_spec(b),
    {
        self.copying_threshold = threshold;
    }

    /// Sets the maximum number of zero-copy segments per packet.
    pub fn set_max_segments(&mut self, max_entries: usize)
        requires
            max_entries >= 1,
        ensures
            final(self).max_segments_spec() == max_entries as int,
            final(self).copying_threshold_spec() == old(self).copying_threshold_spec(),
            forall|b: Seq<u8>| final(self).registered_spec(b) == old(self).registered_spec(b),
    {
        self.max_segments = max_entries;
    }
}

impl Datapath for LoopbackDatapath {
    closed spec fn copying_threshold_spec(&self) -> int {
        self.copying_threshold as int
    }

    closed spec fn max_segments_spec(&self) -> int {
        self.max_segments as int
    }

    closed spec fn registered_spec(&self, buf: Seq<u8>) -> bool {
        buf.len() >= self.registered_floor
    }

    fn get_copying_threshold(&self) -> (r: usize) {
        self.copying_threshold
    }

    fn get_max_segments(&self) -> (r: usize) {
        self.max_segments
    }

    fn is_registered(&self, buf: &[u8]) -> (r: bool) {
        buf.len() >= self.registered_floor
    }
}

/// How much of an outgoing object the datapath inlines into the packet it
/// builds.
#[derive(Debug, Clone, Copy, PartialEq, Eq, Structural)]
pub enum InlineMode {
    /// Inline nothing.
    Nothing,
    /// Inline the packet header only.
    PacketHeader,
    /// Inline the whole object header.
    ObjectHeader,
}

impl Default for InlineMode {
    fn default() -> (r: Self)
        ensures
            r == InlineMode::Nothing,
    {
        InlineMode::Nothing
    }
}

/// Which send API an application hands its serialized objects to.
#[derive(Debug, Clone, Copy, PartialEq, Eq, Structural)]
pub enum PushBufType {
    /// Scatter-gather array without manual reference counting.
    Sga,
    /// Manually reference-counted scatter-gather array.
    RcSga,
    /// One buffer, copied.
    SingleBuf,
    /// Scatter-gather array ordered by the copy heuristics.
    OrderedSga,
    /// Serialized object handed straight to the datapath.
    Object,
    /// Ordered scatter-gather array backed by an arena.
    ArenaOrderedSga,
}

/// Whether the byte slices `a` and `b` hold the same bytes.
pub fn bytes_eq(a: &[u8], b: &[u8]) -> (r: bool)
    ensures
        r == (a@ == b@),
{
    if a.len() != b.len() {
        proof {
            assert(a@.len() != b@.len());
        }
        return false;
    }
    let n: usize = a.len();
    let mut i: usize = 0;
    while i < n
        invariant
            i <= n,
            n == a@.len(),
            n == b@.len(),
            forall|k: int| 0 <= k < i ==> a@[k] == b@[k],
        decreases n - i,
    {
        if *vstd::slice::slice_index_get(a, i) != *vstd::slice::slice_index_get(b, i) {
            return false;
        }
        i = i + 1;
    }
    proof {
        assert(a@ =~= b@);
    }
    true
}

impl core::str::FromStr for InlineMode {
    type Err = WireError;

    /// Parses the spellings the command line accepts for each mode.
    fn from_str(s: &str) -> Result<InlineMode, WireError> {
        let b = s.as_bytes();
        if bytes_eq(b, "nothing".as_bytes()) || bytes_eq(b, "Nothing".as_bytes()) || bytes_eq(
            b,
            "0".as_bytes(),
        ) || bytes_eq(b, "NOTHING".as_bytes()) {
            Ok(InlineMode::Nothing)
        } else if bytes_eq(b, "packetheader".as_bytes()) || bytes_eq(b, "PacketHeader".as_bytes())
            || bytes_eq(b, "PACKETHEADER".as_bytes()) || bytes_eq(b, "packet_header".as_bytes()) {
            Ok(InlineMode::PacketHeader)
        } else if bytes_eq(b, "objectheader".as_bytes()) || bytes_eq(b, "object_header".as_bytes())
            || bytes_eq(b, "OBJECTHEADER".as_bytes()) || bytes_eq(b, "ObjectHeader".as_bytes()) {
            Ok(InlineMode::ObjectHeader)
        } else {
            Err(WireError::Malformed)
        }
    }
}

impl core::str::FromStr for PushBufType {
    type Err = WireError;

    /// Parses the spellings the command line accepts for each send API.
    fn from_str(s: &str) -> Result<PushBufType, WireError> {
        let b = s.as_bytes();
        if bytes_eq(b, "sga".as_bytes()) || bytes_eq(b, "SGA".as_bytes()) || bytes_eq(
            b,
            "Sga".as_bytes(),
        ) {
            Ok(PushBufType::Sga)
        } else if bytes_eq(b, "rcsga".as_bytes()) || bytes_eq(b, "RcSga".as_bytes()) || bytes_eq(
            b,
            "RCSGA".as_bytes(),
        ) {
            Ok(PushBufType::RcSga)
        } else if bytes_eq(b, "singlebuf".as_bytes()) || bytes_eq(b, "single_buf".as_bytes())
            || bytes_eq(b, "SingleBuf".as_bytes()) || bytes_eq(b, "SINGLEBUF".as_bytes()) {
            Ok(PushBufType::SingleBuf)
        } else if bytes_eq(b, "orderedsga".as_bytes()) || bytes_eq(b, "ordered_sga".as_bytes())
            || bytes_eq(b, "OrderedSga".as_bytes()) || bytes_eq(b, "ORDEREDSGA".as_bytes()) {
            Ok(PushBufType::OrderedSga)
        } else if bytes_eq(b, "arenaorderedsga".as_bytes()) || bytes_eq(
            b,
            "arena_ordered_sga".as_bytes(),
        ) || bytes_eq(b, "ArenaOrderedSga".as_bytes()) || bytes_eq(
            b,
            "ARENAORDEREDSGA".as_bytes(),
        ) {
            Ok(PushBufType::ArenaOrderedSga)
        } else if bytes_eq(b, "object".as_bytes()) || bytes_eq(b, "OBJECT".as_bytes()) || bytes_eq(
            b,
            "Object".as_bytes(),
        ) {
            Ok(PushBufType::Object)
        } else {
            Err(WireError::Malformed)
        }
    }
}

} // verus!
