//! A zero-copy scatter-gather wire format for RPC payloads.
//!
//! Messages are laid out as a bitmap of present fields, a constant header of
//! inline scalars and forward pointers, and a dynamic region holding
//! out-of-line list and nested-object structure.  Variable-length leaf bytes
//! are never copied into the header: serialization records one scatter-gather
//! entry per leaf and back-patches each leaf's forward pointer once the final
//! segment order is known.

use vstd::prelude::*;

pub mod bitmap;
pub mod codegen;
pub mod datapath;
pub mod echodata;
pub mod fwd;
pub mod hdr;
pub mod kv;
pub mod laws;
pub mod leaves;
pub mod lists;
pub mod messages;
pub mod scalars;
pub mod sga;
pub mod sizes;
pub mod util;
pub mod varlist;
pub mod wire;

verus! {

/// Width in bytes of the size half of a forward pointer.
pub const SIZE_FIELD: usize = 4;

/// Width in bytes of the offset half of a forward pointer.
pub const OFFSET_FIELD: usize = 4;

/// Width in bytes of the little-endian u32 that prefixes a serialized bitmap
/// with its length.
pub const BITMAP_LENGTH_FIELD: usize = 4;

/// How a serialization or deserialization call fails.
///
/// Capacity errors are detected before any mutation begins; malformed-input
/// errors surface when a forward pointer or length read would run past the
/// end of the received buffer.
#[derive(Debug, Clone, Copy, PartialEq, Eq, Structural)]
pub enum WireError {
    /// The output buffer or scatter-gather array is too small for the
    /// computed requirements.
    Capacity,
    /// The input buffer is too short for a length, slot or pointed-to range
    /// that deserialization must read.
    Malformed,
}

} // verus!
