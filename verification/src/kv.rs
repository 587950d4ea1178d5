//! Request kinds of the key-value workloads that run over the wire
//! format.

use vstd::prelude::*;

verus! {

/// A key-value request: a read or a write, with its value size.
#[derive(Debug, Clone, Copy, PartialEq, Eq, Structural)]
pub enum MsgType {
    /// Read the value of the given size.
    Get(usize),
    /// Write a value of the given size.
    Put(usize),
}

/// A request kind of the cache-trace workload, each with its value size.
#[derive(Debug, Clone, Copy, PartialEq, Eq, Structural)]
pub enum TwitterMsgType {
    /// Read one key.
    Get(usize),
    /// Read several keys.
    Gets(usize),
    /// Write one key.
    SetValue(usize),
    /// Add a key that must not exist.
    Add(usize),
    /// Overwrite a key that must exist.
    Replace(usize),
    /// Compare-and-swap one key.
    Cas(usize),
    /// Append to a value.
    Append(usize),
    /// Prepend to a value.
    Prepend(usize),
    /// Delete a key.
    Delete(usize),
    /// Increment a counter value.
    Incr(usize),
    /// Decrement a counter value.
    Decr(usize),
}

} // verus!
