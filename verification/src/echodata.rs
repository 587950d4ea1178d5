//! Echo-benchmark payload shapes: which message layout a run exercises
//! and how a total payload size is split across its leaves.

use crate::hdr::HeaderRepr;
use crate::leaves::CFBytes;
use crate::messages::{SingleBufferCF, Tree1LCF, Tree2LCF};
use crate::util::{align_up, spec_align_up};
use crate::WireError;
use vstd::prelude::*;

verus! {

/// Depth of a tree-shaped echo message.
#[derive(Debug, Clone, Copy, PartialEq, Eq, Structural)]
pub enum TreeDepth {
    /// Two single-buffer leaves.
    One,
    /// Four leaves.
    Two,
    /// Eight leaves.
    Three,
    /// Sixteen leaves.
    Four,
    /// Thirty-two leaves.
    Five,
}

/// Which message layout an echo run uses.
#[derive(Debug, Clone, Copy, PartialEq, Eq, Structural)]
pub enum SimpleMessageType {
    /// One bytes field.
    Single,
    /// A list with the given number of byte-string elements.
    List(usize),
    /// A complete binary tree of the given depth with single-buffer
    /// leaves.
    Tree(TreeDepth),
}

/// Whether a process runs as the echo client or the echo server.
#[derive(Debug, Clone, Copy, PartialEq, Eq, Structural)]
pub enum EchoMode {
    /// Sends payloads and checks the echoes.
    Client,
    /// Echoes whatever it receives.
    Server,
}

impl core::str::FromStr for EchoMode {
    type Err = WireError;

    /// Parses the spellings the command line accepts for each mode.
    fn from_str(s: &str) -> Result<EchoMode, WireError> {
        let b = s.as_bytes();
        if crate::datapath::bytes_eq(b, "client".as_bytes()) || crate::datapath::bytes_eq(
            b,
            "CLIENT".as_bytes(),
        ) || crate::datapath::bytes_eq(b, "Client".as_bytes()) {
            Ok(EchoMode::Client)
        } else if crate::datapath::bytes_eq(b, "server".as_bytes()) || crate::datapath::bytes_eq(
            b,
            "SERVER".as_bytes(),
        ) || crate::datapath::bytes_eq(b, "Server".as_bytes()) {
            Ok(EchoMode::Server)
        } else {
            Err(WireError::Malformed)
        }
    }
}

/// Number of leaf fields a message layout carries.
pub open spec fn spec_num_leaves(t: SimpleMessageType) -> int {
    match t {
        SimpleMessageType::Single => 1,
        SimpleMessageType::List(n) => n as int,
        SimpleMessageType::Tree(TreeDepth::One) => 2,
        SimpleMessageType::Tree(TreeDepth::Two) => 4,
        SimpleMessageType::Tree(TreeDepth::Three) => 8,
        SimpleMessageType::Tree(TreeDepth::Four) => 16,
        SimpleMessageType::Tree(TreeDepth::Five) => 32,
    }
}

/// Splits a total payload size into equal leaf sizes, one per leaf of the
/// layout: each leaf gets the integer share of `size`.
pub fn get_equal_fields(message_type: SimpleMessageType, size: usize) -> (r: Vec<usize>)
    requires
        message_type matches SimpleMessageType::List(n) ==> n >= 1,
    ensures
        r@.len() == spec_num_leaves(message_type),
        forall|i: int|
            0 <= i < r@.len() ==> (#[trigger] r@[i]) as int == size as int / spec_num_leaves(
                message_type,
            ),
{
    let elts: usize = match message_type {
        SimpleMessageType::Single => 1,
        SimpleMessageType::List(n) => n,
        SimpleMessageType::Tree(TreeDepth::One) => 2,
        SimpleMessageType::Tree(TreeDepth::Two) => 4,
        SimpleMessageType::Tree(TreeDepth::Three) => 8,
        SimpleMessageType::Tree(TreeDepth::Four) => 16,
        SimpleMessageType::Tree(TreeDepth::Five) => 32,
    };
    let share = size / elts;
    let mut r: Vec<usize> = Vec::new();
    let mut i: usize = 0;
    while i < elts
        invariant
            i <= elts,
            r@.len() == i,
            share as int == size as int / elts as int,
            forall|k: int| 0 <= k < i ==> (#[trigger] r@[k]) == share,
        decreases elts - i,
    {
        r.push(share);
        i = i + 1;
    }
    r
}

/// The repeated-alphabet test payload: byte `i` is the letter at `i`
/// modulo twenty-six.
pub open spec fn spec_alpha_byte(i: int) -> u8 {
    (97 + (i % 26)) as u8
}

/// A payload of `size` bytes holding the lowercase alphabet repeated.
pub fn init_payload(size: usize) -> (r: Vec<u8>)
    ensures
        r@.len() == size,
        forall|i: int| 0 <= i < size ==> (#[trigger] r@[i]) == spec_alpha_byte(i),
{
    let mut r: Vec<u8> = Vec::new();
    let mut i: usize = 0;
    while i < size
        invariant
            i <= size,
            r@.len() == i,
            forall|k: int| 0 <= k < i ==> (#[trigger] r@[k]) == spec_alpha_byte(k),
        decreases size - i,
    {
        let letter = (i % 26) as u8;
        r.push(97 + letter);
        i = i + 1;
    }
    r
}

/// One alphabet payload per requested size.
pub fn init_payloads_as_vec(sizes: &Vec<usize>) -> (r: Vec<Vec<u8>>)
    ensures
        r@.len() == sizes@.len(),
        forall|i: int| 0 <= i < r@.len() ==> (#[trigger] r@[i])@.len() == sizes@[i],
        forall|i: int, j: int|
            0 <= i < r@.len() && 0 <= j < sizes@[i] ==> (#[trigger] r@[i]@[j]) == spec_alpha_byte(
                j,
            ),
{
    let mut r: Vec<Vec<u8>> = Vec::new();
    let mut i: usize = 0;
    while i < sizes.len()
        invariant
            i <= sizes@.len(),
            r@.len() == i,
            forall|k: int| 0 <= k < i ==> (#[trigger] r@[k])@.len() == sizes@[k],
            forall|k: int, j: int|
                0 <= k < i && 0 <= j < sizes@[k] ==> (#[trigger] r@[k]@[j]) == spec_alpha_byte(j),
        decreases sizes@.len() - i,
    {
        r.push(init_payload(sizes[i]));
        i = i + 1;
    }
    r
}

/// Builds a single-buffer message over the payload at `idx`.
pub fn get_single_buffer_message<'a>(idx: usize, payloads: &Vec<&'a [u8]>) -> (r: SingleBufferCF<
    'a,
>)
    requires
        idx < payloads@.len(),
        payloads@[idx as int]@.len() < 0x1_0000_0000,
    ensures
        r.wf(),
        r.abs().has_message,
        r.abs().message == payloads@[idx as int]@,
{
    let mut m = SingleBufferCF::new();
    m.set_message(CFBytes::new_from_bytes(payloads[idx]));
    m
}

/// Builds a one-level tree message over the payloads at the first two
/// indices.
pub fn get_tree1l_message<'a>(indices: &[usize], payloads: &Vec<&'a [u8]>) -> (r: Tree1LCF<'a>)
    requires
        indices@.len() >= 2,
        indices@[0] < payloads@.len(),
        indices@[1] < payloads@.len(),
        payloads@[indices@[0] as int]@.len() < 0x1_0000_0000,
        payloads@[indices@[1] as int]@.len() < 0x1_0000_0000,
    ensures
        r.wf(),
        r.abs().has_left && r.abs().has_right,
        r.abs().left.has_message,
        r.abs().left.message == payloads@[indices@[0] as int]@,
        r.abs().right.has_message,
        r.abs().right.message == payloads@[indices@[1] as int]@,
{
    let mut t = Tree1LCF::new();
    let i0 = *vstd::slice::slice_index_get(indices, 0);
    let i1 = *vstd::slice::slice_index_get(indices, 1);
    t.set_left(get_single_buffer_message(i0, payloads));
    t.set_right(get_single_buffer_message(i1, payloads));
    t
}

/// Whether a deserialized single-buffer message echoes the payload at
/// `idx`.
pub fn check_single_buffer<'a>(idx: usize, payloads: &Vec<Vec<u8>>, object: &SingleBufferCF<'a>) -> (r:
    bool)
    requires
        idx < payloads@.len(),
        object.wf(),
    ensures
        r == (object.message.ptr@ == payloads@[idx as int]@),
{
    crate::datapath::bytes_eq(object.get_message().ptr, payloads[idx].as_slice())
}

/// Whether a deserialized one-level tree echoes the payloads at the
/// first two indices.
pub fn check_tree1l<'a>(indices: &[usize], payloads: &Vec<Vec<u8>>, object: &Tree1LCF<'a>) -> (r:
    bool)
    requires
        indices@.len() >= 2,
        indices@[0] < payloads@.len(),
        indices@[1] < payloads@.len(),
        object.wf(),
    ensures
        r == (object.left.message.ptr@ == payloads@[indices@[0] as int]@
            && object.right.message.ptr@ == payloads@[indices@[1] as int]@),
{
    let i0 = *vstd::slice::slice_index_get(indices, 0);
    let i1 = *vstd::slice::slice_index_get(indices, 1);
    let ok_l = check_single_buffer(i0, payloads, object.get_left());
    let ok_r = check_single_buffer(i1, payloads, object.get_right());
    ok_l && ok_r
}

/// Builds the echo response for a received single-buffer message: a
/// fresh message carrying the received field.
pub fn deserialize_single_buffer<'a>(input: &SingleBufferCF<'a>) -> (r: SingleBufferCF<'a>)
    requires
        input.wf(),
    ensures
        r.wf(),
        r.abs().has_message,
        r.abs().message == input.message.ptr@,
{
    let mut output = SingleBufferCF::new();
    output.set_message(input.get_message());
    output
}

/// Builds the echo response for a received one-level tree message.
pub fn deserialize_tree1l<'a>(input: &Tree1LCF<'a>) -> (r: Tree1LCF<'a>)
    requires
        input.wf(),
    ensures
        r.wf(),
        r.abs().has_left && r.abs().has_right,
        r.abs().left.has_message,
        r.abs().left.message == input.left.message.ptr@,
        r.abs().right.has_message,
        r.abs().right.message == input.right.message.ptr@,
{
    let mut output = Tree1LCF::new();
    output.set_left(deserialize_single_buffer(input.get_left()));
    output.set_right(deserialize_single_buffer(input.get_right()));
    output
}

/// Builds a two-level tree message over the payloads at the first four
/// indices.
pub fn get_tree2l_message<'a>(indices: &[usize], payloads: &Vec<&'a [u8]>) -> (r: Tree2LCF<'a>)
    requires
        indices@.len() >= 4,
        forall|k: int| 0 <= k < 4 ==> (#[trigger] indices@[k]) < payloads@.len(),
        forall|k: int|
            0 <= k < 4 ==> (#[trigger] payloads@[indices@[k] as int])@.len() < 0x1_0000_0000,
    ensures
        r.wf(),
        r.abs().has_left && r.abs().has_right,
        r.abs().left.left.message == payloads@[indices@[0] as int]@,
        r.abs().left.right.message == payloads@[indices@[1] as int]@,
        r.abs().right.left.message == payloads@[indices@[2] as int]@,
        r.abs().right.right.message == payloads@[indices@[3] as int]@,
{
    let mut t = Tree2LCF::new();
    t.set_left(get_tree1l_message(indices, payloads));
    let tail = vstd::slice::slice_subrange(indices, 2, 4);
    t.set_right(get_tree1l_message(tail, payloads));
    t
}

/// Whether a deserialized two-level tree echoes the payloads at the
/// first four indices.
pub fn check_tree2l<'a>(indices: &[usize], payloads: &Vec<Vec<u8>>, object: &Tree2LCF<'a>) -> (r:
    bool)
    requires
        indices@.len() >= 4,
        forall|k: int| 0 <= k < 4 ==> (#[trigger] indices@[k]) < payloads@.len(),
        object.wf(),
    ensures
        r == (object.left.left.message.ptr@ == payloads@[indices@[0] as int]@
            && object.left.right.message.ptr@ == payloads@[indices@[1] as int]@
            && object.right.left.message.ptr@ == payloads@[indices@[2] as int]@
            && object.right.right.message.ptr@ == payloads@[indices@[3] as int]@),
{
    let tail = vstd::slice::slice_subrange(indices, 2, 4);
    let ok_l = check_tree1l(indices, payloads, object.get_left());
    let ok_r = check_tree1l(tail, payloads, object.get_right());
    ok_l && ok_r
}

/// Builds the echo response for a received two-level tree message.
pub fn deserialize_tree2l<'a>(input: &Tree2LCF<'a>) -> (r: Tree2LCF<'a>)
    requires
        input.wf(),
    ensures
        r.wf(),
        r.abs().has_left && r.abs().has_right,
        r.abs().left.left.message == input.left.left.message.ptr@,
        r.abs().left.right.message == input.left.right.message.ptr@,
        r.abs().right.left.message == input.right.left.message.ptr@,
        r.abs().right.right.message == input.right.right.message.ptr@,
{
    let mut output = Tree2LCF::new();
    output.set_left(deserialize_tree1l(input.get_left()));
    output.set_right(deserialize_tree1l(input.get_right()));
    output
}

} // verus!
