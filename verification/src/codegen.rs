//! The code generator: from a schema to the source text of its message
//! structs.
//!
//! A schema is an ordered list of messages, each an ordered list of
//! (name, kind) fields.  The generator emits, for every message, the
//! struct definition, its constructors and accessors, and its header
//! representation following the fixed layout rules of this crate.  Every
//! emitter's contract pins the emitted bytes to a specification mirror,
//! so the output is a function of the schema alone: re-running the
//! generator on an unchanged schema gives byte-identical text.

use crate::sga::push_bytes;
use crate::util::{align_up, spec_align_up};
use vstd::prelude::*;
use vstd::string::StringSliceAdditionalSpecFns;
use vstd::utf8::encode_utf8;

verus! {

/// The wire kind of one schema field.
pub enum FieldKind {
    /// A 32-bit unsigned scalar, inlined into the constant header.
    Uint32,
    /// A 64-bit unsigned scalar, inlined into the constant header.
    Uint64,
    /// A byte-string leaf.
    Bytes,
    /// A utf8 string leaf.
    Text,
    /// A packed list of 32-bit scalars.
    Uint32List,
    /// A packed list of 64-bit scalars.
    Uint64List,
    /// A list of byte-string leaves.
    BytesList,
    /// A nested message of the named type.
    Nested(String),
}

/// One schema field: a stable name and its kind.
pub struct Field {
    /// The field's name, a Rust identifier.
    pub name: String,
    /// The field's wire kind.
    pub kind: FieldKind,
}

/// One schema message: a name and its ordered fields.
pub struct Message {
    /// The message's name, a Rust type name.
    pub name: String,
    /// The fields, in declaration order.
    pub fields: Vec<Field>,
}

/// A whole schema: the messages, in declaration order.
pub struct Schema {
    /// The messages, in declaration order.
    pub messages: Vec<Message>,
}

/// The bytes of a literal piece of emitted text.
pub open spec fn lit(s: &str) -> Seq<u8> {
    s.spec_bytes()
}

/// The bytes of an identifier taken from the schema.
pub open spec fn name_bytes(s: String) -> Seq<u8> {
    encode_utf8(s@)
}

/// The decimal rendering of a nonnegative number.
pub open spec fn spec_decimal(n: int) -> Seq<u8>
    decreases n,
{
    if n < 10 {
        seq![(48 + n) as u8]
    } else {
        spec_decimal(n / 10) + seq![(48 + n % 10) as u8]
    }
}

/// Appends a literal piece of emitted text.
fn push_text(out: &mut Vec<u8>, s: &str)
    ensures
        final(out)@ == old(out)@ + lit(s),
{
    push_bytes(out, s.as_bytes());
}

/// Appends an identifier taken from the schema.
fn push_name(out: &mut Vec<u8>, s: &String)
    ensures
        final(out)@ == old(out)@ + name_bytes(*s),
{
    push_bytes(out, s.as_str().as_bytes());
}

/// Appends the decimal rendering of `n`.
fn push_decimal(out: &mut Vec<u8>, n: usize)
    ensures
        final(out)@ == old(out)@ + spec_decimal(n as int),
    decreases n,
{
    if n < 10 {
        out.push(48 + (n as u8));
        proof {
            assert(final(out)@ =~= old(out)@ + spec_decimal(n as int));
        }
    } else {
        push_decimal(out, n / 10);
        out.push(48 + ((n % 10) as u8));
        proof {
            assert(final(out)@ =~= old(out)@ + (spec_decimal(n as int / 10) + seq![
                (48 + (n as int) % 10) as u8,
            ]));
        }
    }
}

/// The Rust type the generator gives each field kind.
pub open spec fn spec_field_type(k: FieldKind) -> Seq<u8> {
    match k {
        FieldKind::Uint32 => lit("u32"),
        FieldKind::Uint64 => lit("u64"),
        FieldKind::Bytes => lit("CFBytes<'a>"),
        FieldKind::Text => lit("CFString<'a>"),
        FieldKind::Uint32List => lit("List<'a, u32>"),
        FieldKind::Uint64List => lit("List<'a, u64>"),
        FieldKind::BytesList => lit("VariableList<'a, CFBytes<'a>>"),
        FieldKind::Nested(n) => name_bytes(n) + lit("<'a>"),
    }
}

/// Appends the Rust type of one field.
fn push_field_type(out: &mut Vec<u8>, k: &FieldKind)
    ensures
        final(out)@ == old(out)@ + spec_field_type(*k),
{
    match k {
        FieldKind::Uint32 => push_text(out, "u32"),
        FieldKind::Uint64 => push_text(out, "u64"),
        FieldKind::Bytes => push_text(out, "CFBytes<'a>"),
        FieldKind::Text => push_text(out, "CFString<'a>"),
        FieldKind::Uint32List => push_text(out, "List<'a, u32>"),
        FieldKind::Uint64List => push_text(out, "List<'a, u64>"),
        FieldKind::BytesList => push_text(out, "VariableList<'a, CFBytes<'a>>"),
        FieldKind::Nested(n) => {
            push_name(out, n);
            push_text(out, "<'a>");
            proof {
                assert(final(out)@ =~= old(out)@ + spec_field_type(*k));
            }
        },
    }
}

/// The default expression the generator gives each field kind.
pub open spec fn spec_field_default(k: FieldKind) -> Seq<u8> {
    match k {
        FieldKind::Uint32 => lit("0"),
        FieldKind::Uint64 => lit("0"),
        FieldKind::Bytes => lit("CFBytes::default()"),
        FieldKind::Text => lit("CFString::default()"),
        FieldKind::Uint32List => lit("List::default()"),
        FieldKind::Uint64List => lit("List::default()"),
        FieldKind::BytesList => lit("VariableList::default()"),
        FieldKind::Nested(n) => name_bytes(n) + lit("::new()"),
    }
}

/// Appends the default expression of one field.
fn push_field_default(out: &mut Vec<u8>, k: &FieldKind)
    ensures
        final(out)@ == old(out)@ + spec_field_default(*k),
{
    match k {
        FieldKind::Uint32 => push_text(out, "0"),
        FieldKind::Uint64 => push_text(out, "0"),
        FieldKind::Bytes => push_text(out, "CFBytes::default()"),
        FieldKind::Text => push_text(out, "CFString::default()"),
        FieldKind::Uint32List => push_text(out, "List::default()"),
        FieldKind::Uint64List => push_text(out, "List::default()"),
        FieldKind::BytesList => push_text(out, "VariableList::default()"),
        FieldKind::Nested(n) => {
            push_name(out, n);
            push_text(out, "::new()");
            proof {
                assert(final(out)@ =~= old(out)@ + spec_field_default(*k));
            }
        },
    }
}

/// Whether a field kind is a list.
pub open spec fn spec_is_list_kind(k: FieldKind) -> bool {
    match k {
        FieldKind::Uint32List => true,
        FieldKind::Uint64List => true,
        FieldKind::BytesList => true,
        _ => false,
    }
}

/// Whether a field kind needs a mutable accessor: lists and nested
/// messages.
pub open spec fn spec_is_container_kind(k: FieldKind) -> bool {
    spec_is_list_kind(k) || k matches FieldKind::Nested(_)
}

/// The bitmap-size constant for one message.
#[verifier::opaque]
pub open spec fn spec_bitmap_size_const(m: Message) -> Seq<u8> {
    lit("pub const ") + name_bytes(m.name) + lit("_BITMAP_SIZE: usize = ") + spec_decimal(
        spec_align_up(m.fields@.len() as int, 4),
    ) + lit(";\n")
}

/// Emits the bitmap-size constant for one message.
pub fn add_bitmap_size_const(out: &mut Vec<u8>, m: &Message)
    requires
        m.fields@.len() + 4 <= usize::MAX,
    ensures
        final(out)@ == old(out)@ + spec_bitmap_size_const(*m),
{
    push_text(out, "pub const ");
    push_name(out, &m.name);
    push_text(out, "_BITMAP_SIZE: usize = ");
    let size = align_up(m.fields.len(), 4);
    push_decimal(out, size);
    push_text(out, ";\n");
    proof {
        reveal(spec_bitmap_size_const);
            assert(final(out)@ =~= old(out)@ + spec_bitmap_size_const(*m));
    }
}

/// One struct-field line.
pub open spec fn spec_struct_field_line(f: Field) -> Seq<u8> {
    lit("    pub ") + name_bytes(f.name) + lit(": ") + spec_field_type(f.kind) + lit(",\n")
}

/// The struct-field lines of fields `i..`.
pub open spec fn spec_struct_field_lines(fields: Seq<Field>, i: int) -> Seq<u8>
    decreases fields.len() - i,
{
    if i < 0 || i >= fields.len() {
        Seq::empty()
    } else {
        spec_struct_field_line(fields[i]) + spec_struct_field_lines(fields, i + 1)
    }
}

/// The struct definition of one message: a presence bitmap and one field
/// per schema field.
#[verifier::opaque]
pub open spec fn spec_struct_definition(m: Message) -> Seq<u8> {
    lit("pub struct ") + name_bytes(m.name) + lit("<'a> {\n    pub bitmap: Vec<u8>,\n")
        + spec_struct_field_lines(m.fields@, 0) + lit("}\n")
}

/// Emits the struct definition of one message.
pub fn add_struct_definition(out: &mut Vec<u8>, m: &Message)
    ensures
        final(out)@ == old(out)@ + spec_struct_definition(*m),
{
    push_text(out, "pub struct ");
    push_name(out, &m.name);
    push_text(out, "<'a> {\n    pub bitmap: Vec<u8>,\n");
    let ghost base = out@;
    let n: usize = m.fields.len();
    let mut i: usize = 0;
    while i < n
        invariant
            i <= n,
            n == m.fields@.len(),
            base + spec_struct_field_lines(m.fields@, 0) == out@ + spec_struct_field_lines(
                m.fields@,
                i as int,
            ),
        decreases n - i,
    {
        let ghost before = out@;
        push_text(out, "    pub ");
        push_name(out, &m.fields[i].name);
        push_text(out, ": ");
        push_field_type(out, &m.fields[i].kind);
        push_text(out, ",\n");
        proof {
            assert(out@ =~= before + spec_struct_field_line(m.fields@[i as int]));
            assert(before + spec_struct_field_lines(m.fields@, i as int) =~= out@
                + spec_struct_field_lines(m.fields@, i as int + 1));
        }
        i = i + 1;
    }
    proof {
        assert(spec_struct_field_lines(m.fields@, n as int) =~= Seq::<u8>::empty());
        assert(out@ + Seq::<u8>::empty() =~= out@);
        assert(out@ =~= base + spec_struct_field_lines(m.fields@, 0));
    }
    push_text(out, "}\n");
    proof {
        reveal(spec_struct_definition);
            assert(final(out)@ =~= old(out)@ + spec_struct_definition(*m));
    }
}

/// One default-valued field initializer line.
pub open spec fn spec_default_field_line(f: Field) -> Seq<u8> {
    lit("            ") + name_bytes(f.name) + lit(": ") + spec_field_default(f.kind) + lit(",\n")
}

/// The initializer lines of fields `i..`.
pub open spec fn spec_default_field_lines(fields: Seq<Field>, i: int) -> Seq<u8>
    decreases fields.len() - i,
{
    if i < 0 || i >= fields.len() {
        Seq::empty()
    } else {
        spec_default_field_line(fields[i]) + spec_default_field_lines(fields, i + 1)
    }
}

/// The `Default` implementation of one message: a zeroed bitmap and
/// default-constructed fields.
#[verifier::opaque]
pub open spec fn spec_default_impl(m: Message) -> Seq<u8> {
    lit("impl<'a> Default for ") + name_bytes(m.name) + lit(
        "<'a> {\n    fn default() -> Self {\n        ",
    ) + name_bytes(m.name) + lit(" {\n            bitmap: new_bitmap(") + name_bytes(m.name) + lit(
        "_BITMAP_SIZE),\n",
    ) + spec_default_field_lines(m.fields@, 0) + lit("        }\n    }\n}\n")
}

/// Emits the `Default` implementation of one message.
pub fn add_default_impl(out: &mut Vec<u8>, m: &Message)
    ensures
        final(out)@ == old(out)@ + spec_default_impl(*m),
{
    push_text(out, "impl<'a> Default for ");
    push_name(out, &m.name);
    push_text(out, "<'a> {\n    fn default() -> Self {\n        ");
    push_name(out, &m.name);
    push_text(out, " {\n            bitmap: new_bitmap(");
    push_name(out, &m.name);
    push_text(out, "_BITMAP_SIZE),\n");
    let ghost base = out@;
    let n: usize = m.fields.len();
    let mut i: usize = 0;
    while i < n
        invariant
            i <= n,
            n == m.fields@.len(),
            base + spec_default_field_lines(m.fields@, 0) == out@ + spec_default_field_lines(
                m.fields@,
                i as int,
            ),
        decreases n - i,
    {
        let ghost before = out@;
        push_text(out, "            ");
        push_name(out, &m.fields[i].name);
        push_text(out, ": ");
        push_field_default(out, &m.fields[i].kind);
        push_text(out, ",\n");
        proof {
            assert(out@ =~= before + spec_default_field_line(m.fields@[i as int]));
            assert(before + spec_default_field_lines(m.fields@, i as int) =~= out@
                + spec_default_field_lines(m.fields@, i as int + 1));
        }
        i = i + 1;
    }
    proof {
        assert(spec_default_field_lines(m.fields@, n as int) =~= Seq::<u8>::empty());
        assert(out@ + Seq::<u8>::empty() =~= out@);
        assert(out@ =~= base + spec_default_field_lines(m.fields@, 0));
    }
    push_text(out, "        }\n    }\n}\n");
    proof {
        reveal(spec_default_impl);
            assert(final(out)@ =~= old(out)@ + spec_default_impl(*m));
    }
}

/// The presence accessor of one field.
#[verifier::opaque]
pub open spec fn spec_add_has(f: Field, idx: int) -> Seq<u8> {
    lit("    pub fn has_") + name_bytes(f.name) + lit("(&self) -> bool {\n        self.bitmap[")
        + spec_decimal(idx) + lit("] == 1\n    }\n")
}

/// Emits the presence accessor of one field.
pub fn add_has(out: &mut Vec<u8>, f: &Field, idx: usize)
    ensures
        final(out)@ == old(out)@ + spec_add_has(*f, idx as int),
{
    push_text(out, "    pub fn has_");
    push_name(out, &f.name);
    push_text(out, "(&self) -> bool {\n        self.bitmap[");
    push_decimal(out, idx);
    push_text(out, "] == 1\n    }\n");
    proof {
        reveal(spec_add_has);
            assert(final(out)@ =~= old(out)@ + spec_add_has(*f, idx as int));
    }
}

/// The getter of one field: containers return a reference, leaves a
/// copy.
#[verifier::opaque]
pub open spec fn spec_add_get(f: Field) -> Seq<u8> {
    lit("    pub fn get_") + name_bytes(f.name) + lit("(&self) -> ") + (if spec_is_container_kind(
        f.kind,
    ) {
        lit("&") + spec_field_type(f.kind)
    } else {
        spec_field_type(f.kind)
    }) + lit(" {\n        ") + (if spec_is_container_kind(f.kind) {
        lit("&")
    } else {
        Seq::empty()
    }) + lit("self.") + name_bytes(f.name) + lit("\n    }\n")
}

/// Emits the getter of one field.
pub fn add_get(out: &mut Vec<u8>, f: &Field)
    ensures
        final(out)@ == old(out)@ + spec_add_get(*f),
{
    push_text(out, "    pub fn get_");
    push_name(out, &f.name);
    push_text(out, "(&self) -> ");
    let container = match &f.kind {
        FieldKind::Uint32List => true,
        FieldKind::Uint64List => true,
        FieldKind::BytesList => true,
        FieldKind::Nested(_) => true,
        _ => false,
    };
    if container {
        push_text(out, "&");
    }
    push_field_type(out, &f.kind);
    push_text(out, " {\n        ");
    if container {
        push_text(out, "&");
    }
    push_text(out, "self.");
    push_name(out, &f.name);
    push_text(out, "\n    }\n");
    proof {
        if spec_is_container_kind(f.kind) {
            reveal(spec_add_get);
            assert(final(out)@ =~= old(out)@ + spec_add_get(*f));
        } else {
            reveal(spec_add_get);
            assert(final(out)@ =~= old(out)@ + spec_add_get(*f));
        }
    }
}

/// The setter of one field: stores the value and marks the bitmap.
#[verifier::opaque]
pub open spec fn spec_add_set(f: Field, idx: int) -> Seq<u8> {
    lit("    pub fn set_") + name_bytes(f.name) + lit("(&mut self, field: ") + spec_field_type(
        f.kind,
    ) + lit(") {\n        self.bitmap[") + spec_decimal(idx) + lit("] = 1;\n        self.")
        + name_bytes(f.name) + lit(" = field;\n    }\n")
}

/// Emits the setter of one field.
pub fn add_set(out: &mut Vec<u8>, f: &Field, idx: usize)
    ensures
        final(out)@ == old(out)@ + spec_add_set(*f, idx as int),
{
    push_text(out, "    pub fn set_");
    push_name(out, &f.name);
    push_text(out, "(&mut self, field: ");
    push_field_type(out, &f.kind);
    push_text(out, ") {\n        self.bitmap[");
    push_decimal(out, idx);
    push_text(out, "] = 1;\n        self.");
    push_name(out, &f.name);
    push_text(out, " = field;\n    }\n");
    proof {
        reveal(spec_add_set);
            assert(final(out)@ =~= old(out)@ + spec_add_set(*f, idx as int));
    }
}

/// The mutable accessor of one container field.
#[verifier::opaque]
pub open spec fn spec_add_get_mut(f: Field) -> Seq<u8> {
    lit("    pub fn get_mut_") + name_bytes(f.name) + lit("(&mut self) -> &mut ")
        + spec_field_type(f.kind) + lit(" {\n        &mut self.") + name_bytes(f.name) + lit(
        "\n    }\n",
    )
}

/// Emits the mutable accessor of one container field.
pub fn add_get_mut(out: &mut Vec<u8>, f: &Field)
    ensures
        final(out)@ == old(out)@ + spec_add_get_mut(*f),
{
    push_text(out, "    pub fn get_mut_");
    push_name(out, &f.name);
    push_text(out, "(&mut self) -> &mut ");
    push_field_type(out, &f.kind);
    push_text(out, " {\n        &mut self.");
    push_name(out, &f.name);
    push_text(out, "\n    }\n");
    proof {
        reveal(spec_add_get_mut);
            assert(final(out)@ =~= old(out)@ + spec_add_get_mut(*f));
    }
}

/// The capacity initializer of one list field.
#[verifier::opaque]
pub open spec fn spec_add_list_init(f: Field, idx: int) -> Seq<u8> {
    lit("    pub fn init_") + name_bytes(f.name) + lit(
        "(&mut self, num: usize) {\n        self.",
    ) + name_bytes(f.name) + lit(" = ") + (if (f.kind matches FieldKind::BytesList) {
        lit("VariableList::init(num)")
    } else {
        lit("List::init(num)")
    }) + lit(";\n        self.bitmap[") + spec_decimal(idx) + lit("] = 1;\n    }\n")
}

/// Emits the capacity initializer of one list field.
pub fn add_list_init(out: &mut Vec<u8>, f: &Field, idx: usize)
    ensures
        final(out)@ == old(out)@ + spec_add_list_init(*f, idx as int),
{
    push_text(out, "    pub fn init_");
    push_name(out, &f.name);
    push_text(out, "(&mut self, num: usize) {\n        self.");
    push_name(out, &f.name);
    push_text(out, " = ");
    match &f.kind {
        FieldKind::BytesList => push_text(out, "VariableList::init(num)"),
        _ => push_text(out, "List::init(num)"),
    }
    push_text(out, ";\n        self.bitmap[");
    push_decimal(out, idx);
    push_text(out, "] = 1;\n    }\n");
    proof {
        reveal(spec_add_list_init);
            assert(final(out)@ =~= old(out)@ + spec_add_list_init(*f, idx as int));
    }
}

/// All accessors of one field: presence, getter, setter, and for
/// containers the mutable accessor and for lists the initializer.
#[verifier::opaque]
pub open spec fn spec_field_methods(f: Field, idx: int) -> Seq<u8> {
    spec_add_has(f, idx) + spec_add_get(f) + spec_add_set(f, idx) + (if spec_is_container_kind(
        f.kind,
    ) {
        spec_add_get_mut(f)
    } else {
        Seq::empty()
    }) + (if spec_is_list_kind(f.kind) {
        spec_add_list_init(f, idx)
    } else {
        Seq::empty()
    })
}

/// Emits all accessors of one field.
pub fn add_field_methods(out: &mut Vec<u8>, f: &Field, idx: usize)
    ensures
        final(out)@ == old(out)@ + spec_field_methods(*f, idx as int),
{
    add_has(out, f, idx);
    add_get(out, f);
    add_set(out, f, idx);
    let container = match &f.kind {
        FieldKind::Uint32List => true,
        FieldKind::Uint64List => true,
        FieldKind::BytesList => true,
        FieldKind::Nested(_) => true,
        _ => false,
    };
    if container {
        add_get_mut(out, f);
    }
    let is_list = match &f.kind {
        FieldKind::Uint32List => true,
        FieldKind::Uint64List => true,
        FieldKind::BytesList => true,
        _ => false,
    };
    if is_list {
        add_list_init(out, f, idx);
    }
    proof {
        reveal(spec_field_methods);
            assert(final(out)@ =~= old(out)@ + spec_field_methods(*f, idx as int));
    }
}

/// The accessor methods of fields `i..`.
pub open spec fn spec_all_field_methods(fields: Seq<Field>, i: int) -> Seq<u8>
    decreases fields.len() - i,
{
    if i < 0 || i >= fields.len() {
        Seq::empty()
    } else {
        spec_field_methods(fields[i], i) + spec_all_field_methods(fields, i + 1)
    }
}

/// The inherent implementation of one message: `new` plus the accessors
/// of every field.
#[verifier::opaque]
pub open spec fn spec_add_impl(m: Message) -> Seq<u8> {
    lit("impl<'a> ") + name_bytes(m.name) + lit(
        "<'a> {\n    pub fn new() -> Self {\n        Self::default()\n    }\n",
    ) + spec_all_field_methods(m.fields@, 0) + lit("}\n")
}

/// Emits the inherent implementation of one message.
#[verifier::rlimit(80)]
pub fn add_impl(out: &mut Vec<u8>, m: &Message)
    ensures
        final(out)@ == old(out)@ + spec_add_impl(*m),
{
    push_text(out, "impl<'a> ");
    push_name(out, &m.name);
    push_text(out, "<'a> {\n    pub fn new() -> Self {\n        Self::default()\n    }\n");
    let ghost base = out@;
    let n: usize = m.fields.len();
    let mut i: usize = 0;
    while i < n
        invariant
            i <= n,
            n == m.fields@.len(),
            base + spec_all_field_methods(m.fields@, 0) == out@ + spec_all_field_methods(
                m.fields@,
                i as int,
            ),
        decreases n - i,
    {
        let ghost before = out@;
        add_field_methods(out, &m.fields[i], i);
        proof {
            assert(before + spec_all_field_methods(m.fields@, i as int) =~= out@
                + spec_all_field_methods(m.fields@, i as int + 1));
        }
        i = i + 1;
    }
    proof {
        assert(spec_all_field_methods(m.fields@, n as int) =~= Seq::<u8>::empty());
        assert(out@ + Seq::<u8>::empty() =~= out@);
        assert(out@ =~= base + spec_all_field_methods(m.fields@, 0));
    }
    push_text(out, "}\n");
    proof {
        reveal(spec_add_impl);
            assert(final(out)@ =~= old(out)@ + spec_add_impl(*m));
    }
}

/// The serialization statement for one field: scalars are written into
/// their slot, everything else serializes behind its slot.
#[verifier::opaque]
pub open spec fn spec_serialization_for_field(f: Field) -> Seq<u8> {
    lit("        if self.has_") + name_bytes(f.name) + lit("() {\n") + (match f.kind {
        FieldKind::Uint32 => lit("            le_write_u32(header, cur_slot, self.") + name_bytes(
            f.name,
        ) + lit(");\n"),
        FieldKind::Uint64 => lit("            le_write_u64(header, cur_slot, self.") + name_bytes(
            f.name,
        ) + lit(");\n"),
        FieldKind::Nested(_) => lit(
            "            inner_serialize_with_ref(&self.",
        ) + name_bytes(f.name) + lit(", header, cur_slot, cur_dyn, sges, offsets, true);\n")
            + lit("            cur_dyn += self.") + name_bytes(f.name) + lit(
            ".dynamic_header_size();\n",
        ),
        _ => lit("            self.") + name_bytes(f.name) + lit(
            ".inner_serialize(header, cur_slot, cur_dyn, sges, offsets);\n",
        ) + lit("            cur_dyn += self.") + name_bytes(f.name) + lit(
            ".dynamic_header_size();\n",
        ),
    }) + lit("        }\n        cur_slot += ") + (match f.kind {
        FieldKind::Uint32 => lit("4"),
        FieldKind::Uint64 => lit("8"),
        _ => lit("8"),
    }) + lit(";\n")
}

/// Emits the serialization statement for one field.
#[verifier::rlimit(100)]
#[verifier::spinoff_prover]
pub fn add_serialization_for_field(out: &mut Vec<u8>, f: &Field)
    ensures
        final(out)@ == old(out)@ + spec_serialization_for_field(*f),
{
    push_text(out, "        if self.has_");
    push_name(out, &f.name);
    push_text(out, "() {\n");
    match &f.kind {
        FieldKind::Uint32 => {
            push_text(out, "            le_write_u32(header, cur_slot, self.");
            push_name(out, &f.name);
            push_text(out, ");\n");
        },
        FieldKind::Uint64 => {
            push_text(out, "            le_write_u64(header, cur_slot, self.");
            push_name(out, &f.name);
            push_text(out, ");\n");
        },
        FieldKind::Nested(_) => {
            push_text(out, "            inner_serialize_with_ref(&self.");
            push_name(out, &f.name);
            push_text(out, ", header, cur_slot, cur_dyn, sges, offsets, true);\n");
            push_text(out, "            cur_dyn += self.");
            push_name(out, &f.name);
            push_text(out, ".dynamic_header_size();\n");
        },
        _ => {
            push_text(out, "            self.");
            push_name(out, &f.name);
            push_text(out, ".inner_serialize(header, cur_slot, cur_dyn, sges, offsets);\n");
            push_text(out, "            cur_dyn += self.");
            push_name(out, &f.name);
            push_text(out, ".dynamic_header_size();\n");
        },
    }
    push_text(out, "        }\n        cur_slot += ");
    match &f.kind {
        FieldKind::Uint32 => push_text(out, "4"),
        _ => push_text(out, "8"),
    }
    push_text(out, ";\n");
    proof {
        reveal(spec_serialization_for_field);
            assert(final(out)@ =~= old(out)@ + spec_serialization_for_field(*f));
    }
}

/// The deserialization statement for one field: the presence bit is
/// restored first, a truncated constant header is rejected before any
/// scalar read, and everything else deserializes from behind its slot
/// (those readers bound-check for themselves).
#[verifier::opaque]
pub open spec fn spec_field_deserialization(f: Field, idx: int) -> Seq<u8> {
    lit("        if bm.len() > ") + spec_decimal(idx) + lit(" && bm[") + spec_decimal(idx) + lit(
        "] == 1 {\n            obj.bitmap[",
    ) + spec_decimal(idx) + lit("] = 1;\n") + (match f.kind {
        FieldKind::Uint32 => lit(
            "            if cur_slot + 4 > buffer.len() { return Err(WireError::Malformed); }\n            obj.",
        ) + name_bytes(f.name) + lit(" = le_read_u32(buffer, cur_slot);\n"),
        FieldKind::Uint64 => lit(
            "            if cur_slot + 8 > buffer.len() { return Err(WireError::Malformed); }\n            obj.",
        ) + name_bytes(f.name) + lit(" = le_read_u64(buffer, cur_slot);\n"),
        FieldKind::Nested(_) => lit("            inner_deserialize_with_ref(&mut obj.")
            + name_bytes(f.name) + lit(", buffer, cur_slot, true)?;\n"),
        _ => lit("            obj.") + name_bytes(f.name) + lit(
            ".inner_deserialize(buffer, cur_slot)?;\n",
        ),
    }) + lit("        }\n        cur_slot += ") + (match f.kind {
        FieldKind::Uint32 => lit("4"),
        _ => lit("8"),
    }) + lit(";\n")
}

/// Emits the deserialization statement for one field.
#[verifier::rlimit(100)]
#[verifier::spinoff_prover]
pub fn add_field_deserialization(out: &mut Vec<u8>, f: &Field, idx: usize)
    ensures
        final(out)@ == old(out)@ + spec_field_deserialization(*f, idx as int),
{
    push_text(out, "        if bm.len() > ");
    push_decimal(out, idx);
    push_text(out, " && bm[");
    push_decimal(out, idx);
    push_text(out, "] == 1 {\n            obj.bitmap[");
    push_decimal(out, idx);
    push_text(out, "] = 1;\n");
    match &f.kind {
        FieldKind::Uint32 => {
            push_text(
                out,
                "            if cur_slot + 4 > buffer.len() { return Err(WireError::Malformed); }\n            obj.",
            );
            push_name(out, &f.name);
            push_text(out, " = le_read_u32(buffer, cur_slot);\n");
        },
        FieldKind::Uint64 => {
            push_text(
                out,
                "            if cur_slot + 8 > buffer.len() { return Err(WireError::Malformed); }\n            obj.",
            );
            push_name(out, &f.name);
            push_text(out, " = le_read_u64(buffer, cur_slot);\n");
        },
        FieldKind::Nested(_) => {
            push_text(out, "            inner_deserialize_with_ref(&mut obj.");
            push_name(out, &f.name);
            push_text(out, ", buffer, cur_slot, true)?;\n");
        },
        _ => {
            push_text(out, "            obj.");
            push_name(out, &f.name);
            push_text(out, ".inner_deserialize(buffer, cur_slot)?;\n");
        },
    }
    push_text(out, "        }\n        cur_slot += ");
    match &f.kind {
        FieldKind::Uint32 => push_text(out, "4"),
        _ => push_text(out, "8"),
    }
    push_text(out, ";\n");
    proof {
        reveal(spec_field_deserialization);
            assert(final(out)@ =~= old(out)@ + spec_field_deserialization(*f, idx as int));
    }
}

/// The serialization statements of fields `i..`.
pub open spec fn spec_serialization_fields(fields: Seq<Field>, i: int) -> Seq<u8>
    decreases fields.len() - i,
{
    if i < 0 || i >= fields.len() {
        Seq::empty()
    } else {
        spec_serialization_for_field(fields[i]) + spec_serialization_fields(fields, i + 1)
    }
}

/// The deserialization statements of fields `i..`.
pub open spec fn spec_deserialization_fields(fields: Seq<Field>, i: int) -> Seq<u8>
    decreases fields.len() - i,
{
    if i < 0 || i >= fields.len() {
        Seq::empty()
    } else {
        spec_field_deserialization(fields[i], i) + spec_deserialization_fields(fields, i + 1)
    }
}


/// Bytes one field occupies in the emitted constant header: inline
/// scalars take their width, everything else a forward-pointer slot.
pub open spec fn spec_const_field_width(k: FieldKind) -> int {
    match k {
        FieldKind::Uint32 => 4,
        _ => 8,
    }
}

/// Constant-header bytes of fields `i..`.
pub open spec fn spec_const_fields_size(fields: Seq<Field>, i: int) -> int
    decreases fields.len() - i,
{
    if i < 0 || i >= fields.len() {
        0
    } else {
        spec_const_field_width(fields[i].kind) + spec_const_fields_size(fields, i + 1)
    }
}

/// The dynamic-size statement for one field: dynamic kinds add their own
/// footprint when present; inline scalars add nothing.
#[verifier::opaque]
pub open spec fn spec_size_stmt(f: Field) -> Seq<u8> {
    match f.kind {
        FieldKind::Uint32 => Seq::empty(),
        FieldKind::Uint64 => Seq::empty(),
        _ => lit("        if self.has_") + name_bytes(f.name) + lit("() { size += self.")
            + name_bytes(f.name) + lit(".dynamic_header_size(); }\n"),
    }
}

/// The dynamic-size statements of fields `i..`.
pub open spec fn spec_size_stmts(fields: Seq<Field>, i: int) -> Seq<u8>
    decreases fields.len() - i,
{
    if i < 0 || i >= fields.len() {
        Seq::empty()
    } else {
        spec_size_stmt(fields[i]) + spec_size_stmts(fields, i + 1)
    }
}

/// Emits the dynamic-size statement for one field.
fn add_size_stmt(out: &mut Vec<u8>, f: &Field)
    ensures
        final(out)@ == old(out)@ + spec_size_stmt(*f),
{
    match &f.kind {
        FieldKind::Uint32 => {
            proof {
                reveal(spec_size_stmt);
            assert(final(out)@ =~= old(out)@ + spec_size_stmt(*f));
            }
        },
        FieldKind::Uint64 => {
            proof {
                reveal(spec_size_stmt);
            assert(final(out)@ =~= old(out)@ + spec_size_stmt(*f));
            }
        },
        _ => {
            push_text(out, "        if self.has_");
            push_name(out, &f.name);
            push_text(out, "() { size += self.");
            push_name(out, &f.name);
            push_text(out, ".dynamic_header_size(); }\n");
            proof {
                reveal(spec_size_stmt);
            assert(final(out)@ =~= old(out)@ + spec_size_stmt(*f));
            }
        },
    }
}

/// The entry-count statement for one field: a byte-string leaf counts
/// one entry when present, containers count their own entries, inline
/// scalars none.
#[verifier::opaque]
pub open spec fn spec_sge_stmt(f: Field) -> Seq<u8> {
    match f.kind {
        FieldKind::Uint32 => Seq::empty(),
        FieldKind::Uint64 => Seq::empty(),
        FieldKind::Bytes => lit("        if self.has_") + name_bytes(f.name) + lit(
            "() { n += 1; }\n",
        ),
        FieldKind::Text => lit("        if self.has_") + name_bytes(f.name) + lit(
            "() { n += 1; }\n",
        ),
        _ => lit("        if self.has_") + name_bytes(f.name) + lit("() { n += self.")
            + name_bytes(f.name) + lit(".num_scatter_gather_entries(); }\n"),
    }
}

/// The entry-count statements of fields `i..`.
pub open spec fn spec_sge_stmts(fields: Seq<Field>, i: int) -> Seq<u8>
    decreases fields.len() - i,
{
    if i < 0 || i >= fields.len() {
        Seq::empty()
    } else {
        spec_sge_stmt(fields[i]) + spec_sge_stmts(fields, i + 1)
    }
}

/// Emits the entry-count statement for one field.
fn add_sge_stmt(out: &mut Vec<u8>, f: &Field)
    ensures
        final(out)@ == old(out)@ + spec_sge_stmt(*f),
{
    match &f.kind {
        FieldKind::Uint32 => {
            proof {
                reveal(spec_sge_stmt);
            assert(final(out)@ =~= old(out)@ + spec_sge_stmt(*f));
            }
        },
        FieldKind::Uint64 => {
            proof {
                reveal(spec_sge_stmt);
            assert(final(out)@ =~= old(out)@ + spec_sge_stmt(*f));
            }
        },
        FieldKind::Bytes => {
            push_text(out, "        if self.has_");
            push_name(out, &f.name);
            push_text(out, "() { n += 1; }\n");
            proof {
                reveal(spec_sge_stmt);
            assert(final(out)@ =~= old(out)@ + spec_sge_stmt(*f));
            }
        },
        FieldKind::Text => {
            push_text(out, "        if self.has_");
            push_name(out, &f.name);
            push_text(out, "() { n += 1; }\n");
            proof {
                reveal(spec_sge_stmt);
            assert(final(out)@ =~= old(out)@ + spec_sge_stmt(*f));
            }
        },
        _ => {
            push_text(out, "        if self.has_");
            push_name(out, &f.name);
            push_text(out, "() { n += self.");
            push_name(out, &f.name);
            push_text(out, ".num_scatter_gather_entries(); }\n");
            proof {
                reveal(spec_sge_stmt);
            assert(final(out)@ =~= old(out)@ + spec_sge_stmt(*f));
            }
        },
    }
}

/// Computes the constant-header bytes of all fields.
fn const_fields_size(m: &Message) -> (r: usize)
    requires
        8 * m.fields@.len() + 16 <= usize::MAX,
    ensures
        r as int == spec_const_fields_size(m.fields@, 0),
        r <= 8 * m.fields@.len(),
{
    let n: usize = m.fields.len();
    let mut c: usize = 0;
    let mut i: usize = 0;
    while i < n
        invariant
            i <= n,
            n == m.fields@.len(),
            8 * n + 16 <= usize::MAX,
            c <= 8 * i,
            c as int + spec_const_fields_size(m.fields@, i as int) == spec_const_fields_size(
                m.fields@,
                0,
            ),
        decreases n - i,
    {
        let w: usize = match &m.fields[i].kind {
            FieldKind::Uint32 => 4,
            _ => 8,
        };
        c = c + w;
        i = i + 1;
    }
    c
}

/// The first half of the emitted header representation: the size,
/// entry-count and constant-size members.
#[verifier::opaque]
pub open spec fn spec_hdr_members(m: Message) -> Seq<u8> {
    lit("impl<'a> HeaderRepr<'a> for ") + name_bytes(m.name) + lit(
        "<'a> {\n    fn constant_header_size() -> usize {\n        8\n    }\n    fn is_contiguous() -> bool {\n        true\n    }\n    fn is_list(&self) -> bool {\n        false\n    }\n    fn dynamic_header_start(&self) -> usize {\n        4 + ",
    ) + name_bytes(m.name) + lit("_BITMAP_SIZE + ") + spec_decimal(
        spec_const_fields_size(m.fields@, 0),
    ) + lit(
        "\n    }\n    fn dynamic_header_size(&self) -> usize {\n        let mut size = 4 + ",
    ) + name_bytes(m.name) + lit("_BITMAP_SIZE + ") + spec_decimal(
        spec_const_fields_size(m.fields@, 0),
    ) + lit(";\n") + spec_size_stmts(m.fields@, 0) + lit(
        "        size\n    }\n    fn num_scatter_gather_entries(&self) -> usize {\n        let mut n = 0;\n",
    ) + spec_sge_stmts(m.fields@, 0) + lit("        n\n    }\n")
}

/// The second half of the emitted header representation: serialization
/// (the bitmap, then every present field in declaration order, each at
/// its always-reserved slot) and deserialization.
#[verifier::opaque]
pub open spec fn spec_hdr_serde(m: Message) -> Seq<u8> {
    lit(
        "    fn inner_serialize(&self, header: &mut Vec<u8>, c_off: usize, d: usize, sges: &mut Vec<Sge>, offsets: &mut Vec<usize>) {\n        serialize_bitmap(header, c_off, &self.bitmap);\n        let mut cur_slot = c_off + 4 + ",
    ) + name_bytes(m.name) + lit("_BITMAP_SIZE;\n        let mut cur_dyn = d;\n")
        + spec_serialization_fields(m.fields@, 0) + lit(
        "    }\n    fn inner_deserialize(&mut self, buffer: &[u8], header_offset: usize) -> Result<(), WireError> {\n        let bm = deserialize_bitmap(buffer, header_offset)?;\n        let obj = self;\n        let mut cur_slot = header_offset + 4 + bm.len();\n",
    ) + spec_deserialization_fields(m.fields@, 0) + lit("        Ok(())\n    }\n}\n")
}

/// The whole emitted header-representation implementation.
#[verifier::opaque]
pub open spec fn spec_add_header_repr(m: Message) -> Seq<u8> {
    spec_hdr_members(m) + spec_hdr_serde(m)
}

/// Emits the dynamic-size statements of every field.
fn emit_size_stmts(out: &mut Vec<u8>, m: &Message)
    ensures
        final(out)@ == old(out)@ + spec_size_stmts(m.fields@, 0),
{
    let ghost base = out@;
    let n: usize = m.fields.len();
    let mut i: usize = 0;
    while i < n
        invariant
            i <= n,
            n == m.fields@.len(),
            base + spec_size_stmts(m.fields@, 0) == out@ + spec_size_stmts(m.fields@, i as int),
        decreases n - i,
    {
        let ghost before = out@;
        add_size_stmt(out, &m.fields[i]);
        proof {
            assert(before + spec_size_stmts(m.fields@, i as int) =~= out@ + spec_size_stmts(
                m.fields@,
                i as int + 1,
            ));
        }
        i = i + 1;
    }
    proof {
        assert(spec_size_stmts(m.fields@, n as int) =~= Seq::<u8>::empty());
        assert(out@ + Seq::<u8>::empty() =~= out@);
    }
}

/// Emits the entry-count statements of every field.
fn emit_sge_stmts(out: &mut Vec<u8>, m: &Message)
    ensures
        final(out)@ == old(out)@ + spec_sge_stmts(m.fields@, 0),
{
    let ghost base = out@;
    let n: usize = m.fields.len();
    let mut i: usize = 0;
    while i < n
        invariant
            i <= n,
            n == m.fields@.len(),
            base + spec_sge_stmts(m.fields@, 0) == out@ + spec_sge_stmts(m.fields@, i as int),
        decreases n - i,
    {
        let ghost before = out@;
        add_sge_stmt(out, &m.fields[i]);
        proof {
            assert(before + spec_sge_stmts(m.fields@, i as int) =~= out@ + spec_sge_stmts(
                m.fields@,
                i as int + 1,
            ));
        }
        i = i + 1;
    }
    proof {
        assert(spec_sge_stmts(m.fields@, n as int) =~= Seq::<u8>::empty());
        assert(out@ + Seq::<u8>::empty() =~= out@);
    }
}

/// Emits the serialization statements of every field.
fn emit_serialization_fields(out: &mut Vec<u8>, m: &Message)
    ensures
        final(out)@ == old(out)@ + spec_serialization_fields(m.fields@, 0),
{
    let ghost base = out@;
    let n: usize = m.fields.len();
    let mut i: usize = 0;
    while i < n
        invariant
            i <= n,
            n == m.fields@.len(),
            base + spec_serialization_fields(m.fields@, 0) == out@ + spec_serialization_fields(
                m.fields@,
                i as int,
            ),
        decreases n - i,
    {
        let ghost before = out@;
        add_serialization_for_field(out, &m.fields[i]);
        proof {
            assert(before + spec_serialization_fields(m.fields@, i as int) =~= out@
                + spec_serialization_fields(m.fields@, i as int + 1));
        }
        i = i + 1;
    }
    proof {
        assert(spec_serialization_fields(m.fields@, n as int) =~= Seq::<u8>::empty());
        assert(out@ + Seq::<u8>::empty() =~= out@);
    }
}

/// Emits the deserialization statements of every field.
fn emit_deserialization_fields(out: &mut Vec<u8>, m: &Message)
    ensures
        final(out)@ == old(out)@ + spec_deserialization_fields(m.fields@, 0),
{
    let ghost base = out@;
    let n: usize = m.fields.len();
    let mut i: usize = 0;
    while i < n
        invariant
            i <= n,
            n == m.fields@.len(),
            base + spec_deserialization_fields(m.fields@, 0) == out@
                + spec_deserialization_fields(m.fields@, i as int),
        decreases n - i,
    {
        let ghost before = out@;
        add_field_deserialization(out, &m.fields[i], i);
        proof {
            assert(before + spec_deserialization_fields(m.fields@, i as int) =~= out@
                + spec_deserialization_fields(m.fields@, i as int + 1));
        }
        i = i + 1;
    }
    proof {
        assert(spec_deserialization_fields(m.fields@, n as int) =~= Seq::<u8>::empty());
        assert(out@ + Seq::<u8>::empty() =~= out@);
    }
}

/// Emits the size, entry-count and constant-size members.
#[verifier::rlimit(100)]
#[verifier::spinoff_prover]
fn add_header_members(out: &mut Vec<u8>, m: &Message)
    requires
        8 * m.fields@.len() + 16 <= usize::MAX,
    ensures
        final(out)@ == old(out)@ + spec_hdr_members(*m),
{
    let c = const_fields_size(m);
    push_text(out, "impl<'a> HeaderRepr<'a> for ");
    push_name(out, &m.name);
    push_text(
        out,
        "<'a> {\n    fn constant_header_size() -> usize {\n        8\n    }\n    fn is_contiguous() -> bool {\n        true\n    }\n    fn is_list(&self) -> bool {\n        false\n    }\n    fn dynamic_header_start(&self) -> usize {\n        4 + ",
    );
    push_name(out, &m.name);
    push_text(out, "_BITMAP_SIZE + ");
    push_decimal(out, c);
    push_text(
        out,
        "\n    }\n    fn dynamic_header_size(&self) -> usize {\n        let mut size = 4 + ",
    );
    push_name(out, &m.name);
    push_text(out, "_BITMAP_SIZE + ");
    push_decimal(out, c);
    push_text(out, ";\n");
    emit_size_stmts(out, m);
    push_text(
        out,
        "        size\n    }\n    fn num_scatter_gather_entries(&self) -> usize {\n        let mut n = 0;\n",
    );
    emit_sge_stmts(out, m);
    push_text(out, "        n\n    }\n");
    proof {
        reveal(spec_hdr_members);
            assert(final(out)@ =~= old(out)@ + spec_hdr_members(*m));
    }
}

/// Emits the serialization and deserialization methods.
#[verifier::rlimit(100)]
#[verifier::spinoff_prover]
fn add_header_serde(out: &mut Vec<u8>, m: &Message)
    ensures
        final(out)@ == old(out)@ + spec_hdr_serde(*m),
{
    push_text(
        out,
        "    fn inner_serialize(&self, header: &mut Vec<u8>, c_off: usize, d: usize, sges: &mut Vec<Sge>, offsets: &mut Vec<usize>) {\n        serialize_bitmap(header, c_off, &self.bitmap);\n        let mut cur_slot = c_off + 4 + ",
    );
    push_name(out, &m.name);
    push_text(out, "_BITMAP_SIZE;\n        let mut cur_dyn = d;\n");
    emit_serialization_fields(out, m);
    push_text(
        out,
        "    }\n    fn inner_deserialize(&mut self, buffer: &[u8], header_offset: usize) -> Result<(), WireError> {\n        let bm = deserialize_bitmap(buffer, header_offset)?;\n        let obj = self;\n        let mut cur_slot = header_offset + 4 + bm.len();\n",
    );
    emit_deserialization_fields(out, m);
    push_text(out, "        Ok(())\n    }\n}\n");
    proof {
        reveal(spec_hdr_serde);
            assert(final(out)@ =~= old(out)@ + spec_hdr_serde(*m));
    }
}

/// Emits the header-representation implementation of one message.
pub fn add_header_repr(out: &mut Vec<u8>, m: &Message)
    requires
        8 * m.fields@.len() + 16 <= usize::MAX,
    ensures
        final(out)@ == old(out)@ + spec_add_header_repr(*m),
{
    add_header_members(out, m);
    add_header_serde(out, m);
    proof {
        reveal(spec_add_header_repr);
            assert(final(out)@ =~= old(out)@ + spec_add_header_repr(*m));
    }
}


/// The guarded value comparison for one present field, by its kind.
#[verifier::opaque]
pub open spec fn spec_equality_value_check(f: Field) -> Seq<u8> {
    match f.kind {
        FieldKind::Uint32 => lit("            if self.") + name_bytes(f.name) + lit(
            " != other.",
        ) + name_bytes(f.name) + lit(" { return false; }\n"),
        FieldKind::Uint64 => lit("            if self.") + name_bytes(f.name) + lit(
            " != other.",
        ) + name_bytes(f.name) + lit(" { return false; }\n"),
        FieldKind::Bytes => lit("            if !bytes_eq(self.") + name_bytes(f.name) + lit(
            ".ptr, other.",
        ) + name_bytes(f.name) + lit(".ptr) { return false; }\n"),
        FieldKind::Text => lit("            if !bytes_eq(self.") + name_bytes(f.name) + lit(
            ".ptr, other.",
        ) + name_bytes(f.name) + lit(".ptr) { return false; }\n"),
        FieldKind::Nested(_) => lit("            if !self.") + name_bytes(f.name) + lit(
            ".check_deep_equality(&other.",
        ) + name_bytes(f.name) + lit(") { return false; }\n"),
        FieldKind::BytesList => lit("            if self.") + name_bytes(f.name) + lit(
            ".len() != other.",
        ) + name_bytes(f.name) + lit(
            ".len() { return false; }\n            for i in 0..self.",
        ) + name_bytes(f.name) + lit(".len() { if !bytes_eq(self.") + name_bytes(f.name) + lit(
            ".index(i).ptr, other.",
        ) + name_bytes(f.name) + lit(".index(i).ptr) { return false; } }\n"),
        _ => lit("            if self.") + name_bytes(f.name) + lit(".len() != other.")
            + name_bytes(f.name) + lit(
            ".len() { return false; }\n            for i in 0..self.",
        ) + name_bytes(f.name) + lit(".len() { if self.") + name_bytes(f.name) + lit(
            ".index(i) != other.",
        ) + name_bytes(f.name) + lit(".index(i) { return false; } }\n"),
    }
}

/// The deep-equality statements for one field: presence must match, and
/// a present field must compare equal by its kind.
#[verifier::opaque]
pub open spec fn spec_equality_stmt(f: Field) -> Seq<u8> {
    lit("        if self.has_") + name_bytes(f.name) + lit("() != other.has_") + name_bytes(
        f.name,
    ) + lit("() { return false; }\n        if self.has_") + name_bytes(f.name) + lit(
        "() {\n",
    ) + spec_equality_value_check(f) + lit("        }\n")
}

/// The deep-equality statements of fields `i..`.
pub open spec fn spec_equality_stmts(fields: Seq<Field>, i: int) -> Seq<u8>
    decreases fields.len() - i,
{
    if i < 0 || i >= fields.len() {
        Seq::empty()
    } else {
        spec_equality_stmt(fields[i]) + spec_equality_stmts(fields, i + 1)
    }
}

/// The emitted deep-equality method: bitwise presence match plus
/// recursive equality of every present field.
#[verifier::opaque]
pub open spec fn spec_equality_func(m: Message) -> Seq<u8> {
    lit("impl<'a> ") + name_bytes(m.name) + lit(
        "<'a> {\n    pub fn check_deep_equality(&self, other: &",
    ) + name_bytes(m.name) + lit("<'a>) -> bool {\n") + spec_equality_stmts(m.fields@, 0) + lit(
        "        true\n    }\n}\n",
    )
}

/// Emits the guarded value comparison for one present field.
#[verifier::rlimit(100)]
#[verifier::spinoff_prover]
fn add_equality_value_check(out: &mut Vec<u8>, f: &Field)
    ensures
        final(out)@ == old(out)@ + spec_equality_value_check(*f),
{
    match &f.kind {
        FieldKind::Uint32 => {
            push_text(out, "            if self.");
            push_name(out, &f.name);
            push_text(out, " != other.");
            push_name(out, &f.name);
            push_text(out, " { return false; }\n");
        },
        FieldKind::Uint64 => {
            push_text(out, "            if self.");
            push_name(out, &f.name);
            push_text(out, " != other.");
            push_name(out, &f.name);
            push_text(out, " { return false; }\n");
        },
        FieldKind::Bytes => {
            push_text(out, "            if !bytes_eq(self.");
            push_name(out, &f.name);
            push_text(out, ".ptr, other.");
            push_name(out, &f.name);
            push_text(out, ".ptr) { return false; }\n");
        },
        FieldKind::Text => {
            push_text(out, "            if !bytes_eq(self.");
            push_name(out, &f.name);
            push_text(out, ".ptr, other.");
            push_name(out, &f.name);
            push_text(out, ".ptr) { return false; }\n");
        },
        FieldKind::Nested(_) => {
            push_text(out, "            if !self.");
            push_name(out, &f.name);
            push_text(out, ".check_deep_equality(&other.");
            push_name(out, &f.name);
            push_text(out, ") { return false; }\n");
        },
        FieldKind::BytesList => {
            push_text(out, "            if self.");
            push_name(out, &f.name);
            push_text(out, ".len() != other.");
            push_name(out, &f.name);
            push_text(out, ".len() { return false; }\n            for i in 0..self.");
            push_name(out, &f.name);
            push_text(out, ".len() { if !bytes_eq(self.");
            push_name(out, &f.name);
            push_text(out, ".index(i).ptr, other.");
            push_name(out, &f.name);
            push_text(out, ".index(i).ptr) { return false; } }\n");
        },
        _ => {
            push_text(out, "            if self.");
            push_name(out, &f.name);
            push_text(out, ".len() != other.");
            push_name(out, &f.name);
            push_text(out, ".len() { return false; }\n            for i in 0..self.");
            push_name(out, &f.name);
            push_text(out, ".len() { if self.");
            push_name(out, &f.name);
            push_text(out, ".index(i) != other.");
            push_name(out, &f.name);
            push_text(out, ".index(i) { return false; } }\n");
        },
    }
    proof {
        reveal(spec_equality_value_check);
        assert(final(out)@ =~= old(out)@ + spec_equality_value_check(*f));
    }
}

/// Emits the deep-equality statements for one field.
fn add_equality_stmt(out: &mut Vec<u8>, f: &Field)
    ensures
        final(out)@ == old(out)@ + spec_equality_stmt(*f),
{
    push_text(out, "        if self.has_");
    push_name(out, &f.name);
    push_text(out, "() != other.has_");
    push_name(out, &f.name);
    push_text(out, "() { return false; }\n        if self.has_");
    push_name(out, &f.name);
    push_text(out, "() {\n");
    add_equality_value_check(out, f);
    push_text(out, "        }\n");
    proof {
        reveal(spec_equality_stmt);
        assert(final(out)@ =~= old(out)@ + spec_equality_stmt(*f));
    }
}

/// Emits the deep-equality method of one message.
pub fn add_equality_func(out: &mut Vec<u8>, m: &Message)
    ensures
        final(out)@ == old(out)@ + spec_equality_func(*m),
{
    push_text(out, "impl<'a> ");
    push_name(out, &m.name);
    push_text(out, "<'a> {\n    pub fn check_deep_equality(&self, other: &");
    push_name(out, &m.name);
    push_text(out, "<'a>) -> bool {\n");
    let ghost base = out@;
    let n: usize = m.fields.len();
    let mut i: usize = 0;
    while i < n
        invariant
            i <= n,
            n == m.fields@.len(),
            base + spec_equality_stmts(m.fields@, 0) == out@ + spec_equality_stmts(
                m.fields@,
                i as int,
            ),
        decreases n - i,
    {
        let ghost before = out@;
        add_equality_stmt(out, &m.fields[i]);
        proof {
            assert(before + spec_equality_stmts(m.fields@, i as int) =~= out@
                + spec_equality_stmts(m.fields@, i as int + 1));
        }
        i = i + 1;
    }
    proof {
        assert(spec_equality_stmts(m.fields@, n as int) =~= Seq::<u8>::empty());
        assert(out@ + Seq::<u8>::empty() =~= out@);
        assert(out@ =~= base + spec_equality_stmts(m.fields@, 0));
    }
    push_text(out, "        true\n    }\n}\n");
    proof {
        reveal(spec_equality_func);
            assert(final(out)@ =~= old(out)@ + spec_equality_func(*m));
    }
}

/// Everything emitted for one message.
#[verifier::opaque]
pub open spec fn spec_message(m: Message) -> Seq<u8> {
    spec_bitmap_size_const(m) + spec_struct_definition(m) + spec_default_impl(m) + spec_add_impl(
        m,
    ) + spec_equality_func(m) + spec_add_header_repr(m)
}

/// The whole generated file: the messages `i..`, in schema order.
pub open spec fn spec_compile(messages: Seq<Message>, i: int) -> Seq<u8>
    decreases messages.len() - i,
{
    if i < 0 || i >= messages.len() {
        Seq::empty()
    } else {
        spec_message(messages[i]) + spec_compile(messages, i + 1)
    }
}

/// Emits everything for one message.
#[verifier::rlimit(100)]
#[verifier::spinoff_prover]
pub fn add_message(out: &mut Vec<u8>, m: &Message)
    requires
        8 * m.fields@.len() + 16 <= usize::MAX,
    ensures
        final(out)@ == old(out)@ + spec_message(*m),
{
    add_bitmap_size_const(out, m);
    add_struct_definition(out, m);
    add_default_impl(out, m);
    add_impl(out, m);
    add_equality_func(out, m);
    add_header_repr(out, m);
    proof {
        reveal(spec_message);
            assert(final(out)@ =~= old(out)@ + spec_message(*m));
    }
}

/// Generates the message structs and their implementations for a whole
/// schema.  The output is a function of the schema alone — the contract
/// names every emitted byte — so regenerating an unchanged schema gives
/// byte-identical source.
pub fn compile(schema: &Schema) -> (r: Vec<u8>)
    requires
        forall|i: int|
            0 <= i < schema.messages@.len() ==> 8 * (#[trigger] schema.messages@[i]).fields@.len()
                + 16 <= usize::MAX,
    ensures
        r@ == spec_compile(schema.messages@, 0),
{
    let mut out: Vec<u8> = Vec::new();
    let n: usize = schema.messages.len();
    let mut i: usize = 0;
    proof {
        assert(out@ =~= Seq::<u8>::empty());
    }
    while i < n
        invariant
            i <= n,
            n == schema.messages@.len(),
            forall|k: int|
                0 <= k < schema.messages@.len() ==> 8 * (
                #[trigger] schema.messages@[k]).fields@.len() + 16 <= usize::MAX,
            spec_compile(schema.messages@, 0) == out@ + spec_compile(
                schema.messages@,
                i as int,
            ),
        decreases n - i,
    {
        let ghost before = out@;
        add_message(&mut out, &schema.messages[i]);
        proof {
            assert(before + spec_compile(schema.messages@, i as int) =~= out@ + spec_compile(
                schema.messages@,
                i as int + 1,
            ));
        }
        i = i + 1;
    }
    proof {
        assert(spec_compile(schema.messages@, n as int) =~= Seq::<u8>::empty());
        assert(out@ + Seq::<u8>::empty() =~= out@);
        assert(out@ =~= spec_compile(schema.messages@, 0));
    }
    out
}

} // verus!
