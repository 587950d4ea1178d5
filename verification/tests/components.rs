use core::str::FromStr;
use cornflakes::bitmap::{bitmap_length, deserialize_bitmap, new_bitmap, serialize_bitmap};
use cornflakes::codegen::{compile, Field, FieldKind, Message, Schema};
use cornflakes::datapath::{InlineMode, PushBufType};
use cornflakes::echodata::{
    check_single_buffer, check_tree1l, deserialize_single_buffer, deserialize_tree1l,
    get_equal_fields, get_single_buffer_message, get_tree1l_message, init_payload,
    init_payloads_as_vec, EchoMode, SimpleMessageType, TreeDepth,
};
use cornflakes::fwd::{read_fwd_offset, read_fwd_size, write_fwd};
use cornflakes::hdr::HeaderRepr;
use cornflakes::kv::{MsgType, TwitterMsgType};
use cornflakes::leaves::CFBytes;
use cornflakes::lists::{List, OwnedList, RefList};
use cornflakes::messages::SingleBufferCF;
use cornflakes::sizes::{MempoolAllocationParams, PGSIZE_2MB, PGSIZE_4KB};
use cornflakes::util::{align_to_pow2, align_up};
use cornflakes::WireError;

#[test]
fn align_up_cases() {
    assert_eq!(align_up(0, 4), 0);
    assert_eq!(align_up(1, 4), 4);
    assert_eq!(align_up(4, 4), 4);
    assert_eq!(align_up(5, 4), 8);
    assert_eq!(align_up(4096, 64), 4096);
    assert_eq!(align_up(4097, 64), 4160);
}

#[test]
fn align_to_pow2_cases() {
    assert_eq!(align_to_pow2(0), 1);
    assert_eq!(align_to_pow2(1), 1);
    assert_eq!(align_to_pow2(2), 2);
    assert_eq!(align_to_pow2(3), 4);
    assert_eq!(align_to_pow2(4096), 4096);
    assert_eq!(align_to_pow2(4097), 8192);
}

#[test]
fn bitmap_round_trip() {
    assert_eq!(bitmap_length(1), 4);
    assert_eq!(bitmap_length(2), 4);
    assert_eq!(bitmap_length(5), 8);
    let mut bm = new_bitmap(4);
    bm[2] = 1;
    let mut header = vec![0u8; 12];
    serialize_bitmap(&mut header, 2, &bm);
    assert_eq!(&header[2..6], &[4, 0, 0, 0]);
    assert_eq!(&header[6..10], &[0, 0, 1, 0]);
    let back = deserialize_bitmap(&header, 2).unwrap();
    assert_eq!(back, bm);
    assert_eq!(deserialize_bitmap(&header, 10), Err(WireError::Malformed));
}

#[test]
fn forward_pointer_codec_is_little_endian() {
    // the forward pointer really lands in the buffer: size then offset,
    // both little-endian
    let mut buf = vec![0xffu8; 12];
    write_fwd(&mut buf, 2, 0x01020304, 0x0a0b0c0d);
    assert_eq!(&buf[2..6], &[0x04, 0x03, 0x02, 0x01]);
    assert_eq!(&buf[6..10], &[0x0d, 0x0c, 0x0b, 0x0a]);
    assert_eq!(read_fwd_size(&buf, 2), 0x01020304);
    assert_eq!(read_fwd_offset(&buf, 2), 0x0a0b0c0d);
    assert_eq!(buf[0], 0xff);
    assert_eq!(buf[10], 0xff);
}

#[test]
fn owned_scalar_list_operations() {
    let mut l: OwnedList<u32> = OwnedList::init(3);
    assert_eq!(l.len(), 0);
    l.append(7);
    l.append(9);
    assert_eq!(l.len(), 2);
    assert_eq!(l.index(0), 7);
    assert_eq!(l.index(1), 9);
    l.replace(0, 11);
    assert_eq!(l.index(0), 11);
    // replacing an unset slot leaves the appended run unchanged
    l.replace(2, 99);
    assert_eq!(l.len(), 2);
}

#[test]
fn scalar_list_round_trips_through_wire_form() {
    let mut l: OwnedList<u32> = OwnedList::init(3);
    l.append(0xdeadbeef);
    l.append(1);
    l.append(0x01020304);
    // list region: fwd pointer at 0, elements at 8
    let mut header = vec![0u8; 8 + 12];
    let mut sges = Vec::new();
    let mut offsets = Vec::new();
    l.inner_serialize(&mut header, 0, 8, &mut sges, &mut offsets);
    assert_eq!(sges.len(), 0);
    assert_eq!(&header[0..4], &[3, 0, 0, 0]);
    assert_eq!(&header[4..8], &[8, 0, 0, 0]);
    assert_eq!(&header[8..12], &[0xef, 0xbe, 0xad, 0xde]);

    let mut back: List<u32> = List::init_ref();
    back.inner_deserialize(&header, 0).unwrap();
    assert_eq!(back.len(), 3);
    assert_eq!(back.index(0), 0xdeadbeef);
    assert_eq!(back.index(1), 1);
    assert_eq!(back.index(2), 0x01020304);
}

#[test]
fn ref_list_replace_changes_only_the_view() {
    let mut l: OwnedList<u64> = OwnedList::init(2);
    l.append(5);
    l.append(6);
    let mut header = vec![0u8; 8 + 16];
    let mut sges = Vec::new();
    let mut offsets = Vec::new();
    l.inner_serialize(&mut header, 0, 8, &mut sges, &mut offsets);
    let mut view: RefList<u64> = RefList::default();
    view.inner_deserialize(&header, 0).unwrap();
    let before = header.clone();
    view.replace(0, 77);
    assert_eq!(view.index(0), 77);
    // the received bytes are untouched
    assert_eq!(header, before);
}

#[test]
fn list_append_is_for_the_owned_variant() {
    let mut l: List<u32> = List::init(2);
    l.append(1);
    l.append(2);
    assert_eq!(l.len(), 2);
    l.replace(1, 5);
    assert_eq!(l.index(1), 5);
}

#[test]
fn mempool_params_round_pages() {
    let p = MempoolAllocationParams::new(100, PGSIZE_4KB, 256, 1).unwrap();
    // 16 items fit a page; 100 rounds up to 112
    assert_eq!(p.get_item_len(), 256);
    assert_eq!(p.get_data_pgsize(), PGSIZE_4KB);
    assert_eq!(p.get_num_items(), 112);
    assert_eq!(p.get_registration_unit(), 7 * PGSIZE_4KB);

    // page size not supported
    assert!(MempoolAllocationParams::new(100, 8192, 256, 1).is_err());
    // item size does not divide the page
    assert!(MempoolAllocationParams::new(100, PGSIZE_4KB, 257, 1).is_err());
    // pages cannot split across registrations
    assert!(MempoolAllocationParams::new(16, PGSIZE_2MB, 1024, 7).is_err());
}

#[test]
fn equal_fields_split_payload_sizes() {
    assert_eq!(get_equal_fields(SimpleMessageType::Single, 100), vec![100]);
    assert_eq!(get_equal_fields(SimpleMessageType::List(4), 100), vec![25, 25, 25, 25]);
    assert_eq!(
        get_equal_fields(SimpleMessageType::Tree(TreeDepth::One), 100),
        vec![50, 50]
    );
    assert_eq!(get_equal_fields(SimpleMessageType::Tree(TreeDepth::Five), 64).len(), 32);
}

#[test]
fn payloads_repeat_the_alphabet() {
    assert_eq!(init_payload(5), b"abcde".to_vec());
    assert_eq!(init_payload(28), b"abcdefghijklmnopqrstuvwxyzab".to_vec());
    let all = init_payloads_as_vec(&vec![2, 3]);
    assert_eq!(all, vec![b"ab".to_vec(), b"abc".to_vec()]);
}

#[test]
fn echo_helpers_build_and_check_messages() {
    let p0 = b"first".to_vec();
    let p1 = b"second".to_vec();
    let borrowed: Vec<&[u8]> = vec![&p0, &p1];
    let single = get_single_buffer_message(1, &borrowed);
    assert_eq!(single.get_message().ptr, b"second");
    let owned = vec![p0.clone(), p1.clone()];
    assert!(check_single_buffer(1, &owned, &single));
    assert!(!check_single_buffer(0, &owned, &single));

    let tree = get_tree1l_message(&[0, 1], &borrowed);
    assert!(check_tree1l(&[0, 1], &owned, &tree));
    assert!(!check_tree1l(&[1, 0], &owned, &tree));

    let echoed = deserialize_tree1l(&tree);
    assert!(echoed.check_deep_equality(&tree));
    let echoed_single = deserialize_single_buffer(&single);
    assert!(echoed_single.check_deep_equality(&single));
}

#[test]
fn mode_strings_parse() {
    assert_eq!(EchoMode::from_str("client"), Ok(EchoMode::Client));
    assert_eq!(EchoMode::from_str("SERVER"), Ok(EchoMode::Server));
    assert!(EchoMode::from_str("peer").is_err());
    assert_eq!(InlineMode::from_str("packet_header"), Ok(InlineMode::PacketHeader));
    assert_eq!(InlineMode::from_str("0"), Ok(InlineMode::Nothing));
    assert!(InlineMode::from_str("half").is_err());
    assert_eq!(PushBufType::from_str("ordered_sga"), Ok(PushBufType::OrderedSga));
    assert_eq!(PushBufType::from_str("singlebuf"), Ok(PushBufType::SingleBuf));
    assert!(PushBufType::from_str("raw").is_err());
    assert_eq!(InlineMode::default(), InlineMode::Nothing);
}

#[test]
fn kv_request_kinds_carry_sizes() {
    let g = MsgType::Get(64);
    let p = MsgType::Put(128);
    assert_ne!(g, p);
    assert_eq!(g, MsgType::Get(64));
    let t = TwitterMsgType::SetValue(32);
    assert_ne!(t, TwitterMsgType::Add(32));
}

#[test]
fn single_buffer_message_is_its_own_schema() {
    // leaf bookkeeping the code generator relies on
    let msg = SingleBufferCF::new();
    assert_eq!(SingleBufferCF::constant_header_size(), 8);
    assert_eq!(msg.dynamic_header_start(), 16);
    assert_eq!(CFBytes::new_from_bytes(b"xyz").len(), 3);
}

fn sample_schema() -> Schema {
        Schema {
            messages: vec![
                Message {
                    name: "EchoSingle".to_string(),
                    fields: vec![Field {
                        name: "message".to_string(),
                        kind: FieldKind::Bytes,
                    }],
                },
                Message {
                    name: "EchoPair".to_string(),
                    fields: vec![
                        Field { name: "id".to_string(), kind: FieldKind::Uint32 },
                        Field { name: "body".to_string(), kind: FieldKind::BytesList },
                        Field {
                            name: "inner".to_string(),
                            kind: FieldKind::Nested("EchoSingle".to_string()),
                        },
                    ],
                },
            ],
        }
}

#[test]
fn generator_output_is_reproducible() {
    let first = compile(&sample_schema());
    let second = compile(&sample_schema());
    // regenerating an unchanged schema gives byte-identical source
    assert_eq!(first, second);
    let text = String::from_utf8(first).unwrap();
    assert!(text.contains("pub struct EchoSingle<'a> {"));
    assert!(text.contains("pub const EchoSingle_BITMAP_SIZE: usize = 4;"));
    assert!(text.contains("pub fn has_message(&self) -> bool {"));
    assert!(text.contains("pub fn set_body(&mut self, field: VariableList<'a, CFBytes<'a>>)"));
    assert!(text.contains("pub fn init_body(&mut self, num: usize)"));
    assert!(text.contains("pub fn get_mut_inner(&mut self) -> &mut EchoSingle<'a>"));
    assert!(text.contains("impl<'a> HeaderRepr<'a> for EchoPair<'a> {"));
    assert!(text.contains("le_write_u32(header, cur_slot, self.id);"));
    // the emitted deserializer restores each present field's bitmap bit
    assert!(text.contains("if bm.len() > 0 && bm[0] == 1 {\n            obj.bitmap[0] = 1;"));
    assert!(text.contains("if bm.len() > 2 && bm[2] == 1 {\n            obj.bitmap[2] = 1;"));
    // a truncated constant header is rejected before any scalar slot read
    assert!(text.contains(
        "if cur_slot + 4 > buffer.len() { return Err(WireError::Malformed); }\n            obj.id = le_read_u32(buffer, cur_slot);"
    ));
    // the emitted impl carries the size and entry-count members
    assert!(text.contains("fn dynamic_header_start(&self) -> usize {\n        4 + EchoSingle_BITMAP_SIZE + 8"));
    assert!(text.contains("fn dynamic_header_size(&self) -> usize {\n        let mut size = 4 + EchoPair_BITMAP_SIZE + 20;"));
    assert!(text.contains("if self.has_body() { n += self.body.num_scatter_gather_entries(); }"));
    assert!(text.contains("if self.has_message() { n += 1; }"));
    // the emitted deep-equality method compares presence, then values
    assert!(text.contains("pub fn check_deep_equality(&self, other: &EchoPair<'a>) -> bool {"));
    assert!(text.contains("if self.has_id() != other.has_id() { return false; }"));
    assert!(text.contains("if !self.inner.check_deep_equality(&other.inner) { return false; }"));
}

fn tree_schema(depth: usize) -> Schema {
    let mut messages = vec![Message {
        name: "TreeLeaf".to_string(),
        fields: vec![Field { name: "data".to_string(), kind: FieldKind::Bytes }],
    }];
    let mut child = "TreeLeaf".to_string();
    for level in 1..=depth {
        let name = format!("TreeL{}", level);
        messages.push(Message {
            name: name.clone(),
            fields: vec![
                Field { name: "left".to_string(), kind: FieldKind::Nested(child.clone()) },
                Field { name: "right".to_string(), kind: FieldKind::Nested(child.clone()) },
            ],
        });
        child = name;
    }
    Schema { messages }
}

#[test]
fn generator_covers_deep_trees() {
    // binary trees past depth two come out of the generator; each level is a
    // full header-repr message over the level below it
    let text = String::from_utf8(compile(&tree_schema(5))).unwrap();
    for level in 1..=5 {
        assert!(text.contains(&format!("pub struct TreeL{}<'a> {{", level)));
        assert!(text.contains(&format!("impl<'a> HeaderRepr<'a> for TreeL{}<'a> {{", level)));
    }
    assert!(text.contains("pub fn get_mut_left(&mut self) -> &mut TreeL4<'a>"));
    assert!(text.contains("pub fn set_right(&mut self, field: TreeL4<'a>)"));
    // nested children serialize and deserialize through their forward slots
    assert!(text.contains("inner_serialize_with_ref(&self.left, header, cur_slot"));
    assert!(text.contains("inner_deserialize_with_ref(&mut obj.right, buffer, cur_slot, true)?;"));
    // every level's presence bits survive the round trip
    assert!(text.contains("if bm.len() > 1 && bm[1] == 1 {\n            obj.bitmap[1] = 1;"));
}
