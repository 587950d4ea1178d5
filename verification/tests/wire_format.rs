use cornflakes::datapath::LoopbackDatapath;
use cornflakes::hdr::{alloc_context, deserialize, serialize_into_sga, total_header_size, HeaderRepr};
use cornflakes::leaves::{CFBytes, CFString};
use cornflakes::echodata::{check_tree2l, get_tree2l_message};
use cornflakes::messages::{ListCF, SingleBufferCF, Tree1LCF, Tree2LCF};
use cornflakes::varlist::VariableList;
use cornflakes::WireError;

fn everything_registered() -> LoopbackDatapath {
    LoopbackDatapath::new(0, 32, 0)
}

fn wire_of_single(msg: &SingleBufferCF, d: &LoopbackDatapath) -> Vec<u8> {
    let (mut header, mut sga) = alloc_context(msg);
    serialize_into_sga(msg, &mut header, &mut sga, d).unwrap();
    sga.contiguous_repr()
}

fn wire_of_list(msg: &ListCF, d: &LoopbackDatapath) -> Vec<u8> {
    let (mut header, mut sga) = alloc_context(msg);
    serialize_into_sga(msg, &mut header, &mut sga, d).unwrap();
    sga.contiguous_repr()
}

#[test]
fn single_buffer_hello_layout() {
    // one bytes field set to b"hello": bitmap length 4, bitmap byte 0 set,
    // forward pointer (size 5, offset 16) at the constant-header slot,
    // exactly one scatter-gather entry of length 5
    let payload = b"hello";
    let mut msg = SingleBufferCF::new();
    msg.set_message(CFBytes::new_from_bytes(payload));
    assert_eq!(msg.num_scatter_gather_entries(), 1);
    assert_eq!(msg.dynamic_header_size(), 16);

    let d = everything_registered();
    let (mut header, mut sga) = alloc_context(&msg);
    serialize_into_sga(&msg, &mut header, &mut sga, &d).unwrap();
    // slot 0 holds the completed 16-byte header, slot 1 the payload
    assert_eq!(sga.len(), 2);
    let head = sga.entries[0].addr();
    assert_eq!(head.len(), 16);
    assert_eq!(&head[0..4], &[4, 0, 0, 0]);
    assert_eq!(&head[4..8], &[1, 0, 0, 0]);
    assert_eq!(&head[8..12], &[5, 0, 0, 0]);
    assert_eq!(&head[12..16], &[16, 0, 0, 0]);
    assert_eq!(sga.entries[1].len(), 5);
    assert_eq!(sga.num_copy_entries(), 1);

    let wire = sga.contiguous_repr();
    assert_eq!(wire.len(), 21);
    let mut out = SingleBufferCF::new();
    deserialize(&mut out, &wire).unwrap();
    assert!(out.has_message());
    assert_eq!(out.get_message().ptr, payload);
    assert!(out.check_deep_equality(&msg));
}

#[test]
fn single_buffer_absent_round_trip() {
    let msg = SingleBufferCF::new();
    let d = everything_registered();
    let wire = wire_of_single(&msg, &d);
    assert_eq!(wire.len(), 16);
    let mut out = SingleBufferCF::new();
    deserialize(&mut out, &wire).unwrap();
    assert!(!out.has_message());
    assert!(out.check_deep_equality(&msg));
}

#[test]
fn single_buffer_round_trip_under_copy_heuristics() {
    // the same message round-trips whichever bucket the datapath puts
    // its one segment in
    let payload = b"payload bytes";
    for d in [
        LoopbackDatapath::new(0, 32, 0),
        LoopbackDatapath::new(1024, 32, 0),
        LoopbackDatapath::new(0, 32, 1024),
        LoopbackDatapath::new(1, 1, usize::MAX),
    ] {
        let mut msg = SingleBufferCF::new();
        msg.set_message(CFBytes::new_from_bytes(payload));
        let wire = wire_of_single(&msg, &d);
        let mut out = SingleBufferCF::new();
        deserialize(&mut out, &wire).unwrap();
        assert!(out.check_deep_equality(&msg));
    }
}

#[test]
fn list_three_elements_layout() {
    // three byte-string elements of lengths 2, 3, 4: exactly three
    // scatter-gather entries and a list forward pointer whose size is 3
    let e0 = b"ab";
    let e1 = b"cde";
    let e2 = b"fghi";
    let mut msg = ListCF::new();
    msg.init_messages(3);
    msg.append_message(CFBytes::new_from_bytes(e0));
    msg.append_message(CFBytes::new_from_bytes(e1));
    msg.append_message(CFBytes::new_from_bytes(e2));
    assert_eq!(msg.num_scatter_gather_entries(), 3);
    // header: 4 + 4 bitmap + 8 slot + list fwd/table: 8 slots * 3
    assert_eq!(msg.dynamic_header_size(), 16 + 24);

    let d = everything_registered();
    let (mut header, mut sga) = alloc_context(&msg);
    serialize_into_sga(&msg, &mut header, &mut sga, &d).unwrap();
    // the head slot plus three payload entries
    assert_eq!(sga.len(), 4);
    // field slot at 8: size half holds the element count 3, offset half 16
    let head = sga.entries[0].addr();
    assert_eq!(&head[8..12], &[3, 0, 0, 0]);
    assert_eq!(&head[12..16], &[16, 0, 0, 0]);

    let wire = sga.contiguous_repr();
    let mut out = ListCF::new();
    deserialize(&mut out, &wire).unwrap();
    assert!(out.has_messages());
    assert_eq!(out.get_messages().len(), 3);
    assert_eq!(out.get_messages().index(0).ptr, e0);
    assert_eq!(out.get_messages().index(1).ptr, e1);
    assert_eq!(out.get_messages().index(2).ptr, e2);
    assert!(out.check_deep_equality(&msg));
}

#[test]
fn list_four_elements_counts_four_entries() {
    let mut msg = ListCF::new();
    msg.init_messages(4);
    for payload in [b"aa".as_slice(), b"bb", b"cc", b"dd"] {
        msg.append_message(CFBytes::new_from_bytes(payload));
    }
    assert_eq!(msg.num_scatter_gather_entries(), 4);
    let d = everything_registered();
    let (mut header, mut sga) = alloc_context(&msg);
    serialize_into_sga(&msg, &mut header, &mut sga, &d).unwrap();
    // the entry count the message reported is exactly what serialization
    // produced, behind the head slot
    assert_eq!(sga.len(), 1 + 4);
}

#[test]
fn list_empty_and_absent_round_trips() {
    let d = everything_registered();

    let absent = ListCF::new();
    let wire = wire_of_list(&absent, &d);
    let mut out = ListCF::new();
    deserialize(&mut out, &wire).unwrap();
    assert!(!out.has_messages());
    assert!(out.check_deep_equality(&absent));

    let mut empty = ListCF::new();
    empty.init_messages(0);
    let wire = wire_of_list(&empty, &d);
    let mut out = ListCF::new();
    deserialize(&mut out, &wire).unwrap();
    assert!(out.has_messages());
    assert_eq!(out.get_messages().len(), 0);
    assert!(out.check_deep_equality(&empty));
    assert!(!out.check_deep_equality(&absent));
}

#[test]
fn tree1l_round_trip_all_presence_combinations() {
    let d = everything_registered();
    let left = b"left leaf";
    let right = b"right leaf";
    for (set_l, set_r) in [(false, false), (true, false), (false, true), (true, true)] {
        let mut msg = Tree1LCF::new();
        if set_l {
            let mut child = SingleBufferCF::new();
            child.set_message(CFBytes::new_from_bytes(left));
            msg.set_left(child);
        }
        if set_r {
            let mut child = SingleBufferCF::new();
            child.set_message(CFBytes::new_from_bytes(right));
            msg.set_right(child);
        }
        let expected_entries = set_l as usize + set_r as usize;
        assert_eq!(msg.num_scatter_gather_entries(), expected_entries);
        let (mut header, mut sga) = alloc_context(&msg);
        serialize_into_sga(&msg, &mut header, &mut sga, &d).unwrap();
        assert_eq!(sga.len(), 1 + expected_entries);
        let wire = sga.contiguous_repr();
        let mut out = Tree1LCF::new();
        deserialize(&mut out, &wire).unwrap();
        assert_eq!(out.has_left(), set_l);
        assert_eq!(out.has_right(), set_r);
        if set_l {
            assert_eq!(out.get_left().get_message().ptr, left);
        }
        if set_r {
            assert_eq!(out.get_right().get_message().ptr, right);
        }
        assert!(out.check_deep_equality(&msg));
    }
}

#[test]
fn variable_list_of_nested_messages_round_trips() {
    // list elements that are themselves messages exercise the nested
    // forward-pointer path
    let d = everything_registered();
    let payloads: [&[u8]; 3] = [b"one", b"two!", b"three"];
    let mut list: VariableList<SingleBufferCF> = VariableList::init(3);
    for p in payloads {
        let mut child = SingleBufferCF::new();
        child.set_message(CFBytes::new_from_bytes(p));
        list.append(child);
    }
    let (mut header, mut sga) = alloc_context(&list);
    // a bare list is not a top-level object; serialize it behind a fresh
    // buffer by hand: fwd pointer at 0, table at 8
    let mut header2 = vec![0u8; 8 + list.dynamic_header_size()];
    let mut sges = Vec::new();
    let mut offsets = Vec::new();
    list.inner_serialize(&mut header2, 0, 8, &mut sges, &mut offsets);
    assert_eq!(sges.len(), 3);
    assert_eq!(offsets.len(), 3);
    // back-patch each leaf by hand: payloads will sit after the header
    let mut wire = header2.clone();
    let mut cur = wire.len() as u32;
    for (sge, off) in sges.iter().zip(offsets.iter()) {
        let len = sge.len() as u32;
        wire[*off..*off + 4].copy_from_slice(&len.to_le_bytes());
        wire[*off + 4..*off + 8].copy_from_slice(&cur.to_le_bytes());
        cur += len;
    }
    for sge in sges.iter() {
        wire.extend_from_slice(sge.addr());
    }
    let mut out: VariableList<SingleBufferCF> = VariableList::default();
    out.inner_deserialize(&wire, 0).unwrap();
    assert_eq!(out.len(), 3);
    for (i, p) in payloads.iter().enumerate() {
        assert!(out.index(i).has_message());
        assert_eq!(out.index(i).get_message().ptr, *p);
    }
    let _ = (header, sga);
}

#[test]
fn capacity_error_before_mutation() {
    let mut msg = SingleBufferCF::new();
    msg.set_message(CFBytes::new_from_bytes(b"hi"));
    let d = everything_registered();

    // header buffer too small: one entry plus the head slot is enough,
    // but 8 bytes of header are not 16
    let mut small = vec![0u8; 8];
    let mut sga = cornflakes::sga::OrderedSga::allocate(2);
    let r = serialize_into_sga(&msg, &mut small, &mut sga, &d);
    assert_eq!(r, Err(WireError::Capacity));
    drop(sga);
    assert_eq!(small, vec![0u8; 8]);

    // scatter-gather array too small: no room for the entry and the
    // reserved head slot
    let mut header = vec![0u8; 16];
    let mut tight = cornflakes::sga::OrderedSga::allocate(1);
    let r = serialize_into_sga(&msg, &mut header, &mut tight, &d);
    assert_eq!(r, Err(WireError::Capacity));
    assert_eq!(tight.len(), 1);
    drop(tight);
    assert_eq!(header, vec![0u8; 16]);
}

#[test]
fn malformed_buffers_are_rejected() {
    let mut out = SingleBufferCF::new();
    assert_eq!(deserialize(&mut out, b"abc"), Err(WireError::Malformed));
    // a bitmap length that runs past the buffer
    let bad = [200u8, 0, 0, 0, 1, 0, 0, 0];
    assert_eq!(deserialize(&mut out, &bad), Err(WireError::Malformed));
    // a present field whose forward pointer points past the end
    let mut wire = Vec::new();
    wire.extend_from_slice(&[4, 0, 0, 0]);
    wire.extend_from_slice(&[1, 0, 0, 0]);
    wire.extend_from_slice(&[100, 0, 0, 0]);
    wire.extend_from_slice(&[16, 0, 0, 0]);
    assert_eq!(deserialize(&mut out, &wire), Err(WireError::Malformed));
}

#[test]
fn bitmap_presence_is_sticky() {
    // has_<field>() stays true across later setter calls
    let mut msg = SingleBufferCF::new();
    assert!(!msg.has_message());
    msg.set_message(CFBytes::new_from_bytes(b"first"));
    assert!(msg.has_message());
    msg.set_message(CFBytes::new_from_bytes(b"second"));
    assert!(msg.has_message());
    assert_eq!(msg.get_message().ptr, b"second");

    let mut tree = Tree1LCF::new();
    tree.set_left(SingleBufferCF::new());
    assert!(tree.has_left());
    assert!(!tree.has_right());
    tree.set_right(SingleBufferCF::new());
    assert!(tree.has_left());
    assert!(tree.has_right());
}

#[test]
fn deep_equality_requires_matching_presence() {
    // two objects with different presence masks are unequal even though
    // the absent field's default matches the other's value
    let mut with_empty = SingleBufferCF::new();
    with_empty.set_message(CFBytes::new_from_bytes(b""));
    let absent = SingleBufferCF::new();
    assert!(!with_empty.check_deep_equality(&absent));
    assert!(!absent.check_deep_equality(&with_empty));
    assert!(absent.check_deep_equality(&SingleBufferCF::new()));
}

#[test]
fn cfstring_views_and_decodes() {
    let s = CFString::new("hello");
    assert_eq!(s.len(), 5);
    assert_eq!(s.to_string(), "hello");
    let b = CFString::new_from_bytes(b"caf\xc3\xa9");
    assert_eq!(b.to_string(), "café");
    let lossy = CFString::new_from_bytes(&[0x66, 0xff, 0x6f]);
    assert_eq!(lossy.to_string(), "f\u{fffd}o");
}

#[test]
fn total_header_size_matches_layout() {
    let mut msg = ListCF::new();
    msg.init_messages(2);
    msg.append_message(CFBytes::new_from_bytes(b"xy"));
    // top-level: 4 + 4 bitmap + 8 slot + (8 table slot per element)
    assert_eq!(total_header_size(&msg, false), 16 + 8);
    // behind a forward pointer it also occupies its parent slot
    assert_eq!(total_header_size(&msg, true), 16 + 8 + 8);
}

#[test]
fn tree2l_four_leaves_report_and_produce_four_entries() {
    // a two-level tree with four byte-string leaves reports and produces
    // exactly four scatter-gather entries, and round-trips
    let p: Vec<Vec<u8>> = vec![
        b"leaf zero".to_vec(),
        b"leaf one".to_vec(),
        b"leaf two".to_vec(),
        b"leaf three".to_vec(),
    ];
    let borrowed: Vec<&[u8]> = p.iter().map(|v| v.as_slice()).collect();
    let msg = get_tree2l_message(&[0, 1, 2, 3], &borrowed);
    assert_eq!(msg.num_scatter_gather_entries(), 4);
    let d = everything_registered();
    let (mut header, mut sga) = alloc_context(&msg);
    serialize_into_sga(&msg, &mut header, &mut sga, &d).unwrap();
    assert_eq!(sga.len(), 1 + 4);
    let wire = sga.contiguous_repr();
    let mut out = Tree2LCF::new();
    deserialize(&mut out, &wire).unwrap();
    assert!(check_tree2l(&[0, 1, 2, 3], &p, &out));
    assert!(out.check_deep_equality(&msg));
}
