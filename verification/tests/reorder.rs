use cornflakes::datapath::LoopbackDatapath;
use cornflakes::sga::{
    reorder_entries_by_max_segs, reorder_entries_by_size_and_registration, OrderedSga, Sge,
};

fn entries_of<'a>(bufs: &[&'a [u8]]) -> (Vec<Sge<'a>>, Vec<usize>) {
    let entries: Vec<Sge> = bufs.iter().map(|b| Sge::new(b)).collect();
    let offsets: Vec<usize> = (0..bufs.len()).map(|i| 16 + 8 * i).collect();
    (entries, offsets)
}

fn lens(entries: &Vec<Sge>) -> Vec<usize> {
    entries.iter().map(|e| e.len()).collect()
}

#[test]
fn partition_moves_zero_copy_entries_to_the_tail() {
    // threshold 4, registration floor 3: an entry is zero-copy when its
    // length is at least 4 (threshold) and at least 3 (registered)
    let d = LoopbackDatapath::new(4, 32, 3);
    let bufs: [&[u8]; 5] = [b"aaaa", b"b", b"cccccc", b"dd", b"eeeee"];
    let (mut entries, mut offsets) = entries_of(&bufs);
    let num_copy = reorder_entries_by_size_and_registration(&d, &mut entries, &mut offsets);
    // copy run: the short entries in original order; zero-copy tail: the
    // long ones in original order
    assert_eq!(num_copy, 2);
    assert_eq!(lens(&entries), vec![1, 2, 4, 6, 5]);
    // offsets moved in lockstep with their entries
    assert_eq!(offsets, vec![16 + 8, 16 + 24, 16, 16 + 16, 16 + 32]);
}

#[test]
fn partition_is_idempotent() {
    let d = LoopbackDatapath::new(4, 32, 0);
    let bufs: [&[u8]; 6] = [b"aaaa", b"b", b"cccccc", b"dd", b"eeeee", b"f"];
    let (mut entries, mut offsets) = entries_of(&bufs);
    reorder_entries_by_size_and_registration(&d, &mut entries, &mut offsets);
    let first_lens = lens(&entries);
    let first_offsets = offsets.clone();
    reorder_entries_by_size_and_registration(&d, &mut entries, &mut offsets);
    assert_eq!(lens(&entries), first_lens);
    assert_eq!(offsets, first_offsets);
}

#[test]
fn unregistered_entries_are_copied() {
    // registration floor 5: only length >= 5 counts as registered memory
    let d = LoopbackDatapath::new(2, 32, 5);
    let bufs: [&[u8]; 3] = [b"aaa", b"bbbbbb", b"cc"];
    let (mut entries, mut offsets) = entries_of(&bufs);
    let num_copy = reorder_entries_by_size_and_registration(&d, &mut entries, &mut offsets);
    assert_eq!(num_copy, 2);
    assert_eq!(lens(&entries), vec![3, 2, 6]);
    let _ = offsets;
}

#[test]
fn demotion_takes_smallest_entries_first_until_exact_fit() {
    // all five entries are zero-copy, but only two segments may go
    // zero-copy: the three smallest are demoted, the two largest stay,
    // both runs in original relative order
    let d = LoopbackDatapath::new(0, 2, 0);
    let bufs: [&[u8]; 5] = [b"aaaa", b"b", b"cccccc", b"dd", b"eeeee"];
    let (mut entries, mut offsets) = entries_of(&bufs);
    let num_copy = reorder_entries_by_size_and_registration(&d, &mut entries, &mut offsets);
    assert_eq!(num_copy, 0);
    let num_copy = reorder_entries_by_max_segs(&d, &mut entries, &mut offsets, num_copy);
    assert_eq!(num_copy, 3);
    // the three smallest by (length, position) are demoted, kept in their
    // original relative order; the two largest stay, also in order
    assert_eq!(lens(&entries), vec![4, 1, 2, 6, 5]);
    assert_eq!(offsets, vec![16, 16 + 8, 16 + 24, 16 + 16, 16 + 32]);
}

#[test]
fn demotion_breaks_length_ties_by_position() {
    let d = LoopbackDatapath::new(0, 1, 0);
    let bufs: [&[u8]; 3] = [b"xx", b"yy", b"zz"];
    let (mut entries, mut offsets) = entries_of(&bufs);
    let nc = reorder_entries_by_size_and_registration(&d, &mut entries, &mut offsets);
    let nc = reorder_entries_by_max_segs(&d, &mut entries, &mut offsets, nc);
    assert_eq!(nc, 2);
    // the two earliest equal-length entries are demoted, in order
    assert_eq!(offsets, vec![16, 16 + 8, 16 + 16]);
    let _ = entries;
}

#[test]
fn demotion_is_a_no_op_within_the_limit() {
    let d = LoopbackDatapath::new(0, 8, 0);
    let bufs: [&[u8]; 3] = [b"aaa", b"bb", b"c"];
    let (mut entries, mut offsets) = entries_of(&bufs);
    let nc = reorder_entries_by_size_and_registration(&d, &mut entries, &mut offsets);
    let before = (lens(&entries), offsets.clone());
    let nc2 = reorder_entries_by_max_segs(&d, &mut entries, &mut offsets, nc);
    assert_eq!(nc2, nc);
    assert_eq!((lens(&entries), offsets.clone()), before);
}

#[test]
fn ordered_sga_tracks_the_copy_boundary() {
    let d = LoopbackDatapath::new(4, 1, 0);
    let header = b"completed header";
    let bufs: [&[u8]; 4] = [b"aaaa", b"b", b"cccccc", b"dd"];
    let mut entries = vec![Sge::new(header)];
    entries.extend(bufs.iter().map(|b| Sge::new(b)));
    let mut sga = OrderedSga { entries, num_copy_entries: 1 };
    let mut offsets: Vec<usize> = (0..4).map(|i| 16 + 8 * i).collect();
    sga.reorder_by_size_and_registration(&d, &mut offsets);
    // the head slot plus the two short payload entries are copied
    assert_eq!(sga.num_copy_entries(), 3);
    assert_eq!(sga.num_zero_copy_entries(), 2);
    assert_eq!(sga.entries[0].addr(), header);
    sga.reorder_by_max_segs(&d, &mut offsets);
    assert_eq!(sga.num_copy_entries(), 4);
    assert_eq!(sga.num_zero_copy_entries(), 1);
    // the head slot stays first; the one surviving zero-copy entry is
    // the largest payload
    assert_eq!(sga.entries[0].addr(), header);
    assert_eq!(sga.entries[4].len(), 6);
}

#[test]
fn allocate_reserves_empty_entries() {
    let sga = OrderedSga::allocate(3);
    assert_eq!(sga.len(), 3);
    assert_eq!(sga.num_copy_entries(), 0);
    assert!(sga.entries.iter().all(|e| e.len() == 0));
}

#[test]
fn contiguous_repr_concatenates_all_entries() {
    // the head slot's header bytes come first, then the payloads
    let mut sga = OrderedSga { entries: Vec::new(), num_copy_entries: 1 };
    sga.entries.push(Sge::new(&[9u8, 8, 7]));
    sga.entries.push(Sge::new(b"abc"));
    sga.entries.push(Sge::new(b"de"));
    assert_eq!(sga.contiguous_repr(), vec![9, 8, 7, b'a', b'b', b'c', b'd', b'e']);
}
