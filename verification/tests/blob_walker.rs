use std::collections::BTreeMap;

use holt::erase::erase;
use holt::errors::Error;
use holt::frame::BlobFrame;
use holt::insert::insert;
use holt::key::SearchKey;
use holt::layout::{decode_child_off, page_align_up, BlobGuid, BlobNode, Node, NodeType, Prefix, DATA_AREA_START};
use holt::lookup::{lookup, lookup_at};
use holt::migrate::{blob_needs_compaction, compact_blob, make_blob_from_node};
use holt::types::LookupResult;

fn root_off(frame: &BlobFrame) -> u16 {
    frame.header.root_slot
}

fn fresh_blob() -> BlobFrame {
    BlobFrame::init([0x11; 16])
}

fn put(frame: &mut BlobFrame, k: &[u8], v: &[u8], seq: u64) {
    let root = frame.header.root_slot;
    insert(frame, root, k, v, seq).unwrap();
}

fn get(frame: &BlobFrame, k: &[u8]) -> Option<Vec<u8>> {
    match lookup(frame, frame.header.root_slot, k).unwrap() {
        LookupResult::Found(hit) => Some(hit.value.to_vec()),
        LookupResult::NotFound => None,
        LookupResult::Crossing(_) => panic!("no blob nodes here"),
    }
}

fn ntype_at(frame: &BlobFrame, slot: u16) -> NodeType {
    frame.ntype_of(slot).unwrap()
}

fn read_prefix(frame: &BlobFrame, slot: u16) -> Option<&Prefix> {
    match frame.node_at(slot) {
        Some(Node::Prefix(p)) => Some(p),
        _ => None,
    }
}

/// The first node below the root that is not a prefix.
fn inner_node_off(frame: &BlobFrame) -> u16 {
    let mut slot = root_off(frame);
    while let Some(p) = read_prefix(frame, slot) {
        slot = p.child;
    }
    slot
}

fn install_blob_node(frame: &mut BlobFrame, prefix: &[u8], child_blob_guid: BlobGuid) -> u16 {
    frame.alloc_node(Node::Blob(BlobNode { bytes: prefix.to_vec(), child_blob_guid })).unwrap()
}

/// The slots that a node refers to.
fn children(frame: &BlobFrame, slot: u16) -> Vec<u16> {
    match frame.node_at(slot).unwrap() {
        Node::Prefix(p) => vec![p.child],
        Node::Node4(n) => n.children[..n.count as usize].to_vec(),
        Node::Node16(n) => n.children[..n.count as usize].to_vec(),
        Node::Node48(n) => n.index.iter().filter(|i| **i != 0).map(|i| n.children[*i as usize - 1]).collect(),
        Node::Node256(n) => n.children.iter().copied().filter(|c| *c != 0).collect(),
        _ => Vec::new(),
    }
}

/// In the routed layout, leaves and only leaves lie behind the start of the
/// leaf region.
fn assert_routing_layout(frame: &BlobFrame) {
    let h = frame.header();
    if h.routing_len == 0 {
        return;
    }
    assert_eq!(h.routing_off, DATA_AREA_START);
    assert!(h.routing_off + h.routing_len <= h.leaf_region_start);
    assert_eq!(page_align_up(h.leaf_region_start), h.leaf_region_start);
    let mut stack = vec![root_off(frame)];
    while let Some(slot) = stack.pop() {
        let internal = !matches!(ntype_at(frame, slot), NodeType::Leaf);
        assert_eq!(decode_child_off(slot) < h.leaf_region_start, internal, "slot {slot}");
        stack.extend(children(frame, slot));
    }
}

#[test]
fn tests_single_insert_then_lookup() {
    let mut frame = fresh_blob();
    put(&mut frame, b"hello", b"world", 1);
    assert_eq!(get(&frame, b"hello").as_deref(), Some(&b"world"[..]));
    assert_eq!(get(&frame, b"hellx"), None);
}

#[test]
fn update_same_key_replaces_value() {
    let mut frame = fresh_blob();
    put(&mut frame, b"k", b"v1", 1);
    let root = frame.header().root_slot;
    insert(&mut frame, root, b"k", b"v2", 2).unwrap();
    assert_eq!(get(&frame, b"k").as_deref(), Some(&b"v2"[..]));
}

#[test]
fn small_and_medium_records_round_trip_through_one_leaf() {
    let mut frame = fresh_blob();

    // A leaf is now a SINGLE variable-size, self-describing node
    // (`[16B header][key][value]`) regardless of size: the root points
    // straight at the leaf, so the root slot itself is a `Leaf`.
    put(&mut frame, b"abc", b"value", 1);
    assert_eq!(ntype_at(&frame, root_off(&frame)), NodeType::Leaf);
    assert_eq!(get(&frame, b"abc").as_deref(), Some(&b"value"[..]));

    // Same-key smalltosmall update rewrites the body in place when the
    // new total fits the leaf's current allocation: node stays a
    // `Leaf` and no new slot is consumed.
    let slots_before = frame.header().num_slots;
    let root = frame.header().root_slot;
    insert(&mut frame, root, b"abc", b"v2", 2).unwrap();
    assert_eq!(ntype_at(&frame, root_off(&frame)), NodeType::Leaf);
    assert_eq!(frame.header().num_slots, slots_before, "in-place update");
    assert_eq!(get(&frame, b"abc").as_deref(), Some(&b"v2"[..]));

    // A medium record (> the old 44-byte inline cap) takes exactly the
    // same single-leaf path and round-trips.
    let med_key = vec![b'm'; 40];
    let med_val = vec![0x7u8; 80];
    put(&mut frame, &med_key, &med_val, 3);
    assert_eq!(get(&frame, &med_key).as_deref(), Some(med_val.as_slice()));
    // Both records are still readable side by side.
    assert_eq!(get(&frame, b"abc").as_deref(), Some(&b"v2"[..]));
}

#[test]
fn leaf_value_grows_then_shrinks_in_place() {
    let mut frame = fresh_blob();
    put(&mut frame, b"abc", b"tiny", 1);
    assert_eq!(ntype_at(&frame, root_off(&frame)), NodeType::Leaf);

    // Growing the value past the leaf's current allocation reallocs a
    // fresh, larger leaf (slot may change); value round-trips.
    let big = vec![0xAB; 200];
    let root = frame.header().root_slot;
    insert(&mut frame, root, b"abc", &big, 2).unwrap();
    assert_eq!(ntype_at(&frame, root_off(&frame)), NodeType::Leaf);
    assert_eq!(get(&frame, b"abc").as_deref(), Some(big.as_slice()));

    // Shrinking back keeps the existing (larger) allocation and
    // overwrites in place - cheaper than reallocating a smaller leaf.
    let slots_before = frame.header().num_slots;
    let root = frame.header().root_slot;
    insert(&mut frame, root, b"abc", b"sm", 3).unwrap();
    assert_eq!(ntype_at(&frame, root_off(&frame)), NodeType::Leaf);
    assert_eq!(frame.header().num_slots, slots_before, "shrink in place");
    assert_eq!(get(&frame, b"abc").as_deref(), Some(&b"sm"[..]));
}

#[test]
fn leaf_split_erase_and_compaction() {
    let mut buf = fresh_blob();
    {
        let mut frame = &mut buf;
        // Two keys sharing a prefix split the original leaf into an
        // inner node with two leaf children.
        put(&mut frame, b"abc/01", b"x", 1);
        put(&mut frame, b"abc/02", b"y", 2);
        assert_eq!(get(&frame, b"abc/01").as_deref(), Some(&b"x"[..]));
        assert_eq!(get(&frame, b"abc/02").as_deref(), Some(&b"y"[..]));

        // Tombstone one; the survivor stays readable.
        let root = frame.header().root_slot;
        erase(&mut frame, root, b"abc/01").unwrap();
        assert_eq!(get(&frame, b"abc/01"), None);
        assert_eq!(get(&frame, b"abc/02").as_deref(), Some(&b"y"[..]));
    }
    // Compaction rebuilds the live tree via clone_leaf (verbatim body
    // copy), dropping the tombstoned leaf.
    compact_blob(&mut buf).unwrap();
    let frame = &mut buf;
    assert_eq!(get(&frame, b"abc/02").as_deref(), Some(&b"y"[..]));
    assert_eq!(get(&frame, b"abc/01"), None);
}

#[test]
fn tests_two_keys_with_shared_prefix_creates_prefix_plus_node4() {
    let mut frame = fresh_blob();
    put(&mut frame, b"abc/01", b"v1", 1);
    put(&mut frame, b"abc/02", b"v2", 2);
    assert_eq!(get(&frame, b"abc/01").as_deref(), Some(&b"v1"[..]));
    assert_eq!(get(&frame, b"abc/02").as_deref(), Some(&b"v2"[..]));
    assert_eq!(get(&frame, b"abc/03"), None);
    assert_eq!(ntype_at(&frame, root_off(&frame)), NodeType::Prefix);
}

#[test]
fn tests_two_keys_no_shared_prefix_creates_naked_node4() {
    let mut frame = fresh_blob();
    put(&mut frame, b"a", b"va", 1);
    put(&mut frame, b"b", b"vb", 2);
    assert_eq!(get(&frame, b"a").as_deref(), Some(&b"va"[..]));
    assert_eq!(get(&frame, b"b").as_deref(), Some(&b"vb"[..]));
    assert_eq!(ntype_at(&frame, root_off(&frame)), NodeType::Node4);
}

#[test]
fn tests_grow_node4_to_node16() {
    let mut frame = fresh_blob();
    for i in 0..5u8 {
        let k = [b'k', b'0' + i];
        put(&mut frame, &k, &[b'v', b'0' + i], i as u64 + 1);
    }
    for i in 0..5u8 {
        let k = [b'k', b'0' + i];
        let v = [b'v', b'0' + i];
        assert_eq!(get(&frame, &k).as_deref(), Some(&v[..]));
    }
    let r = root_off(&frame);
    assert_eq!(ntype_at(&frame, r), NodeType::Prefix);
    let p = read_prefix(&frame, r).unwrap();
    let inner_off = p.child;
    assert_eq!(ntype_at(&frame, inner_off), NodeType::Node16);
}

#[test]
fn tests_grow_chain_node4_to_node16_to_node48() {
    let mut frame = fresh_blob();
    for i in 0..20u8 {
        let k = [b'p', i];
        put(&mut frame, &k, &[i], i as u64 + 1);
    }
    for i in 0..20u8 {
        let k = [b'p', i];
        assert_eq!(get(&frame, &k).as_deref(), Some(&[i][..]));
    }
    let p = read_prefix(&frame, root_off(&frame)).unwrap();
    let inner_off = p.child;
    assert_eq!(ntype_at(&frame, inner_off), NodeType::Node48);
}

#[test]
fn tests_grow_chain_through_node256() {
    let mut frame = fresh_blob();
    for i in 0..60u8 {
        let k = [b'q', i];
        put(&mut frame, &k, &[i, i ^ 0xFF], i as u64 + 1);
    }
    for i in 0..60u8 {
        let k = [b'q', i];
        let v = [i, i ^ 0xFF];
        assert_eq!(get(&frame, &k).as_deref(), Some(&v[..]));
    }
    let p = read_prefix(&frame, root_off(&frame)).unwrap();
    let inner_off = p.child;
    assert_eq!(ntype_at(&frame, inner_off), NodeType::Node256);
}

#[test]
fn tests_prefix_split_at_divergence() {
    let mut frame = fresh_blob();
    put(&mut frame, b"abcdef", b"v1", 1);
    put(&mut frame, b"abcXYZ", b"v2", 2);
    assert_eq!(get(&frame, b"abcdef").as_deref(), Some(&b"v1"[..]));
    assert_eq!(get(&frame, b"abcXYZ").as_deref(), Some(&b"v2"[..]));
    assert_eq!(get(&frame, b"abcdeg"), None);
}

#[test]
fn tests_deep_prefix_chain_long_keys() {
    let mut frame = fresh_blob();
    let mut k1 = vec![b'x'; 250];
    let mut k2 = k1.clone();
    k1.push(b'1');
    k2.push(b'2');
    put(&mut frame, &k1, b"v1", 1);
    put(&mut frame, &k2, b"v2", 2);
    assert_eq!(get(&frame, &k1).as_deref(), Some(&b"v1"[..]));
    assert_eq!(get(&frame, &k2).as_deref(), Some(&b"v2"[..]));
}

#[test]
fn tests_strict_prefix_returns_not_yet_implemented() {
    let mut frame = fresh_blob();
    put(&mut frame, b"abc", b"v1", 1);
    let root = frame.header().root_slot;
    let r = insert(&mut frame, root, b"abcdef", b"v2", 2);
    assert!(matches!(r, Err(Error::NotYetImplemented(_))));
}

#[test]
fn tests_many_inserts_all_readable() {
    let mut frame = fresh_blob();
    let mut pairs: Vec<(Vec<u8>, Vec<u8>)> = Vec::new();
    for i in 0..200u32 {
        let k = format!("key/{i:04}/end").into_bytes();
        let v = format!("val#{i}").into_bytes();
        pairs.push((k, v));
    }
    for (i, (k, v)) in pairs.iter().enumerate() {
        put(&mut frame, k, v, i as u64 + 1);
    }
    for (k, v) in &pairs {
        assert_eq!(get(&frame, k).as_deref(), Some(&v[..]));
    }
}

// -------- erase --------

fn del(frame: &mut BlobFrame, k: &[u8]) -> bool {
    let root = frame.header().root_slot;
    let r = erase(frame, root, k).unwrap();
    r.mutated
}

#[test]
fn erase_only_leaf_marks_tombstone_and_compacts_empty() {
    let mut buf = fresh_blob();
    {
        let mut frame = &mut buf;
        put(&mut frame, b"k", b"v", 1);
        assert!(del(&mut frame, b"k"));
        assert_eq!(get(&frame, b"k"), None);
        // Erase tombstones; the root is still a (tombstoned) leaf
        // until compact rebuilds.
        assert_eq!(frame.header().tombstone_leaf_cnt, 1);
    }
    compact_blob(&mut buf).unwrap();
    let frame = &mut buf;
    assert_eq!(ntype_at(&frame, root_off(&frame)), NodeType::EmptyRoot);
    assert_eq!(frame.header().tombstone_leaf_cnt, 0);
    assert_eq!(frame.header().compact_times, 1);
}

#[test]
fn erase_missing_key_is_noop() {
    let mut frame = fresh_blob();
    put(&mut frame, b"a", b"1", 1);
    assert!(!del(&mut frame, b"b"));
    assert_eq!(get(&frame, b"a").as_deref(), Some(&b"1"[..]));
}

#[test]
fn tests_erase_one_of_two_node4_collapses_to_prefix_over_lone_leaf() {
    let mut buf = fresh_blob();
    {
        let mut frame = &mut buf;
        put(&mut frame, b"a", b"1", 1);
        put(&mut frame, b"b", b"2", 2);
        del(&mut frame, b"a");
    }
    compact_blob(&mut buf).unwrap();
    let frame = &mut buf;
    assert_eq!(ntype_at(&frame, root_off(&frame)), NodeType::Prefix);
    assert_eq!(get(&frame, b"b").as_deref(), Some(&b"2"[..]));
    assert_eq!(get(&frame, b"a"), None);
}

#[test]
fn tests_erase_collapses_node16_lone_child() {
    let mut frame = fresh_blob();
    for i in 0..5u8 {
        let k = [b'k', b'0' + i];
        put(&mut frame, &k, &[i], i as u64 + 1);
    }
    for i in 0..4u8 {
        let k = [b'k', b'0' + i];
        del(&mut frame, &k);
    }
    let k_last = [b'k', b'0' + 4];
    assert_eq!(get(&frame, &k_last).as_deref(), Some(&[4][..]));
    for i in 0..4u8 {
        let k = [b'k', b'0' + i];
        assert_eq!(get(&frame, &k), None);
    }
}

#[test]
fn tests_erase_collapses_node48_lone_child() {
    let mut frame = fresh_blob();
    for i in 0..17u8 {
        let k = [b'p', i];
        put(&mut frame, &k, &[i], i as u64 + 1);
    }
    for i in 0..16u8 {
        let k = [b'p', i];
        del(&mut frame, &k);
    }
    let k_last = [b'p', 16];
    assert_eq!(get(&frame, &k_last).as_deref(), Some(&[16][..]));
}

#[test]
fn tests_erase_collapses_node256_lone_child() {
    let mut frame = fresh_blob();
    for i in 0..60u8 {
        let k = [b'q', i];
        put(&mut frame, &k, &[i, i ^ 0xFF], i as u64 + 1);
    }
    for i in 0..59u8 {
        let k = [b'q', i];
        del(&mut frame, &k);
    }
    let k_last = [b'q', 59];
    let v_last = [59u8, 0x3B ^ 0xFFu8];
    assert_eq!(get(&frame, &k_last).as_deref(), Some(&v_last[..]));
}

#[test]
fn shrink_node16_to_node4_at_three_remaining() {
    // 5 children to grows to Node16. Erase down to 3 live children
    // + compact to shrinks to Node4. (The `pack_inner_node` arm
    // picks Node4 for survivor counts in `2..=4`.)
    let mut buf = fresh_blob();
    {
        let mut frame = &mut buf;
        for i in 0..5u8 {
            let k = [b'k', b'0' + i];
            put(&mut frame, &k, &[i], i as u64 + 1);
        }
        assert_eq!(ntype_at(&frame, inner_node_off(&frame)), NodeType::Node16,);
        // Erase two so 3 children remain live.
        del(&mut frame, b"k0");
        del(&mut frame, &[b'k', b'0' + 1]);
        // Inner node is still Node16 until compaction filters the
        // tombstones and rebuilds.
        assert_eq!(ntype_at(&frame, inner_node_off(&frame)), NodeType::Node16,);
    }
    compact_blob(&mut buf).unwrap();
    let frame = &mut buf;
    assert_eq!(
        ntype_at(&frame, inner_node_off(&frame)),
        NodeType::Node4,
        "Node16 with 3 live children should compact to Node4",
    );
    for i in 2..5u8 {
        let k = [b'k', b'0' + i];
        assert_eq!(get(&frame, &k).as_deref(), Some(&[i][..]));
    }
}

#[test]
fn shrink_node48_to_node16_at_twelve_remaining() {
    // 20 children to grows through Node16 to Node48. Erase down to
    // 12 live children + compact to shrinks to Node16. The
    // `pack_inner_node` arm picks Node16 for survivor counts in
    // `5..=16`.
    let mut buf = fresh_blob();
    {
        let mut frame = &mut buf;
        for i in 0..20u8 {
            let k = [b'p', i];
            put(&mut frame, &k, &[i], i as u64 + 1);
        }
        assert_eq!(ntype_at(&frame, inner_node_off(&frame)), NodeType::Node48,);
        // Erase 8 so 12 live children remain.
        for i in 0..8u8 {
            let k = [b'p', i];
            del(&mut frame, &k);
        }
    }
    compact_blob(&mut buf).unwrap();
    let frame = &mut buf;
    assert_eq!(
        ntype_at(&frame, inner_node_off(&frame)),
        NodeType::Node16,
        "Node48 with 12 live children should compact to Node16",
    );
    for i in 8..20u8 {
        let k = [b'p', i];
        assert_eq!(get(&frame, &k).as_deref(), Some(&[i][..]));
    }
}

#[test]
fn shrink_node256_to_node48_at_thirty_seven_remaining() {
    // 60 children to grows through Node48 to Node256. Erase down to
    // 37 live children + compact to shrinks to Node48. The
    // `pack_inner_node` arm picks Node48 for survivor counts in
    // `17..=48`.
    let mut buf = fresh_blob();
    {
        let mut frame = &mut buf;
        for i in 0..60u8 {
            let k = [b'q', i];
            put(&mut frame, &k, &[i, i ^ 0xFF], i as u64 + 1);
        }
        assert_eq!(ntype_at(&frame, inner_node_off(&frame)), NodeType::Node256,);
        // Erase 23 so 37 live children remain.
        for i in 0..23u8 {
            let k = [b'q', i];
            del(&mut frame, &k);
        }
    }
    compact_blob(&mut buf).unwrap();
    let frame = &mut buf;
    assert_eq!(
        ntype_at(&frame, inner_node_off(&frame)),
        NodeType::Node48,
        "Node256 with 37 live children should compact to Node48",
    );
    for i in 23..60u8 {
        let k = [b'q', i];
        let v = [i, i ^ 0xFF];
        assert_eq!(get(&frame, &k).as_deref(), Some(&v[..]));
    }
}

#[test]
fn shrink_chain_node256_node48_node16_node4() {
    // One sustained churn: grow up through Node256, then erase +
    // compact past every `pack_inner_node` boundary in order.
    // Confirms the survivor-driven downshift composes end-to-end:
    // 60 to 37 to 12 to 3 live children pulls the inner node through
    // Node256 to Node48 to Node16 to Node4.
    let mut buf = fresh_blob();
    {
        let mut frame = &mut buf;
        for i in 0..60u8 {
            let k = [b'q', i];
            put(&mut frame, &k, &[i], i as u64 + 1);
        }
        assert_eq!(ntype_at(&frame, inner_node_off(&frame)), NodeType::Node256,);

        // Erase 23 so 37 live children remain.
        for i in 0..23u8 {
            del(&mut frame, &[b'q', i]);
        }
    }
    compact_blob(&mut buf).unwrap();
    {
        let frame = &mut buf;
        assert_eq!(ntype_at(&frame, inner_node_off(&frame)), NodeType::Node48,);
    }

    {
        let mut frame = &mut buf;
        // Erase another 25 (total 48 erased) so 12 live remain.
        for i in 23..48u8 {
            del(&mut frame, &[b'q', i]);
        }
    }
    compact_blob(&mut buf).unwrap();
    {
        let frame = &mut buf;
        assert_eq!(ntype_at(&frame, inner_node_off(&frame)), NodeType::Node16,);
    }

    {
        let mut frame = &mut buf;
        // Erase another 9 (total 57 erased) so 3 live remain.
        for i in 48..57u8 {
            del(&mut frame, &[b'q', i]);
        }
    }
    compact_blob(&mut buf).unwrap();
    let frame = &mut buf;
    assert_eq!(ntype_at(&frame, inner_node_off(&frame)), NodeType::Node4,);

    // The last three keys (57, 58, 59) still readable.
    for i in 57..60u8 {
        let k = [b'q', i];
        assert_eq!(get(&frame, &k).as_deref(), Some(&[i][..]));
    }
    // Three compactions ran; nothing tombstoned in the survivor.
    assert_eq!(frame.header().compact_times, 3);
    assert_eq!(frame.header().tombstone_leaf_cnt, 0);
}

#[test]
fn tests_erase_all_returns_to_empty_root() {
    let mut buf = fresh_blob();
    let pairs = [
        (&b"alpha"[..], &b"A"[..]),
        (&b"beta"[..], &b"B"[..]),
        (&b"gamma"[..], &b"G"[..]),
    ];
    {
        let mut frame = &mut buf;
        for (i, (k, v)) in pairs.iter().enumerate() {
            put(&mut frame, k, v, i as u64 + 1);
        }
        for (k, _) in &pairs {
            assert!(del(&mut frame, k));
        }
        assert_eq!(frame.header().tombstone_leaf_cnt as usize, pairs.len());
    }
    compact_blob(&mut buf).unwrap();
    let frame = &mut buf;
    assert_eq!(ntype_at(&frame, root_off(&frame)), NodeType::EmptyRoot);
    assert_eq!(frame.header().tombstone_leaf_cnt, 0);
}

#[test]
fn tests_erase_through_prefix_keeps_other_branches() {
    let mut frame = fresh_blob();
    put(&mut frame, b"img/01.jpg", b"a", 1);
    put(&mut frame, b"img/02.jpg", b"b", 2);
    put(&mut frame, b"img/03.jpg", b"c", 3);
    assert!(del(&mut frame, b"img/02.jpg"));
    assert_eq!(get(&frame, b"img/01.jpg").as_deref(), Some(&b"a"[..]));
    assert_eq!(get(&frame, b"img/02.jpg"), None);
    assert_eq!(get(&frame, b"img/03.jpg").as_deref(), Some(&b"c"[..]));
}

#[test]
fn tests_insert_after_erase_reinstates_key() {
    let mut frame = fresh_blob();
    put(&mut frame, b"k", b"v1", 1);
    del(&mut frame, b"k");
    put(&mut frame, b"k", b"v2", 2);
    assert_eq!(get(&frame, b"k").as_deref(), Some(&b"v2"[..]));
}

#[test]
fn tests_churn_100_keys_inserted_then_all_erased() {
    let mut buf = fresh_blob();
    let pairs: Vec<(Vec<u8>, Vec<u8>)> = (0..100u32)
        .map(|i| {
            (
                format!("k{i:04}").into_bytes(),
                format!("v{i}").into_bytes(),
            )
        })
        .collect();
    {
        let mut frame = &mut buf;
        for (i, (k, v)) in pairs.iter().enumerate() {
            put(&mut frame, k, v, i as u64 + 1);
        }
        for (k, _) in &pairs {
            assert!(del(&mut frame, k));
        }
        for (k, _) in &pairs {
            assert_eq!(get(&frame, k), None);
        }
    }
    compact_blob(&mut buf).unwrap();
    let frame = &mut buf;
    assert_eq!(ntype_at(&frame, root_off(&frame)), NodeType::EmptyRoot);
}

#[test]
fn lookup_blob_node_emits_crossing_on_match() {
    let mut frame = fresh_blob();
    let child_guid: BlobGuid = [0xAA; 16];
    let off = install_blob_node(&mut frame, b"img/", child_guid);
    frame.header.root_slot = off;

    let r = lookup(&frame, frame.header().root_slot, b"img/01.jpg").unwrap();
    match r {
        LookupResult::Crossing(c) => {
            assert_eq!(c.child_guid, child_guid);
            assert_eq!(c.child_depth, 4);
        }
        other => panic!("expected Crossing, got {other:?}"),
    }
}

#[test]
fn lookup_blob_node_returns_not_found_when_prefix_diverges() {
    let mut frame = fresh_blob();
    let off = install_blob_node(&mut frame, b"img/", [0xAA; 16]);
    frame.header.root_slot = off;

    let r = lookup(&frame, frame.header().root_slot, b"doc/page1.txt").unwrap();
    assert!(matches!(r, LookupResult::NotFound));
}

#[test]
fn lookup_at_continues_descent_from_supplied_depth() {
    let mut frame = fresh_blob();
    put(&mut frame, b"img/01.jpg", b"v1", 1);
    let root = frame.header().root_slot;

    let r0 = lookup(&frame, root, b"img/01.jpg").unwrap();
    assert!(matches!(r0, LookupResult::Found(hit) if hit.value == b"v1"));

    let r1 = lookup_at(&frame, SearchKey::exact(b"img/01.jpg"), 0).unwrap();
    assert!(matches!(r1, LookupResult::Found(hit) if hit.value == b"v1"));
}

#[test]
fn insert_splits_blob_node_inline_prefix_on_first_byte_divergence() {
    let mut frame = fresh_blob();
    let child_guid: BlobGuid = [0xAA; 16];
    let off = install_blob_node(&mut frame, b"img/", child_guid);
    frame.header.root_slot = off;

    let root = frame.header().root_slot;
    insert(&mut frame, root, b"doc/page1.txt", b"meta", 7).unwrap();
    assert_eq!(get(&frame, b"doc/page1.txt").as_deref(), Some(&b"meta"[..]));

    let root = frame.header().root_slot;
    assert_eq!(ntype_at(&frame, root_off(&frame)), NodeType::Node4);
    let r = lookup(&frame, root, b"img/01.jpg").unwrap();
    match r {
        LookupResult::Crossing(c) => {
            assert_eq!(c.child_guid, child_guid);
            assert_eq!(c.child_depth, 4);
        }
        other => panic!("expected Crossing, got {other:?}"),
    }
}

#[test]
fn insert_splits_blob_node_inline_prefix_after_shared_prefix() {
    let mut frame = fresh_blob();
    let child_guid: BlobGuid = [0xBB; 16];
    let off = install_blob_node(&mut frame, b"bucket-a/", child_guid);
    frame.header.root_slot = off;

    let root = frame.header().root_slot;
    insert(&mut frame, root, b"bucket-b/file", b"meta", 8).unwrap();
    assert_eq!(get(&frame, b"bucket-b/file").as_deref(), Some(&b"meta"[..]));

    let root = frame.header().root_slot;
    assert_eq!(ntype_at(&frame, root_off(&frame)), NodeType::Prefix);
    let p = read_prefix(&frame, root_off(&frame)).unwrap();
    assert_eq!(&p.bytes[..], b"bucket-");

    let r = lookup(&frame, root, b"bucket-a/file").unwrap();
    match r {
        LookupResult::Crossing(c) => {
            assert_eq!(c.child_guid, child_guid);
            assert_eq!(c.child_depth, b"bucket-a/".len());
        }
        other => panic!("expected Crossing, got {other:?}"),
    }
}

// ---- make_blob_from_node ----

fn read_value_from_new_blob(buf: &mut BlobFrame, key: &[u8]) -> Option<Vec<u8>> {
    let frame = buf;
    let root = frame.header().root_slot;
    match lookup(&frame, root, key).unwrap() {
        LookupResult::Found(hit) => Some(hit.value.to_vec()),
        _ => None,
    }
}

#[test]
fn make_blob_from_node_round_trips_single_leaf() {
    let mut src_frame = fresh_blob();
    put(&mut src_frame, b"k", b"v", 1);
    let src_root = decode_child_off(root_off(&src_frame));

    let new_guid: BlobGuid = [0xAA; 16];
    let mut outcome = make_blob_from_node(&src_frame, src_root, new_guid).unwrap();

    assert_eq!(
        read_value_from_new_blob(&mut outcome.buf, b"k").as_deref(),
        Some(&b"v"[..]),
    );

    let new_frame = &mut outcome.buf;
    assert_ne!(new_frame.header().root_slot, 0);
    assert_eq!(new_frame.header().blob_guid, new_guid);
}

#[test]
fn make_blob_from_node_round_trips_prefix_node4_two_leaves() {
    let mut src_frame = fresh_blob();
    put(&mut src_frame, b"img/01.jpg", b"a", 1);
    put(&mut src_frame, b"img/02.jpg", b"b", 2);
    let src_root = decode_child_off(root_off(&src_frame));

    let new_guid: BlobGuid = [0xCC; 16];
    let mut outcome = make_blob_from_node(&src_frame, src_root, new_guid).unwrap();
    assert_eq!(
        read_value_from_new_blob(&mut outcome.buf, b"img/01.jpg").as_deref(),
        Some(&b"a"[..]),
    );
    assert_eq!(
        read_value_from_new_blob(&mut outcome.buf, b"img/02.jpg").as_deref(),
        Some(&b"b"[..]),
    );
    assert_eq!(get(&src_frame, b"img/01.jpg").as_deref(), Some(&b"a"[..]));
    assert_eq!(get(&src_frame, b"img/02.jpg").as_deref(), Some(&b"b"[..]));
}

#[test]
fn make_blob_from_node_round_trips_after_node_growth_chain() {
    let mut src_frame = fresh_blob();
    for i in 0..60u8 {
        put(&mut src_frame, &[b'q', i], &[i, i ^ 0xFF], i as u64 + 1);
    }
    let src_root = decode_child_off(root_off(&src_frame));

    let mut outcome = make_blob_from_node(&src_frame, src_root, [0xEE; 16]).unwrap();
    for i in 0..60u8 {
        let key = [b'q', i];
        let expected = [i, i ^ 0xFF];
        assert_eq!(
            read_value_from_new_blob(&mut outcome.buf, &key).as_deref(),
            Some(&expected[..]),
        );
    }
}

#[test]
fn make_blob_from_node_preserves_existing_blob_node_crossings() {
    let mut src_buf = fresh_blob();
    let original_child_guid: BlobGuid = [0x77; 16];

    let bn_off = {
        let src_frame = &mut src_buf;
        let off = install_blob_node(src_frame, b"data/", original_child_guid);
        src_frame.header.root_slot = off;
        decode_child_off(off)
    };

    let src_frame = &mut src_buf;
    assert_eq!(src_frame.header().num_ext_blobs, 1);
    let outcome = make_blob_from_node(&src_frame, bn_off, [0x33; 16]).unwrap();

    let mut new_buf = outcome.buf;
    let new_frame = &mut new_buf;
    assert_eq!(new_frame.header().num_ext_blobs, 1);
    let new_root_off = root_off(&new_frame);
    assert_eq!(ntype_at(&new_frame, new_root_off), NodeType::Blob);

    match new_frame.node_at(new_root_off) {
        Some(Node::Blob(bn)) => {
            assert_eq!(bn.child_blob_guid, original_child_guid);
            assert_eq!(bn.bytes.len(), 5);
            assert_eq!(&bn.bytes[..5], b"data/");
        }
        other => panic!("expected a blob node, got {other:?}"),
    }
}

#[test]
fn make_blob_from_node_then_lookup_yields_crossing_when_root_is_blob_node() {
    let mut src_buf = fresh_blob();
    let bn_off = {
        let src_frame = &mut src_buf;
        let off = install_blob_node(src_frame, b"", [0x99; 16]);
        src_frame.header.root_slot = off;
        decode_child_off(off)
    };
    let src_frame = &mut src_buf;
    let mut outcome = make_blob_from_node(&src_frame, bn_off, [0x44; 16]).unwrap();
    let new_frame = &mut outcome.buf;
    let r = lookup(
        &new_frame,
        new_frame.header().root_slot,
        b"whatever",
    )
    .unwrap();
    match r {
        LookupResult::Crossing(c) => {
            assert_eq!(c.child_guid, [0x99; 16]);
        }
        other => panic!("expected Crossing, got {other:?}"),
    }
}

// ============================================================
// `compact_blob` - in-place blob reclaim
// ============================================================

#[test]
fn compact_blob_is_noop_on_empty_tree() {
    let mut buf = fresh_blob();
    let guid = [0x11; 16];
    let before = buf.header().space_used;
    compact_blob(&mut buf).unwrap();
    let frame = &mut buf;
    let after = frame.header().space_used;
    assert!(
        after <= before + 32,
        "empty-tree compact grew unexpectedly: {before} -> {after}",
    );
    assert_eq!(frame.header().blob_guid, guid);
}

#[test]
fn blob_needs_compaction_tracks_tombstones() {
    let mut buf = fresh_blob();

    {
        let mut frame = &mut buf;
        assert!(!blob_needs_compaction(&frame));
        let root = frame.header().root_slot;
        insert(&mut frame, root, b"k", b"v", 1).unwrap();
        assert!(!blob_needs_compaction(&frame));
        let root = frame.header().root_slot;
        erase(&mut frame, root, b"k").unwrap();
        assert!(blob_needs_compaction(&frame));
    }

    compact_blob(&mut buf).unwrap();
    let frame = &mut buf;
    assert!(!blob_needs_compaction(&frame));
}

#[test]
fn blob_needs_compaction_tracks_abandoned_node_bytes() {
    // A same-key value-grow update allocates a
    // fresh, larger leaf and abandons the old one, bumping
    // `header.dead_bytes`. A single small update is below the
    // dead-bytes compaction threshold, but enough value-grow churn
    // accumulates past it and trips `blob_needs_compaction` even with
    // zero tombstones.
    let mut buf = fresh_blob();
    let mut frame = &mut buf;

    let root = frame.header().root_slot;
    insert(&mut frame, root, b"k", b"v", 1).unwrap();
    assert!(!blob_needs_compaction(&frame));
    // The first insert abandons the 8-byte EmptyRoot sentinel.
    let dead_after_seed = frame.header().dead_bytes;

    // One value-grow update abandons the old (small) leaf body too.
    let root = frame.header().root_slot;
    insert(&mut frame, root, b"k", &[0xAB; 128], 2).unwrap();
    assert_eq!(frame.header().tombstone_leaf_cnt, 0);
    assert!(
        frame.header().dead_bytes > dead_after_seed,
        "abandon-on-free must bump dead_bytes for the old leaf",
    );

    // Churn distinct large-value keys with repeated growth so the
    // accumulated dead weight crosses the threshold.
    let mut seq = 3u64;
    let mut vlen = 64usize;
    while !blob_needs_compaction(&frame) && seq < 20_000 {
        let key = format!("grow{:05}", seq % 64).into_bytes();
        vlen = (vlen + 32).min(60_000);
        let root = frame.header().root_slot;
        insert(&mut frame, root, &key, &vec![0xCD; vlen], seq).unwrap();
        seq += 1;
    }
    assert_eq!(frame.header().tombstone_leaf_cnt, 0);
    assert!(
        blob_needs_compaction(&frame),
        "accumulated abandoned bytes must eventually trigger compaction",
    );
}

#[test]
fn compact_blob_reclaims_extents_after_churn() {
    let mut buf = fresh_blob();

    {
        let mut frame = &mut buf;
        for i in 0..200u32 {
            let k = format!("k{i:04}").into_bytes();
            let v = vec![0xAB; 120];
            let root = frame.header().root_slot;
            insert(&mut frame, root, &k, &v, i as u64 + 1).unwrap();
        }
        for i in 0..200u32 {
            if i % 2 == 0 {
                let k = format!("k{i:04}").into_bytes();
                let root = frame.header().root_slot;
                erase(&mut frame, root, &k).unwrap();
            }
        }
    }

    let bytes_before = buf.header().space_used;
    compact_blob(&mut buf).unwrap();
    let bytes_after = buf.header().space_used;
    assert!(
        bytes_before > bytes_after,
        "compact should reclaim something after 100 deletes: {bytes_before} -> {bytes_after}",
    );

    let frame = &mut buf;
    for i in 0..200u32 {
        let k = format!("k{i:04}").into_bytes();
        let v = vec![0xAB; 120];
        let root = frame.header().root_slot;
        let r = lookup(&frame, root, &k).unwrap();
        if i % 2 == 0 {
            assert!(matches!(r, LookupResult::NotFound));
        } else {
            match r {
                LookupResult::Found(got) => assert_eq!(got.value, v.as_slice()),
                _ => panic!("survivor {k:?} missing after compact"),
            }
        }
    }
}

#[test]
fn compact_blob_preserves_guid_and_lets_inserts_continue() {
    let mut buf = fresh_blob();
    let guid = [0x11; 16];
    {
        let mut frame = &mut buf;
        for i in 0..100u32 {
            let k = format!("img/{i:04}.jpg").into_bytes();
            let v = vec![0xFE; 64];
            let root = frame.header().root_slot;
            insert(&mut frame, root, &k, &v, i as u64 + 1).unwrap();
        }
        for i in 0..50u32 {
            let k = format!("img/{i:04}.jpg").into_bytes();
            let root = frame.header().root_slot;
            erase(&mut frame, root, &k).unwrap();
        }
    }
    compact_blob(&mut buf).unwrap();

    let mut frame = &mut buf;
    assert_eq!(frame.header().blob_guid, guid);
    for i in 200..250u32 {
        let k = format!("img/{i:04}.jpg").into_bytes();
        let v = vec![0xFD; 64];
        let root = frame.header().root_slot;
        insert(&mut frame, root, &k, &v, i as u64 + 1).unwrap();
    }
    for i in 200..250u32 {
        let k = format!("img/{i:04}.jpg").into_bytes();
        let v = vec![0xFD; 64];
        let root = frame.header().root_slot;
        match lookup(&frame, root, &k).unwrap() {
            LookupResult::Found(got) => assert_eq!(got.value, v.as_slice()),
            _ => panic!("post-compact insert {k:?} unreadable"),
        }
    }
}

#[test]
fn routing_equals_full_descend_and_oracle() {
    let mut buf_vec = fresh_blob();
    let mut oracle: BTreeMap<Vec<u8>, Vec<u8>> = BTreeMap::new();
    {
        let mut frame = &mut buf_vec;
        let mut seq = 1u64;
        // Group 'q': 60 keys to a Prefix over a Node256; every 7th value
        // is > 4 KB so some leaves straddle pages.
        for i in 0..60u8 {
            let k = vec![b'q', i];
            let v = if i % 7 == 0 {
                vec![i; 5000]
            } else {
                vec![i, i ^ 0xFF]
            };
            put(&mut frame, &k, &v, seq);
            seq += 1;
            oracle.insert(k, v);
        }
        // Group 'p': 20 keys to a second prefixed inner subtree, so the
        // root routes two children (forcing more than one internal tier).
        for i in 0..20u8 {
            let k = vec![b'p', i];
            let v = vec![i, 0xAB, i];
            put(&mut frame, &k, &v, seq);
            seq += 1;
            oracle.insert(k, v);
        }
        // Tombstone every other 'q' key for the compactor to drop.
        let root = frame.header().root_slot;
        for i in (0..60u8).step_by(2) {
            let k = vec![b'q', i];
            erase(&mut frame, root, &k).unwrap();
            oracle.remove(&k);
        }
    }

    let mut buf = buf_vec;
    compact_blob(&mut buf).unwrap();
    let frame = &mut buf;

    // This tree is multi-tier and far under capacity, so the compactor
    // produces a routed layout.
    assert!(
        frame.header().routing_len != 0,
        "expected a routed layout for a multi-tier, well-under-capacity tree",
    );
    assert_routing_layout(&frame);

    let root = frame.header().root_slot;
    let check = |k: &[u8]| match lookup(&frame, root, k).unwrap() {
        LookupResult::Found(hit) => Some(hit.value.to_vec()),
        LookupResult::NotFound => None,
        LookupResult::Crossing(_) => panic!("unexpected crossing for {k:?}"),
    };
    for i in 0..60u8 {
        let k = vec![b'q', i];
        assert_eq!(check(&k), oracle.get(&k).cloned(), "q[{i}]");
    }
    for i in 0..20u8 {
        let k = vec![b'p', i];
        assert_eq!(check(&k), oracle.get(&k).cloned(), "p[{i}]");
    }
    // Absent keys, including prefix-colliding-but-divergent ones.
    for k in [&b"q"[..], &b"qq"[..], &b"p"[..], &b"zzz"[..]] {
        assert_eq!(check(k), None, "absent {k:?}");
    }
}

#[test]
fn compact_all_tombstoned_stays_legacy() {
    let mut buf_vec = fresh_blob();
    {
        let mut frame = &mut buf_vec;
        for i in 0..20u8 {
            put(&mut frame, &[b'k', i], &[i], i as u64 + 1);
        }
        let root = frame.header().root_slot;
        for i in 0..20u8 {
            erase(&mut frame, root, &[b'k', i]).unwrap();
        }
    }
    let mut buf = buf_vec;
    compact_blob(&mut buf).unwrap();
    let frame = &mut buf;
    // Empty after compaction to EmptyRoot, no internal nodes, so no routing block.
    assert!(frame.header().routing_len == 0);
    let root = frame.header().root_slot;
    for i in 0..20u8 {
        assert!(matches!(
            lookup(&frame, root, &[b'k', i]).unwrap(),
            LookupResult::NotFound
        ));
    }
}

#[test]
fn compact_single_leaf_stays_legacy() {
    let mut buf_vec = fresh_blob();
    {
        let mut frame = &mut buf_vec;
        put(&mut frame, b"solo", b"value", 1);
    }
    let mut buf = buf_vec;
    compact_blob(&mut buf).unwrap();
    let frame = &mut buf;
    // A bare-leaf root has no internal nodes (routing_len 0).
    assert!(frame.header().routing_len == 0);
    assert_eq!(get(&frame, b"solo").as_deref(), Some(&b"value"[..]));
}

#[test]
fn compact_near_full_stays_correct() {
    // Load the data area heavily; whether the compactor routes or falls
    // back to the plain layout (the at most 4 KB page-align gap may not fit), data
    // integrity - and the invariant when routed - must hold.
    let mut buf_vec = fresh_blob();
    let mut oracle: BTreeMap<Vec<u8>, Vec<u8>> = BTreeMap::new();
    {
        let mut frame = &mut buf_vec;
        let mut seq = 1u64;
        for i in 0..4000u32 {
            let k = format!("k{i:05}").into_bytes();
            let v = vec![(i & 0xFF) as u8; 200];
            let root = frame.header().root_slot;
            match insert(&mut frame, root, &k, &v, seq) {
                Ok(_) => {
                    oracle.insert(k, v);
                }
                Err(_) => break, // data area full - stop loading
            }
            seq += 1;
        }
    }
    let mut buf = buf_vec;
    compact_blob(&mut buf).unwrap();
    let frame = &mut buf;
    assert_routing_layout(&frame); // nothing to look at in the plain layout
    let root = frame.header().root_slot;
    for (k, v) in &oracle {
        match lookup(&frame, root, k).unwrap() {
            LookupResult::Found(hit) => assert_eq!(hit.value, v.as_slice()),
            other => panic!("{k:?} -> {other:?}"),
        }
    }
}

#[test]
fn leaf_fingerprint_rejects_wrong_key_keeps_present_key() {
    let mut frame = fresh_blob();
    let big = vec![0xCD; 100];
    put(&mut frame, b"hello", &big, 1);

    // Looking up a different key leads to the one leaf, which rejects it.
    assert_eq!(get(&frame, b"hello").as_deref(), Some(big.as_slice()));
    assert_eq!(get(&frame, b"hellx"), None);
    assert_eq!(get(&frame, b"help"), None);

    let root = frame.header().root_slot;
    assert_eq!(frame.ntype_of(root), Some(NodeType::Leaf));
    match frame.node_at(root) {
        Some(Node::Leaf(leaf)) => assert_ne!(leaf.key_fp, 0, "written leaf must carry a fingerprint"),
        other => panic!("{other:?}"),
    }

    // Keys sharing a long prefix: a missing sibling is not found, and both
    // present keys are.
    put(&mut frame, b"shared/prefix/aaaa", &big, 2);
    put(&mut frame, b"shared/prefix/bbbb", &big, 3);
    assert_eq!(get(&frame, b"shared/prefix/aaaa").as_deref(), Some(big.as_slice()));
    assert_eq!(get(&frame, b"shared/prefix/bbbb").as_deref(), Some(big.as_slice()));
    assert_eq!(get(&frame, b"shared/prefix/cccc"), None);
}

#[test]
fn rebuilding_after_the_only_record_went_leaves_an_empty_root() {
    let mut frame = fresh_blob();
    put(&mut frame, b"k", b"v", 1);
    let root = frame.header.root_slot;
    erase(&mut frame, root, b"k").unwrap();
    assert_eq!((frame.header.tombstone_leaf_cnt, frame.header.compact_times), (1, 0));
    compact_blob(&mut frame).unwrap();
    assert_eq!(ntype_at(&frame, root_off(&frame)), NodeType::EmptyRoot);
    let h = frame.header;
    assert_eq!((h.tombstone_leaf_cnt, h.dead_bytes, h.compact_times, h.routing_len), (0, 0, 1, 0));
    assert_eq!(h.blob_guid, [0x11; 16]);
}

#[test]
fn abandoned_nodes_are_counted_by_their_size() {
    let mut frame = fresh_blob();
    put(&mut frame, b"k", b"v", 1);
    assert_eq!(frame.header.dead_bytes, 8, "the empty root");
    put(&mut frame, b"k", b"w", 2);
    assert_eq!(frame.header.dead_bytes, 8, "a record of the same size is written in place");
    put(&mut frame, b"k", &[7; 100], 3);
    assert_eq!(frame.header.dead_bytes, 8 + 24, "the leaf that was too small");
}
