use holt::errors::{AllocError, Error};
use holt::frame::BlobFrame;
use holt::layout::{size_of_node, Node, NodeType};
use holt::slot_walker::{erase, insert, lookup, LookupResult};

fn fresh_blob() -> BlobFrame {
    BlobFrame::init([0x11; 16])
}

fn put(frame: &mut BlobFrame, k: &[u8], v: &[u8], seq: u64) {
    let root = frame.header.root_slot;
    let r = insert(frame, root, k, v, seq).unwrap();
    frame.header.root_slot = r.new_root_slot;
}

fn get(frame: &BlobFrame, k: &[u8]) -> Option<Vec<u8>> {
    let root = frame.header.root_slot;
    match lookup(frame, root, k).unwrap() {
        LookupResult::Found(v) => Some(v.to_vec()),
        LookupResult::NotFound => None,
    }
}

fn prefix_child(frame: &BlobFrame, slot: u16) -> u16 {
    match frame.node_at(slot) {
        Some(Node::Prefix(p)) => p.child,
        other => panic!("not a prefix: {other:?}"),
    }
}

#[test]
fn walker_single_insert_then_lookup() {
    let mut frame = fresh_blob();
    put(&mut frame, b"hello", b"world", 1);
    assert_eq!(get(&frame, b"hello").as_deref(), Some(&b"world"[..]));
    assert_eq!(get(&frame, b"hellx"), None);
}

#[test]
fn update_same_key_returns_previous() {
    let mut frame = fresh_blob();
    put(&mut frame, b"k", b"v1", 1);
    let root = frame.header.root_slot;
    let r = insert(&mut frame, root, b"k", b"v2", 2).unwrap();
    frame.header.root_slot = r.new_root_slot;
    assert_eq!(r.previous.as_deref(), Some(&b"v1"[..]));
    assert_eq!(get(&frame, b"k").as_deref(), Some(&b"v2"[..]));
}

#[test]
fn walker_two_keys_with_shared_prefix_creates_prefix_plus_node4() {
    let mut frame = fresh_blob();
    put(&mut frame, b"abc/01", b"v1", 1);
    put(&mut frame, b"abc/02", b"v2", 2);
    assert_eq!(get(&frame, b"abc/01").as_deref(), Some(&b"v1"[..]));
    assert_eq!(get(&frame, b"abc/02").as_deref(), Some(&b"v2"[..]));
    assert_eq!(get(&frame, b"abc/03"), None);
    // The root should now be a Prefix node.
    let root_slot = frame.header.root_slot;
    let entry = frame.ntype_of(root_slot);
    assert_eq!(entry, Some(NodeType::Prefix));
}

#[test]
fn walker_two_keys_no_shared_prefix_creates_naked_node4() {
    let mut frame = fresh_blob();
    put(&mut frame, b"a", b"va", 1);
    put(&mut frame, b"b", b"vb", 2);
    assert_eq!(get(&frame, b"a").as_deref(), Some(&b"va"[..]));
    assert_eq!(get(&frame, b"b").as_deref(), Some(&b"vb"[..]));
    let root_slot = frame.header.root_slot;
    let entry = frame.ntype_of(root_slot);
    assert_eq!(entry, Some(NodeType::Node4));
}

#[test]
fn walker_grow_node4_to_node16() {
    let mut frame = fresh_blob();
    // 5 keys differing in the second byte after a common 'k' prefix.
    for i in 0..5u8 {
        let k = [b'k', b'0' + i];
        put(&mut frame, &k, &[b'v', b'0' + i], i as u64 + 1);
    }
    // All 5 readable.
    for i in 0..5u8 {
        let k = [b'k', b'0' + i];
        let v = [b'v', b'0' + i];
        assert_eq!(get(&frame, &k).as_deref(), Some(&v[..]));
    }
    // The inner node should have grown to Node16. Walk through
    // the root's prefix to find it.
    let root_slot = frame.header.root_slot;
    let entry = frame.ntype_of(root_slot);
    // Root is Prefix (single byte 'k').
    assert_eq!(entry, Some(NodeType::Prefix));
    let inner_slot = prefix_child(&frame, root_slot);
    let ie = frame.ntype_of(inner_slot);
    assert_eq!(ie, Some(NodeType::Node16));
}

#[test]
fn walker_grow_chain_node4_to_node16_to_node48() {
    let mut frame = fresh_blob();
    // 20 distinct second-bytes (> 16 to force the Node16toNode48 step).
    for i in 0..20u8 {
        let k = [b'p', i];
        put(&mut frame, &k, &[i], i as u64 + 1);
    }
    for i in 0..20u8 {
        let k = [b'p', i];
        assert_eq!(get(&frame, &k).as_deref(), Some(&[i][..]));
    }
    let root_slot = frame.header.root_slot;
    let inner_slot = prefix_child(&frame, root_slot);
    assert_eq!(
        frame.ntype_of(inner_slot),
        Some(NodeType::Node48)
    );
}

#[test]
fn walker_grow_chain_through_node256() {
    let mut frame = fresh_blob();
    // 60 distinct second-bytes (> 48 to force Node48toNode256).
    for i in 0..60u8 {
        let k = [b'q', i];
        put(&mut frame, &k, &[i, i ^ 0xFF], i as u64 + 1);
    }
    for i in 0..60u8 {
        let k = [b'q', i];
        let v = [i, i ^ 0xFF];
        assert_eq!(get(&frame, &k).as_deref(), Some(&v[..]));
    }
    let root_slot = frame.header.root_slot;
    let inner_slot = prefix_child(&frame, root_slot);
    assert_eq!(
        frame.ntype_of(inner_slot),
        Some(NodeType::Node256)
    );
}

#[test]
fn walker_prefix_split_at_divergence() {
    // The first key is a plain leaf, the second one splits it: a prefix
    // "abc" over a Node4 with two leaves.
    let mut frame = fresh_blob();
    put(&mut frame, b"abcdef", b"v1", 1);
    put(&mut frame, b"abcXYZ", b"v2", 2);
    assert_eq!(get(&frame, b"abcdef").as_deref(), Some(&b"v1"[..]));
    assert_eq!(get(&frame, b"abcXYZ").as_deref(), Some(&b"v2"[..]));
    assert_eq!(get(&frame, b"abcdeg"), None);
}

#[test]
fn walker_deep_prefix_chain_long_keys() {
    // A 250-byte common prefix forces a Prefix-chain (2 Prefix
    // nodes since PREFIX_MAX_INLINE = 112).
    let mut frame = fresh_blob();
    let mut k1 = vec![b'x'; 250];
    let mut k2 = k1.clone();
    k1.push(b'1');
    k2.push(b'2');
    put(&mut frame, &k1, b"v1", 1);
    put(&mut frame, &k2, b"v2", 2);
    assert_eq!(get(&frame, &k1).as_deref(), Some(&b"v1"[..]));
    assert_eq!(get(&frame, &k2).as_deref(), Some(&b"v2"[..]));
}

#[test]
fn walker_strict_prefix_returns_not_yet_implemented() {
    let mut frame = fresh_blob();
    put(&mut frame, b"abc", b"v1", 1);
    let root = frame.header.root_slot;
    let r = insert(&mut frame, root, b"abcdef", b"v2", 2);
    assert!(matches!(r, Err(Error::NotYetImplemented(_))));
}

#[test]
fn walker_many_inserts_all_readable() {
    // Light stress test: 200 keys with varied prefixes/lengths.
    let mut frame = fresh_blob();
    let mut pairs: Vec<(Vec<u8>, Vec<u8>)> = Vec::new();
    for i in 0..200u32 {
        let k = format!("key/{i:04}/end").into_bytes();
        let v = format!("val#{i}").into_bytes();
        pairs.push((k, v));
    }
    for (i, (k, v)) in pairs.iter().enumerate() {
        put(&mut frame, k, v, i as u64 + 1);
    }
    for (k, v) in &pairs {
        assert_eq!(get(&frame, k).as_deref(), Some(&v[..]));
    }
}

// -------- erase --------

fn del(frame: &mut BlobFrame, k: &[u8]) -> Option<Vec<u8>> {
    let root = frame.header.root_slot;
    let r = erase(frame, root, k).unwrap();
    frame.header.root_slot = r.new_root_slot;
    r.previous
}

#[test]
fn erase_only_leaf_returns_value_and_empties_tree() {
    let mut frame = fresh_blob();
    put(&mut frame, b"k", b"v", 1);
    assert_eq!(del(&mut frame, b"k").as_deref(), Some(&b"v"[..]));
    assert_eq!(get(&frame, b"k"), None);
    // Root is back to an EmptyRoot sentinel.
    let root_slot = frame.header.root_slot;
    let e = frame.ntype_of(root_slot);
    assert_eq!(e, Some(NodeType::EmptyRoot));
}

#[test]
fn erase_missing_key_is_noop_returns_none() {
    let mut frame = fresh_blob();
    put(&mut frame, b"a", b"1", 1);
    assert_eq!(del(&mut frame, b"b"), None);
    // "a" still present, root still a Leaf.
    assert_eq!(get(&frame, b"a").as_deref(), Some(&b"1"[..]));
}

#[test]
fn walker_erase_one_of_two_node4_collapses_to_prefix_over_lone_leaf() {
    let mut frame = fresh_blob();
    put(&mut frame, b"a", b"1", 1);
    put(&mut frame, b"b", b"2", 2);
    // Root is Node4 with 2 children.
    del(&mut frame, b"a");
    // Lone-child collapse wraps the surviving leaf in a Prefix
    // node holding the byte that pointed at it - preserves
    // depth invariants for descendants.
    let root_slot = frame.header.root_slot;
    let e = frame.ntype_of(root_slot);
    assert_eq!(e, Some(NodeType::Prefix));
    assert_eq!(get(&frame, b"b").as_deref(), Some(&b"2"[..]));
    assert_eq!(get(&frame, b"a"), None);
}

#[test]
fn walker_erase_collapses_node16_lone_child() {
    let mut frame = fresh_blob();
    for i in 0..5u8 {
        let k = [b'k', b'0' + i];
        put(&mut frame, &k, &[i], i as u64 + 1);
    }
    // Root: Prefix("k") to Node16
    for i in 0..4u8 {
        let k = [b'k', b'0' + i];
        del(&mut frame, &k);
    }
    // Last surviving key still readable.
    let k_last = [b'k', b'0' + 4];
    assert_eq!(get(&frame, &k_last).as_deref(), Some(&[4][..]));
    // The other 4 are gone.
    for i in 0..4u8 {
        let k = [b'k', b'0' + i];
        assert_eq!(get(&frame, &k), None);
    }
}

#[test]
fn walker_erase_collapses_node48_lone_child() {
    let mut frame = fresh_blob();
    for i in 0..17u8 {
        let k = [b'p', i];
        put(&mut frame, &k, &[i], i as u64 + 1);
    }
    // Inner node is now Node48.
    for i in 0..16u8 {
        let k = [b'p', i];
        del(&mut frame, &k);
    }
    let k_last = [b'p', 16];
    assert_eq!(get(&frame, &k_last).as_deref(), Some(&[16][..]));
}

#[test]
fn walker_erase_collapses_node256_lone_child() {
    let mut frame = fresh_blob();
    // More than 48 second bytes.
    for i in 0..60u8 {
        let k = [b'q', i];
        put(&mut frame, &k, &[i, i ^ 0xFF], i as u64 + 1);
    }
    // Inner node is now Node256.
    for i in 0..59u8 {
        let k = [b'q', i];
        del(&mut frame, &k);
    }
    let k_last = [b'q', 59];
    let v_last = [59u8, 59u8 ^ 0xFF];
    assert_eq!(get(&frame, &k_last).as_deref(), Some(&v_last[..]));
}

#[test]
fn walker_erase_all_returns_to_empty_root() {
    let mut frame = fresh_blob();
    let pairs = [
        (&b"alpha"[..], &b"A"[..]),
        (&b"beta"[..],  &b"B"[..]),
        (&b"gamma"[..], &b"G"[..]),
    ];
    for (i, (k, v)) in pairs.iter().enumerate() {
        put(&mut frame, k, v, i as u64 + 1);
    }
    for (k, v) in pairs.iter() {
        assert_eq!(del(&mut frame, k).as_deref(), Some(*v));
    }
    // Tree is now empty.
    let root_slot = frame.header.root_slot;
    assert_eq!(
        frame.ntype_of(root_slot),
        Some(NodeType::EmptyRoot)
    );
}

#[test]
fn walker_erase_through_prefix_keeps_other_branches() {
    let mut frame = fresh_blob();
    put(&mut frame, b"img/01.jpg", b"a", 1);
    put(&mut frame, b"img/02.jpg", b"b", 2);
    put(&mut frame, b"img/03.jpg", b"c", 3);
    assert_eq!(del(&mut frame, b"img/02.jpg").as_deref(), Some(&b"b"[..]));
    assert_eq!(get(&frame, b"img/01.jpg").as_deref(), Some(&b"a"[..]));
    assert_eq!(get(&frame, b"img/02.jpg"), None);
    assert_eq!(get(&frame, b"img/03.jpg").as_deref(), Some(&b"c"[..]));
}

#[test]
fn walker_insert_after_erase_reinstates_key() {
    let mut frame = fresh_blob();
    put(&mut frame, b"k", b"v1", 1);
    del(&mut frame, b"k");
    put(&mut frame, b"k", b"v2", 2);
    assert_eq!(get(&frame, b"k").as_deref(), Some(&b"v2"[..]));
}

#[test]
fn walker_churn_100_keys_inserted_then_all_erased() {
    let mut frame = fresh_blob();
    let pairs: Vec<(Vec<u8>, Vec<u8>)> = (0..100u32)
        .map(|i| (format!("k{i:04}").into_bytes(), format!("v{i}").into_bytes()))
        .collect();
    for (i, (k, v)) in pairs.iter().enumerate() {
        put(&mut frame, k, v, i as u64 + 1);
    }
    for (k, v) in &pairs {
        assert_eq!(del(&mut frame, k).as_deref(), Some(&v[..]));
    }
    // Every key gone.
    for (k, _) in &pairs {
        assert_eq!(get(&frame, k), None);
    }
    // Tree is empty.
    let root_slot = frame.header.root_slot;
    assert_eq!(
        frame.ntype_of(root_slot),
        Some(NodeType::EmptyRoot)
    );
}

#[test]
fn a_full_blob_refuses_and_keeps_its_records() {
    let mut frame = fresh_blob();
    let value = vec![7u8; 60_000];
    for i in 0..7u8 {
        put(&mut frame, &[b'k', i], &value, u64::from(i) + 1);
    }
    let root = frame.header.root_slot;
    let r = insert(&mut frame, root, b"one more", &value, 9);
    assert!(matches!(r, Err(Error::Alloc(AllocError::OutOfSpace { .. }))));
    for i in 0..7u8 {
        assert_eq!(get(&frame, &[b'k', i]).as_deref(), Some(&value[..]));
    }
    assert_eq!(get(&frame, b"one more"), None);
    assert_eq!(del(&mut frame, &[b'k', 3]).as_deref(), Some(&value[..]));
    assert_eq!(get(&frame, &[b'k', 3]), None);
}

#[test]
fn records_that_are_too_long_are_refused() {
    let mut frame = fresh_blob();
    let long = vec![7u8; 65_536];
    let root = frame.header.root_slot;
    assert!(matches!(insert(&mut frame, root, &long, b"v", 1), Err(Error::KeyTooLong { len: 65_536 })));
    assert!(matches!(insert(&mut frame, root, b"k", &long, 1), Err(Error::ValueTooLong { len: 65_536 })));
}

#[test]
fn an_overwrite_takes_a_fresh_leaf() {
    let mut frame = fresh_blob();
    put(&mut frame, b"key", b"value", 1);
    let (used, slots) = (frame.header.space_used, frame.header.num_slots);
    put(&mut frame, b"key", b"VALUE", 2);
    let leaf = frame.node_at(frame.header.root_slot).unwrap();
    assert!(matches!(leaf, Node::Leaf(l) if l.value == b"VALUE" && l.seq == 2));
    assert_eq!(frame.header.space_used, used + size_of_node(leaf));
    assert_eq!(frame.header.num_slots, slots + 1);
}

#[test]
fn a_delete_does_not_shrink_the_node_that_it_leaves() {
    let mut frame = fresh_blob();
    for i in 0..5u8 {
        put(&mut frame, &[b'k', b'0' + i], &[i], u64::from(i) + 1);
    }
    for i in 0..3u8 {
        del(&mut frame, &[b'k', b'0' + i]);
        let inner = prefix_child(&frame, frame.header.root_slot);
        assert_eq!(frame.ntype_of(inner), Some(NodeType::Node16));
    }
}

#[test]
fn refused_records_leave_the_blob_as_it_was() {
    let mut frame = fresh_blob();
    put(&mut frame, b"key", b"value", 1);
    let (used, root) = (frame.header.space_used, frame.header.root_slot);
    assert!(insert(&mut frame, root, &vec![7u8; 70_000], b"v", 2).is_err());
    assert_eq!((frame.header.space_used, frame.header.root_slot), (used, root));
    assert_eq!(get(&frame, b"key").as_deref(), Some(&b"value"[..]));
}
