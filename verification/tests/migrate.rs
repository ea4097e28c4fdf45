use holt::erase::erase;
use holt::frame::BlobFrame;
use holt::insert::insert;
use holt::layout::{
    decode_child_off, encode_child_off, size_of_node, Leaf, Node, DATA_AREA_START, EMPTY_ROOT_SIZE, PAGE_4K,
};
use holt::migrate::{
    blob_needs_compaction, blob_would_route, compact_blob, pack_subtrees, packed_inner_size, routing_bloom_extent,
    routing_bloom_keys, routing_geometry, BudgetNode,
};

/// `leaf_region_start` must leave room for the fresh frame's init
/// `EmptyRoot` sentinel that precedes the cloned internals - even
/// when `DATA_AREA_START + routing_bytes` lands exactly on a 4 KB
/// boundary. Otherwise the routed clone's `space_used`
/// (= DATA_AREA_START + sentinel + routing_bytes) overruns
/// `leaf_region_start` by the sentinel and trips the overrun guard.
#[test]
fn routing_geometry_reserves_the_init_sentinel_on_a_page_boundary() {
    let sentinel = EMPTY_ROOT_SIZE;
    // DATA_AREA_START is itself a 4 KB multiple, so any routing_bytes
    // that is a page multiple lands the arena start on a boundary.
    for routing_bytes in [PAGE_4K, 2 * PAGE_4K, 3 * PAGE_4K] {
        let lrs = routing_geometry(Some(BudgetNode {
            routing_bytes,
            leaf_bytes: 16 * PAGE_4K,
            leaf_count: 0,
        }))
        .expect("substantial routed blob");
        let space_used_after_clone = DATA_AREA_START + sentinel + routing_bytes;
        assert!(
            space_used_after_clone <= lrs,
            "routing_bytes={routing_bytes}: space_used {space_used_after_clone:#x} \
             overruns leaf_region_start {lrs:#x}",
        );
        assert_eq!(lrs % PAGE_4K, 0, "leaf_region_start must be page-aligned");
    }
}

/// The routing budget is exact only if `packed_inner_size` predicts
/// the SAME byte size `pack_inner_node` actually emits for every
/// surviving-child count. Bind them directly at each tier boundary
/// (including the 1-survivor to `Prefix` inflation, where the emitted
/// node is *larger* than the source). Drift here would make the first pass
/// under-count and trip `compact_blob`'s overrun guard.
#[test]
fn packed_inner_size_matches_pack_inner_node() {
    for &n in &[1usize, 2, 3, 4, 5, 16, 17, 48, 49, 100, 256] {
        let mut frame = BlobFrame::init([0u8; 16]);
        let mut survivors: Vec<(u8, u16)> = Vec::with_capacity(n);
        for i in 0..n {
            let leaf = Leaf { key: Vec::new(), value: Vec::new(), seq: 0, tombstone: false, key_fp: 0 };
            let slot = frame.alloc_node(Node::Leaf(leaf)).unwrap();
            survivors.push((i as u8, slot));
        }
        let slot = pack_subtrees(&mut frame, &survivors).unwrap().expect("non-empty survivors pack to Some");
        let node = frame.node_at(slot).unwrap();
        assert_eq!(Some(size_of_node(node)), packed_inner_size(n), "tier mismatch at n={n}: packed {node:?}");
    }
    assert_eq!(packed_inner_size(0), None);
}

#[test]
fn a_rebuilt_blob_gives_no_reason_to_rebuild_it() {
    let mut frame = BlobFrame::init([7; 16]);
    for i in 0..200u32 {
        let root = frame.header().root_slot;
        insert(&mut frame, root, format!("key/{i:04}\0").as_bytes(), &[i as u8; 100], u64::from(i) + 1).unwrap();
    }
    let root = frame.header().root_slot;
    erase(&mut frame, root, b"key/0007\0").unwrap();
    assert!(blob_would_route(&frame));
    assert!(blob_needs_compaction(&frame));

    compact_blob(&mut frame).unwrap();
    let first = *frame.header();
    assert!(!blob_would_route(&frame));
    assert!(!blob_needs_compaction(&frame));
    assert_eq!(first.compact_times, 1);
    assert_eq!(first.tombstone_leaf_cnt, 0);
    assert_eq!(first.dead_bytes, 0);
    assert_eq!(first.routing_off, DATA_AREA_START);
    assert_eq!(first.leaf_region_start % PAGE_4K, 0);
    assert_eq!(first.space_used, first.leaf_region_start + 199 * size_of_leaf(9, 100));

    // Once more: nothing is left to gain.
    compact_blob(&mut frame).unwrap();
    let second = *frame.header();
    assert_eq!(second.compact_times, 2);
    assert_eq!(second.num_slots, first.num_slots);
    assert_eq!(second.routing_len, first.routing_len);
    assert_eq!(second.space_used, first.space_used);
}

fn size_of_leaf(key: usize, value: usize) -> u32 {
    size_of_node(&Node::Leaf(Leaf { key: vec![0; key], value: vec![0; value], seq: 0, tombstone: false, key_fp: 0 }))
}

#[test]
fn child_fields_name_every_eighth_byte() {
    assert_eq!(decode_child_off(1), DATA_AREA_START);
    assert_eq!(decode_child_off(3), DATA_AREA_START + 16);
    for slot in [1, 2, 3, 500, 50_000] {
        assert_eq!(encode_child_off(decode_child_off(slot)), slot);
    }
}

#[test]
fn a_filter_of_many_leaves_moves_the_leaf_region() {
    let start = |leaf_count| {
        routing_geometry(Some(BudgetNode { routing_bytes: PAGE_4K, leaf_bytes: 64 * PAGE_4K, leaf_count })).expect("routed")
    };
    // Ten bits a leaf: forty thousand bits are five thousand bytes.
    assert!(start(4_000) >= start(0) + PAGE_4K);
    assert_eq!(start(4_000) % PAGE_4K, 0);
}

#[test]
fn a_plain_rebuild_is_as_long_as_its_nodes() {
    let mut frame = BlobFrame::init([7; 16]);
    let root = frame.header().root_slot;
    insert(&mut frame, root, b"solo", b"value", 1).unwrap();
    compact_blob(&mut frame).unwrap();
    assert_eq!(frame.header().space_used, DATA_AREA_START + size_of_leaf(4, 5));

    for (i, key) in [b"solx", b"soly", b"solz"].into_iter().enumerate() {
        let root = frame.header().root_slot;
        insert(&mut frame, root, key, b"value", i as u64 + 2).unwrap();
    }
    let root = frame.header().root_slot;
    erase(&mut frame, root, b"solo").unwrap();
    compact_blob(&mut frame).unwrap();
    assert_eq!(frame.header().routing_len, 0);
    let nodes: u32 = frame.cells.iter().flatten().map(size_of_node).sum();
    assert_eq!(frame.header().space_used, DATA_AREA_START + nodes);
}

#[test]
fn filters_stand_between_the_nodes_and_the_leaves() {
    assert_eq!(routing_bloom_extent(1_000, 4_096, 0), None);
    assert_eq!(routing_bloom_extent(1_000, 4_096, 50), Some((1_000, 63)));
    assert_eq!(routing_bloom_extent(4_033, 4_096, 50), Some((4_033, 63)));
    assert_eq!(routing_bloom_extent(4_034, 4_096, 50), None);
    assert_eq!(routing_bloom_extent(u32::MAX, 4_096, 50), None);
    let mut frame = BlobFrame::init([0x31; 16]);
    for i in 0..50u8 {
        let root = frame.header.root_slot;
        insert(&mut frame, root, &[b'q', i], &[i; 300], u64::from(i) + 1).unwrap();
    }
    assert_eq!((frame.header.bloom_off, frame.header.bloom_len, frame.header.bloom_bits_per_key), (0, 0, 0));
    compact_blob(&mut frame).unwrap();
    let h = frame.header;
    assert!(h.routing_len != 0);
    assert_eq!((h.bloom_off, h.bloom_len, h.bloom_bits_per_key), (h.routing_off + h.routing_len, 63, 10));
    assert!(h.bloom_off + h.bloom_len <= h.leaf_region_start);
}

/// Offsets and sizes of a frame's nodes, in order.
fn extents(frame: &BlobFrame) -> Vec<(u32, u32)> {
    let mut out = Vec::new();
    for (i, cell) in frame.cells.iter().enumerate() {
        if let Some(node) = cell {
            out.push((DATA_AREA_START + (i as u32 - 1) * 8, size_of_node(node)));
        }
    }
    out
}

#[test]
fn nodes_lie_side_by_side_and_a_plain_rebuild_leaves_no_gap() {
    let mut frame = BlobFrame::init([0x32; 16]);
    for i in 0..60u8 {
        let root = frame.header.root_slot;
        insert(&mut frame, root, &[b'a' + i % 5, i, b'!'], &[i; 9], u64::from(i) + 1).unwrap();
    }
    for i in (0..60u8).step_by(3) {
        let root = frame.header.root_slot;
        erase(&mut frame, root, &[b'a' + i % 5, i, b'!']).unwrap();
    }
    let before = extents(&frame);
    assert!(before.windows(2).all(|w| w[0].0 + w[0].1 <= w[1].0));
    assert!(before.iter().all(|e| e.0 + e.1 <= frame.header.space_used));
    assert!(before.len() as u32 <= frame.header.num_slots);
    compact_blob(&mut frame).unwrap();
    assert_eq!(frame.header.routing_len, 0);
    let after = extents(&frame);
    assert_eq!(after[0].0, DATA_AREA_START);
    assert!(after.windows(2).all(|w| w[0].0 + w[0].1 == w[1].0));
    let last = after[after.len() - 1];
    assert_eq!(last.0 + last.1, frame.header.space_used);
    assert_eq!(after.len() as u32, frame.header.num_slots);
}

#[test]
fn the_keys_of_the_filter_are_those_of_the_packed_leaves() {
    let mut frame = BlobFrame::init([0x33; 16]);
    for i in 0..50u8 {
        let root = frame.header.root_slot;
        insert(&mut frame, root, &[b'q', i], &[i; 300], u64::from(i) + 1).unwrap();
    }
    assert!(routing_bloom_keys(&frame).is_empty());
    let root = frame.header.root_slot;
    erase(&mut frame, root, &[b'q', 7]).unwrap();
    compact_blob(&mut frame).unwrap();
    assert!(frame.header.routing_len != 0);
    let expected: Vec<Vec<u8>> = (0..50u8).filter(|i| *i != 7).map(|i| vec![b'q', i]).collect();
    assert_eq!(routing_bloom_keys(&frame), expected);
    assert_eq!(frame.header.bloom_len, (49 * 10 + 7) / 8);
}

#[test]
fn a_routed_rebuild_leaves_no_gap_but_the_one_before_the_leaves() {
    let mut frame = BlobFrame::init([0x34; 16]);
    for i in 0..50u8 {
        let root = frame.header.root_slot;
        insert(&mut frame, root, &[b'q', i % 10, i], &[i; 300], u64::from(i) + 1).unwrap();
    }
    compact_blob(&mut frame).unwrap();
    let h = frame.header;
    assert!(h.routing_len != 0);
    let nodes = extents(&frame);
    assert_eq!(nodes[0], (DATA_AREA_START, EMPTY_ROOT_SIZE));
    let gaps: Vec<(u32, u32)> =
        nodes.windows(2).filter(|w| w[0].0 + w[0].1 != w[1].0).map(|w| (w[0].0 + w[0].1, w[1].0)).collect();
    assert_eq!(gaps, vec![(h.routing_off + h.routing_len, h.leaf_region_start)]);
    let last = nodes[nodes.len() - 1];
    assert_eq!(last.0 + last.1, h.space_used);
}
