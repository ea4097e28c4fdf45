use holt::frame::BlobFrame;
use holt::insert::insert;
use holt::spillover::{
    candidate_is_better, fresh_blob_guid, pick_victim_subtree, spillover_min_child_bytes, spillover_target_child_bytes, BoundaryQuality,
    SubtreeFootprint, Victim, VictimCandidate, VictimEdgeKind,
};

fn candidate(bytes: u32, nodes: u32) -> VictimCandidate {
    candidate_with_boundary(bytes, nodes, BoundaryQuality::Arbitrary, 16)
}

fn path_candidate(bytes: u32, nodes: u32) -> VictimCandidate {
    candidate_with_boundary(bytes, nodes, BoundaryQuality::PathComponent, 16)
}

fn candidate_with_boundary(
    bytes: u32,
    nodes: u32,
    boundary: BoundaryQuality,
    boundary_depth: usize,
) -> VictimCandidate {
    VictimCandidate {
        victim: Victim {
            parent_slot: 0,
            kind: VictimEdgeKind::Prefix,
            byte: 0,
            victim_slot: 0,
        },
        footprint: SubtreeFootprint { nodes, bytes },
        boundary,
        boundary_depth,
    }
}

#[test]
fn spillover_scoring_prefers_target_band_over_largest() {
    let target = spillover_target_child_bytes();
    assert!(candidate_is_better(
        candidate(target - 1024, 10),
        candidate(target + 80_000, 100),
    ));
    assert!(!candidate_is_better(
        candidate(target + 80_000, 100),
        candidate(target - 1024, 10),
    ));
}

#[test]
fn spillover_scoring_avoids_tiny_and_overfull_children() {
    let min = spillover_min_child_bytes();
    let target = spillover_target_child_bytes();

    assert!(candidate_is_better(
        candidate(min - 1024, 20),
        candidate(min / 2, 100),
    ));
    assert!(candidate_is_better(
        candidate(target + 1024, 20),
        candidate(target + 90_000, 100),
    ));
}

#[test]
fn spillover_scoring_uses_node_count_only_as_tie_breaker() {
    let target = spillover_target_child_bytes();
    assert!(candidate_is_better(
        candidate(target - 4096, 20),
        candidate(target - 4096, 10),
    ));
}

#[test]
fn spillover_scoring_prefers_path_boundary_within_target_band() {
    let target = spillover_target_child_bytes();
    assert!(candidate_is_better(
        path_candidate(target - 32_000, 10),
        candidate(target - 1024, 100),
    ));
}

#[test]
fn spillover_scoring_keeps_fill_band_before_path_boundary() {
    let min = spillover_min_child_bytes();
    let target = spillover_target_child_bytes();
    assert!(candidate_is_better(
        candidate(target - 1024, 10),
        path_candidate(min - 1024, 100),
    ));
}

fn put(frame: &mut BlobFrame, key: &[u8], value: &[u8], seq: u64) {
    let root = frame.header.root_slot;
    insert(frame, root, key, value, seq).unwrap();
}

#[test]
fn victim_search_descends_into_overfull_path_branch() {
    let mut frame = BlobFrame::init([0x31; 16]);
    let value = vec![0x5A; 1024];

    let mut seq = 1u64;
    for i in 0..240u32 {
        let key = format!("a/x/file-{i:06}").into_bytes();
        put(&mut frame, &key, &value, seq);
        seq += 1;
    }
    for i in 0..120u32 {
        let key = format!("a/y/file-{i:06}").into_bytes();
        put(&mut frame, &key, &value, seq);
        seq += 1;
    }
    put(&mut frame, b"b/tiny", b"v", seq);

    let picked = pick_victim_subtree(&frame).unwrap();
    let victim = picked.victim;
    let footprint = picked.footprint;

    assert!(
        footprint.bytes >= spillover_min_child_bytes(),
        "victim too small: {footprint:?}",
    );
    assert!(
        footprint.bytes <= spillover_target_child_bytes(),
        "victim should be a nested in-band branch, not the overfull direct branch: {footprint:?}",
    );
    assert_eq!(victim.byte, b'x');
}

#[test]
fn fresh_names_differ_by_counter_and_by_time() {
    let a = fresh_blob_guid(1_000, 1, Some([1, 2, 3]));
    let b = fresh_blob_guid(1_000, 2, Some([1, 2, 3]));
    let c = fresh_blob_guid(1_001, 1, Some([1, 2, 3]));
    assert_ne!(a, b);
    assert_ne!(a, c);
    assert_ne!(b, c);
}

#[test]
fn of_equally_good_subtrees_the_first_in_key_order_is_taken() {
    let mut frame = BlobFrame::init([0x32; 16]);
    let mut seq = 1u64;
    for branch in [b'm', b'c', b'x', b'g'] {
        for i in 0..3u8 {
            put(&mut frame, &[branch, b'0' + i, b'.'], &[i; 40], seq);
            seq += 1;
        }
    }
    let picked = pick_victim_subtree(&frame).unwrap();
    assert_eq!(picked.victim.byte, b'c');
    assert_eq!(picked.boundary, BoundaryQuality::Arbitrary);
}
