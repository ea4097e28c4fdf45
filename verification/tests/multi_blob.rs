use holt::cow::child_is_snapshot_shared;
use holt::erase_multi::{erase_multi, erase_multi_conditional};
use holt::errors::{is_blob_store_not_found, is_stale_blob_crossing, Error};
use holt::insert_multi::{insert_multi, insert_multi_batch_conditional, insert_multi_conditional, InsertBatchItem};
use holt::key::SearchKey;
use holt::layout::{BlobGuid, BlobNode, Node};
use holt::lookup_multi::{lookup_multi, lookup_multi_with};
use holt::merge::{is_mergeable, merge_blob, try_merge_children};
use holt::range::{RangeBuilder, RangeEntry};
use holt::restart::{after_stale, AfterStale};
use holt::route_cache::RouteCache;
use holt::scan::{collect_blob_guids, collect_blob_topology_silent, collect_prefix_blob_topology_silent, BlobTopologyEntry};
use holt::slot_walker::insert;
use holt::spillover::fresh_blob_guid;
use holt::store::{BufferManager, GuidSource};
use holt::types::{EraseCondition, InsertCondition, LookupHit};

const ROOT: BlobGuid = [0u8; 16];

fn store() -> BufferManager {
    let mut bm = BufferManager::new(GuidSource { nanos: 1_000, counter: 0, entropy: Some([9, 8, 7]) });
    bm.open_root(ROOT).unwrap();
    bm
}

fn put(bm: &mut BufferManager, routes: &mut Option<RouteCache>, k: &[u8], v: &[u8], seq: u64) {
    assert!(insert_multi(bm, ROOT, routes, SearchKey::user(k), v, seq).unwrap().mutated);
}

fn get(bm: &mut BufferManager, routes: &mut Option<RouteCache>, k: &[u8]) -> Option<Vec<u8>> {
    lookup_multi(bm, ROOT, routes, SearchKey::user(k)).unwrap().map(|hit| hit.0)
}

fn keys(bm: &BufferManager) -> Vec<Vec<u8>> {
    let mut it = RangeBuilder::new(ROOT).into_iter();
    let mut out = Vec::new();
    while let Some(entry) = it.next(bm, false) {
        match entry.unwrap() {
            RangeEntry::Key { key, .. } => out.push(key),
            other => panic!("unexpected range entry: {other:?}"),
        }
    }
    out
}

/// The blob node of a frame, if there is one.
fn blob_node(bm: &BufferManager, at: usize) -> u16 {
    for slot in 0..bm.blobs[at].frame.cells.len() {
        if let Some(Node::Blob(_)) = &bm.blobs[at].frame.cells[slot] {
            return slot as u16;
        }
    }
    panic!("no blob node")
}

#[test]
fn tree_get_and_put_follow_child_header_root_across_blob_node() {
    let mut bm = store();
    let mut routes = None;
    for i in 0..10u32 {
        put(&mut bm, &mut routes, format!("k{i:02}").as_bytes(), format!("v{i}").as_bytes(), u64::from(i) + 1);
    }
    let child = bm.spill_at(0, 20).unwrap();
    assert_ne!(bm.blobs[child].frame.header.root_slot, 1, "the child's root is not the default slot");

    put(&mut bm, &mut routes, b"k00", b"updated", 21);
    assert!(erase_multi(&mut bm, ROOT, &mut routes, SearchKey::user(b"k01"), 22).unwrap().mutated);
    for i in 0..10u32 {
        let k = format!("k{i:02}").into_bytes();
        let v = format!("v{i}").into_bytes();
        if i == 1 {
            assert!(get(&mut bm, &mut routes, &k).is_none());
            continue;
        }
        let expected: &[u8] = if i == 0 { b"updated" } else { &v };
        assert_eq!(get(&mut bm, &mut routes, &k).as_deref(), Some(expected), "post-crossing lookup failed for key {k:?}");
    }
    let keys = keys(&bm);
    assert_eq!(keys.len(), 9);
    assert_eq!(keys[0], b"k00");
    assert!(get(&mut bm, &mut routes, b"k99").is_none());
}

#[test]
fn tree_put_and_delete_follow_nested_child_header_roots() {
    let mut bm = store();
    let mut routes = Some(RouteCache::new());
    for i in 0..12u32 {
        put(&mut bm, &mut routes, format!("k{i:02}").as_bytes(), format!("v{i}").as_bytes(), u64::from(i) + 1);
    }
    let child = bm.spill_at(0, 20).unwrap();
    assert_ne!(bm.blobs[child].frame.header.root_slot, 1);
    let grandchild = bm.spill_at(child, 21).unwrap();
    assert_ne!(bm.blobs[grandchild].frame.header.root_slot, 1);

    put(&mut bm, &mut routes, b"k00", b"updated", 22);
    put(&mut bm, &mut routes, b"k99", b"new", 23);
    assert!(erase_multi(&mut bm, ROOT, &mut routes, SearchKey::user(b"k01"), 24).unwrap().mutated);

    assert_eq!(get(&mut bm, &mut routes, b"k00").as_deref(), Some(&b"updated"[..]));
    assert!(get(&mut bm, &mut routes, b"k01").is_none());
    assert_eq!(get(&mut bm, &mut routes, b"k02").as_deref(), Some(&b"v2"[..]));
    assert_eq!(get(&mut bm, &mut routes, b"k99").as_deref(), Some(&b"new"[..]));

    let keys = keys(&bm);
    assert_eq!(keys.len(), 12);
    assert_eq!(keys.first().map(Vec::as_slice), Some(&b"k00"[..]));
    assert_eq!(keys.last().map(Vec::as_slice), Some(&b"k99"[..]));
}

#[test]
fn full_blobs_split_and_stay_readable() {
    let mut bm = store();
    let mut routes = Some(RouteCache::new());
    let value = vec![0x5A; 1024];
    for i in 0..900u32 {
        put(&mut bm, &mut routes, format!("bucket-{:02}/file-{i:06}", i % 7).as_bytes(), &value, u64::from(i) + 1);
    }
    assert!(bm.blobs.len() > 1, "the root blob cannot hold everything");
    for i in 0..900u32 {
        let k = format!("bucket-{:02}/file-{i:06}", i % 7).into_bytes();
        assert_eq!(get(&mut bm, &mut routes, &k).as_deref(), Some(&value[..]));
    }
    let listed = keys(&bm);
    assert_eq!(listed.len(), 900);
    assert!(listed.windows(2).all(|w| w[0] < w[1]));

    let names = collect_blob_guids(&bm, ROOT).unwrap();
    assert_eq!(names[0], ROOT);
    assert_eq!(names.len(), bm.blobs.len());
    let all = collect_blob_topology_silent(&bm, ROOT).unwrap();
    assert_eq!(all[0], BlobTopologyEntry { guid: ROOT, depth: 0 });
    assert!(all[1..].iter().all(|e| e.depth > 0));
    let some = collect_prefix_blob_topology_silent(&bm, ROOT, b"bucket-03/").unwrap();
    assert_eq!(some[0], BlobTopologyEntry { guid: ROOT, depth: 0 });
    assert!(some.iter().all(|e| names.contains(&e.guid)));
    assert_eq!(collect_prefix_blob_topology_silent(&bm, ROOT, b"").unwrap().len(), all.len());
    assert_eq!(collect_prefix_blob_topology_silent(&bm, ROOT, b"zzz").unwrap().len(), 1);
}

#[test]
fn an_unknown_root_is_not_found() {
    let bm = store();
    let guid = [5u8; 16];
    assert!(matches!(collect_blob_guids(&bm, guid), Err(Error::BlobNotFound { guid: g }) if g == guid));
    assert!(matches!(collect_prefix_blob_topology_silent(&bm, guid, b"p"), Err(Error::BlobNotFound { guid: g }) if g == guid));
}

#[test]
fn small_children_are_merged_back() {
    let mut bm = store();
    let mut routes = None;
    for i in 0..10u32 {
        put(&mut bm, &mut routes, format!("k{i:02}").as_bytes(), format!("v{i}").as_bytes(), u64::from(i) + 1);
    }
    bm.spill_at(0, 20).unwrap();
    let slot = blob_node(&bm, 0);
    assert!(is_mergeable(&bm, 0, slot).unwrap());
    let stats = try_merge_children(&mut bm, 0).unwrap();
    assert_eq!(stats.merged, 1);
    for i in 0..10u32 {
        let k = format!("k{i:02}").into_bytes();
        assert_eq!(get(&mut bm, &mut routes, &k), Some(format!("v{i}").into_bytes()));
    }
    assert_eq!(collect_blob_guids(&bm, ROOT).unwrap(), vec![ROOT]);
}

#[test]
fn conditions_are_checked_across_blobs() {
    let mut bm = store();
    let mut routes = Some(RouteCache::new());
    for i in 0..10u32 {
        put(&mut bm, &mut routes, format!("k{i:02}").as_bytes(), b"v", u64::from(i) + 1);
    }
    bm.spill_at(0, 20).unwrap();
    let key = SearchKey::user(b"k04");
    let refused = insert_multi_conditional(&mut bm, ROOT, &mut routes, key, b"x", 30, InsertCondition::IfAbsent).unwrap();
    assert!(!refused.mutated);
    let stale = insert_multi_conditional(&mut bm, ROOT, &mut routes, key, b"x", 31, InsertCondition::IfVersion(4)).unwrap();
    assert!(!stale.mutated);
    assert_eq!(get(&mut bm, &mut routes, b"k04").as_deref(), Some(&b"v"[..]));
    let done = insert_multi_conditional(&mut bm, ROOT, &mut routes, key, b"x", 32, InsertCondition::IfVersion(5)).unwrap();
    assert!(done.mutated);
    assert_eq!(get(&mut bm, &mut routes, b"k04").as_deref(), Some(&b"x"[..]));
    let kept = erase_multi_conditional(&mut bm, ROOT, &mut routes, key, 33, EraseCondition::IfVersion(5)).unwrap();
    assert!(!kept.mutated);
    let gone = erase_multi_conditional(&mut bm, ROOT, &mut routes, key, 34, EraseCondition::IfVersion(32)).unwrap();
    assert!(gone.mutated);
    assert!(get(&mut bm, &mut routes, b"k04").is_none());
    let again = insert_multi_conditional(&mut bm, ROOT, &mut routes, key, b"y", 35, InsertCondition::IfAbsent).unwrap();
    assert!(again.mutated);
}

#[test]
fn long_keys_and_values_are_refused() {
    let mut bm = store();
    let mut routes = None;
    let long = vec![1u8; 70_000];
    assert!(matches!(
        insert_multi(&mut bm, ROOT, &mut routes, SearchKey::user(&long), b"v", 1),
        Err(Error::KeyTooLong { len: 70_001 })
    ));
    assert!(matches!(
        insert_multi(&mut bm, ROOT, &mut routes, SearchKey::user(b"k"), &long, 1),
        Err(Error::ValueTooLong { len: 70_000 })
    ));
    assert!(keys(&bm).is_empty());
}

#[test]
fn a_delete_undoes_a_new_record() {
    let mut bm = store();
    let mut routes = None;
    put(&mut bm, &mut routes, b"a", b"1", 1);
    put(&mut bm, &mut routes, b"b", b"2", 2);
    assert!(erase_multi(&mut bm, ROOT, &mut routes, SearchKey::user(b"b"), 3).unwrap().mutated);
    assert_eq!(keys(&bm), vec![b"a".to_vec()]);
    assert!(!erase_multi(&mut bm, ROOT, &mut routes, SearchKey::user(b"b"), 4).unwrap().mutated);
}

#[test]
fn lookups_hand_the_hit_to_the_caller() {
    let mut bm = store();
    let mut routes = None;
    put(&mut bm, &mut routes, b"a", b"12345", 7);
    let seen = lookup_multi_with(&mut bm, ROOT, &mut routes, SearchKey::user(b"a"), |hit: LookupHit<'_>| (hit.value.len(), hit.seq)).unwrap();
    assert_eq!(seen, Some((5, 7)));
    let none = lookup_multi_with(&mut bm, ROOT, &mut routes, SearchKey::user(b"b"), |hit: LookupHit<'_>| hit.seq).unwrap();
    assert_eq!(none, None);
}

#[test]
fn batches_apply_from_the_front() {
    let mut bm = store();
    let mut routes = Some(RouteCache::new());
    let names: Vec<Vec<u8>> = (0..30u32).map(|i| format!("dir/{i:03}").into_bytes()).collect();
    let items: Vec<InsertBatchItem<'_>> = names
        .iter()
        .enumerate()
        .map(|(i, k)| InsertBatchItem::new(SearchKey::user(k), b"v", i as u64 + 1, InsertCondition::IfAbsent))
        .collect();
    let mut done = 0;
    while done < items.len() {
        let out = insert_multi_batch_conditional(&mut bm, ROOT, &mut routes, &items[done..]).unwrap();
        assert!(out.applied > 0);
        done += out.applied;
    }
    assert_eq!(keys(&bm), names);
}

#[test]
fn shared_children_are_copied_before_they_are_written() {
    let mut bm = store();
    let mut routes = None;
    for i in 0..10u32 {
        put(&mut bm, &mut routes, format!("k{i:02}").as_bytes(), b"old", u64::from(i) + 1);
    }
    let child = bm.spill_at(0, 20).unwrap();
    bm.epoch = 3;
    bm.fork_barrier = 2;
    assert!(child_is_snapshot_shared(&bm, child));
    let blobs = bm.blobs.len();
    put(&mut bm, &mut routes, b"k03", b"new", 21);
    assert_eq!(bm.blobs.len(), blobs + 1, "the child was copied");
    assert_eq!(get(&mut bm, &mut routes, b"k03").as_deref(), Some(&b"new"[..]));
    // The blob that a snapshot may see still holds the old record.
    let frozen = &bm.blobs[child].frame;
    let old = frozen.cells.iter().flatten().any(|n| matches!(n, Node::Leaf(l) if l.key == b"k03\0" && l.value == b"old"));
    assert!(old);
    let new = frozen.cells.iter().flatten().any(|n| matches!(n, Node::Leaf(l) if l.value == b"new"));
    assert!(!new);
}

#[test]
fn restarts_yield_now_and_then_and_end() {
    assert_eq!(after_stale(0), (1, AfterStale::Retry));
    assert_eq!(after_stale(15), (16, AfterStale::Yield));
    assert_eq!(after_stale(16), (17, AfterStale::Retry));
    assert_eq!(after_stale(127), (128, AfterStale::GiveUp));
    assert_eq!(after_stale(u32::MAX), (u32::MAX, AfterStale::GiveUp));
}

#[test]
fn a_batch_stops_at_a_record_that_does_not_meet_its_condition() {
    let mut bm = store();
    let mut routes = None;
    put(&mut bm, &mut routes, b"b", b"there", 1);
    let items = [
        InsertBatchItem::new(SearchKey::user(b"a"), b"1", 2, InsertCondition::IfAbsent),
        InsertBatchItem::new(SearchKey::user(b"b"), b"2", 3, InsertCondition::IfAbsent),
        InsertBatchItem::new(SearchKey::user(b"c"), b"3", 4, InsertCondition::IfAbsent),
    ];
    assert!(matches!(insert_multi_batch_conditional(&mut bm, ROOT, &mut routes, &items), Err(Error::Internal(_))));
    assert_eq!(get(&mut bm, &mut routes, b"a").as_deref(), Some(&b"1"[..]));
    assert_eq!(get(&mut bm, &mut routes, b"b").as_deref(), Some(&b"there"[..]));
    assert!(get(&mut bm, &mut routes, b"c").is_none());
    let out = insert_multi_batch_conditional(&mut bm, ROOT, &mut routes, &[]).unwrap();
    assert_eq!(out.applied, 0);
}

#[test]
fn a_batch_with_a_record_that_is_too_long_writes_nothing() {
    let mut bm = store();
    let mut routes = None;
    let long = vec![1u8; 70_000];
    let items = [
        InsertBatchItem::new(SearchKey::user(b"a"), b"1", 2, InsertCondition::Always),
        InsertBatchItem::new(SearchKey::user(b"b"), &long, 3, InsertCondition::Always),
    ];
    assert!(matches!(
        insert_multi_batch_conditional(&mut bm, ROOT, &mut routes, &items),
        Err(Error::ValueTooLong { len: 70_000 })
    ));
    let items = [InsertBatchItem::new(SearchKey::user(&long), b"1", 2, InsertCondition::Always)];
    assert!(matches!(
        insert_multi_batch_conditional(&mut bm, ROOT, &mut routes, &items),
        Err(Error::KeyTooLong { len: 70_001 })
    ));
    assert!(keys(&bm).is_empty());
}

#[test]
fn batches_over_a_shared_child_fork_it() {
    let mut bm = store();
    let mut routes = Some(RouteCache::new());
    for i in 0..10u32 {
        put(&mut bm, &mut routes, format!("k{i:02}").as_bytes(), b"old", u64::from(i) + 1);
    }
    let child = bm.spill_at(0, 20).unwrap();
    bm.epoch = 3;
    bm.fork_barrier = 2;
    let before = bm.blobs[child].frame.header;
    let items = [
        InsertBatchItem::new(SearchKey::user(b"k03"), b"new", 21, InsertCondition::Always),
        InsertBatchItem::new(SearchKey::user(b"k04"), b"new", 22, InsertCondition::Always),
    ];
    let mut done = 0;
    while done < items.len() {
        done += insert_multi_batch_conditional(&mut bm, ROOT, &mut routes, &items[done..]).unwrap().applied;
    }
    assert_eq!(get(&mut bm, &mut routes, b"k03").as_deref(), Some(&b"new"[..]));
    assert_eq!(get(&mut bm, &mut routes, b"k04").as_deref(), Some(&b"new"[..]));
    assert_eq!(bm.blobs[child].frame.header.space_used, before.space_used);
}

#[test]
fn errors_are_told_apart() {
    let stale = Error::StaleBlobCrossing("a child on its way out");
    let absent = Error::BlobNotFound { guid: [1; 16] };
    assert!(is_stale_blob_crossing(&stale) && !is_stale_blob_crossing(&absent));
    assert!(is_blob_store_not_found(&absent) && !is_blob_store_not_found(&stale));
}

#[test]
fn a_blob_without_a_subtree_to_move_cannot_be_split() {
    let mut bm = store();
    assert!(matches!(bm.spill_at(0, 1), Err(Error::NotYetImplemented(_))));
    assert!(matches!(bm.open_root(ROOT), Err(Error::Internal(_))));
    assert!(matches!(bm.pin([3; 16]), Err(Error::BlobNotFound { .. })));
    assert!(matches!(is_mergeable(&bm, 0, 1), Err(Error::NodeCorrupt { .. })));
}

fn split_store() -> (BufferManager, usize) {
    let mut bm = store();
    for i in 0..10u32 {
        put(&mut bm, &mut None, format!("k{i:02}").as_bytes(), b"v", u64::from(i) + 1);
    }
    let child = bm.spill_at(0, 20).unwrap();
    for blob in &mut bm.blobs {
        blob.dirty = None;
    }
    (bm, child)
}

#[test]
fn writes_mark_the_blobs_below_the_root_and_report_the_root() {
    let (mut bm, child) = split_store();
    let mut routes = None;
    let out = insert_multi(&mut bm, ROOT, &mut routes, SearchKey::user(b"k03"), b"w", 30).unwrap();
    assert!(out.mutated && !out.root_dirty);
    assert_eq!((bm.blobs[0].dirty, bm.blobs[child].dirty), (None, Some(30)));
    // The oldest change counts.
    insert_multi(&mut bm, ROOT, &mut routes, SearchKey::user(b"k04"), b"w", 31).unwrap();
    assert_eq!(bm.blobs[child].dirty, Some(30));
    insert_multi(&mut bm, ROOT, &mut routes, SearchKey::user(b"k04"), b"w", 29).unwrap();
    assert_eq!(bm.blobs[child].dirty, Some(29));
    // A record of the root blob itself.
    let out = insert_multi(&mut bm, ROOT, &mut routes, SearchKey::user(b"zz"), b"w", 32).unwrap();
    assert!(out.mutated && out.root_dirty);
    assert_eq!(bm.blobs[0].dirty, None);
}

#[test]
fn a_delete_of_nothing_marks_nothing() {
    let (mut bm, child) = split_store();
    let out = erase_multi(&mut bm, ROOT, &mut None, SearchKey::user(b"k77"), 30).unwrap();
    assert!(!out.mutated && !out.root_dirty);
    assert_eq!((bm.blobs[0].dirty, bm.blobs[child].dirty), (None, None));
    assert!(bm.compaction_candidates.is_empty());
    let out = erase_multi(&mut bm, ROOT, &mut None, SearchKey::user(b"k03"), 31).unwrap();
    assert!(out.mutated && !out.root_dirty);
    assert_eq!((bm.blobs[0].dirty, bm.blobs[child].dirty), (None, Some(31)));
    assert_eq!(bm.compaction_candidates, vec![bm.blobs[child].guid]);
}

#[test]
fn a_copied_child_is_marked_and_the_root_reported() {
    let (mut bm, child) = split_store();
    bm.epoch = 3;
    bm.fork_barrier = 2;
    let out = insert_multi(&mut bm, ROOT, &mut None, SearchKey::user(b"k03"), b"w", 30).unwrap();
    assert!(out.mutated && out.root_dirty);
    assert_eq!(bm.blobs[child].dirty, None);
    let copy = bm.blobs.len() - 1;
    assert_eq!(bm.blobs[copy].dirty, Some(30));
    assert_eq!(bm.blobs[copy].frame.header.num_ext_blobs, bm.blobs[child].frame.header.num_ext_blobs);
}

#[test]
fn merging_takes_the_child_off_the_books() {
    let (mut bm, child) = split_store();
    let guid = bm.blobs[child].guid;
    assert_eq!(bm.blobs[0].frame.header.num_ext_blobs, 1);
    assert_eq!(try_merge_children(&mut bm, 0).unwrap().merged, 1);
    assert_eq!(bm.blobs[0].frame.header.num_ext_blobs, 0);
    assert!(bm.deletes.iter().any(|d| d.0 == guid));
    assert_eq!(collect_blob_guids(&bm, ROOT).unwrap(), vec![ROOT]);
    assert_eq!(get(&mut bm, &mut None, b"k07").as_deref(), Some(&b"v"[..]));
}

#[test]
fn topologies_begin_at_any_blob() {
    let mut bm = store();
    for i in 0..12u32 {
        put(&mut bm, &mut None, format!("k{i:02}").as_bytes(), b"v", u64::from(i) + 1);
    }
    let child = bm.spill_at(0, 20).unwrap();
    let grandchild = bm.spill_at(child, 21).unwrap();
    let (top, low) = (bm.blobs[child].guid, bm.blobs[grandchild].guid);
    let path = match &bm.blobs[child].frame.cells[blob_node(&bm, child) as usize] {
        Some(Node::Blob(b)) => b.bytes.clone(),
        _ => unreachable!(),
    };
    let all = [BlobTopologyEntry { guid: top, depth: 0 }, BlobTopologyEntry { guid: low, depth: 1 }];
    assert_eq!(collect_prefix_blob_topology_silent(&bm, top, b"").unwrap(), all);
    assert_eq!(collect_prefix_blob_topology_silent(&bm, low, &path).unwrap(), [BlobTopologyEntry { guid: low, depth: 0 }]);
    assert_eq!(collect_prefix_blob_topology_silent(&bm, top, &[0xff]).unwrap(), [BlobTopologyEntry { guid: top, depth: 0 }]);
    let reached = (0..=255u8).filter(|b| collect_prefix_blob_topology_silent(&bm, top, &[*b]).unwrap() == all).count();
    assert!((1..255).contains(&reached));
}

#[test]
fn refused_records_change_nothing() {
    let (mut bm, child) = split_store();
    let long = vec![7u8; 70_000];
    let used = bm.blobs[child].frame.header.space_used;
    assert!(matches!(insert_multi(&mut bm, ROOT, &mut None, SearchKey::user(b"k03"), &long, 30), Err(Error::ValueTooLong { len: 70_000 })));
    assert_eq!((bm.blobs[0].dirty, bm.blobs[child].dirty), (None, None));
    assert_eq!(bm.blobs[child].frame.header.space_used, used);
    assert_eq!(get(&mut bm, &mut None, b"k03").as_deref(), Some(&b"v"[..]));
}

#[test]
fn taken_names_are_passed_over() {
    let (nanos, entropy) = (1_000, Some([9, 8, 7]));
    let mut bm = store();
    assert_eq!(bm.draw_guid().unwrap(), fresh_blob_guid(nanos, 1, entropy));
    bm.open_root(fresh_blob_guid(nanos, 2, entropy)).unwrap();
    bm.open_root(fresh_blob_guid(nanos, 3, entropy)).unwrap();
    for i in 0..10u32 {
        put(&mut bm, &mut None, format!("k{i:02}").as_bytes(), b"v", u64::from(i) + 1);
    }
    let child = bm.spill_at(0, 20).unwrap();
    assert_eq!(bm.blobs[child].guid, fresh_blob_guid(nanos, 4, entropy));
    assert_eq!(bm.source.counter, 4);
    // The counter starts over behind its last value.
    bm.source.counter = u32::MAX;
    assert_eq!(bm.draw_guid().unwrap(), fresh_blob_guid(nanos, 0, entropy));
}

#[test]
fn a_split_without_room_for_its_node_leaves_the_copy_behind() {
    let mut bm = store();
    for i in 0..10u32 {
        put(&mut bm, &mut None, format!("k{i:02}").as_bytes(), b"v", u64::from(i) + 1);
    }
    // Overwrites take fresh room until none is left.
    for len in [60_000usize, 1_000, 1] {
        loop {
            let frame = &mut bm.blobs[0].frame;
            let root = frame.header.root_slot;
            match insert(frame, root, b"k00\0", &vec![7; len], 30) {
                Ok(out) => frame.header.root_slot = out.new_root_slot,
                Err(_) => break,
            }
        }
    }
    // The room that is held back for blob nodes.
    while bm.blobs[0].frame.alloc_node(Node::Blob(BlobNode { bytes: Vec::new(), child_blob_guid: ROOT })).is_ok() {}
    assert!(matches!(bm.spill_at(0, 31), Err(Error::Alloc(_))));
    assert_eq!(bm.blobs.len(), 2);
    assert_eq!(bm.blobs[1].dirty, Some(31));
    assert_eq!(bm.counters.spillovers, 0);
    assert_eq!(collect_blob_guids(&bm, ROOT).unwrap(), vec![ROOT]);
    assert_eq!(keys(&bm).len(), 10);
    assert_eq!(get(&mut bm, &mut None, b"k00").as_deref(), Some(&[7u8][..]));
    assert_eq!(get(&mut bm, &mut None, b"k09").as_deref(), Some(&b"v"[..]));
}

#[test]
fn walks_count_the_blobs_they_pass() {
    let (mut bm, child) = split_store();
    let c0 = bm.counters;
    // Reads are not counted.
    assert!(get(&mut bm, &mut None, b"zz").is_none());
    assert_eq!(bm.counters, c0);
    put(&mut bm, &mut None, b"zz", b"w", 29);
    assert_eq!((bm.counters.walks, bm.counters.blob_hops), (c0.walks + 1, c0.blob_hops + 1));
    put(&mut bm, &mut None, b"k03", b"w", 30);
    assert_eq!((bm.counters.walks, bm.counters.blob_hops), (c0.walks + 2, c0.blob_hops + 3));
    assert!(erase_multi(&mut bm, ROOT, &mut None, SearchKey::user(b"k03"), 31).unwrap().mutated);
    assert_eq!((bm.counters.walks, bm.counters.blob_hops), (c0.walks + 3, c0.blob_hops + 5));
    assert!(bm.counters.max_cross_blob_depth > 0);
    assert_eq!(bm.counters.spillovers, c0.spillovers);
    assert_eq!(bm.blobs.len(), child + 1);
}

#[test]
fn reads_and_deletes_of_nothing_leave_every_mark() {
    let (mut bm, child) = split_store();
    bm.blobs[child].dirty = Some(40);
    bm.note_merge_candidate(ROOT);
    let before: Vec<_> = bm.blobs.iter().map(|b| (b.frame.header.space_used, b.frame.header.num_slots, b.dirty)).collect();
    for i in 0..12u32 {
        let hit = get(&mut bm, &mut None, format!("k{i:02}").as_bytes());
        assert_eq!(hit.is_some(), i < 10);
    }
    assert!(!erase_multi(&mut bm, ROOT, &mut None, SearchKey::user(b"k11"), 50).unwrap().mutated);
    let refused = insert_multi_conditional(&mut bm, ROOT, &mut None, SearchKey::user(b"k01"), b"x", 51, InsertCondition::IfAbsent).unwrap();
    assert!(!refused.mutated && !refused.root_dirty);
    let after: Vec<_> = bm.blobs.iter().map(|b| (b.frame.header.space_used, b.frame.header.num_slots, b.dirty)).collect();
    assert_eq!(before, after);
    assert_eq!(bm.merge_candidates, vec![ROOT]);
    assert!(bm.compaction_candidates.is_empty() && bm.deletes.is_empty());
}

#[test]
fn lists_for_a_prefix_are_part_of_the_whole_list() {
    let (mut bm, child) = split_store();
    bm.spill_at(child, 30).unwrap();
    let all = collect_blob_topology_silent(&bm, ROOT).unwrap();
    assert_eq!(all.len(), 3);
    for prefix in [&b"k"[..], b"k0", b"k03", b"k1", b"z"] {
        let some = collect_prefix_blob_topology_silent(&bm, ROOT, prefix).unwrap();
        assert!(!some.is_empty() && some.iter().all(|e| all.contains(e)));
    }
}

#[test]
fn lists_of_blobs_rise_and_keep_their_order_for_a_prefix() {
    let mut bm = store();
    let mut routes = None;
    let value = vec![0x41u8; 700];
    for i in 0..1_500u32 {
        let k = format!("bucket-{:02}/file-{i:06}", i % 9).into_bytes();
        put(&mut bm, &mut routes, &k, &value, u64::from(i) + 1);
    }
    let all = collect_blob_topology_silent(&bm, ROOT).unwrap();
    assert!(all.len() > 2);
    assert!(all.windows(2).all(|w| w[0].depth <= w[1].depth));
    for (i, e) in all.iter().enumerate() {
        assert!(all[..i].iter().all(|d| d.guid != e.guid));
    }
    for prefix in [&b"bucket-0"[..], b"bucket-03/", b"bucket-08/file-0000", b"c"] {
        let some = collect_prefix_blob_topology_silent(&bm, ROOT, prefix).unwrap();
        let kept: Vec<BlobTopologyEntry> = all.iter().filter(|e| some.contains(e)).copied().collect();
        assert_eq!(some, kept);
    }
}

#[test]
fn a_child_that_can_be_folded_is() {
    let (mut bm, child) = split_store();
    let guid = bm.blobs[child].guid;
    let slot = blob_node(&bm, 0);
    let used = bm.blobs[0].frame.header.space_used;
    assert!(is_mergeable(&bm, 0, slot).unwrap());
    assert!(merge_blob(&mut bm, 0, slot, 41).is_ok());
    assert_eq!(bm.deletes, vec![(guid, 41)]);
    assert!(bm.blobs[0].frame.header.space_used > used);
    assert_eq!(bm.blobs[0].frame.header.num_ext_blobs, 0);
}
