use std::cell::RefCell;

use holt::cold_summary::summarize_blob_for_cold_index;
use holt::erase_multi::erase_multi;
use holt::errors::Error;
use holt::frame::BlobFrame;
use holt::insert::insert;
use holt::insert_multi::insert_multi;
use holt::key::SearchKey;
use holt::key_range::{hand_out, KeyRangeBuilder, PrefixListCache};
use holt::layout::BlobGuid;
use holt::order::{
    bytes_lt, key_at_or_past_prefix_successor, path_seek_relation, prefix_filter_relation, segment_rollup_len,
    segment_seek_relation, user_key, LowerBound, PrefixFilterRelation, SeekRelation, SegmentRelation,
};
use holt::range::{KeyRangeEntry, KeyRangeEntryRef, RangeBuilder, RangeEntry, RangeIter, ScanStats};
use holt::route_cache::RouteCache;
use holt::scan::{prefix_relation, starts_with, PrefixRelation};
use holt::store::{BufferManager, GuidSource};

const ROOT: BlobGuid = [0u8; 16];

fn store() -> BufferManager {
    let mut bm = BufferManager::new(GuidSource { nanos: 1_000, counter: 0, entropy: None });
    bm.open_root(ROOT).unwrap();
    bm
}

fn put(bm: &mut BufferManager, k: &[u8], v: &[u8], seq: u64) {
    let mut routes: Option<RouteCache> = None;
    assert!(insert_multi(bm, ROOT, &mut routes, SearchKey::user(k), v, seq).unwrap().mutated);
}

fn del(bm: &mut BufferManager, k: &[u8], seq: u64) {
    let mut routes: Option<RouteCache> = None;
    assert!(erase_multi(bm, ROOT, &mut routes, SearchKey::user(k), seq).unwrap().mutated);
}

fn filled(keys: &[&[u8]]) -> BufferManager {
    let mut bm = store();
    for (i, k) in keys.iter().enumerate() {
        put(&mut bm, k, &[i as u8, 0xEE], i as u64 + 1);
    }
    bm
}

/// Keys as they are, common prefixes with a `*` behind.
fn shown(entry: &RangeEntry) -> Vec<u8> {
    match entry {
        RangeEntry::Key { key, .. } => key.clone(),
        RangeEntry::CommonPrefix(p) => [&p[..], b"*"].concat(),
    }
}

fn shown_key(entry: &KeyRangeEntry) -> Vec<u8> {
    match entry {
        KeyRangeEntry::Key { key, .. } => key.clone(),
        KeyRangeEntry::CommonPrefix(p) => [&p[..], b"*"].concat(),
    }
}

fn drain(mut it: RangeIter, bm: &BufferManager) -> (Vec<Vec<u8>>, ScanStats) {
    let mut out = Vec::new();
    while let Some(entry) = it.next(bm, false) {
        out.push(shown(&entry.unwrap()));
    }
    assert!(it.next(bm, false).is_none(), "a finished scan stays finished");
    (out, it.stats())
}

fn owned(keys: &[&[u8]]) -> Vec<Vec<u8>> {
    keys.iter().map(|k| k.to_vec()).collect()
}

#[test]
fn scans_give_records_in_key_order() {
    let bm = filled(&[b"b", b"a", b"", b"ab", b"abc", b"b\xFF", b"\xFF\xFF", b"a\xFF"]);
    let (keys, stats) = drain(RangeBuilder::new(ROOT).into_iter(), &bm);
    assert_eq!(keys, owned(&[b"", b"a", b"ab", b"abc", b"a\xFF", b"b", b"b\xFF", b"\xFF\xFF"]));
    assert_eq!(stats, ScanStats { visited: 8, returned: 8, rollup: 0, restarts: 0 });

    let mut it = RangeBuilder::new(ROOT).prefix(b"ab").into_iter();
    match it.next(&bm, false).unwrap().unwrap() {
        RangeEntry::Key { key, value, version } => {
            assert_eq!(key, b"ab");
            assert_eq!(value, vec![3, 0xEE]);
            assert_eq!(version.seq, 4);
        }
        other => panic!("unexpected range entry: {other:?}"),
    }
}

#[test]
fn scans_of_nothing_end_at_once() {
    let bm = store();
    let (keys, stats) = drain(RangeBuilder::new(ROOT).into_iter(), &bm);
    assert!(keys.is_empty());
    assert_eq!(stats, ScanStats { visited: 0, returned: 0, rollup: 0, restarts: 0 });
}

#[test]
fn prefixes_narrow_a_scan() {
    let bm = filled(&[b"img/01", b"img/02", b"imh", b"im", b"img/", b"doc", b"\xFF\xFFa", b"\xFF\xFF", b"\xFF"]);
    let (keys, _) = drain(RangeBuilder::new(ROOT).prefix(b"img/").into_iter(), &bm);
    assert_eq!(keys, owned(&[b"img/", b"img/01", b"img/02"]));
    let (keys, _) = drain(RangeBuilder::new(ROOT).prefix(b"\xFF\xFF").into_iter(), &bm);
    assert_eq!(keys, owned(&[b"\xFF\xFF", b"\xFF\xFFa"]));
    let (keys, stats) = drain(RangeBuilder::new(ROOT).prefix(b"none").into_iter(), &bm);
    assert!(keys.is_empty());
    assert_eq!(stats.returned, 0);
}

#[test]
fn long_prefixes_and_bounds_are_kept_whole() {
    let stem = vec![b'x'; 100];
    let mut a = stem.clone();
    a.push(b'a');
    let mut b = stem.clone();
    b.push(b'b');
    let mut c = vec![b'x'; 99];
    c.push(b'y');
    let bm = filled(&[&a, &b, &c]);
    let (keys, _) = drain(RangeBuilder::new(ROOT).prefix(&stem).into_iter(), &bm);
    assert_eq!(keys, vec![a.clone(), b.clone()]);
    let (keys, _) = drain(RangeBuilder::new(ROOT).prefix(&stem).start_after(&a).into_iter(), &bm);
    assert_eq!(keys, vec![b.clone()]);
    let (keys, _) = drain(RangeBuilder::new(ROOT).start_after(&b).into_iter(), &bm);
    assert_eq!(keys, vec![c]);
}

#[test]
fn scans_begin_after_the_given_key() {
    let bm = filled(&[b"a", b"ab", b"b", b"c"]);
    let (keys, _) = drain(RangeBuilder::new(ROOT).start_after(b"a").into_iter(), &bm);
    assert_eq!(keys, owned(&[b"ab", b"b", b"c"]));
    let (keys, _) = drain(RangeBuilder::new(ROOT).start_after(b"aa").into_iter(), &bm);
    assert_eq!(keys, owned(&[b"ab", b"b", b"c"]));
    let (keys, _) = drain(RangeBuilder::new(ROOT).start_after(b"c").into_iter(), &bm);
    assert!(keys.is_empty());
    let (keys, _) = drain(RangeBuilder::new(ROOT).start_after(b"").into_iter(), &bm);
    assert_eq!(keys.len(), 4);
}

#[test]
fn delimiters_fold_keys_together() {
    let bm = filled(&[b"a/1", b"a/2", b"b", b"c/x/1", b"c/x/2", b"c/y"]);
    let (keys, stats) = drain(RangeBuilder::new(ROOT).delimiter(b'/').into_iter(), &bm);
    assert_eq!(keys, owned(&[b"a/*", b"b", b"c/*"]));
    assert_eq!((stats.returned, stats.rollup), (1, 2));
    let (keys, _) = drain(RangeBuilder::new(ROOT).prefix(b"c/").delimiter(b'/').into_iter(), &bm);
    assert_eq!(keys, owned(&[b"c/x/*", b"c/y"]));
    let (keys, _) = drain(RangeBuilder::new(ROOT).delimiter(b'/').start_after(b"a/1").into_iter(), &bm);
    assert_eq!(keys, owned(&[b"a/*", b"b", b"c/*"]));
    let (keys, _) = drain(RangeBuilder::new(ROOT).delimiter(b'/').start_after(b"a/2").into_iter(), &bm);
    assert_eq!(keys, owned(&[b"b", b"c/*"]));
}

#[test]
fn the_highest_delimiter_ends_the_scan_behind_it() {
    let bm = filled(&[b"\xFFa", b"\xFFb", b"a"]);
    let (keys, _) = drain(RangeBuilder::new(ROOT).delimiter(0xFF).into_iter(), &bm);
    assert_eq!(keys, owned(&[b"a", b"\xFF*"]));
}

#[test]
fn a_zero_delimiter_folds_only_inside_keys() {
    let bm = filled(&[b"a", b"b", b"ba"]);
    let (keys, _) = drain(RangeBuilder::new(ROOT).delimiter(0).into_iter(), &bm);
    assert_eq!(keys, owned(&[b"a", b"b", b"ba"]));
}

#[test]
fn deleted_records_are_not_shown() {
    let mut bm = filled(&[b"a/1", b"b/1", b"b/2", b"c"]);
    del(&mut bm, b"a/1", 9);
    del(&mut bm, b"b/1", 10);
    let (keys, _) = drain(RangeBuilder::new(ROOT).into_iter(), &bm);
    assert_eq!(keys, owned(&[b"b/2", b"c"]));
    let (keys, _) = drain(RangeBuilder::new(ROOT).delimiter(b'/').into_iter(), &bm);
    assert_eq!(keys, owned(&[b"b/*", b"c"]));
}

#[test]
fn scans_outlive_writes() {
    let mut bm = filled(&[b"a", b"c", b"e", b"g"]);
    let mut it = RangeBuilder::new(ROOT).into_iter();
    assert_eq!(shown(&it.next(&bm, false).unwrap().unwrap()), b"a");
    assert_eq!(shown(&it.next(&bm, false).unwrap().unwrap()), b"c");
    put(&mut bm, b"b", b"early", 10);
    put(&mut bm, b"d", b"late", 11);
    del(&mut bm, b"e", 12);
    assert_eq!(shown(&it.next(&bm, false).unwrap().unwrap()), b"d");
    assert_eq!(shown(&it.next(&bm, false).unwrap().unwrap()), b"g");
    assert!(it.next(&bm, false).is_none());
    assert!(it.stats().restarts > 0);
}

#[test]
fn scans_cross_into_other_blobs() {
    let names: Vec<Vec<u8>> = (0..40u32).map(|i| format!("dir{}/{i:03}", i % 4).into_bytes()).collect();
    let mut bm = store();
    for (i, k) in names.iter().enumerate() {
        put(&mut bm, k, b"v", i as u64 + 1);
    }
    let mut sorted = names.clone();
    sorted.sort();
    let child = bm.spill_at(0, 90).unwrap();
    bm.spill_at(child, 91).unwrap();
    let (keys, _) = drain(RangeBuilder::new(ROOT).into_iter(), &bm);
    assert_eq!(keys, sorted);
    let (keys, _) = drain(RangeBuilder::new(ROOT).delimiter(b'/').into_iter(), &bm);
    assert_eq!(keys, owned(&[b"dir0/*", b"dir1/*", b"dir2/*", b"dir3/*"]));
    let (keys, _) = drain(RangeBuilder::new(ROOT).prefix(b"dir2/").start_after(b"dir2/010").into_iter(), &bm);
    let expected: Vec<Vec<u8>> = sorted.iter().filter(|k| k.starts_with(b"dir2/") && k.as_slice() > &b"dir2/010"[..]).cloned().collect();
    assert_eq!(keys, expected);
}

#[test]
fn key_scans_stop_at_their_limit() {
    let bm = filled(&[b"a", b"b", b"c", b"d"]);
    let mut cache = None;
    let (stats, entries) = KeyRangeBuilder::new(RangeBuilder::new(ROOT)).visit(&bm, 3, &mut cache, 0, false).unwrap();
    assert_eq!(entries.iter().map(shown_key).collect::<Vec<_>>(), owned(&[b"a", b"b", b"c"]));
    assert_eq!(stats.returned, 3);
    let (stats, entries) = KeyRangeBuilder::new(RangeBuilder::new(ROOT)).visit(&bm, 0, &mut cache, 0, false).unwrap();
    assert!(entries.is_empty());
    assert_eq!(stats, ScanStats { visited: 0, returned: 0, rollup: 0, restarts: 0 });
    let (_, entries) = KeyRangeBuilder::new(RangeBuilder::new(ROOT)).start_after(b"c").visit(&bm, 3, &mut cache, 0, false).unwrap();
    assert_eq!(entries.iter().map(shown_key).collect::<Vec<_>>(), owned(&[b"d"]));
    match &entries[0] {
        KeyRangeEntry::Key { version, .. } => assert_eq!(version.seq, 4),
        other => panic!("unexpected entry: {other:?}"),
    }
}

#[test]
fn key_iterators_give_keys_only() {
    let bm = filled(&[b"p/1", b"p/2", b"q"]);
    let mut it = KeyRangeBuilder::new(RangeBuilder::new(ROOT)).delimiter(b'/').into_iter();
    let mut out = Vec::new();
    while let Some(entry) = it.next(&bm, false) {
        out.push(shown_key(&entry.unwrap()));
    }
    assert_eq!(out, owned(&[b"p/*", b"q"]));
    assert_eq!((it.stats().returned, it.stats().rollup), (1, 1));
}

#[test]
fn lists_are_served_again_until_the_epoch_moves() {
    let mut bm = filled(&[b"p/1", b"p/2", b"p/3"]);
    let mut cache = Some(PrefixListCache::new());
    let (first, entries) = KeyRangeBuilder::new(RangeBuilder::new(ROOT)).prefix(b"p/").visit_with_outcome(&bm, 2, &mut cache, 7, false).unwrap();
    assert!(!first.cache_hit);
    assert!(first.stats.visited > 0);
    assert_eq!(entries.len(), 2);
    let (again, entries) = KeyRangeBuilder::new(RangeBuilder::new(ROOT)).prefix(b"p/").visit_with_outcome(&bm, 2, &mut cache, 7, false).unwrap();
    assert!(again.cache_hit);
    assert_eq!(again.stats, ScanStats { visited: 0, returned: 2, rollup: 0, restarts: 0 });
    assert_eq!(entries.iter().map(shown_key).collect::<Vec<_>>(), owned(&[b"p/1", b"p/2"]));
    // Another question is not answered by it.
    let (other, _) = KeyRangeBuilder::new(RangeBuilder::new(ROOT)).prefix(b"p/").start_after(b"p/1").visit_with_outcome(&bm, 2, &mut cache, 7, false).unwrap();
    assert!(!other.cache_hit);
    // After a write the epoch has moved.
    put(&mut bm, b"p/0", b"v", 9);
    let (later, entries) = KeyRangeBuilder::new(RangeBuilder::new(ROOT)).prefix(b"p/").visit_with_outcome(&bm, 2, &mut cache, 8, false).unwrap();
    assert!(!later.cache_hit);
    assert_eq!(entries.iter().map(shown_key).collect::<Vec<_>>(), owned(&[b"p/0", b"p/1"]));
}

#[test]
fn entries_survive_borrowing() {
    let entry = KeyRangeEntry::CommonPrefix(b"a/".to_vec());
    assert_eq!(shown_key(&KeyRangeEntry::from_ref(entry.as_ref())), b"a/*");
}

#[test]
fn summaries_list_records_and_crossings() {
    let mut bm = store();
    for i in 0..10u32 {
        put(&mut bm, format!("k{i:02}").as_bytes(), &vec![7; i as usize], u64::from(i) + 1);
    }
    let child = bm.spill_at(0, 20).unwrap();
    let guid = bm.blobs[child].guid;
    let root = summarize_blob_for_cold_index(&bm.blobs[0].frame, 4).unwrap();
    assert_eq!(root.crossings.len(), 1);
    assert_eq!(root.crossings[0].child_guid, guid);
    let below = summarize_blob_for_cold_index(&bm.blobs[child].frame, 4).unwrap();
    assert_eq!(root.leaves.len() + below.leaves.len(), 10);
    for leaf in root.leaves.iter().chain(below.leaves.iter()) {
        let i = leaf.seq - 1;
        assert_eq!(leaf.key, format!("k{i:02}").into_bytes());
        assert_eq!(leaf.value.is_some(), i <= 4);
        if let Some(v) = &leaf.value {
            assert_eq!(v.len() as u64, i);
        }
    }
    let mut frame = BlobFrame::init([1; 16]);
    let empty = summarize_blob_for_cold_index(&frame, 4).unwrap();
    assert!(empty.leaves.is_empty() && empty.crossings.is_empty());
    insert(&mut frame, 1, b"only\0", b"abc", 5).unwrap();
    let one = summarize_blob_for_cold_index(&frame, 3).unwrap();
    assert_eq!(one.leaves[0].value.as_deref(), Some(&b"abc"[..]));
}

#[test]
fn byte_strings_are_compared_from_the_front() {
    assert!(bytes_lt(b"a", b"b"));
    assert!(bytes_lt(b"a", b"aa"));
    assert!(bytes_lt(b"", b"\0"));
    assert!(!bytes_lt(b"b", b"aa"));
    assert!(!bytes_lt(b"a", b"a"));
    assert_eq!(user_key(b"ab\0"), b"ab");
}

#[test]
fn paths_are_skipped_sought_or_taken_whole() {
    assert_eq!(path_seek_relation(b"ab", b"abc"), SeekRelation::Seeking);
    assert_eq!(path_seek_relation(b"ac", b"abc"), SeekRelation::Min);
    assert_eq!(path_seek_relation(b"aa", b"abc"), SeekRelation::Skip);
    assert_eq!(segment_seek_relation(b"a", b"b", b"abc"), SegmentRelation::Continue);
    assert_eq!(segment_seek_relation(b"a", b"c", b"abc"), SegmentRelation::Min);
    assert_eq!(segment_seek_relation(b"a", b"a", b"abc"), SegmentRelation::Skip);
    assert_eq!(prefix_filter_relation(b"abc", b"ab"), PrefixFilterRelation::Match);
    assert_eq!(prefix_filter_relation(b"aa", b"ab"), PrefixFilterRelation::Before);
    assert_eq!(prefix_filter_relation(b"b", b"ab"), PrefixFilterRelation::Past);
    assert!(key_at_or_past_prefix_successor(b"ac", b"ab"));
    assert!(!key_at_or_past_prefix_successor(b"ab\xFF", b"ab"));
    assert!(!key_at_or_past_prefix_successor(b"aa", b"ab"));
    assert_eq!(prefix_relation(b"abc", b"ab"), PrefixRelation::All);
    assert_eq!(prefix_relation(b"a", b"ab"), PrefixRelation::Continue);
    assert_eq!(prefix_relation(b"b", b"ab"), PrefixRelation::Skip);
    assert!(starts_with(b"abc", b"ab") && !starts_with(b"a", b"ab"));
}

#[test]
fn lower_bounds_move_past_keys_and_prefixes() {
    let mut bound = LowerBound::exclusive(b"b".to_vec());
    assert!(!bound.allows(b"b"));
    assert!(bound.allows(b"ba"));
    bound.set_exclusive(b"c");
    assert!(!bound.allows(b"bz"));
    assert!(bound.set_inclusive_successor(b"c\xFF"));
    assert!(bound.allows(b"d"));
    assert!(!bound.allows(b"c\xFF\xFF"));
    assert!(!bound.set_inclusive_successor(b"\xFF\xFF"));
    assert_eq!(bound.key, b"\xFF\xFF");
}

#[test]
fn segments_fold_at_their_first_delimiter() {
    assert_eq!(segment_rollup_len(b"a/", Some(b'/'), b"a/b", b"c/d"), Some(5));
    assert_eq!(segment_rollup_len(b"a/", Some(b'/'), b"a/b", b"cd"), None);
    assert_eq!(segment_rollup_len(b"a/", None, b"a/b", b"c/d"), None);
    assert_eq!(segment_rollup_len(b"x/", Some(b'/'), b"a/b", b"c/d"), None);
}

#[test]
fn scans_of_a_dropped_tree_fail_once() {
    let bm = filled(&[b"a", b"b"]);
    let mut it = RangeBuilder::new(ROOT).into_iter();
    assert_eq!(shown(&it.next(&bm, false).unwrap().unwrap()), b"a");
    assert!(matches!(it.next(&bm, true), Some(Err(Error::TreeDropped))));
    assert!(it.next(&bm, true).is_none());
    let mut keys = KeyRangeBuilder::new(RangeBuilder::new(ROOT)).into_iter();
    assert!(matches!(keys.next(&bm, true), Some(Err(Error::TreeDropped))));
    assert!(keys.next(&bm, false).is_none());
    let mut cache = None;
    assert!(matches!(KeyRangeBuilder::new(RangeBuilder::new(ROOT)).visit(&bm, 5, &mut cache, 0, true), Err(Error::TreeDropped)));
    assert!(KeyRangeBuilder::new(RangeBuilder::new(ROOT)).visit(&bm, 0, &mut cache, 0, true).is_ok());
}

#[test]
fn scans_see_writes_ahead_in_other_blobs() {
    let names: Vec<Vec<u8>> = (0..40u32).map(|i| format!("dir{}/{i:03}", i % 4).into_bytes()).collect();
    let mut bm = store();
    for (i, k) in names.iter().enumerate() {
        put(&mut bm, k, b"v", i as u64 + 1);
    }
    bm.spill_at(0, 90).unwrap();
    let mut it = RangeBuilder::new(ROOT).into_iter();
    let mut out = Vec::new();
    let mut n = 0u64;
    while let Some(entry) = it.next(&bm, false) {
        let key = shown(&entry.unwrap());
        if n < 20 {
            let ahead = [&key[..], b"+"].concat();
            if !key.ends_with(b"+") {
                put(&mut bm, &ahead, b"v", 100 + n);
            }
            n += 1;
        }
        out.push(key);
    }
    assert!(out.windows(2).all(|w| w[0] < w[1]));
    assert_eq!(out.len(), 50);
}

#[test]
fn a_deleted_marker_still_marks_the_place() {
    let mut bm = filled(&[b"a", b"b", b"c", b"d"]);
    del(&mut bm, b"b", 9);
    for marker in [&b"a"[..], b"b", b"bb"] {
        let (keys, stats) = drain(RangeBuilder::new(ROOT).start_after(marker).into_iter(), &bm);
        assert_eq!(keys, owned(&[b"c", b"d"]));
        assert_eq!((stats.returned, stats.rollup), (2, 0));
    }
}

#[test]
fn visits_and_drained_scans_agree() {
    let bm = filled(&[b"p/1", b"p/2", b"q", b"r/1", b"s"]);
    let (keys, stats) = drain(RangeBuilder::new(ROOT).delimiter(b'/').into_iter(), &bm);
    assert_eq!(keys, owned(&[b"p/*", b"q", b"r/*", b"s"]));
    assert_eq!((stats.returned, stats.rollup), (2, 2));
    let scan = || KeyRangeBuilder::new(RangeBuilder::new(ROOT)).delimiter(b'/');
    let (stats, entries) = scan().visit(&bm, 100, &mut None, 0, false).unwrap();
    assert_eq!(entries.iter().map(shown_key).collect::<Vec<_>>(), keys);
    assert_eq!((stats.returned, stats.rollup), (2, 2));
    let (stats, entries) = scan().visit(&bm, 3, &mut None, 0, false).unwrap();
    assert_eq!(entries.iter().map(shown_key).collect::<Vec<_>>(), keys[..3].to_vec());
    assert_eq!((stats.returned, stats.rollup), (1, 2));
}

#[test]
fn lists_are_kept_only_when_asked() {
    let bm = filled(&[b"p/1", b"p/2", b"p/3"]);
    let mut cache = Some(PrefixListCache::new());
    let scan = KeyRangeBuilder::new(RangeBuilder::new(ROOT)).prefix(b"p/");
    for _ in 0..2 {
        let (outcome, entries) = scan.list(&bm, 2, &cache, 7, false).unwrap();
        assert!(!outcome.cache_hit);
        assert_eq!(entries.len(), 2);
    }
    let (_, entries) = scan.list(&bm, 2, &cache, 7, false).unwrap();
    scan.keep(2, &mut cache, 7, entries);
    let (outcome, entries) = scan.list(&bm, 2, &cache, 7, false).unwrap();
    assert!(outcome.cache_hit);
    assert_eq!(entries.iter().map(shown_key).collect::<Vec<_>>(), owned(&[b"p/1", b"p/2"]));
    assert!(!scan.list(&bm, 2, &cache, 8, false).unwrap().0.cache_hit);
    assert!(matches!(scan.list(&bm, 2, &cache, 7, true), Err(Error::TreeDropped)));
}

#[test]
fn every_leaf_on_the_way_counts_as_a_visit() {
    let mut bm = filled(&[b"a", b"b", b"c", b"d", b"e"]);
    del(&mut bm, b"b", 10);
    del(&mut bm, b"c", 11);
    let mut it = RangeBuilder::new(ROOT).into_iter();
    let mut visited = Vec::new();
    while let Some(entry) = it.next(&bm, false) {
        visited.push((shown(&entry.unwrap()), it.stats().visited));
    }
    assert_eq!(visited, vec![(b"a".to_vec(), 1), (b"d".to_vec(), 4), (b"e".to_vec(), 5)]);
    assert_eq!(it.stats().visited, 5);

    let (_, stats) = drain(RangeBuilder::new(ROOT).start_after(b"a").into_iter(), &bm);
    assert_eq!((stats.visited, stats.returned), (5, 2));

    // The leaf behind the prefix ends the scan.
    let (keys, stats) = drain(RangeBuilder::new(ROOT).prefix(b"d").into_iter(), &bm);
    assert_eq!(keys, owned(&[b"d"]));
    assert_eq!(stats.visited, 2);

    let bm = filled(&[b"p/1", b"p/2", b"p/3", b"q"]);
    let (keys, stats) = drain(RangeBuilder::new(ROOT).delimiter(b'/').into_iter(), &bm);
    assert_eq!(keys, owned(&[b"p/*", b"q"]));
    assert_eq!(stats, ScanStats { visited: 2, returned: 1, rollup: 1, restarts: 0 });
}

#[test]
fn the_error_of_a_visitor_ends_the_visit() {
    let bm = filled(&[b"a", b"b", b"c", b"d"]);
    let seen = RefCell::new(Vec::new());
    let fussy = |entry: KeyRangeEntryRef<'_>| {
        let entry = KeyRangeEntry::from_ref(entry);
        let stop = shown_key(&entry) == b"c";
        seen.borrow_mut().push(shown_key(&entry));
        if stop {
            Err(Error::TreeDropped)
        } else {
            Ok(())
        }
    };
    let mut cache = Some(PrefixListCache::new());
    let scan = || KeyRangeBuilder::new(RangeBuilder::new(ROOT));
    assert!(matches!(scan().visit_each(&bm, 10, &mut cache, 3, false, &fussy), Err(Error::TreeDropped)));
    assert_eq!(*seen.borrow(), owned(&[b"a", b"b", b"c"]));
    assert!(!scan().list(&bm, 10, &cache, 3, false).unwrap().0.cache_hit, "a list that was not taken is not kept");

    let calm = |_: KeyRangeEntryRef<'_>| Ok(());
    let outcome = scan().visit_each(&bm, 10, &mut cache, 3, false, &calm).unwrap();
    assert_eq!((outcome.cache_hit, outcome.stats.returned, outcome.stats.visited), (false, 4, 4));
    let outcome = scan().visit_each(&bm, 10, &mut cache, 3, false, &calm).unwrap();
    assert_eq!((outcome.cache_hit, outcome.stats.returned, outcome.stats.visited), (true, 4, 0));
    assert!(matches!(scan().visit_each(&bm, 10, &mut cache, 3, true, &calm), Err(Error::TreeDropped)));
    let (_, entries) = scan().list(&bm, 10, &cache, 3, false).unwrap();
    assert!(hand_out(&entries, &calm).is_ok());
}
