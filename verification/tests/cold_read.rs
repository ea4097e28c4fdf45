use holt::cold::{cold_read_routed_into, conclude, ColdBlobLookup, ColdBlobStamp, ColdPageCache, ColdPageReader, RoutedLookup};
use holt::erase::erase;
use holt::errors::Error;
use holt::frame::BlobFrame;
use holt::insert::insert;
use holt::insert_multi::insert_multi;
use holt::erase_multi::erase_multi;
use holt::key::SearchKey;
use holt::layout::{BlobGuid, PAGE_4K};
use holt::lookup_multi::{cold_read_routed, lookup_multi};
use holt::migrate::compact_blob;
use holt::route_cache::RouteCache;
use holt::store::{BufferManager, GuidSource};

fn store() -> BufferManager {
    BufferManager::new(GuidSource { nanos: 7, counter: 0, entropy: Some([1, 2, 3]) })
}

fn value(i: u8) -> Vec<u8> {
    if i % 7 == 0 {
        vec![i; 5000]
    } else {
        vec![i, i ^ 0xFF]
    }
}

fn routed_blob(guid: BlobGuid) -> BlobFrame {
    let mut frame = BlobFrame::init(guid);
    let mut seq = 1u64;
    for i in 0..60u8 {
        let root = frame.header.root_slot;
        insert(&mut frame, root, &[b'q', i], &value(i), seq).unwrap();
        seq += 1;
    }
    for i in 0..20u8 {
        let root = frame.header.root_slot;
        insert(&mut frame, root, &[b'p', i], &[i, 0xAB, i], seq).unwrap();
        seq += 1;
    }
    let root = frame.header.root_slot;
    for i in (0..60u8).step_by(2) {
        erase(&mut frame, root, &[b'q', i]).unwrap();
    }
    compact_blob(&mut frame).unwrap();
    assert!(frame.header.routing_len != 0, "test needs a routed blob");
    frame
}

/// The same records below a root of a store, rebuilt and out of memory.
fn routed_store(guid: BlobGuid) -> BufferManager {
    let mut bm = store();
    let at = bm.open_root(guid).unwrap();
    let mut routes: Option<RouteCache> = None;
    let mut seq = 1u64;
    for i in 0..60u8 {
        insert_multi(&mut bm, guid, &mut routes, SearchKey::exact(&[b'q', i]), &value(i), seq).unwrap();
        seq += 1;
    }
    for i in 0..20u8 {
        insert_multi(&mut bm, guid, &mut routes, SearchKey::exact(&[b'p', i]), &[i, 0xAB, i], seq).unwrap();
        seq += 1;
    }
    for i in (0..60u8).step_by(2) {
        assert!(erase_multi(&mut bm, guid, &mut routes, SearchKey::exact(&[b'q', i]), seq).unwrap().mutated);
    }
    bm.compact_at(at).unwrap();
    bm.evict(at);
    bm
}

#[test]
fn cold_page_reader_coalesces_adjacent_misses() {
    let guid = [0x41; 16];
    let image = BlobFrame::init(guid);
    let mut cache = ColdPageCache::new();

    let mut reader = ColdPageReader::new(&image, guid, true);
    reader.load_range(&mut cache, PAGE_4K, PAGE_4K * 4, true).expect("first cold range read");
    assert_eq!(reader.runs, vec![(1, 4)], "adjacent cache misses should be one backing read");
    assert!(reader.loaded[1]);
    assert!(reader.loaded[3]);
    assert!(!reader.loaded[0]);
    assert!(!reader.loaded[4]);

    let mut reader2 = ColdPageReader::new(&image, guid, true);
    reader2.load_range(&mut cache, PAGE_4K, PAGE_4K * 4, true).expect("second cold range read");
    assert_eq!(reader2.runs.len(), 0, "page cache should satisfy the second reader");
    assert!(reader2.loaded[1]);
    assert!(reader2.loaded[3]);
}

#[test]
fn production_cold_read_validates_routed_not_found() {
    let guid = [0x42; 16];
    let blob = routed_blob(guid);
    let mut cache = ColdPageCache::new();
    let mut reader = ColdPageReader::new(&blob, guid, true);
    assert!(
        matches!(
            cold_read_routed_into(&mut reader, &mut cache, SearchKey::exact(b"absent"), 0).unwrap(),
            RoutedLookup::NegativeHint
        ),
        "the routed core may prove local absence",
    );

    let mut bm = routed_store(guid);
    match cold_read_routed(&mut bm, 0, SearchKey::exact(&[b'q', 1]), 0) {
        ColdBlobLookup::Found { value, seq } => {
            assert_eq!(value, vec![1, 1 ^ 0xFF]);
            assert_eq!(seq, 2);
        }
        other => panic!("present key should stay on the positive cold path: {other:?}"),
    }
    assert!(
        matches!(cold_read_routed(&mut bm, 0, SearchKey::exact(b"absent"), 0), ColdBlobLookup::NotFound),
        "stable routed negatives should avoid the full pin",
    );
}

#[test]
fn production_cold_read_rejects_stale_routed_not_found() {
    let guid = [0x43; 16];
    let blob = routed_blob(guid);
    let mut derouted = blob.header;
    derouted.routing_len = 0;

    let mut cache = ColdPageCache::new();
    let mut reader = ColdPageReader::new(&blob, guid, true);
    let shown = cold_read_routed_into(&mut reader, &mut cache, SearchKey::exact(b"absent"), 0).unwrap();
    assert!(reader.read_from_store());
    let before = ColdBlobStamp::new(&blob.header);
    let after = ColdBlobStamp::new(&derouted);
    assert!(
        matches!(conclude(shown, true, true, before, after), ColdBlobLookup::Unknown),
        "a changed header stamp must force the authoritative full-pin path",
    );
}

#[test]
fn a_blob_in_memory_is_not_read_page_by_page() {
    let guid = [0x44; 16];
    let mut bm = routed_store(guid);
    bm.load(0);
    assert!(matches!(cold_read_routed(&mut bm, 0, SearchKey::exact(&[b'q', 1]), 0), ColdBlobLookup::Unknown));
}

#[test]
fn a_page_outside_the_blob_is_refused() {
    let guid = [0x45; 16];
    let image = BlobFrame::init(guid);
    let mut cache = ColdPageCache::new();
    let mut reader = ColdPageReader::new(&image, guid, true);
    assert!(matches!(reader.load_range(&mut cache, 0, PAGE_4K * 128 + 1, true), Err(Error::NodeCorrupt { .. })));
    assert_eq!(reader.runs.len(), 0);
}

#[test]
fn evicted_blobs_answer_as_before() {
    let guid = [0x46; 16];
    let mut bm = routed_store(guid);
    let mut routes = Some(RouteCache::new());
    for i in 0..60u8 {
        let hit = lookup_multi(&mut bm, guid, &mut routes, SearchKey::exact(&[b'q', i])).unwrap();
        if i % 2 == 0 {
            assert!(hit.is_none());
        } else {
            assert_eq!(hit, Some((value(i), i as u64 + 1)));
        }
    }
}

#[test]
fn cold_reads_keep_the_header_and_the_routing_pages() {
    let guid = [0x47; 16];
    let mut bm = routed_store(guid);
    let h = bm.blobs[0].frame.header;
    let leaves = (h.leaf_region_start / PAGE_4K) as u16;
    for i in (1..60u8).step_by(2) {
        assert!(matches!(cold_read_routed(&mut bm, 0, SearchKey::exact(&[b'q', i]), 0), ColdBlobLookup::Found { .. }));
        assert!(!bm.blobs[0].cached, "a cold read does not bring the blob into memory");
        assert!(bm.cold_pages.pages.iter().all(|p| p.0 == guid && p.1 < leaves));
    }
    assert!(bm.cold_pages.pages.contains(&(guid, 0)));
}
