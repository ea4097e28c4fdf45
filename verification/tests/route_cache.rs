use holt::key::SearchKey;
use holt::layout::BlobGuid;
use holt::route_cache::{RouteCache, ROUTE_CACHE_CAPACITY};

const PARENT: BlobGuid = [1; 16];
const OTHER_PARENT: BlobGuid = [2; 16];
const CHILD: BlobGuid = [7; 16];

#[test]
fn learns_and_matches_longest_prefix() {
    let mut cache = RouteCache::new();
    cache.learn(SearchKey::user(b"bucket-01/a"), PARENT, 0, 3, [1; 16], 10);
    cache.learn(
        SearchKey::user(b"bucket-01/path/file"),
        PARENT,
        0,
        3,
        CHILD,
        15,
    );

    let hit = cache
        .lookup(SearchKey::user(b"bucket-01/path/other"))
        .unwrap();
    assert_eq!(hit.parent_guid, PARENT);
    assert_eq!(hit.parent_depth, 0);
    assert_eq!(hit.parent_version, 3);
    assert_eq!(hit.child_guid, CHILD);
    assert_eq!(hit.child_depth, 15);
}

#[test]
fn invalidate_removes_only_matching_stale_route() {
    let mut cache = RouteCache::new();
    cache.learn(
        SearchKey::user(b"bucket-01/path/file"),
        PARENT,
        0,
        3,
        CHILD,
        15,
    );
    cache.learn(
        SearchKey::user(b"bucket-02/path/file"),
        OTHER_PARENT,
        0,
        4,
        [9; 16],
        15,
    );

    let stale = cache
        .lookup(SearchKey::user(b"bucket-01/path/other"))
        .unwrap();
    cache.invalidate(SearchKey::user(b"bucket-01/path/other"), stale);

    assert!(cache
        .lookup(SearchKey::user(b"bucket-01/path/other"))
        .is_none());
    let hit = cache
        .lookup(SearchKey::user(b"bucket-02/path/other"))
        .unwrap();
    assert_eq!(hit.child_guid, [9; 16]);
    let stats = cache.stats();
    assert_eq!(stats.entries, 1);
    assert_eq!(stats.invalidations, 1);
}

#[test]
fn does_not_cache_prefix_past_user_key() {
    let mut cache = RouteCache::new();
    cache.learn(SearchKey::user(b"abc"), PARENT, 0, 1, CHILD, 4);

    assert!(cache.lookup(SearchKey::user(b"abc")).is_none());
}

#[test]
fn shorter_route_dominates_same_child_longer_route() {
    let mut cache = RouteCache::new();
    cache.learn(
        SearchKey::user(b"bucket-00/path/file"),
        PARENT,
        0,
        1,
        CHILD,
        10,
    );
    cache.learn(
        SearchKey::user(b"bucket-00/path/deeper/file"),
        PARENT,
        0,
        1,
        CHILD,
        15,
    );

    let stats = cache.stats();
    assert_eq!(stats.entries, 1);
    let hit = cache
        .lookup(SearchKey::user(b"bucket-00/path/deeper/other"))
        .unwrap();
    assert_eq!(hit.child_guid, CHILD);
    assert_eq!(hit.child_depth, 10);
}

#[test]
fn shorter_route_prunes_same_child_longer_route() {
    let mut cache = RouteCache::new();
    cache.learn(
        SearchKey::user(b"bucket-00/path/deeper/file"),
        PARENT,
        0,
        1,
        CHILD,
        15,
    );
    cache.learn(
        SearchKey::user(b"bucket-00/path/file"),
        PARENT,
        0,
        1,
        CHILD,
        10,
    );

    let stats = cache.stats();
    assert_eq!(stats.entries, 1);
    let hit = cache
        .lookup(SearchKey::user(b"bucket-00/path/deeper/other"))
        .unwrap();
    assert_eq!(hit.child_guid, CHILD);
    assert_eq!(hit.child_depth, 10);
}

#[test]
fn stats_track_hits_misses_and_replacements() {
    let mut cache = RouteCache::new();
    cache.learn(
        SearchKey::user(b"bucket-00/path/file"),
        PARENT,
        0,
        1,
        CHILD,
        15,
    );

    assert!(cache
        .lookup(SearchKey::user(b"bucket-00/path/other"))
        .is_some());
    assert!(cache
        .lookup(SearchKey::user(b"bucket-01/path/other"))
        .is_none());

    let stats = cache.stats();
    assert_eq!(stats.entries, 1);
    assert_eq!(stats.hits, 1);
    assert_eq!(stats.misses, 1);
    assert_eq!(stats.learns, 1);

    for i in 0..=ROUTE_CACHE_CAPACITY {
        let key = format!("bucket-{i:03}/path/file");
        cache.learn(
            SearchKey::user(key.as_bytes()),
            PARENT,
            0,
            1,
            [i as u8; 16],
            15,
        );
    }

    let stats = cache.stats();
    assert_eq!(stats.entries, ROUTE_CACHE_CAPACITY);
    assert!(stats.evictions > 0);
}

#[test]
fn stats_count_stale_invalidations() {
    let mut cache = RouteCache::new();
    cache.learn(
        SearchKey::user(b"bucket-00/path/file"),
        PARENT,
        0,
        1,
        CHILD,
        15,
    );
    let hit = cache
        .lookup(SearchKey::user(b"bucket-00/path/other"))
        .unwrap();
    cache.invalidate(SearchKey::user(b"bucket-00/path/other"), hit);

    let stats = cache.stats();
    assert_eq!(stats.entries, 0);
    assert_eq!(stats.invalidations, 1);
}

#[test]
fn refresh_parent_version_keeps_stable_edge_cached() {
    let mut cache = RouteCache::new();
    cache.learn(
        SearchKey::user(b"bucket-00/path/file"),
        PARENT,
        0,
        1,
        CHILD,
        15,
    );
    let hit = cache
        .lookup(SearchKey::user(b"bucket-00/path/other"))
        .unwrap();
    cache.refresh_parent_version(SearchKey::user(b"bucket-00/path/other"), hit, 7);

    let refreshed = cache
        .lookup(SearchKey::user(b"bucket-00/path/again"))
        .unwrap();
    assert_eq!(refreshed.parent_version, 7);
    assert_eq!(cache.stats().invalidations, 0);
}

#[test]
fn stale_longer_route_can_be_removed_to_expose_shorter_route() {
    let mut cache = RouteCache::new();
    cache.learn(
        SearchKey::user(b"bucket-00/path/deeper/file"),
        PARENT,
        0,
        1,
        [1; 16],
        21,
    );
    cache.learn(
        SearchKey::user(b"bucket-00/path/file"),
        OTHER_PARENT,
        0,
        2,
        CHILD,
        15,
    );

    let stale = cache
        .lookup(SearchKey::user(b"bucket-00/path/deeper/other"))
        .unwrap();
    assert_eq!(stale.child_guid, [1; 16]);
    cache.invalidate(SearchKey::user(b"bucket-00/path/deeper/other"), stale);

    let hit = cache
        .lookup(SearchKey::user(b"bucket-00/path/deeper/other"))
        .unwrap();
    assert_eq!(hit.child_guid, CHILD);
    assert_eq!(hit.child_depth, 15);

    let stats = cache.stats();
    assert_eq!(stats.entries, 1);
    assert_eq!(stats.hits, 2);
    assert_eq!(stats.invalidations, 1);
}

#[test]
fn different_parent_token_does_not_prune_longer_route() {
    let mut cache = RouteCache::new();
    cache.learn(
        SearchKey::user(b"bucket-00/path/deeper/file"),
        PARENT,
        0,
        1,
        [1; 16],
        21,
    );
    cache.learn(
        SearchKey::user(b"bucket-00/path/file"),
        OTHER_PARENT,
        0,
        1,
        CHILD,
        15,
    );

    let stats = cache.stats();
    assert_eq!(stats.entries, 2);
}

#[test]
fn non_root_parent_routes_are_not_cached() {
    let mut cache = RouteCache::new();
    cache.learn(
        SearchKey::user(b"bucket-00/path/deeper/file"),
        PARENT,
        12,
        1,
        [1; 16],
        21,
    );
    cache.learn(
        SearchKey::user(b"bucket-00/path/file"),
        PARENT,
        0,
        1,
        CHILD,
        15,
    );

    let stats = cache.stats();
    assert_eq!(stats.entries, 1);
    assert_eq!(stats.learns, 1);
}

#[test]
fn a_full_cache_drops_what_is_covered_before_it_evicts() {
    let mut cache = RouteCache::new();
    cache.learn(SearchKey::user(b"bucket-00/path/file"), PARENT, 0, 1, CHILD, 15);
    for i in 1..ROUTE_CACHE_CAPACITY {
        let key = format!("other-{i:05}/file");
        cache.learn(SearchKey::user(key.as_bytes()), PARENT, 0, 1, [i as u8; 16], 11);
    }
    assert_eq!(cache.stats().entries, ROUTE_CACHE_CAPACITY);
    // The shorter prefix makes the longer one needless.
    cache.learn(SearchKey::user(b"bucket-00/path/file"), PARENT, 0, 1, CHILD, 9);
    assert_eq!((cache.stats().entries, cache.stats().evictions), (ROUTE_CACHE_CAPACITY, 0));
    // With nothing to drop, a slot is taken.
    cache.learn(SearchKey::user(b"zzz/file"), PARENT, 0, 1, [0xEE; 16], 3);
    assert_eq!((cache.stats().entries, cache.stats().evictions), (ROUTE_CACHE_CAPACITY, 1));
    assert!(cache.lookup(SearchKey::user(b"zzz/other")).is_some());
}
