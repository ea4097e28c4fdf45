//! Trusting and checking cached routes.
use vstd::prelude::*;

use crate::art::{step, Art, Route};
use crate::errors::{Error, Result};
use crate::forest::Forest;
use crate::key::SearchKey;
use crate::layout::{guid_eq, BlobGuid};
use crate::lookup::lookup_at;
use crate::route_cache::{learned, RouteCache, RouteHit};
use crate::store::{is_at, is_shared, lemma_map_at, newer, place, versioned, BufferManager};
use crate::types::LookupResult;

verus! {

/// Whether every key that begins with `prefix` crosses out of blob `root`
/// as `hit` says.
pub open spec fn edge_holds(f: Forest, root: BlobGuid, prefix: Seq<u8>, hit: RouteHit) -> bool {
    forall|key: Seq<u8>|
        prefix.is_prefix_of(key) ==> #[trigger] f.route(root, key) == (Route::Crossing {
            guid: hit.child_guid,
            depth: hit.child_depth as int,
        })
}

/// Whether `version` is the version of blob `g`, and one that is trusted.
pub open spec fn is_current(bm: BufferManager, g: BlobGuid, version: u64) -> bool {
    version < u64::MAX && bm.blobs@[place(bm.blobs@, g)].version == version
}

/// Whether the cached routes of the tree at `root` can be trusted: one made
/// at the root's current version holds.
pub open spec fn routes_ok(cache: Option<RouteCache>, bm: BufferManager, root: BlobGuid) -> bool {
    cache matches Some(c) ==> {
        &&& c.wf()
        &&& forall|p: Seq<u8>, h: RouteHit| #[trigger]
            c.has(p, h) ==> {
                &&& h.parent_guid == root
                &&& h.parent_version <= bm.edition
                &&& is_current(bm, root, h.parent_version) ==> edge_holds(bm.forest(), root, p, h)
            }
    }
}

/// Whether blob `root` is the root of a tree.
pub open spec fn is_root(bm: BufferManager, root: BlobGuid) -> bool {
    bm.has(root) && bm.base@[root].len() == 0
}

/// Changing blobs leaves no cached route trusted that no longer holds.
pub proof fn lemma_routes_kept(cache: Option<RouteCache>, a: BufferManager, b: BufferManager, root: BlobGuid)
    requires
        a.wf(),
        b.wf(),
        is_root(a, root),
        routes_ok(cache, a, root),
        versioned(a, b),
    ensures
        routes_ok(cache, b, root),
        is_root(b, root),
{
    let i = choose|i: int| #[trigger] is_at(a.blobs@, i, root);
    lemma_map_at(a.blobs@, i);
    assert(a.blobs@[i].guid == b.blobs@[i].guid);
    lemma_map_at(b.blobs@, i);
    if let Some(c) = cache {
        assert forall|p: Seq<u8>, h: RouteHit| #[trigger] c.has(p, h) implies {
            &&& h.parent_guid == root
            &&& h.parent_version <= b.edition
            &&& is_current(b, root, h.parent_version) ==> edge_holds(b.forest(), root, p, h)
        } by {
            if is_current(b, root, h.parent_version) {
                let y = b.blobs@[i];
                assert(!newer(y.version, a.edition));
                assert(is_current(a, root, h.parent_version));
                assert forall|key: Seq<u8>| p.is_prefix_of(key) implies #[trigger] b.forest().route(root, key) == (Route::Crossing {
                    guid: h.child_guid,
                    depth: h.child_depth as int,
                }) by {
                    assert(a.forest().route(root, key) == b.forest().route(root, key));
                }
            }
        }
    }
}

/// Fewer routes are no less trustworthy.
pub proof fn lemma_routes_within(c0: RouteCache, c: RouteCache, bm: BufferManager, root: BlobGuid)
    requires
        routes_ok(Some(c0), bm, root),
        c.wf(),
        forall|p: Seq<u8>, h: RouteHit| #[trigger] c.has(p, h) ==> c0.has(p, h),
    ensures
        routes_ok(Some(c), bm, root),
{
    assert forall|p: Seq<u8>, h: RouteHit| #[trigger] c.has(p, h) implies {
        &&& h.parent_guid == root
        &&& h.parent_version <= bm.edition
        &&& is_current(bm, root, h.parent_version) ==> edge_holds(bm.forest(), root, p, h)
    } by {
        assert(c0.has(p, h));
    }
}

/// A crossing depends only on the key bytes consumed on the way to it: keys
/// that share those bytes cross alike.
pub proof fn crossing_depends_on_consumed_bytes(t: Art, key: Seq<u8>, other: Seq<u8>, d: int)
    requires
        step(t, key, d) is Crossing,
        0 <= d,
        step(t, key, d)->depth <= other.len(),
        other.take(step(t, key, d)->depth) == key.take(step(t, key, d)->depth),
    ensures
        d <= step(t, key, d)->depth <= key.len(),
        step(t, other, d) == step(t, key, d),
    decreases t,
{
    lemma_crossing_depth(t, key, d);
    let e = step(t, key, d)->depth;
    assert forall|i: int| 0 <= i < e implies other[i] == key[i] by {
        assert(other.take(e)[i] == key.take(e)[i]);
    }
    match t {
        Art::Prefix { bytes, child, .. } => {
            lemma_crossing_depth(*child, key, d + bytes.len());
            assert(other.subrange(d, d + bytes.len()) =~= key.subrange(d, d + bytes.len()));
            crossing_depends_on_consumed_bytes(*child, key, other, d + bytes.len());
        },
        Art::Inner { kids, .. } => {
            lemma_crossing_depth(kids[key[d] as int]->0, key, d + 1);
            crossing_depends_on_consumed_bytes(kids[key[d] as int]->0, key, other, d + 1);
        },
        Art::Blob { bytes, .. } => {
            assert(other.subrange(d, d + bytes.len()) =~= key.subrange(d, d + bytes.len()));
        },
        _ => {},
    }
}

/// A crossing consumes bytes of the key.
pub proof fn lemma_crossing_depth(t: Art, key: Seq<u8>, d: int)
    requires
        step(t, key, d) is Crossing,
        0 <= d,
    ensures
        d <= step(t, key, d)->depth <= key.len(),
    decreases t,
{
    match t {
        Art::Prefix { bytes, child, .. } => lemma_crossing_depth(*child, key, d + bytes.len()),
        Art::Inner { kids, .. } => lemma_crossing_depth(kids[key[d] as int]->0, key, d + 1),
        _ => {},
    }
}

/// A crossing of one key is a route for all keys with its consumed bytes.
pub proof fn lemma_edge_holds(bm: BufferManager, root: BlobGuid, key: Seq<u8>, prefix: Seq<u8>, hit: RouteHit)
    requires
        bm.wf(),
        is_root(bm, root),
        bm.forest().route(root, key) == (Route::Crossing { guid: hit.child_guid, depth: hit.child_depth as int }),
        prefix.len() == hit.child_depth,
        prefix.is_prefix_of(key),
    ensures
        edge_holds(bm.forest(), root, prefix, hit),
{
    let f = bm.forest();
    assert forall|other: Seq<u8>| prefix.is_prefix_of(other) implies #[trigger] f.route(root, other) == (Route::Crossing {
        guid: hit.child_guid,
        depth: hit.child_depth as int,
    }) by {
        assert(other.take(prefix.len() as int) =~= prefix);
        assert(key.take(prefix.len() as int) =~= prefix);
        crossing_depends_on_consumed_bytes(f.blobs[root].tree(), key, other, 0);
    }
}

/// Whether `key` still crosses out of blob `at` as `route` says.
pub fn validate_route_edge(bm: &BufferManager, at: usize, key: SearchKey, route: RouteHit) -> (r: Result<bool>)
    requires
        bm.wf(),
        at < bm.blobs@.len(),
        route.parent_depth <= key@.len() <= usize::MAX,
    ensures
        r == Ok::<bool, Error>(
            bm.blobs@[at as int].frame.route(key@, route.parent_depth as int) == (Route::Crossing {
                guid: route.child_guid,
                depth: route.child_depth as int,
            }),
        ),
{
    proof {
        lemma_map_at(bm.blobs@, at as int);
        assert(bm.forest().has(bm.blobs@[at as int].guid));
    }
    match lookup_at(&bm.blobs[at].frame, key, route.parent_depth) {
        Ok(LookupResult::Crossing(c)) => Ok(guid_eq(&c.child_guid, &route.child_guid) && c.child_depth == route.child_depth),
        Ok(_) => Ok(false),
        Err(e) => Err(e),
    }
}

/// Records the crossing of `key` out of the root, as it is now.
pub fn learn_crossing(bm: &BufferManager, root: usize, cache: &mut Option<RouteCache>, key: SearchKey, child_guid: BlobGuid, child_depth: usize)
    requires
        bm.wf(),
        root < bm.blobs@.len(),
        is_root(*bm, bm.blobs@[root as int].guid),
        routes_ok(*old(cache), *bm, bm.blobs@[root as int].guid),
        bm.forest().route(bm.blobs@[root as int].guid, key@) == (Route::Crossing { guid: child_guid, depth: child_depth as int }),
    ensures
        routes_ok(*final(cache), *bm, bm.blobs@[root as int].guid),
        *final(cache) is Some <==> *old(cache) is Some,
        *old(cache) matches Some(c0) ==> (*final(cache) matches Some(c) && if child_depth <= key.bytes@.len() && child_depth
            <= crate::route_cache::ROUTE_PREFIX_MAX {
            learned(
                c0,
                c,
                key.bytes@.take(child_depth as int),
                RouteHit {
                    parent_guid: bm.blobs@[root as int].guid,
                    parent_depth: 0,
                    parent_version: bm.blobs@[root as int].version,
                    child_guid,
                    child_depth,
                },
            )
        } else {
            c == c0
        }),
{
    if let Some(c) = cache {
        let ghost c0 = *c;
        let ghost g = bm.blobs@[root as int].guid;
        let guid: BlobGuid = bm.blobs[root].guid;
        let version: u64 = bm.blobs[root].version;
        c.learn(key, guid, 0, version, child_guid, child_depth);
        proof {
            let hit = RouteHit { parent_guid: g, parent_depth: 0, parent_version: version, child_guid, child_depth };
            if child_depth <= key.bytes@.len() && child_depth <= crate::route_cache::ROUTE_PREFIX_MAX {
                let prefix = key.bytes@.take(child_depth as int);
                assert(prefix.is_prefix_of(key@)) by {
                    assert(key@.subrange(0, child_depth as int) =~= prefix);
                }
                lemma_edge_holds(*bm, g, key@, prefix, hit);
                let c1 = *c;
                assert forall|p: Seq<u8>, h: RouteHit| #[trigger] c1.has(p, h) implies {
                    &&& h.parent_guid == g
                    &&& h.parent_version <= bm.edition
                    &&& is_current(*bm, g, h.parent_version) ==> edge_holds(bm.forest(), g, p, h)
                } by {
                    if !(p == prefix && h == hit) {
                        assert(c0.has(p, h)) by {
                            if c1.entries@ == c0.entries@ {
                                let k = choose|k: int| 0 <= k < c1.entries@.len() && (#[trigger] c1.entries@[k]).prefix@ == p && c1.entries@[k].hit == h;
                                assert(c0.entries@[k].prefix@ == p);
                            }
                        }
                    }
                }
            }
        }
    }
}

/// Whether `hit` is the cached route with the longest prefix that `bytes`
/// begins with.
pub open spec fn offers(c: RouteCache, bytes: Seq<u8>, hit: RouteHit) -> bool {
    &&& hit.child_depth <= bytes.len()
    &&& c.has(bytes.take(hit.child_depth as int), hit)
    &&& forall|p: Seq<u8>, h: RouteHit| #[trigger] c.has(p, h) && p.is_prefix_of(bytes) ==> p.len() <= hit.child_depth
}

/// Whether the route that the cache offers is the crossing by which the key
/// `key`, with the user bytes `bytes`, leaves blob `root`.
pub open spec fn knows_way(cache: Option<RouteCache>, f: Forest, root: BlobGuid, bytes: Seq<u8>, key: Seq<u8>) -> bool {
    cache matches Some(c) && exists|h: RouteHit| #[trigger]
        offers(c, bytes, h) && f.route(root, key) == (Route::Crossing { guid: h.child_guid, depth: h.child_depth as int })
}

/// Whether `key` crosses out of blob `root` into a child that no snapshot may
/// see.
pub open spec fn crosses_freely(bm: BufferManager, root: BlobGuid, key: Seq<u8>) -> bool {
    bm.forest().route(root, key) matches Route::Crossing { guid, .. } && !is_shared(bm.forest().blobs[guid], bm.fork_barrier)
}

/// A cache offers at most one route.
proof fn lemma_one_offer(c: RouteCache, bytes: Seq<u8>, a: RouteHit, b: RouteHit)
    requires
        c.wf(),
        offers(c, bytes, a),
        offers(c, bytes, b),
    ensures
        a == b,
{
    let pa = bytes.take(a.child_depth as int);
    let pb = bytes.take(b.child_depth as int);
    assert(pa.is_prefix_of(bytes) && pb.is_prefix_of(bytes));
    let i = choose|i: int| 0 <= i < c.entries@.len() && (#[trigger] c.entries@[i]).prefix@ == pa && c.entries@[i].hit == a;
    let j = choose|j: int| 0 <= j < c.entries@.len() && (#[trigger] c.entries@[j]).prefix@ == pb && c.entries@[j].hit == b;
    if i < j {
        assert(c.entries@[i].prefix@ != c.entries@[j].prefix@);
    } else if j < i {
        assert(c.entries@[j].prefix@ != c.entries@[i].prefix@);
    }
}

/// The child that a cached route leads `key` to, after checking the route
/// against the root's version or the root itself.
pub fn follow_route(bm: &BufferManager, root: usize, cache: &mut Option<RouteCache>, key: SearchKey) -> (r: Result<Option<(usize, usize)>>)
    requires
        bm.wf(),
        root < bm.blobs@.len(),
        is_root(*bm, bm.blobs@[root as int].guid),
        routes_ok(*old(cache), *bm, bm.blobs@[root as int].guid),
        key@.len() <= usize::MAX,
    ensures
        routes_ok(*final(cache), *bm, bm.blobs@[root as int].guid),
        *final(cache) is Some <==> *old(cache) is Some,
        r matches Ok(x) && (x matches Some((i, depth)) ==> {
            &&& i < bm.blobs@.len()
            &&& bm.forest().route(bm.blobs@[root as int].guid, key@) == (Route::Crossing { guid: bm.blobs@[i as int].guid, depth: depth as int })
        }),
        r matches Ok(Some(_)) <==> knows_way(*old(cache), bm.forest(), bm.blobs@[root as int].guid, key.bytes@, key@),
{
    let ghost g = bm.blobs@[root as int].guid;
    proof {
        lemma_map_at(bm.blobs@, root as int);
    }
    if let Some(c) = cache {
        let ghost c0 = *c;
        let route: RouteHit = match c.lookup(key) {
            Some(h) => h,
            None => {
                proof {
                    lemma_same_entries(c0, *c, *bm, g);
                    assert forall|h: RouteHit| !#[trigger] offers(c0, key.bytes@, h) by {
                        let p = key.bytes@.take(h.child_depth as int);
                        if offers(c0, key.bytes@, h) {
                            assert(c0.has(p, h));
                            assert(p.is_prefix_of(key.bytes@));
                        }
                    }
                }
                return Ok(None);
            },
        };
        let ghost c1 = *c;
        let ghost prefix = key.bytes@.take(route.child_depth as int);
        proof {
            lemma_same_entries(c0, *c, *bm, g);
            assert(c0.has(prefix, route));
            assert(offers(c0, key.bytes@, route));
            assert forall|h: RouteHit| #[trigger] offers(c0, key.bytes@, h) implies h == route by {
                lemma_one_offer(c0, key.bytes@, h, route);
            }
            assert(bm.forest().has(g));
            assert(bm.forest().edge_ok(g, key@));
            let k = choose|k: int| 0 <= k < c0.entries@.len() && (#[trigger] c0.entries@[k]).prefix@ == prefix && c0.entries@[k].hit == route;
            assert(c1.entries@[k].prefix@ == prefix);
            assert(c1.has(prefix, route));
            assert(prefix.is_prefix_of(key@)) by {
                assert(key@.subrange(0, route.child_depth as int) =~= prefix);
            }
        }
        let version: u64 = bm.blobs[root].version;
        if version != route.parent_version || version == u64::MAX {
            match validate_route_edge(bm, root, key, route) {
                Ok(true) => {
                    proof {
                        lemma_edge_holds(*bm, g, key@, prefix, route);
                    }
                    c.refresh_parent_version(key, route, version);
                    proof {
                        let c2 = *c;
                        assert forall|p: Seq<u8>, h: RouteHit| #[trigger] c2.has(p, h) implies {
                            &&& h.parent_guid == g
                            &&& h.parent_version <= bm.edition
                            &&& is_current(*bm, g, h.parent_version) ==> edge_holds(bm.forest(), g, p, h)
                        } by {
                            if !c1.has(p, h) {
                                assert(p == prefix && h == (RouteHit { parent_version: version, ..route }));
                                assert(edge_holds(bm.forest(), g, prefix, route));
                                assert forall|x: Seq<u8>| p.is_prefix_of(x) implies #[trigger] bm.forest().route(g, x) == (Route::Crossing {
                                    guid: h.child_guid,
                                    depth: h.child_depth as int,
                                }) by {}
                            }
                        }
                    }
                },
                _ => {
                    c.invalidate(key, route);
                    proof {
                        lemma_routes_within(c1, *c, *bm, g);
                    }
                    return Ok(None);
                },
            }
        }
        assert(bm.forest().route(g, key@) == (Route::Crossing { guid: route.child_guid, depth: route.child_depth as int }));
        match bm.pin(route.child_guid) {
            Ok(i) => Ok(Some((i, route.child_depth))),
            Err(_) => {
                let ghost c3 = *c;
                c.invalidate(key, route);
                proof {
                    lemma_routes_within(c3, *c, *bm, g);
                }
                Ok(None)
            },
        }
    } else {
        Ok(None)
    }
}

/// A cache with the same entries is as trustworthy.
proof fn lemma_same_entries(c0: RouteCache, c: RouteCache, bm: BufferManager, root: BlobGuid)
    requires
        routes_ok(Some(c0), bm, root),
        c.wf(),
        c.entries@ == c0.entries@,
    ensures
        routes_ok(Some(c), bm, root),
{
    assert forall|p: Seq<u8>, h: RouteHit| #[trigger] c.has(p, h) implies c0.has(p, h) by {
        let k = choose|k: int| 0 <= k < c.entries@.len() && (#[trigger] c.entries@[k]).prefix@ == p && c.entries@[k].hit == h;
        assert(c0.entries@[k].prefix@ == p);
    }
    lemma_routes_within(c0, c, bm, root);
}

} // verus!
