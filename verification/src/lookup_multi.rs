//! Looking a key up in a tree that spans many blobs.
use vstd::prelude::*;

use crate::art::Route;
use crate::cold::{cold_read_routed_into, cold_route, conclude, in_order, routing_pages, ColdBlobLookup, ColdBlobStamp, ColdPageReader};
use crate::errors::Result;
use crate::insert::copy_bytes;
use crate::insert_multi::enters;
use crate::key::SearchKey;
use crate::layout::BlobGuid;
use crate::lookup::lookup_at;
use crate::route::{follow_route, is_root, knows_way, learn_crossing, lemma_routes_kept, routes_ok};
use crate::route_cache::RouteCache;
use crate::store::{lemma_map_at, lemma_only_read_trans, lemma_remarked, only_read, remarked, BufferManager, CachedBlob};
use crate::types::{BlobNodeCrossing, LookupHit, LookupResult};

verus! {

/// A record, copied out of its blob.
pub type OwnedHit = (Vec<u8>, u64);

/// The route that a record, or none, stands for.
pub open spec fn hit_route(hit: Option<OwnedHit>) -> Route {
    match hit {
        Some((value, seq)) => Route::Found { value: value@, seq },
        None => Route::NotFound,
    }
}

/// How a step into a blob that may not be in memory went.
pub enum ColdLookupOrPin {
    /// The lookup is over.
    Done(Option<OwnedHit>),
    /// The blob at this entry, now in memory, is to be looked at.
    Pin { at: usize, depth: usize },
}

impl BufferManager {
    /// Whether entry `at` is in the store only and stays there.
    pub fn cold_read_eligible(&self, at: usize) -> (r: bool)
        requires
            at < self.blobs@.len(),
        ensures
            r == (!self.blobs@[at as int].cached && !self.fenced(self.blobs@[at as int].guid)),
    {
        !self.blobs[at].cached && !self.has_delete_fence(self.blobs[at].guid)
    }

    /// Drops entry `at` from memory; it stays in the store.
    pub fn evict(&mut self, at: usize)
        requires
            at < old(self).blobs@.len(),
            old(self).wf(),
        ensures
            remarked(*old(self), *final(self)),
            final(self).wf(),
            !final(self).blobs@[at as int].cached,
            final(self).blobs@[at as int].dirty is None,
            final(self).blobs@ == old(self).blobs@.update(at as int, CachedBlob { cached: false, dirty: None, ..old(self).blobs@[at as int] }),
            *final(self) == (BufferManager { blobs: final(self).blobs, cold_pages: final(self).cold_pages, ..*old(self) }),
            forall|g: BlobGuid, p: int| !#[trigger] final(self).cold_pages.has(g, p),
    {
        let ghost before = *self;
        self.blobs[at].cached = false;
        self.blobs[at].dirty = None;
        self.cold_pages = crate::cold::ColdPageCache::new();
        proof {
            lemma_remarked(before, *self);
        }
    }
}

/// Looks `key` up in entry `at` page by page, if the entry is in the store
/// only.
pub fn cold_read_routed(bm: &mut BufferManager, at: usize, key: SearchKey, depth: usize) -> (r: ColdBlobLookup)
    requires
        old(bm).wf(),
        at < old(bm).blobs@.len(),
        depth <= key@.len() <= usize::MAX,
    ensures
        old(bm).base@[old(bm).blobs@[at as int].guid].len() == depth ==> only_read(*old(bm), *final(bm), key@, true),
        *final(bm) == (BufferManager { cold_pages: final(bm).cold_pages, ..*old(bm) }),
        old(bm).blobs@[at as int].cached || old(bm).fenced(old(bm).blobs@[at as int].guid) ==> *final(bm) == *old(bm),
        // Just the header page and the internal nodes on the way are kept.
        !old(bm).blobs@[at as int].cached && !old(bm).fenced(old(bm).blobs@[at as int].guid) && in_order(old(bm).blobs@[at as int].frame)
            ==> forall|h: BlobGuid, p: int| #[trigger]
            final(bm).cold_pages.has(h, p) <==> old(bm).cold_pages.has(h, p) || (h == old(bm).blobs@[at as int].guid && (p == 0 || routing_pages(
                old(bm).blobs@[at as int].frame.cells@,
                old(bm).blobs@[at as int].frame.tree(),
                key@,
                depth as int,
            ).contains(p))),
        cold_route(r) matches Some(route) ==> route == old(bm).blobs@[at as int].frame.route(key@, depth as int),
        r matches ColdBlobLookup::Crossing { child_depth, .. } ==> depth <= child_depth <= key@.len(),
        old(bm).blobs@[at as int].cached || old(bm).fenced(old(bm).blobs@[at as int].guid) ==> r is Unknown,
        !old(bm).blobs@[at as int].cached && !old(bm).fenced(old(bm).blobs@[at as int].guid) && in_order(old(bm).blobs@[at as int].frame)
            ==> !(r is Unknown),
        old(bm).blobs@[at as int].frame.header.routing_len == 0 ==> r is Unknown,
{
    if !bm.cold_read_eligible(at) {
        return ColdBlobLookup::Unknown;
    }
    let ghost b0 = *bm;
    proof {
        lemma_map_at(bm.blobs@, at as int);
        assert(bm.forest().has(bm.blobs@[at as int].guid));
    }
    let before: ColdBlobStamp = ColdBlobStamp::new(&bm.blobs[at].frame.header);
    let mut pages = ColdPageReader::new(&bm.blobs[at].frame, bm.blobs[at].guid, true);
    let shown = cold_read_routed_into(&mut pages, &mut bm.cold_pages, key, depth);
    let from_store: bool = pages.read_from_store();
    match shown {
        Ok(s) => {
            let after: ColdBlobStamp = ColdBlobStamp::new(&bm.blobs[at].frame.header);
            let eligible: bool = bm.cold_read_eligible(at);
            conclude(s, from_store, eligible, before, after)
        },
        Err(_) => ColdBlobLookup::Unknown,
    }
}

/// Goes into the blob that a crossing leads to: page by page as long as that
/// answers, then with the whole blob in memory.
pub fn cold_lookup_or_pin(bm: &mut BufferManager, key: SearchKey, crossing: BlobNodeCrossing) -> (r: Result<ColdLookupOrPin>)
    requires
        old(bm).wf(),
        old(bm).has(crossing.child_guid),
        old(bm).forest().below(crossing.child_guid, key@),
        old(bm).base@[crossing.child_guid].len() == crossing.child_depth,
        key@.len() <= usize::MAX,
    ensures
        only_read(*old(bm), *final(bm), key@, key.virtual_terminator),
        match r {
            Ok(ColdLookupOrPin::Done(hit)) => hit_route(hit) == old(bm).forest().find(crossing.child_guid, key@),
            Ok(ColdLookupOrPin::Pin { at, depth }) => {
                &&& enters(*final(bm), at as int, key@, depth as int)
                &&& final(bm).blobs@[at as int].cached
                &&& old(bm).forest().find(final(bm).blobs@[at as int].guid, key@) == old(bm).forest().find(crossing.child_guid, key@)
                &&& old(bm).rank@[final(bm).blobs@[at as int].guid] <= old(bm).rank@[crossing.child_guid]
            },
            Err(_) => false,
        },
{
    let ghost b0 = *bm;
    let ghost f = bm.forest();
    let mut guid: BlobGuid = crossing.child_guid;
    let mut depth: usize = crossing.child_depth;
    // Keys without the terminator are looked up in memory only.
    let cold: bool = key.virtual_terminator;
    loop
        invariant
            b0.wf(),
            b0 == *old(bm),
            f == b0.forest(),
            only_read(b0, *bm, key@, key.virtual_terminator),
            f.has(guid),
            f.below(guid, key@),
            f.base[guid].len() == depth,
            key@.len() <= usize::MAX,
            cold == key.virtual_terminator,
            f.find(guid, key@) == f.find(crossing.child_guid, key@),
            f.rank[guid] <= f.rank[crossing.child_guid],
        decreases f.rank[guid],
    {
        proof {
            lemma_remarked(b0, *bm);
            assert(f.edge_ok(guid, key@));
        }
        let ghost b1 = *bm;
        let at: usize = match bm.pin(guid) {
            Ok(i) => i,
            Err(e) => {
                assert(false);
                return Err(e);
            },
        };
        let seen: ColdBlobLookup = if cold {
            cold_read_routed(bm, at, key, depth)
        } else {
            ColdBlobLookup::Unknown
        };
        proof {
            lemma_only_read_trans(b0, b1, *bm, key@, key.virtual_terminator);
            lemma_remarked(b0, *bm);
        }
        match seen {
            ColdBlobLookup::Unknown => {
                let ghost b2 = *bm;
                bm.load(at);
                proof {
                    lemma_only_read_trans(b0, b2, *bm, key@, key.virtual_terminator);
                }
                return Ok(ColdLookupOrPin::Pin { at, depth });
            },
            ColdBlobLookup::NotFound => {
                return Ok(ColdLookupOrPin::Done(None));
            },
            ColdBlobLookup::Found { value, seq } => {
                return Ok(ColdLookupOrPin::Done(Some((value, seq))));
            },
            ColdBlobLookup::Crossing { child_guid, child_depth } => {
                guid = child_guid;
                depth = child_depth;
            },
        }
    }
}

/// Looks `key` up from entry `start` on.
pub fn lookup_from_pinned_blob(bm: &mut BufferManager, key: SearchKey, start: usize, start_depth: usize) -> (r: Result<Option<OwnedHit>>)
    requires
        enters(*old(bm), start as int, key@, start_depth as int),
        key@.len() <= usize::MAX,
    ensures
        only_read(*old(bm), *final(bm), key@, key.virtual_terminator),
        r matches Ok(hit) && hit_route(hit) == old(bm).forest().find(old(bm).blobs@[start as int].guid, key@),
{
    let ghost b0 = *bm;
    let ghost f = bm.forest();
    let ghost g0 = bm.blobs@[start as int].guid;
    let mut at: usize = start;
    let mut depth: usize = start_depth;
    loop
        invariant
            b0.wf(),
            b0 == *old(bm),
            f == b0.forest(),
            only_read(b0, *bm, key@, key.virtual_terminator),
            enters(*bm, at as int, key@, depth as int),
            key@.len() <= usize::MAX,
            g0 == b0.blobs@[start as int].guid,
            f.find(bm.blobs@[at as int].guid, key@) == f.find(g0, key@),
        decreases f.rank[bm.blobs@[at as int].guid],
    {
        let ghost g = bm.blobs@[at as int].guid;
        proof {
            lemma_remarked(b0, *bm);
            lemma_map_at(bm.blobs@, at as int);
            assert(f.has(g));
            assert(f.edge_ok(g, key@));
        }
        let crossing: BlobNodeCrossing = match lookup_at(&bm.blobs[at].frame, key, depth) {
            Ok(LookupResult::Found(hit)) => {
                return Ok(Some((copy_bytes(hit.value), hit.seq)));
            },
            Ok(LookupResult::NotFound) => {
                return Ok(None);
            },
            Ok(LookupResult::Crossing(c)) => c,
            Err(e) => {
                return Err(e);
            },
        };
        let ghost b1 = *bm;
        let next = cold_lookup_or_pin(bm, key, crossing);
        proof {
            lemma_only_read_trans(b0, b1, *bm, key@, key.virtual_terminator);
        }
        match next {
            Ok(ColdLookupOrPin::Done(hit)) => {
                return Ok(hit);
            },
            Ok(ColdLookupOrPin::Pin { at: a, depth: d }) => {
                at = a;
                depth = d;
            },
            Err(e) => {
                return Err(e);
            },
        }
    }
}

/// Looks `key` up below the child of a root that it crosses into.
fn lookup_from_crossing(bm: &mut BufferManager, key: SearchKey, crossing: BlobNodeCrossing) -> (r: Result<Option<OwnedHit>>)
    requires
        old(bm).wf(),
        old(bm).has(crossing.child_guid),
        old(bm).forest().below(crossing.child_guid, key@),
        old(bm).base@[crossing.child_guid].len() == crossing.child_depth,
        key@.len() <= usize::MAX,
    ensures
        only_read(*old(bm), *final(bm), key@, key.virtual_terminator),
        r matches Ok(hit) && hit_route(hit) == old(bm).forest().find(crossing.child_guid, key@),
{
    let ghost b0 = *bm;
    let next = cold_lookup_or_pin(bm, key, crossing);
    let ghost b1 = *bm;
    proof {
        lemma_remarked(b0, b1);
    }
    match next {
        Ok(ColdLookupOrPin::Done(hit)) => Ok(hit),
        Ok(ColdLookupOrPin::Pin { at, depth }) => {
            let r = lookup_from_pinned_blob(bm, key, at, depth);
            proof {
                lemma_only_read_trans(b0, b1, *bm, key@, key.virtual_terminator);
            }
            r
        },
        Err(e) => Err(e),
    }
}

/// Looks `key` up over a cached route, if there is one that holds.
fn lookup_from_cached_route(bm: &mut BufferManager, root: usize, cache: &mut Option<RouteCache>, key: SearchKey) -> (r: Result<
    Option<Option<OwnedHit>>,
>)
    requires
        old(bm).wf(),
        root < old(bm).blobs@.len(),
        is_root(*old(bm), old(bm).blobs@[root as int].guid),
        routes_ok(*old(cache), *old(bm), old(bm).blobs@[root as int].guid),
        key@.len() <= usize::MAX,
    ensures
        only_read(*old(bm), *final(bm), key@, key.virtual_terminator),
        routes_ok(*final(cache), *final(bm), old(bm).blobs@[root as int].guid),
        *final(cache) is Some <==> *old(cache) is Some,
        match r {
            Ok(Some(hit)) => hit_route(hit) == old(bm).forest().find(old(bm).blobs@[root as int].guid, key@),
            Ok(None) => *final(bm) == *old(bm),
            Err(_) => false,
        },
        r matches Ok(Some(_)) <==> knows_way(*old(cache), old(bm).forest(), old(bm).blobs@[root as int].guid, key.bytes@, key@),
{
    let ghost b0 = *bm;
    let ghost g = bm.blobs@[root as int].guid;
    let (child, depth): (usize, usize) = match follow_route(bm, root, cache, key) {
        Ok(Some(x)) => x,
        _ => {
            return Ok(None);
        },
    };
    let crossing = BlobNodeCrossing { child_guid: bm.blobs[child].guid, child_depth: depth };
    proof {
        lemma_map_at(b0.blobs@, root as int);
        assert(b0.forest().below(g, key@)) by {
            assert(b0.base@[g] =~= key@.subrange(0, 0));
        }
        assert(b0.forest().edge_ok(g, key@));
    }
    let r = lookup_from_crossing(bm, key, crossing);
    proof {
        lemma_remarked(b0, *bm);
        lemma_routes_kept(*cache, b0, *bm, g);
    }
    match r {
        Ok(hit) => Ok(Some(hit)),
        Err(e) => Err(e),
    }
}

/// Looks `key` up in the tree at `root`.
pub fn lookup_multi(bm: &mut BufferManager, root: BlobGuid, route_cache: &mut Option<RouteCache>, key: SearchKey) -> (r: Result<
    Option<OwnedHit>,
>)
    requires
        old(bm).wf(),
        is_root(*old(bm), root),
        routes_ok(*old(route_cache), *old(bm), root),
        key@.len() <= usize::MAX,
    ensures
        only_read(*old(bm), *final(bm), key@, key.virtual_terminator),
        final(bm).wf(),
        is_root(*final(bm), root),
        final(bm).forest() == old(bm).forest(),
        routes_ok(*final(route_cache), *final(bm), root),
        *final(route_cache) is Some <==> *old(route_cache) is Some,
        r matches Ok(hit) && hit_route(hit) == old(bm).forest().find(root, key@),
{
    let ghost b0 = *bm;
    let at: usize = match bm.pin(root) {
        Ok(i) => i,
        Err(e) => {
            assert(false);
            return Err(e);
        },
    };
    match lookup_from_cached_route(bm, at, route_cache, key) {
        Ok(Some(hit)) => {
            proof {
                lemma_remarked(b0, *bm);
                lemma_routes_kept(None, b0, *bm, root);
            }
            return Ok(hit);
        },
        Ok(None) => {},
        Err(e) => {
            return Err(e);
        },
    }
    proof {
        assert(b0.forest().has(root));
        assert(b0.forest().below(root, key@)) by {
            assert(b0.base@[root] =~= key@.subrange(0, 0));
        }
        assert(b0.forest().edge_ok(root, key@));
    }
    let crossing: BlobNodeCrossing = match lookup_at(&bm.blobs[at].frame, key, 0) {
        Ok(LookupResult::Found(hit)) => {
            return Ok(Some((copy_bytes(hit.value), hit.seq)));
        },
        Ok(LookupResult::NotFound) => {
            return Ok(None);
        },
        Ok(LookupResult::Crossing(c)) => c,
        Err(e) => {
            return Err(e);
        },
    };
    learn_crossing(bm, at, route_cache, key, crossing.child_guid, crossing.child_depth);
    if route_cache.is_some() {
        if let Ok(child) = bm.pin(crossing.child_guid) {
            bm.mark_route_resident(child);
        }
    }
    let ghost b1 = *bm;
    proof {
        lemma_remarked(b0, b1);
        lemma_routes_kept(*route_cache, b0, b1, root);
    }
    let r = lookup_from_crossing(bm, key, crossing);
    proof {
        lemma_remarked(b1, *bm);
        lemma_only_read_trans(b0, b1, *bm, key@, key.virtual_terminator);
        lemma_routes_kept(*route_cache, b1, *bm, root);
    }
    r
}

/// Whether `x` is what `consume` makes of a record.
pub open spec fn consumed<R, F: FnOnce(LookupHit<'_>) -> R>(consume: F, value: Seq<u8>, seq: u64, x: R) -> bool {
    exists|hit: LookupHit| hit.value@ == value && hit.seq == seq && #[trigger] call_ensures(consume, (hit,), x)
}

/// Looks `key` up in the tree at `root` and hands the record to `consume`.
pub fn lookup_multi_with<R, F: FnOnce(LookupHit<'_>) -> R>(
    bm: &mut BufferManager,
    root: BlobGuid,
    route_cache: &mut Option<RouteCache>,
    key: SearchKey,
    consume: F,
) -> (r: Result<Option<R>>)
    requires
        old(bm).wf(),
        is_root(*old(bm), root),
        routes_ok(*old(route_cache), *old(bm), root),
        key@.len() <= usize::MAX,
        forall|hit: LookupHit| #[trigger] consume.requires((hit,)),
    ensures
        only_read(*old(bm), *final(bm), key@, key.virtual_terminator),
        final(bm).wf(),
        is_root(*final(bm), root),
        final(bm).forest() == old(bm).forest(),
        routes_ok(*final(route_cache), *final(bm), root),
        *final(route_cache) is Some <==> *old(route_cache) is Some,
        match old(bm).forest().find(root, key@) {
            Route::Found { value, seq } => r matches Ok(Some(x)) && consumed(consume, value, seq, x),
            _ => r matches Ok(None),
        },
{
    match lookup_multi(bm, root, route_cache, key) {
        Ok(Some((value, seq))) => {
            let hit = LookupHit { value: value.as_slice(), seq };
            let x: R = consume(hit);
            assert(hit.value@ =~= value@);
            assert(consumed(consume, value@, seq, x));
            Ok(Some(x))
        },
        Ok(None) => Ok(None),
        Err(e) => Err(e),
    }
}

} // verus!
