//! A small cache of root-to-child crossings for path-shaped keys.
//!
//! A hit is only a candidate: the caller checks that the parent has not
//! changed, or looks the edge up again, before it uses the shortcut. Only
//! crossings out of a root are kept, since an edge further down can stay
//! intact after its parent became unreachable.
use vstd::prelude::*;

use crate::key::{bytes_eq, SearchKey};
use crate::layout::{guid_eq, BlobGuid};

verus! {

/// Routes kept at most.
pub const ROUTE_CACHE_CAPACITY: usize = 16_384;

/// Longest prefix that is kept.
pub const ROUTE_PREFIX_MAX: usize = 96;

/// Counters of a cache.
#[derive(Debug, Clone, Copy)]
pub struct RouteCacheSnapshot {
    pub entries: usize,
    pub hits: u64,
    pub misses: u64,
    pub learns: u64,
    pub evictions: u64,
    pub invalidations: u64,
}

/// A crossing from `parent_guid` into `child_guid`.
#[derive(Debug, Clone, Copy)]
pub struct RouteHit {
    pub parent_guid: BlobGuid,
    pub parent_depth: usize,
    /// Content version of the parent when the crossing was seen.
    pub parent_version: u64,
    pub child_guid: BlobGuid,
    pub child_depth: usize,
}

/// A crossing with the key bytes that lead to it.
#[derive(Debug)]
pub struct RouteEntry {
    pub prefix: Vec<u8>,
    pub hit: RouteHit,
}

/// The cache.
#[derive(Debug)]
pub struct RouteCache {
    /// In the order in which slots were first filled.
    pub entries: Vec<RouteEntry>,
    /// Prefix lengths to try, longest first.
    pub lengths: Vec<usize>,
    pub replace_cursor: usize,
    pub hits: u64,
    pub misses: u64,
    pub learns: u64,
    pub evictions: u64,
    pub invalidations: u64,
}

/// Whether two crossings are the same.
pub fn hit_eq(a: &RouteHit, b: &RouteHit) -> (r: bool)
    ensures
        r == (*a == *b),
{
    guid_eq(&a.parent_guid, &b.parent_guid) && a.parent_depth == b.parent_depth && a.parent_version == b.parent_version && guid_eq(
        &a.child_guid,
        &b.child_guid,
    ) && a.child_depth == b.child_depth
}

/// Whether two crossings lead from the same parent to the same child.
pub open spec fn same_edge(a: RouteHit, b: RouteHit) -> bool {
    a.parent_guid == b.parent_guid && a.parent_depth == b.parent_depth && a.child_guid == b.child_guid
}

/// Whether `a` is shorter than `b` and `b` begins with it.
pub open spec fn shorter(a: Seq<u8>, b: Seq<u8>) -> bool {
    a.len() < b.len() && a.is_prefix_of(b)
}

/// Whether numbers go strictly down.
pub open spec fn descending(s: Seq<usize>) -> bool {
    forall|i: int, j: int| 0 <= i < j < s.len() ==> s[i] > s[j]
}

impl RouteCache {
    /// Whether `prefix` is cached with `hit`.
    pub open spec fn has(&self, prefix: Seq<u8>, hit: RouteHit) -> bool {
        exists|i: int| 0 <= i < self.entries@.len() && (#[trigger] self.entries@[i]).prefix@ == prefix && self.entries@[i].hit == hit
    }

    /// Whether the cache is well-formed: no prefix twice, every prefix as
    /// long as its crossing is deep and within the limit, every length among
    /// those to try, and no more entries than there is room for.
    pub open spec fn wf(&self) -> bool {
        &&& self.entries@.len() <= ROUTE_CACHE_CAPACITY
        &&& forall|i: int, j: int| 0 <= i < j < self.entries@.len() ==> self.entries@[i].prefix@ != self.entries@[j].prefix@
        &&& forall|i: int|
            0 <= i < self.entries@.len() ==> {
                let e = #[trigger] self.entries@[i];
                &&& e.hit.parent_depth == 0
                &&& e.prefix@.len() == e.hit.child_depth
                &&& e.prefix@.len() <= ROUTE_PREFIX_MAX
                &&& self.lengths@.contains(e.prefix@.len() as usize)
            }
        &&& descending(self.lengths@)
    }

    /// An empty cache.
    pub fn new() -> (r: RouteCache)
        ensures
            r.wf(),
            r.entries@.len() == 0,
            r.lengths@.len() == 0,
            r.replace_cursor == 0,
            r.hits == 0 && r.misses == 0 && r.learns == 0 && r.evictions == 0 && r.invalidations == 0,
    {
        RouteCache {
            entries: Vec::new(),
            lengths: Vec::new(),
            replace_cursor: 0,
            hits: 0,
            misses: 0,
            learns: 0,
            evictions: 0,
            invalidations: 0,
        }
    }

    /// The counters.
    pub fn stats(&self) -> (r: RouteCacheSnapshot)
        ensures
            r == (RouteCacheSnapshot {
                entries: self.entries@.len() as usize,
                hits: self.hits,
                misses: self.misses,
                learns: self.learns,
                evictions: self.evictions,
                invalidations: self.invalidations,
            }),
    {
        RouteCacheSnapshot {
            entries: self.entries.len(),
            hits: self.hits,
            misses: self.misses,
            learns: self.learns,
            evictions: self.evictions,
            invalidations: self.invalidations,
        }
    }

    /// Where `prefix` is cached.
    fn position(&self, prefix: &[u8]) -> (r: Option<usize>)
        ensures
            match r {
                Some(i) => i < self.entries@.len() && self.entries@[i as int].prefix@ == prefix@,
                None => forall|i: int| 0 <= i < self.entries@.len() ==> (#[trigger] self.entries@[i]).prefix@ != prefix@,
            },
    {
        let mut i: usize = 0;
        while i < self.entries.len()
            invariant
                i <= self.entries@.len(),
                forall|j: int| 0 <= j < i ==> (#[trigger] self.entries@[j]).prefix@ != prefix@,
            decreases self.entries@.len() - i,
        {
            if bytes_eq(&self.entries[i].prefix, prefix) {
                return Some(i);
            }
            i = i + 1;
        }
        None
    }

    /// The longest cached crossing that `key` begins with.
    pub fn lookup(&mut self, key: SearchKey) -> (r: Option<RouteHit>)
        requires
            old(self).wf(),
        ensures
            final(self).wf(),
            final(self).entries@ == old(self).entries@,
            final(self).lengths@ == old(self).lengths@,
            match r {
                Some(hit) => {
                    &&& hit.child_depth <= key.bytes@.len()
                    &&& old(self).has(key.bytes@.take(hit.child_depth as int), hit)
                    &&& forall|p: Seq<u8>, h: RouteHit| #[trigger] old(self).has(p, h) && p.is_prefix_of(key.bytes@) ==> p.len() <= hit.child_depth
                    &&& final(self).hits == old(self).hits.wrapping_add(1)
                    &&& final(self).misses == old(self).misses
                },
                None => {
                    &&& forall|p: Seq<u8>, h: RouteHit| #[trigger] old(self).has(p, h) ==> !p.is_prefix_of(key.bytes@)
                    &&& final(self).misses == old(self).misses.wrapping_add(1)
                    &&& final(self).hits == old(self).hits
                },
            },
            final(self).learns == old(self).learns,
            final(self).evictions == old(self).evictions,
            final(self).invalidations == old(self).invalidations,
    {
        let ghost before = *self;
        let mut i: usize = 0;
        while i < self.lengths.len()
            invariant
                *self == before,
                before == *old(self),
                self.wf(),
                i <= self.lengths@.len(),
                forall|p: Seq<u8>, h: RouteHit| #[trigger] self.has(p, h) && p.is_prefix_of(key.bytes@) ==> forall|j: int| 0 <= j < i ==> self.lengths@[j] != p.len(),
            decreases self.lengths@.len() - i,
        {
            let len: usize = self.lengths[i];
            if let Some(prefix) = key.user_prefix(len) {
                if let Some(at) = self.position(prefix) {
                    let hit: RouteHit = self.entries[at].hit;
                    self.hits = self.hits.wrapping_add(1);
                    proof {
                        assert(before.entries@[at as int].prefix@ == prefix@);
                        assert(before.has(prefix@, hit));
                        assert forall|p: Seq<u8>, h: RouteHit| #[trigger] before.has(p, h) && p.is_prefix_of(key.bytes@) implies p.len() <= hit.child_depth by {
                            let k = choose|k: int| 0 <= k < before.entries@.len() && (#[trigger] before.entries@[k]).prefix@ == p && before.entries@[k].hit == h;
                            let n = choose|n: int| 0 <= n < before.lengths@.len() && before.lengths@[n] == p.len();
                            assert(n >= i);
                        }
                    }
                    return Some(hit);
                }
                proof {
                    assert forall|p: Seq<u8>, h: RouteHit| #[trigger] self.has(p, h) && p.is_prefix_of(key.bytes@) implies p.len() != len by {
                        if p.len() == len {
                            assert(p =~= prefix@);
                            let k = choose|k: int| 0 <= k < self.entries@.len() && (#[trigger] self.entries@[k]).prefix@ == p && self.entries@[k].hit == h;
                        }
                    }
                }
            }
            i = i + 1;
        }
        self.misses = self.misses.wrapping_add(1);
        proof {
            assert forall|p: Seq<u8>, h: RouteHit| #[trigger] before.has(p, h) implies !p.is_prefix_of(key.bytes@) by {
                let k = choose|k: int| 0 <= k < before.entries@.len() && (#[trigger] before.entries@[k]).prefix@ == p && before.entries@[k].hit == h;
                assert(before.lengths@.contains(p.len() as usize));
                let n = choose|n: int| 0 <= n < before.lengths@.len() && before.lengths@[n] == p.len();
            }
        }
        None
    }

    /// Takes out entry `at`; later entries move up.
    fn take_out(&mut self, at: usize)
        requires
            old(self).wf(),
            at < old(self).entries@.len(),
        ensures
            final(self).entries@ == old(self).entries@.remove(at as int),
            final(self).wf(),
            *final(self) == (RouteCache { entries: final(self).entries, ..*old(self) }),
            forall|p: Seq<u8>, h: RouteHit| #[trigger] final(self).has(p, h) <==> old(self).has(p, h) && p != old(self).entries@[at as int].prefix@,
    {
        let ghost before = *self;
        let _gone: RouteEntry = self.entries.remove(at);
        proof {
            let e0 = before.entries@;
            let e1 = self.entries@;
            assert forall|p: Seq<u8>, h: RouteHit| #[trigger] self.has(p, h) <==> before.has(p, h) && p != e0[at as int].prefix@ by {
                if self.has(p, h) {
                    let k = choose|k: int| 0 <= k < e1.len() && (#[trigger] e1[k]).prefix@ == p && e1[k].hit == h;
                    let j = if k < at { k } else { k + 1 };
                    assert(e0[j] == e1[k]);
                }
                if before.has(p, h) && p != e0[at as int].prefix@ {
                    let j = choose|j: int| 0 <= j < e0.len() && (#[trigger] e0[j]).prefix@ == p && e0[j].hit == h;
                    let k = if j < at { j } else { j - 1 };
                    assert(e1[k] == e0[j]);
                }
            }
        }
    }

    /// Keeps exactly the lengths that occur.
    fn rebuild_prefix_lengths(&mut self)
        requires
            old(self).wf(),
        ensures
            final(self).wf(),
            *final(self) == (RouteCache { lengths: final(self).lengths, ..*old(self) }),
            forall|n: usize| #[trigger] final(self).lengths@.contains(n) <==> exists|i: int| 0 <= i < final(self).entries@.len() && (#[trigger] final(self).entries@[i]).prefix@.len() == n,
    {
        let mut lengths: Vec<usize> = Vec::new();
        let mut i: usize = 0;
        while i < self.entries.len()
            invariant
                self.wf(),
                i <= self.entries@.len(),
                descending(lengths@),
                forall|n: usize| #[trigger] lengths@.contains(n) <==> exists|j: int| 0 <= j < i && (#[trigger] self.entries@[j]).prefix@.len() == n,
            decreases self.entries@.len() - i,
        {
            let ghost before = lengths@;
            let n: usize = self.entries[i].prefix.len();
            remember_prefix_len(&mut lengths, n);
            proof {
                assert forall|m: usize| #[trigger] lengths@.contains(m) <==> exists|j: int| 0 <= j < i + 1 && (#[trigger] self.entries@[j]).prefix@.len() == m by {
                    if lengths@.contains(m) {
                        if before.contains(m) {
                            let j = choose|j: int| 0 <= j < i && (#[trigger] self.entries@[j]).prefix@.len() == m;
                            assert(self.entries@[j].prefix@.len() == m);
                        } else {
                            assert(self.entries@[i as int].prefix@.len() == m);
                        }
                    }
                    if exists|j: int| 0 <= j < i + 1 && (#[trigger] self.entries@[j]).prefix@.len() == m {
                        let j = choose|j: int| 0 <= j < i + 1 && (#[trigger] self.entries@[j]).prefix@.len() == m;
                        if j < i {
                            assert(before.contains(m));
                        }
                    }
                }
            }
            i = i + 1;
        }
        let ghost e = self.entries@;
        self.lengths = lengths;
        assert forall|k: int| 0 <= k < self.entries@.len() implies self.lengths@.contains((#[trigger] self.entries@[k]).prefix@.len() as usize) by {
            assert(e[k].prefix@.len() == (e[k].prefix@.len() as usize));
        }
    }

    /// Drops a crossing that the caller found stale.
    pub fn invalidate(&mut self, key: SearchKey, route: RouteHit)
        requires
            old(self).wf(),
        ensures
            final(self).wf(),
            final(self).invalidations == old(self).invalidations.wrapping_add(1),
            final(self).hits == old(self).hits && final(self).misses == old(self).misses,
            final(self).learns == old(self).learns && final(self).evictions == old(self).evictions,
            forall|p: Seq<u8>, h: RouteHit| #[trigger] final(self).has(p, h) <==> old(self).has(p, h) && !(h == route && route.child_depth
                <= key.bytes@.len() && p == key.bytes@.take(route.child_depth as int)),
    {
        let ghost before = *self;
        self.invalidations = self.invalidations.wrapping_add(1);
        let ghost mid = *self;
        proof {
            assert forall|p: Seq<u8>, h: RouteHit| #[trigger] mid.has(p, h) <==> before.has(p, h) by {
                assert(mid.entries == before.entries);
            }
        }
        let prefix: &[u8] = match key.user_prefix(route.child_depth) {
            Some(p) => p,
            None => {
                return ;
            },
        };
        let at: usize = match self.position(prefix) {
            Some(i) => i,
            None => {
                return ;
            },
        };
        proof {
            assert forall|h: RouteHit| #[trigger] mid.has(prefix@, h) implies h == mid.entries@[at as int].hit by {
                let k = choose|k: int| 0 <= k < mid.entries@.len() && (#[trigger] mid.entries@[k]).prefix@ == prefix@ && mid.entries@[k].hit == h;
                if k != at {
                    assert(mid.entries@[k].prefix@ != mid.entries@[at as int].prefix@);
                }
            }
        }
        if !hit_eq(&self.entries[at].hit, &route) {
            return ;
        }
        self.take_out(at);
        let ghost shrunk = *self;
        self.rebuild_prefix_lengths();
        proof {
            assert forall|p: Seq<u8>, h: RouteHit| #[trigger] self.has(p, h) <==> before.has(p, h) && !(h == route && p == prefix@) by {
                assert(self.has(p, h) <==> shrunk.has(p, h));
                assert(mid.has(p, h) <==> before.has(p, h));
                if p == prefix@ && before.has(p, h) {
                    assert(mid.has(prefix@, h));
                }
            }
        }
    }

    /// Drops every crossing.
    pub fn clear(&mut self)
        ensures
            final(self).wf(),
            final(self).entries@.len() == 0,
            final(self).invalidations == old(self).invalidations.wrapping_add(1),
            final(self).hits == old(self).hits && final(self).misses == old(self).misses,
            final(self).learns == old(self).learns && final(self).evictions == old(self).evictions,
    {
        self.invalidations = self.invalidations.wrapping_add(1);
        self.entries = Vec::new();
        self.lengths = Vec::new();
    }

    /// Records that the crossing still stood at `parent_version`.
    pub fn refresh_parent_version(&mut self, key: SearchKey, route: RouteHit, parent_version: u64)
        requires
            old(self).wf(),
        ensures
            final(self).wf(),
            final(self).hits == old(self).hits && final(self).misses == old(self).misses,
            final(self).learns == old(self).learns && final(self).evictions == old(self).evictions,
            final(self).invalidations == old(self).invalidations,
            ({
                let named = |p: Seq<u8>, h: RouteHit| h == route && route.child_depth <= key.bytes@.len() && p == key.bytes@.take(
                    route.child_depth as int,
                );
                forall|p: Seq<u8>, h: RouteHit| #[trigger]
                    final(self).has(p, h) <==> (old(self).has(p, h) && !named(p, h)) || (exists|g: RouteHit| #[trigger]
                        old(self).has(p, g) && named(p, g) && h == (RouteHit { parent_version, ..g }))
            }),
    {
        let ghost before = *self;
        let prefix: &[u8] = match key.user_prefix(route.child_depth) {
            Some(p) => p,
            None => {
                return ;
            },
        };
        let at: usize = match self.position(prefix) {
            Some(i) => i,
            None => {
                return ;
            },
        };
        proof {
            assert forall|h: RouteHit| #[trigger] before.has(prefix@, h) implies h == before.entries@[at as int].hit by {
                let k = choose|k: int| 0 <= k < before.entries@.len() && (#[trigger] before.entries@[k]).prefix@ == prefix@ && before.entries@[k].hit == h;
                if k != at {
                    assert(before.entries@[k].prefix@ != before.entries@[at as int].prefix@);
                }
            }
            assert(before.has(prefix@, before.entries@[at as int].hit));
        }
        if hit_eq(&self.entries[at].hit, &route) {
            self.entries[at].hit.parent_version = parent_version;
            let ghost e0 = before.entries@;
            let ghost e1 = self.entries@;
            proof {
                assert forall|k: int| 0 <= k < e1.len() implies e1[k].prefix == e0[k].prefix && (k != at ==> e1[k] == e0[k]) by {}
                assert forall|k: int| 0 <= k < e1.len() implies self.lengths@.contains((#[trigger] e1[k]).prefix@.len() as usize) by {
                    assert(before.lengths@.contains(e0[k].prefix@.len() as usize));
                }
                let new = RouteHit { parent_version, ..route };
                assert forall|p: Seq<u8>, h: RouteHit| #[trigger] self.has(p, h) <==> (before.has(p, h) && !(h == route && p == prefix@)) || (p == prefix@ && h == new) by {
                    if self.has(p, h) {
                        let k = choose|k: int| 0 <= k < e1.len() && (#[trigger] e1[k]).prefix@ == p && e1[k].hit == h;
                        if k != at {
                            assert(e0[k].prefix@ == p && e0[k].hit == h);
                            assert(e0[k].prefix@ != e0[at as int].prefix@);
                        }
                    }
                    if before.has(p, h) && !(h == route && p == prefix@) {
                        let k = choose|k: int| 0 <= k < e0.len() && (#[trigger] e0[k]).prefix@ == p && e0[k].hit == h;
                        assert(k != at);
                        assert(e1[k].prefix@ == p && e1[k].hit == h);
                    }
                    if p == prefix@ && h == new {
                        assert(e1[at as int].prefix@ == p && e1[at as int].hit == h);
                    }
                }
                assert(before.has(prefix@, route));
            }
        }
    }

    /// Whether a shorter cached prefix leads over the same edge.
    fn has_dominating_prefix(&self, prefix: &[u8], hit: &RouteHit) -> (r: bool)
        ensures
            r == exists|p: Seq<u8>, h: RouteHit| #[trigger] self.has(p, h) && shorter(p, prefix@) && same_edge(h, *hit),
    {
        let mut i: usize = 0;
        while i < self.entries.len()
            invariant
                i <= self.entries@.len(),
                forall|j: int| 0 <= j < i ==> !(shorter((#[trigger] self.entries@[j]).prefix@, prefix@) && same_edge(self.entries@[j].hit, *hit)),
            decreases self.entries@.len() - i,
        {
            let e: &RouteEntry = &self.entries[i];
            let n: usize = e.prefix.len();
            if n < prefix.len() && bytes_eq(&e.prefix, &prefix[0..n]) && guid_eq(&e.hit.parent_guid, &hit.parent_guid) && e.hit.parent_depth
                == hit.parent_depth && guid_eq(&e.hit.child_guid, &hit.child_guid) {
                assert(self.has(e.prefix@, e.hit));
                return true;
            }
            proof {
                if shorter(e.prefix@, prefix@) {
                    assert(e.prefix@ =~= prefix@.subrange(0, n as int));
                }
            }
            i = i + 1;
        }
        proof {
            assert forall|p: Seq<u8>, h: RouteHit| #[trigger] self.has(p, h) implies !(shorter(p, prefix@) && same_edge(h, *hit)) by {
                let k = choose|k: int| 0 <= k < self.entries@.len() && (#[trigger] self.entries@[k]).prefix@ == p && self.entries@[k].hit == h;
            }
        }
        false
    }

    /// Drops longer cached prefixes that lead over the same edge.
    fn prune_dominated_prefixes(&mut self, prefix: &[u8], hit: &RouteHit)
        requires
            old(self).wf(),
        ensures
            final(self).wf(),
            *final(self) == (RouteCache { entries: final(self).entries, lengths: final(self).lengths, ..*old(self) }),
            final(self).entries@.len() <= old(self).entries@.len(),
            forall|p: Seq<u8>, h: RouteHit| #[trigger] final(self).has(p, h) <==> old(self).has(p, h) && !(shorter(prefix@, p) && same_edge(h, *hit)),
            final(self).entries@.len() == old(self).entries@.len() ==> final(self).entries@ == old(self).entries@,
            final(self).entries@.len() < old(self).entries@.len() ==> drops(*old(self), prefix@, *hit),
    {
        let ghost before = *self;
        let mut removed: bool = false;
        let mut i: usize = 0;
        while i < self.entries.len()
            invariant
                self.wf(),
                before.wf(),
                i <= self.entries@.len() <= before.entries@.len(),
                *self == (RouteCache { entries: self.entries, ..before }),
                !removed ==> self.entries@ == before.entries@,
                removed ==> self.entries@.len() < before.entries@.len() && drops(before, prefix@, *hit),
                forall|j: int| 0 <= j < i ==> !(shorter(prefix@, (#[trigger] self.entries@[j]).prefix@) && same_edge(self.entries@[j].hit, *hit)),
                forall|p: Seq<u8>, h: RouteHit| #[trigger] self.has(p, h) ==> before.has(p, h),
                forall|p: Seq<u8>, h: RouteHit| #[trigger] before.has(p, h) && !(shorter(prefix@, p) && same_edge(h, *hit)) ==> self.has(p, h),
            decreases self.entries@.len() - i,
        {
            let e: &RouteEntry = &self.entries[i];
            let n: usize = prefix.len();
            let dominated: bool = e.prefix.len() > n && bytes_eq(&e.prefix[0..n], prefix) && guid_eq(&e.hit.parent_guid, &hit.parent_guid)
                && e.hit.parent_depth == hit.parent_depth && guid_eq(&e.hit.child_guid, &hit.child_guid);
            proof {
                if e.prefix@.len() > n {
                    assert(prefix@.is_prefix_of(e.prefix@) <==> e.prefix@.subrange(0, n as int) =~= prefix@);
                }
            }
            let ghost mid = *self;
            let ghost gone = self.entries@[i as int];
            if dominated {
                self.take_out(i);
                removed = true;
                proof {
                    assert(mid.has(gone.prefix@, gone.hit));
                    assert(drops(before, prefix@, *hit));
                    assert forall|p: Seq<u8>, h: RouteHit| #[trigger] before.has(p, h) && !(shorter(prefix@, p) && same_edge(h, *hit)) implies self.has(p, h) by {
                        assert(mid.has(p, h));
                        if p == gone.prefix@ {
                            let k = choose|k: int| 0 <= k < mid.entries@.len() && (#[trigger] mid.entries@[k]).prefix@ == p && mid.entries@[k].hit == h;
                            if k != i {
                                assert(mid.entries@[k].prefix@ != mid.entries@[i as int].prefix@);
                            }
                        }
                    }
                    assert forall|j: int| 0 <= j < i implies !(shorter(prefix@, (#[trigger] self.entries@[j]).prefix@) && same_edge(self.entries@[j].hit, *hit)) by {
                        assert(self.entries@[j] == mid.entries@[j]);
                    }
                }
            } else {
                i = i + 1;
            }
        }
        let ghost last = *self;
        proof {
            assert forall|p: Seq<u8>, h: RouteHit| #[trigger] last.has(p, h) implies !(shorter(prefix@, p) && same_edge(h, *hit)) by {
                let k = choose|k: int| 0 <= k < last.entries@.len() && (#[trigger] last.entries@[k]).prefix@ == p && last.entries@[k].hit == h;
            }
        }
        if removed {
            self.rebuild_prefix_lengths();
            proof {
                assert forall|p: Seq<u8>, h: RouteHit| #[trigger] self.has(p, h) <==> last.has(p, h) by {
                    assert(self.entries == last.entries);
                }
            }
        }
    }

    /// Records a crossing that was just seen. One out of a blob other than a
    /// root, one deeper than the caller's bytes and one behind a long prefix
    /// are not kept; one that a shorter prefix covers is only counted.
    pub fn learn(
        &mut self,
        key: SearchKey,
        parent_guid: BlobGuid,
        parent_depth: usize,
        parent_version: u64,
        child_guid: BlobGuid,
        child_depth: usize,
    )
        requires
            old(self).wf(),
        ensures
            final(self).wf(),
            final(self).hits == old(self).hits && final(self).misses == old(self).misses,
            final(self).invalidations == old(self).invalidations,
            learn_result(
                *old(self),
                *final(self),
                key.bytes@,
                RouteHit { parent_guid, parent_depth, parent_version, child_guid, child_depth },
            ),
    {
        if parent_depth != 0 {
            return ;
        }
        let prefix: &[u8] = match key.user_prefix(child_depth) {
            Some(p) => p,
            None => {
                return ;
            },
        };
        if prefix.len() > ROUTE_PREFIX_MAX {
            return ;
        }
        let hit = RouteHit { parent_guid, parent_depth, parent_version, child_guid, child_depth };
        let ghost before = *self;
        self.learns = self.learns.wrapping_add(1);
        let ghost counted = *self;
        proof {
            assert forall|p: Seq<u8>, h: RouteHit| #[trigger] counted.has(p, h) <==> before.has(p, h) by {
                assert(counted.entries == before.entries);
            }
        }
        if let Some(at) = self.position(prefix) {
            self.entries[at].hit = hit;
            proof {
                let e0 = before.entries@;
                let e1 = self.entries@;
                assert(e1 =~= e0.update(at as int, e1[at as int]));
                lemma_put(counted, *self, at as int, prefix@, hit);
                assert(e0[at as int].prefix@ == prefix@);
                assert(before.has(prefix@, e0[at as int].hit));
                assert(*self == (RouteCache { entries: self.entries, lengths: self.lengths, learns: self.learns, ..before }));
            }
            return ;
        }
        proof {
            assert forall|h: RouteHit| !#[trigger] before.has(prefix@, h) by {
                if before.has(prefix@, h) {
                    let k = choose|k: int| 0 <= k < before.entries@.len() && (#[trigger] before.entries@[k]).prefix@ == prefix@ && before.entries@[k].hit == h;
                    assert(self.entries@[k].prefix@ == prefix@);
                }
            }
        }
        if self.has_dominating_prefix(prefix, &hit) {
            proof {
                let (p, h) = choose|p: Seq<u8>, h: RouteHit| #[trigger] self.has(p, h) && shorter(p, prefix@) && same_edge(h, hit);
                assert(before.has(p, h));
            }
            return ;
        }
        proof {
            assert(!(exists|p: Seq<u8>, h: RouteHit| #[trigger] before.has(p, h) && shorter(p, prefix@) && same_edge(h, hit))) by {
                if exists|p: Seq<u8>, h: RouteHit| #[trigger] before.has(p, h) && shorter(p, prefix@) && same_edge(h, hit) {
                    let (p, h) = choose|p: Seq<u8>, h: RouteHit| #[trigger] before.has(p, h) && shorter(p, prefix@) && same_edge(h, hit);
                    assert(counted.has(p, h));
                }
            }
        }
        self.prune_dominated_prefixes(prefix, &hit);
        let ghost pruned = *self;
        remember_prefix_len(&mut self.lengths, prefix.len());
        let new_prefix: Vec<u8> = crate::insert::copy_bytes(prefix);
        let ghost ready = *self;
        proof {
            assert forall|p: Seq<u8>, h: RouteHit| #[trigger] ready.has(p, h) <==> before.has(p, h) && !(shorter(prefix@, p) && same_edge(h, hit)) by {
                assert(ready.has(p, h) <==> pruned.has(p, h)) by {
                    assert(ready.entries == pruned.entries);
                }
                assert(counted.has(p, h) <==> before.has(p, h));
            }
            assert(ready.wf());
            assert forall|h: RouteHit| !#[trigger] ready.has(prefix@, h) by {}
            assert forall|k: int| 0 <= k < ready.entries@.len() implies (#[trigger] ready.entries@[k]).prefix@ != prefix@ by {
                assert(!ready.has(prefix@, ready.entries@[k].hit));
            }
            assert(ready.lengths@.contains(prefix@.len() as usize));
            assert(drops(counted, prefix@, hit) <==> drops(before, prefix@, hit)) by {
                if drops(counted, prefix@, hit) {
                    let (p, h) = choose|p: Seq<u8>, h: RouteHit| #[trigger] counted.has(p, h) && shorter(prefix@, p) && same_edge(h, hit);
                    assert(before.has(p, h));
                }
                if drops(before, prefix@, hit) {
                    let (p, h) = choose|p: Seq<u8>, h: RouteHit| #[trigger] before.has(p, h) && shorter(prefix@, p) && same_edge(h, hit);
                    assert(counted.has(p, h));
                }
            }
        }
        if self.entries.len() < ROUTE_CACHE_CAPACITY {
            self.entries.push(RouteEntry { prefix: new_prefix, hit });
            proof {
                lemma_put(ready, *self, ready.entries@.len() as int, prefix@, hit);
                assert forall|p: Seq<u8>, h: RouteHit| #[trigger] self.has(p, h) <==> (p == prefix@ && h == hit) || (before.has(p, h) && !(shorter(prefix@, p) && same_edge(h, hit))) by {
                    if p == prefix@ {
                        assert(!ready.has(prefix@, h));
                    }
                }
            }
            return ;
        }
        let idx: usize = self.replace_cursor % ROUTE_CACHE_CAPACITY;
        self.replace_cursor = self.replace_cursor.wrapping_add(1);
        self.entries[idx] = RouteEntry { prefix: new_prefix, hit };
        self.evictions = self.evictions.wrapping_add(1);
        proof {
            assert(ready.entries@ == before.entries@);
            if drops(before, prefix@, hit) {
                let (p, h) = choose|p: Seq<u8>, h: RouteHit| #[trigger] before.has(p, h) && shorter(prefix@, p) && same_edge(h, hit);
                let k = choose|k: int| 0 <= k < before.entries@.len() && (#[trigger] before.entries@[k]).prefix@ == p && before.entries@[k].hit == h;
                assert(ready.entries@[k].prefix@ == p);
                assert(ready.has(p, h));
            }
            assert(self.entries@ =~= ready.entries@.update(idx as int, self.entries@[idx as int]));
            lemma_put(ready, *self, idx as int, prefix@, hit);
            let evicted = before.entries@[idx as int].prefix@;
            assert forall|p: Seq<u8>, h: RouteHit| #[trigger] self.has(p, h) <==> (p == prefix@ && h == hit) || (before.has(p, h) && p != evicted) by {
                if before.has(p, h) && p != evicted {
                    let k = choose|k: int| 0 <= k < before.entries@.len() && (#[trigger] before.entries@[k]).prefix@ == p && before.entries@[k].hit == h;
                    assert(ready.entries@[k] == before.entries@[k]);
                    assert(ready.has(p, h));
                    assert(p != prefix@);
                }
                if self.has(p, h) && !(p == prefix@ && h == hit) {
                    assert(ready.has(p, h));
                }
            }
        }
    }
}

/// Whether learning `hit` behind `prefix` makes an entry of the cache
/// needless.
pub open spec fn drops(c: RouteCache, prefix: Seq<u8>, hit: RouteHit) -> bool {
    exists|p: Seq<u8>, h: RouteHit| #[trigger] c.has(p, h) && shorter(prefix, p) && same_edge(h, hit)
}

/// What learning the crossing `hit` behind `prefix` does to a cache.
pub open spec fn learned(c0: RouteCache, c: RouteCache, prefix: Seq<u8>, hit: RouteHit) -> bool {
    let known = exists|h: RouteHit| #[trigger] c0.has(prefix, h);
    let covered = exists|p: Seq<u8>, h: RouteHit| #[trigger] c0.has(p, h) && shorter(p, prefix) && same_edge(h, hit);
    &&& c.learns == c0.learns.wrapping_add(1)
    &&& if known {
        &&& forall|p: Seq<u8>, h: RouteHit| #[trigger] c.has(p, h) <==> if p == prefix { h == hit } else { c0.has(p, h) }
        &&& c.evictions == c0.evictions
        &&& c.replace_cursor == c0.replace_cursor
    } else if covered {
        c.entries@ == c0.entries@ && c.evictions == c0.evictions && c.replace_cursor == c0.replace_cursor
    } else if c0.entries@.len() < ROUTE_CACHE_CAPACITY || drops(c0, prefix, hit) {
        &&& forall|p: Seq<u8>, h: RouteHit| #[trigger]
            c.has(p, h) <==> (p == prefix && h == hit) || (c0.has(p, h) && !(shorter(prefix, p) && same_edge(h, hit)))
        &&& c.evictions == c0.evictions
        &&& c.replace_cursor == c0.replace_cursor
    } else {
        // Full, with nothing to drop: the slot under the cursor is taken.
        &&& c.evictions == c0.evictions.wrapping_add(1)
        &&& c.replace_cursor == c0.replace_cursor.wrapping_add(1)
        &&& ({
            let evicted = c0.entries@[(c0.replace_cursor % ROUTE_CACHE_CAPACITY) as int].prefix@;
            forall|p: Seq<u8>, h: RouteHit| #[trigger] c.has(p, h) <==> (p == prefix && h == hit) || (c0.has(p, h) && p != evicted)
        })
    }
}

/// What it does to a cache to see a key with `bytes` cross as `hit` says: a
/// crossing that is not out of a root, is deeper than the bytes, or stands
/// behind a long prefix is not kept.
pub open spec fn learn_result(c0: RouteCache, c: RouteCache, bytes: Seq<u8>, hit: RouteHit) -> bool {
    if hit.parent_depth == 0 && hit.child_depth <= bytes.len() && hit.child_depth <= ROUTE_PREFIX_MAX {
        learned(c0, c, bytes.take(hit.child_depth as int), hit)
    } else {
        c == c0
    }
}

/// Putting an entry at `at`, in place of what was there.
proof fn lemma_put(c0: RouteCache, c: RouteCache, at: int, prefix: Seq<u8>, hit: RouteHit)
    requires
        c0.wf(),
        0 <= at <= c0.entries@.len(),
        at < ROUTE_CACHE_CAPACITY,
        hit.parent_depth == 0,
        hit.child_depth == prefix.len() <= ROUTE_PREFIX_MAX,
        c.lengths@ == c0.lengths@,
        c0.lengths@.contains(prefix.len() as usize),
        c.entries@.len() == (if at < c0.entries@.len() { c0.entries@.len() } else { c0.entries@.len() + 1 }),
        c.entries@[at].prefix@ == prefix,
        c.entries@[at].hit == hit,
        forall|i: int| 0 <= i < c0.entries@.len() && i != at ==> c.entries@[i] == c0.entries@[i],
        forall|i: int| 0 <= i < c0.entries@.len() && i != at ==> (#[trigger] c0.entries@[i]).prefix@ != prefix,
    ensures
        c.wf(),
        forall|p: Seq<u8>, h: RouteHit| #[trigger] c.has(p, h) <==> (p == prefix && h == hit) || (c0.has(p, h) && !(at < c0.entries@.len() && p
            == c0.entries@[at].prefix@)),
{
    let e0 = c0.entries@;
    let e = c.entries@;
    assert forall|i: int, j: int| 0 <= i < j < e.len() implies e[i].prefix@ != e[j].prefix@ by {
        if i != at && j != at {
            assert(e0[i].prefix@ != e0[j].prefix@);
        } else if i == at {
            assert(e0[j].prefix@ != prefix);
        } else {
            assert(e0[i].prefix@ != prefix);
        }
    }
    assert forall|i: int| 0 <= i < e.len() implies {
        let x = #[trigger] e[i];
        &&& x.hit.parent_depth == 0
        &&& x.prefix@.len() == x.hit.child_depth
        &&& x.prefix@.len() <= ROUTE_PREFIX_MAX
        &&& c.lengths@.contains(x.prefix@.len() as usize)
    } by {
        if i != at {
            assert(e[i] == e0[i]);
        }
    }
    assert forall|p: Seq<u8>, h: RouteHit| #[trigger] c.has(p, h) <==> (p == prefix && h == hit) || (c0.has(p, h) && !(at < e0.len() && p
        == e0[at].prefix@)) by {
        if c.has(p, h) {
            let k = choose|k: int| 0 <= k < e.len() && (#[trigger] e[k]).prefix@ == p && e[k].hit == h;
            if k != at {
                assert(e0[k].prefix@ == p && e0[k].hit == h);
                if at < e0.len() && p == e0[at].prefix@ {
                    if k < at {
                        assert(e0[k].prefix@ != e0[at].prefix@);
                    } else {
                        assert(e0[at].prefix@ != e0[k].prefix@);
                    }
                }
            }
        }
        if p == prefix && h == hit {
            assert(e[at].prefix@ == p && e[at].hit == h);
        }
        if c0.has(p, h) && !(at < e0.len() && p == e0[at].prefix@) {
            let k = choose|k: int| 0 <= k < e0.len() && (#[trigger] e0[k]).prefix@ == p && e0[k].hit == h;
            assert(k != at);
            assert(e[k].prefix@ == p && e[k].hit == h);
        }
    }
}

/// Adds a length to those to try.
fn remember_prefix_len(lengths: &mut Vec<usize>, len: usize)
    requires
        descending(old(lengths)@),
    ensures
        descending(final(lengths)@),
        forall|n: usize| #[trigger] final(lengths)@.contains(n) <==> old(lengths)@.contains(n) || n == len,
{
    let ghost s0 = lengths@;
    let mut i: usize = 0;
    while i < lengths.len() && lengths[i] > len
        invariant
            lengths@ == s0,
            i <= lengths@.len(),
            forall|j: int| 0 <= j < i ==> lengths@[j] > len,
        decreases lengths@.len() - i,
    {
        i = i + 1;
    }
    if i < lengths.len() && lengths[i] == len {
        return ;
    }
    lengths.insert(i, len);
    proof {
        let s1 = lengths@;
        assert(s1 == s0.insert(i as int, len));
        assert(s1[i as int] == len);
        assert forall|n: usize| #[trigger] s1.contains(n) <==> s0.contains(n) || n == len by {
            if s1.contains(n) {
                let k = choose|k: int| 0 <= k < s1.len() && s1[k] == n;
                if k < i {
                    assert(s0[k] == n);
                } else if k > i {
                    assert(s0[k - 1] == n);
                }
            }
            if s0.contains(n) {
                let k = choose|k: int| 0 <= k < s0.len() && s0[k] == n;
                if k < i {
                    assert(s1[k] == n);
                } else {
                    assert(s1[k + 1] == n);
                }
            }
        }
        assert(descending(s1)) by {
            assert forall|a: int, b: int| 0 <= a < b < s1.len() implies s1[a] > s1[b] by {
                let a0 = if a < i { a } else { a - 1 };
                let b0 = if b < i { b } else { b - 1 };
                if a != i && b != i {
                    assert(s0[a0] > s0[b0]);
                } else if a == i && i < s0.len() {
                    assert(s0[i as int] < len);
                    if b0 > i {
                        assert(s0[i as int] > s0[b0]);
                    }
                }
            }
        }
    }
}

} // verus!
