//! The buffer manager: every blob of a store, by name, with what the engine
//! tells it about them.
use vstd::prelude::*;

use crate::art::{at, dead, keyed, rep, sep, slot_of, step, Art, Route};
use crate::cold::{in_order, routing_pages, ColdPageCache};
use crate::errors::{Error, Result};
use crate::forest::{lemma_split, lemma_with_same, reshaped, Forest};
use crate::frame::{rooted, tree_at, BlobFrame, BlobHeader};
use crate::insert::copy_bytes;
use crate::layout::{guid_eq, BlobGuid, BlobNode, Leaf, Node, Prefix, DATA_AREA_START, PAGE_SIZE};
use crate::migrate::{blob_takes, budget, make_blob_from_node, new_blob_header, slot_at};
use crate::spillover::{
    copied_out, fresh_blob_guid, fresh_guids_are_distinct, guid_of, mixed_tail, spillover_blob, spilled, splittable, Spilled, Stranded,
};
use crate::types::MakeBlobOutcome;

verus! {

/// A blob and what is recorded beside it.
#[derive(Debug)]
pub struct CachedBlob {
    pub guid: BlobGuid,
    pub frame: BlobFrame,
    /// Changes whenever the blob may have changed.
    pub version: u64,
    /// Sequence of the oldest change that was not written back.
    pub dirty: Option<u64>,
    /// Whether the whole blob is in memory.
    pub cached: bool,
    /// Whether a cached route leads here.
    pub route_resident: bool,
}

/// Counters of the walks over a store.
#[derive(Debug, Clone, Copy, PartialEq, Eq, Structural)]
pub struct WalkCounters {
    pub walks: u64,
    pub blob_hops: u64,
    pub max_cross_blob_depth: usize,
    pub restarts: u64,
    pub spillovers: u64,
}

/// Where names of new blobs come from.
#[derive(Debug, Clone, Copy)]
pub struct GuidSource {
    pub nanos: u64,
    pub counter: u32,
    pub entropy: Option<[u8; 3]>,
}

/// The blobs of a store.
pub struct BufferManager {
    pub blobs: Vec<CachedBlob>,
    /// At least every version in use.
    pub edition: u64,
    /// Blobs of this epoch and before may be seen by a snapshot; zero when
    /// there is none.
    pub fork_barrier: u64,
    /// Epoch that new blobs are stamped with.
    pub epoch: u64,
    /// Blobs handed over for deletion, with the sequence of the change.
    pub deletes: Vec<(BlobGuid, u64)>,
    pub compaction_candidates: Vec<BlobGuid>,
    pub merge_candidates: Vec<BlobGuid>,
    pub counters: WalkCounters,
    pub source: GuidSource,
    /// Pages kept of blobs that are not in memory.
    pub cold_pages: ColdPageCache,
    /// The key bytes that lead to each blob.
    pub base: Ghost<Map<BlobGuid, Seq<u8>>>,
    /// A rank that goes down along every reference.
    pub rank: Ghost<Map<BlobGuid, nat>>,
}

/// Whether no name occurs twice.
pub open spec fn distinct(s: Seq<CachedBlob>) -> bool {
    forall|i: int, j: int| 0 <= i < j < s.len() ==> s[i].guid != s[j].guid
}

/// Whether blob `g` is entry `i`.
pub open spec fn is_at(s: Seq<CachedBlob>, i: int, g: BlobGuid) -> bool {
    0 <= i < s.len() && s[i].guid == g
}

/// The entry of blob `g`.
pub open spec fn place(s: Seq<CachedBlob>, g: BlobGuid) -> int {
    choose|i: int| #[trigger] is_at(s, i, g)
}

/// The blobs by name.
pub open spec fn blob_map(s: Seq<CachedBlob>) -> Map<BlobGuid, BlobFrame> {
    Map::new(|g: BlobGuid| exists|i: int| #[trigger] is_at(s, i, g), |g: BlobGuid| s[place(s, g)].frame)
}

/// Each entry is in the map under its name.
pub proof fn lemma_map_at(s: Seq<CachedBlob>, i: int)
    requires
        distinct(s),
        0 <= i < s.len(),
    ensures
        blob_map(s).contains_key(s[i].guid),
        blob_map(s)[s[i].guid] == s[i].frame,
        place(s, s[i].guid) == i,
{
    let g = s[i].guid;
    assert(is_at(s, i, g));
    let p = place(s, g);
    assert(is_at(s, p, g));
    if p < i {
        assert(s[p].guid != s[i].guid);
    } else if i < p {
        assert(s[i].guid != s[p].guid);
    }
}

/// Changing an entry changes the map at its name.
pub proof fn lemma_map_update(s: Seq<CachedBlob>, i: int, b: CachedBlob)
    requires
        distinct(s),
        0 <= i < s.len(),
        b.guid == s[i].guid,
    ensures
        distinct(s.update(i, b)),
        blob_map(s.update(i, b)) == blob_map(s).insert(b.guid, b.frame),
{
    let s2 = s.update(i, b);
    assert forall|x: int, y: int| 0 <= x < y < s2.len() implies s2[x].guid != s2[y].guid by {
        assert(s[x].guid != s[y].guid);
    }
    lemma_map_at(s2, i);
    assert forall|g: BlobGuid| #[trigger] blob_map(s2).contains_key(g) <==> blob_map(s).insert(b.guid, b.frame).contains_key(g) by {
        if blob_map(s2).contains_key(g) {
            let k = choose|k: int| #[trigger] is_at(s2, k, g);
            assert(is_at(s, k, g));
        }
        if blob_map(s).contains_key(g) {
            let k = choose|k: int| #[trigger] is_at(s, k, g);
            assert(is_at(s2, k, g));
        }
    }
    assert forall|g: BlobGuid| #[trigger] blob_map(s2).contains_key(g) implies blob_map(s2)[g] == blob_map(s).insert(b.guid, b.frame)[g] by {
        let k = choose|k: int| #[trigger] is_at(s2, k, g);
        lemma_map_at(s2, k);
        lemma_map_at(s, k);
        if k != i {
            assert(g != b.guid) by {
                if k < i {
                    assert(s2[k].guid != s2[i].guid);
                } else {
                    assert(s2[i].guid != s2[k].guid);
                }
            }
        }
    }
    assert(blob_map(s2) =~= blob_map(s).insert(b.guid, b.frame));
}

/// A new entry adds its name to the map.
pub proof fn lemma_map_push(s: Seq<CachedBlob>, b: CachedBlob)
    requires
        distinct(s),
        !blob_map(s).contains_key(b.guid),
    ensures
        distinct(s.push(b)),
        blob_map(s.push(b)) == blob_map(s).insert(b.guid, b.frame),
{
    let s2 = s.push(b);
    assert forall|x: int, y: int| 0 <= x < y < s2.len() implies s2[x].guid != s2[y].guid by {
        if y < s.len() {
            assert(s[x].guid != s[y].guid);
        } else if s[x].guid == b.guid {
            assert(is_at(s, x, b.guid));
        }
    }
    lemma_map_at(s2, s.len() as int);
    assert forall|g: BlobGuid| #[trigger] blob_map(s2).contains_key(g) <==> blob_map(s).insert(b.guid, b.frame).contains_key(g) by {
        if blob_map(s2).contains_key(g) {
            let k = choose|k: int| #[trigger] is_at(s2, k, g);
            if k < s.len() {
                assert(is_at(s, k, g));
            }
        }
        if blob_map(s).contains_key(g) {
            let k = choose|k: int| #[trigger] is_at(s, k, g);
            assert(is_at(s2, k, g));
        }
    }
    assert forall|g: BlobGuid| #[trigger] blob_map(s2).contains_key(g) implies blob_map(s2)[g] == blob_map(s).insert(b.guid, b.frame)[g] by {
        let k = choose|k: int| #[trigger] is_at(s2, k, g);
        lemma_map_at(s2, k);
        if k < s.len() {
            lemma_map_at(s, k);
        }
    }
    assert(blob_map(s2) =~= blob_map(s).insert(b.guid, b.frame));
}

/// Whether every blob of `a` is in `b` at the same entry, with a newer
/// version unless it is the same in both.
pub open spec fn versioned(a: BufferManager, b: BufferManager) -> bool {
    &&& a.edition <= b.edition
    &&& a.blobs@.len() <= b.blobs@.len()
    &&& forall|i: int|
        0 <= i < b.blobs@.len() ==> {
            let y = #[trigger] b.blobs@[i];
            ||| newer(y.version, a.edition)
            ||| i < a.blobs@.len() && y.version == a.blobs@[i].version && y.frame == a.blobs@[i].frame && y.guid == a.blobs@[i].guid
        }
    &&& forall|i: int|
        0 <= i < a.blobs@.len() ==> (#[trigger] a.blobs@[i]).guid == b.blobs@[i].guid && b.base@[a.blobs@[i].guid] == a.base@[a.blobs@[i].guid]
}

/// Whether no record made at edition `e` or before can hold version `v`.
/// The last version is never trusted.
pub open spec fn newer(v: u64, e: u64) -> bool {
    v > e || v == u64::MAX
}

pub proof fn lemma_versioned_trans(a: BufferManager, b: BufferManager, c: BufferManager)
    requires
        versioned(a, b),
        versioned(b, c),
    ensures
        versioned(a, c),
{
    assert forall|i: int| 0 <= i < c.blobs@.len() implies {
        let y = #[trigger] c.blobs@[i];
        ||| newer(y.version, a.edition)
        ||| i < a.blobs@.len() && y.version == a.blobs@[i].version && y.frame == a.blobs@[i].frame && y.guid == a.blobs@[i].guid
    } by {
        let y = c.blobs@[i];
        if !newer(y.version, b.edition) {
            let x = b.blobs@[i];
        }
    }
    assert forall|i: int| 0 <= i < a.blobs@.len() implies (#[trigger] a.blobs@[i]).guid == c.blobs@[i].guid && c.base@[a.blobs@[i].guid]
        == a.base@[a.blobs@[i].guid] by {
        assert(b.blobs@[i].guid == c.blobs@[i].guid);
    }
}

/// Whether new blobs are stamped and shared ones told as before, and no blob
/// was handed over for deletion.
pub open spec fn same_rules(a: BufferManager, b: BufferManager) -> bool {
    a.fork_barrier == b.fork_barrier && a.epoch == b.epoch && a.deletes == b.deletes
}

/// `n`, or the largest number that a counter holds.
pub open spec fn at_most_max(n: nat) -> u64 {
    if n <= u64::MAX {
        n as u64
    } else {
        u64::MAX
    }
}

/// The counters after a walk over `hops` blobs that reached the last one with
/// `depth` key bytes consumed.
pub open spec fn after_walk(c: WalkCounters, hops: nat, depth: nat) -> WalkCounters {
    WalkCounters {
        walks: c.walks.wrapping_add(1),
        blob_hops: c.blob_hops.wrapping_add(at_most_max(hops)),
        max_cross_blob_depth: if depth > c.max_cross_blob_depth {
            depth as usize
        } else {
            c.max_cross_blob_depth
        },
        ..c
    }
}

/// The counters after `n` walks over `hops` blobs each, to `depth` key bytes.
pub open spec fn after_walks(c: WalkCounters, n: nat, hops: nat, depth: nat) -> WalkCounters
    decreases n,
{
    if n == 0 {
        c
    } else {
        after_walk(after_walks(c, (n - 1) as nat, hops, depth), hops, depth)
    }
}

/// `s` after `n` splits were counted.
pub open spec fn more_splits(s: u64, n: nat) -> u64
    decreases n,
{
    if n == 0 {
        s
    } else {
        more_splits(s, (n - 1) as nat).wrapping_add(1)
    }
}

/// Splits in sequence.
pub proof fn lemma_more_splits(s: u64, m: nat, n: nat)
    ensures
        more_splits(more_splits(s, m), n) == more_splits(s, m + n),
    decreases n,
{
    if n > 0 {
        lemma_more_splits(s, m, (n - 1) as nat);
    }
}

/// The counters after the walk of `key` from blob `g` that `f` shows.
pub open spec fn after_walk_of(c: WalkCounters, f: Forest, g: BlobGuid, key: Seq<u8>) -> WalkCounters {
    after_walk(c, f.hops(g, key), f.base[f.home(g, key)].len())
}

/// Names that one source can give.
pub const BLOB_NAMES: u64 = 0x1_0000_0000;

/// Whether `g` is the name that `source` gave last.
pub open spec fn last_name(source: GuidSource, g: BlobGuid) -> bool {
    g@ == guid_of(source.nanos, source.counter, match source.entropy {
        Some(e) => e@,
        None => mixed_tail(source.nanos, source.counter),
    })
}

/// The source of names after `n` names were drawn.
pub open spec fn ahead_by(source: GuidSource, n: int) -> GuidSource {
    GuidSource { counter: ((source.counter + n) % (BLOB_NAMES as int)) as u32, ..source }
}

/// Whether `g` is the first of the next names of `b` that no blob has, and
/// `source` is what is left to draw from.
pub open spec fn draws(b: BufferManager, source: GuidSource, g: BlobGuid) -> bool {
    &&& last_name(source, g)
    &&& !b.has(g)
    &&& exists|n: int|
        n >= 1 && source == #[trigger] ahead_by(b.source, n) && forall|k: int|
            1 <= k < n ==> exists|h: BlobGuid| last_name(#[trigger] ahead_by(b.source, k), h) && b.has(h)
}

/// Whether `b` has names for `n` more blobs.
pub open spec fn names_ahead(b: BufferManager, n: nat) -> bool {
    b.blobs@.len() + n <= BLOB_NAMES
}

/// Whether there is a name that no blob has.
pub open spec fn name_free(b: BufferManager) -> bool {
    b.blobs@.len() < BLOB_NAMES
}

/// Names drawn fewer draws apart than there are names differ.
proof fn lemma_names_differ(source: GuidSource, j: int, k: int, g: BlobGuid, h: BlobGuid)
    requires
        0 <= j < k < j + BLOB_NAMES,
        last_name(ahead_by(source, j), g),
        last_name(ahead_by(source, k), h),
    ensures
        g != h,
{
    let a = ahead_by(source, j);
    let b = ahead_by(source, k);
    let m = BLOB_NAMES as int;
    if a.counter == b.counter {
        vstd::arithmetic::div_mod::lemma_mod_equivalence(source.counter + k, source.counter + j, m);
        vstd::arithmetic::div_mod::lemma_small_mod((k - j) as nat, m as nat);
    }
    let t1 = match a.entropy {
        Some(e) => e@,
        None => mixed_tail(a.nanos, a.counter),
    };
    let t2 = match b.entropy {
        Some(e) => e@,
        None => mixed_tail(b.nanos, b.counter),
    };
    fresh_guids_are_distinct(a.nanos, a.counter, t1, b.nanos, b.counter, t2);
}

/// Distinct places among `n` are at most `n`.
proof fn lemma_places(places: Seq<int>, n: nat)
    requires
        places.no_duplicates(),
        forall|i: int| 0 <= i < places.len() ==> 0 <= #[trigger] places[i] < n,
    ensures
        places.len() <= n,
{
    places.unique_seq_to_set();
    vstd::set_lib::lemma_int_range(0, n as int);
    vstd::set_lib::lemma_len_subset(places.to_set(), vstd::set_lib::set_int_range(0, n as int));
}

/// Whether a snapshot may see blob `f`.
pub open spec fn is_shared(f: BlobFrame, barrier: u64) -> bool {
    barrier != 0 && f.header.created_epoch <= barrier
}

impl BufferManager {
    /// The blobs with their annotations.
    pub open spec fn forest(&self) -> Forest {
        Forest { blobs: blob_map(self.blobs@), base: self.base@, rank: self.rank@ }
    }

    /// Whether the store is well-formed.
    pub open spec fn wf(&self) -> bool {
        &&& distinct(self.blobs@)
        &&& self.forest().linked()
        &&& self.fork_barrier != 0 ==> self.fork_barrier < self.epoch
        &&& forall|i: int| 0 <= i < self.blobs@.len() ==> (#[trigger] self.blobs@[i]).frame.header.blob_guid == self.blobs@[i].guid
        &&& forall|i: int| 0 <= i < self.blobs@.len() ==> (#[trigger] self.blobs@[i]).version <= self.edition
    }

    /// Whether there is a blob named `g`.
    pub open spec fn has(&self, g: BlobGuid) -> bool {
        self.forest().has(g)
    }

    /// A store without blobs.
    pub fn new(source: GuidSource) -> (r: BufferManager)
        ensures
            r.wf(),
            r.blobs@.len() == 0,
            r.fork_barrier == 0,
            r.epoch == 1,
            r.deletes@.len() == 0,
            r.compaction_candidates@.len() == 0,
            r.merge_candidates@.len() == 0,
            r.source == source,
            r.edition == 0,
            r.counters == (WalkCounters { walks: 0, blob_hops: 0, max_cross_blob_depth: 0, restarts: 0, spillovers: 0 }),
            forall|g: BlobGuid, p: int| !#[trigger] r.cold_pages.has(g, p),
    {
        let r = BufferManager {
            blobs: Vec::new(),
            edition: 0,
            fork_barrier: 0,
            epoch: 1,
            deletes: Vec::new(),
            compaction_candidates: Vec::new(),
            merge_candidates: Vec::new(),
            counters: WalkCounters { walks: 0, blob_hops: 0, max_cross_blob_depth: 0, restarts: 0, spillovers: 0 },
            source,
            cold_pages: ColdPageCache::new(),
            base: Ghost(Map::empty()),
            rank: Ghost(Map::empty()),
        };
        proof {
            assert forall|g: BlobGuid| !#[trigger] r.forest().has(g) by {
                if r.forest().has(g) {
                    let i = choose|i: int| #[trigger] is_at(r.blobs@, i, g);
                }
            }
        }
        r
    }

    /// The entry of blob `guid`, if there is one.
    pub fn position(&self, guid: &BlobGuid) -> (r: Option<usize>)
        requires
            distinct(self.blobs@),
        ensures
            match r {
                Some(i) => is_at(self.blobs@, i as int, *guid) && self.has(*guid) && self.forest().blobs[*guid] == self.blobs@[i as int].frame,
                None => !self.has(*guid),
            },
    {
        let mut i: usize = 0;
        while i < self.blobs.len()
            invariant
                i <= self.blobs@.len(),
                distinct(self.blobs@),
                forall|j: int| 0 <= j < i ==> (#[trigger] self.blobs@[j]).guid != *guid,
            decreases self.blobs@.len() - i,
        {
            if guid_eq(&self.blobs[i].guid, guid) {
                proof {
                    lemma_map_at(self.blobs@, i as int);
                }
                return Some(i);
            }
            i = i + 1;
        }
        proof {
            if self.has(*guid) {
                let k = choose|k: int| #[trigger] is_at(self.blobs@, k, *guid);
                assert(self.blobs@[k].guid == *guid);
            }
        }
        None
    }

    /// The entry of blob `guid`.
    pub fn pin(&self, guid: BlobGuid) -> (r: Result<usize>)
        requires
            distinct(self.blobs@),
        ensures
            match r {
                Ok(i) => is_at(self.blobs@, i as int, guid) && self.has(guid) && self.forest().blobs[guid] == self.blobs@[i as int].frame,
                Err(e) => !self.has(guid) && e == (Error::BlobNotFound { guid }),
            },
    {
        match self.position(&guid) {
            Some(i) => Ok(i),
            None => Err(Error::BlobNotFound { guid }),
        }
    }

    /// Whether blob `guid` was handed over for deletion.
    pub open spec fn fenced(&self, guid: BlobGuid) -> bool {
        exists|i: int| 0 <= i < self.deletes@.len() && (#[trigger] self.deletes@[i]).0 == guid
    }

    /// Whether blob `guid` was handed over for deletion.
    pub fn has_delete_fence(&self, guid: BlobGuid) -> (r: bool)
        ensures
            r == self.fenced(guid),
    {
        let mut i: usize = 0;
        while i < self.deletes.len()
            invariant
                i <= self.deletes@.len(),
                forall|j: int| 0 <= j < i ==> (#[trigger] self.deletes@[j]).0 != guid,
            decreases self.deletes@.len() - i,
        {
            if guid_eq(&self.deletes[i].0, &guid) {
                assert(self.deletes@[i as int].0 == guid);
                return true;
            }
            i = i + 1;
        }
        false
    }

    /// Hands blob `guid` over for deletion. It stays readable until the
    /// deletion is carried out.
    pub fn mark_for_delete(&mut self, guid: BlobGuid, seq: u64)
        ensures
            final(self).deletes@ == old(self).deletes@.push((guid, seq)),
            *final(self) == (BufferManager { deletes: final(self).deletes, ..*old(self) }),
    {
        self.deletes.push((guid, seq));
    }

    /// Notes that a blob should be rebuilt.
    pub fn note_compaction_candidate(&mut self, guid: BlobGuid)
        ensures
            final(self).compaction_candidates@.contains(guid),
            forall|g: BlobGuid| #[trigger] final(self).compaction_candidates@.contains(g) <==> old(self).compaction_candidates@.contains(g) || g == guid,
            *final(self) == (BufferManager { compaction_candidates: final(self).compaction_candidates, ..*old(self) }),
    {
        add_once(&mut self.compaction_candidates, guid);
    }

    /// Notes that a blob may have children to fold back.
    pub fn note_merge_candidate(&mut self, guid: BlobGuid)
        ensures
            final(self).merge_candidates@.contains(guid),
            forall|g: BlobGuid| #[trigger] final(self).merge_candidates@.contains(g) <==> old(self).merge_candidates@.contains(g) || g == guid,
            *final(self) == (BufferManager { merge_candidates: final(self).merge_candidates, ..*old(self) }),
    {
        add_once(&mut self.merge_candidates, guid);
    }

    /// Counts a split.
    pub fn note_spillover(&mut self)
        ensures
            *final(self) == (BufferManager {
                counters: WalkCounters { spillovers: old(self).counters.spillovers.wrapping_add(1), ..old(self).counters },
                ..*old(self)
            }),
    {
        self.counters.spillovers = self.counters.spillovers.wrapping_add(1);
    }

    /// Counts a restart.
    pub fn note_optimistic_restart(&mut self)
        ensures
            *final(self) == (BufferManager {
                counters: WalkCounters { restarts: old(self).counters.restarts.wrapping_add(1), ..old(self).counters },
                ..*old(self)
            }),
    {
        self.counters.restarts = self.counters.restarts.wrapping_add(1);
    }

    /// Counts a walk over `hops` blobs that entered its last one with
    /// `depth` key bytes consumed.
    pub fn note_walker_blob_hops(&mut self, hops: u64, depth: usize)
        ensures
            *final(self) == (BufferManager {
                counters: WalkCounters {
                    walks: old(self).counters.walks.wrapping_add(1),
                    blob_hops: old(self).counters.blob_hops.wrapping_add(hops),
                    max_cross_blob_depth: if depth > old(self).counters.max_cross_blob_depth {
                        depth
                    } else {
                        old(self).counters.max_cross_blob_depth
                    },
                    ..old(self).counters
                },
                ..*old(self)
            }),
    {
        self.counters.walks = self.counters.walks.wrapping_add(1);
        self.counters.blob_hops = self.counters.blob_hops.wrapping_add(hops);
        if depth > self.counters.max_cross_blob_depth {
            self.counters.max_cross_blob_depth = depth;
        }
    }
}

/// Adds a name to a list unless it is there.
fn add_once(list: &mut Vec<BlobGuid>, guid: BlobGuid)
    ensures
        forall|g: BlobGuid| #[trigger] final(list)@.contains(g) <==> old(list)@.contains(g) || g == guid,
        final(list)@.contains(guid),
{
    let ghost before = list@;
    let mut i: usize = 0;
    while i < list.len()
        invariant
            list@ == before,
            i <= list@.len(),
        decreases list@.len() - i,
    {
        if guid_eq(&list[i], &guid) {
            assert(list@[i as int] == guid);
            return ;
        }
        i = i + 1;
    }
    list.push(guid);
    proof {
        assert(list@[before.len() as int] == guid);
        assert forall|g: BlobGuid| #[trigger] list@.contains(g) <==> before.contains(g) || g == guid by {
            if before.contains(g) {
                let k = choose|k: int| 0 <= k < before.len() && before[k] == g;
                assert(list@[k] == g);
            }
            if list@.contains(g) && g != guid {
                let k = choose|k: int| 0 <= k < list@.len() && list@[k] == g;
                assert(before[k] == g);
            }
        }
    }
}

/// Whether `b` is `a` with another image of entry `i` and a new version of
/// it.
pub open spec fn rewritten(a: BufferManager, b: BufferManager, i: int, f: BlobFrame) -> bool {
    &&& 0 <= i < a.blobs@.len()
    &&& b.edition == (if a.edition < u64::MAX { a.edition + 1 } else { u64::MAX as int })
    &&& b.blobs@ == a.blobs@.update(i, CachedBlob { frame: f, version: b.edition, cached: true, ..a.blobs@[i] })
    &&& b == (BufferManager { blobs: b.blobs, edition: b.edition, ..a })
}

/// What a new image of an entry does to the store.
pub proof fn lemma_rewritten(a: BufferManager, b: BufferManager, i: int, f: BlobFrame)
    requires
        a.wf(),
        rewritten(a, b, i, f),
        f.header.blob_guid == a.blobs@[i].guid,
    ensures
        b.forest() == a.forest().with(a.blobs@[i].guid, f),
        versioned(a, b),
        same_rules(a, b),
        b.forest().linked() ==> b.wf(),
{
    lemma_map_update(a.blobs@, i, b.blobs@[i]);
    assert(b.forest().blobs =~= a.forest().with(a.blobs@[i].guid, f).blobs);
    assert forall|k: int| 0 <= k < b.blobs@.len() implies (#[trigger] b.blobs@[k]).version <= b.edition by {
        if k != i {
            assert(b.blobs@[k] == a.blobs@[k]);
        }
    }
    assert forall|k: int| 0 <= k < b.blobs@.len() implies (#[trigger] b.blobs@[k]).frame.header.blob_guid == b.blobs@[k].guid by {
        if k != i {
            assert(b.blobs@[k] == a.blobs@[k]);
        }
    }
}

/// Whether `b` is `a` but for marks beside the blobs.
pub open spec fn remarked(a: BufferManager, b: BufferManager) -> bool {
    &&& a.blobs@.len() == b.blobs@.len()
    &&& forall|i: int|
        0 <= i < a.blobs@.len() ==> {
            let x = a.blobs@[i];
            let y = #[trigger] b.blobs@[i];
            x.guid == y.guid && x.frame == y.frame && x.version == y.version
        }
    &&& a.edition == b.edition && same_rules(a, b) && a.base == b.base && a.rank == b.rank && a.source == b.source
}

/// Whether page `p` of the blob of entry `x` may be kept for a lookup of `key`:
/// of a blob whose layout is in order only the header page, and those of the
/// internal nodes that the key passes.
pub open spec fn worth_keeping(x: CachedBlob, base: Seq<u8>, key: Seq<u8>, p: int) -> bool {
    in_order(x.frame) ==> p == 0 || routing_pages(x.frame.cells@, x.frame.tree(), key, base.len() as int).contains(p)
}

/// Whether `b` is `a` after a lookup of `key`: blobs may have come into memory,
/// but with `paged` none that can be read page by page, and pages of others
/// may have been kept.
pub open spec fn only_read(a: BufferManager, b: BufferManager, key: Seq<u8>, paged: bool) -> bool {
    &&& b == (BufferManager { blobs: b.blobs, cold_pages: b.cold_pages, ..a })
    &&& a.blobs@.len() == b.blobs@.len()
    &&& forall|i: int|
        0 <= i < a.blobs@.len() ==> {
            let x = a.blobs@[i];
            let y = #[trigger] b.blobs@[i];
            &&& y == (CachedBlob { cached: y.cached, route_resident: y.route_resident, ..x })
            &&& x.cached ==> y.cached
            &&& x.route_resident ==> y.route_resident
            &&& y.cached && !x.cached ==> !(paged && in_order(x.frame) && !a.fenced(x.guid))
        }
    &&& forall|h: BlobGuid, p: int| #[trigger] a.cold_pages.has(h, p) ==> b.cold_pages.has(h, p)
    &&& forall|h: BlobGuid, p: int| #[trigger]
        b.cold_pages.has(h, p) && !a.cold_pages.has(h, p) ==> paged && exists|i: int|
            0 <= i < a.blobs@.len() && (#[trigger] a.blobs@[i]).guid == h && !a.blobs@[i].cached && worth_keeping(a.blobs@[i], a.base@[h], key, p)
}

/// Lookups in sequence.
pub proof fn lemma_only_read_trans(a: BufferManager, b: BufferManager, c: BufferManager, key: Seq<u8>, paged: bool)
    requires
        only_read(a, b, key, paged),
        only_read(b, c, key, paged),
    ensures
        only_read(a, c, key, paged),
{
    assert forall|i: int| 0 <= i < a.blobs@.len() implies {
        let x = a.blobs@[i];
        let z = #[trigger] c.blobs@[i];
        &&& z == (CachedBlob { cached: z.cached, route_resident: z.route_resident, ..x })
        &&& x.cached ==> z.cached
        &&& x.route_resident ==> z.route_resident
        &&& z.cached && !x.cached ==> !(paged && in_order(x.frame) && !a.fenced(x.guid))
    } by {
        let y = b.blobs@[i];
    }
    assert forall|h: BlobGuid, p: int| #[trigger] a.cold_pages.has(h, p) implies c.cold_pages.has(h, p) by {
        assert(b.cold_pages.has(h, p));
    }
    assert forall|h: BlobGuid, p: int| #[trigger] c.cold_pages.has(h, p) && !a.cold_pages.has(h, p) implies paged && exists|i: int|
        0 <= i < a.blobs@.len() && (#[trigger] a.blobs@[i]).guid == h && !a.blobs@[i].cached && worth_keeping(a.blobs@[i], a.base@[h], key, p) by {
        if !b.cold_pages.has(h, p) {
            let i = choose|i: int|
                0 <= i < b.blobs@.len() && (#[trigger] b.blobs@[i]).guid == h && !b.blobs@[i].cached && worth_keeping(b.blobs@[i], b.base@[h], key, p);
            assert(a.blobs@[i].guid == h);
        }
    }
}

pub proof fn lemma_remarked(a: BufferManager, b: BufferManager)
    requires
        a.wf(),
        remarked(a, b),
    ensures
        b.forest() == a.forest(),
        b.wf(),
        versioned(a, b),
{
    assert forall|i: int, j: int| 0 <= i < j < b.blobs@.len() implies b.blobs@[i].guid != b.blobs@[j].guid by {
        assert(a.blobs@[i].guid != a.blobs@[j].guid);
        assert(b.blobs@[i].guid == a.blobs@[i].guid);
        assert(b.blobs@[j].guid == a.blobs@[j].guid);
    }
    assert forall|g: BlobGuid| #[trigger] blob_map(b.blobs@).contains_key(g) <==> blob_map(a.blobs@).contains_key(g) by {
        if blob_map(b.blobs@).contains_key(g) {
            let k = choose|k: int| #[trigger] is_at(b.blobs@, k, g);
            assert(b.blobs@[k].guid == a.blobs@[k].guid);
            assert(is_at(a.blobs@, k, g));
        }
        if blob_map(a.blobs@).contains_key(g) {
            let k = choose|k: int| #[trigger] is_at(a.blobs@, k, g);
            assert(b.blobs@[k].guid == a.blobs@[k].guid);
            assert(is_at(b.blobs@, k, g));
        }
    }
    assert forall|g: BlobGuid| #[trigger] blob_map(b.blobs@).contains_key(g) implies blob_map(b.blobs@)[g] == blob_map(a.blobs@)[g] by {
        let k = choose|k: int| #[trigger] is_at(b.blobs@, k, g);
        assert(b.blobs@[k].guid == a.blobs@[k].guid);
        lemma_map_at(a.blobs@, k);
        lemma_map_at(b.blobs@, k);
    }
    assert(blob_map(b.blobs@) =~= blob_map(a.blobs@));
    assert forall|i: int| 0 <= i < b.blobs@.len() implies (#[trigger] b.blobs@[i]).frame.header.blob_guid == b.blobs@[i].guid && b.blobs@[i].version
        <= b.edition by {
        assert(a.blobs@[i].frame.header.blob_guid == a.blobs@[i].guid);
        assert(a.blobs@[i].version <= a.edition);
    }
}

impl BufferManager {
    /// Gives entry `at`, which is in memory to be written to, a new version.
    pub fn touch(&mut self, at: usize)
        requires
            at < old(self).blobs@.len(),
        ensures
            final(self).edition == (if old(self).edition < u64::MAX { old(self).edition + 1 } else { u64::MAX as int }),
            final(self).blobs@ == old(self).blobs@.update(at as int, CachedBlob { version: final(self).edition, cached: true, ..old(self).blobs@[at as int] }),
            *final(self) == (BufferManager { blobs: final(self).blobs, edition: final(self).edition, ..*old(self) }),
    {
        self.edition = self.edition.saturating_add(1);
        self.blobs[at].version = self.edition;
        self.blobs[at].cached = true;
    }

    /// Records that entry `at` has a change of sequence `seq` that was not
    /// written back. The oldest such sequence is kept.
    pub fn mark_dirty(&mut self, at: usize, seq: u64)
        requires
            at < old(self).blobs@.len(),
            old(self).wf(),
        ensures
            remarked(*old(self), *final(self)),
            final(self).wf(),
            final(self).forest() == old(self).forest(),
            versioned(*old(self), *final(self)),
            final(self).blobs@[at as int].dirty == (match old(self).blobs@[at as int].dirty {
                Some(s) if s < seq => Some(s),
                _ => Some(seq),
            }),
            forall|i: int| 0 <= i < old(self).blobs@.len() && i != at ==> final(self).blobs@[i] == old(self).blobs@[i],
            *final(self) == (BufferManager { blobs: final(self).blobs, ..*old(self) }),
    {
        let ghost before = *self;
        let keep: bool = match self.blobs[at].dirty {
            Some(s) => s < seq,
            None => false,
        };
        if !keep {
            self.blobs[at].dirty = Some(seq);
        }
        proof {
            lemma_remarked(before, *self);
        }
    }

    /// Notes that a cached route leads to entry `at`.
    pub fn mark_route_resident(&mut self, at: usize)
        requires
            at < old(self).blobs@.len(),
            old(self).wf(),
        ensures
            remarked(*old(self), *final(self)),
            final(self).wf(),
            final(self).forest() == old(self).forest(),
            versioned(*old(self), *final(self)),
            final(self).blobs@ == old(self).blobs@.update(at as int, CachedBlob { route_resident: true, ..old(self).blobs@[at as int] }),
            *final(self) == (BufferManager { blobs: final(self).blobs, ..*old(self) }),
    {
        let ghost before = *self;
        self.blobs[at].route_resident = true;
        proof {
            lemma_remarked(before, *self);
        }
    }

    /// Brings the whole of entry `at` into memory.
    pub fn load(&mut self, at: usize)
        requires
            at < old(self).blobs@.len(),
            old(self).wf(),
        ensures
            remarked(*old(self), *final(self)),
            final(self).wf(),
            final(self).forest() == old(self).forest(),
            versioned(*old(self), *final(self)),
            final(self).blobs@ == old(self).blobs@.update(at as int, CachedBlob { cached: true, ..old(self).blobs@[at as int] }),
            *final(self) == (BufferManager { blobs: final(self).blobs, ..*old(self) }),
    {
        let ghost before = *self;
        self.blobs[at].cached = true;
        proof {
            lemma_remarked(before, *self);
        }
    }

    /// The first of the next names that no blob has. Fails if there are as
    /// many blobs as names.
    pub fn draw_guid(&mut self) -> (r: Result<BlobGuid>)
        requires
            distinct(old(self).blobs@),
        ensures
            match r {
                Ok(g) => {
                    &&& name_free(*old(self))
                    &&& *final(self) == (BufferManager { source: final(self).source, ..*old(self) })
                    &&& draws(*old(self), final(self).source, g)
                    &&& !crate::layout::is_root_guid(g)
                },
                Err(e) => e is Internal && !name_free(*old(self)) && *final(self) == *old(self),
            },
    {
        if self.blobs.len() as u64 >= BLOB_NAMES {
            return Err(Error::Internal("no blob name is left"));
        }
        let ghost first = *self;
        let ghost s0 = self.source;
        let mut tries: usize = 0;
        let ghost mut places: Seq<int> = Seq::empty();
        let ghost mut taken: Seq<BlobGuid> = Seq::empty();
        assert((s0.counter + 0) % (BLOB_NAMES as int) == s0.counter);
        loop
            invariant
                first == *old(self),
                s0 == first.source,
                distinct(first.blobs@),
                *self == (BufferManager { source: self.source, ..first }),
                self.source == ahead_by(s0, tries as int),
                first.blobs@.len() < BLOB_NAMES,
                tries <= first.blobs@.len(),
                places.len() == tries,
                taken.len() == tries,
                forall|k: int|
                    0 <= k < tries ==> last_name(ahead_by(s0, k + 1), #[trigger] taken[k]) && is_at(first.blobs@, places[k], taken[k]),
                forall|k: int| 0 <= k < tries ==> 0 <= #[trigger] places[k] < first.blobs@.len(),
                places.no_duplicates(),
            decreases first.blobs@.len() - tries,
        {
            self.source.counter = self.source.counter.wrapping_add(1);
            proof {
                assert(self.source == ahead_by(s0, tries + 1));
            }
            let g: BlobGuid = fresh_blob_guid(self.source.nanos, self.source.counter, self.source.entropy);
            assert(last_name(self.source, g));
            match self.position(&g) {
                None => {
                    proof {
                        assert forall|k: int| 1 <= k < tries + 1 implies exists|h: BlobGuid|
                            last_name(#[trigger] ahead_by(s0, k), h) && first.has(h) by {
                            assert(last_name(ahead_by(s0, (k - 1) + 1), taken[k - 1]));
                            assert(first.has(taken[k - 1]));
                        }
                    }
                    return Ok(g);
                },
                Some(i) => {
                    proof {
                        assert forall|k: int| 0 <= k < tries implies #[trigger] places[k] != i by {
                            lemma_names_differ(s0, k + 1, tries + 1, taken[k], g);
                            assert(is_at(first.blobs@, places[k], taken[k]));
                        }
                        places = places.push(i as int);
                        taken = taken.push(g);
                        lemma_places(places, first.blobs@.len());
                    }
                },
            }
            tries = tries + 1;
        }
    }

    /// Adds an empty blob that no key bytes lead to.
    pub fn open_root(&mut self, guid: BlobGuid) -> (r: Result<usize>)
        requires
            old(self).wf(),
        ensures
            final(self).wf(),
            match r {
                Ok(i) => {
                    &&& !old(self).has(guid)
                    &&& is_at(final(self).blobs@, i as int, guid)
                    &&& final(self).has(guid)
                    &&& final(self).forest().base[guid].len() == 0
                    &&& reshaped(old(self).forest(), final(self).forest(), guid)
                    &&& forall|key: Seq<u8>| #[trigger] final(self).forest().find(guid, key) is NotFound
                    &&& versioned(*old(self), *final(self))
                    &&& same_rules(*old(self), *final(self))
                    &&& final(self).blobs@ == old(self).blobs@.push(final(self).blobs@[i as int])
                    &&& final(self).blobs@[i as int].frame.tree() == (Art::Empty { slot: 1 })
                    &&& final(self).blobs@[i as int].frame.header.created_epoch == old(self).epoch
                    &&& final(self).blobs@[i as int].dirty is None
                    &&& final(self).counters == old(self).counters
                },
                Err(e) => e is Internal && old(self).has(guid) && *final(self) == *old(self),
            },
    {
        if self.position(&guid).is_some() {
            return Err(Error::Internal("the blob exists"));
        }
        let ghost before = *self;
        let mut frame = BlobFrame::init(guid);
        let ghost f0 = frame;
        frame.header.created_epoch = self.epoch;
        proof {
            assert(frame.tree() == f0.tree());
            assert(f0.wf(Seq::empty()));
            assert(frame.wf(Seq::empty()));
        }
        let i: usize = self.push_blob(guid, frame, None, Ghost(Seq::empty()), Ghost(0));
        proof {
            let a = before.forest();
            let b = self.forest();
            assert forall|key: Seq<u8>| !(#[trigger] b.route(guid, key) is Crossing) by {
                assert(b.blobs[guid].tree() == (Art::Empty { slot: 1 }));
            }
            assert(b.linked()) by {
                assert forall|g: BlobGuid, key: Seq<u8>| b.has(g) && b.below(g, key) implies #[trigger] b.edge_ok(g, key) by {
                    if g != guid {
                        assert(a.has(g));
                        assert(a.edge_ok(g, key));
                        assert(b.route(g, key) == a.route(g, key));
                    } else {
                        assert(!(b.route(guid, key) is Crossing));
                    }
                }
                assert forall|g: BlobGuid| #[trigger] b.has(g) implies b.blobs[g].wf(b.base[g]) by {
                    if g != guid {
                        assert(a.has(g));
                    }
                }
            }
            assert forall|g: BlobGuid, key: Seq<u8>| a.has(g) && a.below(g, key) implies #[trigger] b.find(g, key) == a.find(g, key) by {
                lemma_added_find(a, b, guid, g, key);
            }
            assert forall|key: Seq<u8>| #[trigger] b.find(guid, key) is NotFound by {
                assert(b.blobs[guid].tree() == (Art::Empty { slot: 1 }));
                assert(b.route(guid, key) is NotFound);
            }
        }
        Ok(i)
    }

    /// Adds a blob.
    fn push_blob(&mut self, guid: BlobGuid, frame: BlobFrame, dirty: Option<u64>, Ghost(base): Ghost<Seq<u8>>, Ghost(rank): Ghost<nat>) -> (r: usize)
        requires
            old(self).wf(),
            !old(self).has(guid),
            frame.header.blob_guid == guid,
        ensures
            r == old(self).blobs@.len(),
            distinct(final(self).blobs@),
            is_at(final(self).blobs@, r as int, guid),
            final(self).blobs@ == old(self).blobs@.push(final(self).blobs@[r as int]),
            final(self).blobs@[r as int].frame == frame,
            final(self).blobs@[r as int].dirty == dirty,
            final(self).forest() == (Forest {
                blobs: old(self).forest().blobs.insert(guid, frame),
                base: old(self).forest().base.insert(guid, base),
                rank: old(self).forest().rank.insert(guid, rank),
            }),
            versioned(*old(self), *final(self)),
            same_rules(*old(self), *final(self)),
            final(self).forest().linked() ==> final(self).wf(),
            *final(self) == (BufferManager {
                blobs: final(self).blobs,
                edition: final(self).edition,
                base: final(self).base,
                rank: final(self).rank,
                ..*old(self)
            }),
    {
        let ghost before = *self;
        self.edition = self.edition.saturating_add(1);
        let i: usize = self.blobs.len();
        let blob = CachedBlob { guid, frame, version: self.edition, dirty, cached: true, route_resident: false };
        let ghost b = blob;
        self.blobs.push(blob);
        self.base = Ghost(before.base@.insert(guid, base));
        self.rank = Ghost(before.rank@.insert(guid, rank));
        proof {
            lemma_map_push(before.blobs@, b);
            assert forall|k: int| 0 <= k < self.blobs@.len() implies (#[trigger] self.blobs@[k]).version <= self.edition && self.blobs@[k].frame.header.blob_guid
                == self.blobs@[k].guid by {
                if k < i {
                    assert(self.blobs@[k] == before.blobs@[k]);
                }
            }
            assert forall|k: int| 0 <= k < before.blobs@.len() implies (#[trigger] before.blobs@[k]).guid == self.blobs@[k].guid && self.base@[before.blobs@[k].guid]
                == before.base@[before.blobs@[k].guid] by {
                assert(self.blobs@[k] == before.blobs@[k]);
                assert(before.blobs@[k].guid != guid) by {
                    lemma_map_at(before.blobs@, k);
                }
            }
        }
        i
    }
}

/// A blob that nothing leads to changes nothing for keys of other blobs.
proof fn lemma_added_find(a: Forest, b: Forest, n: BlobGuid, g: BlobGuid, key: Seq<u8>)
    requires
        a.linked(),
        b.linked(),
        a.has(g),
        a.below(g, key),
        !a.has(n),
        forall|x: BlobGuid| #[trigger] a.has(x) ==> b.has(x) && b.base[x] == a.base[x] && b.blobs[x] == a.blobs[x],
    ensures
        b.find(g, key) == a.find(g, key),
    decreases a.rank[g],
{
    assert(a.edge_ok(g, key));
    assert(b.edge_ok(g, key));
    assert(b.route(g, key) == a.route(g, key));
    match a.route(g, key) {
        Route::Crossing { guid: c, .. } => {
            lemma_added_find(a, b, n, c, key);
        },
        _ => {},
    }
}

/// What every change of blob `g` that no key notices promises of the store.
pub open spec fn settled(a: BufferManager, b: BufferManager, g: BlobGuid) -> bool {
    &&& b.wf()
    &&& versioned(a, b)
    &&& same_rules(a, b)
    &&& reshaped(a.forest(), b.forest(), g)
}

pub proof fn lemma_settled_trans(a: BufferManager, b: BufferManager, c: BufferManager, g: BlobGuid)
    requires
        settled(a, b, g),
        settled(b, c, g),
    ensures
        settled(a, c, g),
{
    lemma_versioned_trans(a, b, c);
    crate::forest::lemma_reshaped_trans(a.forest(), b.forest(), c.forest(), g);
}

/// Marks beside the blobs are noticed by no key.
pub proof fn lemma_settled_remarked(a: BufferManager, b: BufferManager, g: BlobGuid)
    requires
        a.wf(),
        remarked(a, b),
    ensures
        settled(a, b, g),
{
    lemma_remarked(a, b);
    crate::forest::lemma_reshaped_refl(a.forest(), g);
}

/// Drawing a name is noticed by no key.
pub proof fn lemma_settled_drawn(a: BufferManager, b: BufferManager, g: BlobGuid)
    requires
        a.wf(),
        b == (BufferManager { source: b.source, ..a }),
    ensures
        settled(a, b, g),
        b.forest() == a.forest(),
{
    crate::forest::lemma_reshaped_refl(a.forest(), g);
}

/// Whether entry `y` is to be written back, for a change of sequence `seq` or
/// an older one.
pub open spec fn is_dirty(y: CachedBlob, seq: u64) -> bool {
    y.dirty matches Some(s) && s <= seq
}

/// Whether a change of sequence `seq` from `a` to `b` is on record: marks and
/// notes stay, and every blob that is new or changed is to be written back,
/// but for blob `spared`, which the caller answers for.
#[verifier::opaque]
pub open spec fn marked(a: BufferManager, b: BufferManager, seq: u64, spared: Option<BlobGuid>) -> bool {
    &&& a.blobs@.len() <= b.blobs@.len()
    &&& forall|i: int| 0 <= i < a.blobs@.len() ==> (#[trigger] b.blobs@[i]).guid == a.blobs@[i].guid
    &&& forall|i: int| 0 <= i < a.blobs@.len() ==> (a.blobs@[i].dirty matches Some(s) ==> is_dirty(#[trigger] b.blobs@[i], s))
    &&& forall|g: BlobGuid| #[trigger] b.compaction_candidates@.contains(g) || !a.compaction_candidates@.contains(g)
    &&& forall|g: BlobGuid| #[trigger] b.merge_candidates@.contains(g) || !a.merge_candidates@.contains(g)
    &&& forall|i: int|
        0 <= i < b.blobs@.len() && spared != Some((#[trigger] b.blobs@[i]).guid) && (i >= a.blobs@.len() || b.blobs@[i].frame != a.blobs@[i].frame)
            ==> is_dirty(b.blobs@[i], seq)
}

pub proof fn lemma_marked_trans(a: BufferManager, b: BufferManager, c: BufferManager, seq: u64, spared: Option<BlobGuid>)
    requires
        marked(a, b, seq, spared),
        marked(b, c, seq, spared),
    ensures
        marked(a, c, seq, spared),
{
    reveal(marked);
    assert forall|i: int| 0 <= i < a.blobs@.len() implies (#[trigger] c.blobs@[i]).guid == a.blobs@[i].guid by {
        assert(b.blobs@[i].guid == a.blobs@[i].guid);
    }
    assert forall|i: int| 0 <= i < a.blobs@.len() implies (a.blobs@[i].dirty matches Some(s) ==> is_dirty(#[trigger] c.blobs@[i], s)) by {
        assert(b.blobs@[i].guid == a.blobs@[i].guid);
    }
    assert forall|i: int|
        0 <= i < c.blobs@.len() && spared != Some((#[trigger] c.blobs@[i]).guid) && (i >= a.blobs@.len() || c.blobs@[i].frame != a.blobs@[i].frame)
            implies is_dirty(c.blobs@[i], seq) by {
        if i < b.blobs@.len() {
            assert(b.blobs@[i].guid == c.blobs@[i].guid);
            if i >= a.blobs@.len() || b.blobs@[i].frame != a.blobs@[i].frame {
                assert(is_dirty(b.blobs@[i], seq));
            }
        }
    }
    assert forall|g: BlobGuid| #[trigger] c.compaction_candidates@.contains(g) || !a.compaction_candidates@.contains(g) by {
        assert(b.compaction_candidates@.contains(g) || !a.compaction_candidates@.contains(g));
    }
    assert forall|g: BlobGuid| #[trigger] c.merge_candidates@.contains(g) || !a.merge_candidates@.contains(g) by {
        assert(b.merge_candidates@.contains(g) || !a.merge_candidates@.contains(g));
    }
}

/// A new image of an entry is on record but for that entry.
pub proof fn lemma_marked_rewritten(a: BufferManager, b: BufferManager, i: int, f: BlobFrame, seq: u64)
    requires
        rewritten(a, b, i, f),
    ensures
        marked(a, b, seq, Some(a.blobs@[i].guid)),
{
    reveal(marked);
}

/// A new entry beside a new image of entry `i`.
pub proof fn lemma_marked_pushed(a: BufferManager, b: BufferManager, c: BufferManager, i: int, f: BlobFrame, seq: u64)
    requires
        rewritten(a, b, i, f),
        c.blobs@.len() == b.blobs@.len() + 1,
        c.blobs@ == b.blobs@.push(c.blobs@.last()),
        c.blobs@.last().dirty == Some(seq),
        c.compaction_candidates == b.compaction_candidates,
        c.merge_candidates == b.merge_candidates,
    ensures
        marked(a, c, seq, Some(a.blobs@[i].guid)),
{
    reveal(marked);
    assert forall|k: int| 0 <= k < b.blobs@.len() implies #[trigger] c.blobs@[k] == b.blobs@[k] by {}
}

/// Marking the spared entry puts all on record.
pub proof fn lemma_marked_whole(a: BufferManager, b: BufferManager, c: BufferManager, at: int, seq: u64)
    requires
        distinct(b.blobs@),
        0 <= at < b.blobs@.len(),
        marked(a, b, seq, Some(b.blobs@[at].guid)),
        c.blobs@.len() == b.blobs@.len(),
        forall|i: int| 0 <= i < b.blobs@.len() && i != at ==> c.blobs@[i] == b.blobs@[i],
        c.blobs@[at].guid == b.blobs@[at].guid,
        c.blobs@[at].frame == b.blobs@[at].frame,
        c.blobs@[at].dirty == (match b.blobs@[at].dirty {
            Some(s) if s < seq => Some(s),
            _ => Some(seq),
        }),
        c == (BufferManager { blobs: c.blobs, ..b }),
    ensures
        marked(a, c, seq, None),
{
    reveal(marked);
    assert forall|i: int| 0 <= i < a.blobs@.len() implies (#[trigger] c.blobs@[i]).guid == a.blobs@[i].guid by {
        assert(b.blobs@[i].guid == a.blobs@[i].guid);
    }
    assert forall|i: int| 0 <= i < a.blobs@.len() implies (a.blobs@[i].dirty matches Some(s) ==> is_dirty(#[trigger] c.blobs@[i], s)) by {
        assert(b.blobs@[i].guid == a.blobs@[i].guid);
    }
    assert forall|i: int|
        0 <= i < c.blobs@.len() && (i >= a.blobs@.len() || (#[trigger] c.blobs@[i]).frame != a.blobs@[i].frame) implies is_dirty(c.blobs@[i], seq) by {
        if i != at {
            assert(b.blobs@[i].guid != b.blobs@[at].guid);
            assert(is_dirty(b.blobs@[i], seq));
        }
    }
}

/// Nothing is owed for a spared entry that did not change.
pub proof fn lemma_marked_unchanged(a: BufferManager, b: BufferManager, at: int, seq: u64)
    requires
        distinct(b.blobs@),
        0 <= at < a.blobs@.len(),
        marked(a, b, seq, Some(b.blobs@[at].guid)),
        b.blobs@[at].frame == a.blobs@[at].frame,
    ensures
        marked(a, b, seq, None),
{
    reveal(marked);
    assert forall|i: int|
        0 <= i < b.blobs@.len() && (i >= a.blobs@.len() || (#[trigger] b.blobs@[i]).frame != a.blobs@[i].frame) implies is_dirty(b.blobs@[i], seq) by {
        if i != at {
            assert(b.blobs@[i].guid != b.blobs@[at].guid);
        }
    }
}

/// Marks and notes beside the blobs are on record.
pub proof fn lemma_marked_notes(a: BufferManager, b: BufferManager, seq: u64, spared: Option<BlobGuid>)
    requires
        b.blobs == a.blobs,
        forall|g: BlobGuid| #[trigger] b.compaction_candidates@.contains(g) || !a.compaction_candidates@.contains(g),
        forall|g: BlobGuid| #[trigger] b.merge_candidates@.contains(g) || !a.merge_candidates@.contains(g),
    ensures
        marked(a, b, seq, spared),
{
    reveal(marked);
}

/// What is on record but for no blob is on record but for any.
pub proof fn lemma_marked_sparing(a: BufferManager, b: BufferManager, seq: u64, g: BlobGuid)
    requires
        marked(a, b, seq, None),
    ensures
        marked(a, b, seq, Some(g)),
{
    reveal(marked);
}

/// Whether `f` is `f0` after a split, and `child` what moved out, stamped with
/// `epoch`.
pub open spec fn split_off(f0: BlobFrame, f: BlobFrame, child: BlobFrame, epoch: u64) -> bool {
    exists|out: Spilled| #[trigger] spilled(f0, f, child.header.blob_guid, out) && child == (BlobFrame {
        header: BlobHeader { created_epoch: epoch, ..out.child.header },
        ..out.child
    })
}

/// Whether a split of entry `at` that failed with `e` for want of room for the
/// blob node left the copy of the subtree behind: the last blob of `b`, which
/// no key leads to.
pub open spec fn stray_left(b0: BufferManager, b: BufferManager, at: int, seq: u64, e: Error) -> bool {
    let last = b.blobs@.last();
    &&& e is Alloc
    &&& !b0.blobs@[at].frame.has_room(crate::layout::BLOB_NODE_SIZE as int, true)
    &&& b.blobs@.len() == b0.blobs@.len() + 1
    &&& !b0.has(last.guid)
    &&& draws(b0, b.source, last.guid)
    &&& last.dirty == Some(seq)
    &&& exists|c0: BlobFrame, via: Seq<u8>| #[trigger] copied_out(b0.blobs@[at].frame, b.blobs@[at].frame, last.guid, c0, via) && last.frame == (BlobFrame {
        header: BlobHeader { created_epoch: b.epoch, ..c0.header },
        ..c0
    })
}

impl BufferManager {
    /// Rebuilds entry `at` in place.
    pub fn compact_at(&mut self, at: usize) -> (r: Result<()>)
        requires
            old(self).wf(),
            at < old(self).blobs@.len(),
        ensures
            settled(*old(self), *final(self), old(self).blobs@[at as int].guid),
            rewritten(*old(self), *final(self), at as int, final(self).blobs@[at as int].frame),
            match r {
                Ok(_) => crate::migrate::compacted(
                    old(self).blobs@[at as int].frame,
                    final(self).blobs@[at as int].frame,
                ),
                Err(e) => {
                    let f = old(self).blobs@[at as int].frame;
                    &&& e is Alloc
                    &&& final(self).blobs@[at as int].frame == f
                    &&& !crate::migrate::plain_takes(crate::migrate::budget(f.cells@, f.tree(), true))
                },
            },
    {
        let ghost before = *self;
        let ghost g = self.blobs@[at as int].guid;
        let ghost f0 = self.blobs@[at as int].frame;
        proof {
            lemma_map_at(self.blobs@, at as int);
            assert(self.forest().has(g));
            assert(f0.wf(self.base@[g]));
        }
        let r = crate::migrate::compact_blob(&mut self.blobs[at].frame);
        self.touch(at);
        proof {
            let f = self.blobs@[at as int].frame;
            assert(self.blobs@ =~= before.blobs@.update(
                at as int,
                CachedBlob { frame: f, version: self.edition, cached: true, ..before.blobs@[at as int] },
            ));
            lemma_rewritten(before, *self, at as int, f);
            let a = before.forest();
            assert forall|key: Seq<u8>| a.below(g, key) implies #[trigger] a.with(g, f).route(g, key) == a.route(g, key) by {
                if r is Ok {
                    assert(f.route(key, a.base[g].len() as int) == step(f0.tree(), key, a.base[g].len() as int));
                }
            }
            assert(f.wf(a.base[g]));
            lemma_with_same(a, g, f);
        }
        r
    }

    /// Moves a subtree of entry `at` into a new blob. Where only the blob node
    /// finds no place, the new blob is there all the same, and nothing leads to
    /// it.
    pub fn spill_at(&mut self, at: usize, seq: u64) -> (r: Result<usize>)
        requires
            old(self).wf(),
            at < old(self).blobs@.len(),
        ensures
            settled(*old(self), *final(self), old(self).blobs@[at as int].guid),
            final(self).counters == old(self).counters,
            match r {
                Ok(i) => {
                    &&& i == old(self).blobs@.len() == final(self).blobs@.len() - 1
                    &&& !old(self).has(final(self).blobs@[i as int].guid)
                    &&& split_off(
                        old(self).blobs@[at as int].frame,
                        final(self).blobs@[at as int].frame,
                        final(self).blobs@[i as int].frame,
                        final(self).epoch,
                    )
                    &&& final(self).blobs@[i as int].dirty == Some(seq)
                    &&& marked(*old(self), *final(self), seq, Some(old(self).blobs@[at as int].guid))
                    &&& name_free(*old(self))
                    &&& draws(*old(self), final(self).source, final(self).blobs@[i as int].guid)
                    &&& final(self).blobs@[at as int].frame.header.compact_times == old(self).blobs@[at as int].frame.header.compact_times
                    &&& forall|h: BlobGuid| #[trigger] final(self).has(h) ==> old(self).has(h) || h == final(self).blobs@[i as int].guid
                    &&& !is_shared(final(self).blobs@[i as int].frame, final(self).fork_barrier)
                },
                Err(e) => {
                    let f0 = old(self).blobs@[at as int].frame;
                    let f = final(self).blobs@[at as int].frame;
                    &&& if final(self).blobs@.len() == old(self).blobs@.len() {
                        f == f0
                    } else {
                        stray_left(*old(self), *final(self), at as int, seq, e)
                    }
                    &&& f == (BlobFrame { header: BlobHeader { dead_bytes: f.header.dead_bytes, ..f0.header }, cells: f.cells, ..f0 })
                    &&& f.cells@ == f0.cells@
                    &&& e is Internal ==> !name_free(*old(self)) && *final(self) == *old(self)
                    &&& !(e is Internal) ==> name_free(*old(self)) && (e is NotYetImplemented || e is Alloc) && !splittable(old(self).blobs@[at as int].frame)
                },
            },
    {
        let ghost first = *self;
        let ghost g = self.blobs@[at as int].guid;
        let guid: BlobGuid = match self.draw_guid() {
            Ok(x) => x,
            Err(e) => {
                proof {
                    lemma_settled_drawn(first, *self, g);
                }
                return Err(e);
            },
        };
        let ghost before = *self;
        let ghost f0 = self.blobs@[at as int].frame;
        proof {
            lemma_settled_drawn(first, before, g);
            lemma_map_at(self.blobs@, at as int);
            assert(self.forest().has(g));
            assert(f0.wf(self.base@[g]));
        }
        let out = spillover_blob(&mut self.blobs[at].frame, guid);
        self.touch(at);
        let ghost mid = *self;
        let ghost a = before.forest();
        let ghost f = self.blobs@[at as int].frame;
        proof {
            assert(self.blobs@ =~= before.blobs@.update(
                at as int,
                CachedBlob { frame: f, version: self.edition, cached: true, ..before.blobs@[at as int] },
            ));
            lemma_rewritten(before, mid, at as int, f);
        }
        match out {
            Ok(moved) => {
                let ghost out0 = moved;
                let mut child: BlobFrame = moved.child;
                let ghost via = moved.path@;
                let ghost c0 = child;
                child.header.created_epoch = self.epoch;
                proof {
                    assert(child.tree() == c0.tree());
                    assert(f0.wf(a.base[g]));
                    assert(f.wf(a.base[g]));
                    assert(c0.wf(a.base[g] + via));
                    assert forall|key: Seq<u8>, d: int| #[trigger] child.route(key, d) == c0.route(key, d) by {}
                    lemma_split(a, g, f, guid, child, via);
                    lemma_map_at(mid.blobs@, at as int);
                    assert(!mid.has(guid));
                }
                let i: usize = self.push_spilled(guid, child, seq, Ghost(before), Ghost(g), Ghost(f), Ghost(via));
                proof {
                    lemma_versioned_trans(before, mid, *self);
                    lemma_settled_trans(first, before, *self, g);
                    assert(self.blobs@[at as int] == mid.blobs@[at as int]);
                    assert(spilled(f0, f, guid, out0));
                    lemma_marked_notes(first, before, seq, Some(g));
                    lemma_marked_pushed(before, mid, *self, at as int, f, seq);
                    lemma_marked_trans(first, before, *self, seq, Some(g));
                    assert forall|h: BlobGuid| #[trigger] self.has(h) implies first.has(h) || h == guid by {}
                }
                Ok(i)
            },
            Err(Stranded { error, child: None, .. }) => {
                proof {
                    f.lemma_tree(f0.tree());
                    assert(f.wf(a.base[g]));
                    lemma_with_same(a, g, f);
                    lemma_settled_trans(first, before, *self, g);
                }
                Err(error)
            },
            Err(Stranded { error, child: Some(moved), path }) => {
                let mut child: BlobFrame = moved;
                let ghost via = path@;
                let ghost c0 = child;
                child.header.created_epoch = self.epoch;
                proof {
                    f.lemma_tree(f0.tree());
                    assert(f.wf(a.base[g]));
                    assert(child.tree() == c0.tree());
                    assert(c0.wf(a.base[g] + via));
                    assert forall|key: Seq<u8>, d: int| #[trigger] child.route(key, d) == c0.route(key, d) by {}
                    assert forall|key: Seq<u8>, d: int| #[trigger] f.route(key, d) == f0.route(key, d) by {}
                    lemma_split(a, g, f, guid, child, via);
                    lemma_map_at(mid.blobs@, at as int);
                    assert(!mid.has(guid));
                }
                let _ = self.push_spilled(guid, child, seq, Ghost(before), Ghost(g), Ghost(f), Ghost(via));
                proof {
                    lemma_versioned_trans(before, mid, *self);
                    lemma_settled_trans(first, before, *self, g);
                    assert(self.blobs@[at as int] == mid.blobs@[at as int]);
                    assert(copied_out(f0, f, guid, c0, via));
                }
                Err(error)
            },
        }
    }

    /// Adds the blob that a subtree of `g` moved to.
    fn push_spilled(
        &mut self,
        guid: BlobGuid,
        child: BlobFrame,
        seq: u64,
        Ghost(before): Ghost<BufferManager>,
        Ghost(g): Ghost<BlobGuid>,
        Ghost(f): Ghost<BlobFrame>,
        Ghost(via): Ghost<Seq<u8>>,
    ) -> (r: usize)
        requires
            before.wf(),
            distinct(old(self).blobs@),
            old(self).forest() == before.forest().with(g, f),
            old(self).fork_barrier != 0 ==> old(self).fork_barrier < old(self).epoch,
            forall|i: int| 0 <= i < old(self).blobs@.len() ==> (#[trigger] old(self).blobs@[i]).frame.header.blob_guid == old(self).blobs@[i].guid,
            forall|i: int| 0 <= i < old(self).blobs@.len() ==> (#[trigger] old(self).blobs@[i]).version <= old(self).edition,
            !old(self).has(guid),
            !before.has(guid),
            child.header.blob_guid == guid,
            crate::forest::split(before.forest(), g, f, guid, child, via).linked(),
        ensures
            r == old(self).blobs@.len(),
            final(self).wf(),
            final(self).blobs@ == old(self).blobs@.push(final(self).blobs@[r as int]),
            final(self).blobs@[r as int].guid == guid,
            final(self).blobs@[r as int].frame == child,
            final(self).blobs@[r as int].dirty == Some(seq),
            final(self).forest() == crate::forest::split(before.forest(), g, f, guid, child, via),
            versioned(*old(self), *final(self)),
            same_rules(*old(self), *final(self)),
            final(self).source == old(self).source,
            final(self).compaction_candidates == old(self).compaction_candidates,
            final(self).merge_candidates == old(self).merge_candidates,
            final(self).counters == old(self).counters,
    {
        let ghost mid = *self;
        self.edition = self.edition.saturating_add(1);
        let i: usize = self.blobs.len();
        let blob = CachedBlob { guid, frame: child, version: self.edition, dirty: Some(seq), cached: true, route_resident: false };
        let ghost b = blob;
        self.blobs.push(blob);
        let ghost next = crate::forest::split(before.forest(), g, f, guid, child, via);
        self.base = Ghost(next.base);
        self.rank = Ghost(next.rank);
        proof {
            lemma_map_push(mid.blobs@, b);
            assert forall|k: int| 0 <= k < self.blobs@.len() implies (#[trigger] self.blobs@[k]).version <= self.edition && self.blobs@[k].frame.header.blob_guid
                == self.blobs@[k].guid by {
                if k < i {
                    assert(self.blobs@[k] == mid.blobs@[k]);
                }
            }
            assert forall|k: int| 0 <= k < mid.blobs@.len() implies (#[trigger] mid.blobs@[k]).guid == self.blobs@[k].guid && self.base@[mid.blobs@[k].guid]
                == mid.base@[mid.blobs@[k].guid] by {
                assert(self.blobs@[k] == mid.blobs@[k]);
                assert(mid.blobs@[k].guid != guid) by {
                    lemma_map_at(mid.blobs@, k);
                }
            }
            assert(self.forest() == next);
        }
        i
    }
}

/// Whether two nodes say the same.
pub open spec fn same_node(a: Option<Node>, b: Option<Node>) -> bool {
    match (a, b) {
        (Some(Node::Leaf(x)), Some(Node::Leaf(y))) => x.key@ == y.key@ && x.value@ == y.value@ && x.seq == y.seq && x.tombstone == y.tombstone && x.key_fp == y.key_fp,
        (Some(Node::Prefix(x)), Some(Node::Prefix(y))) => x.bytes@ == y.bytes@ && x.child == y.child,
        (Some(Node::Blob(x)), Some(Node::Blob(y))) => x.bytes@ == y.bytes@ && x.child_blob_guid == y.child_blob_guid,
        (Some(Node::Leaf(_)), _) => false,
        (Some(Node::Prefix(_)), _) => false,
        (Some(Node::Blob(_)), _) => false,
        (x, y) => x == y,
    }
}

/// Arenas whose nodes say the same spell out the same trees.
pub proof fn lemma_rep_copied(c: Seq<Option<Node>>, c2: Seq<Option<Node>>, t: Art)
    requires
        rep(c, t),
        forall|i: int| same_node(#[trigger] at(c, i), at(c2, i)),
    ensures
        rep(c2, t),
    decreases t,
{
    assert(same_node(at(c, slot_of(t)), at(c2, slot_of(t))));
    match t {
        Art::Prefix { child, .. } => lemma_rep_copied(c, c2, *child),
        Art::Inner { kids, .. } => {
            assert forall|b: int| 0 <= b < 256 && (#[trigger] kids[b]) is Some implies rep(c2, kids[b]->0) by {
                lemma_rep_copied(c, c2, kids[b]->0);
            }
        },
        _ => {},
    }
}

/// A copy of a node.
pub fn copy_node(n: &Node) -> (r: Node)
    ensures
        same_node(Some(*n), Some(r)),
{
    match n {
        Node::EmptyRoot => Node::EmptyRoot,
        Node::Leaf(l) => Node::Leaf(
            Leaf {
                key: copy_bytes(&l.key),
                value: copy_bytes(&l.value),
                seq: l.seq,
                tombstone: l.tombstone,
                key_fp: l.key_fp,
            },
        ),
        Node::Prefix(p) => Node::Prefix(Prefix { bytes: copy_bytes(&p.bytes), child: p.child }),
        Node::Blob(b) => Node::Blob(BlobNode { bytes: copy_bytes(&b.bytes), child_blob_guid: b.child_blob_guid }),
        _ => crate::erase::copy_inner(n),
    }
}

/// A copy of a blob under another name, stamped with `epoch`.
pub fn copy_frame(frame: &BlobFrame, guid: BlobGuid, epoch: u64) -> (r: BlobFrame)
    requires
        frame.ok(),
    ensures
        r.ok(),
        r.arena_end == frame.arena_end,
        r.header == (BlobHeader { blob_guid: guid, created_epoch: epoch, ..frame.header }),
        forall|i: int| same_node(#[trigger] at(frame.cells@, i), at(r.cells@, i)),
        forall|path: Seq<u8>| frame.wf(path) ==> #[trigger] r.wf(path) && r.tree() == frame.tree(),
{
    let mut cells: Vec<Option<Node>> = Vec::new();
    let mut i: usize = 0;
    while i < frame.cells.len()
        invariant
            i <= frame.cells@.len(),
            cells@.len() == i,
            forall|k: int| 0 <= k < i ==> same_node(#[trigger] frame.cells@[k], cells@[k]),
        decreases frame.cells@.len() - i,
    {
        let ghost c0 = cells@;
        match &frame.cells[i] {
            Some(n) => {
                cells.push(Some(copy_node(n)));
            },
            None => {
                cells.push(None);
            },
        }
        assert forall|k: int| 0 <= k < i + 1 implies same_node(#[trigger] frame.cells@[k], cells@[k]) by {
            if k < i {
                assert(cells@[k] == c0[k]);
            }
        }
        i = i + 1;
    }
    let mut header: BlobHeader = frame.header;
    header.blob_guid = guid;
    header.created_epoch = epoch;
    let r = BlobFrame { header, cells, arena_end: frame.arena_end };
    proof {
        assert forall|k: int| same_node(#[trigger] at(frame.cells@, k), at(r.cells@, k)) by {
            if 0 <= k < frame.cells@.len() {
                assert(same_node(frame.cells@[k], r.cells@[k]));
            }
        }
        assert(r.ok()) by {
            assert forall|k: int|
                crate::frame::unit_of(r.header.space_used as int) <= k < crate::frame::unit_of(r.arena_end as int) implies (#[trigger] at(
                r.cells@,
                k,
            )) is None by {
                assert(same_node(at(frame.cells@, k), at(r.cells@, k)));
            }
            assert(same_node(at(frame.cells@, 0), at(r.cells@, 0)));
            assert forall|k: int| crate::frame::ends_within(k, #[trigger] at(r.cells@, k)) by {
                assert(same_node(at(frame.cells@, k), at(r.cells@, k)));
                assert(crate::frame::ends_within(k, at(frame.cells@, k)));
            }
            assert forall|k: int|
                ((#[trigger] at(r.cells@, k)) is Some <==> at(frame.cells@, k) is Some) && (at(frame.cells@, k) is Some
                    ==> crate::layout::node_size(at(r.cells@, k)->0) == crate::layout::node_size(at(frame.cells@, k)->0)) by {
                assert(same_node(at(frame.cells@, k), at(r.cells@, k)));
            }
            crate::extent::lemma_extents_same(
                frame.cells@,
                r.cells@,
                frame.header.space_used as int,
                frame.header.num_slots as int,
            );
        }
        assert forall|path: Seq<u8>| frame.wf(path) implies #[trigger] r.wf(path) && r.tree() == frame.tree() by {
            lemma_rep_copied(frame.cells@, r.cells@, frame.tree());
            r.lemma_tree(frame.tree());
        }
    }
    r
}

/// A copy of the subtree at `src_off` as a blob of its own, in a buffer that
/// the store can take over.
pub fn make_blob_from_node_in(_bm: &BufferManager, src_frame: &BlobFrame, src_off: u32, new_guid: BlobGuid) -> (r: Result<MakeBlobOutcome>)
    requires
        DATA_AREA_START <= src_off < PAGE_SIZE,
        rooted(src_frame.cells@, slot_at(src_off)),
        sep(tree_at(src_frame.cells@, slot_at(src_off))),
    ensures
        ({
            let t = tree_at(src_frame.cells@, slot_at(src_off));
            match r {
                Ok(out) => {
                    &&& out.buf.sound()
                    &&& out.buf.header.blob_guid == new_guid
                    &&& new_blob_header(out.buf.header, dead(t), budget(src_frame.cells@, t, false))
                    &&& forall|key: Seq<u8>, d: int| #[trigger] out.buf.route(key, d) == step(t, key, d)
                    &&& forall|path: Seq<u8>| keyed(t, path) ==> #[trigger] out.buf.wf(path)
                },
                Err(e) => e is Alloc && !blob_takes(budget(src_frame.cells@, t, false)),
            }
        }),
{
    make_blob_from_node(src_frame, src_off, new_guid)
}

} // verus!
