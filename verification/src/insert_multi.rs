//! Inserting into a tree that spans many blobs.
//!
//! The walk follows blob nodes from blob to blob. A blob that runs out of
//! room is split, and a blob that a snapshot may see is forked, on the way.
use vstd::prelude::*;

use crate::art::{at, rep, slot_of, step, Art, Route};
use crate::cow::{child_is_snapshot_shared, fork_child_if_shared, lemma_blob_at, twin};
use crate::errors::{AllocError, Error, Result};
use crate::forest::{all_same, grown, lemma_crossing_depth, lemma_home_depth, lemma_with_key, lemma_with_same, only_touched, others_same, reshaped, Forest};
use crate::frame::{BlobFrame, BlobHeader};
use crate::insert::{
    blob_at, conflict, deleted_leaf, insert_at_step, insert_cost, lemma_rep_root, lemma_written_blobs, put_waste, written,
};
use crate::key::SearchKey;
use crate::layout::{BlobGuid, Node, BLOB_NODE_SIZE, MAX_SLOTS, PREFIX_MAX_INLINE};
use crate::migrate::{blob_needs_compaction, budget, clamp, needs_compaction, plain_takes, rebuilt};
use crate::simd::lcp;
use crate::spillover::{lemma_splittable_kept, moved, spilled, splittable, Spilled};
use crate::store::{
    after_walk_of, after_walks, at_most_max, is_at, is_dirty, is_shared, lemma_map_at, lemma_marked_notes, lemma_marked_rewritten,
    lemma_marked_sparing, lemma_marked_trans, lemma_marked_unchanged, lemma_marked_whole, lemma_more_splits, lemma_remarked,
    lemma_rewritten, lemma_settled_remarked, lemma_settled_trans, lemma_versioned_trans, marked, more_splits, name_free, names_ahead,
    remarked, rewritten, same_node, same_rules, settled, split_off, versioned, BufferManager, CachedBlob, WalkCounters,
};
use crate::types::{writes, BlobCrossing, InsertCondition, InsertOutcome, InsertStep};
use crate::lookup::lookup_at;
use crate::route::{crosses_freely, follow_route, is_root, knows_way, learn_crossing, lemma_routes_kept, routes_ok};
use crate::route_cache::RouteCache;
use crate::types::LookupResult;
use crate::writers::{affords, chain_nodes, failed, keeps, short, Cost};

verus! {

/// Splits that one blob may go through for one insert.
pub const MAX_SPILLOVER_ATTEMPTS: u32 = 64;

/// How far a walk over blobs has gone.
#[derive(Debug, Clone, Copy, PartialEq, Eq, Structural)]
pub struct WalkTrace {
    pub blob_hops: u64,
    pub max_cross_blob_depth: usize,
}

/// Whether `b` is trace `a` after the walk of `key` from blob `g` that `f`
/// shows.
pub open spec fn traced(a: WalkTrace, b: WalkTrace, f: Forest, g: BlobGuid, key: Seq<u8>) -> bool {
    let depth = f.base[f.home(g, key)].len();
    &&& b.blob_hops == at_most_max(a.blob_hops as nat + f.hops(g, key))
    &&& b.max_cross_blob_depth == (if depth > a.max_cross_blob_depth {
        depth
    } else {
        a.max_cross_blob_depth as nat
    })
}

/// Whether `b` is trace `a`, which counts blob `g` already, after the rest of
/// the walk.
pub open spec fn traced_from(a: WalkTrace, b: WalkTrace, f: Forest, g: BlobGuid, key: Seq<u8>) -> bool {
    let depth = f.base[f.home(g, key)].len();
    &&& b.blob_hops == at_most_max((a.blob_hops + f.hops(g, key) - 1) as nat)
    &&& b.max_cross_blob_depth == (if depth > a.max_cross_blob_depth {
        depth
    } else {
        a.max_cross_blob_depth as nat
    })
}

/// Whether `b` has the blobs of `b0` and no others, and only that where the
/// walk of `key` from `g` ends may have another image, be to be written back
/// anew, or be noted as one to rebuild.
pub open spec fn at_home(b0: BufferManager, b: BufferManager, g: BlobGuid, key: Seq<u8>) -> bool {
    let h = b0.forest().home(g, key);
    &&& b.blobs@.len() == b0.blobs@.len()
    &&& forall|i: int| 0 <= i < b0.blobs@.len() && (#[trigger] b0.blobs@[i]).guid != h ==> b.blobs@[i].frame == b0.blobs@[i].frame
    &&& forall|i: int| 0 <= i < b0.blobs@.len() && (#[trigger] b0.blobs@[i]).guid != h ==> b.blobs@[i].dirty == b0.blobs@[i].dirty
    &&& forall|x: BlobGuid| #[trigger] b.compaction_candidates@.contains(x) ==> b0.compaction_candidates@.contains(x) || x == h
    &&& forall|x: BlobGuid| #[trigger] b.merge_candidates@.contains(x) ==> b0.merge_candidates@.contains(x)
}

/// Whether `b` has the marks and notes of `a`.
pub open spec fn same_marks(a: BufferManager, b: BufferManager) -> bool {
    &&& b.blobs@.len() == a.blobs@.len()
    &&& forall|i: int| 0 <= i < a.blobs@.len() ==> (#[trigger] b.blobs@[i]).dirty == a.blobs@[i].dirty
    &&& b.compaction_candidates == a.compaction_candidates
    &&& b.merge_candidates == a.merge_candidates
}

/// Whether `c` are counters `c0` after the splits that led from `b0` to `b`:
/// without a snapshot one for each blob that was added, but for one that a
/// split which failed left behind.
pub open spec fn after_splits(b0: BufferManager, b: BufferManager, c0: WalkCounters, c: WalkCounters, failed: bool) -> bool {
    let n = b.blobs@.len() - b0.blobs@.len();
    &&& c == (WalkCounters { spillovers: c.spillovers, ..c0 })
    &&& b0.fork_barrier == 0 ==> c.spillovers == more_splits(c0.spillovers, n as nat) || (failed && n > 0 && c.spillovers == more_splits(
        c0.spillovers,
        (n - 1) as nat,
    ))
}

/// Whether only splits were counted from `b0` to `b`.
#[verifier::opaque]
pub open spec fn splits_counted(b0: BufferManager, b: BufferManager, failed: bool) -> bool {
    b0.blobs@.len() <= b.blobs@.len() && after_splits(b0, b, b0.counters, b.counters, failed)
}

/// Nothing counted.
proof fn lemma_splits_none(a: BufferManager, b: BufferManager)
    requires
        b.counters == a.counters,
        b.blobs@.len() >= a.blobs@.len(),
        a.fork_barrier == 0 ==> b.blobs@.len() == a.blobs@.len(),
    ensures
        splits_counted(a, b, false),
        splits_counted(a, b, true),
{
    reveal(splits_counted);
}

/// Splits counted in sequence.
proof fn lemma_splits_trans(a: BufferManager, b: BufferManager, c: BufferManager, failed: bool)
    requires
        splits_counted(a, b, false),
        splits_counted(b, c, failed),
        same_rules(a, b),
    ensures
        splits_counted(a, c, failed),
        splits_counted(a, c, true),
{
    reveal(splits_counted);
    let m = b.blobs@.len() - a.blobs@.len();
    let n = c.blobs@.len() - b.blobs@.len();
    lemma_more_splits(a.counters.spillovers, m as nat, n as nat);
    if n > 0 {
        lemma_more_splits(a.counters.spillovers, m as nat, (n - 1) as nat);
    }
}

/// A step that counts nothing and adds no blob.
proof fn lemma_splits_still(a: BufferManager, b: BufferManager, c: BufferManager)
    requires
        splits_counted(a, b, false),
        same_rules(a, b),
        c.counters == b.counters,
        c.blobs@.len() == b.blobs@.len(),
    ensures
        splits_counted(a, c, false),
        splits_counted(a, c, true),
{
    reveal(splits_counted);
}

/// Whether an insert that starts at blob `g` counted its splits and, if it
/// succeeded, its walk.
pub open spec fn put_counted(b0: BufferManager, b: BufferManager, g: BlobGuid, key: Seq<u8>, r: Result<InsertOutcome>) -> bool {
    after_splits(b0, b, if r is Ok {
        after_walk_of(b0.counters, b.forest(), g, key)
    } else {
        b0.counters
    }, b.counters, r is Err)
}

/// Whether `b` is a later stage of trace `a`.
pub open spec fn further(a: WalkTrace, b: WalkTrace) -> bool {
    a.blob_hops <= b.blob_hops && a.max_cross_blob_depth <= b.max_cross_blob_depth
}

/// How far an insert got in one blob.
pub enum BlobInsert {
    Done(bool),
    Crossing(BlobCrossing),
}

/// Whether the blobs of `a` that a walk from blob `g` must leave alone are
/// unchanged in `b`: those that a snapshot may see, and those that the walk
/// cannot reach.
pub open spec fn spares(a: Forest, b: Forest, g: BlobGuid, barrier: u64) -> bool {
    forall|h: BlobGuid|
        #[trigger] a.has(h) && h != g && (a.rank[h] >= a.rank[g] || is_shared(a.blobs[h], barrier)) ==> b.blobs[h] == a.blobs[h]
}

/// What any write that starts at blob `g` keeps.
pub open spec fn kept(b0: BufferManager, b: BufferManager, g: BlobGuid) -> bool {
    &&& b.wf()
    &&& versioned(b0, b)
    &&& same_rules(b0, b)
    &&& grown(b0.forest(), b.forest())
    &&& spares(b0.forest(), b.forest(), g, b0.fork_barrier)
}

/// Whether the key conflicts with a record where its walk from `g` ends.
pub open spec fn clashes(f: Forest, g: BlobGuid, key: Seq<u8>) -> bool {
    let h = f.home(g, key);
    conflict(f.blobs[h].tree(), key, f.base[h].len() as int)
}

/// Whether the blob where the walk of `key` from `g` ends has room for the
/// record.
pub open spec fn roomy(f: Forest, g: BlobGuid, key: Seq<u8>, value: Seq<u8>) -> bool {
    let h = f.home(g, key);
    affords(f.blobs[h], insert_cost(f.blobs[h].cells@, f.blobs[h].tree(), key, f.base[h].len() as int, value.len() as int))
}

/// Whether the blob where the walk of `key` from `g` ends lacks nothing but
/// bytes, and can be split.
pub open spec fn crowded(f: Forest, g: BlobGuid, key: Seq<u8>, value: Seq<u8>) -> bool {
    let h = f.home(g, key);
    &&& !roomy(f, g, key, value)
    &&& too_full(f.blobs[h], insert_cost(f.blobs[h].cells@, f.blobs[h].tree(), key, f.base[h].len() as int, value.len() as int))
}

/// Whether a blob has the slots for `k` and can be split.
pub open spec fn too_full(f: BlobFrame, k: Cost) -> bool {
    f.header.num_slots + k.nodes <= MAX_SLOTS && splittable(f)
}

/// Whether a write of `key` that starts at blob `g` gets through to the blob
/// where its walk ends: there is a name for every blob on the way that may have
/// to be forked.
pub open spec fn free_way(b: BufferManager, g: BlobGuid, key: Seq<u8>) -> bool {
    b.fork_barrier == 0 || names_ahead(b, b.forest().hops(g, key))
}

/// How often the blob of entry `y` was rebuilt.
pub open spec fn rebuilds(y: CachedBlob) -> int {
    y.frame.header.compact_times as int
}

/// Whether some blob was split or rebuilt as often as one insert allows.
pub open spec fn worn_out(b0: BufferManager, b: BufferManager) -> bool {
    exists|i: int|
        0 <= i < b.blobs@.len() && rebuilds(#[trigger] b.blobs@[i]) >= clamp((if i < b0.blobs@.len() {
            rebuilds(b0.blobs@[i])
        } else {
            0
        }) + MAX_SPILLOVER_ATTEMPTS)
}

/// Whether no blob of `a` was rebuilt less often in `b`.
#[verifier::opaque]
pub open spec fn rebuilt_more(a: BufferManager, b: BufferManager) -> bool {
    &&& a.blobs@.len() <= b.blobs@.len()
    &&& forall|i: int| 0 <= i < a.blobs@.len() ==> rebuilds(a.blobs@[i]) <= rebuilds(#[trigger] b.blobs@[i])
}

/// Whether what is live in some blob does not fit a rebuilt one.
pub open spec fn unbuildable(b: BufferManager) -> bool {
    exists|i: int|
        0 <= i < b.blobs@.len() && !plain_takes(budget((#[trigger] b.blobs@[i]).frame.cells@, b.blobs@[i].frame.tree(), true))
}

/// Most nodes that one insert allocates.
pub open spec fn most_nodes(key: Seq<u8>) -> int {
    3 + chain_nodes(key.len() as int)
}

/// Whether the blob where the walk of `key` from `g` ends has no room for the
/// record, or hardly a slot left, and cannot be split.
pub open spec fn wedged(f: Forest, g: BlobGuid, key: Seq<u8>, value: Seq<u8>) -> bool {
    let h = f.blobs[f.home(g, key)];
    &&& !splittable(h)
    &&& !roomy(f, g, key, value) || h.header.num_slots + most_nodes(key) > MAX_SLOTS
}

/// Why an insert that starts at blob `g` failed with `e`: as the store stands
/// now, the key conflicts with a record, or its walk ends in a blob that has no
/// room and cannot be split; or a blob was split or rebuilt as often as is allowed, or cannot be rebuilt; or no name is left for a new blob.
/// As long as none of these holds, a blob that was split is tried again.
#[verifier::opaque]
pub open spec fn gave_up(b0: BufferManager, b: BufferManager, g: BlobGuid, key: Seq<u8>, value: Seq<u8>, e: Error) -> bool {
    let f = b.forest();
    ||| e is NotYetImplemented && clashes(f, g, key)
    ||| wedged(f, g, key, value)
    ||| e is NotYetImplemented && worn_out(b0, b)
    ||| e is Alloc && unbuildable(b)
    ||| e is Internal && !name_free(b)
}

/// Whether every blob of `a` that the walk of `key` used to end in, and now
/// leads out of, is noted as one that has children to fold back.
#[verifier::opaque]
pub open spec fn splits_noted(a: BufferManager, b: BufferManager, key: Seq<u8>) -> bool {
    forall|h: BlobGuid|
        #[trigger] a.has(h) && a.forest().below(h, key) && !(a.forest().route(h, key) is Crossing) && b.forest().route(h, key) is Crossing
            ==> b.merge_candidates@.contains(h)
}

/// Whether the blob where the walk of `key` from `g` ends is noted as one to
/// rebuild, if that would reclaim anything worthwhile.
pub open spec fn waste_noted(b: BufferManager, g: BlobGuid, key: Seq<u8>) -> bool {
    let h = b.forest().home(g, key);
    needs_compaction(b.forest().blobs[h].header) ==> b.compaction_candidates@.contains(h)
}

/// Whether what a write of `key` did to blob `g` is reported: the blob is
/// dirty when the record was written there, and when it leads the key
/// elsewhere now; otherwise it did not change.
pub open spec fn owns_up(b0: BufferManager, b: BufferManager, g: BlobGuid, key: Seq<u8>, mutated: bool, dirty: bool) -> bool {
    let f = b.forest();
    let f0 = b0.forest();
    &&& dirty <==> (mutated && !(f.route(g, key) is Crossing)) || f.route(g, key) != f0.route(g, key)
    &&& !dirty ==> f.blobs[g] == f0.blobs[g]
}

/// What an insert that starts at blob `g` leaves on record: every blob that is
/// new or changed is to be written back, but for the root, whose change is
/// reported; what was split and what is worth rebuilding is noted.
pub open spec fn put_recorded(b0: BufferManager, b: BufferManager, g: BlobGuid, key: Seq<u8>, seq: u64, is_top: bool, out: InsertOutcome) -> bool {
    &&& marked(b0, b, seq, if is_top {
        Some(g)
    } else {
        None
    })
    &&& splits_noted(b0, b, key)
    &&& out.mutated ==> waste_noted(b, g, key)
    &&& if is_top {
        owns_up(b0, b, g, key, out.mutated, out.root_dirty)
    } else {
        !out.root_dirty
    }
}

/// Whether `f` is what writing a record that `d` bytes of the key led to makes
/// of blob `f0`: which nodes stand and which are new, and what the header
/// counts.
#[verifier::opaque]
pub open spec fn put_image(f0: BlobFrame, f: BlobFrame, key: Seq<u8>, value: Seq<u8>, d: int, seq: u64) -> bool {
    let t = f0.tree();
    let k = insert_cost(f0.cells@, t, key, d, value.len() as int);
    &&& written(f0.cells@, t, f.cells@, f.tree(), key, value, d, seq)
    &&& f.header.space_used == f0.header.space_used + k.bytes
    &&& f.header.num_slots == f0.header.num_slots + k.nodes
    &&& f.header.tombstone_leaf_cnt == f0.header.tombstone_leaf_cnt - (if deleted_leaf(t, key, d) {
        1int
    } else {
        0
    })
    &&& f.header.dead_bytes == clamp(f0.header.dead_bytes + put_waste(f0.cells@, t, key, d, value.len() as int, false))
    &&& f.header == (BlobHeader {
        root_slot: f.header.root_slot,
        space_used: f.header.space_used,
        num_slots: f.header.num_slots,
        tombstone_leaf_cnt: f.header.tombstone_leaf_cnt,
        dead_bytes: f.header.dead_bytes,
        ..f0.header
    })
}

/// Whether the blob where the walk of `key` from `g` ends has the image that
/// writing the record makes of it.
pub open spec fn put_there(f0: Forest, f: Forest, g: BlobGuid, key: Seq<u8>, value: Seq<u8>, seq: u64) -> bool {
    let h = f0.home(g, key);
    put_image(f0.blobs[h], f.blobs[h], key, value, f0.base[h].len() as int, seq)
}

/// What an insert that starts at blob `g` promises.
pub open spec fn put_result(
    b0: BufferManager,
    b: BufferManager,
    g: BlobGuid,
    key: Seq<u8>,
    value: Seq<u8>,
    seq: u64,
    condition: InsertCondition,
    r: Result<InsertOutcome>,
) -> bool {
    let f0 = b0.forest();
    let f = b.forest();
    let plain = free_way(b0, g, key);
    &&& kept(b0, b, g)
    &&& match r {
        Ok(out) => {
            &&& out.mutated == writes(f0.find(g, key), condition)
            &&& out.mutated ==> others_same(f0, f, key) && f.find(g, key) == (Route::Found { value, seq })
            &&& !out.mutated ==> all_same(f0, f)
        },
        Err(e) => {
            &&& all_same(f0, f)
            &&& e is NotYetImplemented || e is Alloc || e is Internal
            &&& gave_up(b0, b, g, key, value, e)
        },
    }
    // With room where the walk ends, nothing but a conflicting record stands
    // in the way.
    &&& plain && clashes(f0, g, key) ==> (r matches Err(e) && e is NotYetImplemented)
    &&& plain && !clashes(f0, g, key) && (roomy(f0, g, key, value) || !writes(f0.find(g, key), condition)) ==> r is Ok
    // Without a snapshot nothing is copied, what has room changes only the
    // blob where the walk ends, and what writes nothing changes nothing.
    &&& b0.fork_barrier == 0 && (roomy(f0, g, key, value) || !writes(f0.find(g, key), condition)) ==> at_home(b0, b, g, key)
    &&& b0.fork_barrier == 0 && roomy(f0, g, key, value) ==> (r matches Ok(out) ==> (out.mutated ==> put_there(f0, f, g, key, value, seq)))
    &&& b0.fork_barrier == 0 ==> (r matches Ok(out) ==> (!out.mutated ==> f == f0 && !out.root_dirty))
    // A blob that is full is split before the insert is given up.
    &&& plain && !clashes(f0, g, key) && crowded(f0, g, key, value) && names_ahead(b0, f0.hops(g, key)) ==> r is Ok || b.blobs@.len()
        > b0.blobs@.len()
}

/// Whether a write may start at entry `at`.
pub open spec fn enters(bm: BufferManager, at: int, key: Seq<u8>, depth: int) -> bool {
    &&& bm.wf()
    &&& 0 <= at < bm.blobs@.len()
    &&& bm.forest().below(bm.blobs@[at].guid, key)
    &&& bm.base@[bm.blobs@[at].guid].len() == depth
}

/// A key that crosses into another blob conflicts with nothing before it.
pub proof fn lemma_crossing_no_conflict(t: Art, key: Seq<u8>, d: int)
    requires
        step(t, key, d) is Crossing,
    ensures
        !conflict(t, key, d),
    decreases t,
{
    match t {
        Art::Prefix { bytes, child, .. } => lemma_crossing_no_conflict(*child, key, d + bytes.len()),
        Art::Inner { kids, .. } => lemma_crossing_no_conflict(kids[key[d] as int]->0, key, d + 1),
        _ => {},
    }
}

impl BufferManager {
    /// Inserts into entry `at`, up to a crossing.
    fn insert_step(
        &mut self,
        at: usize,
        key: SearchKey,
        value: &[u8],
        depth: usize,
        seq: u64,
        condition: InsertCondition,
    ) -> (r: Result<BlobInsert>)
        requires
            enters(*old(self), at as int, key@, depth as int),
            key@.len() <= 65535,
            value@.len() <= 65535,
        ensures
            rewritten(*old(self), *final(self), at as int, final(self).blobs@[at as int].frame),
            ({
                let f0 = old(self).forest();
                let f = final(self).forest();
                let g = old(self).blobs@[at as int].guid;
                let t = old(self).blobs@[at as int].frame.tree();
                let route = f0.route(g, key@);
                &&& final(self).wf()
                &&& versioned(*old(self), *final(self))
                &&& same_rules(*old(self), *final(self))
                &&& match r {
                    Ok(BlobInsert::Done(mutated)) => {
                        &&& !conflict(t, key@, depth as int)
                        &&& !(route is Crossing)
                        &&& mutated == writes(route, condition)
                        &&& !mutated ==> f == f0
                        &&& mutated ==> grown(f0, f) && only_touched(f0, f, g) && others_same(f0, f, key@) && f.find(g, key@) == (Route::Found {
                            value: value@,
                            seq,
                        }) && f.route(g, key@) == (Route::Found { value: value@, seq })
                        &&& mutated ==> put_image(
                            old(self).blobs@[at as int].frame,
                            final(self).blobs@[at as int].frame,
                            key@,
                            value@,
                            depth as int,
                            seq,
                        )
                        &&& mutated ==> forall|other: Seq<u8>|
                            other != key@ ==> #[trigger] final(self).blobs@[at as int].frame.route(other, depth as int) == old(self).blobs@[at as int].frame.route(
                                other,
                                depth as int,
                            )
                    },
                    Ok(BlobInsert::Crossing(x)) => {
                        &&& f == f0
                        &&& final(self).blobs@[at as int].frame == old(self).blobs@[at as int].frame
                        &&& route == (Route::Crossing { guid: x.child_guid, depth: x.child_depth as int })
                        &&& blob_at(t, key@, depth as int) == x.parent_slot
                    },
                    Err(e) => {
                        &&& settled(*old(self), *final(self), g)
                        &&& failed(old(self).blobs@[at as int].frame, final(self).blobs@[at as int].frame)
                        &&& !(route is Crossing)
                        &&& e is NotYetImplemented <==> conflict(t, key@, depth as int)
                        &&& !(e is NotYetImplemented) ==> writes(route, condition) && short(
                            old(self).blobs@[at as int].frame,
                            final(self).blobs@[at as int].frame,
                            insert_cost(old(self).blobs@[at as int].frame.cells@, t, key@, depth as int, value@.len() as int),
                            e,
                        )
                    },
                }
            }),
    {
        let ghost before = *self;
        let ghost g = self.blobs@[at as int].guid;
        let ghost f0 = self.blobs@[at as int].frame;
        let ghost a = self.forest();
        let ghost t = f0.tree();
        proof {
            lemma_map_at(self.blobs@, at as int);
            assert(a.has(g));
            assert(f0.wf(a.base[g]));
            assert(key@.take(depth as int) =~= a.base[g]);
            if step(t, key@, depth as int) is Crossing {
                lemma_crossing_no_conflict(t, key@, depth as int);
            }
        }
        let root: u16 = self.blobs[at].frame.header.root_slot;
        let r = insert_at_step(&mut self.blobs[at].frame, root, key, value, depth, seq, condition, true, false, Ghost(t));
        let ghost f1 = self.blobs@[at as int].frame;
        let out: Result<BlobInsert> = match r {
            Ok(InsertStep::Done(x)) => {
                if x.mutated {
                    self.blobs[at].frame.header.root_slot = x.slot_after;
                    proof {
                        self.blobs@[at as int].frame.lemma_tree(x.tree@);
                    }
                }
                Ok(BlobInsert::Done(x.mutated))
            },
            Ok(InsertStep::Crossing(x)) => Ok(BlobInsert::Crossing(x)),
            Err(e) => {
                proof {
                    BlobFrame::lemma_kept(f0, f1, a.base[g]);
                }
                Err(e)
            },
        };
        let ghost f = self.blobs@[at as int].frame;
        self.touch(at);
        proof {
            assert(self.blobs@ =~= before.blobs@.update(
                at as int,
                CachedBlob { frame: f, version: self.edition, cached: true, ..before.blobs@[at as int] },
            ));
            lemma_rewritten(before, *self, at as int, f);
            match out {
                Ok(BlobInsert::Done(mutated)) => {
                    if mutated {
                        reveal(put_image);
                        lemma_written_blobs(f0.cells@, t, f.cells@, f.tree(), key@, value@, depth as int, seq);
                        assert(f.wf(a.base[g]));
                        lemma_with_key(a, g, f, key@);
                    } else {
                        assert(a.with(g, f).blobs =~= a.blobs);
                    }
                },
                Ok(BlobInsert::Crossing(_)) => {
                    assert(a.with(g, f).blobs =~= a.blobs);
                },
                Err(_) => {
                    lemma_with_same(a, g, f);
                },
            }
        }
        out
    }
}

/// A write that went on from blob `g` into blob `n`.
pub proof fn lemma_put_through(
    b0: BufferManager,
    b1: BufferManager,
    b2: BufferManager,
    g: BlobGuid,
    n: BlobGuid,
    key: Seq<u8>,
)
    requires
        b0.wf(),
        settled(b0, b1, g),
        kept(b1, b2, n),
        b0.has(g),
        b1.forest().below(g, key),
        b1.forest().route(g, key) is Crossing,
        b1.forest().route(g, key)->guid == n,
        !b0.has(n) || !is_shared(b0.forest().blobs[n], b0.fork_barrier),
    ensures
        kept(b0, b2, g),
        b2.forest().blobs[g] == b1.forest().blobs[g],
        b1.forest().find(n, key) == b0.forest().find(g, key),
        b2.forest().find(g, key) == b2.forest().find(n, key),
        others_same(b1.forest(), b2.forest(), key) ==> others_same(b0.forest(), b2.forest(), key),
        all_same(b1.forest(), b2.forest()) ==> all_same(b0.forest(), b2.forest()),
{
    let f0 = b0.forest();
    let f1 = b1.forest();
    let f2 = b2.forest();
    lemma_versioned_trans(b0, b1, b2);
    assert(f1.has(g));
    assert(f1.edge_ok(g, key));
    assert(f1.has(n) && f1.rank[n] < f1.rank[g]);
    assert(g != n);
    assert(f2.blobs[g] == f1.blobs[g]);
    assert(f2.has(g) && f2.base[g] == f1.base[g]);
    assert(f2.route(g, key) == f1.route(g, key));
    assert(f2.edge_ok(g, key));
    assert(f1.find(g, key) == f0.find(g, key));
    assert(grown(f0, f2)) by {
        assert forall|h: BlobGuid| #[trigger] f0.has(h) implies f2.has(h) && f2.base[h] == f0.base[h] by {
            assert(f1.has(h));
        }
        assert forall|h1: BlobGuid, h2: BlobGuid| f0.has(h1) && f0.has(h2) && #[trigger] f0.rank[h1] <= #[trigger] f0.rank[h2] implies f2.rank[h1]
            <= f2.rank[h2] by {
            assert(f1.has(h1) && f1.has(h2));
            assert(f1.rank[h1] <= f1.rank[h2]);
        }
    }
    assert forall|h: BlobGuid|
        #[trigger] f0.has(h) && h != g && (f0.rank[h] >= f0.rank[g] || is_shared(f0.blobs[h], b0.fork_barrier)) implies f2.blobs[h]
        == f0.blobs[h] by {
        assert(f1.has(h));
        assert(f1.blobs[h] == f0.blobs[h]);
        if f0.rank[h] >= f0.rank[g] {
            assert(f1.rank[g] <= f1.rank[h]);
        }
        assert(h != n);
    }
    if others_same(f1, f2, key) {
        assert forall|h: BlobGuid, other: Seq<u8>| f0.has(h) && f0.below(h, other) && other != key implies #[trigger] f2.find(h, other) == f0.find(
            h,
            other,
        ) by {
            assert(f1.has(h));
            assert(f1.find(h, other) == f0.find(h, other));
        }
    }
    if all_same(f1, f2) {
        assert forall|h: BlobGuid, k: Seq<u8>| f0.has(h) && f0.below(h, k) implies #[trigger] f2.find(h, k) == f0.find(h, k) by {
            assert(f1.has(h));
            assert(f1.find(h, k) == f0.find(h, k));
        }
    }
}

/// What an insert costs is the same of arenas whose nodes say the same.
proof fn lemma_cost_copied(c: Seq<Option<Node>>, c2: Seq<Option<Node>>, t: Art, key: Seq<u8>, d: int, vlen: int)
    requires
        rep(c, t),
        forall|i: int| same_node(#[trigger] at(c, i), at(c2, i)),
    ensures
        insert_cost(c2, t, key, d, vlen) == insert_cost(c, t, key, d, vlen),
    decreases t,
{
    lemma_rep_root(c, t);
    assert(same_node(at(c, slot_of(t)), at(c2, slot_of(t))));
    match t {
        Art::Prefix { bytes, child, .. } => lemma_cost_copied(c, c2, *child, key, d + bytes.len(), vlen),
        Art::Inner { kids, .. } => {
            if 0 <= d < key.len() && key[d] < kids.len() && kids[key[d] as int] is Some {
                assert(rep(c, kids[key[d] as int]->0));
                lemma_cost_copied(c, c2, kids[key[d] as int]->0, key, d + 1, vlen);
            }
        },
        _ => {},
    }
}

/// A change of blob `p` is not met on the way from a blob further down.
proof fn lemma_walk_same(a: Forest, b: Forest, p: BlobGuid, h: BlobGuid, key: Seq<u8>)
    requires
        a.linked(),
        b.linked(),
        grown(a, b),
        only_touched(a, b, p),
        a.has(p),
        a.has(h),
        a.rank[h] < a.rank[p],
        a.below(h, key),
    ensures
        b.hops(h, key) == a.hops(h, key),
        b.home(h, key) == a.home(h, key),
        a.has(a.home(h, key)),
        b.blobs[a.home(h, key)] == a.blobs[a.home(h, key)],
        b.base[a.home(h, key)] == a.base[a.home(h, key)],
    decreases a.rank[h],
{
    assert(h != p);
    assert(b.blobs[h] == a.blobs[h]);
    assert(b.base[h] == a.base[h] && b.has(h));
    assert(a.edge_ok(h, key));
    assert(b.below(h, key));
    assert(b.edge_ok(h, key));
    assert(b.route(h, key) == a.route(h, key));
    if let Route::Crossing { guid: c, .. } = a.route(h, key) {
        lemma_walk_same(a, b, p, c, key);
    }
}

/// The way of `key` from a copy of blob `c` is that from `c`.
pub proof fn lemma_twin_walk(a: Forest, b: Forest, p: BlobGuid, c: BlobGuid, n: BlobGuid, key: Seq<u8>)
    requires
        a.linked(),
        reshaped(a, b, p),
        a.has(p),
        a.has(c),
        a.rank[c] < a.rank[p],
        a.below(c, key),
        b.has(n),
        b.base[n] == a.base[c],
        twin(a.blobs[c], b.blobs[n]),
    ensures
        b.hops(n, key) == a.hops(c, key),
        clashes(b, n, key) == clashes(a, c, key),
        forall|value: Seq<u8>| #[trigger] roomy(b, n, key, value) == roomy(a, c, key, value),
        forall|value: Seq<u8>| crowded(a, c, key, value) ==> #[trigger] crowded(b, n, key, value),
{
    let fa = a.blobs[c];
    let fb = b.blobs[n];
    assert(fa.wf(a.base[c]));
    assert(a.edge_ok(c, key));
    assert(b.below(n, key));
    assert(b.edge_ok(n, key));
    assert(b.route(n, key) == a.route(c, key));
    match a.route(c, key) {
        Route::Crossing { guid: d, .. } => {
            lemma_walk_same(a, b, p, d, key);
        },
        _ => {
            assert forall|value: Seq<u8>| #[trigger] roomy(b, n, key, value) == roomy(a, c, key, value) by {
                lemma_cost_copied(fa.cells@, fb.cells@, fa.tree(), key, a.base[c].len() as int, value.len() as int);
            }
            assert forall|value: Seq<u8>| crowded(a, c, key, value) implies #[trigger] crowded(b, n, key, value) by {
                assert(roomy(b, n, key, value) == roomy(a, c, key, value));
                lemma_cost_copied(fa.cells@, fb.cells@, fa.tree(), key, a.base[c].len() as int, value.len() as int);
                lemma_splittable_kept(fa, fb);
            }
        },
    }
}

/// A blob that an attempt to insert failed in can still be split.
proof fn lemma_still_splittable(a: BufferManager, b: BufferManager, i: int)
    requires
        a.wf(),
        0 <= i < a.blobs@.len(),
        rewritten(a, b, i, b.blobs@[i].frame),
        failed(a.blobs@[i].frame, b.blobs@[i].frame),
        b.blobs@[i].frame.has_room(BLOB_NODE_SIZE as int, true),
        splittable(a.blobs@[i].frame),
        name_free(a),
    ensures
        splittable(b.blobs@[i].frame),
        name_free(b),
{
    let g = a.blobs@[i].guid;
    let f0 = a.blobs@[i].frame;
    let f = b.blobs@[i].frame;
    lemma_map_at(a.blobs@, i);
    assert(a.forest().has(g));
    assert(f0.wf(a.base@[g]));
    BlobFrame::lemma_kept(f0, f, a.base@[g]);
    lemma_splittable_kept(f0, f);
    lemma_rewritten(a, b, i, f);
}

/// Whether `f` is `f0` but for abandoned bytes.
pub open spec fn same_but_waste(f0: BlobFrame, f: BlobFrame) -> bool {
    &&& f.cells@ == f0.cells@
    &&& f.arena_end == f0.arena_end
    &&& f.header == (BlobHeader { dead_bytes: f.header.dead_bytes, ..f0.header })
}

/// A key that a split leads out of its blob is led on by at least a byte.
proof fn lemma_led_on(b0: BufferManager, b1: BufferManager, b2: BufferManager, b3: BufferManager, at: int)
    requires
        0 <= at < b0.blobs@.len() < b1.blobs@.len(),
        b0.wf(),
        settled(b0, b1, b0.blobs@[at].guid),
        split_off(b0.blobs@[at].frame, b1.blobs@[at].frame, b1.blobs@[b0.blobs@.len() as int].frame, b1.epoch),
        remarked(b1, b2),
        settled(b2, b3, b2.blobs@[at].guid),
        b3.blobs@.len() == b2.blobs@.len(),
        b3.blobs@[at].frame == b2.blobs@[at].frame || rebuilt(b2.blobs@[at].frame, b3.blobs@[at].frame),
    ensures
        forall|key: Seq<u8>| #[trigger]
            b3.forest().route(b0.blobs@[at].guid, key) is Crossing && b0.forest().below(b0.blobs@[at].guid, key) && !(b0.forest().route(
                b0.blobs@[at].guid,
                key,
            ) is Crossing) ==> b3.forest().route(b0.blobs@[at].guid, key)->depth > b0.base@[b0.blobs@[at].guid].len(),
{
    let g = b0.blobs@[at].guid;
    let f0 = b0.blobs@[at].frame;
    let f1 = b1.blobs@[at].frame;
    let c1 = b1.blobs@[b0.blobs@.len() as int].frame;
    lemma_map_at(b0.blobs@, at);
    lemma_map_at(b1.blobs@, at);
    lemma_remarked(b1, b2);
    lemma_map_at(b2.blobs@, at);
    lemma_map_at(b3.blobs@, at);
    assert(b1.blobs@[at].guid == g);
    assert(b2.blobs@[at].guid == g);
    assert(b3.blobs@[at].guid == g);
    assert(b0.forest().has(g) && b2.forest().has(g));
    let out = choose|out: Spilled| #[trigger] spilled(f0, f1, c1.header.blob_guid, out) && c1 == (BlobFrame {
        header: BlobHeader { created_epoch: b1.epoch, ..out.child.header },
        ..out.child
    });
    let d = b0.base@[g].len() as int;
    assert forall|key: Seq<u8>| #[trigger]
        b3.forest().route(g, key) is Crossing && b0.forest().below(g, key) && !(b0.forest().route(g, key) is Crossing) implies b3.forest().route(
        g,
        key,
    )->depth > d by {
        assert(b3.blobs@[at].frame.route(key, d) == f1.route(key, d));
        assert(moved(f0.route(key, d), f1.route(key, d), out.child.tree(), c1.header.blob_guid, out.path@, key, d));
    }
}

/// Splits entry `at` and rebuilds what is left of it.
fn split_blob(bm: &mut BufferManager, at: usize, seq: u64) -> (r: Result<()>)
    requires
        old(bm).wf(),
        at < old(bm).blobs@.len(),
    ensures
        settled(*old(bm), *final(bm), old(bm).blobs@[at as int].guid),
        r matches Err(e) ==> e is NotYetImplemented || e is Alloc || e is Internal,
        name_free(*old(bm)) && splittable(old(bm).blobs@[at as int].frame) ==> final(bm).blobs@.len() > old(bm).blobs@.len(),
        splits_counted(*old(bm), *final(bm), r is Err),
        // A key that is led out of the blob now is led on by at least a byte.
        forall|key: Seq<u8>| #[trigger]
            final(bm).forest().route(old(bm).blobs@[at as int].guid, key) is Crossing && old(bm).forest().below(
                old(bm).blobs@[at as int].guid,
                key,
            ) && !(old(bm).forest().route(old(bm).blobs@[at as int].guid, key) is Crossing) ==> final(bm).forest().route(
                old(bm).blobs@[at as int].guid,
                key,
            )->depth > old(bm).base@[old(bm).blobs@[at as int].guid].len(),
        match r {
            Ok(_) => {
                let f0 = old(bm).blobs@[at as int];
                let n = final(bm).blobs@.last().guid;
                &&& final(bm).blobs@.len() == old(bm).blobs@.len() + 1
                &&& marked(*old(bm), *final(bm), seq, Some(f0.guid))
                &&& final(bm).merge_candidates@.contains(f0.guid)
                &&& rebuilt_more(*old(bm), *final(bm))
                &&& rebuilds(final(bm).blobs@[at as int]) == clamp(rebuilds(f0) + 1)
                &&& forall|h: BlobGuid| #[trigger] final(bm).has(h) ==> old(bm).has(h) || h == n
            },
            Err(e) => {
                ||| e is Internal && !name_free(*old(bm)) && *final(bm) == *old(bm)
                ||| e is Alloc && unbuildable(*final(bm))
                ||| !(e is Internal) && !splittable(old(bm).blobs@[at as int].frame) && same_but_waste(
                    old(bm).blobs@[at as int].frame,
                    final(bm).blobs@[at as int].frame,
                )
            },
        },
{
    let ghost b0 = *bm;
    let ghost g = bm.blobs@[at as int].guid;
    proof {
        lemma_map_at(b0.blobs@, at as int);
    }
    match bm.spill_at(at, seq) {
        Ok(_) => {},
        Err(e) => {
            proof {
                assert(splits_counted(b0, *bm, true)) by {
                    reveal(splits_counted);
                    reveal_with_fuel(more_splits, 2);
                }
                lemma_map_at(bm.blobs@, at as int);
            }
            return Err(e);
        },
    }
    let ghost b1 = *bm;
    let guid: BlobGuid = bm.blobs[at].guid;
    assert(b0.blobs@[at as int].guid == bm.blobs@[at as int].guid);
    bm.note_merge_candidate(guid);
    bm.note_spillover();
    let ghost b2 = *bm;
    proof {
        lemma_settled_remarked(b1, b2, g);
        lemma_settled_trans(b0, b1, b2, g);
    }
    let r = bm.compact_at(at);
    proof {
        lemma_settled_trans(b0, b2, *bm, g);
        lemma_marked_notes(b1, b2, seq, Some(g));
        lemma_marked_rewritten(b2, *bm, at as int, bm.blobs@[at as int].frame, seq);
        lemma_marked_trans(b0, b1, b2, seq, Some(g));
        lemma_marked_trans(b0, b2, *bm, seq, Some(g));
        assert(splits_counted(b0, *bm, false) && splits_counted(b0, *bm, true)) by {
            reveal(splits_counted);
            reveal_with_fuel(more_splits, 2);
        }
        lemma_led_on(b0, b1, b2, *bm, at as int);
        assert(bm.merge_candidates@.contains(g));
        assert(bm.blobs@.last().guid == b1.blobs@.last().guid);
        assert forall|h: BlobGuid| #[trigger] bm.has(h) implies b0.has(h) || h == b1.blobs@.last().guid by {
            assert(b1.has(h)) by {
                let k = choose|k: int| #[trigger] is_at(bm.blobs@, k, h);
                assert(is_at(b1.blobs@, k, h));
            }
        }
        assert(rebuilt_more(b0, *bm)) by {
            reveal(rebuilt_more);
            assert forall|i: int| 0 <= i < b0.blobs@.len() implies rebuilds(b0.blobs@[i]) <= rebuilds(#[trigger] bm.blobs@[i]) by {
                if i != at {
                    lemma_other_frame(b0, *bm, at as int, i);
                }
            }
        }
    }
    r
}

/// A change of one blob leaves the images of the others.
proof fn lemma_other_frame(a: BufferManager, b: BufferManager, at: int, i: int)
    requires
        a.wf(),
        0 <= at < a.blobs@.len(),
        0 <= i < a.blobs@.len(),
        i != at,
        settled(a, b, a.blobs@[at].guid),
    ensures
        b.blobs@[i].frame == a.blobs@[i].frame,
        b.blobs@[i].guid == a.blobs@[i].guid,
{
    lemma_map_at(a.blobs@, i);
    assert(a.blobs@[i].guid == b.blobs@[i].guid);
    lemma_map_at(b.blobs@, i);
    assert(a.forest().has(a.blobs@[i].guid));
}

/// An insert allocates a few nodes, beside those for the bytes in front of a
/// branch.
pub proof fn lemma_most_nodes(c: Seq<Option<Node>>, t: Art, key: Seq<u8>, d: int, vlen: int)
    requires
        rep(c, t),
        0 <= d <= key.len(),
    ensures
        insert_cost(c, t, key, d, vlen).nodes <= most_nodes(key),
    decreases t,
{
    match t {
        Art::Leaf { key: k, .. } => {
            crate::simd::lemma_lcp(key.skip(d), k.skip(d));
            lemma_chain_nodes(lcp(key.skip(d), k.skip(d)) as int, key.len() as int);
        },
        Art::Prefix { bytes, child, .. } => {
            if crate::key::matches_at(key, d, bytes) {
                lemma_most_nodes(c, *child, key, d + bytes.len(), vlen);
            } else {
                crate::simd::lemma_lcp(key.skip(d), bytes);
                let n = lcp(key.skip(d), bytes) as int;
                lemma_chain_nodes(n, key.len() as int);
                crate::insert::lemma_lcp_matches(key, d, bytes);
                lemma_chain_nodes(bytes.len() - n - 1, PREFIX_MAX_INLINE as int);
                assert(chain_nodes(PREFIX_MAX_INLINE as int) == 1);
            }
        },
        Art::Inner { kids, .. } => {
            if 0 <= d < key.len() && key[d] < kids.len() && kids[key[d] as int] is Some {
                assert(rep(c, kids[key[d] as int]->0));
                lemma_most_nodes(c, kids[key[d] as int]->0, key, d + 1, vlen);
            }
            lemma_chain_nodes(0, key.len() as int);
        },
        Art::Blob { bytes, .. } => {
            crate::simd::lemma_lcp(key.skip(d), bytes);
            lemma_chain_nodes(lcp(key.skip(d), bytes) as int, key.len() as int);
        },
        _ => {
            lemma_chain_nodes(0, key.len() as int);
        },
    }
}

pub proof fn lemma_chain_nodes(m: int, n: int)
    requires
        0 <= m <= n,
    ensures
        0 <= chain_nodes(m) <= chain_nodes(n),
{
    let k = PREFIX_MAX_INLINE as int;
    assert((m + (k - 1)) / k <= (n + (k - 1)) / k) by (nonlinear_arith)
        requires
            m <= n,
            k > 0,
    ;
    assert((m + (k - 1)) / k >= 0) by (nonlinear_arith)
        requires
            m >= 0,
            k > 0,
    ;
}

/// A blob in which an insert found no room has none, and leads the key nowhere
/// else.
proof fn lemma_found_no_room(a: BufferManager, b: BufferManager, at: int, key: Seq<u8>, value: Seq<u8>, depth: int, e: Error)
    requires
        enters(a, at, key, depth),
        b.wf(),
        rewritten(a, b, at, b.blobs@[at].frame),
        !(a.forest().route(a.blobs@[at].guid, key) is Crossing),
        short(
            a.blobs@[at].frame,
            b.blobs@[at].frame,
            insert_cost(a.blobs@[at].frame.cells@, a.blobs@[at].frame.tree(), key, depth, value.len() as int),
            e,
        ),
    ensures
        ({
            let g = a.blobs@[at].guid;
            let f = b.blobs@[at].frame;
            &&& !(b.forest().route(g, key) is Crossing)
            &&& !roomy(b.forest(), g, key, value)
            &&& f.tree() == a.blobs@[at].frame.tree()
            &&& e == Error::Alloc(AllocError::OutOfSlots) ==> f.header.num_slots + most_nodes(key) > MAX_SLOTS
        }),
{
    let g = a.blobs@[at].guid;
    let f0 = a.blobs@[at].frame;
    let f = b.blobs@[at].frame;
    lemma_tree_stands(a, b, at);
    lemma_map_at(a.blobs@, at);
    assert(a.forest().has(g));
    assert(f0.wf(a.base@[g]));
    lemma_cost_kept(f0.cells@, f.cells@, f0.tree(), key, depth, value.len() as int);
    lemma_most_nodes(f0.cells@, f0.tree(), key, depth, value.len() as int);
}

/// What is true of a blob holds of it once only abandoned bytes are counted
/// anew.
proof fn lemma_same_but_waste(a: BufferManager, b: BufferManager, at: int, key: Seq<u8>, value: Seq<u8>)
    requires
        a.wf(),
        b.wf(),
        0 <= at < a.blobs@.len(),
        settled(a, b, a.blobs@[at].guid),
        same_but_waste(a.blobs@[at].frame, b.blobs@[at].frame),
        !(a.forest().route(a.blobs@[at].guid, key) is Crossing),
    ensures
        ({
            let g = a.blobs@[at].guid;
            &&& !(b.forest().route(g, key) is Crossing)
            &&& roomy(b.forest(), g, key, value) == roomy(a.forest(), g, key, value)
            &&& splittable(b.blobs@[at].frame) == splittable(a.blobs@[at].frame)
            &&& b.forest().blobs[g] == b.blobs@[at].frame
            &&& b.forest().home(g, key) == g
        }),
{
    let g = a.blobs@[at].guid;
    lemma_map_at(a.blobs@, at);
    assert(b.blobs@[at].guid == g);
    lemma_map_at(b.blobs@, at);
    let f0 = a.blobs@[at].frame;
    let f = b.blobs@[at].frame;
    assert(f.tree() == f0.tree());
    assert(a.forest().has(g));
    assert(b.base@[g] == a.base@[g]);
}

/// A write that gave up in blob `n`, which blob `g` leads to.
pub proof fn lemma_gave_up_through(
    b0: BufferManager,
    b2: BufferManager,
    b3: BufferManager,
    g: BlobGuid,
    n: BlobGuid,
    key: Seq<u8>,
    value: Seq<u8>,
    e: Error,
)
    requires
        gave_up(b2, b3, n, key, value, e),
        rebuilt_more(b0, b2),
        b3.wf(),
        b3.has(g),
        b3.forest().below(g, key),
        b3.forest().route(g, key) is Crossing,
        b3.forest().route(g, key)->guid == n,
    ensures
        gave_up(b0, b3, g, key, value, e),
{
    reveal(gave_up);
    reveal(rebuilt_more);
    let f = b3.forest();
    assert(f.edge_ok(g, key));
    assert(f.home(g, key) == f.home(n, key));
    assert(f.hops(g, key) == 1 + f.hops(n, key));
    if worn_out(b2, b3) {
        let i = choose|i: int|
            0 <= i < b3.blobs@.len() && rebuilds(#[trigger] b3.blobs@[i]) >= clamp((if i < b2.blobs@.len() {
                rebuilds(b2.blobs@[i])
            } else {
                0
            }) + MAX_SPILLOVER_ATTEMPTS);
        if i < b0.blobs@.len() {
            assert(rebuilds(b0.blobs@[i]) <= rebuilds(b2.blobs@[i]));
        }
        assert(worn_out(b0, b3));
    }
}

/// What a write that went on from blob `g` into blob `n` leaves on record.
pub proof fn lemma_recorded_through(
    b0: BufferManager,
    b2: BufferManager,
    b3: BufferManager,
    g: BlobGuid,
    n: BlobGuid,
    key: Seq<u8>,
    seq: u64,
    out: InsertOutcome,
)
    requires
        b0.wf(),
        b0.has(g),
        settled(b0, b2, g),
        b3.wf(),
        marked(b0, b2, seq, Some(g)),
        put_recorded(b2, b3, n, key, seq, false, out),
        b2.forest().below(g, key),
        b2.forest().route(g, key) is Crossing,
        b2.forest().route(g, key)->guid == n,
        b3.has(g),
        b3.forest().blobs[g] == b2.forest().blobs[g],
        b3.forest().base[g] == b2.forest().base[g],
        b0.forest().route(g, key) is Crossing || b2.merge_candidates@.contains(g),
    ensures
        marked(b0, b3, seq, Some(g)),
        splits_noted(b0, b3, key),
        out.mutated ==> waste_noted(b3, g, key),
        b3.forest().route(g, key) is Crossing,
{
    reveal(splits_noted);
    let f0 = b0.forest();
    let f2 = b2.forest();
    let f3 = b3.forest();
    lemma_marked_sparing(b2, b3, seq, g);
    lemma_marked_trans(b0, b2, b3, seq, Some(g));
    assert(forall|h: BlobGuid| #[trigger] b3.merge_candidates@.contains(h) || !b2.merge_candidates@.contains(h)) by {
        reveal(marked);
    }
    assert(f3.route(g, key) == f2.route(g, key));
    assert(f3.edge_ok(g, key));
    assert(f3.home(g, key) == f3.home(n, key));
    assert forall|h: BlobGuid|
        #[trigger] b0.has(h) && f0.below(h, key) && !(f0.route(h, key) is Crossing) && f3.route(h, key) is Crossing implies b3.merge_candidates@.contains(h) by {
        assert(f0.has(h));
        assert(f2.has(h) && f2.base[h] == f0.base[h]);
        if h != g {
            assert(f2.blobs[h] == f0.blobs[h]);
            assert(b2.has(h));
        }
    }
}

/// Inserts into the tree below entry `at`.
#[verifier::rlimit(80)]
pub fn lock_coupled_insert_in_blob(
    bm: &mut BufferManager,
    at: usize,
    is_top_blob: bool,
    key: SearchKey,
    value: &[u8],
    seq: u64,
    condition: InsertCondition,
    depth: usize,
    trace: &mut WalkTrace,
) -> (r: Result<InsertOutcome>)
    requires
        enters(*old(bm), at as int, key@, depth as int),
        key@.len() <= 65535,
        value@.len() <= 65535,
    ensures
        put_result(*old(bm), *final(bm), old(bm).blobs@[at as int].guid, key@, value@, seq, condition, r),
        further(*old(trace), *final(trace)),
        r matches Ok(out) ==> put_recorded(*old(bm), *final(bm), old(bm).blobs@[at as int].guid, key@, seq, is_top_blob, out),
        r is Ok ==> traced(*old(trace), *final(trace), final(bm).forest(), old(bm).blobs@[at as int].guid, key@),
        splits_counted(*old(bm), *final(bm), r is Err),
    decreases key@.len() - depth, old(bm).forest().hops(old(bm).blobs@[at as int].guid, key@), 1int,
{
    let ghost b0 = *bm;
    let ghost g = bm.blobs@[at as int].guid;
    proof {
        crate::forest::lemma_reshaped_refl(bm.forest(), g);
        lemma_map_at(bm.blobs@, at as int);
        lemma_hops(bm.forest(), g, key@);
        lemma_marked_notes(b0, b0, seq, Some(g));
        lemma_splits_none(b0, b0);
        reveal(rebuilt_more);
    }
    trace.blob_hops = trace.blob_hops.saturating_add(1);
    if depth > trace.max_cross_blob_depth {
        trace.max_cross_blob_depth = depth;
    }
    let mut current_dirty: bool = false;
    let mut attempt: u32 = 0;
    while attempt < MAX_SPILLOVER_ATTEMPTS
        invariant
            settled(b0, *bm, g),
            b0 == *old(bm),
            enters(b0, at as int, key@, depth as int),
            g == b0.blobs@[at as int].guid,
            b0.has(g),
            b0.forest().blobs[g] == b0.blobs@[at as int].frame,
            key@.len() <= 65535,
            value@.len() <= 65535,
            trace.blob_hops == at_most_max(old(trace).blob_hops as nat + 1),
            trace.max_cross_blob_depth == (if depth > old(trace).max_cross_blob_depth {
                depth
            } else {
                old(trace).max_cross_blob_depth
            }),
            splits_counted(b0, *bm, false),
            splits_counted(b0, *bm, true),
            attempt > 0 ==> (bm.forest().route(g, key@) matches Route::Crossing { depth: e, .. } ==> e > depth),
            b0.forest().hops(g, key@) >= 1,
            names_ahead(b0, b0.forest().hops(g, key@)) ==> name_free(b0),
            attempt == 0 ==> *bm == b0,
            current_dirty <==> attempt > 0,
            attempt > 0 ==> !(b0.forest().route(g, key@) is Crossing) && !conflict(b0.blobs@[at as int].frame.tree(), key@, depth as int)
                && !affords(
                b0.blobs@[at as int].frame,
                insert_cost(b0.blobs@[at as int].frame.cells@, b0.blobs@[at as int].frame.tree(), key@, depth as int, value@.len() as int),
            ) && writes(b0.forest().route(g, key@), condition),
            attempt > 0 && name_free(b0) && too_full(
                b0.blobs@[at as int].frame,
                insert_cost(b0.blobs@[at as int].frame.cells@, b0.blobs@[at as int].frame.tree(), key@, depth as int, value@.len() as int),
            ) ==> bm.blobs@.len() > b0.blobs@.len(),
            marked(b0, *bm, seq, Some(g)),
            rebuilt_more(b0, *bm),
            rebuilds(bm.blobs@[at as int]) >= clamp(rebuilds(b0.blobs@[at as int]) + attempt),
            attempt > 0 ==> (bm.forest().route(g, key@) is Crossing ==> bm.merge_candidates@.contains(g)),
        decreases MAX_SPILLOVER_ATTEMPTS - attempt,
    {
        let ghost b1 = *bm;
        proof {
            assert(b0.blobs@[at as int].guid == bm.blobs@[at as int].guid);
            assert(b1.forest().has(g));
            lemma_map_at(b1.blobs@, at as int);
            assert(b1.forest().find(g, key@) == b0.forest().find(g, key@));
        }
        match bm.insert_step(at, key, value, depth, seq, condition) {
            Ok(BlobInsert::Done(mutated)) => {
                let ghost b2 = *bm;
                if !mutated {
                    proof {
                        lemma_marked_rewritten(b1, b2, at as int, b2.blobs@[at as int].frame, seq);
                        lemma_marked_trans(b0, b1, b2, seq, Some(g));
                        lemma_map_at(b2.blobs@, at as int);
                        assert(b1.forest().find(g, key@) == b1.forest().route(g, key@));
                        assert(attempt == 0);
                        lemma_marked_unchanged(b0, b2, at as int, seq);
                    }
                }
                if mutated {
                    let guid: BlobGuid = bm.blobs[at].guid;
                    if blob_needs_compaction(&bm.blobs[at].frame) {
                        bm.note_compaction_candidate(guid);
                    }
                    let ghost b3 = *bm;
                    proof {
                        lemma_remarked(b2, b3);
                        lemma_marked_rewritten(b1, b2, at as int, b2.blobs@[at as int].frame, seq);
                        lemma_marked_trans(b0, b1, b2, seq, Some(g));
                        lemma_marked_notes(b2, b3, seq, Some(g));
                        lemma_marked_trans(b0, b2, b3, seq, Some(g));
                    }
                    if !is_top_blob {
                        bm.mark_dirty(at, seq);
                        proof {
                            lemma_marked_whole(b0, b3, *bm, at as int, seq);
                        }
                    }
                    proof {
                        lemma_remarked(b2, *bm);
                    }
                }
                proof {
                    lemma_done(b0, b1, b2, *bm, g, key@, mutated);
                    lemma_marked_rewritten(b1, b2, at as int, b2.blobs@[at as int].frame, seq);
                    lemma_marked_trans(b0, b1, b2, seq, Some(g));
                    lemma_map_at(b2.blobs@, at as int);
                    lemma_map_at(bm.blobs@, at as int);
                    if mutated {
                        assert(waste_noted(*bm, g, key@));
                    } else {
                        assert(attempt == 0);
                        assert(b2.blobs@[at as int].frame == b0.blobs@[at as int].frame);
                    }
                    lemma_done_noted(b0, b1, *bm, g, key@);
                    lemma_splits_still(b0, b1, *bm);
                }
                return Ok(InsertOutcome { root_dirty: is_top_blob && mutated, mutated });
            },
            Ok(BlobInsert::Crossing(crossing)) => {
                let ghost b2 = *bm;
                proof {
                    crate::forest::lemma_reshaped_refl(b1.forest(), g);
                    lemma_settled_trans(b0, b1, b2, g);
                    assert(b2.blobs@[at as int].frame == b1.blobs@[at as int].frame);
                    lemma_marked_rewritten(b1, b2, at as int, b2.blobs@[at as int].frame, seq);
                    lemma_marked_trans(b0, b1, b2, seq, Some(g));
                    lemma_splits_still(b0, b1, b2);
                    lemma_rebuilt_more_at(b1, b2, at as int, b2.blobs@[at as int].frame);
                    lemma_rebuilt_more(b0, b1, b2);
                }
                let r = cross_and_insert(
                    bm,
                    at,
                    crossing,
                    is_top_blob,
                    current_dirty,
                    key,
                    value,
                    seq,
                    condition,
                    depth,
                    trace,
                    Ghost(b0),
                );
                proof {
                    lemma_home_depth(bm.forest(), g, key@);
                }
                return r;
            },
            Err(Error::Alloc(AllocError::OutOfSpace { requested, available })) => {
                let ghost b2 = *bm;
                let ghost short_of = Error::Alloc(AllocError::OutOfSpace { requested, available });
                proof {
                    lemma_found_no_room(b1, b2, at as int, key@, value@, depth as int, short_of);
                    lemma_marked_rewritten(b1, b2, at as int, b2.blobs@[at as int].frame, seq);
                    lemma_marked_trans(b0, b1, b2, seq, Some(g));
                    lemma_splits_still(b0, b1, b2);
                    lemma_rebuilt_more_at(b1, b2, at as int, b2.blobs@[at as int].frame);
                    lemma_rebuilt_more(b0, b1, b2);
                    if attempt == 0 && name_free(b0) && too_full(
                        b0.blobs@[at as int].frame,
                        insert_cost(
                            b0.blobs@[at as int].frame.cells@,
                            b0.blobs@[at as int].frame.tree(),
                            key@,
                            depth as int,
                            value@.len() as int,
                        ),
                    ) {
                        lemma_still_splittable(b0, b2, at as int);
                    }
                }
                let r = split_blob(bm, at, seq);
                proof {
                    lemma_settled_trans(b0, b1, b2, g);
                    lemma_splits_trans(b0, b2, *bm, r is Err);
                    lemma_settled_trans(b0, b1, b2, g);
                    assert(b2.blobs@[at as int].guid == g);
                    lemma_settled_trans(b0, b2, *bm, g);
                }
                match r {
                    Ok(_) => {
                        proof {
                            lemma_marked_trans(b0, b2, *bm, seq, Some(g));
                            lemma_rebuilt_more(b0, b2, *bm);
                        }
                    },
                    Err(e) => {
                        proof {
                            lemma_settled_kept(b0, *bm, g);
                            lemma_split_failed(b0, b2, *bm, at as int, key@, value@, e);
                        }
                        return Err(e);
                    },
                }
                current_dirty = true;
            },
            Err(Error::Alloc(AllocError::OutOfSlots)) => {
                // Abandoned nodes keep their slots until the blob is
                // rebuilt. Only if that frees none is a subtree moved out.
                let ghost b2 = *bm;
                proof {
                    lemma_found_no_room(b1, b2, at as int, key@, value@, depth as int, Error::Alloc(AllocError::OutOfSlots));
                    lemma_marked_rewritten(b1, b2, at as int, b2.blobs@[at as int].frame, seq);
                    lemma_marked_trans(b0, b1, b2, seq, Some(g));
                    lemma_splits_still(b0, b1, b2);
                    lemma_rebuilt_more_at(b1, b2, at as int, b2.blobs@[at as int].frame);
                    lemma_rebuilt_more(b0, b1, b2);
                }
                let before: u32 = bm.blobs[at].frame.header.num_slots;
                let r = bm.compact_at(at);
                let ghost b3 = *bm;
                proof {
                    lemma_marked_rewritten(b2, b3, at as int, b3.blobs@[at as int].frame, seq);
                    lemma_marked_trans(b0, b2, b3, seq, Some(g));
                    lemma_map_at(b2.blobs@, at as int);
                    lemma_map_at(b3.blobs@, at as int);
                    lemma_settled_trans(b0, b1, b2, g);
                    assert(b2.blobs@[at as int].guid == g);
                    lemma_settled_trans(b0, b2, b3, g);
                    assert(b3.blobs@[at as int].guid == g);
                    lemma_splits_still(b0, b2, b3);
                }
                match r {
                    Ok(_) => {},
                    Err(e) => {
                        proof {
                            lemma_settled_kept(b0, *bm, g);
                            assert(gave_up(b0, *bm, g, key@, value@, e)) by {
                                reveal(gave_up);
                                assert(!plain_takes(budget(bm.blobs@[at as int].frame.cells@, bm.blobs@[at as int].frame.tree(), true)));
                            }
                        }
                        return Err(e);
                    },
                }
                proof {
                    lemma_rebuilt_more_at(b2, b3, at as int, b3.blobs@[at as int].frame);
                    lemma_rebuilt_more(b0, b2, b3);
                    let d = depth as int;
                    assert(b3.blobs@[at as int].frame.route(key@, d) == step(b2.blobs@[at as int].frame.tree(), key@, d));
                    assert(!(b3.forest().route(g, key@) is Crossing));
                }
                current_dirty = true;
                if bm.blobs[at].frame.header.num_slots >= before {
                    let r2 = split_blob(bm, at, seq);
                    proof {
                        lemma_splits_trans(b0, b3, *bm, r2 is Err);
                        lemma_settled_trans(b0, b3, *bm, g);
                    }
                    match r2 {
                        Ok(_) => {
                            proof {
                                lemma_marked_trans(b0, b3, *bm, seq, Some(g));
                                lemma_rebuilt_more(b0, b3, *bm);
                            }
                        },
                        Err(e) => {
                            proof {
                                lemma_settled_kept(b0, *bm, g);
                                lemma_split_failed(b0, b3, *bm, at as int, key@, value@, e);
                            }
                            return Err(e);
                        },
                    }
                }
            },
            Err(e) => {
                proof {
                    lemma_settled_trans(b0, b1, *bm, g);
                    lemma_settled_kept(b0, *bm, g);
                    lemma_tree_stands(b1, *bm, at as int);
                    lemma_splits_still(b0, b1, *bm);
                    assert(gave_up(b0, *bm, g, key@, value@, e)) by {
                        reveal(gave_up);
                        assert(clashes(bm.forest(), g, key@));
                    }
                }
                return Err(e);
            },
        }
        attempt = attempt + 1;
    }
    proof {
        lemma_settled_kept(b0, *bm, g);
        assert(gave_up(b0, *bm, g, key@, value@, Error::NotYetImplemented("no room after as many splits as are allowed"))) by {
            reveal(gave_up);
            assert(rebuilds(bm.blobs@[at as int]) >= clamp(rebuilds(b0.blobs@[at as int]) + MAX_SPILLOVER_ATTEMPTS));
        }
    }
    Err(Error::NotYetImplemented("no room after as many splits as are allowed"))
}

/// A new image that was rebuilt no less often.
proof fn lemma_rebuilt_more_at(a: BufferManager, b: BufferManager, at: int, f: BlobFrame)
    requires
        rewritten(a, b, at, f),
        a.blobs@[at].frame.header.compact_times <= f.header.compact_times,
    ensures
        rebuilt_more(a, b),
{
    reveal(rebuilt_more);
}

/// Rebuilds in sequence.
proof fn lemma_rebuilt_more(a: BufferManager, b: BufferManager, c: BufferManager)
    requires
        rebuilt_more(a, b),
        rebuilt_more(b, c),
    ensures
        rebuilt_more(a, c),
{
    reveal(rebuilt_more);
    assert forall|i: int| 0 <= i < a.blobs@.len() implies rebuilds(a.blobs@[i]) <= rebuilds(#[trigger] c.blobs@[i]) by {
        assert(rebuilds(a.blobs@[i]) <= rebuilds(b.blobs@[i]));
    }
}

/// Why an insert ends when the blob that it has no room in is not split.
proof fn lemma_split_failed(
    b0: BufferManager,
    a: BufferManager,
    b: BufferManager,
    at: int,
    key: Seq<u8>,
    value: Seq<u8>,
    e: Error,
)
    requires
        a.wf(),
        b.wf(),
        0 <= at < a.blobs@.len(),
        settled(a, b, a.blobs@[at].guid),
        !(a.forest().route(a.blobs@[at].guid, key) is Crossing),
        !roomy(a.forest(), a.blobs@[at].guid, key, value) || a.blobs@[at].frame.header.num_slots + most_nodes(key) > MAX_SLOTS,
        ({
            ||| e is Internal && !name_free(b)
            ||| e is Alloc && unbuildable(b)
            ||| !(e is Internal) && !splittable(a.blobs@[at].frame) && same_but_waste(a.blobs@[at].frame, b.blobs@[at].frame)
        }),
    ensures
        gave_up(b0, b, a.blobs@[at].guid, key, value, e),
{
    reveal(gave_up);
    if !(e is Internal) && !(e is Alloc && unbuildable(b)) {
        lemma_same_but_waste(a, b, at, key, value);
    }
}

/// A write that ended in blob `g` notes the splits on its way.
proof fn lemma_done_noted(b0: BufferManager, b1: BufferManager, b: BufferManager, g: BlobGuid, key: Seq<u8>)
    requires
        settled(b0, b1, g),
        grown(b0.forest(), b.forest()),
        !(b.forest().route(g, key) is Crossing),
        forall|h: BlobGuid| #[trigger] b1.forest().has(h) && h != g ==> b.forest().blobs[h] == b1.forest().blobs[h],
    ensures
        splits_noted(b0, b, key),
{
    reveal(splits_noted);
    let f0 = b0.forest();
    let f = b.forest();
    assert forall|h: BlobGuid|
        #[trigger] b0.has(h) && f0.below(h, key) && !(f0.route(h, key) is Crossing) && f.route(h, key) is Crossing implies b.merge_candidates@.contains(h) by {
        assert(f0.has(h));
        assert(b1.forest().has(h));
        assert(f.base[h] == f0.base[h]);
        if h != g {
            assert(f.blobs[h] == f0.blobs[h]);
        }
    }
}

/// Marks made later change nothing of the splits noted.
pub proof fn lemma_splits_kept(a: BufferManager, b: BufferManager, c: BufferManager, key: Seq<u8>)
    requires
        splits_noted(a, b, key),
        c.forest() == b.forest(),
        c.merge_candidates == b.merge_candidates,
    ensures
        splits_noted(a, c, key),
{
    reveal(splits_noted);
}

/// What a walk that crossed from `g` into `n` leaves alone.
pub proof fn lemma_at_home_through(b0: BufferManager, b2: BufferManager, b3: BufferManager, g: BlobGuid, n: BlobGuid, key: Seq<u8>)
    requires
        b0.wf(),
        b2.wf(),
        b2.forest() == b0.forest(),
        same_marks(b0, b2),
        versioned(b0, b2),
        b0.has(g),
        b0.forest().below(g, key),
        b0.forest().route(g, key) is Crossing,
        b0.forest().route(g, key)->guid == n,
    ensures
        at_home(b2, b3, n, key) ==> at_home(b0, b3, g, key),
        b0.forest().home(g, key) == b0.forest().home(n, key),
        forall|value: Seq<u8>, seq: u64| #[trigger]
            put_there(b2.forest(), b3.forest(), n, key, value, seq) ==> put_there(b0.forest(), b3.forest(), g, key, value, seq),
{
    assert(b0.forest().has(g));
    assert(b0.forest().edge_ok(g, key));
    assert(b0.forest().home(g, key) == b0.forest().home(n, key));
    if at_home(b2, b3, n, key) {
        assert forall|i: int| 0 <= i < b0.blobs@.len() && (#[trigger] b0.blobs@[i]).guid != b0.forest().home(g, key) implies b3.blobs@[i].frame
            == b0.blobs@[i].frame && b3.blobs@[i].dirty == b0.blobs@[i].dirty by {
            lemma_map_at(b0.blobs@, i);
            lemma_map_at(b2.blobs@, i);
            assert(b2.blobs@[i].guid == b0.blobs@[i].guid);
        }
    }
}

/// Goes on with an insert in the blob that `crossing` leads to, forking it
/// first if a snapshot may see it.
#[verifier::rlimit(60)]
fn cross_and_insert(
    bm: &mut BufferManager,
    at: usize,
    crossing: BlobCrossing,
    is_top_blob: bool,
    parent_dirty: bool,
    key: SearchKey,
    value: &[u8],
    seq: u64,
    condition: InsertCondition,
    depth: usize,
    trace: &mut WalkTrace,
    Ghost(b0): Ghost<BufferManager>,
) -> (r: Result<InsertOutcome>)
    requires
        marked(b0, *old(bm), seq, Some(b0.blobs@[at as int].guid)),
        rebuilt_more(b0, *old(bm)),
        b0.forest().route(b0.blobs@[at as int].guid, key@) is Crossing || old(bm).merge_candidates@.contains(b0.blobs@[at as int].guid),
        parent_dirty ==> !(b0.forest().route(b0.blobs@[at as int].guid, key@) is Crossing),
        enters(b0, at as int, key@, depth as int),
        settled(b0, *old(bm), b0.blobs@[at as int].guid),
        key@.len() <= 65535,
        value@.len() <= 65535,
        old(bm).forest().route(b0.blobs@[at as int].guid, key@) == (Route::Crossing {
            guid: crossing.child_guid,
            depth: crossing.child_depth as int,
        }),
        blob_at(old(bm).blobs@[at as int].frame.tree(), key@, depth as int) == crossing.parent_slot,
        !parent_dirty ==> old(bm).forest().blobs[b0.blobs@[at as int].guid] == b0.forest().blobs[b0.blobs@[at as int].guid],
        // The first try crossed, or the blob had no room.
        old(bm).forest() == b0.forest() && same_marks(b0, *old(bm)) || (!roomy(b0.forest(), b0.blobs@[at as int].guid, key@, value@) && writes(
            b0.forest().find(b0.blobs@[at as int].guid, key@),
            condition,
        ) && !clashes(b0.forest(), b0.blobs@[at as int].guid, key@) && (name_free(b0) && crowded(
            b0.forest(),
            b0.blobs@[at as int].guid,
            key@,
            value@,
        ) ==> old(bm).blobs@.len() > b0.blobs@.len()) && crossing.child_depth > depth),
        splits_counted(b0, *old(bm), false),
        old(trace).max_cross_blob_depth >= depth,
    ensures
        r is Ok ==> traced_from(*old(trace), *final(trace), final(bm).forest(), b0.blobs@[at as int].guid, key@),
        splits_counted(b0, *final(bm), r is Err),
        put_result(b0, *final(bm), b0.blobs@[at as int].guid, key@, value@, seq, condition, r),
        further(*old(trace), *final(trace)),
        r matches Ok(out) ==> put_recorded(b0, *final(bm), b0.blobs@[at as int].guid, key@, seq, is_top_blob, out),
    decreases key@.len() - depth, b0.forest().hops(b0.blobs@[at as int].guid, key@), 0int,
{
    let ghost g = b0.blobs@[at as int].guid;
    let ghost b1 = *bm;
    let ghost c = crossing.child_guid;
    let ghost t = bm.blobs@[at as int].frame.tree();
    proof {
        lemma_map_at(b0.blobs@, at as int);
        assert(b1.blobs@[at as int].guid == g);
        lemma_map_at(b1.blobs@, at as int);
        assert(b1.forest().has(g));
        assert(b1.forest().edge_ok(g, key@));
        assert(b1.forest().blobs[g].wf(b1.base@[g]));
        lemma_blob_at(b1.blobs@[at as int].frame.cells@, t, key@, depth as int);
        lemma_settled_kept(b0, b1, g);
    }
    let child: usize = match bm.pin(crossing.child_guid) {
        Ok(i) => i,
        Err(_) => {
            assert(false);
            return Err(Error::Internal("a blob node leads nowhere"));
        },
    };
    let fork = fork_child_if_shared(bm, at, child, crossing.parent_slot, seq);
    let ghost b2 = *bm;
    proof {
        lemma_settled_trans(b0, b1, b2, g);
        lemma_settled_kept(b0, b2, g);
        lemma_splits_none(b1, b2);
        lemma_splits_trans(b0, b1, b2, false);
    }
    let (next, forked): (usize, bool) = match fork {
        Ok(Some(i)) => (i, true),
        Ok(None) => (child, false),
        Err(e) => {
            proof {
                assert(gave_up(b0, b2, g, key@, value@, e)) by {
                    reveal(gave_up);
                }
            }
            return Err(e);
        },
    };
    let ghost n = b2.blobs@[next as int].guid;
    proof {
        if forked {
            lemma_marked_trans(b0, b1, b2, seq, Some(g));
            assert(b2.merge_candidates@.contains(g) || !b1.merge_candidates@.contains(g)) by {
                reveal(marked);
            }
        }
        assert(rebuilt_more(b0, b2)) by {
            reveal(rebuilt_more);
            assert forall|i: int| 0 <= i < b0.blobs@.len() implies rebuilds(b0.blobs@[i]) <= rebuilds(#[trigger] b2.blobs@[i]) by {
                assert(rebuilds(b0.blobs@[i]) <= rebuilds(b1.blobs@[i]));
                if i != at && forked {
                    lemma_other_frame(b1, b2, at as int, i);
                }
            }
        }
        assert(b2.blobs@[at as int].guid == g);
        lemma_map_at(b2.blobs@, at as int);
        lemma_map_at(b2.blobs@, next as int);
        assert(b2.forest().has(g));
        assert(b2.forest().route(g, key@) == (Route::Crossing { guid: n, depth: crossing.child_depth as int }));
        assert(b2.forest().edge_ok(g, key@));
        if !forked {
            assert(n == c);
            if b0.has(n) {
                assert(n != g);
                assert(b1.forest().blobs[n] == b0.forest().blobs[n]);
            }
        } else {
            assert(!b1.has(n));
            if b0.has(n) {
                assert(b1.forest().has(n));
            }
        }
    }
    proof {
        lemma_crossing_depth(t, key@, depth as int);
        assert(crossing.child_depth <= key@.len());
        if b1.forest() == b0.forest() && same_marks(b0, b1) {
            assert(b0.forest().edge_ok(g, key@));
            assert(b0.forest().hops(g, key@) == 1 + b0.forest().hops(c, key@));
            if forked {
                lemma_map_at(b1.blobs@, child as int);
                lemma_twin_walk(b0.forest(), b2.forest(), g, c, n, key@);
            } else {
                assert(b2.forest() == b0.forest());
            }
        }
    }
    let r = lock_coupled_insert_in_blob(
        bm,
        next,
        false,
        key,
        value,
        seq,
        condition,
        crossing.child_depth,
        trace,
    );
    let ghost b3 = *bm;
    proof {
        lemma_put_through(b0, b2, b3, g, n, key@);
        match r {
            Ok(out) => {
                lemma_recorded_through(b0, b2, b3, g, n, key@, seq, out);
            },
            Err(e) => {
                lemma_gave_up_through(b0, b2, b3, g, n, key@, value@, e);
            },
        }
        lemma_splits_trans(b0, b2, b3, r is Err);
        assert(b3.forest().edge_ok(g, key@));
        assert(b3.forest().hops(g, key@) == 1 + b3.forest().hops(n, key@));
        assert(b3.forest().home(g, key@) == b3.forest().home(n, key@));
        if b0.fork_barrier == 0 && b1.forest() == b0.forest() && same_marks(b0, b1) {
            lemma_at_home_through(b0, b2, b3, g, n, key@);
        }
    }
    let dirty: bool = parent_dirty || forked;
    match r {
        Ok(out) => {
            proof {
                assert(b2.blobs@[at as int].guid == b3.blobs@[at as int].guid);
                lemma_map_at(b3.blobs@, at as int);
                if forked {
                    assert(b3.forest().route(g, key@)->guid == n);
                }
                if dirty {
                    assert(b3.forest().route(g, key@) != b0.forest().route(g, key@));
                } else {
                    lemma_marked_unchanged(b0, b3, at as int, seq);
                }
            }
            if dirty && !is_top_blob {
                bm.mark_dirty(at, seq);
                proof {
                    lemma_kept_remarked(b0, b3, *bm, g);
                    lemma_marked_whole(b0, b3, *bm, at as int, seq);
                    lemma_splits_kept(b0, b3, *bm, key@);
                    lemma_splits_still(b0, b3, *bm);
                }
            }
            Ok(InsertOutcome { root_dirty: out.root_dirty || (is_top_blob && dirty), mutated: out.mutated })
        },
        Err(e) => Err(e),
    }
}

/// Every walk passes through a blob.
pub proof fn lemma_hops(f: Forest, g: BlobGuid, key: Seq<u8>)
    ensures
        f.hops(g, key) >= 1,
    decreases f.rank[g],
{
}

/// A change that no key notices keeps what a write keeps.
pub proof fn lemma_settled_kept(a: BufferManager, b: BufferManager, g: BlobGuid)
    requires
        settled(a, b, g),
    ensures
        kept(a, b, g),
{
}

/// Marks beside the blobs change nothing of it.
pub proof fn lemma_kept_remarked(a: BufferManager, b: BufferManager, c: BufferManager, g: BlobGuid)
    requires
        kept(a, b, g),
        remarked(b, c),
    ensures
        kept(a, c, g),
        c.forest() == b.forest(),
{
    lemma_remarked(b, c);
    lemma_versioned_trans(a, b, c);
}

/// A write that ended in blob `g`.
proof fn lemma_done(b0: BufferManager, b1: BufferManager, b2: BufferManager, b3: BufferManager, g: BlobGuid, key: Seq<u8>, mutated: bool)
    requires
        settled(b0, b1, g),
        b0.has(g),
        b0.forest().below(g, key),
        b2.wf(),
        versioned(b1, b2),
        same_rules(b1, b2),
        mutated ==> grown(b1.forest(), b2.forest()) && only_touched(b1.forest(), b2.forest(), g) && others_same(b1.forest(), b2.forest(), key),
        !mutated ==> b2.forest() == b1.forest(),
        remarked(b2, b3),
    ensures
        kept(b0, b3, g),
        b3.forest() == b2.forest(),
        mutated ==> others_same(b0.forest(), b3.forest(), key),
        !mutated ==> all_same(b0.forest(), b3.forest()),
{
    let f0 = b0.forest();
    let f1 = b1.forest();
    let f2 = b2.forest();
    lemma_remarked(b2, b3);
    lemma_versioned_trans(b0, b1, b2);
    lemma_versioned_trans(b0, b2, b3);
    if mutated {
        assert(grown(f0, f2)) by {
            assert forall|h: BlobGuid| #[trigger] f0.has(h) implies f2.has(h) && f2.base[h] == f0.base[h] by {
                assert(f1.has(h));
            }
            assert forall|h1: BlobGuid, h2: BlobGuid| f0.has(h1) && f0.has(h2) && #[trigger] f0.rank[h1] <= #[trigger] f0.rank[h2] implies f2.rank[h1]
                <= f2.rank[h2] by {
                assert(f1.has(h1) && f1.has(h2));
                assert(f1.rank[h1] <= f1.rank[h2]);
            }
        }
        assert forall|h: BlobGuid, other: Seq<u8>| f0.has(h) && f0.below(h, other) && other != key implies #[trigger] f2.find(h, other) == f0.find(
            h,
            other,
        ) by {
            assert(f1.has(h));
            assert(f1.find(h, other) == f0.find(h, other));
        }
        assert forall|h: BlobGuid| #[trigger] f0.has(h) && h != g implies f2.blobs[h] == f0.blobs[h] by {
            assert(f1.has(h));
        }
    }
}

/// Inserts below the child of entry `root` that `key` crosses into.
fn insert_from_child(
    bm: &mut BufferManager,
    root: usize,
    child: usize,
    child_depth: usize,
    key: SearchKey,
    value: &[u8],
    seq: u64,
    condition: InsertCondition,
) -> (r: Result<InsertOutcome>)
    requires
        enters(*old(bm), root as int, key@, 0),
        child < old(bm).blobs@.len(),
        old(bm).forest().route(old(bm).blobs@[root as int].guid, key@) == (Route::Crossing {
            guid: old(bm).blobs@[child as int].guid,
            depth: child_depth as int,
        }),
        !is_shared(old(bm).blobs@[child as int].frame, old(bm).fork_barrier),
        key@.len() <= 65535,
        value@.len() <= 65535,
    ensures
        put_result(*old(bm), *final(bm), old(bm).blobs@[root as int].guid, key@, value@, seq, condition, r),
        r matches Ok(out) ==> put_recorded(*old(bm), *final(bm), old(bm).blobs@[root as int].guid, key@, seq, true, out),
        final(bm).forest().blobs[old(bm).blobs@[root as int].guid] == old(bm).forest().blobs[old(bm).blobs@[root as int].guid],
        put_counted(*old(bm), *final(bm), old(bm).blobs@[root as int].guid, key@, r),
{
    let ghost b0 = *bm;
    let ghost g = bm.blobs@[root as int].guid;
    let ghost n = bm.blobs@[child as int].guid;
    proof {
        lemma_map_at(b0.blobs@, root as int);
        lemma_map_at(b0.blobs@, child as int);
        assert(b0.forest().has(g));
        assert(b0.forest().edge_ok(g, key@));
        crate::forest::lemma_reshaped_refl(b0.forest(), g);
        lemma_settled_remarked(b0, b0, g);
    }
    let mut trace = WalkTrace { blob_hops: 1, max_cross_blob_depth: 0 };
    let r = lock_coupled_insert_in_blob(bm, child, false, key, value, seq, condition, child_depth, &mut trace);
    let ghost b1 = *bm;
    proof {
        lemma_put_through(b0, b0, b1, g, n, key@);
        lemma_marked_notes(b0, b0, seq, Some(g));
        assert(rebuilt_more(b0, b0)) by {
            reveal(rebuilt_more);
        }
        match r {
            Ok(out) => {
                lemma_recorded_through(b0, b0, b1, g, n, key@, seq, out);
            },
            Err(e) => {
                lemma_gave_up_through(b0, b0, b1, g, n, key@, value@, e);
            },
        }
        assert(b1.forest().edge_ok(g, key@));
        assert(b1.forest().hops(g, key@) == 1 + b1.forest().hops(n, key@));
        assert(b1.forest().home(g, key@) == b1.forest().home(n, key@));
        lemma_at_home_through(b0, b0, b1, g, n, key@);
        reveal(splits_counted);
    }
    if r.is_ok() {
        bm.note_walker_blob_hops(trace.blob_hops, trace.max_cross_blob_depth);
    }
    proof {
        lemma_kept_remarked(b0, b1, *bm, g);
        if let Ok(out) = r {
            lemma_marked_notes(b1, *bm, seq, Some(g));
            lemma_marked_trans(b0, b1, *bm, seq, Some(g));
            lemma_splits_kept(b0, b1, *bm, key@);
        }
    }
    r
}

/// Whether an attempt over a shortcut finished the insert, or left the store
/// alone.
pub open spec fn shortcut_result(
    b0: BufferManager,
    b: BufferManager,
    g: BlobGuid,
    key: Seq<u8>,
    value: Seq<u8>,
    seq: u64,
    condition: InsertCondition,
    r: Result<Option<InsertOutcome>>,
) -> bool {
    match r {
        Ok(None) => b == b0,
        Ok(Some(out)) => {
            &&& put_result(b0, b, g, key, value, seq, condition, Ok(out))
            &&& put_recorded(b0, b, g, key, seq, true, out)
            &&& put_counted(b0, b, g, key, Ok(out))
        },
        Err(e) => put_result(b0, b, g, key, value, seq, condition, Err(e)) && put_counted(b0, b, g, key, Err(e)),
    }
}

/// Inserts over a cached route, if there is one that holds and leads to a
/// blob that no snapshot may see.
fn try_insert_from_optimistic_route(
    bm: &mut BufferManager,
    root: usize,
    cache: &mut Option<RouteCache>,
    key: SearchKey,
    value: &[u8],
    seq: u64,
    condition: InsertCondition,
) -> (r: Result<Option<InsertOutcome>>)
    requires
        enters(*old(bm), root as int, key@, 0),
        is_root(*old(bm), old(bm).blobs@[root as int].guid),
        routes_ok(*old(cache), *old(bm), old(bm).blobs@[root as int].guid),
        key@.len() <= 65535,
        value@.len() <= 65535,
    ensures
        shortcut_result(*old(bm), *final(bm), old(bm).blobs@[root as int].guid, key@, value@, seq, condition, r),
        routes_ok(*final(cache), *final(bm), old(bm).blobs@[root as int].guid),
        *final(cache) is Some <==> *old(cache) is Some,
        r matches Ok(None) <==> !(knows_way(*old(cache), old(bm).forest(), old(bm).blobs@[root as int].guid, key.bytes@, key@)
            && crosses_freely(*old(bm), old(bm).blobs@[root as int].guid, key@)),
{
    let ghost b0 = *bm;
    let ghost g = bm.blobs@[root as int].guid;
    match follow_route(bm, root, cache, key) {
        Ok(Some((child, depth))) => {
            proof {
                lemma_map_at(b0.blobs@, child as int);
            }
            if child_is_snapshot_shared(bm, child) {
                return Ok(None);
            }
            let r = insert_from_child(bm, root, child, depth, key, value, seq, condition);
            proof {
                lemma_routes_kept(*cache, b0, *bm, g);
            }
            match r {
                Ok(out) => Ok(Some(out)),
                Err(e) => Err(e),
            }
        },
        _ => Ok(None),
    }
}

/// Looks the key up in the root and inserts below the child that it crosses
/// into, if it does and no snapshot may see the child.
fn try_insert_from_root_router(
    bm: &mut BufferManager,
    root: usize,
    cache: &mut Option<RouteCache>,
    key: SearchKey,
    value: &[u8],
    seq: u64,
    condition: InsertCondition,
) -> (r: Result<Option<InsertOutcome>>)
    requires
        enters(*old(bm), root as int, key@, 0),
        is_root(*old(bm), old(bm).blobs@[root as int].guid),
        routes_ok(*old(cache), *old(bm), old(bm).blobs@[root as int].guid),
        key@.len() <= 65535,
        value@.len() <= 65535,
    ensures
        shortcut_result(*old(bm), *final(bm), old(bm).blobs@[root as int].guid, key@, value@, seq, condition, r),
        routes_ok(*final(cache), *final(bm), old(bm).blobs@[root as int].guid),
        *final(cache) is Some <==> *old(cache) is Some,
        r matches Ok(None) <==> !crosses_freely(*old(bm), old(bm).blobs@[root as int].guid, key@),
{
    let ghost b0 = *bm;
    let ghost g = bm.blobs@[root as int].guid;
    proof {
        lemma_map_at(b0.blobs@, root as int);
        assert(b0.forest().has(g));
        assert(b0.forest().edge_ok(g, key@));
    }
    let crossing = match lookup_at(&bm.blobs[root].frame, key, 0) {
        Ok(LookupResult::Crossing(c)) => c,
        _ => {
            return Ok(None);
        },
    };
    let child: usize = match bm.pin(crossing.child_guid) {
        Ok(i) => i,
        Err(_) => {
            return Ok(None);
        },
    };
    if child_is_snapshot_shared(bm, child) {
        return Ok(None);
    }
    learn_crossing(bm, root, cache, key, crossing.child_guid, crossing.child_depth);
    if cache.is_some() {
        bm.mark_route_resident(child);
    }
    let ghost b1 = *bm;
    proof {
        lemma_remarked(b0, b1);
        lemma_routes_kept(*cache, b0, b1, g);
        lemma_map_at(b1.blobs@, child as int);
    }
    let r = insert_from_child(bm, root, child, crossing.child_depth, key, value, seq, condition);
    proof {
        lemma_routes_kept(*cache, b1, *bm, g);
        lemma_kept_after(b0, b1, *bm, g);
        match r {
            Ok(out) => {
                assert(marked(b0, b1, seq, Some(g))) by {
                    reveal(marked);
                }
                lemma_recorded_after(b0, b1, *bm, g, key@, seq, out);
            },
            Err(e) => {
                lemma_gave_up_after(b0, b1, *bm, g, key@, value@, e);
            },
        }
    }
    match r {
        Ok(out) => Ok(Some(out)),
        Err(e) => Err(e),
    }
}

/// Marks beside the blobs before a write change nothing of what it keeps.
pub proof fn lemma_kept_after(a: BufferManager, b: BufferManager, c: BufferManager, g: BlobGuid)
    requires
        a.wf(),
        remarked(a, b),
        kept(b, c, g),
    ensures
        kept(a, c, g),
        b.forest() == a.forest(),
        name_free(b) == name_free(a),
{
    lemma_remarked(a, b);
    lemma_versioned_trans(a, b, c);
}

/// What a write leaves on record does not depend on marks made before it.
pub proof fn lemma_recorded_after(a: BufferManager, b: BufferManager, c: BufferManager, g: BlobGuid, key: Seq<u8>, seq: u64, out: InsertOutcome)
    requires
        a.wf(),
        remarked(a, b),
        marked(a, b, seq, Some(g)),
        put_recorded(b, c, g, key, seq, true, out),
    ensures
        put_recorded(a, c, g, key, seq, true, out),
{
    lemma_remarked(a, b);
    lemma_marked_trans(a, b, c, seq, Some(g));
    assert(splits_noted(a, c, key)) by {
        reveal(splits_noted);
        assert forall|h: BlobGuid| #[trigger] a.has(h) implies b.has(h) by {
            assert(a.forest().has(h));
        }
    }
}

/// Why a write failed does not depend on marks made before it.
pub proof fn lemma_gave_up_after(
    a: BufferManager,
    b: BufferManager,
    c: BufferManager,
    g: BlobGuid,
    key: Seq<u8>,
    value: Seq<u8>,
    e: Error,
)
    requires
        a.wf(),
        remarked(a, b),
        gave_up(b, c, g, key, value, e),
    ensures
        gave_up(a, c, g, key, value, e),
{
    reveal(gave_up);
    if worn_out(b, c) {
        let i = choose|i: int|
            0 <= i < c.blobs@.len() && rebuilds(#[trigger] c.blobs@[i]) >= clamp((if i < b.blobs@.len() {
                rebuilds(b.blobs@[i])
            } else {
                0
            }) + MAX_SPILLOVER_ATTEMPTS);
        if i < b.blobs@.len() {
            assert(b.blobs@[i].frame == a.blobs@[i].frame);
        }
        assert(worn_out(a, c));
    }
}

/// Inserts with the full walk from the root.
fn insert_multi_from_root(
    bm: &mut BufferManager,
    root: usize,
    key: SearchKey,
    value: &[u8],
    seq: u64,
    condition: InsertCondition,
) -> (r: Result<InsertOutcome>)
    requires
        enters(*old(bm), root as int, key@, 0),
        key@.len() <= 65535,
        value@.len() <= 65535,
    ensures
        put_result(*old(bm), *final(bm), old(bm).blobs@[root as int].guid, key@, value@, seq, condition, r),
        r matches Ok(out) ==> put_recorded(*old(bm), *final(bm), old(bm).blobs@[root as int].guid, key@, seq, true, out),
        put_counted(*old(bm), *final(bm), old(bm).blobs@[root as int].guid, key@, r),
{
    let ghost b0 = *bm;
    let ghost g = bm.blobs@[root as int].guid;
    proof {
        reveal(splits_counted);
    }
    let mut trace = WalkTrace { blob_hops: 0, max_cross_blob_depth: 0 };
    let r = lock_coupled_insert_in_blob(bm, root, true, key, value, seq, condition, 0, &mut trace);
    let ghost b1 = *bm;
    if r.is_ok() {
        bm.note_walker_blob_hops(trace.blob_hops, trace.max_cross_blob_depth);
    }
    proof {
        lemma_kept_remarked(b0, b1, *bm, g);
        if let Ok(out) = r {
            lemma_marked_notes(b1, *bm, seq, Some(g));
            lemma_marked_trans(b0, b1, *bm, seq, Some(g));
            lemma_splits_kept(b0, b1, *bm, key@);
        }
    }
    r
}

/// What inserting into the tree at `root` promises.
pub open spec fn insert_multi_result(
    b0: BufferManager,
    b: BufferManager,
    root: BlobGuid,
    key: Seq<u8>,
    value: Seq<u8>,
    seq: u64,
    condition: InsertCondition,
    r: Result<InsertOutcome>,
) -> bool {
    if key.len() > 65535 {
        b == b0 && r == Err::<InsertOutcome, Error>(Error::KeyTooLong { len: key.len() as usize })
    } else if value.len() > 65535 {
        b == b0 && r == Err::<InsertOutcome, Error>(Error::ValueTooLong { len: value.len() as usize })
    } else {
        &&& put_result(b0, b, root, key, value, seq, condition, r)
        &&& r matches Ok(out) ==> put_recorded(b0, b, root, key, seq, true, out)
        &&& put_counted(b0, b, root, key, r)
    }
}

/// Inserts or replaces a record in the tree at `root`.
pub fn insert_multi(
    bm: &mut BufferManager,
    root: BlobGuid,
    route_cache: &mut Option<RouteCache>,
    key: SearchKey,
    value: &[u8],
    seq: u64,
) -> (r: Result<InsertOutcome>)
    requires
        old(bm).wf(),
        is_root(*old(bm), root),
        routes_ok(*old(route_cache), *old(bm), root),
        key@.len() <= usize::MAX,
    ensures
        insert_multi_result(*old(bm), *final(bm), root, key@, value@, seq, InsertCondition::Always, r),
        final(bm).wf(),
        is_root(*final(bm), root),
        routes_ok(*final(route_cache), *final(bm), root),
        *final(route_cache) is Some <==> *old(route_cache) is Some,
{
    insert_multi_conditional(bm, root, route_cache, key, value, seq, InsertCondition::Always)
}

/// Inserts a record in the tree at `root` if the key's record is as
/// `condition` asks.
pub fn insert_multi_conditional(
    bm: &mut BufferManager,
    root: BlobGuid,
    route_cache: &mut Option<RouteCache>,
    key: SearchKey,
    value: &[u8],
    seq: u64,
    condition: InsertCondition,
) -> (r: Result<InsertOutcome>)
    requires
        old(bm).wf(),
        is_root(*old(bm), root),
        routes_ok(*old(route_cache), *old(bm), root),
        key@.len() <= usize::MAX,
    ensures
        insert_multi_result(*old(bm), *final(bm), root, key@, value@, seq, condition, r),
        final(bm).wf(),
        is_root(*final(bm), root),
        routes_ok(*final(route_cache), *final(bm), root),
        *final(route_cache) is Some <==> *old(route_cache) is Some,
{
    if key.len() > 65535 {
        return Err(Error::KeyTooLong { len: key.len() });
    }
    if value.len() > 65535 {
        return Err(Error::ValueTooLong { len: value.len() });
    }
    let ghost b0 = *bm;
    let at: usize = match bm.pin(root) {
        Ok(i) => i,
        Err(e) => {
            return Err(e);
        },
    };
    assert(enters(*bm, at as int, key@, 0));
    match try_insert_from_optimistic_route(bm, at, route_cache, key, value, seq, condition) {
        Ok(Some(out)) => {
            proof {
                lemma_routes_kept(None, b0, *bm, root);
            }
            return Ok(out);
        },
        Ok(None) => {},
        Err(e) => {
            proof {
                lemma_routes_kept(None, b0, *bm, root);
            }
            return Err(e);
        },
    }
    match try_insert_from_root_router(bm, at, route_cache, key, value, seq, condition) {
        Ok(Some(out)) => {
            proof {
                lemma_routes_kept(None, b0, *bm, root);
            }
            return Ok(out);
        },
        Ok(None) => {},
        Err(e) => {
            proof {
                lemma_routes_kept(None, b0, *bm, root);
            }
            return Err(e);
        },
    }
    let r = insert_multi_from_root(bm, at, key, value, seq, condition);
    proof {
        lemma_routes_kept(*route_cache, b0, *bm, root);
    }
    r
}

/// One record of a batch.
#[derive(Clone, Copy)]
pub struct InsertBatchItem<'a> {
    pub key: SearchKey<'a>,
    pub value: &'a [u8],
    pub seq: u64,
    pub condition: InsertCondition,
}

impl<'a> InsertBatchItem<'a> {
    /// A record to insert.
    pub fn new(key: SearchKey<'a>, value: &'a [u8], seq: u64, condition: InsertCondition) -> (r: Self)
        ensures
            r == (InsertBatchItem { key, value, seq, condition }),
    {
        InsertBatchItem { key, value, seq, condition }
    }
}

/// What a batch insert did.
#[derive(Debug, Clone, Copy)]
pub struct InsertBatchOutcome {
    /// The root blob changed.
    pub root_dirty: bool,
    /// Records written, from the front of the batch.
    pub applied: usize,
}

/// Whether every record of a batch is within the limits.
pub open spec fn items_fit(items: Seq<InsertBatchItem>) -> bool {
    forall|i: int| 0 <= i < items.len() ==> (#[trigger] items[i]).key@.len() <= 65535 && items[i].value@.len() <= 65535
}

/// Whether record `i` is the first of a batch that is not within the limits,
/// and `e` says why.
pub open spec fn first_misfit(items: Seq<InsertBatchItem>, i: int, e: Error) -> bool {
    &&& 0 <= i < items.len()
    &&& items_fit(items.take(i))
    &&& if items[i].key@.len() > 65535 {
        e == (Error::KeyTooLong { len: items[i].key@.len() as usize })
    } else {
        items[i].value@.len() > 65535 && e == (Error::ValueTooLong { len: items[i].value@.len() as usize })
    }
}

/// What `key` is found to be once the first `n` records are written.
pub open spec fn batch_find(f: Forest, root: BlobGuid, items: Seq<InsertBatchItem>, n: int, key: Seq<u8>) -> Route
    decreases n,
{
    if n <= 0 || n > items.len() {
        f.find(root, key)
    } else if items[n - 1].key@ == key {
        Route::Found { value: items[n - 1].value@, seq: items[n - 1].seq }
    } else {
        batch_find(f, root, items, n - 1, key)
    }
}

/// Whether record `i` meets its condition once those before it are written.
pub open spec fn in_condition(f: Forest, root: BlobGuid, items: Seq<InsertBatchItem>, i: int) -> bool {
    writes(batch_find(f, root, items, i, items[i].key@), items[i].condition)
}

/// Whether the first `n` records of a batch, each of which met its
/// condition, are written in `b`, and nothing else changed for keys of the
/// tree at `root`.
pub open spec fn batch_applied(b0: BufferManager, b: BufferManager, root: BlobGuid, items: Seq<InsertBatchItem>, n: int) -> bool {
    &&& forall|i: int| 0 <= i < n ==> #[trigger] in_condition(b0.forest(), root, items, i)
    &&& b.wf()
    &&& versioned(b0, b)
    &&& same_rules(b0, b)
    &&& grown(b0.forest(), b.forest())
    &&& spares(b0.forest(), b.forest(), root, b0.fork_barrier)
    &&& forall|key: Seq<u8>| #[trigger] b.forest().find(root, key) == batch_find(b0.forest(), root, items, n, key)
}

/// Number of records from the front that share the first `child_depth` key
/// bytes of the first one.
pub fn same_child_prefix_run_len(items: &[InsertBatchItem], child_depth: usize) -> (r: usize)
    requires
        items@.len() > 0,
    ensures
        1 <= r <= items@.len(),
        child_depth > items@[0].key.bytes@.len() ==> r == 1,
        child_depth <= items@[0].key.bytes@.len() ==> {
            let p = items@[0].key.bytes@.take(child_depth as int);
            &&& forall|i: int| 0 <= i < r ==> p.is_prefix_of((#[trigger] items@[i]).key.bytes@)
            &&& r < items@.len() ==> !p.is_prefix_of(items@[r as int].key.bytes@)
        },
{
    let prefix: &[u8] = match items[0].key.user_prefix(child_depth) {
        Some(p) => p,
        None => {
            return 1;
        },
    };
    let ghost p = items@[0].key.bytes@.take(child_depth as int);
    let mut len: usize = 1;
    let mut more: bool = true;
    while more && len < items.len()
        invariant
            1 <= len <= items@.len(),
            child_depth <= items@[0].key.bytes@.len(),
            p == items@[0].key.bytes@.take(child_depth as int),
            prefix@ == p,
            forall|i: int| 0 <= i < len ==> p.is_prefix_of((#[trigger] items@[i]).key.bytes@),
            !more ==> len < items@.len() && !p.is_prefix_of(items@[len as int].key.bytes@),
        decreases more as int, items@.len() - len,
    {
        match items[len].key.user_prefix(child_depth) {
            Some(candidate) => {
                if crate::key::bytes_eq(candidate, prefix) {
                    len = len + 1;
                } else {
                    proof {
                        let k = items@[len as int].key.bytes@;
                        if p.is_prefix_of(k) {
                            assert(k.take(child_depth as int) =~= p);
                        }
                    }
                    more = false;
                }
            },
            None => {
                more = false;
            },
        }
    }
    len
}

/// Whether writing records into blob `g` stops at `item`: it leads into
/// another blob, or finds no room.
pub open spec fn stops_at(f: Forest, g: BlobGuid, item: InsertBatchItem) -> bool {
    ||| f.route(g, item.key@) is Crossing
    ||| !affords(
        f.blobs[g],
        insert_cost(f.blobs[g].cells@, f.blobs[g].tree(), item.key@, f.base[g].len() as int, item.value@.len() as int),
    )
}

/// Whether the key of `b` begins with the first `depth` user bytes of the key
/// of `a`.
pub open spec fn same_start(a: InsertBatchItem, b: InsertBatchItem, depth: int) -> bool {
    depth <= a.key.bytes@.len() && a.key.bytes@.take(depth).is_prefix_of(b.key.bytes@)
}

/// Whether `n` is how many records of a batch the first blob of the first one
/// takes: that is the child that it crosses into, or the root. A child that a
/// snapshot may see takes none; otherwise the next record stops, or is not
/// known to cross into the same child.
pub open spec fn batch_filled(b0: BufferManager, b: BufferManager, root: BlobGuid, items: Seq<InsertBatchItem>, n: int) -> bool {
    let f0 = b0.forest();
    match f0.route(root, items[0].key@) {
        Route::Crossing { guid: c, depth } => if is_shared(f0.blobs[c], b0.fork_barrier) {
            n == 0
        } else {
            n < items.len() ==> stops_at(b.forest(), c, items[n]) || (n > 0 && !same_start(items[0], items[n], depth))
        },
        _ => n < items.len() ==> stops_at(b.forest(), root, items[n]),
    }
}

/// What an insert costs does not change while the nodes stand.
proof fn lemma_cost_kept(c: Seq<Option<Node>>, c2: Seq<Option<Node>>, t: Art, key: Seq<u8>, d: int, vlen: int)
    requires
        rep(c, t),
        keeps(c, c2),
    ensures
        insert_cost(c2, t, key, d, vlen) == insert_cost(c, t, key, d, vlen),
    decreases t,
{
    lemma_rep_root(c, t);
    assert(at(c2, slot_of(t)) == at(c, slot_of(t)));
    match t {
        Art::Prefix { bytes, child, .. } => lemma_cost_kept(c, c2, *child, key, d + bytes.len(), vlen),
        Art::Inner { kids, .. } => {
            if 0 <= d < key.len() && key[d] < kids.len() && kids[key[d] as int] is Some {
                assert(rep(c, kids[key[d] as int]->0));
                lemma_cost_kept(c, c2, kids[key[d] as int]->0, key, d + 1, vlen);
            }
        },
        _ => {},
    }
}

/// Writes records from the front of `items` into entry `at`, stopping at the
/// first that leads into another blob or finds no room.
fn insert_batch_in_pinned_blob(
    bm: &mut BufferManager,
    at: usize,
    is_top_blob: bool,
    items: &[InsertBatchItem],
    depth: usize,
    blob_hops_per_item: u64,
    Ghost(root): Ghost<BlobGuid>,
) -> (r: Result<InsertBatchOutcome>)
    requires
        old(bm).wf(),
        is_root(*old(bm), root),
        at < old(bm).blobs@.len(),
        items_fit(items@),
        items@.len() > 0,
        old(bm).base@[old(bm).blobs@[at as int].guid].len() == depth,
        forall|i: int| 0 <= i < items@.len() ==> old(bm).forest().below(old(bm).blobs@[at as int].guid, (#[trigger] items@[i]).key@),
        is_top_blob <==> old(bm).blobs@[at as int].guid == root,
        blob_hops_per_item == (if is_top_blob { 1int } else { 2 }),
        !is_top_blob ==> !is_shared(old(bm).blobs@[at as int].frame, old(bm).fork_barrier),
        !is_top_blob ==> forall|i: int|
            0 <= i < items@.len() ==> old(bm).forest().route(root, (#[trigger] items@[i]).key@) == (Route::Crossing {
                guid: old(bm).blobs@[at as int].guid,
                depth: depth as int,
            }),
    ensures
        match r {
            Ok(out) => {
                let e0 = old(bm).blobs@[at as int];
                let e = final(bm).blobs@[at as int];
                &&& out.applied <= items@.len()
                &&& out.root_dirty == (is_top_blob && out.applied > 0)
                &&& out.applied < items@.len() ==> stops_at(final(bm).forest(), e0.guid, items@[out.applied as int])
                &&& e.dirty == (if out.applied > 0 && !is_top_blob {
                    match e0.dirty {
                        Some(s) if s < items@[0].seq => Some(s),
                        _ => Some(items@[0].seq),
                    }
                } else {
                    e0.dirty
                })
                &&& out.applied > 0 && needs_compaction(e.frame.header) ==> final(bm).compaction_candidates@.contains(e0.guid)
            },
            Err(_) => true,
        },
        batch_result(*old(bm), *final(bm), root, items@, r),
{
    let ghost b0 = *bm;
    let ghost g = bm.blobs@[at as int].guid;
    let mut applied: usize = 0;
    let mut compaction: bool = false;
    let mut more: bool = true;
    proof {
        lemma_map_at(b0.blobs@, at as int);
        assert(batch_applied(b0, *bm, root, items@, 0)) by {
            lemma_remarked(b0, b0);
        }
    }
    while more && applied < items.len()
        invariant
            b0 == *old(bm),
            b0.wf(),
            is_root(b0, root),
            b0.has(g),
            at < b0.blobs@.len(),
            g == b0.blobs@[at as int].guid,
            items_fit(items@),
            applied <= items@.len(),
            b0.base@[g].len() == depth,
            is_top_blob <==> g == root,
            !is_top_blob ==> !is_shared(b0.blobs@[at as int].frame, b0.fork_barrier),
            forall|i: int| 0 <= i < items@.len() ==> b0.forest().below(g, (#[trigger] items@[i]).key@),
            !is_top_blob ==> forall|i: int|
                0 <= i < items@.len() ==> b0.forest().route(root, (#[trigger] items@[i]).key@) == (Route::Crossing { guid: g, depth: depth as int }),
            batch_applied(b0, *bm, root, items@, applied as int),
            only_touched(b0.forest(), bm.forest(), g),
            applied == 0 ==> bm.forest().blobs[g].tree() == b0.forest().blobs[g].tree(),
            applied == 0 ==> rebuilds(bm.blobs@[at as int]) == rebuilds(b0.blobs@[at as int]),
            !more ==> applied < items@.len() && stops_at(bm.forest(), g, items@[applied as int]),
            bm.blobs@[at as int].dirty == b0.blobs@[at as int].dirty,
            applied > 0 && needs_compaction(bm.blobs@[at as int].frame.header) ==> compaction,
            applied == 0 ==> unmoved(b0, *bm) || (!more && !roomy(b0.forest(), root, items@[0].key@, items@[0].value@)),
            bm.blobs@.len() == b0.blobs@.len(),
            blob_hops_per_item == (if is_top_blob { 1int } else { 2 }),
            bm.counters == after_walks(b0.counters, applied as nat, blob_hops_per_item as nat, depth as nat),
            forall|i: int| 0 <= i < b0.blobs@.len() && i != at ==> bm.blobs@[i] == b0.blobs@[i],
            forall|j: int| 0 <= j < applied ==> !(bm.blobs@[at as int].frame.route((#[trigger] items@[j]).key@, depth as int) is Crossing),
        decreases more as int, items@.len() - applied,
    {
        let ghost b1 = *bm;
        let item: InsertBatchItem = items[applied];
        let ghost key = item.key@;
        proof {
            assert(item == items@[applied as int]);
            assert(b0.blobs@[at as int].guid == b1.blobs@[at as int].guid);
            lemma_map_at(b1.blobs@, at as int);
            assert(b0.forest().below(g, items@[applied as int].key@));
            assert(b1.base@[g] == b0.base@[g]);
            assert(b0.forest().has(root));
            assert(b1.base@[root] == b0.base@[root]);
            assert(b0.base@[root] =~= key.subrange(0, 0));
            assert(b0.forest().edge_ok(root, key));
            lemma_batch_route(b0, b1, g, root, items@, applied as int, depth as int);
        }
        match bm.insert_step(at, item.key, item.value, depth, item.seq, item.condition) {
            Ok(BlobInsert::Done(mutated)) => {
                let ghost b2 = *bm;
                if !mutated {
                    proof {
                        lemma_batch_still(b0, b1, b2, root, items@, applied as int);
                        lemma_pinned_counted(b0, b2, at as int, root, items@, depth as int, applied as nat);
                        assert(!in_condition(b0.forest(), root, items@, applied as int));
                    }
                    let e = Error::Internal("a record of the batch does not meet its condition");
                    assert(batch_refused(b0, *bm, root, items@, applied as int, e));
                    return Err(e);
                }
                if blob_needs_compaction(&bm.blobs[at].frame) {
                    compaction = true;
                }
                bm.note_walker_blob_hops(blob_hops_per_item, depth);
                proof {
                    lemma_map_at(b2.blobs@, at as int);
                    assert forall|j: int| 0 <= j < applied + 1 implies !(bm.blobs@[at as int].frame.route((#[trigger] items@[j]).key@, depth as int) is Crossing) by {
                        if items@[j].key@ != key {
                            assert(b2.blobs@[at as int].frame.route(items@[j].key@, depth as int) == b1.blobs@[at as int].frame.route(
                                items@[j].key@,
                                depth as int,
                            ));
                        } else {
                            assert(b2.forest().route(g, key) is Found);
                        }
                    }
                    lemma_remarked(b2, *bm);
                    lemma_batch_more(b0, b1, b2, *bm, g, root, items@, applied as int, depth as int);
                }
                applied = applied + 1;
            },
            Ok(BlobInsert::Crossing(_)) => {
                proof {
                    lemma_batch_still(b0, b1, *bm, root, items@, applied as int);
                }
                more = false;
            },
            Err(Error::Alloc(_)) => {
                proof {
                    lemma_batch_settled(b0, b1, *bm, g, root, items@, applied as int);
                    lemma_tree_stands(b1, *bm, at as int);
                    assert forall|j: int| 0 <= j < applied implies !(bm.blobs@[at as int].frame.route((#[trigger] items@[j]).key@, depth as int) is Crossing) by {
                        assert(!(b1.blobs@[at as int].frame.route(items@[j].key@, depth as int) is Crossing));
                    }
                    let c1 = b1.blobs@[at as int].frame;
                    assert(c1.wf(b1.base@[g]));
                    lemma_cost_kept(c1.cells@, bm.blobs@[at as int].frame.cells@, c1.tree(), key, depth as int, item.value@.len() as int);
                }
                more = false;
            },
            Err(e) => {
                proof {
                    lemma_batch_settled(b0, b1, *bm, g, root, items@, applied as int);
                    lemma_tree_stands(b1, *bm, at as int);
                    lemma_batch_route(b0, *bm, g, root, items@, applied as int, depth as int);
                    assert forall|j: int| 0 <= j < applied implies !(bm.blobs@[at as int].frame.route((#[trigger] items@[j]).key@, depth as int) is Crossing) by {
                        assert(!(b1.blobs@[at as int].frame.route(items@[j].key@, depth as int) is Crossing));
                    }
                    lemma_pinned_counted(b0, *bm, at as int, root, items@, depth as int, applied as nat);
                    assert(batch_refused(b0, *bm, root, items@, applied as int, e));
                }
                return Err(e);
            },
        }
    }
    let ghost b4 = *bm;
    let guid: BlobGuid = bm.blobs[at].guid;
    if compaction {
        bm.note_compaction_candidate(guid);
    }
    proof {
        lemma_remarked(b4, *bm);
    }
    if applied > 0 && !is_top_blob {
        bm.mark_dirty(at, items[0].seq);
    }
    proof {
        lemma_remarked(b4, *bm);
        lemma_batch_still(b0, b4, *bm, root, items@, applied as int);
        lemma_map_at(b4.blobs@, at as int);
        lemma_map_at(bm.blobs@, at as int);
        let out = InsertBatchOutcome { root_dirty: is_top_blob && applied > 0, applied };
        lemma_pinned_counted(b0, *bm, at as int, root, items@, depth as int, applied as nat);
        lemma_pinned_recorded(b0, *bm, at as int, root, items@, depth as int, out);
    }
    Ok(InsertBatchOutcome { root_dirty: is_top_blob && applied > 0, applied })
}

/// What writing `n` records of a batch into entry `at` counts.
proof fn lemma_pinned_counted(b0: BufferManager, b: BufferManager, at: int, root: BlobGuid, items: Seq<InsertBatchItem>, depth: int, n: nat)
    requires
        b0.wf(),
        b.wf(),
        is_root(b0, root),
        0 <= at < b0.blobs@.len(),
        b.blobs@.len() == b0.blobs@.len(),
        items.len() > 0,
        b.blobs@[at].guid == b0.blobs@[at].guid,
        b0.base@[b0.blobs@[at].guid].len() == depth,
        b.base@[b0.blobs@[at].guid] == b0.base@[b0.blobs@[at].guid],
        b.base@[root] == b0.base@[root],
        b.has(root),
        only_touched(b0.forest(), b.forest(), b0.blobs@[at].guid),
        n > 0 ==> !(b.blobs@[at].frame.route(items[0].key@, depth) is Crossing),
        b0.blobs@[at].guid != root ==> b0.forest().route(root, items[0].key@) == (Route::Crossing { guid: b0.blobs@[at].guid, depth }),
        b.counters == after_walks(b0.counters, n, if b0.blobs@[at].guid == root {
            1
        } else {
            2
        }, depth as nat),
    ensures
        batch_counted(b0, b, root, items, n, false),
{
    let g = b0.blobs@[at].guid;
    lemma_map_at(b0.blobs@, at);
    lemma_map_at(b.blobs@, at);
    let f0 = b0.forest();
    let f = b.forest();
    let k0 = items[0].key@;
    assert(f0.has(root));
    if n > 0 {
        if g != root {
            assert(f.blobs[root] == f0.blobs[root]);
            assert(f.below(root, k0)) by {
                assert(f.base[root] =~= k0.subrange(0, 0));
            }
            assert(f.edge_ok(root, k0));
            assert(f.hops(root, k0) == 1 + f.hops(g, k0));
            assert(f.home(root, k0) == f.home(g, k0));
        }
        assert(f.home(g, k0) == g);
    }
}

/// What writing records of a batch into entry `at` leaves on record.
proof fn lemma_pinned_recorded(
    b0: BufferManager,
    b: BufferManager,
    at: int,
    root: BlobGuid,
    items: Seq<InsertBatchItem>,
    depth: int,
    out: InsertBatchOutcome,
)
    requires
        b0.wf(),
        b.wf(),
        is_root(b0, root),
        0 <= at < b0.blobs@.len(),
        b.blobs@.len() == b0.blobs@.len(),
        items.len() > 0,
        out.applied <= items.len(),
        b.blobs@[at].guid == b0.blobs@[at].guid,
        b0.base@[b0.blobs@[at].guid].len() == depth,
        b.base@[b0.blobs@[at].guid] == b0.base@[b0.blobs@[at].guid],
        b.base@[root] == b0.base@[root],
        b.has(root),
        forall|i: int| 0 <= i < b0.blobs@.len() && i != at ==> b.blobs@[i] == b0.blobs@[i],
        only_touched(b0.forest(), b.forest(), b0.blobs@[at].guid),
        forall|j: int| 0 <= j < out.applied ==> !(b.blobs@[at].frame.route((#[trigger] items[j]).key@, depth) is Crossing),
        out.applied == 0 ==> b.blobs@[at].frame.tree() == b0.blobs@[at].frame.tree(),
        out.applied == 0 ==> rebuilds(b.blobs@[at]) == rebuilds(b0.blobs@[at]),
        out.applied > 0 && b0.blobs@[at].guid != root ==> is_dirty(b.blobs@[at], items[0].seq),
        out.applied > 0 && needs_compaction(b.blobs@[at].frame.header) ==> b.compaction_candidates@.contains(b0.blobs@[at].guid),
        out.root_dirty == (b0.blobs@[at].guid == root && out.applied > 0),
        batch_counted(b0, b, root, items, out.applied as nat, false),
        b0.blobs@[at].guid != root ==> forall|i: int|
            0 <= i < items.len() ==> b0.forest().route(root, (#[trigger] items[i]).key@) == (Route::Crossing { guid: b0.blobs@[at].guid, depth }),
    ensures
        batch_recorded(b0, b, root, items, out),
{
    reveal(batch_recorded);
    let g = b0.blobs@[at].guid;
    lemma_map_at(b0.blobs@, at);
    lemma_map_at(b.blobs@, at);
    let f0 = b0.forest();
    let f = b.forest();
    let k0 = items[0].key@;
    assert(f0.has(root));
    if g != root {
        assert(f.blobs[root] == f0.blobs[root]);
        assert(f0.route(root, k0) is Crossing);
    } else if out.applied == 0 {
        assert(f.blobs[root].tree() == f0.blobs[root].tree());
    } else {
        assert(!(b.blobs@[at].frame.route(items[0].key@, depth) is Crossing));
    }
    if out.applied > 0 {
        let k = items[out.applied - 1].key@;
        assert(!(f.route(g, k) is Crossing));
        if g != root {
            assert(f0.route(root, k) == (Route::Crossing { guid: g, depth }));
            assert(f.below(root, k)) by {
                assert(f.base[root] =~= k.subrange(0, 0));
            }
            assert(f.edge_ok(root, k));
        }
        assert(f.home(g, k) == g);
        assert(f.home(root, k) == g);
    }
}

/// A failed step leaves the blob's tree as it is.
proof fn lemma_tree_stands(a: BufferManager, b: BufferManager, i: int)
    requires
        a.wf(),
        b.wf(),
        0 <= i < a.blobs@.len(),
        rewritten(a, b, i, b.blobs@[i].frame),
        failed(a.blobs@[i].frame, b.blobs@[i].frame),
    ensures
        b.forest().blobs[a.blobs@[i].guid].tree() == a.forest().blobs[a.blobs@[i].guid].tree(),
        b.forest().blobs[a.blobs@[i].guid] == b.blobs@[i].frame,
        a.forest().blobs[a.blobs@[i].guid] == a.blobs@[i].frame,
{
    let g = a.blobs@[i].guid;
    lemma_map_at(a.blobs@, i);
    lemma_map_at(b.blobs@, i);
    assert(a.forest().has(g));
    assert(a.blobs@[i].frame.wf(a.base@[g]));
    BlobFrame::lemma_kept(a.blobs@[i].frame, b.blobs@[i].frame, a.base@[g]);
}

/// Where record `n` of a batch leads, once those before it are written.
proof fn lemma_batch_route(b0: BufferManager, b: BufferManager, g: BlobGuid, root: BlobGuid, items: Seq<InsertBatchItem>, n: int, depth: int)
    requires
        b0.wf(),
        is_root(b0, root),
        0 <= n < items.len(),
        b0.has(g),
        batch_applied(b0, b, root, items, n),
        only_touched(b0.forest(), b.forest(), g),
        b0.forest().below(g, items[n].key@),
        g != root ==> b0.forest().route(root, items[n].key@) == (Route::Crossing { guid: g, depth }),
    ensures
        b.forest().find(root, items[n].key@) == b.forest().find(g, items[n].key@),
        b.forest().find(root, items[n].key@) == batch_find(b0.forest(), root, items, n, items[n].key@),
        b.forest().home(root, items[n].key@) == b.forest().home(g, items[n].key@),
        b.forest().base[g] == b0.forest().base[g],
{
    let f0 = b0.forest();
    let f = b.forest();
    let k = items[n].key@;
    assert(f0.has(root));
    assert(f.base[root] == f0.base[root] && f.has(root));
    assert(f0.base[root] =~= k.subrange(0, 0));
    assert(f0.below(root, k));
    assert(f0.has(g));
    if g != root {
        assert(f0.edge_ok(root, k));
        assert(f.blobs[root] == f0.blobs[root]);
        assert(f.route(root, k) == f0.route(root, k));
        assert(f.below(root, k));
        assert(f.edge_ok(root, k));
    }
}

/// A step that changed nothing.
proof fn lemma_batch_still(b0: BufferManager, b1: BufferManager, b2: BufferManager, root: BlobGuid, items: Seq<InsertBatchItem>, n: int)
    requires
        batch_applied(b0, b1, root, items, n),
        b2.wf(),
        versioned(b1, b2),
        same_rules(b1, b2),
        b2.forest() == b1.forest(),
    ensures
        batch_applied(b0, b2, root, items, n),
{
    lemma_versioned_trans(b0, b1, b2);
}

/// A step that no key noticed.
proof fn lemma_batch_settled(
    b0: BufferManager,
    b1: BufferManager,
    b2: BufferManager,
    g: BlobGuid,
    root: BlobGuid,
    items: Seq<InsertBatchItem>,
    n: int,
)
    requires
        batch_applied(b0, b1, root, items, n),
        is_root(b0, root),
        settled(b1, b2, g),
        b0.has(g),
        only_touched(b0.forest(), b1.forest(), g),
        g != root ==> !is_shared(b0.forest().blobs[g], b0.fork_barrier),
        g != root ==> b0.forest().rank[g] < b0.forest().rank[root],
    ensures
        batch_applied(b0, b2, root, items, n),
        only_touched(b0.forest(), b2.forest(), g),
{
    let f0 = b0.forest();
    let f1 = b1.forest();
    let f2 = b2.forest();
    lemma_versioned_trans(b0, b1, b2);
    assert(f1.has(root) && f1.base[root] == f0.base[root]);
    assert forall|key: Seq<u8>| #[trigger] f2.find(root, key) == batch_find(f0, root, items, n, key) by {
        assert(f1.below(root, key)) by {
            assert(f1.base[root] =~= key.subrange(0, 0));
        }
        assert(f1.find(root, key) == batch_find(f0, root, items, n, key));
    }
    assert forall|h: BlobGuid| #[trigger] f0.has(h) && h != g implies f2.blobs[h] == f0.blobs[h] by {
        assert(f1.has(h));
    }
    assert(grown(f0, f2)) by {
        assert forall|h: BlobGuid| #[trigger] f0.has(h) implies f2.has(h) && f2.base[h] == f0.base[h] by {
            assert(f1.has(h));
        }
        assert forall|h1: BlobGuid, h2: BlobGuid| f0.has(h1) && f0.has(h2) && #[trigger] f0.rank[h1] <= #[trigger] f0.rank[h2] implies f2.rank[h1]
            <= f2.rank[h2] by {
            assert(f1.has(h1) && f1.has(h2));
            assert(f1.rank[h1] <= f1.rank[h2]);
        }
    }
}

/// A step that wrote record `n`.
proof fn lemma_batch_more(
    b0: BufferManager,
    b1: BufferManager,
    b2: BufferManager,
    b3: BufferManager,
    g: BlobGuid,
    root: BlobGuid,
    items: Seq<InsertBatchItem>,
    n: int,
    depth: int,
)
    requires
        b0.wf(),
        is_root(b0, root),
        0 <= n < items.len(),
        batch_applied(b0, b1, root, items, n),
        b0.has(g),
        only_touched(b0.forest(), b1.forest(), g),
        b0.forest().below(g, items[n].key@),
        g != root ==> !is_shared(b0.forest().blobs[g], b0.fork_barrier),
        g != root ==> b0.forest().route(root, items[n].key@) == (Route::Crossing { guid: g, depth }),
        b2.wf(),
        versioned(b1, b2),
        same_rules(b1, b2),
        grown(b1.forest(), b2.forest()),
        only_touched(b1.forest(), b2.forest(), g),
        others_same(b1.forest(), b2.forest(), items[n].key@),
        b2.forest().find(g, items[n].key@) == (Route::Found { value: items[n].value@, seq: items[n].seq }),
        in_condition(b0.forest(), root, items, n),
        remarked(b2, b3),
    ensures
        batch_applied(b0, b3, root, items, n + 1),
        only_touched(b0.forest(), b3.forest(), g),
{
    let f0 = b0.forest();
    let f1 = b1.forest();
    let f2 = b2.forest();
    let k = items[n].key@;
    lemma_remarked(b2, b3);
    lemma_versioned_trans(b0, b1, b2);
    lemma_versioned_trans(b0, b2, b3);
    assert(f1.has(root) && f1.base[root] == f0.base[root]);
    assert(f2.has(root) && f2.base[root] == f0.base[root]);
    assert forall|x: Seq<u8>| #[trigger] f0.below(root, x) by {
        assert(f0.base[root] =~= x.subrange(0, 0));
    }
    assert forall|h: BlobGuid| #[trigger] f0.has(h) && h != g implies f2.blobs[h] == f0.blobs[h] by {
        assert(f1.has(h));
    }
    if g != root {
        assert(f0.edge_ok(root, k));
        assert(f2.route(root, k) == f0.route(root, k));
        assert(f0.below(root, k));
        assert(f2.edge_ok(root, k));
        assert(f2.find(root, k) == f2.find(g, k));
    }
    assert forall|key: Seq<u8>| #[trigger] f2.find(root, key) == batch_find(f0, root, items, n + 1, key) by {
        assert(f0.below(root, key));
        if key != k {
            assert(f2.find(root, key) == f1.find(root, key));
            assert(f1.find(root, key) == batch_find(f0, root, items, n, key));
        }
    }
    assert(grown(f0, f2)) by {
        assert forall|h: BlobGuid| #[trigger] f0.has(h) implies f2.has(h) && f2.base[h] == f0.base[h] by {
            assert(f1.has(h));
        }
        assert forall|h1: BlobGuid, h2: BlobGuid| f0.has(h1) && f0.has(h2) && #[trigger] f0.rank[h1] <= #[trigger] f0.rank[h2] implies f2.rank[h1]
            <= f2.rank[h2] by {
            assert(f1.has(h1) && f1.has(h2));
            assert(f1.rank[h1] <= f1.rank[h2]);
        }
    }
}

/// Whether a record cannot go where the first walk of a batch leads: no room is
/// left there, it leads on, or a snapshot may see that blob.
pub open spec fn goes_alone(b0: BufferManager, root: BlobGuid, item: InsertBatchItem) -> bool {
    let f0 = b0.forest();
    ||| !roomy(f0, root, item.key@, item.value@)
    ||| match f0.route(root, item.key@) {
        Route::Crossing { guid: c, .. } => is_shared(f0.blobs[c], b0.fork_barrier) || stops_at(f0, c, item),
        _ => stops_at(f0, root, item),
    }
}

/// What a batch insert into the tree at `root` promises.
pub open spec fn batch_result(
    b0: BufferManager,
    b: BufferManager,
    root: BlobGuid,
    items: Seq<InsertBatchItem>,
    r: Result<InsertBatchOutcome>,
) -> bool {
    match r {
        Ok(out) => {
            &&& out.applied <= items.len()
            &&& batch_applied(b0, b, root, items, out.applied as int)
            // A root that is not reported dirty has the same tree.
            &&& !out.root_dirty ==> b.forest().blobs[root].tree() == b0.forest().blobs[root].tree()
            &&& out.root_dirty ==> out.applied > 0
            &&& items.len() > 0 ==> batch_recorded(b0, b, root, items, out)
            &&& out.applied == 0 && items.len() > 0 ==> unmoved(b0, b) || !roomy(b0.forest(), root, items[0].key@, items[0].value@)
        },
        Err(e) => exists|n: int| #[trigger] batch_refused(b0, b, root, items, n, e),
    }
}

/// Whether `b` has the entries of `a`, with the same trees and as often
/// rebuilt.
pub open spec fn standing(a: BufferManager, b: BufferManager) -> bool {
    &&& b.blobs@.len() == a.blobs@.len()
    &&& forall|i: int|
        0 <= i < b.blobs@.len() ==> (#[trigger] b.blobs@[i]).guid == a.blobs@[i].guid && b.blobs@[i].frame.tree() == a.blobs@[i].frame.tree()
            && rebuilds(b.blobs@[i]) == rebuilds(a.blobs@[i])
}

/// What a batch leaves on record: every blob that is new or has another tree
/// is to be written back, but for the root. The root is reported dirty when
/// records were written there, and when it leads the first one elsewhere now.
/// A blob that was written to is noted if it is worth rebuilding. Each record
/// counts as a walk.
#[verifier::opaque]
pub open spec fn batch_recorded(b0: BufferManager, b: BufferManager, root: BlobGuid, items: Seq<InsertBatchItem>, out: InsertBatchOutcome) -> bool {
    let k0 = items[0].key@;
    &&& forall|i: int|
        0 <= i < b.blobs@.len() && (#[trigger] b.blobs@[i]).guid != root && (i >= b0.blobs@.len() || b.blobs@[i].frame.tree()
            != b0.blobs@[i].frame.tree()) ==> is_dirty(b.blobs@[i], items[0].seq)
    &&& out.root_dirty <==> (out.applied > 0 && !(b.forest().route(root, k0) is Crossing)) || b.forest().route(root, k0) != b0.forest().route(
        root,
        k0,
    )
    &&& out.applied > 0 ==> waste_noted(b, root, items[out.applied - 1].key@)
    &&& out.applied == 0 ==> standing(b0, b)
    &&& batch_counted(b0, b, root, items, out.applied as nat, false)
}

/// Whether splits and `n` walks like that of the first record were counted.
pub open spec fn batch_counted(b0: BufferManager, b: BufferManager, root: BlobGuid, items: Seq<InsertBatchItem>, n: nat, failed: bool) -> bool {
    let f = b.forest();
    let k0 = items[0].key@;
    after_splits(b0, b, after_walks(b0.counters, n, f.hops(root, k0), f.base[f.home(root, k0)].len()), b.counters, failed)
}

/// Whether neither the blobs nor their number changed.
pub open spec fn unmoved(a: BufferManager, b: BufferManager) -> bool {
    b.forest() == a.forest() && b.blobs@.len() == a.blobs@.len()
}

/// Whether the first record of a batch cannot be counted on to be written by
/// itself.
pub open spec fn stuck(b0: BufferManager, root: BlobGuid, item: InsertBatchItem) -> bool {
    let f0 = b0.forest();
    ||| !free_way(b0, root, item.key@)
    ||| clashes(f0, root, item.key@)
    ||| !roomy(f0, root, item.key@, item.value@)
}

/// Whether a batch failed with `e` at record `n`, after those before it were
/// written: it does not meet its condition, conflicts with another record, or
/// is the first and did not get in by itself.
pub open spec fn batch_refused(b0: BufferManager, b: BufferManager, root: BlobGuid, items: Seq<InsertBatchItem>, n: int, e: Error) -> bool {
    &&& 0 <= n < items.len()
    &&& batch_applied(b0, b, root, items, n)
    // The walk of a first record that was tried by itself counts.
    &&& batch_counted(b0, b, root, items, n as nat, true) || (n == 0 && batch_counted(b0, b, root, items, 1, true))
    &&& {
        ||| e is Internal && !in_condition(b0.forest(), root, items, n)
        ||| e is NotYetImplemented && clashes(b.forest(), root, items[n].key@)
        ||| (e is NotYetImplemented || e is Internal || e is Alloc) && n == 0 && stuck(b0, root, items[0]) && gave_up(
            b0,
            b,
            root,
            items[0].key@,
            items[0].value@,
            e,
        )
    }
}

/// Writes records of a batch into the child that a cached route leads the
/// first one to.
fn try_insert_batch_from_route(
    bm: &mut BufferManager,
    root: usize,
    cache: &mut Option<RouteCache>,
    items: &[InsertBatchItem],
) -> (r: Result<Option<InsertBatchOutcome>>)
    requires
        old(bm).wf(),
        root < old(bm).blobs@.len(),
        is_root(*old(bm), old(bm).blobs@[root as int].guid),
        routes_ok(*old(cache), *old(bm), old(bm).blobs@[root as int].guid),
        items_fit(items@),
        items@.len() > 0,
    ensures
        routes_ok(*final(cache), *final(bm), old(bm).blobs@[root as int].guid),
        *final(cache) is Some <==> *old(cache) is Some,
        r matches Ok(None) <==> !(knows_way(*old(cache), old(bm).forest(), old(bm).blobs@[root as int].guid, items@[0].key.bytes@, items@[0].key@)
            && crosses_freely(*old(bm), old(bm).blobs@[root as int].guid, items@[0].key@)),
        match r {
            Ok(None) => *final(bm) == *old(bm),
            Ok(Some(out)) => {
                &&& batch_result(*old(bm), *final(bm), old(bm).blobs@[root as int].guid, items@, Ok(out))
                &&& batch_filled(*old(bm), *final(bm), old(bm).blobs@[root as int].guid, items@, out.applied as int)
            },
            Err(e) => batch_result(*old(bm), *final(bm), old(bm).blobs@[root as int].guid, items@, Err(e)),
        },
{
    let ghost b0 = *bm;
    let ghost g = bm.blobs@[root as int].guid;
    let (child, depth): (usize, usize) = match follow_route(bm, root, cache, items[0].key) {
        Ok(Some(x)) => x,
        _ => {
            return Ok(None);
        },
    };
    proof {
        lemma_map_at(b0.blobs@, child as int);
    }
    if child_is_snapshot_shared(bm, child) {
        return Ok(None);
    }
    let r = insert_batch_in_child(bm, root, child, depth, items);
    proof {
        lemma_routes_kept(*cache, b0, *bm, g);
    }
    match r {
        Ok(out) => Ok(Some(out)),
        Err(e) => Err(e),
    }
}

/// Writes records of a batch into the child that the first one crosses into.
fn insert_batch_in_child(bm: &mut BufferManager, root: usize, child: usize, depth: usize, items: &[InsertBatchItem]) -> (r: Result<
    InsertBatchOutcome,
>)
    requires
        old(bm).wf(),
        root < old(bm).blobs@.len(),
        child < old(bm).blobs@.len(),
        is_root(*old(bm), old(bm).blobs@[root as int].guid),
        items_fit(items@),
        items@.len() > 0,
        old(bm).forest().route(old(bm).blobs@[root as int].guid, items@[0].key@) == (Route::Crossing {
            guid: old(bm).blobs@[child as int].guid,
            depth: depth as int,
        }),
        !is_shared(old(bm).blobs@[child as int].frame, old(bm).fork_barrier),
    ensures
        batch_result(*old(bm), *final(bm), old(bm).blobs@[root as int].guid, items@, r),
        final(bm).wf(),
        versioned(*old(bm), *final(bm)),
        r matches Ok(out) ==> !out.root_dirty && batch_filled(
            *old(bm),
            *final(bm),
            old(bm).blobs@[root as int].guid,
            items@,
            out.applied as int,
        ),
{
    let ghost b0 = *bm;
    let ghost g = bm.blobs@[root as int].guid;
    let ghost n = bm.blobs@[child as int].guid;
    let run: usize = same_child_prefix_run_len(items, depth);
    let part: &[InsertBatchItem] = &items[0..run];
    proof {
        let f = b0.forest();
        lemma_map_at(b0.blobs@, root as int);
        lemma_map_at(b0.blobs@, child as int);
        assert forall|x: Seq<u8>| #[trigger] f.below(g, x) by {
            assert(f.base[g] =~= x.subrange(0, 0));
        }
        let k0 = items@[0].key@;
        assert(f.below(g, k0));
        assert(f.edge_ok(g, k0));
        assert forall|i: int| 0 <= i < part@.len() implies f.route(g, (#[trigger] part@[i]).key@) == f.route(g, k0) && f.below(n, part@[i].key@) by {
            assert(part@[i] == items@[i]);
            if i > 0 {
                let p = items@[0].key.bytes@.take(depth as int);
                let k = items@[i].key@;
                assert(p.is_prefix_of(items@[i].key.bytes@));
                assert(k.take(depth as int) =~= k0.take(depth as int)) by {
                    assert(k.take(depth as int) =~= p);
                    assert(k0.take(depth as int) =~= p);
                }
                crate::route::crossing_depends_on_consumed_bytes(f.blobs[g].tree(), k0, k, 0);
                assert(f.edge_ok(g, k));
            }
        }
        assert(g != n);
        assert forall|i: int| 0 <= i < part@.len() implies (#[trigger] part@[i]).key@.len() <= 65535 && part@[i].value@.len() <= 65535 by {
            assert(part@[i] == items@[i]);
        }
    }
    let r = insert_batch_in_pinned_blob(bm, child, false, part, depth, 2, Ghost(g));
    proof {
        match r {
            Ok(out) => {
                lemma_batch_part(b0, *bm, g, part@, items@, out.applied as int);
                assert(part@[0] == items@[0]);
                assert(batch_recorded(b0, *bm, g, items@, out)) by {
                    reveal(batch_recorded);
                    if out.applied > 0 {
                        assert(part@[out.applied - 1] == items@[out.applied - 1]);
                    }
                }
                if out.applied < part@.len() {
                    assert(part@[out.applied as int] == items@[out.applied as int]);
                }
            },
            Err(e) => {
                let m = choose|m: int| #[trigger] batch_refused(b0, *bm, g, part@, m, e);
                lemma_batch_part(b0, *bm, g, part@, items@, m);
                lemma_condition_part(b0.forest(), g, part@, items@, m);
                assert(batch_refused(b0, *bm, g, items@, m, e));
            },
        }
    }
    r
}

/// A batch applied in part is applied as far.
proof fn lemma_batch_part(b0: BufferManager, b: BufferManager, root: BlobGuid, part: Seq<InsertBatchItem>, items: Seq<InsertBatchItem>, n: int)
    requires
        0 <= n <= part.len() <= items.len(),
        forall|i: int| 0 <= i < part.len() ==> part[i] == items[i],
        batch_applied(b0, b, root, part, n),
    ensures
        batch_applied(b0, b, root, items, n),
{
    assert forall|key: Seq<u8>| #[trigger] b.forest().find(root, key) == batch_find(b0.forest(), root, items, n, key) by {
        lemma_batch_find_part(b0.forest(), root, part, items, n, key);
    }
    assert forall|i: int| 0 <= i < n implies #[trigger] in_condition(b0.forest(), root, items, i) by {
        assert(in_condition(b0.forest(), root, part, i));
        lemma_condition_part(b0.forest(), root, part, items, i);
    }
}

proof fn lemma_condition_part(f: Forest, root: BlobGuid, part: Seq<InsertBatchItem>, items: Seq<InsertBatchItem>, n: int)
    requires
        0 <= n < part.len() <= items.len(),
        forall|i: int| 0 <= i < part.len() ==> part[i] == items[i],
    ensures
        in_condition(f, root, items, n) == in_condition(f, root, part, n),
{
    lemma_batch_find_part(f, root, part, items, n, items[n].key@);
}

proof fn lemma_batch_find_part(f: Forest, root: BlobGuid, part: Seq<InsertBatchItem>, items: Seq<InsertBatchItem>, n: int, key: Seq<u8>)
    requires
        0 <= n <= part.len() <= items.len(),
        forall|i: int| 0 <= i < part.len() ==> part[i] == items[i],
    ensures
        batch_find(f, root, items, n, key) == batch_find(f, root, part, n, key),
    decreases n,
{
    if n > 0 {
        lemma_batch_find_part(f, root, part, items, n - 1, key);
    }
}

/// Writes records of a batch into the root.
fn insert_batch_from_root(bm: &mut BufferManager, root: usize, items: &[InsertBatchItem]) -> (r: Result<InsertBatchOutcome>)
    requires
        old(bm).wf(),
        root < old(bm).blobs@.len(),
        is_root(*old(bm), old(bm).blobs@[root as int].guid),
        items_fit(items@),
        items@.len() > 0,
    ensures
        batch_result(*old(bm), *final(bm), old(bm).blobs@[root as int].guid, items@, r),
        final(bm).wf(),
        versioned(*old(bm), *final(bm)),
        r matches Ok(out) ==> {
            &&& out.root_dirty == (out.applied > 0)
            &&& out.applied < items@.len() ==> stops_at(
                final(bm).forest(),
                old(bm).blobs@[root as int].guid,
                items@[out.applied as int],
            )
        },
{
    let ghost g = bm.blobs@[root as int].guid;
    proof {
        lemma_map_at(bm.blobs@, root as int);
        assert forall|i: int| 0 <= i < items@.len() implies bm.forest().below(g, (#[trigger] items@[i]).key@) by {
            assert(bm.base@[g] =~= items@[i].key@.subrange(0, 0));
        }
    }
    insert_batch_in_pinned_blob(bm, root, true, items, 0, 1, Ghost(g))
}

/// Writes records of a batch into the first blob that the first of them
/// leads to.
fn try_insert_batch_from_first_blob(
    bm: &mut BufferManager,
    root: usize,
    cache: &mut Option<RouteCache>,
    items: &[InsertBatchItem],
) -> (r: Result<InsertBatchOutcome>)
    requires
        old(bm).wf(),
        root < old(bm).blobs@.len(),
        is_root(*old(bm), old(bm).blobs@[root as int].guid),
        routes_ok(*old(cache), *old(bm), old(bm).blobs@[root as int].guid),
        items_fit(items@),
        items@.len() > 0,
    ensures
        batch_result(*old(bm), *final(bm), old(bm).blobs@[root as int].guid, items@, r),
        final(bm).wf(),
        versioned(*old(bm), *final(bm)),
        routes_ok(*final(cache), *final(bm), old(bm).blobs@[root as int].guid),
        *final(cache) is Some <==> *old(cache) is Some,
        r matches Ok(out) ==> batch_filled(*old(bm), *final(bm), old(bm).blobs@[root as int].guid, items@, out.applied as int),
{
    let ghost b0 = *bm;
    let ghost g = bm.blobs@[root as int].guid;
    match try_insert_batch_from_route(bm, root, cache, items) {
        Ok(Some(out)) => {
            return Ok(out);
        },
        Ok(None) => {},
        Err(e) => {
            return Err(e);
        },
    }
    let first: SearchKey = items[0].key;
    proof {
        lemma_map_at(b0.blobs@, root as int);
        assert(b0.forest().has(g));
        assert(b0.forest().below(g, first@)) by {
            assert(b0.base@[g] =~= first@.subrange(0, 0));
        }
        assert(b0.forest().edge_ok(g, first@));
        assert(items@[0].key@.len() <= 65535);
    }
    if let Ok(LookupResult::Crossing(crossing)) = lookup_at(&bm.blobs[root].frame, first, 0) {
        learn_crossing(bm, root, cache, first, crossing.child_guid, crossing.child_depth);
        if let Ok(child) = bm.pin(crossing.child_guid) {
            if cache.is_some() {
                bm.mark_route_resident(child);
            }
            let ghost b1 = *bm;
            proof {
                lemma_remarked(b0, b1);
                lemma_routes_kept(*cache, b0, b1, g);
                lemma_map_at(b1.blobs@, child as int);
            }
            if child_is_snapshot_shared(bm, child) {
                // The blob has to be forked first; the single insert does that.
                proof {
                    lemma_batch_none(b0, b1, g, items@);
                    assert(batch_recorded(b0, b1, g, items@, (InsertBatchOutcome { root_dirty: false, applied: 0 }))) by {
                        reveal(batch_recorded);
                    }
                }
                return Ok(InsertBatchOutcome { root_dirty: false, applied: 0 });
            }
            let r = insert_batch_in_child(bm, root, child, crossing.child_depth, items);
            proof {
                lemma_routes_kept(*cache, b1, *bm, g);
                lemma_versioned_trans(b0, b1, *bm);
                lemma_batch_after(b0, b1, *bm, g, items@, r);
            }
            return r;
        }
    }
    let r = insert_batch_from_root(bm, root, items);
    proof {
        lemma_routes_kept(*cache, b0, *bm, g);
    }
    r
}

/// Nothing written so far.
proof fn lemma_batch_none(b0: BufferManager, b: BufferManager, root: BlobGuid, items: Seq<InsertBatchItem>)
    requires
        b0.wf(),
        remarked(b0, b),
    ensures
        batch_applied(b0, b, root, items, 0),
{
    lemma_remarked(b0, b);
}

/// Marks beside the blobs before a batch change nothing of it.
proof fn lemma_batch_after(
    b0: BufferManager,
    b1: BufferManager,
    b2: BufferManager,
    root: BlobGuid,
    items: Seq<InsertBatchItem>,
    r: Result<InsertBatchOutcome>,
)
    requires
        b0.wf(),
        remarked(b0, b1),
        b1.counters == b0.counters,
        batch_result(b1, b2, root, items, r),
    ensures
        batch_result(b0, b2, root, items, r),
{
    lemma_remarked(b0, b1);
    if let Ok(out) = r {
        if items.len() > 0 {
            assert(batch_recorded(b0, b2, root, items, out)) by {
                reveal(batch_recorded);
                assert forall|i: int| 0 <= i < b0.blobs@.len() implies (#[trigger] b1.blobs@[i]).frame == b0.blobs@[i].frame by {}
            }
        }
    }
    assert forall|n: int| #[trigger] batch_applied(b1, b2, root, items, n) implies batch_applied(b0, b2, root, items, n) by {
        lemma_versioned_trans(b0, b1, b2);
    }
    if let Err(e) = r {
        let n = choose|n: int| #[trigger] batch_refused(b1, b2, root, items, n, e);
        if gave_up(b1, b2, root, items[0].key@, items[0].value@, e) {
            lemma_gave_up_after(b0, b1, b2, root, items[0].key@, items[0].value@, e);
        }
        assert(batch_refused(b0, b2, root, items, n, e));
    }
}

/// Writes records of a batch into the tree at `root`, from the front, as
/// many as one blob takes at once, and at least one if the batch has any.
pub fn insert_multi_batch_conditional(
    bm: &mut BufferManager,
    root: BlobGuid,
    route_cache: &mut Option<RouteCache>,
    items: &[InsertBatchItem],
) -> (r: Result<InsertBatchOutcome>)
    requires
        old(bm).wf(),
        is_root(*old(bm), root),
        routes_ok(*old(route_cache), *old(bm), root),
        forall|i: int| 0 <= i < items@.len() ==> (#[trigger] items@[i]).key@.len() <= usize::MAX,
    ensures
        final(bm).wf(),
        is_root(*final(bm), root),
        routes_ok(*final(route_cache), *final(bm), root),
        *final(route_cache) is Some <==> *old(route_cache) is Some,
        !items_fit(items@) ==> *final(bm) == *old(bm) && (r matches Err(e) && exists|i: int| #[trigger] first_misfit(items@, i, e)),
        items_fit(items@) ==> batch_result(*old(bm), *final(bm), root, items@, r),
        r matches Ok(out) ==> (out.applied > 0 <==> items@.len() > 0),
        r matches Ok(out) ==> out.applied <= 1 || batch_filled(*old(bm), *final(bm), root, items@, out.applied as int),
        r matches Ok(out) ==> (out.applied == 1 ==> batch_filled(*old(bm), *final(bm), root, items@, 1) || goes_alone(*old(bm), root, items@[0])),
{
    if items.len() == 0 {
        let ghost b0 = *bm;
        proof {
            lemma_batch_none(b0, *bm, root, items@);
        }
        return Ok(InsertBatchOutcome { root_dirty: false, applied: 0 });
    }
    let mut i: usize = 0;
    while i < items.len()
        invariant
            i <= items@.len(),
            *bm == *old(bm),
            bm.wf(),
            *route_cache == *old(route_cache),
            is_root(*bm, root),
            routes_ok(*route_cache, *bm, root),
            forall|j: int| 0 <= j < items@.len() ==> (#[trigger] items@[j]).key@.len() <= usize::MAX,
            forall|j: int| 0 <= j < i ==> (#[trigger] items@[j]).key@.len() <= 65535 && items@[j].value@.len() <= 65535,
        decreases items@.len() - i,
    {
        assert(items@[i as int].key@.len() <= usize::MAX);
        assert(items_fit(items@.take(i as int))) by {
            assert forall|j: int| 0 <= j < i implies (#[trigger] items@.take(i as int)[j]).key@.len() <= 65535 && items@.take(i as int)[j].value@.len()
                <= 65535 by {
                assert(items@[j].key@.len() <= 65535);
            }
        }
        if items[i].key.len() > 65535 {
            let e = Error::KeyTooLong { len: items[i].key.len() };
            assert(first_misfit(items@, i as int, e));
            return Err(e);
        }
        if items[i].value.len() > 65535 {
            let e = Error::ValueTooLong { len: items[i].value.len() };
            assert(first_misfit(items@, i as int, e));
            return Err(e);
        }
        i = i + 1;
    }
    insert_multi_batch_conditional_once(bm, root, route_cache, items)
}

/// Writes what one blob takes at once, or the first record by itself.
fn insert_multi_batch_conditional_once(
    bm: &mut BufferManager,
    root: BlobGuid,
    route_cache: &mut Option<RouteCache>,
    items: &[InsertBatchItem],
) -> (r: Result<InsertBatchOutcome>)
    requires
        old(bm).wf(),
        is_root(*old(bm), root),
        routes_ok(*old(route_cache), *old(bm), root),
        items_fit(items@),
        items@.len() > 0,
    ensures
        final(bm).wf(),
        is_root(*final(bm), root),
        routes_ok(*final(route_cache), *final(bm), root),
        *final(route_cache) is Some <==> *old(route_cache) is Some,
        batch_result(*old(bm), *final(bm), root, items@, r),
        r matches Ok(out) ==> out.applied > 0,
        r matches Ok(out) ==> out.applied == 1 || batch_filled(*old(bm), *final(bm), root, items@, out.applied as int),
        r matches Ok(out) ==> (out.applied == 1 ==> batch_filled(*old(bm), *final(bm), root, items@, 1) || goes_alone(*old(bm), root, items@[0])),
{
    let ghost b0 = *bm;
    let at: usize = match bm.pin(root) {
        Ok(i) => i,
        Err(e) => {
            assert(false);
            return Err(e);
        },
    };
    let batched = try_insert_batch_from_first_blob(bm, at, route_cache, items);
    let ghost b1 = *bm;
    proof {
        lemma_routes_kept(None, b0, b1, root);
    }
    match batched {
        Ok(out) => {
            if out.applied != 0 {
                return Ok(out);
            }
        },
        Err(e) => {
            return Err(e);
        },
    }
    let first: InsertBatchItem = items[0];
    proof {
        assert(first == items@[0]);
        assert(items@[0].key@.len() <= 65535 && items@[0].value@.len() <= 65535);
        assert(batch_applied(b0, b1, root, items@, 0));
    }
    let r = insert_multi_conditional(bm, root, route_cache, first.key, first.value, first.seq, first.condition);
    let ghost b2 = *bm;
    proof {
        lemma_batch_one(b0, b1, b2, root, items@, r);
        if let Ok(out) = r {
            lemma_single_recorded(b0, b1, b2, root, items@, out);
        }
    }
    match r {
        Ok(out) => {
            if !out.mutated {
                let e = Error::Internal("a record of the batch does not meet its condition");
                assert(batch_refused(b0, b2, root, items@, 0, e));
                return Err(e);
            }
            Ok(InsertBatchOutcome { root_dirty: out.root_dirty, applied: 1 })
        },
        Err(e) => Err(e),
    }
}

/// What writing the first record by itself leaves on record.
proof fn lemma_single_recorded(b0: BufferManager, b1: BufferManager, b2: BufferManager, root: BlobGuid, items: Seq<InsertBatchItem>, out: InsertOutcome)
    requires
        b0.wf(),
        b1.wf(),
        b2.wf(),
        b0.has(root),
        items.len() > 0,
        batch_recorded(b0, b1, root, items, (InsertBatchOutcome { root_dirty: false, applied: 0 })),
        put_recorded(b1, b2, root, items[0].key@, items[0].seq, true, out),
        put_counted(b1, b2, root, items[0].key@, Ok(out)),
        same_rules(b0, b1),
        b1.blobs@.len() <= b2.blobs@.len(),
        b1.base@[root] == b0.base@[root],
    ensures
        out.mutated ==> batch_recorded(b0, b2, root, items, (InsertBatchOutcome { root_dirty: out.root_dirty, applied: 1 })),
        b1.forest().blobs[root].tree() == b0.forest().blobs[root].tree(),
{
    reveal(batch_recorded);
    reveal(marked);
    reveal_with_fuel(after_walks, 2);
    let k = choose|k: int| #[trigger] is_at(b0.blobs@, k, root);
    lemma_map_at(b0.blobs@, k);
    assert(b1.blobs@[k].guid == root);
    lemma_map_at(b1.blobs@, k);
    assert forall|i: int|
        0 <= i < b2.blobs@.len() && (#[trigger] b2.blobs@[i]).guid != root && (i >= b0.blobs@.len() || b2.blobs@[i].frame.tree()
            != b0.blobs@[i].frame.tree()) implies is_dirty(b2.blobs@[i], items[0].seq) by {
        if i < b0.blobs@.len() {
            assert(b1.blobs@[i].frame.tree() == b0.blobs@[i].frame.tree());
        }
    }
}

/// The first record written by itself.
proof fn lemma_batch_one(b0: BufferManager, b1: BufferManager, b2: BufferManager, root: BlobGuid, items: Seq<InsertBatchItem>, r: Result<InsertOutcome>)
    requires
        b0.wf(),
        is_root(b0, root),
        items.len() > 0,
        batch_applied(b0, b1, root, items, 0),
        put_result(b1, b2, root, items[0].key@, items[0].value@, items[0].seq, items[0].condition, r),
        put_counted(b1, b2, root, items[0].key@, r),
        unmoved(b0, b1) || !roomy(b0.forest(), root, items[0].key@, items[0].value@),
        batch_recorded(b0, b1, root, items, (InsertBatchOutcome { root_dirty: false, applied: 0 })),
    ensures
        match r {
            Ok(out) => {
                &&& batch_applied(b0, b2, root, items, if out.mutated { 1 } else { 0 })
                &&& batch_counted(b0, b2, root, items, 1, false)
                &&& out.mutated == in_condition(b0.forest(), root, items, 0)
            },
            Err(e) => batch_refused(b0, b2, root, items, 0, e),
        },
{
    let f0 = b0.forest();
    let f1 = b1.forest();
    let f2 = b2.forest();
    let k = items[0].key@;
    lemma_versioned_trans(b0, b1, b2);
    assert(standing(b0, b1) && batch_counted(b0, b1, root, items, 0, false)) by {
        reveal(batch_recorded);
    }
    reveal_with_fuel(after_walks, 2);
    if let Err(e) = r {
        assert(gave_up(b0, b2, root, k, items[0].value@, e)) by {
            reveal(gave_up);
            if worn_out(b1, b2) {
                let i = choose|i: int|
                    0 <= i < b2.blobs@.len() && rebuilds(#[trigger] b2.blobs@[i]) >= clamp((if i < b1.blobs@.len() {
                        rebuilds(b1.blobs@[i])
                    } else {
                        0
                    }) + MAX_SPILLOVER_ATTEMPTS);
                if i < b1.blobs@.len() {
                    assert(rebuilds(b1.blobs@[i]) == rebuilds(b0.blobs@[i]));
                }
                assert(worn_out(b0, b2));
            }
        }
    }
    assert(f1.has(root) && f1.base[root] == f0.base[root]);
    assert(grown(f0, f2)) by {
        assert forall|h: BlobGuid| #[trigger] f0.has(h) implies f2.has(h) && f2.base[h] == f0.base[h] by {
            assert(f1.has(h));
        }
        assert forall|h1: BlobGuid, h2: BlobGuid| f0.has(h1) && f0.has(h2) && #[trigger] f0.rank[h1] <= #[trigger] f0.rank[h2] implies f2.rank[h1]
            <= f2.rank[h2] by {
            assert(f1.has(h1) && f1.has(h2));
            assert(f1.rank[h1] <= f1.rank[h2]);
        }
    }
    assert(spares(f0, f2, root, b0.fork_barrier)) by {
        assert forall|h: BlobGuid|
            #[trigger] f0.has(h) && h != root && (f0.rank[h] >= f0.rank[root] || is_shared(f0.blobs[h], b0.fork_barrier)) implies f2.blobs[h]
            == f0.blobs[h] by {
            assert(f1.has(h));
            assert(f1.blobs[h] == f0.blobs[h]);
            if f0.rank[h] >= f0.rank[root] {
                assert(f1.rank[root] <= f1.rank[h]);
            }
        }
    }
    let n: int = match r {
        Ok(out) => if out.mutated { 1 } else { 0 },
        Err(_) => 0,
    };
    assert(f1.find(root, k) == batch_find(f0, root, items, 0, k));
    assert forall|key: Seq<u8>| #[trigger] f2.find(root, key) == batch_find(f0, root, items, n, key) by {
        assert(f1.below(root, key)) by {
            assert(f1.base[root] =~= key.subrange(0, 0));
        }
        assert(f1.find(root, key) == batch_find(f0, root, items, 0, key));
        if n == 0 {
            assert(f2.find(root, key) == f1.find(root, key));
        } else if key != k {
            assert(f2.find(root, key) == f1.find(root, key));
            assert(batch_find(f0, root, items, 1, key) == batch_find(f0, root, items, 0, key));
        }
    }
}

} // verus!
