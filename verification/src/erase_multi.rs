//! Deleting from a tree that spans many blobs.
use vstd::prelude::*;

use crate::art::{lemma_dead_bound, Route};
use crate::cow::{child_is_snapshot_shared, fork_child_if_shared, lemma_blob_at};
use crate::erase::{erase_at_step, lemma_tombstoned_blobs, resolve_new_root_after_erase, tombstoned, EraseSignal, EraseStep};
use crate::errors::Result;
use crate::forest::{all_same, grown, lemma_home_depth, lemma_with_key, only_touched, others_same, Forest};
use crate::frame::BlobHeader;
use crate::insert::blob_at;
use crate::insert_multi::{
    at_home, enters, free_way, further, kept, lemma_kept_after, lemma_kept_remarked, lemma_put_through,
    lemma_hops, lemma_settled_kept, lemma_twin_walk, owns_up, traced, WalkTrace,
};
use crate::key::SearchKey;
use crate::layout::BlobGuid;
use crate::lookup::lookup_at;
use crate::route::{crosses_freely, follow_route, is_root, knows_way, learn_crossing, lemma_routes_kept, routes_ok};
use crate::route_cache::RouteCache;
use crate::store::{
    after_walk_of, is_shared, lemma_map_at, lemma_marked_notes, lemma_marked_rewritten, lemma_marked_sparing,
    lemma_marked_trans, lemma_marked_unchanged, lemma_marked_whole, marked, lemma_remarked, lemma_rewritten,
    lemma_settled_remarked, lemma_versioned_trans, name_free, rewritten, same_rules, settled,
    versioned, BufferManager, CachedBlob,
};
use crate::types::{deletes, BlobCrossing, EraseCondition, EraseOutcome, LookupResult};

verus! {

/// Whether the leaf of `key` is marked deleted in the blob where its walk from
/// `g` ends, and counted, and nothing else of that blob changed.
pub open spec fn deleted_there(f0: Forest, f: Forest, g: BlobGuid, key: Seq<u8>) -> bool {
    let h = f0.home(g, key);
    let x = f0.blobs[h];
    let y = f.blobs[h];
    &&& y.tree() == tombstoned(x.tree(), key, f0.base[h].len() as int)
    &&& y.header.tombstone_leaf_cnt == x.header.tombstone_leaf_cnt + 1
    &&& y.header == (BlobHeader { tombstone_leaf_cnt: y.header.tombstone_leaf_cnt, ..x.header })
}

/// What an erase that starts at blob `g` promises.
pub open spec fn del_result(
    b0: BufferManager,
    b: BufferManager,
    g: BlobGuid,
    key: Seq<u8>,
    condition: EraseCondition,
    r: Result<EraseOutcome>,
) -> bool {
    let f0 = b0.forest();
    let f = b.forest();
    &&& kept(b0, b, g)
    &&& match r {
        Ok(out) => {
            &&& out.mutated == deletes(f0.find(g, key), condition)
            &&& out.mutated ==> others_same(f0, f, key) && f.find(g, key) is NotFound
            &&& !out.mutated ==> all_same(f0, f)
        },
        Err(e) => {
            &&& all_same(f0, f)
            &&& e is Internal
            // No name is left for a copied blob.
            &&& !name_free(b) && b0.fork_barrier != 0
        },
    }
    // Without a snapshot nothing is copied, and what deletes nothing changes
    // nothing.
    &&& b0.fork_barrier == 0 ==> at_home(b0, b, g, key)
    &&& b0.fork_barrier == 0 ==> (r matches Ok(out) ==> (out.mutated ==> deleted_there(f0, f, g, key)))
    &&& b0.fork_barrier == 0 ==> (r matches Ok(out) && (!out.mutated ==> f == f0 && !out.root_dirty))
    &&& free_way(b0, g, key) ==> r is Ok
}

/// What an erase that starts at blob `g` leaves on record: every blob that is
/// new or changed is to be written back, but for the root, whose change is
/// reported; the blob that held the record is noted as one to rebuild.
pub open spec fn del_recorded(b0: BufferManager, b: BufferManager, g: BlobGuid, key: Seq<u8>, seq: u64, is_top: bool, out: EraseOutcome) -> bool {
    &&& marked(b0, b, seq, if is_top {
        Some(g)
    } else {
        None
    })
    &&& out.mutated ==> b.compaction_candidates@.contains(b.forest().home(g, key))
    &&& if is_top {
        owns_up(b0, b, g, key, out.mutated, out.root_dirty)
    } else {
        !out.root_dirty
    }
}

/// Whether an erase that starts at blob `g` counted its walk, if it succeeded,
/// and nothing else.
pub open spec fn del_counted(b0: BufferManager, b: BufferManager, g: BlobGuid, key: Seq<u8>, r: Result<EraseOutcome>) -> bool {
    b.counters == (if r is Ok {
        after_walk_of(b0.counters, b.forest(), g, key)
    } else {
        b0.counters
    })
}

/// How far an erase got in one blob.
pub enum BlobErase {
    Done(bool),
    Crossing(BlobCrossing),
}

impl BufferManager {
    /// Deletes from entry `at`, up to a crossing.
    fn erase_step(&mut self, at: usize, key: SearchKey, depth: usize, condition: EraseCondition) -> (r: Result<BlobErase>)
        requires
            enters(*old(self), at as int, key@, depth as int),
            key@.len() <= usize::MAX,
        ensures
            rewritten(*old(self), *final(self), at as int, final(self).blobs@[at as int].frame),
            ({
                let f0 = old(self).forest();
                let f = final(self).forest();
                let g = old(self).blobs@[at as int].guid;
                let t = old(self).blobs@[at as int].frame.tree();
                let route = f0.route(g, key@);
                &&& final(self).wf()
                &&& versioned(*old(self), *final(self))
                &&& same_rules(*old(self), *final(self))
                &&& match r {
                    Ok(BlobErase::Done(mutated)) => {
                        &&& !(route is Crossing)
                        &&& mutated == deletes(route, condition)
                        &&& !mutated ==> f == f0
                        &&& mutated ==> grown(f0, f) && only_touched(f0, f, g) && others_same(f0, f, key@) && f.find(g, key@) is NotFound
                            && f.route(g, key@) is NotFound
                        &&& mutated ==> ({
                            let x = old(self).blobs@[at as int].frame;
                            let y = final(self).blobs@[at as int].frame;
                            &&& y.tree() == tombstoned(x.tree(), key@, depth as int)
                            &&& y.header.tombstone_leaf_cnt == x.header.tombstone_leaf_cnt + 1
                            &&& y.header == (BlobHeader { tombstone_leaf_cnt: y.header.tombstone_leaf_cnt, ..x.header })
                        })
                    },
                    Ok(BlobErase::Crossing(x)) => {
                        &&& f == f0
                        &&& final(self).blobs@[at as int].frame == old(self).blobs@[at as int].frame
                        &&& route == (Route::Crossing { guid: x.child_guid, depth: x.child_depth as int })
                        &&& blob_at(t, key@, depth as int) == x.parent_slot
                    },
                    Err(_) => false,
                }
            }),
    {
        let ghost before = *self;
        let ghost g = self.blobs@[at as int].guid;
        let ghost f0 = self.blobs@[at as int].frame;
        let ghost a = self.forest();
        let ghost t = f0.tree();
        proof {
            lemma_map_at(self.blobs@, at as int);
            assert(a.has(g));
            assert(f0.wf(a.base[g]));
            assert(key@.take(depth as int) =~= a.base[g]);
            lemma_dead_bound(f0.cells@, t);
        }
        let root: u16 = self.blobs[at].frame.header.root_slot;
        let r = erase_at_step(&mut self.blobs[at].frame, root, key, depth, condition, true, Ghost(t));
        let out: Result<BlobErase> = match r {
            Ok(EraseStep::Done(x)) => {
                let touched: bool = x.mutated || !matches!(x.signal, EraseSignal::Unchanged);
                if touched {
                    match resolve_new_root_after_erase(&mut self.blobs[at].frame, root, x.signal) {
                        Ok(s) => {
                            self.blobs[at].frame.header.root_slot = s;
                            proof {
                                self.blobs@[at as int].frame.lemma_tree(x.tree@);
                            }
                        },
                        Err(e) => {
                            return Err(e);
                        },
                    }
                }
                Ok(BlobErase::Done(x.mutated))
            },
            Ok(EraseStep::Crossing(x)) => Ok(BlobErase::Crossing(x)),
            Err(e) => Err(e),
        };
        let ghost f = self.blobs@[at as int].frame;
        self.touch(at);
        proof {
            assert(self.blobs@ =~= before.blobs@.update(
                at as int,
                CachedBlob { frame: f, version: self.edition, cached: true, ..before.blobs@[at as int] },
            ));
            lemma_rewritten(before, *self, at as int, f);
            match out {
                Ok(BlobErase::Done(mutated)) => {
                    if mutated {
                        lemma_tombstoned_blobs(t, key@, depth as int);
                        assert(f.wf(a.base[g]));
                        lemma_with_key(a, g, f, key@);
                    } else {
                        assert(a.with(g, f).blobs =~= a.blobs);
                    }
                },
                Ok(BlobErase::Crossing(_)) => {
                    assert(a.with(g, f).blobs =~= a.blobs);
                },
                Err(_) => {},
            }
        }
        out
    }
}

/// Deletes from the tree below entry `at`.
#[verifier::rlimit(60)]
pub fn lock_coupled_erase_in_blob(
    bm: &mut BufferManager,
    at: usize,
    is_top_blob: bool,
    key: SearchKey,
    seq: u64,
    condition: EraseCondition,
    depth: usize,
    trace: &mut WalkTrace,
) -> (r: Result<EraseOutcome>)
    requires
        enters(*old(bm), at as int, key@, depth as int),
        key@.len() <= usize::MAX,
    ensures
        del_result(*old(bm), *final(bm), old(bm).blobs@[at as int].guid, key@, condition, r),
        further(*old(trace), *final(trace)),
        r matches Ok(out) ==> del_recorded(*old(bm), *final(bm), old(bm).blobs@[at as int].guid, key@, seq, is_top_blob, out),
        r is Ok ==> traced(*old(trace), *final(trace), final(bm).forest(), old(bm).blobs@[at as int].guid, key@),
        final(bm).counters == old(bm).counters,
    decreases old(bm).forest().hops(old(bm).blobs@[at as int].guid, key@),
{
    let ghost b0 = *bm;
    let ghost g = bm.blobs@[at as int].guid;
    proof {
        lemma_map_at(b0.blobs@, at as int);
        assert(b0.forest().has(g));
        assert(b0.forest().edge_ok(g, key@));
        crate::forest::lemma_reshaped_refl(b0.forest(), g);
        lemma_remarked(b0, b0);
        lemma_hops(b0.forest(), g, key@);
    }
    trace.blob_hops = trace.blob_hops.saturating_add(1);
    if depth > trace.max_cross_blob_depth {
        trace.max_cross_blob_depth = depth;
    }
    let step = bm.erase_step(at, key, depth, condition);
    let ghost b1 = *bm;
    proof {
        lemma_marked_rewritten(b0, b1, at as int, b1.blobs@[at as int].frame, seq);
        lemma_map_at(b1.blobs@, at as int);
    }
    match step {
        Ok(BlobErase::Done(mutated)) => {
            if !mutated {
                proof {
                    lemma_marked_unchanged(b0, b1, at as int, seq);
                }
            }
            if mutated {
                let guid: BlobGuid = bm.blobs[at].guid;
                bm.note_compaction_candidate(guid);
                let ghost b2 = *bm;
                proof {
                    lemma_remarked(b1, b2);
                    lemma_marked_notes(b1, b2, seq, Some(g));
                    lemma_marked_trans(b0, b1, b2, seq, Some(g));
                }
                if !is_top_blob {
                    bm.mark_dirty(at, seq);
                    proof {
                        lemma_marked_whole(b0, b2, *bm, at as int, seq);
                    }
                }
                proof {
                    lemma_remarked(b1, *bm);
                    lemma_versioned_trans(b0, b1, *bm);
                }
            }
            Ok(EraseOutcome { root_dirty: is_top_blob && mutated, mutated })
        },
        Ok(BlobErase::Crossing(crossing)) => {
            proof {
                crate::forest::lemma_reshaped_refl(b0.forest(), g);
                assert(settled(b0, b1, g));
                assert(b1.forest().blobs[g].wf(b1.base@[g]));
                lemma_map_at(b1.blobs@, at as int);
                lemma_blob_at(b1.blobs@[at as int].frame.cells@, b1.blobs@[at as int].frame.tree(), key@, depth as int);
            }
            let child: usize = match bm.pin(crossing.child_guid) {
                Ok(i) => i,
                Err(e) => {
                    assert(false);
                    return Err(e);
                },
            };
            let fork = fork_child_if_shared(bm, at, child, crossing.parent_slot, seq);
            let ghost b2 = *bm;
            proof {
                crate::store::lemma_settled_trans(b0, b1, b2, g);
                lemma_settled_kept(b0, b2, g);
            }
            let (next, forked): (usize, bool) = match fork {
                Ok(Some(i)) => (i, true),
                Ok(None) => (child, false),
                Err(e) => {
                    return Err(e);
                },
            };
            let ghost n = b2.blobs@[next as int].guid;
            proof {
                assert(b2.blobs@[at as int].guid == g);
                lemma_map_at(b2.blobs@, at as int);
                lemma_map_at(b2.blobs@, next as int);
                assert(b2.forest().has(g));
                assert(b2.forest().route(g, key@) == (Route::Crossing { guid: n, depth: crossing.child_depth as int }));
                assert(b2.forest().edge_ok(g, key@));
                if forked {
                    lemma_map_at(b1.blobs@, child as int);
                    lemma_twin_walk(b0.forest(), b2.forest(), g, crossing.child_guid, n, key@);
                }
            }
            let r = lock_coupled_erase_in_blob(bm, next, false, key, seq, condition, crossing.child_depth, trace);
            let ghost b3 = *bm;
            proof {
                if forked {
                    lemma_marked_trans(b0, b1, b2, seq, Some(g));
                }
                lemma_put_through(b0, b2, b3, g, n, key@);
                if let Ok(out) = r {
                    lemma_del_through(b0, b2, b3, g, n, key@, seq, out);
                    lemma_map_at(b3.blobs@, at as int);
                    if forked {
                        assert(b3.forest().route(g, key@)->guid == n);
                    } else {
                        assert(b2.blobs@[at as int].guid == b3.blobs@[at as int].guid);
                        lemma_marked_unchanged(b0, b3, at as int, seq);
                    }
                }
                assert(b3.forest().edge_ok(g, key@));
                assert(b3.forest().hops(g, key@) == 1 + b3.forest().hops(n, key@));
                assert(b3.forest().home(g, key@) == b3.forest().home(n, key@));
                lemma_home_depth(b3.forest(), g, key@);
                if b0.fork_barrier == 0 {
                    assert(b0.forest().home(g, key@) == b0.forest().home(n, key@));
                }
            }
            match r {
                Ok(out) => {
                    if forked && !is_top_blob {
                        proof {
                            assert(b2.blobs@[at as int].guid == b3.blobs@[at as int].guid);
                        }
                        bm.mark_dirty(at, seq);
                        proof {
                            lemma_kept_remarked(b0, b3, *bm, g);
                            lemma_marked_whole(b0, b3, *bm, at as int, seq);
                        }
                    }
                    Ok(EraseOutcome { root_dirty: is_top_blob && forked, mutated: out.mutated })
                },
                Err(e) => Err(e),
            }
        },
        Err(e) => Err(e),
    }
}

/// What an erase that went on from blob `g` into blob `n` leaves on record.
proof fn lemma_del_through(
    b0: BufferManager,
    b2: BufferManager,
    b3: BufferManager,
    g: BlobGuid,
    n: BlobGuid,
    key: Seq<u8>,
    seq: u64,
    out: EraseOutcome,
)
    requires
        b3.wf(),
        marked(b0, b2, seq, Some(g)),
        del_recorded(b2, b3, n, key, seq, false, out),
        b2.forest().below(g, key),
        b2.forest().route(g, key) is Crossing,
        b2.forest().route(g, key)->guid == n,
        b3.has(g),
        b3.forest().blobs[g] == b2.forest().blobs[g],
        b3.forest().base[g] == b2.forest().base[g],
    ensures
        marked(b0, b3, seq, Some(g)),
        out.mutated ==> b3.compaction_candidates@.contains(b3.forest().home(g, key)),
        b3.forest().route(g, key) == b2.forest().route(g, key),
{
    let f3 = b3.forest();
    lemma_marked_sparing(b2, b3, seq, g);
    lemma_marked_trans(b0, b2, b3, seq, Some(g));
    assert(f3.edge_ok(g, key));
    assert(f3.home(g, key) == f3.home(n, key));
}

/// Deletes below the child of entry `root` that `key` crosses into.
fn erase_from_child(
    bm: &mut BufferManager,
    root: usize,
    child: usize,
    child_depth: usize,
    key: SearchKey,
    seq: u64,
    condition: EraseCondition,
) -> (r: Result<EraseOutcome>)
    requires
        enters(*old(bm), root as int, key@, 0),
        child < old(bm).blobs@.len(),
        old(bm).forest().route(old(bm).blobs@[root as int].guid, key@) == (Route::Crossing {
            guid: old(bm).blobs@[child as int].guid,
            depth: child_depth as int,
        }),
        !is_shared(old(bm).blobs@[child as int].frame, old(bm).fork_barrier),
        key@.len() <= usize::MAX,
    ensures
        del_result(*old(bm), *final(bm), old(bm).blobs@[root as int].guid, key@, condition, r),
        r matches Ok(out) ==> del_recorded(*old(bm), *final(bm), old(bm).blobs@[root as int].guid, key@, seq, true, out),
        final(bm).forest().blobs[old(bm).blobs@[root as int].guid] == old(bm).forest().blobs[old(bm).blobs@[root as int].guid],
        del_counted(*old(bm), *final(bm), old(bm).blobs@[root as int].guid, key@, r),
{
    let ghost b0 = *bm;
    let ghost g = bm.blobs@[root as int].guid;
    let ghost n = bm.blobs@[child as int].guid;
    proof {
        lemma_map_at(b0.blobs@, root as int);
        lemma_map_at(b0.blobs@, child as int);
        assert(b0.forest().has(g));
        assert(b0.forest().edge_ok(g, key@));
        lemma_settled_remarked(b0, b0, g);
    }
    let mut trace = WalkTrace { blob_hops: 1, max_cross_blob_depth: 0 };
    let r = lock_coupled_erase_in_blob(bm, child, false, key, seq, condition, child_depth, &mut trace);
    let ghost b1 = *bm;
    proof {
        lemma_put_through(b0, b0, b1, g, n, key@);
        lemma_marked_notes(b0, b0, seq, Some(g));
        if let Ok(out) = r {
            lemma_del_through(b0, b0, b1, g, n, key@, seq, out);
        }
        assert(b1.forest().edge_ok(g, key@));
        assert(b1.forest().hops(g, key@) == 1 + b1.forest().hops(n, key@));
        assert(b1.forest().home(g, key@) == b1.forest().home(n, key@));
        assert(b0.forest().home(g, key@) == b0.forest().home(n, key@));
    }
    if r.is_ok() {
        bm.note_walker_blob_hops(trace.blob_hops, trace.max_cross_blob_depth);
    }
    proof {
        lemma_kept_remarked(b0, b1, *bm, g);
        if r is Ok {
            lemma_marked_notes(b1, *bm, seq, Some(g));
            lemma_marked_trans(b0, b1, *bm, seq, Some(g));
        }
    }
    r
}

/// Deletes over a cached route, if there is one that holds and leads to a
/// blob that no snapshot may see.
fn try_erase_from_route(
    bm: &mut BufferManager,
    root: usize,
    cache: &mut Option<RouteCache>,
    key: SearchKey,
    seq: u64,
    condition: EraseCondition,
) -> (r: Result<Option<EraseOutcome>>)
    requires
        enters(*old(bm), root as int, key@, 0),
        is_root(*old(bm), old(bm).blobs@[root as int].guid),
        routes_ok(*old(cache), *old(bm), old(bm).blobs@[root as int].guid),
        key@.len() <= usize::MAX,
    ensures
        match r {
            Ok(None) => *final(bm) == *old(bm),
            Ok(Some(out)) => del_result(
                *old(bm),
                *final(bm),
                old(bm).blobs@[root as int].guid,
                key@,
                condition,
                Ok(out),
            ) && del_recorded(*old(bm), *final(bm), old(bm).blobs@[root as int].guid, key@, seq, true, out) && del_counted(
                *old(bm),
                *final(bm),
                old(bm).blobs@[root as int].guid,
                key@,
                Ok(out),
            ),
            Err(e) => del_result(*old(bm), *final(bm), old(bm).blobs@[root as int].guid, key@, condition, Err(e)) && final(bm).counters
                == old(bm).counters,
        },
        routes_ok(*final(cache), *final(bm), old(bm).blobs@[root as int].guid),
        *final(cache) is Some <==> *old(cache) is Some,
        r matches Ok(None) <==> !(knows_way(*old(cache), old(bm).forest(), old(bm).blobs@[root as int].guid, key.bytes@, key@)
            && crosses_freely(*old(bm), old(bm).blobs@[root as int].guid, key@)),
{
    let ghost b0 = *bm;
    let ghost g = bm.blobs@[root as int].guid;
    match follow_route(bm, root, cache, key) {
        Ok(Some((child, depth))) => {
            proof {
                lemma_map_at(b0.blobs@, child as int);
            }
            if child_is_snapshot_shared(bm, child) {
                return Ok(None);
            }
            let r = erase_from_child(bm, root, child, depth, key, seq, condition);
            proof {
                lemma_routes_kept(*cache, b0, *bm, g);
            }
            match r {
                Ok(out) => Ok(Some(out)),
                Err(e) => Err(e),
            }
        },
        _ => Ok(None),
    }
}

/// Deletes the key's record from the tree at `root`.
pub fn erase_multi(bm: &mut BufferManager, root: BlobGuid, route_cache: &mut Option<RouteCache>, key: SearchKey, seq: u64) -> (r: Result<
    EraseOutcome,
>)
    requires
        old(bm).wf(),
        is_root(*old(bm), root),
        routes_ok(*old(route_cache), *old(bm), root),
        key@.len() <= usize::MAX,
    ensures
        del_result(*old(bm), *final(bm), root, key@, EraseCondition::Always, r),
        r matches Ok(out) ==> del_recorded(*old(bm), *final(bm), root, key@, seq, true, out),
        del_counted(*old(bm), *final(bm), root, key@, r),
        is_root(*final(bm), root),
        routes_ok(*final(route_cache), *final(bm), root),
        *final(route_cache) is Some <==> *old(route_cache) is Some,
{
    erase_multi_conditional(bm, root, route_cache, key, seq, EraseCondition::Always)
}

/// Deletes the key's record from the tree at `root` if it is as `condition`
/// asks.
pub fn erase_multi_conditional(
    bm: &mut BufferManager,
    root: BlobGuid,
    route_cache: &mut Option<RouteCache>,
    key: SearchKey,
    seq: u64,
    condition: EraseCondition,
) -> (r: Result<EraseOutcome>)
    requires
        old(bm).wf(),
        is_root(*old(bm), root),
        routes_ok(*old(route_cache), *old(bm), root),
        key@.len() <= usize::MAX,
    ensures
        del_result(*old(bm), *final(bm), root, key@, condition, r),
        r matches Ok(out) ==> del_recorded(*old(bm), *final(bm), root, key@, seq, true, out),
        del_counted(*old(bm), *final(bm), root, key@, r),
        is_root(*final(bm), root),
        routes_ok(*final(route_cache), *final(bm), root),
        *final(route_cache) is Some <==> *old(route_cache) is Some,
{
    let ghost b0 = *bm;
    let at: usize = match bm.pin(root) {
        Ok(i) => i,
        Err(e) => {
            assert(false);
            return Err(e);
        },
    };
    proof {
        assert(b0.base@[root] =~= key@.subrange(0, 0));
        assert(enters(b0, at as int, key@, 0));
    }
    match try_erase_from_route(bm, at, route_cache, key, seq, condition) {
        Ok(Some(out)) => {
            proof {
                lemma_routes_kept(None, b0, *bm, root);
            }
            return Ok(out);
        },
        Ok(None) => {},
        Err(e) => {
            proof {
                lemma_routes_kept(None, b0, *bm, root);
            }
            return Err(e);
        },
    }
    proof {
        assert(b0.forest().has(root));
        assert(b0.forest().edge_ok(root, key@));
    }
    match lookup_at(&bm.blobs[at].frame, key, 0) {
        Ok(LookupResult::Crossing(crossing)) => {
            if let Ok(child) = bm.pin(crossing.child_guid) {
                // A blob that a snapshot may see has to be forked under the
                // root, which the walk below does.
                if !child_is_snapshot_shared(bm, child) {
                    learn_crossing(bm, at, route_cache, key, crossing.child_guid, crossing.child_depth);
                    if route_cache.is_some() {
                        bm.mark_route_resident(child);
                    }
                    let ghost b1 = *bm;
                    proof {
                        lemma_remarked(b0, b1);
                        lemma_routes_kept(*route_cache, b0, b1, root);
                        lemma_map_at(b1.blobs@, child as int);
                        assert(b1.blobs@[at as int].guid == root);
                    }
                    let r = erase_from_child(bm, at, child, crossing.child_depth, key, seq, condition);
                    proof {
                        lemma_routes_kept(*route_cache, b1, *bm, root);
                        lemma_kept_after(b0, b1, *bm, root);
                        if r is Ok {
                            assert(marked(b0, b1, seq, Some(root))) by {
                                reveal(marked);
                            }
                            lemma_marked_trans(b0, b1, *bm, seq, Some(root));
                        }
                    }
                    return r;
                }
            }
        },
        Ok(LookupResult::NotFound) => {
            bm.note_walker_blob_hops(1, 0);
            proof {
                lemma_remarked(b0, *bm);
                lemma_settled_remarked(b0, *bm, root);
                lemma_settled_kept(b0, *bm, root);
                lemma_routes_kept(*route_cache, b0, *bm, root);
                lemma_marked_notes(b0, *bm, seq, Some(root));
            }
            return Ok(EraseOutcome { root_dirty: false, mutated: false });
        },
        _ => {},
    }
    let mut trace = WalkTrace { blob_hops: 0, max_cross_blob_depth: 0 };
    let r = lock_coupled_erase_in_blob(bm, at, true, key, seq, condition, 0, &mut trace);
    let ghost b1 = *bm;
    if r.is_ok() {
        bm.note_walker_blob_hops(trace.blob_hops, trace.max_cross_blob_depth);
    }
    proof {
        lemma_kept_remarked(b0, b1, *bm, root);
        lemma_routes_kept(*route_cache, b0, *bm, root);
        if r is Ok {
            lemma_marked_notes(b1, *bm, seq, Some(root));
            lemma_marked_trans(b0, b1, *bm, seq, Some(root));
        }
    }
    r
}

} // verus!
