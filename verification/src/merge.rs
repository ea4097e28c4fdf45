//! Folding small child blobs back into their parent.
//!
//! Splits leave blob nodes behind. Once deletes and rebuilds have shrunk a
//! child, its subtree is copied back in place of the blob node and the child
//! is handed over for deletion.
use vstd::prelude::*;

use crate::art::{at, blob_nodes, blob_nodes_below, dead, keyed, lemma_blob_nodes_skip, lemma_blob_nodes_update, owns, rep, sep, slot_of, step, Art, Route};
use crate::errors::{Error, Result};
use crate::forest::{reshaped, Forest};
use crate::frame::{room_end, BlobFrame, BlobHeader};
use crate::insert::{copy_bytes, lemma_chained_blobs, lemma_keeps_trans, lemma_ok_after_set, lemma_rep_root};
use crate::key::matches_at;
use crate::layout::{BlobGuid, Node, Prefix, BLOB_MAX_INLINE, BLOB_NODE_SIZE, DATA_AREA_START, MAX_SLOTS, PAGE_SIZE};
use crate::migrate::{
    budget, clamp, clone_subtree, lemma_budget_blobs, lemma_budget_copied, lemma_budget_sign, lemma_shape_blob_nodes, same_shape, takes,
};
use crate::node::{
    cursor_byte, inner_ok, inner_update_child, kid, kid_update, next_inner_child_from, no_kid_from,
};
use crate::store::{
    copy_frame, distinct, is_shared, lemma_map_at, lemma_rewritten, lemma_settled_remarked,
    lemma_settled_trans, settled, BufferManager, CachedBlob,
};
use crate::cow::child_is_snapshot_shared;
use crate::writers::{behind, chain_cost, chained, edits, keeps, lemma_replug_inner, lemma_replug_prefix, with_kid, write_prefix_chain};

verus! {

/// Bytes of a parent that a fold leaves free.
pub const MERGE_RESERVE: u32 = 4096;

/// Sequence of a change that no user operation asked for.
pub const STRUCTURAL_SEQ: u64 = 0;

/// What a pass over a parent's blob nodes did.
#[derive(Debug, Clone, Copy, PartialEq, Eq, Structural)]
pub struct MergeStats {
    /// Children folded back.
    pub merged: u32,
    /// Blob nodes looked at.
    pub inspected: u32,
}

/// Whether child `c` can be folded into parent `p`: it fits with room to
/// spare, leads into no other blob, holds no deleted leaves and is seen by no
/// snapshot.
pub open spec fn foldable(p: BlobFrame, c: BlobFrame, barrier: u64) -> bool {
    let free = PAGE_SIZE - p.header.space_used - MERGE_RESERVE;
    let used = c.header.space_used - DATA_AREA_START;
    &&& (if used > 0 { used } else { 0 }) <= (if free > 0 { free } else { 0 })
    &&& p.header.num_slots + c.header.num_slots <= MAX_SLOTS
    &&& c.header.num_ext_blobs == 0
    &&& c.header.tombstone_leaf_cnt == 0
    &&& !is_shared(c, barrier)
}

/// The child that blob node `slot` of entry `at` leads to.
pub open spec fn child_named(bm: BufferManager, at_: int, slot: u16) -> Option<BlobGuid> {
    match at(bm.blobs@[at_].frame.cells@, slot as int) {
        Some(Node::Blob(b)) => Some(b.child_blob_guid),
        _ => None,
    }
}

/// Whether the child of blob node `slot` of entry `parent` can be folded
/// back.
pub fn is_mergeable(bm: &BufferManager, parent: usize, slot: u16) -> (r: Result<bool>)
    requires
        distinct(bm.blobs@),
        parent < bm.blobs@.len(),
        bm.blobs@[parent as int].frame.header.num_slots <= MAX_SLOTS,
        forall|i: int| 0 <= i < bm.blobs@.len() ==> (#[trigger] bm.blobs@[i]).frame.header.num_slots <= MAX_SLOTS,
    ensures
        match child_named(*bm, parent as int, slot) {
            Some(c) => if bm.has(c) {
                r == Ok::<bool, Error>(foldable(bm.blobs@[parent as int].frame, bm.forest().blobs[c], bm.fork_barrier))
            } else {
                r == Err::<bool, Error>(Error::BlobNotFound { guid: c })
            },
            None => r matches Err(e) && e is NodeCorrupt,
        },
{
    let guid: BlobGuid = match bm.blobs[parent].frame.node_at(slot) {
        Some(Node::Blob(b)) => b.child_blob_guid,
        _ => {
            return Err(Error::NodeCorrupt { context: "is_mergeable: not a blob node" });
        },
    };
    let child: usize = match bm.pin(guid) {
        Ok(i) => i,
        Err(e) => {
            return Err(e);
        },
    };
    if child_is_snapshot_shared(bm, child) {
        return Ok(false);
    }
    let p: &BlobHeader = bm.blobs[parent].frame.header();
    let c: &BlobHeader = bm.blobs[child].frame.header();
    assert(bm.blobs@[child as int].frame.header.num_slots <= MAX_SLOTS);
    let remaining: u32 = PAGE_SIZE.saturating_sub(p.space_used).saturating_sub(MERGE_RESERVE);
    let child_bytes: u32 = c.space_used.saturating_sub(DATA_AREA_START);
    let space_ok: bool = child_bytes <= remaining;
    let slots_ok: bool = p.num_slots + c.num_slots <= MAX_SLOTS;
    Ok(space_ok && slots_ok && c.num_ext_blobs == 0 && c.tombstone_leaf_cnt == 0)
}

/// Whether `u` is a copy of tree `c` behind `bytes`.
pub open spec fn inlines(c: Art, bytes: Seq<u8>, u: Art) -> bool {
    exists|k: Art| #[trigger] chained(u, bytes, k) && same_shape(c, k)
}

/// What copying child `c` behind `bytes` into a parent gives.
pub open spec fn folded(f0: BlobFrame, f: BlobFrame, c: Art, bytes: Seq<u8>, s: u16, u: Art) -> bool {
    &&& f.ok()
    &&& f.arena_end == f0.arena_end
    &&& keeps(f0.cells@, f.cells@)
    &&& slot_of(u) == s
    &&& rep(f.cells@, u)
    &&& sep(u)
    &&& dead(u) == dead(c)
    &&& inlines(c, bytes, u)
    &&& forall|x: int| #[trigger] owns(u, x) ==> at(f0.cells@, x) is None
    &&& forall|key: Seq<u8>, d: int| 0 <= d <= key.len() ==> #[trigger] step(u, key, d) == behind(c, bytes, key, d)
    &&& forall|path: Seq<u8>| keyed(c, path + bytes) ==> #[trigger] keyed(u, path)
}

/// Whether headers differ only in what a fold moves.
pub open spec fn same_identity(f0: BlobFrame, f: BlobFrame) -> bool {
    f.header == (BlobHeader {
        space_used: f.header.space_used,
        num_slots: f.header.num_slots,
        num_ext_blobs: f.header.num_ext_blobs,
        dead_bytes: f.header.dead_bytes,
        routing_len: f.header.routing_len,
        ..f0.header
    })
}

/// Whether a parent has room for a copy of tree `c` behind `bytes`.
pub open spec fn takes_in(f: BlobFrame, cells: Seq<Option<Node>>, c: Art, bytes: Seq<u8>) -> bool {
    let b = budget(cells, c, false);
    let k = chain_cost(bytes.len() as int);
    &&& takes(f, 0, b, false)
    &&& bytes.len() > 0 ==> {
        &&& f.header.space_used + b.routing + b.leaf + k.bytes <= room_end(f.arena_end as int, false)
        &&& f.header.num_slots + b.nodes + k.nodes <= MAX_SLOTS
    }
}

/// A child that can be folded fits: what its tree takes is no more than what
/// the child has used, and the prefix in front of it goes into the bytes that
/// are kept free. Only a slot for that prefix may be missing.
pub proof fn foldable_child_fits(p: BlobFrame, c: BlobFrame, barrier: u64, bytes: Seq<u8>)
    requires
        p.arena_end == PAGE_SIZE,
        c.sound(),
        foldable(p, c, barrier),
        bytes.len() <= BLOB_MAX_INLINE,
        bytes.len() > 0 ==> p.header.num_slots + c.header.num_slots < MAX_SLOTS,
    ensures
        takes_in(p, c.cells@, c.tree(), bytes),
{
    crate::extent::tree_fits_used_space(c);
    lemma_some_bytes(c.cells@, c.tree());
}

/// A tree takes some bytes.
proof fn lemma_some_bytes(cells: Seq<Option<Node>>, t: Art)
    requires
        rep(cells, t),
    ensures
        budget(cells, t, false).routing + budget(cells, t, false).leaf > 0,
{
    lemma_budget_sign(cells, t, false);
    lemma_rep_root(cells, t);
    crate::extent::lemma_size_positive(at(cells, slot_of(t))->0);
    match t {
        Art::Prefix { child, .. } => lemma_budget_sign(cells, *child, false),
        Art::Inner { kids, .. } => crate::migrate::lemma_budget_kids_sign(cells, t, kids.len() as int, false),
        _ => {},
    }
}

/// Whether `f` has grown from `f0` by a copy of tree `c` behind `bytes`.
pub open spec fn grown_by(f0: BlobFrame, f: BlobFrame, cells: Seq<Option<Node>>, c: Art, bytes: Seq<u8>) -> bool {
    let b = budget(cells, c, false);
    let k = chain_cost(bytes.len() as int);
    let chained = bytes.len() > 0;
    &&& f.header.space_used == f0.header.space_used + b.routing + b.leaf + (if chained { k.bytes } else { 0 })
    &&& f.header.num_slots == f0.header.num_slots + b.nodes + (if chained { k.nodes } else { 0 })
}

/// `n - 1`, but not below zero.
pub open spec fn one_less(n: int) -> int {
    if n > 0 {
        n - 1
    } else {
        0
    }
}

/// Copies the tree of `child` behind `bytes` into `frame`.
fn inline_child(frame: &mut BlobFrame, child: &BlobFrame, bytes: &[u8]) -> (r: Result<(u16, Ghost<Art>)>)
    requires
        old(frame).ok(),
        crate::frame::rooted(child.cells@, child.header.root_slot),
        sep(child.tree()),
    ensures
        match r {
            Ok((s, g)) => {
                &&& folded(*old(frame), *final(frame), child.tree(), bytes@, s, g@)
                &&& grown_by(*old(frame), *final(frame), child.cells@, child.tree(), bytes@)
                &&& final(frame).header.num_ext_blobs == clamp((old(frame).header.num_ext_blobs + budget(child.cells@, child.tree(), false).blobs) as int)
            },
            Err(e) => {
                &&& e is Alloc
                &&& final(frame).ok() && keeps(old(frame).cells@, final(frame).cells@) && final(frame).arena_end == old(frame).arena_end
                &&& final(frame).header.num_ext_blobs >= old(frame).header.num_ext_blobs
                &&& no_roomier(*old(frame), *final(frame))
                &&& !takes_in(*old(frame), child.cells@, child.tree(), bytes@)
            },
        },
        same_identity(*old(frame), *final(frame)),
        final(frame).header.dead_bytes == old(frame).header.dead_bytes,
        final(frame).header.routing_len == old(frame).header.routing_len,
{
    let ghost f0 = *frame;
    let ghost t = child.tree();
    proof {
        lemma_budget_sign(child.cells@, t, false);
    }
    let mut cursor: u32 = 0;
    match clone_subtree(child, frame, child.header.root_slot, false, false, &mut cursor, Ghost(t)) {
        Ok(Some((s, g))) => {
            let ghost f1 = *frame;
            let ghost k = g@;
            if bytes.len() == 0 {
                proof {
                    assert forall|key: Seq<u8>, d: int| 0 <= d <= key.len() implies #[trigger] step(k, key, d) == behind(t, bytes@, key, d) by {
                        assert(key.subrange(d, d) =~= bytes@);
                    }
                    assert forall|path: Seq<u8>| keyed(t, path + bytes@) implies #[trigger] keyed(k, path) by {
                        assert(path + bytes@ =~= path);
                    }
                    assert(chained(k, bytes@, k));
                }
                return Ok((s, g));
            }
            match write_prefix_chain(frame, bytes, s, Ghost(k)) {
                Ok((s2, g2)) => {
                    proof {
                        let u = g2@;
                        lemma_keeps_trans(f0.cells@, f1.cells@, frame.cells@);
                        assert forall|x: int| #[trigger] owns(u, x) implies at(f0.cells@, x) is None by {
                            if !owns(k, x) {
                                assert(at(f1.cells@, x) is None);
                                if at(f0.cells@, x) is Some {
                                    assert(at(f1.cells@, x) == at(f0.cells@, x));
                                }
                            }
                        }
                        assert forall|key: Seq<u8>, d: int| 0 <= d <= key.len() implies #[trigger] step(u, key, d) == behind(t, bytes@, key, d) by {
                            assert(step(u, key, d) == behind(k, bytes@, key, d));
                            assert(step(k, key, d + bytes@.len()) == step(t, key, d + bytes@.len()));
                        }
                        assert forall|path: Seq<u8>| keyed(t, path + bytes@) implies #[trigger] keyed(u, path) by {
                            assert(keyed(k, path + bytes@));
                        }
                    }
                    Ok((s2, g2))
                },
                Err(e) => {
                    proof {
                        lemma_keeps_trans(f0.cells@, f1.cells@, frame.cells@);
                    }
                    Err(e)
                },
            }
        },
        Ok(None) => Err(Error::NodeCorrupt { context: "inline_child: nothing copied" }),
        Err(e) => Err(e),
    }
}

/// Whether `b` is `b0` but for the image of entry `i` and what was handed
/// over for deletion.
pub open spec fn pending(b0: BufferManager, b: BufferManager, i: int) -> bool {
    &&& 0 <= i < b0.blobs@.len() == b.blobs@.len()
    &&& forall|j: int| 0 <= j < b.blobs@.len() && j != i ==> b.blobs@[j] == b0.blobs@[j]
    &&& b.blobs@[i] == (CachedBlob { frame: b.blobs@[i].frame, ..b0.blobs@[i] })
    &&& b == (BufferManager { blobs: b.blobs, deletes: b.deletes, ..b0 })
    &&& b0.deletes@.len() <= b.deletes@.len()
}

/// Names stay with their entries while one image changes.
proof fn lemma_pending(b0: BufferManager, b: BufferManager, i: int)
    requires
        distinct(b0.blobs@),
        pending(b0, b, i),
    ensures
        distinct(b.blobs@),
        forall|g: BlobGuid| #[trigger] b.has(g) <==> b0.has(g),
        forall|g: BlobGuid| #[trigger] b0.has(g) && g != b0.blobs@[i].guid ==> b.forest().blobs[g] == b0.forest().blobs[g],
{
    crate::store::lemma_map_update(b0.blobs@, i, b.blobs@[i]);
    lemma_map_at(b0.blobs@, i);
    assert(b.blobs@ =~= b0.blobs@.update(i, b.blobs@[i]));
}

/// A blob node of a tree is counted.
proof fn lemma_owned_blob(c: Seq<Option<Node>>, t: Art, s: int)
    requires
        rep(c, t),
        owns(t, s),
        at(c, s) matches Some(Node::Blob(_)),
    ensures
        blob_nodes(t) > 0,
    decreases t,
{
    match t {
        Art::Prefix { child, .. } => lemma_owned_blob(c, *child, s),
        Art::Inner { kids, .. } => {
            let b = choose|b: int| 0 <= b < kids.len() && (#[trigger] kids[b]) is Some && owns(kids[b]->0, s);
            lemma_owned_blob(c, kids[b]->0, s);
            lemma_blob_nodes_update(kids, b, None, kids.len() as int);
        },
        _ => {},
    }
}

/// Copies the child of blob node `slot` of entry `parent` back into the
/// parent and hands the child over for deletion. The caller leads the
/// reference to the blob node to the returned node instead.
pub fn merge_blob(bm: &mut BufferManager, parent: usize, slot: u16, seq: u64) -> (r: Result<(u16, Ghost<Art>)>)
    requires
        distinct(old(bm).blobs@),
        parent < old(bm).blobs@.len(),
        old(bm).blobs@[parent as int].frame.ok(),
        child_named(*old(bm), parent as int, slot) matches Some(c) && old(bm).has(c) && old(bm).forest().blobs[c].ok() && crate::frame::rooted(
            old(bm).forest().blobs[c].cells@,
            old(bm).forest().blobs[c].header.root_slot,
        ) && sep(old(bm).forest().blobs[c].tree()),
    ensures
        pending(*old(bm), *final(bm), parent as int),
        same_identity(old(bm).blobs@[parent as int].frame, final(bm).blobs@[parent as int].frame),
        ({
            let f0 = old(bm).blobs@[parent as int].frame;
            let f = final(bm).blobs@[parent as int].frame;
            let c = child_named(*old(bm), parent as int, slot)->0;
            match r {
                Ok((s, g)) => {
                    &&& folded(f0, f, old(bm).forest().blobs[c].tree(), at(f0.cells@, slot as int)->0->Blob_0.bytes@, s, g@)
                    &&& grown_by(
                        f0,
                        f,
                        old(bm).forest().blobs[c].cells@,
                        old(bm).forest().blobs[c].tree(),
                        at(f0.cells@, slot as int)->0->Blob_0.bytes@,
                    )
                    &&& final(bm).deletes@ == old(bm).deletes@.push((c, seq))
                    &&& f.header.routing_len == 0
                    &&& f.header.dead_bytes == clamp(f0.header.dead_bytes + BLOB_NODE_SIZE)
                    &&& f.header.num_ext_blobs == one_less(clamp((f0.header.num_ext_blobs + blob_nodes(old(bm).forest().blobs[c].tree())) as int))
                    // One blob node less, if the child could be folded.
                    &&& old(bm).wf() && owns(f0.tree(), slot as int) && foldable(f0, old(bm).forest().blobs[c], old(bm).fork_barrier)
                        ==> f.header.num_ext_blobs == f0.header.num_ext_blobs - 1
                },
                Err(e) => {
                    &&& e is Alloc
                    &&& f.ok() && keeps(f0.cells@, f.cells@) && f.arena_end == f0.arena_end
                    &&& f.header.num_ext_blobs >= f0.header.num_ext_blobs
                    &&& no_roomier(f0, f)
                    &&& f.header.routing_len == f0.header.routing_len
                    &&& f.header.dead_bytes == f0.header.dead_bytes
                    &&& final(bm).deletes@ == old(bm).deletes@
                    &&& !takes_in(
                        f0,
                        old(bm).forest().blobs[c].cells@,
                        old(bm).forest().blobs[c].tree(),
                        at(f0.cells@, slot as int)->0->Blob_0.bytes@,
                    )
                    // A child that can be folded is, but for want of a slot
                    // for the prefix in front of it.
                    &&& f0.arena_end == PAGE_SIZE && old(bm).forest().blobs[c].sound() && foldable(
                        f0,
                        old(bm).forest().blobs[c],
                        old(bm).fork_barrier,
                    ) ==> {
                        ||| at(f0.cells@, slot as int)->0->Blob_0.bytes@.len() > BLOB_MAX_INLINE
                        ||| at(f0.cells@, slot as int)->0->Blob_0.bytes@.len() > 0 && f0.header.num_slots
                            + old(bm).forest().blobs[c].header.num_slots == MAX_SLOTS
                    }
                },
            }
        }),
{
    let ghost b0 = *bm;
    let ghost f0 = bm.blobs@[parent as int].frame;
    let (bytes, guid): (Vec<u8>, BlobGuid) = match bm.blobs[parent].frame.node_at(slot) {
        Some(Node::Blob(b)) => (copy_bytes(&b.bytes), b.child_blob_guid),
        _ => {
            assert(false);
            return Err(Error::NodeCorrupt { context: "merge_blob: not a blob node" });
        },
    };
    let child: usize = match bm.pin(guid) {
        Ok(i) => i,
        Err(e) => {
            return Err(e);
        },
    };
    let copy: BlobFrame = copy_frame(&bm.blobs[child].frame, guid, 0);
    proof {
        let cf = bm.blobs@[child as int].frame;
        crate::store::lemma_rep_copied(cf.cells@, copy.cells@, cf.tree());
        copy.lemma_tree(cf.tree());
        lemma_budget_copied(cf.cells@, copy.cells@, cf.tree());
    }
    let r = inline_child(&mut bm.blobs[parent].frame, &copy, &bytes);
    let ghost b1 = *bm;
    match r {
        Ok((s, g)) => {
            let ghost f1 = bm.blobs@[parent as int].frame;
            assert(at(f0.cells@, slot as int) is Some);
            assert(at(f1.cells@, slot as int) == at(f0.cells@, slot as int));
            bm.blobs[parent].frame.note_abandoned(slot);
            let ext: u32 = bm.blobs[parent].frame.header.num_ext_blobs;
            bm.blobs[parent].frame.header.num_ext_blobs = ext.saturating_sub(1);
            // The copy went behind the leaves of a routed layout.
            bm.blobs[parent].frame.header.routing_len = 0;
            bm.mark_for_delete(guid, seq);
            proof {
                let cf = b0.blobs@[child as int].frame;
                lemma_budget_blobs(cf.cells@, cf.tree(), false);
                if b0.wf() && owns(f0.tree(), slot as int) {
                    lemma_map_at(b0.blobs@, parent as int);
                    lemma_map_at(b0.blobs@, child as int);
                    assert(b0.forest().has(b0.blobs@[parent as int].guid) && b0.forest().has(guid));
                    assert(f0.wf(b0.base@[b0.blobs@[parent as int].guid]));
                    assert(cf.wf(b0.base@[guid]));
                    lemma_owned_blob(f0.cells@, f0.tree(), slot as int);
                }
            }
            Ok((s, g))
        },
        Err(e) => {
            proof {
                let cf = b0.blobs@[child as int].frame;
                let fits = bytes@.len() == 0 || f0.header.num_slots + cf.header.num_slots < MAX_SLOTS;
                if f0.arena_end == PAGE_SIZE && cf.sound() && foldable(f0, cf, b0.fork_barrier) && bytes@.len() <= BLOB_MAX_INLINE && fits {
                    foldable_child_fits(f0, cf, b0.fork_barrier, bytes@);
                }
            }
            Err(e)
        },
    }
}

/// Whether a key led by `was` is led by `now` once children may have been
/// folded in: to the same place, or to where the child led it.
pub open spec fn inlined(f: Forest, was: Route, now: Route, key: Seq<u8>) -> bool {
    now == was || (was is Crossing && now == f.route(was->guid, key))
}

/// Whether keys that begin with `path` are led by `t` as they are led by
/// blob `g`.
pub open spec fn leads(f: Forest, g: BlobGuid, t: Art, path: Seq<u8>) -> bool {
    &&& f.base[g].is_prefix_of(path)
    &&& forall|key: Seq<u8>| path.is_prefix_of(key) ==> #[trigger] step(t, key, path.len() as int) == f.route(g, key)
}

/// Edits in sequence.
proof fn lemma_edits_trans(c0: Seq<Option<Node>>, t0: Art, c1: Seq<Option<Node>>, t1: Art, c2: Seq<Option<Node>>, t2: Art)
    requires
        edits(c0, t0, c1, t1),
        edits(c1, t1, c2, t2),
    ensures
        edits(c0, t0, c2, t2),
{
    assert forall|s: int| (#[trigger] at(c0, s)) is Some && !owns(t0, s) implies at(c2, s) == at(c0, s) by {
        assert(at(c1, s) == at(c0, s));
        assert(!owns(t1, s));
    }
    assert forall|s: int| #[trigger] owns(t2, s) implies owns(t0, s) || at(c0, s) is None by {
        if !owns(t1, s) && at(c0, s) is Some && !owns(t0, s) {
            assert(at(c1, s) == at(c0, s));
        }
    }
}

/// A subtree after a pass over its blob nodes.
pub struct MergeStep {
    /// What the parent must refer to now.
    pub slot: u16,
    /// Why the pass stopped early, if it did.
    pub error: Option<Error>,
    pub tree: Ghost<Art>,
}

/// Whether a blob node of `t` leads to blob `c`.
pub open spec fn refers(t: Art, c: BlobGuid) -> bool
    decreases t,
{
    match t {
        Art::Blob { guid, .. } => guid == c,
        Art::Prefix { child, .. } => refers(*child, c),
        Art::Inner { kids, .. } => exists|b: int| 0 <= b < kids.len() && (#[trigger] kids[b]) is Some && refers(kids[b]->0, c),
        _ => false,
    }
}

/// Whether blob `c` was handed over for deletion when the list grew from
/// `d1` to `d2`.
pub open spec fn handed_over(d1: Seq<(BlobGuid, u64)>, d2: Seq<(BlobGuid, u64)>, c: BlobGuid) -> bool {
    exists|i: int| d1.len() <= i < d2.len() && (#[trigger] d2[i]).0 == c
}

/// Whether `u` is `t` with the children that were handed over in its place:
/// each blob node that leads to one is a copy of its tree, and every other
/// node stands.
pub open spec fn folds_in(f: Forest, t: Art, u: Art, d1: Seq<(BlobGuid, u64)>, d2: Seq<(BlobGuid, u64)>) -> bool
    decreases t,
{
    match t {
        Art::Blob { bytes, guid, .. } => if handed_over(d1, d2, guid) {
            inlines(f.blobs[guid].tree(), bytes, u)
        } else {
            u == t
        },
        Art::Prefix { slot, bytes, child } => {
            &&& u is Prefix
            &&& u == (Art::Prefix { slot, bytes, child: u->child })
            &&& folds_in(f, *child, *u->child, d1, d2)
        },
        Art::Inner { slot, kids } => {
            &&& u is Inner
            &&& u->Inner_slot == slot
            &&& u->kids.len() == kids.len()
            &&& forall|b: int| 0 <= b < kids.len() ==> ((#[trigger] kids[b]) is Some <==> u->kids[b] is Some)
            &&& forall|b: int| 0 <= b < kids.len() && (#[trigger] kids[b]) is Some ==> folds_in(f, kids[b]->0, u->kids[b]->0, d1, d2)
        },
        _ => u == t,
    }
}

/// What else was handed over does not matter to a tree that does not lead
/// to it.
proof fn lemma_folds_frame(
    f: Forest,
    t: Art,
    u: Art,
    d1: Seq<(BlobGuid, u64)>,
    d2: Seq<(BlobGuid, u64)>,
    e1: Seq<(BlobGuid, u64)>,
    e2: Seq<(BlobGuid, u64)>,
)
    requires
        folds_in(f, t, u, d1, d2),
        forall|c: BlobGuid| #[trigger] refers(t, c) ==> handed_over(d1, d2, c) == handed_over(e1, e2, c),
    ensures
        folds_in(f, t, u, e1, e2),
    decreases t,
{
    match t {
        Art::Blob { guid, .. } => {
            assert(refers(t, guid));
        },
        Art::Prefix { child, .. } => {
            assert forall|c: BlobGuid| #[trigger] refers(*child, c) implies handed_over(d1, d2, c) == handed_over(e1, e2, c) by {
                assert(refers(t, c));
            }
            lemma_folds_frame(f, *child, *u->child, d1, d2, e1, e2);
        },
        Art::Inner { kids, .. } => {
            assert forall|b: int| 0 <= b < kids.len() && (#[trigger] kids[b]) is Some implies folds_in(f, kids[b]->0, u->kids[b]->0, e1, e2) by {
                assert forall|c: BlobGuid| #[trigger] refers(kids[b]->0, c) implies handed_over(d1, d2, c) == handed_over(e1, e2, c) by {
                    assert(refers(t, c));
                }
                lemma_folds_frame(f, kids[b]->0, u->kids[b]->0, d1, d2, e1, e2);
            }
        },
        _ => {},
    }
}

/// A tree that leads to nothing handed over stands.
proof fn lemma_folds_none(f: Forest, t: Art, d1: Seq<(BlobGuid, u64)>, d2: Seq<(BlobGuid, u64)>)
    requires
        forall|c: BlobGuid| #[trigger] refers(t, c) ==> !handed_over(d1, d2, c),
    ensures
        folds_in(f, t, t, d1, d2),
    decreases t,
{
    match t {
        Art::Blob { guid, .. } => {
            assert(refers(t, guid));
        },
        Art::Prefix { child, .. } => {
            assert forall|c: BlobGuid| #[trigger] refers(*child, c) implies !handed_over(d1, d2, c) by {
                assert(refers(t, c));
            }
            lemma_folds_none(f, *child, d1, d2);
        },
        Art::Inner { kids, .. } => {
            assert forall|b: int| 0 <= b < kids.len() && (#[trigger] kids[b]) is Some implies folds_in(f, kids[b]->0, kids[b]->0, d1, d2) by {
                assert forall|c: BlobGuid| #[trigger] refers(kids[b]->0, c) implies !handed_over(d1, d2, c) by {
                    assert(refers(t, c));
                }
                lemma_folds_none(f, kids[b]->0, d1, d2);
            }
        },
        _ => {},
    }
}

/// A tree that leads keys as blob `g` does leads to each child where the
/// child begins.
proof fn lemma_refers_base(f: Forest, g: BlobGuid, cells: Seq<Option<Node>>, t: Art, path: Seq<u8>, c: BlobGuid)
    requires
        rep(cells, t),
        f.linked(),
        f.has(g),
        leads(f, g, t, path),
        refers(t, c),
    ensures
        f.has(c),
        f.rank[c] < f.rank[g],
        path.is_prefix_of(f.base[c]),
        forall|key: Seq<u8>| f.base[c].is_prefix_of(key) ==> #[trigger] f.route(g, key) == (Route::Crossing { guid: c, depth: f.base[c].len() as int }),
    decreases t,
{
    let d = path.len() as int;
    match t {
        Art::Blob { bytes, .. } => {
            let key = path + bytes;
            assert(path.is_prefix_of(key)) by {
                assert(key.subrange(0, d) =~= path);
            }
            assert(key.subrange(d, d + bytes.len()) =~= bytes);
            assert(step(t, key, d) == (Route::Crossing { guid: c, depth: d + bytes.len() }));
            lemma_longer_base(f.base[g], path, bytes);
            assert(f.below(g, key)) by {
                assert(f.base[g] =~= key.subrange(0, f.base[g].len() as int));
            }
            assert(f.edge_ok(g, key));
            assert(f.base[c] =~= key);
            assert forall|k: Seq<u8>| f.base[c].is_prefix_of(k) implies #[trigger] f.route(g, k) == (Route::Crossing {
                guid: c,
                depth: f.base[c].len() as int,
            }) by {
                lemma_longer_path(path, bytes, k);
                assert(step(t, k, d) == f.route(g, k));
            }
        },
        Art::Prefix { bytes, child, .. } => {
            let below = path + bytes;
            assert forall|key: Seq<u8>| below.is_prefix_of(key) implies #[trigger] step(*child, key, below.len() as int) == f.route(g, key) by {
                lemma_longer_path(path, bytes, key);
                assert(step(t, key, d) == step(*child, key, d + bytes.len()));
            }
            lemma_longer_base(f.base[g], path, bytes);
            lemma_refers_base(f, g, cells, *child, below, c);
            assert(path =~= f.base[c].subrange(0, d)) by {
                lemma_longer_path(path, bytes, f.base[c]);
            }
        },
        Art::Inner { kids, .. } => {
            let b = choose|b: int| 0 <= b < kids.len() && (#[trigger] kids[b]) is Some && refers(kids[b]->0, c);
            lemma_leads_kid(f, g, t, path, b);
            lemma_refers_base(f, g, cells, kids[b]->0, path.push(b as u8), c);
            assert(path.push(b as u8) =~= path + seq![b as u8]);
            lemma_longer_path(path, seq![b as u8], f.base[c]);
        },
        _ => {},
    }
}

/// A subtree of a tree that leads keys as blob `g` does leads them too.
proof fn lemma_leads_kid(f: Forest, g: BlobGuid, t: Art, path: Seq<u8>, b: int)
    requires
        leads(f, g, t, path),
        t is Inner,
        0 <= b < t->kids.len(),
        b < 256,
        t->kids[b] is Some,
    ensures
        leads(f, g, t->kids[b]->0, path.push(b as u8)),
{
    let d = path.len() as int;
    let below = path.push(b as u8);
    assert(below =~= path + seq![b as u8]);
    assert forall|key: Seq<u8>| below.is_prefix_of(key) implies #[trigger] step(t->kids[b]->0, key, below.len() as int) == f.route(g, key) by {
        lemma_longer_path(path, seq![b as u8], key);
        assert(key.subrange(d, d + 1)[0] == b as u8);
        assert(step(t, key, d) == step(t->kids[b]->0, key, d + 1));
    }
    lemma_longer_base(f.base[g], path, seq![b as u8]);
}

/// Two subtrees of one node lead to different children.
proof fn lemma_refers_apart(f: Forest, g: BlobGuid, cells: Seq<Option<Node>>, t: Art, path: Seq<u8>, x: int, y: int, c: BlobGuid)
    requires
        f.linked(),
        f.has(g),
        leads(f, g, t, path),
        rep(cells, t),
        t is Inner,
        0 <= x < 256,
        0 <= y < 256,
        x != y,
        t->kids[x] is Some,
        t->kids[y] is Some,
        refers(t->kids[x]->0, c),
    ensures
        !refers(t->kids[y]->0, c),
{
    if refers(t->kids[y]->0, c) {
        lemma_leads_kid(f, g, t, path, x);
        lemma_leads_kid(f, g, t, path, y);
        lemma_refers_base(f, g, cells, t->kids[x]->0, path.push(x as u8), c);
        lemma_refers_base(f, g, cells, t->kids[y]->0, path.push(y as u8), c);
        let n = path.len() as int;
        assert(path.push(x as u8)[n] == f.base[c].subrange(0, n + 1)[n]);
        assert(path.push(y as u8)[n] == f.base[c].subrange(0, n + 1)[n]);
    }
}

/// Copies lead to the same children.
proof fn lemma_shape_refers(t: Art, u: Art, c: BlobGuid)
    requires
        same_shape(t, u),
        refers(u, c),
    ensures
        refers(t, c),
    decreases t,
{
    match t {
        Art::Prefix { child, .. } => lemma_shape_refers(*child, *u->child, c),
        Art::Inner { kids, .. } => {
            let b = choose|b: int| 0 <= b < u->kids.len() && (#[trigger] u->kids[b]) is Some && refers(u->kids[b]->0, c);
            assert(kids[b] is Some);
            lemma_shape_refers(kids[b]->0, u->kids[b]->0, c);
        },
        _ => {},
    }
}

/// Bytes in front lead to nothing.
proof fn lemma_chained_refers(u: Art, bytes: Seq<u8>, k: Art, c: BlobGuid)
    requires
        chained(u, bytes, k),
    ensures
        refers(u, c) == refers(k, c),
        blob_nodes(u) == blob_nodes(k),
    decreases bytes.len(),
{
    if bytes.len() > 0 {
        lemma_chained_refers(*u->child, bytes.skip(crate::writers::head_len(bytes.len() as int)), k, c);
    }
}

/// A child that a folded tree leads to and that was not there before comes
/// with one that was handed over.
proof fn lemma_folds_refers_through(f: Forest, t: Art, u: Art, d1: Seq<(BlobGuid, u64)>, d2: Seq<(BlobGuid, u64)>, c: BlobGuid)
    requires
        folds_in(f, t, u, d1, d2),
        refers(u, c),
        !(refers(t, c) && !handed_over(d1, d2, c)),
    ensures
        exists|h: BlobGuid| #[trigger] handed_over(d1, d2, h) && refers(f.blobs[h].tree(), c),
    decreases t,
{
    match t {
        Art::Blob { bytes, guid, .. } => {
            if handed_over(d1, d2, guid) {
                let k = choose|k: Art| #[trigger] chained(u, bytes, k) && same_shape(f.blobs[guid].tree(), k);
                lemma_chained_refers(u, bytes, k, c);
                lemma_shape_refers(f.blobs[guid].tree(), k, c);
            }
        },
        Art::Prefix { child, .. } => {
            lemma_folds_refers_through(f, *child, *u->child, d1, d2, c);
        },
        Art::Inner { kids, .. } => {
            let b = choose|b: int| 0 <= b < u->kids.len() && (#[trigger] u->kids[b]) is Some && refers(u->kids[b]->0, c);
            assert(kids[b] is Some);
            if refers(kids[b]->0, c) {
                assert(refers(t, c));
            }
            lemma_folds_refers_through(f, kids[b]->0, u->kids[b]->0, d1, d2, c);
        },
        _ => {},
    }
}

/// What a tree leads to once children are folded in: what it led to and was
/// not handed over, and what the folded ones lead to.
proof fn lemma_folds_refers(f: Forest, t: Art, u: Art, d1: Seq<(BlobGuid, u64)>, d2: Seq<(BlobGuid, u64)>, c: BlobGuid)
    requires
        folds_in(f, t, u, d1, d2),
        refers(u, c),
    ensures
        (refers(t, c) && !handed_over(d1, d2, c)) || exists|h: BlobGuid| #[trigger] refers(t, h) && refers(f.blobs[h].tree(), c),
    decreases t,
{
    match t {
        Art::Blob { bytes, guid, .. } => {
            if handed_over(d1, d2, guid) {
                let k = choose|k: Art| #[trigger] chained(u, bytes, k) && same_shape(f.blobs[guid].tree(), k);
                lemma_chained_refers(u, bytes, k, c);
                lemma_shape_refers(f.blobs[guid].tree(), k, c);
                assert(refers(t, guid));
            }
        },
        Art::Prefix { child, .. } => {
            lemma_folds_refers(f, *child, *u->child, d1, d2, c);
            if !(refers(t, c) && !handed_over(d1, d2, c)) {
                let h = choose|h: BlobGuid| #[trigger] refers(*child, h) && refers(f.blobs[h].tree(), c);
                assert(refers(t, h));
            }
        },
        Art::Inner { kids, .. } => {
            let b = choose|b: int| 0 <= b < u->kids.len() && (#[trigger] u->kids[b]) is Some && refers(u->kids[b]->0, c);
            assert(kids[b] is Some);
            lemma_folds_refers(f, kids[b]->0, u->kids[b]->0, d1, d2, c);
            if refers(kids[b]->0, c) {
                assert(refers(t, c));
            }
            if !(refers(kids[b]->0, c) && !handed_over(d1, d2, c)) {
                let h = choose|h: BlobGuid| #[trigger] refers(kids[b]->0, h) && refers(f.blobs[h].tree(), c);
                assert(refers(t, h));
            }
        },
        _ => {},
    }
}

/// Whether every child that `t` leads to was folded, or cannot be folded into
/// `p`.
pub open spec fn nothing_left(f: Forest, p: BlobFrame, barrier: u64, t: Art, d1: Seq<(BlobGuid, u64)>, d2: Seq<(BlobGuid, u64)>) -> bool {
    forall|c: BlobGuid| #[trigger] refers(t, c) ==> handed_over(d1, d2, c) || !foldable(p, f.blobs[c], barrier)
}

/// Whether only children that `t` leads to and that could be folded into `p`
/// were folded.
pub open spec fn rightly_folded(f: Forest, p: BlobFrame, barrier: u64, t: Art, d1: Seq<(BlobGuid, u64)>, d2: Seq<(BlobGuid, u64)>) -> bool {
    &&& d1.is_prefix_of(d2)
    &&& forall|i: int|
        d1.len() <= i < d2.len() ==> {
            &&& refers(t, (#[trigger] d2[i]).0)
            &&& foldable(p, f.blobs[d2[i].0], barrier)
            &&& d2[i].1 == STRUCTURAL_SEQ
        }
}

/// Whether a blob node of `t` leads to blob `c` and holds `bytes`.
pub open spec fn refers_behind(t: Art, c: BlobGuid, bytes: Seq<u8>) -> bool
    decreases t,
{
    match t {
        Art::Blob { guid, bytes: x, .. } => guid == c && x == bytes,
        Art::Prefix { child, .. } => refers_behind(*child, c, bytes),
        Art::Inner { kids, .. } => exists|b: int| 0 <= b < kids.len() && (#[trigger] kids[b]) is Some && refers_behind(kids[b]->0, c, bytes),
        _ => false,
    }
}

/// Whether `p` is a stage of a pass that began at `p0` and stopped at `p2`.
pub open spec fn a_stage(p0: BlobFrame, p: BlobFrame, p2: BlobFrame) -> bool {
    no_roomier(p0, p) && no_roomier(p, p2) && p.arena_end == p0.arena_end
}

/// Whether a pass over `t` stopped at a child that could be folded into a
/// stage `p` of the parent, between `p0` and `p2`, and that did not fit there
/// all the same.
pub open spec fn overran(f: Forest, p0: BlobFrame, p2: BlobFrame, barrier: u64, t: Art) -> bool {
    exists|c: BlobGuid, bytes: Seq<u8>, p: BlobFrame|
        {
            &&& #[trigger] refers_behind(t, c, bytes)
            &&& #[trigger] a_stage(p0, p, p2)
            &&& foldable(p, f.blobs[c], barrier)
            &&& !takes_in(p, f.blobs[c].cells@, f.blobs[c].tree(), bytes)
        }
}

/// Whether a child that `t` leads to leaves `p` without a slot to spare.
pub open spec fn slots_scarce(f: Forest, p: BlobFrame, t: Art) -> bool {
    exists|c: BlobGuid| #[trigger] refers(t, c) && p.header.num_slots + f.blobs[c].header.num_slots >= MAX_SLOTS
}

/// A pass over the children of blob `g` stops for want of slots alone: the
/// bytes are always there.
pub proof fn merge_pass_stops_for_slots_only(f: Forest, g: BlobGuid, p: BlobFrame, barrier: u64)
    requires
        f.linked(),
        f.has(g),
        overran(f, f.blobs[g], p, barrier, f.blobs[g].tree()),
    ensures
        slots_scarce(f, p, f.blobs[g].tree()),
{
    let p0 = f.blobs[g];
    let t = p0.tree();
    assert(p0.wf(f.base[g]));
    let (c, bytes, q) = choose|c: BlobGuid, bytes: Seq<u8>, q: BlobFrame|
        {
            &&& #[trigger] refers_behind(t, c, bytes)
            &&& #[trigger] a_stage(p0, q, p)
            &&& foldable(q, f.blobs[c], barrier)
            &&& !takes_in(q, f.blobs[c].cells@, f.blobs[c].tree(), bytes)
        };
    lemma_refers_behind(p0.cells@, t, c, bytes);
    assert(f.base[g].is_prefix_of(f.base[g])) by {
        assert(f.base[g].subrange(0, f.base[g].len() as int) =~= f.base[g]);
    }
    assert(leads(f, g, t, f.base[g]));
    lemma_refers_base(f, g, p0.cells@, t, f.base[g], c);
    assert(f.blobs[c].wf(f.base[c]));
    if bytes.len() == 0 || q.header.num_slots + f.blobs[c].header.num_slots < MAX_SLOTS {
        foldable_child_fits(q, f.blobs[c], barrier, bytes);
    }
}

/// A blob node leads to its child, behind no more bytes than it can hold.
proof fn lemma_refers_behind(cells: Seq<Option<Node>>, t: Art, c: BlobGuid, bytes: Seq<u8>)
    requires
        rep(cells, t),
        refers_behind(t, c, bytes),
    ensures
        refers(t, c),
        bytes.len() <= BLOB_MAX_INLINE,
    decreases t,
{
    match t {
        Art::Prefix { child, .. } => lemma_refers_behind(cells, *child, c, bytes),
        Art::Inner { kids, .. } => {
            let b = choose|b: int| 0 <= b < kids.len() && (#[trigger] kids[b]) is Some && refers_behind(kids[b]->0, c, bytes);
            lemma_refers_behind(cells, kids[b]->0, c, bytes);
        },
        _ => {},
    }
}

/// A pass over a subtree that stopped stops the pass over the tree.
proof fn lemma_overran(f: Forest, p0: BlobFrame, p1: BlobFrame, p2: BlobFrame, p3: BlobFrame, barrier: u64, k: Art, t: Art)
    requires
        overran(f, p1, p2, barrier, k),
        no_roomier(p0, p1),
        no_roomier(p2, p3),
        p1.arena_end == p0.arena_end,
        t == k || {
            &&& t matches Art::Prefix { child, .. } ==> *child == k
            &&& t is Inner ==> exists|b: int| 0 <= b < t->kids.len() && (#[trigger] t->kids[b]) == Some(k)
        },
        t is Prefix || t is Inner || t == k,
    ensures
        overran(f, p0, p3, barrier, t),
{
    let (c, bytes, p) = choose|c: BlobGuid, bytes: Seq<u8>, p: BlobFrame|
        {
            &&& #[trigger] refers_behind(k, c, bytes)
            &&& #[trigger] a_stage(p1, p, p2)
            &&& foldable(p, f.blobs[c], barrier)
            &&& !takes_in(p, f.blobs[c].cells@, f.blobs[c].tree(), bytes)
        };
    if t is Inner && t != k {
        let b = choose|b: int| 0 <= b < t->kids.len() && (#[trigger] t->kids[b]) == Some(k);
        assert(t->kids[b] is Some && refers_behind(t->kids[b]->0, c, bytes));
    }
    assert(refers_behind(t, c, bytes));
    assert(a_stage(p0, p, p3));
}

/// Whether `p2` has no more room than `p1`.
pub open spec fn no_roomier(p1: BlobFrame, p2: BlobFrame) -> bool {
    p1.header.space_used <= p2.header.space_used && p1.header.num_slots <= p2.header.num_slots
}

/// `a + b`, but no more than a `u32` holds.
pub open spec fn capped(a: u32, b: nat) -> u32 {
    if a + b <= u32::MAX {
        (a + b) as u32
    } else {
        u32::MAX
    }
}

/// Whether a pass over `t` may start.
pub open spec fn merge_ready(b0: BufferManager, b: BufferManager, i: int, slot: u16, t: Art, path: Seq<u8>) -> bool {
    let f = b.blobs@[i].frame;
    &&& b0.wf()
    &&& pending(b0, b, i)
    &&& f.ok()
    &&& f.header.num_slots <= MAX_SLOTS
    &&& slot_of(t) == slot
    &&& rep(f.cells@, t)
    &&& sep(t)
    &&& keyed(t, path)
    &&& leads(b0.forest(), b0.blobs@[i].guid, t, path)
}

/// Whether `n` folds are settled in the header: each leaves its blob node
/// behind, and any of them ends a routed layout.
pub open spec fn settles_up(f0: BlobFrame, f: BlobFrame, n: int) -> bool {
    &&& f.header.dead_bytes == clamp(f0.header.dead_bytes + n * BLOB_NODE_SIZE)
    &&& f.header.routing_len == (if n > 0 {
        0
    } else {
        f0.header.routing_len
    })
}

/// What holds at any time of a pass over `t`, which has given `u` so far.
pub open spec fn merge_kept(
    b0: BufferManager,
    b1: BufferManager,
    b2: BufferManager,
    i: int,
    t: Art,
    path: Seq<u8>,
    s1: MergeStats,
    s2: MergeStats,
    u: Art,
) -> bool {
    let f1 = b1.blobs@[i].frame;
    let f2 = b2.blobs@[i].frame;
    &&& pending(b0, b2, i)
    &&& f2.ok()
    &&& f2.arena_end == f1.arena_end
    &&& same_identity(f1, f2)
    &&& rep(f2.cells@, u)
    &&& sep(u)
    &&& keyed(u, path)
    &&& edits(f1.cells@, t, f2.cells@, u)
    &&& dead(u) == dead(t)
    &&& forall|key: Seq<u8>| path.is_prefix_of(key) ==> inlined(
        b0.forest(),
        step(t, key, path.len() as int),
        #[trigger] step(u, key, path.len() as int),
        key,
    )
    &&& folds_in(b0.forest(), t, u, b1.deletes@, b2.deletes@)
    &&& blob_nodes(u) + (b2.deletes@.len() - b1.deletes@.len()) == blob_nodes(t)
    &&& f2.header.num_ext_blobs + (b2.deletes@.len() - b1.deletes@.len()) >= f1.header.num_ext_blobs
    &&& s1.merged <= s2.merged && s1.inspected <= s2.inspected
    &&& rightly_folded(b0.forest(), f1, b0.fork_barrier, t, b1.deletes@, b2.deletes@)
    &&& b1.deletes@.len() <= b2.deletes@.len()
    &&& settles_up(f1, f2, b2.deletes@.len() - b1.deletes@.len())
    &&& s2.merged == capped(s1.merged, (b2.deletes@.len() - b1.deletes@.len()) as nat)
}

/// What a pass over `t` promises.
pub open spec fn merge_result(
    b0: BufferManager,
    b1: BufferManager,
    b2: BufferManager,
    i: int,
    t: Art,
    path: Seq<u8>,
    s1: MergeStats,
    s2: MergeStats,
    r: MergeStep,
) -> bool {
    let f1 = b1.blobs@[i].frame;
    let f2 = b2.blobs@[i].frame;
    let u = r.tree@;
    &&& merge_kept(b0, b1, b2, i, t, path, s1, s2, u)
    &&& slot_of(u) == r.slot
    &&& match r.error {
        Some(e) => e is Alloc && overran(b0.forest(), f1, f2, b0.fork_barrier, t),
        None => {
            &&& s2.inspected == capped(s1.inspected, blob_nodes(t))
            &&& f1.header.num_ext_blobs >= b2.deletes@.len() - b1.deletes@.len() ==> f2.header.num_ext_blobs + (b2.deletes@.len()
                - b1.deletes@.len()) == f1.header.num_ext_blobs
            &&& no_roomier(f1, f2)
            &&& nothing_left(b0.forest(), f2, b0.fork_barrier, t, b1.deletes@, b2.deletes@)
            // As long as nothing is folded, nothing changes.
            &&& b2.deletes@.len() == b1.deletes@.len() ==> b2 == b1 && u == t
        },
    }
}

/// Folds the child of a blob node back, if it can be.
fn merge_at_blob_node(
    bm: &mut BufferManager,
    at_: usize,
    slot: u16,
    stats: &mut MergeStats,
    Ghost(t): Ghost<Art>,
    Ghost(path): Ghost<Seq<u8>>,
    Ghost(b0): Ghost<BufferManager>,
) -> (r: MergeStep)
    requires
        merge_ready(b0, *old(bm), at_ as int, slot, t, path),
        t is Blob,
    ensures
        merge_result(b0, *old(bm), *final(bm), at_ as int, t, path, *old(stats), *final(stats), r),
{
    let ghost b1 = *bm;
    let ghost g = b0.blobs@[at_ as int].guid;
    let ghost f = b0.forest();
    let ghost c = t->guid;
    let ghost bytes = t->Blob_bytes;
    proof {
        lemma_pending(b0, b1, at_ as int);
        lemma_map_at(b0.blobs@, at_ as int);
        assert(f.has(g));
        // The key that ends at the blob node shows where the child belongs.
        let key = path + bytes;
        let d = path.len() as int;
        assert(path.is_prefix_of(key)) by {
            assert(key.subrange(0, d) =~= path);
        }
        assert(key.subrange(d, d + bytes.len()) =~= bytes);
        assert(step(t, key, d) == (Route::Crossing { guid: c, depth: d + bytes.len() }));
        assert(f.route(g, key) == step(t, key, d));
        assert(f.below(g, key)) by {
            let m = f.base[g].len() as int;
            assert(f.base[g] =~= key.subrange(0, m)) by {
                assert(f.base[g] =~= path.subrange(0, m));
                assert(path.subrange(0, m) =~= key.subrange(0, m));
            }
        }
        assert(f.edge_ok(g, key));
        assert(f.has(c) && c != g);
        assert(f.base[c] =~= key);
        assert(b0.has(c));
        assert(b1.forest().blobs[c] == f.blobs[c]);
        assert(f.blobs[c].wf(f.base[c]));
        assert forall|i: int| 0 <= i < b1.blobs@.len() implies (#[trigger] b1.blobs@[i]).frame.header.num_slots <= MAX_SLOTS by {
            if i != at_ {
                assert(b1.blobs@[i] == b0.blobs@[i]);
                lemma_map_at(b0.blobs@, i);
                assert(f.has(b0.blobs@[i].guid));
                assert(f.blobs[b0.blobs@[i].guid].wf(f.base[b0.blobs@[i].guid]));
            }
        }
    }
    stats.inspected = stats.inspected.saturating_add(1);
    match is_mergeable(bm, at_, slot) {
        Ok(true) => {},
        _ => {
            return MergeStep { slot, error: None, tree: Ghost(t) };
        },
    }
    match merge_blob(bm, at_, slot, STRUCTURAL_SEQ) {
        Ok((s, gu)) => {
            stats.merged = stats.merged.saturating_add(1);
            proof {
                let u = gu@;
                let k = f.blobs[c].tree();
                lemma_budget_sign(f.blobs[c].cells@, k, false);
                assert(bm.deletes@[b1.deletes@.len() as int].0 == c);
                assert(handed_over(b1.deletes@, bm.deletes@, c));
                assert(refers(t, c));
                assert(keyed(k, path + bytes));
                let kc = choose|kc: Art| #[trigger] chained(u, bytes, kc) && same_shape(k, kc);
                lemma_chained_refers(u, bytes, kc, c);
                lemma_shape_blob_nodes(k, kc);
                lemma_chained_blobs(u, bytes, kc);
                assert(blob_nodes(k) == 0);
                assert forall|key: Seq<u8>| path.is_prefix_of(key) implies inlined(
                    f,
                    step(t, key, path.len() as int),
                    #[trigger] step(u, key, path.len() as int),
                    key,
                ) by {
                    let d = path.len() as int;
                    assert(step(u, key, d) == behind(k, bytes, key, d));
                    if matches_at(key, d, bytes) {
                        assert(f.route(c, key) == step(k, key, d + bytes.len()));
                    }
                }
            }
            MergeStep { slot: s, error: None, tree: gu }
        },
        Err(e) => {
            proof {
                let f2 = bm.blobs@[at_ as int].frame;
                let f1 = b1.blobs@[at_ as int].frame;
                assert forall|s: int| #[trigger] owns(t, s) implies at(f2.cells@, s) == at(f1.cells@, s) by {
                    crate::art::lemma_owns_present(f1.cells@, t, s);
                }
                crate::art::lemma_rep_frame(f1.cells@, f2.cells@, t);
                assert(refers_behind(t, c, bytes));
                assert(a_stage(f1, f1, f2));
            }
            MergeStep { slot, error: Some(e), tree: Ghost(t) }
        },
    }
}

/// Passes over the blob nodes below the node at `slot`.
fn try_merge_subtree(
    bm: &mut BufferManager,
    at_: usize,
    slot: u16,
    stats: &mut MergeStats,
    Ghost(t): Ghost<Art>,
    Ghost(path): Ghost<Seq<u8>>,
    Ghost(b0): Ghost<BufferManager>,
) -> (r: MergeStep)
    requires
        merge_ready(b0, *old(bm), at_ as int, slot, t, path),
    ensures
        merge_result(b0, *old(bm), *final(bm), at_ as int, t, path, *old(stats), *final(stats), r),
    decreases t, 1int,
{
    proof {
        lemma_rep_root(bm.blobs@[at_ as int].frame.cells@, t);
    }
    match bm.blobs[at_].frame.node_at(slot) {
        Some(Node::EmptyRoot) => MergeStep { slot, error: None, tree: Ghost(t) },
        Some(Node::Leaf(_)) => MergeStep { slot, error: None, tree: Ghost(t) },
        Some(Node::Blob(_)) => merge_at_blob_node(bm, at_, slot, stats, Ghost(t), Ghost(path), Ghost(b0)),
        Some(Node::Prefix(_)) => merge_under_prefix(bm, at_, slot, stats, Ghost(t), Ghost(path), Ghost(b0)),
        Some(_) => merge_under_inner(bm, at_, slot, stats, Ghost(t), Ghost(path), Ghost(b0)),
        None => {
            assert(false);
            MergeStep { slot, error: Some(Error::NodeCorrupt { context: "try_merge_subtree: undecodable node" }), tree: Ghost(t) }
        },
    }
}

/// Passes over the blob nodes below a prefix node.
fn merge_under_prefix(
    bm: &mut BufferManager,
    at_: usize,
    slot: u16,
    stats: &mut MergeStats,
    Ghost(t): Ghost<Art>,
    Ghost(path): Ghost<Seq<u8>>,
    Ghost(b0): Ghost<BufferManager>,
) -> (r: MergeStep)
    requires
        merge_ready(b0, *old(bm), at_ as int, slot, t, path),
        t is Prefix,
    ensures
        merge_result(b0, *old(bm), *final(bm), at_ as int, t, path, *old(stats), *final(stats), r),
    decreases t, 0int,
{
    let ghost b1 = *bm;
    let ghost s1 = *stats;
    let ghost k = *t->child;
    let ghost bytes = t->Prefix_bytes;
    let child: u16 = match bm.blobs[at_].frame.node_at(slot) {
        Some(Node::Prefix(p)) => p.child,
        _ => 0,
    };
    let ghost below = path + bytes;
    let ghost d = path.len() as int;
    proof {
        assert forall|key: Seq<u8>| below.is_prefix_of(key) implies #[trigger] step(k, key, below.len() as int) == b0.forest().route(
            b0.blobs@[at_ as int].guid,
            key,
        ) by {
            lemma_longer_path(path, bytes, key);
            assert(step(t, key, d) == step(k, key, d + bytes.len()));
        }
        lemma_longer_base(b0.forest().base[b0.blobs@[at_ as int].guid], path, bytes);
    }
    let r = try_merge_subtree(bm, at_, child, stats, Ghost(k), Ghost(below), Ghost(b0));
    let ghost b2 = *bm;
    let ghost f1 = b1.blobs@[at_ as int].frame;
    let ghost f2 = b2.blobs@[at_ as int].frame;
    let ghost k2 = r.tree@;
    proof {
        lemma_rep_root(f1.cells@, t);
        assert(at(f2.cells@, slot as int) == at(f1.cells@, slot as int));
    }
    if r.slot != child {
        let run: Vec<u8> = match bm.blobs[at_].frame.node_at(slot) {
            Some(Node::Prefix(p)) => copy_bytes(&p.bytes),
            _ => Vec::new(),
        };
        bm.blobs[at_].frame.set_node(slot, Node::Prefix(Prefix { bytes: run, child: r.slot }));
        proof {
            lemma_ok_after_set(f2, bm.blobs@[at_ as int].frame, slot as int);
        }
    }
    let ghost f3 = bm.blobs@[at_ as int].frame;
    let ghost u = Art::Prefix { slot: slot as int, bytes, child: Box::new(k2) };
    proof {
        lemma_replug_prefix(f1.cells@, f2.cells@, f3.cells@, t, k2, path);
        assert forall|key: Seq<u8>| path.is_prefix_of(key) implies inlined(b0.forest(), step(t, key, d), #[trigger] step(u, key, d), key) by {
            if matches_at(key, d, bytes) {
                lemma_matched_path(path, bytes, key);
                assert(inlined(b0.forest(), step(k, key, below.len() as int), step(k2, key, below.len() as int), key));
            }
        }
        assert(pending(b0, *bm, at_ as int));
        assert forall|c: BlobGuid| #[trigger] refers(t, c) == refers(k, c) by {}
        if bm.deletes@.len() == b1.deletes@.len() && r.error is None {
            assert(k2 == k);
            assert(u == t);
        }
        if r.error is Some {
            lemma_overran(b0.forest(), f1, f1, f2, f3, b0.fork_barrier, k, t);
        }
    }
    MergeStep { slot, error: r.error, tree: Ghost(u) }
}

/// A key that goes on from a path goes along it.
pub proof fn lemma_longer_path(path: Seq<u8>, bytes: Seq<u8>, key: Seq<u8>)
    requires
        (path + bytes).is_prefix_of(key),
    ensures
        path.is_prefix_of(key),
        matches_at(key, path.len() as int, bytes),
{
    let below = path + bytes;
    assert(below =~= key.subrange(0, below.len() as int));
    assert(path =~= key.subrange(0, path.len() as int)) by {
        assert forall|i: int| 0 <= i < path.len() implies path[i] == key[i] by {
            assert(below[i] == key.subrange(0, below.len() as int)[i]);
        }
    }
    assert(key.subrange(path.len() as int, below.len() as int) =~= bytes) by {
        assert forall|i: int| 0 <= i < bytes.len() implies key[path.len() + i] == bytes[i] by {
            assert(below[path.len() + i] == key.subrange(0, below.len() as int)[path.len() + i]);
        }
    }
}

/// A key that goes along a path and matches what follows goes on from it.
pub proof fn lemma_matched_path(path: Seq<u8>, bytes: Seq<u8>, key: Seq<u8>)
    requires
        path.is_prefix_of(key),
        matches_at(key, path.len() as int, bytes),
    ensures
        (path + bytes).is_prefix_of(key),
{
    let d = path.len() as int;
    assert(path =~= key.subrange(0, d));
    assert(key.subrange(d, d + bytes.len()) =~= bytes);
    assert((path + bytes) =~= key.subrange(0, d + bytes.len()));
}

/// A longer path begins with what the path begins with.
pub proof fn lemma_longer_base(base: Seq<u8>, path: Seq<u8>, bytes: Seq<u8>)
    requires
        base.is_prefix_of(path),
    ensures
        base.is_prefix_of(path + bytes),
{
    let m = base.len() as int;
    assert(base =~= path.subrange(0, m));
    assert(path.subrange(0, m) =~= (path + bytes).subrange(0, m));
}

/// Whether every child that the first `n` subtrees lead to was folded, or
/// cannot be folded into entry `i`.
spec fn judged(b0: BufferManager, b: BufferManager, i: int, kids: Seq<Option<Art>>, n: int, d1: Seq<(BlobGuid, u64)>) -> bool {
    forall|x: int, c: BlobGuid|
        0 <= x < n && kids[x] is Some && #[trigger] refers(kids[x]->0, c) ==> {
            ||| handed_over(d1, b.deletes@, c)
            ||| !foldable(b.blobs@[i].frame, b0.forest().blobs[c], b0.fork_barrier)
        }
}

/// What a pass over subtree `b` of `t` folds comes on top of what was folded
/// before.
proof fn lemma_rightly_folded(
    b0: BufferManager,
    f1: BlobFrame,
    f2: BlobFrame,
    t: Art,
    k: Art,
    b: int,
    d1: Seq<(BlobGuid, u64)>,
    d2: Seq<(BlobGuid, u64)>,
    d3: Seq<(BlobGuid, u64)>,
)
    requires
        rightly_folded(b0.forest(), f1, b0.fork_barrier, t, d1, d2),
        rightly_folded(b0.forest(), f2, b0.fork_barrier, k, d2, d3),
        no_roomier(f1, f2),
        t is Inner,
        0 <= b < t->kids.len(),
        t->kids[b] == Some(k),
    ensures
        rightly_folded(b0.forest(), f1, b0.fork_barrier, t, d1, d3),
{
    let m1 = d1.len() as int;
    let m2 = d2.len() as int;
    assert(d1 =~= d2.subrange(0, m1));
    assert(d2 =~= d3.subrange(0, m2));
    assert(d1 =~= d3.subrange(0, m1)) by {
        assert forall|i: int| 0 <= i < m1 implies d1[i] == d3[i] by {
            assert(d2[i] == d3.subrange(0, m2)[i]);
            assert(d1[i] == d2.subrange(0, m1)[i]);
        }
    }
    assert forall|i: int| m1 <= i < d3.len() implies {
        &&& refers(t, (#[trigger] d3[i]).0)
        &&& foldable(f1, b0.forest().blobs[d3[i].0], b0.fork_barrier)
        &&& d3[i].1 == STRUCTURAL_SEQ
    } by {
        if i < m2 {
            assert(d2[i] == d3.subrange(0, m2)[i]);
            assert(refers(t, d2[i].0));
        } else {
            assert(t->kids[b] is Some && refers(t->kids[b]->0, d3[i].0));
        }
    }
}

/// A pass over subtree `b` of `t`, which has given `t2` so far, leaves what
/// was folded elsewhere.
proof fn lemma_folds_kid(
    f: Forest,
    g: BlobGuid,
    cells: Seq<Option<Node>>,
    t: Art,
    t2: Art,
    path: Seq<u8>,
    b: int,
    k2: Art,
    d1: Seq<(BlobGuid, u64)>,
    d2: Seq<(BlobGuid, u64)>,
    d3: Seq<(BlobGuid, u64)>,
)
    requires
        f.linked(),
        f.has(g),
        leads(f, g, t, path),
        rep(cells, t),
        t is Inner,
        0 <= b < 256,
        t->kids[b] is Some,
        folds_in(f, t, t2, d1, d2),
        folds_in(f, t->kids[b]->0, k2, d2, d3),
        d1.len() <= d2.len(),
        d2.is_prefix_of(d3),
        forall|i: int| d2.len() <= i < d3.len() ==> refers(t->kids[b]->0, (#[trigger] d3[i]).0),
        forall|i: int| d1.len() <= i < d2.len() ==> !refers(t->kids[b]->0, (#[trigger] d2[i]).0),
    ensures
        folds_in(f, t, with_kid(t2, b as u8, k2), d1, d3),
{
    let kids = t->kids;
    let u = with_kid(t2, b as u8, k2);
    assert(d2 =~= d3.subrange(0, d2.len() as int));
    assert forall|c: BlobGuid| #[trigger] handed_over(d1, d2, c) implies handed_over(d1, d3, c) by {
        let i = choose|i: int| d1.len() <= i < d2.len() && (#[trigger] d2[i]).0 == c;
        assert(d3[i] == d2[i]);
    }
    assert forall|c: BlobGuid| #[trigger] handed_over(d2, d3, c) implies handed_over(d1, d3, c) by {
        let i = choose|i: int| d2.len() <= i < d3.len() && (#[trigger] d3[i]).0 == c;
        assert(d1.len() <= i);
    }
    assert forall|x: int| 0 <= x < 256 && (#[trigger] kids[x]) is Some implies folds_in(f, kids[x]->0, u->kids[x]->0, d1, d3) by {
        if x == b {
            assert forall|c: BlobGuid| #[trigger] refers(kids[x]->0, c) implies handed_over(d2, d3, c) == handed_over(d1, d3, c) by {
                if handed_over(d1, d3, c) {
                    let i = choose|i: int| d1.len() <= i < d3.len() && (#[trigger] d3[i]).0 == c;
                    if i < d2.len() {
                        assert(d2[i] == d3[i]);
                    }
                }
            }
            lemma_folds_frame(f, kids[x]->0, k2, d2, d3, d1, d3);
        } else {
            assert forall|c: BlobGuid| #[trigger] refers(kids[x]->0, c) implies handed_over(d1, d2, c) == handed_over(d1, d3, c) by {
                if handed_over(d1, d3, c) {
                    let i = choose|i: int| d1.len() <= i < d3.len() && (#[trigger] d3[i]).0 == c;
                    if i < d2.len() {
                        assert(d2[i].0 == c);
                    } else {
                        lemma_refers_apart(f, g, cells, t, path, x, b, c);
                    }
                }
            }
            lemma_folds_frame(f, kids[x]->0, t2->kids[x]->0, d1, d2, d1, d3);
        }
    }
    assert forall|x: int| 0 <= x < 256 implies ((#[trigger] kids[x]) is Some <==> u->kids[x] is Some) by {}
}

/// Passes over the blob nodes below an inner node.
#[verifier::rlimit(60)]
fn merge_under_inner(
    bm: &mut BufferManager,
    at_: usize,
    slot: u16,
    stats: &mut MergeStats,
    Ghost(t): Ghost<Art>,
    Ghost(path): Ghost<Seq<u8>>,
    Ghost(b0): Ghost<BufferManager>,
) -> (r: MergeStep)
    requires
        merge_ready(b0, *old(bm), at_ as int, slot, t, path),
        t is Inner,
    ensures
        merge_result(b0, *old(bm), *final(bm), at_ as int, t, path, *old(stats), *final(stats), r),
    decreases t, 0int,
{
    let ghost b1 = *bm;
    let ghost s1 = *stats;
    let ghost f1 = b1.blobs@[at_ as int].frame;
    let ghost g = b0.blobs@[at_ as int].guid;
    let ghost d = path.len() as int;
    let ghost kids = t->kids;
    let ghost n0 = at(f1.cells@, slot as int)->0;
    // The children are listed before any of them moves.
    let node: Node = match bm.blobs[at_].frame.node_at(slot) {
        Some(n) => crate::erase::copy_inner(n),
        None => Node::EmptyRoot,
    };
    let ghost mut tc: Art = t;
    let mut from: u16 = 0;
    let mut more: bool = true;
    let ghost f = b0.forest();
    proof {
        lemma_map_at(b0.blobs@, at_ as int);
        assert(f.has(g));
        lemma_folds_none(f, t, b1.deletes@, b1.deletes@);
        lemma_edits_refl(f1.cells@, t);
    }
    while more
        invariant
            b0.wf(),
            b1 == *old(bm),
            s1 == *old(stats),
            merge_ready(b0, b1, at_ as int, slot, t, path),
            t is Inner,
            kids == t->kids,
            kids.len() == 256,
            node == n0,
            f1 == b1.blobs@[at_ as int].frame,
            at(f1.cells@, slot as int) == Some(n0),
            inner_ok(n0),
            d == path.len(),
            g == b0.blobs@[at_ as int].guid,
            0 <= cursor_byte(n0, from as int) <= 256,
            !more ==> no_kid_from(n0, cursor_byte(n0, from as int)),
            tc is Inner,
            tc->kids.len() == 256,
            forall|x: int| cursor_byte(n0, from as int) <= x < 256 ==> tc->kids[x] == kids[x],
            stats.inspected == capped(s1.inspected, blob_nodes_below(kids, cursor_byte(n0, from as int))),
            slot_of(tc) == slot,
            merge_kept(b0, b1, *bm, at_ as int, t, path, s1, *stats, tc),
            bm.deletes@.len() == b1.deletes@.len() ==> *bm == b1 && tc == t,
            no_roomier(f1, bm.blobs@[at_ as int].frame),
            f1.header.num_ext_blobs >= bm.deletes@.len() - b1.deletes@.len() ==> bm.blobs@[at_ as int].frame.header.num_ext_blobs + (
            bm.deletes@.len() - b1.deletes@.len()) == f1.header.num_ext_blobs,
            judged(b0, *bm, at_ as int, kids, cursor_byte(n0, from as int), b1.deletes@),
            f == b0.forest(),
            f.linked(),
            f.has(g),
            forall|i: int, x: int|
                b1.deletes@.len() <= i < bm.deletes@.len() && cursor_byte(n0, from as int) <= x < 256 && kids[x] is Some ==> !(#[trigger] refers(
                    kids[x]->0,
                    (#[trigger] bm.deletes@[i]).0,
                )),
        decreases more as int, 256 - cursor_byte(n0, from as int),
    {
        let ghost lo = cursor_byte(n0, from as int);
        match next_inner_child_from(&node, from) {
            None => {
                more = false;
            },
            Some((byte, child, next)) => {
                let ghost b = byte as int;
                let ghost b2 = *bm;
                let ghost f2 = b2.blobs@[at_ as int].frame;
                let ghost t2 = tc;
                let ghost k = kids[b]->0;
                let ghost stats2 = *stats;
                let ghost below = path.push(byte);
                proof {
                    assert(kids[b] is Some);
                    assert(t2->kids[b] == kids[b]);
                    assert(rep(f2.cells@, t2));
                    assert forall|x: int| lo <= x < b implies kids[x] is None by {
                        assert(kid(n0, x) == 0);
                    }
                    lemma_blob_nodes_skip(kids, lo, b);
                    assert(below =~= path + seq![byte]);
                    assert forall|key: Seq<u8>| below.is_prefix_of(key) implies #[trigger] step(k, key, below.len() as int) == b0.forest().route(g, key) by {
                        lemma_longer_path(path, seq![byte], key);
                        assert(key.subrange(d, d + 1)[0] == byte);
                        assert(step(t, key, d) == step(k, key, d + 1));
                    }
                    lemma_longer_base(b0.forest().base[g], path, seq![byte]);
                }
                let r = try_merge_subtree(bm, at_, child, stats, Ghost(k), Ghost(below), Ghost(b0));
                let ghost b3 = *bm;
                let ghost f3 = b3.blobs@[at_ as int].frame;
                let ghost k2 = r.tree@;
                proof {
                    lemma_rep_root(f2.cells@, t2);
                    assert(!owns(t2->kids[b]->0, slot as int));
                    assert(at(f3.cells@, slot as int) == at(f2.cells@, slot as int));
                    assert(kid(at(f2.cells@, slot as int)->0, b) == child);
                }
                if r.slot != child {
                    let mut changed: Node = match bm.blobs[at_].frame.node_at(slot) {
                        Some(n) => crate::erase::copy_inner(n),
                        None => Node::EmptyRoot,
                    };
                    inner_update_child(&mut changed, byte, r.slot);
                    bm.blobs[at_].frame.set_node(slot, changed);
                    proof {
                        lemma_ok_after_set(f3, bm.blobs@[at_ as int].frame, slot as int);
                    }
                }
                let ghost f4 = bm.blobs@[at_ as int].frame;
                proof {
                    let n2 = at(f2.cells@, slot as int)->0;
                    if r.slot == child {
                        assert(kid_update(n2, n2, b, slot_of(k2) as u16));
                    }
                    lemma_replug_inner(f2.cells@, f3.cells@, f4.cells@, t2, byte, k2, path);
                    tc = with_kid(t2, byte, k2);
                    lemma_edits_trans(f1.cells@, t, f2.cells@, t2, f4.cells@, tc);
                    assert forall|key: Seq<u8>| path.is_prefix_of(key) implies inlined(b0.forest(), step(t, key, d), #[trigger] step(tc, key, d), key) by {
                        assert(inlined(b0.forest(), step(t, key, d), step(t2, key, d), key));
                        if d < key.len() && key[d] == byte {
                            assert(key.subrange(d, d + 1) =~= seq![byte]);
                            lemma_matched_path(path, seq![byte], key);
                            assert(step(t, key, d) == step(k, key, d + 1));
                            assert(step(tc, key, d) == step(k2, key, d + 1));
                            assert(inlined(b0.forest(), step(k, key, below.len() as int), step(k2, key, below.len() as int), key));
                        } else {
                            assert(step(tc, key, d) == step(t2, key, d));
                        }
                    }
                    assert(pending(b0, *bm, at_ as int));
                    if bm.deletes@.len() == b1.deletes@.len() && r.error is None {
                        assert(b2.deletes@.len() == b1.deletes@.len());
                        assert(k2 == k);
                        assert(tc->kids =~= t->kids);
                    }
                    lemma_rightly_folded(b0, f1, f2, t, k, b, b1.deletes@, b2.deletes@, b3.deletes@);
                    lemma_folds_kid(f, g, f1.cells@, t, t2, path, b, k2, b1.deletes@, b2.deletes@, b3.deletes@);
                    lemma_blob_nodes_update(t2->kids, b, Some(k2), 256);
                    assert forall|i: int, x: int|
                        b1.deletes@.len() <= i < bm.deletes@.len() && b < x < 256 && kids[x] is Some implies !(#[trigger] refers(
                        kids[x]->0,
                        (#[trigger] bm.deletes@[i]).0,
                    )) by {
                        if i < b2.deletes@.len() {
                            assert(b2.deletes@ =~= b3.deletes@.subrange(0, b2.deletes@.len() as int));
                            assert(bm.deletes@[i] == b2.deletes@[i]);
                        } else {
                            assert(refers(k, bm.deletes@[i].0));
                            lemma_refers_apart(f, g, f1.cells@, t, path, b, x, bm.deletes@[i].0);
                        }
                    }
                    if r.error is Some {
                        assert(t->kids[b] == Some(k));
                        lemma_overran(b0.forest(), f1, f2, f3, f4, b0.fork_barrier, k, t);
                    } else {
                        assert forall|x: int, c: BlobGuid| 0 <= x < b + 1 && kids[x] is Some && #[trigger] refers(kids[x]->0, c) implies {
                            ||| handed_over(b1.deletes@, bm.deletes@, c)
                            ||| !foldable(f4, b0.forest().blobs[c], b0.fork_barrier)
                        } by {
                            if x == b {
                                if handed_over(b2.deletes@, b3.deletes@, c) {
                                    let i = choose|i: int| b2.deletes@.len() <= i < b3.deletes@.len() && (#[trigger] b3.deletes@[i]).0 == c;
                                    assert(bm.deletes@[i].0 == c);
                                }
                            } else if x < lo {
                                if handed_over(b1.deletes@, b2.deletes@, c) {
                                    let i = choose|i: int| b1.deletes@.len() <= i < b2.deletes@.len() && (#[trigger] b2.deletes@[i]).0 == c;
                                    assert(b2.deletes@ =~= b3.deletes@.subrange(0, b2.deletes@.len() as int));
                                    assert(bm.deletes@[i].0 == c);
                                }
                            }
                        }
                        assert(judged(b0, *bm, at_ as int, kids, b + 1, b1.deletes@));
                    }
                }
                if r.error.is_some() {
                    return MergeStep { slot, error: r.error, tree: Ghost(tc) };
                }
                from = next;
            },
        }
    }
    proof {
        let lo = cursor_byte(n0, from as int);
        assert forall|x: int| lo <= x < 256 implies kids[x] is None by {
            assert(kid(n0, x) == 0);
        }
        lemma_blob_nodes_skip(kids, lo, 256);
        assert forall|c: BlobGuid| #[trigger] refers(t, c) implies {
            ||| handed_over(b1.deletes@, bm.deletes@, c)
            ||| !foldable(bm.blobs@[at_ as int].frame, b0.forest().blobs[c], b0.fork_barrier)
        } by {
            let x = choose|x: int| 0 <= x < kids.len() && (#[trigger] kids[x]) is Some && refers(kids[x]->0, c);
            assert(x < lo);
        }
    }
    MergeStep { slot, error: None, tree: Ghost(tc) }
}

/// No edit at all.
proof fn lemma_edits_refl(c: Seq<Option<Node>>, t: Art)
    ensures
        edits(c, t, c, t),
{
}

/// Folding children in changes nothing for any key.
proof fn lemma_inlined(a: Forest, g: BlobGuid, f: BlobFrame)
    requires
        a.linked(),
        a.has(g),
        f.wf(a.base[g]),
        forall|key: Seq<u8>| a.below(g, key) ==> inlined(a, a.route(g, key), #[trigger] a.with(g, f).route(g, key), key),
    ensures
        reshaped(a, a.with(g, f), g),
{
    let b = a.with(g, f);
    assert forall|h: BlobGuid, key: Seq<u8>| b.has(h) && b.below(h, key) implies #[trigger] b.edge_ok(h, key) by {
        assert(a.has(h));
        assert(a.edge_ok(h, key));
        if h == g {
            assert(inlined(a, a.route(g, key), b.route(g, key), key));
            if b.route(g, key) != a.route(g, key) {
                let c = a.route(g, key)->guid;
                assert(a.edge_ok(c, key));
            }
        } else {
            assert(b.route(h, key) == a.route(h, key));
        }
    }
    assert forall|h: BlobGuid| #[trigger] b.has(h) implies b.blobs[h].wf(b.base[h]) by {
        assert(a.has(h));
    }
    assert forall|h: BlobGuid, key: Seq<u8>| a.has(h) && a.below(h, key) implies #[trigger] b.find(h, key) == a.find(h, key) by {
        lemma_inlined_find(a, g, f, h, key);
    }
}

proof fn lemma_inlined_find(a: Forest, g: BlobGuid, f: BlobFrame, h: BlobGuid, key: Seq<u8>)
    requires
        a.linked(),
        a.has(g),
        a.has(h),
        a.below(h, key),
        forall|k: Seq<u8>| a.below(g, k) ==> inlined(a, a.route(g, k), #[trigger] a.with(g, f).route(g, k), k),
    ensures
        a.with(g, f).find(h, key) == a.find(h, key),
    decreases a.rank[h],
{
    let b = a.with(g, f);
    assert(a.edge_ok(h, key));
    if h != g {
        assert(b.route(h, key) == a.route(h, key));
    }
    match a.route(h, key) {
        Route::Crossing { guid: c, .. } => {
            lemma_inlined_find(a, g, f, c, key);
            if h == g && b.route(g, key) != a.route(g, key) {
                assert(a.edge_ok(c, key));
                assert(c != g);
                assert(b.route(c, key) == a.route(c, key));
                assert(b.route(g, key) == a.route(c, key));
            }
        },
        _ => {},
    }
}

/// A child that was handed over is no longer led to.
proof fn lemma_handed_not_referred(
    f: Forest,
    g: BlobGuid,
    cells: Seq<Option<Node>>,
    t: Art,
    u: Art,
    path: Seq<u8>,
    d1: Seq<(BlobGuid, u64)>,
    d2: Seq<(BlobGuid, u64)>,
    i: int,
)
    requires
        f.linked(),
        f.has(g),
        leads(f, g, t, path),
        rep(cells, t),
        folds_in(f, t, u, d1, d2),
        d1.len() <= i < d2.len(),
        refers(t, d2[i].0),
    ensures
        !refers(u, d2[i].0),
{
    let c = d2[i].0;
    assert(handed_over(d1, d2, c));
    if refers(u, c) {
        lemma_folds_refers(f, t, u, d1, d2, c);
        let h = choose|h: BlobGuid| #[trigger] refers(t, h) && refers(f.blobs[h].tree(), c);
        lemma_refers_base(f, g, cells, t, path, c);
        lemma_refers_base(f, g, cells, t, path, h);
        let hp = f.base[h];
        assert(f.blobs[h].wf(hp));
        assert(leads(f, h, f.blobs[h].tree(), hp)) by {
            assert(hp =~= hp.subrange(0, hp.len() as int));
        }
        lemma_refers_base(f, h, f.blobs[h].cells@, f.blobs[h].tree(), hp, c);
        let key = f.base[c];
        assert(key.is_prefix_of(key)) by {
            assert(key =~= key.subrange(0, key.len() as int));
        }
        assert(f.route(g, key) == (Route::Crossing { guid: c, depth: key.len() as int }));
        assert(f.route(g, key) == (Route::Crossing { guid: h, depth: hp.len() as int }));
    }
}

/// What a pass over the children of entry `parent` promises.
pub open spec fn merge_pass(b0: BufferManager, b: BufferManager, parent: int, r: Result<MergeStats>) -> bool {
    let f0 = b0.blobs@[parent].frame;
    let f = b.blobs@[parent].frame;
    let d0 = b0.deletes@;
    let d = b.deletes@;
    // But for what is handed over for deletion.
    &&& settled((BufferManager { deletes: b.deletes, ..b0 }), b, b0.blobs@[parent].guid)
    &&& d0.is_prefix_of(d)
    &&& rightly_folded(b0.forest(), f0, b0.fork_barrier, f0.tree(), d0, d)
    // The new tree: what was handed over stands in its place.
    &&& folds_in(b0.forest(), f0.tree(), f.tree(), d0, d)
    &&& blob_nodes(f.tree()) + (d.len() - d0.len()) == blob_nodes(f0.tree())
    &&& settles_up(f0, f, d.len() - d0.len())
    &&& f.header == (BlobHeader {
        root_slot: f.header.root_slot,
        space_used: f.header.space_used,
        num_slots: f.header.num_slots,
        num_ext_blobs: f.header.num_ext_blobs,
        dead_bytes: f.header.dead_bytes,
        routing_len: f.header.routing_len,
        ..f0.header
    })
    &&& forall|i: int| d0.len() <= i < d.len() ==> !refers(f.tree(), (#[trigger] d[i]).0)
    &&& match r {
        Ok(s) => {
            &&& s.inspected == capped(0, blob_nodes(f0.tree()))
            &&& s.merged == capped(0, (d.len() - d0.len()) as nat)
            &&& nothing_left(b0.forest(), f, b0.fork_barrier, f0.tree(), d0, d)
            &&& s.merged == 0 ==> f == f0
            &&& f.header.num_ext_blobs + (d.len() - d0.len()) == f0.header.num_ext_blobs
        },
        // A child that could be folded did not fit, for want of a slot.
        Err(e) => {
            &&& e is Alloc
            &&& overran(b0.forest(), f0, f, b0.fork_barrier, f0.tree())
            &&& slots_scarce(b0.forest(), f, f0.tree())
        },
    }
}

/// A tree without blob nodes leads nowhere.
proof fn lemma_no_blob_nodes(t: Art, c: BlobGuid)
    requires
        blob_nodes(t) == 0,
    ensures
        !refers(t, c),
    decreases t,
{
    match t {
        Art::Prefix { child, .. } => lemma_no_blob_nodes(*child, c),
        Art::Inner { kids, .. } => {
            assert forall|b: int| 0 <= b < kids.len() && (#[trigger] kids[b]) is Some implies !refers(kids[b]->0, c) by {
                lemma_blob_nodes_one(kids, b, kids.len() as int);
                lemma_no_blob_nodes(kids[b]->0, c);
            }
        },
        _ => {},
    }
}

proof fn lemma_blob_nodes_one(kids: Seq<Option<Art>>, b: int, n: int)
    requires
        0 <= b < n <= kids.len(),
        kids[b] is Some,
    ensures
        blob_nodes(kids[b]->0) <= blob_nodes_below(kids, n),
    decreases n,
{
    if b < n - 1 {
        lemma_blob_nodes_one(kids, b, n - 1);
    }
}

/// A pass that goes through folds back all that it can: afterwards no blob node
/// of the parent leads to a child without crossings and deleted records, seen
/// by no snapshot, whose used data bytes fit into what the parent has free less
/// the reserve of 4096 bytes, and whose nodes fit with the parent's. What else
/// the child's header says does not matter.
pub proof fn passes_fold_all_that_fits(b0: BufferManager, b: BufferManager, parent: int, s: MergeStats, c: BlobGuid)
    requires
        b0.wf(),
        0 <= parent < b0.blobs@.len(),
        merge_pass(b0, b, parent, Ok(s)),
        b0.has(c),
        ({
            let x = b0.forest().blobs[c].header;
            let p = b.blobs@[parent].frame.header;
            &&& x.num_ext_blobs == 0
            &&& x.tombstone_leaf_cnt == 0
            &&& b0.fork_barrier == 0 || x.created_epoch > b0.fork_barrier
            &&& x.space_used - 69632 <= 524288 - p.space_used - 4096
            &&& p.num_slots + x.num_slots <= 16384
        }),
    ensures
        !refers(b.blobs@[parent].frame.tree(), c),
{
    let f = b0.forest();
    let t = b0.blobs@[parent].frame.tree();
    let u = b.blobs@[parent].frame.tree();
    let (d0, d) = (b0.deletes@, b.deletes@);
    lemma_map_at(b0.blobs@, parent);
    let g = b0.blobs@[parent].guid;
    assert(f.has(g) && f.has(c));
    assert(f.blobs[c].wf(f.base[c]));
    assert(f.blobs[g].wf(f.base[g]));
    if refers(u, c) {
        lemma_folds_refers(f, t, u, d0, d, c);
        if refers(t, c) && !handed_over(d0, d, c) {
            assert(foldable(b.blobs@[parent].frame, f.blobs[c], b0.fork_barrier));
        } else {
            lemma_folds_refers_through(f, t, u, d0, d, c);
            let h = choose|h: BlobGuid| #[trigger] handed_over(d0, d, h) && refers(f.blobs[h].tree(), c);
            let i = choose|i: int| d0.len() <= i < d.len() && (#[trigger] d[i]).0 == h;
            assert(refers(t, h) && foldable(b0.blobs@[parent].frame, f.blobs[h], b0.fork_barrier));
            assert(leads(f, g, t, f.base[g])) by {
                assert(f.base[g].subrange(0, f.base[g].len() as int) =~= f.base[g]);
            }
            lemma_refers_base(f, g, b0.blobs@[parent].frame.cells@, t, f.base[g], h);
            assert(f.blobs[h].wf(f.base[h]));
            lemma_no_blob_nodes(f.blobs[h].tree(), c);
        }
    }
}

/// What was folded, could be: it has no crossings and deleted records, no
/// snapshot sees it, and its used data bytes and nodes fitted into the parent
/// as it was when the pass began.
pub proof fn passes_fold_nothing_else(b0: BufferManager, b: BufferManager, parent: int, r: Result<MergeStats>, c: BlobGuid)
    requires
        b0.wf(),
        0 <= parent < b0.blobs@.len(),
        merge_pass(b0, b, parent, r),
        handed_over(b0.deletes@, b.deletes@, c),
    ensures
        ({
            let x = b0.forest().blobs[c].header;
            let p = b0.blobs@[parent].frame.header;
            &&& refers(b0.blobs@[parent].frame.tree(), c)
            &&& x.num_ext_blobs == 0
            &&& x.tombstone_leaf_cnt == 0
            &&& b0.fork_barrier == 0 || x.created_epoch > b0.fork_barrier
            &&& x.space_used - 69632 <= 0 || x.space_used - 69632 <= 524288 - p.space_used - 4096
            &&& p.num_slots + x.num_slots <= 16384
        }),
{
}

/// Folding adds up: the children folded and the blob nodes left are the blob
/// nodes that were there, all of which were looked at; each child folded is
/// handed over once, as no user operation asked for it.
pub proof fn passes_add_up(b0: BufferManager, b: BufferManager, parent: int, s: MergeStats)
    requires
        merge_pass(b0, b, parent, Ok(s)),
        blob_nodes(b0.blobs@[parent].frame.tree()) <= u32::MAX,
    ensures
        s.inspected == blob_nodes(b0.blobs@[parent].frame.tree()),
        s.merged + blob_nodes(b.blobs@[parent].frame.tree()) == s.inspected,
        s.merged == b.deletes@.len() - b0.deletes@.len(),
        forall|i: int| b0.deletes@.len() <= i < b.deletes@.len() ==> (#[trigger] b.deletes@[i]).1 == 0,
{
}

/// Each fold leaves a blob node of 128 bytes behind, and any of them ends a
/// routed layout; nothing else is abandoned, no record is deleted, and the blob
/// keeps its name, its epoch and the count of its rebuilds.
pub proof fn passes_keep_the_books(b0: BufferManager, b: BufferManager, parent: int, r: Result<MergeStats>)
    requires
        merge_pass(b0, b, parent, r),
    ensures
        ({
            let p = b0.blobs@[parent].frame.header;
            let q = b.blobs@[parent].frame.header;
            let n = b.deletes@.len() - b0.deletes@.len();
            &&& p.dead_bytes + 128 * n <= u32::MAX ==> q.dead_bytes == p.dead_bytes + 128 * n
            &&& n > 0 ==> q.routing_len == 0
            &&& n == 0 ==> q.routing_len == p.routing_len
            &&& q.tombstone_leaf_cnt == p.tombstone_leaf_cnt
            &&& q.compact_times == p.compact_times
            &&& q.created_epoch == p.created_epoch
            &&& q.blob_guid == p.blob_guid
        }),
{
}

/// Folds every child of entry `parent` that can be folded back into it.
pub fn try_merge_children(bm: &mut BufferManager, parent: usize) -> (r: Result<MergeStats>)
    requires
        old(bm).wf(),
        parent < old(bm).blobs@.len(),
    ensures
        merge_pass(*old(bm), *final(bm), parent as int, r),
{
    let ghost b0 = *bm;
    let ghost g = bm.blobs@[parent as int].guid;
    let ghost a = bm.forest();
    let ghost f0 = bm.blobs@[parent as int].frame;
    let ghost t = f0.tree();
    let ghost path = a.base[g];
    proof {
        lemma_map_at(b0.blobs@, parent as int);
        assert(a.has(g));
        assert(f0.wf(path));
        assert(path.is_prefix_of(path)) by {
            assert(path.subrange(0, path.len() as int) =~= path);
        }
    }
    let mut stats = MergeStats { merged: 0, inspected: 0 };
    let root: u16 = bm.blobs[parent].frame.header.root_slot;
    let r = try_merge_subtree(bm, parent, root, &mut stats, Ghost(t), Ghost(path), Ghost(b0));
    let ghost b1 = *bm;
    if r.slot != root {
        bm.blobs[parent].frame.header.root_slot = r.slot;
    }
    let ghost f = bm.blobs@[parent as int].frame;
    bm.touch(parent);
    proof {
        let u = r.tree@;
        assert(f.cells@ == b1.blobs@[parent as int].frame.cells@);
        f.lemma_tree(u);
        assert(f.wf(path));
        let bd = BufferManager { deletes: bm.deletes, ..b0 };
        lemma_settled_remarked(bd, bd, g);
        assert(bm.blobs@ =~= bd.blobs@.update(
            parent as int,
            CachedBlob { frame: f, version: bm.edition, cached: true, ..bd.blobs@[parent as int] },
        ));
        lemma_rewritten(bd, *bm, parent as int, f);
        assert forall|key: Seq<u8>| a.below(g, key) implies inlined(a, a.route(g, key), #[trigger] a.with(g, f).route(g, key), key) by {
            assert(inlined(a, step(t, key, path.len() as int), step(u, key, path.len() as int), key));
        }
        lemma_inlined(a, g, f);
        lemma_settled_trans(bd, bd, *bm, g);
        if r.error is Some {
            lemma_overran(a, f0, f0, b1.blobs@[parent as int].frame, f, b0.fork_barrier, t, t);
            merge_pass_stops_for_slots_only(a, g, f, b0.fork_barrier);
        }
        assert forall|i: int| b0.deletes@.len() <= i < bm.deletes@.len() implies !refers(u, (#[trigger] bm.deletes@[i]).0) by {
            lemma_handed_not_referred(a, g, f0.cells@, t, u, path, b0.deletes@, bm.deletes@, i);
        }
    }
    match r.error {
        None => Ok(stats),
        Some(e) => Err(e),
    }
}

} // verus!
