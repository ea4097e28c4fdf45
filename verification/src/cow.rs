//! Forking blobs that a snapshot may see.
//!
//! Before a write goes into a blob that a live snapshot may still read, the
//! blob is copied under a fresh name and the blob node that led to it is led
//! to the copy, so that the snapshot keeps the old image. Without a live
//! snapshot the barrier is zero and nothing is copied.
use vstd::prelude::*;

use crate::art::{at, blob_nodes, dead, keyed, lemma_blob_nodes_update, owns, rep, sep, slot_of, step, Art, Route};
use crate::errors::{Error, Result};
use crate::forest::{forked, lemma_forked};
use crate::frame::{BlobFrame, BlobHeader};
use crate::insert::{blob_at, copy_bytes, lemma_ok_after_set};
use crate::key::matches_at;
use crate::layout::{BlobGuid, BlobNode, Node};
use crate::node::{kid, kid_update};
use crate::store::{
    copy_frame, draws, is_shared, lemma_map_at, lemma_marked_notes, lemma_marked_pushed, lemma_marked_trans, lemma_rewritten, lemma_settled_drawn,
    lemma_settled_trans, lemma_versioned_trans, name_free, same_node, settled,
    marked, BufferManager, CachedBlob,
};
use crate::writers::{edits, lemma_replug_inner, lemma_replug_prefix, with_kid};

verus! {

/// The branch that node `s` lies below.
pub open spec fn kid_owning(kids: Seq<Option<Art>>, s: int) -> int {
    choose|b: int| 0 <= b < kids.len() && (#[trigger] kids[b]) is Some && owns(kids[b]->0, s)
}

/// `t` with blob node `s` led to blob `n`.
pub open spec fn renamed(t: Art, s: int, n: BlobGuid) -> Art
    decreases t,
{
    match t {
        Art::Blob { slot, bytes, guid } => if slot == s {
            Art::Blob { slot, bytes, guid: n }
        } else {
            t
        },
        Art::Prefix { slot, bytes, child } => Art::Prefix { slot, bytes, child: Box::new(renamed(*child, s, n)) },
        Art::Inner { kids, .. } => {
            let b = kid_owning(kids, s);
            if 0 <= b < kids.len() && kids[b] is Some {
                with_kid(t, b as u8, renamed(kids[b]->0, s, n))
            } else {
                t
            }
        },
        _ => t,
    }
}

/// Renaming what a blob node leads to keeps their number.
proof fn lemma_renamed_blobs(c: Seq<Option<Node>>, t: Art, s: int, n: BlobGuid)
    requires
        rep(c, t),
    ensures
        blob_nodes(renamed(t, s, n)) == blob_nodes(t),
    decreases t,
{
    match t {
        Art::Prefix { child, .. } => lemma_renamed_blobs(c, *child, s, n),
        Art::Inner { kids, .. } => {
            let b = kid_owning(kids, s);
            if 0 <= b < kids.len() && kids[b] is Some {
                lemma_renamed_blobs(c, kids[b]->0, s, n);
                lemma_blob_nodes_update(kids, b, Some(renamed(kids[b]->0, s, n)), kids.len() as int);
            }
        },
        _ => {},
    }
}

/// Whether `c2` is `c` with blob node `s` led to blob `n`.
pub open spec fn readdressed(c: Seq<Option<Node>>, c2: Seq<Option<Node>>, s: int, n: BlobGuid) -> bool {
    &&& at(c, s) matches Some(Node::Blob(x)) && at(c2, s) matches Some(Node::Blob(y)) && y.bytes@ == x.bytes@ && y.child_blob_guid == n
    &&& forall|i: int| i != s ==> #[trigger] at(c2, i) == at(c, i)
}

/// Leading a blob node elsewhere changes the tree in that node only.
pub proof fn lemma_renamed(c: Seq<Option<Node>>, c2: Seq<Option<Node>>, t: Art, s: int, n: BlobGuid, path: Seq<u8>)
    requires
        rep(c, t),
        sep(t),
        keyed(t, path),
        owns(t, s),
        readdressed(c, c2, s, n),
    ensures
        rep(c2, renamed(t, s, n)),
        sep(renamed(t, s, n)),
        keyed(renamed(t, s, n), path),
        edits(c, t, c2, renamed(t, s, n)),
        slot_of(renamed(t, s, n)) == slot_of(t),
        dead(renamed(t, s, n)) == dead(t),
    decreases t,
{
    match t {
        Art::Prefix { bytes, child, .. } => {
            lemma_renamed(c, c2, *child, s, n, path + bytes);
            assert(owns(*child, s));
            assert(slot_of(t) != s);
            lemma_replug_prefix(c, c2, c2, t, renamed(*child, s, n), path);
        },
        Art::Inner { kids, .. } => {
            let b = kid_owning(kids, s);
            let k = kids[b]->0;
            assert(slot_of(t) != s);
            assert(kids[b] is Some && owns(k, s));
            lemma_renamed(c, c2, k, s, n, path.push(b as u8));
            let node = at(c, slot_of(t))->0;
            assert(kid_update(node, node, b, slot_of(renamed(k, s, n)) as u16)) by {
                assert(kid(node, b) == slot_of(k));
            }
            lemma_replug_inner(c, c2, c2, t, b as u8, renamed(k, s, n), path);
        },
        _ => {},
    }
}

/// Where keys lead once blob node `s` leads to blob `n`.
pub proof fn lemma_renamed_step(c: Seq<Option<Node>>, t: Art, s: int, n: BlobGuid, key: Seq<u8>, d: int)
    requires
        rep(c, t),
        sep(t),
        owns(t, s),
        at(c, s) is Some && at(c, s)->0 is Blob,
    ensures
        ({
            let was = step(t, key, d);
            let now = step(renamed(t, s, n), key, d);
            if was is Crossing && blob_at(t, key, d) == s {
                was->guid == at(c, s)->0->Blob_0.child_blob_guid && now == (Route::Crossing { guid: n, depth: was->depth })
            } else {
                now == was
            }
        }),
    decreases t,
{
    match t {
        Art::Prefix { bytes, child, .. } => {
            if matches_at(key, d, bytes) {
                lemma_renamed_step(c, *child, s, n, key, d + bytes.len());
                assert(step(renamed(t, s, n), key, d) == step(renamed(*child, s, n), key, d + bytes.len()));
            }
        },
        Art::Inner { kids, .. } => {
            let b = kid_owning(kids, s);
            assert(kids[b] is Some && owns(kids[b]->0, s));
            if 0 <= d < key.len() && key[d] < kids.len() && kids[key[d] as int] is Some {
                let x = key[d] as int;
                if x == b {
                    lemma_renamed_step(c, kids[b]->0, s, n, key, d + 1);
                    assert(step(renamed(t, s, n), key, d) == step(renamed(kids[b]->0, s, n), key, d + 1));
                } else {
                    assert(!(owns(kids[x]->0, s) && owns(kids[b]->0, s)));
                    if step(kids[x]->0, key, d + 1) is Crossing {
                        lemma_blob_at(c, kids[x]->0, key, d + 1);
                    }
                }
            }
        },
        _ => {},
    }
}

/// The blob node that a crossing goes through.
pub proof fn lemma_blob_at(c: Seq<Option<Node>>, t: Art, key: Seq<u8>, d: int)
    requires
        rep(c, t),
        step(t, key, d) is Crossing,
    ensures
        owns(t, blob_at(t, key, d)),
        at(c, blob_at(t, key, d)) matches Some(Node::Blob(b)) && b.child_blob_guid == step(t, key, d)->guid,
    decreases t,
{
    match t {
        Art::Prefix { bytes, child, .. } => {
            lemma_blob_at(c, *child, key, d + bytes.len());
        },
        Art::Inner { kids, .. } => {
            let x = key[d] as int;
            lemma_blob_at(c, kids[x]->0, key, d + 1);
            assert(owns(kids[x]->0, blob_at(t, key, d)));
        },
        _ => {},
    }
}

/// Leads the blob node at `slot` to blob `guid`.
pub fn repoint_blob_node(frame: &mut BlobFrame, slot: u16, guid: BlobGuid) -> (r: Result<()>)
    requires
        old(frame).ok(),
    ensures
        final(frame).ok(),
        final(frame).header == old(frame).header,
        final(frame).arena_end == old(frame).arena_end,
        match r {
            Ok(_) => readdressed(old(frame).cells@, final(frame).cells@, slot as int, guid),
            Err(e) => {
                &&& e is NodeCorrupt
                &&& *final(frame) == *old(frame)
                &&& !(at(old(frame).cells@, slot as int) matches Some(Node::Blob(_)))
            },
        },
{
    let ghost f0 = *frame;
    let bytes: Vec<u8> = match frame.node_at(slot) {
        Some(Node::Blob(b)) => copy_bytes(&b.bytes),
        _ => {
            return Err(Error::NodeCorrupt { context: "repoint_blob_node: not a blob node" });
        },
    };
    frame.set_node(slot, Node::Blob(BlobNode { bytes, child_blob_guid: guid }));
    proof {
        lemma_ok_after_set(f0, *frame, slot as int);
    }
    Ok(())
}

/// Whether a live snapshot may see entry `at`.
pub fn child_is_snapshot_shared(bm: &BufferManager, at: usize) -> (r: bool)
    requires
        at < bm.blobs@.len(),
    ensures
        r == is_shared(bm.blobs@[at as int].frame, bm.fork_barrier),
        !r <==> bm.fork_barrier == 0 || bm.fork_barrier < bm.blobs@[at as int].frame.header.created_epoch,
{
    bm.fork_barrier != 0 && bm.blobs[at].frame.header.created_epoch <= bm.fork_barrier
}

/// Whether `b` is a copy of `a` under another name.
pub open spec fn twin(a: BlobFrame, b: BlobFrame) -> bool {
    &&& b.arena_end == a.arena_end
    &&& b.header == (BlobHeader { blob_guid: b.header.blob_guid, created_epoch: b.header.created_epoch, ..a.header })
    &&& b.tree() == a.tree()
    &&& forall|i: int| same_node(#[trigger] at(a.cells@, i), at(b.cells@, i))
}

/// Copies entry `child` under a fresh name and leads blob node
/// `parent_slot` of entry `parent` to the copy, if a live snapshot may see
/// the child.
pub fn fork_child_if_shared(bm: &mut BufferManager, parent: usize, child: usize, parent_slot: u16, seq: u64) -> (r: Result<Option<usize>>)
    requires
        old(bm).wf(),
        parent < old(bm).blobs@.len(),
        child < old(bm).blobs@.len(),
        old(bm).rank@[old(bm).blobs@[child as int].guid] < old(bm).rank@[old(bm).blobs@[parent as int].guid],
        owns(old(bm).blobs@[parent as int].frame.tree(), parent_slot as int),
        at(old(bm).blobs@[parent as int].frame.cells@, parent_slot as int) matches Some(Node::Blob(b)) && b.child_blob_guid
            == old(bm).blobs@[child as int].guid,
    ensures
        settled(*old(bm), *final(bm), old(bm).blobs@[parent as int].guid),
        match r {
            Ok(None) => *final(bm) == *old(bm) && !is_shared(old(bm).blobs@[child as int].frame, old(bm).fork_barrier),
            Ok(Some(i)) => {
                let c = old(bm).blobs@[child as int].guid;
                let n = final(bm).blobs@[i as int].guid;
                let p = old(bm).blobs@[parent as int].guid;
                &&& final(bm).counters == old(bm).counters
                &&& is_shared(old(bm).blobs@[child as int].frame, old(bm).fork_barrier)
                &&& i == old(bm).blobs@.len() == final(bm).blobs@.len() - 1
                &&& !old(bm).has(n)
                &&& !is_shared(final(bm).blobs@[i as int].frame, final(bm).fork_barrier)
                &&& twin(old(bm).blobs@[child as int].frame, final(bm).blobs@[i as int].frame)
                &&& final(bm).blobs@[i as int].frame.header.created_epoch == old(bm).epoch
                &&& name_free(*old(bm))
                &&& draws(*old(bm), final(bm).source, n)
                &&& forall|h: BlobGuid| #[trigger] final(bm).has(h) ==> old(bm).has(h) || h == n
                &&& final(bm).base@[n] == old(bm).base@[c]
                &&& final(bm).blobs@[i as int].dirty == Some(seq)
                &&& marked(*old(bm), *final(bm), seq, Some(p))
                &&& final(bm).blobs@[parent as int].frame.header == old(bm).blobs@[parent as int].frame.header
                &&& forall|key: Seq<u8>, d: int|
                    step(old(bm).blobs@[parent as int].frame.tree(), key, d) is Crossing && #[trigger] blob_at(
                        old(bm).blobs@[parent as int].frame.tree(),
                        key,
                        d,
                    ) == parent_slot ==> final(bm).blobs@[parent as int].frame.route(key, d) == (Route::Crossing {
                        guid: n,
                        depth: step(old(bm).blobs@[parent as int].frame.tree(), key, d)->depth,
                    })
            },
            Err(e) => {
                &&& e is Internal
                &&& !name_free(*old(bm))
                &&& is_shared(old(bm).blobs@[child as int].frame, old(bm).fork_barrier)
                &&& *final(bm) == *old(bm)
            },
        },
{
    let ghost first = *bm;
    let ghost p = bm.blobs@[parent as int].guid;
    let ghost c = bm.blobs@[child as int].guid;
    proof {
        crate::forest::lemma_reshaped_refl(bm.forest(), p);
    }
    if !child_is_snapshot_shared(bm, child) {
        return Ok(None);
    }
    let guid: BlobGuid = match bm.draw_guid() {
        Ok(x) => x,
        Err(e) => {
            proof {
                lemma_settled_drawn(first, *bm, p);
            }
            return Err(e);
        },
    };
    let ghost before = *bm;
    let ghost a = bm.forest();
    let ghost fp = bm.blobs@[parent as int].frame;
    proof {
        lemma_settled_drawn(first, before, p);
        lemma_map_at(bm.blobs@, parent as int);
        lemma_map_at(bm.blobs@, child as int);
        assert(a.has(p) && a.has(c));
        assert(fp.wf(a.base[p]));
        assert(a.blobs[c].wf(a.base[c]));
    }
    let copy: BlobFrame = copy_frame(&bm.blobs[child].frame, guid, bm.epoch);
    let ghost copied = copy;
    proof {
        assert(copied.wf(a.base[c]));
    }
    match repoint_blob_node(&mut bm.blobs[parent].frame, parent_slot, guid) {
        Ok(_) => {},
        Err(e) => {
            assert(false);
            return Err(e);
        },
    }
    bm.touch(parent);
    let ghost mid = *bm;
    let ghost f = bm.blobs@[parent as int].frame;
    proof {
        assert(bm.blobs@ =~= before.blobs@.update(
            parent as int,
            CachedBlob { frame: f, version: bm.edition, cached: true, ..before.blobs@[parent as int] },
        ));
        lemma_rewritten(before, mid, parent as int, f);
        let t = fp.tree();
        let u = renamed(t, parent_slot as int, guid);
        lemma_renamed(fp.cells@, f.cells@, t, parent_slot as int, guid, a.base[p]);
        f.lemma_tree(u);
        lemma_renamed_blobs(fp.cells@, t, parent_slot as int, guid);
        assert(f.wf(a.base[p]));
        assert forall|key: Seq<u8>, d: int| #[trigger] f.route(key, d) == a.blobs[p].route(key, d) || (exists|e: int| a.blobs[p].route(key, d) == (
        Route::Crossing { guid: c, depth: e }) && f.route(key, d) == (Route::Crossing { guid, depth: e })) by {
            lemma_renamed_step(fp.cells@, t, parent_slot as int, guid, key, d);
            if f.route(key, d) != a.blobs[p].route(key, d) {
                let e = a.blobs[p].route(key, d)->depth;
                assert(a.blobs[p].route(key, d) == (Route::Crossing { guid: c, depth: e }));
            }
        }
        lemma_forked(a, p, f, c, guid, copied);
        lemma_map_at(mid.blobs@, parent as int);
    }
    let i: usize = bm.push_fork(guid, copy, seq, Ghost(before), Ghost(p), Ghost(f), Ghost(c));
    proof {
        lemma_versioned_trans(before, mid, *bm);
        lemma_settled_trans(first, before, *bm, p);
        let t = fp.tree();
        assert(bm.blobs@[parent as int] == mid.blobs@[parent as int]);
        lemma_marked_notes(first, before, seq, Some(p));
        lemma_marked_pushed(before, mid, *bm, parent as int, f, seq);
        lemma_marked_trans(first, before, *bm, seq, Some(p));
        assert forall|key: Seq<u8>, d: int| step(t, key, d) is Crossing && #[trigger] blob_at(t, key, d) == parent_slot implies bm.blobs@[parent as int].frame.route(
            key,
            d,
        ) == (Route::Crossing { guid, depth: step(t, key, d)->depth }) by {
            lemma_renamed_step(fp.cells@, t, parent_slot as int, guid, key, d);
        }
    }
    Ok(Some(i))
}

impl BufferManager {
    /// Adds the copy of blob `c` that blob `p` was led to.
    fn push_fork(
        &mut self,
        guid: BlobGuid,
        copy: BlobFrame,
        seq: u64,
        Ghost(before): Ghost<BufferManager>,
        Ghost(p): Ghost<BlobGuid>,
        Ghost(f): Ghost<BlobFrame>,
        Ghost(c): Ghost<BlobGuid>,
    ) -> (r: usize)
        requires
            before.wf(),
            crate::store::distinct(old(self).blobs@),
            old(self).forest() == before.forest().with(p, f),
            old(self).fork_barrier != 0 ==> old(self).fork_barrier < old(self).epoch,
            forall|i: int| 0 <= i < old(self).blobs@.len() ==> (#[trigger] old(self).blobs@[i]).frame.header.blob_guid == old(self).blobs@[i].guid,
            forall|i: int| 0 <= i < old(self).blobs@.len() ==> (#[trigger] old(self).blobs@[i]).version <= old(self).edition,
            !old(self).has(guid),
            copy.header.blob_guid == guid,
            forked(before.forest(), p, f, c, guid, copy).linked(),
        ensures
            r == old(self).blobs@.len(),
            final(self).wf(),
            final(self).blobs@ == old(self).blobs@.push(final(self).blobs@[r as int]),
            final(self).blobs@[r as int].guid == guid,
            final(self).blobs@[r as int].frame == copy,
            final(self).blobs@[r as int].dirty == Some(seq),
            final(self).forest() == forked(before.forest(), p, f, c, guid, copy),
            crate::store::versioned(*old(self), *final(self)),
            crate::store::same_rules(*old(self), *final(self)),
            final(self).source == old(self).source,
            final(self).compaction_candidates == old(self).compaction_candidates,
            final(self).merge_candidates == old(self).merge_candidates,
            final(self).counters == old(self).counters,
    {
        let ghost mid = *self;
        self.edition = self.edition.saturating_add(1);
        let i: usize = self.blobs.len();
        let blob = CachedBlob { guid, frame: copy, version: self.edition, dirty: Some(seq), cached: true, route_resident: false };
        let ghost b = blob;
        self.blobs.push(blob);
        let ghost next = forked(before.forest(), p, f, c, guid, copy);
        self.base = Ghost(next.base);
        self.rank = Ghost(next.rank);
        proof {
            crate::store::lemma_map_push(mid.blobs@, b);
            assert forall|k: int| 0 <= k < self.blobs@.len() implies (#[trigger] self.blobs@[k]).version <= self.edition && self.blobs@[k].frame.header.blob_guid
                == self.blobs@[k].guid by {
                if k < i {
                    assert(self.blobs@[k] == mid.blobs@[k]);
                }
            }
            assert forall|k: int| 0 <= k < mid.blobs@.len() implies (#[trigger] mid.blobs@[k]).guid == self.blobs@[k].guid && self.base@[mid.blobs@[k].guid]
                == mid.base@[mid.blobs@[k].guid] by {
                assert(self.blobs@[k] == mid.blobs@[k]);
                assert(mid.blobs@[k].guid != guid) by {
                    lemma_map_at(mid.blobs@, k);
                }
            }
            assert(self.forest() == next);
        }
        i
    }
}

} // verus!
