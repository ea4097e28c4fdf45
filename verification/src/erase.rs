//! Deleting a record from one blob.
//!
//! A delete marks the leaf and leaves the tree's shape alone; rebuilding the
//! blob drops marked leaves. Removing a subtree from an inner node, which a
//! walker needs once a subtree is gone, is here as well.
use vstd::prelude::*;

use crate::art::{at, blob_nodes, dead, keyed, lemma_blob_nodes_update, owns, rep, sep, slot_of, step, Art, Route};
use crate::errors::{Error, Result};
use crate::frame::{BlobFrame, BlobHeader};
use crate::insert::{beside, blob_at, copy_bytes, lemma_kid_beside, lemma_ok_after_set, lemma_rep_root, stays};
use crate::key::{matches_at, SearchKey};
use crate::layout::{node_size, node_type, Leaf, Node, NodeType, Prefix};
use crate::node::{
    degree, inner_find_child, inner_ok, inner_remove_child, inner_update_child, kid, kid_update,
    narrow_node16, narrow_node256, narrow_node48, next_inner_child_from, nonzero, nonzero_bytes,
};
use crate::types::{deletes, BlobCrossing, EraseCondition};
use crate::writers::{affords, behind, chain_cost, edits, failed, free, keeps, one, spent, write_prefix_chain, Cost};

verus! {

/// A four-way node is used again once this few children are left.
pub const SHRINK_NODE16_TO_NODE4_AT: u8 = 3;

/// A sixteen-way node is used again once this few children are left.
pub const SHRINK_NODE48_TO_NODE16_AT: u8 = 12;

/// A forty-eight-way node is used again once this few children are left.
pub const SHRINK_NODE256_TO_NODE48_AT: u8 = 37;

/// What an erase below a node means for its parent.
#[derive(Debug, Clone, Copy, PartialEq, Eq, Structural)]
pub enum EraseSignal {
    /// The reference still holds.
    Unchanged,
    /// Nothing is left below.
    SubtreeGone,
    /// Refer to this node instead.
    Replaced(u16),
}

/// A finished single-blob erase.
pub struct EraseReturn {
    pub signal: EraseSignal,
    /// A live record was deleted.
    pub mutated: bool,
    /// The subtree afterwards.
    pub tree: Ghost<Art>,
}

/// How far a single-blob erase got.
pub enum EraseStep {
    Done(EraseReturn),
    Crossing(BlobCrossing),
}

/// Whether `key` meets a blob node on its way from `t`, whatever the node's
/// inline prefix.
pub open spec fn meets_blob(t: Art, key: Seq<u8>, d: int) -> bool
    decreases t,
{
    match t {
        Art::Blob { .. } => true,
        Art::Prefix { bytes, child, .. } => matches_at(key, d, bytes) && meets_blob(*child, key, d + bytes.len()),
        Art::Inner { kids, .. } => 0 <= d < key.len() && key[d] < kids.len() && kids[key[d] as int] is Some
            && meets_blob(kids[key[d] as int]->0, key, d + 1),
        _ => false,
    }
}

/// `t` with the leaf that `key` ends at marked as deleted.
pub open spec fn tombstoned(t: Art, key: Seq<u8>, d: int) -> Art
    decreases t,
{
    match t {
        Art::Leaf { slot, key: k, value, seq, .. } => Art::Leaf { slot, key: k, value, seq, dead: true },
        Art::Prefix { slot, bytes, child } => Art::Prefix { slot, bytes, child: Box::new(tombstoned(*child, key, d + bytes.len())) },
        Art::Inner { slot, kids } => if 0 <= d < key.len() && key[d] < kids.len() && kids[key[d] as int] is Some {
            Art::Inner { slot, kids: kids.update(key[d] as int, Some(tombstoned(kids[key[d] as int]->0, key, d + 1))) }
        } else {
            t
        },
        _ => t,
    }
}

/// Marking a leaf keeps the number of blob nodes.
pub proof fn lemma_tombstoned_blobs(t: Art, key: Seq<u8>, d: int)
    ensures
        blob_nodes(tombstoned(t, key, d)) == blob_nodes(t),
    decreases t,
{
    match t {
        Art::Prefix { bytes, child, .. } => lemma_tombstoned_blobs(*child, key, d + bytes.len()),
        Art::Inner { kids, .. } => if 0 <= d < key.len() && key[d] < kids.len() && kids[key[d] as int] is Some {
            let b = key[d] as int;
            lemma_tombstoned_blobs(kids[b]->0, key, d + 1);
            lemma_blob_nodes_update(kids, b, Some(tombstoned(kids[b]->0, key, d + 1)), kids.len() as int);
        },
        _ => {},
    }
}

/// Whether `t2` in `f` is `t` in `f0` with the key's record deleted.
pub open spec fn erased(f0: BlobFrame, f: BlobFrame, t: Art, key: Seq<u8>, d: int, t2: Art) -> bool {
    &&& f.ok()
    &&& f.arena_end == f0.arena_end
    &&& f.header.tombstone_leaf_cnt == f0.header.tombstone_leaf_cnt + 1
    &&& f.header == (BlobHeader { tombstone_leaf_cnt: f.header.tombstone_leaf_cnt, ..f0.header })
    &&& dead(t2) == dead(t) + 1
    &&& slot_of(t2) == slot_of(t)
    &&& rep(f.cells@, t2)
    &&& sep(t2)
    &&& keyed(t2, key.take(d))
    &&& edits(f0.cells@, t, f.cells@, t2)
    &&& step(t2, key, d) is NotFound
    &&& forall|other: Seq<u8>| other != key ==> #[trigger] step(t2, other, d) == step(t, other, d)
    &&& t2 == tombstoned(t, key, d)
}

/// What a single-blob erase of `key` below `t` promises.
pub open spec fn erase_result(
    f0: BlobFrame,
    f: BlobFrame,
    t: Art,
    key: Seq<u8>,
    d: int,
    condition: EraseCondition,
    allow_crossing: bool,
    r: Result<EraseStep>,
) -> bool {
    let route = step(t, key, d);
    match r {
        Ok(EraseStep::Done(x)) => {
            &&& !(route is Crossing)
            &&& !(meets_blob(t, key, d) && !allow_crossing)
            &&& x.signal is Unchanged
            &&& x.mutated == deletes(route, condition)
            &&& !x.mutated ==> f == f0 && x.tree@ == t
            &&& x.mutated ==> erased(f0, f, t, key, d, x.tree@)
        },
        Ok(EraseStep::Crossing(x)) => {
            &&& allow_crossing
            &&& f == f0
            &&& route == (Route::Crossing { guid: x.child_guid, depth: x.child_depth as int })
            &&& x.child_depth <= key.len()
            &&& blob_at(t, key, d) == x.parent_slot
        },
        Err(e) => {
            &&& f == f0
            &&& e is NotYetImplemented
            &&& meets_blob(t, key, d)
            &&& !allow_crossing
        },
    }
}

/// Whether a single-blob erase may start at `slot`.
pub open spec fn erase_ready(f: BlobFrame, slot: u16, key: Seq<u8>, d: int, t: Art) -> bool {
    &&& f.ok()
    &&& slot_of(t) == slot
    &&& rep(f.cells@, t)
    &&& sep(t)
    &&& 0 <= d <= key.len() <= usize::MAX
    &&& keyed(t, key.take(d))
    &&& f.header.tombstone_leaf_cnt < u32::MAX
}

/// Nothing was deleted.
fn untouched(Ghost(t): Ghost<Art>) -> (r: Result<EraseStep>)
    ensures
        r matches Ok(EraseStep::Done(x)) && x.signal is Unchanged && !x.mutated && x.tree@ == t,
{
    Ok(EraseStep::Done(EraseReturn { signal: EraseSignal::Unchanged, mutated: false, tree: Ghost(t) }))
}

/// Deletes the key's record below the node at `slot`.
pub fn erase_at_step(
    frame: &mut BlobFrame,
    slot: u16,
    key: SearchKey,
    depth: usize,
    condition: EraseCondition,
    allow_crossing: bool,
    Ghost(t): Ghost<Art>,
) -> (r: Result<EraseStep>)
    requires
        erase_ready(*old(frame), slot, key@, depth as int, t),
    ensures
        erase_result(*old(frame), *final(frame), t, key@, depth as int, condition, allow_crossing, r),
    decreases t, 1int,
{
    proof {
        lemma_rep_root(frame.cells@, t);
    }
    match frame.node_at(slot) {
        Some(Node::EmptyRoot) => untouched(Ghost(t)),
        Some(Node::Leaf(_)) => erase_at_leaf(frame, slot, key, depth, condition, allow_crossing, Ghost(t)),
        Some(Node::Prefix(_)) => erase_at_prefix_step(frame, slot, key, depth, condition, allow_crossing, Ghost(t)),
        Some(Node::Blob(b)) => {
            if !allow_crossing {
                return Err(Error::NotYetImplemented("a blob crossing needs the buffer manager"));
            }
            if !key.range_eq(depth, &b.bytes) {
                return untouched(Ghost(t));
            }
            Ok(EraseStep::Crossing(BlobCrossing {
                child_guid: b.child_blob_guid,
                child_depth: depth + b.bytes.len(),
                parent_slot: slot,
            }))
        },
        Some(_) => erase_at_inner_step(frame, slot, key, depth, condition, allow_crossing, Ghost(t)),
        None => Err(Error::NodeCorrupt { context: "erase_at: undecodable node" }),
    }
}

/// Marks the leaf when it is live, has the key and meets the condition.
fn erase_at_leaf(
    frame: &mut BlobFrame,
    slot: u16,
    key: SearchKey,
    depth: usize,
    condition: EraseCondition,
    allow_crossing: bool,
    Ghost(t): Ghost<Art>,
) -> (r: Result<EraseStep>)
    requires
        erase_ready(*old(frame), slot, key@, depth as int, t),
        t is Leaf,
    ensures
        erase_result(*old(frame), *final(frame), t, key@, depth as int, condition, allow_crossing, r),
{
    let ghost f0 = *frame;
    let (marked, allowed) = match frame.node_at(slot) {
        Some(Node::Leaf(l)) => {
            let live: bool = key.eq_slice(&l.key) && !l.tombstone;
            let allowed: bool = live && match condition {
                EraseCondition::Always => true,
                EraseCondition::IfVersion(expected) => l.seq == expected,
            };
            if !allowed {
                return untouched(Ghost(t));
            }
            (Leaf { key: copy_bytes(&l.key), value: copy_bytes(&l.value), seq: l.seq, tombstone: true, key_fp: l.key_fp }, allowed)
        },
        _ => {
            return untouched(Ghost(t));
        },
    };
    frame.set_node(slot, Node::Leaf(marked));
    frame.header.tombstone_leaf_cnt = frame.header.tombstone_leaf_cnt.saturating_add(1);
    let ghost t2 = Art::Leaf { slot: slot as int, key: t->Leaf_key, value: t->Leaf_value, seq: t->Leaf_seq, dead: true };
    proof {
        lemma_ok_after_set(f0, *frame, slot as int);
        assert(rep(frame.cells@, t2));
    }
    Ok(EraseStep::Done(EraseReturn { signal: EraseSignal::Unchanged, mutated: allowed, tree: Ghost(t2) }))
}

/// Follows a prefix node.
fn erase_at_prefix_step(
    frame: &mut BlobFrame,
    slot: u16,
    key: SearchKey,
    depth: usize,
    condition: EraseCondition,
    allow_crossing: bool,
    Ghost(t): Ghost<Art>,
) -> (r: Result<EraseStep>)
    requires
        erase_ready(*old(frame), slot, key@, depth as int, t),
        t is Prefix,
    ensures
        erase_result(*old(frame), *final(frame), t, key@, depth as int, condition, allow_crossing, r),
    decreases t, 0int,
{
    let ghost f0 = *frame;
    let ghost k = *t->child;
    let (plen, child) = match frame.node_at(slot) {
        Some(Node::Prefix(p)) => {
            if !key.range_eq(depth, &p.bytes) {
                return untouched(Ghost(t));
            }
            (p.bytes.len(), p.child)
        },
        _ => {
            return untouched(Ghost(t));
        },
    };
    proof {
        let bytes = t->Prefix_bytes;
        assert(key@.take(depth as int) + bytes =~= key@.take(depth + plen)) by {
            assert forall|i: int| depth <= i < depth + plen implies bytes[i - depth] == key@[i] by {
                assert(key@.subrange(depth as int, depth + plen)[i - depth] == bytes[i - depth]);
            }
        }
    }
    let r = erase_at_step(frame, child, key, depth + plen, condition, allow_crossing, Ghost(k));
    match r {
        Ok(EraseStep::Done(x)) => {
            match x.signal {
                EraseSignal::Unchanged => {
                    if !x.mutated {
                        return untouched(Ghost(t));
                    }
                    let ghost k2 = x.tree@;
                    let ghost t2 = Art::Prefix { slot: slot as int, bytes: t->Prefix_bytes, child: Box::new(k2) };
                    proof {
                        assert(at(frame.cells@, slot as int) == at(f0.cells@, slot as int));
                        crate::writers::lemma_replug_prefix(f0.cells@, frame.cells@, frame.cells@, t, k2, key@.take(depth as int));
                        assert forall|other: Seq<u8>| other != key@ implies #[trigger] step(t2, other, depth as int) == step(t, other, depth as int) by {
                            assert(step(k2, other, depth + plen) == step(k, other, depth + plen));
                        }
                    }
                    Ok(EraseStep::Done(EraseReturn { signal: EraseSignal::Unchanged, mutated: true, tree: Ghost(t2) }))
                },
                EraseSignal::Replaced(new_child) => {
                    if let Some(Node::Prefix(p)) = frame.node_at(slot) {
                        let bytes: Vec<u8> = copy_bytes(&p.bytes);
                        frame.set_node(slot, Node::Prefix(Prefix { bytes, child: new_child }));
                    }
                    Ok(EraseStep::Done(EraseReturn { signal: EraseSignal::Unchanged, mutated: x.mutated, tree: Ghost(t) }))
                },
                EraseSignal::SubtreeGone => {
                    frame.note_abandoned(slot);
                    Ok(EraseStep::Done(EraseReturn { signal: EraseSignal::SubtreeGone, mutated: x.mutated, tree: Ghost(t) }))
                },
            }
        },
        other => other,
    }
}

/// Follows the key's byte below an inner node.
fn erase_at_inner_step(
    frame: &mut BlobFrame,
    slot: u16,
    key: SearchKey,
    depth: usize,
    condition: EraseCondition,
    allow_crossing: bool,
    Ghost(t): Ghost<Art>,
) -> (r: Result<EraseStep>)
    requires
        erase_ready(*old(frame), slot, key@, depth as int, t),
        t is Inner,
    ensures
        erase_result(*old(frame), *final(frame), t, key@, depth as int, condition, allow_crossing, r),
    decreases t, 0int,
{
    let ghost f0 = *frame;
    let ghost path = key@.take(depth as int);
    let byte: u8 = match key.byte_at(depth) {
        Some(b) => b,
        None => {
            return untouched(Ghost(t));
        },
    };
    let found: Option<u16> = match frame.node_at(slot) {
        Some(n) => inner_find_child(n, byte),
        None => None,
    };
    assert(t->kids[byte as int] is Some <==> found is Some);
    let child: u16 = match found {
        Some(c) => c,
        None => {
            return untouched(Ghost(t));
        },
    };
    let ghost k = t->kids[byte as int]->0;
    proof {
        assert(path.push(byte) =~= key@.take(depth + 1));
    }
    let r = erase_at_step(frame, child, key, depth + 1, condition, allow_crossing, Ghost(k));
    match r {
        Ok(EraseStep::Done(x)) => {
            match x.signal {
                EraseSignal::Unchanged => {
                    if !x.mutated {
                        return untouched(Ghost(t));
                    }
                    let ghost k2 = x.tree@;
                    let ghost t2 = crate::writers::with_kid(t, byte, k2);
                    proof {
                        assert(!owns(t->kids[byte as int]->0, slot as int));
                        assert(at(frame.cells@, slot as int) == at(f0.cells@, slot as int));
                        crate::writers::lemma_replug_inner(f0.cells@, frame.cells@, frame.cells@, t, byte, k2, path);
                        assert forall|other: Seq<u8>| other != key@ implies #[trigger] step(t2, other, depth as int) == step(t, other, depth as int) by {
                            assert(step(k2, other, depth + 1) == step(k, other, depth + 1));
                        }
                    }
                    Ok(EraseStep::Done(EraseReturn { signal: EraseSignal::Unchanged, mutated: true, tree: Ghost(t2) }))
                },
                EraseSignal::Replaced(new_child) => {
                    match &mut frame.cells[slot as usize] {
                        Some(n) => {
                            inner_update_child(n, byte, new_child);
                        },
                        None => {},
                    }
                    Ok(EraseStep::Done(EraseReturn { signal: EraseSignal::Unchanged, mutated: x.mutated, tree: Ghost(t) }))
                },
                EraseSignal::SubtreeGone => {
                    match inner_remove_child_and_collapse(frame, slot, byte, true, Ghost(t), Ghost(path)) {
                        Ok((signal, _)) => Ok(EraseStep::Done(EraseReturn { signal, mutated: x.mutated, tree: Ghost(t) })),
                        Err(e) => Err(e),
                    }
                },
            }
        },
        other => other,
    }
}

/// A copy of an inner node.
pub fn copy_inner(n: &Node) -> (r: Node)
    requires
        crate::node::is_inner(*n),
    ensures
        r == *n,
{
    match n {
        Node::Node4(m) => Node::Node4(*m),
        Node::Node16(m) => Node::Node16(*m),
        Node::Node48(m) => {
            let body = **m;
            Node::Node48(Box::new(body))
        },
        Node::Node256(m) => {
            let body = **m;
            Node::Node256(Box::new(body))
        },
        _ => Node::EmptyRoot,
    }
}

/// A count of zero means no nonzero entry.
pub proof fn lemma_none_nonzero(s: Seq<u16>, n: int)
    requires
        nonzero(s, n) == 0,
    ensures
        forall|i: int| 0 <= i < n ==> s[i] == 0,
    decreases n,
{
    if n > 0 {
        lemma_none_nonzero(s, n - 1);
    }
}

/// A count of zero means no nonzero byte.
pub proof fn lemma_none_nonzero_bytes(s: Seq<u8>, n: int)
    requires
        nonzero_bytes(s, n) == 0,
    ensures
        forall|i: int| 0 <= i < n ==> s[i] == 0,
    decreases n,
{
    if n > 0 {
        lemma_none_nonzero_bytes(s, n - 1);
    }
}

/// An inner node has no children exactly when its degree is zero, and one
/// child only when its degree is one.
pub proof fn lemma_degree(n: Node)
    requires
        inner_ok(n),
    ensures
        degree(n) == 0 <==> forall|x: int| 0 <= x < 256 ==> #[trigger] kid(n, x) == 0,
        degree(n) == 1 ==> forall|x: int, y: int|
            0 <= x < 256 && 0 <= y < 256 && #[trigger] kid(n, x) != 0 && #[trigger] kid(n, y) != 0 ==> x == y,
{
    match n {
        Node::Node4(m) => lemma_degree_list(n, m.keys@, m.children@, m.count as int),
        Node::Node16(m) => lemma_degree_list(n, m.keys@, m.children@, m.count as int),
        Node::Node48(m) => {
            if degree(n) == 0 {
                lemma_none_nonzero_bytes(m.index@, 256);
            } else if forall|x: int| 0 <= x < 256 ==> #[trigger] kid(n, x) == 0 {
                assert forall|x: int| 0 <= x < 256 implies m.index@[x] == 0 by {
                    assert(kid(n, x) == 0);
                }
                crate::node::lemma_bytes_zero(m.index@, 256);
            }
            if degree(n) == 1 {
                assert forall|x: int, y: int|
                    0 <= x < 256 && 0 <= y < 256 && #[trigger] kid(n, x) != 0 && #[trigger] kid(n, y) != 0 implies x == y by {
                    crate::node::lemma_bytes_update(m.index@, 256, x, 0);
                    let s2 = m.index@.update(x, 0);
                    lemma_none_nonzero_bytes(s2, 256);
                    assert(s2[y] == 0);
                }
            }
        },
        Node::Node256(m) => {
            if degree(n) == 0 {
                lemma_none_nonzero(m.children@, 256);
            } else if forall|x: int| 0 <= x < 256 ==> #[trigger] kid(n, x) == 0 {
                assert forall|x: int| 0 <= x < 256 implies m.children@[x] == 0 by {
                    assert(kid(n, x) == 0);
                }
                crate::node::lemma_nonzero_zero(m.children@, 256);
            }
            if degree(n) == 1 {
                assert forall|x: int, y: int|
                    0 <= x < 256 && 0 <= y < 256 && #[trigger] kid(n, x) != 0 && #[trigger] kid(n, y) != 0 implies x == y by {
                    crate::node::lemma_nonzero_update(m.children@, 256, x, 0);
                    let s2 = m.children@.update(x, 0);
                    lemma_none_nonzero(s2, 256);
                    assert(s2[y] == 0);
                }
            }
        },
        _ => {},
    }
}

proof fn lemma_degree_list(n: Node, keys: Seq<u8>, children: Seq<u16>, count: int)
    requires
        crate::node::list_ok(keys, children, count),
        degree(n) == count,
        forall|x: int| 0 <= x < 256 ==> #[trigger] kid(n, x) == crate::node::list_kid(keys, children, count, x as u8),
    ensures
        degree(n) == 0 <==> forall|x: int| 0 <= x < 256 ==> #[trigger] kid(n, x) == 0,
        degree(n) == 1 ==> forall|x: int, y: int|
            0 <= x < 256 && 0 <= y < 256 && #[trigger] kid(n, x) != 0 && #[trigger] kid(n, y) != 0 ==> x == y,
{
    if count > 0 {
        crate::node::lemma_list_at(keys, children, count, 0);
        assert(kid(n, keys[0] as int) != 0);
    }
    if count == 1 {
        assert forall|x: int| 0 <= x < 256 && #[trigger] kid(n, x) != 0 implies x == keys[0] by {
            crate::node::lemma_list_absent(keys, children, count, x as u8);
        }
    }
}

/// What removing a child from `n` allocates, where a node may move to a
/// smaller layout if `shrink`.
pub open spec fn collapse_cost(n: Node, shrink: bool) -> Cost {
    let left = degree(n) - 1;
    if left == 0 {
        free()
    } else if left == 1 {
        chain_cost(1)
    } else if !shrink {
        free()
    } else {
        match n {
            Node::Node16(_) => if left <= SHRINK_NODE16_TO_NODE4_AT { one(16) } else { free() },
            Node::Node48(_) => if left <= SHRINK_NODE48_TO_NODE16_AT { one(56) } else { free() },
            Node::Node256(_) => if left <= SHRINK_NODE256_TO_NODE48_AT { one(360) } else { free() },
            _ => free(),
        }
    }
}

/// The layout of `n` once a child is removed and more than one is left.
pub open spec fn kept_layout(n: Node, shrink: bool) -> NodeType {
    let left = degree(n) - 1;
    match n {
        _ if !shrink => node_type(n),
        Node::Node16(_) if left <= SHRINK_NODE16_TO_NODE4_AT => NodeType::Node4,
        Node::Node48(_) if left <= SHRINK_NODE48_TO_NODE16_AT => NodeType::Node16,
        Node::Node256(_) if left <= SHRINK_NODE256_TO_NODE48_AT => NodeType::Node48,
        _ => node_type(n),
    }
}

/// Whether `t2` is what removing the subtree on `byte` from the inner tree
/// `t` with node `n` leaves: a prefix over a lone subtree, or the others below
/// the layout they are kept in.
pub open spec fn collapsed(t: Art, n: Node, byte: u8, t2: Art, c2: Seq<Option<Node>>, shrink: bool) -> bool {
    if degree(n) == 2 {
        exists|b: int| 0 <= b < 256 && b != byte && (#[trigger] t->kids[b]) is Some && t2 == (Art::Prefix {
            slot: slot_of(t2),
            bytes: seq![b as u8],
            child: Box::new(t->kids[b]->0),
        })
    } else {
        &&& t2 == without_kid(t, slot_of(t2), byte)
        &&& at(c2, slot_of(t2)) matches Some(m) && node_type(m) == kept_layout(n, shrink)
    }
}

/// The tree `t` without its subtree on `b`.
pub open spec fn without_kid(t: Art, slot: int, b: u8) -> Art {
    Art::Inner { slot, kids: t->kids.update(b as int, None) }
}

/// Removes the child on `byte` from the inner node at `slot`. A node left
/// without children is gone; one left with a single child becomes a prefix
/// holding that child's byte, which keeps every depth below valid; one that
/// fits a smaller layout with room to spare moves to it if `shrink`; any other
/// is rewritten in place. A byte without a child is refused.
pub fn inner_remove_child_and_collapse(
    frame: &mut BlobFrame,
    slot: u16,
    byte: u8,
    shrink: bool,
    Ghost(t): Ghost<Art>,
    Ghost(path): Ghost<Seq<u8>>,
) -> (r: Result<(EraseSignal, Ghost<Art>)>)
    requires
        old(frame).ok(),
        t is Inner,
        slot_of(t) == slot,
        rep(old(frame).cells@, t),
        sep(t),
        keyed(t, path),
    ensures
        ({
            let n = at(old(frame).cells@, slot as int)->0;
            match r {
                Ok((signal, g)) => {
                    let t2 = g@;
                    &&& t->kids[byte as int] is Some
                    &&& affords(*old(frame), collapse_cost(n, shrink))
                    &&& final(frame).ok()
                    &&& final(frame).arena_end == old(frame).arena_end
                    &&& final(frame).header.space_used == old(frame).header.space_used + collapse_cost(n, shrink).bytes
                    &&& final(frame).header.num_slots == old(frame).header.num_slots + collapse_cost(n, shrink).nodes
                    &&& final(frame).header == (BlobHeader {
                        space_used: final(frame).header.space_used,
                        num_slots: final(frame).header.num_slots,
                        dead_bytes: final(frame).header.dead_bytes,
                        ..old(frame).header
                    })
                    &&& signal is SubtreeGone <==> (forall|b: int| 0 <= b < 256 && b != byte ==> (#[trigger] t->kids[b]) is None)
                    &&& signal is SubtreeGone ==> final(frame).cells@ == old(frame).cells@ && collapse_cost(n, shrink) == free()
                    &&& signal is Unchanged <==> degree(n) > 2 && kept_layout(n, shrink) == node_type(n)
                    &&& signal is Unchanged ==> slot_of(t2) == slot && final(frame).header.dead_bytes == old(frame).header.dead_bytes
                    &&& !(signal is Unchanged) ==> final(frame).header.dead_bytes == (if old(frame).header.dead_bytes + node_size(n) <= u32::MAX {
                        old(frame).header.dead_bytes + node_size(n)
                    } else {
                        u32::MAX as int
                    })
                    &&& signal matches EraseSignal::Replaced(s) ==> slot_of(t2) == s
                    &&& !(signal is SubtreeGone) ==> {
                        &&& collapsed(t, n, byte, t2, final(frame).cells@, shrink)
                        &&& rep(final(frame).cells@, t2)
                        &&& sep(t2)
                        &&& keyed(t2, path)
                        &&& edits(old(frame).cells@, t, final(frame).cells@, t2)
                        &&& beside(old(frame).cells@, final(frame).cells@, t->kids, byte as int)
                        &&& dead(t2) == dead(t) - dead(t->kids[byte as int]->0)
                        &&& forall|key: Seq<u8>, d: int| #[trigger] step(t2, key, d) == (
                            if 0 <= d < key.len() && key[d] == byte {
                                Route::NotFound
                            } else {
                                step(t, key, d)
                            })
                    }
                },
                Err(e) => if t->kids[byte as int] is None {
                    e is NodeCorrupt && *final(frame) == *old(frame)
                } else {
                    &&& failed(*old(frame), *final(frame))
                    &&& e is Alloc
                    &&& !affords(*old(frame), collapse_cost(n, shrink))
                    &&& exists|b: int| 0 <= b < 256 && b != byte && (#[trigger] t->kids[b]) is Some
                },
            }
        }),
{
    let ghost f0 = *frame;
    let ghost c0 = frame.cells@;
    let ghost n0 = at(c0, slot as int)->0;
    let ghost kids = t->kids;
    assert(kids[byte as int] is Some <==> kid(n0, byte as int) != 0);
    let mut n: Node = match frame.node_at(slot) {
        Some(m) => if inner_find_child(m, byte).is_none() {
            return Err(Error::NodeCorrupt { context: "inner_remove_child_and_collapse: byte not present" });
        } else {
            copy_inner(m)
        },
        None => Node::EmptyRoot,
    };
    inner_remove_child(&mut n, byte);
    let ghost n1 = n;
    proof {
        lemma_degree(n1);
        assert forall|x: int| 0 <= x < 256 implies (#[trigger] kids[x] is Some && x != byte <==> kid(n1, x) != 0) by {
            assert(kid(n1, x) == (if x == byte { 0u16 } else { kid(n0, x) }));
        }
    }
    let first: Option<(u8, u16, u16)> = next_inner_child_from(&n, 0);
    let (lone_byte, lone_child) = match first {
        None => {
            assert forall|b: int| 0 <= b < 256 && b != byte implies (#[trigger] kids[b]) is None by {
                assert(kid(n1, b) == 0);
            }
            assert(degree(n1) == 0);
            frame.note_abandoned(slot);
            return Ok((EraseSignal::SubtreeGone, Ghost(t)));
        },
        Some((b, c, _)) => (b, c),
    };
    assert(kid(n1, lone_byte as int) != 0);
    assert(kids[lone_byte as int] is Some && lone_byte != byte);
    let count: u16 = children_of(&n);
    if count == 1 {
        let ghost lone = kids[lone_byte as int]->0;
        let run: [u8; 1] = [lone_byte];
        proof {
            assert(kid(n1, lone_byte as int) == kid(n0, lone_byte as int));
            assert(rep(c0, lone));
            assert(sep(lone));
        }
        let out = write_prefix_chain(frame, &run, lone_child, Ghost(lone));
        return match out {
            Ok((s, g)) => {
                let ghost t2 = g@;
                proof {
                    assert(at(frame.cells@, slot as int) == at(c0, slot as int));
                    assert(run@ =~= seq![lone_byte]);
                    assert(keyed(t2, path) == keyed(lone, path + run@));
                    assert(path + run@ =~= path.push(lone_byte));
                    assert forall|key: Seq<u8>, d: int| #[trigger] step(t2, key, d) == (if 0 <= d < key.len() && key[d] == byte {
                        Route::NotFound
                    } else {
                        step(t, key, d)
                    }) by {
                        assert(step(t2, key, d) == behind(lone, run@, key, d));
                        crate::insert::lemma_matches_push(key, d, Seq::<u8>::empty(), lone_byte);
                        assert(run@ =~= Seq::<u8>::empty().push(lone_byte));
                        if 0 <= d < key.len() {
                            assert(key.subrange(d, d) =~= Seq::<u8>::empty());
                            if key[d] != lone_byte && key[d] != byte {
                                assert(kid(n1, key[d] as int) == 0);
                                assert(kids[key[d] as int] is None);
                            }
                        }
                    }
                    assert(edits(c0, t, frame.cells@, t2)) by {
                        assert forall|s2: int| #[trigger] owns(t2, s2) implies owns(t, s2) || at(c0, s2) is None by {
                            if owns(lone, s2) {
                                assert(kids[lone_byte as int] is Some);
                            }
                        }
                    }
                    assert forall|x: int| 0 <= x < 256 && x != byte && (#[trigger] kids[x]) is Some implies stays(c0, frame.cells@, kids[x]->0) by {
                        lemma_kid_beside(c0, t, x, x);
                    }
                    let none = kids.update(lone_byte as int, None).update(byte as int, None);
                    assert forall|b: int| 0 <= b < none.len() implies none[b] is None by {
                        if b != byte && b != lone_byte {
                            assert(kid(n1, b) == 0);
                            assert(kids[b] is None);
                        }
                    }
                    crate::art::lemma_dead_none(none, 256);
                    crate::art::lemma_dead_update(kids, lone_byte as int, None, 256);
                    crate::art::lemma_dead_update(kids.update(lone_byte as int, None), byte as int, None, 256);
                }
                frame.note_abandoned(slot);
                Ok((EraseSignal::Replaced(s), g))
            },
            Err(e) => Err(e),
        };
    }
    let smaller: Option<Node> = match &n {
        Node::Node16(m) => if shrink && m.count <= SHRINK_NODE16_TO_NODE4_AT {
            Some(Node::Node4(narrow_node16(m)))
        } else {
            None
        },
        Node::Node48(m) => if shrink && m.count <= SHRINK_NODE48_TO_NODE16_AT {
            Some(Node::Node16(narrow_node48(m)))
        } else {
            None
        },
        Node::Node256(m) => if shrink && m.count <= SHRINK_NODE256_TO_NODE48_AT {
            Some(Node::Node48(Box::new(narrow_node256(m))))
        } else {
            None
        },
        _ => None,
    };
    let not_gone: Ghost<bool> = Ghost(exists|b: int| 0 <= b < 256 && b != byte && (#[trigger] kids[b]) is Some);
    assert(not_gone@);
    match smaller {
        Some(m) => {
            let ghost body = m;
            let s: u16 = match frame.alloc_node(m) {
                Ok(s) => s,
                Err(e) => {
                    return Err(e);
                },
            };
            let ghost t2 = without_kid(t, s as int, byte);
            proof {
                assert forall|x: int| 0 <= x < 256 implies #[trigger] kid(body, x) == (if x == byte { 0u16 } else { kid(n0, x) }) by {
                    assert(kid(body, x) == kid(n1, x));
                }
                lemma_unplug(c0, frame.cells@, t, byte, s as int, path);
                assert forall|x: int| 0 <= x < 256 && x != byte && (#[trigger] kids[x]) is Some implies stays(c0, frame.cells@, kids[x]->0) by {
                    lemma_kid_beside(c0, t, x, x);
                }
            }
            frame.note_abandoned(slot);
            Ok((EraseSignal::Replaced(s), Ghost(t2)))
        },
        None => {
            frame.set_node(slot, n);
            let ghost t2 = without_kid(t, slot as int, byte);
            proof {
                lemma_ok_after_set(f0, *frame, slot as int);
                lemma_unplug(c0, frame.cells@, t, byte, slot as int, path);
                assert forall|x: int| 0 <= x < 256 && x != byte && (#[trigger] kids[x]) is Some implies stays(c0, frame.cells@, kids[x]->0) by {
                    lemma_kid_beside(c0, t, x, x);
                }
            }
            Ok((EraseSignal::Unchanged, Ghost(t2)))
        },
    }
}

/// Number of children of inner node `n`.
pub fn children_of(n: &Node) -> (r: u16)
    requires
        inner_ok(*n),
    ensures
        r == degree(*n),
{
    match n {
        Node::Node4(m) => m.count as u16,
        Node::Node16(m) => m.count as u16,
        Node::Node48(m) => m.count as u16,
        Node::Node256(m) => crate::node::count_children(&m.children),
        _ => 0,
    }
}

/// An inner node without one of its subtrees, at its own or at a fresh
/// number.
pub proof fn lemma_unplug(c0: Seq<Option<Node>>, c2: Seq<Option<Node>>, t: Art, b: u8, slot2: int, path: Seq<u8>)
    requires
        t is Inner,
        rep(c0, t),
        sep(t),
        keyed(t, path),
        t->kids[b as int] is Some,
        slot2 == slot_of(t) || (at(c0, slot2) is None && 0 < slot2 < 65536),
        at(c2, slot2) matches Some(n2) && inner_ok(n2) && kid_update(at(c0, slot_of(t))->0, n2, b as int, 0),
        forall|s: int| s != slot2 ==> #[trigger] at(c2, s) == at(c0, s),
    ensures
        ({
            let t2 = without_kid(t, slot2, b);
            &&& rep(c2, t2)
            &&& sep(t2)
            &&& keyed(t2, path)
            &&& edits(c0, t, c2, t2)
            &&& dead(t2) == dead(t) - dead(t->kids[b as int]->0)
            &&& forall|key: Seq<u8>, d: int| #[trigger] step(t2, key, d) == (if 0 <= d < key.len() && key[d] == b {
                Route::NotFound
            } else {
                step(t, key, d)
            })
        }),
{
    let slot = slot_of(t);
    let kids = t->kids;
    let kids2 = kids.update(b as int, None);
    let t2 = without_kid(t, slot2, b);
    let n = at(c0, slot)->0;
    let n2 = at(c2, slot2)->0;
    assert(kids2.len() == 256);
    assert forall|x: int| 0 <= x < 256 && (#[trigger] kids[x]) is Some implies rep(c2, kids[x]->0) && !owns(kids[x]->0, slot2) by {
        let kx = kids[x]->0;
        assert(rep(c0, kx));
        assert forall|s: int| #[trigger] owns(kx, s) implies at(c2, s) == at(c0, s) && s != slot2 by {
            crate::art::lemma_owns_present(c0, kx, s);
        }
        crate::art::lemma_rep_frame(c0, c2, kx);
    }
    assert forall|x: int| 0 <= x < 256 implies {
        &&& (#[trigger] kids2[x] is Some <==> kid(n2, x) != 0)
        &&& kids2[x] is Some ==> slot_of(kids2[x]->0) == kid(n2, x) && rep(c2, kids2[x]->0)
    } by {
        assert(kids[x] is Some <==> kid(n, x) != 0);
        assert(kid(n2, x) == (if x == b { 0u16 } else { kid(n, x) }));
    }
    assert(rep(c2, t2));
    assert(sep(t2)) by {
        assert forall|x: int| 0 <= x < kids2.len() && (#[trigger] kids2[x]) is Some implies !owns(kids2[x]->0, slot2) && sep(kids2[x]->0) by {
            assert(kids[x] is Some);
        }
        assert forall|x: int, y: int, s: int|
            0 <= x < kids2.len() && 0 <= y < kids2.len() && x != y && kids2[x] is Some && kids2[y] is Some
                implies !(#[trigger] owns(kids2[x]->0, s) && #[trigger] owns(kids2[y]->0, s)) by {
            assert(kids[x] is Some && kids[y] is Some);
            assert(!(owns(kids[x]->0, s) && owns(kids[y]->0, s)));
        }
    }
    assert(keyed(t2, path)) by {
        assert forall|x: int| 0 <= x < kids2.len() && (#[trigger] kids2[x]) is Some implies keyed(kids2[x]->0, path.push(x as u8)) by {
            assert(kids[x] is Some);
        }
    }
    assert(edits(c0, t, c2, t2)) by {
        assert forall|s: int| #[trigger] owns(t2, s) implies owns(t, s) || at(c0, s) is None by {
            if s != slot2 {
                let x = choose|x: int| 0 <= x < kids2.len() && (#[trigger] kids2[x]) is Some && owns(kids2[x]->0, s);
                assert(kids[x] is Some);
            }
        }
    }
    crate::art::lemma_dead_update(kids, b as int, None, 256);
}

/// Whether `f` is `f0` with the key's record deleted.
pub open spec fn removed(f0: BlobFrame, f: BlobFrame, key: Seq<u8>, d: int) -> bool {
    &&& f.route(key, d) is NotFound
    &&& forall|other: Seq<u8>| other != key ==> #[trigger] f.route(other, d) == f0.route(other, d)
}

/// The root to record after an erase: the old one, the one that replaced
/// it, or a fresh empty root when nothing is left.
pub fn resolve_new_root_after_erase(frame: &mut BlobFrame, root_slot: u16, signal: EraseSignal) -> (r: Result<u16>)
    requires
        old(frame).ok(),
    ensures
        match signal {
            EraseSignal::Unchanged => r == Ok::<u16, Error>(root_slot) && *final(frame) == *old(frame),
            EraseSignal::Replaced(s) => r == Ok::<u16, Error>(s) && *final(frame) == *old(frame),
            EraseSignal::SubtreeGone => match r {
                Ok(s) => {
                    &&& final(frame).ok()
                    &&& spent(*old(frame), *final(frame), one(8))
                    &&& affords(*old(frame), one(8))
                    &&& keeps(old(frame).cells@, final(frame).cells@)
                    &&& rep(final(frame).cells@, (Art::Empty { slot: s as int }))
                },
                Err(e) => e is Alloc && *final(frame) == *old(frame) && !affords(*old(frame), one(8)),
            },
        },
{
    match signal {
        EraseSignal::Unchanged => Ok(root_slot),
        EraseSignal::Replaced(s) => Ok(s),
        EraseSignal::SubtreeGone => frame.alloc_node(Node::EmptyRoot),
    }
}

/// Deletes the record of the exact bytes `key` from a blob that is a whole
/// tree.
pub fn erase(frame: &mut BlobFrame, root_slot: u16, key: &[u8]) -> (r: Result<crate::types::EraseOutcome>)
    requires
        old(frame).wf(Seq::empty()),
        root_slot == old(frame).header.root_slot,
    ensures
        final(frame).wf(Seq::empty()),
        match r {
            Ok(out) => {
                &&& !meets_blob(old(frame).tree(), key@, 0)
                &&& out.mutated == (old(frame).route(key@, 0) is Found)
                &&& out.root_dirty == out.mutated
                &&& out.mutated ==> removed(*old(frame), *final(frame), key@, 0)
                // The leaf is marked in place.
                &&& out.mutated ==> final(frame).tree() == tombstoned(old(frame).tree(), key@, 0)
                &&& out.mutated ==> final(frame).header == (BlobHeader {
                    tombstone_leaf_cnt: (old(frame).header.tombstone_leaf_cnt + 1) as u32,
                    ..old(frame).header
                })
                &&& !out.mutated ==> *final(frame) == *old(frame)
            },
            Err(e) => {
                &&& *final(frame) == *old(frame)
                &&& e is NotYetImplemented
                &&& meets_blob(old(frame).tree(), key@, 0)
            },
        },
{
    let ghost f0 = *frame;
    let ghost t = frame.tree();
    assert(key@.len() == key.len());
    assert(key@.take(0) =~= Seq::<u8>::empty());
    proof {
        crate::art::lemma_dead_bound(frame.cells@, t);
        if !meets_blob(t, key@, 0) {
            lemma_no_blob_no_crossing(t, key@, 0);
        }
    }
    match erase_at_step(frame, root_slot, SearchKey::exact(key), 0, EraseCondition::Always, false, Ghost(t)) {
        Ok(EraseStep::Done(x)) => {
            let root_dirty: bool = x.mutated || !matches!(x.signal, EraseSignal::Unchanged);
            let new_root: u16 = match resolve_new_root_after_erase(frame, root_slot, x.signal) {
                Ok(s) => s,
                Err(e) => {
                    return Err(e);
                },
            };
            frame.header.root_slot = new_root;
            proof {
                frame.lemma_tree(x.tree@);
                lemma_tombstoned_blobs(t, key@, 0);
            }
            Ok(crate::types::EraseOutcome { root_dirty, mutated: x.mutated })
        },
        Ok(EraseStep::Crossing(_)) => Err(Error::NotYetImplemented("a blob crossing needs the buffer manager")),
        Err(e) => Err(e),
    }
}

/// A key that meets no blob node crosses into no blob.
pub proof fn lemma_no_blob_no_crossing(t: Art, key: Seq<u8>, d: int)
    requires
        !meets_blob(t, key, d),
    ensures
        !(step(t, key, d) is Crossing),
    decreases t,
{
    match t {
        Art::Prefix { bytes, child, .. } => {
            if matches_at(key, d, bytes) {
                lemma_no_blob_no_crossing(*child, key, d + bytes.len());
            }
        },
        Art::Inner { kids, .. } => {
            if 0 <= d < key.len() && key[d] < kids.len() && kids[key[d] as int] is Some {
                lemma_no_blob_no_crossing(kids[key[d] as int]->0, key, d + 1);
            }
        },
        _ => {},
    }
}

} // verus!
