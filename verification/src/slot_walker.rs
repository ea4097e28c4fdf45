//! Reads and writes of exact keys below a node of one blob.
//!
//! The functions take the slot of the tree's root and give back the slot that
//! is the root afterwards; recording it is the caller's business. Deleted
//! records leave the tree at once, and nodes that lose their last child but
//! one are folded into prefixes. A key that meets another blob is refused.
use vstd::prelude::*;

use crate::art::{at, dead, holds, keyed, owns, rep, sep, slot_of, step, Art, Route};
use crate::erase::{collapse_cost, collapsed, inner_remove_child_and_collapse, lemma_no_blob_no_crossing, meets_blob, resolve_new_root_after_erase, EraseSignal};
use crate::errors::{Error, Result};
use crate::frame::{lemma_tree_at, rooted, tree_at, BlobFrame, BlobHeader};
use crate::insert::{
    beside, conflict, copy_bytes, forks, insert_at_step, lemma_kid_beside, lemma_ok_after_set, lemma_rep_root, put_cost, put_waste, stays,
    written,
};
use crate::key::{matches_at, SearchKey};
use crate::merge::lemma_longer_path;
use crate::migrate::clamp;
use crate::order::lemma_prefix_agree;
use crate::simd::lcp;
use crate::layout::{node_size, node_type, Node, Prefix};
use crate::node::{degree, inner_find_child, inner_update_child};
use crate::types::{InsertCondition, InsertStep};
use crate::writers::{affords, chained, edits, free, keeps, lemma_replug_inner, lemma_replug_prefix, one, with_kid, Cost};

verus! {

/// Where a lookup ended.
#[derive(Debug)]
pub enum LookupResult<'a> {
    /// The value of a live record.
    Found(&'a [u8]),
    /// No live record has the key.
    NotFound,
}

/// What an insert did.
#[derive(Debug)]
pub struct InsertOutcome {
    /// The root of the tree now.
    pub new_root_slot: u16,
    /// What the key's record held before.
    pub previous: Option<Vec<u8>>,
}

/// What an erase did.
#[derive(Debug)]
pub struct EraseOutcome {
    /// The root of the tree now.
    pub new_root_slot: u16,
    /// What the key's record held, if there was one.
    pub previous: Option<Vec<u8>>,
}

/// The leaf of `key` below `t`, deleted or not.
pub open spec fn leaf_of(t: Art, key: Seq<u8>, d: int) -> Option<Art>
    decreases t,
{
    match t {
        Art::Leaf { key: k, .. } => if k == key {
            Some(t)
        } else {
            None
        },
        Art::Prefix { bytes, child, .. } => if matches_at(key, d, bytes) {
            leaf_of(*child, key, d + bytes.len())
        } else {
            None
        },
        Art::Inner { kids, .. } => if 0 <= d < key.len() && key[d] < kids.len() && kids[key[d] as int] is Some {
            leaf_of(kids[key[d] as int]->0, key, d + 1)
        } else {
            None
        },
        _ => None,
    }
}

/// What the key's leaf holds, deleted or not.
pub open spec fn held(t: Art, key: Seq<u8>) -> Option<Seq<u8>> {
    match leaf_of(t, key, 0) {
        Some(l) => Some(l->value),
        None => None,
    }
}

/// The bytes of an optional value.
pub open spec fn value_of(v: Option<Vec<u8>>) -> Option<Seq<u8>> {
    match v {
        Some(x) => Some(x@),
        None => None,
    }
}

/// The leaf of `key`, or `None` for a key that meets a blob node.
fn find_leaf<'a>(frame: &'a BlobFrame, slot: u16, key: SearchKey, depth: usize, Ghost(t): Ghost<Art>) -> (r: Option<Option<&'a crate::layout::Leaf>>)
    requires
        rep(frame.cells@, t),
        slot_of(t) == slot,
        depth <= key@.len() <= usize::MAX,
    ensures
        match r {
            None => meets_blob(t, key@, depth as int),
            Some(None) => !meets_blob(t, key@, depth as int) && leaf_of(t, key@, depth as int) is None,
            Some(Some(l)) => {
                &&& !meets_blob(t, key@, depth as int)
                &&& leaf_of(t, key@, depth as int) matches Some(Art::Leaf { value, dead, seq, .. }) && value == l.value@ && dead == l.tombstone && seq == l.seq
            },
        },
        leaf_of(t, key@, depth as int) matches Some(l) ==> step(t, key@, depth as int) == (if l->dead {
            Route::NotFound
        } else {
            Route::Found { value: l->value, seq: l->seq }
        }),
        r matches Some(None) ==> step(t, key@, depth as int) is NotFound,
    decreases t,
{
    proof {
        lemma_rep_root(frame.cells@, t);
    }
    match frame.node_at(slot) {
        Some(Node::Leaf(l)) => if key.eq_slice(&l.key) {
            Some(Some(l))
        } else {
            Some(None)
        },
        Some(Node::Prefix(p)) => {
            if !key.range_eq(depth, &p.bytes) {
                return Some(None);
            }
            find_leaf(frame, p.child, key, depth + p.bytes.len(), Ghost(*t->child))
        },
        Some(Node::Blob(_)) => None,
        Some(Node::EmptyRoot) => Some(None),
        Some(n) => {
            let byte: u8 = match key.byte_at(depth) {
                Some(b) => b,
                None => {
                    return Some(None);
                },
            };
            let found: Option<u16> = inner_find_child(n, byte);
            assert(t->kids[byte as int] is Some <==> found is Some);
            match found {
                Some(child) => find_leaf(frame, child, key, depth + 1, Ghost(t->kids[byte as int]->0)),
                None => Some(None),
            }
        },
        None => Some(None),
    }
}

/// The value of `key` in the tree below `start_slot`.
pub fn lookup<'a>(frame: &'a BlobFrame, start_slot: u16, key: &[u8]) -> (r: Result<LookupResult<'a>>)
    requires
        rooted(frame.cells@, start_slot),
    ensures
        ({
            let t = tree_at(frame.cells@, start_slot);
            match r {
                Ok(LookupResult::Found(v)) => !meets_blob(t, key@, 0) && (step(t, key@, 0) matches Route::Found { value, .. } && value == v@),
                Ok(LookupResult::NotFound) => !meets_blob(t, key@, 0) && step(t, key@, 0) is NotFound,
                Err(e) => meets_blob(t, key@, 0) && e is NotYetImplemented,
            }
        }),
{
    let ghost t = tree_at(frame.cells@, start_slot);
    assert(key@.len() == key.len());
    match find_leaf(frame, start_slot, SearchKey::exact(key), 0, Ghost(t)) {
        None => Err(Error::NotYetImplemented("the key continues in another blob")),
        Some(Some(l)) => if l.tombstone {
            Ok(LookupResult::NotFound)
        } else {
            Ok(LookupResult::Found(l.value.as_slice()))
        },
        Some(None) => Ok(LookupResult::NotFound),
    }
}

/// Whether the tree below `slot` in `f` is the one below `slot0` in `f0` but
/// for what `key` leads to.
pub open spec fn retold(f0: BlobFrame, slot0: u16, f: BlobFrame, slot: u16, key: Seq<u8>) -> bool {
    let t0 = tree_at(f0.cells@, slot0);
    let t = tree_at(f.cells@, slot);
    &&& f.ok()
    &&& f.arena_end == f0.arena_end
    &&& slot_of(t) == slot
    &&& holds(f.cells@, t, Seq::empty())
    &&& f.header.tombstone_leaf_cnt - dead(t) == f0.header.tombstone_leaf_cnt - dead(t0)
    &&& f.header == (BlobHeader {
        space_used: f.header.space_used,
        num_slots: f.header.num_slots,
        dead_bytes: f.header.dead_bytes,
        tombstone_leaf_cnt: f.header.tombstone_leaf_cnt,
        ..f0.header
    })
    &&& forall|other: Seq<u8>| other != key ==> #[trigger] step(t, other, 0) == step(t0, other, 0)
}

/// Whether the tree below `slot` stands as it did.
pub open spec fn stands_as(f0: BlobFrame, f: BlobFrame, slot: u16) -> bool {
    &&& f.ok()
    &&& f.arena_end == f0.arena_end
    &&& keeps(f0.cells@, f.cells@)
    &&& tree_at(f.cells@, slot) == tree_at(f0.cells@, slot)
    &&& holds(f.cells@, tree_at(f.cells@, slot), Seq::empty())
    &&& f.header == (BlobHeader {
        space_used: f.header.space_used,
        num_slots: f.header.num_slots,
        dead_bytes: f.header.dead_bytes,
        ..f0.header
    })
}

/// A tree stands where all its nodes do.
proof fn lemma_stands_as(f0: BlobFrame, f: BlobFrame, slot: u16)
    requires
        rooted(f0.cells@, slot),
        holds(f0.cells@, tree_at(f0.cells@, slot), Seq::empty()),
        keeps(f0.cells@, f.cells@),
    ensures
        tree_at(f.cells@, slot) == tree_at(f0.cells@, slot),
        holds(f.cells@, tree_at(f.cells@, slot), Seq::empty()),
{
    let t = tree_at(f0.cells@, slot);
    assert forall|s: int| #[trigger] owns(t, s) implies at(f.cells@, s) == at(f0.cells@, s) by {
        crate::art::lemma_owns_present(f0.cells@, t, s);
    }
    crate::art::lemma_rep_frame(f0.cells@, f.cells@, t);
    lemma_tree_at(f.cells@, t);
}

/// Whether the tree below `slot` in `f` is the one below `slot0` in `f0` with
/// the record written to a leaf of its own.
pub open spec fn slot_put(f0: BlobFrame, slot0: u16, f: BlobFrame, slot: u16, key: Seq<u8>, value: Seq<u8>, seq: u64) -> bool {
    let t = tree_at(f0.cells@, slot0);
    let t2 = tree_at(f.cells@, slot);
    let k = put_cost(f0.cells@, t, key, 0, value.len() as int, true);
    &&& retold(f0, slot0, f, slot, key)
    &&& f.header.space_used == f0.header.space_used + k.bytes
    &&& f.header.num_slots == f0.header.num_slots + k.nodes
    &&& f.header.dead_bytes == clamp(f0.header.dead_bytes + put_waste(f0.cells@, t, key, 0, value.len() as int, true))
    &&& written(f0.cells@, t, f.cells@, t2, key, value, 0, seq)
    &&& step(t2, key, 0) == (Route::Found { value, seq })
}

/// Writes the record of `key` in the tree below `root_slot`.
pub fn insert(frame: &mut BlobFrame, root_slot: u16, key: &[u8], value: &[u8], seq: u64) -> (r: Result<InsertOutcome>)
    requires
        old(frame).ok(),
        rooted(old(frame).cells@, root_slot),
        holds(old(frame).cells@, tree_at(old(frame).cells@, root_slot), Seq::empty()),
        dead(tree_at(old(frame).cells@, root_slot)) <= old(frame).header.tombstone_leaf_cnt,
    ensures
        ({
            let t = tree_at(old(frame).cells@, root_slot);
            let fits = key@.len() <= 65535 && value@.len() <= 65535;
            let refused = conflict(t, key@, 0) || meets_blob(t, key@, 0);
            let k = put_cost(old(frame).cells@, t, key@, 0, value@.len() as int, true);
            match r {
                Ok(out) => {
                    &&& fits && !refused && affords(*old(frame), k)
                    &&& slot_put(*old(frame), root_slot, *final(frame), out.new_root_slot, key@, value@, seq)
                    &&& value_of(out.previous) == held(t, key@)
                },
                Err(e) => {
                    &&& stands_as(*old(frame), *final(frame), root_slot)
                    &&& e is KeyTooLong <==> key@.len() > 65535
                    &&& e is KeyTooLong ==> e == (Error::KeyTooLong { len: key@.len() as usize })
                    &&& e is ValueTooLong <==> key@.len() <= 65535 && value@.len() > 65535
                    &&& e is ValueTooLong ==> e == (Error::ValueTooLong { len: value@.len() as usize })
                    &&& !(e is Alloc) ==> *final(frame) == *old(frame)
                    &&& e is NotYetImplemented <==> fits && refused
                    &&& e is Alloc <==> fits && !refused && !affords(*old(frame), k)
                    &&& e is KeyTooLong || e is ValueTooLong || e is NotYetImplemented || e is Alloc
                },
            }
        }),
{
    let ghost f0 = *frame;
    let ghost t = tree_at(frame.cells@, root_slot);
    proof {
        lemma_stands_as(f0, f0, root_slot);
    }
    if key.len() > 65535 {
        return Err(Error::KeyTooLong { len: key.len() });
    }
    if value.len() > 65535 {
        return Err(Error::ValueTooLong { len: value.len() });
    }
    let search = SearchKey::exact(key);
    let previous: Option<Vec<u8>> = match find_leaf(frame, root_slot, search, 0, Ghost(t)) {
        None => {
            return Err(Error::NotYetImplemented("the key continues in another blob"));
        },
        Some(Some(l)) => Some(copy_bytes(&l.value)),
        Some(None) => None,
    };
    proof {
        lemma_no_blob_no_crossing(t, key@, 0);
        assert(key@.take(0) =~= Seq::<u8>::empty());
    }
    match insert_at_step(frame, root_slot, search, value, 0, seq, InsertCondition::Always, false, true, Ghost(t)) {
        Ok(InsertStep::Done(x)) => {
            proof {
                lemma_tree_at(frame.cells@, x.tree@);
            }
            Ok(InsertOutcome { new_root_slot: x.slot_after, previous })
        },
        Ok(InsertStep::Crossing(_)) => Err(Error::NotYetImplemented("the key continues in another blob")),
        Err(e) => {
            proof {
                lemma_stands_as(f0, *frame, root_slot);
            }
            Err(e)
        },
    }
}

/// How far an erase got.
struct CutStep {
    signal: EraseSignal,
    previous: Option<Vec<u8>>,
    /// The leaf removed was deleted already.
    was_dead: bool,
    tree: Ghost<Art>,
}

/// Whether only counters of `f0` differ in `f`, and every node stands.
spec fn kept_nodes(f0: BlobFrame, f: BlobFrame) -> bool {
    &&& f.ok()
    &&& f.arena_end == f0.arena_end
    &&& keeps(f0.cells@, f.cells@)
    &&& f.header == (BlobHeader {
        space_used: f.header.space_used,
        num_slots: f.header.num_slots,
        dead_bytes: f.header.dead_bytes,
        ..f0.header
    })
}

/// What an erase of `key` below `t` promises.
spec fn cut_result(f0: BlobFrame, f: BlobFrame, t: Art, key: Seq<u8>, d: int, r: Result<CutStep>) -> bool {
    let leaf = leaf_of(t, key, d);
    match r {
        Ok(x) => {
            &&& !meets_blob(t, key, d)
            &&& leaf is None ==> x.previous is None && x.signal is Unchanged && f == f0
            &&& leaf matches Some(l) ==> {
                &&& x.previous matches Some(v) && v@ == l->value
                &&& x.was_dead == l->dead
                &&& f.ok()
                &&& f.arena_end == f0.arena_end
                &&& f.header == (BlobHeader {
                    space_used: f.header.space_used,
                    num_slots: f.header.num_slots,
                    dead_bytes: f.header.dead_bytes,
                    ..f0.header
                })
                &&& f.header.dead_bytes == clamp(f0.header.dead_bytes + cut_waste(f0.cells@, t, key, d))
                &&& affords(f0, cut_cost(f0.cells@, t, key, d))
                &&& !vanishes(t, key, d) ==> f.header.space_used == f0.header.space_used + cut_cost(f0.cells@, t, key, d).bytes
                &&& !vanishes(t, key, d) ==> f.header.num_slots == f0.header.num_slots + cut_cost(f0.cells@, t, key, d).nodes
                &&& x.signal is SubtreeGone <==> vanishes(t, key, d)
                &&& x.signal is SubtreeGone ==> {
                    &&& f.cells@ == f0.cells@
                    &&& f.header.space_used == f0.header.space_used && f.header.num_slots == f0.header.num_slots
                    &&& dead(t) == (if x.was_dead {
                        1nat
                    } else {
                        0
                    })
                    &&& forall|other: Seq<u8>| other != key ==> #[trigger] step(t, other, d) is NotFound
                }
                &&& x.signal is Unchanged ==> slot_of(x.tree@) == slot_of(t)
                &&& x.signal matches EraseSignal::Replaced(s) ==> slot_of(x.tree@) == s
                &&& !(x.signal is SubtreeGone) ==> cut(f0, f, t, key, d, x.was_dead, x.tree@)
            }
        },
        Err(e) => {
            &&& kept_nodes(f0, f)
            &&& e is NotYetImplemented <==> meets_blob(t, key, d)
            &&& e is NotYetImplemented ==> f == f0
            &&& e is NotYetImplemented || (e is Alloc && leaf is Some && !vanishes(t, key, d) && !affords(f0, cut_cost(f0.cells@, t, key, d)))
        },
    }
}

/// Whether nothing is left of `t` without the leaf of `key`.
pub open spec fn vanishes(t: Art, key: Seq<u8>, d: int) -> bool
    decreases t,
{
    match t {
        Art::Leaf { key: k, .. } => k == key,
        Art::Prefix { bytes, child, .. } => vanishes(*child, key, d + bytes.len()),
        Art::Inner { kids, .. } => {
            &&& 0 <= d < key.len()
            &&& key[d] < kids.len()
            &&& kids[key[d] as int] is Some
            &&& vanishes(kids[key[d] as int]->0, key, d + 1)
            &&& forall|b: int| 0 <= b < 256 && b != key[d] ==> (#[trigger] kids[b]) is None
        },
        _ => false,
    }
}

/// What removing the leaf of `key` from `t` allocates, if something is left.
pub open spec fn cut_cost(c: Seq<Option<Node>>, t: Art, key: Seq<u8>, d: int) -> Cost
    decreases t,
{
    match t {
        Art::Prefix { bytes, child, .. } => cut_cost(c, *child, key, d + bytes.len()),
        Art::Inner { slot, kids } => if 0 <= d < key.len() && key[d] < kids.len() && kids[key[d] as int] is Some {
            if vanishes(kids[key[d] as int]->0, key, d + 1) {
                collapse_cost(at(c, slot)->0, false)
            } else {
                cut_cost(c, kids[key[d] as int]->0, key, d + 1)
            }
        } else {
            free()
        },
        _ => free(),
    }
}

/// Bytes of the nodes that removing the leaf of `key` from `t` abandons: the
/// leaf, the nodes above that it leaves nothing of, and one that becomes a
/// prefix over a lone child.
pub open spec fn cut_waste(c: Seq<Option<Node>>, t: Art, key: Seq<u8>, d: int) -> int
    decreases t,
{
    match t {
        Art::Leaf { slot, .. } => node_size(at(c, slot)->0),
        Art::Prefix { slot, bytes, child } => cut_waste(c, *child, key, d + bytes.len()) + (if vanishes(*child, key, d + bytes.len()) {
            node_size(at(c, slot)->0)
        } else {
            0
        }),
        Art::Inner { slot, kids } => if 0 <= d < key.len() && key[d] < kids.len() && kids[key[d] as int] is Some {
            let n = at(c, slot)->0;
            cut_waste(c, kids[key[d] as int]->0, key, d + 1) + (if vanishes(kids[key[d] as int]->0, key, d + 1) && degree(n) <= 2 {
                node_size(n)
            } else {
                0
            })
        } else {
            0
        },
        _ => 0,
    }
}

/// What removing the leaf of `key` from a whole tree allocates.
pub open spec fn erase_cost(c: Seq<Option<Node>>, t: Art, key: Seq<u8>) -> Cost {
    if vanishes(t, key, 0) {
        one(8)
    } else {
        cut_cost(c, t, key, 0)
    }
}

/// Whether `t2`, held in `c2`, is the tree `t`, held in `c`, without the leaf
/// of `key`: every node above stands in its layout, and one that loses a child
/// becomes a prefix over a lone one.
pub open spec fn pruned(c: Seq<Option<Node>>, t: Art, c2: Seq<Option<Node>>, t2: Art, key: Seq<u8>, d: int) -> bool
    decreases t,
{
    match t {
        Art::Prefix { slot, bytes, child } => {
            &&& t2 is Prefix
            &&& t2 == (Art::Prefix { slot, bytes, child: t2->child })
            &&& pruned(c, *child, c2, *t2->child, key, d + bytes.len())
        },
        Art::Inner { slot, kids } => {
            &&& 0 <= d < key.len()
            &&& key[d] < kids.len()
            &&& kids[key[d] as int] is Some
            &&& beside(c, c2, kids, key[d] as int)
            &&& if vanishes(kids[key[d] as int]->0, key, d + 1) {
                collapsed(t, at(c, slot)->0, key[d], t2, c2, false)
            } else {
                &&& t2 is Inner
                &&& t2->kids[key[d] as int] is Some
                &&& t2 == with_kid(t, key[d], t2->kids[key[d] as int]->0)
                &&& at(c2, slot) is Some && node_type(at(c2, slot)->0) == node_type(at(c, slot)->0)
                &&& pruned(c, kids[key[d] as int]->0, c2, t2->kids[key[d] as int]->0, key, d + 1)
            }
        },
        _ => false,
    }
}

/// A change of a node that neither tree has does not matter to them.
proof fn lemma_pruned_frame(c: Seq<Option<Node>>, t: Art, c1: Seq<Option<Node>>, c2: Seq<Option<Node>>, t2: Art, key: Seq<u8>, d: int)
    requires
        pruned(c, t, c1, t2, key, d),
        forall|s: int| #[trigger] owns(t, s) ==> at(c2, s) == at(c1, s),
        forall|s: int| #[trigger] owns(t2, s) ==> at(c2, s) == at(c1, s),
    ensures
        pruned(c, t, c2, t2, key, d),
    decreases t,
{
    match t {
        Art::Prefix { bytes, child, .. } => {
            assert forall|s: int| #[trigger] owns(*t2->child, s) implies at(c2, s) == at(c1, s) by {
                assert(owns(t2, s));
            }
            assert forall|s: int| #[trigger] owns(*child, s) implies at(c2, s) == at(c1, s) by {
                assert(owns(t, s));
            }
            lemma_pruned_frame(c, *child, c1, c2, *t2->child, key, d + bytes.len());
        },
        Art::Inner { slot, kids } => {
            assert(owns(t2, slot_of(t2)));
            assert forall|x: int| 0 <= x < kids.len() && x != key[d] && (#[trigger] kids[x]) is Some implies stays(c, c2, kids[x]->0) by {
                assert(stays(c, c1, kids[x]->0));
                assert forall|s: int| #[trigger] owns(kids[x]->0, s) implies at(c2, s) == at(c, s) by {
                    assert(kids[x] is Some && owns(kids[x]->0, s));
                    assert(owns(t, s));
                }
            }
            if !vanishes(kids[key[d] as int]->0, key, d + 1) {
                let k2 = t2->kids[key[d] as int]->0;
                assert forall|s: int| #[trigger] owns(k2, s) implies at(c2, s) == at(c1, s) by {
                    assert(owns(t2, s));
                }
                let k = kids[key[d] as int]->0;
                assert forall|s: int| #[trigger] owns(k, s) implies at(c2, s) == at(c1, s) by {
                    assert(kids[key[d] as int] is Some && owns(kids[key[d] as int]->0, s));
                    assert(owns(t, s));
                }
                lemma_pruned_frame(c, k, c1, c2, k2, key, d + 1);
            }
        },
        _ => {},
    }
}

/// Whether `t2` in `f` is `t` in `f0` without the leaf of `key`.
spec fn cut(f0: BlobFrame, f: BlobFrame, t: Art, key: Seq<u8>, d: int, was_dead: bool, t2: Art) -> bool {
    &&& rep(f.cells@, t2)
    &&& sep(t2)
    &&& keyed(t2, key.take(d))
    &&& edits(f0.cells@, t, f.cells@, t2)
    &&& pruned(f0.cells@, t, f.cells@, t2, key, d)
    &&& dead(t2) == dead(t) - (if was_dead {
        1int
    } else {
        0
    })
    &&& step(t2, key, d) is NotFound
    &&& forall|other: Seq<u8>| other != key ==> #[trigger] step(t2, other, d) == step(t, other, d)
}

/// Whether an erase may start at `slot`.
spec fn cut_ready(f: BlobFrame, slot: u16, key: Seq<u8>, d: int, t: Art) -> bool {
    &&& f.ok()
    &&& slot_of(t) == slot
    &&& rep(f.cells@, t)
    &&& sep(t)
    &&& 0 <= d <= key.len() <= usize::MAX
    &&& keyed(t, key.take(d))
}

fn no_leaf() -> (r: Result<CutStep>)
    ensures
        r matches Ok(x) && x.previous is None && x.signal is Unchanged,
{
    Ok(CutStep { signal: EraseSignal::Unchanged, previous: None, was_dead: false, tree: Ghost(Art::Empty { slot: 0 }) })
}

/// Removes the leaf of `key` below the node at `slot`.
fn erase_at(frame: &mut BlobFrame, slot: u16, key: SearchKey, depth: usize, Ghost(t): Ghost<Art>) -> (r: Result<CutStep>)
    requires
        cut_ready(*old(frame), slot, key@, depth as int, t),
    ensures
        cut_result(*old(frame), *final(frame), t, key@, depth as int, r),
    decreases t, 1int,
{
    proof {
        lemma_rep_root(frame.cells@, t);
    }
    match frame.node_at(slot) {
        Some(Node::EmptyRoot) => no_leaf(),
        Some(Node::Blob(_)) => Err(Error::NotYetImplemented("the key continues in another blob")),
        Some(Node::Leaf(l)) => {
            if !key.eq_slice(&l.key) {
                return no_leaf();
            }
            let value = copy_bytes(&l.value);
            let was_dead = l.tombstone;
            frame.note_abandoned(slot);
            Ok(CutStep { signal: EraseSignal::SubtreeGone, previous: Some(value), was_dead, tree: Ghost(t) })
        },
        Some(Node::Prefix(_)) => erase_at_prefix(frame, slot, key, depth, Ghost(t)),
        Some(_) => erase_at_inner(frame, slot, key, depth, Ghost(t)),
        None => no_leaf(),
    }
}

fn erase_at_prefix(frame: &mut BlobFrame, slot: u16, key: SearchKey, depth: usize, Ghost(t): Ghost<Art>) -> (r: Result<CutStep>)
    requires
        cut_ready(*old(frame), slot, key@, depth as int, t),
        t is Prefix,
    ensures
        cut_result(*old(frame), *final(frame), t, key@, depth as int, r),
    decreases t, 0int,
{
    let ghost f0 = *frame;
    let ghost k = *t->child;
    let ghost path = key@.take(depth as int);
    let (plen, child) = match frame.node_at(slot) {
        Some(Node::Prefix(p)) => {
            if !key.range_eq(depth, &p.bytes) {
                return no_leaf();
            }
            (p.bytes.len(), p.child)
        },
        _ => {
            return no_leaf();
        },
    };
    proof {
        let bytes = t->Prefix_bytes;
        assert(path + bytes =~= key@.take(depth + plen)) by {
            assert forall|i: int| depth <= i < depth + plen implies bytes[i - depth] == key@[i] by {
                assert(key@.subrange(depth as int, depth + plen)[i - depth] == bytes[i - depth]);
            }
        }
    }
    let x = match erase_at(frame, child, key, depth + plen, Ghost(k)) {
        Ok(x) => x,
        Err(e) => {
            return Err(e);
        },
    };
    if x.previous.is_none() {
        return no_leaf();
    }
    let ghost f1 = *frame;
    match x.signal {
        EraseSignal::SubtreeGone => {
            frame.note_abandoned(slot);
            proof {
                assert forall|other: Seq<u8>| other != key@ implies #[trigger] step(t, other, depth as int) is NotFound by {
                    assert(step(k, other, depth + plen) is NotFound);
                }
            }
            Ok(CutStep { signal: EraseSignal::SubtreeGone, previous: x.previous, was_dead: x.was_dead, tree: Ghost(t) })
        },
        EraseSignal::Unchanged => {
            let ghost k2 = x.tree@;
            let ghost t2 = Art::Prefix { slot: slot as int, bytes: t->Prefix_bytes, child: Box::new(k2) };
            proof {
                assert(at(frame.cells@, slot as int) == at(f0.cells@, slot as int));
                lemma_replug_prefix(f0.cells@, frame.cells@, frame.cells@, t, k2, path);
                assert forall|other: Seq<u8>| other != key@ implies #[trigger] step(t2, other, depth as int) == step(t, other, depth as int) by {
                    assert(step(k2, other, depth + plen) == step(k, other, depth + plen));
                }
            }
            Ok(CutStep { signal: EraseSignal::Unchanged, previous: x.previous, was_dead: x.was_dead, tree: Ghost(t2) })
        },
        EraseSignal::Replaced(new_child) => {
            let ghost k2 = x.tree@;
            let ghost t2 = Art::Prefix { slot: slot as int, bytes: t->Prefix_bytes, child: Box::new(k2) };
            proof {
                assert(at(f1.cells@, slot as int) == at(f0.cells@, slot as int));
            }
            let bytes: Vec<u8> = match frame.node_at(slot) {
                Some(Node::Prefix(p)) => copy_bytes(&p.bytes),
                _ => Vec::new(),
            };
            frame.set_node(slot, Node::Prefix(Prefix { bytes, child: new_child }));
            proof {
                lemma_ok_after_set(f1, *frame, slot as int);
                lemma_replug_prefix(f0.cells@, f1.cells@, frame.cells@, t, k2, path);
                assert forall|s: int| #[trigger] owns(k2, s) implies at(frame.cells@, s) == at(f1.cells@, s) by {
                    assert(owns(k, s) || at(f0.cells@, s) is None);
                }
                lemma_pruned_frame(f0.cells@, k, f1.cells@, frame.cells@, k2, key@, depth + plen);
                assert forall|other: Seq<u8>| other != key@ implies #[trigger] step(t2, other, depth as int) == step(t, other, depth as int) by {
                    assert(step(k2, other, depth + plen) == step(k, other, depth + plen));
                }
            }
            Ok(CutStep { signal: EraseSignal::Unchanged, previous: x.previous, was_dead: x.was_dead, tree: Ghost(t2) })
        },
    }
}

fn erase_at_inner(frame: &mut BlobFrame, slot: u16, key: SearchKey, depth: usize, Ghost(t): Ghost<Art>) -> (r: Result<CutStep>)
    requires
        cut_ready(*old(frame), slot, key@, depth as int, t),
        t is Inner,
    ensures
        cut_result(*old(frame), *final(frame), t, key@, depth as int, r),
    decreases t, 0int,
{
    let ghost f0 = *frame;
    let ghost path = key@.take(depth as int);
    let byte: u8 = match key.byte_at(depth) {
        Some(b) => b,
        None => {
            return no_leaf();
        },
    };
    let found: Option<u16> = match frame.node_at(slot) {
        Some(n) => inner_find_child(n, byte),
        None => None,
    };
    assert(t->kids[byte as int] is Some <==> found is Some);
    let child: u16 = match found {
        Some(c) => c,
        None => {
            return no_leaf();
        },
    };
    let ghost k = t->kids[byte as int]->0;
    proof {
        assert(path.push(byte) =~= key@.take(depth + 1));
    }
    let x = match erase_at(frame, child, key, depth + 1, Ghost(k)) {
        Ok(x) => x,
        Err(e) => {
            return Err(e);
        },
    };
    if x.previous.is_none() {
        return no_leaf();
    }
    let ghost f1 = *frame;
    proof {
        assert(!owns(t->kids[byte as int]->0, slot as int));
    }
    match x.signal {
        EraseSignal::SubtreeGone => {
            match inner_remove_child_and_collapse(frame, slot, byte, false, Ghost(t), Ghost(path)) {
                Ok((signal, g)) => {
                    let ghost t2 = g@;
                    proof {
                        if signal is SubtreeGone {
                            crate::art::lemma_dead_update(t->kids, byte as int, None, 256);
                            crate::art::lemma_dead_none(t->kids.update(byte as int, None), 256);
                            assert forall|other: Seq<u8>| other != key@ implies #[trigger] step(t, other, depth as int) is NotFound by {
                                assert(step(k, other, depth + 1) is NotFound);
                            }
                        } else {
                            assert forall|other: Seq<u8>| other != key@ implies #[trigger] step(t2, other, depth as int) == step(
                                t,
                                other,
                                depth as int,
                            ) by {
                                assert(step(k, other, depth + 1) is NotFound);
                            }
                        }
                    }
                    Ok(CutStep { signal, previous: x.previous, was_dead: x.was_dead, tree: g })
                },
                Err(e) => Err(e),
            }
        },
        EraseSignal::Unchanged => {
            let ghost k2 = x.tree@;
            let ghost t2 = with_kid(t, byte, k2);
            proof {
                assert(at(frame.cells@, slot as int) == at(f0.cells@, slot as int));
                lemma_replug_inner(f0.cells@, frame.cells@, frame.cells@, t, byte, k2, path);
                assert forall|x: int| 0 <= x < 256 && x != byte && (#[trigger] t->kids[x]) is Some implies stays(f0.cells@, frame.cells@, t->kids[x]->0) by {
                    lemma_kid_beside(f0.cells@, t, x, byte as int);
                }
                assert forall|other: Seq<u8>| other != key@ implies #[trigger] step(t2, other, depth as int) == step(t, other, depth as int) by {
                    assert(step(k2, other, depth + 1) == step(k, other, depth + 1));
                }
            }
            Ok(CutStep { signal: EraseSignal::Unchanged, previous: x.previous, was_dead: x.was_dead, tree: Ghost(t2) })
        },
        EraseSignal::Replaced(new_child) => {
            let ghost k2 = x.tree@;
            let ghost t2 = with_kid(t, byte, k2);
            proof {
                assert(at(f1.cells@, slot as int) == at(f0.cells@, slot as int));
            }
            match &mut frame.cells[slot as usize] {
                Some(n) => {
                    inner_update_child(n, byte, new_child);
                },
                None => {},
            }
            proof {
                assert(at(frame.cells@, slot as int) is Some);
                assert forall|i: int| i != slot implies #[trigger] at(frame.cells@, i) == at(f1.cells@, i) by {}
                lemma_ok_after_set(f1, *frame, slot as int);
                lemma_replug_inner(f0.cells@, f1.cells@, frame.cells@, t, byte, k2, path);
                assert forall|s: int| #[trigger] owns(k2, s) implies at(frame.cells@, s) == at(f1.cells@, s) by {
                    assert(owns(k, s) || at(f0.cells@, s) is None);
                }
                lemma_pruned_frame(f0.cells@, k, f1.cells@, frame.cells@, k2, key@, depth + 1);
                assert forall|x: int| 0 <= x < 256 && x != byte && (#[trigger] t->kids[x]) is Some implies stays(f0.cells@, frame.cells@, t->kids[x]->0) by {
                    lemma_kid_beside(f0.cells@, t, x, byte as int);
                }
                assert forall|other: Seq<u8>| other != key@ implies #[trigger] step(t2, other, depth as int) == step(t, other, depth as int) by {
                    assert(step(k2, other, depth + 1) == step(k, other, depth + 1));
                }
            }
            Ok(CutStep { signal: EraseSignal::Unchanged, previous: x.previous, was_dead: x.was_dead, tree: Ghost(t2) })
        },
    }
}

/// Whether the tree below `slot` in `f` is the one below `slot0` in `f0`
/// without the leaf of `key`.
pub open spec fn slot_cut(f0: BlobFrame, slot0: u16, f: BlobFrame, slot: u16, key: Seq<u8>) -> bool {
    let t = tree_at(f0.cells@, slot0);
    let t2 = tree_at(f.cells@, slot);
    let k = erase_cost(f0.cells@, t, key);
    &&& retold(f0, slot0, f, slot, key)
    &&& f.header.space_used == f0.header.space_used + k.bytes
    &&& f.header.num_slots == f0.header.num_slots + k.nodes
    &&& f.header.dead_bytes == clamp(f0.header.dead_bytes + cut_waste(f0.cells@, t, key, 0))
    &&& vanishes(t, key, 0) ==> t2 is Empty
    &&& !vanishes(t, key, 0) ==> pruned(f0.cells@, t, f.cells@, t2, key, 0)
    &&& step(t2, key, 0) is NotFound
}

/// Removes the record of `key` from the tree below `root_slot`. A tree left
/// without records is an empty root.
pub fn erase(frame: &mut BlobFrame, root_slot: u16, key: &[u8]) -> (r: Result<EraseOutcome>)
    requires
        old(frame).ok(),
        rooted(old(frame).cells@, root_slot),
        holds(old(frame).cells@, tree_at(old(frame).cells@, root_slot), Seq::empty()),
        dead(tree_at(old(frame).cells@, root_slot)) <= old(frame).header.tombstone_leaf_cnt,
    ensures
        ({
            let t = tree_at(old(frame).cells@, root_slot);
            match r {
                Ok(out) => {
                    &&& !meets_blob(t, key@, 0)
                    &&& value_of(out.previous) == held(t, key@)
                    &&& out.previous is None ==> *final(frame) == *old(frame) && out.new_root_slot == root_slot
                    &&& out.previous is Some ==> {
                        &&& affords(*old(frame), erase_cost(old(frame).cells@, t, key@))
                        &&& slot_cut(*old(frame), root_slot, *final(frame), out.new_root_slot, key@)
                    }
                },
                Err(e) => {
                    &&& stands_as(*old(frame), *final(frame), root_slot)
                    &&& e is NotYetImplemented <==> meets_blob(t, key@, 0)
                    &&& e is NotYetImplemented ==> *final(frame) == *old(frame)
                    &&& e is Alloc <==> !meets_blob(t, key@, 0) && held(t, key@) is Some && !affords(
                        *old(frame),
                        erase_cost(old(frame).cells@, t, key@),
                    )
                    &&& e is NotYetImplemented || e is Alloc
                },
            }
        }),
{
    let ghost f0 = *frame;
    let ghost t = tree_at(frame.cells@, root_slot);
    assert(key@.len() == key.len());
    assert(key@.take(0) =~= Seq::<u8>::empty());
    let x = match erase_at(frame, root_slot, SearchKey::exact(key), 0, Ghost(t)) {
        Ok(x) => x,
        Err(e) => {
            proof {
                lemma_stands_as(f0, *frame, root_slot);
            }
            return Err(e);
        },
    };
    if x.previous.is_none() {
        return Ok(EraseOutcome { new_root_slot: root_slot, previous: None });
    }
    let ghost f1 = *frame;
    match resolve_new_root_after_erase(frame, root_slot, x.signal) {
        Ok(s) => {
            let ghost t2 = if x.signal is SubtreeGone {
                Art::Empty { slot: s as int }
            } else {
                x.tree@
            };
            if x.was_dead {
                frame.header.tombstone_leaf_cnt = frame.header.tombstone_leaf_cnt - 1;
            }
            proof {
                lemma_tree_at(frame.cells@, t2);
                assert forall|other: Seq<u8>| other != key@ implies #[trigger] step(t2, other, 0) == step(t, other, 0) by {}
            }
            Ok(EraseOutcome { new_root_slot: s, previous: x.previous })
        },
        Err(e) => {
            proof {
                lemma_stands_as(f0, *frame, root_slot);
            }
            Err(e)
        },
    }
}

/// Whether every way down `t` ends at a live record of the same blob.
pub open spec fn leafy(t: Art) -> bool
    decreases t,
{
    match t {
        Art::Leaf { dead, .. } => !dead,
        Art::Prefix { child, .. } => leafy(*child),
        Art::Inner { kids, .. } => {
            &&& kids.len() == 256
            &&& exists|b: int| 0 <= b < 256 && (#[trigger] kids[b]) is Some
            &&& forall|b: int| 0 <= b < 256 && (#[trigger] kids[b]) is Some ==> leafy(kids[b]->0)
        },
        _ => false,
    }
}

/// There is a record behind every node of such a tree.
proof fn lemma_leafy_record(t: Art, path: Seq<u8>) -> (key: Seq<u8>)
    requires
        leafy(t),
        keyed(t, path),
    ensures
        path.is_prefix_of(key),
        step(t, key, path.len() as int) is Found,
    decreases t,
{
    match t {
        Art::Leaf { key, .. } => key,
        Art::Prefix { bytes, child, .. } => {
            let key = lemma_leafy_record(*child, path + bytes);
            lemma_longer_path(path, bytes, key);
            key
        },
        Art::Inner { kids, .. } => {
            let b = choose|b: int| 0 <= b < 256 && (#[trigger] kids[b]) is Some;
            let below = path.push(b as u8);
            let key = lemma_leafy_record(kids[b]->0, below);
            lemma_prefix_agree(below, key);
            lemma_prefix_agree(path, key);
            assert(key[path.len() as int] == b as u8);
            key
        },
        _ => arbitrary(),
    }
}

proof fn lemma_last_record(t: Art, key: Seq<u8>, d: int)
    requires
        leafy(t),
        0 <= d <= key.len(),
        keyed(t, key.take(d)),
        leaf_of(t, key, d) is Some,
        forall|other: Seq<u8>| other != key && key.take(d).is_prefix_of(other) ==> #[trigger] step(t, other, d) is NotFound,
    ensures
        vanishes(t, key, d),
    decreases t,
{
    let path = key.take(d);
    match t {
        Art::Prefix { bytes, child, .. } => {
            let below = key.take(d + bytes.len());
            assert(path + bytes =~= below);
            assert forall|other: Seq<u8>| other != key && below.is_prefix_of(other) implies #[trigger] step(*child, other, d + bytes.len()) is NotFound by {
                lemma_longer_path(path, bytes, other);
                assert(step(t, other, d) is NotFound);
            }
            lemma_last_record(*child, key, d + bytes.len());
        },
        Art::Inner { kids, .. } => {
            let below = key.take(d + 1);
            assert(path.push(key[d]) =~= below);
            assert forall|other: Seq<u8>| other != key && below.is_prefix_of(other) implies #[trigger] step(kids[key[d] as int]->0, other, d + 1) is NotFound by {
                lemma_prefix_agree(below, other);
                lemma_prefix_agree(path, other);
                assert(other[d] == key[d]);
                assert(step(t, other, d) is NotFound);
            }
            lemma_last_record(kids[key[d] as int]->0, key, d + 1);
            assert forall|b: int| 0 <= b < 256 && b != key[d] implies (#[trigger] kids[b]) is None by {
                if kids[b] is Some {
                    let other = lemma_leafy_record(kids[b]->0, path.push(b as u8));
                    lemma_prefix_agree(path.push(b as u8), other);
                    lemma_prefix_agree(path, other);
                    assert(other[d] == b as u8);
                    assert(step(t, other, d) is NotFound);
                }
            }
        },
        _ => {},
    }
}

/// Removing the only record of a tree all of whose ways end at a live record
/// leaves nothing of it, so that an erase leaves an empty root.
pub proof fn the_last_record_leaves_nothing(t: Art, key: Seq<u8>)
    requires
        leafy(t),
        keyed(t, Seq::empty()),
        held(t, key) is Some,
        forall|other: Seq<u8>| other != key ==> #[trigger] step(t, other, 0) is NotFound,
    ensures
        vanishes(t, key, 0),
{
    assert(key.take(0) =~= Seq::<u8>::empty());
    lemma_last_record(t, key, 0);
}

/// What an erase leaves of a tree all of whose ways end at a live record is
/// such a tree.
pub proof fn erases_keep_all_ways_live(c: Seq<Option<Node>>, t: Art, c2: Seq<Option<Node>>, t2: Art, key: Seq<u8>, d: int)
    requires
        leafy(t),
        !vanishes(t, key, d),
        pruned(c, t, c2, t2, key, d),
    ensures
        leafy(t2),
    decreases t,
{
    match t {
        Art::Prefix { bytes, child, .. } => erases_keep_all_ways_live(c, *child, c2, *t2->child, key, d + bytes.len()),
        Art::Inner { slot, kids } => {
            let b = key[d] as int;
            if vanishes(kids[b]->0, key, d + 1) {
                let other = choose|x: int| 0 <= x < 256 && x != b && (#[trigger] kids[x]) is Some;
                assert(0 <= other < 256 && other != b && kids[other] is Some);
                if t2 is Inner {
                    assert(t2->kids[other] is Some);
                }
            } else {
                erases_keep_all_ways_live(c, kids[b]->0, c2, t2->kids[b]->0, key, d + 1);
                assert(t2->kids[b] is Some);
            }
        },
        _ => {},
    }
}

/// An erase that leaves no record of a tree all of whose ways end at a live
/// record leaves an empty root.
pub proof fn erasing_all_records_leaves_an_empty_root(c: Seq<Option<Node>>, t: Art, c2: Seq<Option<Node>>, t2: Art, key: Seq<u8>)
    requires
        leafy(t),
        vanishes(t, key, 0) ==> t2 is Empty,
        !vanishes(t, key, 0) ==> pruned(c, t, c2, t2, key, 0),
        keyed(t2, Seq::empty()),
        forall|other: Seq<u8>| #[trigger] step(t2, other, 0) is NotFound,
    ensures
        t2 is Empty,
{
    if !vanishes(t, key, 0) {
        erases_keep_all_ways_live(c, t, c2, t2, key, 0);
        let other = lemma_leafy_record(t2, Seq::empty());
        assert(step(t2, other, 0) is NotFound);
    }
}

proof fn lemma_chained_leafy(t: Art, bytes: Seq<u8>, below: Art)
    requires
        chained(t, bytes, below),
        leafy(below),
    ensures
        leafy(t),
    decreases bytes.len(),
{
    if bytes.len() > 0 {
        lemma_chained_leafy(*t->child, bytes.skip(crate::writers::head_len(bytes.len() as int)), below);
    }
}

proof fn lemma_forks_leafy(c: Seq<Option<Node>>, pair: Art, lo: u8, rest: Seq<u8>, below: Art, key: Seq<u8>, hi: u8, value: Seq<u8>, seq: u64)
    requires
        forks(c, pair, lo, rest, below, key, hi, value, seq),
        leafy(below),
    ensures
        leafy(pair),
{
    lemma_chained_leafy(pair->kids[lo as int]->0, rest, below);
    assert(pair->kids[hi as int] is Some);
    assert forall|b: int| 0 <= b < 256 && (#[trigger] pair->kids[b]) is Some implies leafy(pair->kids[b]->0) by {
        assert(b == lo || b == hi);
    }
}

/// A write to a tree all of whose ways end at a live record, or to an empty
/// one, leaves such a tree.
pub proof fn inserts_keep_all_ways_live(
    c: Seq<Option<Node>>,
    t: Art,
    c2: Seq<Option<Node>>,
    t2: Art,
    key: Seq<u8>,
    value: Seq<u8>,
    d: int,
    seq: u64,
)
    requires
        leafy(t) || t is Empty,
        written(c, t, c2, t2, key, value, d, seq),
    ensures
        leafy(t2),
    decreases t,
{
    match t {
        Art::Leaf { key: k, .. } => if k != key {
            let n = lcp(key.skip(d), k.skip(d)) as int;
            let pair = choose|pair: Art| #[trigger]
                chained(t2, k.skip(d).take(n), pair) && forks(c2, pair, k.skip(d)[n], Seq::empty(), t, key, key[d + n], value, seq);
            lemma_forks_leafy(c2, pair, k.skip(d)[n], Seq::empty(), t, key, key[d + n], value, seq);
            lemma_chained_leafy(t2, k.skip(d).take(n), pair);
        },
        Art::Prefix { bytes, child, .. } => if matches_at(key, d, bytes) {
            inserts_keep_all_ways_live(c, *child, c2, *t2->child, key, value, d + bytes.len(), seq);
        } else {
            let n = lcp(key.skip(d), bytes) as int;
            let pair = choose|pair: Art| #[trigger]
                chained(t2, bytes.take(n), pair) && forks(c2, pair, bytes[n], bytes.skip(n + 1), *child, key, key[d + n], value, seq);
            lemma_forks_leafy(c2, pair, bytes[n], bytes.skip(n + 1), *child, key, key[d + n], value, seq);
            lemma_chained_leafy(t2, bytes.take(n), pair);
        },
        Art::Inner { kids, .. } => {
            let b = key[d] as int;
            if kids[b] is Some {
                inserts_keep_all_ways_live(c, kids[b]->0, c2, t2->kids[b]->0, key, value, d + 1, seq);
            }
            assert forall|x: int| 0 <= x < 256 && (#[trigger] t2->kids[x]) is Some implies leafy(t2->kids[x]->0) by {
                if x != b {
                    assert(t2->kids[x] == kids[x]);
                }
            }
            assert(t2->kids[b] is Some);
        },
        _ => {},
    }
}

} // verus!
