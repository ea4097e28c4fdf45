//! Inserting a record into one blob.
use vstd::prelude::*;

use crate::art::{
    at, blob_nodes, dead, keyed, lemma_blob_nodes_skip, lemma_blob_nodes_update, owns, rep, sep, slot_of, step, Art, Route,
};
use crate::errors::{AllocError, Error, Result};
use crate::frame::{BlobFrame, BlobHeader, SPILLOVER_RESERVATION};
use crate::key::{matches_at, SearchKey};
use crate::layout::{
    leaf_body_size, leaf_size, node_size, node_type, BlobNode, Leaf, Node, NodeType, Prefix, MAX_SLOTS, NODE16_SIZE, NODE256_SIZE,
    NODE48_SIZE, PAGE_SIZE, PREFIX_MAX_INLINE,
};
use crate::migrate::clamp;
use crate::node::{full, grow, inner_find_child, inner_insert_child, inner_ok, inner_update_child, kid};
use crate::simd::lcp;
use crate::types::{writes, BlobCrossing, InsertCondition, InsertReturn, InsertStep};
use crate::writers::{
    affords, behind, chain_cost, chain_nodes, chained, edits, failed, free, keeps, one, pair_kids, plus, short, spent, write_leaf, write_node4_with, write_prefix_chain, Cost,
};

verus! {

/// Whether `key` is a proper prefix of, or properly extends, the key of a
/// record or the bytes of a node that it meets on its way from `t`. No tree
/// can hold both.
pub open spec fn conflict(t: Art, key: Seq<u8>, d: int) -> bool
    decreases t,
{
    match t {
        Art::Empty { .. } => false,
        Art::Leaf { key: k, .. } => k != key && (k.is_prefix_of(key) || key.is_prefix_of(k)),
        Art::Prefix { bytes, child, .. } => if matches_at(key, d, bytes) {
            conflict(*child, key, d + bytes.len())
        } else {
            key.skip(d).is_prefix_of(bytes)
        },
        Art::Inner { kids, .. } => if 0 <= d < key.len() && key[d] < kids.len() {
            kids[key[d] as int] is Some && conflict(kids[key[d] as int]->0, key, d + 1)
        } else {
            true
        },
        Art::Blob { bytes, .. } => !matches_at(key, d, bytes) && key.skip(d).is_prefix_of(bytes),
    }
}

/// Size of the layout that a full node grows into.
pub open spec fn grown_size(n: Node) -> int {
    match n {
        Node::Node4(_) => NODE16_SIZE as int,
        Node::Node16(_) => NODE48_SIZE as int,
        _ => NODE256_SIZE as int,
    }
}

/// A leaf, a branch and the bytes in front of the branch.
pub open spec fn branch_cost(key: Seq<u8>, vlen: int, common: int) -> Cost {
    plus(plus(one(leaf_size(key.len() as int, vlen)), one(16)), chain_cost(common))
}

/// What writing `key` with a value of `vlen` bytes into `t` allocates.
pub open spec fn insert_cost(c: Seq<Option<Node>>, t: Art, key: Seq<u8>, d: int, vlen: int) -> Cost
    decreases t,
{
    let leaf = one(leaf_size(key.len() as int, vlen));
    match t {
        Art::Empty { .. } => leaf,
        Art::Leaf { key: k, value, .. } => if k == key {
            if leaf_size(key.len() as int, vlen) <= leaf_size(k.len() as int, value.len() as int) {
                free()
            } else {
                leaf
            }
        } else {
            branch_cost(key, vlen, lcp(key.skip(d), k.skip(d)) as int)
        },
        Art::Prefix { bytes, child, .. } => if matches_at(key, d, bytes) {
            insert_cost(c, *child, key, d + bytes.len(), vlen)
        } else {
            let common = lcp(key.skip(d), bytes) as int;
            plus(chain_cost(bytes.len() - common - 1), branch_cost(key, vlen, common))
        },
        Art::Inner { slot, kids } => if 0 <= d < key.len() && key[d] < kids.len() && kids[key[d] as int] is Some {
            insert_cost(c, kids[key[d] as int]->0, key, d + 1, vlen)
        } else {
            let n = at(c, slot)->0;
            plus(leaf, if full(n) { one(grown_size(n)) } else { free() })
        },
        Art::Blob { bytes, .. } => branch_cost(key, vlen, lcp(key.skip(d), bytes) as int),
    }
}

/// Whether the leaf of `key` below `t` is there.
pub open spec fn has_leaf(t: Art, key: Seq<u8>, d: int) -> bool
    decreases t,
{
    match t {
        Art::Leaf { key: k, .. } => k == key,
        Art::Prefix { bytes, child, .. } => matches_at(key, d, bytes) && has_leaf(*child, key, d + bytes.len()),
        Art::Inner { kids, .. } => 0 <= d < key.len() && key[d] < kids.len() && kids[key[d] as int] is Some && has_leaf(
            kids[key[d] as int]->0,
            key,
            d + 1,
        ),
        _ => false,
    }
}

/// Whether the leaf of `key` below `t` is there and deleted.
pub open spec fn deleted_leaf(t: Art, key: Seq<u8>, d: int) -> bool
    decreases t,
{
    match t {
        Art::Leaf { key: k, dead, .. } => k == key && dead,
        Art::Prefix { bytes, child, .. } => matches_at(key, d, bytes) && deleted_leaf(*child, key, d + bytes.len()),
        Art::Inner { kids, .. } => 0 <= d < key.len() && key[d] < kids.len() && kids[key[d] as int] is Some && deleted_leaf(
            kids[key[d] as int]->0,
            key,
            d + 1,
        ),
        _ => false,
    }
}

/// What writing `key` allocates, where a leaf that has the key already is
/// always written anew if `fresh`, and otherwise only when it grows.
pub open spec fn put_cost(c: Seq<Option<Node>>, t: Art, key: Seq<u8>, d: int, vlen: int, fresh: bool) -> Cost {
    if fresh && has_leaf(t, key, d) {
        one(leaf_size(key.len() as int, vlen))
    } else {
        insert_cost(c, t, key, d, vlen)
    }
}

/// Bytes of the node that writing `key` abandons: an empty root, a leaf that is
/// written anew, a prefix that the key leaves in the middle, or an inner node
/// that was full.
pub open spec fn put_waste(c: Seq<Option<Node>>, t: Art, key: Seq<u8>, d: int, vlen: int, fresh: bool) -> int
    decreases t,
{
    match t {
        Art::Empty { slot } => node_size(at(c, slot)->0),
        Art::Leaf { slot, key: k, value, .. } => if k == key && (fresh || leaf_size(key.len() as int, vlen) > leaf_size(
            k.len() as int,
            value.len() as int,
        )) {
            node_size(at(c, slot)->0)
        } else {
            0
        },
        Art::Prefix { slot, bytes, child } => if matches_at(key, d, bytes) {
            put_waste(c, *child, key, d + bytes.len(), vlen, fresh)
        } else {
            node_size(at(c, slot)->0)
        },
        Art::Inner { slot, kids } => if 0 <= d < key.len() && key[d] < kids.len() && kids[key[d] as int] is Some {
            put_waste(c, kids[key[d] as int]->0, key, d + 1, vlen, fresh)
        } else if full(at(c, slot)->0) {
            node_size(at(c, slot)->0)
        } else {
            0
        },
        Art::Blob { .. } => 0,
    }
}

/// Whether `t` is the leaf of a record just written.
pub open spec fn fresh_leaf(t: Art, key: Seq<u8>, value: Seq<u8>, seq: u64) -> bool {
    t matches Art::Leaf { key: k, value: v, seq: s, dead, .. } && k == key && v == value && s == seq && !dead
}

/// Whether `pair` is a smallest inner node over two subtrees: what stood
/// before, behind `rest`, and the record.
pub open spec fn forks(
    c: Seq<Option<Node>>,
    pair: Art,
    lo: u8,
    rest: Seq<u8>,
    below: Art,
    key: Seq<u8>,
    hi: u8,
    value: Seq<u8>,
    seq: u64,
) -> bool {
    &&& pair is Inner
    &&& at(c, pair->Inner_slot) matches Some(n) && n is Node4
    &&& pair->kids.len() == 256
    &&& pair->kids[lo as int] matches Some(u) && chained(u, rest, below)
    &&& pair->kids[hi as int] matches Some(l) && fresh_leaf(l, key, value, seq)
    &&& forall|b: int| 0 <= b < 256 && b != lo && b != hi ==> (#[trigger] pair->kids[b]) is None
}

/// Whether `t2` is a branch at the first byte where the key leaves `bytes`:
/// the bytes before it in front, the bytes behind it below the branch.
pub open spec fn branched(
    c: Seq<Option<Node>>,
    t2: Art,
    bytes: Seq<u8>,
    below: Art,
    key: Seq<u8>,
    d: int,
    value: Seq<u8>,
    seq: u64,
) -> bool {
    let n = lcp(key.skip(d), bytes) as int;
    exists|pair: Art| #[trigger]
        chained(t2, bytes.take(n), pair) && forks(c, pair, bytes[n], bytes.skip(n + 1), below, key, key[d + n], value, seq)
}

/// The layout of an inner node with one child more.
pub open spec fn layout_with_one_more(n: Node) -> NodeType {
    if full(n) {
        match n {
            Node::Node4(_) => NodeType::Node16,
            Node::Node16(_) => NodeType::Node48,
            _ => NodeType::Node256,
        }
    } else {
        node_type(n)
    }
}

/// Whether the nodes of `t` are the same in `c2` as in `c`.
pub open spec fn stays(c: Seq<Option<Node>>, c2: Seq<Option<Node>>, t: Art) -> bool {
    forall|s: int| #[trigger] owns(t, s) ==> at(c2, s) == at(c, s)
}

/// Whether the subtrees other than that of byte `b` are the same in `c2` as in
/// `c`.
pub open spec fn beside(c: Seq<Option<Node>>, c2: Seq<Option<Node>>, kids: Seq<Option<Art>>, b: int) -> bool {
    forall|x: int| 0 <= x < kids.len() && x != b && (#[trigger] kids[x]) is Some ==> stays(c, c2, kids[x]->0)
}

/// Whether `t2`, held in `c2`, is the tree `t`, held in `c`, with the record
/// written: which nodes stand, which are new, and in which layouts.
pub open spec fn written(
    c: Seq<Option<Node>>,
    t: Art,
    c2: Seq<Option<Node>>,
    t2: Art,
    key: Seq<u8>,
    value: Seq<u8>,
    d: int,
    seq: u64,
) -> bool
    decreases t,
{
    match t {
        Art::Empty { .. } => fresh_leaf(t2, key, value, seq),
        Art::Leaf { key: k, .. } => if k == key {
            fresh_leaf(t2, key, value, seq)
        } else {
            let n = lcp(key.skip(d), k.skip(d)) as int;
            exists|pair: Art| #[trigger]
                chained(t2, k.skip(d).take(n), pair) && forks(c2, pair, k.skip(d)[n], Seq::empty(), t, key, key[d + n], value, seq)
        },
        Art::Prefix { slot, bytes, child } => if matches_at(key, d, bytes) {
            &&& t2 is Prefix
            &&& t2 == (Art::Prefix { slot, bytes, child: t2->child })
            &&& written(c, *child, c2, *t2->child, key, value, d + bytes.len(), seq)
        } else {
            branched(c2, t2, bytes, *child, key, d, value, seq) && stays(c, c2, *child)
        },
        Art::Inner { slot, kids } => {
            &&& 0 <= d < key.len()
            &&& key[d] < kids.len()
            &&& t2 is Inner
            &&& t2->kids.len() == kids.len()
            &&& t2->kids[key[d] as int] is Some
            &&& t2->kids == kids.update(key[d] as int, t2->kids[key[d] as int])
            &&& beside(c, c2, kids, key[d] as int)
            &&& at(c, slot) is Some && at(c2, t2->Inner_slot) is Some
            &&& if kids[key[d] as int] is Some {
                &&& t2->Inner_slot == slot
                &&& node_type(at(c2, slot)->0) == node_type(at(c, slot)->0)
                &&& written(c, kids[key[d] as int]->0, c2, t2->kids[key[d] as int]->0, key, value, d + 1, seq)
            } else {
                &&& !full(at(c, slot)->0) ==> t2->Inner_slot == slot
                &&& node_type(at(c2, t2->Inner_slot)->0) == layout_with_one_more(at(c, slot)->0)
                &&& fresh_leaf(t2->kids[key[d] as int]->0, key, value, seq)
            }
        },
        Art::Blob { slot, bytes, guid } => {
            let n = lcp(key.skip(d), bytes) as int;
            exists|pair: Art| #[trigger]
                chained(t2, bytes.take(n), pair) && forks(
                    c2,
                    pair,
                    bytes[n],
                    Seq::empty(),
                    Art::Blob { slot, bytes: bytes.skip(n + 1), guid },
                    key,
                    key[d + n],
                    value,
                    seq,
                )
        },
    }
}

/// The nodes of a subtree are there, and are not those of another one or of the
/// node above.
pub proof fn lemma_kid_beside(c: Seq<Option<Node>>, t: Art, x: int, b: int)
    requires
        rep(c, t),
        sep(t),
        t is Inner,
        0 <= x < t->kids.len(),
        t->kids[x] is Some,
    ensures
        forall|s: int| #[trigger] owns(t->kids[x]->0, s) ==> at(c, s) is Some && s != slot_of(t),
        b != x && 0 <= b < t->kids.len() && t->kids[b] is Some ==> forall|s: int| #[trigger] owns(t->kids[x]->0, s) ==> !owns(t->kids[b]->0, s),
{
    let k = t->kids[x]->0;
    assert(rep(c, k));
    assert forall|s: int| #[trigger] owns(k, s) implies at(c, s) is Some && s != slot_of(t) by {
        crate::art::lemma_owns_present(c, k, s);
    }
}

/// A change of nodes that the written tree has not does not matter to it.
proof fn lemma_written_frame(
    c: Seq<Option<Node>>,
    t: Art,
    c1: Seq<Option<Node>>,
    c2: Seq<Option<Node>>,
    t2: Art,
    key: Seq<u8>,
    value: Seq<u8>,
    d: int,
    seq: u64,
)
    requires
        written(c, t, c1, t2, key, value, d, seq),
        forall|s: int| #[trigger] owns(t2, s) ==> at(c2, s) == at(c1, s),
    ensures
        written(c, t, c2, t2, key, value, d, seq),
    decreases t,
{
    match t {
        Art::Empty { .. } => {},
        Art::Leaf { key: k, .. } => if k != key {
            let n = lcp(key.skip(d), k.skip(d)) as int;
            let pair = choose|pair: Art| #[trigger]
                chained(t2, k.skip(d).take(n), pair) && forks(c1, pair, k.skip(d)[n], Seq::empty(), t, key, key[d + n], value, seq);
            crate::writers::lemma_chained_owns(t2, k.skip(d).take(n), pair, slot_of(pair));
            assert(forks(c2, pair, k.skip(d)[n], Seq::empty(), t, key, key[d + n], value, seq));
        },
        Art::Prefix { bytes, child, .. } => if matches_at(key, d, bytes) {
            assert forall|s: int| #[trigger] owns(*t2->child, s) implies at(c2, s) == at(c1, s) by {
                assert(owns(t2, s));
            }
            lemma_written_frame(c, *child, c1, c2, *t2->child, key, value, d + bytes.len(), seq);
        } else {
            let n = lcp(key.skip(d), bytes) as int;
            let pair = choose|pair: Art| #[trigger]
                chained(t2, bytes.take(n), pair) && forks(c1, pair, bytes[n], bytes.skip(n + 1), *child, key, key[d + n], value, seq);
            crate::writers::lemma_chained_owns(t2, bytes.take(n), pair, slot_of(pair));
            assert(forks(c2, pair, bytes[n], bytes.skip(n + 1), *child, key, key[d + n], value, seq));
            assert forall|s: int| #[trigger] owns(*child, s) implies at(c2, s) == at(c, s) by {
                let lo = bytes[n] as int;
                crate::writers::lemma_chained_owns(pair->kids[lo]->0, bytes.skip(n + 1), *child, s);
                assert(owns(pair, s));
                crate::writers::lemma_chained_owns(t2, bytes.take(n), pair, s);
                assert(at(c1, s) == at(c, s));
            }
        },
        Art::Inner { slot, kids } => {
            assert(owns(t2, t2->Inner_slot));
            assert forall|x: int| 0 <= x < kids.len() && x != key[d] && (#[trigger] kids[x]) is Some implies stays(c, c2, kids[x]->0) by {
                assert(t2->kids[x] == kids[x]);
                assert forall|s: int| #[trigger] owns(kids[x]->0, s) implies at(c2, s) == at(c, s) by {
                    assert(owns(t2, s));
                    assert(stays(c, c1, kids[x]->0));
                }
            }
            if kids[key[d] as int] is Some {
                let k2 = t2->kids[key[d] as int]->0;
                assert forall|s: int| #[trigger] owns(k2, s) implies at(c2, s) == at(c1, s) by {
                    assert(owns(t2, s));
                }
                lemma_written_frame(c, kids[key[d] as int]->0, c1, c2, k2, key, value, d + 1, seq);
            }
        },
        Art::Blob { slot, bytes, guid } => {
            let n = lcp(key.skip(d), bytes) as int;
            let below = Art::Blob { slot, bytes: bytes.skip(n + 1), guid };
            let pair = choose|pair: Art| #[trigger]
                chained(t2, bytes.take(n), pair) && forks(c1, pair, bytes[n], Seq::empty(), below, key, key[d + n], value, seq);
            crate::writers::lemma_chained_owns(t2, bytes.take(n), pair, slot_of(pair));
            assert(forks(c2, pair, bytes[n], Seq::empty(), below, key, key[d + n], value, seq));
        },
    }
}

/// Bytes in front add no blob node.
pub proof fn lemma_chained_blobs(u: Art, bytes: Seq<u8>, t: Art)
    requires
        chained(u, bytes, t),
    ensures
        blob_nodes(u) == blob_nodes(t),
    decreases bytes.len(),
{
    if bytes.len() > 0 {
        lemma_chained_blobs(*u->child, bytes.skip(crate::writers::head_len(bytes.len() as int)), t);
    }
}

/// A branch has the blob nodes of what stood before.
proof fn lemma_forks_blobs(
    c: Seq<Option<Node>>,
    pair: Art,
    lo: u8,
    rest: Seq<u8>,
    below: Art,
    key: Seq<u8>,
    hi: u8,
    value: Seq<u8>,
    seq: u64,
)
    requires
        forks(c, pair, lo, rest, below, key, hi, value, seq),
        lo != hi,
    ensures
        blob_nodes(pair) == blob_nodes(below),
{
    let none = Seq::new(256, |b: int| None::<Art>);
    let kids = pair->kids;
    lemma_blob_nodes_skip(none, 0, 256);
    lemma_blob_nodes_update(none, lo as int, kids[lo as int], 256);
    let one = none.update(lo as int, kids[lo as int]);
    lemma_blob_nodes_update(one, hi as int, kids[hi as int], 256);
    assert(one.update(hi as int, kids[hi as int]) =~= kids);
    lemma_chained_blobs(kids[lo as int]->0, rest, below);
}

/// A write keeps the number of blob nodes.
pub proof fn lemma_written_blobs(
    c: Seq<Option<Node>>,
    t: Art,
    c2: Seq<Option<Node>>,
    t2: Art,
    key: Seq<u8>,
    value: Seq<u8>,
    d: int,
    seq: u64,
)
    requires
        written(c, t, c2, t2, key, value, d, seq),
        !conflict(t, key, d),
        !(step(t, key, d) is Crossing),
        0 <= d <= key.len(),
        keyed(t, key.take(d)),
    ensures
        blob_nodes(t2) == blob_nodes(t),
    decreases t,
{
    match t {
        Art::Empty { .. } => {},
        Art::Leaf { key: k, .. } => if k != key {
            let n = lcp(key.skip(d), k.skip(d)) as int;
            let pair = choose|pair: Art| #[trigger]
                chained(t2, k.skip(d).take(n), pair) && forks(c2, pair, k.skip(d)[n], Seq::empty(), t, key, key[d + n], value, seq);
            crate::simd::lemma_lcp(key.skip(d), k.skip(d));
            lemma_forks_blobs(c2, pair, k.skip(d)[n], Seq::empty(), t, key, key[d + n], value, seq);
            lemma_chained_blobs(t2, k.skip(d).take(n), pair);
        },
        Art::Prefix { bytes, child, .. } => if matches_at(key, d, bytes) {
            assert(key.take(d) + bytes =~= key.take(d + bytes.len()));
            lemma_written_blobs(c, *child, c2, *t2->child, key, value, d + bytes.len(), seq);
        } else {
            let n = lcp(key.skip(d), bytes) as int;
            let pair = choose|pair: Art| #[trigger]
                chained(t2, bytes.take(n), pair) && forks(c2, pair, bytes[n], bytes.skip(n + 1), *child, key, key[d + n], value, seq);
            crate::simd::lemma_lcp(key.skip(d), bytes);
            lemma_forks_blobs(c2, pair, bytes[n], bytes.skip(n + 1), *child, key, key[d + n], value, seq);
            lemma_chained_blobs(t2, bytes.take(n), pair);
        },
        Art::Inner { kids, .. } => {
            let b = key[d] as int;
            if kids[b] is Some {
                assert(key.take(d).push(key[d]) =~= key.take(d + 1));
                lemma_written_blobs(c, kids[b]->0, c2, t2->kids[b]->0, key, value, d + 1, seq);
            }
            lemma_blob_nodes_update(kids, b, t2->kids[b], kids.len() as int);
        },
        Art::Blob { slot, bytes, guid } => {
            let n = lcp(key.skip(d), bytes) as int;
            let below = Art::Blob { slot, bytes: bytes.skip(n + 1), guid };
            let pair = choose|pair: Art| #[trigger]
                chained(t2, bytes.take(n), pair) && forks(c2, pair, bytes[n], Seq::empty(), below, key, key[d + n], value, seq);
            crate::simd::lemma_lcp(key.skip(d), bytes);
            lemma_forks_blobs(c2, pair, bytes[n], Seq::empty(), below, key, key[d + n], value, seq);
            lemma_chained_blobs(t2, bytes.take(n), pair);
        },
    }
}

/// What a single-blob insert of `key` below `t` promises.
pub open spec fn insert_result(
    f0: BlobFrame,
    f: BlobFrame,
    t: Art,
    key: Seq<u8>,
    value: Seq<u8>,
    d: int,
    seq: u64,
    condition: InsertCondition,
    allow_crossing: bool,
    fresh: bool,
    r: Result<InsertStep>,
) -> bool {
    let route = step(t, key, d);
    let k = put_cost(f0.cells@, t, key, d, value.len() as int, fresh);
    match r {
        Ok(InsertStep::Done(x)) => {
            &&& !conflict(t, key, d)
            &&& !(route is Crossing)
            &&& x.mutated == writes(route, condition)
            &&& !x.mutated ==> f == f0 && x.slot_after == slot_of(t) && x.tree@ == t
            &&& x.mutated ==> affords(f0, k) && inserted(f0, f, t, key, value, d, seq, k, x.slot_after, x.tree@)
            &&& x.mutated ==> f.header.dead_bytes == clamp(f0.header.dead_bytes + put_waste(f0.cells@, t, key, d, value.len() as int, fresh))
        },
        Ok(InsertStep::Crossing(x)) => {
            &&& allow_crossing
            &&& f == f0
            &&& route == (Route::Crossing { guid: x.child_guid, depth: x.child_depth as int })
            &&& x.child_depth <= key.len()
            &&& blob_at(t, key, d) == x.parent_slot
        },
        Err(e) => {
            &&& failed(f0, f)
            &&& e is NotYetImplemented <==> conflict(t, key, d) || (route is Crossing && !allow_crossing)
            &&& e is NotYetImplemented ==> f == f0
            &&& !(e is NotYetImplemented) ==> short(f0, f, k, e) && writes(route, condition) && !(route is Crossing)
        },
    }
}

/// The blob node that `key` meets from `t`.
pub open spec fn blob_at(t: Art, key: Seq<u8>, d: int) -> int
    decreases t,
{
    match t {
        Art::Blob { slot, .. } => slot,
        Art::Prefix { bytes, child, .. } => blob_at(*child, key, d + bytes.len()),
        Art::Inner { kids, .. } => if 0 <= d < key.len() && key[d] < kids.len() && kids[key[d] as int] is Some {
            blob_at(kids[key[d] as int]->0, key, d + 1)
        } else {
            0
        },
        _ => 0,
    }
}

/// Whether `t2` in `f` is `t` in `f0` with the record written.
pub open spec fn inserted(
    f0: BlobFrame,
    f: BlobFrame,
    t: Art,
    key: Seq<u8>,
    value: Seq<u8>,
    d: int,
    seq: u64,
    k: Cost,
    slot_after: u16,
    t2: Art,
) -> bool {
    &&& f.ok()
    &&& f.arena_end == f0.arena_end
    &&& f.header.space_used == f0.header.space_used + k.bytes
    &&& f.header.num_slots == f0.header.num_slots + k.nodes
    &&& f.header.tombstone_leaf_cnt == f0.header.tombstone_leaf_cnt - dead(t) + dead(t2)
    &&& dead(t2) == dead(t) - (if deleted_leaf(t, key, d) {
        1int
    } else {
        0
    })
    &&& f.header == (BlobHeader {
        space_used: f.header.space_used,
        num_slots: f.header.num_slots,
        tombstone_leaf_cnt: f.header.tombstone_leaf_cnt,
        dead_bytes: f.header.dead_bytes,
        ..f0.header
    })
    &&& slot_of(t2) == slot_after
    &&& rep(f.cells@, t2)
    &&& sep(t2)
    &&& keyed(t2, key.take(d))
    &&& edits(f0.cells@, t, f.cells@, t2)
    &&& written(f0.cells@, t, f.cells@, t2, key, value, d, seq)
    &&& step(t2, key, d) == (Route::Found { value, seq })
    &&& forall|other: Seq<u8>| other != key ==> #[trigger] step(t2, other, d) == step(t, other, d)
}

/// Agreement of a whole part is what `matches_at` says.
pub proof fn lemma_lcp_matches(key: Seq<u8>, d: int, part: Seq<u8>)
    requires
        0 <= d <= key.len(),
    ensures
        lcp(key.skip(d), part) == part.len() <==> matches_at(key, d, part),
        lcp(key.skip(d), part) <= part.len(),
        d + lcp(key.skip(d), part) <= key.len(),
        d + lcp(key.skip(d), part) == key.len() ==> key.skip(d).is_prefix_of(part),
        !matches_at(key, d, part) && key.skip(d).is_prefix_of(part) ==> d + lcp(key.skip(d), part) == key.len(),
{
    let tail = key.skip(d);
    crate::simd::lemma_lcp(tail, part);
    let n = lcp(tail, part) as int;
    if n == part.len() {
        assert forall|i: int| 0 <= i < part.len() implies key.subrange(d, d + part.len())[i] == part[i] by {
            assert(tail[i] == part[i]);
        }
    }
    if matches_at(key, d, part) && n < part.len() {
        assert(key.subrange(d, d + part.len())[n] == part[n]);
        assert(tail[n] == part[n]);
    }
    if d + n == key.len() {
        assert(tail =~= part.take(tail.len() as int));
    }
    if tail.is_prefix_of(part) && d + n < key.len() && n < part.len() {
        assert(part.take(tail.len() as int)[n] == tail[n]);
    }
}

/// Hangs a new record beside the tree `old_t`: `common` leads to a branch
/// where `old_byte` goes on to `old_t` and the key's next byte to the
/// record.
pub fn branch_off(
    frame: &mut BlobFrame,
    common: &[u8],
    old_byte: u8,
    old_slot: u16,
    key: SearchKey,
    value: &[u8],
    depth: usize,
    seq: u64,
    Ghost(old_t): Ghost<Art>,
) -> (r: Result<(u16, Ghost<Art>)>)
    requires
        old(frame).ok(),
        rep(old(frame).cells@, old_t),
        sep(old_t),
        slot_of(old_t) == old_slot,
        key@.len() <= 65535,
        value@.len() <= 65535,
        depth + common@.len() < key@.len(),
        matches_at(key@, depth as int, common@),
        key@[depth + common@.len()] != old_byte,
        keyed(old_t, key@.take(depth + common@.len()).push(old_byte)),
    ensures
        match r {
            Ok((s, g)) => {
                let u = g@;
                let e = depth + common@.len();
                &&& affords(*old(frame), branch_cost(key@, value@.len() as int, common@.len() as int))
                &&& spent(*old(frame), *final(frame), branch_cost(key@, value@.len() as int, common@.len() as int))
                &&& final(frame).ok()
                &&& keeps(old(frame).cells@, final(frame).cells@)
                &&& slot_of(u) == s
                &&& rep(final(frame).cells@, u)
                &&& sep(u)
                &&& keyed(u, key@.take(depth as int))
                &&& edits(old(frame).cells@, old_t, final(frame).cells@, u)
                &&& dead(u) == dead(old_t)
                &&& exists|pair: Art| #[trigger]
                    chained(u, common@, pair) && forks(
                        final(frame).cells@,
                        pair,
                        old_byte,
                        Seq::empty(),
                        old_t,
                        key@,
                        key@[e],
                        value@,
                        seq,
                    )
                &&& step(u, key@, depth as int) == (Route::Found { value: value@, seq })
                &&& forall|other: Seq<u8>| other != key@ ==> #[trigger] step(u, other, depth as int) == (
                    if matches_at(other, depth as int, common@.push(old_byte)) {
                        step(old_t, other, e + 1)
                    } else {
                        Route::NotFound
                    })
            },
            Err(e) => short(*old(frame), *final(frame), branch_cost(key@, value@.len() as int, common@.len() as int), e),
        },
{
    let ghost c0 = frame.cells@;
    let ghost f0 = *frame;
    let ghost e = depth + common@.len();
    let new_byte: u8 = match key.byte_at(depth + common.len()) {
        Some(b) => b,
        None => 0,
    };
    let new_leaf: u16 = match write_leaf(frame, key, value, seq) {
        Ok(s) => s,
        Err(err) => {
            return Err(err);
        },
    };
    let ghost c1 = frame.cells@;
    let ghost leaf_t = Art::Leaf { slot: new_leaf as int, key: key@, value: value@, seq, dead: false };
    proof {
        assert forall|s: int| #[trigger] owns(old_t, s) implies at(c1, s) == at(c0, s) && s != new_leaf by {
            crate::art::lemma_owns_present(c0, old_t, s);
        }
        crate::art::lemma_rep_frame(c0, c1, old_t);
        assert forall|s: int| !(#[trigger] owns(old_t, s) && #[trigger] owns(leaf_t, s)) by {}
    }
    let n4: u16 = match write_node4_with(frame, (old_byte, old_slot), (new_byte, new_leaf), Ghost(old_t), Ghost(leaf_t)) {
        Ok(s) => s,
        Err(err) => {
            proof {
                lemma_failed_after(f0, *frame, c1);
            }
            return Err(err);
        },
    };
    let ghost c2 = frame.cells@;
    let ghost pair = Art::Inner { slot: n4 as int, kids: pair_kids(old_byte, old_t, new_byte, leaf_t) };
    let ghost mid = key@.take(e as int);
    proof {
        lemma_keeps_trans(c0, c1, c2);
        assert(keyed(pair, mid)) by {
            assert(mid.push(new_byte) =~= key@.take(e + 1));
            assert(key@.take(e + 1).is_prefix_of(key@));
        }
        assert forall|s: int| #[trigger] owns(pair, s) implies owns(old_t, s) || at(c0, s) is None by {
            if s == n4 && at(c0, s) is Some {
                assert(at(c1, s) == at(c0, s));
            }
        }
        assert(forks(c2, pair, old_byte, Seq::empty(), old_t, key@, key@[e as int], value@, seq)) by {
            assert(chained(old_t, Seq::empty(), old_t));
        }
        assert(step(leaf_t, key@, e + 1) == (Route::Found { value: value@, seq }));
        assert(step(pair, key@, e as int) == (Route::Found { value: value@, seq }));
        assert forall|other: Seq<u8>| other != key@ && matches_at(other, depth as int, common@) implies #[trigger] step(pair, other, e as int) == (
        if matches_at(other, depth as int, common@.push(old_byte)) {
            step(old_t, other, e + 1)
        } else {
            Route::NotFound
        }) by {
            lemma_matches_push(other, depth as int, common@, old_byte);
            assert(step(leaf_t, other, e + 1) == Route::NotFound);
        }
        assert forall|other: Seq<u8>| !matches_at(other, depth as int, common@) implies !#[trigger] matches_at(other, depth as int, common@.push(old_byte)) by {
            lemma_matches_push(other, depth as int, common@, old_byte);
        }
    }
    if common.len() == 0 {
        proof {
            assert(key@.take(depth as int) =~= mid);
            assert forall|other: Seq<u8>| other != key@ implies #[trigger] step(pair, other, depth as int) == (
            if matches_at(other, depth as int, common@.push(old_byte)) {
                step(old_t, other, e + 1)
            } else {
                Route::NotFound
            }) by {
                lemma_matches_push(other, depth as int, common@, old_byte);
                if depth <= other.len() {
                    assert(other.subrange(depth as int, depth as int) =~= common@);
                }
            }
        }
        assert(chained(pair, common@, pair));
        return Ok((n4, Ghost(pair)));
    }
    let out = write_prefix_chain(frame, common, n4, Ghost(pair));
    match out {
        Ok((s, gu)) => {
            proof {
                let u = gu@;
                lemma_keeps_trans(c0, c2, frame.cells@);
                assert(at(frame.cells@, n4 as int) == at(c2, n4 as int));
                assert(chained(u, common@, pair) && forks(frame.cells@, pair, old_byte, Seq::empty(), old_t, key@, key@[e as int], value@, seq));
                assert(key@.take(depth as int) + common@ =~= mid) by {
                    assert forall|i: int| depth <= i < e implies common@[i - depth] == key@[i] by {
                        assert(key@.subrange(depth as int, depth + common@.len())[i - depth] == common@[i - depth]);
                    }
                }
                assert(keyed(u, key@.take(depth as int)) == keyed(pair, key@.take(depth as int) + common@));
                assert forall|s2: int| #[trigger] owns(u, s2) implies owns(old_t, s2) || at(c0, s2) is None by {
                    if !owns(pair, s2) {
                        assert(at(c2, s2) is None);
                        if at(c0, s2) is Some {
                            assert(at(c2, s2) == at(c0, s2));
                        }
                    }
                }
                assert(step(u, key@, depth as int) == behind(pair, common@, key@, depth as int));
                assert forall|other: Seq<u8>| other != key@ implies #[trigger] step(u, other, depth as int) == (
                if matches_at(other, depth as int, common@.push(old_byte)) {
                    step(old_t, other, e + 1)
                } else {
                    Route::NotFound
                }) by {
                    assert(step(u, other, depth as int) == behind(pair, common@, other, depth as int));
                    if matches_at(other, depth as int, common@) {
                        assert(step(pair, other, e as int) == step(pair, other, depth + common@.len()));
                    }
                }
            }
            Ok((s, gu))
        },
        Err(err) => {
            proof {
                lemma_failed_after(f0, *frame, c2);
            }
            Err(err)
        },
    }
}

/// One more byte matches exactly when the bytes before it do and it is the
/// next byte.
pub proof fn lemma_matches_push(key: Seq<u8>, d: int, part: Seq<u8>, b: u8)
    ensures
        matches_at(key, d, part.push(b)) <==> matches_at(key, d, part) && d + part.len() < key.len() && key[d + part.len()] == b,
{
    let one_b = seq![b];
    assert(part.push(b) =~= part + one_b);
    crate::writers::lemma_matches_concat(key, d, part, one_b);
    let e = d + part.len();
    if matches_at(key, e, one_b) {
        assert(key.subrange(e, e + 1)[0] == one_b[0]);
    }
    if 0 <= e < key.len() && key[e] == b {
        assert(key.subrange(e, e + 1) =~= one_b);
    }
}

/// Keeping nodes is transitive.
pub proof fn lemma_keeps_trans(a: Seq<Option<Node>>, b: Seq<Option<Node>>, c: Seq<Option<Node>>)
    requires
        keeps(a, b),
        keeps(b, c),
    ensures
        keeps(a, c),
{
    assert forall|s: int| (#[trigger] at(a, s)) is Some implies at(c, s) == at(a, s) by {
        assert(at(b, s) == at(a, s));
    }
}

/// A failure after earlier allocations is a failure of the whole.
pub proof fn lemma_failed_after(f0: BlobFrame, f: BlobFrame, mid: Seq<Option<Node>>)
    requires
        f.ok(),
        keeps(f0.cells@, mid),
        keeps(mid, f.cells@),
        f.arena_end == f0.arena_end,
        f.header == (BlobHeader { space_used: f.header.space_used, num_slots: f.header.num_slots, ..f0.header }),
    ensures
        failed(f0, f),
{
    lemma_keeps_trans(f0.cells@, mid, f.cells@);
}

/// Whether a single-blob insert may start at `slot`.
pub open spec fn insert_ready(f: BlobFrame, slot: u16, key: Seq<u8>, value: Seq<u8>, d: int, t: Art) -> bool {
    &&& f.ok()
    &&& slot_of(t) == slot
    &&& rep(f.cells@, t)
    &&& sep(t)
    &&& 0 <= d <= key.len()
    &&& keyed(t, key.take(d))
    &&& key.len() <= 65535
    &&& value.len() <= 65535
    &&& dead(t) <= f.header.tombstone_leaf_cnt
}

/// Nothing was written.
fn unchanged(slot: u16, Ghost(t): Ghost<Art>) -> (r: Result<InsertStep>)
    ensures
        r matches Ok(InsertStep::Done(x)) && x.slot_after == slot && !x.mutated && x.tree@ == t,
{
    Ok(InsertStep::Done(InsertReturn { slot_after: slot, mutated: false, tree: Ghost(t) }))
}

/// Replaces the empty root by the record.
fn insert_into_empty_root(
    frame: &mut BlobFrame,
    slot: u16,
    key: SearchKey,
    value: &[u8],
    depth: usize,
    seq: u64,
    condition: InsertCondition,
    allow_crossing: bool,
    fresh: bool,
    Ghost(t): Ghost<Art>,
) -> (r: Result<InsertStep>)
    requires
        insert_ready(*old(frame), slot, key@, value@, depth as int, t),
        t is Empty,
    ensures
        insert_result(*old(frame), *final(frame), t, key@, value@, depth as int, seq, condition, allow_crossing, fresh, r),
{
    if let InsertCondition::IfVersion(_) = condition {
        return unchanged(slot, Ghost(t));
    }
    match write_leaf(frame, key, value, seq) {
        Ok(s) => {
            frame.note_abandoned(slot);
            let ghost t2 = Art::Leaf { slot: s as int, key: key@, value: value@, seq, dead: false };
            assert(key@.take(depth as int).is_prefix_of(key@));
            Ok(InsertStep::Done(InsertReturn { slot_after: s, mutated: true, tree: Ghost(t2) }))
        },
        Err(e) => Err(e),
    }
}

/// A copy of `s`.
pub fn copy_bytes(s: &[u8]) -> (r: Vec<u8>)
    ensures
        r@ == s@,
{
    let mut out: Vec<u8> = Vec::new();
    out.extend_from_slice(s);
    assert(out@ =~= s@);
    out
}

/// Updates the leaf when it has the key, otherwise splits it from the
/// record.
fn insert_into_leaf(
    frame: &mut BlobFrame,
    slot: u16,
    key: SearchKey,
    value: &[u8],
    depth: usize,
    seq: u64,
    condition: InsertCondition,
    allow_crossing: bool,
    fresh: bool,
    Ghost(t): Ghost<Art>,
) -> (r: Result<InsertStep>)
    requires
        insert_ready(*old(frame), slot, key@, value@, depth as int, t),
        t is Leaf,
    ensures
        insert_result(*old(frame), *final(frame), t, key@, value@, depth as int, seq, condition, allow_crossing, fresh, r),
{
    let ghost f0 = *frame;
    let ghost k0 = t->Leaf_key;
    let leaf: &Leaf = match frame.node_at(slot) {
        Some(Node::Leaf(l)) => l,
        _ => {
            return Err(Error::NodeCorrupt { context: "insert_into_leaf: not a leaf" });
        },
    };
    if key.eq_slice(&leaf.key) {
        let was_tombstoned: bool = leaf.tombstone;
        let allowed: bool = match condition {
            InsertCondition::Always => true,
            InsertCondition::IfAbsent => was_tombstoned,
            InsertCondition::IfVersion(expected) => !was_tombstoned && leaf.seq == expected,
        };
        if !allowed {
            return unchanged(slot, Ghost(t));
        }
        let key_len: usize = leaf.key.len();
        let new_total: u32 = leaf_body_size(key_len as u32, value.len() as u32);
        let cur_total: u32 = leaf_body_size(key_len as u32, leaf.value.len() as u32);
        assert(key@.take(depth as int).is_prefix_of(key@));
        if !fresh && new_total <= cur_total {
            let body = Leaf { key: copy_bytes(&leaf.key), value: copy_bytes(value), seq, tombstone: false, key_fp: key.fingerprint() };
            frame.set_node(slot, Node::Leaf(body));
            if was_tombstoned {
                frame.header.tombstone_leaf_cnt = frame.header.tombstone_leaf_cnt - 1;
            }
            let ghost t2 = Art::Leaf { slot: slot as int, key: key@, value: value@, seq, dead: false };
            proof {
                assert(rep(frame.cells@, t2));
                assert(edits(f0.cells@, t, frame.cells@, t2));
                lemma_ok_after_set(f0, *frame, slot as int);
            }
            return Ok(InsertStep::Done(InsertReturn { slot_after: slot, mutated: true, tree: Ghost(t2) }));
        }
        let new_slot: u16 = match write_leaf(frame, key, value, seq) {
            Ok(s) => s,
            Err(e) => {
                return Err(e);
            },
        };
        frame.note_abandoned(slot);
        if was_tombstoned {
            frame.header.tombstone_leaf_cnt = frame.header.tombstone_leaf_cnt - 1;
        }
        let ghost t2 = Art::Leaf { slot: new_slot as int, key: key@, value: value@, seq, dead: false };
        return Ok(InsertStep::Done(InsertReturn { slot_after: new_slot, mutated: true, tree: Ghost(t2) }));
    }
    let suffix: &[u8] = &leaf.key[depth..leaf.key.len()];
    let common_len: usize = key.common_prefix_with_slice(depth, suffix);
    proof {
        lemma_lcp_matches(key@, depth as int, k0.skip(depth as int));
        lemma_split(key@, k0, depth as int);
        assert(suffix@ =~= k0.skip(depth as int));
    }
    if common_len == suffix.len() || common_len == key.remaining_len(depth) {
        return Err(Error::NotYetImplemented("one key is a strict prefix of the other"));
    }
    if let InsertCondition::IfVersion(_) = condition {
        return unchanged(slot, Ghost(t));
    }
    let common: Vec<u8> = copy_bytes(&suffix[0..common_len]);
    let old_byte: u8 = suffix[common_len];
    proof {
        lemma_split_parts(key@, k0, depth as int, common@, old_byte);
    }
    match branch_off(frame, &common, old_byte, slot, key, value, depth, seq, Ghost(t)) {
        Ok((s, g)) => {
            proof {
                let u = g@;
                assert(common@ =~= k0.skip(depth as int).take(common_len as int));
                assert(written(f0.cells@, t, frame.cells@, u, key@, value@, depth as int, seq));
                assert forall|other: Seq<u8>| other != key@ implies #[trigger] step(u, other, depth as int) == step(t, other, depth as int) by {
                    assert(step(t, other, depth + common@.len() + 1) == step(t, other, depth as int));
                    if !matches_at(other, depth as int, common@.push(old_byte)) {
                        assert(other != k0);
                    }
                }
            }
            Ok(InsertStep::Done(InsertReturn { slot_after: s, mutated: true, tree: g }))
        },
        Err(e) => Err(e),
    }
}

/// Replacing a present node by one that is no longer keeps the header in
/// agreement.
pub proof fn lemma_ok_after_set(f0: BlobFrame, f: BlobFrame, slot: int)
    requires
        f0.ok(),
        at(f0.cells@, slot) is Some,
        at(f.cells@, slot) matches Some(n) ==> crate::layout::node_size(n) <= crate::layout::node_size(at(f0.cells@, slot)->0),
        f.cells@.len() == f0.cells@.len(),
        forall|i: int| i != slot ==> #[trigger] at(f.cells@, i) == at(f0.cells@, i),
        f.arena_end == f0.arena_end,
        f.header.space_used == f0.header.space_used,
        f.header.num_slots == f0.header.num_slots,
    ensures
        f.ok(),
{
    assert forall|i: int|
        crate::frame::unit_of(f.header.space_used as int) <= i < crate::frame::unit_of(f.arena_end as int) implies (#[trigger] at(f.cells@, i)) is None by {
        assert(at(f0.cells@, i) is None);
    }
    assert(at(f0.cells@, 0) is None);
    assert forall|i: int| crate::frame::ends_within(i, #[trigger] at(f.cells@, i)) by {
        assert(crate::frame::ends_within(i, at(f0.cells@, i)));
    }
    crate::extent::lemma_extents_set(f0.cells@, f.cells@, f0.header.space_used as int, f0.header.num_slots as int, slot);
}

/// Two keys with the same first `d` bytes conflict exactly when their
/// agreement exhausts one of them.
pub proof fn lemma_split(key: Seq<u8>, k: Seq<u8>, d: int)
    requires
        0 <= d <= key.len(),
        key.take(d).is_prefix_of(k),
        k != key,
    ensures
        ({
            let n = lcp(key.skip(d), k.skip(d)) as int;
            (n == k.len() - d || n == key.len() - d) <==> (k.is_prefix_of(key) || key.is_prefix_of(k))
        }),
{
    let a = key.skip(d);
    let b = k.skip(d);
    crate::simd::lemma_lcp(a, b);
    let n = lcp(a, b) as int;
    assert(key.take(d) =~= k.take(d));
    assert forall|i: int| 0 <= i < d + n implies key[i] == k[i] by {
        if i < d {
            assert(key.take(d)[i] == k.take(d)[i]);
        } else {
            assert(a[i - d] == b[i - d]);
        }
    }
    if n == k.len() - d {
        assert(k =~= key.take(k.len() as int));
    }
    if n == key.len() - d {
        assert(key =~= k.take(key.len() as int));
    }
    if n < k.len() - d && n < key.len() - d {
        assert(a[n] != b[n]);
        assert(key[d + n] != k[d + n]);
        if k.is_prefix_of(key) {
            assert(key.take(k.len() as int)[d + n] == k[d + n]);
        }
        if key.is_prefix_of(k) {
            assert(k.take(key.len() as int)[d + n] == key[d + n]);
        }
    }
}

/// The parts of a split: what agrees, and the first bytes that do not.
pub proof fn lemma_split_parts(key: Seq<u8>, k: Seq<u8>, d: int, common: Seq<u8>, old_byte: u8)
    requires
        0 <= d <= key.len(),
        key.take(d).is_prefix_of(k),
        ({
            let n = lcp(key.skip(d), k.skip(d)) as int;
            &&& n < k.len() - d
            &&& n < key.len() - d
            &&& common == k.skip(d).take(n)
            &&& old_byte == k.skip(d)[n]
        }),
    ensures
        d + common.len() < key.len(),
        matches_at(key, d, common),
        key[d + common.len()] != old_byte,
        matches_at(k, d, common.push(old_byte)),
        key.take(d + common.len()).push(old_byte).is_prefix_of(k),
{
    let a = key.skip(d);
    let b = k.skip(d);
    crate::simd::lemma_lcp(a, b);
    let n = lcp(a, b) as int;
    assert forall|i: int| 0 <= i < n implies key.subrange(d, d + n)[i] == common[i] by {
        assert(a[i] == b[i]);
    }
    assert(key.subrange(d, d + n) =~= common);
    assert(a[n] != b[n]);
    let full = common.push(old_byte);
    assert(k.subrange(d, d + n + 1) =~= full);
    let head = key.take(d + n).push(old_byte);
    assert forall|i: int| 0 <= i < d + n + 1 implies head[i] == k[i] by {
        if i < d {
            assert(k.take(d)[i] == key.take(d)[i]);
        } else if i < d + n {
            assert(a[i - d] == b[i - d]);
        } else {
            assert(k.skip(d)[n] == k[d + n]);
        }
    }
    assert(head =~= k.take(d + n + 1));
}

/// Whether the blob has room for `nodes` nodes of `bytes` bytes together.
pub fn can_afford(frame: &BlobFrame, bytes: u32, nodes: u32) -> (r: bool)
    requires
        frame.ok(),
        nodes > 0,
        bytes <= 1_000_000,
        nodes <= 1_000_000,
    ensures
        r == affords(*frame, (Cost { bytes: bytes as int, nodes: nodes as int })),
{
    let end: u32 = if frame.arena_end < PAGE_SIZE {
        frame.arena_end
    } else {
        PAGE_SIZE - SPILLOVER_RESERVATION
    };
    frame.header.space_used + bytes <= end && frame.header.num_slots + nodes <= MAX_SLOTS
}

/// The error for a blob that cannot take `nodes` nodes of `bytes` bytes.
fn shortage(frame: &BlobFrame, bytes: u32, nodes: u32) -> (r: Error)
    requires
        frame.ok(),
        nodes <= 1_000_000,
        nodes > 0,
        bytes <= 1_000_000,
        !affords(*frame, (Cost { bytes: bytes as int, nodes: nodes as int })),
    ensures
        short(*frame, *frame, (Cost { bytes: bytes as int, nodes: nodes as int }), r),
{
    if frame.header.num_slots + nodes > MAX_SLOTS {
        Error::Alloc(AllocError::OutOfSlots)
    } else {
        Error::Alloc(AllocError::OutOfSpace { requested: bytes, available: frame.available(false) })
    }
}

/// Splits a blob node's inline prefix where the key leaves it, or reports
/// the crossing when the key follows it to its end.
fn blob_node_insert_step(
    frame: &mut BlobFrame,
    slot: u16,
    key: SearchKey,
    value: &[u8],
    depth: usize,
    seq: u64,
    condition: InsertCondition,
    allow_crossing: bool,
    fresh: bool,
    Ghost(t): Ghost<Art>,
) -> (r: Result<InsertStep>)
    requires
        insert_ready(*old(frame), slot, key@, value@, depth as int, t),
        t is Blob,
    ensures
        insert_result(*old(frame), *final(frame), t, key@, value@, depth as int, seq, condition, allow_crossing, fresh, r),
{
    let ghost f0 = *frame;
    let (prefix, guid) = match frame.node_at(slot) {
        Some(Node::Blob(b)) => (copy_bytes(&b.bytes), b.child_blob_guid),
        _ => {
            return Err(Error::NodeCorrupt { context: "blob_node_insert_step: not a blob node" });
        },
    };
    let plen: usize = prefix.len();
    let common: usize = key.common_prefix_with_slice(depth, &prefix);
    proof {
        lemma_lcp_matches(key@, depth as int, prefix@);
        if depth == key@.len() {
            assert(key@.skip(depth as int) =~= Seq::<u8>::empty());
        }
    }
    if common == plen {
        if !allow_crossing {
            return Err(Error::NotYetImplemented("a blob crossing needs the buffer manager"));
        }
        return Ok(InsertStep::Crossing(BlobCrossing { child_guid: guid, child_depth: depth + plen, parent_slot: slot }));
    }
    if depth + common >= key.len() {
        return Err(Error::NotYetImplemented("key ends inside a blob node's prefix"));
    }
    if let InsertCondition::IfVersion(_) = condition {
        return unchanged(slot, Ghost(t));
    }
    let leaf_bytes: u32 = leaf_body_size(key.len() as u32, value.len() as u32);
    let links: u32 = ((common + (PREFIX_MAX_INLINE - 1)) / PREFIX_MAX_INLINE) as u32;
    assert(links <= 1);
    let bytes: u32 = leaf_bytes + 16 + links * 128;
    let nodes: u32 = 2 + links;
    assert(branch_cost(key@, value@.len() as int, common as int) == (Cost { bytes: bytes as int, nodes: nodes as int }));
    if !can_afford(frame, bytes, nodes) {
        return Err(shortage(frame, bytes, nodes));
    }
    // The branch consumes one byte of the prefix; the blob node keeps the rest.
    let old_byte: u8 = prefix[common];
    let tail: Vec<u8> = copy_bytes(&prefix[common + 1..plen]);
    let head: Vec<u8> = copy_bytes(&prefix[0..common]);
    let ghost bytes0 = prefix@;
    let ghost tb = Art::Blob { slot: slot as int, bytes: tail@, guid };
    frame.set_node(slot, Node::Blob(BlobNode { bytes: tail, child_blob_guid: guid }));
    let ghost f1 = *frame;
    proof {
        lemma_ok_after_set(f0, *frame, slot as int);
        assert(rep(frame.cells@, tb));
        assert(bytes0 =~= (head@.push(old_byte)) + tb->Blob_bytes);
        crate::simd::lemma_lcp(key@.skip(depth as int), bytes0);
        assert(matches_at(key@, depth as int, head@)) by {
            assert forall|i: int| 0 <= i < common implies key@.subrange(depth as int, depth + common)[i] == head@[i] by {
                assert(key@.skip(depth as int)[i] == bytes0[i]);
            }
        }
        assert(key@[depth + common] != old_byte);
    }
    match branch_off(frame, &head, old_byte, slot, key, value, depth, seq, Ghost(tb)) {
        Ok((s, g)) => {
            proof {
                let u = g@;
                assert(head@ =~= bytes0.take(common as int));
                assert(tb->Blob_bytes =~= bytes0.skip(common + 1));
                assert(written(f0.cells@, t, frame.cells@, u, key@, value@, depth as int, seq));
                assert forall|other: Seq<u8>| other != key@ implies #[trigger] step(u, other, depth as int) == step(t, other, depth as int) by {
                    crate::writers::lemma_matches_concat(other, depth as int, head@.push(old_byte), tb->Blob_bytes);
                    assert(step(tb, other, depth + head@.len() + 1) == (if matches_at(other, depth + head@.len() + 1, tb->Blob_bytes) {
                        Route::Crossing { guid, depth: depth + head@.len() + 1 + tb->Blob_bytes.len() }
                    } else {
                        Route::NotFound
                    }));
                }
                assert(edits(f0.cells@, t, frame.cells@, u)) by {
                    assert forall|s2: int| (#[trigger] at(f0.cells@, s2)) is Some && !owns(t, s2) implies at(frame.cells@, s2) == at(f0.cells@, s2) by {
                        assert(at(f1.cells@, s2) == at(f0.cells@, s2));
                    }
                    assert forall|s2: int| #[trigger] owns(u, s2) implies owns(t, s2) || at(f0.cells@, s2) is None by {
                        if !owns(tb, s2) {
                            assert(at(f1.cells@, s2) is None);
                            assert(at(f0.cells@, s2) is None);
                        }
                    }
                }
            }
            Ok(InsertStep::Done(InsertReturn { slot_after: s, mutated: true, tree: g }))
        },
        Err(e) => {
            assert(false);
            Err(e)
        },
    }
}

/// Inserts the record below the node at `slot`.
pub fn insert_at_step(
    frame: &mut BlobFrame,
    slot: u16,
    key: SearchKey,
    value: &[u8],
    depth: usize,
    seq: u64,
    condition: InsertCondition,
    allow_crossing: bool,
    fresh: bool,
    Ghost(t): Ghost<Art>,
) -> (r: Result<InsertStep>)
    requires
        insert_ready(*old(frame), slot, key@, value@, depth as int, t),
    ensures
        insert_result(*old(frame), *final(frame), t, key@, value@, depth as int, seq, condition, allow_crossing, fresh, r),
    decreases t, 1int,
{
    match frame.node_at(slot) {
        Some(Node::EmptyRoot) => insert_into_empty_root(frame, slot, key, value, depth, seq, condition, allow_crossing, fresh, Ghost(t)),
        Some(Node::Leaf(_)) => insert_into_leaf(frame, slot, key, value, depth, seq, condition, allow_crossing, fresh, Ghost(t)),
        Some(Node::Prefix(_)) => insert_into_prefix_step(frame, slot, key, value, depth, seq, condition, allow_crossing, fresh, Ghost(t)),
        Some(Node::Blob(_)) => blob_node_insert_step(frame, slot, key, value, depth, seq, condition, allow_crossing, fresh, Ghost(t)),
        Some(_) => insert_into_inner_step(frame, slot, key, value, depth, seq, condition, allow_crossing, fresh, Ghost(t)),
        None => {
            proof {
                lemma_rep_root(frame.cells@, t);
            }
            Err(Error::NodeCorrupt { context: "insert_at: undecodable node" })
        },
    }
}

/// The root node of a tree is present.
pub proof fn lemma_rep_root(c: Seq<Option<Node>>, t: Art)
    requires
        rep(c, t),
    ensures
        at(c, slot_of(t)) is Some,
{
    crate::art::lemma_owns_present(c, t, slot_of(t));
}

/// The two ways of naming the parts of a split prefix agree.
proof fn lemma_prefix_split(
    c1: Seq<Option<Node>>,
    c2: Seq<Option<Node>>,
    t: Art,
    u: Art,
    kept: Art,
    head: Seq<u8>,
    old_byte: u8,
    tail: Seq<u8>,
    key: Seq<u8>,
    d: int,
    value: Seq<u8>,
    seq: u64,
)
    requires
        t is Prefix,
        head.len() == lcp(key.skip(d), t->Prefix_bytes),
        t->Prefix_bytes == head.push(old_byte) + tail,
        chained(kept, tail, *t->child),
        exists|pair: Art| #[trigger]
            chained(u, head, pair) && forks(c1, pair, old_byte, Seq::empty(), kept, key, key[d + head.len()], value, seq),
        forall|s: int| #[trigger] owns(u, s) ==> at(c2, s) == at(c1, s),
    ensures
        branched(c2, u, t->Prefix_bytes, *t->child, key, d, value, seq),
{
    let bytes = t->Prefix_bytes;
    let n = head.len() as int;
    let pair = choose|pair: Art| #[trigger]
        chained(u, head, pair) && forks(c1, pair, old_byte, Seq::empty(), kept, key, key[d + head.len()], value, seq);
    assert(bytes.take(n) =~= head);
    assert(bytes.skip(n + 1) =~= tail);
    assert(bytes[n] == old_byte);
    crate::writers::lemma_chained_owns(u, head, pair, slot_of(pair));
    assert(forks(c2, pair, bytes[n], bytes.skip(n + 1), *t->child, key, key[d + n], value, seq));
}

/// Follows a prefix node, or splits it where the key leaves it.
#[verifier::rlimit(40)]
fn insert_into_prefix_step(
    frame: &mut BlobFrame,
    slot: u16,
    key: SearchKey,
    value: &[u8],
    depth: usize,
    seq: u64,
    condition: InsertCondition,
    allow_crossing: bool,
    fresh: bool,
    Ghost(t): Ghost<Art>,
) -> (r: Result<InsertStep>)
    requires
        insert_ready(*old(frame), slot, key@, value@, depth as int, t),
        t is Prefix,
    ensures
        insert_result(*old(frame), *final(frame), t, key@, value@, depth as int, seq, condition, allow_crossing, fresh, r),
    decreases t, 0int,
{
    let ghost f0 = *frame;
    let ghost k = *t->child;
    let (prefix, child) = match frame.node_at(slot) {
        Some(Node::Prefix(p)) => (copy_bytes(&p.bytes), p.child),
        _ => {
            return Err(Error::NodeCorrupt { context: "insert_into_prefix: not a prefix node" });
        },
    };
    let plen: usize = prefix.len();
    let common: usize = key.common_prefix_with_slice(depth, &prefix);
    proof {
        lemma_lcp_matches(key@, depth as int, prefix@);
        if depth == key@.len() {
            assert(key@.skip(depth as int) =~= Seq::<u8>::empty());
        }
    }
    if common == plen {
        assert(key@.take(depth as int) + prefix@ =~= key@.take(depth + plen)) by {
            assert forall|i: int| depth <= i < depth + plen implies prefix@[i - depth] == key@[i] by {
                assert(key@.subrange(depth as int, depth + plen)[i - depth] == prefix@[i - depth]);
            }
        }
        let r = insert_at_step(frame, child, key, value, depth + plen, seq, condition, allow_crossing, fresh, Ghost(k));
        return match r {
            Ok(InsertStep::Done(x)) => {
                if !x.mutated {
                    unchanged(slot, Ghost(t))
                } else {
                    let ghost k2 = x.tree@;
                    let ghost c1 = frame.cells@;
                    let ghost f1 = *frame;
                    proof {
                        assert(at(c1, slot as int) == at(f0.cells@, slot as int));
                    }
                    if x.slot_after != child {
                        frame.set_node(slot, Node::Prefix(Prefix { bytes: prefix, child: x.slot_after }));
                        proof {
                            lemma_ok_after_set(f1, *frame, slot as int);
                        }
                    }
                    let ghost t2 = Art::Prefix { slot: slot as int, bytes: t->Prefix_bytes, child: Box::new(k2) };
                    proof {
                        crate::writers::lemma_replug_prefix(f0.cells@, c1, frame.cells@, t, k2, key@.take(depth as int));
                        assert forall|s: int| #[trigger] owns(k2, s) implies at(frame.cells@, s) == at(c1, s) by {
                            assert(owns(k, s) || at(f0.cells@, s) is None);
                        }
                        lemma_written_frame(f0.cells@, k, c1, frame.cells@, k2, key@, value@, depth + plen, seq);
                        assert forall|other: Seq<u8>| other != key@ implies #[trigger] step(t2, other, depth as int) == step(t, other, depth as int) by {
                            assert(step(k2, other, depth + plen) == step(k, other, depth + plen));
                        }
                        assert(step(k2, key@, depth + plen) == (Route::Found { value: value@, seq }));
                    }
                    Ok(InsertStep::Done(InsertReturn { slot_after: slot, mutated: true, tree: Ghost(t2) }))
                }
            },
            other => other,
        };
    }
    if depth + common >= key.len() {
        return Err(Error::NotYetImplemented("key ends inside a prefix"));
    }
    if let InsertCondition::IfVersion(_) = condition {
        return unchanged(slot, Ghost(t));
    }
    let old_byte: u8 = prefix[common];
    let head: Vec<u8> = copy_bytes(&prefix[0..common]);
    let tail: Vec<u8> = copy_bytes(&prefix[common + 1..plen]);
    proof {
        crate::simd::lemma_lcp(key@.skip(depth as int), prefix@);
        assert(prefix@ =~= head@.push(old_byte) + tail@);
        assert(matches_at(key@, depth as int, head@)) by {
            assert forall|i: int| 0 <= i < common implies key@.subrange(depth as int, depth + common)[i] == head@[i] by {
                assert(key@.skip(depth as int)[i] == prefix@[i]);
            }
        }
        assert(key@[depth + common] != old_byte);
        let mid = key@.take(depth + common).push(old_byte);
        assert(mid + tail@ =~= key@.take(depth as int) + prefix@) by {
            assert forall|i: int| depth <= i < depth + common implies key@[i] == prefix@[i - depth] by {
                assert(key@.skip(depth as int)[i - depth] == prefix@[i - depth]);
            }
        }
        assert(k == *t->child);
        assert(!owns(k, slot as int));
    }
    let mut branch: u16 = child;
    let ghost mut branch_t: Art = k;
    if tail.len() == 0 {
        proof {
            assert(chained(k, tail@, k));
            assert(key@.take(depth + common).push(old_byte) =~= key@.take(depth + common).push(old_byte) + tail@);
        }
    } else {
        match write_prefix_chain(frame, &tail, child, Ghost(k)) {
            Ok((s, g)) => {
                branch = s;
                proof {
                    branch_t = g@;
                    assert(keyed(branch_t, key@.take(depth + common).push(old_byte)));
                }
            },
            Err(e) => {
                return Err(e);
            },
        }
    }
    let ghost f1 = *frame;
    proof {
        if tail@.len() == 0 {
            assert(chain_nodes(0) == 0);
            assert(f1 == f0);
        }
        assert forall|other: Seq<u8>, e: int| #[trigger] step(branch_t, other, e) == (if tail@.len() == 0 {
            step(k, other, e)
        } else {
            behind(k, tail@, other, e)
        }) by {}
    }
    match branch_off(frame, &head, old_byte, branch, key, value, depth, seq, Ghost(branch_t)) {
        Ok((s, g)) => {
            proof {
                assert(at(f1.cells@, slot as int) == at(f0.cells@, slot as int));
                assert(at(frame.cells@, slot as int) == at(f1.cells@, slot as int));
            }
            let ghost f2 = *frame;
            frame.note_abandoned(slot);
            proof {
                let u = g@;
                lemma_keeps_trans(f0.cells@, f1.cells@, f2.cells@);
                lemma_prefix_split(f2.cells@, frame.cells@, t, u, branch_t, head@, old_byte, tail@, key@, depth as int, value@, seq);
                assert forall|s: int| #[trigger] owns(*t->child, s) implies at(frame.cells@, s) == at(f0.cells@, s) by {
                    crate::art::lemma_owns_present(f0.cells@, *t->child, s);
                }
                assert(written(f0.cells@, t, frame.cells@, u, key@, value@, depth as int, seq));
                assert forall|other: Seq<u8>| other != key@ implies #[trigger] step(u, other, depth as int) == step(t, other, depth as int) by {
                    crate::writers::lemma_matches_concat(other, depth as int, head@.push(old_byte), tail@);
                    let e = depth + head@.len() + 1;
                    assert(step(branch_t, other, e) == (if tail@.len() == 0 {
                        step(k, other, e)
                    } else {
                        behind(k, tail@, other, e)
                    }));
                    if tail@.len() == 0 {
                        assert(prefix@ =~= head@.push(old_byte));
                    }
                }
                assert(edits(f0.cells@, t, frame.cells@, u)) by {
                    assert forall|s2: int| #[trigger] owns(u, s2) implies owns(t, s2) || at(f0.cells@, s2) is None by {
                        if owns(branch_t, s2) {
                            if owns(k, s2) {
                                assert(owns(t, s2));
                            }
                        } else {
                            assert(at(f1.cells@, s2) is None);
                            if at(f0.cells@, s2) is Some {
                                assert(at(f1.cells@, s2) == at(f0.cells@, s2));
                            }
                        }
                    }
                }
            }
            Ok(InsertStep::Done(InsertReturn { slot_after: s, mutated: true, tree: g }))
        },
        Err(e) => {
            proof {
                lemma_failed_after(f0, *frame, f1.cells@);
            }
            Err(e)
        },
    }
}

/// Follows the key's byte below an inner node, or adds the record there.
fn insert_into_inner_step(
    frame: &mut BlobFrame,
    slot: u16,
    key: SearchKey,
    value: &[u8],
    depth: usize,
    seq: u64,
    condition: InsertCondition,
    allow_crossing: bool,
    fresh: bool,
    Ghost(t): Ghost<Art>,
) -> (r: Result<InsertStep>)
    requires
        insert_ready(*old(frame), slot, key@, value@, depth as int, t),
        t is Inner,
    ensures
        insert_result(*old(frame), *final(frame), t, key@, value@, depth as int, seq, condition, allow_crossing, fresh, r),
    decreases t, 0int,
{
    let ghost f0 = *frame;
    let byte: u8 = match key.byte_at(depth) {
        Some(b) => b,
        None => {
            return Err(Error::NotYetImplemented("key ends at an inner node"));
        },
    };
    let ghost path = key@.take(depth as int);
    let found: Option<u16> = match frame.node_at(slot) {
        Some(n) => inner_find_child(n, byte),
        None => {
            return Err(Error::NodeCorrupt { context: "insert_into_inner: undecodable node" });
        },
    };
    assert(t->kids[byte as int] is Some <==> found is Some);
    if let Some(child) = found {
        let ghost k = t->kids[byte as int]->0;
        proof {
            assert(path.push(byte) =~= key@.take(depth + 1));
            crate::art::lemma_dead_update(t->kids, byte as int, None, 256);
        }
        let r = insert_at_step(frame, child, key, value, depth + 1, seq, condition, allow_crossing, fresh, Ghost(k));
        return match r {
            Ok(InsertStep::Done(x)) => {
                if !x.mutated {
                    unchanged(slot, Ghost(t))
                } else {
                    let ghost k2 = x.tree@;
                    let ghost f1 = *frame;
                    proof {
                        assert(!owns(t->kids[byte as int]->0, slot as int));
                        assert(at(f1.cells@, slot as int) == at(f0.cells@, slot as int));
                    }
                    if x.slot_after != child {
                        match &mut frame.cells[slot as usize] {
                            Some(n) => {
                                inner_update_child(n, byte, x.slot_after);
                            },
                            None => {},
                        }
                        proof {
                            assert(at(frame.cells@, slot as int) is Some);
                            assert forall|i: int| i != slot implies #[trigger] at(frame.cells@, i) == at(f1.cells@, i) by {}
                            lemma_ok_after_set(f1, *frame, slot as int);
                        }
                    }
                    let ghost t2 = crate::writers::with_kid(t, byte, k2);
                    proof {
                        crate::writers::lemma_replug_inner(f0.cells@, f1.cells@, frame.cells@, t, byte, k2, path);
                        assert forall|s: int| #[trigger] owns(k2, s) implies at(frame.cells@, s) == at(f1.cells@, s) by {
                            assert(owns(k, s) || at(f0.cells@, s) is None);
                        }
                        lemma_written_frame(f0.cells@, k, f1.cells@, frame.cells@, k2, key@, value@, depth + 1, seq);
                        assert forall|x: int| 0 <= x < 256 && x != byte && (#[trigger] t->kids[x]) is Some implies stays(
                            f0.cells@,
                            frame.cells@,
                            t->kids[x]->0,
                        ) by {
                            lemma_kid_beside(f0.cells@, t, x, byte as int);
                        }
                        assert(written(f0.cells@, t, frame.cells@, t2, key@, value@, depth as int, seq));
                        assert forall|other: Seq<u8>| other != key@ implies #[trigger] step(t2, other, depth as int) == step(t, other, depth as int) by {
                            assert(step(k2, other, depth + 1) == step(k, other, depth + 1));
                        }
                        assert(step(k2, key@, depth + 1) == (Route::Found { value: value@, seq }));
                    }
                    Ok(InsertStep::Done(InsertReturn { slot_after: slot, mutated: true, tree: Ghost(t2) }))
                }
            },
            other => other,
        };
    }
    if let InsertCondition::IfVersion(_) = condition {
        return unchanged(slot, Ghost(t));
    }
    let new_leaf: u16 = match write_leaf(frame, key, value, seq) {
        Ok(s) => s,
        Err(e) => {
            return Err(e);
        },
    };
    let ghost f1 = *frame;
    let ghost leaf_t = Art::Leaf { slot: new_leaf as int, key: key@, value: value@, seq, dead: false };
    assert(at(f1.cells@, slot as int) == at(f0.cells@, slot as int));
    let slot2: u16 = match inner_add_child(frame, slot, byte, new_leaf) {
        Ok(s) => s,
        Err(e) => {
            proof {
                lemma_failed_after(f0, *frame, f1.cells@);
            }
            return Err(e);
        },
    };
    let ghost t2 = Art::Inner { slot: slot2 as int, kids: t->kids.update(byte as int, Some(leaf_t)) };
    proof {
        assert(path.push(byte) =~= key@.take(depth + 1));
        assert(key@.take(depth + 1).is_prefix_of(key@));
        crate::writers::lemma_plug_inner(f0.cells@, f1.cells@, frame.cells@, t, byte, leaf_t, slot2 as int, path);
        assert forall|x: int| 0 <= x < 256 && x != byte && (#[trigger] t->kids[x]) is Some implies stays(f0.cells@, frame.cells@, t->kids[x]->0) by {
            lemma_kid_beside(f0.cells@, t, x, x);
        }
        assert forall|other: Seq<u8>| other != key@ implies #[trigger] step(t2, other, depth as int) == step(t, other, depth as int) by {
            assert(step(leaf_t, other, depth + 1) == Route::NotFound);
        }
        assert(step(leaf_t, key@, depth + 1) == (Route::Found { value: value@, seq }));
    }
    Ok(InsertStep::Done(InsertReturn { slot_after: slot2, mutated: true, tree: Ghost(t2) }))
}

/// Adds a child to the inner node at `slot`, growing it into a fresh node
/// when it is full.
pub fn inner_add_child(frame: &mut BlobFrame, slot: u16, byte: u8, child: u16) -> (r: Result<u16>)
    requires
        old(frame).ok(),
        child != 0,
        at(old(frame).cells@, slot as int) matches Some(n) && inner_ok(n) && kid(n, byte as int) == 0,
    ensures
        ({
            let n = at(old(frame).cells@, slot as int)->0;
            let k = if full(n) { one(grown_size(n)) } else { free() };
            match r {
                Ok(s) => {
                    &&& affords(*old(frame), k)
                    &&& final(frame).ok()
                    &&& final(frame).arena_end == old(frame).arena_end
                    &&& final(frame).header.space_used == old(frame).header.space_used + k.bytes
                    &&& final(frame).header.num_slots == old(frame).header.num_slots + k.nodes
                    &&& final(frame).header.dead_bytes == clamp(old(frame).header.dead_bytes + (if full(n) { node_size(n) } else { 0 }))
                    &&& final(frame).header == (BlobHeader {
                        space_used: final(frame).header.space_used,
                        num_slots: final(frame).header.num_slots,
                        dead_bytes: final(frame).header.dead_bytes,
                        ..old(frame).header
                    })
                    &&& s != 0 || s == slot
                    &&& !full(n) ==> s == slot
                    &&& full(n) ==> at(old(frame).cells@, s as int) is None
                    &&& at(final(frame).cells@, s as int) matches Some(m) && node_type(m) == layout_with_one_more(n)
                    &&& at(final(frame).cells@, s as int) matches Some(m) && inner_ok(m) && crate::node::kid_update(n, m, byte as int, child)
                    &&& forall|i: int| i != s ==> #[trigger] at(final(frame).cells@, i) == at(old(frame).cells@, i)
                },
                Err(e) => short(*old(frame), *final(frame), k, e),
            }
        }),
{
    let ghost f0 = *frame;
    let ghost n0 = at(frame.cells@, slot as int)->0;
    let grown: Option<Node> = match frame.node_at(slot) {
        Some(n) => {
            if is_full(n) {
                let mut g: Node = grow(n);
                let ghost g0 = g;
                inner_insert_child(&mut g, byte, child);
                proof {
                    assert forall|x: int| 0 <= x < 256 implies #[trigger] kid(g, x) == (if x == byte { child } else { kid(n0, x) }) by {
                        assert(kid(g0, x) == kid(n0, x));
                    }
                }
                Some(g)
            } else {
                None
            }
        },
        None => None,
    };
    match grown {
        Some(g) => {
            let s: u16 = match frame.alloc_node(g) {
                Ok(s) => s,
                Err(e) => {
                    return Err(e);
                },
            };
            frame.note_abandoned(slot);
            Ok(s)
        },
        None => {
            match &mut frame.cells[slot as usize] {
                Some(n) => {
                    inner_insert_child(n, byte, child);
                },
                None => {},
            }
            proof {
                assert forall|i: int| i != slot implies #[trigger] at(frame.cells@, i) == at(f0.cells@, i) by {}
                lemma_ok_after_set(f0, *frame, slot as int);
            }
            Ok(slot)
        },
    }
}

/// Whether another child does not fit the layout of `n`.
pub fn is_full(n: &Node) -> (r: bool)
    ensures
        r == full(*n),
{
    match n {
        Node::Node4(m) => m.count == 4,
        Node::Node16(m) => m.count == 16,
        Node::Node48(m) => m.count == 48,
        _ => false,
    }
}

/// Whether `f` is `f0` with `key` written: the key leads to the record and
/// every other key leads where it led before.
pub open spec fn stored(f0: BlobFrame, f: BlobFrame, key: Seq<u8>, value: Seq<u8>, d: int, seq: u64) -> bool {
    &&& f.route(key, d) == (Route::Found { value, seq })
    &&& forall|other: Seq<u8>| other != key ==> #[trigger] f.route(other, d) == f0.route(other, d)
}

/// Whether every key leads in `f` where it led in `f0`.
pub open spec fn same_routes(f0: BlobFrame, f: BlobFrame) -> bool {
    forall|key: Seq<u8>, d: int| #[trigger] f.route(key, d) == f0.route(key, d)
}

/// Inserts or replaces a record in a blob that is a whole tree, updating its
/// root.
pub fn insert(frame: &mut BlobFrame, root_slot: u16, key: &[u8], value: &[u8], seq: u64) -> (r: Result<crate::types::InsertOutcome>)
    requires
        old(frame).wf(Seq::empty()),
        root_slot == old(frame).header.root_slot,
    ensures
        final(frame).wf(Seq::empty()),
        ({
            let t = old(frame).tree();
            let fits = key@.len() <= 65535 && value@.len() <= 65535;
            let refused = conflict(t, key@, 0) || step(t, key@, 0) is Crossing;
            let k = insert_cost(old(frame).cells@, t, key@, 0, value@.len() as int);
            match r {
                Ok(out) => {
                    &&& out.root_dirty && out.mutated
                    &&& fits && !refused && affords(*old(frame), k)
                    &&& stored(*old(frame), *final(frame), key@, value@, 0, seq)
                    // Which nodes stand and which are new.
                    &&& written(old(frame).cells@, t, final(frame).cells@, final(frame).tree(), key@, value@, 0, seq)
                    &&& final(frame).header == (BlobHeader {
                        root_slot: final(frame).header.root_slot,
                        space_used: (old(frame).header.space_used + k.bytes) as u32,
                        num_slots: (old(frame).header.num_slots + k.nodes) as u32,
                        tombstone_leaf_cnt: (old(frame).header.tombstone_leaf_cnt - (if deleted_leaf(t, key@, 0) {
                            1int
                        } else {
                            0
                        })) as u32,
                        dead_bytes: clamp(
                            old(frame).header.dead_bytes + put_waste(old(frame).cells@, t, key@, 0, value@.len() as int, false),
                        ) as u32,
                        ..old(frame).header
                    })
                },
                Err(e) => {
                    &&& same_routes(*old(frame), *final(frame))
                    &&& failed(*old(frame), *final(frame))
                    &&& e is KeyTooLong <==> key@.len() > 65535
                    &&& e is KeyTooLong ==> e == (Error::KeyTooLong { len: key@.len() as usize })
                    &&& e is ValueTooLong <==> key@.len() <= 65535 && value@.len() > 65535
                    &&& e is ValueTooLong ==> e == (Error::ValueTooLong { len: value@.len() as usize })
                    &&& !(e is Alloc) ==> *final(frame) == *old(frame)
                    &&& e is NotYetImplemented <==> fits && refused
                    &&& e is Alloc <==> fits && !refused && !affords(*old(frame), k)
                    &&& e is KeyTooLong || e is ValueTooLong || e is NotYetImplemented || e is Alloc
                },
            }
        }),
{
    let ghost f0 = *frame;
    let ghost t = frame.tree();
    if key.len() > 65535 {
        return Err(Error::KeyTooLong { len: key.len() });
    }
    if value.len() > 65535 {
        return Err(Error::ValueTooLong { len: value.len() });
    }
    let search = SearchKey::exact(key);
    assert(key@.take(0) =~= Seq::<u8>::empty());
    let r = insert_at_step(frame, root_slot, search, value, 0, seq, InsertCondition::Always, false, false, Ghost(t));
    match r {
        Ok(InsertStep::Done(x)) => {
            frame.header.root_slot = x.slot_after;
            proof {
                frame.lemma_tree(x.tree@);
                lemma_written_blobs(f0.cells@, t, frame.cells@, x.tree@, key@, value@, 0, seq);
            }
            Ok(crate::types::InsertOutcome { root_dirty: true, mutated: true })
        },
        Ok(InsertStep::Crossing(_)) => Err(Error::NotYetImplemented("a blob crossing needs the buffer manager")),
        Err(e) => {
            proof {
                BlobFrame::lemma_kept(f0, *frame, Seq::empty());
            }
            Err(e)
        },
    }
}

} // verus!
