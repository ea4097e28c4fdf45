//! How the bytes of a blob add up: what its tree holds and what writes leave
//! behind.
use vstd::prelude::*;

use crate::art::{at, holds, keyed, owns, rep, slot_of, step, Art};
use crate::erase::{lemma_none_nonzero, lemma_none_nonzero_bytes, meets_blob, tombstoned};
use crate::extent::{lemma_tree_weight, numbers_of, weight_of};
use crate::frame::{rooted, tree_at, BlobFrame};
use crate::insert::{beside, conflict, deleted_leaf, forks, has_leaf, insert_cost, put_cost, put_waste, stays, written};
use crate::insert_multi::put_image;
use crate::key::matches_at;
use crate::layout::{leaf_size, Node};
use crate::migrate::{budget, budget_kids};
use crate::node::{
    degree, inner_ok, kid, lemma_bytes_update, lemma_bytes_zero, lemma_list_absent, lemma_list_at, lemma_nonzero_update, lemma_nonzero_zero, list_kid,
    list_ok,
};
use crate::simd::lcp;
use crate::slot_walker::{cut_cost, cut_waste, pruned, slot_cut, slot_put, vanishes};
use crate::writers::{chain_cost, chained, head_len};

verus! {

/// Bytes of the nodes of `t`.
spec fn held(c: Seq<Option<Node>>, t: Art) -> int {
    budget(c, t, false).routing + budget(c, t, false).leaf
}

/// Bytes of the nodes of a subtree that may be there.
spec fn held_by(c: Seq<Option<Node>>, k: Option<Art>) -> int {
    match k {
        Some(t) => held(c, t),
        None => 0,
    }
}

/// Bytes of the nodes of the first `n` subtrees.
spec fn held_below(c: Seq<Option<Node>>, kids: Seq<Option<Art>>, n: int) -> int {
    budget_kids(c, kids, n, false).routing + budget_kids(c, kids, n, false).leaf
}

proof fn lemma_below_same(c: Seq<Option<Node>>, a: Seq<Option<Art>>, b: Seq<Option<Art>>, n: int)
    requires
        0 <= n <= a.len() == b.len(),
        forall|i: int| 0 <= i < n ==> a[i] == b[i],
    ensures
        held_below(c, a, n) == held_below(c, b, n),
    decreases n,
{
    if n > 0 {
        lemma_below_same(c, a, b, n - 1);
    }
}

/// Another subtree in place of one.
proof fn lemma_below_update(c: Seq<Option<Node>>, kids: Seq<Option<Art>>, b: int, k: Option<Art>, n: int)
    requires
        0 <= b < n <= kids.len(),
    ensures
        held_below(c, kids.update(b, k), n) == held_below(c, kids, n) - held_by(c, kids[b]) + held_by(c, k),
    decreases n,
{
    if b == n - 1 {
        lemma_below_same(c, kids.update(b, k), kids, b);
    } else {
        lemma_below_update(c, kids, b, k, n - 1);
    }
}

/// No subtrees hold nothing.
proof fn lemma_below_none(c: Seq<Option<Node>>, kids: Seq<Option<Art>>, n: int)
    requires
        0 <= n <= kids.len(),
        forall|i: int| 0 <= i < n ==> kids[i] is None,
    ensures
        held_below(c, kids, n) == 0,
    decreases n,
{
    if n > 0 {
        lemma_below_none(c, kids, n - 1);
    }
}

/// A tree whose nodes are the same holds the same.
proof fn lemma_held_stays(c: Seq<Option<Node>>, c2: Seq<Option<Node>>, t: Art)
    requires
        stays(c, c2, t),
    ensures
        held(c2, t) == held(c, t),
    decreases t, (if t is Inner { t->kids.len() + 1 } else { 0 }),
{
    match t {
        Art::Prefix { child, .. } => {
            assert(stays(c, c2, *child)) by {
                assert forall|s: int| #[trigger] owns(*child, s) implies at(c2, s) == at(c, s) by {
                    assert(owns(t, s));
                }
            }
            lemma_held_stays(c, c2, *child);
        },
        Art::Inner { slot, kids } => {
            assert(owns(t, slot));
            lemma_below_stays(c, c2, t, kids.len() as int);
        },
        _ => {},
    }
}

proof fn lemma_below_stays(c: Seq<Option<Node>>, c2: Seq<Option<Node>>, t: Art, n: int)
    requires
        t is Inner,
        stays(c, c2, t),
        0 <= n <= t->kids.len(),
    ensures
        held_below(c2, t->kids, n) == held_below(c, t->kids, n),
    decreases t, n,
{
    if n > 0 {
        lemma_below_stays(c, c2, t, n - 1);
        if let Some(k) = t->kids[n - 1] {
            assert(stays(c, c2, k)) by {
                assert forall|s: int| #[trigger] owns(k, s) implies at(c2, s) == at(c, s) by {
                    assert(t->kids[n - 1] is Some && owns(t->kids[n - 1]->0, s));
                    assert(owns(t, s));
                }
            }
            lemma_held_stays(c, c2, k);
        }
    }
}

/// The other subtrees of a node hold the same.
proof fn lemma_beside_same(c: Seq<Option<Node>>, c2: Seq<Option<Node>>, kids: Seq<Option<Art>>, b: int, n: int)
    requires
        beside(c, c2, kids, b),
        0 <= b < kids.len(),
        0 <= n <= kids.len(),
    ensures
        held_below(c2, kids.update(b, None), n) == held_below(c, kids.update(b, None), n),
    decreases n,
{
    if n > 0 {
        lemma_beside_same(c, c2, kids, b, n - 1);
        if n - 1 != b && kids[n - 1] is Some {
            lemma_held_stays(c, c2, kids[n - 1]->0);
        }
    }
}

/// Bytes in front of a tree take a node of 128 bytes for each 112 of them.
proof fn lemma_held_chained(c: Seq<Option<Node>>, u: Art, bytes: Seq<u8>, t: Art)
    requires
        chained(u, bytes, t),
    ensures
        held(c, u) == held(c, t) + chain_cost(bytes.len() as int).bytes,
    decreases bytes.len(),
{
    if bytes.len() > 0 {
        let n = head_len(bytes.len() as int);
        lemma_held_chained(c, *u->child, bytes.skip(n), t);
    }
}

/// A branch holds what stood before, the new leaf and a node of 16 bytes.
proof fn lemma_held_forks(
    c: Seq<Option<Node>>,
    pair: Art,
    lo: u8,
    rest: Seq<u8>,
    below: Art,
    key: Seq<u8>,
    hi: u8,
    value: Seq<u8>,
    seq: u64,
)
    requires
        forks(c, pair, lo, rest, below, key, hi, value, seq),
        lo != hi,
    ensures
        held(c, pair) == 16 + held(c, below) + chain_cost(rest.len() as int).bytes + leaf_size(key.len() as int, value.len() as int),
{
    let none = Seq::new(256, |b: int| None::<Art>);
    let kids = pair->kids;
    lemma_below_none(c, none, 256);
    lemma_below_update(c, none, lo as int, kids[lo as int], 256);
    let one = none.update(lo as int, kids[lo as int]);
    lemma_below_update(c, one, hi as int, kids[hi as int], 256);
    assert(one.update(hi as int, kids[hi as int]) =~= kids);
    lemma_held_chained(c, kids[lo as int]->0, rest, below);
}

/// What a write adds to a tree is what it allocates less what it leaves behind.
proof fn lemma_written_held(
    c: Seq<Option<Node>>,
    t: Art,
    c2: Seq<Option<Node>>,
    t2: Art,
    key: Seq<u8>,
    value: Seq<u8>,
    d: int,
    seq: u64,
    fresh: bool,
)
    requires
        written(c, t, c2, t2, key, value, d, seq),
        rep(c, t),
        rep(c2, t2),
        !conflict(t, key, d),
        !(step(t, key, d) is Crossing),
        0 <= d <= key.len(),
        keyed(t, key.take(d)),
    ensures
        ({
            let before = held(c, t) + put_cost(c, t, key, d, value.len() as int, fresh).bytes;
            let after = held(c2, t2) + put_waste(c, t, key, d, value.len() as int, fresh);
            after <= before && (fresh || !has_leaf(t, key, d) ==> after == before)
        }),
    decreases t,
{
    crate::insert::lemma_rep_root(c, t);
    crate::insert::lemma_rep_root(c2, t2);
    match t {
        Art::Empty { .. } => {},
        Art::Leaf { key: k, .. } => if k != key {
            let n = lcp(key.skip(d), k.skip(d)) as int;
            let pair = choose|pair: Art| #[trigger]
                chained(t2, k.skip(d).take(n), pair) && forks(c2, pair, k.skip(d)[n], Seq::empty(), t, key, key[d + n], value, seq);
            crate::simd::lemma_lcp(key.skip(d), k.skip(d));
            lemma_held_forks(c2, pair, k.skip(d)[n], Seq::empty(), t, key, key[d + n], value, seq);
            lemma_held_chained(c2, t2, k.skip(d).take(n), pair);
            assert(chain_cost(0).bytes == 0);
        },
        Art::Prefix { bytes, child, .. } => if matches_at(key, d, bytes) {
            assert(key.take(d) + bytes =~= key.take(d + bytes.len()));
            lemma_written_held(c, *child, c2, *t2->child, key, value, d + bytes.len(), seq, fresh);
        } else {
            let n = lcp(key.skip(d), bytes) as int;
            let pair = choose|pair: Art| #[trigger]
                chained(t2, bytes.take(n), pair) && forks(c2, pair, bytes[n], bytes.skip(n + 1), *child, key, key[d + n], value, seq);
            crate::simd::lemma_lcp(key.skip(d), bytes);
            lemma_held_forks(c2, pair, bytes[n], bytes.skip(n + 1), *child, key, key[d + n], value, seq);
            lemma_held_chained(c2, t2, bytes.take(n), pair);
            lemma_held_stays(c, c2, *child);
        },
        Art::Inner { slot, kids } => {
            let b = key[d] as int;
            let m = kids.len() as int;
            let k2 = t2->kids[b];
            assert(inner_ok(at(c, slot)->0));
            assert(inner_ok(at(c2, t2->Inner_slot)->0));
            if kids[b] is Some {
                assert(key.take(d).push(key[d]) =~= key.take(d + 1));
                assert(rep(c, kids[b]->0));
                assert(rep(c2, t2->kids[b]->0));
                lemma_written_held(c, kids[b]->0, c2, k2->0, key, value, d + 1, seq, fresh);
            }
            lemma_beside_same(c, c2, kids, b, m);
            lemma_below_update(c, kids, b, None, m);
            lemma_below_update(c2, kids.update(b, None), b, k2, m);
            assert(kids.update(b, None).update(b, k2) =~= t2->kids);
        },
        Art::Blob { slot, bytes, guid } => {
            let n = lcp(key.skip(d), bytes) as int;
            let below = Art::Blob { slot, bytes: bytes.skip(n + 1), guid };
            let pair = choose|pair: Art| #[trigger]
                chained(t2, bytes.take(n), pair) && forks(c2, pair, bytes[n], Seq::empty(), below, key, key[d + n], value, seq);
            crate::simd::lemma_lcp(key.skip(d), bytes);
            lemma_held_forks(c2, pair, bytes[n], Seq::empty(), below, key, key[d + n], value, seq);
            lemma_held_chained(c2, t2, bytes.take(n), pair);
            assert(chain_cost(0).bytes == 0);
        },
    }
}

/// The bytes that a blob has used, less those of its tree's nodes and those that
/// it counts as abandoned: nothing that it will get back.
pub open spec fn unaccounted(f: BlobFrame) -> int {
    f.header.space_used - 69632 - weight_of(f.cells@, numbers_of(f.tree()), true) - f.header.dead_bytes
}

/// A write accounts for every byte: what it allocates is in the tree afterwards,
/// and what is no longer in the tree is counted as abandoned. Only the end of a
/// leaf that is written over by a shorter record is neither.
pub proof fn writes_account_for_every_byte(f0: BlobFrame, f: BlobFrame, key: Seq<u8>, value: Seq<u8>, d: int, seq: u64)
    requires
        put_image(f0, f, key, value, d, seq),
        f0.wf(key.take(d)),
        f.wf(key.take(d)),
        0 <= d <= key.len(),
        !conflict(f0.tree(), key, d),
        !(f0.route(key, d) is Crossing),
        f.header.dead_bytes < u32::MAX,
    ensures
        unaccounted(f) >= unaccounted(f0),
        !has_leaf(f0.tree(), key, d) ==> unaccounted(f) == unaccounted(f0),
{
    reveal(put_image);
    lemma_written_held(f0.cells@, f0.tree(), f.cells@, f.tree(), key, value, d, seq, false);
    lemma_tree_weight(f0.cells@, f0.tree());
    lemma_tree_weight(f.cells@, f.tree());
}

/// So does one that always takes a new leaf.
pub proof fn slot_writes_account_for_every_byte(f0: BlobFrame, slot0: u16, f: BlobFrame, slot: u16, key: Seq<u8>, value: Seq<u8>, seq: u64)
    requires
        f0.ok(),
        rooted(f0.cells@, slot0),
        holds(f0.cells@, tree_at(f0.cells@, slot0), Seq::empty()),
        slot_put(f0, slot0, f, slot, key, value, seq),
        !conflict(tree_at(f0.cells@, slot0), key, 0),
        !meets_blob(tree_at(f0.cells@, slot0), key, 0),
        f.header.dead_bytes < u32::MAX,
    ensures
        f.header.space_used - weight_of(f.cells@, numbers_of(tree_at(f.cells@, slot)), true) - f.header.dead_bytes == f0.header.space_used - weight_of(
            f0.cells@,
            numbers_of(tree_at(f0.cells@, slot0)),
            true,
        ) - f0.header.dead_bytes,
{
    let t = tree_at(f0.cells@, slot0);
    let t2 = tree_at(f.cells@, slot);
    crate::erase::lemma_no_blob_no_crossing(t, key, 0);
    assert(key.take(0) =~= Seq::<u8>::empty());
    lemma_written_held(f0.cells@, t, f.cells@, t2, key, value, 0, seq, true);
    lemma_tree_weight(f0.cells@, t);
    lemma_tree_weight(f.cells@, t2);
}

/// A node with one child has no more; one of two children has no third.
proof fn lemma_few_kids(n: Node, x: int, y: int, z: int)
    requires
        inner_ok(n),
        0 <= x < 256,
        0 <= y < 256,
        0 <= z < 256,
    ensures
        (forall|i: int| 0 <= i < 256 && i != x ==> #[trigger] kid(n, i) == 0) ==> degree(n) <= 1,
        degree(n) == 2 && kid(n, x) != 0 && kid(n, y) != 0 && kid(n, z) != 0 && x != y ==> z == x || z == y,
{
    match n {
        Node::Node4(m) => lemma_few_listed(n, m.keys@, m.children@, m.count as int, x, y, z),
        Node::Node16(m) => lemma_few_listed(n, m.keys@, m.children@, m.count as int, x, y, z),
        Node::Node48(m) => {
            let s = m.index@;
            lemma_bytes_update(s, 256, x, 0);
            if forall|i: int| 0 <= i < 256 && i != x ==> #[trigger] kid(n, i) == 0 {
                assert forall|i: int| 0 <= i < 256 implies s.update(x, 0)[i] == 0 by {
                    if i != x {
                        assert(kid(n, i) == 0);
                    }
                }
                lemma_bytes_zero(s.update(x, 0), 256);
            }
            if degree(n) == 2 && kid(n, x) != 0 && kid(n, y) != 0 && kid(n, z) != 0 && x != y {
                lemma_bytes_update(s.update(x, 0), 256, y, 0);
                lemma_none_nonzero_bytes(s.update(x, 0).update(y, 0), 256);
                assert(s.update(x, 0).update(y, 0)[z] == 0);
            }
        },
        Node::Node256(m) => {
            let s = m.children@;
            lemma_nonzero_update(s, 256, x, 0);
            if forall|i: int| 0 <= i < 256 && i != x ==> #[trigger] kid(n, i) == 0 {
                assert forall|i: int| 0 <= i < 256 implies s.update(x, 0)[i] == 0 by {
                    if i != x {
                        assert(kid(n, i) == 0);
                    }
                }
                lemma_nonzero_zero(s.update(x, 0), 256);
            }
            if degree(n) == 2 && kid(n, x) != 0 && kid(n, y) != 0 && kid(n, z) != 0 && x != y {
                lemma_nonzero_update(s.update(x, 0), 256, y, 0);
                lemma_none_nonzero(s.update(x, 0).update(y, 0), 256);
                assert(s.update(x, 0).update(y, 0)[z] == 0);
            }
        },
        _ => {},
    }
}

proof fn lemma_few_listed(n: Node, keys: Seq<u8>, children: Seq<u16>, count: int, x: int, y: int, z: int)
    requires
        list_ok(keys, children, count),
        degree(n) == count,
        forall|i: int| 0 <= i < 256 ==> #[trigger] kid(n, i) == list_kid(keys, children, count, i as u8),
        0 <= x < 256,
        0 <= y < 256,
        0 <= z < 256,
    ensures
        (forall|i: int| 0 <= i < 256 && i != x ==> #[trigger] kid(n, i) == 0) ==> degree(n) <= 1,
        degree(n) == 2 && kid(n, x) != 0 && kid(n, y) != 0 && kid(n, z) != 0 && x != y ==> z == x || z == y,
{
    if count > 1 {
        lemma_list_at(keys, children, count, 0);
        lemma_list_at(keys, children, count, 1);
        assert(kid(n, keys[0] as int) != 0);
        assert(kid(n, keys[1] as int) != 0);
        assert(keys[0] < keys[1]);
    }
    lemma_list_absent(keys, children, count, x as u8);
    lemma_list_absent(keys, children, count, y as u8);
    lemma_list_absent(keys, children, count, z as u8);
}

/// What a tree holds is what its last leaf leaves behind.
proof fn lemma_vanishing_held(c: Seq<Option<Node>>, t: Art, key: Seq<u8>, d: int)
    requires
        rep(c, t),
        vanishes(t, key, d),
    ensures
        cut_waste(c, t, key, d) == held(c, t),
    decreases t,
{
    crate::insert::lemma_rep_root(c, t);
    match t {
        Art::Prefix { bytes, child, .. } => lemma_vanishing_held(c, *child, key, d + bytes.len()),
        Art::Inner { slot, kids } => {
            let b = key[d] as int;
            let n = at(c, slot)->0;
            assert(rep(c, kids[b]->0));
            lemma_vanishing_held(c, kids[b]->0, key, d + 1);
            lemma_below_update(c, kids, b, None, 256);
            lemma_below_none(c, kids.update(b, None), 256);
            assert forall|i: int| 0 <= i < 256 && i != b implies #[trigger] kid(n, i) == 0 by {
                assert(kids[i] is None);
            }
            lemma_few_kids(n, b, b, b);
        },
        _ => {},
    }
}

/// What an erase takes from a tree is what it leaves behind less what it
/// allocates.
proof fn lemma_pruned_held(c: Seq<Option<Node>>, t: Art, c2: Seq<Option<Node>>, t2: Art, key: Seq<u8>, d: int)
    requires
        pruned(c, t, c2, t2, key, d),
        rep(c, t),
        rep(c2, t2),
        !vanishes(t, key, d),
    ensures
        held(c2, t2) + cut_waste(c, t, key, d) == held(c, t) + cut_cost(c, t, key, d).bytes,
    decreases t,
{
    crate::insert::lemma_rep_root(c, t);
    crate::insert::lemma_rep_root(c2, t2);
    match t {
        Art::Prefix { bytes, child, .. } => lemma_pruned_held(c, *child, c2, *t2->child, key, d + bytes.len()),
        Art::Inner { slot, kids } => {
            let b = key[d] as int;
            let k = kids[b]->0;
            let n = at(c, slot)->0;
            assert(inner_ok(n));
            assert(rep(c, k));
            lemma_beside_same(c, c2, kids, b, 256);
            lemma_below_update(c, kids, b, None, 256);
            if vanishes(k, key, d + 1) {
                lemma_vanishing_held(c, k, key, d + 1);
                assert(kid(n, b) != 0) by {
                    assert(kids[b] is Some);
                }
                let e = choose|e: int| 0 <= e < 256 && e != b && (#[trigger] kids[e]) is Some;
                assert(kid(n, e) != 0) by {
                    assert(kids[e] is Some);
                }
                crate::erase::lemma_degree(n);
                if degree(n) == 2 {
                    let x = choose|x: int| 0 <= x < 256 && x != b && (#[trigger] kids[x]) is Some && t2 == (Art::Prefix {
                        slot: slot_of(t2),
                        bytes: seq![x as u8],
                        child: Box::new(kids[x]->0),
                    });
                    let rest = kids.update(b, None);
                    lemma_below_update(c2, rest, x, None, 256);
                    assert forall|i: int| 0 <= i < 256 implies rest.update(x, None)[i] is None by {
                        if kids[i] is Some {
                            assert(kid(n, i) != 0);
                            assert(kid(n, x) != 0) by {
                                assert(kids[x] is Some);
                            }
                            lemma_few_kids(n, b, x, i);
                        }
                    }
                    lemma_below_none(c2, rest.update(x, None), 256);
                    assert(chain_cost(1).bytes == 128);
                } else {
                    assert(inner_ok(at(c2, slot_of(t2))->0));
                    assert(t2->kids =~= kids.update(b, None));
                }
            } else {
                let k2 = t2->kids[b]->0;
                assert(inner_ok(at(c2, slot)->0));
                assert(rep(c2, k2));
                lemma_pruned_held(c, k, c2, k2, key, d + 1);
                lemma_below_update(c2, kids.update(b, None), b, Some(k2), 256);
                assert(kids.update(b, None).update(b, Some(k2)) =~= t2->kids);
            }
        },
        _ => {},
    }
}

/// So does an erase: the leaf, the nodes above that it leaves nothing of, and one
/// that becomes a prefix over a lone child are counted as abandoned, and nothing
/// else is.
pub proof fn slot_erases_account_for_every_byte(f0: BlobFrame, slot0: u16, f: BlobFrame, slot: u16, key: Seq<u8>)
    requires
        f0.ok(),
        rooted(f0.cells@, slot0),
        holds(f0.cells@, tree_at(f0.cells@, slot0), Seq::empty()),
        slot_cut(f0, slot0, f, slot, key),
        f.header.dead_bytes < u32::MAX,
    ensures
        f.header.space_used - weight_of(f.cells@, numbers_of(tree_at(f.cells@, slot)), true) - f.header.dead_bytes == f0.header.space_used - weight_of(
            f0.cells@,
            numbers_of(tree_at(f0.cells@, slot0)),
            true,
        ) - f0.header.dead_bytes,
{
    let t = tree_at(f0.cells@, slot0);
    let t2 = tree_at(f.cells@, slot);
    if vanishes(t, key, 0) {
        lemma_vanishing_held(f0.cells@, t, key, 0);
    } else {
        lemma_pruned_held(f0.cells@, t, f.cells@, t2, key, 0);
    }
    lemma_tree_weight(f0.cells@, t);
    lemma_tree_weight(f.cells@, t2);
}

/// A deleted leaf is there.
proof fn lemma_tombstoned_leaf(t: Art, key: Seq<u8>, d: int)
    requires
        step(t, key, d) is Found,
    ensures
        deleted_leaf(tombstoned(t, key, d), key, d),
    decreases t,
{
    match t {
        Art::Prefix { bytes, child, .. } => lemma_tombstoned_leaf(*child, key, d + bytes.len()),
        Art::Inner { kids, .. } => lemma_tombstoned_leaf(kids[key[d] as int]->0, key, d + 1),
        _ => {},
    }
}

/// Writing a record over a deleted one takes back the mark: the blob counts as
/// many deleted leaves as before the delete.
pub proof fn rewritten_records_are_unmarked(f0: BlobFrame, f1: BlobFrame, f2: BlobFrame, key: Seq<u8>, value: Seq<u8>, d: int, seq: u64)
    requires
        f0.route(key, d) is Found,
        f1.tree() == tombstoned(f0.tree(), key, d),
        f1.header.tombstone_leaf_cnt == f0.header.tombstone_leaf_cnt + 1,
        put_image(f1, f2, key, value, d, seq),
    ensures
        f2.header.tombstone_leaf_cnt == f0.header.tombstone_leaf_cnt,
{
    reveal(put_image);
    lemma_tombstoned_leaf(f0.tree(), key, d);
}

/// A record that is live is not a deleted one.
proof fn lemma_found_not_deleted(t: Art, key: Seq<u8>, d: int)
    requires
        step(t, key, d) is Found,
    ensures
        !deleted_leaf(t, key, d),
    decreases t,
{
    match t {
        Art::Prefix { bytes, child, .. } => lemma_found_not_deleted(*child, key, d + bytes.len()),
        Art::Inner { kids, .. } => lemma_found_not_deleted(kids[key[d] as int]->0, key, d + 1),
        _ => {},
    }
}

/// Writing over a live record marks and unmarks none.
pub proof fn live_records_stay_unmarked(f0: BlobFrame, f: BlobFrame, key: Seq<u8>, value: Seq<u8>, d: int, seq: u64)
    requires
        f0.route(key, d) is Found,
        put_image(f0, f, key, value, d, seq),
    ensures
        f.header.tombstone_leaf_cnt == f0.header.tombstone_leaf_cnt,
        f.header.compact_times == f0.header.compact_times,
        f.header.created_epoch == f0.header.created_epoch,
        f.header.blob_guid == f0.header.blob_guid,
        f.header.num_ext_blobs == f0.header.num_ext_blobs,
        f.header.space_used >= f0.header.space_used,
{
    reveal(put_image);
    lemma_found_not_deleted(f0.tree(), key, d);
    lemma_cost_sign(f0.cells@, f0.tree(), key, d, value.len() as int);
}

/// A write gives nothing back.
proof fn lemma_cost_sign(c: Seq<Option<Node>>, t: Art, key: Seq<u8>, d: int, vlen: int)
    requires
        vlen >= 0,
    ensures
        step(t, key, d) is Found ==> insert_cost(c, t, key, d, vlen).bytes >= 0,
    decreases t,
{
    match t {
        Art::Prefix { bytes, child, .. } => lemma_cost_sign(c, *child, key, d + bytes.len(), vlen),
        Art::Inner { kids, .. } => if 0 <= d < key.len() && key[d] < kids.len() && kids[key[d] as int] is Some {
            lemma_cost_sign(c, kids[key[d] as int]->0, key, d + 1, vlen);
        },
        _ => {},
    }
}

} // verus!
