//! The tree a blob's nodes form, as a mathematical value.
//!
//! A blob is an arena of node bodies that refer to each other by number.
//! [`Art`] is the tree such an arena spells out from one of its nodes; `rep`
//! says when it does. Everything the engine promises is stated through
//! `step`, which says where a key leads in a tree.
use vstd::prelude::*;

use crate::key::{fingerprint_fits, matches_at};
use crate::layout::{BlobGuid, Node, BLOB_MAX_INLINE, PREFIX_MAX_INLINE};
use crate::node::{inner_ok, kid};

verus! {

/// A radix tree. Each node carries the number it has in its arena.
pub enum Art {
    /// Nothing.
    Empty { slot: int },
    /// One record, possibly deleted.
    Leaf { slot: int, key: Seq<u8>, value: Seq<u8>, seq: u64, dead: bool },
    /// Bytes shared by every key below.
    Prefix { slot: int, bytes: Seq<u8>, child: Box<Art> },
    /// One optional subtree per byte.
    Inner { slot: int, kids: Seq<Option<Art>> },
    /// Bytes shared by every key of another blob.
    Blob { slot: int, bytes: Seq<u8>, guid: BlobGuid },
}

/// Where a key leads in a tree.
pub enum Route {
    /// No live record.
    NotFound,
    /// A live record.
    Found { value: Seq<u8>, seq: u64 },
    /// Into another blob, with `depth` key bytes consumed.
    Crossing { guid: BlobGuid, depth: int },
}

/// Node `i` of an arena.
pub open spec fn at(c: Seq<Option<Node>>, i: int) -> Option<Node> {
    if 0 <= i < c.len() {
        c[i]
    } else {
        None
    }
}

/// The number of a tree's root node.
pub open spec fn slot_of(t: Art) -> int {
    match t {
        Art::Empty { slot } => slot,
        Art::Leaf { slot, .. } => slot,
        Art::Prefix { slot, .. } => slot,
        Art::Inner { slot, .. } => slot,
        Art::Blob { slot, .. } => slot,
    }
}

/// Whether the arena spells out `t` from node `slot_of(t)`.
pub open spec fn rep(c: Seq<Option<Node>>, t: Art) -> bool
    decreases t,
{
    &&& 0 < slot_of(t) < 65536
    &&& match t {
        Art::Empty { slot } => at(c, slot) == Some(Node::EmptyRoot),
        Art::Leaf { slot, key, value, seq, dead } => {
            &&& at(c, slot) matches Some(Node::Leaf(l))
            &&& l.key@ == key
            &&& l.value@ == value
            &&& l.seq == seq
            &&& l.tombstone == dead
            &&& fingerprint_fits(l.key_fp, key)
            &&& key.len() <= 65535
            &&& value.len() <= 65535
        },
        Art::Prefix { slot, bytes, child } => {
            &&& at(c, slot) matches Some(Node::Prefix(p))
            &&& p.bytes@ == bytes
            &&& 0 < bytes.len() <= PREFIX_MAX_INLINE
            &&& p.child == slot_of(*child)
            &&& rep(c, *child)
        },
        Art::Inner { slot, kids } => {
            &&& at(c, slot) matches Some(n)
            &&& inner_ok(n)
            &&& kids.len() == 256
            &&& forall|b: int|
                0 <= b < 256 ==> {
                    &&& (#[trigger] kids[b] is Some <==> kid(n, b) != 0)
                    &&& kids[b] is Some ==> slot_of(kids[b]->0) == kid(n, b) && rep(c, kids[b]->0)
                }
        },
        Art::Blob { slot, bytes, guid } => {
            &&& at(c, slot) matches Some(Node::Blob(n))
            &&& n.bytes@ == bytes
            &&& bytes.len() <= BLOB_MAX_INLINE
            &&& n.child_blob_guid == guid
        },
    }
}

/// Whether node `s` belongs to `t`.
pub open spec fn owns(t: Art, s: int) -> bool
    decreases t,
{
    ||| s == slot_of(t)
    ||| match t {
        Art::Prefix { child, .. } => owns(*child, s),
        Art::Inner { kids, .. } => exists|b: int| 0 <= b < kids.len() && (#[trigger] kids[b]) is Some && owns(kids[b]->0, s),
        _ => false,
    }
}

/// Whether no node occurs twice in `t`.
pub open spec fn sep(t: Art) -> bool
    decreases t,
{
    match t {
        Art::Prefix { slot, child, .. } => !owns(*child, slot) && sep(*child),
        Art::Inner { slot, kids } => {
            &&& forall|b: int| 0 <= b < kids.len() && (#[trigger] kids[b]) is Some ==> !owns(kids[b]->0, slot) && sep(kids[b]->0)
            &&& forall|a: int, b: int, s: int|
                0 <= a < kids.len() && 0 <= b < kids.len() && a != b && kids[a] is Some && kids[b] is Some
                    ==> !(#[trigger] owns(kids[a]->0, s) && #[trigger] owns(kids[b]->0, s))
        },
        _ => true,
    }
}

/// Whether every leaf's key begins with the bytes on the way to it, `path`
/// being those on the way to `t`.
pub open spec fn keyed(t: Art, path: Seq<u8>) -> bool
    decreases t,
{
    match t {
        Art::Leaf { key, .. } => path.is_prefix_of(key),
        Art::Prefix { bytes, child, .. } => keyed(*child, path + bytes),
        Art::Inner { kids, .. } => forall|b: int| 0 <= b < kids.len() && (#[trigger] kids[b]) is Some ==> keyed(kids[b]->0, path.push(b as u8)),
        _ => true,
    }
}

/// Whether the arena holds `t` as a proper tree of keys below `path`.
pub open spec fn holds(c: Seq<Option<Node>>, t: Art, path: Seq<u8>) -> bool {
    rep(c, t) && sep(t) && keyed(t, path)
}

/// Where `key` leads from `t` when `d` of its bytes have been consumed.
pub open spec fn step(t: Art, key: Seq<u8>, d: int) -> Route
    decreases t,
{
    match t {
        Art::Empty { .. } => Route::NotFound,
        Art::Leaf { key: k, value, seq, dead, .. } => if k == key && !dead {
            Route::Found { value, seq }
        } else {
            Route::NotFound
        },
        Art::Prefix { bytes, child, .. } => if matches_at(key, d, bytes) {
            step(*child, key, d + bytes.len())
        } else {
            Route::NotFound
        },
        Art::Inner { kids, .. } => if 0 <= d < key.len() && key[d] < kids.len() && kids[key[d] as int] is Some {
            step(kids[key[d] as int]->0, key, d + 1)
        } else {
            Route::NotFound
        },
        Art::Blob { bytes, guid, .. } => if matches_at(key, d, bytes) {
            Route::Crossing { guid, depth: d + bytes.len() }
        } else {
            Route::NotFound
        },
    }
}

/// Number of deleted leaves of `t`.
pub open spec fn dead(t: Art) -> nat
    decreases t, 0int,
{
    match t {
        Art::Leaf { dead: gone, .. } => if gone { 1 } else { 0 },
        Art::Prefix { child, .. } => dead(*child),
        Art::Inner { kids, .. } => dead_kids(kids, kids.len() as int),
        _ => 0,
    }
}

/// Number of deleted leaves of the first `n` subtrees.
pub open spec fn dead_kids(kids: Seq<Option<Art>>, n: int) -> nat
    decreases kids, n,
{
    if n <= 0 || n > kids.len() {
        0
    } else {
        dead_kids(kids, n - 1) + (match kids[n - 1] {
            Some(k) => dead(k),
            None => 0,
        })
    }
}

/// A tree depends on its own nodes only.
pub proof fn lemma_rep_frame(c: Seq<Option<Node>>, c2: Seq<Option<Node>>, t: Art)
    requires
        rep(c, t),
        forall|s: int| #[trigger] owns(t, s) ==> at(c2, s) == at(c, s),
    ensures
        rep(c2, t),
    decreases t,
{
    assert(owns(t, slot_of(t)));
    match t {
        Art::Prefix { child, .. } => {
            assert forall|s: int| #[trigger] owns(*child, s) implies at(c2, s) == at(c, s) by {
                assert(owns(t, s));
            }
            lemma_rep_frame(c, c2, *child);
        },
        Art::Inner { slot, kids } => {
            assert forall|b: int| 0 <= b < 256 && (#[trigger] kids[b]) is Some implies rep(c2, kids[b]->0) by {
                assert forall|s: int| #[trigger] owns(kids[b]->0, s) implies at(c2, s) == at(c, s) by {
                    assert(owns(t, s));
                }
                lemma_rep_frame(c, c2, kids[b]->0);
            }
        },
        _ => {},
    }
}

/// Every node of a tree is present in the arena.
pub proof fn lemma_owns_present(c: Seq<Option<Node>>, t: Art, s: int)
    requires
        rep(c, t),
        owns(t, s),
    ensures
        at(c, s) is Some,
        0 < s < 65536,
    decreases t,
{
    if s != slot_of(t) {
        match t {
            Art::Prefix { child, .. } => lemma_owns_present(c, *child, s),
            Art::Inner { kids, .. } => {
                let b = choose|b: int| 0 <= b < kids.len() && (#[trigger] kids[b]) is Some && owns(kids[b]->0, s);
                lemma_owns_present(c, kids[b]->0, s);
            },
            _ => {},
        }
    }
}

/// An arena spells out at most one tree from a node.
pub proof fn lemma_rep_unique(c: Seq<Option<Node>>, t: Art, u: Art)
    requires
        rep(c, t),
        rep(c, u),
        slot_of(t) == slot_of(u),
    ensures
        t == u,
    decreases t,
{
    match (t, u) {
        (Art::Prefix { child, .. }, Art::Prefix { child: child2, .. }) => {
            lemma_rep_unique(c, *child, *child2);
        },
        (Art::Inner { kids, .. }, Art::Inner { kids: kids2, .. }) => {
            assert forall|b: int| 0 <= b < 256 implies kids[b] == kids2[b] by {
                if kids[b] is Some {
                    assert(kids2[b] is Some);
                    lemma_rep_unique(c, kids[b]->0, kids2[b]->0);
                }
            }
            assert(kids =~= kids2);
        },
        _ => {},
    }
}

/// Replacing one subtree moves the count of deleted leaves by the
/// difference.
pub proof fn lemma_dead_update(kids: Seq<Option<Art>>, b: int, k: Option<Art>, n: int)
    requires
        0 <= b < kids.len(),
        0 <= n <= kids.len(),
    ensures
        dead_kids(kids.update(b, k), n) == dead_kids(kids, n) + (if b < n {
            (match k {
                Some(x) => dead(x) as int,
                None => 0,
            }) - (match kids[b] {
                Some(x) => dead(x) as int,
                None => 0,
            })
        } else {
            0
        }),
    decreases n,
{
    if n > 0 {
        lemma_dead_update(kids, b, k, n - 1);
    }
}

/// No subtrees, no deleted leaves.
pub proof fn lemma_dead_none(kids: Seq<Option<Art>>, n: int)
    requires
        0 <= n <= kids.len(),
        forall|b: int| 0 <= b < kids.len() ==> kids[b] is None,
    ensures
        dead_kids(kids, n) == 0,
    decreases n,
{
    if n > 0 {
        lemma_dead_none(kids, n - 1);
    }
}

/// The nodes of the first `n` subtrees.
pub open spec fn kid_nodes(kids: Seq<Option<Art>>, n: int) -> Set<int> {
    Set::new(|s: int| exists|b: int| 0 <= b < n && b < kids.len() && (#[trigger] kids[b]) is Some && owns(kids[b]->0, s))
}

/// The numbers a node can have.
pub open spec fn node_numbers() -> Set<int> {
    Set::new(|s: int| 0 < s < 65536)
}

/// A tree has at least as many nodes as deleted leaves and blob nodes.
pub proof fn lemma_dead_nodes(c: Seq<Option<Node>>, t: Art)
    requires
        rep(c, t),
        sep(t),
    ensures
        Set::new(|s: int| owns(t, s)).finite(),
        dead(t) + blob_nodes(t) <= Set::new(|s: int| owns(t, s)).len(),
    decreases t, 257int,
{
    let all = Set::new(|s: int| owns(t, s));
    lemma_numbers_finite();
    assert(all.subset_of(node_numbers())) by {
        assert forall|s: int| all.contains(s) implies node_numbers().contains(s) by {
            lemma_owns_present(c, t, s);
        }
    }
    vstd::set_lib::lemma_len_subset(all, node_numbers());
    match t {
        Art::Leaf { slot, .. } => {
            assert(all.contains(slot));
            vstd::set_lib::lemma_len_subset(set![slot], all);
        },
        Art::Blob { slot, .. } => {
            assert(all.contains(slot));
            vstd::set_lib::lemma_len_subset(set![slot], all);
        },
        Art::Prefix { child, .. } => {
            lemma_dead_nodes(c, *child);
            let below = Set::new(|s: int| owns(*child, s));
            assert(below.subset_of(all));
            vstd::set_lib::lemma_len_subset(below, all);
        },
        Art::Inner { kids, .. } => {
            lemma_dead_kid_nodes(c, t, 256);
            let below = kid_nodes(kids, 256);
            assert(below.subset_of(all));
            vstd::set_lib::lemma_len_subset(below, all);
        },
        _ => {},
    }
}

proof fn lemma_dead_kid_nodes(c: Seq<Option<Node>>, t: Art, n: int)
    requires
        t is Inner,
        rep(c, t),
        sep(t),
        0 <= n <= 256,
    ensures
        kid_nodes(t->kids, n).finite(),
        dead_kids(t->kids, n) + blob_nodes_below(t->kids, n) <= kid_nodes(t->kids, n).len(),
    decreases t, n,
{
    let kids = t->kids;
    let now = kid_nodes(kids, n);
    if n == 0 {
        assert(now =~= Set::<int>::empty());
    } else {
        lemma_dead_kid_nodes(c, t, n - 1);
        let before = kid_nodes(kids, n - 1);
        match kids[n - 1] {
            Some(k) => {
                assert(kids[n - 1] is Some);
                lemma_dead_nodes(c, k);
                let own = Set::new(|s: int| owns(k, s));
                assert(before.disjoint(own)) by {
                    assert forall|s: int| !(before.contains(s) && own.contains(s)) by {
                        if before.contains(s) && own.contains(s) {
                            let b = choose|b: int| 0 <= b < n - 1 && b < kids.len() && (#[trigger] kids[b]) is Some && owns(kids[b]->0, s);
                            assert(!(owns(kids[b]->0, s) && owns(kids[n - 1]->0, s)));
                        }
                    }
                }
                assert(now =~= before + own) by {
                    assert forall|s: int| now.contains(s) <==> (before + own).contains(s) by {
                        if now.contains(s) {
                            let b = choose|b: int| 0 <= b < n && b < kids.len() && (#[trigger] kids[b]) is Some && owns(kids[b]->0, s);
                            if b < n - 1 {
                                assert(before.contains(s));
                            }
                        }
                        if before.contains(s) {
                            let b = choose|b: int| 0 <= b < n - 1 && b < kids.len() && (#[trigger] kids[b]) is Some && owns(kids[b]->0, s);
                            assert(0 <= b < n && kids[b] is Some && owns(kids[b]->0, s));
                        }
                    }
                }
                vstd::set_lib::lemma_set_disjoint_lens(before, own);
            },
            None => {
                assert(now =~= before) by {
                    assert forall|s: int| now.contains(s) <==> before.contains(s) by {
                        if now.contains(s) {
                            let b = choose|b: int| 0 <= b < n && b < kids.len() && (#[trigger] kids[b]) is Some && owns(kids[b]->0, s);
                            assert(0 <= b < n - 1 && kids[b] is Some && owns(kids[b]->0, s));
                        }
                        if before.contains(s) {
                            let b = choose|b: int| 0 <= b < n - 1 && b < kids.len() && (#[trigger] kids[b]) is Some && owns(kids[b]->0, s);
                            assert(0 <= b < n && kids[b] is Some && owns(kids[b]->0, s));
                        }
                    }
                }
            },
        }
    }
}

proof fn lemma_numbers_finite()
    ensures
        node_numbers().finite(),
        node_numbers().len() == 65535,
{
    vstd::set_lib::lemma_int_range(1, 65536);
    assert(node_numbers() =~= vstd::set_lib::set_int_range(1, 65536));
}

/// A blob has fewer deleted leaves and blob nodes than node numbers.
pub proof fn lemma_dead_bound(c: Seq<Option<Node>>, t: Art)
    requires
        rep(c, t),
        sep(t),
    ensures
        dead(t) + blob_nodes(t) < 65536,
{
    lemma_dead_nodes(c, t);
    lemma_numbers_finite();
    let all = Set::new(|s: int| owns(t, s));
    assert(all.subset_of(node_numbers())) by {
        assert forall|s: int| all.contains(s) implies node_numbers().contains(s) by {
            lemma_owns_present(c, t, s);
        }
    }
    vstd::set_lib::lemma_len_subset(all, node_numbers());
}

/// Number of blob nodes of `t`.
pub open spec fn blob_nodes(t: Art) -> nat
    decreases t, 0int,
{
    match t {
        Art::Blob { .. } => 1,
        Art::Prefix { child, .. } => blob_nodes(*child),
        Art::Inner { kids, .. } => blob_nodes_below(kids, kids.len() as int),
        _ => 0,
    }
}

/// Number of blob nodes of the first `n` subtrees.
pub open spec fn blob_nodes_below(kids: Seq<Option<Art>>, n: int) -> nat
    decreases kids, n,
{
    if n <= 0 || n > kids.len() {
        0
    } else {
        blob_nodes_below(kids, n - 1) + (match kids[n - 1] {
            Some(k) => blob_nodes(k),
            None => 0,
        })
    }
}

/// Absent subtrees have no blob nodes.
pub proof fn lemma_blob_nodes_skip(kids: Seq<Option<Art>>, m: int, n: int)
    requires
        0 <= m <= n <= kids.len(),
        forall|x: int| m <= x < n ==> kids[x] is None,
    ensures
        blob_nodes_below(kids, n) == blob_nodes_below(kids, m),
    decreases n,
{
    if m < n {
        lemma_blob_nodes_skip(kids, m, n - 1);
    }
}

/// Number of blob nodes of a subtree that may be absent.
pub open spec fn blob_nodes_in(k: Option<Art>) -> nat {
    match k {
        Some(k) => blob_nodes(k),
        None => 0,
    }
}

/// Blob nodes once subtree `b` is another.
pub proof fn lemma_blob_nodes_update(kids: Seq<Option<Art>>, b: int, k2: Option<Art>, n: int)
    requires
        0 <= b < kids.len(),
        0 <= n <= kids.len(),
    ensures
        blob_nodes_below(kids.update(b, k2), n) + (if b < n {
            blob_nodes_in(kids[b])
        } else {
            0
        }) == blob_nodes_below(kids, n) + (if b < n {
            blob_nodes_in(k2)
        } else {
            0
        }),
    decreases n,
{
    if n > 0 {
        lemma_blob_nodes_update(kids, b, k2, n - 1);
    }
}

} // verus!
