//! What holds of the choice of the subtree that a full blob gives up.
use vstd::prelude::*;

use crate::art::{at, dead, owns, rep, sep, slot_of, Art, Route};
use crate::extent::{numbers_of, weight_of};
use crate::frame::{BlobFrame, BlobHeader};
use crate::layout::{node_type, Node};
use crate::order::{lex_lt, rises_at};
use crate::spillover::{
    better, byte_boundary, candidates, cut, deeper, edge_candidate, edge_candidates, edge_here, edge_kid, footprint, has_edge, is_best, is_candidate,
    kid_candidate, kids_candidates, lemma_candidate_edge, lemma_candidates, lemma_edge_owned, path_to, run_boundary, Victim, VictimCandidate, VictimEdgeKind,
};
use crate::store::split_off;

verus! {

/// Below which of the branches a reference lies is not in doubt.
proof fn lemma_edge_kid(t: Art, v: Victim, b: int)
    requires
        t is Inner,
        sep(t),
        0 <= b < t->kids.len(),
        t->kids[b] is Some,
        has_edge(t->kids[b]->0, v),
    ensures
        edge_kid(t->kids, v) == b,
        !edge_here(t, v),
{
    let kids = t->kids;
    let e = edge_kid(kids, v);
    assert(kids[b] is Some && has_edge(kids[b]->0, v));
    assert(0 <= e < kids.len() && kids[e] is Some && has_edge(kids[e]->0, v));
    lemma_edge_owned(kids[b]->0, v);
    lemma_edge_owned(kids[e]->0, v);
    let s = v.parent_slot as int;
    assert(owns(kids[b]->0, s) && owns(kids[e]->0, s));
}

proof fn lemma_candidate_path(c: Seq<Option<Node>>, t: Art, depth: usize, x: VictimCandidate)
    requires
        rep(c, t),
        sep(t),
        is_candidate(c, t, depth, x),
    ensures
        has_edge(t, x.victim),
        path_to(t, x.victim).len() > 0,
        x.boundary is PathComponent <==> path_to(t, x.victim).last() == 0x2f,
        depth + path_to(t, x.victim).len() <= usize::MAX ==> x.boundary_depth == depth + path_to(t, x.victim).len(),
        !(cut(t, x.victim) is Blob),
        rep(c, cut(t, x.victim)),
        sep(cut(t, x.victim)),
        x.footprint == footprint(c, cut(t, x.victim)),
    decreases t,
{
    lemma_candidate_edge(c, t, depth, x);
    match t {
        Art::Prefix { slot, bytes, child } => {
            let v0 = Victim { parent_slot: slot as u16, kind: VictimEdgeKind::Prefix, byte: 0, victim_slot: slot_of(*child) as u16 };
            let d2 = deeper(depth, bytes.len() as int);
            let own = VictimCandidate { victim: v0, footprint: footprint(c, *child), boundary: run_boundary(bytes), boundary_depth: d2 };
            assert(edge_candidate(c, *child, v0, run_boundary(bytes), d2, x));
            if x == own {
                assert(edge_here(t, x.victim));
            } else {
                lemma_candidate_path(c, *child, d2, x);
                lemma_edge_owned(*child, x.victim);
                assert(!edge_here(t, x.victim));
                assert(path_to(t, x.victim) == bytes + path_to(*child, x.victim));
            }
        },
        Art::Inner { slot, kids } => {
            let b = choose|b: int| 0 <= b < kids.len() && (#[trigger] kids[b]) is Some && kid_candidate(c, t, depth, b, x);
            let k = kids[b]->0;
            let d2 = deeper(depth, 1);
            assert(rep(c, k));
            let v0 = Victim {
                parent_slot: slot as u16,
                kind: VictimEdgeKind::Inner(node_type(at(c, slot)->0)),
                byte: b as u8,
                victim_slot: slot_of(k) as u16,
            };
            let own = VictimCandidate { victim: v0, footprint: footprint(c, k), boundary: byte_boundary(b as u8), boundary_depth: d2 };
            if x == own {
                assert(edge_here(t, x.victim));
            } else {
                lemma_candidate_path(c, k, d2, x);
                lemma_edge_kid(t, x.victim, b);
                assert(path_to(t, x.victim) == seq![b as u8] + path_to(k, x.victim));
            }
        },
        _ => {},
    }
}

/// What is said of a subtree that could be moved out is so: its boundary is a
/// path component exactly if the last byte that leads to it is a slash, the
/// depth of the boundary is the number of bytes that lead to it, and it takes
/// as many bytes and nodes as its nodes do together.
pub proof fn candidates_are_as_described(f: BlobFrame, x: VictimCandidate)
    requires
        f.sound(),
        is_candidate(f.cells@, f.tree(), 0, x),
    ensures
        ({
            let via = path_to(f.tree(), x.victim);
            let k = cut(f.tree(), x.victim);
            &&& via.len() > 0
            &&& x.boundary is PathComponent <==> via.last() == 0x2f
            &&& via.len() <= usize::MAX ==> x.boundary_depth == via.len()
            &&& !(k is Blob)
            &&& x.footprint.bytes == weight_of(f.cells@, numbers_of(k), true)
            &&& x.footprint.nodes == weight_of(f.cells@, numbers_of(k), false)
        }),
{
    let t = f.tree();
    let k = cut(t, x.victim);
    lemma_candidate_path(f.cells@, t, 0, x);
    crate::extent::lemma_tree_weight(f.cells@, k);
    crate::extent::tree_fits_used_space(f);
    crate::spillover::lemma_cut_budget(f.cells@, t, x.victim);
    crate::migrate::lemma_budget_sign(f.cells@, k, false);
}

/// Which of two subtrees is moved out. One of 159129 to 318259 bytes (35 to 70
/// hundredths of what a blob holds) goes before one of another size. Of two
/// such, one behind a slash goes before one that is not, and then the larger
/// one. Of two that are too small the larger one goes, of two too large the
/// smaller one, and else the one closer to 318259 bytes. Of two of one size one
/// behind a slash goes first, then the one with the shorter way to it, then the
/// one with more nodes.
pub proof fn the_better_subtree_moves_out(a: VictimCandidate, b: VictimCandidate)
    ensures
        ({
            let (x, y) = (a.footprint.bytes, b.footprint.bytes);
            let a_fits = 159129 <= x && x <= 318259;
            let b_fits = 159129 <= y && y <= 318259;
            let a_cut = a.boundary is PathComponent;
            let b_cut = b.boundary is PathComponent;
            &&& a_fits && !b_fits ==> better(a, b) && !better(b, a)
            &&& a_fits && b_fits && a_cut && !b_cut ==> better(a, b) && !better(b, a)
            &&& a_fits && b_fits && a_cut == b_cut && x > y ==> better(a, b) && !better(b, a)
            &&& y < x < 159129 ==> better(a, b) && !better(b, a)
            &&& 318259 < x < y ==> better(a, b) && !better(b, a)
            &&& x < 159129 && y > 318259 && 318259 - x < y - 318259 ==> better(a, b) && !better(b, a)
            &&& x < 159129 && y > 318259 && 318259 - x > y - 318259 ==> better(b, a) && !better(a, b)
            &&& x == y && a_cut && !b_cut ==> better(a, b) && !better(b, a)
            &&& x == y && a_cut == b_cut && a.boundary_depth < b.boundary_depth ==> better(a, b) && !better(b, a)
            &&& x == y && a_cut == b_cut && a.boundary_depth == b.boundary_depth ==> (better(a, b) <==> a.footprint.nodes > b.footprint.nodes)
        }),
{
}

/// Blobs are split at path components: where some subtree of a fitting size
/// lies behind a slash, the one chosen has a fitting size and lies behind a
/// slash.
pub proof fn splits_fall_on_path_components(f: BlobFrame, x: VictimCandidate, y: VictimCandidate)
    requires
        f.sound(),
        is_candidate(f.cells@, f.tree(), 0, x),
        forall|z: VictimCandidate| #[trigger] is_candidate(f.cells@, f.tree(), 0, z) ==> !better(z, x),
        is_candidate(f.cells@, f.tree(), 0, y),
        159129 <= weight_of(f.cells@, numbers_of(cut(f.tree(), y.victim)), true) <= 318259,
        path_to(f.tree(), y.victim).last() == 0x2f,
    ensures
        159129 <= weight_of(f.cells@, numbers_of(cut(f.tree(), x.victim)), true) <= 318259,
        path_to(f.tree(), x.victim).last() == 0x2f,
{
    candidates_are_as_described(f, x);
    candidates_are_as_described(f, y);
    the_better_subtree_moves_out(y, x);
}

/// A subtree of a fitting size is moved out wherever there is one to choose.
pub proof fn splits_fill_a_blob_well(f: BlobFrame, x: VictimCandidate, y: VictimCandidate)
    requires
        f.sound(),
        is_candidate(f.cells@, f.tree(), 0, x),
        forall|z: VictimCandidate| #[trigger] is_candidate(f.cells@, f.tree(), 0, z) ==> !better(z, x),
        is_candidate(f.cells@, f.tree(), 0, y),
        159129 <= weight_of(f.cells@, numbers_of(cut(f.tree(), y.victim)), true) <= 318259,
    ensures
        159129 <= weight_of(f.cells@, numbers_of(cut(f.tree(), x.victim)), true) <= 318259,
{
    candidates_are_as_described(f, x);
    candidates_are_as_described(f, y);
    the_better_subtree_moves_out(y, x);
}

/// What may be chosen: every subtree right below the root that is not in
/// another blob already. Here below a branch.
pub proof fn branches_of_the_root_may_go(c: Seq<Option<Node>>, t: Art, depth: usize, b: u8) -> (x: VictimCandidate)
    requires
        rep(c, t),
        t is Inner,
        t->kids[b as int] is Some,
        !(t->kids[b as int]->0 is Blob),
    ensures
        is_candidate(c, t, depth, x),
        x.victim.parent_slot == slot_of(t),
        x.victim.byte == b,
        x.victim.victim_slot == slot_of(t->kids[b as int]->0),
{
    let k = t->kids[b as int]->0;
    assert(rep(c, k));
    let x = VictimCandidate {
        victim: Victim {
            parent_slot: slot_of(t) as u16,
            kind: VictimEdgeKind::Inner(node_type(at(c, slot_of(t))->0)),
            byte: b,
            victim_slot: slot_of(k) as u16,
        },
        footprint: footprint(c, k),
        boundary: byte_boundary(b),
        boundary_depth: deeper(depth, 1),
    };
    assert(kid_candidate(c, t, depth, b as int, x));
    x
}

/// Here below a prefix.
pub proof fn the_rest_behind_a_prefix_may_go(c: Seq<Option<Node>>, t: Art, depth: usize) -> (x: VictimCandidate)
    requires
        rep(c, t),
        t is Prefix,
        !(*t->child is Blob),
    ensures
        is_candidate(c, t, depth, x),
        x.victim.parent_slot == slot_of(t),
        x.victim.kind is Prefix,
        x.victim.victim_slot == slot_of(*t->child),
{
    VictimCandidate {
        victim: Victim { parent_slot: slot_of(t) as u16, kind: VictimEdgeKind::Prefix, byte: 0, victim_slot: slot_of(*t->child) as u16 },
        footprint: footprint(c, *t->child),
        boundary: run_boundary(t->Prefix_bytes),
        boundary_depth: deeper(depth, t->Prefix_bytes.len() as int),
    }
}

/// What may be chosen right below the root of a subtree of more than 318259
/// bytes may be chosen of the whole tree; below a smaller one nothing may.
pub proof fn large_subtrees_are_searched(c: Seq<Option<Node>>, t: Art, depth: usize, b: u8, y: VictimCandidate)
    requires
        rep(c, t),
        sep(t),
        c.len() <= 56833,
        t is Inner,
        t->kids[b as int] is Some,
        !(t->kids[b as int]->0 is Blob),
        is_candidate(c, t->kids[b as int]->0, deeper(depth, 1), y),
    ensures
        weight_of(c, numbers_of(t->kids[b as int]->0), true) > 318259 ==> is_candidate(c, t, depth, y),
        weight_of(c, numbers_of(t->kids[b as int]->0), true) <= 318259 ==> !is_candidate(c, t, depth, y),
{
    let kids = t->kids;
    let k = kids[b as int]->0;
    assert(rep(c, k));
    crate::extent::lemma_tree_weight(c, k);
    crate::migrate::lemma_budget_sign(c, k, false);
    let w = weight_of(c, numbers_of(k), true);
    if w > 318259 {
        assert(kid_candidate(c, t, depth, b as int, y));
    } else if is_candidate(c, t, depth, y) {
        let e = choose|e: int| 0 <= e < kids.len() && (#[trigger] kids[e]) is Some && kid_candidate(c, t, depth, e, y);
        assert(rep(c, kids[e]->0));
        lemma_candidate_edge(c, k, deeper(depth, 1), y);
        lemma_edge_owned(k, y.victim);
        let s = y.victim.parent_slot as int;
        if footprint(c, kids[e]->0).bytes > 318259 && is_candidate(c, kids[e]->0, deeper(depth, 1), y) {
            lemma_candidate_edge(c, kids[e]->0, deeper(depth, 1), y);
            lemma_edge_owned(kids[e]->0, y.victim);
            assert(owns(kids[e]->0, s) && owns(k, s));
        } else {
            assert(s == slot_of(t));
        }
    }
}

/// What follows the same bytes keeps its order.
proof fn lemma_order_behind(a: Seq<u8>, p: Seq<u8>, q: Seq<u8>)
    ensures
        lex_lt(p, q) ==> lex_lt(a + p, a + q),
        p.len() > 0 ==> lex_lt(a, a + p),
        p.len() > 0 && q.len() > 0 && p[0] < q[0] ==> lex_lt(p, q),
{
    if lex_lt(p, q) {
        if p.is_prefix_of(q) {
            crate::order::lemma_prefix_agree(p, q);
            crate::order::lemma_prefix_agree(a + p, a + q);
        }
        if crate::order::past(p, q) {
            let i = choose|i: int| rises_at(p, q, i);
            assert(rises_at(a + p, a + q, a.len() + i));
        }
    }
    if p.len() > 0 {
        crate::order::lemma_prefix_agree(a, a + p);
        if q.len() > 0 && p[0] < q[0] {
            assert(rises_at(p, q, 0));
        }
    }
}

/// Whether the candidates of `s` follow each other in key order.
spec fn in_key_order(t: Art, s: Seq<VictimCandidate>) -> bool {
    forall|i: int, j: int| 0 <= i < j < s.len() ==> lex_lt(path_to(t, (#[trigger] s[i]).victim), path_to(t, (#[trigger] s[j]).victim))
}

/// The way to a subtree further down goes through that of the child.
proof fn lemma_path_through(c: Seq<Option<Node>>, t: Art, depth: usize, b: int, x: VictimCandidate)
    requires
        rep(c, t),
        sep(t),
        t matches Art::Prefix { child, .. } ==> is_candidate(c, *child, depth, x),
        t is Inner ==> 0 <= b < t->kids.len() && t->kids[b] is Some && is_candidate(c, t->kids[b]->0, depth, x),
    ensures
        t matches Art::Prefix { bytes, child, .. } ==> path_to(t, x.victim) == bytes + path_to(*child, x.victim) && path_to(*child, x.victim).len() > 0,
        t is Inner ==> path_to(t, x.victim) == seq![b as u8] + path_to(t->kids[b]->0, x.victim) && path_to(t->kids[b]->0, x.victim).len() > 0,
{
    match t {
        Art::Prefix { child, .. } => {
            lemma_candidate_path(c, *child, depth, x);
            lemma_edge_owned(*child, x.victim);
            assert(!edge_here(t, x.victim));
        },
        Art::Inner { kids, .. } => {
            assert(rep(c, kids[b]->0));
            lemma_candidate_path(c, kids[b]->0, depth, x);
            lemma_edge_kid(t, x.victim, b);
        },
        _ => {},
    }
}

/// Candidates come in key order.
proof fn lemma_candidates_ordered(c: Seq<Option<Node>>, t: Art, depth: usize)
    requires
        rep(c, t),
        sep(t),
    ensures
        in_key_order(t, candidates(c, t, depth)),
    decreases t, (if t is Inner { t->kids.len() + 1 } else { 1 }),
{
    match t {
        Art::Prefix { slot, bytes, child } => {
            let v = Victim { parent_slot: slot as u16, kind: VictimEdgeKind::Prefix, byte: 0, victim_slot: slot_of(*child) as u16 };
            let d2 = deeper(depth, bytes.len() as int);
            let rest = candidates(c, *child, d2);
            let all = edge_candidates(c, *child, v, run_boundary(bytes), d2);
            lemma_candidates_ordered(c, *child, d2);
            crate::insert::lemma_rep_root(c, t);
            crate::insert::lemma_rep_root(c, *child);
            assert(path_to(t, v) == bytes) by {
                assert(edge_here(t, v));
            }
            assert forall|i: int, j: int| 0 <= i < j < all.len() implies lex_lt(
                path_to(t, (#[trigger] all[i]).victim),
                path_to(t, (#[trigger] all[j]).victim),
            ) by {
                assert(all[j] == rest[j - 1]);
                assert(rest.contains(rest[j - 1]));
                lemma_candidates(c, *child, d2, rest[j - 1]);
                lemma_path_through(c, t, d2, 0, rest[j - 1]);
                lemma_order_behind(bytes, path_to(*child, rest[j - 1].victim), Seq::empty());
                if i > 0 {
                    assert(all[i] == rest[i - 1]);
                    assert(rest.contains(rest[i - 1]));
                    lemma_candidates(c, *child, d2, rest[i - 1]);
                    lemma_path_through(c, t, d2, 0, rest[i - 1]);
                    lemma_order_behind(bytes, path_to(*child, rest[i - 1].victim), path_to(*child, rest[j - 1].victim));
                }
            }
        },
        Art::Inner { kids, .. } => lemma_kids_ordered(c, t, depth, kids.len() as int),
        _ => {},
    }
}

proof fn lemma_kids_ordered(c: Seq<Option<Node>>, t: Art, depth: usize, n: int)
    requires
        rep(c, t),
        sep(t),
        t is Inner,
        0 <= n <= t->kids.len(),
    ensures
        in_key_order(t, kids_candidates(c, t, depth, n)),
        forall|i: int|
            0 <= i < kids_candidates(c, t, depth, n).len() ==> path_to(t, (#[trigger] kids_candidates(c, t, depth, n)[i]).victim).len() > 0 && path_to(
                t,
                kids_candidates(c, t, depth, n)[i].victim,
            )[0] < n,
    decreases t, n,
{
    let kids = t->kids;
    let slot = slot_of(t);
    crate::insert::lemma_rep_root(c, t);
    if n > 0 {
        lemma_kids_ordered(c, t, depth, n - 1);
        let first = kids_candidates(c, t, depth, n - 1);
        let both = kids_candidates(c, t, depth, n);
        if let Some(k) = kids[n - 1] {
            let d2 = deeper(depth, 1);
            let v = Victim {
                parent_slot: slot as u16,
                kind: VictimEdgeKind::Inner(node_type(at(c, slot)->0)),
                byte: (n - 1) as u8,
                victim_slot: slot_of(k) as u16,
            };
            let rest = candidates(c, k, d2);
            let own = edge_candidates(c, k, v, byte_boundary((n - 1) as u8), d2);
            assert(both == first + own);
            assert(rep(c, k));
            lemma_candidates_ordered(c, k, d2);
            crate::insert::lemma_rep_root(c, k);
            assert(path_to(t, v) == seq![(n - 1) as u8]) by {
                assert(edge_here(t, v));
            }
            let b = seq![(n - 1) as u8];
            assert forall|j: int| 0 <= j < own.len() implies path_to(t, (#[trigger] own[j]).victim).len() > 0 && path_to(t, own[j].victim)[0] == n - 1 by {
                if j > 0 {
                    assert(own[j] == rest[j - 1]);
                    assert(rest.contains(rest[j - 1]));
                    lemma_candidates(c, k, d2, rest[j - 1]);
                    lemma_path_through(c, t, d2, n - 1, rest[j - 1]);
                }
            }
            assert forall|i: int, j: int| 0 <= i < j < own.len() implies lex_lt(
                path_to(t, (#[trigger] own[i]).victim),
                path_to(t, (#[trigger] own[j]).victim),
            ) by {
                assert(own[j] == rest[j - 1]);
                assert(rest.contains(rest[j - 1]));
                lemma_candidates(c, k, d2, rest[j - 1]);
                lemma_path_through(c, t, d2, n - 1, rest[j - 1]);
                lemma_order_behind(b, path_to(k, rest[j - 1].victim), Seq::empty());
                if i > 0 {
                    assert(own[i] == rest[i - 1]);
                    assert(rest.contains(rest[i - 1]));
                    lemma_candidates(c, k, d2, rest[i - 1]);
                    lemma_path_through(c, t, d2, n - 1, rest[i - 1]);
                    lemma_order_behind(b, path_to(k, rest[i - 1].victim), path_to(k, rest[j - 1].victim));
                }
            }
            assert forall|i: int, j: int| 0 <= i < j < both.len() implies lex_lt(
                path_to(t, (#[trigger] both[i]).victim),
                path_to(t, (#[trigger] both[j]).victim),
            ) by {
                if j < first.len() {
                    assert(both[i] == first[i] && both[j] == first[j]);
                } else {
                    assert(both[j] == own[j - first.len()]);
                    if i < first.len() {
                        assert(both[i] == first[i]);
                        lemma_order_behind(Seq::empty(), path_to(t, first[i].victim), path_to(t, own[j - first.len()].victim));
                    } else {
                        assert(both[i] == own[i - first.len()]);
                    }
                }
            }
            assert forall|i: int| 0 <= i < both.len() implies path_to(t, (#[trigger] both[i]).victim).len() > 0 && path_to(t, both[i].victim)[0] < n by {
                if i < first.len() {
                    assert(both[i] == first[i]);
                } else {
                    assert(both[i] == own[i - first.len()]);
                }
            }
        } else {
            assert(both =~= first);
        }
    }
}

/// Of subtrees that are as good as each other the first in key order is moved
/// out.
pub proof fn the_first_of_equals_moves_out(f: BlobFrame, x: VictimCandidate, y: VictimCandidate)
    requires
        f.sound(),
        is_best(f, x),
        is_candidate(f.cells@, f.tree(), 0, y),
        y != x,
    ensures
        better(x, y) || (!better(y, x) && lex_lt(path_to(f.tree(), x.victim), path_to(f.tree(), y.victim))),
{
    let s = candidates(f.cells@, f.tree(), 0);
    lemma_candidates(f.cells@, f.tree(), 0, y);
    lemma_candidates_ordered(f.cells@, f.tree(), 0);
    let i = choose|i: int|
        {
            &&& 0 <= i < s.len()
            &&& (#[trigger] s[i]) == x
            &&& forall|j: int| 0 <= j < i ==> better(x, #[trigger] s[j])
        };
    let j = choose|j: int| 0 <= j < s.len() && s[j] == y;
    if j < i {
        assert(better(x, s[j]));
    } else {
        assert(lex_lt(path_to(f.tree(), s[i].victim), path_to(f.tree(), s[j].victim)));
    }
}

/// What a split moves out is the best subtree: the new blob holds its nodes, behind
/// an empty root of 8 bytes, and the deleted leaves among them; the way to it is
/// what the keys that cross have in common.
pub proof fn splits_move_the_best_subtree(f0: BlobFrame, f: BlobFrame, child: BlobFrame, epoch: u64) -> (x: VictimCandidate)
    requires
        f0.sound(),
        split_off(f0, f, child, epoch),
    ensures
        is_best(f0, x),
        child.header.space_used == 69632 + 8 + x.footprint.bytes,
        child.header.num_slots == 1 + x.footprint.nodes,
        child.header.tombstone_leaf_cnt == dead(cut(f0.tree(), x.victim)),
        f.header.space_used == f0.header.space_used + 128,
        forall|key: Seq<u8>|
            (#[trigger] f.route(key, 0) matches Route::Crossing { guid, .. } && guid == child.header.blob_guid) && f.route(key, 0) != f0.route(key, 0)
                ==> path_to(f0.tree(), x.victim).is_prefix_of(key) && f.route(key, 0)->depth == path_to(f0.tree(), x.victim).len(),
{
    let out = choose|out: crate::spillover::Spilled| #[trigger]
        crate::spillover::spilled(f0, f, child.header.blob_guid, out) && child == (BlobFrame {
            header: BlobHeader { created_epoch: epoch, ..out.child.header },
            ..out.child
        });
    let x = choose|x: VictimCandidate| #[trigger]
        is_best(f0, x) && path_to(f0.tree(), x.victim) == out.path@ && crate::spillover::split_headers(f0, f, out.child, cut(f0.tree(), x.victim));
    let t = f0.tree();
    let k = cut(t, x.victim);
    lemma_candidate_path(f0.cells@, t, 0, x);
    crate::extent::tree_fits_used_space(f0);
    crate::spillover::lemma_cut_budget(f0.cells@, t, x.victim);
    crate::migrate::lemma_budget_sign(f0.cells@, k, false);
    assert forall|key: Seq<u8>|
        (#[trigger] f.route(key, 0) matches Route::Crossing { guid, .. } && guid == child.header.blob_guid) && f.route(key, 0) != f0.route(key, 0)
        implies path_to(t, x.victim).is_prefix_of(key) && f.route(key, 0)->depth == path_to(t, x.victim).len() by {
        assert(crate::spillover::moved(f0.route(key, 0), f.route(key, 0), out.child.tree(), child.header.blob_guid, out.path@, key, 0));
        assert(key.subrange(0, out.path@.len() as int) =~= out.path@);
    }
    x
}

} // verus!
