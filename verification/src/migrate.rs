//! Copying subtrees between blobs: moving one out, folding one back in, and
//! rebuilding a blob without its deleted leaves.
use vstd::prelude::*;

use crate::art::{at, blob_nodes, blob_nodes_below, dead, dead_kids, keyed, owns, rep, sep, slot_of, step, Art, Route};
use crate::erase::{copy_inner, lemma_degree};
use crate::errors::{Error, Result};
use crate::extent::{end_by, numbers_of, spans, stops_at, weight_of};
use crate::frame::{off_of, room_end, rooted, tree_at, unit_of, BlobFrame, BlobHeader, SPILLOVER_RESERVATION};
use crate::insert::{copy_bytes, lemma_keeps_trans, lemma_matches_push, lemma_rep_root};
use crate::layout::{
    leaf_body_size, leaf_size, node_size, node_type, page_align_up, page_ceil, BlobGuid, BlobNode, Leaf, Node, NodeType,
    Prefix, BLOB_NODE_SIZE, DATA_AREA_START, EMPTY_ROOT_SIZE, MAX_SLOTS, NODE16_SIZE, NODE256_SIZE,
    NODE48_SIZE, NODE4_SIZE, PAGE_4K, PAGE_SIZE, PREFIX_SIZE,
};
use crate::node::{
    cursor_byte, empty_node16, empty_node256, empty_node4, empty_node48, inner_insert_child,
    inner_ok, inner_update_child, kid, next_inner_child_from, no_kid_from,
};
use crate::writers::{behind, below_end, keeps, write_prefix_chain};
use crate::store::same_node;

verus! {

/// Whether nothing of `t` survives once deleted leaves are dropped.
pub open spec fn gone(t: Art) -> bool
    decreases t,
{
    match t {
        Art::Leaf { dead: d, .. } => d,
        Art::Prefix { child, .. } => gone(*child),
        Art::Inner { kids, .. } => forall|b: int| 0 <= b < kids.len() && (#[trigger] kids[b]) is Some ==> gone(kids[b]->0),
        _ => false,
    }
}

/// Whether a copy leaves `t` out.
pub open spec fn dropped(t: Art, filter: bool) -> bool {
    filter && gone(t)
}

/// Nothing is found in a tree of which nothing survives.
pub proof fn lemma_gone(t: Art)
    requires
        gone(t),
    ensures
        forall|key: Seq<u8>, d: int| (#[trigger] step(t, key, d)) is NotFound,
    decreases t,
{
    assert forall|key: Seq<u8>, d: int| (#[trigger] step(t, key, d)) is NotFound by {
        match t {
            Art::Prefix { bytes, child, .. } => {
                lemma_gone(*child);
                assert(step(*child, key, d + bytes.len()) is NotFound);
            },
            Art::Inner { kids, .. } => {
                if 0 <= d < key.len() && key[d] < kids.len() && kids[key[d] as int] is Some {
                    lemma_gone(kids[key[d] as int]->0);
                    assert(step(kids[key[d] as int]->0, key, d + 1) is NotFound);
                }
            },
            _ => {},
        }
    }
}

/// What a copy of a subtree takes.
pub struct Budget {
    /// Bytes of nodes other than leaves.
    pub routing: int,
    /// Bytes of leaves.
    pub leaf: int,
    /// Number of leaves.
    pub leaves: int,
    /// Number of nodes.
    pub nodes: int,
    /// Number of blob nodes.
    pub blobs: nat,
}

/// Both together.
pub open spec fn add_budgets(a: Budget, b: Budget) -> Budget {
    Budget {
        routing: a.routing + b.routing,
        leaf: a.leaf + b.leaf,
        leaves: a.leaves + b.leaves,
        nodes: a.nodes + b.nodes,
        blobs: a.blobs + b.blobs,
    }
}

/// Nothing.
pub open spec fn no_budget() -> Budget {
    Budget { routing: 0, leaf: 0, leaves: 0, nodes: 0, blobs: 0 }
}

/// One node of `bytes` bytes that is neither a leaf nor a blob node.
pub open spec fn one_node(bytes: int) -> Budget {
    Budget { routing: bytes, leaf: 0, leaves: 0, nodes: 1, blobs: 0 }
}

/// One blob node.
pub open spec fn one_blob() -> Budget {
    Budget { routing: BLOB_NODE_SIZE as int, leaf: 0, leaves: 0, nodes: 1, blobs: 1 }
}

/// Size of the node that holds `survivors` children after a filtering copy.
pub open spec fn packed_size(survivors: int) -> int {
    if survivors == 1 {
        PREFIX_SIZE as int
    } else if survivors <= 4 {
        NODE4_SIZE as int
    } else if survivors <= 16 {
        NODE16_SIZE as int
    } else if survivors <= 48 {
        NODE48_SIZE as int
    } else {
        NODE256_SIZE as int
    }
}

/// What a copy of `t` takes.
pub open spec fn budget(c: Seq<Option<Node>>, t: Art, filter: bool) -> Budget
    decreases t, 0int,
{
    if dropped(t, filter) {
        no_budget()
    } else {
        match t {
            Art::Empty { .. } => one_node(EMPTY_ROOT_SIZE as int),
            Art::Leaf { key, value, .. } => Budget {
                routing: 0,
                leaf: leaf_size(key.len() as int, value.len() as int),
                leaves: 1,
                nodes: 1,
                blobs: 0,
            },
            Art::Prefix { child, .. } => add_budgets(budget(c, *child, filter), one_node(PREFIX_SIZE as int)),
            Art::Inner { slot, kids } => add_budgets(
                budget_kids(c, kids, kids.len() as int, filter),
                one_node(
                    if filter {
                        packed_size(survivors(kids, kids.len() as int, filter))
                    } else {
                        node_size(at(c, slot)->0)
                    },
                ),
            ),
            Art::Blob { .. } => one_blob(),
        }
    }
}

/// What copies of the first `n` subtrees take.
pub open spec fn budget_kids(c: Seq<Option<Node>>, kids: Seq<Option<Art>>, n: int, filter: bool) -> Budget
    decreases kids, n,
{
    if n <= 0 || n > kids.len() {
        no_budget()
    } else {
        add_budgets(
            budget_kids(c, kids, n - 1, filter),
            match kids[n - 1] {
                Some(k) => budget(c, k, filter),
                None => no_budget(),
            },
        )
    }
}

/// How many of the first `n` subtrees a copy keeps.
pub open spec fn survivors(kids: Seq<Option<Art>>, n: int, filter: bool) -> int
    decreases n,
{
    if n <= 0 || n > kids.len() {
        0
    } else {
        survivors(kids, n - 1, filter) + (match kids[n - 1] {
            Some(k) => if dropped(k, filter) { 0int } else { 1int },
            None => 0int,
        })
    }
}

/// Budgets are not negative.
pub proof fn lemma_budget_sign(c: Seq<Option<Node>>, t: Art, filter: bool)
    ensures
        budget(c, t, filter).routing >= 0,
        budget(c, t, filter).leaf >= 0,
        budget(c, t, filter).leaves >= 0,
        budget(c, t, filter).nodes >= 0,
    decreases t, (if t is Inner { t->kids.len() + 1 } else { 0 }),
{
    if !dropped(t, filter) {
        match t {
            Art::Prefix { child, .. } => lemma_budget_sign(c, *child, filter),
            Art::Inner { slot, kids } => {
                lemma_budget_kids_sign(c, t, kids.len() as int, filter);
            },
            _ => {},
        }
    }
}

pub proof fn lemma_budget_kids_sign(c: Seq<Option<Node>>, t: Art, n: int, filter: bool)
    requires
        t is Inner,
        0 <= n <= t->kids.len(),
    ensures
        budget_kids(c, t->kids, n, filter).routing >= 0,
        budget_kids(c, t->kids, n, filter).leaf >= 0,
        budget_kids(c, t->kids, n, filter).leaves >= 0,
        budget_kids(c, t->kids, n, filter).nodes >= 0,
    decreases t, n,
{
    if n > 0 {
        lemma_budget_kids_sign(c, t, n - 1, filter);
        if let Some(k) = t->kids[n - 1] {
            lemma_budget_sign(c, k, filter);
        }
    }
}

/// What a copy takes does not change while the nodes stand.
pub proof fn lemma_budget_kept(c: Seq<Option<Node>>, c2: Seq<Option<Node>>, t: Art, filter: bool)
    requires
        rep(c, t),
        forall|s: int| (#[trigger] at(c, s)) is Some ==> at(c2, s) == at(c, s),
    ensures
        budget(c2, t, filter) == budget(c, t, filter),
    decreases t, (if t is Inner { t->kids.len() + 1 } else { 0 }),
{
    if !dropped(t, filter) {
        match t {
            Art::Prefix { child, .. } => lemma_budget_kept(c, c2, *child, filter),
            Art::Inner { slot, kids } => {
                crate::insert::lemma_rep_root(c, t);
                lemma_budget_kids_kept(c, c2, t, kids.len() as int, filter);
            },
            _ => {},
        }
    }
}

proof fn lemma_budget_kids_kept(c: Seq<Option<Node>>, c2: Seq<Option<Node>>, t: Art, n: int, filter: bool)
    requires
        t is Inner,
        rep(c, t),
        0 <= n <= t->kids.len(),
        forall|s: int| (#[trigger] at(c, s)) is Some ==> at(c2, s) == at(c, s),
    ensures
        budget_kids(c2, t->kids, n, filter) == budget_kids(c, t->kids, n, filter),
    decreases t, n,
{
    if n > 0 {
        lemma_budget_kids_kept(c, c2, t, n - 1, filter);
        if let Some(k) = t->kids[n - 1] {
            assert(rep(c, k));
            lemma_budget_kept(c, c2, k, filter);
        }
    }
}

/// What copies of subtrees take does not change while the nodes stand.
proof fn lemma_side_budget_kept(c: Seq<Option<Node>>, c2: Seq<Option<Node>>, acc: Seq<Option<Art>>, n: int, filter: bool)
    requires
        side_by_side(c, acc),
        0 <= n <= 256,
        forall|s: int| (#[trigger] at(c, s)) is Some ==> at(c2, s) == at(c, s),
    ensures
        budget_kids(c2, acc, n, filter) == budget_kids(c, acc, n, filter),
    decreases n,
{
    if n > 0 {
        lemma_side_budget_kept(c, c2, acc, n - 1, filter);
        if let Some(k) = acc[n - 1] {
            lemma_budget_kept(c, c2, k, filter);
        }
    }
}

/// What copies of the first subtrees take does not depend on the others.
proof fn lemma_kids_budget_same(c: Seq<Option<Node>>, acc: Seq<Option<Art>>, acc2: Seq<Option<Art>>, n: int, filter: bool)
    requires
        0 <= n <= acc.len(),
        acc2.len() == acc.len(),
        forall|b: int| 0 <= b < n ==> acc2[b] == acc[b],
    ensures
        budget_kids(c, acc2, n, filter) == budget_kids(c, acc, n, filter),
    decreases n,
{
    if n > 0 {
        lemma_kids_budget_same(c, acc, acc2, n - 1, filter);
    }
}

/// One more copied subtree takes in the copy what its copy was to take.
proof fn lemma_kids_budget_step(
    c1: Seq<Option<Node>>,
    c2: Seq<Option<Node>>,
    acc: Seq<Option<Art>>,
    acc2: Seq<Option<Art>>,
    lo: int,
    b: int,
)
    requires
        side_by_side(c1, acc),
        forall|s: int| (#[trigger] at(c1, s)) is Some ==> at(c2, s) == at(c1, s),
        0 <= lo <= b < 256,
        forall|x: int| lo <= x < 256 ==> (#[trigger] acc[x]) is None,
        acc2.len() == acc.len(),
        forall|x: int| 0 <= x < b ==> acc2[x] == acc[x],
    ensures
        budget_kids(c2, acc2, b, false) == budget_kids(c1, acc, lo, false),
        budget_kids(c2, acc2, b + 1, false) == add_budgets(
            budget_kids(c1, acc, lo, false),
            match acc2[b] {
                Some(k) => budget(c2, k, false),
                None => no_budget(),
            },
        ),
{
    lemma_side_budget_kept(c1, c2, acc, lo, false);
    lemma_kids_skip(c2, acc, lo, b, false);
    lemma_kids_budget_same(c2, acc, acc2, b, false);
}

/// A lone subtree is all that the copies take.
proof fn lemma_lone_budget(c: Seq<Option<Node>>, acc: Seq<Option<Art>>, b: int)
    requires
        acc.len() == 256,
        0 <= b < 256,
        acc[b] is Some,
        forall|x: int| 0 <= x < 256 && x != b ==> (#[trigger] acc[x]) is None,
    ensures
        budget_kids(c, acc, 256, false) == budget(c, acc[b]->0, false),
{
    lemma_kids_skip(c, acc, 0, b, false);
    lemma_kids_skip(c, acc, b + 1, 256, false);
}

/// What a copy takes is the same of arenas whose nodes say the same.
pub proof fn lemma_budget_copied(c: Seq<Option<Node>>, c2: Seq<Option<Node>>, t: Art)
    requires
        rep(c, t),
        forall|i: int| same_node(#[trigger] at(c, i), at(c2, i)),
    ensures
        budget(c2, t, false) == budget(c, t, false),
    decreases t, (if t is Inner { t->kids.len() + 1 } else { 0 }),
{
    crate::insert::lemma_rep_root(c, t);
    assert(same_node(at(c, slot_of(t)), at(c2, slot_of(t))));
    match t {
        Art::Prefix { child, .. } => lemma_budget_copied(c, c2, *child),
        Art::Inner { kids, .. } => lemma_budget_kids_copied(c, c2, t, kids.len() as int),
        _ => {},
    }
}

proof fn lemma_budget_kids_copied(c: Seq<Option<Node>>, c2: Seq<Option<Node>>, t: Art, n: int)
    requires
        t is Inner,
        rep(c, t),
        0 <= n <= t->kids.len(),
        forall|i: int| same_node(#[trigger] at(c, i), at(c2, i)),
    ensures
        budget_kids(c2, t->kids, n, false) == budget_kids(c, t->kids, n, false),
    decreases t, n,
{
    if n > 0 {
        lemma_budget_kids_copied(c, c2, t, n - 1);
        if let Some(k) = t->kids[n - 1] {
            assert(rep(c, k));
            lemma_budget_copied(c, c2, k);
        }
    }
}

/// A stretch of absent subtrees changes nothing.
pub proof fn lemma_kids_skip(c: Seq<Option<Node>>, kids: Seq<Option<Art>>, m: int, n: int, filter: bool)
    requires
        0 <= m <= n <= kids.len(),
        forall|b: int| m <= b < n ==> kids[b] is None,
    ensures
        budget_kids(c, kids, m, filter) == budget_kids(c, kids, n, filter),
        survivors(kids, m, filter) == survivors(kids, n, filter),
        dead_kids(kids, m) == dead_kids(kids, n),
    decreases n,
{
    if m < n {
        lemma_kids_skip(c, kids, m, n - 1, filter);
    }
}

/// Whether `u` is a copy of `t`: every key leads to the same place, no node
/// is shared, and a filtering copy has no deleted leaves.
pub open spec fn copied(t: Art, u: Art, filter: bool) -> bool {
    &&& forall|key: Seq<u8>, d: int| #[trigger] step(u, key, d) == step(t, key, d)
    &&& forall|path: Seq<u8>| keyed(t, path) ==> #[trigger] keyed(u, path)
    &&& dead(u) == (if filter { 0 } else { dead(t) })
    &&& sep(u)
    &&& no_empty(t) ==> no_empty(u)
    &&& filter ==> !gone(u) && measure(u) == measure(t)
    &&& !filter ==> same_shape(t, u)
}

/// Whether `u` is `t` but for where the nodes stand.
pub open spec fn same_shape(t: Art, u: Art) -> bool
    decreases t,
{
    match t {
        Art::Empty { .. } => u is Empty,
        Art::Leaf { key, value, seq, dead, .. } => u == (Art::Leaf { slot: slot_of(u), key, value, seq, dead }),
        Art::Prefix { bytes, child, .. } => u is Prefix && u->Prefix_bytes == bytes && same_shape(*child, *u->child),
        Art::Inner { kids, .. } => {
            &&& u is Inner
            &&& u->kids.len() == kids.len()
            &&& forall|b: int| 0 <= b < kids.len() ==> ((#[trigger] kids[b]) is Some <==> u->kids[b] is Some)
            &&& forall|b: int| 0 <= b < kids.len() && (#[trigger] kids[b]) is Some ==> same_shape(kids[b]->0, u->kids[b]->0)
        },
        Art::Blob { bytes, guid, .. } => u == (Art::Blob { slot: slot_of(u), bytes, guid }),
    }
}

/// Copies have as many blob nodes.
pub proof fn lemma_shape_blob_nodes(t: Art, u: Art)
    requires
        same_shape(t, u),
    ensures
        blob_nodes(u) == blob_nodes(t),
    decreases t, (if t is Inner { t->kids.len() + 1 } else { 0 }),
{
    match t {
        Art::Prefix { child, .. } => lemma_shape_blob_nodes(*child, *u->child),
        Art::Inner { kids, .. } => lemma_shape_blob_nodes_below(t, u, kids.len() as int),
        _ => {},
    }
}

proof fn lemma_shape_blob_nodes_below(t: Art, u: Art, n: int)
    requires
        same_shape(t, u),
        t is Inner,
        0 <= n <= t->kids.len(),
    ensures
        blob_nodes_below(u->kids, n) == blob_nodes_below(t->kids, n),
    decreases t, n,
{
    if n > 0 {
        lemma_shape_blob_nodes_below(t, u, n - 1);
        assert(t->kids[n - 1] is Some <==> u->kids[n - 1] is Some);
        if let Some(k) = t->kids[n - 1] {
            lemma_shape_blob_nodes(k, u->kids[n - 1]->0);
        }
    }
}

/// Where nothing survives there is no blob node.
proof fn lemma_gone_blobs(t: Art)
    requires
        gone(t),
    ensures
        blob_nodes(t) == 0,
    decreases t, (if t is Inner { t->kids.len() + 1 } else { 0 }),
{
    match t {
        Art::Prefix { child, .. } => lemma_gone_blobs(*child),
        Art::Inner { kids, .. } => lemma_gone_blobs_below(t, kids.len() as int),
        _ => {},
    }
}

proof fn lemma_gone_blobs_below(t: Art, n: int)
    requires
        gone(t),
        t is Inner,
        0 <= n <= t->kids.len(),
    ensures
        blob_nodes_below(t->kids, n) == 0,
    decreases t, n,
{
    if n > 0 {
        lemma_gone_blobs_below(t, n - 1);
        if let Some(k) = t->kids[n - 1] {
            assert(gone(t->kids[n - 1]->0));
            lemma_gone_blobs(k);
        }
    }
}

/// A copy, of whatever kind, takes every blob node along.
pub proof fn lemma_budget_blobs(c: Seq<Option<Node>>, t: Art, filter: bool)
    ensures
        budget(c, t, filter).blobs == blob_nodes(t),
        measure(t).blobs == blob_nodes(t),
    decreases t, (if t is Inner { t->kids.len() + 1 } else { 0 }),
{
    if gone(t) {
        lemma_gone_blobs(t);
    }
    match t {
        Art::Prefix { child, .. } => lemma_budget_blobs(c, *child, filter),
        Art::Inner { kids, .. } => lemma_budget_blobs_below(c, t, kids.len() as int, filter),
        _ => {},
    }
}

proof fn lemma_budget_blobs_below(c: Seq<Option<Node>>, t: Art, n: int, filter: bool)
    requires
        t is Inner,
        0 <= n <= t->kids.len(),
    ensures
        budget_kids(c, t->kids, n, filter).blobs == blob_nodes_below(t->kids, n),
        measure_kids(t->kids, n).blobs == blob_nodes_below(t->kids, n),
    decreases t, n,
{
    if n > 0 {
        lemma_budget_blobs_below(c, t, n - 1, filter);
        if let Some(k) = t->kids[n - 1] {
            lemma_budget_blobs(c, k, filter);
        }
    }
}

/// Whether every node of `u` is present in `c` and was absent from `c0`.
pub open spec fn fresh_in(c0: Seq<Option<Node>>, c: Seq<Option<Node>>, u: Art) -> bool {
    &&& rep(c, u)
    &&& forall|s: int| #[trigger] owns(u, s) ==> at(c0, s) is None
}

/// Whether a blob has room for a copy that takes `b`. In the routed layout
/// leaves go to `cursor` and everything else to the bump-allocated span.
pub open spec fn takes(f: BlobFrame, cursor: int, b: Budget, routed: bool) -> bool {
    &&& f.header.num_slots + b.nodes <= MAX_SLOTS
    &&& if routed {
        &&& f.header.space_used + b.routing <= room_end(f.arena_end as int, false)
        &&& cursor + b.leaf <= PAGE_SIZE - SPILLOVER_RESERVATION
    } else {
        f.header.space_used + b.routing + b.leaf <= room_end(f.arena_end as int, false)
    }
}

/// Whether `f` is `f0` after a copy that took `b`.
pub open spec fn took(f0: BlobFrame, cursor0: int, f: BlobFrame, cursor: int, b: Budget, routed: bool) -> bool {
    &&& f.ok()
    &&& f.arena_end == f0.arena_end
    &&& keeps(f0.cells@, f.cells@)
    &&& f.header.num_slots == f0.header.num_slots + b.nodes
    &&& f.header.space_used == f0.header.space_used + b.routing + (if routed { 0 } else { b.leaf })
    &&& f.header.num_ext_blobs == clamp((f0.header.num_ext_blobs + b.blobs) as int)
    &&& cursor == cursor0 + (if routed { b.leaf } else { 0 })
    &&& f.header == (BlobHeader {
        space_used: f.header.space_used,
        num_slots: f.header.num_slots,
        num_ext_blobs: f.header.num_ext_blobs,
        ..f0.header
    })
}

/// Whether the routed layout's leaf span is free from `cursor` on.
pub open spec fn leaf_span_ok(f: BlobFrame, cursor: int, routed: bool) -> bool {
    routed ==> {
        &&& f.arena_end <= cursor <= PAGE_SIZE
        &&& DATA_AREA_START <= cursor
        &&& cursor % 8 == 0
        &&& f.arena_end < PAGE_SIZE
        &&& f.header.space_used <= f.arena_end
        &&& forall|i: int| unit_of(cursor) <= i ==> (#[trigger] at(f.cells@, i)) is None
        &&& end_by(f.cells@, cursor)
    }
}

/// Nodes placed before the leaf span leave it as it is.
proof fn lemma_span_kept(f1: BlobFrame, f: BlobFrame, cursor: int, routed: bool)
    requires
        leaf_span_ok(f1, cursor, routed),
        f.ok(),
        f.arena_end == f1.arena_end,
        routed ==> f.header.space_used <= f.arena_end,
        forall|i: int| unit_of(f1.arena_end as int) <= i ==> #[trigger] at(f.cells@, i) == at(f1.cells@, i),
    ensures
        leaf_span_ok(f, cursor, routed),
{
    if routed {
        reveal(crate::extent::extents_ok);
        assert forall|i: int| unit_of(cursor) <= i implies (#[trigger] at(f.cells@, i)) is None by {
            assert(at(f1.cells@, i) is None);
        }
        assert forall|i: int| (#[trigger] at(f.cells@, i)) is Some implies off_of(i) + node_size(at(f.cells@, i)->0) <= cursor by {
            if i >= unit_of(f.arena_end as int) {
                assert(at(f1.cells@, i) is Some);
            }
        }
    }
}

/// Whether every leaf of `t` starts at or after byte offset `lrs` and every
/// other node before it.
pub open spec fn laid_out(t: Art, lrs: int) -> bool
    decreases t,
{
    match t {
        Art::Leaf { slot, .. } => slot >= unit_of(lrs),
        Art::Prefix { slot, child, .. } => slot < unit_of(lrs) && laid_out(*child, lrs),
        Art::Inner { slot, kids } => {
            &&& slot < unit_of(lrs)
            &&& forall|b: int| 0 <= b < kids.len() && (#[trigger] kids[b]) is Some ==> laid_out(kids[b]->0, lrs)
        },
        Art::Empty { slot } => slot < unit_of(lrs),
        Art::Blob { slot, .. } => slot < unit_of(lrs),
    }
}

/// What copying `t` from `src` promises.
pub open spec fn clone_result(
    src: BlobFrame,
    f0: BlobFrame,
    cursor0: int,
    f: BlobFrame,
    cursor: int,
    t: Art,
    filter: bool,
    routed: bool,
    r: Result<Option<(u16, Ghost<Art>)>>,
) -> bool {
    let b = budget(src.cells@, t, filter);
    match r {
        Ok(None) => {
            &&& leaf_span_ok(f, cursor, routed)
            &&& dropped(t, filter)
            &&& took(f0, cursor0, f, cursor, b, routed)
        },
        Ok(Some((s, g))) => {
            &&& leaf_span_ok(f, cursor, routed)
            &&& !dropped(t, filter)
            &&& took(f0, cursor0, f, cursor, b, routed)
            &&& copied(t, g@, filter)
            &&& fresh_in(f0.cells@, f.cells@, g@)
            &&& budget(f.cells@, g@, false) == b
            &&& slot_of(g@) == s
            &&& routed ==> laid_out(g@, f0.arena_end as int)
        },
        Err(e) => {
            &&& e is Alloc
            &&& !takes(f0, cursor0, b, routed)
            &&& strained(f0, f)
        },
    }
}

/// Whether `f` is `f0` after a copy that ran out of room.
pub open spec fn strained(f0: BlobFrame, f: BlobFrame) -> bool {
    &&& f.ok()
    &&& keeps(f0.cells@, f.cells@)
    &&& f.arena_end == f0.arena_end
    &&& f.header.num_ext_blobs >= f0.header.num_ext_blobs
    &&& f.header.space_used >= f0.header.space_used
    &&& f.header.num_slots >= f0.header.num_slots
    &&& f.header == (BlobHeader {
        space_used: f.header.space_used,
        num_slots: f.header.num_slots,
        num_ext_blobs: f.header.num_ext_blobs,
        ..f0.header
    })
}

/// Whether `acc` is a set of trees that the arena holds side by side.
pub open spec fn side_by_side(c: Seq<Option<Node>>, acc: Seq<Option<Art>>) -> bool {
    &&& acc.len() == 256
    &&& forall|b: int| 0 <= b < 256 && (#[trigger] acc[b]) is Some ==> rep(c, acc[b]->0) && sep(acc[b]->0)
    &&& forall|x: int, y: int, s: int|
        0 <= x < 256 && 0 <= y < 256 && x != y && acc[x] is Some && acc[y] is Some
            ==> !(#[trigger] owns(acc[x]->0, s) && #[trigger] owns(acc[y]->0, s))
}

/// Whether `list` names exactly the trees of `acc`, in byte order.
pub open spec fn lists(list: Seq<(u8, u16)>, acc: Seq<Option<Art>>) -> bool {
    &&& forall|i: int, j: int| 0 <= i < j < list.len() ==> list[i].0 < list[j].0
    &&& forall|i: int| 0 <= i < list.len() ==> acc[(#[trigger] list[i]).0 as int] is Some && slot_of(acc[list[i].0 as int]->0) == list[i].1
    &&& forall|b: int| 0 <= b < 256 && (#[trigger] acc[b]) is Some ==> exists|i: int| 0 <= i < list.len() && (#[trigger] list[i]).0 == b
}

/// A node over trees that stand side by side makes one tree of them.
pub proof fn lemma_build_inner(c: Seq<Option<Node>>, c2: Seq<Option<Node>>, slot: int, n: Node, acc: Seq<Option<Art>>)
    requires
        side_by_side(c, acc),
        at(c, slot) is None,
        at(c2, slot) == Some(n),
        0 < slot < 65536,
        forall|i: int| i != slot ==> #[trigger] at(c2, i) == at(c, i),
        inner_ok(n),
        forall|b: int| 0 <= b < 256 ==> #[trigger] kid(n, b) == (match acc[b] {
            Some(k) => slot_of(k),
            None => 0,
        }),
    ensures
        ({
            let u = Art::Inner { slot, kids: acc };
            &&& rep(c2, u)
            &&& sep(u)
        }),
{
    let u = Art::Inner { slot, kids: acc };
    assert forall|b: int| 0 <= b < 256 && (#[trigger] acc[b]) is Some implies rep(c2, acc[b]->0) && !owns(acc[b]->0, slot) by {
        assert forall|s: int| #[trigger] owns(acc[b]->0, s) implies at(c2, s) == at(c, s) && s != slot by {
            crate::art::lemma_owns_present(c, acc[b]->0, s);
        }
        crate::art::lemma_rep_frame(c, c2, acc[b]->0);
    }
    assert forall|b: int| 0 <= b < 256 implies {
        &&& (#[trigger] acc[b] is Some <==> kid(n, b) != 0)
        &&& acc[b] is Some ==> slot_of(acc[b]->0) == kid(n, b) && rep(c2, acc[b]->0)
    } by {
        assert(kid(n, b) == (match acc[b] {
            Some(k) => slot_of(k),
            None => 0,
        }));
    }
}

/// Bytes of the node that holds `survivors` children after a filtering copy,
/// if there is one.
pub fn packed_inner_size(survivors: usize) -> (r: Option<u32>)
    ensures
        r == (if survivors == 0 { None } else { Some(packed_size(survivors as int) as u32) }),
{
    if survivors == 0 {
        None
    } else if survivors == 1 {
        Some(PREFIX_SIZE)
    } else if survivors <= 4 {
        Some(NODE4_SIZE)
    } else if survivors <= 16 {
        Some(NODE16_SIZE)
    } else if survivors <= 48 {
        Some(NODE48_SIZE)
    } else {
        Some(NODE256_SIZE)
    }
}

/// An empty node of the smallest layout for `count` children.
fn layout_for(count: usize) -> (r: Node)
    requires
        2 <= count,
    ensures
        inner_ok(r),
        node_size(r) == packed_size(count as int),
        crate::node::degree(r) == 0,
        r is Node4 <==> count <= 4,
        r is Node16 <==> 4 < count <= 16,
        r is Node48 <==> 16 < count <= 48,
        r is Node256 <==> 48 < count,
{
    if count <= 4 {
        Node::Node4(empty_node4())
    } else if count <= 16 {
        Node::Node16(empty_node16())
    } else if count <= 48 {
        Node::Node48(Box::new(empty_node48()))
    } else {
        let n = empty_node256();
        proof {
            crate::node::lemma_nonzero_zero(n.children@, 256);
        }
        Node::Node256(Box::new(n))
    }
}

/// The layout that holds `survivors` children after a filtering copy.
pub open spec fn packed_layout(survivors: int) -> NodeType {
    if survivors == 1 {
        NodeType::Prefix
    } else if survivors <= 4 {
        NodeType::Node4
    } else if survivors <= 16 {
        NodeType::Node16
    } else if survivors <= 48 {
        NodeType::Node48
    } else {
        NodeType::Node256
    }
}

/// Whether `n` is the node that joins the children in `list`: a prefix of its
/// byte over a lone one, otherwise the smallest layout with each on its byte.
pub open spec fn packs(n: Node, list: Seq<(u8, u16)>) -> bool {
    &&& node_type(n) == packed_layout(list.len() as int)
    &&& n matches Node::Prefix(p) ==> p.bytes@ == seq![list[0].0] && p.child == list[0].1
    &&& !(n is Prefix) ==> {
        &&& forall|j: int| 0 <= j < list.len() ==> kid(n, (#[trigger] list[j]).0 as int) == list[j].1
        &&& forall|x: int| 0 <= x < 256 && (forall|j: int| 0 <= j < list.len() ==> (#[trigger] list[j]).0 != x) ==> #[trigger] kid(n, x) == 0
    }
}

/// Joins trees that stand side by side: none gives nothing, one is put
/// behind a prefix of its byte, more go below the smallest layout that holds
/// them.
pub fn pack_inner_node(dst: &mut BlobFrame, list: &Vec<(u8, u16)>, Ghost(acc): Ghost<Seq<Option<Art>>>) -> (r: Result<
    Option<(u16, Ghost<Art>)>,
>)
    requires
        old(dst).ok(),
        side_by_side(old(dst).cells@, acc),
        lists(list@, acc),
        list@.len() <= 256,
    ensures
        match r {
            Ok(None) => list@.len() == 0 && *final(dst) == *old(dst),
            Ok(Some((s, g))) => {
                let u = g@;
                &&& list@.len() > 0
                &&& took(*old(dst), 0, *final(dst), 0, one_node(packed_size(list@.len() as int)), false)
                &&& takes(*old(dst), 0, one_node(packed_size(list@.len() as int)), false)
                &&& below_end(*old(dst), *final(dst))
                &&& slot_of(u) == s
                &&& rep(final(dst).cells@, u)
                &&& at(final(dst).cells@, s as int) matches Some(n) && packs(n, list@)
                &&& u == (if list@.len() == 1 {
                    Art::Prefix { slot: s as int, bytes: seq![list@[0].0], child: Box::new(acc[list@[0].0 as int]->0) }
                } else {
                    Art::Inner { slot: s as int, kids: acc }
                })
                &&& sep(u)
                &&& budget(final(dst).cells@, u, false) == add_budgets(
                    budget_kids(old(dst).cells@, acc, 256, false),
                    one_node(packed_size(list@.len() as int)),
                )
                &&& forall|s2: int| #[trigger] owns(u, s2) ==> at(old(dst).cells@, s2) is None || owned_by(acc, s2)
                &&& dead(u) == dead_kids(acc, 256)
                &&& forall|key: Seq<u8>, d: int| #[trigger] step(u, key, d) == kid_step(acc, key, d)
                &&& forall|path: Seq<u8>| kids_keyed(acc, path) ==> #[trigger] keyed(u, path)
                &&& kids_laid_out(acc, old(dst).arena_end as int) ==> laid_out(u, old(dst).arena_end as int)
                &&& kids_no_empty(acc) ==> no_empty(u)
                &&& survivors(acc, 256, true) == list@.len() ==> {
                    &&& !gone(u)
                    &&& measure(u) == add_budgets(measure_kids(acc, 256), one_node(packed_size(list@.len() as int)))
                }
            },
            Err(e) => {
                &&& e is Alloc
                &&& list@.len() > 0
                &&& !takes(*old(dst), 0, one_node(packed_size(list@.len() as int)), false)
                &&& strained(*old(dst), *final(dst))
            },
        },
{
    let ghost f0 = *dst;
    let count: usize = list.len();
    if count == 0 {
        return Ok(None);
    }
    if count == 1 {
        let (byte, child) = list[0];
        let ghost lone = acc[byte as int]->0;
        proof {
            assert(list@[0].0 == byte);
        }
        let run: [u8; 1] = [byte];
        return match write_prefix_chain(dst, &run, child, Ghost(lone)) {
            Ok((s, g)) => {
                proof {
                    let u = g@;
                    assert forall|b: int| 0 <= b < 256 && b != byte implies (#[trigger] acc[b]) is None by {
                        if acc[b] is Some {
                            let i = choose|i: int| 0 <= i < list@.len() && (#[trigger] list@[i]).0 == b;
                            assert(i == 0);
                        }
                    }
                    assert(run@ =~= seq![byte]);
                    assert(owns(u, s as int));
                    assert(at(f0.cells@, s as int) is None);
                    crate::art::lemma_owns_present(dst.cells@, u, s as int);
                    if kids_laid_out(acc, f0.arena_end as int) {
                        assert(acc[byte as int] is Some);
                        assert(laid_out(lone, f0.arena_end as int));
                        assert(laid_out(u, f0.arena_end as int));
                    }
                    assert(acc[byte as int] is Some);
                    lemma_lone_budget(f0.cells@, acc, byte as int);
                    lemma_budget_kept(f0.cells@, dst.cells@, lone, false);
                    lemma_measure_skip(acc, 0, byte as int);
                    lemma_measure_skip(acc, byte + 1, 256);
                    lemma_survivors(acc, 256, true);
                    let none = acc.update(byte as int, None);
                    crate::art::lemma_dead_none(none, 256);
                    crate::art::lemma_dead_update(acc, byte as int, None, 256);
                    assert forall|key: Seq<u8>, d: int| #[trigger] step(u, key, d) == kid_step(acc, key, d) by {
                        assert(step(u, key, d) == behind(lone, run@, key, d));
                        lemma_matches_push(key, d, Seq::<u8>::empty(), byte);
                        assert(run@ =~= Seq::<u8>::empty().push(byte));
                        if 0 <= d < key.len() {
                            assert(key.subrange(d, d) =~= Seq::<u8>::empty());
                        }
                    }
                    assert forall|path: Seq<u8>| kids_keyed(acc, path) implies #[trigger] keyed(u, path) by {
                        assert(path + run@ =~= path.push(byte));
                        assert(keyed(u, path) == keyed(lone, path + run@));
                    }
                    assert forall|s2: int| #[trigger] owns(u, s2) implies at(f0.cells@, s2) is None || owned_by(acc, s2) by {
                        if owns(lone, s2) {
                            assert(acc[byte as int] is Some);
                        }
                    }
                }
                Ok(Some((s, g)))
            },
            Err(e) => Err(e),
        };
    }
    let mut n: Node = layout_for(count);
    proof {
        lemma_degree(n);
    }
    let mut i: usize = 0;
    while i < count
        invariant
            count == list@.len(),
            2 <= count <= 256,
            i <= count,
            inner_ok(n),
            node_size(n) == packed_size(count as int),
            crate::node::degree(n) == i,
            n is Node4 <==> count <= 4,
            n is Node16 <==> 4 < count <= 16,
            n is Node48 <==> 16 < count <= 48,
            n is Node256 <==> 48 < count,
            lists(list@, acc),
            side_by_side(f0.cells@, acc),
            forall|j: int| 0 <= j < i ==> kid(n, (#[trigger] list@[j]).0 as int) == list@[j].1,
            forall|x: int| 0 <= x < 256 && (forall|j: int| 0 <= j < i ==> (#[trigger] list@[j]).0 != x) ==> #[trigger] kid(n, x) == 0,
        decreases count - i,
    {
        let (byte, child) = list[i];
        proof {
            assert(list@[i as int].0 == byte);
            assert(rep(f0.cells@, acc[byte as int]->0));
            assert forall|j: int| 0 <= j < i implies (#[trigger] list@[j]).0 != byte by {
                assert(list@[j].0 < list@[i as int].0);
            }
        }
        let ghost n0 = n;
        inner_insert_child(&mut n, byte, child);
        proof {
            assert forall|j: int| 0 <= j < i + 1 implies kid(n, (#[trigger] list@[j]).0 as int) == list@[j].1 by {
                if j < i {
                    assert(kid(n0, list@[j].0 as int) == list@[j].1);
                    assert(list@[j].0 < list@[i as int].0);
                }
            }
            assert forall|x: int| 0 <= x < 256 && (forall|j: int| 0 <= j < i + 1 ==> (#[trigger] list@[j]).0 != x) implies #[trigger] kid(n, x) == 0 by {
                assert(list@[i as int].0 != x);
                assert(kid(n0, x) == 0);
            }
        }
        i = i + 1;
    }
    let ghost body = n;
    match dst.alloc_node(n) {
        Ok(s) => {
            let ghost u = Art::Inner { slot: s as int, kids: acc };
            proof {
                assert forall|b: int| 0 <= b < 256 implies #[trigger] kid(body, b) == (match acc[b] {
                    Some(k) => slot_of(k),
                    None => 0,
                }) by {
                    if acc[b] is Some {
                        let i = choose|i: int| 0 <= i < list@.len() && (#[trigger] list@[i]).0 == b;
                        assert(kid(body, list@[i].0 as int) == list@[i].1);
                    } else {
                        assert forall|j: int| 0 <= j < count implies (#[trigger] list@[j]).0 != b by {
                            assert(acc[list@[j].0 as int] is Some);
                        }
                    }
                }
                lemma_build_inner(f0.cells@, dst.cells@, s as int, body, acc);
                lemma_side_budget_kept(f0.cells@, dst.cells@, acc, 256, false);
                lemma_survivors(acc, 256, true);
            }
            Ok(Some((s, Ghost(u))))
        },
        Err(e) => Err(e),
    }
}

/// Where a key leads from a node over `kids`.
pub open spec fn kid_step(kids: Seq<Option<Art>>, key: Seq<u8>, d: int) -> Route {
    if 0 <= d < key.len() && key[d] < kids.len() && kids[key[d] as int] is Some {
        step(kids[key[d] as int]->0, key, d + 1)
    } else {
        Route::NotFound
    }
}

/// Whether every subtree's keys begin with the bytes on the way to it.
pub open spec fn kids_keyed(kids: Seq<Option<Art>>, path: Seq<u8>) -> bool {
    forall|b: int| 0 <= b < kids.len() && (#[trigger] kids[b]) is Some ==> keyed(kids[b]->0, path.push(b as u8))
}

/// Whether every subtree is laid out for leaves from `lrs` on.
pub open spec fn kids_laid_out(kids: Seq<Option<Art>>, lrs: int) -> bool {
    forall|b: int| 0 <= b < kids.len() && (#[trigger] kids[b]) is Some ==> laid_out(kids[b]->0, lrs)
}

/// Whether no subtree has an empty root in it.
pub open spec fn kids_no_empty(kids: Seq<Option<Art>>) -> bool {
    forall|b: int| 0 <= b < kids.len() && (#[trigger] kids[b]) is Some ==> no_empty(kids[b]->0)
}

/// Whether node `s` belongs to one of the subtrees.
pub open spec fn owned_by(kids: Seq<Option<Art>>, s: int) -> bool {
    exists|b: int| 0 <= b < kids.len() && (#[trigger] kids[b]) is Some && owns(kids[b]->0, s)
}

/// More subtrees take no less.
pub proof fn lemma_budget_kids_mono(c: Seq<Option<Node>>, t: Art, m: int, n: int, filter: bool)
    requires
        t is Inner,
        0 <= m <= n <= t->kids.len(),
    ensures
        budget_kids(c, t->kids, m, filter).routing <= budget_kids(c, t->kids, n, filter).routing,
        budget_kids(c, t->kids, m, filter).leaf <= budget_kids(c, t->kids, n, filter).leaf,
        budget_kids(c, t->kids, m, filter).nodes <= budget_kids(c, t->kids, n, filter).nodes,
    decreases n,
{
    if m < n {
        lemma_budget_kids_mono(c, t, m, n - 1, filter);
        if let Some(k) = t->kids[n - 1] {
            lemma_budget_sign(c, k, filter);
        }
    }
}

/// Trees that stand side by side still do where every node is kept.
pub proof fn lemma_side_keep(c: Seq<Option<Node>>, c2: Seq<Option<Node>>, acc: Seq<Option<Art>>)
    requires
        side_by_side(c, acc),
        keeps(c, c2),
    ensures
        side_by_side(c2, acc),
{
    assert forall|b: int| 0 <= b < 256 && (#[trigger] acc[b]) is Some implies rep(c2, acc[b]->0) && sep(acc[b]->0) by {
        assert forall|s: int| #[trigger] owns(acc[b]->0, s) implies at(c2, s) == at(c, s) by {
            crate::art::lemma_owns_present(c, acc[b]->0, s);
        }
        crate::art::lemma_rep_frame(c, c2, acc[b]->0);
    }
}

/// Two takings in a row are one of both together.
pub proof fn lemma_took_trans(
    f0: BlobFrame,
    cursor0: int,
    f1: BlobFrame,
    cursor1: int,
    f2: BlobFrame,
    cursor2: int,
    a: Budget,
    b: Budget,
    routed: bool,
)
    requires
        took(f0, cursor0, f1, cursor1, a, routed),
        took(f1, cursor1, f2, cursor2, b, routed),
    ensures
        took(f0, cursor0, f2, cursor2, add_budgets(a, b), routed),
{
    lemma_keeps_trans(f0.cells@, f1.cells@, f2.cells@);
}

/// Running out of room after a taking is running out of room.
pub proof fn lemma_strained_after(f0: BlobFrame, f1: BlobFrame, f2: BlobFrame)
    requires
        keeps(f0.cells@, f1.cells@),
        f1.arena_end == f0.arena_end,
        f1.header.num_ext_blobs >= f0.header.num_ext_blobs,
        f1.header == (BlobHeader {
            space_used: f1.header.space_used,
            num_slots: f1.header.num_slots,
            num_ext_blobs: f1.header.num_ext_blobs,
            ..f0.header
        }),
        strained(f1, f2),
        f1.header.space_used >= f0.header.space_used,
        f1.header.num_slots >= f0.header.num_slots,
    ensures
        strained(f0, f2),
{
    lemma_keeps_trans(f0.cells@, f1.cells@, f2.cells@);
}

/// Whether copying from `src` at `slot` may start.
pub open spec fn clone_ready(src: BlobFrame, dst: BlobFrame, cursor: int, slot: u16, t: Art, routed: bool) -> bool {
    &&& rep(src.cells@, t)
    &&& slot_of(t) == slot
    &&& dst.ok()
    &&& leaf_span_ok(dst, cursor, routed)
}

/// Copies the subtree at `slot` of `src` into `dst`. With `filter_tombstones`
/// deleted leaves are left out, and so is every node that then has nothing
/// below it.
#[verifier::rlimit(40)]
pub fn clone_subtree(
    src: &BlobFrame,
    dst: &mut BlobFrame,
    slot: u16,
    filter_tombstones: bool,
    routed: bool,
    leaf_cursor: &mut u32,
    Ghost(t): Ghost<Art>,
) -> (r: Result<Option<(u16, Ghost<Art>)>>)
    requires
        clone_ready(*src, *old(dst), *old(leaf_cursor) as int, slot, t, routed),
    ensures
        clone_result(
            *src,
            *old(dst),
            *old(leaf_cursor) as int,
            *final(dst),
            *final(leaf_cursor) as int,
            t,
            filter_tombstones,
            routed,
            r,
        ),
    decreases t, 2int,
{
    proof {
        lemma_rep_root(src.cells@, t);
    }
    match src.node_at(slot) {
        Some(Node::EmptyRoot) => {
            match dst.alloc_node(Node::EmptyRoot) {
                Ok(s) => {
                    let ghost u = Art::Empty { slot: s as int };
                    proof {
                        assert(rep(dst.cells@, u));
                    }
                    Ok(Some((s, Ghost(u))))
                },
                Err(e) => Err(e),
            }
        },
        Some(Node::Leaf(l)) => clone_leaf(src, l, dst, filter_tombstones, routed, leaf_cursor, Ghost(t)),
        Some(Node::Prefix(p)) => {
            let ghost f0 = *dst;
            let ghost cur0 = *leaf_cursor as int;
            let ghost k = *t->child;
            let out = clone_subtree(src, dst, p.child, filter_tombstones, routed, leaf_cursor, Ghost(k));
            match out {
                Ok(None) => Ok(None),
                Ok(Some((child, gk))) => {
                    let ghost k2 = gk@;
                    let ghost f1 = *dst;
                    let ghost cur1 = *leaf_cursor as int;
                    let bytes: Vec<u8> = copy_bytes(&p.bytes);
                    let ghost run = bytes@;
                    match dst.alloc_node(Node::Prefix(Prefix { bytes, child })) {
                        Ok(s) => {
                            let ghost u = Art::Prefix { slot: s as int, bytes: run, child: Box::new(k2) };
                            proof {
                                assert forall|s2: int| #[trigger] owns(k2, s2) implies at(dst.cells@, s2) == at(f1.cells@, s2) && s2 != s by {
                                    crate::art::lemma_owns_present(f1.cells@, k2, s2);
                                }
                                crate::art::lemma_rep_frame(f1.cells@, dst.cells@, k2);
                                assert(rep(dst.cells@, u));
                                assert(keeps(f1.cells@, dst.cells@));
                                lemma_budget_kept(f1.cells@, dst.cells@, k2, false);
                                lemma_span_kept(f1, *dst, cur1, routed);
                                lemma_took_trans(f0, cur0, f1, cur1, *dst, cur1, budget(src.cells@, k, filter_tombstones), one_node(PREFIX_SIZE as int), routed);
                                assert forall|key: Seq<u8>, d: int| #[trigger] step(u, key, d) == step(t, key, d) by {
                                    assert(step(k2, key, d + run.len()) == step(k, key, d + run.len()));
                                }
                                assert forall|path: Seq<u8>| keyed(t, path) implies #[trigger] keyed(u, path) by {
                                    assert(keyed(k2, path + run));
                                }
                                assert forall|s2: int| #[trigger] owns(u, s2) implies at(f0.cells@, s2) is None by {
                                    if s2 == s {
                                        if at(f0.cells@, s2) is Some {
                                            assert(at(f1.cells@, s2) == at(f0.cells@, s2));
                                        }
                                    } else {
                                        assert(owns(k2, s2));
                                    }
                                }
                            }
                            Ok(Some((s, Ghost(u))))
                        },
                        Err(e) => {
                            proof {
                                lemma_budget_sign(src.cells@, k, filter_tombstones);
                                lemma_strained_after(f0, f1, *dst);
                            }
                            Err(e)
                        },
                    }
                },
                Err(e) => {
                    proof {
                        lemma_budget_sign(src.cells@, k, filter_tombstones);
                    }
                    Err(e)
                },
            }
        },
        Some(Node::Blob(b)) => {
            let bytes: Vec<u8> = copy_bytes(&b.bytes);
            let ghost run = bytes@;
            let guid: BlobGuid = b.child_blob_guid;
            match dst.alloc_node(Node::Blob(BlobNode { bytes, child_blob_guid: guid })) {
                Ok(s) => {
                    let ghost u = Art::Blob { slot: s as int, bytes: run, guid };
                    proof {
                        assert(rep(dst.cells@, u));
                    }
                    Ok(Some((s, Ghost(u))))
                },
                Err(e) => Err(e),
            }
        },
        Some(_) => clone_inner(src, dst, slot, filter_tombstones, routed, leaf_cursor, Ghost(t)),
        None => Err(Error::NodeCorrupt { context: "clone_subtree: undecodable node" }),
    }
}

/// Copies a leaf, unless it is deleted and the copy filters.
fn clone_leaf(
    src: &BlobFrame,
    leaf: &Leaf,
    dst: &mut BlobFrame,
    filter_tombstones: bool,
    routed: bool,
    leaf_cursor: &mut u32,
    Ghost(t): Ghost<Art>,
) -> (r: Result<Option<(u16, Ghost<Art>)>>)
    requires
        t is Leaf,
        rep(src.cells@, t),
        at(src.cells@, slot_of(t)) == Some(Node::Leaf(*leaf)),
        old(dst).ok(),
        leaf_span_ok(*old(dst), *old(leaf_cursor) as int, routed),
    ensures
        clone_result(
            *src,
            *old(dst),
            *old(leaf_cursor) as int,
            *final(dst),
            *final(leaf_cursor) as int,
            t,
            filter_tombstones,
            routed,
            r,
        ),
{
    if filter_tombstones && leaf.tombstone {
        return Ok(None);
    }
    let total: u32 = leaf_body_size(leaf.key.len() as u32, leaf.value.len() as u32);
    let copy = Leaf {
        key: copy_bytes(&leaf.key),
        value: copy_bytes(&leaf.value),
        seq: leaf.seq,
        tombstone: leaf.tombstone,
        key_fp: leaf.key_fp,
    };
    let out = if routed {
        dst.alloc_leaf_at(*leaf_cursor, Node::Leaf(copy))
    } else {
        dst.alloc_node(Node::Leaf(copy))
    };
    match out {
        Ok(s) => {
            if routed {
                *leaf_cursor = *leaf_cursor + total;
            }
            let ghost u = Art::Leaf { slot: s as int, key: t->Leaf_key, value: t->Leaf_value, seq: t->Leaf_seq, dead: t->Leaf_dead };
            proof {
                assert(rep(dst.cells@, u));
                assert(measure(u) == measure(t));
                if routed {
                    assert(at(old(dst).cells@, s as int) is None);
                    assert forall|i: int| unit_of(*leaf_cursor as int) <= i implies (#[trigger] at(dst.cells@, i)) is None by {
                        assert(at(old(dst).cells@, i) is None);
                    }
                }
            }
            Ok(Some((s, Ghost(u))))
        },
        Err(e) => Err(e),
    }
}

/// Copies the subtrees of the inner node at `slot`, in byte order.
fn clone_kids(
    src: &BlobFrame,
    dst: &mut BlobFrame,
    slot: u16,
    filter_tombstones: bool,
    routed: bool,
    leaf_cursor: &mut u32,
    Ghost(t): Ghost<Art>,
) -> (r: Result<(Vec<(u8, u16)>, Ghost<Seq<Option<Art>>>)>)
    requires
        clone_ready(*src, *old(dst), *old(leaf_cursor) as int, slot, t, routed),
        t is Inner,
    ensures
        ({
            let b = budget_kids(src.cells@, t->kids, 256, filter_tombstones);
            match r {
                Ok((list, g)) => {
                    let acc = g@;
                    &&& leaf_span_ok(*final(dst), *final(leaf_cursor) as int, routed)
                    &&& took(*old(dst), *old(leaf_cursor) as int, *final(dst), *final(leaf_cursor) as int, b, routed)
                    &&& side_by_side(final(dst).cells@, acc)
                    &&& lists(list@, acc)
                    &&& list@.len() == survivors(t->kids, 256, filter_tombstones)
                    &&& kids_copied(t->kids, acc, 256, filter_tombstones)
                    &&& budget_kids(final(dst).cells@, acc, 256, false) == b
                    &&& routed ==> kids_laid_out(acc, old(dst).arena_end as int)
                    &&& forall|s: int| owned_by(acc, s) ==> (#[trigger] at(old(dst).cells@, s)) is None
                },
                Err(e) => {
                    &&& e is Alloc
                    &&& strained(*old(dst), *final(dst))
                    &&& !takes(*old(dst), *old(leaf_cursor) as int, b, routed)
                },
            }
        }),
    decreases t, 0int,
{
    let ghost f0 = *dst;
    let ghost cur0 = *leaf_cursor as int;
    let ghost kids = t->kids;
    let ghost n0 = at(src.cells@, slot as int)->0;
    let mut list: Vec<(u8, u16)> = Vec::new();
    let ghost mut acc: Seq<Option<Art>> = Seq::new(256, |b: int| None::<Art>);
    let n: &Node = match src.node_at(slot) {
        Some(n) => n,
        None => {
            proof {
                lemma_rep_root(src.cells@, t);
            }
            return Err(Error::NodeCorrupt { context: "clone_kids: undecodable node" });
        },
    };
    let mut from: u16 = 0;
    let mut more: bool = true;
    while more
        invariant
            rep(src.cells@, t),
            t is Inner,
            slot_of(t) == slot,
            kids == t->kids,
            kids.len() == 256,
            *n == n0,
            at(src.cells@, slot as int) == Some(n0),
            inner_ok(n0),
            0 <= cursor_byte(n0, from as int) <= 256,
            !more ==> cursor_byte(n0, from as int) == 256 || no_kid_from(n0, cursor_byte(n0, from as int)),
            dst.ok(),
            leaf_span_ok(*dst, *leaf_cursor as int, routed),
            took(f0, cur0, *dst, *leaf_cursor as int, budget_kids(src.cells@, kids, cursor_byte(n0, from as int), filter_tombstones), routed),
            side_by_side(dst.cells@, acc),
            lists(list@, acc),
            list@.len() == survivors(kids, cursor_byte(n0, from as int), filter_tombstones),
            kids_copied(kids, acc, cursor_byte(n0, from as int), filter_tombstones),
            budget_kids(dst.cells@, acc, cursor_byte(n0, from as int), false) == budget_kids(
                src.cells@,
                kids,
                cursor_byte(n0, from as int),
                filter_tombstones,
            ),
            forall|b: int| cursor_byte(n0, from as int) <= b < 256 ==> (#[trigger] acc[b]) is None,
            forall|s: int| owned_by(acc, s) ==> (#[trigger] at(f0.cells@, s)) is None,
            routed ==> kids_laid_out(acc, f0.arena_end as int),
            *old(dst) == f0,
            *old(leaf_cursor) == cur0,
        decreases more as int, 256 - cursor_byte(n0, from as int),
    {
        let ghost lo = cursor_byte(n0, from as int);
        match next_inner_child_from(n, from) {
            None => {
                more = false;
            },
            Some((byte, child, next)) => {
                let ghost b = byte as int;
                let ghost f1 = *dst;
                let ghost cur1 = *leaf_cursor as int;
                assert(kids[b] is Some);
                let ghost k = kids[b]->0;
                proof {
                    assert forall|x: int| lo <= x < b implies kids[x] is None by {
                        assert(kid(n0, x) == 0);
                    }
                    lemma_kids_skip(src.cells@, kids, lo, b, filter_tombstones);
                    lemma_budget_kids_mono(src.cells@, t, b + 1, 256, filter_tombstones);
                    lemma_budget_kids_sign(src.cells@, t, b, filter_tombstones);
                }
                match clone_subtree(src, dst, child, filter_tombstones, routed, leaf_cursor, Ghost(k)) {
                    Err(e) => {
                        proof {
                            lemma_strained_after(f0, f1, *dst);
                        }
                        return Err(e);
                    },
                    Ok(None) => {
                        proof {
                            lemma_side_keep(f1.cells@, dst.cells@, acc);
                            lemma_kids_budget_step(f1.cells@, dst.cells@, acc, acc, lo, b);
                            lemma_took_trans(
                                f0,
                                cur0,
                                f1,
                                cur1,
                                *dst,
                                *leaf_cursor as int,
                                budget_kids(src.cells@, kids, b, filter_tombstones),
                                budget(src.cells@, k, filter_tombstones),
                                routed,
                            );
                            assert(kids_copied(kids, acc, b + 1, filter_tombstones)) by {
                                assert forall|x: int| 0 <= x < b + 1 implies kid_copied(#[trigger] kids[x], acc[x], filter_tombstones) by {
                                    if x < lo {
                                        assert(kid_copied(kids[x], acc[x], filter_tombstones));
                                    } else if x < b {
                                        assert(acc[x] is None);
                                    }
                                }
                            }
                        }
                        from = next;
                    },
                    Ok(Some((s, gk))) => {
                        let ghost u = gk@;
                        let ghost acc2 = acc.update(b, Some(u));
                        let ghost list0 = list@;
                        list.push((byte, s));
                        proof {
                            assert(list@.drop_last() =~= list0);
                            lemma_side_keep(f1.cells@, dst.cells@, acc);
                            lemma_kids_budget_step(f1.cells@, dst.cells@, acc, acc2, lo, b);
                            assert forall|x: int, s2: int| 0 <= x < 256 && acc[x] is Some implies !(#[trigger] owns(acc[x]->0, s2) && #[trigger] owns(u, s2)) by {
                                if owns(acc[x]->0, s2) && owns(u, s2) {
                                    crate::art::lemma_owns_present(f1.cells@, acc[x]->0, s2);
                                }
                            }
                            assert(side_by_side(dst.cells@, acc2)) by {
                                assert forall|x: int, y: int, s2: int|
                                    0 <= x < 256 && 0 <= y < 256 && x != y && acc2[x] is Some && acc2[y] is Some
                                        implies !(#[trigger] owns(acc2[x]->0, s2) && #[trigger] owns(acc2[y]->0, s2)) by {
                                    if x != b && y != b {
                                        assert(!(owns(acc[x]->0, s2) && owns(acc[y]->0, s2)));
                                    }
                                }
                            }
                            lemma_took_trans(
                                f0,
                                cur0,
                                f1,
                                cur1,
                                *dst,
                                *leaf_cursor as int,
                                budget_kids(src.cells@, kids, b, filter_tombstones),
                                budget(src.cells@, k, filter_tombstones),
                                routed,
                            );
                            lemma_lists_push(list@, acc, byte, s, u, lo);
                            assert(kids_copied(kids, acc2, b + 1, filter_tombstones)) by {
                                assert forall|x: int| 0 <= x < b + 1 implies kid_copied(#[trigger] kids[x], acc2[x], filter_tombstones) by {
                                    if x < lo {
                                        assert(kid_copied(kids[x], acc[x], filter_tombstones));
                                    } else if x < b {
                                        assert(acc[x] is None);
                                    }
                                }
                            }
                            assert forall|s2: int| owned_by(acc2, s2) implies (#[trigger] at(f0.cells@, s2)) is None by {
                                let x = choose|x: int| 0 <= x < acc2.len() && (#[trigger] acc2[x]) is Some && owns(acc2[x]->0, s2);
                                if x == b {
                                    assert(at(f1.cells@, s2) is None);
                                    if at(f0.cells@, s2) is Some {
                                        assert(at(f1.cells@, s2) == at(f0.cells@, s2));
                                    }
                                } else {
                                    assert(acc[x] is Some);
                                    assert(owned_by(acc, s2));
                                }
                            }
                            acc = acc2;
                        }
                        from = next;
                    },
                }
            },
        }
    }
    proof {
        let lo = cursor_byte(n0, from as int);
        assert forall|x: int| lo <= x < 256 implies kids[x] is None by {
            assert(kid(n0, x) == 0);
        }
        lemma_kids_skip(src.cells@, kids, lo, 256, filter_tombstones);
        lemma_kids_skip(dst.cells@, acc, lo, 256, false);
        assert forall|x: int| 0 <= x < 256 implies kid_copied(#[trigger] kids[x], acc[x], filter_tombstones) by {
            if x >= lo {
                assert(acc[x] is None);
            }
        }
    }
    Ok((list, Ghost(acc)))
}

/// One more subtree at the end of the list.
proof fn lemma_lists_push(list: Seq<(u8, u16)>, acc: Seq<Option<Art>>, byte: u8, s: u16, u: Art, lo: int)
    requires
        list.len() > 0,
        list.last() == (byte, s),
        lists(list.drop_last(), acc),
        acc.len() == 256,
        lo <= byte,
        forall|b: int| lo <= b < 256 ==> (#[trigger] acc[b]) is None,
        slot_of(u) == s,
    ensures
        lists(list, acc.update(byte as int, Some(u))),
{
    let before = list.drop_last();
    let acc2 = acc.update(byte as int, Some(u));
    let m = before.len();
    assert forall|i: int| 0 <= i < m implies list[i] == before[i] && list[i].0 < lo by {
        assert(acc[before[i].0 as int] is Some);
    }
    assert forall|b: int| 0 <= b < 256 && (#[trigger] acc2[b]) is Some implies exists|i: int| 0 <= i < list.len() && (#[trigger] list[i]).0 == b by {
        if b == byte {
            assert(list[m as int].0 == b);
        } else {
            assert(acc[b] is Some);
            let i = choose|i: int| 0 <= i < before.len() && (#[trigger] before[i]).0 == b;
            assert(list[i].0 == b);
        }
    }
}

/// Whether `u` is what a copy keeps of subtree `k`.
pub open spec fn kid_copied(k: Option<Art>, u: Option<Art>, filter: bool) -> bool {
    match (k, u) {
        (None, None) => true,
        (Some(x), None) => dropped(x, filter),
        (Some(x), Some(y)) => !dropped(x, filter) && copied(x, y, filter),
        (None, Some(_)) => false,
    }
}

/// Whether the first `n` subtrees of `acc` are what a copy keeps of `kids`.
pub open spec fn kids_copied(kids: Seq<Option<Art>>, acc: Seq<Option<Art>>, n: int, filter: bool) -> bool {
    forall|b: int| 0 <= b < n ==> kid_copied(#[trigger] kids[b], acc[b], filter)
}

/// A node of which no subtree survives is dropped, and conversely.
proof fn lemma_survivors(kids: Seq<Option<Art>>, n: int, filter: bool)
    requires
        0 <= n <= kids.len(),
    ensures
        survivors(kids, n, filter) >= 0,
        survivors(kids, n, filter) <= n,
        survivors(kids, n, filter) == 0 <==> (forall|b: int| 0 <= b < n && (#[trigger] kids[b]) is Some ==> dropped(kids[b]->0, filter)),
    decreases n,
{
    if n > 0 {
        lemma_survivors(kids, n - 1, filter);
        if survivors(kids, n, filter) != 0 {
            if survivors(kids, n - 1, filter) != 0 {
                let b = choose|b: int| 0 <= b < n - 1 && (#[trigger] kids[b]) is Some && !dropped(kids[b]->0, filter);
                assert(kids[b] is Some && !dropped(kids[b]->0, filter));
            } else {
                assert(kids[n - 1] is Some && !dropped(kids[n - 1]->0, filter));
            }
        } else {
            assert forall|b: int| 0 <= b < n && (#[trigger] kids[b]) is Some implies dropped(kids[b]->0, filter) by {}
        }
    }
}

/// Copies have as many deleted leaves as they should.
proof fn lemma_dead_copied(kids: Seq<Option<Art>>, acc: Seq<Option<Art>>, n: int, filter: bool)
    requires
        kids_copied(kids, acc, n, filter),
        0 <= n <= kids.len(),
        n <= acc.len(),
    ensures
        dead_kids(acc, n) == (if filter { 0 } else { dead_kids(kids, n) }),
    decreases n,
{
    if n > 0 {
        lemma_dead_copied(kids, acc, n - 1, filter);
        assert(kid_copied(kids[n - 1], acc[n - 1], filter));
    }
}

/// Filtering copies measure what the subtrees measured, and all of them
/// survive.
proof fn lemma_measure_copied(kids: Seq<Option<Art>>, acc: Seq<Option<Art>>, n: int)
    requires
        kids_copied(kids, acc, n, true),
        0 <= n <= kids.len(),
        n <= acc.len(),
    ensures
        measure_kids(acc, n) == measure_kids(kids, n),
        survivors(acc, n, true) == survivors(kids, n, true),
    decreases n,
{
    if n > 0 {
        lemma_measure_copied(kids, acc, n - 1);
        assert(kid_copied(kids[n - 1], acc[n - 1], true));
        if kids[n - 1] is Some && acc[n - 1] is None {
            assert(measure(kids[n - 1]->0) == no_budget());
        }
    }
}

/// A tree over copies of the subtrees of `t` is a copy of `t`.
proof fn lemma_inner_copied(t: Art, acc: Seq<Option<Art>>, u: Art, filter: bool)
    requires
        t is Inner,
        t->kids.len() == 256,
        acc.len() == 256,
        kids_copied(t->kids, acc, 256, filter),
        sep(u),
        dead(u) == dead_kids(acc, 256),
        forall|key: Seq<u8>, d: int| #[trigger] step(u, key, d) == kid_step(acc, key, d),
        forall|path: Seq<u8>| kids_keyed(acc, path) ==> #[trigger] keyed(u, path),
        kids_no_empty(acc) ==> no_empty(u),
        filter ==> !gone(u) && measure(u) == measure(t),
        !filter ==> u is Inner && u->kids == acc,
    ensures
        copied(t, u, filter),
{
    let kids = t->kids;
    if !filter {
        assert forall|b: int| 0 <= b < kids.len() implies ((#[trigger] kids[b]) is Some <==> acc[b] is Some) by {
            assert(kid_copied(kids[b], acc[b], filter));
        }
        assert forall|b: int| 0 <= b < kids.len() && (#[trigger] kids[b]) is Some implies same_shape(kids[b]->0, acc[b]->0) by {
            assert(kid_copied(kids[b], acc[b], filter));
        }
    }
    assert forall|key: Seq<u8>, d: int| #[trigger] step(u, key, d) == step(t, key, d) by {
        if 0 <= d < key.len() {
            let b = key[d] as int;
            assert(kid_copied(kids[b], acc[b], filter));
            if kids[b] is Some && acc[b] is None {
                lemma_gone(kids[b]->0);
                assert(step(kids[b]->0, key, d + 1) is NotFound);
            } else if kids[b] is Some {
                assert(step(acc[b]->0, key, d + 1) == step(kids[b]->0, key, d + 1));
            }
        }
    }
    assert forall|path: Seq<u8>| keyed(t, path) implies #[trigger] keyed(u, path) by {
        assert forall|b: int| 0 <= b < acc.len() && (#[trigger] acc[b]) is Some implies keyed(acc[b]->0, path.push(b as u8)) by {
            assert(kid_copied(kids[b], acc[b], filter));
            assert(kids[b] is Some);
            assert(keyed(kids[b]->0, path.push(b as u8)));
        }
        assert(kids_keyed(acc, path));
    }
    if no_empty(t) {
        assert forall|b: int| 0 <= b < acc.len() && (#[trigger] acc[b]) is Some implies no_empty(acc[b]->0) by {
            assert(kid_copied(kids[b], acc[b], filter));
            assert(kids[b] is Some);
        }
        assert(kids_no_empty(acc));
    }
    lemma_dead_copied(kids, acc, 256, filter);
}

/// Copies an inner node and what is below it. A copy that keeps everything
/// keeps the layout; one that filters takes the smallest layout for what is
/// left.
fn clone_inner(
    src: &BlobFrame,
    dst: &mut BlobFrame,
    slot: u16,
    filter_tombstones: bool,
    routed: bool,
    leaf_cursor: &mut u32,
    Ghost(t): Ghost<Art>,
) -> (r: Result<Option<(u16, Ghost<Art>)>>)
    requires
        clone_ready(*src, *old(dst), *old(leaf_cursor) as int, slot, t, routed),
        t is Inner,
    ensures
        clone_result(
            *src,
            *old(dst),
            *old(leaf_cursor) as int,
            *final(dst),
            *final(leaf_cursor) as int,
            t,
            filter_tombstones,
            routed,
            r,
        ),
    decreases t, 1int,
{
    let ghost f0 = *dst;
    let ghost cur0 = *leaf_cursor as int;
    let ghost kids = t->kids;
    let ghost filter = filter_tombstones;
    let ghost kb = budget_kids(src.cells@, kids, 256, filter);
    proof {
        lemma_survivors(kids, 256, filter);
        lemma_budget_kids_sign(src.cells@, t, 256, filter);
    }
    let (list, gacc) = match clone_kids(src, dst, slot, filter_tombstones, routed, leaf_cursor, Ghost(t)) {
        Ok(x) => x,
        Err(e) => {
            proof {
                if dropped(t, filter) {
                    lemma_dropped_budget(src.cells@, t, 256, filter);
                }
            }
            return Err(e);
        },
    };
    let ghost acc = gacc@;
    let ghost f1 = *dst;
    let ghost cur1 = *leaf_cursor as int;
    proof {
        if dropped(t, filter) {
            lemma_dropped_budget(src.cells@, t, 256, filter);
        }
    }
    if filter_tombstones {
        let out = pack_inner_node(dst, &list, Ghost(acc));
        match out {
            Ok(None) => {
                return Ok(None);
            },
            Ok(Some((s, g))) => {
                proof {
                    let u = g@;
                    lemma_measure_copied(kids, acc, 256);
                    lemma_inner_copied(t, acc, u, filter);
                    lemma_took_trans(f0, cur0, f1, cur1, *dst, cur1, kb, one_node(packed_size(list@.len() as int)), routed);
                    assert forall|s2: int| #[trigger] owns(u, s2) implies at(f0.cells@, s2) is None by {
                        if owned_by(acc, s2) {
                            assert(at(f0.cells@, s2) is None);
                        } else if at(f0.cells@, s2) is Some {
                            assert(at(f1.cells@, s2) == at(f0.cells@, s2));
                        }
                    }
                    lemma_span_kept(f1, *dst, cur1, routed);
                }
                return Ok(Some((s, g)));
            },
            Err(e) => {
                proof {
                    lemma_strained_after(f0, f1, *dst);
                }
                return Err(e);
            },
        }
    }
    let mut n: Node = match src.node_at(slot) {
        Some(m) => copy_inner(m),
        None => Node::EmptyRoot,
    };
    let ghost n0 = n;
    let mut i: usize = 0;
    while i < list.len()
        invariant
            i <= list@.len(),
            inner_ok(n),
            crate::layout::node_type(n) == crate::layout::node_type(n0),
            rep(src.cells@, t),
            t is Inner,
            kids == t->kids,
            at(src.cells@, slot_of(t)) == Some(n0),
            lists(list@, acc),
            side_by_side(f1.cells@, acc),
            kids_copied(kids, acc, 256, false),
            forall|j: int| 0 <= j < i ==> kid(n, (#[trigger] list@[j]).0 as int) == list@[j].1,
            forall|x: int| 0 <= x < 256 && (forall|j: int| 0 <= j < i ==> (#[trigger] list@[j]).0 != x) ==> #[trigger] kid(n, x) == kid(n0, x),
        decreases list@.len() - i,
    {
        let (byte, child) = list[i];
        let ghost before = n;
        proof {
            assert(list@[i as int].0 == byte);
            assert(rep(f1.cells@, acc[byte as int]->0));
            assert(kid_copied(kids[byte as int], acc[byte as int], false));
            assert(kids[byte as int] is Some);
            assert forall|j: int| 0 <= j < i implies (#[trigger] list@[j]).0 != byte by {
                assert(list@[j].0 < list@[i as int].0);
            }
            assert(kid(n, byte as int) == kid(n0, byte as int));
        }
        inner_update_child(&mut n, byte, child);
        proof {
            assert forall|j: int| 0 <= j < i + 1 implies kid(n, (#[trigger] list@[j]).0 as int) == list@[j].1 by {
                if j < i {
                    assert(kid(before, list@[j].0 as int) == list@[j].1);
                    assert(list@[j].0 < list@[i as int].0);
                }
            }
            assert forall|x: int| 0 <= x < 256 && (forall|j: int| 0 <= j < i + 1 ==> (#[trigger] list@[j]).0 != x) implies #[trigger] kid(n, x) == kid(n0, x) by {
                assert(list@[i as int].0 != x);
                assert(kid(before, x) == kid(n0, x));
            }
        }
        i = i + 1;
    }
    let ghost body = n;
    match dst.alloc_node(n) {
        Ok(s) => {
            let ghost u = Art::Inner { slot: s as int, kids: acc };
            proof {
                assert forall|b: int| 0 <= b < 256 implies #[trigger] kid(body, b) == (match acc[b] {
                    Some(k) => slot_of(k),
                    None => 0,
                }) by {
                    assert(kid_copied(kids[b], acc[b], false));
                    if acc[b] is Some {
                        let i = choose|i: int| 0 <= i < list@.len() && (#[trigger] list@[i]).0 == b;
                        assert(kid(body, list@[i].0 as int) == list@[i].1);
                    } else {
                        assert forall|j: int| 0 <= j < list@.len() implies (#[trigger] list@[j]).0 != b by {
                            assert(acc[list@[j].0 as int] is Some);
                        }
                        assert(kids[b] is None);
                    }
                }
                lemma_build_inner(f1.cells@, dst.cells@, s as int, body, acc);
                lemma_inner_copied(t, acc, u, filter);
                assert(keeps(f1.cells@, dst.cells@));
                lemma_took_trans(f0, cur0, f1, cur1, *dst, cur1, kb, one_node(node_size(n0)), routed);
                lemma_side_budget_kept(f1.cells@, dst.cells@, acc, 256, false);
                lemma_span_kept(f1, *dst, cur1, routed);
                assert forall|s2: int| #[trigger] owns(u, s2) implies at(f0.cells@, s2) is None by {
                    if s2 == s {
                        if at(f0.cells@, s2) is Some {
                            assert(at(f1.cells@, s2) == at(f0.cells@, s2));
                        }
                    } else {
                        assert(owned_by(acc, s2));
                    }
                }
            }
            Ok(Some((s, Ghost(u))))
        },
        Err(e) => {
            proof {
                lemma_strained_after(f0, f1, *dst);
            }
            Err(e)
        },
    }
}

/// A dropped node takes nothing.
proof fn lemma_dropped_budget(c: Seq<Option<Node>>, t: Art, n: int, filter: bool)
    requires
        t is Inner,
        dropped(t, filter),
        0 <= n <= t->kids.len(),
    ensures
        budget_kids(c, t->kids, n, filter) == no_budget(),
    decreases n,
{
    if n > 0 {
        lemma_dropped_budget(c, t, n - 1, filter);
        if let Some(k) = t->kids[n - 1] {
            assert(t->kids[n - 1] is Some);
            assert(dropped(k, filter));
            assert(budget(c, k, filter) == no_budget());
        }
    }
}

/// Byte totals that a filtering copy of a subtree takes, leaves apart from
/// the rest. Totals stop at the largest value their type has.
#[derive(Debug, Clone, Copy)]
pub struct BudgetNode {
    pub routing_bytes: u32,
    pub leaf_bytes: u32,
    pub leaf_count: u32,
}

/// `x`, but no more than a `u32` holds.
pub open spec fn clamp(x: int) -> int {
    if x <= u32::MAX {
        x
    } else {
        u32::MAX as int
    }
}

/// What a filtering copy of `t` takes, an empty root counted as nothing.
pub open spec fn measure(t: Art) -> Budget
    decreases t, 0int,
{
    if gone(t) {
        no_budget()
    } else {
        match t {
            Art::Empty { .. } => no_budget(),
            Art::Leaf { key, value, .. } => Budget {
                routing: 0,
                leaf: leaf_size(key.len() as int, value.len() as int),
                leaves: 1,
                nodes: 1,
                blobs: 0,
            },
            Art::Prefix { child, .. } => add_budgets(measure(*child), one_node(PREFIX_SIZE as int)),
            Art::Inner { kids, .. } => add_budgets(
                measure_kids(kids, kids.len() as int),
                one_node(packed_size(survivors(kids, kids.len() as int, true))),
            ),
            Art::Blob { .. } => one_blob(),
        }
    }
}

/// What filtering copies of the first `n` subtrees take.
pub open spec fn measure_kids(kids: Seq<Option<Art>>, n: int) -> Budget
    decreases kids, n,
{
    if n <= 0 || n > kids.len() {
        no_budget()
    } else {
        add_budgets(
            measure_kids(kids, n - 1),
            match kids[n - 1] {
                Some(k) => measure(k),
                None => no_budget(),
            },
        )
    }
}

/// Whether `t` has no empty root in it.
pub open spec fn no_empty(t: Art) -> bool
    decreases t,
{
    match t {
        Art::Empty { .. } => false,
        Art::Prefix { child, .. } => no_empty(*child),
        Art::Inner { kids, .. } => forall|b: int| 0 <= b < kids.len() && (#[trigger] kids[b]) is Some ==> no_empty(kids[b]->0),
        _ => true,
    }
}

/// The measured totals are exactly what a filtering copy takes, in a tree
/// without empty roots.
pub proof fn measured_budget_is_exact(c: Seq<Option<Node>>, t: Art)
    requires
        no_empty(t),
    ensures
        measure(t) == budget(c, t, true),
    decreases t, (if t is Inner { t->kids.len() + 1 } else { 0 }),
{
    if !gone(t) {
        match t {
            Art::Prefix { child, .. } => measured_budget_is_exact(c, *child),
            Art::Inner { kids, .. } => lemma_measured_kids(c, t, kids.len() as int),
            _ => {},
        }
    }
}

proof fn lemma_measured_kids(c: Seq<Option<Node>>, t: Art, n: int)
    requires
        t is Inner,
        no_empty(t),
        0 <= n <= t->kids.len(),
    ensures
        measure_kids(t->kids, n) == budget_kids(c, t->kids, n, true),
    decreases t, n,
{
    if n > 0 {
        lemma_measured_kids(c, t, n - 1);
        if let Some(k) = t->kids[n - 1] {
            assert(t->kids[n - 1] is Some);
            measured_budget_is_exact(c, k);
        }
    }
}

proof fn lemma_measure_skip(kids: Seq<Option<Art>>, m: int, n: int)
    requires
        0 <= m <= n <= kids.len(),
        forall|b: int| m <= b < n ==> kids[b] is None,
    ensures
        measure_kids(kids, m) == measure_kids(kids, n),
    decreases n,
{
    if m < n {
        lemma_measure_skip(kids, m, n - 1);
    }
}

/// Measured totals are not negative.
proof fn lemma_measure_sign(t: Art)
    ensures
        measure(t).routing >= 0,
        measure(t).leaf >= 0,
        0 <= measure(t).leaves <= measure(t).leaf,
    decreases t, (if t is Inner { t->kids.len() + 1 } else { 0 }),
{
    if !gone(t) {
        match t {
            Art::Prefix { child, .. } => lemma_measure_sign(*child),
            Art::Inner { kids, .. } => lemma_measure_kids_sign(t, kids.len() as int),
            _ => {},
        }
    }
}

proof fn lemma_measure_kids_sign(t: Art, n: int)
    requires
        t is Inner,
        0 <= n <= t->kids.len(),
    ensures
        measure_kids(t->kids, n).routing >= 0,
        measure_kids(t->kids, n).leaf >= 0,
        0 <= measure_kids(t->kids, n).leaves <= measure_kids(t->kids, n).leaf,
    decreases t, n,
{
    if n > 0 {
        lemma_measure_kids_sign(t, n - 1);
        if let Some(k) = t->kids[n - 1] {
            lemma_measure_sign(k);
        }
    }
}

/// Whether `r` reports what a filtering copy of `t` takes.
pub open spec fn budget_result(t: Art, r: Result<Option<BudgetNode>>) -> bool {
    match r {
        Ok(None) => gone(t),
        Ok(Some(b)) => {
            &&& !gone(t)
            &&& b.routing_bytes == clamp(measure(t).routing)
            &&& b.leaf_bytes == clamp(measure(t).leaf)
            &&& b.leaf_count == clamp(measure(t).leaves)
        },
        Err(_) => false,
    }
}

/// Measures the subtree at `slot`, so that the leaves' place is known before
/// anything is copied.
pub fn routing_budget(src: &BlobFrame, slot: u16, Ghost(t): Ghost<Art>) -> (r: Result<Option<BudgetNode>>)
    requires
        rep(src.cells@, t),
        slot_of(t) == slot,
    ensures
        budget_result(t, r),
    decreases t, 1int,
{
    proof {
        lemma_rep_root(src.cells@, t);
    }
    match src.node_at(slot) {
        Some(Node::EmptyRoot) => Ok(Some(BudgetNode { routing_bytes: 0, leaf_bytes: 0, leaf_count: 0 })),
        Some(Node::Leaf(l)) => {
            if l.tombstone {
                return Ok(None);
            }
            let size: u32 = leaf_body_size(l.key.len() as u32, l.value.len() as u32);
            Ok(Some(BudgetNode { routing_bytes: 0, leaf_bytes: size, leaf_count: 1 }))
        },
        Some(Node::Prefix(p)) => {
            proof {
                lemma_measure_sign(*t->child);
            }
            match routing_budget(src, p.child, Ghost(*t->child)) {
                Ok(Some(b)) => Ok(
                    Some(
                        BudgetNode {
                            routing_bytes: b.routing_bytes.saturating_add(PREFIX_SIZE),
                            leaf_bytes: b.leaf_bytes,
                            leaf_count: b.leaf_count,
                        },
                    ),
                ),
                other => other,
            }
        },
        Some(Node::Blob(_)) => Ok(Some(BudgetNode { routing_bytes: BLOB_NODE_SIZE, leaf_bytes: 0, leaf_count: 0 })),
        Some(n) => budget_inner(src, slot, Ghost(t)),
        None => Err(Error::NodeCorrupt { context: "routing_budget: undecodable node" }),
    }
}

/// Sums what survives below an inner node and adds the node that will hold
/// it.
fn budget_inner(src: &BlobFrame, slot: u16, Ghost(t): Ghost<Art>) -> (r: Result<Option<BudgetNode>>)
    requires
        rep(src.cells@, t),
        slot_of(t) == slot,
        t is Inner,
    ensures
        budget_result(t, r),
    decreases t, 0int,
{
    let ghost kids = t->kids;
    let ghost n0 = at(src.cells@, slot as int)->0;
    let n: &Node = match src.node_at(slot) {
        Some(n) => n,
        None => {
            return Err(Error::NodeCorrupt { context: "budget_inner: undecodable node" });
        },
    };
    let mut kept: usize = 0;
    let mut routing_bytes: u32 = 0;
    let mut leaf_bytes: u32 = 0;
    let mut leaf_count: u32 = 0;
    let mut from: u16 = 0;
    let mut more: bool = true;
    while more
        invariant
            rep(src.cells@, t),
            t is Inner,
            slot_of(t) == slot,
            kids == t->kids,
            kids.len() == 256,
            *n == n0,
            at(src.cells@, slot as int) == Some(n0),
            inner_ok(n0),
            0 <= cursor_byte(n0, from as int) <= 256,
            !more ==> no_kid_from(n0, cursor_byte(n0, from as int)),
            kept == survivors(kids, cursor_byte(n0, from as int), true),
            kept <= 256,
            routing_bytes == clamp(measure_kids(kids, cursor_byte(n0, from as int)).routing),
            leaf_bytes == clamp(measure_kids(kids, cursor_byte(n0, from as int)).leaf),
            leaf_count == clamp(measure_kids(kids, cursor_byte(n0, from as int)).leaves),
        decreases more as int, 256 - cursor_byte(n0, from as int),
    {
        let ghost lo = cursor_byte(n0, from as int);
        match next_inner_child_from(n, from) {
            None => {
                more = false;
            },
            Some((byte, child, next)) => {
                let ghost b = byte as int;
                assert(kids[b] is Some);
                let ghost k = kids[b]->0;
                proof {
                    assert forall|x: int| lo <= x < b implies kids[x] is None by {
                        assert(kid(n0, x) == 0);
                    }
                    lemma_kids_skip(src.cells@, kids, lo, b, true);
                    lemma_measure_skip(kids, lo, b);
                    lemma_measure_sign(k);
                    lemma_measure_kids_sign(t, b);
                    lemma_survivors(kids, b + 1, true);
                }
                match routing_budget(src, child, Ghost(k)) {
                    Ok(Some(c)) => {
                        kept = kept + 1;
                        routing_bytes = routing_bytes.saturating_add(c.routing_bytes);
                        leaf_bytes = leaf_bytes.saturating_add(c.leaf_bytes);
                        leaf_count = leaf_count.saturating_add(c.leaf_count);
                    },
                    Ok(None) => {
                        assert(measure(k) == no_budget());
                    },
                    Err(e) => {
                        return Err(e);
                    },
                }
                from = next;
            },
        }
    }
    proof {
        let lo = cursor_byte(n0, from as int);
        assert forall|x: int| lo <= x < 256 implies kids[x] is None by {
            assert(kid(n0, x) == 0);
        }
        lemma_kids_skip(src.cells@, kids, lo, 256, true);
        lemma_measure_skip(kids, lo, 256);
        lemma_survivors(kids, 256, true);
        lemma_measure_kids_sign(t, 256);
    }
    match packed_inner_size(kept) {
        None => Ok(None),
        Some(size) => Ok(
            Some(BudgetNode { routing_bytes: routing_bytes.saturating_add(size), leaf_bytes, leaf_count }),
        ),
    }
}

/// Fewest leaf bytes for which the routed layout pays.
pub const ROUTE_MIN_LEAF_BYTES: u32 = 8192;

/// Filter bits reserved for each leaf of a blob in the routed layout.
pub const BLOOM_BITS_PER_KEY: u32 = 10;

/// Bytes reserved for a filter over `leaves` leaves: whole bytes, and none
/// without a leaf.
pub open spec fn bloom_len(leaves: int) -> int {
    (leaves * BLOOM_BITS_PER_KEY + 7) / 8
}

/// Bytes to reserve for a filter over `leaf_count` leaves.
pub fn bloom_reserve_bytes(leaf_count: u32) -> (r: u32)
    requires
        leaf_count <= PAGE_SIZE,
    ensures
        r == bloom_len(leaf_count as int),
{
    (leaf_count * BLOOM_BITS_PER_KEY + 7) / 8
}

/// Whether a blob has no filter.
pub open spec fn no_filter(h: BlobHeader) -> bool {
    h.bloom_off == 0 && h.bloom_len == 0 && h.bloom_bits_per_key == 0
}

/// Whether the filter over `leaves` leaves stands between the other nodes,
/// which end at `internal_end`, and the leaves, which begin at `lrs`, if there
/// is a leaf and room for it.
pub open spec fn filter_placed(h: BlobHeader, internal_end: int, lrs: int, leaves: int) -> bool {
    if bloom_len(leaves) > 0 && internal_end + bloom_len(leaves) <= lrs {
        h.bloom_off == internal_end && h.bloom_len == bloom_len(leaves) && h.bloom_bits_per_key == BLOOM_BITS_PER_KEY
    } else {
        no_filter(h)
    }
}

/// Where the filter over `leaf_count` leaves goes, and how long it is, if there
/// is a leaf and room between the other nodes and the leaves.
///
/// A blob holds nodes here, not bytes: the place of the filter is kept, and
/// `routing_bloom_keys` gives what goes into it. No read consults its bits.
pub fn routing_bloom_extent(internal_end: u32, leaf_region_start: u32, leaf_count: u32) -> (r: Option<(u32, u32)>)
    requires
        leaf_count <= PAGE_SIZE,
    ensures
        r == (if bloom_len(leaf_count as int) > 0 && internal_end + bloom_len(leaf_count as int) <= leaf_region_start {
            Some((internal_end, bloom_len(leaf_count as int) as u32))
        } else {
            None
        }),
{
    let bloom_len: u32 = bloom_reserve_bytes(leaf_count);
    if bloom_len == 0 {
        return None;
    }
    match internal_end.checked_add(bloom_len) {
        Some(end) => if end <= leaf_region_start {
            Some((internal_end, bloom_len))
        } else {
            None
        },
        None => None,
    }
}

/// The keys of the leaves with numbers from `from` up to `to`, as they lie.
pub open spec fn leaf_keys(c: Seq<Option<Node>>, from: int, to: int) -> Seq<Seq<u8>>
    decreases to - from,
{
    if to <= from {
        Seq::empty()
    } else {
        match at(c, to - 1) {
            Some(Node::Leaf(l)) => leaf_keys(c, from, to - 1).push(l.key@),
            _ => leaf_keys(c, from, to - 1),
        }
    }
}

/// The keys that go into the filter of a blob: those of the packed leaves in
/// the routed layout, none otherwise.
pub open spec fn filter_keys(f: BlobFrame) -> Seq<Seq<u8>> {
    if f.header.routing_len == 0 {
        Seq::empty()
    } else {
        leaf_keys(f.cells@, unit_of(f.header.leaf_region_start as int), unit_of(f.header.space_used as int))
    }
}

/// The keys that go into the filter of a blob, as its leaves lie: the stored
/// bytes of each.
pub fn routing_bloom_keys(frame: &BlobFrame) -> (r: Vec<Vec<u8>>)
    requires
        frame.ok(),
        frame.header.routing_len != 0 ==> DATA_AREA_START <= frame.header.leaf_region_start,
    ensures
        r@.map_values(|k: Vec<u8>| k@) == filter_keys(*frame),
{
    let mut keys: Vec<Vec<u8>> = Vec::new();
    if frame.header.routing_len == 0 {
        assert(keys@.map_values(|k: Vec<u8>| k@) =~= Seq::<Seq<u8>>::empty());
        return keys;
    }
    let from: u32 = (frame.header.leaf_region_start - DATA_AREA_START) / 8 + 1;
    let to: u32 = (frame.header.space_used - DATA_AREA_START) / 8 + 1;
    let mut slot: u32 = from;
    assert(keys@.map_values(|k: Vec<u8>| k@) =~= leaf_keys(frame.cells@, from as int, from as int));
    while slot < to
        invariant
            from <= slot,
            slot <= to || slot == from,
            to <= 56833,
            keys@.map_values(|k: Vec<u8>| k@) == leaf_keys(frame.cells@, from as int, slot as int),
        decreases to - slot,
    {
        let ghost before = keys@;
        match frame.node_at(slot as u16) {
            Some(Node::Leaf(l)) => {
                keys.push(copy_bytes(&l.key));
                assert(keys@.map_values(|k: Vec<u8>| k@) =~= before.map_values(|k: Vec<u8>| k@).push(l.key@));
            },
            _ => {},
        }
        slot = slot + 1;
    }
    keys
}

/// A key of a leaf in a span is among its keys.
proof fn lemma_leaf_key(c: Seq<Option<Node>>, from: int, to: int, s: int)
    requires
        from <= s < to,
        at(c, s) matches Some(Node::Leaf(_)),
    ensures
        leaf_keys(c, from, to).contains(at(c, s)->0->Leaf_0.key@),
    decreases to - from,
{
    let all = leaf_keys(c, from, to);
    let key = at(c, s)->0->Leaf_0.key@;
    if s == to - 1 {
        assert(all[all.len() - 1] == key);
    } else {
        lemma_leaf_key(c, from, to - 1, s);
        let rest = leaf_keys(c, from, to - 1);
        let i = choose|i: int| 0 <= i < rest.len() && rest[i] == key;
        assert(all[i] == key);
    }
}

/// A key that is found stands in a leaf, where leaves are laid out.
proof fn lemma_found_laid_out(c: Seq<Option<Node>>, t: Art, key: Seq<u8>, d: int, lrs: int) -> (s: int)
    requires
        rep(c, t),
        laid_out(t, lrs),
        step(t, key, d) is Found,
    ensures
        s >= unit_of(lrs),
        at(c, s) matches Some(Node::Leaf(l)) && l.key@ == key,
    decreases t,
{
    match t {
        Art::Prefix { bytes, child, .. } => lemma_found_laid_out(c, *child, key, d + bytes.len(), lrs),
        Art::Inner { kids, .. } => lemma_found_laid_out(c, kids[key[d] as int]->0, key, d + 1, lrs),
        _ => slot_of(t),
    }
}

/// After a rebuild into the routed layout every key that is found goes into
/// the filter: the filter turns away no key that is there.
pub proof fn found_keys_pass_the_filter(f0: BlobFrame, f: BlobFrame, key: Seq<u8>, d: int)
    requires
        rebuilt(f0, f),
        f.header.routing_len != 0,
        f.route(key, d) is Found,
    ensures
        filter_keys(f).contains(key),
{
    let s = lemma_found_laid_out(f.cells@, f.tree(), key, d, f.header.leaf_region_start as int);
    assert(s < unit_of(PAGE_SIZE as int));
    lemma_leaf_key(f.cells@, unit_of(f.header.leaf_region_start as int), unit_of(f.header.space_used as int), s);
}

/// Where the leaves go in the routed layout: on the first page boundary
/// after the empty root that it starts with, the other nodes and the room for
/// a filter.
pub open spec fn leaf_start(routing: int, leaves: int) -> int {
    page_ceil(DATA_AREA_START + EMPTY_ROOT_SIZE + routing + bloom_len(leaves))
}

/// Whether a blob that takes `routing` and `leaf` bytes gets the routed
/// layout: it has something to route to enough leaves, and they fit.
pub open spec fn routes(routing: int, leaf: int, leaves: int) -> bool {
    &&& routing > 0
    &&& leaf >= ROUTE_MIN_LEAF_BYTES
    &&& leaf_start(routing, leaves) + leaf + SPILLOVER_RESERVATION <= PAGE_SIZE
}

/// The offset of the leaves, or nothing when the blob keeps the plain
/// layout.
pub fn routing_geometry(budget: Option<BudgetNode>) -> (r: Option<u32>)
    ensures
        match budget {
            None => r is None,
            Some(b) => {
                &&& r is Some <==> routes(b.routing_bytes as int, b.leaf_bytes as int, b.leaf_count as int)
                &&& r is Some ==> b.leaf_count <= PAGE_SIZE
                &&& r matches Some(lrs) ==> lrs == leaf_start(b.routing_bytes as int, b.leaf_count as int) && lrs % PAGE_4K == 0
                    && DATA_AREA_START + EMPTY_ROOT_SIZE + b.routing_bytes + bloom_len(b.leaf_count as int) <= lrs < PAGE_SIZE
            },
        },
{
    let b = match budget {
        Some(b) => b,
        None => {
            return None;
        },
    };
    if b.routing_bytes == 0 {
        return None;
    }
    if b.leaf_bytes < ROUTE_MIN_LEAF_BYTES {
        return None;
    }
    if b.routing_bytes > PAGE_SIZE || b.leaf_bytes > PAGE_SIZE || b.leaf_count > PAGE_SIZE {
        return None;
    }
    let lrs: u32 = page_align_up(DATA_AREA_START + EMPTY_ROOT_SIZE + b.routing_bytes + bloom_reserve_bytes(b.leaf_count));
    if lrs + b.leaf_bytes + SPILLOVER_RESERVATION <= PAGE_SIZE {
        Some(lrs)
    } else {
        None
    }
}

/// Abandoned bytes from which on a rebuild pays by itself.
pub const DEAD_BYTES_COMPACT_THRESHOLD: u32 = 28416;

/// Whether a rebuild would reclaim anything worthwhile.
pub open spec fn needs_compaction(h: BlobHeader) -> bool {
    h.tombstone_leaf_cnt != 0 || h.dead_bytes >= (PAGE_SIZE - DATA_AREA_START) / 16
}

/// Whether a rebuild would reclaim anything worthwhile: deleted leaves, or
/// enough abandoned bytes.
pub fn blob_needs_compaction(frame: &BlobFrame) -> (r: bool)
    ensures
        r == needs_compaction(frame.header),
{
    frame.header.tombstone_leaf_cnt != 0 || frame.header.dead_bytes >= DEAD_BYTES_COMPACT_THRESHOLD
}

/// Whether a blob without the routed layout qualifies for it and has not
/// been found unfit.
pub open spec fn would_route(f: BlobFrame) -> bool {
    let m = measure(f.tree());
    &&& f.header.routing_len == 0
    &&& !f.header.routing_unfit
    &&& !gone(f.tree())
    &&& routes(clamp(m.routing), clamp(m.leaf), clamp(m.leaves))
}

/// Whether a rebuild now would give the blob the routed layout, and it does
/// not have it yet.
pub fn blob_would_route(frame: &BlobFrame) -> (r: bool)
    requires
        rooted(frame.cells@, frame.header.root_slot),
    ensures
        r == would_route(*frame),
{
    if frame.header.routing_len != 0 {
        return false;
    }
    if frame.header.routing_unfit {
        return false;
    }
    match routing_budget(frame, frame.header.root_slot, Ghost(frame.tree())) {
        Ok(budget) => routing_geometry(budget).is_some(),
        Err(_) => false,
    }
}

/// More subtrees have no fewer deleted leaves.
proof fn lemma_dead_mono(kids: Seq<Option<Art>>, m: int, n: int)
    requires
        0 <= m <= n <= kids.len(),
    ensures
        dead_kids(kids, m) <= dead_kids(kids, n),
    decreases n,
{
    if m < n {
        lemma_dead_mono(kids, m, n - 1);
    }
}

/// Number of deleted leaves below the node at `slot`.
pub fn count_tombstones(frame: &BlobFrame, slot: u16, Ghost(t): Ghost<Art>) -> (r: u32)
    requires
        rep(frame.cells@, t),
        sep(t),
        slot_of(t) == slot,
    ensures
        r == dead(t),
    decreases t,
{
    proof {
        lemma_rep_root(frame.cells@, t);
        crate::art::lemma_dead_bound(frame.cells@, t);
    }
    match frame.node_at(slot) {
        Some(Node::Leaf(l)) => if l.tombstone {
            1
        } else {
            0
        },
        Some(Node::Prefix(p)) => count_tombstones(frame, p.child, Ghost(*t->child)),
        Some(Node::EmptyRoot) => 0,
        Some(Node::Blob(_)) => 0,
        Some(n) => {
            let ghost kids = t->kids;
            let ghost n0 = *n;
            let mut total: u32 = 0;
            let mut from: u16 = 0;
            let mut more: bool = true;
            while more
                invariant
                    rep(frame.cells@, t),
                    sep(t),
                    t is Inner,
                    kids == t->kids,
                    kids.len() == 256,
                    *n == n0,
                    at(frame.cells@, slot_of(t)) == Some(n0),
                    inner_ok(n0),
                    dead(t) < 65536,
                    0 <= cursor_byte(n0, from as int) <= 256,
                    !more ==> no_kid_from(n0, cursor_byte(n0, from as int)),
                    total == dead_kids(kids, cursor_byte(n0, from as int)),
                decreases more as int, 256 - cursor_byte(n0, from as int),
            {
                let ghost lo = cursor_byte(n0, from as int);
                match next_inner_child_from(n, from) {
                    None => {
                        more = false;
                    },
                    Some((byte, child, next)) => {
                        let ghost b = byte as int;
                        assert(kids[b] is Some);
                        proof {
                            assert forall|x: int| lo <= x < b implies kids[x] is None by {
                                assert(kid(n0, x) == 0);
                            }
                            lemma_kids_skip(frame.cells@, kids, lo, b, true);
                            lemma_dead_mono(kids, b + 1, 256);
                        }
                        let below: u32 = count_tombstones(frame, child, Ghost(kids[b]->0));
                        total = total + below;
                        from = next;
                    },
                }
            }
            proof {
                let lo = cursor_byte(n0, from as int);
                assert forall|x: int| lo <= x < 256 implies kids[x] is None by {
                    assert(kid(n0, x) == 0);
                }
                lemma_kids_skip(frame.cells@, kids, lo, 256, true);
            }
            total
        },
        None => 0,
    }
}

/// Child reference that names byte offset `off`.
pub open spec fn slot_at(off: u32) -> u16 {
    ((off - DATA_AREA_START) / 8 + 1) as u16
}

/// Whether a new blob has room for a copy that takes `b`.
pub open spec fn blob_takes(b: Budget) -> bool {
    &&& 1 + b.nodes <= MAX_SLOTS
    &&& DATA_AREA_START + EMPTY_ROOT_SIZE + b.routing + b.leaf <= PAGE_SIZE - SPILLOVER_RESERVATION
}

/// Whether `h` is the header of a new blob that holds a copy that takes `b`,
/// with `tombstones` deleted leaves.
pub open spec fn new_blob_header(h: BlobHeader, tombstones: nat, b: Budget) -> bool {
    &&& h.num_slots == 1 + b.nodes
    &&& h.space_used == DATA_AREA_START + EMPTY_ROOT_SIZE + b.routing + b.leaf
    &&& h.dead_bytes == 0
    &&& h.tombstone_leaf_cnt == tombstones
    &&& h.num_ext_blobs == clamp(b.blobs as int)
    &&& h.compact_times == 0
    &&& h.created_epoch == 0
    &&& h.routing_len == 0
    &&& no_filter(h)
}

/// Copies the subtree at byte offset `src_off` into a new blob, deleted
/// leaves and all.
pub fn make_blob_from_node(src_frame: &BlobFrame, src_off: u32, new_guid: BlobGuid) -> (r: Result<crate::types::MakeBlobOutcome>)
    requires
        DATA_AREA_START <= src_off < PAGE_SIZE,
        rooted(src_frame.cells@, slot_at(src_off)),
        sep(tree_at(src_frame.cells@, slot_at(src_off))),
    ensures
        ({
            let t = tree_at(src_frame.cells@, slot_at(src_off));
            match r {
                Ok(out) => {
                    &&& out.buf.sound()
                    &&& same_shape(t, out.buf.tree())
                    &&& out.buf.header.blob_guid == new_guid
                    &&& new_blob_header(out.buf.header, dead(t), budget(src_frame.cells@, t, false))
                    &&& forall|key: Seq<u8>, d: int| #[trigger] out.buf.route(key, d) == step(t, key, d)
                    &&& forall|path: Seq<u8>| keyed(t, path) ==> #[trigger] out.buf.wf(path)
                },
                Err(e) => e is Alloc && !blob_takes(budget(src_frame.cells@, t, false)),
            }
        }),
{
    let slot: u16 = crate::layout::encode_child_off(src_off);
    let ghost t = tree_at(src_frame.cells@, slot);
    let mut new_frame = BlobFrame::init(new_guid);
    let ghost f0 = new_frame;
    let mut leaf_cursor: u32 = 0;
    match clone_subtree(src_frame, &mut new_frame, slot, false, false, &mut leaf_cursor, Ghost(t)) {
        Ok(Some((s, g))) => {
            new_frame.header.root_slot = s;
            new_frame.header.tombstone_leaf_cnt = count_tombstones(src_frame, slot, Ghost(t));
            proof {
                new_frame.lemma_tree(g@);
                lemma_shape_blob_nodes(t, g@);
                lemma_budget_blobs(src_frame.cells@, t, false);
                crate::art::lemma_dead_bound(new_frame.cells@, g@);
            }
            Ok(crate::types::MakeBlobOutcome { buf: new_frame })
        },
        Ok(None) => Err(Error::NodeCorrupt { context: "make_blob_from_node: nothing copied" }),
        Err(e) => Err(e),
    }
}

/// The header of a rebuilt blob: everything is counted anew, the name stays,
/// and the number of rebuilds is one more. In the plain layout every byte up
/// to `space_used` is live; in the routed one the nodes stand behind an empty
/// root, and the leaves on pages of their own.
pub open spec fn rebuilt_header(f0: BlobFrame, h: BlobHeader) -> bool {
    let b = budget(f0.cells@, f0.tree(), true);
    let routed = h.routing_len != 0;
    &&& h.blob_guid == f0.header.blob_guid
    &&& h.num_slots == (if routed {
        1 + b.nodes
    } else if gone(f0.tree()) {
        1
    } else {
        b.nodes
    })
    &&& h.space_used == (if routed {
        h.leaf_region_start + b.leaf
    } else if gone(f0.tree()) {
        DATA_AREA_START + EMPTY_ROOT_SIZE
    } else {
        DATA_AREA_START + b.routing + b.leaf
    })
    &&& h.dead_bytes == 0
    &&& h.tombstone_leaf_cnt == 0
    &&& h.num_ext_blobs == clamp(b.blobs as int)
    &&& h.compact_times == clamp(f0.header.compact_times + 1)
    &&& h.created_epoch == 0
    &&& h.routing_off == (if routed { DATA_AREA_START } else { 0 })
    &&& routed ==> h.routing_len == EMPTY_ROOT_SIZE + b.routing
    &&& !routed ==> h.leaf_region_start == 0
}

/// Whether `f` is a rebuilt image of `f0`.
pub open spec fn rebuilt(f0: BlobFrame, f: BlobFrame) -> bool {
    let t = f0.tree();
    &&& f.sound()
    &&& rebuilt_header(f0, f.header)
    &&& forall|key: Seq<u8>, d: int| #[trigger] f.route(key, d) == step(t, key, d)
    &&& forall|path: Seq<u8>| keyed(t, path) ==> #[trigger] f.wf(path)
    &&& f.header.routing_len == 0 ==> weight_of(f.cells@, numbers_of(f.tree()), true) == f.header.space_used - DATA_AREA_START
    &&& f.header.routing_len != 0 ==> {
        &&& laid_out(f.tree(), f.header.leaf_region_start as int)
        &&& f.header.routing_off + f.header.routing_len <= f.header.leaf_region_start
        &&& f.header.leaf_region_start % PAGE_4K == 0
        &&& f.header.routing_len % 8 == 0
        // An empty root, which the tree does not use, the other nodes, and
        // nothing between them and the leaves.
        &&& at(f.cells@, 1) == Some(Node::EmptyRoot) && !owns(f.tree(), 1)
        &&& stops_at(f.cells@, f.header.routing_off + f.header.routing_len)
        &&& forall|i: int|
            unit_of(f.header.routing_off + f.header.routing_len) <= i < unit_of(f.header.leaf_region_start as int) ==> (#[trigger] at(
                f.cells@,
                i,
            )) is None
    }
    &&& if gone(t) {
        f.tree() == (Art::Empty { slot: 1 }) && f.header.routing_len == 0
    } else {
        &&& !gone(f.tree())
        &&& budget(f.cells@, f.tree(), false) == budget(f0.cells@, t, true)
        &&& measure(f.tree()) == measure(t)
        &&& no_empty(t) ==> no_empty(f.tree())
    }
}

/// Whether a rebuilt blob in the plain layout has room for a copy that takes
/// `b`.
pub open spec fn plain_takes(b: Budget) -> bool {
    &&& b.nodes <= MAX_SLOTS
    &&& DATA_AREA_START + b.routing + b.leaf <= PAGE_SIZE - SPILLOVER_RESERVATION
}

/// Whether a new blob in the routed layout, with its leaves from byte offset
/// `lrs` on, has room for a copy that takes `b`.
pub open spec fn routed_takes(b: Budget, lrs: int) -> bool {
    &&& 1 + b.nodes <= MAX_SLOTS
    &&& DATA_AREA_START + EMPTY_ROOT_SIZE + b.routing <= lrs
    &&& lrs + b.leaf <= PAGE_SIZE - SPILLOVER_RESERVATION
}

/// Builds a fresh image of a blob without its deleted leaves, with the
/// leaves from byte offset `lrs` on if it is given.
fn rebuild(frame: &BlobFrame, lrs: Option<u32>) -> (r: Result<BlobFrame>)
    requires
        frame.sound(),
        lrs matches Some(l) ==> l % 4096 == 0 && DATA_AREA_START + EMPTY_ROOT_SIZE < l < PAGE_SIZE && !gone(frame.tree()),
    ensures
        match r {
            Ok(f) => {
                &&& rebuilt(*frame, f)
                &&& !f.header.routing_unfit
                &&& no_filter(f.header)
                &&& lrs is None ==> f.header.routing_len == 0
                &&& lrs matches Some(l) ==> f.header.routing_len != 0 && f.header.leaf_region_start == l
            },
            Err(e) => {
                &&& e is Alloc
                &&& lrs is None ==> !plain_takes(budget(frame.cells@, frame.tree(), true))
                &&& lrs matches Some(l) ==> !routed_takes(budget(frame.cells@, frame.tree(), true), l as int)
            },
        },
{
    let ghost t = frame.tree();
    let mut fresh = if lrs.is_some() {
        BlobFrame::init(frame.header.blob_guid)
    } else {
        BlobFrame::blank(frame.header.blob_guid)
    };
    let routed: bool = lrs.is_some();
    let mut leaf_cursor: u32 = 0;
    if let Some(l) = lrs {
        leaf_cursor = l;
        fresh.arena_end = l;
    }
    let ghost f0 = fresh;
    let ghost cur0 = leaf_cursor as int;
    assert(leaf_span_ok(f0, cur0, routed));
    let out = clone_subtree(frame, &mut fresh, frame.header.root_slot, true, routed, &mut leaf_cursor, Ghost(t));
    let internal_end: u32 = fresh.header.space_used;
    let times: u32 = frame.header.compact_times.saturating_add(1);
    match out {
        Ok(Some((s, g))) => {
            fresh.header.root_slot = s;
            fresh.header.compact_times = times;
            if let Some(l) = lrs {
                proof {
                    assert(at(f0.cells@, 1) == Some(Node::EmptyRoot));
                    assert(stops_at(fresh.cells@, internal_end as int)) by {
                        reveal(crate::extent::extents_ok);
                    }
                    crate::extent::lemma_extents_reach(
                        fresh.cells@,
                        fresh.header.space_used as int,
                        leaf_cursor as int,
                        fresh.header.num_slots as int,
                    );
                }
                fresh.header.routing_off = DATA_AREA_START;
                fresh.header.routing_len = internal_end - DATA_AREA_START;
                fresh.header.leaf_region_start = l;
                fresh.header.space_used = leaf_cursor;
                fresh.arena_end = PAGE_SIZE;
            }
            proof {
                lemma_budget_sign(frame.cells@, t, true);
                fresh.lemma_tree(g@);
                crate::extent::lemma_tree_weight(fresh.cells@, g@);
                lemma_budget_blobs(frame.cells@, t, true);
                lemma_budget_blobs(fresh.cells@, g@, true);
                crate::art::lemma_dead_bound(fresh.cells@, g@);
                assert forall|path: Seq<u8>| keyed(t, path) implies #[trigger] fresh.wf(path) by {
                    assert(keyed(g@, path));
                }
            }
            Ok(fresh)
        },
        Ok(None) => {
            let root: u16 = match fresh.alloc_node(Node::EmptyRoot) {
                Ok(s) => s,
                Err(e) => {
                    return Err(e);
                },
            };
            fresh.header.root_slot = root;
            fresh.header.compact_times = times;
            proof {
                lemma_gone(t);
                let e = Art::Empty { slot: 1 };
                assert(rep(fresh.cells@, e));
                fresh.lemma_tree(e);
                crate::extent::lemma_tree_weight(fresh.cells@, e);
                assert forall|path: Seq<u8>| keyed(t, path) implies #[trigger] fresh.wf(path) by {}
                assert forall|key: Seq<u8>, d: int| #[trigger] fresh.route(key, d) == step(t, key, d) by {
                    assert(step(t, key, d) is NotFound);
                }
            }
            Ok(fresh)
        },
        Err(e) => Err(e),
    }
}

/// Whether `f` is a rebuilt image of `f0`, in the routed layout where that pays
/// and fits.
pub open spec fn compacted(f0: BlobFrame, f: BlobFrame) -> bool {
    let t = f0.tree();
    let m = measure(t);
    let lrs = leaf_start(clamp(m.routing), clamp(m.leaves));
    let wanted = !gone(t) && routes(clamp(m.routing), clamp(m.leaf), clamp(m.leaves));
    let routed = f.header.routing_len != 0;
    &&& rebuilt(f0, f)
    &&& !needs_compaction(f.header)
    &&& !would_route(f)
    &&& routed ==> wanted && f.header.leaf_region_start == lrs
    &&& wanted && routed_takes(budget(f0.cells@, t, true), lrs) ==> routed
    &&& f.header.routing_unfit == (wanted && !routed)
    &&& routed ==> filter_placed(f.header, f.header.routing_off + f.header.routing_len, lrs, clamp(m.leaves))
    &&& !routed ==> no_filter(f.header)
}

/// Rebuilds a blob in place: deleted leaves and abandoned nodes are gone,
/// every key leads where it led, and the name stays. The blob gets the
/// routed layout when it qualifies, and no reason to rebuild it again is
/// left.
pub fn compact_blob(frame: &mut BlobFrame) -> (r: Result<()>)
    requires
        old(frame).sound(),
    ensures
        match r {
            Ok(_) => compacted(*old(frame), *final(frame)),
            Err(e) => {
                &&& e is Alloc
                &&& *final(frame) == *old(frame)
                &&& !plain_takes(budget(old(frame).cells@, old(frame).tree(), true))
            },
        },
{
    let ghost t = frame.tree();
    let budget = match routing_budget(frame, frame.header.root_slot, Ghost(t)) {
        Ok(b) => b,
        Err(e) => {
            return Err(e);
        },
    };
    let lrs: Option<u32> = routing_geometry(budget);
    let leaf_count: u32 = match budget {
        Some(b) => b.leaf_count,
        None => 0,
    };
    if let Some(l) = lrs {
        match rebuild(frame, lrs) {
            Ok(f) => {
                let mut f: BlobFrame = f;
                let ghost f1 = f;
                let internal_end: u32 = f.header.routing_off + f.header.routing_len;
                if let Some((off, len)) = routing_bloom_extent(internal_end, l, leaf_count) {
                    f.header.bloom_off = off;
                    f.header.bloom_len = len;
                    f.header.bloom_bits_per_key = BLOOM_BITS_PER_KEY;
                }
                proof {
                    assert(f.tree() == f1.tree());
                    assert forall|key: Seq<u8>, d: int| #[trigger] f.route(key, d) == step(t, key, d) by {
                        assert(f1.route(key, d) == step(t, key, d));
                    }
                    assert forall|path: Seq<u8>| keyed(t, path) implies #[trigger] f.wf(path) by {
                        assert(f1.wf(path));
                    }
                }
                *frame = f;
                return Ok(());
            },
            Err(_) => {},
        }
    }
    match rebuild(frame, None) {
        Ok(f) => {
            let mut f: BlobFrame = f;
            let ghost f1 = f;
            // A blob that should have been routed but was not is marked, so
            // that it is not tried again until it changes.
            f.header.routing_unfit = lrs.is_some();
            proof {
                assert(f.tree() == f1.tree());
                assert forall|key: Seq<u8>, d: int| #[trigger] f.route(key, d) == step(t, key, d) by {
                    assert(f1.route(key, d) == step(t, key, d));
                }
                assert forall|path: Seq<u8>| keyed(t, path) implies #[trigger] f.wf(path) by {
                    assert(f1.wf(path));
                }
            }
            *frame = f;
            Ok(())
        },
        Err(e) => Err(e),
    }
}

/// After a rebuild into the plain layout every byte of the used space belongs
/// to a node of the tree.
pub proof fn plain_rebuild_leaves_no_gap(f0: BlobFrame, f: BlobFrame, off: int)
    requires
        rebuilt(f0, f),
        f.header.routing_len == 0,
        DATA_AREA_START <= off < f.header.space_used,
    ensures
        exists|s: int| #[trigger] owns(f.tree(), s) && spans(f, s, off),
{
    crate::extent::lemma_no_gap(f, off);
}

/// After a rebuild into the routed layout every byte between the empty root
/// and the end of the other nodes, and every byte from the first leaf on,
/// belongs to a node of the tree.
pub proof fn routed_rebuild_leaves_no_gap(f0: BlobFrame, f: BlobFrame, off: int)
    requires
        rebuilt(f0, f),
        f.header.routing_len != 0,
        f.header.routing_off + EMPTY_ROOT_SIZE <= off < f.header.routing_off + f.header.routing_len
            || f.header.leaf_region_start <= off < f.header.space_used,
    ensures
        exists|s: int| #[trigger] owns(f.tree(), s) && spans(f, s, off),
{
    crate::extent::lemma_tree_weight(f.cells@, f.tree());
    lemma_budget_sign(f0.cells@, f0.tree(), true);
    crate::extent::lemma_no_gap_in_two(f, f.header.routing_off + f.header.routing_len, f.header.leaf_region_start as int, off);
}

/// A rebuild of a tree without empty roots that qualifies for the routed
/// layout gets it: the measured budget never falls short.
pub proof fn routed_rebuild_never_overruns(f: BlobFrame)
    requires
        f.sound(),
        no_empty(f.tree()),
        routes(clamp(measure(f.tree()).routing), clamp(measure(f.tree()).leaf), clamp(measure(f.tree()).leaves)),
    ensures
        ({
            let b = budget(f.cells@, f.tree(), true);
            let lrs = leaf_start(clamp(measure(f.tree()).routing), clamp(measure(f.tree()).leaves));
            &&& DATA_AREA_START + EMPTY_ROOT_SIZE + b.routing + bloom_len(b.leaves) <= lrs
            &&& lrs + b.leaf <= PAGE_SIZE - SPILLOVER_RESERVATION
        }),
{
    lemma_measure_sign(f.tree());
    measured_budget_is_exact(f.cells@, f.tree());
}

/// The trees that `list` names, by byte.
pub open spec fn listed_trees(c: Seq<Option<Node>>, list: Seq<(u8, u16)>) -> Seq<Option<Art>> {
    choose|acc: Seq<Option<Art>>| #[trigger] side_by_side(c, acc) && lists(list, acc)
}

/// Packs the subtrees that `list` names, in byte order, below one node: the
/// smallest that takes them, or a prefix for a lone one.
pub fn pack_subtrees(dst: &mut BlobFrame, list: &Vec<(u8, u16)>) -> (r: Result<Option<u16>>)
    requires
        old(dst).ok(),
        exists|acc: Seq<Option<Art>>| #[trigger] side_by_side(old(dst).cells@, acc) && lists(list@, acc),
        list@.len() <= 256,
    ensures
        match r {
            Ok(None) => list@.len() == 0 && *final(dst) == *old(dst),
            Ok(Some(s)) => {
                &&& list@.len() > 0
                &&& final(dst).header.space_used == old(dst).header.space_used + packed_size(list@.len() as int)
                &&& rooted(final(dst).cells@, s)
                &&& at(final(dst).cells@, s as int) matches Some(n) && packs(n, list@)
                &&& forall|key: Seq<u8>, d: int| #[trigger]
                    step(tree_at(final(dst).cells@, s), key, d) == kid_step(listed_trees(old(dst).cells@, list@), key, d)
            },
            Err(e) => e is Alloc && list@.len() > 0,
        },
{
    let ghost acc = listed_trees(dst.cells@, list@);
    match pack_inner_node(dst, list, Ghost(acc)) {
        Ok(Some((s, g))) => {
            proof {
                crate::frame::lemma_tree_at(dst.cells@, g@);
            }
            Ok(Some(s))
        },
        Ok(None) => Ok(None),
        Err(e) => Err(e),
    }
}

} // verus!
