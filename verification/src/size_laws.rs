//! What holds of the sizes of nodes and blobs, in numbers.
use vstd::prelude::*;

use crate::art::{at, blob_nodes, dead, dead_kids, owns, rep, slot_of, step, Art, Route};
use crate::erase::{kept_layout, collapse_cost};
use crate::frame::{BlobFrame, BlobHeader};
use crate::insert::{grown_size, layout_with_one_more};
use crate::key::{fingerprint_of, matches_at};
use crate::layout::{leaf_size, node_size, node_type, Node, NodeType};
use crate::migrate::{
    bloom_len, budget, budget_kids, compacted, filter_placed, gone, laid_out, leaf_start, needs_compaction, no_empty, packed_size, packs, rebuilt, routes,
    would_route,
};
use crate::node::{degree, full, inner_ok};
use crate::writers::{chain_cost, chained, head_len};

verus! {

/// A blob is worth rebuilding exactly if it holds a deleted record, or if a
/// sixteenth of its data area of 454656 bytes is abandoned.
pub proof fn what_calls_for_a_rebuild(h: BlobHeader)
    ensures
        needs_compaction(h) <==> h.tombstone_leaf_cnt > 0 || 16 * h.dead_bytes >= 524288 - 69632,
{
}

/// A tree without deleted leaves has none.
proof fn lemma_no_dead_leaf(c: Seq<Option<Node>>, t: Art, s: int)
    requires
        rep(c, t),
        dead(t) == 0,
        owns(t, s),
    ensures
        at(c, s) matches Some(n) && (n matches Node::Leaf(l) ==> !l.tombstone),
    decreases t,
{
    crate::insert::lemma_rep_root(c, t);
    if s == slot_of(t) {
        if let Art::Inner { .. } = t {
            assert(inner_ok(at(c, s)->0));
        }
    } else {
        match t {
            Art::Prefix { child, .. } => lemma_no_dead_leaf(c, *child, s),
            Art::Inner { kids, .. } => {
                let b = choose|b: int| 0 <= b < kids.len() && (#[trigger] kids[b]) is Some && owns(kids[b]->0, s);
                assert(rep(c, kids[b]->0));
                lemma_dead_one(kids, b, kids.len() as int);
                lemma_no_dead_leaf(c, kids[b]->0, s);
            },
            _ => {},
        }
    }
}

pub proof fn lemma_dead_one(kids: Seq<Option<Art>>, b: int, n: int)
    requires
        0 <= b < n <= kids.len(),
        kids[b] is Some,
    ensures
        dead(kids[b]->0) <= dead_kids(kids, n),
    decreases n,
{
    if b < n - 1 {
        lemma_dead_one(kids, b, n - 1);
    }
}

/// A rebuild drops what is deleted and abandoned: no leaf of the tree is
/// deleted, nothing is counted as abandoned, and there is no reason left to
/// rebuild. The name stays, the rebuild is counted, and every key leads where
/// it led.
pub proof fn rebuilds_clean_up(f0: BlobFrame, f: BlobFrame, s: int, key: Seq<u8>, d: int)
    requires
        rebuilt(f0, f),
        owns(f.tree(), s),
    ensures
        at(f.cells@, s) matches Some(n) && (n matches Node::Leaf(l) ==> !l.tombstone),
        f.header.dead_bytes == 0,
        f.header.tombstone_leaf_cnt == 0,
        f.header.blob_guid == f0.header.blob_guid,
        f0.header.compact_times < u32::MAX ==> f.header.compact_times == f0.header.compact_times + 1,
        f.route(key, d) == f0.route(key, d),
{
    lemma_no_dead_leaf(f.cells@, f.tree(), s);
}

/// Where a node of a tree in the routed layout lies.
proof fn lemma_laid_out(c: Seq<Option<Node>>, t: Art, lrs: int, s: int)
    requires
        rep(c, t),
        laid_out(t, lrs),
        lrs % 8 == 0,
        owns(t, s),
    ensures
        at(c, s) is Some,
        at(c, s)->0 is Leaf <==> 69632 + (s - 1) * 8 >= lrs,
    decreases t,
{
    crate::insert::lemma_rep_root(c, t);
    if s == slot_of(t) {
        if let Art::Inner { .. } = t {
            assert(inner_ok(at(c, s)->0));
        }
    } else {
        match t {
            Art::Prefix { child, .. } => lemma_laid_out(c, *child, lrs, s),
            Art::Inner { kids, .. } => {
                let b = choose|b: int| 0 <= b < kids.len() && (#[trigger] kids[b]) is Some && owns(kids[b]->0, s);
                assert(rep(c, kids[b]->0));
                lemma_laid_out(c, kids[b]->0, lrs, s);
            },
            _ => {},
        }
    }
}

/// In the routed layout the leaves, and nothing else, lie from a page boundary
/// on.
pub proof fn routed_leaves_lie_apart(f0: BlobFrame, f: BlobFrame, s: int)
    requires
        rebuilt(f0, f),
        f.header.routing_len > 0,
        owns(f.tree(), s),
    ensures
        f.header.leaf_region_start % 4096 == 0,
        at(f.cells@, s) is Some,
        at(f.cells@, s)->0 is Leaf <==> 69632 + (s - 1) * 8 >= f.header.leaf_region_start,
{
    lemma_laid_out(f.cells@, f.tree(), f.header.leaf_region_start as int, s);
}

/// Which blobs get the routed layout: those with some other nodes than leaves
/// and at least 8192 bytes of leaves, if the leaves, set off to the next page of
/// 4096 bytes behind an empty root of 8 bytes, the other nodes and ten bits for
/// each leaf, end 128 bytes before the end of the blob.
pub proof fn what_is_routed(routing: int, leaf: int, leaves: int, lrs: int)
    requires
        0 <= routing,
        0 <= leaf,
        0 <= leaves,
        lrs % 4096 == 0,
        69632 + 8 + routing + (10 * leaves + 7) / 8 <= lrs < 69632 + 8 + routing + (10 * leaves + 7) / 8 + 4096,
    ensures
        leaf_start(routing, leaves) == lrs,
        routes(routing, leaf, leaves) <==> routing > 0 && leaf >= 8192 && lrs + leaf + 128 <= 524288,
{
}

/// Which blobs are worth rebuilding for the routed layout: those that do not have
/// it, were not found unfit for it, and hold live records for which it pays.
pub proof fn what_calls_for_the_routed_layout(f: BlobFrame, lrs: int)
    requires
        f.sound(),
        no_empty(f.tree()),
        lrs % 4096 == 0,
        ({
            let b = budget(f.cells@, f.tree(), true);
            &&& b.routing <= u32::MAX && b.leaf <= u32::MAX && 0 <= b.leaves <= u32::MAX
            &&& 69632 + 8 + b.routing + (10 * b.leaves + 7) / 8 <= lrs < 69632 + 8 + b.routing + (10 * b.leaves + 7) / 8 + 4096
        }),
    ensures
        would_route(f) <==> {
            let b = budget(f.cells@, f.tree(), true);
            &&& f.header.routing_len == 0
            &&& !f.header.routing_unfit
            &&& !gone(f.tree())
            &&& b.routing > 0
            &&& b.leaf >= 8192
            &&& lrs + b.leaf + 128 <= 524288
        },
{
    crate::migrate::measured_budget_is_exact(f.cells@, f.tree());
    crate::migrate::lemma_budget_sign(f.cells@, f.tree(), true);
}

/// In a tree of which a rebuild leaves nothing no key finds anything.
pub proof fn gone_trees_find_nothing(t: Art, key: Seq<u8>, d: int)
    ensures
        gone(t) ==> step(t, key, d) is NotFound,
    decreases t,
{
    match t {
        Art::Prefix { bytes, child, .. } => gone_trees_find_nothing(*child, key, d + bytes.len()),
        Art::Inner { kids, .. } => {
            if 0 <= d < key.len() && key[d] < kids.len() && kids[key[d] as int] is Some {
                gone_trees_find_nothing(kids[key[d] as int]->0, key, d + 1);
            }
        },
        _ => {},
    }
}

/// A rebuilt blob gets the routed layout exactly if that pays and fits, and
/// remembers if it paid and did not fit. The leaves then begin on the first page
/// behind an empty root, the other nodes and the filter.
pub proof fn rebuilds_route_when_it_pays(f0: BlobFrame, f: BlobFrame, lrs: int)
    requires
        compacted(f0, f),
        no_empty(f0.tree()),
        !gone(f0.tree()),
        lrs % 4096 == 0,
        ({
            let b = budget(f.cells@, f.tree(), false);
            69632 + 8 + b.routing + (10 * b.leaves + 7) / 8 <= lrs < 69632 + 8 + b.routing + (10 * b.leaves + 7) / 8 + 4096
        }),
    ensures
        ({
            let b = budget(f.cells@, f.tree(), false);
            let pays = b.routing > 0 && b.leaf >= 8192 && lrs + b.leaf + 128 <= 524288;
            &&& f.header.routing_len > 0 ==> pays && f.header.leaf_region_start == lrs && f.header.routing_len == 8 + b.routing
                && f.header.routing_off == 69632 && f.header.space_used == lrs + b.leaf
            &&& pays && 1 + b.nodes <= 16384 ==> f.header.routing_len > 0
            &&& f.header.routing_unfit <==> pays && f.header.routing_len == 0
            &&& f.header.routing_len == 0 ==> f.header.space_used == 69632 + b.routing + b.leaf && f.header.num_slots == b.nodes
        }),
{
    crate::migrate::measured_budget_is_exact(f0.cells@, f0.tree());
    crate::migrate::lemma_budget_sign(f.cells@, f.tree(), false);
    crate::extent::tree_fits_used_space(f);
    crate::extent::lemma_tree_weight(f.cells@, f.tree());
    lemma_leaves_are_nodes(f.cells@, f.tree());
}

/// No more leaves than nodes.
proof fn lemma_leaves_are_nodes(c: Seq<Option<Node>>, t: Art)
    ensures
        0 <= budget(c, t, false).leaves <= budget(c, t, false).nodes,
    decreases t, (if t is Inner { t->kids.len() + 1 } else { 0 }),
{
    match t {
        Art::Prefix { child, .. } => lemma_leaves_are_nodes(c, *child),
        Art::Inner { kids, .. } => lemma_leaves_below(c, t, kids.len() as int),
        _ => {},
    }
}

proof fn lemma_leaves_below(c: Seq<Option<Node>>, t: Art, n: int)
    requires
        t is Inner,
        0 <= n <= t->kids.len(),
    ensures
        0 <= budget_kids(c, t->kids, n, false).leaves <= budget_kids(c, t->kids, n, false).nodes,
    decreases t, n,
{
    if n > 0 {
        lemma_leaves_below(c, t, n - 1);
        if let Some(k) = t->kids[n - 1] {
            lemma_leaves_are_nodes(c, k);
        }
    }
}

/// Where the filter goes: right behind the nodes that are not leaves, ten bits
/// for each leaf in whole bytes, if that ends before the leaves.
pub proof fn where_the_filter_goes(h: BlobHeader, internal_end: int, lrs: int, leaves: int)
    requires
        filter_placed(h, internal_end, lrs, leaves),
        leaves >= 0,
        internal_end > 0,
    ensures
        8 * bloom_len(leaves) >= 10 * leaves,
        8 * bloom_len(leaves) < 10 * leaves + 8,
        h.bloom_len > 0 <==> leaves > 0 && internal_end + bloom_len(leaves) <= lrs,
        h.bloom_len > 0 ==> h.bloom_off == internal_end && h.bloom_len == bloom_len(leaves) && h.bloom_bits_per_key == 10,
        h.bloom_len == 0 ==> h.bloom_off == 0 && h.bloom_bits_per_key == 0,
{
}

/// Bytes of nodes: a leaf takes its key, its value and 16 bytes, in whole units
/// of 8.
pub proof fn sizes_of_nodes(n: Node)
    ensures
        n is EmptyRoot ==> node_size(n) == 8,
        n is Prefix || n is Blob ==> node_size(n) == 128,
        n is Node4 ==> node_size(n) == 16,
        n is Node16 ==> node_size(n) == 56,
        n is Node48 ==> node_size(n) == 360,
        n is Node256 ==> node_size(n) == 520,
        n matches Node::Leaf(l) ==> ({
            let used = 16 + l.key@.len() + l.value@.len();
            node_size(n) % 8 == 0 && used <= node_size(n) < used + 8
        }),
{
}

/// A node can be placed exactly if fewer than 16384 nodes were and it ends by
/// the end of the blob; the last 128 bytes are for a blob node only.
pub proof fn what_finds_room(f: BlobFrame, size: int, is_blob: bool)
    requires
        f.arena_end == 524288,
    ensures
        f.has_room(size, is_blob) <==> f.header.num_slots < 16384 && f.header.space_used + size <= (if is_blob {
            524288int
        } else {
            524288 - 128
        }),
{
}

/// An inner node is full exactly if it has 4, 16 or 48 children, as many as its
/// layout holds, and only then grows, to the next layout.
pub proof fn nodes_grow_when_full(n: Node)
    requires
        inner_ok(n),
    ensures
        degree(n) <= (match n {
            Node::Node4(_) => 4int,
            Node::Node16(_) => 16,
            Node::Node48(_) => 48,
            _ => 256,
        }),
        full(n) <==> (n is Node4 && degree(n) == 4) || (n is Node16 && degree(n) == 16) || (n is Node48 && degree(n) == 48),
        !full(n) ==> layout_with_one_more(n) == node_type(n),
        full(n) && n is Node4 ==> layout_with_one_more(n) is Node16 && grown_size(n) == 56,
        full(n) && n is Node16 ==> layout_with_one_more(n) is Node48 && grown_size(n) == 360,
        full(n) && n is Node48 ==> layout_with_one_more(n) is Node256 && grown_size(n) == 520,
{
    if let Node::Node256(m) = n {
        crate::node::lemma_nonzero_bound(m.children@, 256);
    }
}

/// An inner node that shrinks moves to the next smaller layout once 3, 12 or 37
/// children are left, and keeps its layout else; one that is left with a single
/// child becomes a prefix.
pub proof fn nodes_shrink_late(n: Node)
    requires
        inner_ok(n),
        degree(n) >= 2,
    ensures
        kept_layout(n, false) == node_type(n),
        n is Node4 ==> kept_layout(n, true) is Node4,
        n is Node16 ==> (kept_layout(n, true) is Node4 <==> degree(n) <= 4),
        n is Node16 ==> (kept_layout(n, true) is Node16 <==> degree(n) > 4),
        n is Node48 ==> (kept_layout(n, true) is Node16 <==> degree(n) <= 13),
        n is Node48 ==> (kept_layout(n, true) is Node48 <==> degree(n) > 13),
        n is Node256 ==> (kept_layout(n, true) is Node48 <==> degree(n) <= 38),
        n is Node256 ==> (kept_layout(n, true) is Node256 <==> degree(n) > 38),
        // What that takes.
        degree(n) == 2 ==> collapse_cost(n, true).bytes == 128 && collapse_cost(n, false).bytes == 128,
        degree(n) > 2 ==> collapse_cost(n, false).bytes == 0,
        degree(n) > 2 && kept_layout(n, true) == node_type(n) ==> collapse_cost(n, true).bytes == 0,
        degree(n) > 2 && kept_layout(n, true) != node_type(n) ==> collapse_cost(n, true).bytes == (match kept_layout(n, true) {
            NodeType::Node4 => 16int,
            NodeType::Node16 => 56,
            _ => 360,
        }),
{
}

/// Children are packed into the smallest layout that holds them: a prefix for
/// one, then 4, 16, 48 and 256.
pub proof fn children_are_packed_tightly(n: Node, list: Seq<(u8, u16)>)
    requires
        packs(n, list),
        0 < list.len() <= 256,
    ensures
        n is Prefix <==> list.len() == 1,
        n is Node4 <==> 2 <= list.len() <= 4,
        n is Node16 <==> 5 <= list.len() <= 16,
        n is Node48 <==> 17 <= list.len() <= 48,
        n is Node256 <==> 49 <= list.len(),
        packed_size(list.len() as int) == node_size(n),
{
}

/// A run of bytes goes into as few prefix nodes of at most 112 bytes each as
/// hold it, 128 bytes a node.
pub proof fn runs_are_packed_tightly(len: int)
    requires
        len >= 0,
    ensures
        112 * chain_cost(len).nodes >= len,
        112 * (chain_cost(len).nodes - 1) < len,
        chain_cost(len).bytes == 128 * chain_cost(len).nodes,
{
}

/// A chain of prefix nodes spells out its run.
pub proof fn chains_spell_their_run(u: Art, bytes: Seq<u8>, below: Art)
    requires
        chained(u, bytes, below),
        bytes.len() > 0,
    ensures
        u matches Art::Prefix { bytes: head, child, .. } && 0 < head.len() <= 112 && head.is_prefix_of(bytes) && chained(
            *child,
            bytes.skip(head.len() as int),
            below,
        ),
{
    let n = head_len(bytes.len() as int);
    assert(bytes.take(n) =~= bytes.subrange(0, n));
}

/// Blob nodes that a tree has are counted in its header.
pub proof fn crossings_are_counted(f: BlobFrame, path: Seq<u8>)
    requires
        f.wf(path),
    ensures
        blob_nodes(f.tree()) <= f.header.num_ext_blobs,
        dead(f.tree()) == f.header.tombstone_leaf_cnt,
{
}

/// What a record takes grows with its key and value alone.
pub proof fn leaves_take_what_they_hold(k1: int, v1: int, k2: int, v2: int)
    requires
        0 <= k1,
        0 <= v1,
        0 <= k2,
        0 <= v2,
    ensures
        k1 + v1 == k2 + v2 ==> leaf_size(k1, v1) == leaf_size(k2, v2),
        leaf_size(k1, v1 + 8) == leaf_size(k1, v1) + 8,
        leaf_size(0, 0) == 16,
{
}

/// What nodes hold: a leaf a key and a value of at most 65535 bytes each, deleted
/// or not, with the key's fingerprint or zero in its place; a prefix node from
/// one to 112 bytes; a blob node at most 104.
pub proof fn nodes_hold_what_fits(c: Seq<Option<Node>>, slot: int, child: Art)
    requires
        0 < slot < 65536,
        at(c, slot) is Some,
    ensures
        match at(c, slot)->0 {
            Node::Leaf(l) => rep(c, Art::Leaf { slot, key: l.key@, value: l.value@, seq: l.seq, dead: l.tombstone }) <==> l.key@.len() < 0x10000
                && l.value@.len() < 0x10000 && (l.key_fp == 0 || l.key_fp == fingerprint_of(l.key@)),
            Node::Prefix(p) => rep(c, child) && p.child == slot_of(child) ==> (rep(
                c,
                Art::Prefix { slot, bytes: p.bytes@, child: Box::new(child) },
            ) <==> 1 <= p.bytes@.len() <= 112),
            Node::Blob(b) => rep(c, Art::Blob { slot, bytes: b.bytes@, guid: b.child_blob_guid }) <==> b.bytes@.len() <= 104,
            Node::EmptyRoot => rep(c, Art::Empty { slot }),
            _ => true,
        },
{
}

/// What a key finds at a node: at a leaf its record, if the leaf has just that key
/// and is not deleted; at a blob node the other blob, with the node's bytes
/// consumed, if they come next in the key; at a prefix node what it finds below,
/// if the node's bytes come next; at an inner node what its next byte leads to.
pub proof fn keys_are_led_by_their_bytes(t: Art, key: Seq<u8>, d: int)
    requires
        0 <= d <= key.len(),
    ensures
        match t {
            Art::Empty { .. } => step(t, key, d) is NotFound,
            Art::Leaf { key: k, value, seq, dead: gone, .. } => step(t, key, d) == (if k == key && !gone {
                Route::Found { value, seq }
            } else {
                Route::NotFound
            }),
            Art::Blob { bytes, guid, .. } => step(t, key, d) == (if bytes.is_prefix_of(key.skip(d)) {
                Route::Crossing { guid, depth: d + bytes.len() }
            } else {
                Route::NotFound
            }),
            Art::Prefix { bytes, child, .. } => step(t, key, d) == (if bytes.is_prefix_of(key.skip(d)) {
                step(*child, key, d + bytes.len())
            } else {
                Route::NotFound
            }),
            Art::Inner { kids, .. } => kids.len() == 256 ==> step(t, key, d) == (if d < key.len() && kids[key[d] as int] is Some {
                step(kids[key[d] as int]->0, key, d + 1)
            } else {
                Route::NotFound
            }),
        },
{
    match t {
        Art::Blob { bytes, .. } => lemma_comes_next(key, d, bytes),
        Art::Prefix { bytes, .. } => lemma_comes_next(key, d, bytes),
        _ => {},
    }
}

proof fn lemma_comes_next(key: Seq<u8>, d: int, bytes: Seq<u8>)
    requires
        0 <= d <= key.len(),
    ensures
        matches_at(key, d, bytes) <==> bytes.is_prefix_of(key.skip(d)),
{
    if matches_at(key, d, bytes) {
        assert(key.skip(d).subrange(0, bytes.len() as int) =~= key.subrange(d, d + bytes.len()));
    }
    if bytes.is_prefix_of(key.skip(d)) {
        assert(key.skip(d).subrange(0, bytes.len() as int) =~= key.subrange(d, d + bytes.len()));
    }
}

} // verus!
