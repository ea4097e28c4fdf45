//! Splitting a full blob: choosing the subtree to move out, moving it, and
//! leaving a blob node in its place.
use vstd::prelude::*;

use crate::art::{at, blob_nodes, dead, keyed, lemma_blob_nodes_update, owns, rep, sep, slot_of, step, Art, Route};
use crate::errors::{Error, Result};
use crate::frame::{BlobFrame, BlobHeader};
use crate::insert::{copy_bytes, lemma_ok_after_set, lemma_rep_root};
use crate::key::matches_at;
use crate::layout::{
    leaf_body_size, node_type, size_of_node, type_of_node, BlobGuid, BlobNode, Node, NodeType, Prefix, BLOB_NODE_SIZE,
    EMPTY_ROOT_SIZE, PREFIX_SIZE,
};
use crate::migrate::{
    blob_takes, budget, budget_kids, clamp, count_tombstones, lemma_budget_kids_sign, lemma_budget_sign, lemma_kids_skip,
    make_blob_from_node, new_blob_header,
};
use crate::writers::{edits, lemma_matches_concat, lemma_replug_inner, lemma_replug_prefix, with_kid};
use crate::node::{
    cursor_byte, inner_ok, inner_update_child, kid, kid_update, next_inner_child_from, no_kid_from,
};

verus! {

/// Bytes of a subtree that fills a blob to seven tenths.
pub const TARGET_CHILD_BYTES: u32 = 318259;

/// Bytes of a subtree below which moving it out is hardly worth a blob.
pub const MIN_CHILD_BYTES: u32 = 159129;

/// What a subtree takes, abandoned space not counted.
#[derive(Debug, Clone, Copy, PartialEq, Eq, Structural)]
pub struct SubtreeFootprint {
    pub nodes: u32,
    pub bytes: u32,
}

/// Whether a boundary between blobs falls on the end of a path component.
#[derive(Debug, Clone, Copy, PartialEq, Eq, Structural)]
pub enum BoundaryQuality {
    Arbitrary,
    PathComponent,
}

/// The kind of reference that leads to a subtree.
#[derive(Debug, Clone, Copy, PartialEq, Eq, Structural)]
pub enum VictimEdgeKind {
    Prefix,
    Inner(NodeType),
}

/// A subtree that could be moved out, and the reference that leads to it.
#[derive(Debug, Clone, Copy, PartialEq, Eq, Structural)]
pub struct Victim {
    pub parent_slot: u16,
    pub kind: VictimEdgeKind,
    /// The branch byte; zero below a prefix.
    pub byte: u8,
    pub victim_slot: u16,
}

/// A victim with what its choice depends on.
#[derive(Debug, Clone, Copy, PartialEq, Eq, Structural)]
pub struct VictimCandidate {
    pub victim: Victim,
    pub footprint: SubtreeFootprint,
    pub boundary: BoundaryQuality,
    /// Key bytes that lead to the subtree from the root of its blob.
    pub boundary_depth: usize,
}

/// Bytes of a subtree that fills a blob to seven tenths.
pub fn spillover_target_child_bytes() -> (r: u32)
    ensures
        r == (crate::layout::PAGE_SIZE - crate::layout::DATA_AREA_START) * 70 / 100,
{
    TARGET_CHILD_BYTES
}

/// Bytes of a subtree that fills a blob to thirty-five hundredths.
pub fn spillover_min_child_bytes() -> (r: u32)
    ensures
        r == (crate::layout::PAGE_SIZE - crate::layout::DATA_AREA_START) * 35 / 100,
{
    MIN_CHILD_BYTES
}

/// Whether a footprint is neither too small nor too large.
pub open spec fn in_band(bytes: u32) -> bool {
    MIN_CHILD_BYTES <= bytes <= TARGET_CHILD_BYTES
}

/// Distance of a footprint from the target.
pub open spec fn off_target(bytes: u32) -> int {
    if bytes >= TARGET_CHILD_BYTES {
        bytes - TARGET_CHILD_BYTES
    } else {
        TARGET_CHILD_BYTES - bytes
    }
}

/// Whether `a` is to be preferred to `b`: first a footprint within the band;
/// within it a boundary at a path component; then the smaller distance from
/// the target, a boundary at a path component, the shorter way, and the
/// larger number of nodes.
pub open spec fn better(a: VictimCandidate, b: VictimCandidate) -> bool {
    let da = off_target(a.footprint.bytes);
    let db = off_target(b.footprint.bytes);
    if in_band(a.footprint.bytes) != in_band(b.footprint.bytes) {
        in_band(a.footprint.bytes)
    } else if in_band(a.footprint.bytes) && a.boundary != b.boundary {
        a.boundary == BoundaryQuality::PathComponent
    } else if da != db {
        da < db
    } else if a.boundary != b.boundary {
        a.boundary == BoundaryQuality::PathComponent
    } else if a.boundary_depth != b.boundary_depth {
        a.boundary_depth < b.boundary_depth
    } else {
        a.footprint.nodes > b.footprint.nodes
    }
}

/// The preference is a strict order: no candidate is preferred to itself,
/// and preference carries over.
pub proof fn preference_is_a_strict_order(a: VictimCandidate, b: VictimCandidate, c: VictimCandidate)
    ensures
        !better(a, a),
        better(a, b) ==> !better(b, a),
        better(a, b) && better(b, c) ==> better(a, c),
{
}

/// A footprint within the band is preferred to one outside it, whatever the
/// boundaries.
pub proof fn band_comes_before_boundary(a: VictimCandidate, b: VictimCandidate)
    requires
        in_band(a.footprint.bytes),
        !in_band(b.footprint.bytes),
    ensures
        better(a, b),
{
}

/// Whether `candidate` is to be preferred to `current`.
pub fn candidate_is_better(candidate: VictimCandidate, current: VictimCandidate) -> (r: bool)
    ensures
        r == better(candidate, current),
{
    let c: SubtreeFootprint = candidate.footprint;
    let b: SubtreeFootprint = current.footprint;
    let target: u32 = TARGET_CHILD_BYTES;
    let min: u32 = MIN_CHILD_BYTES;
    let c_in_band: bool = c.bytes >= min && c.bytes <= target;
    let b_in_band: bool = b.bytes >= min && b.bytes <= target;
    if c_in_band != b_in_band {
        return c_in_band;
    }
    let c_off: u32 = distance(c.bytes, target);
    let b_off: u32 = distance(b.bytes, target);
    if c_in_band {
        return candidate_tie_in_band(candidate, current, c_off, b_off);
    }
    if c.bytes < min && b.bytes < min {
        // Both too small: the larger one.
        return candidate_tie(candidate, current, b.bytes, c.bytes);
    }
    if c.bytes > target && b.bytes > target {
        // Both too large: the smaller one.
        return candidate_tie(candidate, current, c.bytes, b.bytes);
    }
    candidate_tie(candidate, current, c_off, b_off)
}

/// The distance between two numbers.
fn distance(a: u32, b: u32) -> (r: u32)
    ensures
        r == (if a >= b { a - b } else { b - a }),
{
    if a >= b {
        a - b
    } else {
        b - a
    }
}

/// Preference within the band: boundary first, then score.
fn candidate_tie_in_band(
    candidate: VictimCandidate,
    current: VictimCandidate,
    candidate_score: u32,
    current_score: u32,
) -> (r: bool)
    ensures
        r == (if candidate.boundary != current.boundary {
            candidate.boundary == BoundaryQuality::PathComponent
        } else {
            tie(candidate, current, candidate_score, current_score)
        }),
{
    if candidate.boundary != current.boundary {
        return candidate.boundary == BoundaryQuality::PathComponent;
    }
    candidate_tie(candidate, current, candidate_score, current_score)
}

/// Preference by score, then boundary, depth and number of nodes.
pub open spec fn tie(a: VictimCandidate, b: VictimCandidate, a_score: u32, b_score: u32) -> bool {
    if a_score != b_score {
        a_score < b_score
    } else if a.boundary != b.boundary {
        a.boundary == BoundaryQuality::PathComponent
    } else if a.boundary_depth != b.boundary_depth {
        a.boundary_depth < b.boundary_depth
    } else {
        a.footprint.nodes > b.footprint.nodes
    }
}

fn candidate_tie(candidate: VictimCandidate, current: VictimCandidate, candidate_score: u32, current_score: u32) -> (r: bool)
    ensures
        r == tie(candidate, current, candidate_score, current_score),
{
    if candidate_score != current_score {
        return candidate_score < current_score;
    }
    if candidate.boundary != current.boundary {
        return candidate.boundary == BoundaryQuality::PathComponent;
    }
    if candidate.boundary_depth != current.boundary_depth {
        return candidate.boundary_depth < current.boundary_depth;
    }
    candidate.footprint.nodes > current.footprint.nodes
}

/// What subtree `t` takes.
pub open spec fn footprint(c: Seq<Option<Node>>, t: Art) -> SubtreeFootprint {
    let b = budget(c, t, false);
    SubtreeFootprint { nodes: clamp(b.nodes) as u32, bytes: clamp(b.routing + b.leaf) as u32 }
}

/// The quality of a boundary just after `byte`.
pub open spec fn byte_boundary(byte: u8) -> BoundaryQuality {
    if byte == 47 {
        BoundaryQuality::PathComponent
    } else {
        BoundaryQuality::Arbitrary
    }
}

/// The quality of a boundary just after `bytes`.
pub open spec fn run_boundary(bytes: Seq<u8>) -> BoundaryQuality {
    if bytes.len() == 0 {
        BoundaryQuality::Arbitrary
    } else {
        byte_boundary(bytes.last())
    }
}

/// `a + b`, but no more than a `usize` holds.
pub open spec fn deeper(a: usize, b: int) -> usize {
    if a + b <= usize::MAX {
        (a + b) as usize
    } else {
        usize::MAX
    }
}

/// Whether `x` is a candidate that the reference `victim` to subtree `k`
/// gives: the subtree itself, or one inside it when it is too large. What is
/// already in another blob is none.
pub open spec fn edge_candidate(
    c: Seq<Option<Node>>,
    k: Art,
    victim: Victim,
    boundary: BoundaryQuality,
    depth: usize,
    x: VictimCandidate,
) -> bool
    decreases k, 1int,
{
    &&& !(k is Blob)
    &&& {
        ||| x == (VictimCandidate { victim, footprint: footprint(c, k), boundary, boundary_depth: depth })
        ||| footprint(c, k).bytes > TARGET_CHILD_BYTES && is_candidate(c, k, depth, x)
    }
}

/// Whether `x` is a candidate below the root of `t`.
pub open spec fn is_candidate(c: Seq<Option<Node>>, t: Art, depth: usize, x: VictimCandidate) -> bool
    decreases t, 0int,
{
    match t {
        Art::Prefix { slot, bytes, child } => edge_candidate(
            c,
            *child,
            Victim { parent_slot: slot as u16, kind: VictimEdgeKind::Prefix, byte: 0, victim_slot: slot_of(*child) as u16 },
            run_boundary(bytes),
            deeper(depth, bytes.len() as int),
            x,
        ),
        Art::Inner { slot, kids } => exists|b: int|
            0 <= b < kids.len() && (#[trigger] kids[b]) is Some && edge_candidate(
                c,
                kids[b]->0,
                Victim {
                    parent_slot: slot as u16,
                    kind: VictimEdgeKind::Inner(node_type(at(c, slot)->0)),
                    byte: b as u8,
                    victim_slot: slot_of(kids[b]->0) as u16,
                },
                byte_boundary(b as u8),
                deeper(depth, 1),
                x,
            ),
        _ => false,
    }
}

/// The candidates that the reference `victim` to subtree `k` gives, the
/// subtree itself before those inside it.
pub open spec fn edge_candidates(
    c: Seq<Option<Node>>,
    k: Art,
    victim: Victim,
    boundary: BoundaryQuality,
    depth: usize,
) -> Seq<VictimCandidate>
    decreases k, (if k is Inner { k->kids.len() + 2 } else { 2 }),
{
    if k is Blob {
        seq![]
    } else {
        seq![VictimCandidate { victim, footprint: footprint(c, k), boundary, boundary_depth: depth }] + (if footprint(c, k).bytes > TARGET_CHILD_BYTES {
            candidates(c, k, depth)
        } else {
            seq![]
        })
    }
}

/// The candidates below the root of `t`, in key order.
pub open spec fn candidates(c: Seq<Option<Node>>, t: Art, depth: usize) -> Seq<VictimCandidate>
    decreases t, (if t is Inner { t->kids.len() + 1 } else { 1 }),
{
    match t {
        Art::Prefix { slot, bytes, child } => edge_candidates(
            c,
            *child,
            Victim { parent_slot: slot as u16, kind: VictimEdgeKind::Prefix, byte: 0, victim_slot: slot_of(*child) as u16 },
            run_boundary(bytes),
            deeper(depth, bytes.len() as int),
        ),
        Art::Inner { kids, .. } => kids_candidates(c, t, depth, kids.len() as int),
        _ => seq![],
    }
}

/// The candidates through the first `n` subtrees of an inner node, in key
/// order.
pub open spec fn kids_candidates(c: Seq<Option<Node>>, t: Art, depth: usize, n: int) -> Seq<VictimCandidate>
    decreases t, n,
{
    match t {
        Art::Inner { slot, kids } => if n <= 0 || n > kids.len() {
            seq![]
        } else {
            kids_candidates(c, t, depth, n - 1) + (match kids[n - 1] {
                Some(k) => edge_candidates(
                    c,
                    k,
                    Victim {
                        parent_slot: slot as u16,
                        kind: VictimEdgeKind::Inner(node_type(at(c, slot)->0)),
                        byte: (n - 1) as u8,
                        victim_slot: slot_of(k) as u16,
                    },
                    byte_boundary((n - 1) as u8),
                    deeper(depth, 1),
                ),
                None => seq![],
            })
        },
        _ => seq![],
    }
}

/// The best of `before` and the candidates of `s`; of equally good ones the
/// first.
pub open spec fn first_best(before: Option<VictimCandidate>, s: Seq<VictimCandidate>) -> Option<VictimCandidate>
    decreases s.len(),
{
    if s.len() == 0 {
        before
    } else {
        match first_best(before, s.drop_last()) {
            Some(x) => if better(s.last(), x) {
                Some(s.last())
            } else {
                Some(x)
            },
            None => Some(s.last()),
        }
    }
}

/// Whether `x` is the candidate of `s` to take: none is better, and those
/// before it are worse.
pub open spec fn comes_first(s: Seq<VictimCandidate>, x: VictimCandidate) -> bool {
    &&& forall|j: int| 0 <= j < s.len() ==> !better(#[trigger] s[j], x)
    &&& exists|i: int|
        {
            &&& 0 <= i < s.len()
            &&& (#[trigger] s[i]) == x
            &&& forall|j: int| 0 <= j < i ==> better(x, #[trigger] s[j])
        }
}

/// What the subtree at `slot` takes.
pub fn subtree_footprint(frame: &BlobFrame, slot: u16, Ghost(t): Ghost<Art>) -> (r: SubtreeFootprint)
    requires
        rep(frame.cells@, t),
        slot_of(t) == slot,
    ensures
        r == footprint(frame.cells@, t),
    decreases t,
{
    proof {
        lemma_rep_root(frame.cells@, t);
    }
    match frame.node_at(slot) {
        Some(Node::EmptyRoot) => SubtreeFootprint { nodes: 1, bytes: EMPTY_ROOT_SIZE },
        Some(Node::Blob(_)) => SubtreeFootprint { nodes: 1, bytes: BLOB_NODE_SIZE },
        Some(Node::Leaf(l)) => SubtreeFootprint {
            nodes: 1,
            bytes: leaf_body_size(l.key.len() as u32, l.value.len() as u32),
        },
        Some(Node::Prefix(p)) => {
            proof {
                lemma_budget_sign(frame.cells@, *t->child, false);
            }
            let below: SubtreeFootprint = subtree_footprint(frame, p.child, Ghost(*t->child));
            SubtreeFootprint { nodes: below.nodes.saturating_add(1), bytes: below.bytes.saturating_add(PREFIX_SIZE) }
        },
        Some(n) => {
            let ghost kids = t->kids;
            let ghost n0 = *n;
            let own: u32 = size_of_node(n);
            let mut nodes: u32 = 1;
            let mut bytes: u32 = own;
            let mut from: u16 = 0;
            let mut more: bool = true;
            while more
                invariant
                    rep(frame.cells@, t),
                    t is Inner,
                    kids == t->kids,
                    kids.len() == 256,
                    *n == n0,
                    at(frame.cells@, slot_of(t)) == Some(n0),
                    inner_ok(n0),
                    own == crate::layout::node_size(n0),
                    0 <= cursor_byte(n0, from as int) <= 256,
                    !more ==> no_kid_from(n0, cursor_byte(n0, from as int)),
                    nodes == clamp(budget_kids(frame.cells@, kids, cursor_byte(n0, from as int), false).nodes + 1),
                    bytes == clamp(
                        budget_kids(frame.cells@, kids, cursor_byte(n0, from as int), false).routing + budget_kids(
                            frame.cells@,
                            kids,
                            cursor_byte(n0, from as int),
                            false,
                        ).leaf + own,
                    ),
                decreases more as int, 256 - cursor_byte(n0, from as int),
            {
                let ghost lo = cursor_byte(n0, from as int);
                match next_inner_child_from(n, from) {
                    None => {
                        more = false;
                    },
                    Some((byte, child, next)) => {
                        let ghost b = byte as int;
                        assert(kids[b] is Some);
                        let ghost k = kids[b]->0;
                        proof {
                            assert forall|x: int| lo <= x < b implies kids[x] is None by {
                                assert(kid(n0, x) == 0);
                            }
                            lemma_kids_skip(frame.cells@, kids, lo, b, false);
                            lemma_budget_kids_sign(frame.cells@, t, b, false);
                            lemma_budget_sign(frame.cells@, k, false);
                        }
                        let below: SubtreeFootprint = subtree_footprint(frame, child, Ghost(k));
                        nodes = nodes.saturating_add(below.nodes);
                        bytes = bytes.saturating_add(below.bytes);
                        from = next;
                    },
                }
            }
            proof {
                let lo = cursor_byte(n0, from as int);
                assert forall|x: int| lo <= x < 256 implies kids[x] is None by {
                    assert(kid(n0, x) == 0);
                }
                lemma_kids_skip(frame.cells@, kids, lo, 256, false);
            }
            SubtreeFootprint { nodes, bytes }
        },
        None => SubtreeFootprint { nodes: 0, bytes: 0 },
    }
}

/// The quality of a boundary just after `byte`.
pub fn boundary_quality_for_byte(byte: u8) -> (r: BoundaryQuality)
    ensures
        r == byte_boundary(byte),
{
    if byte == 47 {
        BoundaryQuality::PathComponent
    } else {
        BoundaryQuality::Arbitrary
    }
}

/// The quality of a boundary just after `prefix`.
pub fn boundary_quality_for_prefix(prefix: &[u8]) -> (r: BoundaryQuality)
    ensures
        r == run_boundary(prefix@),
{
    if prefix.len() == 0 {
        BoundaryQuality::Arbitrary
    } else {
        boundary_quality_for_byte(prefix[prefix.len() - 1])
    }
}

/// Choosing in two steps is choosing once.
proof fn lemma_first_best_concat(before: Option<VictimCandidate>, a: Seq<VictimCandidate>, b: Seq<VictimCandidate>)
    ensures
        first_best(before, a + b) == first_best(first_best(before, a), b),
    decreases b.len(),
{
    if b.len() == 0 {
        assert(a + b =~= a);
    } else {
        assert((a + b).drop_last() =~= a + b.drop_last());
        assert((a + b).last() == b.last());
        lemma_first_best_concat(before, a, b.drop_last());
    }
}

/// The candidate that is left is the one to take.
proof fn lemma_first_best(s: Seq<VictimCandidate>)
    ensures
        match first_best(None, s) {
            Some(x) => comes_first(s, x),
            None => s.len() == 0,
        },
    decreases s.len(),
{
    if s.len() > 0 {
        let a = s.drop_last();
        let y = s.last();
        let n = s.len() - 1;
        lemma_first_best(a);
        preference_is_a_strict_order(y, y, y);
        match first_best(None, a) {
            None => {
                assert(s[n] == y);
                assert(comes_first(s, y));
            },
            Some(x) => {
                let i = choose|i: int|
                    {
                        &&& 0 <= i < a.len()
                        &&& (#[trigger] a[i]) == x
                        &&& forall|j: int| 0 <= j < i ==> better(x, #[trigger] a[j])
                    };
                assert(s[i] == x);
                if better(y, x) {
                    assert forall|j: int| 0 <= j < n implies better(y, #[trigger] s[j]) && !better(s[j], y) by {
                        assert(a[j] == s[j]);
                        preference_is_a_strict_order(s[j], y, x);
                        preference_is_a_strict_order(y, x, s[j]);
                        preference_is_a_strict_order(y, s[j], x);
                    }
                    assert(s[n] == y);
                    assert(comes_first(s, y));
                } else {
                    assert forall|j: int| 0 <= j < s.len() implies !better(#[trigger] s[j], x) by {
                        if j < n {
                            assert(a[j] == s[j]);
                        }
                    }
                    assert forall|j: int| 0 <= j < i implies better(x, #[trigger] s[j]) by {
                        assert(a[j] == s[j]);
                    }
                    assert(comes_first(s, x));
                }
            },
        }
    }
}

/// The candidates listed in key order are the candidates.
pub proof fn lemma_candidates(c: Seq<Option<Node>>, t: Art, depth: usize, x: VictimCandidate)
    ensures
        candidates(c, t, depth).contains(x) <==> is_candidate(c, t, depth, x),
    decreases t, (if t is Inner { t->kids.len() + 1 } else { 1 }),
{
    match t {
        Art::Prefix { slot, bytes, child } => {
            let v = Victim { parent_slot: slot as u16, kind: VictimEdgeKind::Prefix, byte: 0, victim_slot: slot_of(*child) as u16 };
            lemma_edge_candidates(c, *child, v, run_boundary(bytes), deeper(depth, bytes.len() as int), x);
        },
        Art::Inner { kids, .. } => {
            lemma_kids_candidates(c, t, depth, kids.len() as int, x);
            if is_candidate(c, t, depth, x) {
                let b = choose|b: int| 0 <= b < kids.len() && (#[trigger] kids[b]) is Some && kid_candidate(c, t, depth, b, x);
                assert(kids[b] is Some && kid_candidate(c, t, depth, b, x));
            }
        },
        _ => {},
    }
}

proof fn lemma_edge_candidates(c: Seq<Option<Node>>, k: Art, v: Victim, boundary: BoundaryQuality, depth: usize, x: VictimCandidate)
    ensures
        edge_candidates(c, k, v, boundary, depth).contains(x) <==> edge_candidate(c, k, v, boundary, depth, x),
    decreases k, (if k is Inner { k->kids.len() + 2 } else { 2 }),
{
    if !(k is Blob) {
        lemma_candidates(c, k, depth, x);
        let own = VictimCandidate { victim: v, footprint: footprint(c, k), boundary, boundary_depth: depth };
        let rest = if footprint(c, k).bytes > TARGET_CHILD_BYTES {
            candidates(c, k, depth)
        } else {
            seq![]
        };
        lemma_contains_concat(seq![own], rest, x);
        assert(seq![own].contains(x) <==> x == own) by {
            assert(seq![own][0] == own);
        }
    }
}

proof fn lemma_kids_candidates(c: Seq<Option<Node>>, t: Art, depth: usize, n: int, x: VictimCandidate)
    requires
        t is Inner,
        0 <= n <= t->kids.len(),
    ensures
        kids_candidates(c, t, depth, n).contains(x) <==> exists|b: int|
            0 <= b < n && (#[trigger] t->kids[b]) is Some && kid_candidate(c, t, depth, b, x),
    decreases t, n,
{
    let kids = t->kids;
    if n > 0 {
        lemma_kids_candidates(c, t, depth, n - 1, x);
        let own = match kids[n - 1] {
            Some(k) => {
                let v = Victim {
                    parent_slot: slot_of(t) as u16,
                    kind: VictimEdgeKind::Inner(node_type(at(c, slot_of(t))->0)),
                    byte: (n - 1) as u8,
                    victim_slot: slot_of(k) as u16,
                };
                lemma_edge_candidates(c, k, v, byte_boundary((n - 1) as u8), deeper(depth, 1), x);
                edge_candidates(c, k, v, byte_boundary((n - 1) as u8), deeper(depth, 1))
            },
            None => seq![],
        };
        assert(own.contains(x) <==> kids[n - 1] is Some && kid_candidate(c, t, depth, n - 1, x));
        lemma_contains_concat(kids_candidates(c, t, depth, n - 1), own, x);
        if own.contains(x) {
            assert(kids[n - 1] is Some && kid_candidate(c, t, depth, n - 1, x));
        }
        if exists|b: int| 0 <= b < n && (#[trigger] kids[b]) is Some && kid_candidate(c, t, depth, b, x) {
            let b = choose|b: int| 0 <= b < n && (#[trigger] kids[b]) is Some && kid_candidate(c, t, depth, b, x);
            if b < n - 1 {
                assert(kids[b] is Some && kid_candidate(c, t, depth, b, x));
            }
        }
        if exists|b: int| 0 <= b < n - 1 && (#[trigger] kids[b]) is Some && kid_candidate(c, t, depth, b, x) {
            let b = choose|b: int| 0 <= b < n - 1 && (#[trigger] kids[b]) is Some && kid_candidate(c, t, depth, b, x);
            assert(kids[b] is Some && kid_candidate(c, t, depth, b, x));
        }
    }
}

proof fn lemma_contains_concat(a: Seq<VictimCandidate>, b: Seq<VictimCandidate>, x: VictimCandidate)
    ensures
        (a + b).contains(x) <==> a.contains(x) || b.contains(x),
{
    if a.contains(x) {
        let i = choose|i: int| 0 <= i < a.len() && a[i] == x;
        assert((a + b)[i] == x);
    }
    if b.contains(x) {
        let i = choose|i: int| 0 <= i < b.len() && b[i] == x;
        assert((a + b)[a.len() + i] == x);
    }
}

/// A stretch of absent subtrees has no candidates.
proof fn lemma_candidates_skip(c: Seq<Option<Node>>, t: Art, depth: usize, m: int, n: int)
    requires
        t is Inner,
        0 <= m <= n <= t->kids.len(),
        forall|b: int| m <= b < n ==> t->kids[b] is None,
    ensures
        kids_candidates(c, t, depth, m) == kids_candidates(c, t, depth, n),
    decreases n,
{
    if m < n {
        lemma_candidates_skip(c, t, depth, m, n - 1);
        assert(kids_candidates(c, t, depth, n) =~= kids_candidates(c, t, depth, n - 1));
    }
}

/// Considers the candidates below the node at `slot`.
pub fn collect_victim_candidates(
    frame: &BlobFrame,
    slot: u16,
    depth: usize,
    best: &mut Option<VictimCandidate>,
    Ghost(t): Ghost<Art>,
)
    requires
        rep(frame.cells@, t),
        slot_of(t) == slot,
    ensures
        *final(best) == first_best(*old(best), candidates(frame.cells@, t, depth)),
    decreases t, 1int,
{
    proof {
        lemma_rep_root(frame.cells@, t);
    }
    let ghost c = frame.cells@;
    match frame.node_at(slot) {
        Some(Node::Prefix(pf)) => {
            let victim = Victim { parent_slot: slot, kind: VictimEdgeKind::Prefix, byte: 0, victim_slot: pf.child };
            let boundary: BoundaryQuality = boundary_quality_for_prefix(&pf.bytes);
            let child_depth: usize = depth.saturating_add(pf.bytes.len());
            visit_child_edge(frame, victim, boundary, child_depth, best, Ghost(*t->child));
        },
        Some(Node::Leaf(_)) => {},
        Some(Node::EmptyRoot) => {},
        Some(Node::Blob(_)) => {},
        Some(n) => {
            let ghost kids = t->kids;
            let ghost n0 = *n;
            let ntype: NodeType = type_of_node(n);
            let child_depth: usize = depth.saturating_add(1);
            let ghost before = *best;
            let mut from: u16 = 0;
            let mut more: bool = true;
            while more
                invariant
                    rep(frame.cells@, t),
                    c == frame.cells@,
                    t is Inner,
                    slot_of(t) == slot,
                    kids == t->kids,
                    kids.len() == 256,
                    *n == n0,
                    at(frame.cells@, slot_of(t)) == Some(n0),
                    inner_ok(n0),
                    ntype == node_type(n0),
                    child_depth == deeper(depth, 1),
                    0 <= cursor_byte(n0, from as int) <= 256,
                    !more ==> no_kid_from(n0, cursor_byte(n0, from as int)),
                    *best == first_best(before, kids_candidates(c, t, depth, cursor_byte(n0, from as int))),
                decreases more as int, 256 - cursor_byte(n0, from as int),
            {
                let ghost lo = cursor_byte(n0, from as int);
                match next_inner_child_from(n, from) {
                    None => {
                        more = false;
                    },
                    Some((byte, child, next)) => {
                        let ghost b = byte as int;
                        assert(kids[b] is Some);
                        let ghost k = kids[b]->0;
                        let victim = Victim { parent_slot: slot, kind: VictimEdgeKind::Inner(ntype), byte, victim_slot: child };
                        let boundary: BoundaryQuality = boundary_quality_for_byte(byte);
                        visit_child_edge(frame, victim, boundary, child_depth, best, Ghost(k));
                        proof {
                            assert forall|x: int| lo <= x < b implies kids[x] is None by {
                                assert(kid(n0, x) == 0);
                            }
                            lemma_candidates_skip(c, t, depth, lo, b);
                            lemma_first_best_concat(
                                before,
                                kids_candidates(c, t, depth, b),
                                edge_candidates(c, k, victim, boundary, child_depth),
                            );
                        }
                        from = next;
                    },
                }
            }
            proof {
                let lo = cursor_byte(n0, from as int);
                assert forall|x: int| lo <= x < 256 implies kids[x] is None by {
                    assert(kid(n0, x) == 0);
                }
                lemma_candidates_skip(c, t, depth, lo, 256);
            }
        },
        None => {},
    }
}

/// Whether `x` is a candidate through the subtree on `b`.
pub open spec fn kid_candidate(c: Seq<Option<Node>>, t: Art, depth: usize, b: int, x: VictimCandidate) -> bool {
    edge_candidate(
        c,
        t->kids[b]->0,
        Victim {
            parent_slot: slot_of(t) as u16,
            kind: VictimEdgeKind::Inner(node_type(at(c, slot_of(t))->0)),
            byte: b as u8,
            victim_slot: slot_of(t->kids[b]->0) as u16,
        },
        byte_boundary(b as u8),
        deeper(depth, 1),
        x,
    )
}

/// Considers the subtree that `victim` refers to, and what is inside it when
/// it is too large.
pub fn visit_child_edge(
    frame: &BlobFrame,
    victim: Victim,
    boundary: BoundaryQuality,
    boundary_depth: usize,
    best: &mut Option<VictimCandidate>,
    Ghost(k): Ghost<Art>,
)
    requires
        rep(frame.cells@, k),
        slot_of(k) == victim.victim_slot,
    ensures
        *final(best) == first_best(*old(best), edge_candidates(frame.cells@, k, victim, boundary, boundary_depth)),
    decreases k, 2int,
{
    let ghost c = frame.cells@;
    proof {
        lemma_rep_root(frame.cells@, k);
    }
    if let Some(Node::Blob(_)) = frame.node_at(victim.victim_slot) {
        return ;
    }
    let print: SubtreeFootprint = subtree_footprint(frame, victim.victim_slot, Ghost(k));
    let candidate = VictimCandidate { victim, footprint: print, boundary, boundary_depth };
    let replace: bool = match best {
        Some(current) => candidate_is_better(candidate, *current),
        None => true,
    };
    let ghost before = *best;
    if replace {
        *best = Some(candidate);
    }
    proof {
        let own = seq![candidate];
        assert(own.drop_last() =~= seq![]);
        assert(first_best(before, own.drop_last()) == before);
        assert(*best == first_best(before, own));
    }
    if print.bytes > TARGET_CHILD_BYTES {
        collect_victim_candidates(frame, victim.victim_slot, boundary_depth, best, Ghost(k));
        proof {
            lemma_first_best_concat(before, seq![candidate], candidates(c, k, boundary_depth));
        }
    } else {
        proof {
            assert(seq![candidate] + seq![] =~= seq![candidate]);
        }
    }
}

/// The best subtree to move out of a blob; of equally good ones the first in
/// key order.
pub fn pick_victim_subtree(frame: &BlobFrame) -> (r: Result<VictimCandidate>)
    requires
        crate::frame::rooted(frame.cells@, frame.header.root_slot),
    ensures
        match r {
            Ok(x) => {
                &&& comes_first(candidates(frame.cells@, frame.tree(), 0), x)
                &&& is_candidate(frame.cells@, frame.tree(), 0, x)
                &&& forall|y: VictimCandidate| #[trigger] is_candidate(frame.cells@, frame.tree(), 0, y) ==> !better(y, x)
            },
            Err(e) => {
                &&& e is NotYetImplemented
                &&& forall|y: VictimCandidate| !#[trigger] is_candidate(frame.cells@, frame.tree(), 0, y)
            },
        },
{
    let ghost c = frame.cells@;
    let ghost t = frame.tree();
    let ghost s = candidates(c, t, 0);
    let mut best: Option<VictimCandidate> = None;
    collect_victim_candidates(frame, frame.header.root_slot, 0, &mut best, Ghost(t));
    proof {
        lemma_first_best(s);
    }
    match best {
        Some(x) => {
            proof {
                assert(s.contains(x));
                lemma_candidates(c, t, 0, x);
            }
            assert forall|y: VictimCandidate| #[trigger] is_candidate(c, t, 0, y) implies !better(y, x) by {
                lemma_candidates(c, t, 0, y);
            }
            Ok(x)
        },
        None => {
            assert forall|y: VictimCandidate| !#[trigger] is_candidate(c, t, 0, y) by {
                lemma_candidates(c, t, 0, y);
            }
            Err(Error::NotYetImplemented("no subtree left to move out"))
        },
    }
}

/// Whether `t` has the reference `v`.
pub open spec fn has_edge(t: Art, v: Victim) -> bool
    decreases t,
{
    match t {
        Art::Prefix { child, .. } => edge_here(t, v) || has_edge(*child, v),
        Art::Inner { kids, .. } => edge_here(t, v) || exists|b: int|
            0 <= b < kids.len() && (#[trigger] kids[b]) is Some && has_edge(kids[b]->0, v),
        _ => false,
    }
}

/// Whether the reference `v` starts at the root of `t`.
pub open spec fn edge_here(t: Art, v: Victim) -> bool {
    &&& slot_of(t) == v.parent_slot
    &&& match t {
        Art::Prefix { child, .. } => v.kind is Prefix && slot_of(*child) == v.victim_slot,
        Art::Inner { kids, .. } => {
            &&& v.kind is Inner
            &&& kids.len() == 256
            &&& kids[v.byte as int] is Some
            &&& slot_of(kids[v.byte as int]->0) == v.victim_slot
        },
        _ => false,
    }
}

/// The branch that the reference `v` lies below.
pub open spec fn edge_kid(kids: Seq<Option<Art>>, v: Victim) -> int {
    choose|b: int| 0 <= b < kids.len() && (#[trigger] kids[b]) is Some && has_edge(kids[b]->0, v)
}

/// The subtree that the reference `v` leads to.
pub open spec fn cut(t: Art, v: Victim) -> Art
    decreases t,
{
    match t {
        Art::Prefix { child, .. } => if edge_here(t, v) {
            *child
        } else {
            cut(*child, v)
        },
        Art::Inner { kids, .. } => {
            let b = edge_kid(kids, v);
            if edge_here(t, v) {
                kids[v.byte as int]->0
            } else if 0 <= b < kids.len() && kids[b] is Some {
                cut(kids[b]->0, v)
            } else {
                t
            }
        },
        _ => t,
    }
}

/// The bytes that lead to the subtree of `v`.
pub open spec fn path_to(t: Art, v: Victim) -> Seq<u8>
    decreases t,
{
    match t {
        Art::Prefix { bytes, child, .. } => if edge_here(t, v) {
            bytes
        } else {
            bytes + path_to(*child, v)
        },
        Art::Inner { kids, .. } => {
            let b = edge_kid(kids, v);
            if edge_here(t, v) {
                seq![v.byte]
            } else if 0 <= b < kids.len() && kids[b] is Some {
                seq![b as u8] + path_to(kids[b]->0, v)
            } else {
                Seq::empty()
            }
        },
        _ => Seq::empty(),
    }
}

/// `t` with the subtree of `v` exchanged for `u`.
pub open spec fn graft(t: Art, v: Victim, u: Art) -> Art
    decreases t,
{
    match t {
        Art::Prefix { slot, bytes, child } => if edge_here(t, v) {
            Art::Prefix { slot, bytes, child: Box::new(u) }
        } else {
            Art::Prefix { slot, bytes, child: Box::new(graft(*child, v, u)) }
        },
        Art::Inner { kids, .. } => {
            let b = edge_kid(kids, v);
            if edge_here(t, v) {
                with_kid(t, v.byte, u)
            } else if 0 <= b < kids.len() && kids[b] is Some {
                with_kid(t, b as u8, graft(kids[b]->0, v, u))
            } else {
                t
            }
        },
        _ => t,
    }
}

/// A subtree that is moved out is led to by at least one byte.
proof fn lemma_path_to(c: Seq<Option<Node>>, t: Art, v: Victim)
    requires
        rep(c, t),
        has_edge(t, v),
    ensures
        path_to(t, v).len() > 0,
    decreases t,
{
    if let Art::Inner { kids, .. } = t {
        if !edge_here(t, v) {
            let b = edge_kid(kids, v);
            assert(kids[b] is Some);
        }
    }
}

/// Exchanging a subtree exchanges its blob nodes.
proof fn lemma_graft_blobs(c: Seq<Option<Node>>, t: Art, v: Victim, u: Art)
    requires
        rep(c, t),
        has_edge(t, v),
    ensures
        blob_nodes(graft(t, v, u)) + blob_nodes(cut(t, v)) == blob_nodes(t) + blob_nodes(u),
    decreases t,
{
    match t {
        Art::Prefix { child, .. } => if !edge_here(t, v) {
            lemma_graft_blobs(c, *child, v, u);
        },
        Art::Inner { kids, .. } => {
            let b = edge_kid(kids, v);
            if edge_here(t, v) {
                lemma_blob_nodes_update(kids, v.byte as int, Some(u), kids.len() as int);
            } else {
                assert(kids[b] is Some);
                lemma_graft_blobs(c, kids[b]->0, v, u);
                lemma_blob_nodes_update(kids, b, Some(graft(kids[b]->0, v, u)), kids.len() as int);
            }
        },
        _ => {},
    }
}

/// A tree whose root is no blob node has no blob node at its root.
proof fn lemma_not_blob(c: Seq<Option<Node>>, k: Art)
    requires
        rep(c, k),
        !(k is Blob),
    ensures
        !(at(c, slot_of(k)) matches Some(Node::Blob(_))),
        slot_of(k) as u16 == slot_of(k),
{
    if k is Inner {
        assert(inner_ok(at(c, slot_of(k))->0));
    }
}

/// Every candidate is a reference of the tree.
pub proof fn lemma_candidate_edge(c: Seq<Option<Node>>, t: Art, depth: usize, x: VictimCandidate)
    requires
        rep(c, t),
        is_candidate(c, t, depth, x),
    ensures
        has_edge(t, x.victim),
        !(at(c, x.victim.victim_slot as int) matches Some(Node::Blob(_))),
    decreases t,
{
    match t {
        Art::Prefix { slot, bytes, child } => {
            let v0 = Victim { parent_slot: slot as u16, kind: VictimEdgeKind::Prefix, byte: 0, victim_slot: slot_of(*child) as u16 };
            let d2 = deeper(depth, bytes.len() as int);
            assert(edge_candidate(c, *child, v0, run_boundary(bytes), d2, x));
            if x.victim != v0 {
                lemma_candidate_edge(c, *child, d2, x);
            } else {
                assert(edge_here(t, x.victim));
                lemma_not_blob(c, *child);
            }
        },
        Art::Inner { slot, kids } => {
            let b = choose|b: int| 0 <= b < kids.len() && (#[trigger] kids[b]) is Some && kid_candidate(c, t, depth, b, x);
            let k = kids[b]->0;
            assert(rep(c, k));
            let v0 = Victim {
                parent_slot: slot as u16,
                kind: VictimEdgeKind::Inner(node_type(at(c, slot)->0)),
                byte: b as u8,
                victim_slot: slot_of(k) as u16,
            };
            if x.victim != v0 {
                lemma_candidate_edge(c, k, deeper(depth, 1), x);
                let b2 = edge_kid(kids, x.victim);
                assert(0 <= b2 < kids.len() && kids[b2] is Some && has_edge(kids[b2]->0, x.victim));
            } else {
                assert(edge_here(t, x.victim));
                lemma_not_blob(c, k);
            }
        },
        _ => {},
    }
}

/// A reference's source belongs to the tree.
pub proof fn lemma_edge_owned(t: Art, v: Victim)
    requires
        has_edge(t, v),
    ensures
        owns(t, v.parent_slot as int),
    decreases t,
{
    if !edge_here(t, v) {
        match t {
            Art::Prefix { child, .. } => lemma_edge_owned(*child, v),
            Art::Inner { kids, .. } => {
                let b = edge_kid(kids, v);
                lemma_edge_owned(kids[b]->0, v);
            },
            _ => {},
        }
    }
}

/// The subtree of a reference is a tree of its own.
pub proof fn lemma_cut(c: Seq<Option<Node>>, t: Art, v: Victim, path: Seq<u8>)
    requires
        rep(c, t),
        sep(t),
        keyed(t, path),
        has_edge(t, v),
    ensures
        rep(c, cut(t, v)),
        sep(cut(t, v)),
        keyed(cut(t, v), path + path_to(t, v)),
        slot_of(cut(t, v)) == v.victim_slot,
        forall|s: int| #[trigger] owns(cut(t, v), s) ==> owns(t, s),
        dead(cut(t, v)) <= dead(t),
    decreases t,
{
    match t {
        Art::Prefix { bytes, child, .. } => {
            if !edge_here(t, v) {
                lemma_cut(c, *child, v, path + bytes);
                assert(path + bytes + path_to(*child, v) =~= path + (bytes + path_to(*child, v)));
            }
        },
        Art::Inner { kids, .. } => {
            let b = if edge_here(t, v) { v.byte as int } else { edge_kid(kids, v) };
            let k = kids[b]->0;
            assert(kids[b] is Some);
            assert(dead_kids_hold(kids, b));
            lemma_dead_one(kids, b, 256);
            if edge_here(t, v) {
                assert(path + seq![v.byte] =~= path.push(v.byte));
                assert forall|s: int| #[trigger] owns(cut(t, v), s) implies owns(t, s) by {
                    assert(owns(kids[b]->0, s));
                }
            } else {
                lemma_cut(c, k, v, path.push(b as u8));
                assert(path.push(b as u8) + path_to(k, v) =~= path + (seq![b as u8] + path_to(k, v)));
                assert forall|s: int| #[trigger] owns(cut(t, v), s) implies owns(t, s) by {
                    assert(owns(kids[b]->0, s));
                }
            }
        },
        _ => {},
    }
}

/// Whether branch `b` is taken.
spec fn dead_kids_hold(kids: Seq<Option<Art>>, b: int) -> bool {
    0 <= b < kids.len() && kids[b] is Some
}

/// One subtree has no more deleted leaves than all together.
proof fn lemma_dead_one(kids: Seq<Option<Art>>, b: int, n: int)
    requires
        dead_kids_hold(kids, b),
        b < n <= kids.len(),
    ensures
        dead(kids[b]->0) <= crate::art::dead_kids(kids, n),
    decreases n,
{
    if b < n - 1 {
        lemma_dead_one(kids, b, n - 1);
    }
}

/// Whether `c2` is `c` with the reference `v` led to the new node `u`.
pub open spec fn repointed(c: Seq<Option<Node>>, c2: Seq<Option<Node>>, v: Victim, u: Art) -> bool {
    let p = v.parent_slot as int;
    &&& u is Blob
    &&& at(c, slot_of(u)) is None
    &&& rep(c2, u)
    &&& forall|s: int| s != p && (#[trigger] at(c, s)) is Some ==> at(c2, s) == at(c, s)
    &&& match at(c, p) {
        Some(Node::Prefix(x)) => at(c2, p) matches Some(Node::Prefix(y)) && y.bytes@ == x.bytes@ && y.child == slot_of(u),
        Some(n) => at(c2, p) matches Some(n2) && inner_ok(n2) && kid_update(n, n2, v.byte as int, slot_of(u) as u16),
        None => false,
    }
}

/// Leading a reference to a blob node exchanges its subtree.
pub proof fn lemma_graft(c: Seq<Option<Node>>, c2: Seq<Option<Node>>, t: Art, v: Victim, u: Art, path: Seq<u8>)
    requires
        rep(c, t),
        sep(t),
        keyed(t, path),
        has_edge(t, v),
        repointed(c, c2, v, u),
    ensures
        rep(c2, graft(t, v, u)),
        sep(graft(t, v, u)),
        keyed(graft(t, v, u), path),
        edits(c, t, c2, graft(t, v, u)),
        slot_of(graft(t, v, u)) == slot_of(t),
        dead(graft(t, v, u)) == dead(t) - dead(cut(t, v)),
    decreases t,
{
    let p = v.parent_slot as int;
    lemma_edge_owned(t, v);
    crate::art::lemma_owns_present(c, t, p);
    let c1 = c2.update(p, at(c, p));
    assert(at(c2, p) is Some);
    assert forall|s: int| s != p implies #[trigger] at(c1, s) == at(c2, s) by {}
    assert(slot_of(u) != p);
    match t {
        Art::Prefix { bytes, child, .. } => {
            let k = *child;
            if edge_here(t, v) {
                assert(rep(c1, u)) by {
                    assert(at(c1, slot_of(u)) == at(c2, slot_of(u)));
                }
                assert(edits(c, k, c1, u)) by {
                    assert forall|s: int| (#[trigger] at(c, s)) is Some && !owns(k, s) implies at(c1, s) == at(c, s) by {
                        if s != p {
                            assert(at(c1, s) == at(c2, s));
                        }
                    }
                }
                lemma_replug_prefix(c, c1, c2, t, u, path);
            } else {
                lemma_graft(c, c2, k, v, u, path + bytes);
                lemma_edge_owned(k, v);
                assert(slot_of(t) != p);
                assert(at(c2, slot_of(t)) == at(c, slot_of(t))) by {
                    assert(at(c, slot_of(t)) is Some);
                }
                lemma_replug_prefix(c, c2, c2, t, graft(k, v, u), path);
            }
        },
        Art::Inner { kids, .. } => {
            let n = at(c, slot_of(t))->0;
            assert(inner_ok(n));
            if edge_here(t, v) {
                let k = kids[v.byte as int]->0;
                assert(rep(c1, u)) by {
                    assert(at(c1, slot_of(u)) == at(c2, slot_of(u)));
                }
                assert(edits(c, k, c1, u)) by {
                    assert forall|s: int| (#[trigger] at(c, s)) is Some && !owns(k, s) implies at(c1, s) == at(c, s) by {
                        if s != p {
                            assert(at(c1, s) == at(c2, s));
                        }
                    }
                }
                lemma_replug_inner(c, c1, c2, t, v.byte, u, path);
            } else {
                let b = edge_kid(kids, v);
                let k = kids[b]->0;
                assert(kids[b] is Some && has_edge(k, v));
                lemma_graft(c, c2, k, v, u, path.push(b as u8));
                lemma_edge_owned(k, v);
                assert(!owns(kids[b]->0, slot_of(t)));
                assert(slot_of(t) != p);
                assert(at(c2, slot_of(t)) == at(c, slot_of(t))) by {
                    assert(at(c, slot_of(t)) is Some);
                }
                assert(kid_update(n, n, b, slot_of(graft(k, v, u)) as u16)) by {
                    assert(kid(n, b) == slot_of(k));
                }
                lemma_replug_inner(c, c2, c2, t, b as u8, graft(k, v, u), path);
            }
        },
        _ => {},
    }
}

/// Whether a key led by `was` is led by `now` after the subtree `k` below
/// `via` moved to blob `guid`: to the same place, or into that blob, where
/// it is led as before.
pub open spec fn moved(was: Route, now: Route, k: Art, guid: BlobGuid, via: Seq<u8>, key: Seq<u8>, d: int) -> bool {
    if now == was {
        true
    } else {
        let e = d + via.len();
        now == (Route::Crossing { guid, depth: e }) && matches_at(key, d, via) && step(k, key, e) == was
    }
}

/// Where keys lead after a subtree moved to a blob of its own.
pub proof fn lemma_graft_step(c: Seq<Option<Node>>, t: Art, v: Victim, u: Art, key: Seq<u8>, d: int)
    requires
        rep(c, t),
        has_edge(t, v),
        u is Blob,
        u->Blob_bytes.len() == 0,
        0 <= d <= key.len(),
    ensures
        moved(step(t, key, d), step(graft(t, v, u), key, d), cut(t, v), u->guid, path_to(t, v), key, d),
    decreases t,
{
    assert(u->Blob_bytes =~= Seq::<u8>::empty());
    match t {
        Art::Prefix { bytes, child, .. } => {
            if matches_at(key, d, bytes) {
                let e = d + bytes.len();
                let k2 = if edge_here(t, v) { u } else { graft(*child, v, u) };
                assert(graft(t, v, u)->child == Box::new(k2));
                assert(step(graft(t, v, u), key, d) == step(k2, key, e));
                if edge_here(t, v) {
                    assert(key.subrange(e, e) =~= Seq::<u8>::empty());
                    assert(step(u, key, e) == (Route::Crossing { guid: u->guid, depth: e }));
                    assert(step(t, key, d) == step(cut(t, v), key, e));
                    assert(path_to(t, v) == bytes);
                } else {
                    assert(step(t, key, d) == step(*child, key, e));
                    lemma_graft_step(c, *child, v, u, key, e);
                    lemma_matches_concat(key, d, bytes, path_to(*child, v));
                    assert(path_to(t, v).len() == bytes.len() + path_to(*child, v).len());
                    assert(cut(t, v) == cut(*child, v));
                }
            } else {
                assert(step(graft(t, v, u), key, d) is NotFound);
            }
        },
        Art::Inner { kids, .. } => {
            let b = if edge_here(t, v) { v.byte as int } else { edge_kid(kids, v) };
            assert(0 <= b < kids.len() && kids[b] is Some);
            if 0 <= d < key.len() && key[d] < kids.len() && key[d] == b {
                let k = kids[b]->0;
                assert(key.subrange(d, d + 1) =~= seq![b as u8]);
                if edge_here(t, v) {
                    assert(key.subrange(d + 1, d + 1) =~= Seq::<u8>::empty());
                    assert(step(u, key, d + 1) == (Route::Crossing { guid: u->guid, depth: d + 1 }));
                } else {
                    lemma_graft_step(c, k, v, u, key, d + 1);
                    lemma_matches_concat(key, d, seq![b as u8], path_to(k, v));
                }
            }
        },
        _ => {},
    }
}

/// A key that goes the way to a subtree is led by the subtree.
pub proof fn lemma_cut_step(c: Seq<Option<Node>>, t: Art, v: Victim, key: Seq<u8>, d: int)
    requires
        rep(c, t),
        has_edge(t, v),
        matches_at(key, d, path_to(t, v)),
    ensures
        step(cut(t, v), key, d + path_to(t, v).len()) == step(t, key, d),
    decreases t,
{
    match t {
        Art::Prefix { bytes, child, .. } => {
            if !edge_here(t, v) {
                lemma_matches_concat(key, d, bytes, path_to(*child, v));
                lemma_cut_step(c, *child, v, key, d + bytes.len());
                assert(step(t, key, d) == step(*child, key, d + bytes.len()));
            }
        },
        Art::Inner { kids, .. } => {
            let b = if edge_here(t, v) { v.byte as int } else { edge_kid(kids, v) };
            assert(0 <= b < kids.len() && kids[b] is Some);
            let head = seq![b as u8];
            if !edge_here(t, v) {
                lemma_matches_concat(key, d, head, path_to(kids[b]->0, v));
            }
            assert(matches_at(key, d, head));
            assert(key.subrange(d, d + 1)[0] == head[0]);
            assert(key[d] == b);
            assert(step(t, key, d) == step(kids[b]->0, key, d + 1));
            if !edge_here(t, v) {
                lemma_cut_step(c, kids[b]->0, v, key, d + 1);
            }
        },
        _ => {},
    }
}

/// Counts the bytes of a subtree that no longer belongs to the tree.
pub fn free_subtree(frame: &mut BlobFrame, slot: u16, Ghost(t): Ghost<Art>)
    requires
        rep(old(frame).cells@, t),
        slot_of(t) == slot,
    ensures
        final(frame).cells@ == old(frame).cells@,
        final(frame).arena_end == old(frame).arena_end,
        final(frame).header == (BlobHeader { dead_bytes: final(frame).header.dead_bytes, ..old(frame).header }),
        final(frame).header.dead_bytes == clamp(
            old(frame).header.dead_bytes + budget(old(frame).cells@, t, false).routing + budget(old(frame).cells@, t, false).leaf,
        ),
    decreases t,
{
    let ghost f0 = *frame;
    let ghost c = frame.cells@;
    proof {
        lemma_rep_root(c, t);
        lemma_budget_sign(c, t, false);
    }
    match frame.node_at(slot) {
        Some(Node::Prefix(p)) => {
            let child: u16 = p.child;
            proof {
                lemma_budget_sign(c, *t->child, false);
            }
            free_subtree(frame, child, Ghost(*t->child));
        },
        Some(Node::Leaf(_)) => {},
        Some(Node::EmptyRoot) => {},
        Some(Node::Blob(_)) => {},
        Some(n) => {
            let ghost kids = t->kids;
            let node: Node = crate::erase::copy_inner(n);
            let ghost n0 = at(c, slot_of(t))->0;
            let mut from: u16 = 0;
            let mut more: bool = true;
            while more
                invariant
                    rep(c, t),
                    frame.cells@ == c,
                    f0.cells@ == c,
                    frame.arena_end == f0.arena_end,
                    frame.header == (BlobHeader { dead_bytes: frame.header.dead_bytes, ..f0.header }),
                    t is Inner,
                    kids == t->kids,
                    kids.len() == 256,
                    node == n0,
                    at(c, slot_of(t)) == Some(n0),
                    inner_ok(n0),
                    0 <= cursor_byte(n0, from as int) <= 256,
                    !more ==> no_kid_from(n0, cursor_byte(n0, from as int)),
                    frame.header.dead_bytes == clamp(
                        f0.header.dead_bytes + budget_kids(c, kids, cursor_byte(n0, from as int), false).routing + budget_kids(
                            c,
                            kids,
                            cursor_byte(n0, from as int),
                            false,
                        ).leaf,
                    ),
                decreases more as int, 256 - cursor_byte(n0, from as int),
            {
                let ghost lo = cursor_byte(n0, from as int);
                match next_inner_child_from(&node, from) {
                    None => {
                        more = false;
                    },
                    Some((byte, child, next)) => {
                        let ghost b = byte as int;
                        assert(kids[b] is Some);
                        let ghost k = kids[b]->0;
                        proof {
                            assert forall|x: int| lo <= x < b implies kids[x] is None by {
                                assert(kid(n0, x) == 0);
                            }
                            lemma_kids_skip(c, kids, lo, b, false);
                            lemma_budget_kids_sign(c, t, b, false);
                            lemma_budget_sign(c, k, false);
                        }
                        free_subtree(frame, child, Ghost(k));
                        from = next;
                    },
                }
            }
            proof {
                let lo = cursor_byte(n0, from as int);
                assert forall|x: int| lo <= x < 256 implies kids[x] is None by {
                    assert(kid(n0, x) == 0);
                }
                lemma_kids_skip(c, kids, lo, 256, false);
                lemma_budget_kids_sign(c, t, 256, false);
            }
        },
        None => {},
    }
    frame.note_abandoned(slot);
}

/// A subtree that was moved out of its blob.
pub struct Spilled {
    /// The blob node left in its place.
    pub blob_node: u16,
    /// The subtree's new blob.
    pub child: BlobFrame,
    /// The key bytes that lead to it.
    pub path: Ghost<Seq<u8>>,
}

/// A subtree that could not be moved out of its blob.
pub struct Stranded {
    pub error: Error,
    /// The blob that it was copied to, if only the blob node found no place.
    pub child: Option<BlobFrame>,
    /// The key bytes that lead to it.
    pub path: Ghost<Seq<u8>>,
}

/// Whether `child` is the best subtree of `f0`, reached there by `via`, copied
/// to blob `guid`, and `f` is `f0` with the subtree counted as abandoned.
pub open spec fn copied_out(f0: BlobFrame, f: BlobFrame, guid: BlobGuid, child: BlobFrame, via: Seq<u8>) -> bool {
    &&& child.sound()
    &&& child.header.blob_guid == guid
    &&& forall|path: Seq<u8>| #[trigger] f0.wf(path) ==> child.wf(path + via)
    &&& forall|key: Seq<u8>, d: int| #[trigger] matches_at(key, d, via) ==> child.route(key, d + via.len()) == f0.route(key, d)
    &&& exists|x: VictimCandidate| #[trigger]
        is_best(f0, x) && path_to(f0.tree(), x.victim) == via && new_blob_header(
            child.header,
            dead(cut(f0.tree(), x.victim)),
            budget(f0.cells@, cut(f0.tree(), x.victim), false),
        ) && f.header.dead_bytes == clamp(
            f0.header.dead_bytes + budget(f0.cells@, cut(f0.tree(), x.victim), false).routing + budget(
                f0.cells@,
                cut(f0.tree(), x.victim),
                false,
            ).leaf,
        )
}

/// Whether moving a subtree of `f0` to blob `guid` gave `f` and `out`.
pub open spec fn spilled(f0: BlobFrame, f: BlobFrame, guid: BlobGuid, out: Spilled) -> bool {
    &&& out.child.sound()
    &&& out.path@.len() > 0
    &&& out.child.header.blob_guid == guid
    &&& f.header.blob_guid == f0.header.blob_guid
    &&& f.header.created_epoch == f0.header.created_epoch
    &&& forall|path: Seq<u8>| f0.wf(path) ==> #[trigger] f.wf(path) && out.child.wf(path + out.path@)
    &&& f.header.tombstone_leaf_cnt + out.child.header.tombstone_leaf_cnt == f0.header.tombstone_leaf_cnt
    &&& forall|key: Seq<u8>, d: int| 0 <= d <= key.len() ==> moved(
        f0.route(key, d),
        #[trigger] f.route(key, d),
        out.child.tree(),
        guid,
        out.path@,
        key,
        d,
    )
    &&& forall|key: Seq<u8>, d: int| #[trigger] matches_at(key, d, out.path@) ==> out.child.route(key, d + out.path@.len()) == f0.route(key, d)
    &&& exists|x: VictimCandidate| #[trigger]
        is_best(f0, x) && path_to(f0.tree(), x.victim) == out.path@ && split_headers(f0, f, out.child, cut(f0.tree(), x.victim))
}

/// Whether the headers are as a split that moves `k` out of `f0` into `child`
/// leaves them: the parent has one blob node more, and what moved out is
/// abandoned there.
pub open spec fn split_headers(f0: BlobFrame, f: BlobFrame, child: BlobFrame, k: Art) -> bool {
    let b = budget(f0.cells@, k, false);
    &&& f.header == (BlobHeader {
        space_used: (f0.header.space_used + BLOB_NODE_SIZE) as u32,
        num_slots: (f0.header.num_slots + 1) as u32,
        dead_bytes: clamp(f0.header.dead_bytes + b.routing + b.leaf) as u32,
        tombstone_leaf_cnt: (f0.header.tombstone_leaf_cnt - dead(k)) as u32,
        num_ext_blobs: clamp(f0.header.num_ext_blobs + 1) as u32,
        ..f0.header
    })
    &&& new_blob_header(child.header, dead(k), b)
}

/// Whether the subtree of `x` is the one to move out of a blob: none is
/// better, and none before it in key order is as good.
pub open spec fn is_best(f: BlobFrame, x: VictimCandidate) -> bool {
    &&& comes_first(candidates(f.cells@, f.tree(), 0), x)
    &&& is_candidate(f.cells@, f.tree(), 0, x)
    &&& has_edge(f.tree(), x.victim)
    &&& !(cut(f.tree(), x.victim) is Blob)
    &&& forall|y: VictimCandidate| #[trigger] is_candidate(f.cells@, f.tree(), 0, y) ==> !better(y, x)
}

/// Whether the subtree to move out of a blob does not fit a blob of its own.
pub open spec fn best_overflows(f: BlobFrame) -> bool {
    exists|x: VictimCandidate| #[trigger] is_best(f, x) && !blob_takes(budget(f.cells@, cut(f.tree(), x.victim), false))
}

/// Whether a subtree can be moved out of a blob: there is one to move, and
/// there is room for what refers to it.
pub open spec fn splittable(f: BlobFrame) -> bool {
    &&& f.has_room(BLOB_NODE_SIZE as int, true)
    &&& exists|x: VictimCandidate| #[trigger] is_candidate(f.cells@, f.tree(), 0, x)
}

/// A subtree takes less than the tree: the node that refers to it is no part
/// of it.
pub proof fn lemma_cut_budget(c: Seq<Option<Node>>, t: Art, v: Victim)
    requires
        rep(c, t),
        has_edge(t, v),
    ensures
        ({
            let a = budget(c, cut(t, v), false);
            let b = budget(c, t, false);
            &&& a.routing + a.leaf + EMPTY_ROOT_SIZE <= b.routing + b.leaf
            &&& a.nodes < b.nodes
        }),
    decreases t,
{
    match t {
        Art::Prefix { child, .. } => {
            if !edge_here(t, v) {
                lemma_cut_budget(c, *child, v);
            }
        },
        Art::Inner { slot, kids } => {
            let b = if edge_here(t, v) { v.byte as int } else { edge_kid(kids, v) };
            assert(kids[b] is Some);
            crate::extent::lemma_size_positive(at(c, slot)->0);
            lemma_budget_kids_sign(c, t, b, false);
            crate::migrate::lemma_budget_kids_mono(c, t, b + 1, kids.len() as int, false);
            if !edge_here(t, v) {
                lemma_cut_budget(c, kids[b]->0, v);
            }
        },
        _ => {},
    }
}

/// While there is room for a blob node, every subtree fits a blob of its own.
pub proof fn subtrees_fit_a_blob(f: BlobFrame, v: Victim)
    requires
        f.sound(),
        f.has_room(BLOB_NODE_SIZE as int, true),
        has_edge(f.tree(), v),
    ensures
        blob_takes(budget(f.cells@, cut(f.tree(), v), false)),
{
    lemma_cut_budget(f.cells@, f.tree(), v);
    crate::extent::tree_fits_used_space(f);
}

/// A tree whose root has a child in the same blob has a candidate, and no
/// other has.
proof fn lemma_movable(c: Seq<Option<Node>>, t: Art, depth: usize)
    ensures
        (exists|x: VictimCandidate| #[trigger] is_candidate(c, t, depth, x)) <==> movable(t),
{
    match t {
        Art::Prefix { slot, bytes, child } => {
            let x = VictimCandidate {
                victim: Victim { parent_slot: slot as u16, kind: VictimEdgeKind::Prefix, byte: 0, victim_slot: slot_of(*child) as u16 },
                footprint: footprint(c, *child),
                boundary: run_boundary(bytes),
                boundary_depth: deeper(depth, bytes.len() as int),
            };
            if movable(t) {
                assert(is_candidate(c, t, depth, x));
            }
        },
        Art::Inner { slot, kids } => {
            if movable(t) {
                let b = choose|b: int| 0 <= b < kids.len() && (#[trigger] kids[b]) is Some && !(kids[b]->0 is Blob);
                let x = VictimCandidate {
                    victim: Victim {
                        parent_slot: slot as u16,
                        kind: VictimEdgeKind::Inner(node_type(at(c, slot)->0)),
                        byte: b as u8,
                        victim_slot: slot_of(kids[b]->0) as u16,
                    },
                    footprint: footprint(c, kids[b]->0),
                    boundary: byte_boundary(b as u8),
                    boundary_depth: deeper(depth, 1),
                };
                assert(is_candidate(c, t, depth, x));
            }
        },
        _ => {},
    }
}

/// Whether the root of `t` has a child that is in the same blob.
spec fn movable(t: Art) -> bool {
    match t {
        Art::Prefix { child, .. } => !(*child is Blob),
        Art::Inner { kids, .. } => exists|b: int| 0 <= b < kids.len() && (#[trigger] kids[b]) is Some && !(kids[b]->0 is Blob),
        _ => false,
    }
}

/// A blob can be split as another with the same tree.
pub proof fn lemma_splittable_kept(f0: BlobFrame, f: BlobFrame)
    requires
        f.tree() == f0.tree(),
        splittable(f0),
        f.has_room(BLOB_NODE_SIZE as int, true),
    ensures
        splittable(f),
{
    lemma_movable(f0.cells@, f0.tree(), 0);
    lemma_movable(f.cells@, f0.tree(), 0);
}

/// Moves the best subtree out of a blob into a new blob named `new_guid`
/// and leaves a blob node in its place. No key leads elsewhere. A blob without
/// room for the blob node keeps the subtree; the copy made of it is given back
/// with the error.
pub fn spillover_blob(frame: &mut BlobFrame, new_guid: BlobGuid) -> (r: core::result::Result<Spilled, Stranded>)
    requires
        exists|path: Seq<u8>| old(frame).wf(path),
    ensures
        match r {
            Ok(out) => spilled(*old(frame), *final(frame), new_guid, out),
            Err(Stranded { error: e, child, path }) => {
                &&& child matches Some(c) ==> e is Alloc && !old(frame).has_room(BLOB_NODE_SIZE as int, true) && copied_out(
                    *old(frame),
                    *final(frame),
                    new_guid,
                    c,
                    path@,
                )
                &&& child is None ==> *final(frame) == *old(frame)
                &&& child is None && e is Alloc ==> best_overflows(*old(frame))
                &&& final(frame).cells@ == old(frame).cells@
                &&& final(frame).arena_end == old(frame).arena_end
                &&& final(frame).header == (BlobHeader { dead_bytes: final(frame).header.dead_bytes, ..old(frame).header })
                &&& e is NotYetImplemented <==> forall|x: VictimCandidate| !#[trigger] is_candidate(
                    old(frame).cells@,
                    old(frame).tree(),
                    0,
                    x,
                )
                &&& !(e is NotYetImplemented) ==> e is Alloc && !old(frame).has_room(BLOB_NODE_SIZE as int, true)
            },
        },
{
    let ghost f0 = *frame;
    let ghost t = frame.tree();
    let ghost path0 = choose|path: Seq<u8>| frame.wf(path);
    let best: VictimCandidate = match pick_victim_subtree(frame) {
        Ok(x) => x,
        Err(error) => {
            return Err(Stranded { error, child: None, path: Ghost(Seq::empty()) });
        },
    };
    let victim: Victim = best.victim;
    let ghost v = best.victim;
    let ghost k = cut(t, v);
    proof {
        lemma_candidate_edge(frame.cells@, t, 0, best);
        lemma_cut(frame.cells@, t, v, path0);
        assert(!(k is Blob));
        crate::frame::lemma_tree_at(frame.cells@, k);
        crate::art::lemma_owns_present(frame.cells@, k, slot_of(k));
        assert(is_best(f0, best));
        if f0.has_room(BLOB_NODE_SIZE as int, true) {
            subtrees_fit_a_blob(f0, v);
        }
    }
    assert(frame.cells@.len() <= 56833);
    let src_off: u32 = crate::layout::decode_child_off(victim.victim_slot);
    let out = match make_blob_from_node(frame, src_off, new_guid) {
        Ok(x) => x,
        Err(error) => {
            return Err(Stranded { error, child: None, path: Ghost(Seq::empty()) });
        },
    };
    proof {
        lemma_path_to(f0.cells@, t, v);
        assert forall|path: Seq<u8>| #[trigger] f0.wf(path) implies out.buf.wf(path + path_to(t, v)) by {
            lemma_cut(f0.cells@, t, v, path);
        }
        assert forall|key: Seq<u8>, d: int| #[trigger] matches_at(key, d, path_to(t, v)) implies out.buf.route(key, d + path_to(t, v).len())
            == f0.route(key, d) by {
            lemma_cut_step(f0.cells@, t, v, key, d);
        }
    }
    let moved_dead: u32 = count_tombstones(frame, victim.victim_slot, Ghost(k));
    free_subtree(frame, victim.victim_slot, Ghost(k));
    let ghost f1 = *frame;
    let bn: u16 = match frame.alloc_node(Node::Blob(BlobNode { bytes: Vec::new(), child_blob_guid: new_guid })) {
        Ok(s) => s,
        Err(error) => {
            assert(copied_out(f0, *frame, new_guid, out.buf, path_to(t, v)));
            return Err(Stranded { error, child: Some(out.buf), path: Ghost(path_to(t, v)) });
        },
    };
    let ghost f2 = *frame;
    let ghost u = Art::Blob { slot: bn as int, bytes: Seq::empty(), guid: new_guid };
    proof {
        lemma_edge_owned(t, v);
        crate::art::lemma_owns_present(f0.cells@, t, v.parent_slot as int);
        assert(at(f1.cells@, v.parent_slot as int) is Some);
        assert(at(f2.cells@, v.parent_slot as int) == at(f0.cells@, v.parent_slot as int));
        lemma_edge_node(f0.cells@, t, v);
    }
    repoint(frame, victim, bn);
    frame.header.tombstone_leaf_cnt = frame.header.tombstone_leaf_cnt - moved_dead;
    proof {
        let f = *frame;
        assert(repointed(f0.cells@, f.cells@, v, u)) by {
            assert(at(f.cells@, bn as int) == at(f2.cells@, bn as int));
            assert forall|s: int| s != v.parent_slot && (#[trigger] at(f0.cells@, s)) is Some implies at(f.cells@, s) == at(f0.cells@, s) by {
                assert(at(f2.cells@, s) == at(f0.cells@, s));
                assert(at(f.cells@, s) == at(f2.cells@, s));
            }
            assert(at(f0.cells@, bn as int) is None);
        }
        lemma_graft(f0.cells@, f.cells@, t, v, u, path0);
        let g = graft(t, v, u);
        f.lemma_tree(g);
        lemma_graft_blobs(f0.cells@, t, v, u);
        lemma_path_to(f0.cells@, t, v);
        crate::art::lemma_dead_bound(f.cells@, g);
        assert forall|path: Seq<u8>| f0.wf(path) implies #[trigger] f.wf(path) && out.buf.wf(path + path_to(t, v)) by {
            lemma_graft(f0.cells@, f.cells@, t, v, u, path);
            lemma_cut(f0.cells@, t, v, path);
        }
        assert forall|key: Seq<u8>, d: int| 0 <= d <= key.len() implies moved(
            f0.route(key, d),
            #[trigger] f.route(key, d),
            out.buf.tree(),
            new_guid,
            path_to(t, v),
            key,
            d,
        ) by {
            lemma_graft_step(f0.cells@, t, v, u, key, d);
            let e = d + path_to(t, v).len();
            assert(out.buf.route(key, e) == step(k, key, e));
        }
    }
    assert(split_headers(f0, *frame, out.buf, k));
    Ok(Spilled { blob_node: bn, child: out.buf, path: Ghost(path_to(t, v)) })
}

/// The source of a reference is a node of the right kind.
proof fn lemma_edge_node(c: Seq<Option<Node>>, t: Art, v: Victim)
    requires
        rep(c, t),
        has_edge(t, v),
    ensures
        match v.kind {
            VictimEdgeKind::Prefix => at(c, v.parent_slot as int) matches Some(Node::Prefix(_)),
            VictimEdgeKind::Inner(_) => at(c, v.parent_slot as int) matches Some(n) && inner_ok(n) && kid(n, v.byte as int) != 0,
        },
    decreases t,
{
    if !edge_here(t, v) {
        match t {
            Art::Prefix { child, .. } => lemma_edge_node(c, *child, v),
            Art::Inner { kids, .. } => {
                let b = edge_kid(kids, v);
                assert(kids[b] is Some);
                lemma_edge_node(c, kids[b]->0, v);
            },
            _ => {},
        }
    } else if t is Inner {
        assert(t->kids[v.byte as int] is Some);
    }
}

/// Leads the reference of `victim` to node `child`.
fn repoint(frame: &mut BlobFrame, victim: Victim, child: u16)
    requires
        old(frame).ok(),
        child != 0,
        match victim.kind {
            VictimEdgeKind::Prefix => at(old(frame).cells@, victim.parent_slot as int) matches Some(Node::Prefix(_)),
            VictimEdgeKind::Inner(_) => at(old(frame).cells@, victim.parent_slot as int) matches Some(n) && inner_ok(n) && kid(
                n,
                victim.byte as int,
            ) != 0,
        },
    ensures
        final(frame).ok(),
        final(frame).header == old(frame).header,
        final(frame).arena_end == old(frame).arena_end,
        forall|s: int| s != victim.parent_slot ==> #[trigger] at(final(frame).cells@, s) == at(old(frame).cells@, s),
        match at(old(frame).cells@, victim.parent_slot as int) {
            Some(Node::Prefix(x)) => at(final(frame).cells@, victim.parent_slot as int) matches Some(Node::Prefix(y)) && y.bytes@
                == x.bytes@ && y.child == child,
            Some(n) => at(final(frame).cells@, victim.parent_slot as int) matches Some(n2) && inner_ok(n2) && kid_update(
                n,
                n2,
                victim.byte as int,
                child,
            ),
            None => true,
        },
{
    let ghost f0 = *frame;
    match frame.node_at(victim.parent_slot) {
        Some(Node::Prefix(p)) => {
            let bytes: Vec<u8> = copy_bytes(&p.bytes);
            frame.set_node(victim.parent_slot, Node::Prefix(Prefix { bytes, child }));
        },
        Some(n) => {
            let mut node: Node = crate::erase::copy_inner(n);
            inner_update_child(&mut node, victim.byte, child);
            frame.set_node(victim.parent_slot, node);
        },
        None => {},
    }
    proof {
        lemma_ok_after_set(f0, *frame, victim.parent_slot as int);
    }
}

/// Tag of every generated name, which the root blob's name lacks.
pub const GUID_TAG: u8 = 0xD4;

/// Three bytes mixed from a time and a counter.
pub open spec fn mixed_tail(nanos: u64, counter: u32) -> Seq<u8> {
    let m = nanos.wrapping_mul(0x9E37_79B9_7F4A_7C15) ^ (counter as u64);
    seq![(m >> 16) as u8, (m >> 24) as u8, (m >> 32) as u8]
}

/// The name made of a time, a counter and three tail bytes: both numbers
/// with their high bytes first, the tail, the tag.
pub open spec fn guid_of(nanos: u64, counter: u32, tail: Seq<u8>) -> Seq<u8> {
    seq![
        (nanos >> 56) as u8,
        (nanos >> 48) as u8,
        (nanos >> 40) as u8,
        (nanos >> 32) as u8,
        (nanos >> 24) as u8,
        (nanos >> 16) as u8,
        (nanos >> 8) as u8,
        nanos as u8,
        (counter >> 24) as u8,
        (counter >> 16) as u8,
        (counter >> 8) as u8,
        counter as u8,
        tail[0],
        tail[1],
        tail[2],
        GUID_TAG,
    ]
}

/// A new blob name. The tail comes from the system's entropy when there is
/// some, and is mixed from the other two numbers otherwise.
pub fn fresh_blob_guid(nanos: u64, counter: u32, entropy: Option<[u8; 3]>) -> (r: BlobGuid)
    ensures
        r@ == guid_of(nanos, counter, match entropy {
            Some(e) => e@,
            None => mixed_tail(nanos, counter),
        }),
        !crate::layout::is_root_guid(r),
{
    let tail: [u8; 3] = match entropy {
        Some(e) => e,
        None => {
            let m: u64 = nanos.wrapping_mul(0x9E37_79B9_7F4A_7C15) ^ (counter as u64);
            [(m >> 16) as u8, (m >> 24) as u8, (m >> 32) as u8]
        },
    };
    let g: BlobGuid = [
        (nanos >> 56) as u8,
        (nanos >> 48) as u8,
        (nanos >> 40) as u8,
        (nanos >> 32) as u8,
        (nanos >> 24) as u8,
        (nanos >> 16) as u8,
        (nanos >> 8) as u8,
        nanos as u8,
        (counter >> 24) as u8,
        (counter >> 16) as u8,
        (counter >> 8) as u8,
        counter as u8,
        tail[0],
        tail[1],
        tail[2],
        GUID_TAG,
    ];
    assert(g@[15] == GUID_TAG);
    g
}

/// Names made at different times or from different counters differ,
/// whatever their tails.
pub proof fn fresh_guids_are_distinct(n1: u64, c1: u32, t1: Seq<u8>, n2: u64, c2: u32, t2: Seq<u8>)
    requires
        n1 != n2 || c1 != c2,
    ensures
        guid_of(n1, c1, t1) != guid_of(n2, c2, t2),
{
    let g1 = guid_of(n1, c1, t1);
    let g2 = guid_of(n2, c2, t2);
    if g1 == g2 {
        assert(g1[0] == g2[0] && g1[1] == g2[1] && g1[2] == g2[2] && g1[3] == g2[3]);
        assert(g1[4] == g2[4] && g1[5] == g2[5] && g1[6] == g2[6] && g1[7] == g2[7]);
        assert(g1[8] == g2[8] && g1[9] == g2[9] && g1[10] == g2[10] && g1[11] == g2[11]);
        assert(n1 == n2) by (bit_vector)
            requires
                (n1 >> 56) as u8 == (n2 >> 56) as u8,
                (n1 >> 48) as u8 == (n2 >> 48) as u8,
                (n1 >> 40) as u8 == (n2 >> 40) as u8,
                (n1 >> 32) as u8 == (n2 >> 32) as u8,
                (n1 >> 24) as u8 == (n2 >> 24) as u8,
                (n1 >> 16) as u8 == (n2 >> 16) as u8,
                (n1 >> 8) as u8 == (n2 >> 8) as u8,
                n1 as u8 == n2 as u8,
        ;
        assert(c1 == c2) by (bit_vector)
            requires
                (c1 >> 24) as u8 == (c2 >> 24) as u8,
                (c1 >> 16) as u8 == (c2 >> 16) as u8,
                (c1 >> 8) as u8 == (c2 >> 8) as u8,
                c1 as u8 == c2 as u8,
        ;
    }
}

} // verus!
