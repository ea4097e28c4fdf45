//! Where nodes lie in a blob, and what they take.
use vstd::prelude::*;

use crate::art::{at, owns, rep, sep, slot_of, Art};
use crate::frame::{off_of, unit_of, BlobFrame};
use crate::layout::{node_size, Node, DATA_AREA_START, PAGE_SIZE};
use crate::migrate::{budget, budget_kids};

verus! {

/// One more than the largest number that a node can have.
pub const NODE_NUMBERS: usize = 56833;

/// Whether no node reaches into the next one.
pub open spec fn apart(c: Seq<Option<Node>>) -> bool {
    forall|i: int, j: int|
        i < j && (#[trigger] at(c, i)) is Some && (#[trigger] at(c, j)) is Some ==> off_of(i) + node_size(at(c, i)->0) <= off_of(j)
}

/// Whether every node that begins before byte offset `end` ends there too.
pub open spec fn stops_at(c: Seq<Option<Node>>, end: int) -> bool {
    forall|i: int| i < unit_of(end) && (#[trigger] at(c, i)) is Some ==> off_of(i) + node_size(at(c, i)->0) <= end
}

/// What a node counts for: itself, or its bytes.
pub open spec fn weight(n: Option<Node>, bytes: bool) -> int {
    match n {
        Some(n) => if bytes { node_size(n) } else { 1 },
        None => 0,
    }
}

/// What the nodes of `c` with numbers in `s` from `m` up to `n` count for
/// together.
pub open spec fn weigh(c: Seq<Option<Node>>, s: Set<int>, m: int, n: int, bytes: bool) -> int
    decreases n - m,
{
    if n <= m {
        0
    } else {
        weigh(c, s, m, n - 1, bytes) + (if s.contains(n - 1) {
            weight(at(c, n - 1), bytes)
        } else {
            0
        })
    }
}

/// What all nodes of `c` with numbers in `s` count for together.
pub open spec fn weight_of(c: Seq<Option<Node>>, s: Set<int>, bytes: bool) -> int {
    weigh(c, s, 0, NODE_NUMBERS as int, bytes)
}

/// Whether the nodes lie side by side, none across byte offset `space_used`,
/// and there are at most `num_slots` of them.
#[verifier::opaque]
pub open spec fn extents_ok(c: Seq<Option<Node>>, space_used: int, num_slots: int) -> bool {
    &&& apart(c)
    &&& stops_at(c, space_used)
    &&& weight_of(c, Set::full(), false) <= num_slots
}

/// Whether every node ends by byte offset `end`.
pub open spec fn end_by(c: Seq<Option<Node>>, end: int) -> bool {
    forall|i: int| (#[trigger] at(c, i)) is Some ==> off_of(i) + node_size(at(c, i)->0) <= end
}

/// A node takes room.
pub proof fn lemma_size_positive(n: Node)
    ensures
        node_size(n) > 0,
        node_size(n) % 8 == 0,
{
}

/// Weights where only node `s` may differ.
proof fn lemma_weigh_update(c: Seq<Option<Node>>, c2: Seq<Option<Node>>, set: Set<int>, s: int, m: int, n: int, bytes: bool)
    requires
        forall|i: int| i != s ==> #[trigger] at(c2, i) == at(c, i),
    ensures
        weigh(c2, set, m, n, bytes) == weigh(c, set, m, n, bytes) + (if m <= s < n && set.contains(s) {
            weight(at(c2, s), bytes) - weight(at(c, s), bytes)
        } else {
            0
        }),
    decreases n - m,
{
    if m < n {
        lemma_weigh_update(c, c2, set, s, m, n - 1, bytes);
        if n - 1 != s {
            assert(at(c2, n - 1) == at(c, n - 1));
        }
    }
}

/// A node placed where nothing lies.
pub proof fn lemma_extents_put(c: Seq<Option<Node>>, c2: Seq<Option<Node>>, space_used: int, after_: int, slots: int, s: int)
    requires
        extents_ok(c, space_used, slots),
        at(c, s) is None,
        at(c2, s) is Some,
        0 <= s < NODE_NUMBERS,
        forall|i: int| i != s ==> #[trigger] at(c2, i) == at(c, i),
        forall|i: int| i < s && (#[trigger] at(c, i)) is Some ==> off_of(i) + node_size(at(c, i)->0) <= off_of(s),
        forall|j: int| s < j && (#[trigger] at(c, j)) is Some ==> off_of(s) + node_size(at(c2, s)->0) <= off_of(j),
        stops_at(c2, after_),
    ensures
        extents_ok(c2, after_, slots + 1),
{
    reveal(extents_ok);
    lemma_weigh_update(c, c2, Set::full(), s, 0, NODE_NUMBERS as int, false);
    assert forall|i: int, j: int| i < j && (#[trigger] at(c2, i)) is Some && (#[trigger] at(c2, j)) is Some implies off_of(i) + node_size(at(c2, i)->0)
        <= off_of(j) by {
        if i != s {
            assert(at(c2, i) == at(c, i));
        }
        if j != s {
            assert(at(c2, j) == at(c, j));
        }
    }
}

/// A node placed at the end of the used space.
pub proof fn lemma_extents_next(c: Seq<Option<Node>>, c2: Seq<Option<Node>>, space_used: int, arena_end: int, slots: int, n: Node)
    requires
        extents_ok(c, space_used, slots),
        DATA_AREA_START <= space_used,
        space_used % 8 == 0,
        arena_end % 8 == 0,
        space_used + node_size(n) <= arena_end <= PAGE_SIZE,
        forall|i: int| unit_of(space_used) <= i < unit_of(arena_end) ==> (#[trigger] at(c, i)) is None,
        at(c2, unit_of(space_used)) == Some(n),
        forall|i: int| i != unit_of(space_used) ==> #[trigger] at(c2, i) == at(c, i),
    ensures
        extents_ok(c2, space_used + node_size(n), slots + 1),
{
    let s = unit_of(space_used);
    lemma_size_positive(n);
    assert(extents_ok(c2, space_used + node_size(n), slots + 1)) by {
        assert(apart(c) && stops_at(c, space_used)) by {
            reveal(extents_ok);
        }
        assert(at(c, s) is None);
        assert(off_of(s) == space_used);
        assert forall|i: int| i < unit_of(space_used + node_size(n)) && (#[trigger] at(c2, i)) is Some implies off_of(i) + node_size(at(c2, i)->0)
            <= space_used + node_size(n) by {
            if i != s {
                assert(at(c2, i) == at(c, i));
            }
        }
        assert forall|j: int| s < j && (#[trigger] at(c, j)) is Some implies off_of(s) + node_size(at(c2, s)->0) <= off_of(j) by {
            assert(j >= unit_of(arena_end));
        }
        lemma_extents_put(c, c2, space_used, space_used + node_size(n), slots, s);
    }
}

/// A node placed at byte offset `off`, behind all others and outside the used
/// space.
pub proof fn lemma_extents_beyond(c: Seq<Option<Node>>, c2: Seq<Option<Node>>, space_used: int, off: int, slots: int, n: Node)
    requires
        extents_ok(c, space_used, slots),
        end_by(c, off),
        DATA_AREA_START <= off,
        off % 8 == 0,
        off + node_size(n) <= PAGE_SIZE,
        space_used <= off,
        at(c2, unit_of(off)) == Some(n),
        forall|i: int| i != unit_of(off) ==> #[trigger] at(c2, i) == at(c, i),
    ensures
        extents_ok(c2, space_used, slots + 1),
        end_by(c2, off + node_size(n)),
{
    let s = unit_of(off);
    lemma_size_positive(n);
    assert(off_of(s) == off);
    assert forall|j: int| s <= j implies (#[trigger] at(c, j)) is None by {
        if at(c, j) is Some {
            lemma_size_positive(at(c, j)->0);
        }
    }
    assert(stops_at(c, space_used)) by {
        reveal(extents_ok);
    }
    assert forall|i: int| i < unit_of(space_used) && (#[trigger] at(c2, i)) is Some implies off_of(i) + node_size(at(c2, i)->0) <= space_used by {
        assert(at(c2, i) == at(c, i));
    }
    lemma_extents_put(c, c2, space_used, space_used, slots, s);
    assert forall|i: int| (#[trigger] at(c2, i)) is Some implies off_of(i) + node_size(at(c2, i)->0) <= off + node_size(n) by {
        if i != s {
            assert(at(c2, i) == at(c, i));
        }
    }
}

/// The used space may be taken to end where all nodes have ended.
pub proof fn lemma_extents_reach(c: Seq<Option<Node>>, space_used: int, after_: int, slots: int)
    requires
        extents_ok(c, space_used, slots),
        end_by(c, after_),
    ensures
        extents_ok(c, after_, slots),
{
    reveal(extents_ok);
}

/// An arena without nodes.
pub proof fn lemma_extents_none(c: Seq<Option<Node>>, space_used: int)
    requires
        forall|i: int| (#[trigger] at(c, i)) is None,
    ensures
        extents_ok(c, space_used, 0),
{
    reveal(extents_ok);
    lemma_weigh_nothing(c, 0, NODE_NUMBERS as int);
}

proof fn lemma_weigh_nothing(c: Seq<Option<Node>>, m: int, n: int)
    requires
        forall|i: int| (#[trigger] at(c, i)) is None,
    ensures
        weigh(c, Set::full(), m, n, false) == 0,
    decreases n - m,
{
    if m < n {
        lemma_weigh_nothing(c, m, n - 1);
        assert(at(c, n - 1) is None);
    }
}

/// A node that shrinks or goes.
pub proof fn lemma_extents_set(c: Seq<Option<Node>>, c2: Seq<Option<Node>>, space_used: int, slots: int, s: int)
    requires
        extents_ok(c, space_used, slots),
        at(c, s) is Some,
        at(c2, s) matches Some(n) ==> node_size(n) <= node_size(at(c, s)->0),
        forall|i: int| i != s ==> #[trigger] at(c2, i) == at(c, i),
    ensures
        extents_ok(c2, space_used, slots),
{
    reveal(extents_ok);
    lemma_weigh_update(c, c2, Set::full(), s, 0, NODE_NUMBERS as int, false);
    assert forall|i: int, j: int| i < j && (#[trigger] at(c2, i)) is Some && (#[trigger] at(c2, j)) is Some implies off_of(i) + node_size(at(c2, i)->0)
        <= off_of(j) by {
        if i != s {
            assert(at(c2, i) == at(c, i));
        }
        if j != s {
            assert(at(c2, j) == at(c, j));
        }
    }
    assert forall|i: int| i < unit_of(space_used) && (#[trigger] at(c2, i)) is Some implies off_of(i) + node_size(at(c2, i)->0) <= space_used by {
        if i != s {
            assert(at(c2, i) == at(c, i));
        }
        assert(at(c, i) is Some);
    }
}

proof fn lemma_weigh_same(c: Seq<Option<Node>>, c2: Seq<Option<Node>>, set: Set<int>, m: int, n: int, bytes: bool)
    requires
        forall|i: int| weight(#[trigger] at(c2, i), bytes) == weight(at(c, i), bytes),
    ensures
        weigh(c2, set, m, n, bytes) == weigh(c, set, m, n, bytes),
    decreases n - m,
{
    if m < n {
        lemma_weigh_same(c, c2, set, m, n - 1, bytes);
        assert(weight(at(c2, n - 1), bytes) == weight(at(c, n - 1), bytes));
    }
}

/// Nodes of the same sizes.
pub proof fn lemma_extents_same(c: Seq<Option<Node>>, c2: Seq<Option<Node>>, space_used: int, slots: int)
    requires
        extents_ok(c, space_used, slots),
        forall|i: int| ((#[trigger] at(c2, i)) is Some <==> at(c, i) is Some) && (at(c, i) is Some ==> node_size(at(c2, i)->0) == node_size(at(c, i)->0)),
    ensures
        extents_ok(c2, space_used, slots),
{
    reveal(extents_ok);
    lemma_weigh_same(c, c2, Set::full(), 0, NODE_NUMBERS as int, false);
    assert forall|i: int, j: int| i < j && (#[trigger] at(c2, i)) is Some && (#[trigger] at(c2, j)) is Some implies off_of(i) + node_size(at(c2, i)->0)
        <= off_of(j) by {
        assert(at(c, i) is Some && at(c, j) is Some);
    }
    assert forall|i: int| i < unit_of(space_used) && (#[trigger] at(c2, i)) is Some implies off_of(i) + node_size(at(c2, i)->0) <= space_used by {
        assert(at(c, i) is Some);
    }
}

/// No more counts for less than all.
proof fn lemma_weigh_sub(c: Seq<Option<Node>>, a: Set<int>, b: Set<int>, m: int, n: int, bytes: bool)
    requires
        a.subset_of(b),
    ensures
        0 <= weigh(c, a, m, n, bytes) <= weigh(c, b, m, n, bytes),
    decreases n - m,
{
    if m < n {
        lemma_weigh_sub(c, a, b, m, n - 1, bytes);
        if at(c, n - 1) is Some {
            lemma_size_positive(at(c, n - 1)->0);
        }
    }
}

/// Sets without a number in common count for the sum of both.
proof fn lemma_weigh_union(c: Seq<Option<Node>>, a: Set<int>, b: Set<int>, m: int, n: int, bytes: bool)
    requires
        a.disjoint(b),
    ensures
        weigh(c, a.union(b), m, n, bytes) == weigh(c, a, m, n, bytes) + weigh(c, b, m, n, bytes),
    decreases n - m,
{
    if m < n {
        lemma_weigh_union(c, a, b, m, n - 1, bytes);
    }
}

proof fn lemma_weigh_none(c: Seq<Option<Node>>, a: Set<int>, m: int, n: int, bytes: bool)
    requires
        forall|i: int| m <= i < n ==> !a.contains(i),
    ensures
        weigh(c, a, m, n, bytes) == 0,
    decreases n - m,
{
    if m < n {
        lemma_weigh_none(c, a, m, n - 1, bytes);
    }
}

proof fn lemma_weigh_one(c: Seq<Option<Node>>, s: int, m: int, n: int, bytes: bool)
    ensures
        weigh(c, set![s], m, n, bytes) == (if m <= s < n {
            weight(at(c, s), bytes)
        } else {
            0
        }),
    decreases n - m,
{
    if m < n {
        lemma_weigh_one(c, s, m, n - 1, bytes);
    }
}

/// Nodes that lie side by side in a span take no more than the span.
proof fn lemma_weigh_span(c: Seq<Option<Node>>, a: Set<int>, m: int, n: int, end: int)
    requires
        apart(c),
        m <= n,
        off_of(m) <= end,
        forall|i: int| m <= i < n && a.contains(i) && (#[trigger] at(c, i)) is Some ==> off_of(i) + node_size(at(c, i)->0) <= end,
    ensures
        weigh(c, a, m, n, true) <= end - off_of(m),
    decreases n - m,
{
    if m < n {
        if a.contains(n - 1) && at(c, n - 1) is Some {
            assert forall|i: int| m <= i < n - 1 && a.contains(i) && (#[trigger] at(c, i)) is Some implies off_of(i) + node_size(at(c, i)->0)
                <= off_of(n - 1) by {}
            lemma_weigh_span(c, a, m, n - 1, off_of(n - 1));
        } else {
            lemma_weigh_span(c, a, m, n - 1, end);
        }
    }
}

proof fn lemma_weigh_cut(c: Seq<Option<Node>>, a: Set<int>, m: int, k: int, n: int, bytes: bool)
    requires
        m <= k <= n,
    ensures
        weigh(c, a, m, n, bytes) == weigh(c, a, m, k, bytes) + weigh(c, a, k, n, bytes),
    decreases n - k,
{
    if k < n {
        lemma_weigh_cut(c, a, m, k, n - 1, bytes);
    }
}

/// The numbers of the nodes of a tree.
pub open spec fn numbers_of(t: Art) -> Set<int> {
    Set::new(|s: int| owns(t, s))
}

/// The numbers of the nodes of the first `n` subtrees.
spec fn numbers_below(kids: Seq<Option<Art>>, n: int) -> Set<int> {
    Set::new(|s: int| exists|b: int| 0 <= b < n && (#[trigger] kids[b]) is Some && owns(kids[b]->0, s))
}

/// The nodes of a tree weigh what a copy that keeps everything takes.
pub proof fn lemma_tree_weight(c: Seq<Option<Node>>, t: Art)
    requires
        rep(c, t),
        sep(t),
        c.len() <= NODE_NUMBERS,
    ensures
        weight_of(c, numbers_of(t), true) == budget(c, t, false).routing + budget(c, t, false).leaf,
        weight_of(c, numbers_of(t), false) == budget(c, t, false).nodes,
    decreases t, (if t is Inner { t->kids.len() + 1 } else { 0 }),
{
    crate::insert::lemma_rep_root(c, t);
    let s = slot_of(t);
    let n = NODE_NUMBERS as int;
    lemma_weigh_one(c, s, 0, n, true);
    lemma_weigh_one(c, s, 0, n, false);
    match t {
        Art::Prefix { child, .. } => {
            lemma_tree_weight(c, *child);
            assert(numbers_of(t) =~= set![s].union(numbers_of(*child)));
            lemma_weigh_union(c, set![s], numbers_of(*child), 0, n, true);
            lemma_weigh_union(c, set![s], numbers_of(*child), 0, n, false);
        },
        Art::Inner { kids, .. } => {
            lemma_kids_weight(c, t, kids.len() as int);
            let below = numbers_below(kids, kids.len() as int);
            assert(numbers_of(t) =~= set![s].union(below));
            assert(set![s].disjoint(below));
            lemma_weigh_union(c, set![s], below, 0, n, true);
            lemma_weigh_union(c, set![s], below, 0, n, false);
        },
        _ => {
            assert(numbers_of(t) =~= set![s]);
        },
    }
}

proof fn lemma_kids_weight(c: Seq<Option<Node>>, t: Art, m: int)
    requires
        t is Inner,
        rep(c, t),
        sep(t),
        c.len() <= NODE_NUMBERS,
        0 <= m <= t->kids.len(),
    ensures
        weight_of(c, numbers_below(t->kids, m), true) == budget_kids(c, t->kids, m, false).routing + budget_kids(c, t->kids, m, false).leaf,
        weight_of(c, numbers_below(t->kids, m), false) == budget_kids(c, t->kids, m, false).nodes,
    decreases t, m,
{
    let kids = t->kids;
    let n = NODE_NUMBERS as int;
    if m == 0 {
        lemma_weigh_none(c, numbers_below(kids, 0), 0, n, true);
        lemma_weigh_none(c, numbers_below(kids, 0), 0, n, false);
    } else {
        lemma_kids_weight(c, t, m - 1);
        let before = numbers_below(kids, m - 1);
        match kids[m - 1] {
            Some(k) => {
                assert(rep(c, k));
                lemma_tree_weight(c, k);
                assert(numbers_below(kids, m) =~= before.union(numbers_of(k))) by {
                    assert forall|s: int| numbers_of(k).contains(s) implies numbers_below(kids, m).contains(s) by {
                        assert(kids[m - 1] is Some);
                    }
                }
                assert(before.disjoint(numbers_of(k))) by {
                    assert forall|s: int| before.contains(s) implies !numbers_of(k).contains(s) by {
                        let b = choose|b: int| 0 <= b < m - 1 && (#[trigger] kids[b]) is Some && owns(kids[b]->0, s);
                        assert(!(owns(kids[b]->0, s) && owns(kids[m - 1]->0, s)));
                    }
                }
                lemma_weigh_union(c, before, numbers_of(k), 0, n, true);
                lemma_weigh_union(c, before, numbers_of(k), 0, n, false);
            },
            None => {
                assert(numbers_below(kids, m) =~= before);
            },
        }
    }
}

/// Every node of a blob ends within its used space.
proof fn lemma_all_end(f: BlobFrame)
    requires
        f.ok(),
        f.arena_end == PAGE_SIZE,
    ensures
        apart(f.cells@),
        weight_of(f.cells@, Set::full(), false) <= f.header.num_slots,
        end_by(f.cells@, f.header.space_used as int),
{
    reveal(extents_ok);
    assert forall|i: int| (#[trigger] at(f.cells@, i)) is Some implies off_of(i) + node_size(at(f.cells@, i)->0) <= f.header.space_used by {
        assert(i < unit_of(PAGE_SIZE as int));
        assert(i < unit_of(f.header.space_used as int));
    }
}

/// The nodes of a blob's tree fit into what the blob has used: their sizes
/// into the used space, their number into the nodes placed.
pub proof fn tree_fits_used_space(f: BlobFrame)
    requires
        f.sound(),
    ensures
        ({
            let b = budget(f.cells@, f.tree(), false);
            &&& weight_of(f.cells@, numbers_of(f.tree()), true) == b.routing + b.leaf
            &&& b.routing + b.leaf <= f.header.space_used - DATA_AREA_START
            &&& b.nodes <= f.header.num_slots
        }),
{
    let c = f.cells@;
    let n = NODE_NUMBERS as int;
    let a = numbers_of(f.tree());
    lemma_all_end(f);
    lemma_tree_weight(c, f.tree());
    lemma_weigh_sub(c, a, Set::full(), 0, n, false);
    lemma_weigh_cut(c, a, 0, 1, n, true);
    lemma_weigh_nothing_at(c, a);
    lemma_weigh_span(c, a, 1, n, f.header.space_used as int);
}

proof fn lemma_weigh_nothing_at(c: Seq<Option<Node>>, a: Set<int>)
    requires
        at(c, 0) is None,
    ensures
        weigh(c, a, 0, 1, true) == 0,
{
    assert(weigh(c, a, 0, 0, true) == 0);
}

/// No two nodes of a blob have a byte in common.
pub proof fn nodes_do_not_overlap(f: BlobFrame, i: int, j: int, off: int)
    requires
        f.ok(),
        spans(f, i, off),
        spans(f, j, off),
    ensures
        i == j,
{
    reveal(extents_ok);
    if i < j {
        assert(off_of(i) + node_size(at(f.cells@, i)->0) <= off_of(j));
    }
    if j < i {
        assert(off_of(j) + node_size(at(f.cells@, j)->0) <= off_of(i));
    }
}

/// Whether the byte at offset `off` belongs to node `s`.
pub open spec fn spans(f: BlobFrame, s: int, off: int) -> bool {
    &&& at(f.cells@, s) is Some
    &&& off_of(s) <= off < off_of(s) + node_size(at(f.cells@, s)->0)
}

/// A byte that none of the nodes has is missing from what they take.
proof fn lemma_weigh_gap(f: BlobFrame, a: Set<int>, m: int, n: int, end: int, off: int)
    requires
        apart(f.cells@),
        end % 8 == 0,
        1 <= m,
        unit_of(end) <= n,
        off_of(m) <= off < end,
        forall|i: int|
            m <= i < n && a.contains(i) && (#[trigger] at(f.cells@, i)) is Some ==> off_of(i) + node_size(at(f.cells@, i)->0) <= end,
        forall|i: int| m <= i < n && #[trigger] a.contains(i) ==> !spans(f, i, off),
    ensures
        weigh(f.cells@, a, m, n, true) < end - off_of(m),
{
    let c = f.cells@;
    let k = (off - DATA_AREA_START) / 8 + 2;
    assert(off_of(k - 1) <= off < off_of(k) <= end);
    lemma_weigh_cut(c, a, m, k, n, true);
    assert forall|i: int| m <= i < k && a.contains(i) && (#[trigger] at(c, i)) is Some implies off_of(i) + node_size(at(c, i)->0)
        <= off_of(k - 1) by {
        lemma_size_positive(at(c, i)->0);
        assert(!spans(f, i, off));
    }
    lemma_weigh_span(c, a, m, k, off_of(k - 1));
    lemma_weigh_span(c, a, k, n, end);
}

/// Where the sizes of the tree's nodes add up to the used space, every byte
/// of it belongs to one of them.
pub proof fn lemma_no_gap(f: BlobFrame, off: int)
    requires
        f.sound(),
        weight_of(f.cells@, numbers_of(f.tree()), true) == f.header.space_used - DATA_AREA_START,
        DATA_AREA_START <= off < f.header.space_used,
    ensures
        exists|s: int| #[trigger] owns(f.tree(), s) && spans(f, s, off),
{
    let c = f.cells@;
    let t = f.tree();
    let a = numbers_of(t);
    let n = NODE_NUMBERS as int;
    if forall|s: int| #[trigger] owns(t, s) ==> !spans(f, s, off) {
        lemma_all_end(f);
        lemma_weigh_nothing_at(c, a);
        lemma_weigh_cut(c, a, 0, 1, n, true);
        lemma_weigh_gap(f, a, 1, n, f.header.space_used as int, off);
    }
}

/// Where the tree's nodes lie in two spans, from the second node number to
/// `mid` and from `lrs` to the end of the used space, and their sizes add up
/// to both, every byte of the two belongs to one of them.
pub proof fn lemma_no_gap_in_two(f: BlobFrame, mid: int, lrs: int, off: int)
    requires
        f.sound(),
        off_of(2) <= mid <= lrs <= f.header.space_used,
        mid % 8 == 0,
        lrs % 8 == 0,
        !owns(f.tree(), 1),
        stops_at(f.cells@, mid),
        forall|i: int| unit_of(mid) <= i < unit_of(lrs) ==> (#[trigger] at(f.cells@, i)) is None,
        weight_of(f.cells@, numbers_of(f.tree()), true) == (mid - off_of(2)) + (f.header.space_used - lrs),
        off_of(2) <= off < mid || lrs <= off < f.header.space_used,
    ensures
        exists|s: int| #[trigger] owns(f.tree(), s) && spans(f, s, off),
{
    let c = f.cells@;
    let t = f.tree();
    let a = numbers_of(t);
    let n = NODE_NUMBERS as int;
    let end = f.header.space_used as int;
    let u = unit_of(lrs);
    if forall|s: int| #[trigger] owns(t, s) ==> !spans(f, s, off) {
        lemma_all_end(f);
        assert(off_of(u) == lrs && 2 <= u <= n);
        lemma_weigh_from_second(c, a, u);
        assert forall|i: int| 2 <= i < u && a.contains(i) && (#[trigger] at(c, i)) is Some implies off_of(i) + node_size(at(c, i)->0)
            <= mid by {
            assert(i < unit_of(mid));
        }
        if off < mid {
            assert(weigh(c, a, 2, u, true) < mid - off_of(2)) by {
                lemma_weigh_gap(f, a, 2, u, mid, off);
            }
            assert(weigh(c, a, u, n, true) <= end - lrs) by {
                lemma_weigh_span(c, a, u, n, end);
            }
        } else {
            assert(weigh(c, a, 2, u, true) <= mid - off_of(2)) by {
                lemma_weigh_span(c, a, 2, u, mid);
            }
            assert(weigh(c, a, u, n, true) < end - lrs) by {
                lemma_weigh_gap(f, a, u, n, end, off);
            }
        }
    }
}

/// Without the first node, what all nodes weigh is what those up to `u` and
/// those from it on do.
proof fn lemma_weigh_from_second(c: Seq<Option<Node>>, a: Set<int>, u: int)
    requires
        at(c, 0) is None,
        !a.contains(1),
        2 <= u <= NODE_NUMBERS,
    ensures
        weight_of(c, a, true) == weigh(c, a, 2, u, true) + weigh(c, a, u, NODE_NUMBERS as int, true),
{
    let n = NODE_NUMBERS as int;
    lemma_weigh_nothing_at(c, a);
    assert(weigh(c, a, 1, 2, true) == weigh(c, a, 1, 1, true));
    lemma_weigh_cut(c, a, 0, 1, n, true);
    lemma_weigh_cut(c, a, 1, 2, n, true);
    lemma_weigh_cut(c, a, 2, u, n, true);
}

} // verus!
