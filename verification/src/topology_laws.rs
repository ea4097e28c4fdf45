//! What holds of the lists of blobs that a root leads to.
use vstd::prelude::*;

use crate::art::{rep, Art, Route};
use crate::forest::Forest;
use crate::layout::{BlobGuid, Node};
use crate::merge::leads;
use crate::order::{lemma_prefix_agree, lex_lt, past, past_is_after_all, rises_at};
use crate::scan::{
    children, covers_prefix, deeper, entries_below, exits, exits_below, lemma_children, lemma_children_distinct, lemma_needed_all, lemma_exit_child,
    lemma_exit_kid, lemma_leads_kid, lemma_leads_prefix, lemma_leads_root, lemma_needed_distinct, lemma_needed_none, lemma_one_parent, lemma_reaches_child, lemma_reaches_rank, lemma_related_below, lemma_spread_from, lemma_spread_related_same,
    level_order, levelled, needed, no_repeats, reaches, related, related_below, related_order, spread, spread_related, BlobTopologyEntry,
};

verus! {

/// What is spread for the first entries is spread for more of them first.
proof fn lemma_spread_grows(f: Forest, all: Seq<BlobTopologyEntry>, m: int, n: int, p: Seq<u8>)
    requires
        0 <= m <= n,
    ensures
        spread_related(f, all, m, p).is_prefix_of(spread_related(f, all, n, p)),
    decreases n - m,
{
    let a = spread_related(f, all, m, p);
    let b = spread_related(f, all, n, p);
    if m < n {
        lemma_spread_grows(f, all, m, n - 1, p);
        let c = spread_related(f, all, n - 1, p);
        assert(b.subrange(0, a.len() as int) =~= c.subrange(0, a.len() as int));
    } else {
        assert(b.subrange(0, a.len() as int) =~= a);
    }
}

/// Every key begins with no bytes: nothing is left out.
proof fn lemma_spread_whole(f: Forest, all: Seq<BlobTopologyEntry>, n: int)
    ensures
        spread_related(f, all, n, Seq::empty()) == spread(f, all, n),
    decreases n,
{
    if n > 0 {
        lemma_spread_whole(f, all, n - 1);
        let es = children(f, all[n - 1].guid);
        assert forall|c: BlobGuid| #[trigger] es.contains(c) implies related(f.base[c], Seq::<u8>::empty()) by {
            assert(f.base[c].subrange(0, 0) =~= Seq::<u8>::empty());
        }
        lemma_needed_all(f, es, Seq::empty());
        assert(related_below(f, all[n - 1], Seq::empty()) =~= entries_below(f, all[n - 1]));
    }
}

/// The order of all blobs is that of those that may hold keys with no bytes.
proof fn lemma_whole_order(f: Forest, root: BlobGuid, all: Seq<BlobTopologyEntry>)
    requires
        level_order(f, root, all),
    ensures
        related_order(f, root, Seq::empty(), all),
{
    lemma_spread_whole(f, all, all.len() as int);
}

/// The largest rank among the first `n` entries.
spec fn top_rank(f: Forest, all: Seq<BlobTopologyEntry>, n: int) -> nat
    decreases n,
{
    if n <= 0 {
        0
    } else if top_rank(f, all, n - 1) >= f.rank[all[n - 1].guid] {
        top_rank(f, all, n - 1)
    } else {
        f.rank[all[n - 1].guid]
    }
}

proof fn lemma_top_rank(f: Forest, all: Seq<BlobTopologyEntry>, n: int, i: int)
    requires
        0 <= i < n,
    ensures
        f.rank[all[i].guid] <= top_rank(f, all, n),
    decreases n,
{
    if i < n - 1 {
        lemma_top_rank(f, all, n - 1, i);
    }
}

/// The first `m` entries have children enough to fill the list as far: no
/// entry behind them keeps itself up.
proof fn lemma_no_orphan(f: Forest, root: BlobGuid, p: Seq<u8>, all: Seq<BlobTopologyEntry>, m: int, i: int)
    requires
        f.linked(),
        related_order(f, root, p, all),
        1 <= m <= i < all.len(),
    ensures
        spread_related(f, all, m, p).len() >= m,
    decreases top_rank(f, all, all.len() as int) - f.rank[all[i].guid],
{
    if spread_related(f, all, m, p).len() < m {
        let first = seq![BlobTopologyEntry { guid: root, depth: 0 }];
        let rest = spread_related(f, all, all.len() as int, p);
        assert((first + rest)[i] == rest[i - 1]);
        let j = lemma_spread_from(f, all, m, all.len() as int, p, i - 1);
        assert(f.has(all[j].guid));
        lemma_children(f, all[j].guid, all[i].guid);
        lemma_top_rank(f, all, all.len() as int, j);
        lemma_no_orphan(f, root, p, all, m, j);
    }
}

proof fn lemma_same_head(f: Forest, root: BlobGuid, p: Seq<u8>, a: Seq<BlobTopologyEntry>, b: Seq<BlobTopologyEntry>, n: int)
    requires
        f.linked(),
        related_order(f, root, p, a),
        related_order(f, root, p, b),
        0 <= n <= a.len(),
        n <= b.len(),
    ensures
        forall|i: int| 0 <= i < n ==> #[trigger] a[i] == b[i],
    decreases n,
{
    if n > 0 {
        let m = n - 1;
        lemma_same_head(f, root, p, a, b, m);
        let first = seq![BlobTopologyEntry { guid: root, depth: 0 }];
        let ra = spread_related(f, a, a.len() as int, p);
        let rb = spread_related(f, b, b.len() as int, p);
        if m == 0 {
            assert((first + ra)[0] == (first + rb)[0]);
        } else {
            lemma_spread_related_same(f, a, b, m, p);
            let both = spread_related(f, a, m, p);
            if both.len() < m {
                lemma_no_orphan(f, root, p, a, m, m);
            }
            lemma_spread_grows(f, a, m, a.len() as int, p);
            lemma_spread_grows(f, b, m, b.len() as int, p);
            assert(ra.subrange(0, both.len() as int)[m - 1] == ra[m - 1]);
            assert(rb.subrange(0, both.len() as int)[m - 1] == rb[m - 1]);
            assert((first + ra)[m] == ra[m - 1]);
            assert((first + rb)[m] == rb[m - 1]);
        }
    }
}

proof fn lemma_no_shorter(f: Forest, root: BlobGuid, p: Seq<u8>, a: Seq<BlobTopologyEntry>, b: Seq<BlobTopologyEntry>)
    requires
        f.linked(),
        related_order(f, root, p, a),
        related_order(f, root, p, b),
    ensures
        a.len() >= b.len(),
{
    if a.len() < b.len() {
        let n = a.len() as int;
        lemma_same_head(f, root, p, a, b, n);
        lemma_spread_related_same(f, a, b, n, p);
        lemma_no_orphan(f, root, p, b, n, n);
    }
}

/// A tree has one breadth-first list of the blobs that may hold keys with
/// given bytes.
pub proof fn related_orders_are_unique(f: Forest, root: BlobGuid, p: Seq<u8>, a: Seq<BlobTopologyEntry>, b: Seq<BlobTopologyEntry>)
    requires
        f.linked(),
        related_order(f, root, p, a),
        related_order(f, root, p, b),
    ensures
        a == b,
{
    lemma_no_shorter(f, root, p, a, b);
    lemma_no_shorter(f, root, p, b, a);
    lemma_same_head(f, root, p, a, b, a.len() as int);
    assert(a =~= b);
}

/// A tree has one breadth-first list of its blobs.
pub proof fn level_orders_are_unique(f: Forest, root: BlobGuid, a: Seq<BlobTopologyEntry>, b: Seq<BlobTopologyEntry>)
    requires
        f.linked(),
        level_order(f, root, a),
        level_order(f, root, b),
    ensures
        a == b,
{
    lemma_whole_order(f, root, a);
    lemma_whole_order(f, root, b);
    related_orders_are_unique(f, root, Seq::empty(), a, b);
}

/// The entry that entry `i` is a child of stands before it.
proof fn lemma_parent(f: Forest, root: BlobGuid, p: Seq<u8>, all: Seq<BlobTopologyEntry>, i: int) -> (j: int)
    requires
        f.linked(),
        related_order(f, root, p, all),
        1 <= i < all.len(),
    ensures
        0 <= j < i,
        spread_related(f, all, j, p).len() <= i - 1 < spread_related(f, all, j + 1, p).len(),
        all[i] == related_below(f, all[j], p)[i - 1 - spread_related(f, all, j, p).len()],
        children(f, all[j].guid).contains(all[i].guid),
        all[i].depth == deeper(all[j].depth),
{
    let first = seq![BlobTopologyEntry { guid: root, depth: 0 }];
    let rest = spread_related(f, all, all.len() as int, p);
    assert((first + rest)[i] == rest[i - 1]);
    let j = lemma_spread_from(f, all, 0, all.len() as int, p, i - 1);
    if j >= i {
        lemma_no_orphan(f, root, p, all, i, i);
        lemma_spread_grows(f, all, i, j, p);
    }
    j
}

/// Parents stand in the order of their children.
proof fn lemma_parents_rise(f: Forest, all: Seq<BlobTopologyEntry>, p: Seq<u8>, a: int, b: int, i: int, j: int)
    requires
        i <= j,
        0 <= a,
        0 <= b,
        spread_related(f, all, a, p).len() <= i,
        j < spread_related(f, all, b + 1, p).len(),
    ensures
        a <= b,
{
    if b < a {
        lemma_spread_grows(f, all, b + 1, a, p);
    }
}

proof fn lemma_depths_rise(f: Forest, root: BlobGuid, p: Seq<u8>, all: Seq<BlobTopologyEntry>, i: int, j: int)
    requires
        f.linked(),
        related_order(f, root, p, all),
        0 <= i <= j < all.len(),
    ensures
        all[i].depth <= all[j].depth,
    decreases j,
{
    let first = seq![BlobTopologyEntry { guid: root, depth: 0 }];
    assert((first + spread_related(f, all, all.len() as int, p))[0].depth == 0);
    if i > 0 {
        let a = lemma_parent(f, root, p, all, i);
        let b = lemma_parent(f, root, p, all, j);
        lemma_parents_rise(f, all, p, a, b, i - 1, j - 1);
        lemma_depths_rise(f, root, p, all, a, b);
    }
}

proof fn lemma_listed_reached(f: Forest, root: BlobGuid, p: Seq<u8>, all: Seq<BlobTopologyEntry>, i: int)
    requires
        f.linked(),
        f.has(root),
        related_order(f, root, p, all),
        0 <= i < all.len(),
    ensures
        reaches(f, root, all[i].guid),
    decreases i,
{
    let first = seq![BlobTopologyEntry { guid: root, depth: 0 }];
    assert((first + spread_related(f, all, all.len() as int, p))[0].guid == root);
    if i > 0 {
        let a = lemma_parent(f, root, p, all, i);
        lemma_listed_reached(f, root, p, all, a);
        lemma_reaches_child(f, root, all[a].guid, all[i].guid);
    }
}

proof fn lemma_not_twice(f: Forest, root: BlobGuid, p: Seq<u8>, all: Seq<BlobTopologyEntry>, i: int, j: int)
    requires
        f.linked(),
        f.has(root),
        related_order(f, root, p, all),
        0 <= i < j < all.len(),
    ensures
        all[i].guid != all[j].guid,
    decreases j,
{
    let first = seq![BlobTopologyEntry { guid: root, depth: 0 }];
    assert((first + spread_related(f, all, all.len() as int, p))[0].guid == root);
    let b = lemma_parent(f, root, p, all, j);
    let h = all[b].guid;
    assert(f.has(h));
    lemma_listed_reached(f, root, p, all, b);
    lemma_children(f, h, all[j].guid);
    if i == 0 {
        lemma_reaches_rank(f, root, h);
    } else if all[i].guid == all[j].guid {
        let a = lemma_parent(f, root, p, all, i);
        lemma_parents_rise(f, all, p, a, b, i - 1, j - 1);
        if a == b {
            let es = needed(f, children(f, h), p);
            let n = spread_related(f, all, a, p).len();
            lemma_children_distinct(f, h);
            lemma_needed_distinct(f, children(f, h), p);
            assert(es[i - 1 - n] == es[j - 1 - n]);
        } else {
            lemma_listed_reached(f, root, p, all, a);
            lemma_one_parent(f, root, all[a].guid, h, all[i].guid);
            lemma_not_twice(f, root, p, all, a, b);
        }
    }
}

/// A breadth-first list names no blob twice, and its depths never fall.
pub proof fn level_orders_rise_without_repeats(f: Forest, root: BlobGuid, all: Seq<BlobTopologyEntry>)
    requires
        f.linked(),
        f.has(root),
        level_order(f, root, all),
    ensures
        no_repeats(all),
        levelled(all),
{
    lemma_whole_order(f, root, all);
    assert forall|i: int, j: int| 0 <= i < j < all.len() implies (#[trigger] all[i]).guid != (#[trigger] all[j]).guid by {
        lemma_not_twice(f, root, Seq::empty(), all, i, j);
    }
    assert forall|i: int, j: int| 0 <= i <= j < all.len() implies (#[trigger] all[i]).depth <= (#[trigger] all[j]).depth by {
        lemma_depths_rise(f, root, Seq::empty(), all, i, j);
    }
}

/// Those of `all` that may hold keys with `p`, in their order.
pub open spec fn needed_entries(f: Forest, all: Seq<BlobTopologyEntry>, p: Seq<u8>) -> Seq<BlobTopologyEntry>
    decreases all.len(),
{
    if all.len() == 0 {
        Seq::empty()
    } else if related(f.base[all.last().guid], p) {
        needed_entries(f, all.drop_last(), p).push(all.last())
    } else {
        needed_entries(f, all.drop_last(), p)
    }
}

proof fn lemma_entries_add(f: Forest, a: Seq<BlobTopologyEntry>, b: Seq<BlobTopologyEntry>, p: Seq<u8>)
    ensures
        needed_entries(f, a + b, p) == needed_entries(f, a, p) + needed_entries(f, b, p),
    decreases b.len(),
{
    if b.len() == 0 {
        assert(a + b =~= a);
        assert(needed_entries(f, a, p) + needed_entries(f, b, p) =~= needed_entries(f, a, p));
    } else {
        assert((a + b).drop_last() =~= a + b.drop_last());
        lemma_entries_add(f, a, b.drop_last(), p);
        assert(needed_entries(f, a + b, p) =~= needed_entries(f, a, p) + needed_entries(f, b, p));
    }
}

proof fn lemma_entries_below(f: Forest, es: Seq<BlobGuid>, depth: u32, p: Seq<u8>)
    ensures
        needed_entries(f, Seq::new(es.len(), |i: int| BlobTopologyEntry { guid: es[i], depth }), p) == Seq::new(
            needed(f, es, p).len(),
            |i: int| BlobTopologyEntry { guid: needed(f, es, p)[i], depth },
        ),
    decreases es.len(),
{
    let a = Seq::new(es.len(), |i: int| BlobTopologyEntry { guid: es[i], depth });
    let n = needed(f, es, p);
    let r = Seq::new(n.len(), |i: int| BlobTopologyEntry { guid: n[i], depth });
    if es.len() > 0 {
        let rest = es.drop_last();
        lemma_entries_below(f, rest, depth, p);
        assert(a.drop_last() =~= Seq::new(rest.len(), |i: int| BlobTopologyEntry { guid: rest[i], depth }));
        assert(needed_entries(f, a, p) =~= r);
    } else {
        assert(needed_entries(f, a, p) =~= r);
    }
}

/// What is spread for the entries that may hold keys with `p` is what of the
/// whole spread may.
proof fn lemma_spread_needed(f: Forest, all: Seq<BlobTopologyEntry>, n: int, p: Seq<u8>)
    requires
        f.linked(),
        0 <= n <= all.len(),
        forall|i: int| 0 <= i < all.len() ==> f.has((#[trigger] all[i]).guid),
    ensures
        ({
            let some = needed_entries(f, all.take(n), p);
            needed_entries(f, spread(f, all, n), p) == spread_related(f, some, some.len() as int, p)
        }),
    decreases n,
{
    if n == 0 {
        assert(all.take(0) =~= Seq::<BlobTopologyEntry>::empty());
    } else {
        let e = all[n - 1];
        let g = e.guid;
        let before = needed_entries(f, all.take(n - 1), p);
        let some = needed_entries(f, all.take(n), p);
        lemma_spread_needed(f, all, n - 1, p);
        assert(all.take(n).drop_last() =~= all.take(n - 1));
        assert(all.take(n).last() == e);
        lemma_entries_add(f, spread(f, all, n - 1), entries_below(f, e), p);
        lemma_entries_below(f, children(f, g), deeper(e.depth), p);
        assert(needed_entries(f, entries_below(f, e), p) =~= related_below(f, e, p));
        if related(f.base[g], p) {
            assert(some == before.push(e));
            lemma_spread_related_same(f, before, some, before.len() as int, p);
        } else {
            assert(f.has(g));
            assert forall|c: BlobGuid| #[trigger] children(f, g).contains(c) implies !related(f.base[c], p) by {
                lemma_children(f, g, c);
                lemma_related_below(f.base[g], f.base[c], p);
            }
            lemma_needed_none(f, children(f, g), p);
            assert(related_below(f, e, p) =~= Seq::<BlobTopologyEntry>::empty());
            assert(needed_entries(f, spread(f, all, n), p) =~= needed_entries(f, spread(f, all, n - 1), p));
        }
    }
}

proof fn lemma_entries_kept(f: Forest, all: Seq<BlobTopologyEntry>, p: Seq<u8>, i: int)
    requires
        0 <= i < needed_entries(f, all, p).len(),
    ensures
        all.contains(needed_entries(f, all, p)[i]),
    decreases all.len(),
{
    let rest = all.drop_last();
    let n = needed_entries(f, rest, p);
    if i < n.len() {
        lemma_entries_kept(f, rest, p, i);
        let k = choose|k: int| 0 <= k < rest.len() && rest[k] == n[i];
        assert(all[k] == n[i]);
    } else {
        assert(all[all.len() - 1] == all.last());
    }
}

/// What is listed for a prefix is what of the whole list may hold such keys,
/// at the same depths and in the same order.
pub proof fn prefix_lists_are_part_of_whole_lists(
    f: Forest,
    root: BlobGuid,
    prefix: Seq<u8>,
    some: Seq<BlobTopologyEntry>,
    all: Seq<BlobTopologyEntry>,
)
    requires
        f.linked(),
        covers_prefix(f, root, prefix, some),
        level_order(f, root, all),
    ensures
        some == needed_entries(f, all, f.base[root] + prefix),
{
    let p = f.base[root] + prefix;
    let first = seq![BlobTopologyEntry { guid: root, depth: 0 }];
    let list = needed_entries(f, all, p);
    lemma_spread_needed(f, all, all.len() as int, p);
    assert(all.take(all.len() as int) =~= all);
    lemma_entries_add(f, first, spread(f, all, all.len() as int), p);
    assert(f.base[root].is_prefix_of(p)) by {
        assert(p.subrange(0, f.base[root].len() as int) =~= f.base[root]);
    }
    assert(first.drop_last() =~= Seq::<BlobTopologyEntry>::empty());
    assert(needed_entries(f, first.drop_last(), p) =~= Seq::<BlobTopologyEntry>::empty());
    assert(needed_entries(f, first, p) =~= first);
    assert forall|i: int| 0 <= i < list.len() implies f.has((#[trigger] list[i]).guid) by {
        lemma_entries_kept(f, all, p, i);
        let k = choose|k: int| 0 <= k < all.len() && all[k] == list[i];
        assert(f.has(all[k].guid));
    }
    assert(related_order(f, root, p, list));
    related_orders_are_unique(f, root, p, some, list);
}

/// Whether some key leaves blob `a` for blob `b`.
pub open spec fn crosses(f: Forest, a: BlobGuid, b: BlobGuid) -> bool {
    exists|key: Seq<u8>| f.below(a, key) && (#[trigger] f.route(a, key) matches Route::Crossing { guid, .. } && guid == b)
}

/// Whether `way` goes from blob to blob by crossings.
pub open spec fn is_way(f: Forest, way: Seq<BlobGuid>) -> bool {
    forall|k: int| 0 <= k < way.len() - 1 ==> crosses(f, #[trigger] way[k], way[k + 1])
}

/// A child is crossed to.
proof fn lemma_child_crossed(f: Forest, g: BlobGuid, c: BlobGuid)
    requires
        f.linked(),
        f.has(g),
        children(f, g).contains(c),
    ensures
        crosses(f, g, c),
{
    lemma_children(f, g, c);
    crate::scan::lemma_leads_root(f, g);
    assert(f.blobs[g].wf(f.base[g]));
    crate::scan::lemma_exit_route(f, g, f.blobs[g].cells@, f.blobs[g].tree(), f.base[g], c);
    let key = f.base[c];
    assert(key.subrange(0, key.len() as int) =~= key);
    assert(f.below(g, key));
    assert(f.route(g, key) is Crossing);
}

proof fn lemma_way_to(f: Forest, root: BlobGuid, p: Seq<u8>, all: Seq<BlobTopologyEntry>, i: int) -> (way: Seq<BlobGuid>)
    requires
        f.linked(),
        related_order(f, root, p, all),
        0 <= i < all.len() <= u32::MAX,
    ensures
        is_way(f, way),
        way.len() == all[i].depth + 1,
        way.len() <= i + 1,
        way[0] == root,
        way.last() == all[i].guid,
    decreases i,
{
    let first = seq![BlobTopologyEntry { guid: root, depth: 0 }];
    assert((first + spread_related(f, all, all.len() as int, p))[0] == first[0]);
    if i == 0 {
        seq![root]
    } else {
        let j = lemma_parent(f, root, p, all, i);
        let way = lemma_way_to(f, root, p, all, j);
        assert(f.has(all[j].guid));
        lemma_child_crossed(f, all[j].guid, all[i].guid);
        let more = way.push(all[i].guid);
        assert forall|k: int| 0 <= k < more.len() - 1 implies crosses(f, #[trigger] more[k], more[k + 1]) by {
            if k < way.len() - 1 {
                assert(crosses(f, way[k], way[k + 1]));
            }
        }
        more
    }
}

/// The depth of a listed blob is the number of crossings that lead to it from
/// the root.
pub proof fn depths_count_crossings(f: Forest, root: BlobGuid, all: Seq<BlobTopologyEntry>, i: int) -> (way: Seq<BlobGuid>)
    requires
        f.linked(),
        level_order(f, root, all),
        0 <= i < all.len() <= u32::MAX,
    ensures
        is_way(f, way),
        way[0] == root,
        way.last() == all[i].guid,
        all[i].depth == way.len() - 1,
{
    lemma_whole_order(f, root, all);
    lemma_way_to(f, root, Seq::empty(), all, i)
}

/// So it is in a list for a prefix.
pub proof fn prefix_depths_count_crossings(f: Forest, root: BlobGuid, prefix: Seq<u8>, all: Seq<BlobTopologyEntry>, i: int) -> (way: Seq<BlobGuid>)
    requires
        f.linked(),
        covers_prefix(f, root, prefix, all),
        0 <= i < all.len() <= u32::MAX,
    ensures
        is_way(f, way),
        way[0] == root,
        way.last() == all[i].guid,
        all[i].depth == way.len() - 1,
{
    lemma_way_to(f, root, f.base[root] + prefix, all, i)
}

/// Whatever a key of a listed blob crosses to is listed too, exactly one deeper.
pub proof fn crossings_are_listed_one_deeper(f: Forest, root: BlobGuid, all: Seq<BlobTopologyEntry>, j: int, key: Seq<u8>)
    requires
        f.linked(),
        level_order(f, root, all),
        0 <= j < all.len(),
        all[j].depth < u32::MAX,
        f.below(all[j].guid, key),
        f.route(all[j].guid, key) is Crossing,
    ensures
        exists|i: int| j < i < all.len() && (#[trigger] all[i]).guid == f.route(all[j].guid, key)->guid && all[i].depth == all[j].depth + 1,
{
    let g = all[j].guid;
    let c = f.route(g, key)->guid;
    crate::laws::lemma_crossing_exits(f.blobs[g].tree(), key, f.base[g].len() as int);
    let k = choose|k: int| 0 <= k < children(f, g).len() && children(f, g)[k] == c;
    lemma_whole_order(f, root, all);
    let p = Seq::<u8>::empty();
    let n = all.len() as int;
    lemma_spread_whole(f, all, j);
    lemma_spread_whole(f, all, j + 1);
    lemma_spread_grows(f, all, j + 1, n, p);
    let a = spread_related(f, all, j, p);
    let b = spread_related(f, all, j + 1, p);
    let rest = spread_related(f, all, n, p);
    let first = seq![BlobTopologyEntry { guid: root, depth: 0 }];
    assert(b[a.len() + k] == entries_below(f, all[j])[k]);
    assert(rest.subrange(0, b.len() as int)[a.len() + k] == rest[a.len() + k]);
    let i = a.len() + k + 1;
    assert((first + rest)[i] == rest[i - 1]);
    assert(all[i].guid == c && all[i].depth == all[j].depth + 1);
    if i <= j {
        lemma_depths_rise(f, root, p, all, i, j);
    }
}

/// What a list for a prefix has may hold keys with the prefix: some key begins
/// with the bytes of the blob and with the prefix.
pub proof fn prefix_lists_are_needed(f: Forest, root: BlobGuid, prefix: Seq<u8>, all: Seq<BlobTopologyEntry>, i: int) -> (key: Seq<u8>)
    requires
        covers_prefix(f, root, prefix, all),
        0 <= i < all.len(),
    ensures
        f.base[all[i].guid].is_prefix_of(key),
        (f.base[root] + prefix).is_prefix_of(key),
{
    let a = f.base[all[i].guid];
    let b = f.base[root] + prefix;
    assert(crate::scan::listed(all, all[i].guid));
    assert(a.subrange(0, a.len() as int) =~= a);
    assert(b.subrange(0, b.len() as int) =~= b);
    if a.is_prefix_of(b) {
        b
    } else {
        a
    }
}

/// A list for a prefix has every blob that the walk of a key with the prefix
/// comes through.
pub proof fn prefix_lists_have_every_walk(f: Forest, root: BlobGuid, prefix: Seq<u8>, all: Seq<BlobTopologyEntry>, g: BlobGuid, key: Seq<u8>)
    requires
        f.linked(),
        f.has(root),
        covers_prefix(f, root, prefix, all),
        crate::scan::listed(all, g),
        f.has(g),
        f.below(g, key),
        (f.base[root] + prefix).is_prefix_of(key),
        f.route(g, key) is Crossing,
    ensures
        crate::scan::listed(all, f.route(g, key)->guid),
{
    let c = f.route(g, key)->guid;
    assert(f.edge_ok(g, key));
    crate::laws::lemma_crossing_exits(f.blobs[g].tree(), key, f.base[g].len() as int);
    assert(children(f, g).contains(c));
    lemma_reaches_child(f, root, g, c);
    crate::laws::lemma_both_prefixes(f.base[c], f.base[root] + prefix, key);
}

/// What comes earlier among the exits of a tree is led to by smaller bytes.
proof fn lemma_exits_rise(f: Forest, g: BlobGuid, c: Seq<Option<Node>>, t: Art, path: Seq<u8>, i: int, j: int)
    requires
        f.linked(),
        f.has(g),
        rep(c, t),
        leads(f, g, t, path),
        0 <= i < j < exits(t).len(),
    ensures
        past(f.base[exits(t)[i]], f.base[exits(t)[j]]),
    decreases t, (if t is Inner { t->kids.len() + 1 } else { 0 }),
{
    match t {
        Art::Prefix { bytes, child, .. } => {
            lemma_leads_prefix(f, g, t, path);
            lemma_exits_rise(f, g, c, *child, path + bytes, i, j);
        },
        Art::Inner { kids, .. } => lemma_exits_rise_below(f, g, c, t, path, kids.len() as int, i, j),
        _ => {},
    }
}

proof fn lemma_exits_rise_below(f: Forest, g: BlobGuid, c: Seq<Option<Node>>, t: Art, path: Seq<u8>, n: int, i: int, j: int)
    requires
        f.linked(),
        f.has(g),
        rep(c, t),
        leads(f, g, t, path),
        t is Inner,
        0 <= n <= t->kids.len(),
        0 <= i < j < exits_below(t->kids, n).len(),
    ensures
        past(f.base[exits_below(t->kids, n)[i]], f.base[exits_below(t->kids, n)[j]]),
    decreases t, n,
{
    let kids = t->kids;
    let before = exits_below(kids, n - 1);
    let m = before.len() as int;
    if j < m {
        lemma_exits_rise_below(f, g, c, t, path, n - 1, i, j);
    } else if let Some(k) = kids[n - 1] {
        let last = exits(k);
        lemma_leads_kid(f, g, t, path, (n - 1) as u8);
        assert(rep(c, k));
        if i >= m {
            lemma_exits_rise(f, g, c, k, path.push((n - 1) as u8), i - m, j - m);
        } else {
            let (x, y) = (before[i], last[j - m]);
            assert(before.contains(x) && last.contains(y));
            lemma_exit_kid(kids, n - 1, x);
            let b = choose|b: int| 0 <= b < n - 1 && (#[trigger] kids[b]) is Some && exits(kids[b]->0).contains(x);
            lemma_leads_kid(f, g, t, path, b as u8);
            assert(rep(c, kids[b]->0));
            lemma_exit_child(f, g, c, kids[b]->0, path.push(b as u8), x);
            lemma_exit_child(f, g, c, k, path.push((n - 1) as u8), y);
            lemma_prefix_agree(path.push(b as u8), f.base[x]);
            lemma_prefix_agree(path.push((n - 1) as u8), f.base[y]);
            let d = path.len() as int;
            assert(f.base[x][d] == b && f.base[y][d] == n - 1);
            assert forall|z: int| 0 <= z < d implies f.base[x][z] == f.base[y][z] by {
                assert(path.push(b as u8)[z] == path[z]);
                assert(path.push((n - 1) as u8)[z] == path[z]);
            }
            assert(rises_at(f.base[x], f.base[y], d));
        }
    }
}

/// The children of a blob are listed in the order of the bytes that lead to
/// them, none of which begin with others.
pub proof fn children_come_in_key_order(f: Forest, g: BlobGuid, i: int, j: int)
    requires
        f.linked(),
        f.has(g),
        0 <= i < j < children(f, g).len(),
    ensures
        lex_lt(f.base[children(f, g)[i]], f.base[children(f, g)[j]]),
        !f.base[children(f, g)[i]].is_prefix_of(f.base[children(f, g)[j]]),
{
    lemma_leads_root(f, g);
    assert(f.blobs[g].wf(f.base[g]));
    lemma_exits_rise(f, g, f.blobs[g].cells@, f.blobs[g].tree(), f.base[g], i, j);
    past_is_after_all(f.base[children(f, g)[i]], f.base[children(f, g)[j]]);
}

/// A blob's children are all the blobs that some key leaves it for.
pub proof fn children_are_what_is_crossed_to(f: Forest, g: BlobGuid, c: BlobGuid)
    requires
        f.linked(),
        f.has(g),
    ensures
        children(f, g).contains(c) <==> crosses(f, g, c),
{
    if children(f, g).contains(c) {
        lemma_child_crossed(f, g, c);
    }
    if crosses(f, g, c) {
        let key = choose|key: Seq<u8>| f.below(g, key) && (#[trigger] f.route(g, key) matches Route::Crossing { guid, .. } && guid == c);
        crate::laws::lemma_crossing_exits(f.blobs[g].tree(), key, f.base[g].len() as int);
    }
}

} // verus!
