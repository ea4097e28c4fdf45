//! What holds of every scan.
use vstd::prelude::*;

use crate::art::{step, Art, Route};
use crate::cursor::live;
use crate::forest::Forest;
use crate::key_range::{gave_out, in_turn, items_of, keys_in, left, scanned, Query};
use crate::layout::BlobGuid;
use crate::order::{
    agree, folds, key_order_is_total, lemma_order_at, lemma_part, lemma_prefix_agree, lex_lt,
    past_is_after_all, rises_at, unfolded, user_of,
};
use crate::range::{begins, ended, Item, KeyRangeEntry, RangeBuilder, RangeIter};
use crate::store::BufferManager;

verus! {

/// What lies between a key and a longer one that begins with it begins with
/// it too.
proof fn lemma_between(c: Seq<u8>, k: Seq<u8>, u: Seq<u8>)
    requires
        c.is_prefix_of(u),
        !lex_lt(k, c),
        !lex_lt(u, k),
    ensures
        c.is_prefix_of(k),
{
    let i = lemma_part(k, c);
    lemma_order_at(k, c, i);
    lemma_order_at(c, k, i);
    lemma_prefix_agree(c, u);
    if i < c.len() {
        assert(i < k.len());
        assert(agree(u, k, i));
        lemma_order_at(u, k, i);
    }
}

/// No common prefix begins with another one.
proof fn lemma_no_nested(prefix: Seq<u8>, d: u8, u: Seq<u8>, c: Seq<u8>, v: Seq<u8>, e: Seq<u8>)
    requires
        folds(prefix, d, u, c),
        folds(prefix, d, v, e),
        c.is_prefix_of(e),
    ensures
        c == e,
{
    lemma_prefix_agree(c, e);
    if c.len() < e.len() {
        assert(c[c.len() - 1] == e[c.len() - 1]);
        assert(e[c.len() - 1] == d);
    } else {
        assert(c =~= e);
    }
}

/// A key that is listed as it is begins with no common prefix.
proof fn lemma_not_folded(prefix: Seq<u8>, d: u8, k: Seq<u8>, u: Seq<u8>, c: Seq<u8>)
    requires
        unfolded(prefix, Some(d), k),
        folds(prefix, d, u, c),
    ensures
        !c.is_prefix_of(k),
{
    if c.is_prefix_of(k) {
        lemma_prefix_agree(c, k);
        assert(k[c.len() - 1] == d);
    }
}

/// A common prefix is a prefix of what folds into it.
proof fn lemma_fold_prefix(prefix: Seq<u8>, d: u8, u: Seq<u8>, c: Seq<u8>)
    requires
        folds(prefix, d, u, c),
    ensures
        c.is_prefix_of(u),
{
    lemma_prefix_agree(c, u);
}

/// Two items that fold keys or list them as they are, the first before a key
/// of the second, stand in that order.
proof fn lemma_before_is_less(q: Query, a: Item, su: Seq<u8>, b: Item, u: Seq<u8>)
    requires
        a matches Item::Key { key, .. } ==> unfolded(q.prefix, q.delimiter, key),
        a matches Item::Common { common } ==> q.delimiter is Some && folds(q.prefix, q.delimiter->0, su, common),
        b matches Item::Key { key, .. } ==> key == u,
        b matches Item::Common { common } ==> q.delimiter is Some && folds(q.prefix, q.delimiter->0, u, common),
        a.before(u),
    ensures
        lex_lt(a.bytes(), b.bytes()),
{
    match b {
        Item::Key { .. } => {
            past_is_after_all(a.bytes(), u);
        },
        Item::Common { common: c } => {
            let d = q.delimiter->0;
            lemma_fold_prefix(q.prefix, d, u, c);
            match a {
                Item::Key { key: k, .. } => {
                    if !lex_lt(k, c) {
                        key_order_is_total(k, u);
                        lemma_between(c, k, u);
                        lemma_not_folded(q.prefix, d, k, u, c);
                    }
                },
                Item::Common { common: e } => {
                    let i = choose|i: int| rises_at(e, u, i);
                    lemma_prefix_agree(c, u);
                    if i < c.len() {
                        assert(rises_at(e, c, i));
                    } else {
                        assert(agree(c, e, c.len() as int));
                        lemma_prefix_agree(c, e);
                        lemma_no_nested(q.prefix, d, u, c, su, e);
                    }
                },
            }
        },
    }
}

/// A scan gives out its items in strictly ascending order, so nothing twice.
pub proof fn scans_ascend(f: Forest, root: BlobGuid, q: Query, limit: int, items: Seq<Item>, i: int, j: int)
    requires
        scanned(f, root, q, limit, items),
        0 <= i < j < items.len(),
    ensures
        lex_lt(items[i].bytes(), items[j].bytes()),
{
    assert(in_turn(f, root, q, items, i));
    assert(in_turn(f, root, q, items, j));
    let si = choose|s: Seq<u8>| left(q, items, i, #[trigger] user_of(s)) && items[i].shows(f, root, q.prefix, q.delimiter, s);
    let sj = choose|s: Seq<u8>| left(q, items, j, #[trigger] user_of(s)) && items[j].shows(f, root, q.prefix, q.delimiter, s);
    assert(items[i].before(user_of(sj)));
    lemma_before_is_less(q, items[i], user_of(si), items[j], user_of(sj));
}

/// Whether an item stands for key `u`.
pub open spec fn stands_for(item: Item, u: Seq<u8>) -> bool {
    match item {
        Item::Key { key, .. } => key == u,
        Item::Common { common } => common.is_prefix_of(u),
    }
}

/// A key not before an item, and not left over by it, is one that the item
/// stands for.
proof fn lemma_not_before(item: Item, u: Seq<u8>)
    requires
        !lex_lt(u, item.bytes()),
        !item.before(u),
    ensures
        stands_for(item, u),
{
    key_order_is_total(item.bytes(), u);
    past_is_after_all(item.bytes(), u);
    if item.bytes() == u {
        lemma_prefix_agree(u, u);
    }
}

/// The first item, of those from `k` on, that does not come before `u`.
proof fn lemma_first_not_before(q: Query, items: Seq<Item>, k: int, u: Seq<u8>) -> (i: int)
    requires
        0 <= k <= items.len(),
        left(q, items, k, u),
        !left(q, items, items.len() as int, u),
    ensures
        k <= i < items.len(),
        left(q, items, i, u),
        !items[i].before(u),
    decreases items.len() - k,
{
    if k == items.len() {
        k
    } else if items[k].before(u) {
        assert(left(q, items, k + 1, u)) by {
            assert forall|m: int| 0 <= m < k + 1 implies (#[trigger] items[m]).before(u) by {}
        }
        lemma_first_not_before(q, items, k + 1, u)
    } else {
        k
    }
}

/// A scan that ends before its limit has an item for every live key that was
/// asked for.
pub proof fn scans_miss_nothing(f: Forest, root: BlobGuid, q: Query, limit: int, items: Seq<Item>, s: Seq<u8>)
    requires
        scanned(f, root, q, limit, items),
        items.len() < limit,
        live(f, root, s),
        q.wants(user_of(s)),
    ensures
        exists|i: int| 0 <= i < items.len() && stands_for(#[trigger] items[i], user_of(s)),
{
    let u = user_of(s);
    assert(left(q, items, 0, u));
    let i = lemma_first_not_before(q, items, 0, u);
    assert(in_turn(f, root, q, items, i));
    assert(!lex_lt(u, items[i].bytes()));
    lemma_not_before(items[i], u);
}

/// Every item of a scan stands for a live key that was asked for.
pub proof fn scans_invent_nothing(f: Forest, root: BlobGuid, q: Query, limit: int, items: Seq<Item>, i: int)
    requires
        scanned(f, root, q, limit, items),
        0 <= i < items.len(),
    ensures
        exists|s: Seq<u8>| #[trigger] live(f, root, s) && q.wants(user_of(s)) && stands_for(items[i], user_of(s)),
{
    assert(in_turn(f, root, q, items, i));
    let s = choose|s: Seq<u8>| left(q, items, i, #[trigger] user_of(s)) && items[i].shows(f, root, q.prefix, q.delimiter, s);
    assert(live(f, root, s));
    if items[i] is Common {
        lemma_fold_prefix(q.prefix, q.delimiter->0, user_of(s), items[i]->common);
    }
}

/// A tree leads two keys, one of which begins with the other, to the same
/// place, or one of them nowhere.
proof fn lemma_same_place(t: Art, s: Seq<u8>, u: Seq<u8>, d: int)
    requires
        s.is_prefix_of(u),
        !(step(t, s, d) is NotFound),
        !(step(t, u, d) is NotFound),
    ensures
        step(t, s, d) == step(t, u, d),
        step(t, s, d) is Found ==> s == u,
    decreases t,
{
    lemma_prefix_agree(s, u);
    match t {
        Art::Prefix { bytes, child, .. } => lemma_same_place(*child, s, u, d + bytes.len()),
        Art::Inner { kids, .. } => lemma_same_place(kids[s[d] as int]->0, s, u, d + 1),
        _ => {},
    }
}

/// Of two live keys neither begins with the other.
pub proof fn live_keys_are_apart(f: Forest, root: BlobGuid, s: Seq<u8>, u: Seq<u8>)
    requires
        live(f, root, s),
        live(f, root, u),
        s.is_prefix_of(u),
    ensures
        s == u,
    decreases f.rank[root],
{
    lemma_same_place(f.blobs[root].tree(), s, u, f.base[root].len() as int);
    if let Route::Crossing { guid, .. } = f.route(root, s) {
        live_keys_are_apart(f, guid, s, u);
    }
}

/// A user's key has at most one live record.
pub proof fn live_keys_are_unique(f: Forest, root: BlobGuid, s: Seq<u8>, u: Seq<u8>)
    requires
        live(f, root, s),
        live(f, root, u),
        user_of(s) == user_of(u),
    ensures
        s == u,
{
    let k = user_of(s);
    assert forall|i: int| 0 <= i < s.len() && i < u.len() implies s[i] == u[i] by {
        if i < k.len() {
            assert(s[i] == k[i]);
            assert(u[i] == k[i]);
        }
    }
    if s.len() <= u.len() {
        assert(agree(s, u, s.len() as int));
        lemma_prefix_agree(s, u);
        live_keys_are_apart(f, root, s, u);
    } else {
        assert(agree(u, s, u.len() as int));
        lemma_prefix_agree(u, s);
        live_keys_are_apart(f, root, u, s);
    }
}

/// Two items that are both first among the same keys stand for the same.
proof fn lemma_same_first(q: Query, a: Item, u: Seq<u8>, b: Item, v: Seq<u8>)
    requires
        a matches Item::Key { key, .. } ==> key == u && unfolded(q.prefix, q.delimiter, key),
        a matches Item::Common { common } ==> q.delimiter is Some && folds(q.prefix, q.delimiter->0, u, common),
        b matches Item::Key { key, .. } ==> key == v && unfolded(q.prefix, q.delimiter, key),
        b matches Item::Common { common } ==> q.delimiter is Some && folds(q.prefix, q.delimiter->0, v, common),
        !lex_lt(u, b.bytes()),
        !lex_lt(v, a.bytes()),
    ensures
        a is Key == b is Key,
        a.bytes() == b.bytes(),
{
    match (a, b) {
        (Item::Key { .. }, Item::Key { .. }) => {
            key_order_is_total(u, v);
        },
        (Item::Key { key, .. }, Item::Common { common }) => {
            lemma_fold_prefix(q.prefix, q.delimiter->0, v, common);
            lemma_between(common, key, v);
            lemma_not_folded(q.prefix, q.delimiter->0, key, v, common);
        },
        (Item::Common { common }, Item::Key { key, .. }) => {
            lemma_fold_prefix(q.prefix, q.delimiter->0, u, common);
            lemma_between(common, key, u);
            lemma_not_folded(q.prefix, q.delimiter->0, key, u, common);
        },
        (Item::Common { common: c }, Item::Common { common: e }) => {
            let d = q.delimiter->0;
            lemma_fold_prefix(q.prefix, d, u, c);
            lemma_fold_prefix(q.prefix, d, v, e);
            key_order_is_total(c, e);
            if lex_lt(c, e) {
                lemma_between(c, e, u);
                lemma_no_nested(q.prefix, d, u, c, v, e);
            } else if lex_lt(e, c) {
                lemma_between(e, c, v);
                lemma_no_nested(q.prefix, d, v, e, u, c);
            }
        },
    }
}

proof fn lemma_same_so_far(f: Forest, root: BlobGuid, q: Query, a: Seq<Item>, b: Seq<Item>, limit: int, n: int)
    requires
        scanned(f, root, q, limit, a),
        scanned(f, root, q, limit, b),
        0 <= n <= a.len(),
        n <= b.len(),
    ensures
        forall|i: int| 0 <= i < n ==> #[trigger] a[i] == b[i],
    decreases n,
{
    if n > 0 {
        let k = n - 1;
        lemma_same_so_far(f, root, q, a, b, limit, k);
        assert(in_turn(f, root, q, a, k));
        assert(in_turn(f, root, q, b, k));
        let s = choose|s: Seq<u8>| left(q, a, k, #[trigger] user_of(s)) && a[k].shows(f, root, q.prefix, q.delimiter, s);
        let t = choose|s: Seq<u8>| left(q, b, k, #[trigger] user_of(s)) && b[k].shows(f, root, q.prefix, q.delimiter, s);
        assert(left(q, b, k, user_of(s))) by {
            assert forall|i: int| 0 <= i < k implies (#[trigger] b[i]).before(user_of(s)) by {
                assert(a[i].before(user_of(s)));
            }
        }
        assert(left(q, a, k, user_of(t))) by {
            assert forall|i: int| 0 <= i < k implies (#[trigger] a[i]).before(user_of(t)) by {
                assert(a[i] == b[i]);
                assert(b[i].before(user_of(t)));
            }
        }
        assert(live(f, root, s));
        assert(live(f, root, t));
        lemma_same_first(q, a[k], user_of(s), b[k], user_of(t));
        if a[k] is Key {
            live_keys_are_unique(f, root, s, t);
        }
    }
}

/// What a scan gives out is determined by what the store holds.
pub proof fn scans_are_determined(f: Forest, root: BlobGuid, q: Query, a: Seq<Item>, b: Seq<Item>, limit: int)
    requires
        scanned(f, root, q, limit, a),
        scanned(f, root, q, limit, b),
    ensures
        a == b,
{
    let n = if a.len() < b.len() {
        a.len() as int
    } else {
        b.len() as int
    };
    lemma_same_so_far(f, root, q, a, b, limit, n);
    lemma_ends_together(f, root, q, a, b, limit);
    assert forall|i: int| 0 <= i < b.len() && i < a.len() implies #[trigger] b[i] == a[i] by {
        assert(a[i] == b[i]);
    }
    lemma_ends_together(f, root, q, b, a, limit);
    assert(a =~= b);
}

/// A scan does not end where another one goes on.
proof fn lemma_ends_together(f: Forest, root: BlobGuid, q: Query, a: Seq<Item>, b: Seq<Item>, limit: int)
    requires
        scanned(f, root, q, limit, a),
        scanned(f, root, q, limit, b),
        forall|i: int| 0 <= i < a.len() && i < b.len() ==> #[trigger] a[i] == b[i],
    ensures
        a.len() >= b.len(),
{
    if a.len() < b.len() {
        let k = a.len() as int;
        assert(in_turn(f, root, q, b, k));
        let t = choose|s: Seq<u8>| left(q, b, k, #[trigger] user_of(s)) && b[k].shows(f, root, q.prefix, q.delimiter, s);
        assert(left(q, a, k, user_of(t))) by {
            assert forall|i: int| 0 <= i < k implies (#[trigger] a[i]).before(user_of(t)) by {
                assert(b[i].before(user_of(t)));
            }
        }
        assert(live(f, root, t));
    }
}

/// What a scan of records asks for.
pub open spec fn asked_by(b: RangeBuilder) -> Query {
    Query {
        prefix: b.prefix@,
        start_after: match b.start_after {
            Some(k) => Some(k@),
            None => None,
        },
        delimiter: b.delimiter,
    }
}

/// Whether `its` are the states that a scan went through while it gave out
/// `items`, call by call, over stores that may have changed in between.
pub open spec fn ran(bms: Seq<BufferManager>, its: Seq<RangeIter>, items: Seq<Item>) -> bool {
    &&& its.len() == items.len() + 1
    &&& bms.len() == items.len()
    &&& forall|i: int| 0 <= i < items.len() ==> #[trigger] gave_out(bms[i], its, items, i)
}

/// What is pending after `k` items is what they leave.
proof fn lemma_pending(b: RangeBuilder, bms: Seq<BufferManager>, its: Seq<RangeIter>, items: Seq<Item>, k: int)
    requires
        begins(b, its[0]),
        ran(bms, its, items),
        0 <= k <= items.len(),
    ensures
        its[k].root == b.root,
        its[k].prefix@ == b.prefix@,
        its[k].delimiter == b.delimiter,
        forall|u: Seq<u8>| #[trigger] its[k].pending(u) <==> left(asked_by(b), items, k, u),
    decreases k,
{
    let q = asked_by(b);
    if k == 0 {
        assert forall|u: Seq<u8>| #[trigger] its[0].pending(u) <==> left(q, items, 0, u) by {
            assert(its[0].pending(u) == b.wants(u));
        }
    } else {
        lemma_pending(b, bms, its, items, k - 1);
        assert(gave_out(bms[k - 1], its, items, k - 1));
        assert forall|u: Seq<u8>| #[trigger] its[k].pending(u) <==> left(q, items, k, u) by {
            assert(its[k].pending(u) <==> its[k - 1].pending(u) && items[k - 1].before(u));
            assert(its[k - 1].pending(u) <==> left(q, items, k - 1, u));
            if left(q, items, k - 1, u) && items[k - 1].before(u) {
                assert forall|i: int| 0 <= i < k implies (#[trigger] items[i]).before(u) by {}
            }
        }
    }
}

/// Call by call a scan over a store that does not change gives out the live
/// keys that were asked for, each in its turn; once it has ended, or gave out
/// `limit` items, it gave what a scan of at most `limit` items gives.
pub proof fn draining_gives_the_whole_scan(
    b: RangeBuilder,
    bm: BufferManager,
    bms: Seq<BufferManager>,
    its: Seq<RangeIter>,
    items: Seq<Item>,
    end: RangeIter,
    limit: int,
)
    requires
        begins(b, its[0]),
        ran(bms, its, items),
        forall|i: int| 0 <= i < bms.len() ==> (#[trigger] bms[i]) == bm,
        items.len() <= limit,
        items.len() < limit ==> ended(its.last(), end, bm),
    ensures
        scanned(bm.forest(), b.root, asked_by(b), limit, items),
{
    let f = bm.forest();
    let q = asked_by(b);
    assert forall|k: int| 0 <= k < items.len() implies #[trigger] in_turn(f, b.root, q, items, k) by {
        lemma_pending(b, bms, its, items, k);
        assert(gave_out(bms[k], its, items, k));
        assert(bms[k] == bm);
        let s = choose|s: Seq<u8>| its[k].pending(#[trigger] user_of(s)) && items[k].shows(f, its[k].root, its[k].prefix@, its[k].delimiter, s);
        assert(left(q, items, k, user_of(s)));
        assert forall|s2: Seq<u8>| #[trigger] live(f, b.root, s2) && left(q, items, k, user_of(s2)) implies !lex_lt(user_of(s2), items[k].bytes()) by {
            assert(its[k].pending(user_of(s2)));
        }
    }
    if items.len() < limit {
        let n = items.len() as int;
        lemma_pending(b, bms, its, items, n);
        assert forall|s: Seq<u8>| #[trigger] live(f, b.root, s) implies !left(q, items, n, user_of(s)) by {
            assert(!its[n].pending(user_of(s)));
        }
    }
}

/// Over any number of calls, and whatever was written in between, a scan counts
/// each key and each common prefix that it gave out, as long as its counters
/// hold them.
pub proof fn scans_count_what_they_give(bms: Seq<BufferManager>, its: Seq<RangeIter>, items: Seq<Item>)
    requires
        ran(bms, its, items),
        its.last().stats.visited < u64::MAX,
    ensures
        its.last().stats.returned == its[0].stats.returned + keys_in(items),
        its.last().stats.rollup == its[0].stats.rollup + (items.len() - keys_in(items)),
        its[0].stats.visited <= its.last().stats.visited,
    decreases items.len(),
{
    if items.len() > 0 {
        let n = items.len() as int;
        let bms1 = bms.drop_last();
        let its1 = its.drop_last();
        let items1 = items.drop_last();
        assert(gave_out(bms[n - 1], its, items, n - 1));
        assert forall|i: int| 0 <= i < items1.len() implies #[trigger] gave_out(bms1[i], its1, items1, i) by {
            assert(gave_out(bms[i], its, items, i));
        }
        assert(its1.last() == its[n - 1]);
        scans_count_what_they_give(bms1, its1, items1);
        assert(items.last() == items[n - 1]);
    }
}

/// A visit of at most `limit` keys gives what a scan gives out call by call
/// until it ended or gave out as many, whether the cache had the list or not.
pub proof fn visits_give_what_scans_give(
    b: RangeBuilder,
    bm: BufferManager,
    bms: Seq<BufferManager>,
    its: Seq<RangeIter>,
    items: Seq<Item>,
    end: RangeIter,
    limit: int,
    entries: Seq<KeyRangeEntry>,
)
    requires
        begins(b, its[0]),
        ran(bms, its, items),
        forall|i: int| 0 <= i < bms.len() ==> (#[trigger] bms[i]) == bm,
        items.len() <= limit,
        items.len() < limit ==> ended(its.last(), end, bm),
        scanned(bm.forest(), b.root, asked_by(b), limit, items_of(entries)),
    ensures
        items == items_of(entries),
{
    draining_gives_the_whole_scan(b, bm, bms, its, items, end, limit);
    scans_are_determined(bm.forest(), b.root, asked_by(b), items, items_of(entries), limit);
}

} // verus!
