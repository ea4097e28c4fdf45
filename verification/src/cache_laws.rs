//! What holds of the caches, and of the counters that scans keep.
use vstd::prelude::*;

use crate::art::Route;
use crate::forest::Forest;
use crate::key_range::{is_hit, kept_list, keys_in, outcome_ok, query_of, refused, PrefixListCache, Query};
use crate::layout::BlobGuid;
use crate::cursor::{live, stored, Cursor};
use crate::order::{past, user_of};
use crate::range::{ended, is_stale, looks_from, rose_by, tallied, visits, went_on, Item, KeyRangeEntry, KeyScanOutcome, RangeIter};
use crate::route::knows_way;
use crate::route_cache::{learn_result, RouteCache, RouteHit};
use crate::store::BufferManager;

verus! {

/// A cache holds at most 16384 crossings, each out of a root, each behind a
/// prefix of its own of at most 96 bytes that reaches to the child.
pub proof fn route_caches_stay_small(c: RouteCache, p: Seq<u8>, h: RouteHit, g: RouteHit)
    requires
        c.wf(),
        c.has(p, h),
        c.has(p, g),
    ensures
        c.entries@.len() <= 16384,
        p.len() <= 96,
        h.parent_depth == 0,
        h.child_depth == p.len(),
        g == h,
{
    let i = choose|i: int| 0 <= i < c.entries@.len() && (#[trigger] c.entries@[i]).prefix@ == p && c.entries@[i].hit == h;
    let j = choose|j: int| 0 <= j < c.entries@.len() && (#[trigger] c.entries@[j]).prefix@ == p && c.entries@[j].hit == g;
    assert(i == j) by {
        if i < j {
            assert(c.entries@[i].prefix@ != c.entries@[j].prefix@);
        } else if j < i {
            assert(c.entries@[j].prefix@ != c.entries@[i].prefix@);
        }
    }
}

/// A crossing out of a root behind at most 96 of the key's bytes is kept: what
/// the cache holds for those bytes, or for fewer of them, leads over the same
/// edge.
pub proof fn seen_crossings_are_kept(c0: RouteCache, c: RouteCache, bytes: Seq<u8>, hit: RouteHit)
    requires
        learn_result(c0, c, bytes, hit),
        hit.parent_depth == 0,
        hit.child_depth <= bytes.len(),
        hit.child_depth <= 96,
    ensures
        exists|p: Seq<u8>, h: RouteHit| #[trigger]
            c.has(p, h) && p.is_prefix_of(bytes) && p.len() <= hit.child_depth && h.parent_guid == hit.parent_guid && h.child_guid
                == hit.child_guid && h.parent_depth == 0,
        // Just as it was seen, unless fewer bytes already led over the edge.
        (forall|p: Seq<u8>, h: RouteHit| #[trigger] c0.has(p, h) && p.is_prefix_of(bytes) && p.len() < hit.child_depth ==> h.child_guid
            != hit.child_guid) ==> c.has(bytes.take(hit.child_depth as int), hit),
        c.learns == c0.learns.wrapping_add(1),
{
    let prefix = bytes.take(hit.child_depth as int);
    assert(prefix.is_prefix_of(bytes));
    let known = exists|h: RouteHit| #[trigger] c0.has(prefix, h);
    let covered = exists|p: Seq<u8>, h: RouteHit| #[trigger]
        c0.has(p, h) && crate::route_cache::shorter(p, prefix) && crate::route_cache::same_edge(h, hit);
    if !known && covered {
        let (p, h) = choose|p: Seq<u8>, h: RouteHit| #[trigger]
            c0.has(p, h) && crate::route_cache::shorter(p, prefix) && crate::route_cache::same_edge(h, hit);
        assert(c.has(p, h)) by {
            let i = choose|i: int| 0 <= i < c0.entries@.len() && (#[trigger] c0.entries@[i]).prefix@ == p && c0.entries@[i].hit == h;
            assert(c.entries@[i].prefix@ == p);
        }
        crate::order::lemma_prefix_agree(p, prefix);
        crate::order::lemma_prefix_agree(p, bytes);
    } else {
        assert(c.has(prefix, hit));
    }
}

/// Seeing a crossing adds nothing else to the cache.
pub proof fn only_seen_crossings_are_kept(c0: RouteCache, c: RouteCache, bytes: Seq<u8>, hit: RouteHit, p: Seq<u8>, h: RouteHit)
    requires
        learn_result(c0, c, bytes, hit),
        c.has(p, h),
    ensures
        c0.has(p, h) || (h == hit && p == bytes.take(hit.child_depth as int) && hit.parent_depth == 0 && hit.child_depth <= 96
            && hit.child_depth <= bytes.len()),
{
    if !c0.has(p, h) {
        let prefix = bytes.take(hit.child_depth as int);
        if c.entries@ == c0.entries@ {
            let i = choose|i: int| 0 <= i < c.entries@.len() && (#[trigger] c.entries@[i]).prefix@ == p && c.entries@[i].hit == h;
            assert(c0.entries@[i].prefix@ == p);
        }
    }
}

/// Seeing a crossing drops what was cached only for those bytes, what it makes
/// needless (a longer prefix that leads over the same edge), or one entry of a
/// cache of 16384, which is counted.
pub proof fn cached_crossings_stay(c0: RouteCache, c: RouteCache, bytes: Seq<u8>, hit: RouteHit, p: Seq<u8>, h: RouteHit)
    requires
        learn_result(c0, c, bytes, hit),
        c0.wf(),
        c0.has(p, h),
        !c.has(p, h),
    ensures
        hit.parent_depth == 0 && hit.child_depth <= 96 && hit.child_depth <= bytes.len(),
        p == bytes.take(hit.child_depth as int) || (bytes.take(hit.child_depth as int).is_prefix_of(p) && p.len() > hit.child_depth
            && h.parent_guid == hit.parent_guid && h.child_guid == hit.child_guid) || (c0.entries@.len() == 16384 && c.evictions
            == c0.evictions.wrapping_add(1)),
{
    if c.entries@ == c0.entries@ {
        let i = choose|i: int| 0 <= i < c0.entries@.len() && (#[trigger] c0.entries@[i]).prefix@ == p && c0.entries@[i].hit == h;
        assert(c.entries@[i].prefix@ == p);
    }
}

/// The longest cached prefix of a key is the one that is followed, and only
/// where the root still leads the key over that edge.
pub proof fn the_longest_way_is_taken(c: RouteCache, f: Forest, root: BlobGuid, bytes: Seq<u8>, key: Seq<u8>, p: Seq<u8>, h: RouteHit)
    requires
        c.wf(),
        c.has(p, h),
        p.is_prefix_of(bytes),
        forall|q: Seq<u8>, g: RouteHit| #[trigger] c.has(q, g) && q.is_prefix_of(bytes) ==> q.len() <= p.len(),
    ensures
        knows_way(Some(c), f, root, bytes, key) <==> f.route(root, key) == (Route::Crossing { guid: h.child_guid, depth: p.len() as int }),
{
    route_caches_stay_small(c, p, h, h);
    crate::order::lemma_prefix_agree(p, bytes);
    assert(bytes.take(p.len() as int) =~= p);
    assert(crate::route::offers(c, bytes, h));
    assert forall|g: RouteHit| #[trigger] crate::route::offers(c, bytes, g) implies g == h by {
        let q = bytes.take(g.child_depth as int);
        assert(q.is_prefix_of(bytes));
        assert(q.len() <= p.len());
        assert(p.len() <= g.child_depth);
        assert(q =~= p);
        route_caches_stay_small(c, p, h, g);
    }
    let way = Route::Crossing { guid: h.child_guid, depth: h.child_depth as int };
    assert(way == (Route::Crossing { guid: h.child_guid, depth: p.len() as int }));
    if f.route(root, key) == way {
        let known = Some(c);
        assert(known matches Some(x) && x == c);
        assert(knows_way(known, f, root, bytes, key));
    }
    if knows_way(Some(c), f, root, bytes, key) {
        assert(f.route(root, key) == way);
    }
}

/// No way is known for a key that begins with no cached prefix.
pub proof fn no_way_is_made_up(c: RouteCache, f: Forest, root: BlobGuid, bytes: Seq<u8>, key: Seq<u8>)
    requires
        forall|q: Seq<u8>, g: RouteHit| #[trigger] c.has(q, g) ==> !q.is_prefix_of(bytes),
    ensures
        !knows_way(Some(c), f, root, bytes, key),
        !knows_way(None, f, root, bytes, key),
{
    assert forall|g: RouteHit| !#[trigger] crate::route::offers(c, bytes, g) by {
        if crate::route::offers(c, bytes, g) {
            assert(bytes.take(g.child_depth as int).is_prefix_of(bytes));
        }
    }
}

/// A list is kept exactly if its limit is from 1 to 256, and a scan that asks
/// for the same at the same epoch is then answered from the cache.
pub proof fn kept_lists_are_hit(c0: PrefixListCache, c: PrefixListCache, epoch: u64, q: Query, limit: usize, entries: Vec<KeyRangeEntry>)
    requires
        kept_list(c0, c, epoch, q, limit, entries),
    ensures
        is_hit(Some(c), epoch, q, limit) <==> 1 <= limit <= 256,
        !(1 <= limit <= 256) ==> c == c0,
        !is_hit(None, epoch, q, limit),
{
}

/// A hit is an entry that was kept at this epoch for just this prefix, start,
/// delimiter and limit.
pub proof fn hits_are_of_the_same_question(c: PrefixListCache, epoch: u64, q: Query, limit: usize)
    requires
        c.wf(),
        is_hit(Some(c), epoch, q, limit),
    ensures
        c.slots@.len() == 256,
        exists|i: int|
            0 <= i < 256 && (#[trigger] c.slots@[i] matches Some(e) && e.epoch == epoch && e.limit == limit && e.prefix@ == q.prefix && e.delimiter
                == q.delimiter && (e.start_after is Some <==> q.start_after is Some) && (e.start_after matches Some(k) ==> q.start_after
                == Some(k@))),
{
    let i = (crate::key_range::hash_of(q, limit) % 256) as int;
    assert(c.slots@[i] is Some);
    assert(query_of(c.slots@[i]->0) == q);
}

/// A list that is kept takes the place of at most one other.
pub proof fn kept_lists_take_one_place(
    c0: PrefixListCache,
    c: PrefixListCache,
    epoch: u64,
    q: Query,
    limit: usize,
    entries: Vec<KeyRangeEntry>,
    i: int,
    j: int,
)
    requires
        c0.wf(),
        kept_list(c0, c, epoch, q, limit, entries),
        0 <= i < 256,
        0 <= j < 256,
        i != j,
    ensures
        c.slots@[i] == c0.slots@[i] || c.slots@[j] == c0.slots@[j],
        c.slots@[i] != c0.slots@[i] ==> (c.slots@[i] matches Some(e) && e.entries == entries && e.epoch == epoch),
{
}

/// A dropped tree refuses a scan, unless it asks for nothing.
pub proof fn dropped_trees_are_not_scanned(dropped: bool, limit: usize)
    ensures
        refused(dropped, limit) <==> dropped && limit > 0,
{
}

/// Items are counted as keys or as common prefixes.
pub proof fn keys_are_counted(items: Seq<Item>, item: Item)
    ensures
        keys_in(Seq::empty()) == 0,
        keys_in(items.push(item)) == keys_in(items) + (if item is Key {
            1int
        } else {
            0
        }),
        0 <= keys_in(items) <= items.len(),
    decreases items.len(),
{
    assert(items.push(item).drop_last() =~= items);
    if items.len() > 0 {
        keys_are_counted(items.drop_last(), items.last());
        assert(items.drop_last().push(items.last()) =~= items);
    }
}

/// What a list reports: as many keys and common prefixes as it gives out, and
/// no visits if it came from the cache.
pub proof fn outcomes_count_the_list(o: KeyScanOutcome, items: Seq<Item>)
    requires
        outcome_ok(o, items),
        o.stats.visited < u64::MAX,
    ensures
        o.stats.returned + o.stats.rollup == items.len(),
        o.stats.returned == keys_in(items),
        o.cache_hit ==> o.stats.visited == 0 && o.stats.restarts == 0,
        !o.cache_hit ==> o.stats.visited >= items.len(),
{
}

/// A scan counts a restart exactly if a blob on its way has changed since it
/// was entered.
pub proof fn scans_count_their_restarts(a: RangeIter, b: RangeIter, bm: BufferManager, item: Item)
    requires
        went_on(a, b, bm, item) || ended(a, b, bm),
        a.stats.restarts < u64::MAX,
    ensures
        b.stats.restarts == a.stats.restarts + (if is_stale(a, bm) {
            1int
        } else {
            0
        }),
        is_stale(a, bm) <==> a.initialized && !a.terminated && exists|j: int|
            0 <= j < a.cursor.stack@.len() && {
                let fr = #[trigger] a.cursor.stack@[j];
                ||| fr.at >= bm.blobs@.len()
                ||| bm.blobs@[fr.at as int].guid != fr.guid
                ||| bm.blobs@[fr.at as int].version != fr.version
                ||| fr.version == u64::MAX
            },
{
    if !a.cursor.fresh(bm) {
        let j = choose|j: int| 0 <= j < a.cursor.stack@.len() && !(#[trigger] a.cursor.fresh_at(bm, j));
        let fr = a.cursor.stack@[j];
    } else {
        assert forall|j: int| 0 <= j < a.cursor.stack@.len() implies {
            let fr = #[trigger] a.cursor.stack@[j];
            &&& fr.at < bm.blobs@.len()
            &&& bm.blobs@[fr.at as int].guid == fr.guid
            &&& bm.blobs@[fr.at as int].version == fr.version
            &&& fr.version < u64::MAX
        } by {
            assert(a.cursor.fresh_at(bm, j));
        }
    }
}

/// Each item that a scan gives out is one more key or one more common prefix,
/// and takes at least one visit.
pub proof fn scans_count_each_item(a: RangeIter, b: RangeIter, bm: BufferManager, item: Item)
    requires
        went_on(a, b, bm, item),
        b.stats.visited < u64::MAX,
    ensures
        b.stats.returned == a.stats.returned + (if item is Key {
            1int
        } else {
            0
        }),
        b.stats.rollup == a.stats.rollup + (if item is Key {
            0int
        } else {
            1
        }),
        b.stats.visited > a.stats.visited,
{
}

/// Where no leaf is deleted and the scan still wants all of them, each item takes
/// one visit.
pub proof fn wanted_leaves_are_visited_once(a: RangeIter, b: RangeIter, bm: BufferManager, item: Item)
    requires
        went_on(a, b, bm, item),
        forall|s: Seq<u8>| #[trigger] stored(bm.forest(), a.root, s) ==> live(bm.forest(), a.root, s) && a.pending(user_of(s)),
        b.stats.visited < u64::MAX,
    ensures
        b.stats.visited == a.stats.visited + 1,
{
    let c = choose|c: Cursor| #[trigger] looks_from(a, bm, c) && tallied(a, bm, c, Some(item), a.stats, b.stats);
    let read = choose|read: Seq<Seq<u8>>| #[trigger] visits(a, bm, c, Some(item), read) && rose_by(a.stats, b.stats, read.len());
    if read.len() > 1 {
        let s = read[0];
        assert(read.contains(s));
        assert(s != read.last());
        assert(stored(bm.forest(), a.root, s));
    }
}

/// Every item that a scan gives out takes as many visits as there are leaves up to
/// it that the scan had not passed, deleted ones and unwanted ones among them.
pub proof fn visits_are_leaves_up_to_the_item(a: RangeIter, b: RangeIter, bm: BufferManager, item: Item) -> (read: Seq<Seq<u8>>)
    requires
        went_on(a, b, bm, item),
        b.stats.visited < u64::MAX,
    ensures
        b.stats.visited == a.stats.visited + read.len(),
        read.no_duplicates(),
        forall|i: int| 0 <= i < read.len() ==> stored(bm.forest(), a.root, #[trigger] read[i]),
        forall|i: int| 0 <= i < read.len() - 1 ==> past(#[trigger] read[i], read.last()),
        forall|i: int| 0 <= i < read.len() - 1 && live(bm.forest(), a.root, #[trigger] read[i]) ==> !a.pending(user_of(read[i])),
        read.len() > 0 && live(bm.forest(), a.root, read.last()) && a.pending(user_of(read.last())),
        item matches Item::Key { key, .. } ==> key == user_of(read.last()),
        item matches Item::Common { common } ==> common.is_prefix_of(user_of(read.last())),
{
    let c = choose|c: Cursor| #[trigger] looks_from(a, bm, c) && tallied(a, bm, c, Some(item), a.stats, b.stats);
    let read = choose|read: Seq<Seq<u8>>| #[trigger] visits(a, bm, c, Some(item), read) && rose_by(a.stats, b.stats, read.len());
    assert forall|i: int| 0 <= i < read.len() implies stored(bm.forest(), a.root, #[trigger] read[i]) by {
        assert(read.contains(read[i]));
    }
    assert forall|i: int| 0 <= i < read.len() - 1 implies past(#[trigger] read[i], read.last()) by {
        assert(read.contains(read[i]));
        assert(read[i] != read[read.len() - 1]);
    }
    assert forall|i: int| 0 <= i < read.len() - 1 && live(bm.forest(), a.root, #[trigger] read[i]) implies !a.pending(user_of(read[i])) by {
        assert(read.contains(read[i]));
        assert(read[i] != read[read.len() - 1]);
    }
    if let Item::Common { common } = item {
        crate::order::lemma_prefix_agree(common, user_of(read.last()));
    }
    read
}

} // verus!
