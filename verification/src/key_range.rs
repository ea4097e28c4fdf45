//! Scans of keys without their values, and a cache of short ones.
use vstd::prelude::*;

use crate::cursor::live;
use crate::errors::{Error, Result};
use crate::forest::Forest;
use crate::insert::copy_bytes;
use crate::key::bytes_eq;
use crate::hash::{mix, mix_all, mixed, mixed_all, HASH_SEED};
use crate::key_buf::KeyBuf;
use crate::layout::BlobGuid;
use crate::order::{lex_lt, user_of};
use crate::range::{
    begins, cut_off, ended, ensure_live, key_item, went_on, Item, KeyRangeEntry, KeyRangeEntryRef,
    KeyScanOutcome, RangeBuilder, RangeIter, RangeProjection, ScanStats,
};
use crate::route::is_root;
use crate::store::BufferManager;

verus! {

/// What a scan asks for.
pub struct Query {
    pub prefix: Seq<u8>,
    pub start_after: Option<Seq<u8>>,
    pub delimiter: Option<u8>,
}

impl Query {
    /// Whether key `u` is asked for.
    pub open spec fn wants(self, u: Seq<u8>) -> bool {
        &&& self.prefix.is_prefix_of(u)
        &&& self.start_after matches Some(k) ==> lex_lt(k, u)
    }
}

/// Whether key `u` is asked for and comes after the first `k` items.
pub open spec fn left(q: Query, items: Seq<Item>, k: int, u: Seq<u8>) -> bool {
    q.wants(u) && forall|i: int| 0 <= i < k ==> (#[trigger] items[i]).before(u)
}

/// Whether item `k` is the first that the items before it leave.
pub open spec fn in_turn(f: Forest, root: BlobGuid, q: Query, items: Seq<Item>, k: int) -> bool {
    &&& exists|s: Seq<u8>| left(q, items, k, #[trigger] user_of(s)) && items[k].shows(f, root, q.prefix, q.delimiter, s)
    &&& forall|s: Seq<u8>| #[trigger] live(f, root, s) && left(q, items, k, user_of(s)) ==> !lex_lt(user_of(s), items[k].bytes())
}

/// Whether `items` is what a scan of at most `limit` items gives.
pub open spec fn scanned(f: Forest, root: BlobGuid, q: Query, limit: int, items: Seq<Item>) -> bool {
    &&& items.len() <= limit
    &&& forall|k: int| 0 <= k < items.len() ==> #[trigger] in_turn(f, root, q, items, k)
    &&& items.len() < limit ==> forall|s: Seq<u8>| #[trigger] live(f, root, s) ==> !left(q, items, items.len() as int, user_of(s))
}

/// What a list of keys stands for.
pub open spec fn items_of(entries: Seq<KeyRangeEntry>) -> Seq<Item> {
    entries.map_values(|e: KeyRangeEntry| key_item(e))
}

/// Number of keys among the items.
pub open spec fn keys_in(items: Seq<Item>) -> nat
    decreases items.len(),
{
    if items.len() == 0 {
        0
    } else {
        keys_in(items.drop_last()) + (if items.last() is Key {
            1nat
        } else {
            0
        })
    }
}

/// An active scan of keys.
pub struct KeyRangeIter {
    pub inner: RangeIter,
}

impl KeyRangeIter {
    /// The next key, or common prefix, in key order. Only a tree that was
    /// `dropped` makes it fail, once.
    pub fn next(&mut self, bm: &BufferManager, dropped: bool) -> (r: Option<Result<KeyRangeEntry>>)
        requires
            bm.wf(),
            is_root(*bm, old(self).inner.root),
            old(self).inner.kept(*bm),
        ensures
            match r {
                Some(Ok(e)) => !dropped && went_on(old(self).inner, final(self).inner, *bm, key_item(e)),
                Some(Err(e)) => dropped && e is TreeDropped && cut_off(old(self).inner, final(self).inner),
                None => (dropped ==> old(self).inner.terminated) && ended(old(self).inner, final(self).inner, *bm),
            },
            old(self).inner.same_scan(final(self).inner),
            final(self).inner.kept(*bm),
    {
        if !self.inner.terminated {
            match self.inner.ensure_live(dropped) {
                Ok(()) => {},
                Err(e) => {
                    return Some(Err(e));
                },
            }
        }
        match self.inner.next_key(bm) {
            Some(e) => Some(Ok(e)),
            None => None,
        }
    }

    /// What the scan has done so far.
    pub fn stats(&self) -> (r: ScanStats)
        ensures
            r == self.inner.stats,
    {
        self.inner.stats()
    }
}

/// Whether state `i` of a scan went on to the next over `bm` by giving out item
/// `i`.
pub open spec fn gave_out(bm: BufferManager, its: Seq<RangeIter>, items: Seq<Item>, i: int) -> bool {
    went_on(its[i], its[i + 1], bm, items[i]) && its[i].same_scan(its[i + 1])
}

/// Whether a scan begun by `b` went through the states `its` over `bm` while it
/// gave out `items`, and then stood at `end`: where it ended, if they are fewer
/// than `limit`.
pub open spec fn walk(b: RangeBuilder, bm: BufferManager, limit: int, items: Seq<Item>, its: Seq<RangeIter>, end: RangeIter) -> bool {
    &&& its.len() == items.len() + 1
    &&& begins(b, its[0])
    &&& forall|i: int| 0 <= i < items.len() ==> #[trigger] gave_out(bm, its, items, i)
    &&& items.len() < limit ==> ended(its.last(), end, bm)
    &&& items.len() >= limit ==> end == its.last()
}

/// Whether `stats` are what a scan begun by `b` counts while it gives out
/// `items` over `bm`, call by call.
pub open spec fn walked(b: RangeBuilder, bm: BufferManager, limit: int, items: Seq<Item>, stats: ScanStats) -> bool {
    exists|its: Seq<RangeIter>, end: RangeIter| #[trigger] walk(b, bm, limit, items, its, end) && stats == end.stats
}

/// Gives out up to `limit` items.
fn visit_key_entries(it: &mut RangeIter, bm: &BufferManager, limit: usize, Ghost(q): Ghost<Query>, Ghost(b): Ghost<RangeBuilder>) -> (r: Vec<KeyRangeEntry>)
    requires
        bm.wf(),
        is_root(*bm, old(it).root),
        old(it).kept(*bm),
        old(it).prefix@ == q.prefix,
        old(it).delimiter == q.delimiter,
        forall|u: Seq<u8>| #[trigger] old(it).pending(u) == q.wants(u),
        begins(b, *old(it)),
        limit > 0,
    ensures
        scanned(bm.forest(), old(it).root, q, limit as int, items_of(r@)),
        walked(b, *bm, limit as int, items_of(r@), final(it).stats),
        final(it).stats.ok(),
        final(it).stats.visited < u64::MAX ==> final(it).stats.returned == keys_in(items_of(r@)) && final(it).stats.rollup == r@.len() - keys_in(
            items_of(r@),
        ),
{
    let ghost f = bm.forest();
    let ghost root = it.root;
    let mut out: Vec<KeyRangeEntry> = Vec::new();
    let mut more: bool = true;
    let ghost mut its: Seq<RangeIter> = seq![*it];
    assert(items_of(out@) =~= Seq::<Item>::empty());
    proof {
        assert forall|u: Seq<u8>| #[trigger] it.pending(u) == left(q, items_of(out@), 0, u) by {}
    }
    while more && out.len() < limit
        invariant
            bm.wf(),
            f == bm.forest(),
            is_root(*bm, root),
            it.root == root,
            it.prefix@ == q.prefix,
            it.delimiter == q.delimiter,
            it.kept(*bm),
            out@.len() <= limit,
            items_of(out@).len() == out@.len(),
            more ==> forall|u: Seq<u8>| #[trigger] it.pending(u) == left(q, items_of(out@), out@.len() as int, u),
            forall|k: int| 0 <= k < out@.len() ==> #[trigger] in_turn(f, root, q, items_of(out@), k),
            !more ==> forall|s: Seq<u8>| #[trigger] live(f, root, s) ==> !left(q, items_of(out@), out@.len() as int, user_of(s)),
            its.len() == out@.len() + 1,
            begins(b, its[0]),
            forall|k: int| 0 <= k < out@.len() ==> #[trigger] gave_out(*bm, its, items_of(out@), k),
            more ==> its.last() == *it,
            !more ==> out@.len() < limit && ended(its.last(), *it, *bm),
            it.stats.visited < u64::MAX ==> it.stats.returned == keys_in(items_of(out@)) && it.stats.rollup == out@.len() - keys_in(items_of(out@)),
        decreases more as int, limit - out@.len(),
    {
        let ghost before = *it;
        let ghost items = items_of(out@);
        let ghost n = out@.len() as int;
        match it.next_key(bm) {
            None => {
                more = false;
                proof {
                    assert forall|s: Seq<u8>| #[trigger] live(f, root, s) implies !left(q, items, n, user_of(s)) by {
                        assert(live(f, before.root, s));
                        assert(before.pending(user_of(s)) == left(q, items, n, user_of(s)));
                    }
                }
            },
            Some(e) => {
                let ghost item = key_item(e);
                out.push(e);
                proof {
                    let now = items_of(out@);
                    assert(now =~= items.push(item));
                    assert(now.drop_last() =~= items);
                    let its0 = its;
                    its = its.push(*it);
                    assert forall|k: int| 0 <= k < n + 1 implies #[trigger] gave_out(*bm, its, now, k) by {
                        if k < n {
                            assert(gave_out(*bm, its0, items, k));
                            assert(its[k] == its0[k] && its[k + 1] == its0[k + 1]);
                        } else {
                            assert(its[k] == before && its[k + 1] == *it);
                        }
                    }
                    lemma_left_same(q, items, now, n);
                    assert forall|k: int| 0 <= k < n + 1 implies #[trigger] in_turn(f, root, q, now, k) by {
                        if k < n {
                            assert(in_turn(f, root, q, items, k));
                            lemma_in_turn_same(f, root, q, items, now, k);
                        } else {
                            let s = choose|s: Seq<u8>|
                                before.pending(#[trigger] user_of(s)) && item.shows(f, root, q.prefix, q.delimiter, s);
                            assert(left(q, items, n, user_of(s)));
                            assert(left(q, now, n, user_of(s)));
                            assert(now[n] == item);
                            assert forall|s: Seq<u8>| #[trigger] live(f, root, s) && left(q, now, n, user_of(s)) implies !lex_lt(
                                user_of(s),
                                now[n].bytes(),
                            ) by {
                                assert(left(q, items, n, user_of(s)));
                                assert(before.pending(user_of(s)));
                                assert(live(f, before.root, s));
                            }
                        }
                    }
                    assert forall|u: Seq<u8>| #[trigger] it.pending(u) == left(q, now, n + 1, u) by {
                        assert(before.pending(u) == left(q, items, n, u));
                        assert(left(q, items, n, u) == left(q, now, n, u));
                        assert(now[n] == item);
                        if left(q, now, n + 1, u) {
                            assert(now[n].before(u));
                        }
                        if left(q, now, n, u) && item.before(u) {
                            assert forall|i: int| 0 <= i < n + 1 implies (#[trigger] now[i]).before(u) by {}
                        }
                    }
                }
            },
        }
    }
    assert(walk(b, *bm, limit as int, items_of(out@), its, *it));
    out
}

proof fn lemma_left_same(q: Query, a: Seq<Item>, b: Seq<Item>, n: int)
    requires
        n <= a.len(),
        n <= b.len(),
        forall|i: int| 0 <= i < n ==> a[i] == b[i],
    ensures
        forall|k: int, u: Seq<u8>| 0 <= k <= n ==> #[trigger] left(q, a, k, u) == left(q, b, k, u),
{
    assert forall|k: int, u: Seq<u8>| 0 <= k <= n implies #[trigger] left(q, a, k, u) == left(q, b, k, u) by {
        if left(q, a, k, u) {
            assert forall|i: int| 0 <= i < k implies (#[trigger] b[i]).before(u) by {
                assert(a[i].before(u));
            }
        }
        if left(q, b, k, u) {
            assert forall|i: int| 0 <= i < k implies (#[trigger] a[i]).before(u) by {
                assert(b[i].before(u));
            }
        }
    }
}

proof fn lemma_in_turn_same(f: Forest, root: BlobGuid, q: Query, a: Seq<Item>, b: Seq<Item>, k: int)
    requires
        0 <= k < a.len(),
        k < b.len(),
        forall|i: int| 0 <= i <= k ==> a[i] == b[i],
        in_turn(f, root, q, a, k),
    ensures
        in_turn(f, root, q, b, k),
{
    lemma_left_same(q, a, b, k);
    let s = choose|s: Seq<u8>| left(q, a, k, #[trigger] user_of(s)) && a[k].shows(f, root, q.prefix, q.delimiter, s);
    assert(left(q, b, k, user_of(s)));
    assert forall|s: Seq<u8>| #[trigger] live(f, root, s) && left(q, b, k, user_of(s)) implies !lex_lt(user_of(s), b[k].bytes()) by {
        assert(left(q, a, k, user_of(s)));
    }
}

/// Number of lists that the cache can hold.
pub const PREFIX_LIST_CACHE_SLOTS: usize = 256;

/// The longest list that the cache holds.
pub const PREFIX_LIST_CACHE_MAX_LIMIT: usize = 256;

/// A list of keys, and the scan that gave it.
#[derive(Debug)]
pub struct PrefixListCacheEntry {
    pub hash: u64,
    pub epoch: u64,
    pub delimiter: Option<u8>,
    pub limit: usize,
    pub prefix: Vec<u8>,
    pub start_after: Option<Vec<u8>>,
    pub entries: Vec<KeyRangeEntry>,
}

/// A cache of short lists, one per slot.
#[derive(Debug)]
pub struct PrefixListCache {
    pub slots: Vec<Option<PrefixListCacheEntry>>,
}

/// The bytes of an optional key.
pub open spec fn bytes_of(k: Option<Vec<u8>>) -> Option<Seq<u8>> {
    match k {
        Some(v) => Some(v@),
        None => None,
    }
}

/// The bytes of an optional buffer.
pub open spec fn buf_of(k: Option<KeyBuf>) -> Option<Seq<u8>> {
    match k {
        Some(v) => Some(v@),
        None => None,
    }
}

/// What a list was asked for by.
pub open spec fn query_of(e: PrefixListCacheEntry) -> Query {
    Query { prefix: e.prefix@, start_after: bytes_of(e.start_after), delimiter: e.delimiter }
}

/// Where the list of a scan belongs.
pub open spec fn hash_of(q: Query, limit: usize) -> u64 {
    let a = mixed_all(HASH_SEED, q.prefix);
    let b = match q.start_after {
        Some(k) => mixed_all(mixed(a, 1), k),
        None => mixed(a, 0),
    };
    let c = match q.delimiter {
        Some(d) => mixed(mixed(b, 1), d),
        None => mixed(b, 0),
    };
    mixed(c, (limit % 256) as u8)
}

fn cache_hash(prefix: &[u8], start_after: &Option<KeyBuf>, delimiter: Option<u8>, limit: usize) -> (r: u64)
    ensures
        r == hash_of(Query { prefix: prefix@, start_after: buf_of(*start_after), delimiter }, limit),
{
    let a = mix_all(HASH_SEED, prefix);
    let b = match start_after {
        Some(k) => mix_all(mix(a, 1), k.as_slice()),
        None => mix(a, 0),
    };
    let c = match delimiter {
        Some(d) => mix(mix(b, 1), d),
        None => mix(b, 0),
    };
    mix(c, (limit % 256) as u8)
}

/// The slot of a hash.
fn slot_index(hash: u64) -> (r: usize)
    ensures
        r == hash % 256,
        r < PREFIX_LIST_CACHE_SLOTS,
{
    (hash % 256) as usize
}

/// Whether an optional buffer holds the same key as an optional vector.
fn same_start(a: &Option<Vec<u8>>, b: &Option<KeyBuf>) -> (r: bool)
    ensures
        r == (bytes_of(*a) == buf_of(*b)),
{
    match (a, b) {
        (Some(x), Some(y)) => bytes_eq(x.as_slice(), y.as_slice()),
        (None, None) => true,
        _ => false,
    }
}

fn same_delimiter(a: Option<u8>, b: Option<u8>) -> (r: bool)
    ensures
        r == (a == b),
{
    match (a, b) {
        (Some(x), Some(y)) => x == y,
        (None, None) => true,
        _ => false,
    }
}

impl KeyRangeEntry {
    /// The entry with its bytes borrowed.
    pub fn as_ref(&self) -> (r: KeyRangeEntryRef<'_>)
        ensures
            ref_item(r) == key_item(*self),
    {
        match self {
            KeyRangeEntry::Key { key, version } => KeyRangeEntryRef::Key { key: key.as_slice(), version: *version },
            KeyRangeEntry::CommonPrefix(common) => KeyRangeEntryRef::CommonPrefix(common.as_slice()),
        }
    }

    /// The entry with bytes of its own.
    pub fn from_ref(entry: KeyRangeEntryRef<'_>) -> (r: KeyRangeEntry)
        ensures
            key_item(r) == ref_item(entry),
    {
        match entry {
            KeyRangeEntryRef::Key { key, version } => KeyRangeEntry::Key { key: copy_bytes(key), version },
            KeyRangeEntryRef::CommonPrefix(common) => KeyRangeEntry::CommonPrefix(copy_bytes(common)),
        }
    }
}

/// What a borrowed key of a scan stands for.
pub open spec fn ref_item(e: KeyRangeEntryRef) -> Item {
    match e {
        KeyRangeEntryRef::Key { key, version } => Item::Key { key: key@, seq: version.seq },
        KeyRangeEntryRef::CommonPrefix(common) => Item::Common { common: common@ },
    }
}

fn copy_entries(entries: &Vec<KeyRangeEntry>) -> (r: Vec<KeyRangeEntry>)
    ensures
        items_of(r@) == items_of(entries@),
{
    let mut out: Vec<KeyRangeEntry> = Vec::new();
    let mut i: usize = 0;
    while i < entries.len()
        invariant
            i <= entries@.len(),
            out@.len() == i,
            forall|j: int| 0 <= j < i ==> key_item(#[trigger] out@[j]) == key_item(entries@[j]),
        decreases entries@.len() - i,
    {
        out.push(KeyRangeEntry::from_ref(entries[i].as_ref()));
        i = i + 1;
    }
    assert(items_of(out@) =~= items_of(entries@));
    out
}

/// Whether lists of this length are cached.
pub open spec fn cacheable(limit: usize) -> bool {
    0 < limit <= PREFIX_LIST_CACHE_MAX_LIMIT
}

impl PrefixListCache {
    /// Whether the cache has all its slots.
    pub open spec fn wf(&self) -> bool {
        self.slots@.len() == PREFIX_LIST_CACHE_SLOTS
    }

    /// The slot of a scan's list.
    pub open spec fn slot_of(&self, q: Query, limit: usize) -> Option<PrefixListCacheEntry> {
        self.slots@[(hash_of(q, limit) % 256) as int]
    }

    /// Whether the cache has the list that the scan gave at `epoch`.
    pub open spec fn holds(&self, epoch: u64, q: Query, limit: usize) -> bool {
        &&& cacheable(limit)
        &&& self.slot_of(q, limit) matches Some(e) && e.hash == hash_of(q, limit) && e.epoch == epoch && e.limit == limit && query_of(e) == q
    }

    /// Whether every list of `epoch` is what its scan gives over `f`.
    pub open spec fn honest(&self, epoch: u64, f: Forest, root: BlobGuid) -> bool {
        forall|i: int| 0 <= i < self.slots@.len() ==> #[trigger] self.honest_at(i, epoch, f, root)
    }

    /// Whether the list in slot `i`, if of `epoch`, is what its scan gives.
    pub open spec fn honest_at(&self, i: int, epoch: u64, f: Forest, root: BlobGuid) -> bool {
        self.slots@[i] matches Some(e) ==> e.epoch == epoch ==> scanned(f, root, query_of(e), e.limit as int, items_of(e.entries@))
    }

    /// A cache without lists.
    pub fn new() -> (r: PrefixListCache)
        ensures
            r.wf(),
            forall|i: int| 0 <= i < r.slots@.len() ==> (#[trigger] r.slots@[i]) is None,
            forall|epoch: u64, f: Forest, root: BlobGuid| #[trigger] r.honest(epoch, f, root),
    {
        let mut slots: Vec<Option<PrefixListCacheEntry>> = Vec::new();
        let mut i: usize = 0;
        while i < PREFIX_LIST_CACHE_SLOTS
            invariant
                i <= PREFIX_LIST_CACHE_SLOTS,
                slots@.len() == i,
                forall|j: int| 0 <= j < i ==> (#[trigger] slots@[j]) is None,
            decreases PREFIX_LIST_CACHE_SLOTS - i,
        {
            slots.push(None);
            i = i + 1;
        }
        PrefixListCache { slots }
    }

    fn cacheable_limit(limit: usize) -> (r: bool)
        ensures
            r == cacheable(limit),
    {
        limit != 0 && limit <= PREFIX_LIST_CACHE_MAX_LIMIT
    }

    /// The list that the scan gave at `epoch`, if the cache has it.
    pub fn visit(&self, epoch: u64, prefix: &[u8], start_after: &Option<KeyBuf>, delimiter: Option<u8>, limit: usize) -> (r: Option<Vec<KeyRangeEntry>>)
        requires
            self.wf(),
        ensures
            ({
                let q = Query { prefix: prefix@, start_after: buf_of(*start_after), delimiter };
                match r {
                    Some(entries) => self.holds(epoch, q, limit) && items_of(entries@) == items_of(self.slot_of(q, limit)->0.entries@),
                    None => !self.holds(epoch, q, limit),
                }
            }),
    {
        if !Self::cacheable_limit(limit) {
            return None;
        }
        let hash = cache_hash(prefix, start_after, delimiter, limit);
        match &self.slots[slot_index(hash)] {
            None => None,
            Some(e) => {
                let same = e.hash == hash && e.epoch == epoch && e.limit == limit && same_delimiter(e.delimiter, delimiter) && bytes_eq(
                    e.prefix.as_slice(),
                    prefix,
                ) && same_start(&e.start_after, start_after);
                if same {
                    Some(copy_entries(&e.entries))
                } else {
                    None
                }
            },
        }
    }

    /// Keeps the list that a scan gave at `epoch`, if it is short enough.
    pub fn store(
        &mut self,
        epoch: u64,
        prefix: &[u8],
        start_after: &Option<KeyBuf>,
        delimiter: Option<u8>,
        limit: usize,
        entries: Vec<KeyRangeEntry>,
    )
        requires
            old(self).wf(),
        ensures
            final(self).wf(),
            kept_list(
                *old(self),
                *final(self),
                epoch,
                Query { prefix: prefix@, start_after: buf_of(*start_after), delimiter },
                limit,
                entries,
            ),
    {
        if !Self::cacheable_limit(limit) {
            return;
        }
        let hash = cache_hash(prefix, start_after, delimiter, limit);
        let start: Option<Vec<u8>> = match start_after {
            Some(k) => Some(copy_bytes(k.as_slice())),
            None => None,
        };
        let slot = slot_index(hash);
        let entry = PrefixListCacheEntry { hash, epoch, delimiter, limit, prefix: copy_bytes(prefix), start_after: start, entries };
        self.slots.set(slot, Some(entry));
    }
}

/// What it does to a cache to be given the list of a scan at `epoch`.
pub open spec fn kept_list(c0: PrefixListCache, c: PrefixListCache, epoch: u64, q: Query, limit: usize, entries: Vec<KeyRangeEntry>) -> bool {
    if cacheable(limit) {
        &&& c.holds(epoch, q, limit)
        &&& c.slot_of(q, limit)->0.entries == entries
        &&& c.slots@ == c0.slots@.update((hash_of(q, limit) % 256) as int, c.slot_of(q, limit))
    } else {
        c == c0
    }
}

/// What it does to a cache to be asked for a list, which it may not have.
pub open spec fn consulted(c0: PrefixListCache, c: PrefixListCache, epoch: u64, q: Query, limit: usize, items: Seq<Item>) -> bool {
    if c0.holds(epoch, q, limit) {
        c == c0
    } else {
        exists|entries: Vec<KeyRangeEntry>| #[trigger] kept_list(c0, c, epoch, q, limit, entries) && items_of(entries@) == items
    }
}

/// Once the epoch moves past all lists, the cache is honest of any change.
pub proof fn new_epochs_hide_old_lists(c: PrefixListCache, epoch: u64, f: Forest, root: BlobGuid)
    requires
        forall|i: int| 0 <= i < c.slots@.len() && (#[trigger] c.slots@[i]) is Some ==> c.slots@[i]->0.epoch != epoch,
    ensures
        c.honest(epoch, f, root),
{
    assert forall|i: int| 0 <= i < c.slots@.len() implies #[trigger] c.honest_at(i, epoch, f, root) by {
        let e = c.slots@[i];
    }
}

/// A scan of the keys below a root, not yet begun.
pub struct KeyRangeBuilder {
    pub inner: RangeBuilder,
}

/// Whether the cache has the list of a scan.
pub open spec fn is_hit(cache: Option<PrefixListCache>, epoch: u64, q: Query, limit: usize) -> bool {
    cache matches Some(c) && c.holds(epoch, q, limit)
}

/// Whether the outcome fits what was given out.
pub open spec fn outcome_ok(o: KeyScanOutcome, items: Seq<Item>) -> bool {
    if o.cache_hit {
        &&& o.stats.visited == 0
        &&& o.stats.restarts == 0
        &&& o.stats.returned == keys_in(items)
        &&& o.stats.rollup == items.len() - keys_in(items)
    } else {
        &&& o.stats.ok()
        &&& o.stats.visited < u64::MAX ==> o.stats.returned == keys_in(items) && o.stats.rollup == items.len() - keys_in(items)
    }
}

/// Whether the outcome is that of a scan begun by `b` over `bm` that gave out
/// `items`. One that did not come from the cache counts what the scan counts
/// call by call.
pub open spec fn outcome_of(b: RangeBuilder, bm: BufferManager, limit: int, items: Seq<Item>, o: KeyScanOutcome) -> bool {
    &&& outcome_ok(o, items)
    &&& !o.cache_hit && limit > 0 ==> walked(b, bm, limit, items, o.stats)
    &&& limit == 0 ==> o.stats.visited == 0 && o.stats.restarts == 0
}

impl KeyRangeBuilder {
    /// The keys of a scan of records.
    pub fn new(inner: RangeBuilder) -> (r: KeyRangeBuilder)
        ensures
            r.inner == inner,
    {
        KeyRangeBuilder { inner }
    }

    /// What the scan asks for.
    pub open spec fn query(&self) -> Query {
        Query { prefix: self.inner.prefix@, start_after: buf_of(self.inner.start_after), delimiter: self.inner.delimiter }
    }

    /// Only keys that begin with `prefix`.
    pub fn prefix(self, prefix: &[u8]) -> (r: KeyRangeBuilder)
        ensures
            r.inner.root == self.inner.root,
            r.query() == (Query { prefix: prefix@, ..self.query() }),
    {
        KeyRangeBuilder { inner: self.inner.prefix(prefix) }
    }

    /// Only keys after `key`.
    pub fn start_after(self, key: &[u8]) -> (r: KeyRangeBuilder)
        ensures
            r.inner.root == self.inner.root,
            r.query() == (Query { start_after: Some(key@), ..self.query() }),
    {
        KeyRangeBuilder { inner: self.inner.start_after(key) }
    }

    /// Folds keys together up to the first `byte` past the prefix.
    pub fn delimiter(self, byte: u8) -> (r: KeyRangeBuilder)
        ensures
            r.inner.root == self.inner.root,
            r.query() == (Query { delimiter: Some(byte), ..self.query() }),
    {
        KeyRangeBuilder { inner: self.inner.delimiter(byte) }
    }

    /// Begins the scan.
    pub fn into_iter(self) -> (r: KeyRangeIter)
        ensures
            begins(self.inner, r.inner),
            r.inner.projection is KeysOnly,
    {
        KeyRangeIter { inner: self.inner.into_iter_with_projection(RangeProjection::KeysOnly) }
    }

    /// Up to `limit` keys and common prefixes, and what it took to find them.
    pub fn visit(self, bm: &BufferManager, limit: usize, cache: &mut Option<PrefixListCache>, epoch: u64, dropped: bool) -> (r: Result<(ScanStats, Vec<KeyRangeEntry>)>)
        requires
            bm.wf(),
            is_root(*bm, self.inner.root),
            *old(cache) matches Some(c) ==> c.wf() && c.honest(epoch, bm.forest(), self.inner.root),
        ensures
            refused(dropped, limit) ==> (r matches Err(e) && e is TreeDropped) && *final(cache) == *old(cache),
            !refused(dropped, limit) ==> (r matches Ok((stats, entries)) && {
                &&& scanned(bm.forest(), self.inner.root, self.query(), limit as int, items_of(entries@))
                &&& outcome_of(
                    self.inner,
                    *bm,
                    limit as int,
                    items_of(entries@),
                    (KeyScanOutcome { stats, cache_hit: is_hit(*old(cache), epoch, self.query(), limit) }),
                )
            }),
            *final(cache) is Some <==> *old(cache) is Some,
            *final(cache) matches Some(c) ==> c.wf() && c.honest(epoch, bm.forest(), self.inner.root),
            *old(cache) matches Some(c0) ==> (r matches Ok((_, entries)) ==> consulted(
                c0,
                (*final(cache))->0,
                epoch,
                self.query(),
                limit,
                items_of(entries@),
            )),
    {
        match self.visit_with_outcome(bm, limit, cache, epoch, dropped) {
            Ok((outcome, entries)) => {
                Ok((outcome.stats, entries))
            },
            Err(e) => Err(e),
        }
    }

    /// Up to `limit` keys and common prefixes, what it took to find them, and
    /// whether the cache had them.
    ///
    /// The cache, if there is one, serves lists made at the same `epoch`, and
    /// keeps the list if it is short. Over a well-formed store only a tree
    /// that was `dropped` makes it fail.
    pub fn visit_with_outcome(self, bm: &BufferManager, limit: usize, cache: &mut Option<PrefixListCache>, epoch: u64, dropped: bool) -> (r: Result<
        (KeyScanOutcome, Vec<KeyRangeEntry>),
    >)
        requires
            bm.wf(),
            is_root(*bm, self.inner.root),
            *old(cache) matches Some(c) ==> c.wf() && c.honest(epoch, bm.forest(), self.inner.root),
        ensures
            refused(dropped, limit) ==> (r matches Err(e) && e is TreeDropped) && *final(cache) == *old(cache),
            !refused(dropped, limit) ==> (r matches Ok((outcome, entries)) && {
                &&& scanned(bm.forest(), self.inner.root, self.query(), limit as int, items_of(entries@))
                &&& outcome_of(self.inner, *bm, limit as int, items_of(entries@), outcome)
                &&& outcome.cache_hit == is_hit(*old(cache), epoch, self.query(), limit)
            }),
            *final(cache) is Some <==> *old(cache) is Some,
            *final(cache) matches Some(c) ==> c.wf() && c.honest(epoch, bm.forest(), self.inner.root) && (cacheable(limit) && !dropped ==> c.holds(
                epoch,
                self.query(),
                limit,
            )),
            *old(cache) matches Some(c0) ==> (r matches Ok((_, entries)) ==> consulted(
                c0,
                (*final(cache))->0,
                epoch,
                self.query(),
                limit,
                items_of(entries@),
            )),
    {
        match self.list(bm, limit, cache, epoch, dropped) {
            Ok((outcome, entries)) => {
                if !outcome.cache_hit {
                    let ghost before = *cache;
                    self.keep(limit, cache, epoch, copy_entries(&entries));
                    proof {
                        if *cache is Some {
                            let c = (*cache)->0;
                            let f = bm.forest();
                            let root = self.inner.root;
                            assert forall|i: int| 0 <= i < c.slots@.len() implies #[trigger] c.honest_at(i, epoch, f, root) by {
                                assert(before->0.honest_at(i, epoch, f, root));
                            }
                        }
                    }
                }
                Ok((outcome, entries))
            },
            Err(e) => Err(e),
        }
    }

    /// Up to `limit` keys and common prefixes, what it took to find them, and
    /// whether the cache had them. The cache stays as it is.
    pub fn list(&self, bm: &BufferManager, limit: usize, cache: &Option<PrefixListCache>, epoch: u64, dropped: bool) -> (r: Result<
        (KeyScanOutcome, Vec<KeyRangeEntry>),
    >)
        requires
            bm.wf(),
            is_root(*bm, self.inner.root),
            *cache matches Some(c) ==> c.wf() && c.honest(epoch, bm.forest(), self.inner.root),
        ensures
            refused(dropped, limit) ==> (r matches Err(e) && e is TreeDropped),
            !refused(dropped, limit) ==> (r matches Ok((outcome, entries)) && {
                &&& scanned(bm.forest(), self.inner.root, self.query(), limit as int, items_of(entries@))
                &&& outcome_of(self.inner, *bm, limit as int, items_of(entries@), outcome)
                &&& outcome.cache_hit == is_hit(*cache, epoch, self.query(), limit)
            }),
    {
        let ghost q = self.query();
        let ghost f = bm.forest();
        let ghost root = self.inner.root;
        if limit == 0 {
            let entries: Vec<KeyRangeEntry> = Vec::new();
            assert(items_of(entries@) =~= Seq::<Item>::empty());
            return Ok((KeyScanOutcome { stats: ScanStats::zero(), cache_hit: false }, entries));
        }
        match ensure_live(dropped) {
            Ok(()) => {},
            Err(e) => {
                return Err(e);
            },
        }
        match cache {
            Some(c) => {
                match c.visit(epoch, self.inner.prefix.as_slice(), &self.inner.start_after, self.inner.delimiter, limit) {
                    Some(entries) => {
                        proof {
                            let i = (hash_of(q, limit) % 256) as int;
                            assert(c.honest_at(i, epoch, f, root));
                        }
                        let stats = count(&entries);
                        return Ok((KeyScanOutcome { stats, cache_hit: true }, entries));
                    },
                    None => {},
                }
            },
            None => {},
        }
        let mut iter = self.inner.into_iter_with_projection(RangeProjection::KeysOnly);
        let entries = visit_key_entries(&mut iter, bm, limit, Ghost(q), Ghost(self.inner));
        Ok((KeyScanOutcome { stats: iter.stats(), cache_hit: false }, entries))
    }

    /// Keeps what the scan listed at `epoch`, if there is a cache and the
    /// list is short.
    pub fn keep(&self, limit: usize, cache: &mut Option<PrefixListCache>, epoch: u64, entries: Vec<KeyRangeEntry>)
        requires
            *old(cache) matches Some(c) ==> c.wf(),
        ensures
            *old(cache) is None ==> *final(cache) is None,
            *old(cache) matches Some(c0) ==> (*final(cache) matches Some(c) && c.wf() && kept_list(
                c0,
                c,
                epoch,
                self.query(),
                limit,
                entries,
            )),
    {
        match cache {
            Some(c) => {
                c.store(epoch, self.inner.prefix.as_slice(), &self.inner.start_after, self.inner.delimiter, limit, entries);
            },
            None => {},
        }
    }
}

/// Whether `visitor` may give `r` when it is handed `item`.
pub open spec fn answers<F: Fn(KeyRangeEntryRef<'_>) -> Result<()>>(visitor: F, item: Item, r: Result<()>) -> bool {
    exists|e: KeyRangeEntryRef| #[trigger] ref_item(e) == item && call_ensures(visitor, (e,), r)
}

/// Whether `visitor` was handed `items` in order: all of them, or those up to
/// the first that it failed on.
pub open spec fn handed<F: Fn(KeyRangeEntryRef<'_>) -> Result<()>>(visitor: F, items: Seq<Item>, r: Result<()>) -> bool {
    match r {
        Ok(()) => forall|i: int| 0 <= i < items.len() ==> answers(visitor, #[trigger] items[i], Ok(())),
        Err(e) => exists|n: int|
            {
                &&& 0 <= n < items.len()
                &&& answers(visitor, #[trigger] items[n], Err(e))
                &&& forall|i: int| 0 <= i < n ==> answers(visitor, #[trigger] items[i], Ok(()))
            },
    }
}

/// Hands the entries to `visitor`, in order, until it fails. Its error is
/// given back.
pub fn hand_out<F: Fn(KeyRangeEntryRef<'_>) -> Result<()>>(entries: &Vec<KeyRangeEntry>, visitor: &F) -> (r: Result<()>)
    requires
        forall|e: KeyRangeEntryRef| #[trigger] call_requires(*visitor, (e,)),
    ensures
        handed(*visitor, items_of(entries@), r),
{
    let ghost items = items_of(entries@);
    let mut i: usize = 0;
    while i < entries.len()
        invariant
            i <= entries@.len(),
            items == items_of(entries@),
            forall|e: KeyRangeEntryRef| #[trigger] call_requires(*visitor, (e,)),
            forall|j: int| 0 <= j < i ==> answers(*visitor, #[trigger] items[j], Ok(())),
        decreases entries@.len() - i,
    {
        let entry = entries[i].as_ref();
        let r = visitor(entry);
        let ghost r0 = r;
        assert(ref_item(entry) == items[i as int]);
        assert(answers(*visitor, items[i as int], r0));
        match r {
            Ok(x) => {
                assert(x == ());
                assert(r0 == Ok::<(), Error>(()));
            },
            Err(e) => {
                return Err(e);
            },
        }
        i = i + 1;
    }
    Ok(())
}

impl KeyRangeBuilder {
    /// Hands up to `limit` keys and common prefixes to `visitor`, in order,
    /// until it fails. The list is kept only if it took all of them.
    pub fn visit_each<F: Fn(KeyRangeEntryRef<'_>) -> Result<()>>(
        self,
        bm: &BufferManager,
        limit: usize,
        cache: &mut Option<PrefixListCache>,
        epoch: u64,
        dropped: bool,
        visitor: &F,
    ) -> (r: Result<KeyScanOutcome>)
        requires
            bm.wf(),
            is_root(*bm, self.inner.root),
            *old(cache) matches Some(c) ==> c.wf() && c.honest(epoch, bm.forest(), self.inner.root),
            forall|e: KeyRangeEntryRef| #[trigger] call_requires(*visitor, (e,)),
        ensures
            refused(dropped, limit) ==> (r matches Err(e) && e is TreeDropped) && *final(cache) == *old(cache),
            !refused(dropped, limit) ==> exists|items: Seq<Item>|
                {
                    &&& #[trigger] scanned(bm.forest(), self.inner.root, self.query(), limit as int, items)
                    &&& match r {
                        Ok(outcome) => {
                            &&& handed(*visitor, items, Ok(()))
                            &&& outcome_of(self.inner, *bm, limit as int, items, outcome)
                            &&& outcome.cache_hit == is_hit(*old(cache), epoch, self.query(), limit)
                        },
                        Err(e) => handed(*visitor, items, Err(e)) && *final(cache) == *old(cache),
                    }
                },
            *final(cache) is Some <==> *old(cache) is Some,
            *final(cache) matches Some(c) ==> c.wf() && c.honest(epoch, bm.forest(), self.inner.root) && (cacheable(limit) && r is Ok ==> c.holds(
                epoch,
                self.query(),
                limit,
            )),
    {
        match self.list(bm, limit, cache, epoch, dropped) {
            Ok((outcome, entries)) => {
                let ghost items = items_of(entries@);
                assert(scanned(bm.forest(), self.inner.root, self.query(), limit as int, items));
                match hand_out(&entries, visitor) {
                    Ok(()) => {},
                    Err(e) => {
                        return Err(e);
                    },
                }
                if !outcome.cache_hit {
                    let ghost before = *cache;
                    self.keep(limit, cache, epoch, entries);
                    proof {
                        if *cache is Some {
                            let c = (*cache)->0;
                            let f = bm.forest();
                            let root = self.inner.root;
                            assert forall|i: int| 0 <= i < c.slots@.len() implies #[trigger] c.honest_at(i, epoch, f, root) by {
                                assert(before->0.honest_at(i, epoch, f, root));
                            }
                        }
                    }
                }
                Ok(outcome)
            },
            Err(e) => Err(e),
        }
    }
}

/// Whether a scan of a tree that may have been dropped is refused.
pub open spec fn refused(dropped: bool, limit: usize) -> bool {
    dropped && limit != 0
}

/// What a list served from the cache counts as.
fn count(entries: &Vec<KeyRangeEntry>) -> (r: ScanStats)
    ensures
        outcome_ok((KeyScanOutcome { stats: r, cache_hit: true }), items_of(entries@)),
{
    let mut stats = ScanStats::zero();
    let ghost items = items_of(entries@);
    let mut i: usize = 0;
    assert(items.take(0) =~= Seq::<Item>::empty());
    while i < entries.len()
        invariant
            i <= entries@.len(),
            items == items_of(entries@),
            stats.visited == 0,
            stats.restarts == 0,
            stats.returned == keys_in(items.take(i as int)),
            stats.rollup == i - keys_in(items.take(i as int)),
            stats.returned <= i,
            stats.rollup <= i,
        decreases entries@.len() - i,
    {
        proof {
            let now = items.take(i + 1);
            assert(now.drop_last() =~= items.take(i as int));
            assert(now.last() == key_item(entries@[i as int]));
        }
        match entries[i] {
            KeyRangeEntry::Key { .. } => {
                stats.returned = stats.returned + 1;
            },
            KeyRangeEntry::CommonPrefix(_) => {
                stats.rollup = stats.rollup + 1;
            },
        }
        i = i + 1;
    }
    assert(items.take(items.len() as int) =~= items);
    stats
}

} // verus!
