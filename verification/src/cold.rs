//! Reading a blob that is not in memory, page by page.
//!
//! A blob in the routed layout keeps its internal nodes together, so that a
//! point lookup needs the header page, a few routing pages and the pages of
//! one leaf. Whatever looks out of place makes the answer "unknown", and the
//! caller brings the whole blob into memory instead.
use vstd::prelude::*;

use crate::art::{at, rep, slot_of, step, Art, Route};
use crate::errors::{Error, Result};
use crate::frame::{ends_within, off_of, BlobFrame, BlobHeader};
use crate::insert::{copy_bytes, lemma_rep_root};
use crate::key::{fingerprint_fits, matches_at, SearchKey};
use crate::layout::{
    decode_child_off, guid_eq, leaf_body_size, node_size, node_type, page_align_up, BlobGuid, Leaf, Node, NodeType, BLOB_NODE_SIZE,
    DATA_AREA_START, EMPTY_ROOT_SIZE, LEAF_HEADER_SIZE, NODE16_SIZE, NODE256_SIZE, NODE48_SIZE, NODE4_SIZE, PAGE_4K, PAGE_SIZE,
    PREFIX_SIZE,
};
use crate::migrate::{laid_out, no_empty, rebuilt};
use crate::node::{inner_find_child, inner_ok, is_inner, kid};

verus! {

/// Pages of a blob.
pub const COLD_PAGES_PER_BLOB: usize = 128;

/// What a page-wise lookup concludes.
#[derive(Debug)]
pub enum ColdBlobLookup {
    /// Nothing; the whole blob has to be looked at.
    Unknown,
    Found { value: Vec<u8>, seq: u64 },
    NotFound,
    Crossing { child_guid: BlobGuid, child_depth: usize },
}

/// What the pages read show, before the blob is known not to have changed.
#[derive(Debug)]
pub enum RoutedLookup {
    Unknown,
    Found { value: Vec<u8>, seq: u64 },
    Crossing { child_guid: BlobGuid, child_depth: usize },
    /// No record in the pages read.
    NegativeHint,
}

/// One step of a page-wise descent.
pub enum RoutedStep {
    Visit(u16, usize),
    Done(RoutedLookup),
}

/// The route that a conclusion reports, if it reports one.
pub open spec fn cold_route(r: ColdBlobLookup) -> Option<Route> {
    match r {
        ColdBlobLookup::Unknown => None,
        ColdBlobLookup::Found { value, seq } => Some(Route::Found { value: value@, seq }),
        ColdBlobLookup::NotFound => Some(Route::NotFound),
        ColdBlobLookup::Crossing { child_guid, child_depth } => Some(Route::Crossing { guid: child_guid, depth: child_depth as int }),
    }
}

/// The route that the pages read show, if they show one.
pub open spec fn shown_route(r: RoutedLookup) -> Option<Route> {
    match r {
        RoutedLookup::Unknown => None,
        RoutedLookup::Found { value, seq } => Some(Route::Found { value: value@, seq }),
        RoutedLookup::NegativeHint => Some(Route::NotFound),
        RoutedLookup::Crossing { child_guid, child_depth } => Some(Route::Crossing { guid: child_guid, depth: child_depth as int }),
    }
}

/// The header fields that change whenever a blob does.
#[derive(Debug, Clone, Copy)]
pub struct ColdBlobStamp {
    pub root_slot: u16,
    pub num_slots: u32,
    pub space_used: u32,
    pub compact_times: u32,
    pub dead_bytes: u32,
    pub tombstone_leaf_cnt: u32,
    pub created_epoch: u64,
    pub blob_guid: BlobGuid,
    pub routing_off: u32,
    pub routing_len: u32,
    pub leaf_region_start: u32,
    pub routing_unfit: bool,
}

impl ColdBlobStamp {
    /// The stamp of a header.
    pub open spec fn of(h: BlobHeader) -> ColdBlobStamp {
        ColdBlobStamp {
            root_slot: h.root_slot,
            num_slots: h.num_slots,
            space_used: h.space_used,
            compact_times: h.compact_times,
            dead_bytes: h.dead_bytes,
            tombstone_leaf_cnt: h.tombstone_leaf_cnt,
            created_epoch: h.created_epoch,
            blob_guid: h.blob_guid,
            routing_off: h.routing_off,
            routing_len: h.routing_len,
            leaf_region_start: h.leaf_region_start,
            routing_unfit: h.routing_unfit,
        }
    }

    /// The stamp of a header.
    pub fn new(h: &BlobHeader) -> (r: ColdBlobStamp)
        ensures
            r == ColdBlobStamp::of(*h),
    {
        ColdBlobStamp {
            root_slot: h.root_slot,
            num_slots: h.num_slots,
            space_used: h.space_used,
            compact_times: h.compact_times,
            dead_bytes: h.dead_bytes,
            tombstone_leaf_cnt: h.tombstone_leaf_cnt,
            created_epoch: h.created_epoch,
            blob_guid: h.blob_guid,
            routing_off: h.routing_off,
            routing_len: h.routing_len,
            leaf_region_start: h.leaf_region_start,
            routing_unfit: h.routing_unfit,
        }
    }

    /// Whether two stamps are equal.
    pub fn same(&self, other: &ColdBlobStamp) -> (r: bool)
        ensures
            r == (*self == *other),
    {
        self.root_slot == other.root_slot && self.num_slots == other.num_slots && self.space_used == other.space_used && self.compact_times
            == other.compact_times && self.dead_bytes == other.dead_bytes && self.tombstone_leaf_cnt == other.tombstone_leaf_cnt
            && self.created_epoch == other.created_epoch && guid_eq(&self.blob_guid, &other.blob_guid) && self.routing_off
            == other.routing_off && self.routing_len == other.routing_len && self.leaf_region_start == other.leaf_region_start
            && self.routing_unfit == other.routing_unfit
    }
}

/// What pages of which blobs are kept.
#[derive(Debug)]
pub struct ColdPageCache {
    pub pages: Vec<(BlobGuid, u16)>,
}

impl ColdPageCache {
    /// Whether a page is kept.
    pub open spec fn has(&self, guid: BlobGuid, page: int) -> bool {
        exists|i: int| 0 <= i < self.pages@.len() && (#[trigger] self.pages@[i]).0 == guid && self.pages@[i].1 == page
    }

    /// A cache without pages.
    pub fn new() -> (r: ColdPageCache)
        ensures
            forall|g: BlobGuid, p: int| !#[trigger] r.has(g, p),
    {
        ColdPageCache { pages: Vec::new() }
    }

    /// Whether a page is kept.
    pub fn contains(&self, guid: &BlobGuid, page: u16) -> (r: bool)
        ensures
            r == self.has(*guid, page as int),
    {
        let mut i: usize = 0;
        while i < self.pages.len()
            invariant
                i <= self.pages@.len(),
                forall|j: int| 0 <= j < i ==> !((#[trigger] self.pages@[j]).0 == *guid && self.pages@[j].1 == page),
            decreases self.pages@.len() - i,
        {
            if self.pages[i].1 == page && guid_eq(&self.pages[i].0, guid) {
                assert(self.pages@[i as int].0 == *guid);
                return true;
            }
            i = i + 1;
        }
        false
    }

    /// Keeps a page.
    pub fn store(&mut self, guid: BlobGuid, page: u16)
        ensures
            forall|g: BlobGuid, p: int| #[trigger] final(self).has(g, p) <==> old(self).has(g, p) || (g == guid && p == page),
    {
        let ghost before = self.pages@;
        let ghost c0 = *self;
        if self.contains(&guid, page) {
            return ;
        }
        self.pages.push((guid, page));
        proof {
            assert forall|g: BlobGuid, p: int| #[trigger] self.has(g, p) <==> c0.has(g, p) || (g == guid && p == page) by {
                if c0.has(g, p) {
                    let k = choose|k: int| 0 <= k < before.len() && (#[trigger] before[k]).0 == g && before[k].1 == p;
                    assert(self.pages@[k].0 == g);
                }
                if g == guid && p == page {
                    assert(self.pages@[before.len() as int].0 == g);
                }
                if self.has(g, p) && !(g == guid && p == page) {
                    let k = choose|k: int| 0 <= k < self.pages@.len() && (#[trigger] self.pages@[k]).0 == g && self.pages@[k].1 == p;
                    assert(before[k].0 == g);
                }
            }
        }
    }
}

/// Pages of one blob that have been read, and how.
#[derive(Debug)]
pub struct ColdPageReader<'a> {
    /// The blob as it is stored.
    pub image: &'a BlobFrame,
    pub guid: BlobGuid,
    /// Whether pages may be kept for later reads.
    pub eligible: bool,
    /// Which pages have been read.
    pub loaded: Vec<bool>,
    /// Runs of pages read from the store, in order: first page and the one
    /// after the last.
    pub runs: Vec<(u16, u16)>,
}

impl<'a> ColdPageReader<'a> {
    /// Whether the reader is well-formed.
    pub open spec fn wf(&self) -> bool {
        self.loaded@.len() == COLD_PAGES_PER_BLOB
    }

    /// Whether the bytes from `start` to `end` have been read.
    pub open spec fn covers(&self, start: int, end: int) -> bool {
        &&& end <= PAGE_SIZE
        &&& forall|p: int| start / 4096 <= p && p * 4096 < end ==> #[trigger] self.loaded@[p]
    }

    /// A reader that has read nothing.
    pub fn new(image: &'a BlobFrame, guid: BlobGuid, eligible: bool) -> (r: Self)
        ensures
            r.wf(),
            r.image == image,
            r.guid == guid,
            r.eligible == eligible,
            forall|p: int| 0 <= p < 128 ==> !#[trigger] r.loaded@[p],
            r.runs@.len() == 0,
    {
        let mut loaded: Vec<bool> = Vec::new();
        while loaded.len() < COLD_PAGES_PER_BLOB
            invariant
                loaded@.len() <= COLD_PAGES_PER_BLOB,
                forall|p: int| 0 <= p < loaded@.len() ==> !#[trigger] loaded@[p],
            decreases COLD_PAGES_PER_BLOB - loaded@.len(),
        {
            loaded.push(false);
        }
        ColdPageReader { image, guid, eligible, loaded, runs: Vec::new() }
    }

    /// Whether anything was read from the store.
    pub fn read_from_store(&self) -> (r: bool)
        ensures
            r == (self.runs@.len() > 0),
    {
        self.runs.len() > 0
    }

    /// Reads the pages of the bytes from `start` to `end` that have not been
    /// read. With `keep` a kept page is used instead, and what is read is
    /// kept. Adjacent pages are read at once.
    pub fn load_range(&mut self, cache: &mut ColdPageCache, start: u32, end: u32, keep: bool) -> (r: Result<()>)
        requires
            old(self).wf(),
        ensures
            final(self).wf(),
            final(self).image == old(self).image && final(self).guid == old(self).guid && final(self).eligible == old(self).eligible,
            r is Err <==> start < end && end > PAGE_SIZE,
            r matches Err(e) ==> e is NodeCorrupt && *final(self) == *old(self) && *final(cache) == *old(cache),
            r is Ok ==> loaded_more(*old(self), *final(self), *old(cache), start as int, end as int, keep),
            r is Ok ==> (end > start ==> final(self).covers(start as int, end as int)),
            forall|h: BlobGuid, p: int| #[trigger]
                final(cache).has(h, p) <==> old(cache).has(h, p) || (h == old(self).guid && keep && old(self).eligible && in_runs(
                    final(self).runs@,
                    old(self).runs@.len() as int,
                    p,
                )),
    {
        if end <= start {
            return Ok(());
        }
        if end > PAGE_SIZE {
            return Err(Error::NodeCorrupt { context: "a page range beyond the blob" });
        }
        let ghost r0 = *self;
        let ghost c0 = *cache;
        let r0_runs: usize = self.runs.len();
        proof {
            assert forall|p: int| !in_runs(self.runs@.take(r0_runs as int), r0_runs as int, p) by {
                if in_runs(self.runs@.take(r0_runs as int), r0_runs as int, p) {
                    let i = choose|i: int| r0_runs <= i < r0_runs && (#[trigger] self.runs@.take(r0_runs as int)[i]).0 <= p;
                }
            }
        }
        let first: u16 = (start / PAGE_4K) as u16;
        let end_page: u16 = (page_align_up(end) / PAGE_4K) as u16;
        let ghost lo = first as int;
        let ghost hi = end_page as int;
        let mut page: u16 = first;
        let mut run_open: bool = false;
        let mut run_start: u16 = first;
        while page < end_page
            invariant
                lo == first <= page <= end_page == hi,
                hi <= 128,
                lo == start as int / 4096,
                self.wf(),
                r0.wf(),
                self.image == r0.image && self.guid == r0.guid && self.eligible == r0.eligible,
                run_open ==> lo <= run_start < page,
                *cache == c0,
                self.runs@.len() >= r0.runs@.len(),
                forall|i: int| 0 <= i < r0.runs@.len() ==> self.runs@[i] == r0.runs@[i],
                forall|p: int| 0 <= p < 128 ==> #[trigger] self.loaded@[p] == (r0.loaded@[p] || lo <= p < page),
                run_open ==> forall|p: int| run_start <= p < page ==> #[trigger] missed(r0, c0, p, keep),
                forall|i: int| r0.runs@.len() <= i < self.runs@.len() ==> lo <= (#[trigger] self.runs@[i]).0 < self.runs@[i].1 <= (if run_open {
                    run_start - 1
                } else {
                    page - 1
                }),
                forall|i: int, j: int| r0.runs@.len() <= i < j < self.runs@.len() ==> (#[trigger] self.runs@[i]).1 < (#[trigger] self.runs@[j]).0,
                forall|p: int| lo <= p < (if run_open { run_start as int } else { page as int }) ==> (#[trigger] missed(r0, c0, p, keep)
                    <==> in_runs(self.runs@, r0.runs@.len() as int, p)),
            decreases end_page - page,
        {
            let ghost s1 = *self;
            let hit: bool = self.loaded[page as usize] || (keep && cache.contains(&self.guid, page));
            proof {
                assert(self.loaded@[page as int] == r0.loaded@[page as int]);
                assert(hit == !missed(r0, c0, page as int, keep));
            }
            self.loaded.set(page as usize, true);
            if hit {
                if run_open {
                    let ghost n0 = self.runs@.len() as int;
                    let ghost runs0 = self.runs@;
                    self.runs.push((run_start, page));
                    run_open = false;
                    proof {
                        assert forall|p: int| lo <= p < page + 1 implies (#[trigger] missed(r0, c0, p, keep) <==> in_runs(
                            self.runs@,
                            r0.runs@.len() as int,
                            p,
                        )) by {
                            lemma_in_runs_push(runs0, r0.runs@.len() as int, run_start, page, p);
                        }
                    }
                } else {
                    proof {
                        assert(!in_runs(self.runs@, r0.runs@.len() as int, page as int)) by {
                            if in_runs(self.runs@, r0.runs@.len() as int, page as int) {
                                let i = choose|i: int| r0.runs@.len() <= i < self.runs@.len() && (#[trigger] self.runs@[i]).0 <= page < self.runs@[i].1;
                            }
                        }
                    }
                }
            } else if !run_open {
                run_open = true;
                run_start = page;
            }
            page = page + 1;
        }
        if run_open {
            let ghost runs0 = self.runs@;
            self.runs.push((run_start, end_page));
            proof {
                assert forall|p: int| lo <= p < hi implies (#[trigger] missed(r0, c0, p, keep) <==> in_runs(self.runs@, r0.runs@.len() as int, p)) by {
                    lemma_in_runs_push(runs0, r0.runs@.len() as int, run_start, end_page, p);
                }
            }
        }
        proof {
            assert forall|p: int| start as int / 4096 <= p && p * 4096 < end implies #[trigger] self.loaded@[p] by {
                assert(p < hi);
            }
        }
        let ghost n0 = r0.runs@.len() as int;
        if keep && self.eligible {
            let mut i: usize = r0_runs;
            while i < self.runs.len()
                invariant
                    n0 <= i <= self.runs@.len(),
                    n0 == r0_runs,
                    forall|h: BlobGuid, p: int| #[trigger] cache.has(h, p) <==> c0.has(h, p) || (h == self.guid && in_runs(self.runs@.take(i as int), n0, p)),
                decreases self.runs@.len() - i,
            {
                let ghost c1 = *cache;
                let (from, to): (u16, u16) = self.runs[i];
                let mut p: u16 = from;
                while p < to
                    invariant
                        from <= to ==> from <= p <= to,
                        to < from ==> p == from,
                        forall|h: BlobGuid, q: int| #[trigger] cache.has(h, q) <==> c1.has(h, q) || (h == self.guid && from <= q < p),
                    decreases to - p,
                {
                    cache.store(self.guid, p);
                    p = p + 1;
                }
                proof {
                    assert(self.runs@.take(i as int + 1) =~= self.runs@.take(i as int).push((from, to)));
                    assert forall|h: BlobGuid, q: int| #[trigger] cache.has(h, q) <==> c0.has(h, q) || (h == self.guid && in_runs(
                        self.runs@.take(i as int + 1),
                        n0,
                        q,
                    )) by {
                        lemma_in_runs_push(self.runs@.take(i as int), n0, from, to, q);
                        assert(c1.has(h, q) <==> c0.has(h, q) || (h == self.guid && in_runs(self.runs@.take(i as int), n0, q)));
                    }
                }
                i = i + 1;
            }
            assert(self.runs@.take(self.runs@.len() as int) =~= self.runs@);
        }
        Ok(())
    }
}

/// Whether page `p` has to be read from the store.
pub open spec fn missed(r: ColdPageReader, c: ColdPageCache, p: int, keep: bool) -> bool {
    !r.loaded@[p] && !(keep && c.has(r.guid, p))
}

/// Whether page `p` is in one of the runs from `from` on.
pub open spec fn in_runs(runs: Seq<(u16, u16)>, from: int, p: int) -> bool {
    exists|i: int| from <= i < runs.len() && (#[trigger] runs[i]).0 <= p < runs[i].1
}

proof fn lemma_in_runs_push(runs: Seq<(u16, u16)>, from: int, a: u16, b: u16, p: int)
    requires
        0 <= from <= runs.len(),
    ensures
        in_runs(runs.push((a, b)), from, p) <==> in_runs(runs, from, p) || a <= p < b,
{
    let r2 = runs.push((a, b));
    if in_runs(runs, from, p) {
        let i = choose|i: int| from <= i < runs.len() && (#[trigger] runs[i]).0 <= p < runs[i].1;
        assert(r2[i] == runs[i]);
    }
    if a <= p < b {
        assert(r2[runs.len() as int].0 <= p);
    }
    if in_runs(r2, from, p) {
        let i = choose|i: int| from <= i < r2.len() && (#[trigger] r2[i]).0 <= p < r2[i].1;
        if i < runs.len() {
            assert(runs[i].0 <= p);
        }
    }
}

/// Whether `r` is `r0` after reading the pages of a range: the pages that
/// had to come from the store came in as few runs as there can be.
pub open spec fn loaded_more(r0: ColdPageReader, r: ColdPageReader, c: ColdPageCache, start: int, end: int, keep: bool) -> bool {
    let n = r0.runs@.len() as int;
    let lo = start / 4096;
    let hi = if end > start { (end + 4095) / 4096 } else { lo };
    &&& forall|p: int| 0 <= p < 128 ==> #[trigger] r.loaded@[p] == (r0.loaded@[p] || lo <= p < hi)
    &&& n <= r.runs@.len()
    &&& forall|i: int| 0 <= i < n ==> r.runs@[i] == r0.runs@[i]
    &&& forall|p: int| lo <= p < hi ==> (#[trigger] missed(r0, c, p, keep) <==> in_runs(r.runs@, n, p))
    &&& forall|i: int| n <= i < r.runs@.len() ==> lo <= (#[trigger] r.runs@[i]).0 < r.runs@[i].1 <= hi
    &&& forall|i: int, j: int| n <= i < j < r.runs@.len() ==> (#[trigger] r.runs@[i]).1 < (#[trigger] r.runs@[j]).0
}

/// The pages that the bytes from `start` to `end` lie on.
pub open spec fn pages_of(start: int, end: int) -> Set<int> {
    Set::new(|p: int| 0 <= p < 128 && start / 4096 <= p && p * 4096 < end)
}

/// The pages of the node at `slot`.
pub open spec fn node_pages(c: Seq<Option<Node>>, slot: int) -> Set<int> {
    match at(c, slot) {
        Some(n) => pages_of(off_of(slot), off_of(slot) + node_size(n)),
        None => Set::empty(),
    }
}

/// The pages of the internal nodes that `key` passes below `t`, `d` of its
/// bytes having been consumed.
pub open spec fn routing_pages(c: Seq<Option<Node>>, t: Art, key: Seq<u8>, d: int) -> Set<int>
    decreases t,
{
    match t {
        Art::Leaf { .. } => Set::empty(),
        Art::Prefix { slot, bytes, child } => node_pages(c, slot).union(
            if matches_at(key, d, bytes) {
                routing_pages(c, *child, key, d + bytes.len())
            } else {
                Set::empty()
            },
        ),
        Art::Inner { slot, kids } => node_pages(c, slot).union(
            if 0 <= d < key.len() && key[d] < kids.len() && kids[key[d] as int] is Some {
                routing_pages(c, kids[key[d] as int]->0, key, d + 1)
            } else {
                Set::empty()
            },
        ),
        Art::Empty { slot } => node_pages(c, slot),
        Art::Blob { slot, .. } => node_pages(c, slot),
    }
}

/// The pages of the leaf that `key` ends at below `t`, if it ends at one.
pub open spec fn leaf_pages(c: Seq<Option<Node>>, t: Art, key: Seq<u8>, d: int) -> Set<int>
    decreases t,
{
    match t {
        Art::Leaf { slot, .. } => node_pages(c, slot),
        Art::Prefix { bytes, child, .. } => if matches_at(key, d, bytes) {
            leaf_pages(c, *child, key, d + bytes.len())
        } else {
            Set::empty()
        },
        Art::Inner { kids, .. } => if 0 <= d < key.len() && key[d] < kids.len() && kids[key[d] as int] is Some {
            leaf_pages(c, kids[key[d] as int]->0, key, d + 1)
        } else {
            Set::empty()
        },
        _ => Set::empty(),
    }
}

/// Whether just the pages `kept` and `once` were read from `r0` to `r`. Those
/// of `kept` come from the cache if it has them, and are in the cache
/// afterwards; those of `once` come from the store and are not kept.
pub open spec fn read_more(r0: ColdPageReader, c0: ColdPageCache, r: ColdPageReader, c: ColdPageCache, kept: Set<int>, once: Set<int>) -> bool {
    let n = r0.runs@.len() as int;
    &&& forall|p: int| 0 <= p < 128 ==> #[trigger] r.loaded@[p] == (r0.loaded@[p] || kept.contains(p) || once.contains(p))
    &&& forall|h: BlobGuid, p: int| #[trigger]
        c.has(h, p) <==> c0.has(h, p) || (h == r0.guid && r0.eligible && kept.contains(p) && !r0.loaded@[p])
    &&& n <= r.runs@.len()
    &&& forall|i: int| 0 <= i < n ==> r.runs@[i] == r0.runs@[i]
    &&& forall|p: int| #[trigger]
        in_runs(r.runs@, n, p) <==> !r0.loaded@[p] && (if kept.contains(p) {
            !c0.has(r0.guid, p)
        } else {
            once.contains(p)
        })
    &&& forall|p: int| kept.contains(p) || once.contains(p) ==> 0 <= p < 128
}

/// Whether the cache lost no page from `c0` to `c`, and gained none but of
/// blob `g`.
pub open spec fn keeps_more(c0: ColdPageCache, c: ColdPageCache, g: BlobGuid) -> bool {
    &&& forall|h: BlobGuid, p: int| #[trigger] c.has(h, p) ==> c0.has(h, p) || h == g
    &&& forall|h: BlobGuid, p: int| #[trigger] c0.has(h, p) ==> c.has(h, p)
}

/// What reading a range reads.
proof fn lemma_read_range(r0: ColdPageReader, c0: ColdPageCache, r: ColdPageReader, c: ColdPageCache, start: int, end: int, keep: bool)
    requires
        loaded_more(r0, r, c0, start, end, keep),
        0 <= start,
        start < end ==> end <= PAGE_SIZE,
        forall|h: BlobGuid, p: int| #[trigger]
            c.has(h, p) <==> c0.has(h, p) || (h == r0.guid && keep && r0.eligible && in_runs(r.runs@, r0.runs@.len() as int, p)),
    ensures
        keep ==> read_more(r0, c0, r, c, pages_of(start, if end > start { end } else { 0 }), Set::empty()),
        !keep ==> read_more(r0, c0, r, c, Set::empty(), pages_of(start, if end > start { end } else { 0 })),
{
    let n = r0.runs@.len() as int;
    let ps = pages_of(start, if end > start { end } else { 0 });
    let lo = start / 4096;
    let hi = if end > start { (end + 4095) / 4096 } else { lo };
    assert forall|p: int| ps.contains(p) <==> lo <= p < hi by {}
    assert forall|p: int| #[trigger] in_runs(r.runs@, n, p) <==> (lo <= p < hi && missed(r0, c0, p, keep)) by {
        if in_runs(r.runs@, n, p) {
            let i = choose|i: int| n <= i < r.runs@.len() && (#[trigger] r.runs@[i]).0 <= p < r.runs@[i].1;
            assert(lo <= r.runs@[i].0 && r.runs@[i].1 <= hi);
        }
    }
}

/// Reading some pages and then others.
proof fn lemma_read_then(
    r0: ColdPageReader,
    c0: ColdPageCache,
    r1: ColdPageReader,
    c1: ColdPageCache,
    r2: ColdPageReader,
    c2: ColdPageCache,
    k1: Set<int>,
    o1: Set<int>,
    k2: Set<int>,
    o2: Set<int>,
)
    requires
        read_more(r0, c0, r1, c1, k1, o1),
        read_more(r1, c1, r2, c2, k2, o2),
        r1.guid == r0.guid && r1.eligible == r0.eligible,
        o1.disjoint(k2),
    ensures
        read_more(r0, c0, r2, c2, k1.union(k2), o1.union(o2)),
{
    let n0 = r0.runs@.len() as int;
    let n1 = r1.runs@.len() as int;
    assert forall|p: int| o1.contains(p) implies !k2.contains(p) by {}
    assert forall|p: int| #[trigger] in_runs(r2.runs@, n0, p) <==> in_runs(r1.runs@, n0, p) || in_runs(r2.runs@, n1, p) by {
        if in_runs(r2.runs@, n0, p) {
            let i = choose|i: int| n0 <= i < r2.runs@.len() && (#[trigger] r2.runs@[i]).0 <= p < r2.runs@[i].1;
            if i < n1 {
                assert(r1.runs@[i] == r2.runs@[i]);
            }
        }
        if in_runs(r1.runs@, n0, p) {
            let i = choose|i: int| n0 <= i < r1.runs@.len() && (#[trigger] r1.runs@[i]).0 <= p < r1.runs@[i].1;
            assert(r1.runs@[i] == r2.runs@[i]);
        }
        if in_runs(r2.runs@, n1, p) {
            let i = choose|i: int| n1 <= i < r2.runs@.len() && (#[trigger] r2.runs@[i]).0 <= p < r2.runs@[i].1;
            assert(r2.runs@[i].0 <= p);
        }
    }
    assert forall|i: int| 0 <= i < n0 implies r2.runs@[i] == r0.runs@[i] by {
        assert(r1.runs@[i] == r0.runs@[i]);
    }
}

/// Bytes of a node of a kind other than leaf.
pub fn size_of_kind(kind: NodeType) -> (r: u32)
    ensures
        forall|n: Node| #[trigger] node_type(n) == kind && !(n is Leaf) ==> r == node_size(n),
        r <= 1024,
{
    match kind {
        NodeType::EmptyRoot => EMPTY_ROOT_SIZE,
        NodeType::Prefix => PREFIX_SIZE,
        NodeType::Node4 => NODE4_SIZE,
        NodeType::Node16 => NODE16_SIZE,
        NodeType::Node48 => NODE48_SIZE,
        NodeType::Node256 => NODE256_SIZE,
        NodeType::Blob => BLOB_NODE_SIZE,
        NodeType::Leaf => LEAF_HEADER_SIZE,
        NodeType::Invalid => 0,
    }
}

impl<'a> ColdPageReader<'a> {
    /// The kind of the node at `slot`, whose first bytes have been read.
    fn kind_at(&self, slot: u16) -> (r: Option<NodeType>)
        requires
            slot != 0,
            self.covers(off_of(slot as int), off_of(slot as int) + 2),
        ensures
            r == (match at(self.image.cells@, slot as int) {
                Some(n) => Some(node_type(n)),
                None => None,
            }),
    {
        self.image.ntype_of(slot)
    }

    /// The node at `slot`, all of whose bytes have been read.
    fn node_at(&self, slot: u16) -> (r: Option<&'a Node>)
        requires
            slot != 0,
            at(self.image.cells@, slot as int) matches Some(n) ==> self.covers(off_of(slot as int), off_of(slot as int) + node_size(n)),
        ensures
            match r {
                Some(n) => at(self.image.cells@, slot as int) == Some(*n),
                None => at(self.image.cells@, slot as int) is None,
            },
    {
        self.image.node_at(slot)
    }

    /// The lengths that the leaf at `slot` records, its header having been
    /// read.
    fn leaf_lens(&self, slot: u16) -> (r: Option<(u32, u32)>)
        requires
            slot != 0,
            self.covers(off_of(slot as int), off_of(slot as int) + 16),
        ensures
            match at(self.image.cells@, slot as int) {
                Some(Node::Leaf(l)) => l.key@.len() <= 65535 && l.value@.len() <= 65535 ==> r == Some((l.key@.len() as u32, l.value@.len() as u32)),
                _ => r is None,
            },
            r matches Some((k, v)) ==> k <= 65535 && v <= 65535,
    {
        match self.image.node_at(slot) {
            Some(Node::Leaf(l)) => {
                if l.key.len() <= 65535 && l.value.len() <= 65535 {
                    Some((l.key.len() as u32, l.value.len() as u32))
                } else {
                    None
                }
            },
            _ => None,
        }
    }

    /// Reads the pages of an internal node. False for a leaf and for no node
    /// at all.
    fn page_in_fixed_node(&mut self, cache: &mut ColdPageCache, slot: u16) -> (r: Result<bool>)
        requires
            old(self).wf(),
            slot != 0,
        ensures
            final(self).wf(),
            final(self).image == old(self).image && final(self).guid == old(self).guid && final(self).eligible == old(self).eligible,
            match r {
                Ok(b) => {
                    &&& b <==> (at(old(self).image.cells@, slot as int) matches Some(n) && !(n is Leaf))
                    &&& b ==> final(self).covers(off_of(slot as int), off_of(slot as int) + node_size(at(old(self).image.cells@, slot as int)->0))
                    &&& b ==> read_more(
                        *old(self),
                        *old(cache),
                        *final(self),
                        *final(cache),
                        node_pages(old(self).image.cells@, slot as int),
                        Set::empty(),
                    )
                },
                Err(e) => e is NodeCorrupt && !(at(old(self).image.cells@, slot as int) matches Some(n) && off_of(slot as int) + node_size(n)
                    <= PAGE_SIZE),
            },
            keeps_more(*old(cache), *final(cache), old(self).guid),
            forall|a: int, b: int| 0 <= a && #[trigger] old(self).covers(a, b) ==> final(self).covers(a, b),
    {
        let off: u32 = decode_child_off(slot);
        let ghost (r0, c0) = (*self, *cache);
        match self.load_range(cache, off, off + 2, true) {
            Ok(_) => {},
            Err(e) => {
                return Err(e);
            },
        }
        let ghost (r1, c1) = (*self, *cache);
        let kind: NodeType = match self.kind_at(slot) {
            Some(NodeType::Leaf) => {
                return Ok(false);
            },
            Some(k) => k,
            None => {
                return Ok(false);
            },
        };
        let size: u32 = size_of_kind(kind);
        match self.load_range(cache, off, off + size, true) {
            Ok(_) => {
                proof {
                    let o = off as int;
                    lemma_read_range(r0, c0, r1, c1, o, o + 2, true);
                    lemma_read_range(r1, c1, *self, *cache, o, o + size, true);
                    lemma_read_then(r0, c0, r1, c1, *self, *cache, pages_of(o, o + 2), Set::empty(), pages_of(o, o + size), Set::empty());
                    assert(pages_of(o, o + 2).union(pages_of(o, o + size)) =~= node_pages(r0.image.cells@, slot as int));
                    assert(Set::<int>::empty().union(Set::empty()) =~= Set::empty());
                }
                Ok(true)
            },
            Err(e) => Err(e),
        }
    }

    /// Reads the pages of a leaf: those of its header, then those of its key
    /// and value. False for anything else.
    fn page_in_leaf_paged(&mut self, cache: &mut ColdPageCache, slot: u16) -> (r: Result<bool>)
        requires
            old(self).wf(),
            slot != 0,
            at(old(self).image.cells@, slot as int) matches Some(n) ==> crate::frame::leaf_fits(n),
        ensures
            final(self).wf(),
            final(self).image == old(self).image && final(self).guid == old(self).guid && final(self).eligible == old(self).eligible,
            match r {
                Ok(b) => {
                    &&& b <==> (at(old(self).image.cells@, slot as int) matches Some(n) && n is Leaf)
                    &&& b ==> final(self).covers(off_of(slot as int), off_of(slot as int) + node_size(at(old(self).image.cells@, slot as int)->0))
                    &&& b ==> read_more(
                        *old(self),
                        *old(cache),
                        *final(self),
                        *final(cache),
                        Set::empty(),
                        node_pages(old(self).image.cells@, slot as int),
                    )
                },
                Err(e) => e is NodeCorrupt && !(at(old(self).image.cells@, slot as int) matches Some(n) && n is Leaf && off_of(slot as int)
                    + node_size(n) <= PAGE_SIZE),
            },
            keeps_more(*old(cache), *final(cache), old(self).guid),
    {
        let off: u32 = decode_child_off(slot);
        let hdr_end: u32 = page_align_up(off + LEAF_HEADER_SIZE);
        let ghost (r0, c0) = (*self, *cache);
        match self.load_range(cache, off, hdr_end, false) {
            Ok(_) => {},
            Err(e) => {
                return Err(e);
            },
        }
        let ghost (r1, c1) = (*self, *cache);
        let (klen, vlen): (u32, u32) = match self.leaf_lens(slot) {
            Some(x) => x,
            None => {
                return Ok(false);
            },
        };
        let size: u32 = leaf_body_size(klen, vlen);
        let body_end: u32 = page_align_up(off + size);
        match self.load_range(cache, hdr_end, body_end, false) {
            Ok(_) => {
                proof {
                    let o = off as int;
                    let a = pages_of(o, hdr_end as int);
                    let b = pages_of(hdr_end as int, if body_end > hdr_end { body_end as int } else { 0 });
                    lemma_read_range(r0, c0, r1, c1, o, hdr_end as int, false);
                    lemma_read_range(r1, c1, *self, *cache, hdr_end as int, body_end as int, false);
                    lemma_read_then(r0, c0, r1, c1, *self, *cache, Set::empty(), a, Set::empty(), b);
                    assert(a.union(b) =~= node_pages(r0.image.cells@, slot as int));
                    assert(Set::<int>::empty().union(Set::empty()) =~= Set::empty());
                }
                Ok(true)
            },
            Err(e) => Err(e),
        }
    }
}

/// Checks a leaf and copies its value out.
pub fn leaf_check_owned(leaf: &Leaf, key: SearchKey) -> (r: RoutedLookup)
    requires
        fingerprint_fits(leaf.key_fp, leaf.key@),
    ensures
        r is Found <==> !leaf.tombstone && leaf.key@ == key@,
        r matches RoutedLookup::Found { value, seq } ==> value@ == leaf.value@ && seq == leaf.seq,
        !(r is Found) ==> r is NegativeHint,
{
    if leaf.tombstone {
        return RoutedLookup::NegativeHint;
    }
    // A fingerprint that disagrees settles it without a look at the key.
    if !key.may_match(leaf.key_fp) {
        return RoutedLookup::NegativeHint;
    }
    if !key.eq_slice(&leaf.key) {
        return RoutedLookup::NegativeHint;
    }
    RoutedLookup::Found { value: copy_bytes(&leaf.value), seq: leaf.seq }
}

/// Decides at an internal node where a page-wise descent goes on.
pub fn routed_step(n: &Node, key: SearchKey, depth: usize) -> (r: RoutedStep)
    requires
        depth <= key@.len() <= usize::MAX,
        is_inner(*n) ==> inner_ok(*n),
    ensures
        match *n {
            Node::Prefix(p) => if matches_at(key@, depth as int, p.bytes@) {
                r == RoutedStep::Visit(p.child, (depth + p.bytes@.len()) as usize)
            } else {
                r == RoutedStep::Done(RoutedLookup::NegativeHint)
            },
            Node::Blob(b) => if matches_at(key@, depth as int, b.bytes@) {
                r == RoutedStep::Done(
                    RoutedLookup::Crossing { child_guid: b.child_blob_guid, child_depth: (depth + b.bytes@.len()) as usize },
                )
            } else {
                r == RoutedStep::Done(RoutedLookup::NegativeHint)
            },
            Node::Leaf(_) | Node::EmptyRoot => r == RoutedStep::Done(RoutedLookup::Unknown),
            _ => if depth < key@.len() && kid(*n, key@[depth as int] as int) != 0 {
                r == RoutedStep::Visit(kid(*n, key@[depth as int] as int), (depth + 1) as usize)
            } else {
                r == RoutedStep::Done(RoutedLookup::NegativeHint)
            },
        },
{
    match n {
        Node::Prefix(p) => {
            if key.range_eq(depth, &p.bytes) {
                RoutedStep::Visit(p.child, depth + p.bytes.len())
            } else {
                RoutedStep::Done(RoutedLookup::NegativeHint)
            }
        },
        Node::Blob(b) => {
            if key.range_eq(depth, &b.bytes) {
                RoutedStep::Done(RoutedLookup::Crossing { child_guid: b.child_blob_guid, child_depth: depth + b.bytes.len() })
            } else {
                RoutedStep::Done(RoutedLookup::NegativeHint)
            }
        },
        Node::Leaf(_) => RoutedStep::Done(RoutedLookup::Unknown),
        Node::EmptyRoot => RoutedStep::Done(RoutedLookup::Unknown),
        _ => {
            let byte: u8 = match key.byte_at(depth) {
                Some(b) => b,
                None => {
                    return RoutedStep::Done(RoutedLookup::NegativeHint);
                },
            };
            match inner_find_child(n, byte) {
                Some(child) => RoutedStep::Visit(child, depth + 1),
                None => RoutedStep::Done(RoutedLookup::NegativeHint),
            }
        },
    }
}

/// Follows `key` from the node at `slot`, reading pages as it goes.
#[verifier::rlimit(60)]
pub fn descend_routed_paged(
    pages: &mut ColdPageReader,
    cache: &mut ColdPageCache,
    slot: u16,
    key: SearchKey,
    depth: usize,
    leaf_region_start: u32,
    Ghost(t): Ghost<Art>,
) -> (r: Result<RoutedLookup>)
    requires
        old(pages).wf(),
        rep(old(pages).image.cells@, t),
        slot_of(t) == slot,
        depth <= key@.len() <= usize::MAX,
    ensures
        final(pages).wf(),
        final(pages).image == old(pages).image && final(pages).guid == old(pages).guid && final(pages).eligible == old(pages).eligible,
        r matches Ok(x) ==> (shown_route(x) matches Some(route) ==> route == step(t, key@, depth as int)),
        r matches Ok(RoutedLookup::Crossing { child_guid, child_depth }) ==> depth <= child_depth <= key@.len(),
        r matches Err(e) ==> e is NodeCorrupt,
        keeps_more(*old(cache), *final(cache), old(pages).guid),
        // Nothing out of place: the answer is known.
        old(pages).image.ok() && laid_out(t, leaf_region_start as int) && no_empty(t) && leaf_region_start >= DATA_AREA_START
            && leaf_region_start % 8 == 0 ==> (r matches Ok(x) && !(x is Unknown)) && read_more(
            *old(pages),
            *old(cache),
            *final(pages),
            *final(cache),
            routing_pages(old(pages).image.cells@, t, key@, depth as int),
            leaf_pages(old(pages).image.cells@, t, key@, depth as int),
        ),
    decreases t,
{
    let ghost c = pages.image.cells@;
    let ghost (r0, c0) = (*pages, *cache);
    proof {
        lemma_rep_root(c, t);
        if pages.image.ok() {
            assert(ends_within(slot as int, at(c, slot as int)));
        }
    }
    let off: u32 = decode_child_off(slot);
    if off >= leaf_region_start {
        match pages.page_in_leaf_paged(cache, slot) {
            Ok(true) => {},
            Ok(false) => {
                return Ok(RoutedLookup::Unknown);
            },
            Err(e) => {
                return Err(e);
            },
        }
        return match pages.node_at(slot) {
            Some(Node::Leaf(l)) => Ok(leaf_check_owned(l, key)),
            _ => Ok(RoutedLookup::Unknown),
        };
    }
    match pages.page_in_fixed_node(cache, slot) {
        Ok(true) => {},
        Ok(false) => {
            return Ok(RoutedLookup::Unknown);
        },
        Err(e) => {
            return Err(e);
        },
    }
    let n: &Node = match pages.node_at(slot) {
        Some(n) => n,
        None => {
            return Ok(RoutedLookup::Unknown);
        },
    };
    match routed_step(n, key, depth) {
        RoutedStep::Done(answer) => Ok(answer),
        RoutedStep::Visit(child, next_depth) => {
            let ghost k = match t {
                Art::Prefix { child, .. } => *child,
                _ => t->kids[key@[depth as int] as int]->0,
            };
            proof {
                if t is Inner {
                    assert(t->kids[key@[depth as int] as int] is Some);
                }
            }
            let ghost (r1, c1) = (*pages, *cache);
            let r = descend_routed_paged(pages, cache, child, key, next_depth, leaf_region_start, Ghost(k));
            proof {
                let here = node_pages(c, slot as int);
                let below = routing_pages(c, k, key@, next_depth as int);
                let last = leaf_pages(c, k, key@, next_depth as int);
                if read_more(r1, c1, *pages, *cache, below, last) {
                    lemma_read_then(r0, c0, r1, c1, *pages, *cache, here, Set::empty(), below, last);
                    assert(Set::<int>::empty().union(last) =~= last);
                }
            }
            r
        },
    }
}

/// Whether a blob is in the routed layout, with nothing out of place.
pub open spec fn in_order(f: BlobFrame) -> bool {
    let lrs = f.header.leaf_region_start;
    &&& f.header.routing_len != 0
    &&& laid_out(f.tree(), lrs as int)
    &&& no_empty(f.tree())
    &&& lrs >= DATA_AREA_START
    &&& lrs % 8 == 0
}

/// A blob that a rebuild gave the routed layout is in order, if no empty
/// root was left inside its tree: every page-wise read of it has an answer.
pub proof fn routed_rebuilds_are_in_order(f0: BlobFrame, f: BlobFrame)
    requires
        rebuilt(f0, f),
        no_empty(f0.tree()),
        f.header.routing_len != 0,
    ensures
        f.ok(),
        in_order(f),
{
}

/// Follows `key` through the stored image of a blob, as far as its pages
/// show.
pub fn cold_read_routed_into(pages: &mut ColdPageReader, cache: &mut ColdPageCache, key: SearchKey, depth: usize) -> (r: Result<
    RoutedLookup,
>)
    requires
        old(pages).wf(),
        crate::frame::rooted(old(pages).image.cells@, old(pages).image.header.root_slot),
        depth <= key@.len() <= usize::MAX,
    ensures
        final(pages).wf(),
        final(pages).image == old(pages).image && final(pages).guid == old(pages).guid && final(pages).eligible == old(pages).eligible,
        r matches Ok(x) ==> (shown_route(x) matches Some(route) ==> route == old(pages).image.route(key@, depth as int)),
        r matches Ok(RoutedLookup::Crossing { child_guid, child_depth }) ==> depth <= child_depth <= key@.len(),
        old(pages).image.header.routing_len == 0 ==> r matches Ok(RoutedLookup::Unknown),
        r matches Err(e) ==> e is NodeCorrupt,
        keeps_more(*old(cache), *final(cache), old(pages).guid),
        old(pages).image.ok() && in_order(*old(pages).image) ==> (r matches Ok(x) && !(x is Unknown)) && read_more(
            *old(pages),
            *old(cache),
            *final(pages),
            *final(cache),
            set![0int].union(routing_pages(old(pages).image.cells@, old(pages).image.tree(), key@, depth as int)),
            leaf_pages(old(pages).image.cells@, old(pages).image.tree(), key@, depth as int),
        ),
        // A blob that is not routed costs its header page.
        old(pages).image.header.routing_len == 0 ==> read_more(*old(pages), *old(cache), *final(pages), *final(cache), set![0int], Set::empty()),
{
    let ghost (r0, c0) = (*pages, *cache);
    match pages.load_range(cache, 0, PAGE_4K, true) {
        Ok(_) => {},
        Err(e) => {
            return Err(e);
        },
    }
    let ghost (r1, c1) = (*pages, *cache);
    proof {
        lemma_read_range(r0, c0, r1, c1, 0, 4096, true);
        assert(pages_of(0, 4096) =~= set![0int]);
    }
    if pages.image.header.routing_len == 0 {
        return Ok(RoutedLookup::Unknown);
    }
    let root: u16 = pages.image.header.root_slot;
    let lrs: u32 = pages.image.header.leaf_region_start;
    let r = descend_routed_paged(pages, cache, root, key, depth, lrs, Ghost(pages.image.tree()));
    proof {
        let below = routing_pages(r0.image.cells@, r0.image.tree(), key@, depth as int);
        let last = leaf_pages(r0.image.cells@, r0.image.tree(), key@, depth as int);
        if read_more(r1, c1, *pages, *cache, below, last) {
            lemma_read_then(r0, c0, r1, c1, *pages, *cache, set![0int], Set::empty(), below, last);
            assert(Set::<int>::empty().union(last) =~= last);
        }
        assert forall|h: BlobGuid, p: int| #[trigger] c0.has(h, p) implies cache.has(h, p) by {
            assert(c1.has(h, p));
        }
    }
    r
}

/// Whether `r` may be concluded from the pages read.
pub open spec fn concluded(
    shown: RoutedLookup,
    read_from_store: bool,
    eligible: bool,
    before: ColdBlobStamp,
    after: ColdBlobStamp,
    r: ColdBlobLookup,
) -> bool {
    match shown {
        RoutedLookup::NegativeHint => if eligible && (read_from_store ==> before == after) {
            r is NotFound
        } else {
            r is Unknown
        },
        RoutedLookup::Unknown => r is Unknown,
        RoutedLookup::Found { value, seq } => r == (ColdBlobLookup::Found { value, seq }),
        RoutedLookup::Crossing { child_guid, child_depth } => r == (ColdBlobLookup::Crossing { child_guid, child_depth }),
    }
}

/// What may be concluded from the pages read. Absence is concluded only if
/// the blob is still only in the store and, when anything came from the
/// store, its header is as it was.
pub fn conclude(shown: RoutedLookup, read_from_store: bool, eligible: bool, before: ColdBlobStamp, after: ColdBlobStamp) -> (r: ColdBlobLookup)
    ensures
        concluded(shown, read_from_store, eligible, before, after, r),
{
    match shown {
        RoutedLookup::NegativeHint => {
            if eligible && (!read_from_store || before.same(&after)) {
                ColdBlobLookup::NotFound
            } else {
                ColdBlobLookup::Unknown
            }
        },
        RoutedLookup::Unknown => ColdBlobLookup::Unknown,
        RoutedLookup::Found { value, seq } => ColdBlobLookup::Found { value, seq },
        RoutedLookup::Crossing { child_guid, child_depth } => ColdBlobLookup::Crossing { child_guid, child_depth },
    }
}

} // verus!
