//! What holds of blobs in the store: their versions and names, and how they are
//! read page by page.
use vstd::prelude::*;

use crate::art::{at, rep, slot_of, Art};
use crate::cold::{
    concluded, in_order, in_runs, leaf_pages, loaded_more, routing_pages, ColdBlobLookup, ColdBlobStamp, ColdPageCache, ColdPageReader, RoutedLookup,
};
use crate::cow::twin;
use crate::frame::{BlobFrame, BlobHeader};
use crate::layout::{leaf_size, BlobGuid, Node};
use crate::migrate::{laid_out, rebuilt};
use crate::node::inner_ok;
use crate::spillover::{guid_of, mixed_tail};
use crate::store::{draws, only_read, split_off, versioned, BufferManager};

verus! {

/// A blob that has changed has a later version than before, unless versions
/// have run out; one that has not keeps its entry.
pub proof fn changes_give_new_versions(a: BufferManager, b: BufferManager, i: int)
    requires
        a.wf(),
        versioned(a, b),
        0 <= i < a.blobs@.len(),
    ensures
        i < b.blobs@.len(),
        b.blobs@[i].guid == a.blobs@[i].guid,
        b.blobs@[i].frame != a.blobs@[i].frame ==> b.blobs@[i].version > a.blobs@[i].version || b.blobs@[i].version == u64::MAX,
        b.blobs@[i].version == a.blobs@[i].version && a.blobs@[i].version < u64::MAX ==> b.blobs@[i].frame == a.blobs@[i].frame,
{
    assert(a.blobs@[i].version <= a.edition);
    let y = b.blobs@[i];
}

/// A lookup changes no blob, no version, no counter and nothing that is to be
/// written back; it drops nothing from memory.
pub proof fn lookups_change_nothing(a: BufferManager, b: BufferManager, key: Seq<u8>, paged: bool, i: int)
    requires
        only_read(a, b, key, paged),
        0 <= i < a.blobs@.len(),
    ensures
        b.blobs@.len() == a.blobs@.len(),
        b.blobs@[i].guid == a.blobs@[i].guid,
        b.blobs@[i].frame == a.blobs@[i].frame,
        b.blobs@[i].version == a.blobs@[i].version,
        b.blobs@[i].dirty == a.blobs@[i].dirty,
        a.blobs@[i].cached ==> b.blobs@[i].cached,
        b.counters == a.counters,
        b.edition == a.edition,
        b.epoch == a.epoch,
        b.fork_barrier == a.fork_barrier,
        b.deletes == a.deletes,
        b.compaction_candidates == a.compaction_candidates,
        b.merge_candidates == a.merge_candidates,
        b.source == a.source,
{
    let y = b.blobs@[i];
}

/// A lookup of a user's key brings no blob into memory that can be read page by
/// page and is not being deleted.
pub proof fn lookups_leave_cold_blobs_cold(a: BufferManager, b: BufferManager, key: Seq<u8>, i: int)
    requires
        only_read(a, b, key, true),
        0 <= i < a.blobs@.len(),
        !a.blobs@[i].cached,
        in_order(a.blobs@[i].frame),
        forall|j: int| 0 <= j < a.deletes@.len() ==> (#[trigger] a.deletes@[j]).0 != a.blobs@[i].guid,
    ensures
        !b.blobs@[i].cached,
{
    let y = b.blobs@[i];
}

/// Two headers with the same stamp agree on the root, on every counter that a
/// change of the tree moves, on the epoch, the name and the layout.
pub proof fn stamps_show_changes(a: BlobHeader, b: BlobHeader)
    ensures
        ColdBlobStamp::of(a) == ColdBlobStamp::of(b) <==> {
            &&& a.root_slot == b.root_slot
            &&& a.num_slots == b.num_slots
            &&& a.space_used == b.space_used
            &&& a.compact_times == b.compact_times
            &&& a.dead_bytes == b.dead_bytes
            &&& a.tombstone_leaf_cnt == b.tombstone_leaf_cnt
            &&& a.created_epoch == b.created_epoch
            &&& a.blob_guid == b.blob_guid
            &&& a.routing_off == b.routing_off
            &&& a.routing_len == b.routing_len
            &&& a.leaf_region_start == b.leaf_region_start
            &&& a.routing_unfit == b.routing_unfit
        },
{
}

/// What the pages of a blob show is passed on; that they show nothing counts
/// only for a blob that is still in the store alone, and whose header is the
/// same if a page came from the store.
pub proof fn absence_is_concluded_with_care(
    shown: RoutedLookup,
    read_from_store: bool,
    eligible: bool,
    before: ColdBlobStamp,
    after: ColdBlobStamp,
    r: ColdBlobLookup,
)
    requires
        concluded(shown, read_from_store, eligible, before, after, r),
    ensures
        r is NotFound <==> shown is NegativeHint && eligible && (!read_from_store || before == after),
        r is Found <==> shown is Found,
        r is Crossing <==> shown is Crossing,
        shown matches RoutedLookup::Found { value: v, seq: s } ==> (r matches ColdBlobLookup::Found { value, seq } && value == v && seq == s),
        shown matches RoutedLookup::Crossing { child_guid: g, child_depth: d } ==> (r matches ColdBlobLookup::Crossing { child_guid, child_depth }
            && child_guid == g && child_depth == d),
{
}

/// A page of a range comes from the store exactly if it was not read before and
/// is not taken from the cache, and then once; pages outside the range do not.
pub proof fn pages_are_read_once(r0: ColdPageReader, r: ColdPageReader, c: ColdPageCache, start: int, end: int, keep: bool, p: int)
    requires
        loaded_more(r0, r, c, start, end, keep),
        0 <= start < end <= 524288,
        0 <= p < 128,
    ensures
        in_runs(r.runs@, r0.runs@.len() as int, p) <==> start < 4096 * (p + 1) && 4096 * p < end && !r0.loaded@[p] && !(keep && c.has(r0.guid, p)),
        r.loaded@[p] <==> r0.loaded@[p] || (start < 4096 * (p + 1) && 4096 * p < end),
{
    let n = r0.runs@.len() as int;
    let lo = start / 4096;
    let hi = (end + 4095) / 4096;
    assert(lo <= p < hi <==> start < 4096 * (p + 1) && 4096 * p < end);
    if in_runs(r.runs@, n, p) {
        let i = choose|i: int| n <= i < r.runs@.len() && (#[trigger] r.runs@[i]).0 <= p < r.runs@[i].1;
        assert(lo <= p < hi);
    }
    if lo <= p < hi {
        assert(crate::cold::missed(r0, c, p, keep) <==> in_runs(r.runs@, n, p));
    }
}

/// Adjacent pages come from the store in one run.
pub proof fn adjacent_pages_are_read_together(r0: ColdPageReader, r: ColdPageReader, c: ColdPageCache, start: int, end: int, keep: bool, i: int)
    requires
        loaded_more(r0, r, c, start, end, keep),
        r0.runs@.len() <= i < r.runs@.len() - 1,
    ensures
        r.runs@[i].0 < r.runs@[i].1 < r.runs@[i + 1].0 < r.runs@[i + 1].1,
{
    assert(r.runs@[i].1 < r.runs@[i + 1].0);
    assert(r.runs@[i + 1].0 < r.runs@[i + 1].1);
}

/// Where the pages of a way down lie in the routed layout.
proof fn lemma_way_pages(c: Seq<Option<Node>>, t: Art, key: Seq<u8>, d: int, lrs: int, p: int)
    requires
        rep(c, t),
        laid_out(t, lrs),
        lrs % 4096 == 0,
        forall|s: int| (#[trigger] at(c, s) matches Some(n) && !(n is Leaf)) && 69632 + (s - 1) * 8 < lrs ==> 69632 + (s - 1) * 8
            + crate::layout::node_size(at(c, s)->0) <= lrs,
    ensures
        routing_pages(c, t, key, d).contains(p) ==> 4096 * (p + 1) <= lrs,
        leaf_pages(c, t, key, d).contains(p) ==> lrs <= 4096 * p,
    decreases t,
{
    crate::insert::lemma_rep_root(c, t);
    let s = slot_of(t);
    assert(at(c, s) is Some);
    match t {
        Art::Prefix { bytes, child, .. } => {
            if crate::key::matches_at(key, d, bytes) {
                lemma_way_pages(c, *child, key, d + bytes.len(), lrs, p);
            }
        },
        Art::Inner { kids, .. } => {
            assert(inner_ok(at(c, s)->0));
            if 0 <= d < key.len() && key[d] < kids.len() && kids[key[d] as int] is Some {
                assert(rep(c, kids[key[d] as int]->0));
                lemma_way_pages(c, kids[key[d] as int]->0, key, d + 1, lrs, p);
            }
        },
        _ => {},
    }
}

/// A lookup in a blob with the routed layout finds its way on the pages before
/// the leaves, and takes from those of the leaves only what the record lies on.
pub proof fn lookups_page_in_the_way_first(f0: BlobFrame, f: BlobFrame, key: Seq<u8>, d: int, p: int)
    requires
        rebuilt(f0, f),
        f.header.routing_len > 0,
    ensures
        routing_pages(f.cells@, f.tree(), key, d).contains(p) ==> 4096 * (p + 1) <= f.header.leaf_region_start,
        leaf_pages(f.cells@, f.tree(), key, d).contains(p) ==> f.header.leaf_region_start <= 4096 * p,
{
    let end = f.header.routing_off + f.header.routing_len;
    assert forall|s: int|
        (#[trigger] at(f.cells@, s) matches Some(n) && !(n is Leaf)) && 69632 + (s - 1) * 8 < f.header.leaf_region_start implies 69632 + (s - 1) * 8
        + crate::layout::node_size(at(f.cells@, s)->0) <= f.header.leaf_region_start by {
        assert(s < crate::frame::unit_of(end));
    }
    lemma_way_pages(f.cells@, f.tree(), key, d, f.header.leaf_region_start as int, p);
}

/// The pages of a leaf are those that its bytes lie on.
pub proof fn leaves_are_read_whole(c: Seq<Option<Node>>, t: Art, key: Seq<u8>, d: int, p: int)
    requires
        rep(c, t),
        t is Leaf,
        0 <= p < 128,
    ensures
        leaf_pages(c, t, key, d).contains(p) <==> ({
            let first = 69632 + (slot_of(t) - 1) * 8;
            let last = first + leaf_size(t->Leaf_key.len() as int, t->Leaf_value.len() as int) - 1;
            first < 4096 * (p + 1) && 4096 * p <= last
        }),
        !routing_pages(c, t, key, d).contains(p),
{
    crate::insert::lemma_rep_root(c, t);
}

/// A name begins with the time, then the counter, both with the high bytes
/// first; three bytes follow, and a tag.
pub proof fn names_spell_time_and_counter(nanos: u64, counter: u32, tail: Seq<u8>)
    requires
        tail.len() == 3,
    ensures
        ({
            let g = guid_of(nanos, counter, tail);
            &&& g.len() == 16
            &&& nanos == g[0] * 0x100000000000000 + g[1] * 0x1000000000000 + g[2] * 0x10000000000 + g[3] * 0x100000000 + g[4] * 0x1000000 + g[5]
                * 0x10000 + g[6] * 0x100 + g[7]
            &&& counter == g[8] * 0x1000000 + g[9] * 0x10000 + g[10] * 0x100 + g[11]
            &&& g.subrange(12, 15) == tail
            &&& g[15] == 0xd4
        }),
{
    let g = guid_of(nanos, counter, tail);
    assert(nanos == ((nanos >> 56) as u8) * 0x100000000000000 + ((nanos >> 48) as u8) * 0x1000000000000 + ((nanos >> 40) as u8) * 0x10000000000
        + ((nanos >> 32) as u8) * 0x100000000 + ((nanos >> 24) as u8) * 0x1000000 + ((nanos >> 16) as u8) * 0x10000 + ((nanos >> 8) as u8) * 0x100
        + (nanos as u8)) by (bit_vector);
    assert(counter == ((counter >> 24) as u8) * 0x1000000 + ((counter >> 16) as u8) * 0x10000 + ((counter >> 8) as u8) * 0x100 + (counter as u8))
        by (bit_vector);
    assert(g.subrange(12, 15) =~= tail);
}

/// A new blob's name is no other blob's and not that of the root, and carries
/// the counter on by at least one, in 32 bits.
pub proof fn drawn_names_are_new(b: BufferManager, g: BlobGuid, source: crate::store::GuidSource)
    requires
        draws(b, source, g),
    ensures
        !b.has(g),
        g@[15] == 0xd4,
        source.nanos == b.source.nanos,
        source.entropy == b.source.entropy,
        exists|n: int| n >= 1 && source.counter == #[trigger] ((b.source.counter + n) % 0x1_0000_0000),
{
    let n = choose|n: int| n >= 1 && source == #[trigger] crate::store::ahead_by(b.source, n);
    assert(source.counter == (b.source.counter + n) % 0x1_0000_0000);
}

/// A copy leads every key as what it was copied from, and differs from it in the
/// name and the epoch alone.
pub proof fn copies_lead_alike(a: BlobFrame, b: BlobFrame, key: Seq<u8>, d: int)
    requires
        twin(a, b),
    ensures
        b.route(key, d) == a.route(key, d),
        b.header.space_used == a.header.space_used,
        b.header.num_slots == a.header.num_slots,
        b.header.dead_bytes == a.header.dead_bytes,
        b.header.tombstone_leaf_cnt == a.header.tombstone_leaf_cnt,
        b.header.num_ext_blobs == a.header.num_ext_blobs,
        b.header.compact_times == a.header.compact_times,
        b.header.routing_len == a.header.routing_len,
        b.header.leaf_region_start == a.header.leaf_region_start,
{
}

/// What a split moves out is abandoned where it was: the new blob uses as many
/// bytes behind its empty root as are abandoned in the old one, and takes over
/// the deleted leaves that it holds. The old one has one node of 128 bytes more.
pub proof fn splits_keep_the_books(f0: BlobFrame, f: BlobFrame, child: BlobFrame, epoch: u64)
    requires
        split_off(f0, f, child, epoch),
        f0.header.dead_bytes + child.header.space_used <= u32::MAX,
        f0.header.space_used <= 524288,
        f0.header.num_slots <= 16384,
        f0.header.num_ext_blobs < u32::MAX,
    ensures
        f.header.dead_bytes == f0.header.dead_bytes + (child.header.space_used - 69632 - 8),
        f.header.tombstone_leaf_cnt + child.header.tombstone_leaf_cnt == f0.header.tombstone_leaf_cnt,
        f.header.space_used == f0.header.space_used + 128,
        f.header.num_slots == f0.header.num_slots + 1,
        f.header.num_ext_blobs == f0.header.num_ext_blobs + 1,
        f.header.compact_times == f0.header.compact_times,
        child.header.dead_bytes == 0,
        child.header.compact_times == 0,
        child.header.routing_len == 0,
{
}

/// Every key goes on to what it led to: a split leads it either where it went,
/// or into the new blob, which leads it there.
pub proof fn splits_lead_on(f0: BlobFrame, f: BlobFrame, child: BlobFrame, epoch: u64, key: Seq<u8>)
    requires
        split_off(f0, f, child, epoch),
    ensures
        f.route(key, 0) == f0.route(key, 0) || (f.route(key, 0) matches crate::art::Route::Crossing { guid, depth } && guid == child.header.blob_guid && 0
            < depth <= key.len() && child.route(key, depth) == f0.route(key, 0)),
{
    let out = choose|out: crate::spillover::Spilled| #[trigger]
        crate::spillover::spilled(f0, f, child.header.blob_guid, out) && child == (BlobFrame {
            header: BlobHeader { created_epoch: epoch, ..out.child.header },
            ..out.child
        });
    assert(crate::spillover::moved(f0.route(key, 0), f.route(key, 0), out.child.tree(), child.header.blob_guid, out.path@, key, 0));
    assert(child.tree() == out.child.tree());
}

/// Names are drawn in turn: one that no blob has is not passed over.
pub proof fn names_are_drawn_in_turn(b: BufferManager, g: BlobGuid, source: crate::store::GuidSource, next: BlobGuid, tail: Seq<u8>)
    requires
        draws(b, source, g),
        next@ == guid_of(b.source.nanos, ((b.source.counter + 1) % 0x1_0000_0000) as u32, tail),
        tail == (match b.source.entropy {
            Some(e) => e@,
            None => mixed_tail(b.source.nanos, ((b.source.counter + 1) % 0x1_0000_0000) as u32),
        }),
        !b.has(next),
    ensures
        g@ == next@,
        source.counter == (b.source.counter + 1) % 0x1_0000_0000,
{
    let n = choose|n: int|
        n >= 1 && source == #[trigger] crate::store::ahead_by(b.source, n) && forall|k: int|
            1 <= k < n ==> exists|h: BlobGuid| crate::store::last_name(#[trigger] crate::store::ahead_by(b.source, k), h) && b.has(h);
    if n > 1 {
        let first = crate::store::ahead_by(b.source, 1);
        let h = choose|h: BlobGuid| crate::store::last_name(first, h) && b.has(h);
        assert(h@ == next@);
        assert(h =~= next);
    }
}

} // verus!
