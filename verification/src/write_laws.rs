//! What holds of the marks and counters that writes leave, and of when they
//! succeed.
use vstd::prelude::*;

use crate::art::{at, dead, rep, step, Art, Route};
use crate::books::unaccounted;
use crate::erase_multi::{del_counted, del_recorded, del_result};
use crate::errors::{Error, Result};
use crate::forest::Forest;
use crate::insert::{conflict, has_leaf, insert_cost};
use crate::insert_multi::{
    batch_filled, clashes, first_misfit, gave_up, insert_multi_result, items_fit, lemma_chain_nodes, lemma_most_nodes, put_counted, put_recorded,
    put_result, roomy, splits_noted, InsertBatchItem,
};
use crate::layout::{BlobGuid, Node};
use crate::migrate::budget;
use crate::node::inner_ok;
use crate::route::is_root;
use crate::simd::lcp;
use crate::store::{marked, more_splits, split_off, BufferManager};
use crate::types::{EraseCondition, EraseOutcome, InsertCondition, InsertOutcome};
use crate::writers::chain_nodes;
use crate::frame::BlobFrame;

verus! {

/// Whether `ws` are the blobs that `key` goes through from the first one on,
/// down to the one that leads it nowhere else.
pub open spec fn goes_through(f: Forest, ws: Seq<BlobGuid>, key: Seq<u8>) -> bool {
    &&& ws.len() > 0
    &&& forall|i: int| 0 <= i < ws.len() - 1 ==> (#[trigger] f.route(ws[i], key) matches Route::Crossing { guid, .. } && guid == ws[i + 1])
    &&& !(f.route(ws.last(), key) is Crossing)
}

/// The blobs that a key goes through are those that its walk counts.
proof fn lemma_goes_through(f: Forest, ws: Seq<BlobGuid>, key: Seq<u8>)
    requires
        f.linked(),
        goes_through(f, ws, key),
        f.has(ws[0]),
        f.below(ws[0], key),
    ensures
        f.hops(ws[0], key) == ws.len(),
        f.home(ws[0], key) == ws.last(),
        f.has(ws.last()),
    decreases ws.len(),
{
    if ws.len() > 1 {
        assert(f.edge_ok(ws[0], key));
        let rest = ws.skip(1);
        assert(f.route(ws[0], key) is Crossing);
        assert forall|i: int| 0 <= i < rest.len() - 1 implies (#[trigger] f.route(rest[i], key) matches Route::Crossing { guid, .. } && guid
            == rest[i + 1]) by {
            assert(f.route(ws[i + 1], key) matches Route::Crossing { guid, .. } && guid == ws[i + 2]);
        }
        lemma_goes_through(f, rest, key);
    }
}

/// An insert that succeeds counts one walk, each blob that its key now goes
/// through, and how many bytes lead to the last of them if that is a new
/// maximum.
pub proof fn inserts_count_their_walk(
    b0: BufferManager,
    b: BufferManager,
    root: BlobGuid,
    key: Seq<u8>,
    value: Seq<u8>,
    seq: u64,
    condition: InsertCondition,
    out: InsertOutcome,
    ws: Seq<BlobGuid>,
)
    requires
        is_root(b0, root),
        insert_multi_result(b0, b, root, key, value, seq, condition, Ok(out)),
        goes_through(b.forest(), ws, key),
        ws[0] == root,
        ws.len() <= u64::MAX,
        b.base@[ws.last()].len() <= usize::MAX,
    ensures
        b.counters.walks == b0.counters.walks.wrapping_add(1),
        b.counters.blob_hops == b0.counters.blob_hops.wrapping_add(ws.len() as u64),
        b.counters.restarts == b0.counters.restarts,
        b.counters.max_cross_blob_depth >= b0.counters.max_cross_blob_depth,
        b.counters.max_cross_blob_depth >= b.base@[ws.last()].len(),
        b.counters.max_cross_blob_depth == b0.counters.max_cross_blob_depth || b.counters.max_cross_blob_depth == b.base@[ws.last()].len(),
{
    assert(b0.forest().has(root));
    assert(b.forest().below(root, key)) by {
        assert(b.base@[root] =~= key.subrange(0, 0));
    }
    lemma_goes_through(b.forest(), ws, key);
}

/// So does a delete.
pub proof fn deletes_count_their_walk(
    b0: BufferManager,
    b: BufferManager,
    root: BlobGuid,
    key: Seq<u8>,
    condition: EraseCondition,
    out: EraseOutcome,
    ws: Seq<BlobGuid>,
)
    requires
        is_root(b0, root),
        del_result(b0, b, root, key, condition, Ok(out)),
        del_counted(b0, b, root, key, Ok(out)),
        goes_through(b.forest(), ws, key),
        ws[0] == root,
        ws.len() <= u64::MAX,
        b.base@[ws.last()].len() <= usize::MAX,
    ensures
        b.counters.walks == b0.counters.walks.wrapping_add(1),
        b.counters.blob_hops == b0.counters.blob_hops.wrapping_add(ws.len() as u64),
        b.counters.restarts == b0.counters.restarts,
        b.counters.spillovers == b0.counters.spillovers,
        b.counters.max_cross_blob_depth >= b0.counters.max_cross_blob_depth,
        b.counters.max_cross_blob_depth >= b.base@[ws.last()].len(),
        b.counters.max_cross_blob_depth == b0.counters.max_cross_blob_depth || b.counters.max_cross_blob_depth == b.base@[ws.last()].len(),
{
    assert(b0.forest().has(root));
    assert(b.forest().below(root, key)) by {
        assert(b.base@[root] =~= key.subrange(0, 0));
    }
    lemma_goes_through(b.forest(), ws, key);
}

/// A write that fails counts no walk.
pub proof fn failed_writes_count_no_walk(b0: BufferManager, b: BufferManager, g: BlobGuid, key: Seq<u8>, e: Error)
    requires
        put_counted(b0, b, g, key, Err(e)) || del_counted(b0, b, g, key, Err(e)),
    ensures
        b.counters.walks == b0.counters.walks,
        b.counters.blob_hops == b0.counters.blob_hops,
        b.counters.max_cross_blob_depth == b0.counters.max_cross_blob_depth,
        b.counters.restarts == b0.counters.restarts,
{
}

proof fn lemma_splits_added(s: u64, n: nat)
    requires
        s + n <= u64::MAX,
    ensures
        more_splits(s, n) == s + n,
    decreases n,
{
    if n > 0 {
        lemma_splits_added(s, (n - 1) as nat);
    }
}

/// Without a snapshot an insert that succeeds counts a split for each blob that
/// it added.
pub proof fn splits_are_counted(b0: BufferManager, b: BufferManager, g: BlobGuid, key: Seq<u8>, out: InsertOutcome)
    requires
        put_counted(b0, b, g, key, Ok(out)),
        b0.fork_barrier == 0,
        b0.blobs@.len() <= b.blobs@.len(),
        b0.counters.spillovers + (b.blobs@.len() - b0.blobs@.len()) <= u64::MAX,
    ensures
        b.counters.spillovers == b0.counters.spillovers + (b.blobs@.len() - b0.blobs@.len()),
{
    lemma_splits_added(b0.counters.spillovers, (b.blobs@.len() - b0.blobs@.len()) as nat);
}

/// Every blob other than the root that an insert added or changed is to be
/// written back, since no later than this write; one that was to be written
/// back since an earlier one still is. A root that is not reported dirty did
/// not change.
pub proof fn inserted_blobs_are_written_back(b0: BufferManager, b: BufferManager, root: BlobGuid, key: Seq<u8>, seq: u64, out: InsertOutcome, i: int)
    requires
        put_recorded(b0, b, root, key, seq, true, out),
        0 <= i < b.blobs@.len(),
    ensures
        b.blobs@[i].guid != root && (i >= b0.blobs@.len() || b.blobs@[i].frame != b0.blobs@[i].frame) ==> (b.blobs@[i].dirty matches Some(s) && s <= seq),
        i < b0.blobs@.len() ==> (b0.blobs@[i].dirty matches Some(s) ==> (b.blobs@[i].dirty matches Some(t) && t <= s)),
        !out.root_dirty ==> b.forest().blobs[root] == b0.forest().blobs[root],
        out.mutated && !(b.forest().route(root, key) is Crossing) ==> out.root_dirty,
{
    reveal(marked);
}

/// So it is with a delete.
pub proof fn deleted_from_blobs_are_written_back(b0: BufferManager, b: BufferManager, root: BlobGuid, key: Seq<u8>, seq: u64, out: EraseOutcome, i: int)
    requires
        del_recorded(b0, b, root, key, seq, true, out),
        0 <= i < b.blobs@.len(),
    ensures
        b.blobs@[i].guid != root && (i >= b0.blobs@.len() || b.blobs@[i].frame != b0.blobs@[i].frame) ==> (b.blobs@[i].dirty matches Some(s) && s <= seq),
        i < b0.blobs@.len() ==> (b0.blobs@[i].dirty matches Some(s) ==> (b.blobs@[i].dirty matches Some(t) && t <= s)),
        !out.root_dirty ==> b.forest().blobs[root] == b0.forest().blobs[root],
        out.mutated && !(b.forest().route(root, key) is Crossing) ==> out.root_dirty,
{
    reveal(marked);
}

/// The blob that a write ended in is noted as one to rebuild: after a delete in
/// any case, after an insert if it holds a deleted record or if a sixteenth of
/// its data area of 454656 bytes is abandoned.
pub proof fn waste_is_noted(
    b0: BufferManager,
    b: BufferManager,
    root: BlobGuid,
    key: Seq<u8>,
    seq: u64,
    put: InsertOutcome,
    del: EraseOutcome,
    ws: Seq<BlobGuid>,
)
    requires
        b.wf(),
        is_root(b, root),
        goes_through(b.forest(), ws, key),
        ws[0] == root,
    ensures
        del_recorded(b0, b, root, key, seq, true, del) && del.mutated ==> b.compaction_candidates@.contains(ws.last()),
        put_recorded(b0, b, root, key, seq, true, put) && put.mutated && ({
            let h = b.forest().blobs[ws.last()].header;
            h.tombstone_leaf_cnt > 0 || 16 * h.dead_bytes >= 524288 - 69632
        }) ==> b.compaction_candidates@.contains(ws.last()),
{
    assert(b.forest().below(root, key)) by {
        assert(b.base@[root] =~= key.subrange(0, 0));
    }
    lemma_goes_through(b.forest(), ws, key);
}

/// A blob that an insert split on its way is noted as one that has children to
/// fold back, and nothing noted is forgotten.
pub proof fn splits_are_noted(b0: BufferManager, b: BufferManager, root: BlobGuid, key: Seq<u8>, seq: u64, out: InsertOutcome, h: BlobGuid)
    requires
        put_recorded(b0, b, root, key, seq, true, out),
    ensures
        b0.has(h) && b0.forest().below(h, key) && !(b0.forest().route(h, key) is Crossing) && b.forest().route(h, key) is Crossing
            ==> b.merge_candidates@.contains(h),
        b0.merge_candidates@.contains(h) ==> b.merge_candidates@.contains(h),
        b0.compaction_candidates@.contains(h) ==> b.compaction_candidates@.contains(h),
{
    reveal(marked);
    reveal(splits_noted);
}

/// What an insert allocates at most: its leaf, prefix nodes for the key's bytes
/// and one more, and a node that branches.
proof fn lemma_most_bytes(c: Seq<Option<Node>>, t: Art, key: Seq<u8>, d: int, vlen: int)
    requires
        rep(c, t),
        0 <= d <= key.len(),
        vlen >= 0,
    ensures
        insert_cost(c, t, key, d, vlen).bytes <= (16 + key.len() + vlen + 7) + 520 + 128 + 128 * chain_nodes(key.len() as int),
    decreases t,
{
    lemma_chain_nodes(0, key.len() as int);
    match t {
        Art::Leaf { key: k, .. } => {
            crate::simd::lemma_lcp(key.skip(d), k.skip(d));
            lemma_chain_nodes(lcp(key.skip(d), k.skip(d)) as int, key.len() as int);
        },
        Art::Prefix { bytes, child, .. } => {
            if crate::key::matches_at(key, d, bytes) {
                lemma_most_bytes(c, *child, key, d + bytes.len(), vlen);
            } else {
                crate::simd::lemma_lcp(key.skip(d), bytes);
                let n = lcp(key.skip(d), bytes) as int;
                lemma_chain_nodes(n, key.len() as int);
                crate::insert::lemma_lcp_matches(key, d, bytes);
                lemma_chain_nodes(bytes.len() - n - 1, 112);
                assert(chain_nodes(112) == 1);
            }
        },
        Art::Inner { slot, kids } => {
            if 0 <= d < key.len() && key[d] < kids.len() && kids[key[d] as int] is Some {
                assert(rep(c, kids[key[d] as int]->0));
                lemma_most_bytes(c, kids[key[d] as int]->0, key, d + 1, vlen);
            } else {
                assert(inner_ok(at(c, slot)->0));
            }
        },
        Art::Blob { bytes, .. } => {
            crate::simd::lemma_lcp(key.skip(d), bytes);
            lemma_chain_nodes(lcp(key.skip(d), bytes) as int, key.len() as int);
        },
        _ => {},
    }
}

/// Without a snapshot a record that conflicts with no other is written whenever
/// the blob where its walk ends has the slots and the bytes for it: 671 bytes
/// more than the key and the value, and 128 for each 112 bytes of the key.
/// No blob is split then, and none but that one changes, is to be written back
/// anew or is noted as one to rebuild.
pub proof fn records_that_fit_are_written(
    b0: BufferManager,
    b: BufferManager,
    root: BlobGuid,
    key: Seq<u8>,
    value: Seq<u8>,
    seq: u64,
    r: Result<InsertOutcome>,
    ws: Seq<BlobGuid>,
    n: int,
)
    requires
        b0.wf(),
        is_root(b0, root),
        b0.fork_barrier == 0,
        insert_multi_result(b0, b, root, key, value, seq, InsertCondition::Always, r),
        key.len() <= 65535,
        value.len() <= 65535,
        goes_through(b0.forest(), ws, key),
        ws[0] == root,
        !clashes(b0.forest(), root, key),
        112 * n >= key.len(),
        b0.forest().blobs[ws.last()].header.num_slots + 3 + n <= 16384,
        b0.forest().blobs[ws.last()].header.space_used + key.len() + value.len() + 671 + 128 * n <= 524288 - 128,
    ensures
        r matches Ok(out) && out.mutated,
        b.blobs@.len() == b0.blobs@.len(),
        forall|i: int|
            0 <= i < b0.blobs@.len() && (#[trigger] b0.blobs@[i]).guid != ws.last() ==> b.blobs@[i].frame == b0.blobs@[i].frame && b.blobs@[i].dirty
                == b0.blobs@[i].dirty,
        forall|x: BlobGuid| #[trigger] b.compaction_candidates@.contains(x) ==> b0.compaction_candidates@.contains(x) || x == ws.last(),
        forall|x: BlobGuid| #[trigger] b.merge_candidates@.contains(x) ==> b0.merge_candidates@.contains(x),
{
    let f = b0.forest();
    assert(f.has(root));
    assert(f.below(root, key)) by {
        assert(b0.base@[root] =~= key.subrange(0, 0));
    }
    lemma_goes_through(f, ws, key);
    let h = ws.last();
    assert(f.home(root, key) == h);
    crate::forest::lemma_home_depth(f, root, key);
    let fr = f.blobs[h];
    assert(fr.wf(f.base[h]));
    lemma_most_bytes(fr.cells@, fr.tree(), key, f.base[h].len() as int, value.len() as int);
    lemma_most_nodes(fr.cells@, fr.tree(), key, f.base[h].len() as int, value.len() as int);
    assert(chain_nodes(key.len() as int) <= n);
    assert(crate::insert_multi::roomy(f, root, key, value));
    assert(crate::insert_multi::free_way(b0, root, key));
}

/// A key that conflicts with a record has none itself.
proof fn lemma_conflict_not_found(t: Art, key: Seq<u8>, d: int)
    requires
        conflict(t, key, d),
    ensures
        !(step(t, key, d) is Found),
    decreases t,
{
    match t {
        Art::Prefix { bytes, child, .. } => {
            if crate::key::matches_at(key, d, bytes) {
                lemma_conflict_not_found(*child, key, d + bytes.len());
            }
        },
        Art::Inner { kids, .. } => {
            if 0 <= d < key.len() && key[d] < kids.len() {
                lemma_conflict_not_found(kids[key[d] as int]->0, key, d + 1);
            }
        },
        _ => {},
    }
}

/// A record that is there can be written over, and any insert that a conflict
/// refuses is of a key that has no record.
pub proof fn records_conflict_with_others_only(f: Forest, g: BlobGuid, key: Seq<u8>)
    requires
        f.linked(),
        f.has(g),
        f.below(g, key),
    ensures
        f.find(g, key) is Found ==> !clashes(f, g, key),
    decreases f.rank[g],
{
    if let Route::Crossing { guid, .. } = f.route(g, key) {
        assert(f.edge_ok(g, key));
        records_conflict_with_others_only(f, guid, key);
    } else if clashes(f, g, key) {
        lemma_conflict_not_found(f.blobs[g].tree(), key, f.base[g].len() as int);
    }
}

/// Why an insert gives up: the key conflicts with another record; the blob where
/// its walk ends has no room and nothing to move out; a blob was rebuilt 64
/// times by this insert; what is live in a blob does not fit one; or there are
/// as many blobs as there are names.
pub proof fn inserts_give_up_for_a_reason(
    b0: BufferManager,
    b: BufferManager,
    root: BlobGuid,
    key: Seq<u8>,
    value: Seq<u8>,
    seq: u64,
    condition: InsertCondition,
    e: Error,
)
    requires
        put_result(b0, b, root, key, value, seq, condition, Err(e)),
        !clashes(b.forest(), root, key),
        crate::spillover::splittable(b.forest().blobs[b.forest().home(root, key)]),
        forall|i: int|
            0 <= i < b.blobs@.len() ==> (#[trigger] b.blobs@[i]).frame.header.compact_times < u32::MAX && b.blobs@[i].frame.header.compact_times < 64
                + (if i < b0.blobs@.len() {
                b0.blobs@[i].frame.header.compact_times as int
            } else {
                0
            }),
    ensures
        e is Alloc || e is Internal,
        e is Alloc ==> exists|i: int|
            0 <= i < b.blobs@.len() && ({
                let k = budget((#[trigger] b.blobs@[i]).frame.cells@, b.blobs@[i].frame.tree(), true);
                69632 + k.routing + k.leaf > 524288 - 128 || k.nodes > 16384
            }),
        e is Internal ==> b.blobs@.len() >= 0x1_0000_0000,
{
    reveal(gave_up);
    if e is Alloc {
        let i = choose|i: int|
            0 <= i < b.blobs@.len() && !crate::migrate::plain_takes(budget((#[trigger] b.blobs@[i]).frame.cells@, b.blobs@[i].frame.tree(), true));
    }
}

/// A blob that is moved out is as new as the store says; the rest of what it
/// came from keeps its own epoch.
pub proof fn new_blobs_are_of_this_epoch(f0: BlobFrame, f: BlobFrame, child: BlobFrame, epoch: u64)
    requires
        split_off(f0, f, child, epoch),
    ensures
        child.header.created_epoch == epoch,
        f.header.created_epoch == f0.header.created_epoch,
        f.header.blob_guid == f0.header.blob_guid,
{
}

/// A batch goes on until a record leads into another blob or finds no room:
/// what the root takes by itself is written at once.
pub proof fn batches_fill_the_root(b0: BufferManager, b: BufferManager, root: BlobGuid, items: Seq<InsertBatchItem>, n: int, m: int)
    requires
        b.wf(),
        is_root(b, root),
        items.len() > 0,
        0 <= n <= items.len(),
        batch_filled(b0, b, root, items, n),
        !(b0.forest().route(root, items[0].key@) is Crossing),
        forall|i: int|
            0 <= i < items.len() ==> !(b.forest().route(root, (#[trigger] items[i]).key@) is Crossing) && items[i].key@.len() <= 112 * m && b.forest().blobs[root].header.space_used
                + items[i].key@.len() + items[i].value@.len() + 671 + 128 * m <= 524288 - 128,
        b.forest().blobs[root].header.num_slots + 3 + m <= 16384,
    ensures
        n == items.len(),
{
    if n < items.len() {
        let f = b.forest();
        let fr = f.blobs[root];
        let key = items[n].key@;
        let vlen = items[n].value@.len() as int;
        assert(f.has(root));
        assert(fr.wf(f.base[root]));
        assert(f.base[root].len() == 0);
        lemma_most_bytes(fr.cells@, fr.tree(), key, 0, vlen);
        lemma_most_nodes(fr.cells@, fr.tree(), key, 0, vlen);
        assert(chain_nodes(key.len() as int) <= m);
    }
}

/// A key or a value of more than 65535 bytes is refused, the key first, and
/// nothing changes; a shorter record is not refused for its length.
pub proof fn long_records_are_refused(
    b0: BufferManager,
    b: BufferManager,
    root: BlobGuid,
    key: Seq<u8>,
    value: Seq<u8>,
    seq: u64,
    condition: InsertCondition,
    r: Result<InsertOutcome>,
)
    requires
        insert_multi_result(b0, b, root, key, value, seq, condition, r),
        key.len() <= usize::MAX,
        value.len() <= usize::MAX,
    ensures
        key.len() >= 0x10000 ==> b == b0 && (r matches Err(Error::KeyTooLong { len }) && len == key.len()),
        key.len() < 0x10000 && value.len() >= 0x10000 ==> b == b0 && (r matches Err(Error::ValueTooLong { len }) && len == value.len()),
        key.len() < 0x10000 && value.len() < 0x10000 ==> !(r matches Err(Error::KeyTooLong { .. })) && !(r matches Err(Error::ValueTooLong { .. })),
{
}

/// A batch with a record of more than 65535 bytes of key or value is refused for
/// the first such record, the key before the value.
pub proof fn long_batches_are_refused(items: Seq<InsertBatchItem>, i: int, e: Error)
    requires
        first_misfit(items, i, e),
        items[i].key@.len() <= usize::MAX,
        items[i].value@.len() <= usize::MAX,
    ensures
        forall|j: int| 0 <= j < i ==> (#[trigger] items[j]).key@.len() < 0x10000 && items[j].value@.len() < 0x10000,
        e matches Error::KeyTooLong { len } ==> len == items[i].key@.len() >= 0x10000,
        e matches Error::ValueTooLong { len } ==> len == items[i].value@.len() >= 0x10000 && items[i].key@.len() < 0x10000,
        e is KeyTooLong || e is ValueTooLong,
        !items_fit(items),
{
    assert forall|j: int| 0 <= j < i implies (#[trigger] items[j]).key@.len() < 0x10000 && items[j].value@.len() < 0x10000 by {
        assert(items.take(i)[j] == items[j]);
    }
}

/// What a delete leaves in the blob where its walk ends, without a snapshot: one
/// more deleted leaf, and nothing taken or given back. No other blob changes, is
/// to be written back anew or is noted as one to rebuild.
pub proof fn deletes_leave_a_mark(
    b0: BufferManager,
    b: BufferManager,
    root: BlobGuid,
    key: Seq<u8>,
    condition: EraseCondition,
    out: EraseOutcome,
    ws: Seq<BlobGuid>,
)
    requires
        b0.wf(),
        is_root(b0, root),
        b0.fork_barrier == 0,
        del_result(b0, b, root, key, condition, Ok(out)),
        out.mutated,
        goes_through(b0.forest(), ws, key),
        ws[0] == root,
    ensures
        ({
            let p = b0.forest().blobs[ws.last()].header;
            let q = b.forest().blobs[ws.last()].header;
            &&& q.tombstone_leaf_cnt == p.tombstone_leaf_cnt + 1
            &&& q.space_used == p.space_used
            &&& q.num_slots == p.num_slots
            &&& q.dead_bytes == p.dead_bytes
            &&& q.num_ext_blobs == p.num_ext_blobs
            &&& q.compact_times == p.compact_times
            &&& q.created_epoch == p.created_epoch
            &&& q.routing_len == p.routing_len
        }),
        b.blobs@.len() == b0.blobs@.len(),
        forall|i: int|
            0 <= i < b0.blobs@.len() && (#[trigger] b0.blobs@[i]).guid != ws.last() ==> b.blobs@[i].frame == b0.blobs@[i].frame && b.blobs@[i].dirty
                == b0.blobs@[i].dirty,
        forall|x: BlobGuid| #[trigger] b.compaction_candidates@.contains(x) ==> b0.compaction_candidates@.contains(x) || x == ws.last(),
        forall|x: BlobGuid| #[trigger] b.merge_candidates@.contains(x) ==> b0.merge_candidates@.contains(x),
{
    let f = b0.forest();
    assert(f.has(root));
    assert(f.below(root, key)) by {
        assert(b0.base@[root] =~= key.subrange(0, 0));
    }
    lemma_goes_through(f, ws, key);
}

/// Without a snapshot a record written where there is room is accounted for in
/// the blob where its walk ends: no byte is lost, unless a shorter record takes
/// the place of a longer one.
pub proof fn inserts_account_for_every_byte(
    b0: BufferManager,
    b: BufferManager,
    root: BlobGuid,
    key: Seq<u8>,
    value: Seq<u8>,
    seq: u64,
    condition: InsertCondition,
    out: InsertOutcome,
    ws: Seq<BlobGuid>,
)
    requires
        b0.wf(),
        is_root(b0, root),
        b0.fork_barrier == 0,
        insert_multi_result(b0, b, root, key, value, seq, condition, Ok(out)),
        out.mutated,
        key.len() <= 65535,
        value.len() <= 65535,
        goes_through(b0.forest(), ws, key),
        ws[0] == root,
        roomy(b0.forest(), root, key, value),
        b.forest().blobs[ws.last()].header.dead_bytes < u32::MAX,
    ensures
        unaccounted(b.forest().blobs[ws.last()]) >= unaccounted(b0.forest().blobs[ws.last()]),
        b0.forest().blobs[ws.last()].header.tombstone_leaf_cnt == 0 && b0.forest().find(root, key) is NotFound ==> unaccounted(
            b.forest().blobs[ws.last()],
        ) == unaccounted(b0.forest().blobs[ws.last()]),
{
    let f = b0.forest();
    assert(f.has(root));
    assert(f.below(root, key)) by {
        assert(b0.base@[root] =~= key.subrange(0, 0));
    }
    lemma_goes_through(f, ws, key);
    let h = ws.last();
    crate::forest::lemma_home_depth(f, root, key);
    lemma_home_below(f, root, key);
    let d = f.base[h].len() as int;
    assert(key.take(d) =~= f.base[h]) by {
        crate::order::lemma_prefix_agree(f.base[h], key);
    }
    assert(f.blobs[h].wf(f.base[h]));
    assert(b.forest().has(h) && b.base@[h] == b0.base@[h]);
    assert(b.forest().blobs[h].wf(b.base@[h]));
    if clashes(f, root, key) {
        assert(crate::insert_multi::free_way(b0, root, key));
    }
    crate::books::writes_account_for_every_byte(f.blobs[h], b.forest().blobs[h], key, value, d, seq);
    if f.blobs[h].header.tombstone_leaf_cnt == 0 && f.find(root, key) is NotFound {
        lemma_find_home(f, root, key);
        lemma_no_leaf(f.blobs[h].tree(), key, d);
    }
}

/// The blob where a walk ends is reached by bytes of the key.
proof fn lemma_home_below(f: Forest, g: BlobGuid, key: Seq<u8>)
    requires
        f.linked(),
        f.has(g),
        f.below(g, key),
    ensures
        f.below(f.home(g, key), key),
    decreases f.rank[g],
{
    assert(f.edge_ok(g, key));
    if let Route::Crossing { guid, .. } = f.route(g, key) {
        lemma_home_below(f, guid, key);
    }
}

/// A key is found where its walk ends.
proof fn lemma_find_home(f: Forest, g: BlobGuid, key: Seq<u8>)
    requires
        f.linked(),
        f.has(g),
        f.below(g, key),
    ensures
        f.find(g, key) == f.route(f.home(g, key), key),
    decreases f.rank[g],
{
    assert(f.edge_ok(g, key));
    if let Route::Crossing { guid, .. } = f.route(g, key) {
        lemma_find_home(f, guid, key);
    }
}

/// A tree without deleted leaves has no leaf for a key that it does not find.
proof fn lemma_no_leaf(t: Art, key: Seq<u8>, d: int)
    requires
        dead(t) == 0,
        step(t, key, d) is NotFound,
    ensures
        !has_leaf(t, key, d),
    decreases t,
{
    match t {
        Art::Prefix { bytes, child, .. } => {
            if crate::key::matches_at(key, d, bytes) {
                lemma_no_leaf(*child, key, d + bytes.len());
            }
        },
        Art::Inner { kids, .. } => {
            if 0 <= d < key.len() && key[d] < kids.len() && kids[key[d] as int] is Some {
                crate::size_laws::lemma_dead_one(kids, key[d] as int, kids.len() as int);
                lemma_no_leaf(kids[key[d] as int]->0, key, d + 1);
            }
        },
        _ => {},
    }
}

} // verus!
