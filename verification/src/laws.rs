//! What holds of reads and writes taken together.
use vstd::prelude::*;

use crate::art::{step, Art, Route};
use crate::cursor::live;
use crate::erase_multi::del_result;
use crate::errors::Result;
use crate::forest::Forest;
use crate::insert_multi::{
    batch_applied, batch_find, batch_refused, batch_result, insert_multi_result, kept, InsertBatchItem, InsertBatchOutcome,
};
use crate::key_range::{scanned, Query};
use crate::layout::BlobGuid;
use crate::order::{lemma_prefix_agree, user_of};
use crate::range::Item;
use crate::route::is_root;
use crate::scan::{children, covers_prefix, exits, exits_below, lemma_reaches_child, listed, reaches, related, BlobTopologyEntry};
use crate::scan_laws::{scans_miss_nothing, stands_for};
use crate::merge::{handed_over, merge_pass, MergeStats};
use crate::store::BufferManager;
use crate::types::{EraseCondition, EraseOutcome, InsertCondition, InsertOutcome};

verus! {

/// What was written is read back, whatever was there before.
pub proof fn a_written_record_is_read_back(
    b0: BufferManager,
    b: BufferManager,
    root: BlobGuid,
    key: Seq<u8>,
    value: Seq<u8>,
    seq: u64,
    condition: InsertCondition,
    r: Result<InsertOutcome>,
)
    requires
        insert_multi_result(b0, b, root, key, value, seq, condition, r),
        r matches Ok(out) && out.mutated,
    ensures
        b.forest().find(root, key) == (Route::Found { value, seq }),
{
}

/// What was deleted is not found.
pub proof fn a_deleted_record_is_gone(
    b0: BufferManager,
    b: BufferManager,
    root: BlobGuid,
    key: Seq<u8>,
    condition: EraseCondition,
    r: Result<EraseOutcome>,
)
    requires
        del_result(b0, b, root, key, condition, r),
        r matches Ok(out) && out.mutated,
    ensures
        b0.forest().find(root, key) is Found,
        b.forest().find(root, key) is NotFound,
{
}

/// A write changes what no other key finds, in no tree of the store.
pub proof fn writes_leave_other_keys_alone(
    b0: BufferManager,
    b: BufferManager,
    root: BlobGuid,
    key: Seq<u8>,
    value: Seq<u8>,
    seq: u64,
    condition: InsertCondition,
    r: Result<InsertOutcome>,
    tree: BlobGuid,
    other: Seq<u8>,
)
    requires
        insert_multi_result(b0, b, root, key, value, seq, condition, r),
        is_root(b0, tree),
        other != key,
    ensures
        b.forest().find(tree, other) == b0.forest().find(tree, other),
{
    lemma_below_root(b0, tree, other);
}

/// A write that fails, or whose condition is not met, changes what no key
/// finds.
pub proof fn refused_writes_change_nothing(
    b0: BufferManager,
    b: BufferManager,
    root: BlobGuid,
    key: Seq<u8>,
    value: Seq<u8>,
    seq: u64,
    condition: InsertCondition,
    r: Result<InsertOutcome>,
    tree: BlobGuid,
    other: Seq<u8>,
)
    requires
        insert_multi_result(b0, b, root, key, value, seq, condition, r),
        is_root(b0, tree),
        !(r matches Ok(out) && out.mutated),
    ensures
        b.forest().find(tree, other) == b0.forest().find(tree, other),
{
    lemma_below_root(b0, tree, other);
}

/// A delete changes what no other key finds, in no tree of the store.
pub proof fn deletes_leave_other_keys_alone(
    b0: BufferManager,
    b: BufferManager,
    root: BlobGuid,
    key: Seq<u8>,
    condition: EraseCondition,
    r: Result<EraseOutcome>,
    tree: BlobGuid,
    other: Seq<u8>,
)
    requires
        del_result(b0, b, root, key, condition, r),
        is_root(b0, tree),
        other != key || !(r matches Ok(out) && out.mutated),
    ensures
        b.forest().find(tree, other) == b0.forest().find(tree, other),
{
    lemma_below_root(b0, tree, other);
}

/// A conditional delete happens exactly if the record is as asked.
pub proof fn conditions_decide_deletes(
    b0: BufferManager,
    b: BufferManager,
    root: BlobGuid,
    key: Seq<u8>,
    condition: EraseCondition,
    out: EraseOutcome,
)
    requires
        del_result(b0, b, root, key, condition, Ok(out)),
        is_root(b0, root),
    ensures
        out.mutated == (b0.forest().find(root, key) matches Route::Found { seq: written, .. } && match condition {
            EraseCondition::Always => true,
            EraseCondition::IfVersion(v) => written == v,
        }),
{
}

/// A record that a batch wrote is read back, unless a later one of the batch
/// has the same key.
pub proof fn a_batch_is_read_back(b0: BufferManager, b: BufferManager, root: BlobGuid, items: Seq<InsertBatchItem>, n: int, i: int)
    requires
        batch_applied(b0, b, root, items, n),
        0 <= i < n <= items.len(),
        forall|j: int| i < j < n ==> (#[trigger] items[j]).key@ != items[i].key@,
    ensures
        b.forest().find(root, items[i].key@) == (Route::Found { value: items[i].value@, seq: items[i].seq }),
{
    lemma_batch_find(b0.forest(), root, items, n, i);
}

proof fn lemma_batch_find(f: Forest, root: BlobGuid, items: Seq<InsertBatchItem>, n: int, i: int)
    requires
        0 <= i < n <= items.len(),
        forall|j: int| i < j < n ==> (#[trigger] items[j]).key@ != items[i].key@,
    ensures
        batch_find(f, root, items, n, items[i].key@) == (Route::Found { value: items[i].value@, seq: items[i].seq }),
    decreases n,
{
    if i < n - 1 {
        lemma_batch_find(f, root, items, n - 1, i);
    }
}

/// A conditional write happens exactly if the record is as asked.
pub proof fn conditions_decide_writes(
    b0: BufferManager,
    b: BufferManager,
    root: BlobGuid,
    key: Seq<u8>,
    value: Seq<u8>,
    seq: u64,
    condition: InsertCondition,
    out: InsertOutcome,
)
    requires
        insert_multi_result(b0, b, root, key, value, seq, condition, Ok(out)),
        is_root(b0, root),
    ensures
        out.mutated == (match condition {
            InsertCondition::Always => true,
            InsertCondition::IfAbsent => !(b0.forest().find(root, key) is Found),
            InsertCondition::IfVersion(v) => b0.forest().find(root, key) matches Route::Found { seq: written, .. } && written == v,
        }),
{
}

/// Deleting a record right after it was written anew leaves every key as it
/// was before.
pub proof fn a_delete_undoes_a_new_record(
    b0: BufferManager,
    b1: BufferManager,
    b2: BufferManager,
    root: BlobGuid,
    key: Seq<u8>,
    value: Seq<u8>,
    seq: u64,
    put: InsertOutcome,
    del: EraseOutcome,
    other: Seq<u8>,
)
    requires
        is_root(b0, root),
        b0.forest().find(root, key) is NotFound,
        insert_multi_result(b0, b1, root, key, value, seq, InsertCondition::Always, Ok(put)),
        del_result(b1, b2, root, key, EraseCondition::Always, Ok(del)),
    ensures
        put.mutated,
        del.mutated,
        b2.forest().find(root, other) == b0.forest().find(root, other),
{
    lemma_below_root(b0, root, other);
    lemma_below_root(b1, root, other);
}

/// The last write of a key wins.
pub proof fn the_last_write_wins(
    b0: BufferManager,
    b1: BufferManager,
    b2: BufferManager,
    root: BlobGuid,
    key: Seq<u8>,
    v1: Seq<u8>,
    s1: u64,
    v2: Seq<u8>,
    s2: u64,
    first: InsertOutcome,
    second: InsertOutcome,
    other: Seq<u8>,
)
    requires
        is_root(b0, root),
        insert_multi_result(b0, b1, root, key, v1, s1, InsertCondition::Always, Ok(first)),
        insert_multi_result(b1, b2, root, key, v2, s2, InsertCondition::Always, Ok(second)),
    ensures
        b2.forest().find(root, other) == (if other == key {
            Route::Found { value: v2, seq: s2 }
        } else {
            b0.forest().find(root, other)
        }),
{
    lemma_below_root(b0, root, other);
    lemma_below_root(b1, root, other);
}

/// A version taken before a write no longer allows one after it.
pub proof fn versions_catch_lost_updates(
    b0: BufferManager,
    b1: BufferManager,
    b2: BufferManager,
    root: BlobGuid,
    key: Seq<u8>,
    v1: Seq<u8>,
    s1: u64,
    v2: Seq<u8>,
    s2: u64,
    seen: u64,
    first: InsertOutcome,
    second: InsertOutcome,
)
    requires
        is_root(b0, root),
        seen != s1,
        insert_multi_result(b0, b1, root, key, v1, s1, InsertCondition::Always, Ok(first)),
        insert_multi_result(b1, b2, root, key, v2, s2, InsertCondition::IfVersion(seen), Ok(second)),
    ensures
        !second.mutated,
        b2.forest().find(root, key) == (Route::Found { value: v1, seq: s1 }),
{
    lemma_below_root(b1, root, key);
}

/// A scan that ends before its limit shows a record that was just written.
pub proof fn scans_show_writes(
    b0: BufferManager,
    b: BufferManager,
    root: BlobGuid,
    key: Seq<u8>,
    value: Seq<u8>,
    seq: u64,
    out: InsertOutcome,
    q: Query,
    limit: int,
    items: Seq<Item>,
)
    requires
        insert_multi_result(b0, b, root, key, value, seq, InsertCondition::Always, Ok(out)),
        scanned(b.forest(), root, q, limit, items),
        items.len() < limit,
        q.wants(user_of(key)),
    ensures
        exists|i: int| 0 <= i < items.len() && stands_for(#[trigger] items[i], user_of(key)),
{
    assert(live(b.forest(), root, key));
    scans_miss_nothing(b.forest(), root, q, limit, items, key);
}

/// Every key may be looked for from a root.
proof fn lemma_below_root(b: BufferManager, root: BlobGuid, key: Seq<u8>)
    requires
        is_root(b, root),
    ensures
        b.forest().has(root),
        b.forest().below(root, key),
{
    assert(b.base@[root] =~= key.subrange(0, 0));
}

/// Whether a snapshot may see every blob that `root` leads to, and a write
/// that starts at `g` starts at none of them.
pub open spec fn frozen(f: Forest, root: BlobGuid, barrier: u64, g: BlobGuid) -> bool {
    forall|h: BlobGuid| #[trigger] reaches(f, root, h) ==> h != g && barrier > 0 && f.blobs[h].header.created_epoch <= barrier
}

/// A crossing leads to one of the blobs that a tree leads to.
pub proof fn lemma_crossing_exits(t: Art, key: Seq<u8>, d: int)
    requires
        step(t, key, d) is Crossing,
    ensures
        exits(t).contains(step(t, key, d)->guid),
    decreases t,
{
    match t {
        Art::Blob { guid, .. } => {
            assert(exits(t)[0] == guid);
        },
        Art::Prefix { bytes, child, .. } => {
            lemma_crossing_exits(*child, key, d + bytes.len());
        },
        Art::Inner { kids, .. } => {
            let b = key[d] as int;
            lemma_crossing_exits(kids[b]->0, key, d + 1);
            lemma_exits_kid(kids, kids.len() as int, b, step(t, key, d)->guid);
        },
        _ => {},
    }
}

proof fn lemma_exits_kid(kids: Seq<Option<Art>>, n: int, b: int, c: BlobGuid)
    requires
        0 <= b < n <= kids.len(),
        kids[b] is Some,
        exits(kids[b]->0).contains(c),
    ensures
        exits_below(kids, n).contains(c),
    decreases n,
{
    let all = exits_below(kids, n);
    let before = exits_below(kids, n - 1);
    if b < n - 1 {
        lemma_exits_kid(kids, n - 1, b, c);
        let i = choose|i: int| 0 <= i < before.len() && before[i] == c;
        assert(all[i] == c);
    } else {
        let last = exits(kids[b]->0);
        let i = choose|i: int| 0 <= i < last.len() && last[i] == c;
        assert(all[before.len() + i] == c);
    }
}

/// What a snapshot sees is not touched by writes to the tree it was taken
/// of: every key is found from the snapshot's root as before.
pub proof fn snapshots_keep_their_reads(b0: BufferManager, b: BufferManager, g: BlobGuid, snapshot: BlobGuid, key: Seq<u8>)
    requires
        b0.wf(),
        kept(b0, b, g),
        b0.has(snapshot),
        b0.forest().below(snapshot, key),
        frozen(b0.forest(), snapshot, b0.fork_barrier, g),
    ensures
        b.forest().find(snapshot, key) == b0.forest().find(snapshot, key),
    decreases b0.forest().rank[snapshot],
{
    let f0 = b0.forest();
    let f = b.forest();
    assert(reaches(f0, snapshot, snapshot));
    assert(f0.has(snapshot));
    assert(f.blobs[snapshot] == f0.blobs[snapshot]);
    assert(f.base[snapshot] == f0.base[snapshot]);
    assert(f.route(snapshot, key) == f0.route(snapshot, key));
    if let Route::Crossing { guid: c, .. } = f0.route(snapshot, key) {
        assert(f0.edge_ok(snapshot, key));
        assert(f.has(snapshot) && f.below(snapshot, key));
        assert(f.edge_ok(snapshot, key));
        lemma_crossing_exits(f0.blobs[snapshot].tree(), key, f0.base[snapshot].len() as int);
        assert(children(f0, snapshot).contains(c));
        assert forall|h: BlobGuid| #[trigger] reaches(f0, c, h) implies h != g && b0.fork_barrier > 0
            && f0.blobs[h].header.created_epoch <= b0.fork_barrier by {
            assert(children(f0, snapshot).contains(c) && f0.rank[c] < f0.rank[snapshot] && reaches(f0, c, h));
            assert(reaches(f0, snapshot, h));
        }
        snapshots_keep_their_reads(b0, b, g, c, key);
    }
}

/// A blob that was there when the last snapshot was taken is never written
/// again: with a live snapshot taken at epoch `fork_barrier`, a write that
/// starts at blob `g` leaves every other blob created by then as it is.
pub proof fn old_blobs_stand_during_snapshots(b0: BufferManager, b: BufferManager, g: BlobGuid, h: BlobGuid)
    requires
        kept(b0, b, g),
        b0.has(h),
        h != g,
        b0.fork_barrier > 0,
        b0.forest().blobs[h].header.created_epoch <= b0.fork_barrier,
    ensures
        b.has(h),
        b.forest().blobs[h] == b0.forest().blobs[h],
        b.fork_barrier == b0.fork_barrier,
{
    assert(b0.forest().has(h));
}

/// So it is for an insert, whatever it returns.
pub proof fn inserts_spare_old_blobs(
    b0: BufferManager,
    b: BufferManager,
    root: BlobGuid,
    key: Seq<u8>,
    value: Seq<u8>,
    seq: u64,
    condition: InsertCondition,
    r: Result<InsertOutcome>,
    h: BlobGuid,
)
    requires
        insert_multi_result(b0, b, root, key, value, seq, condition, r),
        b0.has(h),
        h != root,
        b0.fork_barrier > 0,
        b0.forest().blobs[h].header.created_epoch <= b0.fork_barrier,
    ensures
        b.has(h),
        b.forest().blobs[h] == b0.forest().blobs[h],
{
    assert(b0.forest().has(h));
}

/// So it is for a delete.
pub proof fn deletes_spare_old_blobs(
    b0: BufferManager,
    b: BufferManager,
    root: BlobGuid,
    key: Seq<u8>,
    condition: EraseCondition,
    r: Result<EraseOutcome>,
    h: BlobGuid,
)
    requires
        del_result(b0, b, root, key, condition, r),
        b0.has(h),
        h != root,
        b0.fork_barrier > 0,
        b0.forest().blobs[h].header.created_epoch <= b0.fork_barrier,
    ensures
        b.has(h),
        b.forest().blobs[h] == b0.forest().blobs[h],
{
    assert(b0.forest().has(h));
}

/// So it is for a batch.
pub proof fn batches_spare_old_blobs(
    b0: BufferManager,
    b: BufferManager,
    root: BlobGuid,
    items: Seq<InsertBatchItem>,
    r: Result<InsertBatchOutcome>,
    h: BlobGuid,
)
    requires
        batch_result(b0, b, root, items, r),
        b0.has(h),
        h != root,
        b0.fork_barrier > 0,
        b0.forest().blobs[h].header.created_epoch <= b0.fork_barrier,
    ensures
        b.has(h),
        b.forest().blobs[h] == b0.forest().blobs[h],
{
    assert(b0.forest().has(h));
    if let Err(e) = r {
        let n = choose|n: int| #[trigger] batch_refused(b0, b, root, items, n, e);
        assert(batch_applied(b0, b, root, items, n));
    }
}

/// So it is for a pass that folds children back, but for the parent; and no
/// child that a snapshot may see is handed over for deletion.
pub proof fn folds_spare_old_blobs(b0: BufferManager, b: BufferManager, parent: int, r: Result<MergeStats>, h: BlobGuid)
    requires
        merge_pass(b0, b, parent, r),
        b0.has(h),
        b0.fork_barrier > 0,
        b0.forest().blobs[h].header.created_epoch <= b0.fork_barrier,
    ensures
        h != b0.blobs@[parent].guid ==> b.has(h) && b.forest().blobs[h] == b0.forest().blobs[h],
        !handed_over(b0.deletes@, b.deletes@, h),
{
    assert(b0.forest().has(h));
    let bd = BufferManager { deletes: b.deletes, ..b0 };
    assert(bd.forest() == b0.forest());
}

/// Whether `view` has the blobs that `all` lists as they are in `f`.
pub open spec fn copied(f: Forest, view: Forest, all: Seq<BlobTopologyEntry>) -> bool {
    forall|h: BlobGuid| #[trigger] listed(all, h) ==> view.blobs[h] == f.blobs[h] && view.base[h] == f.base[h] && view.rank[h] == f.rank[h]
}

/// A copy of the blobs listed for a prefix below blob `root` answers every key
/// that goes on with the prefix there as the store did when they were copied.
pub proof fn views_answer_their_prefix(
    f: Forest,
    root: BlobGuid,
    prefix: Seq<u8>,
    all: Seq<BlobTopologyEntry>,
    view: Forest,
    g: BlobGuid,
    key: Seq<u8>,
)
    requires
        f.linked(),
        f.has(root),
        covers_prefix(f, root, prefix, all),
        copied(f, view, all),
        reaches(f, root, g),
        f.has(g),
        f.below(g, key),
        (f.base[root] + prefix).is_prefix_of(key),
    ensures
        view.find(g, key) == f.find(g, key),
    decreases f.rank[g],
{
    lemma_both_prefixes(f.base[g], f.base[root] + prefix, key);
    assert(listed(all, g));
    if let Route::Crossing { guid: c, .. } = f.route(g, key) {
        assert(f.edge_ok(g, key));
        lemma_crossing_exits(f.blobs[g].tree(), key, f.base[g].len() as int);
        assert(children(f, g).contains(c));
        lemma_reaches_child(f, root, g, c);
        lemma_both_prefixes(f.base[c], f.base[root] + prefix, key);
        assert(listed(all, c));
        views_answer_their_prefix(f, root, prefix, all, view, c, key);
    }
}

/// Two prefixes of one key are related.
pub proof fn lemma_both_prefixes(a: Seq<u8>, b: Seq<u8>, key: Seq<u8>)
    requires
        a.is_prefix_of(key),
        b.is_prefix_of(key),
    ensures
        related(a, b),
{
    lemma_prefix_agree(a, key);
    lemma_prefix_agree(b, key);
    lemma_prefix_agree(a, b);
    lemma_prefix_agree(b, a);
}

/// What a batch finds for a key that none of its first records has, and for one
/// whose last such record is known.
proof fn lemma_batch_so_far(f: Forest, root: BlobGuid, items: Seq<InsertBatchItem>, n: int, j: int, key: Seq<u8>)
    requires
        -1 <= j < n <= items.len(),
        forall|k: int| j < k < n ==> (#[trigger] items[k]).key@ != key,
        j >= 0 ==> items[j].key@ == key,
    ensures
        j < 0 ==> batch_find(f, root, items, n, key) == f.find(root, key),
        j >= 0 ==> batch_find(f, root, items, n, key) == (Route::Found { value: items[j].value@, seq: items[j].seq }),
    decreases n,
{
    if n > 0 && j < n - 1 {
        lemma_batch_so_far(f, root, items, n - 1, j, key);
    }
}

/// A record of a batch is written only if its condition is met by what is there
/// once the records before it are written: by the last of them with its key, or
/// by what was there before the batch.
pub proof fn conditions_decide_batches(b0: BufferManager, b: BufferManager, root: BlobGuid, items: Seq<InsertBatchItem>, n: int, i: int, j: int)
    requires
        batch_applied(b0, b, root, items, n),
        -1 <= j < i < n <= items.len(),
        forall|k: int| j < k < i ==> (#[trigger] items[k]).key@ != items[i].key@,
        j >= 0 ==> items[j].key@ == items[i].key@,
    ensures
        match items[i].condition {
            InsertCondition::Always => true,
            InsertCondition::IfAbsent => j < 0 && !(b0.forest().find(root, items[i].key@) is Found),
            InsertCondition::IfVersion(v) => if j >= 0 {
                items[j].seq == v
            } else {
                b0.forest().find(root, items[i].key@) matches Route::Found { seq, .. } && seq == v
            },
        },
{
    assert(crate::insert_multi::in_condition(b0.forest(), root, items, i));
    lemma_batch_so_far(b0.forest(), root, items, i, j, items[i].key@);
}

} // verus!
