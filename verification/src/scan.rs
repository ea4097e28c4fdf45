//! Finding the blobs of a tree.
use vstd::prelude::*;

use crate::art::{at, rep, slot_of, step, Art, Route};
use crate::errors::{Error, Result};
use crate::forest::Forest;
use crate::frame::BlobFrame;
use crate::insert::{copy_bytes, lemma_rep_root};
use crate::layout::{guid_eq, BlobGuid, Node};
use crate::merge::{leads, lemma_longer_base, lemma_longer_path};
use crate::node::{cursor_byte, inner_ok, kid, next_inner_child_from, no_kid_from};
use crate::store::{is_at, BufferManager};

verus! {

/// A blob of a tree, and how many crossings lead to it from the root.
#[derive(Debug, Clone, Copy, PartialEq, Eq)]
pub struct BlobTopologyEntry {
    pub guid: BlobGuid,
    pub depth: u32,
}

/// The blobs that `t` leads to, in key order.
pub open spec fn exits(t: Art) -> Seq<BlobGuid>
    decreases t, 0int,
{
    match t {
        Art::Blob { guid, .. } => seq![guid],
        Art::Prefix { child, .. } => exits(*child),
        Art::Inner { kids, .. } => exits_below(kids, kids.len() as int),
        _ => Seq::empty(),
    }
}

/// The blobs that the first `n` subtrees lead to.
pub open spec fn exits_below(kids: Seq<Option<Art>>, n: int) -> Seq<BlobGuid>
    decreases kids, n,
{
    if n <= 0 || n > kids.len() {
        Seq::empty()
    } else {
        exits_below(kids, n - 1) + (match kids[n - 1] {
            Some(k) => exits(k),
            None => Seq::empty(),
        })
    }
}

proof fn lemma_exits_skip(kids: Seq<Option<Art>>, m: int, n: int)
    requires
        0 <= m <= n <= kids.len(),
        forall|x: int| m <= x < n ==> kids[x] is None,
    ensures
        exits_below(kids, n) == exits_below(kids, m),
    decreases n,
{
    if m < n {
        lemma_exits_skip(kids, m, n - 1);
        assert(exits_below(kids, n) =~= exits_below(kids, n - 1));
    }
}

/// A blob that some subtree leads to is led to by one of them.
pub proof fn lemma_exit_kid(kids: Seq<Option<Art>>, n: int, c: BlobGuid)
    requires
        0 <= n <= kids.len(),
    ensures
        exits_below(kids, n).contains(c) <==> exists|b: int| 0 <= b < n && (#[trigger] kids[b]) is Some && exits(kids[b]->0).contains(c),
    decreases n,
{
    if n > 0 {
        lemma_exit_kid(kids, n - 1, c);
        let before = exits_below(kids, n - 1);
        let last = match kids[n - 1] {
            Some(k) => exits(k),
            None => Seq::empty(),
        };
        let all = exits_below(kids, n);
        if all.contains(c) {
            let i = choose|i: int| 0 <= i < all.len() && all[i] == c;
            if i < before.len() {
                assert(before[i] == c);
            } else {
                assert(last[i - before.len()] == c);
                assert(kids[n - 1] is Some);
            }
        }
        if before.contains(c) {
            let i = choose|i: int| 0 <= i < before.len() && before[i] == c;
            assert(all[i] == c);
        }
        if last.contains(c) {
            let i = choose|i: int| 0 <= i < last.len() && last[i] == c;
            assert(all[before.len() + i] == c);
        }
        if exists|b: int| 0 <= b < n && (#[trigger] kids[b]) is Some && exits(kids[b]->0).contains(c) {
            let b = choose|b: int| 0 <= b < n && (#[trigger] kids[b]) is Some && exits(kids[b]->0).contains(c);
            if b < n - 1 {
                assert(before.contains(c));
            }
        }
    }
}

/// Collects the blobs that the node at `slot` leads to.
pub fn scan_subtree(frame: &BlobFrame, slot: u16, out: &mut Vec<BlobGuid>, Ghost(t): Ghost<Art>)
    requires
        rep(frame.cells@, t),
        slot_of(t) == slot,
    ensures
        final(out)@ == old(out)@ + exits(t),
    decreases t,
{
    let ghost o0 = out@;
    proof {
        lemma_rep_root(frame.cells@, t);
    }
    match frame.node_at(slot) {
        Some(Node::Blob(b)) => {
            out.push(b.child_blob_guid);
            assert(out@ =~= o0 + exits(t));
        },
        Some(Node::Prefix(p)) => {
            scan_subtree(frame, p.child, out, Ghost(*t->child));
        },
        Some(Node::Leaf(_)) => {
            assert(out@ =~= o0 + exits(t));
        },
        Some(Node::EmptyRoot) => {
            assert(out@ =~= o0 + exits(t));
        },
        Some(n) => {
            let ghost kids = t->kids;
            let ghost n0 = *n;
            let mut from: u16 = 0;
            let mut more: bool = true;
            assert(out@ =~= o0 + exits_below(kids, 0));
            while more
                invariant
                    rep(frame.cells@, t),
                    t is Inner,
                    kids == t->kids,
                    kids.len() == 256,
                    *n == n0,
                    at(frame.cells@, slot_of(t)) == Some(n0),
                    inner_ok(n0),
                    0 <= cursor_byte(n0, from as int) <= 256,
                    !more ==> no_kid_from(n0, cursor_byte(n0, from as int)),
                    out@ == o0 + exits_below(kids, cursor_byte(n0, from as int)),
                decreases more as int, 256 - cursor_byte(n0, from as int),
            {
                let ghost lo = cursor_byte(n0, from as int);
                match next_inner_child_from(n, from) {
                    None => {
                        more = false;
                    },
                    Some((byte, child, next)) => {
                        let ghost b = byte as int;
                        assert(kids[b] is Some);
                        proof {
                            assert forall|x: int| lo <= x < b implies kids[x] is None by {
                                assert(kid(n0, x) == 0);
                            }
                            lemma_exits_skip(kids, lo, b);
                        }
                        scan_subtree(frame, child, out, Ghost(kids[b]->0));
                        assert(out@ =~= o0 + exits_below(kids, b + 1));
                        from = next;
                    },
                }
            }
            proof {
                let lo = cursor_byte(n0, from as int);
                assert forall|x: int| lo <= x < 256 implies kids[x] is None by {
                    assert(kid(n0, x) == 0);
                }
                lemma_exits_skip(kids, lo, 256);
            }
        },
        None => {},
    }
}

/// A blob that `t` leads to lies behind `t`.
pub proof fn lemma_exit_child(f: Forest, g: BlobGuid, c: Seq<Option<Node>>, t: Art, path: Seq<u8>, x: BlobGuid)
    requires
        f.linked(),
        f.has(g),
        rep(c, t),
        leads(f, g, t, path),
        exits(t).contains(x),
    ensures
        f.has(x),
        f.rank[x] < f.rank[g],
        path.is_prefix_of(f.base[x]),
    decreases t,
{
    let d = path.len() as int;
    match t {
        Art::Blob { bytes, guid, .. } => {
            assert(x == guid);
            let key = path + bytes;
            assert(path.is_prefix_of(key)) by {
                assert(key.subrange(0, d) =~= path);
            }
            assert(key.subrange(d, d + bytes.len()) =~= bytes);
            assert(step(t, key, d) == (Route::Crossing { guid, depth: d + bytes.len() }));
            assert(f.below(g, key)) by {
                lemma_longer_base(f.base[g], path, bytes);
            }
            assert(f.edge_ok(g, key));
            assert(f.base[x] =~= key);
        },
        Art::Prefix { bytes, child, .. } => {
            lemma_leads_prefix(f, g, t, path);
            lemma_exit_child(f, g, c, *child, path + bytes, x);
            lemma_longer_path(path, bytes, f.base[x]);
        },
        Art::Inner { kids, .. } => {
            lemma_exit_kid(kids, 256, x);
            let b = choose|b: int| 0 <= b < 256 && (#[trigger] kids[b]) is Some && exits(kids[b]->0).contains(x);
            lemma_leads_kid(f, g, t, path, b as u8);
            assert(rep(c, kids[b]->0));
            lemma_exit_child(f, g, c, kids[b]->0, path.push(b as u8), x);
            assert(path.push(b as u8) =~= path + seq![b as u8]);
            lemma_longer_path(path, seq![b as u8], f.base[x]);
        },
        _ => {},
    }
}

/// Below a prefix node keys are led as by the blob.
pub proof fn lemma_leads_prefix(f: Forest, g: BlobGuid, t: Art, path: Seq<u8>)
    requires
        leads(f, g, t, path),
        t is Prefix,
    ensures
        leads(f, g, *t->child, path + t->Prefix_bytes),
{
    let bytes = t->Prefix_bytes;
    let k = *t->child;
    let below = path + bytes;
    let d = path.len() as int;
    assert forall|key: Seq<u8>| below.is_prefix_of(key) implies #[trigger] step(k, key, below.len() as int) == f.route(g, key) by {
        lemma_longer_path(path, bytes, key);
        assert(step(t, key, d) == step(k, key, d + bytes.len()));
    }
    lemma_longer_base(f.base[g], path, bytes);
}

/// Below an inner node keys are led as by the blob.
pub proof fn lemma_leads_kid(f: Forest, g: BlobGuid, t: Art, path: Seq<u8>, byte: u8)
    requires
        leads(f, g, t, path),
        t is Inner,
        t->kids.len() == 256,
        t->kids[byte as int] is Some,
    ensures
        leads(f, g, t->kids[byte as int]->0, path.push(byte)),
{
    let k = t->kids[byte as int]->0;
    let below = path.push(byte);
    let d = path.len() as int;
    assert(below =~= path + seq![byte]);
    assert forall|key: Seq<u8>| below.is_prefix_of(key) implies #[trigger] step(k, key, below.len() as int) == f.route(g, key) by {
        lemma_longer_path(path, seq![byte], key);
        assert(key.subrange(d, d + 1)[0] == byte);
        assert(step(t, key, d) == step(k, key, d + 1));
    }
    lemma_longer_base(f.base[g], path, seq![byte]);
}

/// A blob's own tree leads as the blob does.
pub proof fn lemma_leads_root(f: Forest, g: BlobGuid)
    ensures
        leads(f, g, f.blobs[g].tree(), f.base[g]),
{
    assert(f.base[g].is_prefix_of(f.base[g])) by {
        assert(f.base[g].subrange(0, f.base[g].len() as int) =~= f.base[g]);
    }
}

/// The children of blob `g`, in key order.
pub open spec fn children(f: Forest, g: BlobGuid) -> Seq<BlobGuid> {
    exits(f.blobs[g].tree())
}

/// Children exist, further down, behind their parent's bytes.
pub proof fn lemma_children(f: Forest, g: BlobGuid, x: BlobGuid)
    requires
        f.linked(),
        f.has(g),
        children(f, g).contains(x),
    ensures
        f.has(x),
        f.rank[x] < f.rank[g],
        f.base[g].is_prefix_of(f.base[x]),
{
    lemma_leads_root(f, g);
    assert(f.blobs[g].wf(f.base[g]));
    lemma_exit_child(f, g, f.blobs[g].cells@, f.blobs[g].tree(), f.base[g], x);
}

/// Number of ways that lead down from blob `g`, the empty one counted.
pub open spec fn ways(f: Forest, g: BlobGuid) -> nat
    decreases f.rank[g], 1int, 0int,
{
    1 + ways_of(f, g, children(f, g), children(f, g).len() as int)
}

/// Number of ways from the first `n` of `list`, blobs below `g`.
pub open spec fn ways_of(f: Forest, g: BlobGuid, list: Seq<BlobGuid>, n: int) -> nat
    decreases f.rank[g], 0int, n,
{
    if n <= 0 || n > list.len() {
        0
    } else {
        ways_of(f, g, list, n - 1) + (if f.rank[list[n - 1]] < f.rank[g] {
            ways(f, list[n - 1])
        } else {
            0
        })
    }
}

/// One crossing more.
pub open spec fn deeper(depth: u32) -> u32 {
    if depth < u32::MAX {
        (depth + 1) as u32
    } else {
        u32::MAX
    }
}

/// The children of `e`, one crossing further down.
pub open spec fn entries_below(f: Forest, e: BlobTopologyEntry) -> Seq<BlobTopologyEntry> {
    Seq::new(children(f, e.guid).len(), |i: int| BlobTopologyEntry { guid: children(f, e.guid)[i], depth: deeper(e.depth) })
}

/// The children of the first `n` of `all`, in order.
pub open spec fn spread(f: Forest, all: Seq<BlobTopologyEntry>, n: int) -> Seq<BlobTopologyEntry>
    decreases n,
{
    if n <= 0 {
        Seq::empty()
    } else {
        spread(f, all, n - 1) + entries_below(f, all[n - 1])
    }
}

/// Breadth-first order: the root, then the children of every listed blob in
/// the order of the list. All of them are there.
pub open spec fn level_order(f: Forest, root: BlobGuid, all: Seq<BlobTopologyEntry>) -> bool {
    &&& all == seq![BlobTopologyEntry { guid: root, depth: 0 }] + spread(f, all, all.len() as int)
    &&& forall|i: int| 0 <= i < all.len() ==> f.has((#[trigger] all[i]).guid)
}

pub proof fn lemma_spread_same(f: Forest, a: Seq<BlobTopologyEntry>, b: Seq<BlobTopologyEntry>, n: int)
    requires
        forall|i: int| 0 <= i < n ==> a[i] == b[i],
    ensures
        spread(f, a, n) == spread(f, b, n),
    decreases n,
{
    if n > 0 {
        lemma_spread_same(f, a, b, n - 1);
    }
}

/// Number of ways down from the entries from `from` on.
spec fn ways_from(f: Forest, all: Seq<BlobTopologyEntry>, from: int) -> nat
    decreases all.len() - from,
{
    if from < 0 || from >= all.len() {
        0
    } else {
        ways(f, all[from].guid) + ways_from(f, all, from + 1)
    }
}

proof fn lemma_ways_push(f: Forest, all: Seq<BlobTopologyEntry>, e: BlobTopologyEntry, from: int)
    requires
        0 <= from <= all.len(),
    ensures
        ways_from(f, all.push(e), from) == ways_from(f, all, from) + ways(f, e.guid),
    decreases all.len() - from,
{
    let more = all.push(e);
    if from < all.len() {
        lemma_ways_push(f, all, e, from + 1);
        assert(more[from] == all[from]);
    } else {
        assert(more[from] == e);
        assert(ways_from(f, more, from + 1) == 0);
    }
}

fn root_entry(guid: BlobGuid) -> (r: Vec<BlobTopologyEntry>)
    ensures
        r@ == seq![BlobTopologyEntry { guid, depth: 0 }],
{
    let mut all: Vec<BlobTopologyEntry> = Vec::new();
    all.push(BlobTopologyEntry { guid, depth: 0 });
    all
}

/// Every way from `root` down to a blob, in breadth-first order, with its
/// number of crossings.
pub fn collect_blob_topology_silent(bm: &BufferManager, root: BlobGuid) -> (r: Result<Vec<BlobTopologyEntry>>)
    requires
        bm.wf(),
    ensures
        match r {
            Ok(all) => bm.has(root) && level_order(bm.forest(), root, all@) && no_repeats(all@) && levelled(all@),
            Err(e) => !bm.has(root) && e == (Error::BlobNotFound { guid: root }),
        },
{
    let ghost f = bm.forest();
    match bm.pin(root) {
        Ok(_) => {},
        Err(e) => {
            return Err(e);
        },
    }
    let mut all = root_entry(root);
    let ghost first = all@;
    let mut head: usize = 0;
    assert(all@ =~= first + spread(f, all@, 0));
    while head < all.len()
        invariant
            bm.wf(),
            bm.has(root),
            f == bm.forest(),
            head <= all@.len(),
            first == seq![BlobTopologyEntry { guid: root, depth: 0 }],
            all@ == first + spread(f, all@, head as int),
            forall|i: int| 0 <= i < all@.len() ==> f.has((#[trigger] all@[i]).guid),
        decreases ways_from(f, all@, head as int),
    {
        let entry = all[head];
        let ghost before = all@;
        let ghost g = entry.guid;
        let ghost kids = children(f, g);
        let ghost below = entries_below(f, entry);
        let at_ = match bm.pin(entry.guid) {
            Ok(i) => i,
            Err(e) => {
                assert(false);
                return Err(e);
            },
        };
        let mut found: Vec<BlobGuid> = Vec::new();
        assert(f.has(g));
        assert(f.blobs[g].wf(f.base[g]));
        proof {
            crate::frame::lemma_tree_at(f.blobs[g].cells@, f.blobs[g].tree());
        }
        scan_subtree(&bm.blobs[at_].frame, bm.blobs[at_].frame.header.root_slot, &mut found, Ghost(f.blobs[g].tree()));
        assert(found@ =~= kids);
        let depth = entry.depth.saturating_add(1);
        let mut i: usize = 0;
        while i < found.len()
            invariant
                bm.wf(),
                f == bm.forest(),
                f.has(g),
                found@ == kids,
                kids == children(f, g),
                below == entries_below(f, entry),
                g == entry.guid,
                depth == deeper(entry.depth),
                i <= found@.len(),
                head < before.len(),
                before[head as int] == entry,
                all@ == before + below.take(i as int),
                forall|j: int| 0 <= j < all@.len() ==> f.has((#[trigger] all@[j]).guid),
                ways_from(f, all@, head as int) == ways_from(f, before, head as int) + ways_of(f, g, kids, i as int),
            decreases found@.len() - i,
        {
            let ghost was = all@;
            proof {
                assert(kids.contains(kids[i as int]));
                lemma_children(f, g, kids[i as int]);
                lemma_ways_push(f, was, below[i as int], head as int);
            }
            all.push(BlobTopologyEntry { guid: found[i], depth });
            assert(all@ =~= was.push(below[i as int]));
            i = i + 1;
            assert(all@ =~= before + below.take(i as int));
        }
        proof {
            assert(below.take(below.len() as int) =~= below);
            assert(all@ =~= before + below);
            lemma_spread_same(f, before, all@, head as int);
            assert(all@ =~= first + spread(f, all@, head + 1));
            assert(ways_from(f, all@, head as int) == ways(f, g) + ways_from(f, all@, head + 1));
            assert(ways_from(f, before, head as int) == ways(f, g) + ways_from(f, before, head + 1));
        }
        head = head + 1;
    }
    proof {
        crate::topology_laws::level_orders_rise_without_repeats(f, root, all@);
    }
    Ok(all)
}

/// The names of the blobs that `root` leads to, `root` first, in
/// breadth-first order.
pub fn collect_blob_guids(bm: &BufferManager, root: BlobGuid) -> (r: Result<Vec<BlobGuid>>)
    requires
        bm.wf(),
    ensures
        match r {
            Ok(names) => {
                &&& bm.has(root)
                &&& names@.no_duplicates()
                &&& exists|all: Seq<BlobTopologyEntry>| #[trigger] level_order(bm.forest(), root, all) && names@ == all.map_values(
                    |e: BlobTopologyEntry| e.guid,
                )
            },
            Err(e) => !bm.has(root) && e == (Error::BlobNotFound { guid: root }),
        },
{
    let all = match collect_blob_topology_silent(bm, root) {
        Ok(all) => all,
        Err(e) => {
            return Err(e);
        },
    };
    let mut names: Vec<BlobGuid> = Vec::new();
    let mut i: usize = 0;
    while i < all.len()
        invariant
            i <= all@.len(),
            names@.len() == i,
            forall|j: int| 0 <= j < i ==> names@[j] == all@[j].guid,
        decreases all@.len() - i,
    {
        names.push(all[i].guid);
        i = i + 1;
    }
    assert(names@ =~= all@.map_values(|e: BlobTopologyEntry| e.guid));
    Ok(names)
}

/// How the keys below a path relate to those with a prefix.
#[derive(Debug, Clone, Copy, PartialEq, Eq, Structural)]
pub enum PrefixRelation {
    /// All of them have the prefix.
    All,
    /// Some of them may have it.
    Continue,
    /// None of them has it.
    Skip,
}

/// Whether `s` begins with `part`.
pub fn starts_with(s: &[u8], part: &[u8]) -> (r: bool)
    ensures
        r == part@.is_prefix_of(s@),
{
    if part.len() > s.len() {
        return false;
    }
    let mut i: usize = 0;
    while i < part.len()
        invariant
            part@.len() <= s@.len(),
            i <= part@.len(),
            forall|j: int| 0 <= j < i ==> s@[j] == part@[j],
        decreases part@.len() - i,
    {
        if s[i] != part[i] {
            assert(s@.subrange(0, part@.len() as int)[i as int] != part@[i as int]);
            return false;
        }
        i = i + 1;
    }
    assert(s@.subrange(0, part@.len() as int) =~= part@);
    true
}

/// How the keys that begin with `path` relate to those with `prefix`.
pub fn prefix_relation(path: &[u8], prefix: &[u8]) -> (r: PrefixRelation)
    ensures
        r is All <==> prefix@.is_prefix_of(path@),
        r is Skip <==> !related(path@, prefix@),
{
    if starts_with(path, prefix) {
        PrefixRelation::All
    } else if starts_with(prefix, path) {
        PrefixRelation::Continue
    } else {
        PrefixRelation::Skip
    }
}

/// Whether some key begins with both `path` and `prefix`.
pub open spec fn related(path: Seq<u8>, prefix: Seq<u8>) -> bool {
    path.is_prefix_of(prefix) || prefix.is_prefix_of(path)
}

/// Below an unrelated path nothing is related, below the prefix everything
/// is.
pub proof fn lemma_related_below(path: Seq<u8>, more: Seq<u8>, prefix: Seq<u8>)
    requires
        path.is_prefix_of(more),
    ensures
        !related(path, prefix) ==> !related(more, prefix),
        prefix.is_prefix_of(path) ==> prefix.is_prefix_of(more),
{
    if more.is_prefix_of(prefix) {
        assert(prefix.subrange(0, path.len() as int) =~= more.subrange(0, path.len() as int));
    }
    if prefix.is_prefix_of(more) {
        if prefix.len() <= path.len() {
            assert(path.subrange(0, prefix.len() as int) =~= more.subrange(0, prefix.len() as int));
        } else {
            assert(prefix.subrange(0, path.len() as int) =~= more.subrange(0, path.len() as int));
        }
    }
    if prefix.is_prefix_of(path) {
        assert(more.subrange(0, prefix.len() as int) =~= path.subrange(0, prefix.len() as int));
    }
}

/// How the search for a prefix goes on in a blob.
#[derive(Debug)]
pub enum PrefixQueueMode {
    /// Every key of the blob has the prefix.
    All,
    /// The blob is reached by these bytes.
    Match { path: Vec<u8> },
}

/// A blob that may hold keys with the prefix.
#[derive(Debug)]
pub struct PrefixChild {
    pub guid: BlobGuid,
    pub mode: PrefixQueueMode,
}

/// A blob yet to be searched.
#[derive(Debug)]
pub struct PrefixQueueEntry {
    pub guid: BlobGuid,
    pub depth: u32,
    pub mode: PrefixQueueMode,
}

/// Whether `mode` is right for a blob reached by `base`, where the search goes
/// on from a blob reached by `start`.
pub open spec fn mode_ok(mode: PrefixQueueMode, base: Seq<u8>, start: Seq<u8>, prefix: Seq<u8>) -> bool {
    match mode {
        PrefixQueueMode::All => (start + prefix).is_prefix_of(base),
        PrefixQueueMode::Match { path } => start + path@ == base && related(base, start + prefix),
    }
}

/// Whether `out` lists blob `c` at or after `from`.
pub open spec fn lists(out: Seq<PrefixChild>, from: int, c: BlobGuid) -> bool {
    exists|i: int| from <= i < out.len() && (#[trigger] out[i]).guid == c
}

/// Those of `es` that may hold keys with `prefix`, in their order.
pub open spec fn needed(f: Forest, es: Seq<BlobGuid>, prefix: Seq<u8>) -> Seq<BlobGuid>
    decreases es.len(),
{
    if es.len() == 0 {
        Seq::empty()
    } else if related(f.base[es.last()], prefix) {
        needed(f, es.drop_last(), prefix).push(es.last())
    } else {
        needed(f, es.drop_last(), prefix)
    }
}

/// The blobs listed from entry `from` on.
pub open spec fn named(out: Seq<PrefixChild>, from: int) -> Seq<BlobGuid> {
    Seq::new((out.len() - from) as nat, |i: int| out[from + i].guid)
}

pub proof fn lemma_needed(f: Forest, es: Seq<BlobGuid>, prefix: Seq<u8>, c: BlobGuid)
    ensures
        needed(f, es, prefix).contains(c) <==> es.contains(c) && related(f.base[c], prefix),
    decreases es.len(),
{
    if es.len() > 0 {
        let rest = es.drop_last();
        let n = needed(f, rest, prefix);
        lemma_needed(f, rest, prefix, c);
        assert(es =~= rest.push(es.last()));
        if es.contains(c) && c != es.last() {
            let k = choose|k: int| 0 <= k < es.len() && es[k] == c;
            assert(rest[k] == c);
        }
        if rest.contains(c) {
            let k = choose|k: int| 0 <= k < rest.len() && rest[k] == c;
            assert(es[k] == c);
        }
        assert(es[es.len() - 1] == es.last());
        let all = n.push(es.last());
        assert(all[n.len() as int] == es.last());
        if n.contains(c) {
            let k = choose|k: int| 0 <= k < n.len() && n[k] == c;
            assert(all[k] == c);
        }
        if all.contains(c) && c != es.last() {
            let k = choose|k: int| 0 <= k < all.len() && all[k] == c;
            assert(n[k] == c);
        }
    }
}

proof fn lemma_needed_add(f: Forest, a: Seq<BlobGuid>, b: Seq<BlobGuid>, prefix: Seq<u8>)
    ensures
        needed(f, a + b, prefix) == needed(f, a, prefix) + needed(f, b, prefix),
    decreases b.len(),
{
    if b.len() == 0 {
        assert(a + b =~= a);
        assert(needed(f, a, prefix) + needed(f, b, prefix) =~= needed(f, a, prefix));
    } else {
        assert((a + b).drop_last() =~= a + b.drop_last());
        lemma_needed_add(f, a, b.drop_last(), prefix);
        assert(needed(f, a + b, prefix) =~= needed(f, a, prefix) + needed(f, b, prefix));
    }
}

/// Nothing is needed of what is not related.
pub proof fn lemma_needed_none(f: Forest, es: Seq<BlobGuid>, prefix: Seq<u8>)
    requires
        forall|c: BlobGuid| #[trigger] es.contains(c) ==> !related(f.base[c], prefix),
    ensures
        needed(f, es, prefix) == Seq::<BlobGuid>::empty(),
    decreases es.len(),
{
    if es.len() > 0 {
        assert(es[es.len() - 1] == es.last());
        assert(es.contains(es.last()));
        assert forall|c: BlobGuid| #[trigger] es.drop_last().contains(c) implies !related(f.base[c], prefix) by {
            let k = choose|k: int| 0 <= k < es.drop_last().len() && es.drop_last()[k] == c;
            assert(es[k] == c);
            assert(es.contains(c));
        }
        lemma_needed_none(f, es.drop_last(), prefix);
    }
}

/// Everything is needed where all is related.
pub proof fn lemma_needed_all(f: Forest, es: Seq<BlobGuid>, prefix: Seq<u8>)
    requires
        forall|c: BlobGuid| #[trigger] es.contains(c) ==> related(f.base[c], prefix),
    ensures
        needed(f, es, prefix) == es,
    decreases es.len(),
{
    if es.len() > 0 {
        assert(es[es.len() - 1] == es.last());
        assert(es.contains(es.last()));
        assert forall|c: BlobGuid| #[trigger] es.drop_last().contains(c) implies related(f.base[c], prefix) by {
            let k = choose|k: int| 0 <= k < es.drop_last().len() && es.drop_last()[k] == c;
            assert(es[k] == c);
            assert(es.contains(c));
        }
        lemma_needed_all(f, es.drop_last(), prefix);
        assert(es.drop_last().push(es.last()) =~= es);
    } else {
        assert(es =~= Seq::<BlobGuid>::empty());
    }
}

/// Whether `b` is `a` with those of `es` added that may hold keys with
/// `prefix`, in their order.
pub open spec fn adds(f: Forest, es: Seq<BlobGuid>, start: Seq<u8>, prefix: Seq<u8>, a: Seq<PrefixChild>, b: Seq<PrefixChild>) -> bool {
    &&& a.is_prefix_of(b)
    &&& named(b, a.len() as int) == needed(f, es, start + prefix)
    &&& forall|i: int| a.len() <= i < b.len() ==> mode_ok((#[trigger] b[i]).mode, f.base[b[i].guid], start, prefix)
}

/// Whether `b` is `a` with exactly those blobs added that `t` leads to and
/// that may hold keys with `prefix`, in the order in which `t` leads to them.
pub open spec fn gathered(f: Forest, t: Art, start: Seq<u8>, prefix: Seq<u8>, a: Seq<PrefixChild>, b: Seq<PrefixChild>) -> bool {
    adds(f, exits(t), start, prefix, a, b)
}

/// What was gathered, blob by blob.
proof fn lemma_gathered(f: Forest, t: Art, start: Seq<u8>, prefix: Seq<u8>, a: Seq<PrefixChild>, b: Seq<PrefixChild>)
    requires
        gathered(f, t, start, prefix, a, b),
    ensures
        forall|i: int| a.len() <= i < b.len() ==> exits(t).contains((#[trigger] b[i]).guid),
        forall|c: BlobGuid| #[trigger] exits(t).contains(c) && related(f.base[c], start + prefix) ==> lists(b, a.len() as int, c),
{
    let names = named(b, a.len() as int);
    assert forall|i: int| a.len() <= i < b.len() implies exits(t).contains((#[trigger] b[i]).guid) by {
        assert(names[i - a.len()] == b[i].guid);
        lemma_needed(f, exits(t), start + prefix, b[i].guid);
    }
    assert forall|c: BlobGuid| #[trigger] exits(t).contains(c) && related(f.base[c], start + prefix) implies lists(b, a.len() as int, c) by {
        lemma_needed(f, exits(t), start + prefix, c);
        let k = choose|k: int| 0 <= k < names.len() && names[k] == c;
        assert(b[a.len() + k].guid == c);
    }
}

/// Bytes in front of both keep what begins with what.
proof fn lemma_start(start: Seq<u8>, a: Seq<u8>, b: Seq<u8>)
    ensures
        (start + a).is_prefix_of(start + b) <==> a.is_prefix_of(b),
{
    let n = start.len() as int;
    if a.is_prefix_of(b) {
        assert(a =~= b.subrange(0, a.len() as int));
        assert((start + a) =~= (start + b).subrange(0, n + a.len()));
    }
    if (start + a).is_prefix_of(start + b) {
        assert((start + a) =~= (start + b).subrange(0, n + a.len()));
        assert(a =~= b.subrange(0, a.len() as int)) by {
            assert forall|i: int| 0 <= i < a.len() implies a[i] == b[i] by {
                assert((start + a)[n + i] == (start + b).subrange(0, n + a.len())[n + i]);
            }
        }
    }
}

/// How the keys below a blob reached by `start` that go on with `path` relate
/// to those that go on with `prefix`.
fn relation_from(path: &[u8], prefix: &[u8], Ghost(start): Ghost<Seq<u8>>) -> (r: PrefixRelation)
    ensures
        r is All <==> (start + prefix@).is_prefix_of(start + path@),
        r is Skip <==> !related(start + path@, start + prefix@),
{
    proof {
        lemma_start(start, path@, prefix@);
        lemma_start(start, prefix@, path@);
    }
    prefix_relation(path, prefix)
}

/// Collects every child below the node at `slot`, all of whose keys have the
/// prefix.
fn collect_all_children(
    frame: &BlobFrame,
    slot: u16,
    out: &mut Vec<PrefixChild>,
    Ghost(prefix): Ghost<Seq<u8>>,
    Ghost(start): Ghost<Seq<u8>>,
    Ghost(f): Ghost<Forest>,
    Ghost(g): Ghost<BlobGuid>,
    Ghost(t): Ghost<Art>,
    Ghost(path): Ghost<Seq<u8>>,
)
    requires
        f.linked(),
        f.has(g),
        rep(frame.cells@, t),
        slot_of(t) == slot,
        leads(f, g, t, path),
        (start + prefix).is_prefix_of(path),
    ensures
        gathered(f, t, start, prefix, old(out)@, final(out)@),
{
    let ghost o0 = out@;
    let mut guids: Vec<BlobGuid> = Vec::new();
    scan_subtree(frame, slot, &mut guids, Ghost(t));
    assert(guids@ =~= exits(t));
    let mut i: usize = 0;
    proof {
        assert forall|c: BlobGuid| #[trigger] exits(t).contains(c) implies (start + prefix).is_prefix_of(f.base[c]) by {
            lemma_exit_child(f, g, frame.cells@, t, path, c);
            lemma_related_below(path, f.base[c], start + prefix);
        }
    }
    while i < guids.len()
        invariant
            forall|c: BlobGuid| #[trigger] exits(t).contains(c) ==> (start + prefix).is_prefix_of(f.base[c]),
            guids@ == exits(t),
            i <= guids@.len(),
            o0.is_prefix_of(out@),
            out@.len() == o0.len() + i,
            forall|j: int|
                o0.len() <= j < out@.len() ==> (#[trigger] out@[j]).guid == guids@[j - o0.len()] && mode_ok(out@[j].mode, f.base[out@[j].guid], start, prefix),
        decreases guids@.len() - i,
    {
        let ghost was = out@;
        assert(exits(t).contains(guids@[i as int]));
        out.push(PrefixChild { guid: guids[i], mode: PrefixQueueMode::All });
        proof {
            assert(out@.subrange(0, o0.len() as int) =~= was.subrange(0, o0.len() as int));
        }
        i = i + 1;
    }
    proof {
        lemma_needed_all(f, exits(t), start + prefix);
        assert(named(out@, o0.len() as int) =~= exits(t));
    }
}

/// Collects the child `guid`, reached by `path`, if it may hold keys with the
/// prefix.
fn collect_matching_child(guid: BlobGuid, path: &[u8], prefix: &[u8], out: &mut Vec<PrefixChild>, Ghost(start): Ghost<Seq<u8>>)
    ensures
        old(out)@.is_prefix_of(final(out)@),
        related(start + path@, start + prefix@) ==> final(out)@.len() == old(out)@.len() + 1 && final(out)@.last().guid == guid && mode_ok(
            final(out)@.last().mode,
            start + path@,
            start,
            prefix@,
        ),
        !related(start + path@, start + prefix@) ==> final(out)@ == old(out)@,
{
    let ghost o0 = out@;
    match relation_from(path, prefix, Ghost(start)) {
        PrefixRelation::All => {
            out.push(PrefixChild { guid, mode: PrefixQueueMode::All });
        },
        PrefixRelation::Continue => {
            out.push(PrefixChild { guid, mode: PrefixQueueMode::Match { path: copy_bytes(path) } });
        },
        PrefixRelation::Skip => {},
    }
    assert(out@.subrange(0, o0.len() as int) =~= o0);
}

/// What was gathered below an unrelated node: nothing.
proof fn lemma_gathered_none(
    f: Forest,
    g: BlobGuid,
    c: Seq<Option<Node>>,
    t: Art,
    path: Seq<u8>,
    start: Seq<u8>,
    prefix: Seq<u8>,
    o: Seq<PrefixChild>,
)
    requires
        f.linked(),
        f.has(g),
        rep(c, t),
        leads(f, g, t, path),
        !related(path, start + prefix),
    ensures
        gathered(f, t, start, prefix, o, o),
{
    assert(o.subrange(0, o.len() as int) =~= o);
    assert forall|x: BlobGuid| #[trigger] exits(t).contains(x) implies !related(f.base[x], start + prefix) by {
        lemma_exit_child(f, g, c, t, path, x);
        lemma_related_below(path, f.base[x], start + prefix);
    }
    lemma_needed_none(f, exits(t), start + prefix);
    assert(named(o, o.len() as int) =~= Seq::<BlobGuid>::empty());
}

/// Collects the children below the node at `slot` that may hold keys with
/// the prefix. `path` leads to the node.
pub fn scan_prefix_subtree(
    frame: &BlobFrame,
    slot: u16,
    path: &mut Vec<u8>,
    prefix: &[u8],
    out: &mut Vec<PrefixChild>,
    Ghost(start): Ghost<Seq<u8>>,
    Ghost(f): Ghost<Forest>,
    Ghost(g): Ghost<BlobGuid>,
    Ghost(t): Ghost<Art>,
)
    requires
        f.linked(),
        f.has(g),
        rep(frame.cells@, t),
        slot_of(t) == slot,
        leads(f, g, t, start + old(path)@),
    ensures
        final(path)@ == old(path)@,
        gathered(f, t, start, prefix@, old(out)@, final(out)@),
    decreases t, 0int,
{
    let ghost o0 = out@;
    let ghost r0 = path@;
    let ghost p0 = start + path@;
    proof {
        lemma_rep_root(frame.cells@, t);
    }
    match frame.node_at(slot) {
        Some(Node::Blob(b)) => {
            let len = path.len();
            path.extend_from_slice(b.bytes.as_slice());
            assert(start + path@ =~= p0 + b.bytes@);
            proof {
                assert(exits(t)[0] == b.child_blob_guid);
                assert(exits(t).contains(b.child_blob_guid));
                lemma_exit_child(f, g, frame.cells@, t, p0, b.child_blob_guid);
                lemma_exit_base(f, g, t, p0);
            }
            collect_matching_child(b.child_blob_guid, path.as_slice(), prefix, out, Ghost(start));
            proof {
                assert(exits(t).drop_last() =~= Seq::<BlobGuid>::empty());
                assert(needed(f, exits(t).drop_last(), start + prefix@) =~= Seq::<BlobGuid>::empty());
                assert(named(out@, o0.len() as int) =~= needed(f, exits(t), start + prefix@));
            }
            path.truncate(len);
            assert(path@ =~= r0);
            assert(gathered(f, t, start, prefix@, o0, out@));
        },
        Some(Node::Prefix(p)) => {
            let len = path.len();
            path.extend_from_slice(p.bytes.as_slice());
            assert(start + path@ =~= p0 + p.bytes@);
            proof {
                lemma_leads_prefix(f, g, t, p0);
            }
            let ghost below = start + path@;
            match relation_from(path.as_slice(), prefix, Ghost(start)) {
                PrefixRelation::All => {
                    collect_all_children(frame, p.child, out, Ghost(prefix@), Ghost(start), Ghost(f), Ghost(g), Ghost(*t->child), Ghost(below));
                },
                PrefixRelation::Continue => {
                    scan_prefix_subtree(frame, p.child, path, prefix, out, Ghost(start), Ghost(f), Ghost(g), Ghost(*t->child));
                },
                PrefixRelation::Skip => {
                    proof {
                        lemma_gathered_none(f, g, frame.cells@, *t->child, below, start, prefix@, o0);
                    }
                },
            }
            path.truncate(len);
            assert(path@ =~= r0);
            assert(exits(t) == exits(*t->child));
            assert(gathered(f, t, start, prefix@, o0, out@));
        },
        Some(Node::Leaf(_)) => {
            assert(out@.subrange(0, o0.len() as int) =~= o0);
            assert(named(out@, o0.len() as int) =~= Seq::<BlobGuid>::empty());
            assert(gathered(f, t, start, prefix@, o0, out@));
        },
        Some(Node::EmptyRoot) => {
            assert(out@.subrange(0, o0.len() as int) =~= o0);
            assert(named(out@, o0.len() as int) =~= Seq::<BlobGuid>::empty());
            assert(gathered(f, t, start, prefix@, o0, out@));
        },
        Some(n) => {
            let ghost kids = t->kids;
            let ghost n0 = *n;
            let mut from: u16 = 0;
            let mut more: bool = true;
            assert(out@.subrange(0, o0.len() as int) =~= o0);
            assert(named(out@, o0.len() as int) =~= Seq::<BlobGuid>::empty());
            while more
                invariant
                    f.linked(),
                    f.has(g),
                    rep(frame.cells@, t),
                    leads(f, g, t, p0),
                    path@ == r0,
                    p0 == start + r0,
                    t is Inner,
                    kids == t->kids,
                    kids.len() == 256,
                    *n == n0,
                    at(frame.cells@, slot_of(t)) == Some(n0),
                    inner_ok(n0),
                    0 <= cursor_byte(n0, from as int) <= 256,
                    !more ==> no_kid_from(n0, cursor_byte(n0, from as int)),
                    gathered_below(f, kids, cursor_byte(n0, from as int), start, prefix@, o0, out@),
                decreases more as int, 256 - cursor_byte(n0, from as int),
            {
                let ghost lo = cursor_byte(n0, from as int);
                match next_inner_child_from(n, from) {
                    None => {
                        more = false;
                    },
                    Some((byte, child, next)) => {
                        let ghost b = byte as int;
                        let ghost o1 = out@;
                        assert(kids[b] is Some);
                        proof {
                            assert forall|x: int| lo <= x < b implies kids[x] is None by {
                                assert(kid(n0, x) == 0);
                            }
                            lemma_leads_kid(f, g, t, p0, byte);
                            assert(start + r0.push(byte) =~= p0.push(byte));
                        }
                        scan_prefix_branch(frame, byte, child, path, prefix, out, Ghost(start), Ghost(f), Ghost(g), Ghost(kids[b]->0));
                        proof {
                            lemma_gathered_more(f, kids, lo, b, start, prefix@, o0, o1, out@);
                        }
                        from = next;
                    },
                }
            }
            proof {
                let lo = cursor_byte(n0, from as int);
                assert forall|x: int| lo <= x < 256 implies kids[x] is None by {
                    assert(kid(n0, x) == 0);
                }
                lemma_gathered_all(f, t, lo, start, prefix@, o0, out@);
            }
        },
        None => {},
    }
}

/// A blob node's child is reached by the node's path and bytes.
pub proof fn lemma_exit_base(f: Forest, g: BlobGuid, t: Art, path: Seq<u8>)
    requires
        f.linked(),
        f.has(g),
        leads(f, g, t, path),
        t is Blob,
    ensures
        f.base[t->guid] == path + t->Blob_bytes,
        forall|key: Seq<u8>| (path + t->Blob_bytes).is_prefix_of(key) ==> #[trigger] f.route(g, key) == (Route::Crossing {
            guid: t->guid,
            depth: (path + t->Blob_bytes).len() as int,
        }),
{
    let d = path.len() as int;
    let bytes = t->Blob_bytes;
    let below = path + bytes;
    assert forall|key: Seq<u8>| below.is_prefix_of(key) implies #[trigger] f.route(g, key) == (Route::Crossing { guid: t->guid, depth: below.len() as int }) by {
        lemma_longer_path(path, bytes, key);
        assert(step(t, key, d) == f.route(g, key));
    }
    assert(below.is_prefix_of(below)) by {
        assert(below.subrange(0, below.len() as int) =~= below);
    }
    assert(f.route(g, below) is Crossing);
    assert(f.below(g, below)) by {
        lemma_longer_base(f.base[g], path, bytes);
    }
    assert(f.edge_ok(g, below));
    assert(f.base[t->guid] =~= below);
}

/// What has been gathered below the first `n` subtrees.
spec fn gathered_below(f: Forest, kids: Seq<Option<Art>>, n: int, start: Seq<u8>, prefix: Seq<u8>, a: Seq<PrefixChild>, b: Seq<PrefixChild>) -> bool {
    adds(f, exits_below(kids, n), start, prefix, a, b)
}

proof fn lemma_gathered_more(
    f: Forest,
    kids: Seq<Option<Art>>,
    lo: int,
    b: int,
    start: Seq<u8>,
    prefix: Seq<u8>,
    o0: Seq<PrefixChild>,
    o1: Seq<PrefixChild>,
    o2: Seq<PrefixChild>,
)
    requires
        0 <= lo <= b < kids.len(),
        kids[b] is Some,
        forall|x: int| lo <= x < b ==> kids[x] is None,
        gathered_below(f, kids, lo, start, prefix, o0, o1),
        gathered(f, kids[b]->0, start, prefix, o1, o2),
    ensures
        gathered_below(f, kids, b + 1, start, prefix, o0, o2),
{
    lemma_exits_skip(kids, lo, b);
    let before = exits_below(kids, b);
    let last = exits(kids[b]->0);
    assert(exits_below(kids, b + 1) == before + last);
    lemma_needed_add(f, before, last, start + prefix);
    assert(o1 =~= o2.subrange(0, o1.len() as int));
    assert(o2.subrange(0, o0.len() as int) =~= o1.subrange(0, o0.len() as int));
    assert forall|i: int| 0 <= i < o1.len() implies #[trigger] o2[i] == o1[i] by {
        assert(o2[i] == o2.subrange(0, o1.len() as int)[i]);
    }
    let n1 = named(o1, o0.len() as int);
    let n2 = named(o2, o1.len() as int);
    assert(named(o2, o0.len() as int) =~= n1 + n2);
}

proof fn lemma_gathered_all(f: Forest, t: Art, lo: int, start: Seq<u8>, prefix: Seq<u8>, o0: Seq<PrefixChild>, o1: Seq<PrefixChild>)
    requires
        t is Inner,
        0 <= lo <= t->kids.len(),
        forall|x: int| lo <= x < t->kids.len() ==> t->kids[x] is None,
        gathered_below(f, t->kids, lo, start, prefix, o0, o1),
    ensures
        gathered(f, t, start, prefix, o0, o1),
{
    lemma_exits_skip(t->kids, lo, t->kids.len() as int);
}

/// Collects the children below the subtree that `byte` leads to.
fn scan_prefix_branch(
    frame: &BlobFrame,
    byte: u8,
    child: u16,
    path: &mut Vec<u8>,
    prefix: &[u8],
    out: &mut Vec<PrefixChild>,
    Ghost(start): Ghost<Seq<u8>>,
    Ghost(f): Ghost<Forest>,
    Ghost(g): Ghost<BlobGuid>,
    Ghost(t): Ghost<Art>,
)
    requires
        f.linked(),
        f.has(g),
        rep(frame.cells@, t),
        slot_of(t) == child,
        leads(f, g, t, start + old(path)@.push(byte)),
    ensures
        final(path)@ == old(path)@,
        gathered(f, t, start, prefix@, old(out)@, final(out)@),
    decreases t, 1int,
{
    let ghost o0 = out@;
    let ghost p0 = path@;
    path.push(byte);
    let ghost below = start + path@;
    match relation_from(path.as_slice(), prefix, Ghost(start)) {
        PrefixRelation::All => {
            collect_all_children(frame, child, out, Ghost(prefix@), Ghost(start), Ghost(f), Ghost(g), Ghost(t), Ghost(below));
        },
        PrefixRelation::Continue => {
            scan_prefix_subtree(frame, child, path, prefix, out, Ghost(start), Ghost(f), Ghost(g), Ghost(t));
        },
        PrefixRelation::Skip => {
            proof {
                lemma_gathered_none(f, g, frame.cells@, t, below, start, prefix@, o0);
            }
        },
    }
    path.pop();
    assert(path@ =~= p0);
}

/// Whether crossings lead from blob `g` to blob `c`.
pub open spec fn reaches(f: Forest, g: BlobGuid, c: BlobGuid) -> bool
    decreases f.rank[g],
{
    g == c || exists|x: BlobGuid| #[trigger] children(f, g).contains(x) && f.rank[x] < f.rank[g] && reaches(f, x, c)
}

/// Whether `all` lists blob `c`.
pub open spec fn listed(all: Seq<BlobTopologyEntry>, c: BlobGuid) -> bool {
    exists|i: int| 0 <= i < all.len() && (#[trigger] all[i]).guid == c
}

/// Whether no blob is listed twice.
pub open spec fn no_repeats(all: Seq<BlobTopologyEntry>) -> bool {
    forall|i: int, j: int| 0 <= i < j < all.len() ==> (#[trigger] all[i]).guid != (#[trigger] all[j]).guid
}

/// Whether the depths never go down.
pub open spec fn levelled(all: Seq<BlobTopologyEntry>) -> bool {
    forall|i: int, j: int| 0 <= i <= j < all.len() ==> (#[trigger] all[i]).depth <= (#[trigger] all[j]).depth
}

/// Whether entry `i` is one crossing below an entry before it.
pub open spec fn from_earlier(f: Forest, all: Seq<BlobTopologyEntry>, i: int) -> bool {
    exists|j: int| 0 <= j < i && children(f, (#[trigger] all[j]).guid).contains(all[i].guid) && all[i].depth == deeper(all[j].depth)
}

/// The blobs needed to read what goes on with a prefix below blob `root`:
/// those reached by bytes that some such key begins with, or that begin with
/// them, level by level, and in key order within a level.
pub open spec fn covers_prefix(f: Forest, root: BlobGuid, prefix: Seq<u8>, all: Seq<BlobTopologyEntry>) -> bool {
    &&& all.len() > 0
    &&& all[0] == (BlobTopologyEntry { guid: root, depth: 0 })
    &&& related_order(f, root, f.base[root] + prefix, all)
    &&& no_repeats(all)
    &&& levelled(all)
    &&& forall|i: int| 0 < i < all.len() ==> #[trigger] from_earlier(f, all, i)
    &&& forall|c: BlobGuid| #[trigger] listed(all, c) <==> reaches(f, root, c) && related(f.base[c], f.base[root] + prefix)
}

/// What a chain of crossings leads to is reached by longer bytes.
proof fn lemma_reaches_base(f: Forest, g: BlobGuid, c: BlobGuid)
    requires
        f.linked(),
        f.has(g),
        reaches(f, g, c),
    ensures
        f.has(c),
        f.base[g].is_prefix_of(f.base[c]),
    decreases f.rank[g],
{
    if g == c {
        assert(f.base[c].subrange(0, f.base[c].len() as int) =~= f.base[c]);
    } else {
        let x = choose|x: BlobGuid| #[trigger] children(f, g).contains(x) && f.rank[x] < f.rank[g] && reaches(f, x, c);
        lemma_children(f, g, x);
        lemma_reaches_base(f, x, c);
        assert(f.base[c].subrange(0, f.base[g].len() as int) =~= f.base[x].subrange(0, f.base[g].len() as int));
    }
}

/// A crossing more.
pub proof fn lemma_reaches_child(f: Forest, r: BlobGuid, g: BlobGuid, c: BlobGuid)
    requires
        f.linked(),
        f.has(r),
        reaches(f, r, g),
        children(f, g).contains(c),
    ensures
        reaches(f, r, c),
    decreases f.rank[r],
{
    if r == g {
        lemma_children(f, g, c);
        assert(reaches(f, c, c));
    } else {
        let x = choose|x: BlobGuid| #[trigger] children(f, r).contains(x) && f.rank[x] < f.rank[r] && reaches(f, x, g);
        lemma_children(f, r, x);
        lemma_reaches_child(f, x, g, c);
    }
}

/// A list closed under related children has all that is reached from it.
proof fn lemma_closed(f: Forest, all: Seq<BlobTopologyEntry>, prefix: Seq<u8>, g: BlobGuid, c: BlobGuid)
    requires
        f.linked(),
        f.has(g),
        listed(all, g),
        reaches(f, g, c),
        related(f.base[c], prefix),
        forall|h: BlobGuid, x: BlobGuid|
            listed(all, h) && #[trigger] children(f, h).contains(x) && related(f.base[x], prefix) ==> listed(all, x),
    ensures
        listed(all, c),
    decreases f.rank[g],
{
    if g != c {
        let x = choose|x: BlobGuid| #[trigger] children(f, g).contains(x) && f.rank[x] < f.rank[g] && reaches(f, x, c);
        lemma_children(f, g, x);
        lemma_reaches_base(f, x, c);
        lemma_related_below(f.base[x], f.base[c], prefix);
        assert(listed(all, x));
        lemma_closed(f, all, prefix, x, c);
    }
}

/// Blobs listed once are no more than there are blobs.
proof fn lemma_listed_count(bm: BufferManager, all: Seq<BlobTopologyEntry>)
    requires
        no_repeats(all),
        forall|i: int| 0 <= i < all.len() ==> bm.has((#[trigger] all[i]).guid),
    ensures
        all.len() <= bm.blobs@.len(),
{
    let names = Seq::new(all.len(), |i: int| all[i].guid);
    let present = Seq::new(bm.blobs@.len(), |i: int| bm.blobs@[i].guid);
    assert(names.no_duplicates());
    names.unique_seq_to_set();
    present.lemma_cardinality_of_set();
    assert forall|g: BlobGuid| #[trigger] names.to_set().contains(g) implies present.to_set().contains(g) by {
        let i = choose|i: int| 0 <= i < names.len() && names[i] == g;
        assert(bm.has(all[i].guid));
        let k = choose|k: int| #[trigger] is_at(bm.blobs@, k, g);
        assert(present[k] == g);
    }
    vstd::set_lib::lemma_len_subset(names.to_set(), present.to_set());
}

/// Whether `all` lists blob `guid`.
fn is_listed(all: &Vec<BlobTopologyEntry>, guid: &BlobGuid) -> (r: bool)
    ensures
        r == listed(all@, *guid),
{
    let mut i: usize = 0;
    while i < all.len()
        invariant
            i <= all@.len(),
            forall|j: int| 0 <= j < i ==> (#[trigger] all@[j]).guid != *guid,
        decreases all@.len() - i,
    {
        if guid_eq(&all[i].guid, guid) {
            return true;
        }
        i = i + 1;
    }
    false
}

fn copy_mode(mode: &PrefixQueueMode) -> (r: PrefixQueueMode)
    ensures
        forall|base: Seq<u8>, start: Seq<u8>, prefix: Seq<u8>| mode_ok(*mode, base, start, prefix) ==> mode_ok(r, base, start, prefix),
{
    match mode {
        PrefixQueueMode::All => PrefixQueueMode::All,
        PrefixQueueMode::Match { path } => PrefixQueueMode::Match { path: copy_bytes(path.as_slice()) },
    }
}

/// Whether `q` is what is left to do for the blobs in `all`.
spec fn queued(f: Forest, start: Seq<u8>, prefix: Seq<u8>, all: Seq<BlobTopologyEntry>, q: Seq<PrefixQueueEntry>) -> bool {
    &&& q.len() == all.len()
    &&& forall|i: int|
        0 <= i < q.len() ==> (#[trigger] q[i]).guid == all[i].guid && q[i].depth == all[i].depth && mode_ok(q[i].mode, f.base[q[i].guid], start, prefix)
}

/// The children of `e` that may hold keys with `p`, one crossing further down.
pub open spec fn related_below(f: Forest, e: BlobTopologyEntry, p: Seq<u8>) -> Seq<BlobTopologyEntry> {
    let es = needed(f, children(f, e.guid), p);
    Seq::new(es.len(), |i: int| BlobTopologyEntry { guid: es[i], depth: deeper(e.depth) })
}

/// The children of the first `n` of `all` that may hold keys with `p`, in
/// order.
pub open spec fn spread_related(f: Forest, all: Seq<BlobTopologyEntry>, n: int, p: Seq<u8>) -> Seq<BlobTopologyEntry>
    decreases n,
{
    if n <= 0 {
        Seq::empty()
    } else {
        spread_related(f, all, n - 1, p) + related_below(f, all[n - 1], p)
    }
}

/// Breadth-first order of what may hold keys with `p`: the root, then such
/// children of every listed blob in the order of the list.
pub open spec fn related_order(f: Forest, root: BlobGuid, p: Seq<u8>, all: Seq<BlobTopologyEntry>) -> bool {
    &&& all == seq![BlobTopologyEntry { guid: root, depth: 0 }] + spread_related(f, all, all.len() as int, p)
    &&& forall|i: int| 0 <= i < all.len() ==> f.has((#[trigger] all[i]).guid)
}

pub proof fn lemma_spread_related_same(f: Forest, a: Seq<BlobTopologyEntry>, b: Seq<BlobTopologyEntry>, n: int, p: Seq<u8>)
    requires
        forall|i: int| 0 <= i < n ==> a[i] == b[i],
    ensures
        spread_related(f, a, n, p) == spread_related(f, b, n, p),
    decreases n,
{
    if n > 0 {
        lemma_spread_related_same(f, a, b, n - 1, p);
    }
}

/// What is spread comes from one of the entries.
pub proof fn lemma_spread_from(f: Forest, all: Seq<BlobTopologyEntry>, m: int, n: int, p: Seq<u8>, k: int) -> (j: int)
    requires
        0 <= m <= n <= all.len(),
        spread_related(f, all, m, p).len() <= k < spread_related(f, all, n, p).len(),
    ensures
        m <= j < n,
        spread_related(f, all, j, p).len() <= k < spread_related(f, all, j + 1, p).len(),
        spread_related(f, all, n, p)[k] == related_below(f, all[j], p)[k - spread_related(f, all, j, p).len()],
        children(f, all[j].guid).contains(spread_related(f, all, n, p)[k].guid),
        spread_related(f, all, n, p)[k].depth == deeper(all[j].depth),
    decreases n,
{
    let c = spread_related(f, all, n - 1, p);
    if k < c.len() {
        assert(spread_related(f, all, n, p)[k] == c[k]);
        lemma_spread_from(f, all, m, n - 1, p, k)
    } else {
        let es = needed(f, children(f, all[n - 1].guid), p);
        let x = spread_related(f, all, n, p)[k];
        assert(x == related_below(f, all[n - 1], p)[k - c.len()]);
        assert(es[k - c.len()] == x.guid);
        assert(es.contains(x.guid));
        lemma_needed(f, children(f, all[n - 1].guid), p, x.guid);
        n - 1
    }
}

/// A child is where every key that begins with its bytes crosses to.
pub proof fn lemma_exit_route(f: Forest, g: BlobGuid, c: Seq<Option<Node>>, t: Art, path: Seq<u8>, x: BlobGuid)
    requires
        f.linked(),
        f.has(g),
        rep(c, t),
        leads(f, g, t, path),
        exits(t).contains(x),
    ensures
        forall|key: Seq<u8>| f.base[x].is_prefix_of(key) ==> #[trigger] f.route(g, key) == (Route::Crossing {
            guid: x,
            depth: f.base[x].len() as int,
        }),
    decreases t,
{
    match t {
        Art::Blob { .. } => {
            lemma_exit_base(f, g, t, path);
        },
        Art::Prefix { bytes, child, .. } => {
            lemma_leads_prefix(f, g, t, path);
            lemma_exit_route(f, g, c, *child, path + bytes, x);
        },
        Art::Inner { kids, .. } => {
            lemma_exit_kid(kids, 256, x);
            let b = choose|b: int| 0 <= b < 256 && (#[trigger] kids[b]) is Some && exits(kids[b]->0).contains(x);
            lemma_leads_kid(f, g, t, path, b as u8);
            assert(rep(c, kids[b]->0));
            lemma_exit_route(f, g, c, kids[b]->0, path.push(b as u8), x);
        },
        _ => {},
    }
}

/// No tree leads to a blob twice.
proof fn lemma_exits_distinct(f: Forest, g: BlobGuid, c: Seq<Option<Node>>, t: Art, path: Seq<u8>)
    requires
        f.linked(),
        f.has(g),
        rep(c, t),
        leads(f, g, t, path),
    ensures
        exits(t).no_duplicates(),
    decreases t, (if t is Inner { t->kids.len() + 1 } else { 0 }),
{
    match t {
        Art::Prefix { bytes, child, .. } => {
            lemma_leads_prefix(f, g, t, path);
            lemma_exits_distinct(f, g, c, *child, path + bytes);
        },
        Art::Inner { kids, .. } => {
            lemma_exits_distinct_below(f, g, c, t, path, kids.len() as int);
        },
        _ => {},
    }
}

proof fn lemma_exits_distinct_below(f: Forest, g: BlobGuid, c: Seq<Option<Node>>, t: Art, path: Seq<u8>, n: int)
    requires
        f.linked(),
        f.has(g),
        rep(c, t),
        leads(f, g, t, path),
        t is Inner,
        0 <= n <= t->kids.len(),
    ensures
        exits_below(t->kids, n).no_duplicates(),
    decreases t, n,
{
    let kids = t->kids;
    if n > 0 {
        lemma_exits_distinct_below(f, g, c, t, path, n - 1);
        let before = exits_below(kids, n - 1);
        if let Some(k) = kids[n - 1] {
            let last = exits(k);
            lemma_leads_kid(f, g, t, path, (n - 1) as u8);
            assert(rep(c, k));
            lemma_exits_distinct(f, g, c, k, path.push((n - 1) as u8));
            assert forall|i: int, j: int| 0 <= i < before.len() && 0 <= j < last.len() implies before[i] != last[j] by {
                if before[i] == last[j] {
                    let x = before[i];
                    assert(before.contains(x) && last.contains(x));
                    lemma_exit_kid(kids, n - 1, x);
                    let b = choose|b: int| 0 <= b < n - 1 && (#[trigger] kids[b]) is Some && exits(kids[b]->0).contains(x);
                    lemma_leads_kid(f, g, t, path, b as u8);
                    assert(rep(c, kids[b]->0));
                    lemma_exit_child(f, g, c, kids[b]->0, path.push(b as u8), x);
                    lemma_exit_child(f, g, c, k, path.push((n - 1) as u8), x);
                    let d = path.len() as int;
                    assert(f.base[x].subrange(0, d + 1)[d] == path.push(b as u8)[d]);
                    assert(f.base[x].subrange(0, d + 1)[d] == path.push((n - 1) as u8)[d]);
                }
            }
            assert((before + last).no_duplicates());
        } else {
            assert(exits_below(kids, n) =~= before);
        }
    }
}

/// No blob has a child twice.
pub proof fn lemma_children_distinct(f: Forest, g: BlobGuid)
    requires
        f.linked(),
        f.has(g),
    ensures
        children(f, g).no_duplicates(),
{
    lemma_leads_root(f, g);
    assert(f.blobs[g].wf(f.base[g]));
    lemma_exits_distinct(f, g, f.blobs[g].cells@, f.blobs[g].tree(), f.base[g]);
}

/// What is needed of a list without repeats has none.
pub proof fn lemma_needed_distinct(f: Forest, es: Seq<BlobGuid>, p: Seq<u8>)
    requires
        es.no_duplicates(),
    ensures
        needed(f, es, p).no_duplicates(),
    decreases es.len(),
{
    if es.len() > 0 {
        let rest = es.drop_last();
        lemma_needed_distinct(f, rest, p);
        lemma_needed(f, rest, p, es.last());
        assert(!rest.contains(es.last())) by {
            if rest.contains(es.last()) {
                let k = choose|k: int| 0 <= k < rest.len() && rest[k] == es.last();
                assert(es[k] == es[es.len() - 1]);
            }
        }
        let n = needed(f, rest, p);
        assert forall|i: int| 0 <= i < n.len() implies n[i] != es.last() by {
            if n[i] == es.last() {
                assert(n.contains(es.last()));
            }
        }
    }
}

/// Crossings lead down.
pub proof fn lemma_reaches_rank(f: Forest, g: BlobGuid, c: BlobGuid)
    requires
        reaches(f, g, c),
    ensures
        f.rank[c] <= f.rank[g],
    decreases f.rank[g],
{
    if g != c {
        let x = choose|x: BlobGuid| #[trigger] children(f, g).contains(x) && f.rank[x] < f.rank[g] && reaches(f, x, c);
        lemma_reaches_rank(f, x, c);
    }
}

/// Where a key that begins with a child's bytes crosses to.
proof fn lemma_child_route(f: Forest, g: BlobGuid, x: BlobGuid, key: Seq<u8>)
    requires
        f.linked(),
        f.has(g),
        children(f, g).contains(x),
        f.base[x].is_prefix_of(key),
    ensures
        f.route(g, key) == (Route::Crossing { guid: x, depth: f.base[x].len() as int }),
{
    lemma_leads_root(f, g);
    assert(f.blobs[g].wf(f.base[g]));
    lemma_exit_route(f, g, f.blobs[g].cells@, f.blobs[g].tree(), f.base[g], x);
}

/// A blob is reached in one way: what is reached from `r` and has it as a
/// child is one blob.
pub proof fn lemma_one_parent(f: Forest, r: BlobGuid, g: BlobGuid, h: BlobGuid, c: BlobGuid)
    requires
        f.linked(),
        f.has(r),
        reaches(f, r, g),
        reaches(f, r, h),
        children(f, g).contains(c),
        children(f, h).contains(c),
    ensures
        g == h,
    decreases f.rank[r],
{
    let key = f.base[c];
    lemma_reaches_base(f, r, g);
    lemma_reaches_base(f, r, h);
    lemma_children(f, g, c);
    lemma_children(f, h, c);
    assert(key.is_prefix_of(key)) by {
        assert(key.subrange(0, key.len() as int) =~= key);
    }
    if r == g && r != h {
        let y = choose|y: BlobGuid| #[trigger] children(f, r).contains(y) && f.rank[y] < f.rank[r] && reaches(f, y, h);
        lemma_way_through(f, r, y, h, c);
        lemma_child_route(f, r, c, key);
        lemma_reaches_rank(f, y, h);
    } else if r == h && r != g {
        let x = choose|x: BlobGuid| #[trigger] children(f, r).contains(x) && f.rank[x] < f.rank[r] && reaches(f, x, g);
        lemma_way_through(f, r, x, g, c);
        lemma_child_route(f, r, c, key);
        lemma_reaches_rank(f, x, g);
    } else if r != g && r != h {
        let x = choose|x: BlobGuid| #[trigger] children(f, r).contains(x) && f.rank[x] < f.rank[r] && reaches(f, x, g);
        let y = choose|y: BlobGuid| #[trigger] children(f, r).contains(y) && f.rank[y] < f.rank[r] && reaches(f, y, h);
        lemma_way_through(f, r, x, g, c);
        lemma_way_through(f, r, y, h, c);
        lemma_one_parent(f, x, g, h, c);
    }
}

/// The bytes of a blob lead from `r` to the child of `r` that it is below.
proof fn lemma_way_through(f: Forest, r: BlobGuid, x: BlobGuid, g: BlobGuid, c: BlobGuid)
    requires
        f.linked(),
        f.has(r),
        children(f, r).contains(x),
        reaches(f, x, g),
        children(f, g).contains(c),
    ensures
        f.has(x),
        f.route(r, f.base[c]) == (Route::Crossing { guid: x, depth: f.base[x].len() as int }),
{
    lemma_children(f, r, x);
    lemma_reaches_base(f, x, g);
    lemma_children(f, g, c);
    assert(f.base[x].is_prefix_of(f.base[c])) by {
        assert(f.base[c].subrange(0, f.base[x].len() as int) =~= f.base[g].subrange(0, f.base[x].len() as int));
    }
    lemma_child_route(f, r, x, f.base[c]);
}

/// A child about to be listed is not listed yet.
proof fn lemma_not_listed(f: Forest, root: BlobGuid, all0: Seq<BlobTopologyEntry>, head: int, p: Seq<u8>, i: int, was: Seq<BlobTopologyEntry>)
    requires
        f.linked(),
        f.has(root),
        0 <= head < all0.len(),
        all0 == seq![BlobTopologyEntry { guid: root, depth: 0 }] + spread_related(f, all0, head, p),
        no_repeats(all0),
        forall|k: int| 0 <= k < all0.len() ==> f.has((#[trigger] all0[k]).guid) && reaches(f, root, all0[k].guid),
        0 <= i < related_below(f, all0[head], p).len(),
        was == all0 + related_below(f, all0[head], p).take(i),
    ensures
        !listed(was, related_below(f, all0[head], p)[i].guid),
{
    let g = all0[head].guid;
    let below = related_below(f, all0[head], p);
    let es = needed(f, children(f, g), p);
    let c = below[i].guid;
    assert(es[i] == c);
    assert(es.contains(c));
    lemma_needed(f, children(f, g), p, c);
    lemma_children(f, g, c);
    if listed(was, c) {
        let k = choose|k: int| 0 <= k < was.len() && (#[trigger] was[k]).guid == c;
        if k >= all0.len() {
            assert(was[k] == below[k - all0.len()]);
            lemma_children_distinct(f, g);
            lemma_needed_distinct(f, children(f, g), p);
            assert(es[k - all0.len()] == es[i]);
        } else if k == 0 {
            assert(was[0] == all0[0]);
            assert(all0[0].guid == root);
            lemma_reaches_rank(f, root, g);
        } else {
            assert(was[k] == all0[k]);
            assert(all0[k] == spread_related(f, all0, head, p)[k - 1]);
            let j = lemma_spread_from(f, all0, 0, head, p, k - 1);
            lemma_one_parent(f, root, all0[j].guid, g, c);
            assert(all0[j].guid == all0[head].guid);
        }
    }
}

/// Whether what `all` lists is to be listed, and follows from what stands
/// before it.
spec fn justified(f: Forest, root: BlobGuid, prefix: Seq<u8>, all: Seq<BlobTopologyEntry>) -> bool {
    &&& all.len() > 0
    &&& all[0] == (BlobTopologyEntry { guid: root, depth: 0 })
    &&& no_repeats(all)
    &&& levelled(all)
    &&& forall|i: int| 0 < i < all.len() ==> #[trigger] from_earlier(f, all, i)
    &&& forall|i: int|
        0 <= i < all.len() ==> f.has((#[trigger] all[i]).guid) && reaches(f, root, all[i].guid) && related(f.base[all[i].guid], f.base[root] + prefix)
}

/// The blobs needed to read the keys that go on with `prefix` below blob
/// `root`, in breadth-first order. That blob is always among them.
#[verifier::rlimit(60)]
pub fn collect_prefix_blob_topology_silent(bm: &BufferManager, root: BlobGuid, prefix: &[u8]) -> (r: Result<Vec<BlobTopologyEntry>>)
    requires
        bm.wf(),
    ensures
        match r {
            Ok(all) => {
                &&& bm.has(root)
                &&& if prefix@.len() == 0 {
                    level_order(bm.forest(), root, all@)
                } else {
                    covers_prefix(bm.forest(), root, prefix@, all@)
                }
                &&& no_repeats(all@)
                &&& levelled(all@)
            },
            Err(e) => !bm.has(root) && e == (Error::BlobNotFound { guid: root }),
        },
{
    if prefix.len() == 0 {
        return collect_blob_topology_silent(bm, root);
    }
    let ghost f = bm.forest();
    match bm.pin(root) {
        Ok(_) => {},
        Err(e) => {
            return Err(e);
        },
    }
    let ghost start = f.base[root];
    let mut all = root_entry(root);
    let mut queue: Vec<PrefixQueueEntry> = Vec::new();
    queue.push(PrefixQueueEntry { guid: root, depth: 0, mode: PrefixQueueMode::Match { path: Vec::new() } });
    proof {
        assert(start + Seq::<u8>::empty() =~= start);
        assert((start + prefix@).subrange(0, start.len() as int) =~= start);
        assert(reaches(f, root, root));
    }
    let ghost first = all@;
    let ghost p = start + prefix@;
    let mut head: usize = 0;
    assert(all@ =~= first + spread_related(f, all@, 0, p));
    while head < queue.len()
        invariant
            bm.wf(),
            f == bm.forest(),
            f.has(root),
            start == f.base[root],
            head < all@.len() ==> all@.last().depth <= deeper(all@[head as int].depth),
            head <= all@.len() <= bm.blobs@.len(),
            queued(f, start, prefix@, all@, queue@),
            justified(f, root, prefix@, all@),
            p == start + prefix@,
            first == seq![BlobTopologyEntry { guid: root, depth: 0 }],
            all@ == first + spread_related(f, all@, head as int, p),
            forall|i: int, x: BlobGuid|
                0 <= i < head && #[trigger] children(f, all@[i].guid).contains(x) && related(f.base[x], start + prefix@) ==> listed(all@, x),
        decreases bm.blobs@.len() - head,
    {
        let ghost all0 = all@;
        let ghost g = all@[head as int].guid;
        assert(queue@[head as int].guid == g);
        let at_ = match bm.pin(queue[head].guid) {
            Ok(i) => i,
            Err(e) => {
                assert(false);
                return Err(e);
            },
        };
        assert(f.has(g));
        assert(f.blobs[g].wf(f.base[g]));
        proof {
            crate::frame::lemma_tree_at(f.blobs[g].cells@, f.blobs[g].tree());
            lemma_leads_root(f, g);
        }
        let frame = &bm.blobs[at_].frame;
        let ghost t = f.blobs[g].tree();
        let mut found: Vec<PrefixChild> = Vec::new();
        match &queue[head].mode {
            PrefixQueueMode::All => {
                collect_all_children(frame, frame.header.root_slot, &mut found, Ghost(prefix@), Ghost(start), Ghost(f), Ghost(g), Ghost(t), Ghost(f.base[g]));
            },
            PrefixQueueMode::Match { path } => {
                let mut path = copy_bytes(path.as_slice());
                scan_prefix_subtree(frame, frame.header.root_slot, &mut path, prefix, &mut found, Ghost(start), Ghost(f), Ghost(g), Ghost(t));
            },
        }
        let depth = queue[head].depth.saturating_add(1);
        assert(gathered(f, t, start, prefix@, Seq::empty(), found@));
        assert(depth == deeper(all0[head as int].depth));
        let ghost all_found = found@;
        let ghost below = related_below(f, all0[head as int], p);
        proof {
            assert(below.len() == all_found.len() && forall|i: int| 0 <= i < below.len() ==> (#[trigger] below[i]).guid == all_found[i].guid) by {
                assert(named(all_found, 0) == needed(f, children(f, g), p));
                assert forall|i: int| 0 <= i < below.len() implies (#[trigger] below[i]).guid == all_found[i].guid by {
                    assert(named(all_found, 0)[i] == all_found[i].guid);
                }
            }
            assert(all0 + below.take(0) =~= all0);
            lemma_gathered(f, t, start, prefix@, Seq::empty(), found@);
            assert forall|i: int| 0 <= i < all_found.len() implies children(f, g).contains((#[trigger] all_found[i]).guid) && mode_ok(
                all_found[i].mode,
                f.base[all_found[i].guid],
                start,
                prefix@,
            ) by {}
        }
        let mut i: usize = 0;
        while i < found.len()
            invariant
                bm.wf(),
                f == bm.forest(),
                f.has(root),
                start == f.base[root],
                f.has(g),
                head < all0.len(),
                all@.last().depth <= depth,
                all0.is_prefix_of(all@),
                all0[head as int].guid == g,
                depth == deeper(all0[head as int].depth),
                reaches(f, root, g),
                all@.len() <= bm.blobs@.len(),
                queued(f, start, prefix@, all@, queue@),
                justified(f, root, prefix@, all@),
                i <= found@.len(),
                found@ == all_found,
                p == start + prefix@,
                first == seq![BlobTopologyEntry { guid: root, depth: 0 }],
                all0 == first + spread_related(f, all0, head as int, p),
                no_repeats(all0),
                forall|k: int| 0 <= k < all0.len() ==> f.has((#[trigger] all0[k]).guid) && reaches(f, root, all0[k].guid),
                below == related_below(f, all0[head as int], p),
                below.len() == all_found.len(),
                forall|k: int| 0 <= k < below.len() ==> (#[trigger] below[k]).guid == all_found[k].guid,
                all@ == all0 + below.take(i as int),
                forall|k: int|
                    0 <= k < all_found.len() ==> children(f, g).contains((#[trigger] all_found[k]).guid) && mode_ok(
                        all_found[k].mode,
                        f.base[all_found[k].guid],
                        start,
                        prefix@,
                    ),
                forall|k: int| 0 <= k < i ==> listed(all@, (#[trigger] all_found[k]).guid),
            decreases found@.len() - i,
        {
            let ghost was = all@;
            let child = &found[i];
            assert(*child == all_found[i as int]);
            proof {
                lemma_not_listed(f, root, all0, head as int, p, i as int, was);
                assert(below[i as int].guid == child.guid);
            }
            if !is_listed(&all, &child.guid) {
                all.push(BlobTopologyEntry { guid: child.guid, depth });
                queue.push(PrefixQueueEntry { guid: child.guid, depth, mode: copy_mode(&child.mode) });
                proof {
                    lemma_children(f, g, child.guid);
                    lemma_reaches_child(f, root, g, child.guid);
                    let n = was.len() as int;
                    assert(all@[n].guid == child.guid);
                    assert(all@.subrange(0, all0.len() as int) =~= was.subrange(0, all0.len() as int));
                    assert(all0[head as int] == was.subrange(0, all0.len() as int)[head as int]);
                    assert(all@[head as int].guid == g);
                    assert(from_earlier(f, all@, n));
                    assert forall|k: int| 0 < k < all@.len() implies #[trigger] from_earlier(f, all@, k) by {
                        if k < n {
                            assert(from_earlier(f, was, k));
                            let j = choose|j: int|
                                0 <= j < k && children(f, (#[trigger] was[j]).guid).contains(was[k].guid) && was[k].depth == deeper(was[j].depth);
                            assert(all@[j] == was[j]);
                        }
                    }
                    assert forall|a: int, b: int| 0 <= a < b < all@.len() implies (#[trigger] all@[a]).guid != (#[trigger] all@[b]).guid by {
                        if b == n {
                            assert(was[a].guid != child.guid);
                        }
                    }
                    assert forall|k: int| 0 <= k < i implies listed(all@, (#[trigger] all_found[k]).guid) by {
                        let j = choose|j: int| 0 <= j < was.len() && (#[trigger] was[j]).guid == all_found[k].guid;
                        assert(all@[j].guid == all_found[k].guid);
                    }
                    assert(levelled(all@)) by {
                        assert forall|a: int, b: int| 0 <= a <= b < all@.len() implies (#[trigger] all@[a]).depth <= (#[trigger] all@[b]).depth by {
                            if b == n && a < n {
                                assert(was[a].depth <= was[n - 1].depth);
                            }
                        }
                    }
                    assert(justified(f, root, prefix@, all@));
                    lemma_listed_count(*bm, all@);
                    assert(all@ =~= all0 + below.take(i + 1));
                }
            }
            assert(listed(all@, all_found[i as int].guid));
            i = i + 1;
        }
        proof {
            assert forall|k: int, x: BlobGuid|
                0 <= k < head + 1 && #[trigger] children(f, all@[k].guid).contains(x) && related(f.base[x], start + prefix@) implies listed(all@, x) by {
                assert(all0[k] == all@.subrange(0, all0.len() as int)[k]);
                if k == head {
                    assert(exits(t).contains(x));
                    assert(lists(all_found, 0, x));
                    let m = choose|m: int| 0 <= m < all_found.len() && (#[trigger] all_found[m]).guid == x;
                    assert(listed(all@, all_found[m].guid));
                } else {
                    assert(children(f, all0[k].guid).contains(x));
                    assert(listed(all0, x));
                    let m = choose|m: int| 0 <= m < all0.len() && (#[trigger] all0[m]).guid == x;
                    assert(all0[m] == all@.subrange(0, all0.len() as int)[m]);
                    assert(all@[m].guid == x);
                }
            }
        }
        proof {
            assert(below.take(below.len() as int) =~= below);
            assert(all@ =~= all0 + below);
            lemma_spread_related_same(f, all0, all@, head as int, p);
            assert(all@ =~= first + spread_related(f, all@, head + 1, p));
            assert(all0[head as int] == all@.subrange(0, all0.len() as int)[head as int]);
            if head + 1 < all@.len() {
                assert(all@[head as int].depth <= all@[head + 1].depth);
            }
        }
        head = head + 1;
    }
    proof {
        assert forall|h: BlobGuid, x: BlobGuid|
            listed(all@, h) && #[trigger] children(f, h).contains(x) && related(f.base[x], start + prefix@) implies listed(all@, x) by {
            let k = choose|k: int| 0 <= k < all@.len() && (#[trigger] all@[k]).guid == h;
            assert(children(f, all@[k].guid).contains(x));
        }
        assert(all@[0].guid == root);
        assert(listed(all@, root));
        assert forall|c: BlobGuid| #[trigger] listed(all@, c) <==> reaches(f, root, c) && related(f.base[c], start + prefix@) by {
            if reaches(f, root, c) && related(f.base[c], start + prefix@) {
                lemma_closed(f, all@, start + prefix@, root, c);
            }
            if listed(all@, c) {
                let k = choose|k: int| 0 <= k < all@.len() && (#[trigger] all@[k]).guid == c;
            }
        }
    }
    Ok(all)
}

} // verus!
