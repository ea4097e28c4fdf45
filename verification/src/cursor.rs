//! A position in the leaves of a tree of blobs.
//!
//! A cursor is a stack of nodes from the root down to where the scan stands.
//! Each entry remembers which of its node's children are still to come. What
//! is still to come, at any entry, comes after what the path has passed.
use vstd::prelude::*;

use crate::art::{at, keyed, rep, slot_of, step, Art, Route};
use crate::forest::Forest;
use crate::insert::has_leaf;
use crate::key::matches_at;
use crate::layout::{guid_eq, BlobGuid, Node};
use crate::merge::{leads, lemma_matched_path};
use crate::node::{cursor_byte, kid};
use crate::order::{agree, lemma_prefix_agree, past, rises_at};
use crate::route::is_root;
use crate::scan::{lemma_exit_base, lemma_leads_kid, lemma_leads_prefix, lemma_leads_root};
use crate::store::{is_at, lemma_map_at, newer, versioned, BufferManager};

verus! {

/// A node on the way to where a scan stands.
pub struct Frame {
    /// The blob's entry in the store.
    pub at: usize,
    pub guid: BlobGuid,
    pub slot: u16,
    /// The blob's version when the node was entered.
    pub version: u64,
    /// Which of the node's children come next.
    pub next: u16,
    /// How many bytes of the path lead to the node.
    pub depth: usize,
    pub tree: Ghost<Art>,
}

/// Where a scan stands.
pub struct Cursor {
    pub stack: Vec<Frame>,
    pub path: Vec<u8>,
}

/// The node that a frame stands at.
pub open spec fn node_of(bm: BufferManager, fr: Frame) -> Node {
    at(bm.blobs@[fr.at as int].frame.cells@, slot_of(fr.tree@))->0
}

/// The first byte whose subtree is still to come.
pub open spec fn next_byte(bm: BufferManager, fr: Frame) -> int {
    cursor_byte(node_of(bm, fr), fr.next as int)
}

/// Whether `fr` stands at a node of its blob that `path` leads to.
pub open spec fn stands(bm: BufferManager, fr: Frame, path: Seq<u8>) -> bool {
    &&& is_at(bm.blobs@, fr.at as int, fr.guid)
    &&& bm.has(fr.guid)
    &&& bm.blobs@[fr.at as int].version == fr.version
    &&& rep(bm.blobs@[fr.at as int].frame.cells@, fr.tree@)
    &&& slot_of(fr.tree@) == fr.slot
    &&& keyed(fr.tree@, path)
    &&& leads(bm.forest(), fr.guid, fr.tree@, path)
    &&& same_leaves(bm.forest(), fr.guid, fr.tree@, path)
    &&& fr.depth == path.len()
    &&& if fr.tree@ is Inner {
        0 <= next_byte(bm, fr) <= 256
    } else {
        fr.next <= 1
    }
}

/// Whether `b`, reached by `path`, was entered from `a`.
pub open spec fn entered(bm: BufferManager, a: Frame, b: Frame, path: Seq<u8>) -> bool {
    match a.tree@ {
        Art::Inner { .. } => b.guid == a.guid && b.depth == a.depth + 1 && next_byte(bm, a) == path[a.depth as int] + 1,
        Art::Prefix { bytes, .. } => {
            &&& b.guid == a.guid
            &&& b.depth == a.depth + bytes.len()
            &&& path.subrange(a.depth as int, b.depth as int) == bytes
            &&& a.next != 0
        },
        Art::Blob { bytes, guid, .. } => {
            &&& b.guid == guid
            &&& b.depth == a.depth + bytes.len()
            &&& path.subrange(a.depth as int, b.depth as int) == bytes
            &&& a.next != 0
        },
        _ => false,
    }
}

/// Whether key `s` goes where `fr` has not been yet.
pub open spec fn ahead(bm: BufferManager, fr: Frame, s: Seq<u8>) -> bool {
    if fr.tree@ is Inner {
        fr.depth < s.len() && s[fr.depth as int] >= next_byte(bm, fr)
    } else {
        fr.next == 0
    }
}

/// Whether key `s` has a live record below `root`.
pub open spec fn live(f: Forest, root: BlobGuid, s: Seq<u8>) -> bool {
    f.find(root, s) is Found
}

/// Whether the leaf of key `s` is there below blob `g`, deleted or not.
pub open spec fn stored(f: Forest, g: BlobGuid, s: Seq<u8>) -> bool
    decreases f.rank[g],
{
    match f.route(g, s) {
        Route::Crossing { guid: c, .. } => f.rank[c] < f.rank[g] && stored(f, c, s),
        _ => has_leaf(f.blobs[g].tree(), s, f.base[g].len() as int),
    }
}

/// Whether `t` has the leaves of blob `g` for keys that begin with `path`.
pub open spec fn same_leaves(f: Forest, g: BlobGuid, t: Art, path: Seq<u8>) -> bool {
    forall|key: Seq<u8>|
        path.is_prefix_of(key) ==> #[trigger] has_leaf(t, key, path.len() as int) == has_leaf(f.blobs[g].tree(), key, f.base[g].len() as int)
}

/// Whether `t` leads key `s` on from depth `d`: to its leaf, deleted or not, or
/// into another blob.
pub open spec fn leads_to(t: Art, s: Seq<u8>, d: int) -> bool {
    has_leaf(t, s, d) || step(t, s, d) is Crossing
}

proof fn lemma_leaves_prefix(f: Forest, g: BlobGuid, t: Art, path: Seq<u8>)
    requires
        same_leaves(f, g, t, path),
        t is Prefix,
    ensures
        same_leaves(f, g, *t->child, path + t->Prefix_bytes),
{
    let bytes = t->Prefix_bytes;
    let below = path + bytes;
    assert forall|key: Seq<u8>| below.is_prefix_of(key) implies #[trigger] has_leaf(*t->child, key, below.len() as int) == has_leaf(
        f.blobs[g].tree(),
        key,
        f.base[g].len() as int,
    ) by {
        crate::merge::lemma_longer_path(path, bytes, key);
        assert(has_leaf(t, key, path.len() as int) == has_leaf(*t->child, key, (path.len() + bytes.len()) as int));
    }
}

proof fn lemma_leaves_kid(f: Forest, g: BlobGuid, t: Art, path: Seq<u8>, byte: u8)
    requires
        same_leaves(f, g, t, path),
        t is Inner,
        t->kids.len() == 256,
        t->kids[byte as int] is Some,
    ensures
        same_leaves(f, g, t->kids[byte as int]->0, path.push(byte)),
{
    let below = path.push(byte);
    let d = path.len() as int;
    assert(below =~= path + seq![byte]);
    assert forall|key: Seq<u8>| below.is_prefix_of(key) implies #[trigger] has_leaf(t->kids[byte as int]->0, key, below.len() as int) == has_leaf(
        f.blobs[g].tree(),
        key,
        f.base[g].len() as int,
    ) by {
        crate::merge::lemma_longer_path(path, seq![byte], key);
        assert(key.subrange(d, d + 1)[0] == byte);
        assert(has_leaf(t, key, d) == has_leaf(t->kids[byte as int]->0, key, d + 1));
    }
}

/// A record that is found has a leaf.
proof fn lemma_found_leaf(t: Art, s: Seq<u8>, d: int)
    requires
        step(t, s, d) is Found,
    ensures
        has_leaf(t, s, d),
    decreases t,
{
    match t {
        Art::Prefix { bytes, child, .. } => lemma_found_leaf(*child, s, d + bytes.len()),
        Art::Inner { kids, .. } => lemma_found_leaf(kids[s[d] as int]->0, s, d + 1),
        _ => {},
    }
}

/// A live key is stored.
pub proof fn lemma_live_stored(f: Forest, g: BlobGuid, s: Seq<u8>)
    requires
        live(f, g, s),
    ensures
        stored(f, g, s),
    decreases f.rank[g],
{
    match f.route(g, s) {
        Route::Crossing { guid: c, .. } => {
            if f.rank[c] < f.rank[g] {
                lemma_live_stored(f, c, s);
            }
        },
        _ => {
            lemma_found_leaf(f.blobs[g].tree(), s, f.base[g].len() as int);
        },
    }
}

impl Cursor {
    /// The bytes that lead to entry `j`.
    pub open spec fn path_to(&self, j: int) -> Seq<u8> {
        self.path@.take(self.stack@[j].depth as int)
    }

    /// Whether the cursor is a way down from `root`.
    pub open spec fn fits(&self, bm: BufferManager, root: BlobGuid) -> bool {
        let n = self.stack@.len();
        &&& n > 0 ==> self.stack@[0].guid == root && self.stack@[0].depth == 0 && self.stack@[n - 1].depth == self.path@.len()
        &&& n == 0 ==> self.path@.len() == 0
        &&& forall|j: int| 0 <= j < n ==> #[trigger] self.stands_at(bm, j)
        &&& forall|j: int| 0 <= j < n - 1 ==> #[trigger] self.goes_down(bm, j)
    }

    /// Whether entry `j` stands at the node that its part of the path leads
    /// to.
    pub open spec fn stands_at(&self, bm: BufferManager, j: int) -> bool {
        self.stack@[j].depth <= self.path@.len() && stands(bm, self.stack@[j], self.path_to(j))
    }

    /// Whether the entry after entry `j` was entered from it.
    pub open spec fn goes_down(&self, bm: BufferManager, j: int) -> bool {
        entered(bm, self.stack@[j], self.stack@[j + 1], self.path_to(j + 1))
    }

    /// Whether key `s` is still to come at entry `j`.
    pub open spec fn comes_at(&self, bm: BufferManager, j: int, s: Seq<u8>) -> bool {
        self.path_to(j).is_prefix_of(s) && ahead(bm, self.stack@[j], s)
    }

    /// Whether key `s` is still to come.
    pub open spec fn to_come(&self, bm: BufferManager, s: Seq<u8>) -> bool {
        exists|j: int| 0 <= j < self.stack@.len() && #[trigger] self.comes_at(bm, j, s)
    }

    /// Whether the next thing to look at is on the way to key `s`.
    pub open spec fn comes_next(&self, bm: BufferManager, s: Seq<u8>) -> bool {
        self.stack@.len() > 0 && self.comes_at(bm, self.stack@.len() - 1, s)
    }
}

/// Entries further down are reached by longer paths.
pub proof fn lemma_deeper(c: Cursor, bm: BufferManager, root: BlobGuid, i: int, j: int)
    requires
        c.fits(bm, root),
        0 <= i <= j < c.stack@.len(),
    ensures
        c.stack@[i].depth <= c.stack@[j].depth,
        i < j && c.stack@[i].tree@ is Inner ==> c.stack@[i].depth < c.stack@[j].depth,
        i < j && c.stack@[i].tree@ is Inner ==> c.path@[c.stack@[i].depth as int] < next_byte(bm, c.stack@[i]),
        i < j && !(c.stack@[i].tree@ is Inner) ==> c.stack@[i].next != 0,
    decreases j - i,
{
    if i < j {
        assert(c.goes_down(bm, i));
        assert(c.stands_at(bm, i + 1));
        lemma_deeper(c, bm, root, i + 1, j);
    }
}

/// Every entry's blob is where a key below it is looked for.
pub proof fn lemma_reached(c: Cursor, bm: BufferManager, root: BlobGuid, j: int, s: Seq<u8>)
    requires
        bm.wf(),
        c.fits(bm, root),
        0 <= j < c.stack@.len(),
        c.path_to(j).is_prefix_of(s),
    ensures
        bm.forest().find(root, s) == bm.forest().find(c.stack@[j].guid, s),
        stored(bm.forest(), root, s) == stored(bm.forest(), c.stack@[j].guid, s),
    decreases j,
{
    let f = bm.forest();
    if j > 0 {
        let a = c.stack@[j - 1];
        let b = c.stack@[j];
        lemma_deeper(c, bm, root, j - 1, j);
        let pa = c.path_to(j - 1);
        let pb = c.path_to(j);
        assert(c.goes_down(bm, j - 1));
        assert(c.stands_at(bm, j - 1) && c.stands_at(bm, j));
        lemma_prefix_agree(pb, s);
        assert(agree(pa, s, pa.len() as int));
        lemma_prefix_agree(pa, s);
        lemma_reached(c, bm, root, j - 1, s);
        if a.tree@ is Blob {
            let bytes = a.tree@->Blob_bytes;
            assert(pb =~= pa + bytes) by {
                assert(pb.subrange(pa.len() as int, pb.len() as int) =~= bytes);
                assert(pb.take(pa.len() as int) =~= pa);
            }
            lemma_exit_base(f, a.guid, a.tree@, pa);
            assert(f.route(a.guid, s) is Crossing);
            assert(f.below(a.guid, s)) by {
                lemma_prefix_agree(f.base[a.guid], pa);
                lemma_prefix_agree(f.base[a.guid], s);
            }
            assert(f.edge_ok(a.guid, s));
        }
    }
}

/// A live key below an entry is led on by the entry's node.
pub proof fn lemma_led(c: Cursor, bm: BufferManager, root: BlobGuid, j: int, s: Seq<u8>)
    requires
        bm.wf(),
        c.fits(bm, root),
        0 <= j < c.stack@.len(),
        c.path_to(j).is_prefix_of(s),
        live(bm.forest(), root, s),
    ensures
        !(step(c.stack@[j].tree@, s, c.stack@[j].depth as int) is NotFound),
        step(c.stack@[j].tree@, s, c.stack@[j].depth as int) is Found ==> step(c.stack@[j].tree@, s, c.stack@[j].depth as int) == bm.forest().find(root, s),
{
    lemma_reached(c, bm, root, j, s);
    let fr = c.stack@[j];
    let f = bm.forest();
    assert(c.stands_at(bm, j));
    assert(step(fr.tree@, s, fr.depth as int) == f.route(fr.guid, s));
}

/// A stored key below an entry is led on by the entry's node.
pub proof fn lemma_led_to(c: Cursor, bm: BufferManager, root: BlobGuid, j: int, s: Seq<u8>)
    requires
        bm.wf(),
        c.fits(bm, root),
        0 <= j < c.stack@.len(),
        c.path_to(j).is_prefix_of(s),
        stored(bm.forest(), root, s),
    ensures
        leads_to(c.stack@[j].tree@, s, c.stack@[j].depth as int),
{
    lemma_reached(c, bm, root, j, s);
    let fr = c.stack@[j];
    let f = bm.forest();
    assert(c.stands_at(bm, j));
    assert(step(fr.tree@, s, fr.depth as int) == f.route(fr.guid, s));
    assert(has_leaf(fr.tree@, s, fr.depth as int) == has_leaf(f.blobs[fr.guid].tree(), s, f.base[fr.guid].len() as int));
}

impl Cursor {
    /// Whether entry `j` leads key `s` on, if `s` comes to it.
    pub open spec fn leads_on(&self, j: int, s: Seq<u8>) -> bool {
        self.path_to(j).is_prefix_of(s) ==> !(step(self.stack@[j].tree@, s, self.stack@[j].depth as int) is NotFound)
    }

    /// Whether key `s` can have a live record as far as the blobs on the way
    /// tell, whatever other blobs hold.
    pub open spec fn may_hold(&self, s: Seq<u8>) -> bool {
        forall|j: int| 0 <= j < self.stack@.len() ==> #[trigger] self.leads_on(j, s)
    }
}

/// The blobs on the way tell of every live key.
pub proof fn lemma_may_hold(c: Cursor, bm: BufferManager, root: BlobGuid, s: Seq<u8>)
    requires
        bm.wf(),
        c.fits(bm, root),
        live(bm.forest(), root, s),
    ensures
        c.may_hold(s),
{
    assert forall|j: int| 0 <= j < c.stack@.len() implies #[trigger] c.leads_on(j, s) by {
        if c.path_to(j).is_prefix_of(s) {
            lemma_led(c, bm, root, j, s);
        }
    }
}

/// Whether key `s` comes before key `e` where they part.
pub open spec fn parts_below(s: Seq<u8>, e: Seq<u8>) -> bool {
    exists|d: int| #[trigger] rises_at(s, e, d)
}

/// A key that comes to entry `j`, and is not still to come there, goes where
/// `e` goes or comes before it.
pub proof fn lemma_goes_along(c: Cursor, bm: BufferManager, root: BlobGuid, j: int, s: Seq<u8>, e: Seq<u8>)
    requires
        c.fits(bm, root),
        0 <= j < c.stack@.len() - 1,
        c.path@.is_prefix_of(e),
        c.leads_on(j, s),
        c.path_to(j).is_prefix_of(s),
    ensures
        c.comes_at(bm, j, s) || parts_below(s, e) || c.path_to(j + 1).is_prefix_of(s),
{
    let n = c.stack@.len() as int;
    let a = c.stack@[j];
    let b = c.stack@[j + 1];
    let pa = c.path_to(j);
    let pb = c.path_to(j + 1);
    let d = a.depth as int;
    assert(c.goes_down(bm, j));
    assert(c.stands_at(bm, j));
    assert(c.stands_at(bm, j + 1));
    lemma_deeper(c, bm, root, j, n - 1);
    lemma_prefix_agree(pa, s);
    lemma_prefix_agree(c.path@, e);
    match a.tree@ {
        Art::Inner { .. } => {
            assert(d < s.len());
            lemma_prefix_agree(pb, s);
            if s[d] == c.path@[d] {
                assert(agree(pb, s, pb.len() as int));
            } else if s[d] < c.path@[d] {
                assert(rises_at(s, e, d));
            }
        },
        Art::Prefix { bytes, .. } | Art::Blob { bytes, .. } => {
            assert(matches_at(s, d, bytes));
            lemma_matched_path(pa, bytes, s);
            assert(pb =~= pa + bytes) by {
                assert(pb.subrange(d, pb.len() as int) =~= bytes);
            }
        },
        _ => {},
    }
}

/// A key that may hold a record is still to come, or comes before the path,
/// or comes to the last entry.
pub proof fn lemma_left_behind(c: Cursor, bm: BufferManager, root: BlobGuid, j: int, s: Seq<u8>, e: Seq<u8>)
    requires
        c.fits(bm, root),
        0 <= j < c.stack@.len(),
        c.path@.is_prefix_of(e),
        c.may_hold(s),
        c.path_to(j).is_prefix_of(s),
    ensures
        c.to_come(bm, s) || parts_below(s, e) || c.path@.is_prefix_of(s),
    decreases c.stack@.len() - j,
{
    let n = c.stack@.len() as int;
    if j < n - 1 {
        assert(c.leads_on(j, s));
        lemma_goes_along(c, bm, root, j, s, e);
        if c.path_to(j + 1).is_prefix_of(s) {
            lemma_left_behind(c, bm, root, j + 1, s, e);
        }
    } else {
        assert(c.path_to(j) =~= c.path@);
    }
}

/// The same from the root on.
pub proof fn lemma_left_behind_all(c: Cursor, bm: BufferManager, root: BlobGuid, s: Seq<u8>, e: Seq<u8>)
    requires
        c.fits(bm, root),
        c.stack@.len() > 0,
        c.path@.is_prefix_of(e),
        c.may_hold(s),
    ensures
        c.to_come(bm, s) || parts_below(s, e) || c.path@.is_prefix_of(s),
{
    assert(c.path_to(0) =~= Seq::<u8>::empty());
    lemma_prefix_agree(c.path_to(0), s);
    lemma_left_behind(c, bm, root, 0, s, e);
}

/// After the last entry was left, a key that may hold a record is still to
/// come, or comes before the path that was left, or begins with it.
pub proof fn lemma_popped(c0: Cursor, c1: Cursor, bm: BufferManager, root: BlobGuid, s: Seq<u8>, e: Seq<u8>)
    requires
        c0.fits(bm, root),
        c1.fits(bm, root),
        c0.stack@.len() > 1,
        c1.stack@ == c0.stack@.drop_last(),
        c1.path@.is_prefix_of(c0.path@),
        c0.path@.is_prefix_of(e),
        c1.may_hold(s),
    ensures
        c1.to_come(bm, s) || parts_below(s, e) || c0.path@.is_prefix_of(s),
{
    let n = c0.stack@.len() as int;
    assert(c0.stands_at(bm, n - 1));
    assert(c1.stands_at(bm, n - 2));
    lemma_prefix_agree(c1.path@, c0.path@);
    lemma_prefix_agree(c0.path@, e);
    lemma_prefix_agree(c1.path@, e);
    lemma_left_behind_all(c1, bm, root, s, e);
    assert(c0.path_to(n - 2) =~= c1.path_to(n - 2)) by {
        lemma_deeper(c0, bm, root, n - 2, n - 1);
    }
    assert(c1.path_to(n - 2) =~= c1.path@);
    assert(c0.path_to(n - 1) =~= c0.path@);
    if c1.path@.is_prefix_of(s) {
        assert(c1.leads_on(n - 2, s));
        assert(c0.leads_on(n - 2, s));
        lemma_goes_along(c0, bm, root, n - 2, s, e);
        if c0.comes_at(bm, n - 2, s) {
            assert(c1.comes_at(bm, n - 2, s));
        }
    }
}

/// What comes further up comes after everything below the path.
pub proof fn lemma_later(c: Cursor, bm: BufferManager, root: BlobGuid, j: int, s: Seq<u8>)
    requires
        c.fits(bm, root),
        0 <= j < c.stack@.len() - 1,
        c.comes_at(bm, j, s),
    ensures
        c.stack@[j].tree@ is Inner,
        rises_at(c.path@, s, c.stack@[j].depth as int),
        past(c.path@, s),
{
    let n = c.stack@.len() as int;
    lemma_deeper(c, bm, root, j, n - 1);
    let d = c.stack@[j].depth as int;
    assert(c.stands_at(bm, j));
    assert(c.stands_at(bm, n - 1));
    lemma_prefix_agree(c.path_to(j), s);
    assert forall|k: int| 0 <= k < d implies c.path@[k] == s[k] by {
        assert(c.path_to(j)[k] == s[k]);
    }
    assert(rises_at(c.path@, s, d));
}

/// How much is left to look at below a node not yet entered.
pub open spec fn load(f: Forest, g: BlobGuid, t: Art) -> nat
    decreases f.rank[g], t, 0int,
{
    match t {
        Art::Prefix { child, .. } => 2 + load(f, g, *child),
        Art::Inner { kids, .. } => 1 + loads(f, g, kids, 0),
        Art::Blob { guid, .. } => if f.rank[guid] < f.rank[g] {
            2 + load(f, guid, f.blobs[guid].tree())
        } else {
            2
        },
        _ => 2,
    }
}

/// How much is left to look at below the subtrees from `b` on.
pub open spec fn loads(f: Forest, g: BlobGuid, kids: Seq<Option<Art>>, b: int) -> nat
    decreases f.rank[g], kids, kids.len() - b,
{
    if b < 0 || b >= kids.len() {
        0
    } else {
        loads(f, g, kids, b + 1) + (match kids[b] {
            Some(k) => 1 + load(f, g, k),
            None => 0,
        })
    }
}

/// How much is left to look at at an entry.
pub open spec fn frame_load(bm: BufferManager, fr: Frame) -> nat {
    match fr.tree@ {
        Art::Inner { kids, .. } => 1 + loads(bm.forest(), fr.guid, kids, next_byte(bm, fr)),
        t => if fr.next == 0 {
            load(bm.forest(), fr.guid, t)
        } else {
            1
        },
    }
}

/// How much is left to look at at all entries.
pub open spec fn mass(bm: BufferManager, stack: Seq<Frame>) -> nat
    decreases stack.len(),
{
    if stack.len() == 0 {
        0
    } else {
        mass(bm, stack.drop_last()) + frame_load(bm, stack.last())
    }
}

proof fn lemma_loads_skip(f: Forest, g: BlobGuid, kids: Seq<Option<Art>>, lo: int, b: int)
    requires
        0 <= lo <= b <= kids.len(),
    ensures
        loads(f, g, kids, b) <= loads(f, g, kids, lo),
    decreases b - lo,
{
    if lo < b {
        lemma_loads_skip(f, g, kids, lo + 1, b);
    }
}

/// The first entries of a cursor are a cursor.
proof fn lemma_shorter(c0: Cursor, c1: Cursor, bm: BufferManager, root: BlobGuid, m: int)
    requires
        c0.fits(bm, root),
        0 <= m < c0.stack@.len(),
        c1.stack@ == c0.stack@.take(m),
        c1.path@ == c0.path@.take(if m > 0 {
            c0.stack@[m - 1].depth as int
        } else {
            0
        }),
    ensures
        c1.fits(bm, root),
{
    let n = c0.stack@.len() as int;
    assert(c0.stands_at(bm, n - 1));
    assert forall|j: int| 0 <= j < m implies #[trigger] c1.stands_at(bm, j) && c1.path_to(j) == c0.path_to(j) by {
        assert(c0.stands_at(bm, j));
        assert(c0.stands_at(bm, m - 1));
        lemma_deeper(c0, bm, root, j, m - 1);
        assert(c1.path_to(j) =~= c0.path_to(j));
    }
    assert forall|j: int| 0 <= j < m - 1 implies #[trigger] c1.goes_down(bm, j) by {
        assert(c0.goes_down(bm, j));
        assert(c1.stands_at(bm, j + 1));
    }
    if m > 0 {
        assert(c0.stands_at(bm, m - 1));
    }
}

impl Cursor {
    /// Leaves the last entry.
    pub fn pop(&mut self, Ghost(bm): Ghost<BufferManager>, Ghost(root): Ghost<BlobGuid>)
        requires
            old(self).fits(bm, root),
            old(self).stack@.len() > 0,
        ensures
            final(self).fits(bm, root),
            final(self).stack@ == old(self).stack@.drop_last(),
            final(self).path@.is_prefix_of(old(self).path@),
            mass(bm, final(self).stack@) < mass(bm, old(self).stack@),
            forall|s: Seq<u8>| old(self).to_come(bm, s) && !old(self).comes_next(bm, s) ==> #[trigger] final(self).to_come(bm, s),
    {
        let ghost c0 = *self;
        let ghost n = self.stack@.len() as int;
        let _ = self.stack.pop();
        let depth: usize = if self.stack.len() > 0 {
            self.stack[self.stack.len() - 1].depth
        } else {
            0
        };
        proof {
            if n > 1 {
                lemma_deeper(c0, bm, root, n - 2, n - 1);
                assert(c0.stands_at(bm, n - 2));
            }
            assert(c0.stands_at(bm, n - 1));
        }
        self.path.truncate(depth);
        proof {
            let c1 = *self;
            assert(c1.stack@ =~= c0.stack@.drop_last());
            assert(c1.stack@ =~= c0.stack@.take(n - 1));
            assert(c1.path@ =~= c0.path@.take(depth as int));
            assert(c0.path@.subrange(0, depth as int) =~= c1.path@);
            lemma_shorter(c0, c1, bm, root, n - 1);
            assert(frame_load(bm, c0.stack@[n - 1]) > 0);
            assert forall|s: Seq<u8>| c0.to_come(bm, s) && !c0.comes_next(bm, s) implies #[trigger] c1.to_come(bm, s) by {
                let j = choose|j: int| 0 <= j < n && #[trigger] c0.comes_at(bm, j, s);
                assert(j < n - 1);
                lemma_deeper(c0, bm, root, j, n - 2);
                assert(c0.stands_at(bm, n - 2));
                assert(c1.path_to(j) =~= c0.path_to(j));
                assert(c1.comes_at(bm, j, s));
            }
        }
    }
}

/// A cursor with one more entry, and the entry above it moved on.
proof fn lemma_longer(c0: Cursor, c1: Cursor, bm: BufferManager, root: BlobGuid, a: Frame, b: Frame, more: Seq<u8>)
    requires
        c0.fits(bm, root),
        c0.stack@.len() > 0,
        a == (Frame { next: a.next, ..c0.stack@.last() }),
        stands(bm, a, c0.path@),
        stands(bm, b, c0.path@ + more),
        entered(bm, a, b, c0.path@ + more),
        c1.stack@ == c0.stack@.update(c0.stack@.len() - 1, a).push(b),
        c1.path@ == c0.path@ + more,
    ensures
        c1.fits(bm, root),
        mass(bm, c1.stack@) == mass(bm, c0.stack@) - frame_load(bm, c0.stack@.last()) + frame_load(bm, a) + frame_load(bm, b),
        forall|s: Seq<u8>| c0.to_come(bm, s) && !c0.comes_next(bm, s) ==> #[trigger] c1.to_come(bm, s),
        forall|s: Seq<u8>| #[trigger] c0.path@.is_prefix_of(s) && ahead(bm, a, s) ==> c1.to_come(bm, s),
        forall|s: Seq<u8>| #[trigger] c1.path@.is_prefix_of(s) && ahead(bm, b, s) ==> c1.comes_next(bm, s) && c1.to_come(bm, s),
{
    let n = c0.stack@.len() as int;
    assert(c0.stands_at(bm, n - 1));
    assert(c0.path_to(n - 1) =~= c0.path@);
    assert forall|j: int| 0 <= j < n implies #[trigger] c1.path_to(j) == c0.path_to(j) by {
        assert(c0.stands_at(bm, j));
        lemma_deeper(c0, bm, root, j, n - 1);
        assert(c1.path_to(j) =~= c0.path_to(j));
    }
    assert(c1.path_to(n) =~= c1.path@);
    assert forall|j: int| 0 <= j < n + 1 implies #[trigger] c1.stands_at(bm, j) by {
        if j < n {
            assert(c0.stands_at(bm, j));
            assert(c1.path_to(j) == c0.path_to(j));
        }
    }
    assert forall|j: int| 0 <= j < n implies #[trigger] c1.goes_down(bm, j) by {
        if j < n - 1 {
            assert(c0.goes_down(bm, j));
            assert(c1.path_to(j + 1) == c0.path_to(j + 1));
        } else {
            assert(c1.path_to(j + 1) == c1.path@);
        }
    }
    assert(c1.stack@.drop_last() =~= c0.stack@.update(n - 1, a));
    assert(c0.stack@.update(n - 1, a).drop_last() =~= c0.stack@.drop_last());
    assert(mass(bm, c0.stack@.update(n - 1, a)) == mass(bm, c0.stack@.drop_last()) + frame_load(bm, a));
    assert forall|s: Seq<u8>| c0.to_come(bm, s) && !c0.comes_next(bm, s) implies #[trigger] c1.to_come(bm, s) by {
        let j = choose|j: int| 0 <= j < n && #[trigger] c0.comes_at(bm, j, s);
        assert(c1.path_to(j) == c0.path_to(j));
        assert(c1.comes_at(bm, j, s));
    }
    assert forall|s: Seq<u8>| #[trigger] c0.path@.is_prefix_of(s) && ahead(bm, a, s) implies c1.to_come(bm, s) by {
        assert(c1.path_to(n - 1) == c0.path@);
        assert(c1.comes_at(bm, n - 1, s));
    }
    assert forall|s: Seq<u8>| #[trigger] c1.path@.is_prefix_of(s) && ahead(bm, b, s) implies c1.comes_next(bm, s) && c1.to_come(bm, s) by {
        assert(c1.comes_at(bm, n, s));
    }
}

/// The last entry moved on.
proof fn lemma_moved_on(c0: Cursor, c1: Cursor, bm: BufferManager, root: BlobGuid, a: Frame)
    requires
        c0.fits(bm, root),
        c0.stack@.len() > 0,
        a == (Frame { next: a.next, ..c0.stack@.last() }),
        stands(bm, a, c0.path@),
        c1.stack@ == c0.stack@.update(c0.stack@.len() - 1, a),
        c1.path@ == c0.path@,
    ensures
        c1.fits(bm, root),
        mass(bm, c1.stack@) == mass(bm, c0.stack@) - frame_load(bm, c0.stack@.last()) + frame_load(bm, a),
        forall|s: Seq<u8>| c0.to_come(bm, s) && !c0.comes_next(bm, s) ==> #[trigger] c1.to_come(bm, s),
{
    let n = c0.stack@.len() as int;
    assert(c0.stands_at(bm, n - 1));
    assert(c0.path_to(n - 1) =~= c0.path@);
    assert forall|j: int| 0 <= j < n implies #[trigger] c1.stands_at(bm, j) && c1.path_to(j) == c0.path_to(j) by {
        assert(c0.stands_at(bm, j));
    }
    assert forall|j: int| 0 <= j < n - 1 implies #[trigger] c1.goes_down(bm, j) by {
        assert(c0.goes_down(bm, j));
    }
    assert(c1.stack@.drop_last() =~= c0.stack@.drop_last());
    assert forall|s: Seq<u8>| c0.to_come(bm, s) && !c0.comes_next(bm, s) implies #[trigger] c1.to_come(bm, s) by {
        let j = choose|j: int| 0 <= j < n && #[trigger] c0.comes_at(bm, j, s);
        assert(c1.comes_at(bm, j, s));
    }
}

/// What may be said of a cursor that has moved from `c0` without losing a
/// stored key.
pub open spec fn advanced(c0: Cursor, c1: Cursor, bm: BufferManager, root: BlobGuid) -> bool {
    &&& c1.fits(bm, root)
    &&& mass(bm, c1.stack@) < mass(bm, c0.stack@)
    &&& forall|s: Seq<u8>| stored(bm.forest(), root, s) && c0.to_come(bm, s) ==> #[trigger] c1.to_come(bm, s)
}

/// Whether `c1` is `c0` gone down by `bytes` to the tree `below`, the entry
/// left behind going on at `next`.
pub open spec fn went_down(c0: Cursor, c1: Cursor, next: u16, bytes: Seq<u8>, below: Art) -> bool {
    let n = c0.stack@.len() as int;
    &&& c1.path@ == c0.path@ + bytes
    &&& c1.stack@.len() == n + 1
    &&& c1.stack@.take(n) == c0.stack@.update(n - 1, Frame { next, ..c0.stack@.last() })
    &&& c1.stack@.last().tree@ == below
    &&& c1.stack@.last().next == 0
}

impl Cursor {
    /// Passes over what the last entry leads to.
    pub fn pass(&mut self, Ghost(bm): Ghost<BufferManager>, Ghost(root): Ghost<BlobGuid>)
        requires
            old(self).fits(bm, root),
            old(self).stack@.len() > 0,
            !(old(self).stack@.last().tree@ is Inner),
            old(self).stack@.last().next == 0,
        ensures
            final(self).fits(bm, root),
            final(self).path@ == old(self).path@,
            final(self).stack@ == old(self).stack@.update(old(self).stack@.len() - 1, Frame { next: 1, ..old(self).stack@.last() }),
            mass(bm, final(self).stack@) < mass(bm, old(self).stack@),
            forall|s: Seq<u8>| old(self).to_come(bm, s) && !old(self).comes_next(bm, s) ==> #[trigger] final(self).to_come(bm, s),
    {
        let ghost c0 = *self;
        let top: usize = self.stack.len() - 1;
        self.stack[top].next = 1;
        proof {
            let n = c0.stack@.len() as int;
            assert(c0.stands_at(bm, n - 1));
            assert(c0.path_to(n - 1) =~= c0.path@);
            let a = Frame { next: 1, ..c0.stack@.last() };
            assert(self.stack@ =~= c0.stack@.update(n - 1, a));
            lemma_moved_on(c0, *self, bm, root, a);
        }
    }

    /// Enters the node behind a prefix node.
    pub fn enter_prefix(&mut self, bytes: &[u8], child: u16, Ghost(bm): Ghost<BufferManager>, Ghost(root): Ghost<BlobGuid>)
        requires
            bm.wf(),
            old(self).fits(bm, root),
            old(self).stack@.len() > 0,
            old(self).stack@.last().tree@ is Prefix,
            old(self).stack@.last().tree@->Prefix_bytes == bytes@,
            slot_of(*old(self).stack@.last().tree@->child) == child,
            old(self).stack@.last().next == 0,
        ensures
            advanced(*old(self), *final(self), bm, root),
            went_down(*old(self), *final(self), 1, bytes@, *old(self).stack@.last().tree@->child),
    {
        let ghost c0 = *self;
        let top: usize = self.stack.len() - 1;
        let at_ = self.stack[top].at;
        let guid = self.stack[top].guid;
        let version = self.stack[top].version;
        self.stack[top].next = 1;
        self.path.extend_from_slice(bytes);
        assert(self.path@ =~= c0.path@ + bytes@);
        let depth = self.path.len();
        let ghost t = c0.stack@.last().tree@;
        let ghost below = *t->child;
        self.stack.push(Frame { at: at_, guid, slot: child, version, next: 0, depth, tree: Ghost(below) });
        proof {
            let n = c0.stack@.len() as int;
            let f = bm.forest();
            assert(c0.stands_at(bm, n - 1));
            assert(c0.path_to(n - 1) =~= c0.path@);
            let a = Frame { next: 1, ..c0.stack@.last() };
            let b = self.stack@.last();
            lemma_leads_prefix(f, guid, t, c0.path@);
            lemma_leaves_prefix(f, guid, t, c0.path@);
            lemma_fresh(bm, b);
            assert((c0.path@ + bytes@).subrange(a.depth as int, b.depth as int) =~= bytes@);
            assert(self.stack@ =~= c0.stack@.update(n - 1, a).push(b));
            assert(self.stack@.take(n) =~= c0.stack@.update(n - 1, a));
            lemma_longer(c0, *self, bm, root, a, b, bytes@);
            assert forall|s: Seq<u8>| stored(f, root, s) && c0.to_come(bm, s) implies #[trigger] self.to_come(bm, s) by {
                if c0.comes_next(bm, s) {
                    lemma_led_to(c0, bm, root, n - 1, s);
                    assert(matches_at(s, c0.path@.len() as int, bytes@));
                    lemma_matched_path(c0.path@, bytes@, s);
                    lemma_led_to(*self, bm, root, n, s);
                    lemma_fresh_ahead(bm, b, s);
                }
            }
        }
    }

    /// Enters the tree of the blob that a blob node refers to.
    pub fn enter_blob(&mut self, bytes: &[u8], child: usize, bm: &BufferManager, Ghost(root): Ghost<BlobGuid>)
        requires
            bm.wf(),
            old(self).fits(*bm, root),
            old(self).stack@.len() > 0,
            old(self).stack@.last().tree@ is Blob,
            old(self).stack@.last().tree@->Blob_bytes == bytes@,
            is_at(bm.blobs@, child as int, old(self).stack@.last().tree@->guid),
            old(self).stack@.last().next == 0,
        ensures
            advanced(*old(self), *final(self), *bm, root),
            went_down(*old(self), *final(self), 1, bytes@, bm.blobs@[child as int].frame.tree()),
    {
        let ghost c0 = *self;
        let top: usize = self.stack.len() - 1;
        let guid = bm.blobs[child].guid;
        let version = bm.blobs[child].version;
        let slot = bm.blobs[child].frame.header.root_slot;
        self.stack[top].next = 1;
        self.path.extend_from_slice(bytes);
        assert(self.path@ =~= c0.path@ + bytes@);
        let depth = self.path.len();
        let ghost t = c0.stack@.last().tree@;
        let ghost below = bm.blobs@[child as int].frame.tree();
        self.stack.push(Frame { at: child, guid, slot, version, next: 0, depth, tree: Ghost(below) });
        proof {
            let n = c0.stack@.len() as int;
            let f = bm.forest();
            let g = c0.stack@.last().guid;
            assert(c0.stands_at(*bm, n - 1));
            assert(c0.path_to(n - 1) =~= c0.path@);
            let a = Frame { next: 1, ..c0.stack@.last() };
            let b = self.stack@.last();
            let key = c0.path@ + bytes@;
            lemma_exit_base(f, g, t, c0.path@);
            assert(key.is_prefix_of(key)) by {
                lemma_prefix_agree(key, key);
            }
            assert(f.route(g, key) is Crossing);
            assert(f.below(g, key)) by {
                crate::merge::lemma_longer_base(f.base[g], c0.path@, bytes@);
            }
            assert(f.edge_ok(g, key));
            lemma_map_at(bm.blobs@, child as int);
            assert(f.has(guid));
            assert(f.blobs[guid].wf(f.base[guid]));
            lemma_leads_root(f, guid);
            assert(f.base[guid] == key);
            lemma_fresh(*bm, b);
            assert(key.subrange(a.depth as int, b.depth as int) =~= bytes@);
            assert(self.stack@ =~= c0.stack@.update(n - 1, a).push(b));
            assert(self.stack@.take(n) =~= c0.stack@.update(n - 1, a));
            lemma_longer(c0, *self, *bm, root, a, b, bytes@);
            assert forall|s: Seq<u8>| stored(f, root, s) && c0.to_come(*bm, s) implies #[trigger] self.to_come(*bm, s) by {
                if c0.comes_next(*bm, s) {
                    lemma_led_to(c0, *bm, root, n - 1, s);
                    assert(matches_at(s, c0.path@.len() as int, bytes@));
                    lemma_matched_path(c0.path@, bytes@, s);
                    lemma_led_to(*self, *bm, root, n, s);
                    lemma_fresh_ahead(*bm, b, s);
                }
            }
        }
    }

    /// Enters the subtree that `byte` leads to. Keys with a smaller byte
    /// are left behind.
    pub fn enter_inner(&mut self, byte: u8, child: u16, next: u16, Ghost(bm): Ghost<BufferManager>, Ghost(root): Ghost<BlobGuid>)
        requires
            bm.wf(),
            old(self).fits(bm, root),
            old(self).stack@.len() > 0,
            old(self).stack@.last().tree@ is Inner,
            next_byte(bm, old(self).stack@.last()) <= byte,
            kid(node_of(bm, old(self).stack@.last()), byte as int) == child,
            child != 0,
            cursor_byte(node_of(bm, old(self).stack@.last()), next as int) == byte + 1,
        ensures
            final(self).fits(bm, root),
            went_down(*old(self), *final(self), next, seq![byte], old(self).stack@.last().tree@->kids[byte as int]->0),
            mass(bm, final(self).stack@) < mass(bm, old(self).stack@),
            forall|s: Seq<u8>|
                stored(bm.forest(), root, s) && old(self).to_come(bm, s) && !(old(self).comes_next(bm, s) && s[old(self).path@.len() as int] < byte)
                    ==> #[trigger] final(self).to_come(bm, s),
    {
        let ghost c0 = *self;
        let top: usize = self.stack.len() - 1;
        let at_ = self.stack[top].at;
        let guid = self.stack[top].guid;
        let version = self.stack[top].version;
        self.stack[top].next = next;
        self.path.push(byte);
        let depth = self.path.len();
        let ghost t = c0.stack@.last().tree@;
        proof {
            assert(c0.stands_at(bm, c0.stack@.len() - 1));
            assert(t->kids[byte as int] is Some);
        }
        let ghost below = t->kids[byte as int]->0;
        self.stack.push(Frame { at: at_, guid, slot: child, version, next: 0, depth, tree: Ghost(below) });
        proof {
            let n = c0.stack@.len() as int;
            let f = bm.forest();
            assert(c0.path_to(n - 1) =~= c0.path@);
            let a = Frame { next, ..c0.stack@.last() };
            let b = self.stack@.last();
            let kids = t->kids;
            lemma_leads_kid(f, guid, t, c0.path@, byte);
            lemma_leaves_kid(f, guid, t, c0.path@, byte);
            lemma_fresh(bm, b);
            assert(self.path@ =~= c0.path@ + seq![byte]);
            assert(self.stack@ =~= c0.stack@.update(n - 1, a).push(b));
            assert(self.stack@.take(n) =~= c0.stack@.update(n - 1, a));
            lemma_longer(c0, *self, bm, root, a, b, seq![byte]);
            lemma_loads_skip(f, guid, kids, next_byte(bm, c0.stack@.last()), byte as int);
            assert(loads(f, guid, kids, byte as int) == loads(f, guid, kids, byte + 1) + 1 + load(f, guid, below));
            assert forall|s: Seq<u8>|
                stored(f, root, s) && c0.to_come(bm, s) && !(c0.comes_next(bm, s) && s[c0.path@.len() as int] < byte) implies #[trigger] self.to_come(
                bm,
                s,
            ) by {
                if c0.comes_next(bm, s) {
                    let d = c0.path@.len() as int;
                    if s[d] == byte {
                        assert(self.path@.is_prefix_of(s)) by {
                            lemma_prefix_agree(c0.path@, s);
                            lemma_prefix_agree(self.path@, s);
                        }
                        lemma_led_to(*self, bm, root, n, s);
                        lemma_fresh_ahead(bm, b, s);
                    } else {
                        assert(c0.path@.is_prefix_of(s));
                        assert(ahead(bm, a, s));
                    }
                }
            }
        }
    }
}

/// A node just entered has everything still to come.
proof fn lemma_fresh(bm: BufferManager, b: Frame)
    requires
        b.next == 0,
    ensures
        next_byte(bm, b) == 0,
        frame_load(bm, b) == load(bm.forest(), b.guid, b.tree@),
{
}

proof fn lemma_fresh_ahead(bm: BufferManager, b: Frame, s: Seq<u8>)
    requires
        b.next == 0,
        leads_to(b.tree@, s, b.depth as int),
    ensures
        ahead(bm, b, s),
{
}

impl Cursor {
    /// Whether no blob on the way has changed since it was entered.
    pub open spec fn fresh(&self, bm: BufferManager) -> bool {
        forall|j: int| 0 <= j < self.stack@.len() ==> #[trigger] self.fresh_at(bm, j)
    }

    /// Whether the blob of entry `j` has not changed since it was entered.
    /// The last version is never trusted.
    pub open spec fn fresh_at(&self, bm: BufferManager, j: int) -> bool {
        let fr = self.stack@[j];
        &&& fr.at < bm.blobs@.len()
        &&& bm.blobs@[fr.at as int].guid == fr.guid
        &&& bm.blobs@[fr.at as int].version == fr.version
        &&& fr.version < u64::MAX
    }

    /// Whether every entry was made at edition `e` or before.
    pub open spec fn stamped(&self, e: u64) -> bool {
        forall|j: int| 0 <= j < self.stack@.len() ==> (#[trigger] self.stack@[j]).version <= e
    }

    /// Whether the way down is still valid.
    pub fn path_is_still_valid(&self, bm: &BufferManager) -> (r: bool)
        ensures
            r == self.fresh(*bm),
    {
        let mut i: usize = 0;
        while i < self.stack.len()
            invariant
                i <= self.stack@.len(),
                forall|j: int| 0 <= j < i ==> #[trigger] self.fresh_at(*bm, j),
            decreases self.stack@.len() - i,
        {
            let fr = &self.stack[i];
            if !(fr.at < bm.blobs.len() && guid_eq(&bm.blobs[fr.at].guid, &fr.guid) && bm.blobs[fr.at].version == fr.version && fr.version
                < u64::MAX) {
                assert(!self.fresh_at(*bm, i as int));
                return false;
            }
            i = i + 1;
        }
        true
    }
}

/// A cursor whose blobs have not changed still fits.
pub proof fn lemma_still_fits(c: Cursor, a: BufferManager, b: BufferManager, root: BlobGuid)
    requires
        a.wf(),
        b.wf(),
        versioned(a, b),
        c.stamped(a.edition),
        c.fresh(b),
    ensures
        c.fresh(a),
        c.fits(a, root) ==> c.fits(b, root),
        c.fits(a, root) ==> forall|s: Seq<u8>| #[trigger] c.to_come(b, s) == c.to_come(a, s),
{
    let n = c.stack@.len() as int;
    assert forall|j: int| 0 <= j < n implies #[trigger] c.fresh_at(a, j) && a.blobs@[c.stack@[j].at as int].frame == b.blobs@[c.stack@[j].at as int].frame by {
        assert(c.fresh_at(b, j));
        let i = c.stack@[j].at as int;
        let y = b.blobs@[i];
        assert(c.stack@[j].version <= a.edition);
        assert(!newer(y.version, a.edition));
    }
    if c.fits(a, root) {
        assert forall|j: int| 0 <= j < n implies #[trigger] c.stands_at(b, j) && node_of(b, c.stack@[j]) == node_of(a, c.stack@[j]) by {
            assert(c.stands_at(a, j));
            assert(c.fresh_at(a, j));
            assert(c.fresh_at(b, j));
            let fr = c.stack@[j];
            let i = fr.at as int;
            lemma_map_at(a.blobs@, i);
            lemma_map_at(b.blobs@, i);
            assert(b.base@[a.blobs@[i].guid] == a.base@[a.blobs@[i].guid]);
            let path = c.path_to(j);
            assert forall|key: Seq<u8>| path.is_prefix_of(key) implies #[trigger] step(fr.tree@, key, path.len() as int) == b.forest().route(
                fr.guid,
                key,
            ) by {
                assert(a.forest().route(fr.guid, key) == b.forest().route(fr.guid, key));
            }
        }
        assert forall|j: int| 0 <= j < n - 1 implies #[trigger] c.goes_down(b, j) by {
            assert(c.goes_down(a, j));
            assert(c.stands_at(b, j));
        }
        assert forall|s: Seq<u8>| #[trigger] c.to_come(b, s) == c.to_come(a, s) by {
            if c.to_come(a, s) {
                let j = choose|j: int| 0 <= j < n && #[trigger] c.comes_at(a, j, s);
                assert(c.stands_at(b, j));
                assert(c.comes_at(b, j, s));
            }
            if c.to_come(b, s) {
                let j = choose|j: int| 0 <= j < n && #[trigger] c.comes_at(b, j, s);
                assert(c.stands_at(b, j));
                assert(c.comes_at(a, j, s));
            }
        }
        if n > 0 {
            assert(c.stands_at(a, 0));
        }
    }
}

impl Cursor {
    /// A cursor before the first leaf below the blob at entry `at_`.
    pub fn start(bm: &BufferManager, at_: usize) -> (r: Cursor)
        requires
            bm.wf(),
            at_ < bm.blobs@.len(),
            is_root(*bm, bm.blobs@[at_ as int].guid),
        ensures
            r.fits(*bm, bm.blobs@[at_ as int].guid),
            forall|s: Seq<u8>| stored(bm.forest(), bm.blobs@[at_ as int].guid, s) ==> #[trigger] r.to_come(*bm, s),
    {
        let guid = bm.blobs[at_].guid;
        let version = bm.blobs[at_].version;
        let slot = bm.blobs[at_].frame.header.root_slot;
        let ghost t = bm.blobs@[at_ as int].frame.tree();
        let mut stack: Vec<Frame> = Vec::new();
        stack.push(Frame { at: at_, guid, slot, version, next: 0, depth: 0, tree: Ghost(t) });
        let r = Cursor { stack, path: Vec::new() };
        proof {
            let f = bm.forest();
            lemma_map_at(bm.blobs@, at_ as int);
            assert(f.has(guid));
            assert(f.blobs[guid].wf(f.base[guid]));
            assert(f.base[guid] =~= Seq::<u8>::empty());
            lemma_leads_root(f, guid);
            let b = r.stack@[0];
            lemma_fresh(*bm, b);
            assert(r.path_to(0) =~= Seq::<u8>::empty());
            assert(r.stands_at(*bm, 0));
            assert(r.fits(*bm, guid));
            assert forall|s: Seq<u8>| stored(f, guid, s) implies #[trigger] r.to_come(*bm, s) by {
                assert(r.path_to(0).is_prefix_of(s)) by {
                    lemma_prefix_agree(r.path_to(0), s);
                }
                lemma_led_to(r, *bm, guid, 0, s);
                lemma_fresh_ahead(*bm, b, s);
                assert(r.comes_at(*bm, 0, s));
            }
        }
        r
    }
}

/// The entries of a cursor that fits were made at the store's edition.
pub proof fn lemma_stamped(c: Cursor, bm: BufferManager, root: BlobGuid)
    requires
        bm.wf(),
        c.fits(bm, root),
    ensures
        c.stamped(bm.edition),
{
    assert forall|j: int| 0 <= j < c.stack@.len() implies (#[trigger] c.stack@[j]).version <= bm.edition by {
        assert(c.stands_at(bm, j));
    }
}

} // verus!
