//! Scans: the live keys with a prefix, in order, from a bound on, with keys
//! that share a delimiter folded together.
use vstd::prelude::*;
use vstd::slice::slice_subrange;

use crate::art::{at, keyed, rep, slot_of, step, Art, Route};
use crate::cursor::{
    leads_to, lemma_deeper, advanced, lemma_later, lemma_led, lemma_led_to, lemma_left_behind_all, lemma_live_stored, lemma_may_hold, lemma_popped,
    lemma_reached, lemma_stamped, lemma_still_fits, live, mass, next_byte, node_of, parts_below, stands, stored, went_down, Cursor,
    Frame,
};
use crate::errors::{Error, Result};
use crate::forest::Forest;
use crate::frame::BlobFrame;
use crate::insert::{copy_bytes, has_leaf, lemma_rep_root};
use crate::key::matches_at;
use crate::key_buf::KeyBuf;
use crate::layout::{BlobGuid, Leaf, Node};
use crate::merge::{lemma_longer_path, lemma_matched_path};
use crate::node::{cursor_byte, kid, next_inner_child_from, next_inner_child_ge};
use crate::order::{
    agree, bytes_lt, fold_len, folds, key_at_or_past_prefix_successor, key_order_is_total, key_order_is_transitive, lemma_lets_up, lemma_order_at,
    lemma_past_up, lemma_prefix_agree, lemma_prefix_not_after, lemma_skipped, lex_lt, past, past_is_after_all, path_seek_relation, prefix_filter_relation,
    rises_at, segment_rollup_len, segment_seek_relation, unfolded, user_key, user_keys_keep_the_order, user_of, LowerBound,
    PrefixFilterRelation, SeekRelation, SegmentRelation,
};
use crate::route::is_root;
use crate::store::{is_at, versioned, BufferManager};
use crate::types::RecordVersion;

verus! {

/// A record of a scan.
#[derive(Debug, Clone)]
pub enum RangeEntry {
    /// A live record.
    Key { key: Vec<u8>, value: Vec<u8>, version: RecordVersion },
    /// All keys that begin with these bytes, which end with the delimiter.
    CommonPrefix(Vec<u8>),
}

/// A key of a scan.
#[derive(Debug, Clone)]
pub enum KeyRangeEntry {
    /// The key of a live record.
    Key { key: Vec<u8>, version: RecordVersion },
    /// All keys that begin with these bytes, which end with the delimiter.
    CommonPrefix(Vec<u8>),
}

/// A key of a scan, borrowed.
#[derive(Debug, Clone, Copy)]
pub enum KeyRangeEntryRef<'a> {
    /// The key of a live record.
    Key { key: &'a [u8], version: RecordVersion },
    /// All keys that begin with these bytes, which end with the delimiter.
    CommonPrefix(&'a [u8]),
}

/// What a scan has done.
#[derive(Debug, Clone, Copy, PartialEq, Eq, Structural)]
pub struct ScanStats {
    /// Leaves read and subtrees folded.
    pub visited: u64,
    /// Keys given out.
    pub returned: u64,
    /// Common prefixes given out.
    pub rollup: u64,
    /// How often the way down had to be searched again.
    pub restarts: u64,
}

impl ScanStats {
    /// Whether everything given out was visited.
    pub open spec fn ok(&self) -> bool {
        self.visited >= self.returned + self.rollup
    }

    /// Nothing done yet.
    pub fn zero() -> (r: ScanStats)
        ensures
            r.ok(),
            r.visited == 0,
            r.returned == 0,
            r.rollup == 0,
            r.restarts == 0,
    {
        ScanStats { visited: 0, returned: 0, rollup: 0, restarts: 0 }
    }
}

/// Whether `b` counts what `a` does, and more visits.
pub open spec fn looked(a: ScanStats, b: ScanStats) -> bool {
    &&& b.ok()
    &&& b.visited >= a.visited
    &&& b.returned == a.returned
    &&& b.rollup == a.rollup
    &&& b.restarts == a.restarts
}

impl ScanStats {
    fn note_visit(&mut self)
        requires
            old(self).ok(),
        ensures
            looked(*old(self), *final(self)),
            old(self).visited < u64::MAX ==> final(self).visited == old(self).visited + 1,
    {
        if self.visited < u64::MAX {
            self.visited = self.visited + 1;
        }
    }

    /// A full counter of visits stops the others too.
    fn note_key(&mut self)
        requires
            old(self).ok(),
        ensures
            final(self).ok(),
            old(self).visited > old(self).returned + old(self).rollup ==> *final(self) == (ScanStats {
                returned: (old(self).returned + 1) as u64,
                ..*old(self)
            }),
            old(self).visited == old(self).returned + old(self).rollup ==> *final(self) == *old(self),
    {
        if self.visited > self.returned + self.rollup {
            self.returned = self.returned + 1;
        }
    }

    /// A full counter of visits stops the others too.
    fn note_rollup(&mut self)
        requires
            old(self).ok(),
        ensures
            final(self).ok(),
            old(self).visited > old(self).returned + old(self).rollup ==> *final(self) == (ScanStats {
                rollup: (old(self).rollup + 1) as u64,
                ..*old(self)
            }),
            old(self).visited == old(self).returned + old(self).rollup ==> *final(self) == *old(self),
    {
        if self.visited > self.returned + self.rollup {
            self.rollup = self.rollup + 1;
        }
    }
}

/// Whether `b` counts what `a` does, with more visits and one item given out.
pub open spec fn counted(a: ScanStats, b: ScanStats, item: Item) -> bool {
    &&& b.ok()
    &&& b.restarts == a.restarts
    &&& b.visited >= a.visited
    &&& b.visited < u64::MAX ==> match item {
        Item::Key { .. } => b.returned == a.returned + 1 && b.rollup == a.rollup,
        Item::Common { .. } => b.returned == a.returned && b.rollup == a.rollup + 1,
    }
}

impl Default for ScanStats {
    fn default() -> (r: ScanStats)
        ensures
            r.visited == 0 && r.returned == 0 && r.rollup == 0 && r.restarts == 0,
    {
        ScanStats::zero()
    }
}

/// What a scan over borrowed keys has done.
#[derive(Debug, Clone, Copy, PartialEq, Eq, Structural)]
pub struct KeyScanOutcome {
    pub stats: ScanStats,
    /// Everything came from the cache.
    pub cache_hit: bool,
}

/// A count of keys with a prefix.
#[derive(Debug, Clone, Copy, PartialEq, Eq, Structural)]
pub struct PrefixCount {
    /// Number of keys, up to the limit.
    pub count: u64,
    /// No key was left out.
    pub exact: bool,
    pub stats: ScanStats,
    /// Everything came from the cache.
    pub cache_hit: bool,
}

/// What a scan gives out for a key.
#[derive(Debug, Clone, Copy, PartialEq, Eq, Structural)]
pub enum RangeProjection {
    /// The record.
    Records,
    /// The key alone.
    KeysOnly,
}

/// What a leaf means to a scan.
#[derive(Debug)]
pub enum LeafAction {
    /// Nothing.
    Skip,
    /// That nothing more is wanted.
    Done,
    /// A record.
    Key { key: Vec<u8>, value: Option<Vec<u8>>, version: RecordVersion },
    /// A fold.
    CommonPrefix(Vec<u8>),
}

/// Whether a scan of `prefix` from `bound` on wants key `u`.
pub open spec fn wanted(prefix: Seq<u8>, bound: Option<LowerBound>, u: Seq<u8>) -> bool {
    &&& prefix.is_prefix_of(u)
    &&& bound matches Some(b) ==> b.lets(u)
}

/// What a leaf means to a scan.
pub fn project_range_leaf(
    leaf: &Leaf,
    prefix: &[u8],
    bound: &Option<LowerBound>,
    delimiter: Option<u8>,
    projection: RangeProjection,
) -> (r: LeafAction)
    ensures
        ({
            let u = user_of(leaf.key@);
            match r {
                LeafAction::Skip => leaf.tombstone || (!wanted(prefix@, *bound, u) && !past(prefix@, u)),
                LeafAction::Done => !leaf.tombstone && past(prefix@, u),
                LeafAction::Key { key, value, version } => {
                    &&& !leaf.tombstone
                    &&& wanted(prefix@, *bound, u)
                    &&& unfolded(prefix@, delimiter, u)
                    &&& key@ == u
                    &&& version.seq == leaf.seq
                    &&& projection is Records ==> value is Some && value->0@ == leaf.value@
                    &&& projection is KeysOnly ==> value is None
                },
                LeafAction::CommonPrefix(common) => {
                    &&& !leaf.tombstone
                    &&& wanted(prefix@, *bound, u)
                    &&& delimiter is Some
                    &&& folds(prefix@, delimiter->0, u, common@)
                },
            }
        }),
{
    if leaf.tombstone {
        return LeafAction::Skip;
    }
    let user = user_key(leaf.key.as_slice());
    match prefix_filter_relation(user, prefix) {
        PrefixFilterRelation::Match => {
            proof {
                lemma_prefix_not_after(prefix@, user@);
            }
        },
        PrefixFilterRelation::Before => {
            return LeafAction::Skip;
        },
        PrefixFilterRelation::Past => {
            return LeafAction::Done;
        },
    }
    match bound {
        Some(b) => {
            if !b.allows(user) {
                return LeafAction::Skip;
            }
        },
        None => {},
    }
    match fold_len(prefix.len(), delimiter, user, Ghost(prefix@)) {
        Some(n) => {
            let common = copy_bytes(slice_subrange(user, 0, n));
            assert(common@ =~= user@.take(n as int));
            return LeafAction::CommonPrefix(common);
        },
        None => {},
    }
    let value: Option<Vec<u8>> = match projection {
        RangeProjection::Records => Some(copy_bytes(leaf.value.as_slice())),
        RangeProjection::KeysOnly => None,
    };
    LeafAction::Key { key: copy_bytes(user), value, version: RecordVersion::new(leaf.seq) }
}

/// Whether the first thing below the root of `t`, in byte order, is a live
/// record.
pub open spec fn starts_live(t: Art) -> bool
    decreases t,
{
    match t {
        Art::Leaf { dead, .. } => !dead,
        Art::Prefix { child, .. } => starts_live(*child),
        Art::Inner { kids, .. } => exists|b: int|
            0 <= b < kids.len() && (#[trigger] kids[b]) is Some && starts_live(kids[b]->0) && forall|x: int| 0 <= x < b ==> kids[x] is None,
        _ => false,
    }
}

/// Whether `s` has a live record below `t`, reached by `path`, and every other
/// key that `t` leads on comes after it.
pub open spec fn first_leaf(t: Art, path: Seq<u8>, s: Seq<u8>) -> bool {
    &&& path.is_prefix_of(s)
    &&& step(t, s, path.len() as int) is Found
    &&& forall|o: Seq<u8>| path.is_prefix_of(o) && #[trigger] leads_to(t, o, path.len() as int) ==> o == s || past(s, o)
}

/// Whether the first leaf below the node at `slot` is a live record of the
/// same blob.
fn begins_with_live_leaf(frame: &BlobFrame, slot: u16, Ghost(t): Ghost<Art>, Ghost(path): Ghost<Seq<u8>>) -> (r: bool)
    requires
        rep(frame.cells@, t),
        slot_of(t) == slot,
        keyed(t, path),
    ensures
        r == starts_live(t),
        r ==> exists|s: Seq<u8>| first_leaf(t, path, s),
    decreases t,
{
    proof {
        lemma_rep_root(frame.cells@, t);
    }
    match frame.node_at(slot) {
        Some(Node::Leaf(l)) => {
            proof {
                let s = l.key@;
                if !l.tombstone {
                    assert(first_leaf(t, path, s));
                }
            }
            !l.tombstone
        },
        Some(Node::Prefix(p)) => {
            let ghost below = path + p.bytes@;
            let r = begins_with_live_leaf(frame, p.child, Ghost(*t->child), Ghost(below));
            proof {
                if r {
                    let s = choose|s: Seq<u8>| first_leaf(*t->child, below, s);
                    lemma_longer_path(path, p.bytes@, s);
                    assert(step(t, s, path.len() as int) == step(*t->child, s, below.len() as int));
                    assert forall|o: Seq<u8>| path.is_prefix_of(o) && #[trigger] leads_to(t, o, path.len() as int) implies o == s || past(s, o) by {
                        lemma_matched_path(path, p.bytes@, o);
                        assert(leads_to(*t->child, o, below.len() as int));
                    }
                    assert(first_leaf(t, path, s));
                }
            }
            r
        },
        Some(Node::Blob(_)) => false,
        Some(Node::EmptyRoot) => false,
        Some(n) => {
            match next_inner_child_from(n, 0) {
                Some((byte, child, _)) => {
                    let ghost b = byte as int;
                    let ghost below = path.push(byte);
                    assert(t->kids[b] is Some);
                    let ghost k = t->kids[b]->0;
                    let r = begins_with_live_leaf(frame, child, Ghost(k), Ghost(below));
                    proof {
                        assert forall|x: int| 0 <= x < b implies t->kids[x] is None by {
                            assert(kid(*n, x) == 0);
                        }
                        if starts_live(t) {
                            let b2 = choose|b2: int|
                                0 <= b2 < t->kids.len() && (#[trigger] t->kids[b2]) is Some && starts_live(t->kids[b2]->0) && forall|x: int|
                                    0 <= x < b2 ==> t->kids[x] is None;
                            assert(b2 == b);
                        }
                        if r {
                            let s = choose|s: Seq<u8>| first_leaf(k, below, s);
                            assert(below =~= path + seq![byte]);
                            lemma_longer_path(path, seq![byte], s);
                            lemma_prefix_agree(below, s);
                            assert(s[path.len() as int] == byte);
                            assert(path.is_prefix_of(s));
                            assert(step(t, s, path.len() as int) == step(k, s, below.len() as int));
                            assert forall|o: Seq<u8>| path.is_prefix_of(o) && #[trigger] leads_to(t, o, path.len() as int) implies o == s || past(s, o) by {
                                let d = path.len() as int;
                                lemma_prefix_agree(path, o);
                                lemma_prefix_agree(path, s);
                                assert(t->kids[o[d] as int] is Some);
                                if o[d] == byte {
                                    lemma_prefix_agree(below, o);
                                    assert(leads_to(k, o, below.len() as int));
                                } else {
                                    assert(rises_at(s, o, d));
                                }
                            }
                            assert(first_leaf(t, path, s));
                        }
                    }
                    r
                },
                None => false,
            }
        },
        None => false,
    }
}

/// A stored key that comes next at a leaf is the leaf's.
proof fn lemma_at_leaf(c: Cursor, bm: BufferManager, root: BlobGuid, s: Seq<u8>)
    requires
        bm.wf(),
        c.fits(bm, root),
        c.comes_next(bm, s),
        stored(bm.forest(), root, s),
        c.stack@.last().tree@ is Leaf,
    ensures
        s == c.stack@.last().tree@->key,
{
    lemma_led_to(c, bm, root, c.stack@.len() - 1, s);
}

/// A stored key that comes next at a segment begins with it.
proof fn lemma_at_segment(c: Cursor, bm: BufferManager, root: BlobGuid, s: Seq<u8>, bytes: Seq<u8>)
    requires
        bm.wf(),
        c.fits(bm, root),
        c.comes_next(bm, s),
        stored(bm.forest(), root, s),
        c.stack@.last().tree@ matches Art::Prefix { bytes: b, .. } ==> b == bytes,
        c.stack@.last().tree@ matches Art::Blob { bytes: b, .. } ==> b == bytes,
        c.stack@.last().tree@ is Prefix || c.stack@.last().tree@ is Blob,
    ensures
        (c.path@ + bytes).is_prefix_of(s),
{
    let n = c.stack@.len() as int;
    assert(c.stands_at(bm, n - 1));
    assert(c.path_to(n - 1) =~= c.path@);
    lemma_led_to(c, bm, root, n - 1, s);
    assert(crate::key::matches_at(s, c.path@.len() as int, bytes));
    lemma_matched_path(c.path@, bytes, s);
}

/// What may be said of a cursor that has moved from `c0` without losing a
/// stored key from `target` on, and without going back.
pub open spec fn sought(c0: Cursor, c1: Cursor, bm: BufferManager, root: BlobGuid, target: Seq<u8>) -> bool {
    &&& c1.fits(bm, root)
    &&& forall|s: Seq<u8>| #[trigger] c1.to_come(bm, s) ==> c0.to_come(bm, s)
    &&& forall|s: Seq<u8>| stored(bm.forest(), root, s) && c0.to_come(bm, s) && !lex_lt(user_of(s), target) ==> #[trigger] c1.to_come(bm, s)
}

/// Whether every key that begins with `full` folds into a common prefix that
/// `full` already holds.
pub open spec fn folds_whole(prefix: Seq<u8>, delimiter: Option<u8>, full: Seq<u8>) -> bool {
    &&& delimiter is Some
    &&& prefix.is_prefix_of(full)
    &&& exists|common: Seq<u8>| #[trigger] folds(prefix, delimiter->0, full, common)
}

/// Whether a search for `target` ends where the cursor stands: behind the
/// last leaf, before a leaf at or after the target, or before a segment that
/// folds and does not lie before the target.
pub open spec fn found_place(c: Cursor, prefix: Seq<u8>, delimiter: Option<u8>, target: Seq<u8>) -> bool {
    c.stack@.len() > 0 ==> {
        &&& c.stack@.last().next == 0
        &&& match c.stack@.last().tree@ {
            Art::Leaf { key, .. } => !lex_lt(user_of(key), target),
            Art::Prefix { bytes, .. } => folds_whole(prefix, delimiter, c.path@ + bytes) && !past(c.path@ + bytes, target),
            Art::Blob { bytes, .. } => folds_whole(prefix, delimiter, c.path@ + bytes) && !past(c.path@ + bytes, target),
            _ => false,
        }
    }
}

/// Leaving an entry brings nothing back.
proof fn lemma_pop_onward(c0: Cursor, c1: Cursor, bm: BufferManager, root: BlobGuid)
    requires
        c0.fits(bm, root),
        c1.fits(bm, root),
        c0.stack@.len() > 0,
        c1.stack@ == c0.stack@.drop_last(),
        c1.path@.is_prefix_of(c0.path@),
    ensures
        forall|s: Seq<u8>| #[trigger] c1.to_come(bm, s) ==> c0.to_come(bm, s),
{
    assert forall|s: Seq<u8>| #[trigger] c1.to_come(bm, s) implies c0.to_come(bm, s) by {
        let j = choose|j: int| 0 <= j < c1.stack@.len() && #[trigger] c1.comes_at(bm, j, s);
        assert(c1.stands_at(bm, j));
        lemma_prefix_agree(c1.path@, c0.path@);
        assert(c1.path_to(j) =~= c0.path_to(j));
        assert(c0.comes_at(bm, j, s));
    }
}

/// Going down brings nothing back.
proof fn lemma_down_onward(c0: Cursor, c1: Cursor, bm: BufferManager, root: BlobGuid, next: u16, bytes: Seq<u8>, below: Art)
    requires
        c0.fits(bm, root),
        c1.fits(bm, root),
        c0.stack@.len() > 0,
        went_down(c0, c1, next, bytes, below),
        if c0.stack@.last().tree@ is Inner {
            &&& bytes.len() == 1
            &&& next_byte(bm, c0.stack@.last()) <= bytes[0]
            &&& cursor_byte(node_of(bm, c0.stack@.last()), next as int) == bytes[0] + 1
        } else {
            c0.stack@.last().next == 0 && next != 0
        },
    ensures
        forall|s: Seq<u8>| #[trigger] c1.to_come(bm, s) ==> c0.to_come(bm, s),
{
    let n = c0.stack@.len() as int;
    let fr = c0.stack@.last();
    let a = Frame { next, ..fr };
    assert(c1.stack@.take(n)[n - 1] == a);
    assert(c1.stack@[n - 1] == a);
    assert(c0.stands_at(bm, n - 1));
    assert(c0.path_to(n - 1) =~= c0.path@);
    assert forall|s: Seq<u8>| #[trigger] c1.to_come(bm, s) implies c0.to_come(bm, s) by {
        let j = choose|j: int| 0 <= j < c1.stack@.len() && #[trigger] c1.comes_at(bm, j, s);
        if j < n {
            assert(c0.stands_at(bm, j));
            assert(c1.stack@.take(n)[j] == c1.stack@[j]);
            assert(c1.path_to(j) =~= c0.path_to(j));
            assert(c0.comes_at(bm, j, s));
        } else {
            assert(c1.path_to(n) =~= c1.path@);
            lemma_longer_path(c0.path@, bytes, s);
            if fr.tree@ is Inner {
                let d = c0.path@.len() as int;
                assert(s.subrange(d, d + 1)[0] == bytes[0]);
            }
            assert(c0.comes_at(bm, n - 1, s));
        }
    }
}

/// A live key with a smaller byte than the target's comes before the target.
proof fn lemma_before_target(path: Seq<u8>, s: Seq<u8>, target: Seq<u8>)
    requires
        path.is_prefix_of(s),
        path.len() < s.len(),
        path.is_prefix_of(target),
        path.len() < target.len(),
        s[path.len() as int] < target[path.len() as int],
    ensures
        lex_lt(user_of(s), target),
{
    lemma_prefix_agree(path, s);
    lemma_prefix_agree(path, target);
    let d = path.len() as int;
    assert(rises_at(s, target, d));
    assert(s.is_prefix_of(s)) by {
        lemma_prefix_agree(s, s);
    }
    lemma_skipped(s, s, target);
}

/// Moves the cursor to the first leaf at or after `target`, or to a segment
/// before it that folds.
fn seek_to_lower_bound(
    cursor: &mut Cursor,
    bm: &BufferManager,
    prefix: &[u8],
    delimiter: Option<u8>,
    target: &[u8],
    Ghost(root): Ghost<BlobGuid>,
)
    requires
        bm.wf(),
        old(cursor).fits(*bm, root),
    ensures
        sought(*old(cursor), *final(cursor), *bm, root, target@),
        found_place(*final(cursor), prefix@, delimiter, target@),
{
    let ghost c0 = *cursor;
    let ghost f = bm.forest();
    let mut seeking: bool = true;
    while seeking && cursor.stack.len() > 0
        invariant
            bm.wf(),
            f == bm.forest(),
            sought(c0, *cursor, *bm, root, target@),
            !seeking ==> found_place(*cursor, prefix@, delimiter, target@),
        decreases seeking as int, mass(*bm, cursor.stack@),
    {
        let ghost c1 = *cursor;
        let ghost n = cursor.stack@.len() as int;
        let ghost fr = cursor.stack@[n - 1];
        let ghost t = fr.tree@;
        let top: usize = cursor.stack.len() - 1;
        let at_ = cursor.stack[top].at;
        let slot = cursor.stack[top].slot;
        let next = cursor.stack[top].next;
        proof {
            assert(c1.stands_at(*bm, n - 1));
            assert(c1.path_to(n - 1) =~= c1.path@);
            lemma_rep_root(bm.blobs@[at_ as int].frame.cells@, t);
        }
        match bm.blobs[at_].frame.node_at(slot) {
            Some(Node::Leaf(l)) => {
                if next == 0 && !bytes_lt(user_key(l.key.as_slice()), target) {
                    seeking = false;
                } else {
                    proof {
                        assert forall|s: Seq<u8>| stored(f, root, s) && c1.comes_next(*bm, s) implies lex_lt(user_of(s), target@) by {
                            lemma_at_leaf(c1, *bm, root, s);
                        }
                    }
                    cursor.pop(Ghost(*bm), Ghost(root));
                    proof {
                        lemma_sought_pop(c0, c1, *cursor, *bm, root, target@);
                    }
                }
            },
            Some(Node::Prefix(p)) => {
                if next != 0 {
                    cursor.pop(Ghost(*bm), Ghost(root));
                    proof {
                        lemma_sought_pop(c0, c1, *cursor, *bm, root, target@);
                    }
                } else {
                    match segment_seek_relation(cursor.path.as_slice(), p.bytes.as_slice(), target) {
                        SegmentRelation::Skip => {
                            proof {
                                assert forall|s: Seq<u8>| stored(f, root, s) && c1.comes_next(*bm, s) implies lex_lt(user_of(s), target@) by {
                                    lemma_at_segment(c1, *bm, root, s, p.bytes@);
                                    lemma_skipped(c1.path@ + p.bytes@, s, target@);
                                }
                            }
                            cursor.pop(Ghost(*bm), Ghost(root));
                            proof {
                                lemma_sought_pop(c0, c1, *cursor, *bm, root, target@);
                            }
                        },
                        _ => {
                            if segment_rollup_len(prefix, delimiter, cursor.path.as_slice(), p.bytes.as_slice()).is_some() {
                                seeking = false;
                            } else {
                                cursor.enter_prefix(p.bytes.as_slice(), p.child, Ghost(*bm), Ghost(root));
                                proof {
                                    lemma_sought_down(c0, c1, *cursor, *bm, root, target@, p.bytes@, *t->child);
                                }
                            }
                        },
                    }
                }
            },
            Some(Node::Blob(b)) => {
                if next != 0 {
                    cursor.pop(Ghost(*bm), Ghost(root));
                    proof {
                        lemma_sought_pop(c0, c1, *cursor, *bm, root, target@);
                    }
                } else {
                    match segment_seek_relation(cursor.path.as_slice(), b.bytes.as_slice(), target) {
                        SegmentRelation::Skip => {
                            proof {
                                assert forall|s: Seq<u8>| stored(f, root, s) && c1.comes_next(*bm, s) implies lex_lt(user_of(s), target@) by {
                                    lemma_at_segment(c1, *bm, root, s, b.bytes@);
                                    lemma_skipped(c1.path@ + b.bytes@, s, target@);
                                }
                            }
                            cursor.pop(Ghost(*bm), Ghost(root));
                            proof {
                                lemma_sought_pop(c0, c1, *cursor, *bm, root, target@);
                            }
                        },
                        _ => {
                            if segment_rollup_len(prefix, delimiter, cursor.path.as_slice(), b.bytes.as_slice()).is_some() {
                                seeking = false;
                            } else {
                                let child = pin_child(bm, b.child_blob_guid, Ghost(fr), Ghost(c1.path@));
                                cursor.enter_blob(b.bytes.as_slice(), child, bm, Ghost(root));
                                proof {
                                    lemma_sought_down(c0, c1, *cursor, *bm, root, target@, b.bytes@, bm.blobs@[child as int].frame.tree());
                                }
                            }
                        },
                    }
                }
            },
            Some(Node::EmptyRoot) => {
                proof {
                    assert forall|s: Seq<u8>| stored(f, root, s) && c1.comes_next(*bm, s) implies lex_lt(user_of(s), target@) by {
                        lemma_led_to(c1, *bm, root, n - 1, s);
                    }
                }
                cursor.pop(Ghost(*bm), Ghost(root));
                proof {
                    lemma_sought_pop(c0, c1, *cursor, *bm, root, target@);
                }
            },
            Some(nd) => {
                let relation = path_seek_relation(cursor.path.as_slice(), target);
                if relation == SeekRelation::Skip {
                    proof {
                        assert forall|s: Seq<u8>| stored(f, root, s) && c1.comes_next(*bm, s) implies lex_lt(user_of(s), target@) by {
                            lemma_skipped(c1.path@, s, target@);
                        }
                    }
                    cursor.pop(Ghost(*bm), Ghost(root));
                    proof {
                        lemma_sought_pop(c0, c1, *cursor, *bm, root, target@);
                    }
                } else {
                    let min_byte: u8 = if relation == SeekRelation::Seeking {
                        target[cursor.path.len()]
                    } else {
                        0
                    };
                    let found = next_inner_child_ge(nd, next, min_byte);
                    proof {
                        assert forall|s: Seq<u8>|
                            #![trigger c1.comes_next(*bm, s)]
                            stored(f, root, s) && c1.comes_next(*bm, s) && (found matches Some((byte, _, _)) ==> s[c1.path@.len() as int] < byte) implies lex_lt(
                            user_of(s),
                            target@,
                        ) by {
                            lemma_led_to(c1, *bm, root, n - 1, s);
                            let d = c1.path@.len() as int;
                            assert(t->kids[s[d] as int] is Some);
                            assert(kid(*nd, s[d] as int) != 0);
                            assert(s[d] < min_byte);
                            lemma_before_target(c1.path@, s, target@);
                        }
                    }
                    match found {
                        None => {
                            cursor.pop(Ghost(*bm), Ghost(root));
                            proof {
                                lemma_sought_pop(c0, c1, *cursor, *bm, root, target@);
                            }
                        },
                        Some((byte, child, after_)) => {
                            cursor.enter_inner(byte, child, after_, Ghost(*bm), Ghost(root));
                            proof {
                                lemma_down_onward(c1, *cursor, *bm, root, after_, seq![byte], t->kids[byte as int]->0);
                                assert forall|s: Seq<u8>| #[trigger] cursor.to_come(*bm, s) implies c0.to_come(*bm, s) by {
                                    assert(c1.to_come(*bm, s));
                                }
                                assert forall|s: Seq<u8>| stored(f, root, s) && c0.to_come(*bm, s) && !lex_lt(user_of(s), target@) implies #[trigger] cursor.to_come(
                                    *bm,
                                    s,
                                ) by {
                                    assert(c1.to_come(*bm, s));
                                }
                            }
                        },
                    }
                }
            },
            None => {
                assert(false);
                seeking = false;
            },
        }
    }
}

/// The entry of the blob that a blob node refers to.
fn pin_child(bm: &BufferManager, guid: BlobGuid, Ghost(fr): Ghost<Frame>, Ghost(path): Ghost<Seq<u8>>) -> (r: usize)
    requires
        bm.wf(),
        stands(*bm, fr, path),
        fr.tree@ is Blob,
        fr.tree@->guid == guid,
    ensures
        is_at(bm.blobs@, r as int, guid),
        bm.has(guid),
        bm.forest().rank[guid] < bm.forest().rank[fr.guid],
        bm.forest().blobs[guid] == bm.blobs@[r as int].frame,
        bm.forest().base[guid] == path + fr.tree@->Blob_bytes,
{
    proof {
        let f = bm.forest();
        let bytes = fr.tree@->Blob_bytes;
        crate::scan::lemma_exit_base(f, fr.guid, fr.tree@, path);
        let key = path + bytes;
        assert(key.is_prefix_of(key)) by {
            lemma_prefix_agree(key, key);
        }
        assert(f.route(fr.guid, key) is Crossing);
        assert(f.below(fr.guid, key)) by {
            crate::merge::lemma_longer_base(f.base[fr.guid], path, bytes);
        }
        assert(f.edge_ok(fr.guid, key));
    }
    match bm.position(&guid) {
        Some(i) => i,
        None => {
            assert(false);
            0
        },
    }
}

proof fn lemma_sought_pop(c0: Cursor, c1: Cursor, c2: Cursor, bm: BufferManager, root: BlobGuid, target: Seq<u8>)
    requires
        sought(c0, c1, bm, root, target),
        c2.fits(bm, root),
        c1.stack@.len() > 0,
        c2.stack@ == c1.stack@.drop_last(),
        c2.path@.is_prefix_of(c1.path@),
        forall|s: Seq<u8>| c1.to_come(bm, s) && !c1.comes_next(bm, s) ==> #[trigger] c2.to_come(bm, s),
        forall|s: Seq<u8>| stored(bm.forest(), root, s) && #[trigger] c1.comes_next(bm, s) ==> lex_lt(user_of(s), target),
    ensures
        sought(c0, c2, bm, root, target),
{
    lemma_pop_onward(c1, c2, bm, root);
    assert forall|s: Seq<u8>| stored(bm.forest(), root, s) && c0.to_come(bm, s) && !lex_lt(user_of(s), target) implies #[trigger] c2.to_come(bm, s) by {
        assert(c1.to_come(bm, s));
    }
    assert forall|s: Seq<u8>| #[trigger] c2.to_come(bm, s) implies c0.to_come(bm, s) by {
        assert(c1.to_come(bm, s));
    }
}

proof fn lemma_sought_down(
    c0: Cursor,
    c1: Cursor,
    c2: Cursor,
    bm: BufferManager,
    root: BlobGuid,
    target: Seq<u8>,
    bytes: Seq<u8>,
    below: Art,
)
    requires
        sought(c0, c1, bm, root, target),
        advanced(c1, c2, bm, root),
        went_down(c1, c2, 1, bytes, below),
        c1.stack@.len() > 0,
        !(c1.stack@.last().tree@ is Inner),
        c1.stack@.last().next == 0,
    ensures
        sought(c0, c2, bm, root, target),
{
    lemma_down_onward(c1, c2, bm, root, 1, bytes, below);
    assert forall|s: Seq<u8>| #[trigger] c2.to_come(bm, s) implies c0.to_come(bm, s) by {
        assert(c1.to_come(bm, s));
    }
    assert forall|s: Seq<u8>| stored(bm.forest(), root, s) && c0.to_come(bm, s) && !lex_lt(user_of(s), target) implies #[trigger] c2.to_come(bm, s) by {
        assert(c1.to_come(bm, s));
    }
}

/// What a scan gives out, as the caller knows it.
pub enum Item {
    Key { key: Seq<u8>, seq: u64 },
    Common { common: Seq<u8> },
}

impl Item {
    /// Where the item stands in the order.
    pub open spec fn bytes(self) -> Seq<u8> {
        match self {
            Item::Key { key, .. } => key,
            Item::Common { common } => common,
        }
    }

    /// Whether key `u` comes after everything the item stands for.
    pub open spec fn before(self, u: Seq<u8>) -> bool {
        match self {
            Item::Key { key, .. } => lex_lt(key, u),
            Item::Common { common } => past(common, u),
        }
    }

    /// Whether the item stands for the record of stored key `s`.
    pub open spec fn shows(self, f: Forest, root: BlobGuid, prefix: Seq<u8>, delimiter: Option<u8>, s: Seq<u8>) -> bool {
        &&& f.find(root, s) matches Route::Found { seq: written, .. } && match self {
            Item::Key { key, seq } => key == user_of(s) && seq == written && unfolded(prefix, delimiter, key),
            Item::Common { common } => delimiter is Some && folds(prefix, delimiter->0, user_of(s), common),
        }
    }
}

/// An active scan.
pub struct RangeIter {
    pub root: BlobGuid,
    pub cursor: Cursor,
    pub prefix: Vec<u8>,
    /// Where the scan goes on.
    pub lower_bound: Option<LowerBound>,
    pub delimiter: Option<u8>,
    pub projection: RangeProjection,
    pub initialized: bool,
    pub terminated: bool,
    pub stats: ScanStats,
}

/// Whether every key that is wanted is still to come, if the blobs on the way
/// do not rule it out.
pub open spec fn skips_nothing(c: Cursor, bm: BufferManager, prefix: Seq<u8>, bound: Option<LowerBound>) -> bool {
    forall|s: Seq<u8>| c.may_hold(s) && wanted(prefix, bound, user_of(s)) ==> #[trigger] c.to_come(bm, s)
}

impl RangeIter {
    /// Whether key `u` is still to be given out if it has a live record.
    pub open spec fn pending(&self, u: Seq<u8>) -> bool {
        !self.terminated && wanted(self.prefix@, self.lower_bound, u)
    }

    /// Whether the scan can go on over `bm`: its way down fits and has passed
    /// over nothing, unless a blob on it has changed.
    pub open spec fn kept(&self, bm: BufferManager) -> bool {
        &&& self.stats.ok()
        &&& self.initialized && !self.terminated ==> {
            &&& self.cursor.stamped(bm.edition)
            &&& self.cursor.fresh(bm) ==> {
                &&& self.cursor.fits(bm, self.root)
                &&& skips_nothing(self.cursor, bm, self.prefix@, self.lower_bound)
            }
        }
    }

    /// Whether `b` is the same scan, further on.
    pub open spec fn same_scan(&self, b: RangeIter) -> bool {
        &&& b.root == self.root
        &&& b.prefix@ == self.prefix@
        &&& b.delimiter == self.delimiter
        &&& b.projection == self.projection
    }

    /// What the scan has done so far.
    pub fn stats(&self) -> (r: ScanStats)
        ensures
            r == self.stats,
    {
        self.stats
    }
}

/// Whether everything that begins with `full` is to be given out as one
/// common prefix. A delimiter that ends stored keys folds no segments.
pub open spec fn rolls_up(prefix: Seq<u8>, bound: Option<LowerBound>, delimiter: Option<u8>, full: Seq<u8>) -> bool {
    &&& delimiter is Some
    &&& delimiter->0 != 0
    &&& prefix.is_prefix_of(full)
    &&& exists|common: Seq<u8>| #[trigger] folds(prefix, delimiter->0, full, common) && (bound matches Some(b) ==> b.lets(common))
}

/// A key folds into one common prefix only.
proof fn lemma_folds_once(prefix: Seq<u8>, d: u8, key: Seq<u8>, c1: Seq<u8>, c2: Seq<u8>)
    requires
        folds(prefix, d, key, c1),
        folds(prefix, d, key, c2),
    ensures
        c1 == c2,
{
    let n1 = c1.len() as int;
    let n2 = c2.len() as int;
    if n1 < n2 {
        assert(c2[n1 - 1] == key[n1 - 1] == c1[n1 - 1]);
    } else if n2 < n1 {
        assert(c1[n2 - 1] == key[n2 - 1] == c2[n2 - 1]);
    }
}

/// The common prefix that a segment folds into, with every key behind it, if
/// the bound lets it through. A delimiter that ends stored keys folds no
/// segments: it is not part of the keys.
fn prepare_segment_rollup(
    prefix: &[u8],
    bound: &Option<LowerBound>,
    delimiter: Option<u8>,
    path: &[u8],
    segment: &[u8],
) -> (r: Option<Vec<u8>>)
    ensures
        r matches Some(common) ==> {
            let full = path@ + segment@;
            &&& delimiter is Some
            &&& delimiter->0 != 0
            &&& prefix@.is_prefix_of(full)
            &&& folds(prefix@, delimiter->0, full, common@)
            &&& bound matches Some(b) ==> b.lets(common@)
        },
        r is Some ==> rolls_up(prefix@, *bound, delimiter, path@ + segment@),
        r is None && path@.len() + segment@.len() <= usize::MAX ==> !rolls_up(prefix@, *bound, delimiter, path@ + segment@),
{
    match delimiter {
        Some(d) => {
            if d == 0 {
                return None;
            }
        },
        None => {
            return None;
        },
    }
    let ghost full = path@ + segment@;
    match segment_rollup_len(prefix, delimiter, path, segment) {
        None => {
            proof {
                if rolls_up(prefix@, *bound, delimiter, full) && path@.len() + segment@.len() <= usize::MAX {
                    let c = choose|c: Seq<u8>| #[trigger] folds(prefix@, delimiter->0, full, c) && (bound matches Some(b) ==> b.lets(c));
                    assert(full[c.len() - 1] == c.last());
                }
            }
            None
        },
        Some(n) => {
            let mut common: Vec<u8> = Vec::new();
            if n <= path.len() {
                common = copy_bytes(slice_subrange(path, 0, n));
            } else {
                common = copy_bytes(path);
                let mut i: usize = 0;
                while i < n - path.len()
                    invariant
                        path@.len() <= n <= path@.len() + segment@.len(),
                        i <= n - path@.len(),
                        common@ == path@ + segment@.take(i as int),
                    decreases n - path@.len() - i,
                {
                    common.push(segment[i]);
                    i = i + 1;
                    assert(common@ =~= path@ + segment@.take(i as int));
                }
            }
            assert(common@ =~= full.take(n as int));
            match bound {
                Some(b) => {
                    if !b.allows(common.as_slice()) {
                        proof {
                            assert forall|c: Seq<u8>| #[trigger] folds(prefix@, delimiter->0, full, c) implies !b.lets(c) by {
                                lemma_folds_once(prefix@, delimiter->0, full, common@, c);
                            }
                        }
                        return None;
                    }
                },
                None => {},
            }
            assert(folds(prefix@, delimiter->0, full, common@));
            Some(common)
        },
    }
}

/// What folds by its bytes also folds by every longer key.
proof fn lemma_folds_longer(prefix: Seq<u8>, d: u8, full: Seq<u8>, common: Seq<u8>, s: Seq<u8>)
    requires
        folds(prefix, d, full, common),
        d != 0,
        full.is_prefix_of(s),
    ensures
        folds(prefix, d, user_of(s), common),
        common.is_prefix_of(user_of(s)),
        common.is_prefix_of(s),
{
    lemma_prefix_agree(full, s);
    let u = user_of(s);
    let n = common.len() as int;
    assert forall|j: int| 0 <= j < n implies common[j] == s[j] by {
        assert(common[j] == full[j]);
    }
    assert(s[n - 1] == d);
    assert(n <= u.len());
    assert(common =~= u.take(n));
    lemma_prefix_agree(common, u);
    lemma_prefix_agree(common, s);
}

/// A stored key past some bytes has a user's part past them.
proof fn lemma_past_user(c: Seq<u8>, s: Seq<u8>)
    requires
        past(c, s),
    ensures
        past(c, user_of(s)),
{
    let i = choose|i: int| rises_at(c, s, i);
    assert(rises_at(c, user_of(s), i));
}

/// The first leaf to come is the least of the live keys to come.
proof fn lemma_leaf_first(c: Cursor, bm: BufferManager, root: BlobGuid, s: Seq<u8>)
    requires
        bm.wf(),
        c.fits(bm, root),
        c.stack@.len() > 0,
        c.stack@.last().tree@ is Leaf,
        live(bm.forest(), root, s),
        c.to_come(bm, s),
    ensures
        s == c.stack@.last().tree@->key || past(c.stack@.last().tree@->key, s),
{
    lemma_live_stored(bm.forest(), root, s);
    lemma_leaf_foremost(c, bm, root, s);
}

/// No leaf that is still to come stands before the one that the cursor is at.
proof fn lemma_leaf_foremost(c: Cursor, bm: BufferManager, root: BlobGuid, s: Seq<u8>)
    requires
        bm.wf(),
        c.fits(bm, root),
        c.stack@.len() > 0,
        c.stack@.last().tree@ is Leaf,
        stored(bm.forest(), root, s),
        c.to_come(bm, s),
    ensures
        s == c.stack@.last().tree@->key || past(c.stack@.last().tree@->key, s),
{
    let n = c.stack@.len() as int;
    let key = c.stack@.last().tree@->key;
    if c.comes_next(bm, s) {
        lemma_at_leaf(c, bm, root, s);
    } else {
        let j = choose|j: int| 0 <= j < n && #[trigger] c.comes_at(bm, j, s);
        lemma_later(c, bm, root, j, s);
        assert(c.stands_at(bm, n - 1));
        assert(c.path_to(n - 1) =~= c.path@);
        let d = c.stack@[j].depth as int;
        lemma_prefix_agree(c.path@, key);
        assert(rises_at(key, s, d));
    }
}

/// A leaf's live key is found from the root.
proof fn lemma_leaf_live(c: Cursor, bm: BufferManager, root: BlobGuid)
    requires
        bm.wf(),
        c.fits(bm, root),
        c.stack@.len() > 0,
        c.stack@.last().tree@ matches Art::Leaf { dead, .. } && !dead,
    ensures
        ({
            let t = c.stack@.last().tree@;
            bm.forest().find(root, t->key) == (Route::Found { value: t->value, seq: t->seq })
        }),
{
    let n = c.stack@.len() as int;
    let t = c.stack@.last().tree@;
    assert(c.stands_at(bm, n - 1));
    assert(c.path_to(n - 1) =~= c.path@);
    lemma_reached(c, bm, root, n - 1, t->key);
    assert(step(t, t->key, c.path@.len() as int) == bm.forest().route(c.stack@.last().guid, t->key));
}

/// What is still to come when a segment folds: the keys behind the segment,
/// all with the common prefix, and keys after it.
proof fn lemma_segment_first(
    c: Cursor,
    bm: BufferManager,
    root: BlobGuid,
    prefix: Seq<u8>,
    d: u8,
    bytes: Seq<u8>,
    common: Seq<u8>,
    s: Seq<u8>,
)
    requires
        bm.wf(),
        c.fits(bm, root),
        c.stack@.len() > 0,
        c.stack@.last().tree@ matches Art::Prefix { bytes: b, .. } ==> b == bytes,
        c.stack@.last().tree@ matches Art::Blob { bytes: b, .. } ==> b == bytes,
        c.stack@.last().tree@ is Prefix || c.stack@.last().tree@ is Blob,
        folds(prefix, d, c.path@ + bytes, common),
        d != 0,
        live(bm.forest(), root, s),
        c.to_come(bm, s),
    ensures
        c.comes_next(bm, s) ==> common.is_prefix_of(user_of(s)),
        common.is_prefix_of(user_of(s)) || past(common, user_of(s)),
{
    let n = c.stack@.len() as int;
    let full = c.path@ + bytes;
    lemma_live_stored(bm.forest(), root, s);
    if c.comes_next(bm, s) {
        lemma_at_segment(c, bm, root, s, bytes);
        lemma_folds_longer(prefix, d, full, common, s);
    } else {
        let j = choose|j: int| 0 <= j < n && #[trigger] c.comes_at(bm, j, s);
        lemma_later(c, bm, root, j, s);
        let e = c.stack@[j].depth as int;
        if e < common.len() {
            assert(rises_at(common, s, e));
            lemma_past_user(common, s);
        } else {
            let u = user_of(s);
            assert(u.len() > e);
            assert(agree(common, u, common.len() as int)) by {
                assert forall|k: int| 0 <= k < common.len() implies common[k] == u[k] by {
                    assert(common[k] == full[k]);
                    assert(full[k] == c.path@[k]);
                }
            }
            lemma_prefix_agree(common, u);
        }
    }
}

/// Everything with a prefix is wanted where the prefix itself is let through.
proof fn lemma_wanted_below(prefix: Seq<u8>, bound: Option<LowerBound>, common: Seq<u8>, u: Seq<u8>)
    requires
        prefix.is_prefix_of(common),
        common.is_prefix_of(u),
        bound matches Some(b) ==> b.lets(common),
    ensures
        wanted(prefix, bound, u),
{
    lemma_prefix_agree(prefix, common);
    lemma_prefix_agree(common, u);
    lemma_prefix_agree(prefix, u);
    if bound is Some {
        if common.len() == u.len() {
            assert(common =~= u);
        } else {
            assert(lex_lt(common, u));
            lemma_lets_up(bound->0, common, u);
        }
    }
}

/// Something that a scan gives out.
#[derive(Debug)]
pub enum ProjectedRangeEntry {
    Key { key: Vec<u8>, value: Option<Vec<u8>>, version: RecordVersion },
    CommonPrefix(Vec<u8>),
}

/// What an entry stands for.
pub open spec fn item_of(e: ProjectedRangeEntry) -> Item {
    match e {
        ProjectedRangeEntry::Key { key, version, .. } => Item::Key { key: key@, seq: version.seq },
        ProjectedRangeEntry::CommonPrefix(common) => Item::Common { common: common@ },
    }
}

/// Where a scan goes on after an item.
spec fn resumed(a: RangeIter, b: RangeIter, bm: BufferManager, item: Item) -> bool {
    &&& a.same_scan(b)
    &&& b.initialized == a.initialized
    &&& b.cursor.fits(bm, b.root)
    &&& forall|u: Seq<u8>| #[trigger] b.pending(u) <==> a.pending(u) && item.before(u)
    &&& !b.terminated ==> skips_nothing(b.cursor, bm, b.prefix@, b.lower_bound)
}

/// A key that comes before one that was given out is not wanted any more.
proof fn lemma_below_given(e: Seq<u8>, common: Seq<u8>, s: Seq<u8>)
    requires
        parts_below(s, e),
        common.is_prefix_of(e),
    ensures
        !past(common, user_of(s)),
{
    let d = choose|d: int| #[trigger] rises_at(s, e, d);
    lemma_prefix_agree(common, e);
    let u = user_of(s);
    if past(common, u) {
        let i = choose|i: int| rises_at(common, u, i);
        if i < d {
            assert(s[i] == e[i]);
        } else if d < i {
            assert(common[d] == u[d]);
        }
    }
}

/// Moving the bound past a key that was wanted.
proof fn lemma_bound_key(prefix: Seq<u8>, bound: Option<LowerBound>, key: Seq<u8>, now: LowerBound, u: Seq<u8>)
    requires
        wanted(prefix, bound, key),
        now.key@ == key,
        !now.inclusive,
    ensures
        wanted(prefix, Some(now), u) <==> wanted(prefix, bound, u) && lex_lt(key, u),
{
    if lex_lt(key, u) && bound is Some {
        lemma_lets_up(bound->0, key, u);
    }
}

/// Moving the bound past all keys with a common prefix, one of which was
/// wanted.
proof fn lemma_bound_common(prefix: Seq<u8>, bound: Option<LowerBound>, common: Seq<u8>, w: Seq<u8>, u: Seq<u8>)
    requires
        wanted(prefix, bound, w),
        common.is_prefix_of(w),
        prefix.is_prefix_of(u),
        past(common, u),
    ensures
        wanted(prefix, bound, u),
{
    let i = choose|i: int| rises_at(common, u, i);
    lemma_prefix_agree(common, w);
    assert(rises_at(w, u, i));
    assert(lex_lt(w, u));
    if bound is Some {
        lemma_lets_up(bound->0, w, u);
    }
}

impl RangeIter {
    /// Whether every live key that is wanted is still to come.
    pub open spec fn whole(&self, bm: BufferManager) -> bool {
        forall|s: Seq<u8>| live(bm.forest(), self.root, s) && wanted(self.prefix@, self.lower_bound, user_of(s)) ==> #[trigger] self.cursor.to_come(bm, s)
    }

    /// Goes on after a key.
    fn set_lower_bound_exclusive(&mut self, key: &[u8])
        requires
            old(self).pending(key@),
        ensures
            *final(self) == (RangeIter { lower_bound: final(self).lower_bound, ..*old(self) }),
            forall|u: Seq<u8>| #[trigger] final(self).pending(u) <==> old(self).pending(u) && lex_lt(key@, u),
    {
        let bound = LowerBound::exclusive(copy_bytes(key));
        proof {
            assert forall|u: Seq<u8>| wanted(self.prefix@, Some(bound), u) <==> #[trigger] self.pending(u) && lex_lt(key@, u) by {
                lemma_bound_key(self.prefix@, self.lower_bound, key@, bound, u);
            }
        }
        let ghost before = *self;
        self.lower_bound = Some(bound);
        proof {
            assert forall|u: Seq<u8>| #[trigger] self.pending(u) <==> before.pending(u) && lex_lt(key@, u) by {
                assert(wanted(self.prefix@, self.lower_bound, u) <==> before.pending(u) && lex_lt(key@, u));
            }
        }
    }

    /// Goes on after all keys with a common prefix, or ends.
    fn set_lower_bound_successor(&mut self, common: &[u8], Ghost(w): Ghost<Seq<u8>>)
        requires
            old(self).pending(w),
            common@.is_prefix_of(w),
        ensures
            *final(self) == (RangeIter { lower_bound: final(self).lower_bound, terminated: final(self).terminated, ..*old(self) }),
            forall|u: Seq<u8>| #[trigger] final(self).pending(u) <==> old(self).pending(u) && past(common@, u),
            final(self).terminated ==> final(self).lower_bound == old(self).lower_bound,
    {
        let ghost before = *self;
        let mut bound = LowerBound::exclusive(Vec::new());
        if bound.set_inclusive_successor(common) {
            self.lower_bound = Some(bound);
            proof {
                assert forall|u: Seq<u8>| #[trigger] self.pending(u) <==> before.pending(u) && past(common@, u) by {
                    assert(bound.lets(u) <==> past(common@, u));
                    if before.prefix@.is_prefix_of(u) && past(common@, u) {
                        lemma_bound_common(before.prefix@, before.lower_bound, common@, w, u);
                    }
                }
            }
        } else {
            self.terminated = true;
        }
    }

    /// Gives out the key of the leaf that the cursor stands at.
    fn take_key(&mut self, key: &[u8], Ghost(bm): Ghost<BufferManager>, Ghost(seq): Ghost<u64>)
        requires
            bm.wf(),
            old(self).cursor.fits(bm, old(self).root),
            old(self).cursor.stack@.len() > 0,
            old(self).cursor.stack@.last().tree@ is Leaf,
            old(self).cursor.stack@.last().next == 0,
            key@ == user_of(old(self).cursor.stack@.last().tree@->key),
            old(self).pending(key@),
        ensures
            resumed(*old(self), *final(self), bm, Item::Key { key: key@, seq }),
            final(self).stats == old(self).stats,
            !final(self).terminated,
    {
        let ghost before = *self;
        self.set_lower_bound_exclusive(key);
        let ghost moved = *self;
        self.cursor.pass(Ghost(bm), Ghost(self.root));
        proof {
            let n = self.cursor.stack@.len() as int;
            let stored = before.cursor.stack@.last().tree@->key;
            assert(before.cursor.stands_at(bm, n - 1));
            assert(before.cursor.path_to(n - 1) =~= before.cursor.path@);
            assert forall|s: Seq<u8>| self.cursor.may_hold(s) && wanted(self.prefix@, self.lower_bound, user_of(s)) implies #[trigger] self.cursor.to_come(
                bm,
                s,
            ) by {
                assert(moved.pending(user_of(s)));
                assert(lex_lt(key@, user_of(s)));
                lemma_left_behind_all(self.cursor, bm, self.root, s, stored);
                if parts_below(s, stored) {
                    let d = choose|d: int| #[trigger] rises_at(s, stored, d);
                    lemma_order_at(s, stored, d);
                    user_keys_keep_the_order(s, stored);
                    key_order_is_total(user_of(s), key@);
                } else if self.cursor.path@.is_prefix_of(s) {
                    assert(self.cursor.path_to(n - 1) =~= self.cursor.path@);
                    assert(self.cursor.leads_on(n - 1, s));
                    assert(s == stored);
                    key_order_is_total(key@, key@);
                }
            }
            assert forall|u: Seq<u8>| #[trigger] self.pending(u) <==> before.pending(u) && lex_lt(key@, u) by {
                assert(moved.pending(u) == self.pending(u));
            }
        }
    }

    /// Gives out a common prefix that the segment the cursor stands at folds
    /// into.
    fn take_segment(&mut self, common: &[u8], bytes: &[u8], Ghost(bm): Ghost<BufferManager>, Ghost(d): Ghost<u8>, Ghost(w): Ghost<Seq<u8>>)
        requires
            bm.wf(),
            old(self).cursor.fits(bm, old(self).root),
            old(self).cursor.stack@.len() > 0,
            old(self).cursor.stack@.last().tree@ matches Art::Prefix { bytes: b, .. } ==> b == bytes@,
            old(self).cursor.stack@.last().tree@ matches Art::Blob { bytes: b, .. } ==> b == bytes@,
            old(self).cursor.stack@.last().tree@ is Prefix || old(self).cursor.stack@.last().tree@ is Blob,
            old(self).cursor.stack@.last().next == 0,
            folds(old(self).prefix@, d, old(self).cursor.path@ + bytes@, common@),
            d != 0,
            old(self).pending(w),
            common@.is_prefix_of(w),
        ensures
            resumed(*old(self), *final(self), bm, Item::Common { common: common@ }),
            final(self).stats == old(self).stats,
    {
        let ghost before = *self;
        self.set_lower_bound_successor(common, Ghost(w));
        let ghost moved = *self;
        self.cursor.pass(Ghost(bm), Ghost(self.root));
        proof {
            let n = self.cursor.stack@.len() as int;
            let full = self.cursor.path@ + bytes@;
            assert(self.cursor.path_to(n - 1) =~= self.cursor.path@);
            if !self.terminated {
                assert forall|s: Seq<u8>| self.cursor.may_hold(s) && wanted(self.prefix@, self.lower_bound, user_of(s)) implies #[trigger] self.cursor.to_come(
                    bm,
                    s,
                ) by {
                    assert(moved.pending(user_of(s)));
                    assert(past(common@, user_of(s)));
                    assert(self.cursor.path@.is_prefix_of(full)) by {
                        lemma_prefix_agree(self.cursor.path@, full);
                    }
                    lemma_left_behind_all(self.cursor, bm, self.root, s, full);
                    if parts_below(s, full) {
                        lemma_prefix_agree(common@, full);
                        lemma_below_given(full, common@, s);
                    } else if self.cursor.path@.is_prefix_of(s) {
                        assert(self.cursor.leads_on(n - 1, s));
                        assert(matches_at(s, self.cursor.path@.len() as int, bytes@));
                        lemma_matched_path(self.cursor.path@, bytes@, s);
                        lemma_folds_longer(before.prefix@, d, full, common@, s);
                        lemma_prefix_not_after(common@, user_of(s));
                    }
                }
            }
            assert forall|u: Seq<u8>| #[trigger] self.pending(u) <==> before.pending(u) && past(common@, u) by {
                assert(moved.pending(u) == self.pending(u));
            }
        }
    }

    /// Gives out a common prefix that the key of the leaf the cursor stands
    /// at folds into, and leaves the subtrees whose keys all fold into it.
    fn take_leaf_common(&mut self, common: &[u8], Ghost(bm): Ghost<BufferManager>, Ghost(w): Ghost<Seq<u8>>)
        requires
            bm.wf(),
            old(self).cursor.fits(bm, old(self).root),
            old(self).cursor.stack@.len() > 0,
            old(self).cursor.stack@.last().tree@ is Leaf,
            old(self).cursor.stack@.last().next == 0,
            w == user_of(old(self).cursor.stack@.last().tree@->key),
            old(self).pending(w),
            common@.is_prefix_of(w),
        ensures
            resumed(*old(self), *final(self), bm, Item::Common { common: common@ }),
            final(self).stats == old(self).stats,
    {
        let ghost before = *self;
        let ghost key = self.cursor.stack@.last().tree@->key;
        proof {
            let n = self.cursor.stack@.len() as int;
            assert(self.cursor.stands_at(bm, n - 1));
            assert(self.cursor.path_to(n - 1) =~= self.cursor.path@);
            lemma_prefix_agree(common@, w);
            lemma_prefix_agree(common@, key);
        }
        self.set_lower_bound_successor(common, Ghost(w));
        let ghost moved = *self;
        self.cursor.pass(Ghost(bm), Ghost(self.root));
        let ghost mid = *self;
        proof {
            assert forall|u: Seq<u8>| #[trigger] mid.pending(u) <==> before.pending(u) && past(common@, u) by {
                assert(moved.pending(u) == mid.pending(u));
            }
            let n = mid.cursor.stack@.len() as int;
            assert(mid.cursor.path_to(n - 1) =~= mid.cursor.path@);
            if !mid.terminated {
                assert forall|s: Seq<u8>| mid.cursor.may_hold(s) && wanted(mid.prefix@, mid.lower_bound, user_of(s)) implies #[trigger] mid.cursor.to_come(
                    bm,
                    s,
                ) by {
                    assert(mid.pending(user_of(s)));
                    assert(past(common@, user_of(s)));
                    lemma_left_behind_all(mid.cursor, bm, mid.root, s, key);
                    if parts_below(s, key) {
                        lemma_below_given(key, common@, s);
                    } else if mid.cursor.path@.is_prefix_of(s) {
                        assert(mid.cursor.leads_on(n - 1, s));
                        assert(s == key);
                        lemma_prefix_not_after(common@, user_of(s));
                    }
                }
            }
        }
        while self.cursor.stack.len() > 1 && self.cursor.path.len() > common.len()
            invariant
                bm.wf(),
                *self == (RangeIter { cursor: self.cursor, ..mid }),
                self.cursor.fits(bm, self.root),
                self.cursor.path@.is_prefix_of(key),
                common@.is_prefix_of(key),
                forall|u: Seq<u8>| #[trigger] mid.pending(u) <==> before.pending(u) && past(common@, u),
                !mid.terminated ==> skips_nothing(self.cursor, bm, mid.prefix@, mid.lower_bound),
            decreases self.cursor.stack@.len(),
        {
            let ghost c1 = self.cursor;
            self.cursor.pop(Ghost(bm), Ghost(self.root));
            proof {
                let n = c1.stack@.len() as int;
                assert(c1.stands_at(bm, n - 1));
                assert(c1.path_to(n - 1) =~= c1.path@);
                lemma_prefix_agree(c1.path@, key);
                lemma_prefix_agree(self.cursor.path@, c1.path@);
                lemma_prefix_agree(self.cursor.path@, key);
                lemma_prefix_agree(common@, key);
                if !mid.terminated {
                    assert forall|s: Seq<u8>| self.cursor.may_hold(s) && wanted(mid.prefix@, mid.lower_bound, user_of(s)) implies #[trigger] self.cursor.to_come(
                        bm,
                        s,
                    ) by {
                        assert(mid.pending(user_of(s)));
                        assert(past(common@, user_of(s)));
                        lemma_popped(c1, self.cursor, bm, self.root, s, key);
                        if parts_below(s, key) {
                            lemma_below_given(key, common@, s);
                        } else if c1.path@.is_prefix_of(s) {
                            lemma_prefix_agree(c1.path@, s);
                            let u = user_of(s);
                            assert(agree(common@, u, common@.len() as int));
                            lemma_prefix_agree(common@, u);
                            lemma_prefix_not_after(common@, u);
                        }
                    }
                }
            }
        }
        proof {
            assert forall|u: Seq<u8>| #[trigger] self.pending(u) <==> before.pending(u) && past(common@, u) by {
                assert(mid.pending(u) <==> before.pending(u) && past(common@, u));
            }
        }
    }
}

/// A record behind the segment that the cursor stands at is found from the
/// root.
proof fn lemma_segment_live(c: Cursor, bm: BufferManager, root: BlobGuid, bytes: Seq<u8>, below: Art, s: Seq<u8>)
    requires
        bm.wf(),
        c.fits(bm, root),
        c.stack@.len() > 0,
        match c.stack@.last().tree@ {
            Art::Prefix { bytes: b, child, .. } => b == bytes && *child == below,
            Art::Blob { bytes: b, guid, .. } => {
                &&& b == bytes
                &&& bm.forest().blobs[guid].tree() == below
                &&& bm.forest().base[guid] == c.path@ + bytes
                &&& bm.forest().rank[guid] < bm.forest().rank[c.stack@.last().guid]
            },
            _ => false,
        },
        (c.path@ + bytes).is_prefix_of(s),
        step(below, s, (c.path@ + bytes).len() as int) is Found,
    ensures
        live(bm.forest(), root, s),
{
    let f = bm.forest();
    let n = c.stack@.len() as int;
    let fr = c.stack@.last();
    let d = c.path@.len() as int;
    assert(c.stands_at(bm, n - 1));
    assert(c.path_to(n - 1) =~= c.path@);
    lemma_longer_path(c.path@, bytes, s);
    lemma_reached(c, bm, root, n - 1, s);
    assert(step(fr.tree@, s, d) == f.route(fr.guid, s));
    if fr.tree@ is Blob {
        let g = fr.tree@->guid;
        assert(f.route(g, s) is Found);
        assert(f.find(g, s) is Found);
    } else {
        assert(step(fr.tree@, s, d) == step(below, s, d + bytes.len()));
    }
}

/// A key that is found is no longer than a leaf can hold.
proof fn lemma_found_len(c: Seq<Option<Node>>, t: Art, s: Seq<u8>, d: int)
    requires
        rep(c, t),
        step(t, s, d) is Found,
    ensures
        s.len() <= 65535,
    decreases t,
{
    match t {
        Art::Prefix { bytes, child, .. } => lemma_found_len(c, *child, s, d + bytes.len()),
        Art::Inner { kids, .. } => {
            assert(kids[s[d] as int] is Some);
            lemma_found_len(c, kids[s[d] as int]->0, s, d + 1);
        },
        _ => {},
    }
}

/// No leaf that is still to come stands before the first one behind the segment
/// that the cursor is at.
proof fn lemma_segment_foremost(c: Cursor, bm: BufferManager, root: BlobGuid, bytes: Seq<u8>, below: Art, s0: Seq<u8>, s: Seq<u8>)
    requires
        bm.wf(),
        c.fits(bm, root),
        c.stack@.len() > 0,
        match c.stack@.last().tree@ {
            Art::Prefix { bytes: b, child, .. } => b == bytes && *child == below,
            Art::Blob { bytes: b, guid, .. } => {
                &&& b == bytes
                &&& bm.forest().blobs[guid].tree() == below
                &&& bm.forest().base[guid] == c.path@ + bytes
                &&& bm.forest().rank[guid] < bm.forest().rank[c.stack@.last().guid]
            },
            _ => false,
        },
        first_leaf(below, c.path@ + bytes, s0),
        stored(bm.forest(), root, s),
        c.to_come(bm, s),
    ensures
        s == s0 || past(s0, s),
{
    let f = bm.forest();
    let n = c.stack@.len() as int;
    let fr = c.stack@.last();
    let full = c.path@ + bytes;
    let d = c.path@.len() as int;
    assert(c.stands_at(bm, n - 1));
    assert(c.path_to(n - 1) =~= c.path@);
    if c.comes_next(bm, s) {
        lemma_at_segment(c, bm, root, s, bytes);
        lemma_reached(c, bm, root, n - 1, s);
        lemma_led_to(c, bm, root, n - 1, s);
        assert(step(fr.tree@, s, d) == f.route(fr.guid, s));
        if fr.tree@ is Blob {
            let g = fr.tree@->guid;
            assert(stored(f, g, s));
            assert(f.route(g, s) == step(below, s, full.len() as int));
        }
        assert(leads_to(below, s, full.len() as int));
    } else {
        let j = choose|j: int| 0 <= j < n && #[trigger] c.comes_at(bm, j, s);
        lemma_later(c, bm, root, j, s);
        lemma_longer_path(c.path@, bytes, s0);
        lemma_prefix_agree(c.path@, s0);
        assert(rises_at(s0, s, c.stack@[j].depth as int));
    }
}

/// A key that is found behind a segment is no longer than a leaf can hold.
proof fn lemma_segment_len(c: Cursor, bm: BufferManager, root: BlobGuid, bytes: Seq<u8>, below: Art, s: Seq<u8>)
    requires
        bm.wf(),
        c.fits(bm, root),
        c.stack@.len() > 0,
        match c.stack@.last().tree@ {
            Art::Prefix { bytes: b, child, .. } => b == bytes && *child == below,
            Art::Blob { bytes: b, guid, .. } => b == bytes && bm.forest().blobs[guid].tree() == below,
            _ => false,
        },
        step(below, s, (c.path@ + bytes).len() as int) is Found,
    ensures
        s.len() <= 65535,
{
    let f = bm.forest();
    let n = c.stack@.len() as int;
    let fr = c.stack@.last();
    let full = c.path@ + bytes;
    assert(c.stands_at(bm, n - 1));
    assert(c.path_to(n - 1) =~= c.path@);
    if fr.tree@ is Blob {
        let g = fr.tree@->guid;
        crate::scan::lemma_exit_base(f, fr.guid, fr.tree@, c.path@);
        assert(full.is_prefix_of(full)) by {
            lemma_prefix_agree(full, full);
        }
        assert(f.route(fr.guid, full) is Crossing);
        assert(f.below(fr.guid, full)) by {
            crate::merge::lemma_longer_base(f.base[fr.guid], c.path@, bytes);
        }
        assert(f.edge_ok(fr.guid, full));
        assert(f.blobs[g].wf(f.base[g]));
        lemma_found_len(f.blobs[g].cells@, below, s, full.len() as int);
    } else {
        lemma_found_len(bm.blobs@[fr.at as int].frame.cells@, below, s, full.len() as int);
    }
}

/// Whether an entry shows a live record that the scan wants.
spec fn shown(a: RangeIter, bm: BufferManager, e: ProjectedRangeEntry) -> bool {
    exists|s: Seq<u8>|
        {
            &&& a.pending(#[trigger] user_of(s))
            &&& item_of(e).shows(bm.forest(), a.root, a.prefix@, a.delimiter, s)
            &&& e matches ProjectedRangeEntry::Key { value, version, .. } ==> match a.projection {
                RangeProjection::Records => value is Some && bm.forest().find(a.root, s) == (Route::Found { value: value->0@, seq: version.seq }),
                RangeProjection::KeysOnly => value is None,
            }
        }
}

/// Whether nothing live that the scan wants comes before `x`.
pub open spec fn least(a: RangeIter, bm: BufferManager, x: Seq<u8>) -> bool {
    forall|s: Seq<u8>| #[trigger] live(bm.forest(), a.root, s) && a.pending(user_of(s)) ==> !lex_lt(user_of(s), x)
}

/// Whether nothing live is left that the scan wants.
pub open spec fn none_left(a: RangeIter, bm: BufferManager) -> bool {
    forall|s: Seq<u8>| #[trigger] live(bm.forest(), a.root, s) ==> !a.pending(user_of(s))
}

/// Whether `read` lists the leaves that a search for the next item of scan `a`,
/// begun at cursor `c`, visits. With an item, these are the leaves still to
/// come up to the first one that is live and wanted, which the item shows. At
/// the end, they are all that are still to come, or those up to the first live
/// one behind the prefix. Deleted leaves count. A segment that folds counts as
/// the leaf that it begins with.
pub open spec fn visits(a: RangeIter, bm: BufferManager, c: Cursor, item: Option<Item>, read: Seq<Seq<u8>>) -> bool {
    let f = bm.forest();
    &&& read.no_duplicates()
    &&& match item {
        Some(it) => {
            &&& read.len() > 0
            &&& a.pending(user_of(read.last()))
            &&& it.shows(f, a.root, a.prefix@, a.delimiter, read.last())
            &&& up_to(c, bm, a.root, read)
            &&& forall|s: Seq<u8>| #[trigger] read.contains(s) && s != read.last() && live(f, a.root, s) ==> !a.pending(user_of(s))
        },
        None => if read.len() > 0 && live(f, a.root, read.last()) && past(a.prefix@, user_of(read.last())) {
            &&& up_to(c, bm, a.root, read)
            &&& forall|s: Seq<u8>| #[trigger] read.contains(s) && s != read.last() && live(f, a.root, s) ==> !past(a.prefix@, user_of(s))
        } else {
            &&& forall|s: Seq<u8>| #[trigger] read.contains(s) <==> stored(f, a.root, s) && c.to_come(bm, s)
            &&& forall|s: Seq<u8>| #[trigger] read.contains(s) && live(f, a.root, s) ==> !past(a.prefix@, user_of(s))
        },
    }
}

/// Whether `read` lists the leaves still to come at `c` up to its last one.
pub open spec fn up_to(c: Cursor, bm: BufferManager, root: BlobGuid, read: Seq<Seq<u8>>) -> bool {
    forall|s: Seq<u8>|
        #[trigger] read.contains(s) <==> stored(bm.forest(), root, s) && c.to_come(bm, s) && (s == read.last() || past(s, read.last()))
}

/// Whether `to` counts as many visits more than `from` as the search of scan
/// `a` from `c` for `item` makes, unless the counter is full.
pub open spec fn tallied(a: RangeIter, bm: BufferManager, c: Cursor, item: Option<Item>, from: ScanStats, to: ScanStats) -> bool {
    exists|read: Seq<Seq<u8>>| #[trigger] visits(a, bm, c, item, read) && rose_by(from, to, read.len())
}

/// Whether `b` counts `n` visits more than `a`, unless it is full.
pub open spec fn rose_by(a: ScanStats, b: ScanStats, n: nat) -> bool {
    b.visited < u64::MAX ==> b.visited == a.visited + n
}

/// Whether `b` is `a` after it gave out `e`.
spec fn gave(a: RangeIter, b: RangeIter, bm: BufferManager, e: ProjectedRangeEntry) -> bool {
    &&& resumed(a, b, bm, item_of(e))
    &&& counted(a.stats, b.stats, item_of(e))
    &&& tallied(a, bm, a.cursor, Some(item_of(e)), a.stats, b.stats)
    &&& shown(a, bm, e)
    &&& least(a, bm, item_of(e).bytes())
}

/// Whether `read` lists the leaves that lie between cursor `c` and cursor `d`,
/// which has moved on from it.
spec fn through(c: Cursor, d: Cursor, bm: BufferManager, root: BlobGuid, read: Seq<Seq<u8>>) -> bool {
    let f = bm.forest();
    &&& read.no_duplicates()
    &&& forall|s: Seq<u8>| #[trigger] d.to_come(bm, s) ==> c.to_come(bm, s)
    &&& forall|s: Seq<u8>| #[trigger] read.contains(s) <==> stored(f, root, s) && c.to_come(bm, s) && !d.to_come(bm, s)
    &&& forall|s: Seq<u8>, t: Seq<u8>| #[trigger] read.contains(s) && stored(f, root, t) && #[trigger] d.to_come(bm, t) ==> past(s, t)
}

/// Between the start of a search for the next item and its end, with the
/// leaves of `read` behind.
spec fn searching(a: RangeIter, b: RangeIter, bm: BufferManager, read: Seq<Seq<u8>>) -> bool {
    &&& b == (RangeIter { cursor: b.cursor, stats: b.stats, ..a })
    &&& b.cursor.fits(bm, b.root)
    &&& looked(a.stats, b.stats)
    &&& b.whole(bm)
    &&& through(a.cursor, b.cursor, bm, a.root, read)
    &&& forall|s: Seq<u8>| #[trigger] read.contains(s) && live(bm.forest(), a.root, s) ==> !wanted(a.prefix@, a.lower_bound, user_of(s)) && !past(a.prefix@, user_of(s))
}

/// What comes next at an entry comes no more when the entry is left.
proof fn lemma_pop_gone(c0: Cursor, c1: Cursor, bm: BufferManager, root: BlobGuid, s: Seq<u8>)
    requires
        c0.fits(bm, root),
        c1.fits(bm, root),
        c0.stack@.len() > 0,
        c1.stack@ == c0.stack@.drop_last(),
        c1.path@.is_prefix_of(c0.path@),
        c0.comes_next(bm, s),
    ensures
        !c1.to_come(bm, s),
{
    let n = c0.stack@.len() as int;
    if c1.to_come(bm, s) {
        let j = choose|j: int| 0 <= j < c1.stack@.len() && #[trigger] c1.comes_at(bm, j, s);
        lemma_deeper(c0, bm, root, j, n - 1);
        assert(c0.stands_at(bm, j));
        assert(c0.stands_at(bm, n - 1));
        assert(c0.path_to(n - 1) =~= c0.path@);
        lemma_prefix_agree(c0.path@, s);
        assert(c0.stack@[j] == c1.stack@[j]);
    }
}

/// An entry below which no leaf is still to come is left.
proof fn lemma_through_pop(c: Cursor, d0: Cursor, d: Cursor, bm: BufferManager, root: BlobGuid, read: Seq<Seq<u8>>)
    requires
        through(c, d0, bm, root, read),
        d0.fits(bm, root),
        d.fits(bm, root),
        d0.stack@.len() > 0,
        d.stack@ == d0.stack@.drop_last(),
        d.path@.is_prefix_of(d0.path@),
        forall|s: Seq<u8>| d0.to_come(bm, s) && !d0.comes_next(bm, s) ==> #[trigger] d.to_come(bm, s),
        forall|s: Seq<u8>| stored(bm.forest(), root, s) ==> !#[trigger] d0.comes_next(bm, s),
    ensures
        through(c, d, bm, root, read),
{
    lemma_pop_onward(d0, d, bm, root);
    assert forall|s: Seq<u8>| stored(bm.forest(), root, s) && c.to_come(bm, s) implies d.to_come(bm, s) == d0.to_come(bm, s) by {
        assert(!d0.comes_next(bm, s));
    }
    assert forall|s: Seq<u8>| #[trigger] read.contains(s) <==> stored(bm.forest(), root, s) && c.to_come(bm, s) && !d.to_come(bm, s) by {
        assert(stored(bm.forest(), root, s) && c.to_come(bm, s) ==> d.to_come(bm, s) == d0.to_come(bm, s));
    }
}

/// A node is entered.
proof fn lemma_through_down(c: Cursor, d0: Cursor, d: Cursor, bm: BufferManager, root: BlobGuid, read: Seq<Seq<u8>>)
    requires
        through(c, d0, bm, root, read),
        forall|s: Seq<u8>| #[trigger] d.to_come(bm, s) ==> d0.to_come(bm, s),
        forall|s: Seq<u8>| stored(bm.forest(), root, s) && d0.to_come(bm, s) ==> #[trigger] d.to_come(bm, s),
    ensures
        through(c, d, bm, root, read),
{
    assert forall|s: Seq<u8>| #[trigger] read.contains(s) <==> stored(bm.forest(), root, s) && c.to_come(bm, s) && !d.to_come(bm, s) by {
        assert(stored(bm.forest(), root, s) ==> d.to_come(bm, s) == d0.to_come(bm, s));
    }
}

/// The leaf that a cursor stands at is still to come.
proof fn lemma_leaf_to_come(c: Cursor, bm: BufferManager, root: BlobGuid)
    requires
        bm.wf(),
        c.fits(bm, root),
        c.stack@.len() > 0,
        c.stack@.last().tree@ is Leaf,
        c.stack@.last().next == 0,
    ensures
        stored(bm.forest(), root, c.stack@.last().tree@->key),
        c.comes_next(bm, c.stack@.last().tree@->key),
        c.to_come(bm, c.stack@.last().tree@->key),
{
    let n = c.stack@.len() as int;
    let fr = c.stack@.last();
    let key = fr.tree@->key;
    let f = bm.forest();
    assert(c.stands_at(bm, n - 1));
    assert(c.path_to(n - 1) =~= c.path@);
    assert(c.comes_at(bm, n - 1, key));
    lemma_reached(c, bm, root, n - 1, key);
    assert(step(fr.tree@, key, fr.depth as int) == f.route(fr.guid, key));
    assert(has_leaf(fr.tree@, key, fr.depth as int));
}

/// What has been passed when the search ends at `x`, the first leaf still to
/// come.
proof fn lemma_through_last(c: Cursor, d: Cursor, bm: BufferManager, root: BlobGuid, read: Seq<Seq<u8>>, x: Seq<u8>)
    requires
        through(c, d, bm, root, read),
        stored(bm.forest(), root, x),
        d.to_come(bm, x),
        forall|s: Seq<u8>| stored(bm.forest(), root, s) && #[trigger] d.to_come(bm, s) ==> s == x || past(x, s),
    ensures
        read.push(x).no_duplicates(),
        up_to(c, bm, root, read.push(x)),
        forall|s: Seq<u8>| #[trigger] read.push(x).contains(s) <==> read.contains(s) || s == x,
        !read.contains(x),
{
    let read2 = read.push(x);
    assert(!read.contains(x));
    assert forall|s: Seq<u8>| #[trigger] read2.contains(s) <==> read.contains(s) || s == x by {
        if read.contains(s) {
            let i = choose|i: int| 0 <= i < read.len() && read[i] == s;
            assert(read2[i] == s);
        }
        assert(read2[read.len() as int] == x);
    }
    assert forall|i: int, j: int| 0 <= i < read2.len() && 0 <= j < read2.len() && i != j implies read2[i] != read2[j] by {
        if i < read.len() && j < read.len() {
        } else if i < read.len() {
            assert(read.contains(read[i]));
        } else {
            assert(read.contains(read[j]));
        }
    }
    assert forall|s: Seq<u8>| #[trigger] read2.contains(s) <==> stored(bm.forest(), root, s) && c.to_come(bm, s) && (s == read2.last() || past(s, read2.last())) by {
        if stored(bm.forest(), root, s) && c.to_come(bm, s) && past(s, x) {
            if d.to_come(bm, s) {
                let i = choose|i: int| rises_at(s, x, i);
                if s != x {
                    let j = choose|j: int| rises_at(x, s, j);
                    assert(i == j || i < j || j < i);
                }
            }
            assert(read.contains(s));
        }
        if read.contains(s) {
            assert(past(s, x));
        }
    }
}

/// A leaf that means nothing to the scan is passed.
proof fn lemma_searching_leaf(a: RangeIter, b: RangeIter, c: RangeIter, bm: BufferManager, read: Seq<Seq<u8>>)
    requires
        bm.wf(),
        searching(a, b, bm, read),
        b.cursor.stack@.len() > 0,
        b.cursor.stack@.last().tree@ is Leaf,
        b.cursor.stack@.last().next == 0,
        c == (RangeIter { cursor: c.cursor, stats: c.stats, ..b }),
        looked(b.stats, c.stats),
        c.cursor.fits(bm, c.root),
        c.cursor.stack@ == b.cursor.stack@.drop_last(),
        c.cursor.path@.is_prefix_of(b.cursor.path@),
        forall|s: Seq<u8>| b.cursor.to_come(bm, s) && !b.cursor.comes_next(bm, s) ==> #[trigger] c.cursor.to_come(bm, s),
        ({
            let x = b.cursor.stack@.last().tree@->key;
            live(bm.forest(), a.root, x) ==> !wanted(a.prefix@, a.lower_bound, user_of(x)) && !past(a.prefix@, user_of(x))
        }),
    ensures
        searching(a, c, bm, read.push(b.cursor.stack@.last().tree@->key)),
{
    let f = bm.forest();
    let root = a.root;
    let x = b.cursor.stack@.last().tree@->key;
    let read2 = read.push(x);
    lemma_leaf_to_come(b.cursor, bm, root);
    lemma_pop_onward(b.cursor, c.cursor, bm, root);
    lemma_pop_gone(b.cursor, c.cursor, bm, root, x);
    assert forall|s: Seq<u8>| stored(f, root, s) && #[trigger] b.cursor.to_come(bm, s) implies s == x || past(x, s) by {
        lemma_leaf_foremost(b.cursor, bm, root, s);
    }
    lemma_through_last(a.cursor, b.cursor, bm, root, read, x);
    assert forall|s: Seq<u8>| stored(f, root, s) && s != x implies c.cursor.to_come(bm, s) == b.cursor.to_come(bm, s) by {
        if b.cursor.to_come(bm, s) && b.cursor.comes_next(bm, s) {
            lemma_at_leaf(b.cursor, bm, root, s);
        }
    }
    assert(through(a.cursor, c.cursor, bm, root, read2)) by {
        assert forall|s: Seq<u8>| #[trigger] read2.contains(s) <==> stored(f, root, s) && a.cursor.to_come(bm, s) && !c.cursor.to_come(bm, s) by {
            assert(read.contains(s) <==> stored(f, root, s) && a.cursor.to_come(bm, s) && !b.cursor.to_come(bm, s));
            assert(stored(f, root, s) && s != x ==> c.cursor.to_come(bm, s) == b.cursor.to_come(bm, s));
            assert(a.cursor.to_come(bm, x));
        }
        assert forall|s: Seq<u8>, t: Seq<u8>| #[trigger] read2.contains(s) && stored(f, root, t) && #[trigger] c.cursor.to_come(bm, t) implies past(s, t) by {
            assert(b.cursor.to_come(bm, t));
            assert(t != x);
        }
    }
    assert forall|s: Seq<u8>| live(f, c.root, s) && wanted(c.prefix@, c.lower_bound, user_of(s)) implies #[trigger] c.cursor.to_come(bm, s) by {
        lemma_live_stored(f, root, s);
        assert(b.cursor.to_come(bm, s));
    }
}

/// An entry below which no leaf is still to come is left.
proof fn lemma_searching_pop(a: RangeIter, b: RangeIter, c: RangeIter, bm: BufferManager, read: Seq<Seq<u8>>)
    requires
        searching(a, b, bm, read),
        c == (RangeIter { cursor: c.cursor, stats: c.stats, ..b }),
        looked(b.stats, c.stats),
        c.cursor.fits(bm, c.root),
        b.cursor.stack@.len() > 0,
        c.cursor.stack@ == b.cursor.stack@.drop_last(),
        c.cursor.path@.is_prefix_of(b.cursor.path@),
        forall|s: Seq<u8>| b.cursor.to_come(bm, s) && !b.cursor.comes_next(bm, s) ==> #[trigger] c.cursor.to_come(bm, s),
        forall|s: Seq<u8>| stored(bm.forest(), b.root, s) ==> !#[trigger] b.cursor.comes_next(bm, s),
    ensures
        searching(a, c, bm, read),
{
    lemma_through_pop(a.cursor, b.cursor, c.cursor, bm, a.root, read);
    assert forall|s: Seq<u8>| live(bm.forest(), c.root, s) && wanted(c.prefix@, c.lower_bound, user_of(s)) implies #[trigger] c.cursor.to_come(bm, s) by {
        lemma_live_stored(bm.forest(), c.root, s);
        assert(b.cursor.to_come(bm, s));
    }
}

/// A node is entered.
proof fn lemma_searching_down(a: RangeIter, b: RangeIter, c: RangeIter, bm: BufferManager, read: Seq<Seq<u8>>, next: u16, bytes: Seq<u8>, below: Art)
    requires
        searching(a, b, bm, read),
        c == (RangeIter { cursor: c.cursor, stats: c.stats, ..b }),
        looked(b.stats, c.stats),
        b.cursor.stack@.len() > 0,
        advanced(b.cursor, c.cursor, bm, b.root),
        went_down(b.cursor, c.cursor, next, bytes, below),
        if b.cursor.stack@.last().tree@ is Inner {
            &&& bytes.len() == 1
            &&& next_byte(bm, b.cursor.stack@.last()) <= bytes[0]
            &&& cursor_byte(node_of(bm, b.cursor.stack@.last()), next as int) == bytes[0] + 1
        } else {
            b.cursor.stack@.last().next == 0 && next != 0
        },
    ensures
        searching(a, c, bm, read),
{
    lemma_down_onward(b.cursor, c.cursor, bm, b.root, next, bytes, below);
    lemma_through_down(a.cursor, b.cursor, c.cursor, bm, a.root, read);
    assert forall|s: Seq<u8>| live(bm.forest(), c.root, s) && wanted(c.prefix@, c.lower_bound, user_of(s)) implies #[trigger] c.cursor.to_come(bm, s) by {
        lemma_live_stored(bm.forest(), c.root, s);
        assert(b.cursor.to_come(bm, s));
    }
}

/// The leaf that a search ends at with an item.
proof fn lemma_tallied(a: RangeIter, b: RangeIter, bm: BufferManager, read: Seq<Seq<u8>>, x: Seq<u8>, item: Item, to: ScanStats)
    requires
        searching(a, b, bm, read),
        !a.terminated,
        stored(bm.forest(), a.root, x),
        b.cursor.to_come(bm, x),
        forall|s: Seq<u8>| stored(bm.forest(), a.root, s) && #[trigger] b.cursor.to_come(bm, s) ==> s == x || past(x, s),
        b.pending(user_of(x)),
        item.shows(bm.forest(), a.root, a.prefix@, a.delimiter, x),
        rose_by(a.stats, to, read.len() + 1),
    ensures
        tallied(a, bm, a.cursor, Some(item), a.stats, to),
{
    lemma_through_last(a.cursor, b.cursor, bm, a.root, read, x);
    assert(a.pending(user_of(x)));
    assert(visits(a, bm, a.cursor, Some(item), read.push(x)));
}

/// What a scan has done does not matter to where it goes on.
proof fn lemma_resumed_stats(a: RangeIter, b: RangeIter, c: RangeIter, bm: BufferManager, item: Item)
    requires
        resumed(a, b, bm, item),
        c == (RangeIter { stats: c.stats, ..b }),
    ensures
        resumed(a, c, bm, item),
{
    assert forall|u: Seq<u8>| #[trigger] c.pending(u) <==> a.pending(u) && item.before(u) by {
        assert(b.pending(u) == c.pending(u));
    }
}

/// The end of a search with an item.
proof fn lemma_gave(a: RangeIter, b: RangeIter, c: RangeIter, bm: BufferManager, read: Seq<Seq<u8>>, e: ProjectedRangeEntry)
    requires
        searching(a, b, bm, read),
        resumed(b, c, bm, item_of(e)),
        counted(a.stats, c.stats, item_of(e)),
        tallied(a, bm, a.cursor, Some(item_of(e)), a.stats, c.stats),
        shown(b, bm, e),
        least(b, bm, item_of(e).bytes()),
    ensures
        gave(a, c, bm, e),
{
    assert forall|u: Seq<u8>| #[trigger] c.pending(u) <==> a.pending(u) && item_of(e).before(u) by {
        assert(a.pending(u) == b.pending(u));
    }
    let s = choose|s: Seq<u8>|
        {
            &&& b.pending(#[trigger] user_of(s))
            &&& item_of(e).shows(bm.forest(), b.root, b.prefix@, b.delimiter, s)
            &&& e matches ProjectedRangeEntry::Key { value, version, .. } ==> match b.projection {
                RangeProjection::Records => value is Some && bm.forest().find(b.root, s) == (Route::Found { value: value->0@, seq: version.seq }),
                RangeProjection::KeysOnly => value is None,
            }
        };
    assert(a.pending(user_of(s)));
    assert(shown(a, bm, e));
    assert forall|s: Seq<u8>| #[trigger] live(bm.forest(), a.root, s) && a.pending(user_of(s)) implies !lex_lt(user_of(s), item_of(e).bytes()) by {
        assert(live(bm.forest(), b.root, s) && b.pending(user_of(s)));
    }
}

impl RangeIter {
    /// Moves the cursor on until there is something to give out.
    fn advance_to_next_entry(&mut self, bm: &BufferManager) -> (r: Option<ProjectedRangeEntry>)
        requires
            bm.wf(),
            old(self).cursor.fits(*bm, old(self).root),
            !old(self).terminated,
            old(self).stats.ok(),
            old(self).whole(*bm),
        ensures
            match r {
                Some(e) => gave(*old(self), *final(self), *bm, e),
                None => {
                    &&& *final(self) == (RangeIter { cursor: final(self).cursor, stats: final(self).stats, ..*old(self) })
                    &&& looked(old(self).stats, final(self).stats)
                    &&& tallied(*old(self), *bm, old(self).cursor, None, old(self).stats, final(self).stats)
                    &&& none_left(*old(self), *bm)
                },
            },
    {
        let ghost a = *self;
        let ghost f = bm.forest();
        let ghost mut read: Seq<Seq<u8>> = Seq::empty();
        while self.cursor.stack.len() > 0
            invariant
                bm.wf(),
                f == bm.forest(),
                a == *old(self),
                !a.terminated,
                searching(a, *self, *bm, read),
                rose_by(a.stats, self.stats, read.len()),
            decreases mass(*bm, self.cursor.stack@),
        {
            let ghost b = *self;
            let ghost n = self.cursor.stack@.len() as int;
            let ghost fr = self.cursor.stack@[n - 1];
            let ghost t = fr.tree@;
            let ghost root = self.root;
            let top: usize = self.cursor.stack.len() - 1;
            let at_ = self.cursor.stack[top].at;
            let slot = self.cursor.stack[top].slot;
            let next = self.cursor.stack[top].next;
            proof {
                assert(b.cursor.stands_at(*bm, n - 1));
                assert(b.cursor.path_to(n - 1) =~= b.cursor.path@);
                lemma_rep_root(bm.blobs@[at_ as int].frame.cells@, t);
            }
            match bm.blobs[at_].frame.node_at(slot) {
                Some(Node::Leaf(l)) => {
                    if next == 0 {
                        let action = project_range_leaf(l, self.prefix.as_slice(), &self.lower_bound, self.delimiter, self.projection);
                        self.stats.note_visit();
                        let ghost b2 = *self;
                        proof {
                            assert(searching(a, b2, *bm, read));
                            assert(rose_by(a.stats, b2.stats, read.len() + 1));
                            lemma_leaf_to_come(b2.cursor, *bm, root);
                            assert forall|s: Seq<u8>| stored(f, root, s) && #[trigger] b2.cursor.to_come(*bm, s) implies s == l.key@ || past(l.key@, s) by {
                                lemma_leaf_foremost(b2.cursor, *bm, root, s);
                            }
                        }
                        match action {
                            LeafAction::Skip => {
                                proof {
                                    if live(f, root, l.key@) {
                                        lemma_led(b2.cursor, *bm, root, n - 1, l.key@);
                                    }
                                }
                                self.cursor.pop(Ghost(*bm), Ghost(root));
                                proof {
                                    lemma_searching_leaf(a, b2, *self, *bm, read);
                                    read = read.push(l.key@);
                                }
                            },
                            LeafAction::Done => {
                                proof {
                                    assert forall|s: Seq<u8>| #[trigger] live(f, a.root, s) implies !a.pending(user_of(s)) by {
                                        if a.pending(user_of(s)) {
                                            assert(b2.cursor.to_come(*bm, s));
                                            lemma_leaf_first(b2.cursor, *bm, root, s);
                                            let u0 = user_of(l.key@);
                                            let u = user_of(s);
                                            if s != l.key@ {
                                                user_keys_keep_the_order(l.key@, s);
                                                key_order_is_total(u0, u);
                                            } else {
                                                key_order_is_total(u, u);
                                            }
                                            lemma_past_up(a.prefix@, u0, u);
                                        }
                                    }
                                    lemma_leaf_live(b2.cursor, *bm, root);
                                    lemma_through_last(a.cursor, b2.cursor, *bm, root, read, l.key@);
                                    assert(visits(a, *bm, a.cursor, None, read.push(l.key@)));
                                }
                                return None;
                            },
                            LeafAction::Key { key, value, version } => {
                                proof {
                                    lemma_leaf_live(b2.cursor, *bm, root);
                                    assert(user_of(l.key@) == key@);
                                    assert forall|s: Seq<u8>| #[trigger] live(f, b2.root, s) && b2.pending(user_of(s)) implies !lex_lt(
                                        user_of(s),
                                        key@,
                                    ) by {
                                        assert(b2.cursor.to_come(*bm, s));
                                        lemma_leaf_first(b2.cursor, *bm, root, s);
                                        if s != l.key@ {
                                            user_keys_keep_the_order(l.key@, s);
                                        }
                                        key_order_is_total(key@, user_of(s));
                                    }
                                }
                                self.take_key(key.as_slice(), Ghost(*bm), Ghost(version.seq));
                                let ghost taken = *self;
                                self.stats.note_key();
                                let e = ProjectedRangeEntry::Key { key, value, version };
                                proof {
                                    let s = l.key@;
                                    assert(b2.pending(user_of(s)));
                                    assert(item_of(e).shows(f, b2.root, b2.prefix@, b2.delimiter, s));
                                    assert(shown(b2, *bm, e));
                                    lemma_resumed_stats(b2, taken, *self, *bm, item_of(e));
                                    lemma_tallied(a, b2, *bm, read, s, item_of(e), self.stats);
                                    lemma_gave(a, b2, *self, *bm, read, e);
                                }
                                return Some(e);
                            },
                            LeafAction::CommonPrefix(common) => {
                                let ghost w = user_of(l.key@);
                                proof {
                                    lemma_leaf_live(b2.cursor, *bm, root);
                                    lemma_prefix_agree(common@, w);
                                    assert forall|s: Seq<u8>| #[trigger] live(f, b2.root, s) && b2.pending(user_of(s)) implies !lex_lt(
                                        user_of(s),
                                        common@,
                                    ) by {
                                        assert(b2.cursor.to_come(*bm, s));
                                        lemma_leaf_first(b2.cursor, *bm, root, s);
                                        lemma_prefix_not_after(common@, w);
                                        if s != l.key@ {
                                            user_keys_keep_the_order(l.key@, s);
                                            if lex_lt(user_of(s), common@) {
                                                key_order_is_transitive(w, user_of(s), common@);
                                            }
                                        }
                                    }
                                }
                                self.take_leaf_common(common.as_slice(), Ghost(*bm), Ghost(w));
                                let ghost taken = *self;
                                self.stats.note_rollup();
                                let e = ProjectedRangeEntry::CommonPrefix(common);
                                proof {
                                    let s = l.key@;
                                    assert(b2.pending(user_of(s)));
                                    assert(item_of(e).shows(f, b2.root, b2.prefix@, b2.delimiter, s));
                                    assert(shown(b2, *bm, e));
                                    lemma_resumed_stats(b2, taken, *self, *bm, item_of(e));
                                    lemma_tallied(a, b2, *bm, read, s, item_of(e), self.stats);
                                    lemma_gave(a, b2, *self, *bm, read, e);
                                }
                                return Some(e);
                            },
                        }
                    } else {
                        self.cursor.pop(Ghost(*bm), Ghost(root));
                        proof {
                            lemma_searching_pop(a, b, *self, *bm, read);
                        }
                    }
                },
                Some(Node::Prefix(p)) => {
                    if next != 0 {
                        self.cursor.pop(Ghost(*bm), Ghost(root));
                        proof {
                            lemma_searching_pop(a, b, *self, *bm, read);
                        }
                    } else {
                        let frame = &bm.blobs[at_].frame;
                        let ghost below = *t->child;
                        let ghost full = b.cursor.path@ + p.bytes@;
                        if frame.header.tombstone_leaf_cnt == 0 && begins_with_live_leaf(frame, p.child, Ghost(below), Ghost(full)) {
                            match self.try_rollup(p.bytes.as_slice(), bm, Ghost(below), Ghost(a), Ghost(read)) {
                                Some(e) => {
                                    return Some(e);
                                },
                                None => {},
                            }
                        }
                        self.cursor.enter_prefix(p.bytes.as_slice(), p.child, Ghost(*bm), Ghost(root));
                        proof {
                            lemma_searching_down(a, b, *self, *bm, read, 1, p.bytes@, below);
                        }
                    }
                },
                Some(Node::Blob(bn)) => {
                    if next != 0 {
                        self.cursor.pop(Ghost(*bm), Ghost(root));
                        proof {
                            lemma_searching_pop(a, b, *self, *bm, read);
                        }
                    } else {
                        let child = pin_child(bm, bn.child_blob_guid, Ghost(fr), Ghost(b.cursor.path@));
                        let frame = &bm.blobs[child].frame;
                        let ghost below = frame.tree();
                        let ghost full = b.cursor.path@ + bn.bytes@;
                        proof {
                            assert(f.has(bn.child_blob_guid));
                            assert(frame.wf(full));
                        }
                        if frame.header.tombstone_leaf_cnt == 0 && begins_with_live_leaf(frame, frame.header.root_slot, Ghost(below), Ghost(full)) {
                            match self.try_rollup(bn.bytes.as_slice(), bm, Ghost(below), Ghost(a), Ghost(read)) {
                                Some(e) => {
                                    return Some(e);
                                },
                                None => {},
                            }
                        }
                        self.cursor.enter_blob(bn.bytes.as_slice(), child, bm, Ghost(root));
                        proof {
                            lemma_searching_down(a, b, *self, *bm, read, 1, bn.bytes@, below);
                        }
                    }
                },
                Some(Node::EmptyRoot) => {
                    proof {
                        assert forall|s: Seq<u8>| stored(f, root, s) implies !#[trigger] b.cursor.comes_next(*bm, s) by {
                            if b.cursor.comes_next(*bm, s) {
                                lemma_led_to(b.cursor, *bm, root, n - 1, s);
                            }
                        }
                    }
                    self.cursor.pop(Ghost(*bm), Ghost(root));
                    proof {
                        lemma_searching_pop(a, b, *self, *bm, read);
                    }
                },
                Some(nd) => {
                    let found = next_inner_child_from(nd, next);
                    proof {
                        assert forall|s: Seq<u8>|
                            #![trigger b.cursor.comes_next(*bm, s)]
                            stored(f, root, s) && b.cursor.comes_next(*bm, s) implies found matches Some((byte, _, _)) && s[b.cursor.path@.len() as int] >= byte by {
                            lemma_led_to(b.cursor, *bm, root, n - 1, s);
                            let d = b.cursor.path@.len() as int;
                            assert(t->kids[s[d] as int] is Some);
                            assert(kid(*nd, s[d] as int) != 0);
                        }
                    }
                    match found {
                        None => {
                            self.cursor.pop(Ghost(*bm), Ghost(root));
                            proof {
                                lemma_searching_pop(a, b, *self, *bm, read);
                            }
                        },
                        Some((byte, child, after_)) => {
                            self.cursor.enter_inner(byte, child, after_, Ghost(*bm), Ghost(root));
                            proof {
                                lemma_searching_down(a, b, *self, *bm, read, after_, seq![byte], t->kids[byte as int]->0);
                            }
                        },
                    }
                },
                None => {
                    assert(false);
                    return None;
                },
            }
        }
        proof {
            assert forall|s: Seq<u8>| #[trigger] live(f, a.root, s) implies !a.pending(user_of(s)) by {
                if a.pending(user_of(s)) {
                    assert(self.cursor.to_come(*bm, s));
                }
            }
            assert forall|s: Seq<u8>| #[trigger] read.contains(s) <==> stored(f, a.root, s) && a.cursor.to_come(*bm, s) by {
                assert(!self.cursor.to_come(*bm, s));
            }
            assert(visits(a, *bm, a.cursor, None, read)) by {
                if read.len() > 0 {
                    assert(read.contains(read.last()));
                }
            }
        }
        None
    }

    /// Gives out the common prefix of everything behind the segment that the
    /// cursor stands at, if there is one and it is wanted.
    fn try_rollup(&mut self, bytes: &[u8], bm: &BufferManager, Ghost(below): Ghost<Art>, Ghost(a): Ghost<RangeIter>, Ghost(read): Ghost<Seq<Seq<u8>>>) -> (r: Option<ProjectedRangeEntry>)
        requires
            bm.wf(),
            searching(a, *old(self), *bm, read),
            rose_by(a.stats, old(self).stats, read.len()),
            !a.terminated,
            old(self).cursor.stack@.len() > 0,
            old(self).cursor.stack@.last().next == 0,
            match old(self).cursor.stack@.last().tree@ {
                Art::Prefix { bytes: b, child, .. } => b == bytes@ && *child == below,
                Art::Blob { bytes: b, guid, .. } => {
                    &&& b == bytes@
                    &&& bm.forest().blobs[guid].tree() == below
                    &&& bm.forest().base[guid] == old(self).cursor.path@ + bytes@
                    &&& bm.forest().rank[guid] < bm.forest().rank[old(self).cursor.stack@.last().guid]
                },
                _ => false,
            },
            exists|s: Seq<u8>| first_leaf(below, old(self).cursor.path@ + bytes@, s),
        ensures
            ({
                let full = old(self).cursor.path@ + bytes@;
                let rolls = rolls_up(old(self).prefix@, old(self).lower_bound, old(self).delimiter, full);
                match r {
                    Some(e) => {
                        &&& rolls
                        &&& item_of(e) is Common
                        &&& folds(old(self).prefix@, old(self).delimiter->0, full, item_of(e).bytes())
                        &&& gave(a, *final(self), *bm, e)
                    },
                    None => !rolls && *final(self) == *old(self),
                }
            }),
    {
        let ghost b = *self;
        let ghost root = self.root;
        let ghost full = self.cursor.path@ + bytes@;
        let ghost f = bm.forest();
        proof {
            let s0 = choose|s: Seq<u8>| first_leaf(below, full, s);
            lemma_segment_len(b.cursor, *bm, root, bytes@, below, s0);
            lemma_prefix_agree(full, s0);
        }
        match prepare_segment_rollup(self.prefix.as_slice(), &self.lower_bound, self.delimiter, self.cursor.path.as_slice(), bytes) {
            None => None,
            Some(common) => {
                let ghost d = self.delimiter->0;
                let ghost s0 = choose|s: Seq<u8>| first_leaf(below, full, s);
                let ghost w = user_of(s0);
                proof {
                    lemma_segment_live(b.cursor, *bm, root, bytes@, below, s0);
                    lemma_folds_longer(b.prefix@, d, full, common@, s0);
                    assert(b.prefix@.is_prefix_of(common@)) by {
                        lemma_prefix_agree(b.prefix@, full);
                        lemma_prefix_agree(b.prefix@, common@);
                    }
                    lemma_wanted_below(b.prefix@, b.lower_bound, common@, w);
                    assert forall|s: Seq<u8>| #[trigger] live(f, b.root, s) && b.pending(user_of(s)) implies !lex_lt(user_of(s), common@) by {
                        assert(b.cursor.to_come(*bm, s));
                        lemma_segment_first(b.cursor, *bm, root, b.prefix@, d, bytes@, common@, s);
                        if common@.is_prefix_of(user_of(s)) {
                            lemma_prefix_not_after(common@, user_of(s));
                        } else {
                            past_is_after_all(common@, user_of(s));
                            key_order_is_total(common@, user_of(s));
                        }
                    }
                }
                self.stats.note_visit();
                let ghost b2 = *self;
                self.take_segment(common.as_slice(), bytes, Ghost(*bm), Ghost(d), Ghost(w));
                let ghost taken = *self;
                self.stats.note_rollup();
                let e = ProjectedRangeEntry::CommonPrefix(common);
                proof {
                    assert(searching(a, b2, *bm, read));
                    assert(b2.pending(user_of(s0)));
                    assert(item_of(e).shows(f, b2.root, b2.prefix@, b2.delimiter, s0));
                    assert(shown(b2, *bm, e));
                    assert forall|s: Seq<u8>| #[trigger] live(f, b2.root, s) && b2.pending(user_of(s)) implies !lex_lt(user_of(s), common@) by {
                        assert(live(f, b.root, s) && b.pending(user_of(s)));
                    }
                    lemma_resumed_stats(b2, taken, *self, *bm, item_of(e));
                    lemma_live_stored(f, root, s0);
                    assert(b.cursor.to_come(*bm, s0));
                    assert forall|s: Seq<u8>| stored(f, a.root, s) && #[trigger] b2.cursor.to_come(*bm, s) implies s == s0 || past(s0, s) by {
                        lemma_segment_foremost(b.cursor, *bm, root, bytes@, below, s0, s);
                    }
                    lemma_tallied(a, b2, *bm, read, s0, item_of(e), self.stats);
                    lemma_gave(a, b2, *self, *bm, read, e);
                }
                Some(e)
            },
        }
    }
}

/// Where a search for the first key begins.
#[derive(Debug, Clone, Copy, PartialEq, Eq, Structural)]
pub enum SeekStart {
    /// At the first leaf.
    First,
    /// Nowhere: nothing is wanted.
    Empty,
    /// At the prefix.
    Prefix,
    /// At the bound.
    LowerBound,
}

/// Where the search for the next key of a scan begins.
pub open spec fn seek_start(it: RangeIter) -> SeekStart {
    match it.lower_bound {
        None => if it.prefix@.len() == 0 {
            SeekStart::First
        } else {
            SeekStart::Prefix
        },
        Some(b) => if it.prefix@.len() > 0 && lex_lt(b.key@, it.prefix@) {
            SeekStart::Prefix
        } else if it.prefix@.len() > 0 && past(it.prefix@, b.key@) {
            SeekStart::Empty
        } else {
            SeekStart::LowerBound
        },
    }
}

/// Whether cursor `c` stands where a search for `target` ends, with no leaf
/// from there on behind it.
pub open spec fn placed_at(it: RangeIter, bm: BufferManager, c: Cursor, target: Seq<u8>) -> bool {
    &&& forall|s: Seq<u8>| stored(bm.forest(), it.root, s) && !lex_lt(user_of(s), target) ==> #[trigger] c.to_come(bm, s)
    &&& found_place(c, it.prefix@, it.delimiter, target)
}

/// Whether cursor `c` stands where a scan begins when it searches its way
/// down.
pub open spec fn opened(it: RangeIter, bm: BufferManager, c: Cursor) -> bool {
    &&& c.fits(bm, it.root)
    &&& match seek_start(it) {
        SeekStart::First => forall|s: Seq<u8>| stored(bm.forest(), it.root, s) ==> #[trigger] c.to_come(bm, s),
        SeekStart::Prefix => placed_at(it, bm, c, it.prefix@),
        SeekStart::LowerBound => placed_at(it, bm, c, it.lower_bound->0.key@),
        SeekStart::Empty => false,
    }
}

/// Whether the search for the next item of a scan begins at cursor `c`: where
/// the scan stands, or, for a scan that is new or stale, where its way down
/// ends.
pub open spec fn looks_from(it: RangeIter, bm: BufferManager, c: Cursor) -> bool {
    if it.initialized && !is_stale(it, bm) {
        c == it.cursor
    } else {
        opened(it, bm, c)
    }
}

/// Whether `b` counts the visits that `a` makes in search of `item`. A scan
/// that has ended, or that wants nothing, makes none.
pub open spec fn visited_for(a: RangeIter, b: RangeIter, bm: BufferManager, item: Option<Item>) -> bool {
    if a.terminated || (!(a.initialized && !is_stale(a, bm)) && seek_start(a) is Empty) {
        item is None && b.stats.visited == a.stats.visited
    } else {
        exists|c: Cursor| #[trigger] looks_from(a, bm, c) && tallied(a, bm, c, item, a.stats, b.stats)
    }
}

/// Whether the scan will have to search its way down again.
pub open spec fn is_stale(it: RangeIter, bm: BufferManager) -> bool {
    it.initialized && !it.terminated && !it.cursor.fresh(bm)
}

/// One more, if the counter holds it.
pub open spec fn bumped(n: u64) -> u64 {
    if n < u64::MAX {
        (n + 1) as u64
    } else {
        n
    }
}

/// What a scan has done when it begins to look for the next item.
pub open spec fn started(it: RangeIter, bm: BufferManager) -> ScanStats {
    if is_stale(it, bm) {
        ScanStats { restarts: bumped(it.stats.restarts), ..it.stats }
    } else {
        it.stats
    }
}

impl RangeIter {
    /// Where the search for the first key begins.
    fn effective_seek_start(&self) -> (r: SeekStart)
        ensures
            r == seek_start(*self),
            r is Empty ==> forall|u: Seq<u8>| !#[trigger] wanted(self.prefix@, self.lower_bound, u),
    {
        match &self.lower_bound {
            None => if self.prefix.len() == 0 {
                SeekStart::First
            } else {
                SeekStart::Prefix
            },
            Some(bound) => {
                if self.prefix.len() == 0 {
                    SeekStart::LowerBound
                } else if bytes_lt(bound.key.as_slice(), self.prefix.as_slice()) {
                    SeekStart::Prefix
                } else if key_at_or_past_prefix_successor(bound.key.as_slice(), self.prefix.as_slice()) {
                    proof {
                        assert forall|u: Seq<u8>| !#[trigger] wanted(self.prefix@, self.lower_bound, u) by {
                            if bound.lets(u) {
                                key_order_is_total(bound.key@, u);
                                lemma_past_up(self.prefix@, bound.key@, u);
                            }
                        }
                    }
                    SeekStart::Empty
                } else {
                    SeekStart::LowerBound
                }
            },
        }
    }

    /// Searches the way down to the first key.
    fn init_descent(&mut self, bm: &BufferManager) -> (r: bool)
        requires
            bm.wf(),
            is_root(*bm, old(self).root),
        ensures
            *final(self) == (RangeIter { cursor: final(self).cursor, ..*old(self) }),
            r ==> opened(*old(self), *bm, final(self).cursor) && final(self).whole(*bm),
            r == !(seek_start(*old(self)) is Empty),
            !r ==> forall|u: Seq<u8>| !#[trigger] wanted(final(self).prefix@, final(self).lower_bound, u),
    {
        let start = self.effective_seek_start();
        if start == SeekStart::Empty {
            return false;
        }
        let at_ = match bm.position(&self.root) {
            Some(i) => i,
            None => {
                assert(false);
                return false;
            },
        };
        self.cursor = Cursor::start(bm, at_);
        let ghost c0 = self.cursor;
        proof {
            assert forall|s: Seq<u8>| live(bm.forest(), self.root, s) implies #[trigger] c0.to_come(*bm, s) by {
                lemma_live_stored(bm.forest(), self.root, s);
            }
        }
        match start {
            SeekStart::Prefix => {
                seek_to_lower_bound(&mut self.cursor, bm, self.prefix.as_slice(), self.delimiter, self.prefix.as_slice(), Ghost(self.root));
                proof {
                    assert forall|s: Seq<u8>| live(bm.forest(), self.root, s) && wanted(self.prefix@, self.lower_bound, user_of(s)) implies #[trigger] self.cursor.to_come(
                        *bm,
                        s,
                    ) by {
                        lemma_live_stored(bm.forest(), self.root, s);
                        assert(c0.to_come(*bm, s));
                        lemma_prefix_not_after(self.prefix@, user_of(s));
                    }
                }
            },
            SeekStart::LowerBound => {
                match &self.lower_bound {
                    Some(bound) => {
                        seek_to_lower_bound(&mut self.cursor, bm, self.prefix.as_slice(), self.delimiter, bound.key.as_slice(), Ghost(self.root));
                        proof {
                            assert forall|s: Seq<u8>| live(bm.forest(), self.root, s) && wanted(self.prefix@, self.lower_bound, user_of(s)) implies #[trigger] self.cursor.to_come(
                                *bm,
                                s,
                            ) by {
                                lemma_live_stored(bm.forest(), self.root, s);
                                assert(c0.to_come(*bm, s));
                                key_order_is_total(bound.key@, user_of(s));
                            }
                        }
                    },
                    None => {},
                }
            },
            _ => {
                proof {
                    assert(self.whole(*bm));
                }
            },
        }
        true
    }

    /// Forgets the way down.
    fn restart_cursor(&mut self)
        requires
            old(self).stats.ok(),
        ensures
            *final(self) == (RangeIter {
                cursor: final(self).cursor,
                initialized: false,
                stats: ScanStats { restarts: bumped(old(self).stats.restarts), ..old(self).stats },
                ..*old(self)
            }),
    {
        if self.stats.restarts < u64::MAX {
            self.stats.restarts = self.stats.restarts + 1;
        }
        self.cursor = Cursor { stack: Vec::new(), path: Vec::new() };
        self.initialized = false;
    }

    /// The next thing to give out. The way down is searched again if a blob
    /// on it has changed.
    fn next_projected(&mut self, bm: &BufferManager) -> (r: Option<ProjectedRangeEntry>)
        requires
            bm.wf(),
            is_root(*bm, old(self).root),
            old(self).kept(*bm),
        ensures
            match r {
                Some(e) => {
                    &&& shown(*old(self), *bm, e)
                    &&& least(*old(self), *bm, item_of(e).bytes())
                    &&& forall|u: Seq<u8>| #[trigger] final(self).pending(u) <==> old(self).pending(u) && item_of(e).before(u)
                    &&& counted(started(*old(self), *bm), final(self).stats, item_of(e))
                    &&& visited_for(*old(self), *final(self), *bm, Some(item_of(e)))
                },
                None => {
                    &&& final(self).terminated
                    &&& none_left(*old(self), *bm)
                    &&& looked(started(*old(self), *bm), final(self).stats)
                    &&& visited_for(*old(self), *final(self), *bm, None)
                },
            },
            old(self).same_scan(*final(self)),
            final(self).kept(*bm),
    {
        let ghost a = *self;
        if self.terminated {
            return None;
        }
        if self.initialized && !self.cursor.path_is_still_valid(bm) {
            self.restart_cursor();
        }
        let ghost b = *self;
        if !self.initialized {
            if !self.init_descent(bm) {
                self.terminated = true;
                proof {
                    assert forall|s: Seq<u8>| #[trigger] live(bm.forest(), a.root, s) implies !a.pending(user_of(s)) by {
                        assert(!wanted(self.prefix@, self.lower_bound, user_of(s)));
                    }
                }
                return None;
            }
            self.initialized = true;
        } else {
            proof {
                assert forall|s: Seq<u8>| live(bm.forest(), a.root, s) && wanted(a.prefix@, a.lower_bound, user_of(s)) implies #[trigger] a.cursor.to_come(
                    *bm,
                    s,
                ) by {
                    lemma_may_hold(a.cursor, *bm, a.root, s);
                }
            }
        }
        let ghost c = *self;
        proof {
            assert(c.cursor.fits(*bm, c.root));
            assert(c.whole(*bm));
            assert(opened(b, *bm, c.cursor) ==> opened(a, *bm, c.cursor));
            assert(looks_from(a, *bm, c.cursor));
        }
        let r = self.advance_to_next_entry(bm);
        proof {
            let item: Option<Item> = if r is Some {
                Some(item_of(r->0))
            } else {
                None
            };
            lemma_tallied_same(c, a, *bm, c.cursor, item, c.stats, self.stats);
        }
        match r {
            None => {
                self.terminated = true;
                proof {
                    assert forall|s: Seq<u8>| #[trigger] live(bm.forest(), a.root, s) implies !a.pending(user_of(s)) by {
                        assert(live(bm.forest(), c.root, s));
                        assert(a.pending(user_of(s)) == c.pending(user_of(s)));
                    }
                }
                None
            },
            Some(e) => {
                proof {
                    assert forall|u: Seq<u8>| #[trigger] self.pending(u) <==> a.pending(u) && item_of(e).before(u) by {
                        assert(a.pending(u) == c.pending(u));
                    }
                    lemma_shown_same(c, a, *bm, e);
                    assert forall|s: Seq<u8>| #[trigger] live(bm.forest(), a.root, s) && a.pending(user_of(s)) implies !lex_lt(
                        user_of(s),
                        item_of(e).bytes(),
                    ) by {
                        assert(live(bm.forest(), c.root, s));
                        assert(a.pending(user_of(s)) == c.pending(user_of(s)));
                    }
                    lemma_stamped(self.cursor, *bm, self.root);
                }
                Some(e)
            },
        }
    }
}

/// What a search visits does not depend on where the scan stood.
proof fn lemma_tallied_same(a: RangeIter, b: RangeIter, bm: BufferManager, c: Cursor, item: Option<Item>, from: ScanStats, to: ScanStats)
    requires
        tallied(a, bm, c, item, from, to),
        a.same_scan(b),
        b.lower_bound == a.lower_bound,
        b.terminated == a.terminated,
        b.stats.visited == from.visited,
    ensures
        tallied(b, bm, c, item, b.stats, to),
{
    let read = choose|read: Seq<Seq<u8>>| #[trigger] visits(a, bm, c, item, read) && rose_by(from, to, read.len());
    assert forall|u: Seq<u8>| a.pending(u) == #[trigger] b.pending(u) by {}
    assert(visits(b, bm, c, item, read));
}

proof fn lemma_shown_same(a: RangeIter, b: RangeIter, bm: BufferManager, e: ProjectedRangeEntry)
    requires
        shown(a, bm, e),
        a.same_scan(b),
        b.lower_bound == a.lower_bound,
        b.terminated == a.terminated,
    ensures
        shown(b, bm, e),
{
    let s = choose|s: Seq<u8>|
        {
            &&& a.pending(#[trigger] user_of(s))
            &&& item_of(e).shows(bm.forest(), a.root, a.prefix@, a.delimiter, s)
            &&& e matches ProjectedRangeEntry::Key { value, version, .. } ==> match a.projection {
                RangeProjection::Records => value is Some && bm.forest().find(a.root, s) == (Route::Found { value: value->0@, seq: version.seq }),
                RangeProjection::KeysOnly => value is None,
            }
        };
    assert(b.pending(user_of(s)));
}

/// What a record of a scan stands for.
pub open spec fn record_item(e: RangeEntry) -> Item {
    match e {
        RangeEntry::Key { key, version, .. } => Item::Key { key: key@, seq: version.seq },
        RangeEntry::CommonPrefix(common) => Item::Common { common: common@ },
    }
}

/// What a key of a scan stands for.
pub open spec fn key_item(e: KeyRangeEntry) -> Item {
    match e {
        KeyRangeEntry::Key { key, version } => Item::Key { key: key@, seq: version.seq },
        KeyRangeEntry::CommonPrefix(common) => Item::Common { common: common@ },
    }
}

/// Whether an item shows a live record that the scan wants.
pub open spec fn shows_pending(a: RangeIter, bm: BufferManager, item: Item) -> bool {
    exists|s: Seq<u8>| a.pending(#[trigger] user_of(s)) && item.shows(bm.forest(), a.root, a.prefix@, a.delimiter, s)
}

/// Whether a record that the scan wants has this key and value.
pub open spec fn shows_record(a: RangeIter, bm: BufferManager, key: Seq<u8>, value: Seq<u8>, seq: u64) -> bool {
    exists|s: Seq<u8>| #[trigger] user_of(s) == key && bm.forest().find(a.root, s) == (Route::Found { value, seq })
}

/// Whether `b` is scan `a` after it gave out `item`.
pub open spec fn went_on(a: RangeIter, b: RangeIter, bm: BufferManager, item: Item) -> bool {
    &&& shows_pending(a, bm, item)
    &&& least(a, bm, item.bytes())
    &&& forall|u: Seq<u8>| #[trigger] b.pending(u) <==> a.pending(u) && item.before(u)
    &&& counted(started(a, bm), b.stats, item)
    &&& visited_for(a, b, bm, Some(item))
}

/// Whether `b` is scan `a` after it ended.
pub open spec fn ended(a: RangeIter, b: RangeIter, bm: BufferManager) -> bool {
    &&& b.terminated
    &&& none_left(a, bm)
    &&& looked(started(a, bm), b.stats)
    &&& visited_for(a, b, bm, None)
}

/// Fails if the tree was dropped.
pub fn ensure_live(dropped: bool) -> (r: Result<()>)
    ensures
        dropped ==> r == Err::<(), Error>(Error::TreeDropped),
        !dropped ==> r is Ok,
{
    if dropped {
        Err(Error::TreeDropped)
    } else {
        Ok(())
    }
}

/// Whether `b` is scan `a` after it found that the tree was dropped.
pub open spec fn cut_off(a: RangeIter, b: RangeIter) -> bool {
    b == (RangeIter { terminated: true, ..a }) && !a.terminated
}

impl RangeIter {
    /// Ends the scan if the tree was dropped.
    pub(crate) fn ensure_live(&mut self, dropped: bool) -> (r: Result<()>)
        requires
            !old(self).terminated,
        ensures
            dropped ==> r == Err::<(), Error>(Error::TreeDropped) && cut_off(*old(self), *final(self)),
            !dropped ==> r is Ok && *final(self) == *old(self),
    {
        match ensure_live(dropped) {
            Ok(()) => Ok(()),
            Err(e) => {
                self.terminated = true;
                Err(e)
            },
        }
    }

    /// The next record, or common prefix, in key order. It is live in `bm`
    /// and was not given out before. Nothing live that the scan wants is
    /// passed over, whatever was written since the last call. Over a
    /// well-formed store only a tree that was `dropped` makes it fail, once.
    pub fn next(&mut self, bm: &BufferManager, dropped: bool) -> (r: Option<Result<RangeEntry>>)
        requires
            bm.wf(),
            is_root(*bm, old(self).root),
            old(self).kept(*bm),
            old(self).projection is Records,
        ensures
            match r {
                Some(Ok(e)) => {
                    &&& !dropped
                    &&& went_on(*old(self), *final(self), *bm, record_item(e))
                    &&& e matches RangeEntry::Key { key, value, version } ==> shows_record(*old(self), *bm, key@, value@, version.seq)
                },
                Some(Err(e)) => dropped && e is TreeDropped && cut_off(*old(self), *final(self)),
                None => (dropped ==> old(self).terminated) && ended(*old(self), *final(self), *bm),
            },
            old(self).same_scan(*final(self)),
            final(self).kept(*bm),
    {
        let ghost a = *self;
        if !self.terminated {
            match self.ensure_live(dropped) {
                Ok(()) => {},
                Err(e) => {
                    return Some(Err(e));
                },
            }
        }
        match self.next_projected(bm) {
            None => None,
            Some(e) => {
                let ghost e0 = e;
                proof {
                    let s = choose|s: Seq<u8>|
                        {
                            &&& a.pending(#[trigger] user_of(s))
                            &&& item_of(e0).shows(bm.forest(), a.root, a.prefix@, a.delimiter, s)
                            &&& e0 matches ProjectedRangeEntry::Key { value, version, .. } ==> match a.projection {
                                RangeProjection::Records => value is Some && bm.forest().find(a.root, s) == (Route::Found {
                                    value: value->0@,
                                    seq: version.seq,
                                }),
                                RangeProjection::KeysOnly => value is None,
                            }
                        };
                    assert(a.pending(user_of(s)) && item_of(e0).shows(bm.forest(), a.root, a.prefix@, a.delimiter, s));
                    assert(shows_pending(a, *bm, item_of(e0)));
                    if let ProjectedRangeEntry::Key { key, value, version } = e0 {
                        assert(user_of(s) == key@);
                        assert(shows_record(a, *bm, key@, value->0@, version.seq));
                    }
                }
                match e {
                    ProjectedRangeEntry::Key { key, value, version } => {
                        let value: Vec<u8> = match value {
                            Some(v) => v,
                            None => {
                                assert(false);
                                Vec::new()
                            },
                        };
                        Some(Ok(RangeEntry::Key { key, value, version }))
                    },
                    ProjectedRangeEntry::CommonPrefix(common) => Some(Ok(RangeEntry::CommonPrefix(common))),
                }
            },
        }
    }

    /// The next key, or common prefix, in key order.
    pub(crate) fn next_key(&mut self, bm: &BufferManager) -> (r: Option<KeyRangeEntry>)
        requires
            bm.wf(),
            is_root(*bm, old(self).root),
            old(self).kept(*bm),
        ensures
            match r {
                Some(e) => went_on(*old(self), *final(self), *bm, key_item(e)),
                None => ended(*old(self), *final(self), *bm),
            },
            old(self).same_scan(*final(self)),
            final(self).kept(*bm),
    {
        let ghost a = *self;
        match self.next_projected(bm) {
            None => None,
            Some(e) => {
                let ghost e0 = e;
                proof {
                    let s = choose|s: Seq<u8>|
                        {
                            &&& a.pending(#[trigger] user_of(s))
                            &&& item_of(e0).shows(bm.forest(), a.root, a.prefix@, a.delimiter, s)
                            &&& e0 matches ProjectedRangeEntry::Key { value, version, .. } ==> match a.projection {
                                RangeProjection::Records => value is Some && bm.forest().find(a.root, s) == (Route::Found {
                                    value: value->0@,
                                    seq: version.seq,
                                }),
                                RangeProjection::KeysOnly => value is None,
                            }
                        };
                    assert(a.pending(user_of(s)) && item_of(e0).shows(bm.forest(), a.root, a.prefix@, a.delimiter, s));
                    assert(shows_pending(a, *bm, item_of(e0)));
                }
                match e {
                    ProjectedRangeEntry::Key { key, version, .. } => Some(KeyRangeEntry::Key { key, version }),
                    ProjectedRangeEntry::CommonPrefix(common) => Some(KeyRangeEntry::CommonPrefix(common)),
                }
            },
        }
    }
}

/// A scan outlives every change of the store: it goes on over the changed
/// store from where it stands.
pub proof fn scans_outlive_writes(it: RangeIter, a: BufferManager, b: BufferManager)
    requires
        a.wf(),
        b.wf(),
        versioned(a, b),
        it.kept(a),
    ensures
        it.kept(b),
{
    if it.initialized && !it.terminated && it.cursor.fresh(b) {
        lemma_still_fits(it.cursor, a, b, it.root);
        assert forall|s: Seq<u8>| it.cursor.may_hold(s) && wanted(it.prefix@, it.lower_bound, user_of(s)) implies #[trigger] it.cursor.to_come(b, s) by {
            assert(it.cursor.to_come(a, s));
        }
    }
}

/// A scan of the records below a root, not yet begun.
pub struct RangeBuilder {
    pub root: BlobGuid,
    pub prefix: KeyBuf,
    pub start_after: Option<KeyBuf>,
    pub delimiter: Option<u8>,
}

impl RangeBuilder {
    /// All records below `root`.
    pub fn new(root: BlobGuid) -> (r: RangeBuilder)
        ensures
            r.root == root,
            r.prefix@.len() == 0,
            r.start_after is None,
            r.delimiter is None,
    {
        RangeBuilder { root, prefix: KeyBuf::new(), start_after: None, delimiter: None }
    }

    /// Only keys that begin with `prefix`.
    pub fn prefix(self, prefix: &[u8]) -> (r: RangeBuilder)
        ensures
            r == (RangeBuilder { prefix: r.prefix, ..self }),
            r.prefix@ == prefix@,
    {
        RangeBuilder { root: self.root, prefix: KeyBuf::from_slice(prefix), start_after: self.start_after, delimiter: self.delimiter }
    }

    /// Only keys after `key`.
    pub fn start_after(self, key: &[u8]) -> (r: RangeBuilder)
        ensures
            r == (RangeBuilder { start_after: r.start_after, ..self }),
            r.start_after matches Some(k) && k@ == key@,
    {
        RangeBuilder { root: self.root, prefix: self.prefix, start_after: Some(KeyBuf::from_slice(key)), delimiter: self.delimiter }
    }

    /// Folds keys together up to the first `byte` past the prefix.
    pub fn delimiter(self, byte: u8) -> (r: RangeBuilder)
        ensures
            r == (RangeBuilder { delimiter: Some(byte), ..self }),
    {
        RangeBuilder { root: self.root, prefix: self.prefix, start_after: self.start_after, delimiter: Some(byte) }
    }

    /// Whether the scan wants key `u`.
    pub open spec fn wants(&self, u: Seq<u8>) -> bool {
        &&& self.prefix@.is_prefix_of(u)
        &&& self.start_after matches Some(k) ==> lex_lt(k@, u)
    }

    /// Begins the scan.
    pub fn into_iter(self) -> (r: RangeIter)
        ensures
            begins(self, r),
            r.projection is Records,
    {
        self.into_iter_with_projection(RangeProjection::Records)
    }

    pub(crate) fn into_iter_with_projection(&self, projection: RangeProjection) -> (r: RangeIter)
        ensures
            begins(*self, r),
            r.projection == projection,
    {
        let lower_bound: Option<LowerBound> = match &self.start_after {
            Some(k) => Some(LowerBound::exclusive(copy_bytes(k.as_slice()))),
            None => None,
        };
        RangeIter {
            root: self.root,
            cursor: Cursor { stack: Vec::new(), path: Vec::new() },
            prefix: copy_bytes(self.prefix.as_slice()),
            lower_bound,
            delimiter: self.delimiter,
            projection,
            initialized: false,
            terminated: false,
            stats: ScanStats::zero(),
        }
    }
}

/// Whether `it` is the beginning of scan `b`, over any store.
pub open spec fn begins(b: RangeBuilder, it: RangeIter) -> bool {
    &&& it.root == b.root
    &&& it.prefix@ == b.prefix@
    &&& it.delimiter == b.delimiter
    &&& forall|u: Seq<u8>| #[trigger] it.pending(u) == b.wants(u)
    &&& forall|bm: BufferManager| #[trigger] it.kept(bm)
    &&& !it.initialized
    &&& !it.terminated
    &&& it.stats.visited == 0
    &&& it.stats.returned == 0
    &&& it.stats.rollup == 0
    &&& it.stats.restarts == 0
}

} // verus!
