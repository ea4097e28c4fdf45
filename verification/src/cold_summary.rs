//! What an index of cold blobs keeps of a blob.
use vstd::prelude::*;

use crate::art::{at, keyed, rep, slot_of, step, Art, Route};
use crate::errors::{Error, Result};
use crate::frame::BlobFrame;
use crate::insert::{copy_bytes, lemma_rep_root};
use crate::key::matches_at;
use crate::layout::{BlobGuid, Leaf, Node};
use crate::node::{cursor_byte, inner_ok, kid, next_inner_child_from, no_kid_from};
use crate::order::{lemma_prefix_agree, lex_lt, past, past_is_after_all, rises_at, user_key, user_keys_keep_the_order, user_of};

verus! {

/// The records of a blob, and the blobs it refers to.
#[derive(Debug)]
pub struct ColdBlobSummary {
    pub leaves: Vec<ColdLeaf>,
    pub crossings: Vec<ColdCrossing>,
}

/// A record, with its value if that is short.
#[derive(Debug)]
pub struct ColdLeaf {
    pub key: Vec<u8>,
    pub value: Option<Vec<u8>>,
    pub seq: u64,
}

/// A blob referred to, and the bytes that lead to it from the blob's root.
#[derive(Debug)]
pub struct ColdCrossing {
    pub prefix: Vec<u8>,
    pub child_guid: BlobGuid,
}

/// What is kept of a record.
pub struct Kept {
    pub key: Seq<u8>,
    pub value: Option<Seq<u8>>,
    pub seq: u64,
}

/// What is kept of a blob referred to.
pub struct Door {
    pub prefix: Seq<u8>,
    pub guid: BlobGuid,
}

/// What is kept of a record whose values are kept up to `limit` bytes.
pub open spec fn kept(key: Seq<u8>, value: Seq<u8>, seq: u64, limit: int) -> Kept {
    Kept {
        key: user_of(key),
        value: if value.len() <= limit {
            Some(value)
        } else {
            None
        },
        seq,
    }
}

/// What is kept of the records of `t`, in key order.
pub open spec fn kept_of(t: Art, limit: int) -> Seq<Kept>
    decreases t, 0int,
{
    match t {
        Art::Leaf { key, value, seq, dead, .. } => if dead {
            Seq::empty()
        } else {
            seq![kept(key, value, seq, limit)]
        },
        Art::Prefix { child, .. } => kept_of(*child, limit),
        Art::Inner { kids, .. } => kept_below(kids, kids.len() as int, limit),
        _ => Seq::empty(),
    }
}

/// What is kept of the records of the first `n` subtrees.
pub open spec fn kept_below(kids: Seq<Option<Art>>, n: int, limit: int) -> Seq<Kept>
    decreases kids, n,
{
    if n <= 0 || n > kids.len() {
        Seq::empty()
    } else {
        kept_below(kids, n - 1, limit) + (match kids[n - 1] {
            Some(k) => kept_of(k, limit),
            None => Seq::empty(),
        })
    }
}

/// The blobs that `t`, reached by `path`, refers to, in key order.
pub open spec fn doors(t: Art, path: Seq<u8>) -> Seq<Door>
    decreases t, 0int,
{
    match t {
        Art::Blob { bytes, guid, .. } => seq![Door { prefix: path + bytes, guid }],
        Art::Prefix { bytes, child, .. } => doors(*child, path + bytes),
        Art::Inner { kids, .. } => doors_below(kids, kids.len() as int, path),
        _ => Seq::empty(),
    }
}

/// The blobs that the first `n` subtrees refer to.
pub open spec fn doors_below(kids: Seq<Option<Art>>, n: int, path: Seq<u8>) -> Seq<Door>
    decreases kids, n,
{
    if n <= 0 || n > kids.len() {
        Seq::empty()
    } else {
        doors_below(kids, n - 1, path) + (match kids[n - 1] {
            Some(k) => doors(k, path.push((n - 1) as u8)),
            None => Seq::empty(),
        })
    }
}

proof fn lemma_skip(kids: Seq<Option<Art>>, m: int, n: int, limit: int, path: Seq<u8>)
    requires
        0 <= m <= n <= kids.len(),
        forall|x: int| m <= x < n ==> kids[x] is None,
    ensures
        kept_below(kids, n, limit) == kept_below(kids, m, limit),
        doors_below(kids, n, path) == doors_below(kids, m, path),
    decreases n,
{
    if m < n {
        lemma_skip(kids, m, n - 1, limit, path);
        assert(kept_below(kids, n, limit) =~= kept_below(kids, n - 1, limit));
        assert(doors_below(kids, n, path) =~= doors_below(kids, n - 1, path));
    }
}

/// What a summary says of records.
pub open spec fn leaves_of(s: Seq<ColdLeaf>) -> Seq<Kept> {
    s.map_values(
        |l: ColdLeaf|
            Kept {
                key: l.key@,
                value: match l.value {
                    Some(v) => Some(v@),
                    None => None,
                },
                seq: l.seq,
            },
    )
}

/// What a summary says of blobs.
pub open spec fn crossings_of(s: Seq<ColdCrossing>) -> Seq<Door> {
    s.map_values(|c: ColdCrossing| Door { prefix: c.prefix@, guid: c.child_guid })
}

/// Whether `b` is `a` with a subtree added.
pub open spec fn added(a: ColdBlobSummary, b: ColdBlobSummary, leaves: Seq<Kept>, crossings: Seq<Door>) -> bool {
    &&& leaves_of(b.leaves@) == leaves_of(a.leaves@) + leaves
    &&& crossings_of(b.crossings@) == crossings_of(a.crossings@) + crossings
}

fn summarize_leaf(leaf: &Leaf, inline_value_limit: usize, out: &mut ColdBlobSummary)
    ensures
        added(
            *old(out),
            *final(out),
            if leaf.tombstone {
                Seq::empty()
            } else {
                seq![kept(leaf.key@, leaf.value@, leaf.seq, inline_value_limit as int)]
            },
            Seq::empty(),
        ),
{
    let ghost o = *out;
    if !leaf.tombstone {
        let value: Option<Vec<u8>> = if leaf.value.len() <= inline_value_limit {
            Some(copy_bytes(leaf.value.as_slice()))
        } else {
            None
        };
        out.leaves.push(ColdLeaf { key: copy_bytes(user_key(leaf.key.as_slice())), value, seq: leaf.seq });
        assert(leaves_of(out.leaves@) =~= leaves_of(o.leaves@) + seq![kept(leaf.key@, leaf.value@, leaf.seq, inline_value_limit as int)]);
    }
    assert(leaf.tombstone ==> leaves_of(out.leaves@) =~= leaves_of(o.leaves@) + Seq::<Kept>::empty());
    assert(crossings_of(out.crossings@) =~= crossings_of(o.crossings@) + Seq::<Door>::empty());
}

/// Adds the subtree at `slot`, reached by `prefix`.
fn summarize_node(frame: &BlobFrame, slot: u16, inline_value_limit: usize, prefix: &mut Vec<u8>, out: &mut ColdBlobSummary, Ghost(t): Ghost<Art>)
    requires
        rep(frame.cells@, t),
        slot_of(t) == slot,
    ensures
        final(prefix)@ == old(prefix)@,
        added(*old(out), *final(out), kept_of(t, inline_value_limit as int), doors(t, old(prefix)@)),
    decreases t, 0int,
{
    let ghost o = *out;
    let ghost p0 = prefix@;
    let ghost limit = inline_value_limit as int;
    proof {
        lemma_rep_root(frame.cells@, t);
    }
    match frame.node_at(slot) {
        Some(Node::Leaf(l)) => {
            summarize_leaf(l, inline_value_limit, out);
        },
        Some(Node::Prefix(p)) => {
            let len = prefix.len();
            prefix.extend_from_slice(p.bytes.as_slice());
            assert(prefix@ =~= p0 + p.bytes@);
            summarize_node(frame, p.child, inline_value_limit, prefix, out, Ghost(*t->child));
            prefix.truncate(len);
            assert(prefix@ =~= p0);
        },
        Some(Node::Blob(b)) => {
            let len = prefix.len();
            prefix.extend_from_slice(b.bytes.as_slice());
            assert(prefix@ =~= p0 + b.bytes@);
            out.crossings.push(ColdCrossing { prefix: copy_bytes(prefix.as_slice()), child_guid: b.child_blob_guid });
            assert(crossings_of(out.crossings@) =~= crossings_of(o.crossings@) + doors(t, p0));
            assert(leaves_of(out.leaves@) =~= leaves_of(o.leaves@) + kept_of(t, limit));
            prefix.truncate(len);
            assert(prefix@ =~= p0);
        },
        Some(Node::EmptyRoot) => {
            assert(crossings_of(out.crossings@) =~= crossings_of(o.crossings@) + doors(t, p0));
            assert(leaves_of(out.leaves@) =~= leaves_of(o.leaves@) + kept_of(t, limit));
        },
        Some(n) => {
            let ghost kids = t->kids;
            let ghost n0 = *n;
            let mut from: u16 = 0;
            let mut more: bool = true;
            assert(leaves_of(out.leaves@) =~= leaves_of(o.leaves@) + kept_below(kids, 0, limit));
            assert(crossings_of(out.crossings@) =~= crossings_of(o.crossings@) + doors_below(kids, 0, p0));
            while more
                invariant
                    rep(frame.cells@, t),
                    t is Inner,
                    kids == t->kids,
                    kids.len() == 256,
                    *n == n0,
                    at(frame.cells@, slot_of(t)) == Some(n0),
                    inner_ok(n0),
                    limit == inline_value_limit,
                    prefix@ == p0,
                    0 <= cursor_byte(n0, from as int) <= 256,
                    !more ==> no_kid_from(n0, cursor_byte(n0, from as int)),
                    added(o, *out, kept_below(kids, cursor_byte(n0, from as int), limit), doors_below(kids, cursor_byte(n0, from as int), p0)),
                decreases more as int, 256 - cursor_byte(n0, from as int),
            {
                let ghost lo = cursor_byte(n0, from as int);
                match next_inner_child_from(n, from) {
                    None => {
                        more = false;
                    },
                    Some((byte, child, next)) => {
                        let ghost b = byte as int;
                        assert(kids[b] is Some);
                        proof {
                            assert forall|x: int| lo <= x < b implies kids[x] is None by {
                                assert(kid(n0, x) == 0);
                            }
                            lemma_skip(kids, lo, b, limit, p0);
                        }
                        summarize_child(frame, byte, child, inline_value_limit, prefix, out, Ghost(kids[b]->0));
                        assert(leaves_of(out.leaves@) =~= leaves_of(o.leaves@) + kept_below(kids, b + 1, limit));
                        assert(crossings_of(out.crossings@) =~= crossings_of(o.crossings@) + doors_below(kids, b + 1, p0));
                        from = next;
                    },
                }
            }
            proof {
                let lo = cursor_byte(n0, from as int);
                assert forall|x: int| lo <= x < 256 implies kids[x] is None by {
                    assert(kid(n0, x) == 0);
                }
                lemma_skip(kids, lo, 256, limit, p0);
            }
        },
        None => {},
    }
}

fn summarize_child(
    frame: &BlobFrame,
    byte: u8,
    child: u16,
    inline_value_limit: usize,
    prefix: &mut Vec<u8>,
    out: &mut ColdBlobSummary,
    Ghost(t): Ghost<Art>,
)
    requires
        rep(frame.cells@, t),
        slot_of(t) == child,
    ensures
        final(prefix)@ == old(prefix)@,
        added(*old(out), *final(out), kept_of(t, inline_value_limit as int), doors(t, old(prefix)@.push(byte))),
    decreases t, 1int,
{
    let ghost p0 = prefix@;
    prefix.push(byte);
    summarize_node(frame, child, inline_value_limit, prefix, out, Ghost(t));
    prefix.pop();
    assert(prefix@ =~= p0);
}

/// The live records of a blob, with values of up to `inline_value_limit`
/// bytes, and the blobs it refers to.
pub fn summarize_blob_for_cold_index(frame: &BlobFrame, inline_value_limit: usize) -> (r: Result<ColdBlobSummary>)
    requires
        frame.header.root_slot != 0 ==> frame.sound(),
    ensures
        match r {
            Ok(s) => {
                &&& frame.header.root_slot != 0
                &&& leaves_of(s.leaves@) == kept_of(frame.tree(), inline_value_limit as int)
                &&& crossings_of(s.crossings@) == doors(frame.tree(), Seq::empty())
            },
            Err(e) => frame.header.root_slot == 0 && e is NodeCorrupt,
        },
{
    if frame.header.root_slot == 0 {
        return Err(Error::NodeCorrupt { context: "cold index summary: empty root slot" });
    }
    let mut out = ColdBlobSummary { leaves: Vec::new(), crossings: Vec::new() };
    let mut prefix: Vec<u8> = Vec::new();
    assert(leaves_of(out.leaves@) =~= Seq::<Kept>::empty());
    assert(crossings_of(out.crossings@) =~= Seq::<Door>::empty());
    summarize_node(frame, frame.header.root_slot, inline_value_limit, &mut prefix, &mut out, Ghost(frame.tree()));
    assert(leaves_of(out.leaves@) =~= kept_of(frame.tree(), inline_value_limit as int));
    assert(crossings_of(out.crossings@) =~= doors(frame.tree(), Seq::empty()));
    Ok(out)
}

proof fn lemma_below_has(kids: Seq<Option<Art>>, n: int, b: int, limit: int, path: Seq<u8>)
    requires
        0 <= b < n <= kids.len(),
        kids[b] is Some,
    ensures
        forall|x: Kept| kept_of(kids[b]->0, limit).contains(x) ==> #[trigger] kept_below(kids, n, limit).contains(x),
        forall|x: Door| doors(kids[b]->0, path.push(b as u8)).contains(x) ==> #[trigger] doors_below(kids, n, path).contains(x),
    decreases n,
{
    let (ka, kb) = (kept_below(kids, n - 1, limit), kept_below(kids, n, limit));
    let (da, db) = (doors_below(kids, n - 1, path), doors_below(kids, n, path));
    if b < n - 1 {
        lemma_below_has(kids, n - 1, b, limit, path);
        assert forall|x: Kept| kept_of(kids[b]->0, limit).contains(x) implies #[trigger] kb.contains(x) by {
            assert(ka.contains(x));
            let i = choose|i: int| 0 <= i < ka.len() && ka[i] == x;
            assert(kb[i] == x);
        }
        assert forall|x: Door| doors(kids[b]->0, path.push(b as u8)).contains(x) implies #[trigger] db.contains(x) by {
            assert(da.contains(x));
            let i = choose|i: int| 0 <= i < da.len() && da[i] == x;
            assert(db[i] == x);
        }
    } else {
        let k = kept_of(kids[b]->0, limit);
        let d = doors(kids[b]->0, path.push(b as u8));
        assert forall|x: Kept| k.contains(x) implies #[trigger] kb.contains(x) by {
            let i = choose|i: int| 0 <= i < k.len() && k[i] == x;
            assert(kb[ka.len() + i] == x);
        }
        assert forall|x: Door| d.contains(x) implies #[trigger] db.contains(x) by {
            let i = choose|i: int| 0 <= i < d.len() && d[i] == x;
            assert(db[da.len() + i] == x);
        }
    }
}

/// A summary has every record that a key finds in the tree, and every blob
/// that a key leaves it for.
pub proof fn summaries_are_complete(t: Art, path: Seq<u8>, s: Seq<u8>, d: int, limit: int)
    requires
        0 <= d <= s.len(),
    ensures
        step(t, s, d) matches Route::Found { value, seq } ==> kept_of(t, limit).contains(kept(s, value, seq, limit)),
        step(t, s, d) matches Route::Crossing { guid, depth } ==> doors(t, path).contains(Door { prefix: path + s.subrange(d, depth), guid }),
        step(t, s, d) matches Route::Crossing { depth, .. } ==> d <= depth <= s.len(),
    decreases t,
{
    match t {
        Art::Leaf { key, value, seq, dead, .. } => {
            if key == s && !dead {
                assert(kept_of(t, limit)[0] == kept(s, value, seq, limit));
            }
        },
        Art::Blob { bytes, guid, .. } => {
            if matches_at(s, d, bytes) {
                assert(s.subrange(d, d + bytes.len()) =~= bytes);
                assert(doors(t, path)[0] == (Door { prefix: path + bytes, guid }));
            }
        },
        Art::Prefix { bytes, child, .. } => {
            if matches_at(s, d, bytes) {
                let e = d + bytes.len();
                summaries_are_complete(*child, path + bytes, s, e, limit);
                if let Route::Crossing { depth, .. } = step(*child, s, e) {
                    assert((path + bytes) + s.subrange(e, depth) =~= path + s.subrange(d, depth)) by {
                        assert(s.subrange(d, e) =~= bytes);
                    }
                }
            }
        },
        Art::Inner { kids, .. } => {
            if d < s.len() && s[d] < kids.len() && kids[s[d] as int] is Some {
                let b = s[d];
                summaries_are_complete(kids[b as int]->0, path.push(b), s, d + 1, limit);
                lemma_below_has(kids, kids.len() as int, b as int, limit, path);
                assert(step(t, s, d) == step(kids[b as int]->0, s, d + 1));
                if let Route::Found { value, seq } = step(kids[b as int]->0, s, d + 1) {
                    assert(kept_below(kids, kids.len() as int, limit).contains(kept(s, value, seq, limit)));
                }
                if let Route::Crossing { guid, depth } = step(kids[b as int]->0, s, d + 1) {
                    assert(path.push(b) + s.subrange(d + 1, depth) =~= path + s.subrange(d, depth));
                    assert(doors_below(kids, kids.len() as int, path).contains(Door { prefix: path + s.subrange(d, depth), guid }));
                }
            }
        },
        _ => {},
    }
}

/// The key that a user gave for a stored key: without the zero byte at its end,
/// if it has one.
pub open spec fn given_for(given: Seq<u8>, stored: Seq<u8>) -> bool {
    stored == given.push(0) || (stored == given && !(given.len() > 0 && given.last() == 0))
}

/// Whether entry `l` of a summary is record `key`, written as `seq` with
/// `value`: the whole value up to `limit` bytes, and none beyond.
pub open spec fn tells(l: ColdLeaf, key: Seq<u8>, value: Seq<u8>, seq: u64, limit: int) -> bool {
    &&& given_for(l.key@, key)
    &&& l.seq == seq
    &&& l.value is Some <==> value.len() <= limit
    &&& l.value matches Some(v) ==> v@ == value
}

/// What is kept of a record tells it.
proof fn lemma_kept_tells(l: ColdLeaf, key: Seq<u8>, value: Seq<u8>, seq: u64, limit: int)
    requires
        leaves_of(seq![l])[0] == kept(key, value, seq, limit),
    ensures
        tells(l, key, value, seq, limit),
{
    if key.len() > 0 && key.last() == 0 {
        assert(key.drop_last().push(0) =~= key);
    }
}

/// A summary has every record that a key finds in the blob, byte for byte: the
/// user's key, the sequence number, and the value if it is no longer than the
/// limit.
pub proof fn summaries_tell_every_record(f: BlobFrame, limit: usize, s: ColdBlobSummary, key: Seq<u8>, d: int, value: Seq<u8>, seq: u64)
    requires
        leaves_of(s.leaves@) == kept_of(f.tree(), limit as int),
        0 <= d <= key.len(),
        step(f.tree(), key, d) == (Route::Found { value, seq }),
    ensures
        exists|i: int| 0 <= i < s.leaves@.len() && tells(#[trigger] s.leaves@[i], key, value, seq, limit as int),
{
    summaries_are_complete(f.tree(), Seq::empty(), key, d, limit as int);
    let all = leaves_of(s.leaves@);
    let i = choose|i: int| 0 <= i < all.len() && all[i] == kept(key, value, seq, limit as int);
    assert(leaves_of(seq![s.leaves@[i]])[0] == all[i]);
    lemma_kept_tells(s.leaves@[i], key, value, seq, limit as int);
}

/// What is kept of `t` comes from leaves, in the order of their keys.
proof fn lemma_kept_from(t: Art, path: Seq<u8>, limit: int, i: int) -> (key: Seq<u8>)
    requires
        keyed(t, path),
        full_width(t),
        0 <= i < kept_of(t, limit).len(),
    ensures
        path.is_prefix_of(key),
        step(t, key, path.len() as int) matches Route::Found { value, seq } && kept_of(t, limit)[i] == kept(key, value, seq, limit),
    decreases t, (if t is Inner { t->kids.len() + 1 } else { 0 }),
{
    match t {
        Art::Leaf { key, .. } => key,
        Art::Prefix { bytes, child, .. } => {
            let key = lemma_kept_from(*child, path + bytes, limit, i);
            crate::merge::lemma_longer_path(path, bytes, key);
            key
        },
        Art::Inner { kids, .. } => {
            let (b, key) = lemma_kept_from_below(t, path, limit, kids.len() as int, i);
            key
        },
        _ => Seq::empty(),
    }
}

proof fn lemma_kept_from_below(t: Art, path: Seq<u8>, limit: int, n: int, i: int) -> (r: (int, Seq<u8>))
    requires
        t is Inner,
        keyed(t, path),
        full_width(t),
        0 <= n <= t->kids.len(),
        0 <= i < kept_below(t->kids, n, limit).len(),
    ensures
        0 <= r.0 < n,
        path.push(r.0 as u8).is_prefix_of(r.1),
        path.is_prefix_of(r.1),
        step(t, r.1, path.len() as int) matches Route::Found { value, seq } && kept_below(t->kids, n, limit)[i] == kept(r.1, value, seq, limit),
    decreases t, n,
{
    let kids = t->kids;
    let before = kept_below(kids, n - 1, limit);
    if i < before.len() {
        lemma_kept_from_below(t, path, limit, n - 1, i)
    } else {
        let b = n - 1;
        let k = kids[b]->0;
        let key = lemma_kept_from(k, path.push(b as u8), limit, i - before.len());
        assert(path.push(b as u8) =~= path + seq![b as u8]);
        crate::merge::lemma_longer_path(path, seq![b as u8], key);
        assert(key.subrange(path.len() as int, path.len() as int + 1)[0] == b as u8);
        assert(key[path.len() as int] == b);
        (b, key)
    }
}

/// Whether every inner node of `t` has a place for each byte.
pub open spec fn full_width(t: Art) -> bool
    decreases t,
{
    match t {
        Art::Prefix { child, .. } => full_width(*child),
        Art::Inner { kids, .. } => kids.len() == 256 && forall|b: int| 0 <= b < kids.len() && (#[trigger] kids[b]) is Some ==> full_width(kids[b]->0),
        _ => true,
    }
}

proof fn lemma_full_width(c: Seq<Option<Node>>, t: Art)
    requires
        rep(c, t),
    ensures
        full_width(t),
    decreases t,
{
    match t {
        Art::Prefix { child, .. } => lemma_full_width(c, *child),
        Art::Inner { kids, .. } => {
            assert forall|b: int| 0 <= b < kids.len() && (#[trigger] kids[b]) is Some implies full_width(kids[b]->0) by {
                lemma_full_width(c, kids[b]->0);
            }
        },
        _ => {},
    }
}

/// A summary has nothing else: every entry is a record that a key finds in the
/// blob.
pub proof fn summaries_tell_nothing_else(f: BlobFrame, path: Seq<u8>, limit: usize, s: ColdBlobSummary, i: int) -> (key: Seq<u8>)
    requires
        f.wf(path),
        leaves_of(s.leaves@) == kept_of(f.tree(), limit as int),
        0 <= i < s.leaves@.len(),
    ensures
        path.is_prefix_of(key),
        step(f.tree(), key, path.len() as int) matches Route::Found { value, seq } && tells(s.leaves@[i], key, value, seq, limit as int),
{
    lemma_full_width(f.cells@, f.tree());
    assert(leaves_of(s.leaves@).len() == s.leaves@.len());
    let key = lemma_kept_from(f.tree(), path, limit as int, i);
    let r = step(f.tree(), key, path.len() as int);
    assert(leaves_of(seq![s.leaves@[i]])[0] == leaves_of(s.leaves@)[i]);
    lemma_kept_tells(s.leaves@[i], key, r->value, r->seq, limit as int);
    key
}

proof fn lemma_kept_apart(t: Art, path: Seq<u8>, limit: int, n: int, i: int, j: int)
    requires
        keyed(t, path),
        full_width(t),
        0 <= i < j < (if t is Inner {
            kept_below(t->kids, n, limit)
        } else {
            kept_of(t, limit)
        }).len(),
        t is Inner ==> 0 <= n <= t->kids.len(),
    ensures
        ({
            let all = if t is Inner {
                kept_below(t->kids, n, limit)
            } else {
                kept_of(t, limit)
            };
            lex_lt(all[i].key, all[j].key)
        }),
    decreases t, n,
{
    match t {
        Art::Prefix { bytes, child, .. } => {
            let m = if *child is Inner { child->kids.len() as int } else { 0 };
            assert(*child is Inner ==> kept_of(*child, limit) == kept_below(child->kids, m, limit));
            lemma_kept_apart(*child, path + bytes, limit, m, i, j);
        },
        Art::Inner { kids, .. } => {
            let before = kept_below(kids, n - 1, limit);
            if j < before.len() {
                lemma_kept_apart(t, path, limit, n - 1, i, j);
            } else {
                let k = kids[n - 1]->0;
                let m = if k is Inner { k->kids.len() as int } else { 0 };
                assert(k is Inner ==> kept_of(k, limit) == kept_below(k->kids, m, limit));
                if i >= before.len() {
                    lemma_kept_apart(k, path.push((n - 1) as u8), limit, m, i - before.len(), j - before.len());
                } else {
                    let (b, a) = lemma_kept_from_below(t, path, limit, n - 1, i);
                    let z = lemma_kept_from(k, path.push((n - 1) as u8), limit, j - before.len());
                    let d = path.len() as int;
                    assert(a.subrange(0, d + 1)[d] == b && z.subrange(0, d + 1)[d] == n - 1);
                    assert(a[d] == b && z[d] == n - 1);
                    assert forall|x: int| 0 <= x < d implies a[x] == z[x] by {
                        assert(a[x] == a.subrange(0, d + 1)[x] && z[x] == z.subrange(0, d + 1)[x]);
                        assert(path.push(b as u8)[x] == path[x] && path.push((n - 1) as u8)[x] == path[x]);
                    }
                    assert(crate::order::rises_at(a, z, d));
                    assert(lex_lt(a, z));
                    user_keys_keep_the_order(a, z);
                }
            }
        },
        _ => {},
    }
}

/// The entries of a summary ascend by the user's keys.
pub proof fn summaries_ascend(f: BlobFrame, path: Seq<u8>, limit: usize, s: ColdBlobSummary, i: int, j: int)
    requires
        f.wf(path),
        leaves_of(s.leaves@) == kept_of(f.tree(), limit as int),
        0 <= i < j < s.leaves@.len(),
    ensures
        lex_lt(s.leaves@[i].key@, s.leaves@[j].key@),
{
    let t = f.tree();
    let all = leaves_of(s.leaves@);
    lemma_full_width(f.cells@, t);
    assert(all.len() == s.leaves@.len() && all[i].key == s.leaves@[i].key@ && all[j].key == s.leaves@[j].key@);
    lemma_kept_apart(t, path, limit as int, if t is Inner { t->kids.len() as int } else { 0 }, i, j);
}

/// A summary has every blob that a key leaves the blob for, with the bytes of
/// the key that lead there.
pub proof fn summaries_tell_every_crossing(f: BlobFrame, s: ColdBlobSummary, key: Seq<u8>, d: int, guid: BlobGuid, depth: int)
    requires
        crossings_of(s.crossings@) == doors(f.tree(), Seq::empty()),
        0 <= d <= key.len(),
        step(f.tree(), key, d) == (Route::Crossing { guid, depth }),
    ensures
        d <= depth <= key.len(),
        exists|i: int| 0 <= i < s.crossings@.len() && (#[trigger] s.crossings@[i]).child_guid == guid && s.crossings@[i].prefix@ == key.subrange(d, depth),
{
    summaries_are_complete(f.tree(), Seq::empty(), key, d, 0);
    let all = crossings_of(s.crossings@);
    let x = Door { prefix: Seq::<u8>::empty() + key.subrange(d, depth), guid };
    let i = choose|i: int| 0 <= i < all.len() && all[i] == x;
    assert(Seq::<u8>::empty() + key.subrange(d, depth) =~= key.subrange(d, depth));
    assert(s.crossings@[i].child_guid == guid);
}

proof fn lemma_door_leads(t: Art, path: Seq<u8>, n: int, i: int, key: Seq<u8>, d: int)
    requires
        full_width(t),
        t is Inner ==> 0 <= n <= t->kids.len(),
        0 <= i < (if t is Inner {
            doors_below(t->kids, n, path)
        } else {
            doors(t, path)
        }).len(),
        ({
            let x = if t is Inner {
                doors_below(t->kids, n, path)[i]
            } else {
                doors(t, path)[i]
            };
            x.prefix.len() >= path.len() ==> matches_at(key, d, x.prefix.skip(path.len() as int))
        }),
    ensures
        ({
            let x = if t is Inner {
                doors_below(t->kids, n, path)[i]
            } else {
                doors(t, path)[i]
            };
            &&& path.is_prefix_of(x.prefix)
            &&& step(t, key, d) == (Route::Crossing { guid: x.guid, depth: d + x.prefix.len() - path.len() })
        }),
    decreases t, n,
{
    match t {
        Art::Blob { bytes, .. } => {
            assert((path + bytes).skip(path.len() as int) =~= bytes);
            assert((path + bytes).subrange(0, path.len() as int) =~= path);
        },
        Art::Prefix { bytes, child, .. } => {
            let m = if *child is Inner { child->kids.len() as int } else { 0 };
            assert(*child is Inner ==> doors(*child, path + bytes) == doors_below(child->kids, m, path + bytes));
            let x = doors(t, path)[i];
            lemma_door_behind(*child, path + bytes, m, i);
            let rest = x.prefix.skip(path.len() as int);
            assert(rest =~= bytes + x.prefix.skip((path + bytes).len() as int)) by {
                assert(x.prefix.subrange(0, (path + bytes).len() as int) == path + bytes);
                assert forall|j: int| 0 <= j < bytes.len() implies rest[j] == bytes[j] by {
                    assert(x.prefix.subrange(0, (path + bytes).len() as int)[path.len() + j] == bytes[j]);
                }
            }
            let e = d + bytes.len();
            assert(key.subrange(d, d + rest.len()).take(bytes.len() as int) =~= key.subrange(d, e));
            assert(rest.take(bytes.len() as int) =~= bytes);
            assert(matches_at(key, d, bytes));
            assert(key.subrange(e, d + rest.len()) =~= key.subrange(d, d + rest.len()).skip(bytes.len() as int));
            assert(rest.skip(bytes.len() as int) =~= x.prefix.skip((path + bytes).len() as int));
            assert(matches_at(key, e, x.prefix.skip((path + bytes).len() as int)));
            lemma_door_leads(*child, path + bytes, m, i, key, e);
            crate::merge::lemma_longer_path(path, bytes, x.prefix);
        },
        Art::Inner { kids, .. } => {
            let before = doors_below(kids, n - 1, path);
            if i < before.len() {
                lemma_door_leads(t, path, n - 1, i, key, d);
            } else {
                let k = kids[n - 1]->0;
                let p = path.push((n - 1) as u8);
                let m = if k is Inner { k->kids.len() as int } else { 0 };
                assert(k is Inner ==> doors(k, p) == doors_below(k->kids, m, p));
                let x = doors_below(kids, n, path)[i];
                lemma_door_behind(k, p, m, i - before.len());
                let rest = x.prefix.skip(path.len() as int);
                assert(x.prefix.subrange(0, p.len() as int)[path.len() as int] == n - 1);
                assert(rest =~= seq![(n - 1) as u8] + x.prefix.skip(p.len() as int));
                assert(key.subrange(d, d + rest.len())[0] == key[d] && rest[0] == n - 1);
                assert(key.subrange(d + 1, d + rest.len()) =~= key.subrange(d, d + rest.len()).skip(1));
                assert(rest.skip(1) =~= x.prefix.skip(p.len() as int));
                assert(matches_at(key, d + 1, x.prefix.skip(p.len() as int)));
                lemma_door_leads(k, p, m, i - before.len(), key, d + 1);
                assert(p =~= path + seq![(n - 1) as u8]);
                crate::merge::lemma_longer_path(path, seq![(n - 1) as u8], x.prefix);
            }
        },
        _ => {},
    }
}

/// The bytes of a crossing begin with those that lead to the subtree.
proof fn lemma_door_behind(t: Art, path: Seq<u8>, n: int, i: int)
    requires
        t is Inner ==> 0 <= n <= t->kids.len(),
        0 <= i < (if t is Inner {
            doors_below(t->kids, n, path)
        } else {
            doors(t, path)
        }).len(),
    ensures
        path.is_prefix_of((if t is Inner {
            doors_below(t->kids, n, path)
        } else {
            doors(t, path)
        })[i].prefix),
    decreases t, n,
{
    match t {
        Art::Blob { bytes, .. } => {
            assert((path + bytes).subrange(0, path.len() as int) =~= path);
        },
        Art::Prefix { bytes, child, .. } => {
            let m = if *child is Inner { child->kids.len() as int } else { 0 };
            assert(*child is Inner ==> doors(*child, path + bytes) == doors_below(child->kids, m, path + bytes));
            lemma_door_behind(*child, path + bytes, m, i);
            crate::merge::lemma_longer_path(path, bytes, doors(t, path)[i].prefix);
        },
        Art::Inner { kids, .. } => {
            let before = doors_below(kids, n - 1, path);
            if i < before.len() {
                lemma_door_behind(t, path, n - 1, i);
            } else {
                let k = kids[n - 1]->0;
                let p = path.push((n - 1) as u8);
                let m = if k is Inner { k->kids.len() as int } else { 0 };
                assert(k is Inner ==> doors(k, p) == doors_below(k->kids, m, p));
                lemma_door_behind(k, p, m, i - before.len());
                assert(p =~= path + seq![(n - 1) as u8]);
                crate::merge::lemma_longer_path(path, seq![(n - 1) as u8], doors_below(kids, n, path)[i].prefix);
            }
        },
        _ => {},
    }
}

/// Every crossing of a summary is one: a key that goes on with its bytes leaves
/// the blob there, for the blob named.
pub proof fn summarized_crossings_lead_out(f: BlobFrame, s: ColdBlobSummary, i: int, key: Seq<u8>, d: int)
    requires
        rep(f.cells@, f.tree()),
        crossings_of(s.crossings@) == doors(f.tree(), Seq::empty()),
        0 <= i < s.crossings@.len(),
        matches_at(key, d, s.crossings@[i].prefix@),
    ensures
        step(f.tree(), key, d) == (Route::Crossing { guid: s.crossings@[i].child_guid, depth: d + s.crossings@[i].prefix@.len() }),
{
    let t = f.tree();
    let all = crossings_of(s.crossings@);
    lemma_full_width(f.cells@, t);
    assert(all.len() == s.crossings@.len() && all[i].prefix == s.crossings@[i].prefix@);
    assert(all[i].prefix.skip(0) =~= all[i].prefix);
    lemma_door_leads(t, Seq::empty(), if t is Inner { t->kids.len() as int } else { 0 }, i, key, d);
}

/// The doors of a tree lie behind the bytes that lead to it.
proof fn lemma_doors_behind(t: Art, path: Seq<u8>, n: int, i: int)
    requires
        t is Inner ==> 0 <= n <= t->kids.len(),
        0 <= i < (if t is Inner {
            doors_below(t->kids, n, path)
        } else {
            doors(t, path)
        }).len(),
    ensures
        path.is_prefix_of((if t is Inner {
            doors_below(t->kids, n, path)
        } else {
            doors(t, path)
        })[i].prefix),
    decreases t, n,
{
    match t {
        Art::Blob { bytes, .. } => {
            assert((path + bytes).subrange(0, path.len() as int) =~= path);
        },
        Art::Prefix { bytes, child, .. } => {
            assert(*child is Inner ==> doors(*child, path + bytes) == doors_below(child->kids, child->kids.len() as int, path + bytes));
            lemma_doors_behind(*child, path + bytes, if *child is Inner { child->kids.len() as int } else { 0 }, i);
            lemma_prefix_agree(path + bytes, doors(t, path)[i].prefix);
            lemma_prefix_agree(path, doors(t, path)[i].prefix);
        },
        Art::Inner { kids, .. } => {
            let before = doors_below(kids, n - 1, path);
            if i < before.len() {
                lemma_doors_behind(t, path, n - 1, i);
            } else if let Some(k) = kids[n - 1] {
                let below = path.push((n - 1) as u8);
                assert(k is Inner ==> doors(k, below) == doors_below(k->kids, k->kids.len() as int, below));
                lemma_doors_behind(k, below, if k is Inner { k->kids.len() as int } else { 0 }, i - before.len());
                let x = doors_below(kids, n, path)[i].prefix;
                assert(doors_below(kids, n, path)[i] == doors(k, below)[i - before.len()]);
                lemma_prefix_agree(below, x);
                assert forall|z: int| 0 <= z < path.len() implies path[z] == x[z] by {
                    assert(below[z] == path[z]);
                }
                lemma_prefix_agree(path, x);
            }
        },
        _ => {},
    }
}

proof fn lemma_doors_rise(t: Art, path: Seq<u8>, n: int, i: int, j: int)
    requires
        full_width(t),
        t is Inner ==> 0 <= n <= t->kids.len(),
        0 <= i < j < (if t is Inner {
            doors_below(t->kids, n, path)
        } else {
            doors(t, path)
        }).len(),
    ensures
        ({
            let all = if t is Inner {
                doors_below(t->kids, n, path)
            } else {
                doors(t, path)
            };
            past(all[i].prefix, all[j].prefix)
        }),
    decreases t, n,
{
    match t {
        Art::Prefix { bytes, child, .. } => {
            assert(*child is Inner ==> doors(*child, path + bytes) == doors_below(child->kids, child->kids.len() as int, path + bytes));
            lemma_doors_rise(*child, path + bytes, if *child is Inner { child->kids.len() as int } else { 0 }, i, j);
        },
        Art::Inner { kids, .. } => {
            let before = doors_below(kids, n - 1, path);
            let all = doors_below(kids, n, path);
            let m = before.len() as int;
            if j < m {
                lemma_doors_rise(t, path, n - 1, i, j);
            } else if let Some(k) = kids[n - 1] {
                let below = path.push((n - 1) as u8);
                assert(k is Inner ==> doors(k, below) == doors_below(k->kids, k->kids.len() as int, below));
                if i >= m {
                    lemma_doors_rise(k, below, if k is Inner { k->kids.len() as int } else { 0 }, i - m, j - m);
                } else {
                    let b = lemma_door_kid(t, path, n - 1, i);
                    lemma_doors_behind(k, below, if k is Inner { k->kids.len() as int } else { 0 }, j - m);
                    let (x, y) = (before[i].prefix, doors(k, below)[j - m].prefix);
                    assert(all[i] == before[i] && all[j] == doors(k, below)[j - m]);
                    lemma_prefix_agree(path.push(b as u8), x);
                    lemma_prefix_agree(below, y);
                    let d = path.len() as int;
                    assert(path.push(b as u8)[d] == b && below[d] == n - 1);
                    assert(x[d] == b && y[d] == n - 1);
                    assert forall|z: int| 0 <= z < d implies x[z] == y[z] by {
                        assert(path.push(b as u8)[z] == path[z]);
                        assert(below[z] == path[z]);
                    }
                    assert(rises_at(x, y, d));
                }
            }
        },
        _ => {},
    }
}

/// A door lies behind one of the branches.
proof fn lemma_door_kid(t: Art, path: Seq<u8>, n: int, i: int) -> (b: int)
    requires
        t is Inner,
        0 <= n <= t->kids.len() <= 256,
        0 <= i < doors_below(t->kids, n, path).len(),
    ensures
        0 <= b < n,
        path.push(b as u8).is_prefix_of(doors_below(t->kids, n, path)[i].prefix),
    decreases n,
{
    let before = doors_below(t->kids, n - 1, path);
    if i < before.len() {
        lemma_door_kid(t, path, n - 1, i)
    } else {
        let k = t->kids[n - 1]->0;
        let below = path.push((n - 1) as u8);
        assert(k is Inner ==> doors(k, below) == doors_below(k->kids, k->kids.len() as int, below));
        lemma_doors_behind(k, below, if k is Inner { k->kids.len() as int } else { 0 }, i - before.len());
        n - 1
    }
}

/// Crossings are told in the order of the bytes that lead to them, none of which
/// begin with others.
pub proof fn summarized_crossings_ascend(f: BlobFrame, s: ColdBlobSummary, i: int, j: int)
    requires
        rep(f.cells@, f.tree()),
        crossings_of(s.crossings@) == doors(f.tree(), Seq::empty()),
        0 <= i < j < s.crossings@.len(),
    ensures
        lex_lt(s.crossings@[i].prefix@, s.crossings@[j].prefix@),
        !s.crossings@[i].prefix@.is_prefix_of(s.crossings@[j].prefix@),
{
    let t = f.tree();
    let all = crossings_of(s.crossings@);
    lemma_full_width(f.cells@, t);
    assert(all.len() == s.crossings@.len() && all[i].prefix == s.crossings@[i].prefix@ && all[j].prefix == s.crossings@[j].prefix@);
    lemma_doors_rise(t, Seq::empty(), if t is Inner { t->kids.len() as int } else { 0 }, i, j);
    past_is_after_all(all[i].prefix, all[j].prefix);
}

} // verus!
