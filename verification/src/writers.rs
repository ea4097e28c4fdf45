//! Building and rewiring nodes in a blob.
//!
//! Every function takes the trees it joins as ghost arguments and says which
//! tree the arena spells out afterwards.
use vstd::prelude::*;

use crate::art::{at, dead, keyed, owns, rep, sep, slot_of, step, Art, Route};
use crate::errors::{Error, Result};
use crate::frame::{room_end, BlobFrame, BlobHeader};
use crate::key::{fingerprint_of, matches_at, SearchKey};
use crate::layout::{leaf_size, Leaf, Node, Prefix, MAX_SLOTS, PREFIX_MAX_INLINE};
use crate::node::{empty_node4, inner_ok, kid, node4_insert_sorted};

verus! {

/// Whether every node of `c` is unchanged in `c2`.
pub open spec fn keeps(c: Seq<Option<Node>>, c2: Seq<Option<Node>>) -> bool {
    forall|s: int| (#[trigger] at(c, s)) is Some ==> at(c2, s) == at(c, s)
}

/// Whether going from tree `t` in `c` to tree `t2` in `c2` touched nodes of
/// `t` and fresh nodes only.
pub open spec fn edits(c: Seq<Option<Node>>, t: Art, c2: Seq<Option<Node>>, t2: Art) -> bool {
    &&& forall|s: int| (#[trigger] at(c, s)) is Some && !owns(t, s) ==> at(c2, s) == at(c, s)
    &&& forall|s: int| #[trigger] owns(t2, s) ==> owns(t, s) || at(c, s) is None
}

/// Nodes that a prefix of `len` bytes takes.
pub open spec fn chain_nodes(len: int) -> int {
    (len + (PREFIX_MAX_INLINE - 1)) / (PREFIX_MAX_INLINE as int)
}

/// What an operation allocates.
pub struct Cost {
    pub bytes: int,
    pub nodes: int,
}

/// Both costs together.
pub open spec fn plus(a: Cost, b: Cost) -> Cost {
    Cost { bytes: a.bytes + b.bytes, nodes: a.nodes + b.nodes }
}

/// Nothing.
pub open spec fn free() -> Cost {
    Cost { bytes: 0, nodes: 0 }
}

/// One node of `bytes` bytes.
pub open spec fn one(bytes: int) -> Cost {
    Cost { bytes, nodes: 1 }
}

/// A prefix of `len` bytes.
pub open spec fn chain_cost(len: int) -> Cost {
    Cost { bytes: chain_nodes(len) * 128, nodes: chain_nodes(len) }
}

/// Whether a blob has room for `k`, none of it a blob node.
pub open spec fn affords(f: BlobFrame, k: Cost) -> bool {
    k.nodes == 0 || {
        &&& f.header.space_used + k.bytes <= room_end(f.arena_end as int, false)
        &&& f.header.num_slots + k.nodes <= MAX_SLOTS
    }
}

/// Whether `f2` is `f` after allocating `k`, headers otherwise equal.
pub open spec fn spent(f: BlobFrame, f2: BlobFrame, k: Cost) -> bool {
    &&& f2.arena_end == f.arena_end
    &&& f2.header == (BlobHeader {
        space_used: (f.header.space_used + k.bytes) as u32,
        num_slots: (f.header.num_slots + k.nodes) as u32,
        ..f.header
    })
    &&& f2.header.space_used == f.header.space_used + k.bytes
    &&& f2.header.num_slots == f.header.num_slots + k.nodes
}

/// Whether `f2` is `f` after an operation that failed for want of room:
/// every node stands, and only allocation counters may have moved.
pub open spec fn failed(f: BlobFrame, f2: BlobFrame) -> bool {
    &&& f2.ok()
    &&& keeps(f.cells@, f2.cells@)
    &&& f2.arena_end == f.arena_end
    &&& f2.header == (BlobHeader { space_used: f2.header.space_used, num_slots: f2.header.num_slots, ..f.header })
}

/// Whether `f2` is `f` after an attempt to place what costs `k` that failed
/// for want of what `e` names.
pub open spec fn short(f: BlobFrame, f2: BlobFrame, k: Cost, e: Error) -> bool {
    &&& failed(f, f2)
    &&& !affords(f, k)
    &&& f.header.num_slots <= f2.header.num_slots < f.header.num_slots + k.nodes
    &&& f.header.space_used <= f2.header.space_used
    &&& f2.header.space_used <= f.header.space_used || f2.header.space_used <= room_end(f.arena_end as int, false)
    &&& e matches Error::Alloc(a) && {
        &&& a is OutOfSlots ==> f.header.num_slots + k.nodes > MAX_SLOTS
        &&& a is OutOfSpace ==> f.header.space_used + k.bytes > room_end(f.arena_end as int, false)
    }
}

/// Concatenated parts stand at a depth exactly when each stands at its own.
pub proof fn lemma_matches_concat(key: Seq<u8>, d: int, a: Seq<u8>, b: Seq<u8>)
    ensures
        matches_at(key, d, a + b) <==> matches_at(key, d, a) && matches_at(key, d + a.len(), b),
{
    let ab = a + b;
    if matches_at(key, d, ab) {
        assert(key.subrange(d, d + a.len()) =~= a) by {
            assert forall|i: int| 0 <= i < a.len() implies key.subrange(d, d + a.len())[i] == a[i] by {
                assert(key.subrange(d, d + ab.len())[i] == ab[i]);
            }
        }
        assert(key.subrange(d + a.len(), d + a.len() + b.len()) =~= b) by {
            assert forall|i: int| 0 <= i < b.len() implies key.subrange(d + a.len(), d + a.len() + b.len())[i] == b[i] by {
                assert(key.subrange(d, d + ab.len())[a.len() + i] == ab[a.len() + i]);
            }
        }
    }
    if matches_at(key, d, a) && matches_at(key, d + a.len(), b) {
        assert forall|i: int| 0 <= i < ab.len() implies key.subrange(d, d + ab.len())[i] == ab[i] by {
            if i < a.len() {
                assert(key.subrange(d, d + a.len())[i] == a[i]);
            } else {
                assert(key.subrange(d + a.len(), d + a.len() + b.len())[i - a.len()] == b[i - a.len()]);
            }
        }
    }
}

/// Whether nothing changed at or beyond the end of the bump-allocated span.
pub open spec fn below_end(f0: BlobFrame, f: BlobFrame) -> bool {
    forall|i: int| crate::frame::unit_of(f0.arena_end as int) <= i ==> #[trigger] at(f.cells@, i) == at(f0.cells@, i)
}

/// Where a key leads from `t` when `bytes` are put in front of it.
pub open spec fn behind(t: Art, bytes: Seq<u8>, key: Seq<u8>, d: int) -> Route {
    if matches_at(key, d, bytes) {
        step(t, key, d + bytes.len())
    } else {
        Route::NotFound
    }
}

/// Writes a live record. Its tree is a single leaf.
pub fn write_leaf(frame: &mut BlobFrame, key: SearchKey, value: &[u8], seq: u64) -> (r: Result<u16>)
    requires
        old(frame).ok(),
        key@.len() <= 65535,
        value@.len() <= 65535,
    ensures
        match r {
            Ok(s) => {
                let t = Art::Leaf { slot: s as int, key: key@, value: value@, seq, dead: false };
                &&& affords(*old(frame), one(leaf_size(key@.len() as int, value@.len() as int)))
                &&& spent(*old(frame), *final(frame), one(leaf_size(key@.len() as int, value@.len() as int)))
                &&& final(frame).ok()
                &&& keeps(old(frame).cells@, final(frame).cells@)
                &&& at(old(frame).cells@, s as int) is None
                &&& rep(final(frame).cells@, t)
                &&& at(final(frame).cells@, s as int) matches Some(Node::Leaf(l)) && l.key_fp == fingerprint_of(key@)
            },
            Err(e) => short(*old(frame), *final(frame), one(leaf_size(key@.len() as int, value@.len() as int)), e),
        },
{
    let mut stored: Vec<u8> = Vec::new();
    stored.extend_from_slice(value);
    let leaf = Leaf { key: key.to_vec(), value: stored, seq, tombstone: false, key_fp: key.fingerprint() };
    assert(leaf.value@ =~= value@);
    let r = frame.alloc_node(Node::Leaf(leaf));
    r
}

/// Length of the first of the prefix nodes that hold `len` bytes: all behind
/// it are full.
pub open spec fn head_len(len: int) -> int {
    if len % (PREFIX_MAX_INLINE as int) == 0 {
        PREFIX_MAX_INLINE as int
    } else {
        len % (PREFIX_MAX_INLINE as int)
    }
}

/// Whether `u` is `t` behind `bytes`, in no more prefix nodes than they need.
pub open spec fn chained(u: Art, bytes: Seq<u8>, t: Art) -> bool
    decreases bytes.len(),
{
    if bytes.len() == 0 {
        u == t
    } else {
        let n = head_len(bytes.len() as int);
        &&& u is Prefix
        &&& u->Prefix_bytes == bytes.take(n)
        &&& 0 < n <= bytes.len()
        &&& chained(*u->child, bytes.skip(n), t)
    }
}

/// What stands behind bytes is part of the whole.
pub proof fn lemma_chained_owns(u: Art, bytes: Seq<u8>, t: Art, s: int)
    requires
        chained(u, bytes, t),
        owns(t, s),
    ensures
        owns(u, s),
    decreases bytes.len(),
{
    if bytes.len() > 0 {
        lemma_chained_owns(*u->child, bytes.skip(head_len(bytes.len() as int)), t, s);
    }
}

/// Puts `bytes` in front of the tree `t`, in as many prefix nodes as they
/// need.
pub fn write_prefix_chain(frame: &mut BlobFrame, bytes: &[u8], child: u16, Ghost(t): Ghost<Art>) -> (r: Result<(u16, Ghost<Art>)>)
    requires
        old(frame).ok(),
        bytes@.len() > 0,
        rep(old(frame).cells@, t),
        slot_of(t) == child,
    ensures
        match r {
            Ok((s, g)) => {
                let u = g@;
                &&& spent(*old(frame), *final(frame), chain_cost(bytes@.len() as int))
                &&& affords(*old(frame), chain_cost(bytes@.len() as int))
                &&& final(frame).ok()
                &&& keeps(old(frame).cells@, final(frame).cells@)
                &&& slot_of(u) == s
                &&& rep(final(frame).cells@, u)
                &&& sep(t) ==> sep(u)
                &&& below_end(*old(frame), *final(frame))
                &&& edits(old(frame).cells@, t, final(frame).cells@, u)
                &&& forall|s: int| owns(t, s) ==> #[trigger] owns(u, s)
                &&& forall|path: Seq<u8>| #![trigger keyed(u, path)] keyed(u, path) == keyed(t, path + bytes@)
                &&& dead(u) == dead(t)
                &&& forall|key: Seq<u8>, d: int| #[trigger] step(u, key, d) == behind(t, bytes@, key, d)
                &&& u is Prefix
                &&& chained(u, bytes@, t)
                &&& bytes@.len() <= PREFIX_MAX_INLINE ==> u == (Art::Prefix { slot: s as int, bytes: bytes@, child: Box::new(t) })
            },
            Err(e) => short(*old(frame), *final(frame), chain_cost(bytes@.len() as int), e),
        },
{
    let ghost c0 = frame.cells@;
    let ghost f0 = *frame;
    let mut next: u16 = child;
    let mut rem: usize = bytes.len();
    let ghost mut u: Art = t;
    let ghost n = bytes@.len() as int;
    assert(bytes@.skip(n) =~= Seq::<u8>::empty());
    proof {
        assert forall|path: Seq<u8>| #![trigger keyed(u, path)] keyed(u, path) == keyed(t, path + bytes@.skip(n)) by {
            assert(path + bytes@.skip(n) =~= path);
        }
        assert forall|key: Seq<u8>, d: int| 0 <= d <= key.len() implies #[trigger] matches_at(key, d, bytes@.skip(n)) by {
            assert(key.subrange(d, d) =~= bytes@.skip(n));
        }
    }
    while rem > 0
        invariant
            0 <= rem <= n,
            n == bytes@.len(),
            n > 0,
            *old(frame) == f0,
            f0.cells@ == c0,
            frame.ok(),
            f0.ok(),
            keeps(c0, frame.cells@),
            below_end(f0, *frame),
            rep(c0, t),
            slot_of(u) == next,
            rep(frame.cells@, u),
            sep(t) ==> sep(u),
            edits(c0, t, frame.cells@, u),
            forall|s: int| owns(t, s) ==> #[trigger] owns(u, s),
            forall|path: Seq<u8>| #![trigger keyed(u, path)] keyed(u, path) == keyed(t, path + bytes@.skip(rem as int)),
            dead(u) == dead(t),
            rem < n ==> u is Prefix,
            chained(u, bytes@.skip(rem as int), t),
            (n - rem) % (PREFIX_MAX_INLINE as int) == 0 || rem == 0,
            n <= PREFIX_MAX_INLINE && rem < n ==> rem == 0 && u == (Art::Prefix { slot: next as int, bytes: bytes@, child: Box::new(t) }),
            rem == n ==> u == t,
            rem < n ==> (forall|key: Seq<u8>, d: int| #[trigger] step(u, key, d) == behind(t, bytes@.skip(rem as int), key, d)),
            spent(f0, *frame, chain_written(n, rem as int)),
            rem < n ==> affords(f0, chain_written(n, rem as int)),
        decreases rem,
    {
        let chunk_len: usize = if rem <= PREFIX_MAX_INLINE { rem } else { PREFIX_MAX_INLINE };
        let chunk_start: usize = rem - chunk_len;
        let mut chunk: Vec<u8> = Vec::new();
        chunk.extend_from_slice(&bytes[chunk_start..rem]);
        assert(chunk@ =~= bytes@.subrange(chunk_start as int, rem as int));
        let ghost chunk_bytes = chunk@;
        let ghost before = *frame;
        let out = frame.alloc_node(Node::Prefix(Prefix { bytes: chunk, child: next }));
        assert(chain_nodes(rem as int) == 1 + chain_nodes(chunk_start as int));
        let slot: u16 = match out {
            Ok(s) => s,
            Err(e) => {
                return Err(e);
            },
        };
        proof {
            let rest = bytes@.skip(rem as int);
            let all = bytes@.skip(chunk_start as int);
            if n <= PREFIX_MAX_INLINE {
                assert(chunk_bytes =~= bytes@);
            }
            assert(all =~= chunk_bytes + rest);
            assert(all.take(chunk_len as int) =~= chunk_bytes);
            assert(all.skip(chunk_len as int) =~= rest);
            assert(head_len(all.len() as int) == chunk_len) by {
                lemma_head_len(n - rem, chunk_len as int);
            }
            let u2 = Art::Prefix { slot: slot as int, bytes: chunk_bytes, child: Box::new(u) };
            assert forall|s: int| #[trigger] owns(u, s) implies at(frame.cells@, s) == at(before.cells@, s) by {
                crate::art::lemma_owns_present(before.cells@, u, s);
            }
            crate::art::lemma_rep_frame(before.cells@, frame.cells@, u);
            assert(rep(frame.cells@, u2));
            if owns(u, slot as int) {
                crate::art::lemma_owns_present(before.cells@, u, slot as int);
            }
            assert forall|s: int| #[trigger] owns(u2, s) implies owns(t, s) || at(c0, s) is None by {
                if s == slot {
                    if at(c0, s) is Some {
                        assert(at(before.cells@, s) == at(c0, s));
                    }
                } else {
                    assert(owns(u, s));
                }
            }
            assert forall|i: int| crate::frame::unit_of(f0.arena_end as int) <= i implies #[trigger] at(frame.cells@, i) == at(f0.cells@, i) by {
                assert(at(before.cells@, i) == at(f0.cells@, i));
            }
            assert forall|s: int| owns(t, s) implies #[trigger] owns(u2, s) by {
                assert(owns(u, s));
            }
            assert(keeps(c0, frame.cells@)) by {
                assert forall|s: int| (#[trigger] at(c0, s)) is Some implies at(frame.cells@, s) == at(c0, s) by {
                    assert(at(before.cells@, s) == at(c0, s));
                }
            }
            assert forall|path: Seq<u8>| #![trigger keyed(u2, path)] keyed(u2, path) == keyed(t, path + all) by {
                assert(keyed(u, path + chunk_bytes) == keyed(t, (path + chunk_bytes) + rest));
                assert((path + chunk_bytes) + rest =~= path + all);
            }
            assert forall|key: Seq<u8>, d: int| #[trigger] step(u2, key, d) == behind(t, all, key, d) by {
                lemma_matches_concat(key, d, chunk_bytes, rest);
                if rem == n {
                    assert(rest =~= Seq::<u8>::empty());
                    assert(all =~= chunk_bytes);
                } else {
                    assert(step(u, key, d + chunk_bytes.len()) == behind(t, rest, key, d + chunk_bytes.len()));
                }
            }
            u = u2;
        }
        next = slot;
        rem = chunk_start;
    }
    proof {
        assert(bytes@.skip(0) =~= bytes@);
    }
    Ok((next, Ghost(u)))
}

/// Full nodes in front of nothing but one shorter node.
proof fn lemma_head_len(behind: int, front: int)
    requires
        behind >= 0,
        behind % (PREFIX_MAX_INLINE as int) == 0,
        0 < front <= PREFIX_MAX_INLINE,
    ensures
        head_len(behind + front) == front,
{
}

/// What has been written of a chain of `n` bytes when `rem` are left.
pub open spec fn chain_written(n: int, rem: int) -> Cost {
    Cost { bytes: (chain_nodes(n) - chain_nodes(rem)) * 128, nodes: chain_nodes(n) - chain_nodes(rem) }
}

/// The subtrees of a node with exactly two children.
pub open spec fn pair_kids(b1: u8, t1: Art, b2: u8, t2: Art) -> Seq<Option<Art>> {
    Seq::new(256, |b: int| None::<Art>).update(b1 as int, Some(t1)).update(b2 as int, Some(t2))
}

/// Joins two trees below a fresh four-way node.
pub fn write_node4_with(
    frame: &mut BlobFrame,
    first: (u8, u16),
    second: (u8, u16),
    Ghost(t1): Ghost<Art>,
    Ghost(t2): Ghost<Art>,
) -> (r: Result<u16>)
    requires
        old(frame).ok(),
        first.0 != second.0,
        rep(old(frame).cells@, t1),
        rep(old(frame).cells@, t2),
        slot_of(t1) == first.1,
        slot_of(t2) == second.1,
        sep(t1),
        sep(t2),
        forall|s: int| !(#[trigger] owns(t1, s) && #[trigger] owns(t2, s)),
    ensures
        match r {
            Ok(s) => {
                let u = Art::Inner { slot: s as int, kids: pair_kids(first.0, t1, second.0, t2) };
                &&& spent(*old(frame), *final(frame), one(16))
                &&& affords(*old(frame), one(16))
                &&& final(frame).ok()
                &&& keeps(old(frame).cells@, final(frame).cells@)
                &&& at(old(frame).cells@, s as int) is None
                &&& at(final(frame).cells@, s as int) matches Some(n) && n is Node4
                &&& rep(final(frame).cells@, u)
                &&& sep(u)
                &&& forall|s2: int| #[trigger] owns(u, s2) <==> s2 == s || owns(t1, s2) || owns(t2, s2)
                &&& dead(u) == dead(t1) + dead(t2)
                &&& forall|path: Seq<u8>| #![trigger keyed(u, path)]
                    keyed(t1, path.push(first.0)) && keyed(t2, path.push(second.0)) ==> keyed(u, path)
            },
            Err(e) => short(*old(frame), *final(frame), one(16), e),
        },
{
    let mut n = empty_node4();
    let ghost n0 = Node::Node4(n);
    assert forall|x: int| 0 <= x < 256 implies #[trigger] kid(n0, x) == 0 by {
        crate::node::lemma_list_absent(n.keys@, n.children@, 0, x as u8);
    }
    proof {
        crate::node::lemma_list_absent(n.keys@, n.children@, 0, first.0);
    }
    node4_insert_sorted(&mut n, first.0, first.1);
    let ghost n1 = Node::Node4(n);
    assert(kid(n1, second.0 as int) == 0);
    node4_insert_sorted(&mut n, second.0, second.1);
    let ghost body = Node::Node4(n);
    let r = frame.alloc_node(Node::Node4(n));
    proof {
        if let Ok(s) = r {
            let kids = pair_kids(first.0, t1, second.0, t2);
            let u = Art::Inner { slot: s as int, kids };
            let c0 = old(frame).cells@;
            let c = frame.cells@;
            assert forall|s2: int| #[trigger] owns(t1, s2) implies at(c, s2) == at(c0, s2) && s2 != s by {
                crate::art::lemma_owns_present(c0, t1, s2);
            }
            assert forall|s2: int| #[trigger] owns(t2, s2) implies at(c, s2) == at(c0, s2) && s2 != s by {
                crate::art::lemma_owns_present(c0, t2, s2);
            }
            crate::art::lemma_rep_frame(c0, c, t1);
            crate::art::lemma_rep_frame(c0, c, t2);
            assert forall|b: int| 0 <= b < 256 implies {
                &&& (#[trigger] kids[b] is Some <==> kid(body, b) != 0)
                &&& kids[b] is Some ==> slot_of(kids[b]->0) == kid(body, b) && rep(c, kids[b]->0)
            } by {
                assert(kid(n0, b) == 0);
                assert(kid(n1, b) == (if b == first.0 { first.1 } else { 0u16 }));
            }
            assert(rep(c, u));
            assert forall|s2: int| #[trigger] owns(u, s2) <==> s2 == s || owns(t1, s2) || owns(t2, s2) by {
                if owns(t1, s2) {
                    assert(kids[first.0 as int] == Some(t1));
                }
                if owns(t2, s2) {
                    assert(kids[second.0 as int] == Some(t2));
                }
            }
            assert(sep(u));
            let none = Seq::new(256, |b: int| None::<Art>);
            crate::art::lemma_dead_none(none, 256);
            crate::art::lemma_dead_update(none, first.0 as int, Some(t1), 256);
            crate::art::lemma_dead_update(none.update(first.0 as int, Some(t1)), second.0 as int, Some(t2), 256);
        }
    }
    r
}

/// A tree with one subtree exchanged.
pub open spec fn with_kid(t: Art, b: u8, k: Art) -> Art {
    Art::Inner { slot: t->Inner_slot, kids: t->kids.update(b as int, Some(k)) }
}

/// Puts an edited subtree back below its inner node.
pub proof fn lemma_replug_inner(
    c0: Seq<Option<Node>>,
    c1: Seq<Option<Node>>,
    c2: Seq<Option<Node>>,
    t: Art,
    b: u8,
    k2: Art,
    path: Seq<u8>,
)
    requires
        t is Inner,
        rep(c0, t),
        sep(t),
        keyed(t, path),
        t->kids[b as int] is Some,
        edits(c0, t->kids[b as int]->0, c1, k2),
        rep(c1, k2),
        sep(k2),
        keyed(k2, path.push(b)),
        at(c2, slot_of(t)) matches Some(n2) && inner_ok(n2) && crate::node::kid_update(at(c0, slot_of(t))->0, n2, b as int, slot_of(k2) as u16),
        forall|s: int| s != slot_of(t) ==> #[trigger] at(c2, s) == at(c1, s),
    ensures
        rep(c2, with_kid(t, b, k2)),
        sep(with_kid(t, b, k2)),
        keyed(with_kid(t, b, k2), path),
        edits(c0, t, c2, with_kid(t, b, k2)),
        dead(with_kid(t, b, k2)) == dead(t) - dead(t->kids[b as int]->0) + dead(k2),
{
    let slot = slot_of(t);
    let kids = t->kids;
    let k = kids[b as int]->0;
    let kids2 = kids.update(b as int, Some(k2));
    let t2 = with_kid(t, b, k2);
    let n = at(c0, slot)->0;
    let n2 = at(c2, slot)->0;
    assert(kids2.len() == 256);
    // The slot of the inner node itself is not in the new subtree.
    if owns(k2, slot) {
        assert(owns(k, slot) || at(c0, slot) is None);
        assert(!owns(kids[b as int]->0, slot));
    }
    assert forall|s: int| #[trigger] owns(k2, s) implies at(c2, s) == at(c1, s) by {
        assert(s != slot);
    }
    crate::art::lemma_rep_frame(c1, c2, k2);
    assert forall|x: int| 0 <= x < 256 && x != b && (#[trigger] kids[x]) is Some implies rep(c2, kids[x]->0) && !owns(kids[x]->0, slot)
        && (forall|s: int| !(#[trigger] owns(kids[x]->0, s) && #[trigger] owns(k2, s))) by {
        let kx = kids[x]->0;
        assert(rep(c0, kx));
        assert forall|s: int| #[trigger] owns(kx, s) implies at(c2, s) == at(c0, s) by {
            crate::art::lemma_owns_present(c0, kx, s);
            assert(!(owns(kids[x]->0, s) && owns(kids[b as int]->0, s)));
            assert(at(c1, s) == at(c0, s));
        }
        crate::art::lemma_rep_frame(c0, c2, kx);
        assert forall|s: int| !(#[trigger] owns(kx, s) && #[trigger] owns(k2, s)) by {
            if owns(kx, s) && owns(k2, s) {
                crate::art::lemma_owns_present(c0, kx, s);
                assert(owns(k, s));
                assert(!(owns(kids[x]->0, s) && owns(kids[b as int]->0, s)));
            }
        }
    }
    assert forall|x: int| 0 <= x < 256 implies {
        &&& (#[trigger] kids2[x] is Some <==> kid(n2, x) != 0)
        &&& kids2[x] is Some ==> slot_of(kids2[x]->0) == kid(n2, x) && rep(c2, kids2[x]->0)
    } by {
        assert(kids[x] is Some <==> kid(n, x) != 0);
        assert(kid(n2, x) == (if x == b { slot_of(k2) as u16 } else { kid(n, x) }));
    }
    assert(rep(c2, t2));
    assert(sep(t2)) by {
        assert forall|x: int| 0 <= x < kids2.len() && (#[trigger] kids2[x]) is Some implies !owns(kids2[x]->0, slot) && sep(kids2[x]->0) by {
            if x != b {
                assert(kids[x] is Some);
            }
        }
        assert forall|x: int, y: int, s: int|
            0 <= x < kids2.len() && 0 <= y < kids2.len() && x != y && kids2[x] is Some && kids2[y] is Some
                implies !(#[trigger] owns(kids2[x]->0, s) && #[trigger] owns(kids2[y]->0, s)) by {
            if x != b {
                assert(kids[x] is Some);
            }
            if y != b {
                assert(kids[y] is Some);
            }
            if x != b && y != b {
                assert(!(owns(kids[x]->0, s) && owns(kids[y]->0, s)));
            }
        }
    }
    assert(keyed(t2, path)) by {
        assert forall|x: int| 0 <= x < kids2.len() && (#[trigger] kids2[x]) is Some implies keyed(kids2[x]->0, path.push(x as u8)) by {
            if x != b {
                assert(kids[x] is Some);
            }
        }
    }
    assert(edits(c0, t, c2, t2)) by {
        assert forall|s: int| (#[trigger] at(c0, s)) is Some && !owns(t, s) implies at(c2, s) == at(c0, s) by {
            if owns(k, s) {
                assert(owns(t, s));
            }
            assert(at(c1, s) == at(c0, s));
        }
        assert forall|s: int| #[trigger] owns(t2, s) implies owns(t, s) || at(c0, s) is None by {
            if s != slot {
                let x = choose|x: int| 0 <= x < kids2.len() && (#[trigger] kids2[x]) is Some && owns(kids2[x]->0, s);
                if x == b {
                    if owns(k, s) {
                        assert(kids[b as int] is Some);
                    }
                } else {
                    assert(kids[x] is Some);
                }
            }
        }
    }
    crate::art::lemma_dead_update(kids, b as int, Some(k2), 256);
}

/// Puts a fresh subtree below an inner node, which may move to a fresh
/// number.
pub proof fn lemma_plug_inner(
    c0: Seq<Option<Node>>,
    c1: Seq<Option<Node>>,
    c2: Seq<Option<Node>>,
    t: Art,
    b: u8,
    k2: Art,
    slot2: int,
    path: Seq<u8>,
)
    requires
        t is Inner,
        rep(c0, t),
        sep(t),
        keyed(t, path),
        t->kids[b as int] is None,
        keeps(c0, c1),
        rep(c1, k2),
        sep(k2),
        keyed(k2, path.push(b)),
        forall|s: int| #[trigger] owns(k2, s) ==> at(c0, s) is None,
        slot2 == slot_of(t) || (at(c1, slot2) is None && 0 < slot2 < 65536),
        at(c2, slot2) matches Some(n2) && inner_ok(n2) && crate::node::kid_update(at(c0, slot_of(t))->0, n2, b as int, slot_of(k2) as u16),
        forall|s: int| s != slot2 ==> #[trigger] at(c2, s) == at(c1, s),
    ensures
        ({
            let t2 = Art::Inner { slot: slot2, kids: t->kids.update(b as int, Some(k2)) };
            &&& rep(c2, t2)
            &&& sep(t2)
            &&& keyed(t2, path)
            &&& edits(c0, t, c2, t2)
            &&& dead(t2) == dead(t) + dead(k2)
        }),
{
    let slot = slot_of(t);
    let kids = t->kids;
    let kids2 = kids.update(b as int, Some(k2));
    let t2 = Art::Inner { slot: slot2, kids: kids2 };
    let n = at(c0, slot)->0;
    let n2 = at(c2, slot2)->0;
    assert(at(c1, slot) == at(c0, slot));
    assert(kids2.len() == 256);
    assert forall|s: int| #[trigger] owns(k2, s) implies s != slot2 && s != slot by {
        crate::art::lemma_owns_present(c1, k2, s);
    }
    crate::art::lemma_rep_frame(c1, c2, k2);
    assert forall|x: int| 0 <= x < 256 && x != b && (#[trigger] kids[x]) is Some implies rep(c2, kids[x]->0) && !owns(kids[x]->0, slot2)
        && (forall|s: int| !(#[trigger] owns(kids[x]->0, s) && #[trigger] owns(k2, s))) by {
        let kx = kids[x]->0;
        assert(rep(c0, kx));
        assert forall|s: int| #[trigger] owns(kx, s) implies at(c2, s) == at(c0, s) && s != slot2 by {
            crate::art::lemma_owns_present(c0, kx, s);
            assert(at(c1, s) == at(c0, s));
        }
        crate::art::lemma_rep_frame(c0, c2, kx);
        assert forall|s: int| !(#[trigger] owns(kx, s) && #[trigger] owns(k2, s)) by {
            if owns(kx, s) && owns(k2, s) {
                crate::art::lemma_owns_present(c0, kx, s);
            }
        }
    }
    assert forall|x: int| 0 <= x < 256 implies {
        &&& (#[trigger] kids2[x] is Some <==> kid(n2, x) != 0)
        &&& kids2[x] is Some ==> slot_of(kids2[x]->0) == kid(n2, x) && rep(c2, kids2[x]->0)
    } by {
        assert(kids[x] is Some <==> kid(n, x) != 0);
        assert(kid(n2, x) == (if x == b { slot_of(k2) as u16 } else { kid(n, x) }));
    }
    assert(rep(c2, t2));
    assert(sep(t2)) by {
        assert forall|x: int| 0 <= x < kids2.len() && (#[trigger] kids2[x]) is Some implies !owns(kids2[x]->0, slot2) && sep(kids2[x]->0) by {
            if x != b {
                assert(kids[x] is Some);
            }
        }
        assert forall|x: int, y: int, s: int|
            0 <= x < kids2.len() && 0 <= y < kids2.len() && x != y && kids2[x] is Some && kids2[y] is Some
                implies !(#[trigger] owns(kids2[x]->0, s) && #[trigger] owns(kids2[y]->0, s)) by {
            if x != b {
                assert(kids[x] is Some);
            }
            if y != b {
                assert(kids[y] is Some);
            }
            if x != b && y != b {
                assert(!(owns(kids[x]->0, s) && owns(kids[y]->0, s)));
            }
        }
    }
    assert(keyed(t2, path)) by {
        assert forall|x: int| 0 <= x < kids2.len() && (#[trigger] kids2[x]) is Some implies keyed(kids2[x]->0, path.push(x as u8)) by {
            if x != b {
                assert(kids[x] is Some);
            }
        }
    }
    assert(edits(c0, t, c2, t2)) by {
        assert forall|s: int| (#[trigger] at(c0, s)) is Some && !owns(t, s) implies at(c2, s) == at(c0, s) by {
            assert(at(c1, s) == at(c0, s));
        }
        assert forall|s: int| #[trigger] owns(t2, s) implies owns(t, s) || at(c0, s) is None by {
            if s == slot2 {
                if slot2 != slot && at(c0, s) is Some {
                    assert(at(c1, s) == at(c0, s));
                }
            } else {
                let x = choose|x: int| 0 <= x < kids2.len() && (#[trigger] kids2[x]) is Some && owns(kids2[x]->0, s);
                if x != b {
                    assert(kids[x] is Some);
                }
            }
        }
    }
    crate::art::lemma_dead_update(kids, b as int, Some(k2), 256);
}

/// Puts an edited subtree back below its prefix node.
pub proof fn lemma_replug_prefix(
    c0: Seq<Option<Node>>,
    c1: Seq<Option<Node>>,
    c2: Seq<Option<Node>>,
    t: Art,
    k2: Art,
    path: Seq<u8>,
)
    requires
        t is Prefix,
        rep(c0, t),
        sep(t),
        keyed(t, path),
        edits(c0, *t->child, c1, k2),
        rep(c1, k2),
        sep(k2),
        keyed(k2, path + t->Prefix_bytes),
        at(c2, slot_of(t)) matches Some(Node::Prefix(p)) && p.bytes@ == t->Prefix_bytes && p.child == slot_of(k2),
        forall|s: int| s != slot_of(t) ==> #[trigger] at(c2, s) == at(c1, s),
    ensures
        ({
            let t2 = Art::Prefix { slot: slot_of(t), bytes: t->Prefix_bytes, child: Box::new(k2) };
            &&& rep(c2, t2)
            &&& sep(t2)
            &&& keyed(t2, path)
            &&& edits(c0, t, c2, t2)
            &&& dead(t2) == dead(t) - dead(*t->child) + dead(k2)
        }),
{
    let slot = slot_of(t);
    let k = *t->child;
    let t2 = Art::Prefix { slot, bytes: t->Prefix_bytes, child: Box::new(k2) };
    if owns(k2, slot) {
        assert(owns(k, slot) || at(c0, slot) is None);
    }
    assert forall|s: int| #[trigger] owns(k2, s) implies at(c2, s) == at(c1, s) by {
        assert(s != slot);
    }
    crate::art::lemma_rep_frame(c1, c2, k2);
    assert(edits(c0, t, c2, t2)) by {
        assert forall|s: int| (#[trigger] at(c0, s)) is Some && !owns(t, s) implies at(c2, s) == at(c0, s) by {
            assert(!owns(k, s));
            assert(at(c1, s) == at(c0, s));
        }
        assert forall|s: int| #[trigger] owns(t2, s) implies owns(t, s) || at(c0, s) is None by {
            if s != slot {
                assert(owns(k2, s));
                if owns(k, s) {
                    assert(owns(t, s));
                }
            }
        }
    }
}

} // verus!
