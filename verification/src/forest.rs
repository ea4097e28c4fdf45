//! What a set of blobs holds together.
//!
//! Blobs refer to each other by name. A [`Forest`] is such a set with two
//! annotations that no running code needs: the key bytes that lead to each
//! blob, and a rank that goes down along every reference. `find` follows a
//! key through as many blobs as it takes.
use vstd::prelude::*;

use crate::art::{step, Art, Route};
use crate::frame::BlobFrame;
use crate::key::matches_at;
use crate::layout::BlobGuid;

verus! {

/// Blobs by name, with the bytes that lead to each and a rank.
pub struct Forest {
    pub blobs: Map<BlobGuid, BlobFrame>,
    pub base: Map<BlobGuid, Seq<u8>>,
    pub rank: Map<BlobGuid, nat>,
}

impl Forest {
    /// Whether there is a blob named `g`.
    pub open spec fn has(self, g: BlobGuid) -> bool {
        self.blobs.contains_key(g)
    }

    /// Whether `key` begins with the bytes that lead to blob `g`.
    pub open spec fn below(self, g: BlobGuid, key: Seq<u8>) -> bool {
        self.base[g].is_prefix_of(key)
    }

    /// Where `key` leads within blob `g`.
    pub open spec fn route(self, g: BlobGuid, key: Seq<u8>) -> Route {
        self.blobs[g].route(key, self.base[g].len() as int)
    }

    /// Whether a crossing of `key` out of `g` leads to a blob of lower rank
    /// that the consumed bytes lead to.
    pub open spec fn edge_ok(self, g: BlobGuid, key: Seq<u8>) -> bool {
        self.route(g, key) matches Route::Crossing { guid: c, depth: e } ==> {
            &&& self.has(c)
            &&& self.rank[c] < self.rank[g]
            &&& self.below(c, key)
            &&& self.base[c].len() == e
        }
    }

    /// Whether every blob is a well-formed tree and every reference leads to
    /// a blob further down.
    pub open spec fn linked(self) -> bool {
        &&& forall|g: BlobGuid| #[trigger] self.has(g) ==> self.blobs[g].wf(self.base[g])
        &&& forall|g: BlobGuid, key: Seq<u8>| self.has(g) && self.below(g, key) ==> #[trigger] self.edge_ok(g, key)
    }

    /// What following `key` from blob `g` through all blobs ends at.
    pub open spec fn find(self, g: BlobGuid, key: Seq<u8>) -> Route
        decreases self.rank[g],
    {
        match self.route(g, key) {
            Route::Crossing { guid: c, .. } => if self.rank[c] < self.rank[g] {
                self.find(c, key)
            } else {
                Route::NotFound
            },
            r => r,
        }
    }

    /// The blob that following `key` from blob `g` ends in.
    pub open spec fn home(self, g: BlobGuid, key: Seq<u8>) -> BlobGuid
        decreases self.rank[g],
    {
        match self.route(g, key) {
            Route::Crossing { guid: c, .. } => if self.rank[c] < self.rank[g] {
                self.home(c, key)
            } else {
                g
            },
            _ => g,
        }
    }

    /// Number of blobs that following `key` from blob `g` passes through.
    pub open spec fn hops(self, g: BlobGuid, key: Seq<u8>) -> nat
        decreases self.rank[g],
    {
        match self.route(g, key) {
            Route::Crossing { guid: c, .. } => if self.rank[c] < self.rank[g] {
                self.hops(c, key) + 1
            } else {
                1
            },
            _ => 1,
        }
    }

    /// The forest with another image of blob `g`.
    pub open spec fn with(self, g: BlobGuid, f: BlobFrame) -> Forest {
        Forest { blobs: self.blobs.insert(g, f), ..self }
    }
}

/// A crossing consumes no fewer bytes than were consumed before it.
pub proof fn lemma_crossing_depth(t: Art, key: Seq<u8>, d: int)
    ensures
        step(t, key, d) matches Route::Crossing { depth: e, .. } ==> d <= e,
    decreases t,
{
    match t {
        Art::Prefix { bytes, child, .. } => lemma_crossing_depth(*child, key, d + bytes.len()),
        Art::Inner { kids, .. } => if 0 <= d < key.len() && key[d] < kids.len() && kids[key[d] as int] is Some {
            lemma_crossing_depth(kids[key[d] as int]->0, key, d + 1);
        },
        _ => {},
    }
}

/// The blob where a walk ends is reached by no fewer bytes than the one where
/// it starts.
pub proof fn lemma_home_depth(f: Forest, g: BlobGuid, key: Seq<u8>)
    requires
        f.linked(),
        f.has(g),
        f.below(g, key),
    ensures
        f.base[g].len() <= f.base[f.home(g, key)].len() <= key.len(),
    decreases f.rank[g],
{
    assert(f.edge_ok(g, key));
    lemma_crossing_depth(f.blobs[g].tree(), key, f.base[g].len() as int);
    if let Route::Crossing { guid: c, .. } = f.route(g, key) {
        lemma_home_depth(f, c, key);
    }
}

/// Whether `b` has all blobs of `a`, reached by the same bytes and ranked in
/// the same order.
pub open spec fn grown(a: Forest, b: Forest) -> bool {
    &&& forall|g: BlobGuid| #[trigger] a.has(g) ==> b.has(g) && b.base[g] == a.base[g]
    &&& forall|g: BlobGuid, h: BlobGuid| a.has(g) && a.has(h) && #[trigger] a.rank[g] <= #[trigger] a.rank[h] ==> b.rank[g] <= b.rank[h]
}

/// Whether every key but `key` is found in `b` as in `a`, from every blob of
/// `a`.
pub open spec fn others_same(a: Forest, b: Forest, key: Seq<u8>) -> bool {
    forall|g: BlobGuid, other: Seq<u8>| a.has(g) && a.below(g, other) && other != key ==> #[trigger] b.find(g, other) == a.find(g, other)
}

/// Whether every key is found in `b` as in `a`, from every blob of `a`.
pub open spec fn all_same(a: Forest, b: Forest) -> bool {
    forall|g: BlobGuid, key: Seq<u8>| a.has(g) && a.below(g, key) ==> #[trigger] b.find(g, key) == a.find(g, key)
}

/// Whether only blob `g` differs between the blobs of `a` and those of `b`.
pub open spec fn only_touched(a: Forest, b: Forest, g: BlobGuid) -> bool {
    forall|h: BlobGuid| #[trigger] a.has(h) && h != g ==> b.blobs[h] == a.blobs[h]
}

/// A change of blob `g` that no key notices.
pub open spec fn reshaped(a: Forest, b: Forest, g: BlobGuid) -> bool {
    &&& b.linked()
    &&& grown(a, b)
    &&& all_same(a, b)
    &&& only_touched(a, b, g)
}

/// Changes in sequence.
pub proof fn lemma_reshaped_trans(a: Forest, b: Forest, c: Forest, g: BlobGuid)
    requires
        reshaped(a, b, g),
        reshaped(b, c, g),
    ensures
        reshaped(a, c, g),
{
    assert forall|h: BlobGuid, key: Seq<u8>| a.has(h) && a.below(h, key) implies #[trigger] c.find(h, key) == a.find(h, key) by {
        assert(b.has(h));
        assert(b.find(h, key) == a.find(h, key));
    }
    assert forall|h: BlobGuid| #[trigger] a.has(h) && h != g implies c.blobs[h] == a.blobs[h] by {
        assert(b.has(h));
    }
    assert forall|h: BlobGuid| #[trigger] a.has(h) implies c.has(h) && c.base[h] == a.base[h] by {
        assert(b.has(h));
    }
    assert forall|h1: BlobGuid, h2: BlobGuid| a.has(h1) && a.has(h2) && #[trigger] a.rank[h1] <= #[trigger] a.rank[h2] implies c.rank[h1]
        <= c.rank[h2] by {
        assert(b.has(h1) && b.has(h2));
        assert(b.rank[h1] <= b.rank[h2]);
    }
}

/// No change at all.
pub proof fn lemma_reshaped_refl(a: Forest, g: BlobGuid)
    requires
        a.linked(),
    ensures
        reshaped(a, a, g),
{
}

/// A key that leads where it led in every blob is found as before.
pub proof fn lemma_with_find(a: Forest, g: BlobGuid, f: BlobFrame, h: BlobGuid, key: Seq<u8>)
    requires
        a.linked(),
        a.has(g),
        a.has(h),
        a.below(h, key),
        a.below(g, key) ==> a.with(g, f).route(g, key) == a.route(g, key),
    ensures
        a.with(g, f).find(h, key) == a.find(h, key),
        a.with(g, f).hops(h, key) == a.hops(h, key),
        a.with(g, f).home(h, key) == a.home(h, key),
    decreases a.rank[h],
{
    let b = a.with(g, f);
    assert(a.edge_ok(h, key));
    assert(b.route(h, key) == a.route(h, key));
    match a.route(h, key) {
        Route::Crossing { guid: c, .. } => {
            lemma_with_find(a, g, f, c, key);
        },
        _ => {},
    }
}

/// Exchanging a blob for one that leads every key of it to the same place
/// changes nothing.
pub proof fn lemma_with_same(a: Forest, g: BlobGuid, f: BlobFrame)
    requires
        a.linked(),
        a.has(g),
        f.wf(a.base[g]),
        forall|key: Seq<u8>| a.below(g, key) ==> #[trigger] a.with(g, f).route(g, key) == a.route(g, key),
    ensures
        reshaped(a, a.with(g, f), g),
{
    let b = a.with(g, f);
    assert forall|h: BlobGuid, key: Seq<u8>| b.has(h) && b.below(h, key) implies #[trigger] b.edge_ok(h, key) by {
        assert(a.edge_ok(h, key));
        assert(a.has(h));
        if h == g {
            assert(b.route(g, key) == a.route(g, key));
        } else {
            assert(b.route(h, key) == a.route(h, key));
        }
    }
    assert forall|h: BlobGuid| #[trigger] b.has(h) implies b.blobs[h].wf(b.base[h]) by {
        assert(a.has(h));
    }
    assert forall|h: BlobGuid, key: Seq<u8>| a.has(h) && a.below(h, key) implies #[trigger] b.find(h, key) == a.find(h, key) by {
        lemma_with_find(a, g, f, h, key);
    }
}

/// Writing or deleting one key in a blob leaves all other keys alone.
pub proof fn lemma_with_key(a: Forest, g: BlobGuid, f: BlobFrame, key: Seq<u8>)
    requires
        a.linked(),
        a.has(g),
        a.below(g, key),
        f.wf(a.base[g]),
        !(f.route(key, a.base[g].len() as int) is Crossing),
        forall|other: Seq<u8>| other != key ==> #[trigger] f.route(other, a.base[g].len() as int) == a.blobs[g].route(
            other,
            a.base[g].len() as int,
        ),
    ensures
        a.with(g, f).linked(),
        grown(a, a.with(g, f)),
        only_touched(a, a.with(g, f), g),
        others_same(a, a.with(g, f), key),
        a.with(g, f).find(g, key) == f.route(key, a.base[g].len() as int),
{
    let b = a.with(g, f);
    let d = a.base[g].len() as int;
    assert forall|other: Seq<u8>| other != key implies #[trigger] b.route(g, other) == a.route(g, other) by {
        assert(f.route(other, d) == a.blobs[g].route(other, d));
    }
    assert forall|h: BlobGuid, k: Seq<u8>| b.has(h) && b.below(h, k) implies #[trigger] b.edge_ok(h, k) by {
        assert(a.has(h));
        assert(a.edge_ok(h, k));
        if h == g {
            if k != key {
                assert(b.route(g, k) == a.route(g, k));
            }
        } else {
            assert(b.route(h, k) == a.route(h, k));
        }
    }
    assert forall|h: BlobGuid| #[trigger] b.has(h) implies b.blobs[h].wf(b.base[h]) by {
        assert(a.has(h));
    }
    assert forall|h: BlobGuid, other: Seq<u8>| a.has(h) && a.below(h, other) && other != key implies #[trigger] b.find(h, other) == a.find(
        h,
        other,
    ) by {
        lemma_with_find(a, g, f, h, other);
    }
}

/// The forest after a subtree of blob `g` moved to the new blob `n`.
pub open spec fn split(a: Forest, g: BlobGuid, f: BlobFrame, n: BlobGuid, child: BlobFrame, via: Seq<u8>) -> Forest {
    Forest {
        blobs: a.blobs.insert(g, f).insert(n, child),
        base: a.base.insert(n, a.base[g] + via),
        rank: Map::new(
            |h: BlobGuid| true,
            |h: BlobGuid|
                if h == n {
                    (2 * a.rank[g] + 1) as nat
                } else {
                    (2 * a.rank[h] + (if a.rank[h] >= a.rank[g] { 2nat } else { 0nat })) as nat
                },
        ),
    }
}

/// Moving a subtree to a blob of its own changes nothing for any key.
pub proof fn lemma_split(a: Forest, g: BlobGuid, f: BlobFrame, n: BlobGuid, child: BlobFrame, via: Seq<u8>)
    requires
        a.linked(),
        a.has(g),
        !a.has(n),
        f.wf(a.base[g]),
        child.wf(a.base[g] + via),
        forall|key: Seq<u8>, d: int| 0 <= d <= key.len() ==> crate::spillover::moved(
            a.blobs[g].route(key, d),
            #[trigger] f.route(key, d),
            child.tree(),
            n,
            via,
            key,
            d,
        ),
        forall|key: Seq<u8>, d: int| #[trigger] matches_at(key, d, via) ==> child.route(key, d + via.len()) == a.blobs[g].route(key, d),
    ensures
        reshaped(a, split(a, g, f, n, child, via), g),
{
    let b = split(a, g, f, n, child, via);
    let d = a.base[g].len() as int;
    assert forall|key: Seq<u8>| a.below(g, key) implies (#[trigger] b.route(g, key) == a.route(g, key)) || (b.route(g, key) == (Route::Crossing {
        guid: n,
        depth: d + via.len(),
    }) && b.below(n, key) && b.route(n, key) == a.route(g, key)) by {
        assert(crate::spillover::moved(a.blobs[g].route(key, d), f.route(key, d), child.tree(), n, via, key, d));
        if b.route(g, key) != a.route(g, key) {
            let e = d + via.len();
            assert(key.subrange(d, e) =~= via);
            assert((a.base[g] + via) =~= key.subrange(0, e)) by {
                assert(a.base[g] =~= key.subrange(0, d));
            }
            assert(b.route(n, key) == step(child.tree(), key, e));
        }
    }
    assert forall|key: Seq<u8>| b.below(n, key) implies a.below(g, key) && #[trigger] b.route(n, key) == a.route(g, key) by {
        let e = d + via.len();
        let both = a.base[g] + via;
        assert(both =~= key.subrange(0, e));
        assert(a.base[g] =~= key.subrange(0, d)) by {
            assert forall|i: int| 0 <= i < d implies a.base[g][i] == key[i] by {
                assert(both[i] == key.subrange(0, e)[i]);
            }
        }
        assert(key.subrange(d, e) =~= via) by {
            assert forall|i: int| 0 <= i < via.len() implies key.subrange(d, e)[i] == via[i] by {
                assert(both[d + i] == key.subrange(0, e)[d + i]);
            }
        }
        assert(matches_at(key, d, via));
    }
    assert forall|h: BlobGuid, key: Seq<u8>| b.has(h) && b.below(h, key) implies #[trigger] b.edge_ok(h, key) by {
        if h == n {
            assert(b.route(n, key) == a.route(g, key));
            assert(a.edge_ok(g, key));
        } else {
            assert(a.has(h));
            assert(a.edge_ok(h, key));
            if h != g {
                assert(b.route(h, key) == a.route(h, key));
            } else if b.route(g, key) != a.route(g, key) {
                assert(b.below(n, key));
            }
        }
    }
    assert forall|h: BlobGuid| #[trigger] b.has(h) implies b.blobs[h].wf(b.base[h]) by {
        if h != n {
            assert(a.has(h));
        }
    }
    assert(b.linked());
    assert(grown(a, b)) by {
        assert forall|h: BlobGuid| #[trigger] a.has(h) implies b.has(h) && b.base[h] == a.base[h] by {
            assert(h != n);
        }
        assert forall|h1: BlobGuid, h2: BlobGuid| a.has(h1) && a.has(h2) && #[trigger] a.rank[h1] <= #[trigger] a.rank[h2] implies b.rank[h1]
            <= b.rank[h2] by {
            assert(h1 != n && h2 != n);
        }
    }
    assert forall|h: BlobGuid, key: Seq<u8>| a.has(h) && a.below(h, key) implies #[trigger] b.find(h, key) == a.find(h, key) by {
        lemma_split_find(a, b, g, n, h, key);
    }
    assert forall|h: BlobGuid| #[trigger] a.has(h) && h != g implies b.blobs[h] == a.blobs[h] by {
        assert(h != n);
    }
}

proof fn lemma_split_find(a: Forest, b: Forest, g: BlobGuid, n: BlobGuid, h: BlobGuid, key: Seq<u8>)
    requires
        a.linked(),
        b.linked(),
        a.has(g),
        a.has(h),
        a.below(h, key),
        b.has(n),
        forall|x: BlobGuid| #[trigger] a.has(x) ==> b.has(x) && b.base[x] == a.base[x],
        forall|x: BlobGuid| #[trigger] a.has(x) && x != g ==> b.blobs[x] == a.blobs[x],
        forall|k: Seq<u8>| a.below(g, k) ==> (#[trigger] b.route(g, k) == a.route(g, k)) || (b.route(g, k) is Crossing && b.route(g, k)->guid == n
            && b.below(n, k) && b.route(n, k) == a.route(g, k)),
    ensures
        b.find(h, key) == a.find(h, key),
    decreases a.rank[h],
{
    assert(a.edge_ok(h, key));
    assert(b.edge_ok(h, key));
    if h != g {
        assert(b.route(h, key) == a.route(h, key));
    }
    match a.route(h, key) {
        Route::Crossing { guid: c, .. } => {
            lemma_split_find(a, b, g, n, c, key);
            if b.route(h, key) != a.route(h, key) {
                assert(b.edge_ok(n, key));
                assert(b.find(n, key) == b.find(c, key));
            }
        },
        _ => {
            if b.route(h, key) != a.route(h, key) {
                assert(b.find(n, key) == b.route(n, key));
            }
        },
    }
}

/// The forest after blob `p` was led to the copy `n` of blob `c`.
pub open spec fn forked(a: Forest, p: BlobGuid, f: BlobFrame, c: BlobGuid, n: BlobGuid, copy: BlobFrame) -> Forest {
    Forest { blobs: a.blobs.insert(p, f).insert(n, copy), base: a.base.insert(n, a.base[c]), rank: a.rank.insert(n, a.rank[c]) }
}

/// Leading references to a copy changes nothing for any key.
pub proof fn lemma_forked(a: Forest, p: BlobGuid, f: BlobFrame, c: BlobGuid, n: BlobGuid, copy: BlobFrame)
    requires
        a.linked(),
        a.has(p),
        a.has(c),
        !a.has(n),
        a.rank[c] < a.rank[p],
        f.wf(a.base[p]),
        copy.wf(a.base[c]),
        copy.tree() == a.blobs[c].tree(),
        forall|key: Seq<u8>, d: int| #[trigger] f.route(key, d) == a.blobs[p].route(key, d) || (exists|e: int| a.blobs[p].route(key, d) == (
        Route::Crossing { guid: c, depth: e }) && f.route(key, d) == (Route::Crossing { guid: n, depth: e })),
    ensures
        reshaped(a, forked(a, p, f, c, n, copy), p),
{
    let b = forked(a, p, f, c, n, copy);
    let d = a.base[p].len() as int;
    assert forall|key: Seq<u8>| #[trigger] b.route(n, key) == a.route(c, key) by {}
    assert forall|key: Seq<u8>| a.below(p, key) implies (#[trigger] b.route(p, key) == a.route(p, key)) || (a.route(p, key) is Crossing && a.route(
        p,
        key,
    )->guid == c && b.route(p, key) == (Route::Crossing { guid: n, depth: a.route(p, key)->depth })) by {
        assert(f.route(key, d) == a.blobs[p].route(key, d) || (exists|e: int| a.blobs[p].route(key, d) == (Route::Crossing { guid: c, depth: e })
            && f.route(key, d) == (Route::Crossing { guid: n, depth: e })));
    }
    assert forall|h: BlobGuid, key: Seq<u8>| b.has(h) && b.below(h, key) implies #[trigger] b.edge_ok(h, key) by {
        if h == n {
            assert(b.route(n, key) == a.route(c, key));
            assert(a.edge_ok(c, key));
        } else {
            assert(a.has(h));
            assert(a.edge_ok(h, key));
            if h != p {
                assert(b.route(h, key) == a.route(h, key));
            } else if b.route(p, key) != a.route(p, key) {
                assert(b.below(n, key));
            }
        }
    }
    assert forall|h: BlobGuid| #[trigger] b.has(h) implies b.blobs[h].wf(b.base[h]) by {
        if h != n {
            assert(a.has(h));
        }
    }
    assert(grown(a, b)) by {
        assert forall|h: BlobGuid| #[trigger] a.has(h) implies b.has(h) && b.base[h] == a.base[h] by {
            assert(h != n);
        }
        assert forall|h1: BlobGuid, h2: BlobGuid| a.has(h1) && a.has(h2) && #[trigger] a.rank[h1] <= #[trigger] a.rank[h2] implies b.rank[h1]
            <= b.rank[h2] by {
            assert(h1 != n && h2 != n);
        }
    }
    assert forall|h: BlobGuid, key: Seq<u8>| a.has(h) && a.below(h, key) implies #[trigger] b.find(h, key) == a.find(h, key) by {
        lemma_forked_find(a, b, p, c, n, h, key);
    }
    assert forall|h: BlobGuid| #[trigger] a.has(h) && h != p implies b.blobs[h] == a.blobs[h] by {
        assert(h != n);
    }
}

proof fn lemma_forked_find(a: Forest, b: Forest, p: BlobGuid, c: BlobGuid, n: BlobGuid, h: BlobGuid, key: Seq<u8>)
    requires
        a.linked(),
        b.linked(),
        a.has(p),
        a.has(c),
        a.has(h),
        a.below(h, key),
        b.has(n),
        forall|x: BlobGuid| #[trigger] a.has(x) ==> b.has(x) && b.base[x] == a.base[x],
        forall|x: BlobGuid| #[trigger] a.has(x) && x != p ==> b.blobs[x] == a.blobs[x],
        forall|k: Seq<u8>| #[trigger] b.route(n, k) == a.route(c, k),
        a.rank[c] < a.rank[p],
        forall|k: Seq<u8>| a.below(p, k) ==> (#[trigger] b.route(p, k) == a.route(p, k)) || (a.route(p, k) is Crossing && a.route(p, k)->guid == c
            && b.route(p, k) == (Route::Crossing { guid: n, depth: a.route(p, k)->depth })),
    ensures
        b.find(h, key) == a.find(h, key),
    decreases a.rank[h],
{
    assert(a.edge_ok(h, key));
    assert(b.edge_ok(h, key));
    if h != p {
        assert(b.route(h, key) == a.route(h, key));
    }
    match a.route(h, key) {
        Route::Crossing { guid: x, .. } => {
            lemma_forked_find(a, b, p, c, n, x, key);
            if b.route(h, key) != a.route(h, key) {
                assert(x == c);
                assert(b.route(n, key) == a.route(c, key));
                assert(b.route(c, key) == a.route(c, key));
                assert(b.edge_ok(n, key));
                assert(b.edge_ok(c, key));
                assert(b.find(n, key) == b.find(c, key));
            }
        },
        _ => {},
    }
}

} // verus!
