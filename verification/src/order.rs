//! The order of keys, and what a scan asks of it.
use vstd::prelude::*;
use vstd::slice::slice_subrange;

use crate::insert::copy_bytes;
use crate::simd::{find_byte, longest_common_prefix};

verus! {

/// Whether `a` and `b` share their first `i` bytes.
pub open spec fn agree(a: Seq<u8>, b: Seq<u8>, i: int) -> bool {
    &&& 0 <= i <= a.len()
    &&& i <= b.len()
    &&& forall|j: int| 0 <= j < i ==> a[j] == b[j]
}

/// Whether `b` leaves `a` upwards at byte `i`.
pub open spec fn rises_at(a: Seq<u8>, b: Seq<u8>, i: int) -> bool {
    &&& agree(a, b, i)
    &&& i < a.len()
    &&& i < b.len()
    &&& a[i] < b[i]
}

/// Whether `b` and everything that begins with it comes after everything
/// that begins with `a`.
pub open spec fn past(a: Seq<u8>, b: Seq<u8>) -> bool {
    exists|i: int| rises_at(a, b, i)
}

/// Whether `a` comes before `b`, byte by byte, a prefix first.
pub open spec fn lex_lt(a: Seq<u8>, b: Seq<u8>) -> bool {
    past(a, b) || (a.is_prefix_of(b) && a.len() < b.len())
}

/// A prefix agrees on all its bytes.
pub proof fn lemma_prefix_agree(a: Seq<u8>, b: Seq<u8>)
    ensures
        a.is_prefix_of(b) <==> agree(a, b, a.len() as int),
{
    if a.is_prefix_of(b) {
        assert forall|j: int| 0 <= j < a.len() implies a[j] == b[j] by {
            assert(b.subrange(0, a.len() as int)[j] == b[j]);
        }
    }
    if agree(a, b, a.len() as int) {
        assert(b.subrange(0, a.len() as int) =~= a);
    }
}

/// What two sequences do at the end of their common prefix decides their
/// order.
pub proof fn lemma_order_at(a: Seq<u8>, b: Seq<u8>, i: int)
    requires
        agree(a, b, i),
        i < a.len() && i < b.len() ==> a[i] != b[i],
    ensures
        past(a, b) <==> i < a.len() && i < b.len() && a[i] < b[i],
        a.is_prefix_of(b) <==> i == a.len(),
        lex_lt(a, b) <==> i < b.len() && (i == a.len() || a[i] < b[i]),
{
    lemma_prefix_agree(a, b);
    if i < a.len() && i < b.len() && a[i] < b[i] {
        assert(rises_at(a, b, i));
    }
    if past(a, b) {
        let k = choose|k: int| rises_at(a, b, k);
        assert(k == i);
    }
    if i < a.len() && a.is_prefix_of(b) {
        assert(a[i] == b[i]);
    }
}

/// Two sequences either are equal or part somewhere.
pub proof fn lemma_part(a: Seq<u8>, b: Seq<u8>) -> (i: int)
    ensures
        agree(a, b, i),
        i < a.len() && i < b.len() ==> a[i] != b[i],
    decreases a.len(),
{
    crate::simd::lemma_lcp(a, b);
    crate::simd::lcp(a, b) as int
}

/// The order of keys is a strict total order.
pub proof fn key_order_is_total(a: Seq<u8>, b: Seq<u8>)
    ensures
        !lex_lt(a, a),
        lex_lt(a, b) ==> !lex_lt(b, a),
        lex_lt(a, b) || a == b || lex_lt(b, a),
{
    lemma_order_at(a, a, a.len() as int);
    let i = lemma_part(a, b);
    lemma_order_at(a, b, i);
    lemma_order_at(b, a, i);
    if i == a.len() && i == b.len() {
        assert(a =~= b);
    }
}

/// The order of keys is transitive.
pub proof fn key_order_is_transitive(a: Seq<u8>, b: Seq<u8>, c: Seq<u8>)
    requires
        lex_lt(a, b),
        lex_lt(b, c),
    ensures
        lex_lt(a, c),
{
    let i = lemma_part(a, b);
    let j = lemma_part(b, c);
    lemma_order_at(a, b, i);
    lemma_order_at(b, c, j);
    let m = if i < j {
        i
    } else {
        j
    };
    assert(agree(a, c, m));
    lemma_order_at(a, c, m);
}

/// `b` comes after everything that begins with `a` exactly if it comes after
/// `a` without beginning with it.
pub proof fn past_is_after_all(a: Seq<u8>, b: Seq<u8>)
    ensures
        past(a, b) <==> lex_lt(a, b) && !a.is_prefix_of(b),
{
    let i = lemma_part(a, b);
    lemma_order_at(a, b, i);
}

/// What comes at or after a key past `p` is past `p`.
pub proof fn lemma_past_up(p: Seq<u8>, k: Seq<u8>, u: Seq<u8>)
    requires
        past(p, k),
        !lex_lt(u, k),
    ensures
        past(p, u),
        !p.is_prefix_of(u),
{
    let i = choose|i: int| rises_at(p, k, i);
    let j = lemma_part(u, k);
    lemma_order_at(u, k, j);
    if j <= i && j < u.len() {
        assert(rises_at(p, u, j));
    } else {
        assert(j > i);
        assert(rises_at(p, u, i));
    }
    past_is_after_all(p, u);
}

/// Longer prefixes keep their place.
pub proof fn lemma_past_longer(a: Seq<u8>, b: Seq<u8>, a2: Seq<u8>, b2: Seq<u8>)
    requires
        past(a, b),
        a.is_prefix_of(a2),
        b.is_prefix_of(b2),
    ensures
        past(a2, b2),
{
    let i = choose|i: int| rises_at(a, b, i);
    lemma_prefix_agree(a, a2);
    lemma_prefix_agree(b, b2);
    assert(rises_at(a2, b2, i));
}

/// What begins with a key does not come before it.
pub proof fn lemma_prefix_not_after(p: Seq<u8>, u: Seq<u8>)
    requires
        p.is_prefix_of(u),
    ensures
        !lex_lt(u, p),
        !past(u, p),
        !past(p, u),
{
    lemma_prefix_agree(p, u);
    lemma_order_at(p, u, p.len() as int);
    lemma_order_at(u, p, p.len() as int);
}

/// Whether `a` comes before `b`.
pub fn bytes_lt(a: &[u8], b: &[u8]) -> (r: bool)
    ensures
        r == lex_lt(a@, b@),
{
    let i = longest_common_prefix(a, b);
    proof {
        lemma_order_at(a@, b@, i as int);
    }
    i < b.len() && (i == a.len() || a[i] < b[i])
}

/// A stored key without the byte that ends it.
pub open spec fn user_of(stored: Seq<u8>) -> Seq<u8> {
    if stored.len() > 0 && stored.last() == 0 {
        stored.drop_last()
    } else {
        stored
    }
}

/// The user's part of a stored key.
pub fn user_key(stored: &[u8]) -> (r: &[u8])
    ensures
        r@ == user_of(stored@),
{
    if stored.len() > 0 && stored[stored.len() - 1] == 0 {
        let r = slice_subrange(stored, 0, stored.len() - 1);
        assert(r@ =~= stored@.drop_last());
        r
    } else {
        stored
    }
}

/// Where stored keys part, the users' keys are in the same order.
pub proof fn user_keys_keep_the_order(a: Seq<u8>, b: Seq<u8>)
    requires
        past(a, b),
    ensures
        lex_lt(user_of(a), user_of(b)),
{
    let i = choose|i: int| rises_at(a, b, i);
    let (u, v) = (user_of(a), user_of(b));
    assert(i < v.len());
    assert(agree(u, v, i));
    lemma_order_at(u, v, i);
}

/// What is stored below a path that `target` is past comes before `target`.
pub proof fn lemma_skipped(path: Seq<u8>, s: Seq<u8>, target: Seq<u8>)
    requires
        past(path, target),
        path.is_prefix_of(s),
    ensures
        lex_lt(user_of(s), target),
{
    let i = choose|i: int| rises_at(path, target, i);
    lemma_prefix_agree(path, s);
    let u = user_of(s);
    assert(agree(u, target, i));
    lemma_order_at(u, target, i);
}

/// How the keys below a path relate to the first one wanted.
#[derive(Debug, Clone, Copy, PartialEq, Eq, Structural)]
pub enum SeekRelation {
    /// The target lies below the path.
    Seeking,
    /// No key below the path comes before the target.
    Min,
    /// All keys below the path come before the target.
    Skip,
}

/// How the keys that begin with `path` relate to `target`.
pub fn path_seek_relation(path: &[u8], target: &[u8]) -> (r: SeekRelation)
    ensures
        r is Seeking <==> path@.is_prefix_of(target@) && path@.len() < target@.len(),
        r is Skip <==> past(path@, target@),
{
    let common = longest_common_prefix(path, target);
    proof {
        lemma_order_at(path@, target@, common as int);
    }
    if common == path.len() && path.len() < target.len() {
        SeekRelation::Seeking
    } else if common == path.len() || common == target.len() {
        SeekRelation::Min
    } else if path[common] >= target[common] {
        SeekRelation::Min
    } else {
        SeekRelation::Skip
    }
}

/// How the keys behind a segment relate to the first one wanted.
#[derive(Debug, Clone, Copy, PartialEq, Eq, Structural)]
pub enum SegmentRelation {
    /// The target lies behind the segment.
    Continue,
    /// No key behind the segment comes before the target.
    Min,
    /// All keys behind the segment come before the target.
    Skip,
}

/// How the keys that begin with `path` and then `segment` relate to `target`.
pub fn segment_seek_relation(path: &[u8], segment: &[u8], target: &[u8]) -> (r: SegmentRelation)
    ensures
        r is Continue <==> (path@ + segment@).is_prefix_of(target@) && path@.len() + segment@.len() < target@.len(),
        r is Skip <==> past(path@ + segment@, target@),
{
    let ghost full = path@ + segment@;
    proof {
        assert(full.subrange(0, path@.len() as int) =~= path@);
        assert(path@.is_prefix_of(full));
    }
    match path_seek_relation(path, target) {
        SeekRelation::Skip => {
            proof {
                assert(target@.is_prefix_of(target@)) by {
                    lemma_prefix_agree(target@, target@);
                }
                lemma_past_longer(path@, target@, full, target@);
                past_is_after_all(full, target@);
            }
            SegmentRelation::Skip
        },
        SeekRelation::Min => {
            proof {
                let i = lemma_part(path@, target@);
                lemma_order_at(path@, target@, i);
                assert(agree(full, target@, i));
                assert(i < target@.len() ==> i < path@.len());
                lemma_order_at(full, target@, i);
            }
            SegmentRelation::Min
        },
        SeekRelation::Seeking => {
            proof {
                lemma_prefix_agree(path@, target@);
            }
            let remaining = slice_subrange(target, path.len(), target.len());
            let common = longest_common_prefix(segment, remaining);
            proof {
                let n = path@.len() as int;
                assert forall|j: int| 0 <= j < n + common implies full[j] == target@[j] by {
                    if j >= n {
                        assert(segment@[j - n] == remaining@[j - n]);
                    }
                }
                assert(agree(full, target@, n + common));
                lemma_order_at(full, target@, n + common);
            }
            if common < segment.len() && common < remaining.len() {
                if segment[common] < remaining[common] {
                    SegmentRelation::Skip
                } else {
                    SegmentRelation::Min
                }
            } else if segment.len() < remaining.len() {
                SegmentRelation::Continue
            } else {
                SegmentRelation::Min
            }
        },
    }
}

/// Where a key lies with respect to those with a prefix.
#[derive(Debug, Clone, Copy, PartialEq, Eq, Structural)]
pub enum PrefixFilterRelation {
    /// It has the prefix.
    Match,
    /// It comes before them.
    Before,
    /// It comes after them.
    Past,
}

/// Where `key` lies with respect to the keys with `prefix`.
pub fn prefix_filter_relation(key: &[u8], prefix: &[u8]) -> (r: PrefixFilterRelation)
    ensures
        r is Match <==> prefix@.is_prefix_of(key@),
        r is Past <==> past(prefix@, key@),
{
    let common = longest_common_prefix(key, prefix);
    proof {
        lemma_order_at(prefix@, key@, common as int);
    }
    if common == prefix.len() {
        PrefixFilterRelation::Match
    } else if common == key.len() || key[common] < prefix[common] {
        PrefixFilterRelation::Before
    } else {
        PrefixFilterRelation::Past
    }
}

/// Whether `key` comes after every key with `prefix`.
pub fn key_at_or_past_prefix_successor(key: &[u8], prefix: &[u8]) -> (r: bool)
    ensures
        r == past(prefix@, key@),
{
    prefix_filter_relation(key, prefix) == PrefixFilterRelation::Past
}

/// Where a scan goes on.
#[derive(Debug)]
pub struct LowerBound {
    pub key: Vec<u8>,
    pub inclusive: bool,
}

/// Whether `s` is the least sequence past `key`: `key` up to its last byte
/// that can be raised, with that byte raised.
pub open spec fn successor_at(key: Seq<u8>, s: Seq<u8>, i: int) -> bool {
    &&& 0 <= i < key.len()
    &&& key[i] < 255
    &&& forall|j: int| i < j < key.len() ==> key[j] == 255
    &&& s == key.take(i).push((key[i] + 1) as u8)
}

/// The sequences from the successor of `key` on are those past `key`.
pub proof fn successor_bounds_the_prefix(key: Seq<u8>, s: Seq<u8>, i: int, u: Seq<u8>)
    requires
        successor_at(key, s, i),
    ensures
        !lex_lt(u, s) <==> past(key, u),
{
    assert(s.len() == i + 1);
    assert(agree(key, s, i));
    if past(key, u) {
        let j = choose|j: int| rises_at(key, u, j);
        assert(j <= i);
        if j < i {
            assert(agree(u, s, j));
            assert(s[j] == key[j]);
            lemma_order_at(u, s, j);
        } else if u[i] > s[i] {
            assert(agree(u, s, i));
            lemma_order_at(u, s, i);
        } else {
            assert(u[i] == s[i]);
            assert(agree(u, s, i + 1));
            lemma_order_at(u, s, i + 1);
        }
    }
    if !lex_lt(u, s) {
        let m = lemma_part(u, s);
        lemma_order_at(u, s, m);
        if m > i {
            assert(u[i] == s[i]);
            assert(rises_at(key, u, i));
        } else {
            assert(m < u.len());
            assert(rises_at(key, u, m));
        }
    }
}

impl LowerBound {
    /// Whether the bound lets `u` through.
    pub open spec fn lets(&self, u: Seq<u8>) -> bool {
        if self.inclusive {
            !lex_lt(u, self.key@)
        } else {
            lex_lt(self.key@, u)
        }
    }

    /// Everything after `key`.
    pub fn exclusive(key: Vec<u8>) -> (r: LowerBound)
        ensures
            r.key@ == key@,
            !r.inclusive,
    {
        LowerBound { key, inclusive: false }
    }

    /// Whether the bound lets `key` through.
    pub fn allows(&self, key: &[u8]) -> (r: bool)
        ensures
            r == self.lets(key@),
    {
        if self.inclusive {
            !bytes_lt(key, self.key.as_slice())
        } else {
            bytes_lt(self.key.as_slice(), key)
        }
    }

    /// Moves the bound to everything after `key`.
    pub fn set_exclusive(&mut self, key: &[u8])
        ensures
            final(self).key@ == key@,
            !final(self).inclusive,
    {
        self.key = copy_bytes(key);
        self.inclusive = false;
    }

    /// Moves the bound to everything past `key`; if nothing is, only the key
    /// is taken over.
    pub fn set_inclusive_successor(&mut self, key: &[u8]) -> (r: bool)
        ensures
            r ==> final(self).inclusive && exists|i: int| successor_at(key@, final(self).key@, i),
            r ==> forall|u: Seq<u8>| #[trigger] final(self).lets(u) <==> past(key@, u),
            !r ==> forall|u: Seq<u8>| !#[trigger] past(key@, u),
            !r ==> final(self).key@ == key@ && final(self).inclusive == old(self).inclusive,
    {
        let mut i: usize = key.len();
        while i > 0
            invariant
                i <= key@.len(),
                *self == *old(self),
                forall|j: int| i <= j < key@.len() ==> key@[j] == 255,
            decreases i,
        {
            i = i - 1;
            if key[i] != u8::MAX {
                let mut next: Vec<u8> = copy_bytes(slice_subrange(key, 0, i));
                next.push(key[i] + 1);
                assert(next@ =~= key@.take(i as int).push((key@[i as int] + 1) as u8));
                self.key = next;
                self.inclusive = true;
                proof {
                    assert(successor_at(key@, self.key@, i as int));
                    assert forall|u: Seq<u8>| #[trigger] self.lets(u) <==> past(key@, u) by {
                        successor_bounds_the_prefix(key@, self.key@, i as int, u);
                    }
                }
                return true;
            }
        }
        self.key = copy_bytes(key);
        false
    }
}

/// A bound that lets a key through lets everything after it through.
pub proof fn lemma_lets_up(b: LowerBound, k: Seq<u8>, u: Seq<u8>)
    requires
        b.lets(k),
        lex_lt(k, u),
    ensures
        b.lets(u),
{
    if b.inclusive {
        if lex_lt(u, b.key@) {
            key_order_is_transitive(k, u, b.key@);
        }
    } else {
        key_order_is_transitive(b.key@, k, u);
    }
}

/// Whether a key with `prefix` is folded into `common`: the delimiter stands
/// at the end of `common` and nowhere before it past the prefix.
pub open spec fn folds(prefix: Seq<u8>, delimiter: u8, key: Seq<u8>, common: Seq<u8>) -> bool {
    &&& prefix.len() < common.len() <= key.len()
    &&& common == key.take(common.len() as int)
    &&& common.last() == delimiter
    &&& forall|j: int| prefix.len() <= j < common.len() - 1 ==> common[j] != delimiter
}

/// Whether a key is listed as it is: the delimiter does not occur past the
/// prefix.
pub open spec fn unfolded(prefix: Seq<u8>, delimiter: Option<u8>, key: Seq<u8>) -> bool {
    delimiter matches Some(d) ==> forall|j: int| prefix.len() <= j < key.len() ==> key[j] != d
}

/// How many bytes of `key` the delimiter folds together.
pub fn fold_len(prefix_len: usize, delimiter: Option<u8>, key: &[u8], Ghost(prefix): Ghost<Seq<u8>>) -> (r: Option<usize>)
    requires
        prefix.len() == prefix_len,
    ensures
        match r {
            Some(n) => n <= key@.len() && delimiter is Some && folds(prefix, delimiter->0, key@, key@.take(n as int)),
            None => unfolded(prefix, delimiter, key@),
        },
{
    let d = match delimiter {
        Some(d) => d,
        None => {
            return None;
        },
    };
    let ghost hit = |b: u8| b == d;
    match find_byte(key, d, prefix_len) {
        Some(i) => {
            assert forall|j: int| prefix_len <= j < i implies key@[j] != d by {
                assert(!hit(key@[j]));
            }
            assert(hit(key@[i as int]));
            assert(i < key.len());
            Some(i + 1)
        },
        None => {
            assert forall|j: int| prefix_len <= j < key@.len() implies key@[j] != d by {
                assert(!hit(key@[j]));
            }
            None
        },
    }
}

/// Byte `idx` of `left` followed by `right`.
fn concat_byte(left: &[u8], right: &[u8], idx: usize) -> (r: u8)
    requires
        idx < left@.len() + right@.len(),
    ensures
        r == (left@ + right@)[idx as int],
{
    if idx < left.len() {
        left[idx]
    } else {
        right[idx - left.len()]
    }
}

/// Whether `left` followed by `right` begins with `prefix`.
pub fn concat_starts_with(left: &[u8], right: &[u8], prefix: &[u8]) -> (r: bool)
    ensures
        r == prefix@.is_prefix_of(left@ + right@),
{
    let ghost full = left@ + right@;
    if left.len() < prefix.len() && right.len() < prefix.len() - left.len() {
        return false;
    }
    let mut i: usize = 0;
    while i < prefix.len()
        invariant
            full == left@ + right@,
            prefix@.len() <= full.len(),
            i <= prefix@.len(),
            agree(prefix@, full, i as int),
        decreases prefix@.len() - i,
    {
        if concat_byte(left, right, i) != prefix[i] {
            proof {
                lemma_prefix_agree(prefix@, full);
            }
            return false;
        }
        i = i + 1;
    }
    proof {
        lemma_prefix_agree(prefix@, full);
    }
    true
}

/// How many bytes of `path` followed by `segment` fold together, if every key
/// behind them has the prefix and is folded there.
pub fn segment_rollup_len(prefix: &[u8], delimiter: Option<u8>, path: &[u8], segment: &[u8]) -> (r: Option<usize>)
    ensures
        r matches Some(n) ==> {
            let full = path@ + segment@;
            &&& n <= full.len()
            &&& delimiter is Some
            &&& prefix@.is_prefix_of(full)
            &&& folds(prefix@, delimiter->0, full, full.take(n as int))
        },
        r is None && path@.len() + segment@.len() <= usize::MAX ==> {
            let full = path@ + segment@;
            !prefix@.is_prefix_of(full) || unfolded(prefix@, delimiter, full)
        },
{
    let ghost full = path@ + segment@;
    let d = match delimiter {
        Some(d) => d,
        None => {
            return None;
        },
    };
    if segment.len() > usize::MAX - path.len() {
        return None;
    }
    if path.len() + segment.len() <= prefix.len() {
        proof {
            lemma_prefix_agree(prefix@, full);
        }
        return None;
    }
    if !concat_starts_with(path, segment, prefix) {
        return None;
    }
    let ghost hit = |b: u8| b == d;
    if prefix.len() < path.len() {
        match find_byte(path, d, prefix.len()) {
            Some(pos) => {
                proof {
                    assert(hit(path@[pos as int]));
                    assert forall|j: int| prefix@.len() <= j < pos implies full[j] != d by {
                        assert(!hit(path@[j]));
                    }
                }
                return Some(pos + 1);
            },
            None => {
                proof {
                    assert forall|j: int| prefix@.len() <= j < path@.len() implies full[j] != d by {
                        assert(!hit(path@[j]));
                    }
                }
            },
        }
    }
    let start: usize = if prefix.len() > path.len() {
        prefix.len() - path.len()
    } else {
        0
    };
    match find_byte(segment, d, start) {
        Some(pos) => {
            proof {
                assert(hit(segment@[pos as int]));
                assert forall|j: int| prefix@.len() <= j < path@.len() + pos implies full[j] != d by {
                    if j >= path@.len() {
                        assert(!hit(segment@[j - path@.len()]));
                    }
                }
            }
            Some(path.len() + pos + 1)
        },
        None => {
            proof {
                assert forall|j: int| prefix@.len() <= j < full.len() implies full[j] != d by {
                    if j >= path@.len() {
                        assert(!hit(segment@[j - path@.len()]));
                    }
                }
            }
            None
        },
    }
}

} // verus!
