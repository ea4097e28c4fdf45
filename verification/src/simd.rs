//! Byte and word searches used by the node bodies and the key walks.
//!
//! Each function returns the first position with the sought property; the
//! contracts say so without reference to how the search is carried out.
use vstd::prelude::*;

verus! {

/// Whether `i` is the first index of `s` at or after `start` whose element
/// satisfies `hit`.
pub open spec fn first_at<T>(s: Seq<T>, start: int, hit: spec_fn(T) -> bool, i: int) -> bool {
    &&& start <= i < s.len()
    &&& hit(s[i])
    &&& forall|j: int| start <= j < i ==> !hit(#[trigger] s[j])
}

/// Whether no element of `s` at or after `start` satisfies `hit`.
pub open spec fn none_from<T>(s: Seq<T>, start: int, hit: spec_fn(T) -> bool) -> bool {
    forall|j: int| start <= j < s.len() ==> !hit(#[trigger] s[j])
}

/// Length of the longest prefix that `a` and `b` share.
pub open spec fn lcp(a: Seq<u8>, b: Seq<u8>) -> nat
    decreases a.len(),
{
    if a.len() == 0 || b.len() == 0 || a[0] != b[0] {
        0
    } else {
        1 + lcp(a.skip(1), b.skip(1))
    }
}

/// The longest common prefix is common, and cannot be extended.
pub proof fn lemma_lcp(a: Seq<u8>, b: Seq<u8>)
    ensures
        lcp(a, b) <= a.len(),
        lcp(a, b) <= b.len(),
        forall|i: int| 0 <= i < lcp(a, b) ==> a[i] == b[i],
        lcp(a, b) < a.len() && lcp(a, b) < b.len() ==> a[lcp(a, b) as int] != b[lcp(a, b) as int],
    decreases a.len(),
{
    if a.len() > 0 && b.len() > 0 && a[0] == b[0] {
        lemma_lcp(a.skip(1), b.skip(1));
        let n = lcp(a.skip(1), b.skip(1));
        assert forall|i: int| 0 <= i < 1 + n implies a[i] == b[i] by {
            if i > 0 {
                assert(a.skip(1)[i - 1] == b.skip(1)[i - 1]);
            }
        }
        if 1 + n < a.len() && 1 + n < b.len() {
            assert(a.skip(1)[n as int] == a[1 + n as int]);
            assert(b.skip(1)[n as int] == b[1 + n as int]);
        }
    }
}

/// Agreement on `n` bytes that cannot be extended is the longest common
/// prefix.
pub proof fn lemma_lcp_unique(a: Seq<u8>, b: Seq<u8>, n: nat)
    requires
        n <= a.len(),
        n <= b.len(),
        forall|i: int| 0 <= i < n ==> a[i] == b[i],
        n < a.len() && n < b.len() ==> a[n as int] != b[n as int],
    ensures
        lcp(a, b) == n,
{
    lemma_lcp(a, b);
    if lcp(a, b) < n {
        assert(a[lcp(a, b) as int] == b[lcp(a, b) as int]);
    }
}

/// Index of the first of `keys[..min(count, 16)]` equal to `byte`.
pub fn node16_find_byte(keys: &[u8; 16], count: u8, byte: u8) -> (r: Option<u8>)
    ensures
        ({
            let n: int = if count <= 16 { count as int } else { 16 };
            match r {
                Some(i) => first_at(keys@.take(n), 0, |b: u8| b == byte, i as int),
                None => none_from(keys@.take(n), 0, |b: u8| b == byte),
            }
        }),
{
    let n: u8 = if count <= 16 { count } else { 16 };
    let ghost s = keys@.take(n as int);
    let mut i: u8 = 0;
    while i < n
        invariant
            0 <= i <= n <= 16,
            n == (if count <= 16 { count } else { 16 }),
            s == keys@.take(n as int),
            forall|j: int| 0 <= j < i ==> #[trigger] s[j] != byte,
        decreases n - i,
    {
        assert(s[i as int] == keys@[i as int]);
        if keys[i as usize] == byte {
            return Some(i);
        }
        i = i + 1;
    }
    None
}

/// Length of the longest prefix that `a` and `b` share.
pub fn longest_common_prefix(a: &[u8], b: &[u8]) -> (r: usize)
    ensures
        r == lcp(a@, b@),
        r <= a@.len(),
        r <= b@.len(),
        forall|i: int| 0 <= i < r ==> a@[i] == b@[i],
        r < a@.len() && r < b@.len() ==> a@[r as int] != b@[r as int],
{
    let mut i: usize = 0;
    while i < a.len() && i < b.len() && a[i] == b[i]
        invariant
            i <= a@.len(),
            i <= b@.len(),
            forall|j: int| 0 <= j < i ==> a@[j] == b@[j],
        decreases a@.len() - i,
    {
        i = i + 1;
    }
    proof {
        lemma_lcp_unique(a@, b@, i as nat);
    }
    i
}

/// Index of the first `needle` of `bytes` at or after `start`.
pub fn find_byte(bytes: &[u8], needle: u8, start: usize) -> (r: Option<usize>)
    ensures
        match r {
            Some(i) => first_at(bytes@, start as int, |b: u8| b == needle, i as int),
            None => none_from(bytes@, start as int, |b: u8| b == needle),
        },
{
    let mut i: usize = start;
    while i < bytes.len()
        invariant
            start <= i,
            i <= bytes@.len() || i == start,
            forall|j: int| start <= j < i ==> #[trigger] bytes@[j] != needle,
        decreases bytes@.len() - i,
    {
        if bytes[i] == needle {
            return Some(i);
        }
        i = i + 1;
    }
    None
}

/// Index of the first nonzero byte of `bytes` at or after `start`.
pub fn find_next_nonzero_byte(bytes: &[u8], start: usize) -> (r: Option<usize>)
    ensures
        match r {
            Some(i) => first_at(bytes@, start as int, |b: u8| b != 0, i as int),
            None => none_from(bytes@, start as int, |b: u8| b != 0),
        },
{
    let mut i: usize = start;
    while i < bytes.len()
        invariant
            start <= i,
            i <= bytes@.len() || i == start,
            forall|j: int| start <= j < i ==> #[trigger] bytes@[j] == 0,
        decreases bytes@.len() - i,
    {
        if bytes[i] != 0 {
            return Some(i);
        }
        i = i + 1;
    }
    None
}

/// Index of the first nonzero word of `words` at or after `start`.
pub fn find_next_nonzero_u16(words: &[u16], start: usize) -> (r: Option<usize>)
    ensures
        match r {
            Some(i) => first_at(words@, start as int, |w: u16| w != 0, i as int),
            None => none_from(words@, start as int, |w: u16| w != 0),
        },
{
    let mut i: usize = start;
    while i < words.len()
        invariant
            start <= i,
            i <= words@.len() || i == start,
            forall|j: int| start <= j < i ==> #[trigger] words@[j] == 0,
        decreases words@.len() - i,
    {
        if words[i] != 0 {
            return Some(i);
        }
        i = i + 1;
    }
    None
}

} // verus!
