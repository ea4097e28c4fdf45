//! Search keys: a caller's bytes, usually followed by a terminator byte that
//! is never stored in the caller's buffer.
use vstd::prelude::*;

use crate::hash::{mix, mix_all, mixed_all, HASH_SEED};
use crate::simd::longest_common_prefix;

verus! {

/// A key to search for. With the virtual terminator the key is the bytes
/// followed by one zero byte, so that no terminated key without zero bytes
/// is a prefix of another.
#[derive(Clone, Copy)]
pub struct SearchKey<'a> {
    pub bytes: &'a [u8],
    pub virtual_terminator: bool,
}

/// The bytes a search key stands for.
pub open spec fn key_bytes(bytes: Seq<u8>, terminated: bool) -> Seq<u8> {
    if terminated {
        bytes.push(0)
    } else {
        bytes
    }
}

impl<'a> View for SearchKey<'a> {
    type V = Seq<u8>;

    open spec fn view(&self) -> Seq<u8> {
        key_bytes(self.bytes@, self.virtual_terminator)
    }
}

/// Whether `part` stands in `key` at `depth`.
pub open spec fn matches_at(key: Seq<u8>, depth: int, part: Seq<u8>) -> bool {
    &&& 0 <= depth
    &&& depth + part.len() <= key.len()
    &&& key.subrange(depth, depth + part.len()) =~= part
}

/// A number that equal keys share and most others do not. Never zero.
pub open spec fn fingerprint_of(key: Seq<u8>) -> u16 {
    let low = mixed_all(HASH_SEED, key) % 65536;
    if low == 0 {
        1
    } else {
        low as u16
    }
}

/// Whether a leaf with key `key` may carry `fp`: none, which is zero, or the
/// key's own fingerprint.
pub open spec fn fingerprint_fits(fp: u16, key: Seq<u8>) -> bool {
    fp == 0 || fp == fingerprint_of(key)
}

/// Whether two slices hold the same bytes.
pub fn bytes_eq(a: &[u8], b: &[u8]) -> (r: bool)
    ensures
        r == (a@ == b@),
{
    if a.len() != b.len() {
        return false;
    }
    let n: usize = longest_common_prefix(a, b);
    proof {
        if n == a@.len() {
            assert(a@ =~= b@);
        }
    }
    n == a.len()
}

impl<'a> SearchKey<'a> {
    /// A key with the virtual terminator.
    pub fn user(bytes: &'a [u8]) -> (r: Self)
        ensures
            r@ == bytes@.push(0),
            r.bytes@ == bytes@,
            r.virtual_terminator,
    {
        SearchKey { bytes, virtual_terminator: true }
    }

    /// A key that is exactly `bytes`.
    pub fn exact(bytes: &'a [u8]) -> (r: Self)
        ensures
            r@ == bytes@,
            r.bytes@ == bytes@,
            !r.virtual_terminator,
    {
        SearchKey { bytes, virtual_terminator: false }
    }

    /// Number of bytes in the key. A buffer of `usize::MAX` bytes has no
    /// room for the terminator's count.
    pub fn len(self) -> (r: usize)
        requires
            self@.len() <= usize::MAX,
        ensures
            r == self@.len(),
    {
        if self.virtual_terminator {
            self.bytes.len() + 1
        } else {
            self.bytes.len()
        }
    }

    /// The caller's first `len` bytes, if there are that many.
    pub fn user_prefix(self, len: usize) -> (r: Option<&'a [u8]>)
        ensures
            match r {
                Some(p) => len <= self.bytes@.len() && p@ == self.bytes@.take(len as int),
                None => len > self.bytes@.len(),
            },
    {
        if len <= self.bytes.len() {
            Some(&self.bytes[0..len])
        } else {
            None
        }
    }

    /// Number of key bytes from `depth` on.
    pub fn remaining_len(self, depth: usize) -> (r: usize)
        requires
            self@.len() <= usize::MAX,
        ensures
            r == (if depth <= self@.len() { self@.len() - depth } else { 0 }),
    {
        self.len().saturating_sub(depth)
    }

    /// The key's byte at `idx`, if it has one.
    pub fn byte_at(self, idx: usize) -> (r: Option<u8>)
        ensures
            r == (if idx < self@.len() { Some(self@[idx as int]) } else { None }),
    {
        if idx < self.bytes.len() {
            Some(self.bytes[idx])
        } else if self.virtual_terminator && idx == self.bytes.len() {
            Some(0)
        } else {
            None
        }
    }

    /// Whether the key is `other`.
    pub fn eq_slice(self, other: &[u8]) -> (r: bool)
        ensures
            r == (self@ == other@),
    {
        if !self.virtual_terminator {
            return bytes_eq(self.bytes, other);
        }
        let n: usize = self.bytes.len();
        if other.len() == 0 || other.len() - 1 != n {
            return false;
        }
        let r: bool = bytes_eq(&other[0..n], self.bytes) && other[n] == 0;
        proof {
            if r {
                assert forall|i: int| 0 <= i < other@.len() implies self@[i] == other@[i] by {
                    if i < n {
                        assert(other@.subrange(0, n as int)[i] == self.bytes@[i]);
                    }
                }
                assert(self@ =~= other@);
            } else if self@ == other@ {
                assert(other@.subrange(0, n as int) =~= self.bytes@);
                assert(other@[n as int] == 0);
            }
        }
        r
    }

    /// The key's fingerprint.
    pub fn fingerprint(self) -> (r: u16)
        ensures
            r == fingerprint_of(self@),
            r != 0,
    {
        let head: u64 = mix_all(HASH_SEED, self.bytes);
        let all: u64 = if self.virtual_terminator {
            mix(head, 0)
        } else {
            head
        };
        proof {
            if self.virtual_terminator {
                assert(self@.drop_last() =~= self.bytes@);
                assert(self@.last() == 0);
            }
        }
        let low: u64 = all % 65536;
        if low == 0 {
            1
        } else {
            low as u16
        }
    }

    /// Whether a leaf that carries `fp` may have this key.
    pub fn may_match(self, fp: u16) -> (r: bool)
        ensures
            r == fingerprint_fits(fp, self@),
    {
        fp == 0 || fp == self.fingerprint()
    }

    /// Whether `other` stands in the key at `depth`.
    pub fn range_eq(self, depth: usize, other: &[u8]) -> (r: bool)
        requires
            self@.len() <= usize::MAX,
        ensures
            r == matches_at(self@, depth as int, other@),
    {
        if other.len() == 0 {
            let r: bool = depth <= self.len();
            proof {
                if r {
                    assert(self@.subrange(depth as int, depth as int) =~= other@);
                }
            }
            return r;
        }
        if other.len() > self.remaining_len(depth) {
            return false;
        }
        let n: usize = self.common_prefix_with_slice(depth, other);
        proof {
            let part = self@.subrange(depth as int, depth + other@.len());
            if n == other@.len() {
                assert forall|i: int| 0 <= i < other@.len() implies part[i] == other@[i] by {
                    assert(self@.skip(depth as int)[i] == other@[i]);
                }
                assert(part =~= other@);
            } else if part == other@ {
                assert(part[n as int] == other@[n as int]);
                assert(self@.skip(depth as int)[n as int] == other@[n as int]);
            }
        }
        n == other.len()
    }

    /// How many bytes of the key from `depth` on agree with `other`.
    pub fn common_prefix_with_slice(self, depth: usize, other: &[u8]) -> (r: usize)
        requires
            self@.len() <= usize::MAX,
        ensures
            depth >= self@.len() ==> r == 0,
            depth < self@.len() ==> r == crate::simd::lcp(self@.skip(depth as int), other@),
            depth < self@.len() ==> ({
                &&& depth + r <= self@.len()
                &&& r <= other@.len()
                &&& forall|i: int| 0 <= i < r ==> self@.skip(depth as int)[i] == other@[i]
                &&& r < other@.len() && depth + r < self@.len() ==> self@[depth + r] != other@[r as int]
            }),
    {
        if depth >= self.len() {
            return 0;
        }
        let ghost tail = self@.skip(depth as int);
        if depth >= self.bytes.len() {
            // Only the terminator is left.
            assert(tail =~= seq![0u8]);
            let r: usize = if other.len() > 0 && other[0] == 0 { 1 } else { 0 };
            proof {
                crate::simd::lemma_lcp_unique(tail, other@, r as nat);
            }
            return r;
        }
        let raw: &[u8] = &self.bytes[depth..self.bytes.len()];
        let common: usize = longest_common_prefix(raw, other);
        assert forall|i: int| 0 <= i < raw@.len() implies raw@[i] == tail[i] by {}
        let r: usize = if self.virtual_terminator && common == raw.len() && common < other.len()
            && other[common] == 0 {
            common + 1
        } else {
            common
        };
        proof {
            assert forall|i: int| 0 <= i < r implies tail[i] == other@[i] by {
                if i < common {
                    assert(raw@[i] == other@[i]);
                }
            }
            crate::simd::lemma_lcp_unique(tail, other@, r as nat);
        }
        r
    }

    /// The key's bytes in a buffer of their own.
    pub fn to_vec(self) -> (r: Vec<u8>)
        ensures
            r@ == self@,
    {
        let mut out: Vec<u8> = Vec::new();
        out.extend_from_slice(self.bytes);
        if self.virtual_terminator {
            out.push(0);
        }
        assert(out@ =~= self@);
        out
    }

    /// Overwrites `dst` with the key.
    pub fn write_to_slice(self, dst: &mut [u8])
        requires
            old(dst)@.len() == self@.len(),
        ensures
            final(dst)@ == self@,
    {
        let n: usize = self.bytes.len();
        let mut i: usize = 0;
        while i < n
            invariant
                i <= n,
                n == self.bytes@.len(),
                dst@.len() == self@.len(),
                forall|j: int| 0 <= j < i ==> dst@[j] == self.bytes@[j],
            decreases n - i,
        {
            dst[i] = self.bytes[i];
            i = i + 1;
        }
        if self.virtual_terminator {
            dst[n] = 0;
        }
        assert(dst@ =~= self@);
    }
}

/// A terminated key is longer than every key it extends by one zero byte:
/// terminated keys without zero bytes are never proper prefixes of each
/// other.
pub proof fn terminated_keys_are_prefix_free(a: Seq<u8>, b: Seq<u8>)
    requires
        forall|i: int| 0 <= i < b.len() ==> b[i] != 0,
        key_bytes(a, true).is_prefix_of(key_bytes(b, true)),
    ensures
        a == b,
{
    let ka = key_bytes(a, true);
    let kb = key_bytes(b, true);
    assert(ka[a.len() as int] == 0);
    assert(kb[a.len() as int] == ka[a.len() as int]);
    assert(a.len() == b.len());
    assert forall|i: int| 0 <= i < a.len() implies a[i] == b[i] by {
        assert(ka[i] == kb[i]);
    }
    assert(a =~= b);
}

} // verus!
