//! What holds of keys: their bytes, their order and how they fold together.
use vstd::prelude::*;

use crate::forest::Forest;
use crate::hash::{mixed_all, HASH_SEED};
use crate::key::{fingerprint_fits, fingerprint_of, key_bytes};
use crate::key_range::{in_turn, left, scanned, Query};
use crate::art::Route;
use crate::layout::BlobGuid;
use crate::order::{
    folds, key_order_is_total, lemma_order_at, lemma_part, lemma_prefix_agree, lex_lt, successor_at, unfolded, user_of, LowerBound,
};
use crate::range::Item;

verus! {

/// A user's key is stored with a zero byte behind it, and the key is what the
/// stored one holds before that byte.
pub proof fn user_keys_end_in_a_zero(bytes: Seq<u8>, stored: Seq<u8>)
    ensures
        key_bytes(bytes, true) == bytes.push(0u8),
        key_bytes(bytes, false) == bytes,
        user_of(bytes.push(0u8)) == bytes,
        stored.len() > 0 && stored[stored.len() - 1] == 0 ==> user_of(stored).push(0u8) == stored,
        stored.len() == 0 || stored[stored.len() - 1] != 0 ==> user_of(stored) == stored,
{
    assert(bytes.push(0u8).drop_last() =~= bytes);
    if stored.len() > 0 && stored[stored.len() - 1] == 0 {
        assert(stored.drop_last().push(0u8) =~= stored);
    }
}

/// Keys are ordered by their first bytes, and by what follows where those are
/// the same; what is left of a key comes before anything longer.
pub proof fn keys_are_ordered_by_their_bytes(a: Seq<u8>, b: Seq<u8>)
    ensures
        lex_lt(a, b) <==> b.len() > 0 && (a.len() == 0 || a[0] < b[0] || (a[0] == b[0] && lex_lt(a.skip(1), b.skip(1)))),
{
    let i = lemma_part(a, b);
    lemma_order_at(a, b, i);
    if a.len() > 0 && b.len() > 0 && a[0] == b[0] {
        let j = lemma_part(a.skip(1), b.skip(1));
        lemma_order_at(a.skip(1), b.skip(1), j);
        assert forall|k: int| 0 <= k < j + 1 implies a[k] == b[k] by {
            if k > 0 {
                assert(a.skip(1)[k - 1] == b.skip(1)[k - 1]);
            }
        }
        if i <= j {
            assert(a[i] == b[i]);
        }
        if j + 1 < i {
            assert(a.skip(1)[j] == a[j + 1]);
            assert(b.skip(1)[j] == b[j + 1]);
        }
    }
}

/// What a bound lets through: its own key if it is inclusive, and whatever
/// comes after the key.
pub proof fn bounds_let_through_what_is_after(b: LowerBound, u: Seq<u8>)
    ensures
        b.lets(u) <==> lex_lt(b.key@, u) || (b.inclusive && u == b.key@),
{
    key_order_is_total(b.key@, u);
}

/// The successor of a key is the first one behind all that begin with the key:
/// the last byte that can be raised is, by one, and what followed is dropped.
pub proof fn successors_come_right_behind(key: Seq<u8>, s: Seq<u8>, i: int, u: Seq<u8>)
    requires
        successor_at(key, s, i),
    ensures
        s.len() == i + 1 <= key.len(),
        s[i] == key[i] + 1,
        forall|j: int| 0 <= j < i ==> s[j] == key[j],
        key.is_prefix_of(u) ==> lex_lt(u, s),
        lex_lt(key, u) && lex_lt(u, s) ==> key.is_prefix_of(u),
{
    crate::order::successor_bounds_the_prefix(key, s, i, u);
    crate::order::past_is_after_all(key, u);
    key_order_is_total(u, s);
    if key.is_prefix_of(u) {
        lemma_prefix_agree(key, u);
        assert(crate::order::agree(u, s, i));
        lemma_order_at(u, s, i);
    }
}

/// A key folds exactly if the delimiter occurs behind the prefix, and then into
/// what ends with the first such delimiter.
pub proof fn keys_fold_at_the_first_delimiter(prefix: Seq<u8>, d: u8, key: Seq<u8>, common: Seq<u8>, n: int)
    requires
        prefix.is_prefix_of(key),
    ensures
        unfolded(prefix, Some(d), key) <==> !key.skip(prefix.len() as int).contains(d),
        unfolded(prefix, None, key),
        prefix.len() <= n < key.len() && key[n] == d && (forall|j: int| prefix.len() <= j < n ==> key[j] != d) ==> (folds(
            prefix,
            d,
            key,
            common,
        ) <==> common == key.take(n + 1)),
        unfolded(prefix, Some(d), key) ==> !folds(prefix, d, key, common),
{
    let rest = key.skip(prefix.len() as int);
    if unfolded(prefix, Some(d), key) && rest.contains(d) {
        let i = choose|i: int| 0 <= i < rest.len() && rest[i] == d;
        assert(key[prefix.len() + i] == d);
    }
    if !rest.contains(d) {
        assert forall|j: int| prefix.len() <= j < key.len() implies key[j] != d by {
            assert(rest[j - prefix.len()] == key[j]);
        }
    }
    if folds(prefix, d, key, common) {
        assert(key[common.len() - 1] == d);
        if prefix.len() <= n < key.len() && key[n] == d && (forall|j: int| prefix.len() <= j < n ==> key[j] != d) {
            if common.len() - 1 < n {
                assert(key[common.len() - 1] != d);
            } else if n < common.len() - 1 {
                assert(common[n] == key[n]);
            }
        }
    }
}

/// What a scan lists as a key is the key of a live record, with the sequence
/// that wrote it; the key has the prefix, comes after the start, and has no
/// delimiter behind the prefix.
pub proof fn listed_keys_are_as_asked(f: Forest, root: BlobGuid, q: Query, limit: int, items: Seq<Item>, i: int)
    requires
        scanned(f, root, q, limit, items),
        0 <= i < items.len(),
        items[i] is Key,
    ensures
        q.prefix.is_prefix_of(items[i]->key),
        q.start_after matches Some(k) ==> lex_lt(k, items[i]->key),
        q.delimiter matches Some(d) ==> !items[i]->key.skip(q.prefix.len() as int).contains(d),
        exists|s: Seq<u8>|
            (s == items[i]->key.push(0u8) || s == items[i]->key) && (#[trigger] f.find(root, s) matches Route::Found { seq, .. } && seq
                == items[i]->seq),
{
    assert(in_turn(f, root, q, items, i));
    let s = choose|s: Seq<u8>| left(q, items, i, #[trigger] user_of(s)) && items[i].shows(f, root, q.prefix, q.delimiter, s);
    user_keys_end_in_a_zero(items[i]->key, s);
    if q.delimiter is Some {
        keys_fold_at_the_first_delimiter(q.prefix, q.delimiter->0, items[i]->key, Seq::empty(), 0);
    }
    assert(f.find(root, s) is Found);
}

/// What a scan lists as a common prefix is the prefix, then bytes other than the
/// delimiter, then the delimiter, and a live key that comes after the start
/// begins with it.
pub proof fn listed_prefixes_are_as_asked(f: Forest, root: BlobGuid, q: Query, limit: int, items: Seq<Item>, i: int)
    requires
        scanned(f, root, q, limit, items),
        0 <= i < items.len(),
        items[i] is Common,
    ensures
        q.delimiter is Some,
        q.prefix.is_prefix_of(items[i]->common),
        items[i]->common.len() > q.prefix.len(),
        items[i]->common.last() == q.delimiter->0,
        forall|j: int| q.prefix.len() <= j < items[i]->common.len() - 1 ==> items[i]->common[j] != q.delimiter->0,
        exists|s: Seq<u8>|
            (#[trigger] f.find(root, s)) is Found && items[i]->common.is_prefix_of(user_of(s)) && (q.start_after matches Some(k) ==> lex_lt(
                k,
                user_of(s),
            )),
{
    assert(in_turn(f, root, q, items, i));
    let s = choose|s: Seq<u8>| left(q, items, i, #[trigger] user_of(s)) && items[i].shows(f, root, q.prefix, q.delimiter, s);
    let u = user_of(s);
    let c = items[i]->common;
    lemma_prefix_agree(q.prefix, u);
    lemma_prefix_agree(q.prefix, c);
    lemma_prefix_agree(c, u);
    assert(f.find(root, s) is Found);
}

/// A common prefix is listed once, and no key that begins with it is listed.
pub proof fn folded_keys_are_not_listed(f: Forest, root: BlobGuid, q: Query, limit: int, items: Seq<Item>, i: int, j: int)
    requires
        scanned(f, root, q, limit, items),
        0 <= i < items.len(),
        0 <= j < items.len(),
        i != j,
        items[i] is Common,
    ensures
        !items[i]->common.is_prefix_of(items[j].bytes()),
{
    listed_prefixes_are_as_asked(f, root, q, limit, items, i);
    let c = items[i]->common;
    let d = q.delimiter->0;
    if c.is_prefix_of(items[j].bytes()) {
        lemma_prefix_agree(c, items[j].bytes());
        assert(items[j].bytes()[c.len() - 1] == d);
        if items[j] is Key {
            listed_keys_are_as_asked(f, root, q, limit, items, j);
            assert(items[j]->key.skip(q.prefix.len() as int)[c.len() - 1 - q.prefix.len()] == d);
        } else {
            listed_prefixes_are_as_asked(f, root, q, limit, items, j);
            if c.len() < items[j]->common.len() {
                assert(items[j]->common[c.len() - 1] != d);
            }
            assert(c =~= items[j]->common);
            key_order_is_total(c, items[j]->common);
            if i < j {
                crate::scan_laws::scans_ascend(f, root, q, limit, items, i, j);
            } else {
                crate::scan_laws::scans_ascend(f, root, q, limit, items, j, i);
            }
        }
    }
}

/// A list that is not cut short has every live key that was asked for and does
/// not fold, and the common prefix of every one that does.
pub proof fn lists_are_complete(f: Forest, root: BlobGuid, q: Query, limit: int, items: Seq<Item>, s: Seq<u8>)
    requires
        scanned(f, root, q, limit, items),
        items.len() < limit,
        f.find(root, s) is Found,
        q.prefix.is_prefix_of(user_of(s)),
        q.start_after matches Some(k) ==> lex_lt(k, user_of(s)),
    ensures
        q.delimiter is None || !user_of(s).skip(q.prefix.len() as int).contains(q.delimiter->0) ==> exists|i: int|
            0 <= i < items.len() && (#[trigger] items[i]) is Key && items[i]->key == user_of(s),
        q.delimiter matches Some(d) ==> forall|n: int|
            q.prefix.len() <= n < user_of(s).len() && #[trigger] user_of(s)[n] == d && (forall|j: int| q.prefix.len() <= j < n ==> user_of(s)[j] != d)
                ==> exists|i: int| 0 <= i < items.len() && (#[trigger] items[i]) is Common && items[i]->common == user_of(s).take(n + 1),
{
    let u = user_of(s);
    assert(crate::cursor::live(f, root, s));
    crate::scan_laws::scans_miss_nothing(f, root, q, limit, items, s);
    let i = choose|i: int| 0 <= i < items.len() && crate::scan_laws::stands_for(#[trigger] items[i], u);
    let p = q.prefix.len() as int;
    if items[i] is Common {
        listed_prefixes_are_as_asked(f, root, q, limit, items, i);
        let c = items[i]->common;
        lemma_prefix_agree(c, u);
        assert(u[c.len() - 1] == q.delimiter->0);
        assert(u.skip(p)[c.len() - 1 - p] == q.delimiter->0);
    } else {
        listed_keys_are_as_asked(f, root, q, limit, items, i);
    }
    if q.delimiter is Some {
        let d = q.delimiter->0;
        assert forall|n: int|
            q.prefix.len() <= n < u.len() && #[trigger] u[n] == d && (forall|j: int| q.prefix.len() <= j < n ==> u[j] != d) implies exists|i: int|
            0 <= i < items.len() && (#[trigger] items[i]) is Common && items[i]->common == u.take(n + 1) by {
            assert(u.skip(p)[n - p] == d);
            assert(items[i] is Common);
            let c = items[i]->common;
            if c.len() - 1 > n {
                assert(c[n] == u[n]);
            }
            assert(c =~= u.take(n + 1));
        }
    }
}

/// A hash takes in one byte after another: each is added without carry, and the
/// sum is multiplied by a prime in 64 bits.
pub proof fn hashes_take_in_byte_by_byte(bytes: Seq<u8>, b: u8)
    ensures
        mixed_all(HASH_SEED, Seq::empty()) == 0xcbf29ce484222325,
        mixed_all(HASH_SEED, bytes.push(b)) == (((mixed_all(HASH_SEED, bytes) ^ (b as u64)) * 0x100000001b3) % 0x1_0000_0000_0000_0000) as int,
{
    assert(bytes.push(b).drop_last() =~= bytes);
}

/// A fingerprint is the low 16 bits of the hash, or one where those are zero; a
/// leaf may carry zero in its place, and then fits every key.
pub proof fn fingerprints_are_of_the_hash(key: Seq<u8>, fp: u16)
    ensures
        fingerprint_of(key) == (if mixed_all(HASH_SEED, key) % 0x10000 == 0 {
            1
        } else {
            (mixed_all(HASH_SEED, key) % 0x10000) as int
        }),
        fingerprint_fits(0, key),
        fp != 0 ==> (fingerprint_fits(fp, key) <==> fp == fingerprint_of(key)),
{
}

} // verus!
