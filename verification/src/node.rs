//! Inner nodes: finding, repointing, adding and removing children.
//!
//! An inner node maps each of the 256 branch bytes to a child reference, zero
//! standing for "no child". The four body layouts are four encodings of that
//! map; every operation here is specified on the map.
use vstd::prelude::*;

use crate::layout::{Node, Node16, Node256, Node4, Node48};
use crate::simd::{find_next_nonzero_byte, find_next_nonzero_u16, node16_find_byte};

verus! {

/// Number of nonzero entries among the first `n`.
pub open spec fn nonzero(s: Seq<u16>, n: int) -> nat
    decreases n,
{
    if n <= 0 {
        0
    } else {
        nonzero(s, n - 1) + (if s[n - 1] != 0 { 1nat } else { 0nat })
    }
}

/// Number of nonzero bytes among the first `n`.
pub open spec fn nonzero_bytes(s: Seq<u8>, n: int) -> nat
    decreases n,
{
    if n <= 0 {
        0
    } else {
        nonzero_bytes(s, n - 1) + (if s[n - 1] != 0 { 1nat } else { 0nat })
    }
}

/// Whether the first `count` keys ascend strictly and have children.
pub open spec fn list_ok(keys: Seq<u8>, children: Seq<u16>, count: int) -> bool {
    &&& 0 <= count <= keys.len()
    &&& count <= children.len()
    &&& forall|i: int, j: int| 0 <= i < j < count ==> keys[i] < keys[j]
    &&& forall|i: int| 0 <= i < count ==> children[i] != 0
}

/// Child that the first `count` keys give `b`.
pub open spec fn list_kid(keys: Seq<u8>, children: Seq<u16>, count: int, b: u8) -> u16 {
    if exists|i: int| 0 <= i < count && keys[i] == b {
        children[choose|i: int| 0 <= i < count && keys[i] == b]
    } else {
        0
    }
}

pub open spec fn node4_ok(n: Node4) -> bool {
    n.count <= 4 && list_ok(n.keys@, n.children@, n.count as int)
}

pub open spec fn node16_ok(n: Node16) -> bool {
    n.count <= 16 && list_ok(n.keys@, n.children@, n.count as int)
}

/// Every byte's index entry names a distinct occupied child field, and both
/// arrays have as many nonzero entries as `count` says.
pub open spec fn node48_ok(n: Node48) -> bool {
    &&& n.count <= 48
    &&& nonzero(n.children@, 48) == n.count
    &&& nonzero_bytes(n.index@, 256) == n.count
    &&& forall|b: int| 0 <= b < 256 ==> (#[trigger] n.index@[b]) <= 48
    &&& forall|b: int| 0 <= b < 256 && (#[trigger] n.index@[b]) != 0 ==> n.children@[n.index@[b] - 1] != 0
    &&& forall|b: int, c: int|
        0 <= b < 256 && 0 <= c < 256 && b != c && (#[trigger] n.index@[b]) != 0 ==> n.index@[b] != (
        #[trigger] n.index@[c])
}

/// `count` is the number of children, stopping at 255.
pub open spec fn node256_ok(n: Node256) -> bool {
    n.count == (if nonzero(n.children@, 256) <= 255 { nonzero(n.children@, 256) } else { 255 })
}

/// Child that inner node `n` gives byte `b`, zero for none.
pub open spec fn kid(n: Node, b: int) -> u16 {
    match n {
        Node::Node4(m) => list_kid(m.keys@, m.children@, m.count as int, b as u8),
        Node::Node16(m) => list_kid(m.keys@, m.children@, m.count as int, b as u8),
        Node::Node48(m) => if m.index@[b] == 0 {
            0
        } else {
            m.children@[m.index@[b] - 1]
        },
        Node::Node256(m) => m.children@[b],
        _ => 0,
    }
}

/// Whether `n` is a well-formed inner node.
pub open spec fn inner_ok(n: Node) -> bool {
    match n {
        Node::Node4(m) => node4_ok(m),
        Node::Node16(m) => node16_ok(m),
        Node::Node48(m) => node48_ok(*m),
        Node::Node256(m) => node256_ok(*m),
        _ => false,
    }
}

/// Whether `n` is one of the four inner layouts.
pub open spec fn is_inner(n: Node) -> bool {
    n is Node4 || n is Node16 || n is Node48 || n is Node256
}

/// The child map of `n` with byte `b` repointed at `c`.
pub open spec fn kid_update(n: Node, m: Node, b: int, c: u16) -> bool {
    forall|x: int| 0 <= x < 256 ==> #[trigger] kid(m, x) == (if x == b { c } else { kid(n, x) })
}

/// Number of children of `n`.
pub open spec fn degree(n: Node) -> nat {
    match n {
        Node::Node4(m) => m.count as nat,
        Node::Node16(m) => m.count as nat,
        Node::Node48(m) => m.count as nat,
        Node::Node256(m) => nonzero(m.children@, 256),
        _ => 0,
    }
}

/// Whether another child does not fit the layout of `n`.
pub open spec fn full(n: Node) -> bool {
    match n {
        Node::Node4(m) => m.count == 4,
        Node::Node16(m) => m.count == 16,
        Node::Node48(m) => m.count == 48,
        _ => false,
    }
}

pub proof fn lemma_nonzero_bound(s: Seq<u16>, n: int)
    requires
        0 <= n,
    ensures
        nonzero(s, n) <= n,
    decreases n,
{
    if n > 0 {
        lemma_nonzero_bound(s, n - 1);
    }
}

pub proof fn lemma_nonzero_same(s: Seq<u16>, t: Seq<u16>, n: int)
    requires
        forall|i: int| 0 <= i < n ==> s[i] == t[i],
    ensures
        nonzero(s, n) == nonzero(t, n),
    decreases n,
{
    if n > 0 {
        lemma_nonzero_same(s, t, n - 1);
    }
}

pub proof fn lemma_nonzero_update(s: Seq<u16>, n: int, i: int, v: u16)
    requires
        0 <= i < n <= s.len(),
    ensures
        nonzero(s.update(i, v), n) == nonzero(s, n) - (if s[i] != 0 { 1int } else { 0 }) + (if v != 0 { 1int } else { 0 }),
    decreases n,
{
    if i < n - 1 {
        lemma_nonzero_update(s, n - 1, i, v);
    } else {
        lemma_nonzero_same(s, s.update(i, v), n - 1);
    }
}

/// Fewer than `n` nonzero entries leave a zero one.
pub proof fn lemma_nonzero_gap(s: Seq<u16>, n: int)
    requires
        0 <= n <= s.len(),
        nonzero(s, n) < n,
    ensures
        exists|i: int| 0 <= i < n && s[i] == 0,
    decreases n,
{
    if n > 0 {
        if s[n - 1] != 0 {
            lemma_nonzero_gap(s, n - 1);
        } else {
            assert(s[n - 1] == 0);
        }
    }
}

pub proof fn lemma_nonzero_zero(s: Seq<u16>, n: int)
    requires
        forall|i: int| 0 <= i < n ==> s[i] == 0,
    ensures
        nonzero(s, n) == 0,
    decreases n,
{
    if n > 0 {
        lemma_nonzero_zero(s, n - 1);
    }
}

/// The count splits at any point.
pub proof fn lemma_nonzero_monotone(s: Seq<u16>, m: int, n: int)
    requires
        0 <= m <= n,
    ensures
        nonzero(s, m) <= nonzero(s, n),
    decreases n,
{
    if m < n {
        lemma_nonzero_monotone(s, m, n - 1);
    }
}

pub proof fn lemma_bytes_same(s: Seq<u8>, t: Seq<u8>, n: int)
    requires
        forall|i: int| 0 <= i < n ==> s[i] == t[i],
    ensures
        nonzero_bytes(s, n) == nonzero_bytes(t, n),
    decreases n,
{
    if n > 0 {
        lemma_bytes_same(s, t, n - 1);
    }
}

pub proof fn lemma_bytes_update(s: Seq<u8>, n: int, i: int, v: u8)
    requires
        0 <= i < n <= s.len(),
    ensures
        nonzero_bytes(s.update(i, v), n) == nonzero_bytes(s, n) - (if s[i] != 0 { 1int } else { 0 }) + (if v != 0 { 1int } else { 0 }),
    decreases n,
{
    if i < n - 1 {
        lemma_bytes_update(s, n - 1, i, v);
    } else {
        lemma_bytes_same(s, s.update(i, v), n - 1);
    }
}

pub proof fn lemma_bytes_zero(s: Seq<u8>, n: int)
    requires
        forall|i: int| 0 <= i < n ==> s[i] == 0,
    ensures
        nonzero_bytes(s, n) == 0,
    decreases n,
{
    if n > 0 {
        lemma_bytes_zero(s, n - 1);
    }
}

pub proof fn lemma_bytes_monotone(s: Seq<u8>, m: int, n: int)
    requires
        0 <= m <= n,
    ensures
        nonzero_bytes(s, m) <= nonzero_bytes(s, n),
    decreases n,
{
    if m < n {
        lemma_bytes_monotone(s, m, n - 1);
    }
}

/// Position `i` gives its key its child.
pub proof fn lemma_list_at(keys: Seq<u8>, children: Seq<u16>, count: int, i: int)
    requires
        list_ok(keys, children, count),
        0 <= i < count,
    ensures
        list_kid(keys, children, count, keys[i]) == children[i],
        list_kid(keys, children, count, keys[i]) != 0,
{
    let j = choose|j: int| 0 <= j < count && keys[j] == keys[i];
    assert(keys[i] == keys[i]);
    assert(0 <= j < count && keys[j] == keys[i]);
    if j < i {
        assert(keys[j] < keys[i]);
    } else if i < j {
        assert(keys[i] < keys[j]);
    }
}

/// A byte has a child exactly when it is listed.
pub proof fn lemma_list_absent(keys: Seq<u8>, children: Seq<u16>, count: int, b: u8)
    requires
        list_ok(keys, children, count),
    ensures
        list_kid(keys, children, count, b) == 0 <==> (forall|i: int| 0 <= i < count ==> keys[i] != b),
{
    if exists|i: int| 0 <= i < count && keys[i] == b {
        let i = choose|i: int| 0 <= i < count && keys[i] == b;
        lemma_list_at(keys, children, count, i);
    }
}

/// Listing one more byte extends the map by that byte.
pub proof fn lemma_list_insert(
    keys: Seq<u8>,
    children: Seq<u16>,
    count: int,
    keys2: Seq<u8>,
    children2: Seq<u16>,
    pos: int,
    b: u8,
    c: u16,
)
    requires
        list_ok(keys, children, count),
        0 <= pos <= count,
        count + 1 <= keys2.len(),
        count + 1 <= children2.len(),
        forall|i: int| 0 <= i < pos ==> keys2[i] == keys[i] && children2[i] == children[i],
        keys2[pos] == b,
        children2[pos] == c,
        forall|i: int| pos < i <= count ==> keys2[i] == keys[i - 1] && children2[i] == children[i - 1],
        forall|i: int| 0 <= i < pos ==> keys[i] < b,
        forall|i: int| pos <= i < count ==> keys[i] > b,
        c != 0,
    ensures
        list_ok(keys2, children2, count + 1),
        forall|x: u8| #[trigger] list_kid(keys2, children2, count + 1, x) == (if x == b { c } else { list_kid(keys, children, count, x) }),
{
    assert forall|i: int, j: int| 0 <= i < j < count + 1 implies keys2[i] < keys2[j] by {
        let oi = if i < pos { i } else { i - 1 };
        let oj = if j < pos { j } else { j - 1 };
        if i != pos && j != pos {
            assert(keys[oi] < keys[oj]);
        }
    }
    assert forall|x: u8| #[trigger] list_kid(keys2, children2, count + 1, x) == (if x == b { c } else { list_kid(keys, children, count, x) }) by {
        if x == b {
            lemma_list_at(keys2, children2, count + 1, pos);
        } else if exists|i: int| 0 <= i < count && keys[i] == x {
            let i = choose|i: int| 0 <= i < count && keys[i] == x;
            lemma_list_at(keys, children, count, i);
            let i2 = if i < pos { i } else { i + 1 };
            assert(keys2[i2] == x);
            lemma_list_at(keys2, children2, count + 1, i2);
        } else {
            assert forall|i: int| 0 <= i < count + 1 implies keys2[i] != x by {
                if i < pos {
                    assert(keys[i] != x);
                } else if i > pos {
                    assert(keys[i - 1] != x);
                }
            }
        }
    }
}

/// Unlisting the byte at `pos` removes it from the map.
pub proof fn lemma_list_remove(
    keys: Seq<u8>,
    children: Seq<u16>,
    count: int,
    keys2: Seq<u8>,
    children2: Seq<u16>,
    pos: int,
)
    requires
        list_ok(keys, children, count),
        0 <= pos < count,
        count <= keys2.len(),
        count <= children2.len(),
        forall|i: int| 0 <= i < pos ==> keys2[i] == keys[i] && children2[i] == children[i],
        forall|i: int| pos <= i < count - 1 ==> keys2[i] == keys[i + 1] && children2[i] == children[i + 1],
    ensures
        list_ok(keys2, children2, count - 1),
        forall|x: u8| #[trigger] list_kid(keys2, children2, count - 1, x) == (if x == keys[pos] { 0 } else { list_kid(keys, children, count, x) }),
{
    assert forall|i: int, j: int| 0 <= i < j < count - 1 implies keys2[i] < keys2[j] by {
        let oi = if i < pos { i } else { i + 1 };
        let oj = if j < pos { j } else { j + 1 };
        assert(keys[oi] < keys[oj]);
    }
    assert forall|x: u8| #[trigger] list_kid(keys2, children2, count - 1, x) == (if x == keys[pos] { 0 } else { list_kid(keys, children, count, x) }) by {
        if x == keys[pos] {
            assert forall|i: int| 0 <= i < count - 1 implies keys2[i] != x by {
                if i < pos {
                    assert(keys[i] < keys[pos]);
                } else {
                    assert(keys[pos] < keys[i + 1]);
                }
            }
        } else if exists|i: int| 0 <= i < count && keys[i] == x {
            let i = choose|i: int| 0 <= i < count && keys[i] == x;
            lemma_list_at(keys, children, count, i);
            let i2 = if i < pos { i } else { i - 1 };
            assert(keys2[i2] == x);
            lemma_list_at(keys2, children2, count - 1, i2);
        } else {
            assert forall|i: int| 0 <= i < count - 1 implies keys2[i] != x by {
                if i < pos {
                    assert(keys[i] != x);
                } else {
                    assert(keys[i + 1] != x);
                }
            }
        }
    }
}

/// Equal listings give equal maps.
pub proof fn lemma_list_same(keys: Seq<u8>, children: Seq<u16>, count: int, keys2: Seq<u8>, children2: Seq<u16>)
    requires
        list_ok(keys, children, count),
        count <= keys2.len(),
        count <= children2.len(),
        forall|i: int| 0 <= i < count ==> keys2[i] == keys[i] && children2[i] == children[i],
    ensures
        list_ok(keys2, children2, count),
        forall|x: u8| #[trigger] list_kid(keys2, children2, count, x) == list_kid(keys, children, count, x),
{
    assert forall|x: u8| #[trigger] list_kid(keys2, children2, count, x) == list_kid(keys, children, count, x) by {
        if exists|i: int| 0 <= i < count && keys[i] == x {
            let i = choose|i: int| 0 <= i < count && keys[i] == x;
            lemma_list_at(keys, children, count, i);
            assert(keys2[i] == x);
            lemma_list_at(keys2, children2, count, i);
        } else {
            assert forall|i: int| 0 <= i < count implies keys2[i] != x by {
                assert(keys[i] != x);
            }
        }
    }
}

/// Replacing the child at `pos` changes the map at that key alone.
pub proof fn lemma_list_repoint(keys: Seq<u8>, children: Seq<u16>, count: int, children2: Seq<u16>, pos: int)
    requires
        list_ok(keys, children, count),
        0 <= pos < count,
        children2.len() == children.len(),
        forall|i: int| 0 <= i < count && i != pos ==> children2[i] == children[i],
        children2[pos] != 0,
    ensures
        list_ok(keys, children2, count),
        forall|x: u8| #[trigger] list_kid(keys, children2, count, x) == (if x == keys[pos] { children2[pos] } else { list_kid(keys, children, count, x) }),
{
    assert forall|x: u8| #[trigger] list_kid(keys, children2, count, x) == (if x == keys[pos] { children2[pos] } else { list_kid(keys, children, count, x) }) by {
        if exists|i: int| 0 <= i < count && keys[i] == x {
            let i = choose|i: int| 0 <= i < count && keys[i] == x;
            lemma_list_at(keys, children, count, i);
            lemma_list_at(keys, children2, count, i);
            if x == keys[pos] {
                lemma_list_at(keys, children2, count, pos);
            }
        }
    }
}

/// A list with no entries.
pub fn empty_node4() -> (r: Node4)
    ensures
        node4_ok(r),
        r.count == 0,
{
    Node4 { count: 0, keys: [0u8; 4], children: [0u16; 4] }
}

/// A list with no entries.
pub fn empty_node16() -> (r: Node16)
    ensures
        node16_ok(r),
        r.count == 0,
{
    Node16 { count: 0, keys: [0u8; 16], children: [0u16; 16] }
}

/// An index with no entries.
pub fn empty_node48() -> (r: Node48)
    ensures
        node48_ok(r),
        r.count == 0,
        forall|b: int| 0 <= b < 256 ==> r.index@[b] == 0,
        forall|i: int| 0 <= i < 48 ==> r.children@[i] == 0,
{
    let n = Node48 { count: 0, index: [0u8; 256], children: [0u16; 48] };
    proof {
        lemma_nonzero_zero(n.children@, 48);
        lemma_bytes_zero(n.index@, 256);
    }
    n
}

/// A table with no entries.
pub fn empty_node256() -> (r: Node256)
    ensures
        node256_ok(r),
        r.count == 0,
        forall|b: int| 0 <= b < 256 ==> r.children@[b] == 0,
{
    let n = Node256 { count: 0, children: [0u16; 256] };
    proof {
        lemma_nonzero_zero(n.children@, 256);
    }
    n
}

/// Position of `byte` among the keys.
pub fn node4_find_byte(n: &Node4, byte: u8) -> (r: Option<usize>)
    requires
        node4_ok(*n),
    ensures
        match r {
            Some(i) => i < n.count && n.keys@[i as int] == byte,
            None => forall|i: int| 0 <= i < n.count ==> n.keys@[i] != byte,
        },
{
    let mut i: usize = 0;
    while i < n.count as usize
        invariant
            node4_ok(*n),
            i <= n.count,
            forall|j: int| 0 <= j < i ==> n.keys@[j] < byte,
        decreases n.count - i,
    {
        if n.keys[i] == byte {
            return Some(i);
        }
        if n.keys[i] > byte {
            assert forall|j: int| 0 <= j < n.count implies n.keys@[j] != byte by {
                if j > i {
                    assert(n.keys@[i as int] < n.keys@[j]);
                }
            }
            return None;
        }
        i = i + 1;
    }
    None
}

/// Position of `byte` among the keys.
pub fn node16_position(n: &Node16, byte: u8) -> (r: Option<usize>)
    requires
        node16_ok(*n),
    ensures
        match r {
            Some(i) => i < n.count && n.keys@[i as int] == byte,
            None => forall|i: int| 0 <= i < n.count ==> n.keys@[i] != byte,
        },
{
    match node16_find_byte(&n.keys, n.count, byte) {
        Some(i) => Some(i as usize),
        None => {
            assert forall|i: int| 0 <= i < n.count implies n.keys@[i] != byte by {
                assert(n.keys@.take(n.count as int)[i] == n.keys@[i]);
            }
            None
        },
    }
}

/// The child of inner node `n` on `byte`.
pub fn inner_find_child(n: &Node, byte: u8) -> (r: Option<u16>)
    requires
        inner_ok(*n),
    ensures
        match r {
            Some(c) => c != 0 && c == kid(*n, byte as int),
            None => kid(*n, byte as int) == 0,
        },
{
    match n {
        Node::Node4(m) => match node4_find_byte(m, byte) {
            Some(i) => {
                proof {
                    lemma_list_at(m.keys@, m.children@, m.count as int, i as int);
                }
                Some(m.children[i])
            },
            None => None,
        },
        Node::Node16(m) => match node16_position(m, byte) {
            Some(i) => {
                proof {
                    lemma_list_at(m.keys@, m.children@, m.count as int, i as int);
                }
                Some(m.children[i])
            },
            None => None,
        },
        Node::Node48(m) => {
            let idx: u8 = m.index[byte as usize];
            if idx == 0 {
                None
            } else {
                Some(m.children[idx as usize - 1])
            }
        },
        Node::Node256(m) => {
            let c: u16 = m.children[byte as usize];
            if c == 0 {
                None
            } else {
                Some(c)
            }
        },
        _ => None,
    }
}

/// Adds a byte to a list that has room for it.
pub fn node4_insert_sorted(n: &mut Node4, byte: u8, child: u16)
    requires
        node4_ok(*old(n)),
        old(n).count < 4,
        child != 0,
        list_kid(old(n).keys@, old(n).children@, old(n).count as int, byte) == 0,
    ensures
        node4_ok(*final(n)),
        final(n).count == old(n).count + 1,
        kid_update(Node::Node4(*old(n)), Node::Node4(*final(n)), byte as int, child),
{
    let count: usize = n.count as usize;
    let ghost keys0 = n.keys@;
    let ghost kids0 = n.children@;
    proof {
        lemma_list_absent(keys0, kids0, count as int, byte);
    }
    let mut pos: usize = 0;
    while pos < count && n.keys[pos] < byte
        invariant
            pos <= count <= 4,
            n.keys@ == keys0,
            forall|j: int| 0 <= j < pos ==> keys0[j] < byte,
        decreases count - pos,
    {
        pos = pos + 1;
    }
    assert forall|i: int| pos <= i < count implies keys0[i] > byte by {
        if i > pos {
            assert(keys0[pos as int] < keys0[i]);
        }
    }
    let mut i: usize = count;
    while i > pos
        invariant
            pos <= i <= count < 4,
            n.count == count,
            keys0.len() == 4,
            kids0.len() == 4,
            forall|j: int| 0 <= j < i ==> n.keys@[j] == keys0[j] && n.children@[j] == kids0[j],
            forall|j: int| i < j <= count ==> n.keys@[j] == keys0[j - 1] && n.children@[j] == kids0[j - 1],
        decreases i,
    {
        n.keys[i] = n.keys[i - 1];
        n.children[i] = n.children[i - 1];
        i = i - 1;
    }
    n.keys[pos] = byte;
    n.children[pos] = child;
    n.count = n.count + 1;
    proof {
        lemma_list_insert(keys0, kids0, count as int, n.keys@, n.children@, pos as int, byte, child);
    }
}

/// Adds a byte to a list that has room for it.
pub fn node16_insert_sorted(n: &mut Node16, byte: u8, child: u16)
    requires
        node16_ok(*old(n)),
        old(n).count < 16,
        child != 0,
        list_kid(old(n).keys@, old(n).children@, old(n).count as int, byte) == 0,
    ensures
        node16_ok(*final(n)),
        final(n).count == old(n).count + 1,
        kid_update(Node::Node16(*old(n)), Node::Node16(*final(n)), byte as int, child),
{
    let count: usize = n.count as usize;
    let ghost keys0 = n.keys@;
    let ghost kids0 = n.children@;
    proof {
        lemma_list_absent(keys0, kids0, count as int, byte);
    }
    let mut pos: usize = 0;
    while pos < count && n.keys[pos] < byte
        invariant
            pos <= count <= 16,
            n.keys@ == keys0,
            forall|j: int| 0 <= j < pos ==> keys0[j] < byte,
        decreases count - pos,
    {
        pos = pos + 1;
    }
    assert forall|i: int| pos <= i < count implies keys0[i] > byte by {
        if i > pos {
            assert(keys0[pos as int] < keys0[i]);
        }
    }
    let mut i: usize = count;
    while i > pos
        invariant
            pos <= i <= count < 16,
            n.count == count,
            keys0.len() == 16,
            kids0.len() == 16,
            forall|j: int| 0 <= j < i ==> n.keys@[j] == keys0[j] && n.children@[j] == kids0[j],
            forall|j: int| i < j <= count ==> n.keys@[j] == keys0[j - 1] && n.children@[j] == kids0[j - 1],
        decreases i,
    {
        n.keys[i] = n.keys[i - 1];
        n.children[i] = n.children[i - 1];
        i = i - 1;
    }
    n.keys[pos] = byte;
    n.children[pos] = child;
    n.count = n.count + 1;
    proof {
        lemma_list_insert(keys0, kids0, count as int, n.keys@, n.children@, pos as int, byte, child);
    }
}

/// Adds a byte to an index that has a free child field.
pub fn node48_insert(n: &mut Node48, byte: u8, child: u16)
    requires
        node48_ok(*old(n)),
        old(n).count < 48,
        child != 0,
        old(n).index@[byte as int] == 0,
    ensures
        node48_ok(*final(n)),
        final(n).count == old(n).count + 1,
        forall|x: int|
            0 <= x < 256 ==> #[trigger] kid(Node::Node48(Box::new(*final(n))), x) == (if x == byte { child } else {
                kid(Node::Node48(Box::new(*old(n))), x)
            }),
{
    let ghost n0 = *n;
    proof {
        lemma_nonzero_gap(n.children@, 48);
    }
    let mut i: usize = 0;
    while n.children[i] != 0
        invariant
            i < 48,
            n.children@ == n0.children@,
            exists|j: int| i <= j < 48 && n0.children@[j] == 0,
        decreases 48 - i,
    {
        proof {
            let j = choose|j: int| i <= j < 48 && n0.children@[j] == 0;
            assert(i < j);
        }
        i = i + 1;
    }
    n.children[i] = child;
    n.index[byte as usize] = (i + 1) as u8;
    n.count = n.count + 1;
    proof {
        lemma_nonzero_update(n0.children@, 48, i as int, child);
        lemma_bytes_update(n0.index@, 256, byte as int, (i + 1) as u8);
    }
}

/// Repoints the child on `byte`, which must be present.
pub fn inner_update_child(n: &mut Node, byte: u8, child: u16)
    requires
        inner_ok(*old(n)),
        child != 0,
        kid(*old(n), byte as int) != 0,
    ensures
        inner_ok(*final(n)),
        crate::layout::node_type(*final(n)) == crate::layout::node_type(*old(n)),
        kid_update(*old(n), *final(n), byte as int, child),
        degree(*final(n)) == degree(*old(n)),
{
    match n {
        Node::Node4(m) => {
            proof {
                lemma_list_absent(m.keys@, m.children@, m.count as int, byte);
            }
            let ghost kids0 = m.children@;
            if let Some(i) = node4_find_byte(m, byte) {
                m.children[i] = child;
                proof {
                    lemma_list_repoint(m.keys@, kids0, m.count as int, m.children@, i as int);
                }
            }
        },
        Node::Node16(m) => {
            proof {
                lemma_list_absent(m.keys@, m.children@, m.count as int, byte);
            }
            let ghost kids0 = m.children@;
            if let Some(i) = node16_position(m, byte) {
                m.children[i] = child;
                proof {
                    lemma_list_repoint(m.keys@, kids0, m.count as int, m.children@, i as int);
                }
            }
        },
        Node::Node48(m) => {
            let ghost m0 = **m;
            let idx: usize = m.index[byte as usize] as usize;
            m.children[idx - 1] = child;
            proof {
                lemma_nonzero_update(m0.children@, 48, idx - 1, child);
            }
        },
        Node::Node256(m) => {
            let ghost m0 = **m;
            m.children[byte as usize] = child;
            proof {
                lemma_nonzero_update(m0.children@, 256, byte as int, child);
            }
        },
        _ => {},
    }
}

/// Adds a child on `byte`, which must be absent, to a node that has room.
pub fn inner_insert_child(n: &mut Node, byte: u8, child: u16)
    requires
        inner_ok(*old(n)),
        child != 0,
        kid(*old(n), byte as int) == 0,
        !full(*old(n)),
    ensures
        inner_ok(*final(n)),
        crate::layout::node_type(*final(n)) == crate::layout::node_type(*old(n)),
        kid_update(*old(n), *final(n), byte as int, child),
        degree(*final(n)) == degree(*old(n)) + 1,
{
    match n {
        Node::Node4(m) => {
            node4_insert_sorted(m, byte, child);
        },
        Node::Node16(m) => {
            node16_insert_sorted(m, byte, child);
        },
        Node::Node48(m) => {
            let mut body: Node48 = **m;
            node48_insert(&mut body, byte, child);
            **m = body;
        },
        Node::Node256(m) => {
            let ghost m0 = **m;
            m.children[byte as usize] = child;
            m.count = m.count.saturating_add(1);
            proof {
                lemma_nonzero_update(m0.children@, 256, byte as int, child);
                lemma_nonzero_bound(m0.children@, 256);
            }
        },
        _ => {},
    }
}

/// Whether two nodes have the same child map.
pub open spec fn same_kids(n: Node, m: Node) -> bool {
    forall|x: int| 0 <= x < 256 ==> #[trigger] kid(m, x) == kid(n, x)
}

/// A sixteen-entry list with the entries of `old`.
pub fn widen_node4(old: &Node4) -> (r: Node16)
    requires
        node4_ok(*old),
    ensures
        node16_ok(r),
        r.count == old.count,
        same_kids(Node::Node4(*old), Node::Node16(r)),
{
    let mut n: Node16 = empty_node16();
    let mut i: usize = 0;
    while i < old.count as usize
        invariant
            old.count <= 4,
            i <= old.count,
            forall|j: int| 0 <= j < i ==> n.keys@[j] == old.keys@[j] && n.children@[j] == old.children@[j],
        decreases old.count - i,
    {
        n.keys[i] = old.keys[i];
        n.children[i] = old.children[i];
        i = i + 1;
    }
    n.count = old.count;
    proof {
        lemma_list_same(old.keys@, old.children@, old.count as int, n.keys@, n.children@);
    }
    n
}

/// An index with the entries of `old`.
pub fn widen_node16(old: &Node16) -> (r: Node48)
    requires
        node16_ok(*old),
    ensures
        node48_ok(r),
        r.count == old.count,
        same_kids(Node::Node16(*old), Node::Node48(Box::new(r))),
{
    let mut n: Node48 = empty_node48();
    let mut i: usize = 0;
    while i < old.count as usize
        invariant
            node16_ok(*old),
            i <= old.count,
            node48_ok(n),
            n.count == i,
            forall|j: int| i <= j < 48 ==> n.children@[j] == 0,
            forall|b: int| 0 <= b < 256 ==> (#[trigger] n.index@[b]) <= i,
            forall|b: int| 0 <= b < 256 && (#[trigger] n.index@[b]) != 0 ==> old.keys@[n.index@[b] - 1] == b && n.children@[n.index@[b] - 1] == old.children@[n.index@[b] - 1],
            forall|j: int| 0 <= j < i ==> n.index@[(#[trigger] old.keys@[j]) as int] == j + 1,
        decreases old.count - i,
    {
        let ghost n0 = n;
        let b: usize = old.keys[i] as usize;
        proof {
            if n.index@[b as int] != 0 {
                let k = n.index@[b as int] - 1;
                assert(old.keys@[k] < old.keys@[i as int]);
            }
        }
        n.children[i] = old.children[i];
        n.index[b] = (i + 1) as u8;
        n.count = n.count + 1;
        proof {
            lemma_nonzero_update(n0.children@, 48, i as int, old.children@[i as int]);
            lemma_bytes_update(n0.index@, 256, b as int, (i + 1) as u8);
            assert forall|j: int| 0 <= j < i + 1 implies n.index@[(#[trigger] old.keys@[j]) as int] == j + 1 by {
                if j < i {
                    assert(old.keys@[j] < old.keys@[i as int]);
                }
            }
        }
        i = i + 1;
    }
    proof {
        assert forall|x: int| 0 <= x < 256 implies #[trigger] kid(Node::Node48(Box::new(n)), x) == kid(Node::Node16(*old), x) by {
            lemma_list_absent(old.keys@, old.children@, old.count as int, x as u8);
            if n.index@[x] != 0 {
                lemma_list_at(old.keys@, old.children@, old.count as int, n.index@[x] - 1);
            } else {
                assert forall|j: int| 0 <= j < old.count implies old.keys@[j] != x as u8 by {
                    assert(n.index@[old.keys@[j] as int] == j + 1);
                }
            }
        }
    }
    n
}

/// A table with the entries of `old`.
pub fn widen_node48(old: &Node48) -> (r: Node256)
    requires
        node48_ok(*old),
    ensures
        node256_ok(r),
        nonzero(r.children@, 256) == old.count,
        same_kids(Node::Node48(Box::new(*old)), Node::Node256(Box::new(r))),
{
    let mut n: Node256 = empty_node256();
    let mut count: u16 = 0;
    let mut byte: usize = 0;
    while byte < 256
        invariant
            byte <= 256,
            node48_ok(*old),
            count == nonzero(n.children@, 256),
            count == nonzero_bytes(old.index@, byte as int),
            count <= byte,
            forall|x: int| 0 <= x < byte ==> #[trigger] n.children@[x] == kid(Node::Node48(Box::new(*old)), x),
            forall|x: int| byte <= x < 256 ==> #[trigger] n.children@[x] == 0,
        decreases 256 - byte,
    {
        let idx: u8 = old.index[byte];
        if idx != 0 {
            let ghost s = n.children@;
            let c: u16 = old.children[idx as usize - 1];
            n.children[byte] = c;
            proof {
                lemma_nonzero_update(s, 256, byte as int, c);
            }
            count = count + 1;
        }
        byte = byte + 1;
    }
    n.count = if count <= 255 { count as u8 } else { 255 };
    n
}

/// The next wider layout with the same children.
pub fn grow(n: &Node) -> (r: Node)
    requires
        inner_ok(*n),
        full(*n),
    ensures
        inner_ok(r),
        same_kids(*n, r),
        !full(r),
        degree(r) == degree(*n),
        n is Node4 ==> r is Node16,
        n is Node16 ==> r is Node48,
        n is Node48 ==> r is Node256,
{
    match n {
        Node::Node4(m) => Node::Node16(widen_node4(m)),
        Node::Node16(m) => Node::Node48(Box::new(widen_node16(m))),
        Node::Node48(m) => Node::Node256(Box::new(widen_node48(m))),
        _ => Node::EmptyRoot,
    }
}

/// Removes the child on `byte`, which must be present.
pub fn inner_remove_child(n: &mut Node, byte: u8)
    requires
        inner_ok(*old(n)),
        kid(*old(n), byte as int) != 0,
    ensures
        inner_ok(*final(n)),
        crate::layout::node_type(*final(n)) == crate::layout::node_type(*old(n)),
        kid_update(*old(n), *final(n), byte as int, 0),
        degree(*final(n)) == degree(*old(n)) - 1,
{
    match n {
        Node::Node4(m) => {
            let ghost keys0 = m.keys@;
            let ghost kids0 = m.children@;
            proof {
                lemma_list_absent(keys0, kids0, m.count as int, byte);
            }
            if let Some(pos) = node4_find_byte(m, byte) {
                let count: usize = m.count as usize;
                let mut j: usize = pos;
                while j + 1 < count
                    invariant
                        pos <= j < count <= 4,
                        m.count == count,
                        keys0.len() == 4,
                        kids0.len() == 4,
                        forall|i: int| 0 <= i < pos ==> m.keys@[i] == keys0[i] && m.children@[i] == kids0[i],
                        forall|i: int| pos <= i < j ==> m.keys@[i] == keys0[i + 1] && m.children@[i] == kids0[i + 1],
                        forall|i: int| j <= i < 4 ==> m.keys@[i] == keys0[i] && m.children@[i] == kids0[i],
                    decreases count - j,
                {
                    m.keys[j] = m.keys[j + 1];
                    m.children[j] = m.children[j + 1];
                    j = j + 1;
                }
                m.keys[count - 1] = 0;
                m.children[count - 1] = 0;
                m.count = m.count - 1;
                proof {
                    lemma_list_remove(keys0, kids0, count as int, m.keys@, m.children@, pos as int);
                }
            }
        },
        Node::Node16(m) => {
            let ghost keys0 = m.keys@;
            let ghost kids0 = m.children@;
            proof {
                lemma_list_absent(keys0, kids0, m.count as int, byte);
            }
            if let Some(pos) = node16_position(m, byte) {
                let count: usize = m.count as usize;
                let mut j: usize = pos;
                while j + 1 < count
                    invariant
                        pos <= j < count <= 16,
                        m.count == count,
                        keys0.len() == 16,
                        kids0.len() == 16,
                        forall|i: int| 0 <= i < pos ==> m.keys@[i] == keys0[i] && m.children@[i] == kids0[i],
                        forall|i: int| pos <= i < j ==> m.keys@[i] == keys0[i + 1] && m.children@[i] == kids0[i + 1],
                        forall|i: int| j <= i < 16 ==> m.keys@[i] == keys0[i] && m.children@[i] == kids0[i],
                    decreases count - j,
                {
                    m.keys[j] = m.keys[j + 1];
                    m.children[j] = m.children[j + 1];
                    j = j + 1;
                }
                m.keys[count - 1] = 0;
                m.children[count - 1] = 0;
                m.count = m.count - 1;
                proof {
                    lemma_list_remove(keys0, kids0, count as int, m.keys@, m.children@, pos as int);
                }
            }
        },
        Node::Node48(m) => {
            let ghost m0 = **m;
            let ci: usize = m.index[byte as usize] as usize;
            proof {
                lemma_nonzero_update(m0.children@, 48, ci - 1, 0);
                lemma_bytes_update(m0.index@, 256, byte as int, 0);
            }
            m.children[ci - 1] = 0;
            m.index[byte as usize] = 0;
            m.count = m.count - 1;
        },
        Node::Node256(m) => {
            let ghost m0 = **m;
            m.children[byte as usize] = 0;
            // `count` stops at 255, so a full table is recounted.
            let populated: u16 = count_children(&m.children);
            m.count = if populated <= 255 { populated as u8 } else { 255 };
            proof {
                lemma_nonzero_update(m0.children@, 256, byte as int, 0);
            }
        },
        _ => {},
    }
}

/// Number of occupied entries of a table.
pub fn count_children(children: &[u16; 256]) -> (r: u16)
    ensures
        r == nonzero(children@, 256),
        r <= 256,
{
    let mut r: u16 = 0;
    let mut i: usize = 0;
    while i < 256
        invariant
            i <= 256,
            r == nonzero(children@, i as int),
            r <= i,
        decreases 256 - i,
    {
        if children[i] != 0 {
            r = r + 1;
        }
        i = i + 1;
    }
    r
}

/// A four-entry list with the entries of `old`.
pub fn narrow_node16(old: &Node16) -> (r: Node4)
    requires
        node16_ok(*old),
        old.count <= 4,
    ensures
        node4_ok(r),
        r.count == old.count,
        same_kids(Node::Node16(*old), Node::Node4(r)),
{
    let mut n: Node4 = empty_node4();
    let mut i: usize = 0;
    while i < old.count as usize
        invariant
            old.count <= 4,
            i <= old.count,
            forall|j: int| 0 <= j < i ==> n.keys@[j] == old.keys@[j] && n.children@[j] == old.children@[j],
        decreases old.count - i,
    {
        n.keys[i] = old.keys[i];
        n.children[i] = old.children[i];
        i = i + 1;
    }
    n.count = old.count;
    proof {
        lemma_list_same(old.keys@, old.children@, old.count as int, n.keys@, n.children@);
    }
    n
}

/// A sixteen-entry list with the entries of `old`.
pub fn narrow_node48(old: &Node48) -> (r: Node16)
    requires
        node48_ok(*old),
        old.count <= 16,
    ensures
        node16_ok(r),
        r.count == old.count,
        same_kids(Node::Node48(Box::new(*old)), Node::Node16(r)),
{
    let mut n: Node16 = empty_node16();
    let mut i: usize = 0;
    let mut byte: usize = 0;
    while byte < 256
        invariant
            byte <= 256,
            node48_ok(*old),
            old.count <= 16,
            i == nonzero_bytes(old.index@, byte as int),
            i <= 16,
            forall|j: int| 0 <= j < i ==> (#[trigger] n.keys@[j]) < byte && old.index@[n.keys@[j] as int] != 0 && n.children@[j] == kid(Node::Node48(Box::new(*old)), n.keys@[j] as int),
            forall|j: int, k: int| 0 <= j < k < i ==> n.keys@[j] < n.keys@[k],
            forall|x: int| 0 <= x < byte && (#[trigger] old.index@[x]) != 0 ==> exists|j: int| 0 <= j < i && n.keys@[j] == x,
        decreases 256 - byte,
    {
        let idx: u8 = old.index[byte];
        proof {
            lemma_bytes_monotone(old.index@, byte + 1, 256);
        }
        if idx != 0 {
            let ghost keys0 = n.keys@;
            assert(i < 16);
            n.keys[i] = byte as u8;
            n.children[i] = old.children[idx as usize - 1];
            proof {
                assert forall|x: int| 0 <= x < byte + 1 && (#[trigger] old.index@[x]) != 0 implies exists|j: int| 0 <= j < i + 1 && n.keys@[j] == x by {
                    if x < byte {
                        let j = choose|j: int| 0 <= j < i && keys0[j] == x;
                        assert(n.keys@[j] == x);
                    } else {
                        assert(n.keys@[i as int] == x);
                    }
                }
            }
            i = i + 1;
        }
        byte = byte + 1;
    }
    n.count = i as u8;
    proof {
        assert forall|j: int| 0 <= j < i implies n.children@[j] != 0 by {
            assert(n.keys@[j] < byte);
        }
        assert(list_ok(n.keys@, n.children@, n.count as int));
        assert forall|x: int| 0 <= x < 256 implies #[trigger] kid(Node::Node16(n), x) == kid(Node::Node48(Box::new(*old)), x) by {
            lemma_list_absent(n.keys@, n.children@, n.count as int, x as u8);
            if old.index@[x] != 0 {
                let j = choose|j: int| 0 <= j < i && n.keys@[j] == x;
                lemma_list_at(n.keys@, n.children@, n.count as int, j);
            }
        }
    }
    n
}

/// An index with the entries of `old`.
pub fn narrow_node256(old: &Node256) -> (r: Node48)
    requires
        node256_ok(*old),
        nonzero(old.children@, 256) <= 48,
    ensures
        node48_ok(r),
        r.count == nonzero(old.children@, 256),
        same_kids(Node::Node256(Box::new(*old)), Node::Node48(Box::new(r))),
{
    let mut n: Node48 = empty_node48();
    let mut packed: usize = 0;
    let mut byte: usize = 0;
    while byte < 256
        invariant
            byte <= 256,
            nonzero(old.children@, 256) <= 48,
            packed == nonzero(old.children@, byte as int),
            packed <= 48,
            node48_ok(n),
            n.count == packed,
            forall|j: int| packed <= j < 48 ==> n.children@[j] == 0,
            forall|b: int| 0 <= b < 256 ==> (#[trigger] n.index@[b]) <= packed,
            forall|x: int| 0 <= x < byte ==> #[trigger] kid(Node::Node48(Box::new(n)), x) == old.children@[x],
            forall|x: int| byte <= x < 256 ==> #[trigger] n.index@[x] == 0,
        decreases 256 - byte,
    {
        let child: u16 = old.children[byte];
        proof {
            lemma_nonzero_monotone(old.children@, byte + 1, 256);
        }
        if child != 0 {
            let ghost n0 = n;
            assert(packed < 48);
            n.children[packed] = child;
            n.index[byte] = (packed + 1) as u8;
            n.count = n.count + 1;
            proof {
                lemma_nonzero_update(n0.children@, 48, packed as int, child);
                lemma_bytes_update(n0.index@, 256, byte as int, (packed + 1) as u8);
                assert forall|x: int| 0 <= x < byte + 1 implies #[trigger] kid(Node::Node48(Box::new(n)), x) == old.children@[x] by {
                    if x < byte {
                        assert(kid(Node::Node48(Box::new(n0)), x) == old.children@[x]);
                        assert(n0.index@[x] <= packed);
                    }
                }
            }
            packed = packed + 1;
        }
        byte = byte + 1;
    }
    n
}

/// Lowest byte that a walk of `n` has not passed yet when its cursor is
/// `from`. Lists keep a position, tables a byte.
pub open spec fn cursor_byte(n: Node, from: int) -> int {
    match n {
        Node::Node4(m) => if from <= 0 {
            0
        } else if from <= m.count {
            m.keys@[from - 1] + 1
        } else {
            256
        },
        Node::Node16(m) => if from <= 0 {
            0
        } else if from <= m.count {
            m.keys@[from - 1] + 1
        } else {
            256
        },
        _ => from,
    }
}

/// Whether `b` is the lowest byte at or after `lo` that has a child.
pub open spec fn first_kid(n: Node, lo: int, b: int) -> bool {
    &&& lo <= b < 256
    &&& kid(n, b) != 0
    &&& forall|x: int| lo <= x < b ==> #[trigger] kid(n, x) == 0
}

/// Whether no byte at or after `lo` has a child.
pub open spec fn no_kid_from(n: Node, lo: int) -> bool {
    forall|x: int| lo <= x < 256 ==> #[trigger] kid(n, x) == 0
}

/// Steps a walk of inner node `n`: the next child at or after the cursor
/// whose byte is at least `min_byte`, with the cursor just past it.
pub fn next_inner_child_ge(n: &Node, from: u16, min_byte: u8) -> (r: Option<(u8, u16, u16)>)
    requires
        inner_ok(*n),
    ensures
        ({
            let c = cursor_byte(*n, from as int);
            let lo = if c >= min_byte { c } else { min_byte as int };
            match r {
                Some((b, child, next)) => {
                    &&& first_kid(*n, lo, b as int)
                    &&& child == kid(*n, b as int)
                    &&& child != 0
                    &&& cursor_byte(*n, next as int) == b + 1
                    &&& 0 < next <= 256
                },
                None => no_kid_from(*n, lo),
            }
        }),
{
    match n {
        Node::Node4(m) => {
            let mut i: usize = from as usize;
            while i < m.count as usize && m.keys[i] < min_byte
                invariant
                    node4_ok(*m),
                    *n == Node::Node4(*m),
                    from <= i,
                    i <= m.count || i == from,
                    forall|j: int| from <= j < i ==> m.keys@[j] < min_byte,
                decreases m.count - i,
            {
                i = i + 1;
            }
            proof {
                lemma_list_walk(m.keys@, m.children@, m.count as int, from as int, min_byte, i as int);
            }
            if i < m.count as usize {
                Some((m.keys[i], m.children[i], (i + 1) as u16))
            } else {
                None
            }
        },
        Node::Node16(m) => {
            let mut i: usize = from as usize;
            while i < m.count as usize && m.keys[i] < min_byte
                invariant
                    node16_ok(*m),
                    *n == Node::Node16(*m),
                    from <= i,
                    i <= m.count || i == from,
                    forall|j: int| from <= j < i ==> m.keys@[j] < min_byte,
                decreases m.count - i,
            {
                i = i + 1;
            }
            proof {
                lemma_list_walk(m.keys@, m.children@, m.count as int, from as int, min_byte, i as int);
            }
            if i < m.count as usize {
                Some((m.keys[i], m.children[i], (i + 1) as u16))
            } else {
                None
            }
        },
        Node::Node48(m) => {
            let start: usize = if from as usize >= min_byte as usize {
                from as usize
            } else {
                min_byte as usize
            };
            match find_next_nonzero_byte(&m.index, start) {
                Some(b) => {
                    let idx: u8 = m.index[b];
                    Some((b as u8, m.children[idx as usize - 1], (b + 1) as u16))
                },
                None => None,
            }
        },
        Node::Node256(m) => {
            let start: usize = if from as usize >= min_byte as usize {
                from as usize
            } else {
                min_byte as usize
            };
            match find_next_nonzero_u16(&m.children, start) {
                Some(b) => Some((b as u8, m.children[b], (b + 1) as u16)),
                None => None,
            }
        },
        _ => None,
    }
}

/// The list positions from `from` on whose keys reach `min` start at `i`.
pub proof fn lemma_list_walk(keys: Seq<u8>, children: Seq<u16>, count: int, from: int, min: u8, i: int)
    requires
        list_ok(keys, children, count),
        0 <= from <= i,
        i <= count || i == from,
        forall|j: int| from <= j < i ==> keys[j] < min,
        i < count ==> keys[i] >= min,
    ensures
        ({
            let c = if from <= 0 { 0 } else if from <= count { keys[from - 1] + 1 } else { 256 };
            let lo = if c >= min { c } else { min as int };
            if i < count {
                &&& lo <= keys[i]
                &&& list_kid(keys, children, count, keys[i]) == children[i]
                &&& children[i] != 0
                &&& forall|x: int| lo <= x < keys[i] ==> #[trigger] list_kid(keys, children, count, x as u8) == 0
            } else {
                forall|x: int| lo <= x < 256 ==> #[trigger] list_kid(keys, children, count, x as u8) == 0
            }
        }),
{
    let c = if from <= 0 { 0 } else if from <= count { keys[from - 1] + 1 } else { 256 };
    let lo = if c >= min { c } else { min as int };
    if i < count {
        lemma_list_at(keys, children, count, i);
        if from > 0 {
            assert(keys[from - 1] < keys[i]);
        }
    }
    let hi: int = if i < count { keys[i] as int } else { 256 };
    assert forall|x: int| lo <= x < hi implies #[trigger] list_kid(keys, children, count, x as u8) == 0 by {
        lemma_list_absent(keys, children, count, x as u8);
        assert forall|j: int| 0 <= j < count implies keys[j] != x as u8 by {
            if j < from {
                if j < from - 1 {
                    assert(keys[j] < keys[from - 1]);
                }
            } else if j < i {
                assert(keys[j] < min);
            } else if j > i {
                assert(keys[i] < keys[j]);
            }
        }
    }
}

/// Steps a walk of inner node `n` to its next child.
pub fn next_inner_child_from(n: &Node, from: u16) -> (r: Option<(u8, u16, u16)>)
    requires
        inner_ok(*n),
    ensures
        match r {
            Some((b, child, next)) => {
                &&& first_kid(*n, cursor_byte(*n, from as int), b as int)
                &&& child == kid(*n, b as int)
                &&& child != 0
                &&& cursor_byte(*n, next as int) == b + 1
                &&& 0 < next <= 256
            },
            None => no_kid_from(*n, cursor_byte(*n, from as int)),
        },
{
    next_inner_child_ge(n, from, 0)
}

} // verus!
