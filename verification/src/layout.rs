//! Blob geometry and node bodies.
//!
//! A blob is a fixed-size page. Its data area holds node bodies at byte
//! offsets that are multiples of eight; a node is named by the offset's
//! unit number, counted from one so that zero can mean "no node".
use vstd::prelude::*;

verus! {

/// Bytes in a blob.
pub const PAGE_SIZE: u32 = 524288;

/// Bytes in a cold-read page.
pub const PAGE_4K: u32 = 4096;

/// Offset of the first byte of the data area; a multiple of [`PAGE_4K`].
pub const DATA_AREA_START: u32 = 69632;

/// Bytes per addressable unit of the data area.
pub const UNIT: u32 = 8;

/// Units in the data area.
pub const DATA_UNITS: u32 = 56832;

/// Most nodes a blob may hold, live or abandoned.
pub const MAX_SLOTS: u32 = 16384;

/// Most bytes one prefix node carries.
pub const PREFIX_MAX_INLINE: usize = 112;

/// Most bytes a blob node's inline prefix carries.
pub const BLOB_MAX_INLINE: usize = 104;

/// Body size of an empty root sentinel.
pub const EMPTY_ROOT_SIZE: u32 = 8;

/// Body size of a prefix node.
pub const PREFIX_SIZE: u32 = 128;

/// Body size of a node with up to four children.
pub const NODE4_SIZE: u32 = 16;

/// Body size of a node with up to sixteen children.
pub const NODE16_SIZE: u32 = 56;

/// Body size of a node with up to forty-eight children.
pub const NODE48_SIZE: u32 = 360;

/// Body size of a node with one child field per byte.
pub const NODE256_SIZE: u32 = 520;

/// Body size of a blob node.
pub const BLOB_NODE_SIZE: u32 = 128;

/// Bytes of a leaf before its key.
pub const LEAF_HEADER_SIZE: u32 = 16;

/// Name of a blob.
pub type BlobGuid = [u8; 16];

/// Whether `g` names the root blob of a tree: all zero bytes.
pub open spec fn is_root_guid(g: BlobGuid) -> bool {
    forall|i: int| 0 <= i < 16 ==> g@[i] == 0
}

/// Name of the root blob of every tree.
pub fn root_blob_guid() -> (r: BlobGuid)
    ensures
        is_root_guid(r),
{
    [0u8; 16]
}

/// The kinds of node body.
#[derive(Debug, Clone, Copy, PartialEq, Eq, Structural)]
pub enum NodeType {
    Invalid,
    EmptyRoot,
    Leaf,
    Prefix,
    Node4,
    Node16,
    Node48,
    Node256,
    Blob,
}

/// A record: key, value, the sequence that wrote it, whether it has been
/// deleted, and a fingerprint of the key, zero for none.
#[derive(Debug)]
pub struct Leaf {
    pub key: Vec<u8>,
    pub value: Vec<u8>,
    pub seq: u64,
    pub tombstone: bool,
    pub key_fp: u16,
}

/// A run of bytes shared by every key below `child`.
#[derive(Debug)]
pub struct Prefix {
    pub bytes: Vec<u8>,
    pub child: u16,
}

/// Up to four branch bytes in ascending order, each with its child.
#[derive(Debug, Clone, Copy)]
pub struct Node4 {
    pub count: u8,
    pub keys: [u8; 4],
    pub children: [u16; 4],
}

/// Up to sixteen branch bytes in ascending order, each with its child.
#[derive(Debug, Clone, Copy)]
pub struct Node16 {
    pub count: u8,
    pub keys: [u8; 16],
    pub children: [u16; 16],
}

/// Branching through a byte index: `index[b] == 0` means no child, otherwise
/// the child is `children[index[b] - 1]`.
#[derive(Debug, Clone, Copy)]
pub struct Node48 {
    pub count: u8,
    pub index: [u8; 256],
    pub children: [u16; 48],
}

/// Branching with one child field per byte; zero means no child. `count`
/// stops at 255.
#[derive(Debug, Clone, Copy)]
pub struct Node256 {
    pub count: u8,
    pub children: [u16; 256],
}

/// The rest of the subtree lives in another blob.
#[derive(Debug)]
pub struct BlobNode {
    pub bytes: Vec<u8>,
    pub child_blob_guid: BlobGuid,
}

/// A node body.
#[derive(Debug)]
pub enum Node {
    EmptyRoot,
    Leaf(Leaf),
    Prefix(Prefix),
    Node4(Node4),
    Node16(Node16),
    Node48(Box<Node48>),
    Node256(Box<Node256>),
    Blob(BlobNode),
}

/// Bytes rounded up to a whole number of units.
pub open spec fn align8(n: int) -> int {
    (n + 7) / 8 * 8
}

/// Body size of a leaf: header, key and value, rounded up to a whole number
/// of units.
pub open spec fn leaf_size(key_len: int, value_len: int) -> int {
    align8(LEAF_HEADER_SIZE + key_len + value_len)
}

/// Body size of a node.
pub open spec fn node_size(n: Node) -> int {
    match n {
        Node::EmptyRoot => EMPTY_ROOT_SIZE as int,
        Node::Leaf(l) => leaf_size(l.key@.len() as int, l.value@.len() as int),
        Node::Prefix(_) => PREFIX_SIZE as int,
        Node::Node4(_) => NODE4_SIZE as int,
        Node::Node16(_) => NODE16_SIZE as int,
        Node::Node48(_) => NODE48_SIZE as int,
        Node::Node256(_) => NODE256_SIZE as int,
        Node::Blob(_) => BLOB_NODE_SIZE as int,
    }
}

/// The kind of a node.
pub open spec fn node_type(n: Node) -> NodeType {
    match n {
        Node::EmptyRoot => NodeType::EmptyRoot,
        Node::Leaf(_) => NodeType::Leaf,
        Node::Prefix(_) => NodeType::Prefix,
        Node::Node4(_) => NodeType::Node4,
        Node::Node16(_) => NodeType::Node16,
        Node::Node48(_) => NodeType::Node48,
        Node::Node256(_) => NodeType::Node256,
        Node::Blob(_) => NodeType::Blob,
    }
}

/// Body size of a leaf with the given key and value lengths.
pub fn leaf_body_size(key_len: u32, value_len: u32) -> (r: u32)
    requires
        key_len <= 65536,
        value_len <= 65536,
    ensures
        r == leaf_size(key_len as int, value_len as int),
{
    (LEAF_HEADER_SIZE + key_len + value_len + 7) / 8 * 8
}

/// The kind of `n`.
pub fn type_of_node(n: &Node) -> (r: NodeType)
    ensures
        r == node_type(*n),
{
    match n {
        Node::EmptyRoot => NodeType::EmptyRoot,
        Node::Leaf(_) => NodeType::Leaf,
        Node::Prefix(_) => NodeType::Prefix,
        Node::Node4(_) => NodeType::Node4,
        Node::Node16(_) => NodeType::Node16,
        Node::Node48(_) => NodeType::Node48,
        Node::Node256(_) => NodeType::Node256,
        Node::Blob(_) => NodeType::Blob,
    }
}

/// Body size of `n`.
pub fn size_of_node(n: &Node) -> (r: u32)
    requires
        n matches Node::Leaf(l) ==> l.key@.len() <= 65536 && l.value@.len() <= 65536,
    ensures
        r == node_size(*n),
        r % 8 == 0,
        8 <= r <= 131096,
{
    match n {
        Node::EmptyRoot => EMPTY_ROOT_SIZE,
        Node::Leaf(l) => leaf_body_size(l.key.len() as u32, l.value.len() as u32),
        Node::Prefix(_) => PREFIX_SIZE,
        Node::Node4(_) => NODE4_SIZE,
        Node::Node16(_) => NODE16_SIZE,
        Node::Node48(_) => NODE48_SIZE,
        Node::Node256(_) => NODE256_SIZE,
        Node::Blob(_) => BLOB_NODE_SIZE,
    }
}

/// Byte offset of the node that a child field names.
pub fn decode_child_off(encoded: u16) -> (r: u32)
    requires
        encoded != 0,
    ensures
        r == DATA_AREA_START + (encoded - 1) * 8,
{
    DATA_AREA_START + (encoded as u32 - 1) * UNIT
}

/// Child field that names the node at byte offset `off`.
pub fn encode_child_off(off: u32) -> (r: u16)
    requires
        DATA_AREA_START <= off < PAGE_SIZE,
    ensures
        r == (off - DATA_AREA_START) / 8 + 1,
        r != 0,
{
    ((off - DATA_AREA_START) / UNIT + 1) as u16
}

/// Decoding a child field and encoding the offset gives the field back.
pub proof fn child_off_round_trip(encoded: u16)
    requires
        encoded != 0,
    ensures
        (DATA_AREA_START + (encoded - 1) * 8 - DATA_AREA_START) / 8 + 1 == encoded,
{
}

/// `n` rounded up to a multiple of [`PAGE_4K`].
pub open spec fn page_ceil(n: int) -> int {
    (n + 4095) / 4096 * 4096
}

/// `off` rounded up to a page boundary.
pub fn page_align_up(off: u32) -> (r: u32)
    requires
        off <= 0xffff_0000,
    ensures
        r == page_ceil(off as int),
        r % 4096 == 0,
        off <= r < off + 4096,
{
    (off + (PAGE_4K - 1)) / PAGE_4K * PAGE_4K
}

/// Whether two GUIDs are the same.
pub fn guid_eq(a: &BlobGuid, b: &BlobGuid) -> (r: bool)
    ensures
        r == (*a == *b),
{
    let mut i: usize = 0;
    while i < 16
        invariant
            i <= 16,
            forall|j: int| 0 <= j < i ==> a@[j] == b@[j],
        decreases 16 - i,
    {
        if a[i] != b[i] {
            return false;
        }
        i = i + 1;
    }
    assert(a@ =~= b@);
    assert(*a =~= *b);
    true
}

} // verus!
