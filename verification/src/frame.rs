//! A blob: its header and its arena of node bodies.
use vstd::prelude::*;

use crate::art::{at, blob_nodes, dead, holds, rep, slot_of, step, Art, Route};
use crate::errors::{AllocError, Error, Result};
use crate::extent::{end_by, extents_ok};
use crate::layout::{
    node_size, size_of_node, type_of_node, BlobGuid, Node, NodeType, DATA_AREA_START, EMPTY_ROOT_SIZE,
    MAX_SLOTS, PAGE_SIZE,
};

verus! {

/// Bytes at the end of a blob that only a blob node may take, so that a full
/// blob can always be split.
pub const SPILLOVER_RESERVATION: u32 = 128;

/// What a blob records about itself.
#[derive(Debug, Clone, Copy)]
pub struct BlobHeader {
    /// The blob's name.
    pub blob_guid: BlobGuid,
    /// The root node.
    pub root_slot: u16,
    /// Nodes placed so far, abandoned ones counted.
    pub num_slots: u32,
    /// Offset of the first byte that was never allocated.
    pub space_used: u32,
    /// Bytes of abandoned nodes.
    pub dead_bytes: u32,
    /// Deleted leaves that are still in the tree.
    pub tombstone_leaf_cnt: u32,
    /// Blob nodes placed and not merged back.
    pub num_ext_blobs: u32,
    /// Times the blob has been rebuilt.
    pub compact_times: u32,
    /// Epoch the blob was created in.
    pub created_epoch: u64,
    /// Offset of the internal nodes' arena in the routed layout.
    pub routing_off: u32,
    /// Bytes of internal nodes in the routed layout; zero otherwise.
    pub routing_len: u32,
    /// Offset of the first leaf in the routed layout.
    pub leaf_region_start: u32,
    /// Set when a rebuild meant to be routed did not fit.
    pub routing_unfit: bool,
    /// Offset of the filter over the keys in the routed layout.
    pub bloom_off: u32,
    /// Bytes of the filter; zero without one.
    pub bloom_len: u32,
    /// Filter bits for each key; zero without a filter.
    pub bloom_bits_per_key: u32,
}

/// A blob.
#[derive(Debug)]
pub struct BlobFrame {
    pub header: BlobHeader,
    /// Node bodies, each at the number its offset encodes to.
    pub cells: Vec<Option<Node>>,
    /// End of the span that bump allocation may use.
    pub arena_end: u32,
}

/// Node number of byte offset `off`.
pub open spec fn unit_of(off: int) -> int {
    (off - DATA_AREA_START) / 8 + 1
}

/// Byte offset of node number `slot`.
pub open spec fn off_of(slot: int) -> int {
    DATA_AREA_START + (slot - 1) * 8
}

/// Whether what is at number `slot` ends within the blob.
pub open spec fn ends_within(slot: int, n: Option<Node>) -> bool {
    n matches Some(n) ==> off_of(slot) + node_size(n) <= PAGE_SIZE
}

/// Whether `n`'s lengths fit the fields of a leaf header.
pub open spec fn leaf_fits(n: Node) -> bool {
    n matches Node::Leaf(l) ==> l.key@.len() <= 65535 && l.value@.len() <= 65535
}

/// End of the span that a node may be placed in.
pub open spec fn room_end(arena_end: int, is_blob: bool) -> int {
    if is_blob || arena_end < PAGE_SIZE {
        arena_end
    } else {
        PAGE_SIZE - SPILLOVER_RESERVATION
    }
}

/// The tree that the arena spells out from node `slot`.
pub open spec fn tree_at(c: Seq<Option<Node>>, slot: u16) -> Art {
    choose|t: Art| #[trigger] rep(c, t) && slot_of(t) == slot
}

/// Whether the arena spells out a tree from node `slot`.
pub open spec fn rooted(c: Seq<Option<Node>>, slot: u16) -> bool {
    rep(c, tree_at(c, slot)) && slot_of(tree_at(c, slot)) == slot
}

/// The tree that the arena spells out from a node is the only one.
pub proof fn lemma_tree_at(c: Seq<Option<Node>>, t: Art)
    requires
        rep(c, t),
    ensures
        tree_at(c, slot_of(t) as u16) == t,
        rooted(c, slot_of(t) as u16),
{
    crate::art::lemma_rep_unique(c, t, tree_at(c, slot_of(t) as u16));
}

impl BlobFrame {
    /// Whether the header agrees with the arena: everything from
    /// `space_used` to the arena's end is free, every node ends within the
    /// blob, no two overlap, and there are no more than were placed.
    pub open spec fn ok(&self) -> bool {
        &&& DATA_AREA_START <= self.header.space_used <= PAGE_SIZE
        &&& self.header.space_used % 8 == 0
        &&& self.arena_end <= PAGE_SIZE
        &&& self.arena_end % 8 == 0
        &&& self.header.num_slots <= MAX_SLOTS
        &&& self.cells@.len() <= 56833
        &&& at(self.cells@, 0) is None
        &&& forall|i: int|
            unit_of(self.header.space_used as int) <= i < unit_of(self.arena_end as int) ==> (#[trigger] at(self.cells@, i)) is None
        &&& forall|i: int| ends_within(i, #[trigger] at(self.cells@, i))
        &&& extents_ok(self.cells@, self.header.space_used as int, self.header.num_slots as int)
    }

    /// Whether `t` is the blob's tree, with keys below `path`.
    pub open spec fn has_tree(&self, t: Art, path: Seq<u8>) -> bool {
        &&& slot_of(t) == self.header.root_slot
        &&& holds(self.cells@, t, path)
        &&& dead(t) == self.header.tombstone_leaf_cnt
        &&& blob_nodes(t) <= self.header.num_ext_blobs
    }

    /// Whether the blob is a well-formed tree of keys below `path`.
    pub open spec fn wf(&self, path: Seq<u8>) -> bool {
        &&& self.ok()
        &&& self.arena_end == PAGE_SIZE
        &&& self.has_tree(self.tree(), path)
    }

    /// Whether the blob is a well-formed tree, wherever its keys begin.
    pub open spec fn sound(&self) -> bool {
        &&& self.ok()
        &&& self.arena_end == PAGE_SIZE
        &&& slot_of(self.tree()) == self.header.root_slot
        &&& rep(self.cells@, self.tree())
        &&& crate::art::sep(self.tree())
        &&& dead(self.tree()) == self.header.tombstone_leaf_cnt
    }

    /// The blob's tree.
    pub open spec fn tree(&self) -> Art {
        tree_at(self.cells@, self.header.root_slot)
    }

    /// Where `key` leads when `d` of its bytes have been consumed.
    pub open spec fn route(&self, key: Seq<u8>, d: int) -> Route {
        step(self.tree(), key, d)
    }

    /// Whether a node of `size` bytes can be placed.
    pub open spec fn has_room(&self, size: int, is_blob: bool) -> bool {
        &&& self.header.num_slots < MAX_SLOTS
        &&& self.header.space_used + size <= room_end(self.arena_end as int, is_blob)
    }

    /// A tree that the arena spells out from the root is the blob's tree.
    pub proof fn lemma_tree(&self, t: Art)
        requires
            rep(self.cells@, t),
            slot_of(t) == self.header.root_slot,
        ensures
            self.tree() == t,
    {
        crate::art::lemma_rep_unique(self.cells@, t, self.tree());
    }

    /// A blob whose nodes all stand and whose root did not move keeps its
    /// tree.
    pub proof fn lemma_kept(f0: BlobFrame, f: BlobFrame, path: Seq<u8>)
        requires
            f0.wf(path),
            f.ok(),
            f.arena_end == f0.arena_end,
            f.header.root_slot == f0.header.root_slot,
            f.header.tombstone_leaf_cnt == f0.header.tombstone_leaf_cnt,
            f.header.num_ext_blobs >= f0.header.num_ext_blobs,
            forall|s: int| (#[trigger] at(f0.cells@, s)) is Some ==> at(f.cells@, s) == at(f0.cells@, s),
        ensures
            f.wf(path),
            f.tree() == f0.tree(),
    {
        let t = f0.tree();
        assert forall|s: int| #[trigger] crate::art::owns(t, s) implies at(f.cells@, s) == at(f0.cells@, s) by {
            crate::art::lemma_owns_present(f0.cells@, t, s);
        }
        crate::art::lemma_rep_frame(f0.cells@, f.cells@, t);
        f.lemma_tree(t);
    }

    /// A blob with an empty tree.
    pub fn init(blob_guid: BlobGuid) -> (r: BlobFrame)
        ensures
            r.ok(),
            forall|path: Seq<u8>| r.wf(path),
            r.tree() == (Art::Empty { slot: 1 }),
            r.header.blob_guid == blob_guid,
            r.header.root_slot == 1,
            r.header.num_slots == 1,
            r.header.space_used == DATA_AREA_START + EMPTY_ROOT_SIZE,
            r.header.dead_bytes == 0,
            r.header.tombstone_leaf_cnt == 0,
            r.header.num_ext_blobs == 0,
            r.header.compact_times == 0,
            r.header.created_epoch == 0,
            r.header.routing_off == 0,
            r.header.routing_len == 0,
            r.header.leaf_region_start == 0,
            !r.header.routing_unfit,
            r.header.bloom_off == 0 && r.header.bloom_len == 0 && r.header.bloom_bits_per_key == 0,
            r.cells@.len() == 2,
            r.cells@[0] is None,
            r.cells@[1] == Some(Node::EmptyRoot),
            r.arena_end == PAGE_SIZE,
    {
        let mut cells: Vec<Option<Node>> = Vec::new();
        cells.push(None);
        cells.push(Some(Node::EmptyRoot));
        let header = BlobHeader {
            blob_guid,
            root_slot: 1,
            num_slots: 1,
            space_used: DATA_AREA_START + EMPTY_ROOT_SIZE,
            dead_bytes: 0,
            tombstone_leaf_cnt: 0,
            num_ext_blobs: 0,
            compact_times: 0,
            created_epoch: 0,
            routing_off: 0,
            routing_len: 0,
            leaf_region_start: 0,
            routing_unfit: false,
            bloom_off: 0,
            bloom_len: 0,
            bloom_bits_per_key: 0,
        };
        let r = BlobFrame { header, cells, arena_end: PAGE_SIZE };
        proof {
            let t = Art::Empty { slot: 1 };
            let c0 = seq![None::<Node>];
            crate::extent::lemma_extents_none(c0, DATA_AREA_START as int);
            crate::extent::lemma_extents_next(c0, r.cells@, DATA_AREA_START as int, PAGE_SIZE as int, 0, Node::EmptyRoot);
            assert(rep(r.cells@, t));
            r.lemma_tree(t);
        }
        r
    }

    /// A blob with nothing in it, not even an empty tree, to copy a tree into.
    pub fn blank(blob_guid: BlobGuid) -> (r: BlobFrame)
        ensures
            r.ok(),
            r.header == (BlobHeader {
                blob_guid,
                root_slot: 0,
                num_slots: 0,
                space_used: DATA_AREA_START,
                dead_bytes: 0,
                tombstone_leaf_cnt: 0,
                num_ext_blobs: 0,
                compact_times: 0,
                created_epoch: 0,
                routing_off: 0,
                routing_len: 0,
                leaf_region_start: 0,
                routing_unfit: false,
                bloom_off: 0,
                bloom_len: 0,
                bloom_bits_per_key: 0,
            }),
            r.cells@.len() == 1,
            r.cells@[0] is None,
            r.arena_end == PAGE_SIZE,
    {
        let mut cells: Vec<Option<Node>> = Vec::new();
        cells.push(None);
        let header = BlobHeader {
            blob_guid,
            root_slot: 0,
            num_slots: 0,
            space_used: DATA_AREA_START,
            dead_bytes: 0,
            tombstone_leaf_cnt: 0,
            num_ext_blobs: 0,
            compact_times: 0,
            created_epoch: 0,
            routing_off: 0,
            routing_len: 0,
            leaf_region_start: 0,
            routing_unfit: false,
            bloom_off: 0,
            bloom_len: 0,
            bloom_bits_per_key: 0,
        };
        proof {
            crate::extent::lemma_extents_none(cells@, DATA_AREA_START as int);
        }
        BlobFrame { header, cells, arena_end: PAGE_SIZE }
    }

    /// What the blob records about itself.
    pub fn header(&self) -> (r: &BlobHeader)
        ensures
            *r == self.header,
    {
        &self.header
    }

    /// The node that `slot` names, if there is one.
    pub fn node_at(&self, slot: u16) -> (r: Option<&Node>)
        ensures
            match r {
                Some(n) => at(self.cells@, slot as int) == Some(*n),
                None => at(self.cells@, slot as int) is None,
            },
    {
        if (slot as usize) < self.cells.len() {
            match &self.cells[slot as usize] {
                Some(n) => Some(n),
                None => None,
            }
        } else {
            None
        }
    }

    /// The kind of the node that `slot` names, if there is one.
    pub fn ntype_of(&self, slot: u16) -> (r: Option<NodeType>)
        ensures
            r == (match at(self.cells@, slot as int) {
                Some(n) => Some(crate::layout::node_type(n)),
                None => None,
            }),
    {
        match self.node_at(slot) {
            Some(n) => Some(type_of_node(n)),
            None => None,
        }
    }

    /// Bytes that a node of the given kind may still take.
    pub fn available(&self, is_blob: bool) -> (r: u32)
        requires
            self.ok(),
        ensures
            r == (if room_end(self.arena_end as int, is_blob) >= self.header.space_used {
                room_end(self.arena_end as int, is_blob) - self.header.space_used
            } else {
                0
            }),
    {
        let end: u32 = if is_blob || self.arena_end < PAGE_SIZE {
            self.arena_end
        } else {
            PAGE_SIZE - SPILLOVER_RESERVATION
        };
        end.saturating_sub(self.header.space_used)
    }

    /// Puts a node at number `slot`.
    fn put(&mut self, slot: usize, node: Node)
        requires
            0 < slot < 56833,
            old(self).cells@.len() <= 56833,
        ensures
            final(self).header == old(self).header,
            final(self).arena_end == old(self).arena_end,
            final(self).cells@.len() <= 56833,
            at(final(self).cells@, slot as int) == Some(node),
            forall|i: int| i != slot ==> #[trigger] at(final(self).cells@, i) == at(old(self).cells@, i),
    {
        while self.cells.len() <= slot
            invariant
                0 < slot < 56833,
                self.cells@.len() <= 56833,
                self.header == old(self).header,
                self.arena_end == old(self).arena_end,
                forall|i: int| #[trigger] at(self.cells@, i) == at(old(self).cells@, i),
            decreases slot + 1 - self.cells@.len(),
        {
            let ghost before = self.cells@;
            self.cells.push(None);
            assert forall|i: int| #[trigger] at(self.cells@, i) == at(old(self).cells@, i) by {
                assert(at(before, i) == at(old(self).cells@, i));
            }
        }
        let ghost before = self.cells@;
        self.cells[slot] = Some(node);
        assert forall|i: int| i != slot implies #[trigger] at(self.cells@, i) == at(old(self).cells@, i) by {
            assert(at(before, i) == at(old(self).cells@, i));
        }
    }

    /// Places a node at the end of the used space.
    pub fn alloc_node(&mut self, node: Node) -> (r: Result<u16>)
        requires
            old(self).ok(),
            leaf_fits(node),
        ensures
            match r {
                Ok(s) => {
                    &&& old(self).has_room(node_size(node), node is Blob)
                    &&& final(self).ok()
                    &&& final(self).arena_end == old(self).arena_end
                    &&& s == unit_of(old(self).header.space_used as int)
                    &&& s != 0
                    &&& at(old(self).cells@, s as int) is None
                    &&& at(final(self).cells@, s as int) == Some(node)
                    &&& forall|i: int| i != s ==> #[trigger] at(final(self).cells@, i) == at(old(self).cells@, i)
                    &&& final(self).header == (BlobHeader {
                        space_used: (old(self).header.space_used + node_size(node)) as u32,
                        num_slots: (old(self).header.num_slots + 1) as u32,
                        num_ext_blobs: (if node is Blob && old(self).header.num_ext_blobs < u32::MAX {
                            old(self).header.num_ext_blobs + 1
                        } else {
                            old(self).header.num_ext_blobs as int
                        }) as u32,
                        ..old(self).header
                    })
                },
                Err(e) => {
                    &&& *final(self) == *old(self)
                    &&& !old(self).has_room(node_size(node), node is Blob)
                    &&& e matches Error::Alloc(a)
                    &&& a is OutOfSlots <==> old(self).header.num_slots >= MAX_SLOTS
                },
            },
    {
        let size: u32 = size_of_node(&node);
        let is_blob: bool = matches!(node, Node::Blob(_));
        if self.header.num_slots >= MAX_SLOTS {
            return Err(Error::Alloc(AllocError::OutOfSlots));
        }
        let available: u32 = self.available(is_blob);
        if size > available {
            return Err(Error::Alloc(AllocError::OutOfSpace { requested: size, available }));
        }
        let slot: u32 = (self.header.space_used - DATA_AREA_START) / 8 + 1;
        proof {
            assert(at(self.cells@, slot as int) is None);
        }
        self.put(slot as usize, node);
        self.header.space_used = self.header.space_used + size;
        self.header.num_slots = self.header.num_slots + 1;
        if is_blob {
            self.header.num_ext_blobs = self.header.num_ext_blobs.saturating_add(1);
        }
        proof {
            let f0 = *old(self);
            crate::extent::lemma_extents_next(
                f0.cells@,
                self.cells@,
                f0.header.space_used as int,
                f0.arena_end as int,
                f0.header.num_slots as int,
                node,
            );
        }
        Ok(slot as u16)
    }

    /// Places a node at byte offset `off`, outside the bump-allocated span.
    pub fn alloc_leaf_at(&mut self, off: u32, node: Node) -> (r: Result<u16>)
        requires
            old(self).ok(),
            leaf_fits(node),
            old(self).arena_end <= off,
            DATA_AREA_START <= off <= PAGE_SIZE,
            off % 8 == 0,
            old(self).header.space_used <= off,
            end_by(old(self).cells@, off as int),
            !(node is Blob),
        ensures
            match r {
                Ok(s) => {
                    &&& off + node_size(node) <= PAGE_SIZE - SPILLOVER_RESERVATION
                    &&& old(self).header.num_slots < MAX_SLOTS
                    &&& final(self).ok()
                    &&& final(self).arena_end == old(self).arena_end
                    &&& s == unit_of(off as int)
                    &&& s != 0
                    &&& at(final(self).cells@, s as int) == Some(node)
                    &&& forall|i: int| i != s ==> #[trigger] at(final(self).cells@, i) == at(old(self).cells@, i)
                    &&& end_by(final(self).cells@, off + node_size(node))
                    &&& final(self).header == (BlobHeader {
                        num_slots: (old(self).header.num_slots + 1) as u32,
                        ..old(self).header
                    })
                },
                Err(e) => {
                    &&& *final(self) == *old(self)
                    &&& !(off + node_size(node) <= PAGE_SIZE - SPILLOVER_RESERVATION && old(self).header.num_slots < MAX_SLOTS)
                    &&& e is Alloc
                },
            },
    {
        let size: u32 = size_of_node(&node);
        if self.header.num_slots >= MAX_SLOTS {
            return Err(Error::Alloc(AllocError::OutOfSlots));
        }
        if off + size > PAGE_SIZE - SPILLOVER_RESERVATION {
            return Err(Error::Alloc(AllocError::OutOfSpace { requested: size, available: PAGE_SIZE - off }));
        }
        let slot: u32 = (off - DATA_AREA_START) / 8 + 1;
        self.put(slot as usize, node);
        self.header.num_slots = self.header.num_slots + 1;
        proof {
            let f0 = *old(self);
            crate::extent::lemma_extents_beyond(
                f0.cells@,
                self.cells@,
                f0.header.space_used as int,
                off as int,
                f0.header.num_slots as int,
                node,
            );
        }
        Ok(slot as u16)
    }

    /// Counts the bytes of a node that no longer belongs to the tree.
    pub fn note_abandoned(&mut self, slot: u16)
        requires
            at(old(self).cells@, slot as int) matches Some(n) && leaf_fits(n),
        ensures
            final(self).cells@ == old(self).cells@,
            final(self).arena_end == old(self).arena_end,
            final(self).header == (BlobHeader { dead_bytes: final(self).header.dead_bytes, ..old(self).header }),
            ({
                let sum = old(self).header.dead_bytes + node_size(at(old(self).cells@, slot as int)->0);
                final(self).header.dead_bytes == (if sum <= u32::MAX { sum } else { u32::MAX as int })
            }),
    {
        if let Some(n) = self.node_at(slot) {
            let size: u32 = size_of_node(n);
            self.header.dead_bytes = self.header.dead_bytes.saturating_add(size);
        }
    }

    /// Replaces the node at `slot`.
    pub fn set_node(&mut self, slot: u16, node: Node)
        requires
            at(old(self).cells@, slot as int) is Some,
        ensures
            final(self).cells@ == old(self).cells@.update(slot as int, Some(node)),
            final(self).arena_end == old(self).arena_end,
            final(self).header == old(self).header,
    {
        self.cells[slot as usize] = Some(node);
    }
}

} // verus!
