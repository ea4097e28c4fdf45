//! Looking a key up in one blob.
use vstd::prelude::*;

use crate::art::{rep, slot_of, step, Art};
use crate::errors::{Error, Result};
use crate::frame::{rooted, tree_at, BlobFrame};
use crate::insert::lemma_rep_root;
use crate::key::{fingerprint_fits, SearchKey};
use crate::layout::{Leaf, Node};
use crate::node::inner_find_child;
use crate::types::{route_of, BlobNodeCrossing, LookupHit, LookupResult};

verus! {

/// Checks the leaf that a descent ended at.
pub fn leaf_check<'a>(leaf: &'a Leaf, key: SearchKey) -> (r: LookupResult<'a>)
    requires
        fingerprint_fits(leaf.key_fp, leaf.key@),
    ensures
        r is Found <==> !leaf.tombstone && leaf.key@ == key@,
        r matches LookupResult::Found(hit) ==> hit.value@ == leaf.value@ && hit.seq == leaf.seq,
        !(r is Found) ==> r is NotFound,
{
    if leaf.tombstone {
        return LookupResult::NotFound;
    }
    // A fingerprint that disagrees settles it without a look at the key.
    if !key.may_match(leaf.key_fp) {
        return LookupResult::NotFound;
    }
    if !key.eq_slice(&leaf.key) {
        return LookupResult::NotFound;
    }
    LookupResult::Found(LookupHit { value: &leaf.value, seq: leaf.seq })
}

/// Follows `key` from the node at `slot`.
pub fn descend<'a>(frame: &'a BlobFrame, slot: u16, key: SearchKey, depth: usize, Ghost(t): Ghost<Art>) -> (r: Result<
    LookupResult<'a>,
>)
    requires
        rep(frame.cells@, t),
        slot_of(t) == slot,
        depth <= key@.len() <= usize::MAX,
    ensures
        r matches Ok(x) && route_of(x) == step(t, key@, depth as int),
        r matches Ok(LookupResult::Crossing(c)) ==> depth <= c.child_depth <= key@.len(),
    decreases t,
{
    proof {
        lemma_rep_root(frame.cells@, t);
    }
    match frame.node_at(slot) {
        Some(Node::EmptyRoot) => Ok(LookupResult::NotFound),
        Some(Node::Leaf(l)) => Ok(leaf_check(l, key)),
        Some(Node::Prefix(p)) => {
            if !key.range_eq(depth, &p.bytes) {
                return Ok(LookupResult::NotFound);
            }
            descend(frame, p.child, key, depth + p.bytes.len(), Ghost(*t->child))
        },
        Some(Node::Blob(b)) => {
            if !key.range_eq(depth, &b.bytes) {
                return Ok(LookupResult::NotFound);
            }
            Ok(LookupResult::Crossing(BlobNodeCrossing {
                child_guid: b.child_blob_guid,
                child_depth: depth + b.bytes.len(),
            }))
        },
        Some(n) => {
            let byte: u8 = match key.byte_at(depth) {
                Some(b) => b,
                None => {
                    return Ok(LookupResult::NotFound);
                },
            };
            let found: Option<u16> = inner_find_child(n, byte);
            assert(t->kids[byte as int] is Some <==> found is Some);
            match found {
                Some(child) => descend(frame, child, key, depth + 1, Ghost(t->kids[byte as int]->0)),
                None => Ok(LookupResult::NotFound),
            }
        },
        None => Err(Error::NodeCorrupt { context: "descend: undecodable node" }),
    }
}

/// Where `key` leads in a blob, `depth` of its bytes having been consumed on
/// the way to it.
pub fn lookup_at<'a>(frame: &'a BlobFrame, key: SearchKey, depth: usize) -> (r: Result<LookupResult<'a>>)
    requires
        rooted(frame.cells@, frame.header.root_slot),
        depth <= key@.len() <= usize::MAX,
    ensures
        r matches Ok(x) && route_of(x) == frame.route(key@, depth as int),
        r matches Ok(LookupResult::Crossing(c)) ==> depth <= c.child_depth <= key@.len(),
{
    descend(frame, frame.header.root_slot, key, depth, Ghost(frame.tree()))
}

/// Where the exact bytes `key` lead from the node at `start_slot`.
pub fn lookup<'a>(frame: &'a BlobFrame, start_slot: u16, key: &[u8]) -> (r: Result<LookupResult<'a>>)
    requires
        rooted(frame.cells@, start_slot),
    ensures
        r matches Ok(x) && route_of(x) == step(tree_at(frame.cells@, start_slot), key@, 0),
{
    assert(key@.len() == key.len());
    descend(frame, start_slot, SearchKey::exact(key), 0, Ghost(tree_at(frame.cells@, start_slot)))
}

} // verus!
