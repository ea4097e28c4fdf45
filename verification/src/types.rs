//! Outcomes and conditions of the engine's operations.
use vstd::prelude::*;

use crate::art::{Art, Route};
use crate::frame::BlobFrame;
use crate::layout::BlobGuid;

verus! {

/// Where a lookup in one blob ended.
#[derive(Debug)]
pub enum LookupResult<'a> {
    /// A live record.
    Found(LookupHit<'a>),
    /// No live record has the key.
    NotFound,
    /// The key continues in another blob.
    Crossing(BlobNodeCrossing),
}

/// A record found in a blob.
#[derive(Debug, Clone, Copy)]
pub struct LookupHit<'a> {
    pub value: &'a [u8],
    pub seq: u64,
}

/// A blob to continue in, and how many key bytes lead to it.
#[derive(Debug, Clone, Copy)]
pub struct BlobNodeCrossing {
    pub child_guid: BlobGuid,
    pub child_depth: usize,
}

/// The route that a lookup result reports.
pub open spec fn route_of(r: LookupResult) -> Route {
    match r {
        LookupResult::Found(hit) => Route::Found { value: hit.value@, seq: hit.seq },
        LookupResult::NotFound => Route::NotFound,
        LookupResult::Crossing(c) => Route::Crossing { guid: c.child_guid, depth: c.child_depth as int },
    }
}

/// What an insert did.
#[derive(Debug, Clone, Copy)]
pub struct InsertOutcome {
    /// The root blob changed.
    pub root_dirty: bool,
    /// The record was written.
    pub mutated: bool,
}

/// What an erase did.
#[derive(Debug, Clone, Copy)]
pub struct EraseOutcome {
    /// The root blob changed.
    pub root_dirty: bool,
    /// A live record was deleted.
    pub mutated: bool,
}

/// A blob built from a subtree of another.
#[derive(Debug)]
pub struct MakeBlobOutcome {
    pub buf: BlobFrame,
}

/// The sequence that wrote a record, to compare and set by.
#[derive(Debug, Clone, Copy, PartialEq, Eq, Structural)]
pub struct RecordVersion {
    pub seq: u64,
}

impl RecordVersion {
    pub fn new(seq: u64) -> (r: RecordVersion)
        ensures
            r.seq == seq,
    {
        RecordVersion { seq }
    }
}

/// When an insert may write.
#[derive(Debug, Clone, Copy, PartialEq, Eq, Structural)]
pub enum InsertCondition {
    /// Always.
    Always,
    /// Only if the key has no live record.
    IfAbsent,
    /// Only if the key's live record was written by this sequence.
    IfVersion(u64),
}

/// When an erase may delete.
#[derive(Debug, Clone, Copy, PartialEq, Eq, Structural)]
pub enum EraseCondition {
    /// Always.
    Always,
    /// Only if the key's live record was written by this sequence.
    IfVersion(u64),
}

/// Whether `condition` lets an insert write over `route`.
pub open spec fn writes(route: Route, condition: InsertCondition) -> bool {
    match condition {
        InsertCondition::Always => true,
        InsertCondition::IfAbsent => !(route is Found),
        InsertCondition::IfVersion(v) => route matches Route::Found { seq, .. } && seq == v,
    }
}

/// Whether `condition` lets an erase delete the record at `route`.
pub open spec fn deletes(route: Route, condition: EraseCondition) -> bool {
    route matches Route::Found { seq, .. } && match condition {
        EraseCondition::Always => true,
        EraseCondition::IfVersion(v) => seq == v,
    }
}

/// A blob node that a write has to follow.
#[derive(Debug, Clone, Copy)]
pub struct BlobCrossing {
    pub child_guid: BlobGuid,
    pub child_depth: usize,
    /// The blob node.
    pub parent_slot: u16,
}

/// A finished single-blob insert.
pub struct InsertReturn {
    /// What the parent must refer to now.
    pub slot_after: u16,
    pub mutated: bool,
    /// The subtree afterwards.
    pub tree: Ghost<Art>,
}

/// How far a single-blob insert got.
pub enum InsertStep {
    Done(InsertReturn),
    Crossing(BlobCrossing),
}

} // verus!
