//! Why a blob was rebuilt.
use vstd::prelude::*;

verus! {

/// Why a compaction or a split fired.
#[derive(Debug, Clone, Copy, PartialEq, Eq, Structural)]
pub enum CompactReason {
    /// Too many deleted records; they are dropped.
    SplitTombstone,
    /// Too much abandoned space; what is left is packed.
    SplitGapSpace,
    /// The blob is full; a subtree moves to another one.
    OutOfBlobFrame,
}

} // verus!
