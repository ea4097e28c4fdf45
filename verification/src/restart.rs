//! What a writer does when a blob changed hands under it.
use vstd::prelude::*;

verus! {

/// How often a write starts over before it gives up.
pub const MAX_RESTARTS: u32 = 128;

/// After this many restarts other writers get a turn.
pub const RESTARTS_PER_YIELD: u32 = 16;

/// What to do after a stale crossing.
#[derive(Debug, Clone, Copy, PartialEq, Eq, Structural)]
pub enum AfterStale {
    /// Start over.
    Retry,
    /// Let others run, then start over.
    Yield,
    /// Report the stale crossing.
    GiveUp,
}

/// Whether `count` and `what` answer one more stale crossing after `restarts`.
pub open spec fn stale_answer(restarts: u32, count: u32, what: AfterStale) -> bool {
    &&& restarts < u32::MAX ==> count == restarts + 1
    &&& restarts == u32::MAX ==> count == u32::MAX
    &&& what is GiveUp <==> count >= MAX_RESTARTS
    &&& what is Yield <==> count < MAX_RESTARTS && count % RESTARTS_PER_YIELD == 0
}

/// Counts one more stale crossing and says what to do.
pub fn after_stale(restarts: u32) -> (r: (u32, AfterStale))
    ensures
        stale_answer(restarts, r.0, r.1),
{
    let restarts = restarts.saturating_add(1);
    if restarts >= MAX_RESTARTS {
        (restarts, AfterStale::GiveUp)
    } else if restarts % RESTARTS_PER_YIELD == 0 {
        (restarts, AfterStale::Yield)
    } else {
        (restarts, AfterStale::Retry)
    }
}

/// A write that meets one stale crossing after the other gives up at the 128th,
/// and lets others run after every 16th before that.
pub proof fn writes_give_up_in_the_end(counts: Seq<u32>, whats: Seq<AfterStale>, i: int)
    requires
        counts.len() == whats.len() + 1,
        counts[0] == 0,
        forall|j: int| 0 <= j < whats.len() ==> stale_answer(counts[j], counts[j + 1], #[trigger] whats[j]),
        0 <= i < whats.len() < u32::MAX,
    ensures
        counts[i + 1] == i + 1,
        whats[i] is GiveUp <==> i + 1 >= 128,
        whats[i] is Yield <==> i + 1 < 128 && (i + 1) % 16 == 0,
    decreases i,
{
    if i > 0 {
        writes_give_up_in_the_end(counts, whats, i - 1);
    }
    assert(stale_answer(counts[i], counts[i + 1], whats[i]));
}

} // verus!
