//! The retry discipline of mirrored allocation. Creating a mirrored mapping
//! has an inherent race window: between freeing one half of the address
//! range and remapping into it, another actor may claim the range. The
//! platform backend runs an attempt loop around its mapping calls; this
//! module decides, from each attempt's outcome, how that loop continues, so
//! the bound and the failure taxonomy are fixed here.

use vstd::prelude::*;
use crate::allocator::AllocError;

verus! {

/// Maximum number of failed mirroring attempts before the race is declared
/// lost for good.
pub const MAX_NO_ALLOC_ITERS: usize = 3;

/// The outcome of one mirroring attempt, as the backend observed it.
#[derive(Clone, Copy, Debug, PartialEq, Eq, Structural)]
pub enum MapEvent {
    /// Both halves map the same memory: the region is ready.
    Mirrored,
    /// Another actor claimed the freed half before the remap; everything
    /// acquired in this attempt was released again.
    RaceLost,
    /// The operating system refused to provide memory at all.
    OsRefused,
}

/// What the attempt loop does next.
#[derive(Clone, Copy, Debug, PartialEq, Eq, Structural)]
pub enum MapAction {
    /// Hand the mirrored region out.
    Done,
    /// Run one more attempt.
    Retry,
    /// Give up with this error.
    Fail(AllocError),
}

/// Decides how the attempt loop continues after an attempt with outcome
/// `event`, `no_iters` attempts having already been lost to the race: a
/// mirrored region is done; an out-of-memory refusal is the recoverable
/// `AllocationFailure`; a lost race is retried until the bound, then it is
/// the fatal `MirrorRaceExhausted`.
pub fn next_step(no_iters: usize, event: MapEvent) -> (r: MapAction)
    ensures
        event is Mirrored ==> r is Done,
        event is OsRefused ==> r == MapAction::Fail(AllocError::AllocationFailure),
        event is RaceLost && no_iters < MAX_NO_ALLOC_ITERS ==> r is Retry,
        event is RaceLost && no_iters >= MAX_NO_ALLOC_ITERS ==> r == MapAction::Fail(
            AllocError::MirrorRaceExhausted,
        ),
{
    match event {
        MapEvent::Mirrored => MapAction::Done,
        MapEvent::OsRefused => MapAction::Fail(AllocError::AllocationFailure),
        MapEvent::RaceLost => {
            if no_iters < MAX_NO_ALLOC_ITERS {
                MapAction::Retry
            } else {
                MapAction::Fail(AllocError::MirrorRaceExhausted)
            }
        },
    }
}

} // verus!
