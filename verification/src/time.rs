//! Timers that run with the ticks of the server.

use vstd::prelude::*;
use core::time::Duration;

verus! {

/// A state that keeps time. The server lets the time that a tick took pass
/// over the shared state of every active session.
pub trait AsStopwatch: Sized {
    /// The state after `delta` has passed.
    spec fn ticked(self, delta: Duration) -> Self;

    fn pause(&mut self);

    fn unpause(&mut self);

    fn reset(&mut self);

    fn tick(&mut self, delta: Duration)
        ensures
            *final(self) == old(self).ticked(delta),
    ;
}

/// Lets `delta` pass over each of `stopwatches`.
pub fn tick<T: AsStopwatch>(stopwatches: &mut Vec<T>, delta: Duration)
    ensures
        final(stopwatches)@.len() == old(stopwatches)@.len(),
        forall|i: int|
            0 <= i < old(stopwatches)@.len() ==> #[trigger] final(stopwatches)@[i] == old(stopwatches)@[i].ticked(delta),
{
    let mut i: usize = 0;
    while i < stopwatches.len()
        invariant
            i <= stopwatches.len(),
            stopwatches@.len() == old(stopwatches)@.len(),
            forall|j: int| 0 <= j < i ==> #[trigger] stopwatches@[j] == old(stopwatches)@[j].ticked(delta),
            forall|j: int| i <= j < stopwatches@.len() ==> #[trigger] stopwatches@[j] == old(stopwatches)@[j],
        decreases stopwatches.len() - i,
    {
        stopwatches[i].tick(delta);
        i = i + 1;
    }
}

} // verus!
