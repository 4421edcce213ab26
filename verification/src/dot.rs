//! A `Dot` is a single causal event: an actor paired with the counter
//! of the event it originated.

use vstd::prelude::*;

verus! {

/// One causal event: the `counter`-th event originated by `actor`.
///
/// A counter of 0 means "no events yet" and is never stored inside a
/// [`crate::VClock`].
#[derive(Clone, Copy, PartialEq, Eq, Structural, Debug, Hash)]
pub struct Dot {
    /// The replica that originated the event.
    pub actor: u64,
    /// How many events that replica has originated, this one included.
    pub counter: u64,
}

impl Dot {
    /// Build the dot for the `counter`-th event of `actor`.
    pub fn new(actor: u64, counter: u64) -> (d: Dot)
        ensures
            d.actor == actor,
            d.counter == counter,
    {
        Dot { actor, counter }
    }

    /// The next event of the same actor.
    pub fn inc(self) -> (d: Dot)
        requires
            self.counter < u64::MAX,
        ensures
            d.actor == self.actor,
            d.counter == self.counter + 1,
    {
        Dot { actor: self.actor, counter: self.counter + 1 }
    }
}

} // verus!
