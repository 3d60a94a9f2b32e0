//! A scheduled action and the order in which scheduled actions are served.

use core::cmp::Ordering;
use vstd::prelude::*;
use vstd::std_specs::cmp::PartialEqSpecImpl;
use vstd::std_specs::cmp::PartialOrdSpecImpl;

verus! {

/// An action `cb` that becomes due once logical time has reached `time`.
pub struct Event<F> {
    pub time: u64,
    pub cb: F,
}

impl<F> Event<F> {
    /// Pairs an action with the time at which it is due.
    pub fn new(time: u64, cb: F) -> (event: Event<F>)
        ensures
            event.time == time,
            event.cb == cb,
    {
        Event { time: time, cb: cb }
    }

    /// The lag of an event that is served at time `actual`: how far past its
    /// scheduled time it runs. An event is never served early, so `actual`
    /// is at or after the scheduled time.
    pub fn fire(&self, actual: u64) -> (lag: u64)
        requires
            self.time <= actual,
        ensures
            lag == actual - self.time,
    {
        actual - self.time
    }
}

/// Two events are equal when they are due at the same time, whatever they do.
impl<F> PartialEq for Event<F> {
    fn eq(&self, other: &Event<F>) -> (same: bool) {
        self.time == other.time
    }
}

impl<F> PartialEqSpecImpl for Event<F> {
    open spec fn obeys_eq_spec() -> bool {
        true
    }

    open spec fn eq_spec(&self, other: &Event<F>) -> bool {
        self.time == other.time
    }
}

impl<F> Eq for Event<F> {}

/// Events are ordered against their times: the event that is due first is the
/// greatest, so that a structure that serves its greatest item serves the
/// earliest event.
impl<F> PartialOrd for Event<F> {
    fn partial_cmp(&self, other: &Event<F>) -> (order: Option<Ordering>) {
        if other.time < self.time {
            Some(Ordering::Less)
        } else if other.time == self.time {
            Some(Ordering::Equal)
        } else {
            Some(Ordering::Greater)
        }
    }
}

impl<F> PartialOrdSpecImpl for Event<F> {
    open spec fn obeys_partial_cmp_spec() -> bool {
        true
    }

    open spec fn partial_cmp_spec(&self, other: &Event<F>) -> Option<Ordering> {
        if other.time < self.time {
            Some(Ordering::Less)
        } else if other.time == self.time {
            Some(Ordering::Equal)
        } else {
            Some(Ordering::Greater)
        }
    }
}

} // verus!
