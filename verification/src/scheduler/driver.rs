//! The decisions of the loop that drives a timer: how long to sleep, what to
//! run on waking, and which delays to accept. The loop itself sleeps,
//! measures how long it slept, and runs the actions that it is handed.

use crate::scheduler::laws::law_event_waits_until_due;
use crate::scheduler::laws::law_advancing_keeps_well_formed;
use crate::scheduler::laws::law_scheduling_keeps_well_formed;
use crate::scheduler::timer::Timer;
use crate::scheduler::timer::TimerView;
use vstd::prelude::*;

verus! {

/// The nanoseconds in a millisecond.
pub const NANOS_PER_MILLI: u64 = 1_000_000;

/// How the loop is to sleep.
#[derive(Clone, Copy, Debug, PartialEq, Eq, Structural)]
pub enum Park {
    /// Nothing is pending: sleep until somebody schedules an event.
    UntilSignalled,
    /// Sleep for this many nanoseconds, or until signalled.
    For(u64),
}

/// Why a delay was not accepted.
#[derive(Clone, Copy, Debug, PartialEq, Eq, Structural)]
pub enum DelayError {
    /// The delay is longer than a count of nanoseconds can tell.
    OutOfRange,
}

/// What a driver stands for: its timer, and the wait in nanoseconds that it
/// planned when it last woke, if events were pending then.
pub struct DriverView<F> {
    pub timer: TimerView<F>,
    pub wait: Option<nat>,
}

/// The sleep that serves a planned wait: the wait itself, or a sleep without
/// end where no wait is planned.
pub open spec fn park_for(wait: Option<nat>) -> Park {
    match wait {
        None => Park::UntilSignalled,
        Some(ns) => Park::For(ns as u64),
    }
}

/// By how much a sleep of `slept` nanoseconds overran the planned wait, if
/// one was planned and the sleep was not cut short.
pub open spec fn drift_of(wait: Option<nat>, slept: nat) -> Option<nat> {
    match wait {
        Some(ns) if ns <= slept => Some((slept - ns) as nat),
        _ => None,
    }
}

impl<F> DriverView<F> {
    /// The timer is well formed, and the planned wait is one that a sleep
    /// can be asked for.
    pub open spec fn wf(self) -> bool {
        &&& self.timer.wf()
        &&& self.wait matches Some(ns) ==> ns <= u64::MAX
    }

    /// The driver after an accepted delay of `millis` milliseconds: the
    /// action is scheduled, and the plan stays as it is.
    pub open spec fn delayed(self, millis: nat, action: F) -> DriverView<F> {
        DriverView {
            timer: self.timer.scheduled(millis * NANOS_PER_MILLI as nat, action),
            wait: self.wait,
        }
    }

    /// The driver after it has woken from a sleep of `slept` nanoseconds:
    /// the timer has advanced, and the wait is the time to the earliest
    /// event that is still pending.
    pub open spec fn woken(self, slept: nat) -> DriverView<F> {
        DriverView {
            timer: self.timer.advanced(slept),
            wait: self.timer.advanced(slept).earliest(),
        }
    }

    /// The sleep that the driver asks for.
    pub open spec fn park(self) -> Park {
        park_for(self.wait)
    }
}

/// Once the loop has woken and taken out what was due, it asks for a sleep
/// of exactly the time to the earliest pending deadline, and for a sleep
/// without end exactly when nothing is pending. So it neither sleeps past a
/// deadline that it knows nor wakes before it without a signal.
pub proof fn law_sleep_is_earliest_wait<F>(driver: DriverView<F>, slept: nat)
    requires
        driver.wf(),
    ensures
        driver.woken(slept).park() == Park::UntilSignalled <==> driver.woken(slept).timer.pending.len()
            == 0,
        driver.woken(slept).timer.pending.len() > 0 ==> driver.woken(slept).park() == Park::For(
            (driver.woken(slept).timer.pending[0].time - driver.woken(slept).timer.elapsed) as u64,
        ),
        forall|i: int|
            0 <= i < driver.woken(slept).timer.pending.len() ==> (driver.woken(slept).park() matches Park::For(
                ns,
            ) && driver.woken(slept).timer.elapsed + ns <= (
            #[trigger] driver.woken(slept).timer.pending[i]).time),
{
    let after = driver.timer.advanced(slept);
    law_advancing_keeps_well_formed(driver.timer, slept);
    if after.pending.len() > 0 {
        assert(after.elapsed <= after.pending[0].time);
    }
}

/// A delay that was made while the loop slept is honoured once the loop
/// wakes: if the sleep reached the deadline the action is among those to
/// run, and otherwise the next sleep ends no later than the deadline,
/// whatever wait had been planned before.
pub proof fn law_delay_is_honoured<F>(driver: DriverView<F>, millis: nat, action: F, slept: nat)
    requires
        driver.wf(),
        millis * NANOS_PER_MILLI <= u64::MAX,
    ensures
        millis * NANOS_PER_MILLI <= slept ==> driver.delayed(millis, action).timer.fired(
            slept,
        ).contains(action),
        millis * NANOS_PER_MILLI > slept ==> (driver.delayed(millis, action).woken(slept).park() matches Park::For(
            ns,
        ) && ns <= millis * NANOS_PER_MILLI - slept),
{
    let delay = millis * NANOS_PER_MILLI as nat;
    law_event_waits_until_due(driver.timer, delay, action, slept);
    if delay > slept {
        law_scheduling_keeps_well_formed(driver.timer, delay, action);
        law_sleep_is_earliest_wait(driver.delayed(millis, action), slept);
    }
}

/// The state of the loop that drives a timer. Time is in nanoseconds.
pub struct Driver<F> {
    timer: Timer<F>,
    wait: Option<u64>,
}

impl<F> View for Driver<F> {
    type V = DriverView<F>;

    closed spec fn view(&self) -> DriverView<F> {
        DriverView {
            timer: self.timer@,
            wait: match self.wait {
                Some(ns) => Some(ns as nat),
                None => None,
            },
        }
    }
}

impl<F> Driver<F> {
    /// The driver is well formed: its timer is.
    pub closed spec fn wf(&self) -> bool {
        self.timer.wf()
    }

    /// A well-formed driver stands for a well-formed view.
    pub proof fn lemma_view_wf(&self)
        requires
            self.wf(),
        ensures
            self@.wf(),
    {
        self.timer.lemma_view_wf();
    }

    /// A driver with a new timer and no wait planned.
    pub fn new() -> (driver: Driver<F>)
        ensures
            driver.wf(),
            driver@.timer == TimerView::<F>::fresh(),
            driver@.wait.is_none(),
    {
        Driver { timer: Timer::new(), wait: None }
    }

    /// Schedules `action` to run `millis` milliseconds from now. The delay is
    /// accepted exactly when it can be told in nanoseconds; a delay that
    /// cannot changes nothing. The wait that the loop has planned stays as it
    /// is: the caller signals the loop, which then wakes and plans anew.
    pub fn delay(&mut self, millis: u64, action: F) -> (accepted: Result<(), DelayError>)
        requires
            old(self).wf(),
        ensures
            final(self).wf(),
            accepted.is_ok() <==> millis * NANOS_PER_MILLI <= u64::MAX,
            accepted.is_ok() ==> final(self)@ == old(self)@.delayed(millis as nat, action),
            accepted.is_err() ==> accepted == Err::<(), DelayError>(DelayError::OutOfRange)
                && final(self)@ == old(self)@,
    {
        match millis.checked_mul(NANOS_PER_MILLI) {
            Some(nanos) => {
                self.timer.add(nanos, action);
                Ok(())
            },
            None => Err(DelayError::OutOfRange),
        }
    }

    /// The wait in nanoseconds that was planned when the loop last woke.
    pub fn planned_wait(&self) -> (wait: Option<u64>)
        ensures
            match wait {
                Some(ns) => self@.wait == Some(ns as nat),
                None => self@.wait.is_none(),
            },
    {
        self.wait
    }

    /// How the loop is to sleep now: for the planned wait, or until it is
    /// signalled where none is planned.
    pub fn park(&self) -> (park: Park)
        ensures
            park == self@.park(),
    {
        match self.wait {
            None => Park::UntilSignalled,
            Some(ns) => Park::For(ns),
        }
    }

    /// By how much a sleep of `slept` nanoseconds overran the planned wait.
    pub fn drift(&self, slept: u64) -> (drift: Option<u64>)
        ensures
            match drift {
                Some(ns) => drift_of(self@.wait, slept as nat) == Some(ns as nat),
                None => drift_of(self@.wait, slept as nat).is_none(),
            },
    {
        match self.wait {
            Some(ns) => {
                if ns <= slept {
                    Some(slept - ns)
                } else {
                    None
                }
            },
            None => None,
        }
    }

    /// The loop has woken after `slept` nanoseconds, by timeout or by a
    /// signal. Advances the timer by that time and returns the actions that
    /// are now due, in the order in which the loop is to run them, each
    /// once. Plans the next wait: the time to the earliest event that is
    /// still pending, or none.
    pub fn wake(&mut self, slept: u64) -> (fired: Vec<F>)
        requires
            old(self).wf(),
        ensures
            final(self).wf(),
            fired@ == old(self)@.timer.fired(slept as nat),
            final(self)@ == old(self)@.woken(slept as nat),
    {
        let fired = self.timer.advance(slept);
        self.wait = self.timer.earliest();
        fired
    }
}

} // verus!
