//! The timer: logical time, and the events that wait for it.

use crate::scheduler::agenda::actions;
use crate::scheduler::agenda::due;
use crate::scheduler::agenda::later;
use crate::scheduler::agenda::lemma_due_is_prefix;
use crate::scheduler::agenda::lemma_schedule_is_insert;
use crate::scheduler::agenda::lemma_shift_keeps;
use crate::scheduler::agenda::lemma_shift_parts;
use crate::scheduler::agenda::lemma_shift_schedule;
use crate::scheduler::agenda::lemma_shift_twice;
use crate::scheduler::agenda::schedule;
use crate::scheduler::agenda::shifted;
use crate::scheduler::agenda::time_ordered;
use crate::scheduler::agenda::Entry;
use crate::scheduler::event::Event;
use crate::scheduler::queue::EventQueue;
use vstd::prelude::*;

verus! {

/// What a timer stands for: the logical time that has passed since it was
/// made, which has no bound, and the pending events in the order in which
/// they will be served.
pub struct TimerView<F> {
    pub elapsed: nat,
    pub pending: Seq<Entry<F>>,
}

impl<F> TimerView<F> {
    /// The pending events stand in serving order, none of them lies in the
    /// past, and none is further away than a delay can reach.
    pub open spec fn wf(self) -> bool {
        &&& time_ordered(self.pending)
        &&& forall|i: int|
            0 <= i < self.pending.len() ==> self.elapsed <= (#[trigger] self.pending[i]).time
                <= self.elapsed + u64::MAX
    }

    /// A timer at time zero with nothing pending.
    pub open spec fn fresh() -> TimerView<F> {
        TimerView { elapsed: 0, pending: Seq::empty() }
    }

    /// The timer after `cb` has been scheduled to run `delay` from now.
    pub open spec fn scheduled(self, delay: nat, cb: F) -> TimerView<F> {
        TimerView {
            elapsed: self.elapsed,
            pending: schedule(self.pending, Entry { time: (self.elapsed + delay) as int, cb: cb }),
        }
    }

    /// The time left until the earliest pending event, if there is one.
    pub open spec fn earliest(self) -> Option<nat> {
        if self.pending.len() == 0 {
            None
        } else {
            Some((self.pending[0].time - self.elapsed) as nat)
        }
    }

    /// The actions that become due when `duration` more time passes, in
    /// serving order.
    pub open spec fn fired(self, duration: nat) -> Seq<F> {
        actions(due(self.pending, (self.elapsed + duration) as int))
    }

    /// The timer after `duration` more time has passed and the events that
    /// became due have been taken out.
    pub open spec fn advanced(self, duration: nat) -> TimerView<F> {
        TimerView {
            elapsed: self.elapsed + duration,
            pending: later(self.pending, (self.elapsed + duration) as int),
        }
    }
}

/// A timer controls the scheduling of events based on the passage of time.
/// Time is a unitless count, which it may be useful to read as milliseconds
/// or nanoseconds. Delays and durations are 64-bit; the time that has passed
/// in all has no bound, because the timer counts from an origin that it
/// moves forward when its 64-bit clock would run out.
pub struct Timer<F> {
    /// The pending events, with times on the clock.
    events: EventQueue<F>,
    /// What the clock reads: the time that has passed since the origin.
    elapsed: u64,
    /// The time that had passed when the clock last read zero.
    origin: Ghost<nat>,
}

impl<F> View for Timer<F> {
    type V = TimerView<F>;

    closed spec fn view(&self) -> TimerView<F> {
        TimerView {
            elapsed: self.origin@ + self.elapsed as nat,
            pending: shifted(self.events@, self.origin@ as int),
        }
    }
}

impl<F> Timer<F> {
    /// The timer is well formed: its queue is, and so is what it stands for.
    pub closed spec fn wf(&self) -> bool {
        self.events.wf() && self@.wf()
    }

    /// A well-formed timer stands for a well-formed view.
    pub proof fn lemma_view_wf(&self)
        requires
            self.wf(),
        ensures
            self@.wf(),
    {
    }

    /// A timer at time zero with no events.
    pub fn new() -> (timer: Timer<F>)
        ensures
            timer.wf(),
            timer@ == TimerView::<F>::fresh(),
    {
        let timer = Timer { events: EventQueue::new(), elapsed: 0, origin: Ghost(0) };
        proof {
            assert(timer@.pending =~= Seq::<Entry<F>>::empty());
        }
        timer
    }

    /// Sets the clock back to zero and moves the origin forward by what it
    /// read. What the timer stands for stays as it is.
    fn rewind(&mut self)
        requires
            old(self).wf(),
        ensures
            final(self).wf(),
            final(self)@ == old(self)@,
            final(self).elapsed == 0,
    {
        let ghost before = self.events@;
        let ghost origin = self.origin@ as int;
        proof {
            assert forall|i: int| 0 <= i < before.len() implies self.elapsed <= (
            #[trigger] before[i]).time by {
                assert(shifted(before, origin)[i].time == before[i].time + origin);
            }
        }
        self.events.rebase(self.elapsed);
        proof {
            lemma_shift_twice(before, -(self.elapsed as int), origin + self.elapsed);
        }
        self.origin = Ghost((origin + self.elapsed) as nat);
        self.elapsed = 0;
    }

    /// Schedules `cb` to run once `delay` more time has passed. The action is
    /// not run here.
    pub fn add(&mut self, delay: u64, cb: F)
        requires
            old(self).wf(),
        ensures
            final(self).wf(),
            final(self)@ == old(self)@.scheduled(delay as nat, cb),
    {
        if delay > u64::MAX - self.elapsed {
            self.rewind();
        }
        let ghost before = self.events@;
        let ghost origin = self.origin@ as int;
        let ghost entry = Entry { time: (self.elapsed + delay) as int, cb: cb };
        proof {
            lemma_shift_schedule(before, entry, origin);
            lemma_shift_keeps(before, origin);
            lemma_due_is_prefix(before, entry.time);
        }
        self.events.push(Event::new(delay + self.elapsed, cb));
        proof {
            let k = due(before, entry.time).len() as int;
            let after = self.events@;
            assert(after == before.insert(k, entry)) by {
                lemma_schedule_is_insert(before, entry);
            }
            assert forall|i: int| 0 <= i < self@.pending.len() implies self@.elapsed <= (
            #[trigger] self@.pending[i]).time <= self@.elapsed + u64::MAX by {
                assert(self@.pending[i].time == after[i].time + origin);
                if i < k {
                    assert(after[i] == before[i]);
                    assert(shifted(before, origin)[i].time == before[i].time + origin);
                } else if i > k {
                    assert(after[i] == before[i - 1]);
                    assert(shifted(before, origin)[i - 1].time == before[i - 1].time + origin);
                }
            }
        }
    }

    /// The time remaining to the earliest pending event, if there is one;
    /// `None` otherwise.
    pub fn earliest(&self) -> (wait: Option<u64>)
        requires
            self.wf(),
        ensures
            wait.is_none() <==> self@.pending.len() == 0,
            wait matches Some(w) ==> self@.earliest() == Some(w as nat),
            wait matches Some(w) ==> forall|i: int|
                0 <= i < self@.pending.len() ==> w <= (#[trigger] self@.pending[i]).time - self@.elapsed,
    {
        proof {
            if self.events@.len() > 0 {
                assert(self@.pending[0].time == self.events@[0].time + self.origin@);
            }
        }
        match self.events.peek() {
            Some(e) => Some(e.time - self.elapsed),
            None => None,
        }
    }

    /// Whether an event is pending that is due by now.
    fn has_due(&self) -> (yes: bool)
        requires
            self.events.wf(),
        ensures
            yes == (self.events@.len() > 0 && self.events@[0].time <= self.elapsed),
    {
        match self.events.peek() {
            Some(e) => e.time <= self.elapsed,
            None => false,
        }
    }

    /// Advances time by `duration` and expires all events that are due by
    /// then. Returns the actions of the expired events, in the order in which
    /// they were due; events of one time come in the order in which they were
    /// added.
    pub fn advance(&mut self, duration: u64) -> (fired: Vec<F>)
        requires
            old(self).wf(),
        ensures
            final(self).wf(),
            fired@ == old(self)@.fired(duration as nat),
            final(self)@ == old(self)@.advanced(duration as nat),
    {
        if duration > u64::MAX - self.elapsed {
            self.rewind();
        }
        let ghost before = self.events@;
        let ghost origin = self.origin@ as int;
        let ghost start = self.elapsed as int;
        self.elapsed = self.elapsed + duration;
        let ghost now = self.elapsed as int;
        let mut result: Vec<F> = Vec::new();
        proof {
            assert(before.skip(0) =~= before);
            assert(actions(before.take(0)) =~= result@);
        }
        while self.has_due()
            invariant
                self.events.wf(),
                self.elapsed == now,
                self.origin@ == origin,
                time_ordered(before),
                result@.len() <= before.len(),
                self.events@ == before.skip(result@.len() as int),
                result@ == actions(before.take(result@.len() as int)),
                forall|i: int| 0 <= i < result@.len() ==> (#[trigger] before[i]).time <= now,
            decreases self.events@.len(),
        {
            let ghost n = result@.len() as int;
            let next = self.events.pop();
            let event = next.unwrap();
            result.push(event.cb);
            proof {
                assert(before.skip(n).drop_first() =~= before.skip(n + 1));
                assert(before[n] == before.skip(n)[0]);
                assert(actions(before.take(n + 1)) =~= actions(before.take(n)).push(before[n].cb));
            }
        }
        proof {
            let n = result@.len() as int;
            lemma_due_is_prefix(before, now);
            let k = due(before, now).len() as int;
            if n < before.len() {
                assert(before.skip(n)[0] == before[n]);
            }
            if k < n {
                assert(before[k].time <= now);
            }
            if n < k {
                assert(before[n].time <= now);
            }
            assert(k == n);
            lemma_shift_parts(before, origin, now);
            lemma_shift_keeps(due(before, now), origin);
            lemma_shift_keeps(later(before, now), origin);
            let left = later(before, now);
            assert forall|i: int| 0 <= i < self@.pending.len() implies self@.elapsed <= (
            #[trigger] self@.pending[i]).time <= self@.elapsed + u64::MAX by {
                assert(self@.pending[i].time == left[i].time + origin);
                assert(left[i] == before[i + n]);
                assert(shifted(before, origin)[i + n].time == before[i + n].time + origin);
            }
        }
        result
    }
}

} // verus!
