//! What holds of every timer, stated over what a timer stands for.

use crate::scheduler::agenda::actions;
use crate::scheduler::agenda::due;
use crate::scheduler::agenda::later;
use crate::scheduler::agenda::lemma_actions_of_both;
use crate::scheduler::agenda::lemma_due_and_later;
use crate::scheduler::agenda::lemma_due_in_two_steps;
use crate::scheduler::agenda::lemma_due_is_prefix;
use crate::scheduler::agenda::lemma_due_of_schedule;
use crate::scheduler::agenda::lemma_parts_are_ordered;
use crate::scheduler::agenda::lemma_schedule_is_insert;
use crate::scheduler::agenda::schedule;
use crate::scheduler::agenda::time_ordered;
use crate::scheduler::agenda::Entry;
use crate::scheduler::timer::TimerView;
use vstd::prelude::*;

verus! {

/// A request to run an action after a delay.
pub struct Request<F> {
    pub delay: nat,
    pub cb: F,
}

/// The timer after the requests have been scheduled one after the other.
pub open spec fn scheduled_all<F>(timer: TimerView<F>, requests: Seq<Request<F>>) -> TimerView<F>
    decreases requests.len(),
{
    if requests.len() == 0 {
        timer
    } else {
        scheduled_all(timer, requests.drop_last()).scheduled(
            requests.last().delay,
            requests.last().cb,
        )
    }
}

/// The events that requests made at time `now` ask for, in the order of the
/// requests.
pub open spec fn requested<F>(now: nat, requests: Seq<Request<F>>) -> Seq<Entry<F>> {
    requests.map_values(|r: Request<F>| Entry { time: (now + r.delay) as int, cb: r.cb })
}

/// The requests whose delay is over once `duration` has passed.
pub open spec fn over_by<F>(requests: Seq<Request<F>>, duration: nat) -> Seq<Request<F>> {
    requests.filter(|r: Request<F>| r.delay <= duration)
}

/// Every delay that the requests ask for is one that a timer takes.
pub open spec fn in_range<F>(requests: Seq<Request<F>>) -> bool {
    forall|i: int| 0 <= i < requests.len() ==> (#[trigger] requests[i]).delay <= u64::MAX
}

/// A new timer is well formed, and scheduling keeps a timer well formed:
/// the pending events stand in serving order, and none of them is overdue.
pub proof fn law_scheduling_keeps_well_formed<F>(timer: TimerView<F>, delay: nat, cb: F)
    requires
        timer.wf(),
        delay <= u64::MAX,
    ensures
        TimerView::<F>::fresh().wf(),
        timer.scheduled(delay, cb).wf(),
{
    let event = Entry { time: (timer.elapsed + delay) as int, cb: cb };
    lemma_schedule_is_insert(timer.pending, event);
    let k = due(timer.pending, event.time as int).len() as int;
    let after = timer.pending.insert(k, event);
    assert forall|i: int| 0 <= i < after.len() implies timer.elapsed <= (#[trigger] after[i]).time by {
        if i < k {
            assert(after[i] == timer.pending[i]);
        } else if i > k {
            assert(after[i] == timer.pending[i - 1]);
        }
    }
}

/// Advancing keeps a timer well formed, and every event that it leaves
/// pending is due later than the new time.
pub proof fn law_advancing_keeps_well_formed<F>(timer: TimerView<F>, duration: nat)
    requires
        timer.wf(),
    ensures
        timer.advanced(duration).wf(),
        forall|i: int|
            0 <= i < timer.advanced(duration).pending.len() ==> timer.elapsed + duration < (
            #[trigger] timer.advanced(duration).pending[i]).time,
{
    let now = (timer.elapsed + duration) as int;
    lemma_due_is_prefix(timer.pending, now);
    lemma_parts_are_ordered(timer.pending, now);
    let n = due(timer.pending, now).len() as int;
    let rest = timer.pending.skip(n);
    assert forall|i: int| 0 <= i < rest.len() implies now < (#[trigger] rest[i]).time by {
        assert(rest[i] == timer.pending[i + n]);
    }
}

/// Where a scheduled event stands among the pending ones: behind every event
/// that is due no later than it, so behind those that were scheduled before
/// it for the same time, and before every event that is due later.
pub proof fn law_schedule_places_event<F>(timer: TimerView<F>, delay: nat, cb: F)
    requires
        timer.wf(),
    ensures
        ({
            let event = Entry { time: (timer.elapsed + delay) as int, cb: cb };
            let place = due(timer.pending, (timer.elapsed + delay) as int).len() as int;
            &&& place <= timer.pending.len()
            &&& timer.scheduled(delay, cb).pending == timer.pending.insert(place, event)
            &&& forall|i: int| 0 <= i < place ==> (#[trigger] timer.pending[i]).time <= event.time
            &&& forall|i: int|
                place <= i < timer.pending.len() ==> (#[trigger] timer.pending[i]).time > event.time
        }),
{
    let event = Entry { time: (timer.elapsed + delay) as int, cb: cb };
    lemma_place_of_event(timer.pending, event);
}

/// Advancing loses no event and doubles none: the events that it takes out,
/// followed by those that it leaves, are the events that were pending, in
/// their order.
pub proof fn law_advance_loses_nothing<F>(timer: TimerView<F>, duration: nat)
    requires
        timer.wf(),
    ensures
        timer.fired(duration) + actions(timer.advanced(duration).pending) == actions(timer.pending),
        due(timer.pending, (timer.elapsed + duration) as int) + timer.advanced(duration).pending
            == timer.pending,
{
    let now = (timer.elapsed + duration) as int;
    lemma_due_and_later(timer.pending, now);
    lemma_actions_of_both(due(timer.pending, now), later(timer.pending, now));
}

/// Advancing takes out exactly the events that are due by the new time, an
/// event whose time is the new time included, and leaves exactly those that
/// are due later.
pub proof fn law_advance_takes_what_is_due<F>(timer: TimerView<F>, duration: nat)
    requires
        timer.wf(),
    ensures
        forall|i: int|
            0 <= i < due(timer.pending, (timer.elapsed + duration) as int).len() ==> (#[trigger] due(
                timer.pending,
                (timer.elapsed + duration) as int,
            )[i]).time <= timer.elapsed + duration,
        forall|i: int|
            0 <= i < timer.advanced(duration).pending.len() ==> (
            #[trigger] timer.advanced(duration).pending[i]).time > timer.elapsed + duration,
        forall|i: int|
            0 <= i < timer.pending.len() ==> ((#[trigger] timer.pending[i]).time <= timer.elapsed
                + duration <==> i < due(timer.pending, (timer.elapsed + duration) as int).len()),
{
    let now = (timer.elapsed + duration) as int;
    lemma_due_is_prefix(timer.pending, now);
    let n = due(timer.pending, now).len() as int;
    assert forall|i: int| 0 <= i < due(timer.pending, now).len() implies (#[trigger] due(
        timer.pending,
        now,
    )[i]).time <= now by {
        assert(due(timer.pending, now)[i] == timer.pending[i]);
    }
    assert forall|i: int| 0 <= i < later(timer.pending, now).len() implies (#[trigger] later(
        timer.pending,
        now,
    )[i]).time > now by {
        assert(later(timer.pending, now)[i] == timer.pending[i + n]);
    }
}

/// The earliest wait is the least time left over all pending events, and
/// there is none exactly when nothing is pending.
pub proof fn law_earliest_is_least<F>(timer: TimerView<F>)
    requires
        timer.wf(),
    ensures
        timer.earliest().is_none() <==> timer.pending.len() == 0,
        timer.earliest() matches Some(wait) ==> {
            &&& exists|i: int|
                0 <= i < timer.pending.len() && wait == (#[trigger] timer.pending[i]).time
                    - timer.elapsed
            &&& forall|i: int|
                0 <= i < timer.pending.len() ==> wait <= (#[trigger] timer.pending[i]).time
                    - timer.elapsed
        },
{
    if timer.pending.len() > 0 {
        assert(timer.pending[0].time >= timer.elapsed);
    }
}

/// Advancing in two steps takes out the same events, in the same order, as
/// advancing once by the sum, and leaves the same timer.
pub proof fn law_advance_in_two_steps<F>(timer: TimerView<F>, first: nat, second: nat)
    requires
        timer.wf(),
    ensures
        timer.fired(first) + timer.advanced(first).fired(second) == timer.fired(first + second),
        timer.advanced(first).advanced(second) == timer.advanced(first + second),
{
    let a = (timer.elapsed + first) as int;
    let b = (timer.elapsed + first + second) as int;
    lemma_due_in_two_steps(timer.pending, a, b);
    lemma_actions_of_both(due(timer.pending, a), due(later(timer.pending, a), b));
}

/// An event that is scheduled with no delay is due at once: the next advance
/// takes it out, whatever its duration, zero included. It is served after the
/// events that were already due and before all others.
pub proof fn law_zero_delay_is_due<F>(timer: TimerView<F>, cb: F, duration: nat)
    requires
        timer.wf(),
    ensures
        timer.scheduled(0, cb).fired(duration) == timer.fired(0).push(cb) + timer.advanced(0).fired(
            duration,
        ),
        timer.scheduled(0, cb).fired(duration).contains(cb),
        timer.scheduled(0, cb).advanced(duration) == timer.advanced(duration),
{
    let event = Entry { time: timer.elapsed as int, cb: cb };
    let here = timer.elapsed as int;
    let now = (timer.elapsed + duration) as int;
    let head = due(timer.pending, here);
    let tail = later(timer.pending, here);
    lemma_due_of_schedule(timer.pending, event, now);
    lemma_due_in_two_steps(timer.pending, here, now);
    lemma_parts_are_ordered(timer.pending, now);
    // what is due by `now` enters a part that holds what was due at once
    let part = due(timer.pending, now);
    assert(schedule(part, event) == head.push(event) + due(tail, now)) by {
        lemma_due_split_of_part(timer.pending, here, now);
    }
    assert(actions(head.push(event) + due(tail, now)) =~= actions(head).push(cb) + actions(
        due(tail, now),
    ));
    let fired = timer.scheduled(0, cb).fired(duration);
    assert(fired[head.len() as int] == cb);
}

/// A scheduled event is neither lost nor served early: an advance that
/// reaches its deadline returns its action, and a shorter one leaves it
/// pending, with an earliest wait that ends no later than its deadline.
pub proof fn law_event_waits_until_due<F>(timer: TimerView<F>, delay: nat, cb: F, duration: nat)
    requires
        timer.wf(),
    ensures
        delay <= duration ==> timer.scheduled(delay, cb).fired(duration).contains(cb),
        delay > duration ==> timer.scheduled(delay, cb).advanced(duration).pending.contains(
            Entry { time: (timer.elapsed + delay) as int, cb: cb },
        ),
        delay > duration ==> (timer.scheduled(delay, cb).advanced(duration).earliest() matches Some(
            wait,
        ) && wait <= delay - duration),
{
    let event = Entry { time: (timer.elapsed + delay) as int, cb: cb };
    let now = (timer.elapsed + duration) as int;
    lemma_due_of_schedule(timer.pending, event, now);
    lemma_parts_are_ordered(timer.pending, now);
    if delay <= duration {
        let part = due(timer.pending, now);
        lemma_holds_scheduled(part, event);
        let served = schedule(part, event);
        let place = choose|i: int| 0 <= i < served.len() && served[i] == event;
        assert(actions(served)[place] == cb);
    } else {
        let part = later(timer.pending, now);
        lemma_holds_scheduled(part, event);
        let left = schedule(part, event);
        let place = choose|i: int| 0 <= i < left.len() && left[i] == event;
        assert(left[0].time <= left[place].time);
    }
}

/// A time-ordered sequence in which an event has been scheduled holds that
/// event and is time-ordered.
proof fn lemma_holds_scheduled<F>(events: Seq<Entry<F>>, event: Entry<F>)
    requires
        time_ordered(events),
    ensures
        time_ordered(schedule(events, event)),
        schedule(events, event).contains(event),
{
    lemma_schedule_is_insert(events, event);
    let place = due(events, event.time as int).len() as int;
    assert(events.insert(place, event)[place] == event);
}

/// Where an event stands once it has been scheduled among time-ordered
/// events.
proof fn lemma_place_of_event<F>(events: Seq<Entry<F>>, event: Entry<F>)
    requires
        time_ordered(events),
    ensures
        due(events, event.time as int).len() <= events.len(),
        schedule(events, event) == events.insert(due(events, event.time as int).len() as int, event),
        forall|i: int|
            0 <= i < due(events, event.time as int).len() ==> (#[trigger] events[i]).time
                <= event.time,
        forall|i: int|
            due(events, event.time as int).len() <= i < events.len() ==> (#[trigger] events[i]).time
                > event.time,
{
    assert(schedule(events, event) == events.insert(
        due(events, event.time as int).len() as int,
        event,
    )) by {
        lemma_schedule_is_insert(events, event);
    }
    lemma_due_is_prefix(events, event.time as int);
}

/// Within what is due at `second`, what is due at an earlier time `first`
/// and what is not are as in the whole sequence.
proof fn lemma_due_split_of_part<F>(events: Seq<Entry<F>>, first: int, second: int)
    requires
        time_ordered(events),
        first <= second,
    ensures
        due(due(events, second), first) == due(events, first),
        later(due(events, second), first) == due(later(events, first), second),
{
    let part = due(events, second);
    lemma_parts_are_ordered(events, second);
    lemma_parts_are_ordered(events, first);
    lemma_due_is_prefix(events, first);
    lemma_due_is_prefix(events, second);
    lemma_due_is_prefix(part, first);
    let rest = later(events, first);
    lemma_due_is_prefix(rest, second);
    let a = due(events, first).len() as int;
    let b = due(events, second).len() as int;
    let c = due(part, first).len() as int;
    let m = due(rest, second).len() as int;
    if a > b {
        assert(events[b].time <= first);
    }
    if c < a {
        assert(part[c] == events[c]);
    }
    if a < c {
        assert(part[a] == events[a]);
    }
    assert(c == a);
    if a + m < b {
        assert(rest[m] == events[a + m]);
    }
    if b < a + m {
        assert(rest[b - a] == events[b]);
    }
    assert(a + m == b);
    assert(part.take(c) =~= events.take(a));
    assert(part.skip(c) =~= rest.take(m));
}

/// An empty sequence holds no events.
proof fn lemma_none_in_empty<F>(events: Seq<Entry<F>>)
    requires
        events.len() == 0,
    ensures
        events.to_multiset() == vstd::multiset::Multiset::<Entry<F>>::empty(),
{
    broadcast use vstd::multiset::group_multiset_axioms;

    vstd::seq_lib::to_multiset_len(events);
    assert(events.to_multiset() =~= vstd::multiset::Multiset::<Entry<F>>::empty());
}

/// After any number of requests, a single advance returns exactly the
/// actions of the events that are due by then, ordered by their deadlines:
/// the events taken out are time-ordered, and they are, as a collection, the
/// events that were pending before and are due, together with the events of
/// the requests whose delay is over. On a timer with nothing pending, these
/// are exactly the events of the requests whose delay is over.
pub proof fn law_single_advance<F>(start: TimerView<F>, requests: Seq<Request<F>>, duration: nat)
    requires
        start.wf(),
        in_range(requests),
    ensures
        scheduled_all(start, requests).wf(),
        scheduled_all(start, requests).elapsed == start.elapsed,
        scheduled_all(start, requests).fired(duration) == actions(
            due(scheduled_all(start, requests).pending, (start.elapsed + duration) as int),
        ),
        time_ordered(due(scheduled_all(start, requests).pending, (start.elapsed + duration) as int)),
        due(scheduled_all(start, requests).pending, (start.elapsed + duration) as int).to_multiset()
            == due(start.pending, (start.elapsed + duration) as int).to_multiset().add(
            requested(start.elapsed, over_by(requests, duration)).to_multiset(),
        ),
        start.pending.len() == 0 ==> due(
            scheduled_all(start, requests).pending,
            (start.elapsed + duration) as int,
        ).to_multiset() == requested(start.elapsed, over_by(requests, duration)).to_multiset(),
    decreases requests.len(),
{
    broadcast use vstd::multiset::group_multiset_axioms;

    reveal(Seq::filter);
    let now = (start.elapsed + duration) as int;
    let asked = requested(start.elapsed, over_by(requests, duration));
    let served = due(scheduled_all(start, requests).pending, now);
    if requests.len() == 0 {
        lemma_parts_are_ordered(start.pending, now);
        assert(asked =~= Seq::<Entry<F>>::empty());
        lemma_none_in_empty(asked);
        assert(served.to_multiset() =~= served.to_multiset().add(asked.to_multiset()));
    } else {
        let before = requests.drop_last();
        let last = requests.last();
        law_single_advance(start, before, duration);
        let timer = scheduled_all(start, before);
        let event = Entry { time: (timer.elapsed + last.delay) as int, cb: last.cb };
        let asked_before = requested(start.elapsed, over_by(before, duration));
        law_scheduling_keeps_well_formed(timer, last.delay, last.cb);
        lemma_due_of_schedule(timer.pending, event, now);
        lemma_parts_are_ordered(timer.scheduled(last.delay, last.cb).pending, now);
        if last.delay <= duration {
            lemma_parts_are_ordered(timer.pending, now);
            lemma_schedule_is_insert(due(timer.pending, now), event);
            assert(asked =~= asked_before.push(event));
            vstd::seq_lib::to_multiset_build(asked_before, event);
            assert(served.to_multiset() =~= due(start.pending, now).to_multiset().add(
                asked.to_multiset(),
            ));
        }
    }
    if start.pending.len() == 0 {
        lemma_due_is_prefix(start.pending, now);
        lemma_none_in_empty(due(start.pending, now));
        assert(served.to_multiset() =~= asked.to_multiset());
    }
}

} // verus!
