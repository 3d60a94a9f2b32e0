//! The mathematical model of a timer's pending events: a sequence of
//! entries, each an action with the time at which it is due, in the order in
//! which they will be served. Time is unbounded here.

use crate::scheduler::event::Event;
use vstd::prelude::*;

verus! {

/// An action `cb` that is due at time `time`.
pub struct Entry<F> {
    pub time: int,
    pub cb: F,
}

/// What an event stands for.
pub open spec fn entry_of<F>(event: Event<F>) -> Entry<F> {
    Entry { time: event.time as int, cb: event.cb }
}

/// The same entries on a clock that reads `by` more.
pub open spec fn shifted<F>(events: Seq<Entry<F>>, by: int) -> Seq<Entry<F>> {
    events.map_values(|e: Entry<F>| Entry { time: e.time + by, cb: e.cb })
}

/// Events are in serving order: no event stands before one that is due
/// earlier.
pub open spec fn time_ordered<F>(events: Seq<Entry<F>>) -> bool {
    forall|i: int, j: int| 0 <= i <= j < events.len() ==> events[i].time <= events[j].time
}

/// The events that are due at time `now`, in the order in which they stand.
pub open spec fn due<F>(events: Seq<Entry<F>>, now: int) -> Seq<Entry<F>> {
    events.filter(|e: Entry<F>| e.time <= now)
}

/// The events that are not yet due at time `now`, in the order in which they
/// stand.
pub open spec fn later<F>(events: Seq<Entry<F>>, now: int) -> Seq<Entry<F>> {
    events.filter(|e: Entry<F>| e.time > now)
}

/// The pending events after `event` has been scheduled: it is served after
/// every event that is due no later than itself, those of its own time
/// included, and before every event that is due later.
pub open spec fn schedule<F>(events: Seq<Entry<F>>, event: Entry<F>) -> Seq<Entry<F>> {
    due(events, event.time as int).push(event) + later(events, event.time as int)
}

/// The actions of a sequence of events, in the same order.
pub open spec fn actions<F>(events: Seq<Entry<F>>) -> Seq<F> {
    events.map_values(|e: Entry<F>| e.cb)
}

/// In a time-ordered sequence the due events are a prefix and the events that
/// are not yet due are the rest.
pub proof fn lemma_due_is_prefix<F>(events: Seq<Entry<F>>, now: int)
    requires
        time_ordered(events),
    ensures
        due(events, now).len() <= events.len(),
        due(events, now) == events.take(due(events, now).len() as int),
        later(events, now) == events.skip(due(events, now).len() as int),
        forall|i: int| 0 <= i < due(events, now).len() ==> (#[trigger] events[i]).time <= now,
        forall|i: int| due(events, now).len() <= i < events.len() ==> (#[trigger] events[i]).time > now,
    decreases events.len(),
{
    reveal(Seq::filter);
    if events.len() > 0 {
        let rest = events.drop_last();
        let last = events.last();
        lemma_due_is_prefix(rest, now);
        let k = due(rest, now).len() as int;
        if last.time <= now {
            if k < rest.len() {
                assert(rest[k].time > now);
                assert(events[k].time <= last.time);
            }
            assert(rest.take(k) == rest);
            assert(due(events, now) == events);
            assert(events.take(events.len() as int) == events);
            assert(later(events, now) == events.skip(events.len() as int));
        } else {
            assert(due(events, now) == events.take(k));
            assert(later(events, now) == events.skip(k));
        }
    } else {
        assert(due(events, now) == events.take(0));
        assert(later(events, now) == events.skip(0));
    }
}

/// Scheduling keeps a time-ordered sequence time-ordered: the event enters
/// at the place behind the events that are due no later than it.
pub proof fn lemma_schedule_is_insert<F>(events: Seq<Entry<F>>, event: Entry<F>)
    requires
        time_ordered(events),
    ensures
        due(events, event.time as int).len() <= events.len(),
        schedule(events, event) == events.insert(due(events, event.time as int).len() as int, event),
        time_ordered(schedule(events, event)),
        schedule(events, event).to_multiset() == events.to_multiset().insert(event),
{
    let k = due(events, event.time as int).len() as int;
    lemma_due_is_prefix(events, event.time as int);
    assert(schedule(events, event) =~= events.insert(k, event));
    vstd::seq_lib::to_multiset_insert(events, k, event);
}

/// Nothing is lost and nothing is doubled when a time-ordered sequence is
/// split into what is due and what is not.
pub proof fn lemma_due_and_later<F>(events: Seq<Entry<F>>, now: int)
    requires
        time_ordered(events),
    ensures
        due(events, now) + later(events, now) == events,
{
    lemma_due_is_prefix(events, now);
    let k = due(events, now).len() as int;
    assert(events.take(k) + events.skip(k) =~= events);
}

/// What is due and what is not yet due are time-ordered themselves.
pub proof fn lemma_parts_are_ordered<F>(events: Seq<Entry<F>>, now: int)
    requires
        time_ordered(events),
    ensures
        time_ordered(due(events, now)),
        time_ordered(later(events, now)),
{
    lemma_due_is_prefix(events, now);
}

/// Taking out what is due at `first` and then what is due at a later time
/// `second` takes out, in the same order, what is due at `second`.
pub proof fn lemma_due_in_two_steps<F>(events: Seq<Entry<F>>, first: int, second: int)
    requires
        time_ordered(events),
        first <= second,
    ensures
        due(events, first) + due(later(events, first), second) == due(events, second),
        later(later(events, first), second) == later(events, second),
{
    lemma_due_is_prefix(events, first);
    lemma_due_is_prefix(events, second);
    lemma_parts_are_ordered(events, first);
    let rest = later(events, first);
    lemma_due_is_prefix(rest, second);
    let a = due(events, first).len() as int;
    let b = due(events, second).len() as int;
    let m = due(rest, second).len() as int;
    if a + m < b {
        assert(rest[m] == events[a + m]);
    }
    if b < a + m {
        if b < a {
            assert(events[b].time <= first);
        } else {
            assert(rest[b - a] == events[b]);
        }
    }
    assert(a + m == b);
    assert(events.take(a) + events.skip(a).take(m) =~= events.take(b));
    assert(events.skip(a).skip(m) =~= events.skip(b));
}

/// A place that has only due events before it and none from it on is where
/// the due events end.
pub proof fn lemma_prefix_is_due<F>(events: Seq<Entry<F>>, now: int, k: int)
    requires
        0 <= k <= events.len(),
        forall|i: int| 0 <= i < k ==> (#[trigger] events[i]).time <= now,
        forall|i: int| k <= i < events.len() ==> (#[trigger] events[i]).time > now,
    ensures
        due(events, now) == events.take(k),
        later(events, now) == events.skip(k),
    decreases events.len(),
{
    reveal(Seq::filter);
    if events.len() > 0 {
        let rest = events.drop_last();
        if k == events.len() {
            lemma_prefix_is_due(rest, now, k - 1);
            assert(rest.take(k - 1).push(events.last()) =~= events.take(k));
            assert(rest.skip(k - 1) =~= events.skip(k));
        } else {
            lemma_prefix_is_due(rest, now, k);
            assert(rest.take(k) =~= events.take(k));
            assert(rest.skip(k).push(events.last()) =~= events.skip(k));
        }
    } else {
        assert(events.take(k) =~= events);
        assert(events.skip(k) =~= events);
    }
}

/// Where the due events end once an event has entered at place `k`.
proof fn lemma_insert_moves_end<F>(events: Seq<Entry<F>>, event: Entry<F>, k: int, n: int, now: int)
    requires
        0 <= k <= events.len(),
        0 <= n <= events.len(),
        forall|i: int| 0 <= i < k ==> (#[trigger] events[i]).time <= event.time,
        forall|i: int| k <= i < events.len() ==> (#[trigger] events[i]).time > event.time,
        forall|i: int| 0 <= i < n ==> (#[trigger] events[i]).time <= now,
        forall|i: int| n <= i < events.len() ==> (#[trigger] events[i]).time > now,
    ensures
        event.time <= now ==> k <= n && due(events.insert(k, event), now) == events.take(n).insert(
            k,
            event,
        ) && later(events.insert(k, event), now) == events.skip(n),
        event.time > now ==> n <= k && due(events.insert(k, event), now) == events.take(n) && later(
            events.insert(k, event),
            now,
        ) == events.skip(n).insert(k - n, event),
{
    let after = events.insert(k, event);
    if event.time <= now {
        if n < k {
            assert(events[n].time <= event.time);
        }
        assert forall|i: int| 0 <= i < n + 1 implies (#[trigger] after[i]).time <= now by {
            if i < k {
                assert(after[i] == events[i]);
            } else if i > k {
                assert(after[i] == events[i - 1]);
            }
        }
        assert forall|i: int| n + 1 <= i < after.len() implies (#[trigger] after[i]).time > now by {
            assert(after[i] == events[i - 1]);
        }
        lemma_prefix_is_due(after, now, n + 1);
        assert(after.take(n + 1) =~= events.take(n).insert(k, event));
        assert(after.skip(n + 1) =~= events.skip(n));
    } else {
        if k < n {
            assert(events[k].time > event.time);
        }
        assert forall|i: int| 0 <= i < n implies (#[trigger] after[i]).time <= now by {
            assert(after[i] == events[i]);
        }
        assert forall|i: int| n <= i < after.len() implies (#[trigger] after[i]).time > now by {
            if i < k {
                assert(after[i] == events[i]);
            } else if i > k {
                assert(after[i] == events[i - 1]);
            }
        }
        lemma_prefix_is_due(after, now, n);
        assert(after.take(n) =~= events.take(n));
        assert(after.skip(n) =~= events.skip(n).insert(k - n, event));
    }
}

/// What is due after an event has been scheduled: the event enters what is
/// due if it is due itself, and what is not yet due otherwise.
pub proof fn lemma_due_of_schedule<F>(events: Seq<Entry<F>>, event: Entry<F>, now: int)
    requires
        time_ordered(events),
    ensures
        event.time <= now ==> due(schedule(events, event), now) == schedule(due(events, now), event)
            && later(schedule(events, event), now) == later(events, now),
        event.time > now ==> due(schedule(events, event), now) == due(events, now) && later(
            schedule(events, event),
            now,
        ) == schedule(later(events, now), event),
{
    let k = due(events, event.time as int).len() as int;
    let n = due(events, now).len() as int;
    lemma_due_is_prefix(events, event.time as int);
    lemma_due_is_prefix(events, now);
    lemma_insert_moves_end(events, event, k, n, now);
    assert(schedule(events, event) == events.insert(k, event)) by {
        lemma_schedule_is_insert(events, event);
    }
    if event.time <= now {
        let part = events.take(n);
        assert(schedule(part, event) == part.insert(k, event)) by {
            assert forall|i: int| 0 <= i < k implies (#[trigger] part[i]).time <= event.time by {
                assert(part[i] == events[i]);
            }
            assert forall|i: int| k <= i < part.len() implies (#[trigger] part[i]).time
                > event.time by {
                assert(part[i] == events[i]);
            }
            lemma_prefix_is_due(part, event.time as int, k);
            assert(part.take(k).push(event) + part.skip(k) =~= part.insert(k, event));
        }
    } else {
        let part = events.skip(n);
        assert(schedule(part, event) == part.insert(k - n, event)) by {
            assert forall|i: int| 0 <= i < k - n implies (#[trigger] part[i]).time
                <= event.time by {
                assert(part[i] == events[i + n]);
            }
            assert forall|i: int| k - n <= i < part.len() implies (#[trigger] part[i]).time
                > event.time by {
                assert(part[i] == events[i + n]);
            }
            lemma_prefix_is_due(part, event.time as int, k - n);
            assert(part.take(k - n).push(event) + part.skip(k - n) =~= part.insert(k - n, event));
        }
    }
}

/// What is due, and what is not, on a clock that reads `by` more.
pub proof fn lemma_shift_parts<F>(events: Seq<Entry<F>>, by: int, now: int)
    ensures
        due(shifted(events, by), now + by) == shifted(due(events, now), by),
        later(shifted(events, by), now + by) == shifted(later(events, now), by),
    decreases events.len(),
{
    reveal(Seq::filter);
    if events.len() > 0 {
        let rest = events.drop_last();
        lemma_shift_parts(rest, by, now);
        assert(shifted(events, by).drop_last() =~= shifted(rest, by));
        assert(shifted(due(rest, now).push(events.last()), by) =~= shifted(due(rest, now), by).push(
            shifted(events, by).last(),
        ));
        assert(shifted(later(rest, now).push(events.last()), by) =~= shifted(
            later(rest, now),
            by,
        ).push(shifted(events, by).last()));
    } else {
        assert(shifted(events, by) =~= events);
    }
}

/// Scheduling on a clock that reads `by` more.
pub proof fn lemma_shift_schedule<F>(events: Seq<Entry<F>>, event: Entry<F>, by: int)
    ensures
        schedule(shifted(events, by), Entry { time: event.time + by, cb: event.cb }) == shifted(
            schedule(events, event),
            by,
        ),
{
    lemma_shift_parts(events, by, event.time);
    assert(shifted(due(events, event.time).push(event) + later(events, event.time), by) =~= shifted(
        due(events, event.time),
        by,
    ).push(Entry { time: event.time + by, cb: event.cb }) + shifted(later(events, event.time), by));
}

/// On a clock that reads `by` more the entries keep their order and their
/// actions.
pub proof fn lemma_shift_keeps<F>(events: Seq<Entry<F>>, by: int)
    ensures
        time_ordered(events) ==> time_ordered(shifted(events, by)),
        actions(shifted(events, by)) == actions(events),
        shifted(events, by).len() == events.len(),
{
    assert(actions(shifted(events, by)) =~= actions(events));
}

/// Reading the clock `first` more and then `second` more is reading it more
/// by the sum, and reading it no more changes nothing.
pub proof fn lemma_shift_twice<F>(events: Seq<Entry<F>>, first: int, second: int)
    ensures
        shifted(shifted(events, first), second) == shifted(events, first + second),
        shifted(events, 0) == events,
{
    assert(shifted(shifted(events, first), second) =~= shifted(events, first + second));
    assert(shifted(events, 0) =~= events);
}

/// The actions of two sequences of events, one after the other.
pub proof fn lemma_actions_of_both<F>(first: Seq<Entry<F>>, second: Seq<Entry<F>>)
    ensures
        actions(first + second) == actions(first) + actions(second),
{
    assert(actions(first + second) =~= actions(first) + actions(second));
}

} // verus!
