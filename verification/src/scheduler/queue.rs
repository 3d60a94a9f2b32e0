//! A priority queue of events that serves the earliest event first and, among
//! events of one time, the one that entered first. It is a binary heap in a
//! vector.

use crate::scheduler::agenda::due;
use crate::scheduler::agenda::entry_of;
use crate::scheduler::agenda::shifted;
use crate::scheduler::agenda::Entry;
use crate::scheduler::agenda::lemma_due_is_prefix;
use crate::scheduler::agenda::lemma_shift_twice;
use crate::scheduler::agenda::schedule;
use crate::scheduler::agenda::time_ordered;
use crate::scheduler::event::Event;
use vstd::prelude::*;

verus! {

/// An event in the queue, with the ticket that it drew when it entered.
struct Queued<F> {
    event: Event<F>,
    ticket: u64,
}

/// `a` is served before `b`: it is due earlier, or at the same time and it
/// entered earlier.
spec fn served_before<F>(a: Queued<F>, b: Queued<F>) -> bool {
    a.event.time < b.event.time || (a.event.time == b.event.time && a.ticket < b.ticket)
}

/// The place above place `i` in the heap.
spec fn parent(i: int) -> int {
    (i - 1) / 2
}

/// No slot is served before the slot above it.
spec fn heap_ordered<F>(slots: Seq<Queued<F>>) -> bool {
    forall|i: int| 0 < i < slots.len() ==> !served_before(#[trigger] slots[i], slots[parent(i)])
}

/// Each slot is served before every slot that stands after it.
spec fn serving_order<F>(order: Seq<Queued<F>>) -> bool {
    forall|i: int, j: int| 0 <= i < j < order.len() ==> served_before(order[i], order[j])
}

/// What a sequence of slots stands for.
spec fn events_of<F>(order: Seq<Queued<F>>) -> Seq<Entry<F>> {
    order.map_values(|q: Queued<F>| entry_of(q.event))
}

/// Every time is one that an event can hold.
pub open spec fn in_clock_range<F>(events: Seq<Entry<F>>) -> bool {
    forall|i: int| 0 <= i < events.len() ==> 0 <= (#[trigger] events[i]).time <= u64::MAX
}

/// The heap order holds at every place but `at`, whose slot may have to move
/// up: the slots below `at` already respect the slot above it.
spec fn ordered_but_up<F>(slots: Seq<Queued<F>>, at: int) -> bool {
    &&& forall|i: int|
        0 < i < slots.len() && i != at ==> !served_before(#[trigger] slots[i], slots[parent(i)])
    &&& forall|i: int|
        0 < i < slots.len() && parent(i) == at && at > 0 ==> !served_before(
            #[trigger] slots[i],
            slots[parent(at)],
        )
}

/// The heap order holds at every place but those right below `at`, whose
/// slot may have to move down: the slots below `at` already respect the slot
/// above it.
spec fn ordered_but_down<F>(slots: Seq<Queued<F>>, at: int) -> bool {
    &&& forall|i: int|
        0 < i < slots.len() && parent(i) != at ==> !served_before(
            #[trigger] slots[i],
            slots[parent(i)],
        )
    &&& forall|i: int|
        0 < i < slots.len() && parent(i) == at && at > 0 ==> !served_before(
            #[trigger] slots[i],
            slots[parent(at)],
        )
}

/// The sequence with the slots at `i` and `j` exchanged.
spec fn exchanged<F>(slots: Seq<Queued<F>>, i: int, j: int) -> Seq<Queued<F>> {
    slots.update(i, slots[j]).update(j, slots[i])
}

/// Exchanging two slots keeps the slots the same.
proof fn lemma_exchange_keeps_slots<F>(slots: Seq<Queued<F>>, i: int, j: int)
    requires
        0 <= i < slots.len(),
        0 <= j < slots.len(),
    ensures
        exchanged(slots, i, j).to_multiset() == slots.to_multiset(),
{
    broadcast use vstd::multiset::group_multiset_axioms;

    vstd::seq_lib::to_multiset_update(slots, i, slots[j]);
    vstd::seq_lib::to_multiset_update(slots.update(i, slots[j]), j, slots[i]);
    vstd::seq_lib::to_multiset_contains(slots, slots[i]);
    vstd::seq_lib::to_multiset_contains(slots, slots[j]);
    assert(slots.contains(slots[i]));
    assert(slots.contains(slots[j]));
    assert(exchanged(slots, i, j).to_multiset() =~= slots.to_multiset());
}

/// Taking the top slot out by putting the last slot in its place removes
/// just the top slot.
proof fn lemma_take_top_keeps_rest<F>(slots: Seq<Queued<F>>)
    requires
        slots.len() > 0,
    ensures
        slots.update(0, slots.last()).drop_last().to_multiset() == slots.to_multiset().remove(
            slots[0],
        ),
{
    broadcast use vstd::multiset::group_multiset_axioms;

    let moved = slots.update(0, slots.last());
    vstd::seq_lib::to_multiset_update(slots, 0, slots.last());
    vstd::seq_lib::to_multiset_remove(moved, moved.len() - 1);
    assert(moved.remove(moved.len() - 1) =~= moved.drop_last());
    vstd::seq_lib::to_multiset_contains(slots, slots[0]);
    vstd::seq_lib::to_multiset_contains(slots, slots.last());
    assert(slots.contains(slots[0]));
    assert(slots.contains(slots.last()));
    assert(moved.drop_last().to_multiset() =~= slots.to_multiset().remove(slots[0]));
}

/// The slot at the top of a heap is served before all others.
proof fn lemma_top_is_first<F>(slots: Seq<Queued<F>>, j: int)
    requires
        heap_ordered(slots),
        0 <= j < slots.len(),
    ensures
        !served_before(slots[j], slots[0]),
    decreases j,
{
    if j > 0 {
        lemma_top_is_first(slots, parent(j));
    }
}

/// Two sequences of the same slots are equally long.
proof fn lemma_same_len<F>(slots: Seq<Queued<F>>, order: Seq<Queued<F>>)
    requires
        slots.to_multiset() == order.to_multiset(),
    ensures
        slots.len() == order.len(),
{
    vstd::seq_lib::to_multiset_len(slots);
    vstd::seq_lib::to_multiset_len(order);
}

/// A heap and a serving order of the same slots begin with the same slot.
proof fn lemma_top_is_head<F>(slots: Seq<Queued<F>>, order: Seq<Queued<F>>)
    requires
        heap_ordered(slots),
        serving_order(order),
        slots.to_multiset() == order.to_multiset(),
        slots.len() > 0,
    ensures
        order.len() == slots.len(),
        slots[0] == order[0],
{
    broadcast use vstd::seq_lib::group_to_multiset_ensures;

    lemma_same_len(slots, order);
    assert(slots.contains(slots[0]));
    assert(order.to_multiset().count(slots[0]) > 0);
    assert(order.contains(slots[0]));
    let k = choose|k: int| 0 <= k < order.len() && order[k] == slots[0];
    assert(order.contains(order[0]));
    assert(slots.to_multiset().count(order[0]) > 0);
    assert(slots.contains(order[0]));
    let m = choose|m: int| 0 <= m < slots.len() && slots[m] == order[0];
    lemma_top_is_first(slots, m);
}

/// Whether `a` is served before `b`. An event that is due earlier is the
/// greater one.
fn goes_first<F>(a: &Queued<F>, b: &Queued<F>) -> (first: bool)
    ensures
        first == served_before(*a, *b),
{
    a.event > b.event || (a.event == b.event && a.ticket < b.ticket)
}

/// Moves the slot at `start` up until the slot above it is served no later.
fn sift_up<F>(slots: &mut Vec<Queued<F>>, start: usize)
    requires
        start < old(slots)@.len(),
        ordered_but_up(old(slots)@, start as int),
    ensures
        heap_ordered(final(slots)@),
        final(slots)@.to_multiset() == old(slots)@.to_multiset(),
{
    let mut at: usize = start;
    while at > 0 && goes_first(&slots[at], &slots[(at - 1) / 2])
        invariant
            at < slots@.len(),
            ordered_but_up(slots@, at as int),
            slots@.to_multiset() == old(slots)@.to_multiset(),
        decreases at,
    {
        let above: usize = (at - 1) / 2;
        proof {
            lemma_exchange_keeps_slots(slots@, at as int, above as int);
        }
        slots.swap(at, above);
        at = above;
    }
}

/// Moves the top slot down until the slots below it are served no earlier.
fn sift_down<F>(slots: &mut Vec<Queued<F>>)
    requires
        ordered_but_down(old(slots)@, 0),
    ensures
        heap_ordered(final(slots)@),
        final(slots)@.to_multiset() == old(slots)@.to_multiset(),
{
    let n: usize = slots.len();
    let mut at: usize = 0;
    while at < n / 2
        invariant
            n == slots@.len(),
            ordered_but_down(slots@, at as int),
            slots@.to_multiset() == old(slots)@.to_multiset(),
        ensures
            heap_ordered(slots@),
            slots@.to_multiset() == old(slots)@.to_multiset(),
        decreases n - at,
    {
        let left: usize = 2 * at + 1;
        let right: usize = left + 1;
        let below: usize = if right < n && goes_first(&slots[right], &slots[left]) {
            right
        } else {
            left
        };
        if !goes_first(&slots[below], &slots[at]) {
            break;
        }
        proof {
            lemma_exchange_keeps_slots(slots@, at as int, below as int);
        }
        slots.swap(at, below);
        at = below;
    }
}

/// Takes the top slot out of a heap that is not empty.
fn take_top<F>(slots: &mut Vec<Queued<F>>) -> (top: Queued<F>)
    requires
        old(slots)@.len() > 0,
        heap_ordered(old(slots)@),
    ensures
        top == old(slots)@[0],
        heap_ordered(final(slots)@),
        final(slots)@.len() == old(slots)@.len() - 1,
        final(slots)@.to_multiset() == old(slots)@.to_multiset().remove(top),
{
    proof {
        lemma_take_top_keeps_rest(slots@);
    }
    let top = slots.swap_remove(0);
    let ghost taken = slots@;
    sift_down(slots);
    proof {
        lemma_same_len(slots@, taken);
    }
    top
}

/// Removing the head of a serving order removes just that slot.
proof fn lemma_drop_head<F>(order: Seq<Queued<F>>)
    requires
        order.len() > 0,
        serving_order(order),
    ensures
        serving_order(order.drop_first()),
        order.drop_first().to_multiset() == order.to_multiset().remove(order[0]),
        events_of(order.drop_first()) == events_of(order).drop_first(),
{
    vstd::seq_lib::to_multiset_remove(order, 0);
    assert(order.remove(0) =~= order.drop_first());
    assert(events_of(order.drop_first()) =~= events_of(order).drop_first());
}

/// Where a slot with a fresh ticket enters a serving order: behind the slots
/// that are due no later than it, and before the rest.
proof fn lemma_enter<F>(order: Seq<Queued<F>>, entry: Queued<F>)
    requires
        serving_order(order),
        time_ordered(events_of(order)),
        forall|i: int| 0 <= i < order.len() ==> (#[trigger] order[i]).ticket < entry.ticket,
    ensures
        due(events_of(order), entry.event.time as int).len() <= order.len(),
        serving_order(order.insert(due(events_of(order), entry.event.time as int).len() as int, entry)),
        events_of(order.insert(due(events_of(order), entry.event.time as int).len() as int, entry))
            == schedule(events_of(order), entry_of(entry.event)),
        time_ordered(schedule(events_of(order), entry_of(entry.event))),
        order.insert(
            due(events_of(order), entry.event.time as int).len() as int,
            entry,
        ).to_multiset() == order.to_multiset().insert(entry),
{
    let events = events_of(order);
    let k = due(events, entry.event.time as int).len() as int;
    lemma_due_is_prefix(events, entry.event.time as int);
    let entered = order.insert(k, entry);
    assert forall|i: int, j: int| 0 <= i < j < entered.len() implies served_before(
        entered[i],
        entered[j],
    ) by {
        if i < k {
            assert(events[i].time <= entry.event.time);
        }
        if j > k {
            assert(events[j - 1].time > entry.event.time);
        }
    }
    assert(events_of(entered) =~= schedule(events, entry_of(entry.event)));
    vstd::seq_lib::to_multiset_insert(order, k, entry);
    let after = schedule(events, entry_of(entry.event));
    assert forall|i: int, j: int| 0 <= i <= j < after.len() implies after[i].time
        <= after[j].time by {
        assert(after[i] == entry_of(entered[i].event));
        assert(after[j] == entry_of(entered[j].event));
        if i < j {
            assert(served_before(entered[i], entered[j]));
        }
    }
}

/// The events that wait to be served.
pub struct EventQueue<F> {
    /// The binary heap.
    slots: Vec<Queued<F>>,
    /// The ticket of the next event to enter.
    next_ticket: u64,
    /// The slots in the order in which they will be served.
    order: Ghost<Seq<Queued<F>>>,
}

impl<F> View for EventQueue<F> {
    type V = Seq<Entry<F>>;

    /// The waiting events in the order in which they will be served.
    closed spec fn view(&self) -> Seq<Entry<F>> {
        events_of(self.order@)
    }
}

impl<F> EventQueue<F> {
    /// What holds of the representation between calls.
    pub closed spec fn inv(&self) -> bool {
        &&& heap_ordered(self.slots@)
        &&& serving_order(self.order@)
        &&& self.slots@.to_multiset() == self.order@.to_multiset()
        &&& forall|i: int| 0 <= i < self.order@.len() ==> (#[trigger] self.order@[i]).ticket < self.next_ticket
    }

    /// The queue is well formed: its events stand in serving order, with
    /// times that events can hold.
    pub open spec fn wf(&self) -> bool {
        self.inv() && time_ordered(self@) && in_clock_range(self@)
    }

    /// An empty queue.
    pub fn new() -> (queue: EventQueue<F>)
        ensures
            queue.wf(),
            queue@ == Seq::<Entry<F>>::empty(),
    {
        let queue = EventQueue { slots: Vec::new(), next_ticket: 0, order: Ghost(Seq::empty()) };
        assert(queue@ =~= Seq::<Entry<F>>::empty());
        queue
    }

    /// Moves the queue to a clock that reads `by` less: every time becomes
    /// `by` less, and the events and their order stay as they are. No event
    /// is due before `by`. The tickets are handed out anew on the way, in
    /// serving order and from zero, so that tickets are left for the events
    /// that enter next.
    pub fn rebase(&mut self, by: u64)
        requires
            old(self).wf(),
            forall|i: int| 0 <= i < old(self)@.len() ==> by <= (#[trigger] old(self)@[i]).time,
        ensures
            final(self).wf(),
            final(self)@ == shifted(old(self)@, -by),
            final(self).tickets_used() == final(self)@.len(),
    {
        let ghost before = self.order@;
        let mut sorted: Vec<Queued<F>> = Vec::new();
        proof {
            lemma_same_len(self.slots@, before);
            assert(before.skip(0) =~= before);
            assert forall|i: int| 0 <= i < before.len() implies by <= (
            #[trigger] before[i]).event.time by {
                assert(self@[i].time == before[i].event.time);
            }
        }
        while self.slots.len() > 0
            invariant
                heap_ordered(self.slots@),
                serving_order(before),
                sorted@.len() + self.slots@.len() == before.len(),
                self.slots@.to_multiset() == before.skip(sorted@.len() as int).to_multiset(),
                forall|i: int| 0 <= i < before.len() ==> by <= (#[trigger] before[i]).event.time,
                forall|i: int|
                    0 <= i < sorted@.len() ==> (#[trigger] sorted@[i]).event.cb == before[i].event.cb
                        && sorted@[i].event.time == before[i].event.time - by && sorted@[i].ticket
                        == i,
            decreases self.slots@.len(),
        {
            let ghost rest = before.skip(sorted@.len() as int);
            proof {
                assert(serving_order(rest));
                lemma_top_is_head(self.slots@, rest);
                lemma_drop_head(rest);
                assert(rest.drop_first() =~= before.skip(sorted@.len() as int + 1));
                assert(rest[0] == before[sorted@.len() as int]);
            }
            let top = take_top(&mut self.slots);
            let ticket: u64 = sorted.len() as u64;
            sorted.push(Queued { event: Event::new(top.event.time - by, top.event.cb), ticket: ticket });
        }
        self.next_ticket = sorted.len() as u64;
        self.order = Ghost(sorted@);
        self.slots = sorted;
        proof {
            assert(events_of(self.order@) =~= shifted(events_of(before), -by));
            assert forall|i: int, j: int| 0 <= i < j < self.order@.len() implies served_before(
                self.order@[i],
                self.order@[j],
            ) by {
                assert(served_before(before[i], before[j]));
            }
            assert forall|i: int| 0 < i < self.slots@.len() implies !served_before(
                #[trigger] self.slots@[i],
                self.slots@[parent(i)],
            ) by {
                assert(served_before(self.order@[parent(i)], self.order@[i]));
            }
            assert forall|i: int, j: int| 0 <= i <= j < self@.len() implies self@[i].time
                <= self@[j].time by {
                if i < j {
                    assert(served_before(self.order@[i], self.order@[j]));
                }
            }
        }
    }

    /// The number of tickets that have been handed out since they were last
    /// handed out anew.
    pub closed spec fn tickets_used(&self) -> nat {
        self.next_ticket as nat
    }

    /// Puts an event into the queue. It will be served after the events that
    /// are due no later than it, those that entered before it with the same
    /// time included, and before the events that are due later.
    pub fn push(&mut self, event: Event<F>)
        requires
            old(self).wf(),
        ensures
            final(self).wf(),
            final(self)@ == schedule(old(self)@, entry_of(event)),
    {
        if self.next_ticket == u64::MAX {
            proof {
                lemma_shift_twice(self@, 0, 0);
            }
            self.rebase(0);
        }
        let ticket: u64 = self.next_ticket;
        let ghost entry = Queued { event: event, ticket: ticket };
        let ghost before = self.order@;
        proof {
            lemma_same_len(self.slots@, before);
            lemma_enter(before, entry);
            vstd::seq_lib::to_multiset_build(self.slots@, entry);
        }
        self.slots.push(Queued { event: event, ticket: ticket });
        let last: usize = self.slots.len() - 1;
        self.next_ticket = ticket + 1;
        self.order = Ghost(before.insert(due(events_of(before), event.time as int).len() as int, entry));
        sift_up(&mut self.slots, last);
    }

    /// Takes the event that is served next out of the queue, if any event
    /// waits.
    pub fn pop(&mut self) -> (next: Option<Event<F>>)
        requires
            old(self).wf(),
        ensures
            final(self).wf(),
            old(self)@.len() == 0 ==> next.is_none() && final(self)@ == old(self)@,
            old(self)@.len() > 0 ==> (next matches Some(event) && entry_of(event) == old(self)@[0])
                && final(self)@ == old(self)@.drop_first(),
    {
        proof {
            lemma_same_len(self.slots@, self.order@);
        }
        if self.slots.len() == 0 {
            return None;
        }
        proof {
            lemma_top_is_head(self.slots@, self.order@);
            lemma_drop_head(self.order@);
        }
        let top = take_top(&mut self.slots);
        self.order = Ghost(self.order@.drop_first());
        Some(top.event)
    }

    /// The number of waiting events.
    pub fn len(&self) -> (n: usize)
        requires
            self.wf(),
        ensures
            n == self@.len(),
    {
        proof {
            lemma_same_len(self.slots@, self.order@);
        }
        self.slots.len()
    }

    /// The event that will be served next, if any event waits.
    pub fn peek(&self) -> (next: Option<&Event<F>>)
        requires
            self.wf(),
        ensures
            self@.len() == 0 ==> next.is_none(),
            self@.len() > 0 ==> (next matches Some(event) && entry_of(*event) == self@[0]),
    {
        proof {
            lemma_same_len(self.slots@, self.order@);
        }
        if self.slots.len() == 0 {
            None
        } else {
            proof {
                lemma_top_is_head(self.slots@, self.order@);
            }
            Some(&self.slots[0].event)
        }
    }
}

/// `<[T]>::swap` exchanges the elements at two indices of a slice and leaves
/// the others as they are. It panics when an index is out of bounds, so both
/// are required to be within.
pub assume_specification<T>[ <[T]>::swap ](slice: &mut [T], a: usize, b: usize)
    requires
        a < old(slice)@.len(),
        b < old(slice)@.len(),
    ensures
        final(slice)@ == old(slice)@.update(a as int, old(slice)@[b as int]).update(
            b as int,
            old(slice)@[a as int],
        ),
;

} // verus!
