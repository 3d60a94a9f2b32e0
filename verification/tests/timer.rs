use mesh::scheduler::{Event, Timer};

#[test]
fn event_cmp() {
    // Events are ordered with the earliest time first, so time=1 is
    // "bigger" than time=2: a structure that serves its greatest item
    // then serves the earliest event.
    assert!(Event::new(1, ()) > Event::new(2, ()));
}

#[test]
fn timer_earliest_no_events() {
    let t = Timer::<()>::new();
    assert_eq!(t.earliest(), None);
}

#[test]
fn timer_earliest_one() {
    let mut t = Timer::new();
    t.add(100, ());
    assert_eq!(t.earliest(), Some(100));
}

#[test]
fn timer_earliest_orders_correctly() {
    let mut t = Timer::new();
    t.add(100, ());
    t.add(10, ());
    t.add(50, ());
    assert_eq!(t.earliest(), Some(10));
}

#[test]
fn timer_earliest_updates_after_advance() {
    let mut t = Timer::new();
    t.add(100, ());
    t.advance(58);
    assert_eq!(t.earliest(), Some(42));
}

#[test]
fn timer_advance_pops_events() {
    let mut t = Timer::new();
    t.add(2, "second");
    t.add(3, "third");
    t.add(1, "first");

    for n in vec!["first", "second", "third"] {
        // NB: delta to next earliest is 1 each time
        assert_eq!(t.earliest(), Some(1));
        assert_eq!(t.advance(1), vec![n]);
    }
    assert_eq!(t.earliest(), None);
}

#[test]
fn timer_advance_pops_multiple() {
    let mut t = Timer::new();
    t.add(1, 1);
    t.add(2, 2);
    t.add(3, 3);
    t.add(10, 5);
    t.add(10, 5);
    t.add(14, 6);
    assert_eq!(t.advance(10), vec![1, 2, 3, 5, 5]);
    assert_eq!(t.earliest(), Some(4));
}

#[test]
fn timer_add_after_advance() {
    let mut t = Timer::new();
    t.advance(1000);
    t.add(1, ());
    assert_eq!(t.earliest(), Some(1));
}

#[test]
fn event_equal_when_due_together() {
    assert!(Event::new(7, "a") == Event::new(7, "b"));
    assert!(Event::new(7, "a") != Event::new(8, "a"));
    assert!(Event::new(9, ()) < Event::new(3, ()));
    assert!(Event::new(3, ()) >= Event::new(3, ()));
}

#[test]
fn event_fire_reports_lag() {
    assert_eq!(Event::new(5, ()).fire(12), 7);
    assert_eq!(Event::new(5, ()).fire(5), 0);
}

#[test]
fn timer_single_advance_returns_due_in_deadline_order() {
    let mut t = Timer::new();
    t.add(30, "c");
    t.add(10, "a");
    t.add(50, "e");
    t.add(20, "b");
    t.add(40, "d");
    assert_eq!(t.advance(30), vec!["a", "b", "c"]);
    assert_eq!(t.earliest(), Some(10));
    assert_eq!(t.advance(100), vec!["d", "e"]);
    assert_eq!(t.earliest(), None);
}

#[test]
fn timer_equal_deadlines_fire_in_insertion_order() {
    let mut t = Timer::new();
    t.add(10, "first");
    t.add(5, "early");
    t.add(10, "second");
    t.add(10, "third");
    t.add(11, "late");
    t.add(10, "fourth");
    assert_eq!(t.advance(10), vec!["early", "first", "second", "third", "fourth"]);
    assert_eq!(t.advance(1), vec!["late"]);
}

#[test]
fn timer_earliest_is_least_remaining() {
    let mut t = Timer::new();
    t.add(70, ());
    t.add(30, ());
    t.add(90, ());
    t.advance(25);
    assert_eq!(t.earliest(), Some(5));
    t.add(2, ());
    assert_eq!(t.earliest(), Some(2));
    t.advance(5);
    assert_eq!(t.earliest(), Some(40));
}

#[test]
fn timer_advance_in_two_steps_equals_one() {
    let delays = [7u64, 3, 12, 3, 9, 20, 1, 12];
    let mut once = Timer::new();
    let mut twice = Timer::new();
    for (n, d) in delays.iter().enumerate() {
        once.add(*d, n);
        twice.add(*d, n);
    }
    let whole = once.advance(12);
    let mut parts = twice.advance(5);
    parts.extend(twice.advance(7));
    assert_eq!(whole, vec![6, 1, 3, 0, 4, 2, 7]);
    assert_eq!(parts, whole);
    assert_eq!(once.earliest(), twice.earliest());
    assert_eq!(once.earliest(), Some(8));
}

#[test]
fn timer_zero_delay_is_due_at_once() {
    let mut t = Timer::new();
    t.add(0, "now");
    assert_eq!(t.earliest(), Some(0));
    assert_eq!(t.advance(0), vec!["now"]);
    assert_eq!(t.earliest(), None);

    t.advance(17);
    t.add(0, "again");
    t.add(1, "next");
    assert_eq!(t.advance(0), vec!["again"]);
    assert_eq!(t.advance(1), vec!["next"]);
}

#[test]
fn timer_deadline_on_the_boundary_counts_as_due() {
    let mut t = Timer::new();
    t.add(10, "edge");
    assert_eq!(t.advance(9), Vec::<&str>::new());
    assert_eq!(t.earliest(), Some(1));
    assert_eq!(t.advance(1), vec!["edge"]);
}

#[test]
fn timer_advance_with_nothing_due_returns_nothing() {
    let mut t = Timer::<u8>::new();
    assert_eq!(t.advance(5), Vec::<u8>::new());
    t.add(10, 1);
    assert_eq!(t.advance(5), Vec::<u8>::new());
    assert_eq!(t.earliest(), Some(5));
}

#[test]
fn timer_advance_to_a_shared_deadline_takes_both() {
    let mut t = Timer::new();
    for (d, v) in [(1u64, 1), (2, 2), (3, 3), (10, 5), (10, 5), (14, 6)] {
        t.add(d, v);
    }
    let fired = t.advance(10);
    assert_eq!(fired.len(), 5);
    assert_eq!(t.earliest(), Some(4));
}

#[test]
fn timer_takes_the_longest_delay() {
    let mut t = Timer::new();
    t.add(u64::MAX, "last");
    t.advance(u64::MAX - 1);
    assert_eq!(t.earliest(), Some(1));
    t.add(1, "also last");
    assert_eq!(t.advance(1), vec!["last", "also last"]);
    assert_eq!(t.earliest(), None);
}

#[test]
fn timer_runs_on_past_the_range_of_a_delay() {
    let mut t = Timer::new();
    assert_eq!(t.advance(u64::MAX), Vec::<&str>::new());
    assert_eq!(t.advance(u64::MAX), Vec::<&str>::new());
    t.add(5, "x");
    assert_eq!(t.earliest(), Some(5));
    assert_eq!(t.advance(4), Vec::<&str>::new());
    assert_eq!(t.advance(u64::MAX), vec!["x"]);
    t.add(u64::MAX, "y");
    t.add(0, "z");
    assert_eq!(t.advance(0), vec!["z"]);
    assert_eq!(t.earliest(), Some(u64::MAX));
    assert_eq!(t.advance(u64::MAX), vec!["y"]);
}

#[test]
fn timer_keeps_pending_events_when_time_runs_on() {
    let mut t = Timer::new();
    t.add(u64::MAX, "far");
    t.add(40, "near");
    t.add(u64::MAX, "far too");
    assert_eq!(t.advance(10), Vec::<&str>::new());
    // the deadline of this one lies 10 past what 64 bits count from zero
    t.add(u64::MAX, "farther");
    t.add(30, "near too");
    assert_eq!(t.earliest(), Some(30));
    assert_eq!(t.advance(30), vec!["near", "near too"]);
    assert_eq!(t.earliest(), Some(u64::MAX - 40));
    assert_eq!(t.advance(u64::MAX - 41), Vec::<&str>::new());
    assert_eq!(t.earliest(), Some(1));
    assert_eq!(t.advance(1), vec!["far", "far too"]);
    assert_eq!(t.earliest(), Some(10));
    assert_eq!(t.advance(9), Vec::<&str>::new());
    assert_eq!(t.advance(1), vec!["farther"]);
    assert_eq!(t.earliest(), None);
}

#[test]
fn timer_advance_past_the_clock_fires_what_is_due() {
    let mut t = Timer::new();
    t.advance(u64::MAX - 3);
    t.add(2, "a");
    t.add(7, "c");
    t.add(4, "b");
    // the new time lies past what 64 bits count from zero
    assert_eq!(t.advance(5), vec!["a", "b"]);
    assert_eq!(t.earliest(), Some(2));
    assert_eq!(t.advance(2), vec!["c"]);
}

#[test]
fn timer_many_events_come_out_sorted_and_stable() {
    // A fixed pseudo-random sequence of delays with many ties.
    let mut state: u64 = 0x2545_F491_4F6C_DD1D;
    let mut wanted: Vec<(u64, usize)> = Vec::new();
    let mut t = Timer::new();
    for n in 0..2000usize {
        state ^= state << 13;
        state ^= state >> 7;
        state ^= state << 17;
        let delay = state % 97;
        t.add(delay, n);
        wanted.push((delay, n));
    }
    wanted.sort();
    let due: Vec<usize> = wanted.iter().filter(|w| w.0 <= 60).map(|w| w.1).collect();
    let rest: Vec<usize> = wanted.iter().filter(|w| w.0 > 60).map(|w| w.1).collect();
    assert_eq!(t.advance(60), due);
    assert_eq!(t.advance(1000), rest);
    assert_eq!(t.earliest(), None);
}

#[test]
fn timer_interleaved_adds_and_advances() {
    let mut t = Timer::new();
    let mut fired: Vec<u32> = Vec::new();
    t.add(5, 1);
    t.add(2, 2);
    fired.extend(t.advance(2));
    t.add(3, 3);
    t.add(1, 4);
    t.add(3, 5);
    fired.extend(t.advance(3));
    assert_eq!(fired, vec![2, 4, 1, 3, 5]);
    assert_eq!(t.earliest(), None);
}
