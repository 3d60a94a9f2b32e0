use mesh::scheduler::driver::{DelayError, Park, NANOS_PER_MILLI};
use mesh::scheduler::Driver;

#[test]
fn driver_starts_with_nothing_planned() {
    let d = Driver::<()>::new();
    assert_eq!(d.planned_wait(), None);
    assert_eq!(d.park(), Park::UntilSignalled);
}

#[test]
fn driver_plans_the_wait_when_it_wakes() {
    let mut d = Driver::new();
    assert_eq!(d.delay(949, "hello"), Ok(()));
    // the delay alone does not change the plan: the loop is signalled
    assert_eq!(d.park(), Park::UntilSignalled);
    assert_eq!(d.wake(1_000), Vec::<&str>::new());
    assert_eq!(d.planned_wait(), Some(949 * NANOS_PER_MILLI - 1_000));
    assert_eq!(d.park(), Park::For(948_999_000));
    assert_eq!(d.wake(948_999_000), vec!["hello"]);
    assert_eq!(d.planned_wait(), None);
    assert_eq!(d.park(), Park::UntilSignalled);
}

#[test]
fn driver_fires_in_deadline_order() {
    let mut d = Driver::new();
    d.delay(30, 3).unwrap();
    d.delay(10, 1).unwrap();
    d.delay(20, 2).unwrap();
    d.delay(40, 4).unwrap();
    assert_eq!(d.wake(30 * NANOS_PER_MILLI), vec![1, 2, 3]);
    assert_eq!(d.planned_wait(), Some(10 * NANOS_PER_MILLI));
    assert_eq!(d.park(), Park::For(10 * NANOS_PER_MILLI));
}

#[test]
fn driver_rejects_a_delay_out_of_range() {
    let mut d = Driver::new();
    assert_eq!(d.delay(u64::MAX, ()), Err(DelayError::OutOfRange));
    assert_eq!(d.delay(u64::MAX / NANOS_PER_MILLI + 1, ()), Err(DelayError::OutOfRange));
    // nothing was scheduled
    assert_eq!(d.wake(0), Vec::<()>::new());
    assert_eq!(d.planned_wait(), None);
    // the greatest delay in range is accepted
    assert_eq!(d.delay(u64::MAX / NANOS_PER_MILLI, ()), Ok(()));
    d.wake(0);
    assert_eq!(d.planned_wait(), Some(u64::MAX / NANOS_PER_MILLI * NANOS_PER_MILLI));
}

#[test]
fn driver_accepts_a_deadline_past_the_range_of_its_clock() {
    let mut d = Driver::new();
    d.wake(u64::MAX - 5 * NANOS_PER_MILLI);
    assert_eq!(d.delay(6, "six"), Ok(()));
    assert_eq!(d.delay(5, "five"), Ok(()));
    assert_eq!(d.wake(0), Vec::<&str>::new());
    assert_eq!(d.park(), Park::For(5 * NANOS_PER_MILLI));
    assert_eq!(d.wake(5 * NANOS_PER_MILLI), vec!["five"]);
    assert_eq!(d.park(), Park::For(NANOS_PER_MILLI));
    assert_eq!(d.wake(u64::MAX), vec!["six"]);
    assert_eq!(d.park(), Park::UntilSignalled);
}

#[test]
fn driver_sleeps_for_exactly_the_wait() {
    let mut d = Driver::new();
    d.delay(0, ()).unwrap();
    d.wake(0);
    assert_eq!(d.park(), Park::UntilSignalled);

    d.delay(3, ()).unwrap();
    d.wake(1);
    assert_eq!(d.park(), Park::For(2_999_999));
    d.wake(2_999_998);
    // a wait of less than a millisecond is still a wait
    assert_eq!(d.planned_wait(), Some(1));
    assert_eq!(d.park(), Park::For(1));
    d.wake(1);
    assert_eq!(d.park(), Park::UntilSignalled);

    // a wait of more milliseconds than 32 bits hold is not cut short
    let mut e = Driver::new();
    e.delay(4_294_967_303, ()).unwrap();
    e.wake(0);
    assert_eq!(e.planned_wait(), Some(4_294_967_303 * NANOS_PER_MILLI));
    assert_eq!(e.park(), Park::For(4_294_967_303 * NANOS_PER_MILLI));

    // the longest wait there is
    let mut f = Driver::new();
    f.delay(u64::MAX / NANOS_PER_MILLI, ()).unwrap();
    f.wake(0);
    assert_eq!(f.park(), Park::For(u64::MAX / NANOS_PER_MILLI * NANOS_PER_MILLI));
}

#[test]
fn driver_does_not_spin_before_a_near_deadline() {
    let mut d = Driver::new();
    d.delay(1, "soon").unwrap();
    assert_eq!(d.wake(999_999), Vec::<&str>::new());
    assert_eq!(d.planned_wait(), Some(1));
    assert_eq!(d.park(), Park::For(1));
    assert_eq!(d.wake(1), vec!["soon"]);
    assert_eq!(d.park(), Park::UntilSignalled);
}

#[test]
fn driver_reports_drift() {
    let mut d = Driver::new();
    assert_eq!(d.drift(100), None);
    d.delay(2, ()).unwrap();
    d.wake(0);
    assert_eq!(d.drift(2_000_000), Some(0));
    assert_eq!(d.drift(2_000_450), Some(450));
    // woken early by a signal
    assert_eq!(d.drift(1_999_999), None);
}

#[test]
fn driver_honours_delays_made_while_asleep() {
    // The loop sleeps with a long wait planned.
    let mut d = Driver::new();
    d.delay(60_000, "far").unwrap();
    d.wake(0);
    assert_eq!(d.park(), Park::For(60_000 * NANOS_PER_MILLI));

    // Two producers schedule while it sleeps; each signals the loop.
    d.delay(50, "later").unwrap();
    d.delay(20, "sooner").unwrap();

    // The signal wakes the loop after 3 ms: nothing is due yet, and the
    // next sleep is short enough for the earlier of the two.
    assert_eq!(d.wake(3 * NANOS_PER_MILLI), Vec::<&str>::new());
    assert_eq!(d.park(), Park::For(17 * NANOS_PER_MILLI));

    assert_eq!(d.wake(17 * NANOS_PER_MILLI), vec!["sooner"]);
    assert_eq!(d.park(), Park::For(30 * NANOS_PER_MILLI));
    assert_eq!(d.wake(30 * NANOS_PER_MILLI + 12), vec!["later"]);
    assert_eq!(d.planned_wait(), Some(59_950 * NANOS_PER_MILLI - 12));
    assert_eq!(d.wake(60_000 * NANOS_PER_MILLI), vec!["far"]);
    assert_eq!(d.park(), Park::UntilSignalled);
}
