use etl_legs::executor::{BoundedExecutor, Policy};

#[test]
fn in_flight_never_exceeds_ceiling() {
    let mut e = BoundedExecutor::new(7, 3, Policy::Tolerant);
    let mut max_in_flight = 0usize;
    let mut dispatched = Vec::new();
    // drive the machine: start greedily, then retire the oldest
    while !e.is_complete() {
        while e.can_start() {
            dispatched.push(e.start());
            let in_flight = e.started - e.finished;
            assert!(in_flight <= 3);
            if in_flight > max_in_flight {
                max_in_flight = in_flight;
            }
        }
        e.finish(true);
    }
    assert_eq!(max_in_flight, 3);
    assert_eq!(e.started, 7);
    assert_eq!(e.finished, 7);
    // every task was dispatched exactly once, in submission order
    assert_eq!(dispatched, (0..7).collect::<Vec<_>>());
}

#[test]
fn tolerant_batch_runs_everything_despite_failures() {
    let mut e = BoundedExecutor::new(4, 2, Policy::Tolerant);
    let mut failed = 0usize;
    while !e.is_complete() {
        while e.can_start() {
            e.start();
        }
        // fail every second task
        let ok = e.finished % 2 == 0;
        if !ok {
            failed += 1;
        }
        e.finish(ok);
    }
    assert_eq!(e.started, 4);
    assert_eq!(e.finished, 4);
    assert_eq!(e.failures, failed);
    assert_eq!(e.failures, 2);
}

#[test]
fn failfast_batch_stops_starting_after_first_failure() {
    let mut e = BoundedExecutor::new(5, 2, Policy::FailFast);
    assert!(e.can_start());
    e.start();
    assert!(e.can_start());
    e.start();
    // first outcome is a failure: nothing further may start,
    // but the already-dispatched task still reports back
    e.finish(false);
    assert!(!e.can_start());
    assert!(!e.is_complete());
    e.finish(true);
    assert!(e.is_complete());
    assert_eq!(e.started, 2);
    assert_eq!(e.finished, 2);
}
