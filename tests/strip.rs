use notifier::strip::{
    begin_poll, deliver_now, end_poll, on_deregister, on_register, ReadyEvent, Readiness, StripSet,
    TIMER_TOKEN,
};

fn readable(token: usize) -> ReadyEvent {
    ReadyEvent { token, readiness: Readiness::readable() }
}

#[test]
fn strip_set_insert_remove() {
    let mut s = StripSet::new();
    assert!(!s.contains(3));
    assert!(s.insert(3));
    assert!(s.contains(3));
    assert!(!s.insert(3));
    assert!(s.insert(4));
    s.remove(3);
    assert!(!s.contains(3));
    assert!(s.contains(4));
    s.remove(3);
    assert!(s.contains(4));
}

#[test]
fn register_refuses_timer_token() {
    let mut strip: Option<StripSet> = None;
    assert!(!on_register(&mut strip, TIMER_TOKEN));
    assert!(on_register(&mut strip, 0));
    assert!(strip.is_none());
}

#[test]
fn deregister_outside_wait_strips_nothing() {
    let mut strip: Option<StripSet> = None;
    assert!(on_deregister(&mut strip, 3));
    assert!(on_deregister(&mut strip, 3));
    assert!(strip.is_none());
}

#[test]
fn double_strip_in_one_wait_is_reported() {
    let mut strip = Some(StripSet::new());
    assert!(on_deregister(&mut strip, 3));
    assert!(!on_deregister(&mut strip, 3));
}

#[test]
fn reregister_undoes_pending_strip() {
    let mut strip = Some(StripSet::new());
    assert!(on_deregister(&mut strip, 3));
    assert!(!deliver_now(&strip, readable(3)));
    assert!(on_register(&mut strip, 3));
    assert!(!strip.as_ref().unwrap().contains(3));
    assert!(deliver_now(&strip, readable(3)));
}

#[test]
fn strip_during_wait() {
    let mut strip: Option<StripSet> = None;
    assert!(begin_poll(&mut strip));
    // The poll returned events for 3 and 5; then 3 is removed on another
    // thread before its handler call.
    let polled = vec![readable(5), readable(3)];
    let mut handled = Vec::new();
    for (i, e) in polled.iter().enumerate() {
        if i == 1 {
            assert!(on_deregister(&mut strip, 3));
        }
        if deliver_now(&strip, *e) {
            handled.push(e.token);
        }
    }
    let _ = end_poll(&mut strip);
    assert_eq!(handled, vec![5]);
}

#[test]
fn removal_from_handler_strips_later_event_of_batch() {
    let mut strip: Option<StripSet> = None;
    assert!(begin_poll(&mut strip));
    let polled = vec![readable(1), readable(2), readable(2)];
    let mut handled = Vec::new();
    for e in polled.iter() {
        if deliver_now(&strip, *e) {
            handled.push(e.token);
            if e.token == 2 {
                assert!(on_deregister(&mut strip, 2));
            }
        }
    }
    assert_eq!(handled, vec![1, 2]);
}

#[test]
fn trigger_delivered_once() {
    let mut strip: Option<StripSet> = None;
    assert!(begin_poll(&mut strip));
    let polled = vec![readable(TIMER_TOKEN), readable(7)];
    let handled: Vec<usize> =
        polled.iter().filter(|e| deliver_now(&strip, **e)).map(|e| e.token).collect();
    assert_eq!(handled, vec![7]);
}

#[test]
fn timer_event_never_delivered() {
    assert!(!deliver_now(&None, readable(TIMER_TOKEN)));
    assert!(!deliver_now(&Some(StripSet::new()), readable(TIMER_TOKEN)));
    assert!(deliver_now(&None, readable(0)));
}

#[test]
fn poll_lifecycle_of_strip_set() {
    let mut strip: Option<StripSet> = None;
    assert!(begin_poll(&mut strip));
    assert!(on_deregister(&mut strip, 8));
    let taken = end_poll(&mut strip).unwrap();
    assert!(taken.contains(8));
    assert!(strip.is_none());
    assert!(on_deregister(&mut strip, 8));
    assert!(strip.is_none());
    assert!(begin_poll(&mut strip));
    assert!(!begin_poll(&mut strip));
    assert!(!strip.as_ref().unwrap().contains(8));
}

#[test]
fn readiness_masks() {
    let a = Readiness::all();
    assert!(a.readable && a.writable && a.hup && a.error);
    let r = Readiness::readable();
    assert!(r.readable && !r.writable && !r.hup && !r.error);
}
