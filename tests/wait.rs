use notifier::wait::{
    as_secs, nanos_of, subsec_nanos, timer_fired, timer_step, PollLoop, PollStep, TimerAction,
};

#[test]
fn blocking_loop_repolls_on_empty() {
    let mut p = PollLoop::new(false);
    assert_eq!(p.timeout(), None);
    assert_eq!(p.after_poll(0, 100), PollStep::Repoll);
    assert!(!p.nonblock);
    assert_eq!(p.after_poll(3, 100), PollStep::Deliver { more: false });
    assert!(!p.nonblock);
}

#[test]
fn full_batch_switches_to_nonblocking() {
    let mut p = PollLoop::new(false);
    assert_eq!(p.after_poll(100, 100), PollStep::Deliver { more: true });
    assert!(p.nonblock);
    assert_eq!(p.timeout(), Some(0));
    assert_eq!(p.after_poll(0, 100), PollStep::Deliver { more: false });
}

#[test]
fn nonblocking_start_after_deadlines() {
    let mut p = PollLoop::new(true);
    assert_eq!(p.timeout(), Some(0));
    assert_eq!(p.after_poll(0, 100), PollStep::Deliver { more: false });
}

#[test]
fn timer_read_fired() {
    assert!(!timer_fired(&[0; 8]));
    assert!(timer_fired(&[1, 0, 0, 0, 0, 0, 0, 0]));
    assert!(timer_fired(&[0, 0, 0, 0, 0, 0, 0, 2]));
}

#[test]
fn split_instant() {
    assert_eq!(as_secs(3_250_000_001), 3);
    assert_eq!(subsec_nanos(3_250_000_001), 250_000_001);
    assert_eq!(as_secs(999_999_999), 0);
    assert_eq!(subsec_nanos(u64::MAX), 709_551_615);
}

#[test]
fn join_instant() {
    assert_eq!(nanos_of(3, 250_000_001), Some(3_250_000_001));
    assert_eq!(nanos_of(0, 1_000_000_000), None);
    assert_eq!(nanos_of(u64::MAX, 0), None);
    assert_eq!(nanos_of(18_446_744_073, 709_551_615), Some(u64::MAX));
    assert_eq!(nanos_of(18_446_744_073, 709_551_616), None);
    let n: u64 = 12_345_678_901_234;
    assert_eq!(nanos_of(as_secs(n), subsec_nanos(n)), Some(n));
}

#[test]
fn timer_thread_steps() {
    assert_eq!(timer_step(None, 5), TimerAction::Stop);
    assert_eq!(timer_step(Some(None), 5), TimerAction::Park);
    assert_eq!(timer_step(Some(Some(100)), 40), TimerAction::ParkFor(60));
    assert_eq!(timer_step(Some(Some(100)), 100), TimerAction::Fire);
    assert_eq!(timer_step(Some(Some(100)), 150), TimerAction::Fire);
}
