use notifier::deadline::{add_instant, arm_for_wait, Deadline};
use notifier::heap::{Heap, Slot, TimeEvent};

const MS: u64 = 1_000_000;
const SEC: u64 = 1_000_000_000;

fn ev(instant: u64, key: usize) -> TimeEvent {
    TimeEvent { instant, key }
}

#[test]
fn empty_heap_has_nothing() {
    let mut h = Heap::new();
    assert_eq!(h.peek(), None);
    assert_eq!(h.pop(), None);
    assert_eq!(h.pop_due(u64::MAX), None);
}

#[test]
fn pops_come_out_earliest_first() {
    let mut h = Heap::new();
    for (t, k) in [(50u64, 1usize), (10, 2), (40, 3), (20, 4), (30, 5), (10, 6)] {
        let _ = h.push(ev(t, k));
    }
    assert_eq!(h.peek().map(|e| e.instant), Some(10));
    let mut out = Vec::new();
    while let Some(e) = h.pop() {
        out.push(e.instant);
    }
    assert_eq!(out, vec![10, 10, 20, 30, 40, 50]);
}

#[test]
fn pop_due_stops_at_now() {
    let mut h = Heap::new();
    let _ = h.push(ev(5, 1));
    let _ = h.push(ev(15, 2));
    let _ = h.push(ev(10, 3));
    assert_eq!(h.pop_due(10), Some(ev(5, 1)));
    assert_eq!(h.pop_due(10), Some(ev(10, 3)));
    assert_eq!(h.pop_due(10), None);
    assert_eq!(h.peek(), Some(ev(15, 2)));
}

#[test]
fn remove_takes_the_designated_event() {
    let mut h = Heap::new();
    let a = h.push(ev(30, 1));
    let b = h.push(ev(10, 2));
    let c = h.push(ev(20, 3));
    assert_eq!(h.remove(b), Some(ev(10, 2)));
    assert_eq!(h.peek(), Some(ev(20, 3)));
    assert_eq!(h.remove(a), Some(ev(30, 1)));
    assert_eq!(h.pop(), Some(ev(20, 3)));
    assert_eq!(h.remove(c), None);
}

#[test]
fn second_remove_is_refused() {
    let mut h = Heap::new();
    let s = h.push(ev(7, 1));
    assert_eq!(h.remove(s), Some(ev(7, 1)));
    assert_eq!(h.remove(s), None);
}

#[test]
fn released_slot_does_not_name_a_later_event() {
    let mut h = Heap::new();
    let s = h.push(ev(7, 1));
    assert_eq!(h.pop(), Some(ev(7, 1)));
    let t = h.push(ev(9, 2));
    assert_ne!(s, t);
    assert_eq!(h.remove(s), None);
    assert_eq!(h.peek(), Some(ev(9, 2)));
    assert_eq!(h.remove(t), Some(ev(9, 2)));
}

#[test]
fn unknown_slot_is_refused() {
    let mut h = Heap::new();
    let _ = h.push(ev(1, 1));
    assert_eq!(h.remove(Slot { index: 5, generation: 0 }), None);
    assert_eq!(h.remove(Slot { index: 0, generation: 3 }), None);
    assert_eq!(h.peek(), Some(ev(1, 1)));
}

#[test]
fn single_deadline() {
    let t0: u64 = 100 * SEC;
    let mut h = Heap::new();
    let mut d = Deadline::new();
    let (_, arm) = add_instant(&mut h, &mut d, t0 + 10 * MS, 1);
    assert!(arm);
    assert_eq!(d.next, Some(t0 + 10 * MS));
    assert_eq!(h.pop_due(t0), None);
    assert_eq!(h.pop_due(t0 + 10 * MS), Some(ev(t0 + 10 * MS, 1)));
    assert_eq!(h.pop_due(t0 + 10 * MS), None);
}

#[test]
fn cross_thread_earlier_arm() {
    let t0: u64 = 100 * SEC;
    let mut h = Heap::new();
    let mut d = Deadline::new();
    let _ = h.push(ev(t0 + 10 * SEC, 1));
    assert_eq!(arm_for_wait(&h, &mut d), Some(t0 + 10 * SEC));
    let (_, arm) = add_instant(&mut h, &mut d, t0 + 5 * MS, 2);
    assert!(arm);
    assert_eq!(d.next, Some(t0 + 5 * MS));
    assert_eq!(h.pop_due(t0 + 5 * MS), Some(ev(t0 + 5 * MS, 2)));
    assert_eq!(h.pop_due(t0 + 5 * MS), None);
}

#[test]
fn queue_is_due_at_once() {
    let now: u64 = 42 * SEC;
    let mut h = Heap::new();
    let mut d = Deadline::new();
    let _ = add_instant(&mut h, &mut d, now, 9);
    assert_eq!(h.pop_due(now), Some(ev(now, 9)));
}

#[test]
fn slot_removal() {
    let t0: u64 = 100 * SEC;
    let mut h = Heap::new();
    let mut d = Deadline::new();
    let (s, _) = add_instant(&mut h, &mut d, t0 + SEC, 4);
    assert_eq!(h.remove(s), Some(ev(t0 + SEC, 4)));
    assert_eq!(h.pop_due(t0 + 2 * SEC), None);
}

#[test]
fn arm_for_wait_on_empty_heap_keeps_deadline() {
    let h = Heap::new();
    let mut d = Deadline::new();
    assert_eq!(arm_for_wait(&h, &mut d), None);
    assert_eq!(d.next, None);
}

#[test]
fn arm_for_wait_does_not_move_a_deadline_later() {
    let mut h = Heap::new();
    let mut d = Deadline::new();
    let _ = h.push(ev(500, 1));
    assert!(d.update_timeout(100));
    assert_eq!(arm_for_wait(&h, &mut d), None);
    assert_eq!(d.next, Some(100));
}

#[test]
fn many_pushes_and_removals_keep_heap_order() {
    let mut h = Heap::new();
    let mut slots = Vec::new();
    let mut x: u64 = 12345;
    for k in 0..200usize {
        x = x.wrapping_mul(6364136223846793005).wrapping_add(1442695040888963407);
        let t = (x >> 33) % 1000;
        slots.push((h.push(ev(t, k)), t, k));
    }
    let mut kept = Vec::new();
    for (i, (s, t, k)) in slots.into_iter().enumerate() {
        if i % 3 == 0 {
            assert_eq!(h.remove(s), Some(ev(t, k)));
            assert_eq!(h.remove(s), None);
        } else {
            kept.push(t);
        }
    }
    kept.sort();
    let mut out = Vec::new();
    while let Some(e) = h.pop() {
        out.push(e.instant);
    }
    assert_eq!(out, kept);
}
