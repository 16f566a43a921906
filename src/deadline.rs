//! The deadline that the timer is armed to, and the scheduling steps that
//! keep it no later than the earliest scheduled event.
use vstd::prelude::*;
use crate::heap::{Heap, Slot, TimeEvent, earliest};

verus! {

/// The deadline that results from asking to arm at `timeout` when `prev` is
/// armed: arming only ever moves the deadline earlier.
pub open spec fn armed_after(prev: Option<u64>, timeout: u64) -> u64 {
    match prev {
        None => timeout,
        Some(p) => if timeout < p { timeout } else { p },
    }
}

/// The absolute instant (in nanoseconds) that the deadline timer is armed to.
pub struct Deadline {
    pub next: Option<u64>,
}

impl Deadline {
    /// No deadline armed.
    pub fn new() -> (r: Deadline)
        ensures
            r.next is None,
    {
        Deadline { next: None }
    }

    /// Asks for the timer to fire no later than `timeout`. Returns whether
    /// the timer must be set to `timeout`: that is, whether nothing was armed
    /// or `timeout` is earlier than what was.
    pub fn update_timeout(&mut self, timeout: u64) -> (arm: bool)
        ensures
            arm == (old(self).next matches Some(p) ==> timeout < p),
            final(self).next == Some(armed_after(old(self).next, timeout)),
            arm ==> final(self).next == Some(timeout),
    {
        let arm = match self.next {
            None => true,
            Some(p) => timeout < p,
        };
        if arm {
            self.next = Some(timeout);
        }
        arm
    }

    /// Records whether the timer was found to have fired; once it has, no
    /// deadline is armed any more.
    pub fn reap(&mut self, elapsed: bool)
        ensures
            elapsed ==> final(self).next is None,
            !elapsed ==> final(self).next == old(self).next,
    {
        if elapsed {
            self.next = None;
        }
    }
}

/// Two requests to arm, with no reaping in between, leave the timer armed to
/// the earliest of the two and of what was armed before.
pub proof fn lemma_arm_is_minimum(prev: Option<u64>, t1: u64, t2: u64)
    ensures
        ({
            let d = armed_after(Some(armed_after(prev, t1)), t2);
            &&& d <= t1
            &&& d <= t2
            &&& (prev matches Some(p) ==> d <= p)
            &&& (d == t1 || d == t2 || prev == Some(d))
        }),
{
}

/// Schedules `instant` for `key` and asks for the timer to fire by then.
/// Returns the slot of the new event and whether the timer must be set to
/// `instant`.
pub fn add_instant(heap: &mut Heap, deadline: &mut Deadline, instant: u64, key: usize) -> (r: (
    Slot,
    bool,
))
    requires
        old(heap).wf(),
    ensures
        final(heap).wf(),
        !old(heap).issued(r.0),
        !old(heap)@.contains_key(r.0),
        final(heap)@ == old(heap)@.insert(r.0, TimeEvent { instant, key }),
        forall|s: Slot| old(heap).spent(s) ==> #[trigger] final(heap).spent(s),
        r.1 == (old(deadline).next matches Some(p) ==> instant < p),
        final(deadline).next == Some(armed_after(old(deadline).next, instant)),
{
    let slot = heap.push(TimeEvent { instant, key });
    let arm = deadline.update_timeout(instant);
    (slot, arm)
}

/// Before blocking: asks for the timer to fire by the earliest scheduled
/// event, if any. Returns the instant that the timer must be set to, if the
/// armed deadline moved.
pub fn arm_for_wait(heap: &Heap, deadline: &mut Deadline) -> (r: Option<u64>)
    requires
        heap.wf(),
    ensures
        (forall|s: Slot| !heap@.contains_key(s)) ==> r is None && final(deadline).next == old(
            deadline,
        ).next,
        forall|s: Slot|
            #[trigger] earliest(heap@, s) ==> final(deadline).next == Some(
                armed_after(old(deadline).next, heap@[s].instant),
            ) && (r is Some <==> (old(deadline).next matches Some(p) ==> heap@[s].instant < p)),
        r matches Some(t) ==> final(deadline).next == Some(t),
{
    match heap.peek() {
        None => None,
        Some(e) => {
            let arm = deadline.update_timeout(e.instant);
            proof {
                assert forall|s: Slot| #[trigger] earliest(heap@, s) implies heap@[s].instant
                    == e.instant by {
                    let t = choose|t: Slot| #[trigger] earliest(heap@, t) && heap@[t] == e;
                    assert(heap@.contains_key(t));
                    assert(heap@.contains_key(s));
                }
            }
            if arm {
                Some(e.instant)
            } else {
                None
            }
        },
    }
}

} // verus!
