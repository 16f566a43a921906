//! The decisions of the wait loop, and the arithmetic on the monotonic
//! instants that the deadline timer is set with.
use vstd::prelude::*;

verus! {

pub const NANOS_PER_SEC: u64 = 1_000_000_000;

/// What to do after one poll of the readiness multiplexor.
#[derive(Clone, Copy, Debug, PartialEq, Eq, Structural)]
pub enum PollStep {
    /// A blocking poll came back empty: poll again, blocking.
    Repoll,
    /// Hand the batch to the handler; where `more`, the batch filled the
    /// buffer, so poll again without blocking to drain the kernel's queue.
    Deliver { more: bool },
}

/// The state of the poll loop inside one wait.
pub struct PollLoop {
    pub nonblock: bool,
}

impl PollLoop {
    /// Starts the loop. Where deadlines were already handed out in this wait
    /// the first poll does not block, so that ready descriptors are still
    /// collected.
    pub fn new(done_any: bool) -> (r: PollLoop)
        ensures
            r.nonblock == done_any,
    {
        PollLoop { nonblock: done_any }
    }

    /// The timeout for the next poll, in nanoseconds: none (block until an
    /// event) or zero.
    pub fn timeout(&self) -> (r: Option<u64>)
        ensures
            self.nonblock ==> r == Some(0u64),
            !self.nonblock ==> r is None,
    {
        if self.nonblock {
            Some(0)
        } else {
            None
        }
    }

    /// The step after a poll that returned `n` events into a buffer of
    /// `capacity`.
    pub fn after_poll(&mut self, n: usize, capacity: usize) -> (r: PollStep)
        ensures
            !old(self).nonblock && n == 0 ==> r == PollStep::Repoll && final(self).nonblock
                == old(self).nonblock,
            old(self).nonblock || n > 0 ==> r == (PollStep::Deliver { more: n >= capacity })
                && final(self).nonblock == (old(self).nonblock || n >= capacity),
    {
        if !self.nonblock && n == 0 {
            PollStep::Repoll
        } else {
            let more = n >= capacity;
            if more {
                self.nonblock = true;
            }
            PollStep::Deliver { more }
        }
    }
}

/// What the timer's worker thread does next.
#[derive(Clone, Copy, Debug, PartialEq, Eq, Structural)]
pub enum TimerAction {
    /// The timer is being dropped: end the thread.
    Stop,
    /// Nothing armed: park until woken.
    Park,
    /// Armed for later: park for this many nanoseconds, or until woken.
    ParkFor(u64),
    /// The deadline has passed: disarm, then signal readiness.
    Fire,
}

/// The worker thread's decision, given what it was last told (`None` once
/// the timer is dropped, else the armed instant, if any) and the time `now`.
pub fn timer_step(target: Option<Option<u64>>, now: u64) -> (r: TimerAction)
    ensures
        target is None ==> r == TimerAction::Stop,
        target == Some(None::<u64>) ==> r == TimerAction::Park,
        target matches Some(Some(t)) ==> (if now < t {
            r == TimerAction::ParkFor((t - now) as u64)
        } else {
            r == TimerAction::Fire
        }),
{
    match target {
        None => TimerAction::Stop,
        Some(None) => TimerAction::Park,
        Some(Some(t)) => {
            if now < t {
                TimerAction::ParkFor(t - now)
            } else {
                TimerAction::Fire
            }
        },
    }
}

/// Whether an 8-byte read of the timer's expiration count reports that it
/// fired: whether the count is nonzero, whatever the byte order.
pub fn timer_fired(buf: &[u8; 8]) -> (r: bool)
    ensures
        r == exists|i: int| 0 <= i < 8 && #[trigger] buf@[i] != 0,
{
    let mut i: usize = 0;
    while i < 8
        invariant
            i <= 8,
            buf@.len() == 8,
            forall|k: int| 0 <= k < i ==> #[trigger] buf@[k] == 0,
        decreases 8 - i,
    {
        if buf[i] != 0 {
            assert(buf@[i as int] != 0);
            return true;
        }
        i += 1;
    }
    false
}

/// Whole seconds of an instant given in nanoseconds.
pub fn as_secs(nanos: u64) -> (r: u64)
    ensures
        r == nanos / NANOS_PER_SEC,
{
    nanos / NANOS_PER_SEC
}

/// Nanoseconds past the whole second of an instant given in nanoseconds.
pub fn subsec_nanos(nanos: u64) -> (r: u32)
    ensures
        r == nanos % NANOS_PER_SEC,
{
    (nanos % NANOS_PER_SEC) as u32
}

/// The instant in nanoseconds of a (seconds, nanoseconds) reading of the
/// monotonic clock; none where `nsec` is not below one second or the sum does
/// not fit.
pub fn nanos_of(secs: u64, nsec: u32) -> (r: Option<u64>)
    ensures
        r is Some <==> nsec < NANOS_PER_SEC && secs * NANOS_PER_SEC + nsec <= u64::MAX,
        r matches Some(n) ==> n == secs * NANOS_PER_SEC + nsec,
{
    if nsec as u64 >= NANOS_PER_SEC {
        return None;
    }
    match secs.checked_mul(NANOS_PER_SEC) {
        None => None,
        Some(s) => s.checked_add(nsec as u64),
    }
}

/// Splitting an instant into seconds and nanoseconds and joining them again
/// gives the instant back.
pub proof fn lemma_split_join(nanos: u64)
    ensures
        (nanos / NANOS_PER_SEC) * NANOS_PER_SEC + nanos % NANOS_PER_SEC == nanos,
        nanos % NANOS_PER_SEC < NANOS_PER_SEC,
{
    assert((nanos / NANOS_PER_SEC) * NANOS_PER_SEC + nanos % NANOS_PER_SEC == nanos) by (nonlinear_arith);
}

} // verus!
