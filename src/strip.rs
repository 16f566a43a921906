//! The strip set: tokens whose descriptors were deregistered while a wait is
//! in progress, whose already-polled events must not reach the handler.
use std::collections::HashSet;
use vstd::prelude::*;

verus! {

broadcast use vstd::std_specs::hash::group_hash_axioms;

/// The token that the deadline timer is registered under. No key may map to
/// it; the one above it is taken by the poller itself.
pub const TIMER_TOKEN: usize = usize::MAX - 1;

/// A readiness mask.
#[derive(Clone, Copy, Debug, PartialEq, Eq, Structural)]
pub struct Readiness {
    pub readable: bool,
    pub writable: bool,
    pub hup: bool,
    pub error: bool,
}

impl Readiness {
    /// Readable, writable, hang-up and error: the interest that descriptors
    /// are registered with.
    pub fn all() -> (r: Readiness)
        ensures
            r.readable && r.writable && r.hup && r.error,
    {
        Readiness { readable: true, writable: true, hup: true, error: true }
    }

    /// Readable alone: the interest that triggers are registered with.
    pub fn readable() -> (r: Readiness)
        ensures
            r.readable && !r.writable && !r.hup && !r.error,
    {
        Readiness { readable: true, writable: false, hup: false, error: false }
    }
}

/// One readiness event as the poller reports it.
#[derive(Clone, Copy, Debug, PartialEq, Eq, Structural)]
pub struct ReadyEvent {
    pub token: usize,
    pub readiness: Readiness,
}

/// A set of tokens.
pub struct StripSet {
    tokens: HashSet<usize>,
}

impl StripSet {
    pub closed spec fn view(&self) -> Set<usize> {
        self.tokens@
    }

    /// The empty set.
    pub fn new() -> (r: StripSet)
        ensures
            r@ == Set::<usize>::empty(),
    {
        StripSet { tokens: HashSet::new() }
    }

    /// Whether `token` is in the set.
    pub fn contains(&self, token: usize) -> (r: bool)
        ensures
            r == self@.contains(token),
    {
        self.tokens.contains(&token)
    }

    /// Adds `token`. Returns false where it was already there.
    pub fn insert(&mut self, token: usize) -> (fresh: bool)
        ensures
            fresh == !old(self)@.contains(token),
            final(self)@ == old(self)@.insert(token),
    {
        self.tokens.insert(token)
    }

    /// Takes `token` out, if it is there.
    pub fn remove(&mut self, token: usize)
        ensures
            final(self)@ == old(self)@.remove(token),
    {
        let _ = self.tokens.remove(&token);
    }
}

/// The tokens of an optional strip set: present only while a poll of a wait
/// is being handled.
pub open spec fn strip_view(o: Option<StripSet>) -> Option<Set<usize>> {
    match o {
        None => None,
        Some(s) => Some(s@),
    }
}

/// Registration of a descriptor or trigger under `token`. Refuses the timer's
/// token (returns false, changing nothing); otherwise, where a wait is in
/// progress, takes the token out of its strip set, so that re-registering
/// undoes a pending strip.
pub fn on_register(strip: &mut Option<StripSet>, token: usize) -> (ok: bool)
    ensures
        ok == (token != TIMER_TOKEN),
        !ok ==> strip_view(*final(strip)) == strip_view(*old(strip)),
        ok ==> strip_view(*final(strip)) == match strip_view(*old(strip)) {
            None => None,
            Some(t) => Some(t.remove(token)),
        },
{
    if token == TIMER_TOKEN {
        return false;
    }
    match strip {
        None => {},
        Some(s) => {
            s.remove(token);
        },
    }
    true
}

/// Deregistration of the descriptor under `token`. Where a wait is in
/// progress, its strip set gains the token; returns false where the token was
/// already stripped in this wait.
pub fn on_deregister(strip: &mut Option<StripSet>, token: usize) -> (ok: bool)
    ensures
        ok == !(strip_view(*old(strip)) matches Some(t) && t.contains(token)),
        strip_view(*final(strip)) == match strip_view(*old(strip)) {
            None => None,
            Some(t) => Some(t.insert(token)),
        },
{
    match strip {
        None => true,
        Some(s) => s.insert(token),
    }
}

/// Installs an empty strip set as a poll of the wait begins. Returns false
/// where one was already installed, which only a second concurrent wait can
/// cause.
pub fn begin_poll(strip: &mut Option<StripSet>) -> (ok: bool)
    ensures
        ok == (*old(strip) is None),
        strip_view(*final(strip)) == Some(Set::<usize>::empty()),
{
    let ok = strip.is_none();
    *strip = Some(StripSet::new());
    ok
}

/// Takes the strip set out once every event of the poll has been decided
/// on; from then on deregistrations strip nothing until the next poll
/// begins.
pub fn end_poll(strip: &mut Option<StripSet>) -> (r: Option<StripSet>)
    ensures
        strip_view(*final(strip)) is None,
        strip_view(r) == strip_view(*old(strip)),
{
    strip.take()
}

/// Whether a polled event for `token` reaches the handler, decided against
/// the strip set as it stands right before the handler call: not the timer's
/// own event, and not one whose descriptor was deregistered since the poll
/// began.
pub open spec fn delivers(strip: Option<Set<usize>>, token: usize) -> bool {
    token != TIMER_TOKEN && !(strip matches Some(t) && t.contains(token))
}

/// Decides on one polled event right before its handler call.
pub fn deliver_now(strip: &Option<StripSet>, e: ReadyEvent) -> (r: bool)
    ensures
        r == delivers(strip_view(*strip), e.token),
{
    if e.token == TIMER_TOKEN {
        return false;
    }
    match strip {
        None => true,
        Some(s) => !s.contains(e.token),
    }
}

/// A descriptor deregistered while a poll is being handled gets no further
/// event of that poll delivered, whatever other tokens are stripped or
/// registered meanwhile, until its own token is registered again.
pub proof fn lemma_deregistered_not_delivered(
    states: Seq<Option<Set<usize>>>,
    tokens: Seq<usize>,
    token: usize,
    k: int,
)
    requires
        states.len() == tokens.len() + 1,
        0 <= k < tokens.len(),
        states[k] is Some,
        tokens[k] == token,
        states[k + 1] == Some(states[k]->0.insert(token)),
        forall|i: int|
            k < i < tokens.len() ==> states[i + 1] == Some(states[i]->0.insert(#[trigger] tokens[i]))
                || (tokens[i] != token && states[i + 1] == Some(states[i]->0.remove(tokens[i]))),
    ensures
        forall|i: int| k < i < states.len() ==> !delivers(#[trigger] states[i], token),
    decreases tokens.len() - k,
{
    if k + 1 < tokens.len() {
        assert forall|i: int| k + 1 < i < states.len() implies !delivers(#[trigger] states[i], token) by {
            lemma_stays_stripped(states, tokens, token, k + 1, i);
        }
    }
}

proof fn lemma_stays_stripped(
    states: Seq<Option<Set<usize>>>,
    tokens: Seq<usize>,
    token: usize,
    k: int,
    i: int,
)
    requires
        states.len() == tokens.len() + 1,
        0 <= k < i < states.len(),
        states[k] matches Some(t) && t.contains(token),
        forall|j: int|
            k <= j < tokens.len() ==> states[j + 1] == Some(states[j]->0.insert(#[trigger] tokens[j]))
                || (tokens[j] != token && states[j + 1] == Some(states[j]->0.remove(tokens[j]))),
    ensures
        states[i] matches Some(t) && t.contains(token),
    decreases i - k,
{
    assert(states[k + 1] == Some(states[k]->0.insert(tokens[k])) || (tokens[k] != token
        && states[k + 1] == Some(states[k]->0.remove(tokens[k]))));
    if k + 1 < i {
        lemma_stays_stripped(states, tokens, token, k + 1, i);
    }
}

} // verus!
