//! The snapshot poller's cadence discipline. The shell owns the timer and the
//! walk; the poller decides, tick by tick, whether a new walk may start:
//! never while one is in flight, and never after cancellation. A walk already
//! in flight is allowed to finish after cancellation. A cycle that outlasts
//! the interval therefore delays the next walk instead of overlapping it.

use vstd::prelude::*;

verus! {

/// What the shell reports to the poller: a timer tick, the end of the walk
/// in flight, or the poller's cancellation.
#[derive(Debug, Clone, Copy, PartialEq, Eq, Structural)]
pub enum PollEvent {
    Tick,
    WalkFinished,
    Cancel,
}

/// What the shell should do now: start one walk, or nothing.
#[derive(Debug, Clone, Copy, PartialEq, Eq, Structural)]
pub enum PollAction {
    StartWalk,
    Idle,
}

/// The per-cluster scheduling state: whether a walk is in flight and whether
/// the poller was cancelled.
#[derive(Debug, Clone, Copy, PartialEq, Eq, Structural)]
pub struct Poller {
    pub in_flight: bool,
    pub cancelled: bool,
}

/// The poller's transition relation: a tick starts a walk only when none is
/// in flight and the poller is live; everything else is bookkeeping.
pub open spec fn spec_poll_step(p: Poller, ev: PollEvent) -> (Poller, PollAction) {
    match ev {
        PollEvent::Tick => if !p.in_flight && !p.cancelled {
            (Poller { in_flight: true, cancelled: p.cancelled }, PollAction::StartWalk)
        } else {
            (p, PollAction::Idle)
        },
        PollEvent::WalkFinished => (
            Poller { in_flight: false, cancelled: p.cancelled },
            PollAction::Idle,
        ),
        PollEvent::Cancel => (Poller { in_flight: p.in_flight, cancelled: true }, PollAction::Idle),
    }
}

impl Poller {
    /// A live poller with no walk in flight.
    pub fn new() -> (p: Poller)
        ensures
            !p.in_flight,
            !p.cancelled,
    {
        Poller { in_flight: false, cancelled: false }
    }

    /// Applies one event and answers what the shell should do. A walk starts
    /// only out of an idle, live poller.
    pub fn step(&mut self, ev: PollEvent) -> (a: PollAction)
        ensures
            (*final(self), a) == spec_poll_step(*old(self), ev),
            a == PollAction::StartWalk ==> (!old(self).in_flight && !old(self).cancelled
                && final(self).in_flight),
    {
        match ev {
            PollEvent::Tick => {
                if !self.in_flight && !self.cancelled {
                    self.in_flight = true;
                    PollAction::StartWalk
                } else {
                    PollAction::Idle
                }
            },
            PollEvent::WalkFinished => {
                self.in_flight = false;
                PollAction::Idle
            },
            PollEvent::Cancel => {
                self.cancelled = true;
                PollAction::Idle
            },
        }
    }
}

/// The poller's state after the first `t` events of a run.
pub open spec fn state_at(p0: Poller, evs: Seq<PollEvent>, t: int) -> Poller
    decreases t,
{
    if t <= 0 {
        p0
    } else {
        spec_poll_step(state_at(p0, evs, t - 1), evs[t - 1]).0
    }
}

/// The action the poller answers to the event at `t`.
pub open spec fn action_at(p0: Poller, evs: Seq<PollEvent>, t: int) -> PollAction {
    spec_poll_step(state_at(p0, evs, t), evs[t]).1
}

/// While no walk finishes, the walk in flight stays in flight.
proof fn lemma_in_flight_persists(p0: Poller, evs: Seq<PollEvent>, t: int, u: int)
    requires
        0 <= t <= u <= evs.len(),
        state_at(p0, evs, t).in_flight,
        forall|k: int| t <= k < u ==> evs[k] != PollEvent::WalkFinished,
    ensures
        state_at(p0, evs, u).in_flight,
    decreases u - t,
{
    if t < u {
        assert(evs[t] != PollEvent::WalkFinished);
        assert(state_at(p0, evs, t + 1).in_flight);
        lemma_in_flight_persists(p0, evs, t + 1, u);
    }
}

/// Law: a poll cycle that outlasts the interval does not overlap the next
/// one. In any run of the poller, a walk finishes strictly between any two
/// walk starts: the next walk starts only after the previous one completed.
pub proof fn lemma_no_overlapping_walks(p0: Poller, evs: Seq<PollEvent>, i: int, j: int)
    requires
        0 <= i < j < evs.len(),
        action_at(p0, evs, i) == PollAction::StartWalk,
        action_at(p0, evs, j) == PollAction::StartWalk,
    ensures
        exists|k: int| i < k < j && evs[k] == PollEvent::WalkFinished,
{
    assert(state_at(p0, evs, i + 1).in_flight);
    if !(exists|k: int| i < k < j && evs[k] == PollEvent::WalkFinished) {
        assert forall|k: int| i + 1 <= k < j implies evs[k] != PollEvent::WalkFinished by {
            if evs[k] == PollEvent::WalkFinished {
                assert(i < k < j && evs[k] == PollEvent::WalkFinished);
            }
        }
        lemma_in_flight_persists(p0, evs, i + 1, j);
        assert(action_at(p0, evs, j) == PollAction::Idle);
        assert(false);
    }
}

} // verus!
