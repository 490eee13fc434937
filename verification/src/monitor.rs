//! The monitor loop's state machine: what one probe cycle decides, separated
//! from the clock, the network probe, the sleep, and the file writes that an
//! embedding program performs around it.

use vstd::prelude::*;
use crate::history::{
    History, State, StateEvent, implied_state, lemma_retain_wf, lemma_wf_push, no_adjacent_equal,
    pad_gap, record_transition, retain, spec_pad, spec_record, spec_retain,
};

verus! {

/// Seconds between probe cycles.
pub const INTERVAL_SECONDS: u64 = 5;

/// Timeout of a single probe, in seconds.
pub const PROBE_TIMEOUT_SECONDS: u64 = 1;

/// Default retention window: seven days, in seconds.
pub const RETAIN_SECONDS: u64 = 60 * 60 * 24 * 7;

/// Map one probe outcome to a state: any completed response means reachable,
/// any error or timeout means unreachable. A probe never yields `Unknown`;
/// that state is reserved for spans without probe data.
pub fn classify_probe(success: bool) -> (s: State)
    ensures
        s == (if success { State::Reachable } else { State::Unreachable }),
        s != State::Unknown,
{
    if success {
        State::Reachable
    } else {
        State::Unreachable
    }
}

/// The monitor loop's in-memory state: the history it exclusively owns, plus
/// the state seen by the most recent cycle.
pub struct MonitorState {
    pub history: History,
    pub last_state: State,
}

/// The event sequence after one full cycle at time `now`: a transition is
/// recorded when the observation differs from the tracked state, then
/// retention is applied.
pub open spec fn spec_step_events(
    s: Seq<StateEvent>,
    seen: State,
    observed: State,
    now: u64,
    window: u64,
) -> Seq<StateEvent> {
    spec_retain(
        if observed == seen {
            s
        } else {
            spec_record(s, observed, now)
        },
        now,
        window,
    )
}

impl MonitorState {
    /// The loop's invariant: the history is well formed, and whenever events
    /// remain, the tracked state is the most recent event's state.
    pub open spec fn inv(self) -> bool {
        &&& self.history.wf()
        &&& (self.history.events@.len() > 0 ==> self.last_state == self.history.events@.last().state)
    }

    /// Startup: pad the restart gap with `Unknown`, then track the state the
    /// padded record implies.
    pub fn init(history: History) -> (m: MonitorState)
        requires
            history.wf(),
        ensures
            m.inv(),
            m.history.events@ == spec_pad(history.events@, history.last_update),
            m.history.last_update == history.last_update,
            m.last_state == implied_state(m.history.events@),
    {
        let mut h = history;
        pad_gap(&mut h);
        let n = h.events.len();
        let last_state = if n == 0 {
            State::Unknown
        } else {
            h.events[n - 1].state
        };
        MonitorState { history: h, last_state }
    }

    /// Whether a cycle at time `now` would keep event starts monotone.
    pub open spec fn spec_can_step(self, now: u64) -> bool {
        self.history.events@.len() > 0 ==> self.history.events@.last().start <= now
    }

    /// Exec check of `spec_can_step`, for an unverified caller whose clock may
    /// have jumped backwards.
    pub fn can_step(&self, now: u64) -> (r: bool)
        ensures
            r == self.spec_can_step(now),
    {
        let n = self.history.events.len();
        n == 0 || self.history.events[n - 1].start <= now
    }

    /// One monitor cycle at time `now` with observation `observed`: record a
    /// transition when the observation differs from the tracked state, mark
    /// the cycle complete, and apply retention. The resulting event sequence
    /// never holds two adjacent events with equal states.
    pub fn step(&mut self, observed: State, now: u64, window: u64)
        requires
            old(self).inv(),
            observed != State::Unknown,
            old(self).spec_can_step(now),
        ensures
            final(self).inv(),
            final(self).history.last_update == now,
            final(self).last_state == observed,
            final(self).history.events@ == spec_step_events(
                old(self).history.events@,
                old(self).last_state,
                observed,
                now,
                window,
            ),
            no_adjacent_equal(final(self).history.events@),
    {
        let ghost s0 = self.history.events@;
        let changed = self.last_state != observed;
        if changed {
            record_transition(&mut self.history.events, observed, now);
            self.last_state = observed;
        }
        let ghost s1 = self.history.events@;
        proof {
            if changed {
                assert(implied_state(s0) != observed);
                assert(s1 == s0.push(StateEvent { start: now, state: observed }));
                lemma_wf_push(s0, StateEvent { start: now, state: observed });
            }
            assert(s1.len() > 0 ==> s1.last().state == observed && s1.last().start <= now);
        }
        self.history.last_update = now;
        retain(&mut self.history.events, now, window);
        proof {
            lemma_retain_wf(s1, now, window);
        }
    }
}

} // verus!
