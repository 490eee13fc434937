//! The in-memory model: reachability states, timestamped transition events,
//! and the `History` record that is persisted between runs.

use vstd::prelude::*;

verus! {

/// Reachability of the monitored target at a point in time.
#[derive(PartialEq, Eq, Structural, Clone, Copy, Debug)]
pub enum State {
    /// No probe data covers this span (startup, or a padded gap).
    Unknown,
    /// A probe completed with any response.
    Reachable,
    /// A probe errored or timed out.
    Unreachable,
}

/// "The target has been in `state` since `start` (seconds since the epoch)."
#[derive(PartialEq, Eq, Structural, Clone, Copy, Debug)]
pub struct StateEvent {
    pub start: u64,
    pub state: State,
}

/// The full monitoring record: transition events ordered by start time,
/// plus the time of the last completed probe cycle.
pub struct History {
    pub events: Vec<StateEvent>,
    pub last_update: u64,
}

/// Event starts never decrease along the sequence.
pub open spec fn starts_sorted(s: Seq<StateEvent>) -> bool {
    forall|i: int, j: int| 0 <= i < j < s.len() ==> (#[trigger] s[i]).start <= (#[trigger] s[j]).start
}

/// No redundant run continuation: adjacent events carry different states.
pub open spec fn no_adjacent_equal(s: Seq<StateEvent>) -> bool {
    forall|i: int, j: int|
        0 <= i && j == i + 1 && j < s.len() ==> (#[trigger] s[i]).state != (#[trigger] s[j]).state
}

/// The state implied by the most recent event, or `Unknown` with no events.
pub open spec fn implied_state(s: Seq<StateEvent>) -> State {
    if s.len() == 0 {
        State::Unknown
    } else {
        s.last().state
    }
}

impl History {
    /// Well-formedness: sorted starts, no adjacent duplicates, and the last
    /// event does not postdate the last completed cycle.
    pub open spec fn wf(self) -> bool {
        &&& starts_sorted(self.events@)
        &&& no_adjacent_equal(self.events@)
        &&& (self.events@.len() > 0 ==> self.events@.last().start <= self.last_update)
    }
}

/// Whether a `History` value satisfies its invariant; lets an unverified
/// caller check a freshly loaded record before handing it to the monitor.
pub fn check_wf(h: &History) -> (r: bool)
    ensures
        r == h.wf(),
{
    let n = h.events.len();
    if n > 0 && h.events[n - 1].start > h.last_update {
        return false;
    }
    let mut i: usize = 1;
    while i < n
        invariant
            n == h.events@.len(),
            1 <= i,
            i <= n || n == 0,
            forall|p: int, q: int|
                0 <= p < q < i ==> (#[trigger] h.events@[p]).start <= (#[trigger] h.events@[q]).start,
            forall|p: int, q: int|
                0 <= p && q == p + 1 && q < i ==> (#[trigger] h.events@[p]).state != (#[trigger] h.events@[q]).state,
            n > 0 ==> h.events@.last().start <= h.last_update,
        decreases n - i,
    {
        if h.events[i - 1].start > h.events[i].start {
            assert(!starts_sorted(h.events@));
            return false;
        }
        if h.events[i - 1].state == h.events[i].state {
            assert(!no_adjacent_equal(h.events@));
            return false;
        }
        proof {
            assert forall|p: int, q: int| 0 <= p < q < i + 1 implies
                h.events@[p].start <= h.events@[q].start by {
                if q == i && p < i - 1 {
                    assert(h.events@[p].start <= h.events@[i - 1].start);
                }
            }
        }
        i += 1;
    }
    true
}

/// The event sequence after one observation: append a new event exactly when
/// the observed state differs from the state the sequence already implies.
pub open spec fn spec_record(s: Seq<StateEvent>, observed: State, timestamp: u64) -> Seq<StateEvent> {
    if implied_state(s) == observed {
        s
    } else {
        s.push(StateEvent { start: timestamp, state: observed })
    }
}

/// Record one observation: append `{start: timestamp, state: observed}` when
/// `observed` differs from the state implied by the last event (or from
/// `Unknown` when no events exist); otherwise leave the run open unchanged.
pub fn record_transition(events: &mut Vec<StateEvent>, observed: State, timestamp: u64)
    ensures
        final(events)@ == spec_record(old(events)@, observed, timestamp),
{
    let n = events.len();
    let changed = if n == 0 {
        !matches!(observed, State::Unknown)
    } else {
        events[n - 1].state != observed
    };
    if changed {
        events.push(StateEvent { start: timestamp, state: observed });
    }
}

/// The event sequence after the restart rule: a synthetic `Unknown` event at
/// `last_update` marks the unmonitored gap when the record ends in a known
/// state that began before the last completed cycle.
pub open spec fn spec_pad(s: Seq<StateEvent>, last_update: u64) -> Seq<StateEvent> {
    if s.len() > 0 && s.last().state != State::Unknown && s.last().start < last_update {
        s.push(StateEvent { start: last_update, state: State::Unknown })
    } else {
        s
    }
}

/// On load after a restart, mark the gap between the last known check and the
/// restart as unmonitored rather than implying a continuous state.
pub fn pad_gap(h: &mut History)
    ensures
        final(h).events@ == spec_pad(old(h).events@, old(h).last_update),
        final(h).last_update == old(h).last_update,
        old(h).wf() ==> final(h).wf(),
{
    let n = h.events.len();
    if n > 0 {
        let last = h.events[n - 1];
        if !matches!(last.state, State::Unknown) && last.start < h.last_update {
            let lu = h.last_update;
            h.events.push(StateEvent { start: lu, state: State::Unknown });
        }
    }
    proof {
        if old(h).wf() && h.events@ != old(h).events@ {
            lemma_wf_push(old(h).events@, h.events@.last());
        }
    }
}

/// Appending an event whose start is no earlier than the last one and whose
/// state differs from the last one preserves both sequence invariants.
pub proof fn lemma_wf_push(s: Seq<StateEvent>, e: StateEvent)
    requires
        starts_sorted(s),
        no_adjacent_equal(s),
        s.len() > 0 ==> s.last().start <= e.start,
        s.len() > 0 ==> s.last().state != e.state,
    ensures
        starts_sorted(s.push(e)),
        no_adjacent_equal(s.push(e)),
{
    let t = s.push(e);
    assert forall|i: int, j: int|
        0 <= i < j < t.len() implies (#[trigger] t[i]).start <= (#[trigger] t[j]).start by {
        if j == s.len() {
            if i < s.len() - 1 {
                assert(s[i].start <= s.last().start);
            }
        } else {
            assert(s[i].start <= s[j].start);
        }
    }
    assert forall|i: int, j: int|
        0 <= i && j == i + 1 && j < t.len() implies (#[trigger] t[i]).state != (#[trigger] t[j]).state by {
        if j < s.len() {
            assert(s[i].state != s[j].state);
        }
    }
}

/// An event survives retention when it began strictly inside the window.
pub open spec fn event_fresh(e: StateEvent, now: u64, window: u64) -> bool {
    e.start as int > now as int - window as int
}

/// The event sequence after retention: the subsequence of events that began
/// strictly inside the window, in order.
pub open spec fn spec_retain(s: Seq<StateEvent>, now: u64, window: u64) -> Seq<StateEvent>
    decreases s.len(),
{
    if s.len() == 0 {
        Seq::empty()
    } else {
        let rest = spec_retain(s.drop_last(), now, window);
        if event_fresh(s.last(), now, window) {
            rest.push(s.last())
        } else {
            rest
        }
    }
}

/// Drop every event with `start <= now - window`, preserving order.
pub fn retain(events: &mut Vec<StateEvent>, now: u64, window: u64)
    ensures
        final(events)@ == spec_retain(old(events)@, now, window),
{
    let mut kept: Vec<StateEvent> = Vec::new();
    let n = events.len();
    let mut i: usize = 0;
    while i < n
        invariant
            n == events@.len(),
            i <= n,
            kept@ == spec_retain(events@.subrange(0, i as int), now, window),
        decreases n - i,
    {
        let e = events[i];
        let fresh = now < window || e.start > now - window;
        proof {
            assert(fresh == event_fresh(e, now, window));
            assert(events@.subrange(0, i + 1).drop_last() =~= events@.subrange(0, i as int));
            assert(events@.subrange(0, i + 1).last() == e);
        }
        if fresh {
            kept.push(e);
        }
        i += 1;
    }
    proof {
        assert(events@.subrange(0, n as int) =~= events@);
    }
    *events = kept;
}

/// Every event that retention keeps began strictly inside the window.
pub proof fn lemma_retain_all_fresh(s: Seq<StateEvent>, now: u64, window: u64)
    ensures
        forall|k: int|
            0 <= k < spec_retain(s, now, window).len()
                ==> event_fresh(#[trigger] spec_retain(s, now, window)[k], now, window),
    decreases s.len(),
{
    if s.len() > 0 {
        lemma_retain_all_fresh(s.drop_last(), now, window);
        let rest = spec_retain(s.drop_last(), now, window);
        assert forall|k: int|
            0 <= k < spec_retain(s, now, window).len() implies
            event_fresh(#[trigger] spec_retain(s, now, window)[k], now, window) by {
            if k < rest.len() {
                assert(spec_retain(s, now, window)[k] == rest[k]);
            } else {
                assert(event_fresh(s.last(), now, window));
                assert(spec_retain(s, now, window)[k] == s.last());
            }
        }
    }
}

/// Retention leaves a sequence of events that all began inside the window
/// unchanged.
pub proof fn lemma_retain_of_fresh(s: Seq<StateEvent>, now: u64, window: u64)
    requires
        forall|k: int| 0 <= k < s.len() ==> event_fresh(#[trigger] s[k], now, window),
    ensures
        spec_retain(s, now, window) == s,
    decreases s.len(),
{
    if s.len() > 0 {
        lemma_retain_of_fresh(s.drop_last(), now, window);
        assert(spec_retain(s, now, window) =~= s.drop_last().push(s.last()));
        assert(s.drop_last().push(s.last()) =~= s);
    }
}

/// Law: retention is idempotent — applying it twice is applying it once.
pub proof fn lemma_retain_idempotent(s: Seq<StateEvent>, now: u64, window: u64)
    ensures
        spec_retain(spec_retain(s, now, window), now, window) == spec_retain(s, now, window),
{
    lemma_retain_all_fresh(s, now, window);
    lemma_retain_of_fresh(spec_retain(s, now, window), now, window);
}

/// Retention preserves both sequence invariants; when it keeps anything, the
/// most recent event survives, and when the most recent event is stale the
/// whole (sorted) sequence is stale and nothing survives.
pub proof fn lemma_retain_wf(s: Seq<StateEvent>, now: u64, window: u64)
    requires
        starts_sorted(s),
        no_adjacent_equal(s),
    ensures
        starts_sorted(spec_retain(s, now, window)),
        no_adjacent_equal(spec_retain(s, now, window)),
        spec_retain(s, now, window).len() > 0 ==> spec_retain(s, now, window).last() == s.last(),
        s.len() > 0 && !event_fresh(s.last(), now, window)
            ==> spec_retain(s, now, window) == Seq::<StateEvent>::empty(),
    decreases s.len(),
{
    if s.len() > 0 {
        let b = s.drop_last();
        let l = s.last();
        assert forall|i: int, j: int|
            0 <= i < j < b.len() implies (#[trigger] b[i]).start <= (#[trigger] b[j]).start by {
            assert(s[i].start <= s[j].start);
        }
        assert forall|i: int, j: int|
            0 <= i && j == i + 1 && j < b.len() implies
            (#[trigger] b[i]).state != (#[trigger] b[j]).state by {
            assert(s[i].state != s[j].state);
        }
        lemma_retain_wf(b, now, window);
        let rb = spec_retain(b, now, window);
        if !event_fresh(l, now, window) {
            if b.len() > 0 {
                assert(b.last() == s[s.len() - 2]);
                assert(s[s.len() - 2].start <= s[s.len() - 1].start);
                assert(!event_fresh(b.last(), now, window));
            }
            assert(spec_retain(s, now, window) == rb);
        } else {
            if rb.len() > 0 {
                assert(b.len() > 0);
                assert(rb.last() == b.last());
                assert(b.last() == s[s.len() - 2]);
                assert(s[s.len() - 2].start <= l.start);
                assert(s[s.len() - 2].state != l.state);
                lemma_wf_push(rb, l);
            } else {
                lemma_wf_push(rb, l);
            }
        }
    }
}

} // verus!
