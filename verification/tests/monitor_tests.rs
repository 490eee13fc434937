use uptime_monitor::history::{History, State, StateEvent};
use uptime_monitor::monitor::{classify_probe, MonitorState, RETAIN_SECONDS};

fn ev(start: u64, state: State) -> StateEvent {
    StateEvent { start, state }
}

fn fresh_monitor(last_update: u64) -> MonitorState {
    MonitorState::init(History {
        events: Vec::new(),
        last_update,
    })
}

#[test]
fn classify_probe_maps_outcomes() {
    assert_eq!(classify_probe(true), State::Reachable);
    assert_eq!(classify_probe(false), State::Unreachable);
}

#[test]
fn three_probes_record_two_transitions() {
    // Reachable, Reachable, Unreachable at 100, 105, 110 from empty history.
    let mut m = fresh_monitor(0);
    m.step(State::Reachable, 100, RETAIN_SECONDS);
    assert_eq!(m.history.events, vec![ev(100, State::Reachable)]);
    assert_eq!(m.history.last_update, 100);
    m.step(State::Reachable, 105, RETAIN_SECONDS);
    assert_eq!(m.history.events, vec![ev(100, State::Reachable)]);
    assert_eq!(m.history.last_update, 105);
    m.step(State::Unreachable, 110, RETAIN_SECONDS);
    assert_eq!(
        m.history.events,
        vec![ev(100, State::Reachable), ev(110, State::Unreachable)]
    );
    assert_eq!(m.history.last_update, 110);
}

#[test]
fn no_two_adjacent_events_share_a_state() {
    let outcomes = [true, true, false, false, true, false, true, true, false];
    let mut m = fresh_monitor(0);
    let mut now: u64 = 1000;
    for o in outcomes {
        m.step(classify_probe(o), now, RETAIN_SECONDS);
        now += 5;
    }
    for pair in m.history.events.windows(2) {
        assert_ne!(pair[0].state, pair[1].state);
    }
}

#[test]
fn init_pads_restart_gap_and_tracks_unknown() {
    let m = MonitorState::init(History {
        events: vec![ev(400, State::Reachable)],
        last_update: 500,
    });
    assert_eq!(
        m.history.events,
        vec![ev(400, State::Reachable), ev(500, State::Unknown)]
    );
    assert_eq!(m.last_state, State::Unknown);
}

#[test]
fn step_applies_retention() {
    let mut m = MonitorState::init(History {
        events: vec![ev(100, State::Reachable), ev(110, State::Unreachable)],
        last_update: 110,
    });
    // window 60 at time 200 drops both old events; the new probe differs from
    // the tracked state and lands at 200.
    m.step(State::Reachable, 200, 60);
    assert_eq!(m.history.events, vec![ev(200, State::Reachable)]);
}

#[test]
fn can_step_guards_clock_jumps() {
    let m = MonitorState::init(History {
        events: vec![ev(100, State::Reachable)],
        last_update: 100,
    });
    assert!(m.can_step(100));
    assert!(m.can_step(101));
    assert!(!m.can_step(99));
    assert!(fresh_monitor(5).can_step(0));
}
