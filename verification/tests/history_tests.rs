use uptime_monitor::history::{
    check_wf, pad_gap, record_transition, retain, History, State, StateEvent,
};

fn ev(start: u64, state: State) -> StateEvent {
    StateEvent { start, state }
}

#[test]
fn record_appends_on_change_from_empty() {
    let mut events: Vec<StateEvent> = Vec::new();
    record_transition(&mut events, State::Reachable, 100);
    assert_eq!(events, vec![ev(100, State::Reachable)]);
}

#[test]
fn record_keeps_run_open_on_same_state() {
    let mut events = vec![ev(100, State::Reachable)];
    record_transition(&mut events, State::Reachable, 105);
    assert_eq!(events, vec![ev(100, State::Reachable)]);
}

#[test]
fn record_ignores_unknown_on_empty() {
    let mut events: Vec<StateEvent> = Vec::new();
    record_transition(&mut events, State::Unknown, 50);
    assert!(events.is_empty());
}

#[test]
fn record_appends_transition() {
    let mut events = vec![ev(100, State::Reachable)];
    record_transition(&mut events, State::Unreachable, 110);
    assert_eq!(
        events,
        vec![ev(100, State::Reachable), ev(110, State::Unreachable)]
    );
}

#[test]
fn retain_drops_events_at_or_before_cutoff() {
    // window = 60, now = 200: drops every event with start <= 140.
    let mut events = vec![
        ev(100, State::Reachable),
        ev(140, State::Unreachable),
        ev(141, State::Reachable),
        ev(200, State::Unreachable),
    ];
    retain(&mut events, 200, 60);
    assert_eq!(
        events,
        vec![ev(141, State::Reachable), ev(200, State::Unreachable)]
    );
}

#[test]
fn retain_twice_equals_once() {
    let mut once = vec![
        ev(10, State::Reachable),
        ev(150, State::Unreachable),
        ev(199, State::Reachable),
    ];
    let mut twice = once.clone();
    retain(&mut once, 200, 60);
    retain(&mut twice, 200, 60);
    retain(&mut twice, 200, 60);
    assert_eq!(once, twice);
}

#[test]
fn retain_with_small_now_keeps_everything() {
    // now < window: the cutoff is negative and nothing is dropped.
    let mut events = vec![ev(0, State::Reachable), ev(5, State::Unreachable)];
    retain(&mut events, 10, 60);
    assert_eq!(
        events,
        vec![ev(0, State::Reachable), ev(5, State::Unreachable)]
    );
}

#[test]
fn pad_gap_appends_unknown_after_restart() {
    // last event {start: 400, state: Ok} with last_update 500 pads {500, Unknown}.
    let mut h = History {
        events: vec![ev(400, State::Reachable)],
        last_update: 500,
    };
    pad_gap(&mut h);
    assert_eq!(
        h.events,
        vec![ev(400, State::Reachable), ev(500, State::Unknown)]
    );
    assert_eq!(h.last_update, 500);
}

#[test]
fn pad_gap_skips_unknown_tail() {
    let mut h = History {
        events: vec![ev(400, State::Unknown)],
        last_update: 500,
    };
    pad_gap(&mut h);
    assert_eq!(h.events, vec![ev(400, State::Unknown)]);
}

#[test]
fn pad_gap_skips_fresh_tail_and_empty() {
    let mut h = History {
        events: vec![ev(500, State::Reachable)],
        last_update: 500,
    };
    pad_gap(&mut h);
    assert_eq!(h.events, vec![ev(500, State::Reachable)]);
    let mut e = History {
        events: Vec::new(),
        last_update: 500,
    };
    pad_gap(&mut e);
    assert!(e.events.is_empty());
}

#[test]
fn check_wf_accepts_good_and_rejects_bad() {
    let good = History {
        events: vec![ev(100, State::Reachable), ev(110, State::Unreachable)],
        last_update: 120,
    };
    assert!(check_wf(&good));
    let unsorted = History {
        events: vec![ev(110, State::Reachable), ev(100, State::Unreachable)],
        last_update: 120,
    };
    assert!(!check_wf(&unsorted));
    let duplicated = History {
        events: vec![ev(100, State::Reachable), ev(110, State::Reachable)],
        last_update: 120,
    };
    assert!(!check_wf(&duplicated));
    let stale_update = History {
        events: vec![ev(100, State::Reachable)],
        last_update: 90,
    };
    assert!(!check_wf(&stale_update));
}
