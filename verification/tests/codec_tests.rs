use uptime_monitor::clock::current_time;
use uptime_monitor::codec::{encode_history, load_data, LoadError};
use uptime_monitor::history::{History, State, StateEvent};

fn ev(start: u64, state: State) -> StateEvent {
    StateEvent { start, state }
}

fn doc(text: &str) -> Vec<u8> {
    text.as_bytes().to_vec()
}

#[test]
fn encode_empty_history_is_canonical() {
    let h = History {
        events: Vec::new(),
        last_update: 5,
    };
    let out = encode_history(&h);
    assert_eq!(out, doc("{\"states\":[],\"last_update\":5}"));
}

#[test]
fn encode_uses_the_three_wire_labels() {
    let h = History {
        events: vec![
            ev(100, State::Reachable),
            ev(110, State::Unreachable),
            ev(120, State::Unknown),
        ],
        last_update: 123,
    };
    let out = encode_history(&h);
    let expect = "{\"states\":[{\"start\":100,\"state\":\"Ok\"},\
{\"start\":110,\"state\":\"Err\"},{\"start\":120,\"state\":\"Unknown\"}],\
\"last_update\":123}";
    assert_eq!(out, doc(expect));
}

#[test]
fn save_then_load_round_trips() {
    let h = History {
        events: vec![
            ev(0, State::Unreachable),
            ev(1, State::Reachable),
            ev(18446744073709551615, State::Unknown),
        ],
        last_update: 18446744073709551615,
    };
    let bytes = encode_history(&h);
    let back = load_data(Some(&bytes), 0).unwrap();
    assert_eq!(back.events, h.events);
    assert_eq!(back.last_update, h.last_update);
}

#[test]
fn load_without_file_starts_empty_at_now() {
    let h = load_data(None, 424242).unwrap();
    assert!(h.events.is_empty());
    assert_eq!(h.last_update, 424242);
}

#[test]
fn load_accepts_a_handwritten_canonical_document() {
    let bytes = doc("{\"states\":[{\"start\":7,\"state\":\"Err\"}],\"last_update\":9}");
    let h = load_data(Some(&bytes), 0).unwrap();
    assert_eq!(h.events, vec![ev(7, State::Unreachable)]);
    assert_eq!(h.last_update, 9);
}

#[test]
fn load_rejects_malformed_documents() {
    let cases = [
        "",
        "{",
        "{\"states\":[]}",
        "{\"states\":[],\"last_update\":}",
        "{\"states\":[],\"last_update\":5",
        "{\"states\":[],\"last_update\":5}x",
        "{\"states\":[],\"last_update\":05}",
        "{\"states\":[],\"last_update\": 5}",
        "{\"states\":[{\"start\":1,\"state\":\"Up\"}],\"last_update\":5}",
        "{\"states\":[{\"start\":-1,\"state\":\"Ok\"}],\"last_update\":5}",
        "{\"states\":[{\"start\":1,\"state\":\"Ok\"},],\"last_update\":5}",
        "{\"states\":[],\"last_update\":18446744073709551616}",
    ];
    for c in cases {
        let bytes = doc(c);
        let r = load_data(Some(&bytes), 0);
        assert!(matches!(r, Err(LoadError::Malformed)), "case: {}", c);
    }
}

#[test]
fn load_accepts_the_largest_time() {
    let bytes = doc("{\"states\":[],\"last_update\":18446744073709551615}");
    let h = load_data(Some(&bytes), 0).unwrap();
    assert_eq!(h.last_update, 18446744073709551615);
}

#[test]
fn interrupted_save_leaves_old_or_new_snapshot() {
    // The canonical file is replaced atomically: a reader sees the previous
    // document, the new document, or (if the temporary file were ever read)
    // a prefix that the parser rejects — never a silently wrong history.
    let old_h = History {
        events: vec![ev(100, State::Reachable)],
        last_update: 100,
    };
    let new_h = History {
        events: vec![ev(100, State::Reachable), ev(110, State::Unreachable)],
        last_update: 110,
    };
    let old_bytes = encode_history(&old_h);
    let new_bytes = encode_history(&new_h);

    let before = load_data(Some(&old_bytes), 0).unwrap();
    assert_eq!(before.events, old_h.events);
    assert_eq!(before.last_update, 100);

    let after = load_data(Some(&new_bytes), 0).unwrap();
    assert_eq!(after.events, new_h.events);
    assert_eq!(after.last_update, 110);

    for cut in 0..new_bytes.len() {
        let partial: Vec<u8> = new_bytes[..cut].to_vec();
        let r = load_data(Some(&partial), 0);
        assert!(matches!(r, Err(LoadError::Malformed)));
    }
}

#[test]
fn clock_reads_a_post_epoch_time() {
    let t = current_time();
    assert!(t > 0);
}
