//! The persisted document format. The canonical form of a history is the
//! byte sequence
//!
//! `{"states":[{"start":100,"state":"Ok"},...],"last_update":123}`
//!
//! with the three state labels `"Unknown"`, `"Ok"` and `"Err"`, no spaces,
//! and decimal numbers without leading zeros. The field names and the three
//! labels are part of the on-disk contract. The encoder emits exactly this
//! form and the parser accepts exactly this form; the round trip is proved.

use vstd::prelude::*;
use crate::history::{History, State, StateEvent};

verus! {

/// The bytes of `{"states":[`.
pub open spec fn lit_header() -> Seq<u8> {
    seq![123u8, 34u8, 115u8, 116u8, 97u8, 116u8, 101u8, 115u8, 34u8, 58u8, 91u8]
}

/// The bytes of `{"start":`.
pub open spec fn lit_ev_start() -> Seq<u8> {
    seq![123u8, 34u8, 115u8, 116u8, 97u8, 114u8, 116u8, 34u8, 58u8]
}

/// The bytes of `,"state":"`.
pub open spec fn lit_ev_state() -> Seq<u8> {
    seq![44u8, 34u8, 115u8, 116u8, 97u8, 116u8, 101u8, 34u8, 58u8, 34u8]
}

/// The bytes of `"}`.
pub open spec fn lit_ev_close() -> Seq<u8> {
    seq![34u8, 125u8]
}

/// The bytes of `,"last_update":`.
pub open spec fn lit_last_update() -> Seq<u8> {
    seq![44u8, 34u8, 108u8, 97u8, 115u8, 116u8, 95u8, 117u8, 112u8, 100u8, 97u8, 116u8, 101u8,
        34u8, 58u8]
}

/// The wire label of a state: `Unknown`, `Ok` or `Err`.
pub open spec fn spec_state_label(s: State) -> Seq<u8> {
    match s {
        State::Unknown => seq![85u8, 110u8, 107u8, 110u8, 111u8, 119u8, 110u8],
        State::Reachable => seq![79u8, 107u8],
        State::Unreachable => seq![69u8, 114u8, 114u8],
    }
}

/// Decimal digits of `n`, most significant first, no leading zeros.
pub open spec fn spec_dec_nat(n: nat) -> Seq<u8>
    decreases n,
{
    if n < 10 {
        seq![(48 + n) as u8]
    } else {
        spec_dec_nat((n / 10) as nat).push((48 + n % 10) as u8)
    }
}

/// Decimal digits of a `u64`.
pub open spec fn spec_dec(n: u64) -> Seq<u8> {
    spec_dec_nat(n as nat)
}

/// The canonical bytes of one event.
pub open spec fn spec_encode_event(e: StateEvent) -> Seq<u8> {
    lit_ev_start() + spec_dec(e.start) + lit_ev_state() + spec_state_label(e.state)
        + lit_ev_close()
}

/// The canonical bytes of every event after the first: a comma before each.
pub open spec fn spec_encode_tail(ev: Seq<StateEvent>) -> Seq<u8>
    decreases ev.len(),
{
    if ev.len() == 0 {
        Seq::empty()
    } else {
        seq![44u8] + spec_encode_event(ev[0]) + spec_encode_tail(ev.drop_first())
    }
}

/// The canonical bytes of the event list, commas between events.
pub open spec fn spec_encode_events(ev: Seq<StateEvent>) -> Seq<u8> {
    if ev.len() == 0 {
        Seq::empty()
    } else {
        spec_encode_event(ev[0]) + spec_encode_tail(ev.drop_first())
    }
}

/// The canonical bytes of a whole history document.
pub open spec fn spec_encode_history(ev: Seq<StateEvent>, last_update: u64) -> Seq<u8> {
    lit_header() + spec_encode_events(ev) + seq![93u8] + lit_last_update() + spec_dec(last_update)
        + seq![125u8]
}

/// Appending an event to a non-empty list appends a comma and its encoding.
proof fn lemma_encode_tail_push(t: Seq<StateEvent>, e: StateEvent)
    ensures
        spec_encode_tail(t.push(e)) == spec_encode_tail(t) + seq![44u8] + spec_encode_event(e),
    decreases t.len(),
{
    if t.len() == 0 {
        assert(t.push(e)[0] == e);
        assert(t.push(e).drop_first() =~= Seq::<StateEvent>::empty());
        assert(spec_encode_tail(Seq::<StateEvent>::empty()) == Seq::<u8>::empty());
        assert(spec_encode_tail(t) == Seq::<u8>::empty());
        assert(spec_encode_tail(t.push(e)) =~= spec_encode_tail(t) + seq![44u8]
            + spec_encode_event(e));
    } else {
        assert(t.push(e)[0] == t[0]);
        assert(t.push(e).drop_first() =~= t.drop_first().push(e));
        lemma_encode_tail_push(t.drop_first(), e);
        assert(spec_encode_tail(t.push(e)) =~= spec_encode_tail(t) + seq![44u8]
            + spec_encode_event(e));
    }
}

/// What one more event does to the canonical bytes of the event list.
proof fn lemma_encode_events_push(t: Seq<StateEvent>, e: StateEvent)
    ensures
        spec_encode_events(t.push(e)) == if t.len() == 0 {
            spec_encode_event(e)
        } else {
            spec_encode_events(t) + seq![44u8] + spec_encode_event(e)
        },
{
    if t.len() == 0 {
        assert(t.push(e)[0] == e);
        assert(t.push(e).drop_first() =~= Seq::<StateEvent>::empty());
        assert(spec_encode_events(t.push(e)) =~= spec_encode_event(e));
    } else {
        assert(t.push(e)[0] == t[0]);
        assert(t.push(e).drop_first() =~= t.drop_first().push(e));
        lemma_encode_tail_push(t.drop_first(), e);
        assert(spec_encode_events(t.push(e)) =~= spec_encode_events(t) + seq![44u8]
            + spec_encode_event(e));
    }
}

/// Append the decimal digits of `n`, most significant first.
fn push_dec(v: &mut Vec<u8>, n: u64)
    ensures
        final(v)@ == old(v)@ + spec_dec(n),
    decreases n,
{
    if n >= 10 {
        push_dec(v, n / 10);
    }
    let d: u8 = 48 + (n % 10) as u8;
    v.push(d);
    proof {
        if n < 10 {
            assert(v@ =~= old(v)@ + spec_dec(n));
        } else {
            assert((n as nat) / 10 == (n / 10) as nat);
            assert(v@ =~= old(v)@ + spec_dec(n));
        }
    }
}

/// Append the wire label of a state.
fn push_state_label(v: &mut Vec<u8>, s: State)
    ensures
        final(v)@ == old(v)@ + spec_state_label(s),
{
    match s {
        State::Unknown => {
            v.push(85);
            v.push(110);
            v.push(107);
            v.push(110);
            v.push(111);
            v.push(119);
            v.push(110);
        },
        State::Reachable => {
            v.push(79);
            v.push(107);
        },
        State::Unreachable => {
            v.push(69);
            v.push(114);
            v.push(114);
        },
    }
    proof {
        assert(v@ =~= old(v)@ + spec_state_label(s));
    }
}

/// Append the canonical bytes of one event.
fn push_event(v: &mut Vec<u8>, e: StateEvent)
    ensures
        final(v)@ == old(v)@ + spec_encode_event(e),
{
    v.push(123);
    v.push(34);
    v.push(115);
    v.push(116);
    v.push(97);
    v.push(114);
    v.push(116);
    v.push(34);
    v.push(58);
    proof {
        assert(v@ =~= old(v)@ + lit_ev_start());
    }
    push_dec(v, e.start);
    v.push(44);
    v.push(34);
    v.push(115);
    v.push(116);
    v.push(97);
    v.push(116);
    v.push(101);
    v.push(34);
    v.push(58);
    v.push(34);
    proof {
        assert(v@ =~= old(v)@ + lit_ev_start() + spec_dec(e.start) + lit_ev_state());
    }
    push_state_label(v, e.state);
    v.push(34);
    v.push(125);
    proof {
        assert(v@ =~= old(v)@ + spec_encode_event(e));
    }
}

/// Append the bytes of `{"states":[`.
fn push_header(v: &mut Vec<u8>)
    ensures
        final(v)@ == old(v)@ + lit_header(),
{
    v.push(123);
    v.push(34);
    v.push(115);
    v.push(116);
    v.push(97);
    v.push(116);
    v.push(101);
    v.push(115);
    v.push(34);
    v.push(58);
    v.push(91);
    proof {
        assert(v@ =~= old(v)@ + lit_header());
    }
}

/// Append the bytes of `],"last_update":` then the time and the closing brace.
fn push_footer(v: &mut Vec<u8>, last_update: u64)
    ensures
        final(v)@ == old(v)@ + seq![93u8] + lit_last_update() + spec_dec(last_update)
            + seq![125u8],
{
    v.push(93);
    v.push(44);
    v.push(34);
    v.push(108);
    v.push(97);
    v.push(115);
    v.push(116);
    v.push(95);
    v.push(117);
    v.push(112);
    v.push(100);
    v.push(97);
    v.push(116);
    v.push(101);
    v.push(34);
    v.push(58);
    proof {
        assert(v@ =~= old(v)@ + seq![93u8] + lit_last_update());
    }
    push_dec(v, last_update);
    v.push(125);
    proof {
        assert(v@ =~= old(v)@ + seq![93u8] + lit_last_update() + spec_dec(last_update)
            + seq![125u8]);
    }
}

/// Serialize a history to the canonical document, the exact form `load_data`
/// reads back; an embedding program writes these bytes to a temporary file
/// and atomically renames it over the canonical path.
pub fn encode_history(h: &History) -> (out: Vec<u8>)
    ensures
        out@ == spec_encode_history(h.events@, h.last_update),
{
    let mut v: Vec<u8> = Vec::new();
    push_header(&mut v);
    proof {
        assert(v@ =~= lit_header() + spec_encode_events(h.events@.subrange(0, 0)));
    }
    let n = h.events.len();
    let mut k: usize = 0;
    while k < n
        invariant
            n == h.events@.len(),
            k <= n,
            v@ == lit_header() + spec_encode_events(h.events@.subrange(0, k as int)),
        decreases n - k,
    {
        if k > 0 {
            v.push(44);
        }
        push_event(&mut v, h.events[k]);
        proof {
            let t = h.events@.subrange(0, k as int);
            assert(h.events@.subrange(0, k + 1) =~= t.push(h.events@[k as int]));
            lemma_encode_events_push(t, h.events@[k as int]);
            assert(v@ =~= lit_header() + spec_encode_events(h.events@.subrange(0, k + 1)));
        }
        k += 1;
    }
    proof {
        assert(h.events@.subrange(0, n as int) =~= h.events@);
    }
    push_footer(&mut v, h.last_update);
    proof {
        assert(v@ =~= spec_encode_history(h.events@, h.last_update));
    }
    v
}

/// An ASCII decimal digit.
pub open spec fn is_digit(b: u8) -> bool {
    48 <= b <= 57
}

/// The bytes `lit` stand at position `i` of `s`.
pub open spec fn lit_at(s: Seq<u8>, i: int, lit: Seq<u8>) -> bool {
    0 <= i && i + lit.len() <= s.len() && s.subrange(i, i + lit.len()) == lit
}

/// Consume digits from position `i`, folding them onto `acc`; the result is
/// the folded value and the position of the first non-digit.
pub open spec fn spec_parse_digits(s: Seq<u8>, i: int, acc: int) -> (int, int)
    decreases s.len() - i,
{
    if 0 <= i < s.len() && is_digit(s[i]) {
        spec_parse_digits(s, i + 1, acc * 10 + (s[i] - 48))
    } else {
        (acc, i)
    }
}

/// Parse a decimal number at position `i`: at least one digit, no leading
/// zero, and a value that fits in a `u64`.
pub open spec fn spec_parse_number(s: Seq<u8>, i: int) -> Option<(u64, int)> {
    if 0 <= i < s.len() && is_digit(s[i]) && !(s[i] == 48 && i + 1 < s.len() && is_digit(
        s[i + 1],
    )) {
        let r = spec_parse_digits(s, i, 0);
        if r.0 <= u64::MAX {
            Some(((r.0 as u64), r.1))
        } else {
            None
        }
    } else {
        None
    }
}

/// Parse one of the three state labels at position `i`.
pub open spec fn spec_parse_state(s: Seq<u8>, i: int) -> Option<(State, int)> {
    if lit_at(s, i, spec_state_label(State::Unknown)) {
        Some((State::Unknown, i + 7))
    } else if lit_at(s, i, spec_state_label(State::Reachable)) {
        Some((State::Reachable, i + 2))
    } else if lit_at(s, i, spec_state_label(State::Unreachable)) {
        Some((State::Unreachable, i + 3))
    } else {
        None
    }
}

/// Parse one event object at position `i`.
pub open spec fn spec_parse_event(s: Seq<u8>, i: int) -> Option<(StateEvent, int)> {
    if lit_at(s, i, lit_ev_start()) {
        match spec_parse_number(s, i + 9) {
            Some((n, j)) => if lit_at(s, j, lit_ev_state()) {
                match spec_parse_state(s, j + 10) {
                    Some((st, k)) => if lit_at(s, k, lit_ev_close()) {
                        Some((StateEvent { start: n, state: st }, k + 2))
                    } else {
                        None
                    },
                    None => None,
                }
            } else {
                None
            },
            None => None,
        }
    } else {
        None
    }
}

/// Parse the rest of an event list after at least one event: either the
/// closing bracket, or a comma and another event, repeatedly.
pub open spec fn spec_parse_more(s: Seq<u8>, i: int) -> Option<(Seq<StateEvent>, int)>
    decreases s.len() - i,
{
    if !(0 <= i && i <= s.len()) {
        None
    } else if lit_at(s, i, seq![93u8]) {
        Some((Seq::empty(), i + 1))
    } else if lit_at(s, i, seq![44u8]) {
        match spec_parse_event(s, i + 1) {
            Some((e, j)) => if i + 1 < j && j <= s.len() {
                match spec_parse_more(s, j) {
                    Some((rest, k)) => Some((seq![e] + rest, k)),
                    None => None,
                }
            } else {
                None
            },
            None => None,
        }
    } else {
        None
    }
}

/// Parse an event list directly after the opening bracket: empty, or one
/// event followed by the rest.
pub open spec fn spec_parse_events(s: Seq<u8>, i: int) -> Option<(Seq<StateEvent>, int)> {
    if lit_at(s, i, seq![93u8]) {
        Some((Seq::empty(), i + 1))
    } else {
        match spec_parse_event(s, i) {
            Some((e, j)) => if i < j && j <= s.len() {
                match spec_parse_more(s, j) {
                    Some((rest, k)) => Some((seq![e] + rest, k)),
                    None => None,
                }
            } else {
                None
            },
            None => None,
        }
    }
}

/// A persisted document that is not in the canonical form.
#[derive(PartialEq, Eq, Structural, Clone, Copy, Debug)]
pub enum LoadError {
    Malformed,
}

/// The bytes of `{"states":[` as a value.
fn lit_header_vec() -> (v: Vec<u8>)
    ensures
        v@ == lit_header(),
{
    let mut v: Vec<u8> = Vec::new();
    v.push(123);
    v.push(34);
    v.push(115);
    v.push(116);
    v.push(97);
    v.push(116);
    v.push(101);
    v.push(115);
    v.push(34);
    v.push(58);
    v.push(91);
    proof {
        assert(v@ =~= lit_header());
    }
    v
}

/// The bytes of `{"start":` as a value.
fn lit_ev_start_vec() -> (v: Vec<u8>)
    ensures
        v@ == lit_ev_start(),
{
    let mut v: Vec<u8> = Vec::new();
    v.push(123);
    v.push(34);
    v.push(115);
    v.push(116);
    v.push(97);
    v.push(114);
    v.push(116);
    v.push(34);
    v.push(58);
    proof {
        assert(v@ =~= lit_ev_start());
    }
    v
}

/// The bytes of `,"state":"` as a value.
fn lit_ev_state_vec() -> (v: Vec<u8>)
    ensures
        v@ == lit_ev_state(),
{
    let mut v: Vec<u8> = Vec::new();
    v.push(44);
    v.push(34);
    v.push(115);
    v.push(116);
    v.push(97);
    v.push(116);
    v.push(101);
    v.push(34);
    v.push(58);
    v.push(34);
    proof {
        assert(v@ =~= lit_ev_state());
    }
    v
}

/// The bytes of `"}` as a value.
fn lit_ev_close_vec() -> (v: Vec<u8>)
    ensures
        v@ == lit_ev_close(),
{
    let mut v: Vec<u8> = Vec::new();
    v.push(34);
    v.push(125);
    proof {
        assert(v@ =~= lit_ev_close());
    }
    v
}

/// The bytes of `,"last_update":` as a value.
fn lit_last_update_vec() -> (v: Vec<u8>)
    ensures
        v@ == lit_last_update(),
{
    let mut v: Vec<u8> = Vec::new();
    v.push(44);
    v.push(34);
    v.push(108);
    v.push(97);
    v.push(115);
    v.push(116);
    v.push(95);
    v.push(117);
    v.push(112);
    v.push(100);
    v.push(97);
    v.push(116);
    v.push(101);
    v.push(34);
    v.push(58);
    proof {
        assert(v@ =~= lit_last_update());
    }
    v
}

/// The wire label of a state as a value.
fn state_label_vec(st: State) -> (v: Vec<u8>)
    ensures
        v@ == spec_state_label(st),
{
    let mut v: Vec<u8> = Vec::new();
    push_state_label(&mut v, st);
    proof {
        assert(v@ =~= spec_state_label(st));
    }
    v
}

/// Whether the bytes of `lit` stand at position `i` of `s`.
fn match_lit(s: &Vec<u8>, i: usize, lit: &Vec<u8>) -> (r: bool)
    ensures
        r == lit_at(s@, i as int, lit@),
        s@.len() <= usize::MAX,
{
    if s.len() < lit.len() || i > s.len() - lit.len() {
        return false;
    }
    let mut k: usize = 0;
    while k < lit.len()
        invariant
            i + lit@.len() <= s@.len(),
            s@.len() <= usize::MAX,
            k <= lit@.len(),
            forall|m: int| 0 <= m < k ==> s@[i + m] == lit@[m],
        decreases lit@.len() - k,
    {
        if s[i + k] != lit[k] {
            proof {
                if lit_at(s@, i as int, lit@) {
                    assert(s@.subrange(i as int, i + lit@.len())[k as int] == s@[i + k]);
                }
            }
            return false;
        }
        k += 1;
    }
    proof {
        assert(s@.subrange(i as int, i + lit@.len()) =~= lit@);
    }
    true
}

/// Whether the single byte `b` stands at position `i` of `s`.
fn at_char(s: &Vec<u8>, i: usize, b: u8) -> (r: bool)
    ensures
        r == lit_at(s@, i as int, seq![b]),
        s@.len() <= usize::MAX,
{
    let r = i < s.len() && s[i] == b;
    proof {
        if r {
            assert(s@.subrange(i as int, i + 1) =~= seq![b]);
        } else if i + 1 <= s@.len() {
            assert(s@.subrange(i as int, i + 1)[0] == s@[i as int]);
        }
    }
    r
}

/// Whether a digit stands at position `i` of `s`.
fn digit_at(s: &Vec<u8>, i: usize) -> (r: bool)
    ensures
        r == (i < s@.len() && is_digit(s@[i as int])),
        s@.len() <= usize::MAX,
{
    i < s.len() && s[i] >= 48 && s[i] <= 57
}

/// Folding one more digit can only grow a non-negative accumulator.
proof fn lemma_parse_digits_monotone(s: Seq<u8>, i: int, acc: int)
    requires
        acc >= 0,
    ensures
        spec_parse_digits(s, i, acc).0 >= acc,
    decreases s.len() - i,
{
    if 0 <= i < s.len() && is_digit(s[i]) {
        lemma_parse_digits_monotone(s, i + 1, acc * 10 + (s[i] - 48));
    }
}

/// Parse a decimal `u64` at position `i` of `s`.
fn parse_number(s: &Vec<u8>, i: usize) -> (r: Option<(u64, usize)>)
    requires
        i <= s@.len(),
    ensures
        match r {
            Some(p) => spec_parse_number(s@, i as int) == Some((p.0, p.1 as int)) && i < p.1
                <= s@.len(),
            None => spec_parse_number(s@, i as int) is None,
        },
{
    if !digit_at(s, i) {
        return None;
    }
    if s[i] == 48 && digit_at(s, i + 1) {
        return None;
    }
    let mut j: usize = i;
    let mut acc: u64 = 0;
    while j < s.len() && s[j] >= 48 && s[j] <= 57
        invariant
            i <= j <= s@.len(),
            spec_parse_digits(s@, i as int, 0) == spec_parse_digits(s@, j as int, acc as int),
        decreases s@.len() - j,
    {
        let d: u64 = (s[j] - 48) as u64;
        proof {
            vstd::arithmetic::div_mod::lemma_fundamental_div_mod((u64::MAX - d) as int, 10);
            vstd::arithmetic::div_mod::lemma_mod_bound((u64::MAX - d) as int, 10);
        }
        if acc > (u64::MAX - d) / 10 {
            proof {
                lemma_parse_digits_monotone(s@, j + 1, acc as int * 10 + (s@[j as int] - 48));
                assert(spec_parse_digits(s@, i as int, 0).0 > u64::MAX);
            }
            return None;
        }
        acc = acc * 10 + d;
        j += 1;
    }
    proof {
        assert(spec_parse_digits(s@, j as int, acc as int) == (acc as int, j as int));
        if j == i {
            assert(is_digit(s@[i as int]));
        }
    }
    Some((acc, j))
}

/// Parse one of the three state labels at position `i` of `s`.
fn parse_state(s: &Vec<u8>, i: usize) -> (r: Option<(State, usize)>)
    requires
        i <= s@.len(),
    ensures
        match r {
            Some(p) => spec_parse_state(s@, i as int) == Some((p.0, p.1 as int)) && i < p.1
                <= s@.len(),
            None => spec_parse_state(s@, i as int) is None,
        },
{
    let lu = state_label_vec(State::Unknown);
    if match_lit(s, i, &lu) {
        return Some((State::Unknown, i + 7));
    }
    let lo = state_label_vec(State::Reachable);
    if match_lit(s, i, &lo) {
        return Some((State::Reachable, i + 2));
    }
    let le = state_label_vec(State::Unreachable);
    if match_lit(s, i, &le) {
        return Some((State::Unreachable, i + 3));
    }
    None
}

/// Parse one event object at position `i` of `s`.
fn parse_event(s: &Vec<u8>, i: usize) -> (r: Option<(StateEvent, usize)>)
    requires
        i <= s@.len(),
    ensures
        match r {
            Some(p) => spec_parse_event(s@, i as int) == Some((p.0, p.1 as int)) && i < p.1
                <= s@.len(),
            None => spec_parse_event(s@, i as int) is None,
        },
{
    let ls = lit_ev_start_vec();
    if !match_lit(s, i, &ls) {
        return None;
    }
    let (n, j) = match parse_number(s, i + 9) {
        Some(p) => p,
        None => {
            return None;
        },
    };
    let lst = lit_ev_state_vec();
    if !match_lit(s, j, &lst) {
        return None;
    }
    let (st, k) = match parse_state(s, j + 10) {
        Some(p) => p,
        None => {
            return None;
        },
    };
    let lc = lit_ev_close_vec();
    if !match_lit(s, k, &lc) {
        return None;
    }
    Some((StateEvent { start: n, state: st }, k + 2))
}

/// Parse the event list directly after the opening bracket.
fn parse_events(s: &Vec<u8>, i: usize) -> (r: Option<(Vec<StateEvent>, usize)>)
    requires
        i <= s@.len(),
    ensures
        match r {
            Some(p) => spec_parse_events(s@, i as int) == Some((p.0@, p.1 as int)) && p.1
                <= s@.len(),
            None => spec_parse_events(s@, i as int) is None,
        },
{
    let mut acc: Vec<StateEvent> = Vec::new();
    if at_char(s, i, 93) {
        proof {
            assert(acc@ =~= Seq::<StateEvent>::empty());
        }
        return Some((acc, i + 1));
    }
    let (e0, j0) = match parse_event(s, i) {
        Some(p) => p,
        None => {
            return None;
        },
    };
    acc.push(e0);
    proof {
        assert(acc@ =~= seq![e0]);
    }
    let mut pos = j0;
    loop
        invariant
            pos <= s@.len(),
            match spec_parse_more(s@, pos as int) {
                Some((rest, k)) => spec_parse_events(s@, i as int) == Some((acc@ + rest, k)),
                None => spec_parse_events(s@, i as int) is None,
            },
        decreases s@.len() - pos,
    {
        if at_char(s, pos, 93) {
            proof {
                assert(acc@ + Seq::<StateEvent>::empty() =~= acc@);
            }
            return Some((acc, pos + 1));
        }
        if !at_char(s, pos, 44) {
            return None;
        }
        let (e, j) = match parse_event(s, pos + 1) {
            Some(p) => p,
            None => {
                return None;
            },
        };
        let ghost acc_old = acc@;
        acc.push(e);
        proof {
            assert(acc@ =~= acc_old + seq![e]);
            match spec_parse_more(s@, j as int) {
                Some((rest2, k2)) => {
                    assert(acc_old + (seq![e] + rest2) =~= (acc_old + seq![e]) + rest2);
                },
                None => {},
            }
        }
        pos = j;
    }
}

/// Parse a whole canonical document.
fn parse_document(s: &Vec<u8>) -> (r: Option<(Vec<StateEvent>, u64)>)
    ensures
        match r {
            Some(p) => spec_parse_history(s@) == Some((p.0@, p.1)),
            None => spec_parse_history(s@) is None,
        },
{
    let lh = lit_header_vec();
    if !match_lit(s, 0, &lh) {
        return None;
    }
    let (ev, i) = match parse_events(s, 11) {
        Some(p) => p,
        None => {
            return None;
        },
    };
    let llu = lit_last_update_vec();
    if !match_lit(s, i, &llu) {
        return None;
    }
    let (lu, j) = match parse_number(s, i + 15) {
        Some(p) => p,
        None => {
            return None;
        },
    };
    if !(j < s.len() && j + 1 == s.len() && at_char(s, j, 125)) {
        return None;
    }
    Some((ev, lu))
}

/// Build the starting history from the persisted file's bytes, or a fresh
/// empty history at time `now` when no file exists. A file that is not in
/// the canonical form is an error for the caller to treat as fatal.
pub fn load_data(content: Option<&Vec<u8>>, now: u64) -> (r: Result<History, LoadError>)
    ensures
        match content {
            None => r matches Ok(h) && h.events@ == Seq::<StateEvent>::empty() && h.last_update
                == now,
            Some(c) => match spec_parse_history(c@) {
                Some((ev, lu)) => r matches Ok(h) && h.events@ == ev && h.last_update == lu,
                None => r == Result::<History, LoadError>::Err(LoadError::Malformed),
            },
        },
{
    match content {
        None => Ok(History { events: Vec::new(), last_update: now }),
        Some(c) => match parse_document(c) {
            Some((ev, lu)) => Ok(History { events: ev, last_update: lu }),
            None => Err(LoadError::Malformed),
        },
    }
}

/// Parse a whole document: exactly the canonical form, to the last byte.
pub open spec fn spec_parse_history(s: Seq<u8>) -> Option<(Seq<StateEvent>, u64)> {
    if lit_at(s, 0, lit_header()) {
        match spec_parse_events(s, 11) {
            Some((ev, i)) => if lit_at(s, i, lit_last_update()) {
                match spec_parse_number(s, i + 15) {
                    Some((lu, j)) => if j + 1 == s.len() && lit_at(s, j, seq![125u8]) {
                        Some((ev, lu))
                    } else {
                        None
                    },
                    None => None,
                }
            } else {
                None
            },
            None => None,
        }
    } else {
        None
    }
}


/// Powers of ten.
pub open spec fn pow10(k: nat) -> int
    decreases k,
{
    if k == 0 {
        1
    } else {
        10 * pow10((k - 1) as nat)
    }
}

/// The value of a digit string, most significant digit first.
pub open spec fn num_of(s: Seq<u8>) -> int
    decreases s.len(),
{
    if s.len() == 0 {
        0
    } else {
        num_of(s.drop_last()) * 10 + (s.last() - 48)
    }
}

/// The decimal digits of `n` are at least one, all digits, lead with a
/// non-zero unless `n` is zero, and stand for `n`.
proof fn lemma_dec_nat_props(n: nat)
    ensures
        spec_dec_nat(n).len() >= 1,
        forall|k: int| 0 <= k < spec_dec_nat(n).len() ==> is_digit(#[trigger] spec_dec_nat(n)[k]),
        spec_dec_nat(n)[0] == 48 ==> n == 0,
        n < 10 ==> spec_dec_nat(n).len() == 1,
        num_of(spec_dec_nat(n)) == n,
    decreases n,
{
    vstd::arithmetic::div_mod::lemma_mod_bound(n as int, 10);
    if n < 10 {
        let d = spec_dec_nat(n);
        assert(d =~= seq![(48 + n) as u8]);
        assert(d.drop_last() =~= Seq::<u8>::empty());
        assert(num_of(Seq::<u8>::empty()) == 0);
        assert(d.last() == (48 + n) as u8);
        assert(num_of(d) == n);
    } else {
        lemma_dec_nat_props((n / 10) as nat);
        let b = spec_dec_nat((n / 10) as nat);
        let d8 = (48 + n % 10) as u8;
        let d = spec_dec_nat(n);
        assert(d == b.push(d8));
        assert(d.drop_last() =~= b);
        assert(d.last() == d8);
        assert(n / 10 >= 1);
        assert(d[0] == b[0]);
        let ni = n as int;
        vstd::arithmetic::div_mod::lemma_fundamental_div_mod(ni, 10);
        assert(ni % 10 == n % 10);
        assert(ni / 10 == n / 10);
        assert(d8 == 48 + ni % 10);
        assert(num_of(d) == num_of(b) * 10 + (ni % 10));
        assert(num_of(b) == ni / 10);
        assert((ni / 10) * 10 == 10 * (ni / 10));
        assert(num_of(d) == n);
        assert forall|k: int| 0 <= k < d.len() implies is_digit(#[trigger] d[k]) by {
            if k < b.len() {
                assert(is_digit(b[k]));
            }
        }
    }
}

/// The leading digit's contribution to the value of a digit string.
proof fn lemma_num_of_split_first(t: Seq<u8>)
    requires
        t.len() >= 1,
    ensures
        num_of(t) == (t[0] - 48) * pow10((t.len() - 1) as nat) + num_of(t.drop_first()),
    decreases t.len(),
{
    if t.len() == 1 {
        assert(t.drop_last() =~= Seq::<u8>::empty());
        assert(t.drop_first() =~= Seq::<u8>::empty());
        assert(t.last() == t[0]);
        assert(pow10(0) == 1);
    } else {
        let b = t.drop_last();
        lemma_num_of_split_first(b);
        assert(b[0] == t[0]);
        assert(b.drop_first() =~= t.drop_first().drop_last());
        assert(t.drop_first().last() == t.last());
        let m = (t.len() - 2) as nat;
        let p = pow10(m);
        let d0 = t[0] - 48;
        let rest = num_of(b.drop_first());
        assert((d0 * p + rest) * 10 == d0 * (10 * p) + rest * 10) by (nonlinear_arith);
        assert((t.len() - 1) as nat == m + 1);
        assert(pow10((t.len() - 1) as nat) == 10 * p);
        assert(num_of(t.drop_first()) == rest * 10 + (t.last() - 48));
        assert(num_of(t) == num_of(b) * 10 + (t.last() - 48));
    }
}

/// Parsing a run of digits bounded by a non-digit folds them onto the
/// accumulator, most significant first.
proof fn lemma_parse_digits_region(s: Seq<u8>, i: int, j: int, acc: int)
    requires
        0 <= i <= j <= s.len(),
        forall|k: int| i <= k < j ==> is_digit(#[trigger] s[k]),
        j == s.len() || !is_digit(s[j]),
        acc >= 0,
    ensures
        spec_parse_digits(s, i, acc) == (
            acc * pow10((j - i) as nat) + num_of(s.subrange(i, j)),
            j,
        ),
    decreases j - i,
{
    if i == j {
        assert(s.subrange(i, j) =~= Seq::<u8>::empty());
        assert(pow10(0) == 1);
    } else {
        let db = s[i] - 48;
        let acc2 = acc * 10 + db;
        lemma_parse_digits_region(s, i + 1, j, acc2);
        let m = (j - i - 1) as nat;
        let p = pow10(m);
        lemma_num_of_split_first(s.subrange(i, j));
        assert(s.subrange(i, j)[0] == s[i]);
        assert(s.subrange(i, j).drop_first() =~= s.subrange(i + 1, j));
        assert((j - i) as nat == m + 1);
        assert(pow10((j - i) as nat) == 10 * p);
        assert(acc2 * p == acc * (10 * p) + db * p) by (nonlinear_arith)
            requires
                acc2 == acc * 10 + db,
        ;
    }
}

/// A canonical decimal followed by a non-digit parses back to its value.
proof fn lemma_parse_number_of_dec(s: Seq<u8>, i: int, n: u64)
    requires
        0 <= i,
        i + spec_dec(n).len() <= s.len(),
        s.subrange(i, i + spec_dec(n).len()) == spec_dec(n),
        i + spec_dec(n).len() == s.len() || !is_digit(s[i + spec_dec(n).len()]),
    ensures
        spec_parse_number(s, i) == Some((n, i + spec_dec(n).len())),
{
    let d = spec_dec(n);
    let j = i + d.len();
    lemma_dec_nat_props(n as nat);
    assert forall|k: int| i <= k < j implies is_digit(#[trigger] s[k]) by {
        assert(s.subrange(i, j)[k - i] == s[k]);
        assert(is_digit(d[k - i]));
    }
    assert(s.subrange(i, j)[0] == s[i]);
    assert(is_digit(s[i]));
    if s[i] == 48 {
        assert(n == 0);
        assert(d.len() == 1);
    }
    lemma_parse_digits_region(s, i, j, 0);
    assert(num_of(s.subrange(i, j)) == n);
    assert(0 * pow10((j - i) as nat) == 0) by (nonlinear_arith);
    assert(spec_parse_number(s, i) == Some((n, j)));
}

/// A state label parses back to its state: the three labels differ in their
/// first byte.
proof fn lemma_parse_state_of_label(s: Seq<u8>, i: int, st: State)
    requires
        0 <= i,
        i + spec_state_label(st).len() <= s.len(),
        s.subrange(i, i + spec_state_label(st).len()) == spec_state_label(st),
    ensures
        spec_parse_state(s, i) == Some((st, i + spec_state_label(st).len())),
{
    let l = spec_state_label(st);
    assert(s.subrange(i, i + l.len())[0] == s[i]);
    match st {
        State::Unknown => {
            assert(lit_at(s, i, spec_state_label(State::Unknown)));
        },
        State::Reachable => {
            assert(s[i] == 79);
            if lit_at(s, i, spec_state_label(State::Unknown)) {
                assert(s.subrange(i, i + 7)[0] == s[i]);
                assert(false);
            }
            assert(lit_at(s, i, spec_state_label(State::Reachable)));
        },
        State::Unreachable => {
            assert(s[i] == 69);
            if lit_at(s, i, spec_state_label(State::Unknown)) {
                assert(s.subrange(i, i + 7)[0] == s[i]);
                assert(false);
            }
            if lit_at(s, i, spec_state_label(State::Reachable)) {
                assert(s.subrange(i, i + 2)[0] == s[i]);
                assert(false);
            }
            assert(lit_at(s, i, spec_state_label(State::Unreachable)));
        },
    }
}

/// A region known to hold `a + b` splits into a region holding `a` and one
/// holding `b`.
proof fn lemma_split_prefix(s: Seq<u8>, i: int, a: Seq<u8>, b: Seq<u8>)
    requires
        0 <= i,
        i + a.len() + b.len() <= s.len(),
        s.subrange(i, i + a.len() + b.len()) == a + b,
    ensures
        s.subrange(i, i + a.len()) == a,
        s.subrange(i + a.len(), i + a.len() + b.len()) == b,
{
    assert forall|k: int| 0 <= k < a.len() implies s.subrange(i, i + a.len())[k] == a[k] by {
        assert(s.subrange(i, i + a.len() + b.len())[k] == (a + b)[k]);
    }
    assert(s.subrange(i, i + a.len()) =~= a);
    assert forall|k: int|
        0 <= k < b.len() implies s.subrange(i + a.len(), i + a.len() + b.len())[k] == b[k] by {
        assert(s.subrange(i, i + a.len() + b.len())[a.len() + k] == (a + b)[a.len() + k]);
        assert((a + b)[a.len() + k] == b[k]);
        assert(s.subrange(i, i + a.len() + b.len())[a.len() + k] == s[i + a.len() + k]);
        assert(s.subrange(i + a.len(), i + a.len() + b.len())[k] == s[i + a.len() + k]);
    }
    assert(s.subrange(i + a.len(), i + a.len() + b.len()) =~= b);
}

/// One encoded event parses back to itself.
proof fn lemma_parse_event_of_encoding(s: Seq<u8>, i: int, e: StateEvent)
    requires
        0 <= i,
        i + spec_encode_event(e).len() <= s.len(),
        s.subrange(i, i + spec_encode_event(e).len()) == spec_encode_event(e),
    ensures
        spec_parse_event(s, i) == Some((e, i + spec_encode_event(e).len())),
{
    let a = lit_ev_start();
    let b = spec_dec(e.start);
    let c = lit_ev_state();
    let d = spec_state_label(e.state);
    let f = lit_ev_close();
    let enc = spec_encode_event(e);
    let r1 = b + (c + (d + f));
    assert(enc =~= a + r1);
    lemma_split_prefix(s, i, a, r1);
    let p1 = i + 9;
    let r2 = c + (d + f);
    lemma_split_prefix(s, p1, b, r2);
    let p2 = p1 + b.len();
    assert(s.subrange(p2, p2 + r2.len())[0] == s[p2]);
    assert(r2[0] == 44);
    lemma_parse_number_of_dec(s, p1, e.start);
    let r3 = d + f;
    lemma_split_prefix(s, p2, c, r3);
    let p3 = p2 + 10;
    lemma_split_prefix(s, p3, d, f);
    let p4 = p3 + d.len();
    lemma_parse_state_of_label(s, p3, e.state);
    assert(StateEvent { start: e.start, state: e.state } == e);
    assert(spec_parse_event(s, i) == Some((e, p4 + 2)));
    assert(p4 + 2 == i + enc.len());
}

/// An encoded event tail, closed by the bracket, parses back to its events.
proof fn lemma_parse_more_of_encoding(s: Seq<u8>, i: int, ev: Seq<StateEvent>)
    requires
        0 <= i,
        i + spec_encode_tail(ev).len() + 1 <= s.len(),
        s.subrange(i, i + spec_encode_tail(ev).len() + 1) == spec_encode_tail(ev) + seq![93u8],
    ensures
        spec_parse_more(s, i) == Some((ev, i + spec_encode_tail(ev).len() + 1)),
    decreases ev.len(),
{
    if ev.len() == 0 {
        assert(spec_encode_tail(ev) == Seq::<u8>::empty());
        assert(s.subrange(i, i + 1) =~= seq![93u8]);
        assert(lit_at(s, i, seq![93u8]));
        assert(ev =~= Seq::<StateEvent>::empty());
    } else {
        let e0 = ev[0];
        let rest = ev.drop_first();
        let tail = spec_encode_tail(ev);
        let enc = spec_encode_event(e0);
        let tr = spec_encode_tail(rest);
        assert(tail + seq![93u8] =~= seq![44u8] + (enc + (tr + seq![93u8])));
        assert(s.subrange(i, i + tail.len() + 1)[0] == s[i]);
        assert((tail + seq![93u8])[0] == 44);
        if lit_at(s, i, seq![93u8]) {
            assert(s.subrange(i, i + 1)[0] == s[i]);
            assert(false);
        }
        assert(s.subrange(i, i + 1) =~= seq![44u8]);
        assert(lit_at(s, i, seq![44u8]));
        lemma_split_prefix(s, i, seq![44u8], enc + (tr + seq![93u8]));
        lemma_split_prefix(s, i + 1, enc, tr + seq![93u8]);
        let j = i + 1 + enc.len();
        lemma_parse_event_of_encoding(s, i + 1, e0);
        lemma_parse_more_of_encoding(s, j, rest);
        assert(seq![e0] + rest =~= ev);
        assert(j + tr.len() + 1 == i + tail.len() + 1);
        assert(spec_parse_more(s, i) == Some((ev, i + tail.len() + 1)));
    }
}

/// An encoded event list, closed by the bracket, parses back to its events.
proof fn lemma_parse_events_of_encoding(s: Seq<u8>, i: int, ev: Seq<StateEvent>)
    requires
        0 <= i,
        i + spec_encode_events(ev).len() + 1 <= s.len(),
        s.subrange(i, i + spec_encode_events(ev).len() + 1) == spec_encode_events(ev)
            + seq![93u8],
    ensures
        spec_parse_events(s, i) == Some((ev, i + spec_encode_events(ev).len() + 1)),
{
    let evb = spec_encode_events(ev);
    if ev.len() == 0 {
        assert(evb == Seq::<u8>::empty());
        assert(s.subrange(i, i + 1) =~= seq![93u8]);
        assert(lit_at(s, i, seq![93u8]));
        assert(Seq::<StateEvent>::empty() =~= ev);
    } else {
        let enc0 = spec_encode_event(ev[0]);
        let tr = spec_encode_tail(ev.drop_first());
        assert(evb + seq![93u8] =~= enc0 + (tr + seq![93u8]));
        lemma_split_prefix(s, i, enc0, tr + seq![93u8]);
        assert(s.subrange(i, i + enc0.len())[0] == s[i]);
        assert(enc0[0] == 123);
        if lit_at(s, i, seq![93u8]) {
            assert(s.subrange(i, i + 1)[0] == s[i]);
            assert(false);
        }
        lemma_parse_event_of_encoding(s, i, ev[0]);
        let j = i + enc0.len();
        lemma_parse_more_of_encoding(s, j, ev.drop_first());
        assert(seq![ev[0]] + ev.drop_first() =~= ev);
        assert(j + tr.len() + 1 == i + evb.len() + 1);
        assert(spec_parse_events(s, i) == Some((ev, i + evb.len() + 1)));
    }
}

/// The document footer `,"last_update":N}` parses back to the time.
proof fn lemma_parse_history_footer(s: Seq<u8>, k: int, lu: u64)
    requires
        0 <= k,
        k + 15 + spec_dec(lu).len() + 1 == s.len(),
        s.subrange(k, s.len() as int) == lit_last_update() + (spec_dec(lu) + seq![125u8]),
    ensures
        lit_at(s, k, lit_last_update()),
        spec_parse_number(s, k + 15) == Some((lu, k + 15 + spec_dec(lu).len())),
        lit_at(s, k + 15 + spec_dec(lu).len(), seq![125u8]),
{
    let d = spec_dec(lu);
    lemma_dec_nat_props(lu as nat);
    lemma_split_prefix(s, k, lit_last_update(), d + seq![125u8]);
    let q0 = k + 15;
    lemma_split_prefix(s, q0, d, seq![125u8]);
    let q1 = q0 + d.len();
    assert(s.subrange(q1, q1 + 1)[0] == s[q1]);
    assert(s[q1] == 125);
    assert(!is_digit(125u8));
    lemma_parse_number_of_dec(s, q0, lu);
    assert(s.subrange(q1, q1 + 1) =~= seq![125u8]);
    assert(lit_at(s, q1, seq![125u8]));
}

/// Law: a history encoded by `encode_history` parses back unchanged, field
/// for field — saving and then loading returns the history that was saved.
pub proof fn lemma_encode_parse_round_trip(ev: Seq<StateEvent>, lu: u64)
    ensures
        spec_parse_history(spec_encode_history(ev, lu)) == Some((ev, lu)),
{
    let h = lit_header();
    let evb = spec_encode_events(ev);
    let d = spec_dec(lu);
    let s = spec_encode_history(ev, lu);
    let body = evb + seq![93u8];
    let x = lit_last_update() + (d + seq![125u8]);
    assert(s.subrange(0, s.len() as int) =~= s);
    assert(s =~= h + (body + x));
    lemma_split_prefix(s, 0, h, body + x);
    assert(lit_at(s, 0, h));
    lemma_split_prefix(s, 11, body, x);
    lemma_parse_events_of_encoding(s, 11, ev);
    let k: int = 11 + evb.len() as int + 1;
    lemma_parse_history_footer(s, k, lu);
    let q1 = k + 15 + d.len();
    assert(q1 + 1 == s.len());
    assert(spec_parse_history(s) == Some((ev, lu)));
}


/// Powers of ten are positive.
proof fn lemma_pow10_pos(k: nat)
    ensures
        pow10(k) >= 1,
    decreases k,
{
    if k > 0 {
        lemma_pow10_pos((k - 1) as nat);
    }
}

/// The value of a digit string is non-negative.
proof fn lemma_num_of_nonneg(t: Seq<u8>)
    requires
        forall|k: int| 0 <= k < t.len() ==> is_digit(#[trigger] t[k]),
    ensures
        num_of(t) >= 0,
    decreases t.len(),
{
    if t.len() > 0 {
        let b = t.drop_last();
        assert forall|k: int| 0 <= k < b.len() implies is_digit(#[trigger] b[k]) by {
            assert(is_digit(t[k]));
        }
        lemma_num_of_nonneg(b);
    }
}

/// A digit string without a leading zero is the canonical decimal of its own
/// value.
proof fn lemma_digits_to_dec(t: Seq<u8>)
    requires
        t.len() >= 1,
        forall|k: int| 0 <= k < t.len() ==> is_digit(#[trigger] t[k]),
        t[0] != 48 || t.len() == 1,
    ensures
        num_of(t) >= 0,
        t == spec_dec_nat(num_of(t) as nat),
    decreases t.len(),
{
    lemma_num_of_nonneg(t);
    if t.len() == 1 {
        assert(t.drop_last() =~= Seq::<u8>::empty());
        assert(num_of(Seq::<u8>::empty()) == 0);
        let n = num_of(t);
        assert(n == t[0] - 48);
        assert(n < 10);
        assert(spec_dec_nat(n as nat) =~= seq![(48 + n as nat) as u8]);
        assert(t =~= spec_dec_nat(n as nat));
    } else {
        let b = t.drop_last();
        assert forall|k: int| 0 <= k < b.len() implies is_digit(#[trigger] b[k]) by {
            assert(is_digit(t[k]));
        }
        assert(b[0] == t[0]);
        assert(b[0] != 48);
        lemma_digits_to_dec(b);
        lemma_num_of_split_first(b);
        lemma_num_of_nonneg(b.drop_first());
        lemma_pow10_pos((b.len() - 1) as nat);
        let d0 = b[0] - 48;
        let pb = pow10((b.len() - 1) as nat);
        assert(d0 >= 1);
        assert(d0 * pb >= 1) by (nonlinear_arith)
            requires
                d0 >= 1,
                pb >= 1,
        ;
        assert(num_of(b) >= 1);
        let n = num_of(t);
        let r = t.last() - 48;
        assert(0 <= r < 10);
        assert(n == num_of(b) * 10 + r);
        assert(n >= 10);
        vstd::arithmetic::div_mod::lemma_fundamental_div_mod(n, 10);
        vstd::arithmetic::div_mod::lemma_mod_bound(n, 10);
        assert(n / 10 == num_of(b));
        assert(n % 10 == r);
        assert((n as nat) / 10 == (n / 10) as nat);
        assert((n as nat) % 10 == r);
        assert(spec_dec_nat(n as nat) == spec_dec_nat(((n as nat) / 10) as nat).push(
            (48 + (n as nat) % 10) as u8,
        ));
        assert(spec_dec_nat(((n as nat) / 10) as nat) == b);
        assert((48 + (n as nat) % 10) as u8 == t.last());
        assert(b.push(t.last()) =~= t);
    }
}

/// Where a digit fold stops: at or after the start, inside the sequence, with
/// digits before the stopping point and a non-digit (or the end) at it.
proof fn lemma_parse_digits_facts(s: Seq<u8>, i: int, acc: int)
    requires
        0 <= i <= s.len(),
    ensures
        i <= spec_parse_digits(s, i, acc).1 <= s.len(),
        forall|k: int| i <= k < spec_parse_digits(s, i, acc).1 ==> is_digit(#[trigger] s[k]),
        spec_parse_digits(s, i, acc).1 == s.len() || !is_digit(s[spec_parse_digits(s, i, acc).1]),
    decreases s.len() - i,
{
    if i < s.len() && is_digit(s[i]) {
        lemma_parse_digits_facts(s, i + 1, acc * 10 + (s[i] - 48));
    }
}

/// What a successful number parse says of the bytes: they are exactly the
/// canonical decimal of the value, bounded by a non-digit.
proof fn lemma_parse_number_sound(s: Seq<u8>, i: int, n: u64, j: int)
    requires
        spec_parse_number(s, i) == Some((n, j)),
    ensures
        0 <= i < j <= s.len(),
        s.subrange(i, j) == spec_dec(n),
        j == s.len() || !is_digit(s[j]),
{
    lemma_parse_digits_facts(s, i, 0);
    let j1 = spec_parse_digits(s, i, 0).1;
    lemma_parse_digits_region(s, i, j1, 0);
    assert(j == j1);
    assert(i < j);
    let t = s.subrange(i, j);
    lemma_num_of_nonneg(t);
    assert(0 * pow10((j - i) as nat) == 0) by (nonlinear_arith);
    assert(num_of(t) == n);
    assert(t[0] == s[i]);
    if s[i] == 48 {
        assert(i + 1 == s.len() || !is_digit(s[i + 1]));
        assert(j == i + 1);
    }
    lemma_digits_to_dec(t);
    assert(t == spec_dec(n));
}

/// What a successful state parse says of the bytes: they are that state's
/// label.
proof fn lemma_parse_state_sound(s: Seq<u8>, i: int, st: State, j: int)
    requires
        spec_parse_state(s, i) == Some((st, j)),
    ensures
        0 <= i < j <= s.len(),
        j == i + spec_state_label(st).len(),
        s.subrange(i, j) == spec_state_label(st),
{
    if lit_at(s, i, spec_state_label(State::Unknown)) {
        assert(st == State::Unknown);
    } else if lit_at(s, i, spec_state_label(State::Reachable)) {
        assert(st == State::Reachable);
    } else {
        assert(st == State::Unreachable);
    }
}

/// Two adjacent known regions join into one.
proof fn lemma_join_prefix(s: Seq<u8>, i: int, a: Seq<u8>, b: Seq<u8>)
    requires
        0 <= i,
        i + a.len() + b.len() <= s.len(),
        s.subrange(i, i + a.len()) == a,
        s.subrange(i + a.len(), i + a.len() + b.len()) == b,
    ensures
        s.subrange(i, i + a.len() + b.len()) == a + b,
{
    assert forall|k: int|
        0 <= k < a.len() + b.len() implies s.subrange(i, i + a.len() + b.len())[k] == (a + b)[
        k] by {
        if k < a.len() {
            assert(s.subrange(i, i + a.len())[k] == a[k]);
        } else {
            assert(s.subrange(i + a.len(), i + a.len() + b.len())[k - a.len()] == b[k - a.len()]);
        }
    }
    assert(s.subrange(i, i + a.len() + b.len()) =~= a + b);
}

/// What a successful event parse says of the bytes: they are exactly that
/// event's encoding.
proof fn lemma_parse_event_sound(s: Seq<u8>, i: int, e: StateEvent, j: int)
    requires
        spec_parse_event(s, i) == Some((e, j)),
    ensures
        0 <= i < j <= s.len(),
        j == i + spec_encode_event(e).len(),
        s.subrange(i, j) == spec_encode_event(e),
{
    match spec_parse_number(s, i + 9) {
        Some((n0, p2)) => {
            lemma_parse_number_sound(s, i + 9, n0, p2);
            match spec_parse_state(s, p2 + 10) {
                Some((st0, p4)) => {
                    lemma_parse_state_sound(s, p2 + 10, st0, p4);
                    assert(e == StateEvent { start: n0, state: st0 });
                    assert(j == p4 + 2);
                    let a = lit_ev_start();
                    let b = spec_dec(n0);
                    let c = lit_ev_state();
                    let d = spec_state_label(st0);
                    let f = lit_ev_close();
                    lemma_join_prefix(s, i, a, b);
                    lemma_join_prefix(s, i, a + b, c);
                    lemma_join_prefix(s, i, (a + b) + c, d);
                    lemma_join_prefix(s, i, ((a + b) + c) + d, f);
                    assert(s.subrange(i, j) =~= spec_encode_event(e));
                },
                None => {
                    assert(false);
                },
            }
        },
        None => {
            assert(false);
        },
    }
}

/// What a successful tail parse says of the bytes: they are the tail's
/// encoding closed by the bracket.
proof fn lemma_parse_more_sound(s: Seq<u8>, i: int, ev: Seq<StateEvent>, k: int)
    requires
        0 <= i <= s.len(),
        spec_parse_more(s, i) == Some((ev, k)),
    ensures
        i < k <= s.len(),
        k == i + spec_encode_tail(ev).len() + 1,
        s.subrange(i, k) == spec_encode_tail(ev) + seq![93u8],
    decreases s.len() - i,
{
    if lit_at(s, i, seq![93u8]) {
        assert(ev =~= Seq::<StateEvent>::empty());
        assert(spec_encode_tail(ev) == Seq::<u8>::empty());
        assert(s.subrange(i, i + 1) =~= spec_encode_tail(ev) + seq![93u8]);
    } else {
        match spec_parse_event(s, i + 1) {
            Some((e0, j)) => {
                lemma_parse_event_sound(s, i + 1, e0, j);
                match spec_parse_more(s, j) {
                    Some((rest, k2)) => {
                        lemma_parse_more_sound(s, j, rest, k2);
                        assert(ev == seq![e0] + rest);
                        assert(k == k2);
                        let enc = spec_encode_event(e0);
                        let tb = spec_encode_tail(rest) + seq![93u8];
                        lemma_join_prefix(s, i, seq![44u8], enc);
                        lemma_join_prefix(s, i, seq![44u8] + enc, tb);
                        assert(ev[0] == e0);
                        assert(ev.drop_first() =~= rest);
                        assert(spec_encode_tail(ev) == seq![44u8] + enc + spec_encode_tail(rest));
                        assert(s.subrange(i, k) =~= spec_encode_tail(ev) + seq![93u8]);
                    },
                    None => {
                        assert(false);
                    },
                }
            },
            None => {
                assert(false);
            },
        }
    }
}

/// What a successful event-list parse says of the bytes.
proof fn lemma_parse_events_sound(s: Seq<u8>, i: int, ev: Seq<StateEvent>, k: int)
    requires
        0 <= i <= s.len(),
        spec_parse_events(s, i) == Some((ev, k)),
    ensures
        i < k <= s.len(),
        k == i + spec_encode_events(ev).len() + 1,
        s.subrange(i, k) == spec_encode_events(ev) + seq![93u8],
{
    if lit_at(s, i, seq![93u8]) {
        assert(ev =~= Seq::<StateEvent>::empty());
        assert(spec_encode_events(ev) == Seq::<u8>::empty());
        assert(s.subrange(i, i + 1) =~= spec_encode_events(ev) + seq![93u8]);
    } else {
        match spec_parse_event(s, i) {
            Some((e0, j)) => {
                lemma_parse_event_sound(s, i, e0, j);
                match spec_parse_more(s, j) {
                    Some((rest, k2)) => {
                        lemma_parse_more_sound(s, j, rest, k2);
                        assert(ev == seq![e0] + rest);
                        assert(k == k2);
                        let enc = spec_encode_event(e0);
                        lemma_join_prefix(s, i, enc, spec_encode_tail(rest) + seq![93u8]);
                        assert(ev[0] == e0);
                        assert(ev.drop_first() =~= rest);
                        assert(spec_encode_events(ev) == enc + spec_encode_tail(rest));
                        assert(s.subrange(i, k) =~= spec_encode_events(ev) + seq![93u8]);
                    },
                    None => {
                        assert(false);
                    },
                }
            },
            None => {
                assert(false);
            },
        }
    }
}

/// Five adjacent known regions assemble the whole document.
proof fn lemma_join_document(s: Seq<u8>, evb: Seq<u8>, d: Seq<u8>)
    requires
        s.len() == 11 + evb.len() + 15 + d.len() + 1,
        s.subrange(0, 11) == lit_header(),
        s.subrange(11, 11 + evb.len() as int) == evb,
        s.subrange(11 + evb.len() as int, 11 + evb.len() as int + 15) == lit_last_update(),
        s.subrange(11 + evb.len() as int + 15, 11 + evb.len() as int + 15 + d.len() as int) == d,
        s.subrange(s.len() as int - 1, s.len() as int) == seq![125u8],
    ensures
        s == (((lit_header() + evb) + lit_last_update()) + d) + seq![125u8],
{
    lemma_join_prefix(s, 0, lit_header(), evb);
    lemma_join_prefix(s, 0, lit_header() + evb, lit_last_update());
    lemma_join_prefix(s, 0, (lit_header() + evb) + lit_last_update(), d);
    lemma_join_prefix(s, 0, ((lit_header() + evb) + lit_last_update()) + d, seq![125u8]);
    assert(s.subrange(0, s.len() as int) =~= s);
}

/// Law: the parser accepts nothing but canonical encodings — a document that
/// parses as some history is, byte for byte, that history's encoding. With
/// the round trip this makes the canonical form a unique representation.
#[verifier::rlimit(100)]
pub proof fn lemma_parse_encode_sound(s: Seq<u8>, ev: Seq<StateEvent>, lu: u64)
    requires
        spec_parse_history(s) == Some((ev, lu)),
    ensures
        s == spec_encode_history(ev, lu),
{
    match spec_parse_events(s, 11) {
        Some((ev0, m)) => {
            lemma_parse_events_sound(s, 11, ev0, m);
            assert(ev0 == ev);
            match spec_parse_number(s, m + 15) {
                Some((lu0, q)) => {
                    lemma_parse_number_sound(s, m + 15, lu0, q);
                    assert(lu0 == lu);
                    assert(q + 1 == s.len());
                    let evb = spec_encode_events(ev) + seq![93u8];
                    let d = spec_dec(lu);
                    lemma_join_document(s, evb, d);
                    assert((((lit_header() + evb) + lit_last_update()) + d) + seq![125u8]
                        =~= spec_encode_history(ev, lu));
                },
                None => {
                    assert(false);
                },
            }
        },
        None => {
            assert(false);
        },
    }
}

} // verus!
