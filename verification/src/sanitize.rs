//! The keystroke filter: a deterministic finite-state automaton over
//! characters that keeps the longest valid prefix material of the
//! `NdS[+O][,NdS[+O]]*` grammar while text is being typed. A rejected
//! character is dropped and the automaton's state is left unchanged;
//! rejection never advances or regresses it.

use vstd::prelude::*;
use crate::text::{chars_to_string, digit, is_digit, str_to_chars};

verus! {

/// The grammar position the filter is at while scanning keystrokes.
#[derive(Clone, Copy, PartialEq, Eq, Structural, Hash, Debug)]
pub enum State {
    StartState,
    NumDState,
    DState,
    SidesState,
    PlusState,
    OffsetState,
}

/// The transition table: whether a character is kept, and the state the
/// automaton moves to. A rejected character leaves the state unchanged.
pub open spec fn step_spec(state: State, c: char) -> (bool, State) {
    match state {
        State::StartState => if is_digit(c) {
            (true, State::NumDState)
        } else {
            (false, state)
        },
        State::NumDState => if c == 'd' {
            (true, State::DState)
        } else if is_digit(c) {
            (true, State::NumDState)
        } else {
            (false, state)
        },
        State::DState => if is_digit(c) {
            (true, State::SidesState)
        } else {
            (false, state)
        },
        State::SidesState => if is_digit(c) {
            (true, State::SidesState)
        } else if c == '+' {
            (true, State::PlusState)
        } else if c == ',' {
            (true, State::StartState)
        } else {
            (false, state)
        },
        State::PlusState => if is_digit(c) {
            (true, State::OffsetState)
        } else {
            (false, state)
        },
        State::OffsetState => if is_digit(c) {
            (true, State::OffsetState)
        } else if c == ',' {
            (true, State::StartState)
        } else {
            (false, state)
        },
    }
}

/// What filtering a text from a given state keeps.
pub open spec fn sanitize_from(state: State, s: Seq<char>) -> Seq<char>
    decreases s.len(),
{
    if s.len() == 0 {
        Seq::empty()
    } else {
        let keep = step_spec(state, s.first()).0;
        let next = step_spec(state, s.first()).1;
        if keep {
            seq![s.first()] + sanitize_from(next, s.drop_first())
        } else {
            sanitize_from(next, s.drop_first())
        }
    }
}

/// What filtering a whole text keeps, starting at the initial state.
pub open spec fn spec_sanitize(s: Seq<char>) -> Seq<char> {
    sanitize_from(State::StartState, s)
}

fn start_transition(ch: char) -> (r: (bool, State))
    ensures
        r == step_spec(State::StartState, ch),
{
    if digit(ch) {
        (true, State::NumDState)
    } else {
        (false, State::StartState)
    }
}

fn num_d_transition(ch: char) -> (r: (bool, State))
    ensures
        r == step_spec(State::NumDState, ch),
{
    if ch == 'd' {
        (true, State::DState)
    } else if digit(ch) {
        (true, State::NumDState)
    } else {
        (false, State::NumDState)
    }
}

fn d_transition(ch: char) -> (r: (bool, State))
    ensures
        r == step_spec(State::DState, ch),
{
    if digit(ch) {
        (true, State::SidesState)
    } else {
        (false, State::DState)
    }
}

fn sides_transition(ch: char) -> (r: (bool, State))
    ensures
        r == step_spec(State::SidesState, ch),
{
    if digit(ch) {
        (true, State::SidesState)
    } else if ch == '+' {
        (true, State::PlusState)
    } else if ch == ',' {
        (true, State::StartState)
    } else {
        (false, State::SidesState)
    }
}

fn plus_transition(ch: char) -> (r: (bool, State))
    ensures
        r == step_spec(State::PlusState, ch),
{
    if digit(ch) {
        (true, State::OffsetState)
    } else {
        (false, State::PlusState)
    }
}

fn offset_transition(ch: char) -> (r: (bool, State))
    ensures
        r == step_spec(State::OffsetState, ch),
{
    if digit(ch) {
        (true, State::OffsetState)
    } else if ch == ',' {
        (true, State::StartState)
    } else {
        (false, State::OffsetState)
    }
}

/// One step of the automaton, dispatched on the current state.
fn transition(state: State, ch: char) -> (r: (bool, State))
    ensures
        r == step_spec(state, ch),
{
    match state {
        State::StartState => start_transition(ch),
        State::NumDState => num_d_transition(ch),
        State::DState => d_transition(ch),
        State::SidesState => sides_transition(ch),
        State::PlusState => plus_transition(ch),
        State::OffsetState => offset_transition(ch),
    }
}

/// Filters raw keystroke text down to the characters the grammar accepts,
/// processing the characters strictly left to right over a single running
/// state. Pure and total: it never fails, it only drops characters.
pub fn parse_and_discard(dice_str: String) -> (r: String)
    ensures
        r@ == spec_sanitize(dice_str@),
{
    let chars = str_to_chars(dice_str.as_str());
    let ghost s = chars@;
    let mut out: Vec<char> = Vec::new();
    let mut current = State::StartState;
    let mut i: usize = 0;
    proof {
        assert(s.skip(0) =~= s);
    }
    while i < chars.len()
        invariant
            chars@ == s,
            0 <= i <= s.len(),
            spec_sanitize(s) =~= out@ + sanitize_from(current, s.skip(i as int)),
        decreases s.len() - i,
    {
        let ch = chars[i];
        proof {
            assert(s.skip(i as int).first() == s[i as int]);
            assert(s.skip(i as int).drop_first() =~= s.skip(i as int + 1));
        }
        let step = transition(current, ch);
        if step.0 {
            out.push(ch);
        }
        current = step.1;
        i = i + 1;
    }
    proof {
        assert(sanitize_from(current, s.skip(i as int)) =~= Seq::<char>::empty());
        assert(out@ =~= spec_sanitize(s));
    }
    chars_to_string(&out)
}

/// Law: the filter is idempotent from any state — what one pass keeps, a
/// second pass from the same state keeps unchanged.
proof fn lemma_sanitize_from_idempotent(q: State, s: Seq<char>)
    ensures
        sanitize_from(q, sanitize_from(q, s)) == sanitize_from(q, s),
    decreases s.len(),
{
    if s.len() > 0 {
        let c = s.first();
        let keep = step_spec(q, c).0;
        let next = step_spec(q, c).1;
        if keep {
            let t = sanitize_from(next, s.drop_first());
            lemma_sanitize_from_idempotent(next, s.drop_first());
            let kept = seq![c] + t;
            assert(kept.first() == c);
            assert(kept.drop_first() =~= t);
            assert(sanitize_from(q, kept) =~= seq![c] + sanitize_from(next, t));
        } else {
            lemma_sanitize_from_idempotent(q, s.drop_first());
        }
    }
}

/// Law: sanitizing is idempotent — `sanitize(sanitize(x)) == sanitize(x)`
/// for arbitrary input `x`.
pub proof fn lemma_sanitize_idempotent(s: Seq<char>)
    ensures
        spec_sanitize(spec_sanitize(s)) == spec_sanitize(s),
{
    lemma_sanitize_from_idempotent(State::StartState, s);
}

/// What the simpler digit/`d`/comma filter keeps: digits always, a `d` only
/// when the output is nonempty and no `d` stands in the term being built,
/// and a comma only right after a term that has its `d`.
pub open spec fn valid_from(has_d: bool, nonempty: bool, s: Seq<char>) -> Seq<char>
    decreases s.len(),
{
    if s.len() == 0 {
        Seq::empty()
    } else {
        let c = s.first();
        if is_digit(c) {
            seq![c] + valid_from(has_d, true, s.drop_first())
        } else if c == 'd' && !has_d && nonempty {
            seq![c] + valid_from(true, true, s.drop_first())
        } else if c == ',' && has_d {
            seq![c] + valid_from(false, true, s.drop_first())
        } else {
            valid_from(has_d, nonempty, s.drop_first())
        }
    }
}

/// Keeps the digits, `d` separators and commas that fit the coarse
/// one-`d`-per-term shape, dropping everything else.
pub fn get_valid_dice(dice: String) -> (r: String)
    ensures
        r@ == valid_from(false, false, dice@),
{
    let chars = str_to_chars(dice.as_str());
    let ghost s = chars@;
    let mut ret: Vec<char> = Vec::new();
    let mut has_d = false;
    let mut i: usize = 0;
    proof {
        assert(s.skip(0) =~= s);
    }
    while i < chars.len()
        invariant
            chars@ == s,
            0 <= i <= s.len(),
            valid_from(false, false, s) =~= ret@ + valid_from(has_d, ret@.len() > 0, s.skip(
                i as int,
            )),
        decreases s.len() - i,
    {
        let ch = chars[i];
        proof {
            assert(s.skip(i as int).first() == s[i as int]);
            assert(s.skip(i as int).drop_first() =~= s.skip(i as int + 1));
        }
        if digit(ch) {
            ret.push(ch);
        } else if ch == 'd' && !has_d && ret.len() > 0 {
            ret.push(ch);
            has_d = true;
        } else if ch == ',' && has_d {
            ret.push(ch);
            has_d = false;
        }
        i = i + 1;
    }
    proof {
        assert(valid_from(has_d, ret@.len() > 0, s.skip(i as int)) =~= Seq::<char>::empty());
        assert(ret@ =~= valid_from(false, false, s));
    }
    chars_to_string(&ret)
}

} // verus!

