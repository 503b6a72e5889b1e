//! The tolerant notation parser for the `NdS[+O][,NdS[+O]]*` grammar.
//!
//! The text is scanned left to right for non-overlapping term matches of the
//! shape `<digits>d<digits>`, optionally followed by `+<digits>`; the offset
//! suffix is captured and discarded, as is every non-matching character, so
//! parsing never fails: malformed input simply yields fewer or zero dice.
//! A matched term contributes `count` dice of `sides` faces, except that a
//! degenerate face count (one or fewer) contributes nothing, and a number
//! too large for the machine word is treated as malformed and contributes
//! nothing as well.

use vstd::prelude::*;
use crate::dice::{Dice, DiceSet, all_wf};
use crate::text::{digit, digit_val, is_digit, str_to_chars};

verus! {

/// The value of a run of decimal digit characters, most significant first.
pub open spec fn digits_val(s: Seq<char>) -> nat
    decreases s.len(),
{
    if s.len() == 0 {
        0
    } else {
        digits_val(s.drop_last()) * 10 + digit_val(s.last())
    }
}

/// Where the run of decimal digits starting at `i` ends: the first position
/// at or after `i` that is past the end or holds a non-digit.
pub open spec fn digit_run_end(s: Seq<char>, i: int) -> int
    decreases s.len() - i,
{
    if 0 <= i < s.len() && is_digit(s[i]) {
        digit_run_end(s, i + 1)
    } else {
        i
    }
}

/// The shape of a digit run: it starts at `i`, stays within the text, holds
/// digits throughout, and stops right before the first non-digit.
proof fn lemma_digit_run(s: Seq<char>, i: int)
    requires
        0 <= i <= s.len(),
    ensures
        i <= digit_run_end(s, i) <= s.len(),
        forall|k: int| i <= k < digit_run_end(s, i) ==> is_digit(#[trigger] s[k]),
        digit_run_end(s, i) == s.len() || !is_digit(s[digit_run_end(s, i)]),
    decreases s.len() - i,
{
    if i < s.len() && is_digit(s[i]) {
        lemma_digit_run(s, i + 1);
    }
}

/// Extending a digit run to the right never lowers its value.
proof fn lemma_digits_val_mono(s: Seq<char>, i: int, k: int, j: int)
    requires
        0 <= i <= k <= j <= s.len(),
    ensures
        digits_val(s.subrange(i, k)) <= digits_val(s.subrange(i, j)),
    decreases j - k,
{
    if k < j {
        lemma_digits_val_mono(s, i, k + 1, j);
        assert(s.subrange(i, k + 1).drop_last() =~= s.subrange(i, k));
        assert(digits_val(s.subrange(i, k + 1)) == digits_val(s.subrange(i, k)) * 10 + digit_val(
            s.subrange(i, k + 1).last(),
        ));
    }
}

/// Whether a term of the grammar matches at position `i`: a digit run, the
/// literal `d`, and at least one more digit.
pub open spec fn match_at(s: Seq<char>, i: int) -> bool {
    let ce = digit_run_end(s, i);
    &&& 0 <= i < s.len()
    &&& is_digit(s[i])
    &&& ce < s.len()
    &&& s[ce] == 'd'
    &&& digit_run_end(s, ce + 1) > ce + 1
}

/// Where the term matching at `i` ends: after the side digits, or after an
/// offset suffix `+<digits>` when one follows directly.
pub open spec fn term_end(s: Seq<char>, i: int) -> int {
    let ce = digit_run_end(s, i);
    let se = digit_run_end(s, ce + 1);
    if se < s.len() && s[se] == '+' && digit_run_end(s, se + 1) > se + 1 {
        digit_run_end(s, se + 1)
    } else {
        se
    }
}

/// The dice-count number of the term matching at `i`.
pub open spec fn term_count(s: Seq<char>, i: int) -> nat {
    digits_val(s.subrange(i, digit_run_end(s, i)))
}

/// The face-count number of the term matching at `i`.
pub open spec fn term_sides(s: Seq<char>, i: int) -> nat {
    let ce = digit_run_end(s, i);
    digits_val(s.subrange(ce + 1, digit_run_end(s, ce + 1)))
}

/// The dice one term contributes: `count` dice of `sides` faces, or nothing
/// when the face count is degenerate or a number does not fit the machine
/// word.
pub open spec fn term_dice(count: nat, sides: nat) -> Seq<Dice> {
    if 2 <= sides <= usize::MAX && count <= usize::MAX {
        Seq::new(count, |k: int| Dice { sides: sides as usize })
    } else {
        Seq::empty()
    }
}

/// The dice contributed by every term at or after position `i`.
pub open spec fn parse_from(s: Seq<char>, i: int) -> Seq<Dice>
    decreases s.len() - i,
    when 0 <= i
    via parse_from_dec
{
    if i >= s.len() {
        Seq::empty()
    } else if match_at(s, i) {
        term_dice(term_count(s, i), term_sides(s, i)) + parse_from(s, term_end(s, i))
    } else {
        parse_from(s, i + 1)
    }
}

#[via_fn]
proof fn parse_from_dec(s: Seq<char>, i: int) {
    if 0 <= i < s.len() && match_at(s, i) {
        lemma_term_end(s, i);
    }
}

/// A matching term ends past its own start and within the text.
proof fn lemma_term_end(s: Seq<char>, i: int)
    requires
        match_at(s, i),
    ensures
        i < term_end(s, i) <= s.len(),
{
    lemma_digit_run(s, i);
    let ce = digit_run_end(s, i);
    lemma_digit_run(s, ce + 1);
    let se = digit_run_end(s, ce + 1);
    if se < s.len() && s[se] == '+' && digit_run_end(s, se + 1) > se + 1 {
        lemma_digit_run(s, se + 1);
    }
}

/// What parsing a whole text yields.
pub open spec fn spec_parse(s: Seq<char>) -> Seq<Dice> {
    parse_from(s, 0)
}

/// Every die a parse yields has at least two faces.
proof fn lemma_parse_from_wf(s: Seq<char>, i: int)
    requires
        0 <= i,
    ensures
        all_wf(parse_from(s, i)),
    decreases s.len() - i,
{
    if i >= s.len() {
    } else if match_at(s, i) {
        lemma_term_end(s, i);
        lemma_parse_from_wf(s, term_end(s, i));
        let contributed = term_dice(term_count(s, i), term_sides(s, i));
        let rest = parse_from(s, term_end(s, i));
        assert forall|k: int| 0 <= k < parse_from(s, i).len() implies (#[trigger] parse_from(
            s,
            i,
        )[k]).sides >= 2 by {
            if k < contributed.len() {
                assert(parse_from(s, i)[k] == contributed[k]);
            } else {
                assert(parse_from(s, i)[k] == rest[k - contributed.len()]);
            }
        }
    } else {
        lemma_parse_from_wf(s, i + 1);
    }
}

/// The position one past the end of the digit run starting at `i`.
fn scan_digits(chars: &Vec<char>, i: usize) -> (j: usize)
    requires
        i <= chars@.len(),
    ensures
        j == digit_run_end(chars@, i as int),
        i <= j <= chars@.len(),
{
    let mut j: usize = i;
    while j < chars.len() && digit(chars[j])
        invariant
            i <= j <= chars@.len(),
            digit_run_end(chars@, i as int) == digit_run_end(chars@, j as int),
        decreases chars@.len() - j,
    {
        j = j + 1;
    }
    j
}

/// The number a digit run denotes, or `None` when it does not fit the
/// machine word.
fn digits_to_usize(chars: &Vec<char>, i: usize, j: usize) -> (r: Option<usize>)
    requires
        i <= j <= chars@.len(),
        forall|k: int| i <= k < j ==> is_digit(#[trigger] chars@[k]),
    ensures
        match r {
            Some(v) => v == digits_val(chars@.subrange(i as int, j as int)),
            None => digits_val(chars@.subrange(i as int, j as int)) > usize::MAX,
        },
{
    let ghost s = chars@;
    let mut acc: usize = 0;
    let mut k: usize = i;
    proof {
        assert(s.subrange(i as int, i as int) =~= Seq::<char>::empty());
    }
    while k < j
        invariant
            chars@ == s,
            i <= k <= j <= s.len(),
            forall|m: int| i <= m < j ==> is_digit(#[trigger] s[m]),
            acc == digits_val(s.subrange(i as int, k as int)),
        decreases j - k,
    {
        let c = chars[k];
        let d: usize = (c as u32 as usize) - 48;
        proof {
            assert(is_digit(s[k as int]));
            assert(d == digit_val(s[k as int]));
            assert(s.subrange(i as int, k as int + 1).drop_last() =~= s.subrange(
                i as int,
                k as int,
            ));
            assert(s.subrange(i as int, k as int + 1).last() == s[k as int]);
        }
        let scaled = match acc.checked_mul(10) {
            Some(v) => v,
            None => {
                proof {
                    lemma_digits_val_mono(s, i as int, k as int + 1, j as int);
                }
                return None;
            },
        };
        let next = match scaled.checked_add(d) {
            Some(v) => v,
            None => {
                proof {
                    lemma_digits_val_mono(s, i as int, k as int + 1, j as int);
                }
                return None;
            },
        };
        acc = next;
        k = k + 1;
    }
    proof {
        assert(s.subrange(i as int, k as int) =~= s.subrange(i as int, j as int));
    }
    Some(acc)
}

/// Parses free text into the dice set its terms denote. Never fails: every
/// character outside a term, and every degenerate or oversized term, is
/// ignored.
pub fn parse_dice(value: String) -> (r: DiceSet)
    ensures
        r.dice@ == spec_parse(value@),
        all_wf(r.dice@),
{
    DiceSet::from_string(value.as_str())
}

impl DiceSet {
    /// Parses free text into the dice set its terms denote (see
    /// [`parse_dice`]).
    pub fn from_string(text: &str) -> (r: DiceSet)
        ensures
            r.dice@ == spec_parse(text@),
            all_wf(r.dice@),
    {
        let chars = str_to_chars(text);
        let ghost s = chars@;
        let n = chars.len();
        let mut dice: Vec<Dice> = Vec::new();
        let mut i: usize = 0;
        while i < n
            invariant
                chars@ == s,
                n == s.len(),
                0 <= i,
                spec_parse(s) =~= dice@ + parse_from(s, i as int),
            decreases s.len() - i,
        {
            if !digit(chars[i]) {
                proof {
                    assert(!match_at(s, i as int));
                }
                i = i + 1;
                continue;
            }
            let ce = scan_digits(&chars, i);
            if !(ce < n && chars[ce] == 'd') {
                proof {
                    assert(!match_at(s, i as int));
                }
                i = i + 1;
                continue;
            }
            let ss = ce + 1;
            let se = scan_digits(&chars, ss);
            if se == ss {
                proof {
                    assert(!match_at(s, i as int));
                }
                i = i + 1;
                continue;
            }
            proof {
                assert(match_at(s, i as int));
            }
            // the term's end, offset suffix included
            let te = if se < n && chars[se] == '+' {
                let oe = scan_digits(&chars, se + 1);
                if oe > se + 1 {
                    oe
                } else {
                    se
                }
            } else {
                se
            };
            proof {
                assert(te == term_end(s, i as int));
                lemma_digit_run(s, i as int);
                lemma_digit_run(s, ss as int);
            }
            let count_opt = digits_to_usize(&chars, i, ce);
            let sides_opt = digits_to_usize(&chars, ss, se);
            let ghost contributed = term_dice(term_count(s, i as int), term_sides(s, i as int));
            match (count_opt, sides_opt) {
                (Some(count), Some(sides)) => {
                    if sides > 1 {
                        proof {
                            assert(contributed =~= Seq::new(
                                count as nat,
                                |k: int| Dice { sides },
                            ));
                        }
                        let ghost before = dice@;
                        let mut c: usize = 0;
                        while c < count
                            invariant
                                0 <= c <= count,
                                dice@ =~= before + Seq::new(c as nat, |k: int| Dice { sides }),
                            decreases count - c,
                        {
                            dice.push(Dice { sides });
                            proof {
                                assert(Seq::new((c + 1) as nat, |k: int| Dice { sides }) =~= Seq::new(
                                    c as nat,
                                    |k: int| Dice { sides },
                                ).push(Dice { sides }));
                            }
                            c = c + 1;
                        }
                        proof {
                            assert(dice@ =~= before + contributed);
                        }
                    } else {
                        proof {
                            assert(contributed =~= Seq::<Dice>::empty());
                            assert(dice@ =~= dice@ + contributed);
                        }
                    }
                },
                _ => {
                    proof {
                        assert(contributed =~= Seq::<Dice>::empty());
                        assert(dice@ =~= dice@ + contributed);
                    }
                },
            }
            proof {
                assert(parse_from(s, i as int) =~= contributed + parse_from(s, te as int));
                assert(spec_parse(s) =~= dice@ + parse_from(s, te as int));
            }
            i = te;
        }
        proof {
            assert(parse_from(s, i as int) =~= Seq::<Dice>::empty());
            assert(dice@ =~= spec_parse(s));
            lemma_parse_from_wf(s, 0);
        }
        DiceSet { dice }
    }
}

} // verus!
