//! Character-level text helpers: decimal rendering of numbers and the
//! conversions between `String` and `Vec<char>` that the parser, sanitizer
//! and canonical formatters share.

use vstd::prelude::*;

verus! {

/// The character of a single decimal digit value.
pub open spec fn digit_char(d: nat) -> char {
    if d == 0 {
        '0'
    } else if d == 1 {
        '1'
    } else if d == 2 {
        '2'
    } else if d == 3 {
        '3'
    } else if d == 4 {
        '4'
    } else if d == 5 {
        '5'
    } else if d == 6 {
        '6'
    } else if d == 7 {
        '7'
    } else if d == 8 {
        '8'
    } else {
        '9'
    }
}

/// The usual decimal rendering of a number, most significant digit first,
/// with no leading zeros (zero itself renders as `0`).
pub open spec fn dec_str(n: nat) -> Seq<char>
    decreases n,
{
    if n < 10 {
        seq![digit_char(n)]
    } else {
        dec_str(n / 10) + seq![digit_char(n % 10)]
    }
}

/// A sequence reversed, defined by peeling the last element to the front.
spec fn rseq(s: Seq<char>) -> Seq<char>
    decreases s.len(),
{
    if s.len() == 0 {
        Seq::empty()
    } else {
        seq![s.last()] + rseq(s.drop_last())
    }
}

/// Whether a character is an ASCII decimal digit.
pub open spec fn is_digit(c: char) -> bool {
    48 <= c as u32 <= 57
}

/// The numeric value of an ASCII decimal digit character.
pub open spec fn digit_val(c: char) -> nat {
    (c as u32 - 48) as nat
}

/// Tests whether a character is an ASCII decimal digit.
pub fn digit(c: char) -> (r: bool)
    ensures
        r == is_digit(c),
{
    let u = c as u32;
    48 <= u && u <= 57
}

/// The digit character of a value below ten.
pub fn digit_to_char(d: usize) -> (r: char)
    requires
        d < 10,
    ensures
        r == digit_char(d as nat),
{
    if d == 0 {
        '0'
    } else if d == 1 {
        '1'
    } else if d == 2 {
        '2'
    } else if d == 3 {
        '3'
    } else if d == 4 {
        '4'
    } else if d == 5 {
        '5'
    } else if d == 6 {
        '6'
    } else if d == 7 {
        '7'
    } else if d == 8 {
        '8'
    } else {
        '9'
    }
}

/// Appends the decimal rendering of `n` to `out`.
pub fn push_dec(out: &mut Vec<char>, n: usize)
    ensures
        final(out)@ == old(out)@ + dec_str(n as nat),
{
    let mut tmp: Vec<char> = Vec::new();
    let mut m: usize = n;
    while m >= 10
        invariant
            dec_str(n as nat) == dec_str(m as nat) + rseq(tmp@),
        decreases m,
    {
        let d = digit_to_char(m % 10);
        let ghost tmp0 = tmp@;
        tmp.push(d);
        proof {
            assert(tmp@.drop_last() =~= tmp0);
            assert(rseq(tmp@) =~= seq![d] + rseq(tmp0));
            assert(dec_str(m as nat) =~= dec_str(m as nat / 10) + seq![digit_char(m as nat % 10)]);
            assert(dec_str(m as nat) + rseq(tmp0) =~= dec_str(m as nat / 10) + rseq(tmp@));
        }
        m = m / 10;
    }
    let d = digit_to_char(m);
    let ghost tmp0 = tmp@;
    tmp.push(d);
    proof {
        assert(tmp@.drop_last() =~= tmp0);
        assert(rseq(tmp@) =~= seq![d] + rseq(tmp0));
        assert(dec_str(n as nat) =~= rseq(tmp@));
    }
    let ghost out0 = out@;
    while tmp.len() > 0
        invariant
            out@ + rseq(tmp@) == out0 + dec_str(n as nat),
        decreases tmp.len(),
    {
        let ghost tmp1 = tmp@;
        let c = tmp.pop().unwrap();
        let ghost outp = out@;
        out.push(c);
        proof {
            assert(tmp@ =~= tmp1.drop_last());
            assert(rseq(tmp1) =~= seq![c] + rseq(tmp@));
            assert(out@ + rseq(tmp@) =~= outp + rseq(tmp1));
        }
    }
    proof {
        assert(rseq(tmp@) =~= Seq::<char>::empty());
        assert(out@ =~= out@ + rseq(tmp@));
    }
}

/// The decimal rendering of a number as a fresh string.
pub fn dec_string(n: usize) -> (s: String)
    ensures
        s@ == dec_str(n as nat),
{
    let mut v: Vec<char> = Vec::new();
    push_dec(&mut v, n);
    proof {
        assert(v@ =~= dec_str(n as nat));
    }
    chars_to_string(&v)
}

/// Relies on `str::chars` followed by `Iterator::collect`: the characters of
/// a string, in order, as a vector.
#[verifier::external_body]
pub fn str_to_chars(s: &str) -> (v: Vec<char>)
    ensures
        v@ == s@,
{
    s.chars().collect()
}

/// Relies on `Iterator::collect` for `String`: the characters of the vector,
/// in order, as a string.
#[verifier::external_body]
pub fn chars_to_string(v: &Vec<char>) -> (s: String)
    ensures
        s@ == v@,
{
    v.iter().collect()
}

} // verus!
