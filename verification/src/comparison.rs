//! The relational operator of a decision roll: parsing, rendering and
//! evaluation of the five comparison operators.

use vstd::prelude::*;

verus! {

/// A relational operator used to gate a decision roll.
///
/// Both `=` and `==` parse to `Equal`; `Equal` always renders back as `==`.
#[derive(Clone, Copy, PartialEq, Eq, Structural, Debug)]
pub enum Comparison {
    LessThan,
    GreaterThan,
    LessEqual,
    GreaterEqual,
    Equal,
}

impl Comparison {
    /// The standard relational semantics of each operator.
    pub open spec fn compare_spec(self, a: int, b: int) -> bool {
        match self {
            Comparison::LessEqual => a <= b,
            Comparison::GreaterEqual => a >= b,
            Comparison::LessThan => a < b,
            Comparison::GreaterThan => a > b,
            Comparison::Equal => a == b,
        }
    }

    /// The canonical token of each operator.
    pub open spec fn token_spec(self) -> Seq<char> {
        match self {
            Comparison::LessEqual => seq!['<', '='],
            Comparison::GreaterEqual => seq!['>', '='],
            Comparison::LessThan => seq!['<'],
            Comparison::GreaterThan => seq!['>'],
            Comparison::Equal => seq!['=', '='],
        }
    }

    /// Which token strings parse, and to what operator.
    pub open spec fn from_str_spec(s: Seq<char>) -> Result<Comparison, ()> {
        if s.len() == 1 {
            if s[0] == '<' {
                Ok(Comparison::LessThan)
            } else if s[0] == '>' {
                Ok(Comparison::GreaterThan)
            } else if s[0] == '=' {
                Ok(Comparison::Equal)
            } else {
                Err(())
            }
        } else if s.len() == 2 && s[1] == '=' {
            if s[0] == '<' {
                Ok(Comparison::LessEqual)
            } else if s[0] == '>' {
                Ok(Comparison::GreaterEqual)
            } else if s[0] == '=' {
                Ok(Comparison::Equal)
            } else {
                Err(())
            }
        } else {
            Err(())
        }
    }

    /// Parses an operator token; every token other than `<`, `>`, `<=`, `>=`,
    /// `=` and `==` is an invalid-operator error.
    pub fn from_str(input: &str) -> (r: Result<Comparison, ()>)
        ensures
            r == Comparison::from_str_spec(input@),
    {
        let n = input.unicode_len();
        if n == 1 {
            let c = input.get_char(0);
            if c == '<' {
                Ok(Comparison::LessThan)
            } else if c == '>' {
                Ok(Comparison::GreaterThan)
            } else if c == '=' {
                Ok(Comparison::Equal)
            } else {
                Err(())
            }
        } else if n == 2 {
            let c0 = input.get_char(0);
            let c1 = input.get_char(1);
            if c1 == '=' && c0 == '<' {
                Ok(Comparison::LessEqual)
            } else if c1 == '=' && c0 == '>' {
                Ok(Comparison::GreaterEqual)
            } else if c1 == '=' && c0 == '=' {
                Ok(Comparison::Equal)
            } else {
                Err(())
            }
        } else {
            Err(())
        }
    }

    /// Evaluates the operator on two outcomes.
    pub fn compare(&self, a: usize, b: usize) -> (r: bool)
        ensures
            r == self.compare_spec(a as int, b as int),
    {
        match self {
            Comparison::LessEqual => a <= b,
            Comparison::GreaterEqual => a >= b,
            Comparison::LessThan => a < b,
            Comparison::GreaterThan => a > b,
            Comparison::Equal => a == b,
        }
    }

    /// Renders the canonical token; `Equal` renders as `==` even when it was
    /// parsed from `=`.
    pub fn to_string(&self) -> (r: String)
        ensures
            r@ == self.token_spec(),
    {
        let mut v: Vec<char> = Vec::new();
        match self {
            Comparison::LessEqual => {
                v.push('<');
                v.push('=');
            },
            Comparison::GreaterEqual => {
                v.push('>');
                v.push('=');
            },
            Comparison::LessThan => {
                v.push('<');
            },
            Comparison::GreaterThan => {
                v.push('>');
            },
            Comparison::Equal => {
                v.push('=');
                v.push('=');
            },
        }
        proof {
            assert(v@ =~= self.token_spec());
        }
        crate::text::chars_to_string(&v)
    }

    /// All five operators, in the order offered to a selection UI.
    pub fn iter() -> (r: Vec<Comparison>)
        ensures
            r@ =~= seq![
                Comparison::LessEqual,
                Comparison::GreaterEqual,
                Comparison::LessThan,
                Comparison::GreaterThan,
                Comparison::Equal,
            ],
    {
        let mut v: Vec<Comparison> = Vec::new();
        v.push(Comparison::LessEqual);
        v.push(Comparison::GreaterEqual);
        v.push(Comparison::LessThan);
        v.push(Comparison::GreaterThan);
        v.push(Comparison::Equal);
        v
    }
}

/// Evaluates an operator on two outcomes as a free function.
pub fn do_comparison(op: Comparison, a: usize, b: usize) -> (r: bool)
    ensures
        r == op.compare_spec(a as int, b as int),
{
    op.compare(a, b)
}

} // verus!

