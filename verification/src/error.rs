//! The failure of a text to match the grammar.

use vstd::prelude::*;
use vstd::string::*;
use crate::text::{ascii_slice, ascii_text};
use crate::tree::{rule_name, Rule};

verus! {

/// Why a text is not an instance of the grammar: the byte offset of the first
/// token that fits no production, and the production that was wanted there.
#[derive(Clone, Copy, Debug, PartialEq, Eq, Structural)]
pub struct GrammarError {
    pub position: usize,
    pub expected: Rule,
}

/// The mathematical value of a [`GrammarError`].
pub struct Failure {
    pub position: int,
    pub expected: Rule,
}

impl View for GrammarError {
    type V = Failure;

    open spec fn view(&self) -> Failure {
        Failure { position: self.position as int, expected: self.expected }
    }
}

/// The character of the decimal digit `d`.
pub open spec fn digit_char(d: nat) -> char {
    if d == 0 {
        '0'
    } else if d == 1 {
        '1'
    } else if d == 2 {
        '2'
    } else if d == 3 {
        '3'
    } else if d == 4 {
        '4'
    } else if d == 5 {
        '5'
    } else if d == 6 {
        '6'
    } else if d == 7 {
        '7'
    } else if d == 8 {
        '8'
    } else {
        '9'
    }
}

/// The number `n` written in decimal digits, without leading zeros.
pub open spec fn decimal(n: nat) -> Seq<char>
    decreases n,
{
    if n < 10 {
        seq![digit_char(n)]
    } else {
        decimal(n / 10).push(digit_char(n % 10))
    }
}

/// What a failure says in words: `expected <production> at position <offset>`.
pub open spec fn failure_text(f: Failure) -> Seq<char> {
    "expected "@ + rule_name(f.expected) + " at position "@ + decimal(f.position as nat)
}

fn digit_str(d: usize) -> (text: &'static str)
    requires
        d < 10,
    ensures
        text@ == seq![digit_char(d as nat)],
{
    proof {
        reveal_strlit("0");
        reveal_strlit("1");
        reveal_strlit("2");
        reveal_strlit("3");
        reveal_strlit("4");
        reveal_strlit("5");
        reveal_strlit("6");
        reveal_strlit("7");
        reveal_strlit("8");
        reveal_strlit("9");
    }
    let text = if d == 0 {
        "0"
    } else if d == 1 {
        "1"
    } else if d == 2 {
        "2"
    } else if d == 3 {
        "3"
    } else if d == 4 {
        "4"
    } else if d == 5 {
        "5"
    } else if d == 6 {
        "6"
    } else if d == 7 {
        "7"
    } else if d == 8 {
        "8"
    } else {
        "9"
    };
    assert(text@ =~= seq![digit_char(d as nat)]);
    text
}

/// Writes `n` in decimal digits.
pub fn decimal_string(n: usize) -> (out: String)
    ensures
        out@ == decimal(n as nat),
    decreases n,
{
    if n < 10 {
        String::from_str(digit_str(n))
    } else {
        let mut out = decimal_string(n / 10);
        out.append(digit_str(n % 10));
        assert(out@ =~= decimal(n as nat));
        out
    }
}

/// What stands in `s` at offset `position`, in words: the byte there where
/// it is an ASCII character, else that the text ends or that another
/// character stands there.
pub open spec fn found_text(s: Seq<u8>, position: int) -> Seq<char> {
    if 0 <= position < s.len() && s[position] < 0x80 {
        ", found `"@ + ascii_text(s.subrange(position, position + 1)) + "`"@
    } else if 0 <= position < s.len() {
        ", found a character outside ASCII"@
    } else {
        ", found end of input"@
    }
}

impl GrammarError {
    /// Says in words which production was wanted and where, and what
    /// `input` holds there instead.
    pub fn describe(&self, input: &str) -> (out: String)
        ensures
            out@ == failure_text(self@) + found_text(input.spec_bytes(), self.position as int),
    {
        let bytes = input.as_bytes();
        let mut out = self.message();
        if self.position < bytes.len() {
            if bytes[self.position] < 0x80 {
                out.append(", found `");
                out.append(ascii_slice(input, self.position, self.position + 1));
                out.append("`");
            } else {
                out.append(", found a character outside ASCII");
            }
        } else {
            out.append(", found end of input");
        }
        out
    }

    /// Says in words which production was wanted, and where.
    pub fn message(&self) -> (out: String)
        ensures
            out@ == failure_text(self@),
    {
        let mut out = String::from_str("expected ");
        out.append(self.expected.name());
        out.append(" at position ");
        out.append(decimal_string(self.position).as_str());
        out
    }
}

} // verus!
