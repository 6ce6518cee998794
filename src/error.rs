//! The error that every stage of the parser reports.
use vstd::prelude::*;
use crate::chars::{append_chars, chars_of, string_of};

verus! {

/// The character of a decimal digit `d < 10`.
pub open spec fn digit_of(d: nat) -> char {
    if d == 0 { '0' }
    else if d == 1 { '1' }
    else if d == 2 { '2' }
    else if d == 3 { '3' }
    else if d == 4 { '4' }
    else if d == 5 { '5' }
    else if d == 6 { '6' }
    else if d == 7 { '7' }
    else if d == 8 { '8' }
    else { '9' }
}

/// The decimal notation of `n`, without leading zeros.
pub open spec fn decimal(n: nat) -> Seq<char>
    decreases n,
{
    if n < 10 {
        seq![digit_of(n)]
    } else {
        decimal(n / 10).push(digit_of(n % 10))
    }
}

/// Relies on `ToString` for `usize`: the decimal notation of the number.
#[verifier::external_body]
fn decimal_string(n: usize) -> (r: String)
    ensures
        r@ == decimal(n as nat),
{
    n.to_string()
}

/// A parse failure: where it happened, and what went wrong.
#[derive(Debug)]
pub struct ParseError {
    pub filename: String,
    pub line_number: usize,
    pub message: String,
    pub line: Option<String>,
    pub pos: Option<usize>,
}

/// The rendered form of an error: `On line L of F: MSG`.
pub open spec fn error_text(filename: Seq<char>, line_number: nat, message: Seq<char>) -> Seq<char> {
    "On line "@ + decimal(line_number) + " of "@ + filename + ": "@ + message
}

impl ParseError {
    pub fn new(
        filename: String,
        line_number: usize,
        message: String,
        line: Option<String>,
        pos: Option<usize>,
    ) -> (r: Self)
        ensures
            r.filename == filename,
            r.line_number == line_number,
            r.message == message,
            r.line == line,
            r.pos == pos,
    {
        ParseError { filename, line_number, message, line, pos }
    }

    pub open spec fn spec_text(&self) -> Seq<char> {
        error_text(self.filename@, self.line_number as nat, self.message@)
    }

    /// The error as one line of text: `On line L of F: MSG`.
    pub fn to_string(&self) -> (r: String)
        ensures
            r@ == self.spec_text(),
    {
        let mut v = chars_of("On line ");
        let n = decimal_string(self.line_number);
        append_chars(&mut v, &chars_of(n.as_str()));
        append_chars(&mut v, &chars_of(" of "));
        append_chars(&mut v, &chars_of(self.filename.as_str()));
        append_chars(&mut v, &chars_of(": "));
        append_chars(&mut v, &chars_of(self.message.as_str()));
        string_of(&v)
    }
}

} // verus!
