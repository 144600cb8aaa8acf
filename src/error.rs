//! Errors reported while reading a pattern.
use vstd::prelude::*;

use crate::text::{chars_of, decimal, push_decimal, string_of};

verus! {

/// Why the two bounds of a bracketed range do not make a range.
#[derive(Debug, Clone, Copy, PartialEq, Eq, Structural)]
pub enum RangeError {
    /// The start bound is empty.
    EmptyStart,
    /// The end bound is empty.
    EmptyEnd,
    /// Neither both bounds start with a letter nor both start with a digit.
    MixedKinds,
    /// One bound starts with an upper-case letter, the other with a lower-case one.
    MixedCase,
    /// `BadChar(c, first, last)`: the character `c` lies outside the
    /// bounds' alphabet, which runs from `first` to `last`.
    BadChar(char, char, char),
    /// A bound whose value does not fit in a `usize`.
    TooLarge,
}

/// A pattern that cannot be read. Positions are byte offsets into the
/// pattern, counted from zero.
#[derive(Debug, Clone, Copy, PartialEq, Eq, Structural)]
pub enum SyntaxError {
    /// A delimiter where none may stand.
    UnexpectedChar(char, usize),
    /// A bracketed range, closed at the given position, whose bounds do not
    /// make a range.
    InvalidRange(RangeError, usize),
    /// A group still open at the end of the pattern, whose length is given.
    Unterminated(usize),
}

pub open spec fn quoted(c: char) -> Seq<char> {
    seq!['\'', c, '\'']
}

impl RangeError {
    /// The text that describes the error.
    pub open spec fn describe(self) -> Seq<char> {
        match self {
            RangeError::EmptyStart => "range start cannot be empty"@,
            RangeError::EmptyEnd => "range end cannot be empty"@,
            RangeError::MixedKinds => "range bounds must both be letters or both be digits"@,
            RangeError::MixedCase => "mixed uppercase with lowercase in alphabetic range"@,
            RangeError::BadChar(c, first, last) => "char "@ + quoted(c) + " not in range "@
                + seq!['\'', first, '-', last, '\''],
            RangeError::TooLarge => "range bound is too large"@,
        }
    }

    pub fn to_string(&self) -> (r: String)
        ensures
            r@ == self.describe(),
    {
        match self {
            RangeError::EmptyStart => "range start cannot be empty".to_owned(),
            RangeError::EmptyEnd => "range end cannot be empty".to_owned(),
            RangeError::MixedKinds => "range bounds must both be letters or both be digits".to_owned(),
            RangeError::MixedCase => "mixed uppercase with lowercase in alphabetic range".to_owned(),
            RangeError::BadChar(c, first, last) => {
                let mut v = chars_of("char ");
                push_quoted(*c, &mut v);
                v.append(&mut chars_of(" not in range "));
                v.push('\'');
                v.push(*first);
                v.push('-');
                v.push(*last);
                v.push('\'');
                let ghost d = self.describe();
                assert(v@ =~= d);
                string_of(&v)
            },
            RangeError::TooLarge => "range bound is too large".to_owned(),
        }
    }
}

fn push_quoted(c: char, out: &mut Vec<char>)
    ensures
        final(out)@ == old(out)@ + quoted(c),
{
    out.push('\'');
    out.push(c);
    out.push('\'');
    assert(final(out)@ =~= old(out)@ + quoted(c));
}

impl SyntaxError {
    /// The text that describes the error, with the offending character and
    /// its position.
    pub open spec fn describe(self) -> Seq<char> {
        match self {
            SyntaxError::UnexpectedChar(c, pos) => "unexpected character "@ + quoted(c) + " at pos "@
                + decimal(pos as nat),
            SyntaxError::InvalidRange(e, pos) => "invalid range before pos "@ + decimal(pos as nat)
                + ": "@ + e.describe(),
            SyntaxError::Unterminated(pos) => "unterminated group at pos "@ + decimal(pos as nat),
        }
    }

    pub fn to_string(&self) -> (r: String)
        ensures
            r@ == self.describe(),
    {
        let mut v: Vec<char>;
        match self {
            SyntaxError::UnexpectedChar(c, pos) => {
                v = chars_of("unexpected character ");
                push_quoted(*c, &mut v);
                v.append(&mut chars_of(" at pos "));
                push_decimal(*pos, &mut v);
            },
            SyntaxError::InvalidRange(e, pos) => {
                v = chars_of("invalid range before pos ");
                push_decimal(*pos, &mut v);
                v.append(&mut chars_of(": "));
                let d = e.to_string();
                v.append(&mut chars_of(d.as_str()));
            },
            SyntaxError::Unterminated(pos) => {
                v = chars_of("unterminated group at pos ");
                push_decimal(*pos, &mut v);
            },
        }
        string_of(&v)
    }
}

} // verus!
