//! Segments of a pattern and the values each one denotes.
use vstd::prelude::*;

use crate::error::RangeError;
use crate::text::{
    alpha, alpha_first, alphabetic_chars, chars_of, numeral_rank, padded_decimal, read_numeral,
    string_of, zero_pad, decimal,
};

verus! {

/// What a segment of a pattern is, mathematically.
pub enum Segment {
    /// Literal text: denotes itself.
    Literal(Seq<char>),
    /// A brace group: denotes each alternative, in order.
    Alternatives(Seq<Seq<char>>),
    /// `NumericRange(low, high, width)`: every integer from `low` to `high`,
    /// zero-padded to `width` digits.
    NumericRange(usize, usize, usize),
    /// `AlphabeticRange(low, high, uppercase)`: every rank from `low` to
    /// `high`, written in bijective base 26.
    AlphabeticRange(usize, usize, bool),
}

/// Number of values of an inclusive range; zero when `low > high`.
pub open spec fn range_len(low: usize, high: usize) -> nat {
    if low <= high {
        (high - low + 1) as nat
    } else {
        0
    }
}

/// How many values the segment denotes.
pub open spec fn seg_count(s: Segment) -> nat {
    match s {
        Segment::Literal(_) => 1,
        Segment::Alternatives(v) => v.len(),
        Segment::NumericRange(lo, hi, _) => range_len(lo, hi),
        Segment::AlphabeticRange(lo, hi, _) => range_len(lo, hi),
    }
}

/// The value at index `i` of the segment.
pub open spec fn seg_value(s: Segment, i: int) -> Seq<char> {
    match s {
        Segment::Literal(t) => t,
        Segment::Alternatives(v) => v[i],
        Segment::NumericRange(lo, _, w) => zero_pad(decimal((lo + i) as nat), w as nat),
        Segment::AlphabeticRange(lo, _, up) => alpha((lo + i) as nat, up),
    }
}

/// The ordered values that the segment denotes.
pub open spec fn seg_values(s: Segment) -> Seq<Seq<char>> {
    Seq::new(seg_count(s), |i: int| seg_value(s, i))
}

/// One parsed piece of a pattern.
#[derive(Debug, Clone, PartialEq)]
pub enum Token {
    Plain(String),
    Choice(Vec<String>),
    /// Start, end (both inclusive) and padding width.
    NumRange(usize, usize, usize),
    /// Start and end ranks (both inclusive), and whether upper case.
    StrRange(usize, usize, bool),
}

pub open spec fn string_views(v: Seq<String>) -> Seq<Seq<char>> {
    v.map_values(|x: String| x@)
}

impl View for Token {
    type V = Segment;

    open spec fn view(&self) -> Segment {
        match self {
            Token::Plain(s) => Segment::Literal(s@),
            Token::Choice(v) => Segment::Alternatives(string_views(v@)),
            Token::NumRange(lo, hi, w) => Segment::NumericRange(*lo, *hi, *w),
            Token::StrRange(lo, hi, up) => Segment::AlphabeticRange(*lo, *hi, *up),
        }
    }
}

/// An alphabetic range from its two bounds: both bounds non-empty, their
/// first letters of one case, and each bound a numeral in that case.
pub open spec fn str_range(start: Seq<char>, end: Seq<char>) -> Result<Segment, RangeError> {
    if start.len() == 0 {
        Err(RangeError::EmptyStart)
    } else if end.len() == 0 {
        Err(RangeError::EmptyEnd)
    } else if is_upper(start[0]) != is_upper(end[0]) {
        Err(RangeError::MixedCase)
    } else {
        let up = is_upper(start[0]);
        match numeral_rank(start, alpha_first(up), 26, true) {
            Err(e) => Err(e),
            Ok(lo) => match numeral_rank(end, alpha_first(up), 26, true) {
                Err(e) => Err(e),
                Ok(hi) => Ok(Segment::AlphabeticRange(lo, hi, up)),
            },
        }
    }
}

pub open spec fn is_upper(c: char) -> bool {
    65 <= c as u32 && (c as u32) <= 90
}

pub open spec fn is_lower(c: char) -> bool {
    97 <= c as u32 && (c as u32) <= 122
}

pub open spec fn is_digit(c: char) -> bool {
    48 <= c as u32 && (c as u32) <= 57
}

pub(crate) fn upper(c: char) -> (r: bool)
    ensures
        r == is_upper(c),
{
    65 <= c as u32 && (c as u32) <= 90
}

/// Builds an alphabetic range from bounds given as characters.
pub(crate) fn str_range_of(start: &Vec<char>, end: &Vec<char>) -> (r: Result<Token, RangeError>)
    ensures
        match r {
            Ok(t) => str_range(start@, end@) == Ok::<Segment, RangeError>(t@),
            Err(e) => str_range(start@, end@) == Err::<Segment, RangeError>(e),
        },
{
    if start.len() == 0 {
        return Err(RangeError::EmptyStart);
    }
    if end.len() == 0 {
        return Err(RangeError::EmptyEnd);
    }
    let up = upper(start[0]);
    if up != upper(end[0]) {
        return Err(RangeError::MixedCase);
    }
    let first: u32 = if up { 65 } else { 97 };
    let lo = match read_numeral(start, first, 26, true) {
        Err(e) => return Err(e),
        Ok(lo) => lo,
    };
    let hi = match read_numeral(end, first, 26, true) {
        Err(e) => return Err(e),
        Ok(hi) => hi,
    };
    Ok(Token::StrRange(lo, hi, up))
}

impl Token {
    pub fn new_plain(s: &str) -> (r: Token)
        ensures
            r@ == Segment::Literal(s@),
    {
        Token::Plain(s.to_owned())
    }

    pub fn new_set(items: Vec<&str>) -> (r: Token)
        ensures
            r@ == Segment::Alternatives(items@.map_values(|x: &str| x@)),
    {
        let mut v: Vec<String> = Vec::new();
        let mut k: usize = 0;
        while k < items.len()
            invariant
                k <= items@.len(),
                v@.len() == k,
                forall|j: int| 0 <= j < k ==> #[trigger] v@[j]@ == items@[j]@,
            decreases items@.len() - k,
        {
            let item = items[k].to_owned();
            v.push(item);
            k = k + 1;
        }
        assert(string_views(v@) =~= items@.map_values(|x: &str| x@));
        Token::Choice(v)
    }

    pub fn new_num_range(start: usize, end: usize, padding: usize) -> (r: Token)
        ensures
            r@ == Segment::NumericRange(start, end, padding),
    {
        Token::NumRange(start, end, padding)
    }

    /// An alphabetic range between two bounds such as `"ay"` and `"bc"`.
    pub fn new_str_range(start: &str, end: &str) -> (r: Result<Token, RangeError>)
        ensures
            match r {
                Ok(t) => str_range(start@, end@) == Ok::<Segment, RangeError>(t@),
                Err(e) => str_range(start@, end@) == Err::<Segment, RangeError>(e),
            },
    {
        let s = chars_of(start);
        let e = chars_of(end);
        str_range_of(&s, &e)
    }

    /// Whether the token denotes no value at all.
    pub(crate) fn is_empty(&self) -> (r: bool)
        ensures
            r == (seg_count(self@) == 0),
    {
        match self {
            Token::Plain(_) => false,
            Token::Choice(v) => v.len() == 0,
            Token::NumRange(lo, hi, _) => *lo > *hi,
            Token::StrRange(lo, hi, _) => *lo > *hi,
        }
    }

    /// Whether `i` is the index of the token's last value.
    pub(crate) fn is_last(&self, i: usize) -> (r: bool)
        requires
            i < seg_count(self@),
        ensures
            r == (i + 1 == seg_count(self@)),
            seg_count(self@) <= usize::MAX + 1,
    {
        match self {
            Token::Plain(_) => true,
            Token::Choice(v) => {
                let n = v.len();
                i == n - 1
            },
            Token::NumRange(lo, hi, _) => i == *hi - *lo,
            Token::StrRange(lo, hi, _) => i == *hi - *lo,
        }
    }

    /// The characters of the value at index `i`.
    pub(crate) fn value_at(&self, i: usize) -> (r: Vec<char>)
        requires
            i < seg_count(self@),
        ensures
            r@ == seg_value(self@, i as int),
    {
        match self {
            Token::Plain(s) => chars_of(s.as_str()),
            Token::Choice(v) => chars_of(v[i].as_str()),
            Token::NumRange(lo, _, w) => padded_decimal(*lo + i, *w),
            Token::StrRange(lo, _, up) => alphabetic_chars(*lo + i, *up),
        }
    }

    pub fn iter(&self) -> (r: TokenIter<'_>)
        ensures
            r.wf(),
            r.segment() == self@,
            r.position() == 0,
    {
        TokenIter::new(self)
    }
}

/// Walks the values of one token, in order.
pub struct TokenIter<'a> {
    token: &'a Token,
    next: usize,
    done: bool,
}

impl<'a> TokenIter<'a> {
    pub closed spec fn segment(&self) -> Segment {
        self.token@
    }

    /// How many values have been handed out so far.
    pub closed spec fn position(&self) -> nat {
        if self.done {
            seg_count(self.token@)
        } else {
            self.next as nat
        }
    }

    pub closed spec fn wf(&self) -> bool {
        !self.done ==> self.next < seg_count(self.token@)
    }

    pub fn new(t: &'a Token) -> (r: TokenIter<'a>)
        ensures
            r.wf(),
            r.segment() == t@,
            r.position() == 0,
    {
        TokenIter { token: t, next: 0, done: t.is_empty() }
    }

    /// The next value of the token, or `None` once all have been handed out.
    pub fn next(&mut self) -> (r: Option<String>)
        requires
            old(self).wf(),
        ensures
            final(self).wf(),
            final(self).segment() == old(self).segment(),
            old(self).position() < seg_count(old(self).segment()) ==> {
                &&& r matches Some(v) && v@ == seg_value(
                    old(self).segment(),
                    old(self).position() as int,
                )
                &&& final(self).position() == old(self).position() + 1
            },
            old(self).position() >= seg_count(old(self).segment()) ==> {
                &&& r is None
                &&& final(self).position() == old(self).position()
            },
    {
        if self.done {
            return None;
        }
        let v = self.token.value_at(self.next);
        if self.token.is_last(self.next) {
            self.done = true;
        } else {
            self.next = self.next + 1;
        }
        Some(string_of(&v))
    }
}

} // verus!
