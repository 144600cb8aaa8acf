//! Reading a pattern into segments, and enumerating its expansions.
use vstd::prelude::*;
use vstd::utf8::encode_utf8;
use vstd::arithmetic::div_mod::lemma_fundamental_div_mod_converse;

use crate::error::{RangeError, SyntaxError};
use crate::expand::{lemma_push_segment, product, Expansion};
use crate::text::{
    byte_offset, char_indices_of, numeral_rank, read_numeral, string_of, trim, trimmed,
};
use crate::token::{seg_count, is_digit, is_lower, is_upper, str_range, str_range_of, Segment, Token};

verus! {

/// Where the scan of a pattern stands.
pub enum Mode {
    /// Outside any group.
    Plain,
    /// Inside `{`, with the alternatives read so far.
    InAlternatives(Seq<Seq<char>>),
    /// Inside `[`, before the `-`.
    RangeStart,
    /// Inside `[`, after the `-`, with the start bound.
    RangeEnd(Seq<char>),
}

/// The state of the scan: its mode, the segments emitted and the pending text.
pub struct Scan {
    pub mode: Mode,
    pub segs: Seq<Segment>,
    pub buf: Seq<char>,
}

pub open spec fn is_alpha(c: char) -> bool {
    is_upper(c) || is_lower(c)
}

/// `segs` with the pending text added as a literal, unless it is empty.
pub open spec fn flush(segs: Seq<Segment>, buf: Seq<char>) -> Seq<Segment> {
    if buf.len() > 0 {
        segs.push(Segment::Literal(buf))
    } else {
        segs
    }
}

/// A numeric range from its two bounds, padded to the narrower bound.
pub open spec fn num_range(start: Seq<char>, end: Seq<char>) -> Result<Segment, RangeError> {
    match numeral_rank(start, 48, 10, false) {
        Err(e) => Err(e),
        Ok(lo) => match numeral_rank(end, 48, 10, false) {
            Err(e) => Err(e),
            Ok(hi) => Ok(
                Segment::NumericRange(
                    lo,
                    hi,
                    if start.len() <= end.len() {
                        start.len() as usize
                    } else {
                        end.len() as usize
                    },
                ),
            ),
        },
    }
}

/// The segment that the bounds of a bracketed range make.
pub open spec fn classify(start: Seq<char>, end: Seq<char>) -> Result<Segment, RangeError> {
    if start.len() == 0 {
        Err(RangeError::EmptyStart)
    } else if end.len() == 0 {
        Err(RangeError::EmptyEnd)
    } else if is_alpha(start[0]) && is_alpha(end[0]) {
        str_range(start, end)
    } else if is_digit(start[0]) && is_digit(end[0]) {
        num_range(start, end)
    } else {
        Err(RangeError::MixedKinds)
    }
}

pub open spec fn scan_of(mode: Mode, segs: Seq<Segment>, buf: Seq<char>) -> Scan {
    Scan { mode, segs, buf }
}

/// One step of the scan, on the character `c` at byte offset `pos`.
pub open spec fn step(st: Scan, c: char, pos: usize) -> Result<Scan, SyntaxError> {
    let unexpected = Err(SyntaxError::UnexpectedChar(c, pos));
    match st.mode {
        Mode::Plain => {
            if c == '{' {
                Ok(scan_of(Mode::InAlternatives(seq![]), flush(st.segs, st.buf), seq![]))
            } else if c == '[' {
                Ok(scan_of(Mode::RangeStart, flush(st.segs, st.buf), seq![]))
            } else if c == '}' || c == ']' {
                unexpected
            } else {
                Ok(scan_of(st.mode, st.segs, st.buf.push(c)))
            }
        },
        Mode::InAlternatives(alts) => {
            if c == '}' {
                Ok(
                    scan_of(
                        Mode::Plain,
                        st.segs.push(Segment::Alternatives(alts.push(trim(st.buf)))),
                        seq![],
                    ),
                )
            } else if c == ',' {
                Ok(scan_of(Mode::InAlternatives(alts.push(trim(st.buf))), st.segs, seq![]))
            } else if c == '{' || c == '[' || c == ']' {
                unexpected
            } else {
                Ok(scan_of(st.mode, st.segs, st.buf.push(c)))
            }
        },
        Mode::RangeStart => {
            if c == '-' {
                Ok(scan_of(Mode::RangeEnd(trim(st.buf)), st.segs, seq![]))
            } else if c == ']' {
                Err(SyntaxError::InvalidRange(RangeError::EmptyStart, pos))
            } else if c == '{' || c == '[' || c == '}' || c == ',' {
                unexpected
            } else {
                Ok(scan_of(st.mode, st.segs, st.buf.push(c)))
            }
        },
        Mode::RangeEnd(start) => {
            if c == ']' {
                match classify(start, trim(st.buf)) {
                    Ok(seg) => Ok(scan_of(Mode::Plain, st.segs.push(seg), seq![])),
                    Err(e) => Err(SyntaxError::InvalidRange(e, pos)),
                }
            } else if c == '{' || c == '[' || c == '}' || c == ',' {
                unexpected
            } else {
                Ok(scan_of(st.mode, st.segs, st.buf.push(c)))
            }
        },
    }
}

/// The scan after the first `n` characters of `s`.
pub open spec fn scan(s: Seq<char>, n: nat) -> Result<Scan, SyntaxError>
    decreases n,
{
    if n == 0 {
        Ok(scan_of(Mode::Plain, seq![], seq![]))
    } else {
        match scan(s, (n - 1) as nat) {
            Err(e) => Err(e),
            Ok(st) => step(st, s[n - 1], byte_offset(s, n - 1) as usize),
        }
    }
}

/// The segments of the pattern `s`, or the first error in it.
pub open spec fn parse_segments(s: Seq<char>) -> Result<Seq<Segment>, SyntaxError> {
    match scan(s, s.len()) {
        Err(e) => Err(e),
        Ok(st) => match st.mode {
            Mode::Plain => Ok(flush(st.segs, st.buf)),
            _ => Err(SyntaxError::Unterminated(encode_utf8(s).len() as usize)),
        },
    }
}

proof fn lemma_scan_err_stays(s: Seq<char>, i: nat, j: nat)
    requires
        i <= j,
        scan(s, i) is Err,
    ensures
        scan(s, j) == scan(s, i),
    decreases j,
{
    if j > i {
        lemma_scan_err_stays(s, i, (j - 1) as nat);
    }
}

pub open spec fn token_views(v: Seq<Token>) -> Seq<Segment> {
    v.map_values(|t: Token| t@)
}

/// How the scan stands, in executable form.
enum ScanMode {
    Plain,
    InAlternatives(Vec<String>),
    RangeStart,
    RangeEnd(Vec<char>),
}

spec fn mode_view(m: ScanMode) -> Mode {
    match m {
        ScanMode::Plain => Mode::Plain,
        ScanMode::InAlternatives(v) => Mode::InAlternatives(v@.map_values(|x: String| x@)),
        ScanMode::RangeStart => Mode::RangeStart,
        ScanMode::RangeEnd(v) => Mode::RangeEnd(v@),
    }
}

fn flush_into(tokens: &mut Vec<Token>, buf: &Vec<char>)
    ensures
        token_views(final(tokens)@) == flush(token_views(old(tokens)@), buf@),
{
    if buf.len() > 0 {
        tokens.push(Token::Plain(string_of(buf)));
    }
    assert(token_views(final(tokens)@) =~= flush(token_views(old(tokens)@), buf@));
}

fn push_string(v: &mut Vec<String>, x: String)
    ensures
        final(v)@.map_values(|y: String| y@) == old(v)@.map_values(|y: String| y@).push(x@),
{
    v.push(x);
    assert(final(v)@.map_values(|y: String| y@) =~= old(v)@.map_values(|y: String| y@).push(x@));
}

fn num_range_of(start: &Vec<char>, end: &Vec<char>) -> (r: Result<Token, RangeError>)
    ensures
        match r {
            Ok(t) => num_range(start@, end@) == Ok::<Segment, RangeError>(t@),
            Err(e) => num_range(start@, end@) == Err::<Segment, RangeError>(e),
        },
{
    let lo = match read_numeral(start, 48, 10, false) {
        Err(e) => return Err(e),
        Ok(lo) => lo,
    };
    let hi = match read_numeral(end, 48, 10, false) {
        Err(e) => return Err(e),
        Ok(hi) => hi,
    };
    let width = if start.len() <= end.len() {
        start.len()
    } else {
        end.len()
    };
    Ok(Token::NumRange(lo, hi, width))
}

fn alpha_char(c: char) -> (r: bool)
    ensures
        r == is_alpha(c),
{
    let u = c as u32;
    (65 <= u && u <= 90) || (97 <= u && u <= 122)
}

fn digit_char(c: char) -> (r: bool)
    ensures
        r == is_digit(c),
{
    let u = c as u32;
    48 <= u && u <= 57
}

fn classify_bounds(start: &Vec<char>, end: &Vec<char>) -> (r: Result<Token, RangeError>)
    ensures
        match r {
            Ok(t) => classify(start@, end@) == Ok::<Segment, RangeError>(t@),
            Err(e) => classify(start@, end@) == Err::<Segment, RangeError>(e),
        },
{
    if start.len() == 0 {
        Err(RangeError::EmptyStart)
    } else if end.len() == 0 {
        Err(RangeError::EmptyEnd)
    } else if alpha_char(start[0]) && alpha_char(end[0]) {
        str_range_of(start, end)
    } else if digit_char(start[0]) && digit_char(end[0]) {
        num_range_of(start, end)
    } else {
        Err(RangeError::MixedKinds)
    }
}

/// A pattern read into its segments.
#[derive(Debug, Clone)]
pub struct Pattern {
    raw: String,
    tokens: Vec<Token>,
}

impl Pattern {
    /// The pattern's text, as given.
    pub closed spec fn text(&self) -> Seq<char> {
        self.raw@
    }

    /// The pattern's segments, in order.
    pub closed spec fn segments(&self) -> Seq<Segment> {
        token_views(self.tokens@)
    }

    /// Reads `s` into its segments, in one left-to-right scan.
    pub fn parse(s: &str) -> (r: Result<Pattern, SyntaxError>)
        ensures
            match r {
                Ok(p) => p.text() == s@ && parse_segments(s@) == Ok::<
                    Seq<Segment>,
                    SyntaxError,
                >(p.segments()),
                Err(e) => parse_segments(s@) == Err::<Seq<Segment>, SyntaxError>(e),
            },
    {
        let chars = char_indices_of(s);
        let n = chars.len();
        let mut mode = ScanMode::Plain;
        let mut tokens: Vec<Token> = Vec::new();
        let mut buf: Vec<char> = Vec::new();
        let mut k: usize = 0;
        assert(token_views(tokens@) =~= seq![]);
        assert(buf@ =~= seq![]);
        while k < n
            invariant
                n == chars@.len() == s@.len(),
                k <= n,
                forall|i: int|
                    0 <= i < n ==> (#[trigger] chars@[i]).1 == s@[i] && chars@[i].0 as nat
                        == byte_offset(s@, i),
                scan(s@, k as nat) == Ok::<Scan, SyntaxError>(
                    scan_of(mode_view(mode), token_views(tokens@), buf@),
                ),
            decreases n - k,
        {
            let (pos, c) = chars[k];
            assert(c == s@[k as int] && pos as nat == byte_offset(s@, k as int));
            let ghost st = scan_of(mode_view(mode), token_views(tokens@), buf@);
            assert(scan(s@, (k + 1) as nat) == step(st, c, pos));
            let err = SyntaxError::UnexpectedChar(c, pos);
            mode = match mode {
                ScanMode::Plain => {
                    if c == '{' {
                        flush_into(&mut tokens, &buf);
                        buf = Vec::new();
                        assert(buf@ =~= seq![]);
                        let fresh: Vec<String> = Vec::new();
                        assert(fresh@.map_values(|x: String| x@) =~= seq![]);
                        ScanMode::InAlternatives(fresh)
                    } else if c == '[' {
                        flush_into(&mut tokens, &buf);
                        buf = Vec::new();
                        assert(buf@ =~= seq![]);
                        ScanMode::RangeStart
                    } else if c == '}' || c == ']' {
                        proof {
                            lemma_scan_err_stays(s@, (k + 1) as nat, n as nat);
                        }
                        return Err(err);
                    } else {
                        buf.push(c);
                        ScanMode::Plain
                    }
                },
                ScanMode::InAlternatives(mut alts) => {
                    if c == '}' {
                        let t = trimmed(&buf);
                        push_string(&mut alts, string_of(&t));
                        let tok = Token::Choice(alts);
                        tokens.push(tok);
                        assert(token_views(tokens@) =~= st.segs.push(tok@));
                        buf = Vec::new();
                        assert(buf@ =~= seq![]);
                        ScanMode::Plain
                    } else if c == ',' {
                        let t = trimmed(&buf);
                        push_string(&mut alts, string_of(&t));
                        buf = Vec::new();
                        assert(buf@ =~= seq![]);
                        ScanMode::InAlternatives(alts)
                    } else if c == '{' || c == '[' || c == ']' {
                        proof {
                            lemma_scan_err_stays(s@, (k + 1) as nat, n as nat);
                        }
                        return Err(err);
                    } else {
                        buf.push(c);
                        ScanMode::InAlternatives(alts)
                    }
                },
                ScanMode::RangeStart => {
                    if c == '-' {
                        let t = trimmed(&buf);
                        buf = Vec::new();
                        assert(buf@ =~= seq![]);
                        ScanMode::RangeEnd(t)
                    } else if c == ']' {
                        proof {
                            lemma_scan_err_stays(s@, (k + 1) as nat, n as nat);
                        }
                        return Err(SyntaxError::InvalidRange(RangeError::EmptyStart, pos));
                    } else if c == '{' || c == '[' || c == '}' || c == ',' {
                        proof {
                            lemma_scan_err_stays(s@, (k + 1) as nat, n as nat);
                        }
                        return Err(err);
                    } else {
                        buf.push(c);
                        ScanMode::RangeStart
                    }
                },
                ScanMode::RangeEnd(start) => {
                    if c == ']' {
                        let t = trimmed(&buf);
                        match classify_bounds(&start, &t) {
                            Ok(tok) => {
                                tokens.push(tok);
                                assert(token_views(tokens@) =~= st.segs.push(tok@));
                            },
                            Err(e) => {
                                proof {
                                    lemma_scan_err_stays(s@, (k + 1) as nat, n as nat);
                                }
                                return Err(SyntaxError::InvalidRange(e, pos));
                            },
                        }
                        buf = Vec::new();
                        assert(buf@ =~= seq![]);
                        ScanMode::Plain
                    } else if c == '{' || c == '[' || c == '}' || c == ',' {
                        proof {
                            lemma_scan_err_stays(s@, (k + 1) as nat, n as nat);
                        }
                        return Err(err);
                    } else {
                        buf.push(c);
                        ScanMode::RangeEnd(start)
                    }
                },
            };
            k = k + 1;
            assert(scan(s@, k as nat) == Ok::<Scan, SyntaxError>(
                scan_of(mode_view(mode), token_views(tokens@), buf@),
            ));
        }
        match mode {
            ScanMode::Plain => {
                flush_into(&mut tokens, &buf);
                Ok(Pattern { raw: s.to_owned(), tokens })
            },
            _ => Err(SyntaxError::Unterminated(s.len())),
        }
    }

    /// The pattern's text, as given.
    pub fn as_str(&self) -> (r: &str)
        ensures
            r@ == self.text(),
    {
        self.raw.as_str()
    }

    /// Every string that the pattern denotes, in order.
    pub open spec fn expansion(&self) -> Seq<Seq<char>> {
        product(self.segments())
    }

    /// Starts a walk over the pattern's expansions. Each call starts afresh.
    pub fn iter(&self) -> (r: Expansion<'_>)
        ensures
            r.wf(),
            r.segments() == self.segments(),
            r.position() == 0,
            r.remaining() == self.expansion(),
    {
        let r = Expansion::new(&self.tokens);
        assert(r.remaining() =~= self.expansion());
        r
    }

    /// The pattern's tokens, in order.
    pub fn tokens(&self) -> (r: &[Token])
        ensures
            token_views(r@) == self.segments(),
    {
        self.tokens.as_slice()
    }
}

/// Each walk started on a pattern has the pattern's whole expansion ahead
/// of it: walking the pattern again repeats the same sequence in full.
pub proof fn lemma_restartable(p: Pattern, x: Expansion, y: Expansion)
    requires
        x.segments() == p.segments(),
        y.segments() == p.segments(),
        x.position() == 0,
        y.position() == 0,
    ensures
        x.remaining() == p.expansion(),
        y.remaining() == x.remaining(),
{
    assert(x.remaining() =~= p.expansion());
}

proof fn lemma_scan_plain(s: Seq<char>, n: nat)
    requires
        n <= s.len(),
        forall|i: int|
            0 <= i < s.len() ==> #[trigger] s[i] != '{' && s[i] != '[' && s[i] != ']' && s[i]
                != '}',
    ensures
        scan(s, n) == Ok::<Scan, SyntaxError>(scan_of(Mode::Plain, seq![], s.subrange(0, n as int))),
    decreases n,
{
    if n > 0 {
        lemma_scan_plain(s, (n - 1) as nat);
        assert(s.subrange(0, n - 1).push(s[n - 1]) =~= s.subrange(0, n as int));
    } else {
        assert(s.subrange(0, 0) =~= seq![]);
    }
}

/// Text without braces or brackets is a single literal, and denotes
/// exactly itself.
pub proof fn lemma_plain_text(s: Seq<char>)
    requires
        forall|i: int|
            0 <= i < s.len() ==> #[trigger] s[i] != '{' && s[i] != '[' && s[i] != ']' && s[i]
                != '}',
    ensures
        parse_segments(s) matches Ok(segs) && product(segs) == seq![s],
{
    lemma_scan_plain(s, s.len());
    assert(s.subrange(0, s.len() as int) =~= s);
    let segs = flush(seq![], s);
    if s.len() == 0 {
        assert(s =~= seq![]);
    } else {
        let p = product(segs);
        assert(segs.len() == 1 && segs[0] == Segment::Literal(s));
        let unit = crate::expand::product_of(segs, 0);
        assert(unit.len() == 1);
        assert(p.len() == 1);
        assert(p[0] =~= s);
        assert(p =~= seq![s]);
    }
}

/// `x` cut at each comma, commas dropped; `k` commas give `k + 1` pieces.
pub open spec fn split_commas(x: Seq<char>) -> Seq<Seq<char>>
    decreases x.len(),
{
    if x.len() == 0 {
        seq![seq![]]
    } else {
        let p = split_commas(x.drop_last());
        if x.last() == ',' {
            p.push(seq![])
        } else {
            p.update(p.len() - 1, p.last().push(x.last()))
        }
    }
}

pub open spec fn trim_all(v: Seq<Seq<char>>) -> Seq<Seq<char>> {
    v.map_values(|p: Seq<char>| trim(p))
}

proof fn lemma_split_nonempty(x: Seq<char>)
    ensures
        split_commas(x).len() >= 1,
    decreases x.len(),
{
    if x.len() > 0 {
        lemma_split_nonempty(x.drop_last());
    }
}

proof fn lemma_scan_group(x: Seq<char>, k: nat)
    requires
        k <= x.len(),
        forall|i: int|
            0 <= i < x.len() ==> #[trigger] x[i] != '{' && x[i] != '[' && x[i] != ']' && x[i]
                != '}',
    ensures
        ({
            let s = seq!['{'] + x + seq!['}'];
            let p = split_commas(x.subrange(0, k as int));
            scan(s, k + 1) == Ok::<Scan, SyntaxError>(
                scan_of(Mode::InAlternatives(trim_all(p.drop_last())), seq![], p.last()),
            )
        }),
    decreases k,
{
    let s = seq!['{'] + x + seq!['}'];
    let p = split_commas(x.subrange(0, k as int));
    lemma_split_nonempty(x.subrange(0, k as int));
    if k == 0 {
        assert(x.subrange(0, 0) =~= seq![]);
        assert(s[0] == '{');
        assert(p.drop_last() =~= seq![]);
        assert(trim_all(p.drop_last()) =~= seq![]);
        assert(scan(s, 0) == Ok::<Scan, SyntaxError>(scan_of(Mode::Plain, seq![], seq![])));
        assert(flush(seq![], seq![]) == Seq::<Segment>::empty());
    } else {
        let m = (k - 1) as nat;
        lemma_scan_group(x, m);
        let q = split_commas(x.subrange(0, m as int));
        lemma_split_nonempty(x.subrange(0, m as int));
        let c = x[m as int];
        assert(s[k as int] == c);
        assert(x.subrange(0, k as int).drop_last() =~= x.subrange(0, m as int));
        assert(x.subrange(0, k as int).last() == c);
        if c == ',' {
            assert(p == q.push(seq![]));
            assert(p.drop_last() =~= q);
            assert(trim_all(q) =~= trim_all(q.drop_last()).push(trim(q.last())));
        } else {
            assert(p.drop_last() =~= q.drop_last());
            assert(p.last() == q.last().push(c));
        }
    }
}

/// A single brace group denotes each of its comma-separated alternatives
/// exactly once, without surrounding white space, in the order written.
pub proof fn lemma_single_group(x: Seq<char>)
    requires
        forall|i: int|
            0 <= i < x.len() ==> #[trigger] x[i] != '{' && x[i] != '[' && x[i] != ']' && x[i]
                != '}',
    ensures
        parse_segments(seq!['{'] + x + seq!['}']) == Ok::<Seq<Segment>, SyntaxError>(
            seq![Segment::Alternatives(trim_all(split_commas(x)))],
        ),
        product(seq![Segment::Alternatives(trim_all(split_commas(x)))]) == trim_all(
            split_commas(x),
        ),
{
    let s = seq!['{'] + x + seq!['}'];
    let n = x.len();
    lemma_scan_group(x, n);
    assert(x.subrange(0, n as int) =~= x);
    let p = split_commas(x);
    lemma_split_nonempty(x);
    assert(s.len() == n + 2);
    assert(s[n as int + 1] == '}');
    let alts = trim_all(p);
    assert(trim_all(p.drop_last()).push(trim(p.last())) =~= alts);
    let segs = seq![Segment::Alternatives(alts)];
    assert(flush(segs, seq![]) == segs);
    assert(seq![Segment::Alternatives(alts)] =~= Seq::<Segment>::empty().push(
        Segment::Alternatives(alts),
    ));
    let unit = crate::expand::product_of(segs, 0);
    assert(unit.len() == 1);
    let c = alts.len() as int;
    assert(segs.len() == 1 && segs[0] == Segment::Alternatives(alts));
    let single = crate::expand::product_of(segs, 1);
    assert(product(segs) == single);
    assert(seg_count(segs[0]) == c);
    assert(single.len() == unit.len() * seg_count(segs[0]));
    assert(product(segs).len() == c);
    assert forall|k: int| 0 <= k < c implies #[trigger] product(segs)[k] == alts[k] by {
        lemma_fundamental_div_mod_converse(k, c, 0, k);
        assert(unit[0] + alts[k] =~= alts[k]);
    }
    assert(product(segs) =~= alts);
}

/// No brace or bracket among `s[i..j]`.
pub open spec fn plain_between(s: Seq<char>, i: int, j: int) -> bool {
    forall|k: int|
        i <= k < j ==> #[trigger] s[k] != '{' && s[k] != '[' && s[k] != ']' && s[k] != '}'
}

proof fn lemma_scan_run(s: Seq<char>, i: nat, j: nat, segs: Seq<Segment>, buf: Seq<char>)
    requires
        i <= j <= s.len(),
        plain_between(s, i as int, j as int),
        scan(s, i) == Ok::<Scan, SyntaxError>(scan_of(Mode::Plain, segs, buf)),
    ensures
        scan(s, j) == Ok::<Scan, SyntaxError>(
            scan_of(Mode::Plain, segs, buf + s.subrange(i as int, j as int)),
        ),
    decreases j,
{
    if j > i {
        lemma_scan_run(s, i, (j - 1) as nat, segs, buf);
        assert(buf + s.subrange(i as int, j - 1).push(s[j - 1]) =~= buf + s.subrange(
            i as int,
            j as int,
        ));
    } else {
        assert(buf + s.subrange(i as int, i as int) =~= buf);
    }
}

proof fn lemma_scan_open_group(
    s: Seq<char>,
    i: nat,
    k: nat,
    segs: Seq<Segment>,
    buf: Seq<char>,
)
    requires
        i as int + 1 + k <= s.len(),
        s[i as int] == '{',
        plain_between(s, i as int + 1, i as int + 1 + k),
        scan(s, i) == Ok::<Scan, SyntaxError>(scan_of(Mode::Plain, segs, buf)),
    ensures
        ({
            let p = split_commas(s.subrange(i as int + 1, i as int + 1 + k));
            scan(s, (i + 1 + k) as nat) == Ok::<Scan, SyntaxError>(
                scan_of(Mode::InAlternatives(trim_all(p.drop_last())), flush(segs, buf), p.last()),
            )
        }),
    decreases k,
{
    let x = s.subrange(i as int + 1, i as int + 1 + k);
    let p = split_commas(x);
    lemma_split_nonempty(x);
    if k == 0 {
        assert(x =~= seq![]);
        assert(p.drop_last() =~= seq![]);
        assert(trim_all(p.drop_last()) =~= seq![]);
    } else {
        let m = (k - 1) as nat;
        lemma_scan_open_group(s, i, m, segs, buf);
        let y = s.subrange(i as int + 1, i as int + 1 + m);
        let q = split_commas(y);
        lemma_split_nonempty(y);
        let c = s[i as int + m + 1];
        assert(x.drop_last() =~= y);
        assert(x.last() == c);
        if c == ',' {
            assert(p == q.push(seq![]));
            assert(p.drop_last() =~= q);
            assert(trim_all(q) =~= trim_all(q.drop_last()).push(trim(q.last())));
        } else {
            assert(p.drop_last() =~= q.drop_last());
            assert(p.last() == q.last().push(c));
        }
    }
}

proof fn lemma_scan_group_at(s: Seq<char>, i: nat, e: nat, segs: Seq<Segment>, buf: Seq<char>)
    requires
        i < e < s.len(),
        s[i as int] == '{',
        s[e as int] == '}',
        plain_between(s, i as int + 1, e as int),
        scan(s, i) == Ok::<Scan, SyntaxError>(scan_of(Mode::Plain, segs, buf)),
    ensures
        scan(s, e + 1) == Ok::<Scan, SyntaxError>(
            scan_of(
                Mode::Plain,
                flush(segs, buf).push(
                    Segment::Alternatives(trim_all(split_commas(s.subrange(i as int + 1, e as int)))),
                ),
                seq![],
            ),
        ),
{
    let k = (e - i - 1) as nat;
    lemma_scan_open_group(s, i, k, segs, buf);
    let p = split_commas(s.subrange(i as int + 1, e as int));
    lemma_split_nonempty(s.subrange(i as int + 1, e as int));
    assert(trim_all(p.drop_last()).push(trim(p.last())) =~= trim_all(p));
}

/// Two brace groups between literal text denote every pair of their
/// alternatives, each trimmed and set in the text, the first group varying
/// slowest.
pub proof fn lemma_two_groups(
    l0: Seq<char>,
    xa: Seq<char>,
    l1: Seq<char>,
    xb: Seq<char>,
    l2: Seq<char>,
    i: int,
    j: int,
)
    requires
        plain_between(l0, 0, l0.len() as int),
        plain_between(xa, 0, xa.len() as int),
        plain_between(l1, 0, l1.len() as int),
        plain_between(xb, 0, xb.len() as int),
        plain_between(l2, 0, l2.len() as int),
        0 <= i < split_commas(xa).len(),
        0 <= j < split_commas(xb).len(),
    ensures
        ({
            let a = trim_all(split_commas(xa));
            let b = trim_all(split_commas(xb));
            let s = l0 + seq!['{'] + xa + seq!['}'] + l1 + seq!['{'] + xb + seq!['}'] + l2;
            parse_segments(s) matches Ok(segs) && product(segs).len() == a.len() * b.len()
                && i * b.len() + j < a.len() * b.len() && product(segs)[i * b.len() + j] == l0
                + a[i] + l1 + b[j] + l2
        }),
{
    let a = trim_all(split_commas(xa));
    let b = trim_all(split_commas(xb));
    let s = l0 + seq!['{'] + xa + seq!['}'] + l1 + seq!['{'] + xb + seq!['}'] + l2;
    let o1 = l0.len() as int;
    let e1 = o1 + 1 + xa.len();
    let o2 = e1 + 1 + l1.len();
    let e2 = o2 + 1 + xb.len();
    let n = s.len() as int;
    assert(n == e2 + 1 + l2.len());
    assert(s.subrange(0, o1) =~= l0);
    assert(s.subrange(o1 + 1, e1) =~= xa);
    assert(s.subrange(e1 + 1, o2) =~= l1);
    assert(s.subrange(o2 + 1, e2) =~= xb);
    assert(s.subrange(e2 + 1, n) =~= l2);
    assert(s[o1] == '{' && s[e1] == '}' && s[o2] == '{' && s[e2] == '}');
    assert(plain_between(s, 0, o1)) by {
        assert forall|k: int| 0 <= k < o1 implies s[k] == l0[k] by {}
    }
    assert(plain_between(s, o1 + 1, e1)) by {
        assert forall|k: int| o1 + 1 <= k < e1 implies s[k] == xa[k - o1 - 1] by {}
    }
    assert(plain_between(s, e1 + 1, o2)) by {
        assert forall|k: int| e1 + 1 <= k < o2 implies s[k] == l1[k - e1 - 1] by {}
    }
    assert(plain_between(s, o2 + 1, e2)) by {
        assert forall|k: int| o2 + 1 <= k < e2 implies s[k] == xb[k - o2 - 1] by {}
    }
    assert(plain_between(s, e2 + 1, n)) by {
        assert forall|k: int| e2 + 1 <= k < n implies s[k] == l2[k - e2 - 1] by {}
    }
    let empty = Seq::<Segment>::empty();
    assert(scan(s, 0) == Ok::<Scan, SyntaxError>(scan_of(Mode::Plain, empty, seq![])));
    lemma_scan_run(s, 0, o1 as nat, empty, seq![]);
    assert(Seq::<char>::empty() + l0 =~= l0);
    let s1 = flush(empty, l0);
    lemma_scan_group_at(s, o1 as nat, e1 as nat, empty, l0);
    let s2 = s1.push(Segment::Alternatives(a));
    lemma_scan_run(s, (e1 + 1) as nat, o2 as nat, s2, seq![]);
    assert(Seq::<char>::empty() + l1 =~= l1);
    let s3 = flush(s2, l1);
    lemma_scan_group_at(s, o2 as nat, e2 as nat, s2, l1);
    let s4 = s3.push(Segment::Alternatives(b));
    lemma_scan_run(s, (e2 + 1) as nat, n as nat, s4, seq![]);
    assert(Seq::<char>::empty() + l2 =~= l2);
    let s5 = flush(s4, l2);
    assert(parse_segments(s) == Ok::<Seq<Segment>, SyntaxError>(s5));
    // The expansions, segment by segment.
    let unit = crate::expand::product_of(s1, 0);
    assert(unit.len() == 1);
    assert(product(s1).len() == 1 && product(s1)[0] =~= l0) by {
        if l0.len() > 0 {
            lemma_push_segment(empty, Segment::Literal(l0), 0, 0);
            assert(empty.push(Segment::Literal(l0)) == s1);
            assert(product(empty) == unit);
        } else {
            assert(s1 == empty);
        }
    }
    lemma_push_segment(s1, Segment::Alternatives(a), 0, i);
    assert(product(s2)[i] == l0 + a[i]);
    assert(product(s3).len() == a.len() && product(s3)[i] =~= l0 + a[i] + l1) by {
        if l1.len() > 0 {
            lemma_push_segment(s2, Segment::Literal(l1), i, 0);
        } else {
            assert(s3 == s2);
        }
    }
    lemma_push_segment(s3, Segment::Alternatives(b), i, j);
    assert(product(s4)[i * b.len() + j] == l0 + a[i] + l1 + b[j]);
    let k = i * b.len() + j;
    assert(product(s5).len() == a.len() * b.len() && product(s5)[k] =~= l0 + a[i] + l1 + b[j]
        + l2) by {
        if l2.len() > 0 {
            lemma_push_segment(s4, Segment::Literal(l2), k, 0);
        } else {
            assert(s5 == s4);
        }
    }
}

} // verus!
