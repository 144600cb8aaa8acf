//! Character-level building blocks: whitespace trimming, decimal and
//! bijective base-26 numerals, and conversions between `String` and `Vec<char>`.
use vstd::prelude::*;
use vstd::std_specs::iter::IteratorSpec;
use vstd::utf8::encode_utf8;

use crate::error::RangeError;

verus! {

/// The characters of `s`, in order.
pub(crate) fn chars_of(s: &str) -> (r: Vec<char>)
    ensures
        r@ == s@,
{
    broadcast use vstd::string::group_string_axioms;

    let mut it = s.chars();
    let mut r: Vec<char> = Vec::new();
    loop
        invariant
            it.obeys_prophetic_iter_laws(),
            r@ + it.remaining() == s@,
        decreases s@.len() - r@.len(),
    {
        match it.next() {
            Some(c) => {
                r.push(c);
                assert(r@ + it.remaining() =~= s@);
            },
            None => {
                assert(r@ =~= s@);
                return r;
            },
        }
    }
}

/// Relies on `String`'s `FromIterator<&char>`: the string made of the characters
/// of `v`, in order.
#[verifier::external_body]
pub(crate) fn string_of(v: &Vec<char>) -> (r: String)
    ensures
        r@ == v@,
{
    v.iter().collect()
}

/// Byte offset of the character at index `i` of `s` in its UTF-8 encoding.
pub open spec fn byte_offset(s: Seq<char>, i: int) -> nat {
    encode_utf8(s.subrange(0, i)).len()
}

/// Relies on `str::char_indices`: each character of `s` with the byte
/// offset at which it starts.
#[verifier::external_body]
pub(crate) fn char_indices_of(s: &str) -> (r: Vec<(usize, char)>)
    ensures
        r@.len() == s@.len(),
        forall|k: int|
            0 <= k < r@.len() ==> (#[trigger] r@[k]).1 == s@[k] && r@[k].0 as nat == byte_offset(
                s@,
                k,
            ),
{
    s.char_indices().collect()
}

/// Unicode `White_Space` characters, as `char::is_whitespace` reports them.
pub open spec fn is_space(c: char) -> bool {
    let u = c as u32;
    (0x9 <= u && u <= 0xd) || u == 0x20 || u == 0x85 || u == 0xa0 || u == 0x1680 || (0x2000 <= u
        && u <= 0x200a) || u == 0x2028 || u == 0x2029 || u == 0x202f || u == 0x205f || u == 0x3000
}

pub(crate) fn space(c: char) -> (r: bool)
    ensures
        r == is_space(c),
{
    let u = c as u32;
    (0x9 <= u && u <= 0xd) || u == 0x20 || u == 0x85 || u == 0xa0 || u == 0x1680 || (0x2000 <= u
        && u <= 0x200a) || u == 0x2028 || u == 0x2029 || u == 0x202f || u == 0x205f || u == 0x3000
}

/// `s` without its leading white space.
pub open spec fn trim_start(s: Seq<char>) -> Seq<char>
    decreases s.len(),
{
    if s.len() > 0 && is_space(s[0]) {
        trim_start(s.drop_first())
    } else {
        s
    }
}

/// `s` without its trailing white space.
pub open spec fn trim_end(s: Seq<char>) -> Seq<char>
    decreases s.len(),
{
    if s.len() > 0 && is_space(s.last()) {
        trim_end(s.drop_last())
    } else {
        s
    }
}

/// `s` without leading or trailing white space.
pub open spec fn trim(s: Seq<char>) -> Seq<char> {
    trim_end(trim_start(s))
}

pub(crate) fn trimmed(s: &Vec<char>) -> (r: Vec<char>)
    ensures
        r@ == trim(s@),
{
    let n = s.len();
    let mut lo: usize = 0;
    assert(s@.subrange(0, n as int) =~= s@);
    while lo < n && space(s[lo])
        invariant
            lo <= n == s@.len(),
            trim_start(s@) == trim_start(s@.subrange(lo as int, n as int)),
        decreases n - lo,
    {
        assert(s@.subrange(lo as int, n as int).drop_first() =~= s@.subrange(lo + 1, n as int));
        lo = lo + 1;
    }
    let ghost front = s@.subrange(lo as int, n as int);
    assert(trim_start(s@) == front);
    let mut hi: usize = n;
    while hi > lo && space(s[hi - 1])
        invariant
            lo <= hi <= n == s@.len(),
            front == s@.subrange(lo as int, n as int),
            trim_end(front) == trim_end(s@.subrange(lo as int, hi as int)),
        decreases hi,
    {
        assert(s@.subrange(lo as int, hi as int).drop_last() =~= s@.subrange(lo as int, hi - 1));
        hi = hi - 1;
    }
    let mut r: Vec<char> = Vec::new();
    let mut k: usize = lo;
    while k < hi
        invariant
            lo <= k <= hi <= n == s@.len(),
            r@ == s@.subrange(lo as int, k as int),
        decreases hi - k,
    {
        r.push(s[k]);
        k = k + 1;
        assert(r@ =~= s@.subrange(lo as int, k as int));
    }
    r
}

pub open spec fn digit_char(d: nat) -> char {
    (48 + d) as char
}

/// The decimal numeral of `n`, without leading zeros.
pub open spec fn decimal(n: nat) -> Seq<char>
    decreases n,
{
    if n < 10 {
        seq![digit_char(n)]
    } else {
        decimal(n / 10).push(digit_char(n % 10))
    }
}

/// `d` with `'0'` characters put in front until it is `width` long.
pub open spec fn zero_pad(d: Seq<char>, width: nat) -> Seq<char> {
    if d.len() < width {
        Seq::new((width - d.len()) as nat, |i: int| '0') + d
    } else {
        d
    }
}

pub(crate) fn push_decimal(n: usize, out: &mut Vec<char>)
    ensures
        final(out)@ == old(out)@ + decimal(n as nat),
    decreases n,
{
    if n >= 10 {
        push_decimal(n / 10, out);
    }
    let d: u8 = (n % 10) as u8;
    out.push((48u8 + d) as char);
    assert(final(out)@ =~= old(out)@ + decimal(n as nat));
}

/// The decimal numeral of `n`, zero-padded to `width` characters.
pub(crate) fn padded_decimal(n: usize, width: usize) -> (r: Vec<char>)
    ensures
        r@ == zero_pad(decimal(n as nat), width as nat),
{
    let mut d: Vec<char> = Vec::new();
    push_decimal(n, &mut d);
    assert(d@ =~= decimal(n as nat));
    if d.len() >= width {
        return d;
    }
    let mut r: Vec<char> = Vec::new();
    let fill = width - d.len();
    while r.len() < fill
        invariant
            r.len() <= fill,
            forall|i: int| 0 <= i < r.len() ==> r@[i] == '0',
        decreases fill - r.len(),
    {
        r.push('0');
    }
    r.append(&mut d);
    assert(r@ =~= zero_pad(decimal(n as nat), width as nat));
    r
}

/// `c` is one of the `size` consecutive characters starting at `first`.
pub open spec fn in_digits(c: char, first: u32, size: u32) -> bool {
    first <= c as u32 && (c as u32) < first + size
}

/// The value of the digit `c`: its offset from `first`, plus one in a
/// bijective numeral system (which has no digit for zero).
pub open spec fn digit_value(c: char, first: u32, bijective: bool) -> nat {
    ((c as u32 - first) + if bijective { 1int } else { 0int }) as nat
}

/// The value of the numeral `s` in base `size`, most significant digit first.
pub open spec fn numeral_value(s: Seq<char>, first: u32, size: u32, bijective: bool) -> nat
    decreases s.len(),
{
    if s.len() == 0 {
        0
    } else {
        (numeral_value(s.drop_last(), first, size, bijective) * size + digit_value(
            s.last(),
            first,
            bijective,
        )) as nat
    }
}

/// The first character of `s` that is not a digit.
pub open spec fn first_non_digit(s: Seq<char>, first: u32, size: u32) -> char
    decreases s.len(),
{
    if s.len() == 0 || !in_digits(s[0], first, size) {
        s[0]
    } else {
        first_non_digit(s.drop_first(), first, size)
    }
}

/// Reading the numeral `s`: its value, or why it has none.
pub open spec fn numeral_rank(s: Seq<char>, first: u32, size: u32, bijective: bool) -> Result<
    usize,
    RangeError,
> {
    if exists|i: int| 0 <= i < s.len() && !in_digits(#[trigger] s[i], first, size) {
        Err(
            RangeError::BadChar(
                first_non_digit(s, first, size),
                first as u8 as char,
                (first + size - 1) as u8 as char,
            ),
        )
    } else if numeral_value(s, first, size, bijective) > usize::MAX {
        Err(RangeError::TooLarge)
    } else {
        Ok(numeral_value(s, first, size, bijective) as usize)
    }
}

/// First code point of the lower-case or upper-case Latin alphabet.
pub open spec fn alpha_first(uppercase: bool) -> u32 {
    if uppercase {
        65
    } else {
        97
    }
}

/// The rank of `s` in bijective base 26 (`a` is 1, `z` 26, `aa` 27).
pub open spec fn alpha_value(s: Seq<char>, uppercase: bool) -> nat {
    numeral_value(s, alpha_first(uppercase), 26, true)
}

/// The value of the decimal numeral `s`.
pub open spec fn decimal_value(s: Seq<char>) -> nat {
    numeral_value(s, 48, 10, false)
}

/// The letters that write `n` in bijective base 26; empty for zero.
pub open spec fn alpha(n: nat, uppercase: bool) -> Seq<char>
    decreases n,
{
    if n == 0 {
        seq![]
    } else {
        alpha(((n - 1) / 26) as nat, uppercase).push(
            (alpha_first(uppercase) + (n - 1) % 26) as char,
        )
    }
}

proof fn lemma_first_non_digit(s: Seq<char>, first: u32, size: u32, k: int)
    requires
        0 <= k < s.len(),
        !in_digits(s[k], first, size),
        forall|i: int| 0 <= i < k ==> in_digits(#[trigger] s[i], first, size),
    ensures
        first_non_digit(s, first, size) == s[k],
    decreases k,
{
    if k > 0 {
        assert(in_digits(s[0], first, size));
        assert forall|i: int| 0 <= i < k - 1 implies in_digits(
            #[trigger] s.drop_first()[i],
            first,
            size,
        ) by {
            assert(s.drop_first()[i] == s[i + 1]);
        }
        lemma_first_non_digit(s.drop_first(), first, size, k - 1);
    }
}

proof fn lemma_numeral_prefix_le(s: Seq<char>, first: u32, size: u32, bijective: bool, k: int)
    requires
        0 <= k <= s.len(),
        size >= 1,
    ensures
        numeral_value(s.subrange(0, k), first, size, bijective) <= numeral_value(
            s,
            first,
            size,
            bijective,
        ),
    decreases s.len(),
{
    if k < s.len() {
        assert(s.drop_last().subrange(0, k) =~= s.subrange(0, k));
        lemma_numeral_prefix_le(s.drop_last(), first, size, bijective, k);
        let v = numeral_value(s.drop_last(), first, size, bijective);
        assert(v <= v * size) by (nonlinear_arith)
            requires
                size >= 1,
        ;
    } else {
        assert(s.subrange(0, k) =~= s);
    }
}

/// Reads the numeral `v`, digit by digit, with overflow checks.
pub(crate) fn read_numeral(v: &Vec<char>, first: u32, size: u32, bijective: bool) -> (r: Result<
    usize,
    RangeError,
>)
    requires
        1 <= size <= 26,
        first + size <= 128,
    ensures
        r == numeral_rank(v@, first, size, bijective),
{
    let n = v.len();
    let mut k: usize = 0;
    while k < n
        invariant
            k <= n == v@.len(),
            1 <= size <= 26,
            first + size <= 128,
            forall|i: int| 0 <= i < k ==> in_digits(#[trigger] v@[i], first, size),
        decreases n - k,
    {
        let u = v[k] as u32;
        if !(first <= u && u < first + size) {
            proof {
                lemma_first_non_digit(v@, first, size, k as int);
            }
            return Err(
                RangeError::BadChar(v[k], first as u8 as char, (first + size - 1) as u8 as char),
            );
        }
        k = k + 1;
    }
    let mut acc: usize = 0;
    let mut k: usize = 0;
    while k < n
        invariant
            k <= n == v@.len(),
            1 <= size <= 26,
            first + size <= 128,
            forall|i: int| 0 <= i < n ==> in_digits(#[trigger] v@[i], first, size),
            acc == numeral_value(v@.subrange(0, k as int), first, size, bijective),
        decreases n - k,
    {
        let ghost pre = v@.subrange(0, k as int);
        let ghost next = v@.subrange(0, k + 1);
        assert(next.drop_last() =~= pre);
        assert(in_digits(v@[k as int], first, size));
        let d: usize = (v[k] as u32 - first) as usize + if bijective {
            1
        } else {
            0
        };
        let m = acc.checked_mul(size as usize);
        if m.is_none() {
            proof {
                lemma_numeral_prefix_le(v@, first, size, bijective, k + 1);
            }
            return Err(RangeError::TooLarge);
        }
        let a = m.unwrap().checked_add(d);
        if a.is_none() {
            proof {
                lemma_numeral_prefix_le(v@, first, size, bijective, k + 1);
            }
            return Err(RangeError::TooLarge);
        }
        acc = a.unwrap();
        k = k + 1;
    }
    assert(v@.subrange(0, n as int) =~= v@);
    Ok(acc)
}

/// Reads `s` as a rank in bijective base 26 over the letters of one case.
pub fn parse_alphabetic_radix(s: &str, uppercase: bool) -> (r: Result<usize, RangeError>)
    ensures
        r == numeral_rank(s@, alpha_first(uppercase), 26, true),
{
    let v = chars_of(s);
    read_numeral(&v, if uppercase { 65 } else { 97 }, 26, true)
}

/// Appends the letters of `n` in bijective base 26.
fn push_alpha(n: usize, uppercase: bool, out: &mut Vec<char>)
    ensures
        final(out)@ == old(out)@ + alpha(n as nat, uppercase),
    decreases n,
{
    if n == 0 {
        assert(final(out)@ =~= old(out)@ + alpha(n as nat, uppercase));
        return;
    }
    push_alpha((n - 1) / 26, uppercase, out);
    let first: u8 = if uppercase { 65 } else { 97 };
    let d: u8 = ((n - 1) % 26) as u8;
    out.push((first + d) as char);
    assert(final(out)@ =~= old(out)@ + alpha(n as nat, uppercase));
}

/// The letters that write `n` in bijective base 26, in the given case.
pub(crate) fn alphabetic_chars(n: usize, uppercase: bool) -> (r: Vec<char>)
    ensures
        r@ == alpha(n as nat, uppercase),
{
    let mut r: Vec<char> = Vec::new();
    push_alpha(n, uppercase, &mut r);
    assert(r@ =~= alpha(n as nat, uppercase));
    r
}

/// Writes `n` in bijective base 26 (`1` is `a`, `27` is `aa`); zero gives
/// the empty string.
pub fn to_alphabetic_radix(n: usize, uppercase: bool) -> (r: String)
    ensures
        r@ == alpha(n as nat, uppercase),
{
    let v = alphabetic_chars(n, uppercase);
    string_of(&v)
}

proof fn lemma_alpha_value(n: nat, uppercase: bool)
    ensures
        alpha_value(alpha(n, uppercase), uppercase) == n,
        forall|i: int|
            0 <= i < alpha(n, uppercase).len() ==> in_digits(
                #[trigger] alpha(n, uppercase)[i],
                alpha_first(uppercase),
                26,
            ),
    decreases n,
{
    if n > 0 {
        let q = ((n - 1) / 26) as nat;
        let r = (n - 1) % 26;
        lemma_alpha_value(q, uppercase);
        let s = alpha(n, uppercase);
        let c = (alpha_first(uppercase) + r) as char;
        assert(s.drop_last() =~= alpha(q, uppercase));
        assert(s.last() == c);
        assert(c as u32 == alpha_first(uppercase) + r);
        assert(n == q * 26 + r + 1);
    }
}

/// Writing a number in bijective base 26 and reading it back gives the
/// number again, in either case.
pub proof fn lemma_alphabetic_round_trip(n: usize, uppercase: bool)
    ensures
        numeral_rank(alpha(n as nat, uppercase), alpha_first(uppercase), 26, true) == Ok::<
            usize,
            RangeError,
        >(n),
{
    lemma_alpha_value(n as nat, uppercase);
}

} // verus!
