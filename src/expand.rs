//! The cartesian product of the segments' values, walked like an odometer.
use vstd::prelude::*;
use vstd::arithmetic::div_mod::lemma_fundamental_div_mod_converse;

use crate::pattern::token_views;
use crate::text::string_of;
use crate::token::{seg_count, seg_value, Segment, Token};

verus! {

/// Number of combinations of the first `n` segments.
pub open spec fn total(segs: Seq<Segment>, n: nat) -> nat
    decreases n,
{
    if n == 0 {
        1
    } else {
        total(segs, (n - 1) as nat) * seg_count(segs[n - 1])
    }
}

/// The expansions of the first `n` segments, in order: the first segment
/// varies slowest, the last fastest.
pub open spec fn product_of(segs: Seq<Segment>, n: nat) -> Seq<Seq<char>>
    decreases n,
{
    if n == 0 {
        seq![seq![]]
    } else {
        let prev = product_of(segs, (n - 1) as nat);
        let last = segs[n - 1];
        let c = seg_count(last) as int;
        Seq::new(prev.len() * seg_count(last), |k: int| prev[k / c] + seg_value(last, k % c))
    }
}

/// Every string that the segments denote, in order.
pub open spec fn product(segs: Seq<Segment>) -> Seq<Seq<char>> {
    product_of(segs, segs.len())
}

/// Position of the combination `idx` among those of the first `n` segments.
pub open spec fn rank(segs: Seq<Segment>, idx: Seq<usize>, n: nat) -> nat
    decreases n,
{
    if n == 0 {
        0
    } else {
        rank(segs, idx, (n - 1) as nat) * seg_count(segs[n - 1]) + idx[n - 1] as nat
    }
}

/// The string that the combination `idx` of the first `n` segments makes.
pub open spec fn combo(segs: Seq<Segment>, idx: Seq<usize>, n: nat) -> Seq<char>
    decreases n,
{
    if n == 0 {
        seq![]
    } else {
        combo(segs, idx, (n - 1) as nat) + seg_value(segs[n - 1], idx[n - 1] as int)
    }
}

/// `idx` picks a value of each segment.
pub open spec fn valid(segs: Seq<Segment>, idx: Seq<usize>) -> bool {
    &&& idx.len() == segs.len()
    &&& forall|j: int| 0 <= j < idx.len() ==> #[trigger] idx[j] < seg_count(segs[j])
}

pub proof fn lemma_product_len(segs: Seq<Segment>, n: nat)
    ensures
        product_of(segs, n).len() == total(segs, n),
    decreases n,
{
    if n > 0 {
        lemma_product_len(segs, (n - 1) as nat);
    }
}

proof fn lemma_agree(segs: Seq<Segment>, a: Seq<usize>, b: Seq<usize>, n: nat)
    requires
        n <= a.len(),
        n <= b.len(),
        forall|j: int| 0 <= j < n ==> a[j] == b[j],
    ensures
        rank(segs, a, n) == rank(segs, b, n),
        combo(segs, a, n) == combo(segs, b, n),
    decreases n,
{
    if n > 0 {
        lemma_agree(segs, a, b, (n - 1) as nat);
    }
}

/// The combination `idx` stands at position `rank` of the product.
proof fn lemma_product_at(segs: Seq<Segment>, idx: Seq<usize>, n: nat)
    requires
        n <= segs.len(),
        valid(segs, idx),
    ensures
        rank(segs, idx, n) < total(segs, n),
        product_of(segs, n)[rank(segs, idx, n) as int] == combo(segs, idx, n),
    decreases n,
{
    if n > 0 {
        let m = (n - 1) as nat;
        lemma_product_at(segs, idx, m);
        lemma_product_len(segs, m);
        let r = rank(segs, idx, m) as int;
        let t = total(segs, m) as int;
        let c = seg_count(segs[m as int]) as int;
        let x = idx[m as int] as int;
        assert(x < c);
        assert(r * c + x < t * c) by (nonlinear_arith)
            requires
                0 <= r < t,
                0 <= x < c,
        ;
        lemma_fundamental_div_mod_converse(r * c + x, c, r, x);
    }
}

proof fn lemma_zero_rank(segs: Seq<Segment>, idx: Seq<usize>, n: nat)
    requires
        n <= idx.len(),
        forall|j: int| 0 <= j < n ==> idx[j] == 0,
    ensures
        rank(segs, idx, n) == 0,
    decreases n,
{
    if n > 0 {
        lemma_zero_rank(segs, idx, (n - 1) as nat);
        let c = seg_count(segs[n - 1]);
        assert(0 * c == 0) by (nonlinear_arith);
    }
}

proof fn lemma_total_zero(segs: Seq<Segment>, n: nat, j: int)
    requires
        0 <= j < n <= segs.len(),
        seg_count(segs[j]) == 0,
    ensures
        total(segs, n) == 0,
    decreases n,
{
    if j < n - 1 {
        lemma_total_zero(segs, (n - 1) as nat, j);
    }
    let t = total(segs, (n - 1) as nat);
    let c = seg_count(segs[n - 1]);
    assert(t * 0 == 0 && 0 * c == 0) by (nonlinear_arith);
}

/// Moves the first `n` digits of the odometer `idx` one step on; returns
/// whether they wrapped around.
fn advance(tokens: &Vec<Token>, idx: &mut Vec<usize>, n: usize) -> (carry: bool)
    requires
        n <= tokens@.len(),
        valid(token_views(tokens@), old(idx)@),
    ensures
        valid(token_views(tokens@), final(idx)@),
        forall|j: int| n <= j < final(idx)@.len() ==> final(idx)@[j] == old(idx)@[j],
        !carry ==> rank(token_views(tokens@), final(idx)@, n as nat) == rank(
            token_views(tokens@),
            old(idx)@,
            n as nat,
        ) + 1,
        carry ==> rank(token_views(tokens@), old(idx)@, n as nat) + 1 == total(
            token_views(tokens@),
            n as nat,
        ),
    decreases n,
{
    let ghost segs = token_views(tokens@);
    if n == 0 {
        return true;
    }
    let m = n - 1;
    let ghost c = seg_count(segs[m as int]);
    assert(segs[m as int] == tokens@[m as int]@);
    if !tokens[m].is_last(idx[m]) {
        let ghost before = idx@;
        idx.set(m, idx[m] + 1);
        proof {
            lemma_agree(segs, before, idx@, m as nat);
        }
        false
    } else {
        let ghost before = idx@;
        idx.set(m, 0);
        proof {
            lemma_agree(segs, before, idx@, m as nat);
        }
        let ghost middle = idx@;
        let carry = advance(tokens, idx, m);
        proof {
            assert(idx@[m as int] == 0);
            if !carry {
                let r = rank(segs, before, m as nat);
                assert((r + 1) * c == r * c + (c - 1) + 1) by (nonlinear_arith);
            } else {
                let r = rank(segs, before, m as nat);
                let t = total(segs, m as nat);
                assert(r + 1 == t);
                assert(t * c == r * c + (c - 1) + 1) by (nonlinear_arith)
                    requires
                        r + 1 == t,
                ;
            }
        }
        carry
    }
}

/// A walk over every expansion of a pattern, one at a time. It holds one
/// index per segment, not the expansions themselves.
pub struct Expansion<'a> {
    tokens: &'a Vec<Token>,
    idx: Vec<usize>,
    done: bool,
}

impl<'a> Expansion<'a> {
    pub closed spec fn segments(&self) -> Seq<Segment> {
        token_views(self.tokens@)
    }

    /// How many expansions have been handed out so far.
    pub closed spec fn position(&self) -> nat {
        if self.done {
            total(self.segments(), self.segments().len())
        } else {
            rank(self.segments(), self.idx@, self.segments().len())
        }
    }

    pub closed spec fn wf(&self) -> bool {
        &&& self.idx@.len() == self.tokens@.len()
        &&& !self.done ==> valid(self.segments(), self.idx@)
    }

    /// The expansions not handed out yet.
    pub open spec fn remaining(&self) -> Seq<Seq<char>> {
        product(self.segments()).skip(self.position() as int)
    }

    /// Starts a walk over the expansions of `tokens`.
    pub fn new(tokens: &'a Vec<Token>) -> (r: Expansion<'a>)
        ensures
            r.wf(),
            r.segments() == token_views(tokens@),
            r.position() == 0,
    {
        let ghost segs = token_views(tokens@);
        let n = tokens.len();
        let mut idx: Vec<usize> = Vec::new();
        let mut done = false;
        let mut j: usize = 0;
        while j < n
            invariant
                n == tokens@.len() == segs.len(),
                segs == token_views(tokens@),
                j <= n,
                idx@.len() == j,
                forall|i: int| 0 <= i < j ==> idx@[i] == 0,
                done ==> total(segs, n as nat) == 0,
                !done ==> forall|i: int| 0 <= i < j ==> seg_count(#[trigger] segs[i]) > 0,
            decreases n - j,
        {
            assert(segs[j as int] == tokens@[j as int]@);
            if tokens[j].is_empty() {
                proof {
                    lemma_total_zero(segs, n as nat, j as int);
                }
                done = true;
            }
            idx.push(0);
            j = j + 1;
        }
        proof {
            lemma_zero_rank(segs, idx@, n as nat);
        }
        Expansion { tokens, idx, done }
    }

    /// The next expansion, or `None` once all have been handed out.
    pub fn next(&mut self) -> (r: Option<String>)
        requires
            old(self).wf(),
        ensures
            final(self).wf(),
            final(self).segments() == old(self).segments(),
            old(self).position() < product(old(self).segments()).len() ==> {
                &&& r matches Some(v) && v@ == product(old(self).segments())[old(
                    self,
                ).position() as int]
                &&& final(self).position() == old(self).position() + 1
            },
            old(self).position() >= product(old(self).segments()).len() ==> {
                &&& r is None
                &&& final(self).position() == old(self).position()
            },
    {
        let ghost segs = self.segments();
        proof {
            lemma_product_len(segs, segs.len());
        }
        if self.done {
            return None;
        }
        proof {
            lemma_product_at(segs, self.idx@, segs.len());
        }
        let n = self.tokens.len();
        let mut out: Vec<char> = Vec::new();
        let mut j: usize = 0;
        while j < n
            invariant
                n == self.tokens@.len() == segs.len(),
                segs == token_views(self.tokens@),
                valid(segs, self.idx@),
                j <= n,
                out@ == combo(segs, self.idx@, j as nat),
            decreases n - j,
        {
            assert(segs[j as int] == self.tokens@[j as int]@);
            let mut v = self.tokens[j].value_at(self.idx[j]);
            out.append(&mut v);
            j = j + 1;
        }
        let carry = advance(self.tokens, &mut self.idx, n);
        if carry {
            self.done = true;
        }
        Some(string_of(&out))
    }
}

/// Where some segment denotes no value, the pattern denotes no string.
pub proof fn lemma_empty_segment(segs: Seq<Segment>, j: int)
    requires
        0 <= j < segs.len(),
        seg_count(segs[j]) == 0,
    ensures
        product(segs).len() == 0,
{
    lemma_total_zero(segs, segs.len(), j);
    lemma_product_len(segs, segs.len());
}

/// Two segments denote every pair of their values, joined, in row-major
/// order: the first segment varies slowest.
pub proof fn lemma_two_segments(a: Segment, b: Segment, i: int, j: int)
    requires
        0 <= i < seg_count(a),
        0 <= j < seg_count(b),
    ensures
        product(seq![a, b]).len() == seg_count(a) * seg_count(b),
        i * seg_count(b) + j < seg_count(a) * seg_count(b),
        product(seq![a, b])[i * seg_count(b) + j] == seg_value(a, i) + seg_value(b, j),
{
    let segs = seq![a, b];
    let c1 = seg_count(a) as int;
    let c2 = seg_count(b) as int;
    let unit = product_of(segs, 0);
    let single = product_of(segs, 1);
    let pair = product_of(segs, 2);
    assert(segs[0] == a && segs[1] == b);
    assert(unit.len() == 1);
    assert(single.len() == c1);
    assert(single[i] =~= seg_value(a, i)) by {
        lemma_fundamental_div_mod_converse(i, c1, 0, i);
    }
    assert(i * c2 + j < c1 * c2) by (nonlinear_arith)
        requires
            0 <= i < c1,
            0 <= j < c2,
    ;
    lemma_fundamental_div_mod_converse(i * c2 + j, c2, i, j);
    assert(pair[i * c2 + j] == single[i] + seg_value(b, j));
}

proof fn lemma_product_prefix(a: Seq<Segment>, b: Seq<Segment>, n: nat)
    requires
        n <= a.len(),
        n <= b.len(),
        forall|j: int| 0 <= j < n ==> a[j] == b[j],
    ensures
        product_of(a, n) == product_of(b, n),
    decreases n,
{
    if n > 0 {
        lemma_product_prefix(a, b, (n - 1) as nat);
    }
}

/// Adding a segment at the end pairs each earlier expansion with each of
/// its values, the new segment varying fastest.
pub proof fn lemma_push_segment(segs: Seq<Segment>, x: Segment, k: int, j: int)
    requires
        0 <= k < product(segs).len(),
        0 <= j < seg_count(x),
    ensures
        product(segs.push(x)).len() == product(segs).len() * seg_count(x),
        k * seg_count(x) + j < product(segs).len() * seg_count(x),
        product(segs.push(x))[k * seg_count(x) + j] == product(segs)[k] + seg_value(x, j),
{
    let t = segs.push(x);
    let n = segs.len();
    lemma_product_prefix(segs, t, n);
    assert(t[n as int] == x);
    let m = product(segs).len() as int;
    let c = seg_count(x) as int;
    assert(k * c + j < m * c) by (nonlinear_arith)
        requires
            0 <= k < m,
            0 <= j < c,
    ;
    lemma_fundamental_div_mod_converse(k * c + j, c, k, j);
}

} // verus!
