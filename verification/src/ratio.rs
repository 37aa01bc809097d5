//! Exact non-negative fractions, used for every score and similarity the
//! library computes (Jaccard indices, match ratios, rename scores).
use vstd::prelude::*;

verus! {

/// The fraction `num / den`; a denominator of zero never occurs in values the
/// library produces.
#[derive(PartialEq, Eq, Structural, Clone, Copy, Debug)]
pub struct Ratio {
    pub num: u64,
    pub den: u64,
}

/// A product of two `u64` values fits in a `u128`.
pub proof fn lemma_product_fits(a: u64, b: u64)
    ensures
        (a as int) * (b as int) <= u128::MAX,
{
    assert((a as int) * (b as int) <= (u64::MAX as int) * (u64::MAX as int)) by (nonlinear_arith)
        requires
            a <= u64::MAX,
            b <= u64::MAX,
    ;
}

/// From `x·b ≤ y·a` and `y·c ≤ z·b` with positive `a`, `b`, `c` follows
/// `x·c ≤ z·a` (and strictly, when either step is strict).
proof fn lemma_cross_trans(x: int, a: int, y: int, b: int, z: int, c: int)
    requires
        a > 0,
        b > 0,
        c > 0,
        x * b <= y * a,
        y * c <= z * b,
    ensures
        x * c <= z * a,
        (x * b < y * a || y * c < z * b) ==> x * c < z * a,
{
    assert(x * b * c <= y * a * c) by (nonlinear_arith)
        requires
            x * b <= y * a,
            c > 0,
    ;
    assert(y * c * a <= z * b * a) by (nonlinear_arith)
        requires
            y * c <= z * b,
            a > 0,
    ;
    assert(x * b * c == b * (x * c)) by (nonlinear_arith);
    assert(y * a * c == y * c * a) by (nonlinear_arith);
    assert(z * b * a == b * (z * a)) by (nonlinear_arith);
    assert(x * c <= z * a) by (nonlinear_arith)
        requires
            b * (x * c) <= b * (z * a),
            b > 0,
    ;
    if x * b < y * a {
        assert(x * b * c < y * a * c) by (nonlinear_arith)
            requires
                x * b < y * a,
                c > 0,
        ;
        assert(x * c < z * a) by (nonlinear_arith)
            requires
                b * (x * c) < b * (z * a),
                b > 0,
        ;
    }
    if y * c < z * b {
        assert(y * c * a < z * b * a) by (nonlinear_arith)
            requires
                y * c < z * b,
                a > 0,
        ;
        assert(x * c < z * a) by (nonlinear_arith)
            requires
                b * (x * c) < b * (z * a),
                b > 0,
        ;
    }
}

/// `le` is transitive on fractions with positive denominators, and strict
/// when either step is.
pub proof fn lemma_le_trans(p: Ratio, q: Ratio, r: Ratio)
    requires
        p.wf(),
        q.wf(),
        r.wf(),
        p.le(q),
        q.le(r),
    ensures
        p.le(r),
        (p.lt(q) || q.lt(r)) ==> p.lt(r),
{
    lemma_cross_trans(
        p.num as int,
        p.den as int,
        q.num as int,
        q.den as int,
        r.num as int,
        r.den as int,
    );
}

impl Ratio {
    /// The denominator is positive.
    pub open spec fn wf(self) -> bool {
        self.den > 0
    }

    /// `self <= other` as rational numbers.
    pub open spec fn le(self, other: Ratio) -> bool {
        (self.num as int) * (other.den as int) <= (other.num as int) * (self.den as int)
    }

    /// `self < other` as rational numbers.
    pub open spec fn lt(self, other: Ratio) -> bool {
        (self.num as int) * (other.den as int) < (other.num as int) * (self.den as int)
    }

    /// The value is at most one.
    pub open spec fn at_most_one(self) -> bool {
        self.num <= self.den
    }

    /// The fraction one.
    pub fn one() -> (res: Ratio)
        ensures
            res.num == 1 && res.den == 1,
    {
        Ratio { num: 1, den: 1 }
    }

    /// Exact comparison `self <= other`.
    pub fn less_eq(&self, other: &Ratio) -> (res: bool)
        ensures
            res == self.le(*other),
    {
        proof {
            lemma_product_fits(self.num, other.den);
            lemma_product_fits(other.num, self.den);
        }
        let l = (self.num as u128) * (other.den as u128);
        let r = (other.num as u128) * (self.den as u128);
        l <= r
    }

    /// Exact comparison `self < other`.
    pub fn less(&self, other: &Ratio) -> (res: bool)
        ensures
            res == self.lt(*other),
    {
        proof {
            lemma_product_fits(self.num, other.den);
            lemma_product_fits(other.num, self.den);
        }
        let l = (self.num as u128) * (other.den as u128);
        let r = (other.num as u128) * (self.den as u128);
        l < r
    }
}

} // verus!
