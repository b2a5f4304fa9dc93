//! Exact quotients of integers: averages and percentages without rounding.

use vstd::arithmetic::div_mod::lemma_fundamental_div_mod;
use vstd::prelude::*;

verus! {

/// The quotient `num / den`.
#[derive(Clone, Copy, Debug, PartialEq, Eq, Structural)]
pub struct Ratio {
    pub num: u128,
    pub den: u64,
}

impl Ratio {
    /// A quotient has a positive denominator.
    pub open spec fn valid(self) -> bool {
        self.den > 0
    }

    /// `self < other` as rational numbers.
    pub open spec fn less(self, other: Ratio) -> bool {
        self.num * other.den < other.num * self.den
    }

    /// `self > bound` as rational numbers.
    pub open spec fn above(self, bound: int) -> bool {
        self.num > bound * self.den
    }

    /// The integer `n` as a quotient.
    pub open spec fn whole(n: nat) -> Ratio {
        Ratio { num: n as u128, den: 1 }
    }

    /// Compares two quotients exactly.
    pub fn is_less(&self, other: &Ratio) -> (r: bool)
        requires
            self.valid(),
            other.valid(),
        ensures
            r == self.less(*other),
            r == (self.num * other.den < other.num * self.den),
    {
        let d1: u128 = self.den as u128;
        let d2: u128 = other.den as u128;
        let q1: u128 = self.num / d1;
        let q2: u128 = other.num / d2;
        let r1: u128 = self.num % d1;
        let r2: u128 = other.num % d2;
        proof {
            lemma_fundamental_div_mod(self.num as int, d1 as int);
            lemma_fundamental_div_mod(other.num as int, d2 as int);
            lemma_compare_by_parts(
                q1 as int,
                r1 as int,
                d1 as int,
                q2 as int,
                r2 as int,
                d2 as int,
            );
            assert(r1 * d2 <= u64::MAX * u64::MAX) by (nonlinear_arith)
                requires
                    r1 <= u64::MAX,
                    d2 <= u64::MAX,
            ;
            assert(r2 * d1 <= u64::MAX * u64::MAX) by (nonlinear_arith)
                requires
                    r2 <= u64::MAX,
                    d1 <= u64::MAX,
            ;
        }
        if q1 == q2 {
            r1 * d2 < r2 * d1
        } else {
            q1 < q2
        }
    }

    /// Whether the quotient exceeds an integer.
    pub fn exceeds(&self, bound: u64) -> (r: bool)
        requires
            self.valid(),
        ensures
            r == self.above(bound as int),
            r == (self.num > bound * self.den),
    {
        proof {
            assert(bound * self.den <= u64::MAX * u64::MAX) by (nonlinear_arith)
                requires
                    bound <= u64::MAX,
                    self.den <= u64::MAX,
            ;
        }
        self.num > (bound as u128) * (self.den as u128)
    }
}

/// Quotients compare by their integer parts first and by their fractional parts then.
proof fn lemma_compare_by_parts(q1: int, r1: int, d1: int, q2: int, r2: int, d2: int)
    requires
        0 <= r1 < d1,
        0 <= r2 < d2,
    ensures
        q1 == q2 ==> ((d1 * q1 + r1) * d2 < (d2 * q2 + r2) * d1 <==> r1 * d2 < r2 * d1),
        q1 < q2 ==> (d1 * q1 + r1) * d2 < (d2 * q2 + r2) * d1,
        q1 > q2 ==> (d1 * q1 + r1) * d2 > (d2 * q2 + r2) * d1,
{
    assert((d1 * q1 + r1) * d2 == d1 * d2 * q1 + r1 * d2) by (nonlinear_arith);
    assert((d2 * q2 + r2) * d1 == d1 * d2 * q2 + r2 * d1) by (nonlinear_arith);
    assert(0 <= r1 * d2 < d1 * d2) by (nonlinear_arith)
        requires
            0 <= r1 < d1,
            0 < d2,
    ;
    assert(0 <= r2 * d1 < d1 * d2) by (nonlinear_arith)
        requires
            0 <= r2 < d2,
            0 < d1,
    ;
    if q1 < q2 {
        assert(d1 * d2 * q1 + d1 * d2 <= d1 * d2 * q2) by (nonlinear_arith)
            requires
                q1 + 1 <= q2,
                0 < d1,
                0 < d2,
        ;
    }
    if q2 < q1 {
        assert(d1 * d2 * q2 + d1 * d2 <= d1 * d2 * q1) by (nonlinear_arith)
            requires
                q2 + 1 <= q1,
                0 < d1,
                0 < d2,
        ;
    }
}

/// The comparison of quotients is a strict weak order: it is irreflexive, and both it and its
/// negation are transitive.
pub proof fn law_less_is_an_order(a: Ratio, b: Ratio, c: Ratio)
    requires
        a.valid(),
        b.valid(),
        c.valid(),
    ensures
        !a.less(a),
        a.less(b) && b.less(c) ==> a.less(c),
        !a.less(b) && !b.less(c) ==> !a.less(c),
{
    let (an, ad, bn, bd, cn, cd) = (
        a.num as int,
        a.den as int,
        b.num as int,
        b.den as int,
        c.num as int,
        c.den as int,
    );
    if a.less(b) && b.less(c) {
        assert(an * cd < cn * ad) by (nonlinear_arith)
            requires
                an * bd < bn * ad,
                bn * cd < cn * bd,
                ad > 0,
                bd > 0,
                cd > 0,
        {
            assert((an * bd) * cd < (bn * ad) * cd);
            assert((bn * cd) * ad < (cn * bd) * ad);
            assert((an * cd) * bd < (cn * ad) * bd);
        }
    }
    if !a.less(b) && !b.less(c) {
        assert(an * cd >= cn * ad) by (nonlinear_arith)
            requires
                an * bd >= bn * ad,
                bn * cd >= cn * bd,
                ad > 0,
                bd > 0,
                cd > 0,
        {
            assert((an * bd) * cd >= (bn * ad) * cd);
            assert((bn * cd) * ad >= (cn * bd) * ad);
            assert((an * cd) * bd >= (cn * ad) * bd);
        }
    }
}

} // verus!
