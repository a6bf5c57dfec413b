//! Exact rational arithmetic. An executable `Rational` is a pair of big
//! integers with a positive denominator; its mathematical value is the ghost
//! `Ratio`, a pair of unbounded integers. Two ratios denote the same number
//! when they cross-multiply equally (`r_eq`), which is the equality all
//! portfolio contracts are stated in.

use vstd::prelude::*;
use vstd::arithmetic::mul::{lemma_mul_is_associative, lemma_mul_is_commutative,
    lemma_mul_is_distributive_add, lemma_mul_is_distributive_add_other_way};
use crate::bignum::{big, big_from_i64, big_clone, big_add, big_sub, big_mul, big_neg, big_eq,
    big_lt, big_div_floor, big_gcd};

verus! {

/// Mathematical value of a rational: numerator `n` over denominator `d`.
pub ghost struct Ratio {
    pub n: int,
    pub d: int,
}

/// A well-formed ratio has a positive denominator.
pub open spec fn r_wf(a: Ratio) -> bool {
    a.d > 0
}

/// The ratio of the integer `i`.
pub open spec fn rz(i: int) -> Ratio {
    Ratio { n: i, d: 1 }
}

/// `a` and `b` denote the same rational number (for positive denominators).
pub open spec fn r_eq(a: Ratio, b: Ratio) -> bool {
    a.n * b.d == b.n * a.d
}

/// `a <= b` as rational numbers (for positive denominators).
pub open spec fn r_le(a: Ratio, b: Ratio) -> bool {
    a.n * b.d <= b.n * a.d
}

/// `a < b` as rational numbers (for positive denominators).
pub open spec fn r_lt(a: Ratio, b: Ratio) -> bool {
    a.n * b.d < b.n * a.d
}

pub open spec fn r_add(a: Ratio, b: Ratio) -> Ratio {
    Ratio { n: a.n * b.d + b.n * a.d, d: a.d * b.d }
}

pub open spec fn r_sub(a: Ratio, b: Ratio) -> Ratio {
    Ratio { n: a.n * b.d - b.n * a.d, d: a.d * b.d }
}

pub open spec fn r_mul(a: Ratio, b: Ratio) -> Ratio {
    Ratio { n: a.n * b.n, d: a.d * b.d }
}

pub open spec fn r_neg(a: Ratio) -> Ratio {
    Ratio { n: -a.n, d: a.d }
}

pub open spec fn r_abs(a: Ratio) -> Ratio {
    if a.n >= 0 {
        a
    } else {
        r_neg(a)
    }
}

/// Reciprocal, with the sign moved into the numerator so that a well-formed
/// argument with nonzero numerator yields a well-formed result.
pub open spec fn r_inv(b: Ratio) -> Ratio {
    if b.n >= 0 {
        Ratio { n: b.d, d: b.n }
    } else {
        Ratio { n: -b.d, d: -b.n }
    }
}

pub open spec fn r_div(a: Ratio, b: Ratio) -> Ratio {
    r_mul(a, r_inv(b))
}

/// Equality of ratios is transitive when the middle denominator is nonzero.
pub proof fn lemma_req_trans(a: Ratio, b: Ratio, c: Ratio)
    requires
        b.d != 0,
        r_eq(a, b),
        r_eq(b, c),
    ensures
        r_eq(a, c),
{
    assert((a.n * c.d) * b.d == (c.n * a.d) * b.d) by (nonlinear_arith)
        requires
            a.n * b.d == b.n * a.d,
            b.n * c.d == c.n * b.d,
    ;
    assert(a.n * c.d == c.n * a.d) by (nonlinear_arith)
        requires
            (a.n * c.d) * b.d == (c.n * a.d) * b.d,
            b.d != 0,
    ;
}

/// Products of four factors can be regrouped pairwise.
pub proof fn lemma_mul_rearrange(p: int, q: int, r: int, s: int)
    ensures
        (p * q) * (r * s) == (p * r) * (q * s),
        (p * q) * (r * s) == (p * s) * (r * q),
{
    assert((p * q) * (r * s) == (p * r) * (q * s)) by (nonlinear_arith);
    assert((p * q) * (r * s) == (p * s) * (r * q)) by (nonlinear_arith);
}

/// Addition respects rational equality.
pub proof fn lemma_add_cong(a: Ratio, a2: Ratio, b: Ratio, b2: Ratio)
    requires
        r_eq(a, a2),
        r_eq(b, b2),
    ensures
        r_eq(r_add(a, b), r_add(a2, b2)),
{
    lemma_mul_is_distributive_add_other_way(a2.d * b2.d, a.n * b.d, b.n * a.d);
    lemma_mul_is_distributive_add_other_way(a.d * b.d, a2.n * b2.d, b2.n * a2.d);
    lemma_mul_rearrange(a.n, b.d, a2.d, b2.d);
    lemma_mul_rearrange(a2.n, a.d, b2.d, b.d);
    lemma_mul_is_commutative(b2.d, b.d);
    lemma_mul_is_commutative(b.d, a.d);
    assert((a.n * b.d) * (a2.d * b2.d) == (a2.n * a.d) * (b.d * b2.d));
    assert((a2.n * b2.d) * (a.d * b.d) == (a2.n * a.d) * (b2.d * b.d));
    lemma_mul_rearrange(b.n, a.d, a2.d, b2.d);
    lemma_mul_rearrange(b2.n, b.d, a2.d, a.d);
    lemma_mul_is_commutative(a.d, a2.d);
    assert((b.n * a.d) * (a2.d * b2.d) == (b.n * b2.d) * (a2.d * a.d));
    assert((b2.n * a2.d) * (a.d * b.d) == (b2.n * b.d) * (a2.d * a.d));
    assert((b.n * b2.d) * (a2.d * a.d) == (b2.n * b.d) * (a2.d * a.d));
}

/// Multiplication respects rational equality.
pub proof fn lemma_mul_cong(a: Ratio, a2: Ratio, b: Ratio, b2: Ratio)
    requires
        r_eq(a, a2),
        r_eq(b, b2),
    ensures
        r_eq(r_mul(a, b), r_mul(a2, b2)),
{
    assert((a.n * b.n) * (a2.d * b2.d) == (a2.n * b2.n) * (a.d * b.d)) by (nonlinear_arith)
        requires
            a.n * a2.d == a2.n * a.d,
            b.n * b2.d == b2.n * b.d,
    ;
}

/// Multiplying out a sum: `x*k + y*k` equals `(x + y)*k`.
pub proof fn lemma_mul_distributes(x: Ratio, y: Ratio, k: Ratio)
    ensures
        r_eq(r_add(r_mul(x, k), r_mul(y, k)), r_mul(r_add(x, y), k)),
{
    let lhs = r_add(r_mul(x, k), r_mul(y, k));
    let rhs = r_mul(r_add(x, y), k);
    let a = x.n * y.d + y.n * x.d;
    assert(lhs.n == (x.n * k.n) * (y.d * k.d) + (y.n * k.n) * (x.d * k.d));
    lemma_mul_rearrange(x.n, k.n, y.d, k.d);
    lemma_mul_rearrange(y.n, k.n, x.d, k.d);
    assert(lhs.n == (x.n * y.d) * (k.n * k.d) + (y.n * x.d) * (k.n * k.d));
    lemma_mul_is_distributive_add_other_way(k.n * k.d, x.n * y.d, y.n * x.d);
    assert(lhs.n == a * (k.n * k.d));
    lemma_mul_rearrange(x.d, k.d, y.d, k.d);
    assert(lhs.d == (x.d * y.d) * (k.d * k.d));
    assert(rhs.n == a * k.n);
    assert(rhs.d == (x.d * y.d) * k.d);
    // lhs.n * rhs.d == rhs.n * lhs.d, with both sides regrouped to
    // (a * k.n) * ((x.d * y.d) * (k.d * k.d)).
    lemma_mul_rearrange(a, k.n * k.d, x.d * y.d, k.d);
    lemma_mul_is_commutative(k.n * k.d, x.d * y.d);
    lemma_mul_is_associative(x.d * y.d, k.n * k.d, k.d);
    lemma_mul_is_associative(x.d * y.d, k.n, k.d * k.d);
    lemma_mul_is_associative(k.n, k.d, k.d);
    assert(lhs.n * rhs.d == (a * (x.d * y.d)) * ((k.n * k.d) * k.d));
    lemma_mul_rearrange(a, k.n, x.d * y.d, k.d * k.d);
    assert(rhs.n * lhs.d == (a * (x.d * y.d)) * (k.n * (k.d * k.d)));
}

/// A nonzero rational times its reciprocal is one.
pub proof fn lemma_mul_inv(b: Ratio)
    requires
        b.n != 0,
    ensures
        r_eq(r_mul(b, r_inv(b)), rz(1)),
{
    if b.n >= 0 {
        assert((b.n * b.d) * 1 == 1 * (b.d * b.n)) by (nonlinear_arith);
    } else {
        assert((b.n * -b.d) * 1 == 1 * (b.d * -b.n)) by (nonlinear_arith);
    }
}

/// An exact rational number: `num / den` with `den > 0`.
pub struct Rational {
    num: num_bigint::BigInt,
    den: num_bigint::BigInt,
}

impl View for Rational {
    type V = Ratio;

    closed spec fn view(&self) -> Ratio {
        Ratio { n: big(self.num), d: big(self.den) }
    }
}

impl Rational {
    /// The integer `x` as a rational.
    pub fn from_int(x: i64) -> (r: Rational)
        ensures
            r@ == rz(x as int),
            r_wf(r@),
    {
        Rational { num: big_from_i64(x), den: big_from_i64(1) }
    }

    /// The fraction `n / d`; the sign is normalized into the numerator.
    pub fn new_frac(n: i64, d: i64) -> (r: Rational)
        requires
            d != 0,
        ensures
            r_wf(r@),
            r_eq(r@, Ratio { n: n as int, d: d as int }),
            d > 0 ==> r@ == (Ratio { n: n as int, d: d as int }),
    {
        let nb = big_from_i64(n);
        let db = big_from_i64(d);
        if d < 0 {
            let r = Rational { num: big_neg(&nb), den: big_neg(&db) };
            proof {
                assert((-(n as int)) * (d as int) == (n as int) * (-(d as int)))
                    by (nonlinear_arith);
            }
            r
        } else {
            Rational { num: nb, den: db }
        }
    }

    /// The fraction of two big integers with a positive denominator.
    pub(crate) fn from_big_frac(n: num_bigint::BigInt, d: num_bigint::BigInt) -> (r: Rational)
        requires
            big(d) > 0,
        ensures
            r@ == (Ratio { n: big(n), d: big(d) }),
            r_wf(r@),
    {
        Rational { num: n, den: d }
    }

    /// The integer held by `b`, as a rational.
    pub(crate) fn from_bigint(b: num_bigint::BigInt) -> (r: Rational)
        ensures
            r@ == (Ratio { n: big(b), d: 1 }),
            r_wf(r@),
    {
        Rational { num: b, den: big_from_i64(1) }
    }

    /// An identical copy.
    pub fn dup(&self) -> (r: Rational)
        ensures
            r@ == self@,
    {
        Rational { num: big_clone(&self.num), den: big_clone(&self.den) }
    }

    pub fn neg(&self) -> (r: Rational)
        ensures
            r@ == r_neg(self@),
            r_wf(self@) ==> r_wf(r@),
    {
        Rational { num: big_neg(&self.num), den: big_clone(&self.den) }
    }

    pub fn add(&self, other: &Rational) -> (r: Rational)
        ensures
            r@ == r_add(self@, other@),
            r_wf(self@) && r_wf(other@) ==> r_wf(r@),
    {
        let n = big_add(&big_mul(&self.num, &other.den), &big_mul(&other.num, &self.den));
        let d = big_mul(&self.den, &other.den);
        let r = Rational { num: n, den: d };
        proof {
            assert(self@.d > 0 && other@.d > 0 ==> self@.d * other@.d > 0) by (nonlinear_arith);
        }
        r
    }

    pub fn sub(&self, other: &Rational) -> (r: Rational)
        ensures
            r@ == r_sub(self@, other@),
            r_wf(self@) && r_wf(other@) ==> r_wf(r@),
    {
        let n = big_sub(&big_mul(&self.num, &other.den), &big_mul(&other.num, &self.den));
        let d = big_mul(&self.den, &other.den);
        let r = Rational { num: n, den: d };
        proof {
            assert(self@.d > 0 && other@.d > 0 ==> self@.d * other@.d > 0) by (nonlinear_arith);
        }
        r
    }

    pub fn mul(&self, other: &Rational) -> (r: Rational)
        ensures
            r@ == r_mul(self@, other@),
            r_wf(self@) && r_wf(other@) ==> r_wf(r@),
    {
        let n = big_mul(&self.num, &other.num);
        let d = big_mul(&self.den, &other.den);
        let r = Rational { num: n, den: d };
        proof {
            assert(self@.d > 0 && other@.d > 0 ==> self@.d * other@.d > 0) by (nonlinear_arith);
        }
        r
    }

    pub fn div(&self, other: &Rational) -> (r: Rational)
        requires
            other@.n != 0,
        ensures
            r@ == r_div(self@, other@),
            r_wf(self@) ==> r_wf(r@),
    {
        let n = big_mul(&self.num, &other.den);
        let d = big_mul(&self.den, &other.num);
        let zero = big_from_i64(0);
        if big_lt(&other.num, &zero) {
            let r = Rational { num: big_neg(&n), den: big_neg(&d) };
            proof {
                assert(-(self@.n * other@.d) == self@.n * -other@.d) by (nonlinear_arith);
                assert(-(self@.d * other@.n) == self@.d * -other@.n) by (nonlinear_arith);
                assert(self@.d > 0 && other@.n < 0 ==> self@.d * -other@.n > 0)
                    by (nonlinear_arith);
            }
            r
        } else {
            let r = Rational { num: n, den: d };
            proof {
                assert(self@.d > 0 && other@.n > 0 ==> self@.d * other@.n > 0)
                    by (nonlinear_arith);
            }
            r
        }
    }

    /// Whether the numerator is non-negative; for a well-formed rational this
    /// is exactly whether the value is non-negative.
    pub fn num_nonneg(&self) -> (r: bool)
        ensures
            r == (self@.n >= 0),
    {
        let zero = big_from_i64(0);
        !big_lt(&self.num, &zero)
    }

    /// Whether the numerator is strictly positive; for a well-formed rational
    /// this is exactly whether the value is strictly positive.
    pub fn is_pos(&self) -> (r: bool)
        ensures
            r == (self@.n > 0),
    {
        let zero = big_from_i64(0);
        big_lt(&zero, &self.num)
    }

    /// The numerator and denominator as big integers.
    pub(crate) fn parts(&self) -> (r: (num_bigint::BigInt, num_bigint::BigInt))
        ensures
            big(r.0) == self@.n,
            big(r.1) == self@.d,
    {
        (big_clone(&self.num), big_clone(&self.den))
    }

    /// Whether the numerator is zero; for a well-formed rational this is
    /// exactly whether the value is zero.
    pub fn num_is_zero(&self) -> (r: bool)
        ensures
            r == (self@.n == 0),
    {
        let zero = big_from_i64(0);
        big_eq(&self.num, &zero)
    }

    pub fn le(&self, other: &Rational) -> (r: bool)
        ensures
            r == r_le(self@, other@),
    {
        !big_lt(&big_mul(&other.num, &self.den), &big_mul(&self.num, &other.den))
    }

    pub fn lt(&self, other: &Rational) -> (r: bool)
        ensures
            r == r_lt(self@, other@),
    {
        big_lt(&big_mul(&self.num, &other.den), &big_mul(&other.num, &self.den))
    }

    pub fn eqv(&self, other: &Rational) -> (r: bool)
        ensures
            r == r_eq(self@, other@),
    {
        big_eq(&big_mul(&self.num, &other.den), &big_mul(&other.num, &self.den))
    }

    /// The absolute value.
    pub fn abs(&self) -> (r: Rational)
        ensures
            r@ == r_abs(self@),
            r_wf(self@) ==> r_wf(r@),
    {
        if self.num_nonneg() {
            self.dup()
        } else {
            self.neg()
        }
    }

    /// The same number in lowest terms (up to the common divisor returned by
    /// the gcd), keeping the representation small.
    pub fn reduced(&self) -> (r: Rational)
        requires
            r_wf(self@),
        ensures
            r_wf(r@),
            r_eq(r@, self@),
    {
        let g = big_gcd(&self.num, &self.den);
        let n2 = big_div_floor(&self.num, &g);
        let d2 = big_div_floor(&self.den, &g);
        let r = Rational { num: n2, den: d2 };
        proof {
            let gv = big(g);
            let kn = choose|k: int| big(self.num) == #[trigger] (k * gv);
            let kd = choose|k: int| big(self.den) == #[trigger] (k * gv);
            assert(big(n2) == kn) by (nonlinear_arith)
                requires
                    big(self.num) == kn * gv,
                    gv > 0,
                    big(n2) * gv <= big(self.num),
                    big(self.num) < (big(n2) + 1) * gv,
            ;
            assert(big(d2) == kd) by (nonlinear_arith)
                requires
                    big(self.den) == kd * gv,
                    gv > 0,
                    big(d2) * gv <= big(self.den),
                    big(self.den) < (big(d2) + 1) * gv,
            ;
            assert(kd > 0) by (nonlinear_arith)
                requires
                    kd * gv > 0,
                    gv > 0,
            ;
            assert(kn * (kd * gv) == (kn * gv) * kd) by (nonlinear_arith);
        }
        r
    }

    /// The largest multiple of `1 / scale` that is at most `self`, as a
    /// rational with denominator exactly `scale`.
    pub fn grid_floor(&self, scale: i64) -> (r: Rational)
        requires
            r_wf(self@),
            scale > 0,
        ensures
            r_wf(r@),
            r@.d == scale as int,
            r@.n * self@.d <= self@.n * (scale as int),
            self@.n * (scale as int) < (r@.n + 1) * self@.d,
    {
        let s = big_from_i64(scale);
        let n2 = big_div_floor(&big_mul(&self.num, &s), &self.den);
        Rational { num: n2, den: s }
    }
}

} // verus!
