//! Sums, dot products and normalization over vectors of rationals, with the
//! algebra connecting them: scaling a vector scales its sum and its dot
//! products, which is what makes every solver's weights sum to one.

use vstd::prelude::*;
use vstd::arithmetic::mul::{lemma_mul_strictly_positive, lemma_mul_nonnegative};
use crate::rational::{Ratio, Rational, r_wf, rz, r_eq, r_add, r_mul, r_div, r_inv,
    lemma_add_cong, lemma_mul_distributes, lemma_mul_inv, lemma_req_trans};

verus! {

/// The ratios denoted by a sequence of rationals.
pub open spec fn vals(s: Seq<Rational>) -> Seq<Ratio> {
    s.map_values(|x: Rational| x@)
}

pub open spec fn all_wf(s: Seq<Ratio>) -> bool {
    forall|i: int| 0 <= i < s.len() ==> r_wf(#[trigger] s[i])
}

/// Left-to-right sum of a sequence of ratios.
pub open spec fn r_sum(s: Seq<Ratio>) -> Ratio
    decreases s.len(),
{
    if s.len() == 0 {
        rz(0)
    } else {
        r_add(r_sum(s.drop_last()), s.last())
    }
}

/// Dot product of two equally long sequences of ratios.
pub open spec fn r_dot(a: Seq<Ratio>, b: Seq<Ratio>) -> Ratio
    decreases a.len(),
{
    if a.len() == 0 {
        rz(0)
    } else {
        r_add(r_dot(a.drop_last(), b.drop_last()), r_mul(a.last(), b.last()))
    }
}

/// Every element scaled by `k`.
pub open spec fn scaled(s: Seq<Ratio>, k: Ratio) -> Seq<Ratio> {
    s.map_values(|x: Ratio| r_mul(x, k))
}

/// A sum of well-formed ratios is well-formed.
pub proof fn lemma_sum_wf(s: Seq<Ratio>)
    requires
        all_wf(s),
    ensures
        r_wf(r_sum(s)),
    decreases s.len(),
{
    if s.len() > 0 {
        lemma_sum_wf(s.drop_last());
        lemma_mul_strictly_positive(r_sum(s.drop_last()).d, s.last().d);
    }
}

/// A sum of well-formed, non-negative ratios has a non-negative numerator.
pub proof fn lemma_sum_nonneg(s: Seq<Ratio>)
    requires
        all_wf(s),
        forall|i: int| 0 <= i < s.len() ==> (#[trigger] s[i]).n >= 0,
    ensures
        r_sum(s).n >= 0,
    decreases s.len(),
{
    if s.len() > 0 {
        lemma_sum_nonneg(s.drop_last());
        lemma_sum_wf(s.drop_last());
        lemma_mul_nonnegative(r_sum(s.drop_last()).n, s.last().d);
        lemma_mul_nonnegative(s.last().n, r_sum(s.drop_last()).d);
    }
}

/// A dot product of well-formed ratios is well-formed.
pub proof fn lemma_dot_wf(a: Seq<Ratio>, b: Seq<Ratio>)
    requires
        a.len() == b.len(),
        all_wf(a),
        all_wf(b),
    ensures
        r_wf(r_dot(a, b)),
    decreases a.len(),
{
    if a.len() > 0 {
        lemma_dot_wf(a.drop_last(), b.drop_last());
        lemma_mul_strictly_positive(a.last().d, b.last().d);
        lemma_mul_strictly_positive(r_dot(a.drop_last(), b.drop_last()).d,
            (r_mul(a.last(), b.last())).d);
    }
}

/// Scaling every element of a vector scales its sum.
pub proof fn lemma_sum_scale(s: Seq<Ratio>, k: Ratio)
    requires
        all_wf(s),
        r_wf(k),
    ensures
        r_eq(r_sum(scaled(s, k)), r_mul(r_sum(s), k)),
    decreases s.len(),
{
    if s.len() == 0 {
        assert(r_sum(scaled(s, k)) == rz(0));
        assert(0 * (1 * k.d) == (0 * k.n) * 1) by (nonlinear_arith);
        assert(r_eq(r_sum(scaled(s, k)), r_mul(r_sum(s), k)));
    } else {
        let s0 = s.drop_last();
        assert(scaled(s, k).drop_last() =~= scaled(s0, k));
        assert(scaled(s, k).last() == r_mul(s.last(), k));
        assert(scaled(s, k).len() == s.len());
        assert(r_sum(scaled(s, k)) == r_add(r_sum(scaled(s0, k)), r_mul(s.last(), k)));
        assert(r_sum(s) == r_add(r_sum(s0), s.last()));
        lemma_sum_scale(s0, k);
        lemma_sum_wf(s0);
        lemma_add_cong(r_sum(scaled(s0, k)), r_mul(r_sum(s0), k),
            r_mul(s.last(), k), r_mul(s.last(), k));
        lemma_mul_distributes(r_sum(s0), s.last(), k);
        let mid = r_add(r_mul(r_sum(s0), k), r_mul(s.last(), k));
        assert(r_eq(r_sum(scaled(s, k)), mid));
        assert(r_eq(mid, r_mul(r_sum(s), k)));
        lemma_mul_strictly_positive(r_sum(s0).d, k.d);
        lemma_mul_strictly_positive(s.last().d, k.d);
        lemma_mul_strictly_positive(r_sum(s0).d * k.d, s.last().d * k.d);
        assert(mid.d != 0);
        lemma_req_trans(r_sum(scaled(s, k)), mid, r_mul(r_sum(s), k));
        assert(r_eq(r_sum(scaled(s, k)), r_mul(r_sum(s), k)));
    }
}

/// Scaling the right-hand vector of a dot product scales the dot product.
pub proof fn lemma_dot_scale(a: Seq<Ratio>, b: Seq<Ratio>, k: Ratio)
    requires
        a.len() == b.len(),
        all_wf(a),
        all_wf(b),
        r_wf(k),
    ensures
        r_eq(r_dot(a, scaled(b, k)), r_mul(r_dot(a, b), k)),
    decreases a.len(),
{
    if a.len() == 0 {
        assert(r_dot(a, scaled(b, k)) == rz(0));
        assert(0 * (1 * k.d) == (0 * k.n) * 1) by (nonlinear_arith);
        assert(r_eq(r_dot(a, scaled(b, k)), r_mul(r_dot(a, b), k)));
    } else {
        let a0 = a.drop_last();
        let b0 = b.drop_last();
        assert(scaled(b, k).drop_last() =~= scaled(b0, k));
        assert(scaled(b, k).last() == r_mul(b.last(), k));
        assert(scaled(b, k).len() == b.len());
        assert(r_dot(a, scaled(b, k))
            == r_add(r_dot(a0, scaled(b0, k)), r_mul(a.last(), r_mul(b.last(), k))));
        assert(r_dot(a, b) == r_add(r_dot(a0, b0), r_mul(a.last(), b.last())));
        lemma_dot_scale(a0, b0, k);
        lemma_dot_wf(a0, b0);
        // r_mul(a.last(), r_mul(b.last(), k)) == r_mul(r_mul(a.last(), b.last()), k)
        // holds by associativity of the integer products in both fields.
        vstd::arithmetic::mul::lemma_mul_is_associative(a.last().n, b.last().n, k.n);
        vstd::arithmetic::mul::lemma_mul_is_associative(a.last().d, b.last().d, k.d);
        assert(r_mul(a.last(), r_mul(b.last(), k)) == r_mul(r_mul(a.last(), b.last()), k));
        lemma_add_cong(r_dot(a0, scaled(b0, k)), r_mul(r_dot(a0, b0), k),
            r_mul(r_mul(a.last(), b.last()), k), r_mul(r_mul(a.last(), b.last()), k));
        lemma_mul_distributes(r_dot(a0, b0), r_mul(a.last(), b.last()), k);
        let mid = r_add(r_mul(r_dot(a0, b0), k), r_mul(r_mul(a.last(), b.last()), k));
        assert(r_eq(r_dot(a, scaled(b, k)), mid));
        assert(r_eq(mid, r_mul(r_dot(a, b), k)));
        lemma_mul_strictly_positive(r_dot(a0, b0).d, k.d);
        lemma_mul_strictly_positive(a.last().d, b.last().d);
        lemma_mul_strictly_positive(r_mul(a.last(), b.last()).d, k.d);
        lemma_mul_strictly_positive(r_mul(r_dot(a0, b0), k).d, r_mul(r_mul(a.last(), b.last()), k).d);
        assert(mid.d != 0);
        lemma_req_trans(r_dot(a, scaled(b, k)), mid, r_mul(r_dot(a, b), k));
    }
}

/// Sum of a vector of rationals.
pub fn sum_vec(v: &Vec<Rational>) -> (r: Rational)
    ensures
        r@ == r_sum(vals(v@)),
        all_wf(vals(v@)) ==> r_wf(r@),
{
    let ghost s = vals(v@);
    let mut acc = Rational::from_int(0);
    let mut i: usize = 0;
    while i < v.len()
        invariant
            0 <= i <= v.len(),
            s == vals(v@),
            acc@ == r_sum(s.take(i as int)),
            all_wf(s.take(i as int)) ==> r_wf(acc@),
        decreases v.len() - i,
    {
        let next = acc.add(&v[i]);
        proof {
            assert(s.take(i + 1).drop_last() =~= s.take(i as int));
            assert(s.take(i + 1).last() == v@[i as int]@);
            assert(all_wf(s.take(i + 1)) ==> all_wf(s.take(i as int)) && r_wf(s[i as int]));
        }
        acc = next;
        i += 1;
    }
    proof {
        assert(s.take(v@.len() as int) =~= s);
    }
    acc
}

/// Dot product of two equally long vectors of rationals.
pub fn dot_vec(a: &Vec<Rational>, b: &Vec<Rational>) -> (r: Rational)
    requires
        a@.len() == b@.len(),
    ensures
        r@ == r_dot(vals(a@), vals(b@)),
        all_wf(vals(a@)) && all_wf(vals(b@)) ==> r_wf(r@),
{
    let ghost sa = vals(a@);
    let ghost sb = vals(b@);
    let mut acc = Rational::from_int(0);
    let mut i: usize = 0;
    while i < a.len()
        invariant
            0 <= i <= a.len(),
            a@.len() == b@.len(),
            sa == vals(a@),
            sb == vals(b@),
            acc@ == r_dot(sa.take(i as int), sb.take(i as int)),
            all_wf(sa.take(i as int)) && all_wf(sb.take(i as int)) ==> r_wf(acc@),
        decreases a.len() - i,
    {
        let term = a[i].mul(&b[i]);
        let next = acc.add(&term);
        proof {
            assert(sa.take(i + 1).drop_last() =~= sa.take(i as int));
            assert(sb.take(i + 1).drop_last() =~= sb.take(i as int));
            assert(sa.take(i + 1).last() == a@[i as int]@);
            assert(sb.take(i + 1).last() == b@[i as int]@);
            assert(all_wf(sa.take(i + 1)) ==> all_wf(sa.take(i as int)) && r_wf(sa[i as int]));
            assert(all_wf(sb.take(i + 1)) ==> all_wf(sb.take(i as int)) && r_wf(sb[i as int]));
        }
        acc = next;
        i += 1;
    }
    proof {
        assert(sa.take(a@.len() as int) =~= sa);
        assert(sb.take(b@.len() as int) =~= sb);
    }
    acc
}

/// Every element divided by `s`.
pub fn scale_div(v: &Vec<Rational>, s: &Rational) -> (r: Vec<Rational>)
    requires
        s@.n != 0,
    ensures
        r@.len() == v@.len(),
        forall|i: int| 0 <= i < v@.len() ==> r@[i]@ == r_div(v@[i]@, s@),
        forall|i: int|
            0 <= i < v@.len() && r_wf(v@[i]@) ==> r_wf(#[trigger] r@[i]@),
{
    let mut out: Vec<Rational> = Vec::new();
    let mut i: usize = 0;
    while i < v.len()
        invariant
            0 <= i <= v.len(),
            s@.n != 0,
            out@.len() == i,
            forall|j: int| 0 <= j < i ==> out@[j]@ == r_div(v@[j]@, s@),
            forall|j: int|
                0 <= j < i && r_wf(v@[j]@) ==> r_wf(#[trigger] out@[j]@),
        decreases v.len() - i,
    {
        out.push(v[i].div(s));
        i += 1;
    }
    out
}

/// Divides a vector by its own sum, so that the result sums to one; fails
/// exactly when the sum is zero.
pub fn normalize(v: &Vec<Rational>) -> (r: Option<Vec<Rational>>)
    requires
        all_wf(vals(v@)),
    ensures
        match r {
            Some(w) => {
                &&& r_sum(vals(v@)).n != 0
                &&& w@.len() == v@.len()
                &&& forall|i: int| 0 <= i < v@.len() ==> w@[i]@ == r_div(v@[i]@, r_sum(vals(v@)))
                &&& all_wf(vals(w@))
                &&& r_eq(r_sum(vals(w@)), rz(1))
            },
            None => r_sum(vals(v@)).n == 0,
        },
{
    let s = sum_vec(v);
    if s.num_is_zero() {
        return None;
    }
    let w = scale_div(v, &s);
    proof {
        let sv = vals(v@);
        let total = r_sum(sv);
        let k = r_inv(total);
        assert(r_wf(k));
        assert(vals(w@) =~= scaled(sv, k));
        lemma_sum_scale(sv, k);
        lemma_mul_inv(total);
        lemma_sum_wf(sv);
        lemma_mul_strictly_positive(total.d, k.d);
        lemma_req_trans(r_sum(vals(w@)), r_mul(total, k), rz(1));
        assert(forall|i: int| 0 <= i < v@.len() ==> r_wf(#[trigger] vals(w@)[i]));
    }
    Some(w)
}

} // verus!
