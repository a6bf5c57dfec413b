//! The five allocation algorithms: unconstrained minimum-variance, long-only
//! minimum-variance, inverse-volatility risk parity, long-only maximum-Sharpe
//! tangency, and iterative equal-risk-contribution. Each returns a weight
//! vector that provably sums to one, or a structured infeasibility error.

use vstd::prelude::*;
use vstd::arithmetic::mul::{lemma_mul_nonnegative, lemma_mul_strictly_positive};
use crate::bignum::{big, big_from_i64, big_add, big_mul, big_lt, big_div_floor};
use crate::rational::{Ratio, Rational, r_wf, rz, r_eq, r_lt, r_add, r_sub, r_mul, r_div};
use crate::vecops::{vals, all_wf, r_sum, r_dot, normalize, dot_vec};
use crate::series::{mat_vals, mat_wf};
use crate::linsys::{is_solution, solve_linear};

verus! {

/// Why an allocation could not be produced. `SingularCovariance` and
/// `Infeasible` are the numerical-infeasibility class: the input was well
/// formed, but the requested allocation has no solution under its constraint.
#[derive(Debug, PartialEq, Eq, Structural)]
pub enum SolverError {
    /// The covariance matrix admitted no usable pivot during elimination.
    SingularCovariance,
    /// A weight vector could not be renormalized: the projected or solved
    /// weights sum to zero (for long-only variants, all weights were
    /// non-positive after the clamp).
    Infeasible,
    /// Inverse-volatility weighting needs every per-asset variance to be
    /// strictly positive.
    NonPositiveVariance,
    /// The equal-risk-contribution update would divide by a vanished
    /// per-asset risk contribution.
    ZeroRiskContribution,
}

/// The all-ones right-hand side of the minimum-variance system.
pub open spec fn ones_spec(n: int) -> Seq<Ratio> {
    Seq::new(n as nat, |i: int| rz(1))
}

/// The long-only projection: negative entries are replaced by zero.
pub open spec fn clamped(s: Seq<Ratio>) -> Seq<Ratio> {
    s.map_values(|x: Ratio| if 0 <= x.n { x } else { rz(0) })
}

/// Per-asset excess returns over the per-period risk-free rate `rf / 252`.
pub open spec fn excess_spec(mu: Seq<Ratio>, rf: Ratio) -> Seq<Ratio> {
    mu.map_values(|x: Ratio| r_sub(x, r_div(rf, rz(252))))
}

/// `q` is the floor of `num / den`, for positive `den`.
pub open spec fn is_floor_div(num: int, den: int, q: int) -> bool {
    q * den <= num < (q + 1) * den
}

/// `r` is the integer square root (floor) of `x`.
pub open spec fn is_isqrt(x: int, r: int) -> bool {
    0 <= r && r * r <= x && x < (r + 1) * (r + 1)
}

/// A vector of `n` ones.
fn ones(n: usize) -> (r: Vec<Rational>)
    ensures
        r@.len() == n,
        vals(r@) == ones_spec(n as int),
        all_wf(vals(r@)),
{
    let mut out: Vec<Rational> = Vec::new();
    let mut i: usize = 0;
    while i < n
        invariant
            0 <= i <= n,
            out@.len() == i,
            forall|t: int| 0 <= t < i ==> (#[trigger] vals(out@)[t]) == rz(1),
        decreases n - i,
    {
        let one = Rational::from_int(1);
        let ghost old_out = out@;
        out.push(one);
        proof {
            assert(forall|t: int| 0 <= t < i
                ==> #[trigger] vals(out@)[t] == vals(old_out)[t]);
            assert(vals(out@)[i as int] == rz(1));
        }
        i += 1;
    }
    proof {
        assert(vals(out@) =~= ones_spec(n as int));
    }
    out
}

/// The long-only projection as an explicit, named step: clamp negative
/// entries to zero (the survivors are rescaled separately).
pub fn clamp_nonneg(w: &Vec<Rational>) -> (r: Vec<Rational>)
    ensures
        r@.len() == w@.len(),
        vals(r@) == clamped(vals(w@)),
        all_wf(vals(w@)) ==> all_wf(vals(r@)),
{
    let mut out: Vec<Rational> = Vec::new();
    let mut i: usize = 0;
    while i < w.len()
        invariant
            0 <= i <= w@.len(),
            out@.len() == i,
            forall|t: int| 0 <= t < i ==> (#[trigger] vals(out@)[t]) == clamped(vals(w@))[t],
            forall|t: int| 0 <= t < i && r_wf(vals(w@)[t]) ==> r_wf(#[trigger] vals(out@)[t]),
        decreases w@.len() - i,
    {
        let entry = if w[i].num_nonneg() {
            w[i].dup()
        } else {
            Rational::from_int(0)
        };
        let ghost old_out = out@;
        out.push(entry);
        proof {
            assert(forall|t: int| 0 <= t < i
                ==> #[trigger] vals(out@)[t] == vals(old_out)[t]);
            assert(vals(out@)[i as int] == entry@);
            assert(clamped(vals(w@))[i as int]
                == (if 0 <= vals(w@)[i as int].n { vals(w@)[i as int] } else { rz(0) }));
        }
        i += 1;
    }
    proof {
        assert(vals(out@) =~= clamped(vals(w@)));
    }
    out
}

/// Minimum-variance weights, unconstrained: solve `cov * x = 1` and rescale
/// the solution to sum to one. Short positions (negative weights) may occur.
pub fn min_variance(cov: &Vec<Vec<Rational>>) -> (r: Result<Vec<Rational>, SolverError>)
    requires
        mat_wf(mat_vals(cov@), cov@.len() as int),
    ensures
        match r {
            Ok(w) => {
                &&& w@.len() == cov@.len()
                &&& all_wf(vals(w@))
                &&& r_eq(r_sum(vals(w@)), rz(1))
                &&& exists|c: Ratio| r_wf(c) && forall|i: int| 0 <= i < cov@.len()
                    ==> r_eq(r_dot(#[trigger] mat_vals(cov@)[i], vals(w@)), c)
                &&& exists|x: Seq<Ratio>|
                    {
                        &&& is_solution(mat_vals(cov@), x, ones_spec(cov@.len() as int))
                        &&& x.len() == cov@.len()
                        &&& r_sum(x).n != 0
                        &&& forall|i: int| 0 <= i < x.len()
                            ==> vals(w@)[i] == r_div(#[trigger] x[i], r_sum(x))
                    }
            },
            Err(e) => {
                if e == SolverError::Infeasible {
                    exists|x: Seq<Ratio>|
                        {
                            &&& is_solution(mat_vals(cov@), x, ones_spec(cov@.len() as int))
                            &&& x.len() == cov@.len()
                            &&& r_sum(x).n == 0
                        }
                } else {
                    e == SolverError::SingularCovariance
                }
            },
        },
{
    let b = ones(cov.len());
    match solve_linear(cov, &b) {
        None => Err(SolverError::SingularCovariance),
        Some(x) => {
            match normalize(&x) {
                None => {
                    proof {
                        assert(is_solution(mat_vals(cov@), vals(x@),
                            ones_spec(cov@.len() as int)));
                    }
                    Err(SolverError::Infeasible)
                },
                Some(w) => {
                    proof {
                        let xv = vals(x@);
                        assert(is_solution(mat_vals(cov@), xv, ones_spec(cov@.len() as int)));
                        let s = r_sum(xv);
                        let k = crate::rational::r_inv(s);
                        assert(r_wf(k));
                        assert(vals(w@) =~= crate::vecops::scaled(xv, k));
                        let c = crate::rational::r_mul(rz(1), k);
                        assert forall|i: int| 0 <= i < cov@.len()
                            implies r_eq(r_dot(#[trigger] mat_vals(cov@)[i], vals(w@)), c) by {
                            let row = mat_vals(cov@)[i];
                            assert(row == vals(cov@[i]@));
                            assert(row.len() == xv.len());
                            crate::vecops::lemma_dot_scale(row, xv, k);
                            assert(r_eq(r_dot(row, xv), ones_spec(cov@.len() as int)[i]));
                            crate::rational::lemma_mul_cong(r_dot(row, xv), rz(1), k, k);
                            crate::vecops::lemma_dot_wf(row, xv);
                            lemma_mul_strictly_positive(r_dot(row, xv).d, k.d);
                            crate::rational::lemma_req_trans(r_dot(row, vals(w@)),
                                crate::rational::r_mul(r_dot(row, xv), k), c);
                        }
                        assert(r_wf(c) && forall|i: int| 0 <= i < cov@.len()
                            ==> r_eq(r_dot(#[trigger] mat_vals(cov@)[i], vals(w@)), c));
                    }
                    Ok(w)
                },
            }
        },
    }
}

/// Minimum-variance weights under a long-only constraint: the unconstrained
/// solution is projected by clamp-and-renormalize. This is a heuristic
/// projection, not the constrained optimum: it zeroes negative entries and
/// rescales the survivors rather than re-solving under the constraint.
pub fn min_variance_long(cov: &Vec<Vec<Rational>>) -> (r: Result<Vec<Rational>, SolverError>)
    requires
        mat_wf(mat_vals(cov@), cov@.len() as int),
    ensures
        match r {
            Ok(w) => {
                &&& w@.len() == cov@.len()
                &&& all_wf(vals(w@))
                &&& r_eq(r_sum(vals(w@)), rz(1))
                &&& forall|i: int| 0 <= i < w@.len() ==> (#[trigger] vals(w@)[i]).n >= 0
                &&& exists|x: Seq<Ratio>|
                    {
                        &&& is_solution(mat_vals(cov@), x, ones_spec(cov@.len() as int))
                        &&& x.len() == cov@.len()
                        &&& r_sum(clamped(x)).n != 0
                        &&& forall|i: int| 0 <= i < x.len()
                            ==> vals(w@)[i] == r_div(#[trigger] clamped(x)[i], r_sum(clamped(x)))
                    }
            },
            Err(e) => {
                if e == SolverError::Infeasible {
                    exists|x: Seq<Ratio>|
                        {
                            &&& is_solution(mat_vals(cov@), x, ones_spec(cov@.len() as int))
                            &&& x.len() == cov@.len()
                            &&& r_sum(clamped(x)).n == 0
                        }
                } else {
                    e == SolverError::SingularCovariance
                }
            },
        },
{
    let b = ones(cov.len());
    match solve_linear(cov, &b) {
        None => Err(SolverError::SingularCovariance),
        Some(x) => {
            let cl = clamp_nonneg(&x);
            match normalize(&cl) {
                None => {
                    proof {
                        assert(is_solution(mat_vals(cov@), vals(x@),
                            ones_spec(cov@.len() as int)));
                        assert(vals(cl@) == clamped(vals(x@)));
                    }
                    Err(SolverError::Infeasible)
                },
                Some(w) => {
                    proof {
                        let ghost xv = vals(x@);
                        let ghost cv = clamped(xv);
                        let ghost s = r_sum(cv);
                        assert forall|i: int| 0 <= i < cv.len()
                            implies r_wf(#[trigger] cv[i]) && cv[i].n >= 0 by {
                            assert(r_wf(xv[i]));
                        }
                        crate::vecops::lemma_sum_nonneg(cv);
                        crate::vecops::lemma_sum_wf(cv);
                        assert forall|i: int| 0 <= i < w@.len()
                            implies (#[trigger] vals(w@)[i]).n >= 0 by {
                            assert(vals(w@)[i] == r_div(cv[i], s));
                            assert(vals(w@)[i].n == cv[i].n * s.d);
                            lemma_mul_nonnegative(cv[i].n, s.d);
                        }
                    }
                    Ok(w)
                },
            }
        },
    }
}

/// Long-only maximum-Sharpe (tangency) weights: solve `cov * x = mu - rf/252`
/// and project by the same clamp-and-renormalize heuristic as the long-only
/// minimum-variance variant.
pub fn max_sharpe_long(cov: &Vec<Vec<Rational>>, means: &Vec<Rational>, risk_free: &Rational)
    -> (r: Result<Vec<Rational>, SolverError>)
    requires
        mat_wf(mat_vals(cov@), cov@.len() as int),
        means@.len() == cov@.len(),
        all_wf(vals(means@)),
        r_wf(risk_free@),
    ensures
        match r {
            Ok(w) => {
                &&& w@.len() == cov@.len()
                &&& all_wf(vals(w@))
                &&& r_eq(r_sum(vals(w@)), rz(1))
                &&& forall|i: int| 0 <= i < w@.len() ==> (#[trigger] vals(w@)[i]).n >= 0
                &&& exists|x: Seq<Ratio>|
                    {
                        &&& is_solution(mat_vals(cov@), x, excess_spec(vals(means@), risk_free@))
                        &&& x.len() == cov@.len()
                        &&& r_sum(clamped(x)).n != 0
                        &&& forall|i: int| 0 <= i < x.len()
                            ==> vals(w@)[i] == r_div(#[trigger] clamped(x)[i], r_sum(clamped(x)))
                    }
            },
            Err(e) => {
                if e == SolverError::Infeasible {
                    exists|x: Seq<Ratio>|
                        {
                            &&& is_solution(mat_vals(cov@), x,
                                excess_spec(vals(means@), risk_free@))
                            &&& x.len() == cov@.len()
                            &&& r_sum(clamped(x)).n == 0
                        }
                } else {
                    e == SolverError::SingularCovariance
                }
            },
        },
{
    let rf_daily = risk_free.div(&Rational::from_int(252));
    let mut excess: Vec<Rational> = Vec::new();
    let mut i: usize = 0;
    while i < means.len()
        invariant
            0 <= i <= means@.len(),
            all_wf(vals(means@)),
            r_wf(risk_free@),
            rf_daily@ == r_div(risk_free@, rz(252)),
            r_wf(rf_daily@),
            excess@.len() == i,
            forall|t: int| 0 <= t < i
                ==> (#[trigger] vals(excess@)[t]) == excess_spec(vals(means@), risk_free@)[t],
            all_wf(vals(excess@)),
        decreases means@.len() - i,
    {
        proof {
            assert(r_wf(vals(means@)[i as int]));
        }
        let e = means[i].sub(&rf_daily);
        let ghost old_excess = excess@;
        excess.push(e);
        proof {
            assert(forall|t: int| 0 <= t < i
                ==> #[trigger] vals(excess@)[t] == vals(old_excess)[t]);
            assert(vals(excess@)[i as int] == e@);
        }
        i += 1;
    }
    proof {
        assert(vals(excess@) =~= excess_spec(vals(means@), risk_free@));
    }
    match solve_linear(cov, &excess) {
        None => Err(SolverError::SingularCovariance),
        Some(x) => {
            let cl = clamp_nonneg(&x);
            match normalize(&cl) {
                None => {
                    proof {
                        assert(is_solution(mat_vals(cov@), vals(x@),
                            excess_spec(vals(means@), risk_free@)));
                        assert(vals(cl@) == clamped(vals(x@)));
                    }
                    Err(SolverError::Infeasible)
                },
                Some(w) => {
                    proof {
                        let ghost xv = vals(x@);
                        let ghost cv = clamped(xv);
                        let ghost s = r_sum(cv);
                        assert forall|j: int| 0 <= j < cv.len()
                            implies r_wf(#[trigger] cv[j]) && cv[j].n >= 0 by {
                            assert(r_wf(xv[j]));
                        }
                        crate::vecops::lemma_sum_nonneg(cv);
                        crate::vecops::lemma_sum_wf(cv);
                        assert forall|j: int| 0 <= j < w@.len()
                            implies (#[trigger] vals(w@)[j]).n >= 0 by {
                            assert(vals(w@)[j] == r_div(cv[j], s));
                            assert(vals(w@)[j].n == cv[j].n * s.d);
                            lemma_mul_nonnegative(cv[j].n, s.d);
                        }
                    }
                    Ok(w)
                },
            }
        },
    }
}

/// Integer square root (floor) of a non-negative big integer, by bisection.
fn big_isqrt(x: &num_bigint::BigInt) -> (r: num_bigint::BigInt)
    requires
        big(*x) >= 0,
    ensures
        is_isqrt(big(*x), big(r)),
{
    let zero = big_from_i64(0);
    let one = big_from_i64(1);
    let two = big_from_i64(2);
    let mut lo = big_from_i64(0);
    let mut hi = big_add(x, &one);
    proof {
        let xv = big(*x);
        assert((xv + 1) * (xv + 1) > xv) by (nonlinear_arith)
            requires
                xv >= 0,
        ;
    }
    while big_lt(&big_add(&lo, &one), &hi)
        invariant
            big(*x) >= 0,
            0 <= big(lo) < big(hi),
            big(lo) * big(lo) <= big(*x),
            big(*x) < big(hi) * big(hi),
            big(one) == 1,
            big(two) == 2,
        decreases big(hi) - big(lo),
    {
        let mid = big_div_floor(&big_add(&lo, &hi), &two);
        proof {
            let l = big(lo);
            let h = big(hi);
            let m = big(mid);
            assert(l < m < h) by (nonlinear_arith)
                requires
                    m * 2 <= l + h,
                    l + h < (m + 1) * 2,
                    l + 1 < h,
                    0 <= l,
            ;
        }
        if !big_lt(x, &big_mul(&mid, &mid)) {
            lo = mid;
        } else {
            hi = mid;
        }
    }
    proof {
        assert(big(hi) == big(lo) + 1);
    }
    lo
}

/// Inverse-volatility risk parity: each weight is proportional to the
/// reciprocal of the asset's return volatility, taken from the covariance
/// diagonal alone. Cross-asset covariances are deliberately ignored; this is
/// the simple approximation, distinct from the iterative equal-risk
/// solver. Volatilities are irrational in general, so the reciprocal is
/// computed as the integer square root of `10^18 / variance`; the returned
/// weights are pinned exactly by that floor characterization.
pub fn risk_parity(cov: &Vec<Vec<Rational>>) -> (r: Result<Vec<Rational>, SolverError>)
    requires
        mat_wf(mat_vals(cov@), cov@.len() as int),
    ensures
        match r {
            Ok(w) => {
                &&& w@.len() == cov@.len()
                &&& all_wf(vals(w@))
                &&& r_eq(r_sum(vals(w@)), rz(1))
                &&& forall|i: int| 0 <= i < w@.len() ==> (#[trigger] vals(w@)[i]).n >= 0
                &&& (forall|j: int| 0 <= j < cov@.len()
                    ==> (#[trigger] mat_vals(cov@)[j][j]).n > 0)
                &&& exists|q: Seq<Ratio>|
                    {
                        &&& q.len() == cov@.len()
                        &&& (forall|j: int| 0 <= j < q.len()
                            ==> (#[trigger] q[j]).d == 1
                                && 0 <= q[j].n
                                && exists|t: int|
                                    is_floor_div(
                                        1000000000000000000 * mat_vals(cov@)[j][j].d,
                                        mat_vals(cov@)[j][j].n, t)
                                    && is_isqrt(t, q[j].n))
                        &&& r_sum(q).n != 0
                        &&& forall|i: int| 0 <= i < q.len()
                            ==> vals(w@)[i] == r_div(#[trigger] q[i], r_sum(q))
                    }
            },
            Err(e) => {
                if e == SolverError::NonPositiveVariance {
                    exists|j: int| 0 <= j < cov@.len()
                        && (#[trigger] mat_vals(cov@)[j][j]).n <= 0
                } else {
                    e == SolverError::Infeasible && exists|q: Seq<Ratio>|
                        {
                            &&& q.len() == cov@.len()
                            &&& (forall|j: int| 0 <= j < q.len()
                                ==> (#[trigger] q[j]).d == 1
                                    && 0 <= q[j].n
                                    && exists|t: int|
                                        is_floor_div(
                                            1000000000000000000 * mat_vals(cov@)[j][j].d,
                                            mat_vals(cov@)[j][j].n, t)
                                        && is_isqrt(t, q[j].n))
                            &&& r_sum(q).n == 0
                        }
                }
            },
        },
{
    let m = cov.len();
    let scale_sq = big_from_i64(1000000000000000000);
    let mut inv_vols: Vec<Rational> = Vec::new();
    let mut j: usize = 0;
    while j < m
        invariant
            0 <= j <= m,
            m == cov@.len(),
            mat_wf(mat_vals(cov@), m as int),
            big(scale_sq) == 1000000000000000000,
            inv_vols@.len() == j,
            forall|t: int| 0 <= t < j
                ==> (#[trigger] mat_vals(cov@)[t][t]).n > 0,
            forall|t: int| 0 <= t < j
                ==> (#[trigger] vals(inv_vols@)[t]).d == 1
                    && 0 <= vals(inv_vols@)[t].n
                    && exists|u: int|
                        is_floor_div(1000000000000000000 * mat_vals(cov@)[t][t].d,
                            mat_vals(cov@)[t][t].n, u)
                        && is_isqrt(u, vals(inv_vols@)[t].n),
        decreases m - j,
    {
        proof {
            assert(mat_vals(cov@)[j as int] == vals(cov@[j as int]@));
            assert(r_wf(vals(cov@[j as int]@)[j as int]));
        }
        let var = &cov[j][j];
        if !var.is_pos() {
            return Err(SolverError::NonPositiveVariance);
        }
        let (vnum, vden) = var.parts();
        let t = big_div_floor(&big_mul(&scale_sq, &vden), &vnum);
        proof {
            let tv = big(t);
            let nv = big(vnum);
            let dv = big(vden);
            assert(tv >= 0) by (nonlinear_arith)
                requires
                    tv * nv <= 1000000000000000000 * dv,
                    1000000000000000000 * dv < (tv + 1) * nv,
                    nv > 0,
                    dv > 0,
            ;
        }
        let u = big_isqrt(&t);
        proof {
            assert(is_floor_div(1000000000000000000 * mat_vals(cov@)[j as int][j as int].d,
                mat_vals(cov@)[j as int][j as int].n, big(t)));
            assert(is_isqrt(big(t), big(u)));
        }
        let entry = Rational::from_bigint(u);
        let ghost old_iv = inv_vols@;
        inv_vols.push(entry);
        proof {
            assert(forall|t2: int| 0 <= t2 < j
                ==> #[trigger] vals(inv_vols@)[t2] == vals(old_iv)[t2]);
            assert(vals(inv_vols@)[j as int] == entry@);
            assert(is_floor_div(1000000000000000000 * mat_vals(cov@)[j as int][j as int].d,
                mat_vals(cov@)[j as int][j as int].n, big(t))
                && is_isqrt(big(t), vals(inv_vols@)[j as int].n));
        }
        j += 1;
    }
    match normalize(&inv_vols) {
        None => {
            proof {
                assert(vals(inv_vols@).len() == cov@.len());
            }
            Err(SolverError::Infeasible)
        },
        Some(w) => {
            proof {
                let ghost q = vals(inv_vols@);
                let ghost s = r_sum(q);
                assert forall|i: int| 0 <= i < q.len()
                    implies r_wf(#[trigger] q[i]) && q[i].n >= 0 by {}
                crate::vecops::lemma_sum_nonneg(q);
                crate::vecops::lemma_sum_wf(q);
                assert forall|i: int| 0 <= i < w@.len()
                    implies (#[trigger] vals(w@)[i]).n >= 0 by {
                    assert(vals(w@)[i] == r_div(q[i], s));
                    assert(vals(w@)[i].n == q[i].n * s.d);
                    lemma_mul_nonnegative(q[i].n, s.d);
                }
            }
            Ok(w)
        },
    }
}

/// Floors taken with respect to equal positive rationals agree, and so do
/// the integer square roots taken of them.
proof fn lemma_floor_isqrt_respect_req(s: int, d1: Ratio, d2: Ratio, t1: int, t2: int,
    u1: int, u2: int)
    requires
        s > 0,
        r_wf(d1),
        r_wf(d2),
        d1.n > 0,
        d2.n > 0,
        r_eq(d1, d2),
        is_floor_div(s * d1.d, d1.n, t1),
        is_floor_div(s * d2.d, d2.n, t2),
        is_isqrt(t1, u1),
        is_isqrt(t2, u2),
    ensures
        t1 == t2,
        u1 == u2,
{
    let m = d1.n * d2.n;
    assert(m > 0) by (nonlinear_arith)
        requires
            d1.n > 0,
            d2.n > 0,
            m == d1.n * d2.n,
    ;
    assert(t1 * m <= (s * d1.d) * d2.n) by (nonlinear_arith)
        requires
            t1 * d1.n <= s * d1.d,
            d2.n > 0,
            m == d1.n * d2.n,
    ;
    assert((s * d1.d) * d2.n < (t1 + 1) * m) by (nonlinear_arith)
        requires
            s * d1.d < (t1 + 1) * d1.n,
            d2.n > 0,
            m == d1.n * d2.n,
    ;
    assert((s * d1.d) * d2.n == (s * d2.d) * d1.n) by (nonlinear_arith)
        requires
            d1.n * d2.d == d2.n * d1.d,
    ;
    assert(t2 * m <= (s * d2.d) * d1.n) by (nonlinear_arith)
        requires
            t2 * d2.n <= s * d2.d,
            d1.n > 0,
            m == d1.n * d2.n,
    ;
    assert((s * d2.d) * d1.n < (t2 + 1) * m) by (nonlinear_arith)
        requires
            s * d2.d < (t2 + 1) * d2.n,
            d1.n > 0,
            m == d1.n * d2.n,
    ;
    let x = (s * d1.d) * d2.n;
    assert(t1 == t2) by (nonlinear_arith)
        requires
            t1 * m <= x < (t1 + 1) * m,
            t2 * m <= x < (t2 + 1) * m,
            m > 0,
    ;
    assert(u1 == u2) by (nonlinear_arith)
        requires
            0 <= u1 && u1 * u1 <= t1 && t1 < (u1 + 1) * (u1 + 1),
            0 <= u2 && u2 * u2 <= t1 && t1 < (u2 + 1) * (u2 + 1),
    ;
}

/// The sum of identical integer ratios `u/1` is `len * u / 1`, exactly.
proof fn lemma_sum_equal_ints(q: Seq<Ratio>, u: int)
    requires
        forall|j: int| 0 <= j < q.len() ==> #[trigger] q[j] == (Ratio { n: u, d: 1 }),
    ensures
        crate::vecops::r_sum(q) == (Ratio { n: q.len() * u, d: 1 }),
    decreases q.len(),
{
    if q.len() == 0 {
        assert(0 * u == 0) by (nonlinear_arith);
    } else {
        lemma_sum_equal_ints(q.drop_last(), u);
        let k = q.len() - 1;
        assert((k * u) * 1 + u * 1 == (k + 1) * u) by (nonlinear_arith);
    }
}

/// The equal-weight degenerate case of inverse-volatility risk parity: when
/// every diagonal variance denotes the same value, the construction that
/// `risk_parity` promises in its postcondition forces all weights to be the
/// same rational — together with the promised sum of one, the equal-weight
/// vector `[1/n, ..., 1/n]`.
pub proof fn lemma_risk_parity_equal_weights(cov: Seq<Seq<Ratio>>, w: Seq<Ratio>, q: Seq<Ratio>)
    requires
        w.len() == cov.len(),
        q.len() == cov.len(),
        forall|j: int| 0 <= j < cov.len()
            ==> r_wf(#[trigger] cov[j][j]) && cov[j][j].n > 0,
        forall|i: int, j: int| 0 <= i < cov.len() && 0 <= j < cov.len()
            ==> r_eq(#[trigger] cov[i][i], #[trigger] cov[j][j]),
        forall|j: int| 0 <= j < q.len()
            ==> (#[trigger] q[j]).d == 1
                && 0 <= q[j].n
                && exists|t: int|
                    is_floor_div(1000000000000000000 * cov[j][j].d, cov[j][j].n, t)
                    && is_isqrt(t, q[j].n),
        forall|i: int| 0 <= i < q.len()
            ==> w[i] == r_div(#[trigger] q[i], crate::vecops::r_sum(q)),
    ensures
        forall|i: int, j: int| 0 <= i < w.len() && 0 <= j < w.len()
            ==> #[trigger] w[i] == #[trigger] w[j],
        crate::vecops::r_sum(q).n != 0 ==> forall|i: int| 0 <= i < w.len()
            ==> r_eq(#[trigger] w[i], Ratio { n: 1, d: w.len() as int }),
{
    assert forall|i: int, j: int| 0 <= i < q.len() && 0 <= j < q.len()
        implies #[trigger] q[i] == #[trigger] q[j] by {
        let ti = choose|t: int|
            is_floor_div(1000000000000000000 * cov[i][i].d, cov[i][i].n, t)
            && is_isqrt(t, q[i].n);
        let tj = choose|t: int|
            is_floor_div(1000000000000000000 * cov[j][j].d, cov[j][j].n, t)
            && is_isqrt(t, q[j].n);
        lemma_floor_isqrt_respect_req(1000000000000000000, cov[i][i], cov[j][j], ti, tj,
            q[i].n, q[j].n);
    }
    assert forall|i: int, j: int| 0 <= i < w.len() && 0 <= j < w.len()
        implies #[trigger] w[i] == #[trigger] w[j] by {
        assert(q[i] == q[j]);
    }
    if crate::vecops::r_sum(q).n != 0 && w.len() > 0 {
        let u = q[0].n;
        assert(forall|j: int| 0 <= j < q.len() ==> #[trigger] q[j] == (Ratio { n: u, d: 1 }));
        lemma_sum_equal_ints(q, u);
        let len = q.len() as int;
        assert(len * u != 0);
        assert(u != 0) by (nonlinear_arith)
            requires
                len * u != 0,
        ;
        assert(u > 0);
        assert(len * u > 0) by (nonlinear_arith)
            requires
                len > 0,
                u > 0,
        ;
        assert forall|i: int| 0 <= i < w.len()
            implies r_eq(#[trigger] w[i], Ratio { n: 1, d: w.len() as int }) by {
            assert(w[i] == r_div(q[i], Ratio { n: len * u, d: 1 }));
            assert(w[i] == (Ratio { n: u * 1, d: 1 * (len * u) }));
            assert((u * 1) * len == 1 * (1 * (len * u))) by (nonlinear_arith);
        }
    }
}

/// The result of the equal-risk-contribution iteration: best-effort weights,
/// the number of iterations used, whether the final step change fell below
/// the tolerance, and that final change.
pub struct ErcOutcome {
    pub weights: Vec<Rational>,
    pub iterations: usize,
    pub converged: bool,
    pub last_error: Rational,
}

/// The convergence tolerance of the equal-risk-contribution iteration.
pub open spec fn erc_tol() -> Ratio {
    Ratio { n: 1, d: 100000000 }
}

/// Equal-risk-contribution weights by multiplicative fixed-point scaling,
/// initialized at equal weights. Each step rescales every weight by
/// `target / (w_j * (cov w)_j)`, renormalizes, and stops when the largest
/// per-asset change drops below `1e-8`; after 1000 iterations the best-effort
/// result is returned flagged as non-converged rather than failing. To keep
/// the exact representations bounded, each step is rounded onto a `1e-12`
/// grid before renormalization. A vanished per-asset risk contribution
/// (possible for a covariance that is not positive semi-definite) is treated
/// as a fatal, distinct error rather than clamped.
/// One equal-risk rescaling step, before renormalization: each weight is
/// scaled by `target / (w_j * (cov w)_j)` with `target` the portfolio
/// variance over the number of assets, and rounded down onto the `1e-12`
/// grid that keeps the exact representations bounded.
pub open spec fn grid_spec(x: Ratio) -> Ratio {
    Ratio { n: (x.n * 1000000000000) / x.d, d: 1000000000000 }
}

pub open spec fn erc_step_spec(cov: Seq<Seq<Ratio>>, w: Seq<Ratio>) -> Seq<Ratio> {
    let s = Seq::new(w.len(), |i: int| r_dot(cov[i], w));
    let target = r_div(r_dot(w, s), rz(cov.len() as int));
    Seq::new(w.len(),
        |j: int| grid_spec(r_div(r_mul(w[j], target), r_mul(w[j], r_dot(cov[j], w)))))
}

/// The largest absolute per-asset difference between two weight vectors.
pub open spec fn max_change_spec(a: Seq<Ratio>, b: Seq<Ratio>) -> Ratio
    decreases a.len(),
{
    if a.len() == 0 {
        rz(0)
    } else {
        let m0 = max_change_spec(a.drop_last(), b.drop_last());
        let d = crate::rational::r_abs(r_sub(b.last(), a.last()));
        if r_lt(m0, d) {
            d
        } else {
            m0
        }
    }
}

/// The returned state is one rescaling step away from the valid predecessor
/// `prev`: the weights are the renormalized step of `prev`, and `err` is the
/// largest per-asset change the step made.
pub open spec fn erc_step_from(cov: Seq<Seq<Ratio>>, prev: Seq<Ratio>, w: Seq<Ratio>,
    err: Ratio) -> bool {
    let cand = erc_step_spec(cov, prev);
    &&& prev.len() == cov.len()
    &&& all_wf(prev)
    &&& r_eq(r_sum(prev), rz(1))
    &&& (forall|j: int| 0 <= j < cov.len()
        ==> (#[trigger] r_mul(prev[j], r_dot(cov[j], prev))).n != 0)
    &&& r_sum(cand).n != 0
    &&& w.len() == cov.len()
    &&& (forall|i: int| 0 <= i < cov.len() ==> w[i] == r_div(#[trigger] cand[i], r_sum(cand)))
    &&& err == max_change_spec(prev, w)
}

/// The equal-weight starting point of the iteration: a vector of ones,
/// normalized.
pub open spec fn erc_start(n: int) -> Seq<Ratio> {
    Seq::new(n as nat, |i: int| r_div(rz(1), r_sum(ones_spec(n))))
}

/// One full iteration: the rescaling step, renormalized.
pub open spec fn erc_next(cov: Seq<Seq<Ratio>>, w: Seq<Ratio>) -> Seq<Ratio> {
    let cand = erc_step_spec(cov, w);
    Seq::new(cand.len(), |i: int| r_div(cand[i], r_sum(cand)))
}

/// The iteration's state after `k` steps from the equal-weight start.
pub open spec fn erc_iterate(cov: Seq<Seq<Ratio>>, k: nat) -> Seq<Ratio>
    decreases k,
{
    if k == 0 {
        erc_start(cov.len() as int)
    } else {
        erc_next(cov, erc_iterate(cov, (k - 1) as nat))
    }
}

/// `b^k`.
pub open spec fn int_pow(b: int, k: nat) -> int
    decreases k,
{
    if k == 0 {
        1
    } else {
        b * int_pow(b, (k - 1) as nat)
    }
}

/// A covariance matrix whose diagonal entries are all the ratio `v` and
/// whose off-diagonal entries are all the ratio `z`.
pub open spec fn uniform_diag(cov: Seq<Seq<Ratio>>, v: Ratio, z: Ratio) -> bool {
    forall|i: int, j: int| 0 <= i < cov.len() && 0 <= j < cov.len()
        ==> #[trigger] cov[i][j] == (if i == j { v } else { z })
}

/// Dot of an all-`z` prefix (zero numerator) with a constant vector: the
/// numerator stays zero and the denominator is a power.
proof fn lemma_zero_prefix_dot(row: Seq<Ratio>, w: Seq<Ratio>, w0: Ratio, z: Ratio, ell: int)
    requires
        z.n == 0,
        0 <= ell <= row.len(),
        ell <= w.len(),
        forall|t: int| 0 <= t < ell ==> #[trigger] row[t] == z,
        forall|t: int| 0 <= t < w.len() ==> #[trigger] w[t] == w0,
    ensures
        r_dot(row.take(ell), w.take(ell))
            == (Ratio { n: 0, d: int_pow(z.d * w0.d, ell as nat) }),
    decreases ell,
{
    if ell == 0 {
        assert(row.take(0).len() == 0);
    } else {
        lemma_zero_prefix_dot(row, w, w0, z, ell - 1);
        assert(row.take(ell).drop_last() =~= row.take(ell - 1));
        assert(w.take(ell).drop_last() =~= w.take(ell - 1));
        assert(row.take(ell).last() == z);
        assert(w.take(ell).last() == w0);
        let zd = z.d * w0.d;
        let p = int_pow(zd, (ell - 1) as nat);
        assert(r_mul(z, w0) == (Ratio { n: 0 * w0.n, d: zd }));
        assert(0 * w0.n == 0) by (nonlinear_arith);
        assert(r_dot(row.take(ell), w.take(ell))
            == r_add(Ratio { n: 0, d: p }, Ratio { n: 0 * w0.n, d: zd }));
        assert(0 * zd + (0 * w0.n) * p == 0) by (nonlinear_arith);
        assert(int_pow(zd, ell as nat) == zd * p);
        assert(p * zd == zd * p) by (nonlinear_arith);
    }
}

/// Dot of a uniform-diagonal row with a constant vector: once the single
/// diagonal entry is included, the value has a closed form independent of
/// the row index.
proof fn lemma_uniform_row_dot(row: Seq<Ratio>, w: Seq<Ratio>, w0: Ratio, v: Ratio,
    z: Ratio, j: int, ell: int)
    requires
        z.n == 0,
        0 <= j < ell <= row.len(),
        ell <= w.len(),
        forall|t: int| 0 <= t < row.len() ==> #[trigger] row[t] == (if t == j { v } else { z }),
        forall|t: int| 0 <= t < w.len() ==> #[trigger] w[t] == w0,
    ensures
        r_dot(row.take(ell), w.take(ell))
            == (Ratio { n: (v.n * w0.n) * int_pow(z.d * w0.d, (ell - 1) as nat),
                d: (v.d * w0.d) * int_pow(z.d * w0.d, (ell - 1) as nat) }),
    decreases ell,
{
    let zd = z.d * w0.d;
    let vn = v.n * w0.n;
    let vd = v.d * w0.d;
    assert(row.take(ell).drop_last() =~= row.take(ell - 1));
    assert(w.take(ell).drop_last() =~= w.take(ell - 1));
    assert(w.take(ell).last() == w0);
    if ell - 1 == j {
        lemma_zero_prefix_dot(row, w, w0, z, j);
        assert(row.take(ell).last() == v);
        let p = int_pow(zd, j as nat);
        assert(r_dot(row.take(ell), w.take(ell))
            == r_add(Ratio { n: 0, d: p }, r_mul(v, w0)));
        assert(0 * vd + vn * p == vn * p) by (nonlinear_arith);
        assert(p * vd == vd * p) by (nonlinear_arith);
    } else {
        lemma_uniform_row_dot(row, w, w0, v, z, j, ell - 1);
        assert(row.take(ell).last() == z);
        let p = int_pow(zd, (ell - 2) as nat);
        assert(r_mul(z, w0) == (Ratio { n: 0 * w0.n, d: zd }));
        assert(r_dot(row.take(ell), w.take(ell))
            == r_add(Ratio { n: vn * p, d: vd * p }, Ratio { n: 0 * w0.n, d: zd }));
        assert(int_pow(zd, (ell - 1) as nat) == zd * p);
        assert((vn * p) * zd + (0 * w0.n) * (vd * p) == vn * (zd * p)) by (nonlinear_arith);
        assert((vd * p) * zd == vd * (zd * p)) by (nonlinear_arith);
    }
}

/// On a uniform-diagonal covariance, one full iteration maps a constant
/// weight vector to a constant weight vector.
proof fn lemma_erc_next_constant(cov: Seq<Seq<Ratio>>, w: Seq<Ratio>, w0: Ratio, v: Ratio,
    z: Ratio)
    requires
        uniform_diag(cov, v, z),
        z.n == 0,
        forall|i: int| 0 <= i < cov.len() ==> (#[trigger] cov[i]).len() == cov.len(),
        w.len() == cov.len(),
        w.len() >= 1,
        forall|t: int| 0 <= t < w.len() ==> #[trigger] w[t] == w0,
    ensures
        forall|a: int, b: int| 0 <= a < w.len() && 0 <= b < w.len()
            ==> #[trigger] erc_next(cov, w)[a] == #[trigger] erc_next(cov, w)[b],
        erc_next(cov, w).len() == w.len(),
{
    let m = cov.len() as int;
    let margin = Ratio { n: (v.n * w0.n) * int_pow(z.d * w0.d, (m - 1) as nat),
        d: (v.d * w0.d) * int_pow(z.d * w0.d, (m - 1) as nat) };
    assert forall|j: int| 0 <= j < m implies #[trigger] r_dot(cov[j], w) == margin by {
        assert(forall|t: int| 0 <= t < cov[j].len()
            ==> #[trigger] cov[j][t] == (if t == j { v } else { z }));
        lemma_uniform_row_dot(cov[j], w, w0, v, z, j, m);
        assert(cov[j].take(m) =~= cov[j]);
        assert(w.take(m) =~= w);
    }
    let cand = erc_step_spec(cov, w);
    assert forall|a: int, b: int| 0 <= a < m && 0 <= b < m
        implies #[trigger] cand[a] == #[trigger] cand[b] by {
        assert(r_dot(cov[a], w) == margin && r_dot(cov[b], w) == margin);
        assert(w[a] == w0 && w[b] == w0);
    }
    assert forall|a: int, b: int| 0 <= a < w.len() && 0 <= b < w.len()
        implies #[trigger] erc_next(cov, w)[a] == #[trigger] erc_next(cov, w)[b] by {
        assert(erc_next(cov, w)[a] == r_div(cand[a], r_sum(cand)));
        assert(erc_next(cov, w)[b] == r_div(cand[b], r_sum(cand)));
        assert(cand[a] == cand[b]);
    }
}

/// On a uniform-diagonal covariance (identical variances, a common
/// zero-numerator off-diagonal entry), every state of the
/// equal-risk-contribution iteration is a constant vector: starting from
/// equal weights, the weights stay equal. Together with the solver's
/// sum-to-one postcondition this is the equal-weight vector `[1/n, ..., 1/n]`.
pub proof fn lemma_erc_iterate_equal_weights(cov: Seq<Seq<Ratio>>, v: Ratio, z: Ratio, k: nat)
    requires
        uniform_diag(cov, v, z),
        z.n == 0,
        forall|i: int| 0 <= i < cov.len() ==> (#[trigger] cov[i]).len() == cov.len(),
        cov.len() >= 1,
    ensures
        erc_iterate(cov, k).len() == cov.len(),
        forall|a: int, b: int| 0 <= a < cov.len() && 0 <= b < cov.len()
            ==> #[trigger] erc_iterate(cov, k)[a] == #[trigger] erc_iterate(cov, k)[b],
    decreases k,
{
    if k == 0 {
        assert(erc_iterate(cov, 0) == erc_start(cov.len() as int));
    } else {
        lemma_erc_iterate_equal_weights(cov, v, z, (k - 1) as nat);
        let w = erc_iterate(cov, (k - 1) as nat);
        let w0 = w[0];
        assert(forall|t: int| 0 <= t < w.len() ==> #[trigger] w[t] == w0);
        lemma_erc_next_constant(cov, w, w0, v, z);
        assert(erc_iterate(cov, k) == erc_next(cov, w));
    }
}

/// The sum of identical ratios is the count times the ratio.
proof fn lemma_sum_constant_ratio(s: Seq<Ratio>, x: Ratio)
    requires
        r_wf(x),
        forall|t: int| 0 <= t < s.len() ==> #[trigger] s[t] == x,
    ensures
        r_eq(r_sum(s), r_mul(rz(s.len() as int), x)),
        r_wf(r_sum(s)),
    decreases s.len(),
{
    if s.len() == 0 {
        assert(0 * (1 * x.d) == (0 * x.n) * 1) by (nonlinear_arith);
    } else {
        let l = s.len() as int;
        assert(forall|t: int| 0 <= t < s.len() - 1 ==> #[trigger] s.drop_last()[t] == x);
        lemma_sum_constant_ratio(s.drop_last(), x);
        assert(s.last() == x);
        assert(r_sum(s) == r_add(r_sum(s.drop_last()), x));
        crate::rational::lemma_add_cong(r_sum(s.drop_last()), r_mul(rz(l - 1), x), x, x);
        let mid = r_add(r_mul(rz(l - 1), x), x);
        assert(r_eq(mid, r_mul(rz(l), x))) by (nonlinear_arith)
            requires
                mid == (Ratio { n: ((l - 1) * x.n) * x.d + x.n * (1 * x.d),
                    d: (1 * x.d) * x.d }),
                x.d > 0,
        ;
        assert(mid.d > 0) by (nonlinear_arith)
            requires
                mid.d == (1 * x.d) * x.d,
                x.d > 0,
        ;
        crate::rational::lemma_req_trans(r_sum(s), mid, r_mul(rz(l), x));
        lemma_mul_strictly_positive(r_sum(s.drop_last()).d, x.d);
    }
}

/// On a uniform-diagonal covariance (identical variances, zero-numerator
/// off-diagonal entries), a unit-sum state of the equal-risk-contribution
/// iteration is exactly the equal-weight vector: every weight is `1/n`.
/// Together with the solver's trajectory and sum-to-one postconditions this
/// settles the degenerate equal-variance case.
pub proof fn lemma_erc_uniform_one_over_n(cov: Seq<Seq<Ratio>>, v: Ratio, z: Ratio,
    w: Seq<Ratio>, k: nat)
    requires
        uniform_diag(cov, v, z),
        z.n == 0,
        forall|i: int| 0 <= i < cov.len() ==> (#[trigger] cov[i]).len() == cov.len(),
        cov.len() >= 1,
        w == erc_iterate(cov, k),
        all_wf(w),
        r_eq(r_sum(w), rz(1)),
    ensures
        forall|i: int| 0 <= i < w.len()
            ==> r_eq(#[trigger] w[i], Ratio { n: 1, d: cov.len() as int }),
{
    lemma_erc_iterate_equal_weights(cov, v, z, k);
    let m = cov.len() as int;
    let x = w[0];
    assert(r_wf(x));
    assert(forall|t: int| 0 <= t < w.len() ==> #[trigger] w[t] == x);
    lemma_sum_constant_ratio(w, x);
    assert(r_eq(r_mul(rz(m), x), rz(1))) by {
        crate::rational::lemma_req_trans(r_mul(rz(m), x), r_sum(w), rz(1));
    }
    assert forall|i: int| 0 <= i < w.len()
        implies r_eq(#[trigger] w[i], Ratio { n: 1, d: m }) by {
        assert(w[i] == x);
        assert(x.n * m == 1 * (1 * x.d)) by (nonlinear_arith)
            requires
                (m * x.n) * 1 == 1 * (1 * x.d),
        ;
    }
}

/// A floor pinned by its two inequalities equals the Euclidean quotient.
proof fn lemma_euclid_floor(a: int, b: int, q: int)
    requires
        b > 0,
        q * b <= a,
        a < (q + 1) * b,
    ensures
        q == a / b,
{
    vstd::arithmetic::div_mod::lemma_fundamental_div_mod(a, b);
    vstd::arithmetic::div_mod::lemma_mod_bound(a, b);
    assert(q == a / b) by (nonlinear_arith)
        requires
            q * b <= a,
            a < (q + 1) * b,
            a == b * (a / b) + a % b,
            0 <= a % b < b,
            b > 0,
    ;
}

pub fn erc(cov: &Vec<Vec<Rational>>) -> (r: Result<ErcOutcome, SolverError>)
    requires
        mat_wf(mat_vals(cov@), cov@.len() as int),
        1 <= cov@.len() <= i64::MAX,
    ensures
        match r {
            Ok(out) => {
                &&& out.weights@.len() == cov@.len()
                &&& all_wf(vals(out.weights@))
                &&& r_eq(r_sum(vals(out.weights@)), rz(1))
                &&& 1 <= out.iterations <= 1000
                &&& r_wf(out.last_error@)
                &&& out.converged == r_lt(out.last_error@, erc_tol())
                &&& vals(out.weights@) == erc_iterate(mat_vals(cov@), out.iterations as nat)
                &&& out.last_error@ == max_change_spec(
                    erc_iterate(mat_vals(cov@), (out.iterations - 1) as nat),
                    vals(out.weights@))
                &&& forall|k: int| 1 <= k < out.iterations
                    ==> !r_lt(#[trigger] max_change_spec(
                        erc_iterate(mat_vals(cov@), (k - 1) as nat),
                        erc_iterate(mat_vals(cov@), k as nat)), erc_tol())
                &&& exists|prev: Seq<Ratio>|
                    erc_step_from(mat_vals(cov@), prev, vals(out.weights@), out.last_error@)
            },
            Err(e) => {
                if e == SolverError::ZeroRiskContribution {
                    exists|prev: Seq<Ratio>, j: int|
                        {
                            &&& prev.len() == cov@.len()
                            &&& all_wf(prev)
                            &&& r_eq(r_sum(prev), rz(1))
                            &&& 0 <= j < cov@.len()
                            &&& (#[trigger] r_mul(prev[j], r_dot(mat_vals(cov@)[j], prev))).n
                                == 0
                        }
                } else {
                    e == SolverError::Infeasible
                        && (r_sum(ones_spec(cov@.len() as int)).n == 0
                            || exists|prev: Seq<Ratio>|
                                {
                                    &&& prev.len() == cov@.len()
                                    &&& all_wf(prev)
                                    &&& r_eq(r_sum(prev), rz(1))
                                    &&& r_sum(#[trigger] erc_step_spec(mat_vals(cov@), prev)).n
                                        == 0
                                })
                }
            },
        },
{
    let ghost covv = mat_vals(cov@);
    let m = cov.len();
    let tol = Rational::new_frac(1, 100000000);
    let init = ones(m);
    let mut w = match normalize(&init) {
        None => { return Err(SolverError::Infeasible); },
        Some(v) => v,
    };
    proof {
        assert forall|i: int| 0 <= i < m implies vals(w@)[i] == erc_start(m as int)[i] by {
            assert(w@[i]@ == r_div(init@[i]@, r_sum(vals(init@))));
            assert(init@[i]@ == vals(init@)[i]);
            assert(vals(init@)[i] == rz(1));
            assert(erc_start(m as int)[i] == r_div(rz(1), r_sum(ones_spec(m as int))));
        }
        assert(vals(w@) =~= erc_start(m as int));
    }
    let mut iters: usize = 0;
    let mut converged: bool = false;
    let mut last_err = Rational::from_int(1);
    while iters < 1000 && !converged
        invariant
            covv == mat_vals(cov@),
            m == cov@.len(),
            1 <= m <= i64::MAX,
            mat_wf(mat_vals(cov@), m as int),
            tol@ == erc_tol(),
            w@.len() == m,
            all_wf(vals(w@)),
            r_eq(r_sum(vals(w@)), rz(1)),
            0 <= iters <= 1000,
            r_wf(last_err@),
            converged == r_lt(last_err@, erc_tol()),
            iters == 0 ==> !converged,
            vals(w@) == erc_iterate(covv, iters as nat),
            iters >= 1 ==> last_err@ == max_change_spec(
                erc_iterate(covv, (iters - 1) as nat), vals(w@)),
            forall|k: int| 1 <= k < iters
                ==> !r_lt(#[trigger] max_change_spec(erc_iterate(covv, (k - 1) as nat),
                    erc_iterate(covv, k as nat)), erc_tol()),
            iters >= 1 ==> exists|prev: Seq<Ratio>|
                erc_step_from(covv, prev, vals(w@), last_err@),
        decreases 1000 - iters,
    {
        let ghost prev0 = vals(w@);
        // Marginal contributions s = cov * w.
        let mut s: Vec<Rational> = Vec::new();
        let mut i: usize = 0;
        while i < m
            invariant
                0 <= i <= m,
                covv == mat_vals(cov@),
                m == cov@.len(),
                mat_wf(mat_vals(cov@), m as int),
                w@.len() == m,
                prev0 == vals(w@),
                all_wf(vals(w@)),
                s@.len() == i,
                all_wf(vals(s@)),
                forall|t: int| 0 <= t < i
                    ==> (#[trigger] vals(s@)[t]) == r_dot(covv[t], prev0),
            decreases m - i,
        {
            proof {
                assert(mat_vals(cov@)[i as int] == vals(cov@[i as int]@));
                assert(all_wf(vals(cov@[i as int]@)));
                assert(vals(cov@[i as int]@).len() == m);
            }
            let d = dot_vec(&cov[i], &w);
            let ghost old_s = s@;
            s.push(d);
            proof {
                assert(forall|t: int| 0 <= t < i
                    ==> #[trigger] vals(s@)[t] == vals(old_s)[t]);
                assert(vals(s@)[i as int] == d@);
            }
            i += 1;
        }
        let ghost sseq = Seq::new(prev0.len(), |t: int| r_dot(covv[t], prev0));
        proof {
            assert(vals(s@) =~= sseq);
        }
        let port_var = dot_vec(&w, &s);
        let m_rat = Rational::from_int(m as i64);
        let target = port_var.div(&m_rat);
        let ghost target_spec = r_div(r_dot(prev0, sseq), rz(m as int));
        proof {
            assert(r_wf(port_var@));
            assert(r_wf(target@));
            assert(target@ == target_spec);
        }
        // Rescale every weight by target / (w_j * s_j), on a fixed grid.
        let ghost cand = erc_step_spec(covv, prev0);
        let mut wnew: Vec<Rational> = Vec::new();
        let mut jj: usize = 0;
        while jj < m
            invariant
                0 <= jj <= m,
                covv == mat_vals(cov@),
                m == cov@.len(),
                1 <= m <= i64::MAX,
                w@.len() == m,
                s@.len() == m,
                prev0 == vals(w@),
                all_wf(vals(w@)),
                all_wf(vals(s@)),
                r_eq(r_sum(prev0), rz(1)),
                forall|t: int| 0 <= t < m
                    ==> (#[trigger] vals(s@)[t]) == r_dot(covv[t], prev0),
                r_wf(target@),
                target@ == r_div(r_dot(prev0, Seq::new(prev0.len(),
                    |t: int| r_dot(covv[t], prev0))), rz(m as int)),
                cand == erc_step_spec(covv, prev0),
                wnew@.len() == jj,
                all_wf(vals(wnew@)),
                forall|t: int| 0 <= t < jj ==> (#[trigger] vals(wnew@)[t]) == cand[t],
                forall|t: int| 0 <= t < jj
                    ==> (#[trigger] r_mul(prev0[t], r_dot(covv[t], prev0))).n != 0,
            decreases m - jj,
        {
            proof {
                assert(r_wf(vals(w@)[jj as int]) && r_wf(vals(s@)[jj as int]));
            }
            let rc = w[jj].mul(&s[jj]);
            proof {
                assert(rc@ == r_mul(prev0[jj as int], r_dot(covv[jj as int], prev0)));
            }
            if rc.num_is_zero() {
                proof {
                    assert(prev0.len() == cov@.len() && all_wf(prev0)
                        && r_eq(r_sum(prev0), rz(1))
                        && r_mul(prev0[jj as int],
                            r_dot(mat_vals(cov@)[jj as int], prev0)).n == 0);
                }
                return Err(SolverError::ZeroRiskContribution);
            }
            let pre_grid = w[jj].mul(&target).div(&rc);
            proof {
                assert(r_wf(pre_grid@));
            }
            let scaled_w = pre_grid.grid_floor(1000000000000);
            let ghost old_wnew = wnew@;
            wnew.push(scaled_w);
            proof {
                assert(forall|t: int| 0 <= t < jj
                    ==> #[trigger] vals(wnew@)[t] == vals(old_wnew)[t]);
                assert(r_wf(vals(wnew@)[jj as int]));
                let y = pre_grid@;
                lemma_euclid_floor(y.n * 1000000000000, y.d, scaled_w@.n);
                assert(scaled_w@ == grid_spec(y));
                assert(w@[jj as int]@ == vals(w@)[jj as int]);
                assert(vals(w@)[jj as int] == prev0[jj as int]);
                let tsp = r_div(r_dot(prev0, Seq::new(prev0.len(),
                    |t: int| r_dot(covv[t], prev0))), rz(m as int));
                assert(target@ == tsp);
                assert(y == r_div(r_mul(prev0[jj as int], tsp),
                    r_mul(prev0[jj as int], r_dot(covv[jj as int], prev0))));
                assert(cand[jj as int] == grid_spec(y));
                assert(vals(wnew@)[jj as int] == cand[jj as int]);
            }
            jj += 1;
        }
        proof {
            assert(vals(wnew@) =~= cand);
        }
        let wn = match normalize(&wnew) {
            None => {
                proof {
                    assert(prev0.len() == cov@.len() && all_wf(prev0)
                        && r_eq(r_sum(prev0), rz(1))
                        && r_sum(erc_step_spec(mat_vals(cov@), prev0)).n == 0);
                }
                return Err(SolverError::Infeasible);
            },
            Some(v) => v,
        };
        // Largest per-asset change in this step.
        let mut err = Rational::from_int(0);
        let mut k: usize = 0;
        while k < m
            invariant
                0 <= k <= m,
                m == cov@.len(),
                w@.len() == m,
                wn@.len() == m,
                prev0 == vals(w@),
                all_wf(vals(w@)),
                all_wf(vals(wn@)),
                r_wf(err@),
                err@ == max_change_spec(prev0.take(k as int), vals(wn@).take(k as int)),
            decreases m - k,
        {
            proof {
                assert(r_wf(vals(w@)[k as int]) && r_wf(vals(wn@)[k as int]));
                assert(prev0.take(k + 1).drop_last() =~= prev0.take(k as int));
                assert(vals(wn@).take(k + 1).drop_last() =~= vals(wn@).take(k as int));
                assert(prev0.take(k + 1).last() == prev0[k as int]);
                assert(vals(wn@).take(k + 1).last() == vals(wn@)[k as int]);
            }
            let d = wn[k].sub(&w[k]).abs();
            if err.lt(&d) {
                err = d;
            }
            k += 1;
        }
        proof {
            assert(prev0.take(m as int) =~= prev0);
            assert(vals(wn@).take(m as int) =~= vals(wn@));
        }
        let ghost entry_iters = iters;
        let ghost entry_err = last_err@;
        converged = err.lt(&tol);
        last_err = err;
        w = wn;
        iters += 1;
        proof {
            assert(erc_step_from(covv, prev0, vals(w@), last_err@));
            assert(prev0 == erc_iterate(covv, entry_iters as nat));
            assert(vals(w@) =~= erc_next(covv, prev0));
            assert(iters >= 1);
            assert(erc_iterate(covv, iters as nat)
                == erc_next(covv, erc_iterate(covv, (iters - 1) as nat)));
            assert(vals(w@) == erc_iterate(covv, iters as nat));
            assert forall|k: int| 1 <= k < iters
                implies !r_lt(#[trigger] max_change_spec(erc_iterate(covv, (k - 1) as nat),
                    erc_iterate(covv, k as nat)), erc_tol()) by {
                if k == entry_iters {
                    assert(entry_iters >= 1);
                    assert(entry_err == max_change_spec(
                        erc_iterate(covv, (entry_iters - 1) as nat),
                        erc_iterate(covv, entry_iters as nat)));
                    assert(!r_lt(entry_err, erc_tol()));
                }
            }
        }
    }
    Ok(ErcOutcome { weights: w, iterations: iters, converged, last_error: last_err })
}

} // verus!
