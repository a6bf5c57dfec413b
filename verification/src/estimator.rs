//! Sample statistics of a return series: per-asset mean returns and the
//! unbiased sample covariance matrix (divisor `n - 1`), computed in two
//! passes exactly as stated by the spec functions below.

use vstd::prelude::*;
use crate::rational::{Ratio, Rational, r_wf, rz, r_eq, r_sub, r_mul, r_div};
use crate::vecops::{vals, all_wf, r_sum, lemma_sum_wf};
use crate::series::{PriceData, mat_vals, mat_wf};

verus! {

/// Column `j` of a ratio matrix.
pub open spec fn col(r: Seq<Seq<Ratio>>, j: int) -> Seq<Ratio> {
    Seq::new(r.len(), |i: int| r[i][j])
}

/// Sample mean of column `j`.
pub open spec fn mean_spec(r: Seq<Seq<Ratio>>, j: int) -> Ratio {
    r_div(r_sum(col(r, j)), rz(r.len() as int))
}

/// The per-row products of deviations from the mean, for the asset pair
/// `(a, b)`.
pub open spec fn dev_products(r: Seq<Seq<Ratio>>, a: int, b: int) -> Seq<Ratio> {
    Seq::new(r.len(),
        |i: int| r_mul(r_sub(r[i][a], mean_spec(r, a)), r_sub(r[i][b], mean_spec(r, b))))
}

/// Unbiased sample covariance of the asset pair `(a, b)`.
pub open spec fn cov_entry_spec(r: Seq<Seq<Ratio>>, a: int, b: int) -> Ratio {
    r_div(r_sum(dev_products(r, a, b)), rz(r.len() - 1))
}

/// The covariance formula is symmetric in its asset pair, exactly.
pub proof fn lemma_cov_symmetric(r: Seq<Seq<Ratio>>, a: int, b: int)
    ensures
        cov_entry_spec(r, a, b) == cov_entry_spec(r, b, a),
{
    assert forall|i: int| 0 <= i < r.len()
        implies #[trigger] dev_products(r, a, b)[i] == dev_products(r, b, a)[i] by {
        let x = r_sub(r[i][a], mean_spec(r, a));
        let y = r_sub(r[i][b], mean_spec(r, b));
        vstd::arithmetic::mul::lemma_mul_is_commutative(x.n, y.n);
        vstd::arithmetic::mul::lemma_mul_is_commutative(x.d, y.d);
        assert(r_mul(x, y) == r_mul(y, x));
    }
    assert(dev_products(r, a, b) =~= dev_products(r, b, a));
}

/// Sum of column `j` of a price matrix.
fn col_sum(prices: &Vec<Vec<Rational>>, j: usize) -> (r: Rational)
    requires
        forall|i: int| 0 <= i < prices@.len()
            ==> j < (#[trigger] mat_vals(prices@)[i]).len(),
    ensures
        r@ == r_sum(col(mat_vals(prices@), j as int)),
        all_wf(col(mat_vals(prices@), j as int)) ==> r_wf(r@),
{
    let ghost c = col(mat_vals(prices@), j as int);
    let mut acc = Rational::from_int(0);
    let mut i: usize = 0;
    while i < prices.len()
        invariant
            0 <= i <= prices@.len(),
            c == col(mat_vals(prices@), j as int),
            forall|t: int| 0 <= t < prices@.len()
                ==> j < (#[trigger] mat_vals(prices@)[t]).len(),
            acc@ == r_sum(c.take(i as int)),
            all_wf(c.take(i as int)) ==> r_wf(acc@),
        decreases prices@.len() - i,
    {
        proof {
            assert(mat_vals(prices@)[i as int] == vals(prices@[i as int]@));
            assert(c[i as int] == mat_vals(prices@)[i as int][j as int]);
        }
        let next = acc.add(&prices[i][j]);
        proof {
            assert(c.take(i + 1).drop_last() =~= c.take(i as int));
            assert(c.take(i + 1).last() == c[i as int]);
            assert(all_wf(c.take(i + 1)) ==> all_wf(c.take(i as int)) && r_wf(c[i as int]));
        }
        acc = next;
        i += 1;
    }
    proof {
        assert(c.take(prices@.len() as int) =~= c);
    }
    acc
}

/// Per-asset arithmetic mean of a return series.
pub fn mean_returns(ret: &PriceData) -> (r: Vec<Rational>)
    requires
        ret.wf(),
        1 <= ret.dates@.len() <= i64::MAX,
    ensures
        r@.len() == ret.tickers@.len(),
        forall|j: int| 0 <= j < ret.tickers@.len()
            ==> (#[trigger] r@[j])@ == mean_spec(mat_vals(ret.prices@), j),
        forall|j: int| 0 <= j < ret.tickers@.len() ==> r_wf((#[trigger] r@[j])@),
{
    let ghost mat = mat_vals(ret.prices@);
    let m = ret.n_assets();
    let n = ret.n_obs();
    let nr = Rational::from_int(n as i64);
    let mut out: Vec<Rational> = Vec::new();
    let mut j: usize = 0;
    while j < m
        invariant
            0 <= j <= m,
            ret.wf(),
            1 <= ret.dates@.len() <= i64::MAX,
            mat == mat_vals(ret.prices@),
            m == ret.tickers@.len(),
            n == ret.dates@.len(),
            nr@ == rz(n as int),
            out@.len() == j,
            forall|t: int| 0 <= t < j ==> (#[trigger] out@[t])@ == mean_spec(mat, t),
            forall|t: int| 0 <= t < j ==> r_wf((#[trigger] out@[t])@),
        decreases m - j,
    {
        let s = col_sum(&ret.prices, j);
        proof {
            assert(mat.len() == ret.prices@.len() == n);
            assert forall|i: int| 0 <= i < mat.len()
                implies r_wf(#[trigger] col(mat, j as int)[i]) by {
                assert(col(mat, j as int)[i] == mat[i][j as int]);
            }
            assert(all_wf(col(mat, j as int)));
        }
        let mean = s.div(&nr);
        out.push(mean);
        j += 1;
    }
    out
}

/// Sample covariance of a return series, rejecting a series too short for
/// the unbiased estimator to be defined. Fewer than two return observations
/// cannot yield an invertible covariance, so the error is the singular class.
pub fn covariance_checked(ret: &PriceData)
    -> (r: Result<Vec<Vec<Rational>>, crate::solvers::SolverError>)
    requires
        ret.wf(),
        ret.dates@.len() <= i64::MAX,
    ensures
        match r {
            Ok(c) => {
                &&& ret.dates@.len() >= 2
                &&& c@.len() == ret.tickers@.len()
                &&& forall|a: int, b: int|
                    0 <= a < ret.tickers@.len() && 0 <= b < ret.tickers@.len()
                        ==> r_eq((#[trigger] mat_vals(c@)[a][b]),
                            cov_entry_spec(mat_vals(ret.prices@), a, b))
                &&& mat_wf(mat_vals(c@), ret.tickers@.len() as int)
            },
            Err(e) => {
                &&& e == crate::solvers::SolverError::SingularCovariance
                &&& ret.dates@.len() < 2
            },
        },
{
    if ret.n_obs() < 2 {
        return Err(crate::solvers::SolverError::SingularCovariance);
    }
    Ok(covariance(ret))
}

/// Unbiased sample covariance matrix of a return series: two passes, means
/// first, then accumulation of deviation products over every asset pair.
pub fn covariance(ret: &PriceData) -> (r: Vec<Vec<Rational>>)
    requires
        ret.wf(),
        2 <= ret.dates@.len() <= i64::MAX,
    ensures
        r@.len() == ret.tickers@.len(),
        forall|a: int, b: int|
            0 <= a < ret.tickers@.len() && 0 <= b < ret.tickers@.len()
                ==> r_eq((#[trigger] mat_vals(r@)[a][b]), cov_entry_spec(mat_vals(ret.prices@), a, b)),
        mat_wf(mat_vals(r@), ret.tickers@.len() as int),
{
    let ghost mat = mat_vals(ret.prices@);
    let m = ret.n_assets();
    let n = ret.n_obs();
    let means = mean_returns(ret);
    let nm1 = Rational::from_int((n - 1) as i64);
    let mut cov: Vec<Vec<Rational>> = Vec::new();
    let mut a: usize = 0;
    while a < m
        invariant
            0 <= a <= m,
            ret.wf(),
            2 <= ret.dates@.len() <= i64::MAX,
            mat == mat_vals(ret.prices@),
            m == ret.tickers@.len(),
            n == ret.dates@.len(),
            nm1@ == rz(n - 1),
            means@.len() == m,
            forall|t: int| 0 <= t < m ==> (#[trigger] means@[t])@ == mean_spec(mat, t),
            forall|t: int| 0 <= t < m ==> r_wf((#[trigger] means@[t])@),
            cov@.len() == a,
            forall|t: int| 0 <= t < a ==> (#[trigger] mat_vals(cov@)[t]).len() == m,
            forall|t: int, u: int| 0 <= t < a && 0 <= u < m
                ==> r_eq(#[trigger] mat_vals(cov@)[t][u], cov_entry_spec(mat, t, u)),
            forall|t: int, u: int| 0 <= t < a && 0 <= u < m
                ==> r_wf(#[trigger] mat_vals(cov@)[t][u]),
        decreases m - a,
    {
        let mut row: Vec<Rational> = Vec::new();
        let mut b: usize = 0;
        while b < m
            invariant
                0 <= b <= m,
                0 <= a < m,
                ret.wf(),
                2 <= ret.dates@.len() <= i64::MAX,
                mat == mat_vals(ret.prices@),
                m == ret.tickers@.len(),
                n == ret.dates@.len(),
                nm1@ == rz(n - 1),
                means@.len() == m,
                forall|t: int| 0 <= t < m ==> (#[trigger] means@[t])@ == mean_spec(mat, t),
                forall|t: int| 0 <= t < m ==> r_wf((#[trigger] means@[t])@),
                row@.len() == b,
                forall|u: int| 0 <= u < b
                    ==> r_eq((#[trigger] vals(row@)[u]), cov_entry_spec(mat, a as int, u)),
                forall|u: int| 0 <= u < b ==> r_wf(#[trigger] vals(row@)[u]),
            decreases m - b,
        {
            let ghost dp = dev_products(mat, a as int, b as int);
            let mut acc = Rational::from_int(0);
            let mut i: usize = 0;
            while i < n
                invariant
                    0 <= i <= n,
                    0 <= a < m,
                    0 <= b < m,
                    ret.wf(),
                    mat == mat_vals(ret.prices@),
                    m == ret.tickers@.len(),
                    n == ret.dates@.len(),
                    means@.len() == m,
                    forall|t: int| 0 <= t < m ==> (#[trigger] means@[t])@ == mean_spec(mat, t),
                    forall|t: int| 0 <= t < m ==> r_wf((#[trigger] means@[t])@),
                    dp == dev_products(mat, a as int, b as int),
                    acc@ == r_sum(dp.take(i as int)),
                    r_wf(acc@),
                decreases n - i,
            {
                proof {
                    assert(mat[i as int] == vals(ret.prices@[i as int]@));
                    assert(mat[i as int].len() == m);
                    assert(r_wf(mat[i as int][a as int]) && r_wf(mat[i as int][b as int]));
                }
                let da = ret.prices[i][a].sub(&means[a]);
                let db = ret.prices[i][b].sub(&means[b]);
                let term = da.mul(&db);
                let next = acc.add(&term);
                proof {
                    assert(dp[i as int] == r_mul(
                        r_sub(mat[i as int][a as int], mean_spec(mat, a as int)),
                        r_sub(mat[i as int][b as int], mean_spec(mat, b as int))));
                    assert(term@ == dp[i as int]);
                    assert(dp.take(i + 1).drop_last() =~= dp.take(i as int));
                    assert(dp.take(i + 1).last() == dp[i as int]);
                }
                acc = next;
                i += 1;
            }
            proof {
                assert(dp.take(n as int) =~= dp);
            }
            let entry = acc.div(&nm1).reduced();
            let ghost old_row = row@;
            row.push(entry);
            proof {
                assert(row@ == old_row.push(entry));
                assert(vals(row@)[b as int] == entry@);
                assert(forall|u: int| 0 <= u < b
                    ==> #[trigger] vals(row@)[u] == vals(old_row)[u]);
                assert(r_eq(entry@, cov_entry_spec(mat, a as int, b as int)));
            }
            b += 1;
        }
        let ghost old_cov = cov@;
        cov.push(row);
        proof {
            assert(cov@ == old_cov.push(row));
            assert(mat_vals(cov@)[a as int] == vals(row@));
            assert(forall|t: int| 0 <= t < a
                ==> #[trigger] mat_vals(cov@)[t] == mat_vals(old_cov)[t]);
        }
        a += 1;
    }
    cov
}

} // verus!
