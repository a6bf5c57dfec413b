//! Time-series price data in matrix form, and the derivation of simple
//! period returns from it. Prices are exact rationals; dates and tickers are
//! raw byte strings, kept opaque.

use vstd::prelude::*;
use crate::rational::{Ratio, Rational, r_wf, rz, r_eq, r_add, r_sub, r_mul, r_div,
    lemma_mul_rearrange};
use crate::vecops::vals;

verus! {

/// Holds time-series price data in a matrix form for easy optimization:
/// one row per observation date, one column per asset.
pub struct PriceData {
    pub dates: Vec<Vec<u8>>,
    pub tickers: Vec<Vec<u8>>,
    pub prices: Vec<Vec<Rational>>,
}

/// The ratio matrix denoted by a price matrix.
pub open spec fn mat_vals(m: Seq<Vec<Rational>>) -> Seq<Seq<Ratio>> {
    m.map_values(|row: Vec<Rational>| vals(row@))
}

/// Every row has `cols` entries and every entry is well-formed.
pub open spec fn mat_wf(m: Seq<Seq<Ratio>>, cols: int) -> bool {
    forall|i: int| 0 <= i < m.len()
        ==> (#[trigger] m[i]).len() == cols && (forall|j: int| 0 <= j < cols ==> r_wf(#[trigger] m[i][j]))
}

/// Every entry is strictly positive.
pub open spec fn mat_pos(m: Seq<Seq<Ratio>>) -> bool {
    forall|i: int, j: int| 0 <= i < m.len() && 0 <= j < m[i].len()
        ==> (#[trigger] m[i][j]).n > 0
}

/// The matrix of simple period returns of a price matrix with `cols` assets:
/// entry `(i, j)` is `p[i+1][j] / p[i][j] - 1`.
pub open spec fn simple_returns_spec(p: Seq<Seq<Ratio>>, cols: int) -> Seq<Seq<Ratio>> {
    Seq::new((p.len() - 1) as nat,
        |i: int| Seq::new(cols as nat, |j: int| r_sub(r_div(p[i + 1][j], p[i][j]), rz(1))))
}

impl PriceData {
    /// Shape and well-formedness: one date per price row, one column per
    /// ticker, all prices well-formed rationals.
    pub open spec fn wf(&self) -> bool {
        &&& self.dates@.len() == self.prices@.len()
        &&& mat_wf(mat_vals(self.prices@), self.tickers@.len() as int)
    }

    /// Number of assets (columns).
    pub fn n_assets(&self) -> (r: usize)
        ensures
            r == self.tickers@.len(),
    {
        self.tickers.len()
    }

    /// Number of observations (rows).
    pub fn n_obs(&self) -> (r: usize)
        ensures
            r == self.dates@.len(),
    {
        self.dates.len()
    }

    /// Price by row and column index.
    pub fn price(&self, i: usize, j: usize) -> (r: Rational)
        requires
            i < self.prices@.len(),
            j < self.prices@[i as int]@.len(),
        ensures
            r@ == mat_vals(self.prices@)[i as int][j as int],
    {
        self.prices[i][j].dup()
    }

    /// Whether every price in the matrix is strictly positive; returns are
    /// only defined over positive prices.
    pub fn all_prices_positive(&self) -> (r: bool)
        ensures
            r == mat_pos(mat_vals(self.prices@)),
    {
        let ghost p = mat_vals(self.prices@);
        let mut i: usize = 0;
        while i < self.prices.len()
            invariant
                0 <= i <= self.prices@.len(),
                p == mat_vals(self.prices@),
                forall|a: int, b: int| 0 <= a < i && 0 <= b < p[a].len()
                    ==> (#[trigger] p[a][b]).n > 0,
            decreases self.prices@.len() - i,
        {
            let mut j: usize = 0;
            while j < self.prices[i].len()
                invariant
                    0 <= i < self.prices@.len(),
                    0 <= j <= self.prices@[i as int]@.len(),
                    p == mat_vals(self.prices@),
                    forall|a: int, b: int| 0 <= a < i && 0 <= b < p[a].len()
                        ==> (#[trigger] p[a][b]).n > 0,
                    forall|b: int| 0 <= b < j ==> (#[trigger] p[i as int][b]).n > 0,
                decreases self.prices@[i as int]@.len() - j,
            {
                proof {
                    assert(p[i as int] == crate::vecops::vals(self.prices@[i as int]@));
                }
                if !self.prices[i][j].is_pos() {
                    proof {
                        assert(p[i as int][j as int].n <= 0);
                        assert(j < p[i as int].len());
                        assert(!mat_pos(p));
                    }
                    return false;
                }
                j += 1;
            }
            i += 1;
        }
        true
    }

    /// Compute simple returns `(p_t / p_{t-1}) - 1`, one fewer observation.
    pub fn simple_returns(&self) -> (r: PriceData)
        requires
            self.wf(),
            self.dates@.len() >= 1,
            mat_pos(mat_vals(self.prices@)),
        ensures
            r.wf(),
            r.tickers@.len() == self.tickers@.len(),
            forall|t: int| 0 <= t < self.tickers@.len()
                ==> (#[trigger] r.tickers@[t])@ == self.tickers@[t]@,
            r.dates@.len() == self.dates@.len() - 1,
            forall|t: int| 0 <= t < self.dates@.len() - 1
                ==> (#[trigger] r.dates@[t])@ == self.dates@[t + 1]@,
            mat_vals(r.prices@)
                == simple_returns_spec(mat_vals(self.prices@), self.tickers@.len() as int),
            mat_wf(mat_vals(r.prices@), self.tickers@.len() as int),
    {
        let ghost p = mat_vals(self.prices@);
        let ghost m = self.tickers@.len() as int;
        let ghost spec_ret = simple_returns_spec(p, m);
        let n = self.n_obs();
        let cols = self.n_assets();
        let one = Rational::from_int(1);
        let mut dates: Vec<Vec<u8>> = Vec::new();
        let mut mat: Vec<Vec<Rational>> = Vec::new();
        let mut i: usize = 1;
        while i < n
            invariant
                1 <= i <= n,
                n == self.dates@.len(),
                cols == self.tickers@.len(),
                one@ == rz(1),
                self.wf(),
                mat_pos(p),
                p == mat_vals(self.prices@),
                m == self.tickers@.len() as int,
                spec_ret == simple_returns_spec(p, m),
                dates@.len() == i - 1,
                forall|t: int| 0 <= t < i - 1 ==> dates@[t]@ == self.dates@[t + 1]@,
                mat@.len() == i - 1,
                forall|t: int| 0 <= t < i - 1 ==> (#[trigger] mat_vals(mat@)[t]) == spec_ret[t],
            decreases n - i,
        {
            dates.push(copy_bytes(&self.dates[i]));
            let mut row: Vec<Rational> = Vec::new();
            let mut j: usize = 0;
            while j < cols
                invariant
                    0 <= j <= cols,
                    1 <= i < n,
                    n == self.dates@.len(),
                    cols == self.tickers@.len(),
                    one@ == rz(1),
                    self.wf(),
                    mat_pos(p),
                    p == mat_vals(self.prices@),
                    m == self.tickers@.len() as int,
                    spec_ret == simple_returns_spec(p, m),
                    row@.len() == j,
                    forall|t: int| 0 <= t < j ==> (#[trigger] vals(row@)[t]) == spec_ret[i - 1][t],
                decreases cols - j,
            {
                proof {
                    assert(p[i - 1] == vals(self.prices@[i - 1]@));
                    assert(p[i as int] == vals(self.prices@[i as int]@));
                    assert(p[i - 1].len() == cols && p[i as int].len() == cols);
                    assert(r_wf(p[i - 1][j as int]) && p[i - 1][j as int].n > 0);
                }
                let prev = &self.prices[i - 1][j];
                let curr = &self.prices[i][j];
                let entry = curr.div(prev).sub(&one);
                proof {
                    assert(prev@ == p[i - 1][j as int]);
                    assert(curr@ == p[i as int][j as int]);
                    assert(spec_ret[i - 1][j as int]
                        == r_sub(r_div(p[i as int][j as int], p[i - 1][j as int]), rz(1)));
                }
                let ghost old_row = row@;
                row.push(entry);
                proof {
                    assert(row@ == old_row.push(entry));
                    assert(vals(row@)[j as int] == entry@);
                    assert(forall|t: int| 0 <= t < j
                        ==> #[trigger] vals(row@)[t] == vals(old_row)[t]);
                }
                j += 1;
            }
            proof {
                assert(spec_ret[i - 1].len() == m);
                assert(vals(row@) =~= spec_ret[i - 1]);
            }
            let ghost old_mat = mat@;
            mat.push(row);
            proof {
                assert(mat@ == old_mat.push(row));
                assert(mat_vals(mat@)[i - 1] == vals(row@));
                assert(forall|t: int| 0 <= t < i - 1
                    ==> #[trigger] mat_vals(mat@)[t] == mat_vals(old_mat)[t]);
            }
            i += 1;
        }
        let r = PriceData { dates, tickers: copy_byte_rows(&self.tickers), prices: mat };
        proof {
            assert(mat_vals(r.prices@) =~= spec_ret);
            assert(mat_wf(spec_ret, m)) by {
                assert forall|a: int| 0 <= a < spec_ret.len() implies
                    (#[trigger] spec_ret[a]).len() == m
                    && (forall|b: int| 0 <= b < m ==> r_wf(#[trigger] spec_ret[a][b])) by {
                    assert forall|b: int| 0 <= b < m implies r_wf(#[trigger] spec_ret[a][b]) by {
                        let x = p[a + 1][b];
                        let y = p[a][b];
                        assert(r_wf(x) && r_wf(y) && y.n > 0);
                        assert(spec_ret[a][b] == r_sub(r_div(x, y), rz(1)));
                        vstd::arithmetic::mul::lemma_mul_strictly_positive(x.d, y.n);
                    }
                }
            }
        }
        r
    }
}

/// A byte-for-byte copy of a byte string.
pub fn copy_bytes(v: &Vec<u8>) -> (r: Vec<u8>)
    ensures
        r@ == v@,
{
    let mut out: Vec<u8> = Vec::new();
    let mut i: usize = 0;
    while i < v.len()
        invariant
            0 <= i <= v.len(),
            out@ == v@.take(i as int),
        decreases v.len() - i,
    {
        out.push(v[i]);
        proof {
            assert(v@.take(i + 1) =~= v@.take(i as int).push(v@[i as int]));
        }
        i += 1;
    }
    proof {
        assert(v@.take(v@.len() as int) =~= v@);
    }
    out
}

/// A copy of a list of byte strings.
pub fn copy_byte_rows(v: &Vec<Vec<u8>>) -> (r: Vec<Vec<u8>>)
    ensures
        r@.len() == v@.len(),
        forall|i: int| 0 <= i < v@.len() ==> (#[trigger] r@[i])@ == v@[i]@,
{
    let mut out: Vec<Vec<u8>> = Vec::new();
    let mut i: usize = 0;
    while i < v.len()
        invariant
            0 <= i <= v.len(),
            out@.len() == i,
            forall|j: int| 0 <= j < i ==> (#[trigger] out@[j])@ == v@[j]@,
        decreases v.len() - i,
    {
        out.push(copy_bytes(&v[i]));
        i += 1;
    }
    out
}

/// Reconstructing a price from the previous price and the simple return
/// recovers the original price exactly: `p[i+1] == p[i] * (1 + r[i])`.
pub proof fn lemma_returns_roundtrip(p: Seq<Seq<Ratio>>, cols: int, i: int, j: int)
    requires
        mat_wf(p, cols),
        mat_pos(p),
        0 <= i < p.len() - 1,
        0 <= j < cols,
    ensures
        r_eq(r_mul(p[i][j], r_add(rz(1), simple_returns_spec(p, cols)[i][j])), p[i + 1][j]),
{
    let a = p[i][j];
    let b = p[i + 1][j];
    let t = r_add(rz(1), r_sub(r_div(b, a), rz(1)));
    assert(simple_returns_spec(p, cols)[i][j] == r_sub(r_div(b, a), rz(1)));
    assert(a.n > 0 && a.d > 0 && b.d > 0);
    assert(t.n == 1 * ((b.n * a.d - 1 * (b.d * a.n)) * 1) + (b.d * a.n) * 1);
    assert(t.d == 1 * ((b.d * a.n) * 1));
    assert(t.n == b.n * a.d);
    assert(t.d == b.d * a.n);
    lemma_mul_rearrange(a.n, b.n, a.d, b.d);
    assert((a.n * (b.n * a.d)) * b.d == b.n * (a.d * (b.d * a.n))) by (nonlinear_arith);
    assert(r_mul(a, t).n * b.d == b.n * r_mul(a, t).d);
}

} // verus!
