//! Solving a square linear system `A x = b` over exact rationals by
//! Gauss-Jordan elimination. The elimination itself only maintains shape and
//! well-formedness; the candidate it produces is then checked exactly against
//! the system, so a returned solution provably satisfies every equation.

use vstd::prelude::*;
use crate::rational::{Ratio, Rational, r_wf, r_eq};
use crate::vecops::{vals, all_wf, r_dot, dot_vec};
use crate::series::{mat_vals, mat_wf};

verus! {

/// `x` satisfies every equation of the system `(a, b)`.
pub open spec fn is_solution(a: Seq<Seq<Ratio>>, x: Seq<Ratio>, b: Seq<Ratio>) -> bool {
    forall|i: int| 0 <= i < a.len() ==> r_eq(r_dot(#[trigger] a[i], x), b[i])
}

/// A copy of a row of rationals.
fn dup_row(row: &Vec<Rational>) -> (r: Vec<Rational>)
    ensures
        r@.len() == row@.len(),
        forall|t: int| 0 <= t < row@.len() ==> (#[trigger] vals(r@)[t]) == vals(row@)[t],
        all_wf(vals(row@)) ==> all_wf(vals(r@)),
{
    let mut out: Vec<Rational> = Vec::new();
    let mut i: usize = 0;
    while i < row.len()
        invariant
            0 <= i <= row@.len(),
            out@.len() == i,
            forall|t: int| 0 <= t < i ==> (#[trigger] vals(out@)[t]) == vals(row@)[t],
        decreases row@.len() - i,
    {
        let entry = row[i].dup();
        let ghost old_out = out@;
        out.push(entry);
        proof {
            assert(forall|t: int| 0 <= t < i
                ==> #[trigger] vals(out@)[t] == vals(old_out)[t]);
            assert(vals(out@)[i as int] == entry@);
        }
        i += 1;
    }
    out
}

/// Every entry divided by `k`, reduced.
fn scale_row(row: &Vec<Rational>, k: &Rational) -> (r: Vec<Rational>)
    requires
        k@.n != 0,
        all_wf(vals(row@)),
    ensures
        r@.len() == row@.len(),
        all_wf(vals(r@)),
    decreases row@.len(),
{
    let mut out: Vec<Rational> = Vec::new();
    let mut i: usize = 0;
    while i < row.len()
        invariant
            0 <= i <= row@.len(),
            k@.n != 0,
            all_wf(vals(row@)),
            out@.len() == i,
            all_wf(vals(out@)),
        decreases row@.len() - i,
    {
        proof {
            assert(r_wf(vals(row@)[i as int]));
        }
        let entry = row[i].div(k).reduced();
        let ghost old_out = out@;
        out.push(entry);
        proof {
            assert(forall|t: int| 0 <= t < i
                ==> #[trigger] vals(out@)[t] == vals(old_out)[t]);
            assert(vals(out@)[i as int] == entry@);
        }
        i += 1;
    }
    out
}

/// Entrywise `r1 - factor * r2`, reduced.
fn row_sub_mul(r1: &Vec<Rational>, factor: &Rational, r2: &Vec<Rational>) -> (r: Vec<Rational>)
    requires
        r1@.len() == r2@.len(),
        r_wf(factor@),
        all_wf(vals(r1@)),
        all_wf(vals(r2@)),
    ensures
        r@.len() == r1@.len(),
        all_wf(vals(r@)),
{
    let mut out: Vec<Rational> = Vec::new();
    let mut i: usize = 0;
    while i < r1.len()
        invariant
            0 <= i <= r1@.len(),
            r1@.len() == r2@.len(),
            r_wf(factor@),
            all_wf(vals(r1@)),
            all_wf(vals(r2@)),
            out@.len() == i,
            all_wf(vals(out@)),
        decreases r1@.len() - i,
    {
        proof {
            assert(r_wf(vals(r1@)[i as int]) && r_wf(vals(r2@)[i as int]));
        }
        let entry = r1[i].sub(&factor.mul(&r2[i])).reduced();
        let ghost old_out = out@;
        out.push(entry);
        proof {
            assert(forall|t: int| 0 <= t < i
                ==> #[trigger] vals(out@)[t] == vals(old_out)[t]);
            assert(vals(out@)[i as int] == entry@);
        }
        i += 1;
    }
    out
}

/// Checks a candidate against the system, equation by equation, with exact
/// rational equality.
fn check_solution(a: &Vec<Vec<Rational>>, x: &Vec<Rational>, b: &Vec<Rational>) -> (r: bool)
    requires
        a@.len() == b@.len(),
        forall|i: int| 0 <= i < a@.len() ==> (#[trigger] mat_vals(a@)[i]).len() == x@.len(),
    ensures
        r ==> is_solution(mat_vals(a@), vals(x@), vals(b@)),
{
    let mut i: usize = 0;
    while i < a.len()
        invariant
            0 <= i <= a@.len(),
            a@.len() == b@.len(),
            forall|t: int| 0 <= t < a@.len() ==> (#[trigger] mat_vals(a@)[t]).len() == x@.len(),
            forall|t: int| 0 <= t < i
                ==> r_eq(r_dot(#[trigger] mat_vals(a@)[t], vals(x@)), vals(b@)[t]),
        decreases a@.len() - i,
    {
        proof {
            assert(mat_vals(a@)[i as int] == vals(a@[i as int]@));
        }
        let d = dot_vec(&a[i], x);
        if !d.eqv(&b[i]) {
            return false;
        }
        i += 1;
    }
    true
}

/// Solves `a * x = b` for a square well-formed system. A `Some` result is an
/// exact, checked solution of every equation; `None` reports that elimination
/// found no usable pivot, the signature of a singular matrix.
pub fn solve_linear(a: &Vec<Vec<Rational>>, b: &Vec<Rational>) -> (r: Option<Vec<Rational>>)
    requires
        a@.len() == b@.len(),
        mat_wf(mat_vals(a@), a@.len() as int),
        all_wf(vals(b@)),
    ensures
        match r {
            Some(x) => {
                &&& x@.len() == a@.len()
                &&& all_wf(vals(x@))
                &&& is_solution(mat_vals(a@), vals(x@), vals(b@))
            },
            None => true,
        },
{
    let n = a.len();
    // Augmented working matrix [A | b].
    let mut rows: Vec<Vec<Rational>> = Vec::new();
    let mut i: usize = 0;
    while i < n
        invariant
            0 <= i <= n,
            n == a@.len() == b@.len(),
            mat_wf(mat_vals(a@), n as int),
            all_wf(vals(b@)),
            rows@.len() == i,
            forall|t: int| 0 <= t < i ==> (#[trigger] mat_vals(rows@)[t]).len() == n + 1,
            forall|t: int| 0 <= t < i ==> all_wf(#[trigger] mat_vals(rows@)[t]),
        decreases n - i,
    {
        proof {
            assert(mat_vals(a@)[i as int] == vals(a@[i as int]@));
            assert(all_wf(vals(a@[i as int]@)));
        }
        let mut row = dup_row(&a[i]);
        let ghost before = row@;
        row.push(b[i].dup());
        proof {
            assert(forall|t: int| 0 <= t < n
                ==> #[trigger] vals(row@)[t] == vals(before)[t]);
            assert(vals(row@)[n as int] == vals(b@)[i as int]);
            assert(all_wf(vals(row@)));
        }
        let ghost old_rows = rows@;
        rows.push(row);
        proof {
            assert(mat_vals(rows@)[i as int] == vals(row@));
            assert(forall|t: int| 0 <= t < i
                ==> #[trigger] mat_vals(rows@)[t] == mat_vals(old_rows)[t]);
        }
        i += 1;
    }
    // Gauss-Jordan: one pivot per column, eliminating it from every other row.
    let mut c: usize = 0;
    while c < n
        invariant
            0 <= c <= n,
            n == a@.len() == b@.len(),
            rows@.len() == n,
            forall|t: int| 0 <= t < n ==> (#[trigger] mat_vals(rows@)[t]).len() == n + 1,
            forall|t: int| 0 <= t < n ==> all_wf(#[trigger] mat_vals(rows@)[t]),
        decreases n - c,
    {
        // Find a row at or below the diagonal with a nonzero pivot entry.
        let mut p: usize = c;
        let mut found: bool = false;
        let mut q: usize = c;
        while q < n
            invariant
                c <= q <= n,
                c <= p,
                found ==> p < n && mat_vals(rows@)[p as int][c as int].n != 0,
                rows@.len() == n,
                forall|t: int| 0 <= t < n ==> (#[trigger] mat_vals(rows@)[t]).len() == n + 1,
                c < n,
            decreases n - q,
        {
            if !found {
                proof {
                    assert(mat_vals(rows@)[q as int] == vals(rows@[q as int]@));
                }
                if !rows[q][c].num_is_zero() {
                    p = q;
                    found = true;
                }
            }
            q += 1;
        }
        if !found {
            return None;
        }
        proof {
            assert(mat_vals(rows@)[p as int] == vals(rows@[p as int]@));
            assert(r_wf(vals(rows@[p as int]@)[c as int]));
            assert(vals(rows@[p as int]@)[c as int].n != 0);
        }
        let pivot = rows[p][c].dup();
        let prow = scale_row(&rows[p], &pivot);
        let mut newrows: Vec<Vec<Rational>> = Vec::new();
        let mut r2: usize = 0;
        while r2 < n
            invariant
                0 <= r2 <= n,
                c < n,
                p < n,
                n == a@.len(),
                rows@.len() == n,
                prow@.len() == n + 1,
                all_wf(vals(prow@)),
                forall|t: int| 0 <= t < n ==> (#[trigger] mat_vals(rows@)[t]).len() == n + 1,
                forall|t: int| 0 <= t < n ==> all_wf(#[trigger] mat_vals(rows@)[t]),
                newrows@.len() == r2,
                forall|t: int| 0 <= t < r2 ==> (#[trigger] mat_vals(newrows@)[t]).len() == n + 1,
                forall|t: int| 0 <= t < r2 ==> all_wf(#[trigger] mat_vals(newrows@)[t]),
            decreases n - r2,
        {
            let newrow: Vec<Rational> = if r2 == c {
                dup_row(&prow)
            } else {
                let src: &Vec<Rational> = if r2 == p { &rows[c] } else { &rows[r2] };
                proof {
                    assert(mat_vals(rows@)[c as int] == vals(rows@[c as int]@));
                    assert(mat_vals(rows@)[r2 as int] == vals(rows@[r2 as int]@));
                    assert(all_wf(vals(src@)) && src@.len() == n + 1);
                    assert(r_wf(vals(src@)[c as int]));
                }
                let factor = src[c].dup();
                row_sub_mul(src, &factor, &prow)
            };
            let ghost old_newrows = newrows@;
            newrows.push(newrow);
            proof {
                assert(mat_vals(newrows@)[r2 as int] == vals(newrows@[r2 as int]@));
                assert(forall|t: int| 0 <= t < r2
                    ==> #[trigger] mat_vals(newrows@)[t] == mat_vals(old_newrows)[t]);
            }
            r2 += 1;
        }
        rows = newrows;
        c += 1;
    }
    // The augmented column now holds the candidate solution.
    let mut x: Vec<Rational> = Vec::new();
    let mut t: usize = 0;
    while t < n
        invariant
            0 <= t <= n,
            n == a@.len(),
            rows@.len() == n,
            forall|u: int| 0 <= u < n ==> (#[trigger] mat_vals(rows@)[u]).len() == n + 1,
            forall|u: int| 0 <= u < n ==> all_wf(#[trigger] mat_vals(rows@)[u]),
            x@.len() == t,
            all_wf(vals(x@)),
        decreases n - t,
    {
        proof {
            assert(mat_vals(rows@)[t as int] == vals(rows@[t as int]@));
            assert(r_wf(vals(rows@[t as int]@)[n as int]));
        }
        let entry = rows[t][n].dup();
        let ghost old_x = x@;
        x.push(entry);
        proof {
            assert(forall|u: int| 0 <= u < t
                ==> #[trigger] vals(x@)[u] == vals(old_x)[u]);
            assert(vals(x@)[t as int] == entry@);
        }
        t += 1;
    }
    if check_solution(a, &x, b) {
        Some(x)
    } else {
        None
    }
}

} // verus!
