//! Rendering a weight vector as the human-readable report: a title line,
//! then one `  <ticker>: <weight in percent, two decimals>%` line per asset.
//! Percentages are rounded to the nearest hundredth, ties away from zero;
//! the exact digits are pinned by the spec functions below.

use vstd::prelude::*;
use crate::bignum::{big, big_from_i64, big_add, big_sub, big_mul, big_eq, big_lt,
    big_div_floor};
use crate::csv::pow10;
use crate::rational::{Ratio, Rational, r_wf};
use crate::vecops::vals;

verus! {

/// The decimal digits of a positive integer, most significant first (empty
/// for zero and negatives).
pub open spec fn dec_digits(v: int) -> Seq<u8>
    decreases v,
{
    if v <= 0 {
        Seq::empty()
    } else {
        dec_digits(v / 10).push((v % 10 + 48) as u8)
    }
}

/// The decimal digits of a non-negative integer, with `0` spelled out.
pub open spec fn digits_of(v: int) -> Seq<u8> {
    if v == 0 {
        seq![48u8]
    } else {
        dec_digits(v)
    }
}

/// The weight as a whole number of hundredths of a percent, rounded to
/// nearest with ties away from zero; the sign is handled separately.
pub open spec fn percent_scaled(w: Ratio) -> int {
    let a = if w.n < 0 { -w.n } else { w.n };
    (20000 * a + w.d) / (2 * w.d)
}

/// Exactly two digits for the fractional part `0 <= v < 100`.
pub open spec fn two_digits(v: int) -> Seq<u8> {
    seq![(48 + v / 10) as u8, (48 + v % 10) as u8]
}

/// The rendered percentage, e.g. `12.34` or `-0.50`.
pub open spec fn percent_bytes(w: Ratio) -> Seq<u8> {
    let k = percent_scaled(w);
    let sign: Seq<u8> = if w.n < 0 && k != 0 { seq![45u8] } else { Seq::empty() };
    sign + digits_of(k / 100) + seq![46u8] + two_digits(k % 100)
}

/// The decimal digits of a non-negative big integer.
fn big_digits(v: &num_bigint::BigInt) -> (r: Vec<u8>)
    requires
        big(*v) >= 0,
    ensures
        r@ == digits_of(big(*v)),
{
    let zero = big_from_i64(0);
    let ten = big_from_i64(10);
    if !big_lt(&zero, v) {
        let mut out: Vec<u8> = Vec::new();
        out.push(48);
        proof {
            assert(out@ =~= seq![48u8]);
        }
        return out;
    }
    let mut cur = crate::bignum::big_clone(v);
    let mut out: Vec<u8> = Vec::new();
    while big_lt(&zero, &cur)
        invariant
            big(zero) == 0,
            big(ten) == 10,
            0 <= big(cur),
            dec_digits(big(*v)) == dec_digits(big(cur)) + out@,
        decreases big(cur),
    {
        let q = big_div_floor(&cur, &ten);
        let d = big_sub(&cur, &big_mul(&q, &ten));
        proof {
            let c = big(cur);
            let qq = big(q);
            assert(qq == c / 10 && c - qq * 10 == c % 10) by (nonlinear_arith)
                requires
                    qq * 10 <= c,
                    c < (qq + 1) * 10,
                    c > 0,
            ;
            assert(0 <= c % 10 < 10);
            assert(qq < c) by (nonlinear_arith)
                requires
                    qq * 10 <= c,
                    c > 0,
                    qq == c / 10,
            ;
        }
        let di = match crate::bignum::big_to_i64(&d) {
            Some(x) => x,
            None => 0,
        };
        let byte: u8 = (di + 48) as u8;
        let ghost old_out = out@;
        out.insert(0, byte);
        proof {
            assert(out@ =~= seq![byte].add(old_out));
            assert(dec_digits(big(cur)) == dec_digits(big(q)).push(byte));
            assert(dec_digits(big(q)) + out@ =~= dec_digits(big(cur)) + old_out);
        }
        cur = q;
    }
    proof {
        assert(dec_digits(big(cur)) =~= Seq::<u8>::empty());
        assert(dec_digits(big(*v)) =~= out@);
    }
    out
}

/// Renders a weight as a percentage with two decimal places, rounding to
/// nearest with ties away from zero.
pub fn format_percent(w: &Rational) -> (r: Vec<u8>)
    requires
        r_wf(w@),
    ensures
        r@ == percent_bytes(w@),
{
    let (n, d) = w.parts();
    let zero = big_from_i64(0);
    let neg = big_lt(&n, &zero);
    let a = if neg { crate::bignum::big_neg(&n) } else { n };
    let num = big_add(&big_mul(&big_from_i64(20000), &a), &d);
    let den = big_mul(&big_from_i64(2), &d);
    proof {
        assert(big(den) == 2 * w@.d);
        assert(big(den) > 0);
        assert(big(num) >= 0) by (nonlinear_arith)
            requires
                big(num) == 20000 * big(a) + big(d),
                big(a) >= 0,
                big(d) > 0,
        ;
    }
    let k = big_div_floor(&num, &den);
    proof {
        let kk = big(k);
        let x = big(num);
        let y = big(den);
        assert(kk == x / y && kk >= 0) by (nonlinear_arith)
            requires
                kk * y <= x,
                x < (kk + 1) * y,
                x >= 0,
                y > 0,
        ;
        assert(big(k) == percent_scaled(w@));
    }
    let hundred = big_from_i64(100);
    let q = big_div_floor(&k, &hundred);
    let rem = big_sub(&k, &big_mul(&q, &hundred));
    proof {
        let kk = big(k);
        let qq = big(q);
        assert(qq == kk / 100 && kk - qq * 100 == kk % 100 && qq >= 0) by (nonlinear_arith)
            requires
                qq * 100 <= kk,
                kk < (qq + 1) * 100,
                kk >= 0,
        ;
        assert(0 <= kk % 100 < 100);
    }
    let frac = match crate::bignum::big_to_i64(&rem) {
        Some(x) => x,
        None => 0,
    };
    let mut out: Vec<u8> = Vec::new();
    let k_is_zero = !big_lt(&zero, &k);
    if neg && !k_is_zero {
        out.push(45);
    }
    let ghost sign_part = out@;
    proof {
        if w@.n < 0 && percent_scaled(w@) != 0 {
            assert(sign_part =~= seq![45u8]);
        } else {
            assert(sign_part =~= Seq::<u8>::empty());
        }
    }
    let ip = big_digits(&q);
    let mut i: usize = 0;
    while i < ip.len()
        invariant
            0 <= i <= ip@.len(),
            out@ == sign_part + ip@.take(i as int),
        decreases ip@.len() - i,
    {
        out.push(ip[i]);
        proof {
            assert(sign_part + ip@.take(i + 1)
                =~= (sign_part + ip@.take(i as int)).push(ip@[i as int]));
        }
        i += 1;
    }
    proof {
        assert(ip@.take(ip@.len() as int) =~= ip@);
    }
    out.push(46);
    out.push((frac / 10 + 48) as u8);
    out.push((frac % 10 + 48) as u8);
    proof {
        let k0 = percent_scaled(w@);
        assert(out@ =~= sign_part + digits_of(k0 / 100) + seq![46u8] + two_digits(k0 % 100));
    }
    out
}

/// The value in millionths, rounded to nearest with ties away from zero;
/// the sign is handled separately.
pub open spec fn fixed6_scaled(w: Ratio) -> int {
    let a = if w.n < 0 { -w.n } else { w.n };
    (2000000 * a + w.d) / (2 * w.d)
}

/// Exactly six digits for the fractional part `0 <= v < 1000000`.
pub open spec fn six_digits(v: int) -> Seq<u8> {
    seq![(48 + v / 100000 % 10) as u8, (48 + v / 10000 % 10) as u8,
        (48 + v / 1000 % 10) as u8, (48 + v / 100 % 10) as u8,
        (48 + v / 10 % 10) as u8, (48 + v % 10) as u8]
}

/// The rendered fixed-point value with six decimal places, e.g. `0.009901`
/// or `-0.020408`.
pub open spec fn fixed6_bytes(w: Ratio) -> Seq<u8> {
    let k = fixed6_scaled(w);
    let sign: Seq<u8> = if w.n < 0 && k != 0 { seq![45u8] } else { Seq::empty() };
    sign + digits_of(k / 1000000) + seq![46u8] + six_digits(k % 1000000)
}

/// Renders a value in fixed-point notation with six decimal places,
/// rounding to nearest with ties away from zero.
pub fn format_fixed6(w: &Rational) -> (r: Vec<u8>)
    requires
        r_wf(w@),
    ensures
        r@ == fixed6_bytes(w@),
{
    let (n, d) = w.parts();
    let zero = big_from_i64(0);
    let neg = big_lt(&n, &zero);
    let a = if neg { crate::bignum::big_neg(&n) } else { n };
    let num = big_add(&big_mul(&big_from_i64(2000000), &a), &d);
    let den = big_mul(&big_from_i64(2), &d);
    proof {
        assert(big(den) == 2 * w@.d);
        assert(big(den) > 0);
        assert(big(num) >= 0) by (nonlinear_arith)
            requires
                big(num) == 2000000 * big(a) + big(d),
                big(a) >= 0,
                big(d) > 0,
        ;
    }
    let k = big_div_floor(&num, &den);
    proof {
        let kk = big(k);
        let x = big(num);
        let y = big(den);
        assert(kk == x / y && kk >= 0) by (nonlinear_arith)
            requires
                kk * y <= x,
                x < (kk + 1) * y,
                x >= 0,
                y > 0,
        ;
        assert(big(k) == fixed6_scaled(w@));
    }
    let million = big_from_i64(1000000);
    let q = big_div_floor(&k, &million);
    let rem = big_sub(&k, &big_mul(&q, &million));
    proof {
        let kk = big(k);
        let qq = big(q);
        assert(qq == kk / 1000000 && kk - qq * 1000000 == kk % 1000000 && qq >= 0)
            by (nonlinear_arith)
            requires
                qq * 1000000 <= kk,
                kk < (qq + 1) * 1000000,
                kk >= 0,
        ;
        assert(0 <= kk % 1000000 < 1000000);
    }
    let frac = match crate::bignum::big_to_i64(&rem) {
        Some(x) => x,
        None => 0,
    };
    let mut out: Vec<u8> = Vec::new();
    let k_is_zero = !big_lt(&zero, &k);
    if neg && !k_is_zero {
        out.push(45);
    }
    let ghost sign_part = out@;
    proof {
        if w@.n < 0 && fixed6_scaled(w@) != 0 {
            assert(sign_part =~= seq![45u8]);
        } else {
            assert(sign_part =~= Seq::<u8>::empty());
        }
    }
    let ip = big_digits(&q);
    let mut i: usize = 0;
    while i < ip.len()
        invariant
            0 <= i <= ip@.len(),
            out@ == sign_part + ip@.take(i as int),
        decreases ip@.len() - i,
    {
        out.push(ip[i]);
        proof {
            assert(sign_part + ip@.take(i + 1)
                =~= (sign_part + ip@.take(i as int)).push(ip@[i as int]));
        }
        i += 1;
    }
    proof {
        assert(ip@.take(ip@.len() as int) =~= ip@);
    }
    out.push(46);
    out.push((48 + frac / 100000 % 10) as u8);
    out.push((48 + frac / 10000 % 10) as u8);
    out.push((48 + frac / 1000 % 10) as u8);
    out.push((48 + frac / 100 % 10) as u8);
    out.push((48 + frac / 10 % 10) as u8);
    out.push((48 + frac % 10) as u8);
    proof {
        let k0 = fixed6_scaled(w@);
        assert(out@ =~= sign_part + digits_of(k0 / 1000000) + seq![46u8]
            + six_digits(k0 % 1000000));
    }
    out
}

/// The numerator and positive denominator of `|x| * 10^(-e)`.
pub open spec fn shifted(x: Ratio, e: int) -> (int, int) {
    let a = if x.n < 0 { -x.n } else { x.n };
    if e >= 0 {
        (a, x.d * pow10(e as nat))
    } else {
        (a * pow10((-e) as nat), x.d)
    }
}

/// `m` is `|x| * 10^(-e)` in hundredths, rounded to nearest with ties away
/// from zero: writing `(num, den)` for `|x| * 10^(-e)`, the rounding of
/// `100 * num / den` is `m`.
pub open spec fn sci_approx(x: Ratio, m: int, e: int) -> bool {
    (2 * m - 1) * shifted(x, e).1 <= 200 * shifted(x, e).0
        && 200 * shifted(x, e).0 < (2 * m + 1) * shifted(x, e).1
}

/// The rendered scientific notation `d.dde<exp>`, e.g. `1.23e-7`.
pub open spec fn sci_bytes(negative: bool, m: int, e: int) -> Seq<u8> {
    let sign: Seq<u8> = if negative { seq![45u8] } else { Seq::<u8>::empty() };
    let epart: Seq<u8> = if e < 0 { seq![45u8] + digits_of(-e) } else { digits_of(e) };
    sign + digits_of(m / 100) + seq![46u8] + two_digits(m % 100) + seq![101u8] + epart
}

/// Renders a value in scientific notation with two places after the point,
/// rounding to nearest with ties away from zero, e.g. `1.23e-7`. Zero is
/// rendered as `0.00e0`.
#[verifier::rlimit(60)]
pub fn format_scientific(w: &Rational) -> (r: Vec<u8>)
    requires
        r_wf(w@),
    ensures
        w@.n == 0 ==> r@ == sci_bytes(false, 0, 0),
        w@.n != 0 ==> exists|m: int, e: int|
            100 <= m < 1000 && sci_approx(w@, m, e) && r@ == sci_bytes(w@.n < 0, m, e),
{
    let (n0, d0) = w.parts();
    let zero = big_from_i64(0);
    let one = big_from_i64(1);
    let ten = big_from_i64(10);
    let neg = big_lt(&n0, &zero);
    if big_eq(&n0, &zero) {
        let mut out: Vec<u8> = Vec::new();
        out.push(48);
        out.push(46);
        out.push(48);
        out.push(48);
        out.push(101);
        out.push(48);
        proof {
            assert(digits_of(0) =~= seq![48u8]);
            assert(two_digits(0) =~= seq![48u8, 48u8]);
            assert(out@ =~= sci_bytes(false, 0, 0));
        }
        return out;
    }
    let mut num = if neg { crate::bignum::big_neg(&n0) } else { n0 };
    let mut den = crate::bignum::big_clone(&d0);
    let mut e = big_from_i64(0);
    let ghost x = w@;
    let ghost a = if x.n < 0 { -x.n } else { x.n };
    proof {
        assert(a >= 1);
        assert(pow10(0) == 1);
        assert(big(num) == a && big(den) == x.d * 1);
    }
    // Bring num/den = |x| * 10^(-e) into [1, 10).
    while big_lt(&num, &den)
        invariant
            big(ten) == 10,
            big(one) == 1,
            x == w@,
            a == (if x.n < 0 { -x.n } else { x.n }),
            a >= 1,
            x.d > 0,
            big(num) >= 1,
            big(den) >= 1,
            big(e) <= 0,
            big(num) == shifted(x, big(e)).0,
            big(den) == shifted(x, big(e)).1,
            big(num) < 10 * big(den) || big(e) == 0,
        decreases 10 * big(den) - big(num),
    {
        let ghost old_num = big(num);
        let ghost old_e = big(e);
        num = big_mul(&num, &ten);
        e = big_sub(&e, &one);
        proof {
            assert(pow10((-(old_e - 1)) as nat) == 10 * pow10((-old_e) as nat));
            if old_e == 0 {
                assert(pow10(0) == 1);
                assert(shifted(x, old_e).0 == a);
                assert(old_num == a);
                assert(big(num) == a * 10);
                assert(a * 10 == a * (10 * 1)) by (nonlinear_arith);
            } else {
                assert(shifted(x, old_e).0 == a * pow10((-old_e) as nat));
                assert(big(num) == (a * pow10((-old_e) as nat)) * 10);
                assert((a * pow10((-old_e) as nat)) * 10 == a * (10 * pow10((-old_e) as nat)))
                    by (nonlinear_arith);
            }
            assert(big(e) == old_e - 1);
            assert(shifted(x, old_e - 1).0 == a * pow10((-(old_e - 1)) as nat));
            assert(big(num) == shifted(x, old_e - 1).0);
            assert(shifted(x, old_e - 1).1 == x.d);
            assert(shifted(x, old_e).1 == big(den));
            if old_e == 0 {
                assert(big(den) == x.d * pow10(0) == x.d * 1);
            }
            assert(big(num) >= old_num + 1) by (nonlinear_arith)
                requires
                    big(num) == old_num * 10,
                    old_num >= 1,
            ;
        }
    }
    let mut den10 = big_mul(&den, &ten);
    while !big_lt(&num, &den10)
        invariant
            big(ten) == 10,
            big(one) == 1,
            x == w@,
            a == (if x.n < 0 { -x.n } else { x.n }),
            a >= 1,
            x.d > 0,
            big(num) >= 1,
            big(den) >= 1,
            big(den) <= big(num),
            big(den10) == 10 * big(den),
            big(num) == shifted(x, big(e)).0,
            big(den) == shifted(x, big(e)).1,
            big(num) >= 10 * big(den) ==> big(e) >= 0,
        decreases big(num) - big(den),
    {
        let ghost old_den = big(den);
        let ghost old_e = big(e);
        den = den10;
        e = big_add(&e, &one);
        den10 = big_mul(&den, &ten);
        proof {
            assert(old_e >= 0);
            assert(pow10((old_e + 1) as nat) == 10 * pow10(old_e as nat));
            assert(big(den) == (x.d * pow10(old_e as nat)) * 10);
            assert((x.d * pow10(old_e as nat)) * 10 == x.d * (10 * pow10(old_e as nat)))
                by (nonlinear_arith);
            assert(big(den) >= old_den + 1) by (nonlinear_arith)
                requires
                    big(den) == old_den * 10,
                    old_den >= 1,
            ;
        }
    }
    proof {
        assert(big(den) <= big(num) < 10 * big(den));
    }
    // Mantissa in hundredths, rounded half away from zero.
    let mnum = big_add(&big_mul(&big_from_i64(200), &num), &den);
    let mden = big_mul(&big_from_i64(2), &den);
    let m_big = big_div_floor(&mnum, &mden);
    proof {
        let mm = big(m_big);
        let nu = big(num);
        let de = big(den);
        assert((2 * mm - 1) * de <= 200 * nu && 200 * nu < (2 * mm + 1) * de)
            by (nonlinear_arith)
            requires
                mm * (2 * de) <= 200 * nu + de,
                200 * nu + de < (mm + 1) * (2 * de),
                de >= 1,
        ;
        assert(100 <= mm <= 1000) by (nonlinear_arith)
            requires
                (2 * mm - 1) * de <= 200 * nu,
                200 * nu < (2 * mm + 1) * de,
                de <= nu,
                nu < 10 * de,
                de >= 1,
        ;
    }
    let mut m: i64 = 0;
    if big_eq(&m_big, &big_from_i64(1000)) {
        m = 100;
        let ghost old_e = big(e);
        e = big_add(&e, &one);
        proof {
            let de = big(den);
            let nu = big(num);
            if old_e >= 0 {
                assert(pow10((old_e + 1) as nat) == 10 * pow10(old_e as nat));
                assert(shifted(x, big(e)).1 == x.d * (10 * pow10(old_e as nat)));
                assert(x.d * (10 * pow10(old_e as nat)) == 10 * (x.d * pow10(old_e as nat)))
                    by (nonlinear_arith);
                assert(sci_approx(x, 100, big(e))) by (nonlinear_arith)
                    requires
                        shifted(x, big(e)).0 == nu,
                        shifted(x, big(e)).1 == 10 * de,
                        (2 * 1000 - 1) * de <= 200 * nu,
                        200 * nu < (2 * 1000 + 1) * de,
                        de >= 1,
                ;
            } else {
                assert(pow10((-old_e) as nat) == 10 * pow10((-(old_e + 1)) as nat));
                let nu2 = shifted(x, big(e)).0;
                assert(old_e < 0);
                assert(shifted(x, old_e).0 == a * pow10((-old_e) as nat));
                assert(nu == shifted(x, old_e).0);
                assert(nu == a * (10 * pow10((-(old_e + 1)) as nat)));
                assert(a * (10 * pow10((-(old_e + 1)) as nat))
                    == 10 * (a * pow10((-(old_e + 1)) as nat))) by (nonlinear_arith);
                if old_e + 1 == 0 {
                    assert(pow10(0) == 1);
                    assert(nu2 == a);
                    assert(a * (10 * 1) == 10 * a) by (nonlinear_arith);
                } else {
                    assert(nu2 == a * pow10((-(old_e + 1)) as nat));
                }
                assert(nu == 10 * nu2);
                assert((2 * 100 - 1) * de <= 200 * nu2 && 200 * nu2 < (2 * 100 + 1) * de)
                    by (nonlinear_arith)
                    requires
                        nu == 10 * nu2,
                        (2 * 1000 - 1) * de <= 200 * nu,
                        200 * nu < (2 * 1000 + 1) * de,
                        de >= 1,
                ;
                assert(sci_approx(x, 100, big(e)));
            }
        }
    } else {
        m = match crate::bignum::big_to_i64(&m_big) {
            Some(v) => v,
            None => 0,
        };
        proof {
            assert(m == big(m_big) && 100 <= m < 1000);
            assert(sci_approx(x, m as int, big(e)));
        }
    }
    // Render: sign, leading digit, dot, two digits, `e`, exponent.
    let ghost final_e = big(e);
    let ghost final_m = m as int;
    let mut out: Vec<u8> = Vec::new();
    if neg {
        out.push(45);
    }
    let ghost sign_part = out@;
    proof {
        if x.n < 0 {
            assert(sign_part =~= seq![45u8]);
        } else {
            assert(sign_part =~= Seq::<u8>::empty());
        }
        assert(1 <= final_m / 100 <= 9);
        assert(dec_digits(0) == Seq::<u8>::empty());
        assert((final_m / 100) / 10 == 0 && (final_m / 100) % 10 == final_m / 100);
        assert(dec_digits(final_m / 100)
            =~= Seq::<u8>::empty().push((final_m / 100 + 48) as u8));
        assert(digits_of(final_m / 100) =~= seq![(final_m / 100 + 48) as u8]);
    }
    out.push((m / 100 + 48) as u8);
    out.push(46);
    out.push(((m % 100) / 10 + 48) as u8);
    out.push(((m % 100) % 10 + 48) as u8);
    out.push(101);
    proof {
        assert((m % 100) / 10 == (final_m % 100) / 10 && (m % 100) % 10 == (final_m % 100) % 10);
    }
    let enegative = big_lt(&e, &zero);
    if enegative {
        out.push(45);
    }
    let ghost head = out@;
    let eabs = if enegative { crate::bignum::big_neg(&e) } else { e };
    let edig = big_digits(&eabs);
    let mut p: usize = 0;
    while p < edig.len()
        invariant
            0 <= p <= edig@.len(),
            out@ == head + edig@.take(p as int),
        decreases edig@.len() - p,
    {
        out.push(edig[p]);
        proof {
            assert(head + edig@.take(p + 1)
                =~= (head + edig@.take(p as int)).push(edig@[p as int]));
        }
        p += 1;
    }
    proof {
        assert(edig@.take(edig@.len() as int) =~= edig@);
        assert(edig@ == digits_of(if final_e < 0 { -final_e } else { final_e }));
        assert(out@ =~= sci_bytes(x.n < 0, final_m, final_e));
        assert(sci_approx(x, final_m, final_e));
    }
    out
}

/// One report line: two spaces, the ticker, a colon, the percentage, `%`,
/// newline.
pub open spec fn report_line(t: Seq<u8>, w: Ratio) -> Seq<u8> {
    seq![32u8, 32u8] + t + seq![58u8, 32u8] + percent_bytes(w) + seq![37u8, 10u8]
}

/// The per-asset lines of the report, in order.
pub open spec fn report_body(ts: Seq<Seq<u8>>, ws: Seq<Ratio>) -> Seq<u8>
    decreases ts.len(),
{
    if ts.len() == 0 {
        Seq::empty()
    } else {
        report_body(ts.drop_last(), ws.drop_last()) + report_line(ts.last(), ws.last())
    }
}

/// The whole report: the title line, then one line per asset.
pub open spec fn report_spec(title: Seq<u8>, ts: Seq<Seq<u8>>, ws: Seq<Ratio>) -> Seq<u8> {
    title + seq![10u8] + report_body(ts, ws)
}

/// Renders the final report for a strategy.
pub fn format_report(title: &[u8], tickers: &Vec<Vec<u8>>, weights: &Vec<Rational>)
    -> (r: Vec<u8>)
    requires
        tickers@.len() == weights@.len(),
        crate::vecops::all_wf(vals(weights@)),
    ensures
        r@ == report_spec(title@, tickers@.map_values(|t: Vec<u8>| t@), vals(weights@)),
{
    let ghost ts = tickers@.map_values(|t: Vec<u8>| t@);
    let ghost ws = vals(weights@);
    let mut out: Vec<u8> = Vec::new();
    let mut i: usize = 0;
    while i < title.len()
        invariant
            0 <= i <= title@.len(),
            out@ == title@.take(i as int),
        decreases title@.len() - i,
    {
        out.push(title[i]);
        proof {
            assert(title@.take(i + 1) =~= title@.take(i as int).push(title@[i as int]));
        }
        i += 1;
    }
    proof {
        assert(title@.take(title@.len() as int) =~= title@);
    }
    out.push(10);
    proof {
        assert(out@ =~= title@ + seq![10u8]);
        assert(report_body(ts.take(0), ws.take(0)) =~= Seq::<u8>::empty());
        assert(out@ =~= title@ + seq![10u8] + report_body(ts.take(0), ws.take(0)));
    }
    let mut a: usize = 0;
    while a < tickers.len()
        invariant
            0 <= a <= tickers@.len(),
            tickers@.len() == weights@.len(),
            crate::vecops::all_wf(ws),
            ts == tickers@.map_values(|t: Vec<u8>| t@),
            ws == vals(weights@),
            out@ == title@ + seq![10u8] + report_body(ts.take(a as int), ws.take(a as int)),
        decreases tickers@.len() - a,
    {
        out.push(32);
        out.push(32);
        let ghost line_start = out@;
        let mut j: usize = 0;
        let t = &tickers[a];
        while j < t.len()
            invariant
                0 <= j <= t@.len(),
                t@ == ts[a as int],
                out@ == line_start + t@.take(j as int),
            decreases t@.len() - j,
        {
            out.push(t[j]);
            proof {
                assert(line_start + t@.take(j + 1)
                    =~= (line_start + t@.take(j as int)).push(t@[j as int]));
            }
            j += 1;
        }
        proof {
            assert(t@.take(t@.len() as int) =~= t@);
        }
        out.push(58);
        out.push(32);
        proof {
            assert(r_wf(ws[a as int]));
        }
        let pct = format_percent(&weights[a]);
        let mut p: usize = 0;
        let ghost pct_start = out@;
        while p < pct.len()
            invariant
                0 <= p <= pct@.len(),
                out@ == pct_start + pct@.take(p as int),
            decreases pct@.len() - p,
        {
            out.push(pct[p]);
            proof {
                assert(pct_start + pct@.take(p + 1)
                    =~= (pct_start + pct@.take(p as int)).push(pct@[p as int]));
            }
            p += 1;
        }
        proof {
            assert(pct@.take(pct@.len() as int) =~= pct@);
        }
        out.push(37);
        out.push(10);
        proof {
            assert(ts.take(a + 1).drop_last() =~= ts.take(a as int));
            assert(ws.take(a + 1).drop_last() =~= ws.take(a as int));
            assert(ts.take(a + 1).last() == ts[a as int]);
            assert(ws.take(a + 1).last() == ws[a as int]);
            assert(out@ =~= title@ + seq![10u8]
                + report_body(ts.take(a + 1), ws.take(a + 1)));
        }
        a += 1;
    }
    proof {
        assert(ts.take(ts.len() as int) =~= ts);
        assert(ws.take(ws.len() as int) =~= ws);
    }
    out
}

} // verus!
