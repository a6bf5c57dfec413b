//! Parsing of comma-separated price tables from raw bytes. The header row
//! must start with `Date`, followed by one ticker per column; each further
//! row holds a date and one decimal price per ticker. Rows whose field count
//! does not match the header are skipped, a deliberate tolerance for ragged
//! or blank trailing lines; a price field that is not a plain decimal in a
//! row of the right width is an error.

use vstd::prelude::*;
use crate::bignum::{big, big_from_i64, big_add, big_mul, big_neg};
use crate::rational::{Ratio, Rational, r_wf};
use crate::vecops::{vals, all_wf};
use crate::series::{PriceData, mat_vals, mat_wf};

verus! {

/// The fields joined back together with `sep` between them.
pub open spec fn joined(fields: Seq<Seq<u8>>, sep: u8) -> Seq<u8>
    decreases fields.len(),
{
    if fields.len() == 0 {
        Seq::empty()
    } else if fields.len() == 1 {
        fields[0]
    } else {
        joined(fields.drop_last(), sep) + seq![sep] + fields.last()
    }
}

/// No field contains the separator.
pub open spec fn sep_free(fields: Seq<Seq<u8>>, sep: u8) -> bool {
    forall|i: int| 0 <= i < fields.len() ==> !(#[trigger] fields[i]).contains(sep)
}

/// How many times `sep` occurs in `s`.
pub open spec fn count_seps(s: Seq<u8>, sep: u8) -> int
    decreases s.len(),
{
    if s.len() == 0 {
        0
    } else {
        count_seps(s.drop_last(), sep) + (if s.last() == sep { 1int } else { 0int })
    }
}

proof fn lemma_count_concat(x: Seq<u8>, y: Seq<u8>, sep: u8)
    ensures
        count_seps(x + y, sep) == count_seps(x, sep) + count_seps(y, sep),
    decreases y.len(),
{
    if y.len() == 0 {
        assert(x + y =~= x);
    } else {
        assert((x + y).drop_last() =~= x + y.drop_last());
        assert((x + y).last() == y.last());
        assert((x + y).len() > 0);
        lemma_count_concat(x, y.drop_last(), sep);
    }
}

proof fn lemma_count_sepfree(s: Seq<u8>, sep: u8)
    requires
        !s.contains(sep),
    ensures
        count_seps(s, sep) == 0,
    decreases s.len(),
{
    if s.len() > 0 {
        assert(s.last() != sep);
        assert(!s.drop_last().contains(sep)) by {
            if s.drop_last().contains(sep) {
                let i = choose|i: int| 0 <= i < s.drop_last().len()
                    && s.drop_last()[i] == sep;
                assert(s[i] == sep);
            }
        }
        lemma_count_sepfree(s.drop_last(), sep);
    }
}

/// Any separator-free decomposition of a sequence has exactly one more
/// field than the sequence has separators, so all decompositions of the
/// same sequence have the same field count.
pub proof fn lemma_joined_field_count(f: Seq<Seq<u8>>, sep: u8)
    requires
        f.len() >= 1,
        sep_free(f, sep),
    ensures
        count_seps(joined(f, sep), sep) == f.len() - 1,
    decreases f.len(),
{
    if f.len() == 1 {
        lemma_count_sepfree(f[0], sep);
    } else {
        assert(sep_free(f.drop_last(), sep)) by {
            assert(forall|i: int| 0 <= i < f.len() - 1
                ==> #[trigger] f.drop_last()[i] == f[i]);
        }
        lemma_joined_field_count(f.drop_last(), sep);
        lemma_count_concat(joined(f.drop_last(), sep) + seq![sep], f.last(), sep);
        lemma_count_concat(joined(f.drop_last(), sep), seq![sep], sep);
        assert(count_seps(seq![sep], sep) == 1) by {
            assert(seq![sep].drop_last() =~= Seq::<u8>::empty());
            assert(count_seps(Seq::<u8>::empty(), sep) == 0);
            assert(seq![sep].last() == sep);
            assert(count_seps(seq![sep], sep)
                == count_seps(seq![sep].drop_last(), sep) + 1);
        }
        lemma_count_sepfree(f.last(), sep);
        assert(!f.last().contains(sep));
    }
}

/// Splits `s` at every occurrence of `sep`. The two postconditions pin the
/// result down completely: the fields are separator-free and joining them
/// with `sep` restores `s` exactly.
pub fn split_bytes(s: &[u8], sep: u8) -> (r: Vec<Vec<u8>>)
    ensures
        r@.len() >= 1,
        sep_free(r@.map_values(|f: Vec<u8>| f@), sep),
        joined(r@.map_values(|f: Vec<u8>| f@), sep) == s@,
{
    let mut fields: Vec<Vec<u8>> = Vec::new();
    let mut cur: Vec<u8> = Vec::new();
    let mut i: usize = 0;
    while i < s.len()
        invariant
            0 <= i <= s@.len(),
            sep_free(fields@.map_values(|f: Vec<u8>| f@), sep),
            !cur@.contains(sep),
            joined(fields@.map_values(|f: Vec<u8>| f@).push(cur@), sep) == s@.take(i as int),
        decreases s@.len() - i,
    {
        let ghost fv = fields@.map_values(|f: Vec<u8>| f@);
        let ghost old_cur = cur@;
        let b = s[i];
        if b == sep {
            fields.push(cur);
            cur = Vec::new();
            proof {
                let fv2 = fields@.map_values(|f: Vec<u8>| f@);
                assert(fv2 =~= fv.push(old_cur));
                assert forall|t: int| 0 <= t < fv2.len()
                    implies !(#[trigger] fv2[t]).contains(sep) by {
                    if t < fv.len() {
                        assert(fv2[t] == fv[t]);
                    }
                }
                assert(!cur@.contains(sep));
                // Joining after starting a fresh empty field appends exactly
                // the separator byte.
                assert(fv2.push(cur@).len() >= 2);
                assert(fv2.push(cur@).drop_last() =~= fv2);
                assert(fv2.push(cur@).last() =~= Seq::<u8>::empty());
                assert(joined(fv2.push(cur@), sep)
                    == joined(fv2, sep) + seq![sep] + Seq::<u8>::empty());
                assert(joined(fv2, sep) == joined(fv.push(old_cur), sep));
                assert(s@.take(i + 1) =~= s@.take(i as int) + seq![sep] + Seq::<u8>::empty());
                assert(joined(fv2.push(cur@), sep) == s@.take(i + 1));
            }
        } else {
            cur.push(b);
            proof {
                assert(cur@ == old_cur.push(b));
                assert forall|t: int| 0 <= t < cur@.len()
                    implies #[trigger] cur@[t] != sep by {
                    if t < old_cur.len() {
                        assert(cur@[t] == old_cur[t]);
                        assert(!old_cur.contains(sep));
                    }
                }
                assert(!cur@.contains(sep));
                if fv.len() == 0 {
                    assert(joined(fv.push(cur@), sep) == cur@);
                    assert(joined(fv.push(old_cur), sep) == old_cur);
                    assert(cur@ =~= s@.take(i + 1));
                } else {
                    assert(fv.push(cur@).len() >= 2);
                    assert(fv.push(cur@).drop_last() =~= fv);
                    assert(fv.push(old_cur).drop_last() =~= fv);
                    assert(joined(fv.push(cur@), sep) == joined(fv, sep) + seq![sep] + cur@);
                    assert(joined(fv.push(old_cur), sep)
                        == joined(fv, sep) + seq![sep] + old_cur);
                    assert(joined(fv.push(cur@), sep)
                        =~= (joined(fv, sep) + seq![sep] + old_cur).push(b));
                    assert(s@.take(i + 1) =~= s@.take(i as int).push(b));
                }
            }
        }
        i += 1;
    }
    proof {
        assert(s@.take(s@.len() as int) =~= s@);
    }
    let ghost fv = fields@.map_values(|f: Vec<u8>| f@);
    let ghost final_cur = cur@;
    fields.push(cur);
    proof {
        let fv2 = fields@.map_values(|f: Vec<u8>| f@);
        assert(fv2 =~= fv.push(final_cur));
        assert forall|t: int| 0 <= t < fv2.len()
            implies !(#[trigger] fv2[t]).contains(sep) by {
            if t < fv.len() {
                assert(fv2[t] == fv[t]);
            }
        }
        assert(joined(fv2, sep) == s@);
    }
    fields
}

/// A byte that `str::trim` would remove at either end: space, tab, or
/// carriage return.
pub open spec fn is_space(b: u8) -> bool {
    b == 32 || b == 9 || b == 13
}

/// `s` without trailing whitespace.
pub open spec fn trim_back(s: Seq<u8>) -> Seq<u8>
    decreases s.len(),
{
    if s.len() > 0 && is_space(s.last()) {
        trim_back(s.drop_last())
    } else {
        s
    }
}

/// `s` without leading whitespace.
pub open spec fn trim_front(s: Seq<u8>) -> Seq<u8>
    decreases s.len(),
{
    if s.len() > 0 && is_space(s[0]) {
        trim_front(s.skip(1))
    } else {
        s
    }
}

pub open spec fn trimmed(s: Seq<u8>) -> Seq<u8> {
    trim_front(trim_back(s))
}

/// Whitespace trimmed from both ends.
pub fn trim_bytes(s: &[u8]) -> (r: Vec<u8>)
    ensures
        r@ == trimmed(s@),
{
    let mut end: usize = s.len();
    proof {
        assert(s@.take(s@.len() as int) =~= s@);
    }
    while end > 0 && (s[end - 1] == 32 || s[end - 1] == 9 || s[end - 1] == 13)
        invariant
            0 <= end <= s@.len(),
            trim_back(s@) == trim_back(s@.take(end as int)),
        decreases end,
    {
        proof {
            assert(s@.take(end as int).last() == s@[end - 1]);
            assert(s@.take(end as int).drop_last() =~= s@.take(end - 1));
        }
        end -= 1;
    }
    proof {
        assert(s@.take(s@.len() as int) =~= s@);
        assert(trim_back(s@) == s@.take(end as int));
    }
    let mut start: usize = 0;
    proof {
        assert(s@.take(end as int).skip(0) =~= s@.take(end as int));
    }
    while start < end && (s[start] == 32 || s[start] == 9 || s[start] == 13)
        invariant
            0 <= start <= end <= s@.len(),
            trim_back(s@) == s@.take(end as int),
            trim_front(s@.take(end as int))
                == trim_front(s@.take(end as int).skip(start as int)),
        decreases end - start,
    {
        proof {
            let t = s@.take(end as int);
            assert(t.skip(start as int)[0] == s@[start as int]);
            assert(t.skip(start as int).skip(1) =~= t.skip(start + 1));
        }
        start += 1;
    }
    let mut out: Vec<u8> = Vec::new();
    let mut i: usize = start;
    while i < end
        invariant
            start <= i <= end <= s@.len(),
            out@ == s@.subrange(start as int, i as int),
        decreases end - i,
    {
        out.push(s[i]);
        proof {
            assert(s@.subrange(start as int, i + 1)
                =~= s@.subrange(start as int, i as int).push(s@[i as int]));
        }
        i += 1;
    }
    proof {
        let t = s@.take(end as int);
        let f = t.skip(start as int);
        if start < end {
            assert(!is_space(f[0]));
        }
        assert(trim_front(t) == f);
        assert(out@ =~= f);
    }
    out
}

pub open spec fn is_digit(b: u8) -> bool {
    48 <= b <= 57
}

pub open spec fn all_digits(s: Seq<u8>) -> bool {
    forall|i: int| 0 <= i < s.len() ==> is_digit(#[trigger] s[i])
}

/// The integer denoted by a digit string (most significant first).
pub open spec fn digits_val(s: Seq<u8>) -> int
    decreases s.len(),
{
    if s.len() == 0 {
        0
    } else {
        digits_val(s.drop_last()) * 10 + (s.last() - 48)
    }
}

pub open spec fn pow10(k: nat) -> int
    decreases k,
{
    if k == 0 {
        1
    } else {
        10 * pow10((k - 1) as nat)
    }
}

/// The first index of a dot in `s` at or after `from`, or the length.
pub open spec fn first_dot(s: Seq<u8>, from: int) -> int
    decreases s.len() - from,
{
    if from < 0 || from >= s.len() {
        s.len() as int
    } else if s[from] == 46 {
        from
    } else {
        first_dot(s, from + 1)
    }
}

/// First index at or after `from` holding an exponent marker `e`/`E`, or
/// the length.
pub open spec fn first_exp(s: Seq<u8>, from: int) -> int
    decreases s.len() - from,
{
    if from < 0 || from >= s.len() {
        s.len() as int
    } else if s[from] == 101 || s[from] == 69 {
        from
    } else {
        first_exp(s, from + 1)
    }
}

/// The rational an unsigned mantissa denotes: digits with at most one dot
/// and at least one digit in all.
pub open spec fn mant_spec(t: Seq<u8>) -> Option<Ratio> {
    let d = first_dot(t, 0);
    let ipart = t.take(d);
    let fpart = if d == t.len() { Seq::<u8>::empty() } else { t.skip(d + 1) };
    if all_digits(ipart) && all_digits(fpart) && ipart.len() + fpart.len() >= 1 {
        let mag = digits_val(ipart) * pow10(fpart.len()) + digits_val(fpart);
        Some(Ratio { n: mag, d: pow10(fpart.len()) })
    } else {
        None
    }
}

/// The exact rational a decimal literal denotes: an optional sign, a digit
/// mantissa with at most one dot, then an optional exponent `e`/`E` with an
/// optional sign and one to four digits. Anything else (non-finite
/// spellings, exponents of five or more digits) is not a price.
pub open spec fn dec_spec(s: Seq<u8>) -> Option<Ratio> {
    let neg = s.len() > 0 && s[0] == 45;
    let t = if s.len() > 0 && (s[0] == 43 || s[0] == 45) {
        s.skip(1)
    } else {
        s
    };
    let ei = first_exp(t, 0);
    let mant = t.take(ei);
    match mant_spec(mant) {
        None => None,
        Some(v) => {
            if ei == t.len() {
                Some(if neg { Ratio { n: -v.n, d: v.d } } else { v })
            } else {
                let ep = t.skip(ei + 1);
                let eneg = ep.len() > 0 && ep[0] == 45;
                let ed = if ep.len() > 0 && (ep[0] == 43 || ep[0] == 45) {
                    ep.skip(1)
                } else {
                    ep
                };
                if all_digits(ed) && 1 <= ed.len() <= 4 {
                    let k = digits_val(ed) as nat;
                    let v2 = if eneg {
                        Ratio { n: v.n, d: v.d * pow10(k) }
                    } else {
                        Ratio { n: v.n * pow10(k), d: v.d }
                    };
                    Some(if neg { Ratio { n: -v2.n, d: v2.d } } else { v2 })
                } else {
                    None
                }
            }
        },
    }
}

pub proof fn lemma_pow10_pos(k: nat)
    ensures
        pow10(k) > 0,
    decreases k,
{
    if k > 0 {
        lemma_pow10_pos((k - 1) as nat);
    }
}

/// A string of `k` digits denotes a value below `10^k`.
pub proof fn lemma_digits_val_bound(s: Seq<u8>)
    requires
        all_digits(s),
    ensures
        0 <= digits_val(s) < pow10(s.len()),
    decreases s.len(),
{
    if s.len() > 0 {
        assert(all_digits(s.drop_last())) by {
            assert(forall|u: int| 0 <= u < s.len() - 1
                ==> #[trigger] s.drop_last()[u] == s[u]);
        }
        lemma_digits_val_bound(s.drop_last());
        assert(is_digit(s.last()));
        let dv = digits_val(s.drop_last());
        assert(digits_val(s) < pow10(s.len())) by (nonlinear_arith)
            requires
                digits_val(s) == dv * 10 + (s.last() - 48),
                0 <= dv <= pow10((s.len() - 1) as nat) - 1,
                s.last() - 48 <= 9,
                pow10(s.len()) == 10 * pow10((s.len() - 1) as nat),
        ;
    }
}

pub proof fn lemma_first_dot_bounds(s: Seq<u8>, from: int)
    requires
        0 <= from <= s.len(),
    ensures
        from <= first_dot(s, from) <= s.len(),
        forall|t: int| from <= t < first_dot(s, from) ==> s[t] != 46,
        first_dot(s, from) < s.len() ==> s[first_dot(s, from)] == 46,
    decreases s.len() - from,
{
    if from < s.len() && s[from] != 46 {
        lemma_first_dot_bounds(s, from + 1);
    }
}

proof fn lemma_first_dot_from(s: Seq<u8>, from: int, k: int)
    requires
        0 <= from <= k <= s.len(),
        forall|t: int| from <= t < k ==> s[t] != 46,
        k < s.len() ==> s[k] == 46,
    ensures
        first_dot(s, from) == k,
    decreases k - from,
{
    if from < k {
        lemma_first_dot_from(s, from + 1, k);
    }
}

pub proof fn lemma_first_exp_bounds(s: Seq<u8>, from: int)
    requires
        0 <= from <= s.len(),
    ensures
        from <= first_exp(s, from) <= s.len(),
        forall|t: int| from <= t < first_exp(s, from) ==> s[t] != 101 && s[t] != 69,
        first_exp(s, from) < s.len()
            ==> s[first_exp(s, from)] == 101 || s[first_exp(s, from)] == 69,
    decreases s.len() - from,
{
    if from < s.len() && s[from] != 101 && s[from] != 69 {
        lemma_first_exp_bounds(s, from + 1);
    }
}

proof fn lemma_first_exp_at(s: Seq<u8>, k: int)
    requires
        0 <= k <= s.len(),
        forall|t: int| 0 <= t < k ==> s[t] != 101 && s[t] != 69,
        k < s.len() ==> s[k] == 101 || s[k] == 69,
    ensures
        first_exp(s, 0) == k,
{
    lemma_first_exp_from(s, 0, k);
}

proof fn lemma_first_exp_from(s: Seq<u8>, from: int, k: int)
    requires
        0 <= from <= k <= s.len(),
        forall|t: int| from <= t < k ==> s[t] != 101 && s[t] != 69,
        k < s.len() ==> s[k] == 101 || s[k] == 69,
    ensures
        first_exp(s, from) == k,
    decreases k - from,
{
    if from < k {
        lemma_first_exp_from(s, from + 1, k);
    }
}

/// `10^k` as a big integer.
fn big_pow10(k: i64) -> (r: num_bigint::BigInt)
    requires
        0 <= k,
    ensures
        big(r) == pow10(k as nat),
{
    let ten = big_from_i64(10);
    let mut p = big_from_i64(1);
    let mut j: i64 = 0;
    while j < k
        invariant
            0 <= j <= k,
            big(ten) == 10,
            big(p) == pow10(j as nat),
        decreases k - j,
    {
        p = big_mul(&p, &ten);
        j += 1;
    }
    p
}

/// Finishes a decimal literal after its mantissa has been scanned: the end
/// of input, an exponent part, or a rejected byte. The ghost arguments carry
/// what the mantissa scan established.
#[verifier::rlimit(80)]
fn finish_decimal(s: &[u8], neg: bool, mag: num_bigint::BigInt, mden: num_bigint::BigInt,
    start: usize, pos_abs: usize, Ghost(t): Ghost<Seq<u8>>, Ghost(dot_pos): Ghost<Option<int>>)
    -> (r: Option<Rational>)
    requires
        start <= pos_abs <= s@.len(),
        start == (if s@.len() > 0 && (s@[0] == 43 || s@[0] == 45) { 1int } else { 0int }),
        neg == (s@.len() > 0 && s@[0] == 45),
        t == s@.subrange(start as int, s@.len() as int),
        big(mden) > 0,
        big(mag) >= 0,
        mant_spec(t.take(pos_abs - start)) == Some(Ratio { n: big(mag), d: big(mden) }),
        forall|u: int| 0 <= u < pos_abs - start ==> t[u] != 101 && t[u] != 69,
        match dot_pos {
            None => (forall|u: int| 0 <= u < pos_abs - start ==> is_digit(#[trigger] t[u]))
                && (pos_abs < s@.len() ==> s@[pos_abs as int] != 46),
            Some(dp) => 0 <= dp < pos_abs - start && t[dp] == 46
                && forall|u: int| 0 <= u < pos_abs - start && u != dp
                    ==> is_digit(#[trigger] t[u]),
        },
        pos_abs < s@.len() ==> !is_digit(s@[pos_abs as int]),
    ensures
        match r {
            Some(v) => dec_spec(s@) == Some(v@) && r_wf(v@),
            None => dec_spec(s@) is None,
        },
{
    let n = s.len();
    let ghost pos = pos_abs - start;
    proof {
        assert(t =~= (if s@.len() > 0 && (s@[0] == 43 || s@[0] == 45) {
            s@.skip(1)
        } else {
            s@
        }));
        lemma_first_exp_bounds(t, 0);
    }
    if pos_abs == n {
        // The literal ends with its mantissa.
        let v = Rational::from_big_frac(if neg { big_neg(&mag) } else { mag }, mden);
        proof {
            lemma_first_exp_at(t, t.len() as int);
            assert(t.take(t.len() as int) =~= t.take(pos));
            assert(dec_spec(s@) == Some(v@));
        }
        return Some(v);
    }
    let c = s[pos_abs];
    if !(c == 101 || c == 69) {
        // A byte no decimal literal admits at this position.
        proof {
            let ei = first_exp(t, 0);
            assert(t[pos] == c && c != 101 && c != 69);
            assert(pos < ei);
            let mant = t.take(ei);
            assert(mant[pos] == t[pos] && !is_digit(mant[pos]));
            lemma_first_dot_bounds(mant, 0);
            let d = first_dot(mant, 0);
            match dot_pos {
                None => {
                    assert(c != 46 && mant[pos] != 46);
                    assert(pos < d);
                    assert(mant.take(d)[pos] == mant[pos]);
                    assert(!all_digits(mant.take(d)));
                },
                Some(dp) => {
                    assert(forall|u: int| 0 <= u < dp ==> mant[u] != 46);
                    lemma_first_dot_at_seq(mant, dp);
                    assert(d == dp && d < mant.len());
                    assert(mant.skip(d + 1)[pos - dp - 1] == mant[pos]);
                    assert(!all_digits(mant.skip(d + 1)));
                },
            }
            assert(mant_spec(mant) is None);
            assert(dec_spec(s@) is None);
        }
        return None;
    }
    // Exponent part.
    proof {
        lemma_first_exp_at(t, pos);
    }
    let ghost ep = t.skip(pos + 1);
    let mut i = pos_abs + 1;
    let mut eneg = false;
    if i < n && (s[i] == 43 || s[i] == 45) {
        eneg = s[i] == 45;
        i += 1;
    }
    let ghost ed = if ep.len() > 0 && (ep[0] == 43 || ep[0] == 45) { ep.skip(1) } else { ep };
    proof {
        assert(ep =~= s@.subrange(pos_abs + 1, n as int));
        assert(ed =~= s@.subrange(i as int, n as int));
        assert(eneg == (ep.len() > 0 && ep[0] == 45));
    }
    let dstart = i;
    while i < n && s[i] >= 48 && s[i] <= 57
        invariant
            dstart <= i <= n,
            n == s@.len(),
            ed =~= s@.subrange(dstart as int, n as int),
            forall|u: int| 0 <= u < i - dstart ==> is_digit(#[trigger] ed[u]),
        decreases n - i,
    {
        i += 1;
    }
    let count = i - dstart;
    if count == 0 {
        proof {
            if ed.len() > 0 {
                assert(!is_digit(ed[0]));
                assert(!all_digits(ed));
            }
            assert(dec_spec(s@) is None);
        }
        return None;
    }
    if count > 4 || i < n {
        proof {
            if i < n {
                assert(ed[count as int] == s@[i as int] && !is_digit(ed[count as int]));
                assert(!all_digits(ed));
            } else {
                assert(ed.len() == count);
            }
            assert(dec_spec(s@) is None);
        }
        return None;
    }
    // One to four exponent digits, value at most 9999: recompute the value.
    proof {
        assert(ed =~= ed.take(count as int));
        assert(all_digits(ed));
    }
    let mut j = dstart;
    let mut eacc: i64 = 0;
    while j < i
        invariant
            dstart <= j <= i <= n,
            i - dstart == count <= 4,
            n == s@.len(),
            ed =~= s@.subrange(dstart as int, n as int),
            forall|u: int| 0 <= u < count ==> is_digit(#[trigger] ed[u]),
            eacc == digits_val(ed.take(j - dstart)),
            0 <= eacc < pow10((j - dstart) as nat),
        decreases i - j,
    {
        proof {
            assert(ed.take(j - dstart + 1).drop_last() =~= ed.take(j - dstart));
            assert(ed.take(j - dstart + 1).last() == s@[j as int]);
            assert(all_digits(ed.take(j - dstart + 1))) by {
                assert(forall|u: int| 0 <= u < j - dstart + 1
                    ==> #[trigger] ed.take(j - dstart + 1)[u] == ed[u]);
            }
            lemma_digits_val_bound(ed.take(j - dstart + 1));
            assert(pow10(0) == 1 && pow10(1) == 10 && pow10(2) == 100 && pow10(3) == 1000
                && pow10(4) == 10000);
            assert(j - dstart == 0 || j - dstart == 1 || j - dstart == 2 || j - dstart == 3);
            assert(eacc < 1000);
        }
        eacc = eacc * 10 + ((s[j] - 48) as i64);
        j += 1;
    }
    proof {
        assert(ed.take(count as int) =~= ed);
        assert(eacc == digits_val(ed));
        lemma_pow10_pos(eacc as nat);
    }
    let scale = big_pow10(eacc);
    let v = if eneg {
        let dd = big_mul(&mden, &scale);
        proof {
            vstd::arithmetic::mul::lemma_mul_strictly_positive(big(mden), big(scale));
        }
        Rational::from_big_frac(if neg { big_neg(&mag) } else { mag }, dd)
    } else {
        let nn = big_mul(&mag, &scale);
        Rational::from_big_frac(if neg { big_neg(&nn) } else { nn }, mden)
    };
    proof {
        assert(dec_spec(s@) == Some(v@));
    }
    Some(v)
}

/// Like `lemma_first_dot_at`, exported for reuse on subsequences.
proof fn lemma_first_dot_at_seq(s: Seq<u8>, k: int)
    requires
        0 <= k <= s.len(),
        forall|t: int| 0 <= t < k ==> s[t] != 46,
        k < s.len() ==> s[k] == 46,
    ensures
        first_dot(s, 0) == k,
{
    lemma_first_dot_from(s, 0, k);
}

/// Parses a decimal literal into an exact rational; returns `None` exactly
/// when the bytes are not a decimal literal.
#[verifier::rlimit(100)]
#[verifier::spinoff_prover]
pub fn parse_decimal(s: &[u8]) -> (r: Option<Rational>)
    ensures
        match r {
            Some(v) => dec_spec(s@) == Some(v@) && r_wf(v@),
            None => dec_spec(s@) is None,
        },
{
    let n = s.len();
    let mut i: usize = 0;
    let mut neg = false;
    if n > 0 && (s[0] == 43 || s[0] == 45) {
        neg = s[0] == 45;
        i = 1;
    }
    let ghost t = if s@.len() > 0 && (s@[0] == 43 || s@[0] == 45) { s@.skip(1) } else { s@ };
    let start = i;
    proof {
        assert(t =~= s@.subrange(start as int, n as int));
        lemma_first_exp_bounds(t, 0);
    }
    // Integer part digits.
    let mut acc = big_from_i64(0);
    while i < n && s[i] >= 48 && s[i] <= 57
        invariant
            start <= i <= n,
            n == s@.len(),
            t == s@.subrange(start as int, n as int),
            big(acc) == digits_val(t.take(i - start)),
            forall|u: int| 0 <= u < i - start ==> is_digit(#[trigger] t[u]),
        decreases n - i,
    {
        let d = big_from_i64((s[i] - 48) as i64);
        acc = big_add(&big_mul(&acc, &big_from_i64(10)), &d);
        proof {
            assert(t.take(i + 1 - start).drop_last() =~= t.take(i - start));
            assert(t.take(i + 1 - start).last() == s@[i as int]);
            assert(all_digits(t.take(i + 1 - start))) by {
                assert(forall|u: int| 0 <= u < i + 1 - start
                    ==> #[trigger] t.take(i + 1 - start)[u] == t[u]);
            }
        }
        i += 1;
    }
    let int_digits = i - start;
    proof {
        assert(all_digits(t.take(int_digits as int))) by {
            assert(forall|u: int| 0 <= u < int_digits
                ==> #[trigger] t.take(int_digits as int)[u] == t[u]);
        }
        lemma_digits_val_bound(t.take(int_digits as int));
    }
    if i < n && s[i] == 46 {
        // Fraction part after the dot.
        let ghost dp = int_digits as int;
        let fstart = i + 1;
        i += 1;
        let mut facc = big_from_i64(0);
        let mut fden = big_from_i64(1);
        while i < n && s[i] >= 48 && s[i] <= 57
            invariant
                fstart <= i <= n,
                start < fstart <= n,
                fstart - start == int_digits + 1,
                n == s@.len(),
                t == s@.subrange(start as int, n as int),
                big(facc) == digits_val(t.subrange(fstart - start, i - start)),
                forall|u: int| fstart - start <= u < i - start ==> is_digit(#[trigger] t[u]),
                big(fden) == pow10((i - fstart) as nat),
                big(fden) > 0,
            decreases n - i,
        {
            let d = big_from_i64((s[i] - 48) as i64);
            facc = big_add(&big_mul(&facc, &big_from_i64(10)), &d);
            fden = big_mul(&fden, &big_from_i64(10));
            proof {
                assert(t.subrange(fstart - start, i + 1 - start).drop_last()
                    =~= t.subrange(fstart - start, i - start));
                assert(t.subrange(fstart - start, i + 1 - start).last() == s@[i as int]);
                vstd::arithmetic::mul::lemma_mul_strictly_positive(10, big(fden));
            }
            i += 1;
        }
        let frac_digits = i - fstart;
        if int_digits + frac_digits == 0 {
            // A bare dot with no digit on either side.
            proof {
                let ei = first_exp(t, 0);
                assert(t[0] == 46);
                assert(0 < ei);
                let mant = t.take(ei);
                assert(mant[0] == 46);
                lemma_first_dot_at_seq(mant, 0);
                assert(first_dot(mant, 0) == 0);
                assert(mant.take(0).len() == 0);
                if mant.len() > 1 {
                    assert(t.len() > 1);
                    assert(!is_digit(t[1]));
                    assert(mant.skip(1)[0] == t[1]);
                    assert(!all_digits(mant.skip(1)));
                }
                assert(mant_spec(mant) is None);
                assert(dec_spec(s@) is None);
            }
            return None;
        }
        let mag = big_add(&big_mul(&acc, &fden), &facc);
        proof {
            let mant = t.take(i - start);
            assert(mant[dp] == 46);
            assert(forall|u: int| 0 <= u < dp ==> mant[u] == t[u] && is_digit(mant[u]));
            assert(forall|u: int| 0 <= u < dp ==> mant[u] != 46);
            lemma_first_dot_at_seq(mant, dp);
            assert(mant.take(dp) =~= t.take(dp));
            assert(mant.skip(dp + 1) =~= t.subrange(fstart - start, i - start));
            assert(all_digits(mant.skip(dp + 1))) by {
                assert(forall|u: int| 0 <= u < mant.skip(dp + 1).len()
                    ==> #[trigger] mant.skip(dp + 1)[u] == t[fstart - start + u]);
            }
            assert(mant.skip(dp + 1).len() == frac_digits);
            assert(mant_spec(mant) == Some(Ratio { n: big(mag), d: big(fden) }));
            assert(forall|u: int| 0 <= u < i - start
                ==> #[trigger] t[u] != 101 && t[u] != 69) by {
                assert(forall|u: int| 0 <= u < i - start && u != dp
                    ==> is_digit(#[trigger] t[u]));
                assert(t[dp] == 46);
            }
            assert(all_digits(t.subrange(fstart - start, i - start))) by {
                assert(forall|u: int| 0 <= u < i - fstart
                    ==> #[trigger] t.subrange(fstart - start, i - start)[u]
                        == t[fstart - start + u]);
            }
            lemma_digits_val_bound(t.subrange(fstart - start, i - start));
            assert(big(mag) >= 0) by (nonlinear_arith)
                requires
                    big(mag) == big(acc) * big(fden) + big(facc),
                    big(acc) >= 0,
                    big(facc) >= 0,
                    big(fden) > 0,
            ;
        }
        finish_decimal(s, neg, mag, fden, start, i, Ghost(t), Ghost(Some(int_digits as int)))
    } else {
        if int_digits == 0 {
            // No digit at all before the end, an exponent marker, or junk.
            proof {
                let ei = first_exp(t, 0);
                if t.len() == 0 {
                    assert(t.take(ei) =~= Seq::<u8>::empty());
                    assert(mant_spec(t.take(ei)) is None);
                } else {
                    assert(!is_digit(t[0]) && t[0] != 46);
                    if t[0] == 101 || t[0] == 69 {
                        lemma_first_exp_at(t, 0);
                        assert(t.take(0) =~= Seq::<u8>::empty());
                        assert(mant_spec(t.take(0)) is None);
                    } else {
                        assert(0 < ei);
                        let mant = t.take(ei);
                        lemma_first_dot_bounds(mant, 0);
                        let d = first_dot(mant, 0);
                        assert(mant[0] == t[0] && mant[0] != 46);
                        assert(0 < d);
                        assert(mant.take(d)[0] == mant[0]);
                        assert(!all_digits(mant.take(d)));
                        assert(mant_spec(mant) is None);
                    }
                }
                assert(dec_spec(s@) is None);
            }
            return None;
        }
        proof {
            let mant = t.take(int_digits as int);
            assert(forall|u: int| 0 <= u < mant.len() ==> mant[u] == t[u] && is_digit(mant[u]));
            assert(forall|u: int| 0 <= u < mant.len() ==> mant[u] != 46);
            lemma_first_dot_at_seq(mant, mant.len() as int);
            assert(mant.take(mant.len() as int) =~= mant);
            assert(digits_val(Seq::<u8>::empty()) == 0);
            assert(mant_spec(mant) == Some(Ratio { n: big(acc) * 1 + 0, d: 1 }));
            assert(forall|u: int| 0 <= u < int_digits
                ==> #[trigger] t[u] != 101 && t[u] != 69);
        }
        let one = big_from_i64(1);
        finish_decimal(s, neg, acc, one, start, i, Ghost(t), Ghost(None))
    }
}

/// Why a price table could not be parsed.
#[derive(Debug, PartialEq, Eq, Structural)]
pub enum CsvError {
    /// The input is empty: there is no header row.
    MissingHeader,
    /// The first header field is not `Date`.
    MissingDateHeader,
    /// A price field in a row of the right width is not a decimal literal.
    InvalidNumber,
}

/// Row `r` of the parsed table comes from `line`: the line splits into
/// exactly one date field and one decimal price per ticker, all trimmed.
pub open spec fn row_from_line(line: Seq<u8>, n_assets: int, date: Seq<u8>,
    prices: Seq<Ratio>) -> bool {
    exists|fields: Seq<Seq<u8>>|
        {
            &&& #[trigger] joined(fields, 44) == line
            &&& sep_free(fields, 44)
            &&& fields.len() == n_assets + 1
            &&& date == trimmed(fields[0])
            &&& prices.len() == n_assets
            &&& forall|j: int| 1 <= j < fields.len()
                ==> dec_spec(trimmed(#[trigger] fields[j])) == Some(prices[j - 1])
        }
}

/// Parses a comma-separated price table: a header `Date,<ticker>,...`, then
/// one row per observation holding a date and one decimal price per ticker.
/// A row whose field count does not match the header is skipped (this
/// tolerates blank or ragged trailing lines); a malformed price in a row of
/// the right width is an error. Every field is trimmed of surrounding
/// whitespace, so carriage returns before line feeds are harmless.
pub fn parse_price_csv(bytes: &[u8]) -> (r: Result<PriceData, CsvError>)
    ensures
        match r {
            Ok(pd) => {
                &&& pd.wf()
                &&& exists|lines: Seq<Seq<u8>>, hf: Seq<Seq<u8>>|
                    {
                        &&& joined(lines, 10) == bytes@
                        &&& sep_free(lines, 10)
                        &&& lines.len() >= 1
                        &&& joined(hf, 44) == lines[0]
                        &&& sep_free(hf, 44)
                        &&& hf.len() >= 1
                        &&& trimmed(hf[0]) == seq![68u8, 97u8, 116u8, 101u8]
                        &&& pd.tickers@.len() == hf.len() - 1
                        &&& forall|j: int| 1 <= j < hf.len()
                            ==> (#[trigger] pd.tickers@[j - 1])@ == trimmed(hf[j])
                        &&& exists|keep: Seq<int>|
                            {
                                &&& #[trigger] keep.len() == pd.dates@.len()
                                &&& forall|r: int| 0 <= r < keep.len()
                                    ==> 1 <= #[trigger] keep[r] < lines.len()
                                &&& forall|r: int| 0 < r < keep.len()
                                    ==> keep[r - 1] < #[trigger] keep[r]
                                &&& forall|r: int| 0 <= r < keep.len()
                                    ==> row_from_line(lines[#[trigger] keep[r]],
                                        pd.tickers@.len() as int, pd.dates@[r]@,
                                        vals(pd.prices@[r]@))
                                &&& forall|t: int|
                                    1 <= t < lines.len() && !(#[trigger] keep.contains(t))
                                        ==> forall|fields: Seq<Seq<u8>>|
                                            #[trigger] joined(fields, 44) == lines[t]
                                                && sep_free(fields, 44)
                                                ==> fields.len() != hf.len()
                            }
                    }
            },
            Err(e) => {
                &&& (e == CsvError::MissingHeader ==> bytes@.len() == 0)
                &&& (e == CsvError::MissingDateHeader ==> exists|lines: Seq<Seq<u8>>,
                    hf: Seq<Seq<u8>>|
                    {
                        &&& #[trigger] joined(lines, 10) == bytes@
                        &&& sep_free(lines, 10)
                        &&& lines.len() >= 1
                        &&& #[trigger] joined(hf, 44) == lines[0]
                        &&& sep_free(hf, 44)
                        &&& hf.len() >= 1
                        &&& trimmed(hf[0]) != seq![68u8, 97u8, 116u8, 101u8]
                    })
                &&& (e == CsvError::InvalidNumber ==> exists|lines: Seq<Seq<u8>>,
                    hf: Seq<Seq<u8>>, li: int, fields: Seq<Seq<u8>>, j: int|
                    #![trigger joined(lines, 10), joined(hf, 44), lines[li],
                        joined(fields, 44), fields[j]]
                    {
                        &&& joined(lines, 10) == bytes@
                        &&& sep_free(lines, 10)
                        &&& joined(hf, 44) == lines[0]
                        &&& sep_free(hf, 44)
                        &&& trimmed(hf[0]) == seq![68u8, 97u8, 116u8, 101u8]
                        &&& 1 <= li < lines.len()
                        &&& joined(fields, 44) == lines[li]
                        &&& sep_free(fields, 44)
                        &&& fields.len() == hf.len()
                        &&& 1 <= j < fields.len()
                        &&& dec_spec(trimmed(fields[j])) is None
                    })
            },
        },
{
    if bytes.len() == 0 {
        return Err(CsvError::MissingHeader);
    }
    let lines = split_bytes(bytes, 10);
    let ghost lv = lines@.map_values(|f: Vec<u8>| f@);
    let header_fields = split_bytes(lines[0].as_slice(), 44);
    let ghost hfv = header_fields@.map_values(|f: Vec<u8>| f@);
    proof {
        assert(lines@[0]@ == lv[0]);
    }
    let first = trim_bytes(header_fields[0].as_slice());
    if !(first.len() == 4 && first[0] == 68 && first[1] == 97 && first[2] == 116
        && first[3] == 101) {
        proof {
            assert(first@ == trimmed(hfv[0]));
            assert(trimmed(hfv[0]) != seq![68u8, 97u8, 116u8, 101u8]) by {
                let date_seq = seq![68u8, 97u8, 116u8, 101u8];
                if first@ == date_seq {
                    assert(first@.len() == 4 && first@[0] == 68 && first@[1] == 97
                        && first@[2] == 116 && first@[3] == 101);
                }
            }
        }
        return Err(CsvError::MissingDateHeader);
    }
    proof {
        assert(first@ =~= seq![68u8, 97u8, 116u8, 101u8]);
        assert(first@ == trimmed(hfv[0]));
    }
    let mut tickers: Vec<Vec<u8>> = Vec::new();
    let mut k: usize = 1;
    while k < header_fields.len()
        invariant
            1 <= k <= header_fields@.len(),
            hfv == header_fields@.map_values(|f: Vec<u8>| f@),
            tickers@.len() == k - 1,
            forall|j: int| 1 <= j < k
                ==> (#[trigger] tickers@[j - 1])@ == trimmed(hfv[j]),
        decreases header_fields@.len() - k,
    {
        tickers.push(trim_bytes(header_fields[k].as_slice()));
        k += 1;
    }
    let m = tickers.len();
    let mut dates: Vec<Vec<u8>> = Vec::new();
    let mut prices: Vec<Vec<Rational>> = Vec::new();
    let mut li: usize = 1;
    let ghost mut keep: Seq<int> = Seq::empty();
    while li < lines.len()
        invariant
            1 <= li <= lines@.len(),
            m == tickers@.len(),
            lv == lines@.map_values(|f: Vec<u8>| f@),
            joined(lv, 10) == bytes@,
            sep_free(lv, 10),
            joined(hfv, 44) == lv[0],
            sep_free(hfv, 44),
            hfv.len() == m + 1,
            trimmed(hfv[0]) == seq![68u8, 97u8, 116u8, 101u8],
            dates@.len() == prices@.len(),
            mat_wf(mat_vals(prices@), m as int),
            keep.len() == dates@.len(),
            forall|r: int| 0 <= r < keep.len() ==> 1 <= #[trigger] keep[r] < li,
            forall|r: int| 0 < r < keep.len() ==> keep[r - 1] < #[trigger] keep[r],
            forall|r: int| 0 <= r < keep.len()
                ==> row_from_line(lv[#[trigger] keep[r]], m as int, dates@[r]@,
                    vals(prices@[r]@)),
            forall|t: int| 1 <= t < li && !(#[trigger] keep.contains(t))
                ==> count_seps(lv[t], 44) != m,
        decreases lines@.len() - li,
    {
        let fields = split_bytes(lines[li].as_slice(), 44);
        let ghost fv = fields@.map_values(|f: Vec<u8>| f@);
        proof {
            assert(lines@[li as int]@ == lv[li as int]);
            assert(joined(fv, 44) == lv[li as int]);
        }
        if fields.len() >= 1 && fields.len() - 1 == m {
            let mut row: Vec<Rational> = Vec::new();
            let mut j: usize = 1;
            while j < fields.len()
                invariant
                    1 <= j <= fields@.len(),
                    fields@.len() == m + 1,
                    fv == fields@.map_values(|f: Vec<u8>| f@),
                    1 <= li < lv.len(),
                    joined(lv, 10) == bytes@,
                    sep_free(lv, 10),
                    joined(hfv, 44) == lv[0],
                    sep_free(hfv, 44),
                    hfv.len() == m + 1,
                    trimmed(hfv[0]) == seq![68u8, 97u8, 116u8, 101u8],
                    joined(fv, 44) == lv[li as int],
                    sep_free(fv, 44),
                    row@.len() == j - 1,
                    all_wf(vals(row@)),
                    forall|t: int| 0 <= t < j - 1
                        ==> dec_spec(trimmed(fv[t + 1])) == Some(#[trigger] vals(row@)[t]),
                decreases fields@.len() - j,
            {
                let field = trim_bytes(fields[j].as_slice());
                proof {
                    assert(field@ == trimmed(fv[j as int]));
                }
                match parse_decimal(field.as_slice()) {
                    None => {
                        proof {
                            assert(dec_spec(trimmed(fv[j as int])) is None);
                            assert(fv.len() == hfv.len());
                            assert(1 <= li < lv.len());
                        }
                        return Err(CsvError::InvalidNumber);
                    },
                    Some(v) => {
                        let ghost old_row = row@;
                        row.push(v);
                        proof {
                            assert(forall|t: int| 0 <= t < old_row.len()
                                ==> #[trigger] vals(row@)[t] == vals(old_row)[t]);
                            assert(r_wf(vals(row@)[row@.len() - 1]));
                            assert(vals(row@)[j - 1] == v@);
                        }
                    },
                }
                j += 1;
            }
            let date = trim_bytes(fields[0].as_slice());
            proof {
                assert(date@ == trimmed(fv[0]));
            }
            let ghost old_dates = dates@;
            dates.push(date);
            let ghost old_prices = prices@;
            prices.push(row);
            proof {
                assert(mat_vals(prices@)[old_prices.len() as int]
                    == vals(prices@[old_prices.len() as int]@));
                assert(forall|t: int| 0 <= t < old_prices.len()
                    ==> #[trigger] mat_vals(prices@)[t] == mat_vals(old_prices)[t]);
                assert(forall|t: int| 0 <= t < old_prices.len()
                    ==> #[trigger] prices@[t] == old_prices[t]);
                assert(forall|t: int| 0 <= t < old_dates.len()
                    ==> (#[trigger] dates@[t])@ == old_dates[t]@);
                let rr = old_prices.len() as int;
                assert(dates@[rr]@ == trimmed(fv[0]));
                assert(vals(prices@[rr]@).len() == m);
                assert(row_from_line(lv[li as int], m as int, dates@[rr]@,
                    vals(prices@[rr]@)));
            }
            let ghost old_keep = keep;
            proof {
                keep = keep.push(li as int);
                assert(keep[keep.len() - 1] == li as int);
                assert(keep.contains(li as int));
                assert(forall|t: int| old_keep.contains(t) ==> keep.contains(t)) by {
                    assert(forall|r: int| 0 <= r < old_keep.len()
                        ==> keep[r] == #[trigger] old_keep[r]);
                }
                assert(forall|t: int| !keep.contains(t) ==> !old_keep.contains(t));
            }
        } else {
            proof {
                assert(fv.len() >= 1);
                assert(fv.len() - 1 != m);
                lemma_joined_field_count(fv, 44);
                assert(count_seps(lv[li as int], 44) != m);
                assert(!keep.contains(li as int)) by {
                    if keep.contains(li as int) {
                        let r = choose|r: int| 0 <= r < keep.len()
                            && keep[r] == li as int;
                        assert(keep[r] < li);
                    }
                }
            }
        }
        li += 1;
    }
    let pd = PriceData { dates, tickers, prices };
    proof {
        assert(joined(lv, 10) == bytes@ && sep_free(lv, 10) && lv.len() >= 1);
        assert(joined(hfv, 44) == lv[0] && sep_free(hfv, 44) && hfv.len() >= 1);
        assert(trimmed(hfv[0]) == seq![68u8, 97u8, 116u8, 101u8]);
        assert(pd.tickers@.len() == hfv.len() - 1);
        assert(keep.len() == pd.dates@.len());
        assert(forall|r: int| 0 <= r < keep.len() ==> 1 <= #[trigger] keep[r] < lv.len());
        assert(forall|r: int| 0 <= r < keep.len()
            ==> row_from_line(lv[#[trigger] keep[r]], pd.tickers@.len() as int,
                pd.dates@[r]@, vals(pd.prices@[r]@)));
        assert forall|t: int| 1 <= t < lv.len() && !(#[trigger] keep.contains(t))
            implies forall|fields: Seq<Seq<u8>>|
                #[trigger] joined(fields, 44) == lv[t] && sep_free(fields, 44)
                    ==> fields.len() != hfv.len() by {
            assert(count_seps(lv[t], 44) != pd.tickers@.len());
            assert forall|fields: Seq<Seq<u8>>|
                #[trigger] joined(fields, 44) == lv[t] && sep_free(fields, 44)
                    implies fields.len() != hfv.len() by {
                if fields.len() >= 1 {
                    lemma_joined_field_count(fields, 44);
                }
            }
        }
    }
    Ok(pd)
}

} // verus!