//! Arbitrary-precision integers, used as the substrate for exact rational
//! arithmetic. The `num_bigint::BigInt` type is opaque here; the spec function
//! `big` names the integer a value holds, and each wrapper below states the
//! exact integer semantics of one `num-bigint` operation.

use vstd::prelude::*;

verus! {

#[verifier::external_type_specification]
#[verifier::external_body]
pub struct ExBigInt(num_bigint::BigInt);

/// The integer value held by a `BigInt`.
pub uninterp spec fn big(b: num_bigint::BigInt) -> int;

/// `d` divides `x`.
pub open spec fn divides(d: int, x: int) -> bool {
    exists|k: int| x == #[trigger] (k * d)
}

/// Relies on `<BigInt as From<i64>>::from`: exact conversion from a machine integer.
#[verifier::external_body]
pub fn big_from_i64(x: i64) -> (r: num_bigint::BigInt)
    ensures
        big(r) == x as int,
{
    num_bigint::BigInt::from(x)
}

/// Relies on `<BigInt as Clone>::clone`: the copy holds the same integer.
#[verifier::external_body]
pub fn big_clone(a: &num_bigint::BigInt) -> (r: num_bigint::BigInt)
    ensures
        big(r) == big(*a),
{
    a.clone()
}

/// Relies on `<&BigInt as Add<&BigInt>>::add`: exact integer addition.
#[verifier::external_body]
pub fn big_add(a: &num_bigint::BigInt, b: &num_bigint::BigInt) -> (r: num_bigint::BigInt)
    ensures
        big(r) == big(*a) + big(*b),
{
    a + b
}

/// Relies on `<&BigInt as Sub<&BigInt>>::sub`: exact integer subtraction.
#[verifier::external_body]
pub fn big_sub(a: &num_bigint::BigInt, b: &num_bigint::BigInt) -> (r: num_bigint::BigInt)
    ensures
        big(r) == big(*a) - big(*b),
{
    a - b
}

/// Relies on `<&BigInt as Mul<&BigInt>>::mul`: exact integer multiplication.
#[verifier::external_body]
pub fn big_mul(a: &num_bigint::BigInt, b: &num_bigint::BigInt) -> (r: num_bigint::BigInt)
    ensures
        big(r) == big(*a) * big(*b),
{
    a * b
}

/// Relies on `<&BigInt as Neg>::neg`: exact integer negation.
#[verifier::external_body]
pub fn big_neg(a: &num_bigint::BigInt) -> (r: num_bigint::BigInt)
    ensures
        big(r) == -big(*a),
{
    -a
}

/// Relies on `<BigInt as PartialEq>::eq`: equality of the held integers.
#[verifier::external_body]
pub fn big_eq(a: &num_bigint::BigInt, b: &num_bigint::BigInt) -> (r: bool)
    ensures
        r == (big(*a) == big(*b)),
{
    a == b
}

/// Relies on `<BigInt as PartialOrd>::lt`: order of the held integers.
#[verifier::external_body]
pub fn big_lt(a: &num_bigint::BigInt, b: &num_bigint::BigInt) -> (r: bool)
    ensures
        r == (big(*a) < big(*b)),
{
    a < b
}

/// Relies on `num_integer::Integer::div_floor` for `BigInt`: for a positive
/// divisor the quotient is the floor of the exact quotient, which the two
/// inequalities below pin down uniquely.
#[verifier::external_body]
pub fn big_div_floor(a: &num_bigint::BigInt, b: &num_bigint::BigInt) -> (r: num_bigint::BigInt)
    requires
        big(*b) > 0,
    ensures
        big(r) * big(*b) <= big(*a),
        big(*a) < (big(r) + 1) * big(*b),
{
    num_integer::Integer::div_floor(a, b)
}

/// Relies on `num_integer::Integer::gcd` for `BigInt`: the result is a
/// non-negative common divisor of both arguments, and positive when the
/// second argument is positive.
#[verifier::external_body]
pub fn big_gcd(a: &num_bigint::BigInt, b: &num_bigint::BigInt) -> (r: num_bigint::BigInt)
    requires
        big(*b) > 0,
    ensures
        big(r) > 0,
        divides(big(r), big(*a)),
        divides(big(r), big(*b)),
{
    num_integer::Integer::gcd(a, b)
}

/// Relies on `num_traits::ToPrimitive::to_i64` for `BigInt`: the value comes
/// back exactly when it fits in an `i64`, and `None` exactly when it does not.
#[verifier::external_body]
pub fn big_to_i64(a: &num_bigint::BigInt) -> (r: Option<i64>)
    ensures
        match r {
            Some(v) => v as int == big(*a),
            None => big(*a) < i64::MIN as int || big(*a) > i64::MAX as int,
        },
{
    num_traits::ToPrimitive::to_i64(a)
}

} // verus!
