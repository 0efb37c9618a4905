//! Trusted interface to the arbitrary-precision integers used by the
//! quantity algebra. Every other function of the crate is verified against
//! the contracts stated here.

use vstd::prelude::*;
use num_bigint::BigInt;
use num_traits::ToPrimitive;

verus! {

#[verifier::external_type_specification]
#[verifier::external_body]
pub struct ExBigInt(BigInt);

/// The integer a `BigInt` holds.
pub uninterp spec fn big_int_of(b: BigInt) -> int;

/// Relies on `<BigInt as From<u64>>::from`: the result holds exactly the
/// given integer.
#[verifier::external_body]
pub(crate) fn big_from_u64(v: u64) -> (r: BigInt)
    ensures
        big_int_of(r) == v as int,
{
    BigInt::from(v)
}

/// Relies on `<&BigInt as Add<&BigInt>>::add`: exact integer addition.
#[verifier::external_body]
pub(crate) fn big_add(a: &BigInt, b: &BigInt) -> (r: BigInt)
    ensures
        big_int_of(r) == big_int_of(*a) + big_int_of(*b),
{
    a + b
}

/// Relies on `<&BigInt as Sub<&BigInt>>::sub`: exact integer subtraction.
#[verifier::external_body]
pub(crate) fn big_sub(a: &BigInt, b: &BigInt) -> (r: BigInt)
    ensures
        big_int_of(r) == big_int_of(*a) - big_int_of(*b),
{
    a - b
}

/// Relies on `<&BigInt as Mul<&BigInt>>::mul`: exact integer multiplication.
#[verifier::external_body]
pub(crate) fn big_mul(a: &BigInt, b: &BigInt) -> (r: BigInt)
    ensures
        big_int_of(r) == big_int_of(*a) * big_int_of(*b),
{
    a * b
}

/// Relies on `<BigInt as Ord>::cmp`: total order agreeing with the integer
/// values. The result is reported as a plain signum.
#[verifier::external_body]
pub(crate) fn big_cmp(a: &BigInt, b: &BigInt) -> (r: i8)
    ensures
        r == -1i8 <==> big_int_of(*a) < big_int_of(*b),
        r == 0i8 <==> big_int_of(*a) == big_int_of(*b),
        r == 1i8 <==> big_int_of(*a) > big_int_of(*b),
{
    match a.cmp(b) {
        core::cmp::Ordering::Less => -1,
        core::cmp::Ordering::Equal => 0,
        core::cmp::Ordering::Greater => 1,
    }
}

/// Relies on `<&BigInt as Div<&BigInt>>::div`: for a non-negative dividend
/// and a positive divisor it returns the rounded-down quotient, which in
/// that range coincides with the truncation the crate documents. Division
/// by zero panics there, so the divisor is required to be positive.
#[verifier::external_body]
pub(crate) fn big_div(a: &BigInt, b: &BigInt) -> (r: BigInt)
    requires
        big_int_of(*a) >= 0,
        big_int_of(*b) > 0,
    ensures
        big_int_of(r) == big_int_of(*a) / big_int_of(*b),
{
    a / b
}

/// Relies on `<BigInt as ToPrimitive>::to_i64`: returns the value exactly
/// when it fits in an `i64`, and nothing otherwise.
#[verifier::external_body]
pub(crate) fn big_to_i64(a: &BigInt) -> (r: Option<i64>)
    ensures
        r is Some <==> i64::MIN <= big_int_of(*a) <= i64::MAX,
        r matches Some(v) ==> v as int == big_int_of(*a),
{
    a.to_i64()
}

/// Relies on `<BigInt as Clone>::clone`: the copy holds the same integer.
#[verifier::external_body]
pub(crate) fn big_clone(a: &BigInt) -> (r: BigInt)
    ensures
        big_int_of(r) == big_int_of(*a),
{
    a.clone()
}

} // verus!
