//! Trusted layer over `num_bigint::BigInt`.
//!
//! A `BigInt` is opaque to the verifier; the integer it holds is named by the
//! uninterpreted view `int_of`. Each arithmetic operation the solver needs is
//! wrapped in a small trusted function whose contract states, over `int_of`,
//! what the corresponding `num_bigint` operation computes.
use vstd::prelude::*;
use num_bigint::BigInt;
use num_integer::Integer;

verus! {

#[verifier::external_type_specification]
#[verifier::external_body]
pub struct ExBigInt(BigInt);

pub uninterp spec fn int_of(x: BigInt) -> int;

/// Relies on `<BigInt as From<i64>>::from`: the big integer holding exactly `n`.
#[verifier::external_body]
pub fn from_i64_big(n: i64) -> (r: BigInt)
    ensures
        int_of(r) == n as int,
{
    BigInt::from(n)
}

/// Relies on `<BigInt as Clone>::clone`: an equal copy of the value.
#[verifier::external_body]
pub fn clone_big(a: &BigInt) -> (r: BigInt)
    ensures
        int_of(r) == int_of(*a),
{
    a.clone()
}

/// Relies on `<&BigInt as core::ops::Add>::add`: exact integer addition.
#[verifier::external_body]
pub fn add_big(a: &BigInt, b: &BigInt) -> (r: BigInt)
    ensures
        int_of(r) == int_of(*a) + int_of(*b),
{
    a + b
}

/// Relies on `<&BigInt as core::ops::Sub>::sub`: exact integer subtraction.
#[verifier::external_body]
pub fn sub_big(a: &BigInt, b: &BigInt) -> (r: BigInt)
    ensures
        int_of(r) == int_of(*a) - int_of(*b),
{
    a - b
}

/// Relies on `<&BigInt as core::ops::Mul>::mul`: exact integer multiplication.
#[verifier::external_body]
pub fn mul_big(a: &BigInt, b: &BigInt) -> (r: BigInt)
    ensures
        int_of(r) == int_of(*a) * int_of(*b),
{
    a * b
}

/// Relies on `<&BigInt as core::ops::Div>::div`: truncated division, which on
/// a non-negative dividend and positive divisor equals Euclidean division.
#[verifier::external_body]
pub fn div_trunc_big(a: &BigInt, b: &BigInt) -> (r: BigInt)
    requires
        int_of(*a) >= 0,
        int_of(*b) >= 1,
    ensures
        int_of(r) == int_of(*a) / int_of(*b),
{
    a / b
}

/// Relies on `num_integer::Integer::mod_floor` for `BigInt`: the remainder
/// with the sign of the divisor, which for a positive divisor is the
/// Euclidean remainder in `[0, b)`.
#[verifier::external_body]
pub fn mod_floor_big(a: &BigInt, b: &BigInt) -> (r: BigInt)
    requires
        int_of(*b) >= 1,
    ensures
        int_of(r) == int_of(*a) % int_of(*b),
{
    a.mod_floor(b)
}

/// Relies on `<BigInt as PartialEq>::eq`: equality of the held integers.
#[verifier::external_body]
pub fn eq_big(a: &BigInt, b: &BigInt) -> (r: bool)
    ensures
        r == (int_of(*a) == int_of(*b)),
{
    a == b
}

/// Relies on `<BigInt as Ord>::cmp` through `<`: numeric order of the held integers.
#[verifier::external_body]
pub fn lt_big(a: &BigInt, b: &BigInt) -> (r: bool)
    ensures
        r == (int_of(*a) < int_of(*b)),
{
    a < b
}

/// Relies on `num_integer::Integer::is_even` for `BigInt`: parity of the held integer.
#[verifier::external_body]
pub fn is_even_big(a: &BigInt) -> (r: bool)
    ensures
        r == (int_of(*a) % 2 == 0),
{
    a.is_even()
}

} // verus!
