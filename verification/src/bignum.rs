//! Trusted interface to `num_bigint::BigInt`, the arbitrary-precision
//! integers that the page and address arithmetic runs on. `big_value` names
//! the mathematical integer a `BigInt` holds; each wrapper states over it what
//! the corresponding `num_bigint` operation computes.

use vstd::prelude::*;
use vstd::arithmetic::power::pow;
use num_bigint::BigInt;
use num_integer::Integer;
use num_traits::{ToPrimitive, Zero};

verus! {

#[verifier::external_type_specification]
#[verifier::external_body]
pub struct ExBigInt(BigInt);

/// The integer that a `num_bigint::BigInt` holds.
pub uninterp spec fn big_value(x: BigInt) -> int;

/// Relies on num_bigint's `From<u32>` impl: the new integer holds the given
/// value.
#[verifier::external_body]
pub(crate) fn big_from_u32(v: u32) -> (r: BigInt)
    ensures
        big_value(r) == v as int,
{
    BigInt::from(v)
}

/// Relies on num_bigint's `Clone` impl: the copy holds the same value.
#[verifier::external_body]
pub(crate) fn big_clone(x: &BigInt) -> (r: BigInt)
    ensures
        big_value(r) == big_value(*x),
{
    x.clone()
}

/// Relies on num_bigint's `Add` impl for `&BigInt`.
#[verifier::external_body]
pub(crate) fn big_add(a: &BigInt, b: &BigInt) -> (r: BigInt)
    ensures
        big_value(r) == big_value(*a) + big_value(*b),
{
    a + b
}

/// Relies on num_bigint's `Sub` impl for `&BigInt`.
#[verifier::external_body]
pub(crate) fn big_sub(a: &BigInt, b: &BigInt) -> (r: BigInt)
    ensures
        big_value(r) == big_value(*a) - big_value(*b),
{
    a - b
}

/// Relies on num_bigint's `Mul` impl for `&BigInt`.
#[verifier::external_body]
pub(crate) fn big_mul(a: &BigInt, b: &BigInt) -> (r: BigInt)
    ensures
        big_value(r) == big_value(*a) * big_value(*b),
{
    a * b
}

/// Relies on `num_integer::Integer::div_rem` for `BigInt` (truncated
/// division, which on a non-negative dividend and positive divisor is plain
/// Euclidean division) and on `num_traits::ToPrimitive::to_u32` for the
/// remainder, which is below `d` and so fits.
#[verifier::external_body]
pub(crate) fn big_div_rem_small(a: &BigInt, d: u32) -> (r: (BigInt, u32))
    requires
        big_value(*a) >= 0,
        d >= 1,
    ensures
        big_value(r.0) == big_value(*a) / d as int,
        r.1 as int == big_value(*a) % d as int,
{
    let (q, rem) = a.div_rem(&BigInt::from(d));
    (q, rem.to_u32().unwrap_or(0))
}

/// Relies on num_bigint's `Ord` impl: comparison by numeric value.
#[verifier::external_body]
pub(crate) fn big_lt(a: &BigInt, b: &BigInt) -> (r: bool)
    ensures
        r == (big_value(*a) < big_value(*b)),
{
    a < b
}

/// Relies on `num_traits::Zero::is_zero` for `BigInt`.
#[verifier::external_body]
pub(crate) fn big_is_zero(a: &BigInt) -> (r: bool)
    ensures
        r == (big_value(*a) == 0),
{
    a.is_zero()
}

/// Relies on `num_bigint::BigInt::pow` with a `u32` exponent.
#[verifier::external_body]
pub(crate) fn big_pow(b: &BigInt, e: u32) -> (r: BigInt)
    ensures
        big_value(r) == pow(big_value(*b), e as nat),
{
    b.pow(e)
}

} // verus!
