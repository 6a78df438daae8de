//! Arbitrary-precision arithmetic, supplied by the `num_bigint` crate.
//!
//! The conversion needs exact products of the form `s * 2^e * 5^b` with more
//! than a thousand decimal digits, far beyond any machine integer. Those
//! products come from `num_bigint::BigUint` through the trusted wrappers
//! below; `big_value` names the natural number a `BigUint` holds, and every
//! wrapper's contract is stated over that name.

use crate::digits::dec_rep;
use num_bigint::BigUint;
use vstd::arithmetic::power::pow;
use vstd::prelude::*;

verus! {

#[verifier::external_type_specification]
#[verifier::external_body]
pub struct ExBigUint(BigUint);

/// The natural number a `BigUint` holds.
pub uninterp spec fn big_value(n: BigUint) -> nat;

/// Relies on `<BigUint as From<u64>>::from`: the big integer with exactly
/// the given value.
#[verifier::external_body]
pub(crate) fn big_from_u64(n: u64) -> (r: BigUint)
    ensures
        big_value(r) == n as nat,
{
    BigUint::from(n)
}

/// Relies on `Mul for BigUint`: the exact product of the two values.
#[verifier::external_body]
pub(crate) fn big_mul(a: BigUint, b: BigUint) -> (r: BigUint)
    ensures
        big_value(r) == big_value(a) * big_value(b),
{
    a * b
}

/// Relies on `BigUint::pow`: the value raised to the given power.
#[verifier::external_body]
pub(crate) fn big_pow(base: &BigUint, exp: u32) -> (r: BigUint)
    ensures
        big_value(r) as int == pow(big_value(*base) as int, exp as nat),
{
    base.pow(exp)
}

/// Relies on `BigUint::to_str_radix` in base ten: the decimal digits of the
/// value, most significant first, with no leading zeros (`0` for zero).
#[verifier::external_body]
pub(crate) fn big_to_decimal(n: &BigUint) -> (r: Vec<char>)
    ensures
        r@ == dec_rep(big_value(*n)),
{
    n.to_str_radix(10).chars().collect()
}

/// Relies on `String`'s `FromIterator<char>` implementation: the collected
/// string holds exactly the characters of the vector, in order.
#[verifier::external_body]
pub(crate) fn chars_to_string(v: &Vec<char>) -> (s: String)
    ensures
        s@ == v@,
{
    v.iter().collect()
}

} // verus!
