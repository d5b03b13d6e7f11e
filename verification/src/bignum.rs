//! The trusted boundary around the arbitrary-precision integer collaborator.
//!
//! The algorithms in this crate are verified over the mathematical values
//! `nat_of` and `int_of` that a `BigUint` or `BigInt` stands for; every
//! call into the bignum crate goes through exactly one wrapper below, whose
//! contract states what the called operation does to those values.

use vstd::prelude::*;
use vstd::arithmetic::power::pow;
use num_bigint::{BigInt, BigUint};
use num_bigint::RandBigInt;
use num_integer::Integer;
use rand::rngs::ThreadRng;

verus! {

#[verifier::external_type_specification]
#[verifier::external_body]
pub struct ExBigUint(BigUint);

#[verifier::external_type_specification]
#[verifier::external_body]
pub struct ExBigInt(BigInt);

#[verifier::external_type_specification]
#[verifier::external_body]
pub struct ExThreadRng(ThreadRng);

/// The non-negative integer that a `BigUint` stands for.
pub uninterp spec fn nat_of(n: BigUint) -> nat;

/// The integer that a `BigInt` stands for.
pub uninterp spec fn int_of(a: BigInt) -> int;

/// The mathematical value of an arbitrary-precision integer, signed or not.
pub trait IntValue {
    spec fn as_int(&self) -> int;
}

impl IntValue for BigUint {
    open spec fn as_int(&self) -> int {
        nat_of(*self) as int
    }
}

impl IntValue for BigInt {
    open spec fn as_int(&self) -> int {
        int_of(*self)
    }
}

/// Relies on `BigUint: From<u32>`: the value converts exactly.
#[verifier::external_body]
pub(crate) fn biguint_from_u32(v: u32) -> (r: BigUint)
    ensures
        nat_of(r) == v as nat,
{
    BigUint::from(v)
}

/// Relies on `PartialEq for BigUint`: equality of the values.
#[verifier::external_body]
pub(crate) fn biguint_eq(a: &BigUint, b: &BigUint) -> (r: bool)
    ensures
        r <==> nat_of(*a) == nat_of(*b),
{
    a == b
}

/// Relies on `Ord for BigUint`: the order of the values.
#[verifier::external_body]
pub(crate) fn biguint_lt(a: &BigUint, b: &BigUint) -> (r: bool)
    ensures
        r <==> nat_of(*a) < nat_of(*b),
{
    a < b
}

/// Relies on `Add for &BigUint`: exact addition.
#[verifier::external_body]
pub(crate) fn biguint_add(a: &BigUint, b: &BigUint) -> (r: BigUint)
    ensures
        nat_of(r) == nat_of(*a) + nat_of(*b),
{
    a + b
}

/// Relies on `Sub for &BigUint`: exact subtraction; it panics when the
/// result would be negative, so that case is excluded here.
#[verifier::external_body]
pub(crate) fn biguint_sub(a: &BigUint, b: &BigUint) -> (r: BigUint)
    requires
        nat_of(*b) <= nat_of(*a),
    ensures
        nat_of(r) == nat_of(*a) - nat_of(*b),
{
    a - b
}

/// Relies on `Div for &BigUint`: the quotient rounded toward zero, which
/// for non-negative values is the floor; it panics on a zero divisor.
#[verifier::external_body]
pub(crate) fn biguint_div(a: &BigUint, b: &BigUint) -> (r: BigUint)
    requires
        nat_of(*b) > 0,
    ensures
        nat_of(r) == nat_of(*a) / nat_of(*b),
{
    a / b
}

/// Relies on `num_integer::Integer::is_even` for `BigUint`.
#[verifier::external_body]
pub(crate) fn biguint_is_even(a: &BigUint) -> (r: bool)
    ensures
        r <==> nat_of(*a) % 2 == 0,
{
    a.is_even()
}

/// Relies on `BigUint::modpow`: returns `(self ^ exponent) % modulus` and
/// panics on a zero modulus, so that case is excluded here.
#[verifier::external_body]
pub(crate) fn biguint_modpow(base: &BigUint, exponent: &BigUint, modulus: &BigUint) -> (r: BigUint)
    requires
        nat_of(*modulus) > 0,
    ensures
        nat_of(r) as int == pow(nat_of(*base) as int, nat_of(*exponent)) % (nat_of(*modulus) as int),
{
    base.modpow(exponent, modulus)
}

/// Relies on `rand::thread_rng`: a handle to the thread-local generator.
#[verifier::external_body]
pub(crate) fn rng_new() -> ThreadRng {
    rand::thread_rng()
}

/// Relies on `num_bigint::RandBigInt::gen_biguint_range`: a uniformly
/// random value at least `lbound` and strictly below `ubound`; it panics
/// unless `lbound < ubound`, so that case is excluded here. Nothing more
/// is assumed of which value comes back.
#[verifier::external_body]
pub(crate) fn biguint_random_range(rng: &mut ThreadRng, lbound: &BigUint, ubound: &BigUint) -> (r: BigUint)
    requires
        nat_of(*lbound) < nat_of(*ubound),
    ensures
        nat_of(*lbound) <= nat_of(r) < nat_of(*ubound),
{
    rng.gen_biguint_range(lbound, ubound)
}

/// Relies on `BigInt: From<u32>`: the value converts exactly.
#[verifier::external_body]
pub(crate) fn bigint_from_u32(v: u32) -> (r: BigInt)
    ensures
        int_of(r) == v as int,
{
    BigInt::from(v)
}

/// Relies on `Clone for BigInt`: the clone stands for the same value.
#[verifier::external_body]
pub(crate) fn bigint_clone(a: &BigInt) -> (r: BigInt)
    ensures
        int_of(r) == int_of(*a),
{
    a.clone()
}

/// Relies on `PartialEq for BigInt`: equality of the values.
#[verifier::external_body]
pub(crate) fn bigint_eq(a: &BigInt, b: &BigInt) -> (r: bool)
    ensures
        r <==> int_of(*a) == int_of(*b),
{
    a == b
}

/// Relies on `Ord for BigInt`: the order of the values.
#[verifier::external_body]
pub(crate) fn bigint_lt(a: &BigInt, b: &BigInt) -> (r: bool)
    ensures
        r <==> int_of(*a) < int_of(*b),
{
    a < b
}

/// Relies on `Add for &BigInt`: exact addition.
#[verifier::external_body]
pub(crate) fn bigint_add(a: &BigInt, b: &BigInt) -> (r: BigInt)
    ensures
        int_of(r) == int_of(*a) + int_of(*b),
{
    a + b
}

/// Relies on `Sub for &BigInt`: exact subtraction.
#[verifier::external_body]
pub(crate) fn bigint_sub(a: &BigInt, b: &BigInt) -> (r: BigInt)
    ensures
        int_of(r) == int_of(*a) - int_of(*b),
{
    a - b
}

/// Relies on `Mul for &BigInt`: exact multiplication.
#[verifier::external_body]
pub(crate) fn bigint_mul(a: &BigInt, b: &BigInt) -> (r: BigInt)
    ensures
        int_of(r) == int_of(*a) * int_of(*b),
{
    a * b
}

/// Relies on `num_integer::Integer::div_mod_floor` for `BigInt`: floored
/// division, so the remainder is zero or has the divisor's sign; it
/// divides by the other argument, so zero is excluded here.
#[verifier::external_body]
pub(crate) fn bigint_div_mod_floor(a: &BigInt, b: &BigInt) -> (r: (BigInt, BigInt))
    requires
        int_of(*b) != 0,
    ensures
        int_of(*a) == int_of(r.0) * int_of(*b) + int_of(r.1),
        int_of(*b) > 0 ==> 0 <= int_of(r.1) < int_of(*b),
        int_of(*b) < 0 ==> int_of(*b) < int_of(r.1) <= 0,
{
    a.div_mod_floor(b)
}

/// Relies on `BigInt::to_biguint`: the magnitude when the value is not
/// negative, and `None` otherwise.
#[verifier::external_body]
pub(crate) fn bigint_to_biguint(a: &BigInt) -> (r: Option<BigUint>)
    ensures
        r is Some <==> int_of(*a) >= 0,
        r is Some ==> nat_of(r.unwrap()) == int_of(*a),
{
    a.to_biguint()
}

} // verus!
