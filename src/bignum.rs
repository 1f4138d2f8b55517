//! Arbitrary-precision integers from `num`, seen by the proofs through the
//! mathematical value that each one holds.
use vstd::prelude::*;

use num::{BigInt, BigUint};

verus! {

#[verifier::external_type_specification]
#[verifier::external_body]
pub struct ExBigUint(BigUint);

#[verifier::external_type_specification]
#[verifier::external_body]
pub struct ExBigInt(BigInt);

/// The natural number that a `BigUint` holds.
pub uninterp spec fn nat_of(b: BigUint) -> nat;

/// The integer that a `BigInt` holds.
pub uninterp spec fn int_of(b: BigInt) -> int;

/// Relies on `BigUint::new`: one base-2^32 digit gives that value.
#[verifier::external_body]
pub(crate) fn nat_from(v: u32) -> (r: BigUint)
    ensures
        nat_of(r) == v,
{
    BigUint::new(vec![v])
}

/// Relies on `BigUint` multiplication of two references: the exact product.
#[verifier::external_body]
pub(crate) fn nat_mul(a: &BigUint, b: &BigUint) -> (r: BigUint)
    ensures
        nat_of(r) == nat_of(*a) * nat_of(*b),
{
    a * b
}

/// Relies on `BigUint`'s `MulAssign<&BigUint>`: the exact product, in place.
#[verifier::external_body]
pub(crate) fn nat_mul_assign(a: &mut BigUint, b: &BigUint)
    ensures
        nat_of(*final(a)) == nat_of(*old(a)) * nat_of(*b),
{
    *a *= b;
}

/// Relies on `BigUint`'s `SubAssign<&BigUint>`, which panics below zero.
#[verifier::external_body]
pub(crate) fn nat_sub_assign(a: &mut BigUint, b: &BigUint)
    requires
        nat_of(*old(a)) >= nat_of(*b),
    ensures
        nat_of(*final(a)) == nat_of(*old(a)) - nat_of(*b),
{
    *a -= b;
}

/// Relies on `BigUint` division of two references, which panics on a zero
/// divisor: the quotient rounded down.
#[verifier::external_body]
pub(crate) fn nat_div(a: &BigUint, b: &BigUint) -> (r: BigUint)
    requires
        nat_of(*b) > 0,
    ensures
        nat_of(r) == nat_of(*a) / nat_of(*b),
{
    a / b
}

/// Relies on `Integer::inc` for `BigUint`: adds one in place.
#[verifier::external_body]
pub(crate) fn nat_inc(a: &mut BigUint)
    ensures
        nat_of(*final(a)) == nat_of(*old(a)) + 1,
{
    num::Integer::inc(a)
}

/// Relies on `ToPrimitive::to_u32` for `BigUint`: the value when it fits.
#[verifier::external_body]
pub(crate) fn nat_to_u32(a: &BigUint) -> (r: Option<u32>)
    ensures
        nat_of(*a) <= u32::MAX ==> r == Some(nat_of(*a) as u32),
        nat_of(*a) > u32::MAX ==> r.is_none(),
{
    num::ToPrimitive::to_u32(a)
}

/// Relies on `BigUint`'s `Clone`: the copy holds the same value.
#[verifier::external_body]
pub(crate) fn nat_clone(a: &BigUint) -> (r: BigUint)
    ensures
        nat_of(r) == nat_of(*a),
{
    a.clone()
}

/// Relies on `BigInt::from(u64)`: the value is kept.
#[verifier::external_body]
pub(crate) fn int_from(v: u64) -> (r: BigInt)
    ensures
        int_of(r) == v,
{
    BigInt::from(v)
}

/// Relies on `BigInt` addition of two references: the exact sum.
#[verifier::external_body]
pub(crate) fn int_add(a: &BigInt, b: &BigInt) -> (r: BigInt)
    ensures
        int_of(r) == int_of(*a) + int_of(*b),
{
    a + b
}

/// Relies on `BigInt` subtraction of two references: the exact difference.
#[verifier::external_body]
pub(crate) fn int_sub(a: &BigInt, b: &BigInt) -> (r: BigInt)
    ensures
        int_of(r) == int_of(*a) - int_of(*b),
{
    a - b
}

/// Relies on `BigInt` multiplication of two references: the exact product.
#[verifier::external_body]
pub(crate) fn int_mul(a: &BigInt, b: &BigInt) -> (r: BigInt)
    ensures
        int_of(r) == int_of(*a) * int_of(*b),
{
    a * b
}

/// Relies on `Integer::div_floor` for `BigInt`: the quotient rounded down,
/// which for a positive divisor is the Euclidean quotient.
#[verifier::external_body]
pub(crate) fn int_div_floor(a: &BigInt, b: &BigInt) -> (r: BigInt)
    requires
        int_of(*b) > 0,
    ensures
        int_of(r) == int_of(*a) / int_of(*b),
{
    num::Integer::div_floor(a, b)
}

/// Relies on `BigInt`'s `PartialEq`: equal exactly when the values are.
#[verifier::external_body]
pub(crate) fn int_eq(a: &BigInt, b: &BigInt) -> (r: bool)
    ensures
        r == (int_of(*a) == int_of(*b)),
{
    a == b
}

/// Relies on `ToPrimitive::to_u8` for `BigInt`: the value when it fits.
#[verifier::external_body]
pub(crate) fn int_to_u8(a: &BigInt) -> (r: Option<u8>)
    ensures
        0 <= int_of(*a) <= 255 ==> r == Some(int_of(*a) as u8),
        !(0 <= int_of(*a) <= 255) ==> r.is_none(),
{
    num::ToPrimitive::to_u8(a)
}

} // verus!
