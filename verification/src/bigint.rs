//! Trusted boundary around `num_bigint::BigInt`.
//!
//! The layout engine computes with exact rationals whose numerators and
//! denominators are arbitrary-precision integers, so its arithmetic is total:
//! no overflow and no rounding. Verus cannot look inside `BigInt`, so the
//! value a `BigInt` holds is given the name [`bint`], and each operation the
//! library uses is wrapped with a contract stating what `num_bigint`
//! documents: construction from a machine integer, the ring operations, and
//! comparison, all by numeric value.

use vstd::prelude::*;
use num_bigint::BigInt;

verus! {

#[verifier::external_type_specification]
#[verifier::external_body]
pub struct ExBigInt(BigInt);

/// The integer value held by a `BigInt`.
pub uninterp spec fn bint(b: BigInt) -> int;

/// Relies on `<BigInt as From<i64>>::from`: the big integer holds the value
/// of the machine integer.
#[verifier::external_body]
pub fn bi_from_i64(v: i64) -> (r: BigInt)
    ensures
        bint(r) == v as int,
{
    BigInt::from(v)
}

/// Relies on `<&BigInt as Add>::add`: arbitrary-precision addition.
#[verifier::external_body]
pub fn bi_add(a: &BigInt, b: &BigInt) -> (r: BigInt)
    ensures
        bint(r) == bint(*a) + bint(*b),
{
    a + b
}

/// Relies on `<&BigInt as Sub>::sub`: arbitrary-precision subtraction.
#[verifier::external_body]
pub fn bi_sub(a: &BigInt, b: &BigInt) -> (r: BigInt)
    ensures
        bint(r) == bint(*a) - bint(*b),
{
    a - b
}

/// Relies on `<&BigInt as Mul>::mul`: arbitrary-precision multiplication.
#[verifier::external_body]
pub fn bi_mul(a: &BigInt, b: &BigInt) -> (r: BigInt)
    ensures
        bint(r) == bint(*a) * bint(*b),
{
    a * b
}

/// Relies on `<&BigInt as Neg>::neg`: arbitrary-precision negation.
#[verifier::external_body]
pub fn bi_neg(a: &BigInt) -> (r: BigInt)
    ensures
        bint(r) == -bint(*a),
{
    -a
}

/// Relies on `<BigInt as Ord>::lt`: comparison by numeric value.
#[verifier::external_body]
pub fn bi_lt(a: &BigInt, b: &BigInt) -> (r: bool)
    ensures
        r == (bint(*a) < bint(*b)),
{
    a < b
}

/// Relies on `<BigInt as PartialEq>::eq`: equality of numeric values.
#[verifier::external_body]
pub fn bi_eq(a: &BigInt, b: &BigInt) -> (r: bool)
    ensures
        r == (bint(*a) == bint(*b)),
{
    a == b
}

/// Relies on `<BigInt as Clone>::clone`: the copy holds the same value.
#[verifier::external_body]
pub fn bi_clone(a: &BigInt) -> (r: BigInt)
    ensures
        bint(r) == bint(*a),
{
    a.clone()
}

} // verus!
