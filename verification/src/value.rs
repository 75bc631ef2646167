//! Machine values: arbitrary-precision integers.
//!
//! The virtual machine computes on `num_bigint::BigInt`. Verus cannot look
//! inside such a value, so this module names the integer it stands for
//! ([`int_value`]) and gives each operation the machine needs a small function
//! whose contract is stated over that integer. The contracts in this module are
//! believed, not proved: each doc comment names the operation it describes.

use num_bigint::BigInt;
use num_bigint::Sign as BigSign;
use num_integer::Integer;
use num_traits::ToPrimitive;
use vstd::arithmetic::power2::pow2;
use vstd::prelude::*;

verus! {

#[verifier::external_type_specification]
#[verifier::external_body]
pub struct ExBigInt(num_bigint::BigInt);

/// The mathematical integer that a machine value stands for.
pub uninterp spec fn int_value(v: BigInt) -> int;

/// The integers a sequence of machine values stands for, in order.
pub open spec fn int_values(vs: Seq<BigInt>) -> Seq<int> {
    vs.map_values(|v: BigInt| int_value(v))
}

/// Sign of an integer.
#[derive(Clone, Copy, Debug, PartialEq, Eq, Structural)]
pub enum Sign {
    Negative,
    Zero,
    Positive,
}

pub open spec fn sign_of(x: int) -> Sign {
    if x < 0 {
        Sign::Negative
    } else if x == 0 {
        Sign::Zero
    } else {
        Sign::Positive
    }
}

/// Quotient rounded toward negative infinity; `0` for a zero divisor.
pub open spec fn floor_div(a: int, b: int) -> int {
    if b > 0 {
        a / b
    } else if b < 0 {
        (-a) / (-b)
    } else {
        0
    }
}

/// Remainder that goes with [`floor_div`]: it has the divisor's sign, and is
/// `0` for a zero divisor.
pub open spec fn floor_mod(a: int, b: int) -> int {
    if b == 0 {
        0
    } else {
        a - b * floor_div(a, b)
    }
}

/// `BigInt::from` on an `i64`: the result stands for the same integer.
#[verifier::external_body]
pub fn memval(v: i64) -> (r: BigInt)
    ensures
        int_value(r) == v,
{
    BigInt::from(v)
}

/// `BigInt::clone`: the copy stands for the same integer.
#[verifier::external_body]
pub(crate) fn copy(a: &BigInt) -> (r: BigInt)
    ensures
        int_value(r) == int_value(*a),
{
    a.clone()
}

/// `&BigInt + &BigInt`: the sum.
#[verifier::external_body]
pub(crate) fn sum(a: &BigInt, b: &BigInt) -> (r: BigInt)
    ensures
        int_value(r) == int_value(*a) + int_value(*b),
{
    a + b
}

/// `&BigInt - &BigInt`: the difference.
#[verifier::external_body]
pub(crate) fn difference(a: &BigInt, b: &BigInt) -> (r: BigInt)
    ensures
        int_value(r) == int_value(*a) - int_value(*b),
{
    a - b
}

/// `&BigInt * &BigInt`: the product.
#[verifier::external_body]
pub(crate) fn product(a: &BigInt, b: &BigInt) -> (r: BigInt)
    ensures
        int_value(r) == int_value(*a) * int_value(*b),
{
    a * b
}

/// `-&BigInt`: the negation.
#[verifier::external_body]
pub(crate) fn negation(a: &BigInt) -> (r: BigInt)
    ensures
        int_value(r) == -int_value(*a),
{
    -a
}

/// `&BigInt << usize`: multiplication by a power of two.
#[verifier::external_body]
pub(crate) fn shift_left(a: &BigInt, bits: usize) -> (r: BigInt)
    ensures
        int_value(r) == int_value(*a) * pow2(bits as nat),
{
    a << bits
}

/// `&BigInt >> usize`: division by a power of two, rounded toward negative
/// infinity (the shift is arithmetic).
#[verifier::external_body]
pub(crate) fn shift_right(a: &BigInt, bits: usize) -> (r: BigInt)
    ensures
        int_value(r) == int_value(*a) / (pow2(bits as nat) as int),
{
    a >> bits
}

/// `Integer::div_floor` of `BigInt`, which panics on a zero divisor.
#[verifier::external_body]
pub(crate) fn quotient_floor(a: &BigInt, b: &BigInt) -> (r: BigInt)
    requires
        int_value(*b) != 0,
    ensures
        int_value(r) == floor_div(int_value(*a), int_value(*b)),
{
    a.div_floor(b)
}

/// `Integer::mod_floor` of `BigInt`, which panics on a zero divisor.
#[verifier::external_body]
pub(crate) fn remainder_floor(a: &BigInt, b: &BigInt) -> (r: BigInt)
    requires
        int_value(*b) != 0,
    ensures
        int_value(r) == floor_mod(int_value(*a), int_value(*b)),
{
    a.mod_floor(b)
}

/// `BigInt::sign`, with each of its three variants mapped to ours.
#[verifier::external_body]
pub(crate) fn sign(a: &BigInt) -> (r: Sign)
    ensures
        r == sign_of(int_value(*a)),
{
    match a.sign() {
        BigSign::Minus => Sign::Negative,
        BigSign::NoSign => Sign::Zero,
        BigSign::Plus => Sign::Positive,
    }
}

/// `ToPrimitive::to_i64` of `BigInt`: the integer, where an `i64` can hold it.
#[verifier::external_body]
pub(crate) fn to_i64(a: &BigInt) -> (r: Option<i64>)
    ensures
        r is Some <==> i64::MIN <= int_value(*a) <= i64::MAX,
        r matches Some(v) ==> v == int_value(*a),
{
    a.to_i64()
}

/// `ToPrimitive::to_usize` of `BigInt`: the integer, where a `usize` can hold it.
#[verifier::external_body]
pub(crate) fn to_usize(a: &BigInt) -> (r: Option<usize>)
    ensures
        r is Some <==> 0 <= int_value(*a) <= usize::MAX,
        r matches Some(v) ==> v == int_value(*a),
{
    a.to_usize()
}

} // verus!
