//! Arbitrary-precision naturals, held as little-endian bytes.
//!
//! The arithmetic itself is done by `num_bigint` and `num_bigint_dig`; each
//! function here hands bytes to one operation of those crates and states what
//! comes back over [`le_value`].

use vstd::prelude::*;
use num_bigint_dig::ModInverse;
use num_traits::ToPrimitive;

verus! {

/// The natural number that a little-endian byte string stands for.
pub open spec fn le_value(bytes: Seq<u8>) -> nat
    decreases bytes.len(),
{
    if bytes.len() == 0 {
        0
    } else {
        bytes[0] as nat + 256 * le_value(bytes.drop_first())
    }
}

/// `a` has an inverse modulo `m`: some `x` below `m` with `a * x` one modulo `m`.
pub open spec fn invertible(a: nat, m: nat) -> bool {
    exists|x: nat| is_inverse(x, a, m)
}

/// `x` is the inverse of `a` modulo `m`, reduced into `[0, m)`.
pub open spec fn is_inverse(x: nat, a: nat, m: nat) -> bool {
    x < m && (a * x) % m == 1
}

/// Trusted: `num_bigint::BigUint::from(u64)`, written out with `to_bytes_le`.
/// Claims that the bytes returned stand for `v`.
#[verifier::external_body]
pub(crate) fn big_from_u64(v: u64) -> (r: Vec<u8>)
    ensures
        le_value(r@) == v,
{
    num_bigint::BigUint::from(v).to_bytes_le()
}

/// Trusted: `num_traits::ToPrimitive::to_u64` on a `num_bigint::BigUint`.
/// Claims that the value comes back when it fits in 64 bits, and `None` when
/// it does not.
#[verifier::external_body]
pub(crate) fn big_to_u64(a: &Vec<u8>) -> (r: Option<u64>)
    ensures
        match r {
            Some(v) => v == le_value(a@),
            None => le_value(a@) > u64::MAX,
        },
{
    num_bigint::BigUint::from_bytes_le(a).to_u64()
}

/// Trusted: `Mul<u64>` of `num_bigint::BigUint`.
/// Claims that the result is the exact product.
#[verifier::external_body]
pub(crate) fn big_mul_u64(a: &Vec<u8>, b: u64) -> (r: Vec<u8>)
    ensures
        le_value(r@) == le_value(a@) * b,
{
    (num_bigint::BigUint::from_bytes_le(a) * b).to_bytes_le()
}

/// Trusted: `Sub<u64>` of `num_bigint::BigUint`, which panics when the
/// subtrahend is the larger; that case is excluded.
/// Claims that the result is the exact difference.
#[verifier::external_body]
pub(crate) fn big_sub_u64(a: &Vec<u8>, b: u64) -> (r: Vec<u8>)
    requires
        b <= le_value(a@),
    ensures
        le_value(r@) == le_value(a@) - b,
{
    (num_bigint::BigUint::from_bytes_le(a) - b).to_bytes_le()
}

/// Trusted: `Rem<u64>` of `num_bigint::BigUint`, which panics on a zero
/// divisor; that case is excluded.
/// Claims that the result is the remainder of the division by `m`.
#[verifier::external_body]
pub(crate) fn big_rem(a: &Vec<u8>, m: u64) -> (r: Vec<u8>)
    requires
        m != 0,
    ensures
        le_value(r@) == le_value(a@) % (m as nat),
{
    (num_bigint::BigUint::from_bytes_le(a) % m).to_bytes_le()
}

/// The remainder of `a` on division by `m`, as a word.
pub fn big_rem_u64(a: &Vec<u8>, m: u64) -> (r: u64)
    requires
        m != 0,
    ensures
        r == le_value(a@) % (m as nat),
{
    match big_to_u64(&big_rem(a, m)) {
        Some(v) => v,
        None => 0,
    }
}

/// Trusted: `Div<u64>` of `num_bigint_dig::BigUint`, which panics on a zero
/// divisor; that case is excluded.
/// Claims that the result is the quotient rounded down.
#[verifier::external_body]
pub(crate) fn big_div_u64(a: &Vec<u8>, d: u64) -> (r: Vec<u8>)
    requires
        d != 0,
    ensures
        le_value(r@) == le_value(a@) / (d as nat),
{
    (num_bigint_dig::BigUint::from_bytes_le(a) / d).to_bytes_le()
}

/// Trusted: `num_bigint_dig::ModInverse::mod_inverse` on two `BigUint`s.
/// Claims that for a modulus above one the call returns the inverse of `a`
/// reduced into `[0, m)` when there is one, and `None` exactly when `a` has no
/// inverse modulo `m`. The crate computes a Bezout coefficient of `a` and adds
/// `m` to a negative one, so what it returns is never negative.
#[verifier::external_body]
pub(crate) fn big_mod_inverse(a: &Vec<u8>, m: &Vec<u8>) -> (r: Option<Vec<u8>>)
    requires
        le_value(m@) > 1,
    ensures
        match r {
            Some(x) => is_inverse(le_value(x@), le_value(a@), le_value(m@)),
            None => !invertible(le_value(a@), le_value(m@)),
        },
{
    let a = num_bigint_dig::BigUint::from_bytes_le(a);
    let m = num_bigint_dig::BigUint::from_bytes_le(m);
    let x = a.mod_inverse(&m)?;
    Some(x.to_biguint()?.to_bytes_le())
}

} // verus!
