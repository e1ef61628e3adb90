//! Untrusted witness hints: quotient, remainder and inverse of the numbers
//! that two polynomials denote. A circuit checks each hint on its own.
use crate::convert::{from_biguint_fixed, to_biguint, BigNat, PolyError};
use crate::poly::{bytes_value, encodes, poly_value, pow256};
use num_bigint::BigUint;
use num_integer::Integer;
use vstd::arithmetic::power::pow;
use vstd::prelude::*;

verus! {

/// Relies on num_integer's `Integer::div_floor` for `BigUint`: the floor
/// quotient; it panics on a zero divisor.
#[verifier::external_body]
fn big_div_floor(a: &Vec<u8>, b: &Vec<u8>) -> (r: Vec<u8>)
    requires
        bytes_value(b@) > 0,
    ensures
        bytes_value(r@) == bytes_value(a@) / bytes_value(b@),
{
    let a = BigUint::from_bytes_le(a);
    let b = BigUint::from_bytes_le(b);
    Integer::div_floor(&a, &b).to_bytes_le()
}

/// Relies on num_integer's `Integer::mod_floor` for `BigUint`: the remainder
/// in `[0, b)`; it panics on a zero divisor.
#[verifier::external_body]
fn big_mod_floor(a: &Vec<u8>, b: &Vec<u8>) -> (r: Vec<u8>)
    requires
        bytes_value(b@) > 0,
    ensures
        bytes_value(r@) == bytes_value(a@) % bytes_value(b@),
{
    let a = BigUint::from_bytes_le(a);
    let b = BigUint::from_bytes_le(b);
    Integer::mod_floor(&a, &b).to_bytes_le()
}

/// Relies on `BigUint - BigUint` from num_bigint: the difference; it panics
/// when it would be negative.
#[verifier::external_body]
fn big_sub(a: &Vec<u8>, b: &Vec<u8>) -> (r: Vec<u8>)
    requires
        bytes_value(a@) >= bytes_value(b@),
    ensures
        bytes_value(r@) == bytes_value(a@) - bytes_value(b@),
{
    (BigUint::from_bytes_le(a) - BigUint::from_bytes_le(b)).to_bytes_le()
}

/// Relies on num_bigint's `BigUint::modpow`: `(base ^ exp) % m`; it panics on
/// a zero modulus.
#[verifier::external_body]
fn big_modpow(base: &Vec<u8>, exp: &Vec<u8>, m: &Vec<u8>) -> (r: Vec<u8>)
    requires
        bytes_value(m@) > 1,
    ensures
        bytes_value(r@) == pow(bytes_value(base@), bytes_value(exp@) as nat) % bytes_value(m@),
{
    let base = BigUint::from_bytes_le(base);
    base.modpow(&BigUint::from_bytes_le(exp), &BigUint::from_bytes_le(m)).to_bytes_le()
}

/// What a hint of `n` coefficients for the natural number `v` comes to.
pub open spec fn hint_outcome(v: int, n: nat, r: Result<Vec<i32>, PolyError>) -> bool {
    &&& v < pow256(n) <==> r is Ok
    &&& v >= pow256(n) <==> r == Err::<Vec<i32>, PolyError>(PolyError::Overflow)
    &&& r matches Ok(q) ==> encodes(q@, v, n)
}

/// Both operands denote natural numbers.
pub open spec fn operands_natural(lhs: Seq<i32>, rhs: Seq<i32>) -> bool {
    poly_value(lhs) >= 0 && poly_value(rhs) >= 0
}

/// The floor quotient of the numbers `lhs` and `rhs` denote, as `n` normalized
/// coefficients.
pub fn nondet_quot_fixed(lhs: &[i32], rhs: &[i32], n: usize) -> (r: Result<Vec<i32>, PolyError>)
    requires
        poly_value(rhs@) != 0,
    ensures
        !operands_natural(lhs@, rhs@) <==> r == Err::<Vec<i32>, PolyError>(
            PolyError::NegativeValue,
        ),
        operands_natural(lhs@, rhs@) ==> hint_outcome(
            poly_value(lhs@) / poly_value(rhs@),
            n as nat,
            r,
        ),
{
    let a = to_biguint(lhs)?;
    let b = to_biguint(rhs)?;
    let q = BigNat { digits: big_div_floor(&a.digits, &b.digits) };
    from_biguint_fixed(&q, n)
}

/// The remainder of the number `lhs` denotes modulo the one `rhs` denotes, in
/// `[0, rhs)`, as `n` normalized coefficients.
pub fn nondet_rem_fixed(lhs: &[i32], rhs: &[i32], n: usize) -> (r: Result<Vec<i32>, PolyError>)
    requires
        poly_value(rhs@) != 0,
    ensures
        !operands_natural(lhs@, rhs@) <==> r == Err::<Vec<i32>, PolyError>(
            PolyError::NegativeValue,
        ),
        operands_natural(lhs@, rhs@) ==> hint_outcome(
            poly_value(lhs@) % poly_value(rhs@),
            n as nat,
            r,
        ),
{
    let a = to_biguint(lhs)?;
    let b = to_biguint(rhs)?;
    let m = BigNat { digits: big_mod_floor(&a.digits, &b.digits) };
    from_biguint_fixed(&m, n)
}

/// The candidate inverse `lhs^(rhs - 2) mod rhs`, as `n` normalized
/// coefficients. It is the inverse of `lhs` modulo `rhs` when `rhs` is prime;
/// for another modulus it may be wrong, and the circuit rejects it.
pub fn nondet_inv_fixed(lhs: &[i32], rhs: &[i32], n: usize) -> (r: Result<Vec<i32>, PolyError>)
    requires
        poly_value(rhs@) != 0,
        poly_value(rhs@) != 1,
    ensures
        !operands_natural(lhs@, rhs@) <==> r == Err::<Vec<i32>, PolyError>(
            PolyError::NegativeValue,
        ),
        operands_natural(lhs@, rhs@) ==> hint_outcome(
            pow(poly_value(lhs@), (poly_value(rhs@) - 2) as nat) % poly_value(rhs@),
            n as nat,
            r,
        ),
{
    let a = to_biguint(lhs)?;
    let b = to_biguint(rhs)?;
    let two = BigNat::from_u64(2);
    let e = big_sub(&b.digits, &two.digits);
    let p = BigNat { digits: big_modpow(&a.digits, &e, &b.digits) };
    from_biguint_fixed(&p, n)
}

} // verus!
