//! Conversion between coefficient polynomials and natural numbers.
use crate::poly::{
    bytes_value, coef, encodes, is_normalized, lemma_nonzero_digit, lemma_pow256_pos,
    lemma_value_bounds, lemma_value_concat, lemma_value_push, lemma_value_zeros,
    lemma_widen_normalized, lemma_widen_push, poly_value, pow256, widen,
};
use vstd::arithmetic::div_mod::lemma_fundamental_div_mod_converse;
use num_bigint::BigUint;
use vstd::prelude::*;
use vstd::string::StringExecFns;

verus! {

/// Why an operation on byte polynomials refused its input.
#[derive(PartialEq, Eq, Structural, Debug, Clone, Copy)]
pub enum PolyError {
    /// A polynomial denotes a negative integer where a natural number is needed.
    NegativeValue,
    /// A value needs more coefficients than the destination holds.
    Overflow,
    /// A coefficient is outside `0..=255` where a normalized polynomial is needed.
    InvalidCoefficient,
    /// The requested output length is not the one the operation produces.
    SizeMismatch,
    /// A text is not an even number of hexadecimal digits.
    InvalidHex,
}

/// A natural number as little-endian base-256 digits; any digit vector is valid.
pub struct BigNat {
    pub digits: Vec<u8>,
}

impl BigNat {
    /// The number denoted.
    pub open spec fn value(&self) -> int {
        bytes_value(self.digits@)
    }

    /// The digits of `v`, lowest first.
    pub fn from_u64(v: u64) -> (r: BigNat)
        ensures
            r.value() == v,
    {
        let mut digits: Vec<u8> = Vec::new();
        let mut rest: u64 = v;
        while rest > 0
            invariant
                v == bytes_value(digits@) + rest * pow256(digits@.len()),
            decreases rest,
        {
            let d = (rest % 256) as u8;
            proof {
                lemma_widen_push(digits@, d);
                lemma_fundamental_div_mod_converse(rest as int, 256, (rest / 256) as int, d as int);
                let p = pow256(digits@.len());
                assert(rest * p == d * p + (rest / 256) as int * (256 * p)) by (nonlinear_arith)
                    requires
                        rest == (rest / 256) as int * 256 + d,
                ;
            }
            digits.push(d);
            rest = rest / 256;
        }
        BigNat { digits }
    }
}

/// Floor quotient and remainder by 256.
pub(crate) fn floor_divmod256(t: i64) -> (r: (i64, i64))
    requires
        -0x1_0000_0000_0000 < t < 0x1_0000_0000_0000,
    ensures
        r.0 == t / 256,
        r.1 == t % 256,
        0 <= r.1 < 256,
        t == 256 * r.0 + r.1,
{
    if t >= 0 {
        let u = t as u64;
        let q = (u / 256) as i64;
        let m = (u % 256) as i64;
        proof {
            lemma_fundamental_div_mod_converse(t as int, 256, q as int, m as int);
        }
        (q, m)
    } else {
        let u = (-1 - t) as u64;
        let q = -1 - (u / 256) as i64;
        let m = 255 - (u % 256) as i64;
        proof {
            lemma_fundamental_div_mod_converse(t as int, 256, q as int, m as int);
        }
        (q, m)
    }
}

/// Bound on every carry of a pass over `i32` coefficients.
pub open spec fn carry_bound() -> int {
    0x100_0000
}

/// Reads `bp` as a base-256 number, whatever the sign or size of each
/// coefficient; refuses a negative total.
pub fn to_biguint(bp: &[i32]) -> (r: Result<BigNat, PolyError>)
    ensures
        poly_value(bp@) < 0 <==> r == Err::<BigNat, PolyError>(PolyError::NegativeValue),
        poly_value(bp@) >= 0 <==> r is Ok,
        r matches Ok(b) ==> b.value() == poly_value(bp@),
{
    let mut digits: Vec<u8> = Vec::new();
    let mut carry: i64 = 0;
    let n = bp.len();
    let mut i: usize = 0;
    while i < n
        invariant
            n == bp@.len(),
            i <= n,
            digits@.len() == i,
            -carry_bound() <= carry <= carry_bound(),
            poly_value(bp@.take(i as int)) == bytes_value(digits@) + carry * pow256(i as nat),
        decreases n - i,
    {
        let t: i64 = bp[i] as i64 + carry;
        let (q, d) = floor_divmod256(t);
        proof {
            assert(bp@.take(i + 1) =~= bp@.take(i as int).push(bp@[i as int]));
            lemma_value_push(bp@.take(i as int), bp@[i as int]);
            lemma_widen_push(digits@, d as u8);
            let p = pow256(i as nat);
            assert(pow256((i + 1) as nat) == 256 * p);
            assert((carry + bp@[i as int]) * p == d * p + q * (256 * p)) by (nonlinear_arith)
                requires
                    carry + bp@[i as int] == 256 * q + d,
            ;
            assert((d as u8) as int == d);
            assert(poly_value(bp@.take(i + 1)) == poly_value(bp@.take(i as int)) + bp@[i as int] * p);
            assert(bytes_value(digits@.push(d as u8)) == bytes_value(digits@) + d * p);
            assert(carry * p + bp@[i as int] * p == (carry + bp@[i as int]) * p) by (nonlinear_arith);
        }
        digits.push(d as u8);
        carry = q;
        i = i + 1;
    }
    assert(bp@.take(n as int) =~= bp@);
    proof {
        lemma_widen_normalized(digits@);
        lemma_pow256_pos(n as nat);
        let p = pow256(n as nat);
        if carry < 0 {
            assert(carry * p <= -p) by (nonlinear_arith)
                requires
                    carry < 0,
                    p >= 1,
            ;
        } else {
            assert(carry * p >= 0) by (nonlinear_arith)
                requires
                    carry >= 0,
                    p >= 1,
            ;
        }
    }
    if carry < 0 {
        return Err(PolyError::NegativeValue);
    }
    while carry > 0
        invariant
            carry >= 0,
            poly_value(bp@) == bytes_value(digits@) + carry * pow256(digits@.len()),
        decreases carry,
    {
        let d = (carry % 256) as u8;
        proof {
            lemma_widen_push(digits@, d);
            lemma_fundamental_div_mod_converse(carry as int, 256, (carry / 256) as int, d as int);
            let p = pow256(digits@.len());
            assert(carry * p == d * p + (carry / 256) as int * (256 * p)) by (nonlinear_arith)
                requires
                    carry == (carry / 256) as int * 256 + d,
            ;
        }
        digits.push(d);
        carry = carry / 256;
    }
    Ok(BigNat { digits })
}

/// The `coeffs`-coefficient normalized encoding of `val`; refuses a value of
/// `256^coeffs` or more.
pub fn from_biguint(val: &BigNat, coeffs: usize) -> (r: Result<Vec<i32>, PolyError>)
    ensures
        val.value() >= pow256(coeffs as nat) <==> r == Err::<Vec<i32>, PolyError>(
            PolyError::Overflow,
        ),
        val.value() < pow256(coeffs as nat) <==> r is Ok,
        r matches Ok(v) ==> encodes(v@, val.value(), coeffs as nat),
{
    let d = &val.digits;
    let len = d.len();
    proof {
        lemma_widen_normalized(d@);
    }
    // Every digit at or past `coeffs` must be zero.
    let mut j: usize = coeffs;
    while j < len
        invariant
            coeffs <= j || len <= j,
            len == d@.len(),
            d@ == val.digits@,
            forall|k: int| coeffs <= k < j ==> #[trigger] d@[k] == 0,
        decreases len - j,
    {
        if d[j] != 0 {
            proof {
                lemma_widen_normalized(d@);
                assert(widen(d@)[j as int] == d@[j as int] as i32);
                lemma_nonzero_digit(widen(d@), coeffs as nat, j as int);
            }
            return Err(PolyError::Overflow);
        }
        j = j + 1;
    }
    let mut out: Vec<i32> = Vec::new();
    let mut i: usize = 0;
    while i < coeffs
        invariant
            i <= coeffs,
            len == d@.len(),
            d@ == val.digits@,
            out@.len() == i,
            forall|k: int| 0 <= k < i ==> #[trigger] out@[k] == coef(widen(d@), k),
        decreases coeffs - i,
    {
        if i < len {
            out.push(d[i] as i32);
        } else {
            out.push(0);
        }
        i = i + 1;
    }
    proof {
        let w = widen(d@);
        assert(is_normalized(out@)) by {
            assert forall|k: int| 0 <= k < out@.len() implies 0 <= #[trigger] out@[k] <= 255 by {
                assert(out@[k] == coef(w, k));
            }
        }
        if coeffs <= len {
            let lo = w.take(coeffs as int);
            let hi = w.skip(coeffs as int);
            assert(w =~= lo + hi);
            assert(out@ =~= lo);
            lemma_value_concat(lo, hi);
            assert forall|k: int| 0 <= k < hi.len() implies #[trigger] hi[k] == 0 by {
                assert(hi[k] == w[coeffs + k]);
                assert(d@[coeffs + k] == 0);
            }
            lemma_value_zeros(hi);
        } else {
            let hi = out@.skip(len as int);
            assert(out@ =~= w + hi);
            lemma_value_concat(w, hi);
            assert forall|k: int| 0 <= k < hi.len() implies #[trigger] hi[k] == 0 by {
                assert(hi[k] == out@[len + k]);
            }
            lemma_value_zeros(hi);
        }
        lemma_value_bounds(out@);
    }
    Ok(out)
}

/// [`from_biguint`] for a length that the caller fixes in advance.
pub fn from_biguint_fixed(val: &BigNat, n: usize) -> (r: Result<Vec<i32>, PolyError>)
    ensures
        val.value() >= pow256(n as nat) <==> r == Err::<Vec<i32>, PolyError>(PolyError::Overflow),
        val.value() < pow256(n as nat) <==> r is Ok,
        r matches Ok(v) ==> encodes(v@, val.value(), n as nat),
{
    from_biguint(val, n)
}

/// `c` is one of `0-9`, `a-f`, `A-F`.
pub open spec fn is_hex_digit(c: char) -> bool {
    ('0' <= c && c <= '9') || ('a' <= c && c <= 'f') || ('A' <= c && c <= 'F')
}

pub open spec fn hex_digit_value(c: char) -> int {
    if '0' <= c && c <= '9' {
        c as int - '0' as int
    } else if 'a' <= c && c <= 'f' {
        c as int - 'a' as int + 10
    } else {
        c as int - 'A' as int + 10
    }
}

/// An even number of hexadecimal digits.
pub open spec fn is_hex_text(s: Seq<char>) -> bool {
    s.len() % 2 == 0 && forall|i: int| 0 <= i < s.len() ==> is_hex_digit(#[trigger] s[i])
}

/// The byte that digits `2i` and `2i + 1` spell, high digit first.
pub open spec fn hex_byte(s: Seq<char>, i: int) -> int {
    16 * hex_digit_value(s[2 * i]) + hex_digit_value(s[2 * i + 1])
}

/// Relies on hex's `FromHex` for `Vec<u8>`: it decodes pairs of digits of
/// either case into bytes, and fails on an odd length or any other character.
#[verifier::external_body]
fn decode_hex(s: &str) -> (r: Option<Vec<u8>>)
    ensures
        is_hex_text(s@) <==> r is Some,
        r matches Some(b) ==> 2 * b@.len() == s@.len() && forall|i: int|
            0 <= i < b@.len() ==> #[trigger] b@[i] == hex_byte(s@, i),
{
    <Vec<u8> as hex::FromHex>::from_hex(s).ok()
}

/// One coefficient per byte that the hexadecimal text spells.
pub fn from_hex(hex: &str) -> (r: Result<Vec<i32>, PolyError>)
    ensures
        !is_hex_text(hex@) <==> r == Err::<Vec<i32>, PolyError>(PolyError::InvalidHex),
        is_hex_text(hex@) <==> r is Ok,
        r matches Ok(v) ==> 2 * v@.len() == hex@.len() && forall|i: int|
            0 <= i < v@.len() ==> #[trigger] v@[i] == hex_byte(hex@, i),
{
    let bytes = match decode_hex(hex) {
        Some(b) => b,
        None => return Err(PolyError::InvalidHex),
    };
    let mut out: Vec<i32> = Vec::new();
    let mut i: usize = 0;
    while i < bytes.len()
        invariant
            i <= bytes@.len(),
            out@.len() == i,
            forall|k: int| 0 <= k < i ==> #[trigger] out@[k] == bytes@[k],
        decreases bytes@.len() - i,
    {
        out.push(bytes[i] as i32);
        i = i + 1;
    }
    Ok(out)
}

/// The decimal digit `d`.
pub open spec fn digit_char(d: int) -> char {
    seq!['0', '1', '2', '3', '4', '5', '6', '7', '8', '9'][d]
}

/// `n` in decimal, without leading zeros.
pub open spec fn decimal(n: nat) -> Seq<char>
    decreases n,
{
    if n < 10 {
        seq![digit_char(n as int)]
    } else {
        decimal(n / 10).push(digit_char((n % 10) as int))
    }
}

/// `i` in decimal, with a leading `-` when negative.
pub open spec fn signed_decimal(i: int) -> Seq<char> {
    if i < 0 {
        seq!['-'] + decimal((-i) as nat)
    } else {
        decimal(i as nat)
    }
}

/// The coefficients in decimal, separated by `", "`.
pub open spec fn list_body(s: Seq<i32>) -> Seq<char>
    decreases s.len(),
{
    if s.len() == 0 {
        seq![]
    } else if s.len() == 1 {
        signed_decimal(s[0] as int)
    } else {
        list_body(s.drop_last()) + seq![',', ' '] + signed_decimal(s.last() as int)
    }
}

/// `"[<c0>, <c1>, ...]"`.
pub open spec fn list_text(s: Seq<i32>) -> Seq<char> {
    seq!['['] + list_body(s) + seq![']']
}

/// `"<value> ([<c0>, <c1>, ...])"`.
pub open spec fn dump_text(value: nat, coeffs: Seq<i32>) -> Seq<char> {
    decimal(value) + seq![' ', '('] + list_text(coeffs) + seq![')']
}

/// Relies on num_bigint's `Display` for `BigUint`: the number in decimal,
/// without leading zeros.
#[verifier::external_body]
fn decimal_text(digits: &Vec<u8>) -> (r: String)
    ensures
        r@ == decimal(bytes_value(digits@) as nat),
{
    BigUint::from_bytes_le(digits).to_string()
}

/// Relies on std's `Debug` for `[i32]`: `[`, the items in decimal separated
/// by `", "`, and `]`.
#[verifier::external_body]
fn debug_list(coeffs: &[i32]) -> (r: String)
    ensures
        r@ == list_text(coeffs@),
{
    format!("{:?}", coeffs)
}

/// The number that `bp` denotes in decimal, then its coefficients, for
/// diagnostics; refuses a negative total.
pub fn dump(bp: &[i32]) -> (r: Result<String, PolyError>)
    ensures
        poly_value(bp@) < 0 <==> r == Err::<String, PolyError>(PolyError::NegativeValue),
        poly_value(bp@) >= 0 <==> r is Ok,
        r matches Ok(t) ==> t@ == dump_text(poly_value(bp@) as nat, bp@),
{
    let b = to_biguint(bp)?;
    let mut text = decimal_text(&b.digits);
    let list = debug_list(bp);
    proof {
        reveal_strlit(" (");
        reveal_strlit(")");
    }
    text.append(" (");
    text.append(list.as_str());
    text.append(")");
    assert(text@ =~= dump_text(poly_value(bp@) as nat, bp@));
    Ok(text)
}

} // verus!
