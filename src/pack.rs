//! Packing of normalized polynomials into words, and the field elements that
//! a witness digest hashes.
use crate::convert::PolyError;
use crate::poly::{coef, is_normalized};
use vstd::prelude::*;

verus! {

/// Coefficients absorbed per lane before the group counter advances.
pub open spec fn group_size() -> nat {
    16
}

/// Relies on risc0_circuit_recursion's `CHECKED_COEFFS_PER_POLY`: the number
/// of coefficients in one witness group.
#[verifier::external_body]
pub(crate) fn checked_coeffs_per_poly() -> (r: usize)
    ensures
        r == group_size(),
{
    risc0_circuit_recursion::CHECKED_COEFFS_PER_POLY
}

/// Number of words once `n` coefficients are padded to whole groups.
pub open spec fn padded_words(n: nat) -> nat {
    (n / group_size() + if n % group_size() != 0 {
        1nat
    } else {
        0nat
    }) * (group_size() / 4)
}

/// Word `w`: coefficients `4w .. 4w + 4`, little-endian, zero past the end.
pub open spec fn packed_word(bp: Seq<i32>, w: int) -> int {
    coef(bp, 4 * w) + 0x100 * coef(bp, 4 * w + 1) + 0x1_0000 * coef(bp, 4 * w + 2) + 0x100_0000
        * coef(bp, 4 * w + 3)
}

/// Packs a normalized polynomial four coefficients to a little-endian word,
/// after padding it with zeros to a whole number of groups.
pub fn into_padded_u32s(bp: &[i32]) -> (r: Result<Vec<u32>, PolyError>)
    ensures
        !is_normalized(bp@) <==> r == Err::<Vec<u32>, PolyError>(PolyError::InvalidCoefficient),
        is_normalized(bp@) <==> r is Ok,
        r matches Ok(v) ==> v@.len() == padded_words(bp@.len()) && forall|w: int|
            0 <= w < v@.len() ==> #[trigger] v@[w] == packed_word(bp@, w),
{
    let n = bp.len();
    let mut i: usize = 0;
    while i < n
        invariant
            n == bp@.len(),
            i <= n,
            forall|k: int| 0 <= k < i ==> 0 <= #[trigger] bp@[k] <= 255,
        decreases n - i,
    {
        if bp[i] < 0 || bp[i] > 255 {
            return Err(PolyError::InvalidCoefficient);
        }
        i = i + 1;
    }
    let g = checked_coeffs_per_poly();
    let groups = n / g + if n % g != 0 {
        1
    } else {
        0
    };
    assert(groups <= n / 16 + 1);
    assert((n / 16 + 1) * 4 <= n / 4 + 4);
    let words = groups * (g / 4);
    let mut out: Vec<u32> = Vec::new();
    let mut w: usize = 0;
    while w < words
        invariant
            n == bp@.len(),
            is_normalized(bp@),
            words == padded_words(n as nat),
            w <= words,
            out@.len() == w,
            forall|j: int| 0 <= j < w ==> #[trigger] out@[j] == packed_word(bp@, j),
        decreases words - w,
    {
        let mut word: u32 = 0;
        let mut k: usize = 4;
        while k > 0
            invariant
                n == bp@.len(),
                is_normalized(bp@),
                w < words,
                words == padded_words(n as nat),
                k <= 4,
                0 <= word < pow_word(k as nat),
                word == tail_value(bp@, w as int, k as int),
            decreases k,
        {
            k = k - 1;
            let c: u32 = if w <= n / 4 && k < n - 4 * w {
                bp[4 * w + k] as u32
            } else {
                0
            };
            assert(c == coef(bp@, 4 * w + k));
            assert(word * 256 + c < pow_word((k + 1) as nat) * 256) by (nonlinear_arith)
                requires
                    word < pow_word((k + 1) as nat),
                    c < 256,
            ;
            word = word * 256 + c;
        }
        proof {
            reveal_with_fuel(tail_value, 5);
        }
        assert(tail_value(bp@, w as int, 0) == packed_word(bp@, w as int));
        out.push(word);
        w = w + 1;
    }
    Ok(out)
}

/// `256^(4 - k)`, the bound of a word built from its top `4 - k` bytes.
spec fn pow_word(k: nat) -> int {
    if k >= 4 {
        1
    } else if k == 3 {
        0x100
    } else if k == 2 {
        0x1_0000
    } else if k == 1 {
        0x100_0000
    } else {
        0x1_0000_0000
    }
}

/// The bytes `k .. 4` of word `w`, read as a number.
spec fn tail_value(bp: Seq<i32>, w: int, k: int) -> int
    decreases 4 - k,
{
    if k >= 4 {
        0
    } else {
        coef(bp, 4 * w + k) + 0x100 * tail_value(bp, w, k + 1)
    }
}

} // verus!
