//! Coefficient-wise sum and difference, and the product of polynomials, into
//! an output whose length the caller states.
use crate::convert::PolyError;
use crate::poly::coef;
use vstd::prelude::*;

verus! {

/// Sum of `lhs[i] * rhs[k - i]` over `i < m`.
pub open spec fn conv_prefix(lhs: Seq<i32>, rhs: Seq<i32>, m: nat, k: int) -> int
    decreases m,
{
    if m == 0 {
        0
    } else {
        conv_prefix(lhs, rhs, (m - 1) as nat, k) + coef(lhs, m - 1) * coef(rhs, k - (m - 1))
    }
}

/// Coefficient `k` of the product polynomial.
pub open spec fn conv(lhs: Seq<i32>, rhs: Seq<i32>, k: int) -> int {
    conv_prefix(lhs, rhs, lhs.len(), k)
}

/// The longer of the two lengths.
pub open spec fn max_len(lhs: Seq<i32>, rhs: Seq<i32>) -> nat {
    if lhs.len() >= rhs.len() {
        lhs.len()
    } else {
        rhs.len()
    }
}

/// `x` is a value of `i32`.
pub open spec fn fits_i32(x: int) -> bool {
    i32::MIN <= x <= i32::MAX
}

/// The coefficient-wise sum, over the longer length; `n` must be that length.
pub fn add_fixed(lhs: &[i32], rhs: &[i32], n: usize) -> (r: Result<Vec<i32>, PolyError>)
    requires
        forall|i: int| 0 <= i < max_len(lhs@, rhs@) ==> fits_i32(coef(lhs@, i) + coef(rhs@, i)),
    ensures
        n != max_len(lhs@, rhs@) <==> r == Err::<Vec<i32>, PolyError>(PolyError::SizeMismatch),
        n == max_len(lhs@, rhs@) <==> r is Ok,
        r matches Ok(v) ==> v@.len() == n && forall|i: int|
            0 <= i < n ==> #[trigger] v@[i] == coef(lhs@, i) + coef(rhs@, i),
{
    let m = if lhs.len() >= rhs.len() {
        lhs.len()
    } else {
        rhs.len()
    };
    if n != m {
        return Err(PolyError::SizeMismatch);
    }
    let mut out: Vec<i32> = Vec::new();
    let mut i: usize = 0;
    while i < m
        invariant
            m == max_len(lhs@, rhs@),
            i <= m,
            out@.len() == i,
            forall|k: int| 0 <= k < max_len(lhs@, rhs@) ==> fits_i32(coef(lhs@, k) + coef(rhs@, k)),
            forall|k: int| 0 <= k < i ==> #[trigger] out@[k] == coef(lhs@, k) + coef(rhs@, k),
        decreases m - i,
    {
        let a: i32 = if i < lhs.len() {
            lhs[i]
        } else {
            0
        };
        let b: i32 = if i < rhs.len() {
            rhs[i]
        } else {
            0
        };
        assert(fits_i32(coef(lhs@, i as int) + coef(rhs@, i as int)));
        out.push(a + b);
        i = i + 1;
    }
    Ok(out)
}

/// The coefficient-wise difference, over the longer length; `n` must be that
/// length.
pub fn sub_fixed(lhs: &[i32], rhs: &[i32], n: usize) -> (r: Result<Vec<i32>, PolyError>)
    requires
        forall|i: int| 0 <= i < max_len(lhs@, rhs@) ==> fits_i32(coef(lhs@, i) - coef(rhs@, i)),
    ensures
        n != max_len(lhs@, rhs@) <==> r == Err::<Vec<i32>, PolyError>(PolyError::SizeMismatch),
        n == max_len(lhs@, rhs@) <==> r is Ok,
        r matches Ok(v) ==> v@.len() == n && forall|i: int|
            0 <= i < n ==> #[trigger] v@[i] == coef(lhs@, i) - coef(rhs@, i),
{
    let m = if lhs.len() >= rhs.len() {
        lhs.len()
    } else {
        rhs.len()
    };
    if n != m {
        return Err(PolyError::SizeMismatch);
    }
    let mut out: Vec<i32> = Vec::new();
    let mut i: usize = 0;
    while i < m
        invariant
            m == max_len(lhs@, rhs@),
            i <= m,
            out@.len() == i,
            forall|k: int| 0 <= k < max_len(lhs@, rhs@) ==> fits_i32(coef(lhs@, k) - coef(rhs@, k)),
            forall|k: int| 0 <= k < i ==> #[trigger] out@[k] == coef(lhs@, k) - coef(rhs@, k),
        decreases m - i,
    {
        let a: i32 = if i < lhs.len() {
            lhs[i]
        } else {
            0
        };
        let b: i32 = if i < rhs.len() {
            rhs[i]
        } else {
            0
        };
        assert(fits_i32(coef(lhs@, i as int) - coef(rhs@, i as int)));
        out.push(a - b);
        i = i + 1;
    }
    Ok(out)
}

proof fn lemma_conv_prefix_bound(lhs: Seq<i32>, rhs: Seq<i32>, m: nat, k: int)
    ensures
        -(m * 0x4000_0000_0000_0000) <= conv_prefix(lhs, rhs, m, k) <= m * 0x4000_0000_0000_0000,
    decreases m,
{
    if m > 0 {
        lemma_conv_prefix_bound(lhs, rhs, (m - 1) as nat, k);
        let a = coef(lhs, m - 1);
        let b = coef(rhs, k - (m - 1));
        assert(-0x4000_0000_0000_0000 <= a * b <= 0x4000_0000_0000_0000) by (nonlinear_arith)
            requires
                -0x8000_0000 <= a <= 0x7fff_ffff,
                -0x8000_0000 <= b <= 0x7fff_ffff,
        ;
        assert(m * 0x4000_0000_0000_0000 == (m - 1) * 0x4000_0000_0000_0000
            + 0x4000_0000_0000_0000) by (nonlinear_arith);
    }
}

/// The product polynomial, `out[i + j] += lhs[i] * rhs[j]`, with no
/// truncation; `n` must be `lhs.len() + rhs.len()`.
pub fn mul_fixed(lhs: &[i32], rhs: &[i32], n: usize) -> (r: Result<Vec<i32>, PolyError>)
    requires
        forall|k: int| 0 <= k < lhs@.len() + rhs@.len() ==> fits_i32(#[trigger] conv(lhs@, rhs@, k)),
    ensures
        n != lhs@.len() + rhs@.len() <==> r == Err::<Vec<i32>, PolyError>(PolyError::SizeMismatch),
        n == lhs@.len() + rhs@.len() <==> r is Ok,
        r matches Ok(v) ==> v@.len() == n && forall|k: int|
            0 <= k < n ==> #[trigger] v@[k] == conv(lhs@, rhs@, k),
{
    if lhs.len() > usize::MAX - rhs.len() || n != lhs.len() + rhs.len() {
        return Err(PolyError::SizeMismatch);
    }
    let mut out: Vec<i32> = Vec::new();
    let mut k: usize = 0;
    while k < n
        invariant
            n == lhs@.len() + rhs@.len(),
            k <= n,
            out@.len() == k,
            forall|j: int| 0 <= j < lhs@.len() + rhs@.len() ==> fits_i32(#[trigger] conv(lhs@, rhs@, j)),
            forall|j: int| 0 <= j < k ==> #[trigger] out@[j] == conv(lhs@, rhs@, j),
        decreases n - k,
    {
        let mut acc: i128 = 0;
        let mut i: usize = 0;
        while i < lhs.len()
            invariant
                n == lhs@.len() + rhs@.len(),
                k < n,
                i <= lhs@.len(),
                acc == conv_prefix(lhs@, rhs@, i as nat, k as int),
            decreases lhs@.len() - i,
        {
            proof {
                lemma_conv_prefix_bound(lhs@, rhs@, (i + 1) as nat, k as int);
                assert((i + 1) * 0x4000_0000_0000_0000 <= 0x1_0000_0000_0000_0000 * 0x4000_0000_0000_0000)
                    by (nonlinear_arith)
                    requires
                        i + 1 <= 0x1_0000_0000_0000_0000,
                ;
            }
            if i <= k && k - i < rhs.len() {
                let a = lhs[i] as i128;
                let b = rhs[k - i] as i128;
                assert(-0x4000_0000_0000_0000 <= a * b <= 0x4000_0000_0000_0000) by (nonlinear_arith)
                    requires
                        -0x8000_0000 <= a <= 0x7fff_ffff,
                        -0x8000_0000 <= b <= 0x7fff_ffff,
                ;
                acc = acc + a * b;
            }
            i = i + 1;
        }
        assert(fits_i32(conv(lhs@, rhs@, k as int)));
        out.push(acc as i32);
        k = k + 1;
    }
    Ok(out)
}

} // verus!
