//! The value of a coefficient polynomial: coefficient `i` weighs `256^i`.
use vstd::arithmetic::div_mod::lemma_fundamental_div_mod_converse;
use vstd::prelude::*;

verus! {

/// `256` raised to the power `i`.
pub open spec fn pow256(i: nat) -> int
    decreases i,
{
    if i == 0 {
        1
    } else {
        256 * pow256((i - 1) as nat)
    }
}

/// The integer that a coefficient sequence denotes, little-endian in base 256.
pub open spec fn poly_value(s: Seq<i32>) -> int
    decreases s.len(),
{
    if s.len() == 0 {
        0
    } else {
        poly_value(s.drop_last()) + s.last() * pow256((s.len() - 1) as nat)
    }
}

/// Every coefficient is a byte.
pub open spec fn is_normalized(s: Seq<i32>) -> bool {
    forall|i: int| 0 <= i < s.len() ==> 0 <= #[trigger] s[i] <= 255
}

/// Coefficient `i`, reading zero past either end.
pub open spec fn coef(s: Seq<i32>, i: int) -> int {
    if 0 <= i < s.len() {
        s[i] as int
    } else {
        0
    }
}

/// Bytes seen as coefficients.
pub open spec fn widen(s: Seq<u8>) -> Seq<i32> {
    s.map_values(|b: u8| b as i32)
}

/// The natural number that little-endian base-256 digits denote.
pub open spec fn bytes_value(s: Seq<u8>) -> int {
    poly_value(widen(s))
}

/// `s` is the normalized `n`-coefficient encoding of `v`.
pub open spec fn encodes(s: Seq<i32>, v: int, n: nat) -> bool {
    &&& s.len() == n
    &&& is_normalized(s)
    &&& poly_value(s) == v
}

pub proof fn lemma_pow256_pos(i: nat)
    ensures
        pow256(i) >= 1,
    decreases i,
{
    if i > 0 {
        lemma_pow256_pos((i - 1) as nat);
    }
}

pub proof fn lemma_pow256_add(a: nat, b: nat)
    ensures
        pow256(a + b) == pow256(a) * pow256(b),
    decreases b,
{
    if b > 0 {
        lemma_pow256_add(a, (b - 1) as nat);
        assert(pow256(a + b) == 256 * pow256((a + b - 1) as nat));
        assert(pow256(a) * (256 * pow256((b - 1) as nat)) == 256 * (pow256(a) * pow256(
            (b - 1) as nat,
        ))) by (nonlinear_arith);
    }
}

pub proof fn lemma_value_push(s: Seq<i32>, x: i32)
    ensures
        poly_value(s.push(x)) == poly_value(s) + x * pow256(s.len()),
{
    assert(s.push(x).drop_last() =~= s);
}

/// A normalized polynomial of length `n` denotes a value in `[0, 256^n)`.
pub proof fn lemma_value_bounds(s: Seq<i32>)
    requires
        is_normalized(s),
    ensures
        0 <= poly_value(s) < pow256(s.len()),
    decreases s.len(),
{
    if s.len() > 0 {
        let t = s.drop_last();
        assert(is_normalized(t)) by {
            assert forall|i: int| 0 <= i < t.len() implies 0 <= #[trigger] t[i] <= 255 by {
                assert(t[i] == s[i]);
            }
        }
        lemma_value_bounds(t);
        let p = pow256(t.len());
        let x = s.last() as int;
        assert(0 <= x <= 255) by {
            assert(s[s.len() - 1] == s.last());
        }
        assert(0 <= x * p <= 255 * p) by (nonlinear_arith)
            requires
                0 <= x <= 255,
                p >= 0,
        ;
    }
}

/// The zero polynomial of any length denotes zero.
pub proof fn lemma_value_zeros(s: Seq<i32>)
    requires
        forall|i: int| 0 <= i < s.len() ==> #[trigger] s[i] == 0,
    ensures
        poly_value(s) == 0,
    decreases s.len(),
{
    if s.len() > 0 {
        let t = s.drop_last();
        assert forall|i: int| 0 <= i < t.len() implies #[trigger] t[i] == 0 by {
            assert(t[i] == s[i]);
        }
        lemma_value_zeros(t);
        assert(s.last() == s[s.len() - 1]);
        assert(s.last() * pow256(t.len()) == 0);
    }
}

/// Splitting a polynomial at `a.len()`.
pub proof fn lemma_value_concat(a: Seq<i32>, b: Seq<i32>)
    ensures
        poly_value(a + b) == poly_value(a) + pow256(a.len()) * poly_value(b),
    decreases b.len(),
{
    if b.len() > 0 {
        let b0 = b.drop_last();
        lemma_value_concat(a, b0);
        assert((a + b).drop_last() =~= a + b0);
        assert((a + b).last() == b.last());
        lemma_pow256_add(a.len(), b0.len());
        let pa = pow256(a.len());
        let pb = pow256(b0.len());
        let x = b.last() as int;
        assert(pa * (poly_value(b0) + x * pb) == pa * poly_value(b0) + x * (pa * pb))
            by (nonlinear_arith);
    }
}

/// Two normalized polynomials of one length with one value are equal.
pub proof fn lemma_normalized_unique(a: Seq<i32>, b: Seq<i32>)
    requires
        a.len() == b.len(),
        is_normalized(a),
        is_normalized(b),
        poly_value(a) == poly_value(b),
    ensures
        a == b,
    decreases a.len(),
{
    if a.len() > 0 {
        let a0 = a.drop_last();
        let b0 = b.drop_last();
        assert(is_normalized(a0)) by {
            assert forall|i: int| 0 <= i < a0.len() implies 0 <= #[trigger] a0[i] <= 255 by {
                assert(a0[i] == a[i]);
            }
        }
        assert(is_normalized(b0)) by {
            assert forall|i: int| 0 <= i < b0.len() implies 0 <= #[trigger] b0[i] <= 255 by {
                assert(b0[i] == b[i]);
            }
        }
        lemma_value_bounds(a0);
        lemma_value_bounds(b0);
        let p = pow256(a0.len());
        lemma_pow256_pos(a0.len());
        let v = poly_value(a);
        assert(v == a.last() * p + poly_value(a0));
        assert(v == b.last() * p + poly_value(b0));
        lemma_fundamental_div_mod_converse(v, p, a.last() as int, poly_value(a0));
        lemma_fundamental_div_mod_converse(v, p, b.last() as int, poly_value(b0));
        lemma_normalized_unique(a0, b0);
        assert(a =~= a0.push(a.last()));
        assert(b =~= b0.push(b.last()));
    }
}

/// A normalized polynomial with a nonzero coefficient at or past `n` denotes
/// at least `256^n`.
pub proof fn lemma_nonzero_digit(w: Seq<i32>, n: nat, j: int)
    requires
        is_normalized(w),
        n <= j < w.len(),
        w[j] != 0,
    ensures
        poly_value(w) >= pow256(n),
{
    let lo = w.take(j);
    let hi = w.skip(j);
    assert(w =~= lo + hi);
    lemma_value_concat(lo, hi);
    let h0 = hi.take(1);
    let h1 = hi.skip(1);
    assert(hi =~= h0 + h1);
    lemma_value_concat(h0, h1);
    assert(h0 =~= seq![].push(hi[0]));
    lemma_value_push(seq![], hi[0]);
    assert(is_normalized(lo)) by {
        assert forall|k: int| 0 <= k < lo.len() implies 0 <= #[trigger] lo[k] <= 255 by {
            assert(lo[k] == w[k]);
        }
    }
    assert(is_normalized(h1)) by {
        assert forall|k: int| 0 <= k < h1.len() implies 0 <= #[trigger] h1[k] <= 255 by {
            assert(h1[k] == w[j + 1 + k]);
        }
    }
    lemma_value_bounds(lo);
    lemma_value_bounds(h1);
    assert(hi[0] == w[j]);
    assert(pow256(0) == 1);
    assert(pow256(1) == 256);
    let x = poly_value(hi);
    assert(x >= 1);
    lemma_pow256_add(n, (j - n) as nat);
    lemma_pow256_pos(n);
    lemma_pow256_pos((j - n) as nat);
    let pn = pow256(n);
    let pm = pow256((j - n) as nat);
    assert(pn * pm * x >= pn) by (nonlinear_arith)
        requires
            pn >= 1,
            pm >= 1,
            x >= 1,
    ;
}

/// Bytes are always normalized coefficients, and `widen` commits with `push`.
pub proof fn lemma_widen_push(s: Seq<u8>, x: u8)
    ensures
        widen(s.push(x)) =~= widen(s).push(x as i32),
        bytes_value(s.push(x)) == bytes_value(s) + x * pow256(s.len()),
{
    assert(widen(s.push(x)) =~= widen(s).push(x as i32));
    lemma_value_push(widen(s), x as i32);
}

pub proof fn lemma_widen_normalized(s: Seq<u8>)
    ensures
        is_normalized(widen(s)),
        widen(s).len() == s.len(),
        0 <= bytes_value(s) < pow256(s.len()),
{
    lemma_value_bounds(widen(s));
}

} // verus!
