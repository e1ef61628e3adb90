//! Properties that relate several operations of the library.
use crate::carry::{carry_chain_ok, carry_in, limb_range};
use crate::convert::BigNat;
use crate::digest::{digest_elems_of, views};
use crate::fermat::{is_prime, lemma_fermat_inverse};
use crate::poly::{
    coef, encodes, is_normalized, lemma_normalized_unique, lemma_pow256_add, lemma_pow256_pos, lemma_value_bounds,
    lemma_value_concat, lemma_value_push, poly_value, pow256,
};
use vstd::arithmetic::div_mod::{lemma_fundamental_div_mod, lemma_mul_mod_noop_right};
use vstd::arithmetic::power::pow;
use vstd::prelude::*;

verus! {

/// Reading a normalized polynomial as a number and encoding that number in
/// as many coefficients gives the polynomial back: the reading succeeds, the
/// encoding fits, and the only encoding is the polynomial itself.
pub proof fn lemma_round_trip(p: Seq<i32>, b: BigNat, out: Seq<i32>)
    requires
        is_normalized(p),
    ensures
        poly_value(p) >= 0,
        b.value() == poly_value(p) ==> b.value() < pow256(p.len()),
        b.value() == poly_value(p) && encodes(out, b.value(), p.len()) ==> out == p,
{
    lemma_value_bounds(p);
    if b.value() == poly_value(p) && encodes(out, b.value(), p.len()) {
        lemma_normalized_unique(out, p);
    }
}

/// The quotient and remainder hints of a natural number by a positive one
/// satisfy `a == q * b + r` with `0 <= r < b`.
pub proof fn lemma_division_identity(a: Seq<i32>, b: Seq<i32>, n: nat, q: Seq<i32>, r: Seq<i32>)
    requires
        poly_value(a) >= 0,
        poly_value(b) > 0,
        encodes(q, poly_value(a) / poly_value(b), n),
        encodes(r, poly_value(a) % poly_value(b), n),
    ensures
        poly_value(a) == poly_value(q) * poly_value(b) + poly_value(r),
        0 <= poly_value(r) < poly_value(b),
{
    lemma_fundamental_div_mod(poly_value(a), poly_value(b));
}

/// For a prime modulus and an operand in `(0, m)`, the inverse hint is the
/// operand's inverse: `a * inv` is 1 modulo `m`.
pub proof fn lemma_inverse_hint(a: Seq<i32>, m: Seq<i32>, n: nat, inv: Seq<i32>)
    requires
        is_prime(poly_value(m)),
        0 < poly_value(a) < poly_value(m),
        encodes(inv, pow(poly_value(a), (poly_value(m) - 2) as nat) % poly_value(m), n),
    ensures
        (poly_value(a) * poly_value(inv)) % poly_value(m) == 1,
{
    let x = poly_value(a);
    let k = poly_value(m);
    lemma_mul_mod_noop_right(x, pow(x, (k - 2) as nat), k);
    lemma_fermat_inverse(x, k);
}

proof fn lemma_value_head(s: Seq<i32>)
    requires
        s.len() > 0,
    ensures
        poly_value(s) == s[0] + 256 * poly_value(s.skip(1)),
{
    let h = s.take(1);
    assert(s =~= h + s.skip(1));
    lemma_value_concat(h, s.skip(1));
    assert(h =~= seq![].push(s[0]));
    lemma_value_push(seq![], s[0]);
    assert(pow256(1) == 256);
}

/// A polynomial that denotes zero leaves no remainder at any position of its
/// carry chain: with an offset and width that hold every biased carry, the
/// carry constraint accepts it.
pub proof fn lemma_zero_value_carries(val: Seq<i32>, carry_offset: nat, carry_bytes: nat)
    requires
        poly_value(val) == 0,
        forall|i: nat|
            i < val.len() ==> 0 <= #[trigger] carry_in(val, i + 1) + carry_offset < limb_range(
                carry_bytes,
            ),
    ensures
        carry_chain_ok(val, carry_offset, carry_bytes),
{
    assert forall|i: nat| i < val.len() implies (val[i as int] + #[trigger] carry_in(val, i)) % 256
        == 0 by {
        lemma_prefix_carry(val, i);
    }
    assert forall|i: nat| i < val.len() implies {
        &&& (val[i as int] + #[trigger] carry_in(val, i)) % 256 == 0
        &&& 0 <= carry_in(val, i + 1) + carry_offset < limb_range(carry_bytes)
    } by {
        assert(0 <= carry_in(val, i + 1) + carry_offset < limb_range(carry_bytes));
    }
}

/// For a polynomial denoting zero, the carry into position `i` cancels the
/// rest of the polynomial, so position `i` leaves no remainder.
proof fn lemma_prefix_carry(val: Seq<i32>, i: nat)
    requires
        poly_value(val) == 0,
        i < val.len(),
    ensures
        poly_value(val.take(i as int)) == carry_in(val, i) * pow256(i),
        carry_in(val, i) + poly_value(val.skip(i as int)) == 0,
        (val[i as int] + carry_in(val, i)) % 256 == 0,
    decreases i,
{
    let c = carry_in(val, i);
    if i == 0 {
        assert(val.take(0) =~= seq![]);
        assert(val.skip(0) =~= val);
    } else {
        let k = (i - 1) as nat;
        lemma_prefix_carry(val, k);
        let ck = carry_in(val, k);
        let x = val[k as int];
        assert(val.take(i as int) =~= val.take(k as int).push(x));
        lemma_value_push(val.take(k as int), x);
        lemma_value_head(val.skip(k as int));
        assert(val.skip(k as int).skip(1) =~= val.skip(i as int));
        assert(val.skip(k as int)[0] == x);
        lemma_fundamental_div_mod(x + ck, 256);
        assert(c == (coef(val, k as int) + ck) / 256);
        assert((x + ck) % 256 == 0);
        assert(x + ck == 256 * c);
        let p = pow256(k);
        assert(pow256(i) == 256 * p);
        assert(ck * p + x * p == (x + ck) * p) by (nonlinear_arith);
        assert((256 * c) * p == c * (256 * p)) by (nonlinear_arith);
    }
    let pre = val.take(i as int);
    let post = val.skip(i as int);
    assert(val =~= pre + post);
    lemma_value_concat(pre, post);
    let p = pow256(i);
    lemma_pow256_pos(i);
    let s = poly_value(post);
    assert(c * p + p * s == p * (c + s)) by (nonlinear_arith);
    assert(c + s == 0) by (nonlinear_arith)
        requires
            p * (c + s) == 0,
            p >= 1,
    ;
    lemma_value_head(post);
    assert(post[0] == val[i as int]);
    let t = poly_value(post.skip(1));
    assert(val[i as int] + c == -256 * t);
    lemma_fundamental_div_mod(val[i as int] + c, 256);
    assert((val[i as int] + c) % 256 == 0) by {
        vstd::arithmetic::div_mod::lemma_mod_multiples_basic(-t, 256);
        assert(-t * 256 == -256 * t);
    }
}

proof fn lemma_carry_prefix_only(val: Seq<i32>, other: Seq<i32>, j: nat, i: nat)
    requires
        val.len() == other.len(),
        j < val.len(),
        i <= j,
        forall|k: int| 0 <= k < j ==> val[k] == other[k],
    ensures
        carry_in(val, i) == carry_in(other, i),
    decreases i,
{
    if i > 0 {
        lemma_carry_prefix_only(val, other, j, (i - 1) as nat);
    }
}

/// Every prefix of an accepted polynomial denotes its carry out times
/// `256^i`.
proof fn lemma_accepted_prefix(val: Seq<i32>, carry_offset: nat, carry_bytes: nat, i: nat)
    requires
        carry_chain_ok(val, carry_offset, carry_bytes),
        i <= val.len(),
    ensures
        poly_value(val.take(i as int)) == carry_in(val, i) * pow256(i),
    decreases i,
{
    if i == 0 {
        assert(val.take(0) =~= seq![]);
    } else {
        let k = (i - 1) as nat;
        lemma_accepted_prefix(val, carry_offset, carry_bytes, k);
        let x = val[k as int];
        let ck = carry_in(val, k);
        let c = carry_in(val, i);
        assert(val.take(i as int) =~= val.take(k as int).push(x));
        lemma_value_push(val.take(k as int), x);
        assert((val[k as int] + carry_in(val, k)) % 256 == 0);
        lemma_fundamental_div_mod(x + ck, 256);
        assert(c == (coef(val, k as int) + ck) / 256);
        assert(x + ck == 256 * c);
        let p = pow256(k);
        assert(pow256(i) == 256 * p);
        assert(ck * p + x * p == (x + ck) * p) by (nonlinear_arith);
        assert((256 * c) * p == c * (256 * p)) by (nonlinear_arith);
    }
}

/// The value of a polynomial split around position `j`.
proof fn lemma_value_around(s: Seq<i32>, j: int)
    requires
        0 <= j < s.len(),
    ensures
        poly_value(s) == poly_value(s.take(j)) + pow256(j as nat) * (s[j] + 256 * poly_value(
            s.skip(j + 1),
        )),
{
    assert(s =~= s.take(j) + s.skip(j));
    lemma_value_concat(s.take(j), s.skip(j));
    lemma_value_head(s.skip(j));
    assert(s.skip(j).skip(1) =~= s.skip(j + 1));
}

/// Changing one coefficient `j` of an accepted polynomial of length `n` by an
/// amount that is not a multiple of `256^(n - j)` makes the carry constraint
/// refuse it.
pub proof fn lemma_mutation_breaks_carries(
    val: Seq<i32>,
    other: Seq<i32>,
    j: nat,
    carry_offset: nat,
    carry_bytes: nat,
)
    requires
        carry_chain_ok(val, carry_offset, carry_bytes),
        val.len() == other.len(),
        j < val.len(),
        forall|k: int| 0 <= k < val.len() && k != j ==> val[k] == other[k],
        (other[j as int] - val[j as int]) % pow256((val.len() - j) as nat) != 0,
    ensures
        !carry_chain_ok(other, carry_offset, carry_bytes),
{
    if carry_chain_ok(other, carry_offset, carry_bytes) {
        let n = val.len();
        let m = (n - j) as nat;
        lemma_accepted_prefix(val, carry_offset, carry_bytes, n);
        lemma_accepted_prefix(other, carry_offset, carry_bytes, n);
        assert(val.take(n as int) =~= val);
        assert(other.take(n as int) =~= other);
        lemma_value_around(val, j as int);
        lemma_value_around(other, j as int);
        assert(val.take(j as int) =~= other.take(j as int));
        assert(val.skip(j as int + 1) =~= other.skip(j as int + 1));
        let d = other[j as int] - val[j as int];
        let pj = pow256(j);
        let pm = pow256(m);
        lemma_pow256_add(j, m);
        lemma_pow256_pos(j);
        let c = carry_in(val, n);
        let c2 = carry_in(other, n);
        let t = poly_value(val.skip(j as int + 1));
        assert(pj * d == pj * (pm * (c2 - c))) by (nonlinear_arith)
            requires
                poly_value(val) == poly_value(val.take(j as int)) + pj * (val[j as int] + 256 * t),
                poly_value(other) == poly_value(val.take(j as int)) + pj * (other[j as int] + 256
                    * t),
                d == other[j as int] - val[j as int],
                poly_value(val) == c * (pj * pm),
                poly_value(other) == c2 * (pj * pm),
        ;
        assert(d == pm * (c2 - c)) by (nonlinear_arith)
            requires
                pj * d == pj * (pm * (c2 - c)),
                pj >= 1,
        ;
        lemma_pow256_pos(m);
        vstd::arithmetic::div_mod::lemma_mod_multiples_basic(c2 - c, pm);
        assert((c2 - c) * pm == pm * (c2 - c)) by (nonlinear_arith);
    }
}

/// The digest elements are a function of the witnesses' coefficients and the
/// group count alone: equal inputs give equal elements.
pub proof fn lemma_digest_elems_deterministic(
    w1: Seq<Vec<i32>>,
    w2: Seq<Vec<i32>>,
    group_count: nat,
)
    requires
        views(w1) == views(w2),
    ensures
        digest_elems_of(views(w1), group_count) == digest_elems_of(views(w2), group_count),
{
}

} // verus!
