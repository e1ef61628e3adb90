//! Fermat's little theorem, by the binomial expansion of `(a + 1)^p`.
use vstd::arithmetic::div_mod::{
    lemma_fundamental_div_mod, lemma_fundamental_div_mod_converse, lemma_mod_multiples_basic,
};
use vstd::arithmetic::power::pow;
use vstd::prelude::*;

verus! {

/// `p` has no divisor strictly between 1 and itself.
pub open spec fn is_prime(p: int) -> bool {
    p >= 2 && forall|d: int| 2 <= d < p ==> #[trigger] (p % d) != 0
}

proof fn lemma_multiple(x: int, p: int, t: int)
    requires
        p > 0,
        x == p * t,
    ensures
        x % p == 0,
{
    lemma_mod_multiples_basic(t, p);
    assert(t * p == p * t) by (nonlinear_arith);
}

proof fn lemma_add_multiples(x: int, y: int, p: int)
    requires
        p > 0,
        x % p == 0,
        y % p == 0,
    ensures
        (x + y) % p == 0,
{
    lemma_fundamental_div_mod(x, p);
    lemma_fundamental_div_mod(y, p);
    assert(x + y == p * (x / p + y / p)) by (nonlinear_arith)
        requires
            x == p * (x / p),
            y == p * (y / p),
    ;
    lemma_multiple(x + y, p, x / p + y / p);
}

proof fn lemma_scale_multiple(x: int, w: int, p: int)
    requires
        p > 0,
        x % p == 0,
    ensures
        (x * w) % p == 0,
{
    lemma_fundamental_div_mod(x, p);
    assert(x * w == p * ((x / p) * w)) by (nonlinear_arith)
        requires
            x == p * (x / p),
    ;
    lemma_multiple(x * w, p, (x / p) * w);
}

/// Euclid's lemma: a prime that divides `k * c` with `0 < k < p` divides `c`.
pub proof fn lemma_euclid(p: int, k: int, c: int)
    requires
        is_prime(p),
        0 < k < p,
        (k * c) % p == 0,
    ensures
        c % p == 0,
    decreases k,
{
    if k == 1 {
        assert(1 * c == c);
    } else {
        let r = p % k;
        let q = p / k;
        lemma_fundamental_div_mod(p, k);
        assert(r != 0);
        let t = (k * c) / p;
        lemma_fundamental_div_mod(k * c, p);
        assert(r * c == p * (c - q * t)) by (nonlinear_arith)
            requires
                p == k * q + r,
                k * c == p * t,
        ;
        lemma_multiple(r * c, p, c - q * t);
        lemma_euclid(p, r, c);
    }
}

/// The binomial coefficient, by Pascal's rule.
pub open spec fn binom(n: nat, k: nat) -> nat
    decreases n,
{
    if k == 0 {
        1
    } else if n == 0 {
        0
    } else {
        binom((n - 1) as nat, (k - 1) as nat) + binom((n - 1) as nat, k)
    }
}

proof fn lemma_binom_past(n: nat, k: nat)
    requires
        k > n,
    ensures
        binom(n, k) == 0,
    decreases n,
{
    if n > 0 {
        lemma_binom_past((n - 1) as nat, (k - 1) as nat);
        lemma_binom_past((n - 1) as nat, k);
    }
}

proof fn lemma_binom_all(n: nat)
    ensures
        binom(n, n) == 1,
    decreases n,
{
    if n > 0 {
        lemma_binom_all((n - 1) as nat);
        lemma_binom_past((n - 1) as nat, n);
    }
}

/// `k * C(n, k) == n * C(n - 1, k - 1)`.
proof fn lemma_binom_absorb(n: nat, k: nat)
    requires
        n >= 1,
        k >= 1,
    ensures
        k * binom(n, k) == n * binom((n - 1) as nat, (k - 1) as nat),
    decreases n,
{
    let n1 = (n - 1) as nat;
    let k1 = (k - 1) as nat;
    if n == 1 {
        lemma_binom_past(0, k);
        assert(binom(1, k) == binom(0, k1) + binom(0, k));
        if k > 1 {
            lemma_binom_past(0, k1);
            assert(k * binom(1, k) == 0) by (nonlinear_arith)
                requires
                    binom(1, k) == 0,
            ;
            assert(n * binom(0, k1) == 0) by (nonlinear_arith)
                requires
                    binom(0, k1) == 0,
            ;
        } else {
            assert(binom(0, 0) == 1);
        }
    } else {
        lemma_binom_absorb(n1, k);
        let a = binom(n1, k);
        let b = binom(n1, k1);
        assert(k * binom(n, k) == k * b + k * a) by (nonlinear_arith)
            requires
                binom(n, k) == b + a,
        ;
        if k1 == 0 {
            assert(b == 1);
            assert(binom((n1 - 1) as nat, 0) == 1);
            assert(k * a == n1 * 1);
            assert(k == 1);
            assert(n * b == n) by (nonlinear_arith)
                requires
                    b == 1,
            ;
            assert(k * b == 1) by (nonlinear_arith)
                requires
                    b == 1,
                    k == 1,
            ;
            assert(n == n1 + 1);
        } else {
            lemma_binom_absorb(n1, k1);
            let c = binom((n1 - 1) as nat, (k1 - 1) as nat);
            let d = binom((n1 - 1) as nat, k1);
            assert(b == c + d);
            assert(k1 * b == n1 * c);
            assert(k * a == n1 * d);
            assert(k * b == k1 * b + b) by (nonlinear_arith)
                requires
                    k == k1 + 1,
            ;
            assert(n * b == n1 * c + n1 * d + b) by (nonlinear_arith)
                requires
                    n == n1 + 1,
                    b == c + d,
            ;
        }
    }
}

/// `sum_{k < m} C(n, k) * a^k`.
pub open spec fn binomial_sum(a: int, n: nat, m: nat) -> int
    decreases m,
{
    if m == 0 {
        0
    } else {
        binomial_sum(a, n, (m - 1) as nat) + binom(n, (m - 1) as nat) * pow(a, (m - 1) as nat)
    }
}

proof fn lemma_pow_step(a: int, e: nat)
    requires
        e >= 1,
    ensures
        pow(a, e) == a * pow(a, (e - 1) as nat),
{
    reveal(pow);
}

proof fn lemma_binomial_shift(a: int, n: nat, m: nat)
    requires
        n >= 1,
        m >= 1,
    ensures
        binomial_sum(a, n, m) == a * binomial_sum(a, (n - 1) as nat, (m - 1) as nat) + binomial_sum(
            a,
            (n - 1) as nat,
            m,
        ),
    decreases m,
{
    let n1 = (n - 1) as nat;
    if m == 1 {
        reveal(pow);
        assert(pow(a, 0) == 1);
        assert(binomial_sum(a, n, 0) == 0);
        assert(binomial_sum(a, n1, 0) == 0);
        assert(binomial_sum(a, n, 1) == binom(n, 0) * pow(a, 0));
        assert(binomial_sum(a, n1, 1) == binom(n1, 0) * pow(a, 0));
    } else {
        let m1 = (m - 1) as nat;
        let m2 = (m - 2) as nat;
        lemma_binomial_shift(a, n, m1);
        lemma_pow_step(a, m1);
        let s = binomial_sum(a, n1, m2);
        let t = binomial_sum(a, n1, m1);
        let c1 = binom(n1, m2);
        let c2 = binom(n1, m1);
        let p1 = pow(a, m1);
        let p2 = pow(a, m2);
        assert(binom(n, m1) == c1 + c2);
        assert(t == s + c1 * p2);
        assert(binomial_sum(a, n, m) == a * s + t + (c1 + c2) * p1);
        assert(a * s + t + (c1 + c2) * p1 == a * t + (t + c2 * p1)) by (nonlinear_arith)
            requires
                t == s + c1 * p2,
                p1 == a * p2,
        ;
    }
}

/// The binomial theorem for `(a + 1)^n`.
proof fn lemma_binomial(a: int, n: nat)
    ensures
        pow(a + 1, n) == binomial_sum(a, n, n + 1),
    decreases n,
{
    if n == 0 {
        reveal(pow);
        assert(binomial_sum(a, 0, 0) == 0);
        assert(binomial_sum(a, 0, 1) == binom(0, 0) * pow(a, 0));
    } else {
        let n1 = (n - 1) as nat;
        lemma_binomial(a, n1);
        lemma_binomial_shift(a, n, n + 1);
        lemma_binom_past(n1, n);
        assert(binomial_sum(a, n1, n + 1) == binomial_sum(a, n1, n) + binom(n1, n) * pow(a, n));
        lemma_pow_step(a + 1, n);
        let s = binomial_sum(a, n1, n);
        assert(a * s + s == (a + 1) * s) by (nonlinear_arith);
    }
}

/// Every inner term of the expansion of `(a + 1)^p` is a multiple of `p`.
proof fn lemma_inner_terms(a: int, p: int, m: nat)
    requires
        is_prime(p),
        1 <= m <= p,
    ensures
        (binomial_sum(a, p as nat, m) - 1) % p == 0,
    decreases m,
{
    if m == 1 {
        reveal(pow);
        assert(binomial_sum(a, p as nat, 0) == 0);
        assert(binomial_sum(a, p as nat, 1) == binom(p as nat, 0) * pow(a, 0));
        assert(0int % p == 0);
    } else {
        let k = (m - 1) as nat;
        lemma_inner_terms(a, p, k);
        lemma_binom_absorb(p as nat, k);
        let c = binom(p as nat, k);
        lemma_multiple((k * c) as int, p, binom((p - 1) as nat, (k - 1) as nat) as int);
        lemma_euclid(p, k as int, c as int);
        lemma_scale_multiple(c as int, pow(a, k), p);
        lemma_add_multiples(binomial_sum(a, p as nat, k) - 1, c * pow(a, k), p);
    }
}

/// Fermat's little theorem: `a^p` and `a` agree modulo a prime `p`.
pub proof fn lemma_fermat(a: nat, p: int)
    requires
        is_prime(p),
    ensures
        (pow(a as int, p as nat) - a) % p == 0,
    decreases a,
{
    if a == 0 {
        lemma_pow_step(0, p as nat);
        assert(0 * pow(0, (p - 1) as nat) == 0);
        assert(0int % p == 0);
    } else {
        let b = (a - 1) as nat;
        lemma_fermat(b, p);
        lemma_binomial(b as int, p as nat);
        lemma_inner_terms(b as int, p, p as nat);
        lemma_binom_all(p as nat);
        let s = binomial_sum(b as int, p as nat, p as nat);
        assert(pow(a as int, p as nat) == s + 1 * pow(b as int, p as nat));
        lemma_add_multiples(s - 1, pow(b as int, p as nat) - b, p);
    }
}

/// For a prime `p` and `0 < a < p`, `a * a^(p - 2)` is 1 modulo `p`.
pub proof fn lemma_fermat_inverse(a: int, p: int)
    requires
        is_prime(p),
        0 < a < p,
    ensures
        (a * pow(a, (p - 2) as nat)) % p == 1,
{
    lemma_fermat(a as nat, p);
    lemma_pow_step(a, p as nat);
    let y = pow(a, (p - 1) as nat);
    lemma_pow_step(a, (p - 1) as nat);
    assert(pow(a, p as nat) - a == a * (y - 1)) by (nonlinear_arith)
        requires
            pow(a, p as nat) == a * y,
    ;
    lemma_euclid(p, a, y - 1);
    lemma_fundamental_div_mod(y - 1, p);
    assert(y == (y - 1) / p * p + 1) by (nonlinear_arith)
        requires
            y - 1 == p * ((y - 1) / p) + (y - 1) % p,
            (y - 1) % p == 0,
    ;
    lemma_fundamental_div_mod_converse(y, p, (y - 1) / p, 1);
}

} // verus!
