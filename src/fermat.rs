//! Fermat's little theorem, by the binomial expansion of `(a + 1)^p`.
use crate::euclid::{is_prime, lemma_prime_divides_product};
use vstd::arithmetic::power::{lemma_pow0, lemma_pow1, lemma_pow_adds, pow};
use vstd::prelude::*;

verus! {

/// The binomial coefficient, by Pascal's rule.
pub open spec fn binom(n: nat, k: nat) -> nat
    decreases n,
{
    if k == 0 {
        1
    } else if n == 0 {
        0
    } else {
        binom((n - 1) as nat, (k - 1) as nat) + binom((n - 1) as nat, k)
    }
}

/// `Σ_{j<k} binom(n, j)·a^j`.
pub open spec fn binom_sum(a: int, n: nat, k: nat) -> int
    decreases k,
{
    if k == 0 {
        0
    } else {
        binom_sum(a, n, (k - 1) as nat) + binom(n, (k - 1) as nat) * pow(a, (k - 1) as nat)
    }
}

proof fn lemma_binom_above(n: nat, k: nat)
    requires
        k > n,
    ensures
        binom(n, k) == 0,
    decreases n,
{
    if n > 0 {
        lemma_binom_above((n - 1) as nat, (k - 1) as nat);
        lemma_binom_above((n - 1) as nat, k);
    }
}

proof fn lemma_binom_diag(n: nat)
    ensures
        binom(n, n) == 1,
    decreases n,
{
    if n > 0 {
        lemma_binom_diag((n - 1) as nat);
        lemma_binom_above((n - 1) as nat, n);
    }
}

proof fn lemma_binom_sum_step(a: int, n: nat, k: nat)
    requires
        k >= 1,
    ensures
        binom_sum(a, n + 1, k) == a * binom_sum(a, n, (k - 1) as nat) + binom_sum(a, n, k),
    decreases k,
{
    if k == 1 {
        lemma_pow0(a);
        assert(binom_sum(a, n, 0) == 0);
        assert(binom_sum(a, (n + 1) as nat, 0) == 0);
        assert(binom((n + 1) as nat, 0) == 1);
        assert(binom(n, 0) == 1);
        assert(binom_sum(a, (n + 1) as nat, 1) == 1);
        assert(binom_sum(a, n, 1) == 1);
    } else {
        let k1 = (k - 1) as nat;
        lemma_binom_sum_step(a, n, k1);
        let c1 = binom(n, (k1 - 1) as nat);
        let c2 = binom(n, k1);
        assert(binom((n + 1) as nat, k1) == c1 + c2);
        let pk = pow(a, k1);
        let pk1 = pow(a, (k1 - 1) as nat);
        assert(pk == a * pk1) by {
            assert(((k1 - 1) as nat + 1) as nat == k1);
            lemma_pow_adds(a, (k1 - 1) as nat, 1);
            lemma_pow1(a);
            assert(pk1 * a == a * pk1) by (nonlinear_arith);
        }
        let s0 = binom_sum(a, n, (k1 - 1) as nat);
        let s1 = binom_sum(a, n, k1);
        assert(s1 == s0 + c1 * pk1);
        assert(binom_sum(a, n + 1, k) == binom_sum(a, n + 1, k1) + (c1 + c2) * pk);
        assert(a * s0 + s1 + (c1 + c2) * pk == a * s1 + (s1 + c2 * pk)) by (nonlinear_arith)
            requires s1 == s0 + c1 * pk1, pk == a * pk1;
    }
}

/// The binomial theorem for `(a + 1)^n`.
pub proof fn lemma_binomial(a: int, n: nat)
    ensures
        pow(a + 1, n) == binom_sum(a, n, n + 1),
    decreases n,
{
    if n == 0 {
        lemma_pow0(a + 1);
        lemma_pow0(a);
        assert(binom(0, 0) == 1);
        assert(binom_sum(a, 0, 0) == 0);
        assert(binom_sum(a, 0, 1) == 1);
    } else {
        let m = (n - 1) as nat;
        lemma_binomial(a, m);
        lemma_binom_sum_step(a, m, n + 1);
        lemma_binom_above(m, n);
        assert(binom_sum(a, m, n + 1) == binom_sum(a, m, n));
        assert((m + 1) as nat == n);
        lemma_pow_adds(a + 1, m, 1);
        lemma_pow1(a + 1);
        let s = binom_sum(a, m, n);
        assert(pow(a + 1, m) == s);
        assert(pow(a + 1, n) == pow(a + 1, m) * (a + 1));
        assert(binom_sum(a, (m + 1) as nat, n + 1) == a * s + s);
        assert(a * s + s == s * (a + 1)) by (nonlinear_arith);
        assert(pow(a + 1, n) == binom_sum(a, n, n + 1));
    }
}

/// `k·binom(n, k) = n·binom(n − 1, k − 1)`.
proof fn lemma_binom_absorb(n: nat, k: nat)
    requires
        n >= 1,
        k >= 1,
    ensures
        k * binom(n, k) == n * binom((n - 1) as nat, (k - 1) as nat),
    decreases n,
{
    let n1 = (n - 1) as nat;
    let k1 = (k - 1) as nat;
    if n == 1 {
        if k > 1 {
            lemma_binom_above(0, k1);
            lemma_binom_above(1, k);
            assert(k * binom(n, k) == 0) by (nonlinear_arith)
                requires binom(n, k) == 0;
            assert(n * binom(n1, k1) == 0) by (nonlinear_arith)
                requires binom(n1, k1) == 0;
        } else {
            assert(binom(0, 1) == 0);
            assert(binom(0, 0) == 1);
            assert(binom(1, 1) == 1);
            assert(k * binom(n, k) == n * binom(n1, k1));
        }
    } else if k == 1 {
        lemma_binom_absorb(n1, 1);
        assert(binom((n1 - 1) as nat, 0) == 1);
        assert(binom(n1, 0) == 1);
        assert(binom(n, 1) == binom(n1, 0) + binom(n1, 1));
        assert(1 * binom(n1, 1) == n1 * binom((n1 - 1) as nat, 0));
        let b1 = binom(n1, 1);
        let b0 = binom((n1 - 1) as nat, 0);
        assert(b1 == n1) by (nonlinear_arith)
            requires 1 * b1 == n1 * b0, b0 == 1;
        assert(binom(n, 1) == n);
        assert(k * binom(n, k) == n * binom(n1, k1));
    } else {
        lemma_binom_absorb(n1, k1);
        lemma_binom_absorb(n1, k);
        let a = binom((n1 - 1) as nat, (k1 - 1) as nat);
        let b = binom((n1 - 1) as nat, k1);
        let c = binom(n1, k1);
        let d = binom(n1, k);
        assert(binom(n, k) == c + d);
        assert(c == a + b);
        assert(k * (c + d) == n * c) by (nonlinear_arith)
            requires
                k1 * c == n1 * a,
                k * d == n1 * b,
                c == a + b,
                k1 + 1 == k,
                n1 + 1 == n,
        ;
        assert(k * binom(n, k) == n * binom(n1, k1));
    }
}

proof fn lemma_prime_divides_binom(p: int, k: nat)
    requires
        is_prime(p),
        0 < k < p,
    ensures
        binom(p as nat, k) as int % p == 0,
{
    lemma_binom_absorb(p as nat, k);
    let c = binom((p - 1) as nat, (k - 1) as nat) as int;
    vstd::arithmetic::div_mod::lemma_mod_multiples_basic(c, p);
    assert((k * binom(p as nat, k)) as int == c * p) by (nonlinear_arith)
        requires (k * binom(p as nat, k)) == p * c;
    lemma_prime_divides_product(p, k as int, binom(p as nat, k) as int);
    vstd::arithmetic::div_mod::lemma_small_mod(k, p as nat);
}

proof fn lemma_binom_sum_mod(a: int, p: int, k: nat)
    requires
        is_prime(p),
        1 <= k <= p,
    ensures
        binom_sum(a, p as nat, k) % p == 1,
    decreases k,
{
    if k == 1 {
        lemma_pow0(a);
        vstd::arithmetic::div_mod::lemma_small_mod(1, p as nat);
        assert(binom(p as nat, 0) == 1);
        assert(binom_sum(a, p as nat, 0) == 0);
        assert(binom_sum(a, p as nat, 1) == 1);
    } else {
        let k1 = (k - 1) as nat;
        lemma_binom_sum_mod(a, p, k1);
        lemma_prime_divides_binom(p, k1);
        let c = binom(p as nat, k1) as int;
        vstd::arithmetic::div_mod::lemma_fundamental_div_mod(c, p);
        let q = c / p;
        let s = binom_sum(a, p as nat, k1);
        assert(c * pow(a, k1) == p * (q * pow(a, k1))) by (nonlinear_arith)
            requires c == p * q;
        vstd::arithmetic::div_mod::lemma_mod_multiples_vanish(q * pow(a, k1), s, p);
        assert(binom_sum(a, p as nat, k) == s + c * pow(a, k1));
        assert(s + c * pow(a, k1) == p * (q * pow(a, k1)) + s);
    }
}

/// `(a + 1)^p ≡ a^p + 1` modulo a prime `p`.
proof fn lemma_freshman(a: int, p: int)
    requires
        is_prime(p),
    ensures
        pow(a + 1, p as nat) % p == (pow(a, p as nat) + 1) % p,
{
    lemma_binomial(a, p as nat);
    lemma_binom_sum_mod(a, p, p as nat);
    lemma_binom_diag(p as nat);
    let s = binom_sum(a, p as nat, p as nat);
    assert(binom_sum(a, p as nat, (p + 1) as nat) == s + pow(a, p as nat));
    vstd::arithmetic::div_mod::lemma_add_mod_noop(s, pow(a, p as nat), p);
    vstd::arithmetic::div_mod::lemma_add_mod_noop(1, pow(a, p as nat), p);
    vstd::arithmetic::div_mod::lemma_small_mod(1, p as nat);
}

proof fn lemma_fermat_nat(a: nat, p: int)
    requires
        is_prime(p),
    ensures
        pow(a as int, p as nat) % p == (a as int) % p,
    decreases a,
{
    if a == 0 {
        vstd::arithmetic::power::lemma0_pow(p as nat);
    } else {
        let b = (a - 1) as nat;
        lemma_fermat_nat(b, p);
        lemma_freshman(b as int, p);
        vstd::arithmetic::div_mod::lemma_add_mod_noop(pow(b as int, p as nat), 1, p);
        vstd::arithmetic::div_mod::lemma_add_mod_noop(b as int, 1, p);
    }
}

/// `a^p ≡ a` modulo a prime `p`.
pub proof fn lemma_fermat(a: int, p: int)
    requires
        is_prime(p),
    ensures
        pow(a, p as nat) % p == a % p,
{
    lemma_fermat_nat((a % p) as nat, p);
    vstd::arithmetic::power::lemma_pow_mod_noop(a, p as nat, p);
    vstd::arithmetic::div_mod::lemma_mod_twice(a, p);
}

} // verus!
