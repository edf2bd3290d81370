//! Square roots modulo an odd prime by the Tonelli–Shanks algorithm.
use crate::bigint::value;
use crate::bigint;
use crate::error::ModError;
use crate::euclid::{is_prime, lemma_square_roots_of_one};
use num_bigint::BigInt;
use vstd::arithmetic::div_mod::{lemma_mul_mod_noop_left, lemma_mul_mod_noop_right};
use vstd::arithmetic::power::{
    lemma_pow1, lemma_pow_adds, lemma_pow_increases, lemma_pow_mod_noop, lemma_pow_multiplies,
    lemma_square_is_pow2, pow,
};
use vstd::prelude::*;

verus! {

/// Euler's criterion value `v^((p−1)/2) mod p`.
pub open spec fn euler(v: int, p: int) -> int {
    pow(v, ((p - 1) / 2) as nat) % p
}

/// `x² ≡ v (mod p)`.
pub open spec fn is_root(x: int, v: int, p: int) -> bool {
    (x * x) % p == v % p
}

/// `v` has a square root modulo `p`.
pub open spec fn is_residue(v: int, p: int) -> bool {
    exists|x: int| is_root(x, v, p)
}

proof fn lemma_square_mod(x: int, p: int)
    requires
        p > 0,
    ensures
        pow(x % p, 2) % p == (x * x) % p,
{
    lemma_pow_mod_noop(x, 2, p);
    lemma_square_is_pow2(x);
}

/// Squaring `x^(2^k)` gives `x^(2^(k+1))`.
proof fn lemma_pow_double(x: int, k: nat)
    ensures
        pow(pow(x, pow(2, k) as nat), 2) == pow(x, pow(2, k + 1) as nat),
{
    vstd::arithmetic::power::lemma_pow_positive(2, k);
    lemma_pow_multiplies(x, pow(2, k) as nat, 2);
    assert(pow(2, k + 1) == 2 * pow(2, k)) by {
        lemma_pow_adds(2, k, 1);
        lemma_pow1(2);
    }
}

/// One step of the main loop keeps `r² ≡ v·t`: with `c' = b²`, `t' = t·c'`
/// and `r' = r·b`.
proof fn lemma_root_step(v: int, t: int, r: int, b: int, p: int)
    requires
        p > 0,
        (r * r) % p == (v * t) % p,
    ensures
        (((r * b) % p) * ((r * b) % p)) % p == (v * ((t * ((b * b) % p)) % p)) % p,
{
    let rb = r * b;
    lemma_mul_mod_noop_left(rb, rb % p, p);
    lemma_mul_mod_noop_right(rb, rb, p);
    assert(rb * rb == (r * r) * (b * b)) by (nonlinear_arith)
        requires rb == r * b;
    lemma_mul_mod_noop_left(r * r, b * b, p);
    lemma_mul_mod_noop_left(v * t, b * b, p);
    assert((v * t) * (b * b) == v * (t * (b * b))) by (nonlinear_arith);
    lemma_mul_mod_noop_right(t, b * b, p);
    lemma_mul_mod_noop_right(v, t * ((b * b) % p), p);
    lemma_mul_mod_noop_right(v, t * (b * b), p);
}

/// Euler's criterion, one direction: a non-zero square modulo an odd prime
/// `p` has `v^((p−1)/2) ≡ 1`.
pub proof fn lemma_euler_of_residue(v: int, p: int)
    requires
        is_prime(p),
        p > 2,
        p % 2 == 1,
        is_residue(v, p),
        v % p != 0,
    ensures
        euler(v, p) == 1,
{
    let x = choose|x: int| is_root(x, v, p);
    let h = ((p - 1) / 2) as nat;
    assert(h + h == p - 1);
    // v^h ≡ (x²)^h = x^(p−1)
    lemma_pow_mod_noop(v, h, p);
    lemma_pow_mod_noop(x * x, h, p);
    lemma_square_is_pow2(x);
    lemma_pow_multiplies(x, 2, h);
    assert(euler(v, p) == pow(x, (p - 1) as nat) % p);
    // x·x^(p−1) = x^p ≡ x, and p does not divide x
    if x % p == 0 {
        vstd::arithmetic::div_mod::lemma_mul_mod_noop(x, x, p);
        vstd::arithmetic::div_mod::lemma_small_mod(0, p as nat);
        assert((x % p) * (x % p) == 0) by (nonlinear_arith)
            requires x % p == 0;
    }
    crate::fermat::lemma_fermat(x, p);
    let e = pow(x, (p - 1) as nat);
    lemma_pow_adds(x, (p - 1) as nat, 1);
    lemma_pow1(x);
    assert(pow(x, p as nat) == e * x);
    assert(x * (e - 1) == e * x - x) by (nonlinear_arith);
    vstd::arithmetic::div_mod::lemma_sub_mod_noop(e * x, x, p);
    vstd::arithmetic::div_mod::lemma_small_mod(0, p as nat);
    assert((x * (e - 1)) % p == 0);
    crate::euclid::lemma_prime_divides_product(p, x, e - 1);
    vstd::arithmetic::div_mod::lemma_sub_mod_noop(e, 1, p);
    vstd::arithmetic::div_mod::lemma_small_mod(1, p as nat);
    vstd::arithmetic::div_mod::lemma_mod_bound(e, p);
    let y = e % p - 1;
    assert((e - 1) % p == 0);
    assert(y % p == 0);
    if y >= 0 {
        vstd::arithmetic::div_mod::lemma_small_mod(y as nat, p as nat);
    } else {
        vstd::arithmetic::div_mod::lemma_mod_multiples_vanish(-1, p - 1, p);
        vstd::arithmetic::div_mod::lemma_small_mod((p - 1) as nat, p as nat);
        assert(y == -1);
        assert(p * -1 + (p - 1) == -1);
    }
}

/// Some `w` in `[2, p)` has `w^((p−1)/2) ≡ −1 (mod p)`.
pub open spec fn has_non_residue_witness(p: int) -> bool {
    exists|w: int| 2 <= w < p && #[trigger] euler(w, p) == p - 1
}

proof fn lemma_pow_minus_one(n: nat)
    ensures
        pow(-1, n) == if n % 2 == 0 { 1int } else { -1int },
    decreases n,
{
    if n == 0 {
        vstd::arithmetic::power::lemma_pow0(-1);
    } else {
        lemma_pow_minus_one((n - 1) as nat);
        lemma_pow_adds(-1, (n - 1) as nat, 1);
        lemma_pow1(-1);
    }
}

/// For a prime `p ≡ 3 (mod 4)`, `p − 1` is a non-residue witness:
/// `(−1)^((p−1)/2) = −1` as `(p−1)/2` is odd.
pub proof fn lemma_witness_three_mod_four(p: int)
    requires
        is_prime(p),
        p % 4 == 3,
    ensures
        has_non_residue_witness(p),
{
    let h = ((p - 1) / 2) as nat;
    lemma_pow_minus_one(h);
    lemma_pow_mod_noop(-1, h, p);
    vstd::arithmetic::div_mod::lemma_mod_multiples_vanish(-1, p - 1, p);
    vstd::arithmetic::div_mod::lemma_small_mod((p - 1) as nat, p as nat);
    assert(p * -1 + (p - 1) == -1);
    assert((-1int) % p == p - 1);
    assert(euler(p - 1, p) == p - 1);
}

/// `x^(2^k) mod p`.
pub open spec fn pow_two_pow(x: int, k: nat, p: int) -> int {
    pow(x, pow(2, k) as nat) % p
}

/// Raising `x^(2^a) mod p` to the power `2^b` gives `x^(2^(a+b)) mod p`.
proof fn lemma_pow_two_pow_compose(x: int, a: nat, b: nat, p: int)
    requires
        p > 0,
    ensures
        pow(pow_two_pow(x, a, p), pow(2, b) as nat) % p == pow_two_pow(x, a + b, p),
{
    vstd::arithmetic::power::lemma_pow_positive(2, a);
    vstd::arithmetic::power::lemma_pow_positive(2, b);
    lemma_pow_mod_noop(pow(x, pow(2, a) as nat), pow(2, b) as nat, p);
    lemma_pow_multiplies(x, pow(2, a) as nat, pow(2, b) as nat);
    lemma_pow_adds(2, a, b);
}

/// `((t·c) mod p)^e ≡ t^e · c^e`.
proof fn lemma_mul_pow_mod(t: int, c: int, e: nat, p: int)
    requires
        p > 0,
    ensures
        pow((t * c) % p, e) % p == ((pow(t, e) % p) * (pow(c, e) % p)) % p,
{
    lemma_pow_mod_noop(t * c, e, p);
    vstd::arithmetic::power::lemma_pow_distributes(t, c, e);
    vstd::arithmetic::div_mod::lemma_mul_mod_noop(pow(t, e), pow(c, e), p);
}

/// For `0 <= x < p`, `x^(2^0) mod p` is `x`.
proof fn lemma_pow_two_pow_zero(x: int, p: int)
    requires
        0 <= x < p,
    ensures
        pow_two_pow(x, 0, p) == x,
{
    vstd::arithmetic::power::lemma_pow0(2);
    lemma_pow1(x);
    vstd::arithmetic::div_mod::lemma_small_mod(x as nat, p as nat);
}

/// Returns `c^(2^k) mod p`, by `k` squarings.
fn square_times(c: &BigInt, k: u64, p: &BigInt) -> (r: BigInt)
    requires
        value(*p) > 0,
    ensures
        value(r) == pow(value(*c), pow(2, k as nat) as nat) % value(*p),
{
    let two = bigint::from_u64(2);
    let mut x = bigint::mod_floor(c, p);
    let mut j: u64 = 0;
    proof {
        vstd::arithmetic::power::lemma_pow0(2);
        lemma_pow1(value(*c));
    }
    while j < k
        invariant
            value(*p) > 0,
            value(two) == 2,
            j <= k,
            value(x) == pow(value(*c), pow(2, j as nat) as nat) % value(*p),
        decreases k - j,
    {
        proof {
            let pj = pow(value(*c), pow(2, j as nat) as nat);
            lemma_square_mod(pj, value(*p));
            lemma_square_is_pow2(pj);
            lemma_square_is_pow2(value(x));
            lemma_pow_double(value(*c), j as nat);
        }
        x = bigint::mod_pow(&x, &two, p);
        j = j + 1;
    }
    x
}

/// Writes `n > 0` as `q·2^s` with `q` odd.
fn split_two_power(n: &BigInt) -> (r: (BigInt, u64))
    requires
        value(*n) > 0,
    ensures
        value(r.0) * pow(2, r.1 as nat) == value(*n),
        value(r.0) % 2 == 1,
{
    let two = bigint::from_u64(2);
    let nb = bigint::bits(n);
    let mut q = bigint::copy(n);
    let mut s: u64 = 0;
    proof {
        vstd::arithmetic::power::lemma_pow0(2);
    }
    while bigint::is_even(&q)
        invariant
            value(two) == 2,
            value(q) > 0,
            value(q) * pow(2, s as nat) == value(*n),
            value(*n) < pow(2, nb as nat),
        decreases value(q),
    {
        proof {
            let pw = pow(2, s as nat);
            vstd::arithmetic::power::lemma_pow_positive(2, s as nat);
            assert(pow(2, (s + 1) as nat) == 2 * pw) by {
                lemma_pow_adds(2, s as nat, 1);
                lemma_pow1(2);
            }
            assert(2 * pw <= value(q) * pw) by (nonlinear_arith)
                requires value(q) >= 2, pw > 0;
            vstd::arithmetic::power::lemma_pow_strictly_increases_converse(
                2,
                (s + 1) as nat,
                nb as nat,
            );
        }
        let h = bigint::div(&q, &two);
        proof {
            let pw = pow(2, s as nat);
            assert(value(h) * pow(2, (s + 1) as nat) == value(*n)) by (nonlinear_arith)
                requires
                    value(q) == 2 * value(h),
                    pow(2, (s + 1) as nat) == 2 * pw,
                    value(q) * pw == value(*n);
        }
        q = h;
        s = s + 1;
    }
    (q, s)
}

/// Returns the least `z` in `[2, p)` with `z^((p−1)/2) ≡ −1 (mod p)`, a
/// quadratic non-residue, or `None` when there is none.
fn find_non_residue(p: &BigInt) -> (r: Option<BigInt>)
    requires
        value(*p) > 2,
    ensures
        r matches Some(z) ==> 2 <= value(z) < value(*p) && euler(value(z), value(*p)) == value(
            *p,
        ) - 1,
        r matches Some(z) ==> forall|w: int|
            2 <= w < value(z) ==> #[trigger] euler(w, value(*p)) != value(*p) - 1,
        r is None ==> forall|w: int|
            2 <= w < value(*p) ==> #[trigger] euler(w, value(*p)) != value(*p) - 1,
{
    let one = bigint::from_u64(1);
    let two = bigint::from_u64(2);
    let p_minus_1 = bigint::sub(p, &one);
    let half = bigint::div(&p_minus_1, &two);
    let mut z = bigint::from_u64(2);
    while bigint::less(&z, p)
        invariant
            value(one) == 1,
            value(p_minus_1) == value(*p) - 1,
            value(half) == (value(*p) - 1) / 2,
            2 <= value(z) <= value(*p),
            forall|w: int| 2 <= w < value(z) ==> #[trigger] euler(w, value(*p)) != value(*p) - 1,
        decreases value(*p) - value(z),
    {
        if bigint::equal(&bigint::mod_pow(&z, &half, p), &p_minus_1) {
            return Some(z);
        }
        z = bigint::add(&z, &one);
    }
    None
}

/// Returns a square root of `v` modulo `p`, where `p` is an odd prime or 2:
/// zero when `v ≡ 0`, `v` itself when `p` is 2, and otherwise the root that
/// the Tonelli–Shanks algorithm reaches, or `NotAResidue` when Euler's
/// criterion shows that `v` has none.
pub fn mod_sqrt(v: &BigInt, p: &BigInt) -> (r: Result<BigInt, ModError>)
    requires
        value(*p) >= 2,
        value(*p) == 2 || value(*p) % 2 == 1,
    ensures
        value(*v) % value(*p) == 0 ==> (r matches Ok(x) && value(x) == 0),
        value(*p) == 2 && value(*v) % 2 != 0 ==> (r matches Ok(x) && value(x) == value(*v)),
        r matches Ok(x) ==> is_root(value(x), value(*v), value(*p)),
        value(*p) > 2 ==> (r matches Ok(x) ==> 0 <= value(x) < value(*p)),
        value(*p) > 2 && value(*v) % value(*p) != 0 ==> ((r matches Err(e) && e
            == ModError::NotAResidue) <==> euler(value(*v), value(*p)) != 1),
        r matches Err(e) ==> e == ModError::NotAResidue || e == ModError::DefensiveLoopExhaustion,
        r matches Err(e) && e == ModError::DefensiveLoopExhaustion ==> value(*p) > 2 && value(*v)
            % value(*p) != 0 && euler(value(*v), value(*p)) == 1 && (!is_prime(value(*p))
            || forall|w: int|
            2 <= w < value(*p) ==> #[trigger] euler(w, value(*p)) != value(*p) - 1),
        is_prime(value(*p)) && value(*p) > 2 && has_non_residue_witness(value(*p)) && is_residue(
            value(*v),
            value(*p),
        ) ==> r is Ok,
        is_prime(value(*p)) && value(*p) > 2 && has_non_residue_witness(value(*p)) && !is_residue(
            value(*v),
            value(*p),
        ) ==> (r matches Err(e) && e == ModError::NotAResidue),
        is_prime(value(*p)) && value(*p) % 4 == 3 ==> (r is Ok <==> is_residue(
            value(*v),
            value(*p),
        )),
        is_prime(value(*p)) && value(*p) % 4 == 3 && !is_residue(value(*v), value(*p)) ==> (r matches Err(e)
            && e == ModError::NotAResidue),
{
    let ghost vv = value(*v);
    let ghost pv = value(*p);
    proof {
        if is_prime(pv) && pv % 4 == 3 {
            lemma_witness_three_mod_four(pv);
        }
        if is_prime(pv) && pv > 2 && is_residue(vv, pv) && vv % pv != 0 {
            lemma_euler_of_residue(vv, pv);
        }
    }
    let one = bigint::from_u64(1);
    let two = bigint::from_u64(2);
    if bigint::is_zero(&bigint::mod_floor(v, p)) {
        let zero = bigint::from_u64(0);
        proof {
            vstd::arithmetic::div_mod::lemma_small_mod(0, pv as nat);
            assert(value(zero) * value(zero) == 0);
            assert(is_root(value(zero), vv, pv));
        }
        return Ok(zero);
    }
    if bigint::equal(p, &two) {
        proof {
            vstd::arithmetic::div_mod::lemma_mul_mod_noop(vv, vv, 2);
        }
        return Ok(bigint::copy(v));
    }
    let p_minus_1 = bigint::sub(p, &one);
    let half = bigint::div(&p_minus_1, &two);
    if !bigint::equal(&bigint::mod_pow(v, &half, p), &one) {
        return Err(ModError::NotAResidue);
    }
    let (q, s) = split_two_power(&p_minus_1);
    let z = match find_non_residue(p) {
        Some(z) => z,
        None => return Err(ModError::DefensiveLoopExhaustion),
    };
    proof {
        let qv = value(q);
        assert(s >= 1) by {
            if s == 0 {
                vstd::arithmetic::power::lemma_pow0(2);
            }
        }
        assert(qv > 0) by {
            vstd::arithmetic::power::lemma_pow_positive(2, s as nat);
            assert(qv * pow(2, s as nat) > 0);
            if qv <= 0 {
                assert(qv * pow(2, s as nat) <= 0) by (nonlinear_arith)
                    requires qv <= 0, pow(2, s as nat) > 0;
            }
        }
    }
    let mut m: u64 = s;
    let mut c = bigint::mod_pow(&z, &q, p);
    let mut t = bigint::mod_pow(v, &q, p);
    let q_plus_1_half = bigint::div(&bigint::add(&q, &one), &two);
    let mut r = bigint::mod_pow(v, &q_plus_1_half, p);
    proof {
        let (qv, h) = (value(q), value(q_plus_1_half));
        let big_r = pow(vv, h as nat);
        assert(h + h == qv + 1);
        lemma_square_mod(big_r, pv);
        lemma_square_is_pow2(value(r));
        lemma_pow_adds(vv, h as nat, h as nat);
        lemma_pow_adds(vv, qv as nat, 1);
        lemma_pow1(vv);
        assert(h as nat + h as nat == qv as nat + 1);
        assert(pow(vv, (h as nat + h as nat) as nat) == pow(vv, (qv as nat + 1) as nat));
        assert(pow(vv, qv as nat) * pow(vv, 1) == vv * pow(vv, qv as nat)) by (nonlinear_arith)
            requires pow(vv, 1) == vv;
        assert(big_r * big_r == vv * pow(vv, qv as nat));
        lemma_mul_mod_noop_right(vv, pow(vv, qv as nat), pv);
    }
    proof {
        let (qv, sv) = (value(q), s as nat);
        let e = pow(2, (sv - 1) as nat);
        vstd::arithmetic::power::lemma_pow_positive(2, (sv - 1) as nat);
        assert(pow(2, sv) == e * 2) by {
            lemma_pow_adds(2, (sv - 1) as nat, 1);
            lemma_pow1(2);
        }
        assert(qv * e == (pv - 1) / 2) by (nonlinear_arith)
            requires qv * pow(2, sv) == pv - 1, pow(2, sv) == e * 2;
        lemma_pow_mod_noop(pow(value(z), qv as nat), e as nat, pv);
        lemma_pow_multiplies(value(z), qv as nat, e as nat);
        lemma_pow_mod_noop(pow(vv, qv as nat), e as nat, pv);
        lemma_pow_multiplies(vv, qv as nat, e as nat);
        assert(pow_two_pow(value(t), (m - 1) as nat, pv) == 1);
        assert(pow_two_pow(value(c), (m - 1) as nat, pv) == pv - 1);
    }
    while !bigint::equal(&t, &one)
        invariant
            value(*p) == pv,
            value(*v) == vv,
            pv > 2,
            value(one) == 1,
            value(two) == 2,
            0 <= value(t) < pv,
            0 <= value(c) < pv,
            is_prime(pv) ==> pow_two_pow(value(t), (m - 1) as nat, pv) == 1,
            is_prime(pv) ==> pow_two_pow(value(c), (m - 1) as nat, pv) == pv - 1,
            0 <= value(r) < pv,
            m >= 1,
            vv % pv != 0,
            euler(vv, pv) == 1,
            (value(r) * value(r)) % pv == (vv * value(t)) % pv,
        decreases m,
    {
        let mut i: u64 = 0;
        let mut t2i = bigint::copy(&t);
        proof {
            lemma_pow_two_pow_zero(value(t), pv);
        }
        while !bigint::equal(&t2i, &one)
            invariant
                value(*p) == pv,
                value(*v) == vv,
                pv > 2,
                value(one) == 1,
                value(two) == 2,
                i < m,
                0 <= value(t) < pv,
                i == 0 ==> value(t2i) == value(t),
                value(t2i) == pow_two_pow(value(t), i as nat, pv),
                forall|j: nat| j < i ==> #[trigger] pow_two_pow(value(t), j, pv) != 1,
                is_prime(pv) ==> pow_two_pow(value(t), (m - 1) as nat, pv) == 1,
                vv % pv != 0,
                euler(vv, pv) == 1,
            decreases m - i,
        {
            proof {
                assert(pow_two_pow(value(t), i as nat, pv) != 1);
                lemma_pow_two_pow_compose(value(t), i as nat, 1, pv);
                vstd::arithmetic::power::lemma_pow1(2);
            }
            t2i = bigint::mod_pow(&t2i, &two, p);
            i = i + 1;
            if i == m {
                assert(pow_two_pow(value(t), (m - 1) as nat, pv) != 1);
                assert(!is_prime(pv));
                return Err(ModError::DefensiveLoopExhaustion);
            }
        }
        let b = square_times(&c, m - i - 1, p);
        proof {
            lemma_square_is_pow2(value(b));
            lemma_root_step(vv, value(t), value(r), value(b), pv);
        }
        let ghost (t_old, c_old, m_old) = (value(t), value(c), m);
        m = i;
        c = bigint::mod_pow(&b, &two, p);
        t = bigint::rem(&bigint::mul(&t, &c), p);
        r = bigint::rem(&bigint::mul(&r, &b), p);
        proof {
            if is_prime(pv) {
                let e = pow(2, (i - 1) as nat);
                vstd::arithmetic::power::lemma_pow_positive(2, (i - 1) as nat);
                lemma_pow1(2);
                lemma_pow_two_pow_compose(c_old, (m_old - i - 1) as nat, 1, pv);
                assert(value(c) == pow_two_pow(c_old, (m_old - i) as nat, pv));
                lemma_pow_two_pow_compose(c_old, (m_old - i) as nat, (i - 1) as nat, pv);
                assert(pow_two_pow(value(c), (i - 1) as nat, pv) == pv - 1);
                let tt = pow_two_pow(t_old, (i - 1) as nat, pv);
                lemma_pow_two_pow_compose(t_old, (i - 1) as nat, 1, pv);
                lemma_square_is_pow2(tt);
                assert(tt != 1);
                lemma_square_roots_of_one(pv, tt);
                lemma_mul_pow_mod(t_old, value(c), e as nat, pv);
                assert(pow_two_pow(value(t), (i - 1) as nat, pv) == (tt * (pv - 1)) % pv);
                assert((pv - 1) * (pv - 1) == pv * (pv - 2) + 1) by (nonlinear_arith);
                vstd::arithmetic::div_mod::lemma_mod_multiples_vanish(pv - 2, 1, pv);
                vstd::arithmetic::div_mod::lemma_small_mod(1, pv as nat);
            }
        }
    }
    proof {
        assert(vv * value(one) == vv);
        assert(is_root(value(r), vv, pv));
    }
    Ok(r)
}

} // verus!
