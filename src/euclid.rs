//! The extended Euclidean algorithm and modular inverses.
use crate::bigint::{abs, floor_div, floor_mod, value};
use crate::bigint;
use crate::error::ModError;
use num_bigint::BigInt;
use vstd::prelude::*;

verus! {

/// Greatest common divisor of two naturals, by Euclid's recurrence.
pub open spec fn gcd(a: nat, b: nat) -> nat
    decreases b,
{
    if b == 0 {
        a
    } else {
        gcd(b, a % b)
    }
}

/// `d` divides `n`.
pub open spec fn divides(d: int, n: int) -> bool {
    exists|k: int| #[trigger] (d * k) == n
}

/// The extended Euclidean recurrence on floored division: the base case
/// `(a, 1, 0)` when `b` is zero, and otherwise the back-substituted result of
/// the recurrence on `(b, a mod b)`, with the quotient `⌊a/b⌋`.
pub open spec fn euclid(a: int, b: int) -> (int, int, int)
    decreases abs(b),
{
    if b == 0 {
        (a, 1, 0)
    } else {
        let (g, x1, y1) = euclid(b, floor_mod(a, b));
        (g, y1, x1 - floor_div(a, b) * y1)
    }
}

proof fn lemma_floor_div_mod(a: int, b: int)
    requires
        b != 0,
    ensures
        a == floor_div(a, b) * b + floor_mod(a, b),
        abs(floor_mod(a, b)) < abs(b),
        b > 0 ==> floor_mod(a, b) >= 0,
{
    if b > 0 {
        vstd::arithmetic::div_mod::lemma_fundamental_div_mod(a, b);
        let q = a / b;
        assert(b * q == q * b) by (nonlinear_arith);
    } else {
        vstd::arithmetic::div_mod::lemma_fundamental_div_mod(-a, -b);
        let q = (-a) / (-b);
        let r = (-a) % (-b);
        assert(a == q * b - r) by (nonlinear_arith)
            requires -a == (-b) * q + r;
    }
}

proof fn lemma_divides_combination(c: int, a: int, b: int, x: int, y: int)
    requires
        divides(c, a),
        divides(c, b),
    ensures
        divides(c, a * x + b * y),
{
    let ka = choose|k: int| #[trigger] (c * k) == a;
    let kb = choose|k: int| #[trigger] (c * k) == b;
    assert(c * (ka * x + kb * y) == a * x + b * y) by (nonlinear_arith)
        requires c * ka == a, c * kb == b;
}

proof fn lemma_divides_abs(c: int, a: int)
    requires
        divides(c, a),
    ensures
        divides(c, abs(a)),
{
    let k = choose|k: int| #[trigger] (c * k) == a;
    assert(c * (-k) == -a) by (nonlinear_arith)
        requires c * k == a;
}

proof fn lemma_divides_from_abs(c: int, a: int)
    requires
        divides(c, abs(a)),
    ensures
        divides(c, a),
{
    let k = choose|k: int| #[trigger] (c * k) == abs(a);
    assert(c * (-k) == -abs(a)) by (nonlinear_arith)
        requires c * k == abs(a);
}

/// On naturals the recurrence computes `gcd`.
proof fn lemma_euclid_nat(a: int, b: int)
    requires
        a >= 0,
        b >= 0,
    ensures
        euclid(a, b).0 == gcd(a as nat, b as nat),
    decreases b,
{
    if b > 0 {
        lemma_floor_div_mod(a, b);
        lemma_euclid_nat(b, floor_mod(a, b));
    }
}

/// Bézout identity and common divisibility of the recurrence's result.
proof fn lemma_euclid_bezout(a: int, b: int)
    ensures
        a * euclid(a, b).1 + b * euclid(a, b).2 == euclid(a, b).0,
        divides(euclid(a, b).0, a),
        divides(euclid(a, b).0, b),
    decreases abs(b),
{
    if b == 0 {
        assert(a * 1 == a);
        assert(a * 0 == 0);
    } else {
        let r = floor_mod(a, b);
        let q = floor_div(a, b);
        lemma_floor_div_mod(a, b);
        lemma_euclid_bezout(b, r);
        let (g, x1, y1) = euclid(b, r);
        assert(a * y1 + b * (x1 - q * y1) == g) by (nonlinear_arith)
            requires b * x1 + r * y1 == g, a == q * b + r;
        let k1 = choose|k: int| #[trigger] (g * k) == b;
        let k2 = choose|k: int| #[trigger] (g * k) == r;
        assert(g * (q * k1 + k2) == a) by (nonlinear_arith)
            requires g * k1 == b, g * k2 == r, a == q * b + r;
    }
}

/// What the recurrence returns: Bézout coefficients of a common divisor whose
/// magnitude is the greatest common divisor.
pub proof fn lemma_euclid(a: int, b: int)
    ensures
        a * euclid(a, b).1 + b * euclid(a, b).2 == euclid(a, b).0,
        abs(euclid(a, b).0) == gcd(abs(a) as nat, abs(b) as nat),
        divides(euclid(a, b).0, a),
        divides(euclid(a, b).0, b),
{
    lemma_euclid_bezout(a, b);
    lemma_euclid_bezout(abs(a), abs(b));
    lemma_euclid_nat(abs(a), abs(b));
    let (g, x, y) = euclid(a, b);
    let (h, xh, yh) = euclid(abs(a), abs(b));
    // g divides h, a combination of |a| and |b|
    lemma_divides_abs(g, a);
    lemma_divides_abs(g, b);
    lemma_divides_combination(g, abs(a), abs(b), xh, yh);
    // h divides g, a combination of a and b
    lemma_divides_from_abs(h, a);
    lemma_divides_from_abs(h, b);
    lemma_divides_combination(h, a, b, x, y);
    let k1 = choose|k: int| #[trigger] (g * k) == h;
    let k2 = choose|k: int| #[trigger] (h * k) == g;
    if h == 0 {
        assert(g == 0) by (nonlinear_arith)
            requires h * k2 == g, h == 0;
    } else {
        assert(h * (k2 * k1) == h) by (nonlinear_arith)
            requires g * k1 == h, h * k2 == g;
        assert(k2 * k1 == 1) by (nonlinear_arith)
            requires h * (k2 * k1) == h, h != 0;
        assert(k1 == 1 || k1 == -1) by (nonlinear_arith)
            requires k2 * k1 == 1;
        assert(abs(g) == h) by (nonlinear_arith)
            requires g * k1 == h, k1 == 1 || k1 == -1, h >= 0, abs(g) == (if g < 0 { -g } else { g });
    }
}

/// Runs the extended Euclidean algorithm on `a` and `b` iteratively and
/// returns `(g, x, y)` with `a·x + b·y = g`, where `|g|` is the greatest
/// common divisor of `|a|` and `|b|`; the sign of `g` is that of the last
/// non-zero remainder.
pub fn extended_gcd(a: &BigInt, b: &BigInt) -> (r: (BigInt, BigInt, BigInt))
    ensures
        (value(r.0), value(r.1), value(r.2)) == euclid(value(*a), value(*b)),
        value(*a) * value(r.1) + value(*b) * value(r.2) == value(r.0),
        abs(value(r.0)) == gcd(abs(value(*a)) as nat, abs(value(*b)) as nat),
        divides(value(r.0), value(*a)),
        divides(value(r.0), value(*b)),
{
    let ghost e = euclid(value(*a), value(*b));
    let mut r0 = bigint::copy(a);
    let mut r1 = bigint::copy(b);
    let mut s0 = bigint::from_u64(1);
    let mut s1 = bigint::from_u64(0);
    let mut t0 = bigint::from_u64(0);
    let mut t1 = bigint::from_u64(1);
    while !bigint::is_zero(&r1)
        invariant
            e == ({
                let (g, x, y) = euclid(value(r0), value(r1));
                (
                    g,
                    x * value(s0) + y * value(s1),
                    x * value(t0) + y * value(t1),
                )
            }),
        decreases abs(value(r1)),
    {
        let q = bigint::div_floor(&r0, &r1);
        let rr = bigint::mod_floor(&r0, &r1);
        let ns = bigint::sub(&s0, &bigint::mul(&q, &s1));
        let nt = bigint::sub(&t0, &bigint::mul(&q, &t1));
        proof {
            lemma_floor_div_mod(value(r0), value(r1));
            let (g, x1, y1) = euclid(value(r1), value(rr));
            let (qq, a0, a1, b0, b1) = (value(q), value(s0), value(s1), value(t0), value(t1));
            assert(y1 * a0 + (x1 - qq * y1) * a1 == x1 * a1 + y1 * (a0 - qq * a1))
                by (nonlinear_arith);
            assert(y1 * b0 + (x1 - qq * y1) * b1 == x1 * b1 + y1 * (b0 - qq * b1))
                by (nonlinear_arith);
        }
        r0 = r1;
        r1 = rr;
        s0 = s1;
        s1 = ns;
        t0 = t1;
        t1 = nt;
    }
    proof {
        lemma_euclid(value(*a), value(*b));
        assert(value(s0) * 1 + 0 * value(s1) == value(s0));
        assert(value(t0) * 1 + 0 * value(t1) == value(t0));
    }
    (r0, s0, t0)
}

/// Returns the unique `x` in `[0, m)` with `v·x ≡ 1 (mod m)`, or
/// `NoInverseExists` when `v` and `m` are not coprime.
pub fn mod_inverse(v: &BigInt, m: &BigInt) -> (r: Result<BigInt, ModError>)
    requires
        value(*m) > 0,
    ensures
        r is Ok <==> gcd(abs(value(*v)) as nat, value(*m) as nat) == 1,
        r matches Err(e) ==> e == ModError::NoInverseExists,
        r matches Ok(x) ==> 0 <= value(x) < value(*m) && (value(*v) * value(x)) % value(*m)
            == 1int % value(*m),
{
    let (g, x, y) = extended_gcd(v, m);
    let one = bigint::from_u64(1);
    if !bigint::equal(&bigint::mul(&g, &g), &one) {
        proof {
            let gv = value(g);
            if abs(gv) == 1 {
                assert(gv * gv == 1) by (nonlinear_arith) requires abs(gv) == 1;
            }
        }
        return Err(ModError::NoInverseExists);
    }
    let gx = bigint::mul(&g, &x);
    let inv = bigint::mod_floor(&gx, m);
    proof {
        let (gv, xv, yv, vv, mv) = (value(g), value(x), value(y), value(*v), value(*m));
        assert(gv == 1 || gv == -1) by (nonlinear_arith) requires gv * gv == 1;
        assert(vv * (gv * xv) == 1 + (-(gv * yv)) * mv) by (nonlinear_arith)
            requires vv * xv + mv * yv == gv, gv * gv == 1;
        vstd::arithmetic::div_mod::lemma_mul_mod_noop_right(vv, gv * xv, mv);
        vstd::arithmetic::div_mod::lemma_mod_multiples_vanish(-(gv * yv), 1, mv);
        assert(abs(mv) == mv);
    }
    Ok(inv)
}

/// `p` is prime.
pub open spec fn is_prime(p: int) -> bool {
    p > 1 && forall|d: int| 1 < d < p ==> #[trigger] (p % d) != 0
}

/// A value that a prime does not divide is coprime to it.
pub proof fn lemma_prime_coprime(p: int, a: int)
    requires
        is_prime(p),
        a % p != 0,
    ensures
        abs(euclid(a, p).0) == 1,
        gcd(abs(a) as nat, p as nat) == 1,
{
    lemma_euclid(a, p);
    let (g, x, y) = euclid(a, p);
    let kp = choose|k: int| #[trigger] (g * k) == p;
    let ka = choose|k: int| #[trigger] (g * k) == a;
    let ag = abs(g);
    assert(ag >= 1) by {
        if g == 0 {
            assert(g * kp == 0) by (nonlinear_arith)
                requires g == 0;
        }
    }
    let akp = abs(kp);
    assert(ag * akp == p) by (nonlinear_arith)
        requires g * kp == p, ag == abs(g), akp == abs(kp), p > 0;
    assert(akp >= 1) by (nonlinear_arith)
        requires ag * akp == p, p > 0, ag >= 1, akp >= 0;
    assert(ag <= p) by (nonlinear_arith)
        requires ag * akp == p, ag >= 1, akp >= 1;
    if ag == p {
        // g = ±p would divide a
        assert(a == p * (if g < 0 { -ka } else { ka })) by (nonlinear_arith)
            requires g * ka == a, ag == abs(g), ag == p;
        vstd::arithmetic::div_mod::lemma_mod_multiples_basic(
            if g < 0 { -ka } else { ka },
            p,
        );
    } else if ag > 1 {
        assert(p == akp * ag) by (nonlinear_arith)
            requires ag * akp == p;
        vstd::arithmetic::div_mod::lemma_mod_multiples_basic(akp, ag);
        assert(p % ag == 0);
    }
}

/// Euclid's lemma: a prime that divides a product divides one of its factors.
pub proof fn lemma_prime_divides_product(p: int, a: int, b: int)
    requires
        is_prime(p),
        (a * b) % p == 0,
    ensures
        a % p == 0 || b % p == 0,
{
    if a % p != 0 {
        lemma_prime_coprime(p, a);
        lemma_euclid(a, p);
        let (g, x, y) = euclid(a, p);
        let ag = abs(g);
        // a·x + p·y = ±1, so b·(a·x) + p·(b·y) = ±b
        let kb = (a * b) / p;
        vstd::arithmetic::div_mod::lemma_fundamental_div_mod(a * b, p);
        assert(a * b == p * kb);
        assert(b * g == p * (kb * x + b * y)) by (nonlinear_arith)
            requires a * x + p * y == g, a * b == p * kb;
        let sg: int = if g < 0 { -1 } else { 1 };
        assert(b == p * (sg * (kb * x + b * y))) by (nonlinear_arith)
            requires
                b * g == p * (kb * x + b * y),
                ag == 1,
                ag == abs(g),
                sg == (if g < 0 { -1int } else { 1int }),
        ;
        vstd::arithmetic::div_mod::lemma_mod_multiples_basic(sg * (kb * x + b * y), p);
    }
}

/// Modulo a prime, the only square roots of one are `1` and `p − 1`.
pub proof fn lemma_square_roots_of_one(p: int, t: int)
    requires
        is_prime(p),
        0 <= t < p,
        (t * t) % p == 1,
    ensures
        t == 1 || t == p - 1,
{
    assert((t - 1) * (t + 1) == t * t - 1) by (nonlinear_arith);
    vstd::arithmetic::div_mod::lemma_sub_mod_noop(t * t, 1, p);
    vstd::arithmetic::div_mod::lemma_small_mod(1, p as nat);
    vstd::arithmetic::div_mod::lemma_small_mod(0, p as nat);
    lemma_prime_divides_product(p, t - 1, t + 1);
    if t == 0 {
        assert(t * t == 0);
    }
    if (t - 1) % p == 0 {
        vstd::arithmetic::div_mod::lemma_small_mod((t - 1) as nat, p as nat);
    } else if t + 1 < p {
        vstd::arithmetic::div_mod::lemma_small_mod((t + 1) as nat, p as nat);
    }
}

} // verus!
