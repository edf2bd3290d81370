//! Bringing a short Weierstrass curve `y² = x³ + ax + b` over a prime field to
//! Montgomery form `By² = x³ + Ax² + x`, with the point `(x, y)` mapped along.
use crate::bigint::value;
use crate::bigint;
use crate::error::{ModError, TransformError};
use crate::euclid::{gcd, is_prime, lemma_prime_coprime, mod_inverse};
use crate::sqrt::{euler, has_non_residue_witness, is_residue, is_root, mod_sqrt};
use num_bigint::BigInt;
use vstd::arithmetic::div_mod::{lemma_add_mod_noop, lemma_mul_mod_noop};
use vstd::prelude::*;

verus! {

/// Montgomery coefficients `(A, B)` and the mapped point `(u, v)`.
pub struct MontgomeryCurve {
    pub a: BigInt,
    pub b: BigInt,
    pub u: BigInt,
    pub v: BigInt,
}

/// `a ≡ b (mod p)`.
pub open spec fn cong(a: int, b: int, p: int) -> bool {
    a % p == b % p
}

/// The curve's defining cubic `z³ + az + b`.
pub open spec fn cubic(z: int, a: int, b: int) -> int {
    z * z * z + a * z + b
}

/// `(x, y)` lies on `y² = x³ + ax + b` over `p`.
pub open spec fn on_weierstrass(x: int, y: int, a: int, b: int, p: int) -> bool {
    cong(y * y, cubic(x, a, b), p)
}

/// `(u, v)` lies on `B·v² = u³ + A·u² + u` over `p`.
pub open spec fn on_montgomery(ca: int, cb: int, u: int, v: int, p: int) -> bool {
    cong(cb * v * v, u * u * u + ca * u * u + u, p)
}

/// `3·z0² + a` reduced mod `p`: the square of the scale factor.
pub open spec fn scale_square(a: int, p: int, z0: int) -> int {
    (3 * z0 * z0 + a) % p
}

/// `out` is the image under the root `z0` whose scale factor has inverse
/// `w`: `A = 3·z0·w`, `B = w`, `u = w·(x − z0)`, `v = w·y`, all mod `p`.
pub open spec fn image_under(
    x: int,
    y: int,
    p: int,
    z0: int,
    w: int,
    out: (int, int, int, int),
) -> bool {
    out == ((3 * z0 * w) % p, w % p, (w * (x - z0)) % p, (w * y) % p)
}

/// `w` is the inverse mod `p` of some square root of `3·z0² + a`.
pub open spec fn inverse_scale(a: int, p: int, z0: int, w: int) -> bool {
    exists|s: int| is_root(s, scale_square(a, p, z0), p) && #[trigger] ((w * s) % p) == 1int % p
}

pub open spec fn view_curve(out: MontgomeryCurve) -> (int, int, int, int) {
    (value(out.a), value(out.b), value(out.u), value(out.v))
}

proof fn lemma_cong_mul(a: int, a2: int, b: int, b2: int, p: int)
    requires
        p > 0,
        cong(a, a2, p),
        cong(b, b2, p),
    ensures
        cong(a * b, a2 * b2, p),
{
    lemma_mul_mod_noop(a, b, p);
    lemma_mul_mod_noop(a2, b2, p);
}

proof fn lemma_cong_add(a: int, a2: int, b: int, b2: int, p: int)
    requires
        p > 0,
        cong(a, a2, p),
        cong(b, b2, p),
    ensures
        cong(a + b, a2 + b2, p),
{
    lemma_add_mod_noop(a, b, p);
    lemma_add_mod_noop(a2, b2, p);
}

proof fn lemma_cong_self(a: int, p: int)
    requires
        p > 0,
    ensures
        cong(a % p, a, p),
{
    vstd::arithmetic::div_mod::lemma_mod_twice(a, p);
}

/// A point of the Weierstrass curve, a root `z0` of its cubic and the inverse
/// `w` of a square root `s` of `3·z0² + a` give a point of the Montgomery
/// curve with `A = 3·z0·w`, `B = w`, `u = w·(x − z0)` and `v = w·y`.
pub proof fn lemma_image_on_montgomery(
    x: int,
    y: int,
    a: int,
    b: int,
    p: int,
    z0: int,
    s: int,
    w: int,
)
    requires
        p > 0,
        on_weierstrass(x, y, a, b, p),
        cong(cubic(z0, a, b), 0, p),
        cong(s * s, 3 * z0 * z0 + a, p),
        cong(w * s, 1, p),
    ensures
        on_montgomery((3 * z0 * w) % p, w % p, (w * (x - z0)) % p, (w * y) % p, p),
{
    let xx = x - z0;
    let s2 = 3 * z0 * z0 + a;
    let c0 = cubic(z0, a, b);
    let q = xx * xx * xx + 3 * z0 * xx * xx;
    assert(cubic(x, a, b) == q + s2 * xx + c0) by (nonlinear_arith)
        requires xx == x - z0, s2 == 3 * z0 * z0 + a, c0 == cubic(z0, a, b), q == xx * xx * xx + 3
            * z0 * xx * xx;
    // y² ≡ q + s²·X
    lemma_cong_mul(s2, s * s, xx, xx, p);
    lemma_cong_add(q, q, s2 * xx, s * s * xx, p);
    lemma_cong_add(q + s2 * xx, q + s * s * xx, c0, 0, p);
    assert(cong(y * y, q + s * s * xx, p));
    // B·v² ≡ w³·(q + s²·X)
    let cb = w % p;
    let cv = (w * y) % p;
    lemma_cong_self(w, p);
    lemma_cong_self(w * y, p);
    lemma_cong_mul(cb, w, cv, w * y, p);
    lemma_cong_mul(cb * cv, w * (w * y), cv, w * y, p);
    let w3 = w * w * w;
    assert(w * (w * y) * (w * y) == w3 * (y * y)) by (nonlinear_arith)
        requires w3 == w * w * w;
    lemma_cong_mul(w3, w3, y * y, q + s * s * xx, p);
    assert(cb * cv * cv == (cb * cv) * cv);
    assert(w3 * (q + s * s * xx) == w3 * q + (w * s) * (w * s) * (w * xx)) by (nonlinear_arith)
        requires w3 == w * w * w;
    // (w·s)²·(w·X) ≡ w·X
    lemma_cong_mul(w * s, 1, w * s, 1, p);
    lemma_cong_mul((w * s) * (w * s), 1, w * xx, w * xx, p);
    lemma_cong_add(w3 * q, w3 * q, (w * s) * (w * s) * (w * xx), w * xx, p);
    assert(cong(cb * cv * cv, w3 * q + w * xx, p));
    // u³ + A·u² + u ≡ w³·q + w·X
    let cu = (w * xx) % p;
    let ca = (3 * z0 * w) % p;
    lemma_cong_self(w * xx, p);
    lemma_cong_self(3 * z0 * w, p);
    lemma_cong_mul(cu, w * xx, cu, w * xx, p);
    lemma_cong_mul(cu * cu, (w * xx) * (w * xx), cu, w * xx, p);
    lemma_cong_mul(ca, 3 * z0 * w, cu, w * xx, p);
    lemma_cong_mul(ca * cu, (3 * z0 * w) * (w * xx), cu, w * xx, p);
    lemma_cong_add(
        cu * cu * cu,
        (w * xx) * (w * xx) * (w * xx),
        ca * cu * cu,
        (3 * z0 * w) * (w * xx) * (w * xx),
        p,
    );
    lemma_cong_add(
        cu * cu * cu + ca * cu * cu,
        (w * xx) * (w * xx) * (w * xx) + (3 * z0 * w) * (w * xx) * (w * xx),
        cu,
        w * xx,
        p,
    );
    assert((w * xx) * (w * xx) * (w * xx) + (3 * z0 * w) * (w * xx) * (w * xx) == w3 * q)
        by (nonlinear_arith)
        requires w3 == w * w * w, q == xx * xx * xx + 3 * z0 * xx * xx;
}

/// Derives the Montgomery form from a root `z0` of the curve's cubic: takes a
/// square root `s` of `3·z0² + a`, its inverse `w`, and returns `A = 3·z0·w`,
/// `B = w`, `u = w·(x − z0)` and `v = w·y`, all reduced mod `p`.
pub fn montgomery_from_root(x: &BigInt, y: &BigInt, a: &BigInt, p: &BigInt, z0: &BigInt) -> (r:
    Result<MontgomeryCurve, TransformError>)
    requires
        value(*p) >= 2,
        value(*p) == 2 || value(*p) % 2 == 1,
    ensures
        value(*p) > 2 && scale_square(value(*a), value(*p), value(*z0)) != 0 ==> ((r matches Err(
            e,
        ) && e == TransformError::TransformFailed(ModError::NotAResidue)) <==> euler(
            scale_square(value(*a), value(*p), value(*z0)),
            value(*p),
        ) != 1),
        scale_square(value(*a), value(*p), value(*z0)) == 0 ==> r == Err::<
            MontgomeryCurve,
            TransformError,
        >(TransformError::TransformFailed(ModError::NoInverseExists)),
        r matches Err(e) ==> e is TransformFailed,
        is_prime(value(*p)) && scale_square(value(*a), value(*p), value(*z0)) != 0 ==> (r matches Err(
            e,
        ) ==> e != TransformError::TransformFailed(ModError::NoInverseExists)),
        is_prime(value(*p)) && value(*p) > 2 && has_non_residue_witness(value(*p)) && scale_square(
            value(*a),
            value(*p),
            value(*z0),
        ) != 0 && euler(scale_square(value(*a), value(*p), value(*z0)), value(*p)) == 1 ==> r is Ok,
        is_prime(value(*p)) && value(*p) % 4 == 3 && scale_square(value(*a), value(*p), value(*z0))
            != 0 ==> (r is Ok <==> is_residue(scale_square(value(*a), value(*p), value(*z0)), value(*p))),
        r matches Err(e) && e == TransformError::TransformFailed(ModError::DefensiveLoopExhaustion)
            ==> !is_prime(value(*p)) || !has_non_residue_witness(value(*p)),
        r matches Ok(out) ==> inverse_scale(value(*a), value(*p), value(*z0), value(out.b))
            && image_under(value(*x), value(*y), value(*p), value(*z0), value(out.b), view_curve(out)),
{
    let ghost pv = value(*p);
    let three = bigint::from_u64(3);
    let s_squared = bigint::mod_floor(&bigint::add(&bigint::mul(&bigint::mul(&three, z0), z0), a), p);
    proof {
        vstd::arithmetic::div_mod::lemma_mod_twice(3 * value(*z0) * value(*z0) + value(*a), pv);
        assert(value(s_squared) == scale_square(value(*a), pv, value(*z0)));
        assert(3 * value(*z0) * value(*z0) == (3 * value(*z0)) * value(*z0));
    }
    let s = match mod_sqrt(&s_squared, p) {
        Ok(s) => s,
        Err(e) => return Err(TransformError::TransformFailed(e)),
    };
    proof {
        if value(s_squared) == 0 {
            assert(value(s) == 0);
            assert(gcd(0, pv as nat) == gcd(pv as nat, 0));
            assert(gcd(pv as nat, 0) == pv);
        }
        if is_prime(pv) && value(s_squared) != 0 {
            let sv = value(s);
            vstd::arithmetic::div_mod::lemma_mul_mod_noop(sv, sv, pv);
            vstd::arithmetic::div_mod::lemma_small_mod(value(s_squared) as nat, pv as nat);
            if sv % pv == 0 {
                vstd::arithmetic::div_mod::lemma_small_mod(0, pv as nat);
                let sm = sv % pv;
                assert(sm * sm == 0) by (nonlinear_arith)
                    requires sm == 0;
            }
            lemma_prime_coprime(pv, sv);
        }
    }
    let s_inv = match mod_inverse(&s, p) {
        Ok(w) => w,
        Err(e) => {
            return Err(TransformError::TransformFailed(e));
        },
    };
    let ca = bigint::mod_floor(&bigint::mul(&bigint::mul(&three, z0), &s_inv), p);
    let cb = bigint::mod_floor(&s_inv, p);
    let cu = bigint::mod_floor(&bigint::mul(&s_inv, &bigint::sub(x, z0)), p);
    let cv = bigint::mod_floor(&bigint::mul(&s_inv, y), p);
    let out = MontgomeryCurve { a: ca, b: cb, u: cu, v: cv };
    proof {
        let w = value(s_inv);
        assert(3 * value(*z0) * w == (3 * value(*z0)) * w);
        assert(inverse_scale(value(*a), pv, value(*z0), w)) by {
            assert((w * value(s)) % pv == 1int % pv) by {
                assert(w * value(s) == value(s) * w) by (nonlinear_arith);
            }
        }
        assert(image_under(value(*x), value(*y), pv, value(*z0), w, view_curve(out)));
        vstd::arithmetic::div_mod::lemma_small_mod(w as nat, pv as nat);
    }
    Ok(out)
}

/// Tests whether `z` is a root of `z³ + az + b` modulo `p`.
pub fn is_curve_root(z: &BigInt, a: &BigInt, b: &BigInt, p: &BigInt) -> (r: bool)
    requires
        value(*p) > 0,
    ensures
        r == cong(cubic(value(*z), value(*a), value(*b)), 0, value(*p)),
{
    let zzz = bigint::mul(&bigint::mul(z, z), z);
    let c = bigint::mod_floor(&bigint::add(&bigint::add(&zzz, &bigint::mul(a, z)), b), p);
    proof {
        vstd::arithmetic::div_mod::lemma_small_mod(0, value(*p) as nat);
    }
    bigint::is_zero(&c)
}

/// Draws up to `max_draws` candidates uniformly from `[0, p)` and returns the
/// first root of `z³ + az + b` mod `p` among them, or `None`.
pub fn find_curve_root(a: &BigInt, b: &BigInt, p: &BigInt, max_draws: u64) -> (r: Option<BigInt>)
    requires
        value(*p) > 0,
    ensures
        max_draws == 0 ==> r is None,
        r matches Some(z) ==> 0 <= value(z) < value(*p) && cong(
            cubic(value(z), value(*a), value(*b)),
            0,
            value(*p),
        ),
{
    let mut k: u64 = 0;
    while k < max_draws
        invariant
            value(*p) > 0,
        decreases max_draws - k,
    {
        let z = bigint::random_below(p);
        if is_curve_root(&z, a, b, p) {
            return Some(z);
        }
        k = k + 1;
    }
    None
}

/// Brings the curve `y² = x³ + ax + b` over `p` and its point `(x, y)` to
/// Montgomery form, through a root of the cubic drawn at random in at most
/// `max_draws` tries.
pub fn transform_to_montgomery(
    x: &BigInt,
    y: &BigInt,
    a: &BigInt,
    b: &BigInt,
    p: &BigInt,
    max_draws: u64,
) -> (r: Result<MontgomeryCurve, TransformError>)
    requires
        value(*p) >= 2,
        value(*p) == 2 || value(*p) % 2 == 1,
    ensures
        max_draws == 0 ==> r == Err::<MontgomeryCurve, TransformError>(
            TransformError::RootNotFound,
        ),
        r matches Ok(out) ==> exists|z0: int|
            0 <= z0 < value(*p) && cong(cubic(z0, value(*a), value(*b)), 0, value(*p))
                && inverse_scale(value(*a), value(*p), z0, value(out.b)) && #[trigger] image_under(
                value(*x),
                value(*y),
                value(*p),
                z0,
                value(out.b),
                view_curve(out),
            ),
        on_weierstrass(value(*x), value(*y), value(*a), value(*b), value(*p)) ==> (r matches Ok(
            out,
        ) ==> on_montgomery(value(out.a), value(out.b), value(out.u), value(out.v), value(*p))),
{
    let z0 = match find_curve_root(a, b, p, max_draws) {
        Some(z) => z,
        None => return Err(TransformError::RootNotFound),
    };
    let out = match montgomery_from_root(x, y, a, p, &z0) {
        Ok(out) => out,
        Err(e) => return Err(e),
    };
    proof {
        let (xv, yv, av, bv, pv, zv, w) = (
            value(*x),
            value(*y),
            value(*a),
            value(*b),
            value(*p),
            value(z0),
            value(out.b),
        );
        if on_weierstrass(xv, yv, av, bv, pv) {
            let s = choose|s: int|
                is_root(s, scale_square(av, pv, zv), pv) && #[trigger] ((w * s) % pv) == 1int % pv;
            vstd::arithmetic::div_mod::lemma_mod_twice(3 * zv * zv + av, pv);
            lemma_image_on_montgomery(xv, yv, av, bv, pv, zv, s, w);
        }
    }
    Ok(out)
}

} // verus!
