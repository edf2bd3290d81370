//! The arbitrary-precision integers of `num-bigint`, seen by their value.
use num_bigint::BigInt;
use num_bigint::RandBigInt;
use num_integer::Integer;
use num_traits::Zero;
use vstd::arithmetic::power::pow;
use vstd::prelude::*;

verus! {

#[verifier::external_type_specification]
#[verifier::external_body]
pub struct ExBigInt(BigInt);

/// The mathematical integer that a `BigInt` holds.
pub uninterp spec fn value(b: BigInt) -> int;

/// Relies on `BigInt: From<u64>`: the value is the machine integer.
#[verifier::external_body]
pub(crate) fn from_u64(n: u64) -> (r: BigInt)
    ensures
        value(r) == n as int,
{
    BigInt::from(n)
}

/// Quotient of `a` by `b` rounded toward negative infinity.
pub open spec fn floor_div(a: int, b: int) -> int {
    if b > 0 {
        a / b
    } else {
        (-a) / (-b)
    }
}

/// Remainder of `a` by `b` that carries the sign of `b`:
/// `a − b·floor_div(a, b)`, in `[0, b)` for `b > 0` and in `(b, 0]` for `b < 0`.
pub open spec fn floor_mod(a: int, b: int) -> int {
    if b > 0 {
        a % b
    } else {
        -((-a) % (-b))
    }
}

/// Relies on `Integer::mod_floor` for `BigInt`: the floored remainder, with
/// the sign of the modulus; it panics on a zero modulus.
#[verifier::external_body]
pub(crate) fn mod_floor(a: &BigInt, m: &BigInt) -> (r: BigInt)
    requires
        value(*m) != 0,
    ensures
        value(r) == floor_mod(value(*a), value(*m)),
{
    a.mod_floor(m)
}

/// Relies on `Integer::div_floor` for `BigInt`: the quotient rounded toward
/// negative infinity; it panics on a zero divisor.
#[verifier::external_body]
pub(crate) fn div_floor(a: &BigInt, b: &BigInt) -> (r: BigInt)
    requires
        value(*b) != 0,
    ensures
        value(r) == floor_div(value(*a), value(*b)),
{
    a.div_floor(b)
}

/// Quotient of `a` by `b` rounded toward zero, as `/` on `BigInt` and on
/// Rust's primitive integers rounds.
pub open spec fn trunc_div(a: int, b: int) -> int {
    let q = abs(a) / abs(b);
    if (a < 0) != (b < 0) {
        -q
    } else {
        q
    }
}

/// Remainder of `a` by `b` that carries the sign of `a`, as `%` on `BigInt`.
pub open spec fn trunc_rem(a: int, b: int) -> int {
    if a < 0 {
        -(abs(a) % abs(b))
    } else {
        abs(a) % abs(b)
    }
}

pub open spec fn abs(a: int) -> int {
    if a < 0 {
        -a
    } else {
        a
    }
}

/// Relies on `Clone` for `BigInt`: the copy holds the same value.
#[verifier::external_body]
pub(crate) fn copy(a: &BigInt) -> (r: BigInt)
    ensures
        value(r) == value(*a),
{
    a.clone()
}

/// Relies on `PartialEq` for `BigInt`: equal exactly when the values are.
#[verifier::external_body]
pub(crate) fn equal(a: &BigInt, b: &BigInt) -> (r: bool)
    ensures
        r == (value(*a) == value(*b)),
{
    a == b
}

/// Relies on `PartialOrd` for `BigInt`: ordered as the values are.
#[verifier::external_body]
pub(crate) fn less(a: &BigInt, b: &BigInt) -> (r: bool)
    ensures
        r == (value(*a) < value(*b)),
{
    a < b
}

/// Relies on `Zero::is_zero` for `BigInt`.
#[verifier::external_body]
pub(crate) fn is_zero(a: &BigInt) -> (r: bool)
    ensures
        r == (value(*a) == 0),
{
    a.is_zero()
}

/// Relies on `Integer::is_even` for `BigInt`.
#[verifier::external_body]
pub(crate) fn is_even(a: &BigInt) -> (r: bool)
    ensures
        r == (value(*a) % 2 == 0),
{
    a.is_even()
}

/// Relies on `Add` for `&BigInt`: the exact sum.
#[verifier::external_body]
pub(crate) fn add(a: &BigInt, b: &BigInt) -> (r: BigInt)
    ensures
        value(r) == value(*a) + value(*b),
{
    a + b
}

/// Relies on `Sub` for `&BigInt`: the exact difference.
#[verifier::external_body]
pub(crate) fn sub(a: &BigInt, b: &BigInt) -> (r: BigInt)
    ensures
        value(r) == value(*a) - value(*b),
{
    a - b
}

/// Relies on `Mul` for `&BigInt`: the exact product.
#[verifier::external_body]
pub(crate) fn mul(a: &BigInt, b: &BigInt) -> (r: BigInt)
    ensures
        value(r) == value(*a) * value(*b),
{
    a * b
}

/// Relies on `Div` for `&BigInt`, which rounds toward zero and panics on a
/// zero divisor.
#[verifier::external_body]
pub(crate) fn div(a: &BigInt, b: &BigInt) -> (r: BigInt)
    requires
        value(*b) != 0,
    ensures
        value(r) == trunc_div(value(*a), value(*b)),
{
    a / b
}

/// Relies on `Rem` for `&BigInt`, whose result takes the dividend's sign and
/// which panics on a zero divisor.
#[verifier::external_body]
pub(crate) fn rem(a: &BigInt, b: &BigInt) -> (r: BigInt)
    requires
        value(*b) != 0,
    ensures
        value(r) == trunc_rem(value(*a), value(*b)),
{
    a % b
}

/// Relies on `BigInt::modpow`: `(base ^ e) mod m`, rounded like `mod_floor`,
/// so in `[0, m)` for `m > 0`; it panics on a negative exponent or a zero
/// modulus.
#[verifier::external_body]
pub(crate) fn mod_pow(base: &BigInt, e: &BigInt, m: &BigInt) -> (r: BigInt)
    requires
        value(*e) >= 0,
        value(*m) > 0,
    ensures
        value(r) == pow(value(*base), value(*e) as nat) % value(*m),
{
    base.modpow(e, m)
}

/// Relies on `BigInt::bits`: the fewest bits that express the magnitude.
#[verifier::external_body]
pub(crate) fn bits(a: &BigInt) -> (r: u64)
    requires
        value(*a) > 0,
    ensures
        pow(2, (r - 1) as nat) <= value(*a) < pow(2, r as nat),
        r >= 1,
{
    a.bits()
}

/// Relies on `RandBigInt::gen_bigint_range` over the thread-local generator
/// of `rand`: a value drawn from `[0, bound)`; the call panics unless the
/// bound is positive.
#[verifier::external_body]
pub(crate) fn random_below(bound: &BigInt) -> (r: BigInt)
    requires
        value(*bound) > 0,
    ensures
        0 <= value(r) < value(*bound),
{
    rand::thread_rng().gen_bigint_range(&BigInt::zero(), bound)
}

} // verus!
