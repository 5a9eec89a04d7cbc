//! High-precision reference oracle for the swap engine, built on
//! arbitrary-precision integers and rationals:
//!
//! 1. the continuous (unrounded) amount-out and amount-in for the same
//!    constant-product formula, with the fee taken exactly;
//! 2. a re-derivation of the fixed-point rounding policy (fee ceiling,
//!    nearest-even internal division, floored boundary) over unbounded
//!    integers, proved to agree exactly with the swap engine: the same
//!    output wherever the engine succeeds, and the same minimal input
//!    for the inverse quote;
//! 3. the relative invariant drift `|k1 - k0| / k0` realized by an
//!    engine quote.
//!
//! The oracle is for validation only; it never runs on the production
//! call path.

use vstd::prelude::*;
use vstd::arithmetic::div_mod::*;
use vstd::arithmetic::mul::*;
use num_bigint::BigInt;
use num_bigint::BigUint;
use num_integer::Integer;
use num_rational::BigRational;
use num_traits::ToPrimitive;
use super::errors::AmmError;
use super::guardrails::{checked_add, checked_sub, round_nearest_even};
use super::swap::{
    div_ceil,
    fee_on_input_ceil,
    get_amount_in,
    get_amount_out,
    lemma_estimate_within_reserve,
    lemma_fee_step,
    lemma_fee_within_input,
    lemma_min_input_unique,
    spec_amount_out,
    spec_fee,
    spec_min_input,
    spec_out_or_zero,
};
use super::types::{MIN_RESERVE, PPM_SCALE, Ppm, Wad};

verus! {

/// An unsigned arbitrary-precision integer of the outside crate; opaque
/// here, described only by `big_val`.
#[verifier::external_type_specification]
#[verifier::external_body]
pub struct ExBigUint(BigUint);

/// A signed arbitrary-precision integer of the outside crate; carried
/// only as the component type of `BigRational`.
#[verifier::external_type_specification]
#[verifier::external_body]
pub struct ExBigInt(BigInt);

/// An arbitrary-precision rational of the outside crate; opaque here,
/// described only by `rat_num` and `rat_den`.
#[verifier::external_type_specification]
#[verifier::external_body]
#[verifier::reject_recursive_types(T)]
pub struct ExRatio<T>(num_rational::Ratio<T>);

/// The number a `BigUint` holds.
pub uninterp spec fn big_val(b: BigUint) -> nat;

/// Declares `Ratio`'s `Clone` so the comparison bundles below can derive
/// theirs; nothing is assumed of the cloned value.
pub assume_specification<T: Clone>[ <num_rational::Ratio<T> as Clone>::clone ](
    r: &num_rational::Ratio<T>,
) -> num_rational::Ratio<T>;

/// The numerator a `BigRational` holds.
pub uninterp spec fn rat_num(r: BigRational) -> int;

/// The denominator a `BigRational` holds.
pub uninterp spec fn rat_den(r: BigRational) -> int;

/// Relies on `BigUint::from(u128)`: exact widening conversion.
#[verifier::external_body]
fn big_from_u128(v: u128) -> (r: BigUint)
    ensures
        big_val(r) == v,
{
    BigUint::from(v)
}

/// Relies on `BigUint`'s addition: exact, unbounded.
#[verifier::external_body]
fn big_add(a: &BigUint, b: &BigUint) -> (r: BigUint)
    ensures
        big_val(r) == big_val(*a) + big_val(*b),
{
    a + b
}

/// Relies on `BigUint`'s subtraction: exact; panics when the result
/// would be negative, so that case is excluded here.
#[verifier::external_body]
fn big_sub(a: &BigUint, b: &BigUint) -> (r: BigUint)
    requires
        big_val(*b) <= big_val(*a),
    ensures
        big_val(r) == big_val(*a) - big_val(*b),
{
    a - b
}

/// Relies on `BigUint`'s multiplication: exact, unbounded.
#[verifier::external_body]
fn big_mul(a: &BigUint, b: &BigUint) -> (r: BigUint)
    ensures
        big_val(r) == big_val(*a) * big_val(*b),
{
    a * b
}

/// Relies on `num_integer::Integer::div_rem` for `BigUint`: Euclidean
/// quotient and remainder; panics on a zero divisor, excluded here.
#[verifier::external_body]
fn big_div_rem(a: &BigUint, d: &BigUint) -> (qr: (BigUint, BigUint))
    requires
        big_val(*d) != 0,
    ensures
        big_val(qr.0) == big_val(*a) / big_val(*d),
        big_val(qr.1) == big_val(*a) % big_val(*d),
{
    a.div_rem(d)
}

/// Relies on `BigUint`'s ordering: it follows the numeric value.
#[verifier::external_body]
fn big_lt(a: &BigUint, b: &BigUint) -> (r: bool)
    ensures
        r <==> big_val(*a) < big_val(*b),
{
    a < b
}

/// Relies on `num_integer::Integer::is_odd` for `BigUint`.
#[verifier::external_body]
fn big_is_odd(a: &BigUint) -> (r: bool)
    ensures
        r <==> big_val(*a) % 2 == 1,
{
    a.is_odd()
}

/// Relies on `num_traits::ToPrimitive::to_u128` for `BigUint`: the exact
/// value when it fits, `None` otherwise.
#[verifier::external_body]
fn big_to_u128(a: &BigUint) -> (r: Option<u128>)
    ensures
        match r {
            Some(v) => big_val(*a) == v,
            None => big_val(*a) > u128::MAX,
        },
{
    a.to_u128()
}

/// Relies on `BigRational::new`: the value is the given ratio, reduced,
/// with the denominator kept positive; panics on a zero denominator,
/// excluded here.
#[verifier::external_body]
fn rat_new(n: &BigUint, d: &BigUint) -> (r: BigRational)
    requires
        big_val(*d) != 0,
    ensures
        rat_den(r) > 0,
        rat_num(r) >= 0,
        rat_num(r) * big_val(*d) == big_val(*n) * rat_den(r),
{
    BigRational::new(BigInt::from(n.clone()), BigInt::from(d.clone()))
}

/// Relies on `Ratio::floor` and `ToPrimitive::to_u128`: for a nonnegative
/// rational, the floor is the numerator divided by the (positive)
/// denominator.
#[verifier::external_body]
fn rat_floor_u128(r: &BigRational) -> (res: Option<u128>)
    requires
        rat_den(*r) > 0,
        rat_num(*r) >= 0,
    ensures
        match res {
            Some(v) => v == rat_num(*r) / rat_den(*r),
            None => rat_num(*r) / rat_den(*r) > u128::MAX,
        },
{
    r.floor().to_integer().to_u128()
}

/// Relies on `Ratio::ceil` and `ToPrimitive::to_u128`: for a nonnegative
/// rational, the ceiling is `(num + den - 1) / den` over the (positive)
/// denominator.
#[verifier::external_body]
fn rat_ceil_u128(r: &BigRational) -> (res: Option<u128>)
    requires
        rat_den(*r) > 0,
        rat_num(*r) >= 0,
    ensures
        match res {
            Some(v) => v == (rat_num(*r) + rat_den(*r) - 1) / rat_den(*r),
            None => (rat_num(*r) + rat_den(*r) - 1) / rat_den(*r) > u128::MAX,
        },
{
    r.ceil().to_integer().to_u128()
}

} // verus!

verus! {

/// Equal rationals have equal integer floors: if `a / b == c / d` as
/// exact fractions (cross-multiplied), the integer quotients agree.
proof fn lemma_div_cross(a: int, b: int, c: int, d: int)
    requires
        a >= 0,
        c >= 0,
        b > 0,
        d > 0,
        a * d == c * b,
    ensures
        a / b == c / d,
{
    lemma_div_multiples_vanish_quotient(d, a, b);
    lemma_div_multiples_vanish_quotient(b, c, d);
    lemma_mul_is_commutative(d, a);
    lemma_mul_is_commutative(d, b);
    lemma_mul_is_commutative(b, c);
    lemma_mul_is_commutative(b, d);
}

/// The ceiling `(n + d - 1) / d` is the floor plus one exactly when the
/// division is inexact.
proof fn lemma_div_ceil_decomp(n: int, d: int)
    requires
        n >= 0,
        d > 0,
    ensures
        n % d == 0 ==> (n + d - 1) / d == n / d,
        n % d != 0 ==> (n + d - 1) / d == n / d + 1,
{
    lemma_fundamental_div_mod(n, d);
    lemma_mod_division_less_than_divisor(n, d);
    let q = n / d;
    let r = n % d;
    if r == 0 {
        lemma_mul_is_commutative(q, d);
        assert(n + d - 1 == q * d + (d - 1));
        lemma_fundamental_div_mod_converse(n + d - 1, d, q, d - 1);
    } else {
        assert(n + d - 1 == (q + 1) * d + (r - 1)) by (nonlinear_arith)
            requires
                n == d * q + r,
        ;
        lemma_fundamental_div_mod_converse(n + d - 1, d, q + 1, r - 1);
    }
}

/// An exact division stays exact across cross-multiplied equal
/// fractions.
proof fn lemma_exactness_transfer(a: int, b: int, c: int, d: int)
    requires
        a >= 0,
        c >= 0,
        b > 0,
        d > 0,
        a * d == c * b,
        a % b == 0,
    ensures
        c % d == 0,
{
    lemma_fundamental_div_mod(a, b);
    let q = a / b;
    assert(b * c == b * (q * d)) by (nonlinear_arith)
        requires
            a == b * q,
            a * d == c * b,
    ;
    lemma_mul_equality_converse(b, c, q * d);
    lemma_mod_multiples_basic(q, d);
}

/// Equal rationals have equal integer ceilings.
proof fn lemma_ceil_cross(a: int, b: int, c: int, d: int)
    requires
        a >= 0,
        c >= 0,
        b > 0,
        d > 0,
        a * d == c * b,
    ensures
        (a + b - 1) / b == (c + d - 1) / d,
{
    lemma_div_cross(a, b, c, d);
    lemma_div_ceil_decomp(a, b);
    lemma_div_ceil_decomp(c, d);
    if a % b == 0 {
        lemma_exactness_transfer(a, b, c, d);
    } else {
        if c % d == 0 {
            lemma_mul_is_commutative(a, d);
            lemma_mul_is_commutative(c, b);
            lemma_exactness_transfer(c, d, a, b);
        }
    }
}


/// Ceiling division over unbounded integers, as `(n + d - 1) / d`.
fn big_ceil_div(n: &BigUint, d: &BigUint) -> (r: BigUint)
    requires
        big_val(*d) >= 1,
    ensures
        big_val(r) == div_ceil(big_val(*n), big_val(*d)),
{
    let dm1 = big_sub(d, &big_from_u128(1));
    let sum = big_add(n, &dm1);
    let (q, _rem) = big_div_rem(&sum, d);
    q
}

/// Nearest-even division over unbounded integers: the same rounding rule
/// as the engine's 256-bit primitive.
fn div_nearest_even_big(n: &BigUint, d: &BigUint) -> (r: BigUint)
    requires
        big_val(*d) != 0,
    ensures
        big_val(r) == round_nearest_even(big_val(*n), big_val(*d)),
{
    let (q, rem) = big_div_rem(n, d);
    let two_r = big_add(&rem, &rem);
    if big_lt(&two_r, d) {
        q
    } else if big_lt(d, &two_r) {
        big_add(&q, &big_from_u128(1))
    } else if big_is_odd(&q) {
        big_add(&q, &big_from_u128(1))
    } else {
        q
    }
}

/// The exact outcome of `policy_amount_out`: the rounding policy of the
/// engine re-derived over unbounded integers. It validates the reserves
/// against the floor only on the way in, with no post-trade floor check,
/// but like the engine it refuses an input whose effect rounds to
/// nothing.
pub open spec fn spec_policy_amount_out(x: Wad, y: Wad, dx: Wad, fee_ppm: Ppm) -> Result<
    Wad,
    AmmError,
> {
    if x < MIN_RESERVE || y < MIN_RESERVE {
        Err(AmmError::MinReserveBreached)
    } else if dx == 0 {
        Err(AmmError::ZeroAmount)
    } else if spec_fee(dx as nat, fee_ppm as nat) > dx {
        Err(AmmError::Overflow)
    } else if dx == spec_fee(dx as nat, fee_ppm as nat) {
        Err(AmmError::InputTooSmall)
    } else if x + dx - spec_fee(dx as nat, fee_ppm as nat) > u128::MAX {
        Err(AmmError::Overflow)
    } else {
        let x1 = (x + dx - spec_fee(dx as nat, fee_ppm as nat)) as nat;
        if round_nearest_even((x * y) as nat, x1) == y {
            Err(AmmError::InputTooSmall)
        } else {
            Ok((y - round_nearest_even((x * y) as nat, x1)) as u128)
        }
    }
}

/// Amount-out under the engine's rounding policy, computed over unbounded
/// integers: fee ceiling, nearest-even internal division, floored output.
pub fn policy_amount_out(x: Wad, y: Wad, dx: Wad, fee_ppm: Ppm) -> (res: Result<Wad, AmmError>)
    ensures
        res == spec_policy_amount_out(x, y, dx, fee_ppm),
{
    if x < MIN_RESERVE || y < MIN_RESERVE {
        return Err(AmmError::MinReserveBreached);
    }
    if dx == 0 {
        return Err(AmmError::ZeroAmount);
    }
    let dx_fee = match fee_on_input_ceil(dx, fee_ppm) {
        Ok(f) => f,
        Err(e) => {
            return Err(e);
        },
    };
    let dx_net = match checked_sub(dx, dx_fee) {
        Ok(v) => v,
        Err(e) => {
            return Err(e);
        },
    };
    if dx_net == 0 {
        return Err(AmmError::InputTooSmall);
    }
    let x1 = match checked_add(x, dx_net) {
        Ok(v) => v,
        Err(e) => {
            return Err(e);
        },
    };
    let k = big_mul(&big_from_u128(x), &big_from_u128(y));
    let y_star = div_nearest_even_big(&k, &big_from_u128(x1));
    proof {
        lemma_estimate_within_reserve(x as nat, y as nat, x1 as nat);
    }
    let y_big = big_from_u128(y);
    if big_lt(&y_big, &y_star) {
        return Err(AmmError::Overflow);
    }
    let out_big = big_sub(&y_big, &y_star);
    match big_to_u128(&out_big) {
        Some(v) => if v == 0 {
            Err(AmmError::InputTooSmall)
        } else {
            Ok(v)
        },
        None => Err(AmmError::Overflow),
    }
}

/// The unbounded-integer re-derivation of the policy corresponds exactly
/// to the swap engine: wherever the engine succeeds the policy returns
/// the same output, and over validated reserves a policy output within
/// the floor is exactly an engine success, while one beyond the floor is
/// exactly the engine's floor refusal.
pub proof fn lemma_policy_agrees_with_engine(x: Wad, y: Wad, dx: Wad, fee_ppm: Ppm)
    ensures
        spec_amount_out(x, y, dx, fee_ppm) matches Ok(out) ==> spec_policy_amount_out(
            x,
            y,
            dx,
            fee_ppm,
        ) == Result::<Wad, AmmError>::Ok(out),
        (x >= MIN_RESERVE && y >= MIN_RESERVE) ==> (spec_policy_amount_out(
            x,
            y,
            dx,
            fee_ppm,
        ) matches Ok(out) ==> (if out <= y - MIN_RESERVE {
            spec_amount_out(x, y, dx, fee_ppm) == Result::<Wad, AmmError>::Ok(out)
        } else {
            spec_amount_out(x, y, dx, fee_ppm) == Result::<Wad, AmmError>::Err(
                AmmError::MinReserveBreached,
            )
        })),
{
    if x >= MIN_RESERVE && y >= MIN_RESERVE && spec_policy_amount_out(x, y, dx, fee_ppm) is Ok {
        let fee = spec_fee(dx as nat, fee_ppm as nat);
        lemma_estimate_within_reserve(x as nat, y as nat, (x + dx - fee) as nat);
    }
}

/// Whether a gross input satisfies the engine's criterion for the request
/// `dy` — a successful quote of at least `dy` — decided through the
/// policy re-derivation and the reserve floor.
fn policy_meets_target(x: Wad, y: Wad, dy: Wad, fee_ppm: Ppm, dx: Wad) -> (r: bool)
    requires
        x >= MIN_RESERVE,
        y >= MIN_RESERVE,
        dy >= 1,
    ensures
        r <==> spec_out_or_zero(x, y, dx, fee_ppm) >= dy,
{
    proof {
        lemma_policy_agrees_with_engine(x, y, dx, fee_ppm);
    }
    match policy_amount_out(x, y, dx, fee_ppm) {
        Ok(o) => o >= dy && o <= y - MIN_RESERVE,
        Err(_) => false,
    }
}

/// The continuous (unrounded) amount out for a gross input `dx` with the
/// fee taken exactly: `y * dx * (PPM_SCALE - fee) / (x * PPM_SCALE + dx *
/// (PPM_SCALE - fee))`, as an exact rational.
pub fn continuous_amount_out(x: Wad, y: Wad, dx: Wad, fee_ppm: Ppm) -> (res: Result<
    BigRational,
    AmmError,
>)
    requires
        fee_ppm <= PPM_SCALE,
    ensures
        res is Ok <==> (x >= MIN_RESERVE && y >= MIN_RESERVE && dx > 0),
        res matches Err(e) ==> (if x < MIN_RESERVE || y < MIN_RESERVE {
            e == AmmError::MinReserveBreached
        } else {
            e == AmmError::ZeroAmount
        }),
        res matches Ok(r) ==> {
            &&& rat_den(r) > 0
            &&& rat_num(r) >= 0
            &&& rat_num(r) * ((x * PPM_SCALE + dx * (PPM_SCALE - fee_ppm)) as int) == (y * dx * (
            PPM_SCALE - fee_ppm)) * rat_den(r)
        },
{
    if x < MIN_RESERVE || y < MIN_RESERVE {
        return Err(AmmError::MinReserveBreached);
    }
    if dx == 0 {
        return Err(AmmError::ZeroAmount);
    }
    let factor = (PPM_SCALE - fee_ppm) as u128;
    let dxf = big_mul(&big_from_u128(dx), &big_from_u128(factor));
    let scaled_x = big_mul(&big_from_u128(x), &big_from_u128(PPM_SCALE as u128));
    let den = big_add(&scaled_x, &dxf);
    let num = big_mul(&big_from_u128(y), &dxf);
    proof {
        assert(x * PPM_SCALE >= 1 * PPM_SCALE) by (nonlinear_arith)
            requires
                x >= 1,
        ;
        assert(big_val(num) == y * dx * factor) by (nonlinear_arith)
            requires
                big_val(num) == y * (dx * factor),
        ;
        assert(big_val(den) == x * PPM_SCALE + dx * factor);
    }
    Ok(rat_new(&num, &den))
}

/// The continuous (unrounded) input needed to withdraw `dy` with the fee
/// taken exactly: `x * dy * PPM_SCALE / ((y - dy) * (PPM_SCALE - fee))`,
/// as an exact rational.
pub fn continuous_amount_in(x: Wad, y: Wad, dy: Wad, fee_ppm: Ppm) -> (res: Result<
    BigRational,
    AmmError,
>)
    requires
        fee_ppm < PPM_SCALE,
    ensures
        res is Ok <==> (x >= MIN_RESERVE && y >= MIN_RESERVE && 0 < dy < y - MIN_RESERVE),
        res == Result::<BigRational, AmmError>::Err(AmmError::MinReserveBreached) <==> (x
            < MIN_RESERVE || y < MIN_RESERVE || (x >= MIN_RESERVE && y >= MIN_RESERVE && dy > 0
            && dy >= y - MIN_RESERVE)),
        res == Result::<BigRational, AmmError>::Err(AmmError::ZeroAmount) <==> (x >= MIN_RESERVE
            && y >= MIN_RESERVE && dy == 0),
        res matches Ok(r) ==> {
            &&& rat_den(r) > 0
            &&& rat_num(r) >= 0
            &&& rat_num(r) * (((y - dy) * (PPM_SCALE - fee_ppm)) as int) == (x * dy * PPM_SCALE)
                * rat_den(r)
        },
{
    if x < MIN_RESERVE || y < MIN_RESERVE {
        return Err(AmmError::MinReserveBreached);
    }
    if dy == 0 {
        return Err(AmmError::ZeroAmount);
    }
    if dy >= y - MIN_RESERVE {
        return Err(AmmError::MinReserveBreached);
    }
    let factor = (PPM_SCALE - fee_ppm) as u128;
    let num = big_mul(&big_mul(&big_from_u128(x), &big_from_u128(dy)), &big_from_u128(
        PPM_SCALE as u128,
    ));
    let den = big_mul(&big_from_u128(y - dy), &big_from_u128(factor));
    proof {
        assert(big_val(den) >= 1 * 1) by (nonlinear_arith)
            requires
                big_val(den) == (y - dy) * factor,
                y - dy >= 1,
                factor >= 1,
        ;
    }
    Ok(rat_new(&num, &den))
}

/// The post-trade invariant `(x + dx - fee) * (y - out)` against the
/// original `x * y`, as an absolute difference.
pub open spec fn spec_dk(x: Wad, y: Wad, dx: Wad, out: Wad, fee_ppm: Ppm) -> int {
    let k0 = x * y;
    let k1 = (x + dx - spec_fee(dx as nat, fee_ppm as nat)) * (y - out);
    if k1 >= k0 {
        k1 - k0
    } else {
        k0 - k1
    }
}

/// Relative invariant drift `|k1 - k0| / k0` realized by an engine quote
/// that took `dx` in and paid `out` out.
fn dk_over_k_from_core(x: Wad, y: Wad, dx: Wad, out: Wad, fee_ppm: Ppm) -> (r: BigRational)
    requires
        x >= 1,
        y >= 1,
        spec_fee(dx as nat, fee_ppm as nat) <= dx,
        x + dx - spec_fee(dx as nat, fee_ppm as nat) <= u128::MAX,
        out <= y,
    ensures
        rat_den(r) > 0,
        rat_num(r) >= 0,
        rat_num(r) * ((x * y) as int) == spec_dk(x, y, dx, out, fee_ppm) * rat_den(r),
{
    let fee = match fee_on_input_ceil(dx, fee_ppm) {
        Ok(f) => f,
        Err(_) => 0,
    };
    let x1 = x + (dx - fee);
    let y1 = y - out;
    let k0 = big_mul(&big_from_u128(x), &big_from_u128(y));
    let k1 = big_mul(&big_from_u128(x1), &big_from_u128(y1));
    proof {
        assert(x * y >= 1 * 1) by (nonlinear_arith)
            requires
                x >= 1,
                y >= 1,
        ;
    }
    let num = if big_lt(&k0, &k1) {
        big_sub(&k1, &k0)
    } else {
        big_sub(&k0, &k1)
    };
    rat_new(&num, &k0)
}


/// A ceiling division of a positive dividend is positive.
proof fn lemma_div_ceil_pos(n: nat, d: nat)
    requires
        n >= 1,
        d >= 1,
    ensures
        div_ceil(n, d) >= 1,
{
    lemma_div_is_ordered(d as int, (n + d - 1) as int, d as int);
    lemma_div_by_self(d as int);
}

/// Amount-in under the engine's rounding policy, re-derived over
/// unbounded integers: the closed-form candidate with both ceilings and a
/// correction for the fee's own rounding seeds the search, and a walk to
/// the boundary returns the same minimal satisfying gross input as the
/// engine's binary search. When the candidate misses, the walk starts
/// over from the smallest input.
pub fn policy_amount_in(x: Wad, y: Wad, dy: Wad, fee_ppm: Ppm) -> (res: Result<Wad, AmmError>)
    requires
        fee_ppm <= PPM_SCALE,
    ensures
        res matches Ok(dxr) ==> spec_min_input(x, y, dy, fee_ppm, dxr),
        res == Result::<Wad, AmmError>::Err(AmmError::MinReserveBreached) <==> (x < MIN_RESERVE
            || y < MIN_RESERVE || (x >= MIN_RESERVE && y >= MIN_RESERVE && dy > 0 && dy >= y
            - MIN_RESERVE)),
        res == Result::<Wad, AmmError>::Err(AmmError::ZeroAmount) <==> (x >= MIN_RESERVE && y
            >= MIN_RESERVE && dy == 0),
        res == Result::<Wad, AmmError>::Err(AmmError::InputTooSmall) <==> (x >= MIN_RESERVE && y
            >= MIN_RESERVE && 0 < dy < y - MIN_RESERVE && fee_ppm == PPM_SCALE),
        res == Result::<Wad, AmmError>::Err(AmmError::Overflow) ==> (x >= MIN_RESERVE && y
            >= MIN_RESERVE && 0 < dy < y - MIN_RESERVE && fee_ppm < PPM_SCALE),
        (x >= MIN_RESERVE && y >= MIN_RESERVE && 0 < dy < y - MIN_RESERVE && fee_ppm < PPM_SCALE
            && (exists|w: Wad| 1 <= w && #[trigger] spec_out_or_zero(x, y, w, fee_ppm) >= dy))
            ==> res is Ok,
{
    if x < MIN_RESERVE || y < MIN_RESERVE {
        return Err(AmmError::MinReserveBreached);
    }
    if dy == 0 {
        return Err(AmmError::ZeroAmount);
    }
    if dy >= y - MIN_RESERVE {
        return Err(AmmError::MinReserveBreached);
    }
    let denom_ppm = PPM_SCALE - fee_ppm;
    if denom_ppm == 0 {
        return Err(AmmError::InputTooSmall);
    }
    // Closed-form candidate: the net input ceil(x * dy / (y - dy)),
    // grossed up through the fee factor, then corrected until the fee's
    // own rounding no longer eats into the needed net amount. The search
    // below does not depend on the candidate being right.
    let mut candidate: Wad = 0;
    let num = big_mul(&big_from_u128(x), &big_from_u128(dy));
    let dx_net_big = big_ceil_div(&num, &big_from_u128(y - dy));
    match big_to_u128(&dx_net_big) {
        Some(dx_net) => {
            let gnum = big_mul(&big_from_u128(dx_net), &big_from_u128(PPM_SCALE as u128));
            let gross_big = big_ceil_div(&gnum, &big_from_u128(denom_ppm as u128));
            match big_to_u128(&gross_big) {
                Some(gross) => {
                    let mut c: Wad = if gross >= 1 {
                        gross
                    } else {
                        1
                    };
                    proof {
                        lemma_fee_within_input(c as nat, fee_ppm as nat);
                    }
                    let mut fee = match fee_on_input_ceil(c, fee_ppm) {
                        Ok(f) => f,
                        Err(_) => 0,
                    };
                    let mut net = c - fee;
                    let mut gave_up: bool = false;
                    while net < dx_net && !gave_up
                        invariant
                            c >= 1,
                            fee_ppm < PPM_SCALE,
                            fee == spec_fee(c as nat, fee_ppm as nat),
                            fee <= c,
                            net == c - fee,
                        decreases (if gave_up {
                            0int
                        } else {
                            1int
                        }), u128::MAX - c,
                    {
                        match c.checked_add(1) {
                            Some(v) => {
                                c = v;
                                proof {
                                    lemma_fee_within_input(c as nat, fee_ppm as nat);
                                }
                                fee = match fee_on_input_ceil(c, fee_ppm) {
                                    Ok(f) => f,
                                    Err(_) => 0,
                                };
                                net = c - fee;
                            },
                            None => {
                                gave_up = true;
                            },
                        }
                    }
                    if !gave_up {
                        candidate = c;
                    }
                },
                None => {},
            }
        },
        None => {},
    }
    let mut dx: Wad = 1;
    let mut have: bool = false;
    if candidate >= 1 {
        if policy_meets_target(x, y, dy, fee_ppm, candidate) {
            dx = candidate;
            have = true;
        }
    }
    if have {
        // The candidate satisfies the request: walk down to the boundary.
        let mut keep: bool = dx > 1 && policy_meets_target(x, y, dy, fee_ppm, dx - 1);
        while keep
            invariant
                x >= MIN_RESERVE,
                y >= MIN_RESERVE,
                dy >= 1,
                dx >= 1,
                spec_out_or_zero(x, y, dx, fee_ppm) >= dy,
                keep <==> (dx > 1 && spec_out_or_zero(x, y, (dx - 1) as u128, fee_ppm) >= dy),
            decreases dx,
        {
            dx = dx - 1;
            keep = dx > 1 && policy_meets_target(x, y, dy, fee_ppm, dx - 1);
        }
        Ok(dx)
    } else {
        // No usable candidate: walk up from the smallest input to the
        // first one that satisfies the request.
        let mut sat: bool = policy_meets_target(x, y, dy, fee_ppm, 1);
        while !sat
            invariant
                x >= MIN_RESERVE,
                y >= MIN_RESERVE,
                1 <= dy < y - MIN_RESERVE,
                fee_ppm < PPM_SCALE,
                dx >= 1,
                sat <==> spec_out_or_zero(x, y, dx, fee_ppm) >= dy,
                dx == 1 || spec_out_or_zero(x, y, (dx - 1) as u128, fee_ppm) < dy,
                !sat ==> forall|w: Wad|
                    (1 <= w && #[trigger] spec_out_or_zero(x, y, w, fee_ppm) >= dy) ==> dx <= w,
            decreases u128::MAX - dx,
        {
            dx = match dx.checked_add(1) {
                Some(v) => v,
                None => {
                    proof {
                        // Every satisfying input would sit at or above the
                        // exhausted bound.
                        if exists|w: Wad| 1 <= w && #[trigger] spec_out_or_zero(x, y, w, fee_ppm)
                            >= dy {
                            let w = choose|w: Wad|
                                1 <= w && #[trigger] spec_out_or_zero(x, y, w, fee_ppm) >= dy;
                            assert(dx <= w);
                            assert(false);
                        }
                    }
                    return Err(AmmError::Overflow);
                },
            };
            sat = policy_meets_target(x, y, dy, fee_ppm, dx);
        }
        Ok(dx)
    }
}

/// Reference comparison bundle for one amount-out quote.
#[derive(Debug, Clone)]
pub struct RefOut {
    /// The engine's quoted output.
    pub out_core: Wad,
    /// The unbounded-integer policy re-derivation's output.
    pub out_policy: Wad,
    /// The continuous output, floored to the grid.
    pub out_cont_floor: Wad,
    /// The continuous output as an exact rational.
    pub out_cont: BigRational,
    /// The engine quote's relative invariant drift `|dk| / k`.
    pub dk_over_k_core: BigRational,
}

/// Reference comparison bundle for one amount-in quote.
#[derive(Debug, Clone)]
pub struct RefIn {
    /// The engine's quoted input.
    pub in_core: Wad,
    /// The unbounded-integer policy re-derivation's input.
    pub in_policy: Wad,
    /// The continuous input, raised to the grid.
    pub in_cont_ceil: Wad,
    /// The continuous input as an exact rational.
    pub in_cont: BigRational,
    /// The relative invariant drift of swapping the engine's input.
    pub dk_over_k_core: BigRational,
}

/// A numerator of the continuous-output fraction stays within the
/// current Y reserve once divided by its denominator.
proof fn lemma_cont_out_floor_bound(y: int, dxf: int, b: int)
    requires
        y >= 0,
        1 <= dxf <= b,
    ensures
        (y * dxf) / b <= y,
{
    lemma_mul_left_inequality(dxf as int, y, y);
    lemma_mul_inequality(dxf, b, y);
    lemma_mul_is_commutative(dxf, y);
    lemma_mul_is_commutative(b, y);
    lemma_div_is_ordered(y * dxf, y * b, b);
    lemma_div_multiples_vanish(y, b);
    lemma_mul_is_commutative(b, y);
}

/// Compares the engine's amount-out against the reference: the policy
/// re-derivation agrees exactly, the continuous floor is the exact
/// integer part of the continuous fraction, and the invariant drift is
/// the exact rational `|k1 - k0| / k0`.
pub fn golden_amount_out(x: Wad, y: Wad, dx: Wad, fee_ppm: Ppm) -> (res: Result<RefOut, AmmError>)
    requires
        fee_ppm <= PPM_SCALE,
    ensures
        res matches Err(e) ==> spec_amount_out(x, y, dx, fee_ppm) == Result::<Wad, AmmError>::Err(
            e,
        ),
        res matches Ok(g) ==> {
            &&& spec_amount_out(x, y, dx, fee_ppm) == Result::<Wad, AmmError>::Ok(g.out_core)
            &&& g.out_policy == g.out_core
            &&& g.out_cont_floor == (y * dx * ((PPM_SCALE - fee_ppm) as int)) / ((x * PPM_SCALE
                + dx * ((PPM_SCALE - fee_ppm) as int)) as int)
            &&& rat_den(g.out_cont) > 0
            &&& rat_num(g.out_cont) * ((x * PPM_SCALE + dx * (PPM_SCALE - fee_ppm)) as int) == (y
                * dx * (PPM_SCALE - fee_ppm)) * rat_den(g.out_cont)
            &&& rat_den(g.dk_over_k_core) > 0
            &&& rat_num(g.dk_over_k_core) * ((x * y) as int) == spec_dk(
                x,
                y,
                dx,
                g.out_core,
                fee_ppm,
            ) * rat_den(g.dk_over_k_core)
        },
{
    let out_core = match get_amount_out(x, y, dx, fee_ppm) {
        Ok(v) => v,
        Err(e) => {
            return Err(e);
        },
    };
    proof {
        lemma_policy_agrees_with_engine(x, y, dx, fee_ppm);
    }
    let out_policy = match policy_amount_out(x, y, dx, fee_ppm) {
        Ok(v) => v,
        Err(e) => {
            return Err(e);
        },
    };
    let out_cont = match continuous_amount_out(x, y, dx, fee_ppm) {
        Ok(v) => v,
        Err(e) => {
            return Err(e);
        },
    };
    let ghost dxf: int = dx * ((PPM_SCALE - fee_ppm) as int);
    let ghost b: int = x * PPM_SCALE + dxf;
    proof {
        assert(dxf >= 1 * 1) by (nonlinear_arith)
            requires
                dxf == dx * ((PPM_SCALE - fee_ppm) as int),
                dx >= 1,
                fee_ppm < PPM_SCALE,
        ;
        assert(x * PPM_SCALE >= 0) by (nonlinear_arith)
            requires
                x >= 0,
        ;
        assert(y * dxf == y * dx * ((PPM_SCALE - fee_ppm) as int)) by (nonlinear_arith)
            requires
                dxf == dx * ((PPM_SCALE - fee_ppm) as int),
        ;
        lemma_div_cross(rat_num(out_cont), rat_den(out_cont), y * dxf, b);
        lemma_cont_out_floor_bound(y as int, dxf, b);
    }
    let out_cont_floor = match rat_floor_u128(&out_cont) {
        Some(v) => v,
        None => {
            return Err(AmmError::Overflow);
        },
    };
    let dk_over_k_core = dk_over_k_from_core(x, y, dx, out_core, fee_ppm);
    Ok(RefOut { out_core, out_policy, out_cont_floor, out_cont, dk_over_k_core })
}

/// Compares the engine's amount-in against the reference: the engine's
/// input is the minimal satisfying input, the policy re-derivation lands
/// on exactly the same input, the continuous ceiling is the exact
/// rounded-up continuous input, and the drift is measured for the
/// engine's realized quote.
pub fn golden_amount_in(x: Wad, y: Wad, dy: Wad, fee_ppm: Ppm) -> (res: Result<RefIn, AmmError>)
    requires
        fee_ppm <= PPM_SCALE,
    ensures
        res matches Ok(g) ==> {
            &&& spec_min_input(x, y, dy, fee_ppm, g.in_core)
            &&& g.in_policy == g.in_core
            &&& g.in_cont_ceil == ((x * dy * PPM_SCALE) + ((y - dy) * ((PPM_SCALE
                - fee_ppm) as int)) - 1) / (((y - dy) * ((PPM_SCALE - fee_ppm) as int)) as int)
            &&& rat_den(g.in_cont) > 0
            &&& rat_num(g.in_cont) * (((y - dy) * (PPM_SCALE - fee_ppm)) as int) == (x * dy
                * PPM_SCALE) * rat_den(g.in_cont)
            &&& rat_den(g.dk_over_k_core) > 0
        },
        res == Result::<RefIn, AmmError>::Err(AmmError::ZeroReserve) <==> (x == 0 || y == 0),
        res == Result::<RefIn, AmmError>::Err(AmmError::MinReserveBreached) <==> ((x > 0 && y > 0)
            && (x < MIN_RESERVE || y < MIN_RESERVE || (dy > 0 && dy >= y - MIN_RESERVE))),
        res == Result::<RefIn, AmmError>::Err(AmmError::ZeroAmount) <==> (x >= MIN_RESERVE && y
            >= MIN_RESERVE && dy == 0),
        res == Result::<RefIn, AmmError>::Err(AmmError::InputTooSmall) <==> (x >= MIN_RESERVE && y
            >= MIN_RESERVE && 0 < dy < y - MIN_RESERVE && fee_ppm >= PPM_SCALE),
        res == Result::<RefIn, AmmError>::Err(AmmError::Overflow) ==> (x >= MIN_RESERVE && y
            >= MIN_RESERVE && 0 < dy < y - MIN_RESERVE && fee_ppm < PPM_SCALE),
{
    let in_core = match get_amount_in(x, y, dy, fee_ppm) {
        Ok(v) => v,
        Err(e) => {
            return Err(e);
        },
    };
    proof {
        // The engine's minimal input witnesses that the policy search
        // succeeds as well.
        assert(spec_out_or_zero(x, y, in_core, fee_ppm) >= dy);
    }
    let in_policy = match policy_amount_in(x, y, dy, fee_ppm) {
        Ok(v) => v,
        Err(e) => {
            return Err(e);
        },
    };
    proof {
        lemma_min_input_unique(x, y, dy, fee_ppm, in_policy, in_core);
    }
    let in_cont = match continuous_amount_in(x, y, dy, fee_ppm) {
        Ok(v) => v,
        Err(e) => {
            return Err(e);
        },
    };
    let ghost d2: int = (y - dy) * ((PPM_SCALE - fee_ppm) as int);
    let ghost n2: int = x * dy * (PPM_SCALE as int);
    proof {
        assert(d2 >= 1 * 1) by (nonlinear_arith)
            requires
                d2 == (y - dy) * ((PPM_SCALE - fee_ppm) as int),
                y - dy >= 1,
                fee_ppm < PPM_SCALE,
        ;
        assert(n2 >= 0) by (nonlinear_arith)
            requires
                n2 == x * dy * (PPM_SCALE as int),
                x >= 0,
                dy >= 0,
        ;
        assert(x * dy * (PPM_SCALE as int) == (x * dy) * (PPM_SCALE as int));
        lemma_ceil_cross(rat_num(in_cont), rat_den(in_cont), n2, d2);
    }
    let in_cont_ceil = match rat_ceil_u128(&in_cont) {
        Some(v) => v,
        None => {
            return Err(AmmError::Overflow);
        },
    };
    // Drift of the realized engine quote.
    let out_core = match get_amount_out(x, y, in_core, fee_ppm) {
        Ok(v) => v,
        Err(e) => {
            return Err(e);
        },
    };
    proof {
        lemma_fee_within_input(in_core as nat, fee_ppm as nat);
    }
    let dk_over_k_core = dk_over_k_from_core(x, y, in_core, out_core, fee_ppm);
    Ok(RefIn { in_core, in_policy, in_cont_ceil, in_cont, dk_over_k_core })
}

} // verus!
