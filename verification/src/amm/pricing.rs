//! Derived price and slippage metrics, built entirely on the swap
//! engine's pure quotes: spot price, execution price, relative slippage in
//! parts per million, and tolerance-bounded minimum-out / maximum-in
//! quotes for callers that accept a slippage budget.

use vstd::prelude::*;
use vstd::arithmetic::div_mod::*;
use vstd::arithmetic::mul::*;
use super::errors::AmmError;
use super::guardrails::{
    div_nearest_even_u256,
    div_nearest_even_u256_to_u128,
    ensure_nonzero,
    ensure_reserves,
    mul_u128_to_u256,
    round_nearest_even,
    u256_to_u128_checked,
};
use super::swap::{div_ceil, get_amount_in, get_amount_out, lemma_quote_out_window, spec_amount_out, spec_min_input, spec_out_or_zero, ceil_div_u256};
use super::types::{MIN_RESERVE, PPM_SCALE, Ppm, U256, WAD, Wad};

verus! {

/// The exact outcome of a spot-price query: `round_nearest_even(a * WAD / b)`
/// over validated reserves, `Overflow` when the scaled ratio leaves the
/// 128-bit domain.
pub open spec fn spec_spot_price(a: Wad, b: Wad) -> Result<Wad, AmmError> {
    if a == 0 || b == 0 {
        Err(AmmError::ZeroReserve)
    } else if a < MIN_RESERVE || b < MIN_RESERVE {
        Err(AmmError::MinReserveBreached)
    } else if round_nearest_even((b * WAD) as nat, a as nat) > u128::MAX {
        Err(AmmError::Overflow)
    } else {
        Ok(round_nearest_even((b * WAD) as nat, a as nat) as u128)
    }
}

/// The exact outcome of `execution_price_x_to_y`: the realized ratio
/// `out / dx` in WAD, rounded to nearest even.
pub open spec fn spec_execution_price(x: Wad, y: Wad, dx: Wad, fee_ppm: Ppm) -> Result<
    Wad,
    AmmError,
> {
    match spec_amount_out(x, y, dx, fee_ppm) {
        Err(e) => Err(e),
        Ok(out) => if round_nearest_even((out * WAD) as nat, dx as nat) > u128::MAX {
            Err(AmmError::Overflow)
        } else {
            Ok(round_nearest_even((out * WAD) as nat, dx as nat) as u128)
        },
    }
}

/// The exact outcome of `slippage_ppm_x_to_y`: how far the execution
/// price falls short of the spot price, in parts per million of the spot
/// price, clamped to `[0, PPM_SCALE]`.
pub open spec fn spec_slippage_ppm(x: Wad, y: Wad, dx: Wad, fee_ppm: Ppm) -> Result<Ppm, AmmError> {
    match spec_spot_price(x, y) {
        Err(e) => Err(e),
        Ok(spot) => match spec_execution_price(x, y, dx, fee_ppm) {
            Err(e) => Err(e),
            Ok(exec) => if exec >= spot {
                Ok(0)
            } else {
                Ok(round_nearest_even(((spot - exec) * PPM_SCALE) as nat, spot as nat) as u32)
            },
        },
    }
}

/// Tolerance rates above 100% count as 100%.
pub open spec fn spec_clamp_tolerance(tol_ppm: Ppm) -> nat {
    if tol_ppm > PPM_SCALE {
        PPM_SCALE as nat
    } else {
        tol_ppm as nat
    }
}

/// Spot price of 1 X in Y for an infinitesimal trade: `y / x` in WAD.
pub fn spot_price_x_in_y(x: Wad, y: Wad) -> (res: Result<Wad, AmmError>)
    ensures
        res == spec_spot_price(x, y),
{
    match ensure_reserves(x, y) {
        Err(e) => {
            return Err(e);
        },
        _ => {},
    }
    let n = mul_u128_to_u256(y, WAD);
    div_nearest_even_u256_to_u128(n, U256::from_u128(x))
}

/// Spot price of 1 Y in X for an infinitesimal trade: `x / y` in WAD.
pub fn spot_price_y_in_x(x: Wad, y: Wad) -> (res: Result<Wad, AmmError>)
    ensures
        res == spec_spot_price(y, x),
{
    match ensure_reserves(x, y) {
        Err(e) => {
            return Err(e);
        },
        _ => {},
    }
    let n = mul_u128_to_u256(x, WAD);
    div_nearest_even_u256_to_u128(n, U256::from_u128(y))
}

/// Effective execution price of swapping a gross `dx` of X for Y,
/// including the fee: `out / dx` in WAD.
pub fn execution_price_x_to_y(x: Wad, y: Wad, dx: Wad, fee_ppm: Ppm) -> (res: Result<Wad, AmmError>)
    ensures
        res == spec_execution_price(x, y, dx, fee_ppm),
{
    match ensure_reserves(x, y) {
        Err(e) => {
            return Err(e);
        },
        _ => {},
    }
    match ensure_nonzero(dx) {
        Err(e) => {
            return Err(e);
        },
        _ => {},
    }
    let out = match get_amount_out(x, y, dx, fee_ppm) {
        Ok(v) => v,
        Err(e) => {
            return Err(e);
        },
    };
    let n = mul_u128_to_u256(out, WAD);
    div_nearest_even_u256_to_u128(n, U256::from_u128(dx))
}

/// Relative slippage of the execution price against the spot price, in
/// PPM, never negative and never above 100%.
pub fn slippage_ppm_x_to_y(x: Wad, y: Wad, dx: Wad, fee_ppm: Ppm) -> (res: Result<Ppm, AmmError>)
    ensures
        res == spec_slippage_ppm(x, y, dx, fee_ppm),
        res matches Ok(ppm) ==> ppm <= PPM_SCALE,
{
    let spot = match spot_price_x_in_y(x, y) {
        Ok(v) => v,
        Err(e) => {
            return Err(e);
        },
    };
    let exec = match execution_price_x_to_y(x, y, dx, fee_ppm) {
        Ok(v) => v,
        Err(e) => {
            return Err(e);
        },
    };
    if exec >= spot {
        return Ok(0);
    }
    let num = mul_u128_to_u256(spot - exec, PPM_SCALE as u128);
    proof {
        lemma_slippage_within_scale((spot - exec) as nat, spot as nat);
    }
    let q = match div_nearest_even_u256(num, U256::from_u128(spot)) {
        Ok(v) => v,
        Err(e) => {
            return Err(e);
        },
    };
    let q128 = match u256_to_u128_checked(q) {
        Ok(v) => v,
        Err(e) => {
            return Err(e);
        },
    };
    let mut ppm: Ppm = if q128 > u32::MAX as u128 {
        u32::MAX
    } else {
        q128 as u32
    };
    if ppm > PPM_SCALE {
        ppm = PPM_SCALE;
    }
    Ok(ppm)
}

/// A shortfall below the spot price, scaled to PPM of the spot price and
/// rounded to nearest even, never exceeds the full scale.
proof fn lemma_slippage_within_scale(diff: nat, spot: nat)
    requires
        1 <= diff <= spot,
    ensures
        round_nearest_even((diff * PPM_SCALE) as nat, spot) <= PPM_SCALE,
{
    let n = (diff * PPM_SCALE) as nat;
    if diff == spot {
        // The ratio is exactly one: no rounding happens.
        lemma_mul_is_commutative(spot as int, PPM_SCALE as int);
        lemma_div_by_multiple(PPM_SCALE as int, spot as int);
        lemma_mod_multiples_basic(PPM_SCALE as int, spot as int);
        assert(n % spot == 0);
        assert(n / spot == PPM_SCALE);
    } else {
        assert(n < spot * PPM_SCALE) by (nonlinear_arith)
            requires
                1 <= diff < spot,
                n == diff * PPM_SCALE,
        ;
        lemma_multiply_divide_lt(n as int, spot as int, PPM_SCALE as int);
        lemma_mod_division_less_than_divisor(n as int, spot as int);
    }
}

/// Minimum acceptable output for a trade under a slippage tolerance:
/// `floor(out * (PPM_SCALE - tol) / PPM_SCALE)`.
pub fn min_out_with_tolerance(
    x: Wad,
    y: Wad,
    dx: Wad,
    fee_ppm: Ppm,
    slippage_tolerance_ppm: Ppm,
) -> (res: Result<Wad, AmmError>)
    ensures
        res == match spec_amount_out(x, y, dx, fee_ppm) {
            Err(e) => Result::<Wad, AmmError>::Err(e),
            Ok(out) => Result::<Wad, AmmError>::Ok(
                (out * (PPM_SCALE - spec_clamp_tolerance(slippage_tolerance_ppm)) / (
                PPM_SCALE as int)) as u128,
            ),
        },
{
    let out = match get_amount_out(x, y, dx, fee_ppm) {
        Ok(v) => v,
        Err(e) => {
            return Err(e);
        },
    };
    let tol: Ppm = if slippage_tolerance_ppm > PPM_SCALE {
        PPM_SCALE
    } else {
        slippage_tolerance_ppm
    };
    let factor = PPM_SCALE - tol;
    let n = mul_u128_to_u256(out, factor as u128);
    let (q, _r) = n.div_rem(&U256::from_u128(PPM_SCALE as u128));
    proof {
        lemma_scaled_fraction_fits(out as nat, factor as nat);
    }
    match u256_to_u128_checked(q) {
        Ok(v) => Ok(v),
        Err(e) => Err(e),
    }
}

/// A value scaled by at most the full PPM factor and divided back by the
/// full scale never exceeds the value.
proof fn lemma_scaled_fraction_fits(v: nat, factor: nat)
    requires
        factor <= PPM_SCALE,
    ensures
        v * factor / (PPM_SCALE as nat) <= v,
{
    lemma_mul_inequality(factor as int, PPM_SCALE as int, v as int);
    lemma_mul_is_commutative(factor as int, v as int);
    lemma_mul_is_commutative(PPM_SCALE as int, v as int);
    lemma_div_is_ordered((v * factor) as int, (v * PPM_SCALE) as int, PPM_SCALE as int);
    lemma_div_multiples_vanish(v as int, PPM_SCALE as int);
}

/// A value scaled by at most twice the PPM factor and divided back by
/// the full scale at most doubles, rounded up or not.
proof fn lemma_padded_input_fits(v: nat, factor: nat)
    requires
        factor <= 2 * PPM_SCALE,
    ensures
        div_ceil((v * factor) as nat, PPM_SCALE as nat) <= 2 * v,
{
    let p = PPM_SCALE as nat;
    if v == 0 {
        assert(v * factor == 0) by (nonlinear_arith)
            requires
                v == 0,
        ;
        lemma_basic_div((p - 1) as int, p as int);
    } else {
        lemma_mul_left_inequality(v as int, factor as int, (2 * p) as int);
        assert(v * (2 * p) == (2 * v) * p) by (nonlinear_arith);
        lemma_div_is_ordered((v * factor + p - 1) as int, ((2 * v) * p + p - 1) as int, p as int);
        lemma_mul_is_commutative((2 * v) as int, p as int);
        lemma_div_multiples_vanish_fancy((2 * v) as int, (p - 1) as int, p as int);
    }
}

/// Maximum acceptable input to reach `dy` under a slippage tolerance:
/// `ceil(dx * (PPM_SCALE + tol) / PPM_SCALE)` over the minimal quoted
/// input `dx` — which is unique, so the existential below pins the
/// result; fails with `Overflow` when the padded input leaves the
/// 128-bit domain.
pub fn max_in_with_tolerance(
    x: Wad,
    y: Wad,
    dy: Wad,
    fee_ppm: Ppm,
    slippage_tolerance_ppm: Ppm,
) -> (res: Result<Wad, AmmError>)
    ensures
        res matches Ok(v) ==> exists|dx: Wad|
            #[trigger] spec_min_input(x, y, dy, fee_ppm, dx) && v == div_ceil(
                (dx * (PPM_SCALE + spec_clamp_tolerance(slippage_tolerance_ppm))) as nat,
                PPM_SCALE as nat,
            ),
        res == Result::<Wad, AmmError>::Err(AmmError::ZeroReserve) <==> (x == 0 || y == 0),
        res == Result::<Wad, AmmError>::Err(AmmError::ZeroAmount) <==> (x >= MIN_RESERVE && y
            >= MIN_RESERVE && dy == 0),
        res == Result::<Wad, AmmError>::Err(AmmError::InputTooSmall) <==> (x >= MIN_RESERVE && y
            >= MIN_RESERVE && 0 < dy < y - MIN_RESERVE && fee_ppm >= PPM_SCALE),
        res == Result::<Wad, AmmError>::Err(AmmError::MinReserveBreached) <==> ((x > 0 && y > 0)
            && (x < MIN_RESERVE || y < MIN_RESERVE || (dy > 0 && dy >= y - MIN_RESERVE))),
        res == Result::<Wad, AmmError>::Err(AmmError::Overflow) ==> (x >= MIN_RESERVE && y
            >= MIN_RESERVE && 0 < dy < y - MIN_RESERVE && fee_ppm < PPM_SCALE),
        (x >= MIN_RESERVE && y >= MIN_RESERVE && 0 < dy < y - MIN_RESERVE && fee_ppm < PPM_SCALE
            && (exists|w: Wad|
            1 <= w <= u128::MAX / 4 && #[trigger] spec_out_or_zero(x, y, w, fee_ppm) >= dy
                && spec_out_or_zero(x, y, (2 * w) as u128, fee_ppm) >= dy)) ==> res is Ok,
{
    let dx = match get_amount_in(x, y, dy, fee_ppm) {
        Ok(v) => v,
        Err(e) => {
            return Err(e);
        },
    };
    let tol: Ppm = if slippage_tolerance_ppm > PPM_SCALE {
        PPM_SCALE
    } else {
        slippage_tolerance_ppm
    };
    let factor = PPM_SCALE + tol;
    let n = mul_u128_to_u256(dx, factor as u128);
    proof {
        lemma_mul_upper_bound(dx as int, u128::MAX as int, factor as int, (2 * PPM_SCALE) as int);
        lemma_padded_input_fits(dx as nat, factor as nat);
        // A witness within a quarter of the domain keeps the minimal
        // input below it, so the padded input still fits.
        if exists|w: Wad|
            1 <= w <= u128::MAX / 4 && #[trigger] spec_out_or_zero(x, y, w, fee_ppm) >= dy
                && spec_out_or_zero(x, y, (2 * w) as u128, fee_ppm) >= dy {
            let w = choose|w: Wad|
                1 <= w <= u128::MAX / 4 && #[trigger] spec_out_or_zero(x, y, w, fee_ppm) >= dy
                    && spec_out_or_zero(x, y, (2 * w) as u128, fee_ppm) >= dy;
            if dx > w {
                lemma_quote_out_window(x, y, dy, fee_ppm, w, (dx - 1) as u128, dx);
                assert(false);
            }
        }
    }
    let q = ceil_div_u256(n, U256::from_u128(PPM_SCALE as u128));
    match u256_to_u128_checked(q) {
        Ok(v) => Ok(v),
        Err(e) => Err(e),
    }
}

} // verus!
