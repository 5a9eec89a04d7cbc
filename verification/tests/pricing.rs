//! Pricing metrics: spot and execution prices, slippage, and the
//! tolerance-bounded quotes.

use credit_engine_core::amm::guardrails::{div_nearest_even_u256_to_u128, mul_u128_to_u256, u256_to_u128_checked};
use credit_engine_core::amm::pricing::{
    execution_price_x_to_y, max_in_with_tolerance, min_out_with_tolerance, slippage_ppm_x_to_y,
    spot_price_x_in_y, spot_price_y_in_x,
};
use credit_engine_core::amm::swap::{get_amount_in, get_amount_out};
use credit_engine_core::amm::types::{Ppm, U256, MIN_RESERVE, PPM_SCALE, WAD};

const FEE0: Ppm = 0;
const FEE3: Ppm = 3000; // 0.30%

#[test]
fn t_spot_prices_basic() {
    let (x, y) = (1_000_000u128 * WAD, 2_000_000u128 * WAD);
    let p_xy = spot_price_x_in_y(x, y).unwrap(); // 2.0
    let p_yx = spot_price_y_in_x(x, y).unwrap(); // 0.5
    assert_eq!(p_xy, 2 * WAD);
    assert_eq!(p_yx, WAD / 2);
}

#[test]
fn t_slippage_no_fee_vs_fee() {
    let (x, y, dx) = (1_000_000u128 * WAD, 1_000_000u128 * WAD, 10_000u128 * WAD);
    let s0 = slippage_ppm_x_to_y(x, y, dx, FEE0).unwrap();
    let s3 = slippage_ppm_x_to_y(x, y, dx, FEE3).unwrap();
    // tight windows around ~1.00% and ~1.30% to accommodate nearest-even
    assert!((9_800..=10_200).contains(&s0), "s0={}ppm (expected ~10_000ppm)", s0);
    assert!((12_800..=13_200).contains(&s3), "s3={}ppm (expected ~13_000ppm)", s3);
}

#[test]
fn t_slippage_exact_values() {
    let (x, y, dx) = (1_000_000u128 * WAD, 1_000_000u128 * WAD, 10_000u128 * WAD);
    assert_eq!(slippage_ppm_x_to_y(x, y, dx, FEE0).unwrap(), 9_901);
    assert_eq!(slippage_ppm_x_to_y(x, y, dx, FEE3).unwrap(), 12_842);
}

#[test]
fn t_min_out_with_tolerance() {
    let (x, y, dx) = (1_000_000u128 * WAD, 1_000_000u128 * WAD, 10_000u128 * WAD);
    let min_out = min_out_with_tolerance(x, y, dx, FEE3, 5_000).unwrap();

    // expected = floor(out * (1 - tol)), using the real out
    let out = get_amount_out(x, y, dx, FEE3).unwrap();
    let factor = (PPM_SCALE - 5_000) as u128;
    let expected = mul_u128_to_u256(out, factor)
        .div_rem(&U256::from_u128(PPM_SCALE as u128))
        .0;
    assert_eq!(min_out, u256_to_u128_checked(expected).unwrap());
}

#[test]
fn t_max_in_with_tolerance() {
    let (x, y, dy) = (1_000_000u128 * WAD, 1_000_000u128 * WAD, 9_870u128 * WAD);
    let max_in = max_in_with_tolerance(x, y, dy, FEE3, 5_000).unwrap();

    // expected = ceil(dx_core * (1 + tol)), using the real dx_core
    let dx_core = get_amount_in(x, y, dy, FEE3).unwrap();
    let factor = (PPM_SCALE + 5_000) as u128;
    let n = mul_u128_to_u256(dx_core, factor);
    let ppm = U256::from_u128(PPM_SCALE as u128);
    let (q, r) = n.div_rem(&ppm);
    let expected = if r == U256::from_u128(0) {
        q
    } else {
        q.checked_add(&U256::from_u128(1)).unwrap()
    };
    assert_eq!(max_in, u256_to_u128_checked(expected).unwrap());
}

#[test]
fn t_exec_price_matches_ratio_out_over_dx() {
    let (x, y, dx) = (1_000_000u128 * WAD, 1_000_000u128 * WAD, 10_000u128 * WAD);
    let out = get_amount_out(x, y, dx, FEE0).unwrap();
    let p_exec = execution_price_x_to_y(x, y, dx, FEE0).unwrap();
    let p_exec_check =
        div_nearest_even_u256_to_u128(mul_u128_to_u256(out, WAD), U256::from_u128(dx)).unwrap();
    assert_eq!(p_exec, p_exec_check);
}

#[test]
fn t_safety_invalid_inputs() {
    // invalid reserves
    assert!(spot_price_x_in_y(0, MIN_RESERVE).is_err());
    // zero dx on the execution price
    assert!(execution_price_x_to_y(MIN_RESERVE, MIN_RESERVE, 0, FEE0).is_err());
}

#[test]
fn t_tolerance_is_clamped() {
    let (x, y, dx) = (1_000_000u128 * WAD, 1_000_000u128 * WAD, 10_000u128 * WAD);
    // a tolerance above 100% counts as 100%: min out collapses to zero
    assert_eq!(min_out_with_tolerance(x, y, dx, FEE0, 2_000_000).unwrap(), 0);
    // and max in doubles the quoted input
    let dy = 9_870u128 * WAD;
    let dx_core = get_amount_in(x, y, dy, FEE3).unwrap();
    assert_eq!(
        max_in_with_tolerance(x, y, dy, FEE3, 2_000_000).unwrap(),
        2 * dx_core
    );
}
