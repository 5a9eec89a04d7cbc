//! Rounding-direction tests: one policy per operation, checked end to
//! end through the public quoting functions.

use credit_engine_core::amm::errors::AmmError;
use credit_engine_core::amm::guardrails::{
    div_nearest_even_u256, div_nearest_even_u256_to_u128, mul_u128_to_u256, u256_to_u128_checked,
};
use credit_engine_core::amm::liquidity::{initial_mint, remove_liquidity};
use credit_engine_core::amm::swap::{get_amount_in, get_amount_out};
use credit_engine_core::amm::types::{Ppm, U256, MIN_RESERVE, WAD};

const FEE0: Ppm = 0;
const FEE3: Ppm = 3000; // 0.30%

#[test]
fn r1_amount_out_is_floor_of_continuous_value() {
    // reserves well above the floor
    let (x, y, dx) = (1_000_000u128 * WAD, 1_000_000u128 * WAD, 10_000u128 * WAD);
    let out = get_amount_out(x, y, dx, FEE0).unwrap();
    // y* = (x*y)/x' with nearest-even (U256) -> u128
    let x1 = x + dx; // no fee
    let k = mul_u128_to_u256(x, y);
    let y_star = div_nearest_even_u256_to_u128(k, U256::from_u128(x1)).unwrap();
    // out must be exactly floor(y - y*)
    assert_eq!(out, y - y_star);
    // and y' keeps the minimum
    assert!(y - out >= MIN_RESERVE);
}

#[test]
fn r2_amount_in_is_ceil_minimality() {
    let (x, y, dy) = (1_000_000u128 * WAD, 1_000_000u128 * WAD, 9_870u128 * WAD);
    let dx = get_amount_in(x, y, dy, FEE3).unwrap();
    // dx - 1 must not reach dy
    if dx > 0 {
        let out_prev = get_amount_out(x, y, dx - 1, FEE3).unwrap_or(0);
        assert!(out_prev < dy);
    }
    let out = get_amount_out(x, y, dx, FEE3).unwrap();
    assert!(out >= dy);
}

#[test]
fn r3_fee_is_ceil_no_undercollection() {
    // a nonzero minimal fee must be collected in full
    let (x, y, dx) = (1_000_000u128 * WAD, 1_000_000u128 * WAD, 1u128);
    let fee_ppm: Ppm = 1; // 0.0001%
    let err = get_amount_out(x, y, dx, fee_ppm).unwrap_err();
    assert_eq!(err, AmmError::InputTooSmall); // dx_net = 0
}

#[test]
fn r4_mint_is_floor_of_sqrt_xy() {
    let (x, y) = (2_500_000u128 * WAD, 2_500_000u128 * WAD);
    let s = initial_mint(x, y).unwrap();
    let k = mul_u128_to_u256(x, y);
    // (s+1)^2 must exceed k, so s is floor(sqrt(k))
    let s_plus_sq = mul_u128_to_u256(s + 1, s + 1);
    assert!(s_plus_sq > k);
}

#[test]
fn r5_burn_amounts_are_floor_of_proportion() {
    let (x, y, s) = (1_000_000u128 * WAD, 3_000_000u128 * WAD, 1_000_000u128 * WAD);
    let burn = 123_456u128 * WAD; // ~12.3456%
    let (xo, yo) = remove_liquidity(x, y, burn, s).unwrap();
    // theoretical proportions (U256) and floors
    let total = U256::from_u128(s);
    let xo_theo = u256_to_u128_checked(mul_u128_to_u256(x, burn).div_rem(&total).0).unwrap();
    let yo_theo = u256_to_u128_checked(mul_u128_to_u256(y, burn).div_rem(&total).0).unwrap();
    assert_eq!(xo, xo_theo);
    assert_eq!(yo, yo_theo);
    // remaining reserves still at or above the minimum
    assert!(x - xo >= MIN_RESERVE && y - yo >= MIN_RESERVE);
}

#[test]
fn r6_intermediate_rounding_is_nearest_even_on_tie() {
    // exact-tie U256 divisions: 5/2 and 3/2
    let two = U256::from_u128(2);
    let three = U256::from_u128(3);
    let five = U256::from_u128(5);
    // 5/2 = 2.5 -> tie; 2 is even -> stays 2
    let q = div_nearest_even_u256(five, two).unwrap();
    assert_eq!(q, U256::from_u128(2));
    // 3/2 = 1.5 -> tie; 1 is odd -> up to 2
    let q = div_nearest_even_u256(three, two).unwrap();
    assert_eq!(q, U256::from_u128(2));
}
