//! Swap engine quotes: rounding policy, error paths, minimality of the
//! inverse quote, and the concrete WAD-scaled scenarios.

use credit_engine_core::amm::errors::AmmError;
use credit_engine_core::amm::guardrails::div_nearest_even_u256_to_u128;
use credit_engine_core::amm::guardrails::mul_u128_to_u256;
use credit_engine_core::amm::swap::{fee_on_input_ceil, get_amount_in, get_amount_out};
use credit_engine_core::amm::types::{Ppm, U256, MIN_RESERVE, WAD};

const FEE0: Ppm = 0;
const FEE3: Ppm = 3000; // 0.30%

#[test]
fn t_out_symmetric_no_fee() {
    let (x, y, dx) = (1_000_000u128 * WAD, 1_000_000u128 * WAD, 10_000u128 * WAD);
    let out = get_amount_out(x, y, dx, FEE0).unwrap();

    // expected via y* rounded the same way as the engine
    let x1 = x + dx;
    let k = mul_u128_to_u256(x, y);
    let y_star = div_nearest_even_u256_to_u128(k, U256::from_u128(x1)).unwrap();
    assert_eq!(out, y - y_star);

    // y' keeps the floor
    let y1 = y - out;
    assert!(y1 >= MIN_RESERVE);
}

#[test]
fn t_out_symmetric_with_fee() {
    let (x, y, dx) = (1_000_000u128 * WAD, 1_000_000u128 * WAD, 10_000u128 * WAD);
    let out = get_amount_out(x, y, dx, FEE3).unwrap();

    let dx_fee = fee_on_input_ceil(dx, FEE3).unwrap();
    let x1 = x + (dx - dx_fee);
    let k = mul_u128_to_u256(x, y);
    let y_star = div_nearest_even_u256_to_u128(k, U256::from_u128(x1)).unwrap();
    let expected = y - y_star;
    assert_eq!(out, expected);
}

#[test]
fn t_in_for_target_out_with_fee_minimal() {
    let (x, y, dy) = (1_000_000u128 * WAD, 1_000_000u128 * WAD, 9_870u128 * WAD);
    let dx = get_amount_in(x, y, dy, FEE3).unwrap();
    // minimality: dx - 1 does not reach the target
    if dx > 0 {
        let out_prev = get_amount_out(x, y, dx - 1, FEE3).unwrap_or(0);
        assert!(out_prev < dy);
    }
    let out = get_amount_out(x, y, dx, FEE3).unwrap();
    assert!(out >= dy);
}

#[test]
fn t_out_asymmetric_no_fee() {
    let (x, y, dx) = (1_000u128 * WAD, 1_000_000_000u128 * WAD, 100u128 * WAD);
    let out = get_amount_out(x, y, dx, FEE0).unwrap();

    let x1 = x + dx;
    let k = mul_u128_to_u256(x, y);
    let y_star = div_nearest_even_u256_to_u128(k, U256::from_u128(x1)).unwrap();
    let expected = y - y_star;
    assert_eq!(out, expected);
}

#[test]
fn t_dx_zero_rejected() {
    let err = get_amount_out(1_000_000u128 * WAD, 1_000_000u128 * WAD, 0, FEE0).unwrap_err();
    assert_eq!(err, AmmError::ZeroAmount);
}

#[test]
fn t_dx_net_zero_due_fee_rejected() {
    // dx = 1 wei and fee > 0 => fee = 1 => dx_net = 0
    let err = get_amount_out(5_000_000u128 * WAD, 4_000_000u128 * WAD, 1, FEE3).unwrap_err();
    assert_eq!(err, AmmError::InputTooSmall);
}

#[test]
fn t_dy_too_large_rejected() {
    // asking for dy >= y - MIN_RESERVE violates the floor guard
    let (x, y) = (MIN_RESERVE + 2_000, MIN_RESERVE + 1_000);
    let dy = y - MIN_RESERVE;
    let err = get_amount_in(x, y, dy, FEE0).unwrap_err();
    assert_eq!(err, AmmError::MinReserveBreached);
}

#[test]
fn t_zero_reserve_rejected() {
    let err = get_amount_out(0, 1_000_000u128 * WAD, 10 * WAD, FEE0).unwrap_err();
    assert_eq!(err, AmmError::ZeroReserve);
}

#[test]
fn t_small_values_min_reserve_guard() {
    // y = MIN_RESERVE and a large dx => y' would fall below the floor
    let (x, y, dx) = (MIN_RESERVE + 10, MIN_RESERVE, MIN_RESERVE);
    let err = get_amount_out(x, y, dx, FEE0).unwrap_err();
    assert_eq!(err, AmmError::MinReserveBreached);
}

#[test]
fn t_scenario_out_no_fee() {
    // reserves 1_000_000 / 1_000_000, input 10_000, no fee: ~9_900 units out
    let (x, y, dx) = (1_000_000u128 * WAD, 1_000_000u128 * WAD, 10_000u128 * WAD);
    let out = get_amount_out(x, y, dx, FEE0).unwrap();
    assert_eq!(out, 9_900_990_099_009_900_990_099u128);
    assert_eq!(out / WAD, 9_900);
}

#[test]
fn t_scenario_out_with_fee() {
    // same reserves, 0.30% fee: the fee-reduced input buys ~9_871 units
    let (x, y, dx) = (1_000_000u128 * WAD, 1_000_000u128 * WAD, 10_000u128 * WAD);
    let out = get_amount_out(x, y, dx, FEE3).unwrap();
    assert_eq!(out, 9_871_580_343_970_612_988_505u128);
}

#[test]
fn t_scenario_in_minimal_for_target() {
    // smallest gross input delivering 9_870 units at 0.30% fee
    let (x, y, dy) = (1_000_000u128 * WAD, 1_000_000u128 * WAD, 9_870u128 * WAD);
    let dx = get_amount_in(x, y, dy, FEE3).unwrap();
    assert_eq!(dx, 9_998_383_138_872_547_672_408u128);
    assert!(get_amount_out(x, y, dx, FEE3).unwrap() >= dy);
    assert!(get_amount_out(x, y, dx - 1, FEE3).unwrap() < dy);
}

#[test]
fn t_fee_is_exact_ceiling() {
    // 10_000 * 3000 / 1_000_000 divides exactly
    assert_eq!(fee_on_input_ceil(10_000, 3000).unwrap(), 30);
    // 1 * 3000 / 1_000_000 rounds up to a full unit
    assert_eq!(fee_on_input_ceil(1, 3000).unwrap(), 1);
    // zero rate charges nothing
    assert_eq!(fee_on_input_ceil(u128::MAX, 0).unwrap(), 0);
    // 3333 * 3000 = 9_999_000, ceiling over 1_000_000 is 10
    assert_eq!(fee_on_input_ceil(3_333, 3000).unwrap(), 10);
}

#[test]
fn t_overflow_on_unreachable_target() {
    // y barely above the floor: no input can deliver the requested dy
    // without breaching it, so the search overflows its upper bound.
    let (x, y) = (u128::MAX - 10, 3 * MIN_RESERVE);
    let err = get_amount_in(x, y, 2 * MIN_RESERVE - 1, FEE0).unwrap_err();
    assert_eq!(err, AmmError::Overflow);
}
