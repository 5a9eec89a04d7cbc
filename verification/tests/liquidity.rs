//! Liquidity engine: initial mint, proportional mint and burn, with the
//! reserve floor enforced on the way out.

use credit_engine_core::amm::errors::AmmError;
use credit_engine_core::amm::liquidity::{add_liquidity, initial_mint, remove_liquidity};
use credit_engine_core::amm::types::{MIN_RESERVE, WAD};

#[test]
fn t_initial_mint_symmetrical() {
    let (x, y) = (1_000_000u128 * WAD, 1_000_000u128 * WAD);
    let s = initial_mint(x, y).unwrap();
    assert_eq!(s, 1_000_000u128 * WAD);
}

#[test]
fn t_initial_mint_min_reserve_guard() {
    let (x, y) = (MIN_RESERVE - 1, MIN_RESERVE);
    let err = initial_mint(x, y).unwrap_err();
    assert_eq!(err, AmmError::MinReserveBreached);
}

#[test]
fn t_initial_mint_is_floor_of_root() {
    // x * y = 2 * WAD^2 is no perfect square: the issuance is the floor.
    let s = initial_mint(2 * WAD, WAD).unwrap();
    assert_eq!(s, 1_414_213_562_373_095_048u128);
}

#[test]
fn t_add_liquidity_proportional_sym() {
    let (x, y, s) = (1_000_000u128 * WAD, 1_000_000u128 * WAD, 1_000_000u128 * WAD);
    let (dx, dy) = (100_000u128 * WAD, 100_000u128 * WAD);
    let mint = add_liquidity(x, y, dx, dy, s).unwrap();
    assert_eq!(mint, 100_000u128 * WAD);
}

#[test]
fn t_add_liquidity_min_by_y() {
    let (x, y, s) = (1_000_000u128 * WAD, 1_000_000u128 * WAD, 1_000_000u128 * WAD);
    let (dx, dy) = (200_000u128 * WAD, 100_000u128 * WAD); // y limits
    let mint = add_liquidity(x, y, dx, dy, s).unwrap();
    assert_eq!(mint, 100_000u128 * WAD);
}

#[test]
fn t_add_liquidity_too_small() {
    // S small enough that floor(...) == 0: InputTooSmall
    let (x, y, s) = (1_000_000u128 * WAD, 1_000_000u128 * WAD, 100u128);
    let (dx, dy) = (1u128, 1u128);
    let err = add_liquidity(x, y, dx, dy, s).unwrap_err();
    assert_eq!(err, AmmError::InputTooSmall);
}

#[test]
fn t_add_liquidity_empty_pool_misuse() {
    let err = add_liquidity(WAD, WAD, WAD, WAD, 0).unwrap_err();
    assert_eq!(err, AmmError::Overflow);
}

#[test]
fn t_add_liquidity_zero_amount() {
    let err = add_liquidity(WAD, WAD, 0, WAD, WAD).unwrap_err();
    assert_eq!(err, AmmError::ZeroAmount);
}

#[test]
fn t_remove_liquidity_10_percent() {
    let (x, y, s) = (1_000_000u128 * WAD, 1_000_000u128 * WAD, 1_000_000u128 * WAD);
    let burn = 100_000u128 * WAD; // 10%
    let (xo, yo) = remove_liquidity(x, y, burn, s).unwrap();
    assert_eq!((xo, yo), (100_000u128 * WAD, 100_000u128 * WAD));
    let (x1, y1) = (x - xo, y - yo);
    assert!(x1 >= MIN_RESERVE && y1 >= MIN_RESERVE);
}

#[test]
fn t_remove_liquidity_burn_too_big() {
    let (x, y, s) = (2_000_000u128 * WAD, 2_000_000u128 * WAD, 1_000_000u128 * WAD);
    let err = remove_liquidity(x, y, s + 1, s).unwrap_err();
    assert_eq!(err, AmmError::Overflow);
}

#[test]
fn t_remove_liquidity_zero_burn() {
    let err =
        remove_liquidity(1_000_000u128 * WAD, 1_000_000u128 * WAD, 0, 1_000_000u128 * WAD)
            .unwrap_err();
    assert_eq!(err, AmmError::ZeroAmount);
}

#[test]
fn t_remove_liquidity_min_reserve_guard() {
    let (x, y, s) = (MIN_RESERVE + 10, MIN_RESERVE + 10, 1_000_000u128 * WAD);
    let err = remove_liquidity(x, y, 999_999u128 * WAD, s).unwrap_err();
    assert_eq!(err, AmmError::MinReserveBreached);
}
