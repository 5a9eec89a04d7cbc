//! Guardrail primitives: validation, checked arithmetic, widening
//! multiplication and the nearest-even rounding rule.

use credit_engine_core::amm::errors::AmmError;
use credit_engine_core::amm::guardrails::{
    checked_add, checked_sub, div_nearest_even_u256, div_nearest_even_u256_to_u128,
    ensure_nonzero, ensure_reserves, mul_u128_to_u256, u256_to_u128_checked,
};
use credit_engine_core::amm::types::{U256, MIN_RESERVE};

#[test]
fn t_ensure_nonzero() {
    assert!(ensure_nonzero(1).is_ok());
    assert_eq!(ensure_nonzero(0).unwrap_err(), AmmError::ZeroAmount);
}

#[test]
fn t_ensure_reserves() {
    assert!(ensure_reserves(MIN_RESERVE, MIN_RESERVE).is_ok());
    assert_eq!(
        ensure_reserves(0, MIN_RESERVE).unwrap_err(),
        AmmError::ZeroReserve
    );
    assert_eq!(
        ensure_reserves(MIN_RESERVE, 0).unwrap_err(),
        AmmError::ZeroReserve
    );
    assert_eq!(
        ensure_reserves(MIN_RESERVE - 1, MIN_RESERVE).unwrap_err(),
        AmmError::MinReserveBreached
    );
    assert_eq!(
        ensure_reserves(MIN_RESERVE, MIN_RESERVE - 1).unwrap_err(),
        AmmError::MinReserveBreached
    );
}

#[test]
fn t_checked_add_sub_over_under_flow() {
    const UMAX: u128 = u128::MAX;
    assert_eq!(checked_add(1, 2).unwrap(), 3);
    assert_eq!(checked_add(UMAX, 1).unwrap_err(), AmmError::Overflow);
    assert_eq!(checked_sub(5, 3).unwrap(), 2);
    assert_eq!(checked_sub(0, 1).unwrap_err(), AmmError::Overflow);
}

#[test]
fn t_u256_div_nearest_even_rounding() {
    let two = U256::from_u128(2);
    let three = U256::from_u128(3);
    let five = U256::from_u128(5);

    // 5/2 = 2.5 -> tie, 2 is even -> stays 2
    let q = div_nearest_even_u256(five, two).unwrap();
    assert_eq!(q, U256::from_u128(2));
    // 3/2 = 1.5 -> tie, 1 is odd -> rounds up to 2
    let q = div_nearest_even_u256(three, two).unwrap();
    assert_eq!(q, U256::from_u128(2));
}

#[test]
fn t_div_nearest_even_zero_divisor() {
    assert_eq!(
        div_nearest_even_u256(U256::from_u128(7), U256::from_u128(0)).unwrap_err(),
        AmmError::Overflow
    );
}

#[test]
fn t_widening_mul_is_exact() {
    // (2^96)^2 = 2^192: hi = 2^64, lo = 0.
    let p = mul_u128_to_u256(1u128 << 96, 1u128 << 96);
    assert_eq!(p.hi, 1u128 << 64);
    assert_eq!(p.lo, 0);
    // max * max = 2^256 - 2^129 + 1.
    let p = mul_u128_to_u256(u128::MAX, u128::MAX);
    assert_eq!(p.hi, u128::MAX - 1);
    assert_eq!(p.lo, 1);
}

#[test]
fn t_u256_div_rem_wide_operands() {
    // (2^192 + 5) / (2^64 + 1), remainder checked by reconstruction.
    let n = U256 { hi: 1u128 << 64, lo: 5 };
    let d = U256::from_u128((1u128 << 64) + 1);
    let (q, r) = n.div_rem(&d);
    assert!(r < d);
    let back = mul_u128_to_u256(u256_to_u128_checked(q).unwrap(), (1u128 << 64) + 1)
        .checked_add(&r)
        .unwrap();
    assert_eq!(back, n);
}

#[test]
fn t_u256_narrowing() {
    assert_eq!(
        u256_to_u128_checked(U256::from_u128(u128::MAX)).unwrap(),
        u128::MAX
    );
    assert_eq!(
        u256_to_u128_checked(U256 { hi: 1, lo: 0 }).unwrap_err(),
        AmmError::Overflow
    );
}

#[test]
fn t_div_nearest_even_narrowed() {
    // 10 / 4 = 2.5 -> tie, 2 is even.
    assert_eq!(
        div_nearest_even_u256_to_u128(U256::from_u128(10), U256::from_u128(4)).unwrap(),
        2
    );
    // 2^192 / 2^64 = 2^128 does not fit back into 128 bits.
    assert_eq!(
        div_nearest_even_u256_to_u128(U256 { hi: 1u128 << 64, lo: 0 }, U256::from_u128(1u128 << 64))
            .unwrap_err(),
        AmmError::Overflow
    );
}
