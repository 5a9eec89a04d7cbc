//! Core types and concrete checks of the kernel-wide laws.

use credit_engine_core::amm::errors::AmmError;
use credit_engine_core::amm::guardrails::mul_u128_to_u256;
use credit_engine_core::amm::swap::get_amount_out;
use credit_engine_core::amm::types::{Reserves, U256, MIN_RESERVE, WAD};

#[test]
fn t_reserves_pair() {
    let r = Reserves::new(3 * WAD, 5 * WAD);
    assert_eq!(r.x, 3 * WAD);
    assert_eq!(r.y, 5 * WAD);
    assert_eq!(r, Reserves::new(3 * WAD, 5 * WAD));
}

#[test]
fn t_u256_ordering_follows_value() {
    let small = U256 { hi: 0, lo: u128::MAX };
    let big = U256 { hi: 1, lo: 0 };
    assert!(small < big);
    assert!(small.checked_add(&U256::from_u128(1)).unwrap() == big);
}

#[test]
fn t_quote_output_in_range() {
    // range law on concrete values: 0 < out <= y - MIN_RESERVE
    let (x, y, dx) = (1_000_000u128 * WAD, 1_000_000u128 * WAD, 10_000u128 * WAD);
    for fee in [0u32, 1, 3000, 500_000] {
        let out = get_amount_out(x, y, dx, fee).unwrap();
        assert!(out > 0);
        assert!(out <= y - MIN_RESERVE);
    }
}

#[test]
fn t_invariant_grows_with_fee() {
    // with a fee, a realized trade never decreases k = x * y
    let (x, y, dx) = (1_000_000u128 * WAD, 1_000_000u128 * WAD, 10_000u128 * WAD);
    for fee in [1u32, 3000, 30_000, 500_000] {
        let out = get_amount_out(x, y, dx, fee).unwrap();
        let k0 = mul_u128_to_u256(x, y);
        let k1 = mul_u128_to_u256(x + dx, y - out);
        assert!(k1 >= k0, "k shrank at fee {}", fee);
    }
}

#[test]
fn t_zero_output_dust_edge() {
    // A one-wei input into a pool whose X reserve dwarfs Y rounds the
    // post-trade estimate back to the full reserve: the input's effect
    // collapses to zero, so the quote is rejected rather than paid out
    // as a free swap.
    let err = get_amount_out(1u128 << 127, MIN_RESERVE, 1, 0).unwrap_err();
    assert_eq!(err, AmmError::InputTooSmall);
}

#[test]
fn t_invariant_tie_loss_edge() {
    // An exact rounding tie on a dust trade whose fee is a single unit
    // can cost one unit of k: the fee-bearing invariant growth needs the
    // fee to outweigh the grown X reserve.
    let (x, y, dx, fee) = (2 * WAD + 1, WAD + 1, 2, 500_000u32);
    let out = get_amount_out(x, y, dx, fee).unwrap();
    assert_eq!(out, 1);
    let k0 = mul_u128_to_u256(x, y);
    let k1 = mul_u128_to_u256(x + dx, y - out);
    assert_eq!(k1.checked_add(&U256::from_u128(1)).unwrap(), k0);
}
