//! Reference oracle: the unbounded-integer policy re-derivation, the
//! continuous formulas, and the golden comparison bundles.

use credit_engine_core::amm::ref_golden::{
    continuous_amount_in, continuous_amount_out, golden_amount_in, golden_amount_out,
    policy_amount_in, policy_amount_out,
};
use credit_engine_core::amm::swap::{get_amount_in, get_amount_out};
use credit_engine_core::amm::types::{Ppm, WAD};
use num_bigint::BigInt;
use num_rational::BigRational;
use num_traits::{ToPrimitive, Zero};

const FEE0: Ppm = 0;
const FEE3: Ppm = 3000; // 0.30%

#[test]
fn t_policy_matches_core_out() {
    let (x, y, dx) = (1_000_000u128 * WAD, 1_000_000u128 * WAD, 10_000u128 * WAD);
    let core = get_amount_out(x, y, dx, FEE3).unwrap();
    let pol = policy_amount_out(x, y, dx, FEE3).unwrap();
    assert_eq!(core, pol);
}

#[test]
fn t_policy_out_matches_core_no_fee() {
    let (x, y, dx) = (1_000u128 * WAD, 1_000_000_000u128 * WAD, 100u128 * WAD);
    let core = get_amount_out(x, y, dx, FEE0).unwrap();
    let pol = policy_amount_out(x, y, dx, FEE0).unwrap();
    assert_eq!(core, pol);
}

#[test]
fn t_policy_matches_core_in() {
    let (x, y, dy) = (1_000_000u128 * WAD, 1_000_000u128 * WAD, 9_870u128 * WAD);
    let core = get_amount_in(x, y, dy, FEE3).unwrap();
    let pol = policy_amount_in(x, y, dy, FEE3).unwrap();
    assert_eq!(core, pol);
}

#[test]
fn t_continuous_delta_k_is_zero() {
    let (x, y, dx) = (1_000_000u128 * WAD, 1_000_000u128 * WAD, 10_000u128 * WAD);
    let out_cont = continuous_amount_out(x, y, dx, FEE3).unwrap();
    // In the continuous model (no quantization) k' == k exactly; the
    // floored value is a sane quantity.
    let out_floor = out_cont.floor().to_integer().to_u128().unwrap();
    assert!(out_floor <= x);
    assert_eq!(out_floor, 9_871_580_343_970_612_988_504u128);
}

#[test]
fn t_continuous_in_matches_closed_form() {
    let (x, y, dy) = (1_000_000u128 * WAD, 1_000_000u128 * WAD, 9_870u128 * WAD);
    let in_cont = continuous_amount_in(x, y, dy, FEE3).unwrap();
    let ceil = in_cont.ceil().to_integer().to_u128().unwrap();
    assert_eq!(ceil, 9_998_383_138_872_547_672_408u128);
}

#[test]
fn t_golden_out_bundle() {
    let g = golden_amount_out(
        1_000_000u128 * WAD,
        1_000_000u128 * WAD,
        10_000u128 * WAD,
        FEE3,
    )
    .unwrap();
    assert_eq!(g.out_core, g.out_policy);
    assert_eq!(g.out_core, 9_871_580_343_970_612_988_505u128);
    assert_eq!(g.out_cont_floor, 9_871_580_343_970_612_988_504u128);
    // dk/k of the engine quote must be >= 0 (monotone with a fee)
    assert!(g.dk_over_k_core >= BigRational::from_integer(BigInt::zero()));
}

#[test]
fn t_golden_in_bundle() {
    let g = golden_amount_in(
        1_000_000u128 * WAD,
        1_000_000u128 * WAD,
        9_870u128 * WAD,
        FEE3,
    )
    .unwrap();
    assert_eq!(g.in_core, g.in_policy);
    assert_eq!(g.in_core, 9_998_383_138_872_547_672_408u128);
    assert_eq!(g.in_cont_ceil, 9_998_383_138_872_547_672_408u128);
    assert!(g.dk_over_k_core >= BigRational::from_integer(BigInt::zero()));
}
