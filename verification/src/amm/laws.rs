//! Kernel-wide laws of the swap engine, stated and proved over the same
//! spec functions that the engine's contracts use: the range of a quoted
//! output, and how the constant product `k = x * y` moves across a trade
//! under the rounding policy.

use vstd::prelude::*;
use vstd::arithmetic::div_mod::*;
use vstd::arithmetic::mul::*;
use super::guardrails::{lemma_round_nearest_even_error, round_nearest_even};
use super::swap::{lemma_estimate_within_reserve, spec_amount_out, spec_fee};
use super::types::{MIN_RESERVE, Wad, Ppm};

verus! {

/// Range law: a successful quote always pays out something, and at most
/// the Y reserve less the floor — strictly less than the whole reserve.
/// An input whose effect rounds to nothing is rejected, never quoted as a
/// free swap.
pub proof fn lemma_quote_out_range(x: Wad, y: Wad, dx: Wad, fee_ppm: Ppm)
    ensures
        spec_amount_out(x, y, dx, fee_ppm) matches Ok(out) ==> 0 < out <= y - MIN_RESERVE < y,
{
    if spec_amount_out(x, y, dx, fee_ppm) is Ok {
        let fee = spec_fee(dx as nat, fee_ppm as nat);
        lemma_estimate_within_reserve(x as nat, y as nat, (x + dx - fee) as nat);
    }
}

/// Invariant conservation at zero fee: the relative drift of
/// `k = x * y` across a successful zero-fee quote is at most one part in
/// 10^9 — in fact at most one part in `2 * MIN_RESERVE - 1`.
pub proof fn lemma_invariant_conserved_zero_fee(x: Wad, y: Wad, dx: Wad)
    ensures
        spec_amount_out(x, y, dx, 0) matches Ok(out) ==> {
            let k0 = (x * y) as int;
            let k1 = (x + dx) * (y - out);
            &&& (if k1 >= k0 {
                k1 - k0
            } else {
                k0 - k1
            }) * 1_000_000_000 <= k0
        },
{
    if spec_amount_out(x, y, dx, 0) is Ok {
        let x1 = (x + dx) as nat;
        let k = (x * y) as nat;
        let y_star = round_nearest_even(k, x1);
        lemma_round_nearest_even_error(k, x1);
        lemma_estimate_within_reserve(x as nat, y as nat, x1);
        let k1 = (x1 as int) * (y_star as int);
        assert(k1 == x1 * y_star);
        // Half-unit rounding error on the estimate.
        assert(2 * k - x1 <= 2 * k1 <= 2 * k + x1) by (nonlinear_arith)
            requires
                2 * k - x1 <= 2 * ((x1 as int) * (y_star as int)),
                2 * ((x1 as int) * (y_star as int)) <= 2 * k + x1,
                k1 == (x1 as int) * (y_star as int),
        ;
        // The estimate keeps the floor, which bounds x1 against k.
        assert(2 * k >= (x1 as int) * (2 * y_star - 1)) by (nonlinear_arith)
            requires
                2 * ((x1 as int) * (y_star as int)) <= 2 * k + x1,
                k1 == (x1 as int) * (y_star as int),
        ;
        assert((x1 as int) * (2 * y_star - 1) >= (x1 as int) * (2 * MIN_RESERVE - 1))
            by (nonlinear_arith)
            requires
                y_star >= MIN_RESERVE,
                x1 >= 1,
        ;
        assert((if k1 >= k {
            k1 - k
        } else {
            k - k1
        }) * 1_000_000_000 <= k) by (nonlinear_arith)
            requires
                2 * k - x1 <= 2 * k1 <= 2 * k + x1,
                2 * k >= (x1 as int) * (2 * MIN_RESERVE - 1),
                MIN_RESERVE == 1_000_000_000_000_000_000,
                x1 >= 1,
        ;
        assert((x + dx) * (y - (y - y_star)) == k1) by (nonlinear_arith)
            requires
                k1 == (x1 as int) * (y_star as int),
                x1 == x + dx,
                y_star <= y,
        ;
    }
}

/// Invariant growth with a fee: whenever the collected fee carries enough
/// weight against the grown X reserve — `x + dx <= 2 * fee * y_star` —
/// a successful fee-bearing quote never decreases `k = x * y`.
///
/// The bound is needed: with a dust input whose fee is a single unit, an
/// exact rounding tie can lose one unit of `k`.
pub proof fn lemma_invariant_grows_with_fee(x: Wad, y: Wad, dx: Wad, fee_ppm: Ppm)
    requires
        fee_ppm > 0,
        ({
            let fee = spec_fee(dx as nat, fee_ppm as nat);
            let x1 = (x + dx - fee) as nat;
            x + dx <= 2 * (spec_fee(dx as nat, fee_ppm as nat) * round_nearest_even(
                (x * y) as nat,
                x1,
            ))
        }),
    ensures
        spec_amount_out(x, y, dx, fee_ppm) matches Ok(out) ==> (x + dx) * (y - out) >= x * y,
{
    if spec_amount_out(x, y, dx, fee_ppm) is Ok {
        let fee = spec_fee(dx as nat, fee_ppm as nat);
        let x1 = (x + dx - fee) as nat;
        let k = (x * y) as nat;
        let y_star = round_nearest_even(k, x1);
        lemma_round_nearest_even_error(k, x1);
        lemma_estimate_within_reserve(x as nat, y as nat, x1);
        assert((x + dx) * (y - (y - y_star)) >= k) by (nonlinear_arith)
            requires
                2 * k - x1 <= 2 * ((x1 as int) * (y_star as int)),
                x + dx == x1 + fee,
                x + dx <= 2 * (fee * y_star),
                y_star <= y,
        ;
    }
}


/// Whatever the fee, a successful quote loses at most half a unit of the
/// grown X reserve from the invariant:
/// `2 * (x + dx) * (y - out) + (x + dx) >= 2 * x * y`.
pub proof fn lemma_invariant_drift_lower_bound(x: Wad, y: Wad, dx: Wad, fee_ppm: Ppm)
    ensures
        spec_amount_out(x, y, dx, fee_ppm) matches Ok(out) ==> 2 * ((x + dx) * (y - out)) + (x
            + dx) >= 2 * (x * y),
{
    if spec_amount_out(x, y, dx, fee_ppm) is Ok {
        let fee = spec_fee(dx as nat, fee_ppm as nat);
        let x1 = (x + dx - fee) as nat;
        let k = (x * y) as nat;
        let y_star = round_nearest_even(k, x1);
        lemma_round_nearest_even_error(k, x1);
        lemma_estimate_within_reserve(x as nat, y as nat, x1);
        assert(2 * ((x + dx) * (y - (y - y_star))) + (x + dx) >= 2 * k) by (nonlinear_arith)
            requires
                2 * k - x1 <= 2 * ((x1 as int) * (y_star as int)),
                x + dx >= x1,
                y_star <= y,
                y_star >= 0,
        ;
    }
}

} // verus!
