//! Pure swap quoting for the constant-product rule `x * y = k`, trading
//! X for Y with the fee charged on the input:
//! - `get_amount_out`: output amount for a given gross input;
//! - `get_amount_in`: smallest gross input that delivers at least the
//!   requested output, found by seeding a closed-form candidate, doubling
//!   it into an upper bound, and binary-searching the boundary.
//!
//! Rounding policy: the input fee rounds up, the internal division of the
//! invariant rounds to nearest with ties to even, and the output falls out
//! floored as an exact integer difference.

use vstd::prelude::*;
use vstd::arithmetic::div_mod::*;
use vstd::arithmetic::mul::*;
use super::errors::AmmError;
use super::guardrails::{
    lemma_round_nearest_even_antitone,
    checked_add,
    checked_sub,
    div_nearest_even_u256_to_u128,
    ensure_nonzero,
    ensure_reserves,
    mul_u128_to_u256,
    round_nearest_even,
    u256_to_u128_checked,
};
use super::types::{MIN_RESERVE, PPM_SCALE, Ppm, U256, Wad};

verus! {

/// Ceiling division for nonnegative operands.
pub open spec fn div_ceil(n: nat, d: nat) -> nat
    recommends
        d > 0,
{
    (n + d - 1) as nat / d
}

/// The fee charged on a gross input of `dx` at `fee_ppm`: rounded up, so
/// the protocol never under-collects.
pub open spec fn spec_fee(dx: nat, fee_ppm: nat) -> nat {
    if fee_ppm == 0 {
        0
    } else {
        div_ceil(dx * fee_ppm, PPM_SCALE as nat)
    }
}

/// The exact outcome of `get_amount_out`: the checks in order, then the
/// fee-reduced input, the nearest-even post-trade estimate of Y, and the
/// floored output, refused when it would drain Y below the floor or when
/// rounding collapses it to zero.
pub open spec fn spec_amount_out(x: Wad, y: Wad, dx: Wad, fee_ppm: Ppm) -> Result<Wad, AmmError> {
    if x == 0 || y == 0 {
        Err(AmmError::ZeroReserve)
    } else if x < MIN_RESERVE || y < MIN_RESERVE {
        Err(AmmError::MinReserveBreached)
    } else if dx == 0 {
        Err(AmmError::ZeroAmount)
    } else if spec_fee(dx as nat, fee_ppm as nat) > dx {
        Err(AmmError::Overflow)
    } else if dx == spec_fee(dx as nat, fee_ppm as nat) {
        Err(AmmError::InputTooSmall)
    } else if x + dx - spec_fee(dx as nat, fee_ppm as nat) > u128::MAX {
        Err(AmmError::Overflow)
    } else {
        let x1 = (x + dx - spec_fee(dx as nat, fee_ppm as nat)) as nat;
        let y_star = round_nearest_even((x * y) as nat, x1);
        if y_star < MIN_RESERVE {
            Err(AmmError::MinReserveBreached)
        } else if y_star == y {
            Err(AmmError::InputTooSmall)
        } else {
            Ok((y - y_star) as u128)
        }
    }
}

/// The output that a gross input `dx` realizes, an unsuccessful quote
/// counting as zero.
pub open spec fn spec_out_or_zero(x: Wad, y: Wad, dx: Wad, fee_ppm: Ppm) -> nat {
    match spec_amount_out(x, y, dx, fee_ppm) {
        Ok(out) => out as nat,
        Err(_) => 0,
    }
}

/// Some input within half the 128-bit domain satisfies the request
/// together with its double: enough room for a doubling search to land
/// inside the contiguous satisfying window instead of jumping over it.
pub open spec fn spec_reachable_target(x: Wad, y: Wad, dy: Wad, fee_ppm: Ppm) -> bool {
    exists|w: Wad|
        1 <= w <= u128::MAX / 2 && #[trigger] spec_out_or_zero(x, y, w, fee_ppm) >= dy
            && spec_out_or_zero(x, y, (2 * w) as u128, fee_ppm) >= dy
}

/// `dx` is a minimal satisfying input for the request `dy`: it quotes
/// successfully with at least `dy` out, and one unit less does not reach
/// `dy` (an unsuccessful quote counting as zero output).
pub open spec fn spec_min_input(x: Wad, y: Wad, dy: Wad, fee_ppm: Ppm, dx: Wad) -> bool {
    &&& dx >= 1
    &&& spec_amount_out(x, y, dx, fee_ppm) matches Ok(out) && out >= dy
    &&& spec_out_or_zero(x, y, (dx - 1) as u128, fee_ppm) < dy
}

/// The nearest-even estimate of the post-trade Y reserve never exceeds
/// the current reserve, because the invariant divided by the grown X
/// reserve is strictly below Y.
pub(crate) proof fn lemma_estimate_within_reserve(x: nat, y: nat, x1: nat)
    requires
        y >= 1,
        x1 > x,
    ensures
        round_nearest_even((x * y) as nat, x1) <= y,
{
    let k = (x * y) as nat;
    assert(k < x1 * y) by (nonlinear_arith)
        requires
            x1 > x,
            y >= 1,
            k == x * y,
    ;
    lemma_multiply_divide_lt(k as int, x1 as int, y as int);
    lemma_mod_division_less_than_divisor(k as int, x1 as int);
}

/// Ceiling division in the 256-bit intermediate, as `(n + d - 1) / d`.
pub(crate) fn ceil_div_u256(n: U256, d: U256) -> (r: U256)
    requires
        d.val() >= 1,
        n.val() + d.val() <= U256::value_bound(),
    ensures
        r.val() == div_ceil(n.val(), d.val()),
{
    let dm1 = d.checked_sub(&U256::from_u128(1)).unwrap();
    let sum = n.checked_add(&dm1).unwrap();
    let (q, _rem) = sum.div_rem(&d);
    q
}

/// The fee on the input, rounded up, computed in the wide intermediate;
/// fails with `Overflow` when the fee itself leaves the 128-bit domain.
pub fn fee_on_input_ceil(dx: Wad, fee_ppm: Ppm) -> (res: Result<Wad, AmmError>)
    ensures
        spec_fee(dx as nat, fee_ppm as nat) <= u128::MAX ==> res == Result::<Wad, AmmError>::Ok(
            spec_fee(dx as nat, fee_ppm as nat) as u128,
        ),
        spec_fee(dx as nat, fee_ppm as nat) > u128::MAX ==> res == Result::<Wad, AmmError>::Err(
            AmmError::Overflow,
        ),
{
    if fee_ppm == 0 {
        return Ok(0);
    }
    let n = mul_u128_to_u256(dx, fee_ppm as u128);
    proof {
        lemma_mul_upper_bound(dx as int, u128::MAX as int, fee_ppm as int, u32::MAX as int);
    }
    let q = ceil_div_u256(n, U256::from_u128(PPM_SCALE as u128));
    u256_to_u128_checked(q)
}

/// Quotes the output of swapping a gross `dx` of X for Y.
///
/// On success the output is positive — an input so small that rounding
/// collapses its effect to nothing is rejected as `InputTooSmall` — and
/// never drains Y below the reserve floor: `out <= y - MIN_RESERVE`.
pub fn get_amount_out(x: Wad, y: Wad, dx: Wad, fee_ppm: Ppm) -> (res: Result<Wad, AmmError>)
    ensures
        res == spec_amount_out(x, y, dx, fee_ppm),
        res matches Ok(out) ==> 1 <= out <= y - MIN_RESERVE,
{
    match ensure_reserves(x, y) {
        Err(e) => {
            return Err(e);
        },
        _ => {},
    }
    match ensure_nonzero(dx) {
        Err(e) => {
            return Err(e);
        },
        _ => {},
    }
    // Fee on the input, rounded up.
    let dx_fee = match fee_on_input_ceil(dx, fee_ppm) {
        Ok(f) => f,
        Err(e) => {
            return Err(e);
        },
    };
    let dx_net = match checked_sub(dx, dx_fee) {
        Ok(v) => v,
        Err(e) => {
            return Err(e);
        },
    };
    if dx_net == 0 {
        return Err(AmmError::InputTooSmall);
    }
    // x' = x + dx_net, checked.
    let x1 = match checked_add(x, dx_net) {
        Ok(v) => v,
        Err(e) => {
            return Err(e);
        },
    };
    // y* = round_nearest_even(x * y / x') in 256 bits, back to 128.
    let k = mul_u128_to_u256(x, y);
    proof {
        lemma_estimate_within_reserve(x as nat, y as nat, x1 as nat);
    }
    let y_star = match div_nearest_even_u256_to_u128(k, U256::from_u128(x1)) {
        Ok(v) => v,
        Err(e) => {
            return Err(e);
        },
    };
    // out = y - y*, an exact integer difference: the floor.
    let out = match checked_sub(y, y_star) {
        Ok(v) => v,
        Err(e) => {
            return Err(e);
        },
    };
    // The remaining Y reserve must keep the floor.
    let y1 = match checked_sub(y, out) {
        Ok(v) => v,
        Err(e) => {
            return Err(e);
        },
    };
    if y1 < MIN_RESERVE {
        return Err(AmmError::MinReserveBreached);
    }
    if out == 0 {
        // The estimate rounded back to the full reserve: the input's
        // effect collapsed to zero.
        return Err(AmmError::InputTooSmall);
    }
    Ok(out)
}

/// Quotes the smallest gross input `dx` such that
/// `get_amount_out(x, y, dx, fee_ppm)` delivers at least `dy`.
///
/// Minimality is a hard contract: on success, `dx` satisfies the request
/// and `dx - 1` does not (an unsuccessful quote counting as zero output);
/// the satisfying inputs form one contiguous window, so that minimal
/// input is unique. The closed-form candidate only seeds the search, and
/// success is owed whenever some input and its double both satisfy the
/// request: then the doubling cannot jump over the window. Otherwise the
/// search may exhaust the 128-bit domain and fail with `Overflow`.
pub fn get_amount_in(x: Wad, y: Wad, dy: Wad, fee_ppm: Ppm) -> (res: Result<Wad, AmmError>)
    ensures
        res matches Ok(dx) ==> spec_min_input(x, y, dy, fee_ppm, dx),
        res == Result::<Wad, AmmError>::Err(AmmError::ZeroReserve) <==> (x == 0 || y == 0),
        res == Result::<Wad, AmmError>::Err(AmmError::MinReserveBreached) <==> ((x > 0 && y > 0)
            && (x < MIN_RESERVE || y < MIN_RESERVE || (dy > 0 && dy >= y - MIN_RESERVE))),
        res == Result::<Wad, AmmError>::Err(AmmError::ZeroAmount) <==> (x >= MIN_RESERVE && y
            >= MIN_RESERVE && dy == 0),
        res == Result::<Wad, AmmError>::Err(AmmError::InputTooSmall) <==> (x >= MIN_RESERVE && y
            >= MIN_RESERVE && 0 < dy < y - MIN_RESERVE && fee_ppm >= PPM_SCALE),
        res == Result::<Wad, AmmError>::Err(AmmError::Overflow) ==> (x >= MIN_RESERVE && y
            >= MIN_RESERVE && 0 < dy < y - MIN_RESERVE && fee_ppm < PPM_SCALE),
        (x >= MIN_RESERVE && y >= MIN_RESERVE && 0 < dy < y - MIN_RESERVE && fee_ppm < PPM_SCALE
            && spec_reachable_target(x, y, dy, fee_ppm)) ==> res is Ok,
{
    match ensure_reserves(x, y) {
        Err(e) => {
            return Err(e);
        },
        _ => {},
    }
    match ensure_nonzero(dy) {
        Err(e) => {
            return Err(e);
        },
        _ => {},
    }
    // The request may not drain the pool below the floor.
    if dy >= y - MIN_RESERVE {
        return Err(AmmError::MinReserveBreached);
    }
    // A 100% fee swallows any input.
    if fee_ppm >= PPM_SCALE {
        return Err(AmmError::InputTooSmall);
    }
    // Closed-form candidate: dx_net = ceil(x * dy / (y - dy)), grossed up
    // by the fee factor. It only seeds the upper bound of the search.
    let num = mul_u128_to_u256(x, dy);
    let den = y - dy;
    proof {
        lemma_mul_upper_bound(x as int, u128::MAX as int, dy as int, u128::MAX as int);
    }
    let dx_net_seed = ceil_div_u256(num, U256::from_u128(den));
    let mut hi: Wad = 1;
    if dx_net_seed.fits_u128() {
        let gross_num = mul_u128_to_u256(dx_net_seed.lo, PPM_SCALE as u128);
        proof {
            lemma_mul_upper_bound(
                dx_net_seed.lo as int,
                u128::MAX as int,
                PPM_SCALE as int,
                PPM_SCALE as int,
            );
        }
        let gross = ceil_div_u256(gross_num, U256::from_u128((PPM_SCALE - fee_ppm) as u128));
        if gross.fits_u128() && gross.lo > 0 {
            hi = gross.lo;
        }
    }
    // Expand the upper bound until it satisfies the request.
    let mut out_hi = match get_amount_out(x, y, hi, fee_ppm) {
        Ok(v) => v,
        Err(_) => 0,
    };
    if out_hi < dy && hi > 1 {
        // The closed-form candidate missed: restart the upper bound from
        // the smallest input, so that the doubling below cannot jump over
        // the satisfying window.
        hi = 1;
        out_hi = match get_amount_out(x, y, 1, fee_ppm) {
            Ok(v) => v,
            Err(_) => 0,
        };
    }
    while out_hi < dy
        invariant
            hi >= 1,
            out_hi == spec_out_or_zero(x, y, hi, fee_ppm),
            x >= MIN_RESERVE,
            y >= MIN_RESERVE,
            1 <= dy < y - MIN_RESERVE,
            fee_ppm < PPM_SCALE,
            out_hi < dy ==> forall|w: Wad|
                (1 <= w <= u128::MAX / 2 && #[trigger] spec_out_or_zero(x, y, w, fee_ppm) >= dy
                    && spec_out_or_zero(x, y, (2 * w) as u128, fee_ppm) >= dy) ==> hi <= w,
        decreases u128::MAX - hi,
    {
        let ghost hi_prev: Wad = hi;
        hi = match hi.checked_mul(2) {
            Some(v) => v,
            None => {
                proof {
                    // Every reachable witness sits at or above the current
                    // bound, yet the bound has outgrown the witness domain.
                    if spec_reachable_target(x, y, dy, fee_ppm) {
                        let w = choose|w: Wad|
                            1 <= w <= u128::MAX / 2 && #[trigger] spec_out_or_zero(
                                x,
                                y,
                                w,
                                fee_ppm,
                            ) >= dy && spec_out_or_zero(x, y, (2 * w) as u128, fee_ppm) >= dy;
                        assert(hi <= w);
                        assert(false);
                    }
                }
                return Err(AmmError::Overflow);
            },
        };
        out_hi = match get_amount_out(x, y, hi, fee_ppm) {
            Ok(v) => v,
            Err(_) => 0,
        };
        proof {
            // A doubled bound that still falls short cannot have crossed a
            // witness's window, so it is still below every witness.
            if out_hi < dy {
                assert forall|w: Wad|
                    (1 <= w <= u128::MAX / 2 && #[trigger] spec_out_or_zero(x, y, w, fee_ppm)
                        >= dy && spec_out_or_zero(x, y, (2 * w) as u128, fee_ppm)
                        >= dy) implies hi <= w by {
                    if w <= hi {
                        lemma_quote_out_window(x, y, dy, fee_ppm, w, hi, (2 * w) as u128);
                    }
                }
            }
        }
    }
    // Binary search for the boundary: the smallest dx whose output
    // reaches dy, ties broken toward the smaller input.
    let mut lo: Wad = 0;
    proof {
        assert(spec_out_or_zero(x, y, 0, fee_ppm) == 0);
    }
    while hi - lo > 1
        invariant
            lo < hi,
            spec_out_or_zero(x, y, hi, fee_ppm) >= dy,
            spec_out_or_zero(x, y, lo, fee_ppm) < dy,
            dy >= 1,
        decreases hi - lo,
    {
        let mid = lo + (hi - lo) / 2;
        let out_mid = match get_amount_out(x, y, mid, fee_ppm) {
            Ok(v) => v,
            Err(_) => 0,
        };
        if out_mid >= dy {
            hi = mid;
        } else {
            lo = mid;
        }
    }
    Ok(hi)
}


/// With a fee rate of at most 100%, the collected fee never exceeds the
/// input it is charged on.
pub proof fn lemma_fee_within_input(dx: nat, fee_ppm: nat)
    requires
        fee_ppm <= PPM_SCALE,
    ensures
        spec_fee(dx, fee_ppm) <= dx,
{
    if fee_ppm != 0 {
        let p = PPM_SCALE as nat;
        if dx == 0 {
            lemma_basic_div((p - 1) as int, p as int);
            assert(dx * fee_ppm == 0) by (nonlinear_arith)
                requires
                    dx == 0,
            ;
        } else {
            lemma_mul_left_inequality(dx as int, fee_ppm as int, p as int);
            lemma_div_is_ordered(
                (dx * fee_ppm + p - 1) as int,
                (dx * p + p - 1) as int,
                p as int,
            );
            lemma_mul_is_commutative(dx as int, p as int);
            lemma_div_multiples_vanish_fancy(dx as int, (p - 1) as int, p as int);
        }
    }
}

/// The fee rounds up: scaled back to the full PPM range it never falls
/// short of the exact proportional fee, so the protocol never
/// under-collects.
pub proof fn lemma_fee_never_undercollects(dx: nat, fee_ppm: nat)
    ensures
        spec_fee(dx, fee_ppm) * (PPM_SCALE as nat) >= dx * fee_ppm,
{
    if fee_ppm == 0 {
        assert(dx * fee_ppm == 0) by (nonlinear_arith)
            requires
                fee_ppm == 0,
        ;
    } else {
        let p = PPM_SCALE as nat;
        let n = dx * fee_ppm;
        lemma_fundamental_div_mod((n + p - 1) as int, p as int);
        lemma_mod_division_less_than_divisor((n + p - 1) as int, p as int);
        lemma_mul_is_commutative(((n + p - 1) as nat / p) as int, p as int);
    }
}

/// One more unit of input raises the rounded-up fee by at most one unit,
/// so the net input never shrinks as the gross input grows.
pub proof fn lemma_fee_step(dx: nat, fee_ppm: nat)
    requires
        fee_ppm <= PPM_SCALE,
    ensures
        spec_fee((dx + 1) as nat, fee_ppm) <= spec_fee(dx, fee_ppm) + 1,
{
    if fee_ppm != 0 {
        let p = PPM_SCALE as nat;
        assert((dx + 1) * fee_ppm == dx * fee_ppm + fee_ppm) by (nonlinear_arith);
        lemma_div_is_ordered(
            (dx * fee_ppm + fee_ppm + p - 1) as int,
            (dx * fee_ppm + p + p - 1) as int,
            p as int,
        );
        lemma_div_plus_one((dx * fee_ppm + p - 1) as int, p as int);
    }
}


/// The net input never shrinks as the gross input grows: each extra unit
/// of input raises the rounded-up fee by at most one unit.
pub proof fn lemma_net_monotone(dx1: nat, dx2: nat, fee_ppm: nat)
    requires
        fee_ppm <= PPM_SCALE,
        dx1 <= dx2,
    ensures
        dx1 - spec_fee(dx1, fee_ppm) <= dx2 - spec_fee(dx2, fee_ppm),
    decreases dx2 - dx1,
{
    if dx1 < dx2 {
        lemma_net_monotone(dx1, (dx2 - 1) as nat, fee_ppm);
        lemma_fee_step((dx2 - 1) as nat, fee_ppm);
    }
}

/// A successful quote certifies that the fee rate was within the PPM
/// scale: above it, the rounded-up fee exceeds the input itself.
pub proof fn lemma_ok_fee_bounded(x: Wad, y: Wad, dx: Wad, fee_ppm: Ppm)
    ensures
        spec_amount_out(x, y, dx, fee_ppm) is Ok ==> fee_ppm <= PPM_SCALE,
{
    if spec_amount_out(x, y, dx, fee_ppm) is Ok && fee_ppm > PPM_SCALE {
        let p = PPM_SCALE as nat;
        let n = (dx * fee_ppm) as nat;
        assert(n >= dx * p + dx) by (nonlinear_arith)
            requires
                fee_ppm >= p + 1,
                dx >= 1,
                n == dx * fee_ppm,
        ;
        lemma_mul_is_commutative(dx as int, p as int);
        lemma_div_by_multiple((dx + 1) as int, p as int);
        lemma_div_is_ordered(((dx + 1) * p) as int, (n + p - 1) as int, p as int);
        assert(spec_fee(dx as nat, fee_ppm as nat) > dx);
        assert(false);
    }
}

/// The inputs that satisfy a request form one contiguous window: if two
/// gross inputs both quote successfully with at least `dy` out, so does
/// every input between them. The net input and the grown X reserve are
/// monotone in the input, and the nearest-even estimate is antitone in
/// the reserve, so the output is monotone wherever it is defined.
pub proof fn lemma_quote_out_window(x: Wad, y: Wad, dy: Wad, fee_ppm: Ppm, lo: Wad, mid: Wad, hi: Wad)
    requires
        1 <= lo <= mid <= hi,
        dy >= 1,
        spec_out_or_zero(x, y, lo, fee_ppm) >= dy,
        spec_out_or_zero(x, y, hi, fee_ppm) >= dy,
    ensures
        spec_amount_out(x, y, mid, fee_ppm) matches Ok(out) && out >= dy,
        spec_out_or_zero(x, y, mid, fee_ppm) >= dy,
{
    lemma_ok_fee_bounded(x, y, lo, fee_ppm);
    assert(spec_amount_out(x, y, lo, fee_ppm) is Ok);
    assert(spec_amount_out(x, y, hi, fee_ppm) is Ok);
    let fl = spec_fee(lo as nat, fee_ppm as nat);
    let fm = spec_fee(mid as nat, fee_ppm as nat);
    let fh = spec_fee(hi as nat, fee_ppm as nat);
    lemma_net_monotone(lo as nat, mid as nat, fee_ppm as nat);
    lemma_net_monotone(mid as nat, hi as nat, fee_ppm as nat);
    // The successful endpoints fix the branch conditions in between.
    assert(fl < lo);
    assert(fm < mid);
    assert(x + hi - fh <= u128::MAX);
    assert(x + mid - fm <= u128::MAX);
    let k = (x * y) as nat;
    let x1_lo = (x + lo - fl) as nat;
    let x1_mid = (x + mid - fm) as nat;
    let x1_hi = (x + hi - fh) as nat;
    let yl = round_nearest_even(k, x1_lo);
    let ym = round_nearest_even(k, x1_mid);
    let yh = round_nearest_even(k, x1_hi);
    lemma_round_nearest_even_antitone(k, x1_lo, x1_mid);
    lemma_round_nearest_even_antitone(k, x1_mid, x1_hi);
    lemma_estimate_within_reserve(x as nat, y as nat, x1_lo);
    lemma_estimate_within_reserve(x as nat, y as nat, x1_mid);
    assert(ym <= yl);
    assert(yh <= ym);
    // The lower endpoint bounds the estimate from above, the upper one
    // keeps it over the floor.
    assert(yl <= y - dy);
    assert(yh >= MIN_RESERVE);
    assert(spec_amount_out(x, y, mid, fee_ppm) == Result::<Wad, AmmError>::Ok((y - ym) as u128));
    assert(y - ym >= dy);
}

/// A request has at most one minimal satisfying input: two of them would
/// bracket a window in which the smaller sits strictly below the larger,
/// contradicting the larger one's own boundary.
pub proof fn lemma_min_input_unique(x: Wad, y: Wad, dy: Wad, fee_ppm: Ppm, w1: Wad, w2: Wad)
    requires
        dy >= 1,
        spec_min_input(x, y, dy, fee_ppm, w1),
        spec_min_input(x, y, dy, fee_ppm, w2),
    ensures
        w1 == w2,
{
    if w1 < w2 {
        lemma_quote_out_window(x, y, dy, fee_ppm, w1, (w2 - 1) as u128, w2);
    }
    if w2 < w1 {
        lemma_quote_out_window(x, y, dy, fee_ppm, w2, (w1 - 1) as u128, w1);
    }
}

} // verus!
