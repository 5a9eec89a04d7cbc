//! Liquidity-share issuance and redemption for the constant-product pool:
//! initial mint as the floored square root of the invariant, proportional
//! mint as the floored minimum of the two contributions, and proportional
//! burn as floored payouts that must keep both reserves at or above the
//! floor.

use vstd::prelude::*;
use vstd::arithmetic::div_mod::*;
use vstd::arithmetic::mul::*;
use super::errors::AmmError;
use super::guardrails::{checked_add, checked_sub, ensure_nonzero, ensure_reserves, mul_u128_to_u256, u256_to_u128_checked};
use super::types::{MIN_RESERVE, U256, Wad, lemma_u256_in_range};

verus! {

/// The exact outcome of `add_liquidity`: shares are the floored minimum of
/// the two proportional contributions, so a lopsided deposit cannot dilute
/// existing holders.
pub open spec fn spec_add_liquidity(x: Wad, y: Wad, dx: Wad, dy: Wad, total_shares: Wad) -> Result<
    Wad,
    AmmError,
> {
    if x == 0 || y == 0 {
        Err(AmmError::ZeroReserve)
    } else if x < MIN_RESERVE || y < MIN_RESERVE {
        Err(AmmError::MinReserveBreached)
    } else if dx == 0 || dy == 0 {
        Err(AmmError::ZeroAmount)
    } else if total_shares == 0 {
        Err(AmmError::Overflow)
    } else {
        let sx = dx * total_shares / (x as int);
        let sy = dy * total_shares / (y as int);
        let mint = if sx <= sy {
            sx
        } else {
            sy
        };
        if mint > u128::MAX {
            Err(AmmError::Overflow)
        } else if mint == 0 {
            Err(AmmError::InputTooSmall)
        } else if x + dx > u128::MAX || y + dy > u128::MAX {
            Err(AmmError::Overflow)
        } else {
            Ok(mint as u128)
        }
    }
}

/// The exact outcome of `remove_liquidity`: both payouts floored, the
/// remaining reserves held at or above the floor.
pub open spec fn spec_remove_liquidity(x: Wad, y: Wad, burn_shares: Wad, total_shares: Wad) -> Result<
    (Wad, Wad),
    AmmError,
> {
    if x == 0 || y == 0 {
        Err(AmmError::ZeroReserve)
    } else if x < MIN_RESERVE || y < MIN_RESERVE {
        Err(AmmError::MinReserveBreached)
    } else if burn_shares == 0 {
        Err(AmmError::ZeroAmount)
    } else if total_shares == 0 || burn_shares > total_shares {
        Err(AmmError::Overflow)
    } else {
        let x_out = x * burn_shares / (total_shares as int);
        let y_out = y * burn_shares / (total_shares as int);
        if x - x_out < MIN_RESERVE || y - y_out < MIN_RESERVE {
            Err(AmmError::MinReserveBreached)
        } else if x_out == 0 && y_out == 0 {
            Err(AmmError::InputTooSmall)
        } else {
            Ok((x_out as u128, y_out as u128))
        }
    }
}

/// Floored integer square root by binary search over the monotone
/// predicate `mid * mid <= n`.
fn isqrt_u256(n: U256) -> (s: u128)
    ensures
        s * s <= n.val(),
        n.val() < (s + 1) * (s + 1),
{
    proof {
        lemma_u256_in_range(n);
        assert((u128::MAX + 1) * (u128::MAX + 1) == U256::value_bound());
    }
    let mut lo: u128 = 0;
    let mut hi: u128 = u128::MAX;
    while lo < hi
        invariant
            lo <= hi,
            lo * lo <= n.val(),
            n.val() < (hi + 1) * (hi + 1),
        decreases hi - lo,
    {
        let mid = lo + (hi - lo) / 2 + (hi - lo) % 2;
        let sq = mul_u128_to_u256(mid, mid);
        if sq.le(&n) {
            lo = mid;
        } else {
            hi = mid - 1;
        }
    }
    lo
}

/// Initial share issuance for a fresh pool: `floor(sqrt(x * y))`.
///
/// With both reserves at or above the floor, the issuance is itself at or
/// above the floor, and in particular never zero.
pub fn initial_mint(x: Wad, y: Wad) -> (res: Result<Wad, AmmError>)
    ensures
        res is Ok <==> (x >= MIN_RESERVE && y >= MIN_RESERVE),
        res matches Ok(s) ==> {
            &&& s * s <= x * y
            &&& x * y < (s + 1) * (s + 1)
            &&& s >= MIN_RESERVE
        },
        res == Result::<Wad, AmmError>::Err(AmmError::ZeroReserve) <==> (x == 0 || y == 0),
        res == Result::<Wad, AmmError>::Err(AmmError::MinReserveBreached) <==> ((x > 0 && y > 0)
            && (x < MIN_RESERVE || y < MIN_RESERVE)),
{
    match ensure_reserves(x, y) {
        Err(e) => {
            return Err(e);
        },
        _ => {},
    }
    let k = mul_u128_to_u256(x, y);
    let shares = isqrt_u256(k);
    proof {
        // Both reserves clear the floor, so the root does too.
        assert(x * y >= MIN_RESERVE * MIN_RESERVE) by (nonlinear_arith)
            requires
                x >= MIN_RESERVE,
                y >= MIN_RESERVE,
        ;
        assert(shares + 1 > MIN_RESERVE) by (nonlinear_arith)
            requires
                (shares + 1) * (shares + 1) > x * y,
                x * y >= MIN_RESERVE * MIN_RESERVE,
        ;
    }
    if shares == 0 {
        return Err(AmmError::InputTooSmall);
    }
    Ok(shares)
}

/// Proportional mint into an existing pool:
/// `floor(min(dx * S / x, dy * S / y))` with `S = total_shares`.
pub fn add_liquidity(x: Wad, y: Wad, dx: Wad, dy: Wad, total_shares: Wad) -> (res: Result<
    Wad,
    AmmError,
>)
    ensures
        res == spec_add_liquidity(x, y, dx, dy, total_shares),
{
    match ensure_reserves(x, y) {
        Err(e) => {
            return Err(e);
        },
        _ => {},
    }
    match ensure_nonzero(dx) {
        Err(e) => {
            return Err(e);
        },
        _ => {},
    }
    match ensure_nonzero(dy) {
        Err(e) => {
            return Err(e);
        },
        _ => {},
    }
    if total_shares == 0 {
        // Misuse: a proportional mint needs an initialized pool.
        return Err(AmmError::Overflow);
    }
    let s = mul_u128_to_u256(dx, total_shares);
    let (sx, _rx) = s.div_rem(&U256::from_u128(x));
    let t = mul_u128_to_u256(dy, total_shares);
    let (sy, _ry) = t.div_rem(&U256::from_u128(y));
    let mint_wide = if sx.lt(&sy) {
        sx
    } else {
        sy
    };
    let mint = match u256_to_u128_checked(mint_wide) {
        Ok(v) => v,
        Err(e) => {
            return Err(e);
        },
    };
    if mint == 0 {
        return Err(AmmError::InputTooSmall);
    }
    // Safety postcondition: the grown reserves stay in the 128-bit domain.
    let _x1 = match checked_add(x, dx) {
        Ok(v) => v,
        Err(e) => {
            return Err(e);
        },
    };
    let _y1 = match checked_add(y, dy) {
        Ok(v) => v,
        Err(e) => {
            return Err(e);
        },
    };
    Ok(mint)
}

/// Proportional burn: pays out `floor(x * burn / S)` and
/// `floor(y * burn / S)`, refusing to drain either reserve below the
/// floor even for the pool's own liquidity providers.
pub fn remove_liquidity(x: Wad, y: Wad, burn_shares: Wad, total_shares: Wad) -> (res: Result<
    (Wad, Wad),
    AmmError,
>)
    ensures
        res == spec_remove_liquidity(x, y, burn_shares, total_shares),
        res matches Ok(outs) ==> {
            &&& outs.0 <= x - MIN_RESERVE
            &&& outs.1 <= y - MIN_RESERVE
        },
{
    match ensure_reserves(x, y) {
        Err(e) => {
            return Err(e);
        },
        _ => {},
    }
    match ensure_nonzero(burn_shares) {
        Err(e) => {
            return Err(e);
        },
        _ => {},
    }
    if total_shares == 0 {
        return Err(AmmError::Overflow);
    }
    if burn_shares > total_shares {
        return Err(AmmError::Overflow);
    }
    proof {
        lemma_payout_within_reserve(x as nat, burn_shares as nat, total_shares as nat);
        lemma_payout_within_reserve(y as nat, burn_shares as nat, total_shares as nat);
    }
    let bx = mul_u128_to_u256(x, burn_shares);
    let (x_out_wide, _rx) = bx.div_rem(&U256::from_u128(total_shares));
    let by = mul_u128_to_u256(y, burn_shares);
    let (y_out_wide, _ry) = by.div_rem(&U256::from_u128(total_shares));
    let x_out = match u256_to_u128_checked(x_out_wide) {
        Ok(v) => v,
        Err(e) => {
            return Err(e);
        },
    };
    let y_out = match u256_to_u128_checked(y_out_wide) {
        Ok(v) => v,
        Err(e) => {
            return Err(e);
        },
    };
    // Neither remaining reserve may fall below the floor.
    let x1 = match checked_sub(x, x_out) {
        Ok(v) => v,
        Err(e) => {
            return Err(e);
        },
    };
    let y1 = match checked_sub(y, y_out) {
        Ok(v) => v,
        Err(e) => {
            return Err(e);
        },
    };
    if x1 < MIN_RESERVE || y1 < MIN_RESERVE {
        return Err(AmmError::MinReserveBreached);
    }
    if x_out == 0 && y_out == 0 {
        return Err(AmmError::InputTooSmall);
    }
    Ok((x_out, y_out))
}

/// Burning no more than the total shares pays out no more than the
/// reserve itself.
proof fn lemma_payout_within_reserve(x: nat, burn: nat, total: nat)
    requires
        total >= 1,
        burn <= total,
    ensures
        x * burn / total <= x,
{
    lemma_mul_inequality(burn as int, total as int, x as int);
    lemma_mul_is_commutative(burn as int, x as int);
    lemma_mul_is_commutative(total as int, x as int);
    lemma_div_is_ordered((x * burn) as int, (x * total) as int, total as int);
    lemma_div_multiples_vanish(x as int, total as int);
    lemma_mul_is_commutative(total as int, x as int);
}

} // verus!
