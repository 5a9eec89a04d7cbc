//! Mapping between raw swap inputs and the error code the kernel would
//! raise for them, for callers that want to pre-classify an operation.

use vstd::prelude::*;
use super::error::AmmError;
use super::error_catalog::AmmErrorCode;

verus! {

/// Basis-point scale used by this classifier.
pub const BPS_SCALE: u128 = 10_000;

/// The error code that a swap over the given raw inputs would raise, or
/// `None` when the inputs pass every check. The fee is quoted in basis
/// points and floored, as this classifier's callers supply it.
pub open spec fn spec_swap_input_error(
    dx: u128,
    reserves: (u128, u128),
    min_reserve: u128,
    fee_bps: u32,
) -> Option<AmmErrorCode> {
    if dx == 0 {
        Some(AmmErrorCode::ZeroAmount)
    } else if reserves.0 == 0 || reserves.1 == 0 {
        Some(AmmErrorCode::ZeroReserve)
    } else if reserves.0 <= min_reserve || reserves.1 <= min_reserve {
        Some(AmmErrorCode::MinReserveBreached)
    } else if dx * fee_bps > u128::MAX {
        Some(AmmErrorCode::OverflowNumeric)
    } else if dx * fee_bps / (BPS_SCALE as int) > dx {
        Some(AmmErrorCode::OverflowNumeric)
    } else if dx - dx * fee_bps / (BPS_SCALE as int) == 0 {
        Some(AmmErrorCode::EffectiveInputZero)
    } else if reserves.0 + (dx - dx * fee_bps / (BPS_SCALE as int)) > u128::MAX {
        Some(AmmErrorCode::OverflowNumeric)
    } else {
        None
    }
}

/// Classifies raw swap inputs by the error code they would raise.
pub fn from_swap_inputs(
    dx: u128,
    reserves: (u128, u128),
    min_reserve: u128,
    fee_bps: u32,
) -> (r: Option<AmmErrorCode>)
    ensures
        r == spec_swap_input_error(dx, reserves, min_reserve, fee_bps),
{
    if dx == 0 {
        return Some(AmmErrorCode::ZeroAmount);
    }
    if reserves.0 == 0 || reserves.1 == 0 {
        return Some(AmmErrorCode::ZeroReserve);
    }
    if reserves.0 <= min_reserve || reserves.1 <= min_reserve {
        return Some(AmmErrorCode::MinReserveBreached);
    }
    let fee_bps_u128 = fee_bps as u128;
    let fee = match dx.checked_mul(fee_bps_u128) {
        Some(product) => product / BPS_SCALE,
        None => {
            return Some(AmmErrorCode::OverflowNumeric);
        },
    };
    proof {
        vstd::arithmetic::div_mod::lemma_div_is_ordered(
            (dx * fee_bps_u128) as int,
            u128::MAX as int,
            BPS_SCALE as int,
        );
        assert(u128::MAX as int / BPS_SCALE as int <= u128::MAX as int);
    }
    let dx_eff = match dx.checked_sub(fee) {
        Some(val) => val,
        None => {
            return Some(AmmErrorCode::OverflowNumeric);
        },
    };
    if dx_eff == 0 {
        return Some(AmmErrorCode::EffectiveInputZero);
    }
    if reserves.0.checked_add(dx_eff).is_none() {
        return Some(AmmErrorCode::OverflowNumeric);
    }
    None
}

/// Builds an [`AmmError`] directly from a code.
pub fn to_error(code: AmmErrorCode) -> (r: AmmError)
    ensures
        r.code == code,
        r.context@ =~= Seq::<(String, String)>::empty(),
{
    AmmError::new(code)
}

} // verus!
