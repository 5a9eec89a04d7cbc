//! The kernel's error taxonomy: a closed set of failure kinds, each
//! detected synchronously and returned to the immediate caller. No kernel
//! operation retries or partially applies.

use vstd::prelude::*;
use super::error_catalog::AmmErrorCode;

verus! {

/// Failure kind of a kernel operation.
#[derive(Clone, Copy, Debug, PartialEq, Eq, Structural)]
pub enum AmmError {
    /// A required amount argument is zero.
    ZeroAmount,
    /// A pool reserve is zero: the pool is uninitialized.
    ZeroReserve,
    /// The operation would leave a reserve below the floor.
    MinReserveBreached,
    /// A checked arithmetic step over- or underflowed, including misuse
    /// such as burning more shares than exist.
    Overflow,
    /// After fee deduction or rounding, the usable quantity collapsed to
    /// zero.
    InputTooSmall,
}

impl AmmError {
    /// The catalog code that stands for this error kind.
    pub open spec fn spec_code(self) -> AmmErrorCode {
        match self {
            AmmError::ZeroAmount => AmmErrorCode::ZeroAmount,
            AmmError::ZeroReserve => AmmErrorCode::ZeroReserve,
            AmmError::MinReserveBreached => AmmErrorCode::MinReserveBreached,
            AmmError::Overflow => AmmErrorCode::OverflowNumeric,
            AmmError::InputTooSmall => AmmErrorCode::EffectiveInputZero,
        }
    }

    /// Maps the kernel error kind to its catalog code.
    pub fn code(&self) -> (r: AmmErrorCode)
        ensures
            r == self.spec_code(),
    {
        match self {
            AmmError::ZeroAmount => AmmErrorCode::ZeroAmount,
            AmmError::ZeroReserve => AmmErrorCode::ZeroReserve,
            AmmError::MinReserveBreached => AmmErrorCode::MinReserveBreached,
            AmmError::Overflow => AmmErrorCode::OverflowNumeric,
            AmmError::InputTooSmall => AmmErrorCode::EffectiveInputZero,
        }
    }
}

} // verus!
