//! Immutable catalog of error codes: the closed enumeration that the
//! kernel's collaborators consume, together with each code's stable
//! textual identifier. Localization (titles, templated messages) is owned
//! by the formatting collaborator around the kernel, not by the kernel.

use vstd::prelude::*;

verus! {

/// Stable error code of the kernel's taxonomy.
#[derive(Copy, Clone, Eq, PartialEq, Ord, PartialOrd, Hash, Debug, Structural)]
pub enum AmmErrorCode {
    /// An operation received a zero input amount.
    ZeroAmount,
    /// A reserve is uninitialized or zeroed.
    ZeroReserve,
    /// The operation would violate the minimum reserve.
    MinReserveBreached,
    /// A numeric computation over- or underflowed.
    OverflowNumeric,
    /// The effective input collapsed to zero after fees.
    EffectiveInputZero,
}

impl AmmErrorCode {
    /// The stable textual identifier of each code.
    pub open spec fn spec_code(self) -> Seq<char> {
        match self {
            AmmErrorCode::ZeroAmount => "AMM-0001"@,
            AmmErrorCode::ZeroReserve => "AMM-0002"@,
            AmmErrorCode::MinReserveBreached => "AMM-0003"@,
            AmmErrorCode::OverflowNumeric => "AMM-0004"@,
            AmmErrorCode::EffectiveInputZero => "AMM-0005"@,
        }
    }

    /// Stable textual code of the error.
    pub fn code(&self) -> (r: &'static str)
        ensures
            r@ == self.spec_code(),
    {
        match self {
            AmmErrorCode::ZeroAmount => "AMM-0001",
            AmmErrorCode::ZeroReserve => "AMM-0002",
            AmmErrorCode::MinReserveBreached => "AMM-0003",
            AmmErrorCode::OverflowNumeric => "AMM-0004",
            AmmErrorCode::EffectiveInputZero => "AMM-0005",
        }
    }

    /// All variants, in stable order.
    pub fn all() -> (r: Vec<AmmErrorCode>)
        ensures
            r@ =~= seq![
                AmmErrorCode::ZeroAmount,
                AmmErrorCode::ZeroReserve,
                AmmErrorCode::MinReserveBreached,
                AmmErrorCode::OverflowNumeric,
                AmmErrorCode::EffectiveInputZero,
            ],
    {
        let mut v: Vec<AmmErrorCode> = Vec::new();
        v.push(AmmErrorCode::ZeroAmount);
        v.push(AmmErrorCode::ZeroReserve);
        v.push(AmmErrorCode::MinReserveBreached);
        v.push(AmmErrorCode::OverflowNumeric);
        v.push(AmmErrorCode::EffectiveInputZero);
        v
    }
}

} // verus!
