//! Pricing kernel for a constant-product automated market maker.
//!
//! Pure, deterministic functions that compute swap outputs, liquidity-share
//! issuance and redemption, and derived price and slippage metrics for a
//! two-asset reserve pool, under a fixed-point representation (`Wad`,
//! 10^18-scaled 128-bit amounts) and a strictly specified rounding policy:
//! fees round up, internal divisions round to nearest with ties to even,
//! and outputs are floored.

pub mod amm;
