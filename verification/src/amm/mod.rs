//! Constant-product market-maker kernel: types, guardrails, swap,
//! liquidity and pricing engines, and the high-precision reference oracle.

pub mod error;
pub mod error_catalog;
pub mod error_map;
pub mod errors;
pub mod guardrails;
pub mod laws;
pub mod liquidity;
pub mod pricing;
pub mod ref_golden;
pub mod swap;
pub mod types;
