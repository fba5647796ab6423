//! A two-tranche redemption engine over fixed-point decimal arithmetic.
//!
//! The `decimal` module wraps a 96-bit-mantissa decimal number type; the
//! `engine` module re-divides a senior/junior pair of token balances after
//! the fair value of a liquidity-pool position has moved.

pub mod decimal;
pub mod engine;
