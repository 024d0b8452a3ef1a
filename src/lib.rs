//! Arbitrary-precision signed integers stored as little-endian limbs in base 10^18.

pub mod limbs;
pub mod bigint;
pub mod decimal;
pub mod laws;

pub use bigint::BigInt;
pub use decimal::ParseError;
