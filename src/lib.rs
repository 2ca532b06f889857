//! Signed fixed-point arithmetic over the BN254 scalar field, as used by
//! arithmetic-circuit gadgets, with a realized-volatility computation on top.
pub mod bignum;
pub mod chip;
pub mod constants;
pub mod error;
pub mod field;
pub mod input;
pub mod laws;
pub mod tick_text;
pub mod ticks;
pub mod transcendental;
pub mod volatility;
pub mod watch;
