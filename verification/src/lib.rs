//! Core arithmetic for the BLS12-381 pairing curve: fixed-width
//! multi-precision integers, the 381-bit prime field in Montgomery form
//! with excess-word bookkeeping, its quadratic extension, and the
//! 3-isogeny evaluation used by the hash-to-curve map onto the G2 twist,
//! together with its constant tables.

pub mod arith;
pub mod big;
pub mod dbig;
pub mod rom;
pub mod fp;
pub mod fp2;
pub mod ecp2;
pub mod iso;
