//! A 256-bit digest from the Keccak sponge: the 1600-bit permutation of 24
//! rounds, a rate of 1088 bits and a capacity of 512 bits.
//!
//! Every executable function carries a contract over a mathematical model:
//! the state is a sequence of 25 lanes, an input a sequence of bytes.
//!
//! - [`lane`]: lanes, their little-endian bytes and their rotation.
//! - [`permutation`]: theta, rho and pi, chi, iota, and the 24 rounds.
//! - [`bijection`]: the proof that the permutation loses nothing.
//! - [`sponge`]: padding, absorption, squeeze, and the digest.

pub mod lane;
pub mod permutation;
pub mod bijection;
pub mod sponge;

pub use crate::sponge::keccak256;
