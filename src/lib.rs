//! Big-endian, byte-oriented unsigned arithmetic on variable-length byte strings.
//!
//! A [`Base256`] holds the digits of an unsigned integer in base 256, most significant byte
//! first. Addition grows the result by a byte on a final carry; `wrapped_add` and
//! `wrapped_scalar_multiply` cut results down to a fixed width, as for fixed-size digests.
pub mod base256;
pub mod laws;
pub mod model;

pub use base256::{Base256, Base256Error};
