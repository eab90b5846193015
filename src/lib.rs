//! Compact, URL-safe encoding of coordinate paths.
//!
//! A path is a sequence of points whose coordinates are quantized to
//! hundred-thousandths of a degree. Each point is written as the difference
//! to its predecessor, zigzag-mapped to a natural number, paired with the other
//! axis through the Cantor pairing function, and emitted as little-endian
//! base-32 digits over a 64-symbol alphabet.

pub mod alphabet;
pub mod pairing;
pub mod codec;
pub mod proofs;
