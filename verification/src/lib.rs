//! A cryptographic duplex sponge built on the Poseidon permutation over a
//! prime field.
//!
//! The crate has five layers, leaves first:
//!
//! - [`field`]: arithmetic on field elements, represented as `u64` residues
//!   modulo a prime chosen at parameter-construction time;
//! - [`params`]: a validated, immutable description of the permutation
//!   (width, round counts, S-box exponent, round constants, linear layer);
//! - [`permutation`]: the fixed-round algebraic transform of a width-sized
//!   state vector;
//! - [`sponge`]: the duplex state machine that buffers absorbed elements,
//!   decides when to permute, and produces squeezed output across
//!   arbitrarily chunked calls;
//! - [`encoding`]: length-aware encoding of structured values into bytes or
//!   field elements, injective so that distinguishable values never share an
//!   absorbed sequence.

pub mod encoding;
pub mod field;
pub mod params;
pub mod permutation;
pub mod sponge;
