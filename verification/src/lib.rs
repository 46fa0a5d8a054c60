//! AES-128-CTR stream-cipher service built on a single-block AES-128-ECB
//! hardware primitive.
//!
//! The driver turns an asynchronous, interrupt-completed one-block encrypt
//! engine into a general CTR encrypt/decrypt service: it feeds the engine a
//! monotonically incrementing counter block, collects each keystream block
//! from the shared hardware buffer, and finally XORs the keystream with the
//! caller's data.
//!
//! The hardware itself (memory-mapped registers, the interrupt line) lives
//! outside this crate. The driver here is the decision logic: its methods
//! take the hardware's outputs as arguments and report, in their results,
//! which hardware operation to run next.

pub mod aes;
pub mod model;
pub mod platform;
