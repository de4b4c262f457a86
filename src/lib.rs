//! Bech32: a checksummed, case-insensitive text encoding of a byte payload
//! under a short human-readable prefix.
pub mod alphabet;
pub mod ascii;
pub mod bits;
pub mod checksum;
pub mod codec;

pub use codec::{decode, encode};
