//! Simple8B: packs runs of integers below 2^60 into self-describing 64-bit words.
//!
//! The top four bits of a word hold a selector. The selector fixes a bit width and a
//! number of slots; the low sixty bits hold the values, first value in the lowest bits.
pub mod codec;
pub mod laws;
pub mod resolver;
pub mod table;

pub use codec::{count_packed, pack, unpack};
