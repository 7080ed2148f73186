//! A growable array of boolean flags, stored in 32-bit words and addressed
//! by a flat bit index.

pub mod bitset;
pub mod laws;

pub use bitset::{BitsetError, DynamicBitset};
