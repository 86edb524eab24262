//! A bitmap-backed inverted index: each string key names an independent,
//! growable set of non-negative integer ids, stored as a packed sequence of
//! 32-bit words. The index supports point membership tests, ordered
//! enumeration, batch loading, a binary rendering of the raw words, and
//! word-level intersection and union between two keys.

pub mod bits;
pub mod bitset;
pub mod index;
