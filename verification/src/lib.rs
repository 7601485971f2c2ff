//! A Bloom filter over string keys: a probabilistic set-membership
//! structure with no false negatives, fill introspection, and a lossless
//! byte encoding of its full state.

pub mod bits;
pub mod codec;
pub mod filter;
pub mod hash;
