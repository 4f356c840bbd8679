//! A compact on-disk store for word-embedding vectors.
//!
//! The library turns a plaintext corpus (one line per word: the word followed
//! by its vector components) into a paired index/blob byte format, and serves
//! point lookups over a memory-mapped blob through an in-memory word-to-offset
//! index. Vector components are carried as 32-bit patterns; reading them as
//! floating-point values is the caller's concern.

pub mod codec;
pub mod digits;
pub mod laws;
pub mod scan;
pub mod store;
pub mod word2vec;
