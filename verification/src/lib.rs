//! Block-chained file authentication.
//!
//! A file is cut into blocks of a fixed size. Every block but the last is
//! followed, in the signed copy, by the digest that commits to all the blocks
//! after it. Whoever holds the digest of the first block, the root, can check
//! the signed copy in one forward pass and recover the file on the way.

pub mod builder;
mod bytes;
pub mod chain;
pub mod checker;
pub mod digest;
pub mod laws;
pub mod reader;
pub mod signer;
