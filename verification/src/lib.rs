//! A recursive binary-tree codec and canonical-hash engine for a simulated
//! blockchain state snapshot: a block holds contracts, each contract holds
//! storage slots (scalar variables, structs, or key/value mappings).
//!
//! The crate decodes a flat byte buffer into the tree, encodes a tree back to
//! bytes, computes a single order-sensitive 64-byte digest over the tree, and
//! renders a human-readable dump for diagnostics.
pub mod cursor;
pub mod errors;
pub mod hashing;
pub mod laws;
pub mod node;
pub mod render;
pub mod wire;
pub mod codec;
