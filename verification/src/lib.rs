//! An authenticated key-value store backed by an append-only Merkle tree of
//! value hashes.
//!
//! The heart of the crate is a deterministic state-transition core: a pure
//! function from an opaque serialized tree state and a command to a new
//! serialized state plus a structured result.  Re-running the same
//! (state, command) pair always yields bit-identical output, which lets an
//! external proving engine re-execute a transition and attest to it.
//!
//! Layering, leaves first:
//! - [`digest`]: fixed 32-byte hash digests and the SHA-256 binding;
//! - [`tree`]: the Merkle tree over leaf digests, with inclusion proofs;
//! - [`index`]: the key-to-leaf index ([`index::MerkleState`]);
//! - [`codec`]: the serialized form of the index;
//! - [`engine`]: command dispatch over serialized states;
//! - [`store`]: the raw blob store interface and an in-memory backend;
//! - [`database`]: the façade that keeps blobs and the authenticated index
//!   consistent;
//! - [`wire`]: textual command encoding helpers.

pub mod codec;
pub mod database;
pub mod digest;
pub mod engine;
pub mod index;
pub mod store;
pub mod tree;
pub mod wire;
