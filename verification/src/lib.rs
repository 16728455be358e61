//! A small, signed, eventually-consistent key/value store for a peer mesh.
//!
//! Each principal, identified by an Ed25519 public key, publishes signed
//! mutation events under human-readable names. Every peer keeps a store of
//! such events with deduplication, expiry and stale-event suppression, peers
//! gossip their event listings pairwise until they converge, and any reader
//! resolves the current value of a `(key, name)` pair with a deterministic
//! last-writer-wins merge. An immutable, content-addressed block store rides
//! along.
//!
//! The crate holds the replicated core: the frozen canonical binary encoding,
//! the signing and verification of envelopes, the event store and its
//! resolution rules, the anti-entropy pull path, and the blob store. Key
//! files, networking and scheduling live with the caller.

pub mod blobs;
pub mod client;
pub mod codec;
pub mod crdt;
pub mod encode;
pub mod errors;
pub mod events;
pub mod hashing;
pub mod keys;
pub mod models;
pub mod server;
pub mod signed;
pub mod store;
pub mod sync;
