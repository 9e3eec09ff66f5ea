//! A persistent, filesystem-backed cache core.
//!
//! The cache stores the result of an idempotent fetch keyed by an opaque
//! text identity, in a hash-bucket layout that tolerates collisions through
//! per-bucket chain slots, beside a separate key-to-timestamp index.  The
//! storage tree is modelled here as verified in-memory state; the thin
//! surrounding binary mirrors it to disk and performs the actual fetch.

pub mod cache;
pub mod errors;
pub mod hash;
pub mod index;
pub mod store;
pub mod text;
pub mod timestamp;
pub mod website;
