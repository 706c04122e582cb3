//! Core logic of an object storage service: content-addressed, deduplicated
//! blobs grouped into named buckets, with resumable uploads, orphan pruning
//! and background integrity checks.
//!
//! The crate holds the verified state machine of the store. All durable
//! effects (file system, sockets, process control) live with the caller,
//! which drives this model and mirrors its transitions onto the real world.

pub mod archive;
pub mod endpoint;
pub mod error;
pub mod hash;
pub mod id;
pub mod lock;
pub mod metadata;
pub mod model;
pub mod paths;
pub mod progress;
pub mod store;
pub mod worker;
