//! Peer-to-peer code review annotation: the session synchronization core.
//!
//! A small set of peers annotates a code diff (comments, chat) without a
//! central server.  This crate holds the verified core of that system: stable
//! content-derived hunk identifiers, an idempotent durable store with a
//! deterministic listing order, a replayable offline queue, invite tokens,
//! the membership view of the gossip mesh, and the sync engine that ties
//! them together.  Disk, network and terminal I/O live outside this crate
//! and talk to it through plain values.

pub mod codec;
pub mod engine;
pub mod hashes;
pub mod hunk;
pub mod mesh;
pub mod model;
pub mod order;
pub mod queue;
pub mod records;
pub mod store;
pub mod strutil;
pub mod token;

pub use model::{ChatLine, Comment, DiffHunk, ReviewSession, StoreError, QueueError};
