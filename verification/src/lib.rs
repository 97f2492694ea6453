//! Authoritative core of a chunked, tile-based multiplayer world: spatial
//! model, interest management, replication stream, scheduler and session
//! input, with every operation carrying a machine-checked contract.

pub mod client;
pub mod collision;
pub mod completeness;
pub mod content;
pub mod entity;
pub mod frame;
pub mod geometry;
pub mod ident;
pub mod interest;
pub mod invariants;
pub mod keys;
pub mod message;
pub mod names;
pub mod ordering;
pub mod pacing;
pub mod pos;
pub mod replication;
pub mod scheduler;
pub mod server;
pub mod session;
pub mod world;
