//! Foldback: divergence detection for lockstep and rollback multiplayer
//! simulations. Hash simulation state every tick, compare the hashes that
//! peers report, and find the first tick at which two peers disagree; record
//! everything to the append-only `.foldback` session format.
//!
//! Everything in this crate is verified with Verus: the session-file codec,
//! the divergence search, the retention ring buffer, the schema-drift check
//! and the session state machine that ties them together. File and network
//! I/O live outside the library; it hands out and takes in plain bytes.

pub mod binding;
pub mod bisect;
pub mod derive_plan;
pub mod error;
pub mod format;
pub mod ggrs;
pub mod godot_walk;
pub mod hash;
pub mod hashable;
pub mod hex_text;
pub mod lint;
pub mod live;
pub mod preview;
pub mod reflect_walk;
pub mod report;
pub mod ring_buffer;
pub mod scan;
pub mod schema;
pub mod session;
pub mod snapshot;
pub mod viewer;

pub use error::Error;
