//! Replication: change tracking, the wire format, interest management,
//! authority, snapshots and client-side prediction.
//!
//! A world is observed through a change tracker, whose frames are encoded into
//! byte blobs; transport is left to the caller.

pub mod wire;
pub mod types;
pub mod delta;
pub mod encoding;
pub mod compressor;
pub mod replicable;
pub mod schema;
pub mod authority;
pub mod merge_laws;
pub mod wire_laws;
pub mod value;
pub mod tracker;
pub mod apply;
pub mod apply_laws;
pub mod cell_map;
pub mod relevance;
pub mod event_batch;
pub mod snapshot;
pub mod cell_snapshot;
pub mod cell_snapshot_laws;
pub mod cell_round_trip;
pub mod reconciler;
pub mod witness;
