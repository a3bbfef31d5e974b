//! Master-side metadata engine of a GFS-style distributed file system,
//! together with the plain values carried by its heartbeat protocol.
//!
//! The master owns a hierarchical namespace of directories and files, an
//! index from file paths to chunk handles, an index from chunk handles to
//! the chunk servers that hold them, and a roster of known chunk servers.
//! Chunk servers report their state through periodic heartbeats; the reply
//! carries the handles they should garbage-collect.

use vstd::prelude::*;

pub mod client_config;
mod clock;
pub mod config;
pub mod errors;
pub mod handles;
pub mod heartbeat;
pub mod laws;
pub mod metadata;
pub mod namespace;
pub mod paths;
pub mod server;
pub mod storage;

pub use client_config::Settings as ClientSettings;
pub use config::Settings;
pub use errors::DfsError;
pub use handles::{chunk_handle, parse_u64, spec_chunk_handle, spec_parse_u64, USER_ID};
pub use heartbeat::Client;
pub use laws::{
    lemma_allocate_chunk_idempotent, lemma_create_delete_hides, lemma_mkdir_preserves_dirs,
    lemma_mkdir_then_ls, lemma_listing_counts_once,
};
pub use metadata::{ChunkMetadata, ChunkServerStatus, HeartbeatRequest, Metadata, ServerView};
pub use namespace::{listed, Namespace, Node, NodeKind, Status};
pub use paths::{parse_path, spec_parse_path};
pub use server::{ChunkServer, MasterServer};
pub use storage::{
    chunk_handles_from_listing, parse_disc_usage, spec_chunk_listing, spec_disc_usage, Storage,
};

verus! {

} // verus!
