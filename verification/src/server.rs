//! The server-side shells: what each process holds onto while its RPC
//! plumbing, which lives outside this crate, serves requests against it.

use std::sync::Arc;

use vstd::prelude::*;

use crate::metadata::Metadata;
use crate::storage::Storage;

verus! {

/// The master process: one shared metadata index that every RPC handler
/// works against.
#[derive(Debug)]
pub struct MasterServer {
    metadata: Arc<Metadata>,
}

impl MasterServer {
    /// The metadata index this server serves.
    pub closed spec fn spec_metadata(self) -> Metadata {
        *self.metadata
    }

    /// Wraps the shared metadata index for serving.
    pub fn new(metadata: Arc<Metadata>) -> (r: MasterServer)
        ensures
            r.spec_metadata() == *metadata,
    {
        MasterServer { metadata }
    }
}

/// A chunk-server process: its advertised address and its local storage.
#[derive(Debug)]
pub struct ChunkServer {
    address: String,
    storage: Arc<Storage>,
}

impl ChunkServer {
    /// The address this server advertises.
    pub closed spec fn spec_address(self) -> Seq<char> {
        self.address@
    }

    /// The storage this server holds.
    pub closed spec fn spec_storage(self) -> Storage {
        *self.storage
    }

    /// Wraps the address and the shared storage for serving.
    pub fn new(address: String, storage: Arc<Storage>) -> (r: ChunkServer)
        ensures
            r.spec_address() == address@,
            r.spec_storage() == *storage,
    {
        ChunkServer { address, storage }
    }
}

} // verus!
