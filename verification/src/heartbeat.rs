//! The chunk server's heartbeat client.
//!
//! At a fixed interval the client samples its local storage, builds a
//! heartbeat request and sends it to the master; the reply's garbage list
//! is handed back for local deletion. Sending is I/O and stays outside;
//! building the request — the content of each tick — is done here.
//! Heartbeats carry the full state, so a lost one heals itself on the
//! next tick.

use std::sync::Arc;

use vstd::prelude::*;

use crate::metadata::HeartbeatRequest;
use crate::paths::seq_views;
use crate::storage::Storage;

verus! {

/// The heartbeat client: whom to report as, whom to report to, how often,
/// and the storage to sample.
pub struct Client {
    server_address: String,
    master_host: String,
    master_port: u16,
    interval: u64,
    storage: Arc<Storage>,
}

impl Client {
    /// The address this client reports as its server's identity.
    pub closed spec fn spec_server_address(self) -> Seq<char> {
        self.server_address@
    }

    /// The master's host name.
    pub closed spec fn spec_master_host(self) -> Seq<char> {
        self.master_host@
    }

    /// The master's port.
    pub closed spec fn spec_master_port(self) -> u16 {
        self.master_port
    }

    /// The seconds between two heartbeats.
    pub closed spec fn spec_interval(self) -> u64 {
        self.interval
    }

    /// The storage the client samples.
    pub closed spec fn spec_storage(self) -> Storage {
        *self.storage
    }

    /// Builds a heartbeat client for the given master and interval.
    pub fn new(
        server_address: String,
        master_host: String,
        master_port: u16,
        interval: u64,
        storage: Arc<Storage>,
    ) -> (r: Client)
        ensures
            r.spec_server_address() == server_address@,
            r.spec_master_host() == master_host@,
            r.spec_master_port() == master_port,
            r.spec_interval() == interval,
            r.spec_storage() == *storage,
    {
        Client { server_address, master_host, master_port, interval, storage }
    }

    /// The seconds to wait between ticks.
    pub fn interval_secs(&self) -> (r: u64)
        ensures
            r == self.spec_interval(),
    {
        self.interval
    }

    /// The master's port, for the caller that opens the connection.
    pub fn master_port(&self) -> (r: u16)
        ensures
            r == self.spec_master_port(),
    {
        self.master_port
    }

    /// The master's host, for the caller that opens the connection.
    pub fn master_host(&self) -> (r: &str)
        ensures
            r@ == self.spec_master_host(),
    {
        self.master_host.as_str()
    }

    /// One tick's content: the request reporting this server's identity,
    /// its space accounting and every chunk handle it holds.
    pub fn heartbeat_request(&self) -> (r: HeartbeatRequest)
        ensures
            r.server_address@ == self.spec_server_address(),
            r.used == self.spec_storage().spec_used(),
            r.available == self.spec_storage().spec_available(),
            seq_views(r.chunk_handles@) == self.spec_storage().spec_chunk_handles(),
    {
        let used = self.storage.get_used_storage();
        let available = self.storage.get_available_storage();
        let chunk_handles = self.storage.get_chunk_handles();
        let server_address = self.server_address.clone();
        HeartbeatRequest { server_address, used, available, chunk_handles }
    }
}

} // verus!
