use std::sync::Arc;

use dfs::{ChunkServer, ChunkServerStatus, Client, MasterServer, Metadata, Storage};

#[test]
fn storage_keeps_what_the_scan_reported() {
    let storage = Storage::new(
        "/chunk-server/data".to_string(),
        100,
        900,
        vec!["11".to_string(), "22".to_string()],
    );
    assert_eq!(storage.get_used_storage(), 100);
    assert_eq!(storage.get_available_storage(), 900);
    assert_eq!(storage.get_chunk_handles(), vec!["11".to_string(), "22".to_string()]);
}

#[test]
fn heartbeat_request_reports_the_storage() {
    let storage = Arc::new(Storage::new(
        "/chunk-server/data".to_string(),
        5,
        95,
        vec!["33".to_string()],
    ));
    let client = Client::new("127.0.0.1:4000".to_string(), "localhost".to_string(), 50051, 60, storage);
    assert_eq!(client.interval_secs(), 60);
    assert_eq!(client.master_host(), "localhost");
    assert_eq!(client.master_port(), 50051);

    let request = client.heartbeat_request();
    assert_eq!(request.server_address, "127.0.0.1:4000");
    assert_eq!(request.used, 5);
    assert_eq!(request.available, 95);
    assert_eq!(request.chunk_handles, vec!["33".to_string()]);
}

#[test]
fn server_shells_wrap_their_state() {
    let metadata = Arc::new(Metadata::new());
    let _master = MasterServer::new(metadata);

    let storage = Arc::new(Storage::new("/data".to_string(), 0, 0, Vec::new()));
    let _chunk_server = ChunkServer::new("127.0.0.1:4000".to_string(), storage);
}

#[test]
fn chunk_server_status_keeps_the_report() {
    let status = ChunkServerStatus::new("addr".to_string(), 1, 2, vec!["3".to_string()]);
    assert_eq!(status.address, "addr");
    assert_eq!(status.used, 1);
    assert_eq!(status.available, 2);
    assert_eq!(status.chunk_handles, vec!["3".to_string()]);
}
