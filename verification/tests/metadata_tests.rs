use dfs::{ChunkServerStatus, DfsError, HeartbeatRequest, Metadata, Node, Status};

#[test]
fn medatada_mkdir_should_create_dir() {
    let mut metadata = Metadata::new();
    metadata.mkdir("/path/to/new/directory").unwrap();

    let path_dir = metadata.ls("/path").unwrap();
    let to_dir = metadata.ls("/path/to").unwrap();
    let new_dir = metadata.ls("/path/to/new").unwrap();
    let directory_dir = metadata.ls("/path/to/new/directory").unwrap();

    assert_eq!(path_dir.len(), 1);
    assert_eq!(path_dir[0], "to");
    assert_eq!(to_dir.len(), 1);
    assert_eq!(to_dir[0], "new");
    assert_eq!(new_dir.len(), 1);
    assert_eq!(new_dir[0], "directory");
    assert_eq!(directory_dir.len(), 0);
}

#[test]
fn medatada_crate_file_should_create_file() {
    let mut metadata = Metadata::new();
    metadata.mkdir("/path/to").unwrap();
    metadata.create_file("/path/to/new/directory/new_file".to_string()).unwrap();

    let path_dir = metadata.ls("/path").unwrap();
    let to_dir = metadata.ls("/path/to").unwrap();
    let new_dir = metadata.ls("/path/to/new").unwrap();
    let directory_dir = metadata.ls("/path/to/new/directory").unwrap();

    assert_eq!(path_dir.len(), 1);
    assert_eq!(path_dir[0], "to");
    assert_eq!(to_dir.len(), 1);
    assert_eq!(to_dir[0], "new");
    assert_eq!(new_dir.len(), 1);
    assert_eq!(new_dir[0], "directory");
    assert_eq!(directory_dir.len(), 1);
    assert_eq!(directory_dir[0], "new_file");
}

#[test]
fn medatada_delete_file_should_mark_file_as_deleted() {
    let mut metadata = Metadata::new();
    metadata.create_file("/dir/new_file".to_string()).unwrap();

    let path_dir = metadata.ls("/dir").unwrap();

    assert_eq!(path_dir.len(), 1);
    assert_eq!(path_dir[0], "new_file");

    metadata.delete_file("/dir/new_file".to_string()).unwrap();

    let path_dir = metadata.ls("/dir").unwrap();
    assert_eq!(path_dir.len(), 0);

    match metadata.namespace.root.get_node("dir").get_node("new_file") {
        Node::Directory { name: _, nodes: _ } => {
            panic!("Should be file not directort");
        }
        Node::File { name: _, status } => {
            assert_eq!(Status::Deleted, *status)
        }
    }
}

#[test]
fn allocate_chunk_should_update_lookup_table() {
    let mut metadata = Metadata::new();

    let server1 = ChunkServerStatus {
        address: "123".to_string(),
        used: 1000000,
        available: 1000000,
        chunk_handles: Vec::new(),
        last_heartbeat: 0,
    };

    let server2 = ChunkServerStatus {
        address: "1234".to_string(),
        used: 1000000,
        available: 2000000,
        chunk_handles: Vec::new(),
        last_heartbeat: 0,
    };

    let server3 = ChunkServerStatus {
        address: "12345".to_string(),
        used: 1000000,
        available: 3000000,
        chunk_handles: Vec::new(),
        last_heartbeat: 0,
    };

    metadata.chunk_servers.push(server1);
    metadata.chunk_servers.push(server2);
    metadata.chunk_servers.push(server3);

    let file_path = "/test/directory/test_file.txt";

    metadata.create_file(file_path.to_string()).unwrap();
    let chunk_metadata = metadata.allocate_chunk(file_path, 1).unwrap();

    assert_eq!(chunk_metadata.locations.len(), 3);
}

#[test]
fn mod_allocate_chunk_should_update_lookup_table() {
    let mut metadata = Metadata::new();

    let server1 = ChunkServerStatus::new("123".to_string(), 1000000, 1000000, Vec::new());
    let server2 = ChunkServerStatus::new("1234".to_string(), 1000000, 2000000, Vec::new());
    let server3 = ChunkServerStatus::new("12345".to_string(), 1000000, 3000000, Vec::new());

    metadata.chunk_servers.push(server1);
    metadata.chunk_servers.push(server2);
    metadata.chunk_servers.push(server3);

    let file_path = "/test/directory/test_file.txt";

    metadata.create_file(file_path.to_string()).unwrap();
    let chunk_metadata = metadata.allocate_chunk(file_path, 1).unwrap();

    assert_eq!(chunk_metadata.locations.len(), 3);
}

#[test]
fn placement_prefers_free_space() {
    let mut metadata = Metadata::new();
    for (addr, avail) in [("s1", 1_000_000u64), ("s2", 2_000_000), ("s3", 3_000_000)] {
        let reply = metadata.heartbeat_update(HeartbeatRequest {
            server_address: addr.to_string(),
            used: 0,
            available: avail,
            chunk_handles: Vec::new(),
        });
        assert_eq!(reply.len(), 0);
    }

    metadata.create_file("/t/x.txt".to_string()).unwrap();
    let cm = metadata.allocate_chunk("/t/x.txt", 1).unwrap();

    assert_eq!(cm.locations.len(), 3);
    assert_eq!(cm.locations[0], "s3");
    assert_eq!(cm.locations[1], "s2");
    assert_eq!(cm.locations[2], "s1");
}

#[test]
fn placement_returns_fewer_servers_when_fewer_exist() {
    let mut metadata = Metadata::new();
    metadata.heartbeat_update(HeartbeatRequest {
        server_address: "only".to_string(),
        used: 0,
        available: 42,
        chunk_handles: Vec::new(),
    });
    metadata.create_file("/f".to_string()).unwrap();
    let cm = metadata.allocate_chunk("/f", 1).unwrap();
    assert_eq!(cm.locations.len(), 1);
    assert_eq!(cm.locations[0], "only");
}

#[test]
fn allocate_chunk_needs_a_created_file() {
    let mut metadata = Metadata::new();
    assert_eq!(
        metadata.allocate_chunk("/never/created", 1).unwrap_err(),
        DfsError::FileNotFound
    );
}

#[test]
fn allocate_chunk_twice_returns_the_same_handle() {
    let mut metadata = Metadata::new();
    metadata.create_file("/a".to_string()).unwrap();
    let first = metadata.allocate_chunk("/a", 7).unwrap();
    let second = metadata.allocate_chunk("/a", 7).unwrap();
    assert_eq!(first.chunk_handle, second.chunk_handle);

    // The retry left the file's handle set unchanged; a different index
    // grows it by one.
    let entry = metadata.file_handles.iter().find(|e| e.0 == "/a").unwrap();
    assert_eq!(entry.1.len(), 1);
    metadata.allocate_chunk("/a", 8).unwrap();
    let entry = metadata.file_handles.iter().find(|e| e.0 == "/a").unwrap();
    assert_eq!(entry.1.len(), 2);
}

#[test]
fn placement_leaves_out_the_fullest_server() {
    let mut metadata = Metadata::new();
    for (addr, avail) in [("a", 10u64), ("b", 40), ("c", 20), ("d", 30)] {
        metadata.heartbeat_update(HeartbeatRequest {
            server_address: addr.to_string(),
            used: 0,
            available: avail,
            chunk_handles: Vec::new(),
        });
    }
    metadata.create_file("/f".to_string()).unwrap();
    let cm = metadata.allocate_chunk("/f", 1).unwrap();
    assert_eq!(cm.locations, vec!["b", "d", "c"]);
}

#[test]
fn indexed_files_stay_in_the_namespace() {
    let mut metadata = Metadata::new();
    metadata.create_file("/a/one".to_string()).unwrap();
    metadata.create_file("/a/two".to_string()).unwrap();
    metadata.create_file("/b/three".to_string()).unwrap();
    metadata.delete_file("/a/two".to_string()).unwrap();
    metadata.mkdir("/a/sub").unwrap();

    // Every path the chunk index holds names a file node in the tree.
    for entry in metadata.file_handles.iter() {
        match metadata.namespace.kind_of(&entry.0) {
            Some(dfs::NodeKind::File(_)) => {}
            other => panic!("indexed path {} is not a file: {:?}", entry.0, other),
        }
    }
}

#[test]
fn heartbeat_registers_the_server() {
    let mut metadata = Metadata::new();
    assert_eq!(metadata.chunk_servers.len(), 0);
    metadata.heartbeat_update(HeartbeatRequest {
        server_address: "s1".to_string(),
        used: 10,
        available: 90,
        chunk_handles: vec!["5".to_string()],
    });
    assert_eq!(metadata.chunk_servers.len(), 1);
    assert_eq!(metadata.chunk_servers[0].address, "s1");
    assert_eq!(metadata.chunk_servers[0].used, 10);
    assert_eq!(metadata.chunk_servers[0].available, 90);
    assert_eq!(metadata.chunk_servers[0].chunk_handles, vec!["5".to_string()]);

    // A later heartbeat updates the entry instead of adding one.
    metadata.heartbeat_update(HeartbeatRequest {
        server_address: "s1".to_string(),
        used: 20,
        available: 80,
        chunk_handles: Vec::new(),
    });
    assert_eq!(metadata.chunk_servers.len(), 1);
    assert_eq!(metadata.chunk_servers[0].used, 20);
    assert_eq!(metadata.chunk_servers[0].available, 80);
}

#[test]
fn heartbeat_collects_unknown_handles() {
    let mut metadata = Metadata::new();
    metadata.create_file("/a".to_string()).unwrap();
    let h = metadata.allocate_chunk("/a", 1).unwrap().chunk_handle;
    let hs = format!("{}", h);

    let reply = metadata.heartbeat_update(HeartbeatRequest {
        server_address: "S1".to_string(),
        used: 0,
        available: 100,
        chunk_handles: vec![hs.clone(), "9999".to_string()],
    });

    assert_eq!(reply, vec!["9999".to_string()]);

    // The known handle's location set now carries the reporting server.
    let entry = metadata
        .handle_locations
        .iter()
        .find(|e| e.0 == hs)
        .expect("allocated handle should be tracked");
    assert!(entry.1.contains(&"S1".to_string()));
}

#[test]
fn heartbeat_after_delete_collects_the_handle() {
    let mut metadata = Metadata::new();
    metadata.create_file("/a".to_string()).unwrap();
    let h = metadata.allocate_chunk("/a", 1).unwrap().chunk_handle;
    let hs = format!("{}", h);

    let first = metadata.heartbeat_update(HeartbeatRequest {
        server_address: "S1".to_string(),
        used: 0,
        available: 100,
        chunk_handles: vec![hs.clone()],
    });
    assert_eq!(first.len(), 0);

    metadata.delete_file("/a".to_string()).unwrap();

    let second = metadata.heartbeat_update(HeartbeatRequest {
        server_address: "S1".to_string(),
        used: 0,
        available: 100,
        chunk_handles: vec![hs.clone()],
    });
    assert_eq!(second, vec![hs]);
}

#[test]
fn heartbeat_reports_each_garbage_handle_once() {
    let mut metadata = Metadata::new();
    let reply = metadata.heartbeat_update(HeartbeatRequest {
        server_address: "S1".to_string(),
        used: 0,
        available: 100,
        chunk_handles: vec!["7".to_string(), "7".to_string(), "8".to_string()],
    });
    assert_eq!(reply, vec!["7".to_string(), "8".to_string()]);
}
