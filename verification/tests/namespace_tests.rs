use dfs::{DfsError, Namespace, Node, Status};

#[test]
fn mkdir_should_create_dir() {
    let mut namespace = Namespace::new();
    namespace.mkdir("/path/to/new/directory").unwrap();

    let path_dir = namespace.ls("/path").unwrap();
    let to_dir = namespace.ls("/path/to").unwrap();
    let new_dir = namespace.ls("/path/to/new").unwrap();
    let directory_dir = namespace.ls("/path/to/new/directory").unwrap();

    assert_eq!(path_dir.len(), 1);
    assert_eq!(path_dir[0], "to");
    assert_eq!(to_dir.len(), 1);
    assert_eq!(to_dir[0], "new");
    assert_eq!(new_dir.len(), 1);
    assert_eq!(new_dir[0], "directory");
    assert_eq!(directory_dir.len(), 0);
}

#[test]
fn crate_file_should_create_file() {
    let mut namespace = Namespace::new();
    namespace.mkdir("/path/to").unwrap();
    namespace.create_file("/path/to/new/directory/new_file").unwrap();

    let path_dir = namespace.ls("/path").unwrap();
    let to_dir = namespace.ls("/path/to").unwrap();
    let new_dir = namespace.ls("/path/to/new").unwrap();
    let directory_dir = namespace.ls("/path/to/new/directory").unwrap();

    assert_eq!(path_dir.len(), 1);
    assert_eq!(path_dir[0], "to");
    assert_eq!(to_dir.len(), 1);
    assert_eq!(to_dir[0], "new");
    assert_eq!(new_dir.len(), 1);
    assert_eq!(new_dir[0], "directory");
    assert_eq!(directory_dir.len(), 1);
    assert_eq!(directory_dir[0], "new_file");
}

#[test]
fn delete_file_should_mark_file_as_deleted() {
    let mut namespace = Namespace::new();
    namespace.create_file("/dir/new_file").unwrap();

    let path_dir = namespace.ls("/dir").unwrap();

    assert_eq!(path_dir.len(), 1);
    assert_eq!(path_dir[0], "new_file");

    namespace.delete_file("/dir/new_file").unwrap();

    let path_dir = namespace.ls("/dir").unwrap();
    assert_eq!(path_dir.len(), 0);

    match namespace.root.get_node("dir").get_node("new_file") {
        Node::Directory { name: _, nodes: _ } => {
            panic!("Should be file not directort");
        }
        Node::File { name: _, status } => {
            assert_eq!(Status::Deleted, *status)
        }
    }
}

#[test]
fn mkdir_is_idempotent_on_existing_directories() {
    let mut namespace = Namespace::new();
    namespace.mkdir("/a/b").unwrap();
    namespace.mkdir("/a/b").unwrap();
    namespace.mkdir("/a/c").unwrap();

    let a = namespace.ls("/a").unwrap();
    assert_eq!(a.len(), 2);
    assert!(a.contains(&"b".to_string()));
    assert!(a.contains(&"c".to_string()));
}

#[test]
fn mkdir_fails_when_a_component_is_a_file() {
    let mut namespace = Namespace::new();
    namespace.create_file("/a/f").unwrap();
    assert_eq!(namespace.mkdir("/a/f/deeper"), Err(DfsError::PathIsFile));
    assert_eq!(namespace.mkdir("/a/f"), Err(DfsError::PathIsFile));
}

#[test]
fn mkdir_rejects_malformed_paths() {
    let mut namespace = Namespace::new();
    assert_eq!(namespace.mkdir("relative/path"), Err(DfsError::InvalidPath));
    assert_eq!(namespace.mkdir(""), Err(DfsError::InvalidPath));
    assert_eq!(namespace.mkdir("/a//b"), Err(DfsError::InvalidPath));
    assert_eq!(namespace.mkdir("/a/b/"), Err(DfsError::InvalidPath));
}

#[test]
fn ls_reports_missing_and_file_targets() {
    let mut namespace = Namespace::new();
    namespace.create_file("/dir/f").unwrap();
    assert_eq!(namespace.ls("/nowhere"), Err(DfsError::NotFound));
    assert_eq!(namespace.ls("/dir/f"), Err(DfsError::NotDirectory));
    assert_eq!(namespace.ls("/dir/f/deeper"), Err(DfsError::PathIsFile));
    assert_eq!(namespace.ls("no-slash"), Err(DfsError::InvalidPath));
}

#[test]
fn ls_of_root_lists_top_level_entries() {
    let mut namespace = Namespace::new();
    namespace.mkdir("/top").unwrap();
    namespace.create_file("/also").unwrap();
    let root = namespace.ls("/").unwrap();
    assert_eq!(root.len(), 2);
    assert!(root.contains(&"top".to_string()));
    assert!(root.contains(&"also".to_string()));
}

#[test]
fn delete_file_reports_each_error() {
    let mut namespace = Namespace::new();
    namespace.mkdir("/d").unwrap();
    namespace.create_file("/d/f").unwrap();
    assert_eq!(namespace.delete_file("/d/missing"), Err(DfsError::NotFound));
    assert_eq!(namespace.delete_file("/d"), Err(DfsError::IsDirectory));
    assert_eq!(namespace.delete_file("/d/f/x"), Err(DfsError::PathIsFile));
    assert_eq!(namespace.delete_file("/"), Err(DfsError::IsDirectory));
    assert_eq!(namespace.delete_file("bad"), Err(DfsError::InvalidPath));
    // Deleting twice stays acceptable: the file is already hidden.
    namespace.delete_file("/d/f").unwrap();
    namespace.delete_file("/d/f").unwrap();
}

#[test]
fn is_active_tracks_file_status() {
    let mut namespace = Namespace::new();
    namespace.create_file("/a/f").unwrap();
    assert!(namespace.is_active("/a/f"));
    assert!(!namespace.is_active("/a"));
    assert!(!namespace.is_active("/missing"));
    assert!(!namespace.is_active("not-a-path"));
    namespace.delete_file("/a/f").unwrap();
    assert!(!namespace.is_active("/a/f"));
}

#[test]
fn create_file_keeps_an_existing_node() {
    let mut namespace = Namespace::new();
    namespace.create_file("/a/f").unwrap();
    namespace.delete_file("/a/f").unwrap();
    // Creating over the deleted file is a no-op: it stays deleted.
    namespace.create_file("/a/f").unwrap();
    assert!(!namespace.is_active("/a/f"));
    // Creating over a directory is a no-op too.
    namespace.mkdir("/a/d").unwrap();
    namespace.create_file("/a/d").unwrap();
    assert_eq!(namespace.ls("/a/d").unwrap().len(), 0);
}
