use dfs::{chunk_handle, parse_disc_usage, parse_path, parse_u64, chunk_handles_from_listing, DfsError};

#[test]
fn parse_path_splits_components() {
    let parts = parse_path("/path/to/new/directory").unwrap();
    assert_eq!(parts, vec!["path", "to", "new", "directory"]);
    let single = parse_path("/a").unwrap();
    assert_eq!(single, vec!["a"]);
}

#[test]
fn parse_path_accepts_the_root() {
    let parts = parse_path("/").unwrap();
    assert_eq!(parts.len(), 0);
}

#[test]
fn parse_path_rejects_malformed_paths() {
    assert_eq!(parse_path(""), Err(DfsError::InvalidPath));
    assert_eq!(parse_path("relative"), Err(DfsError::InvalidPath));
    assert_eq!(parse_path("/a//b"), Err(DfsError::InvalidPath));
    assert_eq!(parse_path("/trailing/"), Err(DfsError::InvalidPath));
}

#[test]
fn parse_u64_reads_decimal_handles() {
    assert_eq!(parse_u64("0"), Some(0));
    assert_eq!(parse_u64("9999"), Some(9999));
    assert_eq!(parse_u64("18446744073709551615"), Some(u64::MAX));
}

#[test]
fn parse_u64_rejects_bad_handles() {
    assert_eq!(parse_u64(""), None);
    assert_eq!(parse_u64("12a"), None);
    assert_eq!(parse_u64("-3"), None);
    assert_eq!(parse_u64(" 12"), None);
    // One past the largest 64-bit value.
    assert_eq!(parse_u64("18446744073709551616"), None);
}

#[test]
fn chunk_handle_is_deterministic() {
    let a = chunk_handle("/test/directory/test_file.txt", 1);
    let b = chunk_handle("/test/directory/test_file.txt", 1);
    assert_eq!(a, b);
}

#[test]
fn disc_usage_reads_the_second_line() {
    let output = "Used Avail\n  1234 56789\n";
    assert_eq!(parse_disc_usage(output), Some((1234, 56789)));
}

#[test]
fn disc_usage_rejects_incomplete_output() {
    assert_eq!(parse_disc_usage("no newline at all"), None);
    assert_eq!(parse_disc_usage("header only\n"), None);
    assert_eq!(parse_disc_usage("header\n12"), None);
    assert_eq!(parse_disc_usage("header\nx y"), None);
}

#[test]
fn listing_yields_file_names() {
    let output = "/home/user/chunk-server/data/101\n/home/user/chunk-server/data/202";
    let handles = chunk_handles_from_listing(output);
    assert_eq!(handles, vec!["101", "202"]);
}

#[test]
fn listing_skips_empty_lines() {
    let output = "\n/data/7\n\n/data/8\n";
    let handles = chunk_handles_from_listing(output);
    assert_eq!(handles, vec!["7", "8"]);
    assert_eq!(chunk_handles_from_listing(""), Vec::<String>::new());
}
