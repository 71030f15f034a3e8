use loopos_cache::errors::CacheError;
use loopos_cache::store::{from_app_data, CacheStore};

fn store() -> CacheStore {
    CacheStore::new("/data/app/loopos".to_string())
}

#[test]
fn write_then_read_roundtrip() {
    let mut s = store();
    assert_eq!(s.write_text("notes/a.txt", "hello"), Ok(()));
    assert_eq!(s.read_text("notes/a.txt"), Ok("hello".to_string()));
}

#[test]
fn overwrite_reads_last_contents() {
    let mut s = store();
    assert_eq!(s.write_text("a.txt", "first"), Ok(()));
    assert_eq!(s.write_text("a.txt", "second"), Ok(()));
    assert_eq!(s.read_text("a.txt"), Ok("second".to_string()));
}

#[test]
fn delete_missing_succeeds() {
    let mut s = store();
    assert_eq!(s.delete_entry("nothing/here.txt"), Ok(()));
}

#[test]
fn delete_then_read_reports_not_found() {
    let mut s = store();
    assert_eq!(s.write_text("a.txt", "x"), Ok(()));
    assert_eq!(s.delete_entry("a.txt"), Ok(()));
    assert_eq!(s.read_text("a.txt"), Err(CacheError::NotFoundError));
}

#[test]
fn list_missing_directory_is_empty_not_error() {
    let s = store();
    assert_eq!(s.list_entries("does/not/exist"), Ok(vec![]));
}

#[test]
fn ensure_write_list_scenario() {
    let mut s = store();
    assert_eq!(s.ensure_directory("projects"), Ok(()));
    assert_eq!(s.write_text("projects/x.json", "{}"), Ok(()));
    assert_eq!(s.list_entries("projects"), Ok(vec!["x.json".to_string()]));
}

#[test]
fn from_app_data_derives_the_root() {
    let s = from_app_data(Some("/data/app")).unwrap();
    assert_eq!(s.root_dir(), "/data/app/loopos");
}

#[test]
fn from_app_data_without_host_dir_fails() {
    assert!(matches!(from_app_data(None), Err(CacheError::EnvironmentError)));
}

#[test]
fn resolve_is_rooted_at_the_store() {
    let s = store();
    assert_eq!(s.resolve("notes/a.txt"), Ok("/data/app/loopos/notes/a.txt".to_string()));
    assert_eq!(s.resolve("../../etc/passwd"), Err(CacheError::PathTraversalError));
}

#[test]
fn read_missing_reports_not_found() {
    let s = store();
    assert_eq!(s.read_text("ghost.txt"), Err(CacheError::NotFoundError));
}

#[test]
fn read_directory_is_io_error() {
    let mut s = store();
    assert_eq!(s.ensure_directory("d"), Ok(()));
    assert_eq!(s.read_text("d"), Err(CacheError::IoError));
}

#[test]
fn read_root_is_io_error() {
    let s = store();
    assert_eq!(s.read_text(""), Err(CacheError::IoError));
}

#[test]
fn write_over_directory_is_io_error() {
    let mut s = store();
    assert_eq!(s.ensure_directory("d"), Ok(()));
    assert_eq!(s.write_text("d", "x"), Err(CacheError::IoError));
}

#[test]
fn write_below_file_is_io_error() {
    let mut s = store();
    assert_eq!(s.write_text("f", "x"), Ok(()));
    assert_eq!(s.write_text("f/child", "y"), Err(CacheError::IoError));
}

#[test]
fn write_to_root_is_io_error() {
    let mut s = store();
    assert_eq!(s.write_text("", "x"), Err(CacheError::IoError));
}

#[test]
fn write_over_implicit_parent_is_io_error() {
    let mut s = store();
    assert_eq!(s.write_text("a/b.txt", "x"), Ok(()));
    assert_eq!(s.write_text("a", "y"), Err(CacheError::IoError));
}

#[test]
fn ensure_directory_is_idempotent() {
    let mut s = store();
    assert_eq!(s.ensure_directory("projects"), Ok(()));
    assert_eq!(s.ensure_directory("projects"), Ok(()));
}

#[test]
fn ensure_directory_over_file_is_io_error() {
    let mut s = store();
    assert_eq!(s.write_text("f", "x"), Ok(()));
    assert_eq!(s.ensure_directory("f"), Err(CacheError::IoError));
    assert_eq!(s.ensure_directory("f/sub"), Err(CacheError::IoError));
}

#[test]
fn ensure_directory_of_root_succeeds() {
    let mut s = store();
    assert_eq!(s.ensure_directory(""), Ok(()));
}

#[test]
fn delete_directory_is_io_error() {
    let mut s = store();
    assert_eq!(s.ensure_directory("d"), Ok(()));
    assert_eq!(s.delete_entry("d"), Err(CacheError::IoError));
}

#[test]
fn delete_implicit_parent_is_io_error() {
    let mut s = store();
    assert_eq!(s.write_text("a/b.txt", "x"), Ok(()));
    assert_eq!(s.delete_entry("a"), Err(CacheError::IoError));
}

#[test]
fn traversal_is_rejected_on_every_operation() {
    let mut s = store();
    let bad = "../outside";
    assert_eq!(s.read_text(bad), Err(CacheError::PathTraversalError));
    assert_eq!(s.write_text(bad, "x"), Err(CacheError::PathTraversalError));
    assert_eq!(s.ensure_directory(bad), Err(CacheError::PathTraversalError));
    assert_eq!(s.list_entries(bad), Err(CacheError::PathTraversalError));
    assert_eq!(s.delete_entry(bad), Err(CacheError::PathTraversalError));
}

#[test]
fn list_file_is_io_error() {
    let mut s = store();
    assert_eq!(s.write_text("f", "x"), Ok(()));
    assert_eq!(s.list_entries("f"), Err(CacheError::IoError));
}

#[test]
fn list_root_reports_each_entry_once() {
    let mut s = store();
    assert_eq!(s.ensure_directory("d"), Ok(()));
    assert_eq!(s.write_text("d/f.txt", "1"), Ok(()));
    assert_eq!(s.list_entries(""), Ok(vec!["d".to_string()]));
}

#[test]
fn write_creates_missing_parents() {
    let mut s = store();
    assert_eq!(s.write_text("x/y/z.txt", "deep"), Ok(()));
    assert_eq!(s.read_text("x/y/z.txt"), Ok("deep".to_string()));
    assert_eq!(s.list_entries("x"), Ok(vec!["y".to_string()]));
}

#[test]
fn normalized_paths_name_the_same_file() {
    let mut s = store();
    assert_eq!(s.write_text("a/b.txt", "v"), Ok(()));
    assert_eq!(s.read_text("./a//b.txt"), Ok("v".to_string()));
    assert_eq!(s.read_text("a/c/../b.txt"), Ok("v".to_string()));
}

#[test]
fn error_messages_name_the_failure() {
    assert_eq!(
        CacheError::PathTraversalError.message(),
        "Invalid path: attempted directory traversal"
    );
    assert_eq!(CacheError::EnvironmentError.message(), "Failed to get app data directory");
    assert_eq!(CacheError::NotFoundError.message(), "Failed to read file: not found");
    assert_eq!(CacheError::IoError.message(), "Filesystem operation failed");
}
