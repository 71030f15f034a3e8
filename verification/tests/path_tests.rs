use loopos_cache::errors::CacheError;
use loopos_cache::path::{resolve_path, str_eq};
use loopos_cache::store::resolve_root;

#[test]
fn resolves_simple_relative_path() {
    let r = resolve_path("/data/app/loopos", "notes/a.txt");
    assert_eq!(r, Ok("/data/app/loopos/notes/a.txt".to_string()));
}

#[test]
fn rejects_escaping_parent_segments() {
    let r = resolve_path("/data/app/loopos", "../../etc/passwd");
    assert_eq!(r, Err(CacheError::PathTraversalError));
}

#[test]
fn resolve_root_appends_namespace() {
    assert_eq!(resolve_root(Some("/data/app")), Ok("/data/app/loopos".to_string()));
}

#[test]
fn resolve_root_without_host_dir_fails() {
    assert_eq!(resolve_root(None), Err(CacheError::EnvironmentError));
}

#[test]
fn rejects_absolute_override() {
    assert_eq!(resolve_path("/root", "/etc/passwd"), Err(CacheError::PathTraversalError));
}

#[test]
fn rejects_lone_parent_segment() {
    assert_eq!(resolve_path("/root", ".."), Err(CacheError::PathTraversalError));
}

#[test]
fn rejects_parent_escape_after_descent() {
    assert_eq!(resolve_path("/root", "a/../.."), Err(CacheError::PathTraversalError));
}

#[test]
fn normalizes_dot_and_empty_segments() {
    assert_eq!(resolve_path("/root", "a//b/./c"), Ok("/root/a/b/c".to_string()));
}

#[test]
fn normalizes_contained_parent_segment() {
    assert_eq!(resolve_path("/root", "a/../b"), Ok("/root/b".to_string()));
}

#[test]
fn empty_relative_path_names_the_root() {
    assert_eq!(resolve_path("/root", ""), Ok("/root".to_string()));
}

#[test]
fn parent_back_to_root_is_allowed() {
    assert_eq!(resolve_path("/root", "a/.."), Ok("/root".to_string()));
}

#[test]
fn trailing_separator_is_dropped() {
    assert_eq!(resolve_path("/root", "notes/"), Ok("/root/notes".to_string()));
}

#[test]
fn str_eq_compares_contents() {
    assert!(str_eq("abc", "abc"));
    assert!(!str_eq("abc", "abd"));
    assert!(!str_eq("abc", "ab"));
    assert!(str_eq("", ""));
}
