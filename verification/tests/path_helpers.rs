//! Tests for the path helpers: the source-directory locator and the join
//! convenience.

use std::path::PathBuf;

use helper::{get_src_dir, join};

fn as_path(bytes: Vec<u8>) -> PathBuf {
    PathBuf::from(String::from_utf8(bytes).unwrap())
}

#[test]
fn algo_src_macro() {
    // The base project directory, as the build tool would hand it over in
    // CARGO_MANIFEST_DIR; the source directory sits beside it.
    let manifest_dir = "/work/algorithms/helper";
    let src_dir = PathBuf::from(manifest_dir).with_file_name("src");
    let root = get_src_dir(manifest_dir.as_bytes());
    assert_eq!(as_path(root.clone()), src_dir);
    assert_eq!(as_path(join(&root, "lib".as_bytes())), src_dir.join("lib"));
    assert_eq!(
        as_path(join(&root, "backtracking/sudoku.rs".as_bytes())),
        src_dir.join("backtracking").join("sudoku.rs")
    );
}

#[test]
fn src_dir_replaces_the_last_component() {
    assert_eq!(get_src_dir("/a/b/helper".as_bytes()), "/a/b/src".as_bytes().to_vec());
    assert_eq!(get_src_dir("helper".as_bytes()), "src".as_bytes().to_vec());
    assert_eq!(get_src_dir("/helper".as_bytes()), "/src".as_bytes().to_vec());
}

#[test]
fn join_inserts_a_separator_only_where_needed() {
    assert_eq!(join("a/b".as_bytes(), "c".as_bytes()), "a/b/c".as_bytes().to_vec());
    assert_eq!(join("a/b/".as_bytes(), "c".as_bytes()), "a/b/c".as_bytes().to_vec());
    assert_eq!(join("".as_bytes(), "c".as_bytes()), "c".as_bytes().to_vec());
}

#[test]
fn join_lets_an_absolute_component_replace_the_root() {
    assert_eq!(join("a/b".as_bytes(), "/abs/c".as_bytes()), "/abs/c".as_bytes().to_vec());
}
