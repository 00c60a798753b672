//! Tests for the file filter, the record builder, and the ranking.

use helper::classify::test_module_marker;
use helper::{Algorithm, RankError, SourceEntry};
use helper::{is_inrelevant_file, sort, sort_by_catagory, sort_by_line_count};

fn entry(path: &str, content: &str) -> SourceEntry {
    SourceEntry { path: path.as_bytes().to_vec(), content: content.as_bytes().to_vec() }
}

fn marker_line() -> String {
    String::from_utf8(test_module_marker()).unwrap()
}

/// One code line followed by a ten-line test block.
fn one_code_line_and_test_block() -> String {
    format!(
        "only();\n{}\nmod tests {{\n    a();\n    b();\n    c();\n    d();\n    e();\n    f();\n    g();\n}}\n",
        marker_line()
    )
}

#[test]
fn filter_rejects_index_and_utility_files() {
    assert!(is_inrelevant_file("src/lib.rs".as_bytes()));
    assert!(is_inrelevant_file("src/mod.rs".as_bytes()));
    assert!(is_inrelevant_file("src/string_utils.rs".as_bytes()));
    assert!(is_inrelevant_file("src/notes.txt".as_bytes()));
    assert!(is_inrelevant_file("src/readme".as_bytes()));
    assert!(is_inrelevant_file("".as_bytes()));
}

#[test]
fn filter_accepts_ordinary_source_files() {
    assert!(!is_inrelevant_file("src/sorting/quick.rs".as_bytes()));
    assert!(!is_inrelevant_file("deep/nested/dir/algo.rs".as_bytes()));
    // A root-level source file passes the filter; resolving it is what
    // fails later, for want of a parent directory.
    assert!(!is_inrelevant_file("orphan.rs".as_bytes()));
}

#[test]
fn from_path_builds_the_record() {
    let a = Algorithm::from_path("root/backtracking/sudoku.rs".as_bytes(), "a();\nb();\n".as_bytes())
        .unwrap();
    assert_eq!(a.name, "sudoku".as_bytes().to_vec());
    assert_eq!(a.catagory, "backtracking".as_bytes().to_vec());
    assert_eq!(a.path, "root/backtracking/sudoku.rs".as_bytes().to_vec());
    assert_eq!(a.loc, 2);
}

#[test]
fn from_path_without_parent_directory_fails() {
    assert!(Algorithm::from_path("sudoku.rs".as_bytes(), "a();\n".as_bytes()).is_none());
}

#[test]
fn ranking_end_to_end() {
    // Three files: one with three code lines, one with one code line and
    // an excluded ten-line test block, and a library-root file the filter
    // drops.  The ranking is ascending by code-line count and never shows
    // the filtered file.
    let entries = vec![
        entry("root/alg/a.rs", "one();\ntwo();\nthree();\n"),
        entry("root/alg/b.rs", &one_code_line_and_test_block()),
        entry("root/alg/lib.rs", "pub mod a;\npub mod b;\n"),
    ];
    let ranked = sort_by_line_count(entries).unwrap();
    assert_eq!(ranked.len(), 2);
    assert_eq!(ranked[0].name, "b".as_bytes().to_vec());
    assert_eq!(ranked[0].loc, 1);
    assert_eq!(ranked[1].name, "a".as_bytes().to_vec());
    assert_eq!(ranked[1].loc, 3);
}

#[test]
fn ranking_is_stable_for_equal_counts() {
    let entries = vec![
        entry("root/x/late.rs", "a();\nb();\n"),
        entry("root/x/first.rs", "c();\n"),
        entry("root/x/second.rs", "d();\n"),
        entry("root/x/third.rs", "e();\n"),
    ];
    let ranked = sort_by_line_count(entries).unwrap();
    let names: Vec<&[u8]> = ranked.iter().map(|a| a.name.as_slice()).collect();
    assert_eq!(
        names,
        vec![
            "first".as_bytes(),
            "second".as_bytes(),
            "third".as_bytes(),
            "late".as_bytes(),
        ]
    );
}

#[test]
fn ranking_fails_on_root_level_file() {
    let entries = vec![
        entry("root/alg/a.rs", "one();\n"),
        entry("orphan.rs", "two();\n"),
    ];
    match sort_by_line_count(entries) {
        Err(RankError::FilterAmbiguity(path)) => {
            assert_eq!(path, "orphan.rs".as_bytes().to_vec());
        },
        other => panic!("expected a filter ambiguity, got {:?}", other),
    }
}

#[test]
fn sort_yields_the_same_order_as_a_queue() {
    let entries = vec![
        entry("root/alg/big.rs", "a();\nb();\nc();\nd();\n"),
        entry("root/alg/small.rs", "e();\n"),
    ];
    let ranked = sort(entries).unwrap();
    let names: Vec<&[u8]> = ranked.iter().map(|a| a.name.as_slice()).collect();
    assert_eq!(names, vec!["small".as_bytes(), "big".as_bytes()]);
}

#[test]
fn sort_reports_the_offending_path() {
    let entries = vec![entry("orphan.rs", "two();\n")];
    match sort(entries) {
        Err(RankError::FilterAmbiguity(path)) => {
            assert_eq!(path, "orphan.rs".as_bytes().to_vec());
        },
        other => panic!("expected a filter ambiguity, got {:?}", other),
    }
}

#[test]
fn sort_by_catagory_is_empty_for_now() {
    let ranked = sort_by_catagory().unwrap();
    assert!(ranked.is_empty());
}
