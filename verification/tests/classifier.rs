//! Tests for the line classifier.

use helper::classify::test_module_marker;
use helper::count_loc;

fn marker_line() -> String {
    String::from_utf8(test_module_marker()).unwrap()
}

#[test]
fn counts_plain_code_lines() {
    let text = "fn main() {\n    let x = 1;\n}\n";
    assert_eq!(count_loc(text.as_bytes()), 3);
}

#[test]
fn empty_text_counts_zero() {
    assert_eq!(count_loc("".as_bytes()), 0);
}

#[test]
fn blanks_and_line_comments_count_zero() {
    let text = "\n// a comment\n   \n\t\n// another // one\n";
    assert_eq!(count_loc(text.as_bytes()), 0);
}

#[test]
fn block_comment_spanning_lines_two_to_five() {
    // One code line, a block comment over the next four lines, one code
    // line after: only the two code lines count.
    let text = "first();\n/*\ninside\nstill inside\n*/\nsecond();\n";
    assert_eq!(count_loc(text.as_bytes()), 2);
}

#[test]
fn one_line_block_comment_not_counted() {
    let text = "/* short */\ncode();\n";
    assert_eq!(count_loc(text.as_bytes()), 1);
}

#[test]
fn stray_block_close_in_regular_mode_is_code() {
    // A block-comment closer with no block comment open counts as code.
    let text = "*/\n";
    assert_eq!(count_loc(text.as_bytes()), 1);
}

#[test]
fn code_inside_block_comment_not_counted() {
    let text = "/*\nlooks_like_code();\nmore();\n*/\n";
    assert_eq!(count_loc(text.as_bytes()), 0);
}

#[test]
fn test_block_fully_excluded() {
    // A marker line, a brace-balanced block of code lines, a closing
    // brace: none of it counts; the line after does.
    let text = format!(
        "{}\nmod tests {{\n    fn check() {{\n        run();\n    }}\n}}\nafter();\n",
        marker_line()
    );
    assert_eq!(count_loc(text.as_bytes()), 1);
}

#[test]
fn long_test_block_contributes_nothing() {
    let mut text = format!("kept();\n{}\nmod tests {{\n", marker_line());
    for i in 0..40 {
        text.push_str(&format!("    let v{} = {};\n", i, i));
    }
    text.push_str("}\n");
    assert_eq!(count_loc(text.as_bytes()), 1);
}

#[test]
fn whitespace_is_trimmed_before_classification() {
    let text = "   indented();\r\n\t// tabbed comment\r\n  trailing();   \n";
    assert_eq!(count_loc(text.as_bytes()), 2);
}

#[test]
fn missing_final_newline_still_counts_last_line() {
    let text = "a();\nb();";
    assert_eq!(count_loc(text.as_bytes()), 2);
}

#[test]
fn classifier_is_a_pure_function_of_the_text() {
    let text = "one();\n// skip\ntwo();\n";
    let first = count_loc(text.as_bytes());
    let second = count_loc(text.as_bytes());
    assert_eq!(first, second);
    assert_eq!(first, 2);
}

#[test]
fn count_never_exceeds_physical_lines() {
    let samples = [
        "",
        "\n",
        "a\nb\nc",
        "// x\ny\n/*\nz\n*/\n",
        "   \n\t\n",
    ];
    for text in samples {
        let physical = text.lines().count();
        assert!(count_loc(text.as_bytes()) <= physical);
    }
}
