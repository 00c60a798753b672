//! The line classifier: a single-pass state machine over the lines of one
//! file that counts the lines holding code, skipping blank lines, line
//! comments, block comments and test blocks.
//!
//! The test-block exclusion is a lexical heuristic: it tracks only a brace
//! depth over trimmed line endings, so braces inside string literals, or
//! block comments opened inside a test block, can mislead it.  That
//! limitation is deliberate; the classifier is not a parser.

use vstd::prelude::*;

use crate::text::{
    contains_seq, ends_with_byte, find_byte, newline, split_lines, starts_with, trimmed,
    lemma_split_bytes_len, lemma_split_bytes_step, lemma_split_bytes_trailing_empty,
    lemma_split_bytes_whole, slice_contains, slice_ends_with_byte, slice_starts_with, trim_range,
};

verus! {

/// The two bytes that open a line comment.
pub open spec fn line_comment() -> Seq<u8> {
    seq![47u8, 47u8]
}

/// The two bytes that open a block comment.
pub open spec fn block_open() -> Seq<u8> {
    seq![47u8, 42u8]
}

/// The two bytes that close a block comment.
pub open spec fn block_close() -> Seq<u8> {
    seq![42u8, 47u8]
}

/// The attribute-like marker that opens a test module.
pub open spec fn test_marker() -> Seq<u8> {
    seq![35u8, 91u8, 99u8, 102u8, 103u8, 40u8, 116u8, 101u8, 115u8, 116u8, 41u8, 93u8]
}

/// The marker bytes that open a test module, as an executable value.
pub fn test_module_marker() -> (v: Vec<u8>)
    ensures
        v@ == test_marker(),
{
    let v: Vec<u8> = vec![35u8, 91u8, 99u8, 102u8, 103u8, 40u8, 116u8, 101u8, 115u8, 116u8, 41u8, 93u8];
    proof {
        assert(v@ =~= test_marker());
    }
    v
}

/// Where the classifier stands between two lines.
#[derive(PartialEq, Eq, Structural, Clone, Copy, Debug)]
pub enum ScanMode {
    /// Outside any comment or test block: lines here are counted.
    Regular,
    /// Inside a block comment that has not closed yet.
    InBlockComment,
    /// Inside a test block; the brace depth is tracked separately.
    InTestBlock,
}

/// The full classifier state: the mode, the brace depth of the current test
/// block, and the running count of code lines.
pub ghost struct ScanState {
    pub mode: ScanMode,
    pub depth: int,
    pub count: nat,
}

pub open spec fn scan_state(mode: ScanMode, depth: int, count: nat) -> ScanState {
    ScanState { mode, depth, count }
}

/// The state at the start of each file: regular mode, depth zero, count zero.
pub open spec fn init_state() -> ScanState {
    scan_state(ScanMode::Regular, 0, 0)
}

/// Classify one line and step the state.  The branches are tried in order on
/// the trimmed line:
/// 1. blank, line comment, or one-line block comment: skipped;
/// 2. a block-comment opener that does not close: enter the block comment;
/// 3. a block-comment closer, while inside a block comment: leave it;
/// 4. the test-module marker: enter a test block at depth zero;
/// 5. inside a test block, a line ending in an opening brace: deepen;
/// 6. inside a test block, a line ending in a closing brace: rise, and leave
///    the test block when the depth reaches zero;
/// 7. in regular mode: the line is code, count it;
/// 8. otherwise (inside a comment or test block): skipped.
pub open spec fn scan_line(st: ScanState, line: Seq<u8>) -> ScanState {
    let t = trimmed(line);
    if t.len() == 0 || starts_with(t, line_comment()) || (starts_with(t, block_open())
        && contains_seq(t, block_close())) {
        st
    } else if starts_with(t, block_open()) {
        scan_state(ScanMode::InBlockComment, st.depth, st.count)
    } else if st.mode == ScanMode::InBlockComment && starts_with(t, block_close()) {
        scan_state(ScanMode::Regular, st.depth, st.count)
    } else if starts_with(t, test_marker()) {
        scan_state(ScanMode::InTestBlock, 0, st.count)
    } else if st.mode == ScanMode::InTestBlock && ends_with_byte(t, 123) {
        scan_state(st.mode, st.depth + 1, st.count)
    } else if st.mode == ScanMode::InTestBlock && ends_with_byte(t, 125) {
        if st.depth == 1 {
            scan_state(ScanMode::Regular, 0, st.count)
        } else {
            scan_state(st.mode, st.depth - 1, st.count)
        }
    } else if st.mode == ScanMode::Regular {
        scan_state(st.mode, st.depth, st.count + 1)
    } else {
        st
    }
}

/// Fold `scan_line` over a sequence of lines.
pub open spec fn scan_lines(st: ScanState, lines: Seq<Seq<u8>>) -> ScanState
    decreases lines.len(),
{
    if lines.len() == 0 {
        st
    } else {
        scan_lines(scan_line(st, lines[0]), lines.skip(1))
    }
}

/// The number of code lines in the text `t`: what a full scan from the
/// initial state counts over the lines of `t`.
pub open spec fn line_count(t: Seq<u8>) -> nat {
    scan_lines(init_state(), split_lines(t)).count
}

/// A blank line leaves the state unchanged.
pub proof fn lemma_scan_blank_line(st: ScanState, line: Seq<u8>)
    requires
        trimmed(line).len() == 0,
    ensures
        scan_line(st, line) == st,
{
}

/// Count the code lines of one file's text, given as bytes.
///
/// Runs the classifier over the lines of `content` in one forward pass.
/// The result is pinned to the specification `line_count`, so it depends on
/// the text alone: blank lines, line comments, block comments and test
/// blocks are not counted, every other line is.
pub fn count_loc(content: &[u8]) -> (n: usize)
    ensures
        n == line_count(content@),
{
    let ghost t = content@;
    let mut pos: usize = 0;
    let mut mode = ScanMode::Regular;
    let mut depth: i128 = 0;
    let mut count: usize = 0;
    let bytes_lc: Vec<u8> = vec![47u8, 47u8];
    let bytes_bo: Vec<u8> = vec![47u8, 42u8];
    let bytes_bc: Vec<u8> = vec![42u8, 47u8];
    let bytes_tm: Vec<u8> = test_module_marker();
    proof {
        assert(bytes_lc@ =~= line_comment());
        assert(bytes_bo@ =~= block_open());
        assert(bytes_bc@ =~= block_close());
        assert(t.skip(0) =~= t);
    }
    while pos < content.len()
        invariant
            0 <= pos <= t.len() == content@.len(),
            t == content@,
            count <= pos,
            -(pos as int) <= depth as int <= pos as int,
            bytes_lc@ == line_comment(),
            bytes_bo@ == block_open(),
            bytes_bc@ == block_close(),
            bytes_tm@ == test_marker(),
            scan_lines(scan_state(mode, depth as int, count as nat), split_lines(t.skip(pos as int)))
                == scan_lines(init_state(), split_lines(t)),
        decreases t.len() - pos,
    {
        let end = find_byte(content, pos, 10);
        let line = vstd::slice::slice_subrange(content, pos, end);
        let ghost rest = t.skip(pos as int);
        proof {
            assert(line@ =~= rest.take(end - pos));
        }
        let bounds = trim_range(line);
        let tline = vstd::slice::slice_subrange(line, bounds.0, bounds.1);
        let ghost st0 = scan_state(mode, depth as int, count as nat);
        // The branch chain mirrors `scan_line` on the trimmed line.
        if tline.len() == 0 || slice_starts_with(tline, bytes_lc.as_slice()) || (
        slice_starts_with(tline, bytes_bo.as_slice()) && slice_contains(
            tline,
            bytes_bc.as_slice(),
        )) {
            // skipped: blank, line comment, or one-line block comment
        } else if slice_starts_with(tline, bytes_bo.as_slice()) {
            mode = ScanMode::InBlockComment;
        } else if matches!(mode, ScanMode::InBlockComment) && slice_starts_with(
            tline,
            bytes_bc.as_slice(),
        ) {
            mode = ScanMode::Regular;
        } else if slice_starts_with(tline, bytes_tm.as_slice()) {
            mode = ScanMode::InTestBlock;
            depth = 0;
        } else if matches!(mode, ScanMode::InTestBlock) && slice_ends_with_byte(tline, 123) {
            depth = depth + 1;
        } else if matches!(mode, ScanMode::InTestBlock) && slice_ends_with_byte(tline, 125) {
            depth = depth - 1;
            if depth == 0 {
                mode = ScanMode::Regular;
            }
        } else if matches!(mode, ScanMode::Regular) {
            count = count + 1;
        }
        proof {
            assert(scan_state(mode, depth as int, count as nat) == scan_line(st0, line@));
            if end < t.len() {
                lemma_split_bytes_step(rest, newline(), end - pos);
                assert(rest.skip(end - pos + 1) =~= t.skip(end + 1));
                let lines = split_lines(rest);
                assert(lines == seq![line@] + split_lines(t.skip(end + 1)));
                assert(lines[0] == line@);
                assert(lines.skip(1) =~~= split_lines(t.skip(end + 1)));
            } else {
                lemma_split_bytes_whole(rest, newline());
                assert(split_lines(rest) == seq![line@]);
                assert(split_lines(rest).skip(1) =~~= Seq::<Seq<u8>>::empty());
                assert(t.skip(t.len() as int) =~= Seq::<u8>::empty());
                assert(trimmed(Seq::<u8>::empty()).len() == 0);
                lemma_scan_blank_line(
                    scan_state(mode, depth as int, count as nat),
                    Seq::<u8>::empty(),
                );
                assert(split_lines(t.skip(t.len() as int)) == seq![Seq::<u8>::empty()]);
                assert(split_lines(t.skip(t.len() as int)).skip(1) =~~= Seq::<Seq<u8>>::empty());
            }
        }
        if end < content.len() {
            pos = end + 1;
        } else {
            pos = end;
        }
    }
    proof {
        assert(t.skip(t.len() as int) =~= Seq::<u8>::empty());
        let last = split_lines(t.skip(t.len() as int));
        assert(last == seq![Seq::<u8>::empty()]);
        let cur = scan_state(mode, depth as int, count as nat);
        assert(trimmed(Seq::<u8>::empty()).len() == 0);
        lemma_scan_blank_line(cur, Seq::<u8>::empty());
        assert(last[0] == Seq::<u8>::empty());
        assert(last.skip(1) =~~= Seq::<Seq<u8>>::empty());
        assert(scan_lines(cur, last) == scan_lines(scan_line(cur, last[0]), last.skip(1)));
        assert(scan_lines(cur, last.skip(1)) == cur);
        assert(scan_lines(cur, last) == cur);
    }
    count
}

/// The physical line count of `t`: what a line-by-line read of the text
/// yields, a final newline ending the last line rather than starting an
/// empty one.
pub open spec fn physical_line_count(t: Seq<u8>) -> nat {
    if t.len() == 0 {
        0nat
    } else if t[t.len() - 1] == newline() {
        (split_lines(t).len() - 1) as nat
    } else {
        split_lines(t).len()
    }
}

/// One line moves the count up by at most one, and a blank line not at
/// all.
proof fn lemma_scan_line_count_step(st: ScanState, l: Seq<u8>)
    ensures
        st.count <= scan_line(st, l).count <= st.count + 1,
{
}

/// A scan never lowers the count, and raises it by at most the number of
/// lines scanned.
pub proof fn lemma_scan_lines_count_bound(st: ScanState, lines: Seq<Seq<u8>>)
    ensures
        st.count <= scan_lines(st, lines).count <= st.count + lines.len(),
    decreases lines.len(),
{
    if lines.len() > 0 {
        lemma_scan_line_count_step(st, lines[0]);
        lemma_scan_lines_count_bound(scan_line(st, lines[0]), lines.skip(1));
    }
}

/// A blank final line changes nothing about a scan.
proof fn lemma_scan_lines_drop_blank_last(st: ScanState, lines: Seq<Seq<u8>>)
    requires
        lines.len() > 0,
        trimmed(lines.last()).len() == 0,
    ensures
        scan_lines(st, lines) == scan_lines(st, lines.drop_last()),
    decreases lines.len(),
{
    if lines.len() == 1 {
        lemma_scan_blank_line(st, lines[0]);
        assert(lines.skip(1) =~~= Seq::<Seq<u8>>::empty());
        assert(lines.drop_last() =~~= Seq::<Seq<u8>>::empty());
    } else {
        let st1 = scan_line(st, lines[0]);
        assert(lines.skip(1).last() == lines.last());
        lemma_scan_lines_drop_blank_last(st1, lines.skip(1));
        assert(lines.skip(1).drop_last() =~~= lines.drop_last().skip(1));
        assert(lines.drop_last()[0] == lines[0]);
    }
}

/// A file's code-line count never exceeds its physical line count.
pub proof fn lemma_line_count_le_physical(t: Seq<u8>)
    ensures
        line_count(t) <= physical_line_count(t),
{
    let lines = split_lines(t);
    lemma_split_bytes_len(t, newline());
    if t.len() == 0 {
        assert(lines == seq![Seq::<u8>::empty()]);
        lemma_scan_blank_line(init_state(), Seq::<u8>::empty());
        assert(lines.skip(1) =~~= Seq::<Seq<u8>>::empty());
        assert(lines[0] == Seq::<u8>::empty());
        assert(scan_lines(init_state(), lines) == scan_lines(
            scan_line(init_state(), lines[0]),
            lines.skip(1),
        ));
        assert(scan_lines(init_state(), lines.skip(1)) == init_state());
        assert(scan_lines(init_state(), lines) == init_state());
    } else if t[t.len() - 1] == newline() {
        lemma_split_bytes_trailing_empty(t, newline());
        assert(trimmed(lines.last()).len() == 0);
        lemma_scan_lines_drop_blank_last(init_state(), lines);
        lemma_scan_lines_count_bound(init_state(), lines.drop_last());
    } else {
        lemma_scan_lines_count_bound(init_state(), lines);
    }
}

/// A line that is blank or a line comment, once trimmed.
pub open spec fn blank_or_line_comment(l: Seq<u8>) -> bool {
    trimmed(l).len() == 0 || starts_with(trimmed(l), line_comment())
}

proof fn lemma_scan_lines_all_skipped(st: ScanState, lines: Seq<Seq<u8>>)
    requires
        forall|i: int| 0 <= i < lines.len() ==> blank_or_line_comment(#[trigger] lines[i]),
    ensures
        scan_lines(st, lines) == st,
    decreases lines.len(),
{
    if lines.len() > 0 {
        assert(scan_line(st, lines[0]) == st);
        lemma_scan_lines_all_skipped(st, lines.skip(1));
    }
}

/// A file holding only blank lines and line comments has no code lines.
pub proof fn lemma_only_blanks_and_comments(t: Seq<u8>)
    requires
        forall|i: int| 0 <= i < split_lines(t).len() ==> blank_or_line_comment(
            #[trigger] split_lines(t)[i],
        ),
    ensures
        line_count(t) == 0,
{
    lemma_scan_lines_all_skipped(init_state(), split_lines(t));
}

/// A line the classifier skips outright: blank, a line comment, or a
/// one-line block comment.
pub open spec fn skipped_line(l: Seq<u8>) -> bool {
    trimmed(l).len() == 0 || starts_with(trimmed(l), line_comment()) || (starts_with(
        trimmed(l),
        block_open(),
    ) && contains_seq(trimmed(l), block_close()))
}

/// A line that, scanned inside a test block, at most moves the brace
/// depth: it does not open a block comment that stays open on later lines,
/// and does not carry the test-module marker.
pub open spec fn plain_test_line(l: Seq<u8>) -> bool {
    !(starts_with(trimmed(l), block_open()) && !contains_seq(trimmed(l), block_close()))
        && !starts_with(trimmed(l), test_marker())
}

/// How a line moves the brace depth inside a test block.
pub open spec fn brace_delta(l: Seq<u8>) -> int {
    if skipped_line(l) {
        0
    } else if ends_with_byte(trimmed(l), 123) {
        1
    } else if ends_with_byte(trimmed(l), 125) {
        -1
    } else {
        0
    }
}

/// The brace depth after the first `j` lines, starting from zero.
pub open spec fn depth_after(lines: Seq<Seq<u8>>, j: int) -> int
    decreases j,
{
    if j <= 0 {
        0
    } else {
        depth_after(lines, j - 1) + brace_delta(lines[j - 1])
    }
}

proof fn lemma_depth_after_shift(lines: Seq<Seq<u8>>, j: int)
    requires
        1 <= j <= lines.len(),
    ensures
        depth_after(lines, j) == brace_delta(lines[0]) + depth_after(lines.skip(1), j - 1),
    decreases j,
{
    if j == 1 {
        assert(depth_after(lines, 0) == 0);
        assert(depth_after(lines.skip(1), 0) == 0);
    } else {
        lemma_depth_after_shift(lines, j - 1);
        assert(lines.skip(1)[j - 2] == lines[j - 1]);
    }
}

/// Inside a test block, a plain line leaves the count alone, moves the
/// depth by its brace delta, and leaves the block exactly when its delta
/// closes the last open brace.
proof fn lemma_scan_test_line(st: ScanState, l: Seq<u8>)
    requires
        st.mode == ScanMode::InTestBlock,
        plain_test_line(l),
    ensures
        scan_line(st, l).count == st.count,
        scan_line(st, l).depth == if st.depth == 1 && brace_delta(l) == -1 {
            0int
        } else {
            st.depth + brace_delta(l)
        },
        scan_line(st, l).mode == if st.depth == 1 && brace_delta(l) == -1 {
            ScanMode::Regular
        } else {
            ScanMode::InTestBlock
        },
{
}

/// Scanning a brace-balanced tail from inside a test block counts nothing
/// and ends back in regular mode.
proof fn lemma_scan_test_body(st: ScanState, lines: Seq<Seq<u8>>)
    requires
        st.mode == ScanMode::InTestBlock,
        st.depth >= 1,
        lines.len() >= 1,
        forall|i: int| 0 <= i < lines.len() ==> plain_test_line(#[trigger] lines[i]),
        forall|j: int| 1 <= j < lines.len() ==> st.depth + depth_after(lines, j) >= 1,
        st.depth + depth_after(lines, lines.len() as int) == 0,
    ensures
        scan_lines(st, lines) == scan_state(ScanMode::Regular, 0, st.count),
    decreases lines.len(),
{
    let l0 = lines[0];
    lemma_scan_test_line(st, l0);
    let st1 = scan_line(st, l0);
    assert(depth_after(lines, 0) == 0);
    assert(depth_after(lines, 1) == brace_delta(l0));
    if lines.len() == 1 {
        assert(st.depth + brace_delta(l0) == 0);
        assert(st.depth == 1 && brace_delta(l0) == -1);
        assert(st1 == scan_state(ScanMode::Regular, 0, st.count));
        assert(lines.skip(1) =~~= Seq::<Seq<u8>>::empty());
        assert(scan_lines(st, lines) == scan_lines(st1, lines.skip(1)));
        assert(scan_lines(st1, lines.skip(1)) == st1);
    } else {
        assert(st.depth + depth_after(lines, 1) >= 1);
        assert(!(st.depth == 1 && brace_delta(l0) == -1));
        assert(st1.mode == ScanMode::InTestBlock);
        assert(st1.depth == st.depth + brace_delta(l0));
        assert forall|j: int| 1 <= j < lines.skip(1).len() implies st1.depth + depth_after(
            lines.skip(1),
            j,
        ) >= 1 by {
            lemma_depth_after_shift(lines, j + 1);
        }
        assert(st1.depth + depth_after(lines.skip(1), lines.skip(1).len() as int) == 0) by {
            lemma_depth_after_shift(lines, lines.len() as int);
        }
        lemma_scan_test_body(st1, lines.skip(1));
    }
}

/// A test block contributes nothing to the code-line count, however many
/// lines stand inside it: after the test-module marker, lines that raise
/// the brace depth to one and keep it positive until a final closing line
/// returns it to zero are all skipped, and the scan comes back to regular
/// mode with its count unchanged.
pub proof fn lemma_test_block_excluded(st: ScanState, lines: Seq<Seq<u8>>)
    requires
        st.mode == ScanMode::Regular,
        lines.len() >= 3,
        starts_with(trimmed(lines[0]), test_marker()),
        forall|i: int| 1 <= i < lines.len() ==> plain_test_line(#[trigger] lines[i]),
        forall|j: int| 1 <= j < lines.len() - 1 ==> depth_after(lines.skip(1), j) >= 1,
        depth_after(lines.skip(1), lines.len() - 1) == 0,
    ensures
        scan_lines(st, lines) == scan_state(ScanMode::Regular, 0, st.count),
{
    let t0 = trimmed(lines[0]);
    assert(t0.take(test_marker().len() as int)[0] == t0[0]);
    assert(t0[0] == 35);
    assert(!starts_with(t0, line_comment())) by {
        if starts_with(t0, line_comment()) {
            assert(t0.take(2)[0] == t0[0]);
        }
    }
    assert(!starts_with(t0, block_open())) by {
        if starts_with(t0, block_open()) {
            assert(t0.take(2)[0] == t0[0]);
        }
    }
    let st1 = scan_line(st, lines[0]);
    assert(st1 == scan_state(ScanMode::InTestBlock, 0, st.count));
    let body = lines.skip(1);
    assert(body[0] == lines[1]);
    assert(depth_after(body, 0) == 0);
    assert(depth_after(body, 1) == brace_delta(lines[1]));
    assert(depth_after(body, 1) >= 1);
    assert(brace_delta(lines[1]) == 1);
    lemma_scan_test_line(st1, lines[1]);
    let st2 = scan_line(st1, lines[1]);
    assert(st2 == scan_state(ScanMode::InTestBlock, 1, st.count));
    let tail = body.skip(1);
    assert forall|j: int| 1 <= j < tail.len() implies st2.depth + depth_after(tail, j) >= 1 by {
        lemma_depth_after_shift(body, j + 1);
    }
    assert(st2.depth + depth_after(tail, tail.len() as int) == 0) by {
        lemma_depth_after_shift(body, body.len() as int);
    }
    assert(tail.len() >= 1);
    lemma_scan_test_body(st2, tail);
    assert(scan_lines(st, lines) == scan_lines(st1, body));
    assert(scan_lines(st1, body) == scan_lines(st2, tail));
}

} // verus!
