//! Rank the algorithms by difficulty, which is approximated by their line
//! of codes (LOC): a verified line classifier counts each file's code
//! lines, skipping blank lines, comments and test blocks, and a verified
//! stable sort orders the files by that count, ascending.
//!
//! File contents and paths are handled as byte strings; the surrounding
//! program walks the directory tree, reads the files, and hands both over
//! as plain values.

pub mod classify;
pub mod difficulty_ranking;
pub mod paths;
pub mod text;

pub use classify::count_loc;
pub use difficulty_ranking::{
    Algorithm, RankError, SourceEntry, is_inrelevant_file, sort, sort_by_catagory,
    sort_by_line_count,
};
pub use paths::{get_src_dir, join};
