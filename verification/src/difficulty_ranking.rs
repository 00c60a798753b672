//! Rank source files by difficulty, approximated by their number of code
//! lines: the fewer code lines a file has, the easier its contents are
//! taken to be.
//!
//! The caller hands over the eligible files' paths and contents in
//! discovery order; ranking filters out irrelevant files (wrong extension,
//! module-root names, utility files), classifies each remaining file's
//! lines, and sorts the results by code-line count, ascending and stable.

use std::collections::VecDeque;
use vstd::prelude::*;

use crate::classify::{count_loc, line_count};
use crate::paths::{catagory_of, extension, file_name, file_stem, path_components, rfind_byte};
use crate::text::{contains_seq, slice_contains, slice_eq};

verus! {

/// One source file found on disk, as handed to the ranking: its path and
/// its raw contents.
#[derive(Debug)]
pub struct SourceEntry {
    pub path: Vec<u8>,
    pub content: Vec<u8>,
}

/// The mathematical value of a `SourceEntry`.
pub ghost struct SourceEntryView {
    pub path: Seq<u8>,
    pub content: Seq<u8>,
}

impl View for SourceEntry {
    type V = SourceEntryView;

    open spec fn view(&self) -> SourceEntryView {
        SourceEntryView { path: self.path@, content: self.content@ }
    }
}

/// One ranked source file: its file stem, the name of its parent directory
/// as a grouping label, its full path, and its code-line count.
#[derive(Debug)]
pub struct Algorithm {
    pub name: Vec<u8>,
    pub catagory: Vec<u8>,
    pub path: Vec<u8>,
    pub loc: usize,
}

/// The mathematical value of an `Algorithm`.
pub ghost struct AlgorithmView {
    pub name: Seq<u8>,
    pub catagory: Seq<u8>,
    pub path: Seq<u8>,
    pub loc: nat,
}

impl View for Algorithm {
    type V = AlgorithmView;

    open spec fn view(&self) -> AlgorithmView {
        AlgorithmView {
            name: self.name@,
            catagory: self.catagory@,
            path: self.path@,
            loc: self.loc as nat,
        }
    }
}

/// Why a ranking run failed.  Each variant carries the offending path.
#[derive(Debug)]
pub enum RankError {
    /// A file could not be read as text.
    ReadFailure(Vec<u8>),
    /// A directory could not be enumerated.
    DirectoryReadFailure(Vec<u8>),
    /// A relevant file's path yields no file stem or no parent-directory
    /// name.
    FilterAmbiguity(Vec<u8>),
}

/// The values of a sequence of entries.
pub open spec fn entry_views(s: Seq<SourceEntry>) -> Seq<SourceEntryView> {
    s.map_values(|e: SourceEntry| e@)
}

/// The values of a sequence of algorithms.
pub open spec fn algo_views(s: Seq<Algorithm>) -> Seq<AlgorithmView> {
    s.map_values(|a: Algorithm| a@)
}

/// The designated source extension.
pub open spec fn rs_ext() -> Seq<u8> {
    seq![114u8, 115u8]
}

/// The library-root file name.
pub open spec fn lib_rs() -> Seq<u8> {
    seq![108u8, 105u8, 98u8, 46u8, 114u8, 115u8]
}

/// The module-root file name.
pub open spec fn mod_rs() -> Seq<u8> {
    seq![109u8, 111u8, 100u8, 46u8, 114u8, 115u8]
}

/// The substring that marks a utility file.
pub open spec fn utils_marker() -> Seq<u8> {
    seq![95u8, 117u8, 116u8, 105u8, 108u8, 115u8]
}

/// A path is irrelevant to the ranking unless its extension is the source
/// extension, its file name is not a module- or library-root name, and its
/// file name does not carry the utility marker.  A path without a file name
/// has no extension and so is irrelevant.
pub open spec fn spec_is_inrelevant_file(p: Seq<u8>) -> bool {
    match file_name(p) {
        Option::None => true,
        Option::Some(name) => extension(p) != Option::Some(rs_ext()) || name == lib_rs() || name
            == mod_rs() || contains_seq(name, utils_marker()),
    }
}

/// Decide whether the file at `path` is irrelevant to the ranking.
pub fn is_inrelevant_file(path: &[u8]) -> (r: bool)
    ensures
        r == spec_is_inrelevant_file(path@),
{
    let comps = path_components(path);
    if comps.len() == 0 {
        return true;
    }
    let name = &comps[comps.len() - 1];
    proof {
        assert(comps@.map_values(|c: Vec<u8>| c@)[comps@.len() - 1] == name@);
    }
    let nlen = name.len();
    let ext_rs: bool = match rfind_byte(name.as_slice(), 46) {
        Option::Some(k) => {
            if k > 0 {
                assert(k < nlen);
                let ext = vstd::slice::slice_subrange(name.as_slice(), k + 1, nlen);
                let rs: Vec<u8> = vec![114u8, 115u8];
                proof {
                    assert(rs@ =~= rs_ext());
                    assert(ext@ =~= name@.skip(k + 1));
                }
                slice_eq(ext, rs.as_slice())
            } else {
                false
            }
        },
        Option::None => false,
    };
    let lib_v: Vec<u8> = vec![108u8, 105u8, 98u8, 46u8, 114u8, 115u8];
    let mod_v: Vec<u8> = vec![109u8, 111u8, 100u8, 46u8, 114u8, 115u8];
    let utils_v: Vec<u8> = vec![95u8, 117u8, 116u8, 105u8, 108u8, 115u8];
    proof {
        assert(lib_v@ =~= lib_rs());
        assert(mod_v@ =~= mod_rs());
        assert(utils_v@ =~= utils_marker());
    }
    !ext_rs || slice_eq(name.as_slice(), lib_v.as_slice()) || slice_eq(
        name.as_slice(),
        mod_v.as_slice(),
    ) || slice_contains(name.as_slice(), utils_v.as_slice())
}

/// What `Algorithm::from_path` yields: the file stem as the name, the
/// parent directory as the category, the path itself, and the code-line
/// count of the contents; or nothing, when the path has no stem or no
/// parent directory.
pub open spec fn spec_from_path(p: Seq<u8>, content: Seq<u8>) -> Option<AlgorithmView> {
    match (file_stem(p), catagory_of(p)) {
        (Option::Some(stem), Option::Some(cat)) => Option::Some(
            AlgorithmView { name: stem, catagory: cat, path: p, loc: line_count(content) },
        ),
        _ => Option::None,
    }
}

impl Algorithm {
    /// Build the ranking record for the file at `path` with the given
    /// `content`, or nothing when the path has no file stem or no
    /// parent-directory name.
    pub fn from_path(path: &[u8], content: &[u8]) -> (r: Option<Algorithm>)
        ensures
            (match spec_from_path(path@, content@) {
                Option::Some(v) => r matches Option::Some(a) && a@ == v,
                Option::None => r is None,
            }),
    {
        let comps = path_components(path);
        if comps.len() < 2 {
            return Option::None;
        }
        let name_full = &comps[comps.len() - 1];
        let cat_full = &comps[comps.len() - 2];
        proof {
            let mapped = comps@.map_values(|c: Vec<u8>| c@);
            assert(mapped[comps@.len() - 1] == name_full@);
            assert(mapped[comps@.len() - 2] == cat_full@);
        }
        let mut stem_end = name_full.len();
        match rfind_byte(name_full.as_slice(), 46) {
            Option::Some(k) => {
                if k > 0 {
                    stem_end = k;
                }
            },
            Option::None => {},
        }
        let stem = vstd::slice::slice_to_vec(
            vstd::slice::slice_subrange(name_full.as_slice(), 0, stem_end),
        );
        let catagory = vstd::slice::slice_to_vec(cat_full.as_slice());
        let path_v = vstd::slice::slice_to_vec(path);
        let loc = count_loc(content);
        let a = Algorithm { name: stem, catagory, path: path_v, loc };
        proof {
            assert(name_full@.subrange(0, name_full@.len() as int) =~= name_full@);
            assert(name_full@.subrange(0, stem_end as int) =~= name_full@.take(stem_end as int));
        }
        Option::Some(a)
    }
}

/// Walk the entries in order: skip the irrelevant ones, resolve each
/// relevant one into its ranking record, and stop at the first relevant
/// entry whose path does not resolve, yielding that path.
pub open spec fn collect_algos(s: Seq<SourceEntryView>) -> Result<Seq<AlgorithmView>, Seq<u8>>
    decreases s.len(),
{
    if s.len() == 0 {
        Result::Ok(Seq::<AlgorithmView>::empty())
    } else if spec_is_inrelevant_file(s[0].path) {
        collect_algos(s.skip(1))
    } else {
        match spec_from_path(s[0].path, s[0].content) {
            Option::None => Result::Err(s[0].path),
            Option::Some(v) => match collect_algos(s.skip(1)) {
                Result::Ok(rest) => Result::Ok(seq![v] + rest),
                Result::Err(p) => Result::Err(p),
            },
        }
    }
}

/// `x` inserted into `s` behind every element whose count does not exceed
/// its own: the insertion step of a stable ascending sort.
pub open spec fn insert_sorted(s: Seq<AlgorithmView>, x: AlgorithmView) -> Seq<AlgorithmView>
    decreases s.len(),
{
    if s.len() == 0 {
        seq![x]
    } else if s.last().loc <= x.loc {
        s.push(x)
    } else {
        insert_sorted(s.drop_last(), x).push(s.last())
    }
}

/// `s` sorted by code-line count, ascending and stable: each element is
/// inserted, in order, behind its equals.
pub open spec fn sort_by_loc(s: Seq<AlgorithmView>) -> Seq<AlgorithmView>
    decreases s.len(),
{
    if s.len() == 0 {
        s
    } else {
        insert_sorted(sort_by_loc(s.drop_last()), s.last())
    }
}

/// The counts of `s` never decrease from left to right.
pub open spec fn sorted_by_loc(s: Seq<AlgorithmView>) -> bool {
    forall|i: int, j: int| 0 <= i <= j < s.len() ==> s[i].loc <= s[j].loc
}

/// Inserting at the position `j` that separates the counts not above `x`'s
/// from the counts above it realizes `insert_sorted`.
proof fn lemma_insert_sorted_at(s: Seq<AlgorithmView>, x: AlgorithmView, j: int)
    requires
        0 <= j <= s.len(),
        forall|k: int| j <= k < s.len() ==> s[k].loc > x.loc,
        j > 0 ==> s[j - 1].loc <= x.loc,
    ensures
        insert_sorted(s, x) == s.take(j).push(x) + s.skip(j),
    decreases s.len(),
{
    if s.len() == 0 {
        assert(insert_sorted(s, x) =~= s.take(j).push(x) + s.skip(j));
    } else if s.last().loc <= x.loc {
        assert(j == s.len());
        assert(insert_sorted(s, x) =~= s.take(j).push(x) + s.skip(j));
    } else {
        assert(j < s.len());
        lemma_insert_sorted_at(s.drop_last(), x, j);
        assert(s.drop_last().take(j) =~= s.take(j));
        assert((s.drop_last().take(j).push(x) + s.drop_last().skip(j)).push(s.last()) =~= s.take(
            j,
        ).push(x) + s.skip(j));
    }
}

/// Insert `a` into the sorted vector `out`, behind every element whose
/// count does not exceed its own.
fn insert_by_loc(out: &mut Vec<Algorithm>, a: Algorithm)
    ensures
        algo_views(final(out)@) == insert_sorted(algo_views(old(out)@), a@),
{
    let mut j: usize = out.len();
    while j > 0 && out[j - 1].loc > a.loc
        invariant
            0 <= j <= out@.len(),
            out@ == old(out)@,
            forall|k: int| j <= k < out@.len() ==> algo_views(out@)[k].loc > a@.loc,
        decreases j,
    {
        j -= 1;
    }
    let ghost old_views = algo_views(out@);
    proof {
        lemma_insert_sorted_at(old_views, a@, j as int);
    }
    out.insert(j, a);
    proof {
        assert(algo_views(out@) =~= old_views.take(j as int).push(a@) + old_views.skip(j as int));
    }
}

/// The position in `s` behind every element whose count does not exceed
/// `x`'s: where `insert_sorted` places `x`.
pub open spec fn insert_pos(s: Seq<AlgorithmView>, x: AlgorithmView) -> int
    decreases s.len(),
{
    if s.len() == 0 {
        0
    } else if s.last().loc <= x.loc {
        s.len() as int
    } else {
        insert_pos(s.drop_last(), x)
    }
}

proof fn lemma_insert_pos(s: Seq<AlgorithmView>, x: AlgorithmView)
    ensures
        0 <= insert_pos(s, x) <= s.len(),
        forall|k: int| insert_pos(s, x) <= k < s.len() ==> s[k].loc > x.loc,
        insert_pos(s, x) > 0 ==> s[insert_pos(s, x) - 1].loc <= x.loc,
    decreases s.len(),
{
    if s.len() > 0 && s.last().loc > x.loc {
        lemma_insert_pos(s.drop_last(), x);
        assert forall|k: int| insert_pos(s, x) <= k < s.len() implies s[k].loc > x.loc by {
            if k < s.len() - 1 {
                assert(s.drop_last()[k] == s[k]);
            }
        }
    }
}

/// Inserting into a sorted sequence keeps it sorted.
proof fn lemma_insert_sorted_sorted(s: Seq<AlgorithmView>, x: AlgorithmView)
    requires
        sorted_by_loc(s),
    ensures
        sorted_by_loc(insert_sorted(s, x)),
{
    let p = insert_pos(s, x);
    lemma_insert_pos(s, x);
    lemma_insert_sorted_at(s, x, p);
    let r = s.take(p).push(x) + s.skip(p);
    assert forall|i: int, j: int| 0 <= i <= j < r.len() implies r[i].loc <= r[j].loc by {
        if i < p {
            assert(r[i] == s[i]);
        }
        if j < p {
            assert(r[j] == s[j]);
        }
        if i > p {
            assert(r[i] == s[i - 1]);
        }
        if j > p {
            assert(r[j] == s[j - 1]);
        }
    }
}

/// The ranking is sorted: the code-line counts of `sort_by_loc(s)` never
/// decrease from left to right, for every `s`.
pub proof fn lemma_sort_by_loc_sorted(s: Seq<AlgorithmView>)
    ensures
        sorted_by_loc(sort_by_loc(s)),
    decreases s.len(),
{
    if s.len() > 0 {
        lemma_sort_by_loc_sorted(s.drop_last());
        lemma_insert_sorted_sorted(sort_by_loc(s.drop_last()), s.last());
    }
}

proof fn lemma_insert_sorted_multiset(s: Seq<AlgorithmView>, x: AlgorithmView)
    ensures
        insert_sorted(s, x).to_multiset() == s.to_multiset().insert(x),
    decreases s.len(),
{
    broadcast use vstd::seq_lib::group_to_multiset_ensures;

    if s.len() == 0 {
        assert(seq![x] =~= Seq::<AlgorithmView>::empty().push(x));
        assert(insert_sorted(s, x).to_multiset() =~= s.to_multiset().insert(x));
    } else if s.last().loc <= x.loc {
        assert(s.push(x).to_multiset() =~= s.to_multiset().insert(x));
    } else {
        let dl = s.drop_last();
        let l = s.last();
        lemma_insert_sorted_multiset(dl, x);
        assert(s =~= dl.push(l));
        assert(insert_sorted(s, x) == insert_sorted(dl, x).push(l));
        assert(insert_sorted(dl, x).push(l).to_multiset() =~= insert_sorted(dl, x).to_multiset()
            .insert(l));
        assert(s.to_multiset() =~= dl.to_multiset().insert(l));
        assert(dl.to_multiset().insert(x).insert(l) =~= dl.to_multiset().insert(l).insert(x));
    }
}

/// The ranking is a permutation: `sort_by_loc(s)` holds exactly the
/// elements of `s`, with their multiplicities.
pub proof fn lemma_sort_by_loc_permutes(s: Seq<AlgorithmView>)
    ensures
        sort_by_loc(s).to_multiset() == s.to_multiset(),
    decreases s.len(),
{
    broadcast use vstd::seq_lib::group_to_multiset_ensures;

    if s.len() > 0 {
        let dl = s.drop_last();
        let l = s.last();
        lemma_sort_by_loc_permutes(dl);
        lemma_insert_sorted_multiset(sort_by_loc(dl), l);
        assert(s =~= dl.push(l));
        assert(s.to_multiset() =~= dl.to_multiset().insert(l));
    }
}

/// Keeps the elements whose count is `v`.
pub open spec fn with_loc(v: nat) -> spec_fn(AlgorithmView) -> bool {
    |a: AlgorithmView| a.loc == v
}

proof fn lemma_insert_sorted_filter(s: Seq<AlgorithmView>, x: AlgorithmView, v: nat)
    ensures
        insert_sorted(s, x).filter(with_loc(v)) == if x.loc == v {
            s.filter(with_loc(v)).push(x)
        } else {
            s.filter(with_loc(v))
        },
    decreases s.len(),
{
    reveal_with_fuel(Seq::<AlgorithmView>::filter, 2);
    let pred = with_loc(v);
    if s.len() == 0 {
        let single = seq![x];
        assert(single.drop_last() =~~= Seq::<AlgorithmView>::empty());
        if pred(x) {
            assert(single.filter(pred) =~~= Seq::<AlgorithmView>::empty().push(x));
            assert(s.filter(pred).push(x) =~~= Seq::<AlgorithmView>::empty().push(x));
        } else {
            assert(single.filter(pred) =~~= s.filter(pred));
        }
    } else if s.last().loc <= x.loc {
        assert(s.push(x).drop_last() =~= s);
    } else {
        let l = s.last();
        let q = insert_sorted(s.drop_last(), x);
        lemma_insert_sorted_filter(s.drop_last(), x, v);
        assert(q.push(l).drop_last() =~= q);
        assert(insert_sorted(s, x) == q.push(l));
    }
}

/// The ranking is stable: for every count `v`, the elements of `s` whose
/// count is `v` come out of `sort_by_loc(s)` exactly as they went in,
/// keeping their relative order.
pub proof fn lemma_sort_by_loc_stable(s: Seq<AlgorithmView>, v: nat)
    ensures
        sort_by_loc(s).filter(with_loc(v)) == s.filter(with_loc(v)),
    decreases s.len(),
{
    reveal_with_fuel(Seq::<AlgorithmView>::filter, 2);
    if s.len() > 0 {
        lemma_sort_by_loc_stable(s.drop_last(), v);
        lemma_insert_sorted_filter(sort_by_loc(s.drop_last()), s.last(), v);
    }
}

/// Rank the given files by their code-line count.
///
/// Irrelevant files are skipped; each remaining file is resolved into its
/// ranking record, and the records come back sorted by code-line count,
/// ascending, files with equal counts staying in discovery order.  The run
/// fails on the first relevant file whose path has no file stem or no
/// parent-directory name, reporting that path.
pub fn sort_by_line_count(entries: Vec<SourceEntry>) -> (r: Result<Vec<Algorithm>, RankError>)
    ensures
        (match collect_algos(entry_views(entries@)) {
            Result::Ok(vs) => r matches Result::Ok(out) && algo_views(out@) == sort_by_loc(vs),
            Result::Err(p) => r matches Result::Err(e) && e matches RankError::FilterAmbiguity(q)
                && q@ == p,
        }),
{
    let ghost s_views = entry_views(entries@);
    let mut collected: Vec<Algorithm> = Vec::new();
    let mut i: usize = 0;
    proof {
        assert(s_views.skip(0) =~= s_views);
        assert(algo_views(collected@) =~~= Seq::<AlgorithmView>::empty());
        match collect_algos(s_views) {
            Result::Ok(r0) => {
                assert(algo_views(collected@) + r0 =~= r0);
            },
            Result::Err(_) => {},
        }
    }
    while i < entries.len()
        invariant
            0 <= i <= entries@.len(),
            s_views == entry_views(entries@),
            s_views.len() == entries@.len(),
            (match collect_algos(s_views.skip(i as int)) {
                Result::Ok(rest) => collect_algos(s_views) == Result::<
                    Seq<AlgorithmView>,
                    Seq<u8>,
                >::Ok(algo_views(collected@) + rest),
                Result::Err(p) => collect_algos(s_views) == Result::<
                    Seq<AlgorithmView>,
                    Seq<u8>,
                >::Err(p),
            }),
        decreases entries@.len() - i,
    {
        let ghost su = s_views.skip(i as int);
        proof {
            assert(su[0] == entries@[i as int]@);
            assert(su.skip(1) =~= s_views.skip(i + 1));
        }
        let e = &entries[i];
        if !is_inrelevant_file(e.path.as_slice()) {
            match Algorithm::from_path(e.path.as_slice(), e.content.as_slice()) {
                Option::Some(a) => {
                    let ghost old_c = collected@;
                    collected.push(a);
                    proof {
                        assert(algo_views(collected@) =~= algo_views(old_c).push(a@));
                        match collect_algos(s_views.skip(i + 1)) {
                            Result::Ok(rest) => {
                                assert(collect_algos(su) == Result::<
                                    Seq<AlgorithmView>,
                                    Seq<u8>,
                                >::Ok(seq![a@] + rest));
                                assert(algo_views(old_c) + (seq![a@] + rest) =~= algo_views(
                                    old_c,
                                ).push(a@) + rest);
                            },
                            Result::Err(_) => {},
                        }
                    }
                },
                Option::None => {
                    proof {
                        assert(collect_algos(su) == Result::<Seq<AlgorithmView>, Seq<u8>>::Err(
                            su[0].path,
                        ));
                    }
                    return Result::Err(
                        RankError::FilterAmbiguity(vstd::slice::slice_to_vec(e.path.as_slice())),
                    );
                },
            }
        }
        i += 1;
    }
    proof {
        assert(s_views.skip(s_views.len() as int) =~~= Seq::<SourceEntryView>::empty());
        match collect_algos(s_views) {
            Result::Ok(vs) => {
                assert(algo_views(collected@) + Seq::<AlgorithmView>::empty() =~= algo_views(
                    collected@,
                ));
            },
            Result::Err(_) => {
                assert(false);
            },
        }
    }
    let ghost c_views = algo_views(collected@);
    let ghost total = c_views.len();
    let cl = collected.len();
    let mut out: Vec<Algorithm> = Vec::new();
    let mut k: usize = 0;
    proof {
        assert(c_views.len() == cl);
        assert(c_views.skip(0) =~= c_views);
        assert(algo_views(out@) =~~= sort_by_loc(c_views.take(0)));
    }
    while collected.len() > 0
        invariant
            total == c_views.len() <= usize::MAX,
            0 <= k <= total,
            algo_views(collected@) == c_views.skip(k as int),
            algo_views(out@) == sort_by_loc(c_views.take(k as int)),
        decreases collected@.len(),
    {
        proof {
            assert(c_views.skip(k as int).len() == collected@.len());
        }
        let ghost old_col = collected@;
        let a = collected.remove(0);
        proof {
            assert(collected@ =~= old_col.skip(1));
            assert(a@ == algo_views(old_col)[0]);
            assert(a@ == c_views[k as int]);
            assert(c_views.skip(k as int).skip(1) =~= c_views.skip(k + 1));
            assert(algo_views(collected@) =~= algo_views(old_col).skip(1));
            assert(algo_views(collected@) == c_views.skip(k + 1));
        }
        insert_by_loc(&mut out, a);
        proof {
            assert(c_views.take(k + 1).drop_last() =~= c_views.take(k as int));
            assert(c_views.take(k + 1).last() == c_views[k as int]);
        }
        k += 1;
    }
    proof {
        assert(c_views.take(total as int) =~= c_views);
        assert(algo_views(collected@).len() == 0);
        assert(k as int == total);
    }
    Result::Ok(out)
}

/// Rank the given files by their code-line count, as a double-ended queue.
///
/// The ordering and the failure behaviour are those of
/// `sort_by_line_count`.
pub fn sort(entries: Vec<SourceEntry>) -> (r: Result<VecDeque<Algorithm>, RankError>)
    ensures
        (match collect_algos(entry_views(entries@)) {
            Result::Ok(vs) => r matches Result::Ok(d) && algo_views(d@) == sort_by_loc(vs),
            Result::Err(p) => r matches Result::Err(e) && e matches RankError::FilterAmbiguity(q)
                && q@ == p,
        }),
{
    match sort_by_line_count(entries) {
        Result::Ok(ranked) => {
            let mut v = ranked;
            let ghost rv = algo_views(v@);
            let vl = v.len();
            let mut d: VecDeque<Algorithm> = VecDeque::new();
            let mut k: usize = 0;
            proof {
                assert(rv.len() == vl);
                assert(rv.skip(0) =~= rv);
                assert(algo_views(d@) =~~= rv.take(0));
            }
            while v.len() > 0
                invariant
                    rv.len() <= usize::MAX,
                    0 <= k <= rv.len(),
                    algo_views(v@) == rv.skip(k as int),
                    algo_views(d@) == rv.take(k as int),
                decreases v@.len(),
            {
                proof {
                    assert(rv.skip(k as int).len() == v@.len());
                }
                let ghost old_v = v@;
                let a = v.remove(0);
                proof {
                    assert(v@ =~= old_v.skip(1));
                    assert(a@ == algo_views(old_v)[0]);
                    assert(a@ == rv[k as int]);
                    assert(rv.skip(k as int).skip(1) =~= rv.skip(k + 1));
                    assert(algo_views(v@) =~= algo_views(old_v).skip(1));
                    assert(algo_views(v@) == rv.skip(k + 1));
                }
                let ghost old_d = d@;
                d.push_back(a);
                proof {
                    assert(algo_views(d@) =~= algo_views(old_d).push(a@));
                    assert(algo_views(old_d).push(a@) =~= rv.take(k + 1));
                }
                k += 1;
            }
            proof {
                assert(rv.take(rv.len() as int) =~= rv);
                assert(algo_views(v@).len() == 0);
            }
            Result::Ok(d)
        },
        Result::Err(e) => Result::Err(e),
    }
}

/// Rank by category.  Grouping by category is not available yet, so the
/// ranking is empty.
pub fn sort_by_catagory() -> (r: Result<Vec<Algorithm>, RankError>)
    ensures
        r matches Result::Ok(v) && v@.len() == 0,
{
    Result::Ok(Vec::new())
}

} // verus!
