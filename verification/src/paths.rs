//! A small model of filesystem paths as byte strings.
//!
//! A path is a sequence of bytes whose components are separated by the
//! slash byte.  Empty components (repeated or trailing separators) are
//! ignored, and no special meaning is given to dot or dot-dot components.
//! The file name is the last component, its stem and extension split at the
//! final dot (a dot at the very start marks no extension, as for hidden
//! files), and the category of a path is the name of its parent directory:
//! the component before the last.

use vstd::prelude::*;

use crate::text::{find_byte, lemma_filter_singleton, split_bytes, lemma_split_bytes_step,
    lemma_split_bytes_whole};

verus! {

/// The path separator byte.
pub open spec fn slash() -> u8 {
    47
}

/// The byte that separates a file stem from its extension.
pub open spec fn dot() -> u8 {
    46
}

/// Keeps the non-empty pieces of a split.
pub open spec fn nonempty_pred() -> spec_fn(Seq<u8>) -> bool {
    |s: Seq<u8>| s.len() > 0
}

/// The components of the path `p`: its non-empty slash-separated pieces.
pub open spec fn components(p: Seq<u8>) -> Seq<Seq<u8>> {
    split_bytes(p, slash()).filter(nonempty_pred())
}

/// The file name of `p`: its last component, if it has one.
pub open spec fn file_name(p: Seq<u8>) -> Option<Seq<u8>> {
    if components(p).len() > 0 {
        Some(components(p).last())
    } else {
        None
    }
}

/// The index of the last occurrence of `b` in `s`, or `-1` if none.
pub open spec fn last_index_of(s: Seq<u8>, b: u8) -> int
    decreases s.len(),
{
    if s.len() == 0 {
        -1
    } else if s[s.len() - 1] == b {
        s.len() - 1
    } else {
        last_index_of(s.take(s.len() - 1), b)
    }
}

/// The file stem of `p`: its file name up to the final dot.  A name without
/// a dot, or with its only dot at the start, is its own stem.
pub open spec fn file_stem(p: Seq<u8>) -> Option<Seq<u8>> {
    match file_name(p) {
        Option::None => Option::None,
        Option::Some(name) => {
            let k = last_index_of(name, dot());
            if k <= 0 {
                Some(name)
            } else {
                Some(name.take(k))
            }
        },
    }
}

/// The extension of `p`: what follows the final dot of its file name, if
/// that dot exists and is not the first byte of the name.
pub open spec fn extension(p: Seq<u8>) -> Option<Seq<u8>> {
    match file_name(p) {
        Option::None => Option::None,
        Option::Some(name) => {
            let k = last_index_of(name, dot());
            if k <= 0 {
                Option::None
            } else {
                Some(name.skip(k + 1))
            }
        },
    }
}

/// The category of `p`: the name of its immediate parent directory, which a
/// path with fewer than two components does not have.
pub open spec fn catagory_of(p: Seq<u8>) -> Option<Seq<u8>> {
    if components(p).len() >= 2 {
        Some(components(p)[components(p).len() - 2])
    } else {
        None
    }
}

/// The components of `p`, as an executable vector of byte strings.
pub fn path_components(p: &[u8]) -> (r: Vec<Vec<u8>>)
    ensures
        r@.map_values(|c: Vec<u8>| c@) == components(p@),
{
    let ghost t = p@;
    let mut r: Vec<Vec<u8>> = Vec::new();
    let mut pos: usize = 0;
    proof {
        assert(t.skip(0) =~= t);
        assert(r@.map_values(|c: Vec<u8>| c@) =~~= Seq::<Seq<u8>>::empty());
    }
    while pos < p.len()
        invariant
            0 <= pos <= t.len() == p@.len(),
            t == p@,
            r@.map_values(|c: Vec<u8>| c@) + split_bytes(t.skip(pos as int), slash()).filter(
                nonempty_pred(),
            ) == components(t),
        decreases t.len() - pos,
    {
        let end = find_byte(p, pos, 47);
        let seg = vstd::slice::slice_subrange(p, pos, end);
        let ghost rest = t.skip(pos as int);
        let ghost old_r = r@;
        proof {
            assert(seg@ =~= rest.take(end - pos));
        }
        if seg.len() > 0 {
            let seg_v = vstd::slice::slice_to_vec(seg);
            r.push(seg_v);
        }
        proof {
            let pred = nonempty_pred();
            let mapped_old = old_r.map_values(|c: Vec<u8>| c@);
            let mapped_new = r@.map_values(|c: Vec<u8>| c@);
            if seg@.len() > 0 {
                assert(mapped_new =~~= mapped_old + seq![seg@]);
            } else {
                assert(mapped_new =~~= mapped_old);
            }
            lemma_filter_singleton(seg@, pred);
            if end < t.len() {
                lemma_split_bytes_step(rest, slash(), end - pos);
                assert(rest.skip(end - pos + 1) =~= t.skip(end + 1));
                Seq::filter_distributes_over_add(
                    seq![seg@],
                    split_bytes(t.skip(end + 1), slash()),
                    pred,
                );
                assert(split_bytes(rest, slash()).filter(pred) == seq![seg@].filter(pred)
                    + split_bytes(t.skip(end + 1), slash()).filter(pred));
                assert(mapped_new + split_bytes(t.skip(end + 1), slash()).filter(pred)
                    =~~= components(t));
            } else {
                lemma_split_bytes_whole(rest, slash());
                assert(split_bytes(rest, slash()) == seq![seg@]);
                assert(t.skip(t.len() as int) =~= Seq::<u8>::empty());
                assert(split_bytes(t.skip(t.len() as int), slash()) =~~= seq![Seq::<u8>::empty()]);
                lemma_filter_singleton(Seq::<u8>::empty(), pred);
                assert(mapped_new + split_bytes(t.skip(t.len() as int), slash()).filter(pred)
                    =~~= components(t));
            }
        }
        if end < p.len() {
            pos = end + 1;
        } else {
            pos = end;
        }
    }
    proof {
        assert(t.skip(t.len() as int) =~= Seq::<u8>::empty());
        assert(split_bytes(t.skip(t.len() as int), slash()) =~~= seq![Seq::<u8>::empty()]);
        lemma_filter_singleton(Seq::<u8>::empty(), nonempty_pred());
        assert(r@.map_values(|c: Vec<u8>| c@) =~~= components(t));
    }
    r
}

pub proof fn lemma_last_index_found(s: Seq<u8>, b: u8, j: int)
    requires
        0 <= j < s.len(),
        s[j] == b,
        forall|k: int| j < k < s.len() ==> s[k] != b,
    ensures
        last_index_of(s, b) == j,
    decreases s.len(),
{
    if j < s.len() - 1 {
        lemma_last_index_found(s.take(s.len() - 1), b, j);
    }
}

pub proof fn lemma_last_index_none(s: Seq<u8>, b: u8)
    requires
        forall|k: int| 0 <= k < s.len() ==> s[k] != b,
    ensures
        last_index_of(s, b) == -1,
    decreases s.len(),
{
    if s.len() > 0 {
        lemma_last_index_none(s.take(s.len() - 1), b);
    }
}

/// The index of the last occurrence of `b` in `s`, if any.
pub fn rfind_byte(s: &[u8], b: u8) -> (r: Option<usize>)
    ensures
        (match r {
            Option::Some(i) => i == last_index_of(s@, b) && i < s@.len(),
            Option::None => last_index_of(s@, b) == -1,
        }),
{
    let mut i = s.len();
    while i > 0
        invariant
            0 <= i <= s@.len(),
            forall|k: int| i <= k < s@.len() ==> s@[k] != b,
        decreases i,
    {
        if s[i - 1] == b {
            proof {
                lemma_last_index_found(s@, b, i - 1);
            }
            return Some(i - 1);
        }
        i -= 1;
    }
    proof {
        lemma_last_index_none(s@, b);
    }
    None
}

/// The bytes of the name given to the source directory.
pub open spec fn src_name() -> Seq<u8> {
    seq![115u8, 114u8, 99u8]
}

/// `dir` with its final component replaced by the source-directory name: the
/// bytes up to and including the last separator, followed by that name.  A
/// path with no separator is replaced whole.
pub open spec fn spec_src_dir(dir: Seq<u8>) -> Seq<u8> {
    let j = last_index_of(dir, slash());
    if j < 0 {
        src_name()
    } else {
        dir.take(j + 1) + src_name()
    }
}

/// `root` and `component` joined into one path.  An absolute component
/// replaces the root; otherwise a separator stands between the two unless
/// the root is empty or already ends with one.
pub open spec fn spec_join(root: Seq<u8>, component: Seq<u8>) -> Seq<u8> {
    if component.len() > 0 && component[0] == slash() {
        component
    } else if root.len() == 0 {
        component
    } else if root[root.len() - 1] == slash() {
        root + component
    } else {
        root + seq![slash()] + component
    }
}

/// Append every byte of `s` to `v`.
pub fn push_all(v: &mut Vec<u8>, s: &[u8])
    ensures
        final(v)@ == old(v)@ + s@,
{
    let mut i: usize = 0;
    proof {
        assert(v@ =~= v@ + s@.take(0));
    }
    while i < s.len()
        invariant
            0 <= i <= s@.len(),
            v@ == old(v)@ + s@.take(i as int),
        decreases s@.len() - i,
    {
        v.push(s[i]);
        proof {
            assert(old(v)@ + s@.take(i as int) + seq![s@[i as int]] =~= old(v)@ + s@.take(
                i + 1,
            ));
        }
        i += 1;
    }
    proof {
        assert(s@.take(s@.len() as int) =~= s@);
    }
}

/// The source directory that sits beside the given project directory: the
/// project directory with its final path component replaced by the
/// source-directory name.
pub fn get_src_dir(project_dir: &[u8]) -> (r: Vec<u8>)
    ensures
        r@ == spec_src_dir(project_dir@),
{
    let mut r: Vec<u8> = Vec::new();
    let n = project_dir.len();
    match rfind_byte(project_dir, 47) {
        Option::Some(j) => {
            assert(j < n);
            let prefix = vstd::slice::slice_subrange(project_dir, 0, j + 1);
            push_all(&mut r, prefix);
        },
        Option::None => {},
    }
    let src: Vec<u8> = vec![115u8, 114u8, 99u8];
    proof {
        assert(src@ =~= src_name());
    }
    push_all(&mut r, src.as_slice());
    proof {
        assert(r@ =~= spec_src_dir(project_dir@));
    }
    r
}

/// Join `root` and `component` into one path.
pub fn join(root: &[u8], component: &[u8]) -> (r: Vec<u8>)
    ensures
        r@ == spec_join(root@, component@),
{
    let mut r: Vec<u8> = Vec::new();
    if component.len() > 0 && component[0] == 47 {
        push_all(&mut r, component);
        proof {
            assert(r@ =~= spec_join(root@, component@));
        }
        return r;
    }
    push_all(&mut r, root);
    if root.len() > 0 && root[root.len() - 1] != 47 {
        r.push(47u8);
        proof {
            assert(r@ =~= root@ + seq![slash()]);
        }
    }
    push_all(&mut r, component);
    proof {
        assert(r@ =~= spec_join(root@, component@));
    }
    r
}

} // verus!
