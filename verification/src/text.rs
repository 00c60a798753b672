//! Byte-level text helpers: whitespace trimming, prefix and suffix tests,
//! substring search, and splitting a byte string into lines.
//!
//! File contents and paths are handled as byte strings; lines are separated
//! by the newline byte and whitespace is the ASCII whitespace set.

use vstd::prelude::*;

verus! {

/// The newline byte that separates lines.
pub open spec fn newline() -> u8 {
    10
}

/// ASCII whitespace: space, tab, line feed, vertical tab, form feed,
/// carriage return.
pub open spec fn is_ws(b: u8) -> bool {
    b == 32 || (9 <= b && b <= 13)
}

/// `s` with leading whitespace removed.
pub open spec fn trim_front(s: Seq<u8>) -> Seq<u8>
    decreases s.len(),
{
    if s.len() > 0 && is_ws(s[0]) {
        trim_front(s.skip(1))
    } else {
        s
    }
}

/// `s` with trailing whitespace removed.
pub open spec fn trim_back(s: Seq<u8>) -> Seq<u8>
    decreases s.len(),
{
    if s.len() > 0 && is_ws(s[s.len() - 1]) {
        trim_back(s.take(s.len() - 1))
    } else {
        s
    }
}

/// `s` with surrounding whitespace removed.
pub open spec fn trimmed(s: Seq<u8>) -> Seq<u8> {
    trim_back(trim_front(s))
}

/// `p` is a prefix of `s`.
pub open spec fn starts_with(s: Seq<u8>, p: Seq<u8>) -> bool {
    p.len() <= s.len() && s.take(p.len() as int) == p
}

/// `s` ends with the byte `b`.
pub open spec fn ends_with_byte(s: Seq<u8>, b: u8) -> bool {
    s.len() > 0 && s[s.len() - 1] == b
}

/// `p` occurs as a contiguous subrange of `s`.
pub open spec fn contains_seq(s: Seq<u8>, p: Seq<u8>) -> bool {
    exists|i: int| 0 <= i && i + p.len() <= s.len() && #[trigger] s.subrange(i, i + p.len()) == p
}

/// The pieces of `t`, split on the byte `sep`.  Every separator ends a
/// piece, so a text ending in a separator yields a final empty piece, and
/// the empty text is one empty piece.
pub open spec fn split_bytes(t: Seq<u8>, sep: u8) -> Seq<Seq<u8>>
    decreases t.len(),
{
    if t.len() == 0 {
        seq![Seq::<u8>::empty()]
    } else if t[0] == sep {
        seq![Seq::<u8>::empty()] + split_bytes(t.skip(1), sep)
    } else {
        let rest = split_bytes(t.skip(1), sep);
        seq![seq![t[0]] + rest[0]] + rest.skip(1)
    }
}

/// The lines of `t`: its pieces split on the newline byte.
pub open spec fn split_lines(t: Seq<u8>) -> Seq<Seq<u8>> {
    split_bytes(t, newline())
}

pub proof fn lemma_split_bytes_len(t: Seq<u8>, sep: u8)
    ensures
        split_bytes(t, sep).len() >= 1,
        split_bytes(t, sep).len() <= t.len() + 1,
    decreases t.len(),
{
    if t.len() > 0 {
        lemma_split_bytes_len(t.skip(1), sep);
    }
}

/// A text without a separator is a single piece.
pub proof fn lemma_split_bytes_whole(t: Seq<u8>, sep: u8)
    requires
        forall|k: int| 0 <= k < t.len() ==> t[k] != sep,
    ensures
        split_bytes(t, sep) == seq![t],
    decreases t.len(),
{
    if t.len() == 0 {
        assert(split_bytes(t, sep) =~~= seq![t]);
    } else {
        lemma_split_bytes_whole(t.skip(1), sep);
        assert(seq![t[0]] + t.skip(1) =~= t);
        assert(split_bytes(t, sep) =~~= seq![t]);
    }
}

/// Splitting at the first separator: the bytes before it are the first
/// piece, and the bytes after it split into the remaining pieces.
pub proof fn lemma_split_bytes_step(t: Seq<u8>, sep: u8, i: int)
    requires
        0 <= i < t.len(),
        t[i] == sep,
        forall|k: int| 0 <= k < i ==> t[k] != sep,
    ensures
        split_bytes(t, sep) == seq![t.take(i)] + split_bytes(t.skip(i + 1), sep),
    decreases i,
{
    if i == 0 {
        assert(t.take(0) =~= Seq::<u8>::empty());
        assert(split_bytes(t, sep) =~~= seq![t.take(0)] + split_bytes(t.skip(1), sep));
    } else {
        lemma_split_bytes_step(t.skip(1), sep, i - 1);
        let rest = split_bytes(t.skip(1), sep);
        assert(rest == seq![t.skip(1).take(i - 1)] + split_bytes(t.skip(1).skip(i - 1 + 1), sep));
        assert(rest[0] == t.skip(1).take(i - 1));
        assert(seq![t[0]] + t.skip(1).take(i - 1) =~= t.take(i));
        assert(t.skip(1).skip(i) =~= t.skip(i + 1));
        assert(rest.skip(1) =~~= split_bytes(t.skip(i + 1), sep));
        assert(split_bytes(t, sep) =~~= seq![t.take(i)] + split_bytes(t.skip(i + 1), sep));
    }
}

/// A text that contains a separator splits into at least two pieces.
pub proof fn lemma_split_bytes_two(t: Seq<u8>, sep: u8, k: int)
    requires
        0 <= k < t.len(),
        t[k] == sep,
    ensures
        split_bytes(t, sep).len() >= 2,
    decreases t.len(),
{
    if t[0] != sep {
        lemma_split_bytes_two(t.skip(1), sep, k - 1);
        assert(split_bytes(t, sep).len() == split_bytes(t.skip(1), sep).len());
    } else if t.len() > 1 {
        lemma_split_bytes_len(t.skip(1), sep);
    } else {
        assert(t.skip(1) =~= Seq::<u8>::empty());
        assert(split_bytes(t.skip(1), sep).len() == 1);
    }
}

/// A text ending in a separator ends in an empty piece.
pub proof fn lemma_split_bytes_trailing_empty(t: Seq<u8>, sep: u8)
    requires
        t.len() > 0,
        t[t.len() - 1] == sep,
    ensures
        split_bytes(t, sep).last() == Seq::<u8>::empty(),
    decreases t.len(),
{
    if t.len() == 1 {
        assert(t.skip(1) =~= Seq::<u8>::empty());
    } else {
        lemma_split_bytes_trailing_empty(t.skip(1), sep);
        let rest = split_bytes(t.skip(1), sep);
        lemma_split_bytes_len(t.skip(1), sep);
        if t[0] == sep {
            assert(split_bytes(t, sep).last() == rest.last());
        } else {
            assert(t.skip(1)[t.len() - 2] == sep);
            lemma_split_bytes_two(t.skip(1), sep, t.len() - 2);
            assert(split_bytes(t, sep).last() == rest.skip(1).last());
            assert(rest.skip(1).last() == rest.last());
        }
    }
}

/// The index of the first occurrence of `b` at or after `start` in `s`, or
/// the length of `s` if there is none.
pub fn find_byte(s: &[u8], start: usize, b: u8) -> (r: usize)
    requires
        start <= s@.len(),
    ensures
        start <= r <= s@.len(),
        forall|k: int| start <= k < r ==> s@[k] != b,
        r < s@.len() ==> s@[r as int] == b,
{
    let mut i = start;
    while i < s.len()
        invariant
            start <= i <= s@.len(),
            forall|k: int| start <= k < i ==> s@[k] != b,
        decreases s@.len() - i,
    {
        if s[i] == b {
            return i;
        }
        i += 1;
    }
    i
}

/// Whether `p` is a prefix of `s`, decided byte by byte.
pub fn slice_starts_with(s: &[u8], p: &[u8]) -> (r: bool)
    ensures
        r == starts_with(s@, p@),
{
    if p.len() > s.len() {
        return false;
    }
    let mut i: usize = 0;
    while i < p.len()
        invariant
            0 <= i <= p@.len() <= s@.len(),
            forall|k: int| 0 <= k < i ==> s@[k] == p@[k],
        decreases p@.len() - i,
    {
        if s[i] != p[i] {
            assert(s@.take(p@.len() as int)[i as int] != p@[i as int]);
            return false;
        }
        i += 1;
    }
    proof {
        assert(s@.take(p@.len() as int) =~= p@);
    }
    true
}

/// Whether `p` occurs anywhere in `s`, by scanning every position.
pub fn slice_contains(s: &[u8], p: &[u8]) -> (r: bool)
    ensures
        r == contains_seq(s@, p@),
{
    if p.len() > s.len() {
        return false;
    }
    let mut i: usize = 0;
    let last = s.len() - p.len();
    loop
        invariant
            0 <= i <= last,
            last == s@.len() - p@.len(),
            p@.len() <= s@.len() <= usize::MAX,
            forall|k: int| 0 <= k < i ==> #[trigger] s@.subrange(k, k + p@.len()) != p@,
        decreases last - i,
    {
        let piece = vstd::slice::slice_subrange(s, i, i + p.len());
        if slice_starts_with(piece, p) {
            assert(piece@.take(p@.len() as int) =~= s@.subrange(i as int, i + p@.len()));
            return true;
        }
        assert(piece@.take(p@.len() as int) =~= piece@);
        assert(s@.subrange(i as int, i + p@.len()) != p@);
        if i == last {
            assert(forall|k: int|
                0 <= k && k + p@.len() <= s@.len() ==> #[trigger] s@.subrange(k, k + p@.len())
                    != p@);
            return false;
        }
        i += 1;
    }
}

/// Filtering a one-element sequence of byte strings keeps or drops that
/// element.
pub proof fn lemma_filter_singleton(x: Seq<u8>, pred: spec_fn(Seq<u8>) -> bool)
    ensures
        seq![x].filter(pred) == if pred(x) {
            seq![x]
        } else {
            Seq::<Seq<u8>>::empty()
        },
{
    reveal_with_fuel(Seq::<Seq<u8>>::filter, 2);
    let single = seq![x];
    assert(single.drop_last() =~~= Seq::<Seq<u8>>::empty());
    if pred(x) {
        assert(single.filter(pred) =~~= seq![x]);
    } else {
        assert(single.filter(pred) =~~= Seq::<Seq<u8>>::empty());
    }
}

/// Whether `a` and `b` hold the same bytes.
pub fn slice_eq(a: &[u8], b: &[u8]) -> (r: bool)
    ensures
        r == (a@ == b@),
{
    if a.len() != b.len() {
        return false;
    }
    let r = slice_starts_with(a, b);
    proof {
        assert(a@.take(b@.len() as int) =~= a@);
    }
    r
}

/// `s` ends with the byte `b`.
pub fn slice_ends_with_byte(s: &[u8], b: u8) -> (r: bool)
    ensures
        r == ends_with_byte(s@, b),
{
    s.len() > 0 && s[s.len() - 1] == b
}

pub proof fn lemma_trim_front_is_skip(s: Seq<u8>, i: int)
    requires
        0 <= i <= s.len(),
        forall|k: int| 0 <= k < i ==> is_ws(s[k]),
        i < s.len() ==> !is_ws(s[i]),
    ensures
        trim_front(s) == s.skip(i),
    decreases i,
{
    if i == 0 {
        assert(s.skip(0) =~= s);
    } else {
        lemma_trim_front_is_skip(s.skip(1), i - 1);
        assert(s.skip(1).skip(i - 1) =~= s.skip(i));
    }
}

pub proof fn lemma_trim_back_is_take(s: Seq<u8>, j: int)
    requires
        0 <= j <= s.len(),
        forall|k: int| j <= k < s.len() ==> is_ws(s[k]),
        j > 0 ==> !is_ws(s[j - 1]),
    ensures
        trim_back(s) == s.take(j),
    decreases s.len(),
{
    if j == s.len() {
        assert(s.take(j) =~= s);
    } else {
        lemma_trim_back_is_take(s.take(s.len() - 1), j);
        assert(s.take(s.len() - 1).take(j) =~= s.take(j));
    }
}

/// The bounds of `s` with surrounding whitespace removed: the trimmed text
/// is `s[r.0 .. r.1]`.
pub fn trim_range(s: &[u8]) -> (r: (usize, usize))
    ensures
        0 <= r.0 <= r.1 <= s@.len(),
        s@.subrange(r.0 as int, r.1 as int) == trimmed(s@),
{
    let n = s.len();
    let mut lo: usize = 0;
    while lo < n && (s[lo] == 32 || (9 <= s[lo] && s[lo] <= 13))
        invariant
            0 <= lo <= n == s@.len(),
            forall|k: int| 0 <= k < lo ==> is_ws(s@[k]),
        decreases n - lo,
    {
        lo += 1;
    }
    proof {
        lemma_trim_front_is_skip(s@, lo as int);
    }
    let mut hi: usize = n;
    while hi > lo && (s[hi - 1] == 32 || (9 <= s[hi - 1] && s[hi - 1] <= 13))
        invariant
            lo <= hi <= n == s@.len(),
            forall|k: int| hi <= k < n ==> is_ws(s@[k]),
        decreases hi,
    {
        hi -= 1;
    }
    proof {
        let front = s@.skip(lo as int);
        lemma_trim_back_is_take(front, hi - lo);
        assert(front.take(hi - lo) =~= s@.subrange(lo as int, hi as int));
    }
    (lo, hi)
}

} // verus!
