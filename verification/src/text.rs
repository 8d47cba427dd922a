//! Character-level text utilities: conversion between `&str` and `Vec<char>`,
//! line splitting, trimming, prefix and substring tests.

use vstd::prelude::*;
use vstd::string::StrSliceExecFns;

verus! {

/// A character that trimming and the configuration grammar treat as blank.
pub open spec fn is_space(c: char) -> bool {
    c == ' ' || c == '\t' || c == '\r' || c == '\n'
}

/// Executable test for `is_space`.
pub fn space(c: char) -> (r: bool)
    ensures
        r == is_space(c),
{
    c == ' ' || c == '\t' || c == '\r' || c == '\n'
}

/// The characters of a string slice, one element per `char`.
pub fn chars_of(s: &str) -> (v: Vec<char>)
    ensures
        v@ == s@,
{
    let n = s.unicode_len();
    let mut v: Vec<char> = Vec::new();
    let mut i: usize = 0;
    while i < n
        invariant
            n == s@.len(),
            i <= n,
            v@ == s@.subrange(0, i as int),
        decreases n - i,
    {
        v.push(s.get_char(i));
        i += 1;
        proof {
            assert(v@ =~= s@.subrange(0, i as int));
        }
    }
    proof {
        assert(v@ =~= s@);
    }
    v
}

/// Relies on `String`'s `FromIterator<char>` implementation: collecting
/// characters yields the string consisting of exactly those characters.
#[verifier::external_body]
pub fn string_from_chars(v: &Vec<char>) -> (s: String)
    ensures
        s@ == v@,
{
    v.iter().collect()
}

/// Index of the first occurrence of `sep` in `s`, or `s.len()` if absent.
pub open spec fn find_char(s: Seq<char>, sep: char) -> int
    decreases s.len(),
{
    if s.len() == 0 {
        0
    } else if s[0] == sep {
        0
    } else {
        1 + find_char(s.skip(1), sep)
    }
}

/// `find_char` returns the position of the first occurrence (or the length).
pub proof fn lemma_find_char(s: Seq<char>, sep: char)
    ensures
        0 <= find_char(s, sep) <= s.len(),
        forall|j: int| 0 <= j < find_char(s, sep) ==> s[j] != sep,
        find_char(s, sep) < s.len() ==> s[find_char(s, sep)] == sep,
    decreases s.len(),
{
    if s.len() == 0 {
    } else if s[0] == sep {
    } else {
        lemma_find_char(s.skip(1), sep);
        assert(forall|j: int| 0 <= j < find_char(s.skip(1), sep) ==> s.skip(1)[j] != sep);
        assert forall|j: int| 0 <= j < find_char(s, sep) implies s[j] != sep by {
            if j > 0 {
                assert(s.skip(1)[j - 1] == s[j]);
            }
        }
        if find_char(s, sep) < s.len() {
            assert(s.skip(1)[find_char(s.skip(1), sep)] == s[find_char(s, sep)]);
        }
    }
}

/// If position `k` is the first occurrence of `sep` (or `s` has none and
/// `k == s.len()`), then `find_char` returns `k`.
pub proof fn lemma_find_char_is_first(s: Seq<char>, sep: char, k: int)
    requires
        0 <= k <= s.len(),
        forall|j: int| 0 <= j < k ==> s[j] != sep,
        k < s.len() ==> s[k] == sep,
    ensures
        find_char(s, sep) == k,
    decreases s.len(),
{
    if s.len() == 0 {
    } else if k == 0 {
    } else {
        assert(s[0] != sep);
        assert forall|j: int| 0 <= j < k - 1 implies s.skip(1)[j] != sep by {
            assert(s.skip(1)[j] == s[j + 1]);
        }
        if k - 1 < s.skip(1).len() {
            assert(s.skip(1)[k - 1] == s[k]);
        }
        lemma_find_char_is_first(s.skip(1), sep, k - 1);
    }
}

/// `s` split at every occurrence of `sep`; empty segments are kept, so the
/// result always has one more segment than `s` has separators.
pub open spec fn split_char(s: Seq<char>, sep: char) -> Seq<Seq<char>>
    decreases s.len(),
{
    let i = find_char(s, sep);
    if 0 <= i < s.len() {
        seq![s.take(i)] + split_char(s.skip(i + 1), sep)
    } else {
        seq![s]
    }
}

/// Executable splitting of a character vector at every occurrence of `sep`.
pub fn split_all(v: &Vec<char>, sep: char) -> (r: Vec<Vec<char>>)
    ensures
        r.deep_view() == split_char(v@, sep),
{
    let mut r: Vec<Vec<char>> = Vec::new();
    let mut cur: Vec<char> = Vec::new();
    let mut start: usize = 0;
    let mut i: usize = 0;
    proof {
        assert(v@.skip(0) =~= v@);
        assert(cur@ =~= v@.subrange(0, 0));
        assert(split_char(v@, sep) =~~= r.deep_view() + split_char(v@.skip(0), sep));
    }
    while i < v.len()
        invariant
            start <= i <= v@.len(),
            cur@ == v@.subrange(start as int, i as int),
            forall|j: int| start <= j < i ==> v@[j] != sep,
            split_char(v@, sep) == r.deep_view() + split_char(v@.skip(start as int), sep),
        decreases v@.len() - i,
    {
        let c = v[i];
        if c == sep {
            proof {
                let t = v@.skip(start as int);
                assert forall|j: int| 0 <= j < i - start implies t[j] != sep by {
                    assert(t[j] == v@[j + start]);
                }
                assert(t[i - start] == v@[i as int]);
                lemma_find_char_is_first(t, sep, i - start);
                assert(t.take(i - start) =~= v@.subrange(start as int, i as int));
                assert(t.skip(i - start + 1) =~= v@.skip(i + 1));
            }
            let ghost old_r = r.deep_view();
            r.push(cur);
            cur = Vec::new();
            proof {
                assert(r.deep_view() =~~= old_r.push(v@.subrange(start as int, i as int)));
                assert(split_char(v@, sep) =~~= r.deep_view() + split_char(v@.skip(i + 1), sep));
            }
            start = i + 1;
            i = i + 1;
            proof {
                assert(cur@ =~= v@.subrange(start as int, i as int));
            }
        } else {
            cur.push(c);
            i = i + 1;
            proof {
                assert(cur@ =~= v@.subrange(start as int, i as int));
            }
        }
    }
    proof {
        let t = v@.skip(start as int);
        assert forall|j: int| 0 <= j < t.len() implies t[j] != sep by {
            assert(t[j] == v@[j + start]);
        }
        lemma_find_char_is_first(t, sep, t.len() as int);
        assert(t =~= v@.subrange(start as int, v@.len() as int));
    }
    let ghost old_r = r.deep_view();
    r.push(cur);
    proof {
        assert(r.deep_view() =~~= old_r.push(v@.skip(start as int)));
        assert(split_char(v@, sep) =~~= r.deep_view());
    }
    r
}

/// A line with a trailing carriage return removed, if one is present.
pub open spec fn strip_cr(l: Seq<char>) -> Seq<char> {
    if l.len() > 0 && l[l.len() - 1] == '\r' {
        l.drop_last()
    } else {
        l
    }
}

/// The lines of a text: segments between newline characters, a trailing
/// carriage return removed from each, and no final empty line when the text
/// ends with a newline. The empty text has no lines.
pub open spec fn spec_lines(s: Seq<char>) -> Seq<Seq<char>> {
    if s.len() == 0 {
        Seq::empty()
    } else {
        let parts = split_char(s, '\n');
        let kept = if s[s.len() - 1] == '\n' {
            parts.drop_last()
        } else {
            parts
        };
        kept.map_values(|l: Seq<char>| strip_cr(l))
    }
}

/// Splitting never yields an empty list of segments.
pub proof fn lemma_split_char_nonempty(s: Seq<char>, sep: char)
    ensures
        split_char(s, sep).len() >= 1,
{
}

/// A fresh copy of a character vector.
pub fn copy_chars(v: &Vec<char>) -> (r: Vec<char>)
    ensures
        r@ == v@,
{
    let mut r: Vec<char> = Vec::new();
    let mut i: usize = 0;
    while i < v.len()
        invariant
            i <= v@.len(),
            r@ == v@.subrange(0, i as int),
        decreases v@.len() - i,
    {
        r.push(v[i]);
        i = i + 1;
        proof {
            assert(r@ =~= v@.subrange(0, i as int));
        }
    }
    proof {
        assert(r@ =~= v@);
    }
    r
}

/// Executable line splitting, matching `spec_lines`.
pub fn lines_of(v: &Vec<char>) -> (r: Vec<Vec<char>>)
    ensures
        r.deep_view() == spec_lines(v@),
{
    if v.len() == 0 {
        let r: Vec<Vec<char>> = Vec::new();
        proof {
            assert(r.deep_view() =~~= spec_lines(v@));
        }
        return r;
    }
    let mut parts = split_all(v, '\n');
    proof {
        lemma_split_char_nonempty(v@, '\n');
    }
    if v[v.len() - 1] == '\n' {
        parts.pop();
    }
    let ghost kept = parts.deep_view();
    proof {
        if v@[v@.len() - 1] == '\n' {
            assert(kept =~~= split_char(v@, '\n').drop_last());
        }
    }
    let mut r: Vec<Vec<char>> = Vec::new();
    let mut i: usize = 0;
    proof {
        assert(r.deep_view() =~~= kept.subrange(0, 0).map_values(|l: Seq<char>| strip_cr(l)));
    }
    while i < parts.len()
        invariant
            i <= parts@.len(),
            parts.deep_view() == kept,
            r.deep_view() == kept.subrange(0, i as int).map_values(|l: Seq<char>| strip_cr(l)),
        decreases parts@.len() - i,
    {
        let mut line = copy_chars(&parts[i]);
        proof {
            assert(parts[i as int].deep_view() == kept[i as int]);
            assert(line@ =~= kept[i as int]);
        }
        if line.len() > 0 && line[line.len() - 1] == '\r' {
            line.pop();
            proof {
                assert(line@ =~= strip_cr(kept[i as int]));
            }
        }
        let ghost old_r = r.deep_view();
        r.push(line);
        i = i + 1;
        proof {
            assert(r.deep_view() =~~= old_r.push(strip_cr(kept[i - 1])));
            assert(r.deep_view() =~~= kept.subrange(0, i as int).map_values(
                |l: Seq<char>| strip_cr(l),
            ));
        }
    }
    proof {
        assert(kept.subrange(0, kept.len() as int) =~= kept);
        assert(r.deep_view() =~~= spec_lines(v@));
    }
    r
}

/// `p` is a prefix of `s`.
pub open spec fn has_prefix(s: Seq<char>, p: Seq<char>) -> bool {
    p.len() <= s.len() && s.take(p.len() as int) == p
}

/// Executable prefix test.
pub fn starts_with(v: &Vec<char>, p: &Vec<char>) -> (r: bool)
    ensures
        r == has_prefix(v@, p@),
{
    if p.len() > v.len() {
        return false;
    }
    let mut i: usize = 0;
    while i < p.len()
        invariant
            i <= p@.len() <= v@.len(),
            forall|j: int| 0 <= j < i ==> v@[j] == p@[j],
        decreases p@.len() - i,
    {
        if v[i] != p[i] {
            proof {
                assert(v@.take(p@.len() as int)[i as int] != p@[i as int]);
            }
            return false;
        }
        i = i + 1;
    }
    proof {
        assert(v@.take(p@.len() as int) =~= p@);
    }
    true
}

/// `p` occurs somewhere in `s` as a contiguous run.
pub open spec fn has_substring(s: Seq<char>, p: Seq<char>) -> bool {
    exists|i: int| 0 <= i <= s.len() - p.len() && #[trigger] s.subrange(i, i + p.len()) == p
}

/// Whether `p` occurs in `v` starting exactly at position `i`.
fn match_at(v: &Vec<char>, p: &Vec<char>, i: usize) -> (r: bool)
    requires
        i + p@.len() <= v@.len(),
    ensures
        r == (v@.subrange(i as int, i + p@.len()) == p@),
{
    let n = v.len();
    let m = p.len();
    let mut j: usize = 0;
    while j < m
        invariant
            n == v@.len(),
            m == p@.len(),
            i + m <= n,
            j <= m,
            forall|k: int| 0 <= k < j ==> v@[i + k] == p@[k],
        decreases p@.len() - j,
    {
        if v[i + j] != p[j] {
            proof {
                assert(v@.subrange(i as int, i + p@.len())[j as int] != p@[j as int]);
            }
            return false;
        }
        j = j + 1;
    }
    proof {
        assert(v@.subrange(i as int, i + p@.len()) =~= p@);
    }
    true
}

/// Executable substring search.
pub fn contains_sub(v: &Vec<char>, p: &Vec<char>) -> (r: bool)
    ensures
        r == has_substring(v@, p@),
{
    if p.len() > v.len() {
        return false;
    }
    if p.len() == 0 {
        proof {
            assert(v@.subrange(0, 0 + p@.len() as int) =~= p@);
        }
        return true;
    }
    let bound = v.len() - p.len();
    let mut i: usize = 0;
    while i <= bound
        invariant
            1 <= p@.len() <= v@.len(),
            v@.len() <= usize::MAX,
            bound == v@.len() - p@.len(),
            i <= bound + 1,
            forall|k: int| 0 <= k < i ==> #[trigger] v@.subrange(k, k + p@.len()) != p@,
        decreases v@.len() - p@.len() + 1 - i,
    {
        if match_at(v, p, i) {
            return true;
        }
        i = i + 1;
    }
    false
}

/// Leading blank characters removed.
pub open spec fn trim_start(s: Seq<char>) -> Seq<char>
    decreases s.len(),
{
    if s.len() > 0 && is_space(s[0]) {
        trim_start(s.skip(1))
    } else {
        s
    }
}

/// Trailing blank characters removed.
pub open spec fn trim_end(s: Seq<char>) -> Seq<char>
    decreases s.len(),
{
    if s.len() > 0 && is_space(s[s.len() - 1]) {
        trim_end(s.drop_last())
    } else {
        s
    }
}

/// Blank characters removed from both ends.
pub open spec fn spec_trim(s: Seq<char>) -> Seq<char> {
    trim_end(trim_start(s))
}

proof fn lemma_trim_start_skip(s: Seq<char>, a: int)
    requires
        0 <= a <= s.len(),
        forall|j: int| 0 <= j < a ==> is_space(s[j]),
        a < s.len() ==> !is_space(s[a]),
    ensures
        trim_start(s) == s.skip(a),
    decreases s.len(),
{
    if a == 0 {
        assert(s.skip(0) =~= s);
    } else {
        assert(is_space(s[0]));
        assert forall|j: int| 0 <= j < a - 1 implies is_space(s.skip(1)[j]) by {
            assert(s.skip(1)[j] == s[j + 1]);
        }
        if a - 1 < s.skip(1).len() {
            assert(s.skip(1)[a - 1] == s[a]);
        }
        lemma_trim_start_skip(s.skip(1), a - 1);
        assert(s.skip(1).skip(a - 1) =~= s.skip(a));
    }
}

proof fn lemma_trim_end_take(s: Seq<char>, b: int)
    requires
        0 <= b <= s.len(),
        forall|j: int| b <= j < s.len() ==> is_space(s[j]),
        b > 0 ==> !is_space(s[b - 1]),
    ensures
        trim_end(s) == s.take(b),
    decreases s.len(),
{
    if b == s.len() {
        assert(s.take(b) =~= s);
    } else {
        assert(is_space(s[s.len() - 1]));
        lemma_trim_end_take(s.drop_last(), b);
        assert(s.drop_last().take(b) =~= s.take(b));
    }
}

/// Executable trimming, matching `spec_trim`.
pub fn trim_chars(v: &Vec<char>) -> (r: Vec<char>)
    ensures
        r@ == spec_trim(v@),
{
    let mut a: usize = 0;
    while a < v.len() && space(v[a])
        invariant
            a <= v@.len(),
            forall|j: int| 0 <= j < a ==> is_space(v@[j]),
        decreases v@.len() - a,
    {
        a = a + 1;
    }
    proof {
        lemma_trim_start_skip(v@, a as int);
    }
    if a == v.len() {
        let r: Vec<char> = Vec::new();
        proof {
            assert(v@.skip(a as int) =~= Seq::<char>::empty());
            assert(r@ =~= spec_trim(v@));
        }
        return r;
    }
    let mut b: usize = v.len();
    while b > a && space(v[b - 1])
        invariant
            a <= b <= v@.len(),
            forall|j: int| b <= j < v@.len() ==> is_space(v@[j]),
        decreases b,
    {
        b = b - 1;
    }
    proof {
        assert(!is_space(v@[a as int]));
        assert(b > a);
        let t = v@.skip(a as int);
        assert forall|j: int| b - a <= j < t.len() implies is_space(t[j]) by {
            assert(t[j] == v@[j + a]);
        }
        assert(t[b - a - 1] == v@[b - 1]);
        lemma_trim_end_take(t, b - a);
    }
    let mut r: Vec<char> = Vec::new();
    let mut i: usize = a;
    while i < b
        invariant
            a <= i <= b <= v@.len(),
            r@ == v@.subrange(a as int, i as int),
        decreases b - i,
    {
        r.push(v[i]);
        i = i + 1;
        proof {
            assert(r@ =~= v@.subrange(a as int, i as int));
        }
    }
    proof {
        assert(v@.skip(a as int).take(b - a) =~= v@.subrange(a as int, b as int));
    }
    r
}

/// The segment of `v` from `a` (inclusive) to `b` (exclusive), as a fresh
/// vector.
pub fn subvec(v: &Vec<char>, a: usize, b: usize) -> (r: Vec<char>)
    requires
        a <= b <= v@.len(),
    ensures
        r@ == v@.subrange(a as int, b as int),
{
    let mut r: Vec<char> = Vec::new();
    let mut i: usize = a;
    while i < b
        invariant
            a <= i <= b <= v@.len(),
            r@ == v@.subrange(a as int, i as int),
        decreases b - i,
    {
        r.push(v[i]);
        i = i + 1;
        proof {
            assert(r@ =~= v@.subrange(a as int, i as int));
        }
    }
    r
}

/// Equality of two character vectors.
pub fn chars_eq(a: &Vec<char>, b: &Vec<char>) -> (r: bool)
    ensures
        r == (a@ == b@),
{
    if a.len() != b.len() {
        proof {
            assert(a@ != b@);
        }
        return false;
    }
    let mut i: usize = 0;
    while i < a.len()
        invariant
            a@.len() == b@.len(),
            i <= a@.len(),
            forall|j: int| 0 <= j < i ==> a@[j] == b@[j],
        decreases a@.len() - i,
    {
        if a[i] != b[i] {
            return false;
        }
        i = i + 1;
    }
    proof {
        assert(a@ =~= b@);
    }
    true
}

} // verus!
