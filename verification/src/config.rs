//! Parser for the front-matter configuration block of a definition.
//!
//! Each front-matter line (after the marker is stripped and the ends are
//! trimmed) holds at most one `key = value` entry. Values are booleans,
//! quoted strings, or arrays of quoted strings; `#` starts a comment. The
//! two recognised keys are `depends_on` (an array of strings) and
//! `containerfile` (a boolean); both are optional and may appear at most
//! once. Unknown keys are allowed as long as their value is well formed, but
//! a type mismatch on a recognised key is an error.

use vstd::prelude::*;
use crate::text::{is_space, space, string_from_chars, subvec};

verus! {

/// The parsed front-matter of a definition.
#[derive(Debug)]
pub struct Metadata {
    /// Names of the definitions this one depends on, in declaration order.
    pub depends_on: Vec<String>,
    /// Whether the definition is built as a structured build recipe rather
    /// than run as a script.
    pub containerfile: bool,
}

/// The characters of the key `depends_on`.
pub open spec fn key_depends() -> Seq<char> {
    seq!['d', 'e', 'p', 'e', 'n', 'd', 's', '_', 'o', 'n']
}

/// The characters of the key `containerfile`.
pub open spec fn key_containerfile() -> Seq<char> {
    seq!['c', 'o', 'n', 't', 'a', 'i', 'n', 'e', 'r', 'f', 'i', 'l', 'e']
}

/// A character that may appear in a configuration key.
pub open spec fn is_ident_char(c: char) -> bool {
    ('a' as u32 <= c as u32 && c as u32 <= 'z' as u32)
        || ('A' as u32 <= c as u32 && c as u32 <= 'Z' as u32)
        || ('0' as u32 <= c as u32 && c as u32 <= '9' as u32)
        || c == '_' || c == '-'
}

fn ident_char(c: char) -> (r: bool)
    ensures
        r == is_ident_char(c),
{
    ('a' as u32 <= c as u32 && c as u32 <= 'z' as u32)
        || ('A' as u32 <= c as u32 && c as u32 <= 'Z' as u32)
        || ('0' as u32 <= c as u32 && c as u32 <= '9' as u32)
        || c == '_' || c == '-'
}

/// The first position at or after `i` holding a non-blank character, or the
/// length of the line.
pub open spec fn skip_ws(l: Seq<char>, i: int) -> int
    decreases l.len() - i,
{
    if 0 <= i < l.len() && is_space(l[i]) {
        skip_ws(l, i + 1)
    } else {
        i
    }
}

/// The first position at or after `i` holding a non-key character, or the
/// length of the line.
pub open spec fn skip_ident(l: Seq<char>, i: int) -> int
    decreases l.len() - i,
{
    if 0 <= i < l.len() && is_ident_char(l[i]) {
        skip_ident(l, i + 1)
    } else {
        i
    }
}

/// The position of the closing quote of a string whose content starts at
/// `i`, or -1 when the string is unterminated or holds a backslash.
pub open spec fn scan_string_end(l: Seq<char>, i: int) -> int
    decreases l.len() - i,
{
    if 0 <= i < l.len() {
        if l[i] == '"' {
            i
        } else if l[i] == '\\' {
            -1
        } else {
            scan_string_end(l, i + 1)
        }
    } else {
        -1
    }
}

/// Array elements from position `i` (just after `[` or a comma) up to and
/// including the closing bracket: the element texts and the position after
/// the bracket.
pub open spec fn parse_items(l: Seq<char>, i: int) -> Option<(Seq<Seq<char>>, int)>
    decreases l.len() - i,
{
    let j = skip_ws(l, i);
    if !(i <= j < l.len()) {
        None
    } else if l[j] == ']' {
        Some((Seq::empty(), j + 1))
    } else if l[j] == '"' {
        let e = scan_string_end(l, j + 1);
        if e < 0 {
            None
        } else {
            let item = l.subrange(j + 1, e);
            let k = skip_ws(l, e + 1);
            if !(i < k < l.len()) {
                None
            } else if l[k] == ']' {
                Some((seq![item], k + 1))
            } else if l[k] == ',' {
                match parse_items(l, k + 1) {
                    Some((rest, nxt)) => Some((seq![item] + rest, nxt)),
                    None => None,
                }
            } else {
                None
            }
        }
    } else {
        None
    }
}

/// A boolean literal at position `p` and the position after it.
pub open spec fn parse_bool_at(l: Seq<char>, p: int) -> Option<(bool, int)> {
    if 0 <= p && p + 4 <= l.len() && l.subrange(p, p + 4) == seq!['t', 'r', 'u', 'e'] {
        Some((true, p + 4))
    } else if 0 <= p && p + 5 <= l.len() && l.subrange(p, p + 5) == seq!['f', 'a', 'l', 's', 'e'] {
        Some((false, p + 5))
    } else {
        None
    }
}

/// A quoted string at position `p`: its content and the position after the
/// closing quote.
pub open spec fn parse_string_at(l: Seq<char>, p: int) -> Option<(Seq<char>, int)> {
    if 0 <= p < l.len() && l[p] == '"' {
        let e = scan_string_end(l, p + 1);
        if e < 0 {
            None
        } else {
            Some((l.subrange(p + 1, e), e + 1))
        }
    } else {
        None
    }
}

/// An array of quoted strings at position `p`: the element texts and the
/// position after the closing bracket.
pub open spec fn parse_array_at(l: Seq<char>, p: int) -> Option<(Seq<Seq<char>>, int)> {
    if 0 <= p < l.len() && l[p] == '[' {
        parse_items(l, p + 1)
    } else {
        None
    }
}

/// Nothing but blanks or a comment from position `i` to the end of the line.
pub open spec fn rest_ok(l: Seq<char>, i: int) -> bool {
    let j = skip_ws(l, i);
    !(0 <= j < l.len()) || l[j] == '#'
}

/// A line holding no entry: blank, or a comment.
pub open spec fn line_blank(l: Seq<char>) -> bool {
    let j = skip_ws(l, 0);
    j >= l.len() || l[j] == '#'
}

/// The key of an entry line.
pub open spec fn line_key(l: Seq<char>) -> Seq<char> {
    let j = skip_ws(l, 0);
    l.subrange(j, skip_ident(l, j))
}

/// The position where an entry line's value starts (after `=` and blanks),
/// or -1 when the line has no well-formed `key =` head.
pub open spec fn line_value_start(l: Seq<char>) -> int {
    let j = skip_ws(l, 0);
    let k = skip_ident(l, j);
    if k == j {
        -1
    } else {
        let e = skip_ws(l, k);
        if 0 <= e < l.len() && l[e] == '=' {
            skip_ws(l, e + 1)
        } else {
            -1
        }
    }
}

/// A non-blank line with a well-formed `key =` head and the given key.
pub open spec fn line_defines(l: Seq<char>, key: Seq<char>) -> bool {
    !line_blank(l) && line_value_start(l) >= 0 && line_key(l) == key
}

/// The array value of an entry line, when the line carries a well-formed
/// array followed only by blanks or a comment.
pub open spec fn line_list_entry(l: Seq<char>) -> Option<Seq<Seq<char>>> {
    let p = line_value_start(l);
    match parse_array_at(l, p) {
        Some((items, n)) => if rest_ok(l, n) {
            Some(items)
        } else {
            None
        },
        None => None,
    }
}

/// The boolean value of an entry line, when the line carries a boolean
/// literal followed only by blanks or a comment.
pub open spec fn line_bool_entry(l: Seq<char>) -> Option<bool> {
    let p = line_value_start(l);
    match parse_bool_at(l, p) {
        Some((b, n)) => if rest_ok(l, n) {
            Some(b)
        } else {
            None
        },
        None => None,
    }
}

/// The string value of an entry line, when the line carries a quoted string
/// followed only by blanks or a comment.
pub open spec fn line_string_entry(l: Seq<char>) -> Option<Seq<char>> {
    let p = line_value_start(l);
    match parse_string_at(l, p) {
        Some((s, n)) => if rest_ok(l, n) {
            Some(s)
        } else {
            None
        },
        None => None,
    }
}

/// A well-formed line: blank, a recognised key with a value of its type, or
/// an unknown key with any well-formed value.
pub open spec fn line_ok(l: Seq<char>) -> bool {
    if line_blank(l) {
        true
    } else if line_value_start(l) < 0 {
        false
    } else if line_key(l) == key_depends() {
        line_list_entry(l) is Some
    } else if line_key(l) == key_containerfile() {
        line_bool_entry(l) is Some
    } else {
        line_bool_entry(l) is Some || line_string_entry(l) is Some || line_list_entry(l) is Some
    }
}

/// A well-formed configuration document: every line is well formed and each
/// recognised key appears at most once.
pub open spec fn doc_wf(ls: Seq<Seq<char>>) -> bool {
    &&& forall|i: int| 0 <= i < ls.len() ==> line_ok(#[trigger] ls[i])
    &&& forall|i: int, j: int|
        0 <= i < j < ls.len() ==> !(line_defines(#[trigger] ls[i], key_depends())
            && line_defines(#[trigger] ls[j], key_depends()))
    &&& forall|i: int, j: int|
        0 <= i < j < ls.len() ==> !(line_defines(#[trigger] ls[i], key_containerfile())
            && line_defines(#[trigger] ls[j], key_containerfile()))
}

/// The dependency list a well-formed document declares; empty when absent.
pub open spec fn doc_depends(ls: Seq<Seq<char>>) -> Seq<Seq<char>> {
    if exists|i: int| 0 <= i < ls.len() && line_defines(#[trigger] ls[i], key_depends()) {
        let i = choose|i: int| 0 <= i < ls.len() && line_defines(#[trigger] ls[i], key_depends());
        match line_list_entry(ls[i]) {
            Some(items) => items,
            None => Seq::empty(),
        }
    } else {
        Seq::empty()
    }
}

/// The containerfile flag a well-formed document declares; false when absent.
pub open spec fn doc_containerfile(ls: Seq<Seq<char>>) -> bool {
    if exists|i: int| 0 <= i < ls.len() && line_defines(#[trigger] ls[i], key_containerfile()) {
        let i = choose|i: int|
            0 <= i < ls.len() && line_defines(#[trigger] ls[i], key_containerfile());
        match line_bool_entry(ls[i]) {
            Some(b) => b,
            None => false,
        }
    } else {
        false
    }
}

/// Executable blank skipping, matching `skip_ws`.
fn ws_end(l: &Vec<char>, i: usize) -> (r: usize)
    requires
        i <= l@.len(),
    ensures
        r == skip_ws(l@, i as int),
        i <= r <= l@.len(),
        r < l@.len() ==> !is_space(l@[r as int]),
        forall|j: int| i <= j < r ==> is_space(l@[j]),
{
    let mut c = i;
    while c < l.len() && space(l[c])
        invariant
            i <= c <= l@.len(),
            skip_ws(l@, i as int) == skip_ws(l@, c as int),
            forall|j: int| i <= j < c ==> is_space(l@[j]),
        decreases l@.len() - c,
    {
        c = c + 1;
    }
    c
}

/// Executable key scanning, matching `skip_ident`.
fn ident_end(l: &Vec<char>, i: usize) -> (r: usize)
    requires
        i <= l@.len(),
    ensures
        r == skip_ident(l@, i as int),
        i <= r <= l@.len(),
{
    let mut c = i;
    while c < l.len() && ident_char(l[c])
        invariant
            i <= c <= l@.len(),
            skip_ident(l@, i as int) == skip_ident(l@, c as int),
        decreases l@.len() - c,
    {
        c = c + 1;
    }
    c
}

/// Executable scan for a closing quote, matching `scan_string_end`.
fn string_end(l: &Vec<char>, i: usize) -> (r: Option<usize>)
    requires
        i <= l@.len(),
    ensures
        match r {
            Some(e) => scan_string_end(l@, i as int) == e && i <= e < l@.len(),
            None => scan_string_end(l@, i as int) == -1,
        },
{
    let mut c = i;
    while c < l.len()
        invariant
            i <= c <= l@.len(),
            scan_string_end(l@, i as int) == scan_string_end(l@, c as int),
        decreases l@.len() - c,
    {
        let ch = l[c];
        if ch == '"' {
            return Some(c);
        }
        if ch == '\\' {
            return None;
        }
        c = c + 1;
    }
    None
}

/// Executable array-element parsing, matching `parse_items`.
fn items_from(l: &Vec<char>, i: usize) -> (r: Option<(Vec<Vec<char>>, usize)>)
    requires
        i <= l@.len(),
    ensures
        match r {
            Some((items, nxt)) => {
                &&& parse_items(l@, i as int) matches Some((si, sn))
                    && si == items.deep_view() && sn == nxt as int
                &&& nxt <= l@.len()
            },
            None => parse_items(l@, i as int) is None,
        },
    decreases l@.len() - i,
{
    let j = ws_end(l, i);
    if j >= l.len() {
        return None;
    }
    let cj = l[j];
    if cj == ']' {
        let items: Vec<Vec<char>> = Vec::new();
        proof {
            assert(items.deep_view() =~~= Seq::<Seq<char>>::empty());
        }
        return Some((items, j + 1));
    }
    if cj != '"' {
        return None;
    }
    match string_end(l, j + 1) {
        None => None,
        Some(e) => {
            let item = subvec(l, j + 1, e);
            let k = ws_end(l, e + 1);
            if k >= l.len() {
                return None;
            }
            let ck = l[k];
            if ck == ']' {
                let mut items: Vec<Vec<char>> = Vec::new();
                items.push(item);
                proof {
                    assert(items.deep_view() =~~= seq![l@.subrange(j + 1, e as int)]);
                }
                Some((items, k + 1))
            } else if ck == ',' {
                match items_from(l, k + 1) {
                    Some((mut rest, nxt)) => {
                        let ghost rest0 = rest.deep_view();
                        rest.insert(0, item);
                        proof {
                            assert(rest.deep_view() =~~= seq![l@.subrange(j + 1, e as int)]
                                + rest0);
                        }
                        Some((rest, nxt))
                    },
                    None => None,
                }
            } else {
                None
            }
        },
    }
}

/// What one configuration line contributes.
pub(crate) enum LineVal {
    /// Blank or comment-only.
    Blank,
    /// A well-formed `depends_on` entry with these names.
    Depends(Vec<Vec<char>>),
    /// A well-formed `containerfile` entry with this flag.
    Container(bool),
    /// A well-formed entry under an unrecognised key.
    Other,
    /// A malformed line.
    Bad,
}

/// The characters of `depends_on`, as a vector.
fn key_depends_vec() -> (r: Vec<char>)
    ensures
        r@ == key_depends(),
{
    let mut r: Vec<char> = Vec::new();
    r.push('d');
    r.push('e');
    r.push('p');
    r.push('e');
    r.push('n');
    r.push('d');
    r.push('s');
    r.push('_');
    r.push('o');
    r.push('n');
    proof {
        assert(r@ =~= key_depends());
    }
    r
}

/// The characters of `containerfile`, as a vector.
fn key_containerfile_vec() -> (r: Vec<char>)
    ensures
        r@ == key_containerfile(),
{
    let mut r: Vec<char> = Vec::new();
    r.push('c');
    r.push('o');
    r.push('n');
    r.push('t');
    r.push('a');
    r.push('i');
    r.push('n');
    r.push('e');
    r.push('r');
    r.push('f');
    r.push('i');
    r.push('l');
    r.push('e');
    proof {
        assert(r@ =~= key_containerfile());
    }
    r
}

/// Whether only blanks or a comment follow position `i`.
fn rest_clear(l: &Vec<char>, i: usize) -> (r: bool)
    requires
        i <= l@.len(),
    ensures
        r == rest_ok(l@, i as int),
{
    let j = ws_end(l, i);
    j >= l.len() || l[j] == '#'
}

/// Parses one configuration line.
pub(crate) fn parse_line(l: &Vec<char>) -> (r: LineVal)
    ensures
        match r {
            LineVal::Blank => line_blank(l@),
            LineVal::Depends(items) => line_defines(l@, key_depends()) && line_ok(l@)
                && line_list_entry(l@) == Some(items.deep_view()),
            LineVal::Container(b) => line_defines(l@, key_containerfile()) && line_ok(l@)
                && line_bool_entry(l@) == Some(b),
            LineVal::Other => line_ok(l@) && !line_blank(l@)
                && !line_defines(l@, key_depends()) && !line_defines(l@, key_containerfile()),
            LineVal::Bad => !line_ok(l@),
        },
{
    let j = ws_end(l, 0);
    if j >= l.len() || l[j] == '#' {
        return LineVal::Blank;
    }
    let k = ident_end(l, j);
    if k == j {
        return LineVal::Bad;
    }
    let e = ws_end(l, k);
    if e >= l.len() || l[e] != '=' {
        return LineVal::Bad;
    }
    let p = ws_end(l, e + 1);
    assert(line_value_start(l@) == p as int);
    let key = subvec(l, j, k);
    assert(key@ == line_key(l@));
    let is_deps = crate::text::chars_eq(&key, &key_depends_vec());
    let is_cf = if is_deps {
        false
    } else {
        crate::text::chars_eq(&key, &key_containerfile_vec())
    };
    if is_deps {
        match array_value(l, p) {
            Some(items) => LineVal::Depends(items),
            None => LineVal::Bad,
        }
    } else if is_cf {
        match bool_value(l, p) {
            Some(b) => LineVal::Container(b),
            None => LineVal::Bad,
        }
    } else {
        if bool_value(l, p).is_some() {
            return LineVal::Other;
        }
        if string_value(l, p).is_some() {
            return LineVal::Other;
        }
        if array_value(l, p).is_some() {
            return LineVal::Other;
        }
        LineVal::Bad
    }
}

/// The line's array value with trailing blanks or comment, matching
/// `line_list_entry` at a known value start.
fn array_value(l: &Vec<char>, p: usize) -> (r: Option<Vec<Vec<char>>>)
    requires
        p <= l@.len(),
        line_value_start(l@) == p as int,
    ensures
        match r {
            Some(items) => line_list_entry(l@) == Some(items.deep_view()),
            None => line_list_entry(l@) is None,
        },
{
    if p >= l.len() || l[p] != '[' {
        return None;
    }
    match items_from(l, p + 1) {
        Some((items, nxt)) => {
            if rest_clear(l, nxt) {
                Some(items)
            } else {
                None
            }
        },
        None => None,
    }
}

/// The line's boolean value with trailing blanks or comment, matching
/// `line_bool_entry` at a known value start.
fn bool_value(l: &Vec<char>, p: usize) -> (r: Option<bool>)
    requires
        p <= l@.len(),
        line_value_start(l@) == p as int,
    ensures
        match r {
            Some(b) => line_bool_entry(l@) == Some(b),
            None => line_bool_entry(l@) is None,
        },
{
    let mut t: Vec<char> = Vec::new();
    t.push('t');
    t.push('r');
    t.push('u');
    t.push('e');
    proof {
        assert(t@ =~= seq!['t', 'r', 'u', 'e']);
    }
    let mut f: Vec<char> = Vec::new();
    f.push('f');
    f.push('a');
    f.push('l');
    f.push('s');
    f.push('e');
    proof {
        assert(f@ =~= seq!['f', 'a', 'l', 's', 'e']);
    }
    if l.len() >= 4 && p <= l.len() - 4 {
        let w = subvec(l, p, p + 4);
        if crate::text::chars_eq(&w, &t) {
            if rest_clear(l, p + 4) {
                return Some(true);
            } else {
                return None;
            }
        }
    }
    if l.len() >= 5 && p <= l.len() - 5 {
        let w = subvec(l, p, p + 5);
        if crate::text::chars_eq(&w, &f) {
            if rest_clear(l, p + 5) {
                return Some(false);
            } else {
                return None;
            }
        }
    }
    None
}

/// The line's string value with trailing blanks or comment, matching
/// `line_string_entry` at a known value start.
fn string_value(l: &Vec<char>, p: usize) -> (r: Option<Vec<char>>)
    requires
        p <= l@.len(),
        line_value_start(l@) == p as int,
    ensures
        match r {
            Some(s) => line_string_entry(l@) == Some(s@),
            None => line_string_entry(l@) is None,
        },
{
    if p >= l.len() || l[p] != '"' {
        return None;
    }
    match string_end(l, p + 1) {
        None => None,
        Some(e) => {
            let s = subvec(l, p + 1, e);
            if rest_clear(l, e + 1) {
                Some(s)
            } else {
                None
            }
        },
    }
}

/// Parses a whole configuration document into `Metadata`.
///
/// Succeeds exactly on well-formed documents; on failure the returned index
/// names an offending line. Missing keys default to an empty dependency
/// list and a false containerfile flag.
pub fn parse_metadata(lines: &Vec<Vec<char>>) -> (r: Result<Metadata, usize>)
    ensures
        match r {
            Ok(m) => doc_wf(lines.deep_view()) && m.depends_on.deep_view() == doc_depends(
                lines.deep_view(),
            ) && m.containerfile == doc_containerfile(lines.deep_view()),
            Err(i) => !doc_wf(lines.deep_view()) && i < lines@.len(),
        },
{
    let ghost ls = lines.deep_view();
    let mut deps: Vec<String> = Vec::new();
    let mut cf = false;
    let mut seen_deps = false;
    let mut seen_cf = false;
    let ghost mut dep_idx: int = 0;
    let ghost mut cf_idx: int = 0;
    let mut i: usize = 0;
    while i < lines.len()
        invariant
            ls == lines.deep_view(),
            i <= ls.len(),
            forall|j: int| 0 <= j < i ==> line_ok(#[trigger] ls[j]),
            !seen_deps ==> forall|j: int|
                0 <= j < i ==> !line_defines(#[trigger] ls[j], key_depends()),
            seen_deps ==> 0 <= dep_idx < i && line_defines(ls[dep_idx], key_depends())
                && line_list_entry(ls[dep_idx]) == Some(deps.deep_view()),
            seen_deps ==> forall|j: int|
                0 <= j < i && line_defines(#[trigger] ls[j], key_depends()) ==> j == dep_idx,
            !seen_deps ==> deps.deep_view() == Seq::<Seq<char>>::empty(),
            !seen_cf ==> forall|j: int|
                0 <= j < i ==> !line_defines(#[trigger] ls[j], key_containerfile()),
            seen_cf ==> 0 <= cf_idx < i && line_defines(ls[cf_idx], key_containerfile())
                && line_bool_entry(ls[cf_idx]) == Some(cf),
            seen_cf ==> forall|j: int|
                0 <= j < i && line_defines(#[trigger] ls[j], key_containerfile()) ==> j
                    == cf_idx,
            !seen_cf ==> cf == false,
        decreases ls.len() - i,
    {
        proof {
            assert(lines[i as int]@ =~= lines[i as int].deep_view());
            assert(lines[i as int].deep_view() == ls[i as int]);
            assert(lines[i as int]@ == ls[i as int]);
        }
        match parse_line(&lines[i]) {
            LineVal::Blank => {},
            LineVal::Other => {},
            LineVal::Bad => {
                proof {
                    assert(!line_ok(ls[i as int]));
                }
                return Err(i);
            },
            LineVal::Depends(items) => {
                if seen_deps {
                    proof {
                        assert(line_defines(ls[dep_idx], key_depends()));
                        assert(line_defines(ls[i as int], key_depends()));
                    }
                    return Err(i);
                }
                let mut named: Vec<String> = Vec::new();
                let mut j: usize = 0;
                while j < items.len()
                    invariant
                        j <= items@.len(),
                        named.deep_view() =~= items.deep_view().subrange(0, j as int),
                    decreases items@.len() - j,
                {
                    let s = string_from_chars(&items[j]);
                    let ghost old_named = named.deep_view();
                    named.push(s);
                    j = j + 1;
                    proof {
                        assert(items[j - 1].deep_view() == items.deep_view()[j - 1]);
                        assert(named.deep_view() =~~= old_named.push(
                            items.deep_view()[j - 1],
                        ));
                        assert(named.deep_view() =~~= items.deep_view().subrange(
                            0,
                            j as int,
                        ));
                    }
                }
                proof {
                    assert(named.deep_view() =~~= items.deep_view());
                }
                deps = named;
                seen_deps = true;
                proof {
                    dep_idx = i as int;
                }
            },
            LineVal::Container(b) => {
                if seen_cf {
                    proof {
                        assert(line_defines(ls[cf_idx], key_containerfile()));
                        assert(line_defines(ls[i as int], key_containerfile()));
                    }
                    return Err(i);
                }
                cf = b;
                seen_cf = true;
                proof {
                    cf_idx = i as int;
                }
            },
        }
        i = i + 1;
    }
    proof {
        assert(doc_wf(ls));
        if seen_deps {
            let c = choose|x: int| 0 <= x < ls.len() && line_defines(#[trigger] ls[x], key_depends());
            assert(0 <= dep_idx < ls.len() && line_defines(ls[dep_idx], key_depends()));
            assert(c == dep_idx || c < dep_idx || c > dep_idx);
            if c != dep_idx {
                if c < dep_idx {
                    assert(!(line_defines(ls[c], key_depends()) && line_defines(
                        ls[dep_idx],
                        key_depends(),
                    )));
                } else {
                    assert(!(line_defines(ls[dep_idx], key_depends()) && line_defines(
                        ls[c],
                        key_depends(),
                    )));
                }
            }
            assert(doc_depends(ls) == deps.deep_view());
        } else {
            assert(doc_depends(ls) =~~= deps.deep_view());
        }
        if seen_cf {
            let c = choose|x: int|
                0 <= x < ls.len() && line_defines(#[trigger] ls[x], key_containerfile());
            if c != cf_idx {
                if c < cf_idx {
                    assert(!(line_defines(ls[c], key_containerfile()) && line_defines(
                        ls[cf_idx],
                        key_containerfile(),
                    )));
                } else {
                    assert(!(line_defines(ls[cf_idx], key_containerfile()) && line_defines(
                        ls[c],
                        key_containerfile(),
                    )));
                }
            }
            assert(doc_containerfile(ls) == cf);
        }
    }
    Ok(Metadata { depends_on: deps, containerfile: cf })
}

} // verus!
