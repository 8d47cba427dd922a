//! The definition model: one managed build unit, parsed from a single file.

use vstd::prelude::*;
use crate::config::{
    doc_containerfile, doc_depends, doc_wf, parse_metadata, Metadata,
};
use crate::hashing::{content_hash, hash_content};
use crate::text::{
    chars_of, contains_sub, has_prefix, lines_of, spec_lines, spec_trim, starts_with,
    string_from_chars, subvec, trim_chars,
};

verus! {

/// One managed build unit.
#[derive(Debug)]
pub struct Definition {
    /// Location of the source file; the unique key of the definition.
    pub path: String,
    /// The file's first line, kept verbatim for strategy sniffing.
    pub bang: String,
    /// Hash of the file's full raw content.
    pub hash: u64,
    /// The own hash combined with the hashes of all transitive dependencies.
    /// Initialised equal to `hash`.
    pub tree: u64,
    /// Parsed front-matter metadata.
    pub meta: Metadata,
}

/// Why a definition file could not be parsed.
#[derive(Debug, PartialEq, Eq)]
pub enum ParseError {
    /// The file could not be read.
    Io,
    /// The file's content is not valid text.
    Encoding,
    /// The file has no lines at all.
    EmptyDefinition,
    /// The front-matter configuration is malformed; the index counts
    /// front-matter lines, in file order.
    Metadata { line: usize },
}

/// The front-matter marker.
pub open spec fn marker() -> Seq<char> {
    seq!['#', '~']
}

/// The marker characters, as a vector.
fn marker_vec() -> (r: Vec<char>)
    ensures
        r@ == marker(),
{
    let mut r: Vec<char> = Vec::new();
    r.push('#');
    r.push('~');
    proof {
        assert(r@ =~= marker());
    }
    r
}

/// A line with every leading front-matter marker removed.
pub open spec fn strip_marker(l: Seq<char>) -> Seq<char>
    decreases l.len(),
{
    if has_prefix(l, marker()) {
        strip_marker(l.skip(2))
    } else {
        l
    }
}

/// The configuration document of a text: every line carrying the
/// front-matter marker, with the marker stripped and the ends trimmed, in
/// file order.
pub open spec fn meta_of_lines(lines: Seq<Seq<char>>) -> Seq<Seq<char>>
    decreases lines.len(),
{
    if lines.len() == 0 {
        Seq::empty()
    } else {
        let rest = meta_of_lines(lines.drop_last());
        if has_prefix(lines.last(), marker()) {
            rest.push(spec_trim(strip_marker(lines.last())))
        } else {
            rest
        }
    }
}

/// The configuration document of a definition's full text.
pub open spec fn meta_doc(s: Seq<char>) -> Seq<Seq<char>> {
    meta_of_lines(spec_lines(s))
}

/// A non-empty text has at least one line.
pub proof fn lemma_lines_nonempty(s: Seq<char>)
    requires
        s.len() > 0,
    ensures
        spec_lines(s).len() >= 1,
{
    let parts = crate::text::split_char(s, '\n');
    crate::text::lemma_split_char_nonempty(s, '\n');
    if s[s.len() - 1] == '\n' {
        let f = crate::text::find_char(s, '\n');
        crate::text::lemma_find_char(s, '\n');
        if f == s.len() {
            assert(s[s.len() - 1] != '\n');
            assert(false);
        }
        assert(parts == seq![s.take(f)] + crate::text::split_char(s.skip(f + 1), '\n'));
        crate::text::lemma_split_char_nonempty(s.skip(f + 1), '\n');
        assert(parts.len() >= 2);
    }
}

/// Strips every leading marker from a line known to carry one.
fn strip_marker_exec(l: &Vec<char>) -> (r: Vec<char>)
    ensures
        r@ == strip_marker(l@),
    decreases l@.len(),
{
    let m = marker_vec();
    if starts_with(l, &m) {
        let rest = subvec(l, 2, l.len());
        proof {
            assert(rest@ =~= l@.skip(2));
        }
        strip_marker_exec(&rest)
    } else {
        let r = crate::text::copy_chars(l);
        r
    }
}

/// Extracts the configuration document from the lines of a text.
fn meta_lines_exec(lines: &Vec<Vec<char>>) -> (r: Vec<Vec<char>>)
    ensures
        r.deep_view() == meta_of_lines(lines.deep_view()),
{
    let m = marker_vec();
    let mut r: Vec<Vec<char>> = Vec::new();
    let mut i: usize = 0;
    proof {
        assert(r.deep_view() =~~= meta_of_lines(lines.deep_view().take(0)));
    }
    while i < lines.len()
        invariant
            i <= lines@.len(),
            m@ == marker(),
            r.deep_view() == meta_of_lines(lines.deep_view().take(i as int)),
        decreases lines@.len() - i,
    {
        let ghost ls = lines.deep_view();
        proof {
            assert(lines[i as int]@ =~= lines[i as int].deep_view());
            assert(ls.take(i + 1).drop_last() =~= ls.take(i as int));
            assert(ls.take(i + 1).last() == ls[i as int]);
        }
        if starts_with(&lines[i], &m) {
            let stripped = strip_marker_exec(&lines[i]);
            let trimmed = trim_chars(&stripped);
            let ghost old_r = r.deep_view();
            r.push(trimmed);
            proof {
                assert(r.deep_view() =~~= old_r.push(spec_trim(strip_marker(ls[i as int]))));
            }
        }
        i = i + 1;
    }
    proof {
        assert(lines.deep_view().take(i as int) =~= lines.deep_view());
    }
    r
}

impl Definition {
    /// Parses one definition from its path and its full text.
    ///
    /// Succeeds exactly on a non-empty text whose front-matter configuration
    /// is well formed. The own hash covers the complete unprocessed content;
    /// the tree hash starts out equal to it; the first line is kept verbatim.
    pub fn parse(path: String, data: &str) -> (r: Result<Definition, ParseError>)
        ensures
            match r {
                Ok(d) => {
                    &&& data@.len() > 0
                    &&& doc_wf(meta_doc(data@))
                    &&& d.path@ == path@
                    &&& d.bang@ == spec_lines(data@)[0]
                    &&& d.hash == content_hash(data@)
                    &&& d.tree == d.hash
                    &&& d.meta.depends_on.deep_view() == doc_depends(meta_doc(data@))
                    &&& d.meta.containerfile == doc_containerfile(meta_doc(data@))
                },
                Err(ParseError::EmptyDefinition) => data@.len() == 0,
                Err(ParseError::Metadata { line }) => data@.len() > 0 && !doc_wf(
                    meta_doc(data@),
                ),
                Err(_) => false,
            },
    {
        let cs = chars_of(data);
        if cs.len() == 0 {
            return Err(ParseError::EmptyDefinition);
        }
        let lines = lines_of(&cs);
        proof {
            lemma_lines_nonempty(data@);
            assert(lines[0].deep_view() == spec_lines(data@)[0]);
            assert(lines[0]@ =~= lines[0].deep_view());
        }
        let bang = string_from_chars(&lines[0]);
        let doc = meta_lines_exec(&lines);
        let meta = match parse_metadata(&doc) {
            Ok(m) => m,
            Err(line) => {
                return Err(ParseError::Metadata { line });
            },
        };
        let hash = hash_content(data);
        Ok(Definition { path, bang, hash, tree: hash, meta })
    }

    /// The definition's human-readable name, derived from the path.
    pub fn name(&self) -> (r: String)
        ensures
            r@ == name_of(self.path@),
    {
        name_of_path(self.path.as_str())
    }

    /// The names of the definitions this one directly depends on.
    pub fn depends_on(&self) -> (r: &Vec<String>)
        ensures
            r == &self.meta.depends_on,
    {
        &self.meta.depends_on
    }

    /// The build strategy the dispatcher selects for this definition.
    pub fn strategy(&self) -> (r: BuildStrategy)
        ensures
            r == strategy_of(self),
    {
        if self.meta.containerfile {
            BuildStrategy::Containerfile
        } else {
            let bang = chars_of(self.bang.as_str());
            let mut fish: Vec<char> = Vec::new();
            fish.push('f');
            fish.push('i');
            fish.push('s');
            fish.push('h');
            proof {
                assert(fish@ =~= fish_marker());
            }
            if contains_sub(&bang, &fish) {
                BuildStrategy::Fish
            } else {
                BuildStrategy::Posix
            }
        }
    }
}

/// How a definition is dispatched to the external builder.
#[derive(Debug, Clone, Copy, PartialEq, Eq, Structural)]
pub enum BuildStrategy {
    /// Hand the file to the builder as a structured build recipe.
    Containerfile,
    /// Run the file under the alternate shell.
    Fish,
    /// Run the file under the default POSIX shell.
    Posix,
}

/// The marker substring selecting the alternate-shell strategy.
pub open spec fn fish_marker() -> Seq<char> {
    seq!['f', 'i', 's', 'h']
}

/// The strategy a definition's metadata and first line select: the recipe
/// strategy when the containerfile flag is set, else the alternate shell
/// when its marker occurs in the first line, else the default shell.
pub open spec fn strategy_of(d: &Definition) -> BuildStrategy {
    if d.meta.containerfile {
        BuildStrategy::Containerfile
    } else if crate::text::has_substring(d.bang@, fish_marker()) {
        BuildStrategy::Fish
    } else {
        BuildStrategy::Posix
    }
}

/// Index of the last occurrence of `c` in `s`, or -1 if absent.
pub open spec fn last_index(s: Seq<char>, c: char) -> int
    decreases s.len(),
{
    if s.len() == 0 {
        -1
    } else if s.last() == c {
        s.len() - 1
    } else {
        last_index(s.drop_last(), c)
    }
}

/// If `k` is the position of the last occurrence of `c` (or -1 when `s`
/// holds none), `last_index` returns `k`.
pub proof fn lemma_last_index_at(s: Seq<char>, c: char, k: int)
    requires
        -1 <= k < s.len(),
        k >= 0 ==> s[k] == c,
        forall|j: int| k < j < s.len() ==> s[j] != c,
    ensures
        last_index(s, c) == k,
    decreases s.len(),
{
    if s.len() == 0 {
    } else if k == s.len() - 1 {
    } else {
        assert(s.last() != c);
        assert forall|j: int| k < j < s.drop_last().len() implies s.drop_last()[j] != c by {
            assert(s.drop_last()[j] == s[j]);
        }
        if k >= 0 {
            assert(s.drop_last()[k] == s[k]);
        }
        lemma_last_index_at(s.drop_last(), c, k);
    }
}

/// Executable search for the last occurrence of a character.
fn rscan(v: &Vec<char>, c: char) -> (r: Option<usize>)
    ensures
        match r {
            Some(k) => last_index(v@, c) == k as int && k < v@.len(),
            None => last_index(v@, c) == -1,
        },
{
    let mut i = v.len();
    while i > 0
        invariant
            i <= v@.len(),
            forall|j: int| i <= j < v@.len() ==> v@[j] != c,
        decreases i,
    {
        i = i - 1;
        if v[i] == c {
            proof {
                lemma_last_index_at(v@, c, i as int);
            }
            return Some(i);
        }
    }
    proof {
        lemma_last_index_at(v@, c, -1);
    }
    None
}

/// The name a path derives: the part after the last separator, without the
/// extension. A leading dot does not start an extension.
pub open spec fn name_of(path: Seq<char>) -> Seq<char> {
    let base = path.subrange(last_index(path, '/') + 1, path.len() as int);
    let d = last_index(base, '.');
    if d <= 0 {
        base
    } else {
        base.take(d)
    }
}

/// Executable name derivation from a path.
pub fn name_of_path(path: &str) -> (r: String)
    ensures
        r@ == name_of(path@),
{
    let cs = chars_of(path);
    let n = cs.len();
    let start = match rscan(&cs, '/') {
        Some(k) => k + 1,
        None => 0,
    };
    let base = subvec(&cs, start, cs.len());
    proof {
        assert(base@ =~= path@.subrange(last_index(path@, '/') + 1, path@.len() as int));
    }
    let stem = match rscan(&base, '.') {
        Some(d) if d > 0 => subvec(&base, 0, d),
        _ => base,
    };
    proof {
        assert(stem@ =~= name_of(path@));
    }
    string_from_chars(&stem)
}

/// Parsing is deterministic: the own hash is a function of the raw content
/// alone, so re-parsing an unchanged file yields an identical hash.
pub proof fn lemma_own_hash_deterministic(s: Seq<char>, h1: u64, h2: u64)
    requires
        h1 == content_hash(s),
        h2 == content_hash(s),
    ensures
        h1 == h2,
{
}


/// The directory part of a path: everything before the last separator, or
/// nothing when the path has none.
pub open spec fn dir_of(path: Seq<char>) -> Seq<char> {
    if last_index(path, '/') >= 0 {
        path.take(last_index(path, '/'))
    } else {
        Seq::empty()
    }
}

/// Executable directory derivation from a path.
pub fn parent_dir(path: &str) -> (r: String)
    ensures
        r@ == dir_of(path@),
{
    let cs = chars_of(path);
    match rscan(&cs, '/') {
        Some(k) => {
            let d = subvec(&cs, 0, k);
            proof {
                assert(d@ =~= dir_of(path@));
            }
            string_from_chars(&d)
        },
        None => {
            let r = String::new();
            proof {
                assert(r@ =~= dir_of(path@));
            }
            r
        },
    }
}
} // verus!
