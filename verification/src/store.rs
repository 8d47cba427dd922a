//! The definition store: operations over the snapshot of parsed definitions
//! that one invocation works with. Enumeration of the directory itself is
//! I/O and happens outside the crate; this module aggregates parse results,
//! locates definitions by name, and computes fuzzy suggestions for misses.

use vstd::prelude::*;
use nucleo_matcher::{Matcher, Config};
use nucleo_matcher::pattern::{Pattern, CaseMatching, Normalization, AtomKind};
use crate::definition::{name_of, Definition, ParseError};
use crate::text::chars_of;

verus! {

/// The result a fuzzy match over a pattern and a list of candidate names
/// yields, as the outside matcher computes it. The result is a function of
/// the pattern and the candidates alone.
pub uninterp spec fn fuzzy_best(pattern: Seq<char>, names: Seq<Seq<char>>) -> Option<Seq<char>>;

/// Relies on `nucleo_matcher::pattern::Pattern::match_list` with the default
/// configuration: it scores each candidate deterministically, keeps the
/// matching ones sorted by score with a stable sort, and returns candidates
/// it was given, so the best match is one of `names`.
#[verifier::external_body]
fn fuzzy_match(pattern: &str, names: &Vec<String>) -> (r: Option<String>)
    ensures
        r.deep_view() == fuzzy_best(pattern@, names.deep_view()),
        match r {
            Some(s) => exists|i: int| 0 <= i < names@.len() && (#[trigger] names@[i])@ == s@,
            None => true,
        },
{
    let mut matcher = Matcher::new(Config::DEFAULT);
    Pattern::new(pattern, CaseMatching::Ignore, Normalization::Smart, AtomKind::Fuzzy)
        .match_list(names.iter(), &mut matcher)
        .first()
        .map(|(m, _)| (*m).clone())
}

/// Why a store operation failed.
#[derive(Debug)]
pub enum StoreError {
    /// No definition has the requested name; a fuzzy suggestion is attached
    /// when one could be computed.
    NotFound { name: String, suggestion: Option<String> },
    /// Some definition files could not be parsed; every failing path is
    /// reported together with its cause.
    ParseFailures { failures: Vec<(String, ParseError)> },
}

/// The names of all definitions in a snapshot, in order.
pub open spec fn names_of(defs: Seq<Definition>) -> Seq<Seq<char>> {
    defs.map_values(|d: Definition| name_of(d.path@))
}

/// A definition with the given name exists in the snapshot.
pub open spec fn spec_exists(defs: Seq<Definition>, name: Seq<char>) -> bool {
    exists|i: int| 0 <= i < defs.len() && name_of((#[trigger] defs[i]).path@) == name
}

/// The names of every definition in the snapshot, in order.
pub fn names(defs: &Vec<Definition>) -> (r: Vec<String>)
    ensures
        r.deep_view() == names_of(defs@),
{
    let mut r: Vec<String> = Vec::new();
    let mut i: usize = 0;
    proof {
        assert(r.deep_view() =~~= names_of(defs@.take(0)));
    }
    while i < defs.len()
        invariant
            i <= defs@.len(),
            r.deep_view() == names_of(defs@.take(i as int)),
        decreases defs@.len() - i,
    {
        let ghost old_r = r.deep_view();
        let n = defs[i].name();
        r.push(n);
        i = i + 1;
        proof {
            assert(r.deep_view() =~~= old_r.push(name_of(defs@[i - 1].path@)));
            assert(r.deep_view() =~~= names_of(defs@.take(i as int)));
        }
    }
    proof {
        assert(defs@.take(i as int) =~= defs@);
        assert(r.deep_view() =~~= names_of(defs@));
    }
    r
}

/// The index of the first definition with the given name, if any.
pub fn find_index(defs: &Vec<Definition>, name: &str) -> (r: Option<usize>)
    ensures
        match r {
            Some(i) => i < defs@.len() && name_of(defs@[i as int].path@) == name@
                && forall|j: int| 0 <= j < i ==> name_of((#[trigger] defs@[j]).path@) != name@,
            None => !spec_exists(defs@, name@),
        },
{
    let target = chars_of(name);
    let mut i: usize = 0;
    while i < defs.len()
        invariant
            target@ == name@,
            i <= defs@.len(),
            forall|j: int| 0 <= j < i ==> name_of((#[trigger] defs@[j]).path@) != name@,
        decreases defs@.len() - i,
    {
        let n = defs[i].name();
        let nc = chars_of(n.as_str());
        if crate::text::chars_eq(&nc, &target) {
            return Some(i);
        }
        i = i + 1;
    }
    None
}

/// Whether a definition with the given name exists in the snapshot.
pub fn exists_by_name(defs: &Vec<Definition>, name: &str) -> (r: bool)
    ensures
        r == spec_exists(defs@, name@),
{
    match find_index(defs, name) {
        Some(_) => true,
        None => false,
    }
}

/// The best fuzzy match of a pattern against a list of candidate names.
pub fn suggest_name(pattern: &str, candidates: &Vec<String>) -> (r: Option<String>)
    ensures
        r.deep_view() == fuzzy_best(pattern@, candidates.deep_view()),
{
    fuzzy_match(pattern, candidates)
}

/// The fuzzy suggestion for a name not found among the given definitions:
/// the best match of the name against all definition names.
pub fn suggestion(defs: &Vec<Definition>, name: &str) -> (r: Option<String>)
    ensures
        r.deep_view() == fuzzy_best(name@, names_of(defs@)),
{
    let ns = names(defs);
    suggest_name(name, &ns)
}

/// Locates the definition with the given name.
///
/// Returns the index of the first definition carrying the name. Fails with
/// `NotFound` exactly when no definition has it; the error repeats the name
/// and attaches the fuzzy suggestion computed over all definition names.
pub fn find(defs: &Vec<Definition>, name: &str) -> (r: Result<usize, StoreError>)
    ensures
        match r {
            Ok(i) => i < defs@.len() && name_of(defs@[i as int].path@) == name@,
            Err(e) => !spec_exists(defs@, name@) && (e matches StoreError::NotFound {
                name: n,
                suggestion: s,
            } && n@ == name@ && s.deep_view() == fuzzy_best(name@, names_of(defs@))),
        },
{
    match find_index(defs, name) {
        Some(i) => Ok(i),
        None => {
            let s = suggestion(defs, name);
            Err(StoreError::NotFound { name: name.to_owned(), suggestion: s })
        },
    }
}

/// A file's content yields a definition: it is non-empty and its
/// front-matter configuration is well formed.
pub open spec fn file_parses(content: Seq<char>) -> bool {
    content.len() > 0 && crate::config::doc_wf(crate::definition::meta_doc(content))
}

/// Parses a whole snapshot of `(path, content)` pairs.
///
/// Succeeds with every definition, in input order, exactly when every file
/// parses; otherwise fails with the full list of failing paths and their
/// causes, so an operator sees all broken definitions at once.
pub fn parse_all(files: Vec<(String, String)>) -> (r: Result<Vec<Definition>, StoreError>)
    ensures
        match r {
            Ok(defs) => {
                &&& forall|i: int| 0 <= i < files@.len() ==> file_parses((#[trigger] files@[i]).1@)
                &&& defs@.len() == files@.len()
                &&& forall|i: int|
                    0 <= i < files@.len() ==> (#[trigger] defs@[i]).path@ == files@[i].0@
                &&& forall|i: int|
                    0 <= i < files@.len()
                        ==> (#[trigger] defs@[i]).hash == crate::hashing::content_hash(
                        files@[i].1@,
                    ) && defs@[i].tree == defs@[i].hash
                &&& forall|i: int|
                    0 <= i < files@.len()
                        ==> (#[trigger] defs@[i]).meta.depends_on.deep_view() == crate::config::doc_depends(
                        crate::definition::meta_doc(files@[i].1@),
                    ) && defs@[i].meta.containerfile == crate::config::doc_containerfile(
                        crate::definition::meta_doc(files@[i].1@),
                    )
            },
            Err(e) => (e matches StoreError::ParseFailures { failures } && failures@.len() > 0)
                && exists|i: int| 0 <= i < files@.len() && !file_parses((#[trigger] files@[i]).1@),
        },
{
    let mut defs: Vec<Definition> = Vec::new();
    let mut failures: Vec<(String, ParseError)> = Vec::new();
    let mut i: usize = 0;
    while i < files.len()
        invariant
            i <= files@.len(),
            failures@.len() > 0 ==> exists|j: int|
                0 <= j < i && !file_parses((#[trigger] files@[j]).1@),
            failures@.len() == 0 ==> {
                &&& defs@.len() == i
                &&& forall|j: int| 0 <= j < i ==> file_parses((#[trigger] files@[j]).1@)
                &&& forall|j: int|
                    0 <= j < i ==> (#[trigger] defs@[j]).path@ == files@[j].0@
                &&& forall|j: int|
                    0 <= j < i ==> (#[trigger] defs@[j]).hash == crate::hashing::content_hash(
                        files@[j].1@,
                    ) && defs@[j].tree == defs@[j].hash
                &&& forall|j: int|
                    0 <= j < i
                        ==> (#[trigger] defs@[j]).meta.depends_on.deep_view() == crate::config::doc_depends(
                        crate::definition::meta_doc(files@[j].1@),
                    ) && defs@[j].meta.containerfile == crate::config::doc_containerfile(
                        crate::definition::meta_doc(files@[j].1@),
                    )
            },
        decreases files@.len() - i,
    {
        let path = files[i].0.clone();
        match Definition::parse(path, files[i].1.as_str()) {
            Ok(d) => {
                defs.push(d);
            },
            Err(err) => {
                proof {
                    assert(!file_parses(files@[i as int].1@));
                }
                let path2 = files[i].0.clone();
                failures.push((path2, err));
            },
        }
        i = i + 1;
    }
    if failures.len() > 0 {
        Err(StoreError::ParseFailures { failures })
    } else {
        Ok(defs)
    }
}

/// Resolves the definition directory from the three layered settings, first
/// match winning: the explicit override; else the per-user configuration
/// root with the fixed subdirectory; else the home directory with the
/// default relative path. `None` when none of the three is available.
pub fn resolve_directory(
    explicit: Option<String>,
    config_root: Option<String>,
    home: Option<String>,
) -> (r: Option<String>)
    ensures
        match explicit {
            Some(d) => r matches Some(out) && out@ == d@,
            None => match config_root {
                Some(c) => r matches Some(out) && out@ == c@ + "/box"@,
                None => match home {
                    Some(h) => r matches Some(out) && out@ == h@ + "/.config/box"@,
                    None => r is None,
                },
            },
        },
{
    match explicit {
        Some(d) => Some(d),
        None => match config_root {
            Some(c) => Some(c.concat("/box")),
            None => match home {
                Some(h) => Some(h.concat("/.config/box")),
                None => None,
            },
        },
    }
}

} // verus!
