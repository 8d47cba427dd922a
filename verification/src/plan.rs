//! Build planning: expands a requested set of definitions to include every
//! transitive dependency, checks for duplicate names and cycles, orders the
//! set topologically, computes tree hashes, and decides which definitions
//! need rebuilding against the recorded build state.

use vstd::prelude::*;
use crate::definition::{name_of, strategy_of, BuildStrategy, Definition};
use crate::graph::{
    appears, edges_within, has_cycle, has_edge, topo_sort, trapped, tree_hash_of,
};
use crate::store::{find_index, fuzzy_best, names_of, spec_exists, suggestion};

verus! {

/// The `(own_hash, tree_hash)` pair recorded for an artifact built earlier,
/// keyed by the definition's path.
#[derive(Debug)]
pub struct BuildRecord {
    /// The definition path the artifact was built from.
    pub path: String,
    /// The own hash recorded at build time.
    pub hash: u64,
    /// The tree hash recorded at build time.
    pub tree: u64,
}

/// Why a build set could not be planned, or a build failed.
#[derive(Debug)]
pub enum BuildError {
    /// A requested definition or a declared dependency does not exist.
    NotFound { name: String, suggestion: Option<String> },
    /// Two definitions derive the same name.
    DuplicateName { name: String },
    /// The requested set resolves to nothing.
    EmptySet,
    /// The dependency graph contains a cycle; the named definition
    /// participates in it.
    Cycle { name: String },
    /// The external builder exited unsuccessfully for the named definition.
    /// Constructed by the caller driving the dispatch, never by planning.
    BuildFailed { name: String },
}

/// One step of the build plan.
#[derive(Debug)]
pub struct PlanEntry {
    /// Index of the definition in the store snapshot the plan was made from.
    pub index: usize,
    /// The definition's computed tree hash.
    pub tree: u64,
    /// The dispatch strategy selected for the definition.
    pub strategy: BuildStrategy,
    /// Whether the definition is dispatched or skipped as unchanged.
    pub build: bool,
}

/// All definition names in the snapshot are distinct.
pub open spec fn unique_names(defs: Seq<Definition>) -> bool {
    forall|i: int, j: int|
        0 <= i < j < defs.len() ==> name_of((#[trigger] defs[i]).path@) != name_of(
            (#[trigger] defs[j]).path@,
        )
}

/// Definition `d` declares a direct dependency on the name `nm`.
pub open spec fn declares_dep(d: Definition, nm: Seq<char>) -> bool {
    exists|k: int|
        0 <= k < d.meta.depends_on@.len() && (#[trigger] d.meta.depends_on@[k])@ == nm
}

/// `set` holds distinct store indices.
pub open spec fn set_wf(store: Seq<Definition>, set: Seq<usize>) -> bool {
    &&& forall|p: int| 0 <= p < set.len() ==> (#[trigger] set[p]) < store.len()
    &&& forall|p1: int, p2: int| 0 <= p1 < p2 < set.len() ==> set[p1] != set[p2]
}

/// Some member of `set` carries the name `nm`.
pub open spec fn member_named(store: Seq<Definition>, set: Seq<usize>, nm: Seq<char>) -> bool {
    exists|p: int|
        0 <= p < set.len() && name_of(store[(#[trigger] set[p]) as int].path@) == nm
}

/// Some member of `set` declares a dependency on the name `nm`.
pub open spec fn dependent_member(store: Seq<Definition>, set: Seq<usize>, nm: Seq<char>) -> bool {
    exists|p: int|
        0 <= p < set.len() && declares_dep(store[(#[trigger] set[p]) as int], nm)
}

/// Every dependency declared by a member of `set` is itself a member, by
/// name.
pub open spec fn set_closed(store: Seq<Definition>, set: Seq<usize>) -> bool {
    forall|p: int, k: int|
        0 <= p < set.len() && 0 <= k < store[(#[trigger] set[p]) as int].meta.depends_on@.len()
            ==> member_named(store, set, (#[trigger] store[set[p] as int].meta.depends_on@[k])@)
}

/// The edge list of the dependency graph over the members of `set`: one
/// edge per declared dependency, pointing from the dependency's position to
/// the dependent's position.
pub open spec fn edges_match(
    store: Seq<Definition>,
    set: Seq<usize>,
    edges: Seq<(usize, usize)>,
) -> bool {
    &&& forall|e: int|
        0 <= e < edges.len() ==> (#[trigger] edges[e]).0 < set.len() && edges[e].1 < set.len()
            && declares_dep(
            store[set[edges[e].1 as int] as int],
            name_of(store[set[edges[e].0 as int] as int].path@),
        )
    &&& forall|a: int, b: int|
        0 <= a < set.len() && 0 <= b < set.len() && declares_dep(
            #[trigger] store[set[b] as int],
            name_of(#[trigger] store[set[a] as int].path@),
        ) ==> has_edge(edges, a, b)
}

/// The recorded `(own_hash, tree_hash)` pair for a path: the first record
/// carrying the path, if any. The recorded state is a map keyed by path —
/// each built artifact carries the path it was built from — so duplicate
/// paths are out of model; where one nevertheless occurs, the first record
/// wins.
pub open spec fn record_for(records: Seq<BuildRecord>, path: Seq<char>) -> Option<(u64, u64)>
    decreases records.len(),
{
    if records.len() == 0 {
        None
    } else if records[0].path@ == path {
        Some((records[0].hash, records[0].tree))
    } else {
        record_for(records.skip(1), path)
    }
}

/// A definition must be dispatched: the caller forces it, no record exists
/// for its path, or either recorded hash differs from the current one.
pub open spec fn spec_needs_build(
    records: Seq<BuildRecord>,
    path: Seq<char>,
    own: u64,
    tree: u64,
    force: bool,
) -> bool {
    force || match record_for(records, path) {
        None => true,
        Some((h, t)) => h != own || t != tree,
    }
}

/// Looks up the first record for a path.
fn find_record(records: &Vec<BuildRecord>, path: &str) -> (r: Option<(u64, u64)>)
    ensures
        r == record_for(records@, path@),
{
    let target = crate::text::chars_of(path);
    let mut i: usize = 0;
    proof {
        assert(records@.skip(0) =~= records@);
    }
    while i < records.len()
        invariant
            target@ == path@,
            i <= records@.len(),
            record_for(records@, path@) == record_for(records@.skip(i as int), path@),
        decreases records@.len() - i,
    {
        let pc = crate::text::chars_of(records[i].path.as_str());
        let ghost rest = records@.skip(i as int);
        proof {
            assert(rest[0] == records@[i as int]);
            assert(rest.skip(1) =~= records@.skip(i + 1));
        }
        if crate::text::chars_eq(&pc, &target) {
            return Some((records[i].hash, records[i].tree));
        }
        i = i + 1;
    }
    proof {
        assert(records@.skip(i as int) =~= Seq::<BuildRecord>::empty());
    }
    None
}

/// Decides whether a definition must be dispatched, per the change
/// detection rule: forced, unrecorded, or either hash mismatching.
pub fn needs_build(
    records: &Vec<BuildRecord>,
    path: &str,
    own: u64,
    tree: u64,
    force: bool,
) -> (r: bool)
    ensures
        r == spec_needs_build(records@, path@, own, tree, force),
{
    if force {
        return true;
    }
    match find_record(records, path) {
        None => true,
        Some((h, t)) => h != own || t != tree,
    }
}

/// Finds a pair of distinct definitions sharing a name, if one exists.
fn find_duplicate(store: &Vec<Definition>) -> (r: Option<usize>)
    ensures
        match r {
            Some(i) => i < store@.len() && exists|j: int|
                0 <= j < store@.len() && j != i && name_of(
                    (#[trigger] store@[j]).path@,
                ) == name_of(store@[i as int].path@),
            None => unique_names(store@),
        },
{
    let mut i: usize = 0;
    while i < store.len()
        invariant
            i <= store@.len(),
            forall|a: int, b: int|
                0 <= a < b < store@.len() && a < i ==> name_of(
                    (#[trigger] store@[a]).path@,
                ) != name_of((#[trigger] store@[b]).path@),
        decreases store@.len() - i,
    {
        let ni = store[i].name();
        let nic = crate::text::chars_of(ni.as_str());
        let mut j = i + 1;
        while j < store.len()
            invariant
                i < j <= store@.len(),
                i < store@.len(),
                nic@ == name_of(store@[i as int].path@),
                forall|b: int|
                    i < b < j ==> name_of((#[trigger] store@[b]).path@) != name_of(
                        store@[i as int].path@,
                    ),
            decreases store@.len() - j,
        {
            let nj = store[j].name();
            let njc = crate::text::chars_of(nj.as_str());
            if crate::text::chars_eq(&nic, &njc) {
                return Some(i);
            }
            j = j + 1;
        }
        i = i + 1;
    }
    None
}


/// Every requested name is carried by some member of `set`.
pub open spec fn covers_requested(
    store: Seq<Definition>,
    set: Seq<usize>,
    requested: Seq<String>,
) -> bool {
    forall|j: int|
        0 <= j < requested.len() ==> member_named(store, set, (#[trigger] requested[j])@)
}

/// Every member of `set` is there for a reason: the whole store was
/// requested, its name was requested, or another member declares it as a
/// dependency.
pub open spec fn members_justified(
    store: Seq<Definition>,
    set: Seq<usize>,
    requested: Seq<String>,
    all: bool,
) -> bool {
    forall|p: int|
        0 <= p < set.len() ==> all || (exists|j: int|
            0 <= j < requested.len() && (#[trigger] requested[j])@ == name_of(
                store[(#[trigger] set[p]) as int].path@,
            )) || dependent_member(store, set, name_of(store[set[p] as int].path@))
}

/// The name was actually asked for: it is one of the requested names, or
/// some definition in the store declares it as a dependency. A planning
/// error may only report such a name.
pub open spec fn name_requested(
    store: Seq<Definition>,
    requested: Seq<String>,
    all: bool,
    nm: Seq<char>,
) -> bool {
    ||| (!all && exists|j: int| 0 <= j < requested.len() && (#[trigger] requested[j])@ == nm)
    ||| exists|i: int, k: int|
        0 <= i < store.len() && 0 <= k < store[i].meta.depends_on@.len()
            && (#[trigger] store[i].meta.depends_on@[k])@ == nm
}

/// Growing a set keeps every named membership fact.
proof fn lemma_member_push(store: Seq<Definition>, old_set: Seq<usize>, set: Seq<usize>, x: usize)
    requires
        set == old_set.push(x),
    ensures
        forall|nm: Seq<char>|
            member_named(store, old_set, nm) ==> #[trigger] member_named(store, set, nm),
        forall|nm: Seq<char>|
            dependent_member(store, old_set, nm) ==> #[trigger] dependent_member(store, set, nm),
{
    assert forall|nm: Seq<char>|
        member_named(store, old_set, nm) implies #[trigger] member_named(store, set, nm) by {
        let p = choose|p: int|
            0 <= p < old_set.len() && name_of(store[(#[trigger] old_set[p]) as int].path@) == nm;
        assert(set[p] == old_set[p]);
    }
    assert forall|nm: Seq<char>|
        dependent_member(store, old_set, nm) implies #[trigger] dependent_member(store, set, nm)
        by {
        let p = choose|p: int|
            0 <= p < old_set.len() && declares_dep(store[(#[trigger] old_set[p]) as int], nm);
        assert(set[p] == old_set[p]);
    }
}

/// Resolves the initial node set and closes it under declared dependencies.
#[verifier::rlimit(100)]
fn assemble(store: &Vec<Definition>, requested: &Vec<String>, all: bool) -> (r: Result<
    Vec<usize>,
    BuildError,
>)
    requires
        unique_names(store@),
    ensures
        match r {
            Ok(set) => {
                &&& set@.len() > 0
                &&& set_wf(store@, set@)
                &&& set_closed(store@, set@)
                &&& all ==> forall|i: int| 0 <= i < store@.len() ==> appears(set@, i)
                &&& !all ==> covers_requested(store@, set@, requested@)
                &&& members_justified(store@, set@, requested@, all)
            },
            Err(e) => match e {
                BuildError::NotFound { name, suggestion: s } => !spec_exists(store@, name@)
                    && s.deep_view() == fuzzy_best(name@, names_of(store@)) && name_requested(
                    store@,
                    requested@,
                    all,
                    name@,
                ),
                BuildError::EmptySet => if all {
                    store@.len() == 0
                } else {
                    requested@.len() == 0
                },
                _ => false,
            },
        },
{
    let n = store.len();
    let mut set: Vec<usize> = Vec::new();
    let mut present: Vec<bool> = vec![false; n];
    if all {
        if n == 0 {
            return Err(BuildError::EmptySet);
        }
        let mut i: usize = 0;
        while i < n
            invariant
                n == store@.len(),
                present@.len() == n,
                i <= n,
                set@.len() == i,
                forall|p: int| 0 <= p < i ==> (#[trigger] set@[p]) as int == p,
                forall|x: int| 0 <= x < n ==> ((#[trigger] present@[x]) <==> appears(set@, x)),
            decreases n - i,
        {
            let ghost old_set = set@;
            set.push(i);
            present.set(i, true);
            i = i + 1;
            proof {
                assert(set@[i - 1] as int == i - 1);
                assert forall|x: int|
                    0 <= x < n implies ((#[trigger] present@[x]) <==> appears(set@, x)) by {
                    if x == i - 1 {
                        assert(appears(set@, x));
                    } else {
                        if appears(set@, x) {
                            let p = choose|p: int|
                                0 <= p < set@.len() && (#[trigger] set@[p]) as int == x;
                            assert(old_set[p] as int == x);
                            assert(appears(old_set, x));
                        }
                        if appears(old_set, x) {
                            let p = choose|p: int|
                                0 <= p < old_set.len() && (#[trigger] old_set[p]) as int == x;
                            assert(set@[p] as int == x);
                        }
                    }
                }
            }
        }
    } else {
        if requested.len() == 0 {
            return Err(BuildError::EmptySet);
        }
        let mut j: usize = 0;
        while j < requested.len()
            invariant
                !all,
                n == store@.len(),
                unique_names(store@),
                present@.len() == n,
                j <= requested@.len(),
                set_wf(store@, set@),
                forall|x: int| 0 <= x < n ==> ((#[trigger] present@[x]) <==> appears(set@, x)),
                forall|j2: int|
                    0 <= j2 < j ==> member_named(store@, set@, (#[trigger] requested@[j2])@),
                forall|p: int|
                    0 <= p < set@.len() ==> exists|j2: int|
                        0 <= j2 < j && (#[trigger] requested@[j2])@ == name_of(
                            store@[(#[trigger] set@[p]) as int].path@,
                        ),
            decreases requested@.len() - j,
        {
            match find_index(store, requested[j].as_str()) {
                None => {
                    let s = suggestion(store, requested[j].as_str());
                    let name = requested[j].clone();
                    proof {
                        assert(requested@[j as int]@ == name@);
                        assert(name_requested(store@, requested@, all, name@));
                    }
                    return Err(BuildError::NotFound { name, suggestion: s });
                },
                Some(idx) => {
                    let ghost old_set = set@;
                    if !present[idx] {
                        present.set(idx, true);
                        set.push(idx);
                        proof {
                            assert(set@[set@.len() - 1] == idx);
                            lemma_member_push(store@, old_set, set@, idx);
                            assert forall|x: int|
                                0 <= x < n implies ((#[trigger] present@[x]) <==> appears(
                                set@,
                                x,
                            )) by {
                                if x == idx as int {
                                    assert(appears(set@, x));
                                } else {
                                    if appears(set@, x) {
                                        let p = choose|p: int|
                                            0 <= p < set@.len() && (#[trigger] set@[p]) as int
                                                == x;
                                        assert(old_set[p] as int == x);
                                    }
                                    if appears(old_set, x) {
                                        let p = choose|p: int|
                                            0 <= p < old_set.len() && (#[trigger] old_set[p])
                                                as int == x;
                                        assert(set@[p] as int == x);
                                    }
                                }
                            }
                            assert forall|p1: int, p2: int|
                                0 <= p1 < p2 < set@.len() implies set@[p1] != set@[p2] by {
                                if p2 == set@.len() - 1 {
                                    assert(old_set[p1] == set@[p1]);
                                    assert(appears(old_set, set@[p1] as int));
                                }
                            }
                        }
                    } else {
                        proof {
                            assert(appears(set@, idx as int));
                            let p = choose|p: int|
                                0 <= p < set@.len() && (#[trigger] set@[p]) as int == idx as int;
                            assert(name_of(store@[set@[p] as int].path@) == requested@[
                                j as int
                            ]@);
                            assert(member_named(store@, set@, requested@[j as int]@));
                        }
                    }
                    proof {
                        assert(member_named(store@, set@, requested@[j as int]@)) by {
                            if !old_set.contains(idx) {
                                assert(set@[set@.len() - 1] == idx);
                            }
                        }
                    }
                    j = j + 1;
                },
            }
        }
    }
    // Close the set under declared dependencies.
    let mut i: usize = 0;
    proof {
        crate::graph::lemma_distinct_bounded(set@, n as int);
        if all {
            assert forall|x: int| 0 <= x < store@.len() implies appears(set@, x) by {
                assert(set@[x] as int == x);
            }
        }
    }
    while i < set.len()
        invariant
            n == store@.len(),
            unique_names(store@),
            present@.len() == n,
            set_wf(store@, set@),
            set@.len() <= n,
            i <= set@.len(),
            forall|x: int| 0 <= x < n ==> ((#[trigger] present@[x]) <==> appears(set@, x)),
            !all ==> covers_requested(store@, set@, requested@),
            members_justified(store@, set@, requested@, all),
            all ==> forall|x: int| 0 <= x < store@.len() ==> appears(set@, x),
            forall|p: int, k: int|
                0 <= p < i && 0 <= k < store@[(#[trigger] set@[p]) as int].meta.depends_on@.len()
                    ==> member_named(
                    store@,
                    set@,
                    (#[trigger] store@[set@[p] as int].meta.depends_on@[k])@,
                ),
        decreases n - i,
    {
        let idx = set[i];
        let dl = store[idx].meta.depends_on.len();
        let mut k: usize = 0;
        while k < dl
            invariant
                n == store@.len(),
                unique_names(store@),
                present@.len() == n,
                set_wf(store@, set@),
                set@.len() <= n,
                i < set@.len(),
                idx == set@[i as int],
                dl == store@[idx as int].meta.depends_on@.len(),
                k <= dl,
                forall|x: int| 0 <= x < n ==> ((#[trigger] present@[x]) <==> appears(set@, x)),
                !all ==> covers_requested(store@, set@, requested@),
                members_justified(store@, set@, requested@, all),
                all ==> forall|x: int| 0 <= x < store@.len() ==> appears(set@, x),
                forall|p: int, k2: int|
                    0 <= p < i && 0 <= k2 < store@[(
                    #[trigger] set@[p]) as int].meta.depends_on@.len() ==> member_named(
                        store@,
                        set@,
                        (#[trigger] store@[set@[p] as int].meta.depends_on@[k2])@,
                    ),
                forall|k2: int|
                    0 <= k2 < k ==> member_named(
                        store@,
                        set@,
                        (#[trigger] store@[idx as int].meta.depends_on@[k2])@,
                    ),
            decreases dl - k,
        {
            let nm = store[idx].meta.depends_on[k].clone();
            match find_index(store, nm.as_str()) {
                None => {
                    let s = suggestion(store, nm.as_str());
                    proof {
                        assert((idx as int) < store@.len());
                        assert(store@[idx as int].meta.depends_on@[k as int]@ == nm@);
                        assert(name_requested(store@, requested@, all, nm@));
                    }
                    return Err(BuildError::NotFound { name: nm, suggestion: s });
                },
                Some(dep_idx) => {
                    proof {
                        assert(name_of(store@[dep_idx as int].path@) == store@[
                            idx as int
                        ].meta.depends_on@[k as int]@);
                    }
                    if !present[dep_idx] {
                        let ghost old_set = set@;
                        present.set(dep_idx, true);
                        set.push(dep_idx);
                        proof {
                            assert(set@[set@.len() - 1] == dep_idx);
                            assert(set@[i as int] == old_set[i as int]);
                            lemma_member_push(store@, old_set, set@, dep_idx);
                            assert forall|x: int|
                                0 <= x < n implies ((#[trigger] present@[x]) <==> appears(
                                set@,
                                x,
                            )) by {
                                if x == dep_idx as int {
                                    assert(appears(set@, x));
                                } else {
                                    if appears(set@, x) {
                                        let p = choose|p: int|
                                            0 <= p < set@.len() && (#[trigger] set@[p]) as int
                                                == x;
                                        assert(old_set[p] as int == x);
                                    }
                                    if appears(old_set, x) {
                                        let p = choose|p: int|
                                            0 <= p < old_set.len() && (#[trigger] old_set[p])
                                                as int == x;
                                        assert(set@[p] as int == x);
                                    }
                                }
                            }
                            assert forall|p1: int, p2: int|
                                0 <= p1 < p2 < set@.len() implies set@[p1] != set@[p2] by {
                                if p2 == set@.len() - 1 {
                                    assert(old_set[p1] == set@[p1]);
                                    assert(appears(old_set, set@[p1] as int));
                                }
                            }
                            crate::graph::lemma_distinct_bounded(set@, n as int);
                            assert(declares_dep(
                                store@[set@[i as int] as int],
                                name_of(store@[dep_idx as int].path@),
                            ));
                            // Every member, old or new, keeps a
                            // justification.
                            assert forall|p: int|
                                0 <= p < set@.len() implies all || (exists|j: int|
                                0 <= j < requested@.len() && (#[trigger] requested@[j])@
                                    == name_of(store@[(#[trigger] set@[p]) as int].path@))
                                || dependent_member(
                                store@,
                                set@,
                                name_of(store@[set@[p] as int].path@),
                            ) by {
                                if p == set@.len() - 1 {
                                    assert(dependent_member(
                                        store@,
                                        set@,
                                        name_of(store@[set@[p] as int].path@),
                                    ));
                                } else {
                                    assert(set@[p] == old_set[p]);
                                    assert(members_justified(store@, old_set, requested@, all));
                                }
                            }
                        }
                    }
                    proof {
                        assert(member_named(
                            store@,
                            set@,
                            store@[idx as int].meta.depends_on@[k as int]@,
                        )) by {
                            if appears(set@, dep_idx as int) {
                                let p = choose|p: int|
                                    0 <= p < set@.len() && (#[trigger] set@[p]) as int
                                        == dep_idx as int;
                                assert(name_of(store@[set@[p] as int].path@) == store@[
                                    idx as int
                                ].meta.depends_on@[k as int]@);
                            }
                        }
                    }
                    k = k + 1;
                },
            }
        }
        i = i + 1;
    }
    if set.len() == 0 {
        proof {
            if all {
                assert(n > 0);
                assert(appears(set@, 0));
                let p = choose|p: int| 0 <= p < set@.len() && (#[trigger] set@[p]) as int == 0;
                assert(false);
            } else {
                assert(requested@.len() > 0);
                assert(member_named(store@, set@, requested@[0]@));
                let p = choose|p: int|
                    0 <= p < set@.len() && name_of(
                        store@[(#[trigger] set@[p]) as int].path@,
                    ) == requested@[0]@;
                assert(false);
            }
        }
        return Err(BuildError::EmptySet);
    }
    Ok(set)
}

/// The position in `set` of the member carrying the name `nm`, if any.
fn find_pos(store: &Vec<Definition>, set: &Vec<usize>, nm: &Vec<char>) -> (r: Option<usize>)
    requires
        set_wf(store@, set@),
    ensures
        match r {
            Some(p) => p < set@.len() && name_of(store@[set@[p as int] as int].path@) == nm@,
            None => !member_named(store@, set@, nm@),
        },
{
    let mut p: usize = 0;
    while p < set.len()
        invariant
            set_wf(store@, set@),
            p <= set@.len(),
            forall|q: int|
                0 <= q < p ==> name_of(store@[(#[trigger] set@[q]) as int].path@) != nm@,
        decreases set@.len() - p,
    {
        let idx = set[p];
        let name = store[idx].name();
        let nc = crate::text::chars_of(name.as_str());
        if crate::text::chars_eq(&nc, nm) {
            return Some(p);
        }
        p = p + 1;
    }
    None
}

/// Some edge records the dependency `k2` of the member at position `b2`.
pub open spec fn edge_for(
    store: Seq<Definition>,
    set: Seq<usize>,
    edges: Seq<(usize, usize)>,
    b2: int,
    k2: int,
) -> bool {
    exists|e: int|
        0 <= e < edges.len() && (#[trigger] edges[e]).1 as int == b2 && name_of(
            store[set[edges[e].0 as int] as int].path@,
        ) == store[set[b2] as int].meta.depends_on@[k2]@
}

/// Every declared dependency of the first `b` members has an edge.
pub open spec fn edges_cover(
    store: Seq<Definition>,
    set: Seq<usize>,
    edges: Seq<(usize, usize)>,
    b: int,
) -> bool {
    forall|b2: int, k2: int|
        0 <= b2 < b && 0 <= k2 < store[set[b2] as int].meta.depends_on@.len() ==> #[trigger] edge_for(
            store,
            set,
            edges,
            b2,
            k2,
        )
}

/// Appending an edge keeps every recorded dependency edge.
proof fn lemma_edge_for_push(
    store: Seq<Definition>,
    set: Seq<usize>,
    old_edges: Seq<(usize, usize)>,
    edges: Seq<(usize, usize)>,
    x: (usize, usize),
)
    requires
        edges == old_edges.push(x),
    ensures
        forall|b2: int, k2: int|
            edge_for(store, set, old_edges, b2, k2) ==> #[trigger] edge_for(
                store,
                set,
                edges,
                b2,
                k2,
            ),
{
    assert forall|b2: int, k2: int|
        edge_for(store, set, old_edges, b2, k2) implies #[trigger] edge_for(
        store,
        set,
        edges,
        b2,
        k2,
    ) by {
        let e = choose|e: int|
            0 <= e < old_edges.len() && (#[trigger] old_edges[e]).1 as int == b2 && name_of(
                store[set[old_edges[e].0 as int] as int].path@,
            ) == store[set[b2] as int].meta.depends_on@[k2]@;
        assert(edges[e] == old_edges[e]);
    }
}

/// Builds the edge list of the dependency graph over `set`: one edge per
/// declared dependency, from the dependency's position to the dependent's.
#[verifier::rlimit(100)]
fn build_edges(store: &Vec<Definition>, set: &Vec<usize>) -> (r: Vec<(usize, usize)>)
    requires
        unique_names(store@),
        set_wf(store@, set@),
        set_closed(store@, set@),
    ensures
        edges_match(store@, set@, r@),
        edges_within(r@, set@.len() as int),
{
    let mut edges: Vec<(usize, usize)> = Vec::new();
    let mut b: usize = 0;
    while b < set.len()
        invariant
            unique_names(store@),
            set_wf(store@, set@),
            set_closed(store@, set@),
            b <= set@.len(),
            forall|e: int|
                0 <= e < edges@.len() ==> (#[trigger] edges@[e]).0 < set@.len()
                    && edges@[e].1 < set@.len() && declares_dep(
                    store@[set@[edges@[e].1 as int] as int],
                    name_of(store@[set@[edges@[e].0 as int] as int].path@),
                ),
            edges_cover(store@, set@, edges@, b as int),
        decreases set@.len() - b,
    {
        let idx = set[b];
        let dl = store[idx].meta.depends_on.len();
        let mut k: usize = 0;
        while k < dl
            invariant
                unique_names(store@),
                set_wf(store@, set@),
                set_closed(store@, set@),
                b < set@.len(),
                idx == set@[b as int],
                dl == store@[idx as int].meta.depends_on@.len(),
                k <= dl,
                forall|e: int|
                    0 <= e < edges@.len() ==> (#[trigger] edges@[e]).0 < set@.len()
                        && edges@[e].1 < set@.len() && declares_dep(
                        store@[set@[edges@[e].1 as int] as int],
                        name_of(store@[set@[edges@[e].0 as int] as int].path@),
                    ),
                edges_cover(store@, set@, edges@, b as int),
                forall|k2: int|
                    0 <= k2 < k ==> #[trigger] edge_for(store@, set@, edges@, b as int, k2),
            decreases dl - k,
        {
            let nm_s = store[idx].meta.depends_on[k].clone();
            let nm = crate::text::chars_of(nm_s.as_str());
            let ghost old_edges = edges@;
            match find_pos(store, set, &nm) {
                Some(a) => {
                    edges.push((a, b));
                    proof {
                        lemma_edge_for_push(store@, set@, old_edges, edges@, (a, b));
                        assert(edges@[edges@.len() - 1] == (a, b));
                        assert(declares_dep(
                            store@[set@[b as int] as int],
                            name_of(store@[set@[a as int] as int].path@),
                        ));
                        assert(edge_for(store@, set@, edges@, b as int, k as int));
                        assert forall|b2: int, k2: int|
                            0 <= b2 < b && 0 <= k2 < store@[
                                set@[b2] as int
                            ].meta.depends_on@.len() implies #[trigger] edge_for(
                            store@,
                            set@,
                            edges@,
                            b2,
                            k2,
                        ) by {
                            assert(edge_for(store@, set@, old_edges, b2, k2));
                        }
                    }
                },
                None => {
                    proof {
                        assert(member_named(
                            store@,
                            set@,
                            store@[idx as int].meta.depends_on@[k as int]@,
                        ));
                        assert(false);
                    }
                },
            }
            k = k + 1;
        }
        b = b + 1;
        proof {
            assert forall|b2: int, k2: int|
                0 <= b2 < b && 0 <= k2 < store@[set@[b2] as int].meta.depends_on@.len()
                    implies #[trigger] edge_for(store@, set@, edges@, b2, k2) by {
                if b2 == b - 1 {
                    assert(store@[set@[b2] as int] == store@[idx as int]);
                    assert(edge_for(store@, set@, edges@, b - 1, k2));
                }
            }
        }
    }
    proof {
        assert forall|a: int, bb: int|
            0 <= a < set@.len() && 0 <= bb < set@.len() && declares_dep(
                #[trigger] store@[set@[bb] as int],
                name_of(#[trigger] store@[set@[a] as int].path@),
            ) implies has_edge(edges@, a, bb) by {
            let k = choose|k: int|
                0 <= k < store@[set@[bb] as int].meta.depends_on@.len() && (#[trigger] store@[
                    set@[bb] as int
                ].meta.depends_on@[k])@ == name_of(store@[set@[a] as int].path@);
            assert(edge_for(store@, set@, edges@, bb, k));
            let e = choose|e: int|
                0 <= e < edges@.len() && (#[trigger] edges@[e]).1 as int == bb && name_of(
                    store@[set@[edges@[e].0 as int] as int].path@,
                ) == store@[set@[bb] as int].meta.depends_on@[k]@;
            let a2 = edges@[e].0 as int;
            if a2 != a {
                if set@[a2] as int != set@[a] as int {
                    if a2 < a {
                        assert(name_of(store@[set@[a2] as int].path@) != name_of(
                            store@[set@[a] as int].path@,
                        ) || set@[a2] == set@[a]) by {
                            if set@[a2] < set@[a] {
                            } else {
                            }
                        }
                    }
                    // Distinct store indices carry distinct names.
                    if set@[a2] < set@[a] {
                        assert(name_of(store@[set@[a2] as int].path@) != name_of(
                            store@[set@[a] as int].path@,
                        ));
                    } else {
                        assert(name_of(store@[set@[a] as int].path@) != name_of(
                            store@[set@[a2] as int].path@,
                        ));
                    }
                } else {
                    if a2 < a {
                        assert(set@[a2] != set@[a]);
                    } else {
                        assert(set@[a] != set@[a2]);
                    }
                }
                assert(false);
            }
            assert(edges@[e].0 as int == a && edges@[e].1 as int == bb);
        }
    }
    edges
}

/// The store indices a plan visits, in plan order.
pub open spec fn plan_indices(plan: Seq<PlanEntry>) -> Seq<usize> {
    plan.map_values(|e: PlanEntry| e.index)
}

/// The own hashes of the members of `set`, in set order.
pub open spec fn own_hashes(store: Seq<Definition>, set: Seq<usize>) -> Seq<u64> {
    set.map_values(|i: usize| store[i as int].hash)
}

/// Reordering a set by a permutation keeps membership and all named facts.
proof fn lemma_perm_transfer(
    store: Seq<Definition>,
    set: Seq<usize>,
    order: Seq<usize>,
    sorted: Seq<usize>,
)
    requires
        order.len() == set.len(),
        forall|k: int| 0 <= k < order.len() ==> (#[trigger] order[k]) < set.len(),
        forall|p: int| 0 <= p < set.len() ==> appears(order, p),
        sorted.len() == set.len(),
        forall|k: int| 0 <= k < sorted.len() ==> (#[trigger] sorted[k]) == set[order[k] as int],
    ensures
        forall|p: int| 0 <= p < set.len() ==> appears(sorted, (#[trigger] set[p]) as int),
        forall|x: int| #[trigger] appears(sorted, x) ==> appears(set, x),
        forall|nm: Seq<char>|
            member_named(store, set, nm) ==> #[trigger] member_named(store, sorted, nm),
        forall|nm: Seq<char>|
            dependent_member(store, set, nm) ==> #[trigger] dependent_member(store, sorted, nm),
{
    assert forall|p: int| 0 <= p < set.len() implies appears(sorted, (#[trigger] set[p]) as int)
        by {
        assert(appears(order, p));
        let k = choose|k: int| 0 <= k < order.len() && (#[trigger] order[k]) as int == p;
        assert(sorted[k] == set[p]);
        assert((#[trigger] sorted[k]) as int == set[p] as int);
    }
    assert forall|x: int| #[trigger] appears(sorted, x) implies appears(set, x) by {
        let k = choose|k: int| 0 <= k < sorted.len() && (#[trigger] sorted[k]) as int == x;
        assert(set[order[k] as int] as int == x);
    }
    assert forall|nm: Seq<char>|
        member_named(store, set, nm) implies #[trigger] member_named(store, sorted, nm) by {
        let p = choose|p: int|
            0 <= p < set.len() && name_of(store[(#[trigger] set[p]) as int].path@) == nm;
        assert(appears(sorted, set[p] as int));
        let k = choose|k: int| 0 <= k < sorted.len() && (#[trigger] sorted[k]) as int == set[p] as int;
        assert(name_of(store[sorted[k] as int].path@) == nm);
    }
    assert forall|nm: Seq<char>|
        dependent_member(store, set, nm) implies #[trigger] dependent_member(store, sorted, nm)
        by {
        let p = choose|p: int|
            0 <= p < set.len() && declares_dep(store[(#[trigger] set[p]) as int], nm);
        assert(appears(sorted, set[p] as int));
        let k = choose|k: int| 0 <= k < sorted.len() && (#[trigger] sorted[k]) as int == set[p] as int;
        assert(declares_dep(store[sorted[k] as int], nm));
    }
}

/// Plans one build-set operation over a snapshot of the store.
///
/// Resolves the requested definitions (or the whole store), expands the set
/// with every transitive dependency, rejects duplicate names, empty sets,
/// missing names and cycles, orders the set so that every dependency comes
/// before its dependents, computes each member's tree hash, selects its
/// dispatch strategy, and decides against the records whether it must be
/// built.
#[verifier::rlimit(100)]
pub fn build_set(
    store: &Vec<Definition>,
    requested: &Vec<String>,
    all: bool,
    force: bool,
    records: &Vec<BuildRecord>,
) -> (r: Result<Vec<PlanEntry>, BuildError>)
    ensures
        match r {
            Ok(plan) => {
                &&& plan@.len() > 0
                &&& set_wf(store@, plan_indices(plan@))
                &&& set_closed(store@, plan_indices(plan@))
                &&& forall|k1: int, k2: int|
                    0 <= k1 < plan@.len() && 0 <= k2 < plan@.len() && declares_dep(
                        store@[(#[trigger] plan@[k2]).index as int],
                        name_of(store@[(#[trigger] plan@[k1]).index as int].path@),
                    ) ==> k1 < k2
                &&& all ==> forall|i: int|
                    0 <= i < store@.len() ==> appears(plan_indices(plan@), i)
                &&& !all ==> covers_requested(store@, plan_indices(plan@), requested@)
                &&& members_justified(store@, plan_indices(plan@), requested@, all)
                &&& forall|k: int|
                    0 <= k < plan@.len() ==> (#[trigger] plan@[k]).strategy == strategy_of(
                        &store@[plan@[k].index as int],
                    )
                &&& forall|k: int|
                    0 <= k < plan@.len() ==> (#[trigger] plan@[k]).build == spec_needs_build(
                        records@,
                        store@[plan@[k].index as int].path@,
                        store@[plan@[k].index as int].hash,
                        plan@[k].tree,
                        force,
                    )
                &&& exists|edges: Seq<(usize, usize)>|
                    edges_match(store@, plan_indices(plan@), edges) && (forall|k: int|
                        0 <= k < plan@.len() ==> (#[trigger] plan@[k]).tree == tree_hash_of(
                            plan@.len() as int,
                            edges,
                            own_hashes(store@, plan_indices(plan@)),
                            k,
                        ))
            },
            Err(e) => match e {
                BuildError::NotFound { name, suggestion } => !spec_exists(store@, name@)
                    && suggestion.deep_view() == fuzzy_best(name@, names_of(store@))
                    && name_requested(store@, requested@, all, name@),
                BuildError::DuplicateName { name } => exists|i: int, j: int|
                    0 <= i < store@.len() && 0 <= j < store@.len() && i != j && name_of(
                        (#[trigger] store@[i]).path@,
                    ) == name_of((#[trigger] store@[j]).path@) && name@ == name_of(
                        store@[i].path@,
                    ),
                BuildError::EmptySet => if all {
                    store@.len() == 0
                } else {
                    requested@.len() == 0
                },
                BuildError::Cycle { name } => spec_exists(store@, name@) && exists|
                    idxs: Seq<usize>,
                    edges: Seq<(usize, usize)>,
                    s: Set<int>,
                |
                    set_wf(store@, idxs) && edges_match(store@, idxs, edges) && has_cycle(
                        idxs.len() as int,
                        edges,
                    ) && trapped(idxs.len() as int, edges, s) && (exists|p: int|
                        s.contains(p) && name_of(
                            store@[idxs[p] as int].path@,
                        ) == name@),
                BuildError::BuildFailed { .. } => false,
            },
        },
{
    match find_duplicate(store) {
        Some(i) => {
            let name = store[i].name();
            return Err(BuildError::DuplicateName { name });
        },
        None => {},
    }
    let set = match assemble(store, requested, all) {
        Ok(s) => s,
        Err(e) => {
            return Err(e);
        },
    };
    let m = set.len();
    let edges1 = build_edges(store, &set);
    let order = match topo_sort(m, &edges1) {
        Ok(o) => o,
        Err(v) => {
            let idx = set[v];
            let name = store[idx].name();
            proof {
                assert(name_of(store@[idx as int].path@) == name@);
                assert(spec_exists(store@, name@));
                let s = choose|s: Set<int>|
                    trapped(m as int, edges1@, s) && s.contains(v as int);
                assert(set_wf(store@, set@) && edges_match(store@, set@, edges1@)
                    && has_cycle(set@.len() as int, edges1@) && trapped(
                    set@.len() as int,
                    edges1@,
                    s,
                ) && s.contains(v as int) && name_of(
                    store@[set@[v as int] as int].path@,
                ) == name@);
            }
            return Err(BuildError::Cycle { name });
        },
    };
    let mut sorted: Vec<usize> = Vec::new();
    let mut k: usize = 0;
    while k < m
        invariant
            m == set@.len(),
            crate::graph::is_topo_order(order@, m as int, edges1@),
            set_wf(store@, set@),
            k <= m,
            sorted@.len() == k,
            forall|k2: int|
                0 <= k2 < k ==> (#[trigger] sorted@[k2]) == set@[order@[k2] as int],
        decreases m - k,
    {
        let p = order[k];
        sorted.push(set[p]);
        k = k + 1;
    }
    proof {
        assert forall|k1: int, k2: int|
            0 <= k1 < k2 < sorted@.len() implies sorted@[k1] != sorted@[k2] by {
            assert(order@[k1] != order@[k2]);
            if order@[k1] < order@[k2] {
                assert(set@[order@[k1] as int] != set@[order@[k2] as int]);
            } else {
                assert(set@[order@[k2] as int] != set@[order@[k1] as int]);
            }
        }
        lemma_perm_transfer(store@, set@, order@, sorted@);
        assert(set_wf(store@, sorted@));
        assert forall|p: int, kk: int|
            0 <= p < sorted@.len() && 0 <= kk < store@[(
            #[trigger] sorted@[p]) as int].meta.depends_on@.len() implies member_named(
            store@,
            sorted@,
            (#[trigger] store@[sorted@[p] as int].meta.depends_on@[kk])@,
        ) by {
            let q = order@[p] as int;
            assert(sorted@[p] == set@[q]);
            assert(member_named(
                store@,
                set@,
                store@[set@[q] as int].meta.depends_on@[kk]@,
            ));
        }
        assert(set_closed(store@, sorted@));
        if !all {
            assert forall|j: int|
                0 <= j < requested@.len() implies member_named(
                store@,
                sorted@,
                (#[trigger] requested@[j])@,
            ) by {
                assert(member_named(store@, set@, requested@[j]@));
            }
            assert(covers_requested(store@, sorted@, requested@));
        }
        assert forall|p: int|
            0 <= p < sorted@.len() implies all || (exists|j: int|
            0 <= j < requested@.len() && (#[trigger] requested@[j])@ == name_of(
                store@[(#[trigger] sorted@[p]) as int].path@,
            )) || dependent_member(store@, sorted@, name_of(store@[sorted@[p] as int].path@))
            by {
            let q = order@[p] as int;
            assert(sorted@[p] == set@[q]);
            assert(members_justified(store@, set@, requested@, all));
            if !(all || (exists|j: int|
                0 <= j < requested@.len() && (#[trigger] requested@[j])@ == name_of(
                    store@[set@[q] as int].path@,
                ))) {
                assert(dependent_member(store@, set@, name_of(store@[set@[q] as int].path@)));
            }
        }
        assert(members_justified(store@, sorted@, requested@, all));
        if all {
            assert forall|i: int| 0 <= i < store@.len() implies appears(sorted@, i) by {
                assert(appears(set@, i));
                let p = choose|p: int|
                    0 <= p < set@.len() && (#[trigger] set@[p]) as int == i;
                assert(appears(sorted@, set@[p] as int));
            }
        }
    }
    let edges2 = build_edges(store, &sorted);
    let mut hashes: Vec<u64> = Vec::new();
    let mut k2: usize = 0;
    while k2 < m
        invariant
            m == sorted@.len(),
            set_wf(store@, sorted@),
            k2 <= m,
            hashes@.len() == k2,
            forall|q: int|
                0 <= q < k2 ==> (#[trigger] hashes@[q]) == store@[sorted@[q] as int].hash,
        decreases m - k2,
    {
        let idx = sorted[k2];
        hashes.push(store[idx].hash);
        k2 = k2 + 1;
    }
    proof {
        assert(hashes@ =~= own_hashes(store@, sorted@));
    }
    let trees = crate::graph::tree_hashes(m, &edges2, &hashes);
    let mut plan: Vec<PlanEntry> = Vec::new();
    let mut k3: usize = 0;
    while k3 < m
        invariant
            m == sorted@.len(),
            m == trees@.len(),
            set_wf(store@, sorted@),
            k3 <= m,
            plan@.len() == k3,
            forall|q: int| 0 <= q < k3 ==> (#[trigger] plan@[q]).index == sorted@[q],
            forall|q: int| 0 <= q < k3 ==> (#[trigger] plan@[q]).tree == trees@[q],
            forall|q: int|
                0 <= q < k3 ==> (#[trigger] plan@[q]).strategy == strategy_of(
                    &store@[sorted@[q] as int],
                ),
            forall|q: int|
                0 <= q < k3 ==> (#[trigger] plan@[q]).build == spec_needs_build(
                    records@,
                    store@[sorted@[q] as int].path@,
                    store@[sorted@[q] as int].hash,
                    trees@[q],
                    force,
                ),
        decreases m - k3,
    {
        let idx = sorted[k3];
        let t = trees[k3];
        let strat = store[idx].strategy();
        let b = needs_build(records, store[idx].path.as_str(), store[idx].hash, t, force);
        plan.push(PlanEntry { index: idx, tree: t, strategy: strat, build: b });
        k3 = k3 + 1;
    }
    proof {
        assert(plan_indices(plan@) =~= sorted@);
        assert forall|ka: int, kb: int|
            0 <= ka < plan@.len() && 0 <= kb < plan@.len() && declares_dep(
                store@[(#[trigger] plan@[kb]).index as int],
                name_of(store@[(#[trigger] plan@[ka]).index as int].path@),
            ) implies ka < kb by {
            assert(plan@[ka].index == sorted@[ka] && plan@[kb].index == sorted@[kb]);
            let a = order@[ka] as int;
            let b = order@[kb] as int;
            assert(sorted@[ka] == set@[a] && sorted@[kb] == set@[b]);
            assert(declares_dep(
                store@[set@[b] as int],
                name_of(store@[set@[a] as int].path@),
            ));
            assert(has_edge(edges1@, a, b));
            assert(has_edge(edges1@, order@[ka] as int, order@[kb] as int));
        }
        assert(edges_match(store@, plan_indices(plan@), edges2@));
        assert forall|q: int|
            0 <= q < plan@.len() implies (#[trigger] plan@[q]).tree == tree_hash_of(
            plan@.len() as int,
            edges2@,
            own_hashes(store@, plan_indices(plan@)),
            q,
        ) by {
            assert(trees@[q] == tree_hash_of(m as int, edges2@, hashes@, q));
            assert(own_hashes(store@, plan_indices(plan@)) =~= hashes@);
        }
    }
    Ok(plan)
}

/// Law: a definition with no declared dependencies keeps `tree == hash` in
/// every plan — no edge can point into it, so nothing is combined into its
/// own hash.
pub proof fn lemma_leaf_keeps_own_hash(
    store: Seq<Definition>,
    plan: Seq<PlanEntry>,
    edges: Seq<(usize, usize)>,
    k: int,
)
    requires
        0 <= k < plan.len(),
        set_wf(store, plan_indices(plan)),
        edges_match(store, plan_indices(plan), edges),
        plan[k].tree == tree_hash_of(
            plan.len() as int,
            edges,
            own_hashes(store, plan_indices(plan)),
            k,
        ),
        store[plan[k].index as int].meta.depends_on@.len() == 0,
    ensures
        plan[k].tree == store[plan[k].index as int].hash,
{
    let idxs = plan_indices(plan);
    assert forall|e: int| 0 <= e < edges.len() implies (#[trigger] edges[e]).1 as int != k by {
        if edges[e].1 as int == k {
            assert(declares_dep(
                store[idxs[edges[e].1 as int] as int],
                name_of(store[idxs[edges[e].0 as int] as int].path@),
            ));
            assert(idxs[k] == plan[k].index);
        }
    }
    crate::graph::lemma_leaf_tree_hash(
        plan.len() as int,
        edges,
        own_hashes(store, idxs),
        k,
    );
    assert(own_hashes(store, idxs)[k] == store[plan[k].index as int].hash);
}

/// Law: with a forced rebuild, every definition in the build set is
/// dispatched regardless of any matching recorded hashes.
pub proof fn lemma_force_builds_all(records: Seq<BuildRecord>, path: Seq<char>, own: u64, tree: u64)
    ensures
        spec_needs_build(records, path, own, tree, true),
{
}

/// Law: without force, a definition is skipped exactly when a record for
/// its path exists and both recorded hashes match the current ones; any
/// mismatch — including only the tree hash differing — triggers a build.
pub proof fn lemma_skip_iff_exact_match(
    records: Seq<BuildRecord>,
    path: Seq<char>,
    own: u64,
    tree: u64,
)
    ensures
        !spec_needs_build(records, path, own, tree, false) <==> record_for(records, path)
            == Some((own, tree)),
{
}

/// The identifying annotations handed to the external builder for a
/// recipe-based build: the source path, the derived name, and both hashes
/// in hexadecimal.
pub fn containerfile_annotations(d: &Definition, tree: u64) -> (r: Vec<String>)
    ensures
        r.deep_view() == seq![
            "box.path="@ + d.path@,
            "box.name="@ + name_of(d.path@),
            "box.hash="@ + crate::hashing::hex_chars(d.hash as int),
            "box.tree="@ + crate::hashing::hex_chars(tree as int),
        ],
{
    let mut r: Vec<String> = Vec::new();
    r.push(String::from_str("box.path=").concat(d.path.as_str()));
    let name = d.name();
    r.push(String::from_str("box.name=").concat(name.as_str()));
    let h = crate::hashing::hex64(d.hash);
    r.push(String::from_str("box.hash=").concat(h.as_str()));
    let t = crate::hashing::hex64(tree);
    r.push(String::from_str("box.tree=").concat(t.as_str()));
    proof {
        assert(r.deep_view() =~~= seq![
            "box.path="@ + d.path@,
            "box.name="@ + name_of(d.path@),
            "box.hash="@ + crate::hashing::hex_chars(d.hash as int),
            "box.tree="@ + crate::hashing::hex_chars(tree as int),
        ]);
    }
    r
}

/// The environment handed to a script-based build: the source path and
/// directory, both hashes in hexadecimal, and the derived name, all under
/// the shared prefix.
pub fn build_env(d: &Definition, tree: u64) -> (r: Vec<(String, String)>)
    ensures
        r.deep_view() == seq![
            ("__BOX_BUILD_PATH"@, d.path@),
            ("__BOX_BUILD_DIR"@, crate::definition::dir_of(d.path@)),
            ("__BOX_BUILD_HASH"@, crate::hashing::hex_chars(d.hash as int)),
            ("__BOX_BUILD_TREE"@, crate::hashing::hex_chars(tree as int)),
            ("__BOX_BUILD_NAME"@, name_of(d.path@)),
        ],
{
    let mut r: Vec<(String, String)> = Vec::new();
    r.push((String::from_str("__BOX_BUILD_PATH"), d.path.clone()));
    let dir = crate::definition::parent_dir(d.path.as_str());
    r.push((String::from_str("__BOX_BUILD_DIR"), dir));
    let h = crate::hashing::hex64(d.hash);
    r.push((String::from_str("__BOX_BUILD_HASH"), h));
    let t = crate::hashing::hex64(tree);
    r.push((String::from_str("__BOX_BUILD_TREE"), t));
    let name = d.name();
    r.push((String::from_str("__BOX_BUILD_NAME"), name));
    proof {
        assert(r.deep_view() =~~= seq![
            ("__BOX_BUILD_PATH"@, d.path@),
            ("__BOX_BUILD_DIR"@, crate::definition::dir_of(d.path@)),
            ("__BOX_BUILD_HASH"@, crate::hashing::hex_chars(d.hash as int)),
            ("__BOX_BUILD_TREE"@, crate::hashing::hex_chars(tree as int)),
            ("__BOX_BUILD_NAME"@, name_of(d.path@)),
        ]);
    }
    r
}

} // verus!
