//! The dependency graph: nodes are indices into a flat arena, edges are
//! index pairs pointing from a dependency to its dependent. Provides a
//! verified topological sort with cycle detection, reverse reachability, and
//! the tree-hash computation over reachable dependencies.

use vstd::prelude::*;

verus! {

/// Every edge's endpoints lie below `n`.
pub open spec fn edges_within(edges: Seq<(usize, usize)>, n: int) -> bool {
    forall|k: int|
        0 <= k < edges.len() ==> (#[trigger] edges[k]).0 < n && edges[k].1 < n
}

/// There is an edge from `u` to `v`.
pub open spec fn has_edge(edges: Seq<(usize, usize)>, u: int, v: int) -> bool {
    exists|k: int|
        0 <= k < edges.len() && (#[trigger] edges[k]).0 as int == u && edges[k].1 as int == v
}

/// Node `v` occurs somewhere in `order`.
pub open spec fn appears(order: Seq<usize>, v: int) -> bool {
    exists|k: int| 0 <= k < order.len() && (#[trigger] order[k]) as int == v
}

/// Node `w` has an incoming edge from a node that is not yet placed.
pub open spec fn blocked(placed: Seq<bool>, edges: Seq<(usize, usize)>, w: int) -> bool {
    exists|e: int|
        0 <= e < edges.len() && (#[trigger] edges[e]).1 as int == w
            && !placed[edges[e].0 as int]
}

/// Every edge into the node at position `k` comes from a node placed at an
/// earlier position.
pub open spec fn preds_before(order: Seq<usize>, k: int, edges: Seq<(usize, usize)>) -> bool {
    forall|e: int|
        0 <= e < edges.len() && (#[trigger] edges[e]).1 == order[k] ==> exists|k2: int|
            0 <= k2 < k && (#[trigger] order[k2]) == edges[e].0
}

/// `order` is a topological order of the `n` nodes: a permutation in which
/// every edge points from an earlier to a later position.
pub open spec fn is_topo_order(order: Seq<usize>, n: int, edges: Seq<(usize, usize)>) -> bool {
    &&& order.len() == n
    &&& forall|k: int| 0 <= k < order.len() ==> (#[trigger] order[k]) < n
    &&& forall|k1: int, k2: int| 0 <= k1 < k2 < order.len() ==> order[k1] != order[k2]
    &&& forall|v: int| 0 <= v < n ==> appears(order, v)
    &&& forall|k1: int, k2: int|
        0 <= k1 < order.len() && 0 <= k2 < order.len() && has_edge(
            edges,
            order[k1] as int,
            order[k2] as int,
        ) ==> k1 < k2
}

/// Some member of `s` has an edge into `v`.
pub open spec fn feeds(s: Set<int>, edges: Seq<(usize, usize)>, v: int) -> bool {
    exists|u: int| s.contains(u) && has_edge(edges, u, v)
}

/// A non-empty set of nodes in which every member has an incoming edge from
/// a member: the shape a cycle leaves behind, and exactly what a stuck
/// topological sort exhibits.
pub open spec fn trapped(n: int, edges: Seq<(usize, usize)>, s: Set<int>) -> bool {
    &&& exists|v: int| s.contains(v)
    &&& forall|v: int| #[trigger] s.contains(v) ==> 0 <= v < n
    &&& forall|v: int| s.contains(v) ==> #[trigger] feeds(s, edges, v)
}

/// The graph contains a cycle: some set of nodes is trapped.
pub open spec fn has_cycle(n: int, edges: Seq<(usize, usize)>) -> bool {
    exists|s: Set<int>| trapped(n, edges, s)
}

/// A walk of length at least one that returns to its starting node.
pub open spec fn is_closed_walk(p: Seq<int>, n: int, edges: Seq<(usize, usize)>) -> bool {
    &&& p.len() >= 2
    &&& forall|i: int| 0 <= i < p.len() ==> 0 <= #[trigger] p[i] < n
    &&& forall|i: int| 0 <= i < p.len() - 1 ==> has_edge(edges, #[trigger] p[i], p[i + 1])
    &&& p[0] == p[p.len() - 1]
}

/// Law: a dependency set containing a cycle — any closed walk, including a
/// direct self-dependency — makes the graph cyclic, so by the contract of
/// `topo_sort` it can never be ordered and is always rejected.
pub proof fn lemma_closed_walk_cycle(p: Seq<int>, n: int, edges: Seq<(usize, usize)>)
    requires
        is_closed_walk(p, n, edges),
    ensures
        has_cycle(n, edges),
{
    let s = Set::new(|v: int| p.contains(v));
    assert(p.contains(p[0]));
    assert(s.contains(p[0]));
    assert forall|v: int| #[trigger] s.contains(v) implies 0 <= v < n by {
        let i = choose|i: int| 0 <= i < p.len() && p[i] == v;
    }
    assert forall|v: int| s.contains(v) implies #[trigger] feeds(s, edges, v) by {
        let i = choose|i: int| 0 <= i < p.len() && p[i] == v;
        if i == 0 {
            assert(p[p.len() - 2] == p[(p.len() - 2) as int]);
            assert(has_edge(edges, p[p.len() - 2], p[p.len() - 1]));
            assert(p.contains(p[p.len() - 2]));
            assert(s.contains(p[p.len() - 2]) && has_edge(edges, p[p.len() - 2], v));
        } else {
            assert(has_edge(edges, p[i - 1], p[i]));
            assert(p.contains(p[i - 1]));
            assert(s.contains(p[i - 1]) && has_edge(edges, p[i - 1], v));
        }
    }
    assert(trapped(n, edges, s));
}

/// The first position at or after `k0` whose node lies in `s`.
proof fn first_pos_in(order: Seq<usize>, s: Set<int>, k0: int) -> (k: int)
    requires
        0 <= k0,
        exists|k: int| k0 <= k < order.len() && s.contains((#[trigger] order[k]) as int),
    ensures
        k0 <= k < order.len(),
        s.contains(order[k] as int),
        forall|j: int| k0 <= j < k ==> !s.contains((#[trigger] order[j]) as int),
    decreases order.len() - k0,
{
    if s.contains(order[k0] as int) {
        k0
    } else {
        first_pos_in(order, s, k0 + 1)
    }
}

/// Law: where a topological order exists, no set of nodes is trapped — an
/// ordered dependency set is acyclic.
pub proof fn lemma_order_excludes_trapped(
    order: Seq<usize>,
    n: int,
    edges: Seq<(usize, usize)>,
    s: Set<int>,
)
    requires
        is_topo_order(order, n, edges),
    ensures
        !trapped(n, edges, s),
{
    if !trapped(n, edges, s) {
        return;
    }
    let w = choose|v: int| s.contains(v);
    assert(0 <= w < n);
    assert(appears(order, w));
    let kw = choose|k: int| 0 <= k < order.len() && (#[trigger] order[k]) as int == w;
    let k = first_pos_in(order, s, 0);
    let v = order[k] as int;
    assert(feeds(s, edges, v));
    let u = choose|u: int| s.contains(u) && has_edge(edges, u, v);
    assert(0 <= u < n);
    assert(appears(order, u));
    let ku = choose|k2: int| 0 <= k2 < order.len() && (#[trigger] order[k2]) as int == u;
    assert(has_edge(edges, order[ku] as int, order[k] as int));
    assert(ku < k);
    assert(!s.contains(order[ku] as int));
    assert(false);
}

/// How many entries of a boolean sequence are set.
pub open spec fn count_true(s: Seq<bool>) -> int
    decreases s.len(),
{
    if s.len() == 0 {
        0
    } else {
        count_true(s.drop_last()) + if s.last() {
            1int
        } else {
            0int
        }
    }
}

proof fn lemma_count_true_le(s: Seq<bool>)
    ensures
        0 <= count_true(s) <= s.len(),
    decreases s.len(),
{
    if s.len() > 0 {
        lemma_count_true_le(s.drop_last());
    }
}

proof fn lemma_count_true_none(s: Seq<bool>)
    requires
        forall|i: int| 0 <= i < s.len() ==> !(#[trigger] s[i]),
    ensures
        count_true(s) == 0,
    decreases s.len(),
{
    if s.len() > 0 {
        assert forall|i: int| 0 <= i < s.drop_last().len() implies !(#[trigger] s.drop_last()[i])
            by {
            assert(s.drop_last()[i] == s[i]);
        }
        lemma_count_true_none(s.drop_last());
    }
}

proof fn lemma_count_true_update(s: Seq<bool>, i: int)
    requires
        0 <= i < s.len(),
        !s[i],
    ensures
        count_true(s.update(i, true)) == count_true(s) + 1,
    decreases s.len(),
{
    let t = s.update(i, true);
    if i == s.len() - 1 {
        assert(t.drop_last() =~= s.drop_last());
        assert(t.last());
        assert(!s.last());
    } else {
        assert(t.drop_last() =~= s.drop_last().update(i, true));
        assert(t.last() == s.last());
        assert(s.drop_last()[i] == s[i]);
        lemma_count_true_update(s.drop_last(), i);
    }
}

proof fn lemma_count_true_full(s: Seq<bool>)
    requires
        count_true(s) == s.len(),
    ensures
        forall|i: int| 0 <= i < s.len() ==> #[trigger] s[i],
    decreases s.len(),
{
    if s.len() > 0 {
        lemma_count_true_le(s.drop_last());
        assert(s.last());
        lemma_count_true_full(s.drop_last());
        assert forall|i: int| 0 <= i < s.len() implies #[trigger] s[i] by {
            if i < s.len() - 1 {
                assert(s.drop_last()[i]);
            }
        }
    }
}

/// Whether every edge into `v` comes from an already placed node.
fn preds_placed(edges: &Vec<(usize, usize)>, placed: &Vec<bool>, v: usize) -> (r: bool)
    requires
        edges_within(edges@, placed@.len() as int),
    ensures
        r == forall|e: int|
            0 <= e < edges@.len() && (#[trigger] edges@[e]).1 == v ==> placed@[edges@[e].0 as int],
{
    let mut e: usize = 0;
    while e < edges.len()
        invariant
            edges_within(edges@, placed@.len() as int),
            e <= edges@.len(),
            forall|j: int|
                0 <= j < e && (#[trigger] edges@[j]).1 == v ==> placed@[edges@[j].0 as int],
        decreases edges@.len() - e,
    {
        let (u, w) = edges[e];
        if w == v && !placed[u] {
            return false;
        }
        e = e + 1;
    }
    true
}

/// Finds an unplaced node all of whose predecessors are placed.
fn find_ready(n: usize, edges: &Vec<(usize, usize)>, placed: &Vec<bool>) -> (r: Option<usize>)
    requires
        placed@.len() == n,
        edges_within(edges@, n as int),
    ensures
        match r {
            Some(v) => v < n && !placed@[v as int] && forall|e: int|
                0 <= e < edges@.len() && (#[trigger] edges@[e]).1 == v
                    ==> placed@[edges@[e].0 as int],
            None => forall|v: int|
                0 <= v < n && !placed@[v] ==> #[trigger] blocked(placed@, edges@, v),
        },
{
    let mut v: usize = 0;
    while v < n
        invariant
            placed@.len() == n,
            edges_within(edges@, n as int),
            v <= n,
            forall|w: int| 0 <= w < v && !placed@[w] ==> #[trigger] blocked(placed@, edges@, w),
        decreases n - v,
    {
        if !placed[v] {
            if preds_placed(edges, placed, v) {
                return Some(v);
            }
            proof {
                let e = choose|e: int|
                    0 <= e < edges@.len() && (#[trigger] edges@[e]).1 == v
                        && !placed@[edges@[e].0 as int];
                assert(edges@[e].1 as int == v as int && !placed@[edges@[e].0 as int]);
                assert(blocked(placed@, edges@, v as int));
            }
        }
        v = v + 1;
    }
    None
}

/// Finds an unplaced node; `None` when all are placed.
fn find_unplaced(n: usize, placed: &Vec<bool>) -> (r: Option<usize>)
    requires
        placed@.len() == n,
    ensures
        match r {
            Some(v) => v < n && !placed@[v as int],
            None => forall|v: int| 0 <= v < n ==> placed@[v],
        },
{
    let mut v: usize = 0;
    while v < n
        invariant
            placed@.len() == n,
            v <= n,
            forall|w: int| 0 <= w < v ==> placed@[w],
        decreases n - v,
    {
        if !placed[v] {
            return Some(v);
        }
        v = v + 1;
    }
    None
}

/// A full placement is a topological order, and excludes every cycle.
proof fn lemma_complete_order(order: Seq<usize>, n: int, edges: Seq<(usize, usize)>)
    requires
        order.len() == n,
        forall|k: int| 0 <= k < order.len() ==> (#[trigger] order[k]) < n,
        forall|k1: int, k2: int| 0 <= k1 < k2 < order.len() ==> order[k1] != order[k2],
        forall|v: int| 0 <= v < n ==> appears(order, v),
        forall|k: int| 0 <= k < order.len() ==> preds_before(order, k, edges),
    ensures
        is_topo_order(order, n, edges),
        !has_cycle(n, edges),
{
    assert forall|k1: int, k2: int|
        0 <= k1 < order.len() && 0 <= k2 < order.len() && has_edge(
            edges,
            order[k1] as int,
            order[k2] as int,
        ) implies k1 < k2 by {
        let e = choose|e: int|
            0 <= e < edges.len() && (#[trigger] edges[e]).0 as int == order[k1] as int
                && edges[e].1 as int == order[k2] as int;
        assert(preds_before(order, k2, edges));
        assert(edges[e].1 == order[k2]);
        let k3 = choose|k3: int| 0 <= k3 < k2 && (#[trigger] order[k3]) == edges[e].0;
        if k3 != k1 {
            if k3 < k1 {
                assert(order[k3] != order[k1]);
            } else {
                assert(order[k1] != order[k3]);
            }
            assert(false);
        }
    }
    assert(is_topo_order(order, n, edges));
    if has_cycle(n, edges) {
        let s = choose|s: Set<int>| trapped(n, edges, s);
        lemma_order_excludes_trapped(order, n, edges, s);
    }
}

/// Placing a ready node keeps all ordering invariants.
proof fn lemma_place_step(
    old_order: Seq<usize>,
    old_placed: Seq<bool>,
    order: Seq<usize>,
    placed: Seq<bool>,
    v: usize,
    n: int,
    edges: Seq<(usize, usize)>,
)
    requires
        old_placed.len() == n,
        order == old_order.push(v),
        placed == old_placed.update(v as int, true),
        (v as int) < n,
        !old_placed[v as int],
        forall|e: int|
            0 <= e < edges.len() && (#[trigger] edges[e]).1 == v ==> old_placed[edges[e].0 as int],
        edges_within(edges, n),
        forall|k: int| 0 <= k < old_order.len() ==> (#[trigger] old_order[k]) < n,
        forall|k1: int, k2: int|
            0 <= k1 < k2 < old_order.len() ==> old_order[k1] != old_order[k2],
        forall|k: int|
            0 <= k < old_order.len() ==> old_placed[(#[trigger] old_order[k]) as int],
        forall|w: int| 0 <= w < n && #[trigger] old_placed[w] ==> appears(old_order, w),
        forall|k: int| 0 <= k < old_order.len() ==> preds_before(old_order, k, edges),
    ensures
        forall|k: int| 0 <= k < order.len() ==> (#[trigger] order[k]) < n,
        forall|k1: int, k2: int| 0 <= k1 < k2 < order.len() ==> order[k1] != order[k2],
        forall|k: int| 0 <= k < order.len() ==> placed[(#[trigger] order[k]) as int],
        forall|w: int| 0 <= w < n && #[trigger] placed[w] ==> appears(order, w),
        forall|k: int| 0 <= k < order.len() ==> preds_before(order, k, edges),
{
    assert forall|k1: int, k2: int|
        0 <= k1 < k2 < order.len() implies order[k1] != order[k2] by {
        if k2 == order.len() - 1 {
            assert(old_placed[(old_order[k1]) as int]);
        }
    }
    assert forall|w: int| 0 <= w < n && #[trigger] placed[w] implies appears(order, w) by {
        if w == v as int {
            assert(order[order.len() - 1] as int == w);
        } else {
            assert(old_placed[w]);
            let k = choose|k: int|
                0 <= k < old_order.len() && (#[trigger] old_order[k]) as int == w;
            assert(order[k] as int == w);
        }
    }
    assert forall|k: int| 0 <= k < order.len() implies preds_before(order, k, edges) by {
        if k < order.len() - 1 {
            assert(preds_before(old_order, k, edges));
            assert forall|e: int|
                0 <= e < edges.len() && (#[trigger] edges[e]).1 == order[k] implies exists|
                k2: int,
            |
                0 <= k2 < k && (#[trigger] order[k2]) == edges[e].0 by {
                assert(edges[e].1 == old_order[k]);
                let k2 = choose|k2: int|
                    0 <= k2 < k && (#[trigger] old_order[k2]) == edges[e].0;
                assert(order[k2] == edges[e].0);
            }
        } else {
            assert forall|e: int|
                0 <= e < edges.len() && (#[trigger] edges[e]).1 == order[k] implies exists|
                k2: int,
            |
                0 <= k2 < k && (#[trigger] order[k2]) == edges[e].0 by {
                assert(edges[e].1 == v);
                assert(old_placed[edges[e].0 as int]);
                assert(appears(old_order, edges[e].0 as int));
                let k2 = choose|k2: int|
                    0 <= k2 < old_order.len()
                        && (#[trigger] old_order[k2]) as int == edges[e].0 as int;
                assert(order[k2] == edges[e].0);
            }
        }
    }
}

/// A stuck placement exhibits a trapped set holding every unplaced node.
#[verifier::rlimit(60)]
proof fn lemma_stuck_trapped(placed: Seq<bool>, n: int, edges: Seq<(usize, usize)>, v: usize)
    requires
        placed.len() == n,
        edges_within(edges, n),
        (v as int) < n,
        !placed[v as int],
        forall|w: int| 0 <= w < n && !placed[w] ==> #[trigger] blocked(placed, edges, w),
    ensures
        has_cycle(n, edges),
        exists|s: Set<int>| trapped(n, edges, s) && s.contains(v as int),
{
    let s = Set::new(|w: int| 0 <= w < n && !placed[w]);
    assert(s.contains(v as int));
    assert forall|w: int| s.contains(w) implies #[trigger] feeds(s, edges, w) by {
        assert(blocked(placed, edges, w));
        let e = choose|e: int|
            0 <= e < edges.len() && (#[trigger] edges[e]).1 as int == w
                && !placed[edges[e].0 as int];
        let u = edges[e].0 as int;
        assert(0 <= u < n);
        assert(s.contains(u));
        assert(has_edge(edges, u, w));
    }
    assert(trapped(n, edges, s) && s.contains(v as int));
}

/// Computes a topological order of `n` nodes under the given edges.
///
/// Returns the order when one exists. When none exists the graph is cyclic:
/// the result names a node belonging to a trapped set, and the contract
/// states that success and cyclicity exclude one another, in both
/// directions.
pub fn topo_sort(n: usize, edges: &Vec<(usize, usize)>) -> (r: Result<Vec<usize>, usize>)
    requires
        edges_within(edges@, n as int),
    ensures
        match r {
            Ok(order) => is_topo_order(order@, n as int, edges@) && !has_cycle(n as int, edges@),
            Err(v) => v < n && has_cycle(n as int, edges@) && exists|s: Set<int>|
                trapped(n as int, edges@, s) && s.contains(v as int),
        },
{
    let mut placed: Vec<bool> = vec![false; n];
    let mut order: Vec<usize> = Vec::new();
    let mut stuck = false;
    proof {
        lemma_count_true_none(placed@);
    }
    while !stuck && order.len() < n
        invariant
            edges_within(edges@, n as int),
            placed@.len() == n,
            order@.len() == count_true(placed@),
            order@.len() <= n,
            forall|k: int| 0 <= k < order@.len() ==> (#[trigger] order@[k]) < n,
            forall|k1: int, k2: int| 0 <= k1 < k2 < order@.len() ==> order@[k1] != order@[k2],
            forall|k: int| 0 <= k < order@.len() ==> placed@[(#[trigger] order@[k]) as int],
            forall|v: int| 0 <= v < n && #[trigger] placed@[v] ==> appears(order@, v),
            forall|k: int| 0 <= k < order@.len() ==> preds_before(order@, k, edges@),
            stuck ==> order@.len() < n,
            stuck ==> forall|v: int|
                0 <= v < n && !placed@[v] ==> #[trigger] blocked(placed@, edges@, v),
        decreases 2 * (n - order@.len()) + if stuck { 0int } else { 1int },
    {
        match find_ready(n, edges, &placed) {
            Some(v) => {
                let ghost old_placed = placed@;
                let ghost old_order = order@;
                proof {
                    lemma_count_true_update(placed@, v as int);
                }
                placed.set(v, true);
                order.push(v);
                proof {
                    lemma_place_step(
                        old_order,
                        old_placed,
                        order@,
                        placed@,
                        v,
                        n as int,
                        edges@,
                    );
                }
            },
            None => {
                stuck = true;
            },
        }
    }
    if !stuck {
        proof {
            lemma_count_true_full(placed@);
            assert forall|v: int| 0 <= v < n implies appears(order@, v) by {
                assert(placed@[v]);
            }
            lemma_complete_order(order@, n as int, edges@);
        }
        Ok(order)
    } else {
        match find_unplaced(n, &placed) {
            Some(v) => {
                proof {
                    lemma_stuck_trapped(placed@, n as int, edges@, v);
                }
                Err(v)
            },
            None => {
                proof {
                    assert(count_true(placed@) < n);
                    lemma_count_true_all(placed@);
                    assert(false);
                }
                Err(0)
            },
        }
    }
}

proof fn lemma_count_true_all(s: Seq<bool>)
    requires
        forall|i: int| 0 <= i < s.len() ==> #[trigger] s[i],
    ensures
        count_true(s) == s.len(),
    decreases s.len(),
{
    if s.len() > 0 {
        assert forall|i: int| 0 <= i < s.drop_last().len() implies #[trigger] s.drop_last()[i]
            by {
            assert(s.drop_last()[i] == s[i]);
        }
        lemma_count_true_all(s.drop_last());
    }
}

/// A walk through the graph: at least one node, consecutive nodes joined by
/// edges.
pub open spec fn is_walk(p: Seq<int>, n: int, edges: Seq<(usize, usize)>) -> bool {
    &&& p.len() >= 1
    &&& forall|i: int| 0 <= i < p.len() ==> 0 <= #[trigger] p[i] < n
    &&& forall|i: int| 0 <= i < p.len() - 1 ==> has_edge(edges, #[trigger] p[i], p[i + 1])
}

/// Some walk leads from `u` to `v`; every node reaches itself.
pub open spec fn reaches(n: int, edges: Seq<(usize, usize)>, u: int, v: int) -> bool {
    exists|p: Seq<int>| is_walk(p, n, edges) && p[0] == u && p[p.len() - 1] == v
}

/// Every node reaches itself.
pub proof fn lemma_reach_self(n: int, edges: Seq<(usize, usize)>, v: int)
    requires
        0 <= v < n,
    ensures
        reaches(n, edges, v, v),
{
    let p = seq![v];
    assert(is_walk(p, n, edges));
    assert(p[0] == v && p[p.len() - 1] == v);
}

/// Reachability extends backwards along an edge.
proof fn lemma_reach_step(n: int, edges: Seq<(usize, usize)>, a: int, b: int, v: int)
    requires
        0 <= a < n,
        has_edge(edges, a, b),
        reaches(n, edges, b, v),
    ensures
        reaches(n, edges, a, v),
{
    let p = choose|p: Seq<int>| is_walk(p, n, edges) && p[0] == b && p[p.len() - 1] == v;
    let q = seq![a] + p;
    assert forall|i: int| 0 <= i < q.len() implies 0 <= #[trigger] q[i] < n by {
        if i > 0 {
            assert(q[i] == p[i - 1]);
        }
    }
    assert forall|i: int| 0 <= i < q.len() - 1 implies has_edge(edges, #[trigger] q[i], q[i + 1]) by {
        if i == 0 {
            assert(q[0] == a && q[1] == p[0]);
        } else {
            assert(q[i] == p[i - 1] && q[i + 1] == p[i]);
        }
    }
    assert(is_walk(q, n, edges));
    assert(q[0] == a && q[q.len() - 1] == v);
}

/// Under a predecessor-closed marking, the start of any walk into a marked
/// node is marked.
proof fn lemma_closure_reaches(n: int, edges: Seq<(usize, usize)>, mark: Seq<bool>, p: Seq<int>)
    requires
        mark.len() == n,
        is_walk(p, n, edges),
        mark[p[p.len() - 1]],
        forall|w: int, e: int|
            #![trigger mark[w], edges[e]]
            0 <= w < n && mark[w] && 0 <= e < edges.len() && edges[e].1 as int == w
                ==> mark[edges[e].0 as int],
    ensures
        mark[p[0]],
    decreases p.len(),
{
    if p.len() > 1 {
        assert(has_edge(edges, p[p.len() - 2], p[p.len() - 1]));
        let e = choose|e: int|
            0 <= e < edges.len() && (#[trigger] edges[e]).0 as int == p[p.len() - 2]
                && edges[e].1 as int == p[p.len() - 1];
        assert(mark[p[p.len() - 2]]);
        let q = p.drop_last();
        assert forall|i: int| 0 <= i < q.len() - 1 implies has_edge(
            edges,
            #[trigger] q[i],
            q[i + 1],
        ) by {
            assert(q[i] == p[i] && q[i + 1] == p[i + 1]);
        }
        assert(is_walk(q, n, edges));
        assert(q[q.len() - 1] == p[p.len() - 2]);
        lemma_closure_reaches(n, edges, mark, q);
        assert(q[0] == p[0]);
    }
}

/// Marks every node from which a walk leads into `v` (including `v`).
#[verifier::rlimit(80)]
fn reachable_into(n: usize, edges: &Vec<(usize, usize)>, v: usize) -> (r: Vec<bool>)
    requires
        edges_within(edges@, n as int),
        v < n,
    ensures
        r@.len() == n,
        forall|u: int|
            0 <= u < n ==> ((#[trigger] r@[u]) <==> reaches(n as int, edges@, u, v as int)),
{
    let mut mark: Vec<bool> = vec![false; n];
    let mut stack: Vec<usize> = Vec::new();
    proof {
        lemma_count_true_none(mark@);
        lemma_count_true_update(mark@, v as int);
        lemma_reach_self(n as int, edges@, v as int);
    }
    mark.set(v, true);
    stack.push(v);
    proof {
        assert(stack@[0] as int == v as int);
        assert(appears(stack@, v as int));
        assert forall|u: int| 0 <= u < n && #[trigger] mark@[u] implies u == v as int by {}
    }
    while stack.len() > 0
        invariant
            mark@.len() == n,
            edges_within(edges@, n as int),
            v < n,
            mark@[v as int],
            forall|k: int|
                0 <= k < stack@.len() ==> (#[trigger] stack@[k]) < n
                    && mark@[stack@[k] as int],
            forall|u: int|
                0 <= u < n && #[trigger] mark@[u] ==> reaches(n as int, edges@, u, v as int),
            forall|w: int, e: int|
                #![trigger mark@[w], edges@[e]]
                0 <= w < n && mark@[w] && !appears(stack@, w) && 0 <= e < edges@.len()
                    && edges@[e].1 as int == w ==> mark@[edges@[e].0 as int],
        decreases n - count_true(mark@), stack@.len(),
    {
        let ghost pre_mark = mark@;
        let ghost pre_stack = stack@;
        let w = stack[stack.len() - 1];
        stack.pop();
        let ghost mark0 = mark@;
        let ghost stack0 = stack@;
        proof {
            assert(pre_stack[pre_stack.len() - 1] == w);
            assert(stack0 =~= pre_stack.drop_last());
            assert(mark@[w as int]);
            lemma_count_true_le(mark@);
            assert forall|w2: int|
                !appears(stack0, w2) && w2 != w as int implies !appears(pre_stack, w2) by {
                if appears(pre_stack, w2) {
                    let k = choose|k: int|
                        0 <= k < pre_stack.len() && (#[trigger] pre_stack[k]) as int == w2;
                    if k < pre_stack.len() - 1 {
                        assert(stack0[k] as int == w2);
                        assert(appears(stack0, w2));
                    }
                }
            }
        }
        let mut e: usize = 0;
        while e < edges.len()
            invariant
                mark@.len() == n,
                edges_within(edges@, n as int),
                v < n,
                w < n,
                mark@[v as int],
                mark@[w as int],
                e <= edges@.len(),
                forall|k: int|
                    0 <= k < stack@.len() ==> (#[trigger] stack@[k]) < n
                        && mark@[stack@[k] as int],
                forall|u: int|
                    0 <= u < n && #[trigger] mark@[u] ==> reaches(
                        n as int,
                        edges@,
                        u,
                        v as int,
                    ),
                forall|u: int| 0 <= u < n && #[trigger] mark0[u] ==> mark@[u],
                (mark@ == mark0 && stack@ == stack0) || count_true(mark@) > count_true(mark0),
                count_true(mark@) <= n,
                forall|w2: int, e2: int|
                    #![trigger mark@[w2], edges@[e2]]
                    0 <= w2 < n && w2 != w && mark@[w2] && !appears(stack@, w2) && 0 <= e2
                        < edges@.len() && edges@[e2].1 as int == w2
                        ==> mark@[edges@[e2].0 as int],
                forall|j: int|
                    0 <= j < e && (#[trigger] edges@[j]).1 == w ==> mark@[edges@[j].0 as int],
            decreases edges@.len() - e,
        {
            let (a, b) = edges[e];
            if b == w && !mark[a] {
                let ghost prev_stack = stack@;
                proof {
                    lemma_count_true_update(mark@, a as int);
                    assert(has_edge(edges@, a as int, w as int));
                    lemma_reach_step(n as int, edges@, a as int, w as int, v as int);
                }
                mark.set(a, true);
                stack.push(a);
                proof {
                    lemma_count_true_le(mark@);
                    assert(stack@[stack@.len() - 1] as int == a as int);
                    assert(appears(stack@, a as int));
                    assert forall|w2: int|
                        appears(prev_stack, w2) implies appears(stack@, w2) by {
                        let k = choose|k: int|
                            0 <= k < prev_stack.len() && (#[trigger] prev_stack[k]) as int
                                == w2;
                        assert(stack@[k] as int == w2);
                    }
                }
            }
            e = e + 1;
        }
        proof {
            // Either nothing changed and the stack shrank, or some node was
            // freshly marked.
            if mark@ == mark0 && stack@ == stack0 {
                assert(stack@.len() < pre_stack.len());
            }
            // The popped node's predecessors are now all marked, so the
            // closure holds for it even when it left the stack.
            assert forall|w2: int, e2: int|
                #![trigger mark@[w2], edges@[e2]]
                0 <= w2 < n && mark@[w2] && !appears(stack@, w2) && 0 <= e2 < edges@.len()
                    && edges@[e2].1 as int == w2 implies mark@[edges@[e2].0 as int]
                by {
                if w2 == w as int {
                    assert(edges@[e2].1 == w);
                }
            }
        }
    }
    proof {
        assert forall|u: int|
            0 <= u < n && reaches(n as int, edges@, u, v as int) implies mark@[u] by {
            let p = choose|p: Seq<int>|
                is_walk(p, n as int, edges@) && p[0] == u && p[p.len() - 1] == v as int;
            assert(mark@[v as int]);
            assert forall|w2: int, e2: int|
                #![trigger mark@[w2], edges@[e2]]
                0 <= w2 < n && mark@[w2] && 0 <= e2 < edges@.len()
                    && edges@[e2].1 as int == w2 implies mark@[edges@[e2].0 as int]
                by {
                assert(!appears(stack@, w2));
            }
            lemma_closure_reaches(n as int, edges@, mark@, p);
        }
    }
    mark
}

/// The own hashes of the transitive dependencies of `v` among the first `m`
/// nodes, in increasing node order, each dependency once and `v` itself
/// excluded.
pub open spec fn dep_hashes(
    n: int,
    edges: Seq<(usize, usize)>,
    hashes: Seq<u64>,
    v: int,
    m: int,
) -> Seq<u64>
    decreases m,
{
    if m <= 0 {
        Seq::empty()
    } else {
        let rest = dep_hashes(n, edges, hashes, v, m - 1);
        if reaches(n, edges, m - 1, v) && m - 1 != v {
            rest.push(hashes[m - 1])
        } else {
            rest
        }
    }
}

/// The tree hash of node `v`: its own hash combined, in increasing node
/// order, with the own hash of every distinct transitive dependency.
pub open spec fn tree_hash_of(n: int, edges: Seq<(usize, usize)>, hashes: Seq<u64>, v: int) -> u64 {
    crate::hashing::combine_fold(hashes[v], dep_hashes(n, edges, hashes, v, n))
}

/// Folding one more hash is one more combination step.
proof fn lemma_combine_fold_push(acc: u64, hs: Seq<u64>, h: u64)
    ensures
        crate::hashing::combine_fold(acc, hs.push(h)) == crate::hashing::combine(
            crate::hashing::combine_fold(acc, hs),
            h,
        ),
    decreases hs.len(),
{
    let e = hs.push(h);
    assert(crate::hashing::combine_fold(acc, e) == crate::hashing::combine_fold(
        crate::hashing::combine(acc, e[0]),
        e.skip(1),
    ));
    if hs.len() == 0 {
        assert(e[0] == h);
        assert(e.skip(1) =~= Seq::<u64>::empty());
        assert(crate::hashing::combine_fold(crate::hashing::combine(acc, h), Seq::<u64>::empty())
            == crate::hashing::combine(acc, h));
    } else {
        assert(e[0] == hs[0]);
        assert(e.skip(1) =~= hs.skip(1).push(h));
        lemma_combine_fold_push(crate::hashing::combine(acc, hs[0]), hs.skip(1), h);
        assert(crate::hashing::combine_fold(acc, hs) == crate::hashing::combine_fold(
            crate::hashing::combine(acc, hs[0]),
            hs.skip(1),
        ));
    }
}

/// Computes every node's tree hash from the graph and the own hashes.
pub fn tree_hashes(n: usize, edges: &Vec<(usize, usize)>, hashes: &Vec<u64>) -> (r: Vec<u64>)
    requires
        edges_within(edges@, n as int),
        hashes@.len() == n,
    ensures
        r@.len() == n,
        forall|v: int|
            0 <= v < n ==> #[trigger] r@[v] == tree_hash_of(n as int, edges@, hashes@, v),
{
    let mut r: Vec<u64> = Vec::new();
    let mut v: usize = 0;
    while v < n
        invariant
            edges_within(edges@, n as int),
            hashes@.len() == n,
            v <= n,
            r@.len() == v,
            forall|u: int|
                0 <= u < v ==> #[trigger] r@[u] == tree_hash_of(n as int, edges@, hashes@, u),
        decreases n - v,
    {
        let mark = reachable_into(n, edges, v);
        let mut acc = hashes[v];
        let mut m: usize = 0;
        while m < n
            invariant
                edges_within(edges@, n as int),
                hashes@.len() == n,
                v < n,
                m <= n,
                mark@.len() == n,
                forall|u: int|
                    0 <= u < n ==> ((#[trigger] mark@[u]) <==> reaches(
                        n as int,
                        edges@,
                        u,
                        v as int,
                    )),
                acc == crate::hashing::combine_fold(
                    hashes@[v as int],
                    dep_hashes(n as int, edges@, hashes@, v as int, m as int),
                ),
            decreases n - m,
        {
            proof {
                lemma_combine_fold_push(
                    hashes@[v as int],
                    dep_hashes(n as int, edges@, hashes@, v as int, m as int),
                    hashes@[m as int],
                );
            }
            if mark[m] && m != v {
                acc = crate::hashing::combine_step(acc, hashes[m]);
            }
            m = m + 1;
        }
        r.push(acc);
        v = v + 1;
    }
    r
}

/// Law: a definition with no dependencies keeps its own hash as its tree
/// hash — no edge leads into it, so nothing is combined in.
pub proof fn lemma_leaf_tree_hash(n: int, edges: Seq<(usize, usize)>, hashes: Seq<u64>, v: int)
    requires
        0 <= v < n,
        hashes.len() == n,
        forall|e: int| 0 <= e < edges.len() ==> (#[trigger] edges[e]).1 as int != v,
    ensures
        tree_hash_of(n, edges, hashes, v) == hashes[v],
{
    assert forall|u: int| 0 <= u < n && u != v implies !reaches(n, edges, u, v) by {
        if reaches(n, edges, u, v) {
            let p = choose|p: Seq<int>|
                is_walk(p, n, edges) && p[0] == u && p[p.len() - 1] == v;
            if p.len() == 1 {
                assert(u == v);
            } else {
                assert(has_edge(edges, p[p.len() - 2], p[p.len() - 1]));
                let e = choose|e: int|
                    0 <= e < edges.len() && (#[trigger] edges[e]).0 as int == p[p.len() - 2]
                        && edges[e].1 as int == p[p.len() - 1];
                assert(false);
            }
        }
    }
    lemma_dep_hashes_empty(n, edges, hashes, v, n);
}

proof fn lemma_dep_hashes_empty(n: int, edges: Seq<(usize, usize)>, hashes: Seq<u64>, v: int, m: int)
    requires
        forall|u: int| 0 <= u < n && u != v ==> !reaches(n, edges, u, v),
        m <= n,
    ensures
        dep_hashes(n, edges, hashes, v, m) == Seq::<u64>::empty(),
    decreases m,
{
    if m > 0 {
        lemma_dep_hashes_empty(n, edges, hashes, v, m - 1);
        if reaches(n, edges, m - 1, v) && m - 1 != v {
            if 0 <= m - 1 < n {
                assert(!reaches(n, edges, m - 1, v));
            } else {
                let p = choose|p: Seq<int>|
                    is_walk(p, n, edges) && p[0] == m - 1 && p[p.len() - 1] == v;
                assert(0 <= p[0] < n);
            }
        }
    }
}

/// Law: a node's tree hash depends only on its own hash and the own hashes
/// of the nodes that reach it. Changing any other node's hash leaves it
/// untouched.
pub proof fn lemma_tree_hash_local(
    n: int,
    edges: Seq<(usize, usize)>,
    h1: Seq<u64>,
    h2: Seq<u64>,
    v: int,
)
    requires
        h1.len() == n,
        h2.len() == n,
        0 <= v < n,
        h1[v] == h2[v],
        forall|u: int| 0 <= u < n && reaches(n, edges, u, v) ==> h1[u] == h2[u],
    ensures
        tree_hash_of(n, edges, h1, v) == tree_hash_of(n, edges, h2, v),
{
    lemma_dep_hashes_agree(n, edges, h1, h2, v, n);
}

proof fn lemma_dep_hashes_agree(
    n: int,
    edges: Seq<(usize, usize)>,
    h1: Seq<u64>,
    h2: Seq<u64>,
    v: int,
    m: int,
)
    requires
        h1.len() == n,
        h2.len() == n,
        0 <= v < n,
        m <= n,
        forall|u: int| 0 <= u < n && reaches(n, edges, u, v) ==> h1[u] == h2[u],
    ensures
        dep_hashes(n, edges, h1, v, m) == dep_hashes(n, edges, h2, v, m),
    decreases m,
{
    if m > 0 {
        lemma_dep_hashes_agree(n, edges, h1, h2, v, m - 1);
    }
}


/// A sequence of distinct values below `n` has at most `n` elements.
pub proof fn lemma_distinct_bounded(set: Seq<usize>, n: int)
    requires
        0 <= n,
        forall|p: int| 0 <= p < set.len() ==> (#[trigger] set[p]) < n,
        forall|p1: int, p2: int| 0 <= p1 < p2 < set.len() ==> set[p1] != set[p2],
    ensures
        set.len() <= n,
    decreases n,
{
    if n <= 0 {
        if set.len() > 0 {
            assert((set[0] as int) < n);
        }
    } else {
        if exists|p: int| 0 <= p < set.len() && (#[trigger] set[p]) == n - 1 {
            let p = choose|p: int| 0 <= p < set.len() && (#[trigger] set[p]) == n - 1;
            let s2 = set.remove(p);
            set.remove_ensures(p);
            assert forall|q: int| 0 <= q < s2.len() implies (#[trigger] s2[q]) < n - 1 by {
                if q < p {
                    assert(s2[q] == set[q]);
                    assert(set[q] != set[p]);
                } else {
                    assert(s2[q] == set[q + 1]);
                    assert(set[q + 1] != set[p]);
                }
            }
            assert forall|q1: int, q2: int|
                0 <= q1 < q2 < s2.len() implies s2[q1] != s2[q2] by {
                if q2 < p {
                } else if q1 < p {
                    assert(s2[q1] == set[q1] && s2[q2] == set[q2 + 1]);
                } else {
                    assert(s2[q1] == set[q1 + 1] && s2[q2] == set[q2 + 1]);
                }
            }
            lemma_distinct_bounded(s2, n - 1);
        } else {
            assert forall|p: int| 0 <= p < set.len() implies (#[trigger] set[p]) < n - 1 by {}
            lemma_distinct_bounded(set, n - 1);
        }
    }
}

/// The tie-break never fires while folding `hs` into `acc`: every
/// contribution differs from the accumulator of the moment, so each
/// combination step is a plain exclusive-or.
pub open spec fn no_tiebreak(acc: u64, hs: Seq<u64>) -> bool
    decreases hs.len(),
{
    hs.len() == 0 || (acc != hs[0] && no_tiebreak(acc ^ hs[0], hs.skip(1)))
}

/// Plain exclusive-or fold, without the tie-break.
pub open spec fn xor_fold(acc: u64, hs: Seq<u64>) -> u64
    decreases hs.len(),
{
    if hs.len() == 0 {
        acc
    } else {
        xor_fold(acc ^ hs[0], hs.skip(1))
    }
}

/// Where the tie-break never fires, the tree-hash fold is the plain
/// exclusive-or fold.
pub proof fn lemma_fold_no_tiebreak(acc: u64, hs: Seq<u64>)
    requires
        no_tiebreak(acc, hs),
    ensures
        crate::hashing::combine_fold(acc, hs) == xor_fold(acc, hs),
    decreases hs.len(),
{
    if hs.len() > 0 {
        assert(crate::hashing::combine(acc, hs[0]) == acc ^ hs[0]);
        lemma_fold_no_tiebreak(acc ^ hs[0], hs.skip(1));
    }
}

proof fn lemma_xor_fold_push(acc: u64, hs: Seq<u64>, h: u64)
    ensures
        xor_fold(acc, hs.push(h)) == xor_fold(acc, hs) ^ h,
    decreases hs.len(),
{
    let e = hs.push(h);
    assert(xor_fold(acc, e) == xor_fold(acc ^ e[0], e.skip(1)));
    if hs.len() == 0 {
        assert(e[0] == h);
        assert(e.skip(1) =~= Seq::<u64>::empty());
    } else {
        assert(e[0] == hs[0]);
        assert(e.skip(1) =~= hs.skip(1).push(h));
        lemma_xor_fold_push(acc ^ hs[0], hs.skip(1), h);
    }
}

proof fn lemma_xor_rearrange(x: u64, y: u64, a: u64, b: u64)
    ensures
        (x ^ a) ^ (y ^ b) == (x ^ y) ^ (a ^ b),
{
    assert((x ^ a) ^ (y ^ b) == (x ^ y) ^ (a ^ b)) by (bit_vector);
}

/// The folded dependency hashes of two runs that agree everywhere but at
/// node `l` differ by exactly `l`'s hash difference — when `l` is a
/// dependency among the first `m` nodes — and not at all otherwise.
proof fn lemma_dep_hashes_xor_diff(
    n: int,
    edges: Seq<(usize, usize)>,
    h1: Seq<u64>,
    h2: Seq<u64>,
    v: int,
    l: int,
    m: int,
)
    requires
        h1.len() == n,
        h2.len() == n,
        0 <= v < n,
        0 <= l < n,
        l != v,
        h1[v] == h2[v],
        forall|u: int| 0 <= u < n && u != l ==> h1[u] == h2[u],
        0 <= m <= n,
    ensures
        xor_fold(h1[v], dep_hashes(n, edges, h1, v, m)) ^ xor_fold(
            h2[v],
            dep_hashes(n, edges, h2, v, m),
        ) == if reaches(n, edges, l, v) && l < m {
            h1[l] ^ h2[l]
        } else {
            0u64
        },
    decreases m,
{
    if m == 0 {
        let a = h1[v];
        let b = h2[v];
        assert(a ^ b == 0) by (bit_vector)
            requires
                a == b,
        ;
    } else {
        lemma_dep_hashes_xor_diff(n, edges, h1, h2, v, l, m - 1);
        let p1 = dep_hashes(n, edges, h1, v, m - 1);
        let p2 = dep_hashes(n, edges, h2, v, m - 1);
        let f1 = xor_fold(h1[v], p1);
        let f2 = xor_fold(h2[v], p2);
        if reaches(n, edges, m - 1, v) && m - 1 != v {
            assert(dep_hashes(n, edges, h1, v, m) == p1.push(h1[m - 1]));
            assert(dep_hashes(n, edges, h2, v, m) == p2.push(h2[m - 1]));
            lemma_xor_fold_push(h1[v], p1, h1[m - 1]);
            lemma_xor_fold_push(h2[v], p2, h2[m - 1]);
            lemma_xor_rearrange(f1, f2, h1[m - 1], h2[m - 1]);
            if m - 1 == l {
                let d = h1[l] ^ h2[l];
                assert((0u64) ^ d == d) by (bit_vector);
            } else {
                assert(h1[m - 1] == h2[m - 1]);
                let a = h1[m - 1];
                let prior = f1 ^ f2;
                assert(prior ^ (a ^ a) == prior) by (bit_vector);
            }
        }
    }
}

/// Law (change propagation): when exactly one transitive dependency's own
/// hash changes, the dependent's tree hash changes too — provided the
/// defensive tie-break fires in neither fold. The tie-break skips a
/// contribution equal to the running accumulator, so on such inputs a
/// change can be absorbed; the specification itself flags the tie-break as
/// a heuristic, not a correctness requirement.
pub proof fn lemma_change_propagates(
    n: int,
    edges: Seq<(usize, usize)>,
    h1: Seq<u64>,
    h2: Seq<u64>,
    v: int,
    l: int,
)
    requires
        h1.len() == n,
        h2.len() == n,
        0 <= v < n,
        0 <= l < n,
        l != v,
        reaches(n, edges, l, v),
        h1[l] != h2[l],
        h1[v] == h2[v],
        forall|u: int| 0 <= u < n && u != l ==> h1[u] == h2[u],
        no_tiebreak(h1[v], dep_hashes(n, edges, h1, v, n)),
        no_tiebreak(h2[v], dep_hashes(n, edges, h2, v, n)),
    ensures
        tree_hash_of(n, edges, h1, v) != tree_hash_of(n, edges, h2, v),
{
    lemma_fold_no_tiebreak(h1[v], dep_hashes(n, edges, h1, v, n));
    lemma_fold_no_tiebreak(h2[v], dep_hashes(n, edges, h2, v, n));
    lemma_dep_hashes_xor_diff(n, edges, h1, h2, v, l, n);
    let t1 = tree_hash_of(n, edges, h1, v);
    let t2 = tree_hash_of(n, edges, h2, v);
    let a = h1[l];
    let b = h2[l];
    assert(t1 != t2) by (bit_vector)
        requires
            t1 ^ t2 == a ^ b,
            a != b,
    ;
}

} // verus!
