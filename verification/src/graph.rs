//! The weighted bi-directional graph and its cost-bounded traversal.

use vstd::prelude::*;
use vstd::set_lib::lemma_len_subset;
use std::collections::HashSet;
use crate::geopoint::{GeoPoint, PointModel};

verus! {

broadcast use vstd::std_specs::hash::group_hash_axioms;

/// The set of vertex ids strictly under `n`.
pub open spec fn below(n: int) -> Set<usize> {
    Set::new(|v: usize| (v as int) < n)
}

pub proof fn lemma_below(n: int)
    requires
        0 <= n <= usize::MAX as int + 1,
    ensures
        below(n).finite(),
        below(n).len() == n,
    decreases n,
{
    if n == 0 {
        assert(below(0) =~= Set::<usize>::empty());
    } else {
        lemma_below(n - 1);
        assert(below(n) =~= below(n - 1).insert((n - 1) as usize));
    }
}

/// The ids whose mark is set in `s`.
pub open spec fn path_of(s: Seq<bool>) -> Set<usize> {
    Set::new(|v: usize| (v as int) < s.len() && s[v as int])
}

pub proof fn lemma_path_of(s: Seq<bool>)
    requires
        s.len() <= usize::MAX as int,
    ensures
        path_of(s).finite(),
        path_of(s).len() <= s.len(),
        path_of(s).subset_of(below(s.len() as int)),
{
    lemma_below(s.len() as int);
    lemma_len_subset(path_of(s), below(s.len() as int));
}

/// Well-formedness of one vertex: its id is its position, its neighbor and
/// weight lists are aligned, and every neighbor id is a valid index.
pub open spec fn wf_at(g: Seq<PointModel>, i: int) -> bool {
    &&& g[i].id == i
    &&& g[i].neighbors.len() == g[i].weights.len()
    &&& forall|j: int|
        0 <= j < g[i].neighbors.len() ==> (#[trigger] g[i].neighbors[j]) < g.len()
}

/// Well-formedness of the whole graph: it fits in memory and every vertex is
/// well formed.
pub open spec fn graph_wf(g: Seq<PointModel>) -> bool {
    &&& g.len() <= usize::MAX
    &&& forall|i: int| 0 <= i < g.len() ==> #[trigger] wf_at(g, i)
}

/// Every vertex of a well-formed graph has as many weights as neighbors.
pub proof fn lemma_wf_aligned(g: Seq<PointModel>, i: int)
    requires
        graph_wf(g),
        0 <= i < g.len(),
    ensures
        g[i].neighbors.len() == g[i].weights.len(),
{
    assert(wf_at(g, i));
}

/// The degree of vertex `v`: the number of entries in its neighbor list.
pub open spec fn deg_of(g: Seq<PointModel>, v: usize) -> nat {
    g[v as int].neighbors.len()
}

/// Conditions under which the traversal from `node` is specified.
pub open spec fn dfs_ok(g: Seq<PointModel>, node: usize, path: Set<usize>) -> bool {
    &&& graph_wf(g)
    &&& (node as int) < g.len()
    &&& path.finite()
    &&& path.subset_of(below(g.len() as int))
    &&& !path.contains(node)
}

/// Conditions under which the neighbor scan at `node` is specified.
pub open spec fn scan_ok(g: Seq<PointModel>, node: usize, path: Set<usize>, i: int) -> bool {
    &&& graph_wf(g)
    &&& (node as int) < g.len()
    &&& path.finite()
    &&& path.subset_of(below(g.len() as int))
    &&& 0 <= i <= g[node as int].neighbors.len()
}

/// The cost-bounded depth-first search from `node`, with `path` the set of
/// vertices on the current path (which never re-expands a vertex already on
/// it). Returns the winning vertex and the set of vertices entered.
pub open spec fn spec_dfs(
    g: Seq<PointModel>,
    node: usize,
    maxcost: int,
    curcost: int,
    path: Set<usize>,
) -> (usize, Set<usize>)
    decreases g.len() - path.len(), 0int,
        when dfs_ok(g, node, path)
        via spec_dfs_decreases
{
    if g[node as int].neighbors.len() == 0 {
        (node, set![node])
    } else {
        spec_dfs_scan(g, node, maxcost, curcost, path.insert(node), 0, node, set![node])
    }
}

/// One pass over the neighbors of `node` in stored adjacency order, from
/// index `i`, carrying the best candidate so far and the entered set.
pub open spec fn spec_dfs_scan(
    g: Seq<PointModel>,
    node: usize,
    maxcost: int,
    curcost: int,
    path: Set<usize>,
    i: int,
    best: usize,
    vis: Set<usize>,
) -> (usize, Set<usize>)
    decreases g.len() - path.len(), 1 + g[node as int].neighbors.len() - i,
        when scan_ok(g, node, path, i)
        via spec_dfs_scan_decreases
{
    if i >= g[node as int].neighbors.len() {
        (best, vis)
    } else {
        let n = g[node as int].neighbors[i];
        let w = g[node as int].weights[i] as int;
        if curcost + w <= maxcost && !path.contains(n) {
            let r = spec_dfs(g, n, maxcost, curcost + w, path);
            let vis2 = vis.union(r.1);
            let best2 = if deg_of(g, r.0) < deg_of(g, best) {
                r.0
            } else {
                best
            };
            spec_dfs_scan(g, node, maxcost, curcost, path, i + 1, best2, vis2)
        } else {
            spec_dfs_scan(g, node, maxcost, curcost, path, i + 1, best, vis)
        }
    }
}

#[via_fn]
proof fn spec_dfs_decreases(
    g: Seq<PointModel>,
    node: usize,
    maxcost: int,
    curcost: int,
    path: Set<usize>,
) {
    lemma_below(g.len() as int);
    lemma_len_subset(path.insert(node), below(g.len() as int));
}

#[via_fn]
proof fn spec_dfs_scan_decreases(
    g: Seq<PointModel>,
    node: usize,
    maxcost: int,
    curcost: int,
    path: Set<usize>,
    i: int,
    best: usize,
    vis: Set<usize>,
) {
    lemma_below(g.len() as int);
    lemma_len_subset(path, below(g.len() as int));
}

/// The traversal's winner is a valid vertex, and the entered set is a finite
/// set of valid vertices that includes the start.
pub proof fn lemma_dfs_valid(
    g: Seq<PointModel>,
    node: usize,
    maxcost: int,
    curcost: int,
    path: Set<usize>,
)
    requires
        dfs_ok(g, node, path),
    ensures
        (spec_dfs(g, node, maxcost, curcost, path).0 as int) < g.len(),
        spec_dfs(g, node, maxcost, curcost, path).1.finite(),
        spec_dfs(g, node, maxcost, curcost, path).1.subset_of(below(g.len() as int)),
        spec_dfs(g, node, maxcost, curcost, path).1.contains(node),
    decreases g.len() - path.len(), 0int,
{
    lemma_below(g.len() as int);
    lemma_len_subset(path, below(g.len() as int));
    if g[node as int].neighbors.len() == 0 {
        assert(set![node].subset_of(below(g.len() as int)));
    } else {
        let path1 = path.insert(node);
        lemma_len_subset(path1, below(g.len() as int));
        lemma_dfs_scan_valid(g, node, maxcost, curcost, path1, 0, node, set![node]);
    }
}

proof fn lemma_dfs_scan_valid(
    g: Seq<PointModel>,
    node: usize,
    maxcost: int,
    curcost: int,
    path: Set<usize>,
    i: int,
    best: usize,
    vis: Set<usize>,
)
    requires
        scan_ok(g, node, path, i),
        (best as int) < g.len(),
        vis.finite(),
        vis.subset_of(below(g.len() as int)),
    ensures
        (spec_dfs_scan(g, node, maxcost, curcost, path, i, best, vis).0 as int) < g.len(),
        spec_dfs_scan(g, node, maxcost, curcost, path, i, best, vis).1.finite(),
        spec_dfs_scan(g, node, maxcost, curcost, path, i, best, vis).1.subset_of(
            below(g.len() as int),
        ),
        vis.subset_of(spec_dfs_scan(g, node, maxcost, curcost, path, i, best, vis).1),
    decreases g.len() - path.len(), 1 + g[node as int].neighbors.len() - i,
{
    lemma_below(g.len() as int);
    lemma_len_subset(path, below(g.len() as int));
    if i < g[node as int].neighbors.len() {
        assert(wf_at(g, node as int));
        let n = g[node as int].neighbors[i];
        let w = g[node as int].weights[i] as int;
        if curcost + w <= maxcost && !path.contains(n) {
            lemma_dfs_valid(g, n, maxcost, curcost + w, path);
            let r = spec_dfs(g, n, maxcost, curcost + w, path);
            let vis2 = vis.union(r.1);
            let best2 = if deg_of(g, r.0) < deg_of(g, best) {
                r.0
            } else {
                best
            };
            lemma_dfs_scan_valid(g, node, maxcost, curcost, path, i + 1, best2, vis2);
        } else {
            lemma_dfs_scan_valid(g, node, maxcost, curcost, path, i + 1, best, vis);
        }
    }
}

/// The traversal's winner is one of the vertices the search entered, and no
/// entered vertex has strictly fewer neighbors.
pub proof fn lemma_dfs_minimal(
    g: Seq<PointModel>,
    node: usize,
    maxcost: int,
    curcost: int,
    path: Set<usize>,
)
    requires
        dfs_ok(g, node, path),
    ensures
        spec_dfs(g, node, maxcost, curcost, path).1.contains(
            spec_dfs(g, node, maxcost, curcost, path).0,
        ),
        forall|v: usize|
            spec_dfs(g, node, maxcost, curcost, path).1.contains(v) ==> deg_of(
                g,
                spec_dfs(g, node, maxcost, curcost, path).0,
            ) <= deg_of(g, v),
    decreases g.len() - path.len(), 0int,
{
    lemma_below(g.len() as int);
    lemma_len_subset(path, below(g.len() as int));
    if g[node as int].neighbors.len() == 0 {
    } else {
        let path1 = path.insert(node);
        lemma_len_subset(path1, below(g.len() as int));
        lemma_dfs_scan_minimal(g, node, maxcost, curcost, path1, 0, node, set![node]);
    }
}

proof fn lemma_dfs_scan_minimal(
    g: Seq<PointModel>,
    node: usize,
    maxcost: int,
    curcost: int,
    path: Set<usize>,
    i: int,
    best: usize,
    vis: Set<usize>,
)
    requires
        scan_ok(g, node, path, i),
        vis.contains(best),
        forall|v: usize| vis.contains(v) ==> deg_of(g, best) <= deg_of(g, v),
    ensures
        spec_dfs_scan(g, node, maxcost, curcost, path, i, best, vis).1.contains(
            spec_dfs_scan(g, node, maxcost, curcost, path, i, best, vis).0,
        ),
        forall|v: usize|
            spec_dfs_scan(g, node, maxcost, curcost, path, i, best, vis).1.contains(v) ==> deg_of(
                g,
                spec_dfs_scan(g, node, maxcost, curcost, path, i, best, vis).0,
            ) <= deg_of(g, v),
    decreases g.len() - path.len(), 1 + g[node as int].neighbors.len() - i,
{
    lemma_below(g.len() as int);
    lemma_len_subset(path, below(g.len() as int));
    if i < g[node as int].neighbors.len() {
        assert(wf_at(g, node as int));
        let n = g[node as int].neighbors[i];
        let w = g[node as int].weights[i] as int;
        if curcost + w <= maxcost && !path.contains(n) {
            lemma_dfs_minimal(g, n, maxcost, curcost + w, path);
            let r = spec_dfs(g, n, maxcost, curcost + w, path);
            let vis2 = vis.union(r.1);
            let best2 = if deg_of(g, r.0) < deg_of(g, best) {
                r.0
            } else {
                best
            };
            lemma_dfs_scan_minimal(g, node, maxcost, curcost, path, i + 1, best2, vis2);
        } else {
            lemma_dfs_scan_minimal(g, node, maxcost, curcost, path, i + 1, best, vis);
        }
    }
}

/// `verts` is a walk along existing edges, `eix[t]` picking which adjacency
/// entry of `verts[t]` leads to `verts[t + 1]`.
pub open spec fn walk_ok(g: Seq<PointModel>, verts: Seq<usize>, eix: Seq<int>) -> bool {
    &&& verts.len() >= 1
    &&& eix.len() == verts.len() - 1
    &&& forall|t: int| 0 <= t < verts.len() ==> (#[trigger] verts[t]) < g.len()
    &&& forall|t: int|
        0 <= t < eix.len() ==> 0 <= #[trigger] eix[t] < g[verts[t] as int].neighbors.len()
            && g[verts[t] as int].neighbors[eix[t]] == verts[t + 1]
}

/// The cumulative edge weight of a walk.
pub open spec fn walk_cost(g: Seq<PointModel>, verts: Seq<usize>, eix: Seq<int>) -> int
    decreases eix.len(),
{
    if eix.len() == 0 {
        0
    } else {
        g[verts[0] as int].weights[eix[0]] + walk_cost(g, verts.drop_first(), eix.drop_first())
    }
}

/// `b` can be reached from `a` along some walk of cumulative weight at most
/// `budget`.
pub open spec fn reachable_within(g: Seq<PointModel>, a: usize, b: usize, budget: int) -> bool {
    exists|verts: Seq<usize>, eix: Seq<int>|
        #[trigger] walk_ok(g, verts, eix) && verts.first() == a && verts.last() == b && walk_cost(
            g,
            verts,
            eix,
        ) <= budget
}

proof fn lemma_walk_prepend(g: Seq<PointModel>, node: usize, j: int, verts: Seq<usize>, eix: Seq<int>)
    requires
        walk_ok(g, verts, eix),
        (node as int) < g.len(),
        0 <= j < g[node as int].neighbors.len(),
        g[node as int].neighbors[j] == verts.first(),
    ensures
        walk_ok(g, seq![node] + verts, seq![j] + eix),
        walk_cost(g, seq![node] + verts, seq![j] + eix) == g[node as int].weights[j] + walk_cost(
            g,
            verts,
            eix,
        ),
{
    let v2 = seq![node] + verts;
    let e2 = seq![j] + eix;
    assert(v2.drop_first() =~= verts);
    assert(e2.drop_first() =~= eix);
    assert forall|t: int| 0 <= t < v2.len() implies (#[trigger] v2[t]) < g.len() by {
        if t >= 1 {
            assert(v2[t] == verts[t - 1]);
        }
    }
    assert forall|t: int|
        0 <= t < e2.len() implies 0 <= #[trigger] e2[t] < g[v2[t] as int].neighbors.len()
            && g[v2[t] as int].neighbors[e2[t]] == v2[t + 1] by {
        if t >= 1 {
            assert(e2[t] == eix[t - 1]);
            assert(v2[t] == verts[t - 1]);
            assert(v2[t + 1] == verts[t]);
        }
    }
}

/// The trivial walk: a vertex reaches itself at no cost.
proof fn lemma_walk_trivial(g: Seq<PointModel>, a: usize, budget: int)
    requires
        (a as int) < g.len(),
        budget >= 0,
    ensures
        reachable_within(g, a, a, budget),
{
    let verts = seq![a];
    let eix = Seq::<int>::empty();
    assert(walk_ok(g, verts, eix));
}

/// Every vertex the search enters is reachable from the start within the
/// remaining budget.
pub proof fn lemma_dfs_entered_reachable(
    g: Seq<PointModel>,
    node: usize,
    maxcost: int,
    curcost: int,
    path: Set<usize>,
)
    requires
        dfs_ok(g, node, path),
        curcost <= maxcost,
    ensures
        forall|v: usize|
            #[trigger] spec_dfs(g, node, maxcost, curcost, path).1.contains(v)
                ==> reachable_within(g, node, v, maxcost - curcost),
    decreases g.len() - path.len(), 0int,
{
    lemma_below(g.len() as int);
    lemma_len_subset(path, below(g.len() as int));
    lemma_walk_trivial(g, node, maxcost - curcost);
    let res = spec_dfs(g, node, maxcost, curcost, path);
    if g[node as int].neighbors.len() == 0 {
        assert forall|v: usize| #[trigger] res.1.contains(v) implies reachable_within(
            g,
            node,
            v,
            maxcost - curcost,
        ) by {
            assert(v == node);
        }
    } else {
        let path1 = path.insert(node);
        lemma_len_subset(path1, below(g.len() as int));
        lemma_scan_entered_reachable(g, node, maxcost, curcost, path1, 0, node, set![node]);
        let sres = spec_dfs_scan(g, node, maxcost, curcost, path1, 0, node, set![node]);
        assert(res == sres);
        assert forall|v: usize| #[trigger] res.1.contains(v) implies reachable_within(
            g,
            node,
            v,
            maxcost - curcost,
        ) by {
            assert(sres.1.contains(v));
        }
    }
}

proof fn lemma_scan_entered_reachable(
    g: Seq<PointModel>,
    node: usize,
    maxcost: int,
    curcost: int,
    path: Set<usize>,
    i: int,
    best: usize,
    vis: Set<usize>,
)
    requires
        scan_ok(g, node, path, i),
        curcost <= maxcost,
        forall|v: usize| #[trigger]
            vis.contains(v) ==> reachable_within(g, node, v, maxcost - curcost),
    ensures
        forall|v: usize|
            #[trigger] spec_dfs_scan(g, node, maxcost, curcost, path, i, best, vis).1.contains(v)
                ==> reachable_within(g, node, v, maxcost - curcost),
    decreases g.len() - path.len(), 1 + g[node as int].neighbors.len() - i,
{
    lemma_below(g.len() as int);
    lemma_len_subset(path, below(g.len() as int));
    let res = spec_dfs_scan(g, node, maxcost, curcost, path, i, best, vis);
    if i < g[node as int].neighbors.len() {
        assert(wf_at(g, node as int));
        let n = g[node as int].neighbors[i];
        let w = g[node as int].weights[i] as int;
        if curcost + w <= maxcost && !path.contains(n) {
            lemma_dfs_entered_reachable(g, n, maxcost, curcost + w, path);
            let r = spec_dfs(g, n, maxcost, curcost + w, path);
            let vis2 = vis.union(r.1);
            assert forall|v: usize| #[trigger] vis2.contains(v) implies reachable_within(
                g,
                node,
                v,
                maxcost - curcost,
            ) by {
                if r.1.contains(v) && !vis.contains(v) {
                    assert(reachable_within(g, n, v, maxcost - (curcost + w)));
                    let (verts, eix) = choose|verts: Seq<usize>, eix: Seq<int>|
                        #[trigger] walk_ok(g, verts, eix) && verts.first() == n && verts.last()
                            == v && walk_cost(g, verts, eix) <= maxcost - (curcost + w);
                    lemma_walk_prepend(g, node, i, verts, eix);
                    assert((seq![node] + verts).first() == node);
                    assert((seq![node] + verts).last() == v);
                }
            }
            let best2 = if deg_of(g, r.0) < deg_of(g, best) {
                r.0
            } else {
                best
            };
            lemma_scan_entered_reachable(g, node, maxcost, curcost, path, i + 1, best2, vis2);
            let nres = spec_dfs_scan(g, node, maxcost, curcost, path, i + 1, best2, vis2);
            assert(res == nres);
            assert forall|v: usize| #[trigger] res.1.contains(v) implies reachable_within(
                g,
                node,
                v,
                maxcost - curcost,
            ) by {
                assert(nres.1.contains(v));
            }
        } else {
            lemma_scan_entered_reachable(g, node, maxcost, curcost, path, i + 1, best, vis);
            let nres = spec_dfs_scan(g, node, maxcost, curcost, path, i + 1, best, vis);
            assert(res == nres);
            assert forall|v: usize| #[trigger] res.1.contains(v) implies reachable_within(
                g,
                node,
                v,
                maxcost - curcost,
            ) by {
                assert(nres.1.contains(v));
            }
        }
    } else {
        assert(res.1 == vis);
    }
}

proof fn lemma_walk_cost_nonneg(g: Seq<PointModel>, verts: Seq<usize>, eix: Seq<int>)
    ensures
        walk_cost(g, verts, eix) >= 0,
    decreases eix.len(),
{
    if eix.len() > 0 {
        lemma_walk_cost_nonneg(g, verts.drop_first(), eix.drop_first());
    }
}

proof fn lemma_walk_tail(g: Seq<PointModel>, verts: Seq<usize>, eix: Seq<int>)
    requires
        walk_ok(g, verts, eix),
        verts.len() >= 2,
    ensures
        walk_ok(g, verts.drop_first(), eix.drop_first()),
        walk_cost(g, verts, eix) == g[verts[0] as int].weights[eix[0]] + walk_cost(
            g,
            verts.drop_first(),
            eix.drop_first(),
        ),
{
    let v2 = verts.drop_first();
    let e2 = eix.drop_first();
    assert forall|t: int| 0 <= t < v2.len() implies (#[trigger] v2[t]) < g.len() by {
        assert(v2[t] == verts[t + 1]);
    }
    assert forall|t: int|
        0 <= t < e2.len() implies 0 <= #[trigger] e2[t] < g[v2[t] as int].neighbors.len()
            && g[v2[t] as int].neighbors[e2[t]] == v2[t + 1] by {
        assert(e2[t] == eix[t + 1]);
        assert(v2[t] == verts[t + 1]);
        assert(v2[t + 1] == verts[t + 2]);
    }
}

/// Every vertex reachable from `node` along a cycle-free walk that avoids
/// the current path and fits the remaining budget is entered by the search.
pub proof fn lemma_dfs_complete(
    g: Seq<PointModel>,
    node: usize,
    maxcost: int,
    curcost: int,
    path: Set<usize>,
    verts: Seq<usize>,
    eix: Seq<int>,
)
    requires
        dfs_ok(g, node, path),
        walk_ok(g, verts, eix),
        verts.first() == node,
        verts.no_duplicates(),
        forall|t: int| 0 <= t < verts.len() ==> !path.contains(#[trigger] verts[t]),
        curcost + walk_cost(g, verts, eix) <= maxcost,
    ensures
        spec_dfs(g, node, maxcost, curcost, path).1.contains(verts.last()),
    decreases g.len() - path.len(), 0int,
{
    lemma_below(g.len() as int);
    lemma_len_subset(path, below(g.len() as int));
    lemma_dfs_valid(g, node, maxcost, curcost, path);
    if verts.len() == 1 {
        assert(verts.last() == node);
    } else {
        assert(0 <= eix[0] < g[node as int].neighbors.len());
        let path1 = path.insert(node);
        lemma_len_subset(path1, below(g.len() as int));
        lemma_dfs_scan_complete(g, node, maxcost, curcost, path1, 0, node, set![node], verts, eix);
        let sres = spec_dfs_scan(g, node, maxcost, curcost, path1, 0, node, set![node]);
        assert(spec_dfs(g, node, maxcost, curcost, path) == sres);
    }
}

proof fn lemma_dfs_scan_complete(
    g: Seq<PointModel>,
    node: usize,
    maxcost: int,
    curcost: int,
    path: Set<usize>,
    i: int,
    best: usize,
    vis: Set<usize>,
    verts: Seq<usize>,
    eix: Seq<int>,
)
    requires
        scan_ok(g, node, path, i),
        (best as int) < g.len(),
        vis.finite(),
        vis.subset_of(below(g.len() as int)),
        walk_ok(g, verts, eix),
        verts.len() >= 2,
        verts.first() == node,
        verts.no_duplicates(),
        path.contains(node),
        forall|t: int| 1 <= t < verts.len() ==> !path.contains(#[trigger] verts[t]),
        curcost + walk_cost(g, verts, eix) <= maxcost,
        i <= eix[0],
    ensures
        spec_dfs_scan(g, node, maxcost, curcost, path, i, best, vis).1.contains(verts.last()),
    decreases g.len() - path.len(), 1 + g[node as int].neighbors.len() - i,
{
    lemma_below(g.len() as int);
    lemma_len_subset(path, below(g.len() as int));
    assert(wf_at(g, node as int));
    assert(0 <= eix[0] < g[node as int].neighbors.len());
    let n = g[node as int].neighbors[i];
    let w = g[node as int].weights[i] as int;
    let res = spec_dfs_scan(g, node, maxcost, curcost, path, i, best, vis);
    if i < eix[0] {
        if curcost + w <= maxcost && !path.contains(n) {
            lemma_dfs_valid(g, n, maxcost, curcost + w, path);
            let r = spec_dfs(g, n, maxcost, curcost + w, path);
            let vis2 = vis.union(r.1);
            let best2 = if deg_of(g, r.0) < deg_of(g, best) {
                r.0
            } else {
                best
            };
            lemma_dfs_scan_complete(
                g,
                node,
                maxcost,
                curcost,
                path,
                i + 1,
                best2,
                vis2,
                verts,
                eix,
            );
        } else {
            lemma_dfs_scan_complete(g, node, maxcost, curcost, path, i + 1, best, vis, verts, eix);
        }
    } else {
        // the walk's first step leaves through this adjacency entry
        let vt = verts.drop_first();
        let et = eix.drop_first();
        lemma_walk_tail(g, verts, eix);
        lemma_walk_cost_nonneg(g, vt, et);
        assert(n == verts[1]);
        assert(curcost + w <= maxcost);
        assert(!path.contains(n));
        lemma_dfs_valid(g, n, maxcost, curcost + w, path);
        let r = spec_dfs(g, n, maxcost, curcost + w, path);
        assert forall|t: int| 0 <= t < vt.len() implies !path.contains(#[trigger] vt[t]) by {
            assert(vt[t] == verts[t + 1]);
        }
        assert(vt.no_duplicates()) by {
            assert forall|a: int, b: int|
                0 <= a < vt.len() && 0 <= b < vt.len() && a != b implies vt[a] != vt[b] by {
                assert(vt[a] == verts[a + 1]);
                assert(vt[b] == verts[b + 1]);
            }
        }
        assert(vt.first() == n);
        lemma_dfs_complete(g, n, maxcost, curcost + w, path, vt, et);
        assert(r.1.contains(vt.last()));
        assert(vt.last() == verts.last());
        let vis2 = vis.union(r.1);
        let best2 = if deg_of(g, r.0) < deg_of(g, best) {
            r.0
        } else {
            best
        };
        lemma_dfs_scan_valid(g, node, maxcost, curcost, path, i + 1, best2, vis2);
        let nres = spec_dfs_scan(g, node, maxcost, curcost, path, i + 1, best2, vis2);
        assert(vis2.subset_of(nres.1));
        assert(res == nres);
    }
}

/// No vertex reachable from the start along a cycle-free walk within the
/// budget has strictly fewer neighbors than the winner.
pub proof fn lemma_dfs_winner_minimal(
    g: Seq<PointModel>,
    start: usize,
    maxcost: int,
    verts: Seq<usize>,
    eix: Seq<int>,
)
    requires
        graph_wf(g),
        (start as int) < g.len(),
        maxcost >= 0,
        walk_ok(g, verts, eix),
        verts.first() == start,
        verts.no_duplicates(),
        walk_cost(g, verts, eix) <= maxcost,
    ensures
        deg_of(g, spec_dfs(g, start, maxcost, 0, Set::empty()).0) <= deg_of(g, verts.last()),
{
    assert(Set::<usize>::empty().subset_of(below(g.len() as int)));
    lemma_dfs_complete(g, start, maxcost, 0, Set::empty(), verts, eix);
    lemma_dfs_minimal(g, start, maxcost, 0, Set::empty());
}

proof fn lemma_walk_cost_split(g: Seq<PointModel>, verts: Seq<usize>, eix: Seq<int>, k: int)
    requires
        verts.len() == eix.len() + 1,
        0 <= k <= eix.len(),
    ensures
        walk_cost(g, verts, eix) == walk_cost(g, verts.take(k + 1), eix.take(k)) + walk_cost(
            g,
            verts.skip(k),
            eix.skip(k),
        ),
    decreases k,
{
    if k == 0 {
        assert(eix.take(0) =~= Seq::<int>::empty());
        assert(verts.skip(0) =~= verts);
        assert(eix.skip(0) =~= eix);
    } else {
        let vt = verts.drop_first();
        let et = eix.drop_first();
        lemma_walk_cost_split(g, vt, et, k - 1);
        assert(verts.take(k + 1).drop_first() =~= vt.take(k));
        assert(eix.take(k).drop_first() =~= et.take(k - 1));
        assert(verts.skip(k) =~= vt.skip(k - 1));
        assert(eix.skip(k) =~= et.skip(k - 1));
        assert(verts.take(k + 1)[0] == verts[0]);
        assert(eix.take(k)[0] == eix[0]);
    }
}

/// Any walk can be shortened to a cycle-free walk between the same
/// endpoints at no greater cost.
proof fn lemma_walk_cut(g: Seq<PointModel>, verts: Seq<usize>, eix: Seq<int>)
    requires
        walk_ok(g, verts, eix),
    ensures
        exists|v2: Seq<usize>, e2: Seq<int>|
            #[trigger] walk_ok(g, v2, e2) && v2.first() == verts.first() && v2.last()
                == verts.last() && v2.no_duplicates() && walk_cost(g, v2, e2) <= walk_cost(
                g,
                verts,
                eix,
            ),
    decreases verts.len(),
{
    if verts.no_duplicates() {
        assert(walk_ok(g, verts, eix) && verts.first() == verts.first() && verts.last()
            == verts.last() && verts.no_duplicates() && walk_cost(g, verts, eix) <= walk_cost(
            g,
            verts,
            eix,
        ));
    } else {
        let (i, j) = choose|i: int, j: int|
            0 <= i < verts.len() && 0 <= j < verts.len() && i != j && verts[i] == verts[j];
        let a = if i < j {
            i
        } else {
            j
        };
        let b = if i < j {
            j
        } else {
            i
        };
        let v2 = verts.take(a) + verts.skip(b);
        let e2 = eix.take(a) + eix.skip(b);
        assert(v2.len() == a + verts.len() - b);
        assert(e2.len() == v2.len() - 1);
        assert forall|t: int| 0 <= t < v2.len() implies (#[trigger] v2[t]) < g.len() by {
            if t < a {
                assert(v2[t] == verts[t]);
            } else {
                assert(v2[t] == verts[b + t - a]);
            }
        }
        assert forall|t: int|
            0 <= t < e2.len() implies 0 <= #[trigger] e2[t] < g[v2[t] as int].neighbors.len()
                && g[v2[t] as int].neighbors[e2[t]] == v2[t + 1] by {
            if t < a {
                assert(e2[t] == eix[t]);
                assert(v2[t] == verts[t]);
                if t + 1 < a {
                    assert(v2[t + 1] == verts[t + 1]);
                } else {
                    assert(v2[t + 1] == verts[b]);
                    assert(verts[b] == verts[a]);
                }
            } else {
                assert(e2[t] == eix[b + t - a]);
                assert(v2[t] == verts[b + t - a]);
                assert(v2[t + 1] == verts[b + t - a + 1]);
            }
        }
        assert(walk_ok(g, v2, e2));
        assert(v2.first() == verts.first());
        assert(v2.last() == verts.last());
        // the cut drops the middle of the walk, whose cost is non-negative
        lemma_walk_cost_split(g, verts, eix, a);
        lemma_walk_cost_split(g, verts.skip(a), eix.skip(a), b - a);
        lemma_walk_cost_split(g, v2, e2, a);
        assert(verts.skip(a).take(b - a + 1) =~= verts.subrange(a, b + 1));
        assert(verts.skip(a).skip(b - a) =~= verts.skip(b));
        assert(eix.skip(a).skip(b - a) =~= eix.skip(b));
        assert(v2.take(a + 1) =~= verts.take(a + 1));
        assert(e2.take(a) =~= eix.take(a));
        assert(v2.skip(a) =~= verts.skip(b));
        assert(e2.skip(a) =~= eix.skip(b));
        lemma_walk_cost_nonneg(
            g,
            verts.skip(a).take(b - a + 1),
            eix.skip(a).take(b - a),
        );
        assert(walk_cost(g, v2, e2) <= walk_cost(g, verts, eix));
        lemma_walk_cut(g, v2, e2);
        let (v3, e3) = choose|v3: Seq<usize>, e3: Seq<int>|
            #[trigger] walk_ok(g, v3, e3) && v3.first() == v2.first() && v3.last() == v2.last()
                && v3.no_duplicates() && walk_cost(g, v3, e3) <= walk_cost(g, v2, e2);
        assert(walk_ok(g, v3, e3) && v3.first() == verts.first() && v3.last() == verts.last()
            && v3.no_duplicates() && walk_cost(g, v3, e3) <= walk_cost(g, verts, eix));
    }
}

/// The traversal's contract: the winner is reachable from the start within
/// the budget, and no vertex reachable within the budget has strictly fewer
/// neighbors.
pub proof fn lemma_dfs_winner_optimal(g: Seq<PointModel>, start: usize, maxcost: int, v: usize)
    requires
        graph_wf(g),
        (start as int) < g.len(),
        maxcost >= 0,
        reachable_within(g, start, v, maxcost),
    ensures
        deg_of(g, spec_dfs(g, start, maxcost, 0, Set::empty()).0) <= deg_of(g, v),
{
    let (verts, eix) = choose|verts: Seq<usize>, eix: Seq<int>|
        #[trigger] walk_ok(g, verts, eix) && verts.first() == start && verts.last() == v
            && walk_cost(g, verts, eix) <= maxcost;
    lemma_walk_cut(g, verts, eix);
    let (v2, e2) = choose|v2: Seq<usize>, e2: Seq<int>|
        #[trigger] walk_ok(g, v2, e2) && v2.first() == verts.first() && v2.last() == verts.last()
            && v2.no_duplicates() && walk_cost(g, v2, e2) <= walk_cost(g, verts, eix);
    lemma_dfs_winner_minimal(g, start, maxcost, v2, e2);
}

/// The winning vertex of a traversal is itself reachable from the start
/// within the budget.
pub proof fn lemma_dfs_winner_reachable(g: Seq<PointModel>, start: usize, maxcost: int)
    requires
        graph_wf(g),
        (start as int) < g.len(),
        maxcost >= 0,
    ensures
        reachable_within(g, start, spec_dfs(g, start, maxcost, 0, Set::empty()).0, maxcost),
{
    assert(Set::<usize>::empty().subset_of(below(g.len() as int)));
    lemma_dfs_minimal(g, start, maxcost, 0, Set::empty());
    lemma_dfs_entered_reachable(g, start, maxcost, 0, Set::empty());
}

/// Transient bookkeeping of which vertices a traversal touched, for
/// diagnostics only. Each concurrent traversal uses its own instance.
pub struct VisitTracker {
    pub visited: HashSet<usize>,
}

impl View for VisitTracker {
    type V = Set<usize>;

    open spec fn view(&self) -> Set<usize> {
        self.visited@
    }
}

impl VisitTracker {
    /// An empty tracker.
    pub fn new() -> (t: VisitTracker)
        ensures
            t@ == Set::<usize>::empty(),
    {
        VisitTracker { visited: HashSet::new() }
    }

    /// Record that a vertex was touched.
    pub fn record(&mut self, v: usize)
        ensures
            final(self)@ == old(self)@.insert(v),
    {
        let _ = self.visited.insert(v);
    }

    /// The number of distinct vertices recorded since the last reset.
    pub fn count(&self) -> (n: usize)
        ensures
            n == self@.len(),
    {
        self.visited.len()
    }

    /// Forget everything recorded, so an unrelated traversal starts clean.
    pub fn clear(&mut self)
        ensures
            final(self)@ == Set::<usize>::empty(),
    {
        self.visited = HashSet::new();
    }
}

/// A cleared tracker reports a count of zero: `clear` leaves the empty view,
/// and `count` returns that view's size.
pub proof fn lemma_cleared_tracker_counts_zero(t: VisitTracker)
    requires
        t@ == Set::<usize>::empty(),
    ensures
        t@.len() == 0,
{
}

/// A weighted bi-directional graph.
#[derive(Debug)]
pub struct WBDGraph {
    pub points: Vec<GeoPoint>,
}

impl View for WBDGraph {
    type V = Seq<PointModel>;

    open spec fn view(&self) -> Seq<PointModel> {
        self.points@.map_values(|p: GeoPoint| p@)
    }
}

impl WBDGraph {
    /// An empty graph.
    pub fn new() -> (g: WBDGraph)
        ensures
            g@ == Seq::<PointModel>::empty(),
            g.points@.len() == 0,
    {
        let g = WBDGraph { points: Vec::new() };
        proof {
            assert(g@ =~= Seq::<PointModel>::empty());
        }
        g
    }

    /// All the points.
    pub fn points(&self) -> (r: &Vec<GeoPoint>)
        ensures
            r@ == self.points@,
            r@.map_values(|p: GeoPoint| p@) == self@,
    {
        &self.points
    }

    /// The reachable vertex with the fewest neighbors: among the vertices
    /// reachable from `node` along a cycle-free path whose cumulative edge
    /// weight, counted from `currdepth`, stays within `maxdepth`, returns the
    /// first-found one of minimum degree; `tracker` receives every vertex the
    /// search entered.
    pub fn dfs_maxdepth_minneighbors(
        &self,
        node: usize,
        maxdepth: usize,
        currdepth: usize,
        tracker: &mut VisitTracker,
    ) -> (r: usize)
        requires
            graph_wf(self@),
            (node as int) < self@.len(),
        ensures
            (r as int) < self@.len(),
            r == spec_dfs(self@, node, maxdepth as int, currdepth as int, Set::empty()).0,
            final(tracker)@ == old(tracker)@.union(
                spec_dfs(self@, node, maxdepth as int, currdepth as int, Set::empty()).1,
            ),
    {
        let n = self.points.len();
        let mut onpath: Vec<bool> = Vec::new();
        while onpath.len() < n
            invariant
                onpath@.len() <= n,
                forall|k: int| 0 <= k < onpath@.len() ==> !onpath@[k],
            decreases n - onpath.len(),
        {
            onpath.push(false);
        }
        proof {
            assert(path_of(onpath@) =~= Set::<usize>::empty());
        }
        self.dfs_worker(node, maxdepth, currdepth, &mut onpath, tracker)
    }

    /// Recursive worker: `onpath` marks the vertices on the current path.
    #[verifier::loop_isolation(false)]
    fn dfs_worker(
        &self,
        node: usize,
        maxcost: usize,
        curcost: usize,
        onpath: &mut Vec<bool>,
        tracker: &mut VisitTracker,
    ) -> (r: usize)
        requires
            graph_wf(self@),
            (node as int) < self@.len(),
            old(onpath)@.len() == self@.len(),
            !old(onpath)@[node as int],
        ensures
            final(onpath)@ == old(onpath)@,
            (r as int) < self@.len(),
            r == spec_dfs(
                self@,
                node,
                maxcost as int,
                curcost as int,
                path_of(old(onpath)@),
            ).0,
            final(tracker)@ == old(tracker)@.union(
                spec_dfs(self@, node, maxcost as int, curcost as int, path_of(old(onpath)@)).1,
            ),
        decreases self@.len() - path_of(old(onpath)@).len(),
    {
        let ghost g = self@;
        let ghost path0 = path_of(old(onpath)@);
        let ghost mc = maxcost as int;
        let ghost cc = curcost as int;
        let ghost t0 = old(tracker)@;
        proof {
            lemma_path_of(old(onpath)@);
        }
        tracker.record(node);
        let deg = self.points[node].neighbors.len();
        proof {
            assert(wf_at(g, node as int));
        }
        if deg == 0 {
            proof {
                assert(spec_dfs(g, node, mc, cc, path0) == (node, set![node]));
                assert(tracker@ =~= t0.union(set![node]));
            }
            return node;
        }
        onpath.set(node, true);
        let ghost marked = onpath@;
        let ghost path1 = path_of(marked);
        proof {
            assert(path1 =~= path0.insert(node));
            lemma_path_of(marked);
            assert(spec_dfs(g, node, mc, cc, path0) == spec_dfs_scan(
                g,
                node,
                mc,
                cc,
                path1,
                0,
                node,
                set![node],
            ));
        }
        let mut best: usize = node;
        let mut i: usize = 0;
        let ghost mut vis: Set<usize> = set![node];
        proof {
            assert(tracker@ =~= t0.union(vis));
        }
        while i < deg
            invariant
                i <= deg,
                onpath@ == marked,
                (best as int) < g.len(),
                tracker@ == t0.union(vis),
                spec_dfs_scan(g, node, mc, cc, path1, i as int, best, vis) == spec_dfs_scan(
                    g,
                    node,
                    mc,
                    cc,
                    path1,
                    0,
                    node,
                    set![node],
                ),
            decreases deg - i,
        {
            let nb = self.points[node].neighbors[i];
            let w = self.points[node].weights[i];
            let ghost best0 = best;
            let ghost vis0 = vis;
            if curcost <= maxcost && w <= maxcost - curcost {
                if !onpath[nb] {
                    proof {
                        assert(!path1.contains(nb));
                    }
                    let cand = self.dfs_worker(nb, maxcost, curcost + w, onpath, tracker);
                    let ghost sub = spec_dfs(g, nb, mc, cc + w, path1);
                    proof {
                        vis = vis0.union(sub.1);
                        assert(tracker@ =~= t0.union(vis));
                    }
                    let cd = self.points[cand].neighbors.len();
                    let bd = self.points[best].neighbors.len();
                    if cd < bd {
                        best = cand;
                    }
                    proof {
                        assert(spec_dfs_scan(g, node, mc, cc, path1, i as int, best0, vis0)
                            == spec_dfs_scan(g, node, mc, cc, path1, i + 1, best, vis));
                    }
                } else {
                    proof {
                        assert(path1.contains(nb));
                        assert(spec_dfs_scan(g, node, mc, cc, path1, i as int, best0, vis0)
                            == spec_dfs_scan(g, node, mc, cc, path1, i + 1, best, vis));
                    }
                }
            } else {
                proof {
                    assert(cc + (w as int) > mc);
                    assert(spec_dfs_scan(g, node, mc, cc, path1, i as int, best0, vis0)
                        == spec_dfs_scan(g, node, mc, cc, path1, i + 1, best, vis));
                }
            }
            i = i + 1;
        }
        onpath.set(node, false);
        proof {
            assert(onpath@ =~= old(onpath)@);
            assert(spec_dfs_scan(g, node, mc, cc, path1, deg as int, best, vis) == (best, vis));
        }
        best
    }
}

/// Scanning neighbors that are all pruned by the budget leaves the carried
/// candidate and entered set unchanged.
proof fn lemma_scan_pruned(
    g: Seq<PointModel>,
    node: usize,
    maxcost: int,
    curcost: int,
    path: Set<usize>,
    i: int,
    best: usize,
    vis: Set<usize>,
)
    requires
        scan_ok(g, node, path, i),
        forall|j: int|
            i <= j < g[node as int].weights.len() ==> curcost + (#[trigger] g[node as int].weights[j]) > maxcost,
    ensures
        spec_dfs_scan(g, node, maxcost, curcost, path, i, best, vis) == (best, vis),
    decreases g[node as int].neighbors.len() - i,
{
    assert(wf_at(g, node as int));
    if i < g[node as int].neighbors.len() {
        lemma_scan_pruned(g, node, maxcost, curcost, path, i + 1, best, vis);
    }
}

/// A start vertex with no neighbors is an immediate, unambiguous winner,
/// whatever the budget.
pub proof fn lemma_no_neighbors_returns_start(
    g: Seq<PointModel>,
    start: usize,
    maxcost: int,
    curcost: int,
)
    requires
        graph_wf(g),
        (start as int) < g.len(),
        g[start as int].neighbors.len() == 0,
    ensures
        spec_dfs(g, start, maxcost, curcost, Set::empty()).0 == start,
{
    assert(Set::<usize>::empty().subset_of(below(g.len() as int)));
}

/// With a budget of zero and strictly positive incident edge weights, the
/// search cannot move and returns the start. (A zero-weight incident edge
/// defeats this: it can be crossed at no cost.)
pub proof fn lemma_zero_budget_returns_start(g: Seq<PointModel>, start: usize)
    requires
        graph_wf(g),
        (start as int) < g.len(),
        forall|j: int|
            0 <= j < g[start as int].weights.len() ==> (#[trigger] g[start as int].weights[j]) >= 1,
    ensures
        spec_dfs(g, start, 0, 0, Set::empty()).0 == start,
{
    let empty = Set::<usize>::empty();
    assert(empty.subset_of(below(g.len() as int)));
    if g[start as int].neighbors.len() == 0 {
    } else {
        let path1 = empty.insert(start);
        assert(path1.subset_of(below(g.len() as int)));
        lemma_scan_pruned(g, start, 0, 0, path1, 0, start, set![start]);
    }
}

/// Raising the budget never worsens the achieved minimum degree.
proof fn lemma_dfs_mono(
    g: Seq<PointModel>,
    node: usize,
    mc1: int,
    mc2: int,
    curcost: int,
    path: Set<usize>,
)
    requires
        dfs_ok(g, node, path),
        mc1 <= mc2,
    ensures
        deg_of(g, spec_dfs(g, node, mc2, curcost, path).0) <= deg_of(
            g,
            spec_dfs(g, node, mc1, curcost, path).0,
        ),
    decreases g.len() - path.len(), 0int,
{
    if g[node as int].neighbors.len() == 0 {
    } else {
        let path1 = path.insert(node);
        lemma_below(g.len() as int);
        lemma_len_subset(path1, below(g.len() as int));
        lemma_scan_mono(g, node, mc1, mc2, curcost, path1, 0, node, node, set![node], set![node]);
    }
}

proof fn lemma_scan_mono(
    g: Seq<PointModel>,
    node: usize,
    mc1: int,
    mc2: int,
    curcost: int,
    path: Set<usize>,
    i: int,
    b1: usize,
    b2: usize,
    v1: Set<usize>,
    v2: Set<usize>,
)
    requires
        scan_ok(g, node, path, i),
        (b1 as int) < g.len(),
        (b2 as int) < g.len(),
        deg_of(g, b2) <= deg_of(g, b1),
        mc1 <= mc2,
    ensures
        deg_of(g, spec_dfs_scan(g, node, mc2, curcost, path, i, b2, v2).0) <= deg_of(
            g,
            spec_dfs_scan(g, node, mc1, curcost, path, i, b1, v1).0,
        ),
    decreases g.len() - path.len(), 1 + g[node as int].neighbors.len() - i,
{
    lemma_below(g.len() as int);
    lemma_len_subset(path, below(g.len() as int));
    if i < g[node as int].neighbors.len() {
        assert(wf_at(g, node as int));
        let n = g[node as int].neighbors[i];
        let w = g[node as int].weights[i] as int;
        if curcost + w <= mc1 && !path.contains(n) {
            lemma_dfs_mono(g, n, mc1, mc2, curcost + w, path);
            lemma_dfs_valid(g, n, mc1, curcost + w, path);
            lemma_dfs_valid(g, n, mc2, curcost + w, path);
            let c1 = spec_dfs(g, n, mc1, curcost + w, path).0;
            let c2 = spec_dfs(g, n, mc2, curcost + w, path).0;
            let b1n = if deg_of(g, c1) < deg_of(g, b1) {
                c1
            } else {
                b1
            };
            let b2n = if deg_of(g, c2) < deg_of(g, b2) {
                c2
            } else {
                b2
            };
            lemma_scan_mono(
                g,
                node,
                mc1,
                mc2,
                curcost,
                path,
                i + 1,
                b1n,
                b2n,
                v1.union(spec_dfs(g, n, mc1, curcost + w, path).1),
                v2.union(spec_dfs(g, n, mc2, curcost + w, path).1),
            );
        } else if curcost + w <= mc2 && !path.contains(n) {
            lemma_dfs_valid(g, n, mc2, curcost + w, path);
            let c2 = spec_dfs(g, n, mc2, curcost + w, path).0;
            let b2n = if deg_of(g, c2) < deg_of(g, b2) {
                c2
            } else {
                b2
            };
            lemma_scan_mono(
                g,
                node,
                mc1,
                mc2,
                curcost,
                path,
                i + 1,
                b1,
                b2n,
                v1,
                v2.union(spec_dfs(g, n, mc2, curcost + w, path).1),
            );
        } else {
            lemma_scan_mono(g, node, mc1, mc2, curcost, path, i + 1, b1, b2, v1, v2);
        }
    }
}

/// Monotonicity of the traversal in its budget: for a fixed start, the degree
/// of the winner under the larger budget is at most the degree of the winner
/// under the smaller one.
pub proof fn lemma_budget_monotonic(g: Seq<PointModel>, start: usize, mc1: int, mc2: int)
    requires
        graph_wf(g),
        (start as int) < g.len(),
        mc1 <= mc2,
    ensures
        deg_of(g, spec_dfs(g, start, mc2, 0, Set::empty()).0) <= deg_of(
            g,
            spec_dfs(g, start, mc1, 0, Set::empty()).0,
        ),
{
    assert(Set::<usize>::empty().subset_of(below(g.len() as int)));
    lemma_dfs_mono(g, start, mc1, mc2, 0, Set::empty());
}

} // verus!
