//! What a route through the graph is, and what it means for a distance to be the shortest.

use crate::graph::{unweighted, Distance, Outedge};
use vstd::prelude::*;

verus! {

/// The vertex at which the route `p` from `s` ends. A route is given by the edges it
/// takes: each entry of `p` is a position in the adjacency list of the vertex reached so far.
pub open spec fn route_end(g: Seq<Seq<Outedge>>, s: int, p: Seq<int>) -> int
    decreases p.len(),
{
    if p.len() == 0 {
        s
    } else {
        g[route_end(g, s, p.drop_last())][p.last()].vertex as int
    }
}

/// `p` names a route of `g` that starts at the vertex `s`: every step takes an edge that
/// exists and leads to a vertex of `g`.
pub open spec fn is_route(g: Seq<Seq<Outedge>>, s: int, p: Seq<int>) -> bool
    decreases p.len(),
{
    if p.len() == 0 {
        0 <= s < g.len()
    } else {
        let v = route_end(g, s, p.drop_last());
        &&& is_route(g, s, p.drop_last())
        &&& 0 <= p.last() < g[v].len()
        &&& g[v][p.last()].vertex < g.len()
    }
}

/// The sum of the lengths of the edges that the route `p` from `s` takes.
pub open spec fn route_length(g: Seq<Seq<Outedge>>, s: int, p: Seq<int>) -> nat
    decreases p.len(),
{
    if p.len() == 0 {
        0
    } else {
        (route_length(g, s, p.drop_last()) + g[route_end(g, s, p.drop_last())][p.last()].length) as nat
    }
}

/// `p` is a route from `s` to `u` of length `d`.
pub open spec fn joins(g: Seq<Seq<Outedge>>, s: int, u: int, d: int, p: Seq<int>) -> bool {
    is_route(g, s, p) && route_end(g, s, p) == u && route_length(g, s, p) == d
}

/// Some route from `s` to `u` has length `d`.
pub open spec fn reaches(g: Seq<Seq<Outedge>>, s: int, u: int, d: int) -> bool {
    exists|p: Seq<int>| joins(g, s, u, d, p)
}

/// Some route leads from `s` to `u`.
pub open spec fn reachable(g: Seq<Seq<Outedge>>, s: int, u: int) -> bool {
    exists|d: int| reaches(g, s, u, d)
}

/// `d` is the length of a route from `s` to `u`, and no route from `s` to `u` is shorter.
pub open spec fn is_distance(g: Seq<Seq<Outedge>>, s: int, u: int, d: int) -> bool {
    reaches(g, s, u, d) && forall|e: int| reaches(g, s, u, e) ==> d <= e
}

/// The label of `u` is right: the shortest distance from `s` if there is a route, nothing
/// if there is none.
pub open spec fn label_exact(g: Seq<Seq<Outedge>>, s: int, u: int, label: Option<Distance>) -> bool {
    match label {
        Some(d) => is_distance(g, s, u, d as int),
        None => !reachable(g, s, u),
    }
}

/// `labels` holds, for every vertex of `g`, its shortest distance from `s`, or nothing
/// where no route leads there.
pub open spec fn is_shortest(g: Seq<Seq<Outedge>>, s: int, labels: Seq<Option<Distance>>) -> bool {
    &&& labels.len() == g.len()
    &&& forall|u: int| 0 <= u < g.len() ==> label_exact(g, s, u, #[trigger] labels[u])
}

/// Every shortest distance from `s` can be held in a `Distance`.
pub open spec fn distances_fit(g: Seq<Seq<Outedge>>, s: int) -> bool {
    forall|u: int, d: int| #[trigger] is_distance(g, s, u, d) ==> d <= usize::MAX
}

/// A route ends at a vertex of the graph.
pub proof fn lemma_route_end_in_range(g: Seq<Seq<Outedge>>, s: int, p: Seq<int>)
    requires
        is_route(g, s, p),
    ensures
        0 <= route_end(g, s, p) < g.len(),
{
}

/// The route without steps leads from a vertex to itself and has length zero.
pub proof fn lemma_reaches_start(g: Seq<Seq<Outedge>>, s: int)
    requires
        0 <= s < g.len(),
    ensures
        reaches(g, s, s, 0),
{
    assert(joins(g, s, s, 0, Seq::<int>::empty()));
}

/// A route to `v` followed by an edge that leaves `v` is a route to that edge's target,
/// longer by the edge's length.
pub proof fn lemma_reaches_step(g: Seq<Seq<Outedge>>, s: int, v: int, d: int, k: int)
    requires
        reaches(g, s, v, d),
        0 <= k < g[v].len(),
        g[v][k].vertex < g.len(),
    ensures
        reaches(g, s, g[v][k].vertex as int, d + g[v][k].length),
{
    let p = choose|p: Seq<int>| joins(g, s, v, d, p);
    let q = p.push(k);
    assert(q.drop_last() =~= p);
    assert(joins(g, s, g[v][k].vertex as int, d + g[v][k].length, q));
}

/// Where some route from `s` to `u` has length `e`, a shortest distance exists and is at
/// most `e`.
pub proof fn lemma_least_distance(g: Seq<Seq<Outedge>>, s: int, u: int, e: int) -> (d: int)
    requires
        reaches(g, s, u, e),
    ensures
        d <= e,
        is_distance(g, s, u, d),
    decreases e,
{
    if exists|f: int| f < e && reaches(g, s, u, f) {
        let f = choose|f: int| f < e && reaches(g, s, u, f);
        lemma_least_distance(g, s, u, f)
    } else {
        e
    }
}

/// Where every edge has length zero, so has every route.
pub proof fn lemma_unweighted_route(g: Seq<Seq<Outedge>>, s: int, p: Seq<int>)
    requires
        unweighted(g),
        is_route(g, s, p),
    ensures
        route_length(g, s, p) == 0,
    decreases p.len(),
{
    if p.len() > 0 {
        lemma_unweighted_route(g, s, p.drop_last());
        lemma_route_end_in_range(g, s, p.drop_last());
    }
}

/// Where every edge has length zero, every shortest distance can be held.
pub proof fn lemma_unweighted_fits(g: Seq<Seq<Outedge>>, s: int)
    requires
        unweighted(g),
    ensures
        distances_fit(g, s),
{
    assert forall|u: int, d: int| #[trigger] is_distance(g, s, u, d) implies d <= usize::MAX by {
        let p = choose|p: Seq<int>| joins(g, s, u, d, p);
        lemma_unweighted_route(g, s, p);
    }
}

/// A vertex has at most one shortest distance.
pub proof fn lemma_distance_unique(g: Seq<Seq<Outedge>>, s: int, u: int, d: int, e: int)
    requires
        is_distance(g, s, u, d),
        is_distance(g, s, u, e),
    ensures
        d == e,
{
}

/// The start vertex is at distance zero from itself.
pub proof fn lemma_self_distance(g: Seq<Seq<Outedge>>, s: int, labels: Seq<Option<Distance>>)
    requires
        is_shortest(g, s, labels),
        0 <= s < g.len(),
    ensures
        labels[s] == Some(0usize),
{
    lemma_reaches_start(g, s);
    assert(label_exact(g, s, s, labels[s]));
    assert(reachable(g, s, s));
}

/// The empty graph has no distances to give.
pub proof fn lemma_empty_graph(s: int, labels: Seq<Option<Distance>>)
    requires
        is_shortest(Seq::<Seq<Outedge>>::empty(), s, labels),
    ensures
        labels == Seq::<Option<Distance>>::empty(),
{
    assert(labels =~= Seq::<Option<Distance>>::empty());
}

/// An edge cannot be a shortcut: where `v` has a distance, the target of each edge that
/// leaves `v` has one too, and it is at most the distance of `v` plus the edge's length.
pub proof fn lemma_triangle(
    g: Seq<Seq<Outedge>>,
    s: int,
    labels: Seq<Option<Distance>>,
    v: int,
    k: int,
)
    requires
        is_shortest(g, s, labels),
        0 <= v < g.len(),
        0 <= k < g[v].len(),
        g[v][k].vertex < g.len(),
        labels[v] is Some,
    ensures
        labels[g[v][k].vertex as int] is Some,
        labels[g[v][k].vertex as int]->Some_0 <= labels[v]->Some_0 + g[v][k].length,
{
    let u = g[v][k].vertex as int;
    let d = labels[v]->Some_0 as int;
    assert(label_exact(g, s, v, labels[v]));
    assert(label_exact(g, s, u, labels[u]));
    lemma_reaches_step(g, s, v, d, k);
    assert(reachable(g, s, u));
}

/// The shortest distances are determined by the graph and the start vertex: two
/// labellings that both hold them are equal.
pub proof fn lemma_shortest_unique(
    g: Seq<Seq<Outedge>>,
    s: int,
    a: Seq<Option<Distance>>,
    b: Seq<Option<Distance>>,
)
    requires
        is_shortest(g, s, a),
        is_shortest(g, s, b),
    ensures
        a == b,
{
    assert forall|u: int| 0 <= u < a.len() implies a[u] == b[u] by {
        assert(label_exact(g, s, u, a[u]));
        assert(label_exact(g, s, u, b[u]));
        match (a[u], b[u]) {
            (Some(x), Some(y)) => {
                lemma_distance_unique(g, s, u, x as int, y as int);
            },
            (Some(x), None) => {
                assert(reaches(g, s, u, x as int));
            },
            (None, Some(y)) => {
                assert(reaches(g, s, u, y as int));
            },
            (None, None) => {},
        }
    }
    assert(a =~= b);
}

} // verus!
