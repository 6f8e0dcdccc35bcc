//! The shortest-path engine: relaxation driven by a frontier ordered by distance.

use crate::error::GraphError;
use crate::frontier::{Entry, Frontier};
use crate::graph::{Distance, Graph, Outedge, Vertex};
use crate::paths::{
    distances_fit, is_distance, is_route, is_shortest, joins, label_exact, lemma_least_distance,
    lemma_reaches_start, lemma_reaches_step, lemma_route_end_in_range, reachable, reaches,
    route_end, route_length,
};
use vstd::multiset::Multiset;
use vstd::prelude::*;

verus! {

/// What a label counts for in the measure of the work that is left: its distance, or
/// more than any distance where the vertex has none yet.
spec fn weight(label: Option<Distance>) -> nat {
    match label {
        Some(x) => x as nat,
        None => usize::MAX as nat + 1,
    }
}

/// The sum of the weights of all labels. Every improvement of a label lowers it.
spec fn slack(labels: Seq<Option<Distance>>) -> nat
    decreases labels.len(),
{
    if labels.len() == 0 {
        0
    } else {
        slack(labels.drop_last()) + weight(labels.last())
    }
}

proof fn lemma_slack_lowered(labels: Seq<Option<Distance>>, i: int, c: Distance)
    requires
        0 <= i < labels.len(),
        weight(Some(c)) < weight(labels[i]),
    ensures
        slack(labels.update(i, Some(c))) < slack(labels),
    decreases labels.len(),
{
    let lowered = labels.update(i, Some(c));
    if i == labels.len() - 1 {
        assert(lowered.drop_last() =~= labels.drop_last());
    } else {
        assert(lowered.drop_last() =~= labels.drop_last().update(i, Some(c)));
        lemma_slack_lowered(labels.drop_last(), i, c);
    }
}

/// Every label is the length of some route from `s`.
spec fn sound(g: Seq<Seq<Outedge>>, s: int, labels: Seq<Option<Distance>>) -> bool {
    &&& labels.len() == g.len()
    &&& forall|u: int|
        0 <= u < g.len() ==> ((#[trigger] labels[u]) matches Some(x) ==> reaches(g, s, u, x as int))
}

/// Every entry of the frontier belongs to a vertex whose label is no larger.
spec fn entries_known(labels: Seq<Option<Distance>>, pq: Multiset<Entry>) -> bool {
    forall|e: Entry| #[trigger]
        pq.count(e) > 0 ==> e.1 < labels.len() && (labels[e.1 as int] matches Some(x) && x
            <= e.0)
}

/// The edge at position `k` of `w` offers its target nothing better than the target has.
spec fn edge_relaxed(g: Seq<Seq<Outedge>>, labels: Seq<Option<Distance>>, w: int, k: int) -> bool {
    labels[w] matches Some(x) ==> {
        let e = g[w][k];
        x + e.length > usize::MAX || (labels[e.vertex as int] matches Some(y) && y <= x
            + e.length)
    }
}

/// The first `m` edges of `w` are relaxed.
spec fn relaxed_upto(g: Seq<Seq<Outedge>>, labels: Seq<Option<Distance>>, w: int, m: int) -> bool {
    forall|k: int| 0 <= k < m ==> #[trigger] edge_relaxed(g, labels, w, k)
}

/// Nothing is owed to `w`: it has no label, or it waits in the frontier under its label,
/// or all its edges are relaxed.
spec fn tended(
    g: Seq<Seq<Outedge>>,
    labels: Seq<Option<Distance>>,
    pq: Multiset<Entry>,
    w: int,
) -> bool {
    match labels[w] {
        None => true,
        Some(x) => pq.count((x, w as usize)) > 0 || relaxed_upto(g, labels, w, g[w].len() as int),
    }
}

/// With an empty frontier, every route that is short enough to be held in a label ends
/// at a vertex whose label is at most the route's length.
proof fn lemma_covered(
    g: Seq<Seq<Outedge>>,
    s: int,
    labels: Seq<Option<Distance>>,
    pq: Multiset<Entry>,
    p: Seq<int>,
)
    requires
        sound(g, s, labels),
        labels[s] == Some(0usize),
        pq.len() == 0,
        forall|w: int| 0 <= w < g.len() ==> tended(g, labels, pq, w),
        is_route(g, s, p),
        route_length(g, s, p) <= usize::MAX,
    ensures
        labels[route_end(g, s, p)] matches Some(y) && y <= route_length(g, s, p),
    decreases p.len(),
{
    broadcast use vstd::multiset::group_multiset_axioms;

    if p.len() > 0 {
        let q = p.drop_last();
        lemma_covered(g, s, labels, pq, q);
        lemma_route_end_in_range(g, s, q);
        let v = route_end(g, s, q);
        assert(tended(g, labels, pq, v));
        assert(edge_relaxed(g, labels, v, p.last()));
    }
}

/// With an empty frontier and nothing owed to any vertex, the labels are the shortest
/// distances.
proof fn lemma_settled(
    g: Seq<Seq<Outedge>>,
    s: int,
    labels: Seq<Option<Distance>>,
    pq: Multiset<Entry>,
)
    requires
        sound(g, s, labels),
        0 <= s < g.len(),
        labels[s] == Some(0usize),
        pq.len() == 0,
        forall|w: int| 0 <= w < g.len() ==> tended(g, labels, pq, w),
        distances_fit(g, s),
    ensures
        is_shortest(g, s, labels),
{
    assert forall|u: int| 0 <= u < g.len() implies label_exact(g, s, u, #[trigger] labels[u]) by {
        match labels[u] {
            Some(x) => {
                assert forall|e: int| reaches(g, s, u, e) implies x <= e by {
                    if e <= usize::MAX {
                        let p = choose|p: Seq<int>| joins(g, s, u, e, p);
                        lemma_covered(g, s, labels, pq, p);
                    }
                }
            },
            None => {
                if reachable(g, s, u) {
                    let e = choose|e: int| reaches(g, s, u, e);
                    let d = lemma_least_distance(g, s, u, e);
                    assert(is_distance(g, s, u, d));
                    let p = choose|p: Seq<int>| joins(g, s, u, d, p);
                    lemma_covered(g, s, labels, pq, p);
                }
            },
        }
    }
}

/// Relaxes every edge that leaves `v`, whose label is `d`: a target that the edge reaches
/// on a shorter way than its label tells gets the shorter distance and joins the frontier.
fn relax(
    graph: &Graph,
    start: Vertex,
    labels: &mut Vec<Option<Distance>>,
    pq: &mut Frontier,
    d: Distance,
    v: Vertex,
)
    requires
        graph.wf(),
        start < graph@.len(),
        v < graph@.len(),
        old(pq).wf(),
        sound(graph@, start as int, old(labels)@),
        old(labels)@[start as int] == Some(0usize),
        old(labels)@[v as int] == Some(d),
        entries_known(old(labels)@, old(pq)@),
        forall|w: int|
            0 <= w < graph@.len() && w != v ==> tended(graph@, old(labels)@, old(pq)@, w),
    ensures
        final(pq).wf(),
        sound(graph@, start as int, final(labels)@),
        final(labels)@[start as int] == Some(0usize),
        entries_known(final(labels)@, final(pq)@),
        forall|w: int| 0 <= w < graph@.len() ==> tended(graph@, final(labels)@, final(pq)@, w),
        slack(final(labels)@) <= slack(old(labels)@),
        slack(final(labels)@) == slack(old(labels)@) ==> final(pq)@.len() == old(pq)@.len(),
{
    let edges = graph.outedges(v);
    let mut k: usize = 0;
    while k < edges.len()
        invariant
            k <= edges@.len(),
            edges@ == graph@[v as int],
            graph.wf(),
            start < graph@.len(),
            v < graph@.len(),
            pq.wf(),
            sound(graph@, start as int, labels@),
            labels@[start as int] == Some(0usize),
            labels@[v as int] == Some(d),
            entries_known(labels@, pq@),
            forall|w: int| 0 <= w < graph@.len() && w != v ==> tended(graph@, labels@, pq@, w),
            relaxed_upto(graph@, labels@, v as int, k as int),
            slack(labels@) <= slack(old(labels)@),
            slack(labels@) == slack(old(labels)@) ==> pq@.len() == old(pq)@.len(),
        decreases edges@.len() - k,
    {
        let edge = edges[k];
        let u = edge.vertex;
        assert(graph@[v as int][k as int] == edge);
        assert(u < graph@.len());
        if edge.length <= usize::MAX - d {
            let candidate: Distance = d + edge.length;
            let better = match labels[u] {
                None => true,
                Some(y) => candidate < y,
            };
            if better {
                let ghost before = labels@;
                let ghost waiting = pq@;
                labels[u] = Some(candidate);
                pq.push((candidate, u));
                proof {
                    broadcast use vstd::multiset::group_multiset_axioms;

                    let g = graph@;
                    lemma_reaches_step(g, start as int, v as int, d as int, k as int);
                    lemma_slack_lowered(before, u as int, candidate);
                    assert(labels@ == before.update(u as int, Some(candidate)));
                    assert forall|w: int, j: int|
                        0 <= w < g.len() && 0 <= j < g[w].len() && w != u && edge_relaxed(
                            g,
                            before,
                            w,
                            j,
                        ) implies #[trigger] edge_relaxed(g, labels@, w, j) by {
                        assert(g[w][j].vertex < g.len());
                    }
                    assert forall|w: int| 0 <= w < g.len() && w != v implies tended(
                        g,
                        labels@,
                        pq@,
                        w,
                    ) by {
                        assert(tended(g, before, waiting, w));
                        if w != u {
                            if let Some(x) = before[w] {
                                if waiting.count((x, w as usize)) == 0 {
                                    assert(relaxed_upto(g, before, w, g[w].len() as int));
                                    assert(relaxed_upto(g, labels@, w, g[w].len() as int));
                                }
                            }
                        }
                    }
                    assert(relaxed_upto(g, before, v as int, k as int));
                    assert(relaxed_upto(g, labels@, v as int, k as int + 1));
                    assert forall|e: Entry| #[trigger] pq@.count(e) > 0 implies e.1 < labels@.len()
                        && (labels@[e.1 as int] matches Some(x) && x <= e.0) by {
                        if e != (candidate, u) {
                            assert(waiting.count(e) > 0);
                        }
                    }
                }
            } else {
                assert(edge_relaxed(graph@, labels@, v as int, k as int));
            }
        } else {
            assert(edge_relaxed(graph@, labels@, v as int, k as int));
        }
        k = k + 1;
    }
}

/// Computes, for every vertex of `graph`, the length of a shortest route from `start`,
/// or nothing where no route leads there. Fails with `InvalidStart` where `start` is no
/// vertex of the graph, which is always so when the graph is empty.
pub fn shortest_paths(graph: &Graph, start: Vertex) -> (r: Result<Vec<Option<Distance>>, GraphError>)
    requires
        graph.wf(),
        distances_fit(graph@, start as int),
    ensures
        r is Ok <==> start < graph@.len(),
        r is Err ==> r == Err::<Vec<Option<Distance>>, GraphError>(GraphError::InvalidStart),
        r matches Ok(labels) ==> is_shortest(graph@, start as int, labels@) && labels@[start as int]
            == Some(0usize),
{
    let n = graph.n();
    if start >= n {
        return Err(GraphError::InvalidStart);
    }
    let mut labels: Vec<Option<Distance>> = Vec::new();
    let mut i: usize = 0;
    while i < n
        invariant
            i <= n,
            labels@.len() == i,
            forall|u: int| 0 <= u < i ==> (#[trigger] labels@[u]) is None,
        decreases n - i,
    {
        labels.push(None);
        i = i + 1;
    }
    labels[start] = Some(0);
    let mut pq = Frontier::new();
    pq.push((0, start));
    proof {
        broadcast use vstd::multiset::group_multiset_axioms;

        lemma_reaches_start(graph@, start as int);
    }
    loop
        invariant_except_break
            pq.wf(),
        invariant
            graph.wf(),
            start < graph@.len(),
            distances_fit(graph@, start as int),
            sound(graph@, start as int, labels@),
            labels@[start as int] == Some(0usize),
            entries_known(labels@, pq@),
            forall|w: int| 0 <= w < graph@.len() ==> tended(graph@, labels@, pq@, w),
        ensures
            pq@.len() == 0,
        decreases slack(labels@), pq@.len(),
    {
        let ghost waiting = pq@;
        match pq.pop() {
            None => {
                break ;
            },
            Some((d, v)) => {
                proof {
                    broadcast use vstd::multiset::group_multiset_axioms;

                    assert(waiting.count((d, v)) > 0);
                    assert(pq@.len() == waiting.len() - 1);
                    assert forall|e: Entry| pq@.count(e) > 0 implies #[trigger] waiting.count(e)
                        > 0 by {}
                }
                let fresh = match labels[v] {
                    Some(x) => d <= x,
                    None => false,
                };
                if fresh {
                    proof {
                        broadcast use vstd::multiset::group_multiset_axioms;

                        assert forall|w: int| 0 <= w < graph@.len() && w != v implies tended(
                            graph@,
                            labels@,
                            pq@,
                            w,
                        ) by {
                            assert(tended(graph@, labels@, waiting, w));
                        }
                    }
                    relax(graph, start, &mut labels, &mut pq, d, v);
                } else {
                    proof {
                        broadcast use vstd::multiset::group_multiset_axioms;

                        assert forall|w: int| 0 <= w < graph@.len() implies tended(
                            graph@,
                            labels@,
                            pq@,
                            w,
                        ) by {
                            assert(tended(graph@, labels@, waiting, w));
                        }
                    }
                }
            },
        }
    }
    proof {
        lemma_settled(graph@, start as int, labels@, pq@);
    }
    Ok(labels)
}

/// Computes the shortest distances from vertex `0`. On the empty graph, which has no
/// vertex to start from, the result is empty.
pub fn dijkstra(graph: Graph) -> (labels: Vec<Option<Distance>>)
    requires
        graph.wf(),
        distances_fit(graph@, 0),
    ensures
        is_shortest(graph@, 0, labels@),
        graph@.len() > 0 ==> labels@[0] == Some(0usize),
{
    match shortest_paths(&graph, 0) {
        Ok(labels) => labels,
        Err(_) => Vec::new(),
    }
}

} // verus!
