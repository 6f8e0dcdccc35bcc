//! The directed graph: vertices `0..n`, each with its ordered list of outgoing edges.

use vstd::prelude::*;

verus! {

/// A vertex is the position of a row in the input.
pub type Vertex = usize;

/// The length of an edge or of a whole route.
pub type Distance = usize;

/// An edge as `(source, target, length)`.
pub type Edge = (Vertex, Vertex, Distance);

/// The outgoing edges of one vertex, in the order in which they were added.
pub type AdjacencyList = Vec<Outedge>;

/// One outgoing edge: where it leads and how long it is.
#[derive(Debug, Copy, Clone, PartialEq, Eq, Structural)]
pub struct Outedge {
    pub vertex: Vertex,
    pub length: Distance,
}

/// A directed graph held as one adjacency list per vertex.
#[derive(Debug)]
pub struct Graph {
    n: usize,
    outedges: Vec<AdjacencyList>,
}

/// Every edge of the adjacency structure `g` leads to one of its vertices.
pub open spec fn targets_in_range(g: Seq<Seq<Outedge>>) -> bool {
    forall|v: int, k: int|
        0 <= v < g.len() && 0 <= k < g[v].len() ==> (#[trigger] g[v][k]).vertex < g.len()
}

/// Every edge of the adjacency structure `g` has length zero.
pub open spec fn unweighted(g: Seq<Seq<Outedge>>) -> bool {
    forall|v: int, k: int|
        0 <= v < g.len() && 0 <= k < g[v].len() ==> (#[trigger] g[v][k]).length == 0
}

/// The edges of `edges` that leave `u`, in their order, each as an `Outedge`.
pub open spec fn outgoing(edges: Seq<Edge>, u: int) -> Seq<Outedge> {
    edges.filter(|e: Edge| e.0 == u).map_values(
        |e: Edge| Outedge { vertex: e.1, length: e.2 },
    )
}

/// Adding one edge at the end adds it to the list of its source and to no other.
pub proof fn lemma_outgoing_push(edges: Seq<Edge>, e: Edge, u: int)
    ensures
        outgoing(edges.push(e), u) == if e.0 == u {
            outgoing(edges, u).push(Outedge { vertex: e.1, length: e.2 })
        } else {
            outgoing(edges, u)
        },
{
    reveal(Seq::filter);
    let leaves = |x: Edge| x.0 == u;
    let arc = |x: Edge| Outedge { vertex: x.1, length: x.2 };
    assert(edges.push(e).drop_last() =~= edges);
    if e.0 == u {
        assert(edges.push(e).filter(leaves) == edges.filter(leaves).push(e));
        assert(edges.filter(leaves).push(e).map_values(arc) =~= edges.filter(leaves).map_values(
            arc,
        ).push(arc(e)));
    } else {
        assert(edges.push(e).filter(leaves) == edges.filter(leaves));
    }
}

impl View for Graph {
    type V = Seq<Seq<Outedge>>;

    /// The adjacency structure: entry `v` is the list of edges leaving `v`.
    closed spec fn view(&self) -> Seq<Seq<Outedge>> {
        Seq::new(self.outedges@.len(), |v: int| self.outedges@[v]@)
    }
}

impl Graph {
    /// The vertex count that the graph records.
    pub closed spec fn order(&self) -> nat {
        self.n as nat
    }

    /// The graph has one adjacency list per vertex and no edge leads outside it.
    pub open spec fn wf(&self) -> bool {
        &&& self.order() == self@.len()
        &&& targets_in_range(self@)
    }

    /// Builds the graph on `n` vertices whose edges are `edges`, each vertex keeping its
    /// outgoing edges in the order of `edges`.
    pub fn create_directed(n: usize, edges: &Vec<Edge>) -> (g: Graph)
        requires
            forall|i: int| 0 <= i < edges@.len() ==> (#[trigger] edges@[i]).0 < n && edges@[i].1 < n,
        ensures
            g.wf(),
            g@.len() == n,
            forall|u: int| 0 <= u < n ==> #[trigger] g@[u] == outgoing(edges@, u),
    {
        let mut outedges: Vec<AdjacencyList> = Vec::new();
        let mut v: usize = 0;
        while v < n
            invariant
                v <= n,
                outedges@.len() == v,
                forall|u: int| 0 <= u < v ==> (#[trigger] outedges@[u])@ == Seq::<Outedge>::empty(),
            decreases n - v,
        {
            outedges.push(Vec::new());
            v = v + 1;
        }
        proof {
            reveal(Seq::filter);
            assert forall|u: int| 0 <= u < n implies (#[trigger] outedges@[u])@ == outgoing(
                edges@.take(0),
                u,
            ) by {
                assert(outgoing(edges@.take(0), u) =~= Seq::<Outedge>::empty());
            }
        }
        let mut i: usize = 0;
        while i < edges.len()
            invariant
                i <= edges@.len(),
                outedges@.len() == n,
                forall|j: int|
                    0 <= j < edges@.len() ==> (#[trigger] edges@[j]).0 < n && edges@[j].1 < n,
                forall|u: int|
                    0 <= u < n ==> (#[trigger] outedges@[u])@ == outgoing(edges@.take(i as int), u),
            decreases edges@.len() - i,
        {
            let (u, v, length) = edges[i];
            let ghost before = outedges@;
            outedges[u].push(Outedge { vertex: v, length });
            proof {
                assert(edges@.take(i + 1) =~= edges@.take(i as int).push(edges@[i as int]));
                assert forall|w: int| 0 <= w < n implies (#[trigger] outedges@[w])@ == outgoing(
                    edges@.take(i + 1),
                    w,
                ) by {
                    lemma_outgoing_push(edges@.take(i as int), edges@[i as int], w);
                    assert(before[w]@ == outgoing(edges@.take(i as int), w));
                }
            }
            i = i + 1;
        }
        let g = Graph { n, outedges };
        proof {
            assert(edges@.take(edges@.len() as int) =~= edges@);
            assert forall|u: int| 0 <= u < n implies #[trigger] g@[u] == outgoing(edges@, u) by {}
            assert forall|w: int, k: int|
                0 <= w < g@.len() && 0 <= k < g@[w].len() implies (#[trigger] g@[w][k]).vertex
                < g@.len() by {
                lemma_outgoing_targets(edges@, w, k);
            }
        }
        g
    }

    /// The number of vertices.
    pub fn n(&self) -> (r: usize)
        requires
            self.wf(),
        ensures
            r == self@.len(),
    {
        self.n
    }

    /// The edges that leave `v`, in the order in which they were added.
    pub fn outedges(&self, v: Vertex) -> (r: &AdjacencyList)
        requires
            self.wf(),
            v < self@.len(),
        ensures
            r@ == self@[v as int],
    {
        &self.outedges[v]
    }
}

/// Each entry of `outgoing(edges, u)` comes from an edge of `edges` that leaves `u`.
pub proof fn lemma_outgoing_source(edges: Seq<Edge>, u: int, k: int) -> (i: int)
    requires
        0 <= k < outgoing(edges, u).len(),
    ensures
        0 <= i < edges.len(),
        edges[i].0 == u,
        outgoing(edges, u)[k] == (Outedge { vertex: edges[i].1, length: edges[i].2 }),
    decreases edges.len(),
{
    reveal(Seq::filter);
    if edges.len() == 0 {
        0
    } else {
        let init = edges.drop_last();
        assert(init.push(edges.last()) =~= edges);
        lemma_outgoing_push(init, edges.last(), u);
        if edges.last().0 == u && k == outgoing(init, u).len() {
            edges.len() - 1
        } else {
            lemma_outgoing_source(init, u, k)
        }
    }
}

/// Where every edge of `edges` leads below `n`, so does every entry of `outgoing(edges, u)`.
pub proof fn lemma_outgoing_targets(edges: Seq<Edge>, u: int, k: int)
    requires
        0 <= k < outgoing(edges, u).len(),
    ensures
        exists|i: int|
            0 <= i < edges.len() && outgoing(edges, u)[k].vertex == (#[trigger] edges[i]).1,
{
    let i = lemma_outgoing_source(edges, u, k);
    assert(outgoing(edges, u)[k].vertex == edges[i].1);
}

} // verus!
