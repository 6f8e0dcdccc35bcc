//! A test on the edge lengths that makes sure that every distance can be held.

use crate::graph::{Graph, Outedge};
use crate::paths::{
    distances_fit, is_distance, is_route, joins, lemma_route_end_in_range, reaches, route_end,
    route_length,
};
use vstd::prelude::*;

verus! {

/// No edge is so long that one such edge for each vertex would exceed what a distance
/// can hold.
pub open spec fn lengths_bounded(g: Seq<Seq<Outedge>>) -> bool {
    forall|v: int, k: int|
        0 <= v < g.len() && 0 <= k < g[v].len() ==> g.len() * (#[trigger] g[v][k]).length
            <= usize::MAX
}

/// A route made of two parts ends where the second part ends, and is as long as both.
pub proof fn lemma_route_joined(g: Seq<Seq<Outedge>>, s: int, a: Seq<int>, b: Seq<int>)
    ensures
        route_end(g, s, a + b) == route_end(g, route_end(g, s, a), b),
        route_length(g, s, a + b) == route_length(g, s, a) + route_length(
            g,
            route_end(g, s, a),
            b,
        ),
        is_route(g, s, a + b) <==> is_route(g, s, a) && is_route(g, route_end(g, s, a), b),
    decreases b.len(),
{
    if b.len() == 0 {
        assert(a + b =~= a);
        if is_route(g, s, a) {
            lemma_route_end_in_range(g, s, a);
        }
    } else {
        assert((a + b).drop_last() =~= a + b.drop_last());
        assert((a + b).last() == b.last());
        lemma_route_joined(g, s, a, b.drop_last());
    }
}

/// More values than `n`, all of them below `n`, hold some value twice.
pub proof fn lemma_repeated(values: Seq<int>, n: int) -> (r: (int, int))
    requires
        0 <= n < values.len(),
        forall|i: int| 0 <= i < values.len() ==> 0 <= #[trigger] values[i] < n,
    ensures
        0 <= r.0 < r.1 < values.len(),
        values[r.0] == values[r.1],
{
    if values.no_duplicates() {
        values.unique_seq_to_set();
        vstd::set_lib::lemma_int_range(0, n);
        assert(values.to_set().subset_of(vstd::set_lib::set_int_range(0, n))) by {
            assert forall|x: int| values.to_set().contains(x) implies vstd::set_lib::set_int_range(
                0,
                n,
            ).contains(x) by {
                let i = choose|i: int| 0 <= i < values.len() && values[i] == x;
                assert(0 <= values[i] < n);
            }
        }
        vstd::set_lib::lemma_len_subset(values.to_set(), vstd::set_lib::set_int_range(0, n));
        (0, 0)
    } else {
        let (i, j) = choose|i: int, j: int|
            0 <= i < values.len() && 0 <= j < values.len() && i != j && values[i] == values[j];
        if i < j {
            (i, j)
        } else {
            (j, i)
        }
    }
}

/// For every route there is one to the same vertex that is no longer and takes fewer
/// steps than the graph has vertices.
pub proof fn lemma_short_route(g: Seq<Seq<Outedge>>, s: int, p: Seq<int>) -> (q: Seq<int>)
    requires
        is_route(g, s, p),
    ensures
        is_route(g, s, q),
        route_end(g, s, q) == route_end(g, s, p),
        route_length(g, s, q) <= route_length(g, s, p),
        q.len() < g.len(),
    decreases p.len(),
{
    if p.len() < g.len() {
        p
    } else {
        let visited = Seq::new(p.len() + 1, |i: int| route_end(g, s, p.take(i)));
        assert forall|i: int| 0 <= i < visited.len() implies 0 <= #[trigger] visited[i]
            < g.len() by {
            assert(p.take(i) + p.skip(i) =~= p);
            lemma_route_joined(g, s, p.take(i), p.skip(i));
            lemma_route_end_in_range(g, s, p.take(i));
        }
        let (i, j) = lemma_repeated(visited, g.len() as int);
        let head = p.take(i);
        let tail = p.skip(j);
        let middle = p.subrange(i, j);
        assert(p.take(j) + tail =~= p);
        assert(head + middle =~= p.take(j));
        lemma_route_joined(g, s, p.take(j), tail);
        lemma_route_joined(g, s, head, middle);
        lemma_route_joined(g, s, head, tail);
        assert(visited[i] == route_end(g, s, head));
        assert(visited[j] == route_end(g, s, p.take(j)));
        lemma_short_route(g, s, head + tail)
    }
}

/// Under the bound on the edge lengths, a route is at most as long as its steps allow.
pub proof fn lemma_route_bounded(g: Seq<Seq<Outedge>>, s: int, p: Seq<int>)
    requires
        lengths_bounded(g),
        is_route(g, s, p),
    ensures
        g.len() * route_length(g, s, p) <= p.len() * usize::MAX,
    decreases p.len(),
{
    if p.len() > 0 {
        let init = p.drop_last();
        lemma_route_bounded(g, s, init);
        lemma_route_end_in_range(g, s, init);
        let v = route_end(g, s, init);
        let step = g[v][p.last()].length as int;
        let n = g.len() as int;
        let before = route_length(g, s, init) as int;
        let steps = init.len() as int;
        let top = usize::MAX as int;
        assert(n * step <= top);
        assert(n * (before + step) <= (steps + 1) * top) by (nonlinear_arith)
            requires
                n * before <= steps * top,
                n * step <= top,
        ;
    } else {
        assert(g.len() * 0 == 0) by (nonlinear_arith);
        assert(0 * usize::MAX == 0) by (nonlinear_arith);
    }
}

/// Under the bound on the edge lengths, every shortest distance can be held.
pub proof fn lemma_bounded_fits(g: Seq<Seq<Outedge>>, s: int)
    requires
        lengths_bounded(g),
    ensures
        distances_fit(g, s),
{
    assert forall|u: int, d: int| #[trigger] is_distance(g, s, u, d) implies d <= usize::MAX by {
        let p = choose|p: Seq<int>| joins(g, s, u, d, p);
        let q = lemma_short_route(g, s, p);
        lemma_route_bounded(g, s, q);
        let length = route_length(g, s, q) as int;
        assert(joins(g, s, u, length, q));
        assert(reaches(g, s, u, length));
        assert(d <= length);
        let n = g.len() as int;
        let steps = q.len() as int;
        let top = usize::MAX as int;
        assert(length <= top) by (nonlinear_arith)
            requires
                n * length <= steps * top,
                0 <= steps < n,
                0 <= top,
                0 <= length,
        ;
    }
}

impl Graph {
    /// Whether the edge lengths keep the bound under which every distance can be held.
    pub fn lengths_fit(&self) -> (r: bool)
        requires
            self.wf(),
        ensures
            r == lengths_bounded(self@),
            r ==> forall|s: int| distances_fit(self@, s),
    {
        let n = self.n();
        let mut v: usize = 0;
        while v < n
            invariant
                self.wf(),
                n == self@.len(),
                v <= n,
                forall|w: int, k: int|
                    0 <= w < v && 0 <= k < self@[w].len() ==> n * (#[trigger] self@[w][k]).length
                        <= usize::MAX,
            decreases n - v,
        {
            let list = self.outedges(v);
            let mut k: usize = 0;
            while k < list.len()
                invariant
                    v < n,
                    n == self@.len(),
                    list@ == self@[v as int],
                    k <= list@.len(),
                    forall|j: int|
                        0 <= j < k ==> n * (#[trigger] self@[v as int][j]).length <= usize::MAX,
                decreases list@.len() - k,
            {
                if n.checked_mul(list[k].length).is_none() {
                    assert(n * self@[v as int][k as int].length > usize::MAX);
                    return false;
                }
                k = k + 1;
            }
            v = v + 1;
        }
        proof {
            assert forall|s: int| distances_fit(self@, s) by {
                lemma_bounded_fits(self@, s);
            }
        }
        true
    }
}

} // verus!
