//! The graph builder: rows become vertices, and two rows that agree on a key field are
//! joined by an edge of length zero. Every pair of rows is compared, so the work grows
//! with the square of the row count; grouping the rows by key value first would give the
//! same edges in near-linear time.

use crate::error::GraphError;
use crate::graph::{lemma_outgoing_push, outgoing, unweighted, Edge, Graph, Outedge};
use vstd::prelude::*;

verus! {

/// The row holds both key fields.
pub open spec fn has_keys(row: Seq<Seq<char>>, a: int, b: int) -> bool {
    a < row.len() && b < row.len()
}

/// Rows `i` and `j` agree on key field `a` or on key field `b`.
pub open spec fn linked(rows: Seq<Seq<Seq<char>>>, a: int, b: int, i: int, j: int) -> bool {
    rows[i][a] == rows[j][a] || rows[i][b] == rows[j][b]
}

/// The edges from row `i` to the first `m` rows: one of length zero to each row that is
/// linked to `i`, in ascending order of the target.
pub open spec fn links_among(rows: Seq<Seq<Seq<char>>>, a: int, b: int, i: int, m: int) -> Seq<
    Outedge,
> {
    Seq::new(m as nat, |j: int| j).filter(|j: int| linked(rows, a, b, i, j)).map_values(
        |j: int| Outedge { vertex: j as usize, length: 0 },
    )
}

/// The edges that leave row `i`.
pub open spec fn links(rows: Seq<Seq<Seq<char>>>, a: int, b: int, i: int) -> Seq<Outedge> {
    links_among(rows, a, b, i, rows.len() as int)
}

/// Looking at one row more adds an edge to it exactly if it is linked to `i`.
pub proof fn lemma_links_step(rows: Seq<Seq<Seq<char>>>, a: int, b: int, i: int, m: int)
    requires
        0 <= m,
    ensures
        links_among(rows, a, b, i, m + 1) == if linked(rows, a, b, i, m) {
            links_among(rows, a, b, i, m).push(Outedge { vertex: m as usize, length: 0 })
        } else {
            links_among(rows, a, b, i, m)
        },
{
    reveal(Seq::filter);
    let upto = Seq::new(m as nat, |j: int| j);
    let next = Seq::new((m + 1) as nat, |j: int| j);
    let chosen = |j: int| linked(rows, a, b, i, j);
    let arc = |j: int| Outedge { vertex: j as usize, length: 0 };
    assert(next.drop_last() =~= upto);
    if linked(rows, a, b, i, m) {
        assert(next.filter(chosen) == upto.filter(chosen).push(m));
        assert(upto.filter(chosen).push(m).map_values(arc) =~= upto.filter(chosen).map_values(
            arc,
        ).push(arc(m)));
    } else {
        assert(next.filter(chosen) == upto.filter(chosen));
    }
}

/// A row that is linked to `i` is the target of one of the edges that leave `i`.
pub proof fn lemma_links_contain(rows: Seq<Seq<Seq<char>>>, a: int, b: int, i: int, j: int)
    requires
        0 <= j < rows.len(),
        linked(rows, a, b, i, j),
    ensures
        links(rows, a, b, i).contains(Outedge { vertex: j as usize, length: 0 }),
{
    let all = Seq::new(rows.len(), |j: int| j);
    let chosen = |j: int| linked(rows, a, b, i, j);
    let arc = |j: int| Outedge { vertex: j as usize, length: 0 };
    assert(all[j] == j);
    all.lemma_filter_contains(chosen, j);
    let k = choose|k: int| 0 <= k < all.filter(chosen).len() && all.filter(chosen)[k] == j;
    assert(all.filter(chosen).map_values(arc)[k] == arc(j));
}

/// Every edge that leaves row `i` has length zero and leads to a row linked to `i`.
pub proof fn lemma_links_only(rows: Seq<Seq<Seq<char>>>, a: int, b: int, i: int, k: int)
    requires
        0 <= k < links(rows, a, b, i).len(),
        rows.len() <= usize::MAX,
    ensures
        links(rows, a, b, i)[k].length == 0,
        links(rows, a, b, i)[k].vertex < rows.len(),
        linked(rows, a, b, i, links(rows, a, b, i)[k].vertex as int),
{
    let all = Seq::new(rows.len(), |j: int| j);
    let chosen = |j: int| linked(rows, a, b, i, j);
    all.lemma_filter_pred(chosen, k);
    let j = all.filter(chosen)[k];
    assert(all.filter(chosen).contains(j));
    all.lemma_filter_contains_rev(chosen, j);
}

/// Rows that share a key field are joined in both directions by an edge of length zero.
pub proof fn lemma_links_symmetric(rows: Seq<Seq<Seq<char>>>, a: int, b: int, i: int, j: int)
    requires
        0 <= i < rows.len(),
        0 <= j < rows.len(),
        rows[i][a] == rows[j][a] || rows[i][b] == rows[j][b],
    ensures
        links(rows, a, b, i).contains(Outedge { vertex: j as usize, length: 0 }),
        links(rows, a, b, j).contains(Outedge { vertex: i as usize, length: 0 }),
{
    lemma_links_contain(rows, a, b, i, j);
    lemma_links_contain(rows, a, b, j, i);
}

/// Every row is joined to itself.
pub proof fn lemma_links_reflexive(rows: Seq<Seq<Seq<char>>>, a: int, b: int, i: int)
    requires
        0 <= i < rows.len(),
    ensures
        links(rows, a, b, i).contains(Outedge { vertex: i as usize, length: 0 }),
{
    lemma_links_contain(rows, a, b, i, i);
}

/// `r` is what building from the rows `table` gives: the graph in which row `i` is
/// vertex `i` and holds the edges `links(table, a, b, i)`, or `MalformedRecord` where
/// some row lacks a key field.
pub open spec fn built(
    table: Seq<Seq<Seq<char>>>,
    a: int,
    b: int,
    r: Result<Graph, GraphError>,
) -> bool {
    match r {
        Ok(g) => {
            &&& forall|i: int| 0 <= i < table.len() ==> has_keys(#[trigger] table[i], a, b)
            &&& g.wf()
            &&& unweighted(g@)
            &&& g@.len() == table.len()
            &&& forall|i: int| 0 <= i < table.len() ==> #[trigger] g@[i] == links(table, a, b, i)
        },
        Err(e) => {
            &&& e == GraphError::MalformedRecord
            &&& exists|i: int| 0 <= i < table.len() && !has_keys(#[trigger] table[i], a, b)
        },
    }
}

/// No rows give the empty graph, and no error.
pub proof fn lemma_no_rows(a: int, b: int, r: Result<Graph, GraphError>)
    requires
        built(Seq::<Seq<Seq<char>>>::empty(), a, b, r),
    ensures
        r is Ok,
        r->Ok_0@.len() == 0,
{
}

/// Whether rows `i` and `j` agree on one of the two key fields.
fn rows_linked(rows: &Vec<Vec<String>>, a: usize, b: usize, i: usize, j: usize) -> (r: bool)
    requires
        i < rows@.len(),
        j < rows@.len(),
        has_keys(rows.deep_view()[i as int], a as int, b as int),
        has_keys(rows.deep_view()[j as int], a as int, b as int),
    ensures
        r == linked(rows.deep_view(), a as int, b as int, i as int, j as int),
{
    let ghost table = rows.deep_view();
    assert(table[i as int] == rows@[i as int].deep_view());
    assert(table[j as int] == rows@[j as int].deep_view());
    assert(table[i as int][a as int] == rows@[i as int]@[a as int]@);
    assert(table[i as int][b as int] == rows@[i as int]@[b as int]@);
    assert(table[j as int][a as int] == rows@[j as int]@[a as int]@);
    assert(table[j as int][b as int] == rows@[j as int]@[b as int]@);
    rows[i][a] == rows[j][a] || rows[i][b] == rows[j][b]
}

/// Builds the graph of `rows`: row `i` becomes vertex `i`, and for every ordered pair of
/// rows that agree on field `key_field_a` or on field `key_field_b`, the row itself
/// included, an edge of length zero leads from the first to the second. Each vertex holds
/// its edges in ascending order of the target. Fails with `MalformedRecord` where a row
/// lacks one of the two fields.
pub fn build(rows: &Vec<Vec<String>>, key_field_a: usize, key_field_b: usize) -> (r: Result<
    Graph,
    GraphError,
>)
    ensures
        built(rows.deep_view(), key_field_a as int, key_field_b as int, r),
{
    let ghost table = rows.deep_view();
    let ghost a = key_field_a as int;
    let ghost b = key_field_b as int;
    let n = rows.len();
    let mut seen: usize = 0;
    while seen < n
        invariant
            seen <= n,
            n == rows@.len(),
            table == rows.deep_view(),
            a == key_field_a,
            b == key_field_b,
            forall|i: int| 0 <= i < seen ==> has_keys(#[trigger] table[i], a, b),
        decreases n - seen,
    {
        assert(table[seen as int] == rows@[seen as int].deep_view());
        if rows[seen].len() <= key_field_a || rows[seen].len() <= key_field_b {
            assert(!has_keys(table[seen as int], a, b));
            return Err(GraphError::MalformedRecord);
        }
        seen = seen + 1;
    }
    let mut edges: Vec<Edge> = Vec::new();
    let mut i: usize = 0;
    proof {
        reveal(Seq::filter);
        assert forall|u: int| 0 <= u < n implies #[trigger] outgoing(edges@, u) == Seq::<
            Outedge,
        >::empty() by {
            assert(outgoing(edges@, u) =~= Seq::<Outedge>::empty());
        }
    }
    while i < n
        invariant
            i <= n,
            n == rows@.len(),
            table == rows.deep_view(),
            a == key_field_a,
            b == key_field_b,
            forall|r: int| 0 <= r < n ==> has_keys(#[trigger] table[r], a, b),
            forall|e: int| 0 <= e < edges@.len() ==> (#[trigger] edges@[e]).0 < n && edges@[e].1 < n,
            forall|u: int|
                0 <= u < n ==> #[trigger] outgoing(edges@, u) == if u < i {
                    links(table, a, b, u)
                } else {
                    Seq::<Outedge>::empty()
                },
        decreases n - i,
    {
        let mut j: usize = 0;
        proof {
            reveal(Seq::filter);
            assert(links_among(table, a, b, i as int, 0) =~= Seq::<Outedge>::empty());
        }
        while j < n
            invariant
                i < n,
                j <= n,
                n == rows@.len(),
                table == rows.deep_view(),
                a == key_field_a,
                b == key_field_b,
                forall|r: int| 0 <= r < n ==> has_keys(#[trigger] table[r], a, b),
                forall|e: int|
                    0 <= e < edges@.len() ==> (#[trigger] edges@[e]).0 < n && edges@[e].1 < n,
                forall|u: int|
                    0 <= u < n && u != i ==> #[trigger] outgoing(edges@, u) == if u < i {
                        links(table, a, b, u)
                    } else {
                        Seq::<Outedge>::empty()
                    },
                outgoing(edges@, i as int) == links_among(table, a, b, i as int, j as int),
            decreases n - j,
        {
            let ghost before = edges@;
            proof {
                lemma_links_step(table, a, b, i as int, j as int);
            }
            if rows_linked(rows, key_field_a, key_field_b, i, j) {
                edges.push((i, j, 0));
                proof {
                    assert forall|u: int| 0 <= u < n implies #[trigger] outgoing(edges@, u) == if u
                        == i {
                        outgoing(before, u).push(Outedge { vertex: j, length: 0 })
                    } else {
                        outgoing(before, u)
                    } by {
                        lemma_outgoing_push(before, (i, j, 0usize), u);
                    }
                }
            }
            j = j + 1;
        }
        i = i + 1;
    }
    let g = Graph::create_directed(n, &edges);
    proof {
        assert forall|v: int, k: int| 0 <= v < g@.len() && 0 <= k < g@[v].len() implies (
        #[trigger] g@[v][k]).length == 0 by {
            assert(g@[v] == outgoing(edges@, v));
            lemma_links_only(table, a, b, v, k);
        }
    }
    Ok(g)
}

} // verus!
