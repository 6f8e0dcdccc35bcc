use rowgraph::{build, Graph, GraphError, Outedge};

fn rows_of(cells: &[&[&str]]) -> Vec<Vec<String>> {
    let mut rows = Vec::new();
    for row in cells {
        let mut fields = Vec::new();
        for field in row.iter() {
            fields.push(field.to_string());
        }
        rows.push(fields);
    }
    rows
}

fn targets(graph: &Graph, v: usize) -> Vec<usize> {
    let mut out = Vec::new();
    for edge in graph.outedges(v).iter() {
        out.push(edge.vertex);
    }
    out
}

#[test]
fn three_rows_share_keys_in_a_chain() {
    let rows = rows_of(&[&["a", "x"], &["a", "y"], &["b", "y"]]);
    let graph = build(&rows, 0, 1).unwrap();
    assert_eq!(graph.n(), 3);
    assert_eq!(targets(&graph, 0), vec![0, 1]);
    assert_eq!(targets(&graph, 1), vec![0, 1, 2]);
    assert_eq!(targets(&graph, 2), vec![1, 2]);
    assert!(graph.lengths_fit());
}

#[test]
fn rows_without_shared_keys_keep_only_self_loops() {
    let rows = rows_of(&[&["a", "x"], &["b", "y"]]);
    let graph = build(&rows, 0, 1).unwrap();
    assert_eq!(graph.n(), 2);
    assert_eq!(graph.outedges(0), &vec![Outedge { vertex: 0, length: 0 }]);
    assert_eq!(graph.outedges(1), &vec![Outedge { vertex: 1, length: 0 }]);
}

#[test]
fn no_rows_give_the_empty_graph() {
    let rows: Vec<Vec<String>> = Vec::new();
    let graph = build(&rows, 4, 6).unwrap();
    assert_eq!(graph.n(), 0);
}

#[test]
fn every_edge_has_its_reverse() {
    let rows = rows_of(&[
        &["k1", "p"],
        &["k2", "q"],
        &["k1", "q"],
        &["k3", "r"],
        &["k2", "r"],
    ]);
    let graph = build(&rows, 0, 1).unwrap();
    for i in 0..graph.n() {
        assert!(targets(&graph, i).contains(&i));
        for edge in graph.outedges(i).iter() {
            assert_eq!(edge.length, 0);
            assert!(targets(&graph, edge.vertex).contains(&i));
        }
    }
    assert_eq!(targets(&graph, 0), vec![0, 2]);
    assert_eq!(targets(&graph, 1), vec![1, 2, 4]);
    assert_eq!(targets(&graph, 2), vec![0, 1, 2]);
    assert_eq!(targets(&graph, 3), vec![3, 4]);
    assert_eq!(targets(&graph, 4), vec![1, 3, 4]);
}

#[test]
fn key_fields_are_taken_by_position() {
    let rows = rows_of(&[
        &["0", "1", "2", "3", "same", "5", "u"],
        &["0", "1", "2", "3", "same", "5", "v"],
        &["0", "1", "2", "3", "other", "5", "w"],
    ]);
    let graph = build(&rows, 4, 6).unwrap();
    assert_eq!(targets(&graph, 0), vec![0, 1]);
    assert_eq!(targets(&graph, 1), vec![0, 1]);
    assert_eq!(targets(&graph, 2), vec![2]);
}

#[test]
fn a_short_row_is_malformed() {
    let rows = rows_of(&[&["a", "x"], &["a"]]);
    assert_eq!(build(&rows, 0, 1).unwrap_err(), GraphError::MalformedRecord);
    assert_eq!(build(&rows, 1, 0).unwrap_err(), GraphError::MalformedRecord);
    assert!(build(&rows, 0, 0).is_ok());
}

#[test]
fn equal_key_fields_compare_one_column() {
    let rows = rows_of(&[&["a", "x"], &["b", "x"]]);
    let graph = build(&rows, 0, 0).unwrap();
    assert_eq!(targets(&graph, 0), vec![0]);
    assert_eq!(targets(&graph, 1), vec![1]);
}

#[test]
fn create_directed_groups_edges_by_source_in_order() {
    let edges = vec![(2, 0, 7), (0, 1, 3), (2, 1, 4), (0, 0, 9), (2, 0, 1)];
    let graph = Graph::create_directed(3, &edges);
    assert_eq!(graph.n(), 3);
    assert_eq!(
        graph.outedges(0),
        &vec![Outedge { vertex: 1, length: 3 }, Outedge { vertex: 0, length: 9 }]
    );
    assert!(graph.outedges(1).is_empty());
    assert_eq!(
        graph.outedges(2),
        &vec![
            Outedge { vertex: 0, length: 7 },
            Outedge { vertex: 1, length: 4 },
            Outedge { vertex: 0, length: 1 }
        ]
    );
}

#[test]
fn create_directed_without_edges() {
    let graph = Graph::create_directed(2, &Vec::new());
    assert_eq!(graph.n(), 2);
    assert!(graph.outedges(0).is_empty());
    assert!(graph.outedges(1).is_empty());
    let empty = Graph::create_directed(0, &Vec::new());
    assert_eq!(empty.n(), 0);
}

#[test]
fn lengths_fit_up_to_the_bound() {
    let half = usize::MAX / 2;
    let within = Graph::create_directed(2, &vec![(0, 1, half), (1, 0, 3)]);
    assert!(within.lengths_fit());
    let beyond = Graph::create_directed(2, &vec![(0, 1, 3), (1, 0, half + 1)]);
    assert!(!beyond.lengths_fit());
    let single = Graph::create_directed(1, &vec![(0, 0, usize::MAX)]);
    assert!(single.lengths_fit());
    let empty = Graph::create_directed(0, &Vec::new());
    assert!(empty.lengths_fit());
    let plain = Graph::create_directed(3, &Vec::new());
    assert!(plain.lengths_fit());
}
