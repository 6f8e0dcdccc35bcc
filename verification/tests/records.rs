use rowgraph::{shortest_paths, Graph, GraphError};

fn targets(graph: &Graph, v: usize) -> Vec<usize> {
    let mut out = Vec::new();
    for edge in graph.outedges(v).iter() {
        out.push(edge.vertex);
    }
    out
}

#[test]
fn records_become_rows() {
    let data = b"a,x\na,y\nb,y\n";
    let graph = Graph::create_edges_from_csv(data, false, 0, 1).unwrap();
    assert_eq!(graph.n(), 3);
    assert_eq!(targets(&graph, 0), vec![0, 1]);
    assert_eq!(targets(&graph, 1), vec![0, 1, 2]);
    assert_eq!(targets(&graph, 2), vec![1, 2]);
}

#[test]
fn the_header_is_no_row() {
    let data = b"first,second\na,x\na,y\nb,y\n";
    let with_header = Graph::create_edges_from_csv(data, true, 0, 1).unwrap();
    assert_eq!(with_header.n(), 3);
    let without = Graph::create_edges_from_csv(data, false, 0, 1).unwrap();
    assert_eq!(without.n(), 4);
    assert_eq!(targets(&without, 0), vec![0]);
}

#[test]
fn quoted_fields_are_unquoted() {
    let data = b"\"a,1\",x\n\"a,1\",y\n\"a\",\"y\"\n";
    let graph = Graph::create_edges_from_csv(data, false, 0, 1).unwrap();
    assert_eq!(targets(&graph, 0), vec![0, 1]);
    assert_eq!(targets(&graph, 1), vec![0, 1, 2]);
    assert_eq!(targets(&graph, 2), vec![1, 2]);
}

#[test]
fn test_dist1() {
    let data = b"h0,h1,h2,h3,h4,h5,h6\n1,2,3,4,red,6,north\n1,2,3,4,blue,6,north\n1,2,3,4,green,6,south\n";
    let graph = Graph::create_edges_from_csv(data, true, 4, 6).unwrap();
    let distances = shortest_paths(&graph, 0).unwrap();
    assert_eq!(distances[0], Some(0));
    assert_eq!(distances, vec![Some(0), Some(0), None]);
}

#[test]
fn empty_text_gives_the_empty_graph() {
    let graph = Graph::create_edges_from_csv(b"", true, 4, 6).unwrap();
    assert_eq!(graph.n(), 0);
    let graph = Graph::create_edges_from_csv(b"", false, 4, 6).unwrap();
    assert_eq!(graph.n(), 0);
}

#[test]
fn records_of_unequal_length_are_refused() {
    let data = b"a,x\nb\n";
    assert_eq!(
        Graph::create_edges_from_csv(data, false, 0, 0).unwrap_err(),
        GraphError::SourceUnavailable
    );
}

#[test]
fn text_that_is_not_utf8_is_refused() {
    let data = [b'a', b',', 0xff, b'\n'];
    assert_eq!(
        Graph::create_edges_from_csv(&data, false, 0, 1).unwrap_err(),
        GraphError::SourceUnavailable
    );
}

#[test]
fn records_with_too_few_fields_are_malformed() {
    let data = b"a,x\nb,y\n";
    assert_eq!(
        Graph::create_edges_from_csv(data, false, 4, 6).unwrap_err(),
        GraphError::MalformedRecord
    );
}
