use rowgraph::{build, dijkstra, shortest_paths, Graph, GraphError};

fn rows_of(cells: &[&[&str]]) -> Vec<Vec<String>> {
    let mut rows = Vec::new();
    for row in cells {
        let mut fields = Vec::new();
        for field in row.iter() {
            fields.push(field.to_string());
        }
        rows.push(fields);
    }
    rows
}

/// Distances by repeated relaxation of every edge until nothing changes.
fn by_exhaustion(n: usize, edges: &Vec<(usize, usize, usize)>, start: usize) -> Vec<Option<usize>> {
    let mut labels: Vec<Option<usize>> = vec![None; n];
    labels[start] = Some(0);
    let mut changed = true;
    while changed {
        changed = false;
        for &(u, v, length) in edges.iter() {
            if let Some(du) = labels[u] {
                let candidate = du + length;
                if labels[v].map_or(true, |dv| candidate < dv) {
                    labels[v] = Some(candidate);
                    changed = true;
                }
            }
        }
    }
    labels
}

fn next_random(state: &mut u64) -> usize {
    *state = state.wrapping_mul(6364136223846793005).wrapping_add(1442695040888963407);
    (*state >> 33) as usize
}

#[test]
fn chain_of_shared_keys_is_all_at_distance_zero() {
    let rows = rows_of(&[&["a", "x"], &["a", "y"], &["b", "y"]]);
    let graph = build(&rows, 0, 1).unwrap();
    assert_eq!(shortest_paths(&graph, 0), Ok(vec![Some(0), Some(0), Some(0)]));
    assert_eq!(dijkstra(graph), vec![Some(0), Some(0), Some(0)]);
}

#[test]
fn rows_without_shared_keys_are_out_of_reach() {
    let rows = rows_of(&[&["a", "x"], &["b", "y"]]);
    let graph = build(&rows, 0, 1).unwrap();
    assert_eq!(shortest_paths(&graph, 0), Ok(vec![Some(0), None]));
    assert_eq!(shortest_paths(&graph, 1), Ok(vec![None, Some(0)]));
    assert_eq!(dijkstra(graph), vec![Some(0), None]);
}

#[test]
fn no_rows_give_no_distances() {
    let rows: Vec<Vec<String>> = Vec::new();
    let graph = build(&rows, 0, 1).unwrap();
    assert_eq!(graph.n(), 0);
    assert_eq!(dijkstra(graph), Vec::<Option<usize>>::new());
}

#[test]
fn a_start_outside_the_graph_is_invalid() {
    let empty = Graph::create_directed(0, &Vec::new());
    assert_eq!(shortest_paths(&empty, 0), Err(GraphError::InvalidStart));
    let graph = Graph::create_directed(3, &vec![(0, 1, 1)]);
    assert_eq!(shortest_paths(&graph, 3), Err(GraphError::InvalidStart));
    assert_eq!(shortest_paths(&graph, usize::MAX), Err(GraphError::InvalidStart));
    assert!(shortest_paths(&graph, 2).is_ok());
}

#[test]
fn start_is_at_distance_zero() {
    let edges = vec![(0, 1, 5), (1, 2, 5), (2, 0, 5), (1, 1, 0), (3, 0, 1)];
    let graph = Graph::create_directed(4, &edges);
    for start in 0..4 {
        let distances = shortest_paths(&graph, start).unwrap();
        assert_eq!(distances.len(), 4);
        assert_eq!(distances[start], Some(0));
    }
}

#[test]
fn a_later_shorter_way_replaces_an_earlier_one() {
    let edges = vec![(0, 1, 10), (0, 2, 1), (2, 1, 1), (1, 3, 1)];
    let graph = Graph::create_directed(4, &edges);
    assert_eq!(shortest_paths(&graph, 0), Ok(vec![Some(0), Some(2), Some(1), Some(3)]));
}

#[test]
fn weighted_distances() {
    let edges = vec![
        (0, 1, 7),
        (0, 2, 9),
        (0, 5, 14),
        (1, 2, 10),
        (1, 3, 15),
        (2, 3, 11),
        (2, 5, 2),
        (3, 4, 6),
        (5, 4, 9),
    ];
    let graph = Graph::create_directed(7, &edges);
    assert_eq!(
        shortest_paths(&graph, 0),
        Ok(vec![Some(0), Some(7), Some(9), Some(20), Some(20), Some(11), None])
    );
    assert_eq!(
        shortest_paths(&graph, 2),
        Ok(vec![None, None, Some(0), Some(11), Some(11), Some(2), None])
    );
    assert_eq!(
        dijkstra(graph),
        vec![Some(0), Some(7), Some(9), Some(20), Some(20), Some(11), None]
    );
}

#[test]
fn parallel_edges_and_loops() {
    let edges = vec![(0, 0, 3), (0, 1, 8), (0, 1, 2), (0, 1, 5), (1, 0, 1), (1, 1, 0)];
    let graph = Graph::create_directed(2, &edges);
    assert_eq!(shortest_paths(&graph, 0), Ok(vec![Some(0), Some(2)]));
    assert_eq!(shortest_paths(&graph, 1), Ok(vec![Some(1), Some(0)]));
}

#[test]
fn vertices_without_a_way_in_have_no_distance() {
    let edges = vec![(1, 0, 1), (2, 1, 1), (0, 3, 4)];
    let graph = Graph::create_directed(5, &edges);
    assert_eq!(shortest_paths(&graph, 0), Ok(vec![Some(0), None, None, Some(4), None]));
}

#[test]
fn the_largest_distance_that_fits() {
    let edges = vec![(0, 1, usize::MAX), (0, 2, usize::MAX - 1), (2, 1, 1), (1, 0, usize::MAX)];
    let graph = Graph::create_directed(3, &edges);
    assert_eq!(
        shortest_paths(&graph, 0),
        Ok(vec![Some(0), Some(usize::MAX), Some(usize::MAX - 1)])
    );
}

#[test]
fn an_edge_too_long_to_add_is_no_shortcut() {
    let edges = vec![(0, 1, 5), (1, 2, usize::MAX), (0, 2, 9)];
    let graph = Graph::create_directed(3, &edges);
    assert_eq!(shortest_paths(&graph, 0), Ok(vec![Some(0), Some(5), Some(9)]));
}

#[test]
fn distances_agree_with_exhaustive_relaxation() {
    let mut state: u64 = 20240607;
    for round in 0..200 {
        let n = 1 + next_random(&mut state) % 8;
        let m = next_random(&mut state) % 20;
        let mut edges = Vec::new();
        for _ in 0..m {
            let u = next_random(&mut state) % n;
            let v = next_random(&mut state) % n;
            let length = if round % 4 == 0 { 0 } else { next_random(&mut state) % 10 };
            edges.push((u, v, length));
        }
        let graph = Graph::create_directed(n, &edges);
        for start in 0..n {
            let expected = by_exhaustion(n, &edges, start);
            assert_eq!(shortest_paths(&graph, start), Ok(expected));
        }
    }
}

#[test]
fn no_edge_is_a_shortcut() {
    let mut state: u64 = 77;
    for _ in 0..100 {
        let n = 2 + next_random(&mut state) % 6;
        let m = next_random(&mut state) % 15;
        let mut edges = Vec::new();
        for _ in 0..m {
            let u = next_random(&mut state) % n;
            let v = next_random(&mut state) % n;
            edges.push((u, v, next_random(&mut state) % 50));
        }
        let graph = Graph::create_directed(n, &edges);
        let distances = shortest_paths(&graph, 0).unwrap();
        for &(u, v, length) in edges.iter() {
            if let Some(du) = distances[u] {
                assert!(distances[v].unwrap() <= du + length);
            }
        }
    }
}

#[test]
fn the_same_input_gives_the_same_distances() {
    let edges = vec![(0, 1, 1), (0, 2, 1), (1, 3, 1), (2, 3, 1), (3, 0, 1)];
    let first = shortest_paths(&Graph::create_directed(4, &edges), 0);
    let second = shortest_paths(&Graph::create_directed(4, &edges), 0);
    assert_eq!(first, second);
    assert_eq!(first, Ok(vec![Some(0), Some(1), Some(1), Some(2)]));
}
