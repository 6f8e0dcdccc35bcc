use rowgraph::{entry_le, Frontier};

#[test]
fn entries_come_out_least_first() {
    let mut frontier = Frontier::new();
    assert!(frontier.is_empty());
    for entry in [(5, 1), (3, 7), (9, 0), (3, 2), (0, 4), (5, 1), (7, 7)] {
        frontier.push(entry);
    }
    assert_eq!(frontier.len(), 7);
    let mut out = Vec::new();
    while let Some(entry) = frontier.pop() {
        out.push(entry);
    }
    assert_eq!(out, vec![(0, 4), (3, 2), (3, 7), (5, 1), (5, 1), (7, 7), (9, 0)]);
    assert!(frontier.is_empty());
    assert_eq!(frontier.pop(), None);
}

#[test]
fn pushes_and_pops_may_alternate() {
    let mut frontier = Frontier::new();
    frontier.push((4, 0));
    frontier.push((2, 0));
    assert_eq!(frontier.pop(), Some((2, 0)));
    frontier.push((1, 9));
    frontier.push((6, 3));
    assert_eq!(frontier.pop(), Some((1, 9)));
    assert_eq!(frontier.pop(), Some((4, 0)));
    assert_eq!(frontier.len(), 1);
    assert_eq!(frontier.pop(), Some((6, 3)));
    assert_eq!(frontier.pop(), None);
}

#[test]
fn many_entries_come_out_sorted() {
    let mut frontier = Frontier::new();
    let mut expected = Vec::new();
    let mut state: usize = 12345;
    for _ in 0..500 {
        state = state.wrapping_mul(1103515245).wrapping_add(12345) % 2147483648;
        let entry = (state % 97, state % 13);
        frontier.push(entry);
        expected.push(entry);
    }
    expected.sort();
    let mut out = Vec::new();
    while let Some(entry) = frontier.pop() {
        out.push(entry);
    }
    assert_eq!(out, expected);
}

#[test]
fn entries_are_ordered_by_distance_then_vertex() {
    assert!(entry_le((1, 9), (2, 0)));
    assert!(!entry_le((2, 0), (1, 9)));
    assert!(entry_le((2, 3), (2, 3)));
    assert!(entry_le((2, 3), (2, 4)));
    assert!(!entry_le((2, 4), (2, 3)));
}
