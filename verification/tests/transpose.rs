use pagerank::transpose::{transpose, try_transpose};

#[test]
fn test_transpose() {
    // three branch star, one worker; deg has one slot more than nodes / peers
    let (deg, rev, trn) = transpose(vec![vec![(0, 1), (0, 2), (0, 3)]], 1, 4);
    assert_eq!(*deg, [3, 0, 0, 0, 0]);
    assert_eq!(*rev, [(1, 1), (2, 1), (3, 1)]);
    assert_eq!(*trn, [0, 0, 0]);

    // three node pipe, one worker
    let (deg, rev, trn) = transpose(vec![vec![(0, 1), (1, 2), (2, 3)]], 1, 4);
    assert_eq!(*deg, [1, 1, 1, 0, 0]);
    assert_eq!(*rev, [(1, 1), (2, 1), (3, 1)]);
    assert_eq!(*trn, [0, 1, 2]);

    // three branch star, first worker of two
    let (deg, rev, trn) = transpose(vec![vec![(0, 1), (0, 2), (0, 3)]], 2, 4);
    assert_eq!(*deg, [3, 0, 0]);
    assert_eq!(*rev, [(1, 1), (2, 1), (3, 1)]);
    assert_eq!(*trn, [0, 0, 0]);

    // three branch star, second worker of two
    let (deg, rev, trn) = transpose(vec![vec![]], 2, 4);
    assert_eq!(*deg, [0, 0, 0]);
    assert_eq!(*rev, []);
    assert_eq!(*trn, []);

    // three node pipe, first worker of two
    let (deg, rev, trn) = transpose(vec![vec![(0, 1), (2, 3)]], 2, 4);
    assert_eq!(*deg, [1, 1, 0]);
    assert_eq!(*rev, [(1, 1), (3, 1)]);
    assert_eq!(*trn, [0, 1]);

    // three node pipe, second worker of two
    let (deg, rev, trn) = transpose(vec![vec![(1, 2)]], 2, 4);
    assert_eq!(*deg, [1, 0, 0]);
    assert_eq!(*rev, [(2, 1)]);
    assert_eq!(*trn, [0]);
}

#[test]
fn transpose_of_nothing_is_empty() {
    let (deg, rev, trn) = transpose(Vec::new(), 3, 7);
    assert_eq!(deg, vec![0, 0, 0]);
    assert!(rev.is_empty());
    assert!(trn.is_empty());
}

#[test]
fn transpose_groups_unsorted_edges_across_batches() {
    let edges = vec![vec![(4, 9), (0, 2), (6, 9)], vec![], vec![(2, 2), (4, 2), (0, 9), (4, 300)]];
    let (deg, rev, trn) = transpose(edges, 2, 10);
    // sources 0, 2, 4, 6 have local indices 0, 1, 2, 3; the largest id is 300,
    // whose local index is 150
    assert_eq!(deg.len(), 151);
    assert_eq!(&deg[..6], &[2, 1, 3, 1, 0, 0]);
    assert!(deg[6..].iter().all(|d| *d == 0));
    assert_eq!(rev, vec![(2, 3), (9, 3), (300, 1)]);
    // within a group the sources come in the order the edges came
    assert_eq!(trn, vec![0, 1, 2, 2, 3, 0, 2]);
}

#[test]
fn transpose_counts_add_up() {
    let edges = vec![vec![(1, 5), (3, 5), (5, 1), (7, 70000), (9, 5), (1, 1), (1, 5)]];
    let (_deg, rev, trn) = transpose(edges, 2, 10);
    let total: u32 = rev.iter().map(|g| g.1).sum();
    assert_eq!(total as usize, trn.len());
    assert_eq!(trn.len(), 7);
    assert!(rev.windows(2).all(|w| w[0].0 < w[1].0));
    assert_eq!(rev, vec![(1, 2), (5, 4), (70000, 1)]);
}

#[test]
fn transpose_grows_for_a_source_beyond_the_nodes() {
    let (deg, rev, trn) = transpose(vec![vec![(10, 0)]], 1, 2);
    assert_eq!(deg.len(), 11);
    assert_eq!(deg[10], 1);
    assert_eq!(rev, vec![(0, 1)]);
    assert_eq!(trn, vec![10]);
}

#[test]
fn transpose_keeps_self_loops_and_duplicates() {
    let (deg, rev, trn) = transpose(vec![vec![(1, 1), (1, 1), (0, 1)]], 1, 2);
    assert_eq!(deg, vec![1, 2, 0]);
    assert_eq!(rev, vec![(1, 3)]);
    assert_eq!(trn, vec![1, 1, 0]);
}

#[test]
fn star_from_node_zero() {
    // a graph whose nodes number 3 has four degree slots for one worker
    let (deg, rev, trn) = transpose(vec![vec![(0, 1), (0, 2), (0, 3)]], 1, 3);
    assert_eq!(deg, vec![3, 0, 0, 0]);
    assert_eq!(rev, vec![(1, 1), (2, 1), (3, 1)]);
    assert_eq!(trn, vec![0, 0, 0]);

    // split between two workers: the first has all the edges
    let (deg, rev, trn) = transpose(vec![vec![(0, 1), (0, 2), (0, 3)]], 2, 3);
    assert_eq!(deg, vec![3, 0]);
    assert_eq!(rev, vec![(1, 1), (2, 1), (3, 1)]);
    assert_eq!(trn, vec![0, 0, 0]);

    // the second has none
    let (deg, rev, trn) = transpose(vec![], 2, 3);
    assert_eq!(deg, vec![0, 0]);
    assert!(rev.is_empty());
    assert!(trn.is_empty());
}

#[test]
fn transpose_is_reachable_from_the_crate_root() {
    let (deg, rev, trn) = pagerank::transpose(vec![vec![(1, 0)]], 1, 1);
    assert_eq!(deg, vec![0, 1]);
    assert_eq!(rev, vec![(0, 1)]);
    assert_eq!(trn, vec![1]);
}

#[test]
fn every_id_has_a_degree_slot() {
    // destination 9 lies beyond the five slots that four nodes give
    let (deg, rev, trn) = transpose(vec![vec![(0, 9)]], 1, 4);
    assert_eq!(deg, vec![1, 0, 0, 0, 0, 0, 0, 0, 0, 0]);
    assert_eq!(rev, vec![(9, 1)]);
    assert_eq!(trn, vec![0]);

    // with three workers id 9 has local index 3
    let (deg, _rev, _trn) = transpose(vec![vec![(0, 9)]], 3, 4);
    assert_eq!(deg, vec![1, 0, 0, 0]);

    let (deg, _rev, _trn) = transpose(vec![vec![(u32::MAX, 0)]], 1 << 20, 4);
    assert_eq!(deg.len(), 4096);
    assert_eq!(deg[4095], 1);
}

#[test]
fn degrees_add_up_to_the_edges() {
    let edges = vec![vec![(1, 5), (3, 5), (5, 1)], vec![(7, 70000), (9, 5), (1, 1), (1, 5)]];
    let (deg, rev, trn) = transpose(edges, 2, 10);
    let out: u32 = deg.iter().sum();
    let into: u32 = rev.iter().map(|g| g.1).sum();
    assert_eq!(out, 7);
    assert_eq!(into, 7);
    assert_eq!(trn.len(), 7);
}

#[test]
fn try_transpose_succeeds_where_the_counts_fit() {
    let edges = vec![vec![(0, 1), (1, 2)], vec![(2, 3)]];
    assert_eq!(
        try_transpose(edges.clone(), 1, 4),
        Some((vec![1, 1, 1, 0, 0], vec![(1, 1), (2, 1), (3, 1)], vec![0, 1, 2]))
    );
    assert_eq!(try_transpose(edges.clone(), 1, 4), Some(transpose(edges, 1, 4)));
    assert_eq!(try_transpose(vec![], 5, 0), Some((vec![0], vec![], vec![])));
}
