use cellsim::algorithms::CSR;
use cellsim::data::IdxPair;

/// Tests that CSR grouping works correctly on a set of connections.
/// The groups are checked against expected cluster groupings.
#[test]
fn test_csr() {
    let connections = vec![IdxPair::new(0, 1), IdxPair::new(1, 2), IdxPair::new(3, 4)];

    let csr = CSR::groups_from_connections(&connections, 5);

    // Collect groups of indices from CSR ranges
    let mut groups: Vec<Vec<usize>> = csr
        .indptr
        .iter()
        .map(|range| csr.indices[range.a..range.b].to_vec())
        .collect();

    // Sort each group for stable comparison
    for group in &mut groups {
        group.sort();
    }
    groups.sort();

    // Expected groups: connected components plus isolated node '5'
    let expected_groups = vec![vec![0, 1, 2], vec![3, 4], vec![5]];

    assert_eq!(groups, expected_groups);
}

/// Group discovery is deterministic: groups are found by sweeping start
/// nodes upward, so each group leads with its smallest node, members follow
/// breadth-first discovery order, and groups are ordered by start node.
#[test]
fn groups_exact_order() {
    let connections = vec![IdxPair::new(0, 1), IdxPair::new(1, 2), IdxPair::new(3, 4)];

    let csr = CSR::groups_from_connections(&connections, 5);

    assert_eq!(csr.indices, vec![0, 1, 2, 3, 4, 5]);
    assert_eq!(csr.indptr.len(), 3);
    assert_eq!((csr.indptr[0].a, csr.indptr[0].b), (0, 3));
    assert_eq!((csr.indptr[1].a, csr.indptr[1].b), (3, 5));
    assert_eq!((csr.indptr[2].a, csr.indptr[2].b), (5, 6));
}

/// Grouping with no connections yields one singleton group per node.
#[test]
fn groups_all_isolated() {
    let csr = CSR::groups_from_connections(&[], 2);

    assert_eq!(csr.indices, vec![0, 1, 2]);
    assert_eq!(csr.indptr.len(), 3);
    for (n, range) in csr.indptr.iter().enumerate() {
        assert_eq!((range.a, range.b), (n, n + 1));
    }
}

/// Adjacency rows hold the node itself first, then its neighbors in the
/// order the connections list them.
#[test]
fn adjacency_rows_exact() {
    let connections = vec![IdxPair::new(0, 1), IdxPair::new(1, 2)];

    let adj = CSR::adjacent_from_connections(&connections, 2);

    assert_eq!(adj.row(0), &[0, 1]);
    assert_eq!(adj.row(1), &[1, 0, 2]);
    assert_eq!(adj.row(2), &[2, 1]);
}

/// A connection listed twice contributes two neighbor entries.
#[test]
fn adjacency_parallel_edges() {
    let connections = vec![IdxPair::new(0, 1), IdxPair::new(0, 1)];

    let adj = CSR::adjacent_from_connections(&connections, 1);

    assert_eq!(adj.row(0), &[0, 1, 1]);
    assert_eq!(adj.row(1), &[1, 0, 0]);
}

/// The row iterator walks all rows front to back, then reports exhaustion.
#[test]
fn row_iterator_walks_all_rows() {
    let connections = vec![IdxPair::new(0, 1)];

    let adj = CSR::adjacent_from_connections(&connections, 1);
    let mut rows = adj.rows();

    assert_eq!(rows.next(), Some(&[0usize, 1][..]));
    assert_eq!(rows.next(), Some(&[1usize, 0][..]));
    assert_eq!(rows.next(), None);
    assert_eq!(rows.next(), None);
}

/// `IdxPair::span` is the distance between the two indices.
#[test]
fn idx_pair_span() {
    let pair = IdxPair::new(3, 9);
    assert_eq!(pair.a, 3);
    assert_eq!(pair.b, 9);
    assert_eq!(pair.span(), 6);
}
