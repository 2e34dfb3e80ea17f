use audio_graph::matrix::{AdjMatrix, Dir, Entry};

/// The fixed entry set used by the lookup tests, built in sorted order.
fn fixed_matrix() -> AdjMatrix {
    let mut matrix = AdjMatrix::default();
    matrix.insert(Entry::new(0, 1, 0, Dir::Outgoing));
    matrix.insert(Entry::new(0, 3, 0, Dir::Outgoing));
    matrix.insert(Entry::new(1, 0, 0, Dir::Incoming));
    matrix.insert(Entry::new(1, 3, 0, Dir::Outgoing));
    matrix.insert(Entry::new(3, 0, 0, Dir::Incoming));
    matrix.insert(Entry::new(3, 1, 0, Dir::Incoming));
    matrix
}

#[test]
fn matrix_lookup() {
    let matrix = fixed_matrix();
    assert_eq!(matrix.lookup(0, 1, 0), Ok(0));
    assert_eq!(matrix.lookup(0, 3, 0), Ok(1));
    assert_eq!(matrix.lookup(1, 0, 0), Ok(2));
    assert_eq!(matrix.lookup(1, 3, 0), Ok(3));
    assert_eq!(matrix.lookup(3, 0, 0), Ok(4));
    assert_eq!(matrix.lookup(3, 1, 0), Ok(5));
    assert_eq!(matrix.lookup(0, 4, 0), Err(2));
    assert_eq!(matrix.lookup(3, 3, 0), Err(6));
    assert_eq!(matrix.lookup(2, 1, 0), Err(4));
}

#[test]
fn matrix_insertion() {
    let mut matrix = AdjMatrix::default();
    matrix.insert(Entry::new(0, 1, 0, Dir::Outgoing));
    matrix.insert(Entry::new(0, 3, 0, Dir::Outgoing));
    matrix.insert(Entry::new(1, 0, 0, Dir::Incoming));
    matrix.insert(Entry::new(1, 3, 0, Dir::Outgoing));
    assert_eq!(matrix.lookup(0, 1, 0), Ok(0));
    assert_eq!(matrix.lookup(0, 3, 0), Ok(1));
    assert_eq!(matrix.lookup(1, 0, 0), Ok(2));
    assert_eq!(matrix.lookup(1, 3, 0), Ok(3));
}

#[test]
fn matrix_removal() {
    let mut matrix = AdjMatrix::default();
    matrix.insert(Entry::new(0, 1, 0, Dir::Outgoing));
    matrix.insert(Entry::new(0, 3, 0, Dir::Outgoing));
    matrix.insert(Entry::new(1, 0, 0, Dir::Incoming));
    matrix.insert(Entry::new(1, 3, 0, Dir::Outgoing));
    assert_eq!(matrix.lookup(0, 1, 0), Ok(0));
    assert_eq!(matrix.lookup(0, 3, 0), Ok(1));
    assert_eq!(matrix.lookup(1, 0, 0), Ok(2));
    assert_eq!(matrix.lookup(1, 3, 0), Ok(3));
    matrix.remove(0, 3, 0);
    assert_eq!(matrix.lookup(1, 0, 0), Ok(1));
    assert_eq!(matrix.lookup(1, 3, 0), Ok(2));
}

#[test]
fn matrix_connection() {
    let mut matrix = AdjMatrix::default();
    matrix.connect((0, 0), (1, 0));
    assert_eq!(matrix.lookup(0, 1, 0), Ok(0));
    assert_eq!(matrix.lookup(1, 0, 0), Ok(1));
}

#[test]
fn insertion_rejects_duplicate_key() {
    let mut matrix = AdjMatrix::default();
    assert!(matrix.insert(Entry::new(4, 2, 1, Dir::Outgoing)));
    assert!(!matrix.insert(Entry::new(4, 2, 1, Dir::Incoming)));
    assert_eq!(matrix.lookup(4, 2, 1), Ok(0));
    assert_eq!(matrix.lookup(5, 0, 0), Err(1));
}

#[test]
fn removal_of_missing_key_reports_not_found() {
    let mut matrix = fixed_matrix();
    assert!(!matrix.remove(2, 1, 0));
    assert!(!matrix.remove(0, 1, 7));
    assert_eq!(matrix.lookup(0, 1, 0), Ok(0));
    assert_eq!(matrix.lookup(3, 1, 0), Ok(5));
    assert!(matrix.remove(0, 3, 0));
    assert_eq!(matrix.lookup(3, 1, 0), Ok(4));
}

#[test]
fn connection_query_scenario() {
    let mut matrix = AdjMatrix::default();
    assert!(matrix.connect((0, 0), (1, 0)));
    assert_eq!(matrix.outgoing(0, 0), vec![(1, 0)]);
    assert_eq!(matrix.incoming(1, 0), vec![(0, 0)]);
    assert_eq!(matrix.incoming(0, 0), vec![]);
    assert_eq!(matrix.outgoing(1, 0), vec![]);
}

#[test]
fn connection_rejects_taken_or_coinciding_keys() {
    let mut matrix = AdjMatrix::default();
    assert!(!matrix.connect((5, 1), (5, 1)));
    assert!(matrix.connect((0, 0), (1, 0)));
    assert!(!matrix.connect((0, 0), (1, 5)));
    assert_eq!(matrix.lookup(0, 1, 0), Ok(0));
    assert_eq!(matrix.lookup(1, 0, 5), Err(2));
}

#[test]
fn disconnection_round_trip_restores_prior_state() {
    let mut matrix = fixed_matrix();
    assert!(matrix.connect((2, 0), (0, 2)));
    assert!(matrix.disconnect((2, 0), (0, 2)));
    assert_eq!(matrix.lookup(0, 1, 0), Ok(0));
    assert_eq!(matrix.lookup(0, 3, 0), Ok(1));
    assert_eq!(matrix.lookup(1, 0, 0), Ok(2));
    assert_eq!(matrix.lookup(1, 3, 0), Ok(3));
    assert_eq!(matrix.lookup(3, 0, 0), Ok(4));
    assert_eq!(matrix.lookup(3, 1, 0), Ok(5));
    assert_eq!(matrix.lookup(2, 0, 0), Err(4));
    assert_eq!(matrix.lookup(0, 2, 2), Err(1));
}

#[test]
fn disconnection_of_missing_pair_reports_not_connected() {
    let mut matrix = AdjMatrix::default();
    assert!(!matrix.disconnect((0, 0), (1, 0)));
    assert!(matrix.connect((0, 0), (1, 0)));
    assert!(!matrix.disconnect((0, 0), (1, 1)));
    assert!(matrix.disconnect((0, 0), (1, 0)));
    assert!(!matrix.disconnect((0, 0), (1, 0)));
}

#[test]
fn removing_all_clears_a_node_and_spares_the_rest() {
    let mut matrix = AdjMatrix::default();
    assert!(matrix.connect((2, 0), (0, 0)));
    assert!(matrix.connect((2, 1), (1, 0)));
    assert!(matrix.connect((1, 2), (2, 3)));
    assert!(matrix.connect((0, 1), (1, 1)));
    matrix.remove_all(2);
    assert_eq!(matrix.indegree(2), 0);
    assert_eq!(matrix.outdegree(2), 0);
    assert_eq!(matrix.incoming(0, 0), vec![]);
    assert_eq!(matrix.incoming(1, 0), vec![]);
    assert_eq!(matrix.outgoing(1, 2), vec![]);
    assert_eq!(matrix.outgoing(0, 1), vec![(1, 1)]);
    assert_eq!(matrix.incoming(1, 1), vec![(0, 1)]);
}

#[test]
fn adjacency_lists_peers_of_a_port() {
    let mut matrix = AdjMatrix::default();
    assert!(matrix.connect((0, 0), (1, 0)));
    assert!(matrix.connect((2, 1), (0, 0)));
    let triples = matrix.adjacent(0, 0);
    assert_eq!(triples, vec![(1, 0, Dir::Outgoing), (2, 0, Dir::Incoming)]);
    assert_eq!(matrix.adjacent(0, 3), vec![]);
    assert_eq!(matrix.adjacent(7, 0), vec![]);
}

#[test]
fn degrees_count_edges_by_direction() {
    let mut matrix = AdjMatrix::default();
    assert!(matrix.connect((0, 0), (1, 0)));
    assert!(matrix.connect((0, 1), (2, 0)));
    assert!(matrix.connect((3, 0), (0, 2)));
    assert_eq!(matrix.outdegree(0), 2);
    assert_eq!(matrix.indegree(0), 1);
    assert_eq!(matrix.outdegree(3), 1);
    assert_eq!(matrix.indegree(3), 0);
    assert_eq!(matrix.indegree(9), 0);
}

#[test]
fn aggregate_counts_track_highest_key_parts() {
    let mut matrix = AdjMatrix::default();
    assert_eq!(matrix.num_nodes(), 0);
    assert_eq!(matrix.num_ports(0), 0);
    assert!(matrix.connect((0, 0), (5, 2)));
    assert!(matrix.connect((0, 4), (1, 0)));
    assert_eq!(matrix.num_nodes(), 5);
    assert_eq!(matrix.num_ports(0), 4);
    assert_eq!(matrix.num_ports(5), 2);
    assert_eq!(matrix.num_ports(9), 0);
}

#[test]
fn direction_negation_flips_the_tag() {
    assert_eq!(Dir::Incoming.neg(), Dir::Outgoing);
    assert_eq!(Dir::Outgoing.neg(), Dir::Incoming);
}
