use gaf2pack::error::PackError;
use gaf2pack::graph::{find_change_points, parse_gfa_file, parse_segment, GraphIndex};

fn graph_text(text: &[&str]) -> Vec<String> {
    text.iter().map(|l| l.to_string()).collect()
}

#[test]
fn offsets_of_two_nodes() {
    let graph = parse_gfa_file(&graph_text(&["S\t1\tAAAA", "S\t2\tAA"])).unwrap();
    assert_eq!(graph.lengths(), &vec![4, 2]);
    assert_eq!(graph.offsets(), &vec![0, 4]);
    assert_eq!(graph.total_size(), 6);
    assert!(graph.dense());
}

#[test]
fn change_points_are_an_exclusive_prefix_sum() {
    let pairs = vec![(1, 3), (2, 0), (3, 5), (4, 1)];
    let (index, total) = find_change_points(&pairs).unwrap();
    assert_eq!(index, vec![0, 3, 3, 8]);
    assert_eq!(total, 9);
    assert_eq!(index[0], 0);
    for i in 0..pairs.len() - 1 {
        assert_eq!(index[i + 1], index[i] + pairs[i].1);
    }
    assert_eq!(index[pairs.len() - 1] + pairs[pairs.len() - 1].1, total);
}

#[test]
fn change_points_of_nothing() {
    let (index, total) = find_change_points(&Vec::new()).unwrap();
    assert!(index.is_empty());
    assert_eq!(total, 0);
}

#[test]
fn change_points_that_do_not_fit() {
    assert_eq!(find_change_points(&vec![(1, usize::MAX), (2, 1)]), None);
    let (index, total) = find_change_points(&vec![(1, usize::MAX - 1), (2, 1)]).unwrap();
    assert_eq!(index, vec![0, usize::MAX - 1]);
    assert_eq!(total, usize::MAX);
}

#[test]
fn segments_are_sorted_by_id() {
    let graph = parse_gfa_file(&graph_text(&[
        "H\tVN:Z:1.0",
        "S\t3\tACGTA",
        "L\t1\t+\t2\t+\t0M",
        "S\t1\tAC",
        "S\t2\tA\tLN:i:1",
    ]))
    .unwrap();
    assert_eq!(graph.lengths(), &vec![2, 1, 5]);
    assert_eq!(graph.offsets(), &vec![0, 2, 3]);
    assert_eq!(graph.total_size(), 8);
    assert!(graph.dense());
}

#[test]
fn sparse_ids_are_reported() {
    let graph = parse_gfa_file(&graph_text(&["S\t2\tAC", "S\t5\tACG"])).unwrap();
    assert_eq!(graph.lengths(), &vec![2, 3]);
    assert!(!graph.dense());
    let repeated = graph_text(&["S\t1\tAC", "S\t2\tACG", "S\t2\tA", "S\t4\tT"]);
    let graph = parse_gfa_file(&repeated).unwrap();
    assert_eq!(graph.lengths(), &vec![2, 1, 3, 1]);
    assert!(!graph.dense());
}

#[test]
fn node_length_counts_characters() {
    let graph = parse_gfa_file(&graph_text(&["S\t1\t\u{e9}\u{e9}\u{e9}"])).unwrap();
    assert_eq!(graph.lengths(), &vec![3]);
    assert_eq!(parse_segment("S\t7\t"), Some(Ok((7, 0))));
}

#[test]
fn segment_lines() {
    assert_eq!(parse_segment("S\t12\tACGT"), Some(Ok((12, 4))));
    assert_eq!(parse_segment("S\t+12\tACGT\textra"), Some(Ok((12, 4))));
    assert_eq!(parse_segment("Sequence\t3\tAC"), Some(Ok((3, 2))));
    assert_eq!(parse_segment("L\t1\t+\t2\t+\t0M"), None);
    assert_eq!(parse_segment(""), None);
    assert_eq!(parse_segment(" S\t1\tA"), None);
}

#[test]
fn graph_without_segments_is_rejected() {
    assert_eq!(parse_gfa_file(&Vec::new()).unwrap_err(), PackError::EmptyGraph);
    assert_eq!(
        parse_gfa_file(&graph_text(&["H\tVN:Z:1.0", "L\t1\t+\t2\t+\t0M"])).unwrap_err(),
        PackError::EmptyGraph
    );
}

#[test]
fn short_segment_is_rejected() {
    assert_eq!(parse_segment("S\t1"), Some(Err(PackError::ShortSegment)));
    assert_eq!(parse_segment("S"), Some(Err(PackError::ShortSegment)));
    assert_eq!(parse_segment("S 1 ACGT"), Some(Err(PackError::ShortSegment)));
    assert_eq!(
        parse_gfa_file(&graph_text(&["S\t1\tAC", "S\t2"])).unwrap_err(),
        PackError::ShortSegment
    );
}

#[test]
fn segment_id_has_to_be_a_positive_integer() {
    assert_eq!(parse_segment("S\tx\tAC"), Some(Err(PackError::InvalidNodeId)));
    assert_eq!(parse_segment("S\t\tAC"), Some(Err(PackError::InvalidNodeId)));
    assert_eq!(parse_segment("S\t0\tAC"), Some(Err(PackError::InvalidNodeId)));
    assert_eq!(parse_segment("S\t-1\tAC"), Some(Err(PackError::InvalidNodeId)));
    assert_eq!(parse_segment("S\t1 \tAC"), Some(Err(PackError::InvalidNodeId)));
    assert_eq!(
        parse_segment("S\t99999999999999999999999999\tAC"),
        Some(Err(PackError::InvalidNodeId))
    );
    assert_eq!(
        parse_gfa_file(&graph_text(&["S\tone\tAC", "S"])).unwrap_err(),
        PackError::InvalidNodeId
    );
}

#[test]
fn index_over_a_length_table() {
    let graph = GraphIndex::new(vec![4, 0, 2]).unwrap();
    assert_eq!(graph.lengths(), &vec![4, 0, 2]);
    assert_eq!(graph.offsets(), &vec![0, 4, 4]);
    assert_eq!(graph.total_size(), 6);
    assert!(graph.dense());
}

#[test]
fn empty_length_table_is_rejected() {
    assert_eq!(GraphIndex::new(Vec::new()).unwrap_err(), PackError::EmptyGraph);
}

#[test]
fn graph_larger_than_the_address_space_is_rejected() {
    assert_eq!(
        GraphIndex::new(vec![usize::MAX, 0, 1]).unwrap_err(),
        PackError::GraphTooLarge
    );
    assert_eq!(GraphIndex::new(vec![usize::MAX, 0]).unwrap().total_size(), usize::MAX);
}
