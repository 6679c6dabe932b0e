use gaf2pack::coverage::Coverage;
use gaf2pack::error::PackError;
use gaf2pack::graph::parse_gfa_file;
use gaf2pack::pack::PackRow;
use gaf2pack::strategy::{
    chunk_increments, pack_chunk, pack_wrapper, rayon_run, run, split_method, Strategy,
};

fn two_node_graph() -> Vec<String> {
    vec!["S\t1\tAAAA".to_string(), "S\t2\tAA".to_string()]
}

fn alignment(walk: &str, length: usize, cigar: &str) -> String {
    format!("q\t9\t0\t9\t+\t{walk}\t{length}\t0\t{length}\t9\t9\t60\tcg:Z:{cigar}")
}

fn coverage_column(rows: &[PackRow]) -> Vec<usize> {
    rows.iter().map(|r| r.coverage).collect()
}

#[test]
fn line_dynamic_counts_every_line() {
    let lines = vec![
        alignment(">1", 4, "4M"),
        alignment("<2", 2, "2M"),
        alignment(">1>2", 6, "1M1D3M"),
        alignment("0", 0, "*"),
        alignment(">1", 4, "4M"),
    ];
    let rows = rayon_run(&two_node_graph(), &lines).unwrap();
    assert_eq!(coverage_column(&rows), vec![3, 2, 3, 3, 2, 1]);
    assert_eq!(
        rows[4],
        PackRow { seq_pos: 4, node_id: 2, node_offset: 0, coverage: 2 }
    );
    assert_eq!(rows.len(), 6);
}

#[test]
fn line_dynamic_is_repeatable() {
    let lines = vec![alignment(">1", 4, "2M"), alignment("<1>2", 6, "5M")];
    let first = rayon_run(&two_node_graph(), &lines).unwrap();
    let second = rayon_run(&two_node_graph(), &lines).unwrap();
    assert_eq!(first, second);
}

#[test]
fn strategies_agree_without_duplicates() {
    let lines = vec![
        alignment(">1", 4, "4M"),
        alignment("<2", 2, "2M"),
        alignment(">1", 4, "4M"),
        alignment(">1>2", 6, "1M1D3M"),
        alignment("<2", 2, "2M"),
        alignment("<1", 4, "3M"),
        alignment("0", 0, "*"),
    ];
    let dynamic = rayon_run(&two_node_graph(), &lines).unwrap();
    assert_eq!(rayon_run(&two_node_graph(), &lines).unwrap(), dynamic);
    for threads in 1..10 {
        assert_eq!(split_method(&two_node_graph(), &lines, threads).unwrap(), dynamic);
    }
}

#[test]
fn chunked_leaves_out_repeated_lines() {
    let lines = vec![
        alignment(">1", 4, "4M"),
        alignment(">1", 4, "4M"),
        alignment(">1", 4, "4M"),
        alignment("<2", 2, "2M"),
        alignment(">1", 4, "4M"),
        alignment("<2", 2, "1M"),
        alignment("<2", 2, "1M"),
    ];
    let dynamic = rayon_run(&two_node_graph(), &lines).unwrap();
    assert_eq!(coverage_column(&dynamic), vec![4, 4, 4, 4, 1, 3]);
    for threads in 1..10 {
        let chunked = split_method(&two_node_graph(), &lines, threads).unwrap();
        assert_eq!(coverage_column(&chunked), vec![2, 2, 2, 2, 1, 2]);
    }
}

#[test]
fn empty_alignment_gives_zero_coverage() {
    let rows = rayon_run(&two_node_graph(), &Vec::new()).unwrap();
    assert_eq!(coverage_column(&rows), vec![0; 6]);
    assert_eq!(split_method(&two_node_graph(), &Vec::new(), 3).unwrap(), rows);
}

#[test]
fn errors_end_the_run() {
    let lines = vec![alignment(">1", 4, "4M"), alignment(">3", 4, "4M"), "".to_string()];
    assert_eq!(rayon_run(&two_node_graph(), &lines).unwrap_err(), PackError::UnknownNode);
    assert_eq!(split_method(&two_node_graph(), &lines, 2).unwrap_err(), PackError::UnknownNode);
    assert_eq!(rayon_run(&Vec::new(), &lines).unwrap_err(), PackError::EmptyGraph);
    assert_eq!(split_method(&Vec::new(), &lines, 1).unwrap_err(), PackError::EmptyGraph);
    let blank = vec![alignment(">1", 4, "4M"), "".to_string()];
    assert_eq!(rayon_run(&two_node_graph(), &blank).unwrap_err(), PackError::MissingField);
}

#[test]
fn repeated_bad_line_fails_once_is_enough() {
    let lines = vec![alignment(">1", 4, "4M"), alignment(">1", 4, "9M"), alignment(">1", 4, "9M")];
    assert_eq!(
        split_method(&two_node_graph(), &lines, 3).unwrap_err(),
        PackError::PathIndexOutOfRange
    );
}

#[test]
fn chunk_of_lines() {
    let graph = parse_gfa_file(&two_node_graph()).unwrap();
    let lines = vec![
        alignment(">1", 4, "1M"),
        alignment(">1", 4, "1M"),
        alignment("<2", 2, "2M"),
        alignment("<2", 2, "2M"),
        alignment(">1", 4, "1M"),
    ];
    assert_eq!(chunk_increments(&lines, 0, 5, &graph).unwrap(), vec![0, 5, 4, 0]);
    assert_eq!(chunk_increments(&lines, 1, 4, &graph).unwrap(), vec![0, 5, 4]);
    assert_eq!(chunk_increments(&lines, 3, 4, &graph).unwrap(), vec![5, 4]);
    assert_eq!(chunk_increments(&lines, 2, 2, &graph).unwrap(), Vec::new());
    let table = pack_chunk(&lines, 0, 5, &graph, Coverage::new(6)).unwrap();
    assert_eq!(table.counts(), &vec![2, 0, 0, 0, 1, 1]);
    let table = pack_chunk(&lines, 1, 2, &graph, table).unwrap();
    assert_eq!(table.counts(), &vec![3, 0, 0, 0, 1, 1]);
    let table = pack_wrapper(&lines, &graph, Coverage::new(6)).unwrap();
    assert_eq!(table.counts(), &vec![3, 0, 0, 0, 2, 2]);
}

#[test]
fn table_of_another_graph_is_rejected() {
    let graph = parse_gfa_file(&two_node_graph()).unwrap();
    let lines = vec![alignment("<2", 2, "2M")];
    assert_eq!(
        pack_wrapper(&lines, &graph, Coverage::new(5)).unwrap_err(),
        PackError::CoordinateOutOfRange
    );
}

#[test]
fn strategies_behind_one_interface() {
    let graph = two_node_graph();
    let distinct =
        vec![alignment(">1", 4, "4M"), alignment("<2", 2, "2M"), alignment(">1", 4, "4M")];
    let dynamic = run(Strategy::LineDynamic, &graph, &distinct).unwrap();
    assert_eq!(dynamic, rayon_run(&graph, &distinct).unwrap());
    assert_eq!(coverage_column(&dynamic), vec![2, 2, 2, 2, 1, 1]);
    for threads in 1..5 {
        assert_eq!(run(Strategy::Chunked(threads), &graph, &distinct).unwrap(), dynamic);
    }
    let repeated = vec![alignment(">1", 4, "4M"), alignment(">1", 4, "4M")];
    let every = run(Strategy::LineDynamic, &graph, &repeated).unwrap();
    let once = run(Strategy::Chunked(2), &graph, &repeated).unwrap();
    assert_eq!(coverage_column(&every), vec![2, 2, 2, 2, 0, 0]);
    assert_eq!(coverage_column(&once), vec![1, 1, 1, 1, 0, 0]);
    assert_eq!(once, split_method(&graph, &repeated, 2).unwrap());
}
