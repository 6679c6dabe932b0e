use gaf2pack::cigar::{CigarOperation, CigarUnit};
use gaf2pack::error::PackError;
use gaf2pack::graph::{parse_gfa_file, GraphIndex};
use gaf2pack::mapper::{
    emit_increments, map_record, parse_line, parse_record, walk_positions, AlignmentRecord,
};

fn small_graph() -> GraphIndex {
    parse_gfa_file(&vec!["S\t1\tAAAA".to_string(), "S\t2\tAA".to_string()]).unwrap()
}

fn three_nodes() -> GraphIndex {
    parse_gfa_file(&vec![
        "S\t1\tAAA".to_string(),
        "S\t2\tCCCCC".to_string(),
        "S\t3\tGG".to_string(),
    ])
    .unwrap()
}

fn gaf(walk: &str, path_len: &str, start: &str, end: &str, cigar: &str) -> String {
    format!("read\t10\t0\t10\t+\t{walk}\t{path_len}\t{start}\t{end}\t9\t10\t60\tcg:Z:{cigar}")
}

fn matching(length: usize) -> CigarUnit {
    CigarUnit { length, operation: CigarOperation::Match }
}

fn deleting(length: usize) -> CigarUnit {
    CigarUnit { length, operation: CigarOperation::Deletion }
}

#[test]
fn forward_walk_with_full_match() {
    let graph = small_graph();
    assert_eq!(parse_line(&gaf(">1", "4", "0", "4", "4M"), &graph).unwrap(), vec![0, 1, 2, 3]);
}

#[test]
fn reverse_walk_with_partial_match() {
    let graph = small_graph();
    assert_eq!(parse_line(&gaf("<1", "4", "0", "2", "2M"), &graph).unwrap(), vec![3, 2]);
}

#[test]
fn full_match_covers_the_node_in_order() {
    let graph = three_nodes();
    for (node, expected) in [(1, vec![0, 1, 2]), (2, vec![3, 4, 5, 6, 7]), (3, vec![8, 9])] {
        let record = AlignmentRecord {
            node_id: vec![node],
            dirs: vec![true],
            offset: 0,
            cigar: vec![matching(expected.len())],
        };
        assert_eq!(map_record(&record, &graph).unwrap(), expected);
    }
}

#[test]
fn reverse_full_match_covers_the_same_coordinates_backwards() {
    let graph = three_nodes();
    let forward = AlignmentRecord {
        node_id: vec![2],
        dirs: vec![true],
        offset: 0,
        cigar: vec![matching(5)],
    };
    let backward = AlignmentRecord {
        node_id: vec![2],
        dirs: vec![false],
        offset: 0,
        cigar: vec![matching(5)],
    };
    let up = map_record(&forward, &graph).unwrap();
    let down = map_record(&backward, &graph).unwrap();
    assert_eq!(up, vec![3, 4, 5, 6, 7]);
    assert_eq!(down, vec![7, 6, 5, 4, 3]);
    assert!(down.windows(2).all(|w| w[0] > w[1]));
    let mut sorted = down.clone();
    sorted.sort();
    assert_eq!(sorted, up);
}

#[test]
fn walk_over_several_nodes() {
    let graph = three_nodes();
    assert_eq!(
        parse_line(&gaf(">1<2>3", "10", "0", "10", "10M"), &graph).unwrap(),
        vec![0, 1, 2, 7, 6, 5, 4, 3, 8, 9]
    );
}

#[test]
fn start_offset_skips_path_positions() {
    let graph = three_nodes();
    assert_eq!(
        parse_line(&gaf(">1<2>3", "10", "2", "6", "4M"), &graph).unwrap(),
        vec![2, 7, 6, 5]
    );
}

#[test]
fn deletion_moves_the_cursor_without_increment() {
    let graph = three_nodes();
    assert_eq!(
        parse_line(&gaf(">1>2", "8", "1", "8", "2M3D2M"), &graph).unwrap(),
        vec![1, 2, 6, 7]
    );
}

#[test]
fn other_operations_do_not_move_the_cursor() {
    let graph = three_nodes();
    assert_eq!(
        parse_line(&gaf(">1>2", "8", "0", "8", "2M3I2M1S"), &graph).unwrap(),
        vec![0, 1, 2, 3]
    );
    let record = AlignmentRecord {
        node_id: vec![1, 2],
        dirs: vec![true, true],
        offset: 0,
        cigar: vec![
            matching(1),
            CigarUnit { length: 2, operation: CigarOperation::Insertion },
            matching(1),
        ],
    };
    assert_eq!(map_record(&record, &graph).unwrap(), vec![0, 3]);
}

#[test]
fn record_without_alignment_is_skipped() {
    let graph = small_graph();
    assert_eq!(parse_line("read\t10\t0\t10\t+\t0", &graph).unwrap(), Vec::new());
    assert_eq!(parse_line(&gaf("0", "x", "y", "z", "??"), &graph).unwrap(), Vec::new());
    assert!(parse_record("a b c d e 0").unwrap().is_none());
}

#[test]
fn record_with_path_shorter_than_sentinel_is_skipped() {
    let graph = small_graph();
    assert_eq!(parse_line(&gaf(">1", "3", "0", "4", "4M"), &graph).unwrap(), Vec::new());
    assert_eq!(parse_line(&gaf(">9", "3", "0", "4", "bad"), &graph).unwrap(), Vec::new());
    assert_eq!(parse_line("r 1 0 1 + >1 3 0 4 1", &graph).unwrap(), Vec::new());
    assert_eq!(parse_line(&gaf(">1", "4", "0", "4", "4M"), &graph).unwrap().len(), 4);
}

#[test]
fn malformed_walk_wins_over_short_path() {
    let graph = small_graph();
    assert_eq!(
        parse_line(&gaf(">1x", "3", "0", "4", "4M"), &graph).unwrap_err(),
        PackError::InvalidWalk
    );
    assert_eq!(
        parse_line(&gaf(">1", "3", "zero", "4", "4M"), &graph).unwrap_err(),
        PackError::InvalidInteger
    );
}

#[test]
fn fields_are_split_at_any_whitespace() {
    let graph = small_graph();
    let line = "  read 10  0\t10 +   >1 4 0\u{a0}4 4 4 60 tp:A:P   cg:Z:2M:tail  ";
    assert_eq!(parse_line(line, &graph).unwrap(), vec![0, 1]);
}

#[test]
fn record_fields() {
    let record = parse_record(&gaf("<2>1", "6", "1", "5", "1M2D3M")).unwrap().unwrap();
    assert_eq!(record.node_id, vec![2, 1]);
    assert_eq!(record.dirs, vec![false, true]);
    assert_eq!(record.offset, 1);
    assert_eq!(record.cigar, vec![matching(1), deleting(2), matching(3)]);
}

#[test]
fn missing_fields_are_rejected() {
    let graph = small_graph();
    assert_eq!(parse_line("", &graph).unwrap_err(), PackError::MissingField);
    assert_eq!(parse_line("a b c d e", &graph).unwrap_err(), PackError::MissingField);
    assert_eq!(parse_line("a b c d e >1", &graph).unwrap_err(), PackError::MissingField);
    assert_eq!(parse_line("a b c d e >1 4 0 4", &graph).unwrap_err(), PackError::MissingField);
    assert_eq!(parse_line("a b c d e >1 4 0 4 4", &graph).unwrap_err(), PackError::MissingField);
}

#[test]
fn numeric_fields_have_to_be_integers() {
    let graph = small_graph();
    for line in [
        gaf(">1", "four", "0", "4", "4M"),
        gaf(">1", "4", "-0", "4", "4M"),
        gaf(">1", "4", "0", "4.0", "4M"),
        "a b c d e >1 4 0 4 x 1 1 cg:Z:4M".to_string(),
        gaf(">1", "99999999999999999999999999", "0", "4", "4M"),
    ] {
        assert_eq!(parse_line(&line, &graph).unwrap_err(), PackError::InvalidInteger);
    }
    assert_eq!(parse_line(&gaf(">1", "+4", "+0", "+4", "4M"), &graph).unwrap(), vec![0, 1, 2, 3]);
}

#[test]
fn last_field_needs_three_parts() {
    let graph = small_graph();
    assert_eq!(
        parse_line("a b c d e >1 4 0 4 4 4 60 cg:4M", &graph).unwrap_err(),
        PackError::MissingCigar
    );
    assert_eq!(
        parse_line("a b c d e >1 4 0 4 4 4M", &graph).unwrap_err(),
        PackError::MissingCigar
    );
    assert_eq!(parse_line("a b c d e >1 4 0 4 4 ::4M", &graph).unwrap(), vec![0, 1, 2, 3]);
    assert_eq!(parse_line("a b c d e >1 4 0 4 4 cg:Z:", &graph).unwrap(), Vec::new());
}

#[test]
fn malformed_cigar_is_rejected() {
    let graph = small_graph();
    assert_eq!(
        parse_line(&gaf(">1", "4", "0", "4", "M"), &graph).unwrap_err(),
        PackError::MissingLength
    );
    assert_eq!(
        parse_line(&gaf(">1", "4", "0", "4", "4"), &graph).unwrap_err(),
        PackError::MissingOperation
    );
    assert_eq!(
        parse_line(&gaf(">1", "4", "0", "4", "4Q"), &graph).unwrap_err(),
        PackError::UnknownOperation
    );
}

#[test]
fn unknown_node_is_rejected() {
    let graph = small_graph();
    assert_eq!(
        parse_line(&gaf(">3", "4", "0", "4", "4M"), &graph).unwrap_err(),
        PackError::UnknownNode
    );
    assert_eq!(
        parse_line(&gaf(">1>0", "4", "0", "4", "4M"), &graph).unwrap_err(),
        PackError::UnknownNode
    );
    assert_eq!(
        walk_positions(&vec![2, 7], &vec![true, true], graph.lengths()).unwrap_err(),
        PackError::UnknownNode
    );
}

#[test]
fn match_beyond_the_path_is_rejected() {
    let graph = small_graph();
    assert_eq!(
        parse_line(&gaf(">1", "4", "0", "4", "5M"), &graph).unwrap_err(),
        PackError::PathIndexOutOfRange
    );
    assert_eq!(
        parse_line(&gaf(">1", "4", "2", "4", "3M"), &graph).unwrap_err(),
        PackError::PathIndexOutOfRange
    );
    assert_eq!(
        parse_line(&gaf(">1", "4", "0", "4", "2M3D1M"), &graph).unwrap_err(),
        PackError::PathIndexOutOfRange
    );
    let far = "18446744073709551615D18446744073709551615D1M";
    assert_eq!(
        parse_line(&gaf(">1", "4", "0", "4", far), &graph).unwrap_err(),
        PackError::PathIndexOutOfRange
    );
}

#[test]
fn cursor_beyond_the_path_without_match_is_accepted() {
    let graph = small_graph();
    assert_eq!(parse_line(&gaf(">1", "4", "0", "4", "4M9D"), &graph).unwrap(), vec![0, 1, 2, 3]);
    assert_eq!(parse_line(&gaf(">1", "4", "9", "4", "3D0M"), &graph).unwrap(), Vec::new());
    let far = "18446744073709551615D18446744073709551615D";
    assert_eq!(parse_line(&gaf(">1", "4", "0", "4", far), &graph).unwrap(), Vec::new());
}

#[test]
fn walk_positions_follow_the_direction() {
    let graph = small_graph();
    assert_eq!(
        walk_positions(&vec![2, 1], &vec![true, false], graph.lengths()).unwrap(),
        vec![(2, 0), (2, 1), (1, 3), (1, 2), (1, 1), (1, 0)]
    );
    assert_eq!(
        walk_positions(&vec![2, 1], &vec![false], graph.lengths()).unwrap(),
        vec![(2, 1), (2, 0)]
    );
}

#[test]
fn increments_follow_the_path() {
    let graph = small_graph();
    let path = vec![(2, 1), (2, 0), (1, 0), (1, 1)];
    assert_eq!(
        emit_increments(&vec![matching(1), deleting(1), matching(2)], 0, &path, &graph).unwrap(),
        vec![5, 0, 1]
    );
}

#[test]
fn increments_stay_inside_the_coordinate_space() {
    let graph = three_nodes();
    let all = parse_line(&gaf("<3<2<1>1>2>3", "20", "0", "20", "20M"), &graph).unwrap();
    assert_eq!(all.len(), 20);
    assert!(all.iter().all(|c| *c < graph.total_size()));
}
