use gaf2pack::error::PackError;
use gaf2pack::walk::{encode_path, parse_path};

#[test]
fn walk_of_three_nodes() {
    let (ids, dirs) = parse_path(">1<2>33").unwrap();
    assert_eq!(ids, vec![1, 2, 33]);
    assert_eq!(dirs, vec![true, false, true]);
}

#[test]
fn first_marker_sets_first_direction() {
    assert_eq!(parse_path("<7").unwrap(), (vec![7], vec![false]));
    assert_eq!(parse_path(">7").unwrap(), (vec![7], vec![true]));
    assert_eq!(parse_path(">0").unwrap(), (vec![0], vec![true]));
}

#[test]
fn empty_walk_is_rejected() {
    assert_eq!(parse_path("").unwrap_err(), PackError::EmptyWalk);
}

#[test]
fn walk_has_to_begin_with_a_marker() {
    assert_eq!(parse_path("12").unwrap_err(), PackError::InvalidWalk);
    assert_eq!(parse_path("0").unwrap_err(), PackError::InvalidWalk);
    assert_eq!(parse_path("*").unwrap_err(), PackError::InvalidWalk);
}

#[test]
fn stray_character_in_walk_is_rejected() {
    assert_eq!(parse_path(">1x2").unwrap_err(), PackError::InvalidWalk);
    assert_eq!(parse_path(">1 <2").unwrap_err(), PackError::InvalidWalk);
    assert_eq!(parse_path(">1+2").unwrap_err(), PackError::InvalidWalk);
}

#[test]
fn marker_without_id_is_rejected() {
    assert_eq!(parse_path(">").unwrap_err(), PackError::MissingNodeId);
    assert_eq!(parse_path(">1<").unwrap_err(), PackError::MissingNodeId);
    assert_eq!(parse_path("><1").unwrap_err(), PackError::MissingNodeId);
    assert_eq!(parse_path(">x").unwrap_err(), PackError::MissingNodeId);
}

#[test]
fn node_id_has_to_fit() {
    assert_eq!(
        parse_path(">340282366920938463463374607431768211456").unwrap_err(),
        PackError::NumberTooLarge
    );
    let largest = format!(">{}", usize::MAX);
    assert_eq!(parse_path(&largest).unwrap(), (vec![usize::MAX], vec![true]));
}

#[test]
fn first_error_in_walk_wins() {
    assert_eq!(parse_path(">1<x>").unwrap_err(), PackError::MissingNodeId);
    assert_eq!(parse_path(">99999999999999999999999999x").unwrap_err(), PackError::NumberTooLarge);
}

#[test]
fn walk_round_trip() {
    for text in [">1", "<1", ">1<2>33", "<10>200<3000", ">0", "<18446744073709551615"] {
        let (ids, dirs) = parse_path(text).unwrap();
        assert_eq!(encode_path(&ids, &dirs), text);
    }
}

#[test]
fn leading_zeros_do_not_survive_a_round_trip() {
    let (ids, dirs) = parse_path(">01<002").unwrap();
    assert_eq!(ids, vec![1, 2]);
    assert_eq!(encode_path(&ids, &dirs), ">1<2");
}

#[test]
fn encoded_walk_decodes_to_itself() {
    let ids = vec![5, 0, 120, 7];
    let dirs = vec![false, true, true, false];
    let text = encode_path(&ids, &dirs);
    assert_eq!(text, "<5>0>120<7");
    assert_eq!(parse_path(&text).unwrap(), (ids, dirs));
    assert_eq!(encode_path(&Vec::new(), &Vec::new()), "");
}

#[test]
fn ids_and_directions_pair_up_by_position() {
    assert_eq!(encode_path(&vec![1, 2, 3], &vec![true, false]), ">1<2");
    assert_eq!(encode_path(&vec![1], &vec![false, true, true]), "<1");
}
