use gaf2pack::cigar::{parse_cigar_string, CigarOperation, CigarUnit};
use gaf2pack::error::PackError;

fn cigar_unit(length: usize, operation: CigarOperation) -> CigarUnit {
    CigarUnit { length, operation }
}

#[test]
fn single_match() {
    assert_eq!(parse_cigar_string("4M").unwrap(), vec![cigar_unit(4, CigarOperation::Match)]);
}

#[test]
fn matches_and_deletions() {
    assert_eq!(
        parse_cigar_string("12M3D40M").unwrap(),
        vec![
            cigar_unit(12, CigarOperation::Match),
            cigar_unit(3, CigarOperation::Deletion),
            cigar_unit(40, CigarOperation::Match),
        ]
    );
    assert_eq!(parse_cigar_string("0M").unwrap(), vec![cigar_unit(0, CigarOperation::Match)]);
    assert_eq!(parse_cigar_string("007D").unwrap(), vec![cigar_unit(7, CigarOperation::Deletion)]);
}

#[test]
fn other_operations_leave_no_unit() {
    assert_eq!(parse_cigar_string("5I").unwrap(), Vec::new());
    assert_eq!(parse_cigar_string("3S2H1N4P6=7X").unwrap(), Vec::new());
    assert_eq!(
        parse_cigar_string("2S10M1I5M2D3=").unwrap(),
        vec![
            cigar_unit(10, CigarOperation::Match),
            cigar_unit(5, CigarOperation::Match),
            cigar_unit(2, CigarOperation::Deletion),
        ]
    );
}

#[test]
fn empty_cigar_has_no_units() {
    assert_eq!(parse_cigar_string("").unwrap(), Vec::new());
}

#[test]
fn operation_without_length_is_rejected() {
    assert_eq!(parse_cigar_string("M").unwrap_err(), PackError::MissingLength);
    assert_eq!(parse_cigar_string("4MD").unwrap_err(), PackError::MissingLength);
    assert_eq!(parse_cigar_string("I").unwrap_err(), PackError::MissingLength);
}

#[test]
fn length_without_operation_is_rejected() {
    assert_eq!(parse_cigar_string("12").unwrap_err(), PackError::MissingOperation);
    assert_eq!(parse_cigar_string("4M3").unwrap_err(), PackError::MissingOperation);
}

#[test]
fn unknown_operation_is_rejected() {
    assert_eq!(parse_cigar_string("3Z").unwrap_err(), PackError::UnknownOperation);
    assert_eq!(parse_cigar_string("3m").unwrap_err(), PackError::UnknownOperation);
    assert_eq!(parse_cigar_string("*").unwrap_err(), PackError::UnknownOperation);
    assert_eq!(parse_cigar_string("4M 2M").unwrap_err(), PackError::UnknownOperation);
}

#[test]
fn cigar_length_has_to_fit() {
    assert_eq!(
        parse_cigar_string("99999999999999999999999999M").unwrap_err(),
        PackError::NumberTooLarge
    );
    assert_eq!(
        parse_cigar_string("99999999999999999999999999I").unwrap_err(),
        PackError::NumberTooLarge
    );
}

#[test]
fn first_error_in_cigar_wins() {
    assert_eq!(parse_cigar_string("4MZ3").unwrap_err(), PackError::UnknownOperation);
    assert_eq!(parse_cigar_string("M3").unwrap_err(), PackError::MissingLength);
}
