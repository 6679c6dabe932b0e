use gaf2pack::coverage::Coverage;
use gaf2pack::error::PackError;

#[test]
fn new_table_is_zero() {
    assert_eq!(Coverage::new(4).counts(), &vec![0, 0, 0, 0]);
    assert!(Coverage::new(0).counts().is_empty());
}

#[test]
fn increment_adds_one() {
    let mut table = Coverage::new(3);
    assert_eq!(table.increment(1), Ok(()));
    assert_eq!(table.increment(1), Ok(()));
    assert_eq!(table.increment(2), Ok(()));
    assert_eq!(table.counts(), &vec![0, 2, 1]);
}

#[test]
fn increment_outside_the_table_is_rejected() {
    let mut table = Coverage::new(3);
    assert_eq!(table.increment(3), Err(PackError::CoordinateOutOfRange));
    assert_eq!(table.counts(), &vec![0, 0, 0]);
    assert_eq!(
        Coverage::new(2).add_all(&vec![0, 1, 2, 0]).unwrap_err(),
        PackError::CoordinateOutOfRange
    );
}

#[test]
fn full_counter_is_not_wrapped() {
    let mut table = Coverage::from_counts(vec![5, usize::MAX, usize::MAX - 1]);
    assert_eq!(table.increment(1), Err(PackError::CounterOverflow));
    assert_eq!(table.increment(2), Ok(()));
    assert_eq!(table.increment(2), Err(PackError::CounterOverflow));
    assert_eq!(table.counts(), &vec![5, usize::MAX, usize::MAX]);
    assert_eq!(
        Coverage::from_counts(vec![usize::MAX - 1]).add_all(&vec![0, 0]).unwrap_err(),
        PackError::CounterOverflow
    );
}

#[test]
fn add_all_counts_every_occurrence() {
    let table = Coverage::from_counts(vec![1, 0, 7]).add_all(&vec![2, 0, 2, 2]).unwrap();
    assert_eq!(table.counts(), &vec![2, 0, 10]);
    let same = Coverage::new(2).add_all(&Vec::new()).unwrap();
    assert_eq!(same.counts(), &vec![0, 0]);
}

#[test]
fn order_of_increments_does_not_matter() {
    let one = Coverage::new(5).add_all(&vec![0, 1, 1, 4, 3, 1, 0]).unwrap();
    let other = Coverage::new(5).add_all(&vec![1, 0, 4, 1, 0, 3, 1]).unwrap();
    assert_eq!(one.counts(), other.counts());
    assert_eq!(one.counts(), &vec![2, 3, 0, 1, 1]);
}

#[test]
fn records_that_cover_a_coordinate_add_up() {
    let records = vec![vec![2, 3, 4], vec![4, 5], vec![0, 1, 2, 3, 4, 5], vec![4], vec![4, 3]];
    let mut table = Coverage::new(6);
    for record in records.iter() {
        table = table.add_all(record).unwrap();
    }
    assert_eq!(table.counts()[4], records.len());
    let mut interleaved = Vec::new();
    for round in 0..6 {
        for record in records.iter().rev() {
            if round < record.len() {
                interleaved.push(record[round]);
            }
        }
    }
    let mixed = Coverage::new(6).add_all(&interleaved).unwrap();
    assert_eq!(mixed.counts(), table.counts());
    assert_eq!(mixed.counts()[4], 5);
}
