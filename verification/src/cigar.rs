//! CIGAR strings: run lengths and operations, such as `12M3D40M`.

use crate::error::PackError;
use crate::text::{after, chars_of, lemma_run_end, run_end, run_value, scan_number, CharClass};
use vstd::prelude::*;

verus! {

/// An operation of an alignment.
#[derive(Clone, Copy, Debug, PartialEq, Eq, Structural)]
pub enum CigarOperation {
    Match,
    Insertion,
    Deletion,
    SkippedRegion,
    SoftClip,
    HardClip,
    Padding,
    Mismatch,
}

/// A run of one operation.
#[derive(Clone, Copy, Debug, PartialEq, Eq, Structural)]
pub struct CigarUnit {
    pub length: usize,
    pub operation: CigarOperation,
}

/// The characters that stand for an operation in a CIGAR string.
pub open spec fn is_operation(c: char) -> bool {
    c == 'M' || c == 'I' || c == 'D' || c == 'N' || c == 'S' || c == 'H' || c == 'P' || c == '='
        || c == 'X'
}

/// The units that a run of `length` with the operation character `c` adds:
/// one for a match, one for a deletion, none for any other operation.
pub open spec fn units_for(length: usize, c: char) -> Seq<CigarUnit> {
    if c == 'M' {
        seq![CigarUnit { length, operation: CigarOperation::Match }]
    } else if c == 'D' {
        seq![CigarUnit { length, operation: CigarOperation::Deletion }]
    } else {
        Seq::empty()
    }
}

/// The units of the CIGAR string written in `s` from `pos` on: digits, then
/// an operation character, and so to the end.
pub open spec fn cigar_from(s: Seq<char>, pos: int) -> Result<Seq<CigarUnit>, PackError>
    decreases s.len() - pos,
{
    let end = run_end(s, pos, CharClass::Digit, true);
    if !(0 <= pos < s.len()) {
        Ok(Seq::empty())
    } else if end >= s.len() {
        Err(PackError::MissingOperation)
    } else if !is_operation(s[end]) {
        Err(PackError::UnknownOperation)
    } else if end <= pos {
        Err(PackError::MissingLength)
    } else {
        match run_value(s.subrange(pos, end)) {
            None => Err(PackError::NumberTooLarge),
            Some(length) => match cigar_from(s, end + 1) {
                Err(e) => Err(e),
                Ok(rest) => Ok(units_for(length, s[end]) + rest),
            },
        }
    }
}

/// The match and deletion units that a CIGAR string denotes, or why it
/// denotes none. The empty string denotes no units.
pub open spec fn cigar_of(s: Seq<char>) -> Result<Seq<CigarUnit>, PackError> {
    cigar_from(s, 0)
}

fn operation(c: char) -> (b: bool)
    ensures
        b == is_operation(c),
{
    c == 'M' || c == 'I' || c == 'D' || c == 'N' || c == 'S' || c == 'H' || c == 'P' || c == '='
        || c == 'X'
}

/// Decodes a CIGAR string into its match and deletion units.
pub fn parse_cigar_string(cigar_string: &str) -> (r: Result<Vec<CigarUnit>, PackError>)
    ensures
        match cigar_of(cigar_string@) {
            Ok(units) => r is Ok && r->Ok_0@ == units,
            Err(e) => r is Err && r->Err_0 == e,
        },
{
    let chars = chars_of(cigar_string);
    parse_cigar(&chars)
}

/// Decodes the characters of a CIGAR string.
pub fn parse_cigar(chars: &Vec<char>) -> (r: Result<Vec<CigarUnit>, PackError>)
    ensures
        match cigar_of(chars@) {
            Ok(units) => r is Ok && r->Ok_0@ == units,
            Err(e) => r is Err && r->Err_0 == e,
        },
{
    let mut units: Vec<CigarUnit> = Vec::new();
    let mut pos: usize = 0;
    proof {
        assert(Seq::<CigarUnit>::empty() + cigar_from(chars@, 0)->Ok_0 =~= cigar_from(
            chars@,
            0,
        )->Ok_0);
    }
    while pos < chars.len()
        invariant
            pos <= chars.len(),
            cigar_from(chars@, 0) == after(units@, cigar_from(chars@, pos as int)),
        decreases chars.len() - pos,
    {
        let (end, value) = scan_number(chars, pos);
        if end >= chars.len() {
            return Err(PackError::MissingOperation);
        }
        let c = chars[end];
        if !operation(c) {
            return Err(PackError::UnknownOperation);
        }
        if end == pos {
            return Err(PackError::MissingLength);
        }
        match value {
            None => {
                return Err(PackError::NumberTooLarge);
            },
            Some(length) => {
                let ghost before = units@;
                if c == 'M' {
                    units.push(CigarUnit { length, operation: CigarOperation::Match });
                } else if c == 'D' {
                    units.push(CigarUnit { length, operation: CigarOperation::Deletion });
                }
                proof {
                    let rest = cigar_from(chars@, end + 1);
                    assert(units@ =~= before + units_for(length, c));
                    assert(cigar_from(chars@, pos as int) == after(units_for(length, c), rest));
                    if rest is Ok {
                        assert(before + (units_for(length, c) + rest->Ok_0) =~= units@
                            + rest->Ok_0);
                    }
                }
            },
        }
        pos = end + 1;
    }
    proof {
        assert(units@ + Seq::<CigarUnit>::empty() =~= units@);
    }
    Ok(units)
}

} // verus!
