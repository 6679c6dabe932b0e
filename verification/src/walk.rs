//! Walks: the path of an alignment through the graph, written as direction
//! markers and node ids, such as `>12<7>3`.

use crate::error::PackError;
use crate::text::{
    after, chars_of, decimal_digits, is_digit, lemma_decimal_digits, lemma_decimal_value_digits,
    lemma_run_end, lemma_run_end_is, push_char, push_decimal, run_end, run_value, scan_number,
    CharClass,
};
use vstd::prelude::*;

verus! {

pub open spec fn is_marker(c: char) -> bool {
    c == '>' || c == '<'
}

/// The steps of the walk written in `s` from `pos` on: a direction marker, then
/// the digits of a node id, and so to the end. A step is the node id and
/// whether the node is passed forwards (`>`).
pub open spec fn walk_from(s: Seq<char>, pos: int) -> Result<Seq<(usize, bool)>, PackError>
    decreases s.len() - pos,
{
    let end = run_end(s, pos + 1, CharClass::Digit, true);
    if !(0 <= pos < s.len()) {
        Ok(Seq::empty())
    } else if !is_marker(s[pos]) {
        Err(PackError::InvalidWalk)
    } else if end <= pos + 1 {
        Err(PackError::MissingNodeId)
    } else {
        proof {
            lemma_run_end(s, pos + 1, CharClass::Digit, true);
        }
        match run_value(s.subrange(pos + 1, end)) {
            None => Err(PackError::NumberTooLarge),
            Some(id) => match walk_from(s, end) {
                Err(e) => Err(e),
                Ok(rest) => Ok(seq![(id, s[pos] == '>')] + rest),
            },
        }
    }
}

/// The walk that a path string denotes, or why it denotes none.
pub open spec fn walk_of(s: Seq<char>) -> Result<Seq<(usize, bool)>, PackError> {
    if s.len() == 0 {
        Err(PackError::EmptyWalk)
    } else {
        walk_from(s, 0)
    }
}

/// The node ids of a walk.
pub open spec fn ids_of(steps: Seq<(usize, bool)>) -> Seq<usize> {
    Seq::new(steps.len(), |i: int| steps[i].0)
}

/// The directions of a walk: `true` for forwards.
pub open spec fn dirs_of(steps: Seq<(usize, bool)>) -> Seq<bool> {
    Seq::new(steps.len(), |i: int| steps[i].1)
}

/// The walk that node ids and directions make when paired up by position; a
/// longer sequence is cut to the length of the shorter.
pub open spec fn zip_steps(ids: Seq<usize>, dirs: Seq<bool>) -> Seq<(usize, bool)> {
    Seq::new(
        if ids.len() <= dirs.len() {
            ids.len()
        } else {
            dirs.len()
        },
        |i: int| (ids[i], dirs[i]),
    )
}

/// Decodes a path string into its node ids and directions.
pub fn parse_path(s: &str) -> (r: Result<(Vec<usize>, Vec<bool>), PackError>)
    ensures
        match walk_of(s@) {
            Ok(steps) => r is Ok && r->Ok_0.0@ == ids_of(steps) && r->Ok_0.1@ == dirs_of(steps),
            Err(e) => r is Err && r->Err_0 == e,
        },
{
    let chars = chars_of(s);
    parse_walk(&chars)
}

/// Decodes the characters of a path string.
pub fn parse_walk(chars: &Vec<char>) -> (r: Result<(Vec<usize>, Vec<bool>), PackError>)
    ensures
        match walk_of(chars@) {
            Ok(steps) => r is Ok && r->Ok_0.0@ == ids_of(steps) && r->Ok_0.1@ == dirs_of(steps),
            Err(e) => r is Err && r->Err_0 == e,
        },
{
    if chars.len() == 0 {
        return Err(PackError::EmptyWalk);
    }
    let mut node_id: Vec<usize> = Vec::new();
    let mut dirs: Vec<bool> = Vec::new();
    let mut pos: usize = 0;
    let ghost mut done: Seq<(usize, bool)> = Seq::empty();
    proof {
        assert(Seq::<(usize, bool)>::empty() + walk_from(chars@, 0)->Ok_0 =~= walk_from(
            chars@,
            0,
        )->Ok_0);
    }
    while pos < chars.len()
        invariant
            pos <= chars.len(),
            walk_from(chars@, 0) == after(done, walk_from(chars@, pos as int)),
            node_id@ == ids_of(done),
            dirs@ == dirs_of(done),
        decreases chars.len() - pos,
    {
        let c = chars[pos];
        if c != '>' && c != '<' {
            return Err(PackError::InvalidWalk);
        }
        let (end, value) = scan_number(chars, pos + 1);
        if end == pos + 1 {
            return Err(PackError::MissingNodeId);
        }
        match value {
            None => {
                return Err(PackError::NumberTooLarge);
            },
            Some(id) => {
                node_id.push(id);
                dirs.push(c == '>');
                proof {
                    let step = (id, c == '>');
                    let rest = walk_from(chars@, end as int);
                    assert(walk_from(chars@, pos as int) == after(seq![step], rest));
                    if rest is Ok {
                        assert(done + (seq![step] + rest->Ok_0) =~= done.push(step)
                            + rest->Ok_0);
                    }
                    done = done.push(step);
                    assert(node_id@ =~= ids_of(done));
                    assert(dirs@ =~= dirs_of(done));
                }
            },
        }
        pos = end;
    }
    proof {
        assert(done + Seq::<(usize, bool)>::empty() =~= done);
    }
    Ok((node_id, dirs))
}

/// The text of one step: the marker of the direction, then the digits of the
/// node id.
pub open spec fn encode_step(step: (usize, bool)) -> Seq<char> {
    seq![if step.1 { '>' } else { '<' }] + decimal_digits(step.0 as nat)
}

/// The path string of a walk: the texts of its steps, one after the other.
pub open spec fn encode_walk(steps: Seq<(usize, bool)>) -> Seq<char>
    decreases steps.len(),
{
    if steps.len() == 0 {
        Seq::empty()
    } else {
        encode_step(steps[0]) + encode_walk(steps.drop_first())
    }
}

/// The text of a walk with one more step is the text of the walk, then the
/// text of the step.
pub proof fn lemma_encode_push(steps: Seq<(usize, bool)>, step: (usize, bool))
    ensures
        encode_walk(steps.push(step)) == encode_walk(steps) + encode_step(step),
    decreases steps.len(),
{
    let longer = steps.push(step);
    if steps.len() == 0 {
        assert(longer.drop_first() =~= Seq::<(usize, bool)>::empty());
        assert(longer[0] == step);
        assert(encode_walk(longer.drop_first()) =~= Seq::<char>::empty());
        assert(encode_walk(longer) =~= encode_step(step) + Seq::<char>::empty());
        assert(encode_walk(steps) + encode_step(step) =~= encode_step(step));
    } else {
        assert(longer.drop_first() =~= steps.drop_first().push(step));
        lemma_encode_push(steps.drop_first(), step);
        assert(encode_walk(longer) =~= encode_walk(steps) + encode_step(step));
    }
}

/// Writes a walk as a path string. Node ids and directions pair up by
/// position.
pub fn encode_path(ids: &Vec<usize>, dirs: &Vec<bool>) -> (r: String)
    ensures
        r@ == encode_walk(zip_steps(ids@, dirs@)),
{
    let ghost steps = zip_steps(ids@, dirs@);
    let count: usize = if ids.len() <= dirs.len() {
        ids.len()
    } else {
        dirs.len()
    };
    let mut out = String::new();
    let mut i: usize = 0;
    proof {
        assert(steps.take(0) =~= Seq::<(usize, bool)>::empty());
    }
    while i < count
        invariant
            steps == zip_steps(ids@, dirs@),
            count == steps.len(),
            count <= ids.len(),
            count <= dirs.len(),
            0 <= i <= count,
            out@ == encode_walk(steps.take(i as int)),
        decreases count - i,
    {
        let ghost before = out@;
        push_char(
            &mut out,
            if dirs[i] {
                '>'
            } else {
                '<'
            },
        );
        push_decimal(&mut out, ids[i]);
        proof {
            lemma_encode_push(steps.take(i as int), steps[i as int]);
            assert(steps.take(i + 1) =~= steps.take(i as int).push(steps[i as int]));
            assert(out@ =~= before + encode_step(steps[i as int]));
        }
        i += 1;
    }
    proof {
        assert(steps.take(i as int) =~= steps);
    }
    out
}

/// Whether no node id in `s` is written with a redundant leading zero: a zero
/// that follows a direction marker is not followed by a digit.
pub open spec fn no_leading_zeros(s: Seq<char>) -> bool {
    forall|i: int|
        0 <= i && i + 2 < s.len() && is_marker(#[trigger] s[i]) && s[i + 1] == '0' ==> !is_digit(
            s[i + 2],
        )
}

proof fn lemma_round_trip_from(s: Seq<char>, pos: int)
    requires
        0 <= pos <= s.len(),
        walk_from(s, pos) is Ok,
        no_leading_zeros(s),
    ensures
        encode_walk(walk_from(s, pos)->Ok_0) == s.subrange(pos, s.len() as int),
    decreases s.len() - pos,
{
    if pos < s.len() {
        let end = run_end(s, pos + 1, CharClass::Digit, true);
        let run = s.subrange(pos + 1, end);
        lemma_run_end(s, pos + 1, CharClass::Digit, true);
        let id = run_value(run)->Some_0;
        let step = (id, s[pos] == '>');
        let rest = walk_from(s, end)->Ok_0;
        lemma_round_trip_from(s, end);
        assert forall|i: int| 0 <= i < run.len() implies is_digit(#[trigger] run[i]) by {
            assert(run[i] == s[pos + 1 + i]);
        }
        if run.len() > 1 && run[0] == '0' {
            assert(is_marker(s[pos]));
            assert(s[pos + 1] == run[0]);
            assert(s[pos + 2] == run[1]);
            assert(false);
        }
        lemma_decimal_value_digits(run);
        assert(decimal_digits(id as nat) == run);
        let steps = seq![step] + rest;
        assert(steps[0] == step);
        assert(steps.drop_first() =~= rest);
        assert(encode_walk(steps) == encode_step(step) + encode_walk(rest));
        assert(encode_step(step) =~= s.subrange(pos, end));
        assert(s.subrange(pos, end) + s.subrange(end, s.len() as int) =~= s.subrange(
            pos,
            s.len() as int,
        ));
    } else {
        assert(s.subrange(pos, s.len() as int) =~= Seq::<char>::empty());
    }
}

/// Decoding a path string and writing the walk out again gives the string
/// back, provided that the string writes no node id with a redundant leading
/// zero.
pub proof fn lemma_walk_round_trip(s: Seq<char>)
    requires
        walk_of(s) is Ok,
        no_leading_zeros(s),
    ensures
        encode_walk(walk_of(s)->Ok_0) == s,
{
    lemma_round_trip_from(s, 0);
    assert(s.subrange(0, s.len() as int) =~= s);
}

proof fn lemma_decode_from(prefix: Seq<char>, steps: Seq<(usize, bool)>)
    ensures
        walk_from(prefix + encode_walk(steps), prefix.len() as int) == Ok::<_, PackError>(steps),
    decreases steps.len(),
{
    let s = prefix + encode_walk(steps);
    let pos = prefix.len() as int;
    if steps.len() == 0 {
        assert(steps =~= Seq::<(usize, bool)>::empty());
    } else {
        let step = steps[0];
        let rest = steps.drop_first();
        let digits = decimal_digits(step.0 as nat);
        let end = pos + 1 + digits.len();
        let longer = prefix + encode_step(step);
        lemma_decimal_digits(step.0 as nat);
        assert(s =~= longer + encode_walk(rest));
        lemma_decode_from(longer, rest);
        assert forall|i: int| pos + 1 <= i < end implies CharClass::Digit.contains(
            #[trigger] s[i],
        ) by {
            assert(s[i] == digits[i - pos - 1]);
        }
        if end < s.len() {
            assert(rest.len() > 0);
            assert(s[end] == encode_walk(rest)[0]);
            assert(encode_walk(rest)[0] == encode_step(rest[0])[0]);
            assert(is_marker(s[end]));
        }
        lemma_run_end_is(s, pos + 1, end, CharClass::Digit, true);
        assert(s.subrange(pos + 1, end) =~= digits);
        assert(s[pos] == encode_step(step)[0]);
        assert(seq![step] + rest =~= steps);
    }
}

/// Writing a walk out and decoding the string gives the walk back.
pub proof fn lemma_walk_decodes(steps: Seq<(usize, bool)>)
    requires
        steps.len() > 0,
    ensures
        walk_of(encode_walk(steps)) == Ok::<_, PackError>(steps),
{
    lemma_decode_from(Seq::empty(), steps);
    assert(Seq::<char>::empty() + encode_walk(steps) =~= encode_walk(steps));
    assert(encode_walk(steps).len() >= encode_step(steps[0]).len());
}

} // verus!
