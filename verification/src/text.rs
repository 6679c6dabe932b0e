//! Characters, runs of characters and decimal numbers.
//!
//! Every parser of this crate reads a line as a sequence of characters and
//! walks it with the scanner defined here. The contracts speak of `Seq<char>`,
//! the view of `str` and `String`.

use crate::error::PackError;
use vstd::prelude::*;

verus! {

/// A set of characters that a scanner can test for.
#[derive(Clone, Copy, Debug)]
pub enum CharClass {
    /// The ten ASCII digits.
    Digit,
    /// The characters with the Unicode property `White_Space`.
    Whitespace,
    /// One given character.
    Exactly(char),
}

pub open spec fn is_digit(c: char) -> bool {
    '0' <= c && c <= '9'
}

/// The characters with the Unicode property `White_Space`.
pub open spec fn is_whitespace(c: char) -> bool {
    ||| ('\u{9}' <= c && c <= '\u{d}')
    ||| c == ' '
    ||| c == '\u{85}'
    ||| c == '\u{a0}'
    ||| c == '\u{1680}'
    ||| ('\u{2000}' <= c && c <= '\u{200a}')
    ||| c == '\u{2028}'
    ||| c == '\u{2029}'
    ||| c == '\u{202f}'
    ||| c == '\u{205f}'
    ||| c == '\u{3000}'
}

impl CharClass {
    pub open spec fn contains(self, c: char) -> bool {
        match self {
            CharClass::Digit => is_digit(c),
            CharClass::Whitespace => is_whitespace(c),
            CharClass::Exactly(d) => c == d,
        }
    }

    /// Whether `c` belongs to the class.
    pub fn has(self, c: char) -> (b: bool)
        ensures
            b == self.contains(c),
    {
        match self {
            CharClass::Digit => c >= '0' && c <= '9',
            CharClass::Whitespace => {
                (c >= '\u{9}' && c <= '\u{d}') || c == ' ' || c == '\u{85}' || c == '\u{a0}' || c
                    == '\u{1680}' || (c >= '\u{2000}' && c <= '\u{200a}') || c == '\u{2028}' || c
                    == '\u{2029}' || c == '\u{202f}' || c == '\u{205f}' || c == '\u{3000}'
            },
            CharClass::Exactly(d) => c == d,
        }
    }
}

/// The end of the run that starts at `from`: the first position at or after
/// `from` whose character is in `class` exactly when `member` is false, or the
/// length of `s` if there is none. With `member` true the run consists of
/// characters of the class, with `member` false of characters outside it.
pub open spec fn run_end(s: Seq<char>, from: int, class: CharClass, member: bool) -> int
    decreases s.len() - from,
{
    if 0 <= from < s.len() && class.contains(s[from]) == member {
        run_end(s, from + 1, class, member)
    } else {
        from
    }
}

/// A run ends inside the sequence, everything before its end belongs to it,
/// and the character at its end, if there is one, does not.
pub proof fn lemma_run_end(s: Seq<char>, from: int, class: CharClass, member: bool)
    requires
        0 <= from <= s.len(),
    ensures
        from <= run_end(s, from, class, member) <= s.len(),
        forall|i: int|
            from <= i < run_end(s, from, class, member) ==> class.contains(#[trigger] s[i])
                == member,
        run_end(s, from, class, member) < s.len() ==> class.contains(
            s[run_end(s, from, class, member)],
        ) != member,
    decreases s.len() - from,
{
    if from < s.len() && class.contains(s[from]) == member {
        lemma_run_end(s, from + 1, class, member);
    }
}

/// A position from which everything up to `end` belongs to the run, and at
/// which the run stops, is the end of the run.
pub proof fn lemma_run_end_is(s: Seq<char>, from: int, end: int, class: CharClass, member: bool)
    requires
        0 <= from <= end <= s.len(),
        forall|i: int| from <= i < end ==> class.contains(#[trigger] s[i]) == member,
        end < s.len() ==> class.contains(s[end]) != member,
    ensures
        run_end(s, from, class, member) == end,
    decreases end - from,
{
    if from < end {
        assert(class.contains(s[from]) == member);
        lemma_run_end_is(s, from + 1, end, class, member);
    }
}

/// Finds the end of the run that starts at `from`.
pub fn scan(s: &Vec<char>, from: usize, class: CharClass, member: bool) -> (end: usize)
    requires
        from <= s.len(),
    ensures
        end == run_end(s@, from as int, class, member),
        from <= end <= s.len(),
{
    let mut i: usize = from;
    while i < s.len() && class.has(s[i]) == member
        invariant
            from <= i <= s.len(),
            run_end(s@, from as int, class, member) == run_end(s@, i as int, class, member),
        decreases s.len() - i,
    {
        i += 1;
    }
    i
}

/// What was read so far, followed by what the rest of the text denotes: the
/// items in order, or the reason why the rest denotes nothing.
pub open spec fn after<T>(done: Seq<T>, rest: Result<Seq<T>, PackError>) -> Result<
    Seq<T>,
    PackError,
> {
    match rest {
        Ok(items) => Ok(done + items),
        Err(e) => Err(e),
    }
}

/// The lines of a text as sequences of characters.
pub open spec fn texts(lines: Seq<String>) -> Seq<Seq<char>> {
    Seq::new(lines.len(), |i: int| lines[i]@)
}

/// The characters of a string slice.
pub fn chars_of(s: &str) -> (v: Vec<char>)
    ensures
        v@ == s@,
{
    let mut v: Vec<char> = Vec::new();
    let chars = s.chars();
    for c in it: chars
        invariant
            v@ == it.seq().take(it.index() as int),
            it.seq() == s@,
    {
        v.push(c);
    }
    v
}

pub open spec fn digit_value(c: char) -> nat {
    (c as int - '0' as int) as nat
}

/// The number that a sequence of digits denotes in base ten.
pub open spec fn decimal_value(s: Seq<char>) -> nat
    decreases s.len(),
{
    if s.len() == 0 {
        0
    } else {
        10 * decimal_value(s.drop_last()) + digit_value(s.last())
    }
}

pub open spec fn all_digits(s: Seq<char>) -> bool {
    forall|i: int| 0 <= i < s.len() ==> is_digit(#[trigger] s[i])
}

/// What a maximal run of digits amounts to: its value, if the value fits in a
/// `usize`.
pub open spec fn run_value(s: Seq<char>) -> Option<usize> {
    if decimal_value(s) <= usize::MAX {
        Some(decimal_value(s) as usize)
    } else {
        None
    }
}

/// The value of the digits of `s` from `from` to `to`, if it fits in a `usize`.
pub fn digits_value(s: &Vec<char>, from: usize, to: usize) -> (r: Option<usize>)
    requires
        from <= to <= s.len(),
        forall|i: int| from <= i < to ==> is_digit(#[trigger] s@[i]),
    ensures
        r == run_value(s@.subrange(from as int, to as int)),
{
    let mut i: usize = from;
    let mut value: usize = 0;
    let mut fits: bool = true;
    proof {
        assert(s@.subrange(from as int, from as int) =~= Seq::<char>::empty());
    }
    while i < to
        invariant
            from <= i <= to <= s.len(),
            forall|i: int| from <= i < to ==> is_digit(#[trigger] s@[i]),
            fits ==> value == decimal_value(s@.subrange(from as int, i as int)),
            !fits ==> decimal_value(s@.subrange(from as int, i as int)) > usize::MAX,
        decreases to - i,
    {
        let c = s[i];
        assert(is_digit(s@[i as int]));
        let d: usize = (c as u32 - 48) as usize;
        proof {
            let longer = s@.subrange(from as int, i + 1);
            assert(longer.drop_last() =~= s@.subrange(from as int, i as int));
            assert(longer.last() == c);
            assert(d == digit_value(c));
        }
        if fits {
            if value > (usize::MAX - d) / 10 {
                fits = false;
            } else {
                value = value * 10 + d;
            }
        }
        i += 1;
    }
    if fits {
        Some(value)
    } else {
        None
    }
}

/// Reads the run of digits that starts at `from`. Returns where the run ends
/// and its value; the value is `None` if it does not fit in a `usize`. An empty
/// run has the value zero.
pub fn scan_number(s: &Vec<char>, from: usize) -> (r: (usize, Option<usize>))
    requires
        from <= s.len(),
    ensures
        r.0 == run_end(s@, from as int, CharClass::Digit, true),
        from <= r.0 <= s.len(),
        r.1 == run_value(s@.subrange(from as int, r.0 as int)),
{
    let end = scan(s, from, CharClass::Digit, true);
    proof {
        lemma_run_end(s@, from as int, CharClass::Digit, true);
    }
    (end, digits_value(s, from, end))
}

/// What an unsigned decimal integer in text denotes: an optional `+`, then one
/// or more digits whose value fits in a `usize`. Anything else denotes nothing.
pub open spec fn integer_field(s: Seq<char>) -> Option<usize> {
    let digits = if s.len() > 0 && s[0] == '+' {
        s.skip(1)
    } else {
        s
    };
    if digits.len() > 0 && all_digits(digits) {
        run_value(digits)
    } else {
        None
    }
}

/// Reads `s` as an unsigned decimal integer.
pub fn parse_integer(s: &Vec<char>) -> (r: Option<usize>)
    ensures
        r == integer_field(s@),
{
    let start: usize = if 0 < s.len() && s[0] == '+' {
        1
    } else {
        0
    };
    let ghost digits = if s@.len() > 0 && s@[0] == '+' {
        s@.skip(1)
    } else {
        s@
    };
    assert(digits =~= s@.subrange(start as int, s@.len() as int));
    let end = scan(s, start, CharClass::Digit, true);
    proof {
        lemma_run_end(s@, start as int, CharClass::Digit, true);
    }
    if start < s.len() && end >= s.len() {
        digits_value(s, start, s.len())
    } else {
        proof {
            if start < s.len() {
                assert(!is_digit(s@[end as int]));
                assert(digits[end - start] == s@[end as int]);
            }
        }
        None
    }
}

/// A copy of the part of `s` from `from` to `to`.
pub fn slice_of(s: &Vec<char>, from: usize, to: usize) -> (v: Vec<char>)
    requires
        from <= to <= s.len(),
    ensures
        v@ == s@.subrange(from as int, to as int),
{
    let mut v: Vec<char> = Vec::new();
    let mut i: usize = from;
    while i < to
        invariant
            from <= i <= to <= s.len(),
            v@ == s@.subrange(from as int, i as int),
        decreases to - i,
    {
        v.push(s[i]);
        assert(v@ =~= s@.subrange(from as int, i + 1));
        i += 1;
    }
    v
}

/// The fields of `s` that begin at or after `pos`: the maximal runs of
/// characters that are not whitespace, in order.
pub open spec fn fields_from(s: Seq<char>, pos: int) -> Seq<Seq<char>>
    decreases s.len() - pos,
{
    let start = run_end(s, pos, CharClass::Whitespace, true);
    let end = run_end(s, start, CharClass::Whitespace, false);
    if 0 <= pos <= start < s.len() {
        proof {
            lemma_run_end(s, pos, CharClass::Whitespace, true);
            lemma_run_end(s, start + 1, CharClass::Whitespace, false);
        }
        seq![s.subrange(start, end)] + fields_from(s, end)
    } else {
        Seq::empty()
    }
}

/// The whitespace-separated fields of a line. None of them is empty.
pub open spec fn fields(s: Seq<char>) -> Seq<Seq<char>> {
    fields_from(s, 0)
}

/// Splits a line into its whitespace-separated fields.
pub fn split_whitespace(s: &Vec<char>) -> (r: Vec<Vec<char>>)
    ensures
        r@.len() == fields(s@).len(),
        forall|k: int| 0 <= k < r@.len() ==> (#[trigger] r@[k])@ == fields(s@)[k],
{
    let mut r: Vec<Vec<char>> = Vec::new();
    let mut pos: usize = 0;
    let ghost mut done: Seq<Seq<char>> = Seq::empty();
    loop
        invariant
            pos <= s.len(),
            fields(s@) == done + fields_from(s@, pos as int),
            r@.len() == done.len(),
            forall|k: int| 0 <= k < r@.len() ==> (#[trigger] r@[k])@ == done[k],
        decreases s.len() - pos,
    {
        let start = scan(s, pos, CharClass::Whitespace, true);
        if start >= s.len() {
            assert(fields_from(s@, pos as int) =~= Seq::<Seq<char>>::empty());
            assert(fields(s@) =~= done);
            return r;
        }
        let end = scan(s, start, CharClass::Whitespace, false);
        proof {
            lemma_run_end(s@, pos as int, CharClass::Whitespace, true);
            lemma_run_end(s@, start + 1, CharClass::Whitespace, false);
            let field = s@.subrange(start as int, end as int);
            assert(fields_from(s@, pos as int) == seq![field] + fields_from(s@, end as int));
            assert(done + (seq![field] + fields_from(s@, end as int)) =~= done.push(field)
                + fields_from(s@, end as int));
            done = done.push(field);
        }
        r.push(slice_of(s, start, end));
        pos = end;
    }
}

/// The parts of `s` from `pos` on that the character `d` separates. A
/// sequence without `d` is one part; two neighbouring `d` have an empty part
/// between them.
pub open spec fn parts_from(s: Seq<char>, pos: int, d: char) -> Seq<Seq<char>>
    decreases s.len() - pos,
{
    let end = run_end(s, pos, CharClass::Exactly(d), false);
    if 0 <= pos <= end < s.len() {
        seq![s.subrange(pos, end)] + parts_from(s, end + 1, d)
    } else {
        seq![s.subrange(pos, s.len() as int)]
    }
}

/// The parts of `s` that the character `d` separates.
pub open spec fn parts(s: Seq<char>, d: char) -> Seq<Seq<char>> {
    parts_from(s, 0, d)
}

/// Splits `s` at every occurrence of `d`.
pub fn split_on(s: &Vec<char>, d: char) -> (r: Vec<Vec<char>>)
    ensures
        r@.len() == parts(s@, d).len(),
        forall|k: int| 0 <= k < r@.len() ==> (#[trigger] r@[k])@ == parts(s@, d)[k],
{
    let mut r: Vec<Vec<char>> = Vec::new();
    let mut pos: usize = 0;
    let ghost mut done: Seq<Seq<char>> = Seq::empty();
    loop
        invariant
            pos <= s.len(),
            parts(s@, d) == done + parts_from(s@, pos as int, d),
            r@.len() == done.len(),
            forall|k: int| 0 <= k < r@.len() ==> (#[trigger] r@[k])@ == done[k],
        decreases s.len() - pos,
    {
        let end = scan(s, pos, CharClass::Exactly(d), false);
        let ghost part = s@.subrange(pos as int, end as int);
        r.push(slice_of(s, pos, end));
        if end >= s.len() {
            proof {
                assert(parts_from(s@, pos as int, d) == seq![part]);
                assert(parts(s@, d) =~= done.push(part));
            }
            return r;
        }
        proof {
            assert(parts_from(s@, pos as int, d) == seq![part] + parts_from(s@, end + 1, d));
            assert(done + (seq![part] + parts_from(s@, end + 1, d)) =~= done.push(part)
                + parts_from(s@, end + 1, d));
            done = done.push(part);
        }
        pos = end + 1;
    }
}

/// The character of a digit.
pub open spec fn digit_char(d: nat) -> char {
    ('0' as nat + d) as char
}

/// The decimal digits of a number, without leading zeros.
pub open spec fn decimal_digits(n: nat) -> Seq<char>
    decreases n,
{
    if n < 10 {
        seq![digit_char(n)]
    } else {
        decimal_digits(n / 10).push(digit_char(n % 10))
    }
}

/// The digits of a number denote that number, and begin with a zero only if
/// the number is zero.
pub proof fn lemma_decimal_digits(n: nat)
    ensures
        decimal_digits(n).len() > 0,
        all_digits(decimal_digits(n)),
        decimal_value(decimal_digits(n)) == n,
        decimal_digits(n)[0] == '0' ==> n == 0,
        n < 10 ==> decimal_digits(n).len() == 1,
    decreases n,
{
    if n < 10 {
        let s = seq![digit_char(n)];
        assert(s.drop_last() =~= Seq::<char>::empty());
        assert(decimal_value(s.drop_last()) == 0);
    } else {
        lemma_decimal_digits(n / 10);
        let s = decimal_digits(n);
        assert(s.drop_last() =~= decimal_digits(n / 10));
    }
}

/// Digits that begin with a digit other than zero denote a positive number.
proof fn lemma_decimal_value_positive(s: Seq<char>)
    requires
        s.len() > 0,
        all_digits(s),
        s[0] != '0',
    ensures
        decimal_value(s) >= 1,
    decreases s.len(),
{
    if s.len() > 1 {
        lemma_decimal_value_positive(s.drop_last());
    } else {
        assert(s.drop_last() =~= Seq::<char>::empty());
        assert(decimal_value(s.drop_last()) == 0);
    }
}

/// Digits without a redundant leading zero are the digits of their value.
pub proof fn lemma_decimal_value_digits(s: Seq<char>)
    requires
        s.len() > 0,
        all_digits(s),
        s.len() == 1 || s[0] != '0',
    ensures
        decimal_digits(decimal_value(s)) == s,
    decreases s.len(),
{
    let t = s.drop_last();
    let c = s.last();
    assert(is_digit(c));
    assert(digit_char(digit_value(c)) == c);
    if t.len() == 0 {
        assert(decimal_value(t) == 0);
        assert(s =~= seq![c]);
    } else {
        lemma_decimal_value_positive(t);
        lemma_decimal_value_digits(t);
        let v = decimal_value(s);
        assert(v == 10 * decimal_value(t) + digit_value(c));
        assert(v / 10 == decimal_value(t));
        assert(v % 10 == digit_value(c));
        assert(decimal_digits(v) =~= t.push(c));
        assert(t.push(c) =~= s);
    }
}

/// `String::push`: the string afterwards is the string before with `c` at its
/// end.
#[verifier::external_body]
pub(crate) fn push_char(out: &mut String, c: char)
    ensures
        final(out)@ == old(out)@.push(c),
{
    out.push(c);
}

/// Appends the decimal digits of `n` to `out`.
pub fn push_decimal(out: &mut String, n: usize)
    ensures
        final(out)@ == old(out)@ + decimal_digits(n as nat),
    decreases n,
{
    if n >= 10 {
        push_decimal(out, n / 10);
    }
    let d: u8 = (n % 10) as u8;
    let c: char = (48u8 + d) as char;
    assert(c == digit_char((n % 10) as nat));
    push_char(out, c);
    proof {
        if n < 10 {
            assert(old(out)@.push(c) =~= old(out)@ + decimal_digits(n as nat));
        } else {
            assert((old(out)@ + decimal_digits((n / 10) as nat)).push(c) =~= old(out)@
                + decimal_digits(n as nat));
        }
    }
}

} // verus!
