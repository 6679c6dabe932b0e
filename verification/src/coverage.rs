//! The coverage accumulator: one counter for every global coordinate.
//!
//! The only change a counter ever sees is an increment by one, so the table
//! that a set of increments leaves behind does not depend on the order in which
//! they arrive. The laws at the end of this module state that.

use crate::error::PackError;
use vstd::prelude::*;

verus! {

/// A table of `size` counters at zero.
pub open spec fn zeros(size: nat) -> Seq<usize> {
    Seq::new(size, |i: int| 0usize)
}

/// The table after one increment of `coordinate`.
pub open spec fn bump(counts: Seq<usize>, coordinate: usize) -> Result<Seq<usize>, PackError> {
    if coordinate >= counts.len() {
        Err(PackError::CoordinateOutOfRange)
    } else if counts[coordinate as int] == usize::MAX {
        Err(PackError::CounterOverflow)
    } else {
        Ok(counts.update(coordinate as int, (counts[coordinate as int] + 1) as usize))
    }
}

/// The table after the increments in order, or the first reason why an
/// increment cannot be made.
pub open spec fn accumulate(counts: Seq<usize>, increments: Seq<usize>) -> Result<
    Seq<usize>,
    PackError,
>
    decreases increments.len(),
{
    if increments.len() == 0 {
        Ok(counts)
    } else {
        match accumulate(counts, increments.drop_last()) {
            Err(e) => Err(e),
            Ok(before) => bump(before, increments.last()),
        }
    }
}

/// How often `coordinate` occurs among the increments.
pub open spec fn tally(increments: Seq<usize>, coordinate: int) -> nat
    decreases increments.len(),
{
    if increments.len() == 0 {
        0
    } else {
        tally(increments.drop_last(), coordinate) + if increments.last() == coordinate {
            1nat
        } else {
            0nat
        }
    }
}

/// The coverage table.
#[derive(Debug)]
pub struct Coverage {
    counts: Vec<usize>,
}

impl View for Coverage {
    type V = Seq<usize>;

    /// The counters by global coordinate.
    closed spec fn view(&self) -> Seq<usize> {
        self.counts@
    }
}

impl Coverage {
    /// A table of `size` counters at zero.
    pub fn new(size: usize) -> (r: Coverage)
        ensures
            r@ == zeros(size as nat),
    {
        let mut counts: Vec<usize> = Vec::new();
        let mut i: usize = 0;
        while i < size
            invariant
                0 <= i <= size,
                counts@ == zeros(i as nat),
            decreases size - i,
        {
            counts.push(0);
            assert(counts@ =~= zeros((i + 1) as nat));
            i += 1;
        }
        Coverage { counts }
    }

    /// The table that holds the given counters.
    pub fn from_counts(counts: Vec<usize>) -> (r: Coverage)
        ensures
            r@ == counts@,
    {
        Coverage { counts }
    }

    /// Adds one to the counter of `coordinate`. The table is unchanged where
    /// that cannot be done.
    pub fn increment(&mut self, coordinate: usize) -> (r: Result<(), PackError>)
        ensures
            match bump(old(self)@, coordinate) {
                Ok(after) => r is Ok && final(self)@ == after,
                Err(e) => r is Err && r->Err_0 == e && final(self)@ == old(self)@,
            },
    {
        if coordinate >= self.counts.len() {
            return Err(PackError::CoordinateOutOfRange);
        }
        let count = self.counts[coordinate];
        if count == usize::MAX {
            return Err(PackError::CounterOverflow);
        }
        self.counts.set(coordinate, count + 1);
        Ok(())
    }

    /// Makes the increments in order.
    pub fn add_all(self, increments: &Vec<usize>) -> (r: Result<Coverage, PackError>)
        ensures
            match accumulate(self@, increments@) {
                Ok(after) => r is Ok && r->Ok_0@ == after,
                Err(e) => r is Err && r->Err_0 == e,
            },
    {
        let ghost start = self@;
        let mut table = self;
        let mut i: usize = 0;
        proof {
            assert(increments@.take(0) =~= Seq::<usize>::empty());
        }
        while i < increments.len()
            invariant
                start == self@,
                0 <= i <= increments.len(),
                accumulate(start, increments@.take(i as int)) == Ok::<_, PackError>(table@),
            decreases increments.len() - i,
        {
            proof {
                assert(increments@.take(i + 1).drop_last() =~= increments@.take(i as int));
                assert(increments@.take(i + 1).last() == increments@[i as int]);
            }
            match table.increment(increments[i]) {
                Err(e) => {
                    proof {
                        lemma_accumulate_error(start, increments@, i + 1);
                    }
                    return Err(e);
                },
                Ok(()) => {},
            }
            i += 1;
        }
        proof {
            assert(increments@.take(i as int) =~= increments@);
        }
        Ok(table)
    }

    /// The counters by global coordinate.
    pub fn counts(&self) -> (r: &Vec<usize>)
        ensures
            r@ == self@,
    {
        &self.counts
    }
}

/// An increment that fails among the first `n` fails them all.
pub proof fn lemma_accumulate_error(counts: Seq<usize>, increments: Seq<usize>, n: int)
    requires
        0 <= n <= increments.len(),
        accumulate(counts, increments.take(n)) is Err,
    ensures
        accumulate(counts, increments) == accumulate(counts, increments.take(n)),
    decreases increments.len() - n,
{
    if n < increments.len() {
        assert(increments.take(n + 1).drop_last() =~= increments.take(n));
        lemma_accumulate_error(counts, increments, n + 1);
    } else {
        assert(increments.take(n) =~= increments);
    }
}

/// Making the increments of `first` and then those of `second` is making the
/// increments of both in that order.
pub proof fn lemma_accumulate_concat(counts: Seq<usize>, first: Seq<usize>, second: Seq<usize>)
    ensures
        accumulate(counts, first + second) == match accumulate(counts, first) {
            Ok(middle) => accumulate(middle, second),
            Err(e) => Err(e),
        },
    decreases second.len(),
{
    if second.len() == 0 {
        assert(first + second =~= first);
    } else {
        assert((first + second).drop_last() =~= first + second.drop_last());
        lemma_accumulate_concat(counts, first, second.drop_last());
    }
}

/// The occurrences in two sequences of increments add up.
pub proof fn lemma_tally_concat(first: Seq<usize>, second: Seq<usize>, coordinate: int)
    ensures
        tally(first + second, coordinate) == tally(first, coordinate) + tally(second, coordinate),
    decreases second.len(),
{
    if second.len() == 0 {
        assert(first + second =~= first);
    } else {
        assert((first + second).drop_last() =~= first + second.drop_last());
        lemma_tally_concat(first, second.drop_last(), coordinate);
    }
}

/// The occurrences of a coordinate are what the multiset of the increments
/// counts.
pub proof fn lemma_tally_is_count(increments: Seq<usize>, coordinate: usize)
    ensures
        tally(increments, coordinate as int) == increments.to_multiset().count(coordinate),
    decreases increments.len(),
{
    broadcast use vstd::multiset::group_multiset_axioms;

    increments.to_multiset_ensures();
    if increments.len() == 0 {
        assert(increments.to_multiset().len() == 0);
    } else {
        let front = increments.drop_last();
        lemma_tally_is_count(front, coordinate);
        front.to_multiset_ensures();
        assert(front.push(increments.last()) =~= increments);
    }
}

/// What no `usize` can be does not occur among the increments.
pub proof fn lemma_tally_beyond(increments: Seq<usize>, coordinate: int)
    requires
        coordinate < 0 || coordinate > usize::MAX,
    ensures
        tally(increments, coordinate) == 0,
    decreases increments.len(),
{
    if increments.len() > 0 {
        lemma_tally_beyond(increments.drop_last(), coordinate);
    }
}

/// Where the increments succeed, the table keeps its size and every counter
/// has grown by the number of increments that name it.
pub proof fn lemma_accumulate_counts(counts: Seq<usize>, increments: Seq<usize>)
    requires
        accumulate(counts, increments) is Ok,
    ensures
        accumulate(counts, increments)->Ok_0.len() == counts.len(),
        forall|c: int|
            0 <= c < counts.len() ==> #[trigger] accumulate(counts, increments)->Ok_0[c]
                == counts[c] + tally(increments, c),
        forall|i: int| 0 <= i < increments.len() ==> #[trigger] increments[i] < counts.len(),
    decreases increments.len(),
{
    if increments.len() > 0 {
        let front = increments.drop_last();
        lemma_accumulate_counts(counts, front);
        assert forall|i: int| 0 <= i < increments.len() implies #[trigger] increments[i]
            < counts.len() by {
            if i < front.len() {
                assert(front[i] == increments[i]);
            }
        }
    }
}

/// Whether each increment names a counter of the table and no counter is
/// asked to grow beyond what it holds.
pub open spec fn fits(counts: Seq<usize>, increments: Seq<usize>) -> bool {
    &&& forall|i: int| 0 <= i < increments.len() ==> #[trigger] increments[i] < counts.len()
    &&& forall|c: int|
        0 <= c < counts.len() ==> counts[c] + #[trigger] tally(increments, c) <= usize::MAX
}

/// The increments succeed exactly when they fit the table.
pub proof fn lemma_accumulate_succeeds(counts: Seq<usize>, increments: Seq<usize>)
    ensures
        accumulate(counts, increments) is Ok <==> fits(counts, increments),
    decreases increments.len(),
{
    if accumulate(counts, increments) is Ok {
        lemma_accumulate_counts(counts, increments);
        let after = accumulate(counts, increments)->Ok_0;
        assert forall|c: int| 0 <= c < counts.len() implies counts[c] + #[trigger] tally(
            increments,
            c,
        ) <= usize::MAX by {
            assert(after[c] == counts[c] + tally(increments, c));
        }
    }
    if fits(counts, increments) && increments.len() > 0 {
        let front = increments.drop_last();
        let last = increments.last();
        assert forall|i: int| 0 <= i < front.len() implies #[trigger] front[i]
            < counts.len() by {
            assert(front[i] == increments[i]);
        }
        assert forall|c: int| 0 <= c < counts.len() implies counts[c] + #[trigger] tally(
            front,
            c,
        ) <= usize::MAX by {
            assert(tally(front, c) <= tally(increments, c));
        }
        lemma_accumulate_succeeds(counts, front);
        lemma_accumulate_counts(counts, front);
        let before = accumulate(counts, front)->Ok_0;
        assert(increments[increments.len() - 1] < counts.len());
        assert(tally(increments, last as int) == tally(front, last as int) + 1);
        assert(before[last as int] == counts[last as int] + tally(front, last as int));
    }
}

/// The table that a set of increments leaves behind does not depend on the
/// order in which they are made: two sequences with the same increments, each
/// as often in the one as in the other, succeed together and give one table.
pub proof fn lemma_order_independent(counts: Seq<usize>, first: Seq<usize>, second: Seq<usize>)
    requires
        first.to_multiset() == second.to_multiset(),
    ensures
        accumulate(counts, first) is Ok <==> accumulate(counts, second) is Ok,
        accumulate(counts, first) is Ok ==> accumulate(counts, first) == accumulate(
            counts,
            second,
        ),
{
    broadcast use vstd::multiset::group_multiset_axioms;

    first.to_multiset_ensures();
    second.to_multiset_ensures();
    lemma_accumulate_succeeds(counts, first);
    lemma_accumulate_succeeds(counts, second);
    assert forall|c: int| tally(first, c) == tally(second, c) by {
        if 0 <= c <= usize::MAX {
            lemma_tally_is_count(first, c as usize);
            lemma_tally_is_count(second, c as usize);
        } else {
            lemma_tally_beyond(first, c);
            lemma_tally_beyond(second, c);
        }
    }
    assert forall|i: int| 0 <= i < first.len() implies second.contains(#[trigger] first[i]) by {
        assert(first.to_multiset().contains(first[i]));
    }
    assert forall|i: int| 0 <= i < second.len() implies first.contains(#[trigger] second[i]) by {
        assert(second.to_multiset().contains(second[i]));
    }
    assert(fits(counts, first) <==> fits(counts, second));
    if accumulate(counts, first) is Ok {
        lemma_accumulate_counts(counts, first);
        lemma_accumulate_counts(counts, second);
        assert(accumulate(counts, first)->Ok_0 =~= accumulate(counts, second)->Ok_0);
    }
}

/// The increments of the records one after the other.
pub open spec fn joined(records: Seq<Seq<usize>>) -> Seq<usize>
    decreases records.len(),
{
    if records.len() == 0 {
        Seq::empty()
    } else {
        joined(records.drop_last()) + records.last()
    }
}

/// A coordinate that each of the records increments exactly once is
/// incremented as often as there are records.
pub proof fn lemma_each_record_counts_once(records: Seq<Seq<usize>>, coordinate: int)
    requires
        forall|i: int| 0 <= i < records.len() ==> tally(#[trigger] records[i], coordinate) == 1,
    ensures
        tally(joined(records), coordinate) == records.len(),
    decreases records.len(),
{
    if records.len() > 0 {
        let front = records.drop_last();
        assert forall|i: int| 0 <= i < front.len() implies tally(#[trigger] front[i], coordinate)
            == 1 by {
            assert(front[i] == records[i]);
        }
        lemma_each_record_counts_once(front, coordinate);
        lemma_tally_concat(joined(front), records.last(), coordinate);
    }
}

/// However the increments of `records` records that each cover a coordinate
/// once are interleaved, the counter of that coordinate ends at its old value
/// plus the number of records.
pub proof fn lemma_concurrent_increments(
    counts: Seq<usize>,
    records: Seq<Seq<usize>>,
    schedule: Seq<usize>,
    coordinate: usize,
)
    requires
        coordinate < counts.len(),
        forall|i: int|
            0 <= i < records.len() ==> tally(#[trigger] records[i], coordinate as int) == 1,
        schedule.to_multiset() == joined(records).to_multiset(),
        accumulate(counts, schedule) is Ok,
    ensures
        accumulate(counts, schedule)->Ok_0[coordinate as int] == counts[coordinate as int]
            + records.len(),
{
    lemma_each_record_counts_once(records, coordinate as int);
    lemma_tally_is_count(schedule, coordinate);
    lemma_tally_is_count(joined(records), coordinate);
    lemma_accumulate_counts(counts, schedule);
}

} // verus!
