//! Overlap-safe measures over half-open time intervals.

use vstd::prelude::*;
use vstd::set_lib::{lemma_int_range, set_int_range};

verus! {

/// An interval list that cannot be measured.
#[derive(Clone, Copy, Debug, PartialEq, Eq, Structural)]
pub enum IntervalError {
    /// The first interval is empty or reversed.
    Invalid,
    /// A later interval is empty, reversed or starts before the run it follows.
    UnsortedOrInvalid,
    /// A sum of durations does not fit.
    Overflow,
}

/// The instants that lie in at least one of the half-open intervals.
pub open spec fn covered(s: Seq<(int, int)>) -> Set<int> {
    Set::new(|t: int| exists|i: int| 0 <= i < s.len() && (#[trigger] s[i]).0 <= t < s[i].1)
}

/// The total length of the union of the intervals.
pub open spec fn union_length(s: Seq<(int, int)>) -> nat {
    covered(s).len()
}

/// The sum of the lengths of the intervals, overlaps counted each time.
pub open spec fn duration_total(s: Seq<(int, int)>) -> int
    decreases s.len(),
{
    if s.len() == 0 {
        0
    } else {
        duration_total(s.drop_last()) + (s.last().1 - s.last().0)
    }
}

/// The last run of touching intervals when the list is read in order.
pub open spec fn last_run(s: Seq<(int, int)>) -> (int, int)
    decreases s.len(),
{
    if s.len() <= 1 {
        s[0]
    } else {
        let run = last_run(s.drop_last());
        let next = s.last();
        if next.0 <= run.1 {
            (
                run.0,
                if next.1 > run.1 {
                    next.1
                } else {
                    run.1
                },
            )
        } else {
            next
        }
    }
}

/// Whether the interval at `i` is nonempty and does not start before the run
/// of the intervals in front of it.
pub open spec fn measurable_at(s: Seq<(int, int)>, i: int) -> bool {
    &&& s[i].0 < s[i].1
    &&& i > 0 ==> last_run(s.take(i)).0 <= s[i].0
}

/// Whether the whole list can be measured in one pass.
pub open spec fn measurable(s: Seq<(int, int)>) -> bool {
    forall|i: int| 0 <= i < s.len() ==> #[trigger] measurable_at(s, i)
}

/// The covered instants of a list are those of the list without its last
/// interval, and those of the last interval.
proof fn covered_push(s: Seq<(int, int)>, x: (int, int))
    ensures
        covered(s.push(x)) == covered(s).union(set_int_range(x.0, x.1)),
{
    let t = s.push(x);
    assert forall|a: int| #[trigger] covered(t).contains(a) implies covered(s).union(
        set_int_range(x.0, x.1),
    ).contains(a) by {
        let i = choose|i: int| 0 <= i < t.len() && (#[trigger] t[i]).0 <= a < t[i].1;
        if i < s.len() {
            assert(t[i] == s[i]);
            assert(covered(s).contains(a));
        }
    }
    assert forall|a: int| #[trigger]
        covered(s).union(set_int_range(x.0, x.1)).contains(a) implies covered(
        t,
    ).contains(a) by {
        if covered(s).contains(a) {
            let i = choose|i: int| 0 <= i < s.len() && (#[trigger] s[i]).0 <= a < s[i].1;
            assert(t[i] == s[i]);
        } else {
            assert(t[s.len() as int] == x);
        }
    }
    assert(covered(t) =~= covered(s).union(set_int_range(x.0, x.1)));
}

proof fn covered_empty()
    ensures
        covered(Seq::<(int, int)>::empty()) == Set::<int>::empty(),
{
    assert(covered(Seq::<(int, int)>::empty()) =~= Set::<int>::empty());
}

/// What a measuring pass knows of the intervals behind it, none of which
/// starts below the floor: the run that is still growing is exactly what is
/// covered from its start on, and `total` is what is covered before it.
pub open spec fn pass_state(
    s: Seq<(int, int)>,
    floor: int,
    total: int,
    run: (int, int),
) -> bool {
    &&& covered(s).finite()
    &&& run.0 <= run.1
    &&& covered(s).len() == total + (run.1 - run.0)
    &&& total >= 0
    &&& floor + total <= run.0
    &&& forall|t: int| #[trigger] covered(s).contains(t) ==> floor <= t < run.1
    &&& forall|t: int| run.0 <= t < run.1 ==> #[trigger] covered(s).contains(t)
}

/// One more interval that does not start before the run keeps the state.
pub proof fn pass_step(
    s: Seq<(int, int)>,
    floor: int,
    total: int,
    run: (int, int),
    x: (int, int),
)
    requires
        pass_state(s, floor, total, run),
        x.0 <= x.1,
        run.0 <= x.0,
    ensures
        x.0 <= run.1 ==> pass_state(
            s.push(x),
            floor,
            total,
            (
                run.0,
                if x.1 > run.1 {
                    x.1
                } else {
                    run.1
                },
            ),
        ),
        x.0 > run.1 ==> pass_state(s.push(x), floor, total + (run.1 - run.0), x),
{
    let t = s.push(x);
    covered_push(s, x);
    let a = covered(s);
    let old_end = run.1;
    if x.0 <= run.1 {
        if x.1 > run.1 {
            let added = set_int_range(old_end, x.1);
            lemma_int_range(old_end, x.1);
            assert(covered(t) =~= a.union(added));
            assert(a.disjoint(added));
            vstd::set_lib::lemma_set_disjoint_lens(a, added);
        } else {
            assert(covered(t) =~= a);
        }
    } else {
        let added = set_int_range(x.0, x.1);
        lemma_int_range(x.0, x.1);
        assert(a.disjoint(added));
        vstd::set_lib::lemma_set_disjoint_lens(a, added);
    }
}

pub proof fn pass_start(floor: int, x: (int, int))
    requires
        floor <= x.0 <= x.1,
    ensures
        pass_state(seq![x], floor, 0, x),
{
    covered_empty();
    covered_push(Seq::<(int, int)>::empty(), x);
    assert(Seq::<(int, int)>::empty().push(x) =~= seq![x]);
    lemma_int_range(x.0, x.1);
    assert(covered(seq![x]) =~= set_int_range(x.0, x.1));
}

/// The intervals as pairs of mathematical integers.
pub open spec fn ints(s: Seq<(u64, u64)>) -> Seq<(int, int)> {
    s.map_values(|x: (u64, u64)| (x.0 as int, x.1 as int))
}

/// The length of the union of intervals read in order.
///
/// Every interval has to be nonempty and may not start before the run of
/// touching intervals that is being measured; a list sorted by start is such
/// a list.
pub fn interval_union(intervals: &[(u64, u64)]) -> (r: Result<u64, IntervalError>)
    ensures
        r is Ok <==> measurable(ints(intervals@)),
        r matches Ok(total) ==> total == union_length(ints(intervals@)),
        r matches Err(error) ==> error == if measurable_at(ints(intervals@), 0) {
            IntervalError::UnsortedOrInvalid
        } else {
            IntervalError::Invalid
        },
{
    let ghost s = ints(intervals@);
    if intervals.len() == 0 {
        proof {
            assert(s =~= Seq::<(int, int)>::empty());
            covered_empty();
        }
        return Ok(0);
    }
    let first = intervals[0];
    let mut start: u64 = first.0;
    let mut end: u64 = first.1;
    if end <= start {
        assert(!measurable_at(s, 0));
        return Err(IntervalError::Invalid);
    }
    let mut total: u64 = 0;
    let mut i: usize = 1;
    proof {
        pass_start(0, s[0]);
        assert(s.take(1) =~= seq![s[0]]);
    }
    while i < intervals.len()
        invariant
            1 <= i <= intervals.len(),
            s == ints(intervals@),
            start < end,
            last_run(s.take(i as int)) == (start as int, end as int),
            pass_state(s.take(i as int), 0, total as int, (start as int, end as int)),
            forall|j: int| 0 <= j < i ==> #[trigger] measurable_at(s, j),
        decreases intervals.len() - i,
    {
        let next = intervals[i];
        assert(s.take(i + 1) =~= s.take(i as int).push(s[i as int]));
        assert(s.take(i + 1).drop_last() =~= s.take(i as int));
        if next.1 <= next.0 || next.0 < start {
            assert(!measurable_at(s, i as int));
            assert(measurable_at(s, 0));
            return Err(IntervalError::UnsortedOrInvalid);
        }
        assert(measurable_at(s, i as int));
        proof {
            pass_step(
                s.take(i as int),
                0,
                total as int,
                (start as int, end as int),
                s[i as int],
            );
        }
        if next.0 <= end {
            if next.1 > end {
                end = next.1;
            }
        } else {
            total = total + (end - start);
            start = next.0;
            end = next.1;
        }
        i = i + 1;
    }
    assert(s.take(i as int) =~= s);
    Ok(total + (end - start))
}

/// A list sorted by start, with no empty interval, can be measured.
pub proof fn sorted_is_measurable(s: Seq<(int, int)>)
    requires
        forall|i: int| 0 <= i < s.len() ==> (#[trigger] s[i]).0 < s[i].1,
        forall|i: int, j: int|
            0 <= i <= j < s.len() ==> (#[trigger] s[i]).0 <= (#[trigger] s[j]).0,
    ensures
        measurable(s),
{
    assert forall|i: int| 0 <= i < s.len() implies #[trigger] measurable_at(s, i) by {
        if i > 0 {
            last_run_starts_at_an_interval(s.take(i));
            let j = choose|j: int| 0 <= j < i && s.take(i)[j].0 == last_run(s.take(i)).0;
            assert(s.take(i)[j] == s[j]);
        }
    }
}

proof fn last_run_starts_at_an_interval(s: Seq<(int, int)>)
    requires
        s.len() > 0,
    ensures
        exists|j: int| 0 <= j < s.len() && s[j].0 == last_run(s).0,
    decreases s.len(),
{
    if s.len() == 1 {
        assert(s[0].0 == last_run(s).0);
    } else {
        last_run_starts_at_an_interval(s.drop_last());
        let j = choose|j: int| 0 <= j < s.len() - 1 && s.drop_last()[j].0 == last_run(s.drop_last()).0;
        assert(s[j].0 == s.drop_last()[j].0);
        assert(s[s.len() - 1] == s.last());
    }
}

/// The union is never longer than the sum of the durations.
pub proof fn union_is_at_most_total(s: Seq<(int, int)>)
    requires
        forall|i: int| 0 <= i < s.len() ==> (#[trigger] s[i]).0 <= s[i].1,
    ensures
        covered(s).finite(),
        union_length(s) <= duration_total(s),
    decreases s.len(),
{
    if s.len() == 0 {
        assert(s =~= Seq::<(int, int)>::empty());
        covered_empty();
    } else {
        let front = s.drop_last();
        let x = s.last();
        assert forall|i: int| 0 <= i < front.len() implies (#[trigger] front[i]).0 <= front[i].1 by {
            assert(front[i] == s[i]);
        }
        union_is_at_most_total(front);
        assert(s =~= front.push(x));
        assert(s[s.len() - 1] == x);
        covered_push(front, x);
        let added = set_int_range(x.0, x.1);
        lemma_int_range(x.0, x.1);
        vstd::set_lib::lemma_len_union(covered(front), added);
    }
}

/// The union is never longer than the span from the earliest start to the
/// latest end.
pub proof fn union_is_at_most_span(s: Seq<(int, int)>, earliest: int, latest: int)
    requires
        earliest <= latest,
        forall|i: int| 0 <= i < s.len() ==> earliest <= (#[trigger] s[i]).0 && s[i].1 <= latest,
    ensures
        union_length(s) <= latest - earliest,
{
    let whole = set_int_range(earliest, latest);
    lemma_int_range(earliest, latest);
    assert(covered(s).subset_of(whole));
    vstd::set_lib::lemma_len_subset(covered(s), whole);
}

/// Intervals that do not overlap are as long together as their sum.
pub proof fn disjoint_union_is_total(s: Seq<(int, int)>)
    requires
        forall|i: int| 0 <= i < s.len() ==> (#[trigger] s[i]).0 <= s[i].1,
        forall|i: int, j: int|
            0 <= i < j < s.len() ==> (#[trigger] s[i]).1 <= (#[trigger] s[j]).0,
    ensures
        union_length(s) == duration_total(s),
    decreases s.len(),
{
    union_is_at_most_total(s);
    if s.len() == 0 {
        assert(s =~= Seq::<(int, int)>::empty());
        covered_empty();
    } else {
        let front = s.drop_last();
        let x = s.last();
        assert forall|i: int| 0 <= i < front.len() implies (#[trigger] front[i]).0 <= front[i].1 by {
            assert(front[i] == s[i]);
        }
        assert forall|i: int, j: int| 0 <= i < j < front.len() implies (#[trigger] front[i]).1 <= (
        #[trigger] front[j]).0 by {
            assert(front[i] == s[i] && front[j] == s[j]);
        }
        disjoint_union_is_total(front);
        union_is_at_most_total(front);
        assert(s =~= front.push(x));
        assert(s[s.len() - 1] == x);
        covered_push(front, x);
        let added = set_int_range(x.0, x.1);
        lemma_int_range(x.0, x.1);
        assert(covered(front).disjoint(added)) by {
            assert forall|t: int| covered(front).contains(t) implies !added.contains(t) by {
                let i = choose|i: int| 0 <= i < front.len() && (#[trigger] front[i]).0 <= t < front[i].1;
                assert(front[i] == s[i]);
                assert(s[i].1 <= s[s.len() - 1].0);
            }
        }
        vstd::set_lib::lemma_set_disjoint_lens(covered(front), added);
    }
}

proof fn total_of_front(s: Seq<(int, int)>, n: int)
    requires
        0 <= n <= s.len(),
        forall|i: int| 0 <= i < s.len() ==> (#[trigger] s[i]).0 <= s[i].1,
    ensures
        0 <= duration_total(s.take(n)) <= duration_total(s),
    decreases s.len(),
{
    if n == s.len() {
        assert(s.take(n) =~= s);
        if n > 0 {
            assert(s[n - 1].0 <= s[n - 1].1);
            assert forall|i: int| 0 <= i < s.drop_last().len() implies (
            #[trigger] s.drop_last()[i]).0 <= s.drop_last()[i].1 by {
                assert(s[i].0 <= s[i].1);
            }
            total_of_front(s.drop_last(), n - 1);
            assert(s.drop_last().take(n - 1) =~= s.drop_last());
        }
    } else {
        assert forall|i: int| 0 <= i < s.drop_last().len() implies (
        #[trigger] s.drop_last()[i]).0 <= s.drop_last()[i].1 by {
            assert(s[i].0 <= s[i].1);
        }
        total_of_front(s.drop_last(), n);
        assert(s.drop_last().take(n) =~= s.take(n));
        assert(s[s.len() - 1].0 <= s[s.len() - 1].1);
    }
}

/// The sum of the lengths of the intervals.
pub fn duration_sum(intervals: &[(u64, u64)]) -> (r: Result<u64, IntervalError>)
    requires
        forall|i: int| 0 <= i < intervals@.len() ==> (#[trigger] intervals@[i]).0 <= intervals@[i].1,
    ensures
        r is Ok <==> duration_total(ints(intervals@)) <= u64::MAX,
        r matches Ok(total) ==> total == duration_total(ints(intervals@)),
        r matches Err(error) ==> error == IntervalError::Overflow,
{
    let ghost s = ints(intervals@);
    let mut total: u64 = 0;
    let mut i: usize = 0;
    assert(s.take(0) =~= Seq::<(int, int)>::empty());
    while i < intervals.len()
        invariant
            i <= intervals.len(),
            s == ints(intervals@),
            forall|k: int|
                0 <= k < intervals@.len() ==> (#[trigger] intervals@[k]).0 <= intervals@[k].1,
            total == duration_total(s.take(i as int)),
        decreases intervals.len() - i,
    {
        proof {
            assert(s.take(i + 1).drop_last() =~= s.take(i as int));
            assert(intervals@[i as int].0 <= intervals@[i as int].1);
            assert forall|k: int| 0 <= k < s.len() implies (#[trigger] s[k]).0 <= s[k].1 by {
                assert(intervals@[k].0 <= intervals@[k].1);
            }
            total_of_front(s, i + 1);
        }
        match total.checked_add(intervals[i].1 - intervals[i].0) {
            Some(sum) => {
                total = sum;
            },
            None => {
                return Err(IntervalError::Overflow);
            },
        }
        i += 1;
    }
    assert(s.take(s.len() as int) =~= s);
    Ok(total)
}

} // verus!
