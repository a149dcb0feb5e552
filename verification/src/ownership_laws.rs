//! Which step a moment belongs to, which steps are the decode suffix, and whose
//! row is whose, in terms of the steps and the slices themselves.

use crate::order::{arrangement_exists, arranges};
use crate::ownership::{
    decoding_after, entries_until, first_ending_behind, in_sequence, last_prefill, owner_of,
    packed_entries, step_in_window, step_of_stretch, suffix_of, timeline_of, OwnershipSlice,
    TimelineEntry, TraceStep,
};
use vstd::prelude::*;

verus! {

/// Whether the step is the one that was packed last up to the moment.
pub open spec fn packed_last(steps: Seq<TraceStep>, i: int, moment: u64) -> bool {
    &&& 0 <= i < steps.len()
    &&& (steps[i].packed_begin->0).timestamp_ns <= moment
    &&& forall|j: int|
        0 <= j < steps.len() && ((#[trigger] steps[j]).packed_begin->0).timestamp_ns <= moment ==> (
        steps[j].packed_begin->0).timestamp_ns <= (steps[i].packed_begin->0).timestamp_ns
}

proof fn until_splits(timeline: Seq<TimelineEntry>, moment: u64)
    requires
        in_sequence(timeline),
    ensures
        entries_until(timeline, moment) <= timeline.len(),
        forall|k: int|
            0 <= k < timeline.len() ==> ((#[trigger] timeline[k]).timestamp_ns <= moment <==> k
                < entries_until(timeline, moment)),
    decreases timeline.len(),
{
    if timeline.len() > 0 {
        let front = timeline.drop_last();
        assert(in_sequence(front)) by {
            assert forall|i: int, j: int| 0 <= i < j < front.len() implies (
            #[trigger] front[i]).timestamp_ns < (#[trigger] front[j]).timestamp_ns by {
                assert(timeline[i].timestamp_ns < timeline[j].timestamp_ns);
            }
        }
        until_splits(front, moment);
        let last = timeline.len() - 1;
        assert forall|k: int| 0 <= k < timeline.len() implies ((
        #[trigger] timeline[k]).timestamp_ns <= moment <==> k < entries_until(timeline, moment)) by {
            if k < last {
                assert(timeline[k].timestamp_ns < timeline[last].timestamp_ns);
                assert(front[k] == timeline[k]);
            }
        }
    }
}

/// The entries of a timeline are the steps, each once.
pub proof fn timeline_lists_the_steps(steps: Seq<TraceStep>, timeline: Seq<TimelineEntry>)
    requires
        steps.len() <= usize::MAX,
        timeline_of(steps) == Ok::<Seq<TimelineEntry>, crate::ownership::TimelineError>(timeline),
    ensures
        in_sequence(timeline),
        timeline.len() == steps.len(),
        forall|i: int| 0 <= i < steps.len() ==> (#[trigger] steps[i]).packed_begin is Some,
        forall|k: int|
            0 <= k < timeline.len() ==> (#[trigger] timeline[k]).step_index < steps.len()
                && timeline[k].timestamp_ns == (
            steps[timeline[k].step_index as int].packed_begin->0).timestamp_ns,
        forall|i: int|
            0 <= i < steps.len() ==> exists|k: int|
                0 <= k < timeline.len() && (#[trigger] timeline[k]).step_index == i
                    && timeline[k].timestamp_ns == ((#[trigger] steps[i]).packed_begin->0).timestamp_ns,
{
    let entries = packed_entries(steps);
    arrangement_exists(entries);
    assert(arranges(entries, timeline));
    entries.to_multiset_ensures();
    timeline.to_multiset_ensures();
    assert forall|k: int| 0 <= k < timeline.len() implies (#[trigger] timeline[k]).step_index
        < steps.len() && timeline[k].timestamp_ns == (
    steps[timeline[k].step_index as int].packed_begin->0).timestamp_ns by {
        assert(timeline.contains(timeline[k]));
        assert(entries.to_multiset().count(timeline[k]) > 0);
        assert(entries.contains(timeline[k]));
        let m = choose|m: int| 0 <= m < entries.len() && entries[m] == timeline[k];
        assert(entries[m].step_index == m);
    }
    assert forall|i: int| 0 <= i < steps.len() implies exists|k: int|
        0 <= k < timeline.len() && (#[trigger] timeline[k]).step_index == i
            && timeline[k].timestamp_ns == ((#[trigger] steps[i]).packed_begin->0).timestamp_ns by {
        assert(entries.contains(entries[i]));
        assert(timeline.to_multiset().count(entries[i]) > 0);
        assert(timeline.contains(entries[i]));
        let k = choose|k: int| 0 <= k < timeline.len() && timeline[k] == entries[i];
        assert(timeline[k].step_index == i);
    }
}

/// A moment belongs to a step exactly where that step was packed last up to the
/// moment and had not ended: packed at or before it, no other step in between,
/// and its end at the moment or later.
pub proof fn moment_belongs_to_the_step_packed_last(
    moment: u64,
    steps: Seq<TraceStep>,
    timeline: Seq<TimelineEntry>,
)
    requires
        steps.len() <= usize::MAX,
        timeline_of(steps) == Ok::<Seq<TimelineEntry>, crate::ownership::TimelineError>(timeline),
    ensures
        forall|i: int|
            step_in_window(moment, steps, timeline) == Some(i) <==> #[trigger] packed_last(
                steps,
                i,
                moment,
            ) && moment <= steps[i].end_timestamp_ns,
{
    timeline_lists_the_steps(steps, timeline);
    until_splits(timeline, moment);
    let n = entries_until(timeline, moment) as int;
    assert forall|i: int|
        step_in_window(moment, steps, timeline) == Some(i) <==> #[trigger] packed_last(
            steps,
            i,
            moment,
        ) && moment <= steps[i].end_timestamp_ns by {
        if n > 0 {
            latest_entry_is_packed_last(moment, steps, timeline, n);
            let last = timeline[n - 1].step_index as int;
            if packed_last(steps, i, moment) {
                one_is_packed_last(moment, steps, timeline, i, last);
            }
        } else if packed_last(steps, i, moment) {
            let k = choose|k: int|
                0 <= k < timeline.len() && (#[trigger] timeline[k]).step_index == i
                    && timeline[k].timestamp_ns == (steps[i].packed_begin->0).timestamp_ns;
        }
    }
}

proof fn latest_entry_is_packed_last(
    moment: u64,
    steps: Seq<TraceStep>,
    timeline: Seq<TimelineEntry>,
    n: int,
)
    requires
        steps.len() <= usize::MAX,
        timeline_of(steps) == Ok::<Seq<TimelineEntry>, crate::ownership::TimelineError>(timeline),
        n == entries_until(timeline, moment),
        n > 0,
    ensures
        packed_last(steps, timeline[n - 1].step_index as int, moment),
{
    timeline_lists_the_steps(steps, timeline);
    until_splits(timeline, moment);
    let last = timeline[n - 1].step_index as int;
    assert forall|j: int|
        0 <= j < steps.len() && ((#[trigger] steps[j]).packed_begin->0).timestamp_ns
            <= moment implies (steps[j].packed_begin->0).timestamp_ns <= (
    steps[last].packed_begin->0).timestamp_ns by {
        let k = choose|k: int|
            0 <= k < timeline.len() && (#[trigger] timeline[k]).step_index == j
                && timeline[k].timestamp_ns == (steps[j].packed_begin->0).timestamp_ns;
        if k < n - 1 {
            assert(timeline[k].timestamp_ns < timeline[n - 1].timestamp_ns);
        }
    }
}

proof fn one_is_packed_last(
    moment: u64,
    steps: Seq<TraceStep>,
    timeline: Seq<TimelineEntry>,
    i: int,
    j: int,
)
    requires
        steps.len() <= usize::MAX,
        timeline_of(steps) == Ok::<Seq<TimelineEntry>, crate::ownership::TimelineError>(timeline),
        packed_last(steps, i, moment),
        packed_last(steps, j, moment),
    ensures
        i == j,
{
    timeline_lists_the_steps(steps, timeline);
    let a = choose|k: int|
        0 <= k < timeline.len() && (#[trigger] timeline[k]).step_index == i
            && timeline[k].timestamp_ns == (steps[i].packed_begin->0).timestamp_ns;
    let b = choose|k: int|
        0 <= k < timeline.len() && (#[trigger] timeline[k]).step_index == j
            && timeline[k].timestamp_ns == (steps[j].packed_begin->0).timestamp_ns;
    if a < b {
        assert(timeline[a].timestamp_ns < timeline[b].timestamp_ns);
    } else if b < a {
        assert(timeline[b].timestamp_ns < timeline[a].timestamp_ns);
    }
}

/// A stretch of time belongs to a step exactly where its start does, no other
/// step was packed before its end, and the step had not ended then. It is
/// ambiguous exactly where its start has a step and another step was packed
/// behind the start up to the end.
pub proof fn stretch_belongs_to_one_step(
    first: u64,
    last: u64,
    steps: Seq<TraceStep>,
    timeline: Seq<TimelineEntry>,
)
    requires
        first <= last,
        steps.len() <= usize::MAX,
        timeline_of(steps) == Ok::<Seq<TimelineEntry>, crate::ownership::TimelineError>(timeline),
    ensures
        step_of_stretch(first, last, steps, timeline).1 <==> (exists|i: int|
            #[trigger] packed_last(steps, i, first)) && (exists|j: int|
            0 <= j < steps.len() && first < ((
            #[trigger] steps[j]).packed_begin->0).timestamp_ns <= last),
        forall|i: int|
            step_of_stretch(first, last, steps, timeline).0 == Some(i) <==> packed_last(
                steps,
                i,
                first,
            ) && #[trigger] packed_last(steps, i, last) && last <= steps[i].end_timestamp_ns,
{
    timeline_lists_the_steps(steps, timeline);
    until_splits(timeline, first);
    until_splits(timeline, last);
    let n = entries_until(timeline, first) as int;
    let m = entries_until(timeline, last) as int;
    if n > 0 {
        latest_entry_is_packed_last(first, steps, timeline, n);
        let own = timeline[n - 1].step_index as int;
        assert(packed_last(steps, own, first));
        if n < timeline.len() && timeline[n].timestamp_ns <= last {
            let j = timeline[n].step_index as int;
            assert(first < (steps[j].packed_begin->0).timestamp_ns <= last);
        }
        assert forall|j: int|
            0 <= j < steps.len() && first < ((
            #[trigger] steps[j]).packed_begin->0).timestamp_ns <= last implies n < timeline.len()
            && timeline[n].timestamp_ns <= last by {
            let k = choose|k: int|
                0 <= k < timeline.len() && (#[trigger] timeline[k]).step_index == j
                    && timeline[k].timestamp_ns == (steps[j].packed_begin->0).timestamp_ns;
            if n < k {
                assert(timeline[n].timestamp_ns < timeline[k].timestamp_ns);
            }
        }
    }
    assert forall|i: int|
        step_of_stretch(first, last, steps, timeline).0 == Some(i) <==> packed_last(
            steps,
            i,
            first,
        ) && #[trigger] packed_last(steps, i, last) && last <= steps[i].end_timestamp_ns by {
        if n > 0 {
            let own = timeline[n - 1].step_index as int;
            if packed_last(steps, i, first) {
                one_is_packed_last(first, steps, timeline, i, own);
            }
            if n < timeline.len() && timeline[n].timestamp_ns <= last {
                let j = timeline[n].step_index as int;
                assert(timeline[n - 1].timestamp_ns < timeline[n].timestamp_ns);
                assert((steps[j].packed_begin->0).timestamp_ns > (
                steps[own].packed_begin->0).timestamp_ns);
                assert(!packed_last(steps, own, last));
            } else {
                assert(m == n) by {
                    if n < timeline.len() {
                        assert(!(n < m));
                    }
                    if m < n {
                        assert(timeline[m].timestamp_ns <= first);
                    }
                }
                latest_entry_is_packed_last(last, steps, timeline, m);
            }
        } else if packed_last(steps, i, first) {
            let k = choose|k: int|
                0 <= k < timeline.len() && (#[trigger] timeline[k]).step_index == i
                    && timeline[k].timestamp_ns == (steps[i].packed_begin->0).timestamp_ns;
        }
    }
    if n == 0 {
        assert forall|i: int| !#[trigger] packed_last(steps, i, first) by {
            if packed_last(steps, i, first) {
                let k = choose|k: int|
                    0 <= k < timeline.len() && (#[trigger] timeline[k]).step_index == i
                        && timeline[k].timestamp_ns == (steps[i].packed_begin->0).timestamp_ns;
            }
        }
    }
}

// The decode suffix.

proof fn last_prefill_is_latest(steps: Seq<TraceStep>)
    ensures
        last_prefill(steps) matches Some(time) ==> {
            &&& exists|i: int|
                0 <= i < steps.len() && (#[trigger] steps[i]).begin.prefill_tokens != 0
                    && steps[i].packed_begin is Some && (
                steps[i].packed_begin->0).timestamp_ns == time
            &&& forall|i: int|
                0 <= i < steps.len() && (#[trigger] steps[i]).begin.prefill_tokens != 0
                    && steps[i].packed_begin is Some ==> (
                steps[i].packed_begin->0).timestamp_ns <= time
        },
        last_prefill(steps) is None ==> forall|i: int|
            0 <= i < steps.len() && (#[trigger] steps[i]).packed_begin is Some
                ==> steps[i].begin.prefill_tokens == 0,
    decreases steps.len(),
{
    if steps.len() > 0 {
        let front = steps.drop_last();
        last_prefill_is_latest(front);
        let last = steps.len() - 1;
        assert forall|i: int| 0 <= i < last implies #[trigger] steps[i] == front[i] by {}
        assert(steps[last] == steps.last());
        if let Some(time) = last_prefill(front) {
            let i = choose|i: int|
                0 <= i < front.len() && (#[trigger] front[i]).begin.prefill_tokens != 0
                    && front[i].packed_begin is Some && (
                front[i].packed_begin->0).timestamp_ns == time;
            assert(steps[i] == front[i]);
        }
    }
}

proof fn decoding_after_is(steps: Seq<TraceStep>, time: u64)
    requires
        steps.len() <= usize::MAX,
    ensures
        forall|k: int|
            0 <= k < decoding_after(steps, time).len() ==> (#[trigger] decoding_after(
                steps,
                time,
            )[k]) < steps.len(),
        forall|k: int, m: int|
            0 <= k < m < decoding_after(steps, time).len() ==> (#[trigger] decoding_after(
                steps,
                time,
            )[k]) < (#[trigger] decoding_after(steps, time)[m]),
        forall|i: int|
            0 <= i < steps.len() ==> (decoding_after(steps, time).contains(i as usize) <==> {
                &&& ((#[trigger] steps[i]).packed_begin->0).timestamp_ns > time
                &&& steps[i].begin.prefill_tokens == 0
                &&& steps[i].begin.decode_tokens != 0
            }),
    decreases steps.len(),
{
    if steps.len() > 0 {
        let front = steps.drop_last();
        decoding_after_is(front, time);
        let s = decoding_after(front, time);
        let t = decoding_after(steps, time);
        let last = steps.len() - 1;
        assert(steps[last] == steps.last());
        assert forall|i: int| 0 <= i < steps.len() implies (t.contains(i as usize) <==> {
            &&& ((#[trigger] steps[i]).packed_begin->0).timestamp_ns > time
            &&& steps[i].begin.prefill_tokens == 0
            &&& steps[i].begin.decode_tokens != 0
        }) by {
            if i < last {
                assert(front[i] == steps[i]);
                if s.contains(i as usize) {
                    let k = choose|k: int| 0 <= k < s.len() && s[k] == i as usize;
                    assert(t[k] == i as usize);
                }
                if t.contains(i as usize) {
                    let k = choose|k: int| 0 <= k < t.len() && t[k] == i as usize;
                    if k < s.len() {
                        assert(s[k] == i as usize);
                    }
                }
            } else {
                if t.contains(i as usize) {
                    let k = choose|k: int| 0 <= k < t.len() && t[k] == i as usize;
                    if k < s.len() {
                        assert(s[k] < front.len());
                    }
                }
                if t.len() > s.len() {
                    assert(t[s.len() as int] == last as usize);
                }
            }
        }
    }
}

/// The decode suffix holds, in order, exactly the steps that decode and do not
/// prefill and were packed behind every step that prefills.
pub proof fn suffix_decodes_behind_all_prefill(steps: Seq<TraceStep>, suffix: Seq<usize>)
    requires
        steps.len() <= usize::MAX,
        suffix_of(steps) == Ok::<Seq<usize>, Seq<char>>(suffix),
    ensures
        suffix.len() > 0,
        forall|k: int| 0 <= k < suffix.len() ==> (#[trigger] suffix[k]) < steps.len(),
        forall|k: int, m: int|
            0 <= k < m < suffix.len() ==> (#[trigger] suffix[k]) < (#[trigger] suffix[m]),
        forall|i: int|
            0 <= i < steps.len() ==> (suffix.contains(i as usize) <==> {
                &&& (#[trigger] steps[i]).begin.prefill_tokens == 0
                &&& steps[i].begin.decode_tokens != 0
                &&& forall|j: int|
                    0 <= j < steps.len() && (#[trigger] steps[j]).begin.prefill_tokens != 0 ==> (
                    steps[j].packed_begin->0).timestamp_ns < (
                    steps[i].packed_begin->0).timestamp_ns
            }),
{
    last_prefill_is_latest(steps);
    let time = last_prefill(steps)->0;
    decoding_after_is(steps, time);
    let p = choose|p: int|
        0 <= p < steps.len() && (#[trigger] steps[p]).begin.prefill_tokens != 0
            && steps[p].packed_begin is Some && (steps[p].packed_begin->0).timestamp_ns == time;
    assert forall|i: int| 0 <= i < steps.len() implies (suffix.contains(i as usize) <==> {
        &&& (#[trigger] steps[i]).begin.prefill_tokens == 0
        &&& steps[i].begin.decode_tokens != 0
        &&& forall|j: int|
            0 <= j < steps.len() && (#[trigger] steps[j]).begin.prefill_tokens != 0 ==> (
            steps[j].packed_begin->0).timestamp_ns < (steps[i].packed_begin->0).timestamp_ns
    }) by {
        assert(steps[p].begin.prefill_tokens != 0);
        assert(steps[i].packed_begin is Some);
        if (steps[i].packed_begin->0).timestamp_ns > time {
            assert forall|j: int|
                0 <= j < steps.len() && (#[trigger] steps[j]).begin.prefill_tokens != 0 implies (
            steps[j].packed_begin->0).timestamp_ns < (steps[i].packed_begin->0).timestamp_ns by {
                assert(steps[j].packed_begin is Some);
            }
        }
    }
}

// Rows.

proof fn first_ending_is_first(owners: Seq<OwnershipSlice>, row: u32)
    ensures
        0 <= first_ending_behind(owners, row) <= owners.len(),
        forall|j: int|
            0 <= j < first_ending_behind(owners, row) ==> (#[trigger] owners[j]).row_end <= row,
        first_ending_behind(owners, row) < owners.len() ==> owners[first_ending_behind(
            owners,
            row,
        )].row_end > row,
    decreases owners.len(),
{
    if owners.len() > 0 {
        let front = owners.drop_last();
        first_ending_is_first(front, row);
        let n = first_ending_behind(owners, row);
        assert forall|j: int| 0 <= j < n implies (#[trigger] owners[j]).row_end <= row by {
            if j < front.len() {
                assert(front[j] == owners[j]);
            }
        }
        if n < front.len() {
            assert(front[n] == owners[n]);
        }
    }
}

/// The owner that is found surely owns the row, and where the slices stand in
/// the order of their rows none is found only where none surely owns it.
pub proof fn found_owner_owns_the_row(owners: Seq<OwnershipSlice>, row: u32)
    ensures
        owner_of(owners, row) matches Some(i) ==> 0 <= i < owners.len() && owners[i].authoritative
            && owners[i].row_begin <= row < owners[i].row_end,
        owner_of(owners, row) is None && (forall|j: int, k: int|
            0 <= j < k < owners.len() ==> (#[trigger] owners[j]).row_end
                <= (#[trigger] owners[k]).row_begin) ==> forall|i: int|
            0 <= i < owners.len() ==> !((#[trigger] owners[i]).authoritative
                && owners[i].row_begin <= row < owners[i].row_end),
{
    first_ending_is_first(owners, row);
    if owner_of(owners, row) is None && (forall|j: int, k: int|
        0 <= j < k < owners.len() ==> (#[trigger] owners[j]).row_end
            <= (#[trigger] owners[k]).row_begin) {
        assert forall|i: int| 0 <= i < owners.len() implies !((#[trigger] owners[i]).authoritative
            && owners[i].row_begin <= row < owners[i].row_end) by {
            if owners[i].authoritative && owners[i].row_begin <= row < owners[i].row_end {
                crate::ownership::sure_owner_is_found(owners, row, i);
            }
        }
    }
}

} // verus!
