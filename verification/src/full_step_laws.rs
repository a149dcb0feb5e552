//! What the rows of a full-step analysis mean: the busy time, the idle time and
//! the ends of a step's kernels, in terms of the kernels themselves.

use crate::clock::{mapped_is_inside, ClockMap};
use crate::cupti::{
    call_with, calls_repeat, ApiActivity, CuptiQuality, FamilyActivity, KernelFamily, StepPhase,
    FAMILY_COUNT,
};
use crate::full_step::{
    aggregate_of, all_run, analysis_failure, family_at, family_count, family_time, graph_kernels,
    join_of, latest_end, misplaced, placed_spans, placement, report_is, row_of, steps_model,
    stretches, with_families, AggregateModel, FamilyModel, FamilyRow, FullStepReport, Join,
    Placement, StepInterval, StepRow, StepsModel,
};
use crate::intervals::{covered, duration_total, ints, union_is_at_most_total};
use crate::order::{arranged, arrangement_exists, arranges, sorted, Keyed};
use crate::ownership::{
    step_in_window, timeline_of, SemanticTrace, TimelineEntry, TimelineError, TraceStep,
};
use crate::ownership_laws::{moment_belongs_to_the_step_packed_last, packed_last};
use crate::sums::{
    count_of, counts_complete_each_other, counts_fit, none_is_counted, sum_ignores_order, sum_of,
    sum_of_push,
};
use vstd::prelude::*;
use vstd::set_lib::{lemma_int_range, set_int_range};

verus! {

/// The instants at which one of the kernels ran.
pub open spec fn busy_instants(intervals: Seq<StepInterval>) -> Set<int> {
    Set::new(
        |t: int|
            exists|i: int|
                0 <= i < intervals.len() && (#[trigger] intervals[i]).start_ns <= t
                    < intervals[i].end_ns,
    )
}

/// The instants of a stretch at which none of the kernels ran.
pub open spec fn idle_instants(intervals: Seq<StepInterval>, from: int, to: int) -> Set<int> {
    Set::new(
        |t: int|
            from <= t < to && !exists|i: int|
                0 <= i < intervals.len() && (#[trigger] intervals[i]).start_ns <= t
                    < intervals[i].end_ns,
    )
}

/// Whether no kernel starts earlier.
pub open spec fn starts_first(intervals: Seq<StepInterval>, e: int) -> bool {
    &&& 0 <= e < intervals.len()
    &&& forall|i: int|
        0 <= i < intervals.len() ==> intervals[e].start_ns <= (#[trigger] intervals[i]).start_ns
    &&& forall|i: int|
        0 <= i < intervals.len() && (#[trigger] intervals[i]).start_ns == intervals[e].start_ns
            ==> intervals[e].end_ns <= intervals[i].end_ns
}

/// Whether no kernel ends later.
pub open spec fn ends_last(intervals: Seq<StepInterval>, l: int) -> bool {
    &&& 0 <= l < intervals.len()
    &&& forall|i: int|
        0 <= i < intervals.len() ==> (#[trigger] intervals[i]).end_ns <= intervals[l].end_ns
}

proof fn latest_end_is_one(s: Seq<StepInterval>)
    requires
        s.len() > 0,
        all_run(s),
    ensures
        forall|i: int| 0 <= i < s.len() ==> (#[trigger] s[i]).end_ns <= latest_end(s),
        exists|l: int| 0 <= l < s.len() && (#[trigger] s[l]).end_ns == latest_end(s),
    decreases s.len(),
{
    let front = s.drop_last();
    assert(s[s.len() - 1] == s.last());
    if front.len() > 0 {
        assert forall|i: int| 0 <= i < front.len() implies (#[trigger] front[i]).start_ns
            < front[i].end_ns by {
            assert(front[i] == s[i]);
        }
        latest_end_is_one(front);
        let l = choose|l: int| 0 <= l < front.len() && (#[trigger] front[l]).end_ns == latest_end(front);
        assert(s[l] == front[l]);
        assert forall|i: int| 0 <= i < s.len() implies (#[trigger] s[i]).end_ns <= latest_end(s) by {
            if i < front.len() {
                assert(front[i] == s[i]);
            }
        }
    } else {
        assert(latest_end(front) == 0);
    }
}

/// The places of the same values in two orders.
proof fn same_values(s: Seq<StepInterval>, t: Seq<StepInterval>, i: int) -> (j: int)
    requires
        s.to_multiset() == t.to_multiset(),
        0 <= i < s.len(),
    ensures
        0 <= j < t.len(),
        t[j] == s[i],
{
    s.to_multiset_ensures();
    t.to_multiset_ensures();
    assert(s.contains(s[i]));
    assert(t.to_multiset().count(s[i]) > 0);
    choose|j: int| 0 <= j < t.len() && t[j] == s[i]
}

proof fn duration_is_sum(s: Seq<StepInterval>)
    ensures
        duration_total(stretches(s)) == sum_of(s, |x: StepInterval| x.end_ns - x.start_ns),
    decreases s.len(),
{
    if s.len() > 0 {
        duration_is_sum(s.drop_last());
        assert(stretches(s).drop_last() =~= stretches(s.drop_last()));
    }
}

proof fn graph_kernels_are_counted(s: Seq<StepInterval>)
    ensures
        graph_kernels(s) == count_of(s, |x: StepInterval| x.graph),
    decreases s.len(),
{
    if s.len() > 0 {
        graph_kernels_are_counted(s.drop_last());
    }
}

proof fn busy_is_covered(s: Seq<StepInterval>, t: Seq<StepInterval>)
    requires
        s.to_multiset() == t.to_multiset(),
    ensures
        covered(stretches(t)) == busy_instants(s),
{
    assert forall|x: int| covered(stretches(t)).contains(x) <==> busy_instants(s).contains(x) by {
        if covered(stretches(t)).contains(x) {
            let i = choose|i: int|
                0 <= i < stretches(t).len() && (#[trigger] stretches(t)[i]).0 <= x < stretches(
                    t,
                )[i].1;
            let j = same_values(t, s, i);
            assert(s[j].start_ns <= x < s[j].end_ns);
        }
        if busy_instants(s).contains(x) {
            let i = choose|i: int| 0 <= i < s.len() && (#[trigger] s[i]).start_ns <= x < s[i].end_ns;
            let j = same_values(s, t, i);
            assert(stretches(t)[j] == (t[j].start_ns as int, t[j].end_ns as int));
        }
    }
    assert(covered(stretches(t)) =~= busy_instants(s));
}

/// A step's row tells of its kernels: the busy time is the number of instants at
/// which one of them ran, the span goes from the first start to the latest end,
/// and the gap is the number of instants of the span at which none ran, so busy
/// time and gap add up to the span. The sum counts every kernel in full, and so
/// is never less than the busy time.
pub proof fn row_times_the_kernels(step: TraceStep, a: AggregateModel, row: StepRow)
    requires
        a.intervals.len() > 0,
        all_run(a.intervals),
        row_of(step, a) == Ok::<StepRow, Seq<char>>(row),
    ensures
        busy_instants(a.intervals).finite(),
        row.gpu_busy_union_ns == busy_instants(a.intervals).len(),
        row.gpu_busy_union_ns + row.gpu_gap_within_span_ns == row.gpu_span_ns,
        row.kernel_sum_ns == sum_of(a.intervals, |x: StepInterval| x.end_ns - x.start_ns),
        row.gpu_busy_union_ns <= row.kernel_sum_ns,
        exists|e: int, l: int|
            {
                &&& #[trigger] starts_first(a.intervals, e)
                &&& #[trigger] ends_last(a.intervals, l)
                &&& row.gpu_span_ns == a.intervals[l].end_ns - a.intervals[e].start_ns
                &&& row.gpu_gap_within_span_ns == idle_instants(
                    a.intervals,
                    a.intervals[e].start_ns as int,
                    a.intervals[l].end_ns as int,
                ).len()
                &&& row.first_gpu_start_minus_api_end_ns == a.intervals[e].start_ns
                    - a.intervals[e].api_end_ns
                &&& step.end_timestamp_ns - row.last_gpu_to_step_end_ns == a.intervals[l].end_ns
                &&& row.outside_step == (a.intervals[e].start_ns < step.begin.timestamp_ns
                    || a.intervals[l].end_ns > step.end_timestamp_ns)
            },
{
    let s = a.intervals;
    let t = arranged(s);
    arrangement_exists(s);
    assert(arranges(s, t));
    s.to_multiset_ensures();
    t.to_multiset_ensures();
    assert forall|i: int| 0 <= i < t.len() implies (#[trigger] t[i]).start_ns < t[i].end_ns by {
        let j = same_values(t, s, i);
    }
    latest_end_is_one(t);
    let e = same_values(t, s, 0);
    let m = choose|m: int| 0 <= m < t.len() && (#[trigger] t[m]).end_ns == latest_end(t);
    let l = same_values(t, s, m);
    assert(sorted(t));
    assert forall|i: int| 0 <= i < s.len() implies s[e].start_ns <= (#[trigger] s[i]).start_ns && (
    s[i].start_ns == s[e].start_ns ==> s[e].end_ns <= s[i].end_ns) && s[i].end_ns
        <= s[l].end_ns by {
        let j = same_values(s, t, i);
        assert(t[0].before(t[j]));
    }
    assert(starts_first(s, e) && ends_last(s, l));
    busy_is_covered(s, t);
    duration_is_sum(t);
    sum_ignores_order(s, t, |x: StepInterval| x.end_ns - x.start_ns);
    assert forall|i: int| 0 <= i < stretches(t).len() implies (#[trigger] stretches(t)[i]).0
        <= stretches(t)[i].1 by {
        assert(t[i].start_ns < t[i].end_ns);
    }
    union_is_at_most_total(stretches(t));
    let from = s[e].start_ns as int;
    let to = s[l].end_ns as int;
    let whole = set_int_range(from, to);
    let busy = busy_instants(s);
    let idle = idle_instants(s, from, to);
    lemma_int_range(from, to);
    assert(s[e].start_ns < s[e].end_ns <= s[l].end_ns);
    assert forall|x: int| busy.contains(x) implies whole.contains(x) by {
        let i = choose|i: int| 0 <= i < s.len() && (#[trigger] s[i]).start_ns <= x < s[i].end_ns;
    }
    assert(idle =~= whole.difference(busy));
    assert(whole =~= busy.union(idle));
    vstd::set_lib::lemma_len_subset(busy, whole);
    vstd::set_lib::lemma_len_subset(idle, whole);
    vstd::set_lib::lemma_set_disjoint_lens(busy, idle);
}

/// A step's row shows the step as it was recorded, and the moments of the step
/// lead from one to the next: begin, packed layout, first call, end.
pub proof fn row_shows_the_step(step: TraceStep, a: AggregateModel, row: StepRow)
    requires
        a.intervals.len() > 0,
        a.intervals.len() <= usize::MAX,
        a.streams.len() <= usize::MAX,
        row_of(step, a) == Ok::<StepRow, Seq<char>>(row),
    ensures
        step.packed_begin is Some,
        row.step_id == step.begin.step_id,
        row.scheduled_tokens == step.begin.scheduled_tokens,
        row.prefill_tokens == step.begin.prefill_tokens,
        row.decode_tokens == step.begin.decode_tokens,
        row.queue_depth == step.begin.queue_depth,
        row.requests == step.owner_count,
        row.reordered_positions == step.scheduler_order_mismatches,
        row.phase == StepPhase::Prefill <==> row.prefill_tokens > 0 && row.decode_tokens == 0,
        row.phase == StepPhase::Decode <==> row.prefill_tokens == 0 && row.decode_tokens > 0,
        row.phase == StepPhase::Mixed <==> row.prefill_tokens > 0 && row.decode_tokens > 0,
        step.begin.timestamp_ns + row.semantic_wall_ns == step.end_timestamp_ns,
        step.begin.timestamp_ns + row.schedule_to_pack_ns == (
        step.packed_begin->0).timestamp_ns,
        row.schedule_to_pack_ns <= row.semantic_wall_ns,
        a.api_first_ns >= (step.packed_begin->0).timestamp_ns ==> (
        step.packed_begin->0).timestamp_ns + row.pack_to_first_api_ns == a.api_first_ns,
        a.api_first_ns <= (step.packed_begin->0).timestamp_ns ==> row.pack_to_first_api_ns == 0,
        a.api_first_ns <= a.api_last_ns ==> a.api_first_ns + row.api_endpoint_span_ns
            == a.api_last_ns,
        row.kernel_count == a.intervals.len(),
        row.graph_kernel_count == count_of(a.intervals, |x: StepInterval| x.graph),
        row.graph_kernel_count + row.ordinary_kernel_count == row.kernel_count,
        row.streams == a.streams.len(),
{
    let s = a.intervals;
    let t = arranged(s);
    arrangement_exists(s);
    s.to_multiset_ensures();
    t.to_multiset_ensures();
    graph_kernels_are_counted(t);
    let p = |x: StepInterval| x.graph;
    let q = |x: StepInterval| !x.graph;
    counts_complete_each_other(s, p, q);
    sum_ignores_order(
        s,
        t,
        |x: StepInterval|
            if p(x) {
                1
            } else {
                0
            },
    );
}

// Where kernels belong.

/// The call that is found has the correlation, and none is found only where none
/// has it.
pub proof fn call_is_the_one(calls: Seq<ApiActivity>, correlation: u32)
    ensures
        call_with(calls, correlation) matches Some(call) ==> call.correlation == correlation
            && calls.contains(call),
        call_with(calls, correlation) is None ==> forall|c: int|
            0 <= c < calls.len() ==> (#[trigger] calls[c]).correlation != correlation,
    decreases calls.len(),
{
    if calls.len() > 0 {
        let front = calls.drop_last();
        call_is_the_one(front, correlation);
        assert(calls[calls.len() - 1] == calls.last());
        if let Some(call) = call_with(front, correlation) {
            let c = choose|c: int| 0 <= c < front.len() && front[c] == call;
            assert(calls[c] == call) by {
                assert(calls[c] == front[c]);
            }
        }
        if call_with(calls, correlation) is None {
            assert forall|c: int| 0 <= c < calls.len() implies (#[trigger] calls[c]).correlation
                != correlation by {
                if c < front.len() {
                    assert(front[c] == calls[c]);
                }
            }
        }
    }
}

/// Whether the kernel is placed in the step.
pub open spec fn placed_in(k: FamilyActivity, join: Join, i: int) -> bool {
    placement(k, join) is Placed && placement(k, join)->step == i
}

/// Whether the call launched the kernel into the step: it has the kernel's
/// correlation, succeeded, ran in the step's process, and began on the engine's
/// clock while the step was the one packed last and had not ended.
pub open spec fn launched_into(
    k: FamilyActivity,
    call: ApiActivity,
    steps: Seq<TraceStep>,
    clock: ClockMap,
    i: int,
) -> bool {
    &&& call.correlation == k.correlation
    &&& call.return_value == 0
    &&& call.process == steps[i].begin.pid
    &&& clock.spans(call.start_ns) && clock.spans(call.end_ns) && clock.spans(k.start_ns)
        && clock.spans(k.end_ns)
    &&& clock.mapped(call.start_ns) <= clock.mapped(call.end_ns)
    &&& clock.mapped(k.start_ns) < clock.mapped(k.end_ns)
    &&& packed_last(steps, i, clock.mapped(call.start_ns) as u64)
    &&& clock.mapped(call.start_ns) <= steps[i].end_timestamp_ns
}

/// A kernel is placed in a step exactly where one of the calls launched it into
/// the step, and then runs when the device said it did, on the engine's clock.
pub proof fn kernel_belongs_where_it_was_launched(k: FamilyActivity, join: Join)
    requires
        !calls_repeat(join.calls),
        join.steps.len() <= usize::MAX,
        timeline_of(join.steps) == Ok::<Seq<TimelineEntry>, TimelineError>(join.timeline),
    ensures
        forall|i: int|
            #[trigger] placed_in(k, join, i) <==> exists|c: int|
                0 <= c < join.calls.len() && #[trigger] launched_into(
                    k,
                    join.calls[c],
                    join.steps,
                    join.clock,
                    i,
                ),
        placement(k, join) matches Placement::Placed { step, api_start_ns, interval } ==> {
            &&& interval.start_ns == join.clock.mapped(k.start_ns)
            &&& interval.end_ns == join.clock.mapped(k.end_ns)
            &&& interval.start_ns < interval.end_ns
            &&& interval.family == k.family
            &&& interval.graph == (k.graph_node_id != 0 || k.graph_id != 0)
            &&& exists|c: int|
                0 <= c < join.calls.len() && (#[trigger] join.calls[c]).correlation
                    == k.correlation && api_start_ns == join.clock.mapped(join.calls[c].start_ns)
                    && interval.api_end_ns == join.clock.mapped(join.calls[c].end_ns)
        },
        placement(k, join) == Placement::Unmatched <==> forall|c: int|
            0 <= c < join.calls.len() ==> (#[trigger] join.calls[c]).correlation != k.correlation,
{
    call_is_the_one(join.calls, k.correlation);
    match call_with(join.calls, k.correlation) {
        None => {
            assert forall|i: int, c: int| 0 <= c < join.calls.len() implies !#[trigger] launched_into(
                k,
                join.calls[c],
                join.steps,
                join.clock,
                i,
            ) by {
                assert(join.calls[c].correlation != k.correlation);
            }
        },
        Some(call) => {
            let own = choose|c: int| 0 <= c < join.calls.len() && join.calls[c] == call;
            assert forall|c: int|
                0 <= c < join.calls.len() && (#[trigger] join.calls[c]).correlation
                    == k.correlation implies c == own by {
                if c < own {
                    assert(join.calls[c].correlation == join.calls[own].correlation);
                } else if own < c {
                    assert(join.calls[own].correlation == join.calls[c].correlation);
                }
            }
            if join.clock.spans(call.start_ns) {
                mapped_is_inside(join.clock, call.start_ns);
            }
            if join.clock.spans(call.end_ns) {
                mapped_is_inside(join.clock, call.end_ns);
            }
            if join.clock.spans(k.start_ns) {
                mapped_is_inside(join.clock, k.start_ns);
            }
            if join.clock.spans(k.end_ns) {
                mapped_is_inside(join.clock, k.end_ns);
            }
            let moment = join.clock.mapped(call.start_ns) as u64;
            moment_belongs_to_the_step_packed_last(moment, join.steps, join.timeline);
            assert forall|i: int|
                #[trigger] placed_in(k, join, i) <==> exists|c: int|
                    0 <= c < join.calls.len() && #[trigger] launched_into(
                        k,
                        join.calls[c],
                        join.steps,
                        join.clock,
                        i,
                    ) by {
                assert(step_in_window(moment, join.steps, join.timeline) == Some(i) <==> packed_last(
                    join.steps,
                    i,
                    moment,
                ) && moment <= join.steps[i].end_timestamp_ns);
                if placed_in(k, join, i) {
                    let at = step_in_window(moment, join.steps, join.timeline)->0;
                    assert(packed_last(join.steps, at, moment));
                    assert(launched_into(k, join.calls[own], join.steps, join.clock, i));
                }
                if exists|c: int|
                    0 <= c < join.calls.len() && #[trigger] launched_into(
                        k,
                        join.calls[c],
                        join.steps,
                        join.clock,
                        i,
                    ) {
                    let c = choose|c: int|
                        0 <= c < join.calls.len() && #[trigger] launched_into(
                            k,
                            join.calls[c],
                            join.steps,
                            join.clock,
                            i,
                        );
                    assert(join.calls[c].correlation == k.correlation);
                }
            }
            assert(join.calls[own].correlation == k.correlation);
        },
    }
}

/// A step gathers exactly the kernels that are placed in it: as many intervals,
/// and each that of such a kernel.
pub proof fn step_gathers_its_kernels(kernels: Seq<FamilyActivity>, join: Join, i: int)
    ensures
        ({
            let a = aggregate_of(kernels, join, i);
            &&& a.intervals.len() == count_of(
                kernels,
                |k: FamilyActivity| placed_in(k, join, i),
            )
            &&& forall|n: int|
                0 <= n < kernels.len() && placed_in(#[trigger] kernels[n], join, i)
                    ==> a.intervals.contains(placement(kernels[n], join)->interval)
            &&& forall|m: int|
                0 <= m < a.intervals.len() ==> exists|n: int|
                    0 <= n < kernels.len() && placed_in(#[trigger] kernels[n], join, i) && placement(
                        kernels[n],
                        join,
                    )->interval == #[trigger] a.intervals[m]
        }),
    decreases kernels.len(),
{
    let a = aggregate_of(kernels, join, i);
    if kernels.len() > 0 {
        let front = kernels.drop_last();
        let b = aggregate_of(front, join, i);
        step_gathers_its_kernels(front, join, i);
        let last = kernels.len() - 1;
        assert(kernels[last] == kernels.last());
        assert forall|n: int|
            0 <= n < kernels.len() && placed_in(#[trigger] kernels[n], join, i) implies
            a.intervals.contains(placement(kernels[n], join)->interval) by {
            let x = placement(kernels[n], join)->interval;
            if n < last {
                assert(kernels[n] == front[n]);
                let m = choose|m: int| 0 <= m < b.intervals.len() && b.intervals[m] == x;
                assert(a.intervals[m] == x);
            } else {
                assert(a.intervals[b.intervals.len() as int] == x);
            }
        }
        assert forall|m: int| 0 <= m < a.intervals.len() implies exists|n: int|
            0 <= n < kernels.len() && placed_in(#[trigger] kernels[n], join, i) && placement(
                kernels[n],
                join,
            )->interval == #[trigger] a.intervals[m] by {
            if m < b.intervals.len() {
                assert(b.intervals[m] == a.intervals[m]);
                let n = choose|n: int|
                    0 <= n < front.len() && placed_in(#[trigger] front[n], join, i) && placement(
                        front[n],
                        join,
                    )->interval == b.intervals[m];
                assert(kernels[n] == front[n]);
            } else {
                assert(placed_in(kernels[last], join, i));
            }
        }
    }
}

/// A step knows each stream of its kernels once, and no other.
pub proof fn step_knows_its_streams(kernels: Seq<FamilyActivity>, join: Join, i: int)
    ensures
        ({
            let a = aggregate_of(kernels, join, i);
            &&& forall|n: int|
                0 <= n < kernels.len() && placed_in(#[trigger] kernels[n], join, i)
                    ==> a.streams.contains(kernels[n].stream)
            &&& forall|m: int|
                0 <= m < a.streams.len() ==> exists|n: int|
                    0 <= n < kernels.len() && placed_in(#[trigger] kernels[n], join, i)
                        && kernels[n].stream == #[trigger] a.streams[m]
            &&& a.streams.no_duplicates()
        }),
    decreases kernels.len(),
{
    let a = aggregate_of(kernels, join, i);
    if kernels.len() > 0 {
        let front = kernels.drop_last();
        let b = aggregate_of(front, join, i);
        step_knows_its_streams(front, join, i);
        let last = kernels.len() - 1;
        assert(kernels[last] == kernels.last());
        if a.streams != b.streams {
            let x = kernels.last().stream;
            assert(a.streams == b.streams.push(x) && !b.streams.contains(x));
            assert forall|m: int, w: int|
                0 <= m < a.streams.len() && 0 <= w < a.streams.len() && m
                    != w implies a.streams[m] != a.streams[w] by {
                if m < b.streams.len() {
                    assert(b.streams.contains(b.streams[m]));
                }
                if w < b.streams.len() {
                    assert(b.streams.contains(b.streams[w]));
                }
            }
        }
        assert forall|n: int|
            0 <= n < kernels.len() && placed_in(#[trigger] kernels[n], join, i) implies
            a.streams.contains(kernels[n].stream) by {
            let x = kernels[n].stream;
            if n < last {
                assert(kernels[n] == front[n]);
                let w = choose|w: int| 0 <= w < b.streams.len() && b.streams[w] == x;
                assert(a.streams[w] == x);
            } else if !b.streams.contains(x) {
                assert(a.streams[b.streams.len() as int] == x);
            }
        }
        assert forall|m: int| 0 <= m < a.streams.len() implies exists|n: int|
            0 <= n < kernels.len() && placed_in(#[trigger] kernels[n], join, i)
                && kernels[n].stream == #[trigger] a.streams[m] by {
            if m < b.streams.len() {
                assert(b.streams[m] == a.streams[m]);
                let n = choose|n: int|
                    0 <= n < front.len() && placed_in(#[trigger] front[n], join, i)
                        && front[n].stream == b.streams[m];
                assert(kernels[n] == front[n]);
            } else {
                assert(placed_in(kernels[last], join, i));
            }
        }
    }
}

/// The last call of a step is that of one of its kernels, and none of them has a
/// later one.
pub proof fn last_call_is_the_latest(kernels: Seq<FamilyActivity>, join: Join, i: int)
    ensures
        ({
            let a = aggregate_of(kernels, join, i);
            &&& forall|n: int|
                0 <= n < kernels.len() && placed_in(#[trigger] kernels[n], join, i) ==> placement(
                    kernels[n],
                    join,
                )->interval.api_end_ns <= a.api_last_ns
            &&& a.intervals.len() > 0 ==> exists|n: int|
                0 <= n < kernels.len() && placed_in(#[trigger] kernels[n], join, i) && placement(
                    kernels[n],
                    join,
                )->interval.api_end_ns == a.api_last_ns
        }),
    decreases kernels.len(),
{
    let a = aggregate_of(kernels, join, i);
    if kernels.len() > 0 {
        let front = kernels.drop_last();
        let b = aggregate_of(front, join, i);
        last_call_is_the_latest(front, join, i);
        let last = kernels.len() - 1;
        assert(kernels[last] == kernels.last());
        assert forall|n: int| 0 <= n < front.len() implies #[trigger] kernels[n] == front[n] by {}
        if b.intervals.len() > 0 {
            let n = choose|n: int|
                0 <= n < front.len() && placed_in(#[trigger] front[n], join, i) && placement(
                    front[n],
                    join,
                )->interval.api_end_ns == b.api_last_ns;
            assert(kernels[n] == front[n]);
            if a.api_last_ns == b.api_last_ns {
                assert(placed_in(kernels[n], join, i));
            } else {
                assert(placed_in(kernels[last], join, i));
            }
        } else {
            empty_has_no_call(front, join, i);
            if a.intervals.len() > 0 {
                assert(placed_in(kernels[last], join, i));
            }
        }
        assert forall|n: int| 0 <= n < kernels.len() && placed_in(#[trigger] kernels[n], join, i) implies
            placement(kernels[n], join)->interval.api_end_ns <= a.api_last_ns by {
            if n < last {
                assert(placed_in(front[n], join, i));
            }
        }
    }
}

proof fn empty_has_no_call(kernels: Seq<FamilyActivity>, join: Join, i: int)
    requires
        aggregate_of(kernels, join, i).intervals.len() == 0,
    ensures
        aggregate_of(kernels, join, i).api_last_ns == 0,
        aggregate_of(kernels, join, i).api_first_ns == 0,
    decreases kernels.len(),
{
    if kernels.len() > 0 {
        empty_has_no_call(kernels.drop_last(), join, i);
    }
}

/// Where no call begins at zero, the first call of a step is that of one of its
/// kernels, and none of them has an earlier one.
pub proof fn first_call_is_the_earliest(kernels: Seq<FamilyActivity>, join: Join, i: int)
    requires
        forall|n: int|
            0 <= n < kernels.len() && placed_in(#[trigger] kernels[n], join, i) ==> placement(
                kernels[n],
                join,
            )->api_start_ns > 0,
    ensures
        ({
            let a = aggregate_of(kernels, join, i);
            &&& forall|n: int|
                0 <= n < kernels.len() && placed_in(#[trigger] kernels[n], join, i)
                    ==> a.api_first_ns <= placement(kernels[n], join)->api_start_ns
            &&& a.intervals.len() > 0 ==> a.api_first_ns > 0 && exists|n: int|
                0 <= n < kernels.len() && placed_in(#[trigger] kernels[n], join, i) && placement(
                    kernels[n],
                    join,
                )->api_start_ns == a.api_first_ns
        }),
    decreases kernels.len(),
{
    let a = aggregate_of(kernels, join, i);
    if kernels.len() > 0 {
        let front = kernels.drop_last();
        let b = aggregate_of(front, join, i);
        let last = kernels.len() - 1;
        assert(kernels[last] == kernels.last());
        assert forall|n: int| 0 <= n < front.len() implies #[trigger] kernels[n] == front[n] by {}
        assert forall|n: int|
            0 <= n < front.len() && placed_in(#[trigger] front[n], join, i) implies placement(
            front[n],
            join,
        )->api_start_ns > 0 by {
            assert(placed_in(kernels[n], join, i));
        }
        first_call_is_the_earliest(front, join, i);
        if b.intervals.len() == 0 {
            empty_has_no_call(front, join, i);
            step_gathers_its_kernels(front, join, i);
            assert forall|n: int| 0 <= n < front.len() implies !placed_in(
                #[trigger] front[n],
                join,
                i,
            ) by {
                if placed_in(front[n], join, i) {
                    assert(b.intervals.contains(placement(front[n], join)->interval));
                }
            }
        } else {
            let n = choose|n: int|
                0 <= n < front.len() && placed_in(#[trigger] front[n], join, i) && placement(
                    front[n],
                    join,
                )->api_start_ns == b.api_first_ns;
            assert(placed_in(kernels[n], join, i));
        }
        if a != b {
            assert(placed_in(kernels[last], join, i));
        }
        assert forall|n: int| 0 <= n < kernels.len() && placed_in(#[trigger] kernels[n], join, i) implies
            a.api_first_ns <= placement(kernels[n], join)->api_start_ns by {
            if n < last {
                assert(placed_in(front[n], join, i));
            }
        }
    }
}

// Families.

proof fn families_have_places(family: KernelFamily, place: int)
    requires
        0 <= place < FAMILY_COUNT,
    ensures
        0 <= family.spec_index() < FAMILY_COUNT,
        family == family_at(place) <==> family.spec_index() == place,
{
}

proof fn family_is_counted(s: Seq<StepInterval>, place: int)
    requires
        0 <= place < FAMILY_COUNT,
    ensures
        family_count(s, place) == count_of(s, |x: StepInterval| x.family == family_at(place)),
        family_time(s, place) == sum_of(
            s,
            |x: StepInterval|
                if x.family == family_at(place) {
                    x.end_ns - x.start_ns
                } else {
                    0
                },
        ),
    decreases s.len(),
{
    if s.len() > 0 {
        family_is_counted(s.drop_last(), place);
        families_have_places(s.last().family, place);
    }
}

spec fn counts_up_to(s: Seq<StepInterval>, places: int) -> int
    decreases places,
{
    if places <= 0 {
        0
    } else {
        counts_up_to(s, places - 1) + family_count(s, places - 1)
    }
}

spec fn times_up_to(s: Seq<StepInterval>, places: int) -> int
    decreases places,
{
    if places <= 0 {
        0
    } else {
        times_up_to(s, places - 1) + family_time(s, places - 1)
    }
}

proof fn one_more_counts(s: Seq<StepInterval>, places: int)
    requires
        s.len() > 0,
        0 <= places,
    ensures
        counts_up_to(s, places) == counts_up_to(s.drop_last(), places) + if s.last().family.spec_index()
            < places {
            1int
        } else {
            0
        },
        times_up_to(s, places) == times_up_to(s.drop_last(), places) + if s.last().family.spec_index()
            < places {
            s.last().end_ns - s.last().start_ns
        } else {
            0
        },
    decreases places,
{
    families_have_places(s.last().family, 0);
    if places > 0 {
        one_more_counts(s, places - 1);
    }
}

proof fn families_are_all(s: Seq<StepInterval>)
    ensures
        counts_up_to(s, FAMILY_COUNT as int) == s.len(),
        times_up_to(s, FAMILY_COUNT as int) == sum_of(
            s,
            |x: StepInterval| x.end_ns - x.start_ns,
        ),
    decreases s.len(),
{
    if s.len() > 0 {
        families_are_all(s.drop_last());
        one_more_counts(s, FAMILY_COUNT as int);
        families_have_places(s.last().family, 0);
    } else {
        nothing_counts(s, FAMILY_COUNT as int);
    }
}

proof fn nothing_counts(s: Seq<StepInterval>, places: int)
    requires
        s.len() == 0,
    ensures
        counts_up_to(s, places) == 0,
        times_up_to(s, places) == 0,
    decreases places,
{
    if places > 0 {
        nothing_counts(s, places - 1);
    }
}

/// Whether the row tells of the kernels of one family among the intervals.
pub open spec fn tells_of_family(r: FamilyRow, row: StepRow, intervals: Seq<StepInterval>) -> bool {
    &&& r.step_id == row.step_id
    &&& r.phase == row.phase
    &&& r.kernel_count > 0
    &&& r.kernel_count == count_of(intervals, |x: StepInterval| x.family == r.family)
    &&& r.duration_ns == sum_of(
        intervals,
        |x: StepInterval|
            if x.family == r.family {
                x.end_ns - x.start_ns
            } else {
                0
            },
    )
}

proof fn families_up_to(
    before: FamilyModel,
    row: StepRow,
    intervals: Seq<StepInterval>,
    places: int,
    after: FamilyModel,
)
    requires
        0 <= places <= FAMILY_COUNT,
        before.totals.len() == FAMILY_COUNT,
        all_run(intervals),
        intervals.len() <= u64::MAX,
        with_families(before, row, intervals, places) == Ok::<FamilyModel, Seq<char>>(after),
    ensures
        after.totals.len() == FAMILY_COUNT,
        before.rows.len() <= after.rows.len(),
        after.rows.take(before.rows.len() as int) == before.rows,
        forall|r: int|
            before.rows.len() <= r < after.rows.len() ==> tells_of_family(
                #[trigger] after.rows[r],
                row,
                intervals,
            ) && after.rows[r].family.spec_index() < places,
        forall|r: int, q: int|
            before.rows.len() <= r < q < after.rows.len() ==> (
            #[trigger] after.rows[r]).family.spec_index() < (
            #[trigger] after.rows[q]).family.spec_index(),
        sum_of(after.rows, |x: FamilyRow| x.kernel_count as int) == sum_of(
            before.rows,
            |x: FamilyRow| x.kernel_count as int,
        ) + counts_up_to(intervals, places),
        sum_of(after.rows, |x: FamilyRow| x.duration_ns as int) == sum_of(
            before.rows,
            |x: FamilyRow| x.duration_ns as int,
        ) + times_up_to(intervals, places),
        forall|f: int|
            places <= f < FAMILY_COUNT ==> #[trigger] after.totals[f] == before.totals[f],
        forall|f: int|
            0 <= f < places ==> {
                &&& (#[trigger] after.totals[f]).duration_ns == before.totals[f].duration_ns
                    + family_time(intervals, f)
                &&& before.totals[f].kernels + family_count(intervals, f) <= u64::MAX
                    ==> after.totals[f].kernels == before.totals[f].kernels + family_count(
                    intervals,
                    f,
                )
            },
    decreases places,
{
    let by_count = |x: FamilyRow| x.kernel_count as int;
    let by_time = |x: FamilyRow| x.duration_ns as int;
    if places == 0 {
        assert(after.rows.take(before.rows.len() as int) =~= before.rows);
    } else {
        let place = places - 1;
        let model = with_families(before, row, intervals, place)->Ok_0;
        families_up_to(before, row, intervals, place, model);
        family_is_counted(intervals, place);
        family_counts_fit(intervals, place);
        let count = family_count(intervals, place);
        if count > 0 {
            let r = after.rows.last();
            assert(after.rows == model.rows.push(r));
            sum_of_push(model.rows, r, by_count);
            sum_of_push(model.rows, r, by_time);
            families_have_places(r.family, place);
            assert(after.rows.take(before.rows.len() as int) =~= model.rows.take(
                before.rows.len() as int,
            ));
        } else {
            no_kernels_no_time(intervals, place);
        }
    }
}

proof fn family_counts_fit(s: Seq<StepInterval>, place: int)
    requires
        all_run(s),
    ensures
        family_count(s, place) <= s.len(),
        family_time(s, place) >= 0,
    decreases s.len(),
{
    if s.len() > 0 {
        let front = s.drop_last();
        assert forall|i: int| 0 <= i < front.len() implies (#[trigger] front[i]).start_ns
            < front[i].end_ns by {
            assert(front[i] == s[i]);
        }
        assert(s[s.len() - 1] == s.last());
        family_counts_fit(front, place);
    }
}

proof fn no_kernels_no_time(s: Seq<StepInterval>, place: int)
    requires
        family_count(s, place) == 0,
    ensures
        family_time(s, place) == 0,
    decreases s.len(),
{
    if s.len() > 0 {
        no_kernels_no_time(s.drop_last(), place);
    }
}

/// The family rows of a step share out its kernels: each tells of one family, no
/// two of the same, their kernels add up to all the kernels of the step and their
/// times to all the time that these ran. The totals grow by as much.
pub proof fn families_share_out_the_kernels(
    before: FamilyModel,
    row: StepRow,
    intervals: Seq<StepInterval>,
    after: FamilyModel,
)
    requires
        before.totals.len() == FAMILY_COUNT,
        all_run(intervals),
        intervals.len() <= u64::MAX,
        with_families(before, row, intervals, FAMILY_COUNT as int) == Ok::<FamilyModel, Seq<char>>(
            after,
        ),
    ensures
        after.rows.take(before.rows.len() as int) == before.rows,
        forall|r: int|
            before.rows.len() <= r < after.rows.len() ==> tells_of_family(
                #[trigger] after.rows[r],
                row,
                intervals,
            ),
        forall|r: int, q: int|
            before.rows.len() <= r < q < after.rows.len() ==> (#[trigger] after.rows[r]).family != (
            #[trigger] after.rows[q]).family,
        sum_of(after.rows, |x: FamilyRow| x.kernel_count as int) == sum_of(
            before.rows,
            |x: FamilyRow| x.kernel_count as int,
        ) + intervals.len(),
        sum_of(after.rows, |x: FamilyRow| x.duration_ns as int) == sum_of(
            before.rows,
            |x: FamilyRow| x.duration_ns as int,
        ) + sum_of(intervals, |x: StepInterval| x.end_ns - x.start_ns),
        forall|f: int|
            0 <= f < FAMILY_COUNT ==> {
                &&& (#[trigger] after.totals[f]).duration_ns == before.totals[f].duration_ns
                    + sum_of(
                    intervals,
                    |x: StepInterval|
                        if x.family == family_at(f) {
                            x.end_ns - x.start_ns
                        } else {
                            0
                        },
                )
                &&& before.totals[f].kernels + count_of(
                    intervals,
                    |x: StepInterval| x.family == family_at(f),
                ) <= u64::MAX ==> after.totals[f].kernels == before.totals[f].kernels + count_of(
                    intervals,
                    |x: StepInterval| x.family == family_at(f),
                )
            },
{
    families_up_to(before, row, intervals, FAMILY_COUNT as int, after);
    families_are_all(intervals);
    assert forall|f: int| 0 <= f < FAMILY_COUNT implies {
        &&& (#[trigger] after.totals[f]).duration_ns == before.totals[f].duration_ns + sum_of(
            intervals,
            |x: StepInterval|
                if x.family == family_at(f) {
                    x.end_ns - x.start_ns
                } else {
                    0
                },
        )
        &&& before.totals[f].kernels + count_of(
            intervals,
            |x: StepInterval| x.family == family_at(f),
        ) <= u64::MAX ==> after.totals[f].kernels == before.totals[f].kernels + count_of(
            intervals,
            |x: StepInterval| x.family == family_at(f),
        )
    } by {
        family_is_counted(intervals, f);
    }
}

// All steps.

/// Whether the places are those of the steps with kernels, in order.
pub open spec fn are_busy_steps(
    places: Seq<int>,
    kernels: Seq<FamilyActivity>,
    join: Join,
    n: int,
) -> bool {
    &&& forall|r: int|
        0 <= r < places.len() ==> 0 <= (#[trigger] places[r]) < n && aggregate_of(
            kernels,
            join,
            places[r],
        ).intervals.len() > 0
    &&& forall|r: int, q: int|
        0 <= r < q < places.len() ==> (#[trigger] places[r]) < (#[trigger] places[q])
    &&& forall|i: int|
        0 <= i < n && (#[trigger] aggregate_of(kernels, join, i)).intervals.len() > 0
            ==> places.contains(i)
}

/// There is one row for each step with kernels, in the order of the steps, and
/// the other steps are counted as empty. The totals are the sums of the rows.
pub proof fn rows_are_of_the_busy_steps(
    kernels: Seq<FamilyActivity>,
    join: Join,
    n: int,
    model: StepsModel,
)
    requires
        0 <= n <= u64::MAX,
        steps_model(kernels, join, n) == Ok::<StepsModel, Seq<char>>(model),
    ensures
        exists|places: Seq<int>|
            {
                &&& #[trigger] are_busy_steps(places, kernels, join, n)
                &&& places.len() == model.rows.len()
                &&& forall|r: int|
                    0 <= r < places.len() ==> row_of(
                        join.steps[#[trigger] places[r]],
                        aggregate_of(kernels, join, places[r]),
                    ) == Ok::<StepRow, Seq<char>>(model.rows[r])
            },
        model.rows.len() + model.totals.empty_steps == n,
        model.totals.kernel_sum_ns == sum_of(model.rows, |x: StepRow| x.kernel_sum_ns as int),
        model.totals.per_step_busy_sum_ns == sum_of(
            model.rows,
            |x: StepRow| x.gpu_busy_union_ns as int,
        ),
        model.totals.gpu_outside_semantic_steps == count_of(
            model.rows,
            |x: StepRow| x.outside_step,
        ),
        model.totals.negative_api_overlap_intervals == count_of(
            model.rows,
            |x: StepRow| x.first_gpu_start_minus_api_end_ns < 0,
        ),
        sum_of(model.rows, |x: StepRow| x.kernel_count as int) <= u64::MAX ==> model.totals.kernels
            == sum_of(model.rows, |x: StepRow| x.kernel_count as int),
        sum_of(model.rows, |x: StepRow| x.graph_kernel_count as int) <= u64::MAX
            ==> model.totals.graph_kernels == sum_of(
            model.rows,
            |x: StepRow| x.graph_kernel_count as int,
        ),
        sum_of(model.rows, |x: StepRow| x.ordinary_kernel_count as int) <= u64::MAX
            ==> model.totals.ordinary_kernels == sum_of(
            model.rows,
            |x: StepRow| x.ordinary_kernel_count as int,
        ),
    decreases n,
{
    if n == 0 {
        let places = Seq::<int>::empty();
        assert(are_busy_steps(places, kernels, join, 0));
    } else {
        let before = steps_model(kernels, join, n - 1)->Ok_0;
        rows_are_of_the_busy_steps(kernels, join, n - 1, before);
        let a = aggregate_of(kernels, join, n - 1);
        let old_places = choose|places: Seq<int>|
            {
                &&& #[trigger] are_busy_steps(places, kernels, join, n - 1)
                &&& places.len() == before.rows.len()
                &&& forall|r: int|
                    0 <= r < places.len() ==> row_of(
                        join.steps[#[trigger] places[r]],
                        aggregate_of(kernels, join, places[r]),
                    ) == Ok::<StepRow, Seq<char>>(before.rows[r])
            };
        counts_fit(before.rows, |x: StepRow| x.outside_step);
        counts_fit(before.rows, |x: StepRow| x.first_gpu_start_minus_api_end_ns < 0);
        if a.intervals.len() == 0 {
            assert forall|i: int|
                0 <= i < n && (#[trigger] aggregate_of(kernels, join, i)).intervals.len()
                    > 0 implies old_places.contains(i) by {
                assert(i < n - 1);
            }
            assert(are_busy_steps(old_places, kernels, join, n));
        } else {
            let row = model.rows.last();
            assert(model.rows == before.rows.push(row));
            let places = old_places.push(n - 1);
            assert forall|i: int|
                0 <= i < n && (#[trigger] aggregate_of(kernels, join, i)).intervals.len()
                    > 0 implies places.contains(i) by {
                if i < n - 1 {
                    let r = choose|r: int| 0 <= r < old_places.len() && old_places[r] == i;
                    assert(places[r] == i);
                } else {
                    assert(places[old_places.len() as int] == i);
                }
            }
            assert(are_busy_steps(places, kernels, join, n));
            assert forall|r: int| 0 <= r < places.len() implies row_of(
                join.steps[#[trigger] places[r]],
                aggregate_of(kernels, join, places[r]),
            ) == Ok::<StepRow, Seq<char>>(model.rows[r]) by {
                if r < old_places.len() {
                    assert(places[r] == old_places[r]);
                }
            }
            assert(model.rows.drop_last() =~= before.rows);
        }
    }
}

// The capture.

proof fn misplaced_are_counted(kernels: Seq<FamilyActivity>, join: Join, reason: Placement)
    ensures
        misplaced(kernels, join, reason) == count_of(
            kernels,
            |k: FamilyActivity| placement(k, join) == reason,
        ),
    decreases kernels.len(),
{
    if kernels.len() > 0 {
        misplaced_are_counted(kernels.drop_last(), join, reason);
    }
}

/// The instants at which a kernel that belongs to a step ran.
pub open spec fn placed_instants(kernels: Seq<FamilyActivity>, join: Join) -> Set<int> {
    Set::new(
        |t: int|
            exists|n: int|
                0 <= n < kernels.len() && placement(#[trigger] kernels[n], join) is Placed
                    && placement(kernels[n], join)->interval.start_ns <= t < placement(
                    kernels[n],
                    join,
                )->interval.end_ns,
    )
}

proof fn spans_cover(kernels: Seq<FamilyActivity>, join: Join, t: int)
    ensures
        covered(ints(placed_spans(kernels, join))).contains(t) <==> placed_instants(
            kernels,
            join,
        ).contains(t),
    decreases kernels.len(),
{
    let spans = ints(placed_spans(kernels, join));
    if kernels.len() > 0 {
        let front = kernels.drop_last();
        let before = ints(placed_spans(front, join));
        spans_cover(front, join, t);
        let last = kernels.len() - 1;
        assert(kernels[last] == kernels.last());
        if covered(spans).contains(t) {
            let i = choose|i: int| 0 <= i < spans.len() && (#[trigger] spans[i]).0 <= t < spans[i].1;
            if i < before.len() {
                assert(before[i] == spans[i]);
                assert(covered(before).contains(t));
                let n = choose|n: int|
                    0 <= n < front.len() && placement(#[trigger] front[n], join) is Placed
                        && placement(front[n], join)->interval.start_ns <= t < placement(
                        front[n],
                        join,
                    )->interval.end_ns;
                assert(kernels[n] == front[n]);
            } else {
                assert(placement(kernels[last], join) is Placed);
            }
        }
        if placed_instants(kernels, join).contains(t) {
            let n = choose|n: int|
                0 <= n < kernels.len() && placement(#[trigger] kernels[n], join) is Placed
                    && placement(kernels[n], join)->interval.start_ns <= t < placement(
                    kernels[n],
                    join,
                )->interval.end_ns;
            if n < last {
                assert(front[n] == kernels[n]);
                assert(placed_instants(front, join).contains(t));
                let i = choose|i: int|
                    0 <= i < before.len() && (#[trigger] before[i]).0 <= t < before[i].1;
                assert(spans[i] == before[i]);
            } else {
                let i = before.len() as int;
                assert(spans[i].0 <= t < spans[i].1);
            }
        }
    }
}

proof fn same_kernels(s: Seq<FamilyActivity>, t: Seq<FamilyActivity>, i: int) -> (j: int)
    requires
        s.to_multiset() == t.to_multiset(),
        0 <= i < s.len(),
    ensures
        0 <= j < t.len(),
        t[j] == s[i],
{
    s.to_multiset_ensures();
    t.to_multiset_ensures();
    assert(s.contains(s[i]));
    assert(t.to_multiset().count(s[i]) > 0);
    choose|j: int| 0 <= j < t.len() && t[j] == s[i]
}

/// A capture is reported as it is: the kernels that belong nowhere are counted by
/// reason, and the whole busy time is the number of instants at which one of the
/// others ran. It passes only where every kernel belongs to a step and every step
/// has kernels.
pub proof fn capture_is_accounted_for(
    report: FullStepReport,
    trace: SemanticTrace,
    kernels: Seq<FamilyActivity>,
    calls: Seq<ApiActivity>,
    quality: CuptiQuality,
    clock: ClockMap,
)
    requires
        kernels.len() <= usize::MAX,
        analysis_failure(trace, kernels, calls, quality, clock) is None,
        report_is(report, trace, kernels, calls, quality, clock),
    ensures
        ({
            let join = join_of(trace, calls, clock);
            &&& report.counts.unmatched_correlations == count_of(
                kernels,
                |k: FamilyActivity| placement(k, join) == Placement::Unmatched,
            )
            &&& report.counts.unassigned_kernels == count_of(
                kernels,
                |k: FamilyActivity| placement(k, join) == Placement::Unassigned,
            )
            &&& report.counts.api_pid_mismatches == count_of(
                kernels,
                |k: FamilyActivity| placement(k, join) == Placement::WrongProcess,
            )
            &&& report.counts.invalid_intervals == count_of(
                kernels,
                |k: FamilyActivity| placement(k, join) == Placement::Invalid,
            )
            &&& report.global_busy_union_ns == placed_instants(kernels, join).len()
            &&& clock.end.monotonic_ns - clock.start.monotonic_ns == clock.end.cupti_ns
                - clock.start.cupti_ns + report.clock_offset_drift_ns
            &&& report.accounting_mismatch <==> quality.records_seen != quality.target_records
                + quality.api_records
            &&& report.passed ==> {
                &&& forall|n: int|
                    0 <= n < kernels.len() ==> placement(#[trigger] kernels[n], join) is Placed
                &&& report.rows@.len() == trace.steps@.len()
                &&& forall|r: int|
                    0 <= r < report.rows@.len() ==> !(#[trigger] report.rows@[r]).outside_step
                &&& !report.accounting_mismatch
            }
        }),
{
    let join = join_of(trace, calls, clock);
    let ordered = arranged(kernels);
    arrangement_exists(kernels);
    let steps = trace.steps@.len() as int;
    let model = steps_model(ordered, join, steps)->Ok_0;
    count_by_reason(kernels, ordered, join, Placement::Unmatched);
    count_by_reason(kernels, ordered, join, Placement::Unassigned);
    count_by_reason(kernels, ordered, join, Placement::WrongProcess);
    count_by_reason(kernels, ordered, join, Placement::Invalid);
    assert forall|t: int|
        covered(ints(placed_spans(ordered, join))).contains(t) <==> placed_instants(
            kernels,
            join,
        ).contains(t) by {
        spans_cover(ordered, join, t);
        if placed_instants(kernels, join).contains(t) {
            let n = choose|n: int|
                0 <= n < kernels.len() && placement(#[trigger] kernels[n], join) is Placed
                    && placement(kernels[n], join)->interval.start_ns <= t < placement(
                    kernels[n],
                    join,
                )->interval.end_ns;
            let m = same_kernels(kernels, ordered, n);
            assert(placement(ordered[m], join) is Placed);
        }
        if placed_instants(ordered, join).contains(t) {
            let n = choose|n: int|
                0 <= n < ordered.len() && placement(#[trigger] ordered[n], join) is Placed
                    && placement(ordered[n], join)->interval.start_ns <= t < placement(
                    ordered[n],
                    join,
                )->interval.end_ns;
            let m = same_kernels(ordered, kernels, n);
            assert(placement(kernels[m], join) is Placed);
        }
    }
    assert(covered(ints(placed_spans(ordered, join))) =~= placed_instants(kernels, join));
    rows_are_of_the_busy_steps(ordered, join, steps, model);
    if report.passed {
        let unmatched = |k: FamilyActivity| placement(k, join) == Placement::Unmatched;
        let unassigned = |k: FamilyActivity| placement(k, join) == Placement::Unassigned;
        let elsewhere = |k: FamilyActivity| placement(k, join) == Placement::WrongProcess;
        let invalid = |k: FamilyActivity| placement(k, join) == Placement::Invalid;
        none_is_counted(kernels, unmatched);
        none_is_counted(kernels, unassigned);
        none_is_counted(kernels, elsewhere);
        none_is_counted(kernels, invalid);
        assert forall|n: int| 0 <= n < kernels.len() implies placement(
            #[trigger] kernels[n],
            join,
        ) is Placed by {
            assert(!unmatched(kernels[n]) && !unassigned(kernels[n]) && !elsewhere(kernels[n])
                && !invalid(kernels[n]));
            let m = same_kernels(kernels, ordered, n);
            assert(placement(ordered[m], join) != Placement::OutsideClock);
        }
        let outside = |x: StepRow| x.outside_step;
        none_is_counted(model.rows, outside);
        assert forall|r: int| 0 <= r < report.rows@.len() implies !(
        #[trigger] report.rows@[r]).outside_step by {
            assert(!outside(model.rows[r]));
        }
    }
}

proof fn count_by_reason(
    kernels: Seq<FamilyActivity>,
    ordered: Seq<FamilyActivity>,
    join: Join,
    reason: Placement,
)
    requires
        kernels.len() <= usize::MAX,
        kernels.to_multiset() == ordered.to_multiset(),
    ensures
        misplaced(ordered, join, reason) == count_of(
            kernels,
            |k: FamilyActivity| placement(k, join) == reason,
        ),
        0 <= misplaced(ordered, join, reason) <= u64::MAX,
{
    let p = |k: FamilyActivity| placement(k, join) == reason;
    misplaced_are_counted(ordered, join, reason);
    counts_fit(kernels, p);
    sum_ignores_order(
        kernels,
        ordered,
        |k: FamilyActivity|
            if p(k) {
                1
            } else {
                0
            },
    );
}

} // verus!
