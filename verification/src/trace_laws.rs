//! What holds of every correlated trace.

use crate::correlation::{
    activity_intervals, after_event, after_header, arranged_kernels, arranged_memberships,
    candidate, chosen, count_below, diagnostic_of, has_key, kernel_steps, kernel_time, kind_count,
    latest_end,
    matched_kernel, matching, matching_keeps_kernels, membership_steps, open_position_in_range,
    passed, passed_is_wf, ranged_steps, recent_position_in_range, too_many, traced, unmatched,
    Activity, DiagnosticCode, KernelExecution, Membership,
};
use crate::event::{EventFlags, EventKind, EventRecord};
use crate::intervals::{covered, duration_total, union_is_at_most_span, union_is_at_most_total, union_length};
use crate::order::{arranged, arrangement_ignores_order, sorted, untied, Keyed};
use vstd::prelude::*;

verus! {

/// A cut of a sorted list of indexes is where the indexes reach the bound.
pub(crate) proof fn cut_of_sorted(indexes: Seq<u32>, bound: int)
    requires
        forall|i: int, j: int|
            0 <= i <= j < indexes.len() ==> #[trigger] indexes[i] <= #[trigger] indexes[j],
    ensures
        count_below(indexes, bound) <= indexes.len(),
        forall|i: int| 0 <= i < count_below(indexes, bound) ==> #[trigger] indexes[i] < bound,
        forall|i: int|
            count_below(indexes, bound) <= i < indexes.len() ==> #[trigger] indexes[i] >= bound,
    decreases indexes.len(),
{
    if indexes.len() > 0 {
        let front = indexes.drop_last();
        assert forall|i: int, j: int| 0 <= i <= j < front.len() implies #[trigger] front[i]
            <= #[trigger] front[j] by {
            assert(indexes[i] <= indexes[j]);
        }
        cut_of_sorted(front, bound);
        let last = indexes.last();
        if last < bound {
            assert forall|i: int| 0 <= i < front.len() implies #[trigger] front[i] < bound by {
                assert(indexes[i] <= indexes[indexes.len() - 1]);
            }
            if count_below(front, bound) < front.len() {
                assert(front[count_below(front, bound) as int] >= bound);
            }
        }
        assert forall|i: int| 0 <= i < count_below(indexes, bound) implies #[trigger] indexes[i]
            < bound by {
            if i < front.len() {
                assert(front[i] == indexes[i]);
            }
        }
        assert forall|i: int| count_below(indexes, bound) <= i < indexes.len() implies
            #[trigger] indexes[i] >= bound by {
            if i < front.len() {
                assert(front[i] == indexes[i]);
            }
        }
    }
}

pub(crate) proof fn sorted_memberships_have_sorted_steps(memberships: Seq<Membership>)
    requires
        sorted(memberships),
    ensures
        forall|i: int, j: int|
            0 <= i <= j < memberships.len() ==> #[trigger] membership_steps(memberships)[i]
                <= #[trigger] membership_steps(memberships)[j],
{
    assert forall|i: int, j: int| 0 <= i <= j < memberships.len() implies
        #[trigger] membership_steps(memberships)[i] <= #[trigger] membership_steps(memberships)[j] by {
        assert(memberships[i].before(memberships[j]));
    }
}

pub(crate) proof fn sorted_kernels_have_sorted_steps(kernels: Seq<KernelExecution>)
    requires
        sorted(kernels),
    ensures
        forall|i: int, j: int|
            0 <= i <= j < kernels.len() ==> #[trigger] kernel_steps(kernels)[i]
                <= #[trigger] kernel_steps(kernels)[j],
{
    assert forall|i: int, j: int| 0 <= i <= j < kernels.len() implies #[trigger] kernel_steps(
        kernels,
    )[i] <= #[trigger] kernel_steps(kernels)[j] by {
        assert(kernels[i].before(kernels[j]));
    }
}

/// The range of a step holds exactly the memberships of the step, whatever
/// request they belong to.
pub proof fn membership_range_is_exact(events: Seq<EventRecord>, i: int)
    requires
        !too_many(events),
        0 <= i < traced(events).steps.len(),
    ensures
        ({
            let trace = traced(events);
            let step = trace.steps[i];
            let end = step.membership_start + step.membership_count;
            &&& end <= trace.memberships.len()
            &&& forall|j: int|
                0 <= j < trace.memberships.len() ==> ((#[trigger] trace.memberships[j]).step_index
                    == i <==> step.membership_start <= j < end)
        }),
{
    passed_is_wf(events);
    let p = passed(events);
    arranged_memberships(events);
    let memberships = arranged(p.memberships);
    memberships.to_multiset_ensures();
    p.memberships.to_multiset_ensures();
    sorted_memberships_have_sorted_steps(memberships);
    let indexes = membership_steps(memberships);
    cut_of_sorted(indexes, i);
    cut_of_sorted(indexes, i + 1);
    let start = count_below(indexes, i);
    let end = count_below(indexes, i + 1);
    if start > end {
        assert(indexes[end as int] >= i + 1);
        assert(indexes[end as int] < i);
    }
    assert forall|j: int| 0 <= j < memberships.len() implies ((
    #[trigger] memberships[j]).step_index == i <==> start <= j < end) by {
        assert(indexes[j] == memberships[j].step_index);
    }
}

/// The range of a step holds exactly the kernels of the step.
pub proof fn kernel_range_is_exact(events: Seq<EventRecord>, i: int)
    requires
        !too_many(events),
        0 <= i < traced(events).steps.len(),
    ensures
        ({
            let trace = traced(events);
            let step = trace.steps[i];
            let end = step.kernel_start + step.kernel_count;
            &&& end <= trace.kernels.len()
            &&& forall|j: int|
                0 <= j < trace.kernels.len() ==> ((#[trigger] trace.kernels[j]).step_index == i
                    <==> step.kernel_start <= j < end)
        }),
{
    passed_is_wf(events);
    let p = passed(events);
    arranged_kernels(events);
    let launched = matching(p.kernels, arranged(p.activities)).0;
    let kernels = arranged(launched);
    kernels.to_multiset_ensures();
    launched.to_multiset_ensures();
    matching_keeps_kernels(p.kernels, arranged(p.activities));
    sorted_kernels_have_sorted_steps(kernels);
    let indexes = kernel_steps(kernels);
    cut_of_sorted(indexes, i);
    cut_of_sorted(indexes, i + 1);
    let start = count_below(indexes, i);
    let end = count_below(indexes, i + 1);
    if start > end {
        assert(indexes[end as int] >= i + 1);
        assert(indexes[end as int] < i);
    }
    assert forall|j: int| 0 <= j < kernels.len() implies ((#[trigger] kernels[j]).step_index == i
        <==> start <= j < end) by {
        assert(indexes[j] == kernels[j].step_index);
    }
}

/// The activity that each kernel takes, in turn.
pub open spec fn choices(
    kernels: Seq<KernelExecution>,
    activities: Seq<Activity>,
) -> Seq<Option<int>>
    decreases kernels.len(),
{
    if kernels.len() == 0 {
        Seq::empty()
    } else {
        let front = kernels.drop_last();
        choices(front, activities).push(chosen(matching(front, activities).1, kernels.last()))
    }
}

/// Matching only ever sets the mark of an activity.
proof fn matching_only_marks(kernels: Seq<KernelExecution>, activities: Seq<Activity>)
    ensures
        matching(kernels, activities).1.len() == activities.len(),
        forall|i: int|
            0 <= i < activities.len() ==> {
                let left = #[trigger] matching(kernels, activities).1[i];
                left == Activity { matched: left.matched, ..activities[i] }
            },
        choices(kernels, activities).len() == kernels.len(),
        forall|n: int|
            0 <= n < kernels.len() ==> (#[trigger] choices(kernels, activities)[n] matches Some(i)
                ==> 0 <= i < activities.len() && matching(kernels, activities).1[i].matched),
    decreases kernels.len(),
{
    if kernels.len() > 0 {
        let front = kernels.drop_last();
        matching_only_marks(front, activities);
        let left = matching(front, activities).1;
        let k = kernels.last();
        match chosen(left, k) {
            Some(i) => {
                assert(candidate(left, k, i));
            },
            None => {},
        }
        assert forall|n: int| 0 <= n < kernels.len() implies (#[trigger] choices(
            kernels,
            activities,
        )[n] matches Some(i) ==> 0 <= i < activities.len() && matching(
            kernels,
            activities,
        ).1[i].matched) by {
            if n < front.len() {
                assert(choices(kernels, activities)[n] == choices(front, activities)[n]);
            }
        }
    }
}

/// No GPU activity is attributed to two launches.
pub proof fn no_activity_serves_two_launches(
    kernels: Seq<KernelExecution>,
    activities: Seq<Activity>,
    m: int,
    n: int,
)
    requires
        0 <= m < n < kernels.len(),
        choices(kernels, activities)[m] is Some,
        choices(kernels, activities)[n] is Some,
    ensures
        choices(kernels, activities)[m] != choices(kernels, activities)[n],
    decreases kernels.len(),
{
    let front = kernels.drop_last();
    matching_only_marks(front, activities);
    if n == kernels.len() - 1 {
        let left = matching(front, activities).1;
        let i = chosen(left, kernels.last())->0;
        assert(candidate(left, kernels.last(), i));
        assert(choices(kernels, activities)[m] == choices(front, activities)[m]);
        assert(choices(front, activities)[m] matches Some(j) ==> left[j].matched);
    } else {
        assert(choices(kernels, activities)[m] == choices(front, activities)[m]);
        assert(choices(kernels, activities)[n] == choices(front, activities)[n]);
        no_activity_serves_two_launches(front, activities, m, n);
    }
}

/// A launch takes only an activity with its own process, correlation id and
/// stream, and is then timed by it; a launch that takes none is left as it is.
pub proof fn launch_takes_activity_of_its_key(
    kernels: Seq<KernelExecution>,
    activities: Seq<Activity>,
    n: int,
)
    requires
        0 <= n < kernels.len(),
    ensures
        matching(kernels, activities).0.len() == kernels.len(),
        choices(kernels, activities).len() == kernels.len(),
        match choices(kernels, activities)[n] {
            Some(i) => {
                &&& 0 <= i < activities.len()
                &&& has_key(
                    activities[i],
                    kernels[n].pid,
                    kernels[n].launch.correlation_id,
                    kernels[n].launch.stream,
                )
                &&& matching(kernels, activities).0[n] == matched_kernel(kernels[n], activities[i])
            },
            None => matching(kernels, activities).0[n] == kernels[n],
        },
    decreases kernels.len(),
{
    let front = kernels.drop_last();
    matching_keeps_kernels(front, activities);
    matching_only_marks(front, activities);
    if n < kernels.len() - 1 {
        launch_takes_activity_of_its_key(front, activities, n);
        assert(front[n] == kernels[n]);
        assert(choices(kernels, activities)[n] == choices(front, activities)[n]);
    } else {
        let left = matching(front, activities).1;
        match chosen(left, kernels.last()) {
            Some(i) => {
                assert(candidate(left, kernels.last(), i));
                assert(left[i] == Activity { matched: left[i].matched, ..activities[i] });
            },
            None => {},
        }
    }
}

/// Kernels of one step as they are timed.
pub open spec fn kernels_of_step(events: Seq<EventRecord>, i: int) -> Seq<KernelExecution> {
    let trace = traced(events);
    trace.kernels.subrange(
        trace.steps[i].kernel_start as int,
        trace.steps[i].kernel_start + trace.steps[i].kernel_count,
    )
}

proof fn intervals_of_sorted(own: Seq<KernelExecution>)
    requires
        sorted(own),
        forall|i: int, j: int|
            0 <= i < own.len() && 0 <= j < own.len() ==> (#[trigger] own[i]).step_index == (
            #[trigger] own[j]).step_index,
    ensures
        ({
            let s = activity_intervals(own);
            &&& s.len() <= own.len()
            &&& 0 <= latest_end(s) <= u64::MAX
            &&& s.len() > 0 ==> 0 <= s[0].0
            &&& forall|i: int|
                0 <= i < s.len() ==> s[0].0 <= (#[trigger] s[i]).0 && s[i].0 <= s[i].1 && s[i].1
                    <= latest_end(s)
            &&& forall|i: int|
                0 <= i < s.len() ==> exists|j: int|
                    0 <= j < own.len() && (#[trigger] own[j]).has_activity()
                        && own[j].gpu_start_timestamp_ns == (#[trigger] s[i]).0
        }),
    decreases own.len(),
{
    if own.len() > 0 {
        let front = own.drop_last();
        let last = own.last();
        assert(sorted(front)) by {
            assert forall|i: int, j: int| 0 <= i <= j < front.len() implies
                #[trigger] front[i].before(#[trigger] front[j]) by {
                assert(own[i].before(own[j]));
            }
        }
        assert forall|i: int, j: int| 0 <= i < front.len() && 0 <= j < front.len() implies (
        #[trigger] front[i]).step_index == (#[trigger] front[j]).step_index by {
            assert(own[i].step_index == own[j].step_index);
        }
        intervals_of_sorted(front);
        let f = activity_intervals(front);
        let s = activity_intervals(own);
        if last.has_activity() {
            assert(s.drop_last() =~= f);
            assert forall|i: int| 0 <= i < s.len() implies s[0].0 <= (#[trigger] s[i]).0 && s[i].0
                <= s[i].1 && s[i].1 <= latest_end(s) by {
                if i < f.len() {
                    assert(f[i].0 <= f[i].1);
                } else if f.len() > 0 {
                    assert(f[0].0 <= f[0].1);
                    let j = choose|j: int|
                        0 <= j < front.len() && (#[trigger] front[j]).has_activity()
                            && front[j].gpu_start_timestamp_ns == f[0].0;
                    assert(own[j].before(own[own.len() - 1]));
                    assert(own[j].step_index == own[own.len() - 1].step_index);
                }
            }
        }
        assert forall|i: int| 0 <= i < s.len() implies exists|j: int|
            0 <= j < own.len() && (#[trigger] own[j]).has_activity()
                && own[j].gpu_start_timestamp_ns == (#[trigger] s[i]).0 by {
            if i < f.len() {
                let j = choose|j: int|
                    0 <= j < front.len() && (#[trigger] front[j]).has_activity()
                        && front[j].gpu_start_timestamp_ns == f[i].0;
                assert(own[j] == front[j]);
            } else {
                assert(own[own.len() - 1].has_activity());
            }
        }
    }
}

/// Reading the events sets no GPU time.
proof fn untimed_steps(events: Seq<EventRecord>)
    requires
        kind_count(events, EventKind::EngineStepBegin) <= u32::MAX,
    ensures
        forall|i: int|
            0 <= i < passed(events).steps.len() ==> (#[trigger] passed(
                events,
            ).steps[i]).gpu_busy_time_ns == 0 && passed(events).steps[i].gpu_span_ns == 0,
    decreases events.len(),
{
    if events.len() > 0 {
        untimed_steps(events.drop_last());
        passed_is_wf(events.drop_last());
        let e = events.last();
        let p = passed(events.drop_last());
        let q = after_header(p, e);
        assert(q.steps == p.steps && q.open == p.open);
        open_position_in_range(q.open, e.header.pid, e.engine_step_end_data().step_id);
        recent_position_in_range(q.open, e.header.pid);
    }
}

/// The busy time of a step is the length of the union of its kernel
/// intervals: never more than the span of the step, nor than the sum of the
/// lengths of the intervals.
pub proof fn busy_time_is_bounded(events: Seq<EventRecord>, i: int)
    requires
        !too_many(events),
        0 <= i < traced(events).steps.len(),
    ensures
        ({
            let step = traced(events).steps[i];
            let intervals = activity_intervals(kernels_of_step(events, i));
            &&& step.gpu_busy_time_ns == union_length(intervals)
            &&& step.gpu_busy_time_ns <= step.gpu_span_ns
            &&& step.gpu_busy_time_ns <= duration_total(intervals)
            &&& intervals.len() == 0 ==> step.gpu_span_ns == 0
            &&& intervals.len() > 0 ==> step.gpu_span_ns == latest_end(intervals) - intervals[0].0
            &&& forall|n: int|
                0 <= n < intervals.len() ==> intervals[0].0 <= (#[trigger] intervals[n]).0
                    && intervals[n].1 <= latest_end(intervals)
            &&& step.kernel_time_sum_ns == kernel_time(kernels_of_step(events, i))
            &&& step.unmatched_launch_count == unmatched(kernels_of_step(events, i))
        }),
{
    kernel_range_is_exact(events, i);
    passed_is_wf(events);
    arranged_kernels(events);
    untimed_steps(events);
    let p = passed(events);
    let trace = traced(events);
    let own = kernels_of_step(events, i);
    let start = trace.steps[i].kernel_start as int;
    let launched = matching(p.kernels, arranged(p.activities)).0;
    let kernels = trace.kernels;
    let indexes = kernel_steps(kernels);
    kernels.to_multiset_ensures();
    launched.to_multiset_ensures();
    matching_keeps_kernels(p.kernels, arranged(p.activities));
    sorted_kernels_have_sorted_steps(kernels);
    cut_of_sorted(indexes, i);
    cut_of_sorted(indexes, i + 1);
    if count_below(indexes, i) > count_below(indexes, i + 1) {
        assert(indexes[count_below(indexes, i + 1) as int] >= i + 1);
        assert(indexes[count_below(indexes, i + 1) as int] < i);
    }
    assert(start == count_below(indexes, i));
    assert(start + trace.steps[i].kernel_count == count_below(indexes, i + 1));
    assert(own == kernels.subrange(
        count_below(indexes, i) as int,
        count_below(indexes, i + 1) as int,
    ));
    assert(sorted(own)) by {
        assert forall|x: int, y: int| 0 <= x <= y < own.len() implies #[trigger] own[x].before(
            #[trigger] own[y],
        ) by {
            assert(kernels[start + x].before(kernels[start + y]));
        }
    }
    assert forall|x: int, y: int| 0 <= x < own.len() && 0 <= y < own.len() implies (
    #[trigger] own[x]).step_index == (#[trigger] own[y]).step_index by {
        assert(kernels[start + x].step_index == i);
        assert(kernels[start + y].step_index == i);
    }
    intervals_of_sorted(own);
    unmatched_fit(own);
    let s = activity_intervals(own);
    union_is_at_most_total(s);
    if s.len() == 0 {
        assert(s =~= Seq::<(int, int)>::empty());
        assert(covered(s) =~= Set::<int>::empty());
        let ranged = ranged_steps(p.steps, arranged(p.memberships));
        assert(ranged[i].gpu_busy_time_ns == p.steps[i].gpu_busy_time_ns);
        assert(ranged[i].gpu_span_ns == p.steps[i].gpu_span_ns);
    } else {
        assert(s[0].0 <= s[0].1);
        union_is_at_most_span(s, s[0].0, latest_end(s));
    }
}

proof fn unmatched_fit(own: Seq<KernelExecution>)
    ensures
        unmatched(own) <= own.len(),
    decreases own.len(),
{
    if own.len() > 0 {
        unmatched_fit(own.drop_last());
    }
}

/// Diagnostics are never taken back while the events are read.
proof fn diagnostics_only_grow(events: Seq<EventRecord>, n: int)
    requires
        0 <= n <= events.len(),
    ensures
        passed(events.take(n)).diagnostics.is_prefix_of(passed(events).diagnostics),
    decreases events.len(),
{
    if n == events.len() {
        assert(events.take(n) =~= events);
    } else {
        diagnostics_only_grow(events.drop_last(), n);
        assert(events.drop_last().take(n) =~= events.take(n));
        let p = passed(events.drop_last());
        let q = after_event(p, events.last());
        assert(p.diagnostics.is_prefix_of(q.diagnostics));
    }
}

/// A trace says so wherever records were lost before an event.
pub proof fn every_loss_is_reported(events: Seq<EventRecord>, n: int)
    requires
        0 <= n < events.len(),
        events[n].header.flagged(EventFlags::DROPPED_BEFORE),
    ensures
        traced(events).diagnostics.contains(
            diagnostic_of(DiagnosticCode::TelemetryLoss, events[n], 0),
        ),
{
    let d = diagnostic_of(DiagnosticCode::TelemetryLoss, events[n], 0);
    let front = events.take(n + 1);
    let p = passed(front.drop_last());
    let h = after_header(p, front.last());
    assert(h.diagnostics.last() == d);
    let q = passed(front);
    assert(h.diagnostics.is_prefix_of(q.diagnostics));
    let at = h.diagnostics.len() - 1;
    assert(q.diagnostics[at] == d);
    diagnostics_only_grow(events, n + 1);
    let all = passed(events).diagnostics;
    assert(all[at] == d);
    assert(traced(events).diagnostics[at] == d);
}

/// Events whose places in time differ make one trace, in whatever order they
/// arrive.
pub proof fn trace_ignores_arrival_order(a: Seq<EventRecord>, b: Seq<EventRecord>)
    requires
        untied(a),
        a.to_multiset() == b.to_multiset(),
    ensures
        traced(arranged(a)) == traced(arranged(b)),
{
    arrangement_ignores_order(a, b);
}

} // verus!
