//! What the times of a step mean, in terms of the kernels that it launched.

use crate::correlation::{
    activity_intervals, kernel_end, kernel_time, latest_end, too_many, traced, unmatched,
    KernelExecution, KernelFlags,
};
use crate::compact::Tables;
use crate::event::EventRecord;
use crate::intervals::covered;
use crate::report::CorrelatedStep;
use crate::reporting::{kernel_reports, step_reports};
use crate::sums::{count_of, counts_fit, sum_of};
use crate::trace_laws::{busy_time_is_bounded, kernel_range_is_exact, kernels_of_step};
use vstd::prelude::*;

verus! {

/// Whether the kernel ran on the device at the instant.
pub open spec fn runs_at(k: KernelExecution, t: int) -> bool {
    &&& k.flags & KernelFlags::HAS_ACTIVITY != 0
    &&& k.gpu_start_timestamp_ns <= t < k.gpu_start_timestamp_ns + k.gpu_duration_ns
    &&& t < u64::MAX
}

/// The instants at which one of the kernels ran on the device.
pub open spec fn device_instants(kernels: Seq<KernelExecution>) -> Set<int> {
    Set::new(|t: int| exists|j: int| 0 <= j < kernels.len() && runs_at(#[trigger] kernels[j], t))
}

spec fn is_interval_of(x: (int, int), k: KernelExecution) -> bool {
    k.has_activity() && x.0 == k.gpu_start_timestamp_ns && x.1 == kernel_end(k)
}

/// The kernel whose interval stands at the place.
proof fn kernel_of_interval(kernels: Seq<KernelExecution>, n: int) -> (j: int)
    requires
        0 <= n < activity_intervals(kernels).len(),
    ensures
        0 <= j < kernels.len(),
        is_interval_of(activity_intervals(kernels)[n], kernels[j]),
    decreases kernels.len(),
{
    let front = kernels.drop_last();
    let s = activity_intervals(front);
    let last = kernels.len() - 1;
    assert(kernels[last] == kernels.last());
    if n < s.len() {
        let j = kernel_of_interval(front, n);
        assert(kernels[j] == front[j]);
        assert(activity_intervals(kernels)[n] == s[n]);
        j
    } else {
        last
    }
}

/// The place of the kernel's interval.
proof fn interval_of_kernel(kernels: Seq<KernelExecution>, j: int) -> (n: int)
    requires
        0 <= j < kernels.len(),
        kernels[j].has_activity(),
    ensures
        0 <= n < activity_intervals(kernels).len(),
        is_interval_of(activity_intervals(kernels)[n], kernels[j]),
    decreases kernels.len(),
{
    let front = kernels.drop_last();
    let s = activity_intervals(front);
    let last = kernels.len() - 1;
    assert(kernels[last] == kernels.last());
    if j < last {
        assert(front[j] == kernels[j]);
        let n = interval_of_kernel(front, j);
        assert(activity_intervals(kernels)[n] == s[n]);
        n
    } else {
        s.len() as int
    }
}

proof fn device_is_covered(own: Seq<KernelExecution>)
    ensures
        covered(activity_intervals(own)) == device_instants(own),
{
    let s = activity_intervals(own);
    assert forall|t: int| covered(s).contains(t) <==> device_instants(own).contains(t) by {
        if covered(s).contains(t) {
            let n = choose|n: int| 0 <= n < s.len() && (#[trigger] s[n]).0 <= t < s[n].1;
            let j = kernel_of_interval(own, n);
            assert(runs_at(own[j], t));
        }
        if device_instants(own).contains(t) {
            let j = choose|j: int| 0 <= j < own.len() && runs_at(#[trigger] own[j], t);
            let n = interval_of_kernel(own, j);
            assert(s[n].0 <= t < s[n].1);
        }
    }
    assert(covered(s) =~= device_instants(own));
}

proof fn device_is_spanned(own: Seq<KernelExecution>, span: u64)
    requires
        activity_intervals(own).len() > 0,
        span == latest_end(activity_intervals(own)) - activity_intervals(own)[0].0,
        forall|n: int|
            0 <= n < activity_intervals(own).len() ==> activity_intervals(own)[0].0 <= (
            #[trigger] activity_intervals(own)[n]).0 && activity_intervals(own)[n].1 <= latest_end(
                activity_intervals(own),
            ),
    ensures
        exists|e: int, l: int| #[trigger] spans_device(own, e, l, span),
        unmatched(own) < own.len(),
{
    let s = activity_intervals(own);
    assert forall|n: int| 0 <= n < s.len() implies (#[trigger] s[n]).1 >= 0 by {
        let j = kernel_of_interval(own, n);
    }
    latest_is_reached(s);
    let m = choose|m: int| 0 <= m < s.len() && (#[trigger] s[m]).1 == latest_end(s);
    let e = kernel_of_interval(own, 0);
    let l = kernel_of_interval(own, m);
    assert forall|j: int| 0 <= j < own.len() && (#[trigger] own[j]).has_activity() implies
        own[e].gpu_start_timestamp_ns <= own[j].gpu_start_timestamp_ns && end_of(own[j]) <= end_of(
        own[l],
    ) by {
        let n = interval_of_kernel(own, j);
        assert(s[0].0 <= s[n].0 && s[n].1 <= latest_end(s));
    }
    assert(spans_device(own, e, l, span));
    some_with(own, e);
}

proof fn latest_is_reached(s: Seq<(int, int)>)
    requires
        s.len() > 0,
        forall|i: int| 0 <= i < s.len() ==> (#[trigger] s[i]).1 >= 0,
    ensures
        exists|n: int| 0 <= n < s.len() && (#[trigger] s[n]).1 == latest_end(s),
    decreases s.len(),
{
    let front = s.drop_last();
    let last = s.len() - 1;
    assert(s[last] == s.last());
    assert(s[last].1 >= 0);
    if front.len() > 0 {
        assert forall|i: int| 0 <= i < front.len() implies (#[trigger] front[i]).1 >= 0 by {
            assert(s[i] == front[i]);
        }
        latest_is_reached(front);
        let n = choose|n: int| 0 <= n < front.len() && (#[trigger] front[n]).1 == latest_end(front);
        assert(s[n] == front[n]);
    } else {
        assert(latest_end(front) == 0);
    }
}

proof fn time_is_sum(kernels: Seq<KernelExecution>)
    ensures
        sum_of(kernels, |k: KernelExecution| k.gpu_duration_ns as int) >= 0,
        sum_of(kernels, |k: KernelExecution| k.gpu_duration_ns as int) <= u64::MAX ==> kernel_time(
            kernels,
        ) == sum_of(kernels, |k: KernelExecution| k.gpu_duration_ns as int),
    decreases kernels.len(),
{
    if kernels.len() > 0 {
        time_is_sum(kernels.drop_last());
    }
}

proof fn unmatched_are_counted(kernels: Seq<KernelExecution>)
    ensures
        unmatched(kernels) == count_of(
            kernels,
            |k: KernelExecution| k.flags & KernelFlags::HAS_ACTIVITY == 0,
        ),
    decreases kernels.len(),
{
    if kernels.len() > 0 {
        unmatched_are_counted(kernels.drop_last());
    }
}

/// The times of a step are those of its kernels: it is busy as many nanoseconds
/// as there are instants at which one of them ran on the device, its span goes
/// from the first start to the latest end, the sum counts every kernel in full,
/// and the kernels that never ran are counted.
pub proof fn step_times_its_kernels(events: Seq<EventRecord>, i: int)
    requires
        !too_many(events),
        0 <= i < traced(events).steps.len(),
    ensures
        ({
            let step = traced(events).steps[i];
            let own = kernels_of_step(events, i);
            &&& step.gpu_busy_time_ns == device_instants(own).len()
            &&& step.kernel_count == own.len()
            &&& step.unmatched_launch_count == count_of(
                own,
                |k: KernelExecution| k.flags & KernelFlags::HAS_ACTIVITY == 0,
            )
            &&& sum_of(own, |k: KernelExecution| k.gpu_duration_ns as int) <= u64::MAX
                ==> step.kernel_time_sum_ns == sum_of(
                own,
                |k: KernelExecution| k.gpu_duration_ns as int,
            )
            &&& step.unmatched_launch_count == own.len() ==> step.gpu_span_ns == 0
            &&& step.unmatched_launch_count < own.len() ==> exists|e: int, l: int|
                #[trigger] spans_device(own, e, l, step.gpu_span_ns)
        }),
{
    let own = kernels_of_step(events, i);
    busy_time_is_bounded(events, i);
    kernel_range_is_exact(events, i);
    time_is_sum(own);
    unmatched_are_counted(own);
    device_is_covered(own);
    if activity_intervals(own).len() == 0 {
        all_without(own);
    } else {
        device_is_spanned(own, traced(events).steps[i].gpu_span_ns);
    }
}

/// Whether the span goes from the start of the one kernel, which none that ran
/// precedes, to the end of the other, which none that ran exceeds.
pub open spec fn spans_device(own: Seq<KernelExecution>, e: int, l: int, span: u64) -> bool {
    &&& 0 <= e < own.len() && own[e].has_activity()
    &&& 0 <= l < own.len() && own[l].has_activity()
    &&& forall|j: int|
        0 <= j < own.len() && (#[trigger] own[j]).has_activity() ==> own[e].gpu_start_timestamp_ns
            <= own[j].gpu_start_timestamp_ns && end_of(own[j]) <= end_of(own[l])
    &&& own[e].gpu_start_timestamp_ns + span == end_of(own[l])
}

/// When the kernel ended, or the last instant where that is later.
pub open spec fn end_of(k: KernelExecution) -> int {
    if k.gpu_start_timestamp_ns + k.gpu_duration_ns < u64::MAX {
        k.gpu_start_timestamp_ns + k.gpu_duration_ns
    } else {
        u64::MAX as int
    }
}

proof fn all_without(own: Seq<KernelExecution>)
    requires
        activity_intervals(own).len() == 0,
    ensures
        unmatched(own) == own.len(),
    decreases own.len(),
{
    if own.len() > 0 {
        all_without(own.drop_last());
    }
}

proof fn some_with(own: Seq<KernelExecution>, e: int)
    requires
        0 <= e < own.len(),
        own[e].has_activity(),
    ensures
        unmatched(own) < own.len(),
    decreases own.len(),
{
    let front = own.drop_last();
    if e < front.len() {
        assert(front[e] == own[e]);
        some_with(front, e);
    } else {
        unmatched_are_counted(front);
        counts_fit(front, |k: KernelExecution| k.flags & KernelFlags::HAS_ACTIVITY == 0);
    }
}

// The report.

/// The instants at which one of the reported kernels ran on the device.
pub open spec fn reported_instants(kernels: Seq<crate::report::KernelExecution>) -> Set<int> {
    Set::new(
        |t: int|
            exists|j: int|
                {
                    &&& 0 <= j < kernels.len()
                    &&& (#[trigger] kernels[j]).gpu_start_timestamp_ns is Some
                    &&& kernels[j].gpu_duration_ns is Some
                    &&& kernels[j].gpu_start_timestamp_ns->0 <= t
                        < kernels[j].gpu_start_timestamp_ns->0 + kernels[j].gpu_duration_ns->0
                    &&& t < u64::MAX
                },
    )
}

/// A reported step agrees with the kernels that it lists: as many launches as
/// kernels, as many unmatched as have no time on the device, and busy at exactly
/// the instants at which one of them ran. Its wall time leads from its begin to
/// its end.
pub proof fn reported_step_agrees_with_its_kernels(
    r: CorrelatedStep,
    events: Seq<EventRecord>,
    n: int,
    t: Tables,
    ids: Seq<Seq<char>>,
)
    requires
        !too_many(events),
        0 <= n < traced(events).steps.len(),
        step_reports(r, traced(events), n, t, ids),
    ensures
        r.cuda_launch_count == r.kernels@.len(),
        r.gpu_busy_time_ns == reported_instants(r.kernels@).len(),
        r.unmatched_cuda_launches == count_of(
            r.kernels@,
            |k: crate::report::KernelExecution| k.gpu_start_timestamp_ns is None,
        ),
        r.gpu_busy_time_ns <= r.gpu_span_ns,
        r.wall_time_ns matches Some(wall) ==> r.end_timestamp_ns is Some && r.begin_timestamp_ns
            + wall == r.end_timestamp_ns->0,
        r.wall_time_ns is None ==> r.end_timestamp_ns is None || r.end_timestamp_ns->0
            < r.begin_timestamp_ns,
{
    let trace = traced(events);
    let own = kernels_of_step(events, n);
    step_times_its_kernels(events, n);
    busy_time_is_bounded(events, n);
    let k = r.kernels@;
    assert forall|j: int| 0 <= j < own.len() implies kernel_reports(#[trigger] k[j], own[j], t, ids) by {}
    assert forall|x: int| device_instants(own).contains(x) <==> reported_instants(k).contains(x) by {
        if device_instants(own).contains(x) {
            let j = choose|j: int| 0 <= j < own.len() && runs_at(#[trigger] own[j], x);
            assert(kernel_reports(k[j], own[j], t, ids));
            assert(k[j].gpu_start_timestamp_ns is Some);
        }
        if reported_instants(k).contains(x) {
            let j = choose|j: int|
                {
                    &&& 0 <= j < k.len()
                    &&& (#[trigger] k[j]).gpu_start_timestamp_ns is Some
                    &&& k[j].gpu_duration_ns is Some
                    &&& k[j].gpu_start_timestamp_ns->0 <= x < k[j].gpu_start_timestamp_ns->0
                        + k[j].gpu_duration_ns->0
                    &&& x < u64::MAX
                };
            assert(kernel_reports(k[j], own[j], t, ids));
            assert(runs_at(own[j], x));
        }
    }
    assert(device_instants(own) =~= reported_instants(k));
    same_unmatched(k, own, t, ids);
}

proof fn same_unmatched(
    k: Seq<crate::report::KernelExecution>,
    own: Seq<KernelExecution>,
    t: Tables,
    ids: Seq<Seq<char>>,
)
    requires
        k.len() == own.len(),
        forall|j: int| 0 <= j < own.len() ==> kernel_reports(#[trigger] k[j], own[j], t, ids),
    ensures
        count_of(k, |x: crate::report::KernelExecution| x.gpu_start_timestamp_ns is None)
            == count_of(own, |x: KernelExecution| x.flags & KernelFlags::HAS_ACTIVITY == 0),
    decreases k.len(),
{
    if k.len() > 0 {
        let (a, b) = (k.drop_last(), own.drop_last());
        assert forall|j: int| 0 <= j < b.len() implies kernel_reports(#[trigger] a[j], b[j], t, ids) by {
            assert(kernel_reports(k[j], own[j], t, ids));
        }
        same_unmatched(a, b, t, ids);
        assert(kernel_reports(k[k.len() - 1], own[k.len() - 1], t, ids));
    }
}

} // verus!
