//! What holds of the entries that a correlated trace keeps for its steps.

use crate::correlation::{
    after_begin, after_end, after_event, after_graph_launch, after_header, after_slice,
    arranged_kernels, arranged_memberships, count_below, kernel_steps, kind_count, matching,
    matching_keeps_kernels, membership_steps, open_position, open_position_in_range, passed,
    passed_is_wf, ranged_steps, recent_position, recent_position_in_range, too_many, traced,
    without, KernelExecution, Membership, OpenStep, Pass, StepState, StepSummary, Trace,
};
use crate::event::{EventKind, EventRecord};
use crate::order::{arranged, sorted, Keyed};
use crate::trace_laws::{
    cut_of_sorted, launch_takes_activity_of_its_key, sorted_kernels_have_sorted_steps,
    sorted_memberships_have_sorted_steps,
};
use vstd::prelude::*;

verus! {

/// Whether the step did not end.
pub open spec fn is_open(step: StepSummary) -> bool {
    step.state & StepState::OPEN != 0
}

pub(crate) proof fn state_bits(state: u16)
    ensures
        StepState::OPEN & StepState::OPEN != 0,
        (state & !StepState::OPEN) & StepState::OPEN == 0,
        ((state & !StepState::OPEN) | StepState::CLOCK_REVERSAL) & StepState::OPEN == 0,
        (state | StepState::SLICE_COUNT_MISMATCH) & StepState::OPEN == state & StepState::OPEN,
{
    assert(1u16 & 1u16 == 1u16) by (bit_vector);
    assert((state & !1u16) & 1u16 == 0u16) by (bit_vector);
    assert(((state & !1u16) | 2u16) & 1u16 == 0u16) by (bit_vector);
    assert((state | 4u16) & 1u16 == state & 1u16) by (bit_vector);
}

// While the events are read.

/// Whether an open entry stands for its step.
spec fn stands(steps: Seq<StepSummary>, o: OpenStep) -> bool {
    &&& o.step_index < steps.len()
    &&& steps[o.step_index as int].pid == o.pid
    &&& steps[o.step_index as int].step_id == o.step_id
    &&& is_open(steps[o.step_index as int])
}

/// Whether every open entry stands for a step of its own, and every membership
/// has the id of its step.
pub(crate) closed spec fn rooted(p: Pass) -> bool {
    &&& forall|i: int| 0 <= i < p.open.len() ==> stands(p.steps, #[trigger] p.open[i])
    &&& forall|i: int, j: int|
        0 <= i < j < p.open.len() ==> (#[trigger] p.open[i]).step_index != (
        #[trigger] p.open[j]).step_index
    &&& forall|i: int|
        0 <= i < p.memberships.len() ==> named(p.steps, #[trigger] p.memberships[i])
}

spec fn named(steps: Seq<StepSummary>, m: Membership) -> bool {
    m.step_index < steps.len() && steps[m.step_index as int].step_id == m.slice.step_id
}

/// The steps of the open entries are those that did not end.
pub(crate) proof fn open_entries_stand(p: Pass)
    requires
        rooted(p),
    ensures
        forall|i: int|
            0 <= i < p.open.len() ==> (#[trigger] p.open[i]).step_index < p.steps.len() && is_open(
                p.steps[p.open[i].step_index as int],
            ),
{
    assert forall|i: int| 0 <= i < p.open.len() implies (#[trigger] p.open[i]).step_index
        < p.steps.len() && is_open(p.steps[p.open[i].step_index as int]) by {
        assert(stands(p.steps, p.open[i]));
    }
}

proof fn removal_keeps_entries(open: Seq<OpenStep>, position: int)
    requires
        0 <= position < open.len(),
    ensures
        without(open, position).len() == open.len() - 1,
        forall|j: int|
            0 <= j < open.len() - 1 ==> #[trigger] without(open, position)[j] == if j == position {
                open[open.len() - 1]
            } else {
                open[j]
            },
{
}

proof fn begin_keeps_roots(p: Pass, e: EventRecord)
    requires
        rooted(p),
        e.header.kind == EventKind::EngineStepBegin,
        p.steps.len() < u32::MAX,
    ensures
        rooted(after_begin(p, e)),
{
    let step_id = e.engine_step_begin_data().step_id;
    let q = after_begin(p, e);
    open_position_in_range(p.open, e.header.pid, step_id);
    if let Some(i) = open_position(p.open, e.header.pid, step_id) {
        removal_keeps_entries(p.open, i);
    }
    state_bits(0);
    assert forall|i: int| 0 <= i < q.open.len() implies stands(q.steps, #[trigger] q.open[i]) by {
        if i < q.open.len() - 1 {
            let o = q.open[i];
            assert(exists|j: int| 0 <= j < p.open.len() && #[trigger] p.open[j] == o);
            let j = choose|j: int| 0 <= j < p.open.len() && #[trigger] p.open[j] == o;
            assert(stands(p.steps, p.open[j]));
        }
    }
    assert forall|i: int, j: int| 0 <= i < j < q.open.len() implies (
    #[trigger] q.open[i]).step_index != (#[trigger] q.open[j]).step_index by {
        if j == q.open.len() - 1 {
            let o = q.open[i];
            assert(exists|k: int| 0 <= k < p.open.len() && #[trigger] p.open[k] == o);
            let k = choose|k: int| 0 <= k < p.open.len() && #[trigger] p.open[k] == o;
            assert(stands(p.steps, p.open[k]));
        }
    }
    assert forall|i: int| 0 <= i < q.memberships.len() implies named(
        q.steps,
        #[trigger] q.memberships[i],
    ) by {
        assert(named(p.steps, p.memberships[i]));
    }
}

proof fn slice_keeps_roots(p: Pass, e: EventRecord)
    requires
        rooted(p),
        e.header.kind == EventKind::StepRequestSlice,
    ensures
        rooted(after_slice(p, e)),
{
    let slice = e.step_request_slice_data();
    open_position_in_range(p.open, e.header.pid, slice.step_id);
    let q = after_slice(p, e);
    assert forall|i: int| 0 <= i < q.memberships.len() implies named(
        q.steps,
        #[trigger] q.memberships[i],
    ) by {
        if i < p.memberships.len() {
            assert(named(p.steps, p.memberships[i]));
        } else {
            let at = open_position(p.open, e.header.pid, slice.step_id)->0;
            assert(stands(p.steps, p.open[at]));
        }
    }
}

proof fn end_keeps_roots(p: Pass, e: EventRecord)
    requires
        rooted(p),
        e.header.kind == EventKind::EngineStepEnd,
    ensures
        rooted(after_end(p, e)),
{
    let step_id = e.engine_step_end_data().step_id;
    open_position_in_range(p.open, e.header.pid, step_id);
    let q = after_end(p, e);
    if let Some(at) = open_position(p.open, e.header.pid, step_id) {
        removal_keeps_entries(p.open, at);
        assert(stands(p.steps, p.open[at]));
        assert forall|i: int| 0 <= i < q.open.len() implies stands(
            q.steps,
            #[trigger] q.open[i],
        ) by {
            let j = if i == at {
                p.open.len() - 1
            } else {
                i
            };
            assert(q.open[i] == p.open[j]);
            assert(stands(p.steps, p.open[j]));
            assert(p.open[j].step_index != p.open[at].step_index);
        }
        assert forall|i: int| 0 <= i < q.memberships.len() implies named(
            q.steps,
            #[trigger] q.memberships[i],
        ) by {
            assert(named(p.steps, p.memberships[i]));
        }
    }
}

proof fn graph_launch_keeps_roots(p: Pass, e: EventRecord)
    requires
        rooted(p),
    ensures
        rooted(after_graph_launch(p, e)),
{
    recent_position_in_range(p.open, e.header.pid);
    let q = after_graph_launch(p, e);
    if let Some(at) = recent_position(p.open, e.header.pid) {
        assert(stands(p.steps, p.open[at]));
        assert forall|i: int| 0 <= i < q.open.len() implies stands(
            q.steps,
            #[trigger] q.open[i],
        ) by {
            assert(stands(p.steps, p.open[i]));
        }
        assert forall|i: int| 0 <= i < q.memberships.len() implies named(
            q.steps,
            #[trigger] q.memberships[i],
        ) by {
            assert(named(p.steps, p.memberships[i]));
        }
    }
}

pub(crate) proof fn event_keeps_roots(p: Pass, e: EventRecord)
    requires
        rooted(p),
        e.header.kind == EventKind::EngineStepBegin ==> p.steps.len() < u32::MAX,
    ensures
        rooted(after_header(p, e)),
        rooted(after_event(p, e)),
{
    let q = after_header(p, e);
    assert(rooted(q));
    match e.header.kind {
        EventKind::EngineStepBegin => begin_keeps_roots(q, e),
        EventKind::StepRequestSlice => slice_keeps_roots(q, e),
        EventKind::EngineStepEnd => end_keeps_roots(q, e),
        EventKind::CudaKernelLaunch => {},
        EventKind::CudaGraphLaunch => graph_launch_keeps_roots(q, e),
        EventKind::CuptiKernelActivity => {},
        _ => {},
    }
}

pub(crate) proof fn passed_is_rooted(events: Seq<EventRecord>)
    requires
        kind_count(events, EventKind::EngineStepBegin) <= u32::MAX,
    ensures
        rooted(passed(events)),
    decreases events.len(),
{
    if events.len() > 0 {
        let front = events.drop_last();
        passed_is_rooted(front);
        passed_is_wf(front);
        event_keeps_roots(passed(front), events.last());
    }
}

// Launches within their steps.

/// Whether the kernel was launched by the process of its step while it ran.
pub open spec fn launched_within(step: StepSummary, k: KernelExecution) -> bool {
    &&& k.pid == step.pid
    &&& step.begin_timestamp_ns <= k.host_launch_timestamp_ns
    &&& !is_open(step) ==> k.host_launch_timestamp_ns <= step.end_timestamp_ns
}

/// Whether every step began and every kernel was launched by now, within its
/// step.
spec fn timely(p: Pass, now: u64) -> bool {
    &&& forall|i: int|
        0 <= i < p.steps.len() ==> (#[trigger] p.steps[i]).begin_timestamp_ns <= now
    &&& forall|i: int| 0 <= i < p.kernels.len() ==> in_time(p.steps, #[trigger] p.kernels[i], now)
}

spec fn in_time(steps: Seq<StepSummary>, k: KernelExecution, now: u64) -> bool {
    &&& k.step_index < steps.len()
    &&& launched_within(steps[k.step_index as int], k)
    &&& k.host_launch_timestamp_ns <= now
}

proof fn event_keeps_time(p: Pass, e: EventRecord, now: u64)
    requires
        rooted(p),
        timely(p, now),
        now <= e.header.timestamp_ns,
        e.header.kind == EventKind::EngineStepBegin ==> p.steps.len() < u32::MAX,
    ensures
        timely(after_event(p, e), e.header.timestamp_ns),
{
    let later = e.header.timestamp_ns;
    let h = after_header(p, e);
    assert(h.steps == p.steps && h.kernels == p.kernels && h.open == p.open);
    let q = after_event(p, e);
    match e.header.kind {
        EventKind::EngineStepEnd => {
            let step_id = e.engine_step_end_data().step_id;
            open_position_in_range(p.open, e.header.pid, step_id);
            if let Some(at) = open_position(p.open, e.header.pid, step_id) {
                let o = p.open[at];
                assert(stands(p.steps, o));
                let index = o.step_index as int;
                state_bits(p.steps[index].state);
                assert forall|i: int| 0 <= i < q.kernels.len() implies in_time(
                    q.steps,
                    #[trigger] q.kernels[i],
                    later,
                ) by {
                    assert(in_time(p.steps, p.kernels[i], now));
                }
                assert forall|i: int| 0 <= i < q.steps.len() implies (
                #[trigger] q.steps[i]).begin_timestamp_ns <= later by {
                    assert(q.steps[i].begin_timestamp_ns == p.steps[i].begin_timestamp_ns);
                }
            } else {
                assert forall|i: int| 0 <= i < q.kernels.len() implies in_time(
                    q.steps,
                    #[trigger] q.kernels[i],
                    later,
                ) by {
                    assert(in_time(p.steps, p.kernels[i], now));
                }
            }
        },
        EventKind::CudaKernelLaunch => {
            recent_position_in_range(p.open, e.header.pid);
            assert forall|i: int| 0 <= i < q.kernels.len() implies in_time(
                q.steps,
                #[trigger] q.kernels[i],
                later,
            ) by {
                if i < p.kernels.len() {
                    assert(in_time(p.steps, p.kernels[i], now));
                } else {
                    let at = recent_position(p.open, e.header.pid)->0;
                    assert(stands(p.steps, p.open[at]));
                    assert(p.steps[p.open[at].step_index as int].begin_timestamp_ns <= now);
                }
            }
        },
        EventKind::CudaGraphLaunch => {
            recent_position_in_range(p.open, e.header.pid);
            if let Some(at) = recent_position(p.open, e.header.pid) {
                assert(stands(p.steps, p.open[at]));
                assert forall|i: int| 0 <= i < q.steps.len() implies (
                #[trigger] q.steps[i]).begin_timestamp_ns <= later by {
                    assert(q.steps[i].begin_timestamp_ns == p.steps[i].begin_timestamp_ns);
                }
            }
            assert forall|i: int| 0 <= i < q.kernels.len() implies in_time(
                q.steps,
                #[trigger] q.kernels[i],
                later,
            ) by {
                assert(in_time(p.steps, p.kernels[i], now));
            }
        },
        _ => {
            assert forall|i: int| 0 <= i < q.kernels.len() implies in_time(
                q.steps,
                #[trigger] q.kernels[i],
                later,
            ) by {
                assert(in_time(p.steps, p.kernels[i], now));
            }
            assert forall|i: int| 0 <= i < q.steps.len() implies (
            #[trigger] q.steps[i]).begin_timestamp_ns <= later by {
                if i < p.steps.len() {
                    assert(q.steps[i] == p.steps[i]);
                }
            }
        },
    }
}

proof fn passed_is_timely(events: Seq<EventRecord>)
    requires
        kind_count(events, EventKind::EngineStepBegin) <= u32::MAX,
        sorted(events),
        events.len() > 0,
    ensures
        timely(passed(events), events.last().header.timestamp_ns),
    decreases events.len(),
{
    let front = events.drop_last();
    let e = events.last();
    passed_is_rooted(front);
    passed_is_wf(front);
    if front.len() > 0 {
        assert forall|i: int, j: int| 0 <= i <= j < front.len() implies #[trigger] front[i].before(
            #[trigger] front[j],
        ) by {
            assert(events[i].before(events[j]));
        }
        passed_is_timely(front);
        assert(events[front.len() - 1].before(events[events.len() - 1]));
        event_keeps_time(passed(front), e, front.last().header.timestamp_ns);
    } else {
        event_keeps_time(passed(front), e, 0);
    }
}

// The laws.

/// The memberships in the range of a step.
pub open spec fn members_of(trace: Trace, i: int) -> Seq<Membership> {
    let step = trace.steps[i];
    trace.memberships.subrange(
        step.membership_start as int,
        step.membership_start + step.membership_count,
    )
}

/// The memberships of the first steps, one step after the other.
pub open spec fn members_up_to(trace: Trace, n: int) -> Seq<Membership>
    decreases n,
{
    if n <= 0 {
        Seq::empty()
    } else {
        members_up_to(trace, n - 1) + members_of(trace, n - 1)
    }
}

/// The kernels in the range of a step.
pub open spec fn launches_of(trace: Trace, i: int) -> Seq<KernelExecution> {
    let step = trace.steps[i];
    trace.kernels.subrange(step.kernel_start as int, step.kernel_start + step.kernel_count)
}

/// The kernels of the first steps, one step after the other.
pub open spec fn launches_up_to(trace: Trace, n: int) -> Seq<KernelExecution>
    decreases n,
{
    if n <= 0 {
        Seq::empty()
    } else {
        launches_up_to(trace, n - 1) + launches_of(trace, n - 1)
    }
}

/// The cuts of a sorted list of indexes do not go back.
proof fn cuts_are_in_order(indexes: Seq<u32>, i: int)
    requires
        forall|i: int, j: int|
            0 <= i <= j < indexes.len() ==> #[trigger] indexes[i] <= #[trigger] indexes[j],
    ensures
        count_below(indexes, i) <= count_below(indexes, i + 1) <= indexes.len(),
{
    cut_of_sorted(indexes, i);
    cut_of_sorted(indexes, i + 1);
    let start = count_below(indexes, i) as int;
    let end = count_below(indexes, i + 1) as int;
    if start > end {
        assert(indexes[end] >= i + 1);
        assert(indexes[end] < i);
    }
}

proof fn nothing_below_zero(indexes: Seq<u32>)
    ensures
        count_below(indexes, 0) == 0,
    decreases indexes.len(),
{
    if indexes.len() > 0 {
        nothing_below_zero(indexes.drop_last());
    }
}

/// What the ranges of a trace's steps are made of.
proof fn membership_ranges(events: Seq<EventRecord>)
    requires
        !too_many(events),
    ensures
        ({
            let trace = traced(events);
            let indexes = membership_steps(trace.memberships);
            &&& trace.steps.len() == passed(events).steps.len()
            &&& sorted(trace.memberships)
            &&& trace.memberships.to_multiset() == passed(events).memberships.to_multiset()
            &&& trace.memberships.len() == passed(events).memberships.len() <= u32::MAX
            &&& forall|i: int|
                0 <= i < trace.steps.len() ==> (#[trigger] trace.steps[i]).membership_start
                    == count_below(indexes, i) && trace.steps[i].membership_start
                    + trace.steps[i].membership_count == count_below(indexes, i + 1)
        }),
{
    let p = passed(events);
    let trace = traced(events);
    passed_is_wf(events);
    arranged_memberships(events);
    trace.memberships.to_multiset_ensures();
    p.memberships.to_multiset_ensures();
    sorted_memberships_have_sorted_steps(trace.memberships);
    let indexes = membership_steps(trace.memberships);
    assert forall|i: int| 0 <= i < trace.steps.len() implies (
    #[trigger] trace.steps[i]).membership_start == count_below(indexes, i)
        && trace.steps[i].membership_start + trace.steps[i].membership_count == count_below(
        indexes,
        i + 1,
    ) by {
        cuts_are_in_order(indexes, i);
        let ranged = ranged_steps(p.steps, trace.memberships);
        assert(trace.steps[i].membership_start == ranged[i].membership_start);
        assert(trace.steps[i].membership_count == ranged[i].membership_count);
    }
}

proof fn members_make_a_front(events: Seq<EventRecord>, n: int)
    requires
        !too_many(events),
        0 <= n <= traced(events).steps.len(),
    ensures
        members_up_to(traced(events), n) == traced(events).memberships.take(
            count_below(membership_steps(traced(events).memberships), n) as int,
        ),
        count_below(membership_steps(traced(events).memberships), n)
            <= traced(events).memberships.len(),
    decreases n,
{
    let trace = traced(events);
    let indexes = membership_steps(trace.memberships);
    membership_ranges(events);
    sorted_memberships_have_sorted_steps(trace.memberships);
    if n == 0 {
        nothing_below_zero(indexes);
        assert(trace.memberships.take(0) =~= Seq::<Membership>::empty());
    } else {
        members_make_a_front(events, n - 1);
        cuts_are_in_order(indexes, n - 1);
        assert(trace.steps[n - 1].membership_start == count_below(indexes, n - 1));
        assert(members_up_to(trace, n) =~= trace.memberships.take(
            count_below(indexes, n) as int,
        ));
    }
}

/// A step's range of memberships lies within them, and each of these names the
/// step by index and by id. One step after the other they are all the memberships
/// of the trace, none lost and none twice, ordered by step, request and sequence.
pub proof fn memberships_belong_to_their_steps(events: Seq<EventRecord>)
    requires
        !too_many(events),
    ensures
        ({
            let trace = traced(events);
            &&& forall|i: int|
                0 <= i < trace.steps.len() ==> (#[trigger] trace.steps[i]).membership_start
                    + trace.steps[i].membership_count <= trace.memberships.len()
            &&& forall|i: int, j: int|
                0 <= i < trace.steps.len() && 0 <= j < members_of(trace, i).len() ==> {
                    let m = #[trigger] members_of(trace, i)[j];
                    m.step_index == i && m.slice.step_id == trace.steps[i].step_id
                }
            &&& members_up_to(trace, trace.steps.len() as int) == trace.memberships
            &&& sorted(trace.memberships)
        }),
{
    let p = passed(events);
    let trace = traced(events);
    let indexes = membership_steps(trace.memberships);
    let count = trace.steps.len() as int;
    passed_is_wf(events);
    passed_is_rooted(events);
    membership_ranges(events);
    sorted_memberships_have_sorted_steps(trace.memberships);
    trace.memberships.to_multiset_ensures();
    p.memberships.to_multiset_ensures();
    assert forall|j: int| 0 <= j < trace.memberships.len() implies named(
        p.steps,
        #[trigger] trace.memberships[j],
    ) by {
        let m = trace.memberships[j];
        assert(trace.memberships.contains(m));
        assert(trace.memberships.to_multiset().count(m) > 0);
        assert(p.memberships.contains(m));
        let k = choose|k: int| 0 <= k < p.memberships.len() && p.memberships[k] == m;
        assert(named(p.steps, p.memberships[k]));
    }
    assert forall|i: int| 0 <= i < count implies (#[trigger] trace.steps[i]).membership_start
        + trace.steps[i].membership_count <= trace.memberships.len() by {
        cuts_are_in_order(indexes, i);
    }
    assert forall|i: int, j: int|
        0 <= i < count && 0 <= j < members_of(trace, i).len() implies {
        let m = #[trigger] members_of(trace, i)[j];
        m.step_index == i && m.slice.step_id == trace.steps[i].step_id
    } by {
        cuts_are_in_order(indexes, i);
        cut_of_sorted(indexes, i);
        cut_of_sorted(indexes, i + 1);
        let at = trace.steps[i].membership_start + j;
        let m = trace.memberships[at];
        assert(members_of(trace, i)[j] == m);
        assert(indexes[at] == m.step_index);
        assert(named(p.steps, m));
        assert(trace.steps[i].step_id == p.steps[i].step_id);
    }
    members_make_a_front(events, count);
    cut_of_sorted(indexes, count);
    let cut = count_below(indexes, count) as int;
    if cut < trace.memberships.len() {
        assert(indexes[cut] >= count);
        assert(named(p.steps, trace.memberships[cut]));
    }
    assert(trace.memberships.take(cut) =~= trace.memberships);
}

proof fn kernel_ranges(events: Seq<EventRecord>)
    requires
        !too_many(events),
    ensures
        ({
            let p = passed(events);
            let trace = traced(events);
            let launched = matching(p.kernels, arranged(p.activities)).0;
            let indexes = kernel_steps(trace.kernels);
            &&& trace.steps.len() == p.steps.len()
            &&& sorted(trace.kernels)
            &&& launched.len() == p.kernels.len()
            &&& trace.kernels.to_multiset() == launched.to_multiset()
            &&& trace.kernels.len() == launched.len() <= u32::MAX
            &&& forall|i: int|
                0 <= i < trace.steps.len() ==> (#[trigger] trace.steps[i]).kernel_start
                    == count_below(indexes, i) && trace.steps[i].kernel_start
                    + trace.steps[i].kernel_count == count_below(indexes, i + 1)
        }),
{
    let p = passed(events);
    let trace = traced(events);
    passed_is_wf(events);
    arranged_kernels(events);
    let launched = matching(p.kernels, arranged(p.activities)).0;
    matching_keeps_kernels(p.kernels, arranged(p.activities));
    trace.kernels.to_multiset_ensures();
    launched.to_multiset_ensures();
    sorted_kernels_have_sorted_steps(trace.kernels);
    let indexes = kernel_steps(trace.kernels);
    assert forall|i: int| 0 <= i < trace.steps.len() implies (
    #[trigger] trace.steps[i]).kernel_start == count_below(indexes, i)
        && trace.steps[i].kernel_start + trace.steps[i].kernel_count == count_below(
        indexes,
        i + 1,
    ) by {
        cuts_are_in_order(indexes, i);
    }
}

proof fn launches_make_a_front(events: Seq<EventRecord>, n: int)
    requires
        !too_many(events),
        0 <= n <= traced(events).steps.len(),
    ensures
        launches_up_to(traced(events), n) == traced(events).kernels.take(
            count_below(kernel_steps(traced(events).kernels), n) as int,
        ),
        count_below(kernel_steps(traced(events).kernels), n) <= traced(events).kernels.len(),
    decreases n,
{
    let trace = traced(events);
    let indexes = kernel_steps(trace.kernels);
    kernel_ranges(events);
    sorted_kernels_have_sorted_steps(trace.kernels);
    if n == 0 {
        nothing_below_zero(indexes);
        assert(trace.kernels.take(0) =~= Seq::<KernelExecution>::empty());
    } else {
        launches_make_a_front(events, n - 1);
        cuts_are_in_order(indexes, n - 1);
        assert(trace.steps[n - 1].kernel_start == count_below(indexes, n - 1));
        assert(launches_up_to(trace, n) =~= trace.kernels.take(count_below(indexes, n) as int));
    }
}

/// A kernel of the trace was launched within the step that it names.
proof fn kernel_is_in_its_step(events: Seq<EventRecord>, j: int)
    requires
        !too_many(events),
        sorted(events),
        0 <= j < traced(events).kernels.len(),
    ensures
        ({
            let trace = traced(events);
            let k = trace.kernels[j];
            k.step_index < trace.steps.len() && launched_within(
                trace.steps[k.step_index as int],
                k,
            )
        }),
{
    let p = passed(events);
    let trace = traced(events);
    let activities = arranged(p.activities);
    let launched = matching(p.kernels, activities).0;
    kernel_ranges(events);
    passed_is_wf(events);
    assert(p.kernels.len() > 0);
    assert(events.len() > 0);
    passed_is_timely(events);
    trace.kernels.to_multiset_ensures();
    launched.to_multiset_ensures();
    let k = trace.kernels[j];
    assert(trace.kernels.contains(k));
    assert(trace.kernels.to_multiset().count(k) > 0);
    assert(launched.contains(k));
    let n = choose|n: int| 0 <= n < launched.len() && launched[n] == k;
    launch_takes_activity_of_its_key(p.kernels, activities, n);
    let before = p.kernels[n];
    assert(k.step_index == before.step_index && k.pid == before.pid
        && k.host_launch_timestamp_ns == before.host_launch_timestamp_ns);
    assert(in_time(p.steps, before, events.last().header.timestamp_ns));
    let i = k.step_index as int;
    state_bits(p.steps[i].state);
    let ranged = ranged_steps(p.steps, trace.memberships);
    assert(trace.steps[i].state == ranged[i].state);
    assert(is_open(trace.steps[i]) == is_open(p.steps[i]));
    assert(trace.steps[i].pid == p.steps[i].pid);
    assert(trace.steps[i].begin_timestamp_ns == p.steps[i].begin_timestamp_ns);
    assert(trace.steps[i].end_timestamp_ns == p.steps[i].end_timestamp_ns);
}

/// A step's range of kernels lies within them, and each of these names the step
/// and was launched by its process, not before the step began, and not after it
/// ended where it did. One step after the other they are all the kernels of the
/// trace, none lost and none twice, ordered by step, by the start of their
/// activity, with those that have none last, and by launch.
pub proof fn kernels_belong_to_their_steps(events: Seq<EventRecord>)
    requires
        !too_many(events),
        sorted(events),
    ensures
        ({
            let trace = traced(events);
            &&& forall|i: int|
                0 <= i < trace.steps.len() ==> (#[trigger] trace.steps[i]).kernel_start
                    + trace.steps[i].kernel_count <= trace.kernels.len()
            &&& forall|i: int, j: int|
                0 <= i < trace.steps.len() && 0 <= j < launches_of(trace, i).len() ==> {
                    let k = #[trigger] launches_of(trace, i)[j];
                    k.step_index == i && launched_within(trace.steps[i], k)
                }
            &&& launches_up_to(trace, trace.steps.len() as int) == trace.kernels
            &&& sorted(trace.kernels)
        }),
{
    let trace = traced(events);
    let indexes = kernel_steps(trace.kernels);
    let count = trace.steps.len() as int;
    kernel_ranges(events);
    sorted_kernels_have_sorted_steps(trace.kernels);
    assert forall|i: int| 0 <= i < count implies (#[trigger] trace.steps[i]).kernel_start
        + trace.steps[i].kernel_count <= trace.kernels.len() by {
        cuts_are_in_order(indexes, i);
    }
    assert forall|i: int, j: int|
        0 <= i < count && 0 <= j < launches_of(trace, i).len() implies {
        let k = #[trigger] launches_of(trace, i)[j];
        k.step_index == i && launched_within(trace.steps[i], k)
    } by {
        cuts_are_in_order(indexes, i);
        cut_of_sorted(indexes, i);
        cut_of_sorted(indexes, i + 1);
        let at = trace.steps[i].kernel_start + j;
        let k = trace.kernels[at];
        assert(launches_of(trace, i)[j] == k);
        assert(indexes[at] == k.step_index);
        kernel_is_in_its_step(events, at);
    }
    launches_make_a_front(events, count);
    cut_of_sorted(indexes, count);
    let cut = count_below(indexes, count) as int;
    if cut < trace.kernels.len() {
        assert(indexes[cut] >= count);
        kernel_is_in_its_step(events, cut);
    }
    assert(trace.kernels.take(cut) =~= trace.kernels);
}

} // verus!
