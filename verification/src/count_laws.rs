//! How the counts of a correlated trace add up to the events that were read.

use crate::correlation::{
    after_event, after_header, arranged_kernels, candidate, chosen, kind_count, left_open,
    matched_kernel, matching, mismatches, open_position, open_position_in_range, orphans, passed,
    passed_is_wf, ranged_steps, recent_position, recent_position_in_range, too_many, traced,
    unmatched, Activity, Diagnostic, DiagnosticCode, KernelExecution, Pass, StepSummary,
};
use crate::event::{EventKind, EventRecord};
use crate::order::{arranged, arrangement_exists};
use crate::step_laws::{is_open, open_entries_stand, passed_is_rooted, rooted, state_bits};
use vstd::prelude::*;

verus! {

/// How many of the diagnostics have the code.
pub open spec fn code_count(diagnostics: Seq<Diagnostic>, code: DiagnosticCode) -> nat
    decreases diagnostics.len(),
{
    if diagnostics.len() == 0 {
        0
    } else {
        code_count(diagnostics.drop_last(), code) + if diagnostics.last().code == code {
            1nat
        } else {
            0
        }
    }
}

/// How many of the steps did not end.
pub open spec fn open_count(steps: Seq<StepSummary>) -> nat
    decreases steps.len(),
{
    if steps.len() == 0 {
        0
    } else {
        open_count(steps.drop_last()) + if is_open(steps.last()) {
            1nat
        } else {
            0
        }
    }
}

/// How many graph launches the steps count.
pub open spec fn graph_launches(steps: Seq<StepSummary>) -> nat
    decreases steps.len(),
{
    if steps.len() == 0 {
        0
    } else {
        graph_launches(steps.drop_last()) + steps.last().graph_launch_count as nat
    }
}

/// How many of the events are graph launches of the step: those that come while
/// it is the latest open step of their process.
pub open spec fn graph_launches_in(events: Seq<EventRecord>, step: int) -> nat
    decreases events.len(),
{
    if events.len() == 0 {
        0
    } else {
        let front = events.drop_last();
        let e = events.last();
        let open = passed(front).open;
        graph_launches_in(front, step) + if e.header.kind == EventKind::CudaGraphLaunch && (
        recent_position(open, e.header.pid) matches Some(at) && open[at].step_index == step) {
            1nat
        } else {
            0
        }
    }
}

/// Whether no step has more graph launches than it can count.
pub open spec fn counted_in_steps(events: Seq<EventRecord>, steps: nat) -> bool {
    forall|i: int| 0 <= i < steps ==> #[trigger] graph_launches_in(events, i) <= u32::MAX
}

// Counting.

proof fn code_count_of_push(s: Seq<Diagnostic>, d: Diagnostic, code: DiagnosticCode)
    ensures
        code_count(s.push(d), code) == code_count(s, code) + if d.code == code {
            1nat
        } else {
            0
        },
{
    assert(s.push(d).drop_last() =~= s);
}

proof fn code_count_of_sum(a: Seq<Diagnostic>, b: Seq<Diagnostic>, code: DiagnosticCode)
    ensures
        code_count(a + b, code) == code_count(a, code) + code_count(b, code),
    decreases b.len(),
{
    if b.len() == 0 {
        assert(a + b =~= a);
    } else {
        code_count_of_sum(a, b.drop_last(), code);
        assert((a + b).drop_last() =~= a + b.drop_last());
    }
}

proof fn code_count_of_one_code(s: Seq<Diagnostic>, own: DiagnosticCode, code: DiagnosticCode)
    requires
        forall|i: int| 0 <= i < s.len() ==> (#[trigger] s[i]).code == own,
    ensures
        code_count(s, code) == if own == code {
            s.len()
        } else {
            0
        },
    decreases s.len(),
{
    if s.len() > 0 {
        code_count_of_one_code(s.drop_last(), own, code);
    }
}

proof fn mismatches_have_their_code(ranged: Seq<StepSummary>)
    ensures
        forall|i: int|
            0 <= i < mismatches(ranged).len() ==> (#[trigger] mismatches(ranged)[i]).code
                == DiagnosticCode::SliceCountMismatch,
    decreases ranged.len(),
{
    if ranged.len() > 0 {
        mismatches_have_their_code(ranged.drop_last());
    }
}

proof fn orphans_have_their_code(a: Seq<Activity>)
    ensures
        forall|i: int|
            0 <= i < orphans(a).len() ==> (#[trigger] orphans(a)[i]).code
                == DiagnosticCode::ActivityWithoutLaunch,
    decreases a.len(),
{
    if a.len() > 0 {
        orphans_have_their_code(a.drop_last());
    }
}

proof fn counts_of_push(steps: Seq<StepSummary>, step: StepSummary)
    ensures
        open_count(steps.push(step)) == open_count(steps) + if is_open(step) {
            1nat
        } else {
            0
        },
        graph_launches(steps.push(step)) == graph_launches(steps) + step.graph_launch_count,
{
    assert(steps.push(step).drop_last() =~= steps);
}

proof fn counts_of_update(steps: Seq<StepSummary>, i: int, step: StepSummary)
    requires
        0 <= i < steps.len(),
    ensures
        open_count(steps.update(i, step)) + (if is_open(steps[i]) {
            1nat
        } else {
            0
        }) == open_count(steps) + if is_open(step) {
            1nat
        } else {
            0
        },
        graph_launches(steps.update(i, step)) + steps[i].graph_launch_count == graph_launches(steps)
            + step.graph_launch_count,
        steps[i].graph_launch_count <= graph_launches(steps),
        open_count(steps) <= steps.len(),
    decreases steps.len(),
{
    let updated = steps.update(i, step);
    let front = steps.drop_last();
    open_count_fits(steps);
    if i == steps.len() - 1 {
        assert(updated.drop_last() =~= front);
    } else {
        counts_of_update(front, i, step);
        assert(updated.drop_last() =~= front.update(i, step));
        assert(updated.last() == steps.last());
    }
}

proof fn open_count_fits(steps: Seq<StepSummary>)
    ensures
        open_count(steps) <= steps.len(),
    decreases steps.len(),
{
    if steps.len() > 0 {
        open_count_fits(steps.drop_last());
    }
}

proof fn counts_of_alike(a: Seq<StepSummary>, b: Seq<StepSummary>)
    requires
        a.len() == b.len(),
        forall|i: int|
            0 <= i < a.len() ==> is_open(#[trigger] a[i]) == is_open(b[i])
                && a[i].graph_launch_count == b[i].graph_launch_count,
    ensures
        open_count(a) == open_count(b),
        graph_launches(a) == graph_launches(b),
    decreases a.len(),
{
    if a.len() > 0 {
        counts_of_alike(a.drop_last(), b.drop_last());
        assert(is_open(a[a.len() - 1]) == is_open(b[a.len() - 1]));
    }
}

// While the events are read.

/// Whether every launch is a kernel, is counted in its step or is reported.
spec fn counts_launches(p: Pass, events: Seq<EventRecord>) -> bool {
    &&& kind_count(events, EventKind::CudaKernelLaunch) + kind_count(
        events,
        EventKind::CudaGraphLaunch,
    ) == p.kernels.len() + graph_launches(p.steps) + code_count(
        p.diagnostics,
        DiagnosticCode::LaunchOutsideStep,
    )
    &&& forall|n: int|
        0 <= n < p.steps.len() ==> (#[trigger] p.steps[n]).graph_launch_count == graph_launches_in(
            events,
            n,
        )
}

/// Whether the launches are accounted for, where their steps can count them.
spec fn accounts_for_launches(p: Pass, events: Seq<EventRecord>) -> bool {
    &&& forall|n: int|
        n < 0 || n >= p.steps.len() ==> #[trigger] graph_launches_in(events, n) == 0
    &&& counted_in_steps(events, p.steps.len()) ==> counts_launches(p, events)
}

/// Whether what is known after the events accounts for each of them, but for
/// the launches.
spec fn accounts(p: Pass, events: Seq<EventRecord>) -> bool {
    &&& p.steps.len() == kind_count(events, EventKind::EngineStepBegin)
    &&& open_count(p.steps) == p.open.len() + code_count(
        p.diagnostics,
        DiagnosticCode::DuplicateStepBegin,
    )
    &&& kind_count(events, EventKind::EngineStepEnd) + open_count(p.steps) == p.steps.len()
        + code_count(p.diagnostics, DiagnosticCode::StepEndWithoutBegin)
    &&& kind_count(events, EventKind::StepRequestSlice) == p.memberships.len() + code_count(
        p.diagnostics,
        DiagnosticCode::SliceWithoutOpenStep,
    )
    &&& kind_count(events, EventKind::CuptiKernelActivity) == p.activities.len()
    &&& code_count(p.diagnostics, DiagnosticCode::OpenStep) == 0
    &&& code_count(p.diagnostics, DiagnosticCode::ActivityWithoutLaunch) == 0
}

proof fn header_accounts(p: Pass, e: EventRecord, code: DiagnosticCode)
    requires
        code != DiagnosticCode::UnnormalizedClock,
        code != DiagnosticCode::TelemetryLoss,
    ensures
        code_count(after_header(p, e).diagnostics, code) == code_count(p.diagnostics, code),
{
    assert forall|s: Seq<Diagnostic>, d: Diagnostic|
        d.code != code implies #[trigger] code_count(s.push(d), code) == code_count(s, code) by {
        code_count_of_push(s, d, code);
    }
}

/// One more diagnostic counts for its own code.
proof fn notice_accounts(before: Seq<Diagnostic>, after: Seq<Diagnostic>, code: DiagnosticCode)
    requires
        after.len() == before.len() + 1,
        after.drop_last() =~= before,
    ensures
        code_count(after, code) == code_count(before, code) + if after.last().code == code {
            1nat
        } else {
            0
        },
{
}

proof fn event_accounts(p: Pass, events: Seq<EventRecord>, e: EventRecord)
    requires
        rooted(p),
        accounts(p, events),
        kind_count(events.push(e), EventKind::EngineStepBegin) <= u32::MAX,
    ensures
        accounts(after_event(p, e), events.push(e)),
{
    let more = events.push(e);
    assert(more.drop_last() =~= events);
    let h = after_header(p, e);
    header_accounts(p, e, DiagnosticCode::DuplicateStepBegin);
    header_accounts(p, e, DiagnosticCode::StepEndWithoutBegin);
    header_accounts(p, e, DiagnosticCode::SliceWithoutOpenStep);
    header_accounts(p, e, DiagnosticCode::OpenStep);
    header_accounts(p, e, DiagnosticCode::ActivityWithoutLaunch);
    open_entries_stand(p);
    recent_position_in_range(p.open, e.header.pid);
    state_bits(0);
    let q = after_event(p, e);
    let d = h.diagnostics;
    if q.diagnostics.len() == d.len() + 1 {
        assert(q.diagnostics.drop_last() =~= d);
        notice_accounts(d, q.diagnostics, DiagnosticCode::DuplicateStepBegin);
        notice_accounts(d, q.diagnostics, DiagnosticCode::StepEndWithoutBegin);
        notice_accounts(d, q.diagnostics, DiagnosticCode::SliceWithoutOpenStep);
        notice_accounts(d, q.diagnostics, DiagnosticCode::OpenStep);
        notice_accounts(d, q.diagnostics, DiagnosticCode::ActivityWithoutLaunch);
    }
    match e.header.kind {
        EventKind::EngineStepBegin => {
            let step_id = e.engine_step_begin_data().step_id;
            open_position_in_range(p.open, e.header.pid, step_id);
            counts_of_push(p.steps, q.steps.last());
            assert(q.steps =~= p.steps.push(q.steps.last()));
        },
        EventKind::StepRequestSlice => {},
        EventKind::EngineStepEnd => {
            let step_id = e.engine_step_end_data().step_id;
            open_position_in_range(p.open, e.header.pid, step_id);
            if let Some(at) = open_position(p.open, e.header.pid, step_id) {
                let index = p.open[at].step_index as int;
                state_bits(p.steps[index].state);
                counts_of_update(p.steps, index, q.steps[index]);
                assert(q.steps =~= p.steps.update(index, q.steps[index]));
            }
        },
        EventKind::CudaKernelLaunch => {},
        EventKind::CudaGraphLaunch => {
            recent_position_in_range(p.open, e.header.pid);
            if let Some(at) = recent_position(p.open, e.header.pid) {
                let index = p.open[at].step_index as int;
                counts_of_update(p.steps, index, q.steps[index]);
                assert(q.steps =~= p.steps.update(index, q.steps[index]));
            }
        },
        EventKind::CuptiKernelActivity => {},
        _ => {},
    }
}

/// How the graph launches of the steps grow by an event.
proof fn event_counts_graph_launches(p: Pass, events: Seq<EventRecord>, e: EventRecord)
    requires
        p == passed(events),
        rooted(p),
        accounts_for_launches(p, events),
    ensures
        forall|n: int| #[trigger]
            graph_launches_in(events.push(e), n) == graph_launches_in(events, n) + if e.header.kind
                == EventKind::CudaGraphLaunch && (recent_position(
                p.open,
                e.header.pid,
            ) matches Some(at) && p.open[at].step_index == n) {
                1nat
            } else {
                0
            },
        forall|n: int|
            n < 0 || n >= p.steps.len() ==> #[trigger] graph_launches_in(events.push(e), n) == 0,
        p.steps.len() <= after_event(p, e).steps.len(),
        counted_in_steps(events.push(e), after_event(p, e).steps.len()) ==> counts_launches(
            p,
            events,
        ),
{
    let more = events.push(e);
    assert(more.drop_last() =~= events);
    open_entries_stand(p);
    recent_position_in_range(p.open, e.header.pid);
    open_position_in_range(p.open, e.header.pid, e.engine_step_end_data().step_id);
    assert forall|n: int| n < 0 || n >= p.steps.len() implies #[trigger] graph_launches_in(more, n)
        == 0 by {
        assert(graph_launches_in(events, n) == 0);
    }
    if counted_in_steps(more, after_event(p, e).steps.len()) {
        assert forall|i: int| 0 <= i < p.steps.len() implies #[trigger] graph_launches_in(
            events,
            i,
        ) <= u32::MAX by {
            assert(graph_launches_in(more, i) <= u32::MAX);
        }
    }
}

proof fn event_accounts_for_launches(p: Pass, events: Seq<EventRecord>, e: EventRecord)
    requires
        p == passed(events),
        rooted(p),
        accounts_for_launches(p, events),
        p.steps.len() < u32::MAX || e.header.kind != EventKind::EngineStepBegin,
    ensures
        accounts_for_launches(after_event(p, e), events.push(e)),
{
    let more = events.push(e);
    assert(more.drop_last() =~= events);
    event_counts_graph_launches(p, events, e);
    let q = after_event(p, e);
    if counted_in_steps(more, q.steps.len()) {
        let d = after_header(p, e).diagnostics;
        header_accounts(p, e, DiagnosticCode::LaunchOutsideStep);
        if q.diagnostics.len() == d.len() + 1 {
            assert(q.diagnostics.drop_last() =~= d);
            notice_accounts(d, q.diagnostics, DiagnosticCode::LaunchOutsideStep);
        }
        open_entries_stand(p);
        match e.header.kind {
            EventKind::EngineStepBegin => {
                counts_of_push(p.steps, q.steps.last());
                assert(q.steps =~= p.steps.push(q.steps.last()));
                assert(q.kernels == p.kernels);
            },
            EventKind::EngineStepEnd => {
                let step_id = e.engine_step_end_data().step_id;
                open_position_in_range(p.open, e.header.pid, step_id);
                if let Some(at) = open_position(p.open, e.header.pid, step_id) {
                    let index = p.open[at].step_index as int;
                    counts_of_update(p.steps, index, q.steps[index]);
                    assert(q.steps =~= p.steps.update(index, q.steps[index]));
                }
            },
            EventKind::CudaGraphLaunch => {
                recent_position_in_range(p.open, e.header.pid);
                if let Some(at) = recent_position(p.open, e.header.pid) {
                    let index = p.open[at].step_index as int;
                    assert(graph_launches_in(more, index) <= u32::MAX);
                    assert(p.steps[index].graph_launch_count == graph_launches_in(events, index));
                    counts_of_update(p.steps, index, q.steps[index]);
                    assert(q.steps =~= p.steps.update(index, q.steps[index]));
                }
            },
            _ => {},
        }
        assert forall|n: int| 0 <= n < q.steps.len() implies (
        #[trigger] q.steps[n]).graph_launch_count == graph_launches_in(more, n) by {
            if n < p.steps.len() {
                assert(p.steps[n].graph_launch_count == graph_launches_in(events, n));
            }
        }
    }
}

proof fn passed_accounts(events: Seq<EventRecord>)
    requires
        kind_count(events, EventKind::EngineStepBegin) <= u32::MAX,
    ensures
        accounts(passed(events), events),
        accounts_for_launches(passed(events), events),
    decreases events.len(),
{
    if events.len() > 0 {
        let front = events.drop_last();
        passed_accounts(front);
        passed_is_rooted(front);
        assert(front.push(events.last()) =~= events);
        event_accounts(passed(front), front, events.last());
        event_accounts_for_launches(passed(front), front, events.last());
    }
}

// Matched activities.

/// Each activity was either taken by a launch or is reported.
proof fn matching_accounts(kernels: Seq<KernelExecution>, activities: Seq<Activity>)
    requires
        forall|i: int| 0 <= i < kernels.len() ==> !(#[trigger] kernels[i]).has_activity(),
    ensures
        matching(kernels, activities).0.len() == kernels.len(),
        orphans(matching(kernels, activities).1).len() + kernels.len() == orphans(activities).len()
            + unmatched(matching(kernels, activities).0),
    decreases kernels.len(),
{
    if kernels.len() > 0 {
        let front = kernels.drop_last();
        let k = kernels.last();
        matching_accounts(front, activities);
        let (done, left) = matching(front, activities);
        match chosen(left, k) {
            Some(i) => {
                assert(candidate(left, k, i));
                let taken = Activity { matched: true, ..left[i] };
                orphans_of_update(left, i, taken);
                let timed = matched_kernel(k, left[i]);
                let flags = k.flags;
                assert((flags | 1u16) & 1u16 != 0u16) by (bit_vector);
                assert(timed.has_activity());
                assert(done.push(timed).drop_last() =~= done);
            },
            None => {
                assert(done.push(k).drop_last() =~= done);
            },
        }
    }
}

proof fn orphans_of_update(a: Seq<Activity>, i: int, taken: Activity)
    requires
        0 <= i < a.len(),
        !a[i].matched,
        taken.matched,
    ensures
        orphans(a.update(i, taken)).len() + 1 == orphans(a).len(),
    decreases a.len(),
{
    let updated = a.update(i, taken);
    if i == a.len() - 1 {
        assert(updated.drop_last() =~= a.drop_last());
    } else {
        orphans_of_update(a.drop_last(), i, taken);
        assert(updated.drop_last() =~= a.drop_last().update(i, taken));
        assert(updated.last() == a.last());
    }
}

proof fn orphans_of_free(a: Seq<Activity>)
    requires
        forall|i: int| 0 <= i < a.len() ==> !(#[trigger] a[i]).matched,
    ensures
        orphans(a).len() == a.len(),
    decreases a.len(),
{
    if a.len() > 0 {
        orphans_of_free(a.drop_last());
    }
}

proof fn unmatched_of_rest(s: Seq<KernelExecution>, i: int)
    requires
        0 <= i < s.len(),
    ensures
        unmatched(s) == unmatched(s.remove(i)) + if s[i].has_activity() {
            0nat
        } else {
            1
        },
    decreases s.len(),
{
    if i == s.len() - 1 {
        assert(s.remove(i) =~= s.drop_last());
    } else {
        unmatched_of_rest(s.drop_last(), i);
        assert(s.remove(i).drop_last() =~= s.drop_last().remove(i));
        assert(s.remove(i).last() == s.last());
    }
}

/// The count does not depend on the order.
proof fn unmatched_in_any_order(a: Seq<KernelExecution>, b: Seq<KernelExecution>)
    requires
        a.to_multiset() == b.to_multiset(),
    ensures
        unmatched(a) == unmatched(b),
    decreases a.len(),
{
    broadcast use vstd::seq_lib::group_to_multiset_ensures;

    if a.len() > 0 {
        let k = a.last();
        assert(a.to_multiset().count(k) > 0);
        let i = b.index_of(k);
        assert(a.drop_last() =~= a.remove(a.len() - 1));
        unmatched_of_rest(b, i);
        unmatched_in_any_order(a.drop_last(), b.remove(i));
    } else {
        assert(b.to_multiset().len() == 0);
    }
}

proof fn arrangement_keeps_activities_free(a: Seq<Activity>)
    requires
        forall|i: int| 0 <= i < a.len() ==> !(#[trigger] a[i]).matched,
    ensures
        arranged(a).len() == a.len(),
        forall|i: int| 0 <= i < a.len() ==> !(#[trigger] arranged(a)[i]).matched,
{
    broadcast use vstd::seq_lib::group_to_multiset_ensures;

    arrangement_exists(a);
    let t = arranged(a);
    assert(t.to_multiset().len() == a.to_multiset().len());
    assert forall|i: int| 0 <= i < a.len() implies !(#[trigger] t[i]).matched by {
        assert(t.to_multiset().count(t[i]) > 0);
        assert(a.contains(t[i]));
    }
}

/// How often a code is reported, from the parts of a trace's diagnostics.
proof fn reports_of_parts(
    p: Pass,
    ranged: Seq<StepSummary>,
    left: Seq<Activity>,
    code: DiagnosticCode,
)
    ensures
        code_count(
            p.diagnostics + left_open(p.open) + mismatches(ranged) + orphans(left),
            code,
        ) == code_count(p.diagnostics, code) + (if code == DiagnosticCode::OpenStep {
            p.open.len()
        } else {
            0
        }) + (if code == DiagnosticCode::SliceCountMismatch {
            mismatches(ranged).len()
        } else {
            0
        }) + if code == DiagnosticCode::ActivityWithoutLaunch {
            orphans(left).len()
        } else {
            0
        },
{
    code_count_of_sum(p.diagnostics, left_open(p.open), code);
    code_count_of_sum(p.diagnostics + left_open(p.open), mismatches(ranged), code);
    code_count_of_sum(
        p.diagnostics + left_open(p.open) + mismatches(ranged),
        orphans(left),
        code,
    );
    mismatches_have_their_code(ranged);
    orphans_have_their_code(left);
    code_count_of_one_code(left_open(p.open), DiagnosticCode::OpenStep, code);
    code_count_of_one_code(mismatches(ranged), DiagnosticCode::SliceCountMismatch, code);
    code_count_of_one_code(orphans(left), DiagnosticCode::ActivityWithoutLaunch, code);
}

// The law.

/// Every event that bears on a step is accounted for once: a step end closes a
/// step or is reported, a step that did not end is reported as open or as
/// superseded, a slice becomes a membership or is reported, a launch becomes a
/// kernel, is counted as a graph launch or is reported, and a GPU activity is
/// taken by a kernel or is reported. Of launches this holds where no step has
/// more graph launches than it can count.
pub proof fn every_event_is_accounted_for(events: Seq<EventRecord>)
    requires
        !too_many(events),
    ensures
        ({
            let trace = traced(events);
            let reported = |code: DiagnosticCode| code_count(trace.diagnostics, code);
            &&& kind_count(events, EventKind::EngineStepBegin) == trace.steps.len()
            &&& kind_count(events, EventKind::EngineStepEnd) == trace.steps.len() - open_count(
                trace.steps,
            ) + reported(DiagnosticCode::StepEndWithoutBegin)
            &&& open_count(trace.steps) == reported(DiagnosticCode::OpenStep) + reported(
                DiagnosticCode::DuplicateStepBegin,
            )
            &&& kind_count(events, EventKind::StepRequestSlice) == trace.memberships.len()
                + reported(DiagnosticCode::SliceWithoutOpenStep)
            &&& counted_in_steps(events, trace.steps.len()) ==> kind_count(
                events,
                EventKind::CudaKernelLaunch,
            ) + kind_count(events, EventKind::CudaGraphLaunch) == trace.kernels.len()
                + graph_launches(trace.steps) + reported(DiagnosticCode::LaunchOutsideStep)
            &&& kind_count(events, EventKind::CuptiKernelActivity) == trace.kernels.len()
                - unmatched(trace.kernels) + reported(DiagnosticCode::ActivityWithoutLaunch)
        }),
{
    let p = passed(events);
    let trace = traced(events);
    passed_accounts(events);
    passed_is_wf(events);
    // The steps.
    let ranged = ranged_steps(p.steps, trace.memberships);
    assert forall|i: int| 0 <= i < trace.steps.len() implies is_open(#[trigger] trace.steps[i])
        == is_open(p.steps[i]) && trace.steps[i].graph_launch_count
        == p.steps[i].graph_launch_count by {
        state_bits(p.steps[i].state);
        assert(trace.steps[i].state == ranged[i].state);
    }
    counts_of_alike(trace.steps, p.steps);
    // The kernels.
    let ordered = arranged(p.activities);
    let (launched, left) = matching(p.kernels, ordered);
    arranged_kernels(events);
    unmatched_in_any_order(trace.kernels, launched);
    matching_accounts(p.kernels, ordered);
    arrangement_keeps_activities_free(p.activities);
    orphans_of_free(ordered);
    trace.kernels.to_multiset_ensures();
    launched.to_multiset_ensures();
    arrangement_exists(p.memberships);
    trace.memberships.to_multiset_ensures();
    p.memberships.to_multiset_ensures();
    // The diagnostics.
    reports_of_parts(p, ranged, left, DiagnosticCode::StepEndWithoutBegin);
    reports_of_parts(p, ranged, left, DiagnosticCode::OpenStep);
    reports_of_parts(p, ranged, left, DiagnosticCode::DuplicateStepBegin);
    reports_of_parts(p, ranged, left, DiagnosticCode::SliceWithoutOpenStep);
    reports_of_parts(p, ranged, left, DiagnosticCode::LaunchOutsideStep);
    reports_of_parts(p, ranged, left, DiagnosticCode::ActivityWithoutLaunch);
}

} // verus!
