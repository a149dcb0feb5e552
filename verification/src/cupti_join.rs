//! Join of a filtered CUPTI capture with the decode steps of a trace.
//!
//! The kernels of the capture run one block for each row of the packed batch.
//! Which request a block worked for follows from the rows that the request
//! owns and the geometry of the launch.

use crate::clock::ClockMap;
use crate::cupti::{
    call_with, calls_repeat, find_call, index_calls, indexes_calls, quality_text, quality_words,
    refusing_gate, validate_inputs, ApiActivity, CuptiQuality, GateError, KernelActivity,
};
use crate::full_step::{
    busy_union, excess, one_if, plus, timeline_text, timeline_words,
};
use crate::index::IdIndex;
use crate::intervals::{duration_sum, duration_total, ints, union_length};
use crate::order::{arranged, arranged_copy, Keyed};
use crate::ownership::{
    decode_suffix, packed_timeline, step_for_packed_timestamp, step_in_window, suffix_of,
    timeline_fits, timeline_of, OwnershipSlice, SemanticTrace, TimelineEntry, TraceStep,
};
use vstd::prelude::*;
use vstd::slice::slice_subrange;
use vstd::string::*;

verus! {

impl Keyed for KernelActivity {
    open spec fn before(self, other: Self) -> bool {
        self.start_ns < other.start_ns || (self.start_ns == other.start_ns && self.end_ns
            <= other.end_ns)
    }

    proof fn before_is_total(a: Self, b: Self) {
    }

    proof fn before_is_transitive(a: Self, b: Self, c: Self) {
    }

    fn comes_before(&self, other: &Self) -> (r: bool) {
        self.start_ns < other.start_ns || (self.start_ns == other.start_ns && self.end_ns
            <= other.end_ns)
    }
}

/// What kernels are joined with.
pub struct SuffixJoin {
    pub steps: Seq<TraceStep>,
    pub timeline: Seq<TimelineEntry>,
    pub suffix: Seq<usize>,
    pub calls: Seq<ApiActivity>,
    pub clock: ClockMap,
}

/// Where a kernel belongs.
#[derive(Clone, Copy, Debug, PartialEq, Eq, Structural)]
pub enum SuffixPlacement {
    Unmatched,
    OutsideClock,
    InvalidInterval,
    Unassigned,
    OutsideSuffix,
    /// The kernel belongs to the step. Its process or its geometry may still be
    /// wrong.
    InStep {
        step: usize,
        call_start_ns: u64,
        call_end_ns: u64,
        start_ns: u64,
        end_ns: u64,
        wrong_process: bool,
        wrong_geometry: bool,
    },
}

/// Whether the geometry is not one block for each row, with or without rows
/// that pad the batch.
pub open spec fn geometry_wrong(k: KernelActivity, step: TraceStep) -> bool {
    ||| k.grid.y != 1
    ||| k.grid.z != 1
    ||| k.grid.x < step.begin.scheduled_tokens
    ||| k.block.x == 0
    ||| k.block.y == 0
    ||| k.block.z == 0
}

/// Where the kernel belongs.
pub open spec fn suffix_placement(k: KernelActivity, join: SuffixJoin) -> SuffixPlacement {
    match call_with(join.calls, k.correlation) {
        None => SuffixPlacement::Unmatched,
        Some(call) => if !join.clock.spans(call.start_ns) || !join.clock.spans(call.end_ns)
            || !join.clock.spans(k.start_ns) || !join.clock.spans(k.end_ns) {
            SuffixPlacement::OutsideClock
        } else {
            let call_start = join.clock.mapped(call.start_ns);
            let call_end = join.clock.mapped(call.end_ns);
            let start = join.clock.mapped(k.start_ns);
            let end = join.clock.mapped(k.end_ns);
            if call.return_value != 0 || call_end < call_start || end <= start {
                SuffixPlacement::InvalidInterval
            } else {
                match step_in_window(call_start as u64, join.steps, join.timeline) {
                    None => SuffixPlacement::Unassigned,
                    Some(i) => if !join.suffix.contains(i as usize) {
                        SuffixPlacement::OutsideSuffix
                    } else {
                        SuffixPlacement::InStep {
                            step: i as usize,
                            call_start_ns: call_start as u64,
                            call_end_ns: call_end as u64,
                            start_ns: start as u64,
                            end_ns: end as u64,
                            wrong_process: call.process != join.steps[i].begin.pid,
                            wrong_geometry: geometry_wrong(k, join.steps[i]),
                        }
                    },
                }
            }
        },
    }
}

pub(crate) fn holds_index(list: &Vec<usize>, value: usize) -> (r: bool)
    ensures
        r == list@.contains(value),
{
    let mut i: usize = 0;
    while i < list.len()
        invariant
            i <= list.len(),
            forall|k: int| 0 <= k < i ==> #[trigger] list@[k] != value,
        decreases list.len() - i,
    {
        if list[i] == value {
            assert(list@[i as int] == value);
            return true;
        }
        i += 1;
    }
    false
}

fn place_in_suffix(
    k: &KernelActivity,
    steps: &[TraceStep],
    timeline: &[TimelineEntry],
    suffix: &Vec<usize>,
    calls: &[ApiActivity],
    index: &IdIndex,
    clock: ClockMap,
) -> (r: SuffixPlacement)
    requires
        timeline_fits(timeline@, steps@),
        indexes_calls(*index, calls@),
        !calls_repeat(calls@),
    ensures
        r == suffix_placement(
            *k,
            (SuffixJoin {
                steps: steps@,
                timeline: timeline@,
                suffix: suffix@,
                calls: calls@,
                clock,
            }),
        ),
        r matches SuffixPlacement::InStep { step, start_ns, end_ns, .. } ==> step < steps@.len()
            && start_ns < end_ns,
{
    let call = match find_call(index, calls, k.correlation) {
        Some(call) => call,
        None => {
            return SuffixPlacement::Unmatched;
        },
    };
    match (
        clock.normalize(call.start_ns),
        clock.normalize(call.end_ns),
        clock.normalize(k.start_ns),
        clock.normalize(k.end_ns),
    ) {
        (Ok(call_start_ns), Ok(call_end_ns), Ok(start_ns), Ok(end_ns)) => {
            if call.return_value != 0 || call_end_ns < call_start_ns || end_ns <= start_ns {
                return SuffixPlacement::InvalidInterval;
            }
            match step_for_packed_timestamp(call_start_ns, steps, timeline) {
                None => SuffixPlacement::Unassigned,
                Some(step) => if !holds_index(suffix, step) {
                    SuffixPlacement::OutsideSuffix
                } else {
                    SuffixPlacement::InStep {
                        step,
                        call_start_ns,
                        call_end_ns,
                        start_ns,
                        end_ns,
                        wrong_process: call.process != steps[step].begin.pid,
                        wrong_geometry: k.grid.y != 1 || k.grid.z != 1 || k.grid.x
                            < steps[step].begin.scheduled_tokens || k.block.x == 0 || k.block.y == 0
                            || k.block.z == 0,
                    }
                },
            }
        },
        _ => SuffixPlacement::OutsideClock,
    }
}

// What the kernels of a step come to.

#[derive(Debug)]
pub struct SuffixAggregate {
    pub intervals: Vec<(u64, u64)>,
    pub runtime_first_ns: u64,
    pub runtime_last_ns: u64,
    pub streams: Vec<u32>,
    pub graph_nodes: u64,
    pub ordinary_kernels: u64,
    pub padding_blocks: u64,
}

#[verifier::ext_equal]
pub struct SuffixAggregateModel {
    pub intervals: Seq<(u64, u64)>,
    pub runtime_first_ns: u64,
    pub runtime_last_ns: u64,
    pub streams: Seq<u32>,
    pub graph_nodes: u64,
    pub ordinary_kernels: u64,
    pub padding_blocks: u64,
}

pub open spec fn suffix_aggregate_model(a: SuffixAggregate) -> SuffixAggregateModel {
    SuffixAggregateModel {
        intervals: a.intervals@,
        runtime_first_ns: a.runtime_first_ns,
        runtime_last_ns: a.runtime_last_ns,
        streams: a.streams@,
        graph_nodes: a.graph_nodes,
        ordinary_kernels: a.ordinary_kernels,
        padding_blocks: a.padding_blocks,
    }
}

pub open spec fn nothing() -> SuffixAggregateModel {
    SuffixAggregateModel {
        intervals: Seq::empty(),
        runtime_first_ns: 0,
        runtime_last_ns: 0,
        streams: Seq::empty(),
        graph_nodes: 0,
        ordinary_kernels: 0,
        padding_blocks: 0,
    }
}

pub open spec fn of_graph(k: KernelActivity) -> bool {
    k.graph_node_id != 0 || k.graph_id != 0
}

/// The aggregate with one more kernel. A first call at zero counts as none.
pub open spec fn with_activity(
    a: SuffixAggregateModel,
    k: KernelActivity,
    call: (u64, u64),
    interval: (u64, u64),
    scheduled_tokens: u32,
) -> SuffixAggregateModel {
    SuffixAggregateModel {
        intervals: a.intervals.push(interval),
        runtime_first_ns: if a.runtime_first_ns == 0 || call.0 < a.runtime_first_ns {
            call.0
        } else {
            a.runtime_first_ns
        },
        runtime_last_ns: if call.1 > a.runtime_last_ns {
            call.1
        } else {
            a.runtime_last_ns
        },
        streams: if a.streams.contains(k.stream) {
            a.streams
        } else {
            a.streams.push(k.stream)
        },
        graph_nodes: plus(a.graph_nodes, one_if(of_graph(k))),
        ordinary_kernels: plus(a.ordinary_kernels, one_if(!of_graph(k))),
        padding_blocks: plus(a.padding_blocks, k.grid.x - scheduled_tokens),
    }
}

/// What the kernels come to for the step.
pub open spec fn suffix_aggregate_of(
    kernels: Seq<KernelActivity>,
    join: SuffixJoin,
    i: int,
) -> SuffixAggregateModel
    decreases kernels.len(),
{
    if kernels.len() == 0 {
        nothing()
    } else {
        let before = suffix_aggregate_of(kernels.drop_last(), join, i);
        match suffix_placement(kernels.last(), join) {
            SuffixPlacement::InStep {
                step,
                call_start_ns,
                call_end_ns,
                start_ns,
                end_ns,
                wrong_geometry,
                ..
            } if step == i && !wrong_geometry => with_activity(
                before,
                kernels.last(),
                (call_start_ns, call_end_ns),
                (start_ns, end_ns),
                join.steps[i].begin.scheduled_tokens,
            ),
            _ => before,
        }
    }
}

/// How many kernels do not count, by reason, and how many ran for the wrong
/// process.
#[derive(Clone, Copy, Debug, PartialEq, Eq, Structural)]
pub struct SuffixCounts {
    pub unmatched_correlations: u64,
    pub unassigned_kernels: u64,
    pub kernels_outside_suffix: u64,
    pub runtime_pid_mismatches: u64,
    pub invalid_geometry: u64,
}

/// The counts with one more kernel.
pub open spec fn counted(c: SuffixCounts, placement: SuffixPlacement) -> SuffixCounts {
    match placement {
        SuffixPlacement::Unmatched => SuffixCounts {
            unmatched_correlations: plus(c.unmatched_correlations, 1),
            ..c
        },
        SuffixPlacement::Unassigned => SuffixCounts {
            unassigned_kernels: plus(c.unassigned_kernels, 1),
            ..c
        },
        SuffixPlacement::OutsideSuffix => SuffixCounts {
            kernels_outside_suffix: plus(c.kernels_outside_suffix, 1),
            ..c
        },
        SuffixPlacement::InStep { wrong_process, wrong_geometry, .. } => SuffixCounts {
            runtime_pid_mismatches: plus(c.runtime_pid_mismatches, one_if(wrong_process)),
            invalid_geometry: plus(c.invalid_geometry, one_if(wrong_geometry)),
            ..c
        },
        _ => c,
    }
}

pub open spec fn suffix_counts(kernels: Seq<KernelActivity>, join: SuffixJoin) -> SuffixCounts
    decreases kernels.len(),
{
    if kernels.len() == 0 {
        SuffixCounts {
            unmatched_correlations: 0,
            unassigned_kernels: 0,
            kernels_outside_suffix: 0,
            runtime_pid_mismatches: 0,
            invalid_geometry: 0,
        }
    } else {
        counted(
            suffix_counts(kernels.drop_last(), join),
            suffix_placement(kernels.last(), join),
        )
    }
}

/// What stops the join at the first kernel that cannot be timed.
pub open spec fn first_fault(kernels: Seq<KernelActivity>, join: SuffixJoin) -> Option<Seq<char>>
    decreases kernels.len(),
{
    if kernels.len() == 0 {
        None
    } else {
        match first_fault(kernels.drop_last(), join) {
            Some(fault) => Some(fault),
            None => match suffix_placement(kernels.last(), join) {
                SuffixPlacement::OutsideClock => Some(
                    "CUPTI activity timestamp lies outside calibration interval"@,
                ),
                SuffixPlacement::InvalidInterval => Some(
                    "CUPTI runtime or kernel interval is invalid"@,
                ),
                _ => None,
            },
        }
    }
}

proof fn first_fault_stays(kernels: Seq<KernelActivity>, join: SuffixJoin, n: int)
    requires
        0 <= n <= kernels.len(),
        first_fault(kernels.take(n), join) is Some,
    ensures
        first_fault(kernels, join) == first_fault(kernels.take(n), join),
    decreases kernels.len() - n,
{
    if n < kernels.len() {
        assert(kernels.take(n + 1).drop_last() =~= kernels.take(n));
        first_fault_stays(kernels, join, n + 1);
    } else {
        assert(kernels.take(n) =~= kernels);
    }
}

fn add_activity(
    a: &mut SuffixAggregate,
    k: &KernelActivity,
    call: (u64, u64),
    interval: (u64, u64),
    scheduled_tokens: u32,
)
    requires
        k.grid.x >= scheduled_tokens,
    ensures
        suffix_aggregate_model(*final(a)) == with_activity(
            suffix_aggregate_model(*old(a)),
            *k,
            call,
            interval,
            scheduled_tokens,
        ),
{
    a.intervals.push(interval);
    if a.runtime_first_ns == 0 || call.0 < a.runtime_first_ns {
        a.runtime_first_ns = call.0;
    }
    if call.1 > a.runtime_last_ns {
        a.runtime_last_ns = call.1;
    }
    let mut known = false;
    let mut i: usize = 0;
    while i < a.streams.len() && !known
        invariant
            i <= a.streams.len(),
            known ==> a.streams@.contains(k.stream),
            !known ==> forall|j: int| 0 <= j < i ==> #[trigger] a.streams@[j] != k.stream,
        decreases a.streams.len() - i,
    {
        if a.streams[i] == k.stream {
            assert(a.streams@[i as int] == k.stream);
            known = true;
        }
        i += 1;
    }
    if !known {
        a.streams.push(k.stream);
    }
    if k.graph_node_id != 0 || k.graph_id != 0 {
        a.graph_nodes = a.graph_nodes.saturating_add(1);
    } else {
        a.ordinary_kernels = a.ordinary_kernels.saturating_add(1);
    }
    a.padding_blocks = a.padding_blocks.saturating_add((k.grid.x - scheduled_tokens) as u64);
}

spec fn suffix_aggregates_are(
    aggregates: Seq<SuffixAggregate>,
    kernels: Seq<KernelActivity>,
    join: SuffixJoin,
) -> bool {
    &&& aggregates.len() == join.steps.len()
    &&& forall|i: int|
        0 <= i < aggregates.len() ==> suffix_aggregate_model(#[trigger] aggregates[i])
            == suffix_aggregate_of(kernels, join, i)
}

fn count_placement(c: &mut SuffixCounts, placement: &SuffixPlacement)
    ensures
        *final(c) == counted(*old(c), *placement),
{
    match placement {
        SuffixPlacement::Unmatched => {
            c.unmatched_correlations = c.unmatched_correlations.saturating_add(1);
        },
        SuffixPlacement::Unassigned => {
            c.unassigned_kernels = c.unassigned_kernels.saturating_add(1);
        },
        SuffixPlacement::OutsideSuffix => {
            c.kernels_outside_suffix = c.kernels_outside_suffix.saturating_add(1);
        },
        SuffixPlacement::InStep { wrong_process, wrong_geometry, .. } => {
            if *wrong_process {
                c.runtime_pid_mismatches = c.runtime_pid_mismatches.saturating_add(1);
            }
            if *wrong_geometry {
                c.invalid_geometry = c.invalid_geometry.saturating_add(1);
            }
        },
        _ => {},
    }
}

fn gather_suffix(
    kernels: &[KernelActivity],
    steps: &[TraceStep],
    timeline: &[TimelineEntry],
    suffix: &Vec<usize>,
    calls: &[ApiActivity],
    index: &IdIndex,
    clock: ClockMap,
) -> (r: Result<(Vec<SuffixAggregate>, SuffixCounts), &'static str>)
    requires
        timeline_fits(timeline@, steps@),
        indexes_calls(*index, calls@),
        !calls_repeat(calls@),
    ensures
        ({
            let join = SuffixJoin {
                steps: steps@,
                timeline: timeline@,
                suffix: suffix@,
                calls: calls@,
                clock,
            };
            match (r, first_fault(kernels@, join)) {
                (Ok((aggregates, counts)), None) => suffix_aggregates_are(
                    aggregates@,
                    kernels@,
                    join,
                ) && counts == suffix_counts(kernels@, join),
                (Err(error), Some(fault)) => error@ == fault,
                _ => false,
            }
        }),
{
    let ghost join = SuffixJoin {
        steps: steps@,
        timeline: timeline@,
        suffix: suffix@,
        calls: calls@,
        clock,
    };
    let mut aggregates: Vec<SuffixAggregate> = Vec::new();
    let mut i: usize = 0;
    while i < steps.len()
        invariant
            i <= steps.len(),
            aggregates@.len() == i,
            forall|k: int|
                0 <= k < i ==> suffix_aggregate_model(#[trigger] aggregates@[k]) == nothing(),
        decreases steps.len() - i,
    {
        let empty = SuffixAggregate {
            intervals: Vec::new(),
            runtime_first_ns: 0,
            runtime_last_ns: 0,
            streams: Vec::new(),
            graph_nodes: 0,
            ordinary_kernels: 0,
            padding_blocks: 0,
        };
        assert(suffix_aggregate_model(empty) =~= nothing());
        aggregates.push(empty);
        i += 1;
    }
    let mut counts = SuffixCounts {
        unmatched_correlations: 0,
        unassigned_kernels: 0,
        kernels_outside_suffix: 0,
        runtime_pid_mismatches: 0,
        invalid_geometry: 0,
    };
    let mut n: usize = 0;
    assert(kernels@.take(0) =~= Seq::<KernelActivity>::empty());
    while n < kernels.len()
        invariant
            n <= kernels.len(),
            join == (SuffixJoin {
                steps: steps@,
                timeline: timeline@,
                suffix: suffix@,
                calls: calls@,
                clock,
            }),
            timeline_fits(timeline@, steps@),
            indexes_calls(*index, calls@),
            !calls_repeat(calls@),
            first_fault(kernels@.take(n as int), join) is None,
            suffix_aggregates_are(aggregates@, kernels@.take(n as int), join),
            counts == suffix_counts(kernels@.take(n as int), join),
        decreases kernels.len() - n,
    {
        let kernel = kernels[n];
        let ghost front = kernels@.take(n as int);
        let ghost next = kernels@.take(n + 1);
        let ghost before = aggregates@;
        proof {
            assert(next.drop_last() =~= front);
            assert(next.last() == kernel);
            if first_fault(next, join) is Some {
                first_fault_stays(kernels@, join, n + 1);
            }
        }
        let placement = place_in_suffix(&kernel, steps, timeline, suffix, calls, index, clock);
        count_placement(&mut counts, &placement);
        match placement {
            SuffixPlacement::OutsideClock => {
                return Err("CUPTI activity timestamp lies outside calibration interval");
            },
            SuffixPlacement::InvalidInterval => {
                return Err("CUPTI runtime or kernel interval is invalid");
            },
            SuffixPlacement::InStep {
                step,
                call_start_ns,
                call_end_ns,
                start_ns,
                end_ns,
                wrong_geometry,
                ..
            } => {
                assert(suffix_aggregate_model(before[step as int]) == suffix_aggregate_of(
                    front,
                    join,
                    step as int,
                ));
                if !wrong_geometry {
                    add_activity(
                        &mut aggregates[step],
                        &kernel,
                        (call_start_ns, call_end_ns),
                        (start_ns, end_ns),
                        steps[step].begin.scheduled_tokens,
                    );
                }
            },
            _ => {},
        }
        proof {
            assert forall|k: int| 0 <= k < aggregates@.len() implies suffix_aggregate_model(
                #[trigger] aggregates@[k],
            ) == suffix_aggregate_of(next, join, k) by {
                assert(suffix_aggregate_model(before[k]) == suffix_aggregate_of(front, join, k));
            }
        }
        n += 1;
    }
    assert(kernels@.take(kernels@.len() as int) =~= kernels@);
    Ok((aggregates, counts))
}

// Rows.

/// The first start of the stretches, or zero.
pub open spec fn earliest_start(intervals: Seq<(u64, u64)>) -> u64
    decreases intervals.len(),
{
    if intervals.len() == 0 {
        0
    } else {
        let before = earliest_start(intervals.drop_last());
        if intervals.len() == 1 || intervals.last().0 < before {
            intervals.last().0
        } else {
            before
        }
    }
}

/// The last end of the stretches, or zero.
pub open spec fn last_end(intervals: Seq<(u64, u64)>) -> u64
    decreases intervals.len(),
{
    if intervals.len() == 0 {
        0
    } else {
        let before = last_end(intervals.drop_last());
        if intervals.last().1 > before {
            intervals.last().1
        } else {
            before
        }
    }
}

fn find_bounds(intervals: &Vec<(u64, u64)>) -> (r: (u64, u64))
    ensures
        r.0 == earliest_start(intervals@),
        r.1 == last_end(intervals@),
{
    let mut first: u64 = 0;
    let mut last: u64 = 0;
    let mut i: usize = 0;
    assert(intervals@.take(0) =~= Seq::<(u64, u64)>::empty());
    while i < intervals.len()
        invariant
            i <= intervals.len(),
            first == earliest_start(intervals@.take(i as int)),
            last == last_end(intervals@.take(i as int)),
        decreases intervals.len() - i,
    {
        assert(intervals@.take(i + 1).drop_last() =~= intervals@.take(i as int));
        if i == 0 || intervals[i].0 < first {
            first = intervals[i].0;
        }
        if intervals[i].1 > last {
            last = intervals[i].1;
        }
        i += 1;
    }
    assert(intervals@.take(intervals@.len() as int) =~= intervals@);
    (first, last)
}

/// The measures of one decode step.
#[derive(Clone, Copy, Debug, PartialEq, Eq, Structural)]
pub struct SuffixRow {
    pub step_id: u64,
    pub packing_generation: u64,
    pub scheduled_tokens: u32,
    pub decode_tokens: u32,
    pub requests: usize,
    pub kernels: usize,
    pub graph_kernels: u64,
    pub ordinary_kernels: u64,
    pub streams: usize,
    pub runtime_submit_span_ns: u64,
    pub kernel_sum_ns: u64,
    pub busy_union_ns: u64,
    pub overlap_ns: u64,
    pub first_gpu_lag_ns: i128,
    pub gpu_tail_to_step_end_ns: i128,
    pub padding_blocks: u64,
    pub reordered_positions: u64,
}

/// The measures of a decode step, unless its kernels ran too long to add up.
pub open spec fn suffix_row(step: TraceStep, a: SuffixAggregateModel) -> Option<SuffixRow> {
    let sum = duration_total(ints(a.intervals));
    let busy = union_length(ints(a.intervals)) as int;
    let packed = step.packed_begin->0;
    if sum > u64::MAX {
        None
    } else {
        Some(
            SuffixRow {
                step_id: step.begin.step_id,
                packing_generation: packed.sequence_id,
                scheduled_tokens: step.begin.scheduled_tokens,
                decode_tokens: step.begin.decode_tokens,
                requests: step.owner_count,
                kernels: a.intervals.len() as usize,
                graph_kernels: a.graph_nodes,
                ordinary_kernels: a.ordinary_kernels,
                streams: a.streams.len() as usize,
                runtime_submit_span_ns: excess(a.runtime_last_ns as int, a.runtime_first_ns as int),
                kernel_sum_ns: sum as u64,
                busy_union_ns: busy as u64,
                overlap_ns: excess(sum, busy),
                first_gpu_lag_ns: (earliest_start(a.intervals) - packed.timestamp_ns) as i128,
                gpu_tail_to_step_end_ns: (step.end_timestamp_ns - last_end(a.intervals)) as i128,
                padding_blocks: a.padding_blocks,
                reordered_positions: step.scheduler_order_mismatches,
            },
        )
    }
}

/// Whether every stretch has a length.
pub open spec fn all_last(intervals: Seq<(u64, u64)>) -> bool {
    forall|i: int| 0 <= i < intervals.len() ==> (#[trigger] intervals[i]).0 < intervals[i].1
}

proof fn suffix_aggregates_last(kernels: Seq<KernelActivity>, join: SuffixJoin, i: int)
    ensures
        all_last(suffix_aggregate_of(kernels, join, i).intervals),
    decreases kernels.len(),
{
    if kernels.len() > 0 {
        suffix_aggregates_last(kernels.drop_last(), join, i);
        let k = kernels.last();
        if let SuffixPlacement::InStep { .. } = suffix_placement(k, join) {
            crate::clock::mapped_is_inside(join.clock, k.start_ns);
            crate::clock::mapped_is_inside(join.clock, k.end_ns);
        }
    }
}

fn measure_suffix_step(step: &TraceStep, a: &SuffixAggregate) -> (r: Option<SuffixRow>)
    requires
        step.packed_begin is Some,
        all_last(a.intervals@),
    ensures
        r == suffix_row(*step, suffix_aggregate_model(*a)),
{
    let (packed_ns, packing_generation): (u64, u64) = match step.packed_begin {
        Some(packed) => (packed.timestamp_ns, packed.sequence_id),
        None => (0, 0),
    };
    let kernel_sum_ns: u64 = match duration_sum(a.intervals.as_slice()) {
        Ok(sum) => sum,
        Err(_) => {
            return None;
        },
    };
    let busy_union_ns: u64 = busy_union(&a.intervals);
    let (first, last): (u64, u64) = find_bounds(&a.intervals);
    Some(
        SuffixRow {
            step_id: step.begin.step_id,
            packing_generation,
            scheduled_tokens: step.begin.scheduled_tokens,
            decode_tokens: step.begin.decode_tokens,
            requests: step.owner_count,
            kernels: a.intervals.len(),
            graph_kernels: a.graph_nodes,
            ordinary_kernels: a.ordinary_kernels,
            streams: a.streams.len(),
            runtime_submit_span_ns: a.runtime_last_ns.saturating_sub(a.runtime_first_ns),
            kernel_sum_ns,
            busy_union_ns,
            overlap_ns: kernel_sum_ns.saturating_sub(busy_union_ns),
            first_gpu_lag_ns: first as i128 - packed_ns as i128,
            gpu_tail_to_step_end_ns: step.end_timestamp_ns as i128 - last as i128,
            padding_blocks: a.padding_blocks,
            reordered_positions: step.scheduler_order_mismatches,
        },
    )
}

// Requests.

/// The blocks that ran for one request in one step, by the rows that it owns.
#[derive(Clone, Copy, Debug, PartialEq, Eq, Structural)]
pub struct OwnerRow {
    pub owner: OwnershipSlice,
    pub inferred_blocks: u128,
    pub mismatch: bool,
}

pub open spec fn owner_row(owner: OwnershipSlice, kernels: nat) -> OwnerRow {
    OwnerRow {
        owner,
        inferred_blocks: (owner.scheduled_tokens * kernels) as u128,
        mismatch: !owner.authoritative || owner.scheduled_tokens * kernels != (owner.row_end
            - owner.row_begin) * kernels,
    }
}

pub open spec fn owner_rows(owners: Seq<OwnershipSlice>, kernels: nat) -> Seq<OwnerRow> {
    owners.map_values(|owner: OwnershipSlice| owner_row(owner, kernels))
}

pub open spec fn owner_mismatches(owners: Seq<OwnershipSlice>, kernels: nat) -> nat
    decreases owners.len(),
{
    if owners.len() == 0 {
        0
    } else {
        owner_mismatches(owners.drop_last(), kernels) + if owner_row(
            owners.last(),
            kernels,
        ).mismatch {
            1nat
        } else {
            0
        }
    }
}

fn build_owner_row(owner: &OwnershipSlice, kernels: usize) -> (r: OwnerRow)
    ensures
        r == owner_row(*owner, kernels as nat),
{
    proof {
        assert(owner.scheduled_tokens * kernels <= u32::MAX * u64::MAX) by (nonlinear_arith)
            requires
                0 <= owner.scheduled_tokens <= u32::MAX,
                0 <= kernels <= u64::MAX,
        ;
        let rows = owner.row_end - owner.row_begin;
        assert(-(u32::MAX * u64::MAX) <= rows * kernels <= u32::MAX * u64::MAX)
            by (nonlinear_arith)
            requires
                -(u32::MAX as int) <= rows <= u32::MAX,
                0 <= kernels <= u64::MAX,
        ;
    }
    let inferred: i128 = owner.scheduled_tokens as i128 * kernels as i128;
    let rows: i128 = owner.row_end as i128 - owner.row_begin as i128;
    OwnerRow {
        owner: *owner,
        inferred_blocks: inferred as u128,
        mismatch: !owner.authoritative || inferred != rows * kernels as i128,
    }
}

fn add_owner_rows(rows: &mut Vec<OwnerRow>, owners: &[OwnershipSlice], kernels: usize) -> (r: usize)
    ensures
        final(rows)@ == old(rows)@ + owner_rows(owners@, kernels as nat),
        r == owner_mismatches(owners@, kernels as nat),
{
    let ghost all = owner_rows(owners@, kernels as nat);
    let mut mismatches: usize = 0;
    let mut i: usize = 0;
    assert(rows@ + all.take(0) =~= rows@);
    assert(owners@.take(0) =~= Seq::<OwnershipSlice>::empty());
    while i < owners.len()
        invariant
            i <= owners.len(),
            all == owner_rows(owners@, kernels as nat),
            rows@ == old(rows)@ + all.take(i as int),
            mismatches == owner_mismatches(owners@.take(i as int), kernels as nat),
            mismatches <= i,
        decreases owners.len() - i,
    {
        proof {
            assert(owners@.take(i + 1).drop_last() =~= owners@.take(i as int));
            assert(all.take(i + 1) =~= all.take(i as int).push(all[i as int]));
        }
        let row = build_owner_row(&owners[i], kernels);
        if row.mismatch {
            mismatches = mismatches + 1;
        }
        rows.push(row);
        assert(rows@ =~= old(rows)@ + all.take(i + 1));
        i += 1;
    }
    assert(all.take(all.len() as int) =~= all);
    assert(owners@.take(owners@.len() as int) =~= owners@);
    mismatches
}

// All decode steps.

#[derive(Clone, Copy, Debug, PartialEq, Eq, Structural)]
pub struct SuffixTotals {
    pub selected_reordered_steps: u64,
    pub kernel_count_mismatches: u64,
    pub request_count_mismatches: u64,
    pub selected_kernels: u64,
    pub kernel_sum_ns: u64,
    pub busy_union_ns: u64,
    pub padding_blocks: u64,
    pub graph_kernels: u64,
    pub ordinary_kernels: u64,
}

#[verifier::ext_equal]
pub struct SuffixModel {
    pub rows: Seq<SuffixRow>,
    pub owners: Seq<OwnerRow>,
    pub totals: SuffixTotals,
}

/// The owners of a step.
pub open spec fn owners_of(trace: SemanticTrace, i: int) -> Seq<OwnershipSlice> {
    let step = trace.steps@[i];
    trace.owners@.subrange(step.owner_start as int, step.owner_start + step.owner_count)
}

/// What the decode steps come to with one more.
pub open spec fn with_suffix_step(
    model: SuffixModel,
    trace: SemanticTrace,
    i: int,
    a: SuffixAggregateModel,
    expected_kernels: usize,
) -> Result<SuffixModel, Seq<char>> {
    let t = model.totals;
    let step = trace.steps@[i];
    let owners = owners_of(trace, i);
    let kernels = a.intervals.len();
    match suffix_row(step, a) {
        None => Err("kernel duration sum overflow"@),
        Some(row) => if t.kernel_sum_ns + row.kernel_sum_ns > u64::MAX {
            Err("total kernel sum overflow"@)
        } else if t.busy_union_ns + row.busy_union_ns > u64::MAX {
            Err("total busy union overflow"@)
        } else {
            Ok(
                SuffixModel {
                    rows: model.rows.push(row),
                    owners: model.owners + owner_rows(owners, kernels),
                    totals: SuffixTotals {
                        selected_reordered_steps: plus(
                            t.selected_reordered_steps,
                            one_if(step.scheduler_order_mismatches != 0),
                        ),
                        kernel_count_mismatches: plus(
                            t.kernel_count_mismatches,
                            one_if(kernels != expected_kernels),
                        ),
                        request_count_mismatches: plus(
                            t.request_count_mismatches,
                            owner_mismatches(owners, kernels) as int,
                        ),
                        selected_kernels: plus(t.selected_kernels, kernels as int),
                        kernel_sum_ns: (t.kernel_sum_ns + row.kernel_sum_ns) as u64,
                        busy_union_ns: (t.busy_union_ns + row.busy_union_ns) as u64,
                        padding_blocks: plus(t.padding_blocks, a.padding_blocks as int),
                        graph_kernels: plus(t.graph_kernels, a.graph_nodes as int),
                        ordinary_kernels: plus(t.ordinary_kernels, a.ordinary_kernels as int),
                    },
                },
            )
        },
    }
}

pub open spec fn no_totals() -> SuffixTotals {
    SuffixTotals {
        selected_reordered_steps: 0,
        kernel_count_mismatches: 0,
        request_count_mismatches: 0,
        selected_kernels: 0,
        kernel_sum_ns: 0,
        busy_union_ns: 0,
        padding_blocks: 0,
        graph_kernels: 0,
        ordinary_kernels: 0,
    }
}

/// What the first decode steps come to.
pub open spec fn suffix_model(
    trace: SemanticTrace,
    kernels: Seq<KernelActivity>,
    join: SuffixJoin,
    expected_kernels: usize,
    n: int,
) -> Result<SuffixModel, Seq<char>>
    decreases n,
{
    if n <= 0 {
        Ok(SuffixModel { rows: Seq::empty(), owners: Seq::empty(), totals: no_totals() })
    } else {
        match suffix_model(trace, kernels, join, expected_kernels, n - 1) {
            Err(error) => Err(error),
            Ok(model) => {
                let i = join.suffix[n - 1] as int;
                with_suffix_step(
                    model,
                    trace,
                    i,
                    suffix_aggregate_of(kernels, join, i),
                    expected_kernels,
                )
            },
        }
    }
}

proof fn suffix_failure_stays(
    trace: SemanticTrace,
    kernels: Seq<KernelActivity>,
    join: SuffixJoin,
    expected_kernels: usize,
    n: int,
    count: int,
)
    requires
        0 <= n <= count,
        suffix_model(trace, kernels, join, expected_kernels, n) is Err,
    ensures
        suffix_model(trace, kernels, join, expected_kernels, count) == suffix_model(
            trace,
            kernels,
            join,
            expected_kernels,
            n,
        ),
    decreases count - n,
{
    if n < count {
        suffix_failure_stays(trace, kernels, join, expected_kernels, n, count - 1);
    }
}

/// The outcome of the join.
#[derive(Debug)]
pub struct CuptiJoinReport {
    pub rows: Vec<SuffixRow>,
    pub owners: Vec<OwnerRow>,
    pub totals: SuffixTotals,
    pub counts: SuffixCounts,
    pub clock_offset_drift_ns: i128,
    pub passed: bool,
}

fn add_suffix_step(
    report: &mut CuptiJoinReport,
    trace: &SemanticTrace,
    i: usize,
    a: &SuffixAggregate,
    expected_kernels: usize,
) -> (r: Result<(), String>)
    requires
        trace.wf(),
        i < trace.steps@.len(),
        trace.steps@[i as int].packed_begin is Some,
        all_last(a.intervals@),
    ensures
        final(report).counts == old(report).counts,
        final(report).clock_offset_drift_ns == old(report).clock_offset_drift_ns,
        match (
            r,
            with_suffix_step(
                (SuffixModel {
                    rows: old(report).rows@,
                    owners: old(report).owners@,
                    totals: old(report).totals,
                }),
                *trace,
                i as int,
                suffix_aggregate_model(*a),
                expected_kernels,
            ),
        ) {
            (Ok(_), Ok(model)) => final(report).rows@ == model.rows && final(report).owners@
                == model.owners && final(report).totals == model.totals,
            (Err(error), Err(expected)) => error@ == expected,
            _ => false,
        },
{
    let step = &trace.steps[i];
    let row = match measure_suffix_step(step, a) {
        Some(row) => row,
        None => {
            return Err("kernel duration sum overflow".to_owned());
        },
    };
    let t = report.totals;
    let kernel_sum_ns: u64 = match t.kernel_sum_ns.checked_add(row.kernel_sum_ns) {
        Some(sum) => sum,
        None => {
            return Err("total kernel sum overflow".to_owned());
        },
    };
    let busy_union_ns: u64 = match t.busy_union_ns.checked_add(row.busy_union_ns) {
        Some(sum) => sum,
        None => {
            return Err("total busy union overflow".to_owned());
        },
    };
    assert(trace.steps@[i as int].owner_start + trace.steps@[i as int].owner_count
        <= trace.owners.len());
    let owners = slice_subrange(
        trace.owners.as_slice(),
        step.owner_start,
        step.owner_start + step.owner_count,
    );
    let mismatches: usize = add_owner_rows(&mut report.owners, owners, a.intervals.len());
    report.totals = SuffixTotals {
        selected_reordered_steps: if step.scheduler_order_mismatches != 0 {
            t.selected_reordered_steps.saturating_add(1)
        } else {
            t.selected_reordered_steps
        },
        kernel_count_mismatches: if a.intervals.len() != expected_kernels {
            t.kernel_count_mismatches.saturating_add(1)
        } else {
            t.kernel_count_mismatches
        },
        request_count_mismatches: t.request_count_mismatches.saturating_add(mismatches as u64),
        selected_kernels: t.selected_kernels.saturating_add(a.intervals.len() as u64),
        kernel_sum_ns,
        busy_union_ns,
        padding_blocks: t.padding_blocks.saturating_add(a.padding_blocks),
        graph_kernels: t.graph_kernels.saturating_add(a.graph_nodes),
        ordinary_kernels: t.ordinary_kernels.saturating_add(a.ordinary_kernels),
    };
    report.rows.push(row);
    Ok(())
}

pub open spec fn join_gate_words(error: GateError, quality: CuptiQuality) -> Seq<char> {
    match error {
        GateError::PackedLayout => "semantic packed-layout gate failed"@,
        GateError::EmptyTrace => "CUPTI kernel or runtime trace is empty"@,
        GateError::Quality => quality_words(quality, "runtime_records"@, "runtime_drops"@),
        GateError::Clock => "CUPTI clock calibration is invalid"@,
    }
}

fn join_gate_text(error: GateError, quality: &CuptiQuality) -> (r: String)
    ensures
        r@ == join_gate_words(error, *quality),
{
    match error {
        GateError::PackedLayout => "semantic packed-layout gate failed".to_owned(),
        GateError::EmptyTrace => "CUPTI kernel or runtime trace is empty".to_owned(),
        GateError::Quality => quality_text(quality, "runtime_records", "runtime_drops"),
        GateError::Clock => "CUPTI clock calibration is invalid".to_owned(),
    }
}

/// What the kernels are joined with, where the trace has a timeline and a
/// decode suffix.
pub open spec fn suffix_join_of(
    trace: SemanticTrace,
    calls: Seq<ApiActivity>,
    clock: ClockMap,
) -> SuffixJoin {
    SuffixJoin {
        steps: trace.steps@,
        timeline: timeline_of(trace.steps@)->Ok_0,
        suffix: suffix_of(trace.steps@)->Ok_0,
        calls,
        clock,
    }
}

/// Why the join fails, if it does.
pub open spec fn join_failure(
    trace: SemanticTrace,
    kernels: Seq<KernelActivity>,
    calls: Seq<ApiActivity>,
    quality: CuptiQuality,
    clock: ClockMap,
    expected_kernels: usize,
) -> Option<Seq<char>> {
    match refusing_gate(trace.complete(), kernels.len(), calls.len(), quality, clock) {
        Some(error) => Some(join_gate_words(error, quality)),
        None => if calls_repeat(calls) {
            Some("CUPTI runtime correlation IDs are not unique"@)
        } else {
            match (timeline_of(trace.steps@), suffix_of(trace.steps@)) {
                (Err(error), _) => Some(timeline_words(error)),
                (Ok(_), Err(error)) => Some(error),
                (Ok(_), Ok(suffix)) => {
                    let join = suffix_join_of(trace, calls, clock);
                    let ordered = arranged(kernels);
                    match first_fault(ordered, join) {
                        Some(fault) => Some(fault),
                        None => match suffix_model(
                            trace,
                            ordered,
                            join,
                            expected_kernels,
                            suffix.len() as int,
                        ) {
                            Err(error) => Some(error),
                            Ok(_) => None,
                        },
                    }
                },
            }
        },
    }
}

pub open spec fn join_report_is(
    report: CuptiJoinReport,
    trace: SemanticTrace,
    kernels: Seq<KernelActivity>,
    calls: Seq<ApiActivity>,
    clock: ClockMap,
    expected_kernels: usize,
    require_reordering: bool,
) -> bool {
    let join = suffix_join_of(trace, calls, clock);
    let ordered = arranged(kernels);
    let model = suffix_model(
        trace,
        ordered,
        join,
        expected_kernels,
        join.suffix.len() as int,
    )->Ok_0;
    let counts = suffix_counts(ordered, join);
    &&& report.rows@ == model.rows
    &&& report.owners@ == model.owners
    &&& report.totals == model.totals
    &&& report.counts == counts
    &&& report.clock_offset_drift_ns == (clock.end.monotonic_ns - clock.end.cupti_ns) - (
    clock.start.monotonic_ns - clock.start.cupti_ns)
    &&& report.passed == (counts.unmatched_correlations == 0 && counts.unassigned_kernels == 0
        && counts.runtime_pid_mismatches == 0 && counts.invalid_geometry == 0
        && model.totals.kernel_count_mismatches == 0 && model.totals.request_count_mismatches == 0
        && (!require_reordering || model.totals.selected_reordered_steps != 0))
}

/// Joins the kernels of a filtered capture with the decode steps of a trace.
#[verifier::rlimit(30)]
pub fn join_cupti(
    trace: &SemanticTrace,
    kernels: &[KernelActivity],
    calls: &[ApiActivity],
    quality: &CuptiQuality,
    clock: ClockMap,
    expected_kernels: usize,
    require_reordering: bool,
) -> (r: Result<CuptiJoinReport, String>)
    requires
        trace.wf(),
    ensures
        match (r, join_failure(*trace, kernels@, calls@, *quality, clock, expected_kernels)) {
            (Ok(report), None) => join_report_is(
                report,
                *trace,
                kernels@,
                calls@,
                clock,
                expected_kernels,
                require_reordering,
            ),
            (Err(error), Some(expected)) => error@ == expected,
            _ => false,
        },
{
    if let Err(error) = validate_inputs(
        trace.is_complete(),
        kernels.len(),
        calls.len(),
        quality,
        &clock,
    ) {
        return Err(join_gate_text(error, quality));
    }
    let index = match index_calls(calls) {
        Some(index) => index,
        None => {
            return Err("CUPTI runtime correlation IDs are not unique".to_owned());
        },
    };
    let steps = trace.steps.as_slice();
    let timeline = match packed_timeline(steps) {
        Ok(timeline) => timeline,
        Err(error) => {
            return Err(timeline_text(error).to_owned());
        },
    };
    let suffix = match decode_suffix(steps) {
        Ok(suffix) => suffix,
        Err(error) => {
            return Err(error.to_owned());
        },
    };
    let ghost join = suffix_join_of(*trace, calls@, clock);
    let ordered = arranged_copy(kernels);
    let (aggregates, counts) = match gather_suffix(
        ordered.as_slice(),
        steps,
        timeline.as_slice(),
        &suffix,
        calls,
        &index,
        clock,
    ) {
        Ok(gathered) => gathered,
        Err(fault) => {
            return Err(fault.to_owned());
        },
    };
    let mut report = CuptiJoinReport {
        rows: Vec::new(),
        owners: Vec::new(),
        totals: SuffixTotals {
            selected_reordered_steps: 0,
            kernel_count_mismatches: 0,
            request_count_mismatches: 0,
            selected_kernels: 0,
            kernel_sum_ns: 0,
            busy_union_ns: 0,
            padding_blocks: 0,
            graph_kernels: 0,
            ordinary_kernels: 0,
        },
        counts,
        clock_offset_drift_ns: clock.offset_drift_ns(),
        passed: false,
    };
    let mut n: usize = 0;
    while n < suffix.len()
        invariant
            n <= suffix.len(),
            trace.wf(),
            steps@ == trace.steps@,
            join == suffix_join_of(*trace, calls@, clock),
            join.suffix == suffix@,
            join.steps == trace.steps@,
            timeline_of(trace.steps@) is Ok,
            forall|k: int| 0 <= k < suffix@.len() ==> (#[trigger] suffix@[k]) < trace.steps@.len(),
            suffix_aggregates_are(aggregates@, ordered@, join),
            report.counts == counts,
            report.clock_offset_drift_ns == (clock.end.monotonic_ns - clock.end.cupti_ns) - (
            clock.start.monotonic_ns - clock.start.cupti_ns),
            suffix_model(*trace, ordered@, join, expected_kernels, n as int) == Ok::<
                SuffixModel,
                Seq<char>,
            >(
                (SuffixModel {
                    rows: report.rows@,
                    owners: report.owners@,
                    totals: report.totals,
                }),
            ),
            join_failure(*trace, kernels@, calls@, *quality, clock, expected_kernels)
                == match suffix_model(
                *trace,
                ordered@,
                join,
                expected_kernels,
                suffix@.len() as int,
            ) {
                Err(error) => Some(error),
                Ok(_) => None,
            },
        decreases suffix.len() - n,
    {
        let i: usize = suffix[n];
        proof {
            if suffix_model(*trace, ordered@, join, expected_kernels, n + 1) is Err {
                suffix_failure_stays(
                    *trace,
                    ordered@,
                    join,
                    expected_kernels,
                    n + 1,
                    suffix@.len() as int,
                );
            }
            assert(suffix@[n as int] < trace.steps@.len());
            suffix_aggregates_last(ordered@, join, i as int);
            assert(suffix_aggregate_model(aggregates@[i as int]) == suffix_aggregate_of(
                ordered@,
                join,
                i as int,
            ));
            assert(trace.steps@[i as int].packed_begin is Some);
        }
        add_suffix_step(&mut report, trace, i, &aggregates[i], expected_kernels)?;
        n += 1;
    }
    report.passed = counts.unmatched_correlations == 0 && counts.unassigned_kernels == 0
        && counts.runtime_pid_mismatches == 0 && counts.invalid_geometry == 0
        && report.totals.kernel_count_mismatches == 0 && report.totals.request_count_mismatches == 0
        && (!require_reordering || report.totals.selected_reordered_steps != 0);
    Ok(report)
}

/// Whether the arguments of the join are in range.
pub fn join_arguments_valid(expected_kernels: usize, decode_suffix: bool) -> (r: bool)
    ensures
        r == (1 <= expected_kernels <= 8192 && decode_suffix),
{
    expected_kernels >= 1 && expected_kernels <= 8192 && decode_suffix
}

proof fn owners_without_mismatch(owners: Seq<OwnershipSlice>, kernels: nat, k: int)
    requires
        owner_mismatches(owners, kernels) == 0,
        0 <= k < owners.len(),
    ensures
        !owner_row(owners[k], kernels).mismatch,
    decreases owners.len(),
{
    if k < owners.len() - 1 {
        owners_without_mismatch(owners.drop_last(), kernels, k);
    }
}

/// Where a join counts no mismatch, each decode step ran exactly the kernels
/// that were expected, and its row says so.
pub proof fn steps_run_the_expected_kernels(
    trace: SemanticTrace,
    kernels: Seq<KernelActivity>,
    join: SuffixJoin,
    expected_kernels: usize,
    n: int,
    m: int,
)
    requires
        0 <= m < n,
        suffix_model(trace, kernels, join, expected_kernels, n) is Ok,
        (suffix_model(
            trace,
            kernels,
            join,
            expected_kernels,
            n,
        )->Ok_0).totals.kernel_count_mismatches == 0,
    ensures
        suffix_aggregate_of(kernels, join, join.suffix[m] as int).intervals.len()
            == expected_kernels,
        (suffix_model(trace, kernels, join, expected_kernels, n)->Ok_0).rows.len() == n,
        (suffix_model(trace, kernels, join, expected_kernels, n)->Ok_0).rows[m].kernels
            == expected_kernels,
    decreases n,
{
    if n > 1 {
        let before = if m < n - 1 {
            m
        } else {
            0
        };
        steps_run_the_expected_kernels(trace, kernels, join, expected_kernels, n - 1, before);
    } else {
        let none = suffix_model(trace, kernels, join, expected_kernels, 0);
        assert((none->Ok_0).rows.len() == 0);
    }
}

/// Where a join counts no mismatch, the rows that each owner holds in a decode
/// step are authoritative, and as many as the tokens that it had scheduled.
pub proof fn owners_hold_their_tokens(
    trace: SemanticTrace,
    kernels: Seq<KernelActivity>,
    join: SuffixJoin,
    expected_kernels: usize,
    n: int,
    m: int,
    k: int,
)
    requires
        0 <= m < n,
        expected_kernels > 0,
        suffix_model(trace, kernels, join, expected_kernels, n) is Ok,
        ({
            let totals = (suffix_model(trace, kernels, join, expected_kernels, n)->Ok_0).totals;
            totals.kernel_count_mismatches == 0 && totals.request_count_mismatches == 0
        }),
        0 <= k < owners_of(trace, join.suffix[m] as int).len(),
    ensures
        ({
            let owner = owners_of(trace, join.suffix[m] as int)[k];
            owner.authoritative && owner.scheduled_tokens == owner.row_end - owner.row_begin
        }),
    decreases n,
{
    if m < n - 1 {
        owners_hold_their_tokens(trace, kernels, join, expected_kernels, n - 1, m, k);
    } else {
        steps_run_the_expected_kernels(trace, kernels, join, expected_kernels, n, m);
        let owners = owners_of(trace, join.suffix[m] as int);
        owners_without_mismatch(owners, expected_kernels as nat, k);
        let owner = owners[k];
        let tokens = owner.scheduled_tokens as int;
        let rows = owner.row_end - owner.row_begin;
        assert(tokens == rows) by (nonlinear_arith)
            requires
                expected_kernels > 0,
                tokens * expected_kernels == rows * expected_kernels,
        ;
    }
}

} // verus!
