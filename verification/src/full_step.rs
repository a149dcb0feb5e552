//! Full-step analysis: the kernels of a capture, joined with the engine steps
//! whose calls launched them.
//!
//! A kernel belongs to the step in whose packed window the call that launched
//! it began. Kernel times are normalized onto the clock of the steps.

use crate::clock::ClockMap;
use crate::cupti::{
    call_with, calls_repeat, find_call, index_calls, indexes_calls, phase_label, phase_of,
    quality_text, quality_words, refusing_gate, validate_inputs, ApiActivity, CuptiQuality,
    FamilyActivity, GateError, KernelFamily, StepPhase, FAMILY_COUNT,
};
use crate::index::IdIndex;
use crate::intervals::{
    covered, duration_sum, duration_total, interval_union, ints, sorted_is_measurable,
    union_is_at_most_span, union_is_at_most_total, union_length,
};
use crate::order::{arrange, arranged, arranged_copy, arrangement_exists, arranges, Keyed};
use crate::ownership::{
    entries_until, packed_timeline, step_for_packed_timestamp, step_in_window, timeline_fits, timeline_of,
    SemanticTrace, TimelineEntry, TimelineError, TraceStep,
};
use vstd::prelude::*;
use vstd::string::*;

verus! {

impl Keyed for FamilyActivity {
    open spec fn before(self, other: Self) -> bool {
        self.start_ns < other.start_ns || (self.start_ns == other.start_ns && self.end_ns
            <= other.end_ns)
    }

    proof fn before_is_total(a: Self, b: Self) {
    }

    proof fn before_is_transitive(a: Self, b: Self, c: Self) {
    }

    fn comes_before(&self, other: &Self) -> (r: bool) {
        self.start_ns < other.start_ns || (self.start_ns == other.start_ns && self.end_ns
            <= other.end_ns)
    }
}

/// A kernel of a step, on the clock of the steps.
#[derive(Clone, Copy, Debug, PartialEq, Eq, Structural)]
pub struct StepInterval {
    pub start_ns: u64,
    pub end_ns: u64,
    pub api_end_ns: u64,
    pub family: KernelFamily,
    pub graph: bool,
}

impl Keyed for StepInterval {
    open spec fn before(self, other: Self) -> bool {
        self.start_ns < other.start_ns || (self.start_ns == other.start_ns && self.end_ns
            <= other.end_ns)
    }

    proof fn before_is_total(a: Self, b: Self) {
    }

    proof fn before_is_transitive(a: Self, b: Self, c: Self) {
    }

    fn comes_before(&self, other: &Self) -> (r: bool) {
        self.start_ns < other.start_ns || (self.start_ns == other.start_ns && self.end_ns
            <= other.end_ns)
    }
}

// Placement.

/// What kernels are joined with.
pub struct Join {
    pub steps: Seq<TraceStep>,
    pub timeline: Seq<TimelineEntry>,
    pub calls: Seq<ApiActivity>,
    pub clock: ClockMap,
}

impl Join {
    pub open spec fn wf(self) -> bool {
        timeline_fits(self.timeline, self.steps)
    }
}

/// Where a kernel belongs.
#[derive(Clone, Copy, Debug, PartialEq, Eq, Structural)]
pub enum Placement {
    Unmatched,
    OutsideClock,
    Invalid,
    Unassigned,
    WrongProcess,
    Placed { step: usize, api_start_ns: u64, interval: StepInterval },
}

/// Where the kernel belongs.
pub open spec fn placement(k: FamilyActivity, join: Join) -> Placement {
    match call_with(join.calls, k.correlation) {
        None => Placement::Unmatched,
        Some(call) => if !join.clock.spans(call.start_ns) || !join.clock.spans(call.end_ns)
            || !join.clock.spans(k.start_ns) || !join.clock.spans(k.end_ns) {
            Placement::OutsideClock
        } else {
            let call_start = join.clock.mapped(call.start_ns);
            let call_end = join.clock.mapped(call.end_ns);
            let start = join.clock.mapped(k.start_ns);
            let end = join.clock.mapped(k.end_ns);
            if call.return_value != 0 || call_end < call_start || end <= start {
                Placement::Invalid
            } else {
                match step_in_window(call_start as u64, join.steps, join.timeline) {
                    None => Placement::Unassigned,
                    Some(i) => if call.process != join.steps[i].begin.pid {
                        Placement::WrongProcess
                    } else {
                        Placement::Placed {
                            step: i as usize,
                            api_start_ns: call_start as u64,
                            interval: StepInterval {
                                start_ns: start as u64,
                                end_ns: end as u64,
                                api_end_ns: call_end as u64,
                                family: k.family,
                                graph: k.graph_node_id != 0 || k.graph_id != 0,
                            },
                        }
                    },
                }
            }
        },
    }
}

fn place_kernel(
    k: &FamilyActivity,
    steps: &[TraceStep],
    timeline: &[TimelineEntry],
    calls: &[ApiActivity],
    index: &IdIndex,
    clock: ClockMap,
) -> (r: Placement)
    requires
        timeline_fits(timeline@, steps@),
        indexes_calls(*index, calls@),
        !calls_repeat(calls@),
    ensures
        r == placement(
            *k,
            (Join { steps: steps@, timeline: timeline@, calls: calls@, clock }),
        ),
        r matches Placement::Placed { step, interval, .. } ==> step < steps@.len()
            && interval.start_ns < interval.end_ns,
{
    let call = match find_call(index, calls, k.correlation) {
        Some(call) => call,
        None => {
            return Placement::Unmatched;
        },
    };
    match (
        clock.normalize(call.start_ns),
        clock.normalize(call.end_ns),
        clock.normalize(k.start_ns),
        clock.normalize(k.end_ns),
    ) {
        (Ok(api_start_ns), Ok(api_end_ns), Ok(start_ns), Ok(end_ns)) => {
            if call.return_value != 0 || api_end_ns < api_start_ns || end_ns <= start_ns {
                return Placement::Invalid;
            }
            match step_for_packed_timestamp(api_start_ns, steps, timeline) {
                None => Placement::Unassigned,
                Some(step) => if call.process != steps[step].begin.pid {
                    Placement::WrongProcess
                } else {
                    Placement::Placed {
                        step,
                        api_start_ns,
                        interval: StepInterval {
                            start_ns,
                            end_ns,
                            api_end_ns,
                            family: k.family,
                            graph: k.graph_node_id != 0 || k.graph_id != 0,
                        },
                    }
                },
            }
        },
        _ => Placement::OutsideClock,
    }
}

// What the kernels of a step come to.

#[derive(Debug)]
pub struct StepAggregate {
    pub intervals: Vec<StepInterval>,
    pub streams: Vec<u32>,
    pub api_first_ns: u64,
    pub api_last_ns: u64,
}

#[verifier::ext_equal]
pub struct AggregateModel {
    pub intervals: Seq<StepInterval>,
    pub streams: Seq<u32>,
    pub api_first_ns: u64,
    pub api_last_ns: u64,
}

pub open spec fn aggregate_model(a: StepAggregate) -> AggregateModel {
    AggregateModel {
        intervals: a.intervals@,
        streams: a.streams@,
        api_first_ns: a.api_first_ns,
        api_last_ns: a.api_last_ns,
    }
}

pub open spec fn no_kernels() -> AggregateModel {
    AggregateModel {
        intervals: Seq::empty(),
        streams: Seq::empty(),
        api_first_ns: 0,
        api_last_ns: 0,
    }
}

/// The aggregate with one more kernel. A first call at zero counts as none.
pub open spec fn with_kernel(
    a: AggregateModel,
    stream: u32,
    api_start_ns: u64,
    interval: StepInterval,
) -> AggregateModel {
    AggregateModel {
        intervals: a.intervals.push(interval),
        streams: if a.streams.contains(stream) {
            a.streams
        } else {
            a.streams.push(stream)
        },
        api_first_ns: if a.api_first_ns == 0 || api_start_ns < a.api_first_ns {
            api_start_ns
        } else {
            a.api_first_ns
        },
        api_last_ns: if interval.api_end_ns > a.api_last_ns {
            interval.api_end_ns
        } else {
            a.api_last_ns
        },
    }
}

/// What the kernels come to for the step.
pub open spec fn aggregate_of(kernels: Seq<FamilyActivity>, join: Join, i: int) -> AggregateModel
    decreases kernels.len(),
{
    if kernels.len() == 0 {
        no_kernels()
    } else {
        let before = aggregate_of(kernels.drop_last(), join, i);
        match placement(kernels.last(), join) {
            Placement::Placed { step, api_start_ns, interval } if step == i => with_kernel(
                before,
                kernels.last().stream,
                api_start_ns,
                interval,
            ),
            _ => before,
        }
    }
}

/// How many kernels belong nowhere, by reason.
#[derive(Clone, Copy, Debug, PartialEq, Eq, Structural)]
pub struct PlacementCounts {
    pub unmatched_correlations: u64,
    pub unassigned_kernels: u64,
    pub api_pid_mismatches: u64,
    pub invalid_intervals: u64,
}

pub open spec fn one_if(condition: bool) -> int {
    if condition {
        1
    } else {
        0
    }
}

pub open spec fn misplaced(kernels: Seq<FamilyActivity>, join: Join, reason: Placement) -> int
    decreases kernels.len(),
{
    if kernels.len() == 0 {
        0
    } else {
        misplaced(kernels.drop_last(), join, reason) + one_if(
            placement(kernels.last(), join) == reason,
        )
    }
}

pub open spec fn placement_counts(kernels: Seq<FamilyActivity>, join: Join) -> PlacementCounts {
    PlacementCounts {
        unmatched_correlations: misplaced(kernels, join, Placement::Unmatched) as u64,
        unassigned_kernels: misplaced(kernels, join, Placement::Unassigned) as u64,
        api_pid_mismatches: misplaced(kernels, join, Placement::WrongProcess) as u64,
        invalid_intervals: misplaced(kernels, join, Placement::Invalid) as u64,
    }
}

proof fn misplaced_is_bounded(kernels: Seq<FamilyActivity>, join: Join, reason: Placement)
    ensures
        0 <= misplaced(kernels, join, reason) <= kernels.len(),
    decreases kernels.len(),
{
    if kernels.len() > 0 {
        misplaced_is_bounded(kernels.drop_last(), join, reason);
    }
}

/// The placed kernels as stretches of time, in order.
pub open spec fn placed_spans(kernels: Seq<FamilyActivity>, join: Join) -> Seq<(u64, u64)>
    decreases kernels.len(),
{
    if kernels.len() == 0 {
        Seq::empty()
    } else {
        let before = placed_spans(kernels.drop_last(), join);
        match placement(kernels.last(), join) {
            Placement::Placed { interval, .. } => before.push(
                (interval.start_ns, interval.end_ns),
            ),
            _ => before,
        }
    }
}

/// Whether a kernel or its call lies outside the calibration.
pub open spec fn some_outside(kernels: Seq<FamilyActivity>, join: Join) -> bool {
    exists|n: int|
        0 <= n < kernels.len() && placement(#[trigger] kernels[n], join) == Placement::OutsideClock
}

fn add_kernel(a: &mut StepAggregate, stream: u32, api_start_ns: u64, interval: StepInterval)
    ensures
        aggregate_model(*final(a)) == with_kernel(
            aggregate_model(*old(a)),
            stream,
            api_start_ns,
            interval,
        ),
{
    a.intervals.push(interval);
    if a.api_first_ns == 0 || api_start_ns < a.api_first_ns {
        a.api_first_ns = api_start_ns;
    }
    if interval.api_end_ns > a.api_last_ns {
        a.api_last_ns = interval.api_end_ns;
    }
    let mut known = false;
    let mut i: usize = 0;
    while i < a.streams.len() && !known
        invariant
            i <= a.streams.len(),
            known ==> a.streams@.contains(stream),
            !known ==> forall|k: int| 0 <= k < i ==> #[trigger] a.streams@[k] != stream,
        decreases a.streams.len() - i,
    {
        if a.streams[i] == stream {
            assert(a.streams@[i as int] == stream);
            known = true;
        }
        i += 1;
    }
    if !known {
        a.streams.push(stream);
    }
}

/// Whether the aggregates are those of the kernels.
spec fn aggregates_are(
    aggregates: Seq<StepAggregate>,
    kernels: Seq<FamilyActivity>,
    join: Join,
) -> bool {
    &&& aggregates.len() == join.steps.len()
    &&& forall|i: int|
        0 <= i < aggregates.len() ==> aggregate_model(#[trigger] aggregates[i]) == aggregate_of(
            kernels,
            join,
            i,
        )
}

/// The kernels gathered by step.
struct Gathered {
    aggregates: Vec<StepAggregate>,
    counts: PlacementCounts,
    spans: Vec<(u64, u64)>,
}

/// Gathers kernels that stand in order of time, unless one lies outside the
/// calibration.
fn gather(
    kernels: &[FamilyActivity],
    steps: &[TraceStep],
    timeline: &[TimelineEntry],
    calls: &[ApiActivity],
    index: &IdIndex,
    clock: ClockMap,
) -> (r: Option<Gathered>)
    requires
        timeline_fits(timeline@, steps@),
        indexes_calls(*index, calls@),
        !calls_repeat(calls@),
    ensures
        ({
            let join = Join { steps: steps@, timeline: timeline@, calls: calls@, clock };
            &&& r is None <==> some_outside(kernels@, join)
            &&& r matches Some(g) ==> {
                &&& aggregates_are(g.aggregates@, kernels@, join)
                &&& g.counts == placement_counts(kernels@, join)
                &&& g.spans@ == placed_spans(kernels@, join)
            }
        }),
{
    let ghost join = Join { steps: steps@, timeline: timeline@, calls: calls@, clock };
    let mut aggregates: Vec<StepAggregate> = Vec::new();
    let mut i: usize = 0;
    while i < steps.len()
        invariant
            i <= steps.len(),
            aggregates@.len() == i,
            forall|k: int| 0 <= k < i ==> aggregate_model(#[trigger] aggregates@[k]) == no_kernels(),
        decreases steps.len() - i,
    {
        let empty = StepAggregate {
            intervals: Vec::new(),
            streams: Vec::new(),
            api_first_ns: 0,
            api_last_ns: 0,
        };
        assert(aggregate_model(empty) =~= no_kernels());
        aggregates.push(empty);
        i += 1;
    }
    let mut counts = PlacementCounts {
        unmatched_correlations: 0,
        unassigned_kernels: 0,
        api_pid_mismatches: 0,
        invalid_intervals: 0,
    };
    let mut spans: Vec<(u64, u64)> = Vec::new();
    let mut n: usize = 0;
    assert(kernels@.take(0) =~= Seq::<FamilyActivity>::empty());
    while n < kernels.len()
        invariant
            n <= kernels.len(),
            join == (Join { steps: steps@, timeline: timeline@, calls: calls@, clock }),
            timeline_fits(timeline@, steps@),
            indexes_calls(*index, calls@),
            !calls_repeat(calls@),
            forall|k: int|
                0 <= k < n ==> placement(#[trigger] kernels@[k], join) != Placement::OutsideClock,
            aggregates_are(aggregates@, kernels@.take(n as int), join),
            counts == placement_counts(kernels@.take(n as int), join),
            spans@ == placed_spans(kernels@.take(n as int), join),
        decreases kernels.len() - n,
    {
        let kernel = kernels[n];
        let ghost front = kernels@.take(n as int);
        let ghost next = kernels@.take(n + 1);
        let ghost before = aggregates@;
        proof {
            assert(next.drop_last() =~= front);
            assert(next.last() == kernel);
            misplaced_is_bounded(front, join, Placement::Unmatched);
            misplaced_is_bounded(front, join, Placement::Unassigned);
            misplaced_is_bounded(front, join, Placement::WrongProcess);
            misplaced_is_bounded(front, join, Placement::Invalid);
        }
        match place_kernel(&kernel, steps, timeline, calls, index, clock) {
            Placement::OutsideClock => {
                assert(placement(kernels@[n as int], join) == Placement::OutsideClock);
                return None;
            },
            Placement::Unmatched => {
                counts.unmatched_correlations = counts.unmatched_correlations + 1;
            },
            Placement::Unassigned => {
                counts.unassigned_kernels = counts.unassigned_kernels + 1;
            },
            Placement::WrongProcess => {
                counts.api_pid_mismatches = counts.api_pid_mismatches + 1;
            },
            Placement::Invalid => {
                counts.invalid_intervals = counts.invalid_intervals + 1;
            },
            Placement::Placed { step, api_start_ns, interval } => {
                assert(aggregate_model(before[step as int]) == aggregate_of(
                    front,
                    join,
                    step as int,
                ));
                add_kernel(&mut aggregates[step], kernel.stream, api_start_ns, interval);
                spans.push((interval.start_ns, interval.end_ns));
            },
        }
        proof {
            assert forall|k: int| 0 <= k < aggregates@.len() implies aggregate_model(
                #[trigger] aggregates@[k],
            ) == aggregate_of(next, join, k) by {
                assert(aggregate_model(before[k]) == aggregate_of(front, join, k));
            }
        }
        n += 1;
    }
    assert(kernels@.take(kernels@.len() as int) =~= kernels@);
    Some(Gathered { aggregates, counts, spans })
}

// Rows.

/// The intervals as stretches of time.
pub open spec fn stretches(intervals: Seq<StepInterval>) -> Seq<(int, int)> {
    intervals.map_values(|x: StepInterval| (x.start_ns as int, x.end_ns as int))
}

/// The latest end of the intervals.
pub open spec fn latest_end(intervals: Seq<StepInterval>) -> u64
    decreases intervals.len(),
{
    if intervals.len() == 0 {
        0
    } else {
        let before = latest_end(intervals.drop_last());
        if intervals.last().end_ns > before {
            intervals.last().end_ns
        } else {
            before
        }
    }
}

/// How many of the intervals are kernels of a graph.
pub open spec fn graph_kernels(intervals: Seq<StepInterval>) -> nat
    decreases intervals.len(),
{
    if intervals.len() == 0 {
        0
    } else {
        graph_kernels(intervals.drop_last()) + if intervals.last().graph {
            1nat
        } else {
            0
        }
    }
}

/// The measures of one step.
#[derive(Clone, Copy, Debug, PartialEq, Eq, Structural)]
pub struct StepRow {
    pub step_id: u64,
    pub phase: StepPhase,
    pub scheduled_tokens: u32,
    pub prefill_tokens: u32,
    pub decode_tokens: u32,
    pub requests: usize,
    pub queue_depth: u32,
    pub semantic_wall_ns: u64,
    pub schedule_to_pack_ns: u64,
    pub pack_to_first_api_ns: u64,
    pub api_endpoint_span_ns: u64,
    pub first_gpu_start_minus_api_end_ns: i128,
    pub kernel_count: usize,
    pub graph_kernel_count: usize,
    pub ordinary_kernel_count: usize,
    pub streams: usize,
    pub kernel_sum_ns: u64,
    pub gpu_busy_union_ns: u64,
    pub gpu_span_ns: u64,
    pub gpu_gap_within_span_ns: u64,
    pub last_gpu_to_step_end_ns: i128,
    pub reordered_positions: u64,
    /// Whether the kernels reach beyond the step.
    pub outside_step: bool,
}

/// The difference, or zero where it would be negative.
pub open spec fn excess(a: int, b: int) -> u64 {
    if a > b {
        (a - b) as u64
    } else {
        0
    }
}

/// The measures of a step that ran kernels, or why they cannot be taken.
pub open spec fn row_of(step: TraceStep, a: AggregateModel) -> Result<StepRow, Seq<char>> {
    let ordered = arranged(a.intervals);
    let first = ordered[0];
    let last_end = latest_end(ordered);
    let sum = duration_total(stretches(ordered));
    let busy = union_length(stretches(ordered));
    match (step.packed_begin, phase_of(step.begin.prefill_tokens, step.begin.decode_tokens)) {
        (None, _) => Err("step is missing authoritative packed-layout begin"@),
        (Some(packed), phase) => if packed.timestamp_ns < step.begin.timestamp_ns
            || step.end_timestamp_ns < packed.timestamp_ns {
            Err("semantic schedule/pack/end ordering is invalid"@)
        } else if phase is None {
            Err("empty engine step"@)
        } else if sum > u64::MAX {
            Err("kernel duration sum overflow"@)
        } else {
            Ok(
                StepRow {
                    step_id: step.begin.step_id,
                    phase: phase->0,
                    scheduled_tokens: step.begin.scheduled_tokens,
                    prefill_tokens: step.begin.prefill_tokens,
                    decode_tokens: step.begin.decode_tokens,
                    requests: step.owner_count,
                    queue_depth: step.begin.queue_depth,
                    semantic_wall_ns: (step.end_timestamp_ns - step.begin.timestamp_ns) as u64,
                    schedule_to_pack_ns: (packed.timestamp_ns - step.begin.timestamp_ns) as u64,
                    pack_to_first_api_ns: excess(
                        a.api_first_ns as int,
                        packed.timestamp_ns as int,
                    ),
                    api_endpoint_span_ns: excess(a.api_last_ns as int, a.api_first_ns as int),
                    first_gpu_start_minus_api_end_ns: (first.start_ns - first.api_end_ns) as i128,
                    kernel_count: a.intervals.len() as usize,
                    graph_kernel_count: graph_kernels(ordered) as usize,
                    ordinary_kernel_count: (a.intervals.len() - graph_kernels(ordered)) as usize,
                    streams: a.streams.len() as usize,
                    kernel_sum_ns: sum as u64,
                    gpu_busy_union_ns: busy as u64,
                    gpu_span_ns: (last_end - first.start_ns) as u64,
                    gpu_gap_within_span_ns: excess(last_end - first.start_ns, busy as int),
                    last_gpu_to_step_end_ns: (step.end_timestamp_ns - last_end) as i128,
                    reordered_positions: step.scheduler_order_mismatches,
                    outside_step: first.start_ns < step.begin.timestamp_ns || last_end
                        > step.end_timestamp_ns,
                },
            )
        },
    }
}

fn spans_of(intervals: &Vec<StepInterval>) -> (r: Vec<(u64, u64)>)
    ensures
        ints(r@) == stretches(intervals@),
        r@.len() == intervals@.len(),
        forall|i: int|
            0 <= i < r@.len() ==> (#[trigger] r@[i]) == (
                intervals@[i].start_ns,
                intervals@[i].end_ns,
            ),
{
    let mut r: Vec<(u64, u64)> = Vec::new();
    let mut i: usize = 0;
    while i < intervals.len()
        invariant
            i <= intervals.len(),
            r@.len() == i,
            forall|k: int|
                0 <= k < i ==> (#[trigger] r@[k]) == (intervals@[k].start_ns, intervals@[k].end_ns),
        decreases intervals.len() - i,
    {
        r.push((intervals[i].start_ns, intervals[i].end_ns));
        i += 1;
    }
    assert(ints(r@) =~= stretches(intervals@));
    r
}

fn find_latest_end(intervals: &Vec<StepInterval>) -> (r: u64)
    ensures
        r == latest_end(intervals@),
        forall|i: int| 0 <= i < intervals@.len() ==> (#[trigger] intervals@[i]).end_ns <= r,
{
    let mut r: u64 = 0;
    let mut i: usize = 0;
    assert(intervals@.take(0) =~= Seq::<StepInterval>::empty());
    while i < intervals.len()
        invariant
            i <= intervals.len(),
            r == latest_end(intervals@.take(i as int)),
            forall|k: int| 0 <= k < i ==> (#[trigger] intervals@[k]).end_ns <= r,
        decreases intervals.len() - i,
    {
        assert(intervals@.take(i + 1).drop_last() =~= intervals@.take(i as int));
        if intervals[i].end_ns > r {
            r = intervals[i].end_ns;
        }
        i += 1;
    }
    assert(intervals@.take(intervals@.len() as int) =~= intervals@);
    r
}

fn count_graph_kernels(intervals: &Vec<StepInterval>) -> (r: usize)
    ensures
        r == graph_kernels(intervals@),
        r <= intervals@.len(),
{
    let mut r: usize = 0;
    let mut i: usize = 0;
    assert(intervals@.take(0) =~= Seq::<StepInterval>::empty());
    while i < intervals.len()
        invariant
            i <= intervals.len(),
            r == graph_kernels(intervals@.take(i as int)),
            r <= i,
        decreases intervals.len() - i,
    {
        assert(intervals@.take(i + 1).drop_last() =~= intervals@.take(i as int));
        if intervals[i].graph {
            r = r + 1;
        }
        i += 1;
    }
    assert(intervals@.take(intervals@.len() as int) =~= intervals@);
    r
}

/// Whether every interval has a length.
pub open spec fn all_run(intervals: Seq<StepInterval>) -> bool {
    forall|i: int|
        0 <= i < intervals.len() ==> (#[trigger] intervals[i]).start_ns < intervals[i].end_ns
}

proof fn arranging_keeps_running(intervals: Seq<StepInterval>, ordered: Seq<StepInterval>)
    requires
        all_run(intervals),
        arranges(intervals, ordered),
    ensures
        all_run(ordered),
        ordered.len() == intervals.len(),
{
    intervals.to_multiset_ensures();
    ordered.to_multiset_ensures();
    assert forall|i: int| 0 <= i < ordered.len() implies (#[trigger] ordered[i]).start_ns
        < ordered[i].end_ns by {
        assert(ordered.contains(ordered[i]));
        assert(ordered.to_multiset().count(ordered[i]) > 0);
        assert(intervals.contains(ordered[i]));
        let k = choose|k: int| 0 <= k < intervals.len() && intervals[k] == ordered[i];
        assert(intervals[k].start_ns < intervals[k].end_ns);
    }
}

/// The kernels of a step are never empty intervals.
proof fn aggregates_run(kernels: Seq<FamilyActivity>, join: Join, i: int)
    ensures
        all_run(aggregate_of(kernels, join, i).intervals),
    decreases kernels.len(),
{
    if kernels.len() > 0 {
        aggregates_run(kernels.drop_last(), join, i);
        match placement(kernels.last(), join) {
            Placement::Placed { step, interval, .. } => {
                placed_interval_runs(kernels.last(), join);
            },
            _ => {},
        }
    }
}

proof fn placed_interval_runs(k: FamilyActivity, join: Join)
    ensures
        placement(k, join) matches Placement::Placed { interval, .. } ==> interval.start_ns
            < interval.end_ns,
{
    if let Placement::Placed { .. } = placement(k, join) {
        crate::clock::mapped_is_inside(join.clock, k.start_ns);
        crate::clock::mapped_is_inside(join.clock, k.end_ns);
    }
}

/// Measures a step that ran kernels.
fn measure_step(step: &TraceStep, a: &StepAggregate, ordered: &Vec<StepInterval>) -> (r: Result<
    StepRow,
    String,
>)
    requires
        a.intervals@.len() > 0,
        all_run(a.intervals@),
        ordered@ == arranged(a.intervals@),
        arranges(a.intervals@, ordered@),
    ensures
        match (r, row_of(*step, aggregate_model(*a))) {
            (Ok(row), Ok(expected)) => row == expected,
            (Err(error), Err(expected)) => error@ == expected,
            _ => false,
        },
{
    proof {
        arranging_keeps_running(a.intervals@, ordered@);
    }
    let packed_ns: u64 = match step.packed_begin {
        Some(packed) => packed.timestamp_ns,
        None => {
            return Err("step is missing authoritative packed-layout begin".to_owned());
        },
    };
    if packed_ns < step.begin.timestamp_ns || step.end_timestamp_ns < packed_ns {
        return Err("semantic schedule/pack/end ordering is invalid".to_owned());
    }
    let phase = match phase_label(step.begin.prefill_tokens, step.begin.decode_tokens) {
        Some(phase) => phase,
        None => {
            return Err("empty engine step".to_owned());
        },
    };
    let spans = spans_of(ordered);
    let kernel_sum_ns: u64 = match duration_sum(spans.as_slice()) {
        Ok(sum) => sum,
        Err(_) => {
            return Err("kernel duration sum overflow".to_owned());
        },
    };
    proof {
        let s = ints(spans@);
        assert forall|i: int| 0 <= i < s.len() implies (#[trigger] s[i]).0 < s[i].1 by {
            assert(ordered@[i].start_ns < ordered@[i].end_ns);
        }
        assert forall|i: int, j: int| 0 <= i <= j < s.len() implies (#[trigger] s[i]).0 <= (
        #[trigger] s[j]).0 by {
            assert(ordered@[i].before(ordered@[j]));
        }
        sorted_is_measurable(s);
    }
    let gpu_busy_union_ns: u64 = match interval_union(spans.as_slice()) {
        Ok(busy) => busy,
        Err(_) => 0,
    };
    let first = ordered[0];
    let last_end: u64 = find_latest_end(ordered);
    assert(ordered@[0].start_ns < ordered@[0].end_ns <= last_end);
    let gpu_span_ns: u64 = last_end - first.start_ns;
    let graph_kernel_count: usize = count_graph_kernels(ordered);
    Ok(
        StepRow {
            step_id: step.begin.step_id,
            phase,
            scheduled_tokens: step.begin.scheduled_tokens,
            prefill_tokens: step.begin.prefill_tokens,
            decode_tokens: step.begin.decode_tokens,
            requests: step.owner_count,
            queue_depth: step.begin.queue_depth,
            semantic_wall_ns: step.end_timestamp_ns - step.begin.timestamp_ns,
            schedule_to_pack_ns: packed_ns - step.begin.timestamp_ns,
            pack_to_first_api_ns: a.api_first_ns.saturating_sub(packed_ns),
            api_endpoint_span_ns: a.api_last_ns.saturating_sub(a.api_first_ns),
            first_gpu_start_minus_api_end_ns: first.start_ns as i128 - first.api_end_ns as i128,
            kernel_count: a.intervals.len(),
            graph_kernel_count,
            ordinary_kernel_count: a.intervals.len() - graph_kernel_count,
            streams: a.streams.len(),
            kernel_sum_ns,
            gpu_busy_union_ns,
            gpu_span_ns,
            gpu_gap_within_span_ns: gpu_span_ns.saturating_sub(gpu_busy_union_ns),
            last_gpu_to_step_end_ns: step.end_timestamp_ns as i128 - last_end as i128,
            reordered_positions: step.scheduler_order_mismatches,
            outside_step: first.start_ns < step.begin.timestamp_ns || last_end
                > step.end_timestamp_ns,
        },
    )
}

// Families.

/// How many of the kernels are of the family at the place.
pub open spec fn family_count(intervals: Seq<StepInterval>, family: int) -> nat
    decreases intervals.len(),
{
    if intervals.len() == 0 {
        0
    } else {
        family_count(intervals.drop_last(), family) + if intervals.last().family.spec_index()
            == family {
            1nat
        } else {
            0
        }
    }
}

/// How long the kernels of the family at the place ran.
pub open spec fn family_time(intervals: Seq<StepInterval>, family: int) -> int
    decreases intervals.len(),
{
    if intervals.len() == 0 {
        0
    } else {
        family_time(intervals.drop_last(), family) + if intervals.last().family.spec_index()
            == family {
            intervals.last().end_ns - intervals.last().start_ns
        } else {
            0
        }
    }
}

/// The kernels of one family in one step.
#[derive(Clone, Copy, Debug, PartialEq, Eq, Structural)]
pub struct FamilyRow {
    pub step_id: u64,
    pub phase: StepPhase,
    pub family: KernelFamily,
    pub kernel_count: u64,
    pub duration_ns: u64,
}

/// The kernels of one family in all steps.
#[derive(Clone, Copy, Debug, PartialEq, Eq, Structural)]
pub struct FamilyTotal {
    pub kernels: u64,
    pub duration_ns: u64,
}

/// What the families come to.
#[verifier::ext_equal]
pub struct FamilyModel {
    pub rows: Seq<FamilyRow>,
    pub totals: Seq<FamilyTotal>,
}

/// The sum, as far as it can be counted.
pub open spec fn plus(a: u64, b: int) -> u64 {
    if a + b > u64::MAX {
        u64::MAX
    } else {
        (a + b) as u64
    }
}

/// The family at the place.
pub open spec fn family_at(place: int) -> KernelFamily {
    if place == 0 {
        KernelFamily::LayerNorm
    } else if place == 1 {
        KernelFamily::Gemm
    } else if place == 2 {
        KernelFamily::QkNorm
    } else if place == 3 {
        KernelFamily::Rotary
    } else if place == 4 {
        KernelFamily::KvCache
    } else if place == 5 {
        KernelFamily::Attention
    } else if place == 6 {
        KernelFamily::Activation
    } else if place == 7 {
        KernelFamily::Sampling
    } else if place == 8 {
        KernelFamily::Copy
    } else {
        KernelFamily::Other
    }
}

/// What the families come to after the first families of a step.
pub open spec fn with_families(
    before: FamilyModel,
    row: StepRow,
    intervals: Seq<StepInterval>,
    places: int,
) -> Result<FamilyModel, Seq<char>>
    decreases places,
{
    if places <= 0 {
        Ok(before)
    } else {
        let place = places - 1;
        let count = family_count(intervals, place);
        let time = family_time(intervals, place);
        match with_families(before, row, intervals, place) {
            Err(error) => Err(error),
            Ok(model) => if count == 0 {
                Ok(model)
            } else if model.totals[place].duration_ns + time > u64::MAX {
                Err("total family duration overflow"@)
            } else {
                Ok(
                    FamilyModel {
                        rows: model.rows.push(
                            FamilyRow {
                                step_id: row.step_id,
                                phase: row.phase,
                                family: family_at(place),
                                kernel_count: count as u64,
                                duration_ns: time as u64,
                            },
                        ),
                        totals: model.totals.update(
                            place,
                            FamilyTotal {
                                kernels: plus(model.totals[place].kernels, count as int),
                                duration_ns: (model.totals[place].duration_ns + time) as u64,
                            },
                        ),
                    },
                )
            },
        }
    }
}

proof fn family_time_is_bounded(intervals: Seq<StepInterval>, family: int)
    requires
        all_run(intervals),
    ensures
        0 <= family_time(intervals, family) <= duration_total(stretches(intervals)),
        family_count(intervals, family) <= intervals.len(),
    decreases intervals.len(),
{
    if intervals.len() > 0 {
        let front = intervals.drop_last();
        assert forall|i: int| 0 <= i < front.len() implies (#[trigger] front[i]).start_ns
            < front[i].end_ns by {
            assert(intervals[i].start_ns < intervals[i].end_ns);
        }
        family_time_is_bounded(front, family);
        assert(stretches(intervals).drop_last() =~= stretches(front));
        assert(intervals[intervals.len() - 1].start_ns < intervals[intervals.len() - 1].end_ns);
    }
}

fn measure_family(intervals: &Vec<StepInterval>, place: usize) -> (r: (u64, u64))
    requires
        place < FAMILY_COUNT,
        all_run(intervals@),
        duration_total(stretches(intervals@)) <= u64::MAX,
    ensures
        r.0 == family_count(intervals@, place as int),
        r.1 == family_time(intervals@, place as int),
{
    let mut count: u64 = 0;
    let mut time: u64 = 0;
    let mut i: usize = 0;
    assert(intervals@.take(0) =~= Seq::<StepInterval>::empty());
    while i < intervals.len()
        invariant
            i <= intervals.len(),
            place < FAMILY_COUNT,
            all_run(intervals@),
            duration_total(stretches(intervals@)) <= u64::MAX,
            count == family_count(intervals@.take(i as int), place as int),
            count <= i,
            time == family_time(intervals@.take(i as int), place as int),
        decreases intervals.len() - i,
    {
        proof {
            assert(intervals@.take(i + 1).drop_last() =~= intervals@.take(i as int));
            family_time_of_front(intervals@, i + 1, place as int);
            family_time_is_bounded(intervals@, place as int);
            assert(intervals@[i as int].start_ns < intervals@[i as int].end_ns);
        }
        let interval = intervals[i];
        if interval.family.index() == place {
            count = count + 1;
            time = time + (interval.end_ns - interval.start_ns);
        }
        i += 1;
    }
    assert(intervals@.take(intervals@.len() as int) =~= intervals@);
    (count, time)
}

proof fn family_time_of_front(intervals: Seq<StepInterval>, n: int, family: int)
    requires
        0 <= n <= intervals.len(),
        all_run(intervals),
    ensures
        family_time(intervals.take(n), family) <= family_time(intervals, family),
    decreases intervals.len() - n,
{
    if n < intervals.len() {
        assert(intervals.take(n + 1).drop_last() =~= intervals.take(n));
        assert(intervals[n].start_ns < intervals[n].end_ns);
        family_time_of_front(intervals, n + 1, family);
    } else {
        assert(intervals.take(n) =~= intervals);
    }
}

fn add_families(
    rows: &mut Vec<FamilyRow>,
    totals: &mut Vec<FamilyTotal>,
    row: &StepRow,
    intervals: &Vec<StepInterval>,
) -> (r: Result<(), String>)
    requires
        old(totals)@.len() == FAMILY_COUNT,
        all_run(intervals@),
        duration_total(stretches(intervals@)) <= u64::MAX,
    ensures
        final(totals)@.len() == FAMILY_COUNT,
        match (
            r,
            with_families(
                (FamilyModel { rows: old(rows)@, totals: old(totals)@ }),
                *row,
                intervals@,
                FAMILY_COUNT as int,
            ),
        ) {
            (Ok(_), Ok(model)) => model.rows == final(rows)@ && model.totals == final(totals)@,
            (Err(error), Err(expected)) => error@ == expected,
            _ => false,
        },
{
    let ghost before = FamilyModel { rows: rows@, totals: totals@ };
    let mut place: usize = 0;
    while place < FAMILY_COUNT
        invariant
            place <= FAMILY_COUNT,
            totals@.len() == FAMILY_COUNT,
            before == (FamilyModel { rows: old(rows)@, totals: old(totals)@ }),
            all_run(intervals@),
            duration_total(stretches(intervals@)) <= u64::MAX,
            with_families(before, *row, intervals@, place as int) == Ok::<FamilyModel, Seq<char>>(
                (FamilyModel { rows: rows@, totals: totals@ }),
            ),
        decreases FAMILY_COUNT - place,
    {
        let (count, time) = measure_family(intervals, place);
        proof {
            if with_families(before, *row, intervals@, place + 1) is Err {
                family_failure_stays(before, *row, intervals@, place + 1, FAMILY_COUNT as int);
            }
        }
        if count != 0 {
            let total = totals[place];
            match total.duration_ns.checked_add(time) {
                None => {
                    return Err("total family duration overflow".to_owned());
                },
                Some(duration_ns) => {
                    rows.push(
                        FamilyRow {
                            step_id: row.step_id,
                            phase: row.phase,
                            family: KernelFamily::at(place),
                            kernel_count: count,
                            duration_ns: time,
                        },
                    );
                    totals.set(
                        place,
                        FamilyTotal { kernels: total.kernels.saturating_add(count), duration_ns },
                    );
                },
            }
        }
        place += 1;
    }
    Ok(())
}

proof fn family_failure_stays(
    before: FamilyModel,
    row: StepRow,
    intervals: Seq<StepInterval>,
    n: int,
    places: int,
)
    requires
        0 <= n <= places,
        with_families(before, row, intervals, n) is Err,
    ensures
        with_families(before, row, intervals, places) == with_families(before, row, intervals, n),
    decreases places - n,
{
    if n < places {
        family_failure_stays(before, row, intervals, n, places - 1);
    }
}

// All steps.

#[derive(Clone, Copy, Debug, PartialEq, Eq, Structural)]
pub struct StepTotals {
    pub kernels: u64,
    pub graph_kernels: u64,
    pub ordinary_kernels: u64,
    pub kernel_sum_ns: u64,
    pub per_step_busy_sum_ns: u64,
    pub empty_steps: u64,
    pub gpu_outside_semantic_steps: u64,
    pub negative_api_overlap_intervals: u64,
}

/// What the steps come to.
#[verifier::ext_equal]
pub struct StepsModel {
    pub rows: Seq<StepRow>,
    pub families: FamilyModel,
    pub totals: StepTotals,
}

pub open spec fn no_steps() -> StepsModel {
    StepsModel {
        rows: Seq::empty(),
        families: FamilyModel {
            rows: Seq::empty(),
            totals: Seq::new(
                FAMILY_COUNT as nat,
                |i: int| FamilyTotal { kernels: 0, duration_ns: 0 },
            ),
        },
        totals: StepTotals {
            kernels: 0,
            graph_kernels: 0,
            ordinary_kernels: 0,
            kernel_sum_ns: 0,
            per_step_busy_sum_ns: 0,
            empty_steps: 0,
            gpu_outside_semantic_steps: 0,
            negative_api_overlap_intervals: 0,
        },
    }
}

/// What the steps come to with one more.
pub open spec fn with_step(model: StepsModel, step: TraceStep, a: AggregateModel) -> Result<
    StepsModel,
    Seq<char>,
> {
    let totals = model.totals;
    if a.intervals.len() == 0 {
        Ok(
            StepsModel {
                totals: StepTotals { empty_steps: plus(totals.empty_steps, 1), ..totals },
                ..model
            },
        )
    } else {
        match row_of(step, a) {
            Err(error) => Err(error),
            Ok(row) => match with_families(
                model.families,
                row,
                arranged(a.intervals),
                FAMILY_COUNT as int,
            ) {
                Err(error) => Err(error),
                Ok(families) => if totals.kernel_sum_ns + row.kernel_sum_ns > u64::MAX {
                    Err("total kernel sum overflow"@)
                } else if totals.per_step_busy_sum_ns + row.gpu_busy_union_ns > u64::MAX {
                    Err("per-step busy sum overflow"@)
                } else {
                    Ok(
                        StepsModel {
                            rows: model.rows.push(row),
                            families,
                            totals: StepTotals {
                                kernels: plus(totals.kernels, row.kernel_count as int),
                                graph_kernels: plus(
                                    totals.graph_kernels,
                                    row.graph_kernel_count as int,
                                ),
                                ordinary_kernels: plus(
                                    totals.ordinary_kernels,
                                    row.ordinary_kernel_count as int,
                                ),
                                kernel_sum_ns: (totals.kernel_sum_ns + row.kernel_sum_ns) as u64,
                                per_step_busy_sum_ns: (totals.per_step_busy_sum_ns
                                    + row.gpu_busy_union_ns) as u64,
                                empty_steps: totals.empty_steps,
                                gpu_outside_semantic_steps: plus(
                                    totals.gpu_outside_semantic_steps,
                                    one_if(row.outside_step),
                                ),
                                negative_api_overlap_intervals: plus(
                                    totals.negative_api_overlap_intervals,
                                    one_if(row.first_gpu_start_minus_api_end_ns < 0),
                                ),
                            },
                        },
                    )
                },
            },
        }
    }
}

/// What the first steps come to.
pub open spec fn steps_model(kernels: Seq<FamilyActivity>, join: Join, n: int) -> Result<
    StepsModel,
    Seq<char>,
>
    decreases n,
{
    if n <= 0 {
        Ok(no_steps())
    } else {
        match steps_model(kernels, join, n - 1) {
            Err(error) => Err(error),
            Ok(model) => with_step(model, join.steps[n - 1], aggregate_of(kernels, join, n - 1)),
        }
    }
}

proof fn steps_failure_stays(kernels: Seq<FamilyActivity>, join: Join, n: int, count: int)
    requires
        0 <= n <= count,
        steps_model(kernels, join, n) is Err,
    ensures
        steps_model(kernels, join, count) == steps_model(kernels, join, n),
    decreases count - n,
{
    if n < count {
        steps_failure_stays(kernels, join, n, count - 1);
    }
}

/// The steps as they are measured.
struct Measured {
    rows: Vec<StepRow>,
    family_rows: Vec<FamilyRow>,
    family_totals: Vec<FamilyTotal>,
    totals: StepTotals,
}

impl Measured {
    spec fn model(self) -> StepsModel {
        StepsModel {
            rows: self.rows@,
            families: FamilyModel { rows: self.family_rows@, totals: self.family_totals@ },
            totals: self.totals,
        }
    }

    fn add(&mut self, step: &TraceStep, a: &StepAggregate) -> (r: Result<(), String>)
        requires
            old(self).family_totals@.len() == FAMILY_COUNT,
            all_run(a.intervals@),
        ensures
            final(self).family_totals@.len() == FAMILY_COUNT,
            match (r, with_step(old(self).model(), *step, aggregate_model(*a))) {
                (Ok(_), Ok(model)) => final(self).model() == model,
                (Err(error), Err(expected)) => error@ == expected,
                _ => false,
            },
    {
        if a.intervals.len() == 0 {
            self.totals.empty_steps = self.totals.empty_steps.saturating_add(1);
            return Ok(());
        }
        let ordered = arranged_copy(a.intervals.as_slice());
        proof {
            arranging_keeps_running(a.intervals@, ordered@);
        }
        let row = measure_step(step, a, &ordered)?;
        add_families(&mut self.family_rows, &mut self.family_totals, &row, &ordered)?;
        let kernel_sum_ns: u64 = match self.totals.kernel_sum_ns.checked_add(row.kernel_sum_ns) {
            Some(sum) => sum,
            None => {
                return Err("total kernel sum overflow".to_owned());
            },
        };
        let busy_sum_ns: u64 = match self.totals.per_step_busy_sum_ns.checked_add(
            row.gpu_busy_union_ns,
        ) {
            Some(sum) => sum,
            None => {
                return Err("per-step busy sum overflow".to_owned());
            },
        };
        let totals = self.totals;
        self.totals = StepTotals {
            kernels: totals.kernels.saturating_add(row.kernel_count as u64),
            graph_kernels: totals.graph_kernels.saturating_add(row.graph_kernel_count as u64),
            ordinary_kernels: totals.ordinary_kernels.saturating_add(
                row.ordinary_kernel_count as u64,
            ),
            kernel_sum_ns,
            per_step_busy_sum_ns: busy_sum_ns,
            empty_steps: totals.empty_steps,
            gpu_outside_semantic_steps: if row.outside_step {
                totals.gpu_outside_semantic_steps.saturating_add(1)
            } else {
                totals.gpu_outside_semantic_steps
            },
            negative_api_overlap_intervals: if row.first_gpu_start_minus_api_end_ns < 0 {
                totals.negative_api_overlap_intervals.saturating_add(1)
            } else {
                totals.negative_api_overlap_intervals
            },
        };
        self.rows.push(row);
        Ok(())
    }
}

fn measure_steps(
    steps: &[TraceStep],
    aggregates: &Vec<StepAggregate>,
    Ghost(kernels): Ghost<Seq<FamilyActivity>>,
    Ghost(join): Ghost<Join>,
) -> (r: Result<Measured, String>)
    requires
        join.steps == steps@,
        aggregates_are(aggregates@, kernels, join),
    ensures
        match (r, steps_model(kernels, join, steps@.len() as int)) {
            (Ok(measured), Ok(model)) => measured.model() == model,
            (Err(error), Err(expected)) => error@ == expected,
            _ => false,
        },
{
    let mut family_totals: Vec<FamilyTotal> = Vec::new();
    let mut place: usize = 0;
    while place < FAMILY_COUNT
        invariant
            place <= FAMILY_COUNT,
            family_totals@.len() == place,
            forall|k: int|
                0 <= k < place ==> #[trigger] family_totals@[k] == (FamilyTotal {
                    kernels: 0,
                    duration_ns: 0,
                }),
        decreases FAMILY_COUNT - place,
    {
        family_totals.push(FamilyTotal { kernels: 0, duration_ns: 0 });
        place += 1;
    }
    let mut measured = Measured {
        rows: Vec::new(),
        family_rows: Vec::new(),
        family_totals,
        totals: StepTotals {
            kernels: 0,
            graph_kernels: 0,
            ordinary_kernels: 0,
            kernel_sum_ns: 0,
            per_step_busy_sum_ns: 0,
            empty_steps: 0,
            gpu_outside_semantic_steps: 0,
            negative_api_overlap_intervals: 0,
        },
    };
    proof {
        assert(measured.model().families.totals =~= no_steps().families.totals);
        assert(measured.model().families =~= no_steps().families);
        assert(measured.model() =~= no_steps());
    }
    let mut n: usize = 0;
    while n < steps.len()
        invariant
            n <= steps.len(),
            join.steps == steps@,
            aggregates_are(aggregates@, kernels, join),
            measured.family_totals@.len() == FAMILY_COUNT,
            steps_model(kernels, join, n as int) == Ok::<StepsModel, Seq<char>>(measured.model()),
        decreases steps.len() - n,
    {
        proof {
            if steps_model(kernels, join, n + 1) is Err {
                steps_failure_stays(kernels, join, n + 1, steps@.len() as int);
            }
            aggregates_run(kernels, join, n as int);
            assert(aggregate_model(aggregates@[n as int]) == aggregate_of(
                kernels,
                join,
                n as int,
            ));
        }
        measured.add(&steps[n], &aggregates[n])?;
        n += 1;
    }
    Ok(measured)
}

// The time that the GPU was busy at all.

/// A stretch of time.
#[derive(Clone, Copy, Debug, PartialEq, Eq, Structural)]
pub struct Span {
    pub start_ns: u64,
    pub end_ns: u64,
}

impl Keyed for Span {
    open spec fn before(self, other: Self) -> bool {
        self.start_ns < other.start_ns || (self.start_ns == other.start_ns && self.end_ns
            <= other.end_ns)
    }

    proof fn before_is_total(a: Self, b: Self) {
    }

    proof fn before_is_transitive(a: Self, b: Self, c: Self) {
    }

    fn comes_before(&self, other: &Self) -> (r: bool) {
        self.start_ns < other.start_ns || (self.start_ns == other.start_ns && self.end_ns
            <= other.end_ns)
    }
}

proof fn permuted_cover(a: Seq<(u64, u64)>, b: Seq<Span>, ordered: Seq<Span>, c: Seq<(u64, u64)>)
    requires
        b.len() == a.len(),
        forall|i: int| 0 <= i < a.len() ==> (#[trigger] b[i]) == (Span {
            start_ns: a[i].0,
            end_ns: a[i].1,
        }),
        b.to_multiset() == ordered.to_multiset(),
        c.len() == ordered.len(),
        forall|i: int| 0 <= i < c.len() ==> (#[trigger] c[i]) == (
            ordered[i].start_ns,
            ordered[i].end_ns,
        ),
    ensures
        covered(ints(a)) == covered(ints(c)),
        forall|i: int| 0 <= i < c.len() ==> a.contains(#[trigger] c[i]),
{
    b.to_multiset_ensures();
    ordered.to_multiset_ensures();
    assert forall|i: int| 0 <= i < c.len() implies a.contains(#[trigger] c[i]) by {
        assert(ordered.contains(ordered[i]));
        assert(ordered.to_multiset().count(ordered[i]) > 0);
        assert(b.contains(ordered[i]));
        let k = choose|k: int| 0 <= k < b.len() && b[k] == ordered[i];
        assert(a[k] == c[i]);
    }
    assert forall|t: int| covered(ints(a)).contains(t) <==> covered(ints(c)).contains(t) by {
        if covered(ints(a)).contains(t) {
            let k = choose|k: int|
                0 <= k < ints(a).len() && (#[trigger] ints(a)[k]).0 <= t < ints(a)[k].1;
            assert(b.contains(b[k]));
            assert(b.to_multiset().count(b[k]) > 0);
            assert(ordered.contains(b[k]));
            let m = choose|m: int| 0 <= m < ordered.len() && ordered[m] == b[k];
            assert(ints(c)[m].0 <= t < ints(c)[m].1);
        }
        if covered(ints(c)).contains(t) {
            let m = choose|m: int|
                0 <= m < ints(c).len() && (#[trigger] ints(c)[m]).0 <= t < ints(c)[m].1;
            assert(a.contains(c[m]));
            let k = choose|k: int| 0 <= k < a.len() && a[k] == c[m];
            assert(ints(a)[k].0 <= t < ints(a)[k].1);
        }
    }
    assert(covered(ints(a)) =~= covered(ints(c)));
}

/// The length of the union of stretches in any order.
pub fn busy_union(spans: &Vec<(u64, u64)>) -> (r: u64)
    requires
        forall|i: int| 0 <= i < spans@.len() ==> (#[trigger] spans@[i]).0 < spans@[i].1,
    ensures
        r == union_length(ints(spans@)),
{
    let mut list: Vec<Span> = Vec::new();
    let mut i: usize = 0;
    while i < spans.len()
        invariant
            i <= spans.len(),
            list@.len() == i,
            forall|k: int|
                0 <= k < i ==> (#[trigger] list@[k]) == (Span {
                    start_ns: spans@[k].0,
                    end_ns: spans@[k].1,
                }),
        decreases spans.len() - i,
    {
        list.push(Span { start_ns: spans[i].0, end_ns: spans[i].1 });
        i += 1;
    }
    let ordered = arrange(list);
    let mut flat: Vec<(u64, u64)> = Vec::new();
    let mut i: usize = 0;
    while i < ordered.len()
        invariant
            i <= ordered.len(),
            flat@.len() == i,
            forall|k: int|
                0 <= k < i ==> (#[trigger] flat@[k]) == (ordered@[k].start_ns, ordered@[k].end_ns),
        decreases ordered.len() - i,
    {
        flat.push((ordered[i].start_ns, ordered[i].end_ns));
        i += 1;
    }
    proof {
        permuted_cover(spans@, list@, ordered@, flat@);
        let s = ints(flat@);
        assert forall|i: int| 0 <= i < s.len() implies (#[trigger] s[i]).0 < s[i].1 by {
            assert(spans@.contains(flat@[i]));
            let k = choose|k: int| 0 <= k < spans@.len() && spans@[k] == flat@[i];
            assert(spans@[k].0 < spans@[k].1);
        }
        assert forall|i: int, j: int| 0 <= i <= j < s.len() implies (#[trigger] s[i]).0 <= (
        #[trigger] s[j]).0 by {
            assert(ordered@[i].before(ordered@[j]));
        }
        sorted_is_measurable(s);
    }
    match interval_union(flat.as_slice()) {
        Ok(total) => total,
        Err(_) => 0,
    }
}

proof fn placed_spans_run(kernels: Seq<FamilyActivity>, join: Join)
    ensures
        forall|i: int|
            0 <= i < placed_spans(kernels, join).len() ==> (#[trigger] placed_spans(
                kernels,
                join,
            )[i]).0 < placed_spans(kernels, join)[i].1,
    decreases kernels.len(),
{
    if kernels.len() > 0 {
        placed_spans_run(kernels.drop_last(), join);
        placed_interval_runs(kernels.last(), join);
        let front = placed_spans(kernels.drop_last(), join);
        let all = placed_spans(kernels, join);
        assert forall|i: int| 0 <= i < all.len() implies (#[trigger] all[i]).0 < all[i].1 by {
            if i < front.len() {
                assert(all[i] == front[i]);
                assert(front[i].0 < front[i].1);
            }
        }
    }
}

// Streams.

/// The streams that the first steps used.
pub open spec fn streams_used(kernels: Seq<FamilyActivity>, join: Join, n: int) -> Set<u32>
    decreases n,
{
    if n <= 0 {
        Set::empty()
    } else {
        streams_used(kernels, join, n - 1).union(
            aggregate_of(kernels, join, n - 1).streams.to_set(),
        )
    }
}

fn count_streams(
    aggregates: &Vec<StepAggregate>,
    Ghost(kernels): Ghost<Seq<FamilyActivity>>,
    Ghost(join): Ghost<Join>,
) -> (r: usize)
    requires
        aggregates_are(aggregates@, kernels, join),
    ensures
        r == streams_used(kernels, join, aggregates@.len() as int).len(),
{
    let mut seen: Vec<u32> = Vec::new();
    let mut n: usize = 0;
    assert(seen@.to_set() =~= Set::<u32>::empty());
    while n < aggregates.len()
        invariant
            n <= aggregates.len(),
            aggregates_are(aggregates@, kernels, join),
            seen@.no_duplicates(),
            seen@.to_set() == streams_used(kernels, join, n as int),
        decreases aggregates.len() - n,
    {
        let streams = &aggregates[n].streams;
        let ghost before = seen@.to_set();
        assert(aggregate_model(aggregates@[n as int]) == aggregate_of(kernels, join, n as int));
        let mut i: usize = 0;
        assert(streams@.take(0).to_set() =~= Set::<u32>::empty());
        assert(before.union(streams@.take(0).to_set()) =~= before);
        while i < streams.len()
            invariant
                i <= streams.len(),
                seen@.no_duplicates(),
                seen@.to_set() == before.union(streams@.take(i as int).to_set()),
            decreases streams.len() - i,
        {
            let stream: u32 = streams[i];
            let known: bool = holds(&seen, stream);
            let ghost old_seen = seen@;
            proof {
                set_of_push(streams@.take(i as int), stream);
                assert(streams@.take(i + 1) =~= streams@.take(i as int).push(stream));
                set_of_push(old_seen, stream);
            }
            if !known {
                seen.push(stream);
            }
            assert(seen@.to_set() =~= before.union(streams@.take(i + 1).to_set()));
            i += 1;
        }
        assert(streams@.take(streams@.len() as int) =~= streams@);
        n += 1;
    }
    proof {
        seen@.unique_seq_to_set();
    }
    seen.len()
}

proof fn set_of_push(s: Seq<u32>, x: u32)
    ensures
        s.push(x).to_set() == s.to_set().insert(x),
{
    assert forall|y: u32| s.push(x).to_set().contains(y) <==> s.to_set().insert(x).contains(y) by {
        if s.contains(y) {
            let i = choose|i: int| 0 <= i < s.len() && s[i] == y;
            assert(s.push(x)[i] == y);
        }
        if y == x {
            assert(s.push(x)[s.len() as int] == x);
        }
        if s.push(x).contains(y) {
            let i = choose|i: int| 0 <= i < s.push(x).len() && s.push(x)[i] == y;
            if i < s.len() {
                assert(s[i] == y);
            }
        }
    }
    assert(s.push(x).to_set() =~= s.to_set().insert(x));
}

fn holds(list: &Vec<u32>, value: u32) -> (r: bool)
    ensures
        r == list@.contains(value),
{
    let mut i: usize = 0;
    while i < list.len()
        invariant
            i <= list.len(),
            forall|k: int| 0 <= k < i ==> #[trigger] list@[k] != value,
        decreases list.len() - i,
    {
        if list[i] == value {
            assert(list@[i as int] == value);
            return true;
        }
        i += 1;
    }
    false
}

// The report.

/// The outcome of a full-step analysis.
#[derive(Debug)]
pub struct FullStepReport {
    pub rows: Vec<StepRow>,
    pub families: Vec<FamilyRow>,
    pub family_totals: Vec<FamilyTotal>,
    pub totals: StepTotals,
    pub counts: PlacementCounts,
    pub streams_observed: usize,
    pub global_busy_union_ns: u64,
    pub clock_offset_drift_ns: i128,
    pub accounting_mismatch: bool,
    pub passed: bool,
}

pub open spec fn gate_words(error: GateError, quality: CuptiQuality) -> Seq<char> {
    match error {
        GateError::PackedLayout => "semantic packed-layout gate failed"@,
        GateError::EmptyTrace => "CUPTI kernel or api trace is empty"@,
        GateError::Quality => quality_words(quality, "api_records"@, "api_drops"@),
        GateError::Clock => "CUPTI clock calibration is invalid"@,
    }
}

fn gate_text(error: GateError, quality: &CuptiQuality) -> (r: String)
    ensures
        r@ == gate_words(error, *quality),
{
    match error {
        GateError::PackedLayout => "semantic packed-layout gate failed".to_owned(),
        GateError::EmptyTrace => "CUPTI kernel or api trace is empty".to_owned(),
        GateError::Quality => quality_text(quality, "api_records", "api_drops"),
        GateError::Clock => "CUPTI clock calibration is invalid".to_owned(),
    }
}

pub open spec fn timeline_words(error: TimelineError) -> Seq<char> {
    match error {
        TimelineError::MissingLayout => "step is missing packed layout"@,
        TimelineError::NotIncreasing => "packed timestamps are not strictly increasing"@,
    }
}

pub fn timeline_text(error: TimelineError) -> (r: &'static str)
    ensures
        r@ == timeline_words(error),
{
    match error {
        TimelineError::MissingLayout => "step is missing packed layout",
        TimelineError::NotIncreasing => "packed timestamps are not strictly increasing",
    }
}

/// Why the analysis fails, if it does.
pub open spec fn analysis_failure(
    trace: SemanticTrace,
    kernels: Seq<FamilyActivity>,
    calls: Seq<ApiActivity>,
    quality: CuptiQuality,
    clock: ClockMap,
) -> Option<Seq<char>> {
    match refusing_gate(trace.complete(), kernels.len(), calls.len(), quality, clock) {
        Some(error) => Some(gate_words(error, quality)),
        None => if calls_repeat(calls) {
            Some("CUPTI api correlation IDs are not unique"@)
        } else {
            match timeline_of(trace.steps@) {
                Err(error) => Some(timeline_words(error)),
                Ok(timeline) => {
                    let join = Join { steps: trace.steps@, timeline, calls, clock };
                    let ordered = arranged(kernels);
                    if some_outside(ordered, join) {
                        Some("CUPTI activity timestamp lies outside calibration interval"@)
                    } else {
                        match steps_model(ordered, join, trace.steps@.len() as int) {
                            Err(error) => Some(error),
                            Ok(_) => None,
                        }
                    }
                },
            }
        },
    }
}

/// What the kernels are joined with.
pub open spec fn join_of(trace: SemanticTrace, calls: Seq<ApiActivity>, clock: ClockMap) -> Join {
    Join { steps: trace.steps@, timeline: timeline_of(trace.steps@)->Ok_0, calls, clock }
}

/// Whether the report says of the capture what the join comes to.
pub open spec fn report_is(
    report: FullStepReport,
    trace: SemanticTrace,
    kernels: Seq<FamilyActivity>,
    calls: Seq<ApiActivity>,
    quality: CuptiQuality,
    clock: ClockMap,
) -> bool {
    let join = join_of(trace, calls, clock);
    let ordered = arranged(kernels);
    let n = trace.steps@.len() as int;
    let model = steps_model(ordered, join, n)->Ok_0;
    &&& report.rows@ == model.rows
    &&& report.families@ == model.families.rows
    &&& report.family_totals@ == model.families.totals
    &&& report.totals == model.totals
    &&& report.counts == placement_counts(ordered, join)
    &&& report.streams_observed == streams_used(ordered, join, n).len()
    &&& report.global_busy_union_ns == union_length(ints(placed_spans(ordered, join)))
    &&& report.clock_offset_drift_ns == (clock.end.monotonic_ns - clock.end.cupti_ns) - (
    clock.start.monotonic_ns - clock.start.cupti_ns)
    &&& report.accounting_mismatch == (quality.records_seen != quality.target_records
        + quality.api_records)
    &&& report.passed == (model.totals.kernels == kernels.len() && placement_counts(ordered, join)
        == (PlacementCounts {
        unmatched_correlations: 0,
        unassigned_kernels: 0,
        api_pid_mismatches: 0,
        invalid_intervals: 0,
    }) && model.totals.empty_steps == 0 && model.totals.gpu_outside_semantic_steps == 0
        && !report.accounting_mismatch)
}

/// Joins the kernels of a capture with the steps of a trace.
pub fn analyze_full_steps(
    trace: &SemanticTrace,
    kernels: &[FamilyActivity],
    calls: &[ApiActivity],
    quality: &CuptiQuality,
    clock: ClockMap,
) -> (r: Result<FullStepReport, String>)
    ensures
        match (r, analysis_failure(*trace, kernels@, calls@, *quality, clock)) {
            (Ok(report), None) => report_is(report, *trace, kernels@, calls@, *quality, clock),
            (Err(error), Some(expected)) => error@ == expected,
            _ => false,
        },
{
    if let Err(error) = validate_inputs(
        trace.is_complete(),
        kernels.len(),
        calls.len(),
        quality,
        &clock,
    ) {
        return Err(gate_text(error, quality));
    }
    let index = match index_calls(calls) {
        Some(index) => index,
        None => {
            return Err("CUPTI api correlation IDs are not unique".to_owned());
        },
    };
    let steps = trace.steps.as_slice();
    let timeline = match packed_timeline(steps) {
        Ok(timeline) => timeline,
        Err(error) => {
            return Err(timeline_text(error).to_owned());
        },
    };
    let ghost join = Join { steps: steps@, timeline: timeline@, calls: calls@, clock };
    let ordered = arranged_copy(kernels);
    proof {
        kernels@.to_multiset_ensures();
        ordered@.to_multiset_ensures();
    }
    let gathered = match gather(
        ordered.as_slice(),
        steps,
        timeline.as_slice(),
        calls,
        &index,
        clock,
    ) {
        Some(gathered) => gathered,
        None => {
            return Err(
                "CUPTI activity timestamp lies outside calibration interval".to_owned(),
            );
        },
    };
    let measured = measure_steps(steps, &gathered.aggregates, Ghost(ordered@), Ghost(join))?;
    let streams_observed: usize = count_streams(
        &gathered.aggregates,
        Ghost(ordered@),
        Ghost(join),
    );
    proof {
        placed_spans_run(ordered@, join);
    }
    let global_busy_union_ns: u64 = busy_union(&gathered.spans);
    let accounting_mismatch = match quality.target_records.checked_add(quality.api_records) {
        Some(sum) => quality.records_seen != sum,
        None => true,
    };
    let counts = gathered.counts;
    let totals = measured.totals;
    let passed = totals.kernels == kernels.len() as u64 && counts.unmatched_correlations == 0
        && counts.unassigned_kernels == 0 && counts.api_pid_mismatches == 0
        && counts.invalid_intervals == 0 && totals.empty_steps == 0
        && totals.gpu_outside_semantic_steps == 0 && !accounting_mismatch;
    Ok(
        FullStepReport {
            rows: measured.rows,
            families: measured.family_rows,
            family_totals: measured.family_totals,
            totals,
            counts,
            streams_observed,
            global_busy_union_ns,
            clock_offset_drift_ns: clock.offset_drift_ns(),
            accounting_mismatch,
            passed,
        },
    )
}

// Laws.

/// How many kernels the first steps have.
pub open spec fn kernels_in_steps(kernels: Seq<FamilyActivity>, join: Join, n: int) -> nat
    decreases n,
{
    if n <= 0 {
        0
    } else {
        kernels_in_steps(kernels, join, n - 1) + aggregate_of(kernels, join, n - 1).intervals.len()
    }
}

/// Every kernel that is placed counts for exactly one step.
pub proof fn kernels_are_partitioned(kernels: Seq<FamilyActivity>, join: Join)
    requires
        join.wf(),
        join.steps.len() <= usize::MAX,
    ensures
        kernels_in_steps(kernels, join, join.steps.len() as int) == placed_spans(
            kernels,
            join,
        ).len(),
    decreases kernels.len(),
{
    let n = join.steps.len() as int;
    if kernels.len() == 0 {
        no_kernels_in_steps(kernels, join, n);
    } else {
        kernels_are_partitioned(kernels.drop_last(), join);
        placed_step_is_inside(kernels.last(), join);
        one_more_kernel(kernels, join, n);
    }
}

proof fn no_kernels_in_steps(kernels: Seq<FamilyActivity>, join: Join, n: int)
    requires
        kernels.len() == 0,
    ensures
        kernels_in_steps(kernels, join, n) == 0,
    decreases n,
{
    if n > 0 {
        no_kernels_in_steps(kernels, join, n - 1);
    }
}

proof fn placed_step_is_inside(k: FamilyActivity, join: Join)
    requires
        join.wf(),
        join.steps.len() <= usize::MAX,
    ensures
        placement(k, join) matches Placement::Placed { step, .. } ==> step < join.steps.len(),
{
    if let Some(call) = call_with(join.calls, k.correlation) {
        let time = join.clock.mapped(call.start_ns) as u64;
        entries_until_is_inside(join.timeline, time);
        let m = entries_until(join.timeline, time);
        if m > 0 {
            assert(join.timeline[m - 1].step_index < join.steps.len());
        }
    }
}

proof fn entries_until_is_inside(timeline: Seq<TimelineEntry>, time: u64)
    ensures
        entries_until(timeline, time) <= timeline.len(),
    decreases timeline.len(),
{
    if timeline.len() > 0 {
        entries_until_is_inside(timeline.drop_last(), time);
    }
}

proof fn one_more_kernel(kernels: Seq<FamilyActivity>, join: Join, n: int)
    requires
        kernels.len() > 0,
    ensures
        kernels_in_steps(kernels, join, n) == kernels_in_steps(kernels.drop_last(), join, n) + (
        match placement(kernels.last(), join) {
            Placement::Placed { step, .. } => if step < n {
                1nat
            } else {
                0
            },
            _ => 0,
        }),
    decreases n,
{
    if n > 0 {
        one_more_kernel(kernels, join, n - 1);
    }
}

/// The GPU is busy no longer than from the first kernel to the last of a step,
/// and no longer than the kernels run.
pub proof fn busy_time_fits(step: TraceStep, a: AggregateModel)
    requires
        a.intervals.len() > 0,
        all_run(a.intervals),
        row_of(step, a) is Ok,
    ensures
        (row_of(step, a)->Ok_0).gpu_busy_union_ns <= (row_of(step, a)->Ok_0).gpu_span_ns,
        (row_of(step, a)->Ok_0).gpu_busy_union_ns <= (row_of(step, a)->Ok_0).kernel_sum_ns,
{
    let ordered = arranged(a.intervals);
    arrangement_exists(a.intervals);
    arranging_keeps_running(a.intervals, ordered);
    let s = stretches(ordered);
    let last_end = latest_end(ordered);
    latest_end_bounds(ordered);
    assert forall|i: int| 0 <= i < s.len() implies (#[trigger] s[i]).0 < s[i].1 by {
        assert(ordered[i].start_ns < ordered[i].end_ns);
    }
    assert forall|i: int| 0 <= i < s.len() implies ordered[0].start_ns <= (#[trigger] s[i]).0
        && s[i].1 <= last_end by {
        assert(ordered[0].before(ordered[i]));
        assert(ordered[i].end_ns <= last_end);
    }
    assert(ordered[0].end_ns <= last_end);
    union_is_at_most_total(s);
    union_is_at_most_span(s, ordered[0].start_ns as int, last_end as int);
}

proof fn latest_end_bounds(intervals: Seq<StepInterval>)
    ensures
        forall|i: int|
            0 <= i < intervals.len() ==> (#[trigger] intervals[i]).end_ns <= latest_end(intervals),
    decreases intervals.len(),
{
    if intervals.len() > 0 {
        let front = intervals.drop_last();
        latest_end_bounds(front);
        assert forall|i: int| 0 <= i < intervals.len() implies (#[trigger] intervals[i]).end_ns
            <= latest_end(intervals) by {
            if i < front.len() {
                assert(front[i] == intervals[i]);
            }
        }
    }
}

} // verus!
