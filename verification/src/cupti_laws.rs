//! What the rows of a CUPTI join mean: the busy time, the overlap and the ends of
//! a decode step's kernels, in terms of the kernels themselves.

use crate::clock::{mapped_is_inside, ClockMap};
use crate::cupti::{call_with, calls_repeat, ApiActivity, CuptiQuality, KernelActivity};
use crate::cupti_join::{
    all_last, earliest_start, join_failure, join_report_is, last_end, owner_mismatches, owner_row,
    owner_rows, suffix_aggregate_of, suffix_counts, suffix_join_of, suffix_model, suffix_placement,
    suffix_row, CuptiJoinReport, SuffixAggregateModel, SuffixJoin, SuffixModel, SuffixPlacement,
    SuffixRow,
};
use crate::full_step_laws::call_is_the_one;
use crate::intervals::{covered, duration_total, ints, union_is_at_most_total};
use crate::order::{arranged, arrangement_exists};
use crate::ownership::{
    step_in_window, timeline_of, OwnershipSlice, SemanticTrace, TimelineEntry, TimelineError,
    TraceStep,
};
use crate::ownership_laws::{moment_belongs_to_the_step_packed_last, packed_last};
use crate::sums::{
    count_of, counts_fit, none_is_counted, some_is_counted, sum_ignores_order, sum_of,
};
use vstd::prelude::*;
use vstd::set_lib::{lemma_int_range, set_int_range};

verus! {

/// The instants at which one of the kernels ran.
pub open spec fn running_instants(intervals: Seq<(u64, u64)>) -> Set<int> {
    Set::new(
        |t: int|
            exists|i: int|
                0 <= i < intervals.len() && (#[trigger] intervals[i]).0 <= t < intervals[i].1,
    )
}

proof fn running_is_covered(s: Seq<(u64, u64)>)
    ensures
        covered(ints(s)) == running_instants(s),
{
    assert forall|t: int| covered(ints(s)).contains(t) <==> running_instants(s).contains(t) by {
        if covered(ints(s)).contains(t) {
            let i = choose|i: int|
                0 <= i < ints(s).len() && (#[trigger] ints(s)[i]).0 <= t < ints(s)[i].1;
            assert(s[i].0 <= t < s[i].1);
        }
        if running_instants(s).contains(t) {
            let i = choose|i: int| 0 <= i < s.len() && (#[trigger] s[i]).0 <= t < s[i].1;
            assert(ints(s)[i] == (s[i].0 as int, s[i].1 as int));
        }
    }
    assert(covered(ints(s)) =~= running_instants(s));
}

proof fn duration_is_sum(s: Seq<(u64, u64)>)
    ensures
        duration_total(ints(s)) == sum_of(s, |x: (u64, u64)| x.1 - x.0),
    decreases s.len(),
{
    if s.len() > 0 {
        duration_is_sum(s.drop_last());
        assert(ints(s).drop_last() =~= ints(s.drop_last()));
    }
}

proof fn bounds_are_reached(s: Seq<(u64, u64)>)
    requires
        s.len() > 0,
    ensures
        forall|i: int| 0 <= i < s.len() ==> earliest_start(s) <= (#[trigger] s[i]).0,
        exists|e: int| 0 <= e < s.len() && (#[trigger] s[e]).0 == earliest_start(s),
        forall|i: int| 0 <= i < s.len() ==> (#[trigger] s[i]).1 <= last_end(s),
        exists|l: int| 0 <= l < s.len() && (#[trigger] s[l]).1 == last_end(s),
    decreases s.len(),
{
    let front = s.drop_last();
    let last = s.len() - 1;
    assert(s[last] == s.last());
    if front.len() > 0 {
        bounds_are_reached(front);
        let e = choose|e: int| 0 <= e < front.len() && (#[trigger] front[e]).0 == earliest_start(front);
        let l = choose|l: int| 0 <= l < front.len() && (#[trigger] front[l]).1 == last_end(front);
        assert(s[e] == front[e] && s[l] == front[l]);
        assert forall|i: int| 0 <= i < s.len() implies earliest_start(s) <= (#[trigger] s[i]).0
            && s[i].1 <= last_end(s) by {
            if i < last {
                assert(front[i] == s[i]);
            }
        }
    } else {
        assert(last_end(front) == 0);
    }
}

/// A decode step's row tells of its kernels: the busy time is the number of
/// instants at which one of them ran, the overlap is what their times add up to
/// beyond that, the lag leads from the packed layout to the first start, and the
/// tail from the latest end to the end of the step.
pub proof fn row_times_the_kernels(step: TraceStep, a: SuffixAggregateModel, row: SuffixRow)
    requires
        all_last(a.intervals),
        suffix_row(step, a) == Some(row),
    ensures
        running_instants(a.intervals).finite(),
        row.busy_union_ns == running_instants(a.intervals).len(),
        row.kernel_sum_ns == sum_of(a.intervals, |x: (u64, u64)| x.1 - x.0),
        row.busy_union_ns + row.overlap_ns == row.kernel_sum_ns,
        a.intervals.len() > 0 ==> exists|e: int, l: int|
            {
                &&& 0 <= e < a.intervals.len() && 0 <= l < a.intervals.len()
                &&& forall|i: int|
                    0 <= i < a.intervals.len() ==> (#[trigger] a.intervals[e]).0
                        <= a.intervals[i].0 && a.intervals[i].1 <= (#[trigger] a.intervals[l]).1
                &&& (step.packed_begin->0).timestamp_ns + row.first_gpu_lag_ns == a.intervals[e].0
                &&& step.end_timestamp_ns - row.gpu_tail_to_step_end_ns == a.intervals[l].1
            },
{
    let s = a.intervals;
    running_is_covered(s);
    duration_is_sum(s);
    assert forall|i: int| 0 <= i < ints(s).len() implies (#[trigger] ints(s)[i]).0
        <= ints(s)[i].1 by {
        assert(s[i].0 < s[i].1);
    }
    union_is_at_most_total(ints(s));
    if s.len() > 0 {
        bounds_are_reached(s);
        let e = choose|e: int| 0 <= e < s.len() && (#[trigger] s[e]).0 == earliest_start(s);
        let l = choose|l: int| 0 <= l < s.len() && (#[trigger] s[l]).1 == last_end(s);
        assert(0 <= e < s.len() && 0 <= l < s.len());
        assert forall|i: int| 0 <= i < s.len() implies (#[trigger] s[e]).0 <= s[i].0 && s[i].1
            <= (#[trigger] s[l]).1 by {}
        assert((step.packed_begin->0).timestamp_ns + row.first_gpu_lag_ns == s[e].0);
        assert(step.end_timestamp_ns - row.gpu_tail_to_step_end_ns == s[l].1);
    }
}

/// A decode step's row shows the step as it was recorded, and the calls that
/// launched its kernels.
pub proof fn row_shows_the_step(step: TraceStep, a: SuffixAggregateModel, row: SuffixRow)
    requires
        a.intervals.len() <= usize::MAX,
        a.streams.len() <= usize::MAX,
        suffix_row(step, a) == Some(row),
    ensures
        row.step_id == step.begin.step_id,
        row.packing_generation == (step.packed_begin->0).sequence_id,
        row.scheduled_tokens == step.begin.scheduled_tokens,
        row.decode_tokens == step.begin.decode_tokens,
        row.requests == step.owner_count,
        row.reordered_positions == step.scheduler_order_mismatches,
        row.kernels == a.intervals.len(),
        row.streams == a.streams.len(),
        row.graph_kernels == a.graph_nodes,
        row.ordinary_kernels == a.ordinary_kernels,
        row.padding_blocks == a.padding_blocks,
        a.runtime_first_ns <= a.runtime_last_ns ==> a.runtime_first_ns + row.runtime_submit_span_ns
            == a.runtime_last_ns,
{
}

// Where kernels belong.

/// Whether the kernel counts for the step.
pub open spec fn counts_for(k: KernelActivity, join: SuffixJoin, i: int) -> bool {
    &&& suffix_placement(k, join) is InStep
    &&& suffix_placement(k, join)->step == i
    &&& !suffix_placement(k, join)->wrong_geometry
}

/// Whether the call launched the kernel into the step: it has the kernel's
/// correlation, succeeded, and began on the engine's clock while the step was the
/// one packed last and had not ended.
pub open spec fn submitted_into(
    k: KernelActivity,
    call: ApiActivity,
    steps: Seq<TraceStep>,
    clock: ClockMap,
    i: int,
) -> bool {
    &&& call.correlation == k.correlation
    &&& call.return_value == 0
    &&& clock.spans(call.start_ns) && clock.spans(call.end_ns) && clock.spans(k.start_ns)
        && clock.spans(k.end_ns)
    &&& clock.mapped(call.start_ns) <= clock.mapped(call.end_ns)
    &&& clock.mapped(k.start_ns) < clock.mapped(k.end_ns)
    &&& packed_last(steps, i, clock.mapped(call.start_ns) as u64)
    &&& clock.mapped(call.start_ns) <= steps[i].end_timestamp_ns
}

/// Whether the kernel has one block for each scheduled token, in one row of
/// blocks that have threads.
pub open spec fn has_block_per_token(k: KernelActivity, step: TraceStep) -> bool {
    &&& k.grid.x >= step.begin.scheduled_tokens
    &&& k.grid.y == 1 && k.grid.z == 1
    &&& k.block.x > 0 && k.block.y > 0 && k.block.z > 0
}

/// A kernel counts for a step of the suffix exactly where one of the calls
/// launched it into the step and it has a block for each token, and then runs
/// when the device said it did, on the engine's clock.
pub proof fn kernel_belongs_where_it_was_launched(k: KernelActivity, join: SuffixJoin)
    requires
        !calls_repeat(join.calls),
        join.steps.len() <= usize::MAX,
        timeline_of(join.steps) == Ok::<Seq<TimelineEntry>, TimelineError>(join.timeline),
    ensures
        forall|i: int|
            #[trigger] counts_for(k, join, i) <==> join.suffix.contains(i as usize)
                && has_block_per_token(k, join.steps[i]) && exists|c: int|
                0 <= c < join.calls.len() && #[trigger] submitted_into(
                    k,
                    join.calls[c],
                    join.steps,
                    join.clock,
                    i,
                ),
        suffix_placement(k, join) matches SuffixPlacement::InStep {
            step,
            call_start_ns,
            call_end_ns,
            start_ns,
            end_ns,
            wrong_process,
            wrong_geometry,
        } ==> {
            &&& start_ns == join.clock.mapped(k.start_ns)
            &&& end_ns == join.clock.mapped(k.end_ns)
            &&& start_ns < end_ns
            &&& wrong_geometry == !has_block_per_token(k, join.steps[step as int])
            &&& exists|c: int|
                0 <= c < join.calls.len() && (#[trigger] join.calls[c]).correlation
                    == k.correlation && call_start_ns == join.clock.mapped(join.calls[c].start_ns)
                    && call_end_ns == join.clock.mapped(join.calls[c].end_ns) && wrong_process == (
                join.calls[c].process != join.steps[step as int].begin.pid)
        },
        suffix_placement(k, join) == SuffixPlacement::Unmatched <==> forall|c: int|
            0 <= c < join.calls.len() ==> (#[trigger] join.calls[c]).correlation != k.correlation,
{
    call_is_the_one(join.calls, k.correlation);
    match call_with(join.calls, k.correlation) {
        None => {
            assert forall|i: int, c: int| 0 <= c < join.calls.len() implies !#[trigger] submitted_into(
                k,
                join.calls[c],
                join.steps,
                join.clock,
                i,
            ) by {
                assert(join.calls[c].correlation != k.correlation);
            }
        },
        Some(call) => {
            let own = choose|c: int| 0 <= c < join.calls.len() && join.calls[c] == call;
            assert forall|c: int|
                0 <= c < join.calls.len() && (#[trigger] join.calls[c]).correlation
                    == k.correlation implies c == own by {
                if c < own {
                    assert(join.calls[c].correlation == join.calls[own].correlation);
                } else if own < c {
                    assert(join.calls[own].correlation == join.calls[c].correlation);
                }
            }
            if join.clock.spans(call.start_ns) {
                mapped_is_inside(join.clock, call.start_ns);
            }
            if join.clock.spans(call.end_ns) {
                mapped_is_inside(join.clock, call.end_ns);
            }
            if join.clock.spans(k.start_ns) {
                mapped_is_inside(join.clock, k.start_ns);
            }
            if join.clock.spans(k.end_ns) {
                mapped_is_inside(join.clock, k.end_ns);
            }
            let moment = join.clock.mapped(call.start_ns) as u64;
            moment_belongs_to_the_step_packed_last(moment, join.steps, join.timeline);
            assert forall|i: int|
                #[trigger] counts_for(k, join, i) <==> join.suffix.contains(i as usize)
                    && has_block_per_token(k, join.steps[i]) && exists|c: int|
                    0 <= c < join.calls.len() && #[trigger] submitted_into(
                        k,
                        join.calls[c],
                        join.steps,
                        join.clock,
                        i,
                    ) by {
                assert(step_in_window(moment, join.steps, join.timeline) == Some(i) <==> packed_last(
                    join.steps,
                    i,
                    moment,
                ) && moment <= join.steps[i].end_timestamp_ns);
                if counts_for(k, join, i) {
                    let at = step_in_window(moment, join.steps, join.timeline)->0;
                    assert(packed_last(join.steps, at, moment));
                    assert(submitted_into(k, join.calls[own], join.steps, join.clock, i));
                }
                if exists|c: int|
                    0 <= c < join.calls.len() && #[trigger] submitted_into(
                        k,
                        join.calls[c],
                        join.steps,
                        join.clock,
                        i,
                    ) {
                    let c = choose|c: int|
                        0 <= c < join.calls.len() && #[trigger] submitted_into(
                            k,
                            join.calls[c],
                            join.steps,
                            join.clock,
                            i,
                        );
                    assert(join.calls[c].correlation == k.correlation);
                }
            }
            assert(join.calls[own].correlation == k.correlation);
            if suffix_placement(k, join) is InStep {
                let at = step_in_window(moment, join.steps, join.timeline)->0;
                assert(packed_last(join.steps, at, moment));
            }
        },
    }
}

/// When a kernel that counts for a step ran.
pub open spec fn interval_of(k: KernelActivity, join: SuffixJoin) -> (u64, u64) {
    (suffix_placement(k, join)->start_ns, suffix_placement(k, join)->end_ns)
}

/// Whether the interval is that of a kernel that counts for the step.
pub open spec fn runs_in_step(
    x: (u64, u64),
    kernels: Seq<KernelActivity>,
    join: SuffixJoin,
    i: int,
) -> bool {
    exists|n: int|
        0 <= n < kernels.len() && counts_for(#[trigger] kernels[n], join, i) && interval_of(
            kernels[n],
            join,
        ) == x
}

/// A step gathers exactly the kernels that count for it: as many intervals, and
/// each that of such a kernel.
pub proof fn step_gathers_its_kernels(kernels: Seq<KernelActivity>, join: SuffixJoin, i: int)
    ensures
        suffix_aggregate_of(kernels, join, i).intervals.len() == count_of(
            kernels,
            |k: KernelActivity| counts_for(k, join, i),
        ),
        forall|n: int|
            0 <= n < kernels.len() && counts_for(#[trigger] kernels[n], join, i)
                ==> suffix_aggregate_of(kernels, join, i).intervals.contains(
                interval_of(kernels[n], join),
            ),
        forall|m: int|
            0 <= m < suffix_aggregate_of(kernels, join, i).intervals.len() ==> runs_in_step(
                #[trigger] suffix_aggregate_of(kernels, join, i).intervals[m],
                kernels,
                join,
                i,
            ),
    decreases kernels.len(),
{
    let a = suffix_aggregate_of(kernels, join, i);
    if kernels.len() > 0 {
        let front = kernels.drop_last();
        let b = suffix_aggregate_of(front, join, i);
        step_gathers_its_kernels(front, join, i);
        let last = kernels.len() - 1;
        assert(kernels[last] == kernels.last());
        assert forall|n: int|
            0 <= n < kernels.len() && counts_for(#[trigger] kernels[n], join, i) implies
            a.intervals.contains(interval_of(kernels[n], join)) by {
            let x = interval_of(kernels[n], join);
            if n < last {
                assert(kernels[n] == front[n]);
                let m = choose|m: int| 0 <= m < b.intervals.len() && b.intervals[m] == x;
                assert(a.intervals[m] == x);
            } else {
                assert(a.intervals[b.intervals.len() as int] == x);
            }
        }
        assert forall|m: int| 0 <= m < a.intervals.len() implies runs_in_step(
            #[trigger] a.intervals[m],
            kernels,
            join,
            i,
        ) by {
            if m < b.intervals.len() {
                assert(b.intervals[m] == a.intervals[m]);
                let n = choose|n: int|
                    0 <= n < front.len() && counts_for(#[trigger] front[n], join, i)
                        && interval_of(front[n], join) == b.intervals[m];
                assert(kernels[n] == front[n]);
            } else {
                assert(counts_for(kernels[last], join, i));
            }
        }
    }
}

/// A step knows each stream of its kernels once, and no other.
pub proof fn step_knows_its_streams(kernels: Seq<KernelActivity>, join: SuffixJoin, i: int)
    ensures
        ({
            let a = suffix_aggregate_of(kernels, join, i);
            &&& forall|n: int|
                0 <= n < kernels.len() && counts_for(#[trigger] kernels[n], join, i)
                    ==> a.streams.contains(kernels[n].stream)
            &&& forall|m: int|
                0 <= m < a.streams.len() ==> exists|n: int|
                    0 <= n < kernels.len() && counts_for(#[trigger] kernels[n], join, i)
                        && kernels[n].stream == #[trigger] a.streams[m]
            &&& a.streams.no_duplicates()
        }),
    decreases kernels.len(),
{
    let a = suffix_aggregate_of(kernels, join, i);
    if kernels.len() > 0 {
        let front = kernels.drop_last();
        let b = suffix_aggregate_of(front, join, i);
        step_knows_its_streams(front, join, i);
        let last = kernels.len() - 1;
        assert(kernels[last] == kernels.last());
        if a.streams != b.streams {
            let x = kernels.last().stream;
            assert(a.streams == b.streams.push(x) && !b.streams.contains(x));
            assert forall|m: int, w: int|
                0 <= m < a.streams.len() && 0 <= w < a.streams.len() && m
                    != w implies a.streams[m] != a.streams[w] by {
                if m < b.streams.len() {
                    assert(b.streams.contains(b.streams[m]));
                }
                if w < b.streams.len() {
                    assert(b.streams.contains(b.streams[w]));
                }
            }
        }
        assert forall|n: int|
            0 <= n < kernels.len() && counts_for(#[trigger] kernels[n], join, i) implies
            a.streams.contains(kernels[n].stream) by {
            let x = kernels[n].stream;
            if n < last {
                assert(kernels[n] == front[n]);
                let w = choose|w: int| 0 <= w < b.streams.len() && b.streams[w] == x;
                assert(a.streams[w] == x);
            } else if !b.streams.contains(x) {
                assert(a.streams[b.streams.len() as int] == x);
            }
        }
        assert forall|m: int| 0 <= m < a.streams.len() implies exists|n: int|
            0 <= n < kernels.len() && counts_for(#[trigger] kernels[n], join, i)
                && kernels[n].stream == #[trigger] a.streams[m] by {
            if m < b.streams.len() {
                assert(b.streams[m] == a.streams[m]);
                let n = choose|n: int|
                    0 <= n < front.len() && counts_for(#[trigger] front[n], join, i)
                        && front[n].stream == b.streams[m];
                assert(kernels[n] == front[n]);
            } else {
                assert(counts_for(kernels[last], join, i));
            }
        }
    }
}

/// The kernels of a step are those of graphs and the ordinary ones, and its
/// padding blocks are all the blocks of its kernels beyond one for each token.
pub proof fn step_counts_its_kernels(kernels: Seq<KernelActivity>, join: SuffixJoin, i: int)
    requires
        kernels.len() * 0x1_0000_0000 <= u64::MAX,
    ensures
        ({
            let a = suffix_aggregate_of(kernels, join, i);
            &&& a.intervals.len() <= kernels.len()
            &&& a.graph_nodes + a.ordinary_kernels == a.intervals.len()
            &&& a.graph_nodes == count_of(
                kernels,
                |k: KernelActivity|
                    counts_for(k, join, i) && (k.graph_node_id != 0 || k.graph_id != 0),
            )
            &&& a.padding_blocks == sum_of(
                kernels,
                |k: KernelActivity|
                    if counts_for(k, join, i) {
                        k.grid.x - join.steps[i].begin.scheduled_tokens
                    } else {
                        0
                    },
            )
            &&& a.padding_blocks <= kernels.len() * 0xffff_ffff
        }),
    decreases kernels.len(),
{
    if kernels.len() > 0 {
        step_counts_its_kernels(kernels.drop_last(), join, i);
    }
}

proof fn empty_has_no_call(kernels: Seq<KernelActivity>, join: SuffixJoin, i: int)
    requires
        suffix_aggregate_of(kernels, join, i).intervals.len() == 0,
    ensures
        suffix_aggregate_of(kernels, join, i).runtime_last_ns == 0,
        suffix_aggregate_of(kernels, join, i).runtime_first_ns == 0,
        forall|n: int|
            0 <= n < kernels.len() ==> !counts_for(#[trigger] kernels[n], join, i),
    decreases kernels.len(),
{
    if kernels.len() > 0 {
        let front = kernels.drop_last();
        empty_has_no_call(front, join, i);
        assert forall|n: int| 0 <= n < kernels.len() implies !counts_for(
            #[trigger] kernels[n],
            join,
            i,
        ) by {
            if n < front.len() {
                assert(front[n] == kernels[n]);
            }
        }
    }
}

/// The last call of a step is that of one of its kernels and none of them has a
/// later one. Where no call begins at zero, the same holds of the first.
pub proof fn step_spans_its_calls(kernels: Seq<KernelActivity>, join: SuffixJoin, i: int)
    requires
        forall|n: int|
            0 <= n < kernels.len() && counts_for(#[trigger] kernels[n], join, i)
                ==> suffix_placement(kernels[n], join)->call_start_ns > 0,
    ensures
        ({
            let a = suffix_aggregate_of(kernels, join, i);
            &&& forall|n: int|
                0 <= n < kernels.len() && counts_for(#[trigger] kernels[n], join, i)
                    ==> a.runtime_first_ns <= suffix_placement(kernels[n], join)->call_start_ns
                    && suffix_placement(kernels[n], join)->call_end_ns <= a.runtime_last_ns
            &&& a.intervals.len() > 0 ==> a.runtime_first_ns > 0 && (exists|n: int|
                0 <= n < kernels.len() && counts_for(#[trigger] kernels[n], join, i)
                    && suffix_placement(kernels[n], join)->call_start_ns == a.runtime_first_ns) && (
            exists|n: int|
                0 <= n < kernels.len() && counts_for(#[trigger] kernels[n], join, i)
                    && suffix_placement(kernels[n], join)->call_end_ns == a.runtime_last_ns)
        }),
    decreases kernels.len(),
{
    let a = suffix_aggregate_of(kernels, join, i);
    if kernels.len() > 0 {
        let front = kernels.drop_last();
        let b = suffix_aggregate_of(front, join, i);
        let last = kernels.len() - 1;
        assert(kernels[last] == kernels.last());
        assert forall|n: int| 0 <= n < front.len() implies #[trigger] kernels[n] == front[n] by {}
        assert forall|n: int|
            0 <= n < front.len() && counts_for(#[trigger] front[n], join, i) implies
            suffix_placement(front[n], join)->call_start_ns > 0 by {
            assert(counts_for(kernels[n], join, i));
        }
        step_spans_its_calls(front, join, i);
        if b.intervals.len() == 0 {
            empty_has_no_call(front, join, i);
        } else {
            let n = choose|n: int|
                0 <= n < front.len() && counts_for(#[trigger] front[n], join, i)
                    && suffix_placement(front[n], join)->call_start_ns == b.runtime_first_ns;
            let m = choose|m: int|
                0 <= m < front.len() && counts_for(#[trigger] front[m], join, i)
                    && suffix_placement(front[m], join)->call_end_ns == b.runtime_last_ns;
            assert(counts_for(kernels[n], join, i));
            assert(counts_for(kernels[m], join, i));
        }
        if a != b {
            assert(counts_for(kernels[last], join, i));
        }
        assert forall|n: int|
            0 <= n < kernels.len() && counts_for(#[trigger] kernels[n], join, i) implies
            a.runtime_first_ns <= suffix_placement(kernels[n], join)->call_start_ns
            && suffix_placement(kernels[n], join)->call_end_ns <= a.runtime_last_ns by {
            if n < last {
                assert(counts_for(front[n], join, i));
            }
        }
    }
}

// Requests.

/// Whether the owner's rows are surely its own and as many as its tokens.
pub open spec fn holds_its_tokens(owner: OwnershipSlice) -> bool {
    owner.authoritative && owner.row_begin + owner.scheduled_tokens == owner.row_end
}

proof fn mismatch_is_of_rows(owner: OwnershipSlice, kernels: nat)
    requires
        kernels > 0,
    ensures
        owner_row(owner, kernels).mismatch == !holds_its_tokens(owner),
{
    let tokens = owner.scheduled_tokens as int;
    let rows = owner.row_end - owner.row_begin;
    if tokens * kernels == rows * kernels {
        assert(tokens == rows) by (nonlinear_arith)
            requires
                kernels > 0,
                tokens * kernels == rows * kernels,
        ;
    }
}

/// An owner's row tells that each kernel of its step ran one block for each of
/// its tokens, and where the step has kernels it is a mismatch exactly where the
/// owner's rows are not surely its own or not as many as its tokens.
pub proof fn owner_rows_count_blocks(owners: Seq<OwnershipSlice>, kernels: nat, k: int)
    requires
        0 <= k < owners.len(),
        kernels <= usize::MAX,
    ensures
        owner_rows(owners, kernels).len() == owners.len(),
        owner_rows(owners, kernels)[k].owner == owners[k],
        owner_rows(owners, kernels)[k].inferred_blocks == owners[k].scheduled_tokens * kernels,
        kernels > 0 ==> owner_rows(owners, kernels)[k].mismatch == !holds_its_tokens(owners[k]),
{
    let tokens = owners[k].scheduled_tokens as int;
    assert(0 <= tokens * kernels <= 0xffff_ffff * 0xffff_ffff_ffff_ffff) by (nonlinear_arith)
        requires
            0 <= tokens <= 0xffff_ffff,
            0 <= kernels <= 0xffff_ffff_ffff_ffff,
    ;
    if kernels > 0 {
        mismatch_is_of_rows(owners[k], kernels);
    }
}

// All steps.

/// There is one row for each step of the suffix, in its order, and the totals are
/// the sums of the rows.
pub proof fn rows_are_of_the_suffix(
    trace: SemanticTrace,
    kernels: Seq<KernelActivity>,
    join: SuffixJoin,
    expected_kernels: usize,
    n: int,
    model: SuffixModel,
)
    requires
        0 <= n <= join.suffix.len(),
        n <= u64::MAX,
        suffix_model(trace, kernels, join, expected_kernels, n) == Ok::<SuffixModel, Seq<char>>(
            model,
        ),
    ensures
        model.rows.len() == n,
        forall|r: int|
            0 <= r < n ==> suffix_row(
                trace.steps@[join.suffix[r] as int],
                suffix_aggregate_of(kernels, join, join.suffix[r] as int),
            ) == Some(#[trigger] model.rows[r]),
        model.totals.kernel_sum_ns == sum_of(model.rows, |x: SuffixRow| x.kernel_sum_ns as int),
        model.totals.busy_union_ns == sum_of(model.rows, |x: SuffixRow| x.busy_union_ns as int),
        model.totals.selected_reordered_steps == count_of(
            model.rows,
            |x: SuffixRow| x.reordered_positions != 0,
        ),
        sum_of(model.rows, |x: SuffixRow| x.padding_blocks as int) <= u64::MAX
            ==> model.totals.padding_blocks == sum_of(
            model.rows,
            |x: SuffixRow| x.padding_blocks as int,
        ),
        sum_of(model.rows, |x: SuffixRow| x.graph_kernels as int) <= u64::MAX
            ==> model.totals.graph_kernels == sum_of(
            model.rows,
            |x: SuffixRow| x.graph_kernels as int,
        ),
        sum_of(model.rows, |x: SuffixRow| x.ordinary_kernels as int) <= u64::MAX
            ==> model.totals.ordinary_kernels == sum_of(
            model.rows,
            |x: SuffixRow| x.ordinary_kernels as int,
        ),
    decreases n,
{
    if n > 0 {
        let before = suffix_model(trace, kernels, join, expected_kernels, n - 1)->Ok_0;
        rows_are_of_the_suffix(trace, kernels, join, expected_kernels, n - 1, before);
        counts_fit(before.rows, |x: SuffixRow| x.reordered_positions != 0);
        let row = model.rows.last();
        assert(model.rows == before.rows.push(row));
        assert(model.rows.drop_last() =~= before.rows);
        assert forall|r: int| 0 <= r < n implies suffix_row(
            trace.steps@[join.suffix[r] as int],
            suffix_aggregate_of(kernels, join, join.suffix[r] as int),
        ) == Some(#[trigger] model.rows[r]) by {
            if r < n - 1 {
                assert(before.rows[r] == model.rows[r]);
            }
        }
    }
}

/// The kernels of all rows are those that were selected, and as many steps as
/// have another number of kernels than expected are counted as mismatches.
pub proof fn kernels_are_selected(
    trace: SemanticTrace,
    kernels: Seq<KernelActivity>,
    join: SuffixJoin,
    expected_kernels: usize,
    n: int,
    model: SuffixModel,
)
    requires
        0 <= n <= join.suffix.len(),
        n <= u64::MAX,
        kernels.len() <= usize::MAX,
        suffix_model(trace, kernels, join, expected_kernels, n) == Ok::<SuffixModel, Seq<char>>(
            model,
        ),
    ensures
        model.totals.kernel_count_mismatches == count_of(
            model.rows,
            |x: SuffixRow| x.kernels != expected_kernels,
        ),
        sum_of(model.rows, |x: SuffixRow| x.kernels as int) <= u64::MAX
            ==> model.totals.selected_kernels == sum_of(
            model.rows,
            |x: SuffixRow| x.kernels as int,
        ),
    decreases n,
{
    if n > 0 {
        let before = suffix_model(trace, kernels, join, expected_kernels, n - 1)->Ok_0;
        kernels_are_selected(trace, kernels, join, expected_kernels, n - 1, before);
        rows_are_of_the_suffix(trace, kernels, join, expected_kernels, n - 1, before);
        counts_fit(before.rows, |x: SuffixRow| x.kernels != expected_kernels);
        let row = model.rows.last();
        assert(model.rows == before.rows.push(row));
        assert(model.rows.drop_last() =~= before.rows);
        step_gathers_its_kernels(kernels, join, join.suffix[n - 1] as int);
        counts_fit(
            kernels,
            |k: KernelActivity| counts_for(k, join, join.suffix[n - 1] as int),
        );
    }
}

// The join.

/// Whether the kernel ran in a step of the suffix.
pub open spec fn in_suffix(k: KernelActivity, join: SuffixJoin) -> bool {
    suffix_placement(k, join) is InStep
}

proof fn kernels_are_counted(kernels: Seq<KernelActivity>, join: SuffixJoin)
    requires
        kernels.len() <= u64::MAX,
    ensures
        suffix_counts(kernels, join).unmatched_correlations == count_of(
            kernels,
            |k: KernelActivity| suffix_placement(k, join) == SuffixPlacement::Unmatched,
        ),
        suffix_counts(kernels, join).unassigned_kernels == count_of(
            kernels,
            |k: KernelActivity| suffix_placement(k, join) == SuffixPlacement::Unassigned,
        ),
        suffix_counts(kernels, join).kernels_outside_suffix == count_of(
            kernels,
            |k: KernelActivity| suffix_placement(k, join) == SuffixPlacement::OutsideSuffix,
        ),
        suffix_counts(kernels, join).runtime_pid_mismatches == count_of(
            kernels,
            |k: KernelActivity| in_suffix(k, join) && suffix_placement(k, join)->wrong_process,
        ),
        suffix_counts(kernels, join).invalid_geometry == count_of(
            kernels,
            |k: KernelActivity| in_suffix(k, join) && suffix_placement(k, join)->wrong_geometry,
        ),
    decreases kernels.len(),
{
    if kernels.len() > 0 {
        let front = kernels.drop_last();
        kernels_are_counted(front, join);
        counts_fit(
            front,
            |k: KernelActivity| suffix_placement(k, join) == SuffixPlacement::Unmatched,
        );
        counts_fit(
            front,
            |k: KernelActivity| suffix_placement(k, join) == SuffixPlacement::Unassigned,
        );
        counts_fit(
            front,
            |k: KernelActivity| suffix_placement(k, join) == SuffixPlacement::OutsideSuffix,
        );
        counts_fit(
            front,
            |k: KernelActivity| in_suffix(k, join) && suffix_placement(k, join)->wrong_process,
        );
        counts_fit(
            front,
            |k: KernelActivity| in_suffix(k, join) && suffix_placement(k, join)->wrong_geometry,
        );
    }
}

proof fn same_count(s: Seq<KernelActivity>, t: Seq<KernelActivity>, p: spec_fn(KernelActivity) -> bool)
    requires
        s.to_multiset() == t.to_multiset(),
    ensures
        count_of(s, p) == count_of(t, p),
{
    sum_ignores_order(
        s,
        t,
        |k: KernelActivity|
            if p(k) {
                1
            } else {
                0
            },
    );
}

/// A join is reported as it is: the kernels that belong to no step of the suffix
/// are counted by reason, and it passes only where every kernel has a call and a
/// step, those of the suffix ran in the step's process with a block for each
/// token, and every step of the suffix has the kernels that were expected.
pub proof fn join_is_accounted_for(
    report: CuptiJoinReport,
    trace: SemanticTrace,
    kernels: Seq<KernelActivity>,
    calls: Seq<ApiActivity>,
    quality: CuptiQuality,
    clock: ClockMap,
    expected_kernels: usize,
    require_reordering: bool,
)
    requires
        kernels.len() <= usize::MAX,
        join_failure(trace, kernels, calls, quality, clock, expected_kernels) is None,
        join_report_is(
            report,
            trace,
            kernels,
            calls,
            clock,
            expected_kernels,
            require_reordering,
        ),
    ensures
        ({
            let join = suffix_join_of(trace, calls, clock);
            &&& report.counts.unmatched_correlations == count_of(
                kernels,
                |k: KernelActivity| suffix_placement(k, join) == SuffixPlacement::Unmatched,
            )
            &&& report.counts.unassigned_kernels == count_of(
                kernels,
                |k: KernelActivity| suffix_placement(k, join) == SuffixPlacement::Unassigned,
            )
            &&& report.counts.kernels_outside_suffix == count_of(
                kernels,
                |k: KernelActivity| suffix_placement(k, join) == SuffixPlacement::OutsideSuffix,
            )
            &&& report.counts.runtime_pid_mismatches == count_of(
                kernels,
                |k: KernelActivity| in_suffix(k, join) && suffix_placement(k, join)->wrong_process,
            )
            &&& report.counts.invalid_geometry == count_of(
                kernels,
                |k: KernelActivity| in_suffix(k, join) && suffix_placement(k, join)->wrong_geometry,
            )
            &&& clock.end.monotonic_ns - clock.start.monotonic_ns == clock.end.cupti_ns
                - clock.start.cupti_ns + report.clock_offset_drift_ns
            &&& report.passed && join.suffix.len() <= u64::MAX ==> {
                &&& forall|n: int|
                    0 <= n < kernels.len() ==> match suffix_placement(#[trigger] kernels[n], join) {
                        SuffixPlacement::InStep {
                            wrong_process,
                            wrong_geometry,
                            ..
                        } => !wrong_process && !wrong_geometry,
                        SuffixPlacement::Unmatched => false,
                        SuffixPlacement::Unassigned => false,
                        _ => true,
                    }
                &&& report.rows@.len() == join.suffix.len()
                &&& forall|r: int|
                    0 <= r < report.rows@.len() ==> (#[trigger] report.rows@[r]).kernels
                        == expected_kernels
                &&& report.totals.request_count_mismatches == 0
                &&& require_reordering ==> exists|r: int|
                    0 <= r < report.rows@.len() && (
                    #[trigger] report.rows@[r]).reordered_positions != 0
            }
        }),
{
    let join = suffix_join_of(trace, calls, clock);
    let ordered = arranged(kernels);
    arrangement_exists(kernels);
    kernels.to_multiset_ensures();
    ordered.to_multiset_ensures();
    kernels_are_counted(ordered, join);
    let unmatched = |k: KernelActivity| suffix_placement(k, join) == SuffixPlacement::Unmatched;
    let unassigned = |k: KernelActivity| suffix_placement(k, join) == SuffixPlacement::Unassigned;
    let outside = |k: KernelActivity| suffix_placement(k, join) == SuffixPlacement::OutsideSuffix;
    let elsewhere = |k: KernelActivity|
        in_suffix(k, join) && suffix_placement(k, join)->wrong_process;
    let misshapen = |k: KernelActivity|
        in_suffix(k, join) && suffix_placement(k, join)->wrong_geometry;
    same_count(kernels, ordered, unmatched);
    same_count(kernels, ordered, unassigned);
    same_count(kernels, ordered, outside);
    same_count(kernels, ordered, elsewhere);
    same_count(kernels, ordered, misshapen);
    let n = join.suffix.len() as int;
    let model = suffix_model(trace, ordered, join, expected_kernels, n)->Ok_0;
    if report.passed && n <= u64::MAX {
        none_is_counted(kernels, unmatched);
        none_is_counted(kernels, unassigned);
        none_is_counted(kernels, elsewhere);
        none_is_counted(kernels, misshapen);
        assert forall|m: int| 0 <= m < kernels.len() implies match suffix_placement(
            #[trigger] kernels[m],
            join,
        ) {
            SuffixPlacement::InStep { wrong_process, wrong_geometry, .. } => !wrong_process
                && !wrong_geometry,
            SuffixPlacement::Unmatched => false,
            SuffixPlacement::Unassigned => false,
            _ => true,
        } by {
            assert(!unmatched(kernels[m]) && !unassigned(kernels[m]) && !elsewhere(kernels[m])
                && !misshapen(kernels[m]));
        }
        rows_are_of_the_suffix(trace, ordered, join, expected_kernels, n, model);
        kernels_are_selected(trace, ordered, join, expected_kernels, n, model);
        let unexpected = |x: SuffixRow| x.kernels != expected_kernels;
        none_is_counted(model.rows, unexpected);
        assert forall|r: int| 0 <= r < report.rows@.len() implies (
        #[trigger] report.rows@[r]).kernels == expected_kernels by {
            assert(!unexpected(model.rows[r]));
        }
        if require_reordering {
            let reordered = |x: SuffixRow| x.reordered_positions != 0;
            some_is_counted(model.rows, reordered);
            let r = choose|r: int| 0 <= r < model.rows.len() && reordered(#[trigger] model.rows[r]);
            assert(report.rows@[r].reordered_positions != 0);
        }
    }
}

} // verus!
