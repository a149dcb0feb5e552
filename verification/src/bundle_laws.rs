//! What a trace bundle shows: whose blocks are whose, when kernels ran from the
//! begin of their step, which step a kernel stands in, and records as they were
//! emitted.

use crate::bundle::{
    block_end, kernels_by_step, kernels_of_step, owned_block_ranges, phase_words, place_of_kernel,
    placed_kernels, rows_end, shares_are, step_of_call, BlockOwnership, BundleCall, BundleKernel,
    KernelShares, PlacedKernel,
};
use crate::bundle_view::{
    hex_id_words, known_blocks, shows_blocks, shows_kernel, shows_load, shows_moments,
    shows_output_token, shows_packed, shows_packed_token, shows_scheduled, KernelView,
    OutputTokenView, PackedSliceView, PackedTokenView, SchedulerSliceView, StepView,
};
use crate::clock::ClockMap;
use crate::digits::decimal;
use crate::index::{row_with, Identified};
use crate::order::{arranged, arrangement_exists, arranges, sorted, Keyed};
use crate::ownership::{
    in_sequence, timeline_of, OwnershipSlice, TimelineEntry, TimelineError, TraceStep,
};
use crate::ownership_laws::timeline_lists_the_steps;
use crate::semantic::{
    spec_accepted_output_token, spec_packed_request_slice, spec_packed_token_row,
    spec_request_slice,
};
use crate::sums::count_of;
use vstd::prelude::*;

verus! {

// Blocks.

/// Whether the block is shown for the request.
pub open spec fn shown_for(shown: Seq<BlockOwnership>, block: u32, request: u64) -> bool {
    exists|i: int|
        0 <= i < shown.len() && (#[trigger] shown[i]).request_id == request
            && shown[i].block_begin <= block < shown[i].block_end
}

/// Whether the row of the block's number is one of the request's.
pub open spec fn row_is_of(owners: Seq<OwnershipSlice>, row: u32, request: u64) -> bool {
    exists|j: int|
        0 <= j < owners.len() && (#[trigger] owners[j]).request_id == request
            && owners[j].row_begin <= row < owners[j].row_end
}

/// Whether the shown range is that of the owner, as far as there are blocks.
pub open spec fn is_range_of(shown: BlockOwnership, owner: OwnershipSlice, blocks: u32) -> bool {
    &&& shown.request_id == owner.request_id
    &&& shown.phase == owner.phase
    &&& shown.authoritative == owner.authoritative
    &&& shown.block_begin == owner.row_begin
    &&& shown.block_begin < shown.block_end
    &&& shown.block_end <= owner.row_end && shown.block_end <= blocks
    &&& shown.block_end == owner.row_end || shown.block_end == blocks
}

proof fn ranges_are_of_owners(owners: Seq<OwnershipSlice>, blocks: u32)
    ensures
        forall|i: int|
            0 <= i < owned_block_ranges(owners, blocks).len() ==> exists|j: int|
                0 <= j < owners.len() && is_range_of(
                    #[trigger] owned_block_ranges(owners, blocks)[i],
                    #[trigger] owners[j],
                    blocks,
                ),
        forall|j: int|
            0 <= j < owners.len() && (#[trigger] owners[j]).row_begin < owners[j].row_end
                && owners[j].row_begin < blocks ==> exists|i: int|
                0 <= i < owned_block_ranges(owners, blocks).len() && is_range_of(
                    #[trigger] owned_block_ranges(owners, blocks)[i],
                    owners[j],
                    blocks,
                ),
    decreases owners.len(),
{
    if owners.len() > 0 {
        let front = owners.drop_last();
        ranges_are_of_owners(front, blocks);
        let s = owned_block_ranges(front, blocks);
        let t = owned_block_ranges(owners, blocks);
        let last = owners.len() - 1;
        assert(owners[last] == owners.last());
        assert forall|i: int| 0 <= i < t.len() implies exists|j: int|
            0 <= j < owners.len() && is_range_of(#[trigger] t[i], #[trigger] owners[j], blocks) by {
            if i < s.len() {
                assert(s[i] == t[i]);
                let j = choose|j: int|
                    0 <= j < front.len() && is_range_of(s[i], #[trigger] front[j], blocks);
                assert(owners[j] == front[j]);
            } else {
                assert(is_range_of(t[i], owners[last], blocks));
            }
        }
        assert forall|j: int|
            0 <= j < owners.len() && (#[trigger] owners[j]).row_begin < owners[j].row_end
                && owners[j].row_begin < blocks implies exists|i: int|
            0 <= i < t.len() && is_range_of(#[trigger] t[i], owners[j], blocks) by {
            if j < last {
                assert(front[j] == owners[j]);
                let i = choose|i: int|
                    0 <= i < s.len() && is_range_of(#[trigger] s[i], front[j], blocks);
                assert(t[i] == s[i]);
            } else {
                assert(is_range_of(t[s.len() as int], owners[j], blocks));
            }
        }
    }
}

proof fn last_row_is_reached(owners: Seq<OwnershipSlice>)
    ensures
        forall|j: int| 0 <= j < owners.len() ==> (#[trigger] owners[j]).row_end <= rows_end(owners),
        rows_end(owners) > 0 ==> exists|j: int|
            0 <= j < owners.len() && (#[trigger] owners[j]).row_end == rows_end(owners),
    decreases owners.len(),
{
    if owners.len() > 0 {
        let front = owners.drop_last();
        last_row_is_reached(front);
        let last = owners.len() - 1;
        assert(owners[last] == owners.last());
        assert forall|j: int| 0 <= j < owners.len() implies (#[trigger] owners[j]).row_end
            <= rows_end(owners) by {
            if j < last {
                assert(front[j] == owners[j]);
            }
        }
        if rows_end(owners) > 0 && rows_end(owners) == rows_end(front) {
            let j = choose|j: int|
                0 <= j < front.len() && (#[trigger] front[j]).row_end == rows_end(front);
            assert(owners[j] == front[j]);
        }
    }
}

/// Of a kernel that writes the cache with one block for each row, a block is
/// shown for a request exactly where the row of its number is one of the
/// request's; of any other kernel no block is shown. Behind the last row the
/// blocks are padding.
pub proof fn blocks_go_to_the_owners_of_their_rows(
    r: KernelShares,
    placed: PlacedKernel,
    step_begin_ns: u64,
    owners: Seq<OwnershipSlice>,
)
    requires
        shares_are(r, placed, step_begin_ns, owners),
    ensures
        r.rows_are_blocks <==> placed.kernel.writes_cache && placed.kernel.grid.y == 1
            && placed.kernel.grid.z == 1,
        !r.rows_are_blocks ==> r.owners@.len() == 0,
        r.rows_are_blocks ==> forall|block: u32, request: u64|
            block < placed.kernel.grid.x ==> (#[trigger] shown_for(r.owners@, block, request)
                <==> row_is_of(owners, block, request)),
        forall|i: int|
            0 <= i < r.owners@.len() ==> exists|j: int|
                0 <= j < owners.len() && is_range_of(
                    #[trigger] r.owners@[i],
                    #[trigger] owners[j],
                    placed.kernel.grid.x,
                ),
        r.padding_blocks <= placed.kernel.grid.x,
        r.padding_blocks > 0 ==> forall|j: int|
            0 <= j < owners.len() ==> (#[trigger] owners[j]).row_end + r.padding_blocks
                <= placed.kernel.grid.x,
        r.padding_blocks < placed.kernel.grid.x ==> exists|j: int|
            0 <= j < owners.len() && (#[trigger] owners[j]).row_end + r.padding_blocks
                >= placed.kernel.grid.x,
{
    let blocks = placed.kernel.grid.x;
    let shown = r.owners@;
    ranges_are_of_owners(owners, blocks);
    last_row_is_reached(owners);
    if r.rows_are_blocks {
        assert forall|block: u32, request: u64| block < blocks implies (#[trigger] shown_for(
            shown,
            block,
            request,
        ) <==> row_is_of(owners, block, request)) by {
            if shown_for(shown, block, request) {
                let i = choose|i: int|
                    0 <= i < shown.len() && (#[trigger] shown[i]).request_id == request
                        && shown[i].block_begin <= block < shown[i].block_end;
                let j = choose|j: int|
                    0 <= j < owners.len() && is_range_of(shown[i], #[trigger] owners[j], blocks);
                assert(owners[j].row_begin <= block < owners[j].row_end);
            }
            if row_is_of(owners, block, request) {
                let j = choose|j: int|
                    0 <= j < owners.len() && (#[trigger] owners[j]).request_id == request
                        && owners[j].row_begin <= block < owners[j].row_end;
                let i = choose|i: int|
                    0 <= i < shown.len() && is_range_of(#[trigger] shown[i], owners[j], blocks);
                assert(shown[i].block_begin <= block < shown[i].block_end);
            }
        }
    }
}

/// Where no two owners share a row, no block is shown for two requests.
pub proof fn no_block_is_shown_twice(
    r: KernelShares,
    placed: PlacedKernel,
    step_begin_ns: u64,
    owners: Seq<OwnershipSlice>,
    block: u32,
    a: u64,
    b: u64,
)
    requires
        shares_are(r, placed, step_begin_ns, owners),
        forall|i: int, j: int|
            0 <= i < j < owners.len() ==> (#[trigger] owners[i]).row_end <= (
            #[trigger] owners[j]).row_begin || owners[j].row_end <= owners[i].row_begin,
        shown_for(r.owners@, block, a),
        shown_for(r.owners@, block, b),
    ensures
        a == b,
        block < placed.kernel.grid.x,
{
    blocks_go_to_the_owners_of_their_rows(r, placed, step_begin_ns, owners);
    let n = choose|n: int|
        0 <= n < r.owners@.len() && (#[trigger] r.owners@[n]).request_id == a
            && r.owners@[n].block_begin <= block < r.owners@[n].block_end;
    assert(exists|j: int|
        0 <= j < owners.len() && is_range_of(
            r.owners@[n],
            #[trigger] owners[j],
            placed.kernel.grid.x,
        ));
    assert(row_is_of(owners, block, a) && row_is_of(owners, block, b));
    let i = choose|j: int|
        0 <= j < owners.len() && (#[trigger] owners[j]).request_id == a && owners[j].row_begin
            <= block < owners[j].row_end;
    let j = choose|j: int|
        0 <= j < owners.len() && (#[trigger] owners[j]).request_id == b && owners[j].row_begin
            <= block < owners[j].row_end;
    if i < j {
        assert(owners[i].row_end <= owners[j].row_begin || owners[j].row_end
            <= owners[i].row_begin);
    } else if j < i {
        assert(owners[j].row_end <= owners[i].row_begin || owners[i].row_end
            <= owners[j].row_begin);
    }
}

/// The times of a kernel count from the begin of its step, and its duration leads
/// from its start to its end.
pub proof fn shares_time_the_kernel(
    r: KernelShares,
    placed: PlacedKernel,
    step_begin_ns: u64,
    owners: Seq<OwnershipSlice>,
)
    requires
        shares_are(r, placed, step_begin_ns, owners),
    ensures
        step_begin_ns + r.submit_from_step_ns == placed.submit_ns,
        step_begin_ns + r.start_from_step_ns == placed.gpu_start_ns,
        step_begin_ns + r.end_from_step_ns == placed.gpu_end_ns,
        placed.gpu_start_ns <= placed.gpu_end_ns ==> r.start_from_step_ns + r.duration_ns
            == r.end_from_step_ns,
        placed.gpu_start_ns >= placed.gpu_end_ns ==> r.duration_ns == 0,
{
}

/// Whether the view shows the blocks of the owner's rows.
pub open spec fn shows_rows_of(view: KernelView, i: int, owner: OwnershipSlice) -> bool {
    let shown = view.request_block_ownership@[i];
    &&& shown.request_id@ == hex_id_words(owner.request_id)
    &&& shown.phase@ == phase_words(owner.phase)
    &&& shown.block_begin == owner.row_begin
    &&& shown.block_begin < shown.block_end <= owner.row_end
    &&& shown.block_end == owner.row_end || shown.block_end == view.grid.x
    &&& owner.authoritative ==> shown.basis@ == "authoritative_packed_rows"@
    &&& !owner.authoritative ==> shown.basis@ == "scheduler_order_prediction"@
}

/// Whether the view shows there the blocks of one of the owners.
pub open spec fn shows_an_owner(view: KernelView, i: int, owners: Seq<OwnershipSlice>) -> bool {
    exists|j: int| 0 <= j < owners.len() && shows_rows_of(view, i, #[trigger] owners[j])
}

/// A kernel's view shows the kernel: it counts times from the begin of the step,
/// and where its rows are its blocks it shows for each owner the blocks of the
/// owner's rows, and nothing else.
pub proof fn view_shows_the_kernel(
    view: KernelView,
    placed: PlacedKernel,
    step_begin_ns: u64,
    owners: Seq<OwnershipSlice>,
)
    requires
        shows_kernel(view, placed, step_begin_ns, owners),
    ensures
        step_begin_ns + view.runtime_submit_from_step_ns == placed.submit_ns,
        step_begin_ns + view.start_from_step_ns == placed.gpu_start_ns,
        step_begin_ns + view.end_from_step_ns == placed.gpu_end_ns,
        placed.gpu_start_ns <= placed.gpu_end_ns ==> view.start_from_step_ns + view.duration_ns
            == view.end_from_step_ns,
        view.runtime_submit_ns@ == decimal(placed.submit_ns as nat),
        view.gpu_start_ns@ == decimal(placed.gpu_start_ns as nat),
        view.gpu_end_ns@ == decimal(placed.gpu_end_ns as nat),
        view.line == placed.kernel.line,
        view.correlation_id == placed.kernel.correlation,
        view.stream == placed.kernel.stream,
        view.grid == placed.kernel.grid,
        view.block == placed.kernel.block,
        view.graph_node_id == placed.kernel.graph_node_id,
        view.graph_id == placed.kernel.graph_id,
        view.grid_id == placed.kernel.grid_id,
        view.process == placed.call.process,
        view.thread == placed.call.thread,
        view.runtime_cbid == placed.call.cbid,
        ({
            let known = placed.kernel.writes_cache && view.grid.y == 1 && view.grid.z == 1;
            &&& known ==> view.attribution@ == "validated_cache_row_to_block"@
            &&& !known ==> view.attribution@ == "step_many_to_many_only"@
            &&& !known ==> view.request_block_ownership@.len() == 0
            &&& known ==> forall|j: int|
                0 <= j < owners.len() && (#[trigger] owners[j]).row_begin < owners[j].row_end
                    && owners[j].row_begin < view.grid.x ==> exists|i: int|
                    0 <= i < view.request_block_ownership@.len() && #[trigger] shows_rows_of(
                        view,
                        i,
                        owners[j],
                    )
        }),
        forall|i: int|
            0 <= i < view.request_block_ownership@.len() ==> #[trigger] shows_an_owner(
                view,
                i,
                owners,
            ),
{
    let blocks = known_blocks(placed, owners);
    ranges_are_of_owners(owners, placed.kernel.grid.x);
    assert forall|i: int| 0 <= i < view.request_block_ownership@.len() implies
        #[trigger] shows_an_owner(view, i, owners) by {
        assert(shows_blocks(view.request_block_ownership@[i], blocks[i]));
        let j = choose|j: int|
            0 <= j < owners.len() && is_range_of(
                blocks[i],
                #[trigger] owners[j],
                placed.kernel.grid.x,
            );
        assert(shows_rows_of(view, i, owners[j]));
    }
    if placed.kernel.writes_cache && view.grid.y == 1 && view.grid.z == 1 {
        assert forall|j: int|
            0 <= j < owners.len() && (#[trigger] owners[j]).row_begin < owners[j].row_end
                && owners[j].row_begin < view.grid.x implies exists|i: int|
            0 <= i < view.request_block_ownership@.len() && #[trigger] shows_rows_of(
                view,
                i,
                owners[j],
            ) by {
            let i = choose|i: int|
                0 <= i < blocks.len() && is_range_of(
                    #[trigger] blocks[i],
                    owners[j],
                    placed.kernel.grid.x,
                );
            assert(shows_blocks(view.request_block_ownership@[i], blocks[i]));
            assert(shows_rows_of(view, i, owners[j]));
        }
    }
}

// Steps.

/// A step's view shows the step: its wall time leads from its begin to its end,
/// and its phase says whether it prefilled, decoded or both.
pub proof fn view_shows_the_step(view: StepView, step: TraceStep)
    requires
        shows_moments(view, step),
        shows_load(view, step),
    ensures
        view.id == step.begin.step_id,
        view.begin_ns@ == decimal(step.begin.timestamp_ns as nat),
        view.end_ns@ == decimal(step.end_timestamp_ns as nat),
        step.begin.timestamp_ns <= step.end_timestamp_ns ==> step.begin.timestamp_ns
            + view.wall_ns == step.end_timestamp_ns,
        view.packed_ns is Some <==> step.packed_begin is Some,
        view.packed_ns matches Some(text) ==> text@ == decimal(
            (step.packed_begin->0).timestamp_ns as nat,
        ),
        view.prefill_tokens == step.begin.prefill_tokens,
        view.decode_tokens == step.begin.decode_tokens,
        view.scheduled_tokens == step.begin.scheduled_tokens,
        view.queue_depth == step.begin.queue_depth,
        view.active_requests == step.begin.active_requests,
        view.kv_cache_usage_permyriad == step.begin.kv_cache_usage_permyriad,
        view.scheduler_order_mismatches == step.scheduler_order_mismatches,
        view.prefill_tokens > 0 && view.decode_tokens > 0 ==> view.phase@ == "mixed"@,
        view.prefill_tokens > 0 && view.decode_tokens == 0 ==> view.phase@ == "prefill"@,
        view.prefill_tokens == 0 && view.decode_tokens > 0 ==> view.phase@ == "decode"@,
        view.prefill_tokens == 0 && view.decode_tokens == 0 ==> view.phase@ == "empty"@,
{
}

// Records.

/// A slice that the engine scheduled is shown as it was emitted.
pub proof fn scheduled_slice_is_shown_as_emitted(
    view: SchedulerSliceView,
    timestamp_ns: u64,
    sequence: u64,
    step_id: u64,
    request_id: u64,
    sequence_id: u64,
    scheduled_tokens: u32,
    service_class_id: u16,
    phase: u8,
    pid: u32,
    tid: u32,
)
    requires
        shows_scheduled(
            view,
            spec_request_slice(
                timestamp_ns,
                sequence,
                step_id,
                request_id,
                sequence_id,
                scheduled_tokens,
                service_class_id,
                phase,
                pid,
                tid,
            ),
        ),
    ensures
        view.request_id@ == hex_id_words(request_id),
        view.phase@ == phase_words(phase),
        view.scheduled_tokens == scheduled_tokens,
{
}

/// A slice of a packed layout is shown as it was emitted.
pub proof fn packed_slice_is_shown_as_emitted(
    view: PackedSliceView,
    timestamp_ns: u64,
    sequence: u64,
    step_id: u64,
    request_id: u64,
    packing_generation: u64,
    row_begin: u32,
    row_end: u32,
    scheduled_tokens: u32,
    packed_index: u32,
    phase: u8,
    pid: u32,
    tid: u32,
)
    requires
        shows_packed(
            view,
            spec_packed_request_slice(
                timestamp_ns,
                sequence,
                step_id,
                request_id,
                packing_generation,
                row_begin,
                row_end,
                scheduled_tokens,
                packed_index,
                phase,
                pid,
                tid,
            ),
        ),
    ensures
        view.request_id@ == hex_id_words(request_id),
        view.row_begin == row_begin,
        view.row_end == row_end,
        view.packed_index == packed_index,
        view.scheduled_tokens == scheduled_tokens,
        view.phase@ == phase_words(phase),
        view.authoritative,
{
}

/// A packed token is shown as it was emitted.
pub proof fn packed_token_is_shown_as_emitted(
    view: PackedTokenView,
    timestamp_ns: u64,
    sequence: u64,
    step_id: u64,
    request_id: u64,
    packing_generation: u64,
    packed_row: u32,
    sequence_position: u32,
    token_id: u32,
    phase: u8,
    flags: u32,
    pid: u32,
    tid: u32,
)
    requires
        shows_packed_token(
            view,
            spec_packed_token_row(
                timestamp_ns,
                sequence,
                step_id,
                request_id,
                packing_generation,
                packed_row,
                sequence_position,
                token_id,
                phase,
                flags,
                pid,
                tid,
            ),
        ),
    ensures
        view.request_id@ == hex_id_words(request_id),
        view.packing_generation == packing_generation,
        view.packed_row == packed_row,
        view.sequence_position == sequence_position,
        view.token_id == token_id,
        view.phase@ == phase_words(phase),
        view.timestamp_ns@ == decimal(timestamp_ns as nat),
{
}

/// An accepted token is shown as it was emitted.
pub proof fn output_token_is_shown_as_emitted(
    view: OutputTokenView,
    timestamp_ns: u64,
    sequence: u64,
    step_id: u64,
    request_id: u64,
    output_position: u32,
    token_id: u32,
    flags: u32,
    pid: u32,
    tid: u32,
)
    requires
        shows_output_token(
            view,
            spec_accepted_output_token(
                timestamp_ns,
                sequence,
                step_id,
                request_id,
                output_position,
                token_id,
                flags,
                pid,
                tid,
            ),
        ),
    ensures
        view.request_id@ == hex_id_words(request_id),
        view.output_position == output_position,
        view.token_id == token_id,
        view.timestamp_ns@ == decimal(timestamp_ns as nat),
{
}

// Kernels.

proof fn latest_bracket(
    timeline: Seq<TimelineEntry>,
    n: int,
    steps: Seq<TraceStep>,
    submit_ns: u64,
) -> (k: int)
    requires
        0 <= n <= timeline.len(),
        step_of_call(timeline, n, steps, submit_ns) is Some,
    ensures
        0 <= k < n,
        Some(timeline[k].step_index) == step_of_call(timeline, n, steps, submit_ns),
        timeline[k].timestamp_ns <= submit_ns
            <= steps[timeline[k].step_index as int].end_timestamp_ns,
        forall|m: int|
            k < m < n ==> !((#[trigger] timeline[m]).timestamp_ns <= submit_ns
                <= steps[timeline[m].step_index as int].end_timestamp_ns),
    decreases n,
{
    let entry = timeline[n - 1];
    if entry.timestamp_ns <= submit_ns && submit_ns
        <= steps[entry.step_index as int].end_timestamp_ns {
        n - 1
    } else {
        latest_bracket(timeline, n - 1, steps, submit_ns)
    }
}

proof fn entry_of(steps: Seq<TraceStep>, timeline: Seq<TimelineEntry>, i: int) -> (k: int)
    requires
        steps.len() <= usize::MAX,
        timeline_of(steps) == Ok::<Seq<TimelineEntry>, TimelineError>(timeline),
        0 <= i < steps.len(),
    ensures
        0 <= k < timeline.len(),
        timeline[k].step_index == i,
        timeline[k].timestamp_ns == (steps[i].packed_begin->0).timestamp_ns,
{
    timeline_lists_the_steps(steps, timeline);
    assert(steps[i].packed_begin is Some);
    choose|k: int|
        0 <= k < timeline.len() && (#[trigger] timeline[k]).step_index == i
            && timeline[k].timestamp_ns == (steps[i].packed_begin->0).timestamp_ns
}

/// Whether the step was packed at or before the moment and had not ended then.
pub open spec fn is_running(step: TraceStep, moment: u64) -> bool {
    (step.packed_begin->0).timestamp_ns <= moment <= step.end_timestamp_ns
}

proof fn call_is_found(calls: Seq<BundleCall>, id: u64)
    ensures
        row_with(calls, id) matches Some(call) ==> calls.contains(call) && call.correlation == id,
{
    if row_with(calls, id) is Some {
        let c = choose|c: int| 0 <= c < calls.len() && (#[trigger] calls[c]).spec_id() == id;
        assert(calls[c].spec_id() == id);
    }
}

proof fn call_falls_into_the_step(
    timeline: Seq<TimelineEntry>,
    steps: Seq<TraceStep>,
    submit_ns: u64,
    step: usize,
)
    requires
        steps.len() <= usize::MAX,
        timeline_of(steps) == Ok::<Seq<TimelineEntry>, TimelineError>(timeline),
        step_of_call(timeline, timeline.len() as int, steps, submit_ns) == Some(step),
    ensures
        step < steps.len(),
        is_running(steps[step as int], submit_ns),
        forall|i: int|
            0 <= i < steps.len() && is_running(#[trigger] steps[i], submit_ns) ==> (
            steps[i].packed_begin->0).timestamp_ns <= (
            steps[step as int].packed_begin->0).timestamp_ns,
{
    let n = timeline.len() as int;
    let k = latest_bracket(timeline, n, steps, submit_ns);
    assert(in_sequence(timeline) && step < steps.len() && timeline[k].timestamp_ns == (
    steps[step as int].packed_begin->0).timestamp_ns) by {
        timeline_lists_the_steps(steps, timeline);
        assert(timeline[k].step_index == step);
    }
    assert forall|i: int|
        0 <= i < steps.len() && is_running(#[trigger] steps[i], submit_ns) implies (
    steps[i].packed_begin->0).timestamp_ns <= (steps[step as int].packed_begin->0).timestamp_ns by {
        let m = entry_of(steps, timeline, i);
        if m < k {
            assert(timeline[m].timestamp_ns < timeline[k].timestamp_ns);
        }
    }
}

/// A placed kernel was launched by the call with its correlation, while its step
/// was running, and stands in the step that was packed last of those running
/// then. Its times are those that the device gave, on the engine's clock.
pub proof fn kernel_stands_where_it_was_launched(
    kernel: BundleKernel,
    steps: Seq<TraceStep>,
    timeline: Seq<TimelineEntry>,
    calls: Seq<BundleCall>,
    clock: ClockMap,
    placed: PlacedKernel,
)
    requires
        steps.len() <= usize::MAX,
        timeline_of(steps) == Ok::<Seq<TimelineEntry>, TimelineError>(timeline),
        place_of_kernel(kernel, steps, timeline, calls, clock) == Ok::<PlacedKernel, Seq<char>>(
            placed,
        ),
    ensures
        placed.kernel == kernel,
        calls.contains(placed.call),
        placed.call.correlation == kernel.correlation,
        placed.step_index < steps.len(),
        is_running(steps[placed.step_index as int], placed.submit_ns),
        forall|i: int|
            0 <= i < steps.len() && is_running(#[trigger] steps[i], placed.submit_ns) ==> (
            steps[i].packed_begin->0).timestamp_ns <= (
            steps[placed.step_index as int].packed_begin->0).timestamp_ns,
        clock.spans(placed.call.start_ns) && clock.spans(kernel.start_ns) && clock.spans(
            kernel.end_ns,
        ),
        placed.submit_ns == clock.mapped(placed.call.start_ns) as u64,
        placed.gpu_start_ns == clock.mapped(kernel.start_ns) as u64,
        placed.gpu_end_ns == clock.mapped(kernel.end_ns) as u64,
{
    let id = kernel.correlation as u64;
    call_is_found(calls, id);
    call_falls_into_the_step(
        timeline,
        steps,
        placed.submit_ns,
        placed.step_index,
    );
}

/// Every kernel is placed, in its order, or none is.
pub proof fn every_kernel_is_placed(
    kernels: Seq<BundleKernel>,
    n: int,
    steps: Seq<TraceStep>,
    timeline: Seq<TimelineEntry>,
    calls: Seq<BundleCall>,
    clock: ClockMap,
    placed: Seq<PlacedKernel>,
)
    requires
        0 <= n <= kernels.len(),
        placed_kernels(kernels, n, steps, timeline, calls, clock) == Ok::<
            Seq<PlacedKernel>,
            Seq<char>,
        >(placed),
    ensures
        placed.len() == n,
        forall|i: int|
            0 <= i < n ==> place_of_kernel(kernels[i], steps, timeline, calls, clock) == Ok::<
                PlacedKernel,
                Seq<char>,
            >(#[trigger] placed[i]),
    decreases n,
{
    if n > 0 {
        let front = placed_kernels(kernels, n - 1, steps, timeline, calls, clock)->Ok_0;
        every_kernel_is_placed(kernels, n - 1, steps, timeline, calls, clock, front);
        assert forall|i: int| 0 <= i < n implies place_of_kernel(
            kernels[i],
            steps,
            timeline,
            calls,
            clock,
        ) == Ok::<PlacedKernel, Seq<char>>(#[trigger] placed[i]) by {
            if i < n - 1 {
                assert(front[i] == placed[i]);
            }
        }
    }
}

proof fn kernels_of_step_are_counted(placed: Seq<PlacedKernel>, step: int)
    ensures
        kernels_of_step(placed, step).len() == count_of(
            placed,
            |k: PlacedKernel| k.step_index == step,
        ),
        forall|m: int|
            0 <= m < kernels_of_step(placed, step).len() ==> placed.contains(
                #[trigger] kernels_of_step(placed, step)[m],
            ) && kernels_of_step(placed, step)[m].step_index == step,
    decreases placed.len(),
{
    if placed.len() > 0 {
        let front = placed.drop_last();
        kernels_of_step_are_counted(front, step);
        let s = kernels_of_step(front, step);
        let t = kernels_of_step(placed, step);
        let last = placed.len() - 1;
        assert(placed[last] == placed.last());
        assert forall|m: int| 0 <= m < t.len() implies placed.contains(#[trigger] t[m])
            && t[m].step_index == step by {
            if m < s.len() {
                assert(s[m] == t[m]);
                let i = choose|i: int| 0 <= i < front.len() && front[i] == s[m];
                assert(placed[i] == t[m]);
            }
        }
    }
}

/// A step lists its kernels, all of them and no other, by the time at which they
/// ran.
pub proof fn step_lists_its_kernels_by_time(placed: Seq<PlacedKernel>, steps: nat, i: int)
    requires
        0 <= i < steps,
    ensures
        kernels_by_step(placed, steps).len() == steps,
        kernels_by_step(placed, steps)[i].len() == count_of(
            placed,
            |k: PlacedKernel| k.step_index == i,
        ),
        forall|m: int|
            0 <= m < kernels_by_step(placed, steps)[i].len() ==> placed.contains(
                #[trigger] kernels_by_step(placed, steps)[i][m],
            ) && kernels_by_step(placed, steps)[i][m].step_index == i,
        forall|m: int, n: int|
            0 <= m <= n < kernels_by_step(placed, steps)[i].len() ==> {
                let a = #[trigger] kernels_by_step(placed, steps)[i][m];
                let b = #[trigger] kernels_by_step(placed, steps)[i][n];
                a.gpu_start_ns < b.gpu_start_ns || a.gpu_start_ns == b.gpu_start_ns
                    && a.gpu_end_ns <= b.gpu_end_ns
            },
{
    let s = kernels_of_step(placed, i);
    let t = kernels_by_step(placed, steps)[i];
    assert(t == arranged(s));
    kernels_of_step_are_counted(placed, i);
    arrangement_exists(s);
    assert(arranges(s, t));
    s.to_multiset_ensures();
    t.to_multiset_ensures();
    assert forall|m: int| 0 <= m < t.len() implies placed.contains(#[trigger] t[m])
        && t[m].step_index == i by {
        assert(t.contains(t[m]));
        assert(s.to_multiset().count(t[m]) > 0);
        assert(s.contains(t[m]));
        let n = choose|n: int| 0 <= n < s.len() && s[n] == t[m];
        assert(placed.contains(s[n]));
    }
    assert forall|m: int, n: int| 0 <= m <= n < t.len() implies {
        let a = #[trigger] t[m];
        let b = #[trigger] t[n];
        a.gpu_start_ns < b.gpu_start_ns || a.gpu_start_ns == b.gpu_start_ns && a.gpu_end_ns
            <= b.gpu_end_ns
    } by {
        assert(sorted(t));
        assert(t[m].before(t[n]));
    }
}

} // verus!
