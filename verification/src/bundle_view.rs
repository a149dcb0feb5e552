//! What a trace bundle shows: of each engine step its records, its requests and
//! its kernels, and of the whole its counts. Timestamps are decimal text and
//! request hashes hexadecimal text, so that no reader's numbers round them.

use crate::bundle::{
    kernel_shares, owned_block_ranges, phase, phase_words, rows_are_blocks, rows_end, step_phase,
    step_phase_words, BlockOwnership, PlacedKernel,
};
use crate::clock::ClockMap;
use crate::digits::{append_padded_hex, decimal, decimal_text, padded_hex};
use crate::ownership::{OwnershipSlice, SemanticTrace, TraceStep};
use crate::semantic::SemanticWireRecord;
use crate::trace_event::Dim3;
use vstd::prelude::*;
use vstd::slice::slice_subrange;
use vstd::string::*;

verus! {

/// The hexadecimal text of a request's hash.
pub open spec fn hex_id_words(value: u64) -> Seq<char> {
    "0x"@ + padded_hex(value as nat, 16)
}

pub fn hex_id(value: u64) -> (text: String)
    ensures
        text@ == hex_id_words(value),
{
    let mut text = "0x".to_owned();
    append_padded_hex(&mut text, value, 16);
    text
}

// Records.

/// A request that the scheduler put into a step.
#[derive(Debug)]
pub struct SchedulerSliceView {
    pub request_id: String,
    pub phase: &'static str,
    pub scheduled_tokens: u32,
}

pub open spec fn shows_scheduled(view: SchedulerSliceView, record: SemanticWireRecord) -> bool {
    &&& view.request_id@ == hex_id_words(record.request_id)
    &&& view.phase@ == phase_words(record.phase)
    &&& view.scheduled_tokens == record.scheduled_tokens
}

/// The rows of a request in the packed batch of a step.
#[derive(Debug)]
pub struct PackedSliceView {
    pub request_id: String,
    pub packed_index: u32,
    pub row_begin: u32,
    pub row_end: u32,
    pub phase: &'static str,
    pub scheduled_tokens: u32,
    pub authoritative: bool,
}

pub open spec fn shows_packed(view: PackedSliceView, record: SemanticWireRecord) -> bool {
    &&& view.request_id@ == hex_id_words(record.request_id)
    &&& view.packed_index == record.queue_depth
    &&& view.row_begin == record.prefill_tokens
    &&& view.row_end == record.decode_tokens
    &&& view.phase@ == phase_words(record.phase)
    &&& view.scheduled_tokens == record.scheduled_tokens
    &&& view.authoritative
}

/// A token of the focused request in the packed batch of a step.
#[derive(Debug)]
pub struct PackedTokenView {
    pub request_id: String,
    pub packing_generation: u64,
    pub packed_row: u32,
    pub sequence_position: u32,
    pub token_id: u32,
    pub phase: &'static str,
    pub timestamp_ns: String,
}

pub open spec fn shows_packed_token(view: PackedTokenView, record: SemanticWireRecord) -> bool {
    &&& view.request_id@ == hex_id_words(record.request_id)
    &&& view.packing_generation == record.sequence_id
    &&& view.packed_row == record.prefill_tokens
    &&& view.sequence_position == record.decode_tokens
    &&& view.token_id == record.scheduled_tokens
    &&& view.phase@ == phase_words(record.phase)
    &&& view.timestamp_ns@ == decimal(record.timestamp_ns as nat)
}

/// A token that the engine accepted in a step.
#[derive(Debug)]
pub struct OutputTokenView {
    pub request_id: String,
    pub output_position: u64,
    pub token_id: u32,
    pub timestamp_ns: String,
}

pub open spec fn shows_output_token(view: OutputTokenView, record: SemanticWireRecord) -> bool {
    &&& view.request_id@ == hex_id_words(record.request_id)
    &&& view.output_position == record.sequence_id
    &&& view.token_id == record.scheduled_tokens
    &&& view.timestamp_ns@ == decimal(record.timestamp_ns as nat)
}

fn view_scheduled(records: &[SemanticWireRecord]) -> (views: Vec<SchedulerSliceView>)
    ensures
        views@.len() == records@.len(),
        forall|i: int|
            0 <= i < records@.len() ==> shows_scheduled(#[trigger] views@[i], records@[i]),
{
    let mut views: Vec<SchedulerSliceView> = Vec::new();
    let mut i: usize = 0;
    while i < records.len()
        invariant
            i <= records.len(),
            views@.len() == i,
            forall|k: int| 0 <= k < i ==> shows_scheduled(#[trigger] views@[k], records@[k]),
        decreases records.len() - i,
    {
        let record = records[i];
        views.push(
            SchedulerSliceView {
                request_id: hex_id(record.request_id),
                phase: phase(record.phase),
                scheduled_tokens: record.scheduled_tokens,
            },
        );
        i += 1;
    }
    views
}

fn view_packed(records: &[SemanticWireRecord]) -> (views: Vec<PackedSliceView>)
    ensures
        views@.len() == records@.len(),
        forall|i: int| 0 <= i < records@.len() ==> shows_packed(#[trigger] views@[i], records@[i]),
{
    let mut views: Vec<PackedSliceView> = Vec::new();
    let mut i: usize = 0;
    while i < records.len()
        invariant
            i <= records.len(),
            views@.len() == i,
            forall|k: int| 0 <= k < i ==> shows_packed(#[trigger] views@[k], records@[k]),
        decreases records.len() - i,
    {
        let record = records[i];
        views.push(
            PackedSliceView {
                request_id: hex_id(record.request_id),
                packed_index: record.queue_depth,
                row_begin: record.prefill_tokens,
                row_end: record.decode_tokens,
                phase: phase(record.phase),
                scheduled_tokens: record.scheduled_tokens,
                authoritative: true,
            },
        );
        i += 1;
    }
    views
}

fn view_packed_tokens(records: &[SemanticWireRecord]) -> (views: Vec<PackedTokenView>)
    ensures
        views@.len() == records@.len(),
        forall|i: int|
            0 <= i < records@.len() ==> shows_packed_token(#[trigger] views@[i], records@[i]),
{
    let mut views: Vec<PackedTokenView> = Vec::new();
    let mut i: usize = 0;
    while i < records.len()
        invariant
            i <= records.len(),
            views@.len() == i,
            forall|k: int| 0 <= k < i ==> shows_packed_token(#[trigger] views@[k], records@[k]),
        decreases records.len() - i,
    {
        let record = records[i];
        views.push(
            PackedTokenView {
                request_id: hex_id(record.request_id),
                packing_generation: record.sequence_id,
                packed_row: record.prefill_tokens,
                sequence_position: record.decode_tokens,
                token_id: record.scheduled_tokens,
                phase: phase(record.phase),
                timestamp_ns: decimal_text(record.timestamp_ns),
            },
        );
        i += 1;
    }
    views
}

fn view_output_tokens(records: &[SemanticWireRecord]) -> (views: Vec<OutputTokenView>)
    ensures
        views@.len() == records@.len(),
        forall|i: int|
            0 <= i < records@.len() ==> shows_output_token(#[trigger] views@[i], records@[i]),
{
    let mut views: Vec<OutputTokenView> = Vec::new();
    let mut i: usize = 0;
    while i < records.len()
        invariant
            i <= records.len(),
            views@.len() == i,
            forall|k: int| 0 <= k < i ==> shows_output_token(#[trigger] views@[k], records@[k]),
        decreases records.len() - i,
    {
        let record = records[i];
        views.push(
            OutputTokenView {
                request_id: hex_id(record.request_id),
                output_position: record.sequence_id,
                token_id: record.scheduled_tokens,
                timestamp_ns: decimal_text(record.timestamp_ns),
            },
        );
        i += 1;
    }
    views
}

// Kernels.

/// The blocks of a kernel that worked for a request, and how that is known.
#[derive(Debug)]
pub struct BlockOwnershipView {
    pub request_id: String,
    pub block_begin: u32,
    pub block_end: u32,
    pub phase: &'static str,
    pub basis: &'static str,
}

pub open spec fn shows_blocks(view: BlockOwnershipView, blocks: BlockOwnership) -> bool {
    &&& view.request_id@ == hex_id_words(blocks.request_id)
    &&& view.block_begin == blocks.block_begin
    &&& view.block_end == blocks.block_end
    &&& view.phase@ == phase_words(blocks.phase)
    &&& view.basis@ == if blocks.authoritative {
        "authoritative_packed_rows"@
    } else {
        "scheduler_order_prediction"@
    }
}

/// A kernel of a step. Its name is that of the line of the activity table.
/// Times from the begin of the step are in nanoseconds.
#[derive(Debug)]
pub struct KernelView {
    pub line: usize,
    pub correlation_id: u32,
    pub runtime_submit_ns: String,
    pub runtime_submit_from_step_ns: i128,
    pub gpu_start_ns: String,
    pub gpu_end_ns: String,
    pub start_from_step_ns: i128,
    pub end_from_step_ns: i128,
    pub duration_ns: u64,
    pub process: u32,
    pub thread: u32,
    pub runtime_cbid: u32,
    pub stream: u32,
    pub grid_id: u64,
    pub graph_node_id: u64,
    pub graph_id: u32,
    pub grid: Dim3,
    pub block: Dim3,
    pub request_block_ownership: Vec<BlockOwnershipView>,
    pub padding_blocks: u32,
    pub attribution: &'static str,
}

/// The blocks that are known to have worked for requests: those of a kernel
/// whose blocks are the rows of the step.
pub open spec fn known_blocks(placed: PlacedKernel, owners: Seq<OwnershipSlice>) -> Seq<
    BlockOwnership,
> {
    if rows_are_blocks(placed.kernel) {
        owned_block_ranges(owners, placed.kernel.grid.x)
    } else {
        Seq::empty()
    }
}

/// How long it took from one moment to another, or nothing where that lies
/// behind.
pub open spec fn elapsed(begin_ns: u64, end_ns: u64) -> int {
    if end_ns > begin_ns {
        end_ns - begin_ns
    } else {
        0
    }
}

pub open spec fn shows_kernel(
    view: KernelView,
    placed: PlacedKernel,
    step_begin_ns: u64,
    owners: Seq<OwnershipSlice>,
) -> bool {
    let kernel = placed.kernel;
    let blocks = known_blocks(placed, owners);
    &&& view.line == kernel.line
    &&& view.correlation_id == kernel.correlation
    &&& view.runtime_submit_ns@ == decimal(placed.submit_ns as nat)
    &&& view.runtime_submit_from_step_ns == placed.submit_ns - step_begin_ns
    &&& view.gpu_start_ns@ == decimal(placed.gpu_start_ns as nat)
    &&& view.gpu_end_ns@ == decimal(placed.gpu_end_ns as nat)
    &&& view.start_from_step_ns == placed.gpu_start_ns - step_begin_ns
    &&& view.end_from_step_ns == placed.gpu_end_ns - step_begin_ns
    &&& view.duration_ns == elapsed(placed.gpu_start_ns, placed.gpu_end_ns)
    &&& view.process == placed.call.process
    &&& view.thread == placed.call.thread
    &&& view.runtime_cbid == placed.call.cbid
    &&& view.stream == kernel.stream
    &&& view.grid_id == kernel.grid_id
    &&& view.graph_node_id == kernel.graph_node_id
    &&& view.graph_id == kernel.graph_id
    &&& view.grid == kernel.grid
    &&& view.block == kernel.block
    &&& view.request_block_ownership@.len() == blocks.len()
    &&& forall|i: int|
        0 <= i < blocks.len() ==> shows_blocks(
            #[trigger] view.request_block_ownership@[i],
            blocks[i],
        )
    &&& view.padding_blocks == if kernel.grid.x > rows_end(owners) {
        kernel.grid.x - rows_end(owners)
    } else {
        0
    }
    &&& view.attribution@ == if rows_are_blocks(kernel) {
        "validated_cache_row_to_block"@
    } else {
        "step_many_to_many_only"@
    }
}

fn view_blocks(all: &Vec<BlockOwnership>) -> (views: Vec<BlockOwnershipView>)
    ensures
        views@.len() == all@.len(),
        forall|i: int| 0 <= i < all@.len() ==> shows_blocks(#[trigger] views@[i], all@[i]),
{
    let mut views: Vec<BlockOwnershipView> = Vec::new();
    let mut i: usize = 0;
    while i < all.len()
        invariant
            i <= all.len(),
            views@.len() == i,
            forall|k: int| 0 <= k < i ==> shows_blocks(#[trigger] views@[k], all@[k]),
        decreases all.len() - i,
    {
        let blocks = all[i];
        views.push(
            BlockOwnershipView {
                request_id: hex_id(blocks.request_id),
                block_begin: blocks.block_begin,
                block_end: blocks.block_end,
                phase: phase(blocks.phase),
                basis: if blocks.authoritative {
                    "authoritative_packed_rows"
                } else {
                    "scheduler_order_prediction"
                },
            },
        );
        i += 1;
    }
    views
}

/// Shows a kernel of a step that began at the time, with the owners of its
/// rows.
pub fn kernel_view(placed: &PlacedKernel, step_begin_ns: u64, owners: &[OwnershipSlice]) -> (view:
    KernelView)
    ensures
        shows_kernel(view, *placed, step_begin_ns, owners@),
{
    let shares = kernel_shares(placed, step_begin_ns, owners);
    let kernel = placed.kernel;
    KernelView {
        line: kernel.line,
        correlation_id: kernel.correlation,
        runtime_submit_ns: decimal_text(placed.submit_ns),
        runtime_submit_from_step_ns: shares.submit_from_step_ns,
        gpu_start_ns: decimal_text(placed.gpu_start_ns),
        gpu_end_ns: decimal_text(placed.gpu_end_ns),
        start_from_step_ns: shares.start_from_step_ns,
        end_from_step_ns: shares.end_from_step_ns,
        duration_ns: shares.duration_ns,
        process: placed.call.process,
        thread: placed.call.thread,
        runtime_cbid: placed.call.cbid,
        stream: kernel.stream,
        grid_id: kernel.grid_id,
        graph_node_id: kernel.graph_node_id,
        graph_id: kernel.graph_id,
        grid: kernel.grid,
        block: kernel.block,
        request_block_ownership: view_blocks(&shares.owners),
        padding_blocks: shares.padding_blocks,
        attribution: if shares.rows_are_blocks {
            "validated_cache_row_to_block"
        } else {
            "step_many_to_many_only"
        },
    }
}

// Steps.

/// What is recorded of a step.
pub struct StepRecords<'a> {
    pub scheduled: &'a [SemanticWireRecord],
    pub packed: &'a [SemanticWireRecord],
    pub packed_tokens: &'a [SemanticWireRecord],
    pub output_tokens: &'a [SemanticWireRecord],
    pub owners: &'a [OwnershipSlice],
    pub kernels: &'a [PlacedKernel],
}

/// What a bundle shows of a step.
#[derive(Debug)]
pub struct StepView {
    pub id: u64,
    pub phase: &'static str,
    pub begin_ns: String,
    pub packed_ns: Option<String>,
    pub end_ns: String,
    pub wall_ns: u64,
    pub scheduled_tokens: u32,
    pub prefill_tokens: u32,
    pub decode_tokens: u32,
    pub queue_depth: u32,
    pub active_requests: u32,
    pub kv_cache_usage_permyriad: u16,
    pub scheduler_order_mismatches: u64,
    pub scheduler_slices: Vec<SchedulerSliceView>,
    pub packed_slices: Vec<PackedSliceView>,
    pub focused_packed_tokens: Vec<PackedTokenView>,
    pub accepted_output_tokens: Vec<OutputTokenView>,
    pub kernels: Vec<KernelView>,
}

/// Whether the moments of a step are shown.
pub open spec fn shows_moments(view: StepView, step: TraceStep) -> bool {
    &&& view.begin_ns@ == decimal(step.begin.timestamp_ns as nat)
    &&& match (view.packed_ns, step.packed_begin) {
        (Some(text), Some(record)) => text@ == decimal(record.timestamp_ns as nat),
        (None, None) => true,
        _ => false,
    }
    &&& view.end_ns@ == decimal(step.end_timestamp_ns as nat)
    &&& view.wall_ns == elapsed(step.begin.timestamp_ns, step.end_timestamp_ns)
}

/// Whether the load of a step is shown.
pub open spec fn shows_load(view: StepView, step: TraceStep) -> bool {
    &&& view.id == step.begin.step_id
    &&& view.phase@ == step_phase_words(step.begin.prefill_tokens, step.begin.decode_tokens)
    &&& view.scheduled_tokens == step.begin.scheduled_tokens
    &&& view.prefill_tokens == step.begin.prefill_tokens
    &&& view.decode_tokens == step.begin.decode_tokens
    &&& view.queue_depth == step.begin.queue_depth
    &&& view.active_requests == step.begin.active_requests
    &&& view.kv_cache_usage_permyriad == step.begin.kv_cache_usage_permyriad
    &&& view.scheduler_order_mismatches == step.scheduler_order_mismatches
}

/// Whether the records of a step are shown, each in its place.
pub open spec fn shows_records(
    view: StepView,
    scheduled: Seq<SemanticWireRecord>,
    packed: Seq<SemanticWireRecord>,
    packed_tokens: Seq<SemanticWireRecord>,
    output_tokens: Seq<SemanticWireRecord>,
) -> bool {
    &&& view.scheduler_slices@.len() == scheduled.len()
    &&& forall|i: int|
        0 <= i < scheduled.len() ==> shows_scheduled(
            #[trigger] view.scheduler_slices@[i],
            scheduled[i],
        )
    &&& view.packed_slices@.len() == packed.len()
    &&& forall|i: int|
        0 <= i < packed.len() ==> shows_packed(#[trigger] view.packed_slices@[i], packed[i])
    &&& view.focused_packed_tokens@.len() == packed_tokens.len()
    &&& forall|i: int|
        0 <= i < packed_tokens.len() ==> shows_packed_token(
            #[trigger] view.focused_packed_tokens@[i],
            packed_tokens[i],
        )
    &&& view.accepted_output_tokens@.len() == output_tokens.len()
    &&& forall|i: int|
        0 <= i < output_tokens.len() ==> shows_output_token(
            #[trigger] view.accepted_output_tokens@[i],
            output_tokens[i],
        )
}

/// Whether the kernels of a step are shown, each in its place.
pub open spec fn shows_kernels(
    views: Seq<KernelView>,
    kernels: Seq<PlacedKernel>,
    step_begin_ns: u64,
    owners: Seq<OwnershipSlice>,
) -> bool {
    &&& views.len() == kernels.len()
    &&& forall|i: int|
        0 <= i < kernels.len() ==> shows_kernel(
            #[trigger] views[i],
            kernels[i],
            step_begin_ns,
            owners,
        )
}

fn view_kernels(
    kernels: &[PlacedKernel],
    step_begin_ns: u64,
    owners: &[OwnershipSlice],
) -> (views: Vec<KernelView>)
    ensures
        shows_kernels(views@, kernels@, step_begin_ns, owners@),
{
    let mut views: Vec<KernelView> = Vec::new();
    let mut i: usize = 0;
    while i < kernels.len()
        invariant
            i <= kernels.len(),
            views@.len() == i,
            forall|k: int|
                0 <= k < i ==> shows_kernel(
                    #[trigger] views@[k],
                    kernels@[k],
                    step_begin_ns,
                    owners@,
                ),
        decreases kernels.len() - i,
    {
        views.push(kernel_view(&kernels[i], step_begin_ns, owners));
        i += 1;
    }
    views
}

/// Shows a step.
pub fn step_view(step: &TraceStep, records: &StepRecords) -> (view: StepView)
    ensures
        shows_moments(view, *step),
        shows_load(view, *step),
        shows_records(
            view,
            records.scheduled@,
            records.packed@,
            records.packed_tokens@,
            records.output_tokens@,
        ),
        shows_kernels(
            view.kernels@,
            records.kernels@,
            step.begin.timestamp_ns,
            records.owners@,
        ),
{
    let begin = step.begin;
    let packed_ns = match step.packed_begin {
        Some(record) => Some(decimal_text(record.timestamp_ns)),
        None => None,
    };
    StepView {
        id: begin.step_id,
        phase: step_phase(begin.prefill_tokens, begin.decode_tokens),
        begin_ns: decimal_text(begin.timestamp_ns),
        packed_ns,
        end_ns: decimal_text(step.end_timestamp_ns),
        wall_ns: step.end_timestamp_ns.saturating_sub(begin.timestamp_ns),
        scheduled_tokens: begin.scheduled_tokens,
        prefill_tokens: begin.prefill_tokens,
        decode_tokens: begin.decode_tokens,
        queue_depth: begin.queue_depth,
        active_requests: begin.active_requests,
        kv_cache_usage_permyriad: begin.kv_cache_usage_permyriad,
        scheduler_order_mismatches: step.scheduler_order_mismatches,
        scheduler_slices: view_scheduled(records.scheduled),
        packed_slices: view_packed(records.packed),
        focused_packed_tokens: view_packed_tokens(records.packed_tokens),
        accepted_output_tokens: view_output_tokens(records.output_tokens),
        kernels: view_kernels(records.kernels, begin.timestamp_ns, records.owners),
    }
}

/// Where the records of a step lie in the lists of a trace.
#[derive(Clone, Copy, Debug, PartialEq, Eq, Structural)]
pub struct StepRanges {
    pub slice_start: usize,
    pub slice_count: usize,
    pub packed_slice_start: usize,
    pub packed_slice_count: usize,
    pub packed_token_start: usize,
    pub packed_token_count: usize,
    pub output_token_start: usize,
    pub output_token_count: usize,
}

/// A trace with the records that its steps show.
pub struct BundleTrace<'a> {
    pub trace: &'a SemanticTrace,
    pub ranges: &'a [StepRanges],
    pub slices: &'a [SemanticWireRecord],
    pub packed_slices: &'a [SemanticWireRecord],
    pub packed_tokens: &'a [SemanticWireRecord],
    pub output_tokens: &'a [SemanticWireRecord],
}

/// The entries of a list in a range.
pub open spec fn part<T>(list: Seq<T>, start: usize, count: usize) -> Seq<T> {
    list.subrange(start as int, start + count)
}

impl<'a> BundleTrace<'a> {
    /// Whether every step has its ranges, and these lie in their lists.
    pub open spec fn wf(self) -> bool {
        &&& self.trace.wf()
        &&& self.ranges@.len() == self.trace.steps@.len()
        &&& forall|i: int|
            0 <= i < self.ranges@.len() ==> self.ranges_fit(#[trigger] self.ranges@[i])
    }

    pub open spec fn ranges_fit(self, r: StepRanges) -> bool {
        &&& r.slice_start + r.slice_count <= self.slices@.len()
        &&& r.packed_slice_start + r.packed_slice_count <= self.packed_slices@.len()
        &&& r.packed_token_start + r.packed_token_count <= self.packed_tokens@.len()
        &&& r.output_token_start + r.output_token_count <= self.output_tokens@.len()
    }
}

/// The kernels that a step ran: none where none are placed in it.
pub open spec fn kernels_at(assigned: Seq<Vec<PlacedKernel>>, i: int) -> Seq<PlacedKernel> {
    if i < assigned.len() {
        assigned[i]@
    } else {
        Seq::empty()
    }
}

/// Whether the view shows the step at the place, with what its ranges hold.
pub open spec fn shows_step(
    view: StepView,
    bundle: BundleTrace,
    assigned: Seq<Vec<PlacedKernel>>,
    i: int,
) -> bool {
    let step = bundle.trace.steps@[i];
    let r = bundle.ranges@[i];
    &&& shows_moments(view, step)
    &&& shows_load(view, step)
    &&& shows_records(
        view,
        part(bundle.slices@, r.slice_start, r.slice_count),
        part(bundle.packed_slices@, r.packed_slice_start, r.packed_slice_count),
        part(bundle.packed_tokens@, r.packed_token_start, r.packed_token_count),
        part(bundle.output_tokens@, r.output_token_start, r.output_token_count),
    )
    &&& shows_kernels(
        view.kernels@,
        kernels_at(assigned, i),
        step.begin.timestamp_ns,
        part(bundle.trace.owners@, step.owner_start, step.owner_count),
    )
}

fn cut<'a, T>(list: &'a [T], start: usize, count: usize) -> (r: &'a [T])
    requires
        start + count <= list@.len(),
    ensures
        r@ == part(list@, start, count),
{
    assert(start + count <= list.len());
    slice_subrange(list, start, start + count)
}

/// Shows every step of a trace, with the records and kernels of its ranges.
pub fn bundle_steps(bundle: &BundleTrace, assigned: &Vec<Vec<PlacedKernel>>) -> (views: Vec<
    StepView,
>)
    requires
        bundle.wf(),
    ensures
        views@.len() == bundle.trace.steps@.len(),
        forall|i: int|
            0 <= i < views@.len() ==> shows_step(#[trigger] views@[i], *bundle, assigned@, i),
{
    let steps = bundle.trace.steps.as_slice();
    let mut views: Vec<StepView> = Vec::new();
    let mut i: usize = 0;
    while i < steps.len()
        invariant
            i <= steps.len(),
            steps@ == bundle.trace.steps@,
            bundle.wf(),
            views@.len() == i,
            forall|k: int|
                0 <= k < i ==> shows_step(#[trigger] views@[k], *bundle, assigned@, k),
        decreases steps.len() - i,
    {
        let step = &steps[i];
        let r = bundle.ranges[i];
        assert(bundle.ranges_fit(bundle.ranges@[i as int]));
        assert(bundle.trace.steps@[i as int].owner_start + bundle.trace.steps@[i as int].owner_count
            <= bundle.trace.owners@.len());
        let none: Vec<PlacedKernel> = Vec::new();
        let kernels: &[PlacedKernel] = if i < assigned.len() {
            assigned[i].as_slice()
        } else {
            none.as_slice()
        };
        assert(kernels@ =~= kernels_at(assigned@, i as int));
        let records = StepRecords {
            scheduled: cut(bundle.slices, r.slice_start, r.slice_count),
            packed: cut(bundle.packed_slices, r.packed_slice_start, r.packed_slice_count),
            packed_tokens: cut(bundle.packed_tokens, r.packed_token_start, r.packed_token_count),
            output_tokens: cut(bundle.output_tokens, r.output_token_start, r.output_token_count),
            owners: cut(bundle.trace.owners.as_slice(), step.owner_start, step.owner_count),
            kernels,
        };
        views.push(step_view(step, &records));
        i += 1;
    }
    views
}

// Counts.

/// How many kernels the steps ran.
pub open spec fn placed_count(assigned: Seq<Vec<PlacedKernel>>) -> nat
    decreases assigned.len(),
{
    if assigned.len() == 0 {
        0
    } else {
        placed_count(assigned.drop_last()) + assigned.last()@.len()
    }
}

proof fn fewer_steps_place_no_more(assigned: Seq<Vec<PlacedKernel>>, n: int)
    requires
        0 <= n <= assigned.len(),
    ensures
        placed_count(assigned.take(n)) <= placed_count(assigned),
    decreases assigned.len() - n,
{
    if n < assigned.len() {
        assert(assigned.take(n + 1).drop_last() =~= assigned.take(n));
        fewer_steps_place_no_more(assigned, n + 1);
    } else {
        assert(assigned.take(n) =~= assigned);
    }
}

/// What a bundle counts.
#[derive(Clone, Copy, Debug, PartialEq, Eq, Structural)]
pub struct BundleMetrics {
    pub semantic_records: u64,
    pub semantic_loss_markers: u64,
    pub engine_steps: usize,
    pub packed_steps: u64,
    pub scheduler_order_mismatch_steps: u64,
    pub cupti_kernels: usize,
    pub clock_start_uncertainty_ns: u64,
    pub clock_end_uncertainty_ns: u64,
    pub clock_offset_drift_ns: i128,
}

/// Counts what a bundle shows.
pub fn bundle_metrics(
    trace: &SemanticTrace,
    assigned: &Vec<Vec<PlacedKernel>>,
    clock: ClockMap,
) -> (r: BundleMetrics)
    requires
        placed_count(assigned@) <= usize::MAX,
    ensures
        r.semantic_records == trace.records,
        r.semantic_loss_markers == trace.loss_markers,
        r.engine_steps == trace.steps@.len(),
        r.packed_steps == trace.packed_steps,
        r.scheduler_order_mismatch_steps == trace.scheduler_order_mismatch_steps,
        r.cupti_kernels == placed_count(assigned@),
        r.clock_start_uncertainty_ns == clock.start.uncertainty_ns,
        r.clock_end_uncertainty_ns == clock.end.uncertainty_ns,
        r.clock_offset_drift_ns == (clock.end.monotonic_ns - clock.end.cupti_ns) - (
        clock.start.monotonic_ns - clock.start.cupti_ns),
{
    let mut cupti_kernels: usize = 0;
    let mut i: usize = 0;
    assert(assigned@.take(0) =~= Seq::<Vec<PlacedKernel>>::empty());
    while i < assigned.len()
        invariant
            i <= assigned.len(),
            placed_count(assigned@) <= usize::MAX,
            cupti_kernels == placed_count(assigned@.take(i as int)),
        decreases assigned.len() - i,
    {
        proof {
            assert(assigned@.take(i + 1).drop_last() =~= assigned@.take(i as int));
            fewer_steps_place_no_more(assigned@, i + 1);
        }
        cupti_kernels += assigned[i].len();
        i += 1;
    }
    assert(assigned@.take(i as int) =~= assigned@);
    BundleMetrics {
        semantic_records: trace.records,
        semantic_loss_markers: trace.loss_markers,
        engine_steps: trace.steps.len(),
        packed_steps: trace.packed_steps,
        scheduler_order_mismatch_steps: trace.scheduler_order_mismatch_steps,
        cupti_kernels,
        clock_start_uncertainty_ns: clock.start.uncertainty_ns,
        clock_end_uncertainty_ns: clock.end.uncertainty_ns,
        clock_offset_drift_ns: clock.offset_drift_ns(),
    }
}

} // verus!
