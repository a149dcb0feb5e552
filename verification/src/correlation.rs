//! Correlation of a recorded event stream into engine steps, the request
//! slices that share them and the GPU kernels that ran for them.
//!
//! The events are arranged by time, read once into a [`Pass`], and the pass is
//! then completed: memberships and kernels are arranged by step, CUPTI
//! activities are matched to the launches that caused them, and the timing of
//! each step is measured without counting overlapping kernels twice.

use crate::event::{
    CudaKernelLaunchData, CuptiKernelActivityData, EventFlags, EventKind, EventRecord,
    StepRequestSliceData,
};
use crate::intervals::{pass_start, pass_state, pass_step, union_length};
use crate::order::{arrange, arrange_in_place, arranged, arranges, sorted, Keyed};
use crate::storage::{capacity_of, reserve_exact};
use vstd::prelude::*;

verus! {

#[derive(Clone, Copy, Debug, PartialEq, Eq, Structural)]
pub enum CorrelationError {
    AllocationFailed,
    IndexOverflow,
}

#[derive(Clone, Copy, Debug, PartialEq, Eq, Structural)]
pub enum DiagnosticCode {
    UnnormalizedClock,
    DuplicateStepBegin,
    StepEndWithoutBegin,
    StepClockReversal,
    OpenStep,
    SliceWithoutOpenStep,
    SliceCountMismatch,
    LaunchOutsideStep,
    ActivityWithoutLaunch,
    TelemetryLoss,
}

#[derive(Clone, Copy, Debug, PartialEq, Eq, Structural)]
pub struct Diagnostic {
    pub code: DiagnosticCode,
    pub pid: u32,
    pub sequence: u64,
    pub step_id: u64,
}

pub struct StepState;

impl StepState {
    pub const OPEN: u16 = 1;

    pub const CLOCK_REVERSAL: u16 = 2;

    pub const SLICE_COUNT_MISMATCH: u16 = 4;
}

#[derive(Clone, Copy, Debug, PartialEq, Eq, Structural)]
pub struct StepSummary {
    pub pid: u32,
    pub step_id: u64,
    pub begin_timestamp_ns: u64,
    pub end_timestamp_ns: u64,
    pub scheduled_tokens: u32,
    pub prefill_tokens: u32,
    pub decode_tokens: u32,
    pub queue_depth: u32,
    pub active_requests: u32,
    pub expected_slices: u32,
    pub kv_cache_usage_permyriad: u16,
    pub state: u16,
    pub membership_start: u32,
    pub membership_count: u32,
    pub kernel_start: u32,
    pub kernel_count: u32,
    pub graph_launch_count: u32,
    pub unmatched_launch_count: u32,
    pub kernel_time_sum_ns: u64,
    pub gpu_busy_time_ns: u64,
    pub gpu_span_ns: u64,
}

/// One request's share of one engine step.
#[derive(Clone, Copy, Debug, PartialEq, Eq, Structural)]
pub struct Membership {
    pub step_index: u32,
    pub slice: StepRequestSliceData,
}

pub struct KernelFlags;

impl KernelFlags {
    pub const HAS_ACTIVITY: u16 = 1;

    pub const HAS_CORRELATION_ID: u16 = 2;

    pub const HAS_GRAPH_ID: u16 = 4;
}

/// One kernel launch, with the GPU activity that it caused where one was found.
#[derive(Clone, Copy, Debug, PartialEq, Eq, Structural)]
pub struct KernelExecution {
    pub step_index: u32,
    pub pid: u32,
    pub flags: u16,
    pub reserved: u16,
    pub launch_sequence: u64,
    pub activity_sequence: u64,
    pub host_launch_timestamp_ns: u64,
    pub gpu_start_timestamp_ns: u64,
    pub gpu_duration_ns: u64,
    pub launch: CudaKernelLaunchData,
}

/// A step that has begun and not ended.
#[derive(Clone, Copy, Debug, PartialEq, Eq, Structural)]
pub struct OpenStep {
    pub pid: u32,
    pub step_id: u64,
    pub step_index: u32,
    pub begin_sequence: u64,
}

/// A GPU activity record, and whether a launch has taken it.
#[derive(Clone, Copy, Debug, PartialEq, Eq, Structural)]
pub struct Activity {
    pub pid: u32,
    pub sequence: u64,
    pub timestamp_ns: u64,
    pub data: CuptiKernelActivityData,
    pub matched: bool,
}

// Orders.

pub open spec fn kind_rank(kind: EventKind) -> int {
    match kind {
        EventKind::EngineStepBegin => 0,
        EventKind::StepRequestSlice => 1,
        EventKind::CudaKernelLaunch => 2,
        EventKind::CudaGraphLaunch => 2,
        EventKind::CudaMemcpy => 2,
        EventKind::EngineStepEnd => 3,
        _ => 4,
    }
}

fn rank(kind: EventKind) -> (r: u8)
    ensures
        r == kind_rank(kind),
{
    match kind {
        EventKind::EngineStepBegin => 0,
        EventKind::StepRequestSlice => 1,
        EventKind::CudaKernelLaunch => 2,
        EventKind::CudaGraphLaunch => 2,
        EventKind::CudaMemcpy => 2,
        EventKind::EngineStepEnd => 3,
        _ => 4,
    }
}

/// Events are ordered by time, process, kind and sequence.
impl Keyed for EventRecord {
    open spec fn before(self, other: Self) -> bool {
        let a = self.header;
        let b = other.header;
        a.timestamp_ns < b.timestamp_ns || (a.timestamp_ns == b.timestamp_ns && (a.pid < b.pid || (
        a.pid == b.pid && (kind_rank(a.kind) < kind_rank(b.kind) || (kind_rank(a.kind) == kind_rank(
            b.kind,
        ) && a.sequence <= b.sequence)))))
    }

    proof fn before_is_total(a: Self, b: Self) {
    }

    proof fn before_is_transitive(a: Self, b: Self, c: Self) {
    }

    fn comes_before(&self, other: &Self) -> (r: bool) {
        let a = &self.header;
        let b = &other.header;
        if a.timestamp_ns != b.timestamp_ns {
            return a.timestamp_ns < b.timestamp_ns;
        }
        if a.pid != b.pid {
            return a.pid < b.pid;
        }
        let left: u8 = rank(a.kind);
        let right: u8 = rank(b.kind);
        if left != right {
            return left < right;
        }
        a.sequence <= b.sequence
    }
}

/// Memberships are ordered by step, request and sequence.
impl Keyed for Membership {
    open spec fn before(self, other: Self) -> bool {
        self.step_index < other.step_index || (self.step_index == other.step_index && (
        self.slice.request_id < other.slice.request_id || (self.slice.request_id
            == other.slice.request_id && self.slice.sequence_id <= other.slice.sequence_id)))
    }

    proof fn before_is_total(a: Self, b: Self) {
    }

    proof fn before_is_transitive(a: Self, b: Self, c: Self) {
    }

    fn comes_before(&self, other: &Self) -> (r: bool) {
        if self.step_index != other.step_index {
            return self.step_index < other.step_index;
        }
        if self.slice.request_id != other.slice.request_id {
            return self.slice.request_id < other.slice.request_id;
        }
        self.slice.sequence_id <= other.slice.sequence_id
    }
}

/// Whether the activity has the process, correlation id and stream.
pub open spec fn has_key(a: Activity, pid: u32, correlation_id: u64, stream: u64) -> bool {
    a.pid == pid && a.data.correlation_id == correlation_id && a.data.stream == stream
}

/// Activities are ordered by process, correlation id and stream, then by time
/// and sequence.
impl Keyed for Activity {
    open spec fn before(self, other: Self) -> bool {
        self.pid < other.pid || (self.pid == other.pid && (self.data.correlation_id
            < other.data.correlation_id || (self.data.correlation_id == other.data.correlation_id
            && (self.data.stream < other.data.stream || (self.data.stream == other.data.stream && (
        self.timestamp_ns < other.timestamp_ns || (self.timestamp_ns == other.timestamp_ns
            && self.sequence <= other.sequence)))))))
    }

    proof fn before_is_total(a: Self, b: Self) {
    }

    proof fn before_is_transitive(a: Self, b: Self, c: Self) {
    }

    fn comes_before(&self, other: &Self) -> (r: bool) {
        if self.pid != other.pid {
            return self.pid < other.pid;
        }
        if self.data.correlation_id != other.data.correlation_id {
            return self.data.correlation_id < other.data.correlation_id;
        }
        if self.data.stream != other.data.stream {
            return self.data.stream < other.data.stream;
        }
        if self.timestamp_ns != other.timestamp_ns {
            return self.timestamp_ns < other.timestamp_ns;
        }
        self.sequence <= other.sequence
    }
}

impl KernelExecution {
    pub open spec fn flagged(self, flag: u16) -> bool {
        self.flags & flag != 0
    }

    pub open spec fn has_activity(self) -> bool {
        self.flagged(KernelFlags::HAS_ACTIVITY)
    }

    /// Where the kernel stands in its step: at its GPU start, or last where it
    /// has none.
    pub open spec fn position(self) -> u64 {
        if self.has_activity() {
            self.gpu_start_timestamp_ns
        } else {
            u64::MAX
        }
    }

    fn order_position(&self) -> (r: u64)
        ensures
            r == self.position(),
    {
        if self.flags & KernelFlags::HAS_ACTIVITY != 0 {
            self.gpu_start_timestamp_ns
        } else {
            u64::MAX
        }
    }
}

/// Kernels are ordered by step, GPU start and launch sequence.
impl Keyed for KernelExecution {
    open spec fn before(self, other: Self) -> bool {
        self.step_index < other.step_index || (self.step_index == other.step_index && (
        self.position() < other.position() || (self.position() == other.position()
            && self.launch_sequence <= other.launch_sequence)))
    }

    proof fn before_is_total(a: Self, b: Self) {
    }

    proof fn before_is_transitive(a: Self, b: Self, c: Self) {
    }

    fn comes_before(&self, other: &Self) -> (r: bool) {
        if self.step_index != other.step_index {
            return self.step_index < other.step_index;
        }
        let left: u64 = self.order_position();
        let right: u64 = other.order_position();
        if left != right {
            return left < right;
        }
        self.launch_sequence <= other.launch_sequence
    }
}

// The pass over the events.

/// What is known after some of the events, in order, have been read.
#[verifier::ext_equal]
pub struct Pass {
    pub steps: Seq<StepSummary>,
    pub memberships: Seq<Membership>,
    pub kernels: Seq<KernelExecution>,
    pub activities: Seq<Activity>,
    pub open: Seq<OpenStep>,
    pub diagnostics: Seq<Diagnostic>,
    pub clock_reported: bool,
}

pub open spec fn empty_pass() -> Pass {
    Pass {
        steps: Seq::empty(),
        memberships: Seq::empty(),
        kernels: Seq::empty(),
        activities: Seq::empty(),
        open: Seq::empty(),
        diagnostics: Seq::empty(),
        clock_reported: false,
    }
}

/// The position of the open step of the process with the id, the latest one
/// where there are several.
pub open spec fn open_position(open: Seq<OpenStep>, pid: u32, step_id: u64) -> Option<int>
    decreases open.len(),
{
    if open.len() == 0 {
        None
    } else if open.last().pid == pid && open.last().step_id == step_id {
        Some(open.len() - 1)
    } else {
        open_position(open.drop_last(), pid, step_id)
    }
}

/// The position of the latest open step of the process.
pub open spec fn recent_position(open: Seq<OpenStep>, pid: u32) -> Option<int>
    decreases open.len(),
{
    if open.len() == 0 {
        None
    } else if open.last().pid == pid {
        Some(open.len() - 1)
    } else {
        recent_position(open.drop_last(), pid)
    }
}

/// The open steps without the one at the position, whose place the last takes.
pub open spec fn without(open: Seq<OpenStep>, position: int) -> Seq<OpenStep> {
    open.update(position, open.last()).drop_last()
}

pub open spec fn noticed(p: Pass, d: Diagnostic) -> Pass {
    Pass { diagnostics: p.diagnostics.push(d), ..p }
}

pub open spec fn diagnostic_of(code: DiagnosticCode, e: EventRecord, step_id: u64) -> Diagnostic {
    Diagnostic { code, pid: e.header.pid, sequence: e.header.sequence, step_id }
}

/// The first event on an unnormalized clock is reported, and every event that
/// follows a loss.
pub open spec fn after_header(p: Pass, e: EventRecord) -> Pass {
    let q = if !p.clock_reported && !e.header.flagged(EventFlags::TIMESTAMP_NORMALIZED) {
        Pass {
            clock_reported: true,
            ..noticed(p, diagnostic_of(DiagnosticCode::UnnormalizedClock, e, 0))
        }
    } else {
        p
    };
    if e.header.flagged(EventFlags::DROPPED_BEFORE) {
        noticed(q, diagnostic_of(DiagnosticCode::TelemetryLoss, e, 0))
    } else {
        q
    }
}

/// The summary of a step at its beginning.
pub open spec fn begun_step(e: EventRecord) -> StepSummary {
    let data = e.engine_step_begin_data();
    StepSummary {
        pid: e.header.pid,
        step_id: data.step_id,
        begin_timestamp_ns: e.header.timestamp_ns,
        end_timestamp_ns: 0,
        scheduled_tokens: data.scheduled_tokens,
        prefill_tokens: data.prefill_tokens,
        decode_tokens: data.decode_tokens,
        queue_depth: data.queue_depth,
        active_requests: data.active_requests,
        expected_slices: data.expected_slices,
        kv_cache_usage_permyriad: data.kv_cache_usage_permyriad,
        state: StepState::OPEN,
        membership_start: 0,
        membership_count: 0,
        kernel_start: 0,
        kernel_count: 0,
        graph_launch_count: 0,
        unmatched_launch_count: 0,
        kernel_time_sum_ns: 0,
        gpu_busy_time_ns: 0,
        gpu_span_ns: 0,
    }
}

/// A step begins. An open step of the same process and id gives way to it.
pub open spec fn after_begin(p: Pass, e: EventRecord) -> Pass {
    let step_id = e.engine_step_begin_data().step_id;
    let q = match open_position(p.open, e.header.pid, step_id) {
        Some(i) => Pass {
            open: without(p.open, i),
            ..noticed(
                p,
                Diagnostic {
                    code: DiagnosticCode::DuplicateStepBegin,
                    pid: e.header.pid,
                    sequence: p.open[i].begin_sequence,
                    step_id,
                },
            )
        },
        None => p,
    };
    Pass {
        steps: q.steps.push(begun_step(e)),
        open: q.open.push(
            OpenStep {
                pid: e.header.pid,
                step_id,
                step_index: q.steps.len() as u32,
                begin_sequence: e.header.sequence,
            },
        ),
        ..q
    }
}

/// A request slice joins the open step that it names.
pub open spec fn after_slice(p: Pass, e: EventRecord) -> Pass {
    let slice = e.step_request_slice_data();
    match open_position(p.open, e.header.pid, slice.step_id) {
        Some(i) => Pass {
            memberships: p.memberships.push(Membership { step_index: p.open[i].step_index, slice }),
            ..p
        },
        None => noticed(p, diagnostic_of(DiagnosticCode::SliceWithoutOpenStep, e, slice.step_id)),
    }
}

/// The summary of a step once its end is known.
pub open spec fn ended_step(step: StepSummary, end_timestamp_ns: u64) -> StepSummary {
    let closed = step.state & !StepState::OPEN;
    StepSummary {
        end_timestamp_ns,
        state: if end_timestamp_ns < step.begin_timestamp_ns {
            closed | StepState::CLOCK_REVERSAL
        } else {
            closed
        },
        ..step
    }
}

/// The open step that the event names ends.
pub open spec fn after_end(p: Pass, e: EventRecord) -> Pass {
    let step_id = e.engine_step_end_data().step_id;
    match open_position(p.open, e.header.pid, step_id) {
        Some(i) => {
            let index = p.open[i].step_index as int;
            let q = Pass {
                steps: p.steps.update(index, ended_step(p.steps[index], e.header.timestamp_ns)),
                open: without(p.open, i),
                ..p
            };
            if e.header.timestamp_ns < p.steps[index].begin_timestamp_ns {
                noticed(q, diagnostic_of(DiagnosticCode::StepClockReversal, e, step_id))
            } else {
                q
            }
        },
        None => noticed(p, diagnostic_of(DiagnosticCode::StepEndWithoutBegin, e, step_id)),
    }
}

/// The kernel of a launch, before its activity is known.
pub open spec fn launched_kernel(step_index: u32, e: EventRecord) -> KernelExecution {
    KernelExecution {
        step_index,
        pid: e.header.pid,
        flags: (if e.header.flagged(EventFlags::HAS_CORRELATION_ID) {
            KernelFlags::HAS_CORRELATION_ID
        } else {
            0
        }) | (if e.header.flagged(EventFlags::HAS_GRAPH_ID) {
            KernelFlags::HAS_GRAPH_ID
        } else {
            0
        }),
        reserved: 0,
        launch_sequence: e.header.sequence,
        activity_sequence: 0,
        host_launch_timestamp_ns: e.header.timestamp_ns,
        gpu_start_timestamp_ns: 0,
        gpu_duration_ns: 0,
        launch: e.cuda_kernel_launch_data(),
    }
}

/// A kernel launch belongs to the latest open step of its process.
pub open spec fn after_launch(p: Pass, e: EventRecord) -> Pass {
    match recent_position(p.open, e.header.pid) {
        Some(i) => Pass {
            kernels: p.kernels.push(launched_kernel(p.open[i].step_index, e)),
            ..p
        },
        None => noticed(p, diagnostic_of(DiagnosticCode::LaunchOutsideStep, e, 0)),
    }
}

/// A graph launch is counted for the latest open step of its process. The
/// count wraps.
pub open spec fn after_graph_launch(p: Pass, e: EventRecord) -> Pass {
    match recent_position(p.open, e.header.pid) {
        Some(i) => {
            let index = p.open[i].step_index as int;
            Pass {
                steps: p.steps.update(
                    index,
                    StepSummary {
                        graph_launch_count: p.steps[index].graph_launch_count.wrapping_add(1),
                        ..p.steps[index]
                    },
                ),
                ..p
            }
        },
        None => noticed(p, diagnostic_of(DiagnosticCode::LaunchOutsideStep, e, 0)),
    }
}

pub open spec fn after_activity(p: Pass, e: EventRecord) -> Pass {
    Pass {
        activities: p.activities.push(
            Activity {
                pid: e.header.pid,
                sequence: e.header.sequence,
                timestamp_ns: e.header.timestamp_ns,
                data: e.cupti_kernel_activity_data(),
                matched: false,
            },
        ),
        ..p
    }
}

/// What is known after one more event.
pub open spec fn after_event(p: Pass, e: EventRecord) -> Pass {
    let q = after_header(p, e);
    match e.header.kind {
        EventKind::EngineStepBegin => after_begin(q, e),
        EventKind::StepRequestSlice => after_slice(q, e),
        EventKind::EngineStepEnd => after_end(q, e),
        EventKind::CudaKernelLaunch => after_launch(q, e),
        EventKind::CudaGraphLaunch => after_graph_launch(q, e),
        EventKind::CuptiKernelActivity => after_activity(q, e),
        _ => q,
    }
}

/// What is known after all of the events.
pub open spec fn passed(events: Seq<EventRecord>) -> Pass
    decreases events.len(),
{
    if events.len() == 0 {
        empty_pass()
    } else {
        after_event(passed(events.drop_last()), events.last())
    }
}

/// The number of events of the kind.
pub open spec fn kind_count(events: Seq<EventRecord>, kind: EventKind) -> nat
    decreases events.len(),
{
    if events.len() == 0 {
        0
    } else {
        kind_count(events.drop_last(), kind) + if events.last().header.kind == kind {
            1nat
        } else {
            0
        }
    }
}

/// Every index in the pass is that of one of its steps.
pub open spec fn pass_wf(p: Pass) -> bool {
    &&& forall|i: int| 0 <= i < p.open.len() ==> (#[trigger] p.open[i]).step_index < p.steps.len()
    &&& forall|i: int|
        0 <= i < p.memberships.len() ==> (#[trigger] p.memberships[i]).step_index < p.steps.len()
    &&& forall|i: int|
        0 <= i < p.kernels.len() ==> (#[trigger] p.kernels[i]).step_index < p.steps.len()
    &&& forall|i: int|
        0 <= i < p.kernels.len() ==> !(#[trigger] p.kernels[i]).has_activity()
            && p.kernels[i].gpu_duration_ns == 0
    &&& forall|i: int| 0 <= i < p.activities.len() ==> !(#[trigger] p.activities[i]).matched
}

/// A found position is that of a step of the process and id.
pub proof fn open_position_in_range(open: Seq<OpenStep>, pid: u32, step_id: u64)
    ensures
        open_position(open, pid, step_id) matches Some(i) ==> 0 <= i < open.len() && open[i].pid
            == pid && open[i].step_id == step_id,
    decreases open.len(),
{
    if open.len() > 0 {
        open_position_in_range(open.drop_last(), pid, step_id);
    }
}

/// A found position is that of a step of the process.
pub proof fn recent_position_in_range(open: Seq<OpenStep>, pid: u32)
    ensures
        recent_position(open, pid) matches Some(i) ==> 0 <= i < open.len() && open[i].pid == pid,
    decreases open.len(),
{
    if open.len() > 0 {
        recent_position_in_range(open.drop_last(), pid);
    }
}

proof fn launched_kernel_has_no_activity(step_index: u32, e: EventRecord)
    ensures
        !launched_kernel(step_index, e).has_activity(),
{
    assert((2u16 | 4) & 1 == 0 && (2u16 | 0) & 1 == 0 && (0u16 | 4) & 1 == 0 && (0u16 | 0) & 1
        == 0) by (bit_vector);
}

/// One more event keeps every index within the steps.
pub proof fn event_keeps_pass_wf(p: Pass, e: EventRecord)
    requires
        pass_wf(p),
        e.header.kind == EventKind::EngineStepBegin ==> p.steps.len() < u32::MAX,
    ensures
        pass_wf(after_event(p, e)),
        after_event(p, e).steps.len() == p.steps.len() + if e.header.kind
            == EventKind::EngineStepBegin {
            1int
        } else {
            0
        },
        after_event(p, e).memberships.len() <= p.memberships.len() + if e.header.kind
            == EventKind::StepRequestSlice {
            1int
        } else {
            0
        },
        after_event(p, e).kernels.len() <= p.kernels.len() + if e.header.kind
            == EventKind::CudaKernelLaunch {
            1int
        } else {
            0
        },
{
    let q = after_header(p, e);
    assert(pass_wf(q));
    open_position_in_range(q.open, e.header.pid, e.engine_step_begin_data().step_id);
    open_position_in_range(q.open, e.header.pid, e.step_request_slice_data().step_id);
    open_position_in_range(q.open, e.header.pid, e.engine_step_end_data().step_id);
    recent_position_in_range(q.open, e.header.pid);
    assert forall|i: u32| !(#[trigger] launched_kernel(i, e)).has_activity() by {
        launched_kernel_has_no_activity(i, e);
    }
}

/// The vectors that a trace is built in.
pub struct TraceBuilder {
    steps: Vec<StepSummary>,
    memberships: Vec<Membership>,
    kernels: Vec<KernelExecution>,
    activities: Vec<Activity>,
    open: Vec<OpenStep>,
    diagnostics: Vec<Diagnostic>,
    clock_reported: bool,
}

fn reserved_vec<T>(capacity: usize) -> (r: Result<Vec<T>, CorrelationError>)
    ensures
        r matches Ok(values) ==> values@ == Seq::<T>::empty(),
        r matches Err(error) ==> error == CorrelationError::AllocationFailed,
{
    let mut values: Vec<T> = Vec::new();
    if reserve_exact(&mut values, capacity) {
        Ok(values)
    } else {
        Err(CorrelationError::AllocationFailed)
    }
}

fn find_open(open: &Vec<OpenStep>, pid: u32, step_id: u64) -> (r: Option<usize>)
    ensures
        r matches Some(i) ==> i < open.len() && open_position(open@, pid, step_id) == Some(
            i as int,
        ),
        r is None ==> open_position(open@, pid, step_id) is None,
{
    let mut i: usize = open.len();
    assert(open@.take(i as int) =~= open@);
    while i > 0
        invariant
            i <= open.len(),
            open_position(open@, pid, step_id) == open_position(open@.take(i as int), pid, step_id),
        decreases i,
    {
        assert(open@.take(i as int).drop_last() =~= open@.take(i - 1));
        assert(open@.take(i as int).last() == open@[i - 1]);
        if open[i - 1].pid == pid && open[i - 1].step_id == step_id {
            return Some(i - 1);
        }
        i = i - 1;
    }
    None
}

fn most_recent_open_for_pid(open: &Vec<OpenStep>, pid: u32) -> (r: Option<OpenStep>)
    ensures
        r is Some <==> recent_position(open@, pid) is Some,
        r matches Some(step) ==> step == open@[recent_position(open@, pid)->0],
{
    let mut i: usize = open.len();
    assert(open@.take(i as int) =~= open@);
    while i > 0
        invariant
            i <= open.len(),
            recent_position(open@, pid) == recent_position(open@.take(i as int), pid),
        decreases i,
    {
        assert(open@.take(i as int).drop_last() =~= open@.take(i - 1));
        assert(open@.take(i as int).last() == open@[i - 1]);
        if open[i - 1].pid == pid {
            return Some(open[i - 1]);
        }
        i = i - 1;
    }
    None
}

impl TraceBuilder {
    /// What the builder has read.
    pub closed spec fn pass(self) -> Pass {
        Pass {
            steps: self.steps@,
            memberships: self.memberships@,
            kernels: self.kernels@,
            activities: self.activities@,
            open: self.open@,
            diagnostics: self.diagnostics@,
            clock_reported: self.clock_reported,
        }
    }

    fn report(
        &mut self,
        code: DiagnosticCode,
        pid: u32,
        sequence: u64,
        step_id: u64,
    )
        ensures
            final(self).pass() == noticed(
                old(self).pass(),
                Diagnostic { code, pid, sequence, step_id },
            ),
    {
        self.diagnostics.push(Diagnostic { code, pid, sequence, step_id })
    }

    fn read_header(&mut self, e: &EventRecord)
        ensures
            final(self).pass() == after_header(old(self).pass(), *e),
    {
        if !self.clock_reported && !e.header.is_timestamp_normalized() {
            self.report(
                DiagnosticCode::UnnormalizedClock,
                e.header.pid,
                e.header.sequence,
                0,
            );
            self.clock_reported = true;
        }
        if e.header.is_dropped_before() {
            self.report(DiagnosticCode::TelemetryLoss, e.header.pid, e.header.sequence, 0);
        }
    }

    fn read_begin(&mut self, e: &EventRecord)
        requires
            e.header.kind == EventKind::EngineStepBegin,
            old(self).steps.len() < u32::MAX,
        ensures
            final(self).pass() == after_begin(old(self).pass(), *e),
    {
        let data = e.as_engine_step_begin().unwrap();
        if let Some(position) = find_open(&self.open, e.header.pid, data.step_id) {
            let previous = self.open.swap_remove(position);
            self.report(
                DiagnosticCode::DuplicateStepBegin,
                e.header.pid,
                previous.begin_sequence,
                data.step_id,
            );
        }
        let step_index: u32 = self.steps.len() as u32;
        self.steps.push(
            StepSummary {
                pid: e.header.pid,
                step_id: data.step_id,
                begin_timestamp_ns: e.header.timestamp_ns,
                end_timestamp_ns: 0,
                scheduled_tokens: data.scheduled_tokens,
                prefill_tokens: data.prefill_tokens,
                decode_tokens: data.decode_tokens,
                queue_depth: data.queue_depth,
                active_requests: data.active_requests,
                expected_slices: data.expected_slices,
                kv_cache_usage_permyriad: data.kv_cache_usage_permyriad,
                state: StepState::OPEN,
                membership_start: 0,
                membership_count: 0,
                kernel_start: 0,
                kernel_count: 0,
                graph_launch_count: 0,
                unmatched_launch_count: 0,
                kernel_time_sum_ns: 0,
                gpu_busy_time_ns: 0,
                gpu_span_ns: 0,
            },
        );
        self.open.push(
            OpenStep {
                pid: e.header.pid,
                step_id: data.step_id,
                step_index,
                begin_sequence: e.header.sequence,
            },
        );
    }

    fn read_slice(&mut self, e: &EventRecord)
        requires
            e.header.kind == EventKind::StepRequestSlice,
        ensures
            final(self).pass() == after_slice(old(self).pass(), *e),
    {
        let slice = e.as_step_request_slice().unwrap();
        match find_open(&self.open, e.header.pid, slice.step_id) {
            Some(position) => {
                let step_index: u32 = self.open[position].step_index;
                self.memberships.push(Membership { step_index, slice })
            },
            None => self.report(
                DiagnosticCode::SliceWithoutOpenStep,
                e.header.pid,
                e.header.sequence,
                slice.step_id,
            ),
        }
    }

    fn read_end(&mut self, e: &EventRecord)
        requires
            e.header.kind == EventKind::EngineStepEnd,
            pass_wf(old(self).pass()),
        ensures
            final(self).pass() == after_end(old(self).pass(), *e),
    {
        let data = e.as_engine_step_end().unwrap();
        match find_open(&self.open, e.header.pid, data.step_id) {
            Some(position) => {
                assert(self.pass().open[position as int].step_index < self.steps.len());
                let open = self.open.swap_remove(position);
                let index: usize = open.step_index as usize;
                let mut step = self.steps[index];
                let reversed: bool = e.header.timestamp_ns < step.begin_timestamp_ns;
                step.state = step.state & !StepState::OPEN;
                step.end_timestamp_ns = e.header.timestamp_ns;
                if reversed {
                    step.state = step.state | StepState::CLOCK_REVERSAL;
                }
                self.steps.set(index, step);
                if reversed {
                    self.report(
                        DiagnosticCode::StepClockReversal,
                        e.header.pid,
                        e.header.sequence,
                        data.step_id,
                    );
                }
            },
            None => self.report(
                DiagnosticCode::StepEndWithoutBegin,
                e.header.pid,
                e.header.sequence,
                data.step_id,
            ),
        }
    }

    fn read_launch(&mut self, e: &EventRecord)
        requires
            e.header.kind == EventKind::CudaKernelLaunch,
        ensures
            final(self).pass() == after_launch(old(self).pass(), *e),
    {
        let launch = e.as_cuda_kernel_launch().unwrap();
        match most_recent_open_for_pid(&self.open, e.header.pid) {
            Some(open) => {
                let correlated: u16 = if e.header.has_correlation_id() {
                    KernelFlags::HAS_CORRELATION_ID
                } else {
                    0
                };
                let graphed: u16 = if e.header.has_graph_id() {
                    KernelFlags::HAS_GRAPH_ID
                } else {
                    0
                };
                self.kernels.push(
                    KernelExecution {
                        step_index: open.step_index,
                        pid: e.header.pid,
                        flags: correlated | graphed,
                        reserved: 0,
                        launch_sequence: e.header.sequence,
                        activity_sequence: 0,
                        host_launch_timestamp_ns: e.header.timestamp_ns,
                        gpu_start_timestamp_ns: 0,
                        gpu_duration_ns: 0,
                        launch,
                    },
                )
            },
            None => self.report(
                DiagnosticCode::LaunchOutsideStep,
                e.header.pid,
                e.header.sequence,
                0,
            ),
        }
    }

    fn read_graph_launch(&mut self, e: &EventRecord)
        requires
            pass_wf(old(self).pass()),
        ensures
            final(self).pass() == after_graph_launch(old(self).pass(), *e),
    {
        match most_recent_open_for_pid(&self.open, e.header.pid) {
            Some(open) => {
                proof {
                    recent_position_in_range(self.open@, e.header.pid);
                    assert(self.pass().open[recent_position(
                        self.open@,
                        e.header.pid,
                    )->0].step_index < self.steps.len());
                }
                let index: usize = open.step_index as usize;
                let mut step = self.steps[index];
                step.graph_launch_count = step.graph_launch_count.wrapping_add(1);
                self.steps.set(index, step);
            },
            None => self.report(
                DiagnosticCode::LaunchOutsideStep,
                e.header.pid,
                e.header.sequence,
                0,
            ),
        }
    }

    fn read_activity(&mut self, e: &EventRecord)
        requires
            e.header.kind == EventKind::CuptiKernelActivity,
        ensures
            final(self).pass() == after_activity(old(self).pass(), *e),
    {
        let data = e.as_cupti_kernel_activity().unwrap();
        self.activities.push(
            Activity {
                pid: e.header.pid,
                sequence: e.header.sequence,
                timestamp_ns: e.header.timestamp_ns,
                data,
                matched: false,
            },
        )
    }

    fn read(&mut self, e: &EventRecord)
        requires
            pass_wf(old(self).pass()),
            e.header.kind == EventKind::EngineStepBegin ==> old(self).steps.len() < u32::MAX,
        ensures
            final(self).pass() == after_event(old(self).pass(), *e),
    {
        self.read_header(e);
        match e.header.kind {
            EventKind::EngineStepBegin => self.read_begin(e),
            EventKind::StepRequestSlice => self.read_slice(e),
            EventKind::EngineStepEnd => self.read_end(e),
            EventKind::CudaKernelLaunch => self.read_launch(e),
            EventKind::CudaGraphLaunch => self.read_graph_launch(e),
            EventKind::CuptiKernelActivity => self.read_activity(e),
            _ => {},
        }
    }
}

fn count(events: &[EventRecord], kind: EventKind) -> (r: usize)
    ensures
        r == kind_count(events@, kind),
{
    let mut total: usize = 0;
    let mut i: usize = 0;
    assert(events@.take(0) =~= Seq::<EventRecord>::empty());
    while i < events.len()
        invariant
            i <= events.len(),
            total <= i,
            total == kind_count(events@.take(i as int), kind),
        decreases events.len() - i,
    {
        assert(events@.take(i + 1).drop_last() =~= events@.take(i as int));
        if events[i].header.kind == kind {
            total = total + 1;
        }
        i = i + 1;
    }
    assert(events@.take(i as int) =~= events@);
    total
}

proof fn kind_count_of_prefix(events: Seq<EventRecord>, n: int, kind: EventKind)
    requires
        0 <= n <= events.len(),
    ensures
        kind_count(events.take(n), kind) <= kind_count(events, kind),
    decreases events.len(),
{
    if n == events.len() {
        assert(events.take(n) =~= events);
    } else {
        kind_count_of_prefix(events.drop_last(), n, kind);
        assert(events.drop_last().take(n) =~= events.take(n));
    }
}

/// Reading the events leaves every index within the steps, and no more
/// entries than there are events of the kind that makes them.
pub proof fn passed_is_wf(events: Seq<EventRecord>)
    requires
        kind_count(events, EventKind::EngineStepBegin) <= u32::MAX,
    ensures
        pass_wf(passed(events)),
        passed(events).steps.len() == kind_count(events, EventKind::EngineStepBegin),
        passed(events).memberships.len() <= kind_count(events, EventKind::StepRequestSlice),
        passed(events).kernels.len() <= kind_count(events, EventKind::CudaKernelLaunch),
    decreases events.len(),
{
    if events.len() > 0 {
        passed_is_wf(events.drop_last());
        event_keeps_pass_wf(passed(events.drop_last()), events.last());
    }
}

impl TraceBuilder {
    /// A builder with room for the entries that events of these numbers make.
    /// Whether there is room is up to the machine.
    pub fn try_new(steps: usize, slices: usize, launches: usize, activities: usize) -> (r: Result<
        Self,
        CorrelationError,
    >)
        ensures
            match r {
                Ok(builder) => builder.pass() == empty_pass(),
                Err(error) => error == CorrelationError::AllocationFailed,
            },
    {
        let open: usize = if steps < 16 {
            steps
        } else {
            16
        };
        Ok(
            TraceBuilder {
                steps: reserved_vec(steps)?,
                memberships: reserved_vec(slices)?,
                kernels: reserved_vec(launches)?,
                activities: reserved_vec(activities)?,
                open: reserved_vec(open)?,
                diagnostics: reserved_vec(16)?,
                clock_reported: false,
            },
        )
    }

    /// Reads events that are arranged by time.
    fn read_all(&mut self, events: &[EventRecord])
        requires
            old(self).pass() == empty_pass(),
            kind_count(events@, EventKind::EngineStepBegin) <= u32::MAX,
        ensures
            final(self).pass() == passed(events@),
    {
        let mut i: usize = 0;
        assert(events@.take(0) =~= Seq::<EventRecord>::empty());
        while i < events.len()
            invariant
                i <= events.len(),
                kind_count(events@, EventKind::EngineStepBegin) <= u32::MAX,
                self.pass() == passed(events@.take(i as int)),
            decreases events.len() - i,
        {
            let e = &events[i];
            proof {
                let front = events@.take(i as int);
                assert(events@.take(i + 1).drop_last() =~= front);
                kind_count_of_prefix(events@, i as int, EventKind::EngineStepBegin);
                kind_count_of_prefix(events@, i + 1, EventKind::EngineStepBegin);
                passed_is_wf(front);
                assert(self.steps@.len() == passed(front).steps.len());
            }
            self.read(e);
            i = i + 1;
        }
        assert(events@.take(i as int) =~= events@);
    }
}

// Ranges of arranged entries.

/// How many of the indexes lie below the bound.
pub open spec fn count_below(indexes: Seq<u32>, bound: int) -> nat
    decreases indexes.len(),
{
    if indexes.len() == 0 {
        0
    } else {
        count_below(indexes.drop_last(), bound) + if indexes.last() < bound {
            1nat
        } else {
            0
        }
    }
}

pub open spec fn membership_steps(memberships: Seq<Membership>) -> Seq<u32> {
    memberships.map_values(|m: Membership| m.step_index)
}

pub open spec fn kernel_steps(kernels: Seq<KernelExecution>) -> Seq<u32> {
    kernels.map_values(|k: KernelExecution| k.step_index)
}

/// In a sorted list the indexes below a bound are those in front of a cut.
proof fn count_below_is_cut(indexes: Seq<u32>, bound: int, cut: int)
    requires
        0 <= cut <= indexes.len(),
        forall|i: int| 0 <= i < cut ==> #[trigger] indexes[i] < bound,
        forall|i: int| cut <= i < indexes.len() ==> #[trigger] indexes[i] >= bound,
    ensures
        count_below(indexes, bound) == cut,
    decreases indexes.len(),
{
    if indexes.len() > 0 {
        let front = indexes.drop_last();
        if cut == indexes.len() {
            count_below_is_cut(front, bound, cut - 1);
            assert(indexes[cut - 1] < bound);
        } else {
            count_below_is_cut(front, bound, cut);
            assert(indexes[indexes.len() - 1] >= bound);
        }
    }
}

/// The end of the run of `index` that starts at `start` in a sorted list.
fn run_end(indexes: &Vec<u32>, start: usize, index: usize) -> (end: usize)
    requires
        start <= indexes.len(),
        forall|i: int, j: int|
            0 <= i <= j < indexes.len() ==> #[trigger] indexes@[i] <= #[trigger] indexes@[j],
        forall|i: int| 0 <= i < start ==> #[trigger] indexes@[i] < index,
        forall|i: int| start <= i < indexes.len() ==> #[trigger] indexes@[i] >= index,
    ensures
        start <= end <= indexes.len(),
        start == count_below(indexes@, index as int),
        end == count_below(indexes@, index + 1),
        forall|i: int| 0 <= i < end ==> #[trigger] indexes@[i] < index + 1,
        forall|i: int| end <= i < indexes.len() ==> #[trigger] indexes@[i] >= index + 1,
        forall|i: int| start <= i < end ==> #[trigger] indexes@[i] == index,
{
    let mut cursor: usize = start;
    while cursor < indexes.len() && indexes[cursor] as usize == index
        invariant
            start <= cursor <= indexes.len(),
            forall|i: int| 0 <= i < start ==> #[trigger] indexes@[i] < index,
            forall|i: int| start <= i < indexes.len() ==> #[trigger] indexes@[i] >= index,
            forall|i: int| start <= i < cursor ==> #[trigger] indexes@[i] == index,
        decreases indexes.len() - cursor,
    {
        cursor = cursor + 1;
    }
    proof {
        assert forall|i: int| cursor <= i < indexes.len() implies #[trigger] indexes@[i] >= index
            + 1 by {
            assert(indexes@[cursor as int] <= indexes@[i]);
        }
        count_below_is_cut(indexes@, index as int, start as int);
        count_below_is_cut(indexes@, index + 1, cursor as int);
    }
    cursor
}

// Memberships.

/// The summary of a step once its memberships are counted.
pub open spec fn ranged_step(step: StepSummary, start: int, end: int) -> StepSummary {
    StepSummary {
        membership_start: start as u32,
        membership_count: (end - start) as u32,
        state: if end - start != step.expected_slices {
            step.state | StepState::SLICE_COUNT_MISMATCH
        } else {
            step.state
        },
        ..step
    }
}

pub open spec fn ranged_steps(
    steps: Seq<StepSummary>,
    memberships: Seq<Membership>,
) -> Seq<StepSummary> {
    let indexes = membership_steps(memberships);
    Seq::new(
        steps.len(),
        |i: int|
            ranged_step(
                steps[i],
                count_below(indexes, i) as int,
                count_below(indexes, i + 1) as int,
            ),
    )
}

/// One diagnostic for every step whose memberships are not as many as it
/// announced.
pub open spec fn mismatches(ranged: Seq<StepSummary>) -> Seq<Diagnostic>
    decreases ranged.len(),
{
    if ranged.len() == 0 {
        Seq::empty()
    } else {
        let front = mismatches(ranged.drop_last());
        let step = ranged.last();
        if step.membership_count != step.expected_slices {
            front.push(
                Diagnostic {
                    code: DiagnosticCode::SliceCountMismatch,
                    pid: step.pid,
                    sequence: 0,
                    step_id: step.step_id,
                },
            )
        } else {
            front
        }
    }
}

fn steps_of_memberships(memberships: &Vec<Membership>) -> (indexes: Vec<u32>)
    ensures
        indexes@ == membership_steps(memberships@),
{
    let mut indexes: Vec<u32> = Vec::new();
    let mut i: usize = 0;
    while i < memberships.len()
        invariant
            i <= memberships.len(),
            indexes@ =~= membership_steps(memberships@.take(i as int)),
        decreases memberships.len() - i,
    {
        indexes.push(memberships[i].step_index);
        i = i + 1;
        assert(indexes@ =~= membership_steps(memberships@.take(i as int)));
    }
    assert(memberships@.take(i as int) =~= memberships@);
    indexes
}

fn steps_of_kernels(kernels: &Vec<KernelExecution>) -> (indexes: Vec<u32>)
    ensures
        indexes@ == kernel_steps(kernels@),
{
    let mut indexes: Vec<u32> = Vec::new();
    let mut i: usize = 0;
    while i < kernels.len()
        invariant
            i <= kernels.len(),
            indexes@ =~= kernel_steps(kernels@.take(i as int)),
        decreases kernels.len() - i,
    {
        indexes.push(kernels[i].step_index);
        i = i + 1;
        assert(indexes@ =~= kernel_steps(kernels@.take(i as int)));
    }
    assert(kernels@.take(i as int) =~= kernels@);
    indexes
}

fn assign_membership_ranges(
    steps: &mut Vec<StepSummary>,
    memberships: &Vec<Membership>,
    diagnostics: &mut Vec<Diagnostic>,
)
    requires
        sorted(memberships@),
        memberships.len() <= u32::MAX,
    ensures
        final(steps)@ == ranged_steps(old(steps)@, memberships@),
        final(diagnostics)@ == old(diagnostics)@ + mismatches(final(steps)@),
{
    let indexes = steps_of_memberships(memberships);
    let ghost ranged = ranged_steps(steps@, memberships@);
    proof {
        assert forall|i: int, j: int| 0 <= i <= j < indexes.len() implies #[trigger] indexes@[i]
            <= #[trigger] indexes@[j] by {
            assert(memberships@[i].before(memberships@[j]));
        }
        assert(steps@.take(0) =~= Seq::<StepSummary>::empty());
        assert(diagnostics@ + mismatches(steps@.take(0)) =~= diagnostics@);
    }
    let mut cursor: usize = 0;
    let mut i: usize = 0;
    while i < steps.len()
        invariant
            i <= steps.len() == old(steps).len(),
            cursor <= indexes.len() <= u32::MAX,
            indexes@ == membership_steps(memberships@),
            ranged == ranged_steps(old(steps)@, memberships@),
            forall|i: int, j: int|
                0 <= i <= j < indexes.len() ==> #[trigger] indexes@[i] <= #[trigger] indexes@[j],
            forall|j: int| 0 <= j < cursor ==> #[trigger] indexes@[j] < i,
            forall|j: int| cursor <= j < indexes.len() ==> #[trigger] indexes@[j] >= i,
            forall|j: int| 0 <= j < i ==> #[trigger] steps@[j] == ranged[j],
            forall|j: int| i <= j < steps.len() ==> #[trigger] steps@[j] == old(steps)@[j],
            diagnostics@ == old(diagnostics)@ + mismatches(steps@.take(i as int)),
        decreases steps.len() - i,
    {
        let start: usize = cursor;
        cursor = run_end(&indexes, start, i);
        let ghost before = steps@;
        let mut step = steps[i];
        step.membership_start = start as u32;
        step.membership_count = (cursor - start) as u32;
        let mismatch: bool = step.membership_count != step.expected_slices;
        if mismatch {
            step.state = step.state | StepState::SLICE_COUNT_MISMATCH;
        }
        steps.set(i, step);
        proof {
            assert(steps@.take(i + 1).drop_last() =~= before.take(i as int));
            assert(step == ranged[i as int]);
        }
        if mismatch {
            let ghost known = diagnostics@;
            diagnostics.push(
                Diagnostic {
                    code: DiagnosticCode::SliceCountMismatch,
                    pid: step.pid,
                    sequence: 0,
                    step_id: step.step_id,
                },
            );
        }
        assert(diagnostics@ =~= old(diagnostics)@ + mismatches(steps@.take(i + 1)));
        i = i + 1;
    }
    assert(steps@.take(i as int) =~= steps@);
    assert(steps@ =~= ranged);
}

// Activities.

/// Whether the activity at `i` could have been caused by the launch and is
/// still free.
pub open spec fn candidate(a: Seq<Activity>, k: KernelExecution, i: int) -> bool {
    &&& 0 <= i < a.len()
    &&& has_key(a[i], k.pid, k.launch.correlation_id, k.launch.stream)
    &&& !a[i].matched
}

/// Whether the candidate at `i` does not start before the launch.
pub open spec fn in_order(a: Seq<Activity>, k: KernelExecution, i: int) -> bool {
    candidate(a, k, i) && a[i].timestamp_ns >= k.host_launch_timestamp_ns
}

pub open spec fn is_first_in_order(a: Seq<Activity>, k: KernelExecution, i: int) -> bool {
    in_order(a, k, i) && forall|j: int| 0 <= j < i ==> !in_order(a, k, j)
}

pub open spec fn is_last_candidate(a: Seq<Activity>, k: KernelExecution, i: int) -> bool {
    candidate(a, k, i) && forall|j: int| i < j < a.len() ==> !candidate(a, k, j)
}

/// The activity that a launch takes: the first candidate that does not start
/// before it, else the last candidate.
pub open spec fn chosen(a: Seq<Activity>, k: KernelExecution) -> Option<int> {
    if !k.flagged(KernelFlags::HAS_CORRELATION_ID) {
        None
    } else if exists|i: int| is_first_in_order(a, k, i) {
        Some(choose|i: int| is_first_in_order(a, k, i))
    } else if exists|i: int| is_last_candidate(a, k, i) {
        Some(choose|i: int| is_last_candidate(a, k, i))
    } else {
        None
    }
}

/// The kernel with the timing of its activity.
pub open spec fn matched_kernel(k: KernelExecution, a: Activity) -> KernelExecution {
    KernelExecution {
        flags: k.flags | KernelFlags::HAS_ACTIVITY,
        activity_sequence: a.sequence,
        gpu_start_timestamp_ns: a.timestamp_ns,
        gpu_duration_ns: a.data.duration_ns,
        launch: CudaKernelLaunchData {
            kernel_symbol_id: if k.launch.kernel_symbol_id == 0 {
                a.data.kernel_symbol_id
            } else {
                k.launch.kernel_symbol_id
            },
            ..k.launch
        },
        ..k
    }
}

/// Each kernel in turn takes the activity that it chooses among those left.
pub open spec fn matching(
    kernels: Seq<KernelExecution>,
    activities: Seq<Activity>,
) -> (Seq<KernelExecution>, Seq<Activity>)
    decreases kernels.len(),
{
    if kernels.len() == 0 {
        (Seq::empty(), activities)
    } else {
        let (done, left) = matching(kernels.drop_last(), activities);
        let k = kernels.last();
        match chosen(left, k) {
            Some(i) => (
                done.push(matched_kernel(k, left[i])),
                left.update(i, Activity { matched: true, ..left[i] }),
            ),
            None => (done.push(k), left),
        }
    }
}

/// Whether the key of the activity lies before that of the launch.
pub open spec fn key_below(a: Activity, k: KernelExecution) -> bool {
    a.pid < k.pid || (a.pid == k.pid && (a.data.correlation_id < k.launch.correlation_id || (
    a.data.correlation_id == k.launch.correlation_id && a.data.stream < k.launch.stream)))
}

fn is_key_below(a: &Activity, k: &KernelExecution) -> (r: bool)
    ensures
        r == key_below(*a, *k),
{
    if a.pid != k.pid {
        return a.pid < k.pid;
    }
    if a.data.correlation_id != k.launch.correlation_id {
        return a.data.correlation_id < k.launch.correlation_id;
    }
    a.data.stream < k.launch.stream
}

/// The position of the first activity whose key is not below that of the launch.
fn first_not_below(activities: &Vec<Activity>, k: &KernelExecution) -> (start: usize)
    requires
        sorted(activities@),
    ensures
        start <= activities.len(),
        forall|i: int| 0 <= i < start ==> key_below(#[trigger] activities@[i], *k),
        forall|i: int| start <= i < activities.len() ==> !key_below(#[trigger] activities@[i], *k),
{
    let mut low: usize = 0;
    let mut high: usize = activities.len();
    while low < high
        invariant
            low <= high <= activities.len(),
            sorted(activities@),
            forall|i: int| 0 <= i < low ==> key_below(#[trigger] activities@[i], *k),
            forall|i: int|
                high <= i < activities.len() ==> !key_below(#[trigger] activities@[i], *k),
        decreases high - low,
    {
        let middle: usize = low + (high - low) / 2;
        if is_key_below(&activities[middle], k) {
            assert forall|i: int| 0 <= i <= middle implies key_below(
                #[trigger] activities@[i],
                *k,
            ) by {
                assert(activities@[i].before(activities@[middle as int]));
            }
            low = middle + 1;
        } else {
            assert forall|i: int| middle <= i < activities.len() implies !key_below(
                #[trigger] activities@[i],
                *k,
            ) by {
                assert(activities@[middle as int].before(activities@[i]));
            }
            high = middle;
        }
    }
    low
}

/// The activity that the launch takes.
fn choose_activity(activities: &Vec<Activity>, k: &KernelExecution) -> (r: Option<usize>)
    requires
        sorted(activities@),
    ensures
        r matches Some(i) ==> i < activities.len() && chosen(activities@, *k) == Some(i as int),
        r is None ==> chosen(activities@, *k) is None,
{
    let ghost a = activities@;
    if k.flags & KernelFlags::HAS_CORRELATION_ID == 0 {
        return None;
    }
    let start: usize = first_not_below(activities, k);
    let mut best: Option<usize> = None;
    let mut i: usize = start;
    while i < activities.len() && activities[i].pid == k.pid && activities[i].data.correlation_id
        == k.launch.correlation_id && activities[i].data.stream == k.launch.stream
        invariant
            start <= i <= activities.len(),
            a == activities@,
            sorted(a),
            k.flagged(KernelFlags::HAS_CORRELATION_ID),
            forall|j: int| 0 <= j < start ==> key_below(#[trigger] a[j], *k),
            forall|j: int| start <= j < a.len() ==> !key_below(#[trigger] a[j], *k),
            forall|j: int| 0 <= j < i ==> !in_order(a, *k, j),
            best matches Some(b) ==> start <= b < i && candidate(a, *k, b as int) && forall|j: int|
                b < j < i ==> !candidate(a, *k, j),
            best is None ==> forall|j: int| 0 <= j < i ==> !candidate(a, *k, j),
        decreases activities.len() - i,
    {
        if !activities[i].matched {
            best = Some(i);
            if activities[i].timestamp_ns >= k.host_launch_timestamp_ns {
                proof {
                    assert(is_first_in_order(a, *k, i as int));
                    let c = choose|c: int| is_first_in_order(a, *k, c);
                    assert(c == i as int);
                }
                return Some(i);
            }
        }
        i = i + 1;
    }
    proof {
        assert forall|j: int| i <= j < a.len() implies !candidate(a, *k, j) by {
            assert(a[i as int].before(a[j]));
        }
        assert forall|j: int| !is_first_in_order(a, *k, j) by {}
        match best {
            Some(b) => {
                assert(is_last_candidate(a, *k, b as int));
                let c = choose|c: int| is_last_candidate(a, *k, c);
                assert(c == b as int);
            },
            None => {
                assert forall|j: int| !is_last_candidate(a, *k, j) by {}
            },
        }
    }
    best
}

/// Taking an activity leaves the order as it is.
proof fn taking_keeps_order(a: Seq<Activity>, i: int)
    requires
        sorted(a),
        0 <= i < a.len(),
    ensures
        sorted(a.update(i, Activity { matched: true, ..a[i] })),
{
    let b = a.update(i, Activity { matched: true, ..a[i] });
    assert forall|x: int, y: int| 0 <= x <= y < b.len() implies #[trigger] b[x].before(
        #[trigger] b[y],
    ) by {
        assert(a[x].before(a[y]));
    }
}

fn match_activities(kernels: &mut Vec<KernelExecution>, activities: &mut Vec<Activity>)
    requires
        sorted(old(activities)@),
    ensures
        (final(kernels)@, final(activities)@) == matching(old(kernels)@, old(activities)@),
{
    let mut n: usize = 0;
    assert(kernels@.take(0) =~= Seq::<KernelExecution>::empty());
    while n < kernels.len()
        invariant
            n <= kernels.len() == old(kernels).len(),
            sorted(activities@),
            kernels@.take(n as int) == matching(old(kernels)@.take(n as int), old(activities)@).0,
            activities@ == matching(old(kernels)@.take(n as int), old(activities)@).1,
            forall|j: int| n <= j < kernels.len() ==> #[trigger] kernels@[j] == old(kernels)@[j],
        decreases kernels.len() - n,
    {
        let ghost before = kernels@;
        let mut kernel = kernels[n];
        let picked = choose_activity(activities, &kernel);
        proof {
            assert(old(kernels)@.take(n + 1).drop_last() =~= old(kernels)@.take(n as int));
            assert(old(kernels)@.take(n + 1).last() == kernel);
        }
        if let Some(index) = picked {
            let mut activity = activities[index];
            kernel.flags = kernel.flags | KernelFlags::HAS_ACTIVITY;
            kernel.activity_sequence = activity.sequence;
            kernel.gpu_start_timestamp_ns = activity.timestamp_ns;
            kernel.gpu_duration_ns = activity.data.duration_ns;
            if kernel.launch.kernel_symbol_id == 0 {
                kernel.launch.kernel_symbol_id = activity.data.kernel_symbol_id;
            }
            proof {
                taking_keeps_order(activities@, index as int);
            }
            activity.matched = true;
            activities.set(index, activity);
            kernels.set(n, kernel);
        }
        assert(kernels@.take(n + 1) =~= before.take(n as int).push(kernel));
        n = n + 1;
    }
    assert(kernels@.take(n as int) =~= kernels@);
    assert(old(kernels)@.take(n as int) =~= old(kernels)@);
}

/// One diagnostic for every activity that no launch took.
pub open spec fn orphans(a: Seq<Activity>) -> Seq<Diagnostic>
    decreases a.len(),
{
    if a.len() == 0 {
        Seq::empty()
    } else {
        let front = orphans(a.drop_last());
        if a.last().matched {
            front
        } else {
            front.push(
                Diagnostic {
                    code: DiagnosticCode::ActivityWithoutLaunch,
                    pid: a.last().pid,
                    sequence: a.last().sequence,
                    step_id: 0,
                },
            )
        }
    }
}

/// One diagnostic for every step that did not end.
pub open spec fn left_open(open: Seq<OpenStep>) -> Seq<Diagnostic> {
    open.map_values(
        |o: OpenStep|
            Diagnostic {
                code: DiagnosticCode::OpenStep,
                pid: o.pid,
                sequence: o.begin_sequence,
                step_id: o.step_id,
            },
    )
}

// Timing.

/// The end of a kernel, or the latest instant where it does not fit.
pub open spec fn kernel_end(k: KernelExecution) -> u64 {
    if k.gpu_start_timestamp_ns + k.gpu_duration_ns <= u64::MAX {
        (k.gpu_start_timestamp_ns + k.gpu_duration_ns) as u64
    } else {
        u64::MAX
    }
}

/// The GPU intervals of the kernels whose activity is known.
pub open spec fn activity_intervals(kernels: Seq<KernelExecution>) -> Seq<(int, int)>
    decreases kernels.len(),
{
    if kernels.len() == 0 {
        Seq::empty()
    } else {
        let front = activity_intervals(kernels.drop_last());
        let k = kernels.last();
        if k.has_activity() {
            front.push((k.gpu_start_timestamp_ns as int, kernel_end(k) as int))
        } else {
            front
        }
    }
}

/// The latest end among the intervals.
pub open spec fn latest_end(intervals: Seq<(int, int)>) -> int
    decreases intervals.len(),
{
    if intervals.len() == 0 {
        0
    } else {
        let front = latest_end(intervals.drop_last());
        if intervals.last().1 > front {
            intervals.last().1
        } else {
            front
        }
    }
}

/// The sum of the kernel durations, modulo the range of the counter.
pub open spec fn kernel_time(kernels: Seq<KernelExecution>) -> u64
    decreases kernels.len(),
{
    if kernels.len() == 0 {
        0
    } else {
        kernel_time(kernels.drop_last()).wrapping_add(kernels.last().gpu_duration_ns)
    }
}

/// How many of the kernels have no activity.
pub open spec fn unmatched(kernels: Seq<KernelExecution>) -> nat
    decreases kernels.len(),
{
    if kernels.len() == 0 {
        0
    } else {
        unmatched(kernels.drop_last()) + if kernels.last().has_activity() {
            0nat
        } else {
            1
        }
    }
}

/// The summary of a step once its kernels are known. The busy time is the
/// length of the union of the kernel intervals; the span reaches from the
/// first start to the latest end.
pub open spec fn timed_step(
    step: StepSummary,
    kernels: Seq<KernelExecution>,
    start: int,
    end: int,
) -> StepSummary {
    let own = kernels.subrange(start, end);
    let intervals = activity_intervals(own);
    StepSummary {
        kernel_start: start as u32,
        kernel_count: (end - start) as u32,
        unmatched_launch_count: unmatched(own) as u32,
        kernel_time_sum_ns: kernel_time(own),
        gpu_busy_time_ns: if intervals.len() == 0 {
            step.gpu_busy_time_ns
        } else {
            union_length(intervals) as u64
        },
        gpu_span_ns: if intervals.len() == 0 {
            step.gpu_span_ns
        } else {
            (latest_end(intervals) - intervals[0].0) as u64
        },
        ..step
    }
}

pub open spec fn timed_steps(
    steps: Seq<StepSummary>,
    kernels: Seq<KernelExecution>,
) -> Seq<StepSummary> {
    let indexes = kernel_steps(kernels);
    Seq::new(
        steps.len(),
        |i: int|
            timed_step(
                steps[i],
                kernels,
                count_below(indexes, i) as int,
                count_below(indexes, i + 1) as int,
            ),
    )
}

/// What the kernels of one step add up to.
struct Timing {
    unmatched: usize,
    time_sum: u64,
    busy: Option<(u64, u64)>,
}

proof fn intervals_of_prefix(own: Seq<KernelExecution>, n: int)
    requires
        0 < n <= own.len(),
    ensures
        own.take(n).drop_last() == own.take(n - 1),
        own.take(n).last() == own[n - 1],
{
    assert(own.take(n).drop_last() =~= own.take(n - 1));
}

fn time_kernels(kernels: &Vec<KernelExecution>, start: usize, end: usize) -> (t: Timing)
    requires
        start <= end <= kernels.len(),
        sorted(kernels@),
        forall|i: int, j: int|
            start <= i < end && start <= j < end ==> (#[trigger] kernels@[i]).step_index == (
            #[trigger] kernels@[j]).step_index,
    ensures
        ({
            let own = kernels@.subrange(start as int, end as int);
            let intervals = activity_intervals(own);
            &&& t.unmatched == unmatched(own)
            &&& t.unmatched <= end - start
            &&& t.time_sum == kernel_time(own)
            &&& t.busy is None <==> intervals.len() == 0
            &&& t.busy matches Some(busy) ==> busy.0 == union_length(intervals) && busy.1
                == latest_end(intervals) - intervals[0].0
        }),
{
    let ghost own = kernels@.subrange(start as int, end as int);
    let mut missing: usize = 0;
    let mut time_sum: u64 = 0;
    let mut first: Option<u64> = None;
    let mut union_start: u64 = 0;
    let mut union_end: u64 = 0;
    let mut busy: u64 = 0;
    let mut i: usize = start;
    assert(own.take(0) =~= Seq::<KernelExecution>::empty());
    while i < end
        invariant
            start <= i <= end <= kernels.len(),
            own == kernels@.subrange(start as int, end as int),
            sorted(kernels@),
            forall|i: int, j: int|
                start <= i < end && start <= j < end ==> (#[trigger] kernels@[i]).step_index == (
                #[trigger] kernels@[j]).step_index,
            missing == unmatched(own.take(i - start)),
            missing <= i - start,
            time_sum == kernel_time(own.take(i - start)),
            first is None <==> activity_intervals(own.take(i - start)).len() == 0,
            first is None ==> busy == 0,
            first matches Some(f) ==> {
                let seen = activity_intervals(own.take(i - start));
                &&& f == seen[0].0
                &&& f <= union_start
                &&& pass_state(seen, 0, busy as int, (union_start as int, union_end as int))
                &&& union_end == latest_end(seen)
                &&& exists|j: int|
                    0 <= j < i - start && own[j].has_activity() && (
                    #[trigger] own[j]).gpu_start_timestamp_ns == union_start
            },
        decreases end - i,
    {
        let kernel = kernels[i];
        let ghost n = i - start;
        proof {
            intervals_of_prefix(own, n + 1);
            assert(own[n] == kernel);
        }
        time_sum = time_sum.wrapping_add(kernel.gpu_duration_ns);
        if kernel.flags & KernelFlags::HAS_ACTIVITY != 0 {
            let start_ns: u64 = kernel.gpu_start_timestamp_ns;
            let end_ns: u64 = start_ns.saturating_add(kernel.gpu_duration_ns);
            let ghost seen = activity_intervals(own.take(n));
            let ghost next = activity_intervals(own.take(n + 1));
            proof {
                assert(next == seen.push((start_ns as int, end_ns as int)));
                assert(next.drop_last() =~= seen);
            }
            if first.is_none() {
                proof {
                    pass_start(0, (start_ns as int, end_ns as int));
                    assert(next =~= seq![(start_ns as int, end_ns as int)]);
                    assert(latest_end(seen) == 0);
                }
                first = Some(start_ns);
                union_start = start_ns;
                union_end = end_ns;
            } else {
                proof {
                    let j = choose|j: int|
                        0 <= j < n && own[j].has_activity() && (
                        #[trigger] own[j]).gpu_start_timestamp_ns == union_start;
                    assert(kernels@[start + j].before(kernels@[i as int]));
                    assert(own[j] == kernels@[start + j]);
                    assert(union_start <= start_ns);
                    pass_step(
                        seen,
                        0,
                        busy as int,
                        (union_start as int, union_end as int),
                        (start_ns as int, end_ns as int),
                    );
                    assert(next[0] == seen[0]);
                }
                if start_ns <= union_end {
                    if end_ns > union_end {
                        union_end = end_ns;
                    }
                } else {
                    busy = busy + (union_end - union_start);
                    union_start = start_ns;
                    union_end = end_ns;
                }
            }
            assert(own[n].has_activity());
        } else {
            missing = missing + 1;
        }
        i = i + 1;
    }
    assert(own.take(i - start) =~= own);
    match first {
        Some(first_ns) => Timing {
            unmatched: missing,
            time_sum,
            busy: Some((busy + (union_end - union_start), union_end - first_ns)),
        },
        None => Timing { unmatched: missing, time_sum, busy: None },
    }
}

fn assign_kernel_ranges_and_timing(steps: &mut Vec<StepSummary>, kernels: &Vec<KernelExecution>)
    requires
        sorted(kernels@),
        kernels.len() <= u32::MAX,
    ensures
        final(steps)@ == timed_steps(old(steps)@, kernels@),
{
    let indexes = steps_of_kernels(kernels);
    let ghost timed = timed_steps(steps@, kernels@);
    proof {
        assert forall|i: int, j: int| 0 <= i <= j < indexes.len() implies #[trigger] indexes@[i]
            <= #[trigger] indexes@[j] by {
            assert(kernels@[i].before(kernels@[j]));
        }
    }
    let mut cursor: usize = 0;
    let mut i: usize = 0;
    while i < steps.len()
        invariant
            i <= steps.len() == old(steps).len(),
            cursor <= indexes.len() <= u32::MAX,
            indexes.len() == kernels.len(),
            sorted(kernels@),
            indexes@ == kernel_steps(kernels@),
            timed == timed_steps(old(steps)@, kernels@),
            forall|i: int, j: int|
                0 <= i <= j < indexes.len() ==> #[trigger] indexes@[i] <= #[trigger] indexes@[j],
            forall|j: int| 0 <= j < cursor ==> #[trigger] indexes@[j] < i,
            forall|j: int| cursor <= j < indexes.len() ==> #[trigger] indexes@[j] >= i,
            forall|j: int| 0 <= j < i ==> #[trigger] steps@[j] == timed[j],
            forall|j: int| i <= j < steps.len() ==> #[trigger] steps@[j] == old(steps)@[j],
        decreases steps.len() - i,
    {
        let start: usize = cursor;
        cursor = run_end(&indexes, start, i);
        proof {
            assert forall|x: int, y: int|
                start <= x < cursor && start <= y < cursor implies (
            #[trigger] kernels@[x]).step_index == (#[trigger] kernels@[y]).step_index by {
                assert(indexes@[x] == i && indexes@[y] == i);
            }
        }
        let t = time_kernels(kernels, start, cursor);
        let mut step = steps[i];
        step.kernel_start = start as u32;
        step.kernel_count = (cursor - start) as u32;
        step.unmatched_launch_count = t.unmatched as u32;
        step.kernel_time_sum_ns = t.time_sum;
        if let Some(busy) = t.busy {
            step.gpu_busy_time_ns = busy.0;
            step.gpu_span_ns = busy.1;
        }
        steps.set(i, step);
        assert(step == timed[i as int]);
        i = i + 1;
    }
    assert(steps@ =~= timed);
}

// The index.

/// What a trace says.
#[verifier::ext_equal]
pub struct Trace {
    pub steps: Seq<StepSummary>,
    pub memberships: Seq<Membership>,
    pub kernels: Seq<KernelExecution>,
    pub diagnostics: Seq<Diagnostic>,
}

/// The trace of events that are arranged by time.
pub open spec fn traced(events: Seq<EventRecord>) -> Trace {
    let p = passed(events);
    let memberships = arranged(p.memberships);
    let ranged = ranged_steps(p.steps, memberships);
    let (launched, activities) = matching(p.kernels, arranged(p.activities));
    let kernels = arranged(launched);
    Trace {
        steps: timed_steps(ranged, kernels),
        memberships,
        kernels,
        diagnostics: p.diagnostics + left_open(p.open) + mismatches(ranged) + orphans(activities),
    }
}

/// Whether there are more steps, slices or launches than an index can number.
pub open spec fn too_many(events: Seq<EventRecord>) -> bool {
    ||| kind_count(events, EventKind::EngineStepBegin) > u32::MAX
    ||| kind_count(events, EventKind::StepRequestSlice) > u32::MAX
    ||| kind_count(events, EventKind::CudaKernelLaunch) > u32::MAX
}

pub struct TraceIndex {
    steps: Vec<StepSummary>,
    memberships: Vec<Membership>,
    kernels: Vec<KernelExecution>,
    diagnostics: Vec<Diagnostic>,
}

impl View for TraceIndex {
    type V = Trace;

    closed spec fn view(&self) -> Trace {
        Trace {
            steps: self.steps@,
            memberships: self.memberships@,
            kernels: self.kernels@,
            diagnostics: self.diagnostics@,
        }
    }
}

/// The bytes of room for so many entries of each kind, or the greatest number
/// where they are more.
pub open spec fn bytes_of_capacities(
    steps: usize,
    memberships: usize,
    kernels: usize,
    diagnostics: usize,
) -> usize {
    let bytes = steps * vstd::layout::size_of::<StepSummary>() + memberships
        * vstd::layout::size_of::<Membership>() + kernels * vstd::layout::size_of::<
        KernelExecution,
    >() + diagnostics * vstd::layout::size_of::<Diagnostic>();
    if bytes <= usize::MAX {
        bytes as usize
    } else {
        usize::MAX
    }
}

/// Whether the bytes are those of some room that holds the entries of the
/// trace.
pub open spec fn are_index_bytes(bytes: usize, trace: Trace) -> bool {
    exists|s: usize, m: usize, k: usize, d: usize|
        s >= trace.steps.len() && m >= trace.memberships.len() && k >= trace.kernels.len() && d
            >= trace.diagnostics.len() && bytes == #[trigger] bytes_of_capacities(s, m, k, d)
}

/// The bytes of room for so many values of a type.
fn room_bytes<T>(capacity: usize) -> (bytes: usize)
    ensures
        bytes == if capacity * vstd::layout::size_of::<T>() <= usize::MAX {
            capacity * vstd::layout::size_of::<T>()
        } else {
            usize::MAX as int
        },
{
    match capacity.checked_mul(core::mem::size_of::<T>()) {
        Some(bytes) => bytes,
        None => usize::MAX,
    }
}

/// The bytes of room for so many entries of each kind.
pub fn index_bytes(
    steps: usize,
    memberships: usize,
    kernels: usize,
    diagnostics: usize,
) -> (bytes: usize)
    ensures
        bytes == bytes_of_capacities(steps, memberships, kernels, diagnostics),
{
    proof {
        sizes_are_not_negative(steps, vstd::layout::size_of::<StepSummary>());
        sizes_are_not_negative(memberships, vstd::layout::size_of::<Membership>());
        sizes_are_not_negative(kernels, vstd::layout::size_of::<KernelExecution>());
        sizes_are_not_negative(diagnostics, vstd::layout::size_of::<Diagnostic>());
    }
    room_bytes::<StepSummary>(steps).saturating_add(
        room_bytes::<Membership>(memberships),
    ).saturating_add(room_bytes::<KernelExecution>(kernels)).saturating_add(
        room_bytes::<Diagnostic>(diagnostics),
    )
}

proof fn sizes_are_not_negative(count: usize, size: nat)
    ensures
        count * size >= 0,
{
    assert(count * size >= 0) by (nonlinear_arith)
        requires
            count >= 0,
            size >= 0,
    ;
}

impl TraceIndex {
    pub fn steps(&self) -> (r: &[StepSummary])
        ensures
            r@ == self@.steps,
    {
        self.steps.as_slice()
    }

    pub fn memberships(&self) -> (r: &[Membership])
        ensures
            r@ == self@.memberships,
    {
        self.memberships.as_slice()
    }

    pub fn kernels(&self) -> (r: &[KernelExecution])
        ensures
            r@ == self@.kernels,
    {
        self.kernels.as_slice()
    }

    pub fn diagnostics(&self) -> (r: &[Diagnostic])
        ensures
            r@ == self@.diagnostics,
    {
        self.diagnostics.as_slice()
    }

    /// The memberships in the range of the step.
    pub fn memberships_for_step(&self, step: &StepSummary) -> (r: &[Membership])
        requires
            step.membership_start + step.membership_count <= self@.memberships.len(),
        ensures
            r@ == self@.memberships.subrange(
                step.membership_start as int,
                step.membership_start + step.membership_count,
            ),
    {
        let all = self.memberships.as_slice();
        assert(step.membership_start + step.membership_count <= all.len());
        let start: usize = step.membership_start as usize;
        let end: usize = start + step.membership_count as usize;
        vstd::slice::slice_subrange(all, start, end)
    }

    /// The kernels in the range of the step.
    pub fn kernels_for_step(&self, step: &StepSummary) -> (r: &[KernelExecution])
        requires
            step.kernel_start + step.kernel_count <= self@.kernels.len(),
        ensures
            r@ == self@.kernels.subrange(
                step.kernel_start as int,
                step.kernel_start + step.kernel_count,
            ),
    {
        let all = self.kernels.as_slice();
        assert(step.kernel_start + step.kernel_count <= all.len());
        let start: usize = step.kernel_start as usize;
        let end: usize = start + step.kernel_count as usize;
        vstd::slice::slice_subrange(all, start, end)
    }

    /// The bytes of the room that the trace has for its entries, which is at
    /// least what they take.
    pub fn allocated_bytes_lower_bound(&self) -> (bytes: usize)
        ensures
            are_index_bytes(bytes, self@),
            bytes >= self@.steps.len() * vstd::layout::size_of::<StepSummary>()
                + self@.memberships.len() * vstd::layout::size_of::<Membership>()
                + self@.kernels.len() * vstd::layout::size_of::<KernelExecution>()
                + self@.diagnostics.len() * vstd::layout::size_of::<Diagnostic>() || bytes
                == usize::MAX,
    {
        let steps: usize = capacity_of(&self.steps);
        let memberships: usize = capacity_of(&self.memberships);
        let kernels: usize = capacity_of(&self.kernels);
        let diagnostics: usize = capacity_of(&self.diagnostics);
        proof {
            more_room_is_not_less(
                steps,
                self.steps@.len(),
                vstd::layout::size_of::<StepSummary>(),
            );
            more_room_is_not_less(
                memberships,
                self.memberships@.len(),
                vstd::layout::size_of::<Membership>(),
            );
            more_room_is_not_less(
                kernels,
                self.kernels@.len(),
                vstd::layout::size_of::<KernelExecution>(),
            );
            more_room_is_not_less(
                diagnostics,
                self.diagnostics@.len(),
                vstd::layout::size_of::<Diagnostic>(),
            );
        }
        index_bytes(steps, memberships, kernels, diagnostics)
    }
}

proof fn more_room_is_not_less(capacity: usize, count: nat, size: nat)
    requires
        capacity >= count,
    ensures
        capacity * size >= count * size,
{
    assert(capacity * size >= count * size) by (nonlinear_arith)
        requires
            capacity >= count,
            size >= 0,
    ;
}

/// The kernels of a matching are as many as were launched.
pub proof fn matching_keeps_kernels(kernels: Seq<KernelExecution>, activities: Seq<Activity>)
    ensures
        matching(kernels, activities).0.len() == kernels.len(),
        matching(kernels, activities).1.len() == activities.len(),
    decreases kernels.len(),
{
    if kernels.len() > 0 {
        matching_keeps_kernels(kernels.drop_last(), activities);
    }
}

fn append_orphans(diagnostics: &mut Vec<Diagnostic>, activities: &Vec<Activity>)
    ensures
        final(diagnostics)@ == old(diagnostics)@ + orphans(activities@),
{
    let mut i: usize = 0;
    assert(activities@.take(0) =~= Seq::<Activity>::empty());
    assert(diagnostics@ + orphans(activities@.take(0)) =~= diagnostics@);
    while i < activities.len()
        invariant
            i <= activities.len(),
            diagnostics@ == old(diagnostics)@ + orphans(activities@.take(i as int)),
        decreases activities.len() - i,
    {
        assert(activities@.take(i + 1).drop_last() =~= activities@.take(i as int));
        let activity = &activities[i];
        if !activity.matched {
            diagnostics.push(
                Diagnostic {
                    code: DiagnosticCode::ActivityWithoutLaunch,
                    pid: activity.pid,
                    sequence: activity.sequence,
                    step_id: 0,
                },
            );
        }
        assert(diagnostics@ =~= old(diagnostics)@ + orphans(activities@.take(i + 1)));
        i = i + 1;
    }
    assert(activities@.take(i as int) =~= activities@);
}

fn append_left_open(diagnostics: &mut Vec<Diagnostic>, open: &Vec<OpenStep>)
    ensures
        final(diagnostics)@ == old(diagnostics)@ + left_open(open@),
{
    let mut i: usize = 0;
    assert(diagnostics@ + left_open(open@.take(0)) =~= diagnostics@);
    while i < open.len()
        invariant
            i <= open.len(),
            diagnostics@ == old(diagnostics)@ + left_open(open@.take(i as int)),
        decreases open.len() - i,
    {
        let step = &open[i];
        diagnostics.push(
            Diagnostic {
                code: DiagnosticCode::OpenStep,
                pid: step.pid,
                sequence: step.begin_sequence,
                step_id: step.step_id,
            },
        );
        assert(diagnostics@ =~= old(diagnostics)@ + left_open(open@.take(i + 1)));
        i = i + 1;
    }
    assert(open@.take(i as int) =~= open@);
}

impl TraceBuilder {
    /// The trace of events that are arranged by time.
    pub fn build(self, events: &[EventRecord]) -> (trace: TraceIndex)
        requires
            self.pass() == empty_pass(),
            !too_many(events@),
        ensures
            trace@ == traced(events@),
    {
        let mut built = self;
        built.read_all(events);
        let ghost p = passed(events@);
        proof {
            passed_is_wf(events@);
            assert(built.steps@ == p.steps && built.memberships@ == p.memberships);
            assert(built.kernels@ == p.kernels && built.activities@ == p.activities);
            assert(built.open@ == p.open && built.diagnostics@ == p.diagnostics);
        }
        let mut steps = built.steps;
        let mut diagnostics = built.diagnostics;
        append_left_open(&mut diagnostics, &built.open);
        let memberships = arrange(built.memberships);
        proof {
            memberships@.to_multiset_ensures();
            p.memberships.to_multiset_ensures();
        }
        assign_membership_ranges(&mut steps, &memberships, &mut diagnostics);
        let mut activities = arrange(built.activities);
        let mut launched = built.kernels;
        match_activities(&mut launched, &mut activities);
        append_orphans(&mut diagnostics, &activities);
        let kernels = arrange(launched);
        proof {
            matching_keeps_kernels(p.kernels, arranged(p.activities));
            kernels@.to_multiset_ensures();
            launched@.to_multiset_ensures();
        }
        assign_kernel_ranges_and_timing(&mut steps, &kernels);
        let trace = TraceIndex { steps, memberships, kernels, diagnostics };
        assert(trace@ =~= traced(events@));
        trace
    }
}

/// Arranges the events by time and correlates them.
///
/// Where there is room for the entries of the trace, it is a function of the
/// arranged events.
pub fn correlate(events: &mut [EventRecord]) -> (r: Result<TraceIndex, CorrelationError>)
    ensures
        final(events)@ == arranged(old(events)@),
        arranges(old(events)@, final(events)@),
        too_many(final(events)@) ==> r is Err,
        r matches Err(error) ==> error == if too_many(final(events)@) {
            CorrelationError::IndexOverflow
        } else {
            CorrelationError::AllocationFailed
        },
        r matches Ok(trace) ==> trace@ == traced(final(events)@),
{
    arrange_in_place(events);
    let steps: usize = count(events, EventKind::EngineStepBegin);
    let slices: usize = count(events, EventKind::StepRequestSlice);
    let launches: usize = count(events, EventKind::CudaKernelLaunch);
    let activities: usize = count(events, EventKind::CuptiKernelActivity);
    if steps > u32::MAX as usize || slices > u32::MAX as usize || launches > u32::MAX as usize {
        return Err(CorrelationError::IndexOverflow);
    }
    let builder = TraceBuilder::try_new(steps, slices, launches, activities)?;
    Ok(builder.build(events))
}

/// The memberships of a trace are those that were read, arranged by step.
pub proof fn arranged_memberships(events: Seq<EventRecord>)
    ensures
        arranges(passed(events).memberships, arranged(passed(events).memberships)),
{
    crate::order::arrangement_exists(passed(events).memberships);
}

/// The kernels of a trace are those that were launched, arranged by step.
pub proof fn arranged_kernels(events: Seq<EventRecord>)
    ensures
        ({
            let p = passed(events);
            let launched = matching(p.kernels, arranged(p.activities)).0;
            arranges(launched, arranged(launched))
        }),
{
    let p = passed(events);
    crate::order::arrangement_exists(matching(p.kernels, arranged(p.activities)).0);
}

} // verus!
