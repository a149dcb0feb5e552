//! The sample join: instruction samples given to the requests that own the rows
//! of a step.

use crate::deep_replay::{find_offset, has_offset, increasing};
use crate::digits::{append_decimal, decimal};
use crate::index::{has_id, row_with, IdIndex, IdTable, Identified};
use crate::order::{arrange, arranged, arranged_copy, Keyed};
use crate::ownership::{SemanticTrace, TraceStep};
use crate::samples::{
    interval_problem, owner_for_row, running_step, slice_of_row, step_for_timestamp,
    validate_step_timeline, EventQuality, SampleEvent,
};
use crate::blocks::step_owners;
use crate::sanitizer::Function;
use crate::sass::Instruction;
use crate::trace_event::Dim3;
use vstd::prelude::*;
use vstd::slice::slice_subrange;
use vstd::string::*;

verus! {

/// The most samples that a file can hold.
pub const MAX_SAMPLES: usize = 2_097_152;

// Launches.

/// A launch that was recorded.
#[derive(Clone, Copy, Debug, PartialEq, Eq, Structural)]
pub struct SampledLaunch {
    pub launch_id: u64,
    pub host_timestamp_ns: u64,
    pub kernel_slot: u32,
    pub grid: Dim3,
    pub is_target: bool,
}

impl Keyed for SampledLaunch {
    open spec fn before(self, other: Self) -> bool {
        self.launch_id <= other.launch_id
    }

    proof fn before_is_total(a: Self, b: Self) {
    }

    proof fn before_is_transitive(a: Self, b: Self, c: Self) {
    }

    fn comes_before(&self, other: &Self) -> (r: bool) {
        self.launch_id <= other.launch_id
    }
}

/// A launch and its step.
#[derive(Clone, Copy, Debug, PartialEq, Eq, Structural)]
pub struct StepLaunch {
    pub launch: SampledLaunch,
    pub step_index: usize,
}

impl Identified for StepLaunch {
    open spec fn spec_id(self) -> u64 {
        self.launch.launch_id
    }

    fn id(&self) -> (r: u64) {
        self.launch.launch_id
    }
}

/// Whether two launches in a row have the same number.
pub open spec fn launches_repeat(sorted: Seq<SampledLaunch>) -> bool {
    exists|i: int| 0 <= i < sorted.len() - 1 && launch_repeats(sorted, i)
}

pub open spec fn launch_repeats(sorted: Seq<SampledLaunch>, i: int) -> bool {
    sorted[i].launch_id == sorted[i + 1].launch_id
}

fn any_launch_repeats(sorted: &Vec<SampledLaunch>) -> (r: bool)
    ensures
        r == launches_repeat(sorted@),
{
    let mut i: usize = 1;
    while i < sorted.len()
        invariant
            1 <= i,
            forall|k: int| 0 <= k < i - 1 && k < sorted@.len() - 1 ==> !launch_repeats(sorted@, k),
        decreases sorted.len() - i,
    {
        if sorted[i - 1].launch_id == sorted[i].launch_id {
            assert(launch_repeats(sorted@, i - 1));
            return true;
        }
        i += 1;
    }
    false
}

/// The step that a launch ran in, or why it has none.
pub open spec fn launch_step(launch: SampledLaunch, steps: Seq<TraceStep>) -> Result<
    int,
    Seq<char>,
> {
    if !launch.is_target || launch.grid.y != 1 || launch.grid.z != 1 {
        Err("launch table contains a non-target or non-linear grid"@)
    } else {
        match running_step(steps, launch.host_timestamp_ns) {
            None => Err("target launch does not map uniquely inside an engine step"@),
            Some(i) => match steps[i].packed_begin {
                None => Err("step lacks packed-layout timestamp"@),
                Some(packed) => if launch.host_timestamp_ns < packed.timestamp_ns || launch.grid.x
                    < steps[i].begin.scheduled_tokens {
                    Err("launch precedes packed layout or cannot cover packed token rows"@)
                } else {
                    Ok(i)
                },
            },
        }
    }
}

fn find_launch_step(launch: &SampledLaunch, steps: &[TraceStep]) -> (r: Result<usize, &'static str>)
    ensures
        match (r, launch_step(*launch, steps@)) {
            (Ok(i), Ok(expected)) => i == expected && i < steps@.len(),
            (Err(error), Err(expected)) => error@ == expected,
            _ => false,
        },
{
    if !launch.is_target || launch.grid.y != 1 || launch.grid.z != 1 {
        return Err("launch table contains a non-target or non-linear grid");
    }
    let i: usize = match step_for_timestamp(launch.host_timestamp_ns, steps) {
        Some(i) => i,
        None => {
            return Err("target launch does not map uniquely inside an engine step");
        },
    };
    match steps[i].packed_begin {
        None => Err("step lacks packed-layout timestamp"),
        Some(packed) => {
            if launch.host_timestamp_ns < packed.timestamp_ns || launch.grid.x
                < steps[i].begin.scheduled_tokens {
                return Err("launch precedes packed layout or cannot cover packed token rows");
            }
            Ok(i)
        },
    }
}

/// The first launches with their steps.
pub open spec fn step_launches(sorted: Seq<SampledLaunch>, n: int, steps: Seq<TraceStep>) -> Result<
    Seq<StepLaunch>,
    Seq<char>,
>
    decreases n,
{
    if n <= 0 {
        Ok(Seq::empty())
    } else {
        match step_launches(sorted, n - 1, steps) {
            Err(error) => Err(error),
            Ok(front) => match launch_step(sorted[n - 1], steps) {
                Err(error) => Err(error),
                Ok(i) => Ok(front.push(StepLaunch { launch: sorted[n - 1], step_index: i as usize })),
            },
        }
    }
}

proof fn launch_failure_stays(sorted: Seq<SampledLaunch>, n: int, m: int, steps: Seq<TraceStep>)
    requires
        0 <= n <= m,
        step_launches(sorted, n, steps) is Err,
    ensures
        step_launches(sorted, m, steps) == step_launches(sorted, n, steps),
    decreases m - n,
{
    if n < m {
        launch_failure_stays(sorted, n, m - 1, steps);
    }
}

/// Whether one of the launches ran in the step.
pub open spec fn step_has_launch(launches: Seq<StepLaunch>, step: int) -> bool {
    exists|k: int| 0 <= k < launches.len() && (#[trigger] launches[k]).step_index == step
}

/// The launches with their steps, or why they cannot be joined.
pub open spec fn joined_launches(launches: Seq<SampledLaunch>, steps: Seq<TraceStep>) -> Result<
    Seq<StepLaunch>,
    Seq<char>,
> {
    let sorted = arranged(launches);
    if sorted.len() == 0 || launches_repeat(sorted) {
        Err("launch table is empty or has duplicate launch IDs"@)
    } else {
        match step_launches(sorted, sorted.len() as int, steps) {
            Err(error) => Err(error),
            Ok(joined) => if exists|i: int| 0 <= i < steps.len() && !#[trigger] step_has_launch(
                joined,
                i,
            ) {
                Err("one or more measured steps have no target-kernel launch"@)
            } else {
                Ok(joined)
            },
        }
    }
}

proof fn launch_ids_increase(sorted: Seq<SampledLaunch>, i: int, j: int)
    requires
        !launches_repeat(sorted),
        crate::order::sorted(sorted),
        0 <= i < j < sorted.len(),
    ensures
        sorted[i].launch_id < sorted[j].launch_id,
{
    assert(!launch_repeats(sorted, j - 1));
    assert(sorted[i].before(sorted[j - 1]));
    assert(sorted[j - 1].before(sorted[j]));
}

fn join_launches(launches: &[SampledLaunch], steps: &[TraceStep]) -> (r: Result<
    IdTable<StepLaunch>,
    &'static str,
>)
    ensures
        match (r, joined_launches(launches@, steps@)) {
            (Ok(table), Ok(expected)) => table.wf() && table.rows() == expected && forall|k: int|
                0 <= k < expected.len() ==> (#[trigger] expected[k]).step_index < steps@.len(),
            (Err(error), Err(expected)) => error@ == expected,
            _ => false,
        },
{
    let sorted = arranged_copy(launches);
    if sorted.len() == 0 || any_launch_repeats(&sorted) {
        return Err("launch table is empty or has duplicate launch IDs");
    }
    let mut table: IdTable<StepLaunch> = IdTable::new();
    let mut seen: Vec<bool> = Vec::new();
    let mut i: usize = 0;
    while i < steps.len()
        invariant
            i <= steps.len(),
            seen@.len() == i,
            forall|k: int| 0 <= k < i ==> !(#[trigger] seen@[k]),
        decreases steps.len() - i,
    {
        seen.push(false);
        i += 1;
    }
    let mut n: usize = 0;
    while n < sorted.len()
        invariant
            n <= sorted.len(),
            sorted@ == arranged(launches@),
            crate::order::sorted(sorted@),
            sorted@.len() > 0,
            !launches_repeat(sorted@),
            table.wf(),
            step_launches(sorted@, n as int, steps@) == Ok::<Seq<StepLaunch>, Seq<char>>(
                table.rows(),
            ),
            table.rows().len() == n,
            forall|k: int| 0 <= k < n ==> (#[trigger] table.rows()[k]).launch == sorted@[k],
            forall|k: int| 0 <= k < n ==> (#[trigger] table.rows()[k]).step_index < steps@.len(),
            seen@.len() == steps@.len(),
            forall|k: int|
                0 <= k < seen@.len() ==> ((#[trigger] seen@[k]) <==> step_has_launch(
                    table.rows(),
                    k,
                )),
        decreases sorted.len() - n,
    {
        let launch = sorted[n];
        proof {
            if step_launches(sorted@, n + 1, steps@) is Err {
                launch_failure_stays(sorted@, n + 1, sorted@.len() as int, steps@);
            }
        }
        let step_index: usize = find_launch_step(&launch, steps)?;
        let ghost before = table.rows();
        let ghost seen_before = seen@;
        let row = StepLaunch { launch, step_index };
        let added: bool = table.insert(row);
        proof {
            if has_id(before, launch.launch_id) {
                let k = choose|k: int|
                    0 <= k < before.len() && (#[trigger] before[k]).spec_id() == launch.launch_id;
                assert(before[k].launch == sorted@[k]);
                launch_ids_increase(sorted@, k, n as int);
            }
        }
        seen.set(step_index, true);
        assert forall|k: int| 0 <= k < seen@.len() implies ((#[trigger] seen@[k])
            <==> step_has_launch(table.rows(), k)) by {
            if k == step_index {
                assert(table.rows()[n as int].step_index == k);
            } else {
                assert(seen@[k] == seen_before[k]);
                if seen_before[k] {
                    let j = choose|j: int|
                        0 <= j < before.len() && (#[trigger] before[j]).step_index == k;
                    assert(table.rows()[j].step_index == k);
                }
                if step_has_launch(table.rows(), k) {
                    let j = choose|j: int|
                        0 <= j < table.rows().len() && (#[trigger] table.rows()[j]).step_index
                            == k;
                    assert(before[j].step_index == k);
                }
            }
        }
        n += 1;
    }
    let mut i: usize = 0;
    while i < seen.len()
        invariant
            i <= seen.len(),
            seen@.len() == steps@.len(),
            joined_launches(launches@, steps@) == (if exists|i: int|
                0 <= i < steps@.len() && !#[trigger] step_has_launch(table.rows(), i) {
                Err("one or more measured steps have no target-kernel launch"@)
            } else {
                Ok(table.rows())
            }),
            forall|k: int|
                0 <= k < seen@.len() ==> ((#[trigger] seen@[k]) <==> step_has_launch(
                    table.rows(),
                    k,
                )),
            forall|k: int| 0 <= k < i ==> #[trigger] step_has_launch(table.rows(), k),
        decreases seen.len() - i,
    {
        if !seen[i] {
            assert(!step_has_launch(table.rows(), i as int));
            return Err("one or more measured steps have no target-kernel launch");
        }
        assert(step_has_launch(table.rows(), i as int));
        i += 1;
    }
    Ok(table)
}

// Samples.

/// A sample that was given to a request.
#[derive(Clone, Copy, Debug, PartialEq, Eq, Structural)]
pub struct OwnedSample {
    pub step_id: u64,
    pub request_id: u64,
    pub phase: u8,
    pub offset: u64,
    pub kind: u16,
    pub access_size: u16,
    pub timestamp: u64,
}

/// What becomes of a sample.
#[derive(Clone, Copy, Debug, PartialEq, Eq, Structural)]
pub enum SampleFate {
    Orphan,
    Geometry,
    Counter,
    Overflow,
    Padding,
    Ownership,
    Owned(OwnedSample),
}

/// Whether the kind, the address and the size of an access agree.
pub open spec fn access_fits(event: SampleEvent) -> bool {
    2 <= event.kind <= 8 && if event.kind == 8 {
        event.address == 0
    } else {
        event.address != 0 && event.access_size != 0
    }
}

/// What the samples are joined with.
pub struct SampleJoin {
    pub trace: SemanticTrace,
    pub launches: Seq<StepLaunch>,
    pub function: Function,
    pub instructions: Seq<Instruction>,
}

/// What becomes of a sample.
pub open spec fn fate_of(event: SampleEvent, join: SampleJoin) -> SampleFate {
    match row_with(join.launches, event.launch_id) {
        None => SampleFate::Orphan,
        Some(placed) => {
            let launch = placed.launch;
            let step = join.trace.steps@[placed.step_index as int];
            let offset = event.pc - join.function.pc;
            if event.kernel_slot != launch.kernel_slot || event.block.y != 0 || event.block.z != 0
                || event.block.x >= launch.grid.x {
                SampleFate::Geometry
            } else if join.function.slot != event.kernel_slot {
                SampleFate::Counter
            } else if join.function.pc + join.function.size > u64::MAX {
                SampleFate::Overflow
            } else if offset < 0 || offset >= join.function.size || !has_offset(
                join.instructions,
                offset as u64,
            ) || !access_fits(event) {
                SampleFate::Counter
            } else {
                match slice_of_row(step_owners(join.trace, step), event.block.x) {
                    None => if event.block.x >= step.begin.scheduled_tokens {
                        SampleFate::Padding
                    } else {
                        SampleFate::Ownership
                    },
                    Some(owner) => SampleFate::Owned(
                        OwnedSample {
                            step_id: step.begin.step_id,
                            request_id: owner.request_id,
                            phase: owner.phase,
                            offset: offset as u64,
                            kind: event.kind,
                            access_size: event.access_size,
                            timestamp: event.device_timestamp_raw,
                        },
                    ),
                }
            }
        },
    }
}

fn find_fate(
    event: &SampleEvent,
    trace: &SemanticTrace,
    launches: &IdTable<StepLaunch>,
    function: &Function,
    instructions: &Vec<Instruction>,
    Ghost(join): Ghost<SampleJoin>,
) -> (r: SampleFate)
    requires
        trace.wf(),
        launches.wf(),
        forall|k: int|
            0 <= k < launches.rows().len() ==> (#[trigger] launches.rows()[k]).step_index
                < trace.steps@.len(),
        increasing(instructions@),
        join == (SampleJoin {
            trace: *trace,
            launches: launches.rows(),
            function: *function,
            instructions: instructions@,
        }),
    ensures
        r == fate_of(*event, join),
{
    let placed = match launches.get(event.launch_id) {
        Some(placed) => placed,
        None => {
            return SampleFate::Orphan;
        },
    };
    let launch = placed.launch;
    proof {
        let k = choose|k: int|
            0 <= k < launches.rows().len() && (#[trigger] launches.rows()[k]).spec_id()
                == event.launch_id;
        assert(launches.rows()[k].step_index < trace.steps@.len());
        assert(trace.steps@[placed.step_index as int].owner_start
            + trace.steps@[placed.step_index as int].owner_count <= trace.owners@.len());
        assert(trace.owners.len() == trace.owners@.len());
    }
    if event.kernel_slot != launch.kernel_slot || event.block.y != 0 || event.block.z != 0
        || event.block.x >= launch.grid.x {
        return SampleFate::Geometry;
    }
    if function.slot != event.kernel_slot {
        return SampleFate::Counter;
    }
    let end: u64 = match function.pc.checked_add(function.size) {
        Some(end) => end,
        None => {
            return SampleFate::Overflow;
        },
    };
    if event.pc < function.pc || event.pc >= end {
        return SampleFate::Counter;
    }
    let offset: u64 = event.pc - function.pc;
    if find_offset(instructions, offset).is_none() {
        return SampleFate::Counter;
    }
    let fits: bool = 2 <= event.kind && event.kind <= 8 && if event.kind == 8 {
        event.address == 0
    } else {
        event.address != 0 && event.access_size != 0
    };
    if !fits {
        return SampleFate::Counter;
    }
    let step = trace.steps[placed.step_index];
    let owners = slice_subrange(
        trace.owners.as_slice(),
        step.owner_start,
        step.owner_start + step.owner_count,
    );
    assert(owners@ == step_owners(*trace, step));
    match owner_for_row(event.block.x, owners) {
        None => if event.block.x >= step.begin.scheduled_tokens {
            SampleFate::Padding
        } else {
            SampleFate::Ownership
        },
        Some(owner) => SampleFate::Owned(
            OwnedSample {
                step_id: step.begin.step_id,
                request_id: owner.request_id,
                phase: owner.phase,
                offset,
                kind: event.kind,
                access_size: event.access_size,
                timestamp: event.device_timestamp_raw,
            },
        ),
    }
}

/// How many of the first samples have the fate.
pub open spec fn fates(events: Seq<SampleEvent>, n: int, join: SampleJoin, fate: SampleFate) -> nat
    decreases n,
{
    if n <= 0 {
        0
    } else {
        fates(events, n - 1, join, fate) + if fate_of(events[n - 1], join) == fate {
            1nat
        } else {
            0
        }
    }
}

/// The first samples that were given to requests.
pub open spec fn owned_samples(events: Seq<SampleEvent>, n: int, join: SampleJoin) -> Seq<
    OwnedSample,
>
    decreases n,
{
    if n <= 0 {
        Seq::empty()
    } else {
        let front = owned_samples(events, n - 1, join);
        match fate_of(events[n - 1], join) {
            SampleFate::Owned(sample) => front.push(sample),
            _ => front,
        }
    }
}

/// How many samples came to what end.
#[derive(Clone, Copy, Debug, PartialEq, Eq, Structural)]
pub struct FateCounts {
    pub orphan: u64,
    pub geometry: u64,
    pub pc: u64,
    pub padding: u64,
    pub ownership: u64,
}

pub open spec fn fate_counts(events: Seq<SampleEvent>, n: int, join: SampleJoin) -> FateCounts {
    FateCounts {
        orphan: fates(events, n, join, SampleFate::Orphan) as u64,
        geometry: fates(events, n, join, SampleFate::Geometry) as u64,
        pc: fates(events, n, join, SampleFate::Counter) as u64,
        padding: fates(events, n, join, SampleFate::Padding) as u64,
        ownership: fates(events, n, join, SampleFate::Ownership) as u64,
    }
}

proof fn fates_are_bounded(events: Seq<SampleEvent>, n: int, join: SampleJoin, fate: SampleFate)
    requires
        0 <= n,
    ensures
        fates(events, n, join, fate) <= n,
    decreases n,
{
    if n > 0 {
        fates_are_bounded(events, n - 1, join, fate);
    }
}

proof fn all_fates_are_bounded(events: Seq<SampleEvent>, n: int, join: SampleJoin)
    requires
        0 <= n,
    ensures
        fates(events, n, join, SampleFate::Orphan) <= n,
        fates(events, n, join, SampleFate::Geometry) <= n,
        fates(events, n, join, SampleFate::Counter) <= n,
        fates(events, n, join, SampleFate::Padding) <= n,
        fates(events, n, join, SampleFate::Ownership) <= n,
{
    fates_are_bounded(events, n, join, SampleFate::Orphan);
    fates_are_bounded(events, n, join, SampleFate::Geometry);
    fates_are_bounded(events, n, join, SampleFate::Counter);
    fates_are_bounded(events, n, join, SampleFate::Padding);
    fates_are_bounded(events, n, join, SampleFate::Ownership);
}

proof fn overflow_stays(events: Seq<SampleEvent>, n: int, m: int, join: SampleJoin)
    requires
        0 <= n <= m,
        fates(events, n, join, SampleFate::Overflow) > 0,
    ensures
        fates(events, m, join, SampleFate::Overflow) > 0,
    decreases m - n,
{
    if n < m {
        overflow_stays(events, n, m - 1, join);
    }
}

// Rows.

/// The samples of one request in one step.
#[derive(Clone, Copy, Debug, PartialEq, Eq, Structural)]
pub struct RequestRow {
    pub step_id: u64,
    pub request_id: u64,
    pub phase: u8,
    pub samples: u64,
    pub sampled_bytes: u64,
    pub global_reads: u64,
    pub global_writes: u64,
    pub shared_reads: u64,
    pub shared_writes: u64,
    pub local_reads: u64,
    pub local_writes: u64,
    pub barriers: u64,
    pub first_device_timestamp: u64,
    pub last_device_timestamp: u64,
}

impl Keyed for OwnedSample {
    open spec fn before(self, other: Self) -> bool {
        self.step_id < other.step_id || self.step_id == other.step_id && (self.request_id
            < other.request_id || self.request_id == other.request_id && self.phase <= other.phase)
    }

    proof fn before_is_total(a: Self, b: Self) {
    }

    proof fn before_is_transitive(a: Self, b: Self, c: Self) {
    }

    fn comes_before(&self, other: &Self) -> (r: bool) {
        self.step_id < other.step_id || self.step_id == other.step_id && (self.request_id
            < other.request_id || self.request_id == other.request_id && self.phase <= other.phase)
    }
}

pub open spec fn one_of(kind: u16, wanted: u16) -> int {
    if kind == wanted {
        1
    } else {
        0
    }
}

/// A row without samples.
pub open spec fn empty_row(sample: OwnedSample) -> RequestRow {
    RequestRow {
        step_id: sample.step_id,
        request_id: sample.request_id,
        phase: sample.phase,
        samples: 0,
        sampled_bytes: 0,
        global_reads: 0,
        global_writes: 0,
        shared_reads: 0,
        shared_writes: 0,
        local_reads: 0,
        local_writes: 0,
        barriers: 0,
        first_device_timestamp: 0,
        last_device_timestamp: 0,
    }
}

/// A row with one more sample. A row whose first time is zero takes that of the
/// sample.
pub open spec fn with_sample(row: RequestRow, sample: OwnedSample) -> RequestRow {
    RequestRow {
        samples: (row.samples + 1) as u64,
        sampled_bytes: (row.sampled_bytes + sample.access_size) as u64,
        global_reads: (row.global_reads + one_of(sample.kind, 2)) as u64,
        global_writes: (row.global_writes + one_of(sample.kind, 3)) as u64,
        shared_reads: (row.shared_reads + one_of(sample.kind, 4)) as u64,
        shared_writes: (row.shared_writes + one_of(sample.kind, 5)) as u64,
        local_reads: (row.local_reads + one_of(sample.kind, 6)) as u64,
        local_writes: (row.local_writes + one_of(sample.kind, 7)) as u64,
        barriers: (row.barriers + one_of(sample.kind, 8)) as u64,
        first_device_timestamp: if row.first_device_timestamp == 0
            || row.first_device_timestamp > sample.timestamp {
            sample.timestamp
        } else {
            row.first_device_timestamp
        },
        last_device_timestamp: if row.last_device_timestamp < sample.timestamp {
            sample.timestamp
        } else {
            row.last_device_timestamp
        },
        ..row
    }
}

/// Whether the sample belongs to the row.
pub open spec fn of_row(row: RequestRow, sample: OwnedSample) -> bool {
    row.step_id == sample.step_id && row.request_id == sample.request_id && row.phase
        == sample.phase
}

/// The rows of samples that stand in the order of their rows.
pub open spec fn request_rows(sorted: Seq<OwnedSample>) -> Seq<RequestRow>
    decreases sorted.len(),
{
    if sorted.len() == 0 {
        Seq::empty()
    } else {
        let front = request_rows(sorted.drop_last());
        let sample = sorted.last();
        if front.len() > 0 && of_row(front.last(), sample) {
            front.drop_last().push(with_sample(front.last(), sample))
        } else {
            front.push(with_sample(empty_row(sample), sample))
        }
    }
}

/// Whether no count of the row is beyond the number of samples.
spec fn row_fits(row: RequestRow, n: int) -> bool {
    &&& row.samples <= n
    &&& row.sampled_bytes <= 65535 * n
    &&& row.global_reads <= n
    &&& row.global_writes <= n
    &&& row.shared_reads <= n
    &&& row.shared_writes <= n
    &&& row.local_reads <= n
    &&& row.local_writes <= n
    &&& row.barriers <= n
}

fn add_sample(row: &RequestRow, sample: &OwnedSample, Ghost(n): Ghost<int>) -> (r: RequestRow)
    requires
        0 <= n < MAX_SAMPLES,
        row_fits(*row, n),
    ensures
        r == with_sample(*row, *sample),
        row_fits(r, n + 1),
{
    let mut out = *row;
    out.samples = out.samples + 1;
    out.sampled_bytes = out.sampled_bytes + sample.access_size as u64;
    if sample.kind == 2 {
        out.global_reads = out.global_reads + 1;
    }
    if sample.kind == 3 {
        out.global_writes = out.global_writes + 1;
    }
    if sample.kind == 4 {
        out.shared_reads = out.shared_reads + 1;
    }
    if sample.kind == 5 {
        out.shared_writes = out.shared_writes + 1;
    }
    if sample.kind == 6 {
        out.local_reads = out.local_reads + 1;
    }
    if sample.kind == 7 {
        out.local_writes = out.local_writes + 1;
    }
    if sample.kind == 8 {
        out.barriers = out.barriers + 1;
    }
    if out.first_device_timestamp == 0 || out.first_device_timestamp > sample.timestamp {
        out.first_device_timestamp = sample.timestamp;
    }
    if out.last_device_timestamp < sample.timestamp {
        out.last_device_timestamp = sample.timestamp;
    }
    out
}

fn build_request_rows(sorted: &Vec<OwnedSample>) -> (r: Vec<RequestRow>)
    requires
        sorted@.len() <= MAX_SAMPLES,
    ensures
        r@ == request_rows(sorted@),
{
    let mut rows: Vec<RequestRow> = Vec::new();
    let mut n: usize = 0;
    assert(sorted@.take(0) =~= Seq::<OwnedSample>::empty());
    while n < sorted.len()
        invariant
            n <= sorted.len(),
            sorted@.len() <= MAX_SAMPLES,
            rows@ == request_rows(sorted@.take(n as int)),
            rows@.len() > 0 ==> row_fits(rows@.last(), n as int),
        decreases sorted.len() - n,
    {
        let sample = sorted[n];
        let ghost before = rows@;
        proof {
            assert(sorted@.take(n + 1).drop_last() =~= sorted@.take(n as int));
            assert(sorted@.take(n + 1).last() == sample);
        }
        let count: usize = rows.len();
        if count > 0 && rows[count - 1].step_id == sample.step_id && rows[count - 1].request_id
            == sample.request_id && rows[count - 1].phase == sample.phase {
            let row = add_sample(&rows[count - 1], &sample, Ghost(n as int));
            rows.set(count - 1, row);
            assert(rows@ =~= before.drop_last().push(row));
        } else {
            let empty = RequestRow {
                step_id: sample.step_id,
                request_id: sample.request_id,
                phase: sample.phase,
                samples: 0,
                sampled_bytes: 0,
                global_reads: 0,
                global_writes: 0,
                shared_reads: 0,
                shared_writes: 0,
                local_reads: 0,
                local_writes: 0,
                barriers: 0,
                first_device_timestamp: 0,
                last_device_timestamp: 0,
            };
            let row = add_sample(&empty, &sample, Ghost(n as int));
            rows.push(row);
        }
        n += 1;
    }
    assert(sorted@.take(sorted@.len() as int) =~= sorted@);
    rows
}

/// The samples of one kind at one offset.
#[derive(Clone, Copy, Debug, PartialEq, Eq, Structural)]
pub struct PcRow {
    pub offset: u64,
    pub kind: u16,
    pub samples: u64,
}

impl Keyed for PcRow {
    open spec fn before(self, other: Self) -> bool {
        self.offset < other.offset || self.offset == other.offset && self.kind <= other.kind
    }

    proof fn before_is_total(a: Self, b: Self) {
    }

    proof fn before_is_transitive(a: Self, b: Self, c: Self) {
    }

    fn comes_before(&self, other: &Self) -> (r: bool) {
        self.offset < other.offset || self.offset == other.offset && self.kind <= other.kind
    }
}

/// Each sample as a row of its own.
pub open spec fn pc_singles(samples: Seq<OwnedSample>) -> Seq<PcRow> {
    samples.map_values(
        |sample: OwnedSample| PcRow { offset: sample.offset, kind: sample.kind, samples: 1 },
    )
}

/// The rows of single samples that stand in the order of their rows.
pub open spec fn pc_rows(sorted: Seq<PcRow>) -> Seq<PcRow>
    decreases sorted.len(),
{
    if sorted.len() == 0 {
        Seq::empty()
    } else {
        let front = pc_rows(sorted.drop_last());
        let single = sorted.last();
        if front.len() > 0 && front.last().offset == single.offset && front.last().kind
            == single.kind {
            front.drop_last().push(
                PcRow { samples: (front.last().samples + 1) as u64, ..front.last() },
            )
        } else {
            front.push(PcRow { samples: 1, ..single })
        }
    }
}

fn build_pc_rows(samples: &Vec<OwnedSample>) -> (r: Vec<PcRow>)
    requires
        samples@.len() <= MAX_SAMPLES,
    ensures
        r@ == pc_rows(arranged(pc_singles(samples@))),
{
    let ghost all = pc_singles(samples@);
    let mut singles: Vec<PcRow> = Vec::new();
    let mut i: usize = 0;
    while i < samples.len()
        invariant
            i <= samples.len(),
            all == pc_singles(samples@),
            singles@ == all.take(i as int),
        decreases samples.len() - i,
    {
        singles.push(PcRow { offset: samples[i].offset, kind: samples[i].kind, samples: 1 });
        assert(singles@ =~= all.take(i + 1));
        i += 1;
    }
    assert(singles@ =~= all);
    let sorted = arrange(singles);
    proof {
        all.to_multiset_ensures();
        sorted@.to_multiset_ensures();
    }
    let mut rows: Vec<PcRow> = Vec::new();
    let mut n: usize = 0;
    assert(sorted@.take(0) =~= Seq::<PcRow>::empty());
    while n < sorted.len()
        invariant
            n <= sorted.len(),
            sorted@.len() <= MAX_SAMPLES,
            rows@ == pc_rows(sorted@.take(n as int)),
            rows@.len() > 0 ==> rows@.last().samples <= n,
        decreases sorted.len() - n,
    {
        let single = sorted[n];
        let ghost before = rows@;
        proof {
            assert(sorted@.take(n + 1).drop_last() =~= sorted@.take(n as int));
            assert(sorted@.take(n + 1).last() == single);
        }
        let count: usize = rows.len();
        if count > 0 && rows[count - 1].offset == single.offset && rows[count - 1].kind
            == single.kind {
            let last = rows[count - 1];
            let row = PcRow { offset: last.offset, kind: last.kind, samples: last.samples + 1 };
            rows.set(count - 1, row);
            assert(rows@ =~= before.drop_last().push(row));
        } else {
            rows.push(PcRow { offset: single.offset, kind: single.kind, samples: 1 });
        }
        n += 1;
    }
    assert(sorted@.take(sorted@.len() as int) =~= sorted@);
    rows
}

// Launches that were sampled.

/// Whether one of the first samples is of the launch.
pub open spec fn launch_sampled(events: Seq<SampleEvent>, n: int, launch_id: u64) -> bool {
    exists|i: int| 0 <= i < n && (#[trigger] events[i]).launch_id == launch_id
}

/// How many of the first launches were sampled.
pub open spec fn sampled_launches(launches: Seq<SampledLaunch>, n: int, events: Seq<SampleEvent>) -> nat
    decreases n,
{
    if n <= 0 {
        0
    } else {
        sampled_launches(launches, n - 1, events) + if launch_sampled(
            events,
            events.len() as int,
            launches[n - 1].launch_id,
        ) {
            1nat
        } else {
            0
        }
    }
}

fn count_sampled_launches(launches: &[SampledLaunch], events: &[SampleEvent]) -> (r: usize)
    ensures
        r == sampled_launches(launches@, launches@.len() as int, events@),
{
    let mut index = IdIndex::new();
    let mut i: usize = 0;
    while i < events.len()
        invariant
            i <= events.len(),
            forall|id: u64| #[trigger]
                index.positions().dom().contains(id) <==> launch_sampled(events@, i as int, id),
        decreases events.len() - i,
    {
        let ghost before = index.positions();
        let id: u64 = events[i].launch_id;
        index.insert(id, 0);
        assert forall|other: u64| #[trigger]
            index.positions().dom().contains(other) <==> launch_sampled(
                events@,
                i + 1,
                other,
            ) by {
            if other == id {
                assert(events@[i as int].launch_id == other);
            } else {
                if before.dom().contains(other) {
                    let k = choose|k: int| 0 <= k < i && (#[trigger] events@[k]).launch_id == other;
                    assert(events@[k].launch_id == other);
                }
                if launch_sampled(events@, i + 1, other) {
                    let k = choose|k: int|
                        0 <= k < i + 1 && (#[trigger] events@[k]).launch_id == other;
                    assert(events@[k].launch_id == other);
                    assert(k < i);
                    assert(launch_sampled(events@, i as int, other));
                    assert(before.dom().contains(other));
                }
            }
        }
        i += 1;
    }
    let mut count: usize = 0;
    let mut n: usize = 0;
    while n < launches.len()
        invariant
            n <= launches.len(),
            forall|id: u64| #[trigger]
                index.positions().dom().contains(id) <==> launch_sampled(
                    events@,
                    events@.len() as int,
                    id,
                ),
            count == sampled_launches(launches@, n as int, events@),
            count <= n,
        decreases launches.len() - n,
    {
        let id: u64 = launches[n].launch_id;
        let known: bool = index.get(id).is_some();
        assert(known == index.positions().dom().contains(id));
        if known {
            count += 1;
        }
        n += 1;
    }
    count
}

// The join.

/// What a sample join reads.
pub struct SampleInput<'a> {
    pub trace: &'a SemanticTrace,
    pub function: Function,
    pub instructions: &'a Vec<Instruction>,
    pub launches: &'a [SampledLaunch],
    pub events: &'a [SampleEvent],
    pub quality: EventQuality,
}

/// What a sample join found.
pub struct SampleReport {
    pub requests: Vec<RequestRow>,
    pub pcs: Vec<PcRow>,
    pub sampled_launches: usize,
    pub attributed: usize,
    pub counts: FateCounts,
}

pub open spec fn sample_join_of(input: SampleInput) -> SampleJoin {
    SampleJoin {
        trace: *input.trace,
        launches: joined_launches(input.launches@, input.trace.steps@)->Ok_0,
        function: input.function,
        instructions: input.instructions@,
    }
}

pub open spec fn fate_complaint(c: FateCounts) -> Seq<char> {
    "instruction join failed: orphan="@ + decimal(c.orphan as nat) + " pc="@ + decimal(c.pc as nat)
        + " geometry="@ + decimal(c.geometry as nat) + " ownership="@ + decimal(c.ownership as nat)
}

/// Why the join fails, if it does.
pub open spec fn sample_failure(input: SampleInput) -> Option<Seq<char>> {
    let trace = *input.trace;
    let n = input.events@.len() as int;
    if !trace.complete() {
        Some("semantic trace lacks lossless authoritative packed layouts"@)
    } else {
        match interval_problem(trace.steps@) {
            Some(problem) => Some(problem),
            None => match joined_launches(input.launches@, trace.steps@) {
                Err(error) => Some(error),
                Ok(_) => {
                    let join = sample_join_of(input);
                    let counts = fate_counts(input.events@, n, join);
                    let owned = owned_samples(input.events@, n, join);
                    if n == 0 || input.quality.drops != 0 || input.quality.sequence_errors != 0 {
                        Some("sampled device trace is empty or lossy"@)
                    } else if input.function.dropped != 0 || input.function.emitted
                        != input.quality.retained || input.quality.retained != n
                        || input.quality.write_attempts != input.quality.retained {
                        Some("function counters and retained zero-drop event file disagree"@)
                    } else if fates(input.events@, n, join, SampleFate::Overflow) > 0 {
                        Some("PC range overflow"@)
                    } else if counts.orphan != 0 || counts.pc != 0 || counts.geometry != 0
                        || counts.ownership != 0 {
                        Some(fate_complaint(counts))
                    } else if owned.len() == 0 {
                        Some("sample accounting does not close"@)
                    } else {
                        None
                    }
                },
            },
        }
    }
}

pub open spec fn sample_report_is(report: SampleReport, input: SampleInput) -> bool {
    let n = input.events@.len() as int;
    let join = sample_join_of(input);
    let owned = owned_samples(input.events@, n, join);
    &&& report.requests@ == request_rows(arranged(owned))
    &&& report.pcs@ == pc_rows(arranged(pc_singles(owned)))
    &&& report.sampled_launches == sampled_launches(
        input.launches@,
        input.launches@.len() as int,
        input.events@,
    )
    &&& report.attributed == owned.len()
    &&& report.counts == fate_counts(input.events@, n, join)
}

fn classify(
    input: &SampleInput,
    launches: &IdTable<StepLaunch>,
    Ghost(join): Ghost<SampleJoin>,
) -> (r: Option<(FateCounts, Vec<OwnedSample>)>)
    requires
        input.trace.wf(),
        launches.wf(),
        forall|k: int|
            0 <= k < launches.rows().len() ==> (#[trigger] launches.rows()[k]).step_index
                < input.trace.steps@.len(),
        increasing(input.instructions@),
        join == (SampleJoin {
            trace: *input.trace,
            launches: launches.rows(),
            function: input.function,
            instructions: input.instructions@,
        }),
        input.events@.len() <= MAX_SAMPLES,
    ensures
        r is None <==> fates(
            input.events@,
            input.events@.len() as int,
            join,
            SampleFate::Overflow,
        ) > 0,
        r matches Some((counts, owned)) ==> counts == fate_counts(
            input.events@,
            input.events@.len() as int,
            join,
        ) && owned@ == owned_samples(input.events@, input.events@.len() as int, join)
            && owned@.len() <= input.events@.len(),
{
    let mut counts = FateCounts { orphan: 0, geometry: 0, pc: 0, padding: 0, ownership: 0 };
    let mut owned: Vec<OwnedSample> = Vec::new();
    let mut n: usize = 0;
    while n < input.events.len()
        invariant
            n <= input.events.len(),
            input.events@.len() <= MAX_SAMPLES,
            input.trace.wf(),
            launches.wf(),
            forall|k: int|
                0 <= k < launches.rows().len() ==> (#[trigger] launches.rows()[k]).step_index
                    < input.trace.steps@.len(),
            increasing(input.instructions@),
            join == (SampleJoin {
                trace: *input.trace,
                launches: launches.rows(),
                function: input.function,
                instructions: input.instructions@,
            }),
            fates(input.events@, n as int, join, SampleFate::Overflow) == 0,
            counts == fate_counts(input.events@, n as int, join),
            owned@ == owned_samples(input.events@, n as int, join),
            owned@.len() <= n,
        decreases input.events.len() - n,
    {
        proof {
            all_fates_are_bounded(input.events@, n as int, join);
            all_fates_are_bounded(input.events@, n + 1, join);
        }
        match find_fate(
            &input.events[n],
            input.trace,
            launches,
            &input.function,
            input.instructions,
            Ghost(join),
        ) {
            SampleFate::Orphan => {
                counts.orphan = counts.orphan + 1;
            },
            SampleFate::Geometry => {
                counts.geometry = counts.geometry + 1;
            },
            SampleFate::Counter => {
                counts.pc = counts.pc + 1;
            },
            SampleFate::Overflow => {
                proof {
                    overflow_stays(input.events@, n + 1, input.events@.len() as int, join);
                }
                return None;
            },
            SampleFate::Padding => {
                counts.padding = counts.padding + 1;
            },
            SampleFate::Ownership => {
                counts.ownership = counts.ownership + 1;
            },
            SampleFate::Owned(sample) => {
                owned.push(sample);
            },
        }
        n += 1;
    }
    Some((counts, owned))
}

/// Joins samples with the steps of a trace.
pub fn join_samples(input: &SampleInput) -> (r: Result<SampleReport, String>)
    requires
        input.trace.wf(),
        increasing(input.instructions@),
        input.events@.len() <= MAX_SAMPLES,
    ensures
        match (r, sample_failure(*input)) {
            (Ok(report), None) => sample_report_is(report, *input),
            (Err(error), Some(failure)) => error@ == failure,
            _ => false,
        },
{
    let trace = input.trace;
    if !trace.is_complete() {
        return Err("semantic trace lacks lossless authoritative packed layouts".to_owned());
    }
    if let Err(error) = validate_step_timeline(trace.steps.as_slice()) {
        return Err(error.to_owned());
    }
    let launches = match join_launches(input.launches, trace.steps.as_slice()) {
        Ok(launches) => launches,
        Err(error) => {
            return Err(error.to_owned());
        },
    };
    if input.events.len() == 0 || input.quality.drops != 0 || input.quality.sequence_errors != 0 {
        return Err("sampled device trace is empty or lossy".to_owned());
    }
    if input.function.dropped != 0 || input.function.emitted != input.quality.retained
        || input.quality.retained != input.events.len() as u64 || input.quality.write_attempts
        != input.quality.retained {
        return Err("function counters and retained zero-drop event file disagree".to_owned());
    }
    let ghost join = sample_join_of(*input);
    let (counts, owned) = match classify(input, &launches, Ghost(join)) {
        Some(found) => found,
        None => {
            return Err("PC range overflow".to_owned());
        },
    };
    if counts.orphan != 0 || counts.pc != 0 || counts.geometry != 0 || counts.ownership != 0 {
        let mut text = "instruction join failed: orphan=".to_owned();
        append_decimal(&mut text, counts.orphan);
        text.append(" pc=");
        append_decimal(&mut text, counts.pc);
        text.append(" geometry=");
        append_decimal(&mut text, counts.geometry);
        text.append(" ownership=");
        append_decimal(&mut text, counts.ownership);
        return Err(text);
    }
    if owned.len() == 0 {
        return Err("sample accounting does not close".to_owned());
    }
    let sorted = arranged_copy(owned.as_slice());
    proof {
        owned@.to_multiset_ensures();
        sorted@.to_multiset_ensures();
    }
    let requests = build_request_rows(&sorted);
    let pcs = build_pc_rows(&owned);
    let sampled: usize = count_sampled_launches(input.launches, input.events);
    Ok(
        SampleReport {
            requests,
            pcs,
            sampled_launches: sampled,
            attributed: owned.len(),
            counts,
        },
    )
}

// Laws.

/// Every sample comes to one end.
pub proof fn samples_are_accounted_for(events: Seq<SampleEvent>, n: int, join: SampleJoin)
    requires
        0 <= n <= events.len(),
    ensures
        fates(events, n, join, SampleFate::Orphan) + fates(events, n, join, SampleFate::Geometry)
            + fates(events, n, join, SampleFate::Counter) + fates(
            events,
            n,
            join,
            SampleFate::Overflow,
        ) + fates(events, n, join, SampleFate::Padding) + fates(
            events,
            n,
            join,
            SampleFate::Ownership,
        ) + owned_samples(events, n, join).len() == n,
    decreases n,
{
    if n > 0 {
        samples_are_accounted_for(events, n - 1, join);
    }
}

} // verus!
