//! The host join: kernel launches that a probe saw on the host, counted for the
//! steps of the engine.

use crate::digits::{append_decimal, decimal};
use crate::launch::{CudaLaunchEvent, DecodeError, LaunchFlags, CUDA_LAUNCH_EVENT_BYTES};
use crate::oracle::{
    is_engine_record, is_of_engine, slice_tokens, some_open, step_model, step_models, tokens_of, Reading, Step,
    StepModel,
};
use crate::semantic::{
    marks_loss, record_at, records_in, RecordError, SemanticRecordFlags, SemanticRecordKind,
    SemanticWireRecord, SEMANTIC_RECORD_BYTES,
};
use vstd::prelude::*;
use vstd::slice::slice_subrange;
use vstd::string::*;

verus! {

pub const MAX_SEMANTIC_BYTES: usize = 67_108_864;

pub const MAX_CUDA_BYTES: usize = 536_870_912;

// Sizes.

/// What is wrong with the size of a file of records, if anything.
pub open spec fn fixed_problem(size: nat, record: nat, max: nat, label: Seq<char>) -> Option<
    Seq<char>,
> {
    if size > max {
        Some(label + " trace exceeds bounded input budget"@)
    } else if size == 0 || size % record != 0 {
        Some(label + " trace has an invalid byte length: "@ + decimal(size))
    } else {
        None
    }
}

fn check_fixed(size: usize, record: usize, max: usize, label: &str) -> (r: Result<(), String>)
    requires
        record > 0,
    ensures
        match (r, fixed_problem(size as nat, record as nat, max as nat, label@)) {
            (Ok(_), None) => true,
            (Err(error), Some(problem)) => error@ == problem,
            _ => false,
        },
{
    if size > max {
        let mut text = String::new();
        text.append(label);
        text.append(" trace exceeds bounded input budget");
        assert(text@ =~= label@ + " trace exceeds bounded input budget"@);
        return Err(text);
    }
    if size == 0 || size % record != 0 {
        let mut text = String::new();
        text.append(label);
        text.append(" trace has an invalid byte length: ");
        append_decimal(&mut text, size as u64);
        assert(text@ =~= label@ + " trace has an invalid byte length: "@ + decimal(size as nat));
        return Err(text);
    }
    Ok(())
}

// Steps.

/// The steps after one more record, or why it does not fit.
pub open spec fn host_steps_after(steps: Seq<StepModel>, r: SemanticWireRecord) -> Result<
    Seq<StepModel>,
    Seq<char>,
> {
    let last = steps.last();
    match r.kind {
        SemanticRecordKind::EngineStepBegin => if steps.len() > 0 && last.end_timestamp_ns == 0 {
            Err("overlapping or unterminated semantic step"@)
        } else {
            Ok(steps.push(StepModel { begin: r, end_timestamp_ns: 0, slices: Seq::empty() }))
        },
        SemanticRecordKind::StepRequestSlice => if steps.len() == 0 {
            Err("slice before step begin"@)
        } else if last.begin.step_id != r.step_id || last.end_timestamp_ns != 0 {
            Err("slice is outside its dense step range"@)
        } else {
            Ok(steps.drop_last().push(StepModel { slices: last.slices.push(r), ..last }))
        },
        SemanticRecordKind::EngineStepEnd => if steps.len() == 0 {
            Err("step end before begin"@)
        } else if last.begin.step_id != r.step_id || last.end_timestamp_ns != 0 {
            Err("mismatched or duplicate step end"@)
        } else if last.slices.len() != last.begin.expected_slices {
            Err("request-slice count does not match step header"@)
        } else if slice_tokens(last.slices) != last.begin.scheduled_tokens {
            Err("request-slice token sum does not match step header"@)
        } else if r.status != 0 || r.timestamp_ns < last.begin.timestamp_ns {
            Err("failed step or negative semantic interval"@)
        } else {
            Ok(steps.drop_last().push(StepModel { end_timestamp_ns: r.timestamp_ns, ..last }))
        },
        _ => Ok(steps),
    }
}

fn add_host_record(steps: &mut Vec<Step>, r: SemanticWireRecord) -> (outcome: Result<
    (),
    &'static str,
>)
    ensures
        match (outcome, host_steps_after(step_models(old(steps)@), r)) {
            (Ok(_), Ok(expected)) => step_models(final(steps)@) == expected,
            (Err(error), Err(expected)) => error@ == expected,
            _ => false,
        },
{
    let ghost before = step_models(steps@);
    match r.kind {
        SemanticRecordKind::EngineStepBegin => {
            if steps.len() > 0 && steps[steps.len() - 1].end_timestamp_ns == 0 {
                return Err("overlapping or unterminated semantic step");
            }
            let step = Step { begin: r, end_timestamp_ns: 0, slices: Vec::new() };
            let ghost model = step_model(step);
            steps.push(step);
            proof {
                assert(model =~= (StepModel { begin: r, end_timestamp_ns: 0, slices: Seq::empty() }));
                assert(step_models(steps@) =~= before.push(model));
            }
            Ok(())
        },
        SemanticRecordKind::StepRequestSlice => {
            let mut step = match steps.pop() {
                Some(step) => step,
                None => {
                    return Err("slice before step begin");
                },
            };
            proof {
                assert(step_models(steps@) =~= before.drop_last());
                assert(before.last() == step_model(step));
            }
            if step.begin.step_id != r.step_id || step.end_timestamp_ns != 0 {
                return Err("slice is outside its dense step range");
            }
            step.slices.push(r);
            let ghost model = step_model(step);
            steps.push(step);
            assert(step_models(steps@) =~= before.drop_last().push(model));
            Ok(())
        },
        SemanticRecordKind::EngineStepEnd => {
            let mut step = match steps.pop() {
                Some(step) => step,
                None => {
                    return Err("step end before begin");
                },
            };
            proof {
                assert(step_models(steps@) =~= before.drop_last());
                assert(before.last() == step_model(step));
            }
            if step.begin.step_id != r.step_id || step.end_timestamp_ns != 0 {
                return Err("mismatched or duplicate step end");
            }
            if step.slices.len() != step.begin.expected_slices as usize {
                return Err("request-slice count does not match step header");
            }
            if tokens_of(&step.slices) != step.begin.scheduled_tokens {
                return Err("request-slice token sum does not match step header");
            }
            if r.status != 0 || r.timestamp_ns < step.begin.timestamp_ns {
                return Err("failed step or negative semantic interval");
            }
            step.end_timestamp_ns = r.timestamp_ns;
            let ghost model = step_model(step);
            steps.push(step);
            assert(step_models(steps@) =~= before.drop_last().push(model));
            Ok(())
        },
        _ => Ok(()),
    }
}

/// What has been read after one more record.
pub open spec fn after_host_record(
    reading: Reading,
    index: int,
    record: Result<SemanticWireRecord, RecordError>,
) -> Result<Reading, Seq<char>> {
    match record {
        Err(error) => Err(
            "invalid semantic record "@ + decimal(index as nat) + ": "@ + error.words(),
        ),
        Ok(r) => if reading.previous matches Some(previous) && r.sequence != previous + 1 {
            Err(
                "semantic sequence gap: previous="@ + decimal(reading.previous->0 as nat)
                    + " current="@ + decimal(r.sequence as nat),
            )
        } else {
            match host_steps_after(reading.steps, r) {
                Err(error) => Err(error),
                Ok(steps) => Ok(
                    Reading {
                        steps,
                        previous: Some(r.sequence),
                        loss_markers: reading.loss_markers + if marks_loss(r) {
                            1nat
                        } else {
                            0
                        },
                    },
                ),
            }
        },
    }
}

/// What has been read after the first records.
pub open spec fn host_reading(records: Seq<Result<SemanticWireRecord, RecordError>>, n: int) -> Result<
    Reading,
    Seq<char>,
>
    decreases n,
{
    if n <= 0 {
        Ok(Reading { steps: Seq::empty(), previous: None, loss_markers: 0 })
    } else {
        match host_reading(records, n - 1) {
            Err(error) => Err(error),
            Ok(reading) => after_host_record(reading, n - 1, records[n - 1]),
        }
    }
}

proof fn reading_failure_stays(
    records: Seq<Result<SemanticWireRecord, RecordError>>,
    n: int,
    m: int,
)
    requires
        0 <= n <= m,
        host_reading(records, n) is Err,
    ensures
        host_reading(records, m) == host_reading(records, n),
    decreases m - n,
{
    if n < m {
        reading_failure_stays(records, n, m - 1);
    }
}

/// The steps in a trace of the engine.
pub open spec fn host_steps_of(s: Seq<u8>) -> Result<Reading, Seq<char>> {
    match fixed_problem(
        s.len(),
        SEMANTIC_RECORD_BYTES as nat,
        MAX_SEMANTIC_BYTES as nat,
        "semantic"@,
    ) {
        Some(problem) => Err(problem),
        None => match host_reading(records_in(s), records_in(s).len() as int) {
            Err(error) => Err(error),
            Ok(reading) => if some_open(reading.steps) {
                Err("semantic trace ends with an unterminated step"@)
            } else {
                Ok(reading)
            },
        },
    }
}

fn any_open(steps: &Vec<Step>) -> (r: bool)
    ensures
        r == some_open(step_models(steps@)),
{
    let mut i: usize = 0;
    while i < steps.len()
        invariant
            i <= steps.len(),
            forall|k: int|
                0 <= k < i ==> (#[trigger] step_models(steps@)[k]).end_timestamp_ns != 0,
        decreases steps.len() - i,
    {
        assert(step_models(steps@)[i as int] == step_model(steps@[i as int]));
        if steps[i].end_timestamp_ns == 0 {
            return true;
        }
        i += 1;
    }
    false
}

/// Whether the record at the place is one of a request's lifecycle, with nothing
/// wrong up to it.
pub open spec fn host_lifecycle_at(
    records: Seq<Result<SemanticWireRecord, RecordError>>,
    i: int,
) -> bool {
    records[i] matches Ok(record) && !is_engine_record(record) && host_reading(
        records,
        i + 1,
    ) is Ok
}

/// Whether a trace comes to a lifecycle record before anything is wrong with it.
pub open spec fn host_comes_to_lifecycle(s: Seq<u8>) -> bool {
    fixed_problem(
        s.len(),
        SEMANTIC_RECORD_BYTES as nat,
        MAX_SEMANTIC_BYTES as nat,
        "semantic"@,
    ) is None && exists|i: int|
        0 <= i < records_in(s).len() && #[trigger] host_lifecycle_at(records_in(s), i)
}

/// Adds a record to the steps of a trace whose records so far were read.
fn take_host_record(
    steps: &mut Vec<Step>,
    previous: Option<u64>,
    index: usize,
    record: Result<SemanticWireRecord, RecordError>,
) -> (r: Result<SemanticWireRecord, String>)
    ensures
        forall|losses: nat|
            match (
                r,
                #[trigger] after_host_record(
                    Reading {
                        steps: step_models(old(steps)@),
                        previous,
                        loss_markers: losses,
                    },
                    index as int,
                    record,
                ),
            ) {
                (Ok(taken), Ok(expected)) => record == Ok::<SemanticWireRecord, RecordError>(taken)
                    && expected == (Reading {
                    steps: step_models(final(steps)@),
                    previous: Some(taken.sequence),
                    loss_markers: losses + if marks_loss(taken) {
                        1nat
                    } else {
                        0
                    },
                }),
                (Err(error), Err(expected)) => error@ == expected,
                _ => false,
            },
{
    let record = match record {
        Ok(record) => record,
        Err(error) => {
            let mut text = "invalid semantic record ".to_owned();
            append_decimal(&mut text, index as u64);
            text.append(": ");
            text.append(error.message());
            return Err(text);
        },
    };
    if let Some(last) = previous {
        if last == u64::MAX || record.sequence != last + 1 {
            let mut text = "semantic sequence gap: previous=".to_owned();
            append_decimal(&mut text, last);
            text.append(" current=");
            append_decimal(&mut text, record.sequence);
            return Err(text);
        }
    }
    match add_host_record(steps, record) {
        Err(error) => Err(error.to_owned()),
        Ok(_) => Ok(record),
    }
}

/// Whether a trace comes to a lifecycle record before anything is wrong with it.
pub fn host_meets_lifecycle(bytes: &[u8]) -> (r: bool)
    ensures
        r == host_comes_to_lifecycle(bytes@),
{
    if check_fixed(bytes.len(), SEMANTIC_RECORD_BYTES, MAX_SEMANTIC_BYTES, "semantic").is_err() {
        return false;
    }
    let ghost records = records_in(bytes@);
    let count: usize = bytes.len() / SEMANTIC_RECORD_BYTES;
    let mut steps: Vec<Step> = Vec::new();
    let mut previous: Option<u64> = None;
    let ghost mut losses: nat = 0;
    let mut i: usize = 0;
    assert(step_models(steps@) =~= Seq::<StepModel>::empty());
    while i < count
        invariant
            i <= count,
            records == records_in(bytes@),
            count == records.len(),
            host_reading(records, i as int) == Ok::<Reading, Seq<char>>(
                Reading { steps: step_models(steps@), previous, loss_markers: losses },
            ),
            forall|k: int| 0 <= k < i ==> !#[trigger] host_lifecycle_at(records, k),
            fixed_problem(
                bytes@.len(),
                SEMANTIC_RECORD_BYTES as nat,
                MAX_SEMANTIC_BYTES as nat,
                "semantic"@,
            ) is None,
        decreases count - i,
    {
        let ghost before = Reading {
            steps: step_models(steps@),
            previous,
            loss_markers: losses,
        };
        let ghost next = after_host_record(before, i as int, records[i as int]);
        match take_host_record(&mut steps, previous, i, record_at(bytes, i)) {
            Err(_) => {
                assert(next is Err);
                assert forall|k: int| 0 <= k < records.len() implies !#[trigger] host_lifecycle_at(
                    records,
                    k,
                ) by {
                    if k >= i {
                        reading_failure_stays(records, i + 1, k + 1);
                    }
                }
                return false;
            },
            Ok(record) => {
                assert(next is Ok);
                if !is_of_engine(&record) {
                    assert(host_lifecycle_at(records, i as int));
                    return true;
                }
                previous = Some(record.sequence);
                proof {
                    losses = next->Ok_0.loss_markers;
                }
            },
        }
        i += 1;
    }
    false
}

/// Reads the steps in a trace of the engine: the steps, how many records there
/// are, and how many tell of a loss.
pub fn load_host_steps(bytes: &[u8]) -> (r: Result<(Vec<Step>, usize, u64), String>)
    requires
        !host_comes_to_lifecycle(bytes@),
    ensures
        match (r, host_steps_of(bytes@)) {
            (Ok((steps, records, losses)), Ok(reading)) => {
                &&& step_models(steps@) == reading.steps
                &&& records == records_in(bytes@).len()
                &&& losses == reading.loss_markers
            },
            (Err(error), Err(expected)) => error@ == expected,
            _ => false,
        },
{
    check_fixed(bytes.len(), SEMANTIC_RECORD_BYTES, MAX_SEMANTIC_BYTES, "semantic")?;
    let ghost records = records_in(bytes@);
    let count: usize = bytes.len() / SEMANTIC_RECORD_BYTES;
    let mut steps: Vec<Step> = Vec::new();
    let mut previous: Option<u64> = None;
    let mut losses: u64 = 0;
    let mut i: usize = 0;
    assert(step_models(steps@) =~= Seq::<StepModel>::empty());
    while i < count
        invariant
            i <= count,
            records == records_in(bytes@),
            count == records.len(),
            losses <= i,
            host_reading(records, i as int) == Ok::<Reading, Seq<char>>(
                Reading {
                    steps: step_models(steps@),
                    previous,
                    loss_markers: losses as nat,
                },
            ),
            fixed_problem(
                bytes@.len(),
                SEMANTIC_RECORD_BYTES as nat,
                MAX_SEMANTIC_BYTES as nat,
                "semantic"@,
            ) is None,
        decreases count - i,
    {
        proof {
            if host_reading(records, i + 1) is Err {
                reading_failure_stays(records, i + 1, count as int);
            }
        }
        let ghost next = after_host_record(
            Reading { steps: step_models(steps@), previous, loss_markers: losses as nat },
            i as int,
            records[i as int],
        );
        let record = take_host_record(&mut steps, previous, i, record_at(bytes, i))?;
        assert(next is Ok);
        previous = Some(record.sequence);
        if record.flags & SemanticRecordFlags::DROPPED_BEFORE != 0 {
            losses = losses + 1;
        }
        i += 1;
    }
    if any_open(&steps) {
        return Err("semantic trace ends with an unterminated step".to_owned());
    }
    Ok((steps, count, losses))
}

// Launches.

/// The launches of one step.
#[derive(Clone, Copy, Debug, PartialEq, Eq, Structural)]
pub struct StepLaunches {
    pub launches: u64,
    pub regular: u64,
    pub extended: u64,
    pub first_ns: Option<u64>,
    pub last_ns: Option<u64>,
}

pub open spec fn no_launches() -> StepLaunches {
    StepLaunches { launches: 0, regular: 0, extended: 0, first_ns: None, last_ns: None }
}

/// The last number of a CPU.
#[derive(Clone, Copy, Debug, PartialEq, Eq, Structural)]
pub struct CpuSequence {
    pub cpu_id: u32,
    pub sequence: u64,
}

/// What the launches have come to.
#[verifier::ext_equal]
pub struct LaunchesModel {
    pub cursor: nat,
    pub steps: Seq<StepLaunches>,
    pub losses: nat,
    pub gaps: nat,
    pub pid_mismatches: nat,
    pub unassigned: nat,
    pub cpus: Seq<CpuSequence>,
    pub tids: Seq<u32>,
}

/// The first entry of the CPU.
pub open spec fn cpu_at(cpus: Seq<CpuSequence>, cpu_id: u32) -> Option<int>
    decreases cpus.len(),
{
    if cpus.len() == 0 {
        None
    } else {
        match cpu_at(cpus.drop_last(), cpu_id) {
            Some(i) => Some(i),
            None => if cpus.last().cpu_id == cpu_id {
                Some(cpus.len() - 1)
            } else {
                None
            },
        }
    }
}

/// The first step from the cursor on that had not ended.
pub open spec fn advanced_cursor(steps: Seq<StepModel>, cursor: nat, time: u64) -> nat
    decreases steps.len() - cursor,
{
    if cursor < steps.len() && time > steps[cursor as int].end_timestamp_ns {
        advanced_cursor(steps, cursor + 1, time)
    } else {
        cursor
    }
}

pub open spec fn one_when(condition: bool) -> nat {
    if condition {
        1
    } else {
        0
    }
}

/// The launches of a step with one more.
pub open spec fn with_launch(s: StepLaunches, launch: CudaLaunchEvent) -> StepLaunches {
    let extended = launch.flagged(LaunchFlags::EXTENDED_CONFIG);
    StepLaunches {
        launches: (s.launches + 1) as u64,
        regular: (s.regular + one_when(!extended)) as u64,
        extended: (s.extended + one_when(extended)) as u64,
        first_ns: match s.first_ns {
            Some(first) => Some(first),
            None => Some(launch.timestamp_ns),
        },
        last_ns: Some(launch.timestamp_ns),
    }
}

/// What the launches have come to after one more.
pub open spec fn after_launch(
    m: LaunchesModel,
    launch: CudaLaunchEvent,
    steps: Seq<StepModel>,
    expected_pid: u32,
) -> LaunchesModel {
    let place = cpu_at(m.cpus, launch.cpu_id);
    let gap = match place {
        Some(i) => launch.sequence != crate::bridge::advanced(m.cpus[i].sequence, 1),
        None => false,
    };
    let entry = CpuSequence { cpu_id: launch.cpu_id, sequence: launch.sequence };
    let cursor = advanced_cursor(steps, m.cursor, launch.timestamp_ns);
    let outside = cursor >= steps.len() || launch.timestamp_ns
        < steps[cursor as int].begin.timestamp_ns;
    LaunchesModel {
        cursor,
        steps: if outside {
            m.steps
        } else {
            m.steps.update(cursor as int, with_launch(m.steps[cursor as int], launch))
        },
        losses: m.losses + one_when(launch.flagged(LaunchFlags::DROPPED_BEFORE)),
        gaps: m.gaps + one_when(gap),
        pid_mismatches: m.pid_mismatches + one_when(launch.pid != expected_pid),
        unassigned: m.unassigned + one_when(outside),
        cpus: match place {
            Some(i) => m.cpus.update(i, entry),
            None => m.cpus.push(entry),
        },
        tids: if m.tids.contains(launch.tid) {
            m.tids
        } else {
            m.tids.push(launch.tid)
        },
    }
}

/// The launch at the place in a file.
pub open spec fn launch_at(s: Seq<u8>, i: int) -> Result<CudaLaunchEvent, DecodeError> {
    CudaLaunchEvent::decoded(
        s.subrange(i * CUDA_LAUNCH_EVENT_BYTES, (i + 1) * CUDA_LAUNCH_EVENT_BYTES),
    )
}

pub open spec fn decode_words(error: DecodeError) -> Seq<char> {
    match error {
        DecodeError::Length => "Length"@,
        DecodeError::Magic => "Magic"@,
        DecodeError::Version => "Version"@,
        DecodeError::RecordSize => "RecordSize"@,
    }
}

fn decode_text(error: DecodeError) -> (r: &'static str)
    ensures
        r@ == decode_words(error),
{
    match error {
        DecodeError::Length => "Length",
        DecodeError::Magic => "Magic",
        DecodeError::Version => "Version",
        DecodeError::RecordSize => "RecordSize",
    }
}

pub open spec fn nothing_launched(steps: nat) -> LaunchesModel {
    LaunchesModel {
        cursor: 0,
        steps: Seq::new(steps, |i: int| no_launches()),
        losses: 0,
        gaps: 0,
        pid_mismatches: 0,
        unassigned: 0,
        cpus: Seq::empty(),
        tids: Seq::empty(),
    }
}

/// What the first launches in a file come to.
pub open spec fn launches_after(s: Seq<u8>, n: int, steps: Seq<StepModel>, expected_pid: u32) -> Result<
    LaunchesModel,
    Seq<char>,
>
    decreases n,
{
    if n <= 0 {
        Ok(nothing_launched(steps.len()))
    } else {
        match launches_after(s, n - 1, steps, expected_pid) {
            Err(error) => Err(error),
            Ok(m) => match launch_at(s, n - 1) {
                Err(error) => Err(
                    "invalid CUDA launch record "@ + decimal((n - 1) as nat) + ": "@ + decode_words(
                        error,
                    ),
                ),
                Ok(launch) => Ok(after_launch(m, launch, steps, expected_pid)),
            },
        }
    }
}

proof fn launch_failure_stays(
    s: Seq<u8>,
    n: int,
    m: int,
    steps: Seq<StepModel>,
    expected_pid: u32,
)
    requires
        0 <= n <= m,
        launches_after(s, n, steps, expected_pid) is Err,
    ensures
        launches_after(s, m, steps, expected_pid) == launches_after(s, n, steps, expected_pid),
    decreases m - n,
{
    if n < m {
        launch_failure_stays(s, n, m - 1, steps, expected_pid);
    }
}

/// What a host join found.
#[derive(Debug)]
pub struct HostLaunches {
    pub records: usize,
    pub steps: Vec<StepLaunches>,
    pub losses: u64,
    pub gaps: u64,
    pub pid_mismatches: u64,
    pub unassigned: u64,
    pub tids: Vec<u32>,
    pub cursor: usize,
    pub cpus: Vec<CpuSequence>,
}

impl HostLaunches {
    pub open spec fn model(self) -> LaunchesModel {
        LaunchesModel {
            cursor: self.cursor as nat,
            steps: self.steps@,
            losses: self.losses as nat,
            gaps: self.gaps as nat,
            pid_mismatches: self.pid_mismatches as nat,
            unassigned: self.unassigned as nat,
            cpus: self.cpus@,
            tids: self.tids@,
        }
    }

    /// Whether no count is beyond the number of records.
    spec fn fits(self, n: int) -> bool {
        &&& self.records == n
        &&& self.losses <= n
        &&& self.gaps <= n
        &&& self.pid_mismatches <= n
        &&& self.unassigned <= n
        &&& forall|i: int|
            0 <= i < self.steps@.len() ==> (#[trigger] self.steps@[i]).launches <= n
                && self.steps@[i].regular <= n && self.steps@[i].extended <= n
    }

    fn add(&mut self, launch: &CudaLaunchEvent, steps: &Vec<Step>, expected_pid: u32)
        requires
            old(self).steps@.len() == steps@.len(),
            old(self).cursor <= steps@.len(),
            old(self).fits(old(self).records as int),
            old(self).records < usize::MAX,
        ensures
            final(self).steps@.len() == steps@.len(),
            final(self).cursor <= steps@.len(),
            final(self).records == old(self).records + 1,
            final(self).fits(final(self).records as int),
            final(self).model() == after_launch(
                old(self).model(),
                *launch,
                step_models(steps@),
                expected_pid,
            ),
    {
        let ghost before = self.model();
        let ghost n = self.records as int;
        let ghost models = step_models(steps@);
        self.records = self.records + 1;
        if launch.has_flag(LaunchFlags::DROPPED_BEFORE) {
            self.losses = self.losses + 1;
        }
        if launch.pid != expected_pid {
            self.pid_mismatches = self.pid_mismatches + 1;
        }
        if !holds_tid(&self.tids, launch.tid) {
            self.tids.push(launch.tid);
        }
        let entry = CpuSequence { cpu_id: launch.cpu_id, sequence: launch.sequence };
        match find_cpu(&self.cpus, launch.cpu_id) {
            Some(i) => {
                if launch.sequence != next_number(self.cpus[i].sequence) {
                    self.gaps = self.gaps + 1;
                }
                self.cpus.set(i, entry);
            },
            None => {
                self.cpus.push(entry);
            },
        }
        self.cursor = move_cursor(steps, self.cursor, launch.timestamp_ns);
        let cursor: usize = self.cursor;
        if cursor == steps.len() {
            self.unassigned = self.unassigned + 1;
            return;
        }
        assert(models[cursor as int] == step_model(steps@[cursor as int]));
        if launch.timestamp_ns < steps[cursor].begin.timestamp_ns {
            self.unassigned = self.unassigned + 1;
            return;
        }
        let s = self.steps[cursor];
        assert(s.launches <= n && s.regular <= n && s.extended <= n);
        let extended: bool = launch.has_flag(LaunchFlags::EXTENDED_CONFIG);
        let next = StepLaunches {
            launches: s.launches + 1,
            regular: if extended {
                s.regular
            } else {
                s.regular + 1
            },
            extended: if extended {
                s.extended + 1
            } else {
                s.extended
            },
            first_ns: match s.first_ns {
                Some(first) => Some(first),
                None => Some(launch.timestamp_ns),
            },
            last_ns: Some(launch.timestamp_ns),
        };
        self.steps.set(cursor, next);
    }
}

fn next_number(sequence: u64) -> (r: u64)
    ensures
        r == crate::bridge::advanced(sequence, 1),
{
    sequence.wrapping_add(1)
}

fn holds_tid(list: &Vec<u32>, value: u32) -> (r: bool)
    ensures
        r == list@.contains(value),
{
    let mut i: usize = 0;
    while i < list.len()
        invariant
            i <= list.len(),
            forall|k: int| 0 <= k < i ==> #[trigger] list@[k] != value,
        decreases list.len() - i,
    {
        if list[i] == value {
            assert(list@[i as int] == value);
            return true;
        }
        i += 1;
    }
    false
}

proof fn cpu_stays(cpus: Seq<CpuSequence>, cpu_id: u32, n: int)
    requires
        0 <= n <= cpus.len(),
        cpu_at(cpus.take(n), cpu_id) is Some,
    ensures
        cpu_at(cpus, cpu_id) == cpu_at(cpus.take(n), cpu_id),
    decreases cpus.len() - n,
{
    if n < cpus.len() {
        assert(cpus.take(n + 1).drop_last() =~= cpus.take(n));
        cpu_stays(cpus, cpu_id, n + 1);
    } else {
        assert(cpus.take(n) =~= cpus);
    }
}

fn find_cpu(cpus: &Vec<CpuSequence>, cpu_id: u32) -> (r: Option<usize>)
    ensures
        cpu_at(cpus@, cpu_id) == match r {
            Some(i) => Some(i as int),
            None => None,
        },
        r matches Some(i) ==> i < cpus@.len(),
{
    let mut i: usize = 0;
    assert(cpus@.take(0) =~= Seq::<CpuSequence>::empty());
    while i < cpus.len()
        invariant
            i <= cpus.len(),
            cpu_at(cpus@.take(i as int), cpu_id) is None,
        decreases cpus.len() - i,
    {
        assert(cpus@.take(i + 1).drop_last() =~= cpus@.take(i as int));
        if cpus[i].cpu_id == cpu_id {
            proof {
                cpu_stays(cpus@, cpu_id, i + 1);
            }
            return Some(i);
        }
        i += 1;
    }
    assert(cpus@.take(cpus@.len() as int) =~= cpus@);
    None
}

fn move_cursor(steps: &Vec<Step>, cursor: usize, time: u64) -> (r: usize)
    requires
        cursor <= steps@.len(),
    ensures
        r == advanced_cursor(step_models(steps@), cursor as nat, time),
        r <= steps@.len(),
{
    let ghost models = step_models(steps@);
    let mut at: usize = cursor;
    while at < steps.len() && time > steps[at].end_timestamp_ns
        invariant
            at <= steps.len(),
            models == step_models(steps@),
            advanced_cursor(models, at as nat, time) == advanced_cursor(
                models,
                cursor as nat,
                time,
            ),
        decreases steps.len() - at,
    {
        assert(models[at as int] == step_model(steps@[at as int]));
        at += 1;
    }
    proof {
        if at < steps@.len() {
            assert(models[at as int] == step_model(steps@[at as int]));
        }
    }
    at
}

/// What the launches in a file come to.
pub open spec fn host_launches_of(s: Seq<u8>, steps: Seq<StepModel>, expected_pid: u32) -> Result<
    LaunchesModel,
    Seq<char>,
> {
    match fixed_problem(
        s.len(),
        CUDA_LAUNCH_EVENT_BYTES as nat,
        MAX_CUDA_BYTES as nat,
        "CUDA launch"@,
    ) {
        Some(problem) => Err(problem),
        None => launches_after(
            s,
            (s.len() / CUDA_LAUNCH_EVENT_BYTES as nat) as int,
            steps,
            expected_pid,
        ),
    }
}

/// Counts the launches in a file for the steps.
pub fn join_host_launches(bytes: &[u8], steps: &Vec<Step>, expected_pid: u32) -> (r: Result<
    HostLaunches,
    String,
>)
    ensures
        match (r, host_launches_of(bytes@, step_models(steps@), expected_pid)) {
            (Ok(found), Ok(expected)) => found.model() == expected && found.records
                == bytes@.len() / CUDA_LAUNCH_EVENT_BYTES as nat,
            (Err(error), Err(expected)) => error@ == expected,
            _ => false,
        },
{
    check_fixed(bytes.len(), CUDA_LAUNCH_EVENT_BYTES, MAX_CUDA_BYTES, "CUDA launch")?;
    let ghost models = step_models(steps@);
    let count: usize = bytes.len() / CUDA_LAUNCH_EVENT_BYTES;
    let mut found = HostLaunches {
        records: 0,
        steps: Vec::new(),
        losses: 0,
        gaps: 0,
        pid_mismatches: 0,
        unassigned: 0,
        tids: Vec::new(),
        cursor: 0,
        cpus: Vec::new(),
    };
    let mut list: Vec<StepLaunches> = Vec::new();
    let mut i: usize = 0;
    while i < steps.len()
        invariant
            i <= steps.len(),
            list@.len() == i,
            forall|k: int| 0 <= k < i ==> (#[trigger] list@[k]) == no_launches(),
        decreases steps.len() - i,
    {
        list.push(
            StepLaunches { launches: 0, regular: 0, extended: 0, first_ns: None, last_ns: None },
        );
        i += 1;
    }
    found.steps = list;
    proof {
        assert(found.model() =~= nothing_launched(models.len()));
        assert(found.fits(0));
    }
    let mut n: usize = 0;
    while n < count
        invariant
            n <= count,
            count == bytes@.len() / CUDA_LAUNCH_EVENT_BYTES as nat,
            models == step_models(steps@),
            found.records == n,
            found.fits(n as int),
            found.steps@.len() == steps@.len(),
            found.cursor <= steps@.len(),
            launches_after(bytes@, n as int, models, expected_pid) == Ok::<
                LaunchesModel,
                Seq<char>,
            >(found.model()),
            fixed_problem(
                bytes@.len(),
                CUDA_LAUNCH_EVENT_BYTES as nat,
                MAX_CUDA_BYTES as nat,
                "CUDA launch"@,
            ) is None,
        decreases count - n,
    {
        proof {
            if launches_after(bytes@, n + 1, models, expected_pid) is Err {
                launch_failure_stays(bytes@, n + 1, count as int, models, expected_pid);
            }
            assert((n + 1) * CUDA_LAUNCH_EVENT_BYTES <= bytes.len());
        }
        let start: usize = n * CUDA_LAUNCH_EVENT_BYTES;
        let raw = slice_subrange(bytes, start, start + CUDA_LAUNCH_EVENT_BYTES);
        match CudaLaunchEvent::decode(raw) {
            Err(error) => {
                let mut text = "invalid CUDA launch record ".to_owned();
                append_decimal(&mut text, n as u64);
                text.append(": ");
                text.append(decode_text(error));
                return Err(text);
            },
            Ok(launch) => {
                found.add(&launch, steps, expected_pid);
            },
        }
        n += 1;
    }
    Ok(found)
}

/// Whether the traces are whole: nothing was lost, and every launch belongs to a
/// step and to the process.
pub fn host_join_passes(semantic_losses: u64, found: &HostLaunches) -> (r: bool)
    ensures
        r == (semantic_losses == 0 && found.losses == 0 && found.gaps == 0 && found.pid_mismatches
            == 0 && found.unassigned == 0),
{
    semantic_losses == 0 && found.losses == 0 && found.gaps == 0 && found.pid_mismatches == 0
        && found.unassigned == 0
}

// Laws.

/// The launches of the first steps.
pub open spec fn launch_sum(steps: Seq<StepLaunches>, n: int) -> nat
    decreases n,
{
    if n <= 0 {
        0
    } else {
        launch_sum(steps, n - 1) + steps[n - 1].launches as nat
    }
}

/// Every launch is counted for one step or for none.
pub proof fn launches_are_counted_once(
    s: Seq<u8>,
    n: int,
    steps: Seq<StepModel>,
    expected_pid: u32,
)
    requires
        0 <= n <= u32::MAX,
        launches_after(s, n, steps, expected_pid) is Ok,
    ensures
        (launches_after(s, n, steps, expected_pid)->Ok_0).steps.len() == steps.len(),
        launch_sum(
            (launches_after(s, n, steps, expected_pid)->Ok_0).steps,
            steps.len() as int,
        ) + (launches_after(s, n, steps, expected_pid)->Ok_0).unassigned == n,
        forall|i: int|
            0 <= i < steps.len() ==> (#[trigger] (launches_after(
                s,
                n,
                steps,
                expected_pid,
            )->Ok_0).steps[i]).launches <= n,
    decreases n,
{
    if n == 0 {
        nothing_sums_to_zero(steps.len(), steps.len() as int);
    } else {
        launches_are_counted_once(s, n - 1, steps, expected_pid);
        let before = launches_after(s, n - 1, steps, expected_pid)->Ok_0;
        let launch = launch_at(s, n - 1)->Ok_0;
        let cursor = advanced_cursor(steps, before.cursor, launch.timestamp_ns);
        if cursor < steps.len() && launch.timestamp_ns >= steps[cursor as int].begin.timestamp_ns {
            let next = with_launch(before.steps[cursor as int], launch);
            assert(before.steps[cursor as int].launches <= n - 1);
            sum_after_update(before.steps, cursor as int, next, steps.len() as int);
        }
    }
}

proof fn nothing_sums_to_zero(steps: nat, n: int)
    requires
        n <= steps,
    ensures
        launch_sum(nothing_launched(steps).steps, n) == 0,
    decreases n,
{
    if n > 0 {
        nothing_sums_to_zero(steps, n - 1);
    }
}

proof fn sum_after_update(steps: Seq<StepLaunches>, at: int, next: StepLaunches, n: int)
    requires
        0 <= at < steps.len(),
        0 <= n <= steps.len(),
        next.launches == steps[at].launches + 1,
    ensures
        launch_sum(steps.update(at, next), n) == launch_sum(steps, n) + one_when(at < n),
    decreases n,
{
    if n > 0 {
        sum_after_update(steps, at, next, n - 1);
    }
}

} // verus!
