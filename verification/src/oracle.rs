//! Check of predicted row ownership against a packing oracle.
//!
//! The oracle records, step by step, which rows of the packed batch each
//! request really got. The prediction is read from the semantic records: the
//! slices of a step take consecutive rows in the order of the slices.

use crate::bridge::advanced;
use crate::bytes::{le_u16, le_u32, le_u64, spec_le16, spec_le32, spec_le64};
use crate::digits::{append_decimal, decimal};
use crate::semantic::{
    bad_size, is_bad_size, marks_loss, record_at, records_in, RecordError, SemanticRecordFlags,
    SemanticRecordKind, SemanticWireRecord, SEMANTIC_RECORD_BYTES,
};
use vstd::prelude::*;
use vstd::slice::slice_subrange;
use vstd::string::*;

verus! {

/// The bytes `GPOP`, read as a little-endian number.
pub const ORACLE_MAGIC: u32 = 0x504f_5047;

pub const ORACLE_VERSION: u16 = 1;

pub const ORACLE_BEGIN: u16 = 1;

pub const ORACLE_SLICE: u16 = 2;

pub const ORACLE_COMPLETE_FLAGS: u32 = 7;

pub const ORACLE_RECORD_BYTES: usize = 64;

pub const MAX_INPUT_BYTES: usize = 67_108_864;

// Semantic steps.

/// An engine step with the slices that share it. An end of zero means that the
/// step is open.
#[derive(Debug)]
pub struct Step {
    pub begin: SemanticWireRecord,
    pub end_timestamp_ns: u64,
    pub slices: Vec<SemanticWireRecord>,
}

#[verifier::ext_equal]
pub struct StepModel {
    pub begin: SemanticWireRecord,
    pub end_timestamp_ns: u64,
    pub slices: Seq<SemanticWireRecord>,
}

pub open spec fn step_model(step: Step) -> StepModel {
    StepModel {
        begin: step.begin,
        end_timestamp_ns: step.end_timestamp_ns,
        slices: step.slices@,
    }
}

pub open spec fn step_models(steps: Seq<Step>) -> Seq<StepModel> {
    steps.map_values(|step: Step| step_model(step))
}

/// What has been read of a trace.
#[verifier::ext_equal]
pub struct Reading {
    pub steps: Seq<StepModel>,
    pub previous: Option<u64>,
    pub loss_markers: nat,
}

/// The tokens of the slices, wrapping.
pub open spec fn slice_tokens(slices: Seq<SemanticWireRecord>) -> u32
    decreases slices.len(),
{
    if slices.len() == 0 {
        0
    } else {
        ((slice_tokens(slices.drop_last()) + slices.last().scheduled_tokens) % 0x1_0000_0000) as u32
    }
}

/// Whether the record is one that the engine writes about its steps.
pub open spec fn is_engine_record(r: SemanticWireRecord) -> bool {
    match r.kind {
        SemanticRecordKind::EngineStepBegin
        | SemanticRecordKind::StepRequestSlice
        | SemanticRecordKind::EngineStepEnd
        | SemanticRecordKind::PackedLayoutBegin
        | SemanticRecordKind::PackedRequestSlice
        | SemanticRecordKind::PackedTokenRow
        | SemanticRecordKind::AcceptedOutputToken => true,
        _ => false,
    }
}

pub(crate) fn is_of_engine(r: &SemanticWireRecord) -> (engine: bool)
    ensures
        engine == is_engine_record(*r),
{
    match r.kind {
        SemanticRecordKind::EngineStepBegin
        | SemanticRecordKind::StepRequestSlice
        | SemanticRecordKind::EngineStepEnd
        | SemanticRecordKind::PackedLayoutBegin
        | SemanticRecordKind::PackedRequestSlice
        | SemanticRecordKind::PackedTokenRow
        | SemanticRecordKind::AcceptedOutputToken => true,
        _ => false,
    }
}

/// The steps after one more record, or why it does not fit.
pub open spec fn steps_after(steps: Seq<StepModel>, r: SemanticWireRecord) -> Result<
    Seq<StepModel>,
    Seq<char>,
> {
    let last = steps.last();
    match r.kind {
        SemanticRecordKind::EngineStepBegin => if steps.len() > 0 && last.end_timestamp_ns == 0 {
            Err("overlapping semantic steps"@)
        } else {
            Ok(
                steps.push(
                    StepModel { begin: r, end_timestamp_ns: 0, slices: Seq::empty() },
                ),
            )
        },
        SemanticRecordKind::StepRequestSlice => if steps.len() == 0 {
            Err("slice before step begin"@)
        } else if last.begin.step_id != r.step_id || last.end_timestamp_ns != 0 {
            Err("semantic slice outside its step"@)
        } else {
            Ok(steps.drop_last().push(StepModel { slices: last.slices.push(r), ..last }))
        },
        SemanticRecordKind::EngineStepEnd => if steps.len() == 0 {
            Err("step end before begin"@)
        } else if last.begin.step_id != r.step_id || last.end_timestamp_ns != 0 {
            Err("mismatched semantic step end"@)
        } else if last.slices.len() != last.begin.expected_slices || slice_tokens(last.slices)
            != last.begin.scheduled_tokens || r.status != 0 || r.timestamp_ns
            < last.begin.timestamp_ns {
            Err("semantic step integrity failure"@)
        } else {
            Ok(steps.drop_last().push(StepModel { end_timestamp_ns: r.timestamp_ns, ..last }))
        },
        _ => Ok(steps),
    }
}

/// What has been read after one more record.
pub open spec fn after_record(
    reading: Reading,
    index: int,
    record: Result<SemanticWireRecord, RecordError>,
) -> Result<Reading, Seq<char>> {
    match record {
        Err(error) => Err(
            "invalid semantic record "@ + decimal(index as nat) + ": "@ + error.words(),
        ),
        Ok(r) => if reading.previous matches Some(previous) && r.sequence != advanced(previous, 1) {
            Err("semantic sequence gap"@)
        } else {
            match steps_after(reading.steps, r) {
                Err(error) => Err(error),
                Ok(steps) => Ok(
                    Reading {
                        steps,
                        previous: Some(r.sequence),
                        loss_markers: reading.loss_markers + if marks_loss(r) {
                            1nat
                        } else {
                            0
                        },
                    },
                ),
            }
        },
    }
}

pub open spec fn read_records(records: Seq<Result<SemanticWireRecord, RecordError>>) -> Result<
    Reading,
    Seq<char>,
>
    decreases records.len(),
{
    if records.len() == 0 {
        Ok(Reading { steps: Seq::empty(), previous: None, loss_markers: 0 })
    } else {
        match read_records(records.drop_last()) {
            Err(error) => Err(error),
            Ok(reading) => after_record(reading, records.len() - 1, records.last()),
        }
    }
}

/// Whether a step has no end.
pub open spec fn some_open(steps: Seq<StepModel>) -> bool {
    exists|i: int| 0 <= i < steps.len() && (#[trigger] steps[i]).end_timestamp_ns == 0
}

/// What a semantic trace is read as.
pub open spec fn semantic_reading(s: Seq<u8>) -> Result<Reading, Seq<char>> {
    if bad_size(s.len(), MAX_INPUT_BYTES as nat) {
        Err("invalid semantic trace size: "@ + decimal(s.len()))
    } else {
        match read_records(records_in(s)) {
            Err(error) => Err(error),
            Ok(reading) => if some_open(reading.steps) {
                Err("unterminated semantic step"@)
            } else {
                Ok(reading)
            },
        }
    }
}

proof fn reading_failure_stays(records: Seq<Result<SemanticWireRecord, RecordError>>, n: int)
    requires
        0 <= n <= records.len(),
        read_records(records.take(n)) is Err,
    ensures
        read_records(records) == read_records(records.take(n)),
    decreases records.len() - n,
{
    if n < records.len() {
        assert(records.take(n + 1).drop_last() =~= records.take(n));
        reading_failure_stays(records, n + 1);
    } else {
        assert(records.take(n) =~= records);
    }
}

pub(crate) fn tokens_of(slices: &Vec<SemanticWireRecord>) -> (r: u32)
    ensures
        r == slice_tokens(slices@),
{
    let mut total: u32 = 0;
    let mut i: usize = 0;
    assert(slices@.take(0) =~= Seq::<SemanticWireRecord>::empty());
    while i < slices.len()
        invariant
            i <= slices.len(),
            total == slice_tokens(slices@.take(i as int)),
        decreases slices.len() - i,
    {
        assert(slices@.take(i + 1).drop_last() =~= slices@.take(i as int));
        total = total.wrapping_add(slices[i].scheduled_tokens);
        i += 1;
    }
    assert(slices@.take(slices@.len() as int) =~= slices@);
    total
}

/// Adds a record to the steps, or says why it does not fit.
fn add_record(steps: &mut Vec<Step>, r: SemanticWireRecord) -> (outcome: Result<(), &'static str>)
    ensures
        match (outcome, steps_after(step_models(old(steps)@), r)) {
            (Ok(_), Ok(expected)) => step_models(final(steps)@) == expected,
            (Err(error), Err(expected)) => error@ == expected,
            _ => false,
        },
{
    let ghost before = step_models(steps@);
    match r.kind {
        SemanticRecordKind::EngineStepBegin => {
            if steps.len() > 0 && steps[steps.len() - 1].end_timestamp_ns == 0 {
                return Err("overlapping semantic steps");
            }
            let step = Step { begin: r, end_timestamp_ns: 0, slices: Vec::new() };
            let ghost model = step_model(step);
            steps.push(step);
            proof {
                assert(model =~= (StepModel { begin: r, end_timestamp_ns: 0, slices: Seq::empty() }));
                assert(step_models(steps@) =~= before.push(model));
            }
            Ok(())
        },
        SemanticRecordKind::StepRequestSlice => {
            let mut step = match steps.pop() {
                Some(step) => step,
                None => {
                    return Err("slice before step begin");
                },
            };
            proof {
                assert(step_models(steps@) =~= before.drop_last());
                assert(before.last() == step_model(step));
            }
            if step.begin.step_id != r.step_id || step.end_timestamp_ns != 0 {
                steps.push(step);
                return Err("semantic slice outside its step");
            }
            step.slices.push(r);
            let ghost model = step_model(step);
            steps.push(step);
            assert(step_models(steps@) =~= before.drop_last().push(model));
            Ok(())
        },
        SemanticRecordKind::EngineStepEnd => {
            let mut step = match steps.pop() {
                Some(step) => step,
                None => {
                    return Err("step end before begin");
                },
            };
            proof {
                assert(step_models(steps@) =~= before.drop_last());
                assert(before.last() == step_model(step));
            }
            if step.begin.step_id != r.step_id || step.end_timestamp_ns != 0 {
                steps.push(step);
                return Err("mismatched semantic step end");
            }
            if step.slices.len() != step.begin.expected_slices as usize || tokens_of(&step.slices)
                != step.begin.scheduled_tokens || r.status != 0 || r.timestamp_ns
                < step.begin.timestamp_ns {
                steps.push(step);
                return Err("semantic step integrity failure");
            }
            step.end_timestamp_ns = r.timestamp_ns;
            let ghost model = step_model(step);
            steps.push(step);
            assert(step_models(steps@) =~= before.drop_last().push(model));
            Ok(())
        },
        _ => Ok(()),
    }
}

fn size_error(label: &str, size: usize) -> (text: String)
    ensures
        text@ == label@ + decimal(size as nat),
{
    let mut text = label.to_owned();
    append_decimal(&mut text, size as u64);
    text
}

/// A trace as far as it has been read.
struct StepReader {
    steps: Vec<Step>,
    previous: Option<u64>,
    losses: u64,
}

impl StepReader {
    spec fn reading(self) -> Reading {
        Reading {
            steps: step_models(self.steps@),
            previous: self.previous,
            loss_markers: self.losses as nat,
        }
    }

    fn add(&mut self, index: usize, record: Result<SemanticWireRecord, RecordError>) -> (outcome:
        Result<(), String>)
        requires
            old(self).losses < u64::MAX,
        ensures
            match (outcome, after_record(old(self).reading(), index as int, record)) {
                (Ok(_), Ok(expected)) => final(self).reading() == expected,
                (Err(error), Err(expected)) => error@ == expected,
                _ => false,
            },
            final(self).losses <= old(self).losses + 1,
    {
        let r = match record {
            Ok(r) => r,
            Err(error) => {
                let mut text = "invalid semantic record ".to_owned();
                append_decimal(&mut text, index as u64);
                text.append(": ");
                text.append(error.message());
                return Err(text);
            },
        };
        if let Some(last) = self.previous {
            if r.sequence != last.wrapping_add(1) {
                return Err("semantic sequence gap".to_owned());
            }
        }
        match add_record(&mut self.steps, r) {
            Err(error) => Err(error.to_owned()),
            Ok(_) => {
                self.previous = Some(r.sequence);
                if r.flags & SemanticRecordFlags::DROPPED_BEFORE != 0 {
                    self.losses = self.losses + 1;
                }
                Ok(())
            },
        }
    }
}

/// Whether a step has no end.
fn has_open(steps: &Vec<Step>) -> (r: bool)
    ensures
        r == some_open(step_models(steps@)),
{
    let mut i: usize = 0;
    while i < steps.len()
        invariant
            i <= steps.len(),
            forall|k: int| 0 <= k < i ==> (#[trigger] steps@[k]).end_timestamp_ns != 0,
        decreases steps.len() - i,
    {
        if steps[i].end_timestamp_ns == 0 {
            assert(step_models(steps@)[i as int].end_timestamp_ns == 0);
            return true;
        }
        i += 1;
    }
    proof {
        let models = step_models(steps@);
        if some_open(models) {
            let k = choose|k: int|
                0 <= k < models.len() && (#[trigger] models[k]).end_timestamp_ns == 0;
            assert(steps@[k].end_timestamp_ns == 0);
        }
    }
    false
}

/// Whether the record at the place is one of a request's lifecycle, with nothing
/// wrong up to it.
pub open spec fn lifecycle_at(
    records: Seq<Result<SemanticWireRecord, RecordError>>,
    i: int,
) -> bool {
    records[i] matches Ok(record) && !is_engine_record(record) && read_records(
        records.take(i + 1),
    ) is Ok
}

/// Whether a semantic trace comes to a lifecycle record before anything is wrong
/// with it.
pub open spec fn comes_to_lifecycle(s: Seq<u8>) -> bool {
    !bad_size(s.len(), MAX_INPUT_BYTES as nat) && exists|i: int|
        0 <= i < records_in(s).len() && #[trigger] lifecycle_at(records_in(s), i)
}

/// Whether a semantic trace comes to a lifecycle record before anything is wrong
/// with it.
pub fn meets_lifecycle(bytes: &[u8]) -> (r: bool)
    ensures
        r == comes_to_lifecycle(bytes@),
{
    if is_bad_size(bytes.len(), MAX_INPUT_BYTES) {
        return false;
    }
    let ghost records = records_in(bytes@);
    let count: usize = bytes.len() / SEMANTIC_RECORD_BYTES;
    let mut reader = StepReader { steps: Vec::new(), previous: None, losses: 0 };
    let mut i: usize = 0;
    assert(records.take(0) =~= Seq::<Result<SemanticWireRecord, RecordError>>::empty());
    assert(step_models(reader.steps@) =~= Seq::<StepModel>::empty());
    while i < count
        invariant
            i <= count,
            !bad_size(bytes@.len(), MAX_INPUT_BYTES as nat),
            records == records_in(bytes@),
            count == records.len(),
            reader.losses <= i,
            read_records(records.take(i as int)) == Ok::<Reading, Seq<char>>(reader.reading()),
            forall|k: int| 0 <= k < i ==> !#[trigger] lifecycle_at(records, k),
        decreases count - i,
    {
        proof {
            assert(records.take(i + 1).drop_last() =~= records.take(i as int));
            assert(records.take(i + 1).last() == records[i as int]);
        }
        let record = record_at(bytes, i);
        let engine: bool = match &record {
            Ok(record) => is_of_engine(record),
            Err(_) => true,
        };
        if reader.add(i, record).is_err() {
            assert forall|k: int| 0 <= k < records.len() implies !#[trigger] lifecycle_at(
                records,
                k,
            ) by {
                if k >= i {
                    let longer = records.take(k + 1);
                    assert(longer.take(i + 1) =~= records.take(i + 1));
                    reading_failure_stays(longer, i + 1);
                }
            }
            return false;
        }
        if !engine {
            assert(lifecycle_at(records, i as int));
            return true;
        }
        i += 1;
    }
    false
}

/// Reads the steps of a semantic trace: the steps, how many records there are,
/// and how many of them say that records were lost.
///
/// A trace of an engine holds no lifecycle records.
pub fn load_semantic(bytes: &[u8]) -> (r: Result<(Vec<Step>, u64, u64), String>)
    requires
        !comes_to_lifecycle(bytes@),
    ensures
        match (r, semantic_reading(bytes@)) {
            (Ok((steps, records, losses)), Ok(reading)) => {
                &&& step_models(steps@) == reading.steps
                &&& records == records_in(bytes@).len()
                &&& losses == reading.loss_markers
            },
            (Err(error), Err(expected)) => error@ == expected,
            _ => false,
        },
{
    if is_bad_size(bytes.len(), MAX_INPUT_BYTES) {
        return Err(size_error("invalid semantic trace size: ", bytes.len()));
    }
    let ghost records = records_in(bytes@);
    let count: usize = bytes.len() / SEMANTIC_RECORD_BYTES;
    let mut reader = StepReader { steps: Vec::new(), previous: None, losses: 0 };
    let mut i: usize = 0;
    assert(records.take(0) =~= Seq::<Result<SemanticWireRecord, RecordError>>::empty());
    assert(step_models(reader.steps@) =~= Seq::<StepModel>::empty());
    while i < count
        invariant
            i <= count,
            !bad_size(bytes@.len(), MAX_INPUT_BYTES as nat),
            records == records_in(bytes@),
            count == records.len(),
            reader.losses <= i,
            read_records(records.take(i as int)) == Ok::<Reading, Seq<char>>(reader.reading()),
        decreases count - i,
    {
        proof {
            assert(records.take(i + 1).drop_last() =~= records.take(i as int));
            assert(records.take(i + 1).last() == records[i as int]);
            if read_records(records.take(i + 1)) is Err {
                reading_failure_stays(records, i + 1);
            }
        }
        reader.add(i, record_at(bytes, i))?;
        i += 1;
    }
    assert(records.take(count as int) =~= records);
    if has_open(&reader.steps) {
        return Err("unterminated semantic step".to_owned());
    }
    Ok((reader.steps, count as u64, reader.losses))
}

// Oracle observations.

#[derive(Clone, Copy, Debug, PartialEq, Eq, Structural)]
pub struct OracleSlice {
    pub request_id: u64,
    pub row_begin: u32,
    pub row_end: u32,
    pub scheduled_tokens: u32,
    pub packed_index: u32,
}

#[derive(Debug)]
pub struct OracleObservation {
    pub timestamp_ns: u64,
    pub request_count: u32,
    pub total_tokens: u32,
    pub flags: u32,
    pub pid: u32,
    pub slices: Vec<OracleSlice>,
}

#[verifier::ext_equal]
pub struct ObservationModel {
    pub timestamp_ns: u64,
    pub request_count: u32,
    pub total_tokens: u32,
    pub flags: u32,
    pub pid: u32,
    pub slices: Seq<OracleSlice>,
}

pub open spec fn observation_model(o: OracleObservation) -> ObservationModel {
    ObservationModel {
        timestamp_ns: o.timestamp_ns,
        request_count: o.request_count,
        total_tokens: o.total_tokens,
        flags: o.flags,
        pid: o.pid,
        slices: o.slices@,
    }
}

pub open spec fn observation_models(os: Seq<OracleObservation>) -> Seq<ObservationModel> {
    os.map_values(|o: OracleObservation| observation_model(o))
}

/// The bytes of the oracle record at the place.
pub open spec fn oracle_record(s: Seq<u8>, i: int) -> Seq<u8> {
    s.subrange(i * ORACLE_RECORD_BYTES, (i + 1) * ORACLE_RECORD_BYTES)
}

pub open spec fn has_oracle_header(r: Seq<u8>) -> bool {
    spec_le32(r, 0) == ORACLE_MAGIC && spec_le16(r, 4) == ORACLE_VERSION
}

/// The first of so many records that has no oracle header.
pub open spec fn first_foreign(s: Seq<u8>, count: nat) -> Option<nat>
    decreases count,
{
    if count == 0 {
        None
    } else {
        match first_foreign(s, (count - 1) as nat) {
            Some(i) => Some(i),
            None => if has_oracle_header(oracle_record(s, count - 1)) {
                None
            } else {
                Some((count - 1) as nat)
            },
        }
    }
}

/// Whether the record can begin an observation.
pub open spec fn begins_observation(r: Seq<u8>) -> bool {
    let total_tokens = spec_le32(r, 52);
    &&& 1 <= spec_le32(r, 48) <= 65_536
    &&& spec_le64(r, 16) == 0
    &&& spec_le64(r, 24) == 0
    &&& spec_le32(r, 32) == 0
    &&& spec_le32(r, 36) == total_tokens
    &&& spec_le32(r, 40) == total_tokens
    &&& spec_le32(r, 44) == 0
}

/// The rows that the slices before the place take.
pub open spec fn oracle_rows_before(s: Seq<u8>, cursor: int, k: int) -> u32 {
    if k == 0 {
        0
    } else {
        spec_le32(oracle_record(s, cursor + k), 36)
    }
}

/// Whether the slice at the place belongs to the observation that begins at
/// the cursor, and follows the slice before it.
pub open spec fn belongs(s: Seq<u8>, cursor: int, k: int) -> bool {
    let begin = oracle_record(s, cursor);
    let r = oracle_record(s, cursor + 1 + k);
    &&& spec_le16(r, 6) == ORACLE_SLICE
    &&& spec_le64(r, 8) == spec_le64(begin, 8)
    &&& spec_le64(r, 16) == 0
    &&& spec_le32(r, 48) == spec_le32(begin, 48)
    &&& spec_le32(r, 52) == spec_le32(begin, 52)
    &&& spec_le32(r, 56) == 0
    &&& spec_le32(r, 60) == spec_le32(begin, 60)
    &&& spec_le32(r, 44) == k
    &&& spec_le32(r, 32) == oracle_rows_before(s, cursor, k)
    &&& spec_le32(r, 36) - spec_le32(r, 32) == spec_le32(r, 40)
    &&& spec_le32(r, 40) > 0
}

/// The first of so many slices that does not belong.
pub open spec fn first_stray(s: Seq<u8>, cursor: int, count: nat) -> Option<nat>
    decreases count,
{
    if count == 0 {
        None
    } else {
        match first_stray(s, cursor, (count - 1) as nat) {
            Some(k) => Some(k),
            None => if belongs(s, cursor, count - 1) {
                None
            } else {
                Some((count - 1) as nat)
            },
        }
    }
}

pub open spec fn oracle_slice(r: Seq<u8>) -> OracleSlice {
    OracleSlice {
        request_id: spec_le64(r, 24),
        row_begin: spec_le32(r, 32),
        row_end: spec_le32(r, 36),
        scheduled_tokens: spec_le32(r, 40),
        packed_index: spec_le32(r, 44),
    }
}

pub open spec fn observation_at(s: Seq<u8>, cursor: int) -> ObservationModel {
    let begin = oracle_record(s, cursor);
    ObservationModel {
        timestamp_ns: spec_le64(begin, 8),
        request_count: spec_le32(begin, 48),
        total_tokens: spec_le32(begin, 52),
        flags: spec_le32(begin, 56),
        pid: spec_le32(begin, 60),
        slices: Seq::new(
            spec_le32(begin, 48) as nat,
            |k: int| oracle_slice(oracle_record(s, cursor + 1 + k)),
        ),
    }
}

/// The observations from the cursor on, of so many records.
pub open spec fn observations_from(s: Seq<u8>, cursor: nat, count: nat) -> Result<
    Seq<ObservationModel>,
    Seq<char>,
>
    decreases count - cursor,
{
    if cursor >= count {
        Ok(Seq::empty())
    } else {
        let begin = oracle_record(s, cursor as int);
        let slices = spec_le32(begin, 48) as nat;
        let next = cursor + 1 + slices;
        if spec_le16(begin, 6) != ORACLE_BEGIN {
            Err("packing slice without begin at record "@ + decimal(cursor))
        } else if !begins_observation(begin) {
            Err("invalid packing begin at record "@ + decimal(cursor))
        } else if next > count {
            Err("truncated packing-oracle observation"@)
        } else if let Some(k) = first_stray(s, cursor as int, slices) {
            Err("invalid packing slice at record "@ + decimal(cursor + 1 + k))
        } else if oracle_rows_before(s, cursor as int, slices as int) != spec_le32(begin, 52) {
            Err("packing-oracle ranges do not cover total tokens"@)
        } else {
            match observations_from(s, next, count) {
                Ok(rest) => Ok(seq![observation_at(s, cursor as int)] + rest),
                Err(error) => Err(error),
            }
        }
    }
}

/// What an oracle trace is read as.
pub open spec fn oracle_reading(s: Seq<u8>) -> Result<Seq<ObservationModel>, Seq<char>> {
    let count = (s.len() / ORACLE_RECORD_BYTES as nat) as nat;
    if s.len() == 0 || s.len() > MAX_INPUT_BYTES || s.len() % ORACLE_RECORD_BYTES as nat != 0 {
        Err("invalid packing-oracle size: "@ + decimal(s.len()))
    } else if let Some(i) = first_foreign(s, count) {
        Err("invalid packing-oracle record "@ + decimal(i))
    } else {
        observations_from(s, 0, count)
    }
}

/// The observations found so far, and then the rest.
pub open spec fn followed_by(
    found: Seq<ObservationModel>,
    rest: Result<Seq<ObservationModel>, Seq<char>>,
) -> Result<Seq<ObservationModel>, Seq<char>> {
    match rest {
        Ok(rest) => Ok(found + rest),
        Err(error) => Err(error),
    }
}

fn raw_record(bytes: &[u8], i: usize) -> (r: &[u8])
    requires
        (i + 1) * ORACLE_RECORD_BYTES <= bytes@.len(),
    ensures
        r@ == oracle_record(bytes@, i as int),
        r@.len() == ORACLE_RECORD_BYTES,
{
    assert((i + 1) * ORACLE_RECORD_BYTES <= bytes.len());
    let start: usize = i * ORACLE_RECORD_BYTES;
    slice_subrange(bytes, start, start + ORACLE_RECORD_BYTES)
}

proof fn first_foreign_stays(s: Seq<u8>, n: nat, count: nat)
    requires
        n <= count,
        first_foreign(s, n) is Some,
    ensures
        first_foreign(s, count) == first_foreign(s, n),
    decreases count - n,
{
    if n < count {
        first_foreign_stays(s, n, (count - 1) as nat);
    }
}

proof fn first_stray_stays(s: Seq<u8>, cursor: int, n: nat, count: nat)
    requires
        n <= count,
        first_stray(s, cursor, n) is Some,
    ensures
        first_stray(s, cursor, count) == first_stray(s, cursor, n),
    decreases count - n,
{
    if n < count {
        first_stray_stays(s, cursor, n, (count - 1) as nat);
    }
}

/// Reads the slices of the observation at the cursor, or finds the first that
/// does not belong to it.
fn read_slices(bytes: &[u8], cursor: usize, request_count: u32) -> (r: Result<Vec<OracleSlice>, usize>)
    requires
        (cursor + 1 + request_count) * ORACLE_RECORD_BYTES <= bytes@.len(),
        request_count == spec_le32(oracle_record(bytes@, cursor as int), 48),
    ensures
        match r {
            Ok(slices) => {
                &&& first_stray(bytes@, cursor as int, request_count as nat) is None
                &&& slices@ == observation_at(bytes@, cursor as int).slices
            },
            Err(k) => first_stray(bytes@, cursor as int, request_count as nat) == Some(k as nat),
        },
{
    let begin = raw_record(bytes, cursor);
    let timestamp_ns: u64 = le_u64(begin, 8);
    let total_tokens: u32 = le_u32(begin, 52);
    let pid: u32 = le_u32(begin, 60);
    let mut slices: Vec<OracleSlice> = Vec::new();
    let mut expected: u32 = 0;
    let mut k: u32 = 0;
    while k < request_count
        invariant
            k <= request_count,
            (cursor + 1 + request_count) * ORACLE_RECORD_BYTES <= bytes@.len(),
            begin@ == oracle_record(bytes@, cursor as int),
            timestamp_ns == spec_le64(begin@, 8),
            request_count == spec_le32(begin@, 48),
            total_tokens == spec_le32(begin@, 52),
            pid == spec_le32(begin@, 60),
            expected == oracle_rows_before(bytes@, cursor as int, k as int),
            first_stray(bytes@, cursor as int, k as nat) is None,
            slices@.len() == k,
            forall|j: int|
                0 <= j < k ==> #[trigger] slices@[j] == oracle_slice(
                    oracle_record(bytes@, cursor + 1 + j),
                ),
        decreases request_count - k,
    {
        assert((cursor + 1 + k + 1) * ORACLE_RECORD_BYTES <= bytes.len());
        let raw = raw_record(bytes, cursor + 1 + k as usize);
        let row_begin: u32 = le_u32(raw, 32);
        let row_end: u32 = le_u32(raw, 36);
        let scheduled_tokens: u32 = le_u32(raw, 40);
        let packed_index: u32 = le_u32(raw, 44);
        if le_u16(raw, 6) != ORACLE_SLICE || le_u64(raw, 8) != timestamp_ns || le_u64(raw, 16) != 0
            || le_u32(raw, 48) != request_count || le_u32(raw, 52) != total_tokens || le_u32(
            raw,
            56,
        ) != 0 || le_u32(raw, 60) != pid || packed_index != k || row_begin != expected || row_end
            < row_begin || row_end - row_begin != scheduled_tokens || scheduled_tokens == 0 {
            proof {
                assert(!belongs(bytes@, cursor as int, k as int));
                first_stray_stays(
                    bytes@,
                    cursor as int,
                    (k + 1) as nat,
                    request_count as nat,
                );
            }
            return Err(k as usize);
        }
        assert(belongs(bytes@, cursor as int, k as int));
        slices.push(
            OracleSlice {
                request_id: le_u64(raw, 24),
                row_begin,
                row_end,
                scheduled_tokens,
                packed_index,
            },
        );
        expected = row_end;
        k += 1;
    }
    assert(slices@ =~= observation_at(bytes@, cursor as int).slices);
    Ok(slices)
}

/// Reads the observations of an oracle trace, and how many records there are.
pub fn load_oracle(bytes: &[u8]) -> (r: Result<(Vec<OracleObservation>, u64), String>)
    ensures
        match (r, oracle_reading(bytes@)) {
            (Ok((observations, records)), Ok(expected)) => observation_models(observations@)
                == expected && records == bytes@.len() / ORACLE_RECORD_BYTES as nat,
            (Err(error), Err(expected)) => error@ == expected,
            _ => false,
        },
{
    let size: usize = bytes.len();
    if size == 0 || size > MAX_INPUT_BYTES || size % ORACLE_RECORD_BYTES != 0 {
        return Err(size_error("invalid packing-oracle size: ", size));
    }
    let count: usize = size / ORACLE_RECORD_BYTES;
    let mut i: usize = 0;
    while i < count
        invariant
            i <= count,
            count == bytes@.len() / ORACLE_RECORD_BYTES as nat,
            count * ORACLE_RECORD_BYTES == bytes@.len(),
            0 < bytes@.len() <= MAX_INPUT_BYTES,
            bytes@.len() % ORACLE_RECORD_BYTES as nat == 0,
            first_foreign(bytes@, i as nat) is None,
        decreases count - i,
    {
        let raw = raw_record(bytes, i);
        if le_u32(raw, 0) != ORACLE_MAGIC || le_u16(raw, 4) != ORACLE_VERSION {
            proof {
                first_foreign_stays(bytes@, (i + 1) as nat, count as nat);
            }
            return Err(size_error("invalid packing-oracle record ", i));
        }
        i += 1;
    }
    let ghost whole = observations_from(bytes@, 0, count as nat);
    let mut observations: Vec<OracleObservation> = Vec::new();
    let mut cursor: usize = 0;
    assert(observation_models(observations@) =~= Seq::<ObservationModel>::empty());
    proof {
        if let Ok(all) = whole {
            assert(observation_models(observations@) + all =~= all);
        }
    }
    while cursor < count
        invariant
            cursor <= count,
            count == bytes@.len() / ORACLE_RECORD_BYTES as nat,
            count * ORACLE_RECORD_BYTES == bytes@.len(),
            bytes@.len() <= MAX_INPUT_BYTES,
            whole == observations_from(bytes@, 0, count as nat),
            oracle_reading(bytes@) == whole,
            whole == followed_by(
                observation_models(observations@),
                observations_from(bytes@, cursor as nat, count as nat),
            ),
        decreases count - cursor,
    {
        let begin = raw_record(bytes, cursor);
        if le_u16(begin, 6) != ORACLE_BEGIN {
            return Err(size_error("packing slice without begin at record ", cursor));
        }
        let timestamp_ns: u64 = le_u64(begin, 8);
        let request_count: u32 = le_u32(begin, 48);
        let total_tokens: u32 = le_u32(begin, 52);
        let flags: u32 = le_u32(begin, 56);
        let pid: u32 = le_u32(begin, 60);
        if request_count == 0 || request_count > 65_536 || le_u64(begin, 16) != 0 || le_u64(
            begin,
            24,
        ) != 0 || le_u32(begin, 32) != 0 || le_u32(begin, 36) != total_tokens || le_u32(begin, 40)
            != total_tokens || le_u32(begin, 44) != 0 {
            return Err(size_error("invalid packing begin at record ", cursor));
        }
        let next: usize = cursor + 1 + request_count as usize;
        if next > count {
            return Err("truncated packing-oracle observation".to_owned());
        }
        let slices = match read_slices(bytes, cursor, request_count) {
            Ok(slices) => slices,
            Err(k) => {
                proof {
                    stray_is_inside(bytes@, cursor as int, request_count as nat);
                }
                return Err(size_error("invalid packing slice at record ", cursor + 1 + k));
            },
        };
        let covered: u32 = slices[slices.len() - 1].row_end;
        proof {
            assert(covered == oracle_rows_before(
                bytes@,
                cursor as int,
                request_count as int,
            ));
        }
        if covered != total_tokens {
            return Err("packing-oracle ranges do not cover total tokens".to_owned());
        }
        let observation = OracleObservation {
            timestamp_ns,
            request_count,
            total_tokens,
            flags,
            pid,
            slices,
        };
        let ghost before = observation_models(observations@);
        let ghost model = observation_model(observation);
        assert(model =~= observation_at(bytes@, cursor as int));
        observations.push(observation);
        proof {
            assert(observation_models(observations@) =~= before.push(model));
            if let Ok(rest) = observations_from(bytes@, next as nat, count as nat) {
                assert(before + (seq![model] + rest) =~= before.push(model) + rest);
            }
        }
        cursor = next;
    }
    assert(observation_models(observations@) + Seq::<ObservationModel>::empty()
        =~= observation_models(observations@));
    Ok((observations, count as u64))
}

proof fn stray_is_inside(s: Seq<u8>, cursor: int, count: nat)
    ensures
        first_stray(s, cursor, count) matches Some(k) ==> k < count,
    decreases count,
{
    if count > 0 {
        stray_is_inside(s, cursor, (count - 1) as nat);
    }
}

// The check.

/// Whether the time lies in the step.
pub open spec fn spans(step: StepModel, timestamp_ns: u64) -> bool {
    step.begin.timestamp_ns <= timestamp_ns <= step.end_timestamp_ns
}

/// The first step that the time lies in.
pub open spec fn step_at(timestamp_ns: u64, steps: Seq<StepModel>) -> Option<int>
    decreases steps.len(),
{
    if steps.len() == 0 {
        None
    } else {
        match step_at(timestamp_ns, steps.drop_last()) {
            Some(i) => Some(i),
            None => if spans(steps.last(), timestamp_ns) {
                Some(steps.len() - 1)
            } else {
                None
            },
        }
    }
}

/// The first step that the time lies in.
pub fn step_for_timestamp(timestamp_ns: u64, steps: &[Step]) -> (r: Option<usize>)
    ensures
        step_at(timestamp_ns, step_models(steps@)) == match r {
            Some(i) => Some(i as int),
            None => None,
        },
        r matches Some(i) ==> i < steps@.len(),
{
    let ghost models = step_models(steps@);
    let mut i: usize = 0;
    assert(models.take(0) =~= Seq::<StepModel>::empty());
    while i < steps.len()
        invariant
            i <= steps.len(),
            models == step_models(steps@),
            step_at(timestamp_ns, models.take(i as int)) is None,
        decreases steps.len() - i,
    {
        assert(models.take(i + 1).drop_last() =~= models.take(i as int));
        if timestamp_ns >= steps[i].begin.timestamp_ns && timestamp_ns <= steps[i].end_timestamp_ns {
            proof {
                first_step_stays(timestamp_ns, models, i + 1);
            }
            return Some(i);
        }
        i += 1;
    }
    assert(models.take(models.len() as int) =~= models);
    None
}

proof fn first_step_stays(timestamp_ns: u64, steps: Seq<StepModel>, n: int)
    requires
        0 <= n <= steps.len(),
        step_at(timestamp_ns, steps.take(n)) is Some,
    ensures
        step_at(timestamp_ns, steps) == step_at(timestamp_ns, steps.take(n)),
    decreases steps.len() - n,
{
    if n < steps.len() {
        assert(steps.take(n + 1).drop_last() =~= steps.take(n));
        first_step_stays(timestamp_ns, steps, n + 1);
    } else {
        assert(steps.take(n) =~= steps);
    }
}

/// The row behind those of the first slices, as far as it can be counted.
pub open spec fn predicted_row(slices: Seq<SemanticWireRecord>, n: int) -> u32
    decreases n,
{
    if n <= 0 {
        0
    } else {
        let row = predicted_row(slices, n - 1) + slices[n - 1].scheduled_tokens;
        if row > u32::MAX {
            u32::MAX
        } else {
            row as u32
        }
    }
}

/// Whether the observed slice is not the predicted one.
pub open spec fn slice_differs(step: StepModel, o: ObservationModel, k: int) -> bool {
    let predicted = step.slices[k];
    let actual = o.slices[k];
    ||| actual.request_id != predicted.request_id
    ||| actual.scheduled_tokens != predicted.scheduled_tokens
    ||| actual.row_begin != predicted_row(step.slices, k)
    ||| actual.row_end != predicted_row(step.slices, k + 1)
    ||| actual.packed_index != k
}

/// How many of the first slices differ.
pub open spec fn slices_differing(step: StepModel, o: ObservationModel, n: int) -> nat
    decreases n,
{
    if n <= 0 {
        0
    } else {
        slices_differing(step, o, n - 1) + if slice_differs(step, o, n - 1) {
            1nat
        } else {
            0
        }
    }
}

/// Whether the observation is of another size than the step.
pub open spec fn size_differs(step: StepModel, o: ObservationModel) -> bool {
    o.request_count != step.slices.len() || o.total_tokens != step.begin.scheduled_tokens
        || o.slices.len() != step.slices.len()
}

pub open spec fn shorter(a: nat, b: nat) -> nat {
    if a < b {
        a
    } else {
        b
    }
}

/// How often the observation contradicts the prediction.
pub open spec fn contradictions(step: StepModel, o: ObservationModel) -> nat {
    slices_differing(step, o, shorter(step.slices.len(), o.slices.len()) as int) + if size_differs(
        step,
        o,
    ) {
        1nat
    } else {
        0
    }
}

pub open spec fn capped(n: nat) -> u64 {
    if n > u64::MAX {
        u64::MAX
    } else {
        n as u64
    }
}

/// The step of an observation, and how often it was contradicted.
#[derive(Clone, Copy, Debug, PartialEq, Eq, Structural)]
pub struct Verdict {
    pub step_index: usize,
    pub mismatches: u64,
    pub matched: bool,
}

pub open spec fn verdict_of(o: ObservationModel, steps: Seq<StepModel>) -> Option<Verdict> {
    match step_at(o.timestamp_ns, steps) {
        Some(i) => Some(
            Verdict {
                step_index: i as usize,
                mismatches: capped(contradictions(steps[i], o)),
                matched: contradictions(steps[i], o) == 0 && o.flags == ORACLE_COMPLETE_FLAGS,
            },
        ),
        None => None,
    }
}

/// The counts of a comparison.
#[derive(Clone, Copy, Debug, PartialEq, Eq, Structural)]
pub struct PackingCounts {
    pub assigned: u64,
    pub unassigned: u64,
    pub duplicate_steps: u64,
    pub flag_failures: u64,
    pub range_mismatches: u64,
    pub mixed_steps: u64,
}

/// Whether one of the observations lies in the step.
pub open spec fn observed(os: Seq<ObservationModel>, steps: Seq<StepModel>, i: int) -> bool {
    exists|j: int| 0 <= j < os.len() && step_at((#[trigger] os[j]).timestamp_ns, steps) == Some(i)
}

pub open spec fn one_if(condition: bool) -> nat {
    if condition {
        1
    } else {
        0
    }
}

pub open spec fn assigned_count(os: Seq<ObservationModel>, steps: Seq<StepModel>) -> nat
    decreases os.len(),
{
    if os.len() == 0 {
        0
    } else {
        assigned_count(os.drop_last(), steps) + one_if(
            step_at(os.last().timestamp_ns, steps) is Some,
        )
    }
}

/// How many observations lie in a step that an earlier one lies in.
pub open spec fn duplicate_count(os: Seq<ObservationModel>, steps: Seq<StepModel>) -> nat
    decreases os.len(),
{
    if os.len() == 0 {
        0
    } else {
        duplicate_count(os.drop_last(), steps) + one_if(
            step_at(os.last().timestamp_ns, steps) matches Some(i) && observed(
                os.drop_last(),
                steps,
                i,
            ),
        )
    }
}

/// How many observations that lie in a step are incomplete.
pub open spec fn incomplete_count(os: Seq<ObservationModel>, steps: Seq<StepModel>) -> nat
    decreases os.len(),
{
    if os.len() == 0 {
        0
    } else {
        incomplete_count(os.drop_last(), steps) + one_if(
            step_at(os.last().timestamp_ns, steps) is Some && os.last().flags
                != ORACLE_COMPLETE_FLAGS,
        )
    }
}

pub open spec fn contradiction_count(os: Seq<ObservationModel>, steps: Seq<StepModel>) -> nat
    decreases os.len(),
{
    if os.len() == 0 {
        0
    } else {
        contradiction_count(os.drop_last(), steps) + match step_at(os.last().timestamp_ns, steps) {
            Some(i) => contradictions(steps[i], os.last()),
            None => 0,
        }
    }
}

/// How many observations lie in a step that requests share.
pub open spec fn mixed_count(os: Seq<ObservationModel>, steps: Seq<StepModel>) -> nat
    decreases os.len(),
{
    if os.len() == 0 {
        0
    } else {
        mixed_count(os.drop_last(), steps) + one_if(
            step_at(os.last().timestamp_ns, steps) matches Some(i) && steps[i].slices.len() > 1,
        )
    }
}

pub open spec fn counts_of(os: Seq<ObservationModel>, steps: Seq<StepModel>) -> PackingCounts {
    PackingCounts {
        assigned: assigned_count(os, steps) as u64,
        unassigned: (os.len() - assigned_count(os, steps)) as u64,
        duplicate_steps: duplicate_count(os, steps) as u64,
        flag_failures: incomplete_count(os, steps) as u64,
        range_mismatches: capped(contradiction_count(os, steps)),
        mixed_steps: mixed_count(os, steps) as u64,
    }
}

/// How many of the first steps no observation lies in.
pub open spec fn missing_count(os: Seq<ObservationModel>, steps: Seq<StepModel>, n: int) -> nat
    decreases n,
{
    if n <= 0 {
        0
    } else {
        missing_count(os, steps, n - 1) + one_if(!observed(os, steps, n - 1))
    }
}

/// The outcome of a comparison.
#[derive(Debug)]
pub struct Comparison {
    pub verdicts: Vec<Option<Verdict>>,
    pub counts: PackingCounts,
    pub missing_steps: u64,
    pub passed: bool,
}

/// Whether the oracle confirms the prediction: every step has exactly one
/// observation, nothing was lost or contradicted, and requests did share steps.
pub open spec fn confirmed(
    os: Seq<ObservationModel>,
    steps: Seq<StepModel>,
    semantic_loss: u64,
) -> bool {
    &&& semantic_loss == 0
    &&& assigned_count(os, steps) == steps.len()
    &&& missing_count(os, steps, steps.len() as int) == 0
    &&& duplicate_count(os, steps) == 0
    &&& incomplete_count(os, steps) == 0
    &&& contradiction_count(os, steps) == 0
    &&& mixed_count(os, steps) != 0
}

fn count_contradictions(step: &Step, o: &OracleObservation) -> (r: u64)
    ensures
        r == capped(contradictions(step_model(*step), observation_model(*o))),
{
    let ghost sm = step_model(*step);
    let ghost om = observation_model(*o);
    let n: usize = if step.slices.len() < o.slices.len() {
        step.slices.len()
    } else {
        o.slices.len()
    };
    let mut total: u64 = 0;
    let mut row: u32 = 0;
    let mut k: usize = 0;
    while k < n
        invariant
            k <= n,
            n <= step.slices.len(),
            n <= o.slices.len(),
            sm == step_model(*step),
            om == observation_model(*o),
            row == predicted_row(sm.slices, k as int),
            total == slices_differing(sm, om, k as int),
            total <= k,
        decreases n - k,
    {
        let predicted = step.slices[k];
        let actual = o.slices[k];
        let row_end: u32 = row.saturating_add(predicted.scheduled_tokens);
        if actual.request_id != predicted.request_id || actual.scheduled_tokens
            != predicted.scheduled_tokens || actual.row_begin != row || actual.row_end != row_end
            || actual.packed_index as usize != k {
            total = total + 1;
        }
        row = row_end;
        k += 1;
    }
    if o.request_count as usize != step.slices.len() || o.total_tokens
        != step.begin.scheduled_tokens || o.slices.len() != step.slices.len() {
        total = total.saturating_add(1);
    }
    total
}

proof fn counts_are_bounded(os: Seq<ObservationModel>, steps: Seq<StepModel>)
    ensures
        assigned_count(os, steps) <= os.len(),
        duplicate_count(os, steps) <= os.len(),
        incomplete_count(os, steps) <= os.len(),
        mixed_count(os, steps) <= os.len(),
    decreases os.len(),
{
    if os.len() > 0 {
        counts_are_bounded(os.drop_last(), steps);
    }
}

proof fn step_is_inside(timestamp_ns: u64, steps: Seq<StepModel>)
    ensures
        step_at(timestamp_ns, steps) matches Some(i) ==> 0 <= i < steps.len(),
    decreases steps.len(),
{
    if steps.len() > 0 {
        step_is_inside(timestamp_ns, steps.drop_last());
    }
}

/// Compares the observations with the steps.
#[verifier::rlimit(30)]
pub fn compare_packing(
    steps: &[Step],
    observations: &[OracleObservation],
    semantic_loss: u64,
) -> (r: Comparison)
    ensures
        ({
            let os = observation_models(observations@);
            let ss = step_models(steps@);
            &&& r.verdicts@ == os.map_values(|o: ObservationModel| verdict_of(o, ss))
            &&& r.counts == counts_of(os, ss)
            &&& r.missing_steps == missing_count(os, ss, ss.len() as int)
            &&& r.passed == confirmed(os, ss, semantic_loss)
        }),
{
    let ghost os = observation_models(observations@);
    let ghost ss = step_models(steps@);
    let mut seen: Vec<bool> = Vec::new();
    let mut i: usize = 0;
    while i < steps.len()
        invariant
            i <= steps.len(),
            seen@.len() == i,
            forall|k: int| 0 <= k < i ==> !#[trigger] seen@[k],
        decreases steps.len() - i,
    {
        seen.push(false);
        i += 1;
    }
    let mut verdicts: Vec<Option<Verdict>> = Vec::new();
    let mut counts = PackingCounts {
        assigned: 0,
        unassigned: 0,
        duplicate_steps: 0,
        flag_failures: 0,
        range_mismatches: 0,
        mixed_steps: 0,
    };
    let mut j: usize = 0;
    assert(os.take(0) =~= Seq::<ObservationModel>::empty());
    while j < observations.len()
        invariant
            j <= observations.len(),
            os == observation_models(observations@),
            ss == step_models(steps@),
            seen@.len() == steps@.len(),
            forall|k: int|
                0 <= k < seen@.len() ==> #[trigger] seen@[k] == observed(
                    os.take(j as int),
                    ss,
                    k,
                ),
            verdicts@.len() == j,
            forall|k: int| 0 <= k < j ==> #[trigger] verdicts@[k] == verdict_of(os[k], ss),
            counts == counts_of(os.take(j as int), ss),
        decreases observations.len() - j,
    {
        let observation = &observations[j];
        let ghost front = os.take(j as int);
        let ghost next = os.take(j + 1);
        proof {
            assert(next.drop_last() =~= front);
            assert(next.last() == observation_model(*observation));
            assert(os[j as int] == observation_model(*observation));
            counts_are_bounded(front, ss);
            step_is_inside(observation.timestamp_ns, ss);
            assert forall|k: int| observed(next, ss, k) == (observed(front, ss, k) || step_at(
                observation.timestamp_ns,
                ss,
            ) == Some(k)) by {
                observed_grows(os, ss, j as int, k);
            }
        }
        match step_for_timestamp(observation.timestamp_ns, steps) {
            None => {
                counts.unassigned = counts.unassigned + 1;
                verdicts.push(None);
            },
            Some(index) => {
                let step = &steps[index];
                assert(ss[index as int] == step_model(*step));
                counts.assigned = counts.assigned + 1;
                if seen[index] {
                    counts.duplicate_steps = counts.duplicate_steps + 1;
                }
                seen.set(index, true);
                if observation.flags != ORACLE_COMPLETE_FLAGS {
                    counts.flag_failures = counts.flag_failures + 1;
                }
                if step.slices.len() > 1 {
                    counts.mixed_steps = counts.mixed_steps + 1;
                }
                let mismatches: u64 = count_contradictions(step, observation);
                counts.range_mismatches = counts.range_mismatches.saturating_add(mismatches);
                verdicts.push(
                    Some(
                        Verdict {
                            step_index: index,
                            mismatches,
                            matched: mismatches == 0 && observation.flags == ORACLE_COMPLETE_FLAGS,
                        },
                    ),
                );
            },
        }
        j += 1;
    }
    assert(os.take(os.len() as int) =~= os);
    let mut missing_steps: u64 = 0;
    let mut i: usize = 0;
    while i < seen.len()
        invariant
            i <= seen.len(),
            forall|k: int|
                0 <= k < seen@.len() ==> #[trigger] seen@[k] == observed(os, ss, k),
            missing_steps == missing_count(os, ss, i as int),
            missing_steps <= i,
        decreases seen.len() - i,
    {
        if !seen[i] {
            missing_steps = missing_steps + 1;
        }
        i += 1;
    }
    proof {
        counts_are_bounded(os, ss);
        assert(verdicts@ =~= os.map_values(|o: ObservationModel| verdict_of(o, ss)));
    }
    let passed = semantic_loss == 0 && counts.assigned == steps.len() as u64 && missing_steps == 0
        && counts.duplicate_steps == 0 && counts.flag_failures == 0 && counts.range_mismatches == 0
        && counts.mixed_steps != 0;
    Comparison { verdicts, counts, missing_steps, passed }
}

proof fn observed_grows(os: Seq<ObservationModel>, steps: Seq<StepModel>, j: int, k: int)
    requires
        0 <= j < os.len(),
    ensures
        observed(os.take(j + 1), steps, k) == (observed(os.take(j), steps, k) || step_at(
            os[j].timestamp_ns,
            steps,
        ) == Some(k)),
{
    let front = os.take(j);
    let next = os.take(j + 1);
    if observed(front, steps, k) {
        let m = choose|m: int|
            0 <= m < front.len() && step_at((#[trigger] front[m]).timestamp_ns, steps) == Some(k);
        assert(next[m] == front[m]);
    }
    if step_at(os[j].timestamp_ns, steps) == Some(k) {
        assert(next[j] == os[j]);
    }
    if observed(next, steps, k) {
        let m = choose|m: int|
            0 <= m < next.len() && step_at((#[trigger] next[m]).timestamp_ns, steps) == Some(k);
        if m < j {
            assert(front[m] == next[m]);
        }
    }
}

/// Where the oracle confirms the prediction, each step was observed, and every
/// observation of it gives each slice the rows that were predicted.
pub proof fn confirmed_rows_are_predicted(
    os: Seq<ObservationModel>,
    steps: Seq<StepModel>,
    semantic_loss: u64,
    j: int,
)
    requires
        confirmed(os, steps, semantic_loss),
        0 <= j < os.len(),
        step_at(os[j].timestamp_ns, steps) is Some,
    ensures
        ({
            let step = steps[step_at(os[j].timestamp_ns, steps)->0];
            &&& os[j].slices.len() == step.slices.len()
            &&& forall|k: int|
                0 <= k < step.slices.len() ==> {
                    &&& (#[trigger] os[j].slices[k]).request_id == step.slices[k].request_id
                    &&& os[j].slices[k].row_begin == predicted_row(step.slices, k)
                    &&& os[j].slices[k].row_end == predicted_row(step.slices, k + 1)
                }
        }),
    decreases os.len(),
{
    no_contradiction(os, steps, j);
    let step = steps[step_at(os[j].timestamp_ns, steps)->0];
    assert forall|k: int| 0 <= k < step.slices.len() implies !#[trigger] slice_differs(
        step,
        os[j],
        k,
    ) by {
        no_slice_differs(step, os[j], step.slices.len() as int, k);
    }
    assert forall|k: int| 0 <= k < step.slices.len() implies {
        &&& (#[trigger] os[j].slices[k]).request_id == step.slices[k].request_id
        &&& os[j].slices[k].row_begin == predicted_row(step.slices, k)
        &&& os[j].slices[k].row_end == predicted_row(step.slices, k + 1)
    } by {
        assert(!slice_differs(step, os[j], k));
    }
}

proof fn no_contradiction(os: Seq<ObservationModel>, steps: Seq<StepModel>, j: int)
    requires
        contradiction_count(os, steps) == 0,
        0 <= j < os.len(),
        step_at(os[j].timestamp_ns, steps) is Some,
    ensures
        contradictions(steps[step_at(os[j].timestamp_ns, steps)->0], os[j]) == 0,
    decreases os.len(),
{
    if j < os.len() - 1 {
        no_contradiction(os.drop_last(), steps, j);
    }
}

proof fn no_slice_differs(step: StepModel, o: ObservationModel, n: int, k: int)
    requires
        slices_differing(step, o, n) == 0,
        0 <= k < n,
    ensures
        !slice_differs(step, o, k),
    decreases n,
{
    if k < n - 1 {
        no_slice_differs(step, o, n - 1, k);
    }
}

} // verus!
