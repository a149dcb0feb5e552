//! The lifecycle of a request: from the client's send through frontend,
//! scheduler and device to the tokens that the client received.

use crate::digits::{append_decimal, decimal};
use crate::index::{has_id, IdTable, Identified};
use crate::order::{arrange, arranged, Keyed};
use crate::semantic::{
    bad_size, is_bad_size, marks_loss, record_at, records_in, RecordError, SemanticRecordFlags,
    SemanticRecordKind, SemanticWireRecord, SEMANTIC_RECORD_BYTES,
};
use crate::tables::{number_error, number_error_text, read_u64, u64_of, NumberShape, TAB};
use crate::text::{
    fields, fields_of, is_text, lines, lines_of, not_text, not_text_words, same, views,
};
use vstd::prelude::*;
use vstd::string::*;
use vstd::utf8::{encode_utf8, valid_utf8};

verus! {

pub const MAX_TRACE_BYTES: usize = 67_108_864;

pub const MAX_STEP_BYTES: usize = 8_388_608;

// Records.

pub open spec fn trace_size_error(size: nat, path: Seq<char>) -> Seq<char> {
    "invalid lifecycle trace size "@ + decimal(size) + ": "@ + path
}

pub open spec fn record_error(i: nat, path: Seq<char>, error: RecordError) -> Seq<char> {
    "invalid record "@ + decimal(i) + " in "@ + path + ": "@ + error.words()
}

pub open spec fn gap_error(i: nat, path: Seq<char>) -> Seq<char> {
    "sequence gap at record "@ + decimal(i) + ": "@ + path
}

/// The number behind so many numbers, where numbers begin anew behind the last.
pub open spec fn number_after(base: u64, count: nat) -> int {
    (base + count) % 0x1_0000_0000_0000_0000
}

/// A record of a trace whose first record has the number `base`: it must be
/// readable, follow the one before it, and tell of no loss.
pub open spec fn next_record(
    base: Option<u64>,
    i: nat,
    record: Result<SemanticWireRecord, RecordError>,
    path: Seq<char>,
) -> Result<SemanticWireRecord, Seq<char>> {
    match record {
        Err(error) => Err(record_error(i, path, error)),
        Ok(record) => {
            let base = match base {
                Some(base) => base,
                None => record.sequence,
            };
            if record.sequence != number_after(base, i) {
                Err(gap_error(i, path))
            } else if marks_loss(record) {
                Err("loss marker in "@ + path)
            } else {
                Ok(record)
            }
        },
    }
}

fn number_behind(base: u64, count: u64) -> (r: u64)
    ensures
        r == number_after(base, count as nat),
{
    base.wrapping_add(count)
}

fn check_record(
    base: Option<u64>,
    i: usize,
    record: Result<SemanticWireRecord, RecordError>,
    path: &str,
) -> (r: Result<SemanticWireRecord, String>)
    ensures
        match (r, next_record(base, i as nat, record, path@)) {
            (Ok(record), Ok(expected)) => record == expected,
            (Err(error), Err(expected)) => error@ == expected,
            _ => false,
        },
{
    let record = match record {
        Ok(record) => record,
        Err(error) => {
            let mut text = "invalid record ".to_owned();
            append_decimal(&mut text, i as u64);
            text.append(" in ");
            text.append(path);
            text.append(": ");
            text.append(error.message());
            return Err(text);
        },
    };
    let base: u64 = match base {
        Some(base) => base,
        None => record.sequence,
    };
    if record.sequence != number_behind(base, i as u64) {
        let mut text = "sequence gap at record ".to_owned();
        append_decimal(&mut text, i as u64);
        text.append(": ");
        text.append(path);
        return Err(text);
    }
    if record.flags & SemanticRecordFlags::DROPPED_BEFORE != 0 {
        let mut text = "loss marker in ".to_owned();
        text.append(path);
        return Err(text);
    }
    Ok(record)
}

/// The number of the first record.
pub open spec fn base_of(records: Seq<SemanticWireRecord>) -> Option<u64> {
    if records.len() == 0 {
        None
    } else {
        Some(records[0].sequence)
    }
}

/// The first records of a trace.
pub open spec fn unbroken(
    records: Seq<Result<SemanticWireRecord, RecordError>>,
    n: int,
    path: Seq<char>,
) -> Result<Seq<SemanticWireRecord>, Seq<char>>
    decreases n,
{
    if n <= 0 {
        Ok(Seq::empty())
    } else {
        match unbroken(records, n - 1, path) {
            Err(error) => Err(error),
            Ok(front) => match next_record(
                base_of(front),
                (n - 1) as nat,
                records[n - 1],
                path,
            ) {
                Err(error) => Err(error),
                Ok(record) => Ok(front.push(record)),
            },
        }
    }
}

/// The records of a lifecycle trace.
pub open spec fn trace_records(s: Seq<u8>, path: Seq<char>) -> Result<
    Seq<SemanticWireRecord>,
    Seq<char>,
> {
    if bad_size(s.len(), MAX_TRACE_BYTES as nat) {
        Err(trace_size_error(s.len(), path))
    } else {
        unbroken(records_in(s), records_in(s).len() as int, path)
    }
}

proof fn break_stays(
    records: Seq<Result<SemanticWireRecord, RecordError>>,
    n: int,
    m: int,
    path: Seq<char>,
)
    requires
        0 <= n <= m,
        unbroken(records, n, path) is Err,
    ensures
        unbroken(records, m, path) == unbroken(records, n, path),
    decreases m - n,
{
    if n < m {
        break_stays(records, n, m - 1, path);
    }
}

/// Reads the records of a lifecycle trace.
pub fn load_records(bytes: &[u8], path: &str) -> (r: Result<Vec<SemanticWireRecord>, String>)
    ensures
        match (r, trace_records(bytes@, path@)) {
            (Ok(records), Ok(expected)) => records@ == expected,
            (Err(error), Err(expected)) => error@ == expected,
            _ => false,
        },
{
    if is_bad_size(bytes.len(), MAX_TRACE_BYTES) {
        let mut text = "invalid lifecycle trace size ".to_owned();
        append_decimal(&mut text, bytes.len() as u64);
        text.append(": ");
        text.append(path);
        return Err(text);
    }
    let count: usize = bytes.len() / SEMANTIC_RECORD_BYTES;
    let ghost all = records_in(bytes@);
    let mut records: Vec<SemanticWireRecord> = Vec::new();
    let mut i: usize = 0;
    while i < count
        invariant
            i <= count,
            all == records_in(bytes@),
            count == all.len(),
            records@.len() == i,
            unbroken(all, i as int, path@) == Ok::<Seq<SemanticWireRecord>, Seq<char>>(records@),
            !bad_size(bytes@.len(), MAX_TRACE_BYTES as nat),
            trace_records(bytes@, path@) == unbroken(all, count as int, path@),
        decreases count - i,
    {
        proof {
            if unbroken(all, i + 1, path@) is Err {
                break_stays(all, i + 1, count as int, path@);
            }
        }
        let base: Option<u64> = if i == 0 {
            None
        } else {
            Some(records[0].sequence)
        };
        let record = check_record(base, i, record_at(bytes, i), path)?;
        records.push(record);
        i += 1;
    }
    Ok(records)
}

// Step timings.

/// When a step ran on the host and on the device.
#[derive(Clone, Copy, Debug, PartialEq, Eq, Structural)]
pub struct StepTiming {
    pub step_id: u64,
    pub begin_ns: u64,
    pub first_gpu_ns: u64,
    pub last_gpu_ns: u64,
    pub end_ns: u64,
}

/// The first column with the name.
pub open spec fn column(names: Seq<Seq<u8>>, name: Seq<char>) -> Option<int>
    decreases names.len(),
{
    if names.len() == 0 {
        None
    } else {
        match column(names.drop_last(), name) {
            Some(i) => Some(i),
            None => if names.last() == encode_utf8(name) {
                Some(names.len() - 1)
            } else {
                None
            },
        }
    }
}

proof fn column_stays(names: Seq<Seq<u8>>, name: Seq<char>, n: int)
    requires
        0 <= n <= names.len(),
        column(names.take(n), name) is Some,
    ensures
        column(names, name) == column(names.take(n), name),
    decreases names.len() - n,
{
    if n < names.len() {
        assert(names.take(n + 1).drop_last() =~= names.take(n));
        column_stays(names, name, n + 1);
    } else {
        assert(names.take(n) =~= names);
    }
}

pub open spec fn missing_column(name: Seq<char>) -> Seq<char> {
    "step table lacks "@ + name
}

fn find_column(names: &Vec<&[u8]>, name: &str) -> (r: Result<usize, String>)
    ensures
        match (r, column(views(names@), name@)) {
            (Ok(i), Some(expected)) => i == expected && i < names@.len(),
            (Err(error), None) => error@ == missing_column(name@),
            _ => false,
        },
{
    let ghost all = views(names@);
    let mut i: usize = 0;
    assert(all.take(0) =~= Seq::<Seq<u8>>::empty());
    while i < names.len()
        invariant
            i <= names.len(),
            all == views(names@),
            column(all.take(i as int), name@) is None,
        decreases names.len() - i,
    {
        assert(all.take(i + 1).drop_last() =~= all.take(i as int));
        if same(names[i], name.as_bytes()) {
            proof {
                column_stays(all, name@, i + 1);
            }
            return Ok(i);
        }
        i += 1;
    }
    assert(all.take(all.len() as int) =~= all);
    let mut text = "step table lacks ".to_owned();
    text.append(name);
    Err(text)
}

/// Where the columns of a step table stand.
#[derive(Clone, Copy, Debug, PartialEq, Eq, Structural)]
pub struct StepColumns {
    pub id: usize,
    pub begin: usize,
    pub first_gpu: usize,
    pub last_gpu: usize,
    pub end: usize,
}

/// The columns that a header names.
pub open spec fn columns_of(names: Seq<Seq<u8>>) -> Result<StepColumns, Seq<char>> {
    if column(names, "step_id"@) is None {
        Err(missing_column("step_id"@))
    } else if column(names, "step_begin_ns"@) is None {
        Err(missing_column("step_begin_ns"@))
    } else if column(names, "first_gpu_start_ns"@) is None {
        Err(missing_column("first_gpu_start_ns"@))
    } else if column(names, "last_gpu_end_ns"@) is None {
        Err(missing_column("last_gpu_end_ns"@))
    } else if column(names, "step_end_ns"@) is None {
        Err(missing_column("step_end_ns"@))
    } else {
        Ok(
            StepColumns {
                id: column(names, "step_id"@)->0 as usize,
                begin: column(names, "step_begin_ns"@)->0 as usize,
                first_gpu: column(names, "first_gpu_start_ns"@)->0 as usize,
                last_gpu: column(names, "last_gpu_end_ns"@)->0 as usize,
                end: column(names, "step_end_ns"@)->0 as usize,
            },
        )
    }
}

fn find_columns(names: &Vec<&[u8]>) -> (r: Result<StepColumns, String>)
    ensures
        match (r, columns_of(views(names@))) {
            (Ok(columns), Ok(expected)) => columns == expected,
            (Err(error), Err(expected)) => error@ == expected,
            _ => false,
        },
{
    let id: usize = find_column(names, "step_id")?;
    let begin: usize = find_column(names, "step_begin_ns")?;
    let first_gpu: usize = find_column(names, "first_gpu_start_ns")?;
    let last_gpu: usize = find_column(names, "last_gpu_end_ns")?;
    let end: usize = find_column(names, "step_end_ns")?;
    Ok(StepColumns { id, begin, first_gpu, last_gpu, end })
}

/// The columns of a row that hold numbers, in the order in which they are read.
pub open spec fn timing_columns(c: StepColumns) -> Seq<(usize, NumberShape)> {
    seq![
        (c.id, NumberShape::U64),
        (c.begin, NumberShape::U64),
        (c.first_gpu, NumberShape::U64),
        (c.last_gpu, NumberShape::U64),
        (c.end, NumberShape::U64),
    ]
}

fn timing_columns_list(c: StepColumns) -> (list: Vec<(usize, NumberShape)>)
    ensures
        list@ == timing_columns(c),
{
    let list: Vec<(usize, NumberShape)> = vec![
        (c.id, NumberShape::U64),
        (c.begin, NumberShape::U64),
        (c.first_gpu, NumberShape::U64),
        (c.last_gpu, NumberShape::U64),
        (c.end, NumberShape::U64),
    ];
    assert(list@ =~= timing_columns(c));
    list
}

/// The timing in a row.
pub open spec fn timing_in(f: Seq<Seq<u8>>, c: StepColumns) -> Result<StepTiming, Seq<char>> {
    if f.len() <= c.id || f.len() <= c.begin || f.len() <= c.first_gpu || f.len() <= c.last_gpu
        || f.len() <= c.end {
        Err("truncated full-step row"@)
    } else {
        match (
            u64_of(f[c.id as int]),
            u64_of(f[c.begin as int]),
            u64_of(f[c.first_gpu as int]),
            u64_of(f[c.last_gpu as int]),
            u64_of(f[c.end as int]),
        ) {
            (
                Some(step_id),
                Some(begin_ns),
                Some(first_gpu_ns),
                Some(last_gpu_ns),
                Some(end_ns),
            ) => Ok(StepTiming { step_id, begin_ns, first_gpu_ns, last_gpu_ns, end_ns }),
            _ => Err(number_error(f, timing_columns(c))),
        }
    }
}

fn read_timing(f: &Vec<&[u8]>, c: StepColumns) -> (r: Result<StepTiming, String>)
    ensures
        match (r, timing_in(views(f@), c)) {
            (Ok(timing), Ok(expected)) => timing == expected,
            (Err(error), Err(expected)) => error@ == expected,
            _ => false,
        },
{
    let n: usize = f.len();
    if n <= c.id || n <= c.begin || n <= c.first_gpu || n <= c.last_gpu || n <= c.end {
        return Err("truncated full-step row".to_owned());
    }
    match (
        read_u64(f[c.id]),
        read_u64(f[c.begin]),
        read_u64(f[c.first_gpu]),
        read_u64(f[c.last_gpu]),
        read_u64(f[c.end]),
    ) {
        (
            Some(step_id),
            Some(begin_ns),
            Some(first_gpu_ns),
            Some(last_gpu_ns),
            Some(end_ns),
        ) => Ok(StepTiming { step_id, begin_ns, first_gpu_ns, last_gpu_ns, end_ns }),
        _ => Err(number_error_text(f, &timing_columns_list(c))),
    }
}

impl Identified for StepTiming {
    open spec fn spec_id(self) -> u64 {
        self.step_id
    }

    fn id(&self) -> (r: u64) {
        self.step_id
    }
}

/// The timings of steps, each found by its step.
pub type StepTable = IdTable<StepTiming>;

/// The timings of the first lines behind the header.
pub open spec fn timings_of(all: Seq<Seq<u8>>, c: StepColumns, n: int) -> Result<
    Seq<StepTiming>,
    Seq<char>,
>
    decreases n,
{
    if n <= 0 {
        Ok(Seq::empty())
    } else {
        match timings_of(all, c, n - 1) {
            Err(error) => Err(error),
            Ok(front) => if !valid_utf8(all[n]) {
                Err(not_text())
            } else {
                match timing_in(fields_of(all[n], TAB), c) {
                    Err(error) => Err(error),
                    Ok(timing) => if has_id(front, timing.step_id) {
                        Err("duplicate full-step ID"@)
                    } else {
                        Ok(front.push(timing))
                    },
                }
            },
        }
    }
}

/// The timings in a step table.
pub open spec fn step_timings(s: Seq<u8>) -> Result<Seq<StepTiming>, Seq<char>> {
    let all = lines_of(s);
    if s.len() == 0 || s.len() > MAX_STEP_BYTES {
        Err("invalid full-step table size"@)
    } else if all.len() == 0 {
        Err("step table is empty"@)
    } else if !valid_utf8(all[0]) {
        Err(not_text())
    } else {
        match columns_of(fields_of(all[0], TAB)) {
            Err(error) => Err(error),
            Ok(c) => match timings_of(all, c, all.len() - 1) {
                Err(error) => Err(error),
                Ok(rows) => if rows.len() == 0 {
                    Err("full-step table has no rows"@)
                } else {
                    Ok(rows)
                },
            },
        }
    }
}

proof fn timing_failure_stays(all: Seq<Seq<u8>>, c: StepColumns, n: int, m: int)
    requires
        0 <= n <= m,
        timings_of(all, c, n) is Err,
    ensures
        timings_of(all, c, m) == timings_of(all, c, n),
    decreases m - n,
{
    if n < m {
        timing_failure_stays(all, c, n, m - 1);
    }
}

/// Reads a step table.
pub fn load_steps(bytes: &[u8]) -> (r: Result<StepTable, String>)
    ensures
        match (r, step_timings(bytes@)) {
            (Ok(table), Ok(expected)) => table.wf() && table.rows() == expected,
            (Err(error), Err(expected)) => error@ == expected,
            _ => false,
        },
{
    if bytes.len() == 0 || bytes.len() > MAX_STEP_BYTES {
        return Err("invalid full-step table size".to_owned());
    }
    let all = lines(bytes);
    let ghost texts = views(all@);
    if all.len() == 0 {
        return Err("step table is empty".to_owned());
    }
    if !is_text(all[0]) {
        return Err(not_text_words().to_owned());
    }
    let names = fields(all[0], TAB);
    let columns = find_columns(&names)?;
    let mut table = StepTable::new();
    let mut n: usize = 1;
    while n < all.len()
        invariant
            1 <= n <= all.len(),
            texts == views(all@),
            texts == lines_of(bytes@),
            valid_utf8(texts[0]),
            0 < bytes@.len() <= MAX_STEP_BYTES,
            columns_of(fields_of(texts[0], TAB)) == Ok::<StepColumns, Seq<char>>(columns),
            table.wf(),
            timings_of(texts, columns, n - 1) == Ok::<Seq<StepTiming>, Seq<char>>(table.rows()),
        decreases all.len() - n,
    {
        proof {
            if timings_of(texts, columns, n as int) is Err {
                timing_failure_stays(texts, columns, n as int, texts.len() - 1);
            }
        }
        if !is_text(all[n]) {
            return Err(not_text_words().to_owned());
        }
        let row = fields(all[n], TAB);
        let timing = read_timing(&row, columns)?;
        if !table.insert(timing) {
            return Err("duplicate full-step ID".to_owned());
        }
        n += 1;
    }
    if table.len() == 0 {
        return Err("full-step table has no rows".to_owned());
    }
    Ok(table)
}

// Finding the records of a request.

/// Which records are looked for.
#[derive(Clone, Copy, Debug, PartialEq, Eq, Structural)]
pub enum Wanted {
    OfKind(SemanticRecordKind),
    OfRequest(SemanticRecordKind, u64),
    OfPeer(SemanticRecordKind, u64),
}

impl Wanted {
    pub open spec fn is_met(self, record: SemanticWireRecord) -> bool {
        match self {
            Wanted::OfKind(kind) => record.kind == kind,
            Wanted::OfRequest(kind, request) => record.kind == kind && record.request_id == request,
            Wanted::OfPeer(kind, peer) => record.kind == kind && record.sequence_id == peer,
        }
    }

    fn meets(self, record: &SemanticWireRecord) -> (r: bool)
        ensures
            r == self.is_met(*record),
    {
        match self {
            Wanted::OfKind(kind) => record.kind == kind,
            Wanted::OfRequest(kind, request) => record.kind == kind && record.request_id == request,
            Wanted::OfPeer(kind, peer) => record.kind == kind && record.sequence_id == peer,
        }
    }
}

/// The wanted records in their order.
pub open spec fn picked(records: Seq<SemanticWireRecord>, wanted: Wanted) -> Seq<SemanticWireRecord>
    decreases records.len(),
{
    if records.len() == 0 {
        Seq::empty()
    } else {
        let front = picked(records.drop_last(), wanted);
        if wanted.is_met(records.last()) {
            front.push(records.last())
        } else {
            front
        }
    }
}

/// The wanted records in their order.
pub fn selected(records: &[SemanticWireRecord], wanted: Wanted) -> (r: Vec<SemanticWireRecord>)
    ensures
        r@ == picked(records@, wanted),
{
    let mut found: Vec<SemanticWireRecord> = Vec::new();
    let mut i: usize = 0;
    assert(records@.take(0) =~= Seq::<SemanticWireRecord>::empty());
    while i < records.len()
        invariant
            i <= records.len(),
            found@ == picked(records@.take(i as int), wanted),
        decreases records.len() - i,
    {
        assert(records@.take(i + 1).drop_last() =~= records@.take(i as int));
        if wanted.meets(&records[i]) {
            found.push(records[i]);
        }
        i += 1;
    }
    assert(records@.take(records@.len() as int) =~= records@);
    found
}

/// The one wanted record.
pub open spec fn the_one(
    records: Seq<SemanticWireRecord>,
    wanted: Wanted,
    absent: Seq<char>,
    duplicated: Seq<char>,
) -> Result<SemanticWireRecord, Seq<char>> {
    let found = picked(records, wanted);
    if found.len() == 0 {
        Err(absent)
    } else if found.len() > 1 {
        Err(duplicated)
    } else {
        Ok(found[0])
    }
}

/// The one boundary of the kind, of the request where one is given.
pub open spec fn boundary_of(
    records: Seq<SemanticWireRecord>,
    kind: SemanticRecordKind,
    request: Option<u64>,
) -> Result<SemanticWireRecord, Seq<char>> {
    the_one(
        records,
        match request {
            Some(request) => Wanted::OfRequest(kind, request),
            None => Wanted::OfKind(kind),
        },
        "required lifecycle boundary is absent"@,
        "required lifecycle boundary is duplicated"@,
    )
}

/// The one boundary of the kind, of the request where one is given.
pub fn exactly_one(
    records: &[SemanticWireRecord],
    kind: SemanticRecordKind,
    request: Option<u64>,
) -> (r: Result<SemanticWireRecord, &'static str>)
    ensures
        match (r, boundary_of(records@, kind, request)) {
            (Ok(record), Ok(expected)) => record == expected,
            (Err(error), Err(expected)) => error@ == expected,
            _ => false,
        },
{
    let wanted = match request {
        Some(request) => Wanted::OfRequest(kind, request),
        None => Wanted::OfKind(kind),
    };
    let found = selected(records, wanted);
    if found.len() == 0 {
        return Err("required lifecycle boundary is absent");
    }
    if found.len() > 1 {
        return Err("required lifecycle boundary is duplicated");
    }
    Ok(found[0])
}

/// The one record of the kind with the peer.
pub open spec fn peer_of(
    records: Seq<SemanticWireRecord>,
    kind: SemanticRecordKind,
    peer: u64,
) -> Result<SemanticWireRecord, Seq<char>> {
    the_one(
        records,
        Wanted::OfPeer(kind, peer),
        "EngineCore admission alias is absent"@,
        "EngineCore admission alias is duplicated"@,
    )
}

/// The one record of the kind with the peer.
pub fn exactly_one_peer(records: &[SemanticWireRecord], kind: SemanticRecordKind, peer: u64) -> (r:
    Result<SemanticWireRecord, &'static str>)
    ensures
        match (r, peer_of(records@, kind, peer)) {
            (Ok(record), Ok(expected)) => record == expected,
            (Err(error), Err(expected)) => error@ == expected,
            _ => false,
        },
{
    let found = selected(records, Wanted::OfPeer(kind, peer));
    if found.len() == 0 {
        return Err("EngineCore admission alias is absent");
    }
    if found.len() > 1 {
        return Err("EngineCore admission alias is duplicated");
    }
    Ok(found[0])
}

/// The first of the earliest records.
pub open spec fn earliest(records: Seq<SemanticWireRecord>) -> Option<SemanticWireRecord>
    decreases records.len(),
{
    if records.len() == 0 {
        None
    } else {
        match earliest(records.drop_last()) {
            Some(record) if record.timestamp_ns <= records.last().timestamp_ns => Some(record),
            _ => Some(records.last()),
        }
    }
}

pub(crate) fn find_earliest(records: &Vec<SemanticWireRecord>) -> (r: Option<SemanticWireRecord>)
    ensures
        r == earliest(records@),
{
    let mut best: Option<SemanticWireRecord> = None;
    let mut i: usize = 0;
    assert(records@.take(0) =~= Seq::<SemanticWireRecord>::empty());
    while i < records.len()
        invariant
            i <= records.len(),
            best == earliest(records@.take(i as int)),
        decreases records.len() - i,
    {
        assert(records@.take(i + 1).drop_last() =~= records@.take(i as int));
        let record = records[i];
        best = match best {
            Some(other) => if other.timestamp_ns <= record.timestamp_ns {
                Some(other)
            } else {
                Some(record)
            },
            None => Some(record),
        };
        i += 1;
    }
    assert(records@.take(records@.len() as int) =~= records@);
    best
}

/// A record with the position of its token.
#[derive(Clone, Copy, Debug, PartialEq, Eq, Structural)]
pub struct Positioned {
    pub position: u64,
    pub record: SemanticWireRecord,
}

impl Keyed for Positioned {
    open spec fn before(self, other: Self) -> bool {
        self.position <= other.position
    }

    proof fn before_is_total(a: Self, b: Self) {
    }

    proof fn before_is_transitive(a: Self, b: Self, c: Self) {
    }

    fn comes_before(&self, other: &Self) -> (r: bool) {
        self.position <= other.position
    }
}

/// Where a record says that its token stands: the engine counts its outputs in
/// the sequence identifier, the others in the prefill field.
pub open spec fn position_of(record: SemanticWireRecord) -> u64 {
    if record.kind == SemanticRecordKind::AcceptedOutputToken {
        record.sequence_id
    } else {
        record.prefill_tokens as u64
    }
}

pub open spec fn positioned(records: Seq<SemanticWireRecord>) -> Seq<Positioned> {
    records.map_values(
        |record: SemanticWireRecord| Positioned { position: position_of(record), record },
    )
}

/// The token records of a request in the order of their positions.
pub open spec fn tokens_of(
    records: Seq<SemanticWireRecord>,
    kind: SemanticRecordKind,
    request: u64,
) -> Seq<Positioned> {
    arranged(positioned(picked(records, Wanted::OfRequest(kind, request))))
}

pub(crate) fn collect_tokens(records: &[SemanticWireRecord], kind: SemanticRecordKind, request: u64) -> (r: Vec<
    Positioned,
>)
    ensures
        r@ == tokens_of(records@, kind, request),
{
    let found = selected(records, Wanted::OfRequest(kind, request));
    let ghost all = positioned(found@);
    let mut list: Vec<Positioned> = Vec::new();
    let mut i: usize = 0;
    while i < found.len()
        invariant
            i <= found.len(),
            all == positioned(found@),
            list@ == all.take(i as int),
        decreases found.len() - i,
    {
        let record = found[i];
        let position: u64 = if record.kind == SemanticRecordKind::AcceptedOutputToken {
            record.sequence_id
        } else {
            record.prefill_tokens as u64
        };
        list.push(Positioned { position, record });
        assert(list@ =~= all.take(i + 1));
        i += 1;
    }
    assert(list@ =~= all);
    arrange(list)
}

// Order.

/// The complaint about an interval that ends before it begins.
pub open spec fn disorder(label: Seq<char>, earlier: u64, later: u64) -> Option<Seq<char>> {
    if later < earlier {
        Some(
            "negative interval "@ + label + ": "@ + decimal(earlier as nat) + " -> "@ + decimal(
                later as nat,
            ),
        )
    } else {
        None
    }
}

/// Checks that an interval does not end before it begins.
pub fn require_order(label: &str, earlier: u64, later: u64) -> (r: Result<(), String>)
    ensures
        match (r, disorder(label@, earlier, later)) {
            (Ok(_), None) => earlier <= later,
            (Err(error), Some(problem)) => error@ == problem,
            _ => false,
        },
{
    if later < earlier {
        let mut text = "negative interval ".to_owned();
        text.append(label);
        text.append(": ");
        append_decimal(&mut text, earlier);
        text.append(" -> ");
        append_decimal(&mut text, later);
        return Err(text);
    }
    Ok(())
}

/// The first of two problems.
pub open spec fn either(a: Option<Seq<char>>, b: Option<Seq<char>>) -> Option<Seq<char>> {
    match a {
        Some(problem) => Some(problem),
        None => b,
    }
}

pub open spec fn problem_in<T>(r: Result<T, Seq<char>>) -> Option<Seq<char>> {
    match r {
        Ok(_) => None,
        Err(problem) => Some(problem),
    }
}

pub open spec fn problem_if(condition: bool, problem: Seq<char>) -> Option<Seq<char>> {
    if condition {
        Some(problem)
    } else {
        None
    }
}

} // verus!
