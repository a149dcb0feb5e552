//! Records of what the serving engine does: steps, the requests that share
//! them, packed token rows and the lifecycle of requests.
//!
//! One record type serves every kind. The fields are named for the step
//! records; in a packed slice the prefill and decode fields are the first row
//! and the row behind the last, in a packed token row they are the row and the
//! position in the sequence, and the sequence identifier of packed records is
//! the packing generation. In a lifecycle record the sequence identifier is
//! the peer request, the prefill field is the token position, and the
//! scheduled field is the token.

use crate::bytes::{
    le16_bytes, le16_round_trip, le32_bytes, le32_round_trip, le64_bytes, le64_round_trip, le_u16,
    le_u32, le_u64, put_u16, put_u32, put_u64, spec_le16, spec_le32, spec_le64,
};
use crate::digits::{
    append_decimal, append_hex, append_padded_hex, decimal, decimal_text, hexadecimal, padded_hex,
};
use vstd::prelude::*;
use vstd::slice::slice_subrange;
use vstd::string::*;

verus! {

/// The bytes of a record in a trace file.
pub const SEMANTIC_RECORD_BYTES: usize = 96;

#[derive(Clone, Copy, Debug, PartialEq, Eq, Structural)]
pub enum SemanticRecordKind {
    EngineStepBegin,
    StepRequestSlice,
    EngineStepEnd,
    PackedLayoutBegin,
    PackedRequestSlice,
    PackedTokenRow,
    AcceptedOutputToken,
    FrontendRequestReceived,
    EngineRequestAdmitted,
    FrontendTokenEmitted,
    FrontendRequestCompleted,
    ClientRequestSent,
    ClientTokenReceived,
    ClientRequestCompleted,
}

#[derive(Clone, Copy, Debug, PartialEq, Eq, Structural)]
pub struct SemanticWireRecord {
    pub kind: SemanticRecordKind,
    pub timestamp_ns: u64,
    pub sequence: u64,
    pub step_id: u64,
    pub request_id: u64,
    pub sequence_id: u64,
    pub scheduled_tokens: u32,
    pub prefill_tokens: u32,
    pub decode_tokens: u32,
    pub queue_depth: u32,
    pub active_requests: u32,
    pub expected_slices: u32,
    pub pid: u32,
    pub tid: u32,
    pub flags: u32,
    pub kv_cache_usage_permyriad: u16,
    pub service_class_id: u16,
    pub phase: u8,
    pub status: u8,
}

pub struct SemanticRecordFlags;

impl SemanticRecordFlags {
    /// Records were lost before this one.
    pub const DROPPED_BEFORE: u32 = 1;
}

/// Whether the record says that records were lost before it.
pub open spec fn marks_loss(r: SemanticWireRecord) -> bool {
    r.flags & SemanticRecordFlags::DROPPED_BEFORE != 0
}

#[derive(Clone, Copy, Debug, PartialEq, Eq, Structural)]
pub enum RecordError {
    Length,
    Kind,
}

impl RecordError {
    pub open spec fn words(self) -> Seq<char> {
        match self {
            RecordError::Length => "Length"@,
            RecordError::Kind => "Kind"@,
        }
    }

    /// The error in a word.
    pub fn message(self) -> (text: &'static str)
        ensures
            text@ == self.words(),
    {
        match self {
            RecordError::Length => "Length",
            RecordError::Kind => "Kind",
        }
    }
}

/// The kind with the number.
pub open spec fn kind_of(code: u8) -> Option<SemanticRecordKind> {
    match code {
        1 => Some(SemanticRecordKind::EngineStepBegin),
        2 => Some(SemanticRecordKind::StepRequestSlice),
        3 => Some(SemanticRecordKind::EngineStepEnd),
        4 => Some(SemanticRecordKind::PackedLayoutBegin),
        5 => Some(SemanticRecordKind::PackedRequestSlice),
        6 => Some(SemanticRecordKind::PackedTokenRow),
        7 => Some(SemanticRecordKind::AcceptedOutputToken),
        8 => Some(SemanticRecordKind::FrontendRequestReceived),
        9 => Some(SemanticRecordKind::EngineRequestAdmitted),
        10 => Some(SemanticRecordKind::FrontendTokenEmitted),
        11 => Some(SemanticRecordKind::FrontendRequestCompleted),
        12 => Some(SemanticRecordKind::ClientRequestSent),
        13 => Some(SemanticRecordKind::ClientTokenReceived),
        14 => Some(SemanticRecordKind::ClientRequestCompleted),
        _ => None,
    }
}

impl SemanticRecordKind {
    pub open spec fn spec_code(self) -> u8 {
        match self {
            SemanticRecordKind::EngineStepBegin => 1,
            SemanticRecordKind::StepRequestSlice => 2,
            SemanticRecordKind::EngineStepEnd => 3,
            SemanticRecordKind::PackedLayoutBegin => 4,
            SemanticRecordKind::PackedRequestSlice => 5,
            SemanticRecordKind::PackedTokenRow => 6,
            SemanticRecordKind::AcceptedOutputToken => 7,
            SemanticRecordKind::FrontendRequestReceived => 8,
            SemanticRecordKind::EngineRequestAdmitted => 9,
            SemanticRecordKind::FrontendTokenEmitted => 10,
            SemanticRecordKind::FrontendRequestCompleted => 11,
            SemanticRecordKind::ClientRequestSent => 12,
            SemanticRecordKind::ClientTokenReceived => 13,
            SemanticRecordKind::ClientRequestCompleted => 14,
        }
    }

    /// The number of the kind in a trace file.
    pub fn code(self) -> (r: u8)
        ensures
            r == self.spec_code(),
    {
        match self {
            SemanticRecordKind::EngineStepBegin => 1,
            SemanticRecordKind::StepRequestSlice => 2,
            SemanticRecordKind::EngineStepEnd => 3,
            SemanticRecordKind::PackedLayoutBegin => 4,
            SemanticRecordKind::PackedRequestSlice => 5,
            SemanticRecordKind::PackedTokenRow => 6,
            SemanticRecordKind::AcceptedOutputToken => 7,
            SemanticRecordKind::FrontendRequestReceived => 8,
            SemanticRecordKind::EngineRequestAdmitted => 9,
            SemanticRecordKind::FrontendTokenEmitted => 10,
            SemanticRecordKind::FrontendRequestCompleted => 11,
            SemanticRecordKind::ClientRequestSent => 12,
            SemanticRecordKind::ClientTokenReceived => 13,
            SemanticRecordKind::ClientRequestCompleted => 14,
        }
    }

    /// The kind with the number.
    pub fn from_code(code: u8) -> (r: Option<Self>)
        ensures
            r == kind_of(code),
    {
        match code {
            1 => Some(SemanticRecordKind::EngineStepBegin),
            2 => Some(SemanticRecordKind::StepRequestSlice),
            3 => Some(SemanticRecordKind::EngineStepEnd),
            4 => Some(SemanticRecordKind::PackedLayoutBegin),
            5 => Some(SemanticRecordKind::PackedRequestSlice),
            6 => Some(SemanticRecordKind::PackedTokenRow),
            7 => Some(SemanticRecordKind::AcceptedOutputToken),
            8 => Some(SemanticRecordKind::FrontendRequestReceived),
            9 => Some(SemanticRecordKind::EngineRequestAdmitted),
            10 => Some(SemanticRecordKind::FrontendTokenEmitted),
            11 => Some(SemanticRecordKind::FrontendRequestCompleted),
            12 => Some(SemanticRecordKind::ClientRequestSent),
            13 => Some(SemanticRecordKind::ClientTokenReceived),
            14 => Some(SemanticRecordKind::ClientRequestCompleted),
            _ => None,
        }
    }
}


impl SemanticWireRecord {
    #[verifier::opaque]
    pub open spec fn wire_words(self) -> Seq<u8> {
        le64_bytes(self.timestamp_ns) + le64_bytes(self.sequence) + le64_bytes(self.step_id)
            + le64_bytes(self.request_id) + le64_bytes(self.sequence_id)
    }

    #[verifier::opaque]
    pub open spec fn wire_counts(self) -> Seq<u8> {
        le32_bytes(self.scheduled_tokens) + le32_bytes(self.prefill_tokens) + le32_bytes(
            self.decode_tokens,
        ) + le32_bytes(self.queue_depth) + le32_bytes(self.active_requests) + le32_bytes(
            self.expected_slices,
        ) + le32_bytes(self.pid) + le32_bytes(self.tid) + le32_bytes(self.flags)
    }

    #[verifier::opaque]
    pub open spec fn wire_rest(self) -> Seq<u8> {
        le16_bytes(self.kv_cache_usage_permyriad) + le16_bytes(self.service_class_id) + seq![
            self.kind.spec_code(),
            self.phase,
            self.status,
        ] + Seq::new(13, |k: int| 0u8)
    }

    /// The bytes of the record: its fields one after the other, the kind, the
    /// phase and the status in a byte each, and zeros.
    pub open spec fn wire(self) -> Seq<u8> {
        self.wire_words() + self.wire_counts() + self.wire_rest()
    }

    /// What the bytes are read as.
    pub open spec fn decoded(s: Seq<u8>) -> Result<SemanticWireRecord, RecordError> {
        if s.len() != SEMANTIC_RECORD_BYTES {
            Err(RecordError::Length)
        } else {
            match kind_of(s[80]) {
                Some(kind) => Ok(
                    SemanticWireRecord {
                        kind,
                        timestamp_ns: spec_le64(s, 0),
                        sequence: spec_le64(s, 8),
                        step_id: spec_le64(s, 16),
                        request_id: spec_le64(s, 24),
                        sequence_id: spec_le64(s, 32),
                        scheduled_tokens: spec_le32(s, 40),
                        prefill_tokens: spec_le32(s, 44),
                        decode_tokens: spec_le32(s, 48),
                        queue_depth: spec_le32(s, 52),
                        active_requests: spec_le32(s, 56),
                        expected_slices: spec_le32(s, 60),
                        pid: spec_le32(s, 64),
                        tid: spec_le32(s, 68),
                        flags: spec_le32(s, 72),
                        kv_cache_usage_permyriad: spec_le16(s, 76),
                        service_class_id: spec_le16(s, 78),
                        phase: s[81],
                        status: s[82],
                    },
                ),
                None => Err(RecordError::Kind),
            }
        }
    }

    /// Reads a record.
    pub fn decode(bytes: &[u8]) -> (r: Result<Self, RecordError>)
        ensures
            r == SemanticWireRecord::decoded(bytes@),
    {
        if bytes.len() != SEMANTIC_RECORD_BYTES {
            return Err(RecordError::Length);
        }
        match SemanticRecordKind::from_code(bytes[80]) {
            Some(kind) => Ok(
                SemanticWireRecord {
                    kind,
                    timestamp_ns: le_u64(bytes, 0),
                    sequence: le_u64(bytes, 8),
                    step_id: le_u64(bytes, 16),
                    request_id: le_u64(bytes, 24),
                    sequence_id: le_u64(bytes, 32),
                    scheduled_tokens: le_u32(bytes, 40),
                    prefill_tokens: le_u32(bytes, 44),
                    decode_tokens: le_u32(bytes, 48),
                    queue_depth: le_u32(bytes, 52),
                    active_requests: le_u32(bytes, 56),
                    expected_slices: le_u32(bytes, 60),
                    pid: le_u32(bytes, 64),
                    tid: le_u32(bytes, 68),
                    flags: le_u32(bytes, 72),
                    kv_cache_usage_permyriad: le_u16(bytes, 76),
                    service_class_id: le_u16(bytes, 78),
                    phase: bytes[81],
                    status: bytes[82],
                },
            ),
            None => Err(RecordError::Kind),
        }
    }

    /// Writes the record in the layout that `decode` reads.
    pub fn encode(&self) -> (bytes: Vec<u8>)
        ensures
            bytes@ == self.wire(),
    {
        let mut out: Vec<u8> = Vec::new();
        self.encode_into(&mut out);
        out
    }

    /// Writes the record in the place of what the buffer held.
    pub fn encode_into(&self, out: &mut Vec<u8>)
        ensures
            final(out)@ == self.wire(),
    {
        out.clear();
        put_u64(out, self.timestamp_ns);
        put_u64(out, self.sequence);
        put_u64(out, self.step_id);
        put_u64(out, self.request_id);
        put_u64(out, self.sequence_id);
        proof {
            reveal(SemanticWireRecord::wire_words);
            assert(out@ =~= self.wire_words());
        }
        self.encode_counts(out);
        self.encode_rest(out);
    }

    fn encode_counts(&self, out: &mut Vec<u8>)
        ensures
            final(out)@ == old(out)@ + self.wire_counts(),
    {
        put_u32(out, self.scheduled_tokens);
        put_u32(out, self.prefill_tokens);
        put_u32(out, self.decode_tokens);
        put_u32(out, self.queue_depth);
        put_u32(out, self.active_requests);
        put_u32(out, self.expected_slices);
        put_u32(out, self.pid);
        put_u32(out, self.tid);
        put_u32(out, self.flags);
        proof {
            reveal(SemanticWireRecord::wire_counts);
            assert(out@ =~= old(out)@ + self.wire_counts());
        }
    }

    fn encode_rest(&self, out: &mut Vec<u8>)
        ensures
            final(out)@ == old(out)@ + self.wire_rest(),
    {
        put_u16(out, self.kv_cache_usage_permyriad);
        put_u16(out, self.service_class_id);
        out.push(self.kind.code());
        out.push(self.phase);
        out.push(self.status);
        let ghost front = out@;
        let mut i: usize = 0;
        while i < 13
            invariant
                i <= 13,
                out@ == front + Seq::new(i as nat, |k: int| 0u8),
            decreases 13 - i,
        {
            out.push(0);
            i += 1;
            assert(out@ =~= front + Seq::new(i as nat, |k: int| 0u8));
        }
        proof {
            reveal(SemanticWireRecord::wire_rest);
            assert(out@ =~= old(out)@ + self.wire_rest());
        }
    }
}

proof fn words_round_trip(r: SemanticWireRecord, s: Seq<u8>)
    requires
        s.len() == SEMANTIC_RECORD_BYTES,
        s.subrange(0, 40) == r.wire_words(),
    ensures
        r.timestamp_ns == spec_le64(s, 0),
        r.sequence == spec_le64(s, 8),
        r.step_id == spec_le64(s, 16),
        r.request_id == spec_le64(s, 24),
        r.sequence_id == spec_le64(s, 32),
{
    reveal(SemanticWireRecord::wire_words);
    let part = r.wire_words();
    assert(s.subrange(0, 8) =~= part.subrange(0, 8));
    assert(s.subrange(8, 16) =~= part.subrange(8, 16));
    assert(s.subrange(16, 24) =~= part.subrange(16, 24));
    assert(s.subrange(24, 32) =~= part.subrange(24, 32));
    assert(s.subrange(32, 40) =~= part.subrange(32, 40));
    assert(part.subrange(0, 8) =~= le64_bytes(r.timestamp_ns));
    assert(part.subrange(8, 16) =~= le64_bytes(r.sequence));
    assert(part.subrange(16, 24) =~= le64_bytes(r.step_id));
    assert(part.subrange(24, 32) =~= le64_bytes(r.request_id));
    assert(part.subrange(32, 40) =~= le64_bytes(r.sequence_id));
    le64_round_trip(s, 0, r.timestamp_ns);
    le64_round_trip(s, 8, r.sequence);
    le64_round_trip(s, 16, r.step_id);
    le64_round_trip(s, 24, r.request_id);
    le64_round_trip(s, 32, r.sequence_id);
}

proof fn counts_round_trip(r: SemanticWireRecord, s: Seq<u8>)
    requires
        s.len() == SEMANTIC_RECORD_BYTES,
        s.subrange(40, 76) == r.wire_counts(),
    ensures
        r.scheduled_tokens == spec_le32(s, 40),
        r.prefill_tokens == spec_le32(s, 44),
        r.decode_tokens == spec_le32(s, 48),
        r.queue_depth == spec_le32(s, 52),
        r.active_requests == spec_le32(s, 56),
        r.expected_slices == spec_le32(s, 60),
        r.pid == spec_le32(s, 64),
        r.tid == spec_le32(s, 68),
        r.flags == spec_le32(s, 72),
{
    reveal(SemanticWireRecord::wire_counts);
    let part = r.wire_counts();
    assert(s.subrange(40, 44) =~= part.subrange(0, 4));
    assert(s.subrange(44, 48) =~= part.subrange(4, 8));
    assert(s.subrange(48, 52) =~= part.subrange(8, 12));
    assert(s.subrange(52, 56) =~= part.subrange(12, 16));
    assert(s.subrange(56, 60) =~= part.subrange(16, 20));
    assert(s.subrange(60, 64) =~= part.subrange(20, 24));
    assert(s.subrange(64, 68) =~= part.subrange(24, 28));
    assert(s.subrange(68, 72) =~= part.subrange(28, 32));
    assert(s.subrange(72, 76) =~= part.subrange(32, 36));
    assert(part.subrange(0, 4) =~= le32_bytes(r.scheduled_tokens));
    assert(part.subrange(4, 8) =~= le32_bytes(r.prefill_tokens));
    assert(part.subrange(8, 12) =~= le32_bytes(r.decode_tokens));
    assert(part.subrange(12, 16) =~= le32_bytes(r.queue_depth));
    assert(part.subrange(16, 20) =~= le32_bytes(r.active_requests));
    assert(part.subrange(20, 24) =~= le32_bytes(r.expected_slices));
    assert(part.subrange(24, 28) =~= le32_bytes(r.pid));
    assert(part.subrange(28, 32) =~= le32_bytes(r.tid));
    assert(part.subrange(32, 36) =~= le32_bytes(r.flags));
    le32_round_trip(s, 40, r.scheduled_tokens);
    le32_round_trip(s, 44, r.prefill_tokens);
    le32_round_trip(s, 48, r.decode_tokens);
    le32_round_trip(s, 52, r.queue_depth);
    le32_round_trip(s, 56, r.active_requests);
    le32_round_trip(s, 60, r.expected_slices);
    le32_round_trip(s, 64, r.pid);
    le32_round_trip(s, 68, r.tid);
    le32_round_trip(s, 72, r.flags);
}

proof fn rest_round_trips(r: SemanticWireRecord, s: Seq<u8>)
    requires
        s.len() == SEMANTIC_RECORD_BYTES,
        s.subrange(76, 96) == r.wire_rest(),
    ensures
        r.kv_cache_usage_permyriad == spec_le16(s, 76),
        r.service_class_id == spec_le16(s, 78),
        r.kind.spec_code() == s[80],
        r.phase == s[81],
        r.status == s[82],
{
    reveal(SemanticWireRecord::wire_rest);
    let part = r.wire_rest();
    assert(s.subrange(76, 78) =~= part.subrange(0, 2));
    assert(s.subrange(78, 80) =~= part.subrange(2, 4));
    assert(part.subrange(0, 2) =~= le16_bytes(r.kv_cache_usage_permyriad));
    assert(part.subrange(2, 4) =~= le16_bytes(r.service_class_id));
    le16_round_trip(s, 76, r.kv_cache_usage_permyriad);
    le16_round_trip(s, 78, r.service_class_id);
    assert(s[80] == part[4]);
    assert(s[81] == part[5]);
    assert(s[82] == part[6]);
}

proof fn part_lengths(r: SemanticWireRecord)
    ensures
        r.wire_words().len() == 40,
        r.wire_counts().len() == 36,
        r.wire_rest().len() == 20,
{
    reveal(SemanticWireRecord::wire_words);
    reveal(SemanticWireRecord::wire_counts);
    reveal(SemanticWireRecord::wire_rest);
}

/// A record is read back from its bytes as it was written.
pub proof fn record_round_trips(record: SemanticWireRecord)
    ensures
        record.wire().len() == SEMANTIC_RECORD_BYTES,
        SemanticWireRecord::decoded(record.wire()) == Ok::<SemanticWireRecord, RecordError>(record),
{
    let s = record.wire();
    part_lengths(record);
    assert(s.subrange(0, 40) =~= record.wire_words());
    assert(s.subrange(40, 76) =~= record.wire_counts());
    assert(s.subrange(76, 96) =~= record.wire_rest());
    words_round_trip(record, s);
    counts_round_trip(record, s);
    rest_round_trips(record, s);
}

/// What each stretch of record length in the bytes is read as.
pub open spec fn records_in(s: Seq<u8>) -> Seq<Result<SemanticWireRecord, RecordError>> {
    Seq::new(
        (s.len() / SEMANTIC_RECORD_BYTES as nat) as nat,
        |i: int|
            SemanticWireRecord::decoded(
                s.subrange(i * SEMANTIC_RECORD_BYTES, (i + 1) * SEMANTIC_RECORD_BYTES),
            ),
    )
}

/// Reads the record at the place in a trace.
pub fn record_at(bytes: &[u8], i: usize) -> (r: Result<SemanticWireRecord, RecordError>)
    requires
        i < records_in(bytes@).len(),
    ensures
        r == records_in(bytes@)[i as int],
{
    assert((i + 1) * SEMANTIC_RECORD_BYTES <= bytes.len());
    let start: usize = i * SEMANTIC_RECORD_BYTES;
    SemanticWireRecord::decode(slice_subrange(bytes, start, start + SEMANTIC_RECORD_BYTES))
}

/// Whether the size of a trace is not that of records, or beyond the bound.
pub open spec fn bad_size(bytes: nat, max: nat) -> bool {
    bytes == 0 || bytes > max || bytes % SEMANTIC_RECORD_BYTES as nat != 0
}

/// Whether the size of a trace is not that of records, or beyond the bound.
pub fn is_bad_size(bytes: usize, max: usize) -> (r: bool)
    ensures
        r == bad_size(bytes as nat, max as nat),
{
    bytes == 0 || bytes > max || bytes % SEMANTIC_RECORD_BYTES != 0
}

// Constructors.

/// A record of the kind with nothing but its place and time.
pub open spec fn bare(
    kind: SemanticRecordKind,
    timestamp_ns: u64,
    sequence: u64,
    pid: u32,
    tid: u32,
) -> SemanticWireRecord {
    SemanticWireRecord {
        kind,
        timestamp_ns,
        sequence,
        step_id: 0,
        request_id: 0,
        sequence_id: 0,
        scheduled_tokens: 0,
        prefill_tokens: 0,
        decode_tokens: 0,
        queue_depth: 0,
        active_requests: 0,
        expected_slices: 0,
        pid,
        tid,
        flags: 0,
        kv_cache_usage_permyriad: 0,
        service_class_id: 0,
        phase: 0,
        status: 0,
    }
}

fn bare_record(
    kind: SemanticRecordKind,
    timestamp_ns: u64,
    sequence: u64,
    pid: u32,
    tid: u32,
) -> (r: SemanticWireRecord)
    ensures
        r == bare(kind, timestamp_ns, sequence, pid, tid),
{
    SemanticWireRecord {
        kind,
        timestamp_ns,
        sequence,
        step_id: 0,
        request_id: 0,
        sequence_id: 0,
        scheduled_tokens: 0,
        prefill_tokens: 0,
        decode_tokens: 0,
        queue_depth: 0,
        active_requests: 0,
        expected_slices: 0,
        pid,
        tid,
        flags: 0,
        kv_cache_usage_permyriad: 0,
        service_class_id: 0,
        phase: 0,
        status: 0,
    }
}

/// The beginning of an engine step.
pub open spec fn spec_step_begin(
    timestamp_ns: u64,
    sequence: u64,
    step_id: u64,
    scheduled_tokens: u32,
    prefill_tokens: u32,
    decode_tokens: u32,
    queue_depth: u32,
    active_requests: u32,
    expected_slices: u32,
    kv_cache_usage_permyriad: u16,
    flags: u32,
    pid: u32,
    tid: u32,
) -> SemanticWireRecord {
    SemanticWireRecord {
        step_id,
        scheduled_tokens,
        prefill_tokens,
        decode_tokens,
        queue_depth,
        active_requests,
        expected_slices,
        kv_cache_usage_permyriad,
        flags,
        ..bare(SemanticRecordKind::EngineStepBegin, timestamp_ns, sequence, pid, tid)
    }
}

/// The beginning of an engine step.
pub fn step_begin(
    timestamp_ns: u64,
    sequence: u64,
    step_id: u64,
    scheduled_tokens: u32,
    prefill_tokens: u32,
    decode_tokens: u32,
    queue_depth: u32,
    active_requests: u32,
    expected_slices: u32,
    kv_cache_usage_permyriad: u16,
    flags: u32,
    pid: u32,
    tid: u32,
) -> (r: SemanticWireRecord)
    ensures
        r == spec_step_begin(
            timestamp_ns,
            sequence,
            step_id,
            scheduled_tokens,
            prefill_tokens,
            decode_tokens,
            queue_depth,
            active_requests,
            expected_slices,
            kv_cache_usage_permyriad,
            flags,
            pid,
            tid,
        ),
{
    SemanticWireRecord {
        step_id,
        scheduled_tokens,
        prefill_tokens,
        decode_tokens,
        queue_depth,
        active_requests,
        expected_slices,
        kv_cache_usage_permyriad,
        flags,
        ..bare_record(SemanticRecordKind::EngineStepBegin, timestamp_ns, sequence, pid, tid)
    }
}

/// One request's share of an engine step.
pub open spec fn spec_request_slice(
    timestamp_ns: u64,
    sequence: u64,
    step_id: u64,
    request_id: u64,
    sequence_id: u64,
    scheduled_tokens: u32,
    service_class_id: u16,
    phase: u8,
    pid: u32,
    tid: u32,
) -> SemanticWireRecord {
    SemanticWireRecord {
        step_id,
        request_id,
        sequence_id,
        scheduled_tokens,
        service_class_id,
        phase,
        ..bare(SemanticRecordKind::StepRequestSlice, timestamp_ns, sequence, pid, tid)
    }
}

/// One request's share of an engine step.
pub fn request_slice(
    timestamp_ns: u64,
    sequence: u64,
    step_id: u64,
    request_id: u64,
    sequence_id: u64,
    scheduled_tokens: u32,
    service_class_id: u16,
    phase: u8,
    pid: u32,
    tid: u32,
) -> (r: SemanticWireRecord)
    ensures
        r == spec_request_slice(
            timestamp_ns,
            sequence,
            step_id,
            request_id,
            sequence_id,
            scheduled_tokens,
            service_class_id,
            phase,
            pid,
            tid,
        ),
{
    SemanticWireRecord {
        step_id,
        request_id,
        sequence_id,
        scheduled_tokens,
        service_class_id,
        phase,
        ..bare_record(SemanticRecordKind::StepRequestSlice, timestamp_ns, sequence, pid, tid)
    }
}

/// The beginning of a packed layout.
pub open spec fn spec_packed_layout_begin(
    timestamp_ns: u64,
    sequence: u64,
    step_id: u64,
    packing_generation: u64,
    total_tokens: u32,
    expected_slices: u32,
    flags: u32,
    pid: u32,
    tid: u32,
) -> SemanticWireRecord {
    SemanticWireRecord {
        step_id,
        sequence_id: packing_generation,
        scheduled_tokens: total_tokens,
        expected_slices,
        flags,
        ..bare(SemanticRecordKind::PackedLayoutBegin, timestamp_ns, sequence, pid, tid)
    }
}

/// The beginning of a packed layout.
pub fn packed_layout_begin(
    timestamp_ns: u64,
    sequence: u64,
    step_id: u64,
    packing_generation: u64,
    total_tokens: u32,
    expected_slices: u32,
    flags: u32,
    pid: u32,
    tid: u32,
) -> (r: SemanticWireRecord)
    ensures
        r == spec_packed_layout_begin(
            timestamp_ns,
            sequence,
            step_id,
            packing_generation,
            total_tokens,
            expected_slices,
            flags,
            pid,
            tid,
        ),
{
    SemanticWireRecord {
        step_id,
        sequence_id: packing_generation,
        scheduled_tokens: total_tokens,
        expected_slices,
        flags,
        ..bare_record(SemanticRecordKind::PackedLayoutBegin, timestamp_ns, sequence, pid, tid)
    }
}

/// The rows of one request in a packed layout.
pub open spec fn spec_packed_request_slice(
    timestamp_ns: u64,
    sequence: u64,
    step_id: u64,
    request_id: u64,
    packing_generation: u64,
    row_begin: u32,
    row_end: u32,
    scheduled_tokens: u32,
    packed_index: u32,
    phase: u8,
    pid: u32,
    tid: u32,
) -> SemanticWireRecord {
    SemanticWireRecord {
        step_id,
        request_id,
        sequence_id: packing_generation,
        prefill_tokens: row_begin,
        decode_tokens: row_end,
        scheduled_tokens,
        queue_depth: packed_index,
        phase,
        ..bare(SemanticRecordKind::PackedRequestSlice, timestamp_ns, sequence, pid, tid)
    }
}

/// The rows of one request in a packed layout.
pub fn packed_request_slice(
    timestamp_ns: u64,
    sequence: u64,
    step_id: u64,
    request_id: u64,
    packing_generation: u64,
    row_begin: u32,
    row_end: u32,
    scheduled_tokens: u32,
    packed_index: u32,
    phase: u8,
    pid: u32,
    tid: u32,
) -> (r: SemanticWireRecord)
    ensures
        r == spec_packed_request_slice(
            timestamp_ns,
            sequence,
            step_id,
            request_id,
            packing_generation,
            row_begin,
            row_end,
            scheduled_tokens,
            packed_index,
            phase,
            pid,
            tid,
        ),
{
    SemanticWireRecord {
        step_id,
        request_id,
        sequence_id: packing_generation,
        prefill_tokens: row_begin,
        decode_tokens: row_end,
        scheduled_tokens,
        queue_depth: packed_index,
        phase,
        ..bare_record(SemanticRecordKind::PackedRequestSlice, timestamp_ns, sequence, pid, tid)
    }
}

/// The token in one row of a packed layout.
pub open spec fn spec_packed_token_row(
    timestamp_ns: u64,
    sequence: u64,
    step_id: u64,
    request_id: u64,
    packing_generation: u64,
    packed_row: u32,
    sequence_position: u32,
    token_id: u32,
    phase: u8,
    flags: u32,
    pid: u32,
    tid: u32,
) -> SemanticWireRecord {
    SemanticWireRecord {
        step_id,
        request_id,
        sequence_id: packing_generation,
        prefill_tokens: packed_row,
        decode_tokens: sequence_position,
        scheduled_tokens: token_id,
        phase,
        flags,
        ..bare(SemanticRecordKind::PackedTokenRow, timestamp_ns, sequence, pid, tid)
    }
}

/// The token in one row of a packed layout.
pub fn packed_token_row(
    timestamp_ns: u64,
    sequence: u64,
    step_id: u64,
    request_id: u64,
    packing_generation: u64,
    packed_row: u32,
    sequence_position: u32,
    token_id: u32,
    phase: u8,
    flags: u32,
    pid: u32,
    tid: u32,
) -> (r: SemanticWireRecord)
    ensures
        r == spec_packed_token_row(
            timestamp_ns,
            sequence,
            step_id,
            request_id,
            packing_generation,
            packed_row,
            sequence_position,
            token_id,
            phase,
            flags,
            pid,
            tid,
        ),
{
    SemanticWireRecord {
        step_id,
        request_id,
        sequence_id: packing_generation,
        prefill_tokens: packed_row,
        decode_tokens: sequence_position,
        scheduled_tokens: token_id,
        phase,
        flags,
        ..bare_record(SemanticRecordKind::PackedTokenRow, timestamp_ns, sequence, pid, tid)
    }
}

/// A token that the engine accepted as output.
pub open spec fn spec_accepted_output_token(
    timestamp_ns: u64,
    sequence: u64,
    step_id: u64,
    request_id: u64,
    output_position: u32,
    token_id: u32,
    flags: u32,
    pid: u32,
    tid: u32,
) -> SemanticWireRecord {
    SemanticWireRecord {
        step_id,
        request_id,
        sequence_id: output_position as u64,
        scheduled_tokens: token_id,
        flags,
        ..bare(SemanticRecordKind::AcceptedOutputToken, timestamp_ns, sequence, pid, tid)
    }
}

/// A token that the engine accepted as output.
pub fn accepted_output_token(
    timestamp_ns: u64,
    sequence: u64,
    step_id: u64,
    request_id: u64,
    output_position: u32,
    token_id: u32,
    flags: u32,
    pid: u32,
    tid: u32,
) -> (r: SemanticWireRecord)
    ensures
        r == spec_accepted_output_token(
            timestamp_ns,
            sequence,
            step_id,
            request_id,
            output_position,
            token_id,
            flags,
            pid,
            tid,
        ),
{
    SemanticWireRecord {
        step_id,
        request_id,
        sequence_id: output_position as u64,
        scheduled_tokens: token_id,
        flags,
        ..bare_record(SemanticRecordKind::AcceptedOutputToken, timestamp_ns, sequence, pid, tid)
    }
}

/// The end of an engine step.
pub open spec fn spec_step_end(
    timestamp_ns: u64,
    sequence: u64,
    step_id: u64,
    status: u8,
    flags: u32,
    pid: u32,
    tid: u32,
) -> SemanticWireRecord {
    SemanticWireRecord {
        step_id,
        status,
        flags,
        ..bare(SemanticRecordKind::EngineStepEnd, timestamp_ns, sequence, pid, tid)
    }
}

/// The end of an engine step.
pub fn step_end(
    timestamp_ns: u64,
    sequence: u64,
    step_id: u64,
    status: u8,
    flags: u32,
    pid: u32,
    tid: u32,
) -> (r: SemanticWireRecord)
    ensures
        r == spec_step_end(timestamp_ns, sequence, step_id, status, flags, pid, tid),
{
    SemanticWireRecord {
        step_id,
        status,
        flags,
        ..bare_record(SemanticRecordKind::EngineStepEnd, timestamp_ns, sequence, pid, tid)
    }
}

/// A point in the life of a request.
pub open spec fn spec_lifecycle(
    kind: SemanticRecordKind,
    timestamp_ns: u64,
    sequence: u64,
    request_id: u64,
    peer_id: u64,
    position: u32,
    token_id: u32,
    queue_depth: u32,
    status: u8,
    pid: u32,
    tid: u32,
) -> SemanticWireRecord {
    SemanticWireRecord {
        request_id,
        sequence_id: peer_id,
        prefill_tokens: position,
        scheduled_tokens: token_id,
        queue_depth,
        status,
        ..bare(kind, timestamp_ns, sequence, pid, tid)
    }
}

/// A point in the life of a request.
pub fn lifecycle(
    kind: SemanticRecordKind,
    timestamp_ns: u64,
    sequence: u64,
    request_id: u64,
    peer_id: u64,
    position: u32,
    token_id: u32,
    queue_depth: u32,
    status: u8,
    pid: u32,
    tid: u32,
) -> (r: SemanticWireRecord)
    ensures
        r == spec_lifecycle(
            kind,
            timestamp_ns,
            sequence,
            request_id,
            peer_id,
            position,
            token_id,
            queue_depth,
            status,
            pid,
            tid,
        ),
{
    SemanticWireRecord {
        request_id,
        sequence_id: peer_id,
        prefill_tokens: position,
        scheduled_tokens: token_id,
        queue_depth,
        status,
        ..bare_record(kind, timestamp_ns, sequence, pid, tid)
    }
}

/// One field of a patch.
#[derive(Clone, Debug)]
pub struct PatchField {
    pub name: &'static str,
    pub value: PatchValue,
}

#[derive(Clone, Debug)]
pub enum PatchValue {
    Text(String),
    Number(u64),
}

/// What a field of a patch holds.
pub enum PatchItem {
    Text(Seq<char>),
    Number(u64),
}

pub open spec fn fields_view(fields: Seq<PatchField>) -> Seq<(Seq<char>, PatchItem)> {
    fields.map_values(
        |f: PatchField|
            (
                f.name@,
                match f.value {
                    PatchValue::Text(text) => PatchItem::Text(text@),
                    PatchValue::Number(number) => PatchItem::Number(number),
                },
            ),
    )
}

fn text_field(name: &'static str, text: String) -> (field: PatchField)
    ensures
        field.name@ == name@,
        field.value == PatchValue::Text(text),
{
    PatchField { name, value: PatchValue::Text(text) }
}

fn number_field(name: &'static str, number: u64) -> (field: PatchField)
    ensures
        field.name@ == name@,
        field.value == PatchValue::Number(number),
{
    PatchField { name, value: PatchValue::Number(number) }
}

/// The record in one line of text. A lifecycle record shows the number of its kind.
pub open spec fn line_of(r: SemanticWireRecord) -> Seq<char> {
    match r.kind {
        SemanticRecordKind::EngineStepBegin => "begin ts="@ + decimal(r.timestamp_ns as nat)
            + " seq="@ + decimal(r.sequence as nat)
            + " step="@ + decimal(r.step_id as nat)
            + " scheduled="@ + decimal(r.scheduled_tokens as nat)
            + " prefill="@ + decimal(r.prefill_tokens as nat)
            + " decode="@ + decimal(r.decode_tokens as nat)
            + " queue="@ + decimal(r.queue_depth as nat)
            + " active="@ + decimal(r.active_requests as nat)
            + " slices="@ + decimal(r.expected_slices as nat)
            + " kv_permyriad="@ + decimal(r.kv_cache_usage_permyriad as nat)
            + " flags=0x"@ + hexadecimal(r.flags as nat),
        SemanticRecordKind::StepRequestSlice => "slice ts="@ + decimal(r.timestamp_ns as nat)
            + " seq="@ + decimal(r.sequence as nat)
            + " step="@ + decimal(r.step_id as nat)
            + " request=0x"@ + padded_hex(r.request_id as nat, 16)
            + " phase="@ + decimal(r.phase as nat)
            + " tokens="@ + decimal(r.scheduled_tokens as nat),
        SemanticRecordKind::PackedLayoutBegin => "packed_begin ts="@ + decimal(r.timestamp_ns as nat)
            + " seq="@ + decimal(r.sequence as nat)
            + " step="@ + decimal(r.step_id as nat)
            + " generation="@ + decimal(r.sequence_id as nat)
            + " tokens="@ + decimal(r.scheduled_tokens as nat)
            + " slices="@ + decimal(r.expected_slices as nat)
            + " flags=0x"@ + hexadecimal(r.flags as nat),
        SemanticRecordKind::PackedRequestSlice => "packed_slice ts="@ + decimal(r.timestamp_ns as nat)
            + " seq="@ + decimal(r.sequence as nat)
            + " step="@ + decimal(r.step_id as nat)
            + " generation="@ + decimal(r.sequence_id as nat)
            + " request=0x"@ + padded_hex(r.request_id as nat, 16)
            + " index="@ + decimal(r.queue_depth as nat)
            + " rows=["@ + decimal(r.prefill_tokens as nat) + ","@ + decimal(r.decode_tokens as nat) + ")"@
            + " tokens="@ + decimal(r.scheduled_tokens as nat)
            + " phase="@ + decimal(r.phase as nat),
        SemanticRecordKind::PackedTokenRow => "packed_token ts="@ + decimal(r.timestamp_ns as nat)
            + " seq="@ + decimal(r.sequence as nat)
            + " step="@ + decimal(r.step_id as nat)
            + " generation="@ + decimal(r.sequence_id as nat)
            + " request=0x"@ + padded_hex(r.request_id as nat, 16)
            + " row="@ + decimal(r.prefill_tokens as nat)
            + " position="@ + decimal(r.decode_tokens as nat)
            + " token_id="@ + decimal(r.scheduled_tokens as nat)
            + " phase="@ + decimal(r.phase as nat)
            + " flags=0x"@ + hexadecimal(r.flags as nat),
        SemanticRecordKind::AcceptedOutputToken => "accepted_token ts="@ + decimal(r.timestamp_ns as nat)
            + " seq="@ + decimal(r.sequence as nat)
            + " step="@ + decimal(r.step_id as nat)
            + " request=0x"@ + padded_hex(r.request_id as nat, 16)
            + " output_position="@ + decimal(r.sequence_id as nat)
            + " token_id="@ + decimal(r.scheduled_tokens as nat)
            + " flags=0x"@ + hexadecimal(r.flags as nat),
        SemanticRecordKind::EngineStepEnd => "end ts="@ + decimal(r.timestamp_ns as nat)
            + " seq="@ + decimal(r.sequence as nat)
            + " step="@ + decimal(r.step_id as nat)
            + " status="@ + decimal(r.status as nat)
            + " flags=0x"@ + hexadecimal(r.flags as nat),
        _ => "lifecycle ts="@ + decimal(r.timestamp_ns as nat)
            + " seq="@ + decimal(r.sequence as nat)
            + " kind="@ + decimal(r.kind.spec_code() as nat)
            + " request=0x"@ + padded_hex(r.request_id as nat, 16)
            + " peer=0x"@ + padded_hex(r.sequence_id as nat, 16)
            + " position="@ + decimal(r.prefill_tokens as nat)
            + " token_id="@ + decimal(r.scheduled_tokens as nat)
            + " queue="@ + decimal(r.queue_depth as nat)
            + " status="@ + decimal(r.status as nat)
            + " flags=0x"@ + hexadecimal(r.flags as nat),
    }
}

/// The record in one line of text.
pub fn describe_record(r: &SemanticWireRecord) -> (text: String)
    ensures
        text@ == line_of(*r),
{
    match r.kind {
        SemanticRecordKind::EngineStepBegin => {
            let mut text = "begin ts=".to_owned();
            append_decimal(&mut text, r.timestamp_ns as u64);
            text.append(" seq=");
            append_decimal(&mut text, r.sequence as u64);
            text.append(" step=");
            append_decimal(&mut text, r.step_id as u64);
            text.append(" scheduled=");
            append_decimal(&mut text, r.scheduled_tokens as u64);
            text.append(" prefill=");
            append_decimal(&mut text, r.prefill_tokens as u64);
            text.append(" decode=");
            append_decimal(&mut text, r.decode_tokens as u64);
            text.append(" queue=");
            append_decimal(&mut text, r.queue_depth as u64);
            text.append(" active=");
            append_decimal(&mut text, r.active_requests as u64);
            text.append(" slices=");
            append_decimal(&mut text, r.expected_slices as u64);
            text.append(" kv_permyriad=");
            append_decimal(&mut text, r.kv_cache_usage_permyriad as u64);
            text.append(" flags=0x");
            append_hex(&mut text, r.flags as u64);
            text
        },
        SemanticRecordKind::StepRequestSlice => {
            let mut text = "slice ts=".to_owned();
            append_decimal(&mut text, r.timestamp_ns as u64);
            text.append(" seq=");
            append_decimal(&mut text, r.sequence as u64);
            text.append(" step=");
            append_decimal(&mut text, r.step_id as u64);
            text.append(" request=0x");
            append_padded_hex(&mut text, r.request_id, 16);
            text.append(" phase=");
            append_decimal(&mut text, r.phase as u64);
            text.append(" tokens=");
            append_decimal(&mut text, r.scheduled_tokens as u64);
            text
        },
        SemanticRecordKind::PackedLayoutBegin => {
            let mut text = "packed_begin ts=".to_owned();
            append_decimal(&mut text, r.timestamp_ns as u64);
            text.append(" seq=");
            append_decimal(&mut text, r.sequence as u64);
            text.append(" step=");
            append_decimal(&mut text, r.step_id as u64);
            text.append(" generation=");
            append_decimal(&mut text, r.sequence_id as u64);
            text.append(" tokens=");
            append_decimal(&mut text, r.scheduled_tokens as u64);
            text.append(" slices=");
            append_decimal(&mut text, r.expected_slices as u64);
            text.append(" flags=0x");
            append_hex(&mut text, r.flags as u64);
            text
        },
        SemanticRecordKind::PackedRequestSlice => {
            let mut text = "packed_slice ts=".to_owned();
            append_decimal(&mut text, r.timestamp_ns as u64);
            text.append(" seq=");
            append_decimal(&mut text, r.sequence as u64);
            text.append(" step=");
            append_decimal(&mut text, r.step_id as u64);
            text.append(" generation=");
            append_decimal(&mut text, r.sequence_id as u64);
            text.append(" request=0x");
            append_padded_hex(&mut text, r.request_id, 16);
            text.append(" index=");
            append_decimal(&mut text, r.queue_depth as u64);
            text.append(" rows=[");
            append_decimal(&mut text, r.prefill_tokens as u64);
            text.append(",");
            append_decimal(&mut text, r.decode_tokens as u64);
            text.append(")");
            text.append(" tokens=");
            append_decimal(&mut text, r.scheduled_tokens as u64);
            text.append(" phase=");
            append_decimal(&mut text, r.phase as u64);
            text
        },
        SemanticRecordKind::PackedTokenRow => {
            let mut text = "packed_token ts=".to_owned();
            append_decimal(&mut text, r.timestamp_ns as u64);
            text.append(" seq=");
            append_decimal(&mut text, r.sequence as u64);
            text.append(" step=");
            append_decimal(&mut text, r.step_id as u64);
            text.append(" generation=");
            append_decimal(&mut text, r.sequence_id as u64);
            text.append(" request=0x");
            append_padded_hex(&mut text, r.request_id, 16);
            text.append(" row=");
            append_decimal(&mut text, r.prefill_tokens as u64);
            text.append(" position=");
            append_decimal(&mut text, r.decode_tokens as u64);
            text.append(" token_id=");
            append_decimal(&mut text, r.scheduled_tokens as u64);
            text.append(" phase=");
            append_decimal(&mut text, r.phase as u64);
            text.append(" flags=0x");
            append_hex(&mut text, r.flags as u64);
            text
        },
        SemanticRecordKind::AcceptedOutputToken => {
            let mut text = "accepted_token ts=".to_owned();
            append_decimal(&mut text, r.timestamp_ns as u64);
            text.append(" seq=");
            append_decimal(&mut text, r.sequence as u64);
            text.append(" step=");
            append_decimal(&mut text, r.step_id as u64);
            text.append(" request=0x");
            append_padded_hex(&mut text, r.request_id, 16);
            text.append(" output_position=");
            append_decimal(&mut text, r.sequence_id as u64);
            text.append(" token_id=");
            append_decimal(&mut text, r.scheduled_tokens as u64);
            text.append(" flags=0x");
            append_hex(&mut text, r.flags as u64);
            text
        },
        SemanticRecordKind::EngineStepEnd => {
            let mut text = "end ts=".to_owned();
            append_decimal(&mut text, r.timestamp_ns as u64);
            text.append(" seq=");
            append_decimal(&mut text, r.sequence as u64);
            text.append(" step=");
            append_decimal(&mut text, r.step_id as u64);
            text.append(" status=");
            append_decimal(&mut text, r.status as u64);
            text.append(" flags=0x");
            append_hex(&mut text, r.flags as u64);
            text
        },
        _ => {
            let mut text = "lifecycle ts=".to_owned();
            append_decimal(&mut text, r.timestamp_ns as u64);
            text.append(" seq=");
            append_decimal(&mut text, r.sequence as u64);
            text.append(" kind=");
            append_decimal(&mut text, r.kind.code() as u64);
            text.append(" request=0x");
            append_padded_hex(&mut text, r.request_id, 16);
            text.append(" peer=0x");
            append_padded_hex(&mut text, r.sequence_id, 16);
            text.append(" position=");
            append_decimal(&mut text, r.prefill_tokens as u64);
            text.append(" token_id=");
            append_decimal(&mut text, r.scheduled_tokens as u64);
            text.append(" queue=");
            append_decimal(&mut text, r.queue_depth as u64);
            text.append(" status=");
            append_decimal(&mut text, r.status as u64);
            text.append(" flags=0x");
            append_hex(&mut text, r.flags as u64);
            text
        },
    }
}

/// The fields that every patch begins with.
pub open spec fn patch_head(kind: Seq<char>, r: SemanticWireRecord) -> Seq<(Seq<char>, PatchItem)> {
    seq![
        ("kind"@, PatchItem::Text(kind)),
        ("ts"@, PatchItem::Text(decimal(r.timestamp_ns as nat))),
        ("seq"@, PatchItem::Text(decimal(r.sequence as nat))),
        ("step"@, PatchItem::Text(decimal(r.step_id as nat))),
    ]
}

/// The fields of the patch that tells a live view of the record.
pub open spec fn patch_of(r: SemanticWireRecord) -> Seq<(Seq<char>, PatchItem)> {
    match r.kind {
        SemanticRecordKind::EngineStepBegin => patch_head("step_begin"@, r) + seq![
            ("scheduled"@, PatchItem::Number(r.scheduled_tokens as u64)),
            ("prefill"@, PatchItem::Number(r.prefill_tokens as u64)),
            ("decode"@, PatchItem::Number(r.decode_tokens as u64)),
            ("queue"@, PatchItem::Number(r.queue_depth as u64)),
            ("active"@, PatchItem::Number(r.active_requests as u64)),
            ("slices"@, PatchItem::Number(r.expected_slices as u64)),
            ("kv_permyriad"@, PatchItem::Number(r.kv_cache_usage_permyriad as u64)),
            ("flags"@, PatchItem::Number(r.flags as u64)),
        ],
        SemanticRecordKind::StepRequestSlice => patch_head("request_slice"@, r) + seq![
            ("request"@, PatchItem::Text(decimal(r.request_id as nat))),
            ("phase"@, PatchItem::Number(r.phase as u64)),
            ("tokens"@, PatchItem::Number(r.scheduled_tokens as u64)),
        ],
        SemanticRecordKind::PackedLayoutBegin => patch_head("packed_layout_begin"@, r) + seq![
            ("generation"@, PatchItem::Text(decimal(r.sequence_id as nat))),
            ("tokens"@, PatchItem::Number(r.scheduled_tokens as u64)),
            ("slices"@, PatchItem::Number(r.expected_slices as u64)),
            ("flags"@, PatchItem::Number(r.flags as u64)),
        ],
        SemanticRecordKind::PackedRequestSlice => patch_head("packed_request_slice"@, r) + seq![
            ("generation"@, PatchItem::Text(decimal(r.sequence_id as nat))),
            ("request"@, PatchItem::Text(decimal(r.request_id as nat))),
            ("packed_index"@, PatchItem::Number(r.queue_depth as u64)),
            ("row_begin"@, PatchItem::Number(r.prefill_tokens as u64)),
            ("row_end"@, PatchItem::Number(r.decode_tokens as u64)),
            ("tokens"@, PatchItem::Number(r.scheduled_tokens as u64)),
            ("phase"@, PatchItem::Number(r.phase as u64)),
        ],
        SemanticRecordKind::PackedTokenRow => patch_head("packed_token_row"@, r) + seq![
            ("generation"@, PatchItem::Text(decimal(r.sequence_id as nat))),
            ("request"@, PatchItem::Text(decimal(r.request_id as nat))),
            ("packed_row"@, PatchItem::Number(r.prefill_tokens as u64)),
            ("sequence_position"@, PatchItem::Number(r.decode_tokens as u64)),
            ("token_id"@, PatchItem::Number(r.scheduled_tokens as u64)),
            ("phase"@, PatchItem::Number(r.phase as u64)),
            ("flags"@, PatchItem::Number(r.flags as u64)),
        ],
        SemanticRecordKind::AcceptedOutputToken => patch_head("accepted_output_token"@, r) + seq![
            ("request"@, PatchItem::Text(decimal(r.request_id as nat))),
            ("output_position"@, PatchItem::Number(r.sequence_id as u64)),
            ("token_id"@, PatchItem::Number(r.scheduled_tokens as u64)),
            ("flags"@, PatchItem::Number(r.flags as u64)),
        ],
        SemanticRecordKind::EngineStepEnd => patch_head("step_end"@, r) + seq![
            ("status"@, PatchItem::Number(r.status as u64)),
            ("flags"@, PatchItem::Number(r.flags as u64)),
        ],
        _ => patch_head("unknown"@, r) + seq![("raw_kind"@, PatchItem::Number(r.kind.spec_code() as u64))],
    }
}

fn head_fields(kind: &'static str, r: &SemanticWireRecord) -> (fields: Vec<PatchField>)
    ensures
        fields_view(fields@) == patch_head(kind@, *r),
{
    let mut fields: Vec<PatchField> = Vec::new();
    fields.push(text_field("kind", kind.to_owned()));
    fields.push(text_field("ts", decimal_text(r.timestamp_ns)));
    fields.push(text_field("seq", decimal_text(r.sequence)));
    fields.push(text_field("step", decimal_text(r.step_id)));
    assert(fields_view(fields@) =~= patch_head(kind@, *r));
    fields
}

/// The patch that tells a live view of the record. Numbers that can exceed the
/// integers a browser holds exactly are sent as text.
pub fn record_to_patch(r: &SemanticWireRecord) -> (fields: Vec<PatchField>)
    ensures
        fields_view(fields@) == patch_of(*r),
{
    match r.kind {
        SemanticRecordKind::EngineStepBegin => {
            let mut fields = head_fields("step_begin", r);
            fields.push(number_field("scheduled", r.scheduled_tokens as u64));
            fields.push(number_field("prefill", r.prefill_tokens as u64));
            fields.push(number_field("decode", r.decode_tokens as u64));
            fields.push(number_field("queue", r.queue_depth as u64));
            fields.push(number_field("active", r.active_requests as u64));
            fields.push(number_field("slices", r.expected_slices as u64));
            fields.push(number_field("kv_permyriad", r.kv_cache_usage_permyriad as u64));
            fields.push(number_field("flags", r.flags as u64));
            assert(fields_view(fields@) =~= patch_of(*r));
            fields
        },
        SemanticRecordKind::StepRequestSlice => {
            let mut fields = head_fields("request_slice", r);
            fields.push(text_field("request", decimal_text(r.request_id)));
            fields.push(number_field("phase", r.phase as u64));
            fields.push(number_field("tokens", r.scheduled_tokens as u64));
            assert(fields_view(fields@) =~= patch_of(*r));
            fields
        },
        SemanticRecordKind::PackedLayoutBegin => {
            let mut fields = head_fields("packed_layout_begin", r);
            fields.push(text_field("generation", decimal_text(r.sequence_id)));
            fields.push(number_field("tokens", r.scheduled_tokens as u64));
            fields.push(number_field("slices", r.expected_slices as u64));
            fields.push(number_field("flags", r.flags as u64));
            assert(fields_view(fields@) =~= patch_of(*r));
            fields
        },
        SemanticRecordKind::PackedRequestSlice => {
            let mut fields = head_fields("packed_request_slice", r);
            fields.push(text_field("generation", decimal_text(r.sequence_id)));
            fields.push(text_field("request", decimal_text(r.request_id)));
            fields.push(number_field("packed_index", r.queue_depth as u64));
            fields.push(number_field("row_begin", r.prefill_tokens as u64));
            fields.push(number_field("row_end", r.decode_tokens as u64));
            fields.push(number_field("tokens", r.scheduled_tokens as u64));
            fields.push(number_field("phase", r.phase as u64));
            assert(fields_view(fields@) =~= patch_of(*r));
            fields
        },
        SemanticRecordKind::PackedTokenRow => {
            let mut fields = head_fields("packed_token_row", r);
            fields.push(text_field("generation", decimal_text(r.sequence_id)));
            fields.push(text_field("request", decimal_text(r.request_id)));
            fields.push(number_field("packed_row", r.prefill_tokens as u64));
            fields.push(number_field("sequence_position", r.decode_tokens as u64));
            fields.push(number_field("token_id", r.scheduled_tokens as u64));
            fields.push(number_field("phase", r.phase as u64));
            fields.push(number_field("flags", r.flags as u64));
            assert(fields_view(fields@) =~= patch_of(*r));
            fields
        },
        SemanticRecordKind::AcceptedOutputToken => {
            let mut fields = head_fields("accepted_output_token", r);
            fields.push(text_field("request", decimal_text(r.request_id)));
            fields.push(number_field("output_position", r.sequence_id as u64));
            fields.push(number_field("token_id", r.scheduled_tokens as u64));
            fields.push(number_field("flags", r.flags as u64));
            assert(fields_view(fields@) =~= patch_of(*r));
            fields
        },
        SemanticRecordKind::EngineStepEnd => {
            let mut fields = head_fields("step_end", r);
            fields.push(number_field("status", r.status as u64));
            fields.push(number_field("flags", r.flags as u64));
            assert(fields_view(fields@) =~= patch_of(*r));
            fields
        },
        _ => {
            let mut fields = head_fields("unknown", r);
            fields.push(number_field("raw_kind", r.kind.code() as u64));
            assert(fields_view(fields@) =~= patch_of(*r));
            fields
        },
    }
}

} // verus!
