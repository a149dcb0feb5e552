use gpu_observer::bridge::{
    read_capacity, Emission, OutputTokenInput, PackedSliceInput, PackedTokenInput, RingFault, SemanticBridge,
    SemanticRingReader, SemanticSliceInput, EMIT_DROPPED, EMIT_INVALID, EMIT_PUBLISHED,
};
use gpu_observer::dump::{dump, dump_engine};
use gpu_observer::event::RequestPhase;
use gpu_observer::host_join::{host_meets_lifecycle, load_host_steps};
use gpu_observer::oracle::{load_semantic, meets_lifecycle};
use gpu_observer::semantic::{
    accepted_output_token, describe_record, is_bad_size, lifecycle, packed_request_slice, packed_token_row,
    record_at, record_to_patch, request_slice, PatchField, PatchValue, RecordError,
    SemanticRecordFlags, SemanticRecordKind, SemanticWireRecord, SEMANTIC_RECORD_BYTES,
};

const HEADER_BYTES: usize = 64;

/// A ring in memory: a producer, a reader, and the slots between them.
struct Ring {
    bridge: SemanticBridge,
    reader: SemanticRingReader,
    slots: Vec<Vec<u8>>,
    records: Vec<SemanticWireRecord>,
}

impl Ring {
    fn new(capacity: u32) -> Ring {
        let bridge = SemanticBridge::open(capacity, 42, 43).unwrap();
        let length = HEADER_BYTES + capacity as usize * SEMANTIC_RECORD_BYTES;
        let reader =
            SemanticRingReader::open(length, HEADER_BYTES, SEMANTIC_RECORD_BYTES, capacity, 0)
                .ok()
                .unwrap();
        Ring {
            bridge,
            reader,
            slots: vec![vec![0; SEMANTIC_RECORD_BYTES]; capacity as usize],
            records: Vec::new(),
        }
    }

    fn store(&mut self, outcome: Emission) -> i32 {
        if outcome == Emission::Published {
            let count = self.records.len() as u64;
            for (index, record) in self.records.iter().enumerate() {
                let slot = self.bridge.slot((index as u64).wrapping_sub(count));
                self.slots[slot] = record.encode();
            }
        } else {
            assert!(self.records.is_empty());
        }
        outcome.code()
    }

    fn begin(&mut self, step_id: u64, slices: &[SemanticSliceInput]) -> i32 {
        let tail = self.reader.tail;
        let outcome = self.bridge.emit_step_begin(
            tail,
            100,
            step_id,
            44,
            44,
            0,
            3,
            4,
            125,
            slices,
            &mut self.records,
        );
        self.store(outcome)
    }

    fn next(&mut self) -> Option<SemanticWireRecord> {
        let slot = self.reader.locate(self.bridge.head).ok().unwrap()?;
        let record = SemanticWireRecord::decode(&self.slots[slot]).ok().unwrap();
        self.reader.advance();
        Some(record)
    }
}

fn slice() -> SemanticSliceInput {
    SemanticSliceInput {
        request_id: 0x1234,
        sequence_id: 0,
        scheduled_tokens: 44,
        service_class_id: 0,
        phase: RequestPhase::Prefill.code(),
        reserved: 0,
    }
}

fn packed() -> PackedSliceInput {
    PackedSliceInput {
        request_id: 0x1234,
        packing_generation: 9,
        row_begin: 0,
        row_end: 44,
        scheduled_tokens: 44,
        packed_index: 0,
        phase: RequestPhase::Prefill.code(),
        reserved: [0; 7],
    }
}

fn packed_token() -> PackedTokenInput {
    PackedTokenInput {
        request_id: 0x1234,
        packing_generation: 9,
        packed_row: 0,
        sequence_position: 17,
        token_id: 9707,
        phase: RequestPhase::Prefill.code(),
        reserved: [0; 3],
    }
}

#[test]
fn native_producer_and_collector_share_fixed_records() {
    let mut ring = Ring::new(64);
    assert_eq!(ring.begin(1, &[slice()]), 0);
    let outcome = ring
        .bridge
        .emit_packed_layout(0, 150, 1, 9, 44, &[packed()], &mut ring.records);
    assert_eq!(ring.store(outcome), 0);
    let outcome = ring
        .bridge
        .emit_packed_tokens(0, 160, 1, 9, &[packed_token()], &mut ring.records);
    assert_eq!(ring.store(outcome), 0);
    let output_token = OutputTokenInput {
        request_id: 0x1234,
        output_position: 0,
        token_id: 3838,
    };
    let outcome = ring.bridge.emit_output_tokens(0, 190, 1, &[output_token], &mut ring.records);
    assert_eq!(ring.store(outcome), 0);
    let outcome = ring.bridge.emit_step_end(0, 200, 1, 0, &mut ring.records);
    assert_eq!(ring.store(outcome), 0);

    let begin = ring.next().unwrap();
    let slice = ring.next().unwrap();
    let packed_begin = ring.next().unwrap();
    let packed_slice = ring.next().unwrap();
    let packed_token = ring.next().unwrap();
    let output_token = ring.next().unwrap();
    let end = ring.next().unwrap();
    assert_eq!(begin.kind, SemanticRecordKind::EngineStepBegin);
    assert_eq!(begin.prefill_tokens, 44);
    assert_eq!(slice.kind, SemanticRecordKind::StepRequestSlice);
    assert_eq!(slice.request_id, 0x1234);
    assert_eq!(packed_begin.kind, SemanticRecordKind::PackedLayoutBegin);
    assert_eq!(packed_begin.sequence_id, 9);
    assert_eq!(packed_slice.kind, SemanticRecordKind::PackedRequestSlice);
    assert_eq!(packed_slice.request_id, 0x1234);
    assert_eq!(packed_slice.prefill_tokens, 0);
    assert_eq!(packed_slice.decode_tokens, 44);
    assert_eq!(packed_token.kind, SemanticRecordKind::PackedTokenRow);
    assert_eq!(packed_token.request_id, 0x1234);
    assert_eq!(packed_token.prefill_tokens, 0);
    assert_eq!(packed_token.decode_tokens, 17);
    assert_eq!(packed_token.scheduled_tokens, 9707);
    assert_eq!(output_token.kind, SemanticRecordKind::AcceptedOutputToken);
    assert_eq!(output_token.sequence_id, 0);
    assert_eq!(output_token.scheduled_tokens, 3838);
    assert_eq!(end.kind, SemanticRecordKind::EngineStepEnd);
    assert!(ring.next().is_none());
    assert_eq!(ring.bridge.dropped, 0);
}

#[test]
fn capacities_are_bounded_powers_of_two() {
    assert!(SemanticBridge::open(63, 1, 1).is_none());
    assert!(SemanticBridge::open(32, 1, 1).is_none());
    assert!(SemanticBridge::open(65, 1, 1).is_none());
    assert!(SemanticBridge::open(1 << 21, 1, 1).is_none());
    assert!(SemanticBridge::open(1 << 20, 1, 1).is_some());
}

#[test]
fn full_ring_drops_and_the_next_record_says_so() {
    let mut ring = Ring::new(64);
    for step in 0..32 {
        assert_eq!(ring.begin(step + 1, &[slice()]), EMIT_PUBLISHED);
    }
    assert_eq!(ring.begin(33, &[slice()]), EMIT_DROPPED);
    assert_eq!(ring.bridge.dropped, 2);
    let first = ring.next().unwrap();
    assert_eq!(first.sequence, 0);
    assert_eq!(first.flags & SemanticRecordFlags::DROPPED_BEFORE, 0);
    let tail = ring.reader.tail;
    let outcome = ring.bridge.emit_step_end(tail, 300, 34, 0, &mut ring.records);
    assert_eq!(ring.store(outcome), EMIT_PUBLISHED);
    let mut last = first;
    let mut count = 0;
    while let Some(record) = ring.next() {
        last = record;
        count += 1;
    }
    assert_eq!(count, 64);
    assert_eq!(last.kind, SemanticRecordKind::EngineStepEnd);
    assert_eq!(last.sequence, 66);
    assert_ne!(last.flags & SemanticRecordFlags::DROPPED_BEFORE, 0);
}

#[test]
fn group_as_large_as_the_ring_is_dropped_without_a_trace() {
    let mut ring = Ring::new(64);
    let slices = vec![slice(); 63];
    assert_eq!(ring.begin(1, &slices), EMIT_DROPPED);
    assert_eq!(ring.bridge.dropped, 0);
    assert_eq!(ring.bridge.next_sequence, 0);
    assert_eq!(ring.begin(1, &slices[..62]), EMIT_PUBLISHED);
}

#[test]
fn layouts_must_cover_the_rows_in_order() {
    let mut bridge = SemanticBridge::open(64, 1, 1).unwrap();
    let mut records = Vec::new();
    let good = packed();
    assert_eq!(
        bridge
            .emit_packed_layout(0, 1, 0, 9, 44, &[good], &mut records)
            .code(),
        EMIT_INVALID
    );
    assert_eq!(
        bridge
            .emit_packed_layout(0, 1, 1, 0, 44, &[good], &mut records)
            .code(),
        EMIT_INVALID
    );
    assert_eq!(
        bridge.emit_packed_layout(0, 1, 1, 9, 44, &[], &mut records).code(),
        EMIT_INVALID
    );
    assert_eq!(
        bridge
            .emit_packed_layout(0, 1, 1, 9, 45, &[good], &mut records)
            .code(),
        EMIT_INVALID
    );
    let mut gap = good;
    gap.row_begin = 45;
    gap.row_end = 46;
    gap.scheduled_tokens = 1;
    gap.packed_index = 1;
    assert_eq!(
        bridge
            .emit_packed_layout(0, 1, 1, 9, 46, &[good, gap], &mut records)
            .code(),
        EMIT_INVALID
    );
    gap.row_begin = 44;
    gap.scheduled_tokens = 2;
    assert_eq!(
        bridge
            .emit_packed_layout(0, 1, 1, 9, 46, &[good, gap], &mut records)
            .code(),
        EMIT_PUBLISHED
    );
}

#[test]
fn tokens_must_follow_each_other() {
    let mut bridge = SemanticBridge::open(64, 1, 1).unwrap();
    let mut records = Vec::new();
    let first = packed_token();
    let mut second = first;
    second.packed_row = 1;
    second.sequence_position = 18;
    assert_eq!(
        bridge
            .emit_packed_tokens(0, 1, 1, 9, &[first, second], &mut records)
            .code(),
        EMIT_PUBLISHED
    );
    second.sequence_position = 19;
    assert_eq!(
        bridge
            .emit_packed_tokens(0, 1, 1, 9, &[first, second], &mut records)
            .code(),
        EMIT_INVALID
    );
    let mut unnamed = first;
    unnamed.request_id = 0;
    assert_eq!(
        bridge.emit_packed_tokens(0, 1, 1, 9, &[unnamed], &mut records).code(),
        EMIT_INVALID
    );
    let one = OutputTokenInput {
        request_id: 1,
        output_position: 4,
        token_id: 5,
    };
    let mut next = one;
    next.output_position = 6;
    assert_eq!(
        bridge.emit_output_tokens(0, 1, 1, &[one, next], &mut records).code(),
        EMIT_INVALID
    );
    assert_eq!(
        bridge.emit_output_tokens(0, 1, 1, &[one], &mut records).code(),
        EMIT_PUBLISHED
    );
}

#[test]
fn reader_holds_the_file_against_its_header() {
    let open = |length: usize| SemanticRingReader::open(length, 64, 96, 64, 0);
    assert!(matches!(open(10), Err(RingFault::HeaderTruncated)));
    assert!(matches!(open(64 + 96 * 63), Err(RingFault::SizeMismatch)));
    let reader = open(64 + 96 * 64).ok().unwrap();
    assert!(matches!(reader.locate(0), Ok(None)));
    assert!(matches!(reader.locate(1), Ok(Some(0))));
    assert!(matches!(reader.locate(65), Err(RingFault::ProducerOverran)));
    assert_eq!(
        RingFault::ProducerOverran.message(),
        "semantic producer overran consumer cursor"
    );
    assert_eq!(
        RingFault::HeaderTruncated.message(),
        "semantic ring header is truncated"
    );
    assert_eq!(
        RingFault::SizeMismatch.message(),
        "semantic ring file size does not match header"
    );
}

fn trace() -> Vec<SemanticWireRecord> {
    let mut bridge = SemanticBridge::open(64, 42, 43).unwrap();
    let mut group = Vec::new();
    let mut records = Vec::new();
    bridge.emit_step_begin(0, 100, 1, 44, 44, 0, 3, 4, 125, &[slice()], &mut group);
    records.append(&mut group);
    bridge.emit_packed_layout(0, 150, 1, 9, 44, &[packed()], &mut group);
    records.append(&mut group);
    bridge.emit_packed_tokens(0, 160, 1, 9, &[packed_token()], &mut group);
    records.append(&mut group);
    bridge.emit_step_end(0, 200, 1, 0, &mut group);
    records.append(&mut group);
    records
}

#[test]
fn records_round_trip_through_their_bytes() {
    let mut file = Vec::new();
    for record in trace() {
        let bytes = record.encode();
        assert_eq!(bytes.len(), SEMANTIC_RECORD_BYTES);
        assert_eq!(SemanticWireRecord::decode(&bytes).ok(), Some(record));
        file.extend(bytes);
    }
    assert_eq!(record_at(&file, 2).ok(), Some(trace()[2]));
    assert!(!is_bad_size(file.len(), 1_000_000));
    assert!(is_bad_size(0, 1_000_000));
    assert!(is_bad_size(file.len() + 1, 1_000_000));
    assert!(matches!(
        SemanticWireRecord::decode(&file[..95]),
        Err(RecordError::Length)
    ));
    let mut broken = file[..96].to_vec();
    let kinds: Vec<u8> = (0..=255)
        .filter(|code| SemanticRecordKind::from_code(*code).is_none())
        .collect();
    assert!(!kinds.is_empty());
    let place = (0..96)
        .find(|at| {
            let mut copy = broken.clone();
            copy[*at] = kinds[kinds.len() - 1];
            SemanticWireRecord::decode(&copy).is_err()
        })
        .unwrap();
    broken[place] = kinds[kinds.len() - 1];
    assert!(matches!(
        SemanticWireRecord::decode(&broken),
        Err(RecordError::Kind)
    ));
}

#[test]
fn record_kinds_round_trip_through_their_codes() {
    for record in trace() {
        assert_eq!(
            SemanticRecordKind::from_code(record.kind.code()),
            Some(record.kind)
        );
    }
    assert_eq!(SemanticRecordKind::from_code(0), None);
}

#[test]
fn records_are_described_on_one_line_each() {
    let records = trace();
    let mut file = Vec::new();
    for record in &records {
        file.extend(record.encode());
    }
    let (whole, met_lifecycle) = dump_engine(&file);
    assert!(!met_lifecycle);
    let dumped = dump(&file);
    assert_eq!(dumped.lines, whole.lines);
    assert!(dumped.error.is_none());
    for (record, line) in records.iter().zip(&dumped.lines) {
        assert_eq!(&describe_record(record), line);
        assert!(!line.contains('\n'));
    }
    assert_eq!(
        dumped.lines[0],
        "begin ts=100 seq=0 step=1 scheduled=44 prefill=44 decode=0 queue=3 active=4 slices=1 kv_permyriad=125 flags=0x0"
    );
    assert_eq!(
        dumped.lines[1],
        "slice ts=100 seq=1 step=1 request=0x0000000000001234 phase=1 tokens=44"
    );
    assert_eq!(
        dumped.lines[3],
        "packed_slice ts=150 seq=3 step=1 generation=9 request=0x0000000000001234 index=0 rows=[0,44) tokens=44 phase=1"
    );
}

#[test]
fn patches_name_their_kind() {
    let patch = record_to_patch(&trace()[1]);
    let kind = patch.iter().find(|field| field.name == "kind").unwrap();
    assert!(matches!(&kind.value, PatchValue::Text(text) if text == "request_slice"));
    let tokens = patch.iter().find(|field| field.name == "tokens").unwrap();
    assert!(matches!(tokens.value, PatchValue::Number(44)));
}

fn patch_text(fields: &[PatchField]) -> Vec<(&'static str, String)> {
    fields
        .iter()
        .map(|field| {
            let value = match &field.value {
                PatchValue::Text(text) => format!("{text:?}"),
                PatchValue::Number(number) => number.to_string(),
            };
            (field.name, value)
        })
        .collect()
}

#[test]
fn patches_send_large_numbers_as_decimal_text() {
    let record = request_slice(100, 1, 7, 0x1234, 0, 44, 0, 1, 42, 43);
    let expected = [
        ("kind", "\"request_slice\""),
        ("ts", "\"100\""),
        ("seq", "\"1\""),
        ("step", "\"7\""),
        ("request", "\"4660\""),
        ("phase", "1"),
        ("tokens", "44"),
    ]
    .map(|(name, value)| (name, value.to_owned()));
    assert_eq!(patch_text(&record_to_patch(&record)), expected);

    for record in [
        packed_request_slice(1, 2, 3, u64::MAX, 4, 0, 5, 5, 0, 1, 42, 43),
        packed_token_row(1, 2, 3, u64::MAX, 4, 0, 0, 5, 1, 0, 42, 43),
        accepted_output_token(1, 2, 3, u64::MAX, 0, 5, 0, 42, 43),
    ] {
        let patch = patch_text(&record_to_patch(&record));
        assert!(patch.contains(&("request", "\"18446744073709551615\"".to_owned())));
    }
}

#[test]
fn lifecycle_record_ends_an_engine_trace() {
    let mut file = Vec::new();
    for record in trace() {
        file.extend(record.encode());
    }
    let next = trace().len() as u64;
    let mut stray = lifecycle(
        SemanticRecordKind::FrontendRequestReceived,
        300,
        next,
        1,
        2,
        0,
        0,
        0,
        0,
        42,
        43,
    );
    file.extend(stray.encode());
    let (dumped, met_lifecycle) = dump_engine(&file);
    assert!(met_lifecycle && dumped.error.is_none());
    assert_eq!(dumped.lines.len(), trace().len());
    assert!(meets_lifecycle(&file));
    assert!(host_meets_lifecycle(&file));

    // The same record out of sequence is refused for that alone.
    stray.sequence = next + 1;
    file.truncate(trace().len() * SEMANTIC_RECORD_BYTES);
    file.extend(stray.encode());
    assert!(!meets_lifecycle(&file));
    assert_eq!(load_semantic(&file).err().unwrap(), "semantic sequence gap");
    assert!(!host_meets_lifecycle(&file));
    assert_eq!(
        load_host_steps(&file).err().unwrap(),
        format!(
            "semantic sequence gap: previous={} current={}",
            next - 1,
            next + 1
        )
    );
    assert!(!dump_engine(&file).1);
}

#[test]
fn ring_header_names_its_capacity() {
    let mut head = b"GOSEM01\0".to_vec();
    head.extend(1_u32.to_le_bytes());
    head.extend(64_u32.to_le_bytes());
    assert_eq!(read_capacity(&head), Ok(64));
    head[12] = 65;
    assert_eq!(
        read_capacity(&head),
        Err("invalid semantic ring header: capacity")
    );
    head[8] = 2;
    assert_eq!(
        read_capacity(&head),
        Err("invalid semantic ring header: version")
    );
    head[0] = 0;
    assert_eq!(
        read_capacity(&head),
        Err("invalid semantic ring header: magic")
    );
}
