use std::collections::BTreeMap;

use gpu_observer::blocks::DeviceEvent;
use gpu_observer::host_join::{host_join_passes, join_host_launches, load_host_steps};
use gpu_observer::launch::{CudaLaunchEvent, LaunchFlags, ProbeState};
use gpu_observer::manifest::{manifest_token_ids, required_string};
use gpu_observer::msgpack::{decode, Value};
use gpu_observer::oracle::{compare_packing, load_oracle, load_semantic, ORACLE_MAGIC};
use gpu_observer::query::{
    capture_frame, capture_header, capture_timed_out, load_query_frames, parse_positive,
};
use gpu_observer::semantic::{
    packed_layout_begin, packed_request_slice, request_slice, step_begin, step_end,
    SemanticRecordKind, SemanticWireRecord,
};
use gpu_observer::streams::{parse_line, Forwarded, RecordCounts, Tail};
use gpu_observer::trace_event::Dim3;

#[test]
fn messagepack_values_of_every_shape() {
    assert!(matches!(decode(&[0xc0]), Ok(Value::Null)));
    assert!(matches!(decode(&[0xc2]), Ok(Value::Bool(false))));
    assert!(matches!(decode(&[0xcc, 0xff]), Ok(Value::Unsigned(255))));
    assert!(matches!(
        decode(&[0xcf, 0xff, 0xff, 0xff, 0xff, 0xff, 0xff, 0xff, 0xff]),
        Ok(Value::Unsigned(u64::MAX))
    ));
    assert!(matches!(decode(&[0xd0, 0x80]), Ok(Value::Negative(-128))));
    assert!(matches!(
        decode(&[0xcb, 0x3f, 0xf8, 0, 0, 0, 0, 0, 0]),
        Ok(Value::Float64(0x3ff8_0000_0000_0000))
    ));
    assert!(
        matches!(decode(&[0xa3, 0xe2, 0x82, 0xac]), Ok(Value::Text(text)) if text == "\u{20ac}")
    );
}

#[test]
fn messagepack_faults_say_where_they_are() {
    let fault = |bytes: &[u8]| decode(bytes).err().unwrap();
    assert_eq!(fault(&[]).offset, 0);
    assert_eq!(fault(&[0xc0, 0xc0]).offset, 1);
    let broken = fault(&[0xa2, 0xff, 0xfe]);
    assert!(broken.message().contains("UTF-8") || broken.message().contains("utf-8"));
    assert!(fault(&[0x92, 0xc0]).offset >= 1);
    let mut deep = vec![0x91; 40];
    deep.push(0xc0);
    assert!(decode(&deep).is_err());
}

fn text(value: &str) -> Vec<u8> {
    let mut bytes = vec![0xd9, value.len() as u8];
    bytes.extend(value.as_bytes());
    bytes
}

fn map(fields: &[(&str, Vec<u8>)]) -> Vec<u8> {
    let mut bytes = vec![0x80 | fields.len() as u8];
    for (key, value) in fields {
        bytes.extend(text(key));
        bytes.extend(value);
    }
    bytes
}

fn query() -> Vec<u8> {
    map(&[
        ("schema", text("GPU_OBSERVER_QUERY_01")),
        ("internal_request_id", text("in")),
        ("external_request_id", text("ex")),
    ])
}

#[test]
fn captured_queries_are_read_back() {
    let mut file = capture_header();
    file.extend(capture_frame(&query()).unwrap());
    let (read, output) = load_query_frames(&file, "q.bin").ok().unwrap();
    assert_eq!(required_string(&read, "internal_request_id"), Ok("in"));
    assert!(output.is_none());
    assert_eq!(
        required_string(&read, "missing").unwrap_err(),
        "manifest field missing is missing or not a string"
    );
    assert!(load_query_frames(&file[..10], "q.bin").is_err());
    assert!(load_query_frames(&file[..file.len() - 1], "q.bin").is_err());
    let mut wrong = file.clone();
    wrong[0] = b'X';
    assert!(load_query_frames(&wrong, "q.bin").is_err());
    assert!(capture_frame(&[]).is_err());
    assert!(capture_timed_out(0).is_err());
    assert!(capture_timed_out(1).is_ok());
    assert_eq!(parse_positive(b"12", "frames", 20), Ok(12));
    let error = |value: &[u8]| parse_positive(value, "frames", 20).err().unwrap();
    assert_eq!(error(b"0"), "frames must be positive");
    assert_eq!(error(b"21"), "number too large to fit in target type");
    assert_eq!(error(b"x"), "invalid digit found in string");
    assert_eq!(error(b""), "cannot parse integer from empty string");
}

fn token(id: u8, position: u8) -> Vec<u8> {
    map(&[
        ("id", vec![id]),
        ("position", vec![position]),
        ("raw", text("t")),
        ("display", vec![0xc0]),
    ])
}

fn token_lists(ids: Vec<u8>, tokens: &[Vec<u8>]) -> Value {
    let mut list = vec![0x90 | tokens.len() as u8];
    for token in tokens {
        list.extend(token);
    }
    decode(&map(&[("ids", ids), ("tokens", list)])).ok().unwrap()
}

#[test]
fn manifest_token_lists_are_checked() {
    let read = |value: &Value| manifest_token_ids(value, "ids", "tokens");
    let good = token_lists(vec![0x92, 0x05, 0x06], &[token(5, 0), token(6, 1)]);
    assert_eq!(read(&good), Ok(vec![5, 6]));
    let lengths = token_lists(vec![0x91, 0x05], &[token(5, 0), token(6, 1)]);
    assert_eq!(
        read(&lengths).unwrap_err(),
        "manifest ids and tokens lengths differ"
    );
    let swapped = token_lists(vec![0x92, 0x06, 0x05], &[token(5, 0), token(6, 1)]);
    assert_eq!(
        read(&swapped).unwrap_err(),
        "manifest token metadata disagrees at position 0"
    );
    let negative = token_lists(vec![0x91, 0xff], &[token(5, 0)]);
    assert_eq!(read(&negative).unwrap_err(), "manifest ids[0] is not a u32");
    let untitled = decode(&map(&[("ids", vec![0x90])])).ok().unwrap();
    assert_eq!(
        read(&untitled).unwrap_err(),
        "manifest field tokens is missing or not an array"
    );
}

const LINE: &[u8] =
    b"100\t200\t0\t1\t7\t99\t12\t0\t0\t8\t1\t1\t128\t1\t1\t3\t2\tvoid gemm<float>(int)";

#[test]
fn launch_lines_are_parsed_or_skipped() {
    let line = parse_line(LINE).unwrap();
    assert_eq!(line.start_ns, b"100");
    assert_eq!(line.correlation, 99);
    assert_eq!(line.grid, [8, 1, 1]);
    assert_eq!(line.name, b"void gemm<float>(int)");
    assert!(parse_line(b"# format=GOCUPTI01 x").is_none());
    assert!(parse_line(b"start_ns\tend_ns").is_none());
    assert!(parse_line(&LINE[..20]).is_none());
}

#[test]
fn tail_gives_each_line_once() {
    let mut tail = Tail::new();
    assert_eq!(tail.begin(0), None);
    assert_eq!(tail.begin(5), Some(0));
    assert_eq!(tail.accept(b"a\nb\nc", 5), vec![b"a".to_vec(), b"b".to_vec()]);
    assert_eq!(tail.begin(5), None);
    assert_eq!(tail.begin(7), Some(5));
    assert_eq!(tail.accept(b"d\n", 7), vec![b"cd".to_vec()]);
    assert_eq!(tail.begin(2), Some(0));
    assert!(tail.pending.is_empty());
}

fn device_event(launch_id: u64, sequence: u32) -> DeviceEvent {
    DeviceEvent {
        launch_id,
        sequence,
        device_timestamp_raw: 5,
        sm_id: 1,
        block: Dim3 { x: 0, y: 0, z: 0 },
        kernel_slot: 0,
        kind: 1,
    }
}

#[test]
fn device_events_are_forwarded_once() {
    let mut forwarded = Forwarded::new();
    let events = [device_event(1, 1), device_event(1, 2), device_event(1, 1)];
    assert_eq!(forwarded.forward(&events).len(), 2);
    assert!(forwarded.forward(&events).is_empty());
    assert!(forwarded.insert(&device_event(2, 1)));
    assert!(!forwarded.insert(&device_event(2, 1)));
}

fn packed_trace() -> Vec<SemanticWireRecord> {
    vec![
        step_begin(100, 0, 1, 3, 2, 1, 0, 2, 2, 0, 0, 42, 43),
        request_slice(100, 1, 1, 8, 0, 2, 0, 1, 42, 43),
        request_slice(100, 2, 1, 9, 0, 1, 0, 2, 42, 43),
        packed_layout_begin(120, 3, 1, 5, 3, 2, 0, 42, 43),
        packed_request_slice(120, 4, 1, 8, 5, 0, 2, 2, 0, 1, 42, 43),
        packed_request_slice(120, 5, 1, 9, 5, 2, 3, 1, 1, 2, 42, 43),
        step_end(200, 6, 1, 0, 0, 42, 43),
    ]
}

fn file(records: &[SemanticWireRecord]) -> Vec<u8> {
    let mut bytes = Vec::new();
    for record in records {
        bytes.extend(record.encode());
    }
    bytes
}

#[test]
fn records_are_counted_by_kind() {
    let mut counts = RecordCounts::new();
    for record in packed_trace() {
        counts.count(record.kind);
    }
    counts.count(SemanticRecordKind::ClientRequestSent);
    assert_eq!(counts.records, 8);
    assert_eq!(counts.begins, 1);
    assert_eq!(counts.slices, 2);
    assert_eq!(counts.packed_begins, 1);
    assert_eq!(counts.packed_slices, 2);
    assert_eq!(counts.lifecycle, 1);
    assert_eq!(counts.ends, 1);
}

fn oracle_record(kind: u16, fields: &[(usize, u64, usize)]) -> Vec<u8> {
    let mut raw = vec![0_u8; 64];
    raw[0..4].copy_from_slice(&ORACLE_MAGIC.to_le_bytes());
    raw[4..6].copy_from_slice(&1_u16.to_le_bytes());
    raw[6..8].copy_from_slice(&kind.to_le_bytes());
    for (offset, value, width) in fields {
        raw[*offset..*offset + *width].copy_from_slice(&value.to_le_bytes()[..*width]);
    }
    raw
}

fn oracle_begin() -> Vec<u8> {
    oracle_record(
        1,
        &[
            (8, 120, 8),
            (36, 3, 4),
            (40, 3, 4),
            (48, 2, 4),
            (52, 3, 4),
            (56, 7, 4),
            (60, 42, 4),
        ],
    )
}

fn oracle_slice(index: u64, request: u64, begin: u64, end: u64) -> Vec<u8> {
    oracle_record(
        2,
        &[
            (8, 120, 8),
            (24, request, 8),
            (32, begin, 4),
            (36, end, 4),
            (40, end - begin, 4),
            (44, index, 4),
            (48, 2, 4),
            (52, 3, 4),
            (60, 42, 4),
        ],
    )
}

fn oracle() -> Vec<u8> {
    let mut bytes = oracle_begin();
    bytes.extend(oracle_slice(0, 8, 0, 2));
    bytes.extend(oracle_slice(1, 9, 2, 3));
    bytes
}

#[test]
fn packing_oracle_confirms_the_predicted_rows() {
    let (steps, records, losses) = load_semantic(&file(&packed_trace())).ok().unwrap();
    assert_eq!((steps.len(), records, losses), (1, 7, 0));
    let (observations, count) = load_oracle(&oracle()).ok().unwrap();
    assert_eq!((observations.len(), count), (1, 3));
    let comparison = compare_packing(&steps, &observations, losses);
    assert!(comparison.passed);
    assert_eq!(comparison.counts.assigned, 1);
    assert_eq!(comparison.missing_steps, 0);
    assert!(comparison.verdicts[0].as_ref().unwrap().matched);

    let missing = compare_packing(&steps, &[], losses);
    assert!(!missing.passed);
    assert_eq!(missing.missing_steps, 1);
}

#[test]
fn packing_oracle_files_are_checked() {
    assert_eq!(
        load_oracle(b"abc").err().unwrap(),
        "invalid packing-oracle size: 3"
    );
    let mut magic = oracle();
    magic[64] = 0;
    assert_eq!(
        load_oracle(&magic).err().unwrap(),
        "invalid packing-oracle record 1"
    );
    assert_eq!(
        load_oracle(&oracle()[64..128]).err().unwrap(),
        "packing slice without begin at record 0"
    );
    assert_eq!(
        load_oracle(&oracle()[..128]).err().unwrap(),
        "truncated packing-oracle observation"
    );
    let mut row = oracle();
    row[64 + 36] = 1;
    assert_eq!(
        load_oracle(&row).err().unwrap(),
        "invalid packing slice at record 1"
    );
    let mut begin = oracle();
    begin[48] = 0;
    assert_eq!(
        load_oracle(&begin).err().unwrap(),
        "invalid packing begin at record 0"
    );
}

fn cuda_launch(timestamp_ns: u64, sequence: u64, pid: u32, flags: u32) -> CudaLaunchEvent {
    CudaLaunchEvent::new(
        timestamp_ns,
        sequence,
        0x1111,
        0,
        pid,
        43,
        0,
        0,
        8,
        1,
        1,
        128,
        1,
        1,
        flags,
    )
}

#[test]
fn host_launches_fall_into_their_steps() {
    let (steps, records, losses) = load_host_steps(&file(&packed_trace())).ok().unwrap();
    assert_eq!((steps.len(), records, losses), (1, 7, 0));
    let mut bytes = Vec::new();
    for launch in [
        cuda_launch(110, 0, 42, 0),
        cuda_launch(150, 1, 42, LaunchFlags::EXTENDED_CONFIG),
    ] {
        bytes.extend(launch.encode());
    }
    let found = join_host_launches(&bytes, &steps, 42).ok().unwrap();
    assert_eq!(found.records, 2);
    assert_eq!(found.steps[0].launches, 2);
    assert_eq!(found.steps[0].regular, 1);
    assert_eq!(found.steps[0].extended, 1);
    assert_eq!(found.steps[0].first_ns, Some(110));
    assert_eq!(found.steps[0].last_ns, Some(150));
    assert!(host_join_passes(losses, &found));

    bytes.extend(cuda_launch(250, 5, 41, LaunchFlags::DROPPED_BEFORE).encode());
    let poor = join_host_launches(&bytes, &steps, 42).ok().unwrap();
    assert_eq!(poor.unassigned, 1);
    assert_eq!(poor.gaps, 1);
    assert_eq!(poor.losses, 1);
    assert_eq!(poor.pid_mismatches, 1);
    assert!(!host_join_passes(losses, &poor));
    assert_eq!(
        join_host_launches(&bytes[..5], &steps, 42).err().unwrap(),
        "CUDA launch trace has an invalid byte length: 5"
    );
}

#[test]
fn broken_steps_are_named() {
    let mut trace = packed_trace();
    trace[1].scheduled_tokens = 1;
    assert_eq!(
        load_host_steps(&file(&trace)).err().unwrap(),
        "request-slice token sum does not match step header"
    );
    let mut trace = packed_trace();
    trace.remove(6);
    assert_eq!(
        load_host_steps(&file(&trace)).err().unwrap(),
        "semantic trace ends with an unterminated step"
    );
    let mut trace = packed_trace();
    trace[3].sequence = 9;
    assert_eq!(
        load_host_steps(&file(&trace)).err().unwrap(),
        "semantic sequence gap: previous=2 current=9"
    );
    let mut trace = packed_trace();
    trace[6].status = 1;
    assert_eq!(
        load_host_steps(&file(&trace)).err().unwrap(),
        "failed step or negative semantic interval"
    );
}

#[test]
fn probe_marks_the_record_after_a_loss() {
    let mut state = ProbeState::default();
    let mut seen = BTreeMap::new();
    let first = state.attempt(true, false);
    state.settle(false);
    let second = state.attempt(true, true);
    state.settle(true);
    let third = state.attempt(false, false);
    seen.insert(first.0, first.1);
    seen.insert(second.0, second.1);
    seen.insert(third.0, third.1);
    assert_eq!(seen.len(), 3);
    assert_eq!(first.1, LaunchFlags::STREAM_VALID);
    assert_eq!(
        second.1,
        LaunchFlags::STREAM_VALID | LaunchFlags::EXTENDED_CONFIG | LaunchFlags::DROPPED_BEFORE
    );
    assert_eq!(third.1, 0);
}
