use core::mem::{align_of, size_of};

use gpu_observer::blocks::DeviceEvent;
use gpu_observer::bridge::{
    OutputTokenInput, PackedSliceInput, PackedTokenInput, SemanticSliceInput,
};
use gpu_observer::bundle::validate_exact_sequence;
use gpu_observer::client::stable_request_id;
use gpu_observer::clock::{ClockMap, ClockPair, OutsideCalibration};
use gpu_observer::cupti::{classify_kernel, KernelFamily};
use gpu_observer::deep_replay::known_option;
use gpu_observer::graph::GraphNode;
use gpu_observer::intervals::{duration_sum, interval_union, IntervalError};
use gpu_observer::jsonl::{collect_events, documents, ReadLine};
use gpu_observer::msgpack::{decode, Value};
use gpu_observer::number_fault::{
    fault_text, find_i32_fault, find_unsigned_fault, NumberFault,
};
use gpu_observer::ownership::OwnershipSlice;
use gpu_observer::replay::{group_replays, validate_topologies};
use gpu_observer::samples::{static_class, SampleEvent};
use gpu_observer::sanitizer::EVENT_BYTES;
use gpu_observer::tables::read_hex;
use gpu_observer::trace_event::Dim3;
use gpu_observer::{ownership, samples};

fn drifting_clock() -> ClockMap {
    ClockMap {
        start: ClockPair {
            cupti_ns: 100,
            monotonic_ns: 1_100,
            uncertainty_ns: 3,
        },
        end: ClockPair {
            cupti_ns: 200,
            monotonic_ns: 1_210,
            uncertainty_ns: 4,
        },
    }
}

#[test]
fn full_step_cupti_affine_clock_normalization_handles_offset_drift() {
    let clock = ClockMap {
        start: ClockPair {
            cupti_ns: 100,
            monotonic_ns: 1_100,
            uncertainty_ns: 3,
        },
        end: ClockPair {
            cupti_ns: 200,
            monotonic_ns: 1_210,
            uncertainty_ns: 4,
        },
    };
    assert_eq!(clock.normalize(150).unwrap(), 1_155);
}

#[test]
fn affine_clock_map_handles_offset_drift() {
    let clock = ClockMap {
        start: ClockPair {
            cupti_ns: 100,
            monotonic_ns: 1_100,
            uncertainty_ns: 3,
        },
        end: ClockPair {
            cupti_ns: 200,
            monotonic_ns: 1_210,
            uncertainty_ns: 4,
        },
    };
    assert_eq!(clock.normalize(150).unwrap(), 1_155);
}

#[test]
fn join_b_cupti_cache_affine_clock_normalization_handles_offset_drift() {
    let clock = ClockMap {
        start: ClockPair {
            cupti_ns: 100,
            monotonic_ns: 1_100,
            uncertainty_ns: 3,
        },
        end: ClockPair {
            cupti_ns: 200,
            monotonic_ns: 1_210,
            uncertainty_ns: 4,
        },
    };
    assert_eq!(clock.normalize(150).unwrap(), 1_155);
}

#[test]
fn clock_maps_its_calibration_points_and_nothing_outside_them() {
    let clock = drifting_clock();
    assert_eq!(clock.normalize(100), Ok(1_100));
    assert_eq!(clock.normalize(200), Ok(1_210));
    assert_eq!(clock.normalize(99), Err(OutsideCalibration));
    assert_eq!(clock.normalize(201), Err(OutsideCalibration));
    assert!(clock.normalize(120).unwrap() <= clock.normalize(121).unwrap());
    assert_eq!(clock.start.offset_ns(), 1_000);
    assert_eq!(clock.offset_drift_ns(), 10);
}

#[test]
fn interval_union_separates_sum_busy_and_gaps() {
    assert_eq!(interval_union(&[(10, 20), (15, 30), (40, 45)]).unwrap(), 25);
}

#[test]
fn interval_union_separates_sum_from_busy_time() {
    assert_eq!(interval_union(&[(10, 20), (15, 30), (40, 45)]).unwrap(), 25);
}

#[test]
fn interval_sums_are_checked() {
    assert_eq!(duration_sum(&[(10, 20), (15, 30), (40, 45)]).unwrap(), 30);
    assert_eq!(interval_union(&[]).unwrap(), 0);
    assert_eq!(duration_sum(&[(10, 20), (30, 45)]).unwrap(), 25);
    assert_eq!(interval_union(&[(10, 20), (30, 45)]).unwrap(), 25);
    assert!(matches!(
        duration_sum(&[(0, u64::MAX), (0, 1)]),
        Err(IntervalError::Overflow)
    ));
    assert!(matches!(interval_union(&[(5, 5)]), Err(IntervalError::Invalid)));
    assert!(matches!(
        interval_union(&[(5, 6), (4, 5)]),
        Err(IntervalError::UnsortedOrInvalid)
    ));
}

#[test]
fn qwen_kernel_families_are_explicit_and_conservative() {
    assert_eq!(
        classify_kernel(b"triton_red_fused__to_copy_add_mean_mul_pow_rsqrt_2"),
        KernelFamily::LayerNorm
    );
    assert_eq!(
        classify_kernel(b"internal::gemvx::kernel"),
        KernelFamily::Gemm
    );
    assert_eq!(
        classify_kernel(b"flash_fwd_splitkv_kernel"),
        KernelFamily::Attention
    );
    assert_eq!(
        classify_kernel(b"reshape_and_cache_flash_kernel"),
        KernelFamily::KvCache
    );
    assert_eq!(
        classify_kernel(b"unknown_future_kernel"),
        KernelFamily::Other
    );
}

#[test]
fn pc_parser_accepts_prefix() {
    assert_eq!(read_hex(b"0x120").unwrap(), 0x120);
}

#[test]
fn option_allowlist_is_closed() {
    assert!(known_option("--events"));
    assert!(!known_option("--accept-anything"));
}

#[test]
fn stable_request_hash_matches_python_fnv1a() {
    assert_eq!(
        stable_request_id(b"chatcmpl-semantic-smoke"),
        0xef3d06865cf2f3c6
    );
}

#[test]
fn exact_token_sequence_rejects_reordering_and_missing_tokens() {
    assert!(validate_exact_sequence("test", &[10, 20], &[(1, 20), (0, 10)]).is_ok());
    assert!(validate_exact_sequence("test", &[10, 20], &[(0, 20), (1, 10)]).is_err());
    assert!(validate_exact_sequence("test", &[10, 20], &[(0, 10)]).is_err());
}

fn two_owners() -> [OwnershipSlice; 2] {
    [
        OwnershipSlice {
            request_id: 1,
            phase: 2,
            scheduled_tokens: 2,
            row_begin: 0,
            row_end: 2,
            authoritative: true,
        },
        OwnershipSlice {
            request_id: 2,
            phase: 2,
            scheduled_tokens: 1,
            row_begin: 2,
            row_end: 3,
            authoritative: true,
        },
    ]
}

#[test]
fn owner_mapping_uses_authoritative_half_open_rows() {
    let owners = two_owners();
    assert_eq!(ownership::owner_for_row(&owners, 0), Some(0));
    assert_eq!(ownership::owner_for_row(&owners, 2), Some(1));
    assert_eq!(ownership::owner_for_row(&owners, 3), None);
}

#[test]
fn maps_only_authoritative_packed_rows() {
    let mut owners = two_owners();
    assert_eq!(ownership::owner_for_row(&owners, 0), Some(0));
    assert_eq!(ownership::owner_for_row(&owners, 2), Some(1));
    assert_eq!(ownership::owner_for_row(&owners, 3), None);
    owners[1].authoritative = false;
    assert_eq!(ownership::owner_for_row(&owners, 2), None);
}

#[test]
fn owner_lookup_respects_compacted_row_ranges() {
    let owners = [
        OwnershipSlice {
            request_id: 1,
            phase: 2,
            scheduled_tokens: 1,
            row_begin: 0,
            row_end: 1,
            authoritative: true,
        },
        OwnershipSlice {
            request_id: 9,
            phase: 1,
            scheduled_tokens: 3,
            row_begin: 1,
            row_end: 4,
            authoritative: true,
        },
    ];
    assert_eq!(samples::owner_for_row(0, &owners).unwrap().request_id, 1);
    assert_eq!(samples::owner_for_row(3, &owners).unwrap().request_id, 9);
    assert!(samples::owner_for_row(4, &owners).is_none());
}

fn node(exec: u64, replay: u32, node_id: u64, timestamp: u64) -> GraphNode {
    GraphNode {
        graph_exec: exec,
        replay_id: replay,
        node: node_id,
        grid_id: node_id + 100,
        host_timestamp_ns: timestamp,
        context_slot: 0,
        kernel_slot: 7,
        stream: 0,
        api_stream: 0,
        grid: Dim3 { x: 2, y: 1, z: 1 },
        block: Dim3 { x: 512, y: 1, z: 1 },
        expected_blocks: 2,
    }
}

#[test]
fn groups_replays_and_accepts_stable_topology() {
    let nodes = [
        node(9, 1, 11, 100),
        node(9, 1, 12, 101),
        node(9, 2, 11, 200),
        node(9, 2, 12, 201),
    ];
    let replays = group_replays(&nodes, 2).unwrap();
    assert_eq!(replays.len(), 2);
    validate_topologies(&nodes, &replays).unwrap();
}

#[test]
fn rejects_changed_topology_for_same_graph_exec() {
    let nodes = [
        node(9, 1, 11, 100),
        node(9, 1, 12, 101),
        node(9, 2, 11, 200),
        node(9, 2, 13, 201),
    ];
    let replays = group_replays(&nodes, 2).unwrap();
    assert!(validate_topologies(&nodes, &replays).is_err());
}

#[test]
fn event_type_remains_compact_copy_data() {
    assert_eq!(size_of::<DeviceEvent>(), 40);
}

#[test]
fn cold_projection_stays_smaller_than_wire_record() {
    assert!(size_of::<SampleEvent>() < EVENT_BYTES);
}

#[test]
fn instruction_classifier_is_bounded_and_case_insensitive() {
    assert_eq!(static_class(b"LDG.E.128 R4, [R2];"), "load");
    assert_eq!(static_class(b"bar.sync 0;"), "barrier");
    assert_eq!(static_class(b"HMMA.1688.F32 R0, R2, R4, R0;"), "tensor");
}

#[test]
fn reports_the_physical_line_for_invalid_json() {
    let lines = documents(b"\n{}\n");
    let mut read = Vec::new();
    for (line, document) in lines {
        let event = match serde_json::from_slice::<u64>(document) {
            Ok(_) => panic!("a bare number is no event"),
            Err(error) => Err(error.to_string()),
        };
        read.push(ReadLine { line, event });
    }
    let error = collect_events(read).unwrap_err().message();
    assert!(error.contains("line 2"), "unexpected error: {error}");
}

#[test]
fn decodes_query_manifest_shapes() {
    let encoded = [
        0x83, 0xa6, b's', b'c', b'h', b'e', b'm', b'a', 0xb5, b'G', b'P', b'U', b'_', b'O', b'B',
        b'S', b'E', b'R', b'V', b'E', b'R', b'_', b'Q', b'U', b'E', b'R', b'Y', b'_', b'0', b'1',
        0xa3, b'i', b'd', b's', 0x93, 0x01, 0xcd, 0x03, 0xe8, 0xff, 0xa2, b'o', b'k', 0xc3,
    ];
    let value = decode(&encoded).unwrap();
    assert_eq!(value.text_at("schema"), Some("GPU_OBSERVER_QUERY_01"));
    let ids = value.array_at("ids").unwrap();
    assert_eq!(ids[1].as_u64(), Some(1000));
    assert!(matches!(ids[2], Value::Negative(-1)));
    assert!(matches!(value.get("ok"), Some(Value::Bool(true))));
}

#[test]
fn rejects_trailing_and_binary_data() {
    assert!(decode(&[0xc0, 0xc0]).is_err());
    assert!(decode(&[0xc4, 0x00]).is_err());
}

#[test]
fn python_slice_abi_is_fixed() {
    assert_eq!(size_of::<SemanticSliceInput>(), 24);
    assert_eq!(align_of::<SemanticSliceInput>(), 8);
    assert_eq!(size_of::<PackedSliceInput>(), 40);
    assert_eq!(size_of::<PackedTokenInput>(), 32);
    assert_eq!(align_of::<PackedTokenInput>(), 8);
    assert_eq!(size_of::<OutputTokenInput>(), 16);
    assert_eq!(align_of::<OutputTokenInput>(), 8);
    assert_eq!(align_of::<PackedSliceInput>(), 8);
}

#[test]
fn faults_of_numbers_have_the_words_of_std() {
    let texts = [
        "",
        "+",
        "-",
        "0",
        "+7",
        "-7",
        "--7",
        "7 ",
        "x7",
        "7x",
        "4294967295",
        "4294967296",
        "4294967296x",
        "x4294967296",
        "18446744073709551615",
        "18446744073709551616",
        "99999999999999999999z",
        "-2147483648",
        "-2147483649",
        "-2147483649x",
        "2147483648",
        "ffffffffffffffff",
        "10000000000000000",
    ];
    for text in texts {
        let words = |fault: Option<NumberFault>| fault.map(|fault| fault_text(fault).to_owned());
        let bytes = text.as_bytes();
        assert_eq!(
            words(find_unsigned_fault(bytes, 10, u64::MAX)),
            text.parse::<u64>().err().map(|error| error.to_string())
        );
        assert_eq!(
            words(find_unsigned_fault(bytes, 10, u32::MAX as u64)),
            text.parse::<u32>().err().map(|error| error.to_string())
        );
        assert_eq!(
            words(find_i32_fault(bytes)),
            text.parse::<i32>().err().map(|error| error.to_string())
        );
        assert_eq!(
            words(find_unsigned_fault(bytes, 16, u64::MAX)),
            u64::from_str_radix(text, 16)
                .err()
                .map(|error| error.to_string())
        );
    }
}
