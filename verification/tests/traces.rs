use gpu_observer::blocks::DeviceEvent;
use gpu_observer::bundle::{
    assign_kernels, index_bundle_calls, kernel_shares, load_bundle_calls, load_bundle_kernels,
    load_clock, phase, step_phase, validate_output_tokens, validate_prompt_tokens,
};
use gpu_observer::bundle_view::{
    bundle_metrics, bundle_steps, hex_id, step_view, BundleTrace, StepRanges, StepRecords,
};
use gpu_observer::client::stable_request_id;
use gpu_observer::clock::{ClockMap, ClockPair};
use gpu_observer::cupti::{
    load_apis, load_family_kernels, load_kernels, load_runtimes, load_summary, phase_label,
    CuptiQuality, KernelFamily, StepPhase,
};
use gpu_observer::cupti_join::{join_arguments_valid, join_cupti};
use gpu_observer::deep_replay::{deep_replay, hash_is_valid, DeepInput};
use gpu_observer::focus::{evidence_for, focus_request, FocusTrace};
use gpu_observer::full_step::analyze_full_steps;
use gpu_observer::graph::{load_graph_nodes, load_ordinary_launches, load_probe_quality};
use gpu_observer::graph_join::{check_graph_arguments, join_graph, DeviceQuality, GraphInput};
use gpu_observer::msgpack::decode;
use gpu_observer::ownership::{OwnershipSlice, SemanticTrace, TraceStep};
use gpu_observer::pairing::{has_metric_titles, read_metric_row, PairTable};
use gpu_observer::sample_tables::{pc_table, request_table, single_line};
use gpu_observer::order::{arrange, arrange_in_place, arranged_copy};
use gpu_observer::samples::{
    check_sample_size, load_function, load_sample_events, load_sass, MAX_SAMPLE_TEXT_BYTES,
};
use gpu_observer::samples_join::{join_samples, SampleInput, SampledLaunch};
use gpu_observer::sanitizer::{
    check_replay_size, read_hits, replay_functions, MAX_SANITIZER_BYTES,
};
use gpu_observer::sass::Instruction;
use gpu_observer::semantic::{
    accepted_output_token, packed_layout_begin, packed_request_slice, packed_token_row,
    request_slice, step_begin,
};
use gpu_observer::text::lines;
use gpu_observer::trace_event::Dim3;

fn owner(request_id: u64, phase: u8, row_begin: u32, row_end: u32) -> OwnershipSlice {
    OwnershipSlice {
        request_id,
        phase,
        scheduled_tokens: row_end - row_begin,
        row_begin,
        row_end,
        authoritative: true,
    }
}

/// A prefill step of one request, then a decode step of two.
fn trace() -> SemanticTrace {
    SemanticTrace {
        steps: vec![
            TraceStep {
                begin: step_begin(1_000, 0, 1, 2, 2, 0, 0, 1, 1, 0, 0, 42, 43),
                packed_begin: Some(packed_layout_begin(1_050, 2, 1, 5, 2, 1, 0, 42, 43)),
                end_timestamp_ns: 2_000,
                owner_start: 0,
                owner_count: 1,
                scheduler_order_mismatches: 0,
            },
            TraceStep {
                begin: step_begin(3_000, 5, 2, 2, 0, 2, 0, 2, 2, 0, 0, 42, 43),
                packed_begin: Some(packed_layout_begin(3_050, 8, 2, 6, 2, 2, 0, 42, 43)),
                end_timestamp_ns: 4_000,
                owner_start: 1,
                owner_count: 2,
                scheduler_order_mismatches: 1,
            },
        ],
        owners: vec![owner(8, 1, 0, 2), owner(8, 2, 0, 1), owner(9, 2, 1, 2)],
        records: 12,
        loss_markers: 0,
        packed_steps: 2,
        max_steps_in_flight: 1,
        scheduler_order_mismatch_steps: 1,
    }
}

fn clock() -> ClockMap {
    ClockMap {
        start: ClockPair {
            cupti_ns: 100,
            monotonic_ns: 100,
            uncertainty_ns: 1,
        },
        end: ClockPair {
            cupti_ns: 10_000,
            monotonic_ns: 10_000,
            uncertainty_ns: 2,
        },
    }
}

fn quality(kernels: u64, calls: u64) -> CuptiQuality {
    CuptiQuality {
        register_result: 0,
        enable_result: 0,
        runtime_enable_result: 0,
        buffers_requested: 1,
        buffers_completed: 1,
        buffer_exhaustions: 0,
        records_seen: kernels + calls,
        target_records: kernels,
        invalid_records: 0,
        dropped_records: 0,
        api_records: calls,
        api_drops: 0,
        driver_enable_result: 0,
    }
}

const KERNELS: &str = "# format=GOCUPTI01 target=<all>\n\
start_ns\tend_ns\tdevice\tcontext\tstream\tcorrelation\tgrid_id\tgraph_node\tgraph\tgx\tgy\tgz\tbx\tby\tbz\tchannel\ttype\tname\n\
1200\t1300\t0\t1\t7\t11\t1\t0\t0\t2\t1\t1\t128\t1\t1\t0\t0\tinternal::gemvx::kernel\n\
3200\t3300\t0\t1\t7\t12\t2\t0\t0\t4\t1\t1\t128\t1\t1\t0\t0\treshape_and_cache_flash_kernel\n\
3250\t3400\t0\t1\t7\t13\t3\t5\t6\t2\t1\t1\t128\t1\t1\t0\t0\tflash_fwd_splitkv_kernel\n";

const CALLS: &str = "# format=GOCUPTI_RUNTIME01 x\n\
start_ns\tend_ns\tprocess\tthread\tcorrelation\tcbid\treturn\n\
1100\t1110\t42\t43\t11\t211\t0\n\
3100\t3110\t42\t43\t12\t211\t0\n\
3120\t3130\t42\t43\t13\t311\t0\n";

const SUMMARY: &str = "# format=GOCUPTI01 x\n\
titles\n\
0\t0\t0\t1\t1\t0\t6\t3\t0\t0\t3\t0\t0\n\
CLOCK_MONOTONIC_START\t100\t100\t1\tx\n\
CLOCK_MONOTONIC_END\t10000\t10000\t2\tx\n";

#[test]
fn activity_tables_are_read() {
    let kernels = load_kernels(KERNELS.as_bytes(), "k.tsv").ok().unwrap();
    assert_eq!(kernels.len(), 3);
    assert_eq!(kernels[1].grid, Dim3 { x: 4, y: 1, z: 1 });
    assert_eq!(kernels[2].graph_node_id, 5);
    let families = load_family_kernels(KERNELS.as_bytes(), "k.tsv").ok().unwrap();
    assert_eq!(families[0].family, KernelFamily::Gemm);
    assert_eq!(families[1].family, KernelFamily::KvCache);
    let calls = load_runtimes(CALLS.as_bytes(), "r.tsv").ok().unwrap();
    assert_eq!(calls.len(), 3);
    assert_eq!(calls, load_apis(CALLS.as_bytes(), "r.tsv").ok().unwrap());
    let (read, map) = load_summary(SUMMARY.as_bytes(), "s.tsv").ok().unwrap();
    assert_eq!(read, quality(3, 3));
    assert_eq!(map.end.uncertainty_ns, 2);
}

#[test]
fn activity_tables_are_refused_with_the_row() {
    let error = |text: &str| load_kernels(text.as_bytes(), "k.tsv").err().unwrap();
    assert_eq!(error(""), "invalid bounded input size 0 for k.tsv");
    let short = KERNELS.replace("\tflash_fwd_splitkv_kernel", "");
    assert_eq!(error(&short), "kernel row 5 is malformed");
    let reversed = KERNELS.replace("1200\t1300", "1300\t1200");
    assert_eq!(error(&reversed), "kernel row 3 is invalid");
    let untitled = KERNELS.replace("start_ns\t", "begin_ns\t");
    assert!(load_kernels(untitled.as_bytes(), "k.tsv").is_err());
    let unversioned = KERNELS.replace("# format=GOCUPTI01 target=<all>\n", "");
    assert_eq!(
        error(&unversioned),
        "CUPTI kernel trace lacks its versioned header"
    );
    let filtered = KERNELS.replace("<all>", "gemm");
    assert_eq!(
        load_family_kernels(filtered.as_bytes(), "k.tsv").err().unwrap(),
        "CUPTI activity trace is filtered; full-step analysis requires target=<all>"
    );
    assert_eq!(
        load_summary(b"x\n", "s.tsv").err().unwrap(),
        "CUPTI summary lacks its versioned header"
    );
    assert_eq!(
        load_summary(b"# format=GOCUPTI01 x\n\n", "s.tsv").err().unwrap(),
        "CUPTI summary is truncated"
    );
}

#[test]
fn full_steps_account_for_every_kernel() {
    let kernels = load_family_kernels(KERNELS.as_bytes(), "k").ok().unwrap();
    let calls = load_apis(CALLS.as_bytes(), "r").ok().unwrap();
    let report = analyze_full_steps(&trace(), &kernels, &calls, &quality(3, 3), clock())
        .ok()
        .unwrap();
    assert!(report.passed);
    assert_eq!(report.rows.len(), 2);
    assert_eq!(report.rows[0].kernel_count, 1);
    assert_eq!(report.rows[1].kernel_count, 2);
    assert_eq!(report.totals.kernels, 3);
    assert_eq!(report.totals.graph_kernels, 1);
    assert_eq!(report.totals.kernel_sum_ns, 350);
    assert_eq!(report.totals.per_step_busy_sum_ns, 300);
    assert_eq!(report.global_busy_union_ns, 300);
    assert_eq!(report.clock_offset_drift_ns, 0);
    assert!(!report.accounting_mismatch);
}

#[test]
fn full_steps_report_what_they_cannot_place() {
    let kernels = load_family_kernels(KERNELS.as_bytes(), "k").ok().unwrap();
    let other = CALLS.replace("\t13\t311", "\t14\t311");
    let calls = load_apis(other.as_bytes(), "r").ok().unwrap();
    let report = analyze_full_steps(&trace(), &kernels, &calls, &quality(3, 3), clock())
        .ok()
        .unwrap();
    assert_eq!(report.counts.unmatched_correlations, 1);
    assert!(!report.passed);
    let mut poor = quality(3, 3);
    poor.dropped_records = 1;
    assert!(analyze_full_steps(&trace(), &kernels, &calls, &poor, clock()).is_err());
    let mut lossy = trace();
    lossy.loss_markers = 1;
    assert!(analyze_full_steps(&lossy, &kernels, &calls, &quality(3, 3), clock()).is_err());
}

#[test]
fn decode_suffix_is_joined_to_its_kernels() {
    let kernels = load_kernels(KERNELS.as_bytes(), "k").ok().unwrap();
    let calls = load_runtimes(CALLS.as_bytes(), "r").ok().unwrap();
    let report = join_cupti(&trace(), &kernels, &calls, &quality(3, 3), clock(), 2, true)
        .ok()
        .unwrap();
    assert!(report.passed);
    assert_eq!(report.rows.len(), 1);
    assert_eq!(report.rows[0].step_id, 2);
    assert_eq!(report.rows[0].kernels, 2);
    assert_eq!(report.rows[0].kernel_sum_ns, 250);
    assert_eq!(report.rows[0].busy_union_ns, 200);
    assert_eq!(report.rows[0].overlap_ns, 50);
    assert_eq!(report.rows[0].padding_blocks, 2);
    assert_eq!(report.rows[0].first_gpu_lag_ns, 150);
    assert_eq!(report.owners.len(), 2);
    assert_eq!(report.owners[0].inferred_blocks, 2);
    assert_eq!(report.counts.kernels_outside_suffix, 1);
    let wrong = join_cupti(&trace(), &kernels, &calls, &quality(3, 3), clock(), 3, true)
        .ok()
        .unwrap();
    assert!(!wrong.passed);
    assert_eq!(wrong.totals.kernel_count_mismatches, 1);
    assert!(join_arguments_valid(1, true));
    assert!(!join_arguments_valid(0, true));
    assert!(!join_arguments_valid(8193, true));
    assert!(!join_arguments_valid(1, false));
}

#[test]
fn step_phases_are_labelled() {
    assert_eq!(phase_label(1, 0), Some(StepPhase::Prefill));
    assert_eq!(phase_label(0, 1), Some(StepPhase::Decode));
    assert_eq!(phase_label(1, 1), Some(StepPhase::Mixed));
    assert_eq!(phase_label(0, 0), None);
    assert_eq!(StepPhase::Mixed.label(), "mixed");
    assert_eq!(step_phase(1, 1), "mixed");
    assert_eq!(phase(1), "prefill");
    assert_eq!(phase(2), "decode");
}

const NODES: &str = "# format=GOSAN_GRAPH01 x\n\
graph_exec\treplay\tnode\tgrid_id\ths\tctx\tslot\tstream\tapi\tgx\tgy\tgz\tbx\tby\tbz\tblocks\tfunction\n\
0x9\t1\t0xb\t1\t3100\t0\t7\t0x0\t0x0\t3\t1\t1\t128\t1\t1\t3\treshape\n\
0x9\t1\t0xc\t2\t3110\t0\t7\t0x0\t0x0\t3\t1\t1\t128\t1\t1\t3\treshape\n";

const LAUNCHES: &str = "# format=GOSAN02 x\n\
launch_id\tgrid_id\ths\tctx\tslot\tstream\tgx\tgy\tgz\tbx\tby\tbz\tblocks\tfunction\n\
1\t1\t1100\t0\t7\t0x0\t2\t1\t1\t128\t1\t1\t2\treshape\n";

const PROBE: &str = "callback_data_scope=function launch_identity=0 attributed_launches=0 \
passive_launch_records=1 passive_launches_seen=1 launch_records=1 launch_table_drops=0 \
callback_data_failures=0 setup_missed_launches=0 graph_node_identity=1 graph_nodes_seen=2 \
graph_nodes_recorded=2 graph_node_table_drops=0\n";

fn block_event(sequence: u32, x: u32) -> DeviceEvent {
    DeviceEvent {
        launch_id: 0,
        sequence,
        device_timestamp_raw: 1,
        sm_id: 0,
        block: Dim3 { x, y: 0, z: 0 },
        kernel_slot: 7,
        kind: 1,
    }
}

#[test]
fn graph_replays_are_joined_block_by_block() {
    let trace = trace();
    let nodes = load_graph_nodes(NODES.as_bytes()).ok().unwrap();
    let launches = load_ordinary_launches(LAUNCHES.as_bytes()).ok().unwrap();
    let probe = load_probe_quality(PROBE.as_bytes()).ok().unwrap();
    let mut events: Vec<DeviceEvent> = Vec::new();
    for x in [9, 0, 2, 1, 2, 1, 0] {
        events.push(block_event(events.len() as u32, x));
    }
    let device = DeviceQuality {
        headers: 1,
        retained: 7,
        write_attempts: 7,
        drops: 0,
        sequence_errors: 0,
    };
    let report = join_graph(
        &GraphInput {
            trace: &trace,
            nodes: &nodes,
            launches: &launches,
            quality: probe,
            events: &events,
            device_quality: device,
        },
        2,
    )
    .ok()
    .unwrap();
    assert_eq!(report.steps.len(), 1);
    assert_eq!(report.steps[0].step_id, 2);
    assert_eq!(report.steps[0].graph_exec, 9);
    assert_eq!(report.owners.len(), 2);
    assert_eq!(report.owners[0].blocks, 2);
    assert_eq!(report.owners[1].blocks, 2);
    assert_eq!(report.padding_blocks, 2);
    assert_eq!(report.device_start, 1);
    assert_eq!(report.selected_events, 6);
    assert_eq!(report.verdict(true), Ok(()));

    events[3].block.x = 2;
    let refused = join_graph(
        &GraphInput {
            trace: &trace,
            nodes: &nodes,
            launches: &launches,
            quality: probe,
            events: &events,
            device_quality: device,
        },
        2,
    );
    assert_eq!(
        refused.err().unwrap(),
        "duplicate block coordinate inside a graph node"
    );
    assert!(check_graph_arguments(2, true, true).is_ok());
    assert!(check_graph_arguments(0, true, true).is_err());
    assert!(check_graph_arguments(2, false, true).is_err());
}

#[test]
fn graph_tables_are_refused_with_the_row() {
    let nodes = |text: &str| load_graph_nodes(text.as_bytes()).err().unwrap();
    assert_eq!(nodes(""), "invalid graph-node table size: 0");
    assert_eq!(
        nodes(&NODES.replace("\t3\treshape\n", "\n")),
        "graph-node row 3 is truncated"
    );
    assert_eq!(
        nodes(&NODES.replace("0x9\t1\t0xc", "0x0\t1\t0xc")),
        "graph-node row 4 is invalid"
    );
    assert_eq!(
        nodes("graph_exec\tx\n"),
        "graph-node table is missing its versioned header"
    );
    let launches = |text: &str| load_ordinary_launches(text.as_bytes()).err().unwrap();
    assert_eq!(
        launches(&LAUNCHES.replace("\n1\t1\t1100", "\n2\t1\t1100")),
        "ordinary-launch row 3 is invalid"
    );
    assert_eq!(
        launches("# format=GOSAN02 x\nlaunch_id\tx\n"),
        "ordinary-launch table is empty or missing its versioned header"
    );
    assert_eq!(
        load_probe_quality(b"x=1\n").err().unwrap(),
        "probe summary is missing callback_data_scope"
    );
}

const FUNCTIONS: &str = "context_slot\tkernel_slot\tlaunches\texpected_block_callbacks\tactual_callbacks\temitted\tdropped\tfunction_pc\tfunction_size\tmodule\tfunction\n\
0\t7\t1\t2\t3\t3\t0\t0x1000\t64\tm\treshape_and_cache\n\
0\t8\t1\t2\t0\t0\t0\t0x2000\t64\tm\treshape_idle\n";

const SASS: &str = "\t\tFunction : reshape_and_cache\n\
        /*0010*/\tSTG.E [R2], R4;\n\
        /*0000*/\tLDG.E.128 R4, [R2];\n\
\tFunction : other\n\
        /*0000*/ NOP;\n";

fn event_file(pcs: &[(u64, u32, u16)]) -> Vec<u8> {
    let mut header = vec![0_u8; 64];
    header[..8].copy_from_slice(b"GOSAN02\0");
    header[8..12].copy_from_slice(&2_u32.to_le_bytes());
    header[20..24].copy_from_slice(&64_u32.to_le_bytes());
    for offset in [24, 32, 40] {
        header[offset..offset + 8].copy_from_slice(&(pcs.len() as u64).to_le_bytes());
    }
    for (sequence, (pc, block, kind)) in pcs.iter().enumerate() {
        let mut raw = vec![0_u8; 64];
        raw[0..8].copy_from_slice(&(100 + sequence as u64).to_le_bytes());
        raw[8..16].copy_from_slice(&pc.to_le_bytes());
        raw[16..24].copy_from_slice(&77_u64.to_le_bytes());
        raw[24..32].copy_from_slice(&1_u64.to_le_bytes());
        raw[32..36].copy_from_slice(&(sequence as u32).to_le_bytes());
        raw[36..40].copy_from_slice(&7_u32.to_le_bytes());
        raw[40..44].copy_from_slice(&block.to_le_bytes());
        raw[58..60].copy_from_slice(&kind.to_le_bytes());
        raw[60..62].copy_from_slice(&16_u16.to_le_bytes());
        header.extend(raw);
    }
    header
}

const HASH: &[u8] = b"0123456789abcdef0123456789abcdef0123456789ABCDEF0123456789ABCDEF";

fn deep(events: &[u8], hash: &[u8]) -> Result<(u64, Vec<(u64, u64)>), String> {
    let summary = lines(FUNCTIONS.as_bytes());
    let sass = lines(SASS.as_bytes());
    deep_replay(&DeepInput {
        module_hash: hash,
        target: b"reshape",
        summary: &summary,
        events,
        sass: &sass,
    })
    .map(|replay| {
        let view = &replay.functions[0];
        (
            replay.total_events,
            view.sass
                .iter()
                .map(|instruction| (instruction.offset, instruction.samples))
                .collect(),
        )
    })
}

#[test]
fn deep_replay_counts_callbacks_at_their_instructions() {
    let events = event_file(&[(0x1000, 0, 2), (0x1010, 0, 3), (0x1010, 1, 3)]);
    assert_eq!(deep(&events, HASH), Ok((3, vec![(0, 1), (0x10, 2)])));
    assert!(hash_is_valid(HASH));
    assert_eq!(
        deep(&events, &HASH[1..]),
        Err("module hash must be SHA-256 hex".to_owned())
    );
    let stray = event_file(&[(0x1000, 0, 2), (0x1008, 0, 3), (0x1010, 1, 3)]);
    assert_eq!(
        deep(&stray, HASH),
        Err("sample PC offset 0x8 is absent from SASS for reshape_and_cache".to_owned())
    );
    let few = event_file(&[(0x1000, 0, 2)]);
    assert_eq!(
        deep(&few, HASH),
        Err("sanitizer function counters disagree for reshape_and_cache: callbacks=3 emitted=3 retained=1".to_owned())
    );
    let outside = event_file(&[(0x1040, 0, 2)]);
    assert_eq!(
        deep(&outside, HASH),
        Err("PC 0x1040 outside [0x1000,0x1040)".to_owned())
    );
    let mut lossy = events.clone();
    lossy[48] = 1;
    assert_eq!(
        deep(&lossy, HASH),
        Err("refusing dropped sanitizer events".to_owned())
    );
}

#[test]
fn sanitizer_files_are_checked() {
    let summary = lines(FUNCTIONS.as_bytes());
    let functions = replay_functions(&summary, b"reshape").ok().unwrap();
    assert_eq!(functions.len(), 1);
    assert_eq!(functions[0].slot, 7);
    assert_eq!(
        replay_functions(&summary, b"absent").err().unwrap(),
        "no target function in sanitizer summary"
    );
    let events = event_file(&[(0x1000, 0, 2)]);
    assert_eq!(read_hits(&events, &functions).ok().unwrap().total, 1);
    let mut bad = events.clone();
    bad[0] = b'X';
    assert_eq!(
        read_hits(&bad, &functions).err().unwrap(),
        "invalid GOSAN02 header"
    );
    let mut gap = events.clone();
    gap[64 + 32] = 9;
    assert_eq!(
        read_hits(&gap, &functions).err().unwrap(),
        "event sequence gap"
    );
}

#[test]
fn samples_are_given_to_the_owners_of_their_rows() {
    let mut trace = trace();
    trace.steps.truncate(1);
    trace.packed_steps = 1;
    let summary = lines(FUNCTIONS.as_bytes());
    let sass = lines(SASS.as_bytes());
    let function = load_function(&summary, b"reshape").ok().unwrap();
    let instructions = load_sass(&sass, b"reshape").ok().unwrap();
    let (events, quality) =
        load_sample_events(&event_file(&[(0x1000, 0, 2), (0x1010, 1, 3), (0x1010, 2, 3)]))
            .ok()
            .unwrap();
    let launches = [SampledLaunch {
        launch_id: 1,
        host_timestamp_ns: 1_100,
        kernel_slot: 7,
        grid: Dim3 { x: 3, y: 1, z: 1 },
        is_target: true,
    }];
    let report = join_samples(&SampleInput {
        trace: &trace,
        function,
        instructions: &instructions,
        launches: &launches,
        events: &events,
        quality,
    })
    .ok()
    .unwrap();
    assert_eq!(report.attributed, 2);
    assert_eq!(report.counts.padding, 1);
    assert_eq!(report.sampled_launches, 1);
    assert_eq!(
        request_table(&report.requests).lines().nth(1),
        Some("1\t0x0000000000000008\t1\t2\t32\t1\t1\t0\t0\t0\t0\t0\t100\t101")
    );
    let table = pc_table(&report.pcs, &sass, &instructions).unwrap();
    let text = String::from_utf8(table).unwrap();
    let rows: Vec<&str> = text.lines().collect();
    assert_eq!(
        rows,
        vec![
            "pc_offset\tevent_kind\tevent_name\tsamples\tstatic_class\tsass",
            "0x0\t2\tglobal_read\t1\tload\tLDG.E.128 R4, [R2];",
            "0x10\t3\tglobal_write\t1\tstore\tSTG.E [R2], R4;",
        ]
    );
    assert_eq!(single_line(b"a\tb\nc"), b"a b c");

    let mut orphan = events.clone();
    orphan[0].launch_id = 5;
    let refused = join_samples(&SampleInput {
        trace: &trace,
        function,
        instructions: &instructions,
        launches: &launches,
        events: &orphan,
        quality,
    });
    assert_eq!(
        refused.err().unwrap(),
        "instruction join failed: orphan=1 pc=0 geometry=0 ownership=0"
    );
}

#[test]
fn bundle_places_kernels_in_their_steps() {
    let kernels = load_bundle_kernels(KERNELS.as_bytes(), "k").ok().unwrap();
    let calls = load_bundle_calls(CALLS.as_bytes(), "r").ok().unwrap();
    let clock = load_clock(SUMMARY.as_bytes(), "s").ok().unwrap();
    let index = index_bundle_calls(&calls).ok().unwrap();
    let trace = trace();
    let placed = assign_kernels(&trace.steps, &kernels, &index, clock).ok().unwrap();
    assert_eq!(placed.len(), 2);
    assert_eq!(placed[0].len(), 1);
    assert_eq!(placed[1].len(), 2);
    assert_eq!(placed[1][0].submit_ns, 3_100);
    let shares = kernel_shares(&placed[1][0], 3_000, &trace.owners[1..]);
    assert!(shares.rows_are_blocks);
    assert_eq!(shares.owners.len(), 2);
    assert_eq!(shares.padding_blocks, 2);
    assert_eq!(shares.start_from_step_ns, 200);
    assert_eq!(shares.duration_ns, 100);
    let repeated = [calls[0], calls[0]];
    assert_eq!(
        index_bundle_calls(&repeated).err().unwrap(),
        "duplicate CUPTI correlation 11"
    );
}

fn text(value: &str) -> Vec<u8> {
    let mut bytes = vec![0xa0 | value.len() as u8];
    bytes.extend(value.as_bytes());
    bytes
}

fn manifest(ids: &[u8], key: &str, tokens_key: &str) -> Vec<u8> {
    let mut bytes = vec![0x82];
    bytes.extend(text(key));
    bytes.push(0x90 | ids.len() as u8);
    bytes.extend(ids);
    bytes.extend(text(tokens_key));
    bytes.push(0x90 | ids.len() as u8);
    for (position, id) in ids.iter().enumerate() {
        bytes.push(0x84);
        bytes.extend(text("id"));
        bytes.push(*id);
        bytes.extend(text("position"));
        bytes.push(position as u8);
        bytes.extend(text("raw"));
        bytes.extend(text("x"));
        bytes.extend(text("display"));
        bytes.push(0xc0);
    }
    bytes
}

#[test]
fn manifests_agree_with_the_recorded_tokens() {
    let query = decode(&manifest(&[5, 6], "prompt_token_ids", "tokens"))
        .ok()
        .unwrap();
    let rows = [
        packed_token_row(1, 0, 1, 8, 5, 0, 0, 5, 1, 0, 42, 43),
        packed_token_row(1, 1, 1, 8, 5, 1, 1, 6, 1, 0, 42, 43),
        packed_token_row(1, 2, 1, 9, 5, 2, 0, 99, 1, 0, 42, 43),
    ];
    assert_eq!(validate_prompt_tokens(&query, &rows, 8), Ok(()));
    assert!(validate_prompt_tokens(&query, &rows[..1], 8).is_err());
    let mut choices = vec![0x81, 0xa7];
    choices.extend(b"choices");
    choices.push(0x91);
    choices.extend(manifest(&[7], "token_ids", "tokens"));
    let output = decode(&choices).ok().unwrap();
    let accepted = [accepted_output_token(1, 0, 1, 8, 0, 7, 0, 42, 43)];
    assert_eq!(validate_output_tokens(&output, &accepted, 8), Ok(()));
    assert!(validate_output_tokens(&output, &[], 8).is_err());
}

#[test]
fn paired_runs_are_matched_arm_by_arm() {
    let titles = b"pair\tarm\tordinal\tttft_p99_ms\titl_p99_ms\tthroughput_tok_s\tttft_avg_ms\titl_avg_ms\tduration_s\tmixed_steps";
    assert!(has_metric_titles(titles));
    assert!(!has_metric_titles(&titles[1..]));
    let row = read_metric_row(b"7\tB\t1\t1.5\t2\t3\t4\t5\t6\t8", 2).ok().unwrap();
    assert_eq!((row.pair, row.arm), (7, b"B".as_slice()));
    assert_eq!(row.metrics[0], b"1.5");
    assert_eq!(row.metrics[6], b"8");
    assert_eq!(
        read_metric_row(b"7\tB", 4).err().unwrap(),
        "invalid field count on data line 4"
    );
    assert!(read_metric_row(b"x\tB\t1\t1\t2\t3\t4\t5\t6\t8", 2).is_err());

    let mut table = PairTable::new();
    assert_eq!(table.add_row(2, b"A", 0), Ok(()));
    assert_eq!(
        table.complete(),
        Err("paired analysis requires 2..=30 complete pairs")
    );
    assert_eq!(table.add_row(1, b"B", 1), Ok(()));
    assert_eq!(table.complete(), Err("pair is missing arm A"));
    assert_eq!(table.add_row(1, b"A", 2), Ok(()));
    assert_eq!(table.complete(), Err("pair is missing arm B"));
    assert_eq!(table.add_row(1, b"A", 3), Err("duplicate pair arm"));
    assert_eq!(table.add_row(1, b"C", 3), Err("arm must be A or B"));
    assert_eq!(table.add_row(2, b"B", 3), Ok(()));
    assert_eq!(table.complete(), Ok(vec![(1, 2, 1), (2, 0, 3)]));
}

#[test]
fn focused_request_must_be_in_the_trace() {
    let mut bytes = manifest(&[5], "prompt_token_ids", "tokens");
    bytes[0] += 2;
    for (key, name) in [
        ("internal_request_id", "inner"),
        ("external_request_id", "outer"),
    ] {
        bytes.extend(text(key));
        bytes.extend(text(name));
    }
    let query = decode(&bytes).ok().unwrap();
    let request = stable_request_id(b"inner");
    let slices = [request_slice(1, 0, 1, request, 1, 1, 0, 1, 42, 43)];
    let packed_tokens = [packed_token_row(1, 1, 1, request, 5, 0, 0, 5, 1, 0, 42, 43)];
    let mut trace = FocusTrace {
        loss_markers: 0,
        slices: &slices,
        packed_tokens: &packed_tokens,
        output_tokens: &[],
    };
    let focus = focus_request(&query, &None, &trace).ok().unwrap();
    assert_eq!(focus.internal_request_id, "inner");
    assert_eq!(focus.external_request_id, "outer");
    assert_eq!(focus.request, request);

    let output = Some(decode(&[0x80]).ok().unwrap());
    assert_eq!(
        focus_request(&query, &output, &trace).err().unwrap(),
        "output manifest choices are missing"
    );
    trace.packed_tokens = &[];
    assert_eq!(
        focus_request(&query, &None, &trace).err().unwrap(),
        "prompt-to-packed token count differs: manifest=1 observed=0"
    );
    trace.slices = &[];
    assert_eq!(
        focus_request(&query, &None, &trace).err().unwrap(),
        format!("focused request inner ({request:#018x}) is absent from semantic membership")
    );
    trace.loss_markers = 1;
    assert_eq!(
        focus_request(&query, &None, &trace).err().unwrap(),
        "refusing lossy semantic trace"
    );
}

#[test]
fn bundles_claim_what_was_captured() {
    let bare = evidence_for(false, false);
    assert_eq!((bare.measured.len(), bare.unavailable.len()), (5, 3));
    assert!(bare.matched.is_empty() && !bare.matched_replay);
    assert_eq!(
        bare.unavailable[2],
        "Frontend output-token strings; no output manifest was captured"
    );
    let full = evidence_for(true, true);
    assert_eq!((full.measured.len(), full.unavailable.len()), (7, 2));
    assert_eq!((full.matched.len(), full.reconstructed.len()), (2, 2));
    assert!(full.matched_replay);
}

#[test]
fn bad_numbers_are_told_in_reading_order() {
    let kernels = |from: &str, to: &str| {
        let text = KERNELS.replace(from, to);
        load_kernels(text.as_bytes(), "k").err().unwrap()
    };
    assert_eq!(kernels("1200\t1300", "12x0\t"), "invalid digit found in string");
    assert_eq!(
        kernels("1200\t1300", "\t13x"),
        "cannot parse integer from empty string"
    );
    assert_eq!(
        kernels("\t7\t11\t", "\t4294967296\t1x\t"),
        "number too large to fit in target type"
    );
    assert_eq!(kernels("\t7\t11\t", "\t-7\t11\t"), "invalid digit found in string");
    let summary = |from: &str, to: &str| {
        let text = SUMMARY.replace(from, to);
        load_summary(text.as_bytes(), "s").err().unwrap()
    };
    assert_eq!(
        summary("0\t0\t0\t1", "-2147483649\tx\t0\t1"),
        "number too small to fit in target type"
    );
    assert_eq!(summary("\t0\n", "\t-\n"), "invalid digit found in string");
    assert_eq!(
        summary("END\t10000\t10000", "END\t10000\t"),
        "cannot parse integer from empty string"
    );
    assert_eq!(
        load_graph_nodes(NODES.replace("0x9\t1\t0xc", "0xg\t1\t").as_bytes())
            .err()
            .unwrap(),
        "invalid digit found in string"
    );
    assert_eq!(
        load_graph_nodes(NODES.replace("0x9\t1\t0xc", "0x\t1\t0xc").as_bytes())
            .err()
            .unwrap(),
        "cannot parse integer from empty string"
    );
}

#[test]
fn refused_quality_is_written_out() {
    let mut poor = quality(3, 3);
    poor.driver_enable_result = -7;
    let families = load_family_kernels(KERNELS.as_bytes(), "k").ok().unwrap();
    let calls = load_apis(CALLS.as_bytes(), "r").ok().unwrap();
    assert_eq!(
        analyze_full_steps(&trace(), &families, &calls, &poor, clock())
            .err()
            .unwrap(),
        "CUPTI quality gate failed: CuptiQuality { register_result: 0, enable_result: 0, \
         runtime_enable_result: 0, buffers_requested: 1, buffers_completed: 1, \
         buffer_exhaustions: 0, records_seen: 6, target_records: 3, invalid_records: 0, \
         dropped_records: 0, api_records: 3, api_drops: 0, driver_enable_result: -7 }"
    );
    let kernels = load_kernels(KERNELS.as_bytes(), "k").ok().unwrap();
    assert_eq!(
        join_cupti(&trace(), &kernels, &calls, &poor, clock(), 1, false)
            .err()
            .unwrap(),
        "CUPTI quality gate failed: CuptiQuality { register_result: 0, enable_result: 0, \
         runtime_enable_result: 0, buffers_requested: 1, buffers_completed: 1, \
         buffer_exhaustions: 0, records_seen: 6, target_records: 3, invalid_records: 0, \
         dropped_records: 0, runtime_records: 3, runtime_drops: 0, driver_enable_result: -7 }"
    );
    let mut probe = load_probe_quality(PROBE.as_bytes()).ok().unwrap();
    probe.graph_node_table_drops = 4;
    let events = [block_event(0, 0)];
    let refused = join_graph(
        &GraphInput {
            trace: &trace(),
            nodes: &load_graph_nodes(NODES.as_bytes()).ok().unwrap(),
            launches: &load_ordinary_launches(LAUNCHES.as_bytes()).ok().unwrap(),
            quality: probe,
            events: &events,
            device_quality: DeviceQuality {
                headers: 1,
                retained: 1,
                write_attempts: 1,
                drops: 0,
                sequence_errors: 0,
            },
        },
        2,
    );
    assert_eq!(
        refused.err().unwrap(),
        format!("probe quality gate failed: {probe:?}")
    );
}

#[test]
fn bundle_shows_a_step_with_its_kernels() {
    let trace = trace();
    let kernels = load_bundle_kernels(KERNELS.as_bytes(), "k").ok().unwrap();
    let calls = load_bundle_calls(CALLS.as_bytes(), "r").ok().unwrap();
    let index = index_bundle_calls(&calls).ok().unwrap();
    let placed = assign_kernels(&trace.steps, &kernels, &index, clock()).ok().unwrap();
    let request = 0xab;
    let scheduled = [request_slice(3_010, 6, 2, request, 1, 1, 0, 2, 42, 43)];
    let packed = [packed_request_slice(3_060, 9, 2, request, 4, 0, 1, 1, 2, 0, 42, 43)];
    let tokens = [packed_token_row(3_070, 10, 2, request, 6, 0, 5, 77, 2, 0, 42, 43)];
    let outputs = [accepted_output_token(3_900, 11, 2, request, 3, 78, 0, 42, 43)];
    let view = step_view(
        &trace.steps[1],
        &StepRecords {
            scheduled: &scheduled,
            packed: &packed,
            packed_tokens: &tokens,
            output_tokens: &outputs,
            owners: &trace.owners[1..],
            kernels: &placed[1],
        },
    );
    assert_eq!((view.id, view.phase), (2, "decode"));
    assert_eq!((view.begin_ns.as_str(), view.end_ns.as_str()), ("3000", "4000"));
    assert_eq!(view.packed_ns.as_deref(), Some("3050"));
    assert_eq!(view.wall_ns, 1_000);
    assert_eq!((view.decode_tokens, view.active_requests), (2, 2));
    assert_eq!(view.scheduler_order_mismatches, 1);
    assert_eq!(view.scheduler_slices[0].request_id, "0x00000000000000ab");
    assert_eq!(view.scheduler_slices[0].phase, phase(scheduled[0].phase));
    let slice = &view.packed_slices[0];
    assert_eq!(slice.packed_index, packed[0].queue_depth);
    assert_eq!((slice.row_begin, slice.row_end), (packed[0].prefill_tokens, packed[0].decode_tokens));
    assert!(slice.authoritative);
    let token = &view.focused_packed_tokens[0];
    assert_eq!(token.packing_generation, tokens[0].sequence_id);
    assert_eq!((token.token_id, token.timestamp_ns.as_str()), (77, "3070"));
    let output = &view.accepted_output_tokens[0];
    assert_eq!((output.output_position, output.token_id), (3, 78));
    assert_eq!(output.timestamp_ns, "3900");

    assert_eq!(view.kernels.len(), 2);
    let writes = &view.kernels[0];
    assert_eq!((writes.line, writes.correlation_id), (4, 12));
    assert_eq!(writes.runtime_submit_ns, "3100");
    assert_eq!(writes.runtime_submit_from_step_ns, 100);
    assert_eq!((writes.start_from_step_ns, writes.end_from_step_ns), (200, 300));
    assert_eq!(writes.duration_ns, 100);
    assert_eq!((writes.process, writes.thread, writes.runtime_cbid), (42, 43, 211));
    assert_eq!(writes.grid, Dim3 { x: 4, y: 1, z: 1 });
    assert_eq!(writes.attribution, "validated_cache_row_to_block");
    assert_eq!(writes.padding_blocks, 2);
    assert_eq!(writes.request_block_ownership.len(), 2);
    assert_eq!(writes.request_block_ownership[1].request_id, hex_id(9));
    assert_eq!(
        writes.request_block_ownership[1].basis,
        "authoritative_packed_rows"
    );
    let other = &view.kernels[1];
    assert_eq!(other.attribution, "step_many_to_many_only");
    assert!(other.request_block_ownership.is_empty());
    assert_eq!((other.graph_node_id, other.graph_id), (5, 6));

    let metrics = bundle_metrics(&trace, &placed, clock());
    assert_eq!((metrics.engine_steps, metrics.cupti_kernels), (2, 3));
    assert_eq!(metrics.semantic_records, 12);
    assert_eq!(metrics.clock_offset_drift_ns, 0);
    assert_eq!(metrics.clock_end_uncertainty_ns, 2);
}

#[test]
fn bundle_cuts_the_records_of_each_step() {
    let trace = trace();
    let kernels = load_bundle_kernels(KERNELS.as_bytes(), "k").ok().unwrap();
    let calls = load_bundle_calls(CALLS.as_bytes(), "r").ok().unwrap();
    let index = index_bundle_calls(&calls).ok().unwrap();
    let mut placed = assign_kernels(&trace.steps, &kernels, &index, clock()).ok().unwrap();
    let slices = [
        request_slice(1_010, 1, 1, 8, 1, 2, 0, 1, 42, 43),
        request_slice(3_010, 6, 2, 8, 1, 1, 0, 2, 42, 43),
        request_slice(3_010, 7, 2, 9, 1, 1, 0, 2, 42, 43),
    ];
    let outputs = [accepted_output_token(3_900, 11, 2, 9, 3, 78, 0, 42, 43)];
    let range = |slice_start: usize, slice_count: usize, output_token_count: usize| StepRanges {
        slice_start,
        slice_count,
        packed_slice_start: 0,
        packed_slice_count: 0,
        packed_token_start: 0,
        packed_token_count: 0,
        output_token_start: 0,
        output_token_count,
    };
    let ranges = [range(0, 1, 0), range(1, 2, 1)];
    let bundle = BundleTrace {
        trace: &trace,
        ranges: &ranges,
        slices: &slices,
        packed_slices: &[],
        packed_tokens: &[],
        output_tokens: &outputs,
    };
    let views = bundle_steps(&bundle, &placed);
    assert_eq!(views.len(), 2);
    assert_eq!((views[0].id, views[1].id), (1, 2));
    assert_eq!(views[0].scheduler_slices.len(), 1);
    assert_eq!(views[0].accepted_output_tokens.len(), 0);
    assert_eq!(views[1].scheduler_slices[1].request_id, hex_id(9));
    assert_eq!(views[1].accepted_output_tokens[0].token_id, 78);
    assert_eq!((views[0].kernels.len(), views[1].kernels.len()), (1, 2));
    assert_eq!(views[1].kernels[0].request_block_ownership.len(), 2);
    placed.truncate(1);
    assert!(bundle_steps(&bundle, &placed)[1].kernels.is_empty());
}

#[test]
fn lines_that_are_no_text_are_refused() {
    let words = "stream did not contain valid UTF-8";
    let broken = |text: &str, from: &str| {
        let at = text.find(from).unwrap();
        let mut bytes = text.as_bytes().to_vec();
        bytes[at] = 0xff;
        bytes
    };
    let nodes = broken(NODES, "reshape");
    assert_eq!(load_graph_nodes(&nodes).err().unwrap(), words);
    let kernels = broken(KERNELS, "flash_fwd");
    assert_eq!(load_kernels(&kernels, "k").err().unwrap(), words);
    assert_eq!(load_bundle_kernels(&kernels, "k").err().unwrap(), words);
    // What is wrong with an earlier line comes first.
    let earlier = KERNELS.replace("1200\t1300", "1300\t1200");
    assert_eq!(
        load_kernels(&broken(&earlier, "flash_fwd"), "k").err().unwrap(),
        "kernel row 3 is invalid"
    );
    let mut summary = SUMMARY.as_bytes().to_vec();
    summary.push(0xff);
    assert_eq!(load_summary(&summary, "s").err().unwrap(), words);
    assert_eq!(load_clock(&summary, "s").err().unwrap(), words);
    assert_eq!(load_probe_quality(b"\xff\n").err().unwrap(), words);
    let table = broken(FUNCTIONS, "reshape_idle");
    assert_eq!(replay_functions(&lines(&table), b"reshape").err().unwrap(), words);
    assert_eq!(load_function(&lines(&table), b"reshape").err().unwrap(), words);
    let listing = broken(SASS, "STG.E");
    assert_eq!(load_sass(&lines(&listing), b"reshape").err().unwrap(), words);
}

#[test]
fn complaints_keep_the_words_of_their_analysis() {
    let short = SUMMARY.replace("CLOCK_MONOTONIC_START\t100\t100\t1\tx", "CLOCK_MONOTONIC_START\t1");
    assert_eq!(
        load_summary(short.as_bytes(), "s").err().unwrap(),
        "CUPTI clock row CLOCK_MONOTONIC_START is malformed"
    );
    assert_eq!(
        load_clock(short.as_bytes(), "s").err().unwrap(),
        "malformed CUPTI clock row CLOCK_MONOTONIC_START"
    );
    let mut tied = trace();
    tied.steps[1].packed_begin = tied.steps[0].packed_begin;
    let events = [block_event(0, 0)];
    let refused = join_graph(
        &GraphInput {
            trace: &tied,
            nodes: &load_graph_nodes(NODES.as_bytes()).ok().unwrap(),
            launches: &load_ordinary_launches(LAUNCHES.as_bytes()).ok().unwrap(),
            quality: load_probe_quality(PROBE.as_bytes()).ok().unwrap(),
            events: &events,
            device_quality: DeviceQuality {
                headers: 1,
                retained: 1,
                write_attempts: 1,
                drops: 0,
                sequence_errors: 0,
            },
        },
        2,
    );
    assert_eq!(
        refused.err().unwrap(),
        "packed-layout timestamps are not strictly increasing"
    );
}

#[test]
fn files_of_samples_and_replays_are_bounded() {
    assert_eq!(check_sample_size(1, "a"), Ok(()));
    assert_eq!(check_sample_size(MAX_SAMPLE_TEXT_BYTES as u64, "a"), Ok(()));
    for size in [0, MAX_SAMPLE_TEXT_BYTES as u64 + 1] {
        assert_eq!(
            check_sample_size(size, "a.tsv").err().unwrap(),
            "input violates size bound: a.tsv"
        );
    }
    assert_eq!(check_replay_size(MAX_SANITIZER_BYTES as u64, "a"), Ok(()));
    assert_eq!(
        check_replay_size(0, "a.tsv").err().unwrap(),
        "a.tsv has invalid bounded size 0"
    );
    assert_eq!(
        check_replay_size(268_435_457, "a.tsv").err().unwrap(),
        "a.tsv has invalid bounded size 268435457"
    );
}

#[test]
fn records_are_arranged_in_place_with_ties_in_order() {
    let pairs = |list: &[Instruction]| -> Vec<(u64, usize)> {
        list.iter().map(|entry| (entry.offset, entry.line)).collect()
    };
    for length in [0_usize, 1, 2, 3, 7, 64, 1_000] {
        let mut seed = 7_u64;
        let mut list = Vec::with_capacity(length);
        for line in 0..length {
            seed = seed.wrapping_mul(6_364_136_223_846_793_005).wrapping_add(1);
            list.push(Instruction {
                offset: (seed >> 40) % 50,
                line,
            });
        }
        let mut expected = pairs(&list);
        expected.sort_by_key(|entry| entry.0);
        assert_eq!(pairs(&arranged_copy(&list)), expected);
        let mut in_place = list.clone();
        arrange_in_place(&mut in_place);
        assert_eq!(pairs(&in_place), expected);
        let room = list.as_ptr();
        let sorted = arrange(list);
        assert_eq!(pairs(&sorted), expected);
        assert_eq!(sorted.as_ptr(), room);
        in_place.reverse();
        arrange_in_place(&mut in_place);
        assert!(in_place.windows(2).all(|two| two[0].offset <= two[1].offset));
    }
}
