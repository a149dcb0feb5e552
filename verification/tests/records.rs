use core::mem::size_of;

use gpu_observer::correlation::{
    correlate, index_bytes, DiagnosticCode, KernelExecution, Membership, StepState, StepSummary,
    TraceBuilder,
};
use gpu_observer::event::{
    CudaKernelLaunchData, CuptiKernelActivityData, Dim3, EngineStepBeginData, EngineStepEndData,
    EventContext, EventFlags, EventRecord, RequestPhase, SourceKind, StepRequestSliceData,
    EVENT_RECORD_BYTES,
};
use gpu_observer::launch::{
    CudaLaunchEvent, DecodeError, LaunchFlags, LaunchTally, CUDA_LAUNCH_ABI_VERSION,
    CUDA_LAUNCH_EVENT_BYTES, CUDA_LAUNCH_MAGIC,
};
use gpu_observer::policy::{detect_prefill_interference, DetectorConfig};

const CONTEXT: EventContext = EventContext {
    source_timestamp_ns: 100,
    timestamp_ns: 110,
    sequence: 7,
    pid: 42,
    tid: 43,
    clock_id: 1,
    flags: EventFlags::TIMESTAMP_NORMALIZED,
    source: SourceKind::Vllm,
};

fn context(source: SourceKind, timestamp_ns: u64, sequence: u64, flags: u16) -> EventContext {
    EventContext {
        source_timestamp_ns: timestamp_ns,
        timestamp_ns,
        sequence,
        pid: 42,
        tid: 43,
        clock_id: 1,
        flags: flags | EventFlags::TIMESTAMP_NORMALIZED,
        source,
    }
}

fn mixed_step() -> Vec<EventRecord> {
    vec![
        EventRecord::engine_step_begin(
            context(SourceKind::Vllm, 100, 1, 0),
            EngineStepBeginData {
                step_id: 172,
                scheduled_tokens: 257,
                prefill_tokens: 256,
                decode_tokens: 1,
                queue_depth: 3,
                active_requests: 2,
                expected_slices: 2,
                kv_cache_usage_permyriad: 5_000,
                reserved: 0,
            },
        ),
        EventRecord::step_request_slice(
            context(SourceKind::Vllm, 101, 2, 0),
            StepRequestSliceData {
                step_id: 172,
                request_id: 1,
                sequence_id: 1,
                scheduled_tokens: 1,
                service_class_id: 1,
                phase: RequestPhase::Decode,
                reserved: 0,
            },
        ),
        EventRecord::step_request_slice(
            context(SourceKind::Vllm, 102, 3, 0),
            StepRequestSliceData {
                step_id: 172,
                request_id: 2,
                sequence_id: 2,
                scheduled_tokens: 256,
                service_class_id: 2,
                phase: RequestPhase::Prefill,
                reserved: 0,
            },
        ),
        EventRecord::cuda_kernel_launch(
            context(
                SourceKind::HostProbe,
                105,
                4,
                EventFlags::HAS_CORRELATION_ID,
            ),
            CudaKernelLaunchData {
                correlation_id: 99,
                stream: 7,
                kernel_function: 0x1234,
                graph_id: 0,
                grid: Dim3 { x: 8, y: 1, z: 1 },
                block: Dim3 { x: 128, y: 1, z: 1 },
                shared_memory_bytes: 0,
                kernel_symbol_id: 10,
            },
        ),
        EventRecord::engine_step_end(
            context(SourceKind::Vllm, 110, 5, 0),
            EngineStepEndData {
                step_id: 172,
                status: 0,
                reserved: [0; 7],
            },
        ),
        EventRecord::cupti_kernel_activity(
            context(SourceKind::Cupti, 120, 6, 0),
            CuptiKernelActivityData {
                correlation_id: 99,
                stream: 7,
                duration_ns: 20,
                graph_id: 0,
                kernel_symbol_id: 10,
                device_id: 0,
                context_id: 1,
                reserved: 0,
            },
        ),
    ]
}

#[test]
fn record_layout_is_fixed_and_dense() {
    assert_eq!(size_of::<EventRecord>(), EVENT_RECORD_BYTES);
    assert_eq!(core::mem::align_of::<EventRecord>(), 8);
}

#[test]
fn typed_access_does_not_allocate_or_cast_invalid_payloads() {
    let data = EngineStepBeginData {
        step_id: 172,
        scheduled_tokens: 258,
        prefill_tokens: 256,
        decode_tokens: 2,
        queue_depth: 18,
        active_requests: 3,
        expected_slices: 3,
        kv_cache_usage_permyriad: 7_500,
        reserved: 0,
    };
    let event = EventRecord::engine_step_begin(CONTEXT, data);
    assert_eq!(event.as_engine_step_begin(), Some(data));
    assert_eq!(event.as_cuda_kernel_launch(), None);
}

#[test]
fn mixed_step_stays_many_to_many_and_links_async_gpu_activity() {
    let mut events = mixed_step();
    let trace = correlate(&mut events).unwrap();
    assert_eq!(trace.steps().len(), 1);
    assert_eq!(trace.memberships_for_step(&trace.steps()[0]).len(), 2);
    assert_eq!(trace.kernels_for_step(&trace.steps()[0]).len(), 1);
    assert_eq!(trace.steps()[0].gpu_busy_time_ns, 20);
    assert_eq!(trace.kernels()[0].gpu_start_timestamp_ns, 120);
}

#[test]
fn correlation_does_not_depend_on_arrival_order() {
    let mut forward = mixed_step();
    let mut backward = mixed_step();
    backward.reverse();
    let one = correlate(&mut forward).unwrap();
    let other = correlate(&mut backward).unwrap();
    assert_eq!(one.steps(), other.steps());
    assert_eq!(one.memberships(), other.memberships());
    assert_eq!(one.kernels(), other.kernels());
    assert!(one.diagnostics().is_empty());
    assert!(one.allocated_bytes_lower_bound() >= size_of::<StepSummary>());
}

#[test]
fn builder_makes_the_trace_of_arranged_events() {
    let mut events = mixed_step();
    let trace = correlate(&mut events).unwrap();
    let built = TraceBuilder::try_new(1, 2, 1, 1).unwrap().build(&events);
    assert_eq!(built.steps(), trace.steps());
    assert_eq!(built.memberships(), trace.memberships());
    assert_eq!(built.kernels(), trace.kernels());
    assert_eq!(built.diagnostics(), trace.diagnostics());
}

#[test]
fn loss_flag_downgrades_trace_precision() {
    let mut events = [EventRecord::engine_step_end(
        context(SourceKind::Vllm, 100, 4, EventFlags::DROPPED_BEFORE),
        EngineStepEndData {
            step_id: 172,
            status: 0,
            reserved: [0; 7],
        },
    )];
    let trace = correlate(&mut events).unwrap();
    assert!(trace
        .diagnostics()
        .iter()
        .any(|diagnostic| diagnostic.code == DiagnosticCode::TelemetryLoss));
}

#[test]
fn hot_index_records_have_bounded_layouts() {
    assert!(size_of::<StepSummary>() <= 112);
    assert!(size_of::<Membership>() <= 40);
    assert!(size_of::<KernelExecution>() <= 128);
}

fn launch() -> CudaLaunchEvent {
    CudaLaunchEvent::new(
        100,
        7,
        0x1111,
        0x2222,
        42,
        43,
        9,
        512,
        8,
        4,
        1,
        128,
        1,
        1,
        LaunchFlags::STREAM_VALID,
    )
}

#[test]
fn wire_layout_is_fixed_and_round_trips() {
    let event = launch();
    assert_eq!(size_of::<CudaLaunchEvent>(), CUDA_LAUNCH_EVENT_BYTES);
    assert_eq!(CudaLaunchEvent::decode(&event.encode()), Ok(event));
}

#[test]
fn decoder_rejects_wrong_length_and_version() {
    assert_eq!(CudaLaunchEvent::decode(&[0; 8]), Err(DecodeError::Length));

    let mut event = CudaLaunchEvent::default();
    event.magic = CUDA_LAUNCH_MAGIC;
    event.abi_version = CUDA_LAUNCH_ABI_VERSION + 1;
    event.record_size = CUDA_LAUNCH_EVENT_BYTES as u16;
    assert_eq!(
        CudaLaunchEvent::decode(&event.encode()),
        Err(DecodeError::Version)
    );
}

#[test]
fn launches_are_tallied_by_what_they_decode_to() {
    let mut tally = LaunchTally::default();
    tally.record(&Ok(launch()));
    tally.record(&Err(DecodeError::Magic));
    let mut extended = launch();
    extended.flags = LaunchFlags::EXTENDED_CONFIG | LaunchFlags::DROPPED_BEFORE;
    tally.record(&Ok(extended));
    assert_eq!(
        tally,
        LaunchTally {
            events: 2,
            regular: 1,
            extended: 1,
            malformed: 1,
            loss_markers: 1,
        }
    );
}

fn membership(phase: RequestPhase, service_class_id: u16) -> Membership {
    Membership {
        step_index: 0,
        slice: StepRequestSliceData {
            step_id: 7,
            request_id: service_class_id as u64,
            sequence_id: 1,
            scheduled_tokens: 1,
            service_class_id,
            phase,
            reserved: 0,
        },
    }
}

fn step() -> StepSummary {
    StepSummary {
        pid: 42,
        step_id: 7,
        begin_timestamp_ns: 1,
        end_timestamp_ns: 2,
        scheduled_tokens: 257,
        prefill_tokens: 256,
        decode_tokens: 1,
        queue_depth: 3,
        active_requests: 2,
        expected_slices: 2,
        kv_cache_usage_permyriad: 5_000,
        state: 0,
        membership_start: 0,
        membership_count: 2,
        kernel_start: 0,
        kernel_count: 1,
        graph_launch_count: 0,
        unmatched_launch_count: 0,
        kernel_time_sum_ns: 2_000,
        gpu_busy_time_ns: 1_500,
        gpu_span_ns: 1_500,
    }
}

#[test]
fn detects_only_the_interpretable_mixed_step_condition() {
    let config = DetectorConfig {
        large_prefill_tokens: 128,
        minimum_gpu_busy_ns: 1_000,
        interactive_service_class_id: 1,
    };
    let mixed = [
        membership(RequestPhase::Decode, 1),
        membership(RequestPhase::Prefill, 2),
    ];
    assert!(detect_prefill_interference(config, &step(), &mixed).is_some());

    let decode_only = [membership(RequestPhase::Decode, 1)];
    assert_eq!(
        detect_prefill_interference(config, &step(), &decode_only),
        None
    );
}

fn end_of(step_id: u64, timestamp_ns: u64, sequence: u64) -> EventRecord {
    EventRecord::engine_step_end(
        context(SourceKind::Vllm, timestamp_ns, sequence, 0),
        EngineStepEndData {
            step_id,
            status: 0,
            reserved: [0; 7],
        },
    )
}

#[test]
fn entries_of_a_step_name_it_and_lie_within_it() {
    let mut events = mixed_step();
    let mut second = mixed_step();
    for (index, event) in second.iter_mut().enumerate() {
        event.header.timestamp_ns += 1_000;
        event.header.sequence = 10 + index as u64;
    }
    events.extend(second);
    let trace = correlate(&mut events).unwrap();
    assert_eq!(trace.steps().len(), 2);
    let mut memberships = Vec::new();
    let mut kernels = Vec::new();
    for (index, step) in trace.steps().iter().enumerate() {
        for membership in trace.memberships_for_step(step) {
            assert_eq!(membership.step_index as usize, index);
            assert_eq!(membership.slice.step_id, step.step_id);
            memberships.push(*membership);
        }
        for kernel in trace.kernels_for_step(step) {
            assert_eq!(kernel.step_index as usize, index);
            assert_eq!(kernel.pid, step.pid);
            assert!(step.begin_timestamp_ns <= kernel.host_launch_timestamp_ns);
            assert!(kernel.host_launch_timestamp_ns <= step.end_timestamp_ns);
            kernels.push(*kernel);
        }
    }
    assert_eq!(memberships, trace.memberships());
    assert_eq!(kernels, trace.kernels());
    assert_eq!((memberships.len(), kernels.len()), (4, 2));
}

#[test]
fn every_event_is_kept_or_reported() {
    let mut events = mixed_step();
    // A step that begins twice, and stays open.
    for sequence in [20, 21] {
        let mut begin = mixed_step()[0];
        begin.header.timestamp_ns = 500 + sequence;
        begin.header.sequence = sequence;
        events.push(begin);
    }
    // An end of no step, a slice and a launch outside any, an activity of none.
    events.push(end_of(9, 600, 30));
    for (index, place) in [1, 3, 5].into_iter().enumerate() {
        let mut event = mixed_step()[place];
        event.header.timestamp_ns = 50;
        event.header.sequence = 40 + index as u64;
        events.push(event);
    }
    let trace = correlate(&mut events).unwrap();
    let count = |code: DiagnosticCode| {
        trace
            .diagnostics()
            .iter()
            .filter(|diagnostic| diagnostic.code == code)
            .count()
    };
    let open = trace
        .steps()
        .iter()
        .filter(|step| step.state & StepState::OPEN != 0)
        .count();
    assert_eq!((trace.steps().len(), open), (3, 2));
    assert_eq!(count(DiagnosticCode::OpenStep), 1);
    assert_eq!(count(DiagnosticCode::DuplicateStepBegin), 1);
    assert_eq!(count(DiagnosticCode::StepEndWithoutBegin), 1);
    assert_eq!(trace.memberships().len(), 2);
    assert_eq!(count(DiagnosticCode::SliceWithoutOpenStep), 1);
    assert_eq!(trace.kernels().len(), 1);
    assert_eq!(count(DiagnosticCode::LaunchOutsideStep), 1);
    assert_eq!(count(DiagnosticCode::ActivityWithoutLaunch), 1);
}

#[test]
fn index_bytes_are_those_of_the_capacities() {
    let trace = correlate(&mut mixed_step()).unwrap();
    let bytes = index_bytes(
        trace.steps().len(),
        trace.memberships().len(),
        trace.kernels().len(),
        trace.diagnostics().len(),
    );
    assert_eq!(
        bytes,
        size_of::<StepSummary>() + 2 * size_of::<Membership>() + size_of::<KernelExecution>()
    );
    assert!(trace.allocated_bytes_lower_bound() >= bytes);
    assert_eq!(index_bytes(0, 0, 0, 0), 0);
    assert_eq!(index_bytes(usize::MAX, 0, 0, 1), usize::MAX);
}
