use gpu_observer::compact::{compact_events, compact_in, CompactStorage};
use gpu_observer::correlation::CorrelationError;
use gpu_observer::error::ObserverError;
use gpu_observer::jsonl::{collect_events, documents, ReadLine};
use gpu_observer::reporting::{correlate, correlate_checked, report_failure, report_outcome,
    report_trace};
use gpu_observer::trace_event::{Dim3, Event, EventKind, RequestPhase, RequestSlice};

fn event(id: &str, source: &str, timestamp_ns: u64, kind: EventKind) -> Event {
    Event {
        schema_version: 1,
        event_id: id.to_owned(),
        source: source.to_owned(),
        timestamp_ns,
        clock_domain: "monotonic".to_owned(),
        normalized_timestamp_ns: None,
        pid: 42,
        tid: Some(43),
        kind,
    }
}

fn slice(request: &str, phase: RequestPhase, tokens: u32, class: &str) -> RequestSlice {
    RequestSlice {
        request_id: request.to_owned(),
        sequence_id: Some(1),
        phase,
        scheduled_tokens: tokens,
        service_class: Some(class.to_owned()),
    }
}

/// A step of two requests whose kernel runs after the step has ended.
fn mixed_trace() -> Vec<Event> {
    vec![
        event(
            "received",
            "workload",
            10,
            EventKind::RequestReceived {
                request_id: "chat".to_owned(),
                service_class: Some("interactive".to_owned()),
                input_tokens: Some(5),
                requested_output_tokens: None,
            },
        ),
        event(
            "queued",
            "vllm",
            20,
            EventKind::RequestQueued {
                request_id: "chat".to_owned(),
                queue_depth: 1,
            },
        ),
        event(
            "begin",
            "vllm",
            100,
            EventKind::EngineStepBegin {
                step_id: 101,
                request_slices: vec![
                    slice("chat", RequestPhase::Decode, 1, "interactive"),
                    slice("batch", RequestPhase::Prefill, 256, "background"),
                ],
                prefill_tokens: 256,
                decode_tokens: 1,
                scheduled_tokens: 257,
                queue_depth: 3,
                active_requests: Some(2),
                kv_cache_usage_permyriad: Some(5_000),
            },
        ),
        event(
            "launch",
            "host_probe",
            105,
            EventKind::CudaKernelLaunch {
                correlation_id: Some(99),
                stream: 7,
                kernel_function: "0x1234".to_owned(),
                kernel_symbol: Some("gemm".to_owned()),
                grid: Dim3 { x: 8, y: 1, z: 1 },
                block: Dim3 { x: 128, y: 1, z: 1 },
                shared_memory_bytes: 0,
                graph_id: None,
            },
        ),
        event(
            "end",
            "vllm",
            110,
            EventKind::EngineStepEnd {
                step_id: 101,
                status: None,
            },
        ),
        event(
            "activity",
            "cupti",
            120,
            EventKind::CuptiKernelActivity {
                correlation_id: 99,
                stream: 7,
                kernel_name: "gemm".to_owned(),
                duration_ns: 20,
                device_id: Some(0),
                context_id: Some(1),
                graph_id: None,
            },
        ),
        event(
            "completed",
            "workload",
            200,
            EventKind::RequestCompleted {
                request_id: "chat".to_owned(),
                input_tokens: 5,
                output_tokens: 1,
                ttft_ns: Some(90),
                e2e_latency_ns: 190,
            },
        ),
    ]
}

#[test]
fn compatibility_boundary_uses_compact_many_to_many_core() {
    let events = mixed_trace();
    let report = correlate_checked(&events).unwrap();
    let step = report
        .steps
        .iter()
        .find(|step| step.step_id == 101)
        .unwrap();
    assert_eq!(step.request_slices.len(), 2);
    assert_eq!(step.unmatched_cuda_launches, 0);
    assert!(report.hot_event_record_bytes <= 128);
    assert!(report.core_index_bytes > 0);
}

#[test]
fn cupti_activity_after_step_end_still_matches_submission() {
    let events = mixed_trace();
    let report = correlate_checked(&events).unwrap();
    let step = report
        .steps
        .iter()
        .find(|step| step.step_id == 101)
        .unwrap();
    assert!(step.kernels.iter().any(|kernel| {
        kernel.gpu_start_timestamp_ns.unwrap() > step.end_timestamp_ns.unwrap()
    }));
}

#[test]
fn report_speaks_in_the_names_of_the_events() {
    let report = correlate_checked(&mixed_trace()).unwrap();
    assert_eq!(report.input_event_count, 7);
    let step = &report.steps[0];
    assert_eq!(step.wall_time_ns, Some(10));
    assert_eq!(step.gpu_busy_time_ns, 20);
    assert_eq!(step.kv_cache_usage_permyriad, Some(5_000));
    let kernel = &step.kernels[0];
    assert_eq!(kernel.launch_event_id, "launch");
    assert_eq!(kernel.activity_event_id.as_deref(), Some("activity"));
    assert_eq!(kernel.kernel_name.as_deref(), Some("gemm"));
    assert_eq!(kernel.gpu_duration_ns, Some(20));
    let chat = report
        .requests
        .iter()
        .find(|request| request.request_id == "chat")
        .unwrap();
    assert_eq!(chat.step_ids, vec![101]);
    assert_eq!(chat.shared_with_request_ids, vec!["batch".to_owned()]);
    assert_eq!(chat.service_class.as_deref(), Some("interactive"));
    assert_eq!(chat.queue_delay_ns, Some(80));
    assert_eq!(chat.ttft_ns, Some(90));
    assert_eq!(chat.e2e_latency_ns, Some(190));
}

#[test]
fn records_stand_for_their_events() {
    let events = mixed_trace();
    let input = compact_events(&events).unwrap();
    assert_eq!(input.names.kernel_symbols.len(), 1);
    let chat = input.names.request_names.id("chat");
    assert_eq!(
        input.names.request_names.name(chat as u64),
        Some("chat")
    );
    assert_eq!(input.names.request_names.name(u64::MAX), None);
    for record in &input.records {
        let sequence = record.header.sequence as usize;
        assert!(1 <= sequence && sequence <= input.sequence_event_ids.len());
    }
    assert!(input
        .sequence_event_ids
        .iter()
        .any(|name| name.text == "launch"));
}

#[test]
fn trace_without_events_gives_an_empty_report() {
    let report = correlate(&[]);
    assert!(report.steps.is_empty());
    assert!(report.requests.is_empty());
    assert_eq!(report.input_event_count, 0);
    assert_eq!(report.schema_version, 1);
}

#[test]
fn unusable_pointer_is_blamed_on_its_event() {
    let mut events = mixed_trace();
    if let EventKind::CudaKernelLaunch {
        kernel_function, ..
    } = &mut events[3].kind
    {
        *kernel_function = "gemm".to_owned();
    }
    let error = correlate_checked(&events).unwrap_err();
    assert!(matches!(
        &error,
        ObserverError::InvalidEvent { event_id, .. } if event_id == "launch"
    ));
}

fn problem(change: impl Fn(&mut Event)) -> String {
    let mut event = mixed_trace().swap_remove(2);
    change(&mut event);
    event.validate().unwrap_err().message()
}

#[test]
fn events_that_break_a_rule_are_told_which() {
    assert_eq!(
        problem(|event| event.schema_version = 2),
        "invalid event begin: unsupported schema version 2; expected 1"
    );
    assert_eq!(
        problem(|event| event.event_id = " ".to_owned()),
        "invalid event  : event_id must not be empty"
    );
    assert_eq!(
        problem(|event| event.source = "\u{a0}".to_owned()),
        "invalid event begin: source must not be empty"
    );
    assert_eq!(
        problem(|event| event.clock_domain = String::new()),
        "invalid event begin: clock_domain must not be empty"
    );
    assert_eq!(
        problem(|event| {
            if let EventKind::EngineStepBegin {
                scheduled_tokens, ..
            } = &mut event.kind
            {
                *scheduled_tokens = 3;
            }
        }),
        "invalid event begin: sum(request_slices.scheduled_tokens) must equal scheduled_tokens"
    );
    assert_eq!(
        problem(|event| {
            if let EventKind::EngineStepBegin { decode_tokens, .. } = &mut event.kind {
                *decode_tokens = 3;
            }
        }),
        "invalid event begin: prefill_tokens + decode_tokens must equal scheduled_tokens"
    );
    let mut activity = mixed_trace().swap_remove(5);
    if let EventKind::CuptiKernelActivity { duration_ns, .. } = &mut activity.kind {
        *duration_ns = 0;
    }
    assert_eq!(
        activity.validate().unwrap_err().message(),
        "invalid event activity: CUPTI kernel duration must be greater than zero"
    );
    assert!(mixed_trace().iter().all(|event| event.validate().is_ok()));
}

#[test]
fn errors_are_put_in_words() {
    assert_eq!(
        ObserverError::Io("gone".to_owned()).message(),
        "I/O error: gone"
    );
    assert_eq!(
        ObserverError::Json {
            line: 4,
            detail: "bad".to_owned()
        }
        .message(),
        "invalid JSON event on line 4: bad"
    );
    assert_eq!(ObserverError::Usage("use".to_owned()).message(), "use");
}

#[test]
fn blank_lines_hold_no_documents() {
    let found = documents(b"a\r\n \t\n\nb");
    assert_eq!(found, vec![(1, b"a".as_slice()), (4, b"b".as_slice())]);
    let lines = mixed_trace()
        .into_iter()
        .enumerate()
        .map(|(index, event)| ReadLine {
            line: index + 1,
            event: Ok(event),
        })
        .collect();
    assert_eq!(collect_events(lines).unwrap().len(), 7);
    let mut broken = mixed_trace();
    broken[1].source = String::new();
    let lines = broken
        .into_iter()
        .map(|event| ReadLine {
            line: 1,
            event: Ok(event),
        })
        .collect();
    assert_eq!(
        collect_events(lines).unwrap_err().message(),
        "invalid event queued: source must not be empty"
    );
}

#[test]
fn refused_memory_is_reported() {
    let events = mixed_trace();
    let storage = CompactStorage::try_new(32, events.len()).ok().unwrap();
    let compact = compact_in(&events, storage).ok().unwrap();
    for (cause, words) in [
        (
            CorrelationError::AllocationFailed,
            "core correlation failed: AllocationFailed",
        ),
        (
            CorrelationError::IndexOverflow,
            "core correlation failed: IndexOverflow",
        ),
    ] {
        let error = report_trace(&events, &compact, Err(cause)).err().unwrap();
        assert_eq!(error.message(), format!("invalid event collector: {words}"));
        let report = report_failure(events.len(), &error);
        assert_eq!(report.input_event_count, events.len());
        assert_eq!(report.diagnostics.len(), 1);
        assert_eq!(report.diagnostics[0].code, "compact_conversion_failed");
        assert_eq!(report.diagnostics[0].message, error.message());
    }
}

#[test]
fn report_is_the_checked_one_or_its_failure() {
    let events = mixed_trace();
    let report = correlate(&events);
    let checked = correlate_checked(&events).unwrap();
    assert_eq!(format!("{report:?}"), format!("{checked:?}"));
    let told = report_outcome(events.len(), Ok(checked));
    assert_eq!(format!("{told:?}"), format!("{report:?}"));

    let mut broken = mixed_trace();
    broken[1].source = String::new();
    let error = correlate_checked(&broken).unwrap_err();
    let report = correlate(&broken);
    assert_eq!(report.input_event_count, 7);
    assert!(report.steps.is_empty());
    assert_eq!(report.diagnostics.len(), 1);
    let told = report_outcome(broken.len(), Err(error));
    assert_eq!(format!("{told:?}"), format!("{report:?}"));
}
