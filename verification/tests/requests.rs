use gpu_observer::client::{
    check_body, frontend_name, parse_token_ids, read_chunk_size, read_header, read_status,
    request_head, stable_request_id, ClientSession, HeaderLine, StatusLine,
};
use gpu_observer::lifecycle::{
    exactly_one, exactly_one_peer, load_records, load_steps, require_order, selected, Wanted,
};
use gpu_observer::lifecycle_join::follow_request;
use gpu_observer::semantic::{
    accepted_output_token, lifecycle, request_slice, step_begin, SemanticRecordFlags,
    SemanticRecordKind, SemanticWireRecord,
};

#[test]
fn request_head_names_its_parts() {
    assert_eq!(
        request_head("localhost", 8000, "abc", 17),
        "POST /v1/chat/completions HTTP/1.1\r\nHost: localhost:8000\r\nContent-Type: application/json\r\nAccept: text/event-stream\r\nX-Request-Id: abc\r\nConnection: close\r\nContent-Length: 17\r\n\r\n"
    );
    assert_eq!(frontend_name("semantic-smoke"), "chatcmpl-semantic-smoke");
    assert_eq!(
        stable_request_id(frontend_name("semantic-smoke").as_bytes()),
        0xef3d06865cf2f3c6
    );
    assert_eq!(stable_request_id(b""), 0xcbf29ce484222325);
}

#[test]
fn bodies_must_stream_token_ids() {
    assert!(check_body(br#"{"stream":true,"return_token_ids":true}"#).is_ok());
    assert!(check_body(b"").is_err());
    assert_eq!(
        check_body(br#"{"stream":false,"return_token_ids":true}"#).unwrap_err(),
        "request must set stream=true"
    );
}

#[test]
fn response_lines_are_told_apart() {
    assert!(matches!(
        read_status(b"HTTP/1.1 200 OK\r\n"),
        StatusLine::Accepted
    ));
    assert!(matches!(
        read_status(b"HTTP/1.1 503 Busy\r\n"),
        StatusLine::Refused
    ));
    assert!(matches!(read_status(b"HTTP/1.1\r\n"), StatusLine::Missing));
    assert!(matches!(read_header(b"\r\n"), HeaderLine::End));
    assert!(matches!(read_header(b"\n"), HeaderLine::End));
    assert!(matches!(
        read_header(b"Transfer-Encoding: CHUNKED\r\n"),
        HeaderLine::Chunked
    ));
    assert!(matches!(
        read_header(b"Content-Type: text/plain\r\n"),
        HeaderLine::Other
    ));
    assert_eq!(read_chunk_size(b"1a;name=value\r\n"), Ok(26));
    assert_eq!(read_chunk_size(b"0\r\n"), Ok(0));
    assert_eq!(
        read_chunk_size(b"xyz\r\n"),
        Err("invalid digit found in string")
    );
    assert_eq!(
        read_chunk_size(b"\r\n"),
        Err("cannot parse integer from empty string")
    );
    assert_eq!(
        read_chunk_size(b"10000000000000000z\r\n"),
        Err("number too large to fit in target type")
    );
    assert_eq!(
        read_chunk_size(b"ffffffff\r\n"),
        Err("HTTP chunk exceeds 1048576 bytes")
    );
}

#[test]
fn token_ids_are_read_from_an_event() {
    let data = br#"{"choices":[{"token_ids":[ 5, 17 ,9]}]}"#;
    assert!(parse_token_ids(data, 8).is_err());
    let data = br#"{"choices":[{"token_ids":[ 5, 17,9]}]}"#;
    assert_eq!(parse_token_ids(data, 8), Ok(vec![5, 17, 9]));
    assert_eq!(parse_token_ids(br#"{"token_ids":[]}"#, 8), Ok(vec![]));
    assert_eq!(parse_token_ids(b"{}", 8), Ok(vec![]));
    assert_eq!(
        parse_token_ids(data, 2),
        Err("SSE token list exceeds per-frame bound")
    );
    assert_eq!(
        parse_token_ids(br#""token_ids":[x]"#, 8),
        Err("invalid token ID in SSE frame")
    );
    assert_eq!(
        parse_token_ids(br#""token_ids":[1;2]"#, 8),
        Err("invalid token_ids delimiter")
    );
    assert!(parse_token_ids(br#""token_ids":[4294967296]"#, 8).is_err());
}

#[test]
fn session_records_each_token_once() {
    let mut session = ClientSession::start(7, 42, 43, 100);
    session
        .receive(b"data: {\"token_ids\":[5,6]}\n", 200)
        .unwrap();
    assert_eq!(session.tokens(), 0);
    session.receive(b"\ndata: {\"token_ids\":[7]}\n\n", 300).unwrap();
    assert_eq!(session.tokens(), 3);
    session.receive(b"data: [DONE]\n\n", 400).unwrap();
    let records = session.finish().unwrap();
    let kinds: Vec<SemanticRecordKind> = records.iter().map(|record| record.kind).collect();
    assert_eq!(
        kinds,
        vec![
            SemanticRecordKind::ClientRequestSent,
            SemanticRecordKind::ClientTokenReceived,
            SemanticRecordKind::ClientTokenReceived,
            SemanticRecordKind::ClientTokenReceived,
            SemanticRecordKind::ClientRequestCompleted,
        ]
    );
    for (index, record) in records.iter().enumerate() {
        assert_eq!(record.sequence, index as u64);
        assert_eq!(record.request_id, 7);
    }
    assert_eq!(records[1].timestamp_ns, 300);
    assert_eq!(records[3].scheduled_tokens, 7);
    assert_eq!(records[3].prefill_tokens, 2);
    assert_eq!(records[4].timestamp_ns, 400);
}

#[test]
fn unfinished_session_says_what_is_missing() {
    let mut session = ClientSession::start(7, 42, 43, 100);
    session.receive(b"data: {\"token_ids\":[5]}\n\nda", 200).unwrap();
    assert_eq!(
        session.finish().unwrap_err(),
        "incomplete SSE response: done=false buffered=2 tokens=1"
    );
}

struct Stage {
    engine: Vec<SemanticWireRecord>,
    frontend: Vec<SemanticWireRecord>,
    client: Vec<SemanticWireRecord>,
    steps: String,
}

fn life(
    kind: SemanticRecordKind,
    timestamp_ns: u64,
    sequence: u64,
    request: u64,
    peer: u64,
    position: u32,
    token: u32,
) -> SemanticWireRecord {
    lifecycle(
        kind,
        timestamp_ns,
        sequence,
        request,
        peer,
        position,
        token,
        3,
        0,
        42,
        43,
    )
}

fn stage() -> Stage {
    Stage {
        engine: vec![
            life(
                SemanticRecordKind::EngineRequestAdmitted,
                300,
                0,
                9,
                7,
                0,
                0,
            ),
            step_begin(400, 1, 1, 4, 4, 0, 0, 1, 1, 0, 0, 42, 43),
            request_slice(400, 2, 1, 9, 0, 4, 0, 1, 42, 43),
            accepted_output_token(700, 3, 1, 9, 0, 55, 0, 42, 43),
            accepted_output_token(1_700, 4, 2, 9, 1, 56, 0, 42, 43),
        ],
        frontend: vec![
            life(
                SemanticRecordKind::FrontendRequestReceived,
                200,
                0,
                7,
                0,
                0,
                0,
            ),
            life(
                SemanticRecordKind::FrontendTokenEmitted,
                800,
                1,
                7,
                0,
                0,
                55,
            ),
            life(
                SemanticRecordKind::FrontendTokenEmitted,
                1_800,
                2,
                7,
                0,
                1,
                56,
            ),
            life(
                SemanticRecordKind::FrontendRequestCompleted,
                1_850,
                3,
                7,
                0,
                2,
                0,
            ),
        ],
        client: vec![
            life(SemanticRecordKind::ClientRequestSent, 100, 0, 7, 0, 0, 0),
            life(SemanticRecordKind::ClientTokenReceived, 900, 1, 7, 0, 0, 55),
            life(
                SemanticRecordKind::ClientTokenReceived,
                1_900,
                2,
                7,
                0,
                1,
                56,
            ),
            life(
                SemanticRecordKind::ClientRequestCompleted,
                2_000,
                3,
                7,
                0,
                2,
                0,
            ),
        ],
        steps: "step_id\tstep_begin_ns\tfirst_gpu_start_ns\tlast_gpu_end_ns\tstep_end_ns\n1\t400\t500\t600\t650\n2\t1400\t1500\t1600\t1650\n"
            .to_owned(),
    }
}

#[test]
fn request_is_followed_from_client_to_client() {
    let stage = stage();
    let steps = load_steps(stage.steps.as_bytes()).ok().unwrap();
    let report = follow_request(&stage.engine, &stage.frontend, &stage.client, &steps)
        .ok()
        .unwrap();
    assert_eq!(report.request, 7);
    assert_eq!(report.engine_request, 9);
    assert_eq!(report.first_step, 1);
    assert_eq!(report.gpu_span_ns, 100);
    assert_eq!(report.ttft_ns, 800);
    assert_eq!(report.tokens.len(), 2);
    assert_eq!(report.tokens[0].token_id, 55);
    assert_eq!(report.tokens[0].gpu_to_accept_ns, 100);
    assert_eq!(report.tokens[0].accept_to_frontend_ns, 100);
    assert_eq!(report.tokens[0].frontend_to_client_ns, 100);
    assert_eq!(report.tokens[0].client_itl_ns, 0);
    assert_eq!(report.tokens[1].client_itl_ns, 1_000);
    let names: Vec<&str> = report
        .boundaries
        .iter()
        .map(|boundary| boundary.name)
        .collect();
    assert_eq!(names.len(), 9);
    assert_eq!(names[0], "client_send_begin");
    assert_eq!(names[8], "client_receives_first_token");
    let total: u64 = report
        .boundaries
        .iter()
        .map(|boundary| boundary.delta_ns)
        .sum();
    assert_eq!(total, report.ttft_ns);
}

fn refusal(stage: &Stage) -> String {
    let steps = load_steps(stage.steps.as_bytes()).ok().unwrap();
    follow_request(&stage.engine, &stage.frontend, &stage.client, &steps)
        .err()
        .unwrap()
}

#[test]
fn broken_lifecycles_are_refused() {
    let mut broken = stage();
    broken.client.remove(0);
    assert_eq!(refusal(&broken), "required lifecycle boundary is absent");

    let mut broken = stage();
    let again = broken.client[0];
    broken.client.push(again);
    assert_eq!(refusal(&broken), "required lifecycle boundary is duplicated");

    let mut broken = stage();
    broken.engine.remove(2);
    assert_eq!(refusal(&broken), "request never appeared in a scheduler step");

    let mut broken = stage();
    broken.frontend.remove(1);
    assert_eq!(
        refusal(&broken),
        "token count mismatch: accepted=2 emitted=1 received=2"
    );

    let mut broken = stage();
    broken.client[2].scheduled_tokens = 99;
    assert_eq!(refusal(&broken), "token identity mismatch at position 1");

    let mut broken = stage();
    broken.frontend[3].status = 1;
    assert_eq!(
        refusal(&broken),
        "frontend or client completion status is nonzero"
    );

    let mut broken = stage();
    broken.frontend[0].timestamp_ns = 99;
    assert!(refusal(&broken).contains("client_send->frontend_receive"));

    let mut broken = stage();
    broken.engine[4].step_id = 3;
    assert_eq!(
        refusal(&broken),
        "accepted token references a step without GPU timing"
    );
}

#[test]
fn step_tables_are_read_by_their_titles() {
    let swapped = "end\tstep_end_ns\tstep_id\tstep_begin_ns\tlast_gpu_end_ns\tfirst_gpu_start_ns\nx\t5\t1\t2\t4\t3\n";
    let table = load_steps(swapped.as_bytes()).ok().unwrap();
    assert_eq!(table.len(), 1);
    let step = table.get(1).unwrap();
    assert_eq!(
        (step.begin_ns, step.first_gpu_ns, step.last_gpu_ns, step.end_ns),
        (2, 3, 4, 5)
    );
    assert!(table.get(2).is_none());
    let error = |text: &str| load_steps(text.as_bytes()).err().unwrap();
    assert_eq!(error(""), "invalid full-step table size");
    assert_eq!(error("step_id\n"), "step table lacks step_begin_ns");
    let titles = "step_id\tstep_begin_ns\tfirst_gpu_start_ns\tlast_gpu_end_ns\tstep_end_ns\n";
    assert_eq!(error(titles), "full-step table has no rows");
    assert_eq!(error(&format!("{titles}1\t2\n")), "truncated full-step row");
    assert_eq!(
        error(&format!("{titles}1\t2\t3\t4\t5\n1\t2\t3\t4\t5\n")),
        "duplicate full-step ID"
    );
}

#[test]
fn lifecycle_traces_are_gapless() {
    let records = stage().client;
    let bytes = |records: &[SemanticWireRecord]| {
        let mut file = Vec::new();
        for record in records {
            file.extend(record.encode());
        }
        file
    };
    assert_eq!(load_records(&bytes(&records), "c.bin"), Ok(records.clone()));
    assert_eq!(
        load_records(b"abc", "c.bin").unwrap_err(),
        "invalid lifecycle trace size 3: c.bin"
    );
    let mut gap = records.clone();
    gap[2].sequence = 9;
    assert_eq!(
        load_records(&bytes(&gap), "c.bin").unwrap_err(),
        "sequence gap at record 2: c.bin"
    );
    let mut loss = records.clone();
    loss[1].flags = SemanticRecordFlags::DROPPED_BEFORE;
    assert_eq!(
        load_records(&bytes(&loss), "c.bin").unwrap_err(),
        "loss marker in c.bin"
    );
}

#[test]
fn records_are_selected_by_kind_request_and_peer() {
    let stage = stage();
    assert_eq!(
        selected(
            &stage.frontend,
            Wanted::OfKind(SemanticRecordKind::FrontendTokenEmitted)
        )
        .len(),
        2
    );
    assert_eq!(
        exactly_one_peer(&stage.engine, SemanticRecordKind::EngineRequestAdmitted, 7)
            .unwrap()
            .request_id,
        9
    );
    assert!(exactly_one(
        &stage.client,
        SemanticRecordKind::ClientRequestSent,
        Some(8)
    )
    .is_err());
    assert!(require_order("a->b", 1, 1).is_ok());
    assert!(require_order("a->b", 2, 1).unwrap_err().contains("a->b"));
}
