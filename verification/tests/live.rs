use gpu_observer::json::{
    check_manifest, compare_replays, judge_identity, read_identity, validate_replay, ReplayFields,
};
use gpu_observer::live::{
    append_reply, apply_message, begin_message, failure_notice, handle_message, handle_sse_event,
    read_moment, LiveMessage, ReplyBuffer,
};
use gpu_observer::page::{
    longest_row, overflow_text, prompt_text, refresh, refresh_busy, renew_percent, renew_status,
    renew_text, status_text,
};
use gpu_observer::ui_state::{AppState, KernelStat, Phase, MAX_ROWS, ROLLING_WINDOW_NS};

const RUN: &[u8] = br#"{"replayFingerprint":"abc","semanticSignature":"def","model":1}"#;

#[test]
fn replay_of_the_same_run_is_accepted() {
    let deep = br#"{"semanticSignature":"def","replayFingerprint":"abc"}"#;
    assert_eq!(validate_replay(RUN, deep), Ok(()));
    assert_eq!(validate_replay(RUN, RUN), Ok(()));
}

#[test]
fn replay_of_another_run_is_refused() {
    assert_eq!(
        validate_replay(RUN, br#"{"replayFingerprint":"x","semanticSignature":"def"}"#),
        Err("deep replay replayFingerprint does not match the timed run".to_owned())
    );
    assert_eq!(
        validate_replay(RUN, br#"{"replayFingerprint":"abc","semanticSignature":"x"}"#),
        Err("deep replay semanticSignature does not match the timed run".to_owned())
    );
    assert_eq!(
        validate_replay(RUN, br#"{"replayFingerprint":"abc","semanticSignature":7}"#),
        Err("manifest field semanticSignature is missing or not a string".to_owned())
    );
    assert_eq!(
        validate_replay(b"{}", RUN),
        Err("manifest field replayFingerprint is missing or not a string".to_owned())
    );
}

#[test]
fn replay_fields_are_compared_in_order() {
    let run = ReplayFields {
        fingerprint: Some("a".to_owned()),
        signature: None,
    };
    let deep = ReplayFields {
        fingerprint: Some("b".to_owned()),
        signature: None,
    };
    assert_eq!(
        compare_replays(&run, &deep),
        Err("deep replay replayFingerprint does not match the timed run".to_owned())
    );
    assert_eq!(
        compare_replays(&run, &run),
        Err("manifest field semanticSignature is missing or not a string".to_owned())
    );
}

#[test]
fn manifests_must_be_objects() {
    assert_eq!(check_manifest(RUN, "run.json"), Ok(()));
    assert_eq!(
        check_manifest(b"[1]", "run.json"),
        Err("run.json must contain a JSON object".to_owned())
    );
    let fault = check_manifest(b"{", "run.json").unwrap_err();
    assert!(fault.contains("line 1"), "unexpected fault: {fault}");
}

#[test]
fn run_manifest_names_its_run() {
    let identity = read_identity(RUN).ok().unwrap();
    assert_eq!(identity.fingerprint, "abc");
    assert_eq!(identity.signature, "def");
    assert_eq!(
        read_identity(b"3").err().unwrap(),
        "run manifest must be an object"
    );
    assert_eq!(
        read_identity(b"{}").err().unwrap(),
        "run manifest lacks replayFingerprint"
    );
    assert_eq!(
        read_identity(br#"{"replayFingerprint":"abc"}"#).err().unwrap(),
        "run manifest lacks semanticSignature"
    );
    assert!(read_identity(b"not json").is_err());
    let fields = ReplayFields {
        fingerprint: None,
        signature: None,
    };
    assert_eq!(
        judge_identity(Some("bad".to_owned()), true, fields)
            .err()
            .unwrap(),
        "bad"
    );
}

#[test]
fn first_request_slice_gives_the_prompt_length() {
    let mut state = AppState::new();
    handle_message(&mut state, true, br#"{"kind":"step_begin","tokens":5}"#);
    assert_eq!(state.prompt_tokens, None);
    handle_message(&mut state, true, br#"{"kind":"request_slice"}"#);
    assert_eq!(state.prompt_tokens, None);
    handle_message(&mut state, true, br#"{"kind":"request_slice","tokens":44}"#);
    assert_eq!(state.prompt_tokens, Some(44));
    handle_message(&mut state, true, br#"{"kind":"request_slice","tokens":9}"#);
    assert_eq!(state.prompt_tokens, Some(44));
}

#[test]
fn launches_are_counted_under_their_names() {
    let mut state = AppState::new();
    let launch = br#"{"kind":"kernel_launch","name":"gemm","startNs":100,"endNs":150}"#;
    handle_message(&mut state, false, launch);
    state.set_thinking(true);
    handle_message(&mut state, false, launch);
    assert_eq!(state.now_executing.as_deref(), Some("gemm"));
    assert_eq!(
        state.kernel_stats,
        vec![(
            "gemm".to_owned(),
            KernelStat {
                thinking: 1,
                response: 1
            }
        )]
    );
    assert_eq!(state.recent_launches, vec![(100, 150), (100, 150)]);
    handle_message(&mut state, false, br#"{"kind":"kernel_launch"}"#);
    handle_message(&mut state, false, br#"{"kind":"memcpy","name":"x"}"#);
    handle_message(&mut state, false, b"{ torn");
    assert_eq!(state.kernel_stats.len(), 1);
    handle_message(
        &mut state,
        false,
        br#"{"kind":"kernel_launch","name":"copy","startNs":"1"}"#,
    );
    assert_eq!(state.kernel_stats.len(), 2);
    assert_eq!(state.recent_launches.len(), 2);
}

#[test]
fn long_prompts_keep_their_low_bits() {
    let mut state = AppState::new();
    let message = LiveMessage {
        kind: Some("request_slice".to_owned()),
        tokens: Some((1 << 32) + 7),
        name: None,
        start_ns: None,
        end_ns: None,
    };
    apply_message(&mut state, true, &message);
    assert_eq!(state.prompt_tokens, Some(7));
}

#[test]
fn question_is_trimmed_and_sent_once() {
    let mut state = AppState::new();
    state.record_launch("old", 1, 2);
    assert_eq!(begin_message(&mut state, b"  \n "), None);
    assert_eq!(
        begin_message(&mut state, b" why? \n"),
        Some(b"why?".to_vec())
    );
    assert!(state.chat_busy);
    assert!(state.kernel_stats.is_empty());
    assert_eq!(state.recent_launches, vec![(1, 2)]);
    assert_eq!(begin_message(&mut state, b"again"), None);
}

#[test]
fn failures_are_told_from_cancellations() {
    assert_eq!(failure_notice(b"HTTP 500"), "Live request failed.");
    assert_eq!(
        failure_notice(b"AbortError: stopped"),
        "Stopped — generation cancelled server-side."
    );
    assert_eq!(
        failure_notice(b"was aborted"),
        "Stopped — generation cancelled server-side."
    );
}

fn delta(text: &str) -> String {
    format!("data: {{\"choices\":[{{\"delta\":{{\"content\":\"{text}\"}}}}]}}\n\n")
}

#[test]
fn reply_is_read_from_its_events() {
    let mut state = AppState::new();
    assert!(handle_sse_event(&mut state, delta("<think>").as_bytes()));
    assert_eq!(state.phase, Phase::Thinking);
    assert!(handle_sse_event(&mut state, delta("hm</think>").as_bytes()));
    assert_eq!(state.phase, Phase::Response);
    assert!(!handle_sse_event(&mut state, b"data: [DONE]\n\n"));
    assert!(!handle_sse_event(&mut state, b": comment\n\n"));
    assert!(!handle_sse_event(&mut state, b"data: {}\n\n"));
    assert!(!handle_sse_event(&mut state, b"data: {\"choices\":{\"0\":1}}\n\n"));
    assert_eq!(state.reply_text, "<think>hm</think>");
    append_reply(&mut state, "!");
    assert_eq!(state.reply_text, "<think>hm</think>!");
}

#[test]
fn events_are_the_same_in_any_chunks() {
    let whole = format!("{}{}tail", delta("a"), delta("b"));
    let mut at_once = ReplyBuffer::new();
    let expected = at_once.receive(whole.as_bytes());
    assert_eq!(expected.len(), 2);
    assert_eq!(expected[0], delta("a").into_bytes());
    assert_eq!(at_once.rest, b"tail");
    let mut by_byte = ReplyBuffer::new();
    let mut events = Vec::new();
    for byte in whole.as_bytes() {
        events.extend(by_byte.receive(&[*byte]));
    }
    assert_eq!(events, expected);
    assert_eq!(by_byte.rest, b"tail");
}

#[test]
fn page_writes_only_what_changed() {
    let mut state = AppState::new();
    let first = refresh(&mut state);
    assert_eq!(first.semantic_status, Some(false));
    assert_eq!(first.cupti_status, Some(false));
    assert_eq!(
        first.now_executing.as_deref(),
        Some("waiting for the first real launch…")
    );
    assert_eq!(first.prompt_tokens, None);
    assert!(first.rows.is_none());
    let second = refresh(&mut state);
    assert_eq!(second.semantic_status, None);
    assert_eq!(second.now_executing, None);

    state.cupti_connected = true;
    state.prompt_tokens = Some(44);
    state.record_launch("gemm", 1, 2);
    let third = refresh(&mut state);
    assert_eq!(third.cupti_status, Some(true));
    assert_eq!(third.now_executing.as_deref(), Some("gemm"));
    assert_eq!(third.prompt_tokens.as_deref(), Some("44 tokens"));
    assert_eq!(third.rows, Some((vec![("gemm".to_owned(), 0, 1)], 0)));
    assert!(refresh(&mut state).rows.is_none());
}

#[test]
fn kernels_are_ranked_and_the_rest_is_summed_up() {
    let mut state = AppState::new();
    for index in 0..20 {
        for _ in 0..=(index % 3) {
            state.record_launch(&format!("kernel{index:02}"), 0, 0);
        }
    }
    let (rows, left_out) = state.top_rows(MAX_ROWS);
    assert_eq!(rows.len(), 15);
    assert_eq!(left_out, 5);
    assert_eq!(rows[0].0, "kernel02");
    assert_eq!(rows[0].1.total(), 3);
    assert_eq!(rows[6].0, "kernel01");
    assert_eq!(rows[14].0, "kernel03");
    let (listed, hidden) = refresh(&mut state).rows.unwrap();
    assert_eq!(longest_row(&listed), 3);
    assert_eq!(overflow_text(hidden), "+5 more distinct kernels");
    assert_eq!(overflow_text(0), "");
    assert_eq!(longest_row(&Vec::new()), 1);
}

#[test]
fn rolling_window_merges_and_forgets_launches() {
    let mut state = AppState::new();
    assert_eq!(state.rolling_busy(), (0, 0, 0));
    state.record_launch("a", 100, 200);
    state.record_launch("b", 150, 300);
    state.record_launch("c", 400, 450);
    assert_eq!(state.rolling_busy(), (250, 350, 3));
    let later = 450 + ROLLING_WINDOW_NS;
    state.record_launch("d", later - 50, later);
    assert_eq!(state.rolling_busy(), (50, ROLLING_WINDOW_NS, 2));
    assert_eq!(state.recent_launches.len(), 2);
}

#[test]
fn texts_of_the_page() {
    assert_eq!(status_text(true), "connected");
    assert_eq!(status_text(false), "connecting…");
    assert_eq!(prompt_text(None), "— tokens");
    assert_eq!(prompt_text(Some(0)), "0 tokens");
    let mut shown = None;
    assert!(renew_percent(&mut shown, -1));
    assert!(!renew_percent(&mut shown, -1));
    let mut connected = Some(true);
    assert!(!renew_status(&mut connected, true));
    assert!(renew_status(&mut connected, false));
    let mut text = None;
    assert!(renew_text(&mut text, "a"));
    assert!(!renew_text(&mut text, "a"));
    assert!(renew_text(&mut text, "b"));
}

#[test]
fn moments_are_numbers_or_their_texts() {
    let mut state = AppState::new();
    let texts = br#"{"kind":"kernel_launch","name":"gemm","startNs":"100","endNs":"150"}"#;
    handle_message(&mut state, false, texts);
    assert_eq!(state.recent_launches, vec![(100, 150)]);
    let mixed = br#"{"kind":"kernel_launch","name":"gemm","startNs":200,"endNs":"250"}"#;
    handle_message(&mut state, false, mixed);
    assert_eq!(state.recent_launches, vec![(100, 150), (200, 250)]);
    assert_eq!(read_moment(Some(7), &Some("8".to_owned())), Some(7));
    assert_eq!(read_moment(None, &Some("-8".to_owned())), Some(-8));
    assert_eq!(read_moment(None, &Some("8x".to_owned())), None);
    assert_eq!(read_moment(None, &None), None);
}

#[test]
fn second_refresh_writes_nothing_at_all() {
    let mut state = AppState::new();
    state.semantic_connected = true;
    state.prompt_tokens = Some(3);
    state.record_launch("gemm", 1, 2);
    assert!(refresh(&mut state).rows.is_some());
    let again = refresh(&mut state);
    assert_eq!(again.semantic_status, None);
    assert_eq!(again.cupti_status, None);
    assert_eq!(again.now_executing, None);
    assert_eq!(again.prompt_tokens, None);
    assert_eq!(again.rows, None);
}

#[test]
fn window_forgets_nothing_that_lies_in_it() {
    let mut state = AppState::new();
    let mut all = Vec::new();
    for index in 0..6 {
        let start = index * (ROLLING_WINDOW_NS / 4);
        all.push((start, start + 10));
        state.record_launch("gemm", start, start + 10);
        if index == 2 {
            state.rolling_busy();
            state.reset_query();
        }
    }
    let end = all[5].1;
    let inside = all
        .iter()
        .filter(|launch| launch.1 >= end - ROLLING_WINDOW_NS)
        .count();
    assert_eq!(inside, 5);
    let (busy, _, count) = state.rolling_busy();
    assert_eq!(count, inside);
    // The oldest of them ends where the window begins.
    assert_eq!(busy, 40);
}

#[test]
fn share_of_busy_time_is_written_once() {
    let mut state = AppState::new();
    let first = refresh_busy(&mut state, 0, 0, "");
    assert_eq!(first.width, Some(0));
    assert_eq!(
        first.caption.as_deref(),
        Some("waiting for the first real launch…")
    );
    let second = refresh_busy(&mut state, 0, 0, "");
    assert_eq!((second.width, second.caption), (None, None));
    let third = refresh_busy(&mut state, 2, 40, "40%");
    assert_eq!(third.width, Some(40));
    assert_eq!(third.caption.as_deref(), Some("40%"));
    let fourth = refresh_busy(&mut state, 3, 40, "40% of more");
    assert_eq!(fourth.width, None);
    assert_eq!(fourth.caption.as_deref(), Some("40% of more"));
    let fifth = refresh_busy(&mut state, 3, 40, "40% of more");
    assert_eq!((fifth.width, fifth.caption), (None, None));
}
