//! The lifecycle join: one request followed across client, frontend, engine and
//! device.

use crate::digits::{append_decimal, decimal};
use crate::index::row_with;
use crate::lifecycle::{
    boundary_of, collect_tokens, disorder, earliest, either, exactly_one, exactly_one_peer,
    find_earliest, peer_of, picked, problem_if, problem_in, require_order, selected,
    tokens_of, Positioned, StepTable, StepTiming, Wanted,
};
use crate::semantic::{SemanticRecordKind, SemanticWireRecord};
use vstd::prelude::*;
use vstd::string::*;

verus! {

// The records of the request.

/// The records of one request.
pub struct Passage {
    pub sent: SemanticWireRecord,
    pub handled: SemanticWireRecord,
    pub admitted: SemanticWireRecord,
    pub scheduled: SemanticWireRecord,
    pub accepted: Vec<Positioned>,
    pub emitted: Vec<Positioned>,
    pub received: Vec<Positioned>,
    pub frontend_done: SemanticWireRecord,
    pub client_done: SemanticWireRecord,
}

pub open spec fn sent_of(client: Seq<SemanticWireRecord>) -> Result<
    SemanticWireRecord,
    Seq<char>,
> {
    boundary_of(client, SemanticRecordKind::ClientRequestSent, None)
}

/// The request that the client sent.
pub open spec fn request_of(client: Seq<SemanticWireRecord>) -> u64 {
    (sent_of(client)->Ok_0).request_id
}

pub open spec fn handled_of(
    frontend: Seq<SemanticWireRecord>,
    client: Seq<SemanticWireRecord>,
) -> Result<SemanticWireRecord, Seq<char>> {
    boundary_of(
        frontend,
        SemanticRecordKind::FrontendRequestReceived,
        Some(request_of(client)),
    )
}

pub open spec fn admitted_of(
    engine: Seq<SemanticWireRecord>,
    client: Seq<SemanticWireRecord>,
) -> Result<SemanticWireRecord, Seq<char>> {
    peer_of(engine, SemanticRecordKind::EngineRequestAdmitted, request_of(client))
}

/// The name that the engine gave the request.
pub open spec fn engine_request_of(
    engine: Seq<SemanticWireRecord>,
    client: Seq<SemanticWireRecord>,
) -> u64 {
    (admitted_of(engine, client)->Ok_0).request_id
}

pub open spec fn scheduled_of(
    engine: Seq<SemanticWireRecord>,
    client: Seq<SemanticWireRecord>,
) -> Option<SemanticWireRecord> {
    earliest(
        picked(
            engine,
            Wanted::OfRequest(
                SemanticRecordKind::StepRequestSlice,
                engine_request_of(engine, client),
            ),
        ),
    )
}

pub open spec fn accepted_of(
    engine: Seq<SemanticWireRecord>,
    client: Seq<SemanticWireRecord>,
) -> Seq<Positioned> {
    tokens_of(
        engine,
        SemanticRecordKind::AcceptedOutputToken,
        engine_request_of(engine, client),
    )
}

pub open spec fn emitted_of(
    frontend: Seq<SemanticWireRecord>,
    client: Seq<SemanticWireRecord>,
) -> Seq<Positioned> {
    tokens_of(frontend, SemanticRecordKind::FrontendTokenEmitted, request_of(client))
}

pub open spec fn received_of(client: Seq<SemanticWireRecord>) -> Seq<Positioned> {
    tokens_of(client, SemanticRecordKind::ClientTokenReceived, request_of(client))
}

pub open spec fn frontend_done_of(
    frontend: Seq<SemanticWireRecord>,
    client: Seq<SemanticWireRecord>,
) -> Result<SemanticWireRecord, Seq<char>> {
    boundary_of(
        frontend,
        SemanticRecordKind::FrontendRequestCompleted,
        Some(request_of(client)),
    )
}

pub open spec fn client_done_of(client: Seq<SemanticWireRecord>) -> Result<
    SemanticWireRecord,
    Seq<char>,
> {
    boundary_of(
        client,
        SemanticRecordKind::ClientRequestCompleted,
        Some(request_of(client)),
    )
}

pub open spec fn token_counts(accepted: nat, emitted: nat, received: nat) -> Seq<char> {
    "token count mismatch: accepted="@ + decimal(accepted) + " emitted="@ + decimal(emitted)
        + " received="@ + decimal(received)
}

/// Why the records of the request are not all there, if they are not.
pub open spec fn passage_problem(
    engine: Seq<SemanticWireRecord>,
    frontend: Seq<SemanticWireRecord>,
    client: Seq<SemanticWireRecord>,
) -> Option<Seq<char>> {
    let accepted = accepted_of(engine, client).len();
    let emitted = emitted_of(frontend, client).len();
    let received = received_of(client).len();
    either(
        problem_in(sent_of(client)),
        either(
            problem_in(handled_of(frontend, client)),
            either(
                problem_in(admitted_of(engine, client)),
                either(
                    problem_if(
                        scheduled_of(engine, client) is None,
                        "request never appeared in a scheduler step"@,
                    ),
                    either(
                        problem_if(
                            accepted == 0 || accepted != emitted || accepted != received,
                            token_counts(accepted, emitted, received),
                        ),
                        either(
                            problem_in(frontend_done_of(frontend, client)),
                            either(
                                problem_in(client_done_of(client)),
                                problem_if(
                                    (frontend_done_of(frontend, client)->Ok_0).status != 0 || (
                                    client_done_of(client)->Ok_0).status != 0,
                                    "frontend or client completion status is nonzero"@,
                                ),
                            ),
                        ),
                    ),
                ),
            ),
        ),
    )
}

pub open spec fn passage_is(
    p: Passage,
    engine: Seq<SemanticWireRecord>,
    frontend: Seq<SemanticWireRecord>,
    client: Seq<SemanticWireRecord>,
) -> bool {
    &&& p.sent == sent_of(client)->Ok_0
    &&& p.handled == handled_of(frontend, client)->Ok_0
    &&& p.admitted == admitted_of(engine, client)->Ok_0
    &&& p.scheduled == scheduled_of(engine, client)->0
    &&& p.accepted@ == accepted_of(engine, client)
    &&& p.emitted@ == emitted_of(frontend, client)
    &&& p.received@ == received_of(client)
    &&& p.frontend_done == frontend_done_of(frontend, client)->Ok_0
    &&& p.client_done == client_done_of(client)->Ok_0
}

/// Finds the records of the one request that the client sent.
pub fn find_passage(
    engine: &[SemanticWireRecord],
    frontend: &[SemanticWireRecord],
    client: &[SemanticWireRecord],
) -> (r: Result<Passage, String>)
    ensures
        match (r, passage_problem(engine@, frontend@, client@)) {
            (Ok(passage), None) => passage_is(passage, engine@, frontend@, client@)
                && passage.accepted@.len() > 0 && passage.accepted@.len() == passage.emitted@.len()
                && passage.accepted@.len() == passage.received@.len(),
            (Err(error), Some(problem)) => error@ == problem,
            _ => false,
        },
{
    let sent = match exactly_one(client, SemanticRecordKind::ClientRequestSent, None) {
        Ok(record) => record,
        Err(error) => {
            return Err(error.to_owned());
        },
    };
    let request: u64 = sent.request_id;
    let handled = match exactly_one(
        frontend,
        SemanticRecordKind::FrontendRequestReceived,
        Some(request),
    ) {
        Ok(record) => record,
        Err(error) => {
            return Err(error.to_owned());
        },
    };
    let admitted = match exactly_one_peer(
        engine,
        SemanticRecordKind::EngineRequestAdmitted,
        request,
    ) {
        Ok(record) => record,
        Err(error) => {
            return Err(error.to_owned());
        },
    };
    let engine_request: u64 = admitted.request_id;
    let slices = selected(
        engine,
        Wanted::OfRequest(SemanticRecordKind::StepRequestSlice, engine_request),
    );
    let scheduled = match find_earliest(&slices) {
        Some(record) => record,
        None => {
            return Err("request never appeared in a scheduler step".to_owned());
        },
    };
    let accepted = collect_tokens(engine, SemanticRecordKind::AcceptedOutputToken, engine_request);
    let emitted = collect_tokens(frontend, SemanticRecordKind::FrontendTokenEmitted, request);
    let received = collect_tokens(client, SemanticRecordKind::ClientTokenReceived, request);
    if accepted.len() == 0 || accepted.len() != emitted.len() || accepted.len() != received.len() {
        let mut text = "token count mismatch: accepted=".to_owned();
        append_decimal(&mut text, accepted.len() as u64);
        text.append(" emitted=");
        append_decimal(&mut text, emitted.len() as u64);
        text.append(" received=");
        append_decimal(&mut text, received.len() as u64);
        return Err(text);
    }
    let frontend_done = match exactly_one(
        frontend,
        SemanticRecordKind::FrontendRequestCompleted,
        Some(request),
    ) {
        Ok(record) => record,
        Err(error) => {
            return Err(error.to_owned());
        },
    };
    let client_done = match exactly_one(
        client,
        SemanticRecordKind::ClientRequestCompleted,
        Some(request),
    ) {
        Ok(record) => record,
        Err(error) => {
            return Err(error.to_owned());
        },
    };
    if frontend_done.status != 0 || client_done.status != 0 {
        return Err("frontend or client completion status is nonzero".to_owned());
    }
    Ok(
        Passage {
            sent,
            handled,
            admitted,
            scheduled,
            accepted,
            emitted,
            received,
            frontend_done,
            client_done,
        },
    )
}

// The way to the device.

/// The timing of the step that gave the first token.
pub open spec fn first_timing(p: Passage, steps: Seq<StepTiming>) -> Option<StepTiming> {
    row_with(steps, p.accepted@[0].record.step_id)
}

/// Why the way to the device is not in order, if it is not.
pub open spec fn way_problem(p: Passage, steps: Seq<StepTiming>) -> Option<Seq<char>> {
    either(
        disorder("client_send->frontend_receive"@, p.sent.timestamp_ns, p.handled.timestamp_ns),
        either(
            disorder(
                "frontend_receive->engine_admission"@,
                p.handled.timestamp_ns,
                p.admitted.timestamp_ns,
            ),
            either(
                disorder(
                    "engine_admission->first_schedule"@,
                    p.admitted.timestamp_ns,
                    p.scheduled.timestamp_ns,
                ),
                either(
                    problem_if(
                        first_timing(p, steps) is None,
                        "first accepted token references a step without GPU timing"@,
                    ),
                    disorder(
                        "first_schedule->first_gpu"@,
                        p.scheduled.timestamp_ns,
                        (first_timing(p, steps)->0).first_gpu_ns,
                    ),
                ),
            ),
        ),
    )
}

fn check_way(p: &Passage, steps: &StepTable) -> (r: Result<StepTiming, String>)
    requires
        steps.wf(),
        p.accepted@.len() > 0,
    ensures
        match (r, way_problem(*p, steps.rows())) {
            (Ok(timing), None) => Some(timing) == first_timing(*p, steps.rows()),
            (Err(error), Some(problem)) => error@ == problem,
            _ => false,
        },
{
    require_order("client_send->frontend_receive", p.sent.timestamp_ns, p.handled.timestamp_ns)?;
    require_order(
        "frontend_receive->engine_admission",
        p.handled.timestamp_ns,
        p.admitted.timestamp_ns,
    )?;
    require_order(
        "engine_admission->first_schedule",
        p.admitted.timestamp_ns,
        p.scheduled.timestamp_ns,
    )?;
    let timing = match steps.get(p.accepted[0].record.step_id) {
        Some(timing) => timing,
        None => {
            return Err("first accepted token references a step without GPU timing".to_owned());
        },
    };
    require_order("first_schedule->first_gpu", p.scheduled.timestamp_ns, timing.first_gpu_ns)?;
    Ok(timing)
}

// Tokens.

/// One token on its way from the device to the client.
#[derive(Clone, Copy, Debug, PartialEq, Eq, Structural)]
pub struct TokenRow {
    pub position: u32,
    pub token_id: u32,
    pub step_id: u64,
    pub step_begin_ns: u64,
    pub first_gpu_ns: u64,
    pub last_gpu_ns: u64,
    pub engine_accept_ns: u64,
    pub frontend_emit_ns: u64,
    pub client_receive_ns: u64,
    pub gpu_to_accept_ns: u64,
    pub accept_to_frontend_ns: u64,
    pub frontend_to_client_ns: u64,
    pub client_itl_ns: u64,
}

/// The difference of two numbers, where numbers begin anew behind the last.
pub open spec fn wrapped_difference(a: u64, b: u64) -> int {
    (a - b) % 0x1_0000_0000_0000_0000
}

fn difference(a: u64, b: u64) -> (r: u64)
    ensures
        r == wrapped_difference(a, b),
{
    a.wrapping_sub(b)
}

pub open spec fn token_mismatch(i: nat) -> Seq<char> {
    "token identity mismatch at position "@ + decimal(i)
}

/// Whether the three records are not those of the token at the position.
pub open spec fn token_differs(p: Passage, i: int) -> bool {
    let accepted = p.accepted@[i].record;
    let emitted = p.emitted@[i].record;
    let received = p.received@[i].record;
    ||| accepted.sequence_id != i
    ||| emitted.prefill_tokens != i
    ||| received.prefill_tokens != i
    ||| accepted.scheduled_tokens != emitted.scheduled_tokens
    ||| accepted.scheduled_tokens != received.scheduled_tokens
}

/// Why the way of a token is not in order, if it is not.
pub open spec fn token_problem(p: Passage, steps: Seq<StepTiming>, i: int) -> Option<Seq<char>> {
    let accepted = p.accepted@[i].record;
    let emitted = p.emitted@[i].record;
    let received = p.received@[i].record;
    let timing = row_with(steps, accepted.step_id)->0;
    either(
        problem_if(
            i > u32::MAX || accepted.sequence_id > u32::MAX,
            "out of range integral type conversion attempted"@,
        ),
        either(
            problem_if(token_differs(p, i), token_mismatch(i as nat)),
            either(
                problem_if(
                    row_with(steps, accepted.step_id) is None,
                    "accepted token references a step without GPU timing"@,
                ),
                either(
                    disorder("step_begin->first_gpu"@, timing.begin_ns, timing.first_gpu_ns),
                    either(
                        disorder("first_gpu->last_gpu"@, timing.first_gpu_ns, timing.last_gpu_ns),
                        either(
                            disorder("last_gpu->step_end"@, timing.last_gpu_ns, timing.end_ns),
                            either(
                                disorder(
                                    "last_gpu->engine_accept"@,
                                    timing.last_gpu_ns,
                                    accepted.timestamp_ns,
                                ),
                                either(
                                    disorder(
                                        "engine_accept->frontend_emit"@,
                                        accepted.timestamp_ns,
                                        emitted.timestamp_ns,
                                    ),
                                    disorder(
                                        "frontend_emit->client_receive"@,
                                        emitted.timestamp_ns,
                                        received.timestamp_ns,
                                    ),
                                ),
                            ),
                        ),
                    ),
                ),
            ),
        ),
    )
}

/// The time between a token and the one before it at the client. There is none
/// before the first, nor where the one before came at time zero; where the
/// client's clock went back, the difference begins anew.
pub open spec fn inter_token_time(p: Passage, i: int) -> int {
    if i == 0 || p.received@[i - 1].record.timestamp_ns == 0 {
        0
    } else {
        wrapped_difference(
            p.received@[i].record.timestamp_ns,
            p.received@[i - 1].record.timestamp_ns,
        )
    }
}

pub open spec fn token_row(p: Passage, steps: Seq<StepTiming>, i: int) -> TokenRow {
    let accepted = p.accepted@[i].record;
    let emitted = p.emitted@[i].record;
    let received = p.received@[i].record;
    let timing = row_with(steps, accepted.step_id)->0;
    TokenRow {
        position: i as u32,
        token_id: accepted.scheduled_tokens,
        step_id: accepted.step_id,
        step_begin_ns: timing.begin_ns,
        first_gpu_ns: timing.first_gpu_ns,
        last_gpu_ns: timing.last_gpu_ns,
        engine_accept_ns: accepted.timestamp_ns,
        frontend_emit_ns: emitted.timestamp_ns,
        client_receive_ns: received.timestamp_ns,
        gpu_to_accept_ns: (accepted.timestamp_ns - timing.last_gpu_ns) as u64,
        accept_to_frontend_ns: (emitted.timestamp_ns - accepted.timestamp_ns) as u64,
        frontend_to_client_ns: (received.timestamp_ns - emitted.timestamp_ns) as u64,
        client_itl_ns: inter_token_time(p, i) as u64,
    }
}

fn follow_token(p: &Passage, steps: &StepTable, i: usize) -> (r: Result<TokenRow, String>)
    requires
        steps.wf(),
        i < p.accepted@.len(),
        p.accepted@.len() == p.emitted@.len(),
        p.accepted@.len() == p.received@.len(),
    ensures
        match (r, token_problem(*p, steps.rows(), i as int)) {
            (Ok(row), None) => row == token_row(*p, steps.rows(), i as int),
            (Err(error), Some(problem)) => error@ == problem,
            _ => false,
        },
{
    let accepted = p.accepted[i].record;
    let emitted = p.emitted[i].record;
    let received = p.received[i].record;
    if i as u64 > u32::MAX as u64 || accepted.sequence_id > u32::MAX as u64 {
        return Err("out of range integral type conversion attempted".to_owned());
    }
    let position: u32 = i as u32;
    if accepted.sequence_id != position as u64 || emitted.prefill_tokens != position
        || received.prefill_tokens != position || accepted.scheduled_tokens
        != emitted.scheduled_tokens || accepted.scheduled_tokens != received.scheduled_tokens {
        let mut text = "token identity mismatch at position ".to_owned();
        append_decimal(&mut text, i as u64);
        return Err(text);
    }
    let timing = match steps.get(accepted.step_id) {
        Some(timing) => timing,
        None => {
            return Err("accepted token references a step without GPU timing".to_owned());
        },
    };
    require_order("step_begin->first_gpu", timing.begin_ns, timing.first_gpu_ns)?;
    require_order("first_gpu->last_gpu", timing.first_gpu_ns, timing.last_gpu_ns)?;
    require_order("last_gpu->step_end", timing.last_gpu_ns, timing.end_ns)?;
    require_order("last_gpu->engine_accept", timing.last_gpu_ns, accepted.timestamp_ns)?;
    require_order("engine_accept->frontend_emit", accepted.timestamp_ns, emitted.timestamp_ns)?;
    require_order("frontend_emit->client_receive", emitted.timestamp_ns, received.timestamp_ns)?;
    let itl: u64 = if i == 0 || p.received[i - 1].record.timestamp_ns == 0 {
        0
    } else {
        difference(received.timestamp_ns, p.received[i - 1].record.timestamp_ns)
    };
    Ok(
        TokenRow {
            position,
            token_id: accepted.scheduled_tokens,
            step_id: accepted.step_id,
            step_begin_ns: timing.begin_ns,
            first_gpu_ns: timing.first_gpu_ns,
            last_gpu_ns: timing.last_gpu_ns,
            engine_accept_ns: accepted.timestamp_ns,
            frontend_emit_ns: emitted.timestamp_ns,
            client_receive_ns: received.timestamp_ns,
            gpu_to_accept_ns: accepted.timestamp_ns - timing.last_gpu_ns,
            accept_to_frontend_ns: emitted.timestamp_ns - accepted.timestamp_ns,
            frontend_to_client_ns: received.timestamp_ns - emitted.timestamp_ns,
            client_itl_ns: itl,
        },
    )
}

/// Why the way of one of the first tokens is not in order, if it is not.
pub open spec fn tokens_problem(p: Passage, steps: Seq<StepTiming>, n: int) -> Option<Seq<char>>
    decreases n,
{
    if n <= 0 {
        None
    } else {
        either(tokens_problem(p, steps, n - 1), token_problem(p, steps, n - 1))
    }
}

pub open spec fn token_rows(p: Passage, steps: Seq<StepTiming>) -> Seq<TokenRow> {
    Seq::new(p.accepted@.len(), |i: int| token_row(p, steps, i))
}

proof fn tokens_problem_stays(p: Passage, steps: Seq<StepTiming>, n: int, m: int)
    requires
        0 <= n <= m,
        tokens_problem(p, steps, n) is Some,
    ensures
        tokens_problem(p, steps, m) == tokens_problem(p, steps, n),
    decreases m - n,
{
    if n < m {
        tokens_problem_stays(p, steps, n, m - 1);
    }
}

fn follow_tokens(p: &Passage, steps: &StepTable) -> (r: Result<Vec<TokenRow>, String>)
    requires
        steps.wf(),
        p.accepted@.len() == p.emitted@.len(),
        p.accepted@.len() == p.received@.len(),
    ensures
        match (r, tokens_problem(*p, steps.rows(), p.accepted@.len() as int)) {
            (Ok(rows), None) => rows@ == token_rows(*p, steps.rows()),
            (Err(error), Some(problem)) => error@ == problem,
            _ => false,
        },
{
    let ghost all = token_rows(*p, steps.rows());
    let mut rows: Vec<TokenRow> = Vec::new();
    let mut i: usize = 0;
    while i < p.accepted.len()
        invariant
            i <= p.accepted.len(),
            steps.wf(),
            p.accepted@.len() == p.emitted@.len(),
            p.accepted@.len() == p.received@.len(),
            all == token_rows(*p, steps.rows()),
            rows@ == all.take(i as int),
            tokens_problem(*p, steps.rows(), i as int) is None,
        decreases p.accepted.len() - i,
    {
        proof {
            if tokens_problem(*p, steps.rows(), i + 1) is Some {
                tokens_problem_stays(*p, steps.rows(), i + 1, p.accepted@.len() as int);
            }
        }
        let row = follow_token(p, steps, i)?;
        rows.push(row);
        assert(rows@ =~= all.take(i + 1));
        i += 1;
    }
    assert(rows@ =~= all);
    Ok(rows)
}

// The end.

/// Why the end of the request is not in order, if it is not.
pub open spec fn end_problem(p: Passage) -> Option<Seq<char>> {
    either(
        disorder(
            "frontend_complete->client_complete"@,
            p.frontend_done.timestamp_ns,
            p.client_done.timestamp_ns,
        ),
        disorder(
            "last_client_token->client_complete"@,
            p.received@.last().record.timestamp_ns,
            p.client_done.timestamp_ns,
        ),
    )
}

/// A boundary that the request passed.
#[derive(Clone, Copy, Debug)]
pub struct Boundary {
    pub name: &'static str,
    pub timestamp_ns: u64,
    pub delta_ns: u64,
    pub observer: &'static str,
    pub endpoint: &'static str,
}

#[verifier::ext_equal]
pub struct BoundaryModel {
    pub name: Seq<char>,
    pub timestamp_ns: u64,
    pub delta_ns: u64,
    pub observer: Seq<char>,
    pub endpoint: Seq<char>,
}

pub open spec fn boundary_models(list: Seq<Boundary>) -> Seq<BoundaryModel> {
    list.map_values(
        |b: Boundary|
            BoundaryModel {
                name: b.name@,
                timestamp_ns: b.timestamp_ns,
                delta_ns: b.delta_ns,
                observer: b.observer@,
                endpoint: b.endpoint@,
            },
    )
}

/// The times at which the request passed its boundaries up to the first token.
pub open spec fn boundary_times(p: Passage, first: StepTiming) -> Seq<u64> {
    seq![
        p.sent.timestamp_ns,
        p.handled.timestamp_ns,
        p.admitted.timestamp_ns,
        p.scheduled.timestamp_ns,
        first.first_gpu_ns,
        first.last_gpu_ns,
        p.accepted@[0].record.timestamp_ns,
        p.emitted@[0].record.timestamp_ns,
        p.received@[0].record.timestamp_ns,
    ]
}

pub open spec fn boundary_names() -> Seq<(Seq<char>, Seq<char>, Seq<char>)> {
    seq![
        ("client_send_begin"@, "rust_client"@, "before socket write"@),
        (
            "frontend_handler_entry"@,
            "vllm_frontend"@,
            "create_chat_completion entry after HTTP decode"@,
        ),
        ("engine_scheduler_admission"@, "engine_core"@, "after Scheduler.add_request"@),
        ("first_scheduler_selection"@, "engine_core"@, "engine_step_begin"@),
        ("first_gpu_kernel_start"@, "cupti"@, "actual kernel start"@),
        ("first_token_step_gpu_end"@, "cupti"@, "actual final kernel end"@),
        (
            "engine_accepts_first_token"@,
            "engine_core"@,
            "Scheduler.update_from_output returned token"@,
        ),
        (
            "frontend_yields_first_token"@,
            "vllm_frontend"@,
            "immediately before SSE generator yield"@,
        ),
        ("client_receives_first_token"@, "rust_client"@, "HTTP chunk read completion"@),
    ]
}

/// How much later a boundary was passed than the one before it.
pub open spec fn boundary_delta(times: Seq<u64>, i: int) -> u64 {
    if i > 0 && times[i] > times[i - 1] {
        (times[i] - times[i - 1]) as u64
    } else {
        0
    }
}

/// The boundaries that were passed at the times.
pub open spec fn boundaries_of(times: Seq<u64>) -> Seq<BoundaryModel> {
    Seq::new(
        9,
        |i: int|
            BoundaryModel {
                name: boundary_names()[i].0,
                timestamp_ns: times[i],
                delta_ns: boundary_delta(times, i),
                observer: boundary_names()[i].1,
                endpoint: boundary_names()[i].2,
            },
    )
}

fn push_boundary(
    list: &mut Vec<Boundary>,
    timestamp_ns: u64,
    name: &'static str,
    observer: &'static str,
    endpoint: &'static str,
    Ghost(times): Ghost<Seq<u64>>,
)
    requires
        old(list)@.len() < 9,
        times.len() == 9,
        boundary_models(old(list)@) == boundaries_of(times).take(old(list)@.len() as int),
        boundary_names()[old(list)@.len() as int] == (name@, observer@, endpoint@),
        times[old(list)@.len() as int] == timestamp_ns,
    ensures
        final(list)@.len() == old(list)@.len() + 1,
        boundary_models(final(list)@) == boundaries_of(times).take(final(list)@.len() as int),
{
    let n: usize = list.len();
    let mut delta_ns: u64 = 0;
    if n > 0 {
        let previous: u64 = list[n - 1].timestamp_ns;
        assert(boundary_models(list@)[n - 1].timestamp_ns == times[n - 1]);
        if timestamp_ns > previous {
            delta_ns = timestamp_ns - previous;
        }
    }
    let ghost before = list@;
    list.push(Boundary { name, timestamp_ns, delta_ns, observer, endpoint });
    proof {
        let models = boundary_models(list@);
        let expected = boundaries_of(times).take(n + 1);
        assert forall|i: int| 0 <= i < models.len() implies models[i] == expected[i] by {
            if i < n {
                assert(models[i] == boundary_models(before)[i]);
            }
        }
        assert(models =~= expected);
    }
}

fn build_boundaries(p: &Passage, first: StepTiming) -> (r: Vec<Boundary>)
    requires
        p.accepted@.len() > 0,
        p.accepted@.len() == p.emitted@.len(),
        p.accepted@.len() == p.received@.len(),
    ensures
        boundary_models(r@) == boundaries_of(boundary_times(*p, first)),
{
    let ghost times = boundary_times(*p, first);
    let t = Ghost(times);
    let mut list: Vec<Boundary> = Vec::new();
    assert(boundary_models(list@) =~= boundaries_of(times).take(0));
    push_boundary(
        &mut list,
        p.sent.timestamp_ns,
        "client_send_begin",
        "rust_client",
        "before socket write",
        t,
    );
    push_boundary(
        &mut list,
        p.handled.timestamp_ns,
        "frontend_handler_entry",
        "vllm_frontend",
        "create_chat_completion entry after HTTP decode",
        t,
    );
    push_boundary(
        &mut list,
        p.admitted.timestamp_ns,
        "engine_scheduler_admission",
        "engine_core",
        "after Scheduler.add_request",
        t,
    );
    push_boundary(
        &mut list,
        p.scheduled.timestamp_ns,
        "first_scheduler_selection",
        "engine_core",
        "engine_step_begin",
        t,
    );
    push_boundary(
        &mut list,
        first.first_gpu_ns,
        "first_gpu_kernel_start",
        "cupti",
        "actual kernel start",
        t,
    );
    push_boundary(
        &mut list,
        first.last_gpu_ns,
        "first_token_step_gpu_end",
        "cupti",
        "actual final kernel end",
        t,
    );
    push_boundary(
        &mut list,
        p.accepted[0].record.timestamp_ns,
        "engine_accepts_first_token",
        "engine_core",
        "Scheduler.update_from_output returned token",
        t,
    );
    push_boundary(
        &mut list,
        p.emitted[0].record.timestamp_ns,
        "frontend_yields_first_token",
        "vllm_frontend",
        "immediately before SSE generator yield",
        t,
    );
    push_boundary(
        &mut list,
        p.received[0].record.timestamp_ns,
        "client_receives_first_token",
        "rust_client",
        "HTTP chunk read completion",
        t,
    );
    assert(boundaries_of(times).take(9) =~= boundaries_of(times));
    list
}

// The report.

/// What the lifecycle of a request comes to.
pub struct LifecycleReport {
    pub request: u64,
    pub engine_request: u64,
    pub queue_depth_at_admission: u32,
    pub first_step: u64,
    pub gpu_span_ns: u64,
    pub ttft_ns: u64,
    pub tokens: Vec<TokenRow>,
    pub boundaries: Vec<Boundary>,
}

/// Why the passage is not a lifecycle, if it is not.
pub open spec fn lifecycle_problem(p: Passage, steps: Seq<StepTiming>) -> Option<Seq<char>> {
    either(
        way_problem(p, steps),
        either(tokens_problem(p, steps, p.accepted@.len() as int), end_problem(p)),
    )
}

pub open spec fn lifecycle_is(report: LifecycleReport, p: Passage, steps: Seq<StepTiming>) -> bool {
    let first = first_timing(p, steps)->0;
    &&& report.request == p.sent.request_id
    &&& report.engine_request == p.admitted.request_id
    &&& report.queue_depth_at_admission == p.admitted.queue_depth
    &&& report.first_step == first.step_id
    &&& report.gpu_span_ns == first.last_gpu_ns - first.first_gpu_ns
    &&& report.ttft_ns == p.received@[0].record.timestamp_ns - p.sent.timestamp_ns
    &&& report.tokens@ == token_rows(p, steps)
    &&& boundary_models(report.boundaries@) == boundaries_of(boundary_times(p, first))
}

/// Follows a request whose records were found.
pub fn follow_passage(p: &Passage, steps: &StepTable) -> (r: Result<LifecycleReport, String>)
    requires
        steps.wf(),
        p.accepted@.len() > 0,
        p.accepted@.len() == p.emitted@.len(),
        p.accepted@.len() == p.received@.len(),
    ensures
        match (r, lifecycle_problem(*p, steps.rows())) {
            (Ok(report), None) => lifecycle_is(report, *p, steps.rows()),
            (Err(error), Some(problem)) => error@ == problem,
            _ => false,
        },
{
    let first = check_way(p, steps)?;
    let tokens = follow_tokens(p, steps)?;
    require_order(
        "frontend_complete->client_complete",
        p.frontend_done.timestamp_ns,
        p.client_done.timestamp_ns,
    )?;
    let last = p.received[p.received.len() - 1].record;
    require_order(
        "last_client_token->client_complete",
        last.timestamp_ns,
        p.client_done.timestamp_ns,
    )?;
    proof {
        times_are_in_order(*p, steps.rows(), 0, 8);
        times_are_in_order(*p, steps.rows(), 4, 5);
    }
    let boundaries = build_boundaries(p, first);
    Ok(
        LifecycleReport {
            request: p.sent.request_id,
            engine_request: p.admitted.request_id,
            queue_depth_at_admission: p.admitted.queue_depth,
            first_step: first.step_id,
            gpu_span_ns: first.last_gpu_ns - first.first_gpu_ns,
            ttft_ns: p.received[0].record.timestamp_ns - p.sent.timestamp_ns,
            tokens,
            boundaries,
        },
    )
}

/// Follows the one request that the client sent.
pub fn follow_request(
    engine: &[SemanticWireRecord],
    frontend: &[SemanticWireRecord],
    client: &[SemanticWireRecord],
    steps: &StepTable,
) -> (r: Result<LifecycleReport, String>)
    requires
        steps.wf(),
    ensures
        match (r, passage_problem(engine@, frontend@, client@)) {
            (Err(error), Some(problem)) => error@ == problem,
            (_, Some(_)) => false,
            (_, None) => exists|p: Passage|
                {
                    &&& passage_is(p, engine@, frontend@, client@)
                    &&& match (r, #[trigger] lifecycle_problem(p, steps.rows())) {
                        (Ok(report), None) => lifecycle_is(report, p, steps.rows()),
                        (Err(error), Some(problem)) => error@ == problem,
                        _ => false,
                    }
                },
        },
{
    let passage = find_passage(engine, frontend, client)?;
    let r = follow_passage(&passage, steps);
    assert(passage_is(passage, engine@, frontend@, client@));
    r
}

// Laws.

proof fn first_token_is_in_order(p: Passage, steps: Seq<StepTiming>, n: int)
    requires
        n > 0,
        tokens_problem(p, steps, n) is None,
    ensures
        token_problem(p, steps, 0) is None,
    decreases n,
{
    if n > 1 {
        first_token_is_in_order(p, steps, n - 1);
    }
}

/// A request passes its boundaries in their order.
pub proof fn times_are_in_order(p: Passage, steps: Seq<StepTiming>, i: int, j: int)
    requires
        p.accepted@.len() > 0,
        lifecycle_problem(p, steps) is None,
        0 <= i <= j < 9,
    ensures
        boundary_times(p, first_timing(p, steps)->0)[i] <= boundary_times(
            p,
            first_timing(p, steps)->0,
        )[j],
{
    first_token_is_in_order(p, steps, p.accepted@.len() as int);
    let t = boundary_times(p, first_timing(p, steps)->0);
    assert(t[0] <= t[1] <= t[2] <= t[3] <= t[4] <= t[5] <= t[6] <= t[7] <= t[8]);
}

/// The sum of the first deltas.
pub open spec fn delta_sum(times: Seq<u64>, n: int) -> int
    decreases n,
{
    if n <= 0 {
        0
    } else {
        delta_sum(times, n - 1) + boundary_delta(times, n - 1)
    }
}

/// The times between the boundaries add up to the time to the first token.
pub proof fn stages_add_up(p: Passage, steps: Seq<StepTiming>)
    requires
        p.accepted@.len() > 0,
        lifecycle_problem(p, steps) is None,
    ensures
        delta_sum(boundary_times(p, first_timing(p, steps)->0), 9)
            == p.received@[0].record.timestamp_ns - p.sent.timestamp_ns,
{
    stages_add_up_to(p, steps, 9);
}

proof fn stages_add_up_to(p: Passage, steps: Seq<StepTiming>, n: int)
    requires
        p.accepted@.len() > 0,
        lifecycle_problem(p, steps) is None,
        1 <= n <= 9,
    ensures
        delta_sum(boundary_times(p, first_timing(p, steps)->0), n) == boundary_times(
            p,
            first_timing(p, steps)->0,
        )[n - 1] - p.sent.timestamp_ns,
    decreases n,
{
    let t = boundary_times(p, first_timing(p, steps)->0);
    if n > 1 {
        stages_add_up_to(p, steps, n - 1);
        times_are_in_order(p, steps, n - 2, n - 1);
    } else {
        assert(delta_sum(t, 0) == 0);
        assert(delta_sum(t, 1) == 0);
    }
}

/// A token that was followed is the same at the engine, the frontend and the
/// client, at the place of its row.
pub proof fn tokens_keep_their_identity(p: Passage, steps: Seq<StepTiming>, n: int, i: int)
    requires
        0 <= i < n,
        tokens_problem(p, steps, n) is None,
    ensures
        p.accepted@[i].record.sequence_id == i,
        p.emitted@[i].record.prefill_tokens == i,
        p.received@[i].record.prefill_tokens == i,
        p.accepted@[i].record.scheduled_tokens == p.emitted@[i].record.scheduled_tokens,
        p.accepted@[i].record.scheduled_tokens == p.received@[i].record.scheduled_tokens,
    decreases n,
{
    if i < n - 1 {
        tokens_keep_their_identity(p, steps, n - 1, i);
    }
}

} // verus!
