//! What following a request means: each boundary is that of a record of the
//! request, and the times between boundaries and tokens lead from one to the next.

use crate::index::{row_with, Identified};
use crate::lifecycle::{
    boundary_of, earliest, picked, positioned, tokens_of, Positioned, StepTiming, Wanted,
};
use crate::lifecycle_join::{
    accepted_of, boundaries_of, boundary_models, boundary_times, emitted_of, engine_request_of,
    first_timing, lifecycle_is, lifecycle_problem, passage_is, passage_problem, received_of,
    request_of, times_are_in_order, token_problem, token_row, tokens_problem, LifecycleReport,
    Passage, TokenRow,
};
use crate::order::{arrangement_exists, arranges, Keyed};
use crate::semantic::{SemanticRecordKind, SemanticWireRecord};
use crate::sums::{count_of, sum_of};
use vstd::prelude::*;

verus! {

// The tokens at the client.

proof fn token_is_in_order(p: Passage, steps: Seq<StepTiming>, n: int, i: int)
    requires
        0 <= i < n,
        tokens_problem(p, steps, n) is None,
    ensures
        token_problem(p, steps, i) is None,
    decreases n,
{
    if i < n - 1 {
        token_is_in_order(p, steps, n - 1, i);
    }
}

/// Each token is timed from the one before it: where the client's clock does not
/// go back, a token came the inter-token time after the one before it, and the
/// first has none. So the inter-token times add up to the time from the first
/// token to the last.
pub proof fn tokens_are_timed_from_the_one_before(
    report: LifecycleReport,
    p: Passage,
    steps: Seq<StepTiming>,
)
    requires
        p.accepted@.len() > 0,
        p.accepted@.len() == p.received@.len(),
        lifecycle_is(report, p, steps),
        forall|i: int|
            0 <= i < report.tokens@.len() ==> (#[trigger] report.tokens@[i]).client_receive_ns > 0,
        forall|i: int, j: int|
            0 <= i <= j < report.tokens@.len() ==> (#[trigger] report.tokens@[i]).client_receive_ns
                <= (#[trigger] report.tokens@[j]).client_receive_ns,
    ensures
        report.tokens@[0].client_itl_ns == 0,
        forall|i: int|
            0 < i < report.tokens@.len() ==> report.tokens@[i - 1].client_receive_ns + (
            #[trigger] report.tokens@[i]).client_itl_ns == report.tokens@[i].client_receive_ns,
        sum_of(report.tokens@, |t: TokenRow| t.client_itl_ns as int)
            == report.tokens@.last().client_receive_ns - report.tokens@[0].client_receive_ns,
{
    let rows = report.tokens@;
    assert forall|i: int| 0 < i < rows.len() implies rows[i - 1].client_receive_ns + (
    #[trigger] rows[i]).client_itl_ns == rows[i].client_receive_ns by {
        assert(rows[i] == token_row(p, steps, i));
        assert(rows[i - 1] == token_row(p, steps, i - 1));
        assert(rows[i - 1].client_receive_ns > 0);
        let d = rows[i].client_receive_ns - rows[i - 1].client_receive_ns;
        assert(d % 0x1_0000_0000_0000_0000 == d) by {
            vstd::arithmetic::div_mod::lemma_small_mod(
                d as nat,
                0x1_0000_0000_0000_0000,
            );
        }
    }
    assert(rows[0] == token_row(p, steps, 0));
    times_add_up(rows);
}

proof fn times_add_up(rows: Seq<TokenRow>)
    requires
        rows.len() > 0,
        rows[0].client_itl_ns == 0,
        forall|i: int|
            0 < i < rows.len() ==> rows[i - 1].client_receive_ns + (
            #[trigger] rows[i]).client_itl_ns == rows[i].client_receive_ns,
    ensures
        sum_of(rows, |t: TokenRow| t.client_itl_ns as int) == rows.last().client_receive_ns
            - rows[0].client_receive_ns,
    decreases rows.len(),
{
    let front = rows.drop_last();
    if front.len() > 0 {
        assert forall|i: int| 0 < i < front.len() implies front[i - 1].client_receive_ns + (
        #[trigger] front[i]).client_itl_ns == front[i].client_receive_ns by {
            assert(rows[i] == front[i]);
        }
        times_add_up(front);
        assert(rows[rows.len() - 1].client_receive_ns == rows.last().client_receive_ns);
    } else {
        assert(rows.last() == rows[0]);
        assert(sum_of(front, |t: TokenRow| t.client_itl_ns as int) == 0);
    }
}

/// A token's row leads from the device to the client: the last kernel of its
/// step, the engine, the frontend and the client, each the stated time after the
/// one before. Its step is the one whose timing is shown.
pub proof fn token_passes_its_stages(
    report: LifecycleReport,
    p: Passage,
    steps: Seq<StepTiming>,
    i: int,
)
    requires
        0 <= i < report.tokens@.len(),
        lifecycle_problem(p, steps) is None,
        lifecycle_is(report, p, steps),
    ensures
        ({
            let t = report.tokens@[i];
            &&& t.position == i
            &&& t.last_gpu_ns + t.gpu_to_accept_ns == t.engine_accept_ns
            &&& t.engine_accept_ns + t.accept_to_frontend_ns == t.frontend_emit_ns
            &&& t.frontend_emit_ns + t.frontend_to_client_ns == t.client_receive_ns
            &&& t.step_begin_ns <= t.first_gpu_ns <= t.last_gpu_ns
            &&& exists|s: int|
                {
                    &&& 0 <= s < steps.len()
                    &&& (#[trigger] steps[s]).step_id == t.step_id
                    &&& steps[s].begin_ns == t.step_begin_ns
                    &&& steps[s].first_gpu_ns == t.first_gpu_ns
                    &&& steps[s].last_gpu_ns == t.last_gpu_ns
                    &&& t.last_gpu_ns <= steps[s].end_ns
                }
        }),
{
    token_is_in_order(p, steps, p.accepted@.len() as int, i);
    let t = report.tokens@[i];
    assert(t == token_row(p, steps, i));
    let timing = row_with(steps, t.step_id)->0;
    timing_is_of_the_step(steps, t.step_id);
}

proof fn timing_is_of_the_step(steps: Seq<StepTiming>, id: u64)
    requires
        row_with(steps, id) is Some,
    ensures
        exists|s: int|
            0 <= s < steps.len() && (#[trigger] steps[s]).step_id == id && steps[s] == row_with(
                steps,
                id,
            )->0,
{
    let s = choose|s: int| 0 <= s < steps.len() && (#[trigger] steps[s]).spec_id() == id;
    assert(steps[s].step_id == id);
}

// The boundaries.

/// The boundaries lead from the send to the first token at the client: each is
/// passed the stated time after the one before, and together these times are the
/// time to the first token.
pub proof fn boundaries_lead_to_the_first_token(
    report: LifecycleReport,
    p: Passage,
    steps: Seq<StepTiming>,
)
    requires
        p.accepted@.len() > 0,
        p.accepted@.len() == p.received@.len(),
        p.accepted@.len() == p.emitted@.len(),
        lifecycle_problem(p, steps) is None,
        lifecycle_is(report, p, steps),
    ensures
        report.boundaries@.len() == 9,
        report.boundaries@[0].delta_ns == 0,
        forall|i: int|
            0 < i < 9 ==> report.boundaries@[i - 1].timestamp_ns + (
            #[trigger] report.boundaries@[i]).delta_ns == report.boundaries@[i].timestamp_ns,
        report.boundaries@[0].timestamp_ns + report.ttft_ns == report.boundaries@[8].timestamp_ns,
        report.boundaries@[4].timestamp_ns + report.gpu_span_ns
            == report.boundaries@[5].timestamp_ns,
        report.boundaries@[4].timestamp_ns == report.tokens@[0].first_gpu_ns,
        report.boundaries@[5].timestamp_ns == report.tokens@[0].last_gpu_ns,
        report.boundaries@[6].timestamp_ns == report.tokens@[0].engine_accept_ns,
        report.boundaries@[7].timestamp_ns == report.tokens@[0].frontend_emit_ns,
        report.boundaries@[8].timestamp_ns == report.tokens@[0].client_receive_ns,
        report.first_step == report.tokens@[0].step_id,
{
    let list = report.boundaries@;
    let models = boundary_models(list);
    let times = boundary_times(p, first_timing(p, steps)->0);
    assert(models == boundaries_of(times));
    assert(models.len() == 9);
    assert forall|i: int| 0 <= i < 9 implies (#[trigger] list[i]).timestamp_ns == times[i]
        && list[i].delta_ns == models[i].delta_ns by {
        assert(models[i].timestamp_ns == list[i].timestamp_ns);
    }
    assert forall|i: int| 0 < i < 9 implies list[i - 1].timestamp_ns + (
    #[trigger] list[i]).delta_ns == list[i].timestamp_ns by {
        times_are_in_order(p, steps, i - 1, i);
        assert(list[i - 1].timestamp_ns == times[i - 1]);
    }
    times_are_in_order(p, steps, 0, 8);
    times_are_in_order(p, steps, 4, 5);
    assert(list[0].timestamp_ns == times[0]);
    assert(list[4].timestamp_ns == times[4]);
    assert(list[5].timestamp_ns == times[5]);
    assert(list[6].timestamp_ns == times[6]);
    assert(list[7].timestamp_ns == times[7]);
    assert(list[8].timestamp_ns == times[8]);
    assert(report.tokens@[0] == token_row(p, steps, 0));
    timing_is_of_the_step(steps, p.accepted@[0].record.step_id);
}

// The records.

/// Whether the record is the only one of its kind, and of the request where one
/// is given.
pub open spec fn is_only(
    records: Seq<SemanticWireRecord>,
    at: int,
    kind: SemanticRecordKind,
    request: Option<u64>,
) -> bool {
    &&& 0 <= at < records.len()
    &&& forall|i: int|
        0 <= i < records.len() ==> (i == at <==> (#[trigger] records[i]).kind == kind && (
        request is Some ==> records[i].request_id == request->0))
}

/// Whether the record is the only one of its kind that names the request as its
/// peer.
pub open spec fn is_only_peer(
    records: Seq<SemanticWireRecord>,
    at: int,
    kind: SemanticRecordKind,
    peer: u64,
) -> bool {
    &&& 0 <= at < records.len()
    &&& forall|i: int|
        0 <= i < records.len() ==> (i == at <==> (#[trigger] records[i]).kind == kind
            && records[i].sequence_id == peer)
}

proof fn picked_are_those_that_meet(records: Seq<SemanticWireRecord>, wanted: Wanted)
    ensures
        forall|k: int|
            0 <= k < picked(records, wanted).len() ==> wanted.is_met(
                #[trigger] picked(records, wanted)[k],
            ) && records.contains(picked(records, wanted)[k]),
        forall|i: int|
            0 <= i < records.len() && wanted.is_met(#[trigger] records[i]) ==> picked(
                records,
                wanted,
            ).contains(records[i]),
    decreases records.len(),
{
    if records.len() > 0 {
        let front = records.drop_last();
        picked_are_those_that_meet(front, wanted);
        let s = picked(front, wanted);
        let t = picked(records, wanted);
        let last = records.len() - 1;
        assert(records[last] == records.last());
        assert forall|k: int| 0 <= k < t.len() implies wanted.is_met(#[trigger] t[k])
            && records.contains(t[k]) by {
            if k < s.len() {
                assert(s[k] == t[k]);
                let i = choose|i: int| 0 <= i < front.len() && front[i] == s[k];
                assert(records[i] == t[k]);
            }
        }
        assert forall|i: int| 0 <= i < records.len() && wanted.is_met(#[trigger] records[i]) implies
            t.contains(records[i]) by {
            if i < last {
                assert(front[i] == records[i]);
                let k = choose|k: int| 0 <= k < s.len() && s[k] == front[i];
                assert(t[k] == records[i]);
            } else {
                assert(t[s.len() as int] == records[i]);
            }
        }
    }
}

/// One record that is picked alone stands at one place only.
proof fn one_is_picked(records: Seq<SemanticWireRecord>, wanted: Wanted) -> (at: int)
    requires
        picked(records, wanted).len() == 1,
    ensures
        0 <= at < records.len(),
        records[at] == picked(records, wanted)[0],
        forall|i: int| 0 <= i < records.len() ==> (i == at <==> wanted.is_met(#[trigger] records[i])),
    decreases records.len(),
{
    let front = records.drop_last();
    let last = records.len() - 1;
    assert(records[last] == records.last());
    if wanted.is_met(records.last()) {
        assert(picked(front, wanted).len() == 0);
        picked_are_those_that_meet(front, wanted);
        assert forall|i: int| 0 <= i < records.len() implies (i == last <==> wanted.is_met(
            #[trigger] records[i],
        )) by {
            if i < last {
                assert(front[i] == records[i]);
            }
        }
        last
    } else {
        let at = one_is_picked(front, wanted);
        assert(records[at] == front[at]);
        assert forall|i: int| 0 <= i < records.len() implies (i == at <==> wanted.is_met(
            #[trigger] records[i],
        )) by {
            if i < last {
                assert(front[i] == records[i]);
            }
        }
        at
    }
}

proof fn boundary_is_only(
    records: Seq<SemanticWireRecord>,
    kind: SemanticRecordKind,
    request: Option<u64>,
) -> (at: int)
    requires
        boundary_of(records, kind, request) is Ok,
    ensures
        is_only(records, at, kind, request),
        records[at] == boundary_of(records, kind, request)->Ok_0,
{
    let wanted = match request {
        Some(request) => Wanted::OfRequest(kind, request),
        None => Wanted::OfKind(kind),
    };
    let at = one_is_picked(records, wanted);
    assert forall|i: int| 0 <= i < records.len() implies (i == at <==> (
    #[trigger] records[i]).kind == kind && (request is Some ==> records[i].request_id
        == request->0)) by {
        assert(i == at <==> wanted.is_met(records[i]));
    }
    at
}

proof fn earliest_is_first(records: Seq<SemanticWireRecord>)
    requires
        records.len() > 0,
    ensures
        earliest(records) is Some,
        records.contains(earliest(records)->0),
        forall|i: int|
            0 <= i < records.len() ==> (earliest(records)->0).timestamp_ns <= (
            #[trigger] records[i]).timestamp_ns,
    decreases records.len(),
{
    let front = records.drop_last();
    let last = records.len() - 1;
    assert(records[last] == records.last());
    if front.len() > 0 {
        earliest_is_first(front);
        let e = earliest(front)->0;
        let i = choose|i: int| 0 <= i < front.len() && front[i] == e;
        assert(records[i] == e);
        assert forall|i: int| 0 <= i < records.len() implies (earliest(records)->0).timestamp_ns
            <= (#[trigger] records[i]).timestamp_ns by {
            if i < last {
                assert(front[i] == records[i]);
            }
        }
    }
}

/// The boundaries are those of the one request that the client sent: the sending,
/// the frontend's receipt of it, the admission that names it, and the first
/// scheduling of the request that was admitted.
pub proof fn boundaries_are_of_the_request(
    report: LifecycleReport,
    p: Passage,
    engine: Seq<SemanticWireRecord>,
    frontend: Seq<SemanticWireRecord>,
    client: Seq<SemanticWireRecord>,
    steps: Seq<StepTiming>,
)
    requires
        passage_problem(engine, frontend, client) is None,
        passage_is(p, engine, frontend, client),
        lifecycle_problem(p, steps) is None,
        lifecycle_is(report, p, steps),
    ensures
        exists|at: int|
            {
                &&& #[trigger] is_only(client, at, SemanticRecordKind::ClientRequestSent, None)
                &&& client[at].request_id == report.request
                &&& client[at].timestamp_ns == report.boundaries@[0].timestamp_ns
            },
        exists|at: int|
            {
                &&& #[trigger] is_only(
                    frontend,
                    at,
                    SemanticRecordKind::FrontendRequestReceived,
                    Some(report.request),
                )
                &&& frontend[at].timestamp_ns == report.boundaries@[1].timestamp_ns
            },
        exists|at: int|
            {
                &&& #[trigger] is_only_peer(
                    engine,
                    at,
                    SemanticRecordKind::EngineRequestAdmitted,
                    report.request,
                )
                &&& engine[at].request_id == report.engine_request
                &&& engine[at].queue_depth == report.queue_depth_at_admission
                &&& engine[at].timestamp_ns == report.boundaries@[2].timestamp_ns
            },
        exists|at: int|
            {
                &&& 0 <= at < engine.len()
                &&& (#[trigger] engine[at]).kind == SemanticRecordKind::StepRequestSlice
                &&& engine[at].request_id == report.engine_request
                &&& engine[at].timestamp_ns == report.boundaries@[3].timestamp_ns
            },
        forall|i: int|
            0 <= i < engine.len() && (#[trigger] engine[i]).kind
                == SemanticRecordKind::StepRequestSlice && engine[i].request_id
                == report.engine_request ==> report.boundaries@[3].timestamp_ns
                <= engine[i].timestamp_ns,
{
    let request = request_of(client);
    boundaries_lead_to_the_first_token(report, p, steps);
    let list = report.boundaries@;
    let times = boundary_times(p, first_timing(p, steps)->0);
    assert forall|i: int| 0 <= i < 9 implies (#[trigger] list[i]).timestamp_ns == times[i] by {
        assert(boundary_models(list)[i].timestamp_ns == list[i].timestamp_ns);
    }
    let at = boundary_is_only(client, SemanticRecordKind::ClientRequestSent, None);
    assert(client[at].timestamp_ns == list[0].timestamp_ns);
    let at = boundary_is_only(
        frontend,
        SemanticRecordKind::FrontendRequestReceived,
        Some(request),
    );
    assert(frontend[at].timestamp_ns == list[1].timestamp_ns);
    let wanted = Wanted::OfPeer(SemanticRecordKind::EngineRequestAdmitted, request);
    let at = one_is_picked(engine, wanted);
    assert forall|i: int| 0 <= i < engine.len() implies (i == at <==> (#[trigger] engine[i]).kind
        == SemanticRecordKind::EngineRequestAdmitted && engine[i].sequence_id == request) by {
        assert(i == at <==> wanted.is_met(engine[i]));
    }
    assert(is_only_peer(engine, at, SemanticRecordKind::EngineRequestAdmitted, report.request));
    assert(engine[at].timestamp_ns == list[2].timestamp_ns);
    let wanted = Wanted::OfRequest(
        SemanticRecordKind::StepRequestSlice,
        engine_request_of(engine, client),
    );
    let slices = picked(engine, wanted);
    picked_are_those_that_meet(engine, wanted);
    earliest_is_first(slices);
    let first = earliest(slices)->0;
    let k = choose|k: int| 0 <= k < slices.len() && slices[k] == first;
    assert(wanted.is_met(slices[k]) && engine.contains(slices[k]));
    let at = choose|at: int| 0 <= at < engine.len() && engine[at] == first;
    assert(engine[at].timestamp_ns == list[3].timestamp_ns);
    assert forall|i: int|
        0 <= i < engine.len() && (#[trigger] engine[i]).kind
            == SemanticRecordKind::StepRequestSlice && engine[i].request_id
            == report.engine_request implies list[3].timestamp_ns <= engine[i].timestamp_ns by {
        assert(wanted.is_met(engine[i]));
        let k = choose|k: int| 0 <= k < slices.len() && slices[k] == engine[i];
        assert(slices[k].timestamp_ns >= first.timestamp_ns);
    }
}

proof fn tokens_are_of_the_request(
    records: Seq<SemanticWireRecord>,
    kind: SemanticRecordKind,
    request: u64,
)
    ensures
        tokens_of(records, kind, request).len() == picked(
            records,
            Wanted::OfRequest(kind, request),
        ).len(),
        forall|i: int|
            0 <= i < tokens_of(records, kind, request).len() ==> {
                let record = (#[trigger] tokens_of(records, kind, request)[i]).record;
                records.contains(record) && record.kind == kind && record.request_id == request
            },
{
    let wanted = Wanted::OfRequest(kind, request);
    let found = picked(records, wanted);
    let list = positioned(found);
    let t = tokens_of(records, kind, request);
    picked_are_those_that_meet(records, wanted);
    arrangement_exists(list);
    assert(arranges(list, t));
    list.to_multiset_ensures();
    t.to_multiset_ensures();
    assert forall|i: int| 0 <= i < t.len() implies {
        let record = (#[trigger] t[i]).record;
        records.contains(record) && record.kind == kind && record.request_id == request
    } by {
        assert(t.contains(t[i]));
        assert(list.to_multiset().count(t[i]) > 0);
        assert(list.contains(t[i]));
        let k = choose|k: int| 0 <= k < list.len() && list[k] == t[i];
        assert(list[k].record == found[k]);
        assert(wanted.is_met(found[k]));
    }
}

/// A token's row is of three records of the request at that position: the
/// engine's acceptance, the frontend's emission and the client's receipt, all of
/// the same token.
pub proof fn token_rows_are_of_the_request(
    report: LifecycleReport,
    p: Passage,
    engine: Seq<SemanticWireRecord>,
    frontend: Seq<SemanticWireRecord>,
    client: Seq<SemanticWireRecord>,
    steps: Seq<StepTiming>,
    i: int,
)
    requires
        passage_problem(engine, frontend, client) is None,
        passage_is(p, engine, frontend, client),
        lifecycle_problem(p, steps) is None,
        lifecycle_is(report, p, steps),
        0 <= i < report.tokens@.len(),
    ensures
        exists|a: int|
            {
                &&& 0 <= a < engine.len()
                &&& (#[trigger] engine[a]).kind == SemanticRecordKind::AcceptedOutputToken
                &&& engine[a].request_id == report.engine_request
                &&& engine[a].sequence_id == i
                &&& engine[a].scheduled_tokens == report.tokens@[i].token_id
                &&& engine[a].step_id == report.tokens@[i].step_id
                &&& engine[a].timestamp_ns == report.tokens@[i].engine_accept_ns
            },
        exists|a: int|
            {
                &&& 0 <= a < frontend.len()
                &&& (#[trigger] frontend[a]).kind == SemanticRecordKind::FrontendTokenEmitted
                &&& frontend[a].request_id == report.request
                &&& frontend[a].prefill_tokens == i
                &&& frontend[a].scheduled_tokens == report.tokens@[i].token_id
                &&& frontend[a].timestamp_ns == report.tokens@[i].frontend_emit_ns
            },
        exists|a: int|
            {
                &&& 0 <= a < client.len()
                &&& (#[trigger] client[a]).kind == SemanticRecordKind::ClientTokenReceived
                &&& client[a].request_id == report.request
                &&& client[a].prefill_tokens == i
                &&& client[a].scheduled_tokens == report.tokens@[i].token_id
                &&& client[a].timestamp_ns == report.tokens@[i].client_receive_ns
            },
{
    let request = request_of(client);
    let engine_request = engine_request_of(engine, client);
    token_is_in_order(p, steps, p.accepted@.len() as int, i);
    tokens_are_of_the_request(engine, SemanticRecordKind::AcceptedOutputToken, engine_request);
    tokens_are_of_the_request(frontend, SemanticRecordKind::FrontendTokenEmitted, request);
    tokens_are_of_the_request(client, SemanticRecordKind::ClientTokenReceived, request);
    let row = report.tokens@[i];
    assert(row == token_row(p, steps, i));
    let accepted = p.accepted@[i].record;
    let emitted = p.emitted@[i].record;
    let received = p.received@[i].record;
    assert(accepted == accepted_of(engine, client)[i].record);
    assert(emitted == emitted_of(frontend, client)[i].record);
    assert(received == received_of(client)[i].record);
    assert(engine.contains(accepted) && frontend.contains(emitted) && client.contains(received));
    let a = choose|a: int| 0 <= a < engine.len() && engine[a] == accepted;
    assert(engine[a].timestamp_ns == row.engine_accept_ns);
    let a = choose|a: int| 0 <= a < frontend.len() && frontend[a] == emitted;
    assert(frontend[a].timestamp_ns == row.frontend_emit_ns);
    let a = choose|a: int| 0 <= a < client.len() && client[a] == received;
    assert(client[a].timestamp_ns == row.client_receive_ns);
}

proof fn picked_are_counted(records: Seq<SemanticWireRecord>, kind: SemanticRecordKind, request: u64)
    ensures
        picked(records, Wanted::OfRequest(kind, request)).len() == count_of(
            records,
            |r: SemanticWireRecord| r.kind == kind && r.request_id == request,
        ),
    decreases records.len(),
{
    if records.len() > 0 {
        picked_are_counted(records.drop_last(), kind, request);
    }
}

/// A request that was followed ended well: there is a row for every token that
/// the engine accepted, the frontend emitted and the client received, frontend
/// and client each completed it once without an error, and the client did so
/// after the frontend and after its last token.
pub proof fn followed_request_ended_well(
    report: LifecycleReport,
    p: Passage,
    engine: Seq<SemanticWireRecord>,
    frontend: Seq<SemanticWireRecord>,
    client: Seq<SemanticWireRecord>,
    steps: Seq<StepTiming>,
)
    requires
        passage_problem(engine, frontend, client) is None,
        passage_is(p, engine, frontend, client),
        lifecycle_problem(p, steps) is None,
        lifecycle_is(report, p, steps),
    ensures
        report.tokens@.len() > 0,
        report.tokens@.len() == count_of(
            engine,
            |r: SemanticWireRecord|
                r.kind == SemanticRecordKind::AcceptedOutputToken && r.request_id
                    == report.engine_request,
        ),
        report.tokens@.len() == count_of(
            frontend,
            |r: SemanticWireRecord|
                r.kind == SemanticRecordKind::FrontendTokenEmitted && r.request_id
                    == report.request,
        ),
        report.tokens@.len() == count_of(
            client,
            |r: SemanticWireRecord|
                r.kind == SemanticRecordKind::ClientTokenReceived && r.request_id
                    == report.request,
        ),
        exists|f: int, c: int|
            {
                &&& #[trigger] is_only(
                    frontend,
                    f,
                    SemanticRecordKind::FrontendRequestCompleted,
                    Some(report.request),
                )
                &&& #[trigger] is_only(
                    client,
                    c,
                    SemanticRecordKind::ClientRequestCompleted,
                    Some(report.request),
                )
                &&& frontend[f].status == 0 && client[c].status == 0
                &&& frontend[f].timestamp_ns <= client[c].timestamp_ns
                &&& report.tokens@.last().client_receive_ns <= client[c].timestamp_ns
            },
{
    let request = request_of(client);
    let engine_request = engine_request_of(engine, client);
    tokens_are_of_the_request(engine, SemanticRecordKind::AcceptedOutputToken, engine_request);
    tokens_are_of_the_request(frontend, SemanticRecordKind::FrontendTokenEmitted, request);
    tokens_are_of_the_request(client, SemanticRecordKind::ClientTokenReceived, request);
    picked_are_counted(engine, SemanticRecordKind::AcceptedOutputToken, engine_request);
    picked_are_counted(frontend, SemanticRecordKind::FrontendTokenEmitted, request);
    picked_are_counted(client, SemanticRecordKind::ClientTokenReceived, request);
    let f = boundary_is_only(
        frontend,
        SemanticRecordKind::FrontendRequestCompleted,
        Some(request),
    );
    let c = boundary_is_only(client, SemanticRecordKind::ClientRequestCompleted, Some(request));
    let last = p.accepted@.len() - 1;
    assert(report.tokens@.last() == token_row(p, steps, last));
    assert(p.received@.last() == p.received@[last]);
    assert(is_only(
        frontend,
        f,
        SemanticRecordKind::FrontendRequestCompleted,
        Some(report.request),
    ));
    assert(is_only(
        client,
        c,
        SemanticRecordKind::ClientRequestCompleted,
        Some(report.request),
    ));
}

} // verus!
