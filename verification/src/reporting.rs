//! The owned report of a trace of text events.

use crate::compact::{
    all_records, compact_events, compact_failure, out_of_memory, record_event_ids, slice_requests,
    tables_of, CompactInput, Tables,
};
use crate::correlation::{
    are_index_bytes, too_many, traced, CorrelationError, DiagnosticCode, KernelFlags, StepState,
    Trace, TraceIndex,
};
use crate::digits::{append_decimal, append_hex, decimal, hexadecimal};
use crate::error::{blames, invalid, ObserverError};
use crate::event::{StepRequestSliceData, EVENT_RECORD_BYTES};
use crate::names::{distinct, increasing, numbers_are_unique, texts, Name, NameTable};
use crate::order::arranged;
use crate::report::{
    CorrelatedStep, CorrelationReport, Diagnostic, DiagnosticSeverity, KernelExecution,
    RequestExecution, UnassignedEvent,
};
use crate::text::text_is;
use crate::trace_event::{Dim3, Event, EventKind, RequestPhase, RequestSlice, CURRENT_SCHEMA_VERSION};
use crate::trace_laws::{kernel_range_is_exact, membership_range_is_exact};
use vstd::prelude::*;
use vstd::string::*;

verus! {

pub open spec fn optional_text(text: Option<String>) -> Option<Seq<char>> {
    match text {
        Some(text) => Some(text@),
        None => None,
    }
}

/// The name with the number, where the table has one.
pub open spec fn name_at(table: Seq<Seq<char>>, number: int) -> Option<Seq<char>> {
    if 1 <= number <= table.len() {
        Some(table[number - 1])
    } else {
        None
    }
}

/// The event that a record stems from, by the record's sequence.
pub open spec fn id_at(ids: Seq<Seq<char>>, sequence: u64) -> Seq<char> {
    match name_at(ids, sequence as int) {
        Some(id) => id,
        None => "<synthetic>"@,
    }
}

fn owned(text: Option<&str>) -> (r: Option<String>)
    ensures
        optional_text(r) == match text {
            Some(text) => Some(text@),
            None => None,
        },
{
    match text {
        Some(text) => Some(text.to_owned()),
        None => None,
    }
}

fn event_id<'a>(ids: &Vec<Name<'a>>, sequence: u64) -> (r: &'a str)
    ensures
        r@ == id_at(texts(ids@), sequence),
{
    if sequence == 0 || sequence > ids.len() as u64 {
        "<synthetic>"
    } else {
        ids[(sequence - 1) as usize].text
    }
}

// Steps.

pub open spec fn slice_reports(r: RequestSlice, slice: StepRequestSliceData, t: Tables) -> bool {
    &&& r.request_id@ == match name_at(t.requests, slice.request_id as int) {
        Some(name) => name,
        None => "<unknown-request>"@,
    }
    &&& r.sequence_id == if slice.sequence_id != 0 {
        Some(slice.sequence_id)
    } else {
        None
    }
    &&& r.phase == match slice.phase {
        crate::event::RequestPhase::Prefill => RequestPhase::Prefill,
        crate::event::RequestPhase::Decode => RequestPhase::Decode,
    }
    &&& r.scheduled_tokens == slice.scheduled_tokens
    &&& optional_text(r.service_class) == name_at(t.classes, slice.service_class_id as int)
}

pub open spec fn value_if<T>(condition: bool, value: T) -> Option<T> {
    if condition {
        Some(value)
    } else {
        None
    }
}

pub open spec fn kernel_reports(
    r: KernelExecution,
    kernel: crate::correlation::KernelExecution,
    t: Tables,
    ids: Seq<Seq<char>>,
) -> bool {
    let active = kernel.flags & KernelFlags::HAS_ACTIVITY != 0;
    let launch = kernel.launch;
    &&& r.launch_event_id@ == id_at(ids, kernel.launch_sequence)
    &&& optional_text(r.activity_event_id) == value_if(active, id_at(ids, kernel.activity_sequence))
    &&& r.correlation_id == value_if(
        kernel.flags & KernelFlags::HAS_CORRELATION_ID != 0,
        launch.correlation_id,
    )
    &&& r.stream == launch.stream
    &&& r.kernel_function@ == "0x"@ + hexadecimal(launch.kernel_function as nat)
    &&& optional_text(r.kernel_name) == name_at(t.symbols, launch.kernel_symbol_id as int)
    &&& r.grid == (Dim3 { x: launch.grid.x, y: launch.grid.y, z: launch.grid.z })
    &&& r.block == (Dim3 { x: launch.block.x, y: launch.block.y, z: launch.block.z })
    &&& r.shared_memory_bytes == launch.shared_memory_bytes
    &&& r.graph_id == value_if(kernel.flags & KernelFlags::HAS_GRAPH_ID != 0, launch.graph_id)
    &&& r.host_launch_timestamp_ns == kernel.host_launch_timestamp_ns
    &&& r.gpu_start_timestamp_ns == value_if(active, kernel.gpu_start_timestamp_ns)
    &&& r.gpu_duration_ns == value_if(active, kernel.gpu_duration_ns)
}

pub open spec fn slices_report(
    r: Seq<RequestSlice>,
    memberships: Seq<crate::correlation::Membership>,
    t: Tables,
) -> bool {
    &&& r.len() == memberships.len()
    &&& forall|i: int| 0 <= i < r.len() ==> slice_reports(#[trigger] r[i], memberships[i].slice, t)
}

pub open spec fn kernels_report(
    r: Seq<KernelExecution>,
    kernels: Seq<crate::correlation::KernelExecution>,
    t: Tables,
    ids: Seq<Seq<char>>,
) -> bool {
    &&& r.len() == kernels.len()
    &&& forall|i: int| 0 <= i < r.len() ==> kernel_reports(#[trigger] r[i], kernels[i], t, ids)
}

pub open spec fn step_reports(
    r: CorrelatedStep,
    trace: Trace,
    n: int,
    t: Tables,
    ids: Seq<Seq<char>>,
) -> bool {
    let step = trace.steps[n];
    let open = step.state & StepState::OPEN != 0;
    let wall = step.end_timestamp_ns - step.begin_timestamp_ns;
    &&& r.step_id == step.step_id
    &&& r.pid == step.pid
    &&& r.begin_timestamp_ns == step.begin_timestamp_ns
    &&& r.end_timestamp_ns == value_if(!open, step.end_timestamp_ns)
    &&& r.wall_time_ns == value_if(!open && wall >= 0, wall as u64)
    &&& slices_report(
        r.request_slices@,
        trace.memberships.subrange(
            step.membership_start as int,
            step.membership_start + step.membership_count,
        ),
        t,
    )
    &&& r.prefill_tokens == step.prefill_tokens
    &&& r.decode_tokens == step.decode_tokens
    &&& r.scheduled_tokens == step.scheduled_tokens
    &&& r.queue_depth == step.queue_depth
    &&& r.active_requests == Some(step.active_requests)
    &&& r.kv_cache_usage_permyriad == Some(step.kv_cache_usage_permyriad)
    &&& r.cuda_launch_count == step.kernel_count
    &&& r.graph_launch_count == step.graph_launch_count
    &&& kernels_report(
        r.kernels@,
        trace.kernels.subrange(step.kernel_start as int, step.kernel_start + step.kernel_count),
        t,
        ids,
    )
    &&& r.unmatched_cuda_launches == step.unmatched_launch_count
    &&& r.kernel_time_sum_ns == step.kernel_time_sum_ns
    &&& r.gpu_busy_time_ns == step.gpu_busy_time_ns
    &&& r.gpu_span_ns == step.gpu_span_ns
}

pub open spec fn steps_report(
    r: Seq<CorrelatedStep>,
    trace: Trace,
    t: Tables,
    ids: Seq<Seq<char>>,
) -> bool {
    &&& r.len() == trace.steps.len()
    &&& forall|n: int| 0 <= n < r.len() ==> step_reports(#[trigger] r[n], trace, n, t, ids)
}

/// Whether the ranges of the steps lie inside the lists that they are of.
pub open spec fn ranges_fit(trace: Trace) -> bool {
    forall|n: int|
        0 <= n < trace.steps.len() ==> {
            let step = #[trigger] trace.steps[n];
            &&& step.membership_start + step.membership_count <= trace.memberships.len()
            &&& step.kernel_start + step.kernel_count <= trace.kernels.len()
        }
}

fn build_slices(memberships: &[crate::correlation::Membership], input: &CompactInput<'_>) -> (r: Vec<
    RequestSlice,
>)
    ensures
        slices_report(r@, memberships@, input.names.tables()),
{
    let mut r: Vec<RequestSlice> = Vec::new();
    let mut i: usize = 0;
    while i < memberships.len()
        invariant
            i <= memberships.len(),
            slices_report(r@, memberships@.take(i as int), input.names.tables()),
        decreases memberships.len() - i,
    {
        let slice = memberships[i].slice;
        let name = match input.names.request_names.name(slice.request_id) {
            Some(name) => name,
            None => "<unknown-request>",
        };
        let class = input.names.service_classes.name(slice.service_class_id as u64);
        let reported = RequestSlice {
            request_id: name.to_owned(),
            sequence_id: if slice.sequence_id != 0 {
                Some(slice.sequence_id)
            } else {
                None
            },
            phase: match slice.phase {
                crate::event::RequestPhase::Prefill => RequestPhase::Prefill,
                crate::event::RequestPhase::Decode => RequestPhase::Decode,
            },
            scheduled_tokens: slice.scheduled_tokens,
            service_class: owned(class),
        };
        assert(slice_reports(reported, memberships@[i as int].slice, input.names.tables()));
        r.push(reported);
        i += 1;
    }
    assert(memberships@.take(memberships@.len() as int) =~= memberships@);
    r
}

fn build_kernels(
    kernels: &[crate::correlation::KernelExecution],
    input: &CompactInput<'_>,
) -> (r: Vec<KernelExecution>)
    ensures
        kernels_report(r@, kernels@, input.names.tables(), texts(input.sequence_event_ids@)),
{
    let mut r: Vec<KernelExecution> = Vec::new();
    let mut i: usize = 0;
    while i < kernels.len()
        invariant
            i <= kernels.len(),
            kernels_report(
                r@,
                kernels@.take(i as int),
                input.names.tables(),
                texts(input.sequence_event_ids@),
            ),
        decreases kernels.len() - i,
    {
        let kernel = kernels[i];
        let launch = kernel.launch;
        let active = kernel.flags & KernelFlags::HAS_ACTIVITY != 0;
        let mut kernel_function = "0x".to_owned();
        append_hex(&mut kernel_function, launch.kernel_function);
        let reported = KernelExecution {
            launch_event_id: event_id(&input.sequence_event_ids, kernel.launch_sequence).to_owned(),
            activity_event_id: if active {
                Some(event_id(&input.sequence_event_ids, kernel.activity_sequence).to_owned())
            } else {
                None
            },
            correlation_id: if kernel.flags & KernelFlags::HAS_CORRELATION_ID != 0 {
                Some(launch.correlation_id)
            } else {
                None
            },
            stream: launch.stream,
            kernel_function,
            kernel_name: owned(input.names.kernel_symbols.name(launch.kernel_symbol_id as u64)),
            grid: Dim3 { x: launch.grid.x, y: launch.grid.y, z: launch.grid.z },
            block: Dim3 { x: launch.block.x, y: launch.block.y, z: launch.block.z },
            shared_memory_bytes: launch.shared_memory_bytes,
            graph_id: if kernel.flags & KernelFlags::HAS_GRAPH_ID != 0 {
                Some(launch.graph_id)
            } else {
                None
            },
            host_launch_timestamp_ns: kernel.host_launch_timestamp_ns,
            gpu_start_timestamp_ns: if active {
                Some(kernel.gpu_start_timestamp_ns)
            } else {
                None
            },
            gpu_duration_ns: if active {
                Some(kernel.gpu_duration_ns)
            } else {
                None
            },
        };
        assert(kernel_reports(
            reported,
            kernels@[i as int],
            input.names.tables(),
            texts(input.sequence_event_ids@),
        ));
        r.push(reported);
        i += 1;
    }
    assert(kernels@.take(kernels@.len() as int) =~= kernels@);
    r
}

/// The steps of the trace, with names in place of numbers.
pub fn build_steps(trace: &TraceIndex, input: &CompactInput<'_>) -> (r: Vec<CorrelatedStep>)
    requires
        ranges_fit(trace@),
    ensures
        steps_report(r@, trace@, input.names.tables(), texts(input.sequence_event_ids@)),
{
    let steps = trace.steps();
    let mut r: Vec<CorrelatedStep> = Vec::new();
    let mut n: usize = 0;
    while n < steps.len()
        invariant
            n <= steps.len(),
            steps@ == trace@.steps,
            ranges_fit(trace@),
            r@.len() == n,
            forall|k: int|
                0 <= k < n ==> step_reports(
                    #[trigger] r@[k],
                    trace@,
                    k,
                    input.names.tables(),
                    texts(input.sequence_event_ids@),
                ),
        decreases steps.len() - n,
    {
        let step = &steps[n];
        assert(trace@.steps[n as int] == *step);
        let open = step.state & StepState::OPEN != 0;
        let request_slices = build_slices(trace.memberships_for_step(step), input);
        let kernels = build_kernels(trace.kernels_for_step(step), input);
        assert(step.kernel_count <= kernels.len());
        let reported = CorrelatedStep {
            step_id: step.step_id,
            pid: step.pid,
            begin_timestamp_ns: step.begin_timestamp_ns,
            end_timestamp_ns: if open {
                None
            } else {
                Some(step.end_timestamp_ns)
            },
            wall_time_ns: if open {
                None
            } else {
                step.end_timestamp_ns.checked_sub(step.begin_timestamp_ns)
            },
            request_slices,
            prefill_tokens: step.prefill_tokens,
            decode_tokens: step.decode_tokens,
            scheduled_tokens: step.scheduled_tokens,
            queue_depth: step.queue_depth,
            active_requests: Some(step.active_requests),
            kv_cache_usage_permyriad: Some(step.kv_cache_usage_permyriad),
            cuda_launch_count: step.kernel_count as usize,
            graph_launch_count: step.graph_launch_count as usize,
            kernels,
            unmatched_cuda_launches: step.unmatched_launch_count as usize,
            kernel_time_sum_ns: step.kernel_time_sum_ns,
            gpu_busy_time_ns: step.gpu_busy_time_ns,
            gpu_span_ns: step.gpu_span_ns,
        };
        assert(step_reports(
            reported,
            trace@,
            n as int,
            input.names.tables(),
            texts(input.sequence_event_ids@),
        ));
        r.push(reported);
        n += 1;
    }
    r
}

// Requests.

/// What the events say of a request.
#[verifier::ext_equal]
pub struct RequestFacts {
    pub service_class: Option<Seq<char>>,
    pub queued_at_ns: Option<u64>,
    pub ttft_ns: Option<u64>,
    pub e2e_latency_ns: Option<u64>,
}

pub open spec fn no_facts() -> RequestFacts {
    RequestFacts { service_class: None, queued_at_ns: None, ttft_ns: None, e2e_latency_ns: None }
}

/// The facts after one more event.
pub open spec fn after_event(facts: RequestFacts, e: Event, id: Seq<char>) -> RequestFacts {
    match e.kind {
        EventKind::RequestReceived { request_id, service_class, .. } if request_id@ == id =>
        RequestFacts { service_class: optional_text(service_class), ..facts },
        EventKind::RequestQueued { request_id, .. } if request_id@ == id => RequestFacts {
            queued_at_ns: Some(e.correlation_time()),
            ..facts
        },
        EventKind::RequestCompleted { request_id, ttft_ns, e2e_latency_ns, .. } if request_id@
            == id => RequestFacts { ttft_ns, e2e_latency_ns: Some(e2e_latency_ns), ..facts },
        _ => facts,
    }
}

/// What the events say of the request.
pub open spec fn event_facts(events: Seq<Event>, id: Seq<char>) -> RequestFacts
    decreases events.len(),
{
    if events.len() == 0 {
        no_facts()
    } else {
        after_event(event_facts(events.drop_last(), id), events.last(), id)
    }
}

/// The facts after the slices of a step: the first class that is named fills
/// a gap.
pub open spec fn after_slices(
    facts: RequestFacts,
    slices: Seq<RequestSlice>,
    id: Seq<char>,
) -> RequestFacts
    decreases slices.len(),
{
    if slices.len() == 0 {
        facts
    } else {
        let before = after_slices(facts, slices.drop_last(), id);
        let slice = slices.last();
        if slice.request_id@ == id && before.service_class is None {
            RequestFacts { service_class: optional_text(slice.service_class), ..before }
        } else {
            before
        }
    }
}

pub open spec fn after_steps(
    facts: RequestFacts,
    steps: Seq<CorrelatedStep>,
    id: Seq<char>,
) -> RequestFacts
    decreases steps.len(),
{
    if steps.len() == 0 {
        facts
    } else {
        after_slices(
            after_steps(facts, steps.drop_last(), id),
            steps.last().request_slices@,
            id,
        )
    }
}

/// The requests that the events speak of.
pub open spec fn fact_name(e: Event) -> Seq<Seq<char>> {
    match e.kind {
        EventKind::RequestReceived { request_id, .. } => seq![request_id@],
        EventKind::RequestQueued { request_id, .. } => seq![request_id@],
        EventKind::RequestCompleted { request_id, .. } => seq![request_id@],
        _ => Seq::empty(),
    }
}

pub open spec fn fact_names(events: Seq<Event>) -> Seq<Seq<char>>
    decreases events.len(),
{
    if events.len() == 0 {
        Seq::empty()
    } else {
        fact_names(events.drop_last()) + fact_name(events.last())
    }
}

/// The requests that the steps serve.
pub open spec fn served_names(steps: Seq<CorrelatedStep>) -> Seq<Seq<char>>
    decreases steps.len(),
{
    if steps.len() == 0 {
        Seq::empty()
    } else {
        served_names(steps.drop_last()) + slice_requests(steps.last().request_slices@)
    }
}

/// The requests of the trace, once each, in order.
pub open spec fn request_ids(events: Seq<Event>, steps: Seq<CorrelatedStep>) -> Seq<Seq<char>> {
    distinct(fact_names(events) + served_names(steps))
}

/// Whether the step serves the request.
pub open spec fn serves(step: CorrelatedStep, id: Seq<char>) -> bool {
    slice_requests(step.request_slices@).contains(id)
}

/// The steps that serve the request.
pub open spec fn serving_steps(steps: Seq<CorrelatedStep>, id: Seq<char>) -> Seq<u64>
    decreases steps.len(),
{
    if steps.len() == 0 {
        Seq::empty()
    } else {
        let front = serving_steps(steps.drop_last(), id);
        if serves(steps.last(), id) {
            front.push(steps.last().step_id)
        } else {
            front
        }
    }
}

/// The other requests of the slices.
pub open spec fn other_requests(slices: Seq<RequestSlice>, id: Seq<char>) -> Seq<Seq<char>>
    decreases slices.len(),
{
    if slices.len() == 0 {
        Seq::empty()
    } else {
        let front = other_requests(slices.drop_last(), id);
        if slices.last().request_id@ != id {
            front.push(slices.last().request_id@)
        } else {
            front
        }
    }
}

/// The other requests of the steps that serve the request.
pub open spec fn companions(steps: Seq<CorrelatedStep>, id: Seq<char>) -> Seq<Seq<char>>
    decreases steps.len(),
{
    if steps.len() == 0 {
        Seq::empty()
    } else {
        let front = companions(steps.drop_last(), id);
        if serves(steps.last(), id) {
            front + other_requests(steps.last().request_slices@, id)
        } else {
            front
        }
    }
}

/// When the first step that serves the request began.
pub open spec fn first_service(steps: Seq<CorrelatedStep>, id: Seq<char>) -> Option<u64>
    decreases steps.len(),
{
    if steps.len() == 0 {
        None
    } else {
        let begin = steps.last().begin_timestamp_ns;
        match first_service(steps.drop_last(), id) {
            Some(earlier) => if serves(steps.last(), id) && begin < earlier {
                Some(begin)
            } else {
                Some(earlier)
            },
            None => if serves(steps.last(), id) {
                Some(begin)
            } else {
                None
            },
        }
    }
}

/// How long the request waited, where both ends are known and in order.
pub open spec fn queue_delay(queued: Option<u64>, served: Option<u64>) -> Option<u64> {
    match (queued, served) {
        (Some(queued), Some(served)) => value_if(served >= queued, (served - queued) as u64),
        _ => None,
    }
}

pub open spec fn string_texts(strings: Seq<String>) -> Seq<Seq<char>> {
    strings.map_values(|s: String| s@)
}

pub open spec fn request_reports(
    r: RequestExecution,
    events: Seq<Event>,
    steps: Seq<CorrelatedStep>,
    id: Seq<char>,
) -> bool {
    let facts = after_steps(event_facts(events, id), steps, id);
    &&& r.request_id@ == id
    &&& optional_text(r.service_class) == facts.service_class
    &&& r.step_ids@ == serving_steps(steps, id)
    &&& string_texts(r.shared_with_request_ids@) == distinct(companions(steps, id))
    &&& r.queue_delay_ns == queue_delay(facts.queued_at_ns, first_service(steps, id))
    &&& r.ttft_ns == facts.ttft_ns
    &&& r.e2e_latency_ns == facts.e2e_latency_ns
}

pub open spec fn requests_report(
    r: Seq<RequestExecution>,
    events: Seq<Event>,
    steps: Seq<CorrelatedStep>,
) -> bool {
    let ids = request_ids(events, steps);
    &&& r.len() == ids.len()
    &&& forall|k: int|
        0 <= k < r.len() ==> request_reports(#[trigger] r[k], events, steps, ids[k])
}

/// The facts of one request, as they are gathered.
#[derive(Clone, Copy)]
struct FactRow<'a> {
    service_class: Option<&'a str>,
    queued_at_ns: Option<u64>,
    ttft_ns: Option<u64>,
    e2e_latency_ns: Option<u64>,
}

spec fn row_facts(row: FactRow<'_>) -> RequestFacts {
    RequestFacts {
        service_class: match row.service_class {
            Some(text) => Some(text@),
            None => None,
        },
        queued_at_ns: row.queued_at_ns,
        ttft_ns: row.ttft_ns,
        e2e_latency_ns: row.e2e_latency_ns,
    }
}

spec fn rows_are(
    rows: Seq<FactRow<'_>>,
    ids: Seq<Seq<char>>,
    facts: spec_fn(Seq<char>) -> RequestFacts,
) -> bool {
    &&& rows.len() == ids.len()
    &&& forall|k: int| 0 <= k < ids.len() ==> row_facts(#[trigger] rows[k]) == facts(ids[k])
}

fn borrowed<'a>(text: &'a Option<String>) -> (r: Option<&'a str>)
    ensures
        match r {
            Some(text) => Some(text@),
            None => None,
        } == optional_text(*text),
{
    match text {
        Some(text) => Some(text.as_str()),
        None => None,
    }
}

/// The row of a request of the table.
fn row_index(table: &NameTable<'_>, id: &str) -> (k: usize)
    requires
        increasing(table.listed()),
        table.listed().contains(id@),
    ensures
        k < table.listed().len(),
        table.listed()[k as int] == id@,
        forall|j: int|
            0 <= j < table.listed().len() && j != k ==> #[trigger] table.listed()[j] != id@,
{
    let number: usize = table.id(id);
    proof {
        assert forall|j: int|
            0 <= j < table.listed().len() && j != number - 1 implies #[trigger] table.listed()[j]
            != id@ by {
            if table.listed()[j] == id@ {
                numbers_are_unique(table.listed(), j, number - 1);
            }
        }
    }
    number - 1
}

/// Gathers what the events say.
fn gather_events<'a>(
    events: &'a [Event],
    table: &NameTable<'_>,
    rows: &mut Vec<FactRow<'a>>,
)
    requires
        increasing(table.listed()),
        forall|x: Seq<char>| #[trigger]
            fact_names(events@).contains(x) ==> table.listed().contains(x),
        rows_are(old(rows)@, table.listed(), |id: Seq<char>| no_facts()),
    ensures
        rows_are(final(rows)@, table.listed(), |id: Seq<char>| event_facts(events@, id)),
{
    let ghost ids = table.listed();
    let mut i: usize = 0;
    assert(events@.take(0) =~= Seq::<Event>::empty());
    assert(rows_are(rows@, ids, |id: Seq<char>| event_facts(events@.take(0), id)));
    while i < events.len()
        invariant
            i <= events.len(),
            ids == table.listed(),
            increasing(ids),
            forall|x: Seq<char>| #[trigger] fact_names(events@).contains(x) ==> ids.contains(x),
            rows_are(rows@, ids, |id: Seq<char>| event_facts(events@.take(i as int), id)),
        decreases events.len() - i,
    {
        let event = &events[i];
        let ghost next = events@.take(i + 1);
        let ghost before = |id: Seq<char>| event_facts(events@.take(i as int), id);
        let ghost after = |id: Seq<char>| event_facts(next, id);
        let ghost rows0 = rows@;
        proof {
            assert(next.drop_last() =~= events@.take(i as int));
            assert(next.last() == *event);
            assert forall|k: int| 0 <= k < ids.len() implies #[trigger] after(ids[k])
                == after_event(before(ids[k]), *event, ids[k]) by {}
            if fact_name(*event).len() > 0 {
                fact_name_is_listed(events@, i as int);
            }
        }
        match &event.kind {
            EventKind::RequestReceived { request_id, service_class, .. } => {
                let k: usize = row_index(table, request_id.as_str());
                let mut row = rows[k];
                row.service_class = borrowed(service_class);
                rows.set(k, row);
                assert(row_facts(row) == after_event(row_facts(rows0[k as int]), *event, ids[k as int]));
            },
            EventKind::RequestQueued { request_id, .. } => {
                let k: usize = row_index(table, request_id.as_str());
                let mut row = rows[k];
                row.queued_at_ns = Some(event.correlation_timestamp_ns());
                rows.set(k, row);
                assert(row_facts(row) == after_event(row_facts(rows0[k as int]), *event, ids[k as int]));
            },
            EventKind::RequestCompleted { request_id, ttft_ns, e2e_latency_ns, .. } => {
                let k: usize = row_index(table, request_id.as_str());
                let mut row = rows[k];
                row.ttft_ns = *ttft_ns;
                row.e2e_latency_ns = Some(*e2e_latency_ns);
                rows.set(k, row);
                assert(row_facts(row) == after_event(row_facts(rows0[k as int]), *event, ids[k as int]));
            },
            _ => {},
        }
        proof {
            assert forall|j: int| 0 <= j < ids.len() implies row_facts(#[trigger] rows@[j])
                == after(ids[j]) by {
                assert(row_facts(rows0[j]) == before(ids[j]));
            }
        }
        i += 1;
    }
    assert(events@.take(events@.len() as int) =~= events@);
}

proof fn fact_name_is_listed(events: Seq<Event>, n: int)
    requires
        0 <= n < events.len(),
        fact_name(events[n]).len() > 0,
    ensures
        fact_names(events).contains(fact_name(events[n])[0]),
    decreases events.len(),
{
    let front = events.drop_last();
    if n < front.len() {
        fact_name_is_listed(front, n);
        assert(front[n] == events[n]);
        let x = fact_name(events[n])[0];
        let i = choose|i: int| 0 <= i < fact_names(front).len() && fact_names(front)[i] == x;
        assert(fact_names(events)[i] == x);
    } else {
        assert(fact_names(events)[fact_names(front).len() as int] == fact_name(events[n])[0]);
    }
}

proof fn slice_name_is_served(steps: Seq<CorrelatedStep>, n: int, i: int)
    requires
        0 <= n < steps.len(),
        0 <= i < steps[n].request_slices@.len(),
    ensures
        served_names(steps).contains(steps[n].request_slices@[i].request_id@),
    decreases steps.len(),
{
    let front = steps.drop_last();
    let x = steps[n].request_slices@[i].request_id@;
    if n < front.len() {
        slice_name_is_served(front, n, i);
        assert(front[n] == steps[n]);
        let j = choose|j: int| 0 <= j < served_names(front).len() && served_names(front)[j] == x;
        assert(served_names(steps)[j] == x);
    } else {
        assert(served_names(steps)[served_names(front).len() + i] == x);
    }
}

/// Gathers what the slices of one step say.
fn gather_slices<'a>(
    slices: &'a Vec<RequestSlice>,
    table: &NameTable<'_>,
    rows: &mut Vec<FactRow<'a>>,
    Ghost(start): Ghost<spec_fn(Seq<char>) -> RequestFacts>,
)
    requires
        increasing(table.listed()),
        forall|i: int|
            0 <= i < slices@.len() ==> table.listed().contains(
                (#[trigger] slices@[i]).request_id@,
            ),
        rows_are(old(rows)@, table.listed(), start),
    ensures
        rows_are(
            final(rows)@,
            table.listed(),
            |id: Seq<char>| after_slices(start(id), slices@, id),
        ),
{
    let ghost ids = table.listed();
    let mut i: usize = 0;
    assert(slices@.take(0) =~= Seq::<RequestSlice>::empty());
    assert(rows_are(rows@, ids, |id: Seq<char>| after_slices(start(id), slices@.take(0), id)));
    while i < slices.len()
        invariant
            i <= slices.len(),
            ids == table.listed(),
            increasing(ids),
            forall|i: int|
                0 <= i < slices@.len() ==> ids.contains((#[trigger] slices@[i]).request_id@),
            rows_are(
                rows@,
                ids,
                |id: Seq<char>| after_slices(start(id), slices@.take(i as int), id),
            ),
        decreases slices.len() - i,
    {
        let slice = &slices[i];
        let ghost before = |id: Seq<char>| after_slices(start(id), slices@.take(i as int), id);
        let ghost after = |id: Seq<char>| after_slices(start(id), slices@.take(i + 1), id);
        let ghost rows0 = rows@;
        proof {
            assert(slices@.take(i + 1).drop_last() =~= slices@.take(i as int));
            assert(slices@.take(i + 1).last() == *slice);
            assert(ids.contains(slices@[i as int].request_id@));
        }
        let k: usize = row_index(table, slice.request_id.as_str());
        let mut row = rows[k];
        if row.service_class.is_none() {
            row.service_class = borrowed(&slice.service_class);
            rows.set(k, row);
        }
        proof {
            assert forall|j: int| 0 <= j < ids.len() implies row_facts(#[trigger] rows@[j])
                == after(ids[j]) by {
                assert(row_facts(rows0[j]) == before(ids[j]));
            }
        }
        i += 1;
    }
    assert(slices@.take(slices@.len() as int) =~= slices@);
}

/// Gathers what the steps say.
fn gather_steps<'a>(
    events: &'a [Event],
    steps: &'a [CorrelatedStep],
    table: &NameTable<'_>,
    rows: &mut Vec<FactRow<'a>>,
)
    requires
        increasing(table.listed()),
        forall|x: Seq<char>| #[trigger]
            served_names(steps@).contains(x) ==> table.listed().contains(x),
        rows_are(old(rows)@, table.listed(), |id: Seq<char>| event_facts(events@, id)),
    ensures
        rows_are(
            final(rows)@,
            table.listed(),
            |id: Seq<char>| after_steps(event_facts(events@, id), steps@, id),
        ),
{
    let ghost ids = table.listed();
    let mut n: usize = 0;
    assert(steps@.take(0) =~= Seq::<CorrelatedStep>::empty());
    assert(rows_are(
        rows@,
        ids,
        |id: Seq<char>| after_steps(event_facts(events@, id), steps@.take(0), id),
    ));
    while n < steps.len()
        invariant
            n <= steps.len(),
            ids == table.listed(),
            increasing(ids),
            forall|x: Seq<char>| #[trigger] served_names(steps@).contains(x) ==> ids.contains(x),
            rows_are(
                rows@,
                ids,
                |id: Seq<char>| after_steps(event_facts(events@, id), steps@.take(n as int), id),
            ),
        decreases steps.len() - n,
    {
        let ghost before = |id: Seq<char>|
            after_steps(event_facts(events@, id), steps@.take(n as int), id);
        let slices = &steps[n].request_slices;
        proof {
            assert(steps@.take(n + 1).drop_last() =~= steps@.take(n as int));
            assert forall|i: int| 0 <= i < slices@.len() implies ids.contains(
                (#[trigger] slices@[i]).request_id@,
            ) by {
                slice_name_is_served(steps@, n as int, i);
            }
        }
        gather_slices(slices, table, rows, Ghost(before));
        proof {
            assert forall|j: int| 0 <= j < ids.len() implies row_facts(#[trigger] rows@[j])
                == after_steps(event_facts(events@, ids[j]), steps@.take(n + 1), ids[j]) by {
                assert(row_facts(rows@[j]) == after_slices(before(ids[j]), slices@, ids[j]));
            }
        }
        n += 1;
    }
    assert(steps@.take(steps@.len() as int) =~= steps@);
}

/// Whether the step serves the request, with the other requests it serves
/// appended to the list if so.
fn visit_step<'a>(step: &'a CorrelatedStep, id: &str, others: &mut Vec<Name<'a>>) -> (r: bool)
    ensures
        r == serves(*step, id@),
        texts(final(others)@) == if r {
            texts(old(others)@) + other_requests(step.request_slices@, id@)
        } else {
            texts(old(others)@)
        },
{
    let slices = &step.request_slices;
    let ghost all = slice_requests(slices@);
    let mut found = false;
    let mut i: usize = 0;
    while i < slices.len() && !found
        invariant
            i <= slices.len(),
            all == slice_requests(slices@),
            found ==> all.contains(id@),
            !found ==> forall|j: int| 0 <= j < i ==> #[trigger] all[j] != id@,
        decreases slices.len() - i,
    {
        if text_is(slices[i].request_id.as_str(), id) {
            assert(all[i as int] == id@);
            found = true;
        }
        i += 1;
    }
    if !found {
        return false;
    }
    let ghost start = texts(others@);
    let mut i: usize = 0;
    assert(slices@.take(0) =~= Seq::<RequestSlice>::empty());
    assert(start + other_requests(slices@.take(0), id@) =~= start);
    while i < slices.len()
        invariant
            i <= slices.len(),
            texts(others@) == start + other_requests(slices@.take(i as int), id@),
        decreases slices.len() - i,
    {
        let slice = &slices[i];
        let ghost before = texts(others@);
        proof {
            assert(slices@.take(i + 1).drop_last() =~= slices@.take(i as int));
            assert(slices@.take(i + 1).last() == *slice);
        }
        if !text_is(slice.request_id.as_str(), id) {
            others.push(Name { text: slice.request_id.as_str() });
            assert(texts(others@) =~= before.push(slice.request_id@));
        }
        assert(texts(others@) =~= start + other_requests(slices@.take(i + 1), id@));
        i += 1;
    }
    assert(slices@.take(slices@.len() as int) =~= slices@);
    true
}

/// The names of the table, owned.
fn owned_names(table: &NameTable<'_>) -> (r: Vec<String>)
    ensures
        string_texts(r@) == table.listed(),
{
    let mut r: Vec<String> = Vec::new();
    let count: usize = table.len();
    let mut i: usize = 0;
    while i < count
        invariant
            i <= count,
            count == table.listed().len(),
            r@.len() == i,
            forall|k: int| 0 <= k < i ==> (#[trigger] r@[k])@ == table.listed()[k],
        decreases count - i,
    {
        if let Some(name) = table.name(i as u64 + 1) {
            r.push(name.to_owned());
        }
        i += 1;
    }
    assert(string_texts(r@) =~= table.listed());
    r
}

fn build_request(
    id: &str,
    steps: &[CorrelatedStep],
    row: &FactRow<'_>,
    Ghost(events): Ghost<Seq<Event>>,
) -> (r: RequestExecution)
    requires
        row_facts(*row) == after_steps(event_facts(events, id@), steps@, id@),
    ensures
        request_reports(r, events, steps@, id@),
{
    let mut step_ids: Vec<u64> = Vec::new();
    let mut others: Vec<Name<'_>> = Vec::new();
    let mut first: Option<u64> = None;
    let mut n: usize = 0;
    assert(steps@.take(0) =~= Seq::<CorrelatedStep>::empty());
    assert(texts(others@) =~= companions(steps@.take(0), id@));
    while n < steps.len()
        invariant
            n <= steps.len(),
            step_ids@ == serving_steps(steps@.take(n as int), id@),
            texts(others@) == companions(steps@.take(n as int), id@),
            first == first_service(steps@.take(n as int), id@),
        decreases steps.len() - n,
    {
        let step = &steps[n];
        proof {
            assert(steps@.take(n + 1).drop_last() =~= steps@.take(n as int));
            assert(steps@.take(n + 1).last() == *step);
        }
        if visit_step(step, id, &mut others) {
            step_ids.push(step.step_id);
            first = match first {
                Some(earlier) => if step.begin_timestamp_ns < earlier {
                    Some(step.begin_timestamp_ns)
                } else {
                    Some(earlier)
                },
                None => Some(step.begin_timestamp_ns),
            };
        }
        n += 1;
    }
    assert(steps@.take(steps@.len() as int) =~= steps@);
    let shared = NameTable::from_values(&others);
    let queue_delay_ns: Option<u64> = match (row.queued_at_ns, first) {
        (Some(queued), Some(served)) => served.checked_sub(queued),
        _ => None,
    };
    RequestExecution {
        request_id: id.to_owned(),
        service_class: owned(row.service_class),
        step_ids,
        shared_with_request_ids: owned_names(&shared),
        queue_delay_ns,
        ttft_ns: row.ttft_ns,
        e2e_latency_ns: row.e2e_latency_ns,
    }
}

/// Collects the requests that the events and the steps speak of.
fn collect_requests<'a>(events: &'a [Event], steps: &'a [CorrelatedStep]) -> (r: Vec<Name<'a>>)
    ensures
        texts(r@) == fact_names(events@) + served_names(steps@),
{
    let mut r: Vec<Name<'a>> = Vec::new();
    let mut i: usize = 0;
    assert(events@.take(0) =~= Seq::<Event>::empty());
    assert(texts(r@) =~= fact_names(events@.take(0)));
    while i < events.len()
        invariant
            i <= events.len(),
            texts(r@) == fact_names(events@.take(i as int)),
        decreases events.len() - i,
    {
        let event = &events[i];
        let ghost before = texts(r@);
        proof {
            assert(events@.take(i + 1).drop_last() =~= events@.take(i as int));
            assert(events@.take(i + 1).last() == *event);
        }
        match &event.kind {
            EventKind::RequestReceived { request_id, .. }
            | EventKind::RequestQueued { request_id, .. }
            | EventKind::RequestCompleted { request_id, .. } => {
                r.push(Name { text: request_id.as_str() });
            },
            _ => {},
        }
        assert(texts(r@) =~= before + fact_name(*event));
        i += 1;
    }
    assert(events@.take(events@.len() as int) =~= events@);
    let mut n: usize = 0;
    assert(steps@.take(0) =~= Seq::<CorrelatedStep>::empty());
    assert(texts(r@) =~= fact_names(events@) + served_names(steps@.take(0)));
    while n < steps.len()
        invariant
            n <= steps.len(),
            texts(r@) == fact_names(events@) + served_names(steps@.take(n as int)),
        decreases steps.len() - n,
    {
        let slices = &steps[n].request_slices;
        let ghost all = slice_requests(slices@);
        let ghost before = texts(r@);
        proof {
            assert(steps@.take(n + 1).drop_last() =~= steps@.take(n as int));
            assert(before + all.take(0) =~= before);
        }
        let mut i: usize = 0;
        while i < slices.len()
            invariant
                i <= slices.len(),
                all == slice_requests(slices@),
                texts(r@) == before + all.take(i as int),
            decreases slices.len() - i,
        {
            let ghost middle = texts(r@);
            r.push(Name { text: slices[i].request_id.as_str() });
            assert(texts(r@) =~= middle.push(all[i as int]));
            assert(texts(r@) =~= before + all.take(i + 1));
            i += 1;
        }
        assert(all.take(all.len() as int) =~= all);
        assert(texts(r@) =~= fact_names(events@) + served_names(steps@.take(n + 1)));
        n += 1;
    }
    assert(steps@.take(steps@.len() as int) =~= steps@);
    r
}

/// The requests of the trace.
pub fn build_requests(events: &[Event], steps: &[CorrelatedStep]) -> (r: Vec<RequestExecution>)
    ensures
        requests_report(r@, events@, steps@),
{
    let values = collect_requests(events, steps);
    let table = NameTable::from_values(&values);
    let ghost ids = table.listed();
    proof {
        let f = fact_names(events@);
        let g = served_names(steps@);
        assert forall|x: Seq<char>| #[trigger] f.contains(x) implies ids.contains(x) by {
            let i = choose|i: int| 0 <= i < f.len() && f[i] == x;
            assert((f + g)[i] == x);
            assert(ids.to_set().contains(x)) by {
                assert((f + g).to_set().contains(x));
            }
        }
        assert forall|x: Seq<char>| #[trigger] g.contains(x) implies ids.contains(x) by {
            let i = choose|i: int| 0 <= i < g.len() && g[i] == x;
            assert((f + g)[f.len() + i] == x);
            assert(ids.to_set().contains(x)) by {
                assert((f + g).to_set().contains(x));
            }
        }
    }
    let count: usize = table.len();
    let mut rows: Vec<FactRow<'_>> = Vec::new();
    let blank = FactRow {
        service_class: None,
        queued_at_ns: None,
        ttft_ns: None,
        e2e_latency_ns: None,
    };
    let mut k: usize = 0;
    while k < count
        invariant
            k <= count,
            rows@.len() == k,
            row_facts(blank) == no_facts(),
            forall|j: int| 0 <= j < k ==> row_facts(#[trigger] rows@[j]) == no_facts(),
        decreases count - k,
    {
        rows.push(blank);
        k += 1;
    }
    gather_events(events, &table, &mut rows);
    gather_steps(events, steps, &table, &mut rows);
    let ghost facts = |id: Seq<char>| after_steps(event_facts(events@, id), steps@, id);
    let mut r: Vec<RequestExecution> = Vec::new();
    let mut k: usize = 0;
    while k < count
        invariant
            k <= count,
            count == ids.len(),
            ids == table.listed(),
            facts == (|id: Seq<char>| after_steps(event_facts(events@, id), steps@, id)),
            rows_are(rows@, ids, facts),
            r@.len() == k,
            forall|j: int|
                0 <= j < k ==> request_reports(#[trigger] r@[j], events@, steps@, ids[j]),
        decreases count - k,
    {
        if let Some(id) = table.name(k as u64 + 1) {
            let row = &rows[k];
            assert(row_facts(rows@[k as int]) == facts(ids[k as int]));
            r.push(build_request(id, steps, row, Ghost(events@)));
        }
        k += 1;
    }
    r
}

// Diagnostics.

pub open spec fn code_name(code: DiagnosticCode) -> Seq<char> {
    match code {
        DiagnosticCode::UnnormalizedClock => "UnnormalizedClock"@,
        DiagnosticCode::DuplicateStepBegin => "DuplicateStepBegin"@,
        DiagnosticCode::StepEndWithoutBegin => "StepEndWithoutBegin"@,
        DiagnosticCode::StepClockReversal => "StepClockReversal"@,
        DiagnosticCode::OpenStep => "OpenStep"@,
        DiagnosticCode::SliceWithoutOpenStep => "SliceWithoutOpenStep"@,
        DiagnosticCode::SliceCountMismatch => "SliceCountMismatch"@,
        DiagnosticCode::LaunchOutsideStep => "LaunchOutsideStep"@,
        DiagnosticCode::ActivityWithoutLaunch => "ActivityWithoutLaunch"@,
        DiagnosticCode::TelemetryLoss => "TelemetryLoss"@,
    }
}

pub open spec fn code_word(code: DiagnosticCode) -> Seq<char> {
    match code {
        DiagnosticCode::UnnormalizedClock => "unnormalizedclock"@,
        DiagnosticCode::DuplicateStepBegin => "duplicatestepbegin"@,
        DiagnosticCode::StepEndWithoutBegin => "stependwithoutbegin"@,
        DiagnosticCode::StepClockReversal => "stepclockreversal"@,
        DiagnosticCode::OpenStep => "openstep"@,
        DiagnosticCode::SliceWithoutOpenStep => "slicewithoutopenstep"@,
        DiagnosticCode::SliceCountMismatch => "slicecountmismatch"@,
        DiagnosticCode::LaunchOutsideStep => "launchoutsidestep"@,
        DiagnosticCode::ActivityWithoutLaunch => "activitywithoutlaunch"@,
        DiagnosticCode::TelemetryLoss => "telemetryloss"@,
    }
}

pub open spec fn severity_of(code: DiagnosticCode) -> DiagnosticSeverity {
    match code {
        DiagnosticCode::UnnormalizedClock
        | DiagnosticCode::OpenStep
        | DiagnosticCode::SliceCountMismatch
        | DiagnosticCode::TelemetryLoss
        | DiagnosticCode::ActivityWithoutLaunch => DiagnosticSeverity::Warning,
        _ => DiagnosticSeverity::Error,
    }
}

pub open spec fn diagnostic_reports(
    r: Diagnostic,
    d: crate::correlation::Diagnostic,
    ids: Seq<Seq<char>>,
) -> bool {
    &&& r.severity == severity_of(d.code)
    &&& r.code@ == code_word(d.code)
    &&& r.message@ == code_name(d.code) + ": pid="@ + decimal(d.pid as nat) + ", step_id="@
        + decimal(d.step_id as nat) + ", sequence="@ + decimal(d.sequence as nat)
    &&& string_texts(r.event_ids@) == if d.sequence != 0 {
        seq![id_at(ids, d.sequence)]
    } else {
        Seq::empty()
    }
}

/// The event that a diagnostic leaves without a step: its identifier, what it
/// is, and why.
pub open spec fn unassigned_of(d: crate::correlation::Diagnostic, ids: Seq<Seq<char>>) -> Seq<
    (Seq<char>, Seq<char>, Seq<char>),
> {
    match d.code {
        DiagnosticCode::LaunchOutsideStep => seq![
            (
                id_at(ids, d.sequence),
                "cuda_kernel_or_graph_launch"@,
                "no open engine step existed for the same PID"@,
            ),
        ],
        DiagnosticCode::ActivityWithoutLaunch => seq![
            (
                id_at(ids, d.sequence),
                "cupti_kernel_activity"@,
                "no launch matched (PID, stream, correlation_id)"@,
            ),
        ],
        _ => Seq::empty(),
    }
}

pub open spec fn all_unassigned(
    diagnostics: Seq<crate::correlation::Diagnostic>,
    ids: Seq<Seq<char>>,
) -> Seq<(Seq<char>, Seq<char>, Seq<char>)>
    decreases diagnostics.len(),
{
    if diagnostics.len() == 0 {
        Seq::empty()
    } else {
        all_unassigned(diagnostics.drop_last(), ids) + unassigned_of(diagnostics.last(), ids)
    }
}

pub open spec fn unassigned_texts(r: Seq<UnassignedEvent>) -> Seq<
    (Seq<char>, Seq<char>, Seq<char>),
> {
    r.map_values(|u: UnassignedEvent| (u.event_id@, u.event@, u.reason@))
}

pub open spec fn diagnostics_report(
    r: Seq<Diagnostic>,
    diagnostics: Seq<crate::correlation::Diagnostic>,
    ids: Seq<Seq<char>>,
) -> bool {
    &&& r.len() == diagnostics.len()
    &&& forall|i: int|
        0 <= i < r.len() ==> diagnostic_reports(#[trigger] r[i], diagnostics[i], ids)
}

fn code_name_text(code: DiagnosticCode) -> (r: &'static str)
    ensures
        r@ == code_name(code),
{
    match code {
        DiagnosticCode::UnnormalizedClock => "UnnormalizedClock",
        DiagnosticCode::DuplicateStepBegin => "DuplicateStepBegin",
        DiagnosticCode::StepEndWithoutBegin => "StepEndWithoutBegin",
        DiagnosticCode::StepClockReversal => "StepClockReversal",
        DiagnosticCode::OpenStep => "OpenStep",
        DiagnosticCode::SliceWithoutOpenStep => "SliceWithoutOpenStep",
        DiagnosticCode::SliceCountMismatch => "SliceCountMismatch",
        DiagnosticCode::LaunchOutsideStep => "LaunchOutsideStep",
        DiagnosticCode::ActivityWithoutLaunch => "ActivityWithoutLaunch",
        DiagnosticCode::TelemetryLoss => "TelemetryLoss",
    }
}

fn code_word_text(code: DiagnosticCode) -> (r: &'static str)
    ensures
        r@ == code_word(code),
{
    match code {
        DiagnosticCode::UnnormalizedClock => "unnormalizedclock",
        DiagnosticCode::DuplicateStepBegin => "duplicatestepbegin",
        DiagnosticCode::StepEndWithoutBegin => "stependwithoutbegin",
        DiagnosticCode::StepClockReversal => "stepclockreversal",
        DiagnosticCode::OpenStep => "openstep",
        DiagnosticCode::SliceWithoutOpenStep => "slicewithoutopenstep",
        DiagnosticCode::SliceCountMismatch => "slicecountmismatch",
        DiagnosticCode::LaunchOutsideStep => "launchoutsidestep",
        DiagnosticCode::ActivityWithoutLaunch => "activitywithoutlaunch",
        DiagnosticCode::TelemetryLoss => "telemetryloss",
    }
}

fn diagnostic_severity(code: DiagnosticCode) -> (r: DiagnosticSeverity)
    ensures
        r == severity_of(code),
{
    match code {
        DiagnosticCode::UnnormalizedClock
        | DiagnosticCode::OpenStep
        | DiagnosticCode::SliceCountMismatch
        | DiagnosticCode::TelemetryLoss
        | DiagnosticCode::ActivityWithoutLaunch => DiagnosticSeverity::Warning,
        _ => DiagnosticSeverity::Error,
    }
}

fn unassigned(event_id: &str, event: &str, reason: &str) -> (r: UnassignedEvent)
    ensures
        (r.event_id@, r.event@, r.reason@) == (event_id@, event@, reason@),
{
    UnassignedEvent {
        event_id: event_id.to_owned(),
        event: event.to_owned(),
        reason: reason.to_owned(),
    }
}

fn build_diagnostic(d: &crate::correlation::Diagnostic, ids: &Vec<Name<'_>>) -> (r: Diagnostic)
    ensures
        diagnostic_reports(r, *d, texts(ids@)),
{
    let mut message = code_name_text(d.code).to_owned();
    message.append(": pid=");
    append_decimal(&mut message, d.pid as u64);
    message.append(", step_id=");
    append_decimal(&mut message, d.step_id);
    message.append(", sequence=");
    append_decimal(&mut message, d.sequence);
    let mut event_ids: Vec<String> = Vec::new();
    if d.sequence != 0 {
        event_ids.push(event_id(ids, d.sequence).to_owned());
    }
    let r = Diagnostic {
        severity: diagnostic_severity(d.code),
        code: code_word_text(d.code).to_owned(),
        message,
        event_ids,
    };
    proof {
        assert(string_texts(r.event_ids@) =~= if d.sequence != 0 {
            seq![id_at(texts(ids@), d.sequence)]
        } else {
            Seq::empty()
        });
    }
    r
}

/// Appends what the trace reports, and the events that found no step.
fn append_diagnostics(
    trace: &TraceIndex,
    ids: &Vec<Name<'_>>,
    diagnostics: &mut Vec<Diagnostic>,
    unassigned_events: &mut Vec<UnassignedEvent>,
)
    requires
        old(diagnostics)@.len() == 0,
        old(unassigned_events)@.len() == 0,
    ensures
        diagnostics_report(final(diagnostics)@, trace@.diagnostics, texts(ids@)),
        unassigned_texts(final(unassigned_events)@) == all_unassigned(
            trace@.diagnostics,
            texts(ids@),
        ),
{
    let found = trace.diagnostics();
    let ghost texts_of = texts(ids@);
    let mut i: usize = 0;
    assert(found@.take(0) =~= Seq::<crate::correlation::Diagnostic>::empty());
    assert(unassigned_texts(unassigned_events@) =~= all_unassigned(found@.take(0), texts_of));
    while i < found.len()
        invariant
            i <= found.len(),
            texts_of == texts(ids@),
            diagnostics@.len() == i,
            forall|k: int|
                0 <= k < i ==> diagnostic_reports(#[trigger] diagnostics@[k], found@[k], texts_of),
            unassigned_texts(unassigned_events@) == all_unassigned(found@.take(i as int), texts_of),
        decreases found.len() - i,
    {
        let d = &found[i];
        let ghost before = unassigned_texts(unassigned_events@);
        proof {
            assert(found@.take(i + 1).drop_last() =~= found@.take(i as int));
            assert(found@.take(i + 1).last() == *d);
        }
        diagnostics.push(build_diagnostic(d, ids));
        match d.code {
            DiagnosticCode::LaunchOutsideStep => {
                unassigned_events.push(
                    unassigned(
                        event_id(ids, d.sequence),
                        "cuda_kernel_or_graph_launch",
                        "no open engine step existed for the same PID",
                    ),
                );
            },
            DiagnosticCode::ActivityWithoutLaunch => {
                unassigned_events.push(
                    unassigned(
                        event_id(ids, d.sequence),
                        "cupti_kernel_activity",
                        "no launch matched (PID, stream, correlation_id)",
                    ),
                );
            },
            _ => {},
        }
        assert(unassigned_texts(unassigned_events@) =~= before + unassigned_of(*d, texts_of));
        i += 1;
    }
    assert(found@.take(found@.len() as int) =~= found@);
}

// The whole report.

/// The records of the events, arranged by time.
pub open spec fn timeline(events: Seq<Event>) -> Seq<crate::event::EventRecord> {
    arranged(all_records(events, tables_of(events)))
}

/// Whether the report says of the events what their trace holds.
pub open spec fn reports(report: CorrelationReport, events: Seq<Event>) -> bool {
    let t = tables_of(events);
    let ids = record_event_ids(events, t);
    let trace = traced(timeline(events));
    &&& report.schema_version == CURRENT_SCHEMA_VERSION
    &&& report.input_event_count == events.len()
    &&& report.hot_event_record_bytes == EVENT_RECORD_BYTES
    &&& are_index_bytes(report.core_index_bytes, trace)
    &&& report.core_index_bytes >= trace.steps.len() * vstd::layout::size_of::<
        crate::correlation::StepSummary,
    >() + trace.memberships.len() * vstd::layout::size_of::<crate::correlation::Membership>()
        + trace.kernels.len() * vstd::layout::size_of::<crate::correlation::KernelExecution>()
        + trace.diagnostics.len() * vstd::layout::size_of::<crate::correlation::Diagnostic>()
        || report.core_index_bytes == usize::MAX
    &&& steps_report(report.steps@, trace, t, ids)
    &&& requests_report(report.requests@, events, report.steps@)
    &&& diagnostics_report(report.diagnostics@, trace.diagnostics, ids)
    &&& unassigned_texts(report.unassigned_events@) == all_unassigned(trace.diagnostics, ids)
}

/// Whether nothing about the events stands in the way of a report.
pub open spec fn reportable(events: Seq<Event>) -> bool {
    compact_failure(events) is None && !too_many(timeline(events))
}

/// Whether the error is one that the events can lead to, or one of memory.
pub open spec fn explains(error: ObserverError, events: Seq<Event>) -> bool {
    ||| out_of_memory(error)
    ||| compact_failure(events) matches Some(failure) && blames(error, failure.0, failure.1)
    ||| compact_failure(events) is None && blames(
        error,
        "collector"@,
        if too_many(timeline(events)) {
            "core correlation failed: IndexOverflow"@
        } else {
            "core correlation failed: AllocationFailed"@
        },
    )
}

/// Whether the outcome is one that the correlation of the events can have.
pub open spec fn correlation_outcome(
    outcome: Result<CorrelationReport, ObserverError>,
    events: Seq<Event>,
) -> bool {
    match outcome {
        Ok(report) => reportable(events) && reports(report, events),
        Err(error) => explains(error, events),
    }
}

/// Correlates the events into a report, where there is room for it.
pub fn correlate_checked(events: &[Event]) -> (r: Result<CorrelationReport, ObserverError>)
    ensures
        correlation_outcome(r, events@),
{
    let mut compact = compact_events(events)?;
    let trace = crate::correlation::correlate(compact.records.as_mut_slice());
    report_trace(events, &compact, trace)
}

/// What stands in the way of a report where the trace could not be made.
pub open spec fn correlation_failed(error: CorrelationError) -> Seq<char> {
    match error {
        CorrelationError::IndexOverflow => "core correlation failed: IndexOverflow"@,
        CorrelationError::AllocationFailed => "core correlation failed: AllocationFailed"@,
    }
}

/// The report of events from the names of their records and their trace.
pub fn report_trace(
    events: &[Event],
    compact: &CompactInput<'_>,
    trace: Result<TraceIndex, CorrelationError>,
) -> (r: Result<CorrelationReport, ObserverError>)
    requires
        compact.names.tables() == tables_of(events@),
        texts(compact.sequence_event_ids@) == record_event_ids(events@, tables_of(events@)),
        trace matches Ok(trace) ==> !too_many(timeline(events@)) && trace@ == traced(
            timeline(events@),
        ),
    ensures
        match (r, trace) {
            (Ok(report), Ok(_)) => reports(report, events@),
            (Err(error), Err(cause)) => blames(error, "collector"@, correlation_failed(cause)),
            _ => false,
        },
{
    let trace = match trace {
        Ok(trace) => trace,
        Err(CorrelationError::IndexOverflow) => {
            return Err(invalid("collector", "core correlation failed: IndexOverflow"));
        },
        Err(CorrelationError::AllocationFailed) => {
            return Err(invalid("collector", "core correlation failed: AllocationFailed"));
        },
    };
    proof {
        assert forall|n: int| 0 <= n < trace@.steps.len() implies {
            let step = #[trigger] trace@.steps[n];
            &&& step.membership_start + step.membership_count <= trace@.memberships.len()
            &&& step.kernel_start + step.kernel_count <= trace@.kernels.len()
        } by {
            membership_range_is_exact(timeline(events@), n);
            kernel_range_is_exact(timeline(events@), n);
        }
    }
    let mut report = CorrelationReport::empty(events.len());
    report.core_index_bytes = trace.allocated_bytes_lower_bound();
    report.steps = build_steps(&trace, compact);
    report.requests = build_requests(events, report.steps.as_slice());
    append_diagnostics(
        &trace,
        &compact.sequence_event_ids,
        &mut report.diagnostics,
        &mut report.unassigned_events,
    );
    Ok(report)
}

/// Whether the report says nothing of so many events but the words.
pub open spec fn reports_words(report: CorrelationReport, count: nat, words: Seq<char>) -> bool {
    &&& report.schema_version == CURRENT_SCHEMA_VERSION
    &&& report.input_event_count == count
    &&& report.hot_event_record_bytes == EVENT_RECORD_BYTES
    &&& report.core_index_bytes == 0
    &&& report.steps@.len() == 0
    &&& report.requests@.len() == 0
    &&& report.unassigned_events@.len() == 0
    &&& report.diagnostics@.len() == 1
    &&& report.diagnostics@[0].severity == DiagnosticSeverity::Error
    &&& report.diagnostics@[0].code@ == "compact_conversion_failed"@
    &&& report.diagnostics@[0].event_ids@.len() == 0
    &&& report.diagnostics@[0].message@ == words
}

/// The report of so many events that could not be correlated.
pub fn report_failure(count: usize, error: &ObserverError) -> (report: CorrelationReport)
    ensures
        reports_words(report, count as nat, error.words()),
{
    let mut report = CorrelationReport::empty(count);
    report.diagnostics.push(
        Diagnostic {
            severity: DiagnosticSeverity::Error,
            code: "compact_conversion_failed".to_owned(),
            message: error.message(),
            event_ids: Vec::new(),
        },
    );
    report
}

/// Whether the report tells the outcome of the correlation of so many events:
/// it is the report that came of it, or says nothing but the error.
pub open spec fn tells_outcome(
    report: CorrelationReport,
    count: nat,
    outcome: Result<CorrelationReport, ObserverError>,
) -> bool {
    match outcome {
        Ok(made) => report == made,
        Err(error) => reports_words(report, count, error.words()),
    }
}

/// The report that tells the outcome of the correlation of so many events.
pub fn report_outcome(
    count: usize,
    outcome: Result<CorrelationReport, ObserverError>,
) -> (report: CorrelationReport)
    ensures
        tells_outcome(report, count as nat, outcome),
{
    match outcome {
        Ok(report) => report,
        Err(error) => report_failure(count, &error),
    }
}

/// Whether the report tells an outcome that the correlation of the events can
/// have.
pub open spec fn reports_correlation(report: CorrelationReport, events: Seq<Event>) -> bool {
    exists|outcome: Result<CorrelationReport, ObserverError>| #[trigger]
        correlation_outcome(outcome, events) && tells_outcome(report, events.len(), outcome)
}

/// Correlates the events into a report that also tells of a failure.
pub fn correlate(events: &[Event]) -> (report: CorrelationReport)
    ensures
        reports_correlation(report, events@),
{
    let outcome = correlate_checked(events);
    let ghost checked = outcome;
    let report = report_outcome(events.len(), outcome);
    assert(correlation_outcome(checked, events@) && tells_outcome(
        report,
        events@.len(),
        checked,
    ));
    report
}

/// The report of a correlation is the one that came of it, which says of the
/// events what their trace holds, or it says nothing but the error: it counts
/// the events, lists no step, request or event, and has one diagnostic in the
/// words of the error.
pub proof fn report_is_the_checked_one(
    events: Seq<Event>,
    outcome: Result<CorrelationReport, ObserverError>,
    report: CorrelationReport,
)
    requires
        correlation_outcome(outcome, events),
        tells_outcome(report, events.len(), outcome),
    ensures
        match outcome {
            Ok(made) => report == made && reports(report, events),
            Err(error) => {
                &&& explains(error, events)
                &&& report.input_event_count == events.len()
                &&& report.core_index_bytes == 0
                &&& report.steps@.len() == 0
                &&& report.requests@.len() == 0
                &&& report.unassigned_events@.len() == 0
                &&& report.diagnostics@.len() == 1
                &&& report.diagnostics@[0].severity == DiagnosticSeverity::Error
                &&& report.diagnostics@[0].code@ == "compact_conversion_failed"@
                &&& report.diagnostics@[0].message@ == error.words()
                &&& report.diagnostics@[0].event_ids@.len() == 0
            },
        },
        !reportable(events) ==> outcome is Err,
{
}

} // verus!
