//! Conversion of text events into fixed-size records.

use crate::digits::{append_decimal, decimal};
use crate::error::{blames, invalid, ObserverError};
use crate::event::{
    CudaGraphLaunchData, CudaKernelLaunchData, CudaMemcpyData, CuptiKernelActivityData,
    EngineStepBeginData, EngineStepEndData, EventContext, EventFlags, EventRecord,
    RequestCompletedData, RequestQueuedData, RequestReceivedData, SourceKind, StepRequestSliceData,
    TokenEmittedData,
};
use crate::names::{
    distinct, increasing, lists_once, numbers_are_unique, texts, Name, NameTable,
};
use crate::storage::reserve_exact;
use crate::text::{parse_hex_u64, text_is, unsigned_of};
use crate::trace_event::{Event, EventKind, RequestPhase, RequestSlice};
use vstd::prelude::*;
use vstd::slice::slice_subrange;
use vstd::string::*;
use vstd::utf8::encode_utf8;

verus! {

// Names.

pub open spec fn slice_requests(slices: Seq<RequestSlice>) -> Seq<Seq<char>> {
    slices.map_values(|s: RequestSlice| s.request_id@)
}

pub open spec fn slice_classes(slices: Seq<RequestSlice>) -> Seq<Seq<char>>
    decreases slices.len(),
{
    if slices.len() == 0 {
        Seq::empty()
    } else {
        let front = slice_classes(slices.drop_last());
        match slices.last().service_class {
            Some(class) => front.push(class@),
            None => front,
        }
    }
}

/// The requests that an event names.
pub open spec fn named_requests(e: Event) -> Seq<Seq<char>> {
    match e.kind {
        EventKind::RequestReceived { request_id, .. } => seq![request_id@],
        EventKind::RequestQueued { request_id, .. } => seq![request_id@],
        EventKind::TokenEmitted { request_id, .. } => seq![request_id@],
        EventKind::RequestCompleted { request_id, .. } => seq![request_id@],
        EventKind::EngineStepBegin { request_slices, .. } => slice_requests(request_slices@),
        _ => Seq::empty(),
    }
}

/// The service classes that an event names.
pub open spec fn named_classes(e: Event) -> Seq<Seq<char>> {
    match e.kind {
        EventKind::RequestReceived { service_class: Some(class), .. } => seq![class@],
        EventKind::EngineStepBegin { request_slices, .. } => slice_classes(request_slices@),
        _ => Seq::empty(),
    }
}

/// The kernel symbols that an event names.
pub open spec fn named_symbols(e: Event) -> Seq<Seq<char>> {
    match e.kind {
        EventKind::CudaKernelLaunch { kernel_symbol: Some(name), .. } => seq![name@],
        EventKind::CuptiKernelActivity { kernel_name, .. } => seq![kernel_name@],
        _ => Seq::empty(),
    }
}

pub open spec fn all_requests(events: Seq<Event>) -> Seq<Seq<char>>
    decreases events.len(),
{
    if events.len() == 0 {
        Seq::empty()
    } else {
        all_requests(events.drop_last()) + named_requests(events.last())
    }
}

pub open spec fn all_classes(events: Seq<Event>) -> Seq<Seq<char>>
    decreases events.len(),
{
    if events.len() == 0 {
        Seq::empty()
    } else {
        all_classes(events.drop_last()) + named_classes(events.last())
    }
}

pub open spec fn all_symbols(events: Seq<Event>) -> Seq<Seq<char>>
    decreases events.len(),
{
    if events.len() == 0 {
        Seq::empty()
    } else {
        all_symbols(events.drop_last()) + named_symbols(events.last())
    }
}

/// The name tables of a trace.
#[verifier::ext_equal]
pub struct Tables {
    pub requests: Seq<Seq<char>>,
    pub classes: Seq<Seq<char>>,
    pub symbols: Seq<Seq<char>>,
}

pub open spec fn tables_of(events: Seq<Event>) -> Tables {
    Tables {
        requests: distinct(all_requests(events)),
        classes: distinct(all_classes(events)),
        symbols: distinct(all_symbols(events)),
    }
}

/// The number of a name: one more than its position in the table.
pub open spec fn number_of(table: Seq<Seq<char>>, name: Seq<char>) -> int {
    (choose|i: int| 0 <= i < table.len() && table[i] == name) + 1
}

/// The number of a name, or zero where there is none.
pub open spec fn optional_number(table: Seq<Seq<char>>, name: Option<String>) -> int {
    match name {
        Some(name) => number_of(table, name@),
        None => 0,
    }
}

// Records.

pub open spec fn source_of(text: Seq<char>) -> Option<SourceKind> {
    if text == "vllm"@ {
        Some(SourceKind::Vllm)
    } else if text == "host_probe"@ {
        Some(SourceKind::HostProbe)
    } else if text == "cupti"@ {
        Some(SourceKind::Cupti)
    } else if text == "device_probe"@ {
        Some(SourceKind::DeviceProbe)
    } else if text == "policy"@ {
        Some(SourceKind::Policy)
    } else if text == "workload"@ {
        Some(SourceKind::Workload)
    } else {
        None
    }
}

pub open spec fn clock_code(domain: Seq<char>) -> u16 {
    if domain == "monotonic"@ {
        1
    } else if domain == "cupti"@ {
        2
    } else if domain == "realtime"@ {
        3
    } else {
        u16::MAX
    }
}

pub open spec fn memcpy_code(kind: Seq<char>) -> u8 {
    if kind == "host_to_device"@ {
        1
    } else if kind == "device_to_host"@ {
        2
    } else if kind == "device_to_device"@ {
        3
    } else if kind == "unified"@ {
        4
    } else {
        0
    }
}

/// The text without a leading `0x`.
pub open spec fn without_0x(s: Seq<u8>) -> Seq<u8> {
    if s.len() >= 2 && s[0] == 0x30 && s[1] == 0x78 {
        s.skip(2)
    } else {
        s
    }
}

/// The address that a text stands for.
pub open spec fn pointer_of(text: Seq<char>) -> Option<nat> {
    unsigned_of(without_0x(encode_utf8(text)), 16, u64::MAX as nat)
}

pub open spec fn number_or_zero(value: Option<u64>) -> u64 {
    match value {
        Some(value) => value,
        None => 0,
    }
}

pub open spec fn count_or_zero(value: Option<u32>) -> u32 {
    match value {
        Some(value) => value,
        None => 0,
    }
}

pub open spec fn flag_if(condition: bool, flag: u16) -> u16 {
    if condition {
        flag
    } else {
        0
    }
}

/// The sequence of the record at the position: one more, modulo the range.
pub open spec fn sequence_at(position: nat) -> u64 {
    ((position + 1) % 0x1_0000_0000_0000_0000) as u64
}

/// The context of a record of the event.
pub open spec fn context_of(e: Event, source: SourceKind, position: nat, flags: u16) -> EventContext {
    EventContext {
        source_timestamp_ns: e.timestamp_ns,
        timestamp_ns: e.correlation_time(),
        sequence: sequence_at(position),
        pid: e.pid,
        tid: count_or_zero(e.tid),
        clock_id: clock_code(e.clock_domain@),
        flags: flags | flag_if(e.clock_normalized(), EventFlags::TIMESTAMP_NORMALIZED),
        source,
    }
}

pub open spec fn core_phase(phase: RequestPhase) -> crate::event::RequestPhase {
    match phase {
        RequestPhase::Prefill => crate::event::RequestPhase::Prefill,
        RequestPhase::Decode => crate::event::RequestPhase::Decode,
    }
}

/// The record of one request slice.
pub open spec fn slice_record(
    e: Event,
    source: SourceKind,
    position: nat,
    step_id: u64,
    slice: RequestSlice,
    t: Tables,
) -> EventRecord {
    EventRecord::step_request_slice_record(
        context_of(e, source, position, 0),
        StepRequestSliceData {
            step_id,
            request_id: number_of(t.requests, slice.request_id@) as u64,
            sequence_id: number_or_zero(slice.sequence_id),
            scheduled_tokens: slice.scheduled_tokens,
            service_class_id: optional_number(t.classes, slice.service_class) as u16,
            phase: core_phase(slice.phase),
            reserved: 0,
        },
    )
}

pub open spec fn slice_records(
    e: Event,
    source: SourceKind,
    position: nat,
    step_id: u64,
    slices: Seq<RequestSlice>,
    t: Tables,
) -> Seq<EventRecord> {
    Seq::new(
        slices.len(),
        |i: int| slice_record(e, source, (position + i) as nat, step_id, slices[i], t),
    )
}

/// The records of an event whose first one has the position.
pub open spec fn records_of(e: Event, t: Tables, position: nat) -> Seq<EventRecord> {
    let source = source_of(e.source@)->0;
    match e.kind {
        EventKind::RequestReceived {
            request_id,
            service_class,
            input_tokens,
            requested_output_tokens,
        } => seq![
            EventRecord::request_received_record(
                context_of(e, source, position, 0),
                RequestReceivedData {
                    request_id: number_of(t.requests, request_id@) as u64,
                    input_tokens: count_or_zero(input_tokens),
                    requested_output_tokens: count_or_zero(requested_output_tokens),
                    service_class_id: optional_number(t.classes, service_class) as u16,
                    reserved: 0,
                },
            ),
        ],
        EventKind::RequestQueued { request_id, queue_depth } => seq![
            EventRecord::request_queued_record(
                context_of(e, source, position, 0),
                RequestQueuedData {
                    request_id: number_of(t.requests, request_id@) as u64,
                    queue_depth,
                    reserved: 0,
                },
            ),
        ],
        EventKind::TokenEmitted { request_id, token_index } => seq![
            EventRecord::token_emitted_record(
                context_of(e, source, position, 0),
                TokenEmittedData {
                    request_id: number_of(t.requests, request_id@) as u64,
                    token_index,
                    reserved: 0,
                },
            ),
        ],
        EventKind::RequestCompleted {
            request_id,
            input_tokens,
            output_tokens,
            ttft_ns,
            e2e_latency_ns,
        } => seq![
            EventRecord::request_completed_record(
                context_of(
                    e,
                    source,
                    position,
                    flag_if(ttft_ns is Some, EventFlags::HAS_TTFT),
                ),
                RequestCompletedData {
                    request_id: number_of(t.requests, request_id@) as u64,
                    input_tokens,
                    output_tokens,
                    ttft_ns: number_or_zero(ttft_ns),
                    e2e_latency_ns,
                },
            ),
        ],
        EventKind::EngineStepBegin {
            step_id,
            request_slices,
            prefill_tokens,
            decode_tokens,
            scheduled_tokens,
            queue_depth,
            active_requests,
            kv_cache_usage_permyriad,
        } => seq![
            EventRecord::engine_step_begin_record(
                context_of(
                    e,
                    source,
                    position,
                    flag_if(kv_cache_usage_permyriad is Some, EventFlags::HAS_KV_CACHE_USAGE),
                ),
                EngineStepBeginData {
                    step_id,
                    scheduled_tokens,
                    prefill_tokens,
                    decode_tokens,
                    queue_depth,
                    active_requests: count_or_zero(active_requests),
                    expected_slices: request_slices@.len() as u32,
                    kv_cache_usage_permyriad: match kv_cache_usage_permyriad {
                        Some(usage) => usage,
                        None => 0,
                    },
                    reserved: 0,
                },
            ),
        ] + slice_records(e, source, position + 1, step_id, request_slices@, t),
        EventKind::EngineStepEnd { step_id, status } => seq![
            EventRecord::engine_step_end_record(
                context_of(e, source, position, 0),
                EngineStepEndData {
                    step_id,
                    status: if status matches Some(text) && text@ != "ok"@ {
                        1
                    } else {
                        0
                    },
                    reserved: [0, 0, 0, 0, 0, 0, 0],
                },
            ),
        ],
        EventKind::CudaKernelLaunch {
            correlation_id,
            stream,
            kernel_function,
            kernel_symbol,
            grid,
            block,
            shared_memory_bytes,
            graph_id,
        } => seq![
            EventRecord::cuda_kernel_launch_record(
                context_of(
                    e,
                    source,
                    position,
                    flag_if(correlation_id is Some, EventFlags::HAS_CORRELATION_ID) | flag_if(
                        graph_id is Some,
                        EventFlags::HAS_GRAPH_ID,
                    ),
                ),
                CudaKernelLaunchData {
                    correlation_id: number_or_zero(correlation_id),
                    stream,
                    kernel_function: pointer_of(kernel_function@)->0 as u64,
                    graph_id: number_or_zero(graph_id),
                    grid: crate::event::Dim3 { x: grid.x, y: grid.y, z: grid.z },
                    block: crate::event::Dim3 { x: block.x, y: block.y, z: block.z },
                    shared_memory_bytes,
                    kernel_symbol_id: optional_number(t.symbols, kernel_symbol) as u32,
                },
            ),
        ],
        EventKind::CudaMemcpy { correlation_id, stream, bytes, kind, asynchronous } => seq![
            EventRecord::cuda_memcpy_record(
                context_of(
                    e,
                    source,
                    position,
                    flag_if(correlation_id is Some, EventFlags::HAS_CORRELATION_ID),
                ),
                CudaMemcpyData {
                    correlation_id: number_or_zero(correlation_id),
                    stream: number_or_zero(stream),
                    bytes,
                    kind: memcpy_code(kind@),
                    asynchronous: if asynchronous {
                        1
                    } else {
                        0
                    },
                    reserved: [0, 0, 0, 0, 0, 0],
                },
            ),
        ],
        EventKind::CudaGraphLaunch { correlation_id, stream, graph_id } => seq![
            EventRecord::cuda_graph_launch_record(
                context_of(
                    e,
                    source,
                    position,
                    EventFlags::HAS_GRAPH_ID | flag_if(
                        correlation_id is Some,
                        EventFlags::HAS_CORRELATION_ID,
                    ),
                ),
                CudaGraphLaunchData {
                    correlation_id: number_or_zero(correlation_id),
                    stream,
                    graph_id,
                },
            ),
        ],
        EventKind::CuptiKernelActivity {
            correlation_id,
            stream,
            kernel_name,
            duration_ns,
            device_id,
            context_id,
            graph_id,
        } => seq![
            EventRecord::cupti_kernel_activity_record(
                context_of(
                    e,
                    source,
                    position,
                    flag_if(graph_id is Some, EventFlags::HAS_GRAPH_ID),
                ),
                CuptiKernelActivityData {
                    correlation_id,
                    stream,
                    duration_ns,
                    graph_id: number_or_zero(graph_id),
                    kernel_symbol_id: number_of(t.symbols, kernel_name@) as u32,
                    device_id: count_or_zero(device_id),
                    context_id: count_or_zero(context_id),
                    reserved: 0,
                },
            ),
        ],
        _ => Seq::empty(),
    }
}

/// The records of the events, in order.
pub open spec fn all_records(events: Seq<Event>, t: Tables) -> Seq<EventRecord>
    decreases events.len(),
{
    if events.len() == 0 {
        Seq::empty()
    } else {
        let front = all_records(events.drop_last(), t);
        front + records_of(events.last(), t, front.len())
    }
}

/// The text as often as said.
pub open spec fn repeated(text: Seq<char>, count: nat) -> Seq<Seq<char>> {
    Seq::new(count, |i: int| text)
}

/// The event that each record stems from.
pub open spec fn record_event_ids(events: Seq<Event>, t: Tables) -> Seq<Seq<char>>
    decreases events.len(),
{
    if events.len() == 0 {
        Seq::empty()
    } else {
        let e = events.last();
        let front = record_event_ids(events.drop_last(), t);
        front + repeated(e.event_id@, records_of(e, t, front.len()).len())
    }
}

// Failures.

/// Why the event cannot be converted, if it cannot.
pub open spec fn conversion_problem(e: Event) -> Option<Seq<char>> {
    if source_of(e.source@) is None {
        Some("unknown event source"@)
    } else {
        match e.kind {
            EventKind::EngineStepBegin { request_slices, .. } => if request_slices@.len()
                > u32::MAX {
                Some("engine step contains more than u32::MAX request slices"@)
            } else {
                None
            },
            EventKind::CudaKernelLaunch { kernel_function, .. } => if pointer_of(
                kernel_function@,
            ) is None {
                Some("kernel_function must be an unsigned hexadecimal address"@)
            } else {
                None
            },
            _ => None,
        }
    }
}

/// The event that stops the conversion and why: the first that cannot be
/// converted.
pub open spec fn first_problem(events: Seq<Event>) -> Option<(Seq<char>, Seq<char>)>
    decreases events.len(),
{
    if events.len() == 0 {
        None
    } else {
        match first_problem(events.drop_last()) {
            Some(problem) => Some(problem),
            None => match conversion_problem(events.last()) {
                Some(message) => Some((events.last().event_id@, message)),
                None => None,
            },
        }
    }
}

pub open spec fn table_overflow(max: nat) -> (Seq<char>, Seq<char>) {
    ("collector"@, "identifier table exceeds "@ + decimal(max) + " entries"@)
}

/// What stops the conversion, if anything.
pub open spec fn compact_failure(events: Seq<Event>) -> Option<(Seq<char>, Seq<char>)> {
    let t = tables_of(events);
    if t.classes.len() > u16::MAX {
        Some(table_overflow(u16::MAX as nat))
    } else if t.symbols.len() > u32::MAX {
        Some(table_overflow(u32::MAX as nat))
    } else {
        first_problem(events)
    }
}

/// Whether the error reports that memory ran out.
pub open spec fn out_of_memory(error: ObserverError) -> bool {
    blames(
        error,
        "collector"@,
        "memory allocation failed while building the cold compatibility view"@,
    )
}

fn allocation_error() -> (error: ObserverError)
    ensures
        out_of_memory(error),
{
    invalid(
        "collector",
        "memory allocation failed while building the cold compatibility view",
    )
}

fn table_error(max: u64) -> (error: ObserverError)
    ensures
        blames(error, table_overflow(max as nat).0, table_overflow(max as nat).1),
{
    let mut text = "identifier table exceeds ".to_owned();
    append_decimal(&mut text, max);
    text.append(" entries");
    invalid("collector", text.as_str())
}


// Conversion.

/// The name tables of a trace, for lookup.
pub struct NameTables<'a> {
    pub request_names: NameTable<'a>,
    pub service_classes: NameTable<'a>,
    pub kernel_symbols: NameTable<'a>,
}

impl<'a> NameTables<'a> {
    pub open spec fn tables(self) -> Tables {
        Tables {
            requests: self.request_names.listed(),
            classes: self.service_classes.listed(),
            symbols: self.kernel_symbols.listed(),
        }
    }
}

/// Whether the tables are in order and their numbers fit the record fields.
pub open spec fn numbered(t: Tables) -> bool {
    &&& increasing(t.requests)
    &&& increasing(t.classes)
    &&& increasing(t.symbols)
    &&& t.classes.len() <= u16::MAX
    &&& t.symbols.len() <= u32::MAX
}

/// Whether the tables hold every name of the event.
pub open spec fn names_known(e: Event, t: Tables) -> bool {
    &&& forall|i: int|
        0 <= i < named_requests(e).len() ==> t.requests.contains(#[trigger] named_requests(e)[i])
    &&& forall|i: int|
        0 <= i < named_classes(e).len() ==> t.classes.contains(#[trigger] named_classes(e)[i])
    &&& forall|i: int|
        0 <= i < named_symbols(e).len() ==> t.symbols.contains(#[trigger] named_symbols(e)[i])
}

/// The records of a trace, with what their numbers stand for.
pub struct CompactInput<'a> {
    pub records: Vec<EventRecord>,
    pub sequence_event_ids: Vec<Name<'a>>,
    pub names: NameTables<'a>,
}

proof fn names_are_listed(events: Seq<Event>, n: int)
    requires
        0 <= n < events.len(),
    ensures
        forall|i: int|
            0 <= i < named_requests(events[n]).len() ==> all_requests(events).contains(
                #[trigger] named_requests(events[n])[i],
            ),
        forall|i: int|
            0 <= i < named_classes(events[n]).len() ==> all_classes(events).contains(
                #[trigger] named_classes(events[n])[i],
            ),
        forall|i: int|
            0 <= i < named_symbols(events[n]).len() ==> all_symbols(events).contains(
                #[trigger] named_symbols(events[n])[i],
            ),
    decreases events.len(),
{
    let front = events.drop_last();
    let last = events.last();
    if n < front.len() {
        names_are_listed(front, n);
        assert(front[n] == events[n]);
    }
    assert forall|i: int| 0 <= i < named_requests(events[n]).len() implies all_requests(
        events,
    ).contains(#[trigger] named_requests(events[n])[i]) by {
        contains_in_sum(
            all_requests(front),
            named_requests(last),
            named_requests(events[n])[i],
        );
    }
    assert forall|i: int| 0 <= i < named_classes(events[n]).len() implies all_classes(
        events,
    ).contains(#[trigger] named_classes(events[n])[i]) by {
        contains_in_sum(all_classes(front), named_classes(last), named_classes(events[n])[i]);
    }
    assert forall|i: int| 0 <= i < named_symbols(events[n]).len() implies all_symbols(
        events,
    ).contains(#[trigger] named_symbols(events[n])[i]) by {
        contains_in_sum(all_symbols(front), named_symbols(last), named_symbols(events[n])[i]);
    }
}

proof fn contains_in_sum(a: Seq<Seq<char>>, b: Seq<Seq<char>>, x: Seq<char>)
    ensures
        a.contains(x) ==> (a + b).contains(x),
        b.contains(x) ==> (a + b).contains(x),
{
    if a.contains(x) {
        let i = choose|i: int| 0 <= i < a.len() && a[i] == x;
        assert((a + b)[i] == x);
    }
    if b.contains(x) {
        let i = choose|i: int| 0 <= i < b.len() && b[i] == x;
        assert((a + b)[a.len() + i] == x);
    }
}

proof fn slice_class_is_listed(slices: Seq<RequestSlice>, n: int)
    requires
        0 <= n < slices.len(),
    ensures
        slices[n].service_class matches Some(class) ==> slice_classes(slices).contains(class@),
    decreases slices.len(),
{
    let front = slices.drop_last();
    if n < front.len() {
        slice_class_is_listed(front, n);
        assert(front[n] == slices[n]);
        if let Some(class) = slices[n].service_class {
            let i = choose|i: int|
                0 <= i < slice_classes(front).len() && slice_classes(front)[i] == class@;
            assert(slice_classes(slices)[i] == class@);
        }
    } else if let Some(class) = slices[n].service_class {
        assert(slice_classes(slices).last() == class@);
        assert(slice_classes(slices)[slice_classes(front).len() as int] == class@);
    }
}

fn reserved<T>(capacity: usize) -> (r: Result<Vec<T>, ObserverError>)
    ensures
        r matches Ok(values) ==> values@ == Seq::<T>::empty(),
        r matches Err(error) ==> out_of_memory(error),
{
    let mut values: Vec<T> = Vec::new();
    if reserve_exact(&mut values, capacity) {
        Ok(values)
    } else {
        Err(allocation_error())
    }
}

fn source_kind(event: &Event) -> (r: Result<SourceKind, ObserverError>)
    ensures
        r is Ok <==> source_of(event.source@) is Some,
        r matches Ok(source) ==> source_of(event.source@) == Some(source),
        r matches Err(error) ==> blames(error, event.event_id@, "unknown event source"@),
{
    let text = event.source.as_str();
    if text_is(text, "vllm") {
        Ok(SourceKind::Vllm)
    } else if text_is(text, "host_probe") {
        Ok(SourceKind::HostProbe)
    } else if text_is(text, "cupti") {
        Ok(SourceKind::Cupti)
    } else if text_is(text, "device_probe") {
        Ok(SourceKind::DeviceProbe)
    } else if text_is(text, "policy") {
        Ok(SourceKind::Policy)
    } else if text_is(text, "workload") {
        Ok(SourceKind::Workload)
    } else {
        Err(invalid(event.event_id.as_str(), "unknown event source"))
    }
}

fn clock_id(clock_domain: &str) -> (r: u16)
    ensures
        r == clock_code(clock_domain@),
{
    if text_is(clock_domain, "monotonic") {
        1
    } else if text_is(clock_domain, "cupti") {
        2
    } else if text_is(clock_domain, "realtime") {
        3
    } else {
        u16::MAX
    }
}

fn memcpy_kind(kind: &str) -> (r: u8)
    ensures
        r == memcpy_code(kind@),
{
    if text_is(kind, "host_to_device") {
        1
    } else if text_is(kind, "device_to_host") {
        2
    } else if text_is(kind, "device_to_device") {
        3
    } else if text_is(kind, "unified") {
        4
    } else {
        0
    }
}

fn parse_pointer(value: &str) -> (r: Option<u64>)
    ensures
        match r {
            Some(pointer) => pointer_of(value@) == Some(pointer as nat),
            None => pointer_of(value@) is None,
        },
{
    let bytes = value.as_bytes();
    if bytes.len() >= 2 && bytes[0] == 0x30 && bytes[1] == 0x78 {
        let rest = slice_subrange(bytes, 2, bytes.len());
        assert(rest@ == bytes@.skip(2));
        parse_hex_u64(rest)
    } else {
        parse_hex_u64(bytes)
    }
}

fn number(table: &NameTable<'_>, name: &str) -> (r: usize)
    requires
        increasing(table.listed()),
        table.listed().contains(name@),
    ensures
        1 <= r <= table.listed().len(),
        r == number_of(table.listed(), name@),
{
    let r: usize = table.id(name);
    proof {
        let t = table.listed();
        assert(0 <= r - 1 < t.len() && t[r - 1] == name@);
        let i = choose|i: int| 0 <= i < t.len() && t[i] == name@;
        numbers_are_unique(t, i, r - 1);
    }
    r
}

fn class_number(table: &NameTable<'_>, name: &Option<String>) -> (r: u16)
    requires
        increasing(table.listed()),
        table.listed().len() <= u16::MAX,
        name matches Some(name) ==> table.listed().contains(name@),
    ensures
        r == optional_number(table.listed(), *name) as u16,
{
    match name {
        Some(name) => number(table, name.as_str()) as u16,
        None => 0,
    }
}

fn symbol_number(table: &NameTable<'_>, name: &Option<String>) -> (r: u32)
    requires
        increasing(table.listed()),
        table.listed().len() <= u32::MAX,
        name matches Some(name) ==> table.listed().contains(name@),
    ensures
        r == optional_number(table.listed(), *name) as u32,
{
    match name {
        Some(name) => number(table, name.as_str()) as u32,
        None => 0,
    }
}

fn u64_or_zero(value: Option<u64>) -> (r: u64)
    ensures
        r == number_or_zero(value),
{
    match value {
        Some(value) => value,
        None => 0,
    }
}

fn u32_or_zero(value: Option<u32>) -> (r: u32)
    ensures
        r == count_or_zero(value),
{
    match value {
        Some(value) => value,
        None => 0,
    }
}

fn chosen_flag(condition: bool, flag: u16) -> (r: u16)
    ensures
        r == flag_if(condition, flag),
{
    if condition {
        flag
    } else {
        0
    }
}

fn next_context(event: &Event, source: SourceKind, position: usize, extra_flags: u16) -> (context:
    EventContext)
    ensures
        context == context_of(*event, source, position as nat, extra_flags),
{
    EventContext {
        source_timestamp_ns: event.timestamp_ns,
        timestamp_ns: event.correlation_timestamp_ns(),
        sequence: (position as u64).wrapping_add(1),
        pid: event.pid,
        tid: u32_or_zero(event.tid),
        clock_id: clock_id(event.clock_domain.as_str()),
        flags: extra_flags | chosen_flag(event.is_clock_normalized(), EventFlags::TIMESTAMP_NORMALIZED),
        source,
    }
}

/// Appends the record of each slice of a step.
fn append_slices<'a>(
    event: &'a Event,
    source: SourceKind,
    step_id: u64,
    slices: &Vec<RequestSlice>,
    names: &NameTables<'_>,
    records: &mut Vec<EventRecord>,
    ids: &mut Vec<Name<'a>>,
)
    requires
        numbered(names.tables()),
        forall|i: int|
            0 <= i < slices@.len() ==> names.tables().requests.contains(
                (#[trigger] slices@[i]).request_id@,
            ),
        forall|i: int|
            0 <= i < slices@.len() ==> ((#[trigger] slices@[i]).service_class matches Some(class)
                ==> names.tables().classes.contains(class@)),
    ensures
        final(records)@ == old(records)@ + slice_records(
            *event,
            source,
            old(records)@.len(),
            step_id,
            slices@,
            names.tables(),
        ),
        texts(final(ids)@) == texts(old(ids)@) + repeated(event.event_id@, slices@.len()),
{
    let ghost start = records@;
    let ghost start_ids = texts(ids@);
    let ghost t = names.tables();
    let ghost all = slice_records(*event, source, start.len(), step_id, slices@, t);
    assert(start + all.take(0) =~= start);
    assert(start_ids + repeated(event.event_id@, 0) =~= start_ids);
    let mut i: usize = 0;
    while i < slices.len()
        invariant
            i <= slices.len(),
            numbered(t),
            t == names.tables(),
            forall|i: int|
                0 <= i < slices@.len() ==> t.requests.contains((#[trigger] slices@[i]).request_id@),
            forall|i: int|
                0 <= i < slices@.len() ==> ((#[trigger] slices@[i]).service_class matches Some(
                    class,
                ) ==> t.classes.contains(class@)),
            all == slice_records(*event, source, start.len(), step_id, slices@, t),
            records@ == start + all.take(i as int),
            texts(ids@) == start_ids + repeated(event.event_id@, i as nat),
        decreases slices.len() - i,
    {
        let slice = &slices[i];
        assert(t.requests.contains(slices@[i as int].request_id@));
        let data = StepRequestSliceData {
            step_id,
            request_id: number(&names.request_names, slice.request_id.as_str()) as u64,
            sequence_id: u64_or_zero(slice.sequence_id),
            scheduled_tokens: slice.scheduled_tokens,
            service_class_id: class_number(&names.service_classes, &slice.service_class),
            phase: match slice.phase {
                RequestPhase::Prefill => crate::event::RequestPhase::Prefill,
                RequestPhase::Decode => crate::event::RequestPhase::Decode,
            },
            reserved: 0,
        };
        let context = next_context(event, source, records.len(), 0);
        proof {
            assert(all.take(i + 1) =~= all.take(i as int).push(all[i as int]));
            assert(all[i as int] == slice_record(
                *event,
                source,
                (start.len() + i) as nat,
                step_id,
                slices@[i as int],
                t,
            ));
        }
        records.push(EventRecord::step_request_slice(context, data));
        let ghost before = ids@;
        ids.push(Name { text: event.event_id.as_str() });
        proof {
            assert(records@ =~= start + all.take(i + 1));
            assert(texts(ids@) =~= texts(before).push(event.event_id@));
            assert(texts(ids@) =~= start_ids + repeated(event.event_id@, (i + 1) as nat));
        }
        i += 1;
    }
    assert(all.take(slices@.len() as int) =~= all);
}

/// Appends a record of the event.
fn append_record<'a>(
    records: &mut Vec<EventRecord>,
    ids: &mut Vec<Name<'a>>,
    event: &'a Event,
    record: EventRecord,
)
    ensures
        final(records)@ == old(records)@ + seq![record],
        texts(final(ids)@) == texts(old(ids)@) + repeated(event.event_id@, 1),
{
    let ghost before = ids@;
    records.push(record);
    ids.push(Name { text: event.event_id.as_str() });
    assert(records@ =~= old(records)@ + seq![record]);
    assert(texts(ids@) =~= texts(before).push(event.event_id@));
    assert(texts(ids@) =~= texts(before) + repeated(event.event_id@, 1));
}

/// Appends the records of the event, or says why there are none.
#[verifier::rlimit(40)]
fn convert_event<'a>(
    event: &'a Event,
    names: &NameTables<'_>,
    records: &mut Vec<EventRecord>,
    ids: &mut Vec<Name<'a>>,
) -> (r: Result<(), ObserverError>)
    requires
        numbered(names.tables()),
        names_known(*event, names.tables()),
    ensures
        r is Ok <==> conversion_problem(*event) is None,
        r is Ok ==> {
            let added = records_of(*event, names.tables(), old(records)@.len());
            &&& final(records)@ == old(records)@ + added
            &&& texts(final(ids)@) == texts(old(ids)@) + repeated(event.event_id@, added.len())
        },
        r matches Err(error) ==> blames(error, event.event_id@, conversion_problem(*event)->0),
{
    let source = source_kind(event)?;
    let ghost t = names.tables();
    let ghost start = records@;
    let position: usize = records.len();
    proof {
        if named_requests(*event).len() > 0 {
            assert(t.requests.contains(named_requests(*event)[0]));
        }
        if named_classes(*event).len() > 0 {
            assert(t.classes.contains(named_classes(*event)[0]));
        }
        if named_symbols(*event).len() > 0 {
            assert(t.symbols.contains(named_symbols(*event)[0]));
        }
    }
    match &event.kind {
        EventKind::RequestReceived {
            request_id,
            service_class,
            input_tokens,
            requested_output_tokens,
        } => {
            let data = RequestReceivedData {
                request_id: number(&names.request_names, request_id.as_str()) as u64,
                input_tokens: u32_or_zero(*input_tokens),
                requested_output_tokens: u32_or_zero(*requested_output_tokens),
                service_class_id: class_number(&names.service_classes, service_class),
                reserved: 0,
            };
            let context = next_context(event, source, position, 0);
            append_record(records, ids, event, EventRecord::request_received(context, data));
        },
        EventKind::RequestQueued { request_id, queue_depth } => {
            let data = RequestQueuedData {
                request_id: number(&names.request_names, request_id.as_str()) as u64,
                queue_depth: *queue_depth,
                reserved: 0,
            };
            let context = next_context(event, source, position, 0);
            append_record(records, ids, event, EventRecord::request_queued(context, data));
        },
        EventKind::TokenEmitted { request_id, token_index } => {
            let data = TokenEmittedData {
                request_id: number(&names.request_names, request_id.as_str()) as u64,
                token_index: *token_index,
                reserved: 0,
            };
            let context = next_context(event, source, position, 0);
            append_record(records, ids, event, EventRecord::token_emitted(context, data));
        },
        EventKind::RequestCompleted {
            request_id,
            input_tokens,
            output_tokens,
            ttft_ns,
            e2e_latency_ns,
        } => {
            let data = RequestCompletedData {
                request_id: number(&names.request_names, request_id.as_str()) as u64,
                input_tokens: *input_tokens,
                output_tokens: *output_tokens,
                ttft_ns: u64_or_zero(*ttft_ns),
                e2e_latency_ns: *e2e_latency_ns,
            };
            let flags: u16 = chosen_flag(ttft_ns.is_some(), EventFlags::HAS_TTFT);
            let context = next_context(event, source, position, flags);
            append_record(records, ids, event, EventRecord::request_completed(context, data));
        },
        EventKind::EngineStepBegin {
            step_id,
            request_slices,
            prefill_tokens,
            decode_tokens,
            scheduled_tokens,
            queue_depth,
            active_requests,
            kv_cache_usage_permyriad,
        } => {
            if request_slices.len() as u64 > u32::MAX as u64 {
                return Err(
                    invalid(
                        event.event_id.as_str(),
                        "engine step contains more than u32::MAX request slices",
                    ),
                );
            }
            let usage: u16 = match kv_cache_usage_permyriad {
                Some(usage) => *usage,
                None => 0,
            };
            let data = EngineStepBeginData {
                step_id: *step_id,
                scheduled_tokens: *scheduled_tokens,
                prefill_tokens: *prefill_tokens,
                decode_tokens: *decode_tokens,
                queue_depth: *queue_depth,
                active_requests: u32_or_zero(*active_requests),
                expected_slices: request_slices.len() as u32,
                kv_cache_usage_permyriad: usage,
                reserved: 0,
            };
            let flags: u16 = chosen_flag(
                kv_cache_usage_permyriad.is_some(),
                EventFlags::HAS_KV_CACHE_USAGE,
            );
            let context = next_context(event, source, position, flags);
            append_record(records, ids, event, EventRecord::engine_step_begin(context, data));
            let ghost middle = texts(ids@);
            proof {
                assert forall|i: int| 0 <= i < request_slices@.len() implies t.requests.contains(
                    (#[trigger] request_slices@[i]).request_id@,
                ) by {
                    assert(named_requests(*event)[i] == request_slices@[i].request_id@);
                }
                assert forall|i: int| 0 <= i < request_slices@.len() implies (
                (#[trigger] request_slices@[i]).service_class matches Some(class)
                    ==> t.classes.contains(class@)) by {
                    if let Some(class) = request_slices@[i].service_class {
                        slice_class_is_listed(request_slices@, i);
                        let all = slice_classes(request_slices@);
                        let j = choose|j: int| 0 <= j < all.len() && all[j] == class@;
                        assert(t.classes.contains(named_classes(*event)[j]));
                    }
                }
            }
            append_slices(event, source, *step_id, request_slices, names, records, ids);
            proof {
                let added = records_of(*event, t, start.len());
                assert(records@ =~= start + added);
                assert(texts(ids@) =~= texts(old(ids)@) + repeated(event.event_id@, added.len()));
            }
        },
        EventKind::EngineStepEnd { step_id, status } => {
            let failed: u8 = match status {
                Some(text) => if text_is(text.as_str(), "ok") {
                    0
                } else {
                    1
                },
                None => 0,
            };
            let data = EngineStepEndData {
                step_id: *step_id,
                status: failed,
                reserved: [0, 0, 0, 0, 0, 0, 0],
            };
            let context = next_context(event, source, position, 0);
            append_record(records, ids, event, EventRecord::engine_step_end(context, data));
        },
        EventKind::CudaKernelLaunch {
            correlation_id,
            stream,
            kernel_function,
            kernel_symbol,
            grid,
            block,
            shared_memory_bytes,
            graph_id,
        } => {
            let pointer: u64 = match parse_pointer(kernel_function.as_str()) {
                Some(pointer) => pointer,
                None => {
                    return Err(
                        invalid(
                            event.event_id.as_str(),
                            "kernel_function must be an unsigned hexadecimal address",
                        ),
                    );
                },
            };
            let data = CudaKernelLaunchData {
                correlation_id: u64_or_zero(*correlation_id),
                stream: *stream,
                kernel_function: pointer,
                graph_id: u64_or_zero(*graph_id),
                grid: crate::event::Dim3 { x: grid.x, y: grid.y, z: grid.z },
                block: crate::event::Dim3 { x: block.x, y: block.y, z: block.z },
                shared_memory_bytes: *shared_memory_bytes,
                kernel_symbol_id: symbol_number(&names.kernel_symbols, kernel_symbol),
            };
            let flags: u16 = chosen_flag(correlation_id.is_some(), EventFlags::HAS_CORRELATION_ID)
                | chosen_flag(graph_id.is_some(), EventFlags::HAS_GRAPH_ID);
            let context = next_context(event, source, position, flags);
            append_record(records, ids, event, EventRecord::cuda_kernel_launch(context, data));
        },
        EventKind::CudaMemcpy { correlation_id, stream, bytes, kind, asynchronous } => {
            let data = CudaMemcpyData {
                correlation_id: u64_or_zero(*correlation_id),
                stream: u64_or_zero(*stream),
                bytes: *bytes,
                kind: memcpy_kind(kind.as_str()),
                asynchronous: if *asynchronous {
                    1
                } else {
                    0
                },
                reserved: [0, 0, 0, 0, 0, 0],
            };
            let flags: u16 = chosen_flag(correlation_id.is_some(), EventFlags::HAS_CORRELATION_ID);
            let context = next_context(event, source, position, flags);
            append_record(records, ids, event, EventRecord::cuda_memcpy(context, data));
        },
        EventKind::CudaGraphLaunch { correlation_id, stream, graph_id } => {
            let data = CudaGraphLaunchData {
                correlation_id: u64_or_zero(*correlation_id),
                stream: *stream,
                graph_id: *graph_id,
            };
            let flags: u16 = EventFlags::HAS_GRAPH_ID | chosen_flag(
                correlation_id.is_some(),
                EventFlags::HAS_CORRELATION_ID,
            );
            let context = next_context(event, source, position, flags);
            append_record(records, ids, event, EventRecord::cuda_graph_launch(context, data));
        },
        EventKind::CuptiKernelActivity {
            correlation_id,
            stream,
            kernel_name,
            duration_ns,
            device_id,
            context_id,
            graph_id,
        } => {
            let data = CuptiKernelActivityData {
                correlation_id: *correlation_id,
                stream: *stream,
                duration_ns: *duration_ns,
                graph_id: u64_or_zero(*graph_id),
                kernel_symbol_id: number(&names.kernel_symbols, kernel_name.as_str()) as u32,
                device_id: u32_or_zero(*device_id),
                context_id: u32_or_zero(*context_id),
                reserved: 0,
            };
            let flags: u16 = chosen_flag(graph_id.is_some(), EventFlags::HAS_GRAPH_ID);
            let context = next_context(event, source, position, flags);
            append_record(records, ids, event, EventRecord::cupti_kernel_activity(context, data));
        },
        EventKind::CudaApiCall { .. }
        | EventKind::MetricSample { .. }
        | EventKind::ControlDecision { .. } => {
            assert(records@ =~= start + Seq::<EventRecord>::empty());
            assert(texts(ids@) =~= texts(old(ids)@) + repeated(event.event_id@, 0));
        },
    }
    Ok(())
}

/// Appends the names of the event to the lists of names.
fn collect_names<'a>(
    event: &'a Event,
    requests: &mut Vec<Name<'a>>,
    classes: &mut Vec<Name<'a>>,
    symbols: &mut Vec<Name<'a>>,
)
    ensures
        texts(final(requests)@) == texts(old(requests)@) + named_requests(*event),
        texts(final(classes)@) == texts(old(classes)@) + named_classes(*event),
        texts(final(symbols)@) == texts(old(symbols)@) + named_symbols(*event),
{
    let ghost r0 = texts(requests@);
    let ghost c0 = texts(classes@);
    let ghost s0 = texts(symbols@);
    match &event.kind {
        EventKind::RequestReceived { request_id, service_class, .. } => {
            requests.push(Name { text: request_id.as_str() });
            if let Some(class) = service_class {
                classes.push(Name { text: class.as_str() });
            }
        },
        EventKind::RequestQueued { request_id, .. }
        | EventKind::TokenEmitted { request_id, .. }
        | EventKind::RequestCompleted { request_id, .. } => {
            requests.push(Name { text: request_id.as_str() });
        },
        EventKind::EngineStepBegin { request_slices, .. } => {
            let ghost all = slice_requests(request_slices@);
            let mut i: usize = 0;
            assert(r0 + all.take(0) =~= r0);
            assert(request_slices@.take(0) =~= Seq::<RequestSlice>::empty());
            assert(c0 + slice_classes(request_slices@.take(0)) =~= c0);
            while i < request_slices.len()
                invariant
                    i <= request_slices.len(),
                    all == slice_requests(request_slices@),
                    texts(requests@) == r0 + all.take(i as int),
                    texts(classes@) == c0 + slice_classes(request_slices@.take(i as int)),
                decreases request_slices.len() - i,
            {
                let slice = &request_slices[i];
                let ghost r1 = texts(requests@);
                let ghost c1 = texts(classes@);
                proof {
                    let next = request_slices@.take(i + 1);
                    assert(next.drop_last() =~= request_slices@.take(i as int));
                    assert(next.last() == *slice);
                    assert(all.take(i + 1) =~= all.take(i as int).push(slice.request_id@));
                }
                requests.push(Name { text: slice.request_id.as_str() });
                assert(texts(requests@) =~= r1.push(slice.request_id@));
                assert(texts(requests@) =~= r0 + all.take(i + 1));
                if let Some(class) = &slice.service_class {
                    classes.push(Name { text: class.as_str() });
                    assert(texts(classes@) =~= c1.push(class@));
                }
                assert(texts(classes@) =~= c0 + slice_classes(request_slices@.take(i + 1)));
                i += 1;
            }
            assert(all.take(request_slices@.len() as int) =~= all);
            assert(request_slices@.take(request_slices@.len() as int) =~= request_slices@);
        },
        EventKind::CudaKernelLaunch { kernel_symbol, .. } => {
            if let Some(name) = kernel_symbol {
                symbols.push(Name { text: name.as_str() });
            }
        },
        EventKind::CuptiKernelActivity { kernel_name, .. } => {
            symbols.push(Name { text: kernel_name.as_str() });
        },
        _ => {},
    }
    assert(texts(requests@) =~= r0 + named_requests(*event));
    assert(texts(classes@) =~= c0 + named_classes(*event));
    assert(texts(symbols@) =~= s0 + named_symbols(*event));
}

/// The name tables of the events, by way of empty lists of names.
fn build_name_tables<'a>(
    events: &'a [Event],
    requests: Vec<Name<'a>>,
    classes: Vec<Name<'a>>,
    symbols: Vec<Name<'a>>,
) -> (r: Result<NameTables<'a>, ObserverError>)
    requires
        requests@.len() == 0,
        classes@.len() == 0,
        symbols@.len() == 0,
    ensures
        ({
            let t = tables_of(events@);
            &&& r is Err <==> t.classes.len() > u16::MAX || t.symbols.len() > u32::MAX
            &&& r matches Ok(names) ==> names.tables() == t && numbered(t) && lists_once(
                all_requests(events@),
                t.requests,
            ) && lists_once(all_classes(events@), t.classes) && lists_once(
                all_symbols(events@),
                t.symbols,
            )
            &&& r matches Err(error) ==> compact_failure(events@) matches Some(failure) && blames(
                error,
                failure.0,
                failure.1,
            )
        }),
{
    let mut requests = requests;
    let mut classes = classes;
    let mut symbols = symbols;
    let mut i: usize = 0;
    assert(events@.take(0) =~= Seq::<Event>::empty());
    assert(texts(requests@) =~= all_requests(events@.take(0)));
    assert(texts(classes@) =~= all_classes(events@.take(0)));
    assert(texts(symbols@) =~= all_symbols(events@.take(0)));
    while i < events.len()
        invariant
            i <= events.len(),
            texts(requests@) == all_requests(events@.take(i as int)),
            texts(classes@) == all_classes(events@.take(i as int)),
            texts(symbols@) == all_symbols(events@.take(i as int)),
        decreases events.len() - i,
    {
        assert(events@.take(i + 1).drop_last() =~= events@.take(i as int));
        collect_names(&events[i], &mut requests, &mut classes, &mut symbols);
        i += 1;
    }
    assert(events@.take(events@.len() as int) =~= events@);
    let request_names = NameTable::from_values(&requests);
    let service_classes = NameTable::from_values(&classes);
    if service_classes.len() as u64 > u16::MAX as u64 {
        return Err(table_error(u16::MAX as u64));
    }
    let kernel_symbols = NameTable::from_values(&symbols);
    if kernel_symbols.len() as u64 > u32::MAX as u64 {
        return Err(table_error(u32::MAX as u64));
    }
    Ok(NameTables { request_names, service_classes, kernel_symbols })
}

/// How many records the events make at most: one each, and one more for each
/// slice of a step.
pub open spec fn expanded(events: Seq<Event>) -> nat
    decreases events.len(),
{
    if events.len() == 0 {
        0
    } else {
        expanded(events.drop_last()) + 1 + match events.last().kind {
            EventKind::EngineStepBegin { request_slices, .. } => request_slices@.len(),
            _ => 0,
        }
    }
}

/// How many records to make room for.
fn expanded_count(events: &[Event]) -> (total: usize)
    ensures
        total == expanded(events@) || total == usize::MAX && expanded(events@) > usize::MAX,
{
    let mut total: usize = 0;
    let mut i: usize = 0;
    assert(events@.take(0) =~= Seq::<Event>::empty());
    while i < events.len()
        invariant
            i <= events.len(),
            total == expanded(events@.take(i as int)) || total == usize::MAX && expanded(
                events@.take(i as int),
            ) > usize::MAX,
        decreases events.len() - i,
    {
        assert(events@.take(i + 1).drop_last() =~= events@.take(i as int));
        total = total.saturating_add(1);
        if let EventKind::EngineStepBegin { request_slices, .. } = &events[i].kind {
            total = total.saturating_add(request_slices.len());
        }
        i += 1;
    }
    assert(events@.take(events@.len() as int) =~= events@);
    total
}

proof fn first_problem_stays(events: Seq<Event>, n: int)
    requires
        0 <= n <= events.len(),
        first_problem(events.take(n)) is Some,
    ensures
        first_problem(events) == first_problem(events.take(n)),
    decreases events.len() - n,
{
    if n < events.len() {
        assert(events.take(n + 1).drop_last() =~= events.take(n));
        first_problem_stays(events, n + 1);
    } else {
        assert(events.take(n) =~= events);
    }
}

/// Room for what a conversion makes: the lists of names, the records, and the
/// identifiers of the events that they stem from.
pub struct CompactStorage<'a> {
    requests: Vec<Name<'a>>,
    classes: Vec<Name<'a>>,
    symbols: Vec<Name<'a>>,
    records: Vec<EventRecord>,
    ids: Vec<Name<'a>>,
}

impl<'a> CompactStorage<'a> {
    /// Whether nothing is stored yet.
    pub closed spec fn is_empty(self) -> bool {
        &&& self.requests@.len() == 0
        &&& self.classes@.len() == 0
        &&& self.symbols@.len() == 0
        &&& self.records@.len() == 0
        &&& self.ids@.len() == 0
    }

    /// Room for so many records of so many events. Whether there is room is up
    /// to the machine.
    pub fn try_new(records: usize, events: usize) -> (r: Result<Self, ObserverError>)
        ensures
            match r {
                Ok(storage) => storage.is_empty(),
                Err(error) => out_of_memory(error),
            },
    {
        Ok(
            CompactStorage {
                requests: reserved(records)?,
                classes: reserved(records)?,
                symbols: reserved(events)?,
                records: reserved(records)?,
                ids: reserved(records)?,
            },
        )
    }
}

/// Whether the input is what the events convert to.
pub open spec fn is_compact(input: CompactInput<'_>, events: Seq<Event>) -> bool {
    let t = tables_of(events);
    &&& input.records@ == all_records(events, t)
    &&& texts(input.sequence_event_ids@) == record_event_ids(events, t)
    &&& input.names.tables() == t
}

/// Converts the events into records, where there is room for them.
pub fn compact_events<'a>(events: &'a [Event]) -> (r: Result<CompactInput<'a>, ObserverError>)
    ensures
        compact_failure(events@) is Some ==> r is Err,
        r matches Ok(input) ==> is_compact(input, events@),
        r matches Err(error) ==> out_of_memory(error) || (compact_failure(events@) matches Some(
            failure,
        ) && blames(error, failure.0, failure.1)),
{
    let count: usize = expanded_count(events);
    let storage = CompactStorage::try_new(count, events.len())?;
    compact_in(events, storage)
}

/// Converts the events into records, in the room that was made for them.
pub fn compact_in<'a>(events: &'a [Event], storage: CompactStorage<'a>) -> (r: Result<
    CompactInput<'a>,
    ObserverError,
>)
    requires
        storage.is_empty(),
    ensures
        match (r, compact_failure(events@)) {
            (Ok(input), None) => is_compact(input, events@),
            (Err(error), Some(failure)) => blames(error, failure.0, failure.1),
            _ => false,
        },
{
    let names = build_name_tables(events, storage.requests, storage.classes, storage.symbols)?;
    let mut records: Vec<EventRecord> = storage.records;
    let mut ids: Vec<Name<'a>> = storage.ids;
    let ghost t = tables_of(events@);
    let mut i: usize = 0;
    assert(events@.take(0) =~= Seq::<Event>::empty());
    assert(texts(ids@) =~= record_event_ids(events@.take(0), t));
    while i < events.len()
        invariant
            i <= events.len(),
            t == tables_of(events@),
            names.tables() == t,
            numbered(t),
            lists_once(all_requests(events@), t.requests),
            lists_once(all_classes(events@), t.classes),
            lists_once(all_symbols(events@), t.symbols),
            first_problem(events@.take(i as int)) is None,
            records@ == all_records(events@.take(i as int), t),
            texts(ids@) == record_event_ids(events@.take(i as int), t),
            ids@.len() == records@.len(),
        decreases events.len() - i,
    {
        let event = &events[i];
        proof {
            let next = events@.take(i + 1);
            assert(next.drop_last() =~= events@.take(i as int));
            assert(next.last() == *event);
            names_are_listed(events@, i as int);
            table_holds(all_requests(events@), t.requests, named_requests(*event));
            table_holds(all_classes(events@), t.classes, named_classes(*event));
            table_holds(all_symbols(events@), t.symbols, named_symbols(*event));
            assert(texts(ids@).len() == ids@.len());
        }
        let converted = convert_event(event, &names, &mut records, &mut ids);
        if let Err(error) = converted {
            proof {
                first_problem_stays(events@, i + 1);
            }
            return Err(error);
        }
        proof {
            assert(texts(ids@).len() == ids@.len());
        }
        i += 1;
    }
    assert(events@.take(events@.len() as int) =~= events@);
    Ok(CompactInput { records, sequence_event_ids: ids, names })
}

proof fn table_holds(values: Seq<Seq<char>>, t: Seq<Seq<char>>, named: Seq<Seq<char>>)
    requires
        lists_once(values, t),
        forall|i: int| 0 <= i < named.len() ==> values.contains(#[trigger] named[i]),
    ensures
        forall|i: int| 0 <= i < named.len() ==> t.contains(#[trigger] named[i]),
{
    assert forall|i: int| 0 <= i < named.len() implies t.contains(#[trigger] named[i]) by {
        assert(values.to_set().contains(named[i]));
        assert(t.to_set().contains(named[i]));
    }
}

/// Whether the record tells when and where the event happened.
pub open spec fn stems_from(record: EventRecord, e: Event) -> bool {
    &&& record.header.source_timestamp_ns == e.timestamp_ns
    &&& record.header.timestamp_ns == e.correlation_time()
    &&& record.header.pid == e.pid
    &&& record.header.tid == count_or_zero(e.tid)
    &&& source_of(e.source@) == Some(record.header.source)
}

/// Every record carries its position as sequence, stems from one of the
/// events, and the list of identifiers names that event at the position.
pub proof fn records_lead_back(events: Seq<Event>, t: Tables, n: int)
    requires
        first_problem(events) is None,
        0 <= n < all_records(events, t).len(),
    ensures
        all_records(events, t)[n].header.sequence == sequence_at(n as nat),
        record_event_ids(events, t).len() == all_records(events, t).len(),
        exists|m: int|
            0 <= m < events.len() && stems_from(all_records(events, t)[n], #[trigger] events[m])
                && record_event_ids(events, t)[n] == events[m].event_id@,
    decreases events.len(),
{
    let front = events.drop_last();
    let e = events.last();
    let before = all_records(front, t);
    ids_match_records(front, t);
    ids_match_records(events, t);
    if n < before.len() {
        records_lead_back(front, t, n);
        let m = choose|m: int|
            0 <= m < front.len() && stems_from(all_records(front, t)[n], #[trigger] front[m])
                && record_event_ids(front, t)[n] == front[m].event_id@;
        assert(events[m] == front[m]);
    } else {
        let added = records_of(e, t, before.len());
        assert(all_records(events, t)[n] == added[n - before.len()]);
        assert(record_event_ids(events, t)[n] == e.event_id@);
        assert(events[events.len() - 1] == e);
    }
}

proof fn ids_match_records(events: Seq<Event>, t: Tables)
    ensures
        record_event_ids(events, t).len() == all_records(events, t).len(),
    decreases events.len(),
{
    if events.len() > 0 {
        ids_match_records(events.drop_last(), t);
    }
}

} // verus!
