//! What the compact records of an event tell, read back by those who use them.

use crate::compact::{
    conversion_problem, flag_if, names_known, number_of, numbered, pointer_of, records_of,
    slice_classes, Tables,
};
use crate::event::{EventFlags, EventHeader, EventRecord};
use crate::trace_event::{Event, EventKind, RequestSlice};
use vstd::prelude::*;

verus! {

/// Whether the number is that of the name: the name's place, from one on.
pub open spec fn is_number_of(table: Seq<Seq<char>>, number: int, name: Seq<char>) -> bool {
    1 <= number <= table.len() && table[number - 1] == name
}

/// Whether the number is that of the name, or zero where there is no name.
pub open spec fn is_number_if_any(
    table: Seq<Seq<char>>,
    number: int,
    name: Option<String>,
) -> bool {
    match name {
        Some(name) => is_number_of(table, number, name@),
        None => number == 0,
    }
}

proof fn number_is_of_the_name(table: Seq<Seq<char>>, name: Seq<char>)
    requires
        table.contains(name),
    ensures
        is_number_of(table, number_of(table, name), name),
{
    let i = choose|i: int| 0 <= i < table.len() && table[i] == name;
    assert(table[i] == name);
}

/// Whether the flag is set exactly where the condition holds.
pub open spec fn flag_tells(header: EventHeader, flag: u16, condition: bool) -> bool {
    (header.flags & flag != 0) == condition
}

proof fn flags_join(p: u16, q: u16, x: u16)
    ensures
        ((p | q) & x != 0) == (p & x != 0 || q & x != 0),
{
    assert(((p | q) & x != 0) == (p & x != 0 || q & x != 0)) by (bit_vector);
}

proof fn flags_are_apart()
    ensures
        forall|x: u16| #[trigger] (0u16 & x) == 0,
        1u16 & 1u16 == 1u16 && 2u16 & 2u16 == 2u16 && 4u16 & 4u16 == 4u16 && 8u16 & 8u16 == 8u16
            && 16u16 & 16u16 == 16u16,
        1u16 & 2u16 == 0 && 1u16 & 4u16 == 0 && 1u16 & 8u16 == 0 && 1u16 & 16u16 == 0,
        2u16 & 1u16 == 0 && 2u16 & 4u16 == 0 && 2u16 & 8u16 == 0 && 2u16 & 16u16 == 0,
        4u16 & 1u16 == 0 && 4u16 & 2u16 == 0 && 4u16 & 8u16 == 0 && 4u16 & 16u16 == 0,
        8u16 & 1u16 == 0 && 8u16 & 2u16 == 0 && 8u16 & 4u16 == 0 && 8u16 & 16u16 == 0,
        16u16 & 1u16 == 0 && 16u16 & 2u16 == 0 && 16u16 & 4u16 == 0 && 16u16 & 8u16 == 0,
{
    assert(forall|x: u16| #[trigger] (0u16 & x) == 0) by (bit_vector);
    assert(1u16 & 1u16 == 1u16 && 2u16 & 2u16 == 2u16 && 4u16 & 4u16 == 4u16 && 8u16 & 8u16 == 8u16
        && 16u16 & 16u16 == 16u16) by (bit_vector);
    assert(1u16 & 2u16 == 0 && 1u16 & 4u16 == 0 && 1u16 & 8u16 == 0 && 1u16 & 16u16 == 0 && 2u16
        & 1u16 == 0 && 2u16 & 4u16 == 0 && 2u16 & 8u16 == 0 && 2u16 & 16u16 == 0 && 4u16 & 1u16
        == 0 && 4u16 & 2u16 == 0 && 4u16 & 8u16 == 0 && 4u16 & 16u16 == 0 && 8u16 & 1u16 == 0
        && 8u16 & 2u16 == 0 && 8u16 & 4u16 == 0 && 8u16 & 16u16 == 0 && 16u16 & 1u16 == 0 && 16u16
        & 2u16 == 0 && 16u16 & 4u16 == 0 && 16u16 & 8u16 == 0) by (bit_vector);
}

proof fn two_flags(a: bool, x: u16, b: bool, y: u16, flag: u16)
    ensures
        ((flag_if(a, x) | flag_if(b, y)) & flag != 0) == (a && x & flag != 0 || b && y & flag
            != 0),
{
    flags_are_apart();
    flags_join(flag_if(a, x), flag_if(b, y), flag);
    assert(0u16 & flag == 0);
}

// Requests.

/// Whether the record, read back, tells what the event told of a request.
pub open spec fn tells_of_request(e: Event, t: Tables, r: EventRecord) -> bool {
    match e.kind {
        EventKind::RequestReceived {
            request_id,
            service_class,
            input_tokens,
            requested_output_tokens,
        } => {
            let data = r.request_received_data();
            &&& r.header.kind == crate::event::EventKind::RequestReceived
            &&& is_number_of(t.requests, data.request_id as int, request_id@)
            &&& is_number_if_any(t.classes, data.service_class_id as int, service_class)
            &&& input_tokens matches Some(n) ==> data.input_tokens == n
            &&& input_tokens is None ==> data.input_tokens == 0
            &&& requested_output_tokens matches Some(n) ==> data.requested_output_tokens == n
            &&& requested_output_tokens is None ==> data.requested_output_tokens == 0
        },
        EventKind::RequestQueued { request_id, queue_depth } => {
            let data = r.request_queued_data();
            &&& r.header.kind == crate::event::EventKind::RequestQueued
            &&& is_number_of(t.requests, data.request_id as int, request_id@)
            &&& data.queue_depth == queue_depth
        },
        EventKind::TokenEmitted { request_id, token_index } => {
            let data = r.token_emitted_data();
            &&& r.header.kind == crate::event::EventKind::TokenEmitted
            &&& is_number_of(t.requests, data.request_id as int, request_id@)
            &&& data.token_index == token_index
        },
        EventKind::RequestCompleted {
            request_id,
            input_tokens,
            output_tokens,
            ttft_ns,
            e2e_latency_ns,
        } => {
            let data = r.request_completed_data();
            &&& r.header.kind == crate::event::EventKind::RequestCompleted
            &&& is_number_of(t.requests, data.request_id as int, request_id@)
            &&& data.input_tokens == input_tokens
            &&& data.output_tokens == output_tokens
            &&& data.e2e_latency_ns == e2e_latency_ns
            &&& ttft_ns matches Some(n) ==> data.ttft_ns == n
            &&& flag_tells(r.header, EventFlags::HAS_TTFT, ttft_ns is Some)
        },
        _ => true,
    }
}

/// An event of a request has one record, and the record tells what the event told.
pub proof fn request_record_tells_the_event(e: Event, t: Tables, position: nat)
    requires
        numbered(t),
        t.requests.len() <= u64::MAX,
        names_known(e, t),
        conversion_problem(e) is None,
        e.kind is RequestReceived || e.kind is RequestQueued || e.kind is TokenEmitted
            || e.kind is RequestCompleted,
    ensures
        records_of(e, t, position).len() == 1,
        tells_of_request(e, t, records_of(e, t, position)[0]),
{
    let name = match e.kind {
        EventKind::RequestReceived { request_id, .. } => request_id@,
        EventKind::RequestQueued { request_id, .. } => request_id@,
        EventKind::TokenEmitted { request_id, .. } => request_id@,
        EventKind::RequestCompleted { request_id, .. } => request_id@,
        _ => Seq::empty(),
    };
    assert(crate::compact::named_requests(e)[0] == name);
    number_is_of_the_name(t.requests, name);
    match e.kind {
        EventKind::RequestReceived { service_class: Some(class), .. } => {
            assert(crate::compact::named_classes(e)[0] == class@);
            number_is_of_the_name(t.classes, class@);
        },
        EventKind::RequestCompleted { ttft_ns, .. } => {
            flags_are_apart();
            two_flags(
                ttft_ns is Some,
                EventFlags::HAS_TTFT,
                e.clock_normalized(),
                EventFlags::TIMESTAMP_NORMALIZED,
                EventFlags::HAS_TTFT,
            );
        },
        _ => {},
    }
}

// Work of the device.

/// Whether the record, read back, tells what the event told of the device.
pub open spec fn tells_of_device(e: Event, t: Tables, r: EventRecord) -> bool {
    match e.kind {
        EventKind::CudaKernelLaunch {
            correlation_id,
            stream,
            kernel_function,
            kernel_symbol,
            grid,
            block,
            shared_memory_bytes,
            graph_id,
        } => {
            let data = r.cuda_kernel_launch_data();
            &&& r.header.kind == crate::event::EventKind::CudaKernelLaunch
            &&& correlation_id matches Some(n) ==> data.correlation_id == n
            &&& flag_tells(r.header, EventFlags::HAS_CORRELATION_ID, correlation_id is Some)
            &&& graph_id matches Some(n) ==> data.graph_id == n
            &&& flag_tells(r.header, EventFlags::HAS_GRAPH_ID, graph_id is Some)
            &&& data.stream == stream
            &&& pointer_of(kernel_function@) == Some(data.kernel_function as nat)
            &&& is_number_if_any(t.symbols, data.kernel_symbol_id as int, kernel_symbol)
            &&& data.grid.x == grid.x && data.grid.y == grid.y && data.grid.z == grid.z
            &&& data.block.x == block.x && data.block.y == block.y && data.block.z == block.z
            &&& data.shared_memory_bytes == shared_memory_bytes
        },
        EventKind::CudaMemcpy { correlation_id, stream, bytes, kind, asynchronous } => {
            let data = r.cuda_memcpy_data();
            &&& r.header.kind == crate::event::EventKind::CudaMemcpy
            &&& correlation_id matches Some(n) ==> data.correlation_id == n
            &&& flag_tells(r.header, EventFlags::HAS_CORRELATION_ID, correlation_id is Some)
            &&& stream matches Some(n) ==> data.stream == n
            &&& data.bytes == bytes
            &&& data.asynchronous == 1 <==> asynchronous
        },
        EventKind::CudaGraphLaunch { correlation_id, stream, graph_id } => {
            let data = r.cuda_graph_launch_data();
            &&& r.header.kind == crate::event::EventKind::CudaGraphLaunch
            &&& correlation_id matches Some(n) ==> data.correlation_id == n
            &&& flag_tells(r.header, EventFlags::HAS_CORRELATION_ID, correlation_id is Some)
            &&& flag_tells(r.header, EventFlags::HAS_GRAPH_ID, true)
            &&& data.stream == stream
            &&& data.graph_id == graph_id
        },
        EventKind::CuptiKernelActivity {
            correlation_id,
            stream,
            kernel_name,
            duration_ns,
            device_id,
            context_id,
            graph_id,
        } => {
            let data = r.cupti_kernel_activity_data();
            &&& r.header.kind == crate::event::EventKind::CuptiKernelActivity
            &&& data.correlation_id == correlation_id
            &&& data.stream == stream
            &&& data.duration_ns == duration_ns
            &&& is_number_of(t.symbols, data.kernel_symbol_id as int, kernel_name@)
            &&& device_id matches Some(n) ==> data.device_id == n
            &&& context_id matches Some(n) ==> data.context_id == n
            &&& graph_id matches Some(n) ==> data.graph_id == n
            &&& flag_tells(r.header, EventFlags::HAS_GRAPH_ID, graph_id is Some)
        },
        _ => true,
    }
}

/// An event of the device has one record, and the record tells what the event
/// told.
pub proof fn device_record_tells_the_event(e: Event, t: Tables, position: nat)
    requires
        numbered(t),
        names_known(e, t),
        conversion_problem(e) is None,
        e.kind is CudaKernelLaunch || e.kind is CudaMemcpy || e.kind is CudaGraphLaunch
            || e.kind is CuptiKernelActivity,
    ensures
        records_of(e, t, position).len() == 1,
        tells_of_device(e, t, records_of(e, t, position)[0]),
{
    let normal = e.clock_normalized();
    flags_are_apart();
    match e.kind {
        EventKind::CudaKernelLaunch { correlation_id, kernel_symbol, graph_id, .. } => {
            let own = flag_if(correlation_id is Some, 2) | flag_if(graph_id is Some, 4);
            two_flags(correlation_id is Some, 2, graph_id is Some, 4, 2);
            two_flags(correlation_id is Some, 2, graph_id is Some, 4, 4);
            flags_join(own, flag_if(normal, 1), 2);
            flags_join(own, flag_if(normal, 1), 4);
            assert(0u16 & 2u16 == 0 && 0u16 & 4u16 == 0);
            if kernel_symbol is Some {
                assert(crate::compact::named_symbols(e)[0] == (kernel_symbol->0)@);
                number_is_of_the_name(t.symbols, (kernel_symbol->0)@);
            }
            pointer_fits(e);
        },
        EventKind::CudaMemcpy { correlation_id, .. } => {
            two_flags(correlation_id is Some, 2, normal, 1, 2);
        },
        EventKind::CudaGraphLaunch { correlation_id, .. } => {
            let own = 4u16 | flag_if(correlation_id is Some, 2);
            flags_join(4u16, flag_if(correlation_id is Some, 2), 2);
            flags_join(4u16, flag_if(correlation_id is Some, 2), 4);
            flags_join(own, flag_if(normal, 1), 2);
            flags_join(own, flag_if(normal, 1), 4);
            assert(0u16 & 2u16 == 0 && 0u16 & 4u16 == 0);
        },
        EventKind::CuptiKernelActivity { kernel_name, graph_id, .. } => {
            two_flags(graph_id is Some, 4, normal, 1, 4);
            assert(crate::compact::named_symbols(e)[0] == kernel_name@);
            number_is_of_the_name(t.symbols, kernel_name@);
        },
        _ => {},
    }
}

proof fn pointer_fits(e: Event)
    requires
        conversion_problem(e) is None,
    ensures
        e.kind matches EventKind::CudaKernelLaunch { kernel_function, .. } ==> pointer_of(
            kernel_function@,
        ) matches Some(p) && p <= u64::MAX,
{
}

// Steps.

/// Whether the record, read back, tells what the slice told.
pub open spec fn tells_of_slice(step_id: u64, slice: RequestSlice, t: Tables, r: EventRecord) -> bool {
    let data = r.step_request_slice_data();
    &&& r.header.kind == crate::event::EventKind::StepRequestSlice
    &&& data.step_id == step_id
    &&& is_number_of(t.requests, data.request_id as int, slice.request_id@)
    &&& slice.sequence_id matches Some(n) ==> data.sequence_id == n
    &&& data.scheduled_tokens == slice.scheduled_tokens
    &&& is_number_if_any(t.classes, data.service_class_id as int, slice.service_class)
    &&& data.phase is Prefill <==> slice.phase is Prefill
}

/// The begin of a step has a record of its own and one for each of its slices, in
/// their order, and each tells what the event told.
pub proof fn step_records_tell_the_event(e: Event, t: Tables, position: nat)
    requires
        numbered(t),
        t.requests.len() <= u64::MAX,
        names_known(e, t),
        conversion_problem(e) is None,
        e.kind is EngineStepBegin,
    ensures
        e.kind matches EventKind::EngineStepBegin {
            step_id,
            request_slices,
            prefill_tokens,
            decode_tokens,
            scheduled_tokens,
            queue_depth,
            active_requests,
            kv_cache_usage_permyriad,
        } && {
            let records = records_of(e, t, position);
            let data = records[0].engine_step_begin_data();
            &&& records.len() == 1 + request_slices@.len()
            &&& records[0].header.kind == crate::event::EventKind::EngineStepBegin
            &&& data.step_id == step_id
            &&& data.prefill_tokens == prefill_tokens
            &&& data.decode_tokens == decode_tokens
            &&& data.scheduled_tokens == scheduled_tokens
            &&& data.queue_depth == queue_depth
            &&& data.expected_slices == request_slices@.len()
            &&& active_requests matches Some(n) ==> data.active_requests == n
            &&& kv_cache_usage_permyriad matches Some(n) ==> data.kv_cache_usage_permyriad == n
            &&& flag_tells(
                records[0].header,
                EventFlags::HAS_KV_CACHE_USAGE,
                kv_cache_usage_permyriad is Some,
            )
            &&& forall|i: int|
                0 <= i < request_slices@.len() ==> tells_of_slice(
                    step_id,
                    #[trigger] request_slices@[i],
                    t,
                    records[1 + i],
                )
        },
{
    if let EventKind::EngineStepBegin { step_id, request_slices, kv_cache_usage_permyriad, .. } =
        e.kind {
        let slices = request_slices@;
        let records = records_of(e, t, position);
        flags_are_apart();
        two_flags(kv_cache_usage_permyriad is Some, 16, e.clock_normalized(), 1, 16);
        assert forall|i: int| 0 <= i < slices.len() implies tells_of_slice(
            step_id,
            #[trigger] slices[i],
            t,
            records[1 + i],
        ) by {
            assert(crate::compact::named_requests(e)[i] == slices[i].request_id@);
            number_is_of_the_name(t.requests, slices[i].request_id@);
            if slices[i].service_class is Some {
                class_is_named(slices, i);
                let names = crate::compact::named_classes(e);
                let k = choose|k: int|
                    0 <= k < names.len() && names[k] == (slices[i].service_class->0)@;
                assert(t.classes.contains(names[k]));
                number_is_of_the_name(t.classes, (slices[i].service_class->0)@);
            }
        }
    }
}

proof fn class_is_named(slices: Seq<RequestSlice>, i: int)
    requires
        0 <= i < slices.len(),
        slices[i].service_class is Some,
    ensures
        slice_classes(slices).contains((slices[i].service_class->0)@),
    decreases slices.len(),
{
    let names = slice_classes(slices);
    if i == slices.len() - 1 {
        assert(names[names.len() - 1] == (slices[i].service_class->0)@);
    } else {
        let front = slices.drop_last();
        assert(front[i] == slices[i]);
        class_is_named(front, i);
        let before = slice_classes(front);
        let k = choose|k: int|
            0 <= k < before.len() && before[k] == (slices[i].service_class->0)@;
        assert(names[k] == before[k]);
    }
}

/// Every record of an event tells when the event happened, by its own clock and by
/// the common one where there is such a time, who told of it, and where the record
/// stands.
pub proof fn header_tells_the_event(e: Event, t: Tables, position: nat, i: int)
    requires
        conversion_problem(e) is None,
        0 <= i < records_of(e, t, position).len(),
        position + i < u64::MAX,
    ensures
        ({
            let header = records_of(e, t, position)[i].header;
            &&& header.source_timestamp_ns == e.timestamp_ns
            &&& e.normalized_timestamp_ns matches Some(time) ==> header.timestamp_ns == time
            &&& e.normalized_timestamp_ns is None ==> header.timestamp_ns == e.timestamp_ns
            &&& header.sequence == position + i + 1
            &&& header.pid == e.pid
            &&& e.tid matches Some(tid) ==> header.tid == tid
            &&& flag_tells(
                header,
                EventFlags::TIMESTAMP_NORMALIZED,
                e.normalized_timestamp_ns is Some || e.clock_domain@ == "monotonic"@,
            )
        }),
{
    let normal = e.clock_normalized();
    flags_are_apart();
    flags_join(0u16, flag_if(normal, 1), 1);
    assert(0u16 & 1u16 == 0);
    match e.kind {
        EventKind::RequestCompleted { ttft_ns, .. } => {
            two_flags(ttft_ns is Some, 8, normal, 1, 1);
        },
        EventKind::EngineStepBegin { kv_cache_usage_permyriad, .. } => {
            two_flags(kv_cache_usage_permyriad is Some, 16, normal, 1, 1);
        },
        EventKind::CudaKernelLaunch { correlation_id, graph_id, .. } => {
            let own = flag_if(correlation_id is Some, 2) | flag_if(graph_id is Some, 4);
            two_flags(correlation_id is Some, 2, graph_id is Some, 4, 1);
            flags_join(own, flag_if(normal, 1), 1);
        },
        EventKind::CudaMemcpy { correlation_id, .. } => {
            two_flags(correlation_id is Some, 2, normal, 1, 1);
        },
        EventKind::CudaGraphLaunch { correlation_id, .. } => {
            let own = 4u16 | flag_if(correlation_id is Some, 2);
            flags_join(4u16, flag_if(correlation_id is Some, 2), 1);
            flags_join(own, flag_if(normal, 1), 1);
        },
        EventKind::CuptiKernelActivity { graph_id, .. } => {
            two_flags(graph_id is Some, 4, normal, 1, 1);
        },
        _ => {},
    }
}

/// The end of a step has one record, which tells the step and whether it failed.
pub proof fn end_record_tells_the_event(e: Event, t: Tables, position: nat)
    requires
        e.kind is EngineStepEnd,
    ensures
        e.kind matches EventKind::EngineStepEnd { step_id, status } && {
            let records = records_of(e, t, position);
            &&& records.len() == 1
            &&& records[0].header.kind == crate::event::EventKind::EngineStepEnd
            &&& records[0].engine_step_end_data().step_id == step_id
            &&& records[0].engine_step_end_data().status == 0 <==> (status matches Some(text)
                ==> text@ == "ok"@)
        },
{
}

} // verus!
