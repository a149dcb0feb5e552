//! Fixed-size telemetry records: a 40-byte header and a 64-byte payload whose
//! meaning is given by the kind in the header.

use crate::words::{
    high16, high32, high8, join16, join32, join8, low16, low32, low8, signed_bits, unsigned_bits,
};
use vstd::prelude::*;

verus! {

pub const SCHEMA_VERSION: u16 = 1;

pub const EVENT_PAYLOAD_BYTES: usize = 64;

pub const EVENT_RECORD_BYTES: usize = 104;

#[derive(Clone, Copy, Debug, PartialEq, Eq, Structural)]
pub enum SourceKind {
    Vllm,
    HostProbe,
    Cupti,
    DeviceProbe,
    Policy,
    Workload,
}

#[derive(Clone, Copy, Debug, PartialEq, Eq, Structural)]
pub enum EventKind {
    RequestReceived,
    RequestQueued,
    TokenEmitted,
    RequestCompleted,
    EngineStepBegin,
    StepRequestSlice,
    EngineStepEnd,
    PackedLayoutBegin,
    PackedRequestSlice,
    PackedTokenRow,
    AcceptedOutputToken,
    CudaKernelLaunch,
    CuptiKernelActivity,
    CudaGraphLaunch,
    CudaMemcpy,
    MetricSample,
    ControlDecision,
}

#[derive(Clone, Copy, Debug, PartialEq, Eq, Structural)]
pub enum RequestPhase {
    Prefill,
    Decode,
}

impl RequestPhase {
    /// The byte that stands for the phase in a record.
    pub open spec fn spec_code(self) -> u8 {
        match self {
            RequestPhase::Prefill => 1,
            RequestPhase::Decode => 2,
        }
    }

    pub open spec fn spec_from_code(code: u8) -> RequestPhase {
        if code == 1 {
            RequestPhase::Prefill
        } else {
            RequestPhase::Decode
        }
    }

    /// The byte that stands for the phase in a record.
    #[verifier::when_used_as_spec(spec_code)]
    pub fn code(self) -> (code: u8)
        ensures
            code == self.spec_code(),
    {
        match self {
            RequestPhase::Prefill => 1,
            RequestPhase::Decode => 2,
        }
    }

    /// The phase that a byte of a record stands for.
    #[verifier::when_used_as_spec(spec_from_code)]
    pub fn from_code(code: u8) -> (phase: RequestPhase)
        ensures
            phase == RequestPhase::spec_from_code(code),
    {
        if code == 1 {
            RequestPhase::Prefill
        } else {
            RequestPhase::Decode
        }
    }
}

#[derive(Clone, Copy, Debug, Default, PartialEq, Eq, Structural)]
pub struct Dim3 {
    pub x: u32,
    pub y: u32,
    pub z: u32,
}

pub struct EventFlags;

impl EventFlags {
    pub const TIMESTAMP_NORMALIZED: u16 = 1;

    pub const HAS_CORRELATION_ID: u16 = 2;

    pub const HAS_GRAPH_ID: u16 = 4;

    pub const HAS_TTFT: u16 = 8;

    pub const HAS_KV_CACHE_USAGE: u16 = 16;

    pub const DROPPED_BEFORE: u16 = 32;
}

#[derive(Clone, Copy, Debug, PartialEq, Eq, Structural)]
pub struct EventHeader {
    pub source_timestamp_ns: u64,
    pub timestamp_ns: u64,
    pub sequence: u64,
    pub pid: u32,
    pub tid: u32,
    pub clock_id: u16,
    pub schema_version: u16,
    pub flags: u16,
    pub source: SourceKind,
    pub kind: EventKind,
}

impl EventHeader {
    /// Whether the record carries the flag.
    pub open spec fn flagged(self, flag: u16) -> bool {
        self.flags & flag != 0
    }

    pub fn is_timestamp_normalized(&self) -> (r: bool)
        ensures
            r == self.flagged(EventFlags::TIMESTAMP_NORMALIZED),
    {
        self.flags & EventFlags::TIMESTAMP_NORMALIZED != 0
    }

    pub fn has_correlation_id(&self) -> (r: bool)
        ensures
            r == self.flagged(EventFlags::HAS_CORRELATION_ID),
    {
        self.flags & EventFlags::HAS_CORRELATION_ID != 0
    }

    pub fn has_graph_id(&self) -> (r: bool)
        ensures
            r == self.flagged(EventFlags::HAS_GRAPH_ID),
    {
        self.flags & EventFlags::HAS_GRAPH_ID != 0
    }

    pub fn is_dropped_before(&self) -> (r: bool)
        ensures
            r == self.flagged(EventFlags::DROPPED_BEFORE),
    {
        self.flags & EventFlags::DROPPED_BEFORE != 0
    }
}

/// What the emitting source knows of a record besides its payload.
#[derive(Clone, Copy, Debug, PartialEq, Eq, Structural)]
pub struct EventContext {
    pub source_timestamp_ns: u64,
    pub timestamp_ns: u64,
    pub sequence: u64,
    pub pid: u32,
    pub tid: u32,
    pub clock_id: u16,
    pub flags: u16,
    pub source: SourceKind,
}

impl EventContext {
    pub open spec fn spec_header(self, kind: EventKind) -> EventHeader {
        EventHeader {
            source_timestamp_ns: self.source_timestamp_ns,
            timestamp_ns: self.timestamp_ns,
            sequence: self.sequence,
            pid: self.pid,
            tid: self.tid,
            clock_id: self.clock_id,
            schema_version: SCHEMA_VERSION,
            flags: self.flags,
            source: self.source,
            kind,
        }
    }

    pub fn header(self, kind: EventKind) -> (header: EventHeader)
        ensures
            header == self.spec_header(kind),
    {
        EventHeader {
            source_timestamp_ns: self.source_timestamp_ns,
            timestamp_ns: self.timestamp_ns,
            sequence: self.sequence,
            pid: self.pid,
            tid: self.tid,
            clock_id: self.clock_id,
            schema_version: SCHEMA_VERSION,
            flags: self.flags,
            source: self.source,
            kind,
        }
    }
}

#[derive(Clone, Copy, Debug, PartialEq, Eq, Structural)]
pub struct RequestReceivedData {
    pub request_id: u64,
    pub input_tokens: u32,
    pub requested_output_tokens: u32,
    pub service_class_id: u16,
    pub reserved: u16,
}

#[derive(Clone, Copy, Debug, PartialEq, Eq, Structural)]
pub struct RequestQueuedData {
    pub request_id: u64,
    pub queue_depth: u32,
    pub reserved: u32,
}

#[derive(Clone, Copy, Debug, PartialEq, Eq, Structural)]
pub struct TokenEmittedData {
    pub request_id: u64,
    pub token_index: u32,
    pub reserved: u32,
}

#[derive(Clone, Copy, Debug, PartialEq, Eq, Structural)]
pub struct RequestCompletedData {
    pub request_id: u64,
    pub input_tokens: u32,
    pub output_tokens: u32,
    pub ttft_ns: u64,
    pub e2e_latency_ns: u64,
}

#[derive(Clone, Copy, Debug, PartialEq, Eq, Structural)]
pub struct EngineStepBeginData {
    pub step_id: u64,
    pub scheduled_tokens: u32,
    pub prefill_tokens: u32,
    pub decode_tokens: u32,
    pub queue_depth: u32,
    pub active_requests: u32,
    pub expected_slices: u32,
    pub kv_cache_usage_permyriad: u16,
    pub reserved: u16,
}

#[derive(Clone, Copy, Debug, PartialEq, Eq, Structural)]
pub struct StepRequestSliceData {
    pub step_id: u64,
    pub request_id: u64,
    pub sequence_id: u64,
    pub scheduled_tokens: u32,
    pub service_class_id: u16,
    pub phase: RequestPhase,
    pub reserved: u8,
}

#[derive(Clone, Copy, Debug, PartialEq, Eq)]
pub struct EngineStepEndData {
    pub step_id: u64,
    pub status: u8,
    pub reserved: [u8; 7],
}

#[derive(Clone, Copy, Debug, PartialEq, Eq, Structural)]
pub struct PackedLayoutBeginData {
    pub step_id: u64,
    pub packing_generation: u64,
    pub total_tokens: u32,
    pub expected_slices: u32,
}

#[derive(Clone, Copy, Debug, PartialEq, Eq)]
pub struct PackedRequestSliceData {
    pub step_id: u64,
    pub request_id: u64,
    pub packing_generation: u64,
    pub row_begin: u32,
    pub row_end: u32,
    pub scheduled_tokens: u32,
    pub packed_index: u32,
    pub phase: RequestPhase,
    pub reserved: [u8; 7],
}

/// One authoritative model-input token after packing.
///
/// Emission is opt-in for a single focused request; the payload stays flat.
#[derive(Clone, Copy, Debug, PartialEq, Eq)]
pub struct PackedTokenRowData {
    pub step_id: u64,
    pub request_id: u64,
    pub packing_generation: u64,
    pub packed_row: u32,
    pub sequence_position: u32,
    pub token_id: u32,
    pub phase: RequestPhase,
    pub reserved: [u8; 3],
}

/// One token accepted by the scheduler after model execution.
#[derive(Clone, Copy, Debug, PartialEq, Eq, Structural)]
pub struct AcceptedOutputTokenData {
    pub step_id: u64,
    pub request_id: u64,
    pub output_position: u32,
    pub token_id: u32,
}

#[derive(Clone, Copy, Debug, PartialEq, Eq, Structural)]
pub struct CudaKernelLaunchData {
    pub correlation_id: u64,
    pub stream: u64,
    pub kernel_function: u64,
    pub graph_id: u64,
    pub grid: Dim3,
    pub block: Dim3,
    pub shared_memory_bytes: u32,
    pub kernel_symbol_id: u32,
}

#[derive(Clone, Copy, Debug, PartialEq, Eq, Structural)]
pub struct CuptiKernelActivityData {
    pub correlation_id: u64,
    pub stream: u64,
    pub duration_ns: u64,
    pub graph_id: u64,
    pub kernel_symbol_id: u32,
    pub device_id: u32,
    pub context_id: u32,
    pub reserved: u32,
}

#[derive(Clone, Copy, Debug, PartialEq, Eq, Structural)]
pub struct CudaGraphLaunchData {
    pub correlation_id: u64,
    pub stream: u64,
    pub graph_id: u64,
}

#[derive(Clone, Copy, Debug, PartialEq, Eq)]
pub struct CudaMemcpyData {
    pub correlation_id: u64,
    pub stream: u64,
    pub bytes: u64,
    pub kind: u8,
    pub asynchronous: u8,
    pub reserved: [u8; 6],
}

/// A sampled value, carried as the bit pattern of its 64-bit float.
#[derive(Clone, Copy, Debug, PartialEq, Eq, Structural)]
pub struct MetricSampleData {
    pub value_bits: u64,
    pub series_id: u32,
    pub unit_id: u16,
    pub reserved: u16,
}

#[derive(Clone, Copy, Debug, PartialEq, Eq, Structural)]
pub struct ControlDecisionData {
    pub previous_value: i64,
    pub new_value: i64,
    pub condition_id: u32,
    pub action_id: u32,
    pub parameter_id: u32,
    pub reserved: u32,
}

#[derive(Clone, Copy)]
pub struct EventRecord {
    pub header: EventHeader,
    pub words: [u64; 8],
}

impl EventRecord {
    /// The payload read as that of a `RequestReceived` record.
    pub open spec fn request_received_data(self) -> RequestReceivedData {
        let words = self.words;
        RequestReceivedData {
                request_id: words[0],
                input_tokens: low32(words[1]),
                requested_output_tokens: high32(words[1]),
                service_class_id: low16(low32(words[2])),
                reserved: high16(low32(words[2])),
            }
    }

    /// The payload read as that of a `RequestQueued` record.
    pub open spec fn request_queued_data(self) -> RequestQueuedData {
        let words = self.words;
        RequestQueuedData {
                request_id: words[0],
                queue_depth: low32(words[1]),
                reserved: high32(words[1]),
            }
    }

    /// The payload read as that of a `TokenEmitted` record.
    pub open spec fn token_emitted_data(self) -> TokenEmittedData {
        let words = self.words;
        TokenEmittedData {
                request_id: words[0],
                token_index: low32(words[1]),
                reserved: high32(words[1]),
            }
    }

    /// The payload read as that of a `RequestCompleted` record.
    pub open spec fn request_completed_data(self) -> RequestCompletedData {
        let words = self.words;
        RequestCompletedData {
                request_id: words[0],
                input_tokens: low32(words[1]),
                output_tokens: high32(words[1]),
                ttft_ns: words[2],
                e2e_latency_ns: words[3],
            }
    }

    /// The payload read as that of a `EngineStepBegin` record.
    pub open spec fn engine_step_begin_data(self) -> EngineStepBeginData {
        let words = self.words;
        EngineStepBeginData {
                step_id: words[0],
                scheduled_tokens: low32(words[1]),
                prefill_tokens: high32(words[1]),
                decode_tokens: low32(words[2]),
                queue_depth: high32(words[2]),
                active_requests: low32(words[3]),
                expected_slices: high32(words[3]),
                kv_cache_usage_permyriad: low16(low32(words[4])),
                reserved: high16(low32(words[4])),
            }
    }

    /// The payload read as that of a `StepRequestSlice` record.
    pub open spec fn step_request_slice_data(self) -> StepRequestSliceData {
        let words = self.words;
        StepRequestSliceData {
                step_id: words[0],
                request_id: words[1],
                sequence_id: words[2],
                scheduled_tokens: low32(words[3]),
                service_class_id: low16(high32(words[3])),
                phase: RequestPhase::from_code(low8(high16(high32(words[3])))),
                reserved: high8(high16(high32(words[3]))),
            }
    }

    /// The payload read as that of a `EngineStepEnd` record.
    pub open spec fn engine_step_end_data(self) -> EngineStepEndData {
        let words = self.words;
        EngineStepEndData {
                step_id: words[0],
                status: low8(low16(low32(words[1]))),
                reserved: [
                    high8(low16(low32(words[1]))),
                    low8(high16(low32(words[1]))),
                    high8(high16(low32(words[1]))),
                    low8(low16(high32(words[1]))),
                    high8(low16(high32(words[1]))),
                    low8(high16(high32(words[1]))),
                    high8(high16(high32(words[1]))),
                ],
            }
    }

    /// The payload read as that of a `PackedLayoutBegin` record.
    pub open spec fn packed_layout_begin_data(self) -> PackedLayoutBeginData {
        let words = self.words;
        PackedLayoutBeginData {
                step_id: words[0],
                packing_generation: words[1],
                total_tokens: low32(words[2]),
                expected_slices: high32(words[2]),
            }
    }

    /// The payload read as that of a `PackedRequestSlice` record.
    pub open spec fn packed_request_slice_data(self) -> PackedRequestSliceData {
        let words = self.words;
        PackedRequestSliceData {
                step_id: words[0],
                request_id: words[1],
                packing_generation: words[2],
                row_begin: low32(words[3]),
                row_end: high32(words[3]),
                scheduled_tokens: low32(words[4]),
                packed_index: high32(words[4]),
                phase: RequestPhase::from_code(low8(low16(low32(words[5])))),
                reserved: [
                    high8(low16(low32(words[5]))),
                    low8(high16(low32(words[5]))),
                    high8(high16(low32(words[5]))),
                    low8(low16(high32(words[5]))),
                    high8(low16(high32(words[5]))),
                    low8(high16(high32(words[5]))),
                    high8(high16(high32(words[5]))),
                ],
            }
    }

    /// The payload read as that of a `PackedTokenRow` record.
    pub open spec fn packed_token_row_data(self) -> PackedTokenRowData {
        let words = self.words;
        PackedTokenRowData {
                step_id: words[0],
                request_id: words[1],
                packing_generation: words[2],
                packed_row: low32(words[3]),
                sequence_position: high32(words[3]),
                token_id: low32(words[4]),
                phase: RequestPhase::from_code(low8(low16(high32(words[4])))),
                reserved: [
                    high8(low16(high32(words[4]))),
                    low8(high16(high32(words[4]))),
                    high8(high16(high32(words[4]))),
                ],
            }
    }

    /// The payload read as that of a `AcceptedOutputToken` record.
    pub open spec fn accepted_output_token_data(self) -> AcceptedOutputTokenData {
        let words = self.words;
        AcceptedOutputTokenData {
                step_id: words[0],
                request_id: words[1],
                output_position: low32(words[2]),
                token_id: high32(words[2]),
            }
    }

    /// The payload read as that of a `CudaKernelLaunch` record.
    pub open spec fn cuda_kernel_launch_data(self) -> CudaKernelLaunchData {
        let words = self.words;
        CudaKernelLaunchData {
                correlation_id: words[0],
                stream: words[1],
                kernel_function: words[2],
                graph_id: words[3],
                grid: Dim3 { x: low32(words[4]), y: high32(words[4]), z: low32(words[5]) },
                block: Dim3 { x: high32(words[5]), y: low32(words[6]), z: high32(words[6]) },
                shared_memory_bytes: low32(words[7]),
                kernel_symbol_id: high32(words[7]),
            }
    }

    /// The payload read as that of a `CuptiKernelActivity` record.
    pub open spec fn cupti_kernel_activity_data(self) -> CuptiKernelActivityData {
        let words = self.words;
        CuptiKernelActivityData {
                correlation_id: words[0],
                stream: words[1],
                duration_ns: words[2],
                graph_id: words[3],
                kernel_symbol_id: low32(words[4]),
                device_id: high32(words[4]),
                context_id: low32(words[5]),
                reserved: high32(words[5]),
            }
    }

    /// The payload read as that of a `CudaGraphLaunch` record.
    pub open spec fn cuda_graph_launch_data(self) -> CudaGraphLaunchData {
        let words = self.words;
        CudaGraphLaunchData {
                correlation_id: words[0],
                stream: words[1],
                graph_id: words[2],
            }
    }

    /// The payload read as that of a `CudaMemcpy` record.
    pub open spec fn cuda_memcpy_data(self) -> CudaMemcpyData {
        let words = self.words;
        CudaMemcpyData {
                correlation_id: words[0],
                stream: words[1],
                bytes: words[2],
                kind: low8(low16(low32(words[3]))),
                asynchronous: high8(low16(low32(words[3]))),
                reserved: [
                    low8(high16(low32(words[3]))),
                    high8(high16(low32(words[3]))),
                    low8(low16(high32(words[3]))),
                    high8(low16(high32(words[3]))),
                    low8(high16(high32(words[3]))),
                    high8(high16(high32(words[3]))),
                ],
            }
    }

    /// The payload read as that of a `MetricSample` record.
    pub open spec fn metric_sample_data(self) -> MetricSampleData {
        let words = self.words;
        MetricSampleData {
                value_bits: words[0],
                series_id: low32(words[1]),
                unit_id: low16(high32(words[1])),
                reserved: high16(high32(words[1])),
            }
    }

    /// The payload read as that of a `ControlDecision` record.
    pub open spec fn control_decision_data(self) -> ControlDecisionData {
        let words = self.words;
        ControlDecisionData {
                previous_value: signed_bits(words[0]),
                new_value: signed_bits(words[1]),
                condition_id: low32(words[2]),
                action_id: high32(words[2]),
                parameter_id: low32(words[3]),
                reserved: high32(words[3]),
            }
    }

    /// The `RequestReceived` record with the context and payload.
    pub open spec fn request_received_record(
        context: EventContext,
        data: RequestReceivedData,
    ) -> EventRecord {
        EventRecord {
            header: context.spec_header(EventKind::RequestReceived),
            words: [
                data.request_id,
                join32(data.input_tokens, data.requested_output_tokens),
                join32(join16(data.service_class_id, data.reserved), 0),
                0,
                0,
                0,
                0,
                0,
            ],
        }
    }

    pub fn request_received(
        context: EventContext,
        data: RequestReceivedData,
    ) -> (record: EventRecord)
        ensures
            record == EventRecord::request_received_record(context, data),
            record.header == context.spec_header(EventKind::RequestReceived),
            record.request_received_data() == data,
    {
        let words: [u64; 8] = [
            data.request_id,
            join32(data.input_tokens, data.requested_output_tokens),
            join32(join16(data.service_class_id, data.reserved), 0),
            0,
            0,
            0,
            0,
            0,
        ];
        let record = EventRecord { header: context.header(EventKind::RequestReceived), words };
        assert(record.words =~= EventRecord::request_received_record(context, data).words);
        record
    }

    /// The `RequestQueued` record with the context and payload.
    pub open spec fn request_queued_record(
        context: EventContext,
        data: RequestQueuedData,
    ) -> EventRecord {
        EventRecord {
            header: context.spec_header(EventKind::RequestQueued),
            words: [
                data.request_id,
                join32(data.queue_depth, data.reserved),
                0,
                0,
                0,
                0,
                0,
                0,
            ],
        }
    }

    pub fn request_queued(context: EventContext, data: RequestQueuedData) -> (record: EventRecord)
        ensures
            record == EventRecord::request_queued_record(context, data),
            record.header == context.spec_header(EventKind::RequestQueued),
            record.request_queued_data() == data,
    {
        let words: [u64; 8] = [
            data.request_id,
            join32(data.queue_depth, data.reserved),
            0,
            0,
            0,
            0,
            0,
            0,
        ];
        let record = EventRecord { header: context.header(EventKind::RequestQueued), words };
        assert(record.words =~= EventRecord::request_queued_record(context, data).words);
        record
    }

    /// The `TokenEmitted` record with the context and payload.
    pub open spec fn token_emitted_record(
        context: EventContext,
        data: TokenEmittedData,
    ) -> EventRecord {
        EventRecord {
            header: context.spec_header(EventKind::TokenEmitted),
            words: [
                data.request_id,
                join32(data.token_index, data.reserved),
                0,
                0,
                0,
                0,
                0,
                0,
            ],
        }
    }

    pub fn token_emitted(context: EventContext, data: TokenEmittedData) -> (record: EventRecord)
        ensures
            record == EventRecord::token_emitted_record(context, data),
            record.header == context.spec_header(EventKind::TokenEmitted),
            record.token_emitted_data() == data,
    {
        let words: [u64; 8] = [
            data.request_id,
            join32(data.token_index, data.reserved),
            0,
            0,
            0,
            0,
            0,
            0,
        ];
        let record = EventRecord { header: context.header(EventKind::TokenEmitted), words };
        assert(record.words =~= EventRecord::token_emitted_record(context, data).words);
        record
    }

    /// The `RequestCompleted` record with the context and payload.
    pub open spec fn request_completed_record(
        context: EventContext,
        data: RequestCompletedData,
    ) -> EventRecord {
        EventRecord {
            header: context.spec_header(EventKind::RequestCompleted),
            words: [
                data.request_id,
                join32(data.input_tokens, data.output_tokens),
                data.ttft_ns,
                data.e2e_latency_ns,
                0,
                0,
                0,
                0,
            ],
        }
    }

    pub fn request_completed(
        context: EventContext,
        data: RequestCompletedData,
    ) -> (record: EventRecord)
        ensures
            record == EventRecord::request_completed_record(context, data),
            record.header == context.spec_header(EventKind::RequestCompleted),
            record.request_completed_data() == data,
    {
        let words: [u64; 8] = [
            data.request_id,
            join32(data.input_tokens, data.output_tokens),
            data.ttft_ns,
            data.e2e_latency_ns,
            0,
            0,
            0,
            0,
        ];
        let record = EventRecord { header: context.header(EventKind::RequestCompleted), words };
        assert(record.words =~= EventRecord::request_completed_record(context, data).words);
        record
    }

    /// The `EngineStepBegin` record with the context and payload.
    pub open spec fn engine_step_begin_record(
        context: EventContext,
        data: EngineStepBeginData,
    ) -> EventRecord {
        EventRecord {
            header: context.spec_header(EventKind::EngineStepBegin),
            words: [
                data.step_id,
                join32(data.scheduled_tokens, data.prefill_tokens),
                join32(data.decode_tokens, data.queue_depth),
                join32(data.active_requests, data.expected_slices),
                join32(join16(data.kv_cache_usage_permyriad, data.reserved), 0),
                0,
                0,
                0,
            ],
        }
    }

    pub fn engine_step_begin(
        context: EventContext,
        data: EngineStepBeginData,
    ) -> (record: EventRecord)
        ensures
            record == EventRecord::engine_step_begin_record(context, data),
            record.header == context.spec_header(EventKind::EngineStepBegin),
            record.engine_step_begin_data() == data,
    {
        let words: [u64; 8] = [
            data.step_id,
            join32(data.scheduled_tokens, data.prefill_tokens),
            join32(data.decode_tokens, data.queue_depth),
            join32(data.active_requests, data.expected_slices),
            join32(join16(data.kv_cache_usage_permyriad, data.reserved), 0),
            0,
            0,
            0,
        ];
        let record = EventRecord { header: context.header(EventKind::EngineStepBegin), words };
        assert(record.words =~= EventRecord::engine_step_begin_record(context, data).words);
        record
    }

    /// The `StepRequestSlice` record with the context and payload.
    pub open spec fn step_request_slice_record(
        context: EventContext,
        data: StepRequestSliceData,
    ) -> EventRecord {
        EventRecord {
            header: context.spec_header(EventKind::StepRequestSlice),
            words: [
                data.step_id,
                data.request_id,
                data.sequence_id,
                join32(
                    data.scheduled_tokens,
                    join16(data.service_class_id, join8(data.phase.code(), data.reserved)),
                ),
                0,
                0,
                0,
                0,
            ],
        }
    }

    pub fn step_request_slice(
        context: EventContext,
        data: StepRequestSliceData,
    ) -> (record: EventRecord)
        ensures
            record == EventRecord::step_request_slice_record(context, data),
            record.header == context.spec_header(EventKind::StepRequestSlice),
            record.step_request_slice_data() == data,
    {
        let words: [u64; 8] = [
            data.step_id,
            data.request_id,
            data.sequence_id,
            join32(
                data.scheduled_tokens,
                join16(data.service_class_id, join8(data.phase.code(), data.reserved)),
            ),
            0,
            0,
            0,
            0,
        ];
        let record = EventRecord { header: context.header(EventKind::StepRequestSlice), words };
        assert(record.words =~= EventRecord::step_request_slice_record(context, data).words);
        record
    }

    /// The `EngineStepEnd` record with the context and payload.
    pub open spec fn engine_step_end_record(
        context: EventContext,
        data: EngineStepEndData,
    ) -> EventRecord {
        EventRecord {
            header: context.spec_header(EventKind::EngineStepEnd),
            words: [
                data.step_id,
                join32(
                    join16(
                        join8(data.status, data.reserved[0]),
                        join8(data.reserved[1], data.reserved[2]),
                    ),
                    join16(
                        join8(data.reserved[3], data.reserved[4]),
                        join8(data.reserved[5], data.reserved[6]),
                    ),
                ),
                0,
                0,
                0,
                0,
                0,
                0,
            ],
        }
    }

    pub fn engine_step_end(context: EventContext, data: EngineStepEndData) -> (record: EventRecord)
        ensures
            record == EventRecord::engine_step_end_record(context, data),
            record.header == context.spec_header(EventKind::EngineStepEnd),
            record.engine_step_end_data() == data,
    {
        let words: [u64; 8] = [
            data.step_id,
            join32(
                join16(
                    join8(data.status, data.reserved[0]),
                    join8(data.reserved[1], data.reserved[2]),
                ),
                join16(
                    join8(data.reserved[3], data.reserved[4]),
                    join8(data.reserved[5], data.reserved[6]),
                ),
            ),
            0,
            0,
            0,
            0,
            0,
            0,
        ];
        let record = EventRecord { header: context.header(EventKind::EngineStepEnd), words };
        assert(record.engine_step_end_data().reserved =~= data.reserved);
        assert(record.words =~= EventRecord::engine_step_end_record(context, data).words);
        record
    }

    /// The `PackedLayoutBegin` record with the context and payload.
    pub open spec fn packed_layout_begin_record(
        context: EventContext,
        data: PackedLayoutBeginData,
    ) -> EventRecord {
        EventRecord {
            header: context.spec_header(EventKind::PackedLayoutBegin),
            words: [
                data.step_id,
                data.packing_generation,
                join32(data.total_tokens, data.expected_slices),
                0,
                0,
                0,
                0,
                0,
            ],
        }
    }

    pub fn packed_layout_begin(
        context: EventContext,
        data: PackedLayoutBeginData,
    ) -> (record: EventRecord)
        ensures
            record == EventRecord::packed_layout_begin_record(context, data),
            record.header == context.spec_header(EventKind::PackedLayoutBegin),
            record.packed_layout_begin_data() == data,
    {
        let words: [u64; 8] = [
            data.step_id,
            data.packing_generation,
            join32(data.total_tokens, data.expected_slices),
            0,
            0,
            0,
            0,
            0,
        ];
        let record = EventRecord { header: context.header(EventKind::PackedLayoutBegin), words };
        assert(record.words =~= EventRecord::packed_layout_begin_record(context, data).words);
        record
    }

    /// The `PackedRequestSlice` record with the context and payload.
    pub open spec fn packed_request_slice_record(
        context: EventContext,
        data: PackedRequestSliceData,
    ) -> EventRecord {
        EventRecord {
            header: context.spec_header(EventKind::PackedRequestSlice),
            words: [
                data.step_id,
                data.request_id,
                data.packing_generation,
                join32(data.row_begin, data.row_end),
                join32(data.scheduled_tokens, data.packed_index),
                join32(
                    join16(
                        join8(data.phase.code(), data.reserved[0]),
                        join8(data.reserved[1], data.reserved[2]),
                    ),
                    join16(
                        join8(data.reserved[3], data.reserved[4]),
                        join8(data.reserved[5], data.reserved[6]),
                    ),
                ),
                0,
                0,
            ],
        }
    }

    pub fn packed_request_slice(
        context: EventContext,
        data: PackedRequestSliceData,
    ) -> (record: EventRecord)
        ensures
            record == EventRecord::packed_request_slice_record(context, data),
            record.header == context.spec_header(EventKind::PackedRequestSlice),
            record.packed_request_slice_data() == data,
    {
        let words: [u64; 8] = [
            data.step_id,
            data.request_id,
            data.packing_generation,
            join32(data.row_begin, data.row_end),
            join32(data.scheduled_tokens, data.packed_index),
            join32(
                join16(
                    join8(data.phase.code(), data.reserved[0]),
                    join8(data.reserved[1], data.reserved[2]),
                ),
                join16(
                    join8(data.reserved[3], data.reserved[4]),
                    join8(data.reserved[5], data.reserved[6]),
                ),
            ),
            0,
            0,
        ];
        let record = EventRecord { header: context.header(EventKind::PackedRequestSlice), words };
        assert(record.packed_request_slice_data().reserved =~= data.reserved);
        assert(record.words =~= EventRecord::packed_request_slice_record(context, data).words);
        record
    }

    /// The `PackedTokenRow` record with the context and payload.
    pub open spec fn packed_token_row_record(
        context: EventContext,
        data: PackedTokenRowData,
    ) -> EventRecord {
        EventRecord {
            header: context.spec_header(EventKind::PackedTokenRow),
            words: [
                data.step_id,
                data.request_id,
                data.packing_generation,
                join32(data.packed_row, data.sequence_position),
                join32(
                    data.token_id,
                    join16(
                        join8(data.phase.code(), data.reserved[0]),
                        join8(data.reserved[1], data.reserved[2]),
                    ),
                ),
                0,
                0,
                0,
            ],
        }
    }

    pub fn packed_token_row(
        context: EventContext,
        data: PackedTokenRowData,
    ) -> (record: EventRecord)
        ensures
            record == EventRecord::packed_token_row_record(context, data),
            record.header == context.spec_header(EventKind::PackedTokenRow),
            record.packed_token_row_data() == data,
    {
        let words: [u64; 8] = [
            data.step_id,
            data.request_id,
            data.packing_generation,
            join32(data.packed_row, data.sequence_position),
            join32(
                data.token_id,
                join16(
                    join8(data.phase.code(), data.reserved[0]),
                    join8(data.reserved[1], data.reserved[2]),
                ),
            ),
            0,
            0,
            0,
        ];
        let record = EventRecord { header: context.header(EventKind::PackedTokenRow), words };
        assert(record.packed_token_row_data().reserved =~= data.reserved);
        assert(record.words =~= EventRecord::packed_token_row_record(context, data).words);
        record
    }

    /// The `AcceptedOutputToken` record with the context and payload.
    pub open spec fn accepted_output_token_record(
        context: EventContext,
        data: AcceptedOutputTokenData,
    ) -> EventRecord {
        EventRecord {
            header: context.spec_header(EventKind::AcceptedOutputToken),
            words: [
                data.step_id,
                data.request_id,
                join32(data.output_position, data.token_id),
                0,
                0,
                0,
                0,
                0,
            ],
        }
    }

    pub fn accepted_output_token(
        context: EventContext,
        data: AcceptedOutputTokenData,
    ) -> (record: EventRecord)
        ensures
            record == EventRecord::accepted_output_token_record(context, data),
            record.header == context.spec_header(EventKind::AcceptedOutputToken),
            record.accepted_output_token_data() == data,
    {
        let words: [u64; 8] = [
            data.step_id,
            data.request_id,
            join32(data.output_position, data.token_id),
            0,
            0,
            0,
            0,
            0,
        ];
        let record = EventRecord { header: context.header(EventKind::AcceptedOutputToken), words };
        assert(record.words =~= EventRecord::accepted_output_token_record(context, data).words);
        record
    }

    /// The `CudaKernelLaunch` record with the context and payload.
    pub open spec fn cuda_kernel_launch_record(
        context: EventContext,
        data: CudaKernelLaunchData,
    ) -> EventRecord {
        EventRecord {
            header: context.spec_header(EventKind::CudaKernelLaunch),
            words: [
                data.correlation_id,
                data.stream,
                data.kernel_function,
                data.graph_id,
                join32(data.grid.x, data.grid.y),
                join32(data.grid.z, data.block.x),
                join32(data.block.y, data.block.z),
                join32(data.shared_memory_bytes, data.kernel_symbol_id),
            ],
        }
    }

    pub fn cuda_kernel_launch(
        context: EventContext,
        data: CudaKernelLaunchData,
    ) -> (record: EventRecord)
        ensures
            record == EventRecord::cuda_kernel_launch_record(context, data),
            record.header == context.spec_header(EventKind::CudaKernelLaunch),
            record.cuda_kernel_launch_data() == data,
    {
        let words: [u64; 8] = [
            data.correlation_id,
            data.stream,
            data.kernel_function,
            data.graph_id,
            join32(data.grid.x, data.grid.y),
            join32(data.grid.z, data.block.x),
            join32(data.block.y, data.block.z),
            join32(data.shared_memory_bytes, data.kernel_symbol_id),
        ];
        let record = EventRecord { header: context.header(EventKind::CudaKernelLaunch), words };
        assert(record.words =~= EventRecord::cuda_kernel_launch_record(context, data).words);
        record
    }

    /// The `CuptiKernelActivity` record with the context and payload.
    pub open spec fn cupti_kernel_activity_record(
        context: EventContext,
        data: CuptiKernelActivityData,
    ) -> EventRecord {
        EventRecord {
            header: context.spec_header(EventKind::CuptiKernelActivity),
            words: [
                data.correlation_id,
                data.stream,
                data.duration_ns,
                data.graph_id,
                join32(data.kernel_symbol_id, data.device_id),
                join32(data.context_id, data.reserved),
                0,
                0,
            ],
        }
    }

    pub fn cupti_kernel_activity(
        context: EventContext,
        data: CuptiKernelActivityData,
    ) -> (record: EventRecord)
        ensures
            record == EventRecord::cupti_kernel_activity_record(context, data),
            record.header == context.spec_header(EventKind::CuptiKernelActivity),
            record.cupti_kernel_activity_data() == data,
    {
        let words: [u64; 8] = [
            data.correlation_id,
            data.stream,
            data.duration_ns,
            data.graph_id,
            join32(data.kernel_symbol_id, data.device_id),
            join32(data.context_id, data.reserved),
            0,
            0,
        ];
        let record = EventRecord { header: context.header(EventKind::CuptiKernelActivity), words };
        assert(record.words =~= EventRecord::cupti_kernel_activity_record(context, data).words);
        record
    }

    /// The `CudaGraphLaunch` record with the context and payload.
    pub open spec fn cuda_graph_launch_record(
        context: EventContext,
        data: CudaGraphLaunchData,
    ) -> EventRecord {
        EventRecord {
            header: context.spec_header(EventKind::CudaGraphLaunch),
            words: [
                data.correlation_id,
                data.stream,
                data.graph_id,
                0,
                0,
                0,
                0,
                0,
            ],
        }
    }

    pub fn cuda_graph_launch(
        context: EventContext,
        data: CudaGraphLaunchData,
    ) -> (record: EventRecord)
        ensures
            record == EventRecord::cuda_graph_launch_record(context, data),
            record.header == context.spec_header(EventKind::CudaGraphLaunch),
            record.cuda_graph_launch_data() == data,
    {
        let words: [u64; 8] = [
            data.correlation_id,
            data.stream,
            data.graph_id,
            0,
            0,
            0,
            0,
            0,
        ];
        let record = EventRecord { header: context.header(EventKind::CudaGraphLaunch), words };
        assert(record.words =~= EventRecord::cuda_graph_launch_record(context, data).words);
        record
    }

    /// The `CudaMemcpy` record with the context and payload.
    pub open spec fn cuda_memcpy_record(
        context: EventContext,
        data: CudaMemcpyData,
    ) -> EventRecord {
        EventRecord {
            header: context.spec_header(EventKind::CudaMemcpy),
            words: [
                data.correlation_id,
                data.stream,
                data.bytes,
                join32(
                    join16(
                        join8(data.kind, data.asynchronous),
                        join8(data.reserved[0], data.reserved[1]),
                    ),
                    join16(
                        join8(data.reserved[2], data.reserved[3]),
                        join8(data.reserved[4], data.reserved[5]),
                    ),
                ),
                0,
                0,
                0,
                0,
            ],
        }
    }

    pub fn cuda_memcpy(context: EventContext, data: CudaMemcpyData) -> (record: EventRecord)
        ensures
            record == EventRecord::cuda_memcpy_record(context, data),
            record.header == context.spec_header(EventKind::CudaMemcpy),
            record.cuda_memcpy_data() == data,
    {
        let words: [u64; 8] = [
            data.correlation_id,
            data.stream,
            data.bytes,
            join32(
                join16(
                    join8(data.kind, data.asynchronous),
                    join8(data.reserved[0], data.reserved[1]),
                ),
                join16(
                    join8(data.reserved[2], data.reserved[3]),
                    join8(data.reserved[4], data.reserved[5]),
                ),
            ),
            0,
            0,
            0,
            0,
        ];
        let record = EventRecord { header: context.header(EventKind::CudaMemcpy), words };
        assert(record.cuda_memcpy_data().reserved =~= data.reserved);
        assert(record.words =~= EventRecord::cuda_memcpy_record(context, data).words);
        record
    }

    /// The `MetricSample` record with the context and payload.
    pub open spec fn metric_sample_record(
        context: EventContext,
        data: MetricSampleData,
    ) -> EventRecord {
        EventRecord {
            header: context.spec_header(EventKind::MetricSample),
            words: [
                data.value_bits,
                join32(data.series_id, join16(data.unit_id, data.reserved)),
                0,
                0,
                0,
                0,
                0,
                0,
            ],
        }
    }

    pub fn metric_sample(context: EventContext, data: MetricSampleData) -> (record: EventRecord)
        ensures
            record == EventRecord::metric_sample_record(context, data),
            record.header == context.spec_header(EventKind::MetricSample),
            record.metric_sample_data() == data,
    {
        let words: [u64; 8] = [
            data.value_bits,
            join32(data.series_id, join16(data.unit_id, data.reserved)),
            0,
            0,
            0,
            0,
            0,
            0,
        ];
        let record = EventRecord { header: context.header(EventKind::MetricSample), words };
        assert(record.words =~= EventRecord::metric_sample_record(context, data).words);
        record
    }

    /// The `ControlDecision` record with the context and payload.
    pub open spec fn control_decision_record(
        context: EventContext,
        data: ControlDecisionData,
    ) -> EventRecord {
        EventRecord {
            header: context.spec_header(EventKind::ControlDecision),
            words: [
                unsigned_bits(data.previous_value),
                unsigned_bits(data.new_value),
                join32(data.condition_id, data.action_id),
                join32(data.parameter_id, data.reserved),
                0,
                0,
                0,
                0,
            ],
        }
    }

    pub fn control_decision(
        context: EventContext,
        data: ControlDecisionData,
    ) -> (record: EventRecord)
        ensures
            record == EventRecord::control_decision_record(context, data),
            record.header == context.spec_header(EventKind::ControlDecision),
            record.control_decision_data() == data,
    {
        let words: [u64; 8] = [
            unsigned_bits(data.previous_value),
            unsigned_bits(data.new_value),
            join32(data.condition_id, data.action_id),
            join32(data.parameter_id, data.reserved),
            0,
            0,
            0,
            0,
        ];
        let record = EventRecord { header: context.header(EventKind::ControlDecision), words };
        assert(record.words =~= EventRecord::control_decision_record(context, data).words);
        record
    }

    pub fn as_request_received(&self) -> (r: Option<RequestReceivedData>)
        ensures
            r == if self.header.kind == EventKind::RequestReceived {
                Some(self.request_received_data())
            } else {
                None
            },
    {
        if self.header.kind == EventKind::RequestReceived {
            let words = self.words;
            let data = RequestReceivedData {
                request_id: words[0],
                input_tokens: low32(words[1]),
                requested_output_tokens: high32(words[1]),
                service_class_id: low16(low32(words[2])),
                reserved: high16(low32(words[2])),
            };
            Some(data)
        } else {
            None
        }
    }

    pub fn as_request_queued(&self) -> (r: Option<RequestQueuedData>)
        ensures
            r == if self.header.kind == EventKind::RequestQueued {
                Some(self.request_queued_data())
            } else {
                None
            },
    {
        if self.header.kind == EventKind::RequestQueued {
            let words = self.words;
            let data = RequestQueuedData {
                request_id: words[0],
                queue_depth: low32(words[1]),
                reserved: high32(words[1]),
            };
            Some(data)
        } else {
            None
        }
    }

    pub fn as_token_emitted(&self) -> (r: Option<TokenEmittedData>)
        ensures
            r == if self.header.kind == EventKind::TokenEmitted {
                Some(self.token_emitted_data())
            } else {
                None
            },
    {
        if self.header.kind == EventKind::TokenEmitted {
            let words = self.words;
            let data = TokenEmittedData {
                request_id: words[0],
                token_index: low32(words[1]),
                reserved: high32(words[1]),
            };
            Some(data)
        } else {
            None
        }
    }

    pub fn as_request_completed(&self) -> (r: Option<RequestCompletedData>)
        ensures
            r == if self.header.kind == EventKind::RequestCompleted {
                Some(self.request_completed_data())
            } else {
                None
            },
    {
        if self.header.kind == EventKind::RequestCompleted {
            let words = self.words;
            let data = RequestCompletedData {
                request_id: words[0],
                input_tokens: low32(words[1]),
                output_tokens: high32(words[1]),
                ttft_ns: words[2],
                e2e_latency_ns: words[3],
            };
            Some(data)
        } else {
            None
        }
    }

    pub fn as_engine_step_begin(&self) -> (r: Option<EngineStepBeginData>)
        ensures
            r == if self.header.kind == EventKind::EngineStepBegin {
                Some(self.engine_step_begin_data())
            } else {
                None
            },
    {
        if self.header.kind == EventKind::EngineStepBegin {
            let words = self.words;
            let data = EngineStepBeginData {
                step_id: words[0],
                scheduled_tokens: low32(words[1]),
                prefill_tokens: high32(words[1]),
                decode_tokens: low32(words[2]),
                queue_depth: high32(words[2]),
                active_requests: low32(words[3]),
                expected_slices: high32(words[3]),
                kv_cache_usage_permyriad: low16(low32(words[4])),
                reserved: high16(low32(words[4])),
            };
            Some(data)
        } else {
            None
        }
    }

    pub fn as_step_request_slice(&self) -> (r: Option<StepRequestSliceData>)
        ensures
            r == if self.header.kind == EventKind::StepRequestSlice {
                Some(self.step_request_slice_data())
            } else {
                None
            },
    {
        if self.header.kind == EventKind::StepRequestSlice {
            let words = self.words;
            let data = StepRequestSliceData {
                step_id: words[0],
                request_id: words[1],
                sequence_id: words[2],
                scheduled_tokens: low32(words[3]),
                service_class_id: low16(high32(words[3])),
                phase: RequestPhase::from_code(low8(high16(high32(words[3])))),
                reserved: high8(high16(high32(words[3]))),
            };
            Some(data)
        } else {
            None
        }
    }

    pub fn as_engine_step_end(&self) -> (r: Option<EngineStepEndData>)
        ensures
            r == if self.header.kind == EventKind::EngineStepEnd {
                Some(self.engine_step_end_data())
            } else {
                None
            },
    {
        if self.header.kind == EventKind::EngineStepEnd {
            let words = self.words;
            let data = EngineStepEndData {
                step_id: words[0],
                status: low8(low16(low32(words[1]))),
                reserved: [
                    high8(low16(low32(words[1]))),
                    low8(high16(low32(words[1]))),
                    high8(high16(low32(words[1]))),
                    low8(low16(high32(words[1]))),
                    high8(low16(high32(words[1]))),
                    low8(high16(high32(words[1]))),
                    high8(high16(high32(words[1]))),
                ],
            };
            assert(data.reserved =~= self.engine_step_end_data().reserved);
            Some(data)
        } else {
            None
        }
    }

    pub fn as_packed_layout_begin(&self) -> (r: Option<PackedLayoutBeginData>)
        ensures
            r == if self.header.kind == EventKind::PackedLayoutBegin {
                Some(self.packed_layout_begin_data())
            } else {
                None
            },
    {
        if self.header.kind == EventKind::PackedLayoutBegin {
            let words = self.words;
            let data = PackedLayoutBeginData {
                step_id: words[0],
                packing_generation: words[1],
                total_tokens: low32(words[2]),
                expected_slices: high32(words[2]),
            };
            Some(data)
        } else {
            None
        }
    }

    pub fn as_packed_request_slice(&self) -> (r: Option<PackedRequestSliceData>)
        ensures
            r == if self.header.kind == EventKind::PackedRequestSlice {
                Some(self.packed_request_slice_data())
            } else {
                None
            },
    {
        if self.header.kind == EventKind::PackedRequestSlice {
            let words = self.words;
            let data = PackedRequestSliceData {
                step_id: words[0],
                request_id: words[1],
                packing_generation: words[2],
                row_begin: low32(words[3]),
                row_end: high32(words[3]),
                scheduled_tokens: low32(words[4]),
                packed_index: high32(words[4]),
                phase: RequestPhase::from_code(low8(low16(low32(words[5])))),
                reserved: [
                    high8(low16(low32(words[5]))),
                    low8(high16(low32(words[5]))),
                    high8(high16(low32(words[5]))),
                    low8(low16(high32(words[5]))),
                    high8(low16(high32(words[5]))),
                    low8(high16(high32(words[5]))),
                    high8(high16(high32(words[5]))),
                ],
            };
            assert(data.reserved =~= self.packed_request_slice_data().reserved);
            Some(data)
        } else {
            None
        }
    }

    pub fn as_packed_token_row(&self) -> (r: Option<PackedTokenRowData>)
        ensures
            r == if self.header.kind == EventKind::PackedTokenRow {
                Some(self.packed_token_row_data())
            } else {
                None
            },
    {
        if self.header.kind == EventKind::PackedTokenRow {
            let words = self.words;
            let data = PackedTokenRowData {
                step_id: words[0],
                request_id: words[1],
                packing_generation: words[2],
                packed_row: low32(words[3]),
                sequence_position: high32(words[3]),
                token_id: low32(words[4]),
                phase: RequestPhase::from_code(low8(low16(high32(words[4])))),
                reserved: [
                    high8(low16(high32(words[4]))),
                    low8(high16(high32(words[4]))),
                    high8(high16(high32(words[4]))),
                ],
            };
            assert(data.reserved =~= self.packed_token_row_data().reserved);
            Some(data)
        } else {
            None
        }
    }

    pub fn as_accepted_output_token(&self) -> (r: Option<AcceptedOutputTokenData>)
        ensures
            r == if self.header.kind == EventKind::AcceptedOutputToken {
                Some(self.accepted_output_token_data())
            } else {
                None
            },
    {
        if self.header.kind == EventKind::AcceptedOutputToken {
            let words = self.words;
            let data = AcceptedOutputTokenData {
                step_id: words[0],
                request_id: words[1],
                output_position: low32(words[2]),
                token_id: high32(words[2]),
            };
            Some(data)
        } else {
            None
        }
    }

    pub fn as_cuda_kernel_launch(&self) -> (r: Option<CudaKernelLaunchData>)
        ensures
            r == if self.header.kind == EventKind::CudaKernelLaunch {
                Some(self.cuda_kernel_launch_data())
            } else {
                None
            },
    {
        if self.header.kind == EventKind::CudaKernelLaunch {
            let words = self.words;
            let data = CudaKernelLaunchData {
                correlation_id: words[0],
                stream: words[1],
                kernel_function: words[2],
                graph_id: words[3],
                grid: Dim3 { x: low32(words[4]), y: high32(words[4]), z: low32(words[5]) },
                block: Dim3 { x: high32(words[5]), y: low32(words[6]), z: high32(words[6]) },
                shared_memory_bytes: low32(words[7]),
                kernel_symbol_id: high32(words[7]),
            };
            Some(data)
        } else {
            None
        }
    }

    pub fn as_cupti_kernel_activity(&self) -> (r: Option<CuptiKernelActivityData>)
        ensures
            r == if self.header.kind == EventKind::CuptiKernelActivity {
                Some(self.cupti_kernel_activity_data())
            } else {
                None
            },
    {
        if self.header.kind == EventKind::CuptiKernelActivity {
            let words = self.words;
            let data = CuptiKernelActivityData {
                correlation_id: words[0],
                stream: words[1],
                duration_ns: words[2],
                graph_id: words[3],
                kernel_symbol_id: low32(words[4]),
                device_id: high32(words[4]),
                context_id: low32(words[5]),
                reserved: high32(words[5]),
            };
            Some(data)
        } else {
            None
        }
    }

    pub fn as_cuda_graph_launch(&self) -> (r: Option<CudaGraphLaunchData>)
        ensures
            r == if self.header.kind == EventKind::CudaGraphLaunch {
                Some(self.cuda_graph_launch_data())
            } else {
                None
            },
    {
        if self.header.kind == EventKind::CudaGraphLaunch {
            let words = self.words;
            let data = CudaGraphLaunchData {
                correlation_id: words[0],
                stream: words[1],
                graph_id: words[2],
            };
            Some(data)
        } else {
            None
        }
    }

    pub fn as_cuda_memcpy(&self) -> (r: Option<CudaMemcpyData>)
        ensures
            r == if self.header.kind == EventKind::CudaMemcpy {
                Some(self.cuda_memcpy_data())
            } else {
                None
            },
    {
        if self.header.kind == EventKind::CudaMemcpy {
            let words = self.words;
            let data = CudaMemcpyData {
                correlation_id: words[0],
                stream: words[1],
                bytes: words[2],
                kind: low8(low16(low32(words[3]))),
                asynchronous: high8(low16(low32(words[3]))),
                reserved: [
                    low8(high16(low32(words[3]))),
                    high8(high16(low32(words[3]))),
                    low8(low16(high32(words[3]))),
                    high8(low16(high32(words[3]))),
                    low8(high16(high32(words[3]))),
                    high8(high16(high32(words[3]))),
                ],
            };
            assert(data.reserved =~= self.cuda_memcpy_data().reserved);
            Some(data)
        } else {
            None
        }
    }

    pub fn as_metric_sample(&self) -> (r: Option<MetricSampleData>)
        ensures
            r == if self.header.kind == EventKind::MetricSample {
                Some(self.metric_sample_data())
            } else {
                None
            },
    {
        if self.header.kind == EventKind::MetricSample {
            let words = self.words;
            let data = MetricSampleData {
                value_bits: words[0],
                series_id: low32(words[1]),
                unit_id: low16(high32(words[1])),
                reserved: high16(high32(words[1])),
            };
            Some(data)
        } else {
            None
        }
    }

    pub fn as_control_decision(&self) -> (r: Option<ControlDecisionData>)
        ensures
            r == if self.header.kind == EventKind::ControlDecision {
                Some(self.control_decision_data())
            } else {
                None
            },
    {
        if self.header.kind == EventKind::ControlDecision {
            let words = self.words;
            let data = ControlDecisionData {
                previous_value: signed_bits(words[0]),
                new_value: signed_bits(words[1]),
                condition_id: low32(words[2]),
                action_id: high32(words[2]),
                parameter_id: low32(words[3]),
                reserved: high32(words[3]),
            };
            Some(data)
        } else {
            None
        }
    }

    /// The record, marked as the first one after a loss.
    pub open spec fn marked(self) -> EventRecord {
        EventRecord {
            header: EventHeader {
                flags: self.header.flags | EventFlags::DROPPED_BEFORE,
                ..self.header
            },
            words: self.words,
        }
    }

    /// Marks the record as the first one after a loss.
    pub fn mark_dropped_before(&mut self)
        ensures
            *final(self) == old(self).marked(),
    {
        self.header.flags = self.header.flags | EventFlags::DROPPED_BEFORE;
    }
}

/// A marked record carries the mark, and its other flags are as they were.
pub proof fn mark_is_visible(record: EventRecord, flag: u16)
    ensures
        record.marked().header.flagged(EventFlags::DROPPED_BEFORE),
        flag & EventFlags::DROPPED_BEFORE == 0 ==> record.marked().header.flagged(flag)
            == record.header.flagged(flag),
{
    let flags = record.header.flags;
    assert((flags | 32) & 32 != 0) by (bit_vector);
    assert(flag & 32 == 0 ==> (((flags | 32) & flag != 0) == (flags & flag != 0))) by (bit_vector);
}

} // verus!
