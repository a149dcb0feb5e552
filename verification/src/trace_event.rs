//! Owned events as they are exchanged in text form, and the rules that they
//! have to meet.

use crate::digits::{append_decimal, decimal};
use crate::error::{blames, invalid, ObserverError};
use crate::text::{text_is, trim, trimmed};
use vstd::prelude::*;
use vstd::string::*;
use vstd::utf8::encode_utf8;

verus! {

pub const CURRENT_SCHEMA_VERSION: u16 = 1;

#[derive(Clone, Copy, Debug, PartialEq, Eq, Structural)]
pub enum RequestPhase {
    Prefill,
    Decode,
}

#[derive(Clone, Copy, Debug, PartialEq, Eq, Structural)]
pub struct Dim3 {
    pub x: u32,
    pub y: u32,
    pub z: u32,
}

#[derive(Clone, Debug)]
pub struct RequestSlice {
    pub request_id: String,
    pub sequence_id: Option<u64>,
    pub phase: RequestPhase,
    pub scheduled_tokens: u32,
    pub service_class: Option<String>,
}

/// The kind of an event. The cache usage of a step is in ten-thousandths, a
/// metric value is the bit pattern of its 64-bit float, and the values of a
/// control decision are in text form.
#[derive(Clone, Debug)]
pub enum EventKind {
    RequestReceived {
        request_id: String,
        service_class: Option<String>,
        input_tokens: Option<u32>,
        requested_output_tokens: Option<u32>,
    },
    RequestQueued { request_id: String, queue_depth: u32 },
    TokenEmitted { request_id: String, token_index: u32 },
    RequestCompleted {
        request_id: String,
        input_tokens: u32,
        output_tokens: u32,
        ttft_ns: Option<u64>,
        e2e_latency_ns: u64,
    },
    EngineStepBegin {
        step_id: u64,
        request_slices: Vec<RequestSlice>,
        prefill_tokens: u32,
        decode_tokens: u32,
        scheduled_tokens: u32,
        queue_depth: u32,
        active_requests: Option<u32>,
        kv_cache_usage_permyriad: Option<u16>,
    },
    EngineStepEnd { step_id: u64, status: Option<String> },
    CudaApiCall {
        function: String,
        duration_ns: Option<u64>,
        correlation_id: Option<u64>,
        stream: Option<u64>,
    },
    CudaKernelLaunch {
        correlation_id: Option<u64>,
        stream: u64,
        kernel_function: String,
        kernel_symbol: Option<String>,
        grid: Dim3,
        block: Dim3,
        shared_memory_bytes: u32,
        graph_id: Option<u64>,
    },
    CudaMemcpy {
        correlation_id: Option<u64>,
        stream: Option<u64>,
        bytes: u64,
        kind: String,
        asynchronous: bool,
    },
    CudaGraphLaunch { correlation_id: Option<u64>, stream: u64, graph_id: u64 },
    CuptiKernelActivity {
        correlation_id: u64,
        stream: u64,
        kernel_name: String,
        duration_ns: u64,
        device_id: Option<u32>,
        context_id: Option<u32>,
        graph_id: Option<u64>,
    },
    MetricSample { name: String, value_bits: u64, unit: String, labels: Vec<(String, String)> },
    ControlDecision {
        condition: String,
        action: String,
        previous_value: String,
        new_value: String,
        observed_result: Option<String>,
    },
}

#[derive(Clone, Debug)]
pub struct Event {
    pub schema_version: u16,
    pub event_id: String,
    pub source: String,
    pub timestamp_ns: u64,
    pub clock_domain: String,
    pub normalized_timestamp_ns: Option<u64>,
    pub pid: u32,
    pub tid: Option<u32>,
    pub kind: EventKind,
}

/// Whether the text is nothing but white space.
pub open spec fn blank(text: Seq<char>) -> bool {
    trimmed(encode_utf8(text)).len() == 0
}

fn is_blank(text: &str) -> (r: bool)
    ensures
        r == blank(text@),
{
    trim(text.as_bytes()).len() == 0
}

/// The tokens of all slices together.
pub open spec fn slice_tokens(slices: Seq<RequestSlice>) -> int
    decreases slices.len(),
{
    if slices.len() == 0 {
        0
    } else {
        slice_tokens(slices.drop_last()) + slices.last().scheduled_tokens
    }
}

fn total_tokens(slices: &Vec<RequestSlice>) -> (r: u128)
    ensures
        r == slice_tokens(slices@),
{
    let mut total: u128 = 0;
    let mut i: usize = 0;
    assert(slices@.take(0) =~= Seq::<RequestSlice>::empty());
    while i < slices.len()
        invariant
            i <= slices.len(),
            total == slice_tokens(slices@.take(i as int)),
            total <= i * 0xffff_ffff,
        decreases slices.len() - i,
    {
        assert(slices@.take(i + 1).drop_last() =~= slices@.take(i as int));
        total = total + slices[i].scheduled_tokens as u128;
        i = i + 1;
    }
    assert(slices@.take(i as int) =~= slices@);
    total
}

/// What is wrong with the kind of an event, if anything.
pub open spec fn kind_problem(kind: EventKind) -> Option<Seq<char>> {
    match kind {
        EventKind::EngineStepBegin {
            request_slices,
            prefill_tokens,
            decode_tokens,
            scheduled_tokens,
            ..
        } => if slice_tokens(request_slices@) != scheduled_tokens {
            Some("sum(request_slices.scheduled_tokens) must equal scheduled_tokens"@)
        } else if prefill_tokens.saturating_add(decode_tokens) != scheduled_tokens {
            Some("prefill_tokens + decode_tokens must equal scheduled_tokens"@)
        } else {
            None
        },
        EventKind::CuptiKernelActivity { duration_ns, .. } => if duration_ns == 0 {
            Some("CUPTI kernel duration must be greater than zero"@)
        } else {
            None
        },
        EventKind::CudaKernelLaunch { kernel_function, .. } => if blank(kernel_function@) {
            Some("kernel_function must not be empty"@)
        } else {
            None
        },
        _ => None,
    }
}

impl Event {
    /// The time by which the event is correlated.
    pub open spec fn correlation_time(self) -> u64 {
        match self.normalized_timestamp_ns {
            Some(normalized) => normalized,
            None => self.timestamp_ns,
        }
    }

    pub fn correlation_timestamp_ns(&self) -> (r: u64)
        ensures
            r == self.correlation_time(),
    {
        match self.normalized_timestamp_ns {
            Some(normalized) => normalized,
            None => self.timestamp_ns,
        }
    }

    /// Whether the time of the event is on the common clock.
    pub open spec fn clock_normalized(self) -> bool {
        self.normalized_timestamp_ns is Some || self.clock_domain@ == "monotonic"@
    }

    pub fn is_clock_normalized(&self) -> (r: bool)
        ensures
            r == self.clock_normalized(),
    {
        self.normalized_timestamp_ns.is_some() || text_is(self.clock_domain.as_str(), "monotonic")
    }

    /// The first rule that the event breaks, in words.
    pub open spec fn problem(self) -> Option<Seq<char>> {
        if self.schema_version != CURRENT_SCHEMA_VERSION {
            Some(
                "unsupported schema version "@ + decimal(self.schema_version as nat)
                    + "; expected "@ + decimal(CURRENT_SCHEMA_VERSION as nat),
            )
        } else if blank(self.event_id@) {
            Some("event_id must not be empty"@)
        } else if blank(self.source@) {
            Some("source must not be empty"@)
        } else if blank(self.clock_domain@) {
            Some("clock_domain must not be empty"@)
        } else {
            kind_problem(self.kind)
        }
    }

    /// Holds the event against the rules and reports the first that it breaks.
    pub fn validate(&self) -> (r: Result<(), ObserverError>)
        ensures
            r is Ok <==> self.problem() is None,
            r matches Err(error) ==> blames(error, self.event_id@, self.problem()->0),
    {
        let id = self.event_id.as_str();
        if self.schema_version != CURRENT_SCHEMA_VERSION {
            let mut text = "unsupported schema version ".to_owned();
            append_decimal(&mut text, self.schema_version as u64);
            text.append("; expected ");
            append_decimal(&mut text, CURRENT_SCHEMA_VERSION as u64);
            return Err(invalid(id, text.as_str()));
        }
        if is_blank(id) {
            return Err(invalid(id, "event_id must not be empty"));
        }
        if is_blank(self.source.as_str()) {
            return Err(invalid(id, "source must not be empty"));
        }
        if is_blank(self.clock_domain.as_str()) {
            return Err(invalid(id, "clock_domain must not be empty"));
        }
        match &self.kind {
            EventKind::EngineStepBegin {
                request_slices,
                prefill_tokens,
                decode_tokens,
                scheduled_tokens,
                ..
            } => {
                let slice_total: u128 = total_tokens(request_slices);
                let phase_total: u32 = prefill_tokens.saturating_add(*decode_tokens);
                if slice_total != *scheduled_tokens as u128 {
                    return Err(
                        invalid(
                            id,
                            "sum(request_slices.scheduled_tokens) must equal scheduled_tokens",
                        ),
                    );
                }
                if phase_total != *scheduled_tokens {
                    return Err(
                        invalid(
                            id,
                            "prefill_tokens + decode_tokens must equal scheduled_tokens",
                        ),
                    );
                }
            },
            EventKind::CuptiKernelActivity { duration_ns, .. } => {
                if *duration_ns == 0 {
                    return Err(invalid(id, "CUPTI kernel duration must be greater than zero"));
                }
            },
            EventKind::CudaKernelLaunch { kernel_function, .. } => {
                if is_blank(kernel_function.as_str()) {
                    return Err(invalid(id, "kernel_function must not be empty"));
                }
            },
            _ => {},
        }
        Ok(())
    }
}

} // verus!
