//! Owned report of a correlated trace, for storage and display.

use crate::event::EVENT_RECORD_BYTES;
use crate::trace_event::{Dim3, RequestSlice, CURRENT_SCHEMA_VERSION};
use vstd::prelude::*;

verus! {

#[derive(Clone, Debug)]
pub struct CorrelationReport {
    pub schema_version: u16,
    pub input_event_count: usize,
    pub hot_event_record_bytes: usize,
    pub core_index_bytes: usize,
    pub steps: Vec<CorrelatedStep>,
    pub requests: Vec<RequestExecution>,
    pub unassigned_events: Vec<UnassignedEvent>,
    pub diagnostics: Vec<Diagnostic>,
}

impl CorrelationReport {
    /// A report that says nothing yet.
    pub fn empty(input_event_count: usize) -> (report: Self)
        ensures
            report.schema_version == CURRENT_SCHEMA_VERSION,
            report.input_event_count == input_event_count,
            report.hot_event_record_bytes == EVENT_RECORD_BYTES,
            report.core_index_bytes == 0,
            report.steps@.len() == 0,
            report.requests@.len() == 0,
            report.unassigned_events@.len() == 0,
            report.diagnostics@.len() == 0,
    {
        CorrelationReport {
            schema_version: CURRENT_SCHEMA_VERSION,
            input_event_count,
            hot_event_record_bytes: EVENT_RECORD_BYTES,
            core_index_bytes: 0,
            steps: Vec::new(),
            requests: Vec::new(),
            unassigned_events: Vec::new(),
            diagnostics: Vec::new(),
        }
    }
}

/// One engine step. The cache usage is in ten-thousandths.
#[derive(Clone, Debug)]
pub struct CorrelatedStep {
    pub step_id: u64,
    pub pid: u32,
    pub begin_timestamp_ns: u64,
    pub end_timestamp_ns: Option<u64>,
    pub wall_time_ns: Option<u64>,
    pub request_slices: Vec<RequestSlice>,
    pub prefill_tokens: u32,
    pub decode_tokens: u32,
    pub scheduled_tokens: u32,
    pub queue_depth: u32,
    pub active_requests: Option<u32>,
    pub kv_cache_usage_permyriad: Option<u16>,
    pub cuda_launch_count: usize,
    pub graph_launch_count: usize,
    pub kernels: Vec<KernelExecution>,
    pub unmatched_cuda_launches: usize,
    pub kernel_time_sum_ns: u64,
    pub gpu_busy_time_ns: u64,
    pub gpu_span_ns: u64,
}

#[derive(Clone, Debug)]
pub struct KernelExecution {
    pub launch_event_id: String,
    pub activity_event_id: Option<String>,
    pub correlation_id: Option<u64>,
    pub stream: u64,
    pub kernel_function: String,
    pub kernel_name: Option<String>,
    pub grid: Dim3,
    pub block: Dim3,
    pub shared_memory_bytes: u32,
    pub graph_id: Option<u64>,
    pub host_launch_timestamp_ns: u64,
    pub gpu_start_timestamp_ns: Option<u64>,
    pub gpu_duration_ns: Option<u64>,
}

#[derive(Clone, Debug)]
pub struct RequestExecution {
    pub request_id: String,
    pub service_class: Option<String>,
    pub step_ids: Vec<u64>,
    pub shared_with_request_ids: Vec<String>,
    pub queue_delay_ns: Option<u64>,
    pub ttft_ns: Option<u64>,
    pub e2e_latency_ns: Option<u64>,
}

#[derive(Clone, Debug)]
pub struct UnassignedEvent {
    pub event_id: String,
    pub event: String,
    pub reason: String,
}

#[derive(Clone, Debug)]
pub struct Diagnostic {
    pub severity: DiagnosticSeverity,
    pub code: String,
    pub message: String,
    pub event_ids: Vec<String>,
}

#[derive(Clone, Copy, Debug, PartialEq, Eq, Structural)]
pub enum DiagnosticSeverity {
    Info,
    Warning,
    Error,
}

} // verus!
