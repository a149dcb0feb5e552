//! Verified core of a GPU observer: bounded event transport,
//! trace correlation, interval accounting and the trace file formats.

pub mod blocks;
pub mod bridge;
pub mod bridge_laws;
pub mod bundle;
pub mod bundle_laws;
pub mod bundle_view;
pub mod bytes;
pub mod client;
pub mod clock;
pub mod compact;
pub mod compact_laws;
pub mod correlation;
pub mod count_laws;
pub mod cupti;
pub mod cupti_join;
pub mod cupti_laws;
pub mod deep_laws;
pub mod deep_replay;
pub mod digits;
pub mod dump;
pub mod emitter;
pub mod error;
pub mod event;
pub mod focus;
pub mod full_step;
pub mod full_step_laws;
pub mod graph;
pub mod graph_join;
pub mod graph_laws;
pub mod host_join;
pub mod host_laws;
pub mod index;
pub mod intervals;
pub mod json;
pub mod jsonl;
pub mod launch;
pub mod lifecycle;
pub mod lifecycle_join;
pub mod lifecycle_laws;
pub mod live;
pub mod manifest;
pub mod msgpack;
pub mod names;
pub mod number_fault;
pub mod oracle;
pub mod oracle_laws;
pub mod order;
pub mod ownership;
pub mod ownership_laws;
pub mod page;
pub mod pairing;
pub mod policy;
pub mod query;
pub mod reading_laws;
pub mod record_text;
pub mod replay;
pub mod report;
pub mod report_laws;
pub mod reporting;
pub mod ring;
pub mod sample_tables;
pub mod samples;
pub mod samples_join;
pub mod samples_laws;
pub mod sanitizer;
pub mod sass;
pub mod semantic;
pub mod step_laws;
pub mod storage;
pub mod streams;
pub mod sums;
pub mod table_laws;
pub mod tables;
pub mod tally_laws;
pub mod text;
pub mod tick_laws;
pub mod timing_laws;
pub mod trace_event;
pub mod trace_laws;
pub mod ui_state;
pub mod window_laws;
pub mod words;
