//! CUPTI traces: kernel activities, API calls, and the summary of a capture.

use crate::clock::{ClockMap, ClockPair};
use crate::digits::{decimal, decimal_text};
use crate::index::IdIndex;
use crate::record_text::{
    append_record_text, record_words, shown_fields, signed_decimal, signed_text,
};
use crate::tables::{
    i32_of, is_comment, line_is_comment, line_opens_with, load_table, number_error,
    number_error_text, opens_with, out_of_bounds, read_i32, read_u32, read_u64, row_error,
    row_error_text, size_complaint, size_complaint_text, table_of, u32_of, u64_of, LineKind,
    NumberShape, TraceTable, TAB,
};
use crate::text::{
    all_text, are_text, contains, fields, fields_of, has_part, lines, lines_of, not_text,
    not_text_words, views,
};
use crate::trace_event::Dim3;
use vstd::prelude::*;
use vstd::string::*;
use vstd::utf8::encode_utf8;

verus! {

pub const MAX_ACTIVITY_BYTES: usize = 67_108_864;

pub const MAX_API_BYTES: usize = 67_108_864;

pub const MAX_SUMMARY_BYTES: usize = 1_048_576;

pub const MAX_RECORDS: usize = 1_000_000;

// Kernel families.

/// The kinds of kernels that a transformer step runs.
#[derive(Clone, Copy, Debug, PartialEq, Eq, Structural)]
pub enum KernelFamily {
    LayerNorm,
    Gemm,
    QkNorm,
    Rotary,
    KvCache,
    Attention,
    Activation,
    Sampling,
    Copy,
    Other,
}

/// How many families there are.
pub const FAMILY_COUNT: usize = 10;

impl KernelFamily {
    pub open spec fn spec_index(self) -> int {
        match self {
            KernelFamily::LayerNorm => 0,
            KernelFamily::Gemm => 1,
            KernelFamily::QkNorm => 2,
            KernelFamily::Rotary => 3,
            KernelFamily::KvCache => 4,
            KernelFamily::Attention => 5,
            KernelFamily::Activation => 6,
            KernelFamily::Sampling => 7,
            KernelFamily::Copy => 8,
            KernelFamily::Other => 9,
        }
    }

    /// The place of the family in the order of the families.
    pub fn index(self) -> (r: usize)
        ensures
            r == self.spec_index(),
            r < FAMILY_COUNT,
    {
        match self {
            KernelFamily::LayerNorm => 0,
            KernelFamily::Gemm => 1,
            KernelFamily::QkNorm => 2,
            KernelFamily::Rotary => 3,
            KernelFamily::KvCache => 4,
            KernelFamily::Attention => 5,
            KernelFamily::Activation => 6,
            KernelFamily::Sampling => 7,
            KernelFamily::Copy => 8,
            KernelFamily::Other => 9,
        }
    }

    /// The family at the place.
    pub fn at(index: usize) -> (r: KernelFamily)
        requires
            index < FAMILY_COUNT,
        ensures
            r.spec_index() == index,
    {
        match index {
            0 => KernelFamily::LayerNorm,
            1 => KernelFamily::Gemm,
            2 => KernelFamily::QkNorm,
            3 => KernelFamily::Rotary,
            4 => KernelFamily::KvCache,
            5 => KernelFamily::Attention,
            6 => KernelFamily::Activation,
            7 => KernelFamily::Sampling,
            8 => KernelFamily::Copy,
            _ => KernelFamily::Other,
        }
    }

    pub open spec fn spec_label(self) -> Seq<char> {
        match self {
            KernelFamily::LayerNorm => "layer_norm"@,
            KernelFamily::Gemm => "gemm_projection"@,
            KernelFamily::QkNorm => "qk_norm"@,
            KernelFamily::Rotary => "rotary"@,
            KernelFamily::KvCache => "kv_cache_write"@,
            KernelFamily::Attention => "attention"@,
            KernelFamily::Activation => "activation"@,
            KernelFamily::Sampling => "sampling"@,
            KernelFamily::Copy => "copy"@,
            KernelFamily::Other => "other"@,
        }
    }

    pub fn label(self) -> (r: &'static str)
        ensures
            r@ == self.spec_label(),
    {
        match self {
            KernelFamily::LayerNorm => "layer_norm",
            KernelFamily::Gemm => "gemm_projection",
            KernelFamily::QkNorm => "qk_norm",
            KernelFamily::Rotary => "rotary",
            KernelFamily::KvCache => "kv_cache_write",
            KernelFamily::Attention => "attention",
            KernelFamily::Activation => "activation",
            KernelFamily::Sampling => "sampling",
            KernelFamily::Copy => "copy",
            KernelFamily::Other => "other",
        }
    }
}

/// Whether the name holds the word.
pub open spec fn names(name: Seq<u8>, word: Seq<char>) -> bool {
    contains(name, encode_utf8(word))
}

fn has_word(name: &[u8], word: &str) -> (r: bool)
    ensures
        r == names(name@, word@),
{
    has_part(name, word.as_bytes())
}

/// The family of a kernel, by the first pattern that its name holds.
pub open spec fn family_of(name: Seq<u8>) -> KernelFamily {
    if names(name, "reshape_and_cache"@) || names(name, "cache_kernel"@) {
        KernelFamily::KvCache
    } else if names(name, "flash_fwd"@) || names(name, "attention"@) {
        KernelFamily::Attention
    } else if names(name, "triton_red_fused_3"@) || names(name, "q_norm"@) || names(
        name,
        "k_norm"@,
    ) {
        KernelFamily::QkNorm
    } else if names(name, "triton_poi_fused_4"@) || names(name, "rotary"@) {
        KernelFamily::Rotary
    } else if names(name, "mul_silu"@) || names(name, "SiluAndMul"@) {
        KernelFamily::Activation
    } else if names(name, "rsqrt"@) || names(name, "rms_norm"@) {
        KernelFamily::LayerNorm
    } else if names(name, "gemvx"@) || names(name, "gemm"@) || names(name, "cutlass"@) || names(
        name,
        "nvjet"@,
    ) || names(name, "cublas"@) {
        KernelFamily::Gemm
    } else if names(name, "radix_sort"@) || names(name, "SoftMax"@) || names(name, "softmax"@)
        || names(name, "distribution_"@) || names(name, "scatter_gather"@) || names(
        name,
        "ArgMax"@,
    ) || names(name, "reduce_kernel"@) || names(name, "DeviceScan"@) || names(
        name,
        "masked_fill"@,
    ) {
        KernelFamily::Sampling
    } else if names(name, "memcpy"@) || names(name, "copy_kernel"@) {
        KernelFamily::Copy
    } else {
        KernelFamily::Other
    }
}

/// The family of a kernel, by the first pattern that its name holds.
pub fn classify_kernel(name: &[u8]) -> (r: KernelFamily)
    ensures
        r == family_of(name@),
{
    if has_word(name, "reshape_and_cache") || has_word(name, "cache_kernel") {
        KernelFamily::KvCache
    } else if has_word(name, "flash_fwd") || has_word(name, "attention") {
        KernelFamily::Attention
    } else if has_word(name, "triton_red_fused_3") || has_word(name, "q_norm") || has_word(
        name,
        "k_norm",
    ) {
        KernelFamily::QkNorm
    } else if has_word(name, "triton_poi_fused_4") || has_word(name, "rotary") {
        KernelFamily::Rotary
    } else if has_word(name, "mul_silu") || has_word(name, "SiluAndMul") {
        KernelFamily::Activation
    } else if has_word(name, "rsqrt") || has_word(name, "rms_norm") {
        KernelFamily::LayerNorm
    } else if has_word(name, "gemvx") || has_word(name, "gemm") || has_word(name, "cutlass")
        || has_word(name, "nvjet") || has_word(name, "cublas") {
        KernelFamily::Gemm
    } else if has_word(name, "radix_sort") || has_word(name, "SoftMax") || has_word(name, "softmax")
        || has_word(name, "distribution_") || has_word(name, "scatter_gather") || has_word(
        name,
        "ArgMax",
    ) || has_word(name, "reduce_kernel") || has_word(name, "DeviceScan") || has_word(
        name,
        "masked_fill",
    ) {
        KernelFamily::Sampling
    } else if has_word(name, "memcpy") || has_word(name, "copy_kernel") {
        KernelFamily::Copy
    } else {
        KernelFamily::Other
    }
}

// Kernel activities.

/// A kernel activity with its launch geometry.
#[derive(Clone, Copy, Debug, PartialEq, Eq, Structural)]
pub struct KernelActivity {
    pub start_ns: u64,
    pub end_ns: u64,
    pub stream: u32,
    pub correlation: u32,
    pub graph_node_id: u64,
    pub graph_id: u32,
    pub grid: Dim3,
    pub block: Dim3,
}

/// A kernel activity with its family.
#[derive(Clone, Copy, Debug, PartialEq, Eq, Structural)]
pub struct FamilyActivity {
    pub start_ns: u64,
    pub end_ns: u64,
    pub stream: u32,
    pub correlation: u32,
    pub graph_node_id: u64,
    pub graph_id: u32,
    pub family: KernelFamily,
}

pub open spec fn dims_of(f: Seq<Seq<u8>>, i: int) -> Option<Dim3> {
    match (u32_of(f[i]), u32_of(f[i + 1]), u32_of(f[i + 2])) {
        (Some(x), Some(y), Some(z)) => Some(Dim3 { x, y, z }),
        _ => None,
    }
}

pub(crate) fn read_dims(f: &Vec<&[u8]>, i: usize) -> (r: Option<Dim3>)
    requires
        i + 2 < f.len(),
    ensures
        r == dims_of(views(f@), i as int),
{
    match (read_u32(f[i]), read_u32(f[i + 1]), read_u32(f[i + 2])) {
        (Some(x), Some(y), Some(z)) => Some(Dim3 { x, y, z }),
        _ => None,
    }
}

/// The columns of a kernel row that hold numbers, in the order in which they are read.
pub open spec fn kernel_columns() -> Seq<(usize, NumberShape)> {
    seq![
        (0usize, NumberShape::U64),
        (1usize, NumberShape::U64),
        (4usize, NumberShape::U32),
        (5usize, NumberShape::U32),
        (7usize, NumberShape::U64),
        (8usize, NumberShape::U32),
        (9usize, NumberShape::U32),
        (10usize, NumberShape::U32),
        (11usize, NumberShape::U32),
        (12usize, NumberShape::U32),
        (13usize, NumberShape::U32),
        (14usize, NumberShape::U32),
    ]
}

fn kernel_columns_list() -> (list: Vec<(usize, NumberShape)>)
    ensures
        list@ == kernel_columns(),
{
    let list: Vec<(usize, NumberShape)> = vec![
        (0usize, NumberShape::U64),
        (1usize, NumberShape::U64),
        (4usize, NumberShape::U32),
        (5usize, NumberShape::U32),
        (7usize, NumberShape::U64),
        (8usize, NumberShape::U32),
        (9usize, NumberShape::U32),
        (10usize, NumberShape::U32),
        (11usize, NumberShape::U32),
        (12usize, NumberShape::U32),
        (13usize, NumberShape::U32),
        (14usize, NumberShape::U32),
    ];
    assert(list@ =~= kernel_columns());
    list
}

/// The kernel activities of a capture, with their launch geometry.
pub struct KernelTable;

impl TraceTable for KernelTable {
    type Row = KernelActivity;

    open spec fn kind_of(line: Seq<u8>) -> LineKind {
        if opens_with(line, "# format=GOCUPTI01 "@) {
            LineKind::Format
        } else if opens_with(line, "start_ns\tend_ns\tdevice\t"@) {
            LineKind::Titles
        } else if is_comment(line) {
            LineKind::Comment
        } else {
            LineKind::Row
        }
    }

    open spec fn row_of(line: Seq<u8>, number: nat, rows_before: nat) -> Result<
        KernelActivity,
        Seq<char>,
    > {
        let f = fields_of(line, TAB);
        if f.len() != 18 {
            Err(row_error("kernel row "@, number, " is malformed"@))
        } else {
            match (
                u64_of(f[0]),
                u64_of(f[1]),
                u32_of(f[4]),
                u32_of(f[5]),
                u64_of(f[7]),
                u32_of(f[8]),
                dims_of(f, 9),
                dims_of(f, 12),
            ) {
                (
                    Some(start_ns),
                    Some(end_ns),
                    Some(stream),
                    Some(correlation),
                    Some(graph_node_id),
                    Some(graph_id),
                    Some(grid),
                    Some(block),
                ) => if start_ns == 0 || end_ns <= start_ns || correlation == 0 || f[17].len()
                    == 0 {
                    Err(row_error("kernel row "@, number, " is invalid"@))
                } else {
                    Ok(
                        KernelActivity {
                            start_ns,
                            end_ns,
                            stream,
                            correlation,
                            graph_node_id,
                            graph_id,
                            grid,
                            block,
                        },
                    )
                },
                _ => Err(number_error(f, kernel_columns())),
            }
        }
    }

    open spec fn max_rows() -> nat {
        MAX_RECORDS as nat
    }

    open spec fn excess() -> Seq<char> {
        "CUPTI kernel trace exceeds collector bound"@
    }

    open spec fn refusal() -> Seq<char> {
        ""@
    }

    fn line_kind(line: &[u8]) -> (r: LineKind) {
        if line_opens_with(line, "# format=GOCUPTI01 ") {
            LineKind::Format
        } else if line_opens_with(line, "start_ns\tend_ns\tdevice\t") {
            LineKind::Titles
        } else if line_is_comment(line) {
            LineKind::Comment
        } else {
            LineKind::Row
        }
    }

    fn read_row(line: &[u8], number: usize, rows_before: usize) -> (r: Result<
        KernelActivity,
        String,
    >) {
        let f = fields(line, TAB);
        if f.len() != 18 {
            return Err(row_error_text("kernel row ", number, " is malformed"));
        }
        match (
            read_u64(f[0]),
            read_u64(f[1]),
            read_u32(f[4]),
            read_u32(f[5]),
            read_u64(f[7]),
            read_u32(f[8]),
            read_dims(&f, 9),
            read_dims(&f, 12),
        ) {
            (
                Some(start_ns),
                Some(end_ns),
                Some(stream),
                Some(correlation),
                Some(graph_node_id),
                Some(graph_id),
                Some(grid),
                Some(block),
            ) => {
                if start_ns == 0 || end_ns <= start_ns || correlation == 0 || f[17].len() == 0 {
                    return Err(row_error_text("kernel row ", number, " is invalid"));
                }
                Ok(
                    KernelActivity {
                        start_ns,
                        end_ns,
                        stream,
                        correlation,
                        graph_node_id,
                        graph_id,
                        grid,
                        block,
                    },
                )
            },
            _ => Err(number_error_text(&f, &kernel_columns_list())),
        }
    }

    fn row_limit() -> (r: usize) {
        MAX_RECORDS
    }

    fn excess_text() -> (r: &'static str) {
        "CUPTI kernel trace exceeds collector bound"
    }

    fn refusal_text() -> (r: &'static str) {
        ""
    }
}


/// The columns of a kernel row that hold numbers, where its geometry is not read.
pub open spec fn family_columns() -> Seq<(usize, NumberShape)> {
    seq![
        (0usize, NumberShape::U64),
        (1usize, NumberShape::U64),
        (4usize, NumberShape::U32),
        (5usize, NumberShape::U32),
        (7usize, NumberShape::U64),
        (8usize, NumberShape::U32),
    ]
}

fn family_columns_list() -> (list: Vec<(usize, NumberShape)>)
    ensures
        list@ == family_columns(),
{
    let list: Vec<(usize, NumberShape)> = vec![
        (0usize, NumberShape::U64),
        (1usize, NumberShape::U64),
        (4usize, NumberShape::U32),
        (5usize, NumberShape::U32),
        (7usize, NumberShape::U64),
        (8usize, NumberShape::U32),
    ];
    assert(list@ =~= family_columns());
    list
}

/// The kernel activities of a capture that was not filtered, with their
/// families.
pub struct FamilyTable;

impl TraceTable for FamilyTable {
    type Row = FamilyActivity;

    open spec fn kind_of(line: Seq<u8>) -> LineKind {
        if opens_with(line, "# format=GOCUPTI01 "@) {
            if names(line, "target=<all>"@) {
                LineKind::Format
            } else {
                LineKind::Refused
            }
        } else if opens_with(line, "start_ns\tend_ns\tdevice\t"@) {
            LineKind::Titles
        } else if is_comment(line) {
            LineKind::Comment
        } else {
            LineKind::Row
        }
    }

    open spec fn row_of(line: Seq<u8>, number: nat, rows_before: nat) -> Result<
        FamilyActivity,
        Seq<char>,
    > {
        let f = fields_of(line, TAB);
        if f.len() != 18 {
            Err(row_error("kernel row "@, number, " is malformed"@))
        } else {
            match (
                u64_of(f[0]),
                u64_of(f[1]),
                u32_of(f[4]),
                u32_of(f[5]),
                u64_of(f[7]),
                u32_of(f[8]),
            ) {
                (
                    Some(start_ns),
                    Some(end_ns),
                    Some(stream),
                    Some(correlation),
                    Some(graph_node_id),
                    Some(graph_id),
                ) => if start_ns == 0 || end_ns <= start_ns || correlation == 0 || f[17].len()
                    == 0 {
                    Err(row_error("kernel row "@, number, " is invalid"@))
                } else {
                    Ok(
                        FamilyActivity {
                            start_ns,
                            end_ns,
                            stream,
                            correlation,
                            graph_node_id,
                            graph_id,
                            family: family_of(f[17]),
                        },
                    )
                },
                _ => Err(number_error(f, family_columns())),
            }
        }
    }

    open spec fn max_rows() -> nat {
        MAX_RECORDS as nat
    }

    open spec fn excess() -> Seq<char> {
        "CUPTI kernel trace exceeds collector bound"@
    }

    open spec fn refusal() -> Seq<char> {
        "CUPTI activity trace is filtered; full-step analysis requires target=<all>"@
    }

    fn line_kind(line: &[u8]) -> (r: LineKind) {
        if line_opens_with(line, "# format=GOCUPTI01 ") {
            if has_word(line, "target=<all>") {
                LineKind::Format
            } else {
                LineKind::Refused
            }
        } else if line_opens_with(line, "start_ns\tend_ns\tdevice\t") {
            LineKind::Titles
        } else if line_is_comment(line) {
            LineKind::Comment
        } else {
            LineKind::Row
        }
    }

    fn read_row(line: &[u8], number: usize, rows_before: usize) -> (r: Result<
        FamilyActivity,
        String,
    >) {
        let f = fields(line, TAB);
        if f.len() != 18 {
            return Err(row_error_text("kernel row ", number, " is malformed"));
        }
        match (
            read_u64(f[0]),
            read_u64(f[1]),
            read_u32(f[4]),
            read_u32(f[5]),
            read_u64(f[7]),
            read_u32(f[8]),
        ) {
            (
                Some(start_ns),
                Some(end_ns),
                Some(stream),
                Some(correlation),
                Some(graph_node_id),
                Some(graph_id),
            ) => {
                if start_ns == 0 || end_ns <= start_ns || correlation == 0 || f[17].len() == 0 {
                    return Err(row_error_text("kernel row ", number, " is invalid"));
                }
                Ok(
                    FamilyActivity {
                        start_ns,
                        end_ns,
                        stream,
                        correlation,
                        graph_node_id,
                        graph_id,
                        family: classify_kernel(f[17]),
                    },
                )
            },
            _ => Err(number_error_text(&f, &family_columns_list())),
        }
    }

    fn row_limit() -> (r: usize) {
        MAX_RECORDS
    }

    fn excess_text() -> (r: &'static str) {
        "CUPTI kernel trace exceeds collector bound"
    }

    fn refusal_text() -> (r: &'static str) {
        "CUPTI activity trace is filtered; full-step analysis requires target=<all>"
    }
}

// API calls.

/// A call of the CUDA runtime or driver.
#[derive(Clone, Copy, Debug, PartialEq, Eq, Structural)]
pub struct ApiActivity {
    pub start_ns: u64,
    pub end_ns: u64,
    pub process: u32,
    pub correlation: u32,
    pub return_value: u32,
}

pub open spec fn api_line_kind(line: Seq<u8>) -> LineKind {
    if opens_with(line, "# format=GOCUPTI_RUNTIME01 "@) || opens_with(
        line,
        "# format=GOCUPTI_API01 "@,
    ) {
        LineKind::Format
    } else if opens_with(line, "start_ns\tend_ns\tprocess\t"@) {
        LineKind::Titles
    } else if is_comment(line) {
        LineKind::Comment
    } else {
        LineKind::Row
    }
}

pub(crate) fn read_api_line_kind(line: &[u8]) -> (r: LineKind)
    ensures
        r == api_line_kind(line@),
{
    if line_opens_with(line, "# format=GOCUPTI_RUNTIME01 ") || line_opens_with(
        line,
        "# format=GOCUPTI_API01 ",
    ) {
        LineKind::Format
    } else if line_opens_with(line, "start_ns\tend_ns\tprocess\t") {
        LineKind::Titles
    } else if line_is_comment(line) {
        LineKind::Comment
    } else {
        LineKind::Row
    }
}

/// The columns of a call row that hold numbers, in the order in which they are read.
pub open spec fn api_columns() -> Seq<(usize, NumberShape)> {
    seq![
        (0usize, NumberShape::U64),
        (1usize, NumberShape::U64),
        (2usize, NumberShape::U32),
        (4usize, NumberShape::U32),
        (6usize, NumberShape::U32),
    ]
}

fn api_columns_list() -> (list: Vec<(usize, NumberShape)>)
    ensures
        list@ == api_columns(),
{
    let list: Vec<(usize, NumberShape)> = vec![
        (0usize, NumberShape::U64),
        (1usize, NumberShape::U64),
        (2usize, NumberShape::U32),
        (4usize, NumberShape::U32),
        (6usize, NumberShape::U32),
    ];
    assert(list@ =~= api_columns());
    list
}

pub open spec fn api_of(label: Seq<char>, line: Seq<u8>, number: nat) -> Result<
    ApiActivity,
    Seq<char>,
> {
    let f = fields_of(line, TAB);
    if f.len() != 7 {
        Err(row_error(label, number, " is malformed"@))
    } else {
        match (u64_of(f[0]), u64_of(f[1]), u32_of(f[2]), u32_of(f[4]), u32_of(f[6])) {
            (
                Some(start_ns),
                Some(end_ns),
                Some(process),
                Some(correlation),
                Some(return_value),
            ) => if start_ns == 0 || end_ns < start_ns || correlation == 0 {
                Err(row_error(label, number, " is invalid"@))
            } else {
                Ok(ApiActivity { start_ns, end_ns, process, correlation, return_value })
            },
            _ => Err(number_error(f, api_columns())),
        }
    }
}

fn read_api(label: &str, line: &[u8], number: usize) -> (r: Result<ApiActivity, String>)
    ensures
        match (r, api_of(label@, line@, number as nat)) {
            (Ok(row), Ok(expected)) => row == expected,
            (Err(error), Err(expected)) => error@ == expected,
            _ => false,
        },
{
    let f = fields(line, TAB);
    if f.len() != 7 {
        return Err(row_error_text(label, number, " is malformed"));
    }
    match (read_u64(f[0]), read_u64(f[1]), read_u32(f[2]), read_u32(f[4]), read_u32(f[6])) {
        (
            Some(start_ns),
            Some(end_ns),
            Some(process),
            Some(correlation),
            Some(return_value),
        ) => {
            if start_ns == 0 || end_ns < start_ns || correlation == 0 {
                return Err(row_error_text(label, number, " is invalid"));
            }
            Ok(ApiActivity { start_ns, end_ns, process, correlation, return_value })
        },
        _ => Err(number_error_text(&f, &api_columns_list())),
    }
}

/// The runtime calls of a capture.
pub struct RuntimeTable;

impl TraceTable for RuntimeTable {
    type Row = ApiActivity;

    open spec fn kind_of(line: Seq<u8>) -> LineKind {
        api_line_kind(line)
    }

    open spec fn row_of(line: Seq<u8>, number: nat, rows_before: nat) -> Result<
        ApiActivity,
        Seq<char>,
    > {
        api_of("runtime row "@, line, number)
    }

    open spec fn max_rows() -> nat {
        MAX_RECORDS as nat
    }

    open spec fn excess() -> Seq<char> {
        "CUPTI runtime trace exceeds collector bound"@
    }

    open spec fn refusal() -> Seq<char> {
        ""@
    }

    fn line_kind(line: &[u8]) -> (r: LineKind) {
        read_api_line_kind(line)
    }

    fn read_row(line: &[u8], number: usize, rows_before: usize) -> (r: Result<
        ApiActivity,
        String,
    >) {
        read_api("runtime row ", line, number)
    }

    fn row_limit() -> (r: usize) {
        MAX_RECORDS
    }

    fn excess_text() -> (r: &'static str) {
        "CUPTI runtime trace exceeds collector bound"
    }

    fn refusal_text() -> (r: &'static str) {
        ""
    }
}

/// The runtime and driver calls of a capture.
pub struct ApiTable;

impl TraceTable for ApiTable {
    type Row = ApiActivity;

    open spec fn kind_of(line: Seq<u8>) -> LineKind {
        api_line_kind(line)
    }

    open spec fn row_of(line: Seq<u8>, number: nat, rows_before: nat) -> Result<
        ApiActivity,
        Seq<char>,
    > {
        api_of("api row "@, line, number)
    }

    open spec fn max_rows() -> nat {
        MAX_RECORDS as nat
    }

    open spec fn excess() -> Seq<char> {
        "CUPTI api trace exceeds collector bound"@
    }

    open spec fn refusal() -> Seq<char> {
        ""@
    }

    fn line_kind(line: &[u8]) -> (r: LineKind) {
        read_api_line_kind(line)
    }

    fn read_row(line: &[u8], number: usize, rows_before: usize) -> (r: Result<
        ApiActivity,
        String,
    >) {
        read_api("api row ", line, number)
    }

    fn row_limit() -> (r: usize) {
        MAX_RECORDS
    }

    fn excess_text() -> (r: &'static str) {
        "CUPTI api trace exceeds collector bound"
    }

    fn refusal_text() -> (r: &'static str) {
        ""
    }
}

/// The rows of a table that names its format and its columns.
pub open spec fn titled_rows<T: TraceTable>(
    s: Seq<u8>,
    max: nat,
    path: Seq<char>,
    untitled: Seq<char>,
) -> Result<Seq<T::Row>, Seq<char>> {
    if out_of_bounds(s.len(), max) {
        Err(size_complaint(s.len(), path))
    } else {
        match table_of::<T>(lines_of(s)) {
            Ok(table) => if table.format && table.titles {
                Ok(table.rows)
            } else {
                Err(untitled)
            },
            Err(error) => Err(error),
        }
    }
}

/// The rows of a table that names its format and its columns.
pub fn load_titled_rows<T: TraceTable>(
    bytes: &[u8],
    max: usize,
    path: &str,
    untitled: &'static str,
) -> (r: Result<Vec<T::Row>, String>)
    ensures
        match (r, titled_rows::<T>(bytes@, max as nat, path@, untitled@)) {
            (Ok(rows), Ok(expected)) => rows@ == expected,
            (Err(error), Err(expected)) => error@ == expected,
            _ => false,
        },
{
    if bytes.len() == 0 || bytes.len() > max {
        return Err(size_complaint_text(bytes.len(), path));
    }
    let table = load_table::<T>(bytes)?;
    if !table.format || !table.titles {
        return Err(untitled.to_owned());
    }
    Ok(table.rows)
}

/// Reads kernel activities with their launch geometry.
pub fn load_kernels(bytes: &[u8], path: &str) -> (r: Result<Vec<KernelActivity>, String>)
    ensures
        match (
            r,
            titled_rows::<KernelTable>(
                bytes@,
                MAX_ACTIVITY_BYTES as nat,
                path@,
                "CUPTI kernel trace lacks its versioned header"@,
            ),
        ) {
            (Ok(rows), Ok(expected)) => rows@ == expected,
            (Err(error), Err(expected)) => error@ == expected,
            _ => false,
        },
{
    load_titled_rows::<KernelTable>(
        bytes,
        MAX_ACTIVITY_BYTES,
        path,
        "CUPTI kernel trace lacks its versioned header",
    )
}

/// Reads the kernel activities of an unfiltered capture, with their families.
pub fn load_family_kernels(bytes: &[u8], path: &str) -> (r: Result<Vec<FamilyActivity>, String>)
    ensures
        match (
            r,
            titled_rows::<FamilyTable>(
                bytes@,
                MAX_ACTIVITY_BYTES as nat,
                path@,
                "CUPTI kernel trace lacks its versioned header"@,
            ),
        ) {
            (Ok(rows), Ok(expected)) => rows@ == expected,
            (Err(error), Err(expected)) => error@ == expected,
            _ => false,
        },
{
    load_titled_rows::<FamilyTable>(
        bytes,
        MAX_ACTIVITY_BYTES,
        path,
        "CUPTI kernel trace lacks its versioned header",
    )
}

/// Reads runtime calls.
pub fn load_runtimes(bytes: &[u8], path: &str) -> (r: Result<Vec<ApiActivity>, String>)
    ensures
        match (
            r,
            titled_rows::<RuntimeTable>(
                bytes@,
                MAX_API_BYTES as nat,
                path@,
                "CUPTI runtime trace lacks its versioned header"@,
            ),
        ) {
            (Ok(rows), Ok(expected)) => rows@ == expected,
            (Err(error), Err(expected)) => error@ == expected,
            _ => false,
        },
{
    load_titled_rows::<RuntimeTable>(
        bytes,
        MAX_API_BYTES,
        path,
        "CUPTI runtime trace lacks its versioned header",
    )
}

/// Reads runtime and driver calls.
pub fn load_apis(bytes: &[u8], path: &str) -> (r: Result<Vec<ApiActivity>, String>)
    ensures
        match (
            r,
            titled_rows::<ApiTable>(
                bytes@,
                MAX_API_BYTES as nat,
                path@,
                "CUPTI api trace lacks its versioned header"@,
            ),
        ) {
            (Ok(rows), Ok(expected)) => rows@ == expected,
            (Err(error), Err(expected)) => error@ == expected,
            _ => false,
        },
{
    load_titled_rows::<ApiTable>(
        bytes,
        MAX_API_BYTES,
        path,
        "CUPTI api trace lacks its versioned header",
    )
}

// The summary of a capture.

/// How well a capture went.
#[derive(Clone, Copy, Debug, Default, PartialEq, Eq, Structural)]
pub struct CuptiQuality {
    pub register_result: i32,
    pub enable_result: i32,
    pub runtime_enable_result: i32,
    pub buffers_requested: u64,
    pub buffers_completed: u64,
    pub buffer_exhaustions: u64,
    pub records_seen: u64,
    pub target_records: u64,
    pub invalid_records: u64,
    pub dropped_records: u64,
    pub api_records: u64,
    pub api_drops: u64,
    pub driver_enable_result: i32,
}

/// The status row of a summary, which may lack its last field.
pub open spec fn quality_of(f: Seq<Seq<u8>>) -> Option<CuptiQuality> {
    let driver = if f.len() == 13 {
        i32_of(f[12])
    } else {
        Some(0i32)
    };
    match (
        i32_of(f[0]),
        i32_of(f[1]),
        i32_of(f[2]),
        u64_of(f[3]),
        u64_of(f[4]),
        u64_of(f[5]),
        u64_of(f[6]),
        u64_of(f[7]),
        u64_of(f[8]),
        u64_of(f[9]),
        u64_of(f[10]),
        u64_of(f[11]),
    ) {
        (
            Some(register_result),
            Some(enable_result),
            Some(runtime_enable_result),
            Some(buffers_requested),
            Some(buffers_completed),
            Some(buffer_exhaustions),
            Some(records_seen),
            Some(target_records),
            Some(invalid_records),
            Some(dropped_records),
            Some(api_records),
            Some(api_drops),
        ) => match driver {
            Some(driver_enable_result) => Some(
                CuptiQuality {
                    register_result,
                    enable_result,
                    runtime_enable_result,
                    buffers_requested,
                    buffers_completed,
                    buffer_exhaustions,
                    records_seen,
                    target_records,
                    invalid_records,
                    dropped_records,
                    api_records,
                    api_drops,
                    driver_enable_result,
                },
            ),
            None => None,
        },
        _ => None,
    }
}

fn read_quality(f: &Vec<&[u8]>) -> (r: Option<CuptiQuality>)
    requires
        f.len() == 12 || f.len() == 13,
    ensures
        r == quality_of(views(f@)),
{
    let driver: Option<i32> = if f.len() == 13 {
        read_i32(f[12])
    } else {
        Some(0)
    };
    match (
        read_i32(f[0]),
        read_i32(f[1]),
        read_i32(f[2]),
        read_u64(f[3]),
        read_u64(f[4]),
        read_u64(f[5]),
        read_u64(f[6]),
        read_u64(f[7]),
        read_u64(f[8]),
        read_u64(f[9]),
        read_u64(f[10]),
        read_u64(f[11]),
    ) {
        (
            Some(register_result),
            Some(enable_result),
            Some(runtime_enable_result),
            Some(buffers_requested),
            Some(buffers_completed),
            Some(buffer_exhaustions),
            Some(records_seen),
            Some(target_records),
            Some(invalid_records),
            Some(dropped_records),
            Some(api_records),
            Some(api_drops),
        ) => match driver {
            Some(driver_enable_result) => Some(
                CuptiQuality {
                    register_result,
                    enable_result,
                    runtime_enable_result,
                    buffers_requested,
                    buffers_completed,
                    buffer_exhaustions,
                    records_seen,
                    target_records,
                    invalid_records,
                    dropped_records,
                    api_records,
                    api_drops,
                    driver_enable_result,
                },
            ),
            None => None,
        },
        _ => None,
    }
}

/// Whether the line begins with the name and a tab.
pub open spec fn is_named(line: Seq<u8>, name: Seq<char>) -> bool {
    opens_with(line, name) && line.len() > encode_utf8(name).len() && line[encode_utf8(
        name,
    ).len() as int] == TAB
}

/// The first line with the name.
pub open spec fn named_line(all: Seq<Seq<u8>>, name: Seq<char>) -> Option<Seq<u8>>
    decreases all.len(),
{
    if all.len() == 0 {
        None
    } else {
        match named_line(all.drop_last(), name) {
            Some(line) => Some(line),
            None => if is_named(all.last(), name) {
                Some(all.last())
            } else {
                None
            },
        }
    }
}

/// The columns of a clock row that hold numbers, in the order in which they are read.
pub open spec fn clock_columns() -> Seq<(usize, NumberShape)> {
    seq![
        (1usize, NumberShape::U64),
        (2usize, NumberShape::U64),
        (3usize, NumberShape::U64),
    ]
}

fn clock_columns_list() -> (list: Vec<(usize, NumberShape)>)
    ensures
        list@ == clock_columns(),
{
    let list: Vec<(usize, NumberShape)> = vec![
        (1usize, NumberShape::U64),
        (2usize, NumberShape::U64),
        (3usize, NumberShape::U64),
    ];
    assert(list@ =~= clock_columns());
    list
}

/// The columns of a status row that hold numbers, in the order in which they are read.
pub open spec fn quality_columns() -> Seq<(usize, NumberShape)> {
    seq![
        (0usize, NumberShape::I32),
        (1usize, NumberShape::I32),
        (2usize, NumberShape::I32),
        (3usize, NumberShape::U64),
        (4usize, NumberShape::U64),
        (5usize, NumberShape::U64),
        (6usize, NumberShape::U64),
        (7usize, NumberShape::U64),
        (8usize, NumberShape::U64),
        (9usize, NumberShape::U64),
        (10usize, NumberShape::U64),
        (11usize, NumberShape::U64),
        (12usize, NumberShape::I32),
    ]
}

fn quality_columns_list() -> (list: Vec<(usize, NumberShape)>)
    ensures
        list@ == quality_columns(),
{
    let list: Vec<(usize, NumberShape)> = vec![
        (0usize, NumberShape::I32),
        (1usize, NumberShape::I32),
        (2usize, NumberShape::I32),
        (3usize, NumberShape::U64),
        (4usize, NumberShape::U64),
        (5usize, NumberShape::U64),
        (6usize, NumberShape::U64),
        (7usize, NumberShape::U64),
        (8usize, NumberShape::U64),
        (9usize, NumberShape::U64),
        (10usize, NumberShape::U64),
        (11usize, NumberShape::U64),
        (12usize, NumberShape::I32),
    ];
    assert(list@ =~= quality_columns());
    list
}

/// The calibration point with the name.
///
/// A row of another length is complained about in the words before and behind
/// the name.
pub open spec fn clock_pair_of(
    all: Seq<Seq<u8>>,
    name: Seq<char>,
    before: Seq<char>,
    behind: Seq<char>,
) -> Result<ClockPair, Seq<char>> {
    match named_line(all, name) {
        None => Err("CUPTI summary lacks "@ + name),
        Some(line) => {
            let f = fields_of(line, TAB);
            if f.len() != 5 {
                Err(before + name + behind)
            } else {
                match (u64_of(f[1]), u64_of(f[2]), u64_of(f[3])) {
                    (Some(cupti_ns), Some(monotonic_ns), Some(uncertainty_ns)) => Ok(
                        ClockPair { cupti_ns, monotonic_ns, uncertainty_ns },
                    ),
                    _ => Err(number_error(f, clock_columns())),
                }
            }
        },
    }
}

/// The quality and the clock that a summary tells.
pub open spec fn summary_of(s: Seq<u8>, path: Seq<char>) -> Result<
    (CuptiQuality, ClockMap),
    Seq<char>,
> {
    let all = lines_of(s);
    if out_of_bounds(s.len(), MAX_SUMMARY_BYTES as nat) {
        Err(size_complaint(s.len(), path))
    } else if !all_text(all) {
        Err(not_text())
    } else if all.len() == 0 || !opens_with(all[0], "# format=GOCUPTI01 "@) {
        Err("CUPTI summary lacks its versioned header"@)
    } else if all.len() <= 2 {
        Err("CUPTI summary is truncated"@)
    } else {
        let f = fields_of(all[2], TAB);
        if f.len() != 12 && f.len() != 13 {
            Err("CUPTI summary status row is malformed"@)
        } else {
            match quality_of(f) {
                None => Err(number_error(f, quality_columns())),
                Some(quality) => match clock_pair_of(
                    all,
                    "CLOCK_MONOTONIC_START"@,
                    "CUPTI clock row "@,
                    " is malformed"@,
                ) {
                    Err(error) => Err(error),
                    Ok(start) => match clock_pair_of(
                        all,
                        "CLOCK_MONOTONIC_END"@,
                        "CUPTI clock row "@,
                        " is malformed"@,
                    ) {
                        Err(error) => Err(error),
                        Ok(end) => Ok((quality, ClockMap { start, end })),
                    },
                },
            }
        }
    }
}

fn find_named<'a>(all: &Vec<&'a [u8]>, name: &str) -> (r: Option<&'a [u8]>)
    ensures
        named_line(views(all@), name@) == match r {
            Some(line) => Some(line@),
            None => None,
        },
{
    let ghost parts = views(all@);
    let word = name.as_bytes();
    let mut i: usize = 0;
    assert(parts.take(0) =~= Seq::<Seq<u8>>::empty());
    while i < all.len()
        invariant
            i <= all.len(),
            parts == views(all@),
            word@ == encode_utf8(name@),
            named_line(parts.take(i as int), name@) is None,
        decreases all.len() - i,
    {
        let line = all[i];
        proof {
            assert(parts.take(i + 1).drop_last() =~= parts.take(i as int));
            assert(parts.take(i + 1).last() == line@);
        }
        if line_opens_with(line, name) && line.len() > word.len() && line[word.len()] == TAB {
            proof {
                named_line_stays(parts, name@, i + 1);
            }
            return Some(line);
        }
        i += 1;
    }
    assert(parts.take(parts.len() as int) =~= parts);
    None
}

proof fn named_line_stays(all: Seq<Seq<u8>>, name: Seq<char>, n: int)
    requires
        0 <= n <= all.len(),
        named_line(all.take(n), name) is Some,
    ensures
        named_line(all, name) == named_line(all.take(n), name),
    decreases all.len() - n,
{
    if n < all.len() {
        assert(all.take(n + 1).drop_last() =~= all.take(n));
        named_line_stays(all, name, n + 1);
    } else {
        assert(all.take(n) =~= all);
    }
}

pub(crate) fn read_clock_pair(
    all: &Vec<&[u8]>,
    name: &str,
    before: &str,
    behind: &str,
) -> (r: Result<ClockPair, String>)
    ensures
        match (r, clock_pair_of(views(all@), name@, before@, behind@)) {
            (Ok(pair), Ok(expected)) => pair == expected,
            (Err(error), Err(expected)) => error@ == expected,
            _ => false,
        },
{
    match find_named(all, name) {
        None => {
            let mut text = "CUPTI summary lacks ".to_owned();
            text.append(name);
            Err(text)
        },
        Some(line) => {
            let f = fields(line, TAB);
            if f.len() != 5 {
                let mut text = before.to_owned();
                text.append(name);
                text.append(behind);
                return Err(text);
            }
            match (read_u64(f[1]), read_u64(f[2]), read_u64(f[3])) {
                (Some(cupti_ns), Some(monotonic_ns), Some(uncertainty_ns)) => Ok(
                    ClockPair { cupti_ns, monotonic_ns, uncertainty_ns },
                ),
                _ => Err(number_error_text(&f, &clock_columns_list())),
            }
        },
    }
}

/// Reads the summary of a capture.
pub fn load_summary(bytes: &[u8], path: &str) -> (r: Result<(CuptiQuality, ClockMap), String>)
    ensures
        match (r, summary_of(bytes@, path@)) {
            (Ok(summary), Ok(expected)) => summary == expected,
            (Err(error), Err(expected)) => error@ == expected,
            _ => false,
        },
{
    if bytes.len() == 0 || bytes.len() > MAX_SUMMARY_BYTES {
        return Err(size_complaint_text(bytes.len(), path));
    }
    let all = lines(bytes);
    assert(views(all@).len() == all@.len());
    if !are_text(&all) {
        return Err(not_text_words().to_owned());
    }
    if all.len() == 0 || !line_opens_with(all[0], "# format=GOCUPTI01 ") {
        return Err("CUPTI summary lacks its versioned header".to_owned());
    }
    if all.len() <= 2 {
        return Err("CUPTI summary is truncated".to_owned());
    }
    let f = fields(all[2], TAB);
    if f.len() != 12 && f.len() != 13 {
        return Err("CUPTI summary status row is malformed".to_owned());
    }
    let quality = match read_quality(&f) {
        Some(quality) => quality,
        None => {
            return Err(number_error_text(&f, &quality_columns_list()));
        },
    };
    let start = read_clock_pair(
        &all,
        "CLOCK_MONOTONIC_START",
        "CUPTI clock row ",
        " is malformed",
    )?;
    let end = read_clock_pair(
        &all,
        "CLOCK_MONOTONIC_END",
        "CUPTI clock row ",
        " is malformed",
    )?;
    Ok((quality, ClockMap { start, end }))
}

/// What an engine step ran.
#[derive(Clone, Copy, Debug, PartialEq, Eq, Structural)]
pub enum StepPhase {
    Prefill,
    Decode,
    Mixed,
}

impl StepPhase {
    pub open spec fn spec_label(self) -> Seq<char> {
        match self {
            StepPhase::Prefill => "prefill"@,
            StepPhase::Decode => "decode"@,
            StepPhase::Mixed => "mixed"@,
        }
    }

    pub fn label(self) -> (r: &'static str)
        ensures
            r@ == self.spec_label(),
    {
        match self {
            StepPhase::Prefill => "prefill",
            StepPhase::Decode => "decode",
            StepPhase::Mixed => "mixed",
        }
    }
}

pub open spec fn phase_of(prefill_tokens: u32, decode_tokens: u32) -> Option<StepPhase> {
    if prefill_tokens != 0 && decode_tokens != 0 {
        Some(StepPhase::Mixed)
    } else if prefill_tokens != 0 {
        Some(StepPhase::Prefill)
    } else if decode_tokens != 0 {
        Some(StepPhase::Decode)
    } else {
        None
    }
}

/// What an engine step ran, unless it ran nothing.
pub fn phase_label(prefill_tokens: u32, decode_tokens: u32) -> (r: Option<StepPhase>)
    ensures
        r == phase_of(prefill_tokens, decode_tokens),
{
    if prefill_tokens != 0 && decode_tokens != 0 {
        Some(StepPhase::Mixed)
    } else if prefill_tokens != 0 {
        Some(StepPhase::Prefill)
    } else if decode_tokens != 0 {
        Some(StepPhase::Decode)
    } else {
        None
    }
}

// Which call launched a kernel.

/// The call with the correlation.
pub open spec fn call_with(calls: Seq<ApiActivity>, correlation: u32) -> Option<ApiActivity>
    decreases calls.len(),
{
    if calls.len() == 0 {
        None
    } else if calls.last().correlation == correlation {
        Some(calls.last())
    } else {
        call_with(calls.drop_last(), correlation)
    }
}

/// Whether two calls have the same correlation.
pub open spec fn calls_repeat(calls: Seq<ApiActivity>) -> bool {
    exists|i: int, j: int|
        0 <= i < j < calls.len() && (#[trigger] calls[i]).correlation == (
        #[trigger] calls[j]).correlation
}

/// Whether the index gives the calls by their correlation.
pub open spec fn indexes_calls(index: IdIndex, calls: Seq<ApiActivity>) -> bool {
    &&& forall|i: int|
        0 <= i < calls.len() ==> index.positions().dom().contains(
            (#[trigger] calls[i]).correlation as u64,
        ) && index.positions()[calls[i].correlation as u64] == i
    &&& forall|id: u64| #[trigger]
        index.positions().dom().contains(id) ==> index.positions()[id] < calls.len()
            && calls[index.positions()[id] as int].correlation == id
}

/// An index of the calls, unless two have the same correlation.
pub fn index_calls(calls: &[ApiActivity]) -> (r: Option<IdIndex>)
    ensures
        r is None <==> calls_repeat(calls@),
        r matches Some(index) ==> indexes_calls(index, calls@),
{
    let mut index = IdIndex::new();
    let mut i: usize = 0;
    while i < calls.len()
        invariant
            i <= calls.len(),
            indexes_calls(index, calls@.take(i as int)),
            !calls_repeat(calls@.take(i as int)),
        decreases calls.len() - i,
    {
        let id: u64 = calls[i].correlation as u64;
        let ghost front = calls@.take(i as int);
        let ghost next = calls@.take(i + 1);
        if let Some(position) = index.get(id) {
            assert(front[position as int] == calls@[position as int]);
            assert(calls@[position as int].correlation == calls@[i as int].correlation);
            return None;
        }
        let ghost before = index.positions();
        index.insert(id, i);
        proof {
            assert forall|k: int| 0 <= k < next.len() implies index.positions().dom().contains(
                (#[trigger] next[k]).correlation as u64,
            ) && index.positions()[next[k].correlation as u64] == k by {
                if k < i {
                    assert(next[k] == front[k]);
                    assert(before.dom().contains(front[k].correlation as u64));
                }
            }
            assert forall|id: u64| #[trigger]
                index.positions().dom().contains(id) implies index.positions()[id] < next.len()
                && next[index.positions()[id] as int].correlation == id by {
                if id != calls@[i as int].correlation as u64 {
                    assert(before.dom().contains(id));
                    assert(front[before[id] as int] == next[before[id] as int]);
                }
            }
            if calls_repeat(next) {
                let (a, b) = choose|a: int, b: int|
                    0 <= a < b < next.len() && (#[trigger] next[a]).correlation == (
                    #[trigger] next[b]).correlation;
                assert(index.positions()[next[a].correlation as u64] == a);
                assert(index.positions()[next[b].correlation as u64] == b);
            }
        }
        i += 1;
    }
    assert(calls@.take(calls@.len() as int) =~= calls@);
    Some(index)
}

proof fn call_is_the_one(calls: Seq<ApiActivity>, i: int)
    requires
        0 <= i < calls.len(),
        !calls_repeat(calls),
    ensures
        call_with(calls, calls[i].correlation) == Some(calls[i]),
    decreases calls.len(),
{
    let front = calls.drop_last();
    if i < front.len() {
        assert(front[i] == calls[i]);
        if calls.last().correlation == calls[i].correlation {
            assert(calls[i].correlation == calls[calls.len() - 1].correlation);
        }
        if calls_repeat(front) {
            let (a, b) = choose|a: int, b: int|
                0 <= a < b < front.len() && (#[trigger] front[a]).correlation == (
                #[trigger] front[b]).correlation;
            assert(calls[a].correlation == calls[b].correlation);
        }
        call_is_the_one(front, i);
    }
}

proof fn no_call_with(calls: Seq<ApiActivity>, correlation: u32)
    requires
        forall|i: int| 0 <= i < calls.len() ==> (#[trigger] calls[i]).correlation != correlation,
    ensures
        call_with(calls, correlation) is None,
    decreases calls.len(),
{
    if calls.len() > 0 {
        assert(calls[calls.len() - 1].correlation != correlation);
        assert forall|i: int| 0 <= i < calls.drop_last().len() implies (
        #[trigger] calls.drop_last()[i]).correlation != correlation by {
            assert(calls[i].correlation != correlation);
        }
        no_call_with(calls.drop_last(), correlation);
    }
}

/// The call with the correlation.
pub fn find_call(index: &IdIndex, calls: &[ApiActivity], correlation: u32) -> (r: Option<
    ApiActivity,
>)
    requires
        indexes_calls(*index, calls@),
        !calls_repeat(calls@),
    ensures
        r == call_with(calls@, correlation),
{
    match index.get(correlation as u64) {
        Some(position) => {
            proof {
                assert(index.positions().dom().contains(correlation as u64));
                call_is_the_one(calls@, position as int);
            }
            Some(calls[position])
        },
        None => {
            proof {
                assert forall|i: int| 0 <= i < calls@.len() implies (
                #[trigger] calls@[i]).correlation != correlation by {
                    assert(index.positions().dom().contains(calls@[i].correlation as u64));
                }
                no_call_with(calls@, correlation);
            }
            None
        },
    }
}

// Gates.

/// The fields of a quality record, with the names by which a report calls the
/// counts of api records.
pub open spec fn quality_fields(
    quality: CuptiQuality,
    records: Seq<char>,
    drops: Seq<char>,
) -> Seq<(Seq<char>, Seq<char>)> {
    seq![
        ("register_result"@, signed_decimal(quality.register_result as int)),
        ("enable_result"@, signed_decimal(quality.enable_result as int)),
        ("runtime_enable_result"@, signed_decimal(quality.runtime_enable_result as int)),
        ("buffers_requested"@, decimal(quality.buffers_requested as nat)),
        ("buffers_completed"@, decimal(quality.buffers_completed as nat)),
        ("buffer_exhaustions"@, decimal(quality.buffer_exhaustions as nat)),
        ("records_seen"@, decimal(quality.records_seen as nat)),
        ("target_records"@, decimal(quality.target_records as nat)),
        ("invalid_records"@, decimal(quality.invalid_records as nat)),
        ("dropped_records"@, decimal(quality.dropped_records as nat)),
        (records, decimal(quality.api_records as nat)),
        (drops, decimal(quality.api_drops as nat)),
        ("driver_enable_result"@, signed_decimal(quality.driver_enable_result as int)),
    ]
}

/// What is said of a capture whose quality is refused.
pub open spec fn quality_words(
    quality: CuptiQuality,
    records: Seq<char>,
    drops: Seq<char>,
) -> Seq<char> {
    "CUPTI quality gate failed: "@ + record_words(
        "CuptiQuality"@,
        quality_fields(quality, records, drops),
    )
}

pub fn quality_text(quality: &CuptiQuality, records: &'static str, drops: &'static str) -> (r:
    String)
    ensures
        r@ == quality_words(*quality, records@, drops@),
{
    let fields: Vec<(&'static str, String)> = vec![
        ("register_result", signed_text(quality.register_result)),
        ("enable_result", signed_text(quality.enable_result)),
        ("runtime_enable_result", signed_text(quality.runtime_enable_result)),
        ("buffers_requested", decimal_text(quality.buffers_requested)),
        ("buffers_completed", decimal_text(quality.buffers_completed)),
        ("buffer_exhaustions", decimal_text(quality.buffer_exhaustions)),
        ("records_seen", decimal_text(quality.records_seen)),
        ("target_records", decimal_text(quality.target_records)),
        ("invalid_records", decimal_text(quality.invalid_records)),
        ("dropped_records", decimal_text(quality.dropped_records)),
        (records, decimal_text(quality.api_records)),
        (drops, decimal_text(quality.api_drops)),
        ("driver_enable_result", signed_text(quality.driver_enable_result)),
    ];
    let mut text = "CUPTI quality gate failed: ".to_owned();
    append_record_text(&mut text, "CuptiQuality", &fields);
    assert(shown_fields(fields@) =~= quality_fields(*quality, records@, drops@));
    text
}

/// Why the inputs of an analysis are refused.
#[derive(Clone, Copy, Debug, PartialEq, Eq, Structural)]
pub enum GateError {
    PackedLayout,
    EmptyTrace,
    Quality,
    Clock,
}

/// Whether a capture is whole: every stage was enabled, nothing was lost or
/// invalid, and the counts are those of the traces.
pub open spec fn capture_whole(quality: CuptiQuality, kernels: nat, calls: nat) -> bool {
    &&& quality.register_result == 0
    &&& quality.enable_result == 0
    &&& quality.runtime_enable_result == 0
    &&& quality.driver_enable_result == 0
    &&& quality.buffer_exhaustions == 0
    &&& quality.invalid_records == 0
    &&& quality.dropped_records == 0
    &&& quality.api_drops == 0
    &&& quality.target_records == kernels
    &&& quality.api_records == calls
    &&& quality.buffers_requested == quality.buffers_completed
}

/// The first gate that refuses the inputs.
pub open spec fn refusing_gate(
    complete: bool,
    kernels: nat,
    calls: nat,
    quality: CuptiQuality,
    clock: ClockMap,
) -> Option<GateError> {
    if !complete {
        Some(GateError::PackedLayout)
    } else if kernels == 0 || calls == 0 {
        Some(GateError::EmptyTrace)
    } else if !capture_whole(quality, kernels, calls) {
        Some(GateError::Quality)
    } else if clock.start.cupti_ns == 0 || !clock.calibrated() {
        Some(GateError::Clock)
    } else {
        None
    }
}

/// Checks the inputs of an analysis. `complete` is whether the semantic trace
/// is.
pub fn validate_inputs(
    complete: bool,
    kernels: usize,
    calls: usize,
    quality: &CuptiQuality,
    clock: &ClockMap,
) -> (r: Result<(), GateError>)
    ensures
        r == match refusing_gate(complete, kernels as nat, calls as nat, *quality, *clock) {
            Some(error) => Err::<(), GateError>(error),
            None => Ok(()),
        },
{
    if !complete {
        return Err(GateError::PackedLayout);
    }
    if kernels == 0 || calls == 0 {
        return Err(GateError::EmptyTrace);
    }
    if quality.register_result != 0 || quality.enable_result != 0 || quality.runtime_enable_result
        != 0 || quality.driver_enable_result != 0 || quality.buffer_exhaustions != 0
        || quality.invalid_records != 0 || quality.dropped_records != 0 || quality.api_drops != 0
        || quality.target_records != kernels as u64 || quality.api_records != calls as u64
        || quality.buffers_requested != quality.buffers_completed {
        return Err(GateError::Quality);
    }
    if clock.start.cupti_ns == 0 || clock.end.cupti_ns <= clock.start.cupti_ns
        || clock.end.monotonic_ns <= clock.start.monotonic_ns {
        return Err(GateError::Clock);
    }
    Ok(())
}

} // verus!
