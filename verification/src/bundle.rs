//! Trace bundles: the kernels of a capture, placed in the steps of the engine
//! and given to the requests that own the rows.

use crate::clock::{signed_delta, ClockMap};
use crate::cupti::{
    api_line_kind, clock_pair_of, dims_of, names, read_api_line_kind, read_clock_pair, read_dims,
};
use crate::digits::{append_decimal, decimal};
use crate::index::{has_id, row_with, IdTable, Identified};
use crate::manifest::{manifest_ids, manifest_token_ids, model_of, value_means_its_model};
use crate::msgpack::{means, Item, Value};
use crate::order::{arranged, arranged_copy, arranges, Keyed};
use crate::ownership::{
    packed_timeline, timeline_fits, timeline_of, OwnershipSlice, TimelineEntry, TimelineError,
    TraceStep,
};
use crate::semantic::SemanticWireRecord;
use crate::tables::{
    is_comment, line_is_comment, line_opens_with, load_table, number_error, number_error_text,
    opens_with, read_u32, read_u64, row_error, row_error_text, table_of, u32_of, u64_of, LineKind,
    NumberShape, TraceTable, TAB,
};
use crate::text::{
    all_text, are_text, fields, fields_of, has_part, lines, lines_of, not_text, not_text_words,
    views,
};
use crate::trace_event::Dim3;
use vstd::prelude::*;
use vstd::string::*;

verus! {

pub const MAX_BUNDLE_RECORDS: usize = 1_000_000;

pub const MAX_TEXT_BYTES: usize = 67_108_864;

pub const MAX_CLOCK_BYTES: usize = 1_048_576;

// Exact token sequences.

/// A token that was observed at a position.
#[derive(Clone, Copy, Debug, PartialEq, Eq, Structural)]
pub struct TokenAt {
    pub position: u64,
    pub token_id: u32,
}

impl Keyed for TokenAt {
    open spec fn before(self, other: Self) -> bool {
        self.position < other.position || self.position == other.position && self.token_id
            <= other.token_id
    }

    proof fn before_is_total(a: Self, b: Self) {
    }

    proof fn before_is_transitive(a: Self, b: Self, c: Self) {
    }

    fn comes_before(&self, other: &Self) -> (r: bool) {
        self.position < other.position || self.position == other.position && self.token_id
            <= other.token_id
    }
}

pub open spec fn tokens_at(observed: Seq<(u64, u32)>) -> Seq<TokenAt> {
    observed.map_values(|pair: (u64, u32)| TokenAt { position: pair.0, token_id: pair.1 })
}

/// Whether the token at the place is not the expected one.
pub open spec fn token_is_wrong(expected: Seq<u32>, sorted: Seq<TokenAt>, i: int) -> bool {
    sorted[i].position != i || sorted[i].token_id != expected[i]
}

/// The first of the tokens that is not the expected one.
pub open spec fn first_wrong(expected: Seq<u32>, sorted: Seq<TokenAt>, n: int) -> Option<int>
    decreases n,
{
    if n <= 0 {
        None
    } else {
        match first_wrong(expected, sorted, n - 1) {
            Some(i) => Some(i),
            None => if token_is_wrong(expected, sorted, n - 1) {
                Some(n - 1)
            } else {
                None
            },
        }
    }
}

/// Why the observed tokens are not the expected ones, if they are not.
pub open spec fn sequence_problem(
    label: Seq<char>,
    expected: Seq<u32>,
    observed: Seq<TokenAt>,
) -> Option<Seq<char>> {
    if observed.len() != expected.len() {
        Some(
            label + " token count differs: manifest="@ + decimal(expected.len()) + " observed="@
                + decimal(observed.len()),
        )
    } else {
        match first_wrong(expected, arranged(observed), expected.len() as int) {
            Some(i) => Some(label + " token mismatch at position "@ + decimal(i as nat)),
            None => None,
        }
    }
}

proof fn wrong_stays(expected: Seq<u32>, sorted: Seq<TokenAt>, n: int, m: int)
    requires
        0 <= n <= m,
        first_wrong(expected, sorted, n) is Some,
    ensures
        first_wrong(expected, sorted, m) == first_wrong(expected, sorted, n),
    decreases m - n,
{
    if n < m {
        wrong_stays(expected, sorted, n, m - 1);
    }
}

fn check_sequence(label: &str, expected: &[u32], observed: &Vec<TokenAt>) -> (r: Result<(), String>)
    ensures
        match (r, sequence_problem(label@, expected@, observed@)) {
            (Ok(_), None) => true,
            (Err(error), Some(problem)) => error@ == problem,
            _ => false,
        },
{
    let sorted = arranged_copy(observed.as_slice());
    proof {
        arranged_length(observed@, sorted@);
    }
    if observed.len() != expected.len() {
        let mut text = String::new();
        text.append(label);
        text.append(" token count differs: manifest=");
        append_decimal(&mut text, expected.len() as u64);
        text.append(" observed=");
        append_decimal(&mut text, observed.len() as u64);
        assert(text@ =~= sequence_problem(label@, expected@, observed@)->0);
        return Err(text);
    }
    let mut i: usize = 0;
    while i < expected.len()
        invariant
            i <= expected.len(),
            expected@.len() == observed@.len(),
            sorted@ == arranged(observed@),
            sorted@.len() == expected@.len(),
            first_wrong(expected@, sorted@, i as int) is None,
        decreases expected.len() - i,
    {
        if sorted[i].position != i as u64 || sorted[i].token_id != expected[i] {
            proof {
                wrong_stays(expected@, sorted@, i + 1, expected@.len() as int);
            }
            let mut text = String::new();
            text.append(label);
            text.append(" token mismatch at position ");
            append_decimal(&mut text, i as u64);
            assert(text@ =~= sequence_problem(label@, expected@, observed@)->0);
            return Err(text);
        }
        i += 1;
    }
    Ok(())
}

proof fn arranged_length(s: Seq<TokenAt>, t: Seq<TokenAt>)
    requires
        arranges(s, t),
    ensures
        s.len() == t.len(),
{
    s.to_multiset_ensures();
    t.to_multiset_ensures();
}

/// Checks that the observed tokens, in the order of their positions, are the
/// expected ones at the positions from zero on.
pub fn validate_exact_sequence(label: &str, expected: &[u32], observed: &[(u64, u32)]) -> (r: Result<
    (),
    String,
>)
    ensures
        match (r, sequence_problem(label@, expected@, tokens_at(observed@))) {
            (Ok(_), None) => true,
            (Err(error), Some(problem)) => error@ == problem,
            _ => false,
        },
{
    let ghost all = tokens_at(observed@);
    let mut list: Vec<TokenAt> = Vec::new();
    let mut i: usize = 0;
    while i < observed.len()
        invariant
            i <= observed.len(),
            all == tokens_at(observed@),
            list@ == all.take(i as int),
        decreases observed.len() - i,
    {
        let (position, token_id) = observed[i];
        list.push(TokenAt { position, token_id });
        assert(list@ =~= all.take(i + 1));
        i += 1;
    }
    assert(list@ =~= all);
    check_sequence(label, expected, &list)
}

/// The prompt tokens of a request among the packed token rows.
pub open spec fn prompt_tokens(rows: Seq<SemanticWireRecord>, request: u64) -> Seq<TokenAt>
    decreases rows.len(),
{
    if rows.len() == 0 {
        Seq::empty()
    } else {
        let front = prompt_tokens(rows.drop_last(), request);
        let row = rows.last();
        if row.request_id == request && row.phase == 1 {
            front.push(
                TokenAt { position: row.decode_tokens as u64, token_id: row.scheduled_tokens },
            )
        } else {
            front
        }
    }
}

/// The output tokens of a request among the accepted ones.
pub open spec fn output_tokens(rows: Seq<SemanticWireRecord>, request: u64) -> Seq<TokenAt>
    decreases rows.len(),
{
    if rows.len() == 0 {
        Seq::empty()
    } else {
        let front = output_tokens(rows.drop_last(), request);
        let row = rows.last();
        if row.request_id == request {
            front.push(TokenAt { position: row.sequence_id, token_id: row.scheduled_tokens })
        } else {
            front
        }
    }
}

/// Why the prompt of a manifest is not what the engine packed, if it is not.
pub open spec fn prompt_problem(
    query: Item,
    rows: Seq<SemanticWireRecord>,
    request: u64,
) -> Option<Seq<char>> {
    match manifest_ids(query, "prompt_token_ids"@, "tokens"@) {
        Err(error) => Some(error),
        Ok(expected) => sequence_problem(
            "prompt-to-packed"@,
            expected,
            prompt_tokens(rows, request),
        ),
    }
}

/// Checks that the prompt of a manifest is what the engine packed.
pub fn validate_prompt_tokens(query: &Value, rows: &[SemanticWireRecord], request: u64) -> (r: Result<
    (),
    String,
>)
    ensures
        match (r, prompt_problem(model_of(*query), rows@, request)) {
            (Ok(_), None) => true,
            (Err(error), Some(problem)) => error@ == problem,
            _ => false,
        },
{
    proof {
        value_means_its_model(*query);
    }
    let expected = manifest_token_ids(query, "prompt_token_ids", "tokens")?;
    let mut observed: Vec<TokenAt> = Vec::new();
    let mut i: usize = 0;
    assert(rows@.take(0) =~= Seq::<SemanticWireRecord>::empty());
    while i < rows.len()
        invariant
            i <= rows.len(),
            observed@ == prompt_tokens(rows@.take(i as int), request),
        decreases rows.len() - i,
    {
        assert(rows@.take(i + 1).drop_last() =~= rows@.take(i as int));
        let row = rows[i];
        if row.request_id == request && row.phase == 1 {
            observed.push(
                TokenAt { position: row.decode_tokens as u64, token_id: row.scheduled_tokens },
            );
        }
        i += 1;
    }
    assert(rows@.take(rows@.len() as int) =~= rows@);
    check_sequence("prompt-to-packed", expected.as_slice(), &observed)
}

/// Why the output of a manifest is not what the engine accepted, if it is not.
pub open spec fn output_problem(
    output: Item,
    rows: Seq<SemanticWireRecord>,
    request: u64,
) -> Option<Seq<char>> {
    match output.array_under("choices"@) {
        None => Some("output manifest choices are missing"@),
        Some(choices) => if choices.len() != 1 {
            Some("focused output manifest must contain exactly one choice"@)
        } else {
            match manifest_ids(choices[0], "token_ids"@, "tokens"@) {
                Err(error) => Some(error),
                Ok(expected) => sequence_problem(
                    "accepted-to-output"@,
                    expected,
                    output_tokens(rows, request),
                ),
            }
        },
    }
}

/// Checks that the output of a manifest is what the engine accepted.
pub fn validate_output_tokens(output: &Value, rows: &[SemanticWireRecord], request: u64) -> (r:
    Result<(), String>)
    ensures
        match (r, output_problem(model_of(*output), rows@, request)) {
            (Ok(_), None) => true,
            (Err(error), Some(problem)) => error@ == problem,
            _ => false,
        },
{
    proof {
        value_means_its_model(*output);
    }
    let choices = match output.array_at("choices") {
        Some(choices) => choices,
        None => {
            return Err("output manifest choices are missing".to_owned());
        },
    };
    let ghost items = model_of(*output).array_under("choices"@)->0;
    if choices.len() != 1 {
        return Err("focused output manifest must contain exactly one choice".to_owned());
    }
    assert(means(choices@[0], items[0]));
    let expected = manifest_token_ids(&choices[0], "token_ids", "tokens")?;
    let mut observed: Vec<TokenAt> = Vec::new();
    let mut i: usize = 0;
    assert(rows@.take(0) =~= Seq::<SemanticWireRecord>::empty());
    while i < rows.len()
        invariant
            i <= rows.len(),
            observed@ == output_tokens(rows@.take(i as int), request),
        decreases rows.len() - i,
    {
        assert(rows@.take(i + 1).drop_last() =~= rows@.take(i as int));
        let row = rows[i];
        if row.request_id == request {
            observed.push(TokenAt { position: row.sequence_id, token_id: row.scheduled_tokens });
        }
        i += 1;
    }
    assert(rows@.take(rows@.len() as int) =~= rows@);
    check_sequence("accepted-to-output", expected.as_slice(), &observed)
}

// Tables.

/// A kernel of a bundle. Its name stands in the line of the table.
#[derive(Clone, Copy, Debug, PartialEq, Eq, Structural)]
pub struct BundleKernel {
    pub start_ns: u64,
    pub end_ns: u64,
    pub stream: u32,
    pub correlation: u32,
    pub grid_id: u64,
    pub graph_node_id: u64,
    pub graph_id: u32,
    pub grid: Dim3,
    pub block: Dim3,
    pub writes_cache: bool,
    pub line: usize,
}

/// The columns of a kernel row that hold numbers, in the order in which they are read.
pub open spec fn bundle_kernel_columns() -> Seq<(usize, NumberShape)> {
    seq![
        (0usize, NumberShape::U64),
        (1usize, NumberShape::U64),
        (4usize, NumberShape::U32),
        (5usize, NumberShape::U32),
        (6usize, NumberShape::U64),
        (7usize, NumberShape::U64),
        (8usize, NumberShape::U32),
        (9usize, NumberShape::U32),
        (10usize, NumberShape::U32),
        (11usize, NumberShape::U32),
        (12usize, NumberShape::U32),
        (13usize, NumberShape::U32),
        (14usize, NumberShape::U32),
    ]
}

fn bundle_kernel_columns_list() -> (list: Vec<(usize, NumberShape)>)
    ensures
        list@ == bundle_kernel_columns(),
{
    let list: Vec<(usize, NumberShape)> = vec![
        (0usize, NumberShape::U64),
        (1usize, NumberShape::U64),
        (4usize, NumberShape::U32),
        (5usize, NumberShape::U32),
        (6usize, NumberShape::U64),
        (7usize, NumberShape::U64),
        (8usize, NumberShape::U32),
        (9usize, NumberShape::U32),
        (10usize, NumberShape::U32),
        (11usize, NumberShape::U32),
        (12usize, NumberShape::U32),
        (13usize, NumberShape::U32),
        (14usize, NumberShape::U32),
    ];
    assert(list@ =~= bundle_kernel_columns());
    list
}

/// The columns of a call row that hold numbers, in the order in which they are read.
pub open spec fn bundle_call_columns() -> Seq<(usize, NumberShape)> {
    seq![
        (0usize, NumberShape::U64),
        (1usize, NumberShape::U64),
        (2usize, NumberShape::U32),
        (3usize, NumberShape::U32),
        (4usize, NumberShape::U32),
        (5usize, NumberShape::U32),
        (6usize, NumberShape::U32),
    ]
}

fn bundle_call_columns_list() -> (list: Vec<(usize, NumberShape)>)
    ensures
        list@ == bundle_call_columns(),
{
    let list: Vec<(usize, NumberShape)> = vec![
        (0usize, NumberShape::U64),
        (1usize, NumberShape::U64),
        (2usize, NumberShape::U32),
        (3usize, NumberShape::U32),
        (4usize, NumberShape::U32),
        (5usize, NumberShape::U32),
        (6usize, NumberShape::U32),
    ];
    assert(list@ =~= bundle_call_columns());
    list
}

pub struct BundleKernelTable;

impl TraceTable for BundleKernelTable {
    type Row = BundleKernel;

    open spec fn kind_of(line: Seq<u8>) -> LineKind {
        if opens_with(line, "# format=GOCUPTI01 "@) {
            LineKind::Format
        } else if opens_with(line, "start_ns\tend_ns\tdevice\t"@) {
            LineKind::Titles
        } else if is_comment(line) {
            LineKind::Comment
        } else {
            LineKind::Row
        }
    }

    open spec fn row_of(line: Seq<u8>, number: nat, rows_before: nat) -> Result<
        BundleKernel,
        Seq<char>,
    > {
        let f = fields_of(line, TAB);
        if f.len() != 18 {
            Err(row_error("malformed kernel row "@, number, ""@))
        } else {
            match (
                u64_of(f[0]),
                u64_of(f[1]),
                u32_of(f[4]),
                u32_of(f[5]),
                u64_of(f[6]),
                u64_of(f[7]),
                u32_of(f[8]),
                dims_of(f, 9),
                dims_of(f, 12),
            ) {
                (
                    Some(start_ns),
                    Some(end_ns),
                    Some(stream),
                    Some(correlation),
                    Some(grid_id),
                    Some(graph_node_id),
                    Some(graph_id),
                    Some(grid),
                    Some(block),
                ) => if start_ns == 0 || end_ns <= start_ns || correlation == 0 || grid.x == 0
                    || grid.y == 0 || grid.z == 0 || block.x == 0 || block.y == 0 || block.z == 0
                    || f[17].len() == 0 {
                    Err(row_error("invalid kernel row "@, number, ""@))
                } else {
                    Ok(
                        BundleKernel {
                            start_ns,
                            end_ns,
                            stream,
                            correlation,
                            grid_id,
                            graph_node_id,
                            graph_id,
                            grid,
                            block,
                            writes_cache: names(f[17], "reshape_and_cache_flash_kernel"@),
                            line: number as usize,
                        },
                    )
                },
                _ => Err(number_error(f, bundle_kernel_columns())),
            }
        }
    }

    open spec fn max_rows() -> nat {
        MAX_BUNDLE_RECORDS as nat
    }

    open spec fn excess() -> Seq<char> {
        "CUPTI kernel trace exceeds one million records"@
    }

    open spec fn refusal() -> Seq<char> {
        ""@
    }

    fn line_kind(line: &[u8]) -> (r: LineKind) {
        if line_opens_with(line, "# format=GOCUPTI01 ") {
            LineKind::Format
        } else if line_opens_with(line, "start_ns\tend_ns\tdevice\t") {
            LineKind::Titles
        } else if line_is_comment(line) {
            LineKind::Comment
        } else {
            LineKind::Row
        }
    }

    fn read_row(line: &[u8], number: usize, rows_before: usize) -> (r: Result<
        BundleKernel,
        String,
    >) {
        let f = fields(line, TAB);
        if f.len() != 18 {
            return Err(row_error_text("malformed kernel row ", number, ""));
        }
        match (
            read_u64(f[0]),
            read_u64(f[1]),
            read_u32(f[4]),
            read_u32(f[5]),
            read_u64(f[6]),
            read_u64(f[7]),
            read_u32(f[8]),
            read_dims(&f, 9),
            read_dims(&f, 12),
        ) {
            (
                Some(start_ns),
                Some(end_ns),
                Some(stream),
                Some(correlation),
                Some(grid_id),
                Some(graph_node_id),
                Some(graph_id),
                Some(grid),
                Some(block),
            ) => {
                if start_ns == 0 || end_ns <= start_ns || correlation == 0 || grid.x == 0 || grid.y
                    == 0 || grid.z == 0 || block.x == 0 || block.y == 0 || block.z == 0
                    || f[17].len() == 0 {
                    return Err(row_error_text("invalid kernel row ", number, ""));
                }
                let writes_cache: bool = has_part(
                    f[17],
                    "reshape_and_cache_flash_kernel".as_bytes(),
                );
                Ok(
                    BundleKernel {
                        start_ns,
                        end_ns,
                        stream,
                        correlation,
                        grid_id,
                        graph_node_id,
                        graph_id,
                        grid,
                        block,
                        writes_cache,
                        line: number,
                    },
                )
            },
            _ => Err(number_error_text(&f, &bundle_kernel_columns_list())),
        }
    }

    fn row_limit() -> (r: usize) {
        MAX_BUNDLE_RECORDS
    }

    fn excess_text() -> (r: &'static str) {
        "CUPTI kernel trace exceeds one million records"
    }

    fn refusal_text() -> (r: &'static str) {
        ""
    }
}

/// A runtime call of a bundle.
#[derive(Clone, Copy, Debug, PartialEq, Eq, Structural)]
pub struct BundleCall {
    pub start_ns: u64,
    pub end_ns: u64,
    pub process: u32,
    pub thread: u32,
    pub correlation: u32,
    pub cbid: u32,
    pub return_value: u32,
}

impl Identified for BundleCall {
    open spec fn spec_id(self) -> u64 {
        self.correlation as u64
    }

    fn id(&self) -> (r: u64) {
        self.correlation as u64
    }
}

pub struct BundleCallTable;

impl TraceTable for BundleCallTable {
    type Row = BundleCall;

    open spec fn kind_of(line: Seq<u8>) -> LineKind {
        api_line_kind(line)
    }

    open spec fn row_of(line: Seq<u8>, number: nat, rows_before: nat) -> Result<
        BundleCall,
        Seq<char>,
    > {
        let f = fields_of(line, TAB);
        if f.len() != 7 {
            Err(row_error("malformed runtime row "@, number, ""@))
        } else {
            match (
                u64_of(f[0]),
                u64_of(f[1]),
                u32_of(f[2]),
                u32_of(f[3]),
                u32_of(f[4]),
                u32_of(f[5]),
                u32_of(f[6]),
            ) {
                (
                    Some(start_ns),
                    Some(end_ns),
                    Some(process),
                    Some(thread),
                    Some(correlation),
                    Some(cbid),
                    Some(return_value),
                ) => if start_ns == 0 || end_ns < start_ns || correlation == 0 {
                    Err(row_error("invalid runtime row "@, number, ""@))
                } else {
                    Ok(
                        BundleCall {
                            start_ns,
                            end_ns,
                            process,
                            thread,
                            correlation,
                            cbid,
                            return_value,
                        },
                    )
                },
                _ => Err(number_error(f, bundle_call_columns())),
            }
        }
    }

    open spec fn max_rows() -> nat {
        MAX_BUNDLE_RECORDS as nat
    }

    open spec fn excess() -> Seq<char> {
        "CUPTI runtime trace exceeds one million records"@
    }

    open spec fn refusal() -> Seq<char> {
        ""@
    }

    fn line_kind(line: &[u8]) -> (r: LineKind) {
        read_api_line_kind(line)
    }

    fn read_row(line: &[u8], number: usize, rows_before: usize) -> (r: Result<BundleCall, String>) {
        let f = fields(line, TAB);
        if f.len() != 7 {
            return Err(row_error_text("malformed runtime row ", number, ""));
        }
        match (
            read_u64(f[0]),
            read_u64(f[1]),
            read_u32(f[2]),
            read_u32(f[3]),
            read_u32(f[4]),
            read_u32(f[5]),
            read_u32(f[6]),
        ) {
            (
                Some(start_ns),
                Some(end_ns),
                Some(process),
                Some(thread),
                Some(correlation),
                Some(cbid),
                Some(return_value),
            ) => {
                if start_ns == 0 || end_ns < start_ns || correlation == 0 {
                    return Err(row_error_text("invalid runtime row ", number, ""));
                }
                Ok(
                    BundleCall {
                        start_ns,
                        end_ns,
                        process,
                        thread,
                        correlation,
                        cbid,
                        return_value,
                    },
                )
            },
            _ => Err(number_error_text(&f, &bundle_call_columns_list())),
        }
    }

    fn row_limit() -> (r: usize) {
        MAX_BUNDLE_RECORDS
    }

    fn excess_text() -> (r: &'static str) {
        "CUPTI runtime trace exceeds one million records"
    }

    fn refusal_text() -> (r: &'static str) {
        ""
    }
}

/// The complaint about a file that is empty or too large.
pub open spec fn bounded_size_error(path: Seq<char>, size: nat, max: nat) -> Seq<char> {
    path + " has invalid bounded size "@ + decimal(size) + " (max "@ + decimal(max) + ")"@
}

fn bounded_size_text(path: &str, size: usize, max: usize) -> (text: String)
    ensures
        text@ == bounded_size_error(path@, size as nat, max as nat),
{
    let mut text = String::new();
    text.append(path);
    text.append(" has invalid bounded size ");
    append_decimal(&mut text, size as u64);
    text.append(" (max ");
    append_decimal(&mut text, max as u64);
    text.append(")");
    assert(text@ =~= bounded_size_error(path@, size as nat, max as nat));
    text
}

/// The rows of a table that has its titles and is not empty.
pub open spec fn bundle_rows<T: TraceTable>(s: Seq<u8>, path: Seq<char>, empty: Seq<char>) -> Result<
    Seq<T::Row>,
    Seq<char>,
> {
    if s.len() == 0 || s.len() > MAX_TEXT_BYTES {
        Err(bounded_size_error(path, s.len(), MAX_TEXT_BYTES as nat))
    } else {
        match table_of::<T>(lines_of(s)) {
            Err(error) => Err(error),
            Ok(table) => if !table.format || !table.titles || table.rows.len() == 0 {
                Err(empty)
            } else {
                Ok(table.rows)
            },
        }
    }
}

fn load_bundle_rows<T: TraceTable>(bytes: &[u8], path: &str, empty: &'static str) -> (r: Result<
    Vec<T::Row>,
    String,
>)
    ensures
        match (r, bundle_rows::<T>(bytes@, path@, empty@)) {
            (Ok(rows), Ok(expected)) => rows@ == expected,
            (Err(error), Err(expected)) => error@ == expected,
            _ => false,
        },
{
    if bytes.len() == 0 || bytes.len() > MAX_TEXT_BYTES {
        return Err(bounded_size_text(path, bytes.len(), MAX_TEXT_BYTES));
    }
    let table = load_table::<T>(bytes)?;
    if !table.format || !table.titles || table.rows.len() == 0 {
        return Err(empty.to_owned());
    }
    Ok(table.rows)
}

/// Reads the kernels of a bundle.
pub fn load_bundle_kernels(bytes: &[u8], path: &str) -> (r: Result<Vec<BundleKernel>, String>)
    ensures
        match (
            r,
            bundle_rows::<BundleKernelTable>(
                bytes@,
                path@,
                "CUPTI kernel trace lacks its header or records"@,
            ),
        ) {
            (Ok(rows), Ok(expected)) => rows@ == expected,
            (Err(error), Err(expected)) => error@ == expected,
            _ => false,
        },
{
    load_bundle_rows::<BundleKernelTable>(
        bytes,
        path,
        "CUPTI kernel trace lacks its header or records",
    )
}

/// Reads the runtime calls of a bundle.
pub fn load_bundle_calls(bytes: &[u8], path: &str) -> (r: Result<Vec<BundleCall>, String>)
    ensures
        match (
            r,
            bundle_rows::<BundleCallTable>(
                bytes@,
                path@,
                "CUPTI runtime trace lacks its header or records"@,
            ),
        ) {
            (Ok(rows), Ok(expected)) => rows@ == expected,
            (Err(error), Err(expected)) => error@ == expected,
            _ => false,
        },
{
    load_bundle_rows::<BundleCallTable>(
        bytes,
        path,
        "CUPTI runtime trace lacks its header or records",
    )
}

/// The clock of a capture.
pub open spec fn clock_of(s: Seq<u8>, path: Seq<char>) -> Result<ClockMap, Seq<char>> {
    let all = lines_of(s);
    if s.len() == 0 || s.len() > MAX_CLOCK_BYTES {
        Err(bounded_size_error(path, s.len(), MAX_CLOCK_BYTES as nat))
    } else if !all_text(all) {
        Err(not_text())
    } else if all.len() == 0 || !opens_with(all[0], "# format=GOCUPTI01 "@) {
        Err("CUPTI summary lacks its versioned header"@)
    } else {
        match (
            clock_pair_of(all, "CLOCK_MONOTONIC_START"@, "malformed CUPTI clock row "@, ""@),
            clock_pair_of(all, "CLOCK_MONOTONIC_END"@, "malformed CUPTI clock row "@, ""@),
        ) {
            (Err(error), _) => Err(error),
            (Ok(_), Err(error)) => Err(error),
            (Ok(start), Ok(end)) => if start.cupti_ns == 0 || end.cupti_ns <= start.cupti_ns
                || end.monotonic_ns <= start.monotonic_ns {
                Err("invalid CUPTI clock calibration"@)
            } else if all.len() < 2 {
                Err("CUPTI summary status header is missing"@)
            } else if all.len() < 3 {
                Err("CUPTI summary status row is missing"@)
            } else {
                Ok(ClockMap { start, end })
            },
        }
    }
}

/// Reads the clock of a capture.
pub fn load_clock(bytes: &[u8], path: &str) -> (r: Result<ClockMap, String>)
    ensures
        match (r, clock_of(bytes@, path@)) {
            (Ok(clock), Ok(expected)) => clock == expected,
            (Err(error), Err(expected)) => error@ == expected,
            _ => false,
        },
{
    if bytes.len() == 0 || bytes.len() > MAX_CLOCK_BYTES {
        return Err(bounded_size_text(path, bytes.len(), MAX_CLOCK_BYTES));
    }
    let all = lines(bytes);
    assert(views(all@).len() == all@.len());
    if !are_text(&all) {
        return Err(not_text_words().to_owned());
    }
    if all.len() == 0 || !line_opens_with(all[0], "# format=GOCUPTI01 ") {
        return Err("CUPTI summary lacks its versioned header".to_owned());
    }
    let start = read_clock_pair(
        &all,
        "CLOCK_MONOTONIC_START",
        "malformed CUPTI clock row ",
        "",
    )?;
    let end = read_clock_pair(&all, "CLOCK_MONOTONIC_END", "malformed CUPTI clock row ", "")?;
    if start.cupti_ns == 0 || end.cupti_ns <= start.cupti_ns || end.monotonic_ns
        <= start.monotonic_ns {
        return Err("invalid CUPTI clock calibration".to_owned());
    }
    if all.len() < 2 {
        return Err("CUPTI summary status header is missing".to_owned());
    }
    if all.len() < 3 {
        return Err("CUPTI summary status row is missing".to_owned());
    }
    Ok(ClockMap { start, end })
}

// Calls.

/// What is wrong with a call behind others, if anything.
pub open spec fn call_problem(front: Seq<BundleCall>, call: BundleCall) -> Option<Seq<char>> {
    if call.return_value != 0 {
        Some(
            "CUDA runtime activity "@ + decimal(call.correlation as nat) + " returned "@ + decimal(
                call.return_value as nat,
            ),
        )
    } else if has_id(front, call.correlation as u64) {
        Some("duplicate CUPTI correlation "@ + decimal(call.correlation as nat))
    } else {
        None
    }
}

/// What is wrong with the first calls, if anything.
pub open spec fn calls_problem(calls: Seq<BundleCall>, n: int) -> Option<Seq<char>>
    decreases n,
{
    if n <= 0 {
        None
    } else {
        match calls_problem(calls, n - 1) {
            Some(problem) => Some(problem),
            None => call_problem(calls.take(n - 1), calls[n - 1]),
        }
    }
}

proof fn calls_problem_stays(calls: Seq<BundleCall>, n: int, m: int)
    requires
        0 <= n <= m,
        calls_problem(calls, n) is Some,
    ensures
        calls_problem(calls, m) == calls_problem(calls, n),
    decreases m - n,
{
    if n < m {
        calls_problem_stays(calls, n, m - 1);
    }
}

/// The calls by their correlation; each must have succeeded.
pub fn index_bundle_calls(calls: &[BundleCall]) -> (r: Result<IdTable<BundleCall>, String>)
    ensures
        match (r, calls_problem(calls@, calls@.len() as int)) {
            (Ok(table), None) => table.wf() && table.rows() == calls@,
            (Err(error), Some(problem)) => error@ == problem,
            _ => false,
        },
{
    let mut table: IdTable<BundleCall> = IdTable::new();
    let mut i: usize = 0;
    assert(calls@.take(0) =~= Seq::<BundleCall>::empty());
    while i < calls.len()
        invariant
            i <= calls.len(),
            table.wf(),
            table.rows() == calls@.take(i as int),
            calls_problem(calls@, i as int) is None,
        decreases calls.len() - i,
    {
        let call = calls[i];
        proof {
            if calls_problem(calls@, i + 1) is Some {
                calls_problem_stays(calls@, i + 1, calls@.len() as int);
            }
            assert(calls@.take(i + 1) =~= calls@.take(i as int).push(call));
        }
        if call.return_value != 0 {
            let mut text = "CUDA runtime activity ".to_owned();
            append_decimal(&mut text, call.correlation as u64);
            text.append(" returned ");
            append_decimal(&mut text, call.return_value as u64);
            return Err(text);
        }
        if !table.insert(call) {
            let mut text = "duplicate CUPTI correlation ".to_owned();
            append_decimal(&mut text, call.correlation as u64);
            return Err(text);
        }
        i += 1;
    }
    assert(calls@.take(calls@.len() as int) =~= calls@);
    Ok(table)
}

// Placing kernels.

/// A kernel in its step, on the clock of the engine.
#[derive(Clone, Copy, Debug, PartialEq, Eq, Structural)]
pub struct PlacedKernel {
    pub kernel: BundleKernel,
    pub call: BundleCall,
    pub step_index: usize,
    pub submit_ns: u64,
    pub gpu_start_ns: u64,
    pub gpu_end_ns: u64,
}

impl Keyed for PlacedKernel {
    open spec fn before(self, other: Self) -> bool {
        self.gpu_start_ns < other.gpu_start_ns || self.gpu_start_ns == other.gpu_start_ns
            && self.gpu_end_ns <= other.gpu_end_ns
    }

    proof fn before_is_total(a: Self, b: Self) {
    }

    proof fn before_is_transitive(a: Self, b: Self, c: Self) {
    }

    fn comes_before(&self, other: &Self) -> (r: bool) {
        self.gpu_start_ns < other.gpu_start_ns || self.gpu_start_ns == other.gpu_start_ns
            && self.gpu_end_ns <= other.gpu_end_ns
    }
}

/// The step that was running when a call was made: the last of the timeline
/// that was packed by then and had not ended.
pub open spec fn step_of_call(
    timeline: Seq<TimelineEntry>,
    n: int,
    steps: Seq<TraceStep>,
    submit_ns: u64,
) -> Option<usize>
    decreases n,
{
    if n <= 0 {
        None
    } else {
        let entry = timeline[n - 1];
        if entry.timestamp_ns <= submit_ns && submit_ns
            <= steps[entry.step_index as int].end_timestamp_ns {
            Some(entry.step_index)
        } else {
            step_of_call(timeline, n - 1, steps, submit_ns)
        }
    }
}

/// A time on the clock of the engine.
pub open spec fn on_engine_clock(clock: ClockMap, timestamp_ns: u64) -> Option<u64> {
    if clock.calibrated() && clock.spans(timestamp_ns) {
        Some(clock.mapped(timestamp_ns) as u64)
    } else {
        None
    }
}

pub open spec fn outside_calibration() -> Seq<char> {
    "CUPTI timestamp is outside a valid calibration interval"@
}

/// Where a kernel is placed, or why it cannot be.
pub open spec fn place_of_kernel(
    kernel: BundleKernel,
    steps: Seq<TraceStep>,
    timeline: Seq<TimelineEntry>,
    calls: Seq<BundleCall>,
    clock: ClockMap,
) -> Result<PlacedKernel, Seq<char>> {
    match row_with(calls, kernel.correlation as u64) {
        None => Err("missing runtime correlation "@ + decimal(kernel.correlation as nat)),
        Some(call) => match on_engine_clock(clock, call.start_ns) {
            None => Err(outside_calibration()),
            Some(submit_ns) => match step_of_call(
                timeline,
                timeline.len() as int,
                steps,
                submit_ns,
            ) {
                None => Err(
                    "kernel correlation "@ + decimal(kernel.correlation as nat)
                        + " cannot be bracketed by an engine step"@,
                ),
                Some(step_index) => match (
                    on_engine_clock(clock, kernel.start_ns),
                    on_engine_clock(clock, kernel.end_ns),
                ) {
                    (Some(gpu_start_ns), Some(gpu_end_ns)) => Ok(
                        PlacedKernel {
                            kernel,
                            call,
                            step_index,
                            submit_ns,
                            gpu_start_ns,
                            gpu_end_ns,
                        },
                    ),
                    _ => Err(outside_calibration()),
                },
            },
        },
    }
}

fn engine_time(clock: ClockMap, timestamp_ns: u64) -> (r: Option<u64>)
    ensures
        r == on_engine_clock(clock, timestamp_ns),
{
    match clock.normalize(timestamp_ns) {
        Ok(time) => Some(time),
        Err(_) => None,
    }
}

fn find_step(timeline: &Vec<TimelineEntry>, steps: &[TraceStep], submit_ns: u64) -> (r: Option<
    usize,
>)
    requires
        timeline_fits(timeline@, steps@),
    ensures
        r == step_of_call(timeline@, timeline@.len() as int, steps@, submit_ns),
        r matches Some(i) ==> i < steps@.len(),
{
    let mut n: usize = timeline.len();
    while n > 0
        invariant
            n <= timeline.len(),
            timeline_fits(timeline@, steps@),
            step_of_call(timeline@, n as int, steps@, submit_ns) == step_of_call(
                timeline@,
                timeline@.len() as int,
                steps@,
                submit_ns,
            ),
        decreases n,
    {
        let entry = timeline[n - 1];
        assert(timeline@[n - 1].step_index < steps@.len());
        if entry.timestamp_ns <= submit_ns && submit_ns <= steps[entry.step_index].end_timestamp_ns {
            return Some(entry.step_index);
        }
        n -= 1;
    }
    None
}

fn place_kernel(
    kernel: &BundleKernel,
    steps: &[TraceStep],
    timeline: &Vec<TimelineEntry>,
    calls: &IdTable<BundleCall>,
    clock: ClockMap,
) -> (r: Result<PlacedKernel, String>)
    requires
        calls.wf(),
        timeline_fits(timeline@, steps@),
    ensures
        match (r, place_of_kernel(*kernel, steps@, timeline@, calls.rows(), clock)) {
            (Ok(placed), Ok(expected)) => placed == expected && placed.step_index < steps@.len(),
            (Err(error), Err(expected)) => error@ == expected,
            _ => false,
        },
{
    let call = match calls.get(kernel.correlation as u64) {
        Some(call) => call,
        None => {
            let mut text = "missing runtime correlation ".to_owned();
            append_decimal(&mut text, kernel.correlation as u64);
            return Err(text);
        },
    };
    let submit_ns: u64 = match engine_time(clock, call.start_ns) {
        Some(time) => time,
        None => {
            return Err("CUPTI timestamp is outside a valid calibration interval".to_owned());
        },
    };
    let step_index: usize = match find_step(timeline, steps, submit_ns) {
        Some(index) => index,
        None => {
            let mut text = "kernel correlation ".to_owned();
            append_decimal(&mut text, kernel.correlation as u64);
            text.append(" cannot be bracketed by an engine step");
            return Err(text);
        },
    };
    match (engine_time(clock, kernel.start_ns), engine_time(clock, kernel.end_ns)) {
        (Some(gpu_start_ns), Some(gpu_end_ns)) => Ok(
            PlacedKernel {
                kernel: *kernel,
                call,
                step_index,
                submit_ns,
                gpu_start_ns,
                gpu_end_ns,
            },
        ),
        _ => Err("CUPTI timestamp is outside a valid calibration interval".to_owned()),
    }
}

/// The first kernels, placed.
pub open spec fn placed_kernels(
    kernels: Seq<BundleKernel>,
    n: int,
    steps: Seq<TraceStep>,
    timeline: Seq<TimelineEntry>,
    calls: Seq<BundleCall>,
    clock: ClockMap,
) -> Result<Seq<PlacedKernel>, Seq<char>>
    decreases n,
{
    if n <= 0 {
        Ok(Seq::empty())
    } else {
        match placed_kernels(kernels, n - 1, steps, timeline, calls, clock) {
            Err(error) => Err(error),
            Ok(front) => match place_of_kernel(kernels[n - 1], steps, timeline, calls, clock) {
                Err(error) => Err(error),
                Ok(placed) => Ok(front.push(placed)),
            },
        }
    }
}

proof fn placing_failure_stays(
    kernels: Seq<BundleKernel>,
    n: int,
    m: int,
    steps: Seq<TraceStep>,
    timeline: Seq<TimelineEntry>,
    calls: Seq<BundleCall>,
    clock: ClockMap,
)
    requires
        0 <= n <= m,
        placed_kernels(kernels, n, steps, timeline, calls, clock) is Err,
    ensures
        placed_kernels(kernels, m, steps, timeline, calls, clock) == placed_kernels(
            kernels,
            n,
            steps,
            timeline,
            calls,
            clock,
        ),
    decreases m - n,
{
    if n < m {
        placing_failure_stays(kernels, n, m - 1, steps, timeline, calls, clock);
    }
}

/// The kernels of a step, in their order.
pub open spec fn kernels_of_step(placed: Seq<PlacedKernel>, step: int) -> Seq<PlacedKernel>
    decreases placed.len(),
{
    if placed.len() == 0 {
        Seq::empty()
    } else {
        let front = kernels_of_step(placed.drop_last(), step);
        if placed.last().step_index == step {
            front.push(placed.last())
        } else {
            front
        }
    }
}

pub open spec fn bundle_timeline_words(error: TimelineError) -> Seq<char> {
    match error {
        TimelineError::MissingLayout => "every exported step must have authoritative packed rows"@,
        TimelineError::NotIncreasing => "packed-layout timestamps are not strictly increasing"@,
    }
}

/// The placed kernels, or why they cannot be placed.
pub open spec fn assignment_of(
    steps: Seq<TraceStep>,
    kernels: Seq<BundleKernel>,
    calls: Seq<BundleCall>,
    clock: ClockMap,
) -> Result<Seq<PlacedKernel>, Seq<char>> {
    match timeline_of(steps) {
        Err(error) => Err(bundle_timeline_words(error)),
        Ok(timeline) => placed_kernels(
            kernels,
            kernels.len() as int,
            steps,
            timeline,
            calls,
            clock,
        ),
    }
}

/// The contents of lists.
pub open spec fn lists(all: Seq<Vec<PlacedKernel>>) -> Seq<Seq<PlacedKernel>> {
    all.map_values(|list: Vec<PlacedKernel>| list@)
}

/// The kernels of each step, by their times on the device.
pub open spec fn kernels_by_step(placed: Seq<PlacedKernel>, steps: nat) -> Seq<Seq<PlacedKernel>> {
    Seq::new(steps, |i: int| arranged(kernels_of_step(placed, i)))
}

fn gather_steps(placed: &Vec<PlacedKernel>, count: usize) -> (r: Vec<Vec<PlacedKernel>>)
    requires
        forall|k: int| 0 <= k < placed@.len() ==> (#[trigger] placed@[k]).step_index < count,
    ensures
        lists(r@) == kernels_by_step(placed@, count as nat),
{
    let mut buckets: Vec<Vec<PlacedKernel>> = Vec::new();
    let mut i: usize = 0;
    assert(placed@.take(0) =~= Seq::<PlacedKernel>::empty());
    while i < count
        invariant
            i <= count,
            buckets@.len() == i,
            forall|k: int| 0 <= k < i ==> (#[trigger] buckets@[k])@ == Seq::<PlacedKernel>::empty(),
        decreases count - i,
    {
        buckets.push(Vec::new());
        i += 1;
    }
    let mut n: usize = 0;
    while n < placed.len()
        invariant
            n <= placed.len(),
            buckets@.len() == count,
            forall|k: int| 0 <= k < placed@.len() ==> (#[trigger] placed@[k]).step_index < count,
            forall|k: int|
                0 <= k < count ==> (#[trigger] buckets@[k])@ == kernels_of_step(
                    placed@.take(n as int),
                    k,
                ),
        decreases placed.len() - n,
    {
        let kernel = placed[n];
        let ghost before = buckets@;
        proof {
            assert(placed@.take(n + 1).drop_last() =~= placed@.take(n as int));
            assert(placed@.take(n + 1).last() == kernel);
            assert(placed@[n as int].step_index < count);
        }
        let step: usize = kernel.step_index;
        buckets[step].push(kernel);
        assert forall|k: int| 0 <= k < count implies (#[trigger] buckets@[k])@ == kernels_of_step(
            placed@.take(n + 1),
            k,
        ) by {
            assert(before[k]@ == kernels_of_step(placed@.take(n as int), k));
        }
        n += 1;
    }
    assert(placed@.take(placed@.len() as int) =~= placed@);
    let mut out: Vec<Vec<PlacedKernel>> = Vec::new();
    let ghost goal = kernels_by_step(placed@, count as nat);
    let mut i: usize = 0;
    while i < count
        invariant
            i <= count,
            buckets@.len() == count,
            goal == kernels_by_step(placed@, count as nat),
            forall|k: int|
                0 <= k < count ==> (#[trigger] buckets@[k])@ == kernels_of_step(placed@, k),
            lists(out@) == goal.take(i as int),
        decreases count - i,
    {
        let list = arranged_copy(buckets[i].as_slice());
        let ghost before = out@;
        out.push(list);
        assert(lists(out@) =~= lists(before).push(list@));
        assert(goal.take(i + 1) =~= goal.take(i as int).push(goal[i as int]));
        i += 1;
    }
    assert(goal.take(count as int) =~= goal);
    out
}

/// Places the kernels in the steps, and gives those of each step by their times
/// on the device.
pub fn assign_kernels(
    steps: &[TraceStep],
    kernels: &[BundleKernel],
    calls: &IdTable<BundleCall>,
    clock: ClockMap,
) -> (r: Result<Vec<Vec<PlacedKernel>>, String>)
    requires
        calls.wf(),
    ensures
        match (r, assignment_of(steps@, kernels@, calls.rows(), clock)) {
            (Ok(by_step), Ok(placed)) => lists(by_step@) == kernels_by_step(placed, steps@.len()),
            (Err(error), Err(expected)) => error@ == expected,
            _ => false,
        },
{
    let timeline = match packed_timeline(steps) {
        Ok(timeline) => timeline,
        Err(TimelineError::MissingLayout) => {
            return Err("every exported step must have authoritative packed rows".to_owned());
        },
        Err(TimelineError::NotIncreasing) => {
            return Err("packed-layout timestamps are not strictly increasing".to_owned());
        },
    };
    let mut placed: Vec<PlacedKernel> = Vec::new();
    let mut n: usize = 0;
    while n < kernels.len()
        invariant
            n <= kernels.len(),
            calls.wf(),
            timeline_fits(timeline@, steps@),
            timeline_of(steps@) == Ok::<Seq<TimelineEntry>, TimelineError>(timeline@),
            placed_kernels(kernels@, n as int, steps@, timeline@, calls.rows(), clock) == Ok::<
                Seq<PlacedKernel>,
                Seq<char>,
            >(placed@),
            forall|k: int|
                0 <= k < placed@.len() ==> (#[trigger] placed@[k]).step_index < steps@.len(),
        decreases kernels.len() - n,
    {
        proof {
            if placed_kernels(
                kernels@,
                n + 1,
                steps@,
                timeline@,
                calls.rows(),
                clock,
            ) is Err {
                placing_failure_stays(
                    kernels@,
                    n + 1,
                    kernels@.len() as int,
                    steps@,
                    timeline@,
                    calls.rows(),
                    clock,
                );
            }
        }
        let kernel = place_kernel(&kernels[n], steps, &timeline, calls, clock)?;
        placed.push(kernel);
        n += 1;
    }
    Ok(gather_steps(&placed, steps.len()))
}

// What a kernel shows.

/// The blocks of a kernel that worked for a request.
#[derive(Clone, Copy, Debug, PartialEq, Eq, Structural)]
pub struct BlockOwnership {
    pub request_id: u64,
    pub block_begin: u32,
    pub block_end: u32,
    pub phase: u8,
    pub authoritative: bool,
}

/// Whether the blocks of the kernel are the rows of its step.
pub open spec fn rows_are_blocks(kernel: BundleKernel) -> bool {
    kernel.writes_cache && kernel.grid.y == 1 && kernel.grid.z == 1
}

/// Where the blocks of an owner end.
pub open spec fn block_end(owner: OwnershipSlice, grid_x: u32) -> u32 {
    if owner.row_end <= grid_x {
        owner.row_end
    } else {
        grid_x
    }
}

/// The blocks of the first owners.
pub open spec fn owned_block_ranges(owners: Seq<OwnershipSlice>, grid_x: u32) -> Seq<BlockOwnership>
    decreases owners.len(),
{
    if owners.len() == 0 {
        Seq::empty()
    } else {
        let front = owned_block_ranges(owners.drop_last(), grid_x);
        let owner = owners.last();
        if owner.row_begin < block_end(owner, grid_x) {
            front.push(
                BlockOwnership {
                    request_id: owner.request_id,
                    block_begin: owner.row_begin,
                    block_end: block_end(owner, grid_x),
                    phase: owner.phase,
                    authoritative: owner.authoritative,
                },
            )
        } else {
            front
        }
    }
}

/// The row behind the last that is owned.
pub open spec fn rows_end(owners: Seq<OwnershipSlice>) -> u32
    decreases owners.len(),
{
    if owners.len() == 0 {
        0
    } else {
        let front = rows_end(owners.drop_last());
        if owners.last().row_end > front {
            owners.last().row_end
        } else {
            front
        }
    }
}

/// What is shown of a kernel in its step.
#[derive(Debug)]
pub struct KernelShares {
    pub owners: Vec<BlockOwnership>,
    pub padding_blocks: u32,
    pub rows_are_blocks: bool,
    pub submit_from_step_ns: i128,
    pub start_from_step_ns: i128,
    pub end_from_step_ns: i128,
    pub duration_ns: u64,
}

/// Whether the shares are those of the kernel in a step that began at the time and
/// has the owners.
pub open spec fn shares_are(
    r: KernelShares,
    placed: PlacedKernel,
    step_begin_ns: u64,
    owners: Seq<OwnershipSlice>,
) -> bool {
    &&& r.rows_are_blocks == rows_are_blocks(placed.kernel)
    &&& r.owners@ == if rows_are_blocks(placed.kernel) {
        owned_block_ranges(owners, placed.kernel.grid.x)
    } else {
        Seq::empty()
    }
    &&& r.padding_blocks == if placed.kernel.grid.x > rows_end(owners) {
        placed.kernel.grid.x - rows_end(owners)
    } else {
        0
    }
    &&& r.submit_from_step_ns == placed.submit_ns - step_begin_ns
    &&& r.start_from_step_ns == placed.gpu_start_ns - step_begin_ns
    &&& r.end_from_step_ns == placed.gpu_end_ns - step_begin_ns
    &&& r.duration_ns == if placed.gpu_end_ns > placed.gpu_start_ns {
        placed.gpu_end_ns - placed.gpu_start_ns
    } else {
        0
    }
}

/// Shows a kernel: its times from the begin of the step, and which blocks worked
/// for which request where that is known.
pub fn kernel_shares(placed: &PlacedKernel, step_begin_ns: u64, owners: &[OwnershipSlice]) -> (r:
    KernelShares)
    ensures
        shares_are(r, *placed, step_begin_ns, owners@),
{
    let kernel = placed.kernel;
    let shared: bool = kernel.writes_cache && kernel.grid.y == 1 && kernel.grid.z == 1;
    let mut list: Vec<BlockOwnership> = Vec::new();
    let mut last: u32 = 0;
    let mut i: usize = 0;
    assert(owners@.take(0) =~= Seq::<OwnershipSlice>::empty());
    while i < owners.len()
        invariant
            i <= owners.len(),
            shared == rows_are_blocks(kernel),
            list@ == if shared {
                owned_block_ranges(owners@.take(i as int), kernel.grid.x)
            } else {
                Seq::empty()
            },
            last == rows_end(owners@.take(i as int)),
        decreases owners.len() - i,
    {
        assert(owners@.take(i + 1).drop_last() =~= owners@.take(i as int));
        let owner = owners[i];
        let end: u32 = if owner.row_end <= kernel.grid.x {
            owner.row_end
        } else {
            kernel.grid.x
        };
        if shared && owner.row_begin < end {
            list.push(
                BlockOwnership {
                    request_id: owner.request_id,
                    block_begin: owner.row_begin,
                    block_end: end,
                    phase: owner.phase,
                    authoritative: owner.authoritative,
                },
            );
        }
        if owner.row_end > last {
            last = owner.row_end;
        }
        i += 1;
    }
    assert(owners@.take(owners@.len() as int) =~= owners@);
    KernelShares {
        owners: list,
        padding_blocks: if kernel.grid.x > last {
            kernel.grid.x - last
        } else {
            0
        },
        rows_are_blocks: shared,
        submit_from_step_ns: signed_delta(placed.submit_ns, step_begin_ns),
        start_from_step_ns: signed_delta(placed.gpu_start_ns, step_begin_ns),
        end_from_step_ns: signed_delta(placed.gpu_end_ns, step_begin_ns),
        duration_ns: if placed.gpu_end_ns > placed.gpu_start_ns {
            placed.gpu_end_ns - placed.gpu_start_ns
        } else {
            0
        },
    }
}

/// The phase of a slice.
pub open spec fn phase_words(value: u8) -> Seq<char> {
    match value {
        1 => "prefill"@,
        2 => "decode"@,
        _ => "unknown"@,
    }
}

/// The phase of a slice.
pub fn phase(value: u8) -> (r: &'static str)
    ensures
        r@ == phase_words(value),
{
    match value {
        1 => "prefill",
        2 => "decode",
        _ => "unknown",
    }
}

/// The phase of a step.
pub open spec fn step_phase_words(prefill: u32, decode: u32) -> Seq<char> {
    if prefill != 0 {
        if decode != 0 {
            "mixed"@
        } else {
            "prefill"@
        }
    } else if decode != 0 {
        "decode"@
    } else {
        "empty"@
    }
}

/// The phase of a step.
pub fn step_phase(prefill: u32, decode: u32) -> (r: &'static str)
    ensures
        r@ == step_phase_words(prefill, decode),
{
    if prefill != 0 {
        if decode != 0 {
            "mixed"
        } else {
            "prefill"
        }
    } else if decode != 0 {
        "decode"
    } else {
        "empty"
    }
}

// Laws.

/// The tokens that a sequence of numbers asks for.
pub open spec fn exact_tokens(expected: Seq<u32>) -> Seq<TokenAt> {
    Seq::new(
        expected.len(),
        |i: int| TokenAt { position: i as u64, token_id: expected[i] },
    )
}

/// Tokens that are accepted are the expected ones, each once at its position, in
/// whatever order they were observed.
pub proof fn accepted_tokens_are_exact(
    label: Seq<char>,
    expected: Seq<u32>,
    observed: Seq<TokenAt>,
)
    requires
        expected.len() <= u64::MAX,
        sequence_problem(label, expected, observed) is None,
    ensures
        observed.to_multiset() == exact_tokens(expected).to_multiset(),
{
    crate::order::arrangement_exists(observed);
    let sorted = arranged(observed);
    assert(arranges(observed, sorted));
    arranged_length(observed, sorted);
    assert forall|i: int| 0 <= i < sorted.len() implies sorted[i] == exact_tokens(expected)[i] by {
        none_is_wrong(expected, sorted, expected.len() as int, i);
    }
    assert(sorted =~= exact_tokens(expected));
}

proof fn none_is_wrong(expected: Seq<u32>, sorted: Seq<TokenAt>, n: int, i: int)
    requires
        0 <= i < n,
        first_wrong(expected, sorted, n) is None,
    ensures
        !token_is_wrong(expected, sorted, i),
    decreases n,
{
    if i < n - 1 {
        none_is_wrong(expected, sorted, n - 1, i);
    }
}

/// Every kernel that is placed stands in one step, that of its place.
pub proof fn kernels_stand_in_their_step(placed: Seq<PlacedKernel>, step: int, i: int)
    requires
        0 <= i < kernels_of_step(placed, step).len(),
    ensures
        kernels_of_step(placed, step)[i].step_index == step,
        placed.contains(kernels_of_step(placed, step)[i]),
    decreases placed.len(),
{
    let front = placed.drop_last();
    if i < kernels_of_step(front, step).len() {
        kernels_stand_in_their_step(front, step, i);
        let k = choose|k: int|
            0 <= k < front.len() && front[k] == kernels_of_step(front, step)[i];
        assert(placed[k] == front[k]);
    } else {
        assert(placed[placed.len() - 1] == placed.last());
    }
}

} // verus!
