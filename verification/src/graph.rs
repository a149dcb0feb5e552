//! CUDA graph replays: the nodes that a subscriber recorded, grouped into
//! replays whose topology may not change.

use crate::cupti::dims_of;
use crate::digits::{append_decimal, decimal};
use crate::tables::{
    fault_answer, field_error_text, field_fault, hex_of, is_comment, line_is_comment,
    line_opens_with, load_table, number_error, number_error_text, opens_with, out_of_bounds,
    read_hex, read_u32, read_u64, row_error, row_error_text, table_of, u32_of, u64_of, LineKind,
    NumberShape, TraceTable, TAB,
};
use crate::text::{
    fields, fields_of, has_prefix, is_text, lines, lines_of, not_text, not_text_words, same,
    starts_with, views,
};
use crate::trace_event::Dim3;
use vstd::prelude::*;
use vstd::slice::slice_subrange;
use vstd::string::*;
use vstd::utf8::{encode_utf8, valid_utf8};

verus! {

pub const MAX_GRAPH_BYTES: usize = 67_108_864;

pub const MAX_LAUNCH_BYTES: usize = 67_108_864;

pub const MAX_PROBE_SUMMARY_BYTES: usize = 1_048_576;

pub const MAX_GRAPH_NODES: usize = 65_536;

// Graph nodes.

/// One kernel node of one graph replay.
#[derive(Clone, Copy, Debug, PartialEq, Eq, Structural)]
pub struct GraphNode {
    pub graph_exec: u64,
    pub replay_id: u32,
    pub node: u64,
    pub grid_id: u64,
    pub host_timestamp_ns: u64,
    pub context_slot: u32,
    pub kernel_slot: u32,
    pub stream: u64,
    pub api_stream: u64,
    pub grid: Dim3,
    pub block: Dim3,
    pub expected_blocks: u64,
}

/// Whether the field is there and holds no such number.
pub open spec fn bad_u64(f: Seq<Seq<u8>>, i: int) -> bool {
    i < f.len() && u64_of(f[i]) is None
}

pub open spec fn bad_u32(f: Seq<Seq<u8>>, i: int) -> bool {
    i < f.len() && u32_of(f[i]) is None
}

pub open spec fn bad_hex(f: Seq<Seq<u8>>, i: int) -> bool {
    i < f.len() && hex_of(f[i]) is None
}

fn is_bad_u64(f: &Vec<&[u8]>, i: usize) -> (r: bool)
    ensures
        r == bad_u64(views(f@), i as int),
{
    i < f.len() && read_u64(f[i]).is_none()
}

fn is_bad_u32(f: &Vec<&[u8]>, i: usize) -> (r: bool)
    ensures
        r == bad_u32(views(f@), i as int),
{
    i < f.len() && read_u32(f[i]).is_none()
}

fn is_bad_hex(f: &Vec<&[u8]>, i: usize) -> (r: bool)
    ensures
        r == bad_hex(views(f@), i as int),
{
    i < f.len() && read_hex(f[i]).is_none()
}

/// The columns of a graph-node row that hold numbers, in the order in which they are read.
pub open spec fn node_columns() -> Seq<(usize, NumberShape)> {
    seq![
        (0usize, NumberShape::Hex),
        (1usize, NumberShape::U32),
        (2usize, NumberShape::Hex),
        (3usize, NumberShape::U64),
        (4usize, NumberShape::U64),
        (5usize, NumberShape::U32),
        (6usize, NumberShape::U32),
        (7usize, NumberShape::Hex),
        (8usize, NumberShape::Hex),
        (9usize, NumberShape::U32),
        (10usize, NumberShape::U32),
        (11usize, NumberShape::U32),
        (12usize, NumberShape::U32),
        (13usize, NumberShape::U32),
        (14usize, NumberShape::U32),
        (15usize, NumberShape::U64),
    ]
}

fn node_columns_list() -> (list: Vec<(usize, NumberShape)>)
    ensures
        list@ == node_columns(),
{
    let list: Vec<(usize, NumberShape)> = vec![
        (0usize, NumberShape::Hex),
        (1usize, NumberShape::U32),
        (2usize, NumberShape::Hex),
        (3usize, NumberShape::U64),
        (4usize, NumberShape::U64),
        (5usize, NumberShape::U32),
        (6usize, NumberShape::U32),
        (7usize, NumberShape::Hex),
        (8usize, NumberShape::Hex),
        (9usize, NumberShape::U32),
        (10usize, NumberShape::U32),
        (11usize, NumberShape::U32),
        (12usize, NumberShape::U32),
        (13usize, NumberShape::U32),
        (14usize, NumberShape::U32),
        (15usize, NumberShape::U64),
    ];
    assert(list@ =~= node_columns());
    list
}

/// Whether a field of a graph-node row is there and holds no number.
pub open spec fn node_row_bad(f: Seq<Seq<u8>>) -> bool {
    ||| bad_hex(f, 0)
    ||| bad_u32(f, 1)
    ||| bad_hex(f, 2)
    ||| bad_u64(f, 3)
    ||| bad_u64(f, 4)
    ||| bad_u32(f, 5)
    ||| bad_u32(f, 6)
    ||| bad_hex(f, 7)
    ||| bad_hex(f, 8)
    ||| bad_u32(f, 9)
    ||| bad_u32(f, 10)
    ||| bad_u32(f, 11)
    ||| bad_u32(f, 12)
    ||| bad_u32(f, 13)
    ||| bad_u32(f, 14)
    ||| bad_u64(f, 15)
}

/// The node of a row whose fields are all there.
pub open spec fn node_of(f: Seq<Seq<u8>>) -> GraphNode {
    GraphNode {
        graph_exec: hex_of(f[0])->0,
        replay_id: u32_of(f[1])->0,
        node: hex_of(f[2])->0,
        grid_id: u64_of(f[3])->0,
        host_timestamp_ns: u64_of(f[4])->0,
        context_slot: u32_of(f[5])->0,
        kernel_slot: u32_of(f[6])->0,
        stream: hex_of(f[7])->0,
        api_stream: hex_of(f[8])->0,
        grid: dims_of(f, 9)->0,
        block: dims_of(f, 12)->0,
        expected_blocks: u64_of(f[15])->0,
    }
}

/// The value of a field that holds one.
fn some_u64(s: &[u8]) -> (r: u64)
    requires
        u64_of(s@) is Some,
    ensures
        r == u64_of(s@)->0,
{
    match read_u64(s) {
        Some(value) => value,
        None => 0,
    }
}

fn some_u32(s: &[u8]) -> (r: u32)
    requires
        u32_of(s@) is Some,
    ensures
        r == u32_of(s@)->0,
{
    match read_u32(s) {
        Some(value) => value,
        None => 0,
    }
}

fn some_hex(s: &[u8]) -> (r: u64)
    requires
        hex_of(s@) is Some,
    ensures
        r == hex_of(s@)->0,
{
    match read_hex(s) {
        Some(value) => value,
        None => 0,
    }
}

/// The table of graph nodes.
pub struct GraphNodeTable;

impl TraceTable for GraphNodeTable {
    type Row = GraphNode;

    open spec fn kind_of(line: Seq<u8>) -> LineKind {
        if opens_with(line, "# format=GOSAN_GRAPH01 "@) {
            LineKind::Format
        } else if opens_with(line, "graph_exec\t"@) {
            LineKind::Titles
        } else if is_comment(line) {
            LineKind::Comment
        } else {
            LineKind::Row
        }
    }

    open spec fn row_of(line: Seq<u8>, number: nat, rows_before: nat) -> Result<
        GraphNode,
        Seq<char>,
    > {
        let f = fields_of(line, TAB);
        if node_row_bad(f) {
            Err(number_error(f, node_columns()))
        } else if f.len() < 17 {
            Err(row_error("graph-node row "@, number, " is truncated"@))
        } else {
            let row = node_of(f);
            if f.len() > 17 || row.graph_exec == 0 || row.replay_id == 0 || row.node == 0
                || row.grid_id == 0 || row.host_timestamp_ns == 0 || row.expected_blocks == 0
                || f[16].len() == 0 {
                Err(row_error("graph-node row "@, number, " is invalid"@))
            } else {
                Ok(row)
            }
        }
    }

    open spec fn max_rows() -> nat {
        MAX_GRAPH_NODES as nat
    }

    open spec fn excess() -> Seq<char> {
        "graph-node table exceeds the fixed subscriber capacity"@
    }

    open spec fn refusal() -> Seq<char> {
        ""@
    }

    fn line_kind(line: &[u8]) -> (r: LineKind) {
        if line_opens_with(line, "# format=GOSAN_GRAPH01 ") {
            LineKind::Format
        } else if line_opens_with(line, "graph_exec\t") {
            LineKind::Titles
        } else if line_is_comment(line) {
            LineKind::Comment
        } else {
            LineKind::Row
        }
    }

    fn read_row(line: &[u8], number: usize, rows_before: usize) -> (r: Result<GraphNode, String>) {
        let f = fields(line, TAB);
        if is_bad_hex(&f, 0) || is_bad_u32(&f, 1) || is_bad_hex(&f, 2) || is_bad_u64(&f, 3)
            || is_bad_u64(&f, 4) || is_bad_u32(&f, 5) || is_bad_u32(&f, 6) || is_bad_hex(&f, 7)
            || is_bad_hex(&f, 8) || is_bad_u32(&f, 9) || is_bad_u32(&f, 10) || is_bad_u32(&f, 11)
            || is_bad_u32(&f, 12) || is_bad_u32(&f, 13) || is_bad_u32(&f, 14) || is_bad_u64(
            &f,
            15,
        ) {
            return Err(number_error_text(&f, &node_columns_list()));
        }
        if f.len() < 17 {
            return Err(row_error_text("graph-node row ", number, " is truncated"));
        }
        let row = GraphNode {
            graph_exec: some_hex(f[0]),
            replay_id: some_u32(f[1]),
            node: some_hex(f[2]),
            grid_id: some_u64(f[3]),
            host_timestamp_ns: some_u64(f[4]),
            context_slot: some_u32(f[5]),
            kernel_slot: some_u32(f[6]),
            stream: some_hex(f[7]),
            api_stream: some_hex(f[8]),
            grid: Dim3 { x: some_u32(f[9]), y: some_u32(f[10]), z: some_u32(f[11]) },
            block: Dim3 { x: some_u32(f[12]), y: some_u32(f[13]), z: some_u32(f[14]) },
            expected_blocks: some_u64(f[15]),
        };
        if f.len() > 17 || row.graph_exec == 0 || row.replay_id == 0 || row.node == 0
            || row.grid_id == 0 || row.host_timestamp_ns == 0 || row.expected_blocks == 0
            || f[16].len() == 0 {
            return Err(row_error_text("graph-node row ", number, " is invalid"));
        }
        Ok(row)
    }

    fn row_limit() -> (r: usize) {
        MAX_GRAPH_NODES
    }

    fn excess_text() -> (r: &'static str) {
        "graph-node table exceeds the fixed subscriber capacity"
    }

    fn refusal_text() -> (r: &'static str) {
        ""
    }
}

pub open spec fn graph_nodes_of(s: Seq<u8>) -> Result<Seq<GraphNode>, Seq<char>> {
    if out_of_bounds(s.len(), MAX_GRAPH_BYTES as nat) {
        Err("invalid graph-node table size: "@ + decimal(s.len()))
    } else {
        match table_of::<GraphNodeTable>(lines_of(s)) {
            Err(error) => Err(error),
            Ok(table) => if !table.format || !table.titles {
                Err("graph-node table is missing its versioned header"@)
            } else {
                Ok(table.rows)
            },
        }
    }
}

fn sized(label: &str, size: usize) -> (text: String)
    ensures
        text@ == label@ + decimal(size as nat),
{
    let mut text = label.to_owned();
    append_decimal(&mut text, size as u64);
    text
}

/// Reads the graph nodes of a capture.
pub fn load_graph_nodes(bytes: &[u8]) -> (r: Result<Vec<GraphNode>, String>)
    ensures
        match (r, graph_nodes_of(bytes@)) {
            (Ok(nodes), Ok(expected)) => nodes@ == expected,
            (Err(error), Err(expected)) => error@ == expected,
            _ => false,
        },
{
    if bytes.len() == 0 || bytes.len() > MAX_GRAPH_BYTES {
        return Err(sized("invalid graph-node table size: ", bytes.len()));
    }
    let table = load_table::<GraphNodeTable>(bytes)?;
    if !table.format || !table.titles {
        return Err("graph-node table is missing its versioned header".to_owned());
    }
    Ok(table.rows)
}

// Ordinary launches.

/// A launch outside any graph.
#[derive(Clone, Copy, Debug, PartialEq, Eq, Structural)]
pub struct HostLaunch {
    pub host_timestamp_ns: u64,
}

/// The columns of a launch row that hold numbers, in the order in which they are read.
pub open spec fn launch_columns() -> Seq<(usize, NumberShape)> {
    seq![
        (0usize, NumberShape::U64),
        (1usize, NumberShape::U64),
        (2usize, NumberShape::U64),
        (3usize, NumberShape::U32),
        (4usize, NumberShape::U32),
        (5usize, NumberShape::Hex),
        (6usize, NumberShape::U32),
        (7usize, NumberShape::U32),
        (8usize, NumberShape::U32),
        (9usize, NumberShape::U32),
        (10usize, NumberShape::U32),
        (11usize, NumberShape::U32),
        (12usize, NumberShape::U64),
    ]
}

fn launch_columns_list() -> (list: Vec<(usize, NumberShape)>)
    ensures
        list@ == launch_columns(),
{
    let list: Vec<(usize, NumberShape)> = vec![
        (0usize, NumberShape::U64),
        (1usize, NumberShape::U64),
        (2usize, NumberShape::U64),
        (3usize, NumberShape::U32),
        (4usize, NumberShape::U32),
        (5usize, NumberShape::Hex),
        (6usize, NumberShape::U32),
        (7usize, NumberShape::U32),
        (8usize, NumberShape::U32),
        (9usize, NumberShape::U32),
        (10usize, NumberShape::U32),
        (11usize, NumberShape::U32),
        (12usize, NumberShape::U64),
    ];
    assert(list@ =~= launch_columns());
    list
}

/// Whether a field of a launch row is there and holds no number.
pub open spec fn launch_row_bad(f: Seq<Seq<u8>>) -> bool {
    ||| bad_u64(f, 0)
    ||| bad_u64(f, 1)
    ||| bad_u64(f, 2)
    ||| bad_u32(f, 3)
    ||| bad_u32(f, 4)
    ||| bad_hex(f, 5)
    ||| bad_u32(f, 6)
    ||| bad_u32(f, 7)
    ||| bad_u32(f, 8)
    ||| bad_u32(f, 9)
    ||| bad_u32(f, 10)
    ||| bad_u32(f, 11)
    ||| bad_u64(f, 12)
}

pub open spec fn some_zero(d: Dim3) -> bool {
    d.x == 0 || d.y == 0 || d.z == 0
}

/// Whether the row is not that of the next launch, or its values are out of
/// range.
pub open spec fn launch_row_invalid(f: Seq<Seq<u8>>, rows_before: nat) -> bool {
    let grid = dims_of(f, 6)->0;
    ||| f.len() > 14
    ||| u64_of(f[0])->0 != rows_before + 1
    ||| u64_of(f[1])->0 == 0
    ||| u64_of(f[2])->0 == 0
    ||| u32_of(f[3])->0 >= 4
    ||| u32_of(f[4])->0 >= 8192
    ||| hex_of(f[5])->0 == u64::MAX
    ||| some_zero(grid)
    ||| some_zero(dims_of(f, 9)->0)
    ||| u64_of(f[12])->0 != grid.x * grid.y * grid.z
    ||| f[13].len() == 0
}

/// The table of launches outside any graph.
pub struct OrdinaryLaunchTable;

impl TraceTable for OrdinaryLaunchTable {
    type Row = HostLaunch;

    open spec fn kind_of(line: Seq<u8>) -> LineKind {
        if opens_with(line, "# format=GOSAN02 "@) {
            LineKind::Format
        } else if opens_with(line, "launch_id\t"@) {
            LineKind::Titles
        } else if is_comment(line) {
            LineKind::Comment
        } else {
            LineKind::Row
        }
    }

    open spec fn row_of(line: Seq<u8>, number: nat, rows_before: nat) -> Result<
        HostLaunch,
        Seq<char>,
    > {
        let f = fields_of(line, TAB);
        if launch_row_bad(f) {
            Err(number_error(f, launch_columns()))
        } else if f.len() < 14 {
            Err("ordinary launch is truncated"@)
        } else if launch_row_invalid(f, rows_before) {
            Err(row_error("ordinary-launch row "@, number, " is invalid"@))
        } else {
            Ok(HostLaunch { host_timestamp_ns: u64_of(f[2])->0 })
        }
    }

    open spec fn max_rows() -> nat {
        MAX_GRAPH_NODES as nat
    }

    open spec fn excess() -> Seq<char> {
        "ordinary-launch table exceeds the fixed subscriber capacity"@
    }

    open spec fn refusal() -> Seq<char> {
        ""@
    }

    fn line_kind(line: &[u8]) -> (r: LineKind) {
        if line_opens_with(line, "# format=GOSAN02 ") {
            LineKind::Format
        } else if line_opens_with(line, "launch_id\t") {
            LineKind::Titles
        } else if line_is_comment(line) {
            LineKind::Comment
        } else {
            LineKind::Row
        }
    }

    fn read_row(line: &[u8], number: usize, rows_before: usize) -> (r: Result<HostLaunch, String>) {
        let f = fields(line, TAB);
        if is_bad_u64(&f, 0) || is_bad_u64(&f, 1) || is_bad_u64(&f, 2) || is_bad_u32(&f, 3)
            || is_bad_u32(&f, 4) || is_bad_hex(&f, 5) || is_bad_u32(&f, 6) || is_bad_u32(&f, 7)
            || is_bad_u32(&f, 8) || is_bad_u32(&f, 9) || is_bad_u32(&f, 10) || is_bad_u32(&f, 11)
            || is_bad_u64(&f, 12) {
            return Err(number_error_text(&f, &launch_columns_list()));
        }
        if f.len() < 14 {
            return Err("ordinary launch is truncated".to_owned());
        }
        let launch_id: u64 = some_u64(f[0]);
        let host_timestamp_ns: u64 = some_u64(f[2]);
        let grid = Dim3 { x: some_u32(f[6]), y: some_u32(f[7]), z: some_u32(f[8]) };
        let block = Dim3 { x: some_u32(f[9]), y: some_u32(f[10]), z: some_u32(f[11]) };
        proof {
            assert(grid.x * grid.y <= u32::MAX * u32::MAX) by (nonlinear_arith)
                requires
                    0 <= grid.x <= u32::MAX,
                    0 <= grid.y <= u32::MAX,
            ;
            let plane = grid.x * grid.y;
            assert(plane * grid.z <= u32::MAX * u32::MAX * u32::MAX) by (nonlinear_arith)
                requires
                    0 <= plane <= u32::MAX * u32::MAX,
                    0 <= grid.z <= u32::MAX,
            ;
        }
        let blocks: u128 = grid.x as u128 * grid.y as u128 * grid.z as u128;
        if f.len() > 14 || launch_id as u128 != rows_before as u128 + 1 || some_u64(f[1]) == 0
            || host_timestamp_ns == 0 || some_u32(f[3]) >= 4 || some_u32(f[4]) >= 8192 || some_hex(
            f[5],
        ) == u64::MAX || grid.x == 0 || grid.y == 0 || grid.z == 0 || block.x == 0 || block.y == 0
            || block.z == 0 || some_u64(f[12]) as u128 != blocks || f[13].len() == 0 {
            return Err(row_error_text("ordinary-launch row ", number, " is invalid"));
        }
        Ok(HostLaunch { host_timestamp_ns })
    }

    fn row_limit() -> (r: usize) {
        MAX_GRAPH_NODES
    }

    fn excess_text() -> (r: &'static str) {
        "ordinary-launch table exceeds the fixed subscriber capacity"
    }

    fn refusal_text() -> (r: &'static str) {
        ""
    }
}

pub open spec fn ordinary_launches_of(s: Seq<u8>) -> Result<Seq<HostLaunch>, Seq<char>> {
    if out_of_bounds(s.len(), MAX_LAUNCH_BYTES as nat) {
        Err("invalid ordinary-launch table size: "@ + decimal(s.len()))
    } else {
        match table_of::<OrdinaryLaunchTable>(lines_of(s)) {
            Err(error) => Err(error),
            Ok(table) => if !table.format || !table.titles || table.rows.len() == 0 {
                Err("ordinary-launch table is empty or missing its versioned header"@)
            } else {
                Ok(table.rows)
            },
        }
    }
}

/// Reads the launches of a capture that belong to no graph. They are numbered
/// from one on, without a gap.
pub fn load_ordinary_launches(bytes: &[u8]) -> (r: Result<Vec<HostLaunch>, String>)
    ensures
        match (r, ordinary_launches_of(bytes@)) {
            (Ok(launches), Ok(expected)) => launches@ == expected,
            (Err(error), Err(expected)) => error@ == expected,
            _ => false,
        },
{
    if bytes.len() == 0 || bytes.len() > MAX_LAUNCH_BYTES {
        return Err(sized("invalid ordinary-launch table size: ", bytes.len()));
    }
    let table = load_table::<OrdinaryLaunchTable>(bytes)?;
    if !table.format || !table.titles || table.rows.len() == 0 {
        return Err("ordinary-launch table is empty or missing its versioned header".to_owned());
    }
    Ok(table.rows)
}

// The summary of a probe.

/// How well a probe went.
#[derive(Clone, Copy, Debug, PartialEq, Eq, Structural)]
pub struct ProbeQuality {
    pub callback_data_scope_function: bool,
    pub launch_identity: u64,
    pub attributed_launches: u64,
    pub passive_launch_records: u64,
    pub passive_launches_seen: u64,
    pub launch_records: u64,
    pub launch_table_drops: u64,
    pub callback_data_failures: u64,
    pub setup_missed_launches: u64,
    pub graph_node_identity: u64,
    pub graph_nodes_seen: u64,
    pub graph_nodes_recorded: u64,
    pub graph_node_table_drops: u64,
}

pub open spec fn is_space(byte: u8) -> bool {
    byte == 0x20 || byte == 0x09 || byte == 0x0a || byte == 0x0c || byte == 0x0d
}

/// The length of the word that the text begins with.
pub open spec fn word_length(s: Seq<u8>) -> nat
    decreases s.len(),
{
    if s.len() == 0 || is_space(s[0]) {
        0
    } else {
        1 + word_length(s.drop_first())
    }
}

/// The words of a text, between white space.
pub open spec fn words_of(s: Seq<u8>) -> Seq<Seq<u8>>
    decreases s.len(),
{
    if s.len() == 0 {
        Seq::empty()
    } else if is_space(s[0]) {
        words_of(s.drop_first())
    } else {
        let n = word_length(s);
        proof {
            word_length_fits(s);
        }
        seq![s.take(n as int)] + words_of(s.skip(n as int))
    }
}

pub proof fn word_length_fits(s: Seq<u8>)
    ensures
        word_length(s) <= s.len(),
    decreases s.len(),
{
    if s.len() > 0 && !is_space(s[0]) {
        word_length_fits(s.drop_first());
    }
}

fn scan_word(s: &[u8], start: usize) -> (n: usize)
    requires
        start <= s.len(),
    ensures
        start <= n <= s.len(),
        n - start == word_length(s@.skip(start as int)),
        n < s.len() ==> is_space(s@[n as int]),
    decreases s.len() - start,
{
    if start == s.len() {
        return start;
    }
    let byte: u8 = s[start];
    if byte == 0x20 || byte == 0x09 || byte == 0x0a || byte == 0x0c || byte == 0x0d {
        return start;
    }
    let mut n: usize = start + 1;
    proof {
        assert(s@.skip(start as int).drop_first() =~= s@.skip(start + 1));
    }
    while n < s.len() && !(s[n] == 0x20 || s[n] == 0x09 || s[n] == 0x0a || s[n] == 0x0c || s[n]
        == 0x0d)
        invariant
            start < n <= s.len(),
            word_length(s@.skip(start as int)) == (n - start) + word_length(s@.skip(n as int)),
        decreases s.len() - n,
    {
        assert(s@.skip(n as int).drop_first() =~= s@.skip(n + 1));
        n += 1;
    }
    assert(word_length(s@.skip(n as int)) == 0);
    n
}

/// The words of a text.
pub fn words<'a>(s: &'a [u8]) -> (parts: Vec<&'a [u8]>)
    ensures
        views(parts@) == words_of(s@),
{
    let mut parts: Vec<&'a [u8]> = Vec::new();
    let mut start: usize = 0;
    proof {
        assert(s@.skip(0) =~= s@);
        assert(views(parts@) + words_of(s@) =~= words_of(s@));
    }
    while start < s.len()
        invariant
            start <= s.len(),
            views(parts@) + words_of(s@.skip(start as int)) == words_of(s@),
        decreases s.len() - start,
    {
        let byte: u8 = s[start];
        let ghost rest = s@.skip(start as int);
        if byte == 0x20 || byte == 0x09 || byte == 0x0a || byte == 0x0c || byte == 0x0d {
            assert(rest.drop_first() =~= s@.skip(start + 1));
            start += 1;
        } else {
            let n: usize = scan_word(s, start);
            assert(n > start);
            let part = slice_subrange(s, start, n);
            let ghost before = views(parts@);
            proof {
                assert(rest.take(n - start) =~= part@);
                assert(rest.skip(n - start) =~= s@.skip(n as int));
            }
            parts.push(part);
            proof {
                assert(views(parts@) =~= before.push(part@));
                assert(before.push(part@) + words_of(s@.skip(n as int)) =~= before + (seq![part@]
                    + words_of(s@.skip(n as int))));
            }
            start = n;
        }
    }
    proof {
        assert(s@.skip(start as int) =~= Seq::<u8>::empty());
        assert(views(parts@) + words_of(s@.skip(start as int)) =~= views(parts@));
    }
    parts
}

/// What follows the key and an equals sign in the word, if it begins so.
pub open spec fn value_in(word: Seq<u8>, key: Seq<char>) -> Option<Seq<u8>> {
    let n = encode_utf8(key).len() as int;
    if starts_with(word, encode_utf8(key)) && word.len() > n && word[n] == 0x3d {
        Some(word.skip(n + 1))
    } else {
        None
    }
}

/// The value of the key in the first word that has it.
pub open spec fn value_of(all: Seq<Seq<u8>>, key: Seq<char>) -> Option<Seq<u8>>
    decreases all.len(),
{
    if all.len() == 0 {
        None
    } else {
        match value_of(all.drop_last(), key) {
            Some(value) => Some(value),
            None => value_in(all.last(), key),
        }
    }
}

proof fn value_stays(all: Seq<Seq<u8>>, key: Seq<char>, n: int)
    requires
        0 <= n <= all.len(),
        value_of(all.take(n), key) is Some,
    ensures
        value_of(all, key) == value_of(all.take(n), key),
    decreases all.len() - n,
{
    if n < all.len() {
        assert(all.take(n + 1).drop_last() =~= all.take(n));
        value_stays(all, key, n + 1);
    } else {
        assert(all.take(n) =~= all);
    }
}

fn find_value<'a>(all: &Vec<&'a [u8]>, key: &str) -> (r: Option<&'a [u8]>)
    ensures
        value_of(views(all@), key@) == match r {
            Some(value) => Some(value@),
            None => None,
        },
{
    let ghost parts = views(all@);
    let name = key.as_bytes();
    let mut i: usize = 0;
    assert(parts.take(0) =~= Seq::<Seq<u8>>::empty());
    while i < all.len()
        invariant
            i <= all.len(),
            parts == views(all@),
            name@ == encode_utf8(key@),
            value_of(parts.take(i as int), key@) is None,
        decreases all.len() - i,
    {
        let word = all[i];
        proof {
            assert(parts.take(i + 1).drop_last() =~= parts.take(i as int));
            assert(parts.take(i + 1).last() == word@);
        }
        if has_prefix(word, name) && word.len() > name.len() && word[name.len()] == 0x3d {
            let value = slice_subrange(word, name.len() + 1, word.len());
            proof {
                assert(value@ =~= word@.skip(name@.len() as int + 1));
                value_stays(parts, key@, i + 1);
            }
            return Some(value);
        }
        i += 1;
    }
    assert(parts.take(parts.len() as int) =~= parts);
    None
}

pub open spec fn missing_key(key: Seq<char>) -> Seq<char> {
    "probe summary is missing "@ + key
}

/// The number of the key.
pub open spec fn number_for(all: Seq<Seq<u8>>, key: Seq<char>) -> Result<u64, Seq<char>> {
    match value_of(all, key) {
        None => Err(missing_key(key)),
        Some(value) => match u64_of(value) {
            Some(number) => Ok(number),
            None => Err(fault_answer(field_fault(value, NumberShape::U64))),
        },
    }
}

fn find_number(all: &Vec<&[u8]>, key: &str) -> (r: Result<u64, String>)
    ensures
        match (r, number_for(views(all@), key@)) {
            (Ok(number), Ok(expected)) => number == expected,
            (Err(error), Err(expected)) => error@ == expected,
            _ => false,
        },
{
    match find_value(all, key) {
        None => {
            let mut text = "probe summary is missing ".to_owned();
            text.append(key);
            Err(text)
        },
        Some(value) => match read_u64(value) {
            Some(number) => Ok(number),
            None => Err(field_error_text(value, NumberShape::U64)),
        },
    }
}

/// The numbers of the keys, or the first complaint.
pub open spec fn numbers_for(all: Seq<Seq<u8>>, keys: Seq<Seq<char>>) -> Result<
    Seq<u64>,
    Seq<char>,
>
    decreases keys.len(),
{
    if keys.len() == 0 {
        Ok(Seq::empty())
    } else {
        match numbers_for(all, keys.drop_last()) {
            Err(error) => Err(error),
            Ok(numbers) => match number_for(all, keys.last()) {
                Err(error) => Err(error),
                Ok(number) => Ok(numbers.push(number)),
            },
        }
    }
}

proof fn numbers_failure_stays(all: Seq<Seq<u8>>, keys: Seq<Seq<char>>, n: int)
    requires
        0 <= n <= keys.len(),
        numbers_for(all, keys.take(n)) is Err,
    ensures
        numbers_for(all, keys) == numbers_for(all, keys.take(n)),
    decreases keys.len() - n,
{
    if n < keys.len() {
        assert(keys.take(n + 1).drop_last() =~= keys.take(n));
        numbers_failure_stays(all, keys, n + 1);
    } else {
        assert(keys.take(n) =~= keys);
    }
}

/// The keys of a summary that hold numbers, in the order in which they are
/// asked for.
pub open spec fn probe_keys() -> Seq<Seq<char>> {
    seq![
        "launch_identity"@,
        "attributed_launches"@,
        "passive_launch_records"@,
        "passive_launches_seen"@,
        "launch_records"@,
        "launch_table_drops"@,
        "callback_data_failures"@,
        "setup_missed_launches"@,
        "graph_node_identity"@,
        "graph_nodes_seen"@,
        "graph_nodes_recorded"@,
        "graph_node_table_drops"@,
    ]
}

/// What a probe summary is read as. Its values stand in the first line.
pub open spec fn probe_quality_of(s: Seq<u8>) -> Result<ProbeQuality, Seq<char>> {
    let all = words_of(lines_of(s)[0]);
    if out_of_bounds(s.len(), MAX_PROBE_SUMMARY_BYTES as nat) {
        Err("invalid probe summary size: "@ + decimal(s.len()))
    } else if !valid_utf8(lines_of(s)[0]) {
        Err(not_text())
    } else {
        match value_of(all, "callback_data_scope"@) {
            None => Err(missing_key("callback_data_scope"@)),
            Some(scope) => match numbers_for(all, probe_keys()) {
                Err(error) => Err(error),
                Ok(n) => Ok(
                    ProbeQuality {
                        callback_data_scope_function: scope == encode_utf8("function"@),
                        launch_identity: n[0],
                        attributed_launches: n[1],
                        passive_launch_records: n[2],
                        passive_launches_seen: n[3],
                        launch_records: n[4],
                        launch_table_drops: n[5],
                        callback_data_failures: n[6],
                        setup_missed_launches: n[7],
                        graph_node_identity: n[8],
                        graph_nodes_seen: n[9],
                        graph_nodes_recorded: n[10],
                        graph_node_table_drops: n[11],
                    },
                ),
            },
        }
    }
}

/// Reads the summary of a probe.
pub fn load_probe_quality(bytes: &[u8]) -> (r: Result<ProbeQuality, String>)
    ensures
        match (r, probe_quality_of(bytes@)) {
            (Ok(quality), Ok(expected)) => quality == expected,
            (Err(error), Err(expected)) => error@ == expected,
            _ => false,
        },
{
    if bytes.len() == 0 || bytes.len() > MAX_PROBE_SUMMARY_BYTES {
        return Err(sized("invalid probe summary size: ", bytes.len()));
    }
    let all_lines = lines(bytes);
    proof {
        assert(lines_of(bytes@).len() > 0);
        assert(views(all_lines@).len() == all_lines@.len());
    }
    if !is_text(all_lines[0]) {
        return Err(not_text_words().to_owned());
    }
    let all = words(all_lines[0]);
    let scope = match find_value(&all, "callback_data_scope") {
        Some(scope) => scope,
        None => {
            let mut text = "probe summary is missing ".to_owned();
            text.append("callback_data_scope");
            return Err(text);
        },
    };
    let keys: [&str; 12] = [
        "launch_identity",
        "attributed_launches",
        "passive_launch_records",
        "passive_launches_seen",
        "launch_records",
        "launch_table_drops",
        "callback_data_failures",
        "setup_missed_launches",
        "graph_node_identity",
        "graph_nodes_seen",
        "graph_nodes_recorded",
        "graph_node_table_drops",
    ];
    let ghost names = probe_keys();
    let ghost parts = views(all@);
    let mut n: Vec<u64> = Vec::new();
    let mut i: usize = 0;
    assert(names.take(0) =~= Seq::<Seq<char>>::empty());
    proof {
        assert forall|k: int| 0 <= k < 12 implies (#[trigger] keys@[k])@ == names[k] by {}
    }
    while i < 12
        invariant
            i <= 12,
            names == probe_keys(),
            keys@.len() == 12,
            forall|k: int| 0 <= k < 12 ==> (#[trigger] keys@[k])@ == names[k],
            parts == views(all@),
            n@.len() == i,
            numbers_for(parts, names.take(i as int)) == Ok::<Seq<u64>, Seq<char>>(n@),
            probe_quality_of(bytes@) is Err || numbers_for(parts, names) is Ok,
            numbers_for(parts, names) is Err ==> probe_quality_of(bytes@) == Err::<
                ProbeQuality,
                Seq<char>,
            >(numbers_for(parts, names)->Err_0),
        decreases 12 - i,
    {
        proof {
            assert(names.take(i + 1).drop_last() =~= names.take(i as int));
            assert(names.take(i + 1).last() == names[i as int]);
            if numbers_for(parts, names.take(i + 1)) is Err {
                numbers_failure_stays(parts, names, i + 1);
            }
            assert(keys@[i as int]@ == names[i as int]);
        }
        n.push(find_number(&all, keys[i])?);
        i += 1;
    }
    assert(names.take(12) =~= names);
    Ok(
        ProbeQuality {
            callback_data_scope_function: same(scope, "function".as_bytes()),
            launch_identity: n[0],
            attributed_launches: n[1],
            passive_launch_records: n[2],
            passive_launches_seen: n[3],
            launch_records: n[4],
            launch_table_drops: n[5],
            callback_data_failures: n[6],
            setup_missed_launches: n[7],
            graph_node_identity: n[8],
            graph_nodes_seen: n[9],
            graph_nodes_recorded: n[10],
            graph_node_table_drops: n[11],
        },
    )
}

} // verus!
