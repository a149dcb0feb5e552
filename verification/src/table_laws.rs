//! What the rows of the trace tables hold, in terms of the lines that they were
//! read from.

use crate::bundle::{BundleCall, BundleCallTable, BundleKernel, BundleKernelTable};
use crate::cupti::{
    api_of, ApiActivity, FamilyActivity, FamilyTable, KernelActivity, KernelTable,
};
use crate::graph::{GraphNode, GraphNodeTable, HostLaunch, OrdinaryLaunchTable};
use crate::sums::count_of;
use crate::tables::{hex_of, table_of, u32_of, u64_of, LineKind, TableModel, TraceTable, TAB};
use crate::text::fields_of;
use vstd::prelude::*;

verus! {

// Lines.

/// Whether the line is a row of the table and is read as the value.
pub open spec fn is_read_from<T: TraceTable>(
    all: Seq<Seq<u8>>,
    k: int,
    i: int,
    row: T::Row,
) -> bool {
    &&& 0 <= k < all.len()
    &&& T::kind_of(all[k]) is Row
    &&& T::row_of(all[k], (k + 1) as nat, i as nat) == Ok::<T::Row, Seq<char>>(row)
}

/// Whether one of the lines is of the kind.
pub open spec fn has_line<T: TraceTable>(all: Seq<Seq<u8>>, kind: LineKind) -> bool {
    exists|k: int| 0 <= k < all.len() && T::kind_of(#[trigger] all[k]) == kind
}

proof fn one_line_more<T: TraceTable>(all: Seq<Seq<u8>>, kind: LineKind)
    requires
        all.len() > 0,
    ensures
        has_line::<T>(all, kind) == (has_line::<T>(all.drop_last(), kind) || T::kind_of(all.last())
            == kind),
{
    let front = all.drop_last();
    assert(all[all.len() - 1] == all.last());
    if has_line::<T>(front, kind) {
        let k = choose|k: int| 0 <= k < front.len() && T::kind_of(#[trigger] front[k]) == kind;
        assert(T::kind_of(all[k]) == kind);
    }
    if has_line::<T>(all, kind) && T::kind_of(all.last()) != kind {
        let k = choose|k: int| 0 <= k < all.len() && T::kind_of(#[trigger] all[k]) == kind;
        assert(T::kind_of(front[k]) == kind);
    }
}

/// Whether the value is read from one of the lines.
pub open spec fn is_read<T: TraceTable>(all: Seq<Seq<u8>>, i: int, row: T::Row) -> bool {
    exists|k: int| #[trigger] is_read_from::<T>(all, k, i, row)
}

/// A table has as many rows as there are row lines, and each is read from such a
/// line. It has a format or titles exactly where a line says so.
pub proof fn table_holds_its_row_lines<T: TraceTable>(
    all: Seq<Seq<u8>>,
    table: TableModel<T::Row>,
)
    requires
        table_of::<T>(all) == Ok::<TableModel<T::Row>, Seq<char>>(table),
    ensures
        table.rows.len() == count_of(all, |line: Seq<u8>| T::kind_of(line) is Row),
        table.rows.len() <= T::max_rows(),
        forall|i: int|
            0 <= i < table.rows.len() ==> is_read::<T>(all, i, #[trigger] table.rows[i]),
        table.format <==> has_line::<T>(all, LineKind::Format),
        table.titles <==> has_line::<T>(all, LineKind::Titles),
    decreases all.len(),
{
    if all.len() > 0 {
        let front = all.drop_last();
        let end = all.len() - 1;
        let before = table_of::<T>(front)->Ok_0;
        table_holds_its_row_lines::<T>(front, before);
        one_line_more::<T>(all, LineKind::Format);
        one_line_more::<T>(all, LineKind::Titles);
        assert(all[end] == all.last());
        assert forall|k: int| 0 <= k < end implies #[trigger] all[k] == front[k] by {}
        assert forall|k: int| 0 <= k < end implies #[trigger] front[k] == all[k] by {}
        assert forall|i: int| 0 <= i < table.rows.len() implies is_read::<T>(
            all,
            i,
            #[trigger] table.rows[i],
        ) by {
            if i < before.rows.len() {
                assert(table.rows[i] == before.rows[i]);
                assert(is_read::<T>(front, i, before.rows[i]));
                let k = choose|k: int| #[trigger]
                    is_read_from::<T>(front, k, i, before.rows[i]);
                assert(is_read_from::<T>(all, k, i, table.rows[i]));
            } else {
                assert(is_read_from::<T>(all, end, i, table.rows[i]));
            }
        }
    }
}

// Rows.

/// Whether the three fields hold the sides.
pub open spec fn holds_sides(f: Seq<Seq<u8>>, i: int, x: u32, y: u32, z: u32) -> bool {
    u32_of(f[i]) == Some(x) && u32_of(f[i + 1]) == Some(y) && u32_of(f[i + 2]) == Some(z)
}

/// A kernel row holds the times, stream, call, graph and sides of its line, and
/// the kernel takes time.
pub proof fn kernel_row_holds_its_columns(
    line: Seq<u8>,
    number: nat,
    before: nat,
    row: KernelActivity,
)
    requires
        KernelTable::row_of(line, number, before) == Ok::<KernelActivity, Seq<char>>(row),
    ensures
        ({
            let f = fields_of(line, TAB);
            &&& f.len() == 18
            &&& u64_of(f[0]) == Some(row.start_ns) && u64_of(f[1]) == Some(row.end_ns)
            &&& u32_of(f[4]) == Some(row.stream) && u32_of(f[5]) == Some(row.correlation)
            &&& u64_of(f[7]) == Some(row.graph_node_id) && u32_of(f[8]) == Some(row.graph_id)
            &&& holds_sides(f, 9, row.grid.x, row.grid.y, row.grid.z)
            &&& holds_sides(f, 12, row.block.x, row.block.y, row.block.z)
        }),
        0 < row.start_ns < row.end_ns,
        row.correlation != 0,
{
}

/// The two readers of kernel rows agree: where both accept a line they tell the
/// same of it, and what is read with its sides is also read with its family.
pub proof fn kernel_readers_agree(line: Seq<u8>, number: nat, before: nat)
    ensures
        KernelTable::row_of(line, number, before) matches Ok(a) ==> (FamilyTable::row_of(
            line,
            number,
            before,
        ) matches Ok(b) && b.start_ns == a.start_ns && b.end_ns == a.end_ns && b.stream == a.stream
            && b.correlation == a.correlation && b.graph_node_id == a.graph_node_id && b.graph_id
            == a.graph_id && b.family == crate::cupti::family_of(fields_of(line, TAB)[17])),
        BundleKernelTable::row_of(line, number, before) matches Ok(c) ==> (KernelTable::row_of(
            line,
            number,
            before,
        ) matches Ok(a) && c.start_ns == a.start_ns && c.end_ns == a.end_ns && c.stream == a.stream
            && c.correlation == a.correlation && c.graph_node_id == a.graph_node_id && c.graph_id
            == a.graph_id && c.grid == a.grid && c.block == a.block),
{
}

/// A kernel row with its family holds the columns of its line.
pub proof fn family_row_holds_its_columns(
    line: Seq<u8>,
    number: nat,
    before: nat,
    row: FamilyActivity,
)
    requires
        FamilyTable::row_of(line, number, before) == Ok::<FamilyActivity, Seq<char>>(row),
    ensures
        ({
            let f = fields_of(line, TAB);
            &&& f.len() == 18 && f[17].len() > 0
            &&& u64_of(f[0]) == Some(row.start_ns) && u64_of(f[1]) == Some(row.end_ns)
            &&& u32_of(f[4]) == Some(row.stream) && u32_of(f[5]) == Some(row.correlation)
            &&& u64_of(f[7]) == Some(row.graph_node_id) && u32_of(f[8]) == Some(row.graph_id)
        }),
        0 < row.start_ns < row.end_ns,
        row.correlation != 0,
{
}

/// A kernel row of a bundle holds the columns of its line and the line's number,
/// and none of its sides is zero.
pub proof fn bundle_kernel_row_holds_its_columns(
    line: Seq<u8>,
    number: nat,
    before: nat,
    row: BundleKernel,
)
    requires
        number <= usize::MAX,
        BundleKernelTable::row_of(line, number, before) == Ok::<BundleKernel, Seq<char>>(row),
    ensures
        ({
            let f = fields_of(line, TAB);
            &&& f.len() == 18
            &&& u64_of(f[0]) == Some(row.start_ns) && u64_of(f[1]) == Some(row.end_ns)
            &&& u32_of(f[4]) == Some(row.stream) && u32_of(f[5]) == Some(row.correlation)
            &&& u64_of(f[6]) == Some(row.grid_id) && u64_of(f[7]) == Some(row.graph_node_id)
            &&& u32_of(f[8]) == Some(row.graph_id)
            &&& holds_sides(f, 9, row.grid.x, row.grid.y, row.grid.z)
            &&& holds_sides(f, 12, row.block.x, row.block.y, row.block.z)
        }),
        row.line == number,
        0 < row.start_ns < row.end_ns,
        row.correlation != 0,
        row.grid.x > 0 && row.grid.y > 0 && row.grid.z > 0,
        row.block.x > 0 && row.block.y > 0 && row.block.z > 0,
{
}

/// A call row holds the columns of its line, and the call does not end before it
/// starts. The readers of calls agree.
pub proof fn call_row_holds_its_columns(
    label: Seq<char>,
    line: Seq<u8>,
    number: nat,
    before: nat,
    row: ApiActivity,
)
    requires
        api_of(label, line, number) == Ok::<ApiActivity, Seq<char>>(row),
    ensures
        ({
            let f = fields_of(line, TAB);
            &&& f.len() == 7
            &&& u64_of(f[0]) == Some(row.start_ns) && u64_of(f[1]) == Some(row.end_ns)
            &&& u32_of(f[2]) == Some(row.process) && u32_of(f[4]) == Some(row.correlation)
            &&& u32_of(f[6]) == Some(row.return_value)
        }),
        0 < row.start_ns <= row.end_ns,
        row.correlation != 0,
        BundleCallTable::row_of(line, number, before) matches Ok(call) ==> call.start_ns
            == row.start_ns && call.end_ns == row.end_ns && call.process == row.process
            && call.correlation == row.correlation && call.return_value == row.return_value,
{
}

/// A call row of a bundle holds the columns of its line.
pub proof fn bundle_call_row_holds_its_columns(
    line: Seq<u8>,
    number: nat,
    before: nat,
    row: BundleCall,
)
    requires
        BundleCallTable::row_of(line, number, before) == Ok::<BundleCall, Seq<char>>(row),
    ensures
        ({
            let f = fields_of(line, TAB);
            &&& f.len() == 7
            &&& u64_of(f[0]) == Some(row.start_ns) && u64_of(f[1]) == Some(row.end_ns)
            &&& u32_of(f[2]) == Some(row.process) && u32_of(f[3]) == Some(row.thread)
            &&& u32_of(f[4]) == Some(row.correlation) && u32_of(f[5]) == Some(row.cbid)
            &&& u32_of(f[6]) == Some(row.return_value)
        }),
        0 < row.start_ns <= row.end_ns,
        row.correlation != 0,
{
}

/// A node row holds the columns of its line, and what identifies the node is not
/// zero.
pub proof fn node_row_holds_its_columns(line: Seq<u8>, number: nat, before: nat, row: GraphNode)
    requires
        GraphNodeTable::row_of(line, number, before) == Ok::<GraphNode, Seq<char>>(row),
    ensures
        ({
            let f = fields_of(line, TAB);
            &&& f.len() == 17
            &&& hex_of(f[0]) == Some(row.graph_exec) && u32_of(f[1]) == Some(row.replay_id)
            &&& hex_of(f[2]) == Some(row.node) && u64_of(f[3]) == Some(row.grid_id)
            &&& u64_of(f[4]) == Some(row.host_timestamp_ns)
            &&& u32_of(f[5]) == Some(row.context_slot) && u32_of(f[6]) == Some(row.kernel_slot)
            &&& hex_of(f[7]) == Some(row.stream) && hex_of(f[8]) == Some(row.api_stream)
            &&& holds_sides(f, 9, row.grid.x, row.grid.y, row.grid.z)
            &&& holds_sides(f, 12, row.block.x, row.block.y, row.block.z)
            &&& u64_of(f[15]) == Some(row.expected_blocks)
        }),
        row.graph_exec != 0 && row.replay_id != 0 && row.node != 0 && row.grid_id != 0,
        row.host_timestamp_ns != 0 && row.expected_blocks != 0,
{
}

/// A launch row holds the moment of its line, is numbered behind the rows before
/// it, and tells as many blocks as its grid has.
pub proof fn launch_row_holds_its_columns(line: Seq<u8>, number: nat, before: nat, row: HostLaunch)
    requires
        OrdinaryLaunchTable::row_of(line, number, before) == Ok::<HostLaunch, Seq<char>>(row),
    ensures
        ({
            let f = fields_of(line, TAB);
            &&& f.len() == 14
            &&& u64_of(f[0]) matches Some(id) && id == before + 1
            &&& u64_of(f[2]) == Some(row.host_timestamp_ns)
            &&& u32_of(f[6]) matches Some(x) && u32_of(f[7]) matches Some(y) && u32_of(
                f[8],
            ) matches Some(z) && u64_of(f[12]) matches Some(blocks) && x > 0 && y > 0 && z > 0
                && blocks == x * y * z
        }),
        row.host_timestamp_ns != 0,
{
}

} // verus!
