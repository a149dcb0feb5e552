//! The blocks of graph nodes: which request each thread block worked for.

use crate::graph::GraphNode;
use crate::ownership::{owner_for_row, owner_is_inside, owner_of, OwnershipSlice, SemanticTrace, TraceStep};
use crate::trace_event::Dim3;
use vstd::prelude::*;
use vstd::slice::slice_subrange;
use vstd::string::*;

verus! {

/// The kind of an event that a thread block left.
pub const BLOCK_EVENT: u16 = 1;

/// An event that a device wrote.
#[derive(Clone, Copy, Debug, PartialEq, Eq, Structural)]
pub struct DeviceEvent {
    pub launch_id: u64,
    pub sequence: u32,
    pub device_timestamp_raw: u64,
    pub sm_id: u16,
    pub block: Dim3,
    pub kernel_slot: u32,
    pub kind: u16,
}

/// A graph node together with the step that it ran for.
#[derive(Clone, Copy, Debug, PartialEq, Eq, Structural)]
pub struct NodeJob {
    pub node: GraphNode,
    pub step_index: usize,
}

// One node.

/// Whether the node has a block for every scheduled token in a single row.
pub open spec fn has_row_geometry(node: GraphNode, scheduled: u32) -> bool {
    &&& node.grid.y == 1
    &&& node.grid.z == 1
    &&& node.expected_blocks == node.grid.x
    &&& node.grid.x >= scheduled
}

/// Whether the event can stem from a block of the node.
pub open spec fn event_fits(event: DeviceEvent, node: GraphNode) -> bool {
    &&& event.kind == BLOCK_EVENT
    &&& event.kernel_slot == node.kernel_slot
    &&& event.block.y == 0
    &&& event.block.z == 0
    &&& event.block.x < node.grid.x
}

/// Whether an earlier event has the same block.
pub open spec fn block_repeats(events: Seq<DeviceEvent>, i: int) -> bool {
    exists|j: int| 0 <= j < i && (#[trigger] events[j]).block.x == events[i].block.x
}

/// What is wrong with an event of a node, if anything.
pub open spec fn event_fault(
    events: Seq<DeviceEvent>,
    i: int,
    node: GraphNode,
    scheduled: u32,
    owners: Seq<OwnershipSlice>,
) -> Option<Seq<char>> {
    let event = events[i];
    if !event_fits(event, node) {
        Some("device event disagrees with graph-node kind, kernel, or geometry"@)
    } else if block_repeats(events, i) {
        Some("duplicate block coordinate inside a graph node"@)
    } else if event.block.x < scheduled && owner_of(owners, event.block.x) is None {
        Some("scheduled token row has no authoritative owner"@)
    } else {
        None
    }
}

/// What is wrong with the first events of a node, if anything.
pub open spec fn events_fault(
    events: Seq<DeviceEvent>,
    n: int,
    node: GraphNode,
    scheduled: u32,
    owners: Seq<OwnershipSlice>,
) -> Option<Seq<char>>
    decreases n,
{
    if n <= 0 {
        None
    } else {
        match events_fault(events, n - 1, node, scheduled, owners) {
            Some(fault) => Some(fault),
            None => event_fault(events, n - 1, node, scheduled, owners),
        }
    }
}

/// Whether the event belongs to the owner at the offset.
pub open spec fn event_owned(
    event: DeviceEvent,
    scheduled: u32,
    owners: Seq<OwnershipSlice>,
    offset: int,
) -> bool {
    event.block.x < scheduled && owner_of(owners, event.block.x) == Some(offset)
}

/// How many of the events belong to the owner at the offset.
pub open spec fn owned(
    events: Seq<DeviceEvent>,
    n: int,
    scheduled: u32,
    owners: Seq<OwnershipSlice>,
    offset: int,
) -> nat
    decreases n,
{
    if n <= 0 {
        0
    } else {
        owned(events, n - 1, scheduled, owners, offset) + if event_owned(
            events[n - 1],
            scheduled,
            owners,
            offset,
        ) {
            1nat
        } else {
            0
        }
    }
}

/// How many of the events belong to padding rows.
pub open spec fn padded(events: Seq<DeviceEvent>, n: int, scheduled: u32) -> nat
    decreases n,
{
    if n <= 0 {
        0
    } else {
        padded(events, n - 1, scheduled) + if events[n - 1].block.x < scheduled {
            0nat
        } else {
            1
        }
    }
}

/// How many of the events the owner at the place gets, where the owners of the
/// step begin at `start`.
pub open spec fn share(
    events: Seq<DeviceEvent>,
    n: int,
    scheduled: u32,
    owners: Seq<OwnershipSlice>,
    start: int,
    place: int,
) -> nat {
    if start <= place < start + owners.len() {
        owned(events, n, scheduled, owners, place - start)
    } else {
        0
    }
}

proof fn fault_stays(
    events: Seq<DeviceEvent>,
    n: int,
    m: int,
    node: GraphNode,
    scheduled: u32,
    owners: Seq<OwnershipSlice>,
)
    requires
        0 <= n <= m,
        events_fault(events, n, node, scheduled, owners) is Some,
    ensures
        events_fault(events, m, node, scheduled, owners) == events_fault(
            events,
            n,
            node,
            scheduled,
            owners,
        ),
    decreases m - n,
{
    if n < m {
        fault_stays(events, n, m - 1, node, scheduled, owners);
    }
}

proof fn shares_are_bounded(
    events: Seq<DeviceEvent>,
    n: int,
    scheduled: u32,
    owners: Seq<OwnershipSlice>,
    start: int,
    place: int,
)
    requires
        0 <= n,
    ensures
        share(events, n, scheduled, owners, start, place) <= n,
        padded(events, n, scheduled) <= n,
    decreases n,
{
    if n > 0 {
        shares_are_bounded(events, n - 1, scheduled, owners, start, place);
    }
}

/// Adds the events of a node to the counts of the owners and gives the number
/// of blocks in padding rows.
fn tally_events(
    events: &[DeviceEvent],
    node: &GraphNode,
    scheduled: u32,
    owners: &[OwnershipSlice],
    start: usize,
    counts: &mut Vec<u64>,
) -> (r: Result<u64, &'static str>)
    requires
        start + owners@.len() <= old(counts)@.len(),
        forall|k: int|
            0 <= k < old(counts)@.len() ==> (#[trigger] old(counts)@[k]) + events@.len()
                <= u64::MAX,
    ensures
        final(counts)@.len() == old(counts)@.len(),
        match (r, events_fault(events@, events@.len() as int, *node, scheduled, owners@)) {
            (Ok(padding), None) => {
                &&& padding == padded(events@, events@.len() as int, scheduled)
                &&& forall|k: int|
                    0 <= k < old(counts)@.len() ==> (#[trigger] final(counts)@[k]) == old(
                        counts,
                    )@[k] + share(
                        events@,
                        events@.len() as int,
                        scheduled,
                        owners@,
                        start as int,
                        k,
                    )
            },
            (Err(error), Some(fault)) => error@ == fault,
            _ => false,
        },
{
    let ghost before = counts@;
    let mut seen: Vec<bool> = Vec::new();
    let mut row: u32 = 0;
    while row < node.grid.x
        invariant
            row <= node.grid.x,
            seen@.len() == row,
            forall|k: int| 0 <= k < row ==> !(#[trigger] seen@[k]),
        decreases node.grid.x - row,
    {
        seen.push(false);
        row += 1;
    }
    let mut padding: u64 = 0;
    let mut i: usize = 0;
    while i < events.len()
        invariant
            i <= events.len(),
            before == old(counts)@,
            counts@.len() == before.len(),
            start + owners@.len() <= before.len(),
            forall|k: int|
                0 <= k < before.len() ==> (#[trigger] before[k]) + events@.len() <= u64::MAX,
            forall|k: int|
                0 <= k < before.len() ==> (#[trigger] counts@[k]) == before[k] + share(
                    events@,
                    i as int,
                    scheduled,
                    owners@,
                    start as int,
                    k,
                ),
            padding == padded(events@, i as int, scheduled),
            padding <= i,
            events_fault(events@, i as int, *node, scheduled, owners@) is None,
            seen@.len() == node.grid.x,
            forall|k: int|
                0 <= k < seen@.len() ==> ((#[trigger] seen@[k]) <==> exists|j: int|
                    0 <= j < i && (#[trigger] events@[j]).block.x == k),
        decreases events.len() - i,
    {
        let event = events[i];
        proof {
            if event_fault(events@, i as int, *node, scheduled, owners@) is Some {
                fault_stays(events@, i + 1, events@.len() as int, *node, scheduled, owners@);
            }
            assert forall|k: int| 0 <= k < before.len() implies (#[trigger] counts@[k])
                < u64::MAX by {
                shares_are_bounded(events@, i as int, scheduled, owners@, start as int, k);
            }
        }
        if event.kind != BLOCK_EVENT || event.kernel_slot != node.kernel_slot || event.block.y != 0
            || event.block.z != 0 || event.block.x >= node.grid.x {
            return Err("device event disagrees with graph-node kind, kernel, or geometry");
        }
        let row: usize = event.block.x as usize;
        if seen[row] {
            assert(block_repeats(events@, i as int));
            return Err("duplicate block coordinate inside a graph node");
        }
        assert(!block_repeats(events@, i as int)) by {
            if block_repeats(events@, i as int) {
                let j = choose|j: int|
                    0 <= j < i && (#[trigger] events@[j]).block.x == events@[i as int].block.x;
                assert(seen@[row as int]);
            }
        }
        let ghost seen_before = seen@;
        seen.set(row, true);
        assert forall|k: int| 0 <= k < seen@.len() implies ((#[trigger] seen@[k]) <==> exists|
            j: int,
        |
            0 <= j < i + 1 && (#[trigger] events@[j]).block.x == k) by {
            if k == row {
                assert(events@[i as int].block.x == k);
            } else {
                assert(seen@[k] == seen_before[k]);
                if seen_before[k] {
                    let j = choose|j: int| 0 <= j < i && (#[trigger] events@[j]).block.x == k;
                    assert(events@[j].block.x == k);
                }
            }
        }
        let ghost so_far = counts@;
        if event.block.x < scheduled {
            match owner_for_row(owners, event.block.x) {
                None => {
                    return Err("scheduled token row has no authoritative owner");
                },
                Some(offset) => {
                    proof {
                        owner_is_inside(owners@, event.block.x);
                        assert(counts.len() == before.len());
                    }
                    let place: usize = start + offset;
                    assert(counts@[place as int] < u64::MAX);
                    let count: u64 = counts[place] + 1;
                    counts.set(place, count);
                },
            }
        } else {
            padding += 1;
        }
        assert forall|k: int| 0 <= k < before.len() implies (#[trigger] counts@[k]) == before[k]
            + share(events@, i + 1, scheduled, owners@, start as int, k) by {
            assert(so_far[k] == before[k] + share(
                events@,
                i as int,
                scheduled,
                owners@,
                start as int,
                k,
            ));
        }
        i += 1;
    }
    Ok(padding)
}

// All nodes.

/// Whether the nodes ran on the same stream of the same context.
pub open spec fn same_stream(a: GraphNode, b: GraphNode) -> bool {
    a.context_slot == b.context_slot && a.stream == b.stream && a.api_stream == b.api_stream
}

/// How many blocks the first jobs have.
pub open spec fn blocks_before(jobs: Seq<NodeJob>, n: int) -> nat
    decreases n,
{
    if n <= 0 {
        0
    } else {
        blocks_before(jobs, n - 1) + jobs[n - 1].node.expected_blocks as nat
    }
}

/// The events of a job.
pub open spec fn events_of(jobs: Seq<NodeJob>, tail: Seq<DeviceEvent>, k: int) -> Seq<DeviceEvent> {
    tail.subrange(blocks_before(jobs, k) as int, blocks_before(jobs, k + 1) as int)
}

/// The owners of a step.
pub open spec fn step_owners(trace: SemanticTrace, step: TraceStep) -> Seq<OwnershipSlice> {
    trace.owners@.subrange(step.owner_start as int, step.owner_start + step.owner_count)
}

/// What is wrong with a job, if anything.
pub open spec fn job_fault(
    trace: SemanticTrace,
    jobs: Seq<NodeJob>,
    tail: Seq<DeviceEvent>,
    k: int,
) -> Option<Seq<char>> {
    let node = jobs[k].node;
    let step = trace.steps@[jobs[k].step_index as int];
    if !same_stream(jobs[0].node, node) {
        Some("selected graph nodes are not confined to one context/stream identity"@)
    } else if !has_row_geometry(node, step.begin.scheduled_tokens) {
        Some("selected graph node does not have the required 1-D token-row geometry"@)
    } else {
        let events = events_of(jobs, tail, k);
        events_fault(
            events,
            events.len() as int,
            node,
            step.begin.scheduled_tokens,
            step_owners(trace, step),
        )
    }
}

/// What is wrong with the first jobs, if anything.
pub open spec fn jobs_fault(
    trace: SemanticTrace,
    jobs: Seq<NodeJob>,
    tail: Seq<DeviceEvent>,
    n: int,
) -> Option<Seq<char>>
    decreases n,
{
    if n <= 0 {
        None
    } else {
        match jobs_fault(trace, jobs, tail, n - 1) {
            Some(fault) => Some(fault),
            None => job_fault(trace, jobs, tail, n - 1),
        }
    }
}

/// How many blocks of the first jobs worked for the owner at the place.
pub open spec fn blocks_owned(
    trace: SemanticTrace,
    jobs: Seq<NodeJob>,
    tail: Seq<DeviceEvent>,
    n: int,
    place: int,
) -> nat
    decreases n,
{
    if n <= 0 {
        0
    } else {
        let step = trace.steps@[jobs[n - 1].step_index as int];
        let events = events_of(jobs, tail, n - 1);
        blocks_owned(trace, jobs, tail, n - 1, place) + share(
            events,
            events.len() as int,
            step.begin.scheduled_tokens,
            step_owners(trace, step),
            step.owner_start as int,
            place,
        )
    }
}

/// How many blocks of the first jobs worked on padding rows.
pub open spec fn blocks_padded(
    trace: SemanticTrace,
    jobs: Seq<NodeJob>,
    tail: Seq<DeviceEvent>,
    n: int,
) -> nat
    decreases n,
{
    if n <= 0 {
        0
    } else {
        let step = trace.steps@[jobs[n - 1].step_index as int];
        let events = events_of(jobs, tail, n - 1);
        blocks_padded(trace, jobs, tail, n - 1) + padded(
            events,
            events.len() as int,
            step.begin.scheduled_tokens,
        )
    }
}

/// Whether every job is for a step of the trace.
pub open spec fn jobs_fit(trace: SemanticTrace, jobs: Seq<NodeJob>) -> bool {
    forall|k: int|
        0 <= k < jobs.len() ==> (#[trigger] jobs[k]).step_index < trace.steps@.len()
}

/// The blocks that worked for each owner, and those that worked on padding.
pub struct Tally {
    pub owned: Vec<u64>,
    pub padding: u64,
}

proof fn job_fault_stays(
    trace: SemanticTrace,
    jobs: Seq<NodeJob>,
    tail: Seq<DeviceEvent>,
    n: int,
    m: int,
)
    requires
        0 <= n <= m,
        jobs_fault(trace, jobs, tail, n) is Some,
    ensures
        jobs_fault(trace, jobs, tail, m) == jobs_fault(trace, jobs, tail, n),
    decreases m - n,
{
    if n < m {
        job_fault_stays(trace, jobs, tail, n, m - 1);
    }
}

proof fn blocks_grow(jobs: Seq<NodeJob>, n: int, m: int)
    requires
        0 <= n <= m,
    ensures
        blocks_before(jobs, n) <= blocks_before(jobs, m),
    decreases m - n,
{
    if n < m {
        blocks_grow(jobs, n, m - 1);
    }
}

/// Counts the blocks of the nodes by owner.
pub fn tally_jobs(trace: &SemanticTrace, jobs: &[NodeJob], tail: &[DeviceEvent]) -> (r: Result<
    Tally,
    &'static str,
>)
    requires
        trace.wf(),
        jobs_fit(*trace, jobs@),
        blocks_before(jobs@, jobs@.len() as int) == tail@.len(),
    ensures
        match (r, jobs_fault(*trace, jobs@, tail@, jobs@.len() as int)) {
            (Ok(tally), None) => {
                &&& tally.owned@.len() == trace.owners@.len()
                &&& forall|k: int|
                    0 <= k < trace.owners@.len() ==> (#[trigger] tally.owned@[k]) == blocks_owned(
                        *trace,
                        jobs@,
                        tail@,
                        jobs@.len() as int,
                        k,
                    )
                &&& tally.padding == blocks_padded(*trace, jobs@, tail@, jobs@.len() as int)
            },
            (Err(error), Some(fault)) => error@ == fault,
            _ => false,
        },
{
    let mut counts: Vec<u64> = Vec::new();
    let mut k: usize = 0;
    while k < trace.owners.len()
        invariant
            k <= trace.owners.len(),
            counts@.len() == k,
            forall|j: int| 0 <= j < k ==> (#[trigger] counts@[j]) == 0,
        decreases trace.owners.len() - k,
    {
        counts.push(0);
        k += 1;
    }
    let mut padding: u64 = 0;
    let mut cursor: usize = 0;
    let mut n: usize = 0;
    while n < jobs.len()
        invariant
            n <= jobs.len(),
            trace.wf(),
            jobs_fit(*trace, jobs@),
            blocks_before(jobs@, jobs@.len() as int) == tail@.len(),
            cursor == blocks_before(jobs@, n as int),
            cursor <= tail.len(),
            padding == blocks_padded(*trace, jobs@, tail@, n as int),
            padding <= cursor,
            counts@.len() == trace.owners@.len(),
            forall|j: int|
                0 <= j < counts@.len() ==> (#[trigger] counts@[j]) == blocks_owned(
                    *trace,
                    jobs@,
                    tail@,
                    n as int,
                    j,
                ) && counts@[j] <= cursor,
            jobs_fault(*trace, jobs@, tail@, n as int) is None,
        decreases jobs.len() - n,
    {
        let job = jobs[n];
        assert(jobs@[n as int].step_index < trace.steps@.len());
        let step = trace.steps[job.step_index];
        let ghost scheduled = step.begin.scheduled_tokens;
        proof {
            if job_fault(*trace, jobs@, tail@, n as int) is Some {
                job_fault_stays(*trace, jobs@, tail@, n + 1, jobs@.len() as int);
            }
            blocks_grow(jobs@, n + 1, jobs@.len() as int);
            assert(trace.steps@[job.step_index as int].owner_start
                + trace.steps@[job.step_index as int].owner_count <= trace.owners@.len());
            assert(trace.owners.len() <= usize::MAX);
        }
        let first = jobs[0].node;
        if first.context_slot != job.node.context_slot || first.stream != job.node.stream
            || first.api_stream != job.node.api_stream {
            return Err("selected graph nodes are not confined to one context/stream identity");
        }
        if job.node.grid.y != 1 || job.node.grid.z != 1 || job.node.expected_blocks
            != job.node.grid.x as u64 || job.node.grid.x < step.begin.scheduled_tokens {
            return Err("selected graph node does not have the required 1-D token-row geometry");
        }
        let end: usize = cursor + job.node.grid.x as usize;
        let events = slice_subrange(tail, cursor, end);
        let owners = slice_subrange(
            trace.owners.as_slice(),
            step.owner_start,
            step.owner_start + step.owner_count,
        );
        let ghost so_far = counts@;
        assert(events@ == events_of(jobs@, tail@, n as int));
        assert(owners@ == step_owners(*trace, step));
        match tally_events(
            events,
            &job.node,
            step.begin.scheduled_tokens,
            owners,
            step.owner_start,
            &mut counts,
        ) {
            Err(error) => {
                return Err(error);
            },
            Ok(more) => {
                proof {
                    shares_are_bounded(events@, events@.len() as int, scheduled, owners@, 0, 0);
                    assert forall|j: int| 0 <= j < counts@.len() implies (#[trigger] counts@[j])
                        == blocks_owned(*trace, jobs@, tail@, n + 1, j) && counts@[j] <= end by {
                        shares_are_bounded(
                            events@,
                            events@.len() as int,
                            scheduled,
                            owners@,
                            step.owner_start as int,
                            j,
                        );
                        assert(so_far[j] == blocks_owned(*trace, jobs@, tail@, n as int, j));
                    }
                }
                padding = padding + more;
            },
        }
        cursor = end;
        n += 1;
    }
    Ok(Tally { owned: counts, padding })
}

// Laws.

/// How many of the events belong to one of the first owners.
pub open spec fn owned_by_some(
    events: Seq<DeviceEvent>,
    n: int,
    scheduled: u32,
    owners: Seq<OwnershipSlice>,
    count: int,
) -> nat
    decreases count,
{
    if count <= 0 {
        0
    } else {
        owned_by_some(events, n, scheduled, owners, count - 1) + owned(
            events,
            n,
            scheduled,
            owners,
            count - 1,
        )
    }
}

/// Every block of an accepted node is counted once: for one owner, or as
/// padding.
pub proof fn blocks_are_counted_once(
    events: Seq<DeviceEvent>,
    n: int,
    node: GraphNode,
    scheduled: u32,
    owners: Seq<OwnershipSlice>,
)
    requires
        0 <= n <= events.len(),
        events_fault(events, n, node, scheduled, owners) is None,
    ensures
        owned_by_some(events, n, scheduled, owners, owners.len() as int) + padded(
            events,
            n,
            scheduled,
        ) == n,
    decreases n,
{
    if n == 0 {
        none_is_owned(events, scheduled, owners, owners.len() as int);
    } else {
        blocks_are_counted_once(events, n - 1, node, scheduled, owners);
        one_more_is_owned(events, n, scheduled, owners, owners.len() as int);
        owner_is_inside(owners, events[n - 1].block.x);
    }
}

proof fn none_is_owned(
    events: Seq<DeviceEvent>,
    scheduled: u32,
    owners: Seq<OwnershipSlice>,
    count: int,
)
    ensures
        owned_by_some(events, 0, scheduled, owners, count) == 0,
    decreases count,
{
    if count > 0 {
        none_is_owned(events, scheduled, owners, count - 1);
    }
}

proof fn one_more_is_owned(
    events: Seq<DeviceEvent>,
    n: int,
    scheduled: u32,
    owners: Seq<OwnershipSlice>,
    count: int,
)
    requires
        0 < n <= events.len(),
        count >= 0,
    ensures
        owned_by_some(events, n, scheduled, owners, count) == owned_by_some(
            events,
            n - 1,
            scheduled,
            owners,
            count,
        ) + if events[n - 1].block.x < scheduled && owner_of(owners, events[n - 1].block.x) is Some
            && (owner_of(owners, events[n - 1].block.x)->0) < count {
            1nat
        } else {
            0
        },
    decreases count,
{
    owner_is_inside(owners, events[n - 1].block.x);
    if count > 0 {
        one_more_is_owned(events, n, scheduled, owners, count - 1);
    }
}

/// A node with as many accepted events as blocks has an event of every block.
pub proof fn every_block_is_seen(
    events: Seq<DeviceEvent>,
    node: GraphNode,
    scheduled: u32,
    owners: Seq<OwnershipSlice>,
    row: u32,
)
    requires
        events.len() == node.grid.x,
        events_fault(events, events.len() as int, node, scheduled, owners) is None,
        row < node.grid.x,
    ensures
        exists|i: int| 0 <= i < events.len() && (#[trigger] events[i]).block.x == row,
{
    let rows = Seq::new(events.len(), |i: int| events[i].block.x as int);
    assert forall|i: int, j: int| 0 <= i < j < events.len() implies rows[i] != rows[j] by {
        accepted_event(events, events.len() as int, j, node, scheduled, owners);
        assert(events[i].block.x != events[j].block.x);
    }
    rows.unique_seq_to_set();
    let all = vstd::set_lib::set_int_range(0, node.grid.x as int);
    vstd::set_lib::lemma_int_range(0, node.grid.x as int);
    assert(rows.to_set().subset_of(all)) by {
        assert forall|r: int| rows.to_set().contains(r) implies all.contains(r) by {
            let i = choose|i: int| 0 <= i < rows.len() && rows[i] == r;
            accepted_event(events, events.len() as int, i, node, scheduled, owners);
        }
    }
    vstd::set_lib::lemma_subset_equality(rows.to_set(), all);
    assert(rows.to_set().contains(row as int));
    let i = choose|i: int| 0 <= i < rows.len() && rows[i] == row as int;
    assert(events[i].block.x == row);
}

proof fn accepted_event(
    events: Seq<DeviceEvent>,
    n: int,
    i: int,
    node: GraphNode,
    scheduled: u32,
    owners: Seq<OwnershipSlice>,
)
    requires
        0 <= i < n,
        events_fault(events, n, node, scheduled, owners) is None,
    ensures
        event_fault(events, i, node, scheduled, owners) is None,
    decreases n,
{
    if i < n - 1 {
        accepted_event(events, n - 1, i, node, scheduled, owners);
    }
}

/// How many blocks of the first jobs worked for one of the first owners.
pub open spec fn all_blocks_owned(
    trace: SemanticTrace,
    jobs: Seq<NodeJob>,
    tail: Seq<DeviceEvent>,
    n: int,
    count: int,
) -> nat
    decreases count,
{
    if count <= 0 {
        0
    } else {
        all_blocks_owned(trace, jobs, tail, n, count - 1) + blocks_owned(
            trace,
            jobs,
            tail,
            n,
            count - 1,
        )
    }
}

/// The shares of the first owners of a trace in the events of a node.
spec fn all_shares(
    events: Seq<DeviceEvent>,
    scheduled: u32,
    owners: Seq<OwnershipSlice>,
    start: int,
    count: int,
) -> nat
    decreases count,
{
    if count <= 0 {
        0
    } else {
        all_shares(events, scheduled, owners, start, count - 1) + share(
            events,
            events.len() as int,
            scheduled,
            owners,
            start,
            count - 1,
        )
    }
}

proof fn shares_are_of_the_owners(
    events: Seq<DeviceEvent>,
    scheduled: u32,
    owners: Seq<OwnershipSlice>,
    start: int,
    count: int,
)
    requires
        0 <= start,
        0 <= count,
    ensures
        all_shares(events, scheduled, owners, start, count) == owned_by_some(
            events,
            events.len() as int,
            scheduled,
            owners,
            if count <= start {
                0
            } else if count <= start + owners.len() {
                count - start
            } else {
                owners.len() as int
            },
        ),
    decreases count,
{
    if count > 0 {
        shares_are_of_the_owners(events, scheduled, owners, start, count - 1);
    }
}

proof fn one_more_job_is_owned(
    trace: SemanticTrace,
    jobs: Seq<NodeJob>,
    tail: Seq<DeviceEvent>,
    n: int,
    count: int,
)
    requires
        0 < n,
        0 <= count,
    ensures
        ({
            let step = trace.steps@[jobs[n - 1].step_index as int];
            all_blocks_owned(trace, jobs, tail, n, count) == all_blocks_owned(
                trace,
                jobs,
                tail,
                n - 1,
                count,
            ) + all_shares(
                events_of(jobs, tail, n - 1),
                step.begin.scheduled_tokens,
                step_owners(trace, step),
                step.owner_start as int,
                count,
            )
        }),
    decreases count,
{
    if count > 0 {
        one_more_job_is_owned(trace, jobs, tail, n, count - 1);
    }
}

proof fn no_job_is_owned(
    trace: SemanticTrace,
    jobs: Seq<NodeJob>,
    tail: Seq<DeviceEvent>,
    count: int,
)
    ensures
        all_blocks_owned(trace, jobs, tail, 0, count) == 0,
    decreases count,
{
    if count > 0 {
        no_job_is_owned(trace, jobs, tail, count - 1);
    }
}

/// Over all accepted nodes, the blocks that worked for an owner and those that
/// worked on padding are all the blocks that the device reported.
pub proof fn all_blocks_are_accounted_for(
    trace: SemanticTrace,
    jobs: Seq<NodeJob>,
    tail: Seq<DeviceEvent>,
    n: int,
)
    requires
        trace.wf(),
        jobs_fit(trace, jobs),
        blocks_before(jobs, jobs.len() as int) == tail.len(),
        0 <= n <= jobs.len(),
        jobs_fault(trace, jobs, tail, n) is None,
    ensures
        all_blocks_owned(trace, jobs, tail, n, trace.owners@.len() as int) + blocks_padded(
            trace,
            jobs,
            tail,
            n,
        ) == blocks_before(jobs, n),
    decreases n,
{
    let count = trace.owners@.len() as int;
    if n == 0 {
        no_job_is_owned(trace, jobs, tail, count);
    } else {
        all_blocks_are_accounted_for(trace, jobs, tail, n - 1);
        let job = jobs[n - 1];
        let step = trace.steps@[job.step_index as int];
        let owners = step_owners(trace, step);
        let events = events_of(jobs, tail, n - 1);
        blocks_grow(jobs, n, jobs.len() as int);
        blocks_grow(jobs, n - 1, n);
        one_more_job_is_owned(trace, jobs, tail, n, count);
        shares_are_of_the_owners(
            events,
            step.begin.scheduled_tokens,
            owners,
            step.owner_start as int,
            count,
        );
        blocks_are_counted_once(
            events,
            events.len() as int,
            job.node,
            step.begin.scheduled_tokens,
            owners,
        );
    }
}

} // verus!
