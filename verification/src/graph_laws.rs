//! What a graph join means: which replay a step ran, and what its blocks worked
//! for, in terms of the nodes and events that were read.

use crate::blocks::{
    blocks_before, blocks_owned, event_fault, events_fault, events_of, jobs_fault,
    owned, padded, step_owners, DeviceEvent, NodeJob,
};
use crate::graph::GraphNode;
use crate::graph_join::{
    all_owner_rows, block_mismatches, distinct_execs, event_total, first_at, graph_failure, graph_owner_row, graph_report_is,
    graph_stages, jobs_for, jobs_of, placing_failure, replay_count_fault, replay_jobs,
    replay_place, replays_at, reordered, selected_of, tail_failure, GraphInput, GraphJoinReport,
    GraphOwnerRow, GraphStepRow,
};
use crate::ownership::{
    suffix_of, timeline_of, OwnershipSlice, SemanticTrace, TimelineEntry, TimelineError,
    TraceStep,
};
use crate::ownership_laws::{
    packed_last, stretch_belongs_to_one_step, suffix_decodes_behind_all_prefill,
};
use crate::replay::{replays_cover_nodes, replays_from, Replay};
use crate::sums::{count_of, sum_of};
use vstd::prelude::*;

verus! {

// Blocks of a node.

/// How many of the first events are of a block in the range.
spec fn in_range(events: Seq<DeviceEvent>, n: int, a: int, b: int) -> int
    decreases n,
{
    if n <= 0 {
        0
    } else {
        in_range(events, n - 1, a, b) + if a <= events[n - 1].block.x < b {
            1int
        } else {
            0
        }
    }
}

proof fn ranges_add_up(events: Seq<DeviceEvent>, n: int, a: int, b: int, c: int)
    requires
        a <= b <= c,
    ensures
        in_range(events, n, a, c) == in_range(events, n, a, b) + in_range(events, n, b, c),
    decreases n,
{
    if n > 0 {
        ranges_add_up(events, n - 1, a, b, c);
    }
}

spec fn has_block(events: Seq<DeviceEvent>, n: int, x: int) -> bool {
    exists|i: int| 0 <= i < n && (#[trigger] events[i]).block.x == x
}

proof fn one_of_each(events: Seq<DeviceEvent>, n: int, x: int)
    requires
        0 <= n <= events.len(),
        forall|i: int, j: int|
            0 <= i < j < events.len() ==> (#[trigger] events[i]).block.x != (
            #[trigger] events[j]).block.x,
    ensures
        in_range(events, n, x, x + 1) == if has_block(events, n, x) {
            1int
        } else {
            0
        },
    decreases n,
{
    if n > 0 {
        one_of_each(events, n - 1, x);
        if events[n - 1].block.x == x {
            assert(has_block(events, n, x));
            if has_block(events, n - 1, x) {
                let i = choose|i: int| 0 <= i < n - 1 && (#[trigger] events[i]).block.x == x;
                assert(events[i].block.x != events[n - 1].block.x);
            }
        } else {
            if has_block(events, n - 1, x) {
                let i = choose|i: int| 0 <= i < n - 1 && (#[trigger] events[i]).block.x == x;
                assert(events[i].block.x == x);
                assert(has_block(events, n, x));
            }
            if has_block(events, n, x) {
                let i = choose|i: int| 0 <= i < n && (#[trigger] events[i]).block.x == x;
                assert(events[i].block.x == x);
                assert(has_block(events, n - 1, x));
            }
        }
    }
}

proof fn empty_range(events: Seq<DeviceEvent>, n: int, a: int)
    ensures
        in_range(events, n, a, a) == 0,
    decreases n,
{
    if n > 0 {
        empty_range(events, n - 1, a);
    }
}

proof fn range_is_full(events: Seq<DeviceEvent>, a: int, b: int, width: int)
    requires
        0 <= a <= b <= width,
        forall|i: int, j: int|
            0 <= i < j < events.len() ==> (#[trigger] events[i]).block.x != (
            #[trigger] events[j]).block.x,
        forall|x: int| 0 <= x < width ==> #[trigger] has_block(events, events.len() as int, x),
    ensures
        in_range(events, events.len() as int, a, b) == b - a,
    decreases b - a,
{
    let n = events.len() as int;
    if a == b {
        empty_range(events, n, a);
    } else {
        range_is_full(events, a, b - 1, width);
        ranges_add_up(events, n, a, b - 1, b);
        one_of_each(events, n, b - 1);
        assert(has_block(events, n, b - 1));
    }
}

proof fn accepted(
    events: Seq<DeviceEvent>,
    n: int,
    i: int,
    node: GraphNode,
    scheduled: u32,
    owners: Seq<OwnershipSlice>,
)
    requires
        0 <= i < n,
        events_fault(events, n, node, scheduled, owners) is None,
    ensures
        event_fault(events, i, node, scheduled, owners) is None,
    decreases n,
{
    if i < n - 1 {
        accepted(events, n - 1, i, node, scheduled, owners);
    }
}

/// Whether the slices stand in the order of their rows, none over another.
pub open spec fn in_row_order(owners: Seq<OwnershipSlice>) -> bool {
    forall|j: int, k: int|
        0 <= j < k < owners.len() ==> (#[trigger] owners[j]).row_end <= (
        #[trigger] owners[k]).row_begin
}

proof fn owned_is_in_range(
    events: Seq<DeviceEvent>,
    n: int,
    scheduled: u32,
    owners: Seq<OwnershipSlice>,
    i: int,
)
    requires
        in_row_order(owners),
        0 <= i < owners.len(),
        owners[i].authoritative,
        owners[i].row_end <= scheduled,
    ensures
        owned(events, n, scheduled, owners, i) == in_range(
            events,
            n,
            owners[i].row_begin as int,
            owners[i].row_end as int,
        ),
    decreases n,
{
    if n > 0 {
        owned_is_in_range(events, n - 1, scheduled, owners, i);
        let row = events[n - 1].block.x;
        crate::ownership_laws::found_owner_owns_the_row(owners, row);
        if owners[i].row_begin <= row < owners[i].row_end {
            crate::ownership::sure_owner_is_found(owners, row, i);
        }
    }
}

proof fn padded_is_in_range(events: Seq<DeviceEvent>, n: int, scheduled: u32)
    ensures
        padded(events, n, scheduled) == in_range(
            events,
            n,
            scheduled as int,
            0x1_0000_0000,
        ),
    decreases n,
{
    if n > 0 {
        padded_is_in_range(events, n - 1, scheduled);
    }
}

proof fn nothing_beyond(events: Seq<DeviceEvent>, n: int, width: int)
    requires
        0 <= n <= events.len(),
        forall|i: int| 0 <= i < events.len() ==> (#[trigger] events[i]).block.x < width,
    ensures
        in_range(events, n, width, 0x1_0000_0000) == 0,
    decreases n,
{
    if n > 0 {
        nothing_beyond(events, n - 1, width);
        assert(events[n - 1].block.x < width);
    }
}

/// A node whose events were accepted ran one block for each row of its grid: as
/// many for an owner as the owner has rows, and the rest behind the rows of the
/// step as padding.
pub proof fn node_runs_a_block_for_each_row(
    events: Seq<DeviceEvent>,
    node: GraphNode,
    scheduled: u32,
    owners: Seq<OwnershipSlice>,
    i: int,
)
    requires
        events.len() == node.grid.x,
        scheduled <= node.grid.x,
        events_fault(events, events.len() as int, node, scheduled, owners) is None,
        in_row_order(owners),
        0 <= i < owners.len(),
        owners[i].authoritative,
        owners[i].row_begin <= owners[i].row_end <= scheduled,
    ensures
        owned(events, events.len() as int, scheduled, owners, i) == owners[i].row_end
            - owners[i].row_begin,
        padded(events, events.len() as int, scheduled) == node.grid.x - scheduled,
{
    blocks_are_all_there(events, node, scheduled, owners);
    let n = events.len() as int;
    let width = node.grid.x as int;
    owned_is_in_range(events, n, scheduled, owners, i);
    range_is_full(events, owners[i].row_begin as int, owners[i].row_end as int, width);
    padded_is_in_range(events, n, scheduled);
    range_is_full(events, scheduled as int, width, width);
    nothing_beyond(events, n, width);
    ranges_add_up(events, n, scheduled as int, width, 0x1_0000_0000);
}

proof fn blocks_are_all_there(
    events: Seq<DeviceEvent>,
    node: GraphNode,
    scheduled: u32,
    owners: Seq<OwnershipSlice>,
)
    requires
        events.len() == node.grid.x,
        events_fault(events, events.len() as int, node, scheduled, owners) is None,
    ensures
        forall|i: int, j: int|
            0 <= i < j < events.len() ==> (#[trigger] events[i]).block.x != (
            #[trigger] events[j]).block.x,
        forall|x: int|
            0 <= x < node.grid.x ==> #[trigger] has_block(events, events.len() as int, x),
        forall|i: int| 0 <= i < events.len() ==> (#[trigger] events[i]).block.x < node.grid.x,
{
    let n = events.len() as int;
    assert forall|i: int, j: int| 0 <= i < j < events.len() implies (#[trigger] events[i]).block.x
        != (#[trigger] events[j]).block.x by {
        accepted(events, n, j, node, scheduled, owners);
    }
    assert forall|x: int| 0 <= x < node.grid.x implies #[trigger] has_block(events, n, x) by {
        crate::blocks::every_block_is_seen(events, node, scheduled, owners, x as u32);
    }
    assert forall|i: int| 0 <= i < events.len() implies (#[trigger] events[i]).block.x
        < node.grid.x by {
        accepted(events, n, i, node, scheduled, owners);
    }
}

// Blocks of an owner.

proof fn accepted_job(
    trace: SemanticTrace,
    jobs: Seq<NodeJob>,
    tail: Seq<DeviceEvent>,
    n: int,
    k: int,
)
    requires
        0 <= k < n,
        jobs_fault(trace, jobs, tail, n) is None,
    ensures
        crate::blocks::job_fault(trace, jobs, tail, k) is None,
    decreases n,
{
    if k < n - 1 {
        accepted_job(trace, jobs, tail, n - 1, k);
    }
}

proof fn blocks_only_grow(jobs: Seq<NodeJob>, n: int, m: int)
    requires
        0 <= n <= m,
    ensures
        blocks_before(jobs, n) <= blocks_before(jobs, m),
    decreases m - n,
{
    if n < m {
        blocks_only_grow(jobs, n, m - 1);
    }
}

/// How many of the first jobs are of the step.
pub open spec fn jobs_in_step(jobs: Seq<NodeJob>, n: int, step: int) -> int {
    count_of(jobs.take(n), |job: NodeJob| job.step_index == step)
}

/// An owner is credited with a block for each of its rows and each node of its
/// step, where the owners of a step stand in the order of their rows and belong to
/// no other step.
pub proof fn owner_is_credited_for_its_rows(
    trace: SemanticTrace,
    jobs: Seq<NodeJob>,
    tail: Seq<DeviceEvent>,
    n: int,
    step: int,
    place: int,
)
    requires
        trace.wf(),
        0 <= n <= jobs.len(),
        blocks_before(jobs, jobs.len() as int) == tail.len(),
        jobs_fault(trace, jobs, tail, n) is None,
        0 <= step < trace.steps@.len(),
        trace.steps@[step].owner_start <= place < trace.steps@[step].owner_start
            + trace.steps@[step].owner_count,
        in_row_order(
            trace.owners@.subrange(
                trace.steps@[step].owner_start as int,
                trace.steps@[step].owner_start + trace.steps@[step].owner_count,
            ),
        ),
        trace.owners@[place].authoritative,
        trace.owners@[place].row_begin <= trace.owners@[place].row_end
            <= trace.steps@[step].begin.scheduled_tokens,
        forall|k: int|
            0 <= k < n && (#[trigger] jobs[k]).step_index != step ==> !(
            trace.steps@[jobs[k].step_index as int].owner_start <= place
                < trace.steps@[jobs[k].step_index as int].owner_start
                + trace.steps@[jobs[k].step_index as int].owner_count),
        forall|k: int| 0 <= k < n ==> (#[trigger] jobs[k]).step_index < trace.steps@.len(),
    ensures
        blocks_owned(trace, jobs, tail, n, place) == (trace.owners@[place].row_end
            - trace.owners@[place].row_begin) * jobs_in_step(jobs, n, step),
    decreases n,
{
    let rows = trace.owners@[place].row_end - trace.owners@[place].row_begin;
    if n == 0 {
        assert(jobs.take(0).len() == 0);
        assert(rows * 0 == 0) by (nonlinear_arith);
    } else {
        owner_is_credited_for_its_rows(trace, jobs, tail, n - 1, step, place);
        let job = jobs[n - 1];
        let own = trace.steps@[job.step_index as int];
        let events = events_of(jobs, tail, n - 1);
        let owners = step_owners(trace, own);
        let before = jobs_in_step(jobs, n - 1, step);
        assert(jobs.take(n).drop_last() =~= jobs.take(n - 1));
        assert(jobs.take(n).last() == job);
        assert(trace.steps@[job.step_index as int].owner_start
            + trace.steps@[job.step_index as int].owner_count <= trace.owners@.len());
        if job.step_index == step {
            accepted_job(trace, jobs, tail, n, n - 1);
            blocks_only_grow(jobs, n - 1, n);
            blocks_only_grow(jobs, n, jobs.len() as int);
            assert(events.len() == job.node.expected_blocks);
            let i = place - own.owner_start;
            assert(owners[i] == trace.owners@[place]);
            node_runs_a_block_for_each_row(
                events,
                job.node,
                own.begin.scheduled_tokens,
                owners,
                i,
            );
            assert(rows * (before + 1) == rows * before + rows) by (nonlinear_arith);
        }
    }
}

// Rows of steps.

proof fn first_is_at(places: Seq<Option<usize>>, n: int, step: usize)
    requires
        0 <= n <= places.len(),
        replays_at(places, n, step) > 0,
    ensures
        first_at(places, n, step) matches Some(i) && 0 <= i < n && places[i] == Some(step),
    decreases n,
{
    if n > 0 {
        if replays_at(places, n - 1, step) > 0 {
            first_is_at(places, n - 1, step);
        } else {
            nowhere_at(places, n - 1, step);
        }
    }
}

proof fn nowhere_at(places: Seq<Option<usize>>, n: int, step: usize)
    requires
        0 <= n <= places.len(),
        replays_at(places, n, step) == 0,
    ensures
        first_at(places, n, step) is None,
    decreases n,
{
    if n > 0 {
        nowhere_at(places, n - 1, step);
    }
}

proof fn every_step_is_replayed(
    steps: Seq<TraceStep>,
    places: Seq<Option<usize>>,
    suffix: Seq<usize>,
    n: int,
    k: int,
)
    requires
        0 <= k < n <= suffix.len(),
        replay_count_fault(steps, places, suffix, n) is None,
    ensures
        replays_at(places, places.len() as int, suffix[k]) == 1,
    decreases n,
{
    if k < n - 1 {
        every_step_is_replayed(steps, places, suffix, n - 1, k);
    }
}

proof fn jobs_of_two_parts(a: Seq<NodeJob>, b: Seq<NodeJob>, n: int, step: usize)
    requires
        0 <= n <= b.len(),
    ensures
        jobs_for(a + b, a.len() + n, step) == jobs_for(a, a.len() as int, step) + jobs_for(
            b,
            n,
            step,
        ),
    decreases n,
{
    if n > 0 {
        jobs_of_two_parts(a, b, n - 1, step);
        assert((a + b)[a.len() + n - 1] == b[n - 1]);
    } else {
        jobs_of_the_front(a, b, a.len() as int, step);
    }
}

proof fn jobs_of_the_front(a: Seq<NodeJob>, b: Seq<NodeJob>, n: int, step: usize)
    requires
        0 <= n <= a.len(),
    ensures
        jobs_for(a + b, n, step) == jobs_for(a, n, step),
    decreases n,
{
    if n > 0 {
        jobs_of_the_front(a, b, n - 1, step);
        assert((a + b)[n - 1] == a[n - 1]);
    }
}

proof fn jobs_of_a_replay(
    nodes: Seq<GraphNode>,
    replay: Replay,
    own: usize,
    n: int,
    step: usize,
)
    requires
        0 <= n <= replay.node_count,
    ensures
        jobs_for(replay_jobs(nodes, replay, own), n, step) == if own == step {
            n
        } else {
            0
        },
    decreases n,
{
    if n > 0 {
        jobs_of_a_replay(nodes, replay, own, n - 1, step);
    }
}

proof fn jobs_are_of_the_replays(
    nodes: Seq<GraphNode>,
    replays: Seq<Replay>,
    places: Seq<Option<usize>>,
    suffix: Seq<usize>,
    n: int,
    step: usize,
    expected: usize,
)
    requires
        0 <= n <= places.len(),
        places.len() == replays.len(),
        places.len() <= usize::MAX,
        suffix.contains(step),
        forall|i: int| 0 <= i < replays.len() ==> (#[trigger] replays[i]).node_count == expected,
    ensures
        ({
            let selected = selected_of(places, n, suffix);
            let jobs = jobs_of(nodes, replays, places, selected, selected.len() as int);
            jobs_for(jobs, jobs.len() as int, step) == expected * replays_at(places, n, step)
        }),
    decreases n,
{
    if n > 0 {
        jobs_are_of_the_replays(nodes, replays, places, suffix, n - 1, step, expected);
        let front = selected_of(places, n - 1, suffix);
        let selected = selected_of(places, n, suffix);
        let before = replays_at(places, n - 1, step) as int;
        assert(expected * (before + 1) == expected * before + expected) by (nonlinear_arith);
        if places[n - 1] is Some && suffix.contains(places[n - 1]->0) {
            let i = n - 1;
            assert(selected == front.push(i as usize));
            same_jobs(nodes, replays, places, front, selected, front.len() as int);
            let jobs = jobs_of(nodes, replays, places, front, front.len() as int);
            let more = replay_jobs(nodes, replays[i], places[i]->0);
            assert(more.len() == expected) by {
                assert(replays[i].node_count == expected);
            }
            jobs_of_two_parts(jobs, more, more.len() as int, step);
            jobs_of_a_replay(nodes, replays[i], places[i]->0, more.len() as int, step);
        }
    } else {
        assert(expected * 0 == 0) by (nonlinear_arith);
        assert(selected_of(places, n, suffix).len() == 0);
    }
}

proof fn same_jobs(
    nodes: Seq<GraphNode>,
    replays: Seq<Replay>,
    places: Seq<Option<usize>>,
    a: Seq<usize>,
    b: Seq<usize>,
    n: int,
)
    requires
        0 <= n <= a.len(),
        n <= b.len(),
        forall|k: int| 0 <= k < n ==> #[trigger] a[k] == b[k],
    ensures
        jobs_of(nodes, replays, places, a, n) == jobs_of(nodes, replays, places, b, n),
    decreases n,
{
    if n > 0 {
        same_jobs(nodes, replays, places, a, b, n - 1);
        assert(a[n - 1] == b[n - 1]);
    }
}

proof fn nodes_of_a_step(input: GraphInput, expected_nodes: usize, k: int)
    requires
        input.nodes@.len() <= usize::MAX,
        graph_failure(input, expected_nodes) is None,
        0 <= k < graph_stages(input, expected_nodes).suffix.len(),
    ensures
        expected_nodes > 0,
        jobs_for(
            graph_stages(input, expected_nodes).jobs,
            graph_stages(input, expected_nodes).jobs.len() as int,
            graph_stages(input, expected_nodes).suffix[k],
        ) == expected_nodes,
{
    let stages = graph_stages(input, expected_nodes);
    let nodes = input.nodes@;
    let suffix = stages.suffix;
    let places = stages.places;
    let replays = stages.replays;
    assert(placing_failure(input, stages) is None);
    every_step_is_replayed(input.trace.steps@, places, suffix, suffix.len() as int, k);
    first_is_at(places, places.len() as int, suffix[k]);
    replays_cover_nodes(nodes, expected_nodes, 0);
    assert forall|m: int| 0 <= m < replays.len() implies (#[trigger] replays[m]).node_count
        == expected_nodes by {
        replays_cover_nodes(nodes, expected_nodes, m);
    }
    let e = expected_nodes as int;
    let count = replays.len() as int;
    assert(count <= nodes.len() && e > 0) by {
        assert(count * e == nodes.len());
        if e == 0 {
            assert(count * e == 0) by (nonlinear_arith)
                requires
                    e == 0,
            ;
        }
        assert(count <= count * e) by (nonlinear_arith)
            requires
                count >= 0,
                e > 0,
        ;
    }
    assert(suffix.contains(suffix[k]));
    jobs_are_of_the_replays(
        nodes,
        replays,
        places,
        suffix,
        places.len() as int,
        suffix[k],
        expected_nodes,
    );
    assert(e * 1 == e);
}

/// Whether the row's replay is of the graph that runs at the place of the nodes,
/// all of it while the step was the last that had been packed and had not ended.
pub open spec fn ran_in_the_step(
    row: GraphStepRow,
    nodes: Seq<GraphNode>,
    steps: Seq<TraceStep>,
    step: int,
    i: int,
    count: int,
) -> bool {
    &&& 0 <= i && i * count + count <= nodes.len()
    &&& row.graph_exec == nodes[i * count].graph_exec
    &&& row.replay == nodes[i * count].replay_id
    &&& packed_last(steps, step, nodes[i * count].host_timestamp_ns)
    &&& packed_last(steps, step, nodes[i * count + count - 1].host_timestamp_ns)
    &&& nodes[i * count + count - 1].host_timestamp_ns <= steps[step].end_timestamp_ns
}

/// Each step that decodes behind all prefill has a row, in the order of the steps.
/// The row shows the step and the one replay that ran in it, with as many nodes as
/// were expected.
pub proof fn row_shows_the_step_and_its_replay(
    report: GraphJoinReport,
    input: GraphInput,
    expected_nodes: usize,
    k: int,
)
    requires
        input.nodes@.len() <= usize::MAX,
        input.trace.steps@.len() <= usize::MAX,
        graph_failure(input, expected_nodes) is None,
        graph_report_is(report, input, graph_stages(input, expected_nodes)),
        0 <= k < report.steps@.len(),
    ensures
        suffix_of(input.trace.steps@) matches Ok(suffix) && {
            let step = input.trace.steps@[suffix[k] as int];
            let row = report.steps@[k];
            &&& report.steps@.len() == suffix.len()
            &&& step.packed_begin is Some
            &&& row.step_id == step.begin.step_id
            &&& row.packing_generation == (step.packed_begin->0).sequence_id
            &&& row.scheduled == step.begin.scheduled_tokens
            &&& row.decode == step.begin.decode_tokens
            &&& row.requests == step.owner_count
            &&& row.reordered_positions == step.scheduler_order_mismatches
            &&& row.nodes == expected_nodes
            &&& exists|i: int| #[trigger]
                ran_in_the_step(
                    row,
                    input.nodes@,
                    input.trace.steps@,
                    suffix[k] as int,
                    i,
                    expected_nodes as int,
                )
        },
{
    let stages = graph_stages(input, expected_nodes);
    let steps = input.trace.steps@;
    let nodes = input.nodes@;
    let suffix = stages.suffix;
    let places = stages.places;
    let replays = stages.replays;
    let timeline = stages.timeline;
    assert(placing_failure(input, stages) is None);
    assert(suffix_of(steps) == Ok::<Seq<usize>, Seq<char>>(suffix));
    assert(timeline_of(steps) == Ok::<Seq<TimelineEntry>, TimelineError>(timeline));
    assert(report.steps@.len() == suffix.len());
    suffix_decodes_behind_all_prefill(steps, suffix);
    assert(steps[suffix[k] as int].packed_begin is Some) by {
        crate::ownership_laws::timeline_lists_the_steps(steps, timeline);
    }
    every_step_is_replayed(steps, places, suffix, suffix.len() as int, k);
    first_is_at(places, places.len() as int, suffix[k]);
    let i = first_at(places, places.len() as int, suffix[k])->0;
    assert(replays_from(nodes, expected_nodes, 0, Seq::empty()) == Ok::<Seq<Replay>, Seq<char>>(
        replays,
    ));
    replays_cover_nodes(nodes, expected_nodes, i);
    nodes_of_a_step(input, expected_nodes, k);
    let e = expected_nodes as int;
    let count = replays.len() as int;
    let row = report.steps@[k];
    assert(row.nodes == expected_nodes);
    assert(i * e + e <= count * e) by (nonlinear_arith)
        requires
            0 <= i < count,
            e > 0,
    ;
    assert(i * e >= 0) by (nonlinear_arith)
        requires
            0 <= i,
            e > 0,
    ;
    replay_is_of_its_first_node(nodes, expected_nodes, i);
    let first = nodes[i * e].host_timestamp_ns;
    let last = nodes[i * e + e - 1].host_timestamp_ns;
    assert(first <= last);
    stretch_belongs_to_one_step(first, last, steps, timeline);
    let found = replay_place(nodes, replays[i], steps, timeline).0;
    assert(places[i] == Some(suffix[k]));
    assert(found is Some);
    let own = found->0;
    assert(packed_last(steps, own, last));
    assert(own == suffix[k]);
    assert(ran_in_the_step(row, nodes, steps, suffix[k] as int, i, e));
}

proof fn replay_is_of_its_first_node(nodes: Seq<GraphNode>, expected: usize, i: int)
    requires
        nodes.len() <= usize::MAX,
        expected > 0,
        replays_from(nodes, expected, 0, Seq::empty()) is Ok,
        0 <= i < (replays_from(nodes, expected, 0, Seq::empty())->Ok_0).len(),
    ensures
        ({
            let replay = (replays_from(nodes, expected, 0, Seq::empty())->Ok_0)[i];
            &&& replay.graph_exec == nodes[i * expected].graph_exec
            &&& replay.replay_id == nodes[i * expected].replay_id
            &&& nodes[i * expected].host_timestamp_ns <= nodes[i * expected + expected
                - 1].host_timestamp_ns
        }),
{
    assert(Seq::<Replay>::empty().len() * expected == 0);
    rest_is_of_its_first_nodes(nodes, expected, 0, Seq::empty(), i);
}

spec fn is_of_its_first_node(nodes: Seq<GraphNode>, expected: usize, replay: Replay, k: int) -> bool {
    &&& replay.graph_exec == nodes[k * expected].graph_exec
    &&& replay.replay_id == nodes[k * expected].replay_id
    &&& nodes[k * expected].host_timestamp_ns <= nodes[k * expected + expected
        - 1].host_timestamp_ns
}

proof fn time_goes_on(nodes: Seq<GraphNode>, start: int, end: int, i: int)
    requires
        0 <= start <= i < end <= nodes.len(),
        !crate::replay::goes_back(nodes, start, end),
    ensures
        nodes[start].host_timestamp_ns <= nodes[i].host_timestamp_ns,
    decreases i - start,
{
    if start < i {
        time_goes_on(nodes, start, end, i - 1);
        assert(!crate::replay::is_earlier(nodes, i));
    }
}

proof fn rest_is_of_its_first_nodes(
    nodes: Seq<GraphNode>,
    expected: usize,
    cursor: int,
    found: Seq<Replay>,
    i: int,
)
    requires
        nodes.len() <= usize::MAX,
        expected > 0,
        0 <= cursor <= nodes.len(),
        replays_from(nodes, expected, cursor, found) is Ok,
        forall|k: int|
            0 <= k < found.len() ==> is_of_its_first_node(nodes, expected, #[trigger] found[k], k),
        cursor == found.len() * expected,
        0 <= i < (replays_from(nodes, expected, cursor, found)->Ok_0).len(),
    ensures
        is_of_its_first_node(
            nodes,
            expected,
            (replays_from(nodes, expected, cursor, found)->Ok_0)[i],
            i,
        ),
    decreases nodes.len() - cursor,
{
    if cursor < nodes.len() {
        let end = crate::replay::run_end(nodes, cursor, cursor + 1);
        crate::replay::run_end_bounds(nodes, cursor, cursor + 1);
        let node = nodes[cursor];
        let next = found.push(
            Replay {
                graph_exec: node.graph_exec,
                replay_id: node.replay_id,
                node_start: cursor as usize,
                node_count: (end - cursor) as usize,
            },
        );
        let n = found.len() as int;
        let e = expected as int;
        assert((n + 1) * e == n * e + e) by (nonlinear_arith);
        time_goes_on(nodes, cursor, end, end - 1);
        assert(is_of_its_first_node(nodes, expected, next[n], n));
        assert forall|k: int| 0 <= k < next.len() implies is_of_its_first_node(
            nodes,
            expected,
            #[trigger] next[k],
            k,
        ) by {
            if k < n {
                assert(next[k] == found[k]);
            }
        }
        rest_is_of_its_first_nodes(nodes, expected, end, next, i);
    }
}

// Selection and totals.

proof fn selected_are_placed(places: Seq<Option<usize>>, n: int, suffix: Seq<usize>)
    requires
        0 <= n <= places.len(),
        places.len() <= usize::MAX,
    ensures
        selected_of(places, n, suffix).len() == count_of(
            places.take(n),
            |p: Option<usize>| p is Some && suffix.contains(p->0),
        ),
        forall|m: int|
            0 <= m < selected_of(places, n, suffix).len() ==> (#[trigger] selected_of(
                places,
                n,
                suffix,
            )[m]) < n,
    decreases n,
{
    if n > 0 {
        selected_are_placed(places, n - 1, suffix);
        assert(places.take(n).drop_last() =~= places.take(n - 1));
        assert(places.take(n).last() == places[n - 1]);
    }
}

proof fn replays_are_counted(places: Seq<Option<usize>>, n: int, step: usize)
    requires
        0 <= n <= places.len(),
    ensures
        replays_at(places, n, step) == count_of(
            places.take(n),
            |p: Option<usize>| p == Some(step),
        ),
    decreases n,
{
    if n > 0 {
        replays_are_counted(places, n - 1, step);
        assert(places.take(n).drop_last() =~= places.take(n - 1));
        assert(places.take(n).last() == places[n - 1]);
    }
}

proof fn one_replay_for_each(places: Seq<Option<usize>>, suffix: Seq<usize>, n: int)
    requires
        0 <= n <= suffix.len(),
        forall|k: int, m: int|
            0 <= k < m < suffix.len() ==> (#[trigger] suffix[k]) < (#[trigger] suffix[m]),
        forall|k: int|
            0 <= k < suffix.len() ==> replays_at(
                places,
                places.len() as int,
                #[trigger] suffix[k],
            ) == 1,
    ensures
        count_of(places, |p: Option<usize>| p is Some && suffix.take(n).contains(p->0)) == n,
    decreases n,
{
    let inside = |p: Option<usize>| p is Some && suffix.take(n).contains(p->0);
    if n == 0 {
        crate::sums::counts_fit(places, inside);
        if count_of(places, inside) != 0 {
            crate::sums::some_is_counted(places, inside);
        }
    } else {
        one_replay_for_each(places, suffix, n - 1);
        let step = suffix[n - 1];
        replays_are_counted(places, places.len() as int, step);
        assert(places.take(places.len() as int) =~= places);
        let front = |p: Option<usize>| p is Some && suffix.take(n - 1).contains(p->0);
        let own = |p: Option<usize>| p == Some(step);
        let a = |p: Option<usize>|
            if front(p) {
                1int
            } else {
                0
            };
        let b = |p: Option<usize>|
            if own(p) {
                1int
            } else {
                0
            };
        let c = |p: Option<usize>|
            if inside(p) {
                1int
            } else {
                0
            };
        assert forall|p: Option<usize>| #[trigger] c(p) == a(p) + b(p) by {
            if p is Some {
                one_step_more(suffix, n, p->0);
            }
        }
        crate::sums::sums_add_up(places, a, b, c);
    }
}

proof fn one_step_more(suffix: Seq<usize>, n: int, x: usize)
    requires
        0 < n <= suffix.len(),
        forall|k: int, m: int|
            0 <= k < m < suffix.len() ==> (#[trigger] suffix[k]) < (#[trigger] suffix[m]),
    ensures
        suffix.take(n).contains(x) == (suffix.take(n - 1).contains(x) || x == suffix[n - 1]),
        !(suffix.take(n - 1).contains(x) && x == suffix[n - 1]),
{
    let all = suffix.take(n);
    let front = suffix.take(n - 1);
    assert(all[n - 1] == suffix[n - 1]);
    if front.contains(x) {
        let k = choose|k: int| 0 <= k < front.len() && front[k] == x;
        assert(all[k] == x);
        assert(suffix[k] < suffix[n - 1]);
    }
    if all.contains(x) && x != suffix[n - 1] {
        let k = choose|k: int| 0 <= k < all.len() && all[k] == x;
        assert(front[k] == x);
    }
}

proof fn executables_are_distinct(replays: Seq<Replay>, selected: Seq<usize>, n: int)
    requires
        0 <= n <= selected.len(),
    ensures
        executables(replays, selected, n).finite(),
        distinct_execs(replays, selected, n) == executables(replays, selected, n).len(),
    decreases n,
{
    let all = executables(replays, selected, n);
    if n > 0 {
        executables_are_distinct(replays, selected, n - 1);
        let front = executables(replays, selected, n - 1);
        let x = replays[selected[n - 1] as int].graph_exec;
        assert(all =~= front.insert(x)) by {
            assert forall|y: u64| all.contains(y) implies front.insert(x).contains(y) by {
                let k = choose|k: int|
                    0 <= k < n && replays[#[trigger] selected[k] as int].graph_exec == y;
                if k < n - 1 {
                    assert(front.contains(y));
                }
            }
            assert forall|y: u64| front.insert(x).contains(y) implies all.contains(y) by {
                if y == x {
                    assert(replays[selected[n - 1] as int].graph_exec == y);
                } else {
                    let k = choose|k: int|
                        0 <= k < n - 1 && replays[#[trigger] selected[k] as int].graph_exec == y;
                    assert(replays[selected[k] as int].graph_exec == y);
                }
            }
        }
    } else {
        assert(all =~= Set::empty());
    }
}

/// The executables of the first selected replays.
pub open spec fn executables(replays: Seq<Replay>, selected: Seq<usize>, n: int) -> Set<u64> {
    Set::new(
        |x: u64|
            exists|k: int| 0 <= k < n && replays[#[trigger] selected[k] as int].graph_exec == x,
    )
}

proof fn reordered_are_counted(
    steps: Seq<TraceStep>,
    places: Seq<Option<usize>>,
    selected: Seq<usize>,
    n: int,
)
    requires
        0 <= n <= selected.len(),
    ensures
        reordered(steps, places, selected, n) == count_of(
            selected.take(n),
            |i: usize| steps[(places[i as int]->0) as int].scheduler_order_mismatches != 0,
        ),
    decreases n,
{
    if n > 0 {
        reordered_are_counted(steps, places, selected, n - 1);
        assert(selected.take(n).drop_last() =~= selected.take(n - 1));
        assert(selected.take(n).last() == selected[n - 1]);
    }
}

/// Of the selected replays, as many are of a reordered step as their steps show,
/// and as many executables are told as there are different ones. One replay is
/// selected for each step of the suffix.
pub proof fn selection_is_counted(
    report: GraphJoinReport,
    input: GraphInput,
    expected_nodes: usize,
)
    requires
        input.nodes@.len() <= usize::MAX,
        input.trace.steps@.len() <= usize::MAX,
        graph_failure(input, expected_nodes) is None,
        graph_report_is(report, input, graph_stages(input, expected_nodes)),
    ensures
        report.selected_replays == report.eligible_steps,
        ({
            let stages = graph_stages(input, expected_nodes);
            &&& report.distinct_graph_execs == executables(
                stages.replays,
                stages.selected,
                stages.selected.len() as int,
            ).len()
            &&& report.selected_reordered_steps == count_of(
                stages.selected,
                |i: usize|
                    input.trace.steps@[(stages.places[i as int]->0) as int].scheduler_order_mismatches
                        != 0,
            )
        }),
{
    let stages = graph_stages(input, expected_nodes);
    let places = stages.places;
    let suffix = stages.suffix;
    let steps = input.trace.steps@;
    assert(placing_failure(input, stages) is None);
    assert(suffix_of(steps) == Ok::<Seq<usize>, Seq<char>>(suffix));
    suffix_decodes_behind_all_prefill(steps, suffix);
    executables_are_distinct(stages.replays, stages.selected, stages.selected.len() as int);
    reordered_are_counted(steps, places, stages.selected, stages.selected.len() as int);
    assert(stages.selected.take(stages.selected.len() as int) =~= stages.selected);
    assert forall|k: int| 0 <= k < suffix.len() implies replays_at(
        places,
        places.len() as int,
        #[trigger] suffix[k],
    ) == 1 by {
        every_step_is_replayed(steps, places, suffix, suffix.len() as int, k);
    }
    assert(places.len() <= usize::MAX) by {
        totals_agree(report, input, expected_nodes);
        assert(report.graph_replays == places.len());
    }
    selected_are_placed(places, places.len() as int, suffix);
    assert(places.take(places.len() as int) =~= places);
    one_replay_for_each(places, suffix, suffix.len() as int);
    assert(suffix.take(suffix.len() as int) =~= suffix);
}

// Rows of owners.

/// How many owners the first steps of the suffix have.
pub open spec fn owners_before(steps: Seq<TraceStep>, suffix: Seq<usize>, n: int) -> int {
    sum_of(suffix.take(n), |i: usize| steps[i as int].owner_count as int)
}

proof fn owner_rows_stand(
    trace: SemanticTrace,
    owned: Seq<nat>,
    jobs: Seq<NodeJob>,
    suffix: Seq<usize>,
    n: int,
    k: int,
    m: int,
)
    requires
        0 <= n <= suffix.len(),
        0 <= k < n ==> 0 <= m < trace.steps@[suffix[k] as int].owner_count,
    ensures
        all_owner_rows(trace, owned, jobs, suffix, n).len() == owners_before(
            trace.steps@,
            suffix,
            n,
        ),
        0 <= k < n ==> {
            let step = trace.steps@[suffix[k] as int];
            let at = owners_before(trace.steps@, suffix, k) + m;
            let rows = all_owner_rows(trace, owned, jobs, suffix, n);
            &&& 0 <= at < rows.len()
            &&& rows[at] == graph_owner_row(
                trace.owners@[step.owner_start + m],
                owned[step.owner_start + m],
                jobs_for(jobs, jobs.len() as int, suffix[k]),
            )
        },
    decreases n,
{
    if n > 0 {
        owner_rows_stand(trace, owned, jobs, suffix, n - 1, k, m);
        assert(suffix.take(n).drop_last() =~= suffix.take(n - 1));
        assert(suffix.take(n).last() == suffix[n - 1]);
        if k == n - 1 {
            owner_rows_stand(trace, owned, jobs, suffix, n - 1, -1, 0);
        }
    }
}

/// Each owner of a step of the suffix has a row, step by step and in the order of
/// the step's owners. The row shows the owner and expects a block for each of its
/// tokens and each node.
pub proof fn owner_row_shows_the_owner(
    report: GraphJoinReport,
    input: GraphInput,
    expected_nodes: usize,
    k: int,
    m: int,
)
    requires
        input.nodes@.len() <= usize::MAX,
        input.trace.steps@.len() <= usize::MAX,
        input.events@.len() <= usize::MAX,
        input.trace.wf(),
        graph_failure(input, expected_nodes) is None,
        graph_report_is(report, input, graph_stages(input, expected_nodes)),
        0 <= k < report.steps@.len(),
        0 <= m < report.steps@[k].requests,
    ensures
        suffix_of(input.trace.steps@) matches Ok(suffix) && {
            let stages = graph_stages(input, expected_nodes);
            let steps = input.trace.steps@;
            let step = steps[suffix[k] as int];
            let owner = input.trace.owners@[step.owner_start + m];
            let at = owners_before(steps, suffix, k) + m;
            let row = report.owners@[at];
            &&& report.owners@.len() == owners_before(steps, suffix, suffix.len() as int)
            &&& 0 <= at < report.owners@.len()
            &&& row.request_id == owner.request_id
            &&& row.phase == owner.phase
            &&& row.row_begin == owner.row_begin
            &&& row.row_end == owner.row_end
            &&& row.expected == owner.scheduled_tokens * expected_nodes
        },
{
    let stages = graph_stages(input, expected_nodes);
    let trace = *input.trace;
    assert(placing_failure(input, stages) is None);
    row_shows_the_step_and_its_replay(report, input, expected_nodes, k);
    let owned = crate::graph_join::owned_blocks(trace, stages.jobs, stages.tail);
    let n = stages.suffix.len() as int;
    owner_rows_stand(trace, owned, stages.jobs, stages.suffix, n, k, m);
    let nodes = jobs_for(stages.jobs, stages.jobs.len() as int, stages.suffix[k]);
    nodes_of_a_step(input, expected_nodes, k);
    let step = trace.steps@[stages.suffix[k] as int];
    let tokens = trace.owners@[step.owner_start + m].scheduled_tokens as int;
    assert(0 <= tokens * nodes <= 0xffff_ffff * 0xffff_ffff_ffff_ffff) by (nonlinear_arith)
        requires
            0 <= tokens <= 0xffff_ffff,
            0 <= nodes <= 0xffff_ffff_ffff_ffff,
    ;
}

proof fn few_are_owned(
    events: Seq<DeviceEvent>,
    n: int,
    scheduled: u32,
    owners: Seq<OwnershipSlice>,
    i: int,
)
    requires
        0 <= n,
    ensures
        owned(events, n, scheduled, owners, i) <= n,
    decreases n,
{
    if n > 0 {
        few_are_owned(events, n - 1, scheduled, owners, i);
    }
}

proof fn credit_is_bounded(
    trace: SemanticTrace,
    jobs: Seq<NodeJob>,
    tail: Seq<DeviceEvent>,
    n: int,
    place: int,
)
    requires
        0 <= n <= jobs.len(),
        blocks_before(jobs, jobs.len() as int) == tail.len(),
    ensures
        blocks_owned(trace, jobs, tail, n, place) <= blocks_before(jobs, n),
    decreases n,
{
    if n > 0 {
        credit_is_bounded(trace, jobs, tail, n - 1, place);
        let step = trace.steps@[jobs[n - 1].step_index as int];
        let events = events_of(jobs, tail, n - 1);
        blocks_only_grow(jobs, n - 1, n);
        blocks_only_grow(jobs, n, jobs.len() as int);
        few_are_owned(
            events,
            events.len() as int,
            step.begin.scheduled_tokens,
            step_owners(trace, step),
            place - step.owner_start,
        );
    }
}

proof fn jobs_are_counted(jobs: Seq<NodeJob>, n: int, step: usize)
    requires
        0 <= n <= jobs.len(),
    ensures
        jobs_for(jobs, n, step) == jobs_in_step(jobs, n, step as int),
    decreases n,
{
    if n > 0 {
        jobs_are_counted(jobs, n - 1, step);
        assert(jobs.take(n).drop_last() =~= jobs.take(n - 1));
        assert(jobs.take(n).last() == jobs[n - 1]);
    }
}

proof fn total_is_before(jobs: Seq<NodeJob>, n: int)
    requires
        0 <= n <= jobs.len(),
        event_total(jobs, n) is Ok,
    ensures
        event_total(jobs, n)->Ok_0 == blocks_before(jobs, n),
        blocks_before(jobs, n) <= usize::MAX,
    decreases n,
{
    if n > 0 {
        total_is_before(jobs, n - 1);
    }
}

proof fn jobs_lie_in_the_suffix(
    nodes: Seq<GraphNode>,
    replays: Seq<Replay>,
    places: Seq<Option<usize>>,
    suffix: Seq<usize>,
    n: int,
    j: int,
)
    requires
        0 <= n <= places.len(),
        places.len() <= usize::MAX,
        ({
            let selected = selected_of(places, n, suffix);
            0 <= j < jobs_of(nodes, replays, places, selected, selected.len() as int).len()
        }),
    ensures
        ({
            let selected = selected_of(places, n, suffix);
            suffix.contains(
                jobs_of(nodes, replays, places, selected, selected.len() as int)[j].step_index,
            )
        }),
    decreases n,
{
    if n > 0 {
        let front = selected_of(places, n - 1, suffix);
        let selected = selected_of(places, n, suffix);
        if places[n - 1] is Some && suffix.contains(places[n - 1]->0) {
            same_jobs(nodes, replays, places, front, selected, front.len() as int);
            let jobs = jobs_of(nodes, replays, places, front, front.len() as int);
            if j < jobs.len() {
                jobs_lie_in_the_suffix(nodes, replays, places, suffix, n - 1, j);
            } else {
                let more = replay_jobs(nodes, replays[n - 1], places[n - 1]->0);
                assert((jobs + more)[j] == more[j - jobs.len()]);
            }
        } else {
            jobs_lie_in_the_suffix(nodes, replays, places, suffix, n - 1, j);
        }
    }
}

proof fn credit_in_the_suffix(
    trace: SemanticTrace,
    jobs: Seq<NodeJob>,
    tail: Seq<DeviceEvent>,
    suffix: Seq<usize>,
    k: int,
    place: int,
)
    requires
        trace.wf(),
        blocks_before(jobs, jobs.len() as int) == tail.len(),
        jobs_fault(trace, jobs, tail, jobs.len() as int) is None,
        0 <= k < suffix.len(),
        forall|i: int| 0 <= i < suffix.len() ==> (#[trigger] suffix[i]) < trace.steps@.len(),
        forall|j: int| 0 <= j < jobs.len() ==> suffix.contains((#[trigger] jobs[j]).step_index),
        ({
            let step = trace.steps@[suffix[k] as int];
            let owner = trace.owners@[place];
            &&& step.owner_start <= place < step.owner_start + step.owner_count
            &&& in_row_order(
                trace.owners@.subrange(
                    step.owner_start as int,
                    step.owner_start + step.owner_count,
                ),
            )
            &&& owner.authoritative
            &&& owner.row_begin <= owner.row_end <= step.begin.scheduled_tokens
        }),
        forall|j: int|
            0 <= j < suffix.len() && j != k ==> !(trace.steps@[(
            #[trigger] suffix[j]) as int].owner_start <= place
                < trace.steps@[suffix[j] as int].owner_start
                + trace.steps@[suffix[j] as int].owner_count),
    ensures
        blocks_owned(trace, jobs, tail, jobs.len() as int, place) == (
        trace.owners@[place].row_end - trace.owners@[place].row_begin) * jobs_for(
            jobs,
            jobs.len() as int,
            suffix[k],
        ),
        blocks_owned(trace, jobs, tail, jobs.len() as int, place) <= tail.len(),
{
    assert forall|j: int| 0 <= j < jobs.len() && (#[trigger] jobs[j]).step_index != suffix[k] implies !(
    trace.steps@[jobs[j].step_index as int].owner_start <= place
        < trace.steps@[jobs[j].step_index as int].owner_start
        + trace.steps@[jobs[j].step_index as int].owner_count) by {
        let i = choose|i: int| 0 <= i < suffix.len() && suffix[i] == jobs[j].step_index;
        assert(suffix[i] == jobs[j].step_index);
    }
    assert forall|j: int| 0 <= j < jobs.len() implies (#[trigger] jobs[j]).step_index
        < trace.steps@.len() by {
        let i = choose|i: int| 0 <= i < suffix.len() && suffix[i] == jobs[j].step_index;
        assert(suffix[i] < trace.steps@.len());
    }
    assert(trace.steps@[suffix[k] as int].owner_start + trace.steps@[suffix[k] as int].owner_count
        <= trace.owners@.len());
    owner_is_credited_for_its_rows(
        trace,
        jobs,
        tail,
        jobs.len() as int,
        suffix[k] as int,
        place,
    );
    jobs_are_counted(jobs, jobs.len() as int, suffix[k]);
    credit_is_bounded(trace, jobs, tail, jobs.len() as int, place);
}

/// An owner's row tells a block for each of the owner's rows and each node, where
/// the owners of the step stand in the order of their rows and belong to no other
/// step of the suffix.
pub proof fn owner_row_tells_a_block_for_each_row(
    report: GraphJoinReport,
    input: GraphInput,
    expected_nodes: usize,
    k: int,
    m: int,
)
    requires
        input.nodes@.len() <= usize::MAX,
        input.trace.steps@.len() <= usize::MAX,
        input.trace.wf(),
        graph_failure(input, expected_nodes) is None,
        graph_report_is(report, input, graph_stages(input, expected_nodes)),
        0 <= k < report.steps@.len(),
        0 <= m < report.steps@[k].requests,
        suffix_of(input.trace.steps@) matches Ok(suffix) && {
            let steps = input.trace.steps@;
            let step = steps[suffix[k] as int];
            let place = step.owner_start + m;
            let owner = input.trace.owners@[place];
            &&& in_row_order(
                input.trace.owners@.subrange(
                    step.owner_start as int,
                    step.owner_start + step.owner_count,
                ),
            )
            &&& owner.authoritative
            &&& owner.row_begin <= owner.row_end <= step.begin.scheduled_tokens
            &&& forall|j: int|
                0 <= j < suffix.len() && j != k ==> !(steps[(
                #[trigger] suffix[j]) as int].owner_start <= place
                    < steps[suffix[j] as int].owner_start + steps[suffix[j] as int].owner_count)
        },
    ensures
        suffix_of(input.trace.steps@) matches Ok(suffix) && {
            let steps = input.trace.steps@;
            let owner = input.trace.owners@[steps[suffix[k] as int].owner_start + m];
            let row = report.owners@[owners_before(steps, suffix, k) + m];
            row.blocks == (owner.row_end - owner.row_begin) * expected_nodes
        },
{
    let stages = graph_stages(input, expected_nodes);
    let trace = *input.trace;
    let suffix = stages.suffix;
    let jobs = stages.jobs;
    stages_are_sound(report, input, expected_nodes);
    assert(report.steps@[k].requests == trace.steps@[suffix[k] as int].owner_count);
    let owned_now = crate::graph_join::owned_blocks(trace, jobs, stages.tail);
    owner_rows_stand(trace, owned_now, jobs, suffix, suffix.len() as int, k, m);
    nodes_of_a_step(input, expected_nodes, k);
    let place = trace.steps@[suffix[k] as int].owner_start + m;
    assert(place < trace.owners@.len()) by {
        assert(trace.steps@[suffix[k] as int].owner_start
            + trace.steps@[suffix[k] as int].owner_count <= trace.owners@.len());
    }
    credit_in_the_suffix(trace, jobs, stages.tail, suffix, k, place);
    assert(owned_now[place] == blocks_owned(trace, jobs, stages.tail, jobs.len() as int, place));
}

proof fn stages_are_sound(report: GraphJoinReport, input: GraphInput, expected_nodes: usize)
    requires
        input.nodes@.len() <= usize::MAX,
        input.trace.steps@.len() <= usize::MAX,
        graph_failure(input, expected_nodes) is None,
        graph_report_is(report, input, graph_stages(input, expected_nodes)),
    ensures
        ({
            let stages = graph_stages(input, expected_nodes);
            let jobs = stages.jobs;
            let suffix = stages.suffix;
            &&& suffix_of(input.trace.steps@) == Ok::<Seq<usize>, Seq<char>>(suffix)
            &&& report.steps@.len() == suffix.len()
            &&& forall|k: int|
                0 <= k < suffix.len() ==> (#[trigger] suffix[k]) < input.trace.steps@.len()
            &&& forall|k: int|
                0 <= k < suffix.len() ==> (#[trigger] report.steps@[k]).requests
                    == input.trace.steps@[suffix[k] as int].owner_count
            &&& blocks_before(jobs, jobs.len() as int) == stages.tail.len()
            &&& stages.tail.len() <= usize::MAX
            &&& jobs_fault(*input.trace, jobs, stages.tail, jobs.len() as int) is None
            &&& forall|j: int|
                0 <= j < jobs.len() ==> suffix.contains((#[trigger] jobs[j]).step_index)
        }),
{
    let stages = graph_stages(input, expected_nodes);
    let suffix = stages.suffix;
    let jobs = stages.jobs;
    assert(placing_failure(input, stages) is None);
    assert(tail_failure(input, stages) is None);
    assert(suffix_of(input.trace.steps@) == Ok::<Seq<usize>, Seq<char>>(suffix));
    assert forall|k: int| 0 <= k < suffix.len() implies (#[trigger] suffix[k])
        < input.trace.steps@.len() by {
        suffix_decodes_behind_all_prefill(input.trace.steps@, suffix);
    }
    total_is_before(jobs, jobs.len() as int);
    assert(stages.places.len() <= usize::MAX) by {
        totals_agree(report, input, expected_nodes);
        assert(report.graph_replays == stages.places.len());
    }
    assert forall|j: int| 0 <= j < jobs.len() implies suffix.contains(
        (#[trigger] jobs[j]).step_index,
    ) by {
        jobs_lie_in_the_suffix(
            input.nodes@,
            stages.replays,
            stages.places,
            suffix,
            stages.places.len() as int,
            j,
        );
    }
}

/// The totals of a join agree with one another and with what was read: the replays
/// hold all nodes, each is selected or ignored, and the selected events are the
/// last of the device's, one for each block of the selected nodes.
pub proof fn totals_agree(report: GraphJoinReport, input: GraphInput, expected_nodes: usize)
    requires
        input.nodes@.len() <= usize::MAX,
        graph_failure(input, expected_nodes) is None,
        graph_report_is(report, input, graph_stages(input, expected_nodes)),
    ensures
        report.graph_replays * expected_nodes == input.nodes@.len(),
        report.selected_replays + report.ignored_replays == report.graph_replays,
        report.eligible_steps == report.steps@.len(),
        report.device_start + report.selected_events == input.events@.len(),
        report.selected_events > 0,
        report.selected_events == sum_of(
            graph_stages(input, expected_nodes).jobs,
            |job: NodeJob| job.node.expected_blocks as int,
        ),
        report.request_count_mismatches == count_of(
            report.owners@,
            |row: GraphOwnerRow| row.blocks != row.expected,
        ),
{
    let stages = graph_stages(input, expected_nodes);
    let nodes = input.nodes@;
    assert(placing_failure(input, stages) is None);
    assert(tail_failure(input, stages) is None);
    if stages.replays.len() == 0 {
        let e = expected_nodes;
        let end = crate::replay::run_end(nodes, 0, 1);
        crate::replay::run_end_bounds(nodes, 0, 1);
        let first = Replay {
            graph_exec: nodes[0].graph_exec,
            replay_id: nodes[0].replay_id,
            node_start: 0,
            node_count: end as usize,
        };
        found_stay(nodes, e, end, Seq::<Replay>::empty().push(first));
    }
    replays_cover_nodes(nodes, expected_nodes, 0);
    selected_are_few(stages.places, stages.places.len() as int, stages.suffix);
    total_is_the_sum(stages.jobs, stages.jobs.len() as int);
    assert(stages.jobs.take(stages.jobs.len() as int) =~= stages.jobs);
    mismatches_are_counted(report.owners@, report.owners@.len() as int);
    assert(report.owners@.take(report.owners@.len() as int) =~= report.owners@);
}

proof fn found_stay(nodes: Seq<GraphNode>, expected: usize, cursor: int, found: Seq<Replay>)
    requires
        0 <= cursor <= nodes.len(),
        replays_from(nodes, expected, cursor, found) is Ok,
    ensures
        (replays_from(nodes, expected, cursor, found)->Ok_0).len() >= found.len(),
    decreases nodes.len() - cursor,
{
    if cursor < nodes.len() {
        let end = crate::replay::run_end(nodes, cursor, cursor + 1);
        crate::replay::run_end_bounds(nodes, cursor, cursor + 1);
        found_stay(
            nodes,
            expected,
            end,
            found.push(
                Replay {
                    graph_exec: nodes[cursor].graph_exec,
                    replay_id: nodes[cursor].replay_id,
                    node_start: cursor as usize,
                    node_count: (end - cursor) as usize,
                },
            ),
        );
    }
}

proof fn selected_are_few(places: Seq<Option<usize>>, n: int, suffix: Seq<usize>)
    requires
        0 <= n <= places.len(),
    ensures
        selected_of(places, n, suffix).len() <= n,
    decreases n,
{
    if n > 0 {
        selected_are_few(places, n - 1, suffix);
    }
}

proof fn total_is_the_sum(jobs: Seq<NodeJob>, n: int)
    requires
        0 <= n <= jobs.len(),
        event_total(jobs, n) is Ok,
    ensures
        event_total(jobs, n)->Ok_0 == sum_of(
            jobs.take(n),
            |job: NodeJob| job.node.expected_blocks as int,
        ),
    decreases n,
{
    if n > 0 {
        total_is_the_sum(jobs, n - 1);
        assert(jobs.take(n).drop_last() =~= jobs.take(n - 1));
        assert(jobs.take(n).last() == jobs[n - 1]);
    }
}

proof fn mismatches_are_counted(rows: Seq<GraphOwnerRow>, n: int)
    requires
        0 <= n <= rows.len(),
    ensures
        block_mismatches(rows, n) == count_of(
            rows.take(n),
            |row: GraphOwnerRow| row.blocks != row.expected,
        ),
    decreases n,
{
    if n > 0 {
        mismatches_are_counted(rows, n - 1);
        assert(rows.take(n).drop_last() =~= rows.take(n - 1));
        assert(rows.take(n).last() == rows[n - 1]);
    }
}

} // verus!
