//! Graph replays and their topology.

use crate::digits::{append_decimal, append_hex, decimal, hexadecimal};
use crate::graph::GraphNode;
use vstd::prelude::*;
use vstd::string::*;

verus! {

/// A run of nodes that one replay of a graph executed.
#[derive(Clone, Copy, Debug, PartialEq, Eq, Structural)]
pub struct Replay {
    pub graph_exec: u64,
    pub replay_id: u32,
    pub node_start: usize,
    pub node_count: usize,
}

/// Whether two nodes belong to the same replay.
pub open spec fn same_replay(a: GraphNode, b: GraphNode) -> bool {
    a.graph_exec == b.graph_exec && a.replay_id == b.replay_id
}

/// Where the run of nodes of one replay that begins at `start` and goes on at
/// least to `end` ends.
pub open spec fn run_end(nodes: Seq<GraphNode>, start: int, end: int) -> int
    decreases nodes.len() - end,
{
    if 0 <= start < end < nodes.len() && same_replay(nodes[end], nodes[start]) {
        run_end(nodes, start, end + 1)
    } else {
        end
    }
}

/// Whether time goes back somewhere in the run.
pub open spec fn goes_back(nodes: Seq<GraphNode>, start: int, end: int) -> bool {
    exists|i: int| start < i < end && #[trigger] is_earlier(nodes, i)
}

/// Whether the node is earlier than the one before it.
pub open spec fn is_earlier(nodes: Seq<GraphNode>, i: int) -> bool {
    nodes[i].host_timestamp_ns < nodes[i - 1].host_timestamp_ns
}

/// Whether one of the replays is that of the node.
pub open spec fn replayed(found: Seq<Replay>, node: GraphNode) -> bool {
    exists|i: int|
        0 <= i < found.len() && (#[trigger] found[i]).graph_exec == node.graph_exec
            && found[i].replay_id == node.replay_id
}

pub open spec fn count_complaint(node: GraphNode, count: int, expected: usize) -> Seq<char> {
    "graph replay (0x"@ + hexadecimal(node.graph_exec as nat) + ","@ + decimal(
        node.replay_id as nat,
    ) + ") has "@ + decimal(count as nat) + " nodes, expected "@ + decimal(expected as nat)
}

/// The replays from the cursor on, behind those that were found.
pub open spec fn replays_from(
    nodes: Seq<GraphNode>,
    expected: usize,
    cursor: int,
    found: Seq<Replay>,
) -> Result<Seq<Replay>, Seq<char>>
    decreases nodes.len() - cursor,
{
    if cursor < 0 || cursor >= nodes.len() {
        Ok(found)
    } else {
        let end = run_end(nodes, cursor, cursor + 1);
        let node = nodes[cursor];
        proof {
            run_end_bounds(nodes, cursor, cursor + 1);
        }
        if goes_back(nodes, cursor, end) {
            Err("graph-node timestamps decrease within one replay"@)
        } else if end - cursor != expected {
            Err(count_complaint(node, end - cursor, expected))
        } else if replayed(found, node) {
            Err("graph replay identity appears in multiple non-contiguous ranges"@)
        } else {
            replays_from(
                nodes,
                expected,
                end,
                found.push(
                    Replay {
                        graph_exec: node.graph_exec,
                        replay_id: node.replay_id,
                        node_start: cursor as usize,
                        node_count: (end - cursor) as usize,
                    },
                ),
            )
        }
    }
}

pub proof fn run_end_bounds(nodes: Seq<GraphNode>, start: int, end: int)
    requires
        0 <= start < end <= nodes.len(),
    ensures
        end <= run_end(nodes, start, end) <= nodes.len(),
        forall|i: int|
            end <= i < run_end(nodes, start, end) ==> same_replay(#[trigger] nodes[i], nodes[start]),
    decreases nodes.len() - end,
{
    if end < nodes.len() && same_replay(nodes[end], nodes[start]) {
        run_end_bounds(nodes, start, end + 1);
    }
}

/// Where the run that begins at the node ends, unless time goes back in it.
fn find_run(nodes: &[GraphNode], start: usize) -> (r: Option<usize>)
    requires
        start < nodes@.len(),
    ensures
        goes_back(nodes@, start as int, run_end(nodes@, start as int, start + 1)) <==> r is None,
        r matches Some(end) ==> start < end <= nodes@.len() && end == run_end(
            nodes@,
            start as int,
            start + 1,
        ),
{
    let first = nodes[start];
    let mut end: usize = start + 1;
    let ghost whole = run_end(nodes@, start as int, start + 1);
    while end < nodes.len() && nodes[end].graph_exec == first.graph_exec && nodes[end].replay_id
        == first.replay_id
        invariant
            start < end <= nodes.len(),
            first == nodes@[start as int],
            whole == run_end(nodes@, start as int, start + 1),
            run_end(nodes@, start as int, end as int) == whole,
            forall|i: int| start < i < end ==> !#[trigger] is_earlier(nodes@, i),
        decreases nodes.len() - end,
    {
        if nodes[end].host_timestamp_ns < nodes[end - 1].host_timestamp_ns {
            proof {
                run_end_bounds(nodes@, start as int, end + 1);
                assert(is_earlier(nodes@, end as int));
            }
            return None;
        }
        end += 1;
    }
    Some(end)
}

/// Groups nodes into replays of the expected number of nodes.
pub fn group_replays(nodes: &[GraphNode], expected_nodes: usize) -> (r: Result<Vec<Replay>, String>)
    ensures
        match (r, replays_from(nodes@, expected_nodes, 0, Seq::empty())) {
            (Ok(replays), Ok(expected)) => replays@ == expected,
            (Err(error), Err(expected)) => error@ == expected,
            _ => false,
        },
{
    let mut replays: Vec<Replay> = Vec::new();
    let mut cursor: usize = 0;
    while cursor < nodes.len()
        invariant
            cursor <= nodes.len(),
            replays_from(nodes@, expected_nodes, cursor as int, replays@) == replays_from(
                nodes@,
                expected_nodes,
                0,
                Seq::empty(),
            ),
        decreases nodes.len() - cursor,
    {
        let start: usize = cursor;
        let first = nodes[start];
        let ghost whole = run_end(nodes@, start as int, start + 1);
        let end: usize = match find_run(nodes, start) {
            Some(end) => end,
            None => {
                return Err("graph-node timestamps decrease within one replay".to_owned());
            },
        };
        let count: usize = end - start;
        if count != expected_nodes {
            let mut text = "graph replay (0x".to_owned();
            append_hex(&mut text, first.graph_exec);
            text.append(",");
            append_decimal(&mut text, first.replay_id as u64);
            text.append(") has ");
            append_decimal(&mut text, count as u64);
            text.append(" nodes, expected ");
            append_decimal(&mut text, expected_nodes as u64);
            return Err(text);
        }
        let mut i: usize = 0;
        while i < replays.len()
            invariant
                i <= replays.len(),
                forall|k: int|
                    0 <= k < i ==> !((#[trigger] replays@[k]).graph_exec == first.graph_exec
                        && replays@[k].replay_id == first.replay_id),
                start < nodes.len(),
                first == nodes@[start as int],
                whole == run_end(nodes@, start as int, start + 1),
                !goes_back(nodes@, start as int, whole),
                whole - start == expected_nodes,
                replays_from(nodes@, expected_nodes, start as int, replays@) == replays_from(
                    nodes@,
                    expected_nodes,
                    0,
                    Seq::empty(),
                ),
            decreases replays.len() - i,
        {
            if replays[i].graph_exec == first.graph_exec && replays[i].replay_id
                == first.replay_id {
                assert(replayed(replays@, first)) by {
                    assert(replays@[i as int].graph_exec == first.graph_exec);
                }
                return Err(
                    "graph replay identity appears in multiple non-contiguous ranges".to_owned(),
                );
            }
            i += 1;
        }
        assert(!replayed(replays@, first));
        replays.push(
            Replay {
                graph_exec: first.graph_exec,
                replay_id: first.replay_id,
                node_start: start,
                node_count: count,
            },
        );
        cursor = end;
    }
    Ok(replays)
}

// Topology.

/// Whether the ranges of the replays lie in so many nodes.
pub open spec fn replays_fit(replays: Seq<Replay>, nodes: nat) -> bool {
    forall|i: int|
        0 <= i < replays.len() ==> (#[trigger] replays[i]).node_start + replays[i].node_count
            <= nodes
}

/// Whether two nodes are the same part of a graph.
pub open spec fn same_part(a: GraphNode, b: GraphNode) -> bool {
    &&& a.node == b.node
    &&& a.kernel_slot == b.kernel_slot
    &&& a.context_slot == b.context_slot
    &&& a.stream == b.stream
    &&& a.api_stream == b.api_stream
    &&& a.grid == b.grid
    &&& a.block == b.block
    &&& a.expected_blocks == b.expected_blocks
}

/// Whether two replays ran the same parts in the same order.
pub open spec fn same_shape(nodes: Seq<GraphNode>, a: Replay, b: Replay) -> bool {
    forall|k: int|
        0 <= k < b.node_count ==> same_part(
            #[trigger] nodes[a.node_start + k],
            nodes[b.node_start + k],
        )
}

/// The first of the replays of the executable.
pub open spec fn first_of(replays: Seq<Replay>, graph_exec: u64) -> Option<int>
    decreases replays.len(),
{
    if replays.len() == 0 {
        None
    } else {
        match first_of(replays.drop_last(), graph_exec) {
            Some(i) => Some(i),
            None => if replays.last().graph_exec == graph_exec {
                Some(replays.len() - 1)
            } else {
                None
            },
        }
    }
}

/// What is wrong with the topology of the replays, if anything: a replay is
/// held against the first of its executable.
pub open spec fn topology_problem(nodes: Seq<GraphNode>, replays: Seq<Replay>) -> Option<Seq<char>>
    decreases replays.len(),
{
    if replays.len() == 0 {
        None
    } else {
        let last = replays.last();
        match topology_problem(nodes, replays.drop_last()) {
            Some(problem) => Some(problem),
            None => match first_of(replays.drop_last(), last.graph_exec) {
                None => None,
                Some(i) => if replays[i].node_count != last.node_count {
                    Some("node count changed for a stable graph executable"@)
                } else if !same_shape(nodes, replays[i], last) {
                    Some("node topology changed for a stable graph executable"@)
                } else {
                    None
                },
            },
        }
    }
}

proof fn topology_problem_stays(nodes: Seq<GraphNode>, replays: Seq<Replay>, n: int)
    requires
        0 <= n <= replays.len(),
        topology_problem(nodes, replays.take(n)) is Some,
    ensures
        topology_problem(nodes, replays) == topology_problem(nodes, replays.take(n)),
    decreases replays.len() - n,
{
    if n < replays.len() {
        assert(replays.take(n + 1).drop_last() =~= replays.take(n));
        topology_problem_stays(nodes, replays, n + 1);
    } else {
        assert(replays.take(n) =~= replays);
    }
}

fn find_first(replays: &[Replay], count: usize, graph_exec: u64) -> (r: Option<usize>)
    requires
        count <= replays@.len(),
    ensures
        first_of(replays@.take(count as int), graph_exec) == match r {
            Some(i) => Some(i as int),
            None => None,
        },
        r matches Some(i) ==> i < count,
{
    let ghost front = replays@.take(count as int);
    let mut i: usize = 0;
    assert(front.take(0) =~= Seq::<Replay>::empty());
    while i < count
        invariant
            i <= count <= replays@.len(),
            front == replays@.take(count as int),
            first_of(front.take(i as int), graph_exec) is None,
        decreases count - i,
    {
        assert(front.take(i + 1).drop_last() =~= front.take(i as int));
        if replays[i].graph_exec == graph_exec {
            proof {
                first_stays(front, graph_exec, i + 1);
            }
            return Some(i);
        }
        i += 1;
    }
    assert(front.take(count as int) =~= front);
    None
}

proof fn first_stays(replays: Seq<Replay>, graph_exec: u64, n: int)
    requires
        0 <= n <= replays.len(),
        first_of(replays.take(n), graph_exec) is Some,
    ensures
        first_of(replays, graph_exec) == first_of(replays.take(n), graph_exec),
    decreases replays.len() - n,
{
    if n < replays.len() {
        assert(replays.take(n + 1).drop_last() =~= replays.take(n));
        first_stays(replays, graph_exec, n + 1);
    } else {
        assert(replays.take(n) =~= replays);
    }
}

fn shapes_match(nodes: &[GraphNode], a: &Replay, b: &Replay) -> (r: bool)
    requires
        a.node_start + a.node_count <= nodes@.len(),
        b.node_start + b.node_count <= nodes@.len(),
        a.node_count == b.node_count,
    ensures
        r == same_shape(nodes@, *a, *b),
{
    assert(a.node_start + a.node_count <= nodes.len());
    assert(b.node_start + b.node_count <= nodes.len());
    let mut k: usize = 0;
    while k < b.node_count
        invariant
            k <= b.node_count,
            a.node_start + a.node_count <= nodes.len(),
            b.node_start + b.node_count <= nodes.len(),
            a.node_count == b.node_count,
            forall|j: int|
                0 <= j < k ==> same_part(
                    #[trigger] nodes@[a.node_start + j],
                    nodes@[b.node_start + j],
                ),
        decreases b.node_count - k,
    {
        let x = nodes[a.node_start + k];
        let y = nodes[b.node_start + k];
        if x.node != y.node || x.kernel_slot != y.kernel_slot || x.context_slot != y.context_slot
            || x.stream != y.stream || x.api_stream != y.api_stream || x.grid != y.grid || x.block
            != y.block || x.expected_blocks != y.expected_blocks {
            assert(!same_part(nodes@[a.node_start + k], nodes@[b.node_start + k]));
            return false;
        }
        k += 1;
    }
    true
}

/// Checks that the replays of each executable have the same topology.
pub fn validate_topologies(nodes: &[GraphNode], replays: &[Replay]) -> (r: Result<(), &'static str>)
    requires
        replays_fit(replays@, nodes@.len()),
    ensures
        match (r, topology_problem(nodes@, replays@)) {
            (Ok(_), None) => true,
            (Err(error), Some(problem)) => error@ == problem,
            _ => false,
        },
{
    let mut n: usize = 0;
    assert(replays@.take(0) =~= Seq::<Replay>::empty());
    while n < replays.len()
        invariant
            n <= replays.len(),
            replays_fit(replays@, nodes@.len()),
            topology_problem(nodes@, replays@.take(n as int)) is None,
        decreases replays.len() - n,
    {
        let replay = replays[n];
        proof {
            let next = replays@.take(n + 1);
            assert(next.drop_last() =~= replays@.take(n as int));
            assert(next.last() == replay);
            if topology_problem(nodes@, next) is Some {
                topology_problem_stays(nodes@, replays@, n + 1);
            }
            assert(replays@[n as int].node_start + replays@[n as int].node_count <= nodes@.len());
        }
        if let Some(i) = find_first(replays, n, replay.graph_exec) {
            let first = replays[i];
            proof {
                assert(replays@.take(n + 1)[i as int] == first);
                assert(replays@[i as int].node_start + replays@[i as int].node_count
                    <= nodes@.len());
            }
            if first.node_count != replay.node_count {
                return Err("node count changed for a stable graph executable");
            }
            if !shapes_match(nodes, &first, &replay) {
                return Err("node topology changed for a stable graph executable");
            }
        }
        n += 1;
    }
    assert(replays@.take(replays@.len() as int) =~= replays@);
    Ok(())
}

// Laws.

/// The replays that are found lie one behind the other from the first node to
/// the last, and each has the expected number of nodes.
pub proof fn replays_cover_nodes(nodes: Seq<GraphNode>, expected: usize, i: int)
    requires
        nodes.len() <= usize::MAX,
        replays_from(nodes, expected, 0, Seq::empty()) is Ok,
        0 <= i < (replays_from(nodes, expected, 0, Seq::empty())->Ok_0).len(),
    ensures
        (replays_from(nodes, expected, 0, Seq::empty())->Ok_0)[i].node_start == i * expected,
        (replays_from(nodes, expected, 0, Seq::empty())->Ok_0)[i].node_count == expected,
        (replays_from(nodes, expected, 0, Seq::empty())->Ok_0).len() * expected == nodes.len(),
{
    assert(Seq::<Replay>::empty().len() * expected == 0);
    replays_cover_rest(nodes, expected, 0, Seq::empty(), i);
}

proof fn replays_cover_rest(
    nodes: Seq<GraphNode>,
    expected: usize,
    cursor: int,
    found: Seq<Replay>,
    i: int,
)
    requires
        nodes.len() <= usize::MAX,
        0 <= cursor <= nodes.len(),
        replays_from(nodes, expected, cursor, found) is Ok,
        forall|k: int|
            0 <= k < found.len() ==> (#[trigger] found[k]).node_start == k * expected
                && found[k].node_count == expected,
        cursor == found.len() * expected,
        0 <= i < (replays_from(nodes, expected, cursor, found)->Ok_0).len(),
    ensures
        (replays_from(nodes, expected, cursor, found)->Ok_0)[i].node_start == i * expected,
        (replays_from(nodes, expected, cursor, found)->Ok_0)[i].node_count == expected,
        (replays_from(nodes, expected, cursor, found)->Ok_0).len() * expected == nodes.len(),
    decreases nodes.len() - cursor,
{
    if cursor < nodes.len() {
        run_end_bounds(nodes, cursor, cursor + 1);
        let end = run_end(nodes, cursor, cursor + 1);
        let next = found.push(
            Replay {
                graph_exec: nodes[cursor].graph_exec,
                replay_id: nodes[cursor].replay_id,
                node_start: cursor as usize,
                node_count: (end - cursor) as usize,
            },
        );
        assert(next.len() * expected == found.len() * expected + expected) by (nonlinear_arith)
            requires
                next.len() == found.len() + 1,
        ;
        assert forall|k: int| 0 <= k < next.len() implies (#[trigger] next[k]).node_start == k
            * expected && next[k].node_count == expected by {
            if k < found.len() {
                assert(next[k] == found[k]);
            }
        }
        replays_cover_rest(nodes, expected, end, next, i);
    }
}

/// Where the topology is accepted, any two replays of the same executable ran
/// the same parts in the same order.
pub proof fn topology_is_stable(nodes: Seq<GraphNode>, replays: Seq<Replay>, i: int, j: int)
    requires
        topology_problem(nodes, replays) is None,
        0 <= i < replays.len(),
        0 <= j < replays.len(),
        replays[i].graph_exec == replays[j].graph_exec,
    ensures
        replays[i].node_count == replays[j].node_count,
        same_shape(nodes, replays[i], replays[j]),
{
    like_the_first(nodes, replays, i);
    like_the_first(nodes, replays, j);
    let f = first_of(replays, replays[i].graph_exec)->0;
    assert forall|k: int| 0 <= k < replays[j].node_count implies same_part(
        #[trigger] nodes[replays[i].node_start + k],
        nodes[replays[j].node_start + k],
    ) by {
        assert(same_part(nodes[replays[f].node_start + k], nodes[replays[i].node_start + k]));
        assert(same_part(nodes[replays[f].node_start + k], nodes[replays[j].node_start + k]));
    }
}

proof fn like_the_first(nodes: Seq<GraphNode>, replays: Seq<Replay>, i: int)
    requires
        topology_problem(nodes, replays) is None,
        0 <= i < replays.len(),
    ensures
        first_of(replays, replays[i].graph_exec) matches Some(f) && 0 <= f < replays.len()
            && replays[f].node_count == replays[i].node_count && same_shape(
            nodes,
            replays[f],
            replays[i],
        ),
    decreases replays.len(),
{
    let front = replays.drop_last();
    let last = replays.last();
    if i < front.len() {
        like_the_first(nodes, front, i);
        let f = first_of(front, front[i].graph_exec)->0;
        assert(front[i] == replays[i]);
        assert(front[f] == replays[f]);
    } else {
        first_is_inside(front, last.graph_exec);
    }
}

proof fn first_is_inside(replays: Seq<Replay>, graph_exec: u64)
    ensures
        first_of(replays, graph_exec) matches Some(f) ==> 0 <= f < replays.len(),
    decreases replays.len(),
{
    if replays.len() > 0 {
        first_is_inside(replays.drop_last(), graph_exec);
    }
}

} // verus!
