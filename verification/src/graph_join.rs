//! The graph join: graph replays, and the blocks that they left on the device,
//! joined with the decode steps of a trace.

use crate::blocks::{
    blocks_before, blocks_owned, blocks_padded, jobs_fault, jobs_fit, tally_jobs, DeviceEvent,
    NodeJob,
};
use crate::cupti_join::holds_index;
use crate::digits::{append_decimal, decimal, decimal_text};
use crate::graph::{GraphNode, HostLaunch, ProbeQuality, MAX_GRAPH_NODES};
use crate::ownership::{
    decode_suffix, packed_timeline, step_for_replay, step_of_stretch, suffix_of, timeline_fits,
    timeline_of, OwnershipSlice, SemanticTrace, TimelineEntry, TimelineError, TraceStep,
};
use crate::record_text::{
    append_record_text, record_words, shown_fields, truth_text, truth_words,
};
use crate::replay::{
    group_replays, replays_cover_nodes, replays_fit, replays_from, topology_problem,
    validate_topologies, Replay,
};
use vstd::prelude::*;
use vstd::slice::slice_subrange;
use vstd::string::*;

verus! {

/// How well the events of a device were written.
#[derive(Clone, Copy, Debug, PartialEq, Eq, Structural)]
pub struct DeviceQuality {
    pub headers: u64,
    pub retained: u64,
    pub write_attempts: u64,
    pub drops: u64,
    pub sequence_errors: u64,
}

// Gates.

pub open spec fn arguments_problem(
    expected_nodes: usize,
    device_tail: bool,
    decode_suffix: bool,
) -> Option<Seq<char>> {
    if expected_nodes == 0 || expected_nodes > MAX_GRAPH_NODES {
        Some("expected node count is outside the bounded graph table"@)
    } else if !device_tail || !decode_suffix {
        Some(
            "graph-safe attribution currently requires explicit --device-tail and --decode-suffix assumptions"@,
        )
    } else {
        None
    }
}

/// Checks the arguments of a graph join.
pub fn check_graph_arguments(expected_nodes: usize, device_tail: bool, decode_suffix: bool) -> (r:
    Result<(), &'static str>)
    ensures
        match (r, arguments_problem(expected_nodes, device_tail, decode_suffix)) {
            (Ok(_), None) => true,
            (Err(error), Some(problem)) => error@ == problem,
            _ => false,
        },
{
    if expected_nodes == 0 || expected_nodes > MAX_GRAPH_NODES {
        return Err("expected node count is outside the bounded graph table");
    }
    if !device_tail || !decode_suffix {
        return Err(
            "graph-safe attribution currently requires explicit --device-tail and --decode-suffix assumptions",
        );
    }
    Ok(())
}

/// Whether the device wrote all of its events.
pub open spec fn device_whole(quality: DeviceQuality, events: nat) -> bool {
    &&& quality.headers == 1
    &&& quality.drops == 0
    &&& quality.sequence_errors == 0
    &&& quality.retained == events
}

/// Whether the probe recorded every launch and every graph node, and attributed
/// none itself.
pub open spec fn probe_whole(quality: ProbeQuality, launches: nat, nodes: nat) -> bool {
    &&& quality.callback_data_scope_function
    &&& quality.launch_identity == 0
    &&& quality.attributed_launches == 0
    &&& quality.passive_launch_records == 1
    &&& quality.passive_launches_seen == quality.launch_records
    &&& quality.launch_records == launches
    &&& quality.launch_table_drops == 0
    &&& quality.callback_data_failures == 0
    &&& quality.setup_missed_launches == 0
    &&& quality.graph_node_identity == 1
    &&& quality.graph_nodes_seen == quality.graph_nodes_recorded
    &&& quality.graph_nodes_recorded == nodes
    &&& quality.graph_node_table_drops == 0
}

/// What a graph join reads.
pub struct GraphInput<'a> {
    pub trace: &'a SemanticTrace,
    pub nodes: &'a [GraphNode],
    pub launches: &'a [HostLaunch],
    pub quality: ProbeQuality,
    pub events: &'a [DeviceEvent],
    pub device_quality: DeviceQuality,
}

pub open spec fn probe_fields(quality: ProbeQuality) -> Seq<(Seq<char>, Seq<char>)> {
    seq![
        ("callback_data_scope_function"@, truth_words(quality.callback_data_scope_function)),
        ("launch_identity"@, decimal(quality.launch_identity as nat)),
        ("attributed_launches"@, decimal(quality.attributed_launches as nat)),
        ("passive_launch_records"@, decimal(quality.passive_launch_records as nat)),
        ("passive_launches_seen"@, decimal(quality.passive_launches_seen as nat)),
        ("launch_records"@, decimal(quality.launch_records as nat)),
        ("launch_table_drops"@, decimal(quality.launch_table_drops as nat)),
        ("callback_data_failures"@, decimal(quality.callback_data_failures as nat)),
        ("setup_missed_launches"@, decimal(quality.setup_missed_launches as nat)),
        ("graph_node_identity"@, decimal(quality.graph_node_identity as nat)),
        ("graph_nodes_seen"@, decimal(quality.graph_nodes_seen as nat)),
        ("graph_nodes_recorded"@, decimal(quality.graph_nodes_recorded as nat)),
        ("graph_node_table_drops"@, decimal(quality.graph_node_table_drops as nat)),
    ]
}

/// What is said of a probe whose quality is refused.
pub open spec fn probe_words(quality: ProbeQuality) -> Seq<char> {
    "probe quality gate failed: "@ + record_words("ProbeQuality"@, probe_fields(quality))
}

fn probe_text(quality: &ProbeQuality) -> (r: String)
    ensures
        r@ == probe_words(*quality),
{
    let fields: Vec<(&'static str, String)> = vec![
        ("callback_data_scope_function", truth_text(quality.callback_data_scope_function)),
        ("launch_identity", decimal_text(quality.launch_identity)),
        ("attributed_launches", decimal_text(quality.attributed_launches)),
        ("passive_launch_records", decimal_text(quality.passive_launch_records)),
        ("passive_launches_seen", decimal_text(quality.passive_launches_seen)),
        ("launch_records", decimal_text(quality.launch_records)),
        ("launch_table_drops", decimal_text(quality.launch_table_drops)),
        ("callback_data_failures", decimal_text(quality.callback_data_failures)),
        ("setup_missed_launches", decimal_text(quality.setup_missed_launches)),
        ("graph_node_identity", decimal_text(quality.graph_node_identity)),
        ("graph_nodes_seen", decimal_text(quality.graph_nodes_seen)),
        ("graph_nodes_recorded", decimal_text(quality.graph_nodes_recorded)),
        ("graph_node_table_drops", decimal_text(quality.graph_node_table_drops)),
    ];
    let mut text = "probe quality gate failed: ".to_owned();
    append_record_text(&mut text, "ProbeQuality", &fields);
    assert(shown_fields(fields@) =~= probe_fields(*quality));
    text
}

/// Which gate refuses the input, if one does.
pub open spec fn gate_problem(input: GraphInput) -> Option<Seq<char>> {
    if !input.trace.complete() {
        Some("semantic packed-layout gate failed"@)
    } else if input.nodes@.len() == 0 {
        Some("graph-node trace is empty"@)
    } else if !device_whole(input.device_quality, input.events@.len()) {
        Some("device event quality gate failed"@)
    } else if !probe_whole(input.quality, input.launches@.len(), input.nodes@.len()) {
        Some(probe_words(input.quality))
    } else {
        None
    }
}

fn check_gates(input: &GraphInput) -> (r: Result<(), String>)
    ensures
        match (r, gate_problem(*input)) {
            (Ok(_), None) => true,
            (Err(error), Some(problem)) => error@ == problem,
            _ => false,
        },
{
    if !input.trace.is_complete() {
        return Err("semantic packed-layout gate failed".to_owned());
    }
    if input.nodes.len() == 0 {
        return Err("graph-node trace is empty".to_owned());
    }
    let device = input.device_quality;
    if device.headers != 1 || device.drops != 0 || device.sequence_errors != 0 || device.retained
        != input.events.len() as u64 {
        return Err("device event quality gate failed".to_owned());
    }
    let quality = input.quality;
    if !quality.callback_data_scope_function || quality.launch_identity != 0
        || quality.attributed_launches != 0 || quality.passive_launch_records != 1
        || quality.passive_launches_seen != quality.launch_records || quality.launch_records
        != input.launches.len() as u64 || quality.launch_table_drops != 0
        || quality.callback_data_failures != 0 || quality.setup_missed_launches != 0
        || quality.graph_node_identity != 1 || quality.graph_nodes_seen
        != quality.graph_nodes_recorded || quality.graph_nodes_recorded != input.nodes.len() as u64
        || quality.graph_node_table_drops != 0 {
        return Err(probe_text(&quality));
    }
    Ok(())
}

// The steps of the replays.

/// Why the replays have no timeline to be placed on.
pub open spec fn replay_timeline_words(error: TimelineError) -> Seq<char> {
    match error {
        TimelineError::MissingLayout => "step is missing packed layout"@,
        TimelineError::NotIncreasing => "packed-layout timestamps are not strictly increasing"@,
    }
}

fn replay_timeline_text(error: TimelineError) -> (r: &'static str)
    ensures
        r@ == replay_timeline_words(error),
{
    match error {
        TimelineError::MissingLayout => "step is missing packed layout",
        TimelineError::NotIncreasing => "packed-layout timestamps are not strictly increasing",
    }
}

/// The step that a replay ran in, and whether it ran into the next one.
pub open spec fn replay_place(
    nodes: Seq<GraphNode>,
    replay: Replay,
    steps: Seq<TraceStep>,
    timeline: Seq<TimelineEntry>,
) -> (Option<int>, bool) {
    step_of_stretch(
        nodes[replay.node_start as int].host_timestamp_ns,
        nodes[replay.node_start + replay.node_count - 1].host_timestamp_ns,
        steps,
        timeline,
    )
}

/// The steps that the replays ran in.
pub open spec fn places_of(
    nodes: Seq<GraphNode>,
    replays: Seq<Replay>,
    steps: Seq<TraceStep>,
    timeline: Seq<TimelineEntry>,
) -> Seq<Option<usize>> {
    Seq::new(
        replays.len(),
        |i: int|
            match replay_place(nodes, replays[i], steps, timeline).0 {
                Some(step) => Some(step as usize),
                None => None,
            },
    )
}

/// Whether one of the replays ran into the next step.
pub open spec fn some_crosses(
    nodes: Seq<GraphNode>,
    replays: Seq<Replay>,
    steps: Seq<TraceStep>,
    timeline: Seq<TimelineEntry>,
) -> bool {
    exists|i: int|
        0 <= i < replays.len() && replay_place(nodes, #[trigger] replays[i], steps, timeline).1
}

/// Whether every place is one of so many steps.
pub open spec fn places_fit(places: Seq<Option<usize>>, steps: nat) -> bool {
    forall|i: int|
        0 <= i < places.len() ==> ((#[trigger] places[i]) matches Some(step) ==> step < steps)
}

/// Whether every replay has a node, and all its nodes are there.
pub open spec fn replays_run(replays: Seq<Replay>, nodes: nat) -> bool {
    replays_fit(replays, nodes) && forall|i: int|
        0 <= i < replays.len() ==> (#[trigger] replays[i]).node_count > 0
}

fn find_places(
    nodes: &[GraphNode],
    replays: &[Replay],
    steps: &[TraceStep],
    timeline: &[TimelineEntry],
) -> (r: Option<Vec<Option<usize>>>)
    requires
        replays_run(replays@, nodes@.len()),
        timeline_fits(timeline@, steps@),
    ensures
        r is None <==> some_crosses(nodes@, replays@, steps@, timeline@),
        r matches Some(places) ==> places@ == places_of(nodes@, replays@, steps@, timeline@)
            && places_fit(places@, steps@.len()),
{
    let mut places: Vec<Option<usize>> = Vec::new();
    let mut i: usize = 0;
    while i < replays.len()
        invariant
            i <= replays.len(),
            replays_run(replays@, nodes@.len()),
            timeline_fits(timeline@, steps@),
            places@ == places_of(nodes@, replays@, steps@, timeline@).take(i as int),
            places_fit(places@, steps@.len()),
            forall|k: int|
                0 <= k < i ==> !replay_place(nodes@, #[trigger] replays@[k], steps@, timeline@).1,
        decreases replays.len() - i,
    {
        let replay = replays[i];
        assert(replays@[i as int].node_start + replays@[i as int].node_count <= nodes@.len());
        assert(replays@[i as int].node_count > 0);
        assert(nodes.len() == nodes@.len());
        let first: u64 = nodes[replay.node_start].host_timestamp_ns;
        let last: u64 = nodes[replay.node_start + (replay.node_count - 1)].host_timestamp_ns;
        let (place, crosses) = step_for_replay(first, last, steps, timeline);
        assert(replay_place(nodes@, replays@[i as int], steps@, timeline@).1 == crosses);
        if crosses {
            return None;
        }
        places.push(place);
        assert(places@ =~= places_of(nodes@, replays@, steps@, timeline@).take(i + 1));
        i += 1;
    }
    assert(places@ =~= places_of(nodes@, replays@, steps@, timeline@));
    Some(places)
}

/// How many of the first launches fell into one of the steps.
pub open spec fn launches_inside(
    launches: Seq<HostLaunch>,
    n: int,
    steps: Seq<TraceStep>,
    timeline: Seq<TimelineEntry>,
    suffix: Seq<usize>,
) -> nat
    decreases n,
{
    if n <= 0 {
        0
    } else {
        let time = launches[n - 1].host_timestamp_ns;
        launches_inside(launches, n - 1, steps, timeline, suffix) + match step_of_stretch(
            time,
            time,
            steps,
            timeline,
        ).0 {
            Some(step) if suffix.contains(step as usize) => 1nat,
            _ => 0nat,
        }
    }
}

fn count_launches(
    launches: &[HostLaunch],
    steps: &[TraceStep],
    timeline: &[TimelineEntry],
    suffix: &Vec<usize>,
) -> (r: usize)
    requires
        timeline_fits(timeline@, steps@),
    ensures
        r == launches_inside(launches@, launches@.len() as int, steps@, timeline@, suffix@),
{
    let mut count: usize = 0;
    let mut i: usize = 0;
    while i < launches.len()
        invariant
            i <= launches.len(),
            timeline_fits(timeline@, steps@),
            count == launches_inside(launches@, i as int, steps@, timeline@, suffix@),
            count <= i,
        decreases launches.len() - i,
    {
        let time: u64 = launches[i].host_timestamp_ns;
        if let Some(step) = step_for_replay(time, time, steps, timeline).0 {
            if holds_index(suffix, step) {
                count += 1;
            }
        }
        i += 1;
    }
    count
}

/// Which of the first replays ran in one of the steps.
pub open spec fn selected_of(places: Seq<Option<usize>>, n: int, suffix: Seq<usize>) -> Seq<usize>
    decreases n,
{
    if n <= 0 {
        Seq::empty()
    } else {
        let front = selected_of(places, n - 1, suffix);
        match places[n - 1] {
            Some(step) if suffix.contains(step) => front.push((n - 1) as usize),
            _ => front,
        }
    }
}

/// Whether each selected replay is there and ran in a step.
pub open spec fn selection_fits(selected: Seq<usize>, places: Seq<Option<usize>>) -> bool {
    forall|k: int|
        0 <= k < selected.len() ==> (#[trigger] selected[k]) < places.len()
            && places[selected[k] as int] is Some
}

fn select_replays(places: &Vec<Option<usize>>, suffix: &Vec<usize>) -> (r: Vec<usize>)
    ensures
        r@ == selected_of(places@, places@.len() as int, suffix@),
        selection_fits(r@, places@),
        r@.len() <= places@.len(),
{
    let mut selected: Vec<usize> = Vec::new();
    let mut i: usize = 0;
    while i < places.len()
        invariant
            i <= places.len(),
            selected@ == selected_of(places@, i as int, suffix@),
            selection_fits(selected@, places@),
            selected@.len() <= i,
        decreases places.len() - i,
    {
        if let Some(step) = places[i] {
            if holds_index(suffix, step) {
                selected.push(i);
            }
        }
        i += 1;
    }
    selected
}

/// How many of the first replays ran in the step.
pub open spec fn replays_at(places: Seq<Option<usize>>, n: int, step: usize) -> nat
    decreases n,
{
    if n <= 0 {
        0
    } else {
        replays_at(places, n - 1, step) + if places[n - 1] == Some(step) {
            1nat
        } else {
            0
        }
    }
}

/// The first replay that ran in the step.
pub open spec fn first_at(places: Seq<Option<usize>>, n: int, step: usize) -> Option<int>
    decreases n,
{
    if n <= 0 {
        None
    } else {
        match first_at(places, n - 1, step) {
            Some(i) => Some(i),
            None => if places[n - 1] == Some(step) {
                Some(n - 1)
            } else {
                None
            },
        }
    }
}

fn count_at(places: &Vec<Option<usize>>, step: usize) -> (r: (usize, Option<usize>))
    ensures
        r.0 == replays_at(places@, places@.len() as int, step),
        first_at(places@, places@.len() as int, step) == match r.1 {
            Some(i) => Some(i as int),
            None => None,
        },
        r.1 is Some <==> r.0 > 0,
        r.1 matches Some(i) ==> i < places@.len(),
{
    let mut count: usize = 0;
    let mut first: Option<usize> = None;
    let mut i: usize = 0;
    while i < places.len()
        invariant
            i <= places.len(),
            count == replays_at(places@, i as int, step),
            count <= i,
            first_at(places@, i as int, step) == match first {
                Some(k) => Some(k as int),
                None => None,
            },
            first is Some <==> count > 0,
            first matches Some(k) ==> k < places@.len(),
        decreases places.len() - i,
    {
        if let Some(place) = places[i] {
            if place == step {
                count += 1;
                if first.is_none() {
                    first = Some(i);
                }
            }
        }
        i += 1;
    }
    (count, first)
}

/// The complaint that a step has not exactly one replay.
pub open spec fn replay_complaint(step_id: u64, count: nat) -> Seq<char> {
    "eligible step "@ + decimal(step_id as nat) + " has "@ + decimal(count)
        + " graph replays, expected exactly one"@
}

/// What is wrong with the number of replays of the first steps of the suffix,
/// if anything.
pub open spec fn replay_count_fault(
    steps: Seq<TraceStep>,
    places: Seq<Option<usize>>,
    suffix: Seq<usize>,
    n: int,
) -> Option<Seq<char>>
    decreases n,
{
    if n <= 0 {
        None
    } else {
        match replay_count_fault(steps, places, suffix, n - 1) {
            Some(fault) => Some(fault),
            None => {
                let step = suffix[n - 1];
                let count = replays_at(places, places.len() as int, step);
                if count != 1 {
                    Some(replay_complaint(steps[step as int].begin.step_id, count))
                } else {
                    None
                }
            },
        }
    }
}

proof fn replay_count_fault_stays(
    steps: Seq<TraceStep>,
    places: Seq<Option<usize>>,
    suffix: Seq<usize>,
    n: int,
    m: int,
)
    requires
        0 <= n <= m,
        replay_count_fault(steps, places, suffix, n) is Some,
    ensures
        replay_count_fault(steps, places, suffix, m) == replay_count_fault(
            steps,
            places,
            suffix,
            n,
        ),
    decreases m - n,
{
    if n < m {
        replay_count_fault_stays(steps, places, suffix, n, m - 1);
    }
}

/// Whether each of the steps has its replay among the first `n`.
pub open spec fn all_replayed(places: Seq<Option<usize>>, suffix: Seq<usize>, n: int) -> bool {
    forall|k: int|
        0 <= k < n ==> replays_at(places, places.len() as int, #[trigger] suffix[k]) == 1
}

fn check_replay_counts(steps: &[TraceStep], places: &Vec<Option<usize>>, suffix: &Vec<usize>) -> (r:
    Result<(), String>)
    requires
        forall|k: int| 0 <= k < suffix@.len() ==> (#[trigger] suffix@[k]) < steps@.len(),
    ensures
        match (r, replay_count_fault(steps@, places@, suffix@, suffix@.len() as int)) {
            (Ok(_), None) => all_replayed(places@, suffix@, suffix@.len() as int),
            (Err(error), Some(fault)) => error@ == fault,
            _ => false,
        },
{
    let mut n: usize = 0;
    while n < suffix.len()
        invariant
            n <= suffix.len(),
            forall|k: int| 0 <= k < suffix@.len() ==> (#[trigger] suffix@[k]) < steps@.len(),
            replay_count_fault(steps@, places@, suffix@, n as int) is None,
            all_replayed(places@, suffix@, n as int),
        decreases suffix.len() - n,
    {
        let step: usize = suffix[n];
        assert(suffix@[n as int] < steps@.len());
        let (count, _) = count_at(places, step);
        if count != 1 {
            proof {
                replay_count_fault_stays(
                    steps@,
                    places@,
                    suffix@,
                    n + 1,
                    suffix@.len() as int,
                );
            }
            let mut text = "eligible step ".to_owned();
            append_decimal(&mut text, steps[step].begin.step_id);
            text.append(" has ");
            append_decimal(&mut text, count as u64);
            text.append(" graph replays, expected exactly one");
            return Err(text);
        }
        n += 1;
    }
    Ok(())
}

// The nodes of the selected replays.

/// The nodes of a replay, for its step.
pub open spec fn replay_jobs(nodes: Seq<GraphNode>, replay: Replay, step: usize) -> Seq<NodeJob> {
    Seq::new(
        replay.node_count as nat,
        |k: int| NodeJob { node: nodes[replay.node_start + k], step_index: step },
    )
}

/// The nodes of the first selected replays.
pub open spec fn jobs_of(
    nodes: Seq<GraphNode>,
    replays: Seq<Replay>,
    places: Seq<Option<usize>>,
    selected: Seq<usize>,
    n: int,
) -> Seq<NodeJob>
    decreases n,
{
    if n <= 0 {
        Seq::empty()
    } else {
        let i = selected[n - 1] as int;
        jobs_of(nodes, replays, places, selected, n - 1) + replay_jobs(
            nodes,
            replays[i],
            places[i]->0,
        )
    }
}

fn collect_jobs(
    trace: &SemanticTrace,
    nodes: &[GraphNode],
    replays: &[Replay],
    places: &Vec<Option<usize>>,
    selected: &Vec<usize>,
) -> (r: Vec<NodeJob>)
    requires
        replays_fit(replays@, nodes@.len()),
        replays@.len() == places@.len(),
        places_fit(places@, trace.steps@.len()),
        selection_fits(selected@, places@),
    ensures
        r@ == jobs_of(nodes@, replays@, places@, selected@, selected@.len() as int),
        jobs_fit(*trace, r@),
{
    let mut jobs: Vec<NodeJob> = Vec::new();
    let mut n: usize = 0;
    while n < selected.len()
        invariant
            n <= selected.len(),
            replays_fit(replays@, nodes@.len()),
            replays@.len() == places@.len(),
            places_fit(places@, trace.steps@.len()),
            selection_fits(selected@, places@),
            jobs@ == jobs_of(nodes@, replays@, places@, selected@, n as int),
            jobs_fit(*trace, jobs@),
        decreases selected.len() - n,
    {
        let i: usize = selected[n];
        assert(selected@[n as int] < places@.len() && places@[selected@[n as int] as int] is Some);
        let replay = replays[i];
        assert(replays@[i as int].node_start + replays@[i as int].node_count <= nodes@.len());
        assert(nodes.len() == nodes@.len());
        if let Some(step) = places[i] {
            assert(places@[i as int] == Some(step));
            let ghost before = jobs@;
            let ghost more = replay_jobs(nodes@, replay, step);
            let mut k: usize = 0;
            assert(before + more.take(0) =~= before);
            while k < replay.node_count
                invariant
                    k <= replay.node_count,
                    replay.node_start + replay.node_count <= nodes.len(),
                    step < trace.steps@.len(),
                    more == replay_jobs(nodes@, replay, step),
                    jobs@ == before + more.take(k as int),
                    jobs_fit(*trace, jobs@),
                decreases replay.node_count - k,
            {
                jobs.push(NodeJob { node: nodes[replay.node_start + k], step_index: step });
                assert(more.take(k + 1) =~= more.take(k as int).push(more[k as int]));
                assert(jobs@ =~= before + more.take(k + 1));
                k += 1;
            }
            assert(more.take(more.len() as int) =~= more);
        }
        n += 1;
    }
    jobs
}

/// How many events the first jobs have, where a machine can count them.
pub open spec fn event_total(jobs: Seq<NodeJob>, n: int) -> Result<nat, Seq<char>>
    decreases n,
{
    if n <= 0 {
        Ok(0)
    } else {
        match event_total(jobs, n - 1) {
            Err(error) => Err(error),
            Ok(total) => {
                let blocks = jobs[n - 1].node.expected_blocks as nat;
                if blocks > usize::MAX {
                    Err("graph node block count does not fit usize"@)
                } else if total + blocks > usize::MAX {
                    Err("selected event count overflow"@)
                } else {
                    Ok(total + blocks)
                }
            },
        }
    }
}

proof fn event_total_stays(jobs: Seq<NodeJob>, n: int, m: int)
    requires
        0 <= n <= m,
        event_total(jobs, n) is Err,
    ensures
        event_total(jobs, m) == event_total(jobs, n),
    decreases m - n,
{
    if n < m {
        event_total_stays(jobs, n, m - 1);
    }
}

fn total_events(jobs: &Vec<NodeJob>) -> (r: Result<usize, &'static str>)
    ensures
        match (r, event_total(jobs@, jobs@.len() as int)) {
            (Ok(total), Ok(expected)) => total == expected && total == blocks_before(
                jobs@,
                jobs@.len() as int,
            ),
            (Err(error), Err(expected)) => error@ == expected,
            _ => false,
        },
{
    let mut total: usize = 0;
    let mut n: usize = 0;
    while n < jobs.len()
        invariant
            n <= jobs.len(),
            event_total(jobs@, n as int) == Ok::<nat, Seq<char>>(total as nat),
            total == blocks_before(jobs@, n as int),
        decreases jobs.len() - n,
    {
        let blocks: u64 = jobs[n].node.expected_blocks;
        proof {
            if event_total(jobs@, n + 1) is Err {
                event_total_stays(jobs@, n + 1, jobs@.len() as int);
            }
        }
        if blocks > usize::MAX as u64 {
            return Err("graph node block count does not fit usize");
        }
        total = match total.checked_add(blocks as usize) {
            Some(total) => total,
            None => {
                return Err("selected event count overflow");
            },
        };
        n += 1;
    }
    Ok(total)
}

pub open spec fn tail_complaint(events: nat, needed: nat) -> Seq<char> {
    "device trace has "@ + decimal(events) + " events but selected graph suffix requires "@
        + decimal(needed)
}

/// Whether one of the events carries a launch.
pub open spec fn some_launched(events: Seq<DeviceEvent>) -> bool {
    exists|i: int| 0 <= i < events.len() && (#[trigger] events[i]).launch_id != 0
}

fn any_launched(events: &[DeviceEvent]) -> (r: bool)
    ensures
        r == some_launched(events@),
{
    let mut i: usize = 0;
    while i < events.len()
        invariant
            i <= events.len(),
            forall|k: int| 0 <= k < i ==> (#[trigger] events@[k]).launch_id == 0,
        decreases events.len() - i,
    {
        if events[i].launch_id != 0 {
            assert(events@[i as int].launch_id != 0);
            return true;
        }
        i += 1;
    }
    false
}

// What the replays have in common.

/// Whether one of the first selected replays is of the executable.
pub open spec fn exec_selected(
    replays: Seq<Replay>,
    selected: Seq<usize>,
    n: int,
    graph_exec: u64,
) -> bool {
    exists|k: int|
        0 <= k < n && replays[#[trigger] selected[k] as int].graph_exec == graph_exec
}

/// How many executables the first selected replays are of.
pub open spec fn distinct_execs(replays: Seq<Replay>, selected: Seq<usize>, n: int) -> nat
    decreases n,
{
    if n <= 0 {
        0
    } else {
        distinct_execs(replays, selected, n - 1) + if exec_selected(
            replays,
            selected,
            n - 1,
            replays[selected[n - 1] as int].graph_exec,
        ) {
            0nat
        } else {
            1
        }
    }
}

/// How many of the first selected replays ran in a step whose rows were
/// reordered.
pub open spec fn reordered(
    steps: Seq<TraceStep>,
    places: Seq<Option<usize>>,
    selected: Seq<usize>,
    n: int,
) -> nat
    decreases n,
{
    if n <= 0 {
        0
    } else {
        let step = places[selected[n - 1] as int]->0;
        reordered(steps, places, selected, n - 1) + if steps[step as int].scheduler_order_mismatches
            != 0 {
            1nat
        } else {
            0
        }
    }
}

fn count_selected(
    steps: &[TraceStep],
    replays: &[Replay],
    places: &Vec<Option<usize>>,
    selected: &Vec<usize>,
) -> (r: (usize, usize))
    requires
        replays@.len() == places@.len(),
        places_fit(places@, steps@.len()),
        selection_fits(selected@, places@),
    ensures
        r.0 == distinct_execs(replays@, selected@, selected@.len() as int),
        r.1 == reordered(steps@, places@, selected@, selected@.len() as int),
{
    let mut execs: Vec<u64> = Vec::new();
    let mut mixed: usize = 0;
    let mut n: usize = 0;
    while n < selected.len()
        invariant
            n <= selected.len(),
            replays@.len() == places@.len(),
            places_fit(places@, steps@.len()),
            selection_fits(selected@, places@),
            execs@.len() == distinct_execs(replays@, selected@, n as int),
            forall|exec: u64| #[trigger]
                execs@.contains(exec) <==> exec_selected(replays@, selected@, n as int, exec),
            mixed == reordered(steps@, places@, selected@, n as int),
            mixed <= n,
        decreases selected.len() - n,
    {
        let i: usize = selected[n];
        assert(selected@[n as int] < places@.len() && places@[selected@[n as int] as int] is Some);
        if let Some(step) = places[i] {
            assert(places@[i as int] == Some(step));
            if steps[step].scheduler_order_mismatches != 0 {
                mixed += 1;
            }
        }
        let exec: u64 = replays[i].graph_exec;
        let ghost before = execs@;
        if !holds_exec(&execs, exec) {
            execs.push(exec);
        }
        assert forall|x: u64| #[trigger]
            execs@.contains(x) <==> exec_selected(replays@, selected@, n + 1, x) by {
            assert(selected@[n as int] == i);
            if exec_selected(replays@, selected@, n + 1, x) {
                let k = choose|k: int|
                    0 <= k < n + 1 && replays@[#[trigger] selected@[k] as int].graph_exec == x;
                if k < n {
                    assert(exec_selected(replays@, selected@, n as int, x));
                    assert(before.contains(x));
                    let m = choose|m: int| 0 <= m < before.len() && before[m] == x;
                    assert(execs@[m] == x);
                } else {
                    assert(execs@.contains(exec)) by {
                        if before.contains(exec) {
                            let m = choose|m: int| 0 <= m < before.len() && before[m] == exec;
                            assert(execs@[m] == exec);
                        } else {
                            assert(execs@[before.len() as int] == exec);
                        }
                    }
                }
            }
            if execs@.contains(x) {
                let m = choose|m: int| 0 <= m < execs@.len() && execs@[m] == x;
                if m < before.len() {
                    assert(before[m] == x);
                    assert(before.contains(x));
                    assert(exec_selected(replays@, selected@, n as int, x));
                    let k = choose|k: int|
                        0 <= k < n && replays@[#[trigger] selected@[k] as int].graph_exec == x;
                    assert(replays@[selected@[k] as int].graph_exec == x);
                } else {
                    assert(replays@[selected@[n as int] as int].graph_exec == x);
                }
            }
        }
        n += 1;
    }
    (execs.len(), mixed)
}

fn holds_exec(list: &Vec<u64>, value: u64) -> (r: bool)
    ensures
        r == list@.contains(value),
{
    let mut i: usize = 0;
    while i < list.len()
        invariant
            i <= list.len(),
            forall|k: int| 0 <= k < i ==> #[trigger] list@[k] != value,
        decreases list.len() - i,
    {
        if list[i] == value {
            assert(list@[i as int] == value);
            return true;
        }
        i += 1;
    }
    false
}

// The report.

/// One decode step and its replay.
#[derive(Clone, Copy, Debug, PartialEq, Eq, Structural)]
pub struct GraphStepRow {
    pub step_id: u64,
    pub packing_generation: u64,
    pub scheduled: u32,
    pub decode: u32,
    pub requests: usize,
    pub graph_exec: u64,
    pub replay: u32,
    pub nodes: usize,
    pub reordered_positions: u64,
}

/// The blocks of one request in one step.
#[derive(Clone, Copy, Debug, PartialEq, Eq, Structural)]
pub struct GraphOwnerRow {
    pub request_id: u64,
    pub phase: u8,
    pub row_begin: u32,
    pub row_end: u32,
    pub blocks: u64,
    pub expected: u128,
}

/// How many of the first jobs are for the step.
pub open spec fn jobs_for(jobs: Seq<NodeJob>, n: int, step: usize) -> nat
    decreases n,
{
    if n <= 0 {
        0
    } else {
        jobs_for(jobs, n - 1, step) + if jobs[n - 1].step_index == step {
            1nat
        } else {
            0
        }
    }
}

fn count_jobs(jobs: &Vec<NodeJob>, step: usize) -> (r: usize)
    ensures
        r == jobs_for(jobs@, jobs@.len() as int, step),
{
    let mut count: usize = 0;
    let mut n: usize = 0;
    while n < jobs.len()
        invariant
            n <= jobs.len(),
            count == jobs_for(jobs@, n as int, step),
            count <= n,
        decreases jobs.len() - n,
    {
        if jobs[n].step_index == step {
            count += 1;
        }
        n += 1;
    }
    count
}

pub open spec fn step_row(step: TraceStep, replay: Replay, nodes: nat) -> GraphStepRow {
    GraphStepRow {
        step_id: step.begin.step_id,
        packing_generation: match step.packed_begin {
            Some(packed) => packed.sequence_id,
            None => 0,
        },
        scheduled: step.begin.scheduled_tokens,
        decode: step.begin.decode_tokens,
        requests: step.owner_count,
        graph_exec: replay.graph_exec,
        replay: replay.replay_id,
        nodes: nodes as usize,
        reordered_positions: step.scheduler_order_mismatches,
    }
}

pub open spec fn graph_owner_row(owner: OwnershipSlice, blocks: nat, nodes: nat) -> GraphOwnerRow {
    GraphOwnerRow {
        request_id: owner.request_id,
        phase: owner.phase,
        row_begin: owner.row_begin,
        row_end: owner.row_end,
        blocks: blocks as u64,
        expected: (owner.scheduled_tokens * nodes) as u128,
    }
}

/// The rows of the owners of a step, from the blocks that each owner got.
pub open spec fn graph_owner_rows(
    trace: SemanticTrace,
    step: TraceStep,
    owned: Seq<nat>,
    nodes: nat,
) -> Seq<GraphOwnerRow> {
    Seq::new(
        step.owner_count as nat,
        |k: int|
            graph_owner_row(
                trace.owners@[step.owner_start + k],
                owned[step.owner_start + k],
                nodes,
            ),
    )
}

/// How many of the first rows have another number of blocks than expected.
pub open spec fn block_mismatches(rows: Seq<GraphOwnerRow>, n: int) -> nat
    decreases n,
{
    if n <= 0 {
        0
    } else {
        block_mismatches(rows, n - 1) + if rows[n - 1].blocks != rows[n - 1].expected {
            1nat
        } else {
            0
        }
    }
}

/// The replay of each of the first steps of the suffix.
pub open spec fn graph_step_rows(
    steps: Seq<TraceStep>,
    replays: Seq<Replay>,
    places: Seq<Option<usize>>,
    jobs: Seq<NodeJob>,
    suffix: Seq<usize>,
) -> Seq<GraphStepRow> {
    Seq::new(
        suffix.len(),
        |k: int|
            step_row(
                steps[suffix[k] as int],
                replays[first_at(places, places.len() as int, suffix[k])->0],
                jobs_for(jobs, jobs.len() as int, suffix[k]),
            ),
    )
}

/// The owners of the first steps of the suffix.
pub open spec fn all_owner_rows(
    trace: SemanticTrace,
    owned: Seq<nat>,
    jobs: Seq<NodeJob>,
    suffix: Seq<usize>,
    n: int,
) -> Seq<GraphOwnerRow>
    decreases n,
{
    if n <= 0 {
        Seq::empty()
    } else {
        all_owner_rows(trace, owned, jobs, suffix, n - 1) + graph_owner_rows(
            trace,
            trace.steps@[suffix[n - 1] as int],
            owned,
            jobs_for(jobs, jobs.len() as int, suffix[n - 1]),
        )
    }
}

/// The blocks that each owner got.
pub open spec fn owned_blocks(
    trace: SemanticTrace,
    jobs: Seq<NodeJob>,
    tail: Seq<DeviceEvent>,
) -> Seq<nat> {
    Seq::new(
        trace.owners@.len(),
        |k: int| blocks_owned(trace, jobs, tail, jobs.len() as int, k),
    )
}

fn add_owners(
    rows: &mut Vec<GraphOwnerRow>,
    trace: &SemanticTrace,
    step: &TraceStep,
    blocks: &Vec<u64>,
    nodes: usize,
    Ghost(owned): Ghost<Seq<nat>>,
)
    requires
        step.owner_start + step.owner_count <= trace.owners@.len(),
        blocks@.len() == trace.owners@.len(),
        owned.len() == trace.owners@.len(),
        forall|k: int| 0 <= k < blocks@.len() ==> (#[trigger] blocks@[k]) == owned[k],
    ensures
        final(rows)@ == old(rows)@ + graph_owner_rows(*trace, *step, owned, nodes as nat),
{
    let ghost all = graph_owner_rows(*trace, *step, owned, nodes as nat);
    assert(trace.owners.len() == trace.owners@.len());
    let mut k: usize = 0;
    assert(rows@ + all.take(0) =~= rows@);
    while k < step.owner_count
        invariant
            k <= step.owner_count,
            step.owner_start + step.owner_count <= trace.owners.len(),
            blocks@.len() == trace.owners@.len(),
            owned.len() == trace.owners@.len(),
            forall|k: int| 0 <= k < blocks@.len() ==> (#[trigger] blocks@[k]) == owned[k],
            all == graph_owner_rows(*trace, *step, owned, nodes as nat),
            rows@ == old(rows)@ + all.take(k as int),
        decreases step.owner_count - k,
    {
        let place: usize = step.owner_start + k;
        let owner = trace.owners[place];
        let count: u64 = blocks[place];
        proof {
            assert(owner.scheduled_tokens * nodes <= u32::MAX * u64::MAX) by (nonlinear_arith)
                requires
                    0 <= owner.scheduled_tokens <= u32::MAX,
                    0 <= nodes <= u64::MAX,
            ;
            assert(blocks@[place as int] == owned[place as int]);
        }
        rows.push(
            GraphOwnerRow {
                request_id: owner.request_id,
                phase: owner.phase,
                row_begin: owner.row_begin,
                row_end: owner.row_end,
                blocks: count,
                expected: owner.scheduled_tokens as u128 * nodes as u128,
            },
        );
        assert(all.take(k + 1) =~= all.take(k as int).push(all[k as int]));
        assert(rows@ =~= old(rows)@ + all.take(k + 1));
        k += 1;
    }
    assert(all.take(all.len() as int) =~= all);
}

fn count_mismatches(rows: &Vec<GraphOwnerRow>) -> (r: usize)
    ensures
        r == block_mismatches(rows@, rows@.len() as int),
{
    let mut count: usize = 0;
    let mut n: usize = 0;
    while n < rows.len()
        invariant
            n <= rows.len(),
            count == block_mismatches(rows@, n as int),
            count <= n,
        decreases rows.len() - n,
    {
        if rows[n].blocks as u128 != rows[n].expected {
            count += 1;
        }
        n += 1;
    }
    count
}

/// What a graph join found.
pub struct GraphJoinReport {
    pub steps: Vec<GraphStepRow>,
    pub owners: Vec<GraphOwnerRow>,
    pub graph_replays: usize,
    pub ignored_replays: usize,
    pub eligible_steps: usize,
    pub selected_replays: usize,
    pub distinct_graph_execs: usize,
    pub selected_reordered_steps: usize,
    pub device_start: usize,
    pub selected_events: usize,
    pub padding_blocks: u64,
    pub request_count_mismatches: usize,
}

/// What the stages of the join come to.
pub struct GraphStages {
    pub replays: Seq<Replay>,
    pub timeline: Seq<TimelineEntry>,
    pub suffix: Seq<usize>,
    pub places: Seq<Option<usize>>,
    pub selected: Seq<usize>,
    pub jobs: Seq<NodeJob>,
    pub total: int,
    pub tail: Seq<DeviceEvent>,
}

pub open spec fn graph_stages(input: GraphInput, expected_nodes: usize) -> GraphStages {
    let steps = input.trace.steps@;
    let replays = replays_from(input.nodes@, expected_nodes, 0, Seq::empty())->Ok_0;
    let timeline = timeline_of(steps)->Ok_0;
    let suffix = suffix_of(steps)->Ok_0;
    let places = places_of(input.nodes@, replays, steps, timeline);
    let selected = selected_of(places, places.len() as int, suffix);
    let jobs = jobs_of(input.nodes@, replays, places, selected, selected.len() as int);
    let total = event_total(jobs, jobs.len() as int)->Ok_0 as int;
    GraphStages {
        replays,
        timeline,
        suffix,
        places,
        selected,
        jobs,
        total,
        tail: input.events@.skip(input.events@.len() - total),
    }
}

pub open spec fn launch_complaint(count: nat) -> Seq<char> {
    "decode suffix contains "@ + decimal(count) + " ordinary target launches"@
}

/// Why the device tail cannot be attributed, if it cannot.
pub open spec fn tail_failure(input: GraphInput, stages: GraphStages) -> Option<Seq<char>> {
    match event_total(stages.jobs, stages.jobs.len() as int) {
        Err(error) => Some(error),
        Ok(total) => if total == 0 || input.events@.len() < total {
            Some(tail_complaint(input.events@.len(), total))
        } else if some_launched(stages.tail) {
            Some("function-scope graph events must carry launch_id=0"@)
        } else {
            jobs_fault(*input.trace, stages.jobs, stages.tail, stages.jobs.len() as int)
        },
    }
}

/// Why the replays cannot be placed in the decode steps, if they cannot.
pub open spec fn placing_failure(input: GraphInput, stages: GraphStages) -> Option<Seq<char>> {
    let steps = input.trace.steps@;
    if some_crosses(input.nodes@, stages.replays, steps, stages.timeline) {
        Some("a graph replay crossed two packed-layout windows"@)
    } else if suffix_of(steps) is Err {
        Some(suffix_of(steps)->Err_0)
    } else {
        let launched = launches_inside(
            input.launches@,
            input.launches@.len() as int,
            steps,
            stages.timeline,
            stages.suffix,
        );
        if launched != 0 {
            Some(launch_complaint(launched))
        } else {
            match replay_count_fault(
                steps,
                stages.places,
                stages.suffix,
                stages.suffix.len() as int,
            ) {
                Some(fault) => Some(fault),
                None => tail_failure(input, stages),
            }
        }
    }
}

/// Why the join fails, if it does.
pub open spec fn graph_failure(input: GraphInput, expected_nodes: usize) -> Option<Seq<char>> {
    match gate_problem(input) {
        Some(problem) => Some(problem),
        None => match replays_from(input.nodes@, expected_nodes, 0, Seq::empty()) {
            Err(error) => Some(error),
            Ok(replays) => match topology_problem(input.nodes@, replays) {
                Some(problem) => Some(problem),
                None => match timeline_of(input.trace.steps@) {
                    Err(error) => Some(replay_timeline_words(error)),
                    Ok(_) => placing_failure(input, graph_stages(input, expected_nodes)),
                },
            },
        },
    }
}

pub open spec fn graph_report_is(
    report: GraphJoinReport,
    input: GraphInput,
    stages: GraphStages,
) -> bool {
    let trace = *input.trace;
    let owners = all_owner_rows(
        trace,
        owned_blocks(trace, stages.jobs, stages.tail),
        stages.jobs,
        stages.suffix,
        stages.suffix.len() as int,
    );
    &&& report.steps@ == graph_step_rows(
        trace.steps@,
        stages.replays,
        stages.places,
        stages.jobs,
        stages.suffix,
    )
    &&& report.owners@ == owners
    &&& report.graph_replays == stages.replays.len()
    &&& report.ignored_replays == stages.replays.len() - stages.selected.len()
    &&& report.eligible_steps == stages.suffix.len()
    &&& report.selected_replays == stages.selected.len()
    &&& report.distinct_graph_execs == distinct_execs(
        stages.replays,
        stages.selected,
        stages.selected.len() as int,
    )
    &&& report.selected_reordered_steps == reordered(
        trace.steps@,
        stages.places,
        stages.selected,
        stages.selected.len() as int,
    )
    &&& report.device_start == input.events@.len() - stages.total
    &&& report.selected_events == stages.total
    &&& report.padding_blocks == blocks_padded(
        trace,
        stages.jobs,
        stages.tail,
        stages.jobs.len() as int,
    )
    &&& report.request_count_mismatches == block_mismatches(owners, owners.len() as int)
}

fn build_rows(
    trace: &SemanticTrace,
    replays: &[Replay],
    places: &Vec<Option<usize>>,
    jobs: &Vec<NodeJob>,
    suffix: &Vec<usize>,
    blocks: &Vec<u64>,
    Ghost(owned): Ghost<Seq<nat>>,
) -> (r: (Vec<GraphStepRow>, Vec<GraphOwnerRow>))
    requires
        trace.wf(),
        replays@.len() == places@.len(),
        forall|k: int| 0 <= k < suffix@.len() ==> (#[trigger] suffix@[k]) < trace.steps@.len(),
        all_replayed(places@, suffix@, suffix@.len() as int),
        blocks@.len() == trace.owners@.len(),
        owned.len() == trace.owners@.len(),
        forall|k: int| 0 <= k < blocks@.len() ==> (#[trigger] blocks@[k]) == owned[k],
    ensures
        r.0@ == graph_step_rows(trace.steps@, replays@, places@, jobs@, suffix@),
        r.1@ == all_owner_rows(*trace, owned, jobs@, suffix@, suffix@.len() as int),
{
    let ghost all = graph_step_rows(trace.steps@, replays@, places@, jobs@, suffix@);
    let mut steps: Vec<GraphStepRow> = Vec::new();
    let mut owners: Vec<GraphOwnerRow> = Vec::new();
    let mut n: usize = 0;
    while n < suffix.len()
        invariant
            n <= suffix.len(),
            trace.wf(),
            replays@.len() == places@.len(),
            forall|k: int| 0 <= k < suffix@.len() ==> (#[trigger] suffix@[k]) < trace.steps@.len(),
            all_replayed(places@, suffix@, suffix@.len() as int),
            blocks@.len() == trace.owners@.len(),
            owned.len() == trace.owners@.len(),
            forall|k: int| 0 <= k < blocks@.len() ==> (#[trigger] blocks@[k]) == owned[k],
            all == graph_step_rows(trace.steps@, replays@, places@, jobs@, suffix@),
            steps@ == all.take(n as int),
            owners@ == all_owner_rows(*trace, owned, jobs@, suffix@, n as int),
        decreases suffix.len() - n,
    {
        let index: usize = suffix[n];
        assert(suffix@[n as int] < trace.steps@.len());
        assert(replays_at(places@, places@.len() as int, suffix@[n as int]) == 1);
        let step = trace.steps[index];
        assert(trace.steps@[index as int].owner_start + trace.steps@[index as int].owner_count
            <= trace.owners@.len());
        let nodes: usize = count_jobs(jobs, index);
        if let Some(i) = count_at(places, index).1 {
            let replay = replays[i];
            let generation: u64 = match step.packed_begin {
                Some(packed) => packed.sequence_id,
                None => 0,
            };
            steps.push(
                GraphStepRow {
                    step_id: step.begin.step_id,
                    packing_generation: generation,
                    scheduled: step.begin.scheduled_tokens,
                    decode: step.begin.decode_tokens,
                    requests: step.owner_count,
                    graph_exec: replay.graph_exec,
                    replay: replay.replay_id,
                    nodes,
                    reordered_positions: step.scheduler_order_mismatches,
                },
            );
        }
        assert(steps@ =~= all.take(n + 1));
        add_owners(&mut owners, trace, &step, blocks, nodes, Ghost(owned));
        n += 1;
    }
    assert(steps@ =~= all);
    (steps, owners)
}

/// Joins graph replays and the device tail with the decode steps of a trace.
#[verifier::rlimit(30)]
pub fn join_graph(input: &GraphInput, expected_nodes: usize) -> (r: Result<GraphJoinReport, String>)
    requires
        input.trace.wf(),
    ensures
        match (r, graph_failure(*input, expected_nodes)) {
            (Ok(report), None) => graph_report_is(
                report,
                *input,
                graph_stages(*input, expected_nodes),
            ),
            (Err(error), Some(failure)) => error@ == failure,
            _ => false,
        },
{
    let ghost stages = graph_stages(*input, expected_nodes);
    let trace = input.trace;
    let steps = trace.steps.as_slice();
    check_gates(input)?;
    let replays = group_replays(input.nodes, expected_nodes)?;
    proof {
        assert(input.nodes.len() == input.nodes@.len());
        replays_are_runs(input.nodes@, expected_nodes);
    }
    if let Err(error) = validate_topologies(input.nodes, replays.as_slice()) {
        return Err(error.to_owned());
    }
    let timeline = match packed_timeline(steps) {
        Ok(timeline) => timeline,
        Err(error) => {
            return Err(replay_timeline_text(error).to_owned());
        },
    };
    let places = match find_places(input.nodes, replays.as_slice(), steps, timeline.as_slice()) {
        Some(places) => places,
        None => {
            return Err("a graph replay crossed two packed-layout windows".to_owned());
        },
    };
    let suffix = match decode_suffix(steps) {
        Ok(suffix) => suffix,
        Err(error) => {
            return Err(error.to_owned());
        },
    };
    let launched: usize = count_launches(input.launches, steps, timeline.as_slice(), &suffix);
    if launched != 0 {
        let mut text = "decode suffix contains ".to_owned();
        append_decimal(&mut text, launched as u64);
        text.append(" ordinary target launches");
        return Err(text);
    }
    let selected = select_replays(&places, &suffix);
    check_replay_counts(steps, &places, &suffix)?;
    let jobs = collect_jobs(trace, input.nodes, replays.as_slice(), &places, &selected);
    assert(jobs@ == stages.jobs);
    let total: usize = match total_events(&jobs) {
        Ok(total) => total,
        Err(error) => {
            return Err(error.to_owned());
        },
    };
    if total == 0 || input.events.len() < total {
        let mut text = "device trace has ".to_owned();
        append_decimal(&mut text, input.events.len() as u64);
        text.append(" events but selected graph suffix requires ");
        append_decimal(&mut text, total as u64);
        return Err(text);
    }
    let device_start: usize = input.events.len() - total;
    let tail = slice_subrange(input.events, device_start, input.events.len());
    assert(tail@ =~= stages.tail);
    if any_launched(tail) {
        return Err("function-scope graph events must carry launch_id=0".to_owned());
    }
    let tally = match tally_jobs(trace, jobs.as_slice(), tail) {
        Ok(tally) => tally,
        Err(error) => {
            return Err(error.to_owned());
        },
    };
    let (distinct, mixed) = count_selected(steps, replays.as_slice(), &places, &selected);
    let ghost owned = owned_blocks(*trace, jobs@, tail@);
    let (step_rows, owner_rows) = build_rows(
        trace,
        replays.as_slice(),
        &places,
        &jobs,
        &suffix,
        &tally.owned,
        Ghost(owned),
    );
    let mismatches: usize = count_mismatches(&owner_rows);
    Ok(
        GraphJoinReport {
            steps: step_rows,
            owners: owner_rows,
            graph_replays: replays.len(),
            ignored_replays: replays.len() - selected.len(),
            eligible_steps: suffix.len(),
            selected_replays: selected.len(),
            distinct_graph_execs: distinct,
            selected_reordered_steps: mixed,
            device_start,
            selected_events: total,
            padding_blocks: tally.padding,
            request_count_mismatches: mismatches,
        },
    )
}

/// The replays that are found have nodes, and all their nodes are there.
proof fn replays_are_runs(nodes: Seq<GraphNode>, expected: usize)
    requires
        nodes.len() <= usize::MAX,
        replays_from(nodes, expected, 0, Seq::empty()) is Ok,
        nodes.len() > 0,
    ensures
        replays_run(replays_from(nodes, expected, 0, Seq::empty())->Ok_0, nodes.len()),
{
    let replays = replays_from(nodes, expected, 0, Seq::empty())->Ok_0;
    assert forall|i: int| 0 <= i < replays.len() implies (#[trigger] replays[i]).node_start
        + replays[i].node_count <= nodes.len() && replays[i].node_count > 0 by {
        replays_cover_nodes(nodes, expected, i);
        let n = replays.len() as int;
        let e = expected as int;
        assert(i * e + e <= n * e) by (nonlinear_arith)
            requires
                0 <= i < n,
                0 <= e,
        ;
        assert(e > 0) by (nonlinear_arith)
            requires
                n * e > 0,
                n >= 0,
        ;
    }
}

// The verdict.

/// Why the report does not pass, if it does not.
pub open spec fn graph_verdict(report: GraphJoinReport, require_reordering: bool) -> Option<
    Seq<char>,
> {
    if report.request_count_mismatches != 0 {
        Some("per-request block-count gate failed"@)
    } else if require_reordering && report.selected_reordered_steps == 0 {
        Some("decode suffix did not exercise packed-row reordering"@)
    } else {
        None
    }
}

impl GraphJoinReport {
    /// Whether the report passes.
    pub fn verdict(&self, require_reordering: bool) -> (r: Result<(), &'static str>)
        ensures
            match (r, graph_verdict(*self, require_reordering)) {
                (Ok(_), None) => true,
                (Err(error), Some(failure)) => error@ == failure,
                _ => false,
            },
    {
        if self.request_count_mismatches != 0 {
            return Err("per-request block-count gate failed");
        }
        if require_reordering && self.selected_reordered_steps == 0 {
            return Err("decode suffix did not exercise packed-row reordering");
        }
        Ok(())
    }
}

} // verus!
