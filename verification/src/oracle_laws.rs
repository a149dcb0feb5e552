//! What a comparison with the packing oracle means, in terms of the steps and of
//! the observations.

use crate::oracle::{
    assigned_count, belongs, confirmed, contradiction_count, contradictions, counts_of,
    duplicate_count, first_stray, incomplete_count, missing_count, mixed_count, observation_at,
    observations_from, observed, oracle_rows_before, predicted_row, shorter, slice_differs,
    slices_differing, step_at, verdict_of, ObservationModel, OracleSlice, StepModel, Verdict,
    ORACLE_COMPLETE_FLAGS,
};
use crate::semantic::SemanticWireRecord;
use crate::sums::{count_of, counts_fit, sum_of};
use vstd::prelude::*;

verus! {

// Steps.

/// Whether the step runs at the moment, and none before it does.
pub open spec fn runs_first(steps: Seq<StepModel>, i: int, moment: u64) -> bool {
    &&& 0 <= i < steps.len()
    &&& steps[i].begin.timestamp_ns <= moment <= steps[i].end_timestamp_ns
    &&& forall|j: int|
        0 <= j < i ==> !((#[trigger] steps[j]).begin.timestamp_ns <= moment
            <= steps[j].end_timestamp_ns)
}

/// Whether some step runs at the moment.
pub open spec fn some_runs(steps: Seq<StepModel>, moment: u64) -> bool {
    exists|i: int|
        0 <= i < steps.len() && (#[trigger] steps[i]).begin.timestamp_ns <= moment
            <= steps[i].end_timestamp_ns
}

/// An observation is of the first step that runs at its moment, and of none only
/// where none runs.
pub proof fn moment_is_of_the_first_running(moment: u64, steps: Seq<StepModel>)
    ensures
        step_at(moment, steps) matches Some(i) ==> runs_first(steps, i, moment),
        step_at(moment, steps) is Some <==> some_runs(steps, moment),
    decreases steps.len(),
{
    if steps.len() > 0 {
        let front = steps.drop_last();
        moment_is_of_the_first_running(moment, front);
        let end = steps.len() - 1;
        assert(steps[end] == steps.last());
        assert forall|j: int| 0 <= j < front.len() implies #[trigger] steps[j] == front[j] by {}
        if some_runs(front, moment) {
            let i = choose|i: int|
                0 <= i < front.len() && (#[trigger] front[i]).begin.timestamp_ns <= moment
                    <= front[i].end_timestamp_ns;
            assert(steps[i].begin.timestamp_ns <= moment <= steps[i].end_timestamp_ns);
        } else {
            assert forall|j: int| 0 <= j < end implies !((#[trigger] steps[j]).begin.timestamp_ns
                <= moment <= steps[j].end_timestamp_ns) by {
                assert(front[j] == steps[j]);
            }
        }
    }
}

// Observations.

proof fn accepted_slice(s: Seq<u8>, cursor: int, count: nat, k: int)
    requires
        0 <= k < count,
        first_stray(s, cursor, count) is None,
    ensures
        belongs(s, cursor, k),
    decreases count,
{
    if k < count - 1 {
        accepted_slice(s, cursor, (count - 1) as nat, k);
    }
}

/// Whether the slices lie row by row behind one another, from the first row to
/// the last, none of them empty.
pub open spec fn tile_the_rows(slices: Seq<OracleSlice>, total: u32) -> bool {
    &&& slices.len() > 0
    &&& slices[0].row_begin == 0
    &&& slices.last().row_end == total
    &&& forall|k: int|
        0 <= k < slices.len() ==> (#[trigger] slices[k]).row_begin < slices[k].row_end
            && slices[k].row_end - slices[k].row_begin == slices[k].scheduled_tokens
            && slices[k].packed_index == k
    &&& forall|k: int, m: int|
        0 <= k && m == k + 1 && m < slices.len() ==> (#[trigger] slices[m]).row_begin == (
        #[trigger] slices[k]).row_end
}

/// The slices of every accepted observation tile the rows of the step, and there
/// are as many as it tells.
pub proof fn observations_tile_the_rows(
    s: Seq<u8>,
    cursor: nat,
    count: nat,
    os: Seq<ObservationModel>,
    i: int,
)
    requires
        observations_from(s, cursor, count) == Ok::<Seq<ObservationModel>, Seq<char>>(os),
        0 <= i < os.len(),
    ensures
        os[i].slices.len() == os[i].request_count,
        tile_the_rows(os[i].slices, os[i].total_tokens),
    decreases count - cursor,
{
    let first = observation_at(s, cursor as int);
    let n = first.request_count as nat;
    let next = cursor + 1 + n;
    let rest = observations_from(s, next, count)->Ok_0;
    assert(os == seq![first] + rest);
    if i == 0 {
        let slices = first.slices;
        assert forall|k: int| 0 <= k < slices.len() implies (#[trigger] slices[k]).row_begin
            < slices[k].row_end && slices[k].row_end - slices[k].row_begin
            == slices[k].scheduled_tokens && slices[k].packed_index == k && slices[k].row_begin
            == oracle_rows_before(s, cursor as int, k) by {
            accepted_slice(s, cursor as int, n, k);
        }
        assert forall|k: int, m: int| 0 <= k && m == k + 1 && m < slices.len() implies (
        #[trigger] slices[m]).row_begin == (#[trigger] slices[k]).row_end by {
            assert(slices[m].row_begin == oracle_rows_before(s, cursor as int, m));
        }
        assert(slices[n - 1].row_end == first.total_tokens);
    } else {
        observations_tile_the_rows(s, next, count, rest, i - 1);
    }
}

// Contradictions.

/// How many tokens the first slices have.
pub open spec fn tokens_before(slices: Seq<SemanticWireRecord>, n: int) -> int {
    sum_of(slices.take(n), |r: SemanticWireRecord| r.scheduled_tokens as int)
}

proof fn prediction_is_the_sum(slices: Seq<SemanticWireRecord>, n: int)
    requires
        0 <= n <= slices.len(),
    ensures
        0 <= tokens_before(slices, n),
        tokens_before(slices, n) <= u32::MAX ==> predicted_row(slices, n) == tokens_before(
            slices,
            n,
        ),
    decreases n,
{
    if n > 0 {
        prediction_is_the_sum(slices, n - 1);
        assert(slices.take(n).drop_last() =~= slices.take(n - 1));
        assert(slices.take(n).last() == slices[n - 1]);
    }
}

proof fn tokens_only_grow(slices: Seq<SemanticWireRecord>, n: int, m: int)
    requires
        0 <= n <= m <= slices.len(),
    ensures
        tokens_before(slices, n) <= tokens_before(slices, m),
    decreases m - n,
{
    if n < m {
        tokens_only_grow(slices, n, m - 1);
        assert(slices.take(m).drop_last() =~= slices.take(m - 1));
        assert(slices.take(m).last() == slices[m - 1]);
    }
}

/// Whether the observed slice is of the step's request at the place, with its
/// tokens, on the rows behind those of the slices before.
pub open spec fn stands_in_place(step: StepModel, o: ObservationModel, k: int) -> bool {
    &&& o.slices[k].request_id == step.slices[k].request_id
    &&& o.slices[k].scheduled_tokens == step.slices[k].scheduled_tokens
    &&& o.slices[k].row_begin == tokens_before(step.slices, k)
    &&& o.slices[k].row_end == tokens_before(step.slices, k) + step.slices[k].scheduled_tokens
    &&& o.slices[k].packed_index == k
}

/// How many of the first slices do not stand in their place.
pub open spec fn out_of_place(step: StepModel, o: ObservationModel, n: int) -> int
    decreases n,
{
    if n <= 0 {
        0
    } else {
        out_of_place(step, o, n - 1) + if stands_in_place(step, o, n - 1) {
            0int
        } else {
            1
        }
    }
}

proof fn differing_is_out_of_place(step: StepModel, o: ObservationModel, n: int)
    requires
        0 <= n <= step.slices.len(),
        tokens_before(step.slices, step.slices.len() as int) <= u32::MAX,
    ensures
        slices_differing(step, o, n) == out_of_place(step, o, n),
    decreases n,
{
    if n > 0 {
        let k = n - 1;
        differing_is_out_of_place(step, o, k);
        prediction_is_the_sum(step.slices, k);
        prediction_is_the_sum(step.slices, n);
        tokens_only_grow(step.slices, k, step.slices.len() as int);
        tokens_only_grow(step.slices, n, step.slices.len() as int);
        assert(step.slices.take(n).drop_last() =~= step.slices.take(k));
        assert(step.slices.take(n).last() == step.slices[k]);
        assert(slice_differs(step, o, k) == !stands_in_place(step, o, k));
    }
}

/// An observation contradicts its step once for each slice that both have and that
/// does not stand in its place, and once more where the numbers of slices or of
/// tokens differ. It is matched where it contradicts nothing and is complete.
pub proof fn verdict_counts_the_contradictions(
    o: ObservationModel,
    steps: Seq<StepModel>,
    verdict: Verdict,
)
    requires
        steps.len() <= usize::MAX,
        verdict_of(o, steps) == Some(verdict),
        tokens_before(
            steps[verdict.step_index as int].slices,
            steps[verdict.step_index as int].slices.len() as int,
        ) <= u32::MAX,
        steps[verdict.step_index as int].slices.len() < u64::MAX,
    ensures
        runs_first(steps, verdict.step_index as int, o.timestamp_ns),
        ({
            let step = steps[verdict.step_index as int];
            let both = if step.slices.len() <= o.slices.len() {
                step.slices.len()
            } else {
                o.slices.len()
            };
            let sized = o.slices.len() == step.slices.len() && o.request_count == step.slices.len()
                && o.total_tokens == step.begin.scheduled_tokens;
            &&& verdict.mismatches == out_of_place(step, o, both as int) + if sized {
                0int
            } else {
                1
            }
            &&& verdict.matched ==> verdict.mismatches == 0 && o.flags == ORACLE_COMPLETE_FLAGS
            &&& verdict.mismatches == 0 && o.flags == ORACLE_COMPLETE_FLAGS ==> verdict.matched
        }),
{
    moment_is_of_the_first_running(o.timestamp_ns, steps);
    let step = steps[verdict.step_index as int];
    let both = shorter(step.slices.len(), o.slices.len()) as int;
    differing_is_out_of_place(step, o, both);
    few_are_out_of_place(step, o, both);
}

proof fn few_are_out_of_place(step: StepModel, o: ObservationModel, n: int)
    requires
        0 <= n,
    ensures
        0 <= out_of_place(step, o, n) <= n,
    decreases n,
{
    if n > 0 {
        few_are_out_of_place(step, o, n - 1);
    }
}

// Counts.

proof fn observations_are_counted(os: Seq<ObservationModel>, steps: Seq<StepModel>)
    ensures
        assigned_count(os, steps) == count_of(
            os,
            |o: ObservationModel| some_runs(steps, o.timestamp_ns),
        ),
        incomplete_count(os, steps) == count_of(
            os,
            |o: ObservationModel|
                some_runs(steps, o.timestamp_ns) && o.flags != ORACLE_COMPLETE_FLAGS,
        ),
        contradiction_count(os, steps) == sum_of(
            os,
            |o: ObservationModel|
                match step_at(o.timestamp_ns, steps) {
                    Some(i) => contradictions(steps[i], o) as int,
                    None => 0,
                },
        ),
        mixed_count(os, steps) == count_of(
            os,
            |o: ObservationModel|
                step_at(o.timestamp_ns, steps) matches Some(i) && steps[i].slices.len() > 1,
        ),
    decreases os.len(),
{
    if os.len() > 0 {
        observations_are_counted(os.drop_last(), steps);
        moment_is_of_the_first_running(os.last().timestamp_ns, steps);
    }
}

/// Every observation is counted as assigned where a step runs at its moment, and
/// as unassigned where none does. Of the assigned, those that are not complete are
/// failures of their flags.
pub proof fn observations_are_assigned_to_running_steps(
    os: Seq<ObservationModel>,
    steps: Seq<StepModel>,
)
    requires
        os.len() <= u64::MAX,
    ensures
        counts_of(os, steps).assigned == count_of(
            os,
            |o: ObservationModel| some_runs(steps, o.timestamp_ns),
        ),
        counts_of(os, steps).assigned + counts_of(os, steps).unassigned == os.len(),
        counts_of(os, steps).flag_failures == count_of(
            os,
            |o: ObservationModel|
                some_runs(steps, o.timestamp_ns) && o.flags != ORACLE_COMPLETE_FLAGS,
        ),
        counts_of(os, steps).mixed_steps == count_of(
            os,
            |o: ObservationModel|
                step_at(o.timestamp_ns, steps) matches Some(i) && steps[i].slices.len() > 1,
        ),
{
    observations_are_counted(os, steps);
    counts_fit(os, |o: ObservationModel| some_runs(steps, o.timestamp_ns));
    counts_fit(
        os,
        |o: ObservationModel|
            some_runs(steps, o.timestamp_ns) && o.flags != ORACLE_COMPLETE_FLAGS,
    );
    counts_fit(
        os,
        |o: ObservationModel|
            step_at(o.timestamp_ns, steps) matches Some(i) && steps[i].slices.len() > 1,
    );
}

proof fn none_is_missing(os: Seq<ObservationModel>, steps: Seq<StepModel>, n: int, i: int)
    requires
        0 <= i < n,
        missing_count(os, steps, n) == 0,
    ensures
        observed(os, steps, i),
    decreases n,
{
    if i < n - 1 {
        none_is_missing(os, steps, n - 1, i);
    }
}

proof fn no_duplicate(os: Seq<ObservationModel>, steps: Seq<StepModel>, j: int, k: int)
    requires
        duplicate_count(os, steps) == 0,
        0 <= j < k < os.len(),
        step_at(os[j].timestamp_ns, steps) is Some,
    ensures
        step_at(os[j].timestamp_ns, steps) != step_at(os[k].timestamp_ns, steps),
    decreases os.len(),
{
    let front = os.drop_last();
    if k < os.len() - 1 {
        assert(front[j] == os[j] && front[k] == os[k]);
        no_duplicate(front, steps, j, k);
    } else if step_at(os[j].timestamp_ns, steps) == step_at(os[k].timestamp_ns, steps) {
        let i = step_at(os[j].timestamp_ns, steps)->0;
        assert(front[j] == os[j]);
        assert(step_at(front[j].timestamp_ns, steps) == Some(i));
        assert(observed(front, steps, i));
        assert(os[k] == os.last());
    }
}

/// Where the oracle confirms the prediction, each step is observed at a moment at
/// which it is the first that runs, no two observations are of one step, and every
/// observation that is of a step is complete.
pub proof fn confirmed_steps_are_observed_once(
    os: Seq<ObservationModel>,
    steps: Seq<StepModel>,
    semantic_loss: u64,
)
    requires
        confirmed(os, steps, semantic_loss),
    ensures
        semantic_loss == 0,
        forall|i: int| 0 <= i < steps.len() ==> is_observed(os, #[trigger] steps[i], steps, i),
        forall|j: int, k: int|
            0 <= j < k < os.len() && some_runs(steps, (#[trigger] os[j]).timestamp_ns)
                ==> step_at(os[j].timestamp_ns, steps) != step_at(
                (#[trigger] os[k]).timestamp_ns,
                steps,
            ),
        forall|j: int|
            0 <= j < os.len() && some_runs(steps, (#[trigger] os[j]).timestamp_ns) ==> os[j].flags
                == ORACLE_COMPLETE_FLAGS,
{
    assert forall|i: int| 0 <= i < steps.len() implies is_observed(
        os,
        #[trigger] steps[i],
        steps,
        i,
    ) by {
        none_is_missing(os, steps, steps.len() as int, i);
        let j = choose|j: int|
            0 <= j < os.len() && step_at((#[trigger] os[j]).timestamp_ns, steps) == Some(i);
        moment_is_of_the_first_running(os[j].timestamp_ns, steps);
        assert(runs_first(steps, i, os[j].timestamp_ns));
    }
    assert forall|j: int, k: int|
        0 <= j < k < os.len() && some_runs(steps, (#[trigger] os[j]).timestamp_ns) implies step_at(
        os[j].timestamp_ns,
        steps,
    ) != step_at((#[trigger] os[k]).timestamp_ns, steps) by {
        moment_is_of_the_first_running(os[j].timestamp_ns, steps);
        no_duplicate(os, steps, j, k);
    }
    observations_are_counted(os, steps);
    crate::sums::none_is_counted(
        os,
        |o: ObservationModel|
            some_runs(steps, o.timestamp_ns) && o.flags != ORACLE_COMPLETE_FLAGS,
    );
}

/// Whether one of the observations falls to the step.
pub open spec fn is_observed(
    os: Seq<ObservationModel>,
    step: StepModel,
    steps: Seq<StepModel>,
    i: int,
) -> bool {
    exists|j: int|
        0 <= j < os.len() && runs_first(steps, i, (#[trigger] os[j]).timestamp_ns)
            && step.begin.timestamp_ns <= os[j].timestamp_ns <= step.end_timestamp_ns
}

} // verus!
