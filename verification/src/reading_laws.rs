//! What the steps that are read from a semantic trace hold, in terms of the
//! records of the trace.

use crate::host_join::{host_reading, host_steps_after};
use crate::oracle::{read_records, slice_tokens, steps_after, Reading, StepModel};
use crate::semantic::{RecordError, SemanticRecordFlags, SemanticRecordKind, SemanticWireRecord};
use crate::sums::{count_of, sum_of};
use vstd::prelude::*;

verus! {

/// Whether the record is one of the trace.
pub open spec fn is_record(rs: Seq<SemanticWireRecord>, r: SemanticWireRecord) -> bool {
    exists|i: int| 0 <= i < rs.len() && #[trigger] rs[i] == r
}

/// Whether the record is of the trace, tells that the step ended well, and when.
pub open spec fn ends_the_step(
    rs: Seq<SemanticWireRecord>,
    i: int,
    step_id: u64,
    moment: u64,
) -> bool {
    &&& 0 <= i < rs.len()
    &&& rs[i].kind == SemanticRecordKind::EngineStepEnd
    &&& rs[i].step_id == step_id
    &&& rs[i].status == 0
    &&& rs[i].timestamp_ns == moment
}

/// Whether the step is made of records of the trace: it was begun by one, its
/// slices are of its own number, and where it has ended, its slices are as many and
/// have as many tokens as were announced, and it did not end before it began.
pub open spec fn is_of_the_trace(step: StepModel, rs: Seq<SemanticWireRecord>) -> bool {
    &&& step.begin.kind == SemanticRecordKind::EngineStepBegin
    &&& is_record(rs, step.begin)
    &&& forall|k: int|
        0 <= k < step.slices.len() ==> is_record(rs, #[trigger] step.slices[k])
            && step.slices[k].kind == SemanticRecordKind::StepRequestSlice
            && step.slices[k].step_id == step.begin.step_id
    &&& step.end_timestamp_ns != 0 ==> {
        &&& step.slices.len() == step.begin.expected_slices
        &&& sum_of(step.slices, |r: SemanticWireRecord| r.scheduled_tokens as int)
            % 0x1_0000_0000 == step.begin.scheduled_tokens
        &&& step.begin.timestamp_ns <= step.end_timestamp_ns
        &&& exists|i: int| #[trigger]
            ends_the_step(rs, i, step.begin.step_id, step.end_timestamp_ns)
    }
}

/// Whether the steps are those that the records tell of.
pub open spec fn tell_of_steps(rs: Seq<SemanticWireRecord>, steps: Seq<StepModel>) -> bool {
    &&& steps.len() == count_of(
        rs,
        |r: SemanticWireRecord| r.kind == SemanticRecordKind::EngineStepBegin,
    )
    &&& sum_of(steps, |x: StepModel| x.slices.len() as int) == count_of(
        rs,
        |r: SemanticWireRecord| r.kind == SemanticRecordKind::StepRequestSlice,
    )
    &&& forall|i: int| 0 <= i < steps.len() ==> is_of_the_trace(#[trigger] steps[i], rs)
}

proof fn tokens_are_the_sum(slices: Seq<SemanticWireRecord>)
    ensures
        slice_tokens(slices) == sum_of(
            slices,
            |r: SemanticWireRecord| r.scheduled_tokens as int,
        ) % 0x1_0000_0000,
    decreases slices.len(),
{
    if slices.len() > 0 {
        tokens_are_the_sum(slices.drop_last());
    }
}

proof fn records_stay(rs: Seq<SemanticWireRecord>, r: SemanticWireRecord, x: SemanticWireRecord)
    requires
        is_record(rs, x) || x == r,
    ensures
        is_record(rs.push(r), x),
{
    if x == r {
        assert(rs.push(r)[rs.len() as int] == r);
    } else {
        let i = choose|i: int| 0 <= i < rs.len() && #[trigger] rs[i] == x;
        assert(rs.push(r)[i] == x);
    }
}

proof fn step_stays(step: StepModel, rs: Seq<SemanticWireRecord>, r: SemanticWireRecord)
    requires
        is_of_the_trace(step, rs),
    ensures
        is_of_the_trace(step, rs.push(r)),
{
    records_stay(rs, r, step.begin);
    assert forall|k: int| 0 <= k < step.slices.len() implies is_record(
        rs.push(r),
        #[trigger] step.slices[k],
    ) by {
        records_stay(rs, r, step.slices[k]);
    }
    if step.end_timestamp_ns != 0 {
        let i = choose|i: int| #[trigger]
            ends_the_step(rs, i, step.begin.step_id, step.end_timestamp_ns);
        assert(ends_the_step(rs.push(r), i, step.begin.step_id, step.end_timestamp_ns));
    }
}

proof fn one_record_more(
    steps: Seq<StepModel>,
    next: Seq<StepModel>,
    rs: Seq<SemanticWireRecord>,
    r: SemanticWireRecord,
)
    requires
        tell_of_steps(rs, steps),
        steps_after(steps, r) == Ok::<Seq<StepModel>, Seq<char>>(next),
    ensures
        tell_of_steps(rs.push(r), next),
{
    let all = rs.push(r);
    assert(all.drop_last() =~= rs);
    assert(all.last() == r);
    let size = |x: StepModel| x.slices.len() as int;
    assert forall|i: int| 0 <= i < steps.len() implies is_of_the_trace(
        #[trigger] steps[i],
        all,
    ) by {
        step_stays(steps[i], rs, r);
    }
    match r.kind {
        SemanticRecordKind::EngineStepBegin => {
            let fresh = StepModel { begin: r, end_timestamp_ns: 0, slices: Seq::empty() };
            records_stay(rs, r, r);
            assert(is_of_the_trace(fresh, all));
            assert(next == steps.push(fresh));
            crate::sums::sum_of_push(steps, fresh, size);
        },
        SemanticRecordKind::StepRequestSlice => {
            let last = steps.last();
            let grown = StepModel { slices: last.slices.push(r), ..last };
            assert(steps[steps.len() - 1] == last);
            assert(is_of_the_trace(last, all));
            records_stay(rs, r, r);
            assert forall|k: int| 0 <= k < grown.slices.len() implies is_record(
                all,
                #[trigger] grown.slices[k],
            ) && grown.slices[k].kind == SemanticRecordKind::StepRequestSlice
                && grown.slices[k].step_id == grown.begin.step_id by {
                if k < last.slices.len() {
                    assert(grown.slices[k] == last.slices[k]);
                }
            }
            assert(is_of_the_trace(grown, all));
            assert(next == steps.drop_last().push(grown));
            crate::sums::sum_of_push(steps.drop_last(), grown, size);
        },
        SemanticRecordKind::EngineStepEnd => {
            let last = steps.last();
            let ended = StepModel { end_timestamp_ns: r.timestamp_ns, ..last };
            assert(steps[steps.len() - 1] == last);
            assert(is_of_the_trace(last, all));
            tokens_are_the_sum(last.slices);
            assert(ends_the_step(all, rs.len() as int, last.begin.step_id, r.timestamp_ns));
            assert(is_of_the_trace(ended, all));
            assert(next == steps.drop_last().push(ended));
            crate::sums::sum_of_push(steps.drop_last(), ended, size);
        },
        _ => {},
    }
}

/// How many of the records tell that others were lost before them.
pub open spec fn losses_of(rs: Seq<SemanticWireRecord>) -> int {
    count_of(rs, |r: SemanticWireRecord| r.flags & SemanticRecordFlags::DROPPED_BEFORE != 0)
}

/// Whether each record is numbered behind the one before, from the greatest number
/// on to zero.
pub open spec fn numbered_in_turn(rs: Seq<SemanticWireRecord>) -> bool {
    forall|i: int, j: int|
        0 <= i && j == i + 1 && j < rs.len() ==> (#[trigger] rs[j]).sequence == if (
        #[trigger] rs[i]).sequence == u64::MAX {
            0
        } else {
            rs[i].sequence + 1
        }
}

/// Whether the reading holds what the records tell.
pub open spec fn holds_the_records(reading: Reading, rs: Seq<SemanticWireRecord>) -> bool {
    &&& tell_of_steps(rs, reading.steps)
    &&& reading.loss_markers == losses_of(rs)
    &&& numbered_in_turn(rs)
    &&& rs.len() > 0 ==> reading.previous == Some(rs.last().sequence)
    &&& rs.len() == 0 ==> reading.previous is None
}

proof fn reading_goes_on(
    before: Reading,
    after: Reading,
    rs: Seq<SemanticWireRecord>,
    r: SemanticWireRecord,
)
    requires
        holds_the_records(before, rs),
        steps_after(before.steps, r) == Ok::<Seq<StepModel>, Seq<char>>(after.steps),
        after.previous == Some(r.sequence),
        after.loss_markers == before.loss_markers + if crate::semantic::marks_loss(r) {
            1nat
        } else {
            0
        },
        before.previous matches Some(previous) ==> r.sequence == if previous == u64::MAX {
            0
        } else {
            previous + 1
        },
    ensures
        holds_the_records(after, rs.push(r)),
{
    let all = rs.push(r);
    assert(all.drop_last() =~= rs);
    assert(all.last() == r);
    one_record_more(before.steps, after.steps, rs, r);
    assert forall|i: int, j: int| 0 <= i && j == i + 1 && j < all.len() implies (
    #[trigger] all[j]).sequence == if (#[trigger] all[i]).sequence == u64::MAX {
        0
    } else {
        all[i].sequence + 1
    } by {
        if j < rs.len() {
            assert(all[j] == rs[j] && all[i] == rs[i]);
        } else {
            assert(all[i] == rs.last());
        }
    }
}

/// What is read from a trace for the oracle holds exactly what the records tell.
pub proof fn oracle_reading_holds_the_records(
    records: Seq<Result<SemanticWireRecord, RecordError>>,
    reading: Reading,
) -> (rs: Seq<SemanticWireRecord>)
    requires
        read_records(records) == Ok::<Reading, Seq<char>>(reading),
    ensures
        rs.len() == records.len(),
        forall|i: int|
            0 <= i < records.len() ==> #[trigger] records[i] == Ok::<
                SemanticWireRecord,
                RecordError,
            >(rs[i]),
        holds_the_records(reading, rs),
    decreases records.len(),
{
    if records.len() == 0 {
        Seq::empty()
    } else {
        let front = records.drop_last();
        let before = read_records(front)->Ok_0;
        let rs = oracle_reading_holds_the_records(front, before);
        let r = records.last()->Ok_0;
        reading_goes_on(before, reading, rs, r);
        assert forall|i: int| 0 <= i < records.len() implies #[trigger] records[i] == Ok::<
            SemanticWireRecord,
            RecordError,
        >(rs.push(r)[i]) by {
            if i < front.len() {
                assert(front[i] == records[i]);
            }
        }
        rs.push(r)
    }
}

/// What is read from a trace for the host join holds exactly what the records
/// tell.
pub proof fn host_reading_holds_the_records(
    records: Seq<Result<SemanticWireRecord, RecordError>>,
    n: int,
    reading: Reading,
) -> (rs: Seq<SemanticWireRecord>)
    requires
        0 <= n <= records.len(),
        host_reading(records, n) == Ok::<Reading, Seq<char>>(reading),
    ensures
        rs.len() == n,
        forall|i: int|
            0 <= i < n ==> #[trigger] records[i] == Ok::<SemanticWireRecord, RecordError>(rs[i]),
        holds_the_records(reading, rs),
    decreases n,
{
    if n == 0 {
        Seq::empty()
    } else {
        let before = host_reading(records, n - 1)->Ok_0;
        let rs = host_reading_holds_the_records(records, n - 1, before);
        let r = records[n - 1]->Ok_0;
        same_steps(before.steps, r);
        reading_goes_on(before, reading, rs, r);
        rs.push(r)
    }
}

proof fn same_steps(steps: Seq<StepModel>, r: SemanticWireRecord)
    ensures
        host_steps_after(steps, r) is Ok ==> steps_after(steps, r) == host_steps_after(steps, r),
{
}

} // verus!
