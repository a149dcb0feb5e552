//! What a host join means: which launches a step counts, and what the rest of the
//! join counts, in terms of the launches that were read.

use crate::host_join::{
    advanced_cursor, after_launch, cpu_at, host_launches_of, launch_at, launches_after,
    nothing_launched, CpuSequence, LaunchesModel, StepLaunches, MAX_CUDA_BYTES,
};
use crate::launch::{CudaLaunchEvent, DecodeError, LaunchFlags, CUDA_LAUNCH_EVENT_BYTES};
use crate::oracle::StepModel;
use crate::sums::{count_of, counts_fit};
use vstd::prelude::*;

verus! {

/// Whether the bytes hold the launches, one behind the other.
pub open spec fn holds_launches(s: Seq<u8>, launches: Seq<CudaLaunchEvent>) -> bool {
    forall|i: int|
        0 <= i < launches.len() ==> CudaLaunchEvent::decoded(
            s.subrange(i * CUDA_LAUNCH_EVENT_BYTES, (i + 1) * CUDA_LAUNCH_EVENT_BYTES),
        ) == Ok::<CudaLaunchEvent, DecodeError>(#[trigger] launches[i])
}

proof fn shorter_holds(s: Seq<u8>, launches: Seq<CudaLaunchEvent>)
    requires
        launches.len() > 0,
        holds_launches(s, launches),
    ensures
        holds_launches(s, launches.drop_last()),
        launch_at(s, launches.len() - 1) == Ok::<CudaLaunchEvent, DecodeError>(launches.last()),
{
    let front = launches.drop_last();
    assert forall|i: int| 0 <= i < front.len() implies CudaLaunchEvent::decoded(
        s.subrange(i * CUDA_LAUNCH_EVENT_BYTES, (i + 1) * CUDA_LAUNCH_EVENT_BYTES),
    ) == Ok::<CudaLaunchEvent, DecodeError>(#[trigger] front[i]) by {
        assert(front[i] == launches[i]);
    }
    assert(launches[launches.len() - 1] == launches.last());
}

// Faults.

/// Whether the launch comes behind another of its processor whose number is not
/// the one before, and no launch of the processor lies between.
pub open spec fn breaks_the_row(launches: Seq<CudaLaunchEvent>, i: int) -> bool {
    exists|j: int|
        {
            &&& 0 <= j < i
            &&& (#[trigger] launches[j]).cpu_id == launches[i].cpu_id
            &&& forall|k: int|
                j < k < i ==> (#[trigger] launches[k]).cpu_id != launches[i].cpu_id
            &&& launches[i].sequence != if launches[j].sequence == u64::MAX {
                0
            } else {
                launches[j].sequence + 1
            }
        }
}

/// How many of the first launches break the row of their processor.
pub open spec fn breaks(launches: Seq<CudaLaunchEvent>, n: int) -> int
    decreases n,
{
    if n <= 0 {
        0
    } else {
        breaks(launches, n - 1) + if breaks_the_row(launches, n - 1) {
            1int
        } else {
            0
        }
    }
}

spec fn is_last_of(launches: Seq<CudaLaunchEvent>, j: int, cpu: CpuSequence) -> bool {
    &&& 0 <= j < launches.len()
    &&& launches[j].cpu_id == cpu.cpu_id
    &&& launches[j].sequence == cpu.sequence
    &&& forall|k: int| j < k < launches.len() ==> (#[trigger] launches[k]).cpu_id != cpu.cpu_id
}

spec fn has_last(launches: Seq<CudaLaunchEvent>, cpu: CpuSequence) -> bool {
    exists|j: int| #[trigger] is_last_of(launches, j, cpu)
}

spec fn knows_the_cpus(cpus: Seq<CpuSequence>, launches: Seq<CudaLaunchEvent>) -> bool {
    &&& forall|c: int|
        0 <= c < cpus.len() ==> has_last(launches, #[trigger] cpus[c])
    &&& forall|c: int, d: int|
        0 <= c < d < cpus.len() ==> (#[trigger] cpus[c]).cpu_id != (#[trigger] cpus[d]).cpu_id
    &&& forall|j: int|
        0 <= j < launches.len() ==> knows_cpu(cpus, (#[trigger] launches[j]).cpu_id)
}

spec fn knows_cpu(cpus: Seq<CpuSequence>, cpu_id: u32) -> bool {
    exists|c: int| 0 <= c < cpus.len() && (#[trigger] cpus[c]).cpu_id == cpu_id
}

proof fn cpu_is_found(cpus: Seq<CpuSequence>, cpu_id: u32)
    ensures
        cpu_at(cpus, cpu_id) matches Some(c) ==> 0 <= c < cpus.len() && cpus[c].cpu_id == cpu_id,
        cpu_at(cpus, cpu_id) is None ==> forall|c: int|
            0 <= c < cpus.len() ==> (#[trigger] cpus[c]).cpu_id != cpu_id,
    decreases cpus.len(),
{
    if cpus.len() > 0 {
        let front = cpus.drop_last();
        cpu_is_found(front, cpu_id);
        if cpu_at(cpus, cpu_id) is None {
            assert forall|c: int| 0 <= c < cpus.len() implies (#[trigger] cpus[c]).cpu_id
                != cpu_id by {
                if c < front.len() {
                    assert(front[c] == cpus[c]);
                }
            }
        }
    }
}

proof fn cpus_stay_known(
    cpus: Seq<CpuSequence>,
    next: Seq<CpuSequence>,
    launches: Seq<CudaLaunchEvent>,
)
    requires
        launches.len() > 0,
        knows_the_cpus(cpus, launches.drop_last()),
        ({
            let entry = CpuSequence {
                cpu_id: launches.last().cpu_id,
                sequence: launches.last().sequence,
            };
            match cpu_at(cpus, launches.last().cpu_id) {
                Some(c) => next == cpus.update(c, entry),
                None => next == cpus.push(entry),
            }
        }),
    ensures
        knows_the_cpus(next, launches),
{
    let front = launches.drop_last();
    let x = launches.last();
    let end = launches.len() - 1;
    cpu_is_found(cpus, x.cpu_id);
    let entry = CpuSequence { cpu_id: x.cpu_id, sequence: x.sequence };
    let place = match cpu_at(cpus, x.cpu_id) {
        Some(c) => c,
        None => cpus.len() as int,
    };
    assert(is_last_of(launches, end, entry));
    assert(next[place] == entry);
    assert forall|c: int| 0 <= c < next.len() implies has_last(launches, #[trigger] next[c]) by {
        if c != place {
            assert(next[c] == cpus[c]);
            assert(has_last(front, cpus[c]));
            if c < place {
                assert(place < cpus.len() ==> cpus[c].cpu_id != cpus[place].cpu_id);
            } else {
                assert(cpus[place].cpu_id != cpus[c].cpu_id);
            }
            assert(cpus[c].cpu_id != x.cpu_id);
            let j = choose|j: int| #[trigger] is_last_of(front, j, cpus[c]);
            assert forall|k: int| j < k < launches.len() implies (#[trigger] launches[k]).cpu_id
                != next[c].cpu_id by {
                if k < end {
                    assert(front[k] == launches[k]);
                }
            }
            assert(front[j] == launches[j]);
            assert(is_last_of(launches, j, next[c]));
        }
    }
    assert forall|c: int, d: int| 0 <= c < d < next.len() implies (#[trigger] next[c]).cpu_id
        != (#[trigger] next[d]).cpu_id by {
        if c < cpus.len() && d < cpus.len() {
            assert(cpus[c].cpu_id != cpus[d].cpu_id);
        }
        if cpu_at(cpus, x.cpu_id) is None && d == cpus.len() {
            assert(cpus[c].cpu_id != x.cpu_id);
        }
    }
    assert forall|j: int| 0 <= j < launches.len() implies knows_cpu(
        next,
        (#[trigger] launches[j]).cpu_id,
    ) by {
        if j < end {
            assert(front[j] == launches[j]);
            assert(knows_cpu(cpus, front[j].cpu_id));
            let c = choose|c: int|
                0 <= c < cpus.len() && (#[trigger] cpus[c]).cpu_id == launches[j].cpu_id;
            assert(next[c].cpu_id == launches[j].cpu_id);
        } else {
            assert(next[place].cpu_id == x.cpu_id);
        }
    }
}

proof fn gap_is_a_break(cpus: Seq<CpuSequence>, launches: Seq<CudaLaunchEvent>)
    requires
        launches.len() > 0,
        knows_the_cpus(cpus, launches.drop_last()),
    ensures
        breaks_the_row(launches, launches.len() - 1) == (match cpu_at(
            cpus,
            launches.last().cpu_id,
        ) {
            Some(c) => launches.last().sequence != crate::bridge::advanced(cpus[c].sequence, 1),
            None => false,
        }),
{
    let front = launches.drop_last();
    let end = launches.len() - 1;
    let x = launches.last();
    assert(launches[end] == x);
    cpu_is_found(cpus, x.cpu_id);
    assert forall|k: int| 0 <= k < end implies #[trigger] launches[k] == front[k] by {}
    match cpu_at(cpus, x.cpu_id) {
        Some(c) => {
            assert(has_last(front, cpus[c]));
            let j = choose|j: int| #[trigger] is_last_of(front, j, cpus[c]);
            assert(launches[j] == front[j]);
            assert(crate::bridge::advanced(cpus[c].sequence, 1) == if launches[j].sequence
                == u64::MAX {
                0
            } else {
                launches[j].sequence + 1
            });
            if breaks_the_row(launches, end) {
                let i = choose|i: int|
                    {
                        &&& 0 <= i < end
                        &&& (#[trigger] launches[i]).cpu_id == launches[end].cpu_id
                        &&& forall|k: int|
                            i < k < end ==> (#[trigger] launches[k]).cpu_id
                                != launches[end].cpu_id
                        &&& launches[end].sequence != if launches[i].sequence == u64::MAX {
                            0
                        } else {
                            launches[i].sequence + 1
                        }
                    };
                if i < j {
                    assert(launches[j].cpu_id != launches[end].cpu_id);
                }
                if j < i {
                    assert(front[i].cpu_id != cpus[c].cpu_id);
                }
                assert(i == j);
            } else if x.sequence != crate::bridge::advanced(cpus[c].sequence, 1) {
                assert forall|k: int| j < k < end implies (#[trigger] launches[k]).cpu_id
                    != launches[end].cpu_id by {
                    assert(front[k] == launches[k]);
                }
                assert(launches[j].cpu_id == launches[end].cpu_id);
            }
        },
        None => {
            if breaks_the_row(launches, end) {
                let i = choose|i: int|
                    0 <= i < end && (#[trigger] launches[i]).cpu_id == launches[end].cpu_id;
                assert(knows_cpu(cpus, front[i].cpu_id));
            }
        },
    }
}

proof fn breaks_of_a_part(launches: Seq<CudaLaunchEvent>, n: int)
    requires
        0 <= n < launches.len(),
    ensures
        breaks(launches, n) == breaks(launches.drop_last(), n),
    decreases n,
{
    if n > 0 {
        breaks_of_a_part(launches, n - 1);
        let front = launches.drop_last();
        let i = n - 1;
        assert forall|k: int| 0 <= k < front.len() implies #[trigger] launches[k] == front[k] by {}
        assert forall|k: int| 0 <= k < front.len() implies #[trigger] front[k] == launches[k] by {}
        assert(breaks_the_row(launches, i) == breaks_the_row(front, i));
    }
}

/// Whether the faults are counted.
pub open spec fn counts_the_faults(
    m: LaunchesModel,
    launches: Seq<CudaLaunchEvent>,
    expected_pid: u32,
) -> bool {
    &&& m.losses == count_of(
        launches,
        |l: CudaLaunchEvent| l.flags & LaunchFlags::DROPPED_BEFORE != 0,
    )
    &&& m.pid_mismatches == count_of(launches, |l: CudaLaunchEvent| l.pid != expected_pid)
    &&& m.gaps == breaks(launches, launches.len() as int)
    &&& m.tids.no_duplicates()
    &&& forall|tid: u32|
        m.tids.contains(tid) <==> exists|i: int|
            0 <= i < launches.len() && (#[trigger] launches[i]).tid == tid
}

spec fn ran_on(launches: Seq<CudaLaunchEvent>, tid: u32) -> bool {
    exists|i: int| 0 <= i < launches.len() && (#[trigger] launches[i]).tid == tid
}

proof fn threads_grow(launches: Seq<CudaLaunchEvent>, tid: u32)
    requires
        launches.len() > 0,
    ensures
        ran_on(launches, tid) == (ran_on(launches.drop_last(), tid) || launches.last().tid == tid),
{
    let front = launches.drop_last();
    let end = launches.len() - 1;
    assert(launches[end] == launches.last());
    if ran_on(front, tid) {
        let i = choose|i: int| 0 <= i < front.len() && (#[trigger] front[i]).tid == tid;
        assert(launches[i].tid == tid);
    }
    if ran_on(launches, tid) && launches.last().tid != tid {
        let i = choose|i: int| 0 <= i < launches.len() && (#[trigger] launches[i]).tid == tid;
        assert(front[i].tid == tid);
    }
}

proof fn faults_follow(
    s: Seq<u8>,
    launches: Seq<CudaLaunchEvent>,
    steps: Seq<StepModel>,
    expected_pid: u32,
)
    requires
        holds_launches(s, launches),
    ensures
        launches_after(s, launches.len() as int, steps, expected_pid) matches Ok(m)
            && counts_the_faults(m, launches, expected_pid) && knows_the_cpus(m.cpus, launches),
    decreases launches.len(),
{
    if launches.len() > 0 {
        let front = launches.drop_last();
        shorter_holds(s, launches);
        faults_follow(s, front, steps, expected_pid);
        let before = launches_after(s, front.len() as int, steps, expected_pid)->Ok_0;
        let m = launches_after(s, launches.len() as int, steps, expected_pid)->Ok_0;
        let x = launches.last();
        assert(m == after_launch(before, x, steps, expected_pid));
        cpus_stay_known(before.cpus, m.cpus, launches);
        gap_is_a_break(before.cpus, launches);
        breaks_of_a_part(launches, launches.len() - 1);
        assert forall|tid: u32| #[trigger] m.tids.contains(tid) <==> ran_on(launches, tid) by {
            threads_grow(launches, tid);
            assert(before.tids.contains(tid) <==> ran_on(front, tid));
            if !before.tids.contains(x.tid) {
                assert(m.tids == before.tids.push(x.tid));
                assert(m.tids[before.tids.len() as int] == x.tid);
                if before.tids.contains(tid) {
                    let i = choose|i: int| 0 <= i < before.tids.len() && before.tids[i] == tid;
                    assert(m.tids[i] == tid);
                }
            }
        }
    } else {
        let m = nothing_launched(steps.len());
        assert(launches_after(s, 0, steps, expected_pid) == Ok::<LaunchesModel, Seq<char>>(m));
        assert forall|tid: u32| m.tids.contains(tid) <==> ran_on(launches, tid) by {}
    }
}

/// A join counts a loss for each launch that says so, a mismatch for each of
/// another process, and a gap for each that does not follow the one before of its
/// processor; it names every thread once.
pub proof fn join_counts_the_faults(
    s: Seq<u8>,
    launches: Seq<CudaLaunchEvent>,
    steps: Seq<StepModel>,
    expected_pid: u32,
)
    requires
        holds_launches(s, launches),
        0 < s.len() <= MAX_CUDA_BYTES,
        s.len() == launches.len() * CUDA_LAUNCH_EVENT_BYTES,
    ensures
        host_launches_of(s, steps, expected_pid) matches Ok(m) && counts_the_faults(
            m,
            launches,
            expected_pid,
        ),
{
    faults_follow(s, launches, steps, expected_pid);
    whole_records(s.len(), launches.len());
}

proof fn whole_records(size: nat, n: nat)
    requires
        size == n * CUDA_LAUNCH_EVENT_BYTES,
    ensures
        size % (CUDA_LAUNCH_EVENT_BYTES as nat) == 0,
        size / (CUDA_LAUNCH_EVENT_BYTES as nat) == n,
{
    vstd::arithmetic::div_mod::lemma_div_multiples_vanish(n as int, CUDA_LAUNCH_EVENT_BYTES as int);
    vstd::arithmetic::div_mod::lemma_mod_multiples_basic(n as int, CUDA_LAUNCH_EVENT_BYTES as int);
    vstd::arithmetic::mul::lemma_mul_is_commutative(n as int, CUDA_LAUNCH_EVENT_BYTES as int);
}

// Steps.

/// Whether the moment falls into the step, and behind every step before it.
pub open spec fn falls_into(steps: Seq<StepModel>, k: int, moment: u64) -> bool {
    &&& steps[k].begin.timestamp_ns <= moment <= steps[k].end_timestamp_ns
    &&& forall|j: int| 0 <= j < k ==> (#[trigger] steps[j]).end_timestamp_ns < moment
}

/// Whether the step counts the launches that fall into it.
pub open spec fn counts_its_launches(
    found: StepLaunches,
    steps: Seq<StepModel>,
    k: int,
    launches: Seq<CudaLaunchEvent>,
) -> bool {
    &&& found.launches == count_of(
        launches,
        |l: CudaLaunchEvent| falls_into(steps, k, l.timestamp_ns),
    )
    &&& found.extended == count_of(
        launches,
        |l: CudaLaunchEvent|
            falls_into(steps, k, l.timestamp_ns) && l.flags & LaunchFlags::EXTENDED_CONFIG != 0,
    )
    &&& found.regular + found.extended == found.launches
}

/// Whether the step's first and last launch are the earliest and the latest that
/// fall into it.
pub open spec fn spans_its_launches(
    found: StepLaunches,
    steps: Seq<StepModel>,
    k: int,
    launches: Seq<CudaLaunchEvent>,
) -> bool {
    &&& found.first_ns is Some == found.last_ns is Some
    &&& forall|i: int|
        0 <= i < launches.len() && falls_into(steps, k, (#[trigger] launches[i]).timestamp_ns)
            ==> found.first_ns is Some && found.first_ns->0 <= launches[i].timestamp_ns
            <= found.last_ns->0
    &&& found.first_ns matches Some(first) ==> launched_at(launches, first) && falls_into(
        steps,
        k,
        first,
    )
    &&& found.last_ns matches Some(last) ==> launched_at(launches, last) && falls_into(
        steps,
        k,
        last,
    )
}

/// Whether one of the launches is of the moment.
pub open spec fn launched_at(launches: Seq<CudaLaunchEvent>, moment: u64) -> bool {
    exists|i: int| 0 <= i < launches.len() && (#[trigger] launches[i]).timestamp_ns == moment
}

/// Whether the launches stand in the order of their moments.
pub open spec fn in_order(launches: Seq<CudaLaunchEvent>) -> bool {
    forall|i: int, j: int|
        0 <= i <= j < launches.len() ==> (#[trigger] launches[i]).timestamp_ns <= (
        #[trigger] launches[j]).timestamp_ns
}

proof fn cursor_passes_what_ended(steps: Seq<StepModel>, cursor: nat, moment: u64)
    requires
        cursor <= steps.len(),
    ensures
        cursor <= advanced_cursor(steps, cursor, moment) <= steps.len(),
        forall|j: int|
            cursor <= j < advanced_cursor(steps, cursor, moment) ==> (
            #[trigger] steps[j]).end_timestamp_ns < moment,
        advanced_cursor(steps, cursor, moment) < steps.len() ==> moment <= steps[advanced_cursor(
            steps,
            cursor,
            moment,
        ) as int].end_timestamp_ns,
    decreases steps.len() - cursor,
{
    if cursor < steps.len() && moment > steps[cursor as int].end_timestamp_ns {
        cursor_passes_what_ended(steps, cursor + 1, moment);
    }
}

spec fn has_passed(steps: Seq<StepModel>, cursor: nat, launches: Seq<CudaLaunchEvent>) -> bool {
    &&& cursor <= steps.len()
    &&& launches.len() == 0 ==> cursor == 0
    &&& forall|j: int|
        0 <= j < cursor ==> (#[trigger] steps[j]).end_timestamp_ns < launches.last().timestamp_ns
}

/// Whether the moment falls into none of the steps.
pub open spec fn in_no_step(steps: Seq<StepModel>, moment: u64) -> bool {
    forall|k: int| 0 <= k < steps.len() ==> !#[trigger] falls_into(steps, k, moment)
}

proof fn one_launch_more(
    before: LaunchesModel,
    m: LaunchesModel,
    launches: Seq<CudaLaunchEvent>,
    steps: Seq<StepModel>,
    expected_pid: u32,
    k: int,
)
    requires
        0 < launches.len() <= u32::MAX,
        in_order(launches),
        before.steps.len() == steps.len(),
        0 <= k < steps.len(),
        has_passed(steps, before.cursor, launches.drop_last()),
        counts_its_launches(before.steps[k], steps, k, launches.drop_last()),
        spans_its_launches(before.steps[k], steps, k, launches.drop_last()),
        m == after_launch(before, launches.last(), steps, expected_pid),
    ensures
        counts_its_launches(m.steps[k], steps, k, launches),
        spans_its_launches(m.steps[k], steps, k, launches),
{
    let front = launches.drop_last();
    let x = launches.last();
    let end = launches.len() - 1;
    assert(launches[end] == x);
    place_of_launch(before, launches, steps);
    let c = advanced_cursor(steps, before.cursor, x.timestamp_ns);
    counts_fit(front, |l: CudaLaunchEvent| falls_into(steps, k, l.timestamp_ns));
    assert(before.steps[k].launches <= front.len());
    assert forall|i: int| 0 <= i < front.len() implies #[trigger] launches[i] == front[i] by {}
    let fits = falls_into(steps, k, x.timestamp_ns);
    assert(fits ==> c == k);
    assert(fits <==> c == k && x.timestamp_ns >= steps[k].begin.timestamp_ns);
    let old_found = before.steps[k];
    let found = m.steps[k];
    if fits {
        assert(found == crate::host_join::with_launch(old_found, x));
        if old_found.first_ns is Some {
            let i = choose|i: int|
                0 <= i < front.len() && (#[trigger] front[i]).timestamp_ns
                    == old_found.first_ns->0;
            assert(launches[i].timestamp_ns == found.first_ns->0);
            assert(launches[i].timestamp_ns <= launches[end].timestamp_ns);
        } else {
            assert(launches[end].timestamp_ns == found.first_ns->0);
        }
        assert(launches[end].timestamp_ns == found.last_ns->0);
        assert forall|i: int|
            0 <= i < launches.len() && falls_into(
                steps,
                k,
                (#[trigger] launches[i]).timestamp_ns,
            ) implies found.first_ns is Some && found.first_ns->0 <= launches[i].timestamp_ns
            <= found.last_ns->0 by {
            assert(launches[i].timestamp_ns <= launches[end].timestamp_ns);
            if i < end {
                assert(front[i] == launches[i]);
            }
        }
    } else {
        assert(found == old_found);
        if old_found.first_ns is Some {
            let i = choose|i: int|
                0 <= i < front.len() && (#[trigger] front[i]).timestamp_ns
                    == old_found.first_ns->0;
            assert(launches[i].timestamp_ns == found.first_ns->0);
            let j = choose|j: int|
                0 <= j < front.len() && (#[trigger] front[j]).timestamp_ns == old_found.last_ns->0;
            assert(launches[j].timestamp_ns == found.last_ns->0);
        }
        assert forall|i: int|
            0 <= i < launches.len() && falls_into(
                steps,
                k,
                (#[trigger] launches[i]).timestamp_ns,
            ) implies found.first_ns is Some && found.first_ns->0 <= launches[i].timestamp_ns
            <= found.last_ns->0 by {
            assert(front[i] == launches[i]);
        }
    }
}

proof fn place_of_launch(
    before: LaunchesModel,
    launches: Seq<CudaLaunchEvent>,
    steps: Seq<StepModel>,
)
    requires
        launches.len() > 0,
        in_order(launches),
        has_passed(steps, before.cursor, launches.drop_last()),
    ensures
        ({
            let t = launches.last().timestamp_ns;
            let c = advanced_cursor(steps, before.cursor, t);
            &&& has_passed(steps, c, launches)
            &&& forall|k: int|
                0 <= k < steps.len() ==> (#[trigger] falls_into(steps, k, t) <==> c == k && t
                    >= steps[k].begin.timestamp_ns)
        }),
{
    let t = launches.last().timestamp_ns;
    let end = launches.len() - 1;
    assert(launches[end] == launches.last());
    if end > 0 {
        assert(launches.drop_last().last() == launches[end - 1]);
        assert(launches[end - 1].timestamp_ns <= launches[end].timestamp_ns);
    }
    cursor_passes_what_ended(steps, before.cursor, t);
    let c = advanced_cursor(steps, before.cursor, t);
    assert forall|j: int| 0 <= j < c implies (#[trigger] steps[j]).end_timestamp_ns < t by {}
    assert forall|k: int| 0 <= k < steps.len() implies (#[trigger] falls_into(steps, k, t) <==> c
        == k && t >= steps[k].begin.timestamp_ns) by {
        if c < k {
            assert(steps[c as int].end_timestamp_ns >= t);
        }
    }
}

proof fn steps_follow(
    s: Seq<u8>,
    launches: Seq<CudaLaunchEvent>,
    steps: Seq<StepModel>,
    expected_pid: u32,
)
    requires
        holds_launches(s, launches),
        in_order(launches),
        launches.len() <= u32::MAX,
    ensures
        launches_after(s, launches.len() as int, steps, expected_pid) matches Ok(m) && {
            &&& m.steps.len() == steps.len()
            &&& has_passed(steps, m.cursor, launches)
            &&& m.unassigned == count_of(
                launches,
                |l: CudaLaunchEvent| in_no_step(steps, l.timestamp_ns),
            )
            &&& forall|k: int|
                0 <= k < steps.len() ==> counts_its_launches(
                    #[trigger] m.steps[k],
                    steps,
                    k,
                    launches,
                ) && spans_its_launches(m.steps[k], steps, k, launches)
        },
    decreases launches.len(),
{
    if launches.len() > 0 {
        let front = launches.drop_last();
        let x = launches.last();
        shorter_holds(s, launches);
        assert(in_order(front)) by {
            assert forall|i: int, j: int| 0 <= i <= j < front.len() implies (
            #[trigger] front[i]).timestamp_ns <= (#[trigger] front[j]).timestamp_ns by {
                assert(launches[i].timestamp_ns <= launches[j].timestamp_ns);
            }
        }
        steps_follow(s, front, steps, expected_pid);
        let before = launches_after(s, front.len() as int, steps, expected_pid)->Ok_0;
        let m = launches_after(s, launches.len() as int, steps, expected_pid)->Ok_0;
        assert(m == after_launch(before, x, steps, expected_pid));
        place_of_launch(before, launches, steps);
        assert(m.cursor == advanced_cursor(steps, before.cursor, x.timestamp_ns));
        assert(has_passed(steps, m.cursor, launches));
        assert forall|k: int| 0 <= k < steps.len() implies counts_its_launches(
            #[trigger] m.steps[k],
            steps,
            k,
            launches,
        ) && spans_its_launches(m.steps[k], steps, k, launches) by {
            assert(counts_its_launches(before.steps[k], steps, k, front));
            one_launch_more(before, m, launches, steps, expected_pid, k);
        }
        let outside = m.cursor >= steps.len() || x.timestamp_ns
            < steps[m.cursor as int].begin.timestamp_ns;
        if !outside {
            assert(falls_into(steps, m.cursor as int, x.timestamp_ns));
        }
        assert(in_no_step(steps, x.timestamp_ns) <==> outside);
    } else {
        let m = nothing_launched(steps.len());
        assert(launches_after(s, 0, steps, expected_pid) == Ok::<LaunchesModel, Seq<char>>(m));
    }
}

/// Where the launches come in the order of their moments, each step counts exactly
/// those that fall into it, reaches from the earliest of them to the latest, and
/// the rest are left unassigned.
pub proof fn steps_count_what_falls_into_them(
    s: Seq<u8>,
    launches: Seq<CudaLaunchEvent>,
    steps: Seq<StepModel>,
    expected_pid: u32,
    k: int,
)
    requires
        holds_launches(s, launches),
        in_order(launches),
        0 < s.len() <= MAX_CUDA_BYTES,
        s.len() == launches.len() * CUDA_LAUNCH_EVENT_BYTES,
        0 <= k < steps.len(),
    ensures
        host_launches_of(s, steps, expected_pid) matches Ok(m) && {
            &&& m.steps.len() == steps.len()
            &&& counts_its_launches(m.steps[k], steps, k, launches)
            &&& spans_its_launches(m.steps[k], steps, k, launches)
            &&& m.unassigned == count_of(
                launches,
                |l: CudaLaunchEvent| in_no_step(steps, l.timestamp_ns),
            )
        },
{
    whole_records(s.len(), launches.len());
    vstd::arithmetic::div_mod::lemma_div_is_ordered(
        s.len() as int,
        MAX_CUDA_BYTES as int,
        CUDA_LAUNCH_EVENT_BYTES as int,
    );
    steps_follow(s, launches, steps, expected_pid);
}

} // verus!
