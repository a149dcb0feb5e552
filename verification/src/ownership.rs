//! Who owns the rows of a packed step, and which step a moment belongs to.

use crate::order::{arrange, arranged, arranges, sorted, Keyed};
use crate::semantic::SemanticWireRecord;
use vstd::prelude::*;
use vstd::string::*;

verus! {

/// The rows of one request in a packed step.
#[derive(Clone, Copy, Debug, PartialEq, Eq, Structural)]
pub struct OwnershipSlice {
    pub request_id: u64,
    pub phase: u8,
    pub scheduled_tokens: u32,
    pub row_begin: u32,
    pub row_end: u32,
    pub authoritative: bool,
}

/// An engine step of a trace, with the range of its owners.
#[derive(Clone, Copy, Debug, PartialEq, Eq, Structural)]
pub struct TraceStep {
    pub begin: SemanticWireRecord,
    pub packed_begin: Option<SemanticWireRecord>,
    pub end_timestamp_ns: u64,
    pub owner_start: usize,
    pub owner_count: usize,
    pub scheduler_order_mismatches: u64,
}

/// A trace of engine steps.
#[derive(Debug)]
pub struct SemanticTrace {
    pub steps: Vec<TraceStep>,
    pub owners: Vec<OwnershipSlice>,
    pub records: u64,
    pub loss_markers: u64,
    pub packed_steps: u64,
    pub max_steps_in_flight: u64,
    pub scheduler_order_mismatch_steps: u64,
}

impl SemanticTrace {
    /// Whether the owners of every step are there.
    pub open spec fn wf(self) -> bool {
        forall|i: int|
            0 <= i < self.steps@.len() ==> (#[trigger] self.steps@[i]).owner_start
                + self.steps@[i].owner_count <= self.owners@.len()
    }

    /// Whether the trace is complete: it has steps, nothing was lost, and every
    /// step has a packed layout.
    pub open spec fn complete(self) -> bool {
        self.steps@.len() > 0 && self.loss_markers == 0 && self.packed_steps == self.steps@.len()
    }

    pub fn is_complete(&self) -> (r: bool)
        ensures
            r == self.complete(),
    {
        self.steps.len() > 0 && self.loss_markers == 0 && self.packed_steps
            == self.steps.len() as u64
    }
}

// Rows.

/// The first slice that ends behind the row, or the number of slices.
pub open spec fn first_ending_behind(owners: Seq<OwnershipSlice>, row: u32) -> int
    decreases owners.len(),
{
    if owners.len() == 0 {
        0
    } else {
        let n = first_ending_behind(owners.drop_last(), row);
        if n < owners.len() - 1 || owners.last().row_end > row {
            n
        } else {
            owners.len() as int
        }
    }
}

/// Whether the slice surely owns the row.
pub open spec fn owns(owner: OwnershipSlice, row: u32) -> bool {
    owner.authoritative && owner.row_begin <= row < owner.row_end
}

/// The owner of the row: the first slice that ends behind it, if that is sure
/// to own it.
pub open spec fn owner_of(owners: Seq<OwnershipSlice>, row: u32) -> Option<int> {
    let n = first_ending_behind(owners, row);
    if n < owners.len() && owns(owners[n], row) {
        Some(n)
    } else {
        None
    }
}

/// The owner of the row.
pub fn owner_for_row(owners: &[OwnershipSlice], row: u32) -> (r: Option<usize>)
    ensures
        owner_of(owners@, row) == match r {
            Some(i) => Some(i as int),
            None => None,
        },
{
    let mut n: usize = 0;
    assert(owners@.take(0) =~= Seq::<OwnershipSlice>::empty());
    while n < owners.len() && owners[n].row_end <= row
        invariant
            n <= owners.len(),
            first_ending_behind(owners@.take(n as int), row) == n,
        decreases owners.len() - n,
    {
        assert(owners@.take(n + 1).drop_last() =~= owners@.take(n as int));
        n += 1;
    }
    proof {
        if n < owners@.len() {
            assert(owners@.take(n + 1).drop_last() =~= owners@.take(n as int));
            assert(first_ending_behind(owners@.take(n + 1), row) == n);
            first_ending_stays(owners@, row, n + 1);
        } else {
            assert(owners@.take(n as int) =~= owners@);
        }
    }
    if n < owners.len() && owners[n].authoritative && row >= owners[n].row_begin && row
        < owners[n].row_end {
        Some(n)
    } else {
        None
    }
}

proof fn first_ending_stays(owners: Seq<OwnershipSlice>, row: u32, n: int)
    requires
        0 <= n <= owners.len(),
        first_ending_behind(owners.take(n), row) < n,
    ensures
        first_ending_behind(owners, row) == first_ending_behind(owners.take(n), row),
    decreases owners.len() - n,
{
    if n < owners.len() {
        assert(owners.take(n + 1).drop_last() =~= owners.take(n));
        first_ending_stays(owners, row, n + 1);
    } else {
        assert(owners.take(n) =~= owners);
    }
}

pub proof fn owner_is_inside(owners: Seq<OwnershipSlice>, row: u32)
    ensures
        0 <= first_ending_behind(owners, row) <= owners.len(),
        owner_of(owners, row) matches Some(i) ==> 0 <= i < owners.len(),
    decreases owners.len(),
{
    if owners.len() > 0 {
        owner_is_inside(owners.drop_last(), row);
    }
}

/// Where the slices stand in the order of their rows, a slice that surely owns
/// a row is the one that is found.
pub proof fn sure_owner_is_found(owners: Seq<OwnershipSlice>, row: u32, i: int)
    requires
        0 <= i < owners.len(),
        owns(owners[i], row),
        forall|j: int, k: int|
            0 <= j < k < owners.len() ==> (#[trigger] owners[j]).row_end
                <= (#[trigger] owners[k]).row_begin,
    ensures
        owner_of(owners, row) == Some(i),
{
    first_ending_is(owners, row, i);
}

proof fn first_ending_is(owners: Seq<OwnershipSlice>, row: u32, i: int)
    requires
        0 <= i < owners.len(),
        owners[i].row_end > row,
        forall|j: int| 0 <= j < i ==> (#[trigger] owners[j]).row_end <= row,
    ensures
        first_ending_behind(owners, row) == i,
    decreases owners.len(),
{
    let front = owners.drop_last();
    if i < front.len() {
        assert(front[i] == owners[i]);
        assert forall|j: int| 0 <= j < i implies (#[trigger] front[j]).row_end <= row by {
            assert(front[j] == owners[j]);
        }
        first_ending_is(front, row, i);
    } else {
        none_ends_behind(front, row);
    }
}

proof fn none_ends_behind(owners: Seq<OwnershipSlice>, row: u32)
    requires
        forall|j: int| 0 <= j < owners.len() ==> (#[trigger] owners[j]).row_end <= row,
    ensures
        first_ending_behind(owners, row) == owners.len(),
    decreases owners.len(),
{
    if owners.len() > 0 {
        let front = owners.drop_last();
        assert forall|j: int| 0 <= j < front.len() implies (#[trigger] front[j]).row_end <= row by {
            assert(front[j] == owners[j]);
        }
        none_ends_behind(front, row);
        assert(owners[owners.len() - 1].row_end <= row);
    }
}

// Moments.

/// When the layout of a step was packed.
#[derive(Clone, Copy, Debug, PartialEq, Eq, Structural)]
pub struct TimelineEntry {
    pub timestamp_ns: u64,
    pub step_index: usize,
}

impl Keyed for TimelineEntry {
    open spec fn before(self, other: Self) -> bool {
        self.timestamp_ns <= other.timestamp_ns
    }

    proof fn before_is_total(a: Self, b: Self) {
    }

    proof fn before_is_transitive(a: Self, b: Self, c: Self) {
    }

    fn comes_before(&self, other: &Self) -> (r: bool) {
        self.timestamp_ns <= other.timestamp_ns
    }
}

/// Whether one of the steps has no packed layout.
pub open spec fn some_unpacked(steps: Seq<TraceStep>) -> bool {
    exists|i: int| 0 <= i < steps.len() && (#[trigger] steps[i]).packed_begin is None
}

/// The steps with the times at which they were packed.
pub open spec fn packed_entries(steps: Seq<TraceStep>) -> Seq<TimelineEntry> {
    Seq::new(
        steps.len(),
        |i: int|
            TimelineEntry {
                timestamp_ns: (steps[i].packed_begin->0).timestamp_ns,
                step_index: i as usize,
            },
    )
}

/// Whether the entries stand in strictly increasing order of time.
pub open spec fn in_sequence(timeline: Seq<TimelineEntry>) -> bool {
    forall|i: int, j: int|
        0 <= i < j < timeline.len() ==> (#[trigger] timeline[i]).timestamp_ns < (
        #[trigger] timeline[j]).timestamp_ns
}

/// Why there is no timeline.
#[derive(Clone, Copy, Debug, PartialEq, Eq, Structural)]
pub enum TimelineError {
    MissingLayout,
    NotIncreasing,
}

/// The timeline of a trace: its steps in the order in which they were packed.
pub open spec fn timeline_of(steps: Seq<TraceStep>) -> Result<Seq<TimelineEntry>, TimelineError> {
    if some_unpacked(steps) {
        Err(TimelineError::MissingLayout)
    } else if !in_sequence(arranged(packed_entries(steps))) {
        Err(TimelineError::NotIncreasing)
    } else {
        Ok(arranged(packed_entries(steps)))
    }
}

/// Whether the timeline is one of the steps.
pub open spec fn timeline_fits(timeline: Seq<TimelineEntry>, steps: Seq<TraceStep>) -> bool {
    &&& in_sequence(timeline)
    &&& forall|i: int|
        0 <= i < timeline.len() ==> (#[trigger] timeline[i]).step_index < steps.len()
}

/// The steps in the order in which they were packed.
pub fn packed_timeline(steps: &[TraceStep]) -> (r: Result<Vec<TimelineEntry>, TimelineError>)
    ensures
        match (r, timeline_of(steps@)) {
            (Ok(timeline), Ok(expected)) => timeline@ == expected && timeline_fits(
                timeline@,
                steps@,
            ),
            (Err(error), Err(expected)) => error == expected,
            _ => false,
        },
{
    let mut entries: Vec<TimelineEntry> = Vec::new();
    let mut i: usize = 0;
    while i < steps.len()
        invariant
            i <= steps.len(),
            forall|k: int| 0 <= k < i ==> (#[trigger] steps@[k]).packed_begin is Some,
            entries@ == packed_entries(steps@).take(i as int),
        decreases steps.len() - i,
    {
        match steps[i].packed_begin {
            Some(packed) => {
                entries.push(TimelineEntry { timestamp_ns: packed.timestamp_ns, step_index: i });
            },
            None => {
                assert(steps@[i as int].packed_begin is None);
                return Err(TimelineError::MissingLayout);
            },
        }
        assert(packed_entries(steps@).take(i + 1) =~= packed_entries(steps@).take(i as int).push(
            packed_entries(steps@)[i as int],
        ));
        i += 1;
    }
    assert(packed_entries(steps@).take(steps@.len() as int) =~= packed_entries(steps@));
    let timeline = arrange(entries);
    let mut i: usize = 1;
    while i < timeline.len()
        invariant
            timeline.len() == 0 || i <= timeline.len(),
            1 <= i,
            timeline@ == arranged(packed_entries(steps@)),
            sorted(timeline@),
            !some_unpacked(steps@),
            forall|k: int|
                0 < k < i ==> timeline@[k - 1].timestamp_ns < (#[trigger] timeline@[k]).timestamp_ns,
        decreases timeline.len() - i,
    {
        if timeline[i - 1].timestamp_ns >= timeline[i].timestamp_ns {
            assert(!in_sequence(timeline@)) by {
                assert(timeline@[i - 1].timestamp_ns >= timeline@[i as int].timestamp_ns);
            }
            return Err(TimelineError::NotIncreasing);
        }
        i += 1;
    }
    proof {
        assert forall|a: int, b: int| 0 <= a < b < timeline@.len() implies (
        #[trigger] timeline@[a]).timestamp_ns < (#[trigger] timeline@[b]).timestamp_ns by {
            assert(timeline@[b - 1].timestamp_ns < timeline@[b].timestamp_ns);
            assert(timeline@[a].before(timeline@[b - 1])) by {
                if a < b - 1 {
                    assert(sorted(timeline@));
                }
            }
        }
        let entries_of = packed_entries(steps@);
        timeline@.to_multiset_ensures();
        entries_of.to_multiset_ensures();
        assert(arranges(entries_of, timeline@));
        assert forall|k: int| 0 <= k < timeline@.len() implies (
        #[trigger] timeline@[k]).step_index < steps@.len() by {
            assert(timeline@.contains(timeline@[k]));
            assert(timeline@.to_multiset().count(timeline@[k]) > 0);
            assert(entries_of.contains(timeline@[k]));
            let m = choose|m: int| 0 <= m < entries_of.len() && entries_of[m] == timeline@[k];
            assert(steps.len() == steps@.len());
        }
    }
    Ok(timeline)
}

/// How many entries lie at or before the moment.
pub open spec fn entries_until(timeline: Seq<TimelineEntry>, timestamp_ns: u64) -> nat
    decreases timeline.len(),
{
    if timeline.len() == 0 {
        0
    } else if timeline.last().timestamp_ns <= timestamp_ns {
        timeline.len()
    } else {
        entries_until(timeline.drop_last(), timestamp_ns)
    }
}

proof fn entries_until_is(timeline: Seq<TimelineEntry>, timestamp_ns: u64, n: int)
    requires
        0 <= n <= timeline.len(),
        n > 0 ==> timeline[n - 1].timestamp_ns <= timestamp_ns,
        forall|k: int| n <= k < timeline.len() ==> (#[trigger] timeline[k]).timestamp_ns > timestamp_ns,
    ensures
        entries_until(timeline, timestamp_ns) == n,
    decreases timeline.len(),
{
    if n < timeline.len() {
        assert(timeline[timeline.len() - 1].timestamp_ns > timestamp_ns);
        assert forall|k: int| n <= k < timeline.drop_last().len() implies (
        #[trigger] timeline.drop_last()[k]).timestamp_ns > timestamp_ns by {
            assert(timeline[k].timestamp_ns > timestamp_ns);
        }
        entries_until_is(timeline.drop_last(), timestamp_ns, n);
    }
}

/// How many entries lie at or before the moment.
fn count_until(timeline: &[TimelineEntry], timestamp_ns: u64) -> (n: usize)
    requires
        in_sequence(timeline@),
    ensures
        n == entries_until(timeline@, timestamp_ns),
        n <= timeline@.len(),
{
    let mut low: usize = 0;
    let mut high: usize = timeline.len();
    while low < high
        invariant
            low <= high <= timeline.len(),
            in_sequence(timeline@),
            low > 0 ==> timeline@[low - 1].timestamp_ns <= timestamp_ns,
            forall|k: int|
                high <= k < timeline@.len() ==> (#[trigger] timeline@[k]).timestamp_ns
                    > timestamp_ns,
        decreases high - low,
    {
        let middle: usize = low + (high - low) / 2;
        if timeline[middle].timestamp_ns <= timestamp_ns {
            low = middle + 1;
        } else {
            assert forall|k: int| middle <= k < timeline@.len() implies (
            #[trigger] timeline@[k]).timestamp_ns > timestamp_ns by {
                if middle < k {
                    assert(timeline@[middle as int].timestamp_ns < timeline@[k].timestamp_ns);
                }
            }
            high = middle;
        }
    }
    proof {
        entries_until_is(timeline@, timestamp_ns, low as int);
    }
    low
}

/// The step that was packed last before the moment, if it had not ended.
pub open spec fn step_in_window(
    timestamp_ns: u64,
    steps: Seq<TraceStep>,
    timeline: Seq<TimelineEntry>,
) -> Option<int> {
    let n = entries_until(timeline, timestamp_ns);
    if n == 0 {
        None
    } else {
        let index = timeline[n - 1].step_index as int;
        if timestamp_ns <= steps[index].end_timestamp_ns {
            Some(index)
        } else {
            None
        }
    }
}

/// The step that was packed last before the moment, if it had not ended.
pub fn step_for_packed_timestamp(
    timestamp_ns: u64,
    steps: &[TraceStep],
    timeline: &[TimelineEntry],
) -> (r: Option<usize>)
    requires
        timeline_fits(timeline@, steps@),
    ensures
        step_in_window(timestamp_ns, steps@, timeline@) == match r {
            Some(i) => Some(i as int),
            None => None,
        },
        r matches Some(i) ==> i < steps@.len(),
{
    let n: usize = count_until(timeline, timestamp_ns);
    if n == 0 {
        return None;
    }
    let index: usize = timeline[n - 1].step_index;
    assert(timeline@[n - 1].step_index < steps@.len());
    if timestamp_ns <= steps[index].end_timestamp_ns {
        Some(index)
    } else {
        None
    }
}

/// The step that a stretch of time belongs to, and whether the stretch runs
/// into the window of the next step.
pub open spec fn step_of_stretch(
    first_ns: u64,
    last_ns: u64,
    steps: Seq<TraceStep>,
    timeline: Seq<TimelineEntry>,
) -> (Option<int>, bool) {
    let n = entries_until(timeline, first_ns);
    if n == 0 {
        (None, false)
    } else if n < timeline.len() && timeline[n as int].timestamp_ns <= last_ns {
        (None, true)
    } else {
        let index = timeline[n - 1].step_index as int;
        (
            if last_ns <= steps[index].end_timestamp_ns {
                Some(index)
            } else {
                None
            },
            false,
        )
    }
}

/// The step that a stretch of time belongs to, and whether the stretch runs
/// into the window of the next step.
pub fn step_for_replay(
    first_ns: u64,
    last_ns: u64,
    steps: &[TraceStep],
    timeline: &[TimelineEntry],
) -> (r: (Option<usize>, bool))
    requires
        timeline_fits(timeline@, steps@),
    ensures
        step_of_stretch(first_ns, last_ns, steps@, timeline@) == (
            match r.0 {
                Some(i) => Some(i as int),
                None => None,
            },
            r.1,
        ),
        r.0 matches Some(i) ==> i < steps@.len(),
{
    let n: usize = count_until(timeline, first_ns);
    if n == 0 {
        return (None, false);
    }
    if n < timeline.len() && timeline[n].timestamp_ns <= last_ns {
        return (None, true);
    }
    let index: usize = timeline[n - 1].step_index;
    assert(timeline@[n - 1].step_index < steps@.len());
    if last_ns <= steps[index].end_timestamp_ns {
        (Some(index), false)
    } else {
        (None, false)
    }
}

// The decode suffix.

/// When the last step with prefill work was packed.
pub open spec fn last_prefill(steps: Seq<TraceStep>) -> Option<u64>
    decreases steps.len(),
{
    if steps.len() == 0 {
        None
    } else {
        let before = last_prefill(steps.drop_last());
        match steps.last().packed_begin {
            Some(packed) if steps.last().begin.prefill_tokens != 0 => match before {
                Some(time) if time > packed.timestamp_ns => before,
                _ => Some(packed.timestamp_ns),
            },
            _ => before,
        }
    }
}

/// Whether the step only decodes and was packed after the moment.
pub open spec fn decodes_after(step: TraceStep, time: u64) -> bool {
    &&& (step.packed_begin->0).timestamp_ns > time
    &&& step.begin.prefill_tokens == 0
    &&& step.begin.decode_tokens != 0
}

/// The steps that only decode and were packed after the moment.
pub open spec fn decoding_after(steps: Seq<TraceStep>, time: u64) -> Seq<usize>
    decreases steps.len(),
{
    if steps.len() == 0 {
        Seq::empty()
    } else {
        let front = decoding_after(steps.drop_last(), time);
        if decodes_after(steps.last(), time) {
            front.push((steps.len() - 1) as usize)
        } else {
            front
        }
    }
}

/// The steps that decode after the last prefill.
pub open spec fn suffix_of(steps: Seq<TraceStep>) -> Result<Seq<usize>, Seq<char>> {
    match last_prefill(steps) {
        None => Err("semantic trace contains no prefill step"@),
        Some(time) => if some_unpacked(steps) {
            Err("step is missing packed layout"@)
        } else if decoding_after(steps, time).len() == 0 {
            Err("decode suffix after the final prefill is empty"@)
        } else {
            Ok(decoding_after(steps, time))
        },
    }
}

/// The steps that decode after the last prefill.
pub fn decode_suffix(steps: &[TraceStep]) -> (r: Result<Vec<usize>, &'static str>)
    ensures
        match (r, suffix_of(steps@)) {
            (Ok(suffix), Ok(expected)) => suffix@ == expected,
            (Err(error), Err(expected)) => error@ == expected,
            _ => false,
        },
        r matches Ok(suffix) ==> forall|k: int|
            0 <= k < suffix@.len() ==> (#[trigger] suffix@[k]) < steps@.len(),
{
    let mut last: Option<u64> = None;
    let mut i: usize = 0;
    assert(steps@.take(0) =~= Seq::<TraceStep>::empty());
    while i < steps.len()
        invariant
            i <= steps.len(),
            last == last_prefill(steps@.take(i as int)),
        decreases steps.len() - i,
    {
        assert(steps@.take(i + 1).drop_last() =~= steps@.take(i as int));
        if steps[i].begin.prefill_tokens != 0 {
            if let Some(packed) = steps[i].packed_begin {
                last = match last {
                    Some(time) => if time > packed.timestamp_ns {
                        Some(time)
                    } else {
                        Some(packed.timestamp_ns)
                    },
                    None => Some(packed.timestamp_ns),
                };
            }
        }
        i += 1;
    }
    assert(steps@.take(steps@.len() as int) =~= steps@);
    let time: u64 = match last {
        Some(time) => time,
        None => {
            return Err("semantic trace contains no prefill step");
        },
    };
    let mut suffix: Vec<usize> = Vec::new();
    let mut i: usize = 0;
    while i < steps.len()
        invariant
            i <= steps.len(),
            last_prefill(steps@) == Some(time),
            forall|k: int| 0 <= k < i ==> (#[trigger] steps@[k]).packed_begin is Some,
            suffix@ == decoding_after(steps@.take(i as int), time),
            forall|k: int| 0 <= k < suffix@.len() ==> (#[trigger] suffix@[k]) < steps@.len(),
        decreases steps.len() - i,
    {
        assert(steps@.take(i + 1).drop_last() =~= steps@.take(i as int));
        match steps[i].packed_begin {
            None => {
                assert(steps@[i as int].packed_begin is None);
                return Err("step is missing packed layout");
            },
            Some(packed) => {
                if packed.timestamp_ns > time && steps[i].begin.prefill_tokens == 0
                    && steps[i].begin.decode_tokens != 0 {
                    suffix.push(i);
                }
            },
        }
        i += 1;
    }
    assert(steps@.take(steps@.len() as int) =~= steps@);
    if suffix.len() == 0 {
        return Err("decode suffix after the final prefill is empty");
    }
    Ok(suffix)
}

} // verus!
