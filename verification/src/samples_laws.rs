//! What a join of instruction samples means: whose samples are whose, and what
//! the rows of a request and of an instruction add up.

use crate::deep_replay::has_offset;
use crate::index::{row_with, Identified};
use crate::order::{arranged, arrangement_exists, sorted, Keyed};
use crate::ownership::{OwnershipSlice, TraceStep};
use crate::blocks::step_owners;
use crate::samples::{last_begun, last_slice, SampleEvent};
use crate::samples_join::{
    fate_of, launch_sampled, launch_step, of_row, pc_rows, pc_singles, request_rows,
    sampled_launches, with_sample, OwnedSample, PcRow, RequestRow, SampleFate, SampleJoin,
    SampledLaunch, MAX_SAMPLES,
};
use crate::sums::{count_of, sum_ignores_order, sum_of};
use vstd::prelude::*;

verus! {

// Rows of requests.

/// Whether the sample is of the row's request, phase and step.
pub open spec fn belongs_to(x: OwnedSample, step: u64, request: u64, phase: u8) -> bool {
    x.step_id == step && x.request_id == request && x.phase == phase
}

/// How many of the samples are of the row's, and of the kind.
pub open spec fn of_kind(s: Seq<OwnedSample>, r: RequestRow, kind: u16) -> int {
    let (step, request, phase) = (r.step_id, r.request_id, r.phase);
    count_of(s, |x: OwnedSample| belongs_to(x, step, request, phase) && x.kind == kind)
}

/// Whether the row adds up exactly the samples that are the row's.
pub open spec fn adds_up(r: RequestRow, s: Seq<OwnedSample>) -> bool {
    let (step, request, phase) = (r.step_id, r.request_id, r.phase);
    &&& r.samples == count_of(s, |x: OwnedSample| belongs_to(x, step, request, phase))
    &&& r.sampled_bytes == sum_of(
        s,
        |x: OwnedSample|
            if belongs_to(x, step, request, phase) {
                x.access_size as int
            } else {
                0
            },
    )
    &&& r.global_reads == of_kind(s, r, 2)
    &&& r.global_writes == of_kind(s, r, 3)
    &&& r.shared_reads == of_kind(s, r, 4)
    &&& r.shared_writes == of_kind(s, r, 5)
    &&& r.local_reads == of_kind(s, r, 6)
    &&& r.local_writes == of_kind(s, r, 7)
    &&& r.barriers == of_kind(s, r, 8)
}

/// Whether the row comes before the other.
pub open spec fn row_before(a: RequestRow, b: RequestRow) -> bool {
    a.step_id < b.step_id || a.step_id == b.step_id && (a.request_id < b.request_id || a.request_id
        == b.request_id && a.phase < b.phase)
}

spec fn fits(r: RequestRow, n: int) -> bool {
    &&& r.samples <= n && r.sampled_bytes <= 65535 * n
    &&& r.global_reads <= n && r.global_writes <= n
    &&& r.shared_reads <= n && r.shared_writes <= n
    &&& r.local_reads <= n && r.local_writes <= n
    &&& r.barriers <= n
}

proof fn one_more_sample(r: RequestRow, s: Seq<OwnedSample>)
    requires
        s.len() > 0,
        s.len() <= MAX_SAMPLES,
        adds_up(r, s.drop_last()),
        fits(r, s.len() - 1),
    ensures
        belongs_to(s.last(), r.step_id, r.request_id, r.phase) ==> adds_up(
            with_sample(r, s.last()),
            s,
        ) && fits(with_sample(r, s.last()), s.len() as int),
        !belongs_to(s.last(), r.step_id, r.request_id, r.phase) ==> adds_up(r, s),
{
}

proof fn nothing_adds_up(r: RequestRow, s: Seq<OwnedSample>)
    requires
        r.samples == 0 && r.sampled_bytes == 0,
        r.global_reads == 0 && r.global_writes == 0,
        r.shared_reads == 0 && r.shared_writes == 0,
        r.local_reads == 0 && r.local_writes == 0 && r.barriers == 0,
        forall|i: int|
            0 <= i < s.len() ==> !belongs_to(#[trigger] s[i], r.step_id, r.request_id, r.phase),
    ensures
        adds_up(r, s),
    decreases s.len(),
{
    if s.len() > 0 {
        let front = s.drop_last();
        assert forall|i: int| 0 <= i < front.len() implies !belongs_to(
            #[trigger] front[i],
            r.step_id,
            r.request_id,
            r.phase,
        ) by {
            assert(front[i] == s[i]);
        }
        nothing_adds_up(r, front);
        assert(!belongs_to(s[s.len() - 1], r.step_id, r.request_id, r.phase));
    }
}

spec fn rows_add_up(rows: Seq<RequestRow>, s: Seq<OwnedSample>) -> bool {
    &&& forall|k: int|
        0 <= k < rows.len() ==> adds_up(#[trigger] rows[k], s) && fits(rows[k], s.len() as int)
            && rows[k].samples > 0
    &&& forall|k: int, m: int|
        0 <= k < m < rows.len() ==> row_before(#[trigger] rows[k], #[trigger] rows[m])
    &&& s.len() > 0 ==> rows.len() > 0 && belongs_to(
        s.last(),
        rows.last().step_id,
        rows.last().request_id,
        rows.last().phase,
    )
    &&& s.len() == 0 ==> rows.len() == 0
    &&& sum_of(rows, |r: RequestRow| r.samples as int) == s.len()
}

proof fn request_rows_add_up(s: Seq<OwnedSample>)
    requires
        sorted(s),
        s.len() <= MAX_SAMPLES,
    ensures
        rows_add_up(request_rows(s), s),
    decreases s.len(),
{
    let rows = request_rows(s);
    if s.len() > 0 {
        let front = s.drop_last();
        assert(sorted(front)) by {
            assert forall|i: int, j: int| 0 <= i <= j < front.len() implies
                #[trigger] front[i].before(#[trigger] front[j]) by {
                assert(s[i].before(s[j]));
            }
        }
        request_rows_add_up(front);
        let old_rows = request_rows(front);
        let x = s.last();
        let last = old_rows.len() - 1;
        if front.len() > 0 {
            assert(front.last() == s[s.len() - 2]);
            assert(s[s.len() - 2].before(s[s.len() - 1]));
        }
        assert forall|k: int| 0 <= k < old_rows.len() implies (adds_up(
            #[trigger] old_rows[k],
            s,
        ) || belongs_to(x, old_rows[k].step_id, old_rows[k].request_id, old_rows[k].phase)) && (
        belongs_to(x, old_rows[k].step_id, old_rows[k].request_id, old_rows[k].phase) ==> k
            == last) by {
            one_more_sample(old_rows[k], s);
            if k < last {
                assert(row_before(old_rows[k], old_rows[last]));
            }
        }
        if old_rows.len() > 0 && of_row(old_rows.last(), x) {
            one_more_sample(old_rows.last(), s);
            let next = with_sample(old_rows.last(), x);
            assert(rows == old_rows.drop_last().push(next));
            assert(rows.drop_last() =~= old_rows.drop_last());
            assert forall|k: int, m: int| 0 <= k < m < rows.len() implies row_before(
                #[trigger] rows[k],
                #[trigger] rows[m],
            ) by {
                assert(row_before(old_rows[k], old_rows[m]));
            }
            assert forall|k: int| 0 <= k < rows.len() implies adds_up(#[trigger] rows[k], s)
                && fits(rows[k], s.len() as int) && rows[k].samples > 0 by {
                if k < last {
                    assert(rows[k] == old_rows[k]);
                }
            }
        } else {
            let empty = crate::samples_join::empty_row(x);
            assert forall|i: int| 0 <= i < front.len() implies !belongs_to(
                #[trigger] front[i],
                empty.step_id,
                empty.request_id,
                empty.phase,
            ) by {
                assert(front[i] == s[i]);
                assert(s[i].before(s[s.len() - 2]));
            }
            nothing_adds_up(empty, front);
            one_more_sample(empty, s);
            let next = with_sample(empty, x);
            assert(rows == old_rows.push(next));
            assert(rows.drop_last() =~= old_rows);
            assert forall|k: int, m: int| 0 <= k < m < rows.len() implies row_before(
                #[trigger] rows[k],
                #[trigger] rows[m],
            ) by {
                if m < old_rows.len() {
                    assert(row_before(old_rows[k], old_rows[m]));
                } else if k < last {
                    assert(row_before(old_rows[k], old_rows[last]));
                }
            }
            assert forall|k: int| 0 <= k < rows.len() implies adds_up(#[trigger] rows[k], s)
                && fits(rows[k], s.len() as int) && rows[k].samples > 0 by {
                if k < old_rows.len() {
                    assert(rows[k] == old_rows[k]);
                }
            }
        }
    }
}

proof fn adding_up_ignores_order(r: RequestRow, s: Seq<OwnedSample>, t: Seq<OwnedSample>)
    requires
        s.to_multiset() == t.to_multiset(),
        adds_up(r, t),
    ensures
        adds_up(r, s),
{
    let (step, request, phase) = (r.step_id, r.request_id, r.phase);
    same_count(s, t, |x: OwnedSample| belongs_to(x, step, request, phase));
    sum_ignores_order(
        s,
        t,
        |x: OwnedSample|
            if belongs_to(x, step, request, phase) {
                x.access_size as int
            } else {
                0
            },
    );
    same_kind(r, s, t, 2);
    same_kind(r, s, t, 3);
    same_kind(r, s, t, 4);
    same_kind(r, s, t, 5);
    same_kind(r, s, t, 6);
    same_kind(r, s, t, 7);
    same_kind(r, s, t, 8);
}

proof fn same_kind(r: RequestRow, s: Seq<OwnedSample>, t: Seq<OwnedSample>, kind: u16)
    requires
        s.to_multiset() == t.to_multiset(),
    ensures
        of_kind(s, r, kind) == of_kind(t, r, kind),
{
    let (step, request, phase) = (r.step_id, r.request_id, r.phase);
    same_count(
        s,
        t,
        |x: OwnedSample| belongs_to(x, step, request, phase) && x.kind == kind,
    );
}

proof fn same_count(s: Seq<OwnedSample>, t: Seq<OwnedSample>, p: spec_fn(OwnedSample) -> bool)
    requires
        s.to_multiset() == t.to_multiset(),
    ensures
        count_of(s, p) == count_of(t, p),
{
    sum_ignores_order(
        s,
        t,
        |x: OwnedSample|
            if p(x) {
                1
            } else {
                0
            },
    );
}

/// The rows of a join share out the samples by step, request and phase: each adds
/// up exactly its own, no two are of the same, and together they have them all.
pub proof fn rows_share_out_the_samples(owned: Seq<OwnedSample>)
    requires
        owned.len() <= MAX_SAMPLES,
    ensures
        ({
            let rows = request_rows(arranged(owned));
            &&& forall|k: int| 0 <= k < rows.len() ==> adds_up(#[trigger] rows[k], owned)
            &&& forall|k: int, m: int|
                0 <= k < m < rows.len() ==> row_before(#[trigger] rows[k], #[trigger] rows[m])
            &&& sum_of(rows, |r: RequestRow| r.samples as int) == owned.len()
        }),
{
    let t = arranged(owned);
    arrangement_exists(owned);
    owned.to_multiset_ensures();
    t.to_multiset_ensures();
    request_rows_add_up(t);
    let rows = request_rows(t);
    assert forall|k: int| 0 <= k < rows.len() implies adds_up(#[trigger] rows[k], owned) by {
        adding_up_ignores_order(rows[k], owned, t);
    }
}

// Moments of a row.

proof fn row_spans(s: Seq<OwnedSample>)
    requires
        sorted(s),
        s.len() <= MAX_SAMPLES,
        forall|i: int| 0 <= i < s.len() ==> (#[trigger] s[i]).timestamp > 0,
    ensures
        forall|k: int|
            0 <= k < request_rows(s).len() ==> spans_its_samples(#[trigger] request_rows(s)[k], s),
    decreases s.len(),
{
    if s.len() > 0 {
        let front = s.drop_last();
        assert(sorted(front)) by {
            assert forall|i: int, j: int| 0 <= i <= j < front.len() implies
                #[trigger] front[i].before(#[trigger] front[j]) by {
                assert(s[i].before(s[j]));
            }
        }
        assert forall|i: int| 0 <= i < front.len() implies (#[trigger] front[i]).timestamp > 0 by {
            assert(front[i] == s[i]);
        }
        row_spans(front);
        request_rows_add_up(front);
        request_rows_add_up(s);
        let old_rows = request_rows(front);
        let rows = request_rows(s);
        let x = s.last();
        let end = s.len() - 1;
        assert(s[end] == x);
        let last = old_rows.len() - 1;
        assert forall|k: int| 0 <= k < rows.len() implies spans_its_samples(
            #[trigger] rows[k],
            s,
        ) by {
            if k < last || k == last && rows.len() > old_rows.len() {
                let r = old_rows[k];
                assert(rows[k] == r);
                if k < rows.len() - 1 {
                    assert(row_before(rows[k], rows[rows.len() - 1]));
                }
                spans_stay(r, s);
            } else if k == last {
                spans_grow(old_rows[k], s);
            } else {
                assert forall|i: int| 0 <= i < end implies !belongs_to(
                    #[trigger] s[i],
                    x.step_id,
                    x.request_id,
                    x.phase,
                ) by {
                    assert(s[i].before(s[end - 1]));
                    assert(front.last() == s[end - 1]);
                    assert(s[end - 1].before(s[end]));
                }
                assert(is_span(rows[k], s, end, end));
            }
        }
    }
}

proof fn spans_stay(r: RequestRow, s: Seq<OwnedSample>)
    requires
        s.len() > 0,
        spans_its_samples(r, s.drop_last()),
        !belongs_to(s.last(), r.step_id, r.request_id, r.phase),
    ensures
        spans_its_samples(r, s),
{
    let front = s.drop_last();
    assert(s[s.len() - 1] == s.last());
    assert forall|i: int| 0 <= i < front.len() implies #[trigger] s[i] == front[i] by {}
    let (a, b) = choose|a: int, b: int| #[trigger] is_span(r, front, a, b);
    assert(is_span(r, s, a, b));
}

proof fn spans_grow(r: RequestRow, s: Seq<OwnedSample>)
    requires
        s.len() > 0,
        spans_its_samples(r, s.drop_last()),
        s.last().timestamp > 0,
        belongs_to(s.last(), r.step_id, r.request_id, r.phase),
    ensures
        spans_its_samples(with_sample(r, s.last()), s),
{
    let front = s.drop_last();
    let end = s.len() - 1;
    assert(s[end] == s.last());
    assert forall|i: int| 0 <= i < front.len() implies #[trigger] s[i] == front[i] by {}
    let (a, b) = choose|a: int, b: int| #[trigger] is_span(r, front, a, b);
    let next = with_sample(r, s.last());
    let c = if next.first_device_timestamp == r.first_device_timestamp {
        a
    } else {
        end
    };
    let d = if next.last_device_timestamp == r.last_device_timestamp {
        b
    } else {
        end
    };
    assert(is_span(next, s, c, d));
}

/// Whether the row's moments are those of the two samples, of which none of the
/// row's own is earlier than the first nor later than the other.
pub open spec fn is_span(r: RequestRow, s: Seq<OwnedSample>, a: int, b: int) -> bool {
    &&& 0 <= a < s.len() && belongs_to(s[a], r.step_id, r.request_id, r.phase)
    &&& 0 <= b < s.len() && belongs_to(s[b], r.step_id, r.request_id, r.phase)
    &&& r.first_device_timestamp == s[a].timestamp && r.first_device_timestamp > 0
    &&& r.last_device_timestamp == s[b].timestamp
    &&& forall|i: int|
        0 <= i < s.len() && belongs_to(#[trigger] s[i], r.step_id, r.request_id, r.phase)
            ==> r.first_device_timestamp <= s[i].timestamp <= r.last_device_timestamp
}

/// Whether the row reaches from the first of its samples to the last.
pub open spec fn spans_its_samples(r: RequestRow, s: Seq<OwnedSample>) -> bool {
    exists|a: int, b: int| #[trigger] is_span(r, s, a, b)
}

/// A row reaches from the first of its samples to the last, where the device's
/// clock had started.
pub proof fn row_reaches_from_first_to_last(owned: Seq<OwnedSample>, k: int)
    requires
        owned.len() <= MAX_SAMPLES,
        forall|i: int| 0 <= i < owned.len() ==> (#[trigger] owned[i]).timestamp > 0,
        0 <= k < request_rows(arranged(owned)).len(),
    ensures
        spans_its_samples(request_rows(arranged(owned))[k], owned),
{
    let t = arranged(owned);
    arrangement_exists(owned);
    owned.to_multiset_ensures();
    t.to_multiset_ensures();
    assert forall|i: int| 0 <= i < t.len() implies (#[trigger] t[i]).timestamp > 0 by {
        let j = same_sample(t, owned, i);
    }
    row_spans(t);
    let r = request_rows(t)[k];
    let (a, b) = choose|a: int, b: int| #[trigger] is_span(r, t, a, b);
    let c = same_sample(t, owned, a);
    let d = same_sample(t, owned, b);
    assert forall|i: int|
        0 <= i < owned.len() && belongs_to(
            #[trigger] owned[i],
            r.step_id,
            r.request_id,
            r.phase,
        ) implies r.first_device_timestamp <= owned[i].timestamp <= r.last_device_timestamp by {
        let j = same_sample(owned, t, i);
        assert(belongs_to(t[j], r.step_id, r.request_id, r.phase));
    }
    assert(is_span(r, owned, c, d));
}

proof fn same_sample(s: Seq<OwnedSample>, t: Seq<OwnedSample>, i: int) -> (j: int)
    requires
        s.to_multiset() == t.to_multiset(),
        0 <= i < s.len(),
    ensures
        0 <= j < t.len(),
        t[j] == s[i],
{
    s.to_multiset_ensures();
    t.to_multiset_ensures();
    assert(s.contains(s[i]));
    assert(t.to_multiset().count(s[i]) > 0);
    choose|j: int| 0 <= j < t.len() && t[j] == s[i]
}

// Rows of instructions.

/// Whether the row counts exactly the samples of its instruction and kind.
pub open spec fn counts_singles(r: PcRow, s: Seq<PcRow>) -> bool {
    let (offset, kind) = (r.offset, r.kind);
    r.samples == count_of(s, |x: PcRow| x.offset == offset && x.kind == kind)
}

/// Whether the row comes before the other.
pub open spec fn pc_before(a: PcRow, b: PcRow) -> bool {
    a.offset < b.offset || a.offset == b.offset && a.kind < b.kind
}

spec fn pc_rows_count(rows: Seq<PcRow>, s: Seq<PcRow>) -> bool {
    &&& forall|k: int|
        0 <= k < rows.len() ==> counts_singles(#[trigger] rows[k], s) && rows[k].samples
            <= s.len()
    &&& forall|k: int, m: int|
        0 <= k < m < rows.len() ==> pc_before(#[trigger] rows[k], #[trigger] rows[m])
    &&& s.len() > 0 ==> rows.len() > 0 && rows.last().offset == s.last().offset
        && rows.last().kind == s.last().kind
    &&& s.len() == 0 ==> rows.len() == 0
    &&& sum_of(rows, |r: PcRow| r.samples as int) == s.len()
}

proof fn none_of_the_kind(s: Seq<PcRow>, offset: u64, kind: u16)
    requires
        forall|i: int|
            0 <= i < s.len() ==> !((#[trigger] s[i]).offset == offset && s[i].kind == kind),
    ensures
        count_of(s, |x: PcRow| x.offset == offset && x.kind == kind) == 0,
    decreases s.len(),
{
    if s.len() > 0 {
        let front = s.drop_last();
        assert forall|i: int| 0 <= i < front.len() implies !((#[trigger] front[i]).offset == offset
            && front[i].kind == kind) by {
            assert(front[i] == s[i]);
        }
        none_of_the_kind(front, offset, kind);
        assert(s[s.len() - 1] == s.last());
    }
}

proof fn pc_rows_add_up(s: Seq<PcRow>)
    requires
        sorted(s),
        s.len() <= MAX_SAMPLES,
    ensures
        pc_rows_count(pc_rows(s), s),
    decreases s.len(),
{
    let rows = pc_rows(s);
    if s.len() > 0 {
        let front = s.drop_last();
        assert(sorted(front)) by {
            assert forall|i: int, j: int| 0 <= i <= j < front.len() implies
                #[trigger] front[i].before(#[trigger] front[j]) by {
                assert(s[i].before(s[j]));
            }
        }
        pc_rows_add_up(front);
        let old_rows = pc_rows(front);
        let x = s.last();
        let last = old_rows.len() - 1;
        if front.len() > 0 {
            assert(front.last() == s[s.len() - 2]);
            assert(s[s.len() - 2].before(s[s.len() - 1]));
        }
        assert forall|k: int| 0 <= k < last implies counts_singles(#[trigger] old_rows[k], s) by {
            assert(pc_before(old_rows[k], old_rows[last]));
        }
        if old_rows.len() > 0 && old_rows.last().offset == x.offset && old_rows.last().kind
            == x.kind {
            assert(rows.drop_last() =~= old_rows.drop_last());
            assert forall|k: int, m: int| 0 <= k < m < rows.len() implies pc_before(
                #[trigger] rows[k],
                #[trigger] rows[m],
            ) by {
                assert(pc_before(old_rows[k], old_rows[m]));
            }
            assert forall|k: int| 0 <= k < rows.len() implies counts_singles(#[trigger] rows[k], s)
                && rows[k].samples <= s.len() by {
                if k < last {
                    assert(rows[k] == old_rows[k]);
                } else {
                    assert(counts_singles(old_rows[last], front));
                }
            }
        } else {
            assert(rows.drop_last() =~= old_rows);
            assert forall|i: int| 0 <= i < front.len() implies !((#[trigger] front[i]).offset
                == x.offset && front[i].kind == x.kind) by {
                assert(front[i] == s[i]);
                assert(s[i].before(s[s.len() - 2]));
            }
            none_of_the_kind(front, x.offset, x.kind);
            assert forall|k: int, m: int| 0 <= k < m < rows.len() implies pc_before(
                #[trigger] rows[k],
                #[trigger] rows[m],
            ) by {
                if m < old_rows.len() {
                    assert(pc_before(old_rows[k], old_rows[m]));
                } else if k < last {
                    assert(pc_before(old_rows[k], old_rows[last]));
                }
            }
            assert forall|k: int| 0 <= k < rows.len() implies counts_singles(#[trigger] rows[k], s)
                && rows[k].samples <= s.len() by {
                if k < old_rows.len() {
                    assert(rows[k] == old_rows[k]);
                    assert(counts_singles(old_rows[k], front));
                }
            }
        }
    }
}

proof fn singles_are_samples(owned: Seq<OwnedSample>, offset: u64, kind: u16)
    ensures
        count_of(pc_singles(owned), |x: PcRow| x.offset == offset && x.kind == kind) == count_of(
            owned,
            |x: OwnedSample| x.offset == offset && x.kind == kind,
        ),
    decreases owned.len(),
{
    if owned.len() > 0 {
        singles_are_samples(owned.drop_last(), offset, kind);
        assert(pc_singles(owned).drop_last() =~= pc_singles(owned.drop_last()));
    }
}

/// The rows of instructions share out the samples by instruction and kind: each
/// counts exactly its own, no two are of the same, and together they have them
/// all.
pub proof fn instructions_share_out_the_samples(owned: Seq<OwnedSample>, k: int)
    requires
        owned.len() <= MAX_SAMPLES,
        0 <= k < pc_rows(arranged(pc_singles(owned))).len(),
    ensures
        ({
            let rows = pc_rows(arranged(pc_singles(owned)));
            let (offset, kind) = (rows[k].offset, rows[k].kind);
            &&& rows[k].samples == count_of(
                owned,
                |x: OwnedSample| x.offset == offset && x.kind == kind,
            )
            &&& forall|m: int| k < m < rows.len() ==> pc_before(rows[k], #[trigger] rows[m])
            &&& sum_of(rows, |r: PcRow| r.samples as int) == owned.len()
        }),
{
    let s = pc_singles(owned);
    let t = arranged(s);
    arrangement_exists(s);
    s.to_multiset_ensures();
    t.to_multiset_ensures();
    pc_rows_add_up(t);
    let rows = pc_rows(t);
    let (offset, kind) = (rows[k].offset, rows[k].kind);
    assert(counts_singles(rows[k], t));
    sum_ignores_order(
        s,
        t,
        |x: PcRow|
            if x.offset == offset && x.kind == kind {
                1
            } else {
                0
            },
    );
    let p = |x: PcRow| x.offset == offset && x.kind == kind;
    single_counts_agree(s, t, p);
    singles_are_samples(owned, offset, kind);
}

proof fn single_counts_agree(s: Seq<PcRow>, t: Seq<PcRow>, p: spec_fn(PcRow) -> bool)
    requires
        s.to_multiset() == t.to_multiset(),
    ensures
        count_of(s, p) == count_of(t, p),
{
    sum_ignores_order(
        s,
        t,
        |x: PcRow|
            if p(x) {
                1
            } else {
                0
            },
    );
}

// Whose a sample is.

proof fn found_row<T: Identified>(rows: Seq<T>, id: u64) -> (k: int)
    requires
        row_with(rows, id) is Some,
    ensures
        0 <= k < rows.len(),
        rows[k].spec_id() == id,
        row_with(rows, id) == Some(rows[k]),
{
    let found = row_with(rows, id)->0;
    choose|k: int|
        0 <= k < rows.len() && (#[trigger] rows[k]).spec_id() == id && rows[k] == found
}

proof fn slice_holds_the_row(owners: Seq<OwnershipSlice>, n: int, row: u32)
    requires
        0 <= n <= owners.len(),
    ensures
        last_slice(owners, n, row) matches Some(i) ==> 0 <= i < n && owners[i].row_begin <= row
            && forall|j: int| i < j < n ==> (#[trigger] owners[j]).row_begin > row,
        last_slice(owners, n, row) is None ==> forall|j: int|
            0 <= j < n ==> (#[trigger] owners[j]).row_begin > row,
    decreases n,
{
    if n > 0 {
        slice_holds_the_row(owners, n - 1, row);
    }
}

/// A sample that is owned was taken by a block of a launch of its step, belongs
/// to the request whose slice holds the block's row, and lies at an instruction of
/// the function. It is orphaned exactly where no launch has its number, and padding
/// only behind the rows of the step.
pub proof fn sample_is_of_the_owner_of_its_row(event: SampleEvent, join: SampleJoin)
    ensures
        fate_of(event, join) == SampleFate::Orphan <==> forall|k: int|
            0 <= k < join.launches.len() ==> (#[trigger] join.launches[k]).launch.launch_id
                != event.launch_id,
        fate_of(event, join) matches SampleFate::Owned(sample) ==> exists|k: int|
            {
                &&& 0 <= k < join.launches.len()
                &&& #[trigger] is_owned_through(event, sample, join, k)
            },
        fate_of(event, join) == SampleFate::Padding ==> exists|k: int|
            {
                &&& 0 <= k < join.launches.len()
                &&& (#[trigger] join.launches[k]).launch.launch_id == event.launch_id
                &&& event.block.x
                    >= join.trace.steps@[join.launches[k].step_index as int].begin.scheduled_tokens
            },
{
    let id = event.launch_id;
    if exists|k: int|
        0 <= k < join.launches.len() && (#[trigger] join.launches[k]).launch.launch_id == id {
        let k = choose|k: int|
            0 <= k < join.launches.len() && (#[trigger] join.launches[k]).launch.launch_id == id;
        assert(join.launches[k].spec_id() == id);
    }
    if row_with(join.launches, id) is Some {
        let k = found_row(join.launches, id);
        assert(join.launches[k].launch.launch_id == id);
        let step = join.trace.steps@[join.launches[k].step_index as int];
        let owners = step_owners(join.trace, step);
        slice_holds_the_row(owners, owners.len() as int, event.block.x);
        if let SampleFate::Owned(sample) = fate_of(event, join) {
            let j = last_slice(owners, owners.len() as int, event.block.x)->0;
            assert(owners[j].row_begin <= event.block.x < owners[j].row_end);
            assert(is_owned_through(event, sample, join, k));
        }
    }
}

/// Whether the sample is of the event, through the launch.
pub open spec fn is_owned_through(
    event: SampleEvent,
    sample: OwnedSample,
    join: SampleJoin,
    k: int,
) -> bool {
    let launch = join.launches[k].launch;
    let step = join.trace.steps@[join.launches[k].step_index as int];
    let owners = join.trace.owners@.subrange(
        step.owner_start as int,
        step.owner_start + step.owner_count,
    );
    &&& launch.launch_id == event.launch_id
    &&& launch.kernel_slot == event.kernel_slot
    &&& event.block.x < launch.grid.x && event.block.y == 0 && event.block.z == 0
    &&& join.function.slot == event.kernel_slot
    &&& join.function.pc + sample.offset == event.pc
    &&& sample.offset < join.function.size
    &&& has_offset(join.instructions, sample.offset)
    &&& sample.step_id == step.begin.step_id
    &&& sample.kind == event.kind && 2 <= event.kind <= 8
    &&& sample.access_size == event.access_size
    &&& sample.timestamp == event.device_timestamp_raw
    &&& exists|j: int|
        0 <= j < owners.len() && (#[trigger] owners[j]).row_begin <= event.block.x
            < owners[j].row_end && owners[j].request_id == sample.request_id && owners[j].phase
            == sample.phase
}

// Launches.

proof fn begun_last(steps: Seq<TraceStep>, n: int, moment: u64)
    requires
        0 <= n <= steps.len(),
    ensures
        last_begun(steps, n, moment) matches Some(i) ==> 0 <= i < n && steps[i].begin.timestamp_ns
            <= moment && forall|j: int| i < j < n ==> (#[trigger] steps[j]).begin.timestamp_ns
            > moment,
        last_begun(steps, n, moment) is None ==> forall|j: int|
            0 <= j < n ==> (#[trigger] steps[j]).begin.timestamp_ns > moment,
    decreases n,
{
    if n > 0 {
        begun_last(steps, n - 1, moment);
    }
}

/// A launch joins the step in which it was made: behind the step's begin and its
/// packed layout and before its end, with a block for each token, and no later
/// step had begun.
pub proof fn launch_joins_its_step(launch: SampledLaunch, steps: Seq<TraceStep>, i: int)
    requires
        launch_step(launch, steps) == Ok::<int, Seq<char>>(i),
    ensures
        0 <= i < steps.len(),
        launch.is_target && launch.grid.y == 1 && launch.grid.z == 1,
        steps[i].packed_begin is Some,
        steps[i].begin.timestamp_ns <= launch.host_timestamp_ns <= steps[i].end_timestamp_ns,
        (steps[i].packed_begin->0).timestamp_ns <= launch.host_timestamp_ns,
        launch.grid.x >= steps[i].begin.scheduled_tokens,
        forall|j: int|
            i < j < steps.len() ==> (#[trigger] steps[j]).begin.timestamp_ns
                > launch.host_timestamp_ns,
{
    begun_last(steps, steps.len() as int, launch.host_timestamp_ns);
}

/// The sampled launches are those of which a sample was taken.
pub proof fn sampled_launches_have_samples(
    launches: Seq<SampledLaunch>,
    n: int,
    events: Seq<SampleEvent>,
)
    requires
        0 <= n <= launches.len(),
    ensures
        sampled_launches(launches, n, events) == count_of(
            launches.take(n),
            |l: SampledLaunch| has_sample(events, l.launch_id),
        ),
    decreases n,
{
    if n > 0 {
        sampled_launches_have_samples(launches, n - 1, events);
        assert(launches.take(n).drop_last() =~= launches.take(n - 1));
        assert(launches.take(n).last() == launches[n - 1]);
        let id = launches[n - 1].launch_id;
        if launch_sampled(events, events.len() as int, id) {
            let i = choose|i: int| 0 <= i < events.len() && (#[trigger] events[i]).launch_id == id;
            assert(has_sample(events, id));
        }
    }
}

/// Whether one of the samples was taken of the launch.
pub open spec fn has_sample(events: Seq<SampleEvent>, launch_id: u64) -> bool {
    exists|i: int| 0 <= i < events.len() && (#[trigger] events[i]).launch_id == launch_id
}

} // verus!
