//! What the view of a function means, in terms of the samples that were kept.

use crate::deep_replay::{
    first_absent, hits_of, hits_on, increasing, sampled_count, section_of, view_is, view_problem,
    FunctionView, SampledInstruction,
};
use crate::sanitizer::{Function, Hit};
use crate::sass::SectionModel;
use crate::sums::{count_of, counts_fit, sum_of};
use vstd::prelude::*;

verus! {

proof fn hits_are_counted(hits: Seq<Hit>, n: int, slot: u32)
    requires
        0 <= n <= hits.len(),
    ensures
        hits_of(hits, n, slot) == count_of(hits.take(n), |h: Hit| h.slot == slot),
    decreases n,
{
    if n > 0 {
        hits_are_counted(hits, n - 1, slot);
        assert(hits.take(n).drop_last() =~= hits.take(n - 1));
        assert(hits.take(n).last() == hits[n - 1]);
    }
}

proof fn hits_on_are_counted(hits: Seq<Hit>, n: int, slot: u32, offset: u64)
    requires
        0 <= n <= hits.len(),
    ensures
        hits_on(hits, n, slot, offset) == count_of(
            hits.take(n),
            |h: Hit| h.slot == slot && h.offset == offset,
        ),
    decreases n,
{
    if n > 0 {
        hits_on_are_counted(hits, n - 1, slot, offset);
        assert(hits.take(n).drop_last() =~= hits.take(n - 1));
        assert(hits.take(n).last() == hits[n - 1]);
    }
}

proof fn sampled_are_counted(list: Seq<SampledInstruction>, n: int)
    requires
        0 <= n <= list.len(),
    ensures
        sampled_count(list, n) == count_of(list.take(n), |x: SampledInstruction| x.samples > 0),
    decreases n,
{
    if n > 0 {
        sampled_are_counted(list, n - 1);
        assert(list.take(n).drop_last() =~= list.take(n - 1));
        assert(list.take(n).last() == list[n - 1]);
    }
}

proof fn among_is_the_sum(
    hits: Seq<Hit>,
    slot: u32,
    list: Seq<crate::sass::Instruction>,
    rows: Seq<SampledInstruction>,
    m: int,
)
    requires
        0 <= m <= list.len(),
        rows.len() == list.len(),
        forall|i: int|
            0 <= i < rows.len() ==> (#[trigger] rows[i]).samples == hits_on(
                hits,
                hits.len() as int,
                slot,
                list[i].offset,
            ),
    ensures
        crate::deep_replay::hits_among(hits, hits.len() as int, slot, list, m) == sum_of(
            rows.take(m),
            |x: SampledInstruction| x.samples as int,
        ),
    decreases m,
{
    if m > 0 {
        among_is_the_sum(hits, slot, list, rows, m - 1);
        assert(rows.take(m).drop_last() =~= rows.take(m - 1));
        assert(rows.take(m).last() == rows[m - 1]);
    }
}

/// The view of a function tells the samples of the function's own slot. They are
/// as many as the function's counters tell, each instruction has those of its own
/// offset, and together the instructions have them all.
pub proof fn view_shares_out_the_samples(
    view: FunctionView,
    function: Function,
    name: Seq<u8>,
    hits: Seq<Hit>,
    all: Seq<Seq<u8>>,
    sections: Seq<SectionModel>,
)
    requires
        hits.len() <= u64::MAX,
        view_problem(function, name, hits, all, sections) is None,
        view_is(view, function, name, hits, all, sections),
    ensures
        view.function == function,
        view.callback_count == count_of(hits, |h: Hit| h.slot == function.slot),
        view.callback_count == function.callbacks && view.callback_count == function.emitted,
        section_of(all, sections, name) matches Ok(k) && {
            let list = sections[k].instructions;
            &&& view.sass@.len() == list.len()
            &&& forall|i: int|
                0 <= i < list.len() ==> (#[trigger] view.sass@[i]).offset == list[i].offset
                    && view.sass@[i].line == list[i].line
            &&& increasing(list) ==> sum_of(
                view.sass@,
                |x: SampledInstruction| x.samples as int,
            ) == view.callback_count
        },
        view.sampled_pc_count == count_of(view.sass@, |x: SampledInstruction| x.samples > 0),
        forall|i: int|
            0 <= i < view.sass@.len() ==> tells_of_its_offset(
                #[trigger] view.sass@[i],
                hits,
                function.slot,
            ),
{
    let n = hits.len() as int;
    let slot = function.slot;
    assert(hits.take(n) =~= hits);
    hits_are_counted(hits, n, slot);
    let k = section_of(all, sections, name)->Ok_0;
    let list = sections[k].instructions;
    let rows = view.sass@;
    assert forall|i: int| 0 <= i < rows.len() implies tells_of_its_offset(
        #[trigger] rows[i],
        hits,
        slot,
    ) && rows[i].samples == hits_on(hits, n, slot, list[i].offset) by {
        let offset = list[i].offset;
        hits_on_are_counted(hits, n, slot, offset);
        counts_fit(hits, |h: Hit| h.slot == slot && h.offset == offset);
    }
    sampled_are_counted(rows, rows.len() as int);
    assert(rows.take(rows.len() as int) =~= rows);
    if increasing(list) {
        assert(first_absent(hits, n, slot, list) is None);
        crate::deep_replay::samples_add_up(hits, n, slot, list);
        among_is_the_sum(hits, slot, list, rows, list.len() as int);
    }
}

/// Whether the instruction has the samples of its own offset.
pub open spec fn tells_of_its_offset(x: SampledInstruction, hits: Seq<Hit>, slot: u32) -> bool {
    let offset = x.offset;
    x.samples == count_of(hits, |h: Hit| h.slot == slot && h.offset == offset)
}

} // verus!
