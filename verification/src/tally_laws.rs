//! What the detector flags, and what a launch does to the tally of the view.

use crate::correlation::{Membership, StepSummary};
use crate::event::RequestPhase;
use crate::policy::{interferes, DetectorConfig};
use crate::ui_state::{launch_recorded, ranks_before, AppState, KernelStat};
use vstd::prelude::*;

verus! {

/// Whether the second step has no fewer prefill tokens than the first, no less
/// busy time, and all that takes part in the first.
pub open spec fn is_at_least(
    step: StepSummary,
    memberships: Seq<Membership>,
    more: StepSummary,
    others: Seq<Membership>,
) -> bool {
    &&& step.prefill_tokens <= more.prefill_tokens
    &&& step.gpu_busy_time_ns <= more.gpu_busy_time_ns
    &&& forall|i: int|
        0 <= i < memberships.len() ==> others.contains(#[trigger] memberships[i])
}

/// A step that is flagged stays flagged with more prefill, more busy time and more
/// company.
pub proof fn flag_stays_with_more(
    config: DetectorConfig,
    step: StepSummary,
    memberships: Seq<Membership>,
    more: StepSummary,
    others: Seq<Membership>,
)
    requires
        interferes(config, step, memberships),
        is_at_least(step, memberships, more, others),
    ensures
        interferes(config, more, others),
{
    let i = choose|i: int|
        0 <= i < memberships.len() && crate::policy::interactive_decode(
            config,
            #[trigger] memberships[i],
        );
    assert(others.contains(memberships[i]));
    let k = choose|k: int| 0 <= k < others.len() && others[k] == memberships[i];
    assert(crate::policy::interactive_decode(config, others[k]));
    let j = choose|j: int|
        0 <= j < memberships.len() && crate::policy::background_prefill(
            config,
            #[trigger] memberships[j],
        );
    assert(others.contains(memberships[j]));
    let m = choose|m: int| 0 <= m < others.len() && others[m] == memberships[j];
    assert(crate::policy::background_prefill(config, others[m]));
}

/// A step in which a decode of the interactive class and a prefill of another
/// class take part is flagged exactly where it reaches both limits.
pub proof fn limits_decide_for_mixed_steps(
    config: DetectorConfig,
    step: StepSummary,
    memberships: Seq<Membership>,
    i: int,
    j: int,
)
    requires
        0 <= i < memberships.len(),
        memberships[i].slice.phase == RequestPhase::Decode,
        memberships[i].slice.service_class_id == config.interactive_service_class_id,
        0 <= j < memberships.len(),
        memberships[j].slice.phase == RequestPhase::Prefill,
        memberships[j].slice.service_class_id != config.interactive_service_class_id,
    ensures
        interferes(config, step, memberships) <==> step.prefill_tokens
            >= config.large_prefill_tokens && step.gpu_busy_time_ns >= config.minimum_gpu_busy_ns,
{
    assert(crate::policy::interactive_decode(config, memberships[i]));
    assert(crate::policy::background_prefill(config, memberships[j]));
}

/// A launch adds one to the count of its name for the phase in which it was seen,
/// leaves the other count and every other name as they were, and is what is shown
/// to run.
pub proof fn launch_counts_once_in_its_phase(
    before: AppState,
    after: AppState,
    name: Seq<char>,
    start_ns: i64,
    end_ns: i64,
)
    requires
        launch_recorded(before, after, name, start_ns, end_ns),
    ensures
        after.now_executing matches Some(shown) && shown@ == name,
        after.tally().dom() == before.tally().dom().insert(name),
        forall|other: Seq<char>|
            other != name && before.tally().dom().contains(other) ==> #[trigger] after.tally()[other]
                == before.tally()[other],
        ({
            let old_stat = if before.tally().dom().contains(name) {
                before.tally()[name]
            } else {
                KernelStat { thinking: 0, response: 0 }
            };
            let stat = after.tally()[name];
            &&& before.phase is Thinking && old_stat.thinking < u32::MAX ==> stat.thinking
                == old_stat.thinking + 1 && stat.response == old_stat.response
            &&& before.phase is Response && old_stat.response < u32::MAX ==> stat.response
                == old_stat.response + 1 && stat.thinking == old_stat.thinking
        }),
        end_ns > start_ns ==> after.latest_end_ns >= end_ns && after.latest_end_ns
            >= before.latest_end_ns && (after.latest_end_ns == end_ns || after.latest_end_ns
            == before.latest_end_ns),
        end_ns <= start_ns ==> after.latest_end_ns == before.latest_end_ns
            && after.recent_launches@ == before.recent_launches@,
{
}

/// Of two kernels whose counts can be added up, the one with more launches ranks
/// before the other.
pub proof fn more_launches_rank_first(a: (Seq<char>, KernelStat), b: (Seq<char>, KernelStat))
    requires
        a.1.thinking + a.1.response <= u32::MAX,
        b.1.thinking + b.1.response <= u32::MAX,
        a.1.thinking + a.1.response > b.1.thinking + b.1.response,
    ensures
        ranks_before(a, b),
        !ranks_before(b, a),
{
}

} // verus!
