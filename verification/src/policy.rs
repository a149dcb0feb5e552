//! Detection of scheduling conditions on correlated steps.

use crate::correlation::{Membership, StepSummary};
use crate::event::RequestPhase;
use vstd::prelude::*;

verus! {

#[derive(Clone, Copy, Debug, PartialEq, Eq, Structural)]
pub struct DetectorConfig {
    pub large_prefill_tokens: u32,
    pub minimum_gpu_busy_ns: u64,
    pub interactive_service_class_id: u16,
}

#[derive(Clone, Copy, Debug, PartialEq, Eq, Structural)]
pub enum Condition {
    InteractiveDecodeSharesLargePrefill,
}

#[derive(Clone, Copy, Debug, PartialEq, Eq, Structural)]
pub enum Action {
    LimitBackgroundPrefillAdmission,
}

#[derive(Clone, Copy, Debug, PartialEq, Eq, Structural)]
pub struct Decision {
    pub condition: Condition,
    pub action: Action,
    pub pid: u32,
    pub step_id: u64,
    pub observed_prefill_tokens: u32,
    pub observed_gpu_busy_ns: u64,
}

/// A decode slice of the interactive service class.
pub open spec fn interactive_decode(config: DetectorConfig, m: Membership) -> bool {
    m.slice.phase == RequestPhase::Decode && m.slice.service_class_id
        == config.interactive_service_class_id
}

/// A prefill slice of any other service class.
pub open spec fn background_prefill(config: DetectorConfig, m: Membership) -> bool {
    m.slice.phase == RequestPhase::Prefill && m.slice.service_class_id
        != config.interactive_service_class_id
}

/// Whether a busy step with a large prefill makes an interactive decode wait
/// for a background prefill.
pub open spec fn interferes(
    config: DetectorConfig,
    step: StepSummary,
    memberships: Seq<Membership>,
) -> bool {
    &&& step.prefill_tokens >= config.large_prefill_tokens
    &&& step.gpu_busy_time_ns >= config.minimum_gpu_busy_ns
    &&& exists|i: int|
        0 <= i < memberships.len() && interactive_decode(config, #[trigger] memberships[i])
    &&& exists|i: int|
        0 <= i < memberships.len() && background_prefill(config, #[trigger] memberships[i])
}

/// Proposes to limit background prefill where a step interferes.
pub fn detect_prefill_interference(
    config: DetectorConfig,
    step: &StepSummary,
    memberships: &[Membership],
) -> (r: Option<Decision>)
    ensures
        r is Some <==> interferes(config, *step, memberships@),
        r matches Some(decision) ==> decision == (Decision {
            condition: Condition::InteractiveDecodeSharesLargePrefill,
            action: Action::LimitBackgroundPrefillAdmission,
            pid: step.pid,
            step_id: step.step_id,
            observed_prefill_tokens: step.prefill_tokens,
            observed_gpu_busy_ns: step.gpu_busy_time_ns,
        }),
{
    if step.prefill_tokens < config.large_prefill_tokens || step.gpu_busy_time_ns
        < config.minimum_gpu_busy_ns {
        return None;
    }
    let mut interactive: bool = false;
    let mut background: bool = false;
    let mut i: usize = 0;
    while i < memberships.len()
        invariant
            i <= memberships.len(),
            interactive == exists|j: int|
                0 <= j < i && interactive_decode(config, #[trigger] memberships@[j]),
            background == exists|j: int|
                0 <= j < i && background_prefill(config, #[trigger] memberships@[j]),
        decreases memberships.len() - i,
    {
        let slice = &memberships[i].slice;
        let own: bool = slice.service_class_id == config.interactive_service_class_id;
        match slice.phase {
            RequestPhase::Decode => {
                if own {
                    assert(interactive_decode(config, memberships@[i as int]));
                    interactive = true;
                }
            },
            RequestPhase::Prefill => {
                if !own {
                    assert(background_prefill(config, memberships@[i as int]));
                    background = true;
                }
            },
        }
        i = i + 1;
    }
    if interactive && background {
        Some(
            Decision {
                condition: Condition::InteractiveDecodeSharesLargePrefill,
                action: Action::LimitBackgroundPrefillAdmission,
                pid: step.pid,
                step_id: step.step_id,
                observed_prefill_tokens: step.prefill_tokens,
                observed_gpu_busy_ns: step.gpu_busy_time_ns,
            },
        )
    } else {
        None
    }
}

/// A step that serves one phase only, or one service class only, is never
/// called interference.
pub proof fn uniform_steps_are_not_flagged(
    config: DetectorConfig,
    step: StepSummary,
    memberships: Seq<Membership>,
)
    requires
        forall|i: int, j: int|
            0 <= i < memberships.len() && 0 <= j < memberships.len() ==> (
            #[trigger] memberships[i]).slice.phase == (#[trigger] memberships[j]).slice.phase || (
            memberships[i].slice.service_class_id == memberships[j].slice.service_class_id),
    ensures
        !interferes(config, step, memberships),
{
}

} // verus!
