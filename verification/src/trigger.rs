//! Trigger definitions: what a card listens for and what it then does.
use vstd::prelude::*;

use crate::operations::EventKind;
use crate::types::Zone;

verus! {

/// Which player an effect addresses, relative to its controller.
#[derive(Clone, Copy, Debug, PartialEq, Eq, Structural)]
pub enum PlayerSelector {
    Controller,
    Opponent,
}

/// One step of an effect program.
#[derive(Clone, Copy, Debug, PartialEq, Eq, Structural)]
pub enum Effect {
    /// The selected player draws `count` cards.
    Draw { player: PlayerSelector, count: u32 },
    /// The event's target takes `amount` damage.
    DamageEventTarget { amount: i32 },
}

/// Copies an effect program.
pub fn copy_program(program: &Vec<Effect>) -> (r: Vec<Effect>)
    ensures
        r@ == program@,
{
    let mut r: Vec<Effect> = Vec::new();
    let mut i: usize = 0;
    while i < program.len()
        invariant
            i <= program.len(),
            r@ == program@.subrange(0, i as int),
        decreases program.len() - i,
    {
        r.push(program[i]);
        i = i + 1;
        assert(r@ =~= program@.subrange(0, i as int));
    }
    assert(program@.subrange(0, program@.len() as int) =~= program@);
    r
}

/// When a trigger condition is checked.
#[derive(Clone, Copy, Debug, PartialEq, Eq, Structural)]
pub enum ConditionTiming {
    QueueTime,
    ResolutionTime,
}

/// A condition on the event that fires a trigger.
#[derive(Clone, Copy, Debug, PartialEq, Eq, Structural)]
pub enum TriggerCondition {
    /// The event targets the trigger's own object.
    EventTargetsSelf,
}

/// A condition with the moment it is checked.
#[derive(Clone, Copy, Debug, PartialEq, Eq, Structural)]
pub struct TimedCondition {
    pub timing: ConditionTiming,
    pub condition: TriggerCondition,
}

/// Whether the trigger's object must still be in an eligible zone when the trigger resolves.
#[derive(Clone, Copy, Debug, PartialEq, Eq, Structural)]
pub enum SourceEligibilityPolicy {
    MustRemainInEligibleZone,
    MayLeave,
}

/// Whether mortally wounded targets still count for the trigger.
#[derive(Clone, Copy, Debug, PartialEq, Eq, Structural)]
pub enum WoundedTargetPolicy {
    IncludeMortallyWounded,
    ExcludeMortallyWounded,
}

/// What a card listens for and what it then does.
#[derive(Debug, PartialEq, Eq)]
pub struct TriggerDefinition {
    pub event: EventKind,
    pub eligible_zones: Vec<Zone>,
    pub conditions: Vec<TimedCondition>,
    pub source_eligibility: SourceEligibilityPolicy,
    pub priority: i32,
    pub wounded_target_policy: WoundedTargetPolicy,
    pub effect_program: Vec<Effect>,
}

/// A trigger that fires in play on events of kind `event` that target its own object, checked
/// when the event is queued; its object must stay in play; mortally wounded targets count.
pub fn self_event_trigger(event: EventKind, effect_program: Vec<Effect>) -> (r: TriggerDefinition)
    ensures
        r.event == event,
        r.eligible_zones@ == seq![Zone::Play],
        r.conditions@ == seq![TimedCondition { timing: ConditionTiming::QueueTime, condition: TriggerCondition::EventTargetsSelf }],
        r.source_eligibility == SourceEligibilityPolicy::MustRemainInEligibleZone,
        r.priority == 0,
        r.wounded_target_policy == WoundedTargetPolicy::IncludeMortallyWounded,
        r.effect_program@ == effect_program@,
{
    let mut eligible_zones: Vec<Zone> = Vec::new();
    eligible_zones.push(Zone::Play);
    let mut conditions: Vec<TimedCondition> = Vec::new();
    conditions.push(TimedCondition { timing: ConditionTiming::QueueTime, condition: TriggerCondition::EventTargetsSelf });
    TriggerDefinition {
        event,
        eligible_zones,
        conditions,
        source_eligibility: SourceEligibilityPolicy::MustRemainInEligibleZone,
        priority: 0,
        wounded_target_policy: WoundedTargetPolicy::IncludeMortallyWounded,
        effect_program,
    }
}

} // verus!
