//! The canonical trace: every observable decision of the simulator, in order.
use vstd::prelude::*;

use crate::error::SimulationError;
use crate::operations::{EventKind, OperationKind, ScheduledTurnKind};
use crate::types::{ChoiceId, EventId, GameEntityId, PlayerId, ResolutionId, Zone};
use crate::world::{AuraApplication, AuraCategory};

verus! {

/// The kind of an action, as the trace records it.
#[derive(Clone, Copy, Debug, PartialEq, Eq, Structural)]
pub enum ActionLabel {
    PlayCard,
    Attack,
    EndTurn,
    Concede,
}

/// One entry of the canonical trace.
#[derive(Debug, PartialEq, Eq)]
#[allow(inconsistent_fields)]
pub enum TraceEntry {
    ActionAccepted { player: PlayerId, action: ActionLabel },
    ActionRejected { player: PlayerId, reason: SimulationError },
    OperationPopped { id: ResolutionId, kind: OperationKind },
    ZoneMoved { entity: GameEntityId, from: Zone, to: Zone },
    TemporaryEffectExpired { entity: GameEntityId },
    TurnChanged { active_player: PlayerId, turn: u32, kind: ScheduledTurnKind },
    Outcome { winner: Option<PlayerId> },
    ResourceSpent { player: PlayerId, amount: i32 },
    ChoiceAnswered { choice: ChoiceId, option: ChoiceId },
    ChoiceRequested { choice: ChoiceId, player: PlayerId },
    EventCreated {
        id: EventId,
        kind: EventKind,
        source: Option<GameEntityId>,
        targets: Vec<GameEntityId>,
        proposed: Option<i32>,
        actual: Option<i32>,
    },
    DeathPhaseQueued { deaths: Vec<GameEntityId> },
    /// The triggers collected for an event. No game object has a component that holds trigger
    /// definitions (the `trigger` module describes them, but nothing attaches them to an
    /// object), so none are listed.
    TriggerSnapshot { event: EventId },
    RngChoice { position: u64, candidates: Vec<GameEntityId>, selected: GameEntityId },
    AuraUpdated { target: GameEntityId, category: AuraCategory, applications: Vec<AuraApplication> },
}

/// Spec-level picture of a [`TraceEntry`], with sequences for vectors.
#[allow(inconsistent_fields)]
pub enum TraceEntryView {
    ActionAccepted { player: PlayerId, action: ActionLabel },
    ActionRejected { player: PlayerId, reason: SimulationError },
    OperationPopped { id: ResolutionId, kind: OperationKind },
    ZoneMoved { entity: GameEntityId, from: Zone, to: Zone },
    TemporaryEffectExpired { entity: GameEntityId },
    TurnChanged { active_player: PlayerId, turn: u32, kind: ScheduledTurnKind },
    Outcome { winner: Option<PlayerId> },
    ResourceSpent { player: PlayerId, amount: i32 },
    ChoiceAnswered { choice: ChoiceId, option: ChoiceId },
    ChoiceRequested { choice: ChoiceId, player: PlayerId },
    EventCreated {
        id: EventId,
        kind: EventKind,
        source: Option<GameEntityId>,
        targets: Seq<GameEntityId>,
        proposed: Option<i32>,
        actual: Option<i32>,
    },
    DeathPhaseQueued { deaths: Seq<GameEntityId> },
    TriggerSnapshot { event: EventId },
    RngChoice { position: u64, candidates: Seq<GameEntityId>, selected: GameEntityId },
    AuraUpdated { target: GameEntityId, category: AuraCategory, applications: Seq<AuraApplication> },
}

impl View for TraceEntry {
    type V = TraceEntryView;

    open spec fn view(&self) -> TraceEntryView {
        match *self {
            TraceEntry::ActionAccepted { player, action } => TraceEntryView::ActionAccepted { player, action },
            TraceEntry::ActionRejected { player, reason } => TraceEntryView::ActionRejected { player, reason },
            TraceEntry::OperationPopped { id, kind } => TraceEntryView::OperationPopped { id, kind },
            TraceEntry::ZoneMoved { entity, from, to } => TraceEntryView::ZoneMoved { entity, from, to },
            TraceEntry::TemporaryEffectExpired { entity } => TraceEntryView::TemporaryEffectExpired { entity },
            TraceEntry::TurnChanged { active_player, turn, kind } => TraceEntryView::TurnChanged {
                active_player,
                turn,
                kind,
            },
            TraceEntry::Outcome { winner } => TraceEntryView::Outcome { winner },
            TraceEntry::ResourceSpent { player, amount } => TraceEntryView::ResourceSpent { player, amount },
            TraceEntry::ChoiceAnswered { choice, option } => TraceEntryView::ChoiceAnswered { choice, option },
            TraceEntry::ChoiceRequested { choice, player } => TraceEntryView::ChoiceRequested { choice, player },
            TraceEntry::EventCreated { id, kind, source, targets, proposed, actual } => TraceEntryView::EventCreated {
                id,
                kind,
                source,
                targets: targets@,
                proposed,
                actual,
            },
            TraceEntry::DeathPhaseQueued { deaths } => TraceEntryView::DeathPhaseQueued { deaths: deaths@ },
            TraceEntry::TriggerSnapshot { event } => TraceEntryView::TriggerSnapshot { event },
            TraceEntry::RngChoice { position, candidates, selected } => TraceEntryView::RngChoice {
                position,
                candidates: candidates@,
                selected,
            },
            TraceEntry::AuraUpdated { target, category, applications } => TraceEntryView::AuraUpdated {
                target,
                category,
                applications: applications@,
            },
        }
    }
}

/// The pictures of a sequence of trace entries.
pub open spec fn trace_view(t: Seq<TraceEntry>) -> Seq<TraceEntryView> {
    t.map_values(|e: TraceEntry| e@)
}

} // verus!
