//! The operations that the resolution stack holds, and the event and choice records they carry.
use vstd::prelude::*;

use crate::trigger::{copy_program, Effect};
use crate::types::{ChoiceId, DrawResultSlotId, EventId, EventSlotId, GameEntityId, PlayerId, ResolutionId};

verus! {

/// Which phase-boundary pass an operation asks for.
#[derive(Clone, Copy, Debug, PartialEq, Eq, Structural)]
pub enum PhaseBoundaryPlan {
    Ordinary,
    ForcedDeath,
}

/// Which aura refresh an operation asks for.
#[derive(Clone, Copy, Debug, PartialEq, Eq, Structural)]
pub enum AuraRefreshPlan {
    /// Merge only the applications of the provider that was just played.
    PlayedProvider(GameEntityId),
    /// Refresh every category from scratch.
    Summon,
}

/// Whether a turn comes from the ordinary rotation or was granted as an extra turn.
#[derive(Clone, Copy, Debug, PartialEq, Eq, Structural)]
pub enum ScheduledTurnKind {
    Natural,
    Extra,
}

/// One step of an accepted action, run from the resolution stack.
#[derive(Clone, Copy, Debug, PartialEq, Eq, Structural)]
pub enum SequenceStep {
    PlayCard {
        player: PlayerId,
        card: GameEntityId,
        target: Option<GameEntityId>,
        board_index: Option<usize>,
    },
    Attack { player: PlayerId, attacker: GameEntityId, defender: GameEntityId },
    FinishAttack { player: PlayerId, attacker: GameEntityId, defender: GameEntityId },
    EndTurn { player: PlayerId },
    AdvanceTurn { ending_player: PlayerId },
    StartTurn { player: PlayerId, kind: ScheduledTurnKind },
    Concede { player: PlayerId },
}

/// The kinds of events the simulator records.
#[derive(Clone, Copy, Debug, PartialEq, Eq, Structural)]
pub enum EventKind {
    CardPlayed,
    Summoned,
    Attack,
    AfterAttack,
    TurnStarted,
    TurnEnded,
    Death,
    Damage,
    ProposedDamage,
    Healing,
    ProposedHealing,
    AfterPlay,
    AfterPlayAndSummon,
}

/// What an event is about.
#[derive(Clone, Debug, PartialEq, Eq)]
pub struct EventContext {
    pub kind: EventKind,
    pub source: Option<GameEntityId>,
    pub targets: Vec<GameEntityId>,
    pub controller: PlayerId,
    pub proposed_value: Option<i32>,
    pub actual_value: Option<i32>,
    pub simultaneous_ordinal: u32,
}

/// One request to deal damage.
#[derive(Clone, Copy, Debug, PartialEq, Eq, Structural)]
pub struct DamageRequest {
    pub source: Option<GameEntityId>,
    pub target: GameEntityId,
    pub proposed: i32,
}

/// What one draw produced.
#[derive(Clone, Copy, Debug, PartialEq, Eq, Structural)]
pub enum DrawOutcome {
    Drawn(GameEntityId),
    Burned(GameEntityId),
    Fatigue { amount: i32 },
}

/// Where an effect comes from: a played spell, or anything else.
#[derive(Clone, Copy, Debug, PartialEq, Eq, Structural)]
pub enum EffectOrigin {
    Spell,
    Other,
}

/// Who runs an effect and what it was declared against.
#[derive(Clone, Copy, Debug, PartialEq, Eq, Structural)]
pub struct EffectContext {
    pub source: Option<GameEntityId>,
    pub controller: PlayerId,
    pub declared_target: Option<GameEntityId>,
    pub drawn_card: Option<GameEntityId>,
    pub origin: EffectOrigin,
}

/// Whether the effects that follow a draw run when no card was drawn (the card burned, or the
/// player took fatigue).
#[derive(Clone, Copy, Debug, PartialEq, Eq, Structural)]
pub enum DrawContinuationPolicy {
    RequireCard,
    RunWithoutCard,
}

/// One branch a player may pick when a choice is pending.
#[derive(Debug, PartialEq, Eq)]
pub struct ChoiceOption {
    pub id: ChoiceId,
    /// The operations of the branch, in execution order.
    pub operations: Vec<ResolutionOp>,
}

/// A request that suspends resolution until the player picks an option.
#[derive(Debug, PartialEq, Eq)]
pub struct ChoiceRequest {
    pub id: ChoiceId,
    pub player: PlayerId,
    pub options: Vec<ChoiceOption>,
}

/// The work items of the resolution stack.
#[derive(Debug, PartialEq, Eq)]
pub enum ResolutionOp {
    RunSequenceStep(SequenceStep),
    RunPhaseBoundary(PhaseBoundaryPlan),
    RefreshAuras(AuraRefreshPlan),
    CheckOutcome,
    PrepareEvent(EventContext),
    ResolveEvent(EventId),
    FinishEvent(EventId),
    ResolveEventSlot(EventSlotId),
    ProcessDamageBatch(Vec<DamageRequest>),
    FinishDraw(DrawResultSlotId),
    RequestChoice(ChoiceRequest),
    /// Runs one effect of a program, for the event that fired it when there is one.
    RunEffect { context: EffectContext, effect: Effect, event: Option<EventId> },
    /// Takes the outcome of a draw and schedules the effects that follow it, with the drawn card.
    ContinueDraw {
        result: DrawResultSlotId,
        context: EffectContext,
        effects: Vec<Effect>,
        policy: DrawContinuationPolicy,
    },
}

/// The kind of an operation, without its payload.
#[derive(Clone, Copy, Debug, PartialEq, Eq, Structural)]
pub enum OperationKind {
    RunSequenceStep,
    RunPhaseBoundary,
    RefreshAuras,
    CheckOutcome,
    PrepareEvent,
    ResolveEvent,
    FinishEvent,
    ResolveEventSlot,
    ProcessDamageBatch,
    FinishDraw,
    RequestChoice,
    RunEffect,
    ContinueDraw,
}

impl ResolutionOp {
    /// The kind of this operation.
    pub open spec fn spec_kind(&self) -> OperationKind {
        match self {
            ResolutionOp::RunSequenceStep(_) => OperationKind::RunSequenceStep,
            ResolutionOp::RunPhaseBoundary(_) => OperationKind::RunPhaseBoundary,
            ResolutionOp::RefreshAuras(_) => OperationKind::RefreshAuras,
            ResolutionOp::CheckOutcome => OperationKind::CheckOutcome,
            ResolutionOp::PrepareEvent(_) => OperationKind::PrepareEvent,
            ResolutionOp::ResolveEvent(_) => OperationKind::ResolveEvent,
            ResolutionOp::FinishEvent(_) => OperationKind::FinishEvent,
            ResolutionOp::ResolveEventSlot(_) => OperationKind::ResolveEventSlot,
            ResolutionOp::ProcessDamageBatch(_) => OperationKind::ProcessDamageBatch,
            ResolutionOp::FinishDraw(_) => OperationKind::FinishDraw,
            ResolutionOp::RequestChoice(_) => OperationKind::RequestChoice,
            ResolutionOp::RunEffect { .. } => OperationKind::RunEffect,
            ResolutionOp::ContinueDraw { .. } => OperationKind::ContinueDraw,
        }
    }

    /// The kind of this operation.
    #[verifier::when_used_as_spec(spec_kind)]
    pub fn kind(&self) -> (r: OperationKind)
        ensures
            r == self.spec_kind(),
    {
        match self {
            ResolutionOp::RunSequenceStep(_) => OperationKind::RunSequenceStep,
            ResolutionOp::RunPhaseBoundary(_) => OperationKind::RunPhaseBoundary,
            ResolutionOp::RefreshAuras(_) => OperationKind::RefreshAuras,
            ResolutionOp::CheckOutcome => OperationKind::CheckOutcome,
            ResolutionOp::PrepareEvent(_) => OperationKind::PrepareEvent,
            ResolutionOp::ResolveEvent(_) => OperationKind::ResolveEvent,
            ResolutionOp::FinishEvent(_) => OperationKind::FinishEvent,
            ResolutionOp::ResolveEventSlot(_) => OperationKind::ResolveEventSlot,
            ResolutionOp::ProcessDamageBatch(_) => OperationKind::ProcessDamageBatch,
            ResolutionOp::FinishDraw(_) => OperationKind::FinishDraw,
            ResolutionOp::RequestChoice(_) => OperationKind::RequestChoice,
            ResolutionOp::RunEffect { .. } => OperationKind::RunEffect,
            ResolutionOp::ContinueDraw { .. } => OperationKind::ContinueDraw,
        }
    }
}

/// An operation together with the identity it received when it was pushed.
#[derive(Debug, PartialEq, Eq)]
pub struct StackedResolutionOp {
    pub id: ResolutionId,
    pub operation: ResolutionOp,
}

/// An event waiting to be expanded and finished.
#[derive(Clone, Debug, PartialEq, Eq)]
pub struct PreparedEvent {
    pub context: EventContext,
    /// Whether the triggers of the event have been collected (and recorded in the trace). No game
    /// object holds trigger definitions, so a collection finds no trigger.
    pub triggers_collected: bool,
}

/// A slot that may receive a prepared event.
#[derive(Clone, Copy, Debug, PartialEq, Eq, Structural, Default)]
pub struct PreparedEventSlot {
    pub event: Option<EventId>,
}

/// A slot that receives the outcome of one draw.
#[derive(Clone, Copy, Debug, PartialEq, Eq, Structural, Default)]
pub struct DrawResultSlot {
    pub outcome: Option<DrawOutcome>,
}

/// The choice the game is waiting for.
#[derive(Debug, PartialEq, Eq)]
pub struct PendingChoice {
    pub request: ChoiceRequest,
}

/// Spec-level picture of an [`EventContext`], with its targets as a sequence.
#[verifier::ext_equal]
pub struct EventContextView {
    pub kind: EventKind,
    pub source: Option<GameEntityId>,
    pub targets: Seq<GameEntityId>,
    pub controller: PlayerId,
    pub proposed_value: Option<i32>,
    pub actual_value: Option<i32>,
    pub simultaneous_ordinal: u32,
}

/// Spec-level picture of a [`ChoiceOption`].
#[verifier::ext_equal]
pub struct ChoiceOptionView {
    pub id: ChoiceId,
    pub operations: Seq<OpView>,
}

/// Spec-level picture of a [`ChoiceRequest`].
#[verifier::ext_equal]
pub struct ChoiceRequestView {
    pub id: ChoiceId,
    pub player: PlayerId,
    pub options: Seq<ChoiceOptionView>,
}

/// Spec-level picture of a [`ResolutionOp`]: the same variants, with sequences for vectors.
#[verifier::ext_equal]
pub enum OpView {
    RunSequenceStep(SequenceStep),
    RunPhaseBoundary(PhaseBoundaryPlan),
    RefreshAuras(AuraRefreshPlan),
    CheckOutcome,
    PrepareEvent(EventContextView),
    ResolveEvent(EventId),
    FinishEvent(EventId),
    ResolveEventSlot(EventSlotId),
    ProcessDamageBatch(Seq<DamageRequest>),
    FinishDraw(DrawResultSlotId),
    RequestChoice(ChoiceRequestView),
    RunEffect { context: EffectContext, effect: Effect, event: Option<EventId> },
    ContinueDraw {
        result: DrawResultSlotId,
        context: EffectContext,
        effects: Seq<Effect>,
        policy: DrawContinuationPolicy,
    },
}

impl View for EventContext {
    type V = EventContextView;

    open spec fn view(&self) -> EventContextView {
        EventContextView {
            kind: self.kind,
            source: self.source,
            targets: self.targets@,
            controller: self.controller,
            proposed_value: self.proposed_value,
            actual_value: self.actual_value,
            simultaneous_ordinal: self.simultaneous_ordinal,
        }
    }
}

/// The picture of an operation.
pub open spec fn op_view(op: ResolutionOp) -> OpView
    decreases op,
{
    match op {
        ResolutionOp::RunSequenceStep(s) => OpView::RunSequenceStep(s),
        ResolutionOp::RunPhaseBoundary(p) => OpView::RunPhaseBoundary(p),
        ResolutionOp::RefreshAuras(p) => OpView::RefreshAuras(p),
        ResolutionOp::CheckOutcome => OpView::CheckOutcome,
        ResolutionOp::PrepareEvent(c) => OpView::PrepareEvent(c@),
        ResolutionOp::ResolveEvent(e) => OpView::ResolveEvent(e),
        ResolutionOp::FinishEvent(e) => OpView::FinishEvent(e),
        ResolutionOp::ResolveEventSlot(s) => OpView::ResolveEventSlot(s),
        ResolutionOp::ProcessDamageBatch(v) => OpView::ProcessDamageBatch(v@),
        ResolutionOp::FinishDraw(s) => OpView::FinishDraw(s),
        ResolutionOp::RequestChoice(r) => {
            proof {
                assert(decreases_to!(r.options => r.options@));
            }
            OpView::RequestChoice(
                ChoiceRequestView { id: r.id, player: r.player, options: options_view(r.options@) },
            )
        },
        ResolutionOp::RunEffect { context, effect, event } => OpView::RunEffect { context, effect, event },
        ResolutionOp::ContinueDraw { result, context, effects, policy } => OpView::ContinueDraw {
            result,
            context,
            effects: effects@,
            policy,
        },
    }
}

/// The pictures of a sequence of choice options.
pub open spec fn options_view(options: Seq<ChoiceOption>) -> Seq<ChoiceOptionView>
    decreases options,
{
    if options.len() == 0 {
        Seq::empty()
    } else {
        let last = options[options.len() - 1];
        proof {
            assert(decreases_to!(last.operations => last.operations@));
        }
        options_view(options.subrange(0, options.len() - 1)).push(
            ChoiceOptionView { id: last.id, operations: ops_view(last.operations@) },
        )
    }
}

/// The pictures of a sequence of operations.
pub open spec fn ops_view(ops: Seq<ResolutionOp>) -> Seq<OpView>
    decreases ops,
{
    if ops.len() == 0 {
        Seq::empty()
    } else {
        ops_view(ops.subrange(0, ops.len() - 1)).push(op_view(ops[ops.len() - 1]))
    }
}

impl View for ResolutionOp {
    type V = OpView;

    open spec fn view(&self) -> OpView {
        op_view(*self)
    }
}

impl View for ChoiceRequest {
    type V = ChoiceRequestView;

    open spec fn view(&self) -> ChoiceRequestView {
        ChoiceRequestView { id: self.id, player: self.player, options: options_view(self.options@) }
    }
}

impl View for ChoiceOption {
    type V = ChoiceOptionView;

    open spec fn view(&self) -> ChoiceOptionView {
        ChoiceOptionView { id: self.id, operations: ops_view(self.operations@) }
    }
}

/// Copies a vector of identifiers.
pub fn copy_ids(v: &Vec<GameEntityId>) -> (r: Vec<GameEntityId>)
    ensures
        r@ == v@,
{
    let mut r: Vec<GameEntityId> = Vec::new();
    let mut i: usize = 0;
    while i < v.len()
        invariant
            i <= v.len(),
            r@ == v@.subrange(0, i as int),
        decreases v.len() - i,
    {
        r.push(v[i]);
        i = i + 1;
        assert(r@ =~= v@.subrange(0, i as int));
    }
    assert(v@.subrange(0, v@.len() as int) =~= v@);
    r
}

/// Copies a vector of damage requests.
pub fn copy_damage_requests(v: &Vec<DamageRequest>) -> (r: Vec<DamageRequest>)
    ensures
        r@ == v@,
{
    let mut r: Vec<DamageRequest> = Vec::new();
    let mut i: usize = 0;
    while i < v.len()
        invariant
            i <= v.len(),
            r@ == v@.subrange(0, i as int),
        decreases v.len() - i,
    {
        r.push(v[i]);
        i = i + 1;
        assert(r@ =~= v@.subrange(0, i as int));
    }
    assert(v@.subrange(0, v@.len() as int) =~= v@);
    r
}

/// Copies an event context.
pub fn copy_context(c: &EventContext) -> (r: EventContext)
    ensures
        r@ == c@,
{
    EventContext {
        kind: c.kind,
        source: c.source,
        targets: copy_ids(&c.targets),
        controller: c.controller,
        proposed_value: c.proposed_value,
        actual_value: c.actual_value,
        simultaneous_ordinal: c.simultaneous_ordinal,
    }
}

/// Copies an operation, including the branches of a choice it carries.
pub fn copy_operation(op: &ResolutionOp) -> (r: ResolutionOp)
    ensures
        r@ == op@,
    decreases op,
{
    match op {
        ResolutionOp::RunSequenceStep(s) => ResolutionOp::RunSequenceStep(*s),
        ResolutionOp::RunPhaseBoundary(p) => ResolutionOp::RunPhaseBoundary(*p),
        ResolutionOp::RefreshAuras(p) => ResolutionOp::RefreshAuras(*p),
        ResolutionOp::CheckOutcome => ResolutionOp::CheckOutcome,
        ResolutionOp::PrepareEvent(c) => ResolutionOp::PrepareEvent(copy_context(c)),
        ResolutionOp::ResolveEvent(e) => ResolutionOp::ResolveEvent(*e),
        ResolutionOp::FinishEvent(e) => ResolutionOp::FinishEvent(*e),
        ResolutionOp::ResolveEventSlot(s) => ResolutionOp::ResolveEventSlot(*s),
        ResolutionOp::ProcessDamageBatch(v) => ResolutionOp::ProcessDamageBatch(
            copy_damage_requests(v),
        ),
        ResolutionOp::FinishDraw(s) => ResolutionOp::FinishDraw(*s),
        ResolutionOp::RequestChoice(request) => {
            let r = copy_request(request);
            ResolutionOp::RequestChoice(r)
        },
        ResolutionOp::RunEffect { context, effect, event } => ResolutionOp::RunEffect {
            context: *context,
            effect: *effect,
            event: *event,
        },
        ResolutionOp::ContinueDraw { result, context, effects, policy } => ResolutionOp::ContinueDraw {
            result: *result,
            context: *context,
            effects: copy_program(effects),
            policy: *policy,
        },
    }
}

/// Copies a choice request with all its branches.
pub fn copy_request(request: &ChoiceRequest) -> (r: ChoiceRequest)
    ensures
        r@ == request@,
    decreases request,
{
    let mut options: Vec<ChoiceOption> = Vec::new();
    let mut i: usize = 0;
    while i < request.options.len()
        invariant
            i <= request.options.len(),
            options_view(options@) == options_view(request.options@.subrange(0, i as int)),
        decreases request.options.len() - i,
    {
        assert(decreases_to!(request => request.options));
        let option = &request.options[i];
        let ops = copy_operations(&option.operations);
        let copied = ChoiceOption { id: option.id, operations: ops };
        let ghost before = options@;
        options.push(copied);
        proof {
            assert(options@.subrange(0, options@.len() - 1) =~= before);
            let prefix = request.options@.subrange(0, i + 1);
            assert(prefix.subrange(0, i as int) =~= request.options@.subrange(0, i as int));
            assert(prefix[i as int] == *option);
        }
        i = i + 1;
    }
    assert(request.options@.subrange(0, request.options@.len() as int) =~= request.options@);
    ChoiceRequest { id: request.id, player: request.player, options }
}

/// Copies a sequence of operations.
pub fn copy_operations(v: &Vec<ResolutionOp>) -> (r: Vec<ResolutionOp>)
    ensures
        ops_view(r@) == ops_view(v@),
    decreases v,
{
    let mut r: Vec<ResolutionOp> = Vec::new();
    let mut i: usize = 0;
    while i < v.len()
        invariant
            i <= v.len(),
            ops_view(r@) == ops_view(v@.subrange(0, i as int)),
        decreases v.len() - i,
    {
        assert(decreases_to!(v => v@));
        let c = copy_operation(&v[i]);
        let ghost before = r@;
        r.push(c);
        proof {
            assert(r@.subrange(0, r@.len() - 1) =~= before);
            let prefix = v@.subrange(0, i + 1);
            assert(prefix.subrange(0, i as int) =~= v@.subrange(0, i as int));
        }
        i = i + 1;
    }
    assert(v@.subrange(0, v@.len() as int) =~= v@);
    r
}


/// The picture of a sequence of operations pictures each operation in place.
pub proof fn lemma_ops_view_index(ops: Seq<ResolutionOp>)
    ensures
        ops_view(ops).len() == ops.len(),
        forall|k: int| 0 <= k < ops.len() ==> #[trigger] ops_view(ops)[k] == op_view(ops[k]),
    decreases ops.len(),
{
    if ops.len() > 0 {
        let prefix = ops.subrange(0, ops.len() - 1);
        lemma_ops_view_index(prefix);
        assert forall|k: int| 0 <= k < ops.len() implies #[trigger] ops_view(ops)[k] == op_view(ops[k]) by {
            if k < ops.len() - 1 {
                assert(prefix[k] == ops[k]);
            }
        }
    }
}

} // verus!
