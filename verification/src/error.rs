//! Why the simulator refused an action or a request.
use vstd::prelude::*;

use crate::resolver::{ResolutionError, ResolutionInvariantViolation};
use crate::trigger::Effect;
use crate::types::{ChoiceId, DrawResultSlotId, EventId, EventSlotId, GameEntityId, PlayerId, Zone};

verus! {

/// Why a zone change was refused.
#[derive(Clone, Copy, Debug, PartialEq, Eq, Structural)]
pub enum ZoneError {
    /// The requested position is past the end of the zone.
    InvalidPosition { zone: Zone, position: usize, length: usize },
    /// The object is not listed in the zone it claims to be in.
    NotInZone { entity: GameEntityId },
    /// The object has no zone or no controller.
    Unzoned { entity: GameEntityId },
}

/// A broken rule of the world's bookkeeping.
#[derive(Clone, Copy, Debug, PartialEq, Eq, Structural)]
pub enum InvariantViolation {
    /// The player has `count` Player objects instead of one.
    PlayerCount { player: PlayerId, count: usize },
    /// The Player object has the wrong controller or kind.
    InvalidPlayerComponents(PlayerId),
    /// The player has `count` active heroes instead of one.
    HeroCount { player: PlayerId, count: usize },
    /// The active hero lacks stats, damage, armor, attack state or metadata.
    HeroComponentsMissing(PlayerId),
    /// The player has `count` active hero powers instead of one.
    HeroPowerCount { player: PlayerId, count: usize },
    /// The active hero power lacks its state or its card data.
    HeroPowerComponentsMissing(PlayerId),
    /// Two objects share one identity.
    DuplicateIdentity(GameEntityId),
    /// The zone index and an object disagree about where the object is.
    ZoneDisagreement(GameEntityId),
    /// An enchantment has no duration.
    EnchantmentWithoutDuration(GameEntityId),
    /// An attached enchantment is not in play.
    AttachedEnchantmentOutsidePlay(GameEntityId),
    /// The resolution bookkeeping is inconsistent.
    Resolution(ResolutionInvariantViolation),
    /// A validated card play did not move the card as requested.
    UnexpectedZoneMove(GameEntityId),
    /// A choice request offers no option, or two options with one identity.
    InvalidChoiceRequest(ChoiceId),
    /// An operation of a branch of this choice request runs an effect for an event, whose
    /// context the branch cannot borrow.
    ChoiceBranchBorrowsEvent(ChoiceId),
}

/// Why a checkpoint was refused.
#[derive(Clone, Copy, Debug, PartialEq, Eq, Structural)]
pub enum CheckpointError {
    UnsupportedSchemaVersion(u32),
    UnsupportedRulebookRevision(u32),
    /// The trace records another ruleset than the checkpoint.
    RulesetMismatch,
    UnsupportedRngVersion(u32),
    /// A counter does not exceed the highest identity it has handed out.
    StaleCounter { counter: CounterKind, next: u64, highest: u64 },
    DuplicateEntityIds,
    /// The next logical identity does not exceed existing identities.
    StaleEntityCounter,
    EnchantmentWithoutDuration(GameEntityId),
    AttachedEnchantmentOutsidePlay(GameEntityId),
    /// A zoned object lacks a controller or position.
    ZonedEntityIncomplete(GameEntityId),
    MissingAttachmentTarget(GameEntityId),
    /// An entity records an enchantment that no entity of the checkpoint has.
    MissingEnchantment(GameEntityId),
    MissingAuraProvider { entity: GameEntityId, provider: GameEntityId },
    /// An entity has more aura definitions than can be numbered.
    TooManyAuraDefinitions(GameEntityId),
    CostModifierWithoutPlayOrder(GameEntityId),
    InconsistentCost(GameEntityId),
    PlayerRole(PlayerId),
    HeroRole(PlayerId),
    HeroPowerRole(PlayerId),
    /// A zone list or position of the checkpoint cannot be restored.
    Zone(ZoneError),
    /// The restored world breaks a rule of its bookkeeping.
    Invariant(InvariantViolation),
    /// A retained operation names a prepared event that the checkpoint does not hold.
    MissingEvent(EventId),
    /// A retained operation names an event slot that the checkpoint does not hold.
    MissingEventSlot(EventSlotId),
    /// A retained operation names a draw result slot that the checkpoint does not hold.
    MissingDrawResultSlot(DrawResultSlotId),
}

/// Which identity counter a checkpoint check is about.
#[derive(Clone, Copy, Debug, PartialEq, Eq, Structural)]
pub enum CounterKind {
    Resolution,
    Event,
    EventSlot,
    DrawResultSlot,
    PlayOrder,
}

/// Why the simulator refused an action or a request.
#[derive(Clone, Copy, Debug, PartialEq, Eq, Structural)]
pub enum SimulationError {
    GameOver,
    NotAwaitingAction,
    NotPlayersTurn(PlayerId),
    EntityNotFound(GameEntityId),
    NotControlled { entity: GameEntityId },
    WrongZone { entity: GameEntityId, expected: Zone },
    NotPlayable(GameEntityId),
    BoardFull(PlayerId),
    NotEnoughMana { player: PlayerId, required: i32, available: i32 },
    CannotAttack(GameEntityId),
    InvalidDefender(GameEntityId),
    PlayerNotFound(PlayerId),
    UnsupportedActionChoice(ChoiceId),
    UnexpectedTarget(GameEntityId),
    MissingTarget(GameEntityId),
    InvalidTarget { card: GameEntityId, target: GameEntityId },
    UnexpectedBoardPosition(GameEntityId),
    Zone(ZoneError),
    Resolution(ResolutionError),
    Invariant(InvariantViolation),
    Checkpoint(CheckpointError),
    /// This library runs no effect programs: an effect was asked to run or a card to be played
    /// with one.
    UnsupportedEffect(Effect),
}

} // verus!
