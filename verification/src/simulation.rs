//! The simulator as its users drive it: start a game, submit actions and choices, observe.
use vstd::prelude::*;

use crate::action_validation::{action_check, legal_actions, GameAction};
use crate::driver::{answer_choice, apply_action, drive_resolution, finish_resolution_if_idle, resolution_run, settled_status};
use crate::checkpoint::{
    build_checkpoint, checkpoint_fault, checkpoint_of, dangling_attachment, restorable, restore_checkpoint, restored_from, restored_rules_hold,
    SimulationCheckpoint,
};
use crate::error::{CheckpointError, SimulationError};
use crate::rng::RNG_ALGORITHM_VERSION;
use crate::player::{hero_id, hero_of, player_view};
use crate::resolver::abandon_sequence;
use crate::setup::{fresh_player, holds_cards, new_world, Card, PlayerConfig};
use crate::snapshot::{build_snapshot, GameSnapshot};
use crate::trace::TraceEntry;
use crate::types::{ChoiceId, EntityKind, GameEntityId, PlayerId, SimulationStatus, Zone};
use crate::world::{world_wf, CurrentStats, GameState, TargetRequirement, World, STARTING_HEALTH};

verus! {

/// A running game.
#[derive(Debug)]
pub struct Simulation {
    pub world: World,
}

/// Whether two configurations are small enough to number every object they create.
pub open spec fn configs_fit(first: PlayerConfig, second: PlayerConfig) -> bool {
    first.hand@.len() + first.deck@.len() + second.hand@.len() + second.deck@.len() + 8 < u64::MAX
}

impl Simulation {
    /// Whether the simulation is well-formed: its world is.
    pub open spec fn wf(&self) -> bool {
        world_wf(self.world)
    }

    /// Starts a game between two players; the first player begins with one mana crystal.
    pub fn new(players: [PlayerConfig; 2]) -> (r: Simulation)
        requires
            configs_fit(players@[0], players@[1]),
        ensures
            r.wf(),
            r.world.game.status == SimulationStatus::AwaitingAction,
            r.world.game.active_player == PlayerId::One,
            r.world.game.turn_number == 1,
            r.world.game.outcome is None,
            player_view(r.world, PlayerId::One) is Some,
            player_view(r.world, PlayerId::Two) is Some,
            !r.world.resolution.retains_work(),
            !r.world.resolution.sequence_active,
            r.world.zones.list(PlayerId::One, Zone::Hand).len() == players@[0].hand@.len(),
            r.world.zones.list(PlayerId::One, Zone::Deck).len() == players@[0].deck@.len(),
            r.world.zones.list(PlayerId::Two, Zone::Hand).len() == players@[1].hand@.len(),
            r.world.zones.list(PlayerId::Two, Zone::Deck).len() == players@[1].deck@.len(),
            holds_cards(r.world, PlayerId::One, Zone::Hand, players@[0].hand@),
            holds_cards(r.world, PlayerId::One, Zone::Deck, players@[0].deck@),
            holds_cards(r.world, PlayerId::Two, Zone::Hand, players@[1].hand@),
            holds_cards(r.world, PlayerId::Two, Zone::Deck, players@[1].deck@),
            player_view(r.world, PlayerId::One) == Some(
                (
                    0int,
                    fresh_player(PlayerId::One, 1),
                    CurrentStats { attack: 0, maximum_health: STARTING_HEALTH },
                    0i32,
                ),
            ),
            player_view(r.world, PlayerId::Two) == Some(
                (
                    3int + players@[0].hand@.len() + players@[0].deck@.len(),
                    fresh_player(PlayerId::Two, 0),
                    CurrentStats { attack: 0, maximum_health: STARTING_HEALTH },
                    0i32,
                ),
            ),
            r.world.objects@[0].display_name == Some(players@[0].name),
            r.world.objects@[3int + players@[0].hand@.len() + players@[0].deck@.len()].display_name == Some(
                players@[1].name,
            ),
            crate::zone::board_of(r.world, PlayerId::One).len() == 0,
            crate::zone::board_of(r.world, PlayerId::Two).len() == 0,
            r.world.resolution.stack@.len() == 0,
            r.world.resolution.pending_choice is None,
            r.world.resolution.next_resolution_id == 0,
            r.world.resolution.next_event_id == 0,
            r.world.resolution.next_event_slot_id == 0,
            r.world.resolution.next_draw_result_slot_id == 0,
            r.world.next_game_entity_id == 7 + players@[0].hand@.len() + players@[0].deck@.len()
                + players@[1].hand@.len() + players@[1].deck@.len(),
            r.world.ruleset == crate::setup::standard_ruleset(),
    {
        let world = new_world(&players[0], &players[1]);
        Simulation { world }
    }

    /// Submits an action. An accepted action is recorded as accepted; a refused one is recorded
    /// with its reason, and one refused by validation changes nothing else.
    pub fn apply(&mut self, action: GameAction) -> (r: Result<(), SimulationError>)
        requires
            old(self).wf(),
        ensures
            final(self).wf(),
            action_check(old(self).world, action) matches Err(e) ==> {
                &&& r == Err::<(), SimulationError>(e)
                &&& final(self).world == (World { trace: final(self).world.trace, ..old(self).world })
                &&& final(self).world.trace@ == old(self).world.trace@.push(
                    TraceEntry::ActionRejected { player: action.spec_player(), reason: e },
                )
            },
            action_check(old(self).world, action) is Ok && !(old(self).world.resolution.sequence_active
                || old(self).world.resolution.retains_work()) && r is Err ==> {
                &&& !final(self).world.resolution.sequence_active
                &&& final(self).world.game.status == SimulationStatus::AwaitingAction || final(self).world.game.status
                    == settled_status(final(self).world.game)
                &&& (r matches Err(e) && !(e is Invariant)) ==> !final(self).world.resolution.retains_work()
                    && final(self).world.game.status == SimulationStatus::AwaitingAction
            },
            r is Ok ==> final(self).world.trace@.last() == (TraceEntry::ActionAccepted {
                player: action.spec_player(),
                action: action.label(),
            }),
            r is Ok ==> crate::driver::resolved_to_rest(final(self).world),
            r matches Err(e) ==> final(self).world.trace@.last() == (TraceEntry::ActionRejected {
                player: action.spec_player(),
                reason: e,
            }),
            exists|resolved: World|
                #[trigger] crate::driver::action_resolved(old(self).world, resolved, action, r) && final(self).world == (
                World { trace: final(self).world.trace, ..resolved }) && final(self).world.trace@ == resolved.trace@.push(
                    outcome_entry(action, r),
                ),
    {
        let player = action.player();
        let label = action.label();
        let result = apply_action(&mut self.world, action);
        let ghost resolved = self.world;
        match result {
            Ok(()) => {
                self.world.trace.push(TraceEntry::ActionAccepted { player, action: label });
            },
            Err(e) => {
                self.world.trace.push(TraceEntry::ActionRejected { player, reason: e });
            },
        }
        proof {
            assert(crate::driver::action_resolved(old(self).world, resolved, action, result));
        }
        result
    }

    /// Answers the pending choice with `option` and resolves on; a failure abandons the
    /// sequence and waits for the next action (or completes the game once it has an outcome).
    pub fn submit_choice(&mut self, option: ChoiceId) -> (r: Result<(), SimulationError>)
        requires
            old(self).wf(),
        ensures
            final(self).wf(),
            old(self).world.resolution.pending_choice is None ==> r == Err::<(), SimulationError>(
                SimulationError::Resolution(crate::resolver::ResolutionError::NoPendingChoice),
            ) && final(self).world == old(self).world,
            old(self).world.resolution.pending_choice matches Some(p) && (forall|k: int|
                0 <= k < p.request.options@.len() ==> (#[trigger] p.request.options@[k]).id != option) ==> r
                == Err::<(), SimulationError>(
                SimulationError::Resolution(crate::resolver::ResolutionError::InvalidChoice(option)),
            ) && final(self).world == old(self).world,
            r is Err ==> final(self).world == old(self).world || {
                &&& !final(self).world.resolution.sequence_active
                &&& final(self).world.game.status == settled_status(final(self).world.game)
                &&& (r matches Err(e) && !(e is Invariant)) ==> !final(self).world.resolution.retains_work()
            },
            choice_resumed(old(self).world, final(self).world, option, r),
            r is Ok ==> final(self).world.game.status == SimulationStatus::AwaitingChoice || {
                &&& final(self).world.resolution.stack@.len() == 0
                &&& !final(self).world.resolution.sequence_active
                &&& final(self).world.game.status == settled_status(final(self).world.game)
                &&& crate::driver::checks_pass(final(self).world)
            },
    {
        let answered_result = answer_choice(&mut self.world, option);
        let ghost answered = self.world;
        let ghost ra = answered_result;
        if answered_result.is_err() {
            proof {
                assert(crate::driver::choice_answered(old(self).world, answered, option, ra));
            }
            return answered_result;
        }
        let driven_result = drive_resolution(&mut self.world);
        let ghost driven = self.world;
        let ghost rd = driven_result;
        if driven_result.is_err() {
            abandon_sequence(&mut self.world.resolution);
            self.world.game.status = if self.world.game.outcome.is_some() {
                SimulationStatus::Complete
            } else {
                SimulationStatus::AwaitingAction
            };
            proof {
                assert(crate::driver::choice_answered(old(self).world, answered, option, ra));
                assert(resolution_run(answered, driven, rd, (answered.resolution.remaining_budget + 1) as nat));
            }
            return driven_result;
        }
        let r = finish_resolution_if_idle(&mut self.world);
        proof {
            assert(crate::driver::choice_answered(old(self).world, answered, option, ra));
            assert(resolution_run(answered, driven, rd, (answered.resolution.remaining_budget + 1) as nat));
        }
        r
    }

    /// What an observer sees of the game now.
    pub fn snapshot(&self) -> (r: GameSnapshot)
        requires
            crate::snapshot::snapshot_ready(self.world),
        ensures
            r.game == self.world.game,
            r.players@.len() == (if crate::snapshot::present(self.world, PlayerId::One) { 1int } else { 0 }) + (if crate::snapshot::present(
                self.world,
                PlayerId::Two,
            ) {
                1int
            } else {
                0
            }),
            crate::snapshot::present(self.world, PlayerId::One) ==> crate::snapshot::player_snapshot_of(
                self.world,
                PlayerId::One,
                r.players@[0],
            ),
            crate::snapshot::present(self.world, PlayerId::Two) ==> crate::snapshot::player_snapshot_of(
                self.world,
                PlayerId::Two,
                r.players@[if crate::snapshot::present(self.world, PlayerId::One) { 1int } else { 0 }],
            ),
            r.objects@ == crate::snapshot::shown_objects(self.world),
            r.deaths@ == self.world.deaths@,
            crate::checkpoint::same_work(r.resolution, self.world.resolution),
            r.ruleset == self.world.ruleset.id,
            r.extra_turns@ == self.world.turn_schedule.extra_turns@,
            r.dominant_player == self.world.dominant_player,
            r.rng == (crate::rng::RngSnapshot {
                algorithm_version: crate::rng::RNG_ALGORITHM_VERSION,
                state: self.world.rng.state,
                position: self.world.rng.position,
            }),
    {
        build_snapshot(&self.world)
    }

    /// Every action the active player may take now, each exactly as it would run.
    pub fn legal_actions(&self) -> (r: Vec<GameAction>)
        ensures
            crate::action_validation::all_accepted(self.world, r@),
            crate::action_validation::offers_every_accepted(self.world, r@),
            self.world.game.status != SimulationStatus::AwaitingAction ==> r@.len() == 0,
            crate::action_validation::canonically_ordered(r@),
    {
        legal_actions(&self.world)
    }

    /// Checks the rules of the game's bookkeeping: zone lists and objects agree, enchantments are
    /// sound, each player has its roles, the resolution bookkeeping fits the status, and no two
    /// objects share an identity.
    pub fn assert_invariants(&self) -> (r: Result<(), SimulationError>)
        ensures
            r is Ok <==> restored_rules_hold(self.world),
            r matches Err(e) ==> e is Invariant,
    {
        match crate::zone::assert_zone_invariants(&self.world) {
            Err(e) => return Err(SimulationError::Invariant(e)),
            Ok(_) => {},
        }
        match crate::enchantment::assert_enchantment_invariants(&self.world.objects) {
            Err(e) => return Err(SimulationError::Invariant(e)),
            Ok(_) => {},
        }
        match crate::player::assert_player_role_invariants(&self.world) {
            Err(e) => return Err(SimulationError::Invariant(e)),
            Ok(_) => {},
        }
        match crate::resolver::assert_resolution_invariants(&self.world.resolution, self.world.game.status) {
            Err(e) => return Err(SimulationError::Invariant(crate::error::InvariantViolation::Resolution(e))),
            Ok(_) => {},
        }
        match crate::driver::assert_game_entity_index(&self.world.objects) {
            Err(e) => Err(SimulationError::Invariant(e)),
            Ok(_) => Ok(()),
        }
    }

    /// The trace so far.
    pub fn trace(&self) -> (r: &Vec<TraceEntry>)
        ensures
            r@ == self.world.trace@,
    {
        &self.world.trace
    }

    /// A checkpoint of the game.
    pub fn checkpoint(&self) -> (r: Result<SimulationCheckpoint, SimulationError>)
        ensures
            dangling_attachment(self.world.objects@, self.world.objects@.len() as int) matches Some(id) ==> r == Err::<
                SimulationCheckpoint,
                SimulationError,
            >(SimulationError::Checkpoint(CheckpointError::MissingAttachmentTarget(id))),
            dangling_attachment(self.world.objects@, self.world.objects@.len() as int) is None ==> (r matches Ok(c)
                && checkpoint_of(self.world, c)),
    {
        build_checkpoint(&self.world)
    }

    /// The game a checkpoint describes (see `restore_checkpoint`).
    pub fn from_checkpoint(checkpoint: SimulationCheckpoint) -> (r: Result<Simulation, SimulationError>)
        ensures
            checkpoint_fault(checkpoint) matches Some(e) ==> r == Err::<Simulation, SimulationError>(
                SimulationError::Checkpoint(e),
            ),
            checkpoint_fault(checkpoint) is None && checkpoint.rng.algorithm_version != RNG_ALGORITHM_VERSION ==> r
                == Err::<Simulation, SimulationError>(
                SimulationError::Checkpoint(CheckpointError::UnsupportedRngVersion(checkpoint.rng.algorithm_version)),
            ),
            checkpoint_fault(checkpoint) is None && checkpoint.rng.algorithm_version == RNG_ALGORITHM_VERSION ==> (r is Ok
                <==> restorable(checkpoint)),
            r matches Ok(s) ==> s.wf() && restored_from(checkpoint, s.world) && restored_rules_hold(s.world),
    {
        match restore_checkpoint(checkpoint) {
            Ok(world) => Ok(Simulation { world }),
            Err(e) => Err(e),
        }
    }

    /// Replaces the game with the one a checkpoint describes; a refused checkpoint changes
    /// nothing.
    pub fn restore(&mut self, checkpoint: SimulationCheckpoint) -> (r: Result<(), SimulationError>)
        ensures
            checkpoint_fault(checkpoint) matches Some(e) ==> r == Err::<(), SimulationError>(
                SimulationError::Checkpoint(e),
            ),
            checkpoint_fault(checkpoint) is None && checkpoint.rng.algorithm_version != RNG_ALGORITHM_VERSION ==> r
                == Err::<(), SimulationError>(
                SimulationError::Checkpoint(CheckpointError::UnsupportedRngVersion(checkpoint.rng.algorithm_version)),
            ),
            checkpoint_fault(checkpoint) is None && checkpoint.rng.algorithm_version == RNG_ALGORITHM_VERSION ==> (r is Ok
                <==> restorable(checkpoint)),
            r is Ok ==> final(self).wf() && restored_from(checkpoint, final(self).world) && restored_rules_hold(
                final(self).world,
            ),
            r is Err ==> *final(self) == *old(self),
    {
        match restore_checkpoint(checkpoint) {
            Ok(world) => {
                self.world = world;
                Ok(())
            },
            Err(e) => Err(e),
        }
    }

    /// An independent copy of the game, made through a checkpoint: a game that cannot be
    /// checkpointed is refused as `checkpoint` refuses it; otherwise the game's checkpoint is
    /// restored (see `from_checkpoint`), and refused with its fault when it breaks a rule.
    pub fn fork(&self) -> (r: Result<Simulation, SimulationError>)
        ensures
            dangling_attachment(self.world.objects@, self.world.objects@.len() as int) matches Some(id) ==> r == Err::<
                Simulation,
                SimulationError,
            >(SimulationError::Checkpoint(CheckpointError::MissingAttachmentTarget(id))),
            dangling_attachment(self.world.objects@, self.world.objects@.len() as int) is None ==> exists|
                c: SimulationCheckpoint,
            | #[trigger] checkpoint_of(self.world, c) && forked_from(c, r),
            r matches Ok(s) ==> s.wf() && exists|c: SimulationCheckpoint|
                checkpoint_of(self.world, c) && restored_from(c, s.world),
    {
        let c = match self.checkpoint() {
            Ok(c) => c,
            Err(e) => return Err(e),
        };
        let ghost c0 = c;
        let r = Simulation::from_checkpoint(c);
        proof {
            assert(c0.rng.algorithm_version == RNG_ALGORITHM_VERSION);
            assert(checkpoint_of(self.world, c0) && forked_from(c0, r));
            if r is Ok {
                assert(checkpoint_of(self.world, c0) && restored_from(c0, r->Ok_0.world));
            }
        }
        r
    }
}

/// The trace entry that records the outcome of submitting `action`.
pub open spec fn outcome_entry(action: GameAction, r: Result<(), SimulationError>) -> TraceEntry {
    match r {
        Ok(_) => TraceEntry::ActionAccepted { player: action.spec_player(), action: action.label() },
        Err(e) => TraceEntry::ActionRejected { player: action.spec_player(), reason: e },
    }
}

/// What answering the pending choice of `old` with `option` and resuming gives: a refused answer
/// changes nothing (see `choice_answered`); otherwise the stack is run (see `resolution_run`); a
/// failed run abandons the retained work and settles the status (complete once the game has an
/// outcome, else awaiting an action) with the run's error; otherwise the sequence ends when idle
/// (see `finished_if_idle`).
pub open spec fn choice_resumed(old: World, new: World, option: ChoiceId, r: Result<(), SimulationError>) -> bool {
    exists|answered: World, ra: Result<(), SimulationError>|
        #[trigger] crate::driver::choice_answered(old, answered, option, ra) && match ra {
            Err(_) => r == ra && new == answered,
            Ok(_) => exists|driven: World, rd: Result<(), SimulationError>|
                #[trigger] resolution_run(answered, driven, rd, (answered.resolution.remaining_budget + 1) as nat)
                    && match rd {
                    Err(_) => {
                        &&& r == rd
                        &&& new == (World {
                            game: GameState { status: settled_status(driven.game), ..driven.game },
                            resolution: new.resolution,
                            ..driven
                        })
                        &&& crate::resolver::abandoned(driven.resolution, new.resolution)
                    },
                    Ok(_) => crate::driver::finished_if_idle(driven, new, r),
                },
        }
}

/// What restoring checkpoint `c` of a game as a fork gives: its first fault when it has one;
/// otherwise a fork exactly when the restored game keeps the rules, and then the restored game.
pub open spec fn forked_from(c: SimulationCheckpoint, r: Result<Simulation, SimulationError>) -> bool {
    &&& match checkpoint_fault(c) {
        Some(e) => r == Err::<Simulation, SimulationError>(SimulationError::Checkpoint(e)),
        None => r is Ok <==> restorable(c),
    }
    &&& r matches Ok(s) ==> s.wf() && restored_from(c, s.world) && restored_rules_hold(s.world)
}

/// A game between Jaina, holding one Training Minion (cost 1, attack 3, health 2), and Rexxar,
/// holding nothing.
pub fn simulation() -> (r: Simulation)
    ensures
        r.wf(),
        r.world.game.active_player == PlayerId::One,
        player_view(r.world, PlayerId::One) is Some,
        player_view(r.world, PlayerId::Two) is Some,
        r.world.zones.list(PlayerId::One, Zone::Hand).len() == 1,
        r.world.zones.list(PlayerId::Two, Zone::Hand).len() == 0,
        r.world.zones.list(PlayerId::One, Zone::Deck).len() == 0,
        r.world.zones.list(PlayerId::Two, Zone::Deck).len() == 0,
        r.world.game == (crate::world::GameState {
            status: SimulationStatus::AwaitingAction,
            active_player: PlayerId::One,
            turn_number: 1,
            outcome: None,
        }),
        player_view(r.world, PlayerId::One) == Some(
            (0int, fresh_player(PlayerId::One, 1), CurrentStats { attack: 0, maximum_health: STARTING_HEALTH }, 0i32),
        ),
        player_view(r.world, PlayerId::Two) == Some(
            (4int, fresh_player(PlayerId::Two, 0), CurrentStats { attack: 0, maximum_health: STARTING_HEALTH }, 0i32),
        ),
        r.world.objects@[0].display_name.unwrap()@ == "Jaina"@,
        r.world.objects@[4].display_name.unwrap()@ == "Rexxar"@,
        crate::zone::board_of(r.world, PlayerId::One).len() == 0,
        crate::zone::board_of(r.world, PlayerId::Two).len() == 0,
        exists|card: Card|
            {
                &&& card.name@ == "Training Minion"@
                &&& card.kind == EntityKind::Minion
                &&& card.cost == 1
                &&& card.attack == 3
                &&& card.health == 2
                &&& card.targeting == TargetRequirement::Untargeted
                &&& #[trigger] holds_cards(r.world, PlayerId::One, Zone::Hand, seq![card])
            },
        !r.world.resolution.retains_work(),
        !r.world.resolution.sequence_active,
        r.world.resolution.next_resolution_id == 0,
        r.world.resolution.next_event_id == 0,
        r.world.resolution.next_event_slot_id == 0,
        r.world.resolution.next_draw_result_slot_id == 0,
        r.world.next_game_entity_id == 8,
        r.world.ruleset == crate::setup::standard_ruleset(),
{
    let mut hand: Vec<Card> = Vec::new();
    let minion = Card::minion("Training Minion", 1, 3, 2);
    let ghost card = minion;
    hand.push(minion);
    let jaina = PlayerConfig::new("Jaina", hand);
    let rexxar = PlayerConfig::new("Rexxar", Vec::new());
    proof {
        assert(jaina.hand@ =~= seq![card]);
    }
    let r = Simulation::new([jaina, rexxar]);
    proof {
        assert(holds_cards(r.world, PlayerId::One, Zone::Hand, seq![card]));
    }
    r
}

/// The first card in `player`'s hand.
pub fn hand_card(simulation: &mut Simulation, player: PlayerId) -> (r: GameEntityId)
    requires
        old(simulation).world.zones.list(player, Zone::Hand).len() > 0,
    ensures
        r == old(simulation).world.zones.list(player, Zone::Hand)[0],
        *final(simulation) == *old(simulation),
{
    let hand = simulation.world.zones.entities(player, Zone::Hand);
    hand[0]
}

/// `player`'s hero.
pub fn hero(simulation: &mut Simulation, player: PlayerId) -> (r: GameEntityId)
    requires
        hero_of(old(simulation).world, player) is Some,
    ensures
        Some(r) == hero_of(old(simulation).world, player),
        *final(simulation) == *old(simulation),
{
    match hero_id(&simulation.world, player) {
        Some(h) => h,
        None => GameEntityId(0),
    }
}

} // verus!
