//! The steps of accepted actions: playing cards, attacks, turns, conceding.
use vstd::prelude::*;

use crate::enchantment::{recalculate_cost, recalculate_keywords, recalculate_stats};
use crate::error::{InvariantViolation, SimulationError, ZoneError};
use crate::operations::{
    copy_ids, ops_view, DamageRequest, EffectContext, EffectOrigin, EventContext, EventContextView, EventKind, OpView,
    PhaseBoundaryPlan, AuraRefreshPlan, ResolutionOp, ScheduledTurnKind, SequenceStep,
};
use crate::resolver::ResolutionError;
use crate::trigger::{copy_program, Effect};
use crate::player::{controlled_check, controlled_entity_in_zone, player, player_view};
use crate::resolver::{lemma_pushed_views, push_resolution_ops, pushed_views, ResolutionWork};
use crate::trace::{trace_view, TraceEntry, TraceEntryView};
use crate::types::{EntityKind, GameEntityId, GameOutcome, PlayerId, Zone};
use crate::world::{
    ScheduledTurn, game_entity, lemma_wf_update, lookup, sat_add, sat_add_i32, world_wf, AttackState, CurrentStats,
    EnchantmentDuration, GameObject, GameState, HeroPowerState, Player, World, program_of,
};
use crate::zone::{move_entity, zone_listed, zone_move, ZoneMoveOutcome};

verus! {

/// Room for `ops` more operation identities and `events` more event identities.
pub open spec fn room(w: World, ops: int, events: int) -> bool {
    &&& w.resolution.next_resolution_id + ops <= u64::MAX
    &&& w.resolution.next_event_id + events <= u64::MAX
}

/// The picture of an event context with no values and ordinal zero.
pub open spec fn context(kind: EventKind, source: Option<GameEntityId>, targets: Seq<GameEntityId>, controller: PlayerId) -> EventContextView {
    EventContextView {
        kind,
        source,
        targets,
        controller,
        proposed_value: None,
        actual_value: None,
        simultaneous_ordinal: 0,
    }
}

/// An event context with no values and ordinal zero.
pub fn make_context(kind: EventKind, source: Option<GameEntityId>, targets: Vec<GameEntityId>, controller: PlayerId) -> (r: EventContext)
    ensures
        r@ == context(kind, source, targets@, controller),
{
    EventContext {
        kind,
        source,
        targets,
        controller,
        proposed_value: None,
        actual_value: None,
        simultaneous_ordinal: 0,
    }
}

/// Whether `new` is `old` with only the operations pictured by `views` pushed, so that the first
/// of them runs first.
pub open spec fn only_pushed(old: World, new: World, views: Seq<OpView>) -> bool {
    &&& new == (World { resolution: new.resolution, ..old })
    &&& new.resolution == (ResolutionWork {
        stack: new.resolution.stack,
        next_resolution_id: (old.resolution.next_resolution_id + views.len()) as u64,
        ..old.resolution
    })
    &&& pushed_views(old.resolution.stack@, new.resolution.stack@, views, old.resolution.next_resolution_id)
}

fn push_ops(world: &mut World, ops: Vec<ResolutionOp>)
    requires
        old(world).resolution.next_resolution_id + ops@.len() <= u64::MAX,
    ensures
        only_pushed(*old(world), *final(world), ops_view(ops@)),
{
    let ghost o = ops@;
    let ghost stack = world.resolution.stack@;
    let ghost next = world.resolution.next_resolution_id;
    push_resolution_ops(&mut world.resolution, ops);
    proof {
        lemma_pushed_views(stack, o, next);
    }
}

/// What ending the turn of `player` pushes: the turn-ended event, a phase boundary, an outcome
/// check and the turn advance.
pub open spec fn end_turn_ops(player: PlayerId) -> Seq<OpView> {
    seq![
        OpView::PrepareEvent(context(EventKind::TurnEnded, None, Seq::empty(), player)),
        OpView::RunPhaseBoundary(PhaseBoundaryPlan::Ordinary),
        OpView::CheckOutcome,
        OpView::RunSequenceStep(SequenceStep::AdvanceTurn { ending_player: player }),
    ]
}

/// Ends the turn of `player`: schedules the turn-ended event, a phase boundary, an outcome check
/// and the advance to the next turn.
pub fn end_turn(world: &mut World, player: PlayerId)
    requires
        room(*old(world), 4, 0),
    ensures
        final(world).resolution.remaining_budget == old(world).resolution.remaining_budget,
        final(world).resolution.sequence_active == old(world).resolution.sequence_active,
        only_pushed(*old(world), *final(world), end_turn_ops(player)),
{
    let ops = vec![
        ResolutionOp::PrepareEvent(make_context(EventKind::TurnEnded, None, Vec::new(), player)),
        ResolutionOp::RunPhaseBoundary(PhaseBoundaryPlan::Ordinary),
        ResolutionOp::CheckOutcome,
        ResolutionOp::RunSequenceStep(SequenceStep::AdvanceTurn { ending_player: player }),
    ];
    proof {
        crate::operations::lemma_ops_view_index(ops@);
        assert(ops_view(ops@) =~= end_turn_ops(player));
    }
    push_ops(world, ops);
}

/// What conceding does: the opponent wins, and the outcome is recorded.
pub open spec fn conceded(old: World, new: World, player: PlayerId) -> bool {
    &&& new == (World {
        game: GameState { outcome: Some(GameOutcome::Winner(player.spec_opponent())), ..old.game },
        trace: new.trace,
        ..old
    })
    &&& new.trace@ == old.trace@.push(TraceEntry::Outcome { winner: Some(player.spec_opponent()) })
}

/// `player` concedes: the opponent wins.
pub fn concede(world: &mut World, player: PlayerId)
    ensures
        final(world).resolution.remaining_budget == old(world).resolution.remaining_budget,
        final(world).resolution.sequence_active == old(world).resolution.sequence_active,
        conceded(*old(world), *final(world), player),
{
    let winner = player.opponent();
    world.game.outcome = Some(GameOutcome::Winner(winner));
    world.trace.push(TraceEntry::Outcome { winner: Some(winner) });
}

/// What spending `amount` (never below zero) of `player`'s mana does.
pub open spec fn spent(old: World, new: World, player: PlayerId, amount: i32, r: Result<(), SimulationError>) -> bool {
    let due = if amount < 0 { 0i32 } else { amount };
    match player_view(old, player) {
        None => r == Err::<(), SimulationError>(SimulationError::PlayerNotFound(player)) && new == old,
        Some((i, data, _, _)) => {
            &&& r is Ok
            &&& new == (World { objects: new.objects, trace: new.trace, ..old })
            &&& new.objects@ == old.objects@.update(
                i,
                GameObject {
                    player: Some(Player {
                        used_resources: sat_add(data.used_resources, due),
                        resources_spent: sat_add(data.resources_spent, due),
                        ..data
                    }),
                    ..old.objects@[i]
                },
            )
            &&& new.trace@ == old.trace@.push(TraceEntry::ResourceSpent { player, amount: due })
        },
    }
}

/// Spends `amount` (never below zero) of `player`'s mana and records it.
pub fn spend_resources(world: &mut World, player_id: PlayerId, amount: i32) -> (r: Result<(), SimulationError>)
    requires
        world_wf(*old(world)),
    ensures
        final(world).resolution.remaining_budget == old(world).resolution.remaining_budget,
        final(world).resolution.sequence_active == old(world).resolution.sequence_active,
        spent(*old(world), *final(world), player_id, amount, r),
        world_wf(*final(world)),
{
    let due: i32 = if amount < 0 { 0 } else { amount };
    let ghost before = *world;
    let (i, data) = match player(world, player_id) {
        Some((i, data, _, _)) => (i, data),
        None => return Err(SimulationError::PlayerNotFound(player_id)),
    };
    proof {
        crate::player::lemma_player_positions_bounded(before.objects@, player_id, before.objects@.len() as int);
    }
    let updated = Player {
        used_resources: sat_add_i32(data.used_resources, due),
        resources_spent: sat_add_i32(data.resources_spent, due),
        ..data
    };
    world.objects[i].player = Some(updated);
    world.trace.push(TraceEntry::ResourceSpent { player: player_id, amount: due });
    proof {
        let o = GameObject { player: Some(updated), ..before.objects@[i as int] };
        assert(world.objects@ =~= before.objects@.update(i as int, o));
        lemma_wf_update(before.objects@, i as int, o);
    }
    Ok(())
}

/// The damage an attack deals: the attacker's attack to the defender, and the defender's
/// attack back when it is positive; an absent stat counts as zero.
pub open spec fn attack_damage(w: World, attacker: GameEntityId, defender: GameEntityId) -> Seq<DamageRequest> {
    let a = w.objects@[lookup(w.objects@, attacker)->0];
    let d = w.objects@[lookup(w.objects@, defender)->0];
    let attack = match a.current_stats {
        Some(s) => s.attack,
        None => 0,
    };
    let counter = match d.current_stats {
        Some(s) => s.attack,
        None => 0,
    };
    let first = seq![DamageRequest { source: Some(attacker), target: defender, proposed: attack }];
    if counter > 0 {
        first.push(DamageRequest { source: Some(defender), target: attacker, proposed: counter })
    } else {
        first
    }
}

/// Combat damage: the attacker deals its current attack to the defender, and the defender
/// strikes back with its own current attack, exactly when that attack is positive. No request
/// of the defender against the attacker proposes anything but the defender's attack.
pub proof fn law_combat_damage_is_mutual(w: World, attacker: GameEntityId, defender: GameEntityId)
    requires
        lookup(w.objects@, attacker) is Some,
        lookup(w.objects@, defender) is Some,
        attacker != defender,
    ensures
        ({
            let dmg = attack_damage(w, attacker, defender);
            let a = w.objects@[lookup(w.objects@, attacker)->0];
            let d = w.objects@[lookup(w.objects@, defender)->0];
            let strike = if a.current_stats is Some { a.current_stats->0.attack } else { 0 };
            let back = if d.current_stats is Some { d.current_stats->0.attack } else { 0 };
            &&& dmg.len() >= 1
            &&& dmg[0] == DamageRequest { source: Some(attacker), target: defender, proposed: strike }
            &&& forall|k: int|
                0 <= k < dmg.len() && (#[trigger] dmg[k]).source == Some(defender) && dmg[k].target == attacker
                    ==> dmg[k].proposed == back
            &&& (exists|k: int|
                0 <= k < dmg.len() && (#[trigger] dmg[k]).source == Some(defender) && dmg[k].target == attacker)
                <==> back > 0
            &&& forall|k: int| 0 <= k < dmg.len() ==> (#[trigger] dmg[k]).target == defender || dmg[k].target == attacker
        }),
{
    let dmg = attack_damage(w, attacker, defender);
    let d = w.objects@[lookup(w.objects@, defender)->0];
    let back = if d.current_stats is Some { d.current_stats->0.attack } else { 0 };
    if back > 0 {
        assert(dmg[1].source == Some(defender) && dmg[1].target == attacker);
    }
}

/// What an attack pushes: the attack event, the combat damage and the finish of the attack.
pub open spec fn attack_ops(w: World, player: PlayerId, attacker: GameEntityId, defender: GameEntityId) -> Seq<OpView> {
    seq![
        OpView::PrepareEvent(context(EventKind::Attack, Some(attacker), seq![defender], player)),
        OpView::ProcessDamageBatch(attack_damage(w, attacker, defender)),
        OpView::RunSequenceStep(SequenceStep::FinishAttack { player, attacker, defender }),
    ]
}

/// Runs an attack: schedules the attack event, the combat damage and the finish of the attack.
/// An attacker or defender that is gone is refused.
pub fn attack(world: &mut World, player: PlayerId, attacker: GameEntityId, defender: GameEntityId) -> (r: Result<
    (),
    SimulationError,
>)
    requires
        room(*old(world), 3, 0),
    ensures
        final(world).resolution.remaining_budget == old(world).resolution.remaining_budget,
        final(world).resolution.sequence_active == old(world).resolution.sequence_active,
        lookup(old(world).objects@, attacker) is None ==> r == Err::<(), SimulationError>(
            SimulationError::EntityNotFound(attacker),
        ) && *final(world) == *old(world),
        lookup(old(world).objects@, attacker) is Some && lookup(old(world).objects@, defender) is None ==> r
            == Err::<(), SimulationError>(SimulationError::EntityNotFound(defender)) && *final(world) == *old(world),
        lookup(old(world).objects@, attacker) is Some && lookup(old(world).objects@, defender) is Some ==> r is Ok
            && only_pushed(*old(world), *final(world), attack_ops(*old(world), player, attacker, defender)),
{
    let a = match game_entity(&world.objects, attacker) {
        Some(a) => a,
        None => return Err(SimulationError::EntityNotFound(attacker)),
    };
    let d = match game_entity(&world.objects, defender) {
        Some(d) => d,
        None => return Err(SimulationError::EntityNotFound(defender)),
    };
    let attack_value = match world.objects[a].current_stats {
        Some(s) => s.attack,
        None => 0,
    };
    let counter = match world.objects[d].current_stats {
        Some(s) => s.attack,
        None => 0,
    };
    let mut damage = vec![DamageRequest { source: Some(attacker), target: defender, proposed: attack_value }];
    if counter > 0 {
        damage.push(DamageRequest { source: Some(defender), target: attacker, proposed: counter });
    }
    let ghost w0 = *world;
    proof {
        assert(damage@ =~= attack_damage(w0, attacker, defender));
    }
    let mut targets: Vec<GameEntityId> = Vec::new();
    targets.push(defender);
    proof {
        assert(targets@ =~= seq![defender]);
    }
    let ops = vec![
        ResolutionOp::PrepareEvent(make_context(EventKind::Attack, Some(attacker), targets, player)),
        ResolutionOp::ProcessDamageBatch(damage),
        ResolutionOp::RunSequenceStep(SequenceStep::FinishAttack { player, attacker, defender }),
    ];
    proof {
        crate::operations::lemma_ops_view_index(ops@);
        assert(ops_view(ops@) =~= attack_ops(w0, player, attacker, defender));
    }
    push_ops(world, ops);
    Ok(())
}

/// What finishing an attack does: the attacker counts one more attack and is exhausted, and the
/// after-attack event is scheduled.
pub open spec fn attack_finished(old: World, new: World, player: PlayerId, attacker: GameEntityId, defender: GameEntityId) -> bool {
    let views = seq![OpView::PrepareEvent(context(EventKind::AfterAttack, Some(attacker), seq![defender], player))];
    exists|mid: World|
        {
            &&& mid == (World { objects: mid.objects, ..old })
            &&& match lookup(old.objects@, attacker) {
                Some(i) if old.objects@[i].attack_state is Some => {
                    let s = old.objects@[i].attack_state->0;
                    mid.objects@ == old.objects@.update(
                        i,
                        GameObject {
                            attack_state: Some(AttackState {
                                attacks_this_turn: if s.attacks_this_turn < u32::MAX {
                                    (s.attacks_this_turn + 1) as u32
                                } else {
                                    s.attacks_this_turn
                                },
                                exhausted: true,
                            }),
                            ..old.objects@[i]
                        },
                    )
                },
                _ => mid.objects@ == old.objects@,
            }
            &&& #[trigger] only_pushed(mid, new, views)
        }
}

/// Finishes an attack: the attacker counts one more attack and is exhausted, and the
/// after-attack event is scheduled.
pub fn finish_attack(world: &mut World, player: PlayerId, attacker: GameEntityId, defender: GameEntityId)
    requires
        room(*old(world), 1, 0),
        world_wf(*old(world)),
    ensures
        final(world).resolution.remaining_budget == old(world).resolution.remaining_budget,
        final(world).resolution.sequence_active == old(world).resolution.sequence_active,
        attack_finished(*old(world), *final(world), player, attacker, defender),
        world_wf(*final(world)),
{
    let ghost w0 = *world;
    match game_entity(&world.objects, attacker) {
        Some(i) => match world.objects[i].attack_state {
            Some(s) => {
                let count = if s.attacks_this_turn < u32::MAX { s.attacks_this_turn + 1 } else { s.attacks_this_turn };
                world.objects[i].attack_state = Some(AttackState { attacks_this_turn: count, exhausted: true });
                proof {
                    let o = GameObject { attack_state: Some(AttackState { attacks_this_turn: count, exhausted: true }), ..w0.objects@[i as int] };
                    assert(world.objects@ =~= w0.objects@.update(i as int, o));
                    lemma_wf_update(w0.objects@, i as int, o);
                }
            },
            None => {},
        },
        None => {},
    }
    let ghost mid = *world;
    let mut targets: Vec<GameEntityId> = Vec::new();
    targets.push(defender);
    proof {
        assert(targets@ =~= seq![defender]);
    }
    let ops = vec![ResolutionOp::PrepareEvent(make_context(EventKind::AfterAttack, Some(attacker), targets, player))];
    proof {
        crate::operations::lemma_ops_view_index(ops@);
        assert(ops_view(ops@) =~= seq![OpView::PrepareEvent(context(EventKind::AfterAttack, Some(attacker), seq![defender], player))]);
    }
    push_ops(world, ops);
}


/// `o` with its attack and hero power readiness restored for a new turn.
pub open spec fn turn_reset(o: GameObject) -> GameObject {
    GameObject {
        attack_state: match o.attack_state {
            Some(_) => Some(AttackState { attacks_this_turn: 0, exhausted: false }),
            None => None,
        },
        hero_power_state: match o.hero_power_state {
            Some(_) => Some(HeroPowerState { uses_this_turn: 0, exhausted: false }),
            None => None,
        },
        ..o
    }
}

/// A player's resources at the start of its turn: one more mana crystal up to the limit, no mana
/// used or borrowed, and the pending overload locked.
pub open spec fn refreshed_player(data: Player, maximum_mana: i32) -> Player {
    let raised = sat_add(data.maximum_resources, 1);
    Player {
        maximum_resources: if raised < maximum_mana { raised } else { maximum_mana },
        used_resources: 0,
        temporary_resources: 0,
        locked_overload: data.pending_overload,
        pending_overload: 0,
        ..data
    }
}

/// A new turn refreshes mana: once its turn starts, the player has used no mana and borrows
/// none, holds one more mana crystal (up to the ruleset's maximum), has its pending overload
/// locked, and can spend its whole maximum less the locked overload.
pub proof fn law_turn_start_refreshes_mana(
    old: World,
    new: World,
    player: PlayerId,
    kind: ScheduledTurnKind,
    r: Result<(), SimulationError>,
)
    requires
        turn_started(old, new, player, kind, r),
        player_view(old, player) is Some,
    ensures
        r is Ok,
        match player_view(old, player) {
            Some((i, data, _, _)) => {
                let p = new.objects@[i].player->0;
                &&& new.objects@[i].player is Some
                &&& p.used_resources == 0
                &&& p.temporary_resources == 0
                &&& p.locked_overload == data.pending_overload
                &&& p.pending_overload == 0
                &&& p.id == data.id && p.fatigue == data.fatigue && p.resources_spent == data.resources_spent
                &&& data.maximum_resources < old.ruleset.maximum_mana ==> p.maximum_resources == data.maximum_resources + 1
                &&& data.maximum_resources >= old.ruleset.maximum_mana ==> p.maximum_resources == old.ruleset.maximum_mana
                &&& crate::world::available_of(p) == (if p.maximum_resources - data.pending_overload < 0 {
                    0
                } else if p.maximum_resources - data.pending_overload > i32::MAX {
                    i32::MAX as int
                } else {
                    p.maximum_resources - data.pending_overload
                })
            },
            None => false,
        },
{
    crate::player::lemma_player_positions_bounded(old.objects@, player, old.objects@.len() as int);
    let i = match player_view(old, player) {
        Some((j, _, _, _)) => j,
        None => 0,
    };
    assert(0 <= i < old.objects@.len());
}

/// A new turn belongs to its player: the player becomes active, the turn number grows by one
/// (staying at its largest value), and every character and hero power the player has in play is
/// ready again, with no attack or use counted; objects outside the player's board keep their
/// readiness.
pub proof fn law_turn_start_readies_the_board(
    old: World,
    new: World,
    player: PlayerId,
    kind: ScheduledTurnKind,
    r: Result<(), SimulationError>,
)
    requires
        turn_started(old, new, player, kind, r),
        player_view(old, player) is Some,
    ensures
        new.game.active_player == player,
        old.game.turn_number < u32::MAX ==> new.game.turn_number == old.game.turn_number + 1,
        new.objects@.len() == old.objects@.len(),
        forall|j: int|
            0 <= j < old.objects@.len() && old.zones.list(player, Zone::Play).contains(#[trigger] old.objects@[j].id)
                ==> (old.objects@[j].attack_state is Some ==> new.objects@[j].attack_state == Some(
                AttackState { attacks_this_turn: 0, exhausted: false },
            )) && (old.objects@[j].hero_power_state is Some ==> new.objects@[j].hero_power_state == Some(
                HeroPowerState { uses_this_turn: 0, exhausted: false },
            )),
        forall|j: int|
            0 <= j < old.objects@.len() && !old.zones.list(player, Zone::Play).contains(#[trigger] old.objects@[j].id)
                ==> new.objects@[j].attack_state == old.objects@[j].attack_state && new.objects@[j].hero_power_state
                == old.objects@[j].hero_power_state,
{
    crate::player::lemma_player_positions_bounded(old.objects@, player, old.objects@.len() as int);
    let mid = choose|mid: World|
        {
            &&& mid == (World { objects: new.objects, game: GameState { active_player: player, turn_number: next_turn_number(old.game.turn_number), ..old.game }, trace: mid.trace, ..old })
            &&& mid.trace@ == old.trace@.push(TraceEntry::TurnChanged { active_player: player, turn: next_turn_number(old.game.turn_number), kind })
            &&& #[trigger] only_pushed(mid, new, seq![OpView::PrepareEvent(context(EventKind::TurnStarted, None, Seq::empty(), player))])
        };
    assert forall|j: int| 0 <= j < old.objects@.len() implies #[trigger] new.objects@[j].attack_state == (if old.zones.list(player, Zone::Play).contains(old.objects@[j].id) {
        turn_reset(old.objects@[j]).attack_state
    } else {
        old.objects@[j].attack_state
    }) && new.objects@[j].hero_power_state == (if old.zones.list(player, Zone::Play).contains(old.objects@[j].id) {
        turn_reset(old.objects@[j]).hero_power_state
    } else {
        old.objects@[j].hero_power_state
    }) by {}
}

/// The turn number after `turn`, staying at the largest value.
pub open spec fn next_turn_number(turn: u32) -> u32 {
    if turn < u32::MAX {
        (turn + 1) as u32
    } else {
        turn
    }
}

/// What starting a turn of `player` does: it becomes the active player and the turn number
/// grows; its resources are refreshed; its characters and hero powers in play are ready again;
/// the turn change is recorded and the turn-started event scheduled.
pub open spec fn turn_started(old: World, new: World, player: PlayerId, kind: ScheduledTurnKind, r: Result<(), SimulationError>) -> bool {
    let turn = next_turn_number(old.game.turn_number);
    let game = GameState { active_player: player, turn_number: turn, ..old.game };
    match player_view(old, player) {
        None => r == Err::<(), SimulationError>(SimulationError::PlayerNotFound(player)) && new == (World { game, ..old }),
        Some((i, data, _, _)) => {
            let base = old.objects@.update(
                i,
                GameObject { player: Some(refreshed_player(data, old.ruleset.maximum_mana)), ..old.objects@[i] },
            );
            let listed = old.zones.list(player, Zone::Play);
            &&& r is Ok
            &&& new.objects@.len() == base.len()
            &&& forall|j: int|
                0 <= j < base.len() ==> #[trigger] new.objects@[j] == if listed.contains(base[j].id) {
                    turn_reset(base[j])
                } else {
                    base[j]
                }
            &&& exists|mid: World|
                {
                    &&& mid == (World { objects: new.objects, game, trace: mid.trace, ..old })
                    &&& mid.trace@ == old.trace@.push(TraceEntry::TurnChanged { active_player: player, turn, kind })
                    &&& #[trigger] only_pushed(mid, new, seq![OpView::PrepareEvent(context(EventKind::TurnStarted, None, Seq::empty(), player))])
                }
        },
    }
}

fn reset_listed(objects: &mut Vec<GameObject>, ids: &Vec<GameEntityId>)
    requires
        crate::aura::unique_ids(old(objects)@),
        crate::aura_refresh::auras_indexable(old(objects)@),
    ensures
        final(objects)@.len() == old(objects)@.len(),
        forall|j: int|
            0 <= j < old(objects)@.len() ==> #[trigger] final(objects)@[j] == if ids@.contains(old(objects)@[j].id) {
                turn_reset(old(objects)@[j])
            } else {
                old(objects)@[j]
            },
        crate::aura::unique_ids(final(objects)@),
        crate::aura_refresh::auras_indexable(final(objects)@),
{
    let ghost base = objects@;
    let mut k: usize = 0;
    while k < ids.len()
        invariant
            k <= ids.len(),
            crate::aura::unique_ids(base),
            crate::aura_refresh::auras_indexable(base),
            objects@.len() == base.len(),
            forall|j: int|
                0 <= j < base.len() ==> #[trigger] objects@[j] == if ids@.subrange(0, k as int).contains(base[j].id) {
                    turn_reset(base[j])
                } else {
                    base[j]
                },
        decreases ids.len() - k,
    {
        let id = ids[k];
        let ghost before = objects@;
        proof {
            crate::world::lemma_wf_frame(base, before);
        }
        match game_entity(objects, id) {
            Some(i) => {
                match objects[i].attack_state {
                    Some(_) => {
                        objects[i].attack_state = Some(AttackState { attacks_this_turn: 0, exhausted: false });
                    },
                    None => {},
                }
                match objects[i].hero_power_state {
                    Some(_) => {
                        objects[i].hero_power_state = Some(HeroPowerState { uses_this_turn: 0, exhausted: false });
                    },
                    None => {},
                }
                proof {
                    assert(before[i as int].id == id);
                    assert(base[i as int].id == id);
                    assert(objects@[i as int] == turn_reset(base[i as int]));
                }
            },
            None => {},
        }
        proof {
            assert forall|j: int| 0 <= j < base.len() implies #[trigger] objects@[j] == if ids@.subrange(0, k + 1).contains(
                base[j].id,
            ) {
                turn_reset(base[j])
            } else {
                base[j]
            } by {
                crate::action_validation::lemma_prefix_step_ids(ids@, k as int, base[j].id);
                if base[j].id == id {
                    assert(crate::world::has_id(base, id));
                    assert(crate::world::has_id(before, id)) by {
                        assert(before[j].id == id);
                    }
                } else {
                    if let Some(i) = crate::world::lookup(before, id) {
                        assert(before[i].id == id);
                        assert(i != j) by {
                            assert(before[j].id == base[j].id);
                        }
                    }
                }
            }
        }
        k = k + 1;
    }
    proof {
        assert(ids@.subrange(0, ids@.len() as int) =~= ids@);
        crate::world::lemma_wf_frame(base, objects@);
    }
}

/// Starts a turn of `player`: it becomes the active player and the turn number grows; its
/// resources are refreshed; its characters and hero powers in play are ready again; the turn
/// change is recorded and the turn-started event scheduled.
pub fn start_turn(world: &mut World, player_id: PlayerId, kind: ScheduledTurnKind) -> (r: Result<(), SimulationError>)
    requires
        world_wf(*old(world)),
        room(*old(world), 1, 0),
    ensures
        final(world).resolution.remaining_budget == old(world).resolution.remaining_budget,
        final(world).resolution.sequence_active == old(world).resolution.sequence_active,
        turn_started(*old(world), *final(world), player_id, kind, r),
        world_wf(*final(world)),
{
    let ghost w0 = *world;
    let turn = if world.game.turn_number < u32::MAX { world.game.turn_number + 1 } else { world.game.turn_number };
    world.game.active_player = player_id;
    world.game.turn_number = turn;
    let (i, data) = match player(world, player_id) {
        Some((i, data, _, _)) => (i, data),
        None => return Err(SimulationError::PlayerNotFound(player_id)),
    };
    proof {
        crate::player::lemma_player_positions_bounded(w0.objects@, player_id, w0.objects@.len() as int);
    }
    let raised = sat_add_i32(data.maximum_resources, 1);
    let maximum = world.ruleset.maximum_mana;
    let refreshed = Player {
        maximum_resources: if raised < maximum { raised } else { maximum },
        used_resources: 0,
        temporary_resources: 0,
        locked_overload: data.pending_overload,
        pending_overload: 0,
        ..data
    };
    world.objects[i].player = Some(refreshed);
    let ghost base = world.objects@;
    proof {
        let o = GameObject { player: Some(refreshed), ..w0.objects@[i as int] };
        assert(base =~= w0.objects@.update(i as int, o));
        lemma_wf_update(w0.objects@, i as int, o);
    }
    let listed = copy_ids(world.zones.entities(player_id, Zone::Play));
    reset_listed(&mut world.objects, &listed);
    world.trace.push(TraceEntry::TurnChanged { active_player: player_id, turn, kind });
    let ghost mid = *world;
    let ops = vec![ResolutionOp::PrepareEvent(make_context(EventKind::TurnStarted, None, Vec::new(), player_id))];
    proof {
        crate::operations::lemma_ops_view_index(ops@);
        assert(ops_view(ops@) =~= seq![OpView::PrepareEvent(context(EventKind::TurnStarted, None, Seq::empty(), player_id))]);
    }
    push_ops(world, ops);
    Ok(())
}


/// Whether a temporary effect on `o` runs out when `ending` ends its turn and `next` takes the
/// next one: an end-of-turn effect of `ending`, or an end-of-turn-series effect of `ending`
/// when the next turn is another player's. Only controlled objects expire.
pub open spec fn expires(o: GameObject, ending: PlayerId, next: PlayerId) -> bool {
    &&& o.controller is Some
    &&& match o.enchantment_duration {
        Some(EnchantmentDuration::EndOfTurn(p)) => p == ending,
        Some(EnchantmentDuration::EndOfTurnSeries(p)) => p == ending && next != ending,
        _ => false,
    }
}

/// The positions among the first `n` objects whose temporary effects run out.
pub open spec fn expiring_positions(objects: Seq<GameObject>, ending: PlayerId, next: PlayerId, n: int) -> Seq<int>
    decreases n,
{
    if n <= 0 {
        Seq::empty()
    } else {
        let prev = expiring_positions(objects, ending, next, n - 1);
        if expires(objects[n - 1], ending, next) {
            prev.push(n - 1)
        } else {
            prev
        }
    }
}

proof fn lemma_expiring_positions(objects: Seq<GameObject>, ending: PlayerId, next: PlayerId, n: int)
    requires
        n <= objects.len(),
    ensures
        forall|a: int, b: int|
            0 <= a < b < expiring_positions(objects, ending, next, n).len() ==> #[trigger] expiring_positions(
                objects,
                ending,
                next,
                n,
            )[a] < #[trigger] expiring_positions(objects, ending, next, n)[b],
        forall|a: int|
            0 <= a < expiring_positions(objects, ending, next, n).len() ==> 0 <= #[trigger] expiring_positions(
                objects,
                ending,
                next,
                n,
            )[a] < n && expires(objects[expiring_positions(objects, ending, next, n)[a]], ending, next),
        forall|j: int|
            0 <= j < n && expires(objects[j], ending, next) ==> #[trigger] expiring_positions(objects, ending, next, n).contains(j),
    decreases n,
{
    if n > 0 {
        lemma_expiring_positions(objects, ending, next, n - 1);
        let prev = expiring_positions(objects, ending, next, n - 1);
        let cur = expiring_positions(objects, ending, next, n);
        assert forall|j: int| 0 <= j < n && expires(objects[j], ending, next) implies #[trigger] cur.contains(j) by {
            if j < n - 1 {
                assert(prev.contains(j));
                let k = choose|k: int| 0 <= k < prev.len() && prev[k] == j;
                assert(cur[k] == j);
            } else {
                assert(cur[cur.len() - 1] == j);
            }
        }
    }
}

/// The trace entries of the effects that run out, in object order.
pub open spec fn expiry_entries(objects: Seq<GameObject>, ending: PlayerId, next: PlayerId) -> Seq<TraceEntryView> {
    let positions = expiring_positions(objects, ending, next, objects.len() as int);
    Seq::new(positions.len(), |k: int| TraceEntryView::TemporaryEffectExpired { entity: objects[positions[k]].id })
}

/// Whether `b` is `a` with at most its attachment, zone, stats, damage, keywords and card data
/// changed.
pub open spec fn expiry_frame(a: GameObject, b: GameObject) -> bool {
    b == (GameObject {
        attached_to: b.attached_to,
        zone: b.zone,
        current_stats: b.current_stats,
        damage: b.damage,
        keywords: b.keywords,
        card_runtime: b.card_runtime,
        ..a
    })
}

/// Whether `b` keeps the stats, damage, keywords and card data of `a`.
pub open spec fn keeps_recalculated(a: GameObject, b: GameObject) -> bool {
    &&& b.current_stats == a.current_stats
    &&& b.damage == a.damage
    &&& b.keywords == a.keywords
    &&& b.card_runtime == a.card_runtime
}

/// Whether some object at `positions` is attached to `id`.
pub open spec fn targeted_by(objects: Seq<GameObject>, positions: Seq<int>, id: GameEntityId) -> bool {
    exists|m: int| 0 <= m < positions.len() && #[trigger] objects[positions[m]].attached_to == Some(id)
}

/// Whether some object whose temporary effect runs out is attached to `id`.
pub open spec fn expiry_target(objects: Seq<GameObject>, ending: PlayerId, next: PlayerId, id: GameEntityId) -> bool {
    exists|j: int| 0 <= j < objects.len() && expires(#[trigger] objects[j], ending, next) && objects[j].attached_to == Some(id)
}

/// What ending temporary effects does, as far as this states it: each expiring object is
/// detached, removed from the game when it is on its controller's list of its zone, and its expiry
/// recorded, in object order; nothing else changes identities, aura definitions, durations,
/// attachments or zones; only the objects an expiring object was attached to may have their
/// stats, damage, keywords and card data changed.
pub open spec fn effects_expired(old: World, new: World, ending: PlayerId, next: PlayerId) -> bool {
    &&& new == (World { objects: new.objects, zones: new.zones, trace: new.trace, ..old })
    &&& trace_view(new.trace@) == trace_view(old.trace@) + expiry_entries(old.objects@, ending, next)
    &&& new.objects@.len() == old.objects@.len()
    &&& forall|j: int|
        0 <= j < old.objects@.len() ==> {
            &&& (#[trigger] new.objects@[j]).id == old.objects@[j].id
            &&& new.objects@[j].runtime_auras == old.objects@[j].runtime_auras
            &&& new.objects@[j].enchantment_duration == old.objects@[j].enchantment_duration
            &&& new.objects@[j].controller == old.objects@[j].controller
            &&& new.objects@[j].attached_to == if expires(old.objects@[j], ending, next) {
                None
            } else {
                old.objects@[j].attached_to
            }
            &&& new.objects@[j].zone == if expires(old.objects@[j], ending, next) && zone_listed(old, j) {
                Some(Zone::RemovedFromGame)
            } else {
                old.objects@[j].zone
            }
            &&& expiry_frame(old.objects@[j], new.objects@[j])
            &&& !expiry_target(old.objects@, ending, next, old.objects@[j].id) ==> keeps_recalculated(
                old.objects@[j],
                new.objects@[j],
            )
        }
}

/// Whether `b` keeps what expiry bookkeeping relies on from `a`.
pub open spec fn keeps_expiry_fields(a: GameObject, b: GameObject) -> bool {
    &&& b.id == a.id
    &&& b.runtime_auras == a.runtime_auras
    &&& b.enchantment_duration == a.enchantment_duration
    &&& b.controller == a.controller
    &&& b.attached_to == a.attached_to
    &&& b.zone == a.zone
}

fn expiring_list(objects: &Vec<GameObject>, ending: PlayerId, next: PlayerId) -> (r: Vec<usize>)
    ensures
        r@.len() == expiring_positions(objects@, ending, next, objects@.len() as int).len(),
        forall|k: int| 0 <= k < r@.len() ==> r@[k] as int == #[trigger] expiring_positions(objects@, ending, next, objects@.len() as int)[k],
{
    let mut r: Vec<usize> = Vec::new();
    let mut i: usize = 0;
    while i < objects.len()
        invariant
            i <= objects.len(),
            r@.len() == expiring_positions(objects@, ending, next, i as int).len(),
            forall|k: int| 0 <= k < r@.len() ==> r@[k] as int == #[trigger] expiring_positions(objects@, ending, next, i as int)[k],
        decreases objects.len() - i,
    {
        let o = &objects[i];
        let expiring = match o.controller {
            None => false,
            Some(_) => match o.enchantment_duration {
                Some(EnchantmentDuration::EndOfTurn(p)) => p == ending,
                Some(EnchantmentDuration::EndOfTurnSeries(p)) => p == ending && next != ending,
                _ => false,
            },
        };
        let ghost before = r@;
        if expiring {
            r.push(i);
        }
        proof {
            assert forall|k: int| 0 <= k < r@.len() implies r@[k] as int == #[trigger] expiring_positions(
                objects@,
                ending,
                next,
                i + 1,
            )[k] by {
                if k < before.len() {
                    assert(r@[k] == before[k]);
                }
            }
        }
        i = i + 1;
    }
    r
}

proof fn lemma_push_contains_int(s: Seq<int>, v: int, x: int)
    ensures
        s.push(v).contains(x) <==> (s.contains(x) || x == v),
{
    if s.push(v).contains(x) {
        let j = choose|j: int| 0 <= j < s.push(v).len() && s.push(v)[j] == x;
        if j < s.len() {
            assert(s[j] == x);
        }
    }
    if s.contains(x) {
        let j = choose|j: int| 0 <= j < s.len() && s[j] == x;
        assert(s.push(v)[j] == x);
    }
    if x == v {
        assert(s.push(v)[s.len() as int] == x);
    }
}

/// Ends the temporary effects that run out as `ending` ends its turn and `next` takes the next
/// one: each is detached, removed from the game, recorded, and the object it was attached to has
/// its stats, keywords and cost recalculated.
#[verifier::rlimit(40)]
pub fn expire_temporary_effects(world: &mut World, ending: PlayerId, next: PlayerId)
    requires
        world_wf(*old(world)),
    ensures
        final(world).resolution.remaining_budget == old(world).resolution.remaining_budget,
        final(world).resolution.sequence_active == old(world).resolution.sequence_active,
        effects_expired(*old(world), *final(world), ending, next),
        world_wf(*final(world)),
{
    let ghost w0 = *world;
    let positions = expiring_list(&world.objects, ending, next);
    proof {
        lemma_expiring_positions(w0.objects@, ending, next, w0.objects@.len() as int);
    }
    let ghost all = expiring_positions(w0.objects@, ending, next, w0.objects@.len() as int);
    let mut k: usize = 0;
    while k < positions.len()
        invariant
            k <= positions.len(),
            positions@.len() == all.len(),
            forall|m: int| 0 <= m < positions@.len() ==> positions@[m] as int == #[trigger] all[m],
            forall|a: int, b: int| 0 <= a < b < all.len() ==> #[trigger] all[a] < #[trigger] all[b],
            forall|a: int| 0 <= a < all.len() ==> 0 <= #[trigger] all[a] < w0.objects@.len() && expires(w0.objects@[all[a]], ending, next),
            forall|j: int| 0 <= j < w0.objects@.len() && expires(w0.objects@[j], ending, next) ==> #[trigger] all.contains(j),
            all == expiring_positions(w0.objects@, ending, next, w0.objects@.len() as int),
            world_wf(w0),
            world_wf(*world),
            *world == (World { objects: world.objects, zones: world.zones, trace: world.trace, ..w0 }),
            trace_view(world.trace@) == trace_view(w0.trace@) + expiry_entries(w0.objects@, ending, next).subrange(0, k as int),
            world.objects@.len() == w0.objects@.len(),
            forall|j: int|
                0 <= j < w0.objects@.len() ==> {
                    &&& (#[trigger] world.objects@[j]).id == w0.objects@[j].id
                    &&& world.objects@[j].runtime_auras == w0.objects@[j].runtime_auras
                    &&& world.objects@[j].enchantment_duration == w0.objects@[j].enchantment_duration
                    &&& world.objects@[j].controller == w0.objects@[j].controller
                    &&& world.objects@[j].attached_to == if all.subrange(0, k as int).contains(j) {
                        None
                    } else {
                        w0.objects@[j].attached_to
                    }
                    &&& world.objects@[j].zone == if all.subrange(0, k as int).contains(j) && zone_listed(w0, j) {
                        Some(Zone::RemovedFromGame)
                    } else {
                        w0.objects@[j].zone
                    }
                    &&& expiry_frame(w0.objects@[j], world.objects@[j])
                    &&& !targeted_by(w0.objects@, all.subrange(0, k as int), w0.objects@[j].id) ==> keeps_recalculated(
                        w0.objects@[j],
                        world.objects@[j],
                    )
                },
            forall|j: int, q: PlayerId, z: Zone|
                0 <= j < w0.objects@.len() && !all.subrange(0, k as int).contains(j) ==> #[trigger] world.zones.list(q, z).contains(
                    w0.objects@[j].id,
                ) == w0.zones.list(q, z).contains(w0.objects@[j].id),
        decreases positions.len() - k,
    {
        let i = positions[k];
        proof {
            assert(0 <= all[k as int] < w0.objects@.len());
            assert(positions@[k as int] as int == all[k as int]);
        }
        let id = world.objects[i].id;
        let target = world.objects[i].attached_to;
        let ghost before = *world;
        world.objects[i].attached_to = None;
        let ghost detached = *world;
        proof {
            let o = GameObject { attached_to: None, ..before.objects@[i as int] };
            assert(detached.objects@ =~= before.objects@.update(i as int, o));
            lemma_wf_update(before.objects@, i as int, o);
        }
        proof {
            crate::aura::lemma_lookup_unique(detached.objects@, i as int);
            assert(!all.subrange(0, k as int).contains(i as int)) by {
                if all.subrange(0, k as int).contains(i as int) {
                    let m = choose|m: int| 0 <= m < k && all.subrange(0, k as int)[m] == i as int;
                    assert(all[m] < all[k as int]);
                }
            }
            assert(zone_listed(detached, i as int) == zone_listed(w0, i as int));
        }
        let moved_result = move_entity(world, id, Zone::RemovedFromGame, None);
        let ghost moved = *world;
        proof {
            crate::zone::lemma_zone_move_frame(detached, moved, id, Zone::RemovedFromGame, None, moved_result);
            crate::zone::lemma_move_to_end(detached, moved, id, Zone::RemovedFromGame, moved_result, i as int);
            assert forall|j: int, q: PlayerId, z: Zone|
                0 <= j < w0.objects@.len() && !all.subrange(0, k + 1).contains(j) implies #[trigger] moved.zones.list(q, z).contains(
                    w0.objects@[j].id,
                ) == w0.zones.list(q, z).contains(w0.objects@[j].id) by {
                assert(all.subrange(0, k + 1) =~= all.subrange(0, k as int).push(all[k as int]));
                lemma_push_contains_int(all.subrange(0, k as int), all[k as int], j);
                assert(j != i as int);
                assert(w0.objects@[j].id != id);
                crate::zone::lemma_move_keeps_other_members(detached, moved, id, Zone::RemovedFromGame, moved_result, w0.objects@[j].id, q, z);
            }
        }
        world.trace.push(TraceEntry::TemporaryEffectExpired { entity: id });
        let ghost traced = *world;
        match target {
            Some(t) => {
                recalculate_stats(&mut world.objects, t);
                let ghost s1 = world.objects@;
                assert forall|j: int| 0 <= j < s1.len() implies keeps_expiry_fields(traced.objects@[j], #[trigger] s1[j]) by {
                    crate::world::lemma_lookup_some(traced.objects@, t);
                    if let Some(ti) = lookup(traced.objects@, t) {
                        if traced.objects@[ti].base_stats is Some {
                            if j == ti {
                                assert(s1[j] == crate::enchantment::recalculated_stats(traced.objects@, ti));
                            }
                        }
                    }
                }
                recalculate_keywords(&mut world.objects, t);
                let ghost s2 = world.objects@;
                assert forall|j: int| 0 <= j < s2.len() implies keeps_expiry_fields(s1[j], #[trigger] s2[j]) by {
                    crate::world::lemma_lookup_some(s1, t);
                    if let Some(ti) = lookup(s1, t) {
                        if j == ti {
                            assert(s2[j] == crate::enchantment::recalculated_keywords(s1, ti));
                        }
                    }
                }
                recalculate_cost(&mut world.objects, t);
                let ghost s3 = world.objects@;
                assert forall|j: int| 0 <= j < s3.len() implies keeps_expiry_fields(s2[j], #[trigger] s3[j]) by {
                    crate::world::lemma_lookup_some(s2, t);
                }
                proof {
                    crate::world::lemma_lookup_some(traced.objects@, t);
                    crate::world::lemma_lookup_some(s1, t);
                    crate::world::lemma_lookup_some(s2, t);
                }
                assert(s1.len() == traced.objects@.len() && s2.len() == s1.len() && s3.len() == s2.len());
                assert forall|j: int| 0 <= j < s3.len() implies keeps_expiry_fields(traced.objects@[j], #[trigger] s3[j]) by {
                    assert(keeps_expiry_fields(traced.objects@[j], s1[j]));
                    assert(keeps_expiry_fields(s1[j], s2[j]));
                }
                assert forall|j: int| 0 <= j < s3.len() implies expiry_frame(traced.objects@[j], #[trigger] s3[j])
                    && (traced.objects@[j].id != t ==> s3[j] == traced.objects@[j]) by {
                    if let Some(ti) = lookup(traced.objects@, t) {
                        assert(traced.objects@[ti].id == t);
                        assert(s1[ti].id == t && s2[ti].id == t);
                        assert(lookup(s1, t) == Some(ti));
                        assert(lookup(s2, t) == Some(ti));
                    }
                }
            },
            None => {},
        }
        proof {
            assert(i as int == all[k as int]);
            assert(trace_view(world.trace@) =~= trace_view(before.trace@).push(
                TraceEntryView::TemporaryEffectExpired { entity: id },
            ));
            assert(expiry_entries(w0.objects@, ending, next).subrange(0, k + 1) =~= expiry_entries(
                w0.objects@,
                ending,
                next,
            ).subrange(0, k as int).push(TraceEntryView::TemporaryEffectExpired { entity: id }));
            assert forall|j: int| 0 <= j < w0.objects@.len() implies {
                &&& (#[trigger] world.objects@[j]).id == w0.objects@[j].id
                &&& world.objects@[j].runtime_auras == w0.objects@[j].runtime_auras
                &&& world.objects@[j].enchantment_duration == w0.objects@[j].enchantment_duration
                &&& world.objects@[j].controller == w0.objects@[j].controller
                &&& world.objects@[j].attached_to == if all.subrange(0, k + 1).contains(j) {
                    None
                } else {
                    w0.objects@[j].attached_to
                }
                &&& world.objects@[j].zone == if all.subrange(0, k + 1).contains(j) && zone_listed(w0, j) {
                    Some(Zone::RemovedFromGame)
                } else {
                    w0.objects@[j].zone
                }
                &&& expiry_frame(w0.objects@[j], world.objects@[j])
                &&& !targeted_by(w0.objects@, all.subrange(0, k + 1), w0.objects@[j].id) ==> keeps_recalculated(
                    w0.objects@[j],
                    world.objects@[j],
                )
            } by {
                assert(keeps_expiry_fields(traced.objects@[j], world.objects@[j]));
                assert(all.subrange(0, k + 1) =~= all.subrange(0, k as int).push(all[k as int]));
                lemma_push_contains_int(all.subrange(0, k as int), all[k as int], j);
                assert(traced.objects@[j] == (GameObject { zone: traced.objects@[j].zone, ..detached.objects@[j] }));
                assert(expiry_frame(before.objects@[j], traced.objects@[j]));
                match target {
                    Some(t) => {
                        assert(expiry_frame(traced.objects@[j], world.objects@[j]));
                        if !targeted_by(w0.objects@, all.subrange(0, k + 1), w0.objects@[j].id) {
                            assert(all.subrange(0, k + 1)[k as int] == all[k as int]);
                            assert(w0.objects@[all.subrange(0, k + 1)[k as int]].attached_to != Some(w0.objects@[j].id));
                            assert(t != w0.objects@[j].id);
                            assert(world.objects@[j] == traced.objects@[j]);
                            assert forall|m: int| 0 <= m < k implies #[trigger] w0.objects@[all.subrange(0, k as int)[m]].attached_to
                                != Some(w0.objects@[j].id) by {
                                assert(all.subrange(0, k as int)[m] == all.subrange(0, k + 1)[m]);
                            }
                        }
                    },
                    None => {
                        if !targeted_by(w0.objects@, all.subrange(0, k + 1), w0.objects@[j].id) {
                            assert forall|m: int| 0 <= m < k implies #[trigger] w0.objects@[all.subrange(0, k as int)[m]].attached_to
                                != Some(w0.objects@[j].id) by {
                                assert(all.subrange(0, k as int)[m] == all.subrange(0, k + 1)[m]);
                            }
                        }
                    },
                }
            }
            crate::world::lemma_wf_frame(w0.objects@, world.objects@);
        }
        k = k + 1;
    }
    proof {
        assert(expiry_entries(w0.objects@, ending, next).subrange(0, k as int) =~= expiry_entries(w0.objects@, ending, next));
        assert(all.subrange(0, k as int) =~= all);
        assert forall|j: int| 0 <= j < w0.objects@.len() implies (all.contains(j) <==> expires(w0.objects@[j], ending, next)) by {
            if all.contains(j) {
                let a = choose|a: int| 0 <= a < all.len() && all[a] == j;
                assert(expires(w0.objects@[all[a]], ending, next));
            }
        }
        assert forall|j: int| 0 <= j < w0.objects@.len() && !expiry_target(w0.objects@, ending, next, w0.objects@[j].id) implies keeps_recalculated(
            w0.objects@[j],
            world.objects@[j],
        ) by {
            if targeted_by(w0.objects@, all, w0.objects@[j].id) {
                let m = choose|m: int| 0 <= m < all.len() && #[trigger] w0.objects@[all[m]].attached_to == Some(w0.objects@[j].id);
                assert(expires(w0.objects@[all[m]], ending, next));
            }
        }
    }
}


/// The turn that follows the turn of `ending` under `schedule`: the oldest extra turn, else the
/// opponent's natural turn.
pub open spec fn scheduled_next(extra_turns: Seq<PlayerId>, ending: PlayerId) -> ScheduledTurn {
    if extra_turns.len() == 0 {
        ScheduledTurn { player: ending.spec_opponent(), kind: ScheduledTurnKind::Natural }
    } else {
        ScheduledTurn { player: extra_turns[0], kind: ScheduledTurnKind::Extra }
    }
}

/// What advancing from the turn of `ending` does: nothing once the game has an outcome;
/// otherwise the next turn is taken from the schedule, temporary effects run out, and the start
/// of the next turn is scheduled.
pub open spec fn turn_advanced(old: World, new: World, ending: PlayerId) -> bool {
    if old.game.outcome is Some {
        new == old
    } else {
        let extra = old.turn_schedule.extra_turns@;
        let next = scheduled_next(extra, ending);
        exists|taken: World, expired: World|
            {
                &&& taken == (World { turn_schedule: taken.turn_schedule, ..old })
                &&& taken.turn_schedule.extra_turns@ == (if extra.len() == 0 { extra } else { extra.drop_first() })
                &&& #[trigger] effects_expired(taken, expired, ending, next.player)
                &&& only_pushed(
                    expired,
                    new,
                    seq![OpView::RunSequenceStep(SequenceStep::StartTurn { player: next.player, kind: next.kind })],
                )
            }
    }
}

/// Advances from the turn of `ending`: unless the game has an outcome, takes the next turn from
/// the schedule, ends the temporary effects that run out, and schedules the start of that turn.
pub fn advance_turn(world: &mut World, ending: PlayerId)
    requires
        world_wf(*old(world)),
        room(*old(world), 1, 0),
    ensures
        final(world).resolution.remaining_budget == old(world).resolution.remaining_budget,
        final(world).resolution.sequence_active == old(world).resolution.sequence_active,
        turn_advanced(*old(world), *final(world), ending),
        world_wf(*final(world)),
{
    if world.game.outcome.is_some() {
        return;
    }
    let next = world.turn_schedule.next_turn(ending);
    let ghost taken = *world;
    expire_temporary_effects(world, ending, next.player);
    let ghost expired = *world;
    let ops = vec![ResolutionOp::RunSequenceStep(SequenceStep::StartTurn { player: next.player, kind: next.kind })];
    proof {
        crate::operations::lemma_ops_view_index(ops@);
        assert(ops_view(ops@) =~= seq![OpView::RunSequenceStep(SequenceStep::StartTurn { player: next.player, kind: next.kind })]);
    }
    push_ops(world, ops);
}

/// What playing a card pushes: the card-played event, and for a minion the summoned event and
/// an aura refresh for it as a new provider.
pub open spec fn play_ops(player: PlayerId, card: GameEntityId, target: Option<GameEntityId>, kind: EntityKind) -> Seq<OpView> {
    let minion = kind == EntityKind::Minion;
    let targets = match target {
        Some(t) => seq![t],
        None => Seq::empty(),
    };
    let played = seq![OpView::PrepareEvent(context(EventKind::CardPlayed, Some(card), targets, player))];
    if minion {
        played + seq![
            OpView::PrepareEvent(context(EventKind::Summoned, Some(card), seq![card], player)),
            OpView::RefreshAuras(AuraRefreshPlan::PlayedProvider(card)),
        ]
    } else {
        played
    }
}

/// The context in which the program of a played card runs: the card is the source, the
/// declared target is kept, and a spell's effects are spell effects.
pub open spec fn play_context(player: PlayerId, card: GameEntityId, target: Option<GameEntityId>, kind: EntityKind) -> EffectContext {
    EffectContext {
        source: Some(card),
        controller: player,
        declared_target: target,
        drawn_card: None,
        origin: if kind == EntityKind::Spell { EffectOrigin::Spell } else { EffectOrigin::Other },
    }
}

/// One operation per effect of `program`, in order, each run in `context` with no event.
pub open spec fn effect_ops(context: EffectContext, program: Seq<Effect>) -> Seq<OpView> {
    Seq::new(program.len(), |k: int| OpView::RunEffect { context, effect: program[k], event: None })
}

/// Schedules `effects` to run in order, each in `context` with no event.
pub fn push_effects(world: &mut World, context: EffectContext, effects: &Vec<Effect>)
    requires
        old(world).resolution.next_resolution_id + effects@.len() <= u64::MAX,
    ensures
        only_pushed(*old(world), *final(world), effect_ops(context, effects@)),
{
    let mut ops: Vec<ResolutionOp> = Vec::new();
    let mut k: usize = 0;
    while k < effects.len()
        invariant
            k <= effects@.len(),
            ops@.len() == k,
            forall|j: int| 0 <= j < k ==> #[trigger] ops@[j] == (ResolutionOp::RunEffect {
                context,
                effect: effects@[j],
                event: None,
            }),
        decreases effects.len() - k,
    {
        ops.push(ResolutionOp::RunEffect { context, effect: effects[k], event: None });
        k = k + 1;
    }
    proof {
        crate::operations::lemma_ops_view_index(ops@);
        assert(ops_view(ops@) =~= effect_ops(context, effects@));
    }
    push_ops(world, ops);
}

/// Where a played card of kind `kind` goes: a minion into play, anything else to the graveyard.
pub open spec fn destination_of(kind: EntityKind) -> Zone {
    if kind == EntityKind::Minion {
        Zone::Play
    } else {
        Zone::Graveyard
    }
}

fn destination_for(kind: EntityKind) -> (r: Zone)
    ensures
        r == destination_of(kind),
{
    if kind == EntityKind::Minion {
        Zone::Play
    } else {
        Zone::Graveyard
    }
}

/// What playing `card` does: the card must be in `player`'s hand with a kind and card data, and
/// there must be room for the identities of the operations it schedules; its cost is spent; a
/// minion moves into play at `board_index`, anything else to the graveyard; the move out of the
/// hand is recorded, and the play events are scheduled, followed by one operation per effect of
/// its program.
pub open spec fn card_played(
    old: World,
    new: World,
    player: PlayerId,
    card: GameEntityId,
    target: Option<GameEntityId>,
    board_index: Option<usize>,
    r: Result<(), SimulationError>,
) -> bool {
    match controlled_check(old, player, card, Zone::Hand) {
        Err(e) => r == Err::<(), SimulationError>(e) && new == old,
        Ok(i) => {
            let o = old.objects@[i];
            if o.kind is None || o.card_runtime is None {
                r == Err::<(), SimulationError>(SimulationError::NotPlayable(card)) && new == old
            } else if !room(old, 3 + program_of(o).len() as int, 0) {
                r == Err::<(), SimulationError>(SimulationError::Resolution(ResolutionError::IdentitiesExhausted))
                    && new == old
            } else {
                let kind = o.kind->0;
                let destination = destination_of(kind);
                exists|paid: World, pay: Result<(), SimulationError>|
                    {
                        &&& #[trigger] spent(old, paid, player, o.card_runtime->0.cost, pay)
                        &&& match pay {
                            Err(e) => r == Err::<(), SimulationError>(e) && new == paid,
                            Ok(_) => exists|moved: World, m: Result<ZoneMoveOutcome, ZoneError>|
                                {
                                    &&& #[trigger] zone_move(paid, moved, card, destination, board_index, m)
                                    &&& match m {
                                        Err(z) => r == Err::<(), SimulationError>(SimulationError::Zone(z)) && new == moved,
                                        Ok(ZoneMoveOutcome::Moved { from, .. }) => {
                                            &&& r is Ok
                                            &&& from == Zone::Hand
                                            &&& exists|traced: World|
                                                {
                                                    &&& traced == (World { trace: traced.trace, ..moved })
                                                    &&& traced.trace@ == moved.trace@.push(
                                                        TraceEntry::ZoneMoved { entity: card, from, to: destination },
                                                    )
                                                    &&& #[trigger] only_pushed(
                                                        traced,
                                                        new,
                                                        play_ops(player, card, target, kind) + effect_ops(
                                                            play_context(player, card, target, kind),
                                                            program_of(o),
                                                        ),
                                                    )
                                                }
                                        },
                                        Ok(_) => r == Err::<(), SimulationError>(
                                            SimulationError::Invariant(InvariantViolation::UnexpectedZoneMove(card)),
                                        ) && new == moved,
                                    }
                                },
                        }
                    }
            }
        },
    }
}

/// Plays `card` for `player`: spends its cost, moves a minion into play at `board_index` and
/// anything else to the graveyard, records the move and schedules the play events and then the
/// effects of the card's program, in order.
pub fn play_card(
    world: &mut World,
    player_id: PlayerId,
    card: GameEntityId,
    target: Option<GameEntityId>,
    board_index: Option<usize>,
) -> (r: Result<(), SimulationError>)
    requires
        world_wf(*old(world)),
        room(*old(world), 3, 0),
    ensures
        final(world).resolution.remaining_budget == old(world).resolution.remaining_budget,
        final(world).resolution.sequence_active == old(world).resolution.sequence_active,
        card_played(*old(world), *final(world), player_id, card, target, board_index, r),
        world_wf(*final(world)),
{
    let i = match controlled_entity_in_zone(world, player_id, card, Zone::Hand) {
        Ok(i) => i,
        Err(e) => return Err(e),
    };
    let kind = match world.objects[i].kind {
        Some(kind) => kind,
        None => return Err(SimulationError::NotPlayable(card)),
    };
    let runtime = match world.objects[i].card_runtime {
        Some(runtime) => runtime,
        None => return Err(SimulationError::NotPlayable(card)),
    };
    let program: Vec<Effect> = match &world.objects[i].card_program {
        Some(p) => copy_program(p),
        None => Vec::new(),
    };
    let next: u64 = world.resolution.next_resolution_id;
    if program.len() as u64 > u64::MAX - 3 - next {
        return Err(SimulationError::Resolution(ResolutionError::IdentitiesExhausted));
    }
    let ghost w0 = *world;
    let pay = spend_resources(world, player_id, runtime.cost);
    match pay {
        Ok(()) => {},
        Err(e) => return Err(e),
    }
    let ghost paid = *world;
    let minion = kind == EntityKind::Minion;
    let destination = destination_for(kind);
    let moved_result = move_entity(world, card, destination, board_index);
    let ghost moved = *world;
    proof {
        crate::zone::lemma_zone_move_frame(paid, moved, card, destination, board_index, moved_result);
        crate::world::lemma_wf_frame(paid.objects@, moved.objects@);
    }
    let from = match moved_result {
        Err(z) => {
            proof {
                assert(zone_move(paid, moved, card, destination, board_index, moved_result));
                assert(card_played(w0, moved, player_id, card, target, board_index, Err(SimulationError::Zone(z))));
            }
            return Err(SimulationError::Zone(z));
        },
        Ok(ZoneMoveOutcome::Moved { from, .. }) => from,
        Ok(_) => return Err(SimulationError::Invariant(InvariantViolation::UnexpectedZoneMove(card))),
    };
    proof {
        crate::player::lemma_player_positions_bounded(w0.objects@, player_id, w0.objects@.len() as int);
        assert(paid.objects@.len() == w0.objects@.len());
        assert forall|j: int| 0 <= j < w0.objects@.len() implies (#[trigger] w0.objects@[j]).id == paid.objects@[j].id
            && w0.objects@[j].kind == paid.objects@[j].kind && w0.objects@[j].zone == paid.objects@[j].zone by {}
        crate::player::lemma_kind_of_frame(w0.objects@, paid.objects@, card);
        assert(paid.objects@[i as int].zone == w0.objects@[i as int].zone);
        assert(from == Zone::Hand);
    }
    world.trace.push(TraceEntry::ZoneMoved { entity: card, from, to: destination });
    let ghost traced = *world;
    let mut targets: Vec<GameEntityId> = Vec::new();
    match target {
        Some(t) => targets.push(t),
        None => {},
    }
    let mut ops = vec![ResolutionOp::PrepareEvent(make_context(EventKind::CardPlayed, Some(card), targets, player_id))];
    if minion {
        let mut summoned: Vec<GameEntityId> = Vec::new();
        summoned.push(card);
        ops.push(ResolutionOp::PrepareEvent(make_context(EventKind::Summoned, Some(card), summoned, player_id)));
        ops.push(ResolutionOp::RefreshAuras(AuraRefreshPlan::PlayedProvider(card)));
    }
    let context = EffectContext {
        source: Some(card),
        controller: player_id,
        declared_target: target,
        drawn_card: None,
        origin: if kind == EntityKind::Spell { EffectOrigin::Spell } else { EffectOrigin::Other },
    };
    let ghost base = ops@;
    proof {
        crate::operations::lemma_ops_view_index(ops@);
        assert(ops_view(ops@) =~= play_ops(player_id, card, target, kind));
    }
    let mut k: usize = 0;
    while k < program.len()
        invariant
            k <= program@.len(),
            ops@.len() == base.len() + k,
            forall|j: int| 0 <= j < base.len() ==> ops@[j] == base[j],
            forall|j: int| 0 <= j < k ==> #[trigger] ops@[base.len() + j] == (ResolutionOp::RunEffect {
                context,
                effect: program@[j],
                event: None,
            }),
        decreases program.len() - k,
    {
        ops.push(ResolutionOp::RunEffect { context, effect: program[k], event: None });
        k = k + 1;
    }
    let ghost expected = play_ops(player_id, card, target, kind) + effect_ops(context, program@);
    proof {
        crate::operations::lemma_ops_view_index(base);
        crate::operations::lemma_ops_view_index(ops@);
        assert forall|j: int| 0 <= j < ops@.len() implies #[trigger] ops_view(ops@)[j] == expected[j] by {
            if j < base.len() {
                assert(ops@[j] == base[j]);
                assert(ops_view(base)[j] == play_ops(player_id, card, target, kind)[j]);
            } else {
                assert(ops@[base.len() + (j - base.len())] == ResolutionOp::RunEffect {
                    context,
                    effect: program@[j - base.len()],
                    event: None,
                });
            }
        }
        assert(ops_view(ops@) =~= expected);
    }
    push_ops(world, ops);
    let ghost fin = *world;
    proof {
        assert(zone_move(paid, moved, card, destination, board_index, moved_result));
        assert(only_pushed(traced, fin, expected));
        assert(card_played(w0, fin, player_id, card, target, board_index, Ok(())));
    }
    Ok(())
}

/// What running a sequence step does.
pub open spec fn step_ran(old: World, new: World, step: SequenceStep, r: Result<(), SimulationError>) -> bool {
    match step {
        SequenceStep::PlayCard { player, card, target, board_index } => card_played(old, new, player, card, target, board_index, r),
        SequenceStep::Attack { player, attacker, defender } => {
            if lookup(old.objects@, attacker) is None {
                r == Err::<(), SimulationError>(SimulationError::EntityNotFound(attacker)) && new == old
            } else if lookup(old.objects@, defender) is None {
                r == Err::<(), SimulationError>(SimulationError::EntityNotFound(defender)) && new == old
            } else {
                r is Ok && only_pushed(old, new, attack_ops(old, player, attacker, defender))
            }
        },
        SequenceStep::FinishAttack { player, attacker, defender } => r is Ok && attack_finished(
            old,
            new,
            player,
            attacker,
            defender,
        ),
        SequenceStep::EndTurn { player } => r is Ok && only_pushed(old, new, end_turn_ops(player)),
        SequenceStep::AdvanceTurn { ending_player } => r is Ok && turn_advanced(old, new, ending_player),
        SequenceStep::StartTurn { player, kind } => turn_started(old, new, player, kind, r),
        SequenceStep::Concede { player } => r is Ok && conceded(old, new, player),
    }
}

/// Runs one step of an accepted action.
pub fn run_sequence_step(world: &mut World, step: SequenceStep) -> (r: Result<(), SimulationError>)
    requires
        world_wf(*old(world)),
        room(*old(world), 4, 0),
    ensures
        final(world).resolution.remaining_budget == old(world).resolution.remaining_budget,
        final(world).resolution.sequence_active == old(world).resolution.sequence_active,
        step_ran(*old(world), *final(world), step, r),
        world_wf(*final(world)),
{
    match step {
        SequenceStep::PlayCard { player, card, target, board_index } => play_card(world, player, card, target, board_index),
        SequenceStep::Attack { player, attacker, defender } => attack(world, player, attacker, defender),
        SequenceStep::FinishAttack { player, attacker, defender } => {
            finish_attack(world, player, attacker, defender);
            Ok(())
        },
        SequenceStep::EndTurn { player } => {
            end_turn(world, player);
            Ok(())
        },
        SequenceStep::AdvanceTurn { ending_player } => {
            advance_turn(world, ending_player);
            Ok(())
        },
        SequenceStep::StartTurn { player, kind } => start_turn(world, player, kind),
        SequenceStep::Concede { player } => {
            concede(world, player);
            Ok(())
        },
    }
}

} // verus!
