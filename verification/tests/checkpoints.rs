use hearthstone_simulator::action_validation::GameAction;
use hearthstone_simulator::checkpoint::{SimulationCheckpoint, CHECKPOINT_SCHEMA_VERSION};
use hearthstone_simulator::error::{CheckpointError, CounterKind, SimulationError};
use hearthstone_simulator::operations::{
    DrawContinuationPolicy, DrawResultSlot, EffectContext, EffectOrigin, EventContext, EventKind, PreparedEvent,
    PreparedEventSlot, ResolutionOp, StackedResolutionOp,
};
use hearthstone_simulator::rng::RNG_ALGORITHM_VERSION;
use hearthstone_simulator::setup::{Card, PlayerConfig};
use hearthstone_simulator::simulation::{hand_card, simulation, Simulation};
use hearthstone_simulator::trigger::{Effect, PlayerSelector};
use hearthstone_simulator::types::{
    DrawResultSlotId, EntityKind, EventId, EventSlotId, GameEntityId, PlayerId, ResolutionId, SimulationStatus, Zone,
};
use hearthstone_simulator::world::{AuraApplication, AuraModifier};

fn checkpoint_error(checkpoint: SimulationCheckpoint) -> CheckpointError {
    match Simulation::from_checkpoint(checkpoint) {
        Err(SimulationError::Checkpoint(e)) => e,
        Err(other) => panic!("unexpected error {other:?}"),
        Ok(_) => panic!("malformed checkpoint was accepted"),
    }
}

fn played_simulation() -> Simulation {
    let mut simulation = simulation();
    let card = hand_card(&mut simulation, PlayerId::One);
    simulation
        .apply(GameAction::PlayCard { player: PlayerId::One, card, target: None, board_index: None, choice: None })
        .expect("card should resolve");
    simulation
}

#[test]
fn checkpoints_use_the_current_schema_version() {
    let checkpoint = simulation().checkpoint().unwrap();
    assert_eq!(checkpoint.schema_version, 16);
    assert_eq!(CHECKPOINT_SCHEMA_VERSION, 16);
}

#[test]
fn checkpoint_entities_are_ordered_by_identity_with_their_zone_positions() {
    let checkpoint = played_simulation().checkpoint().unwrap();
    assert_eq!(checkpoint.entities.len(), checkpoint.zone_positions.len());
    for pair in checkpoint.entities.windows(2) {
        assert!(pair[0].id < pair[1].id);
    }
    for (entity, position) in checkpoint.entities.iter().zip(checkpoint.zone_positions.iter()) {
        assert_eq!(entity.zone.is_some() && entity.controller.is_some(), position.is_some());
    }
}

#[test]
fn restoring_a_checkpoint_gives_back_the_same_checkpoint() {
    let simulation = played_simulation();
    let checkpoint = simulation.checkpoint().unwrap();
    let restored = Simulation::from_checkpoint(checkpoint.copy()).unwrap();
    assert_eq!(restored.checkpoint().unwrap(), checkpoint);
    assert_eq!(restored.trace(), simulation.trace());
    assert_eq!(restored.snapshot(), simulation.snapshot());
}

#[test]
fn fork_replays_to_an_equivalent_snapshot_and_trace() {
    let simulation = played_simulation();
    let fork = simulation.fork().expect("a fork should restore");
    assert_eq!(simulation.snapshot(), fork.snapshot());
    assert_eq!(simulation.trace(), fork.trace());
    assert_eq!(simulation.checkpoint().unwrap(), fork.checkpoint().unwrap());
}

#[test]
fn fork_continues_identically() {
    let mut base = played_simulation();
    let mut fork = base.fork().unwrap();
    for simulation in [&mut base, &mut fork] {
        simulation.apply(GameAction::EndTurn { player: PlayerId::One }).unwrap();
        simulation.apply(GameAction::EndTurn { player: PlayerId::Two }).unwrap();
    }
    assert_eq!(base.checkpoint().unwrap(), fork.checkpoint().unwrap());
    assert_eq!(base.legal_actions(), fork.legal_actions());
}

#[test]
fn checkpoints_reject_invalid_versions_rng_entities_and_zones() {
    let base = simulation().checkpoint().unwrap();

    let mut schema = base.copy();
    schema.schema_version += 1;
    assert_eq!(checkpoint_error(schema), CheckpointError::UnsupportedSchemaVersion(17));

    let mut revision = base.copy();
    revision.ruleset.rulebook_revision += 1;
    assert_eq!(
        checkpoint_error(revision),
        CheckpointError::UnsupportedRulebookRevision(base.ruleset.rulebook_revision + 1)
    );

    let mut rng = base.copy();
    rng.rng.algorithm_version = RNG_ALGORITHM_VERSION + 1;
    assert_eq!(checkpoint_error(rng), CheckpointError::UnsupportedRngVersion(RNG_ALGORITHM_VERSION + 1));

    let mut ruleset = base.copy();
    ruleset.trace_ruleset += 1;
    assert_eq!(checkpoint_error(ruleset), CheckpointError::RulesetMismatch);

    let mut duplicate = base.copy();
    let first = duplicate.copy().entities.remove(0);
    duplicate.entities.push(first);
    duplicate.zone_positions.push(base.zone_positions[0]);
    assert_eq!(checkpoint_error(duplicate), CheckpointError::DuplicateEntityIds);

    let mut counter = base.copy();
    counter.next_game_entity_id = counter.entities.last().unwrap().id.0;
    assert_eq!(checkpoint_error(counter), CheckpointError::StaleEntityCounter);

    let mut controller = base.copy();
    let zoned = controller.entities.iter().position(|entity| entity.zone.is_some()).unwrap();
    controller.entities[zoned].controller = None;
    let zoned_id = controller.entities[zoned].id;
    assert_eq!(checkpoint_error(controller), CheckpointError::ZonedEntityIncomplete(zoned_id));

    let mut position = base.copy();
    let zoned = position.entities.iter().position(|entity| entity.zone.is_some()).unwrap();
    position.zone_positions[zoned] = None;
    let zoned_id = position.entities[zoned].id;
    assert_eq!(checkpoint_error(position), CheckpointError::ZonedEntityIncomplete(zoned_id));
}

#[test]
fn checkpoints_reject_non_monotonic_resolution_counters() {
    let base = simulation().checkpoint().unwrap();

    let mut resolution = base.copy();
    resolution
        .resolution
        .stack
        .push(StackedResolutionOp { id: ResolutionId(7), operation: ResolutionOp::CheckOutcome });
    resolution.resolution.next_resolution_id = 7;
    assert_eq!(
        checkpoint_error(resolution),
        CheckpointError::StaleCounter { counter: CounterKind::Resolution, next: 7, highest: 7 }
    );

    let mut event = base.copy();
    event.resolution.events.insert(
        8,
        PreparedEvent {
            triggers_collected: false,
            context: EventContext {
                kind: EventKind::Damage,
                source: None,
                targets: Vec::new(),
                controller: PlayerId::One,
                proposed_value: None,
                actual_value: Some(1),
                simultaneous_ordinal: 0,
            },
        },
    );
    event.resolution.next_event_id = 8;
    assert_eq!(
        checkpoint_error(event),
        CheckpointError::StaleCounter { counter: CounterKind::Event, next: 8, highest: 8 }
    );

    let mut slot = base;
    slot.resolution.event_slots.insert(9, PreparedEventSlot::default());
    slot.resolution.next_event_slot_id = 9;
    assert_eq!(
        checkpoint_error(slot),
        CheckpointError::StaleCounter { counter: CounterKind::EventSlot, next: 9, highest: 9 }
    );
}

#[test]
fn checkpoints_reject_inconsistent_effective_costs() {
    let simulation = Simulation::new([
        PlayerConfig::new("Jaina", vec![Card::minion("Invalid cost", 3, 1, 1)]),
        PlayerConfig::new("Rexxar", Vec::new()),
    ]);
    let mut checkpoint = simulation.checkpoint().unwrap();
    let index = checkpoint.entities.iter().position(|entity| entity.zone == Some(Zone::Hand)).unwrap();
    checkpoint.entities[index].card_runtime.as_mut().unwrap().cost = 0;
    let id = checkpoint.entities[index].id;
    assert_eq!(checkpoint_error(checkpoint), CheckpointError::InconsistentCost(id));
}

#[test]
fn checkpoints_reject_stale_non_cost_play_order_counters() {
    let simulation = played_simulation();
    let mut checkpoint = simulation.checkpoint().unwrap();
    let highest = checkpoint.entities.iter().filter_map(|entity| entity.play_order).max().unwrap();
    checkpoint.next_play_order = highest;
    assert_eq!(
        checkpoint_error(checkpoint),
        CheckpointError::StaleCounter { counter: CounterKind::PlayOrder, next: highest, highest }
    );
}

#[test]
fn checkpoints_reject_missing_or_duplicate_players_heroes_and_powers() {
    let base = simulation().checkpoint().unwrap();

    let mut missing_player = base.copy();
    let index = missing_player
        .entities
        .iter()
        .position(|entity| entity.player.is_some_and(|player| player.id == PlayerId::One))
        .unwrap();
    missing_player.entities.remove(index);
    missing_player.zone_positions.remove(index);
    assert_eq!(checkpoint_error(missing_player), CheckpointError::PlayerRole(PlayerId::One));

    let mut invalid_player = base.copy();
    let index = invalid_player
        .entities
        .iter()
        .position(|entity| entity.player.is_some_and(|player| player.id == PlayerId::One))
        .unwrap();
    invalid_player.entities[index].kind = Some(EntityKind::Minion);
    assert_eq!(checkpoint_error(invalid_player), CheckpointError::PlayerRole(PlayerId::One));

    for (kind, expected) in [
        (EntityKind::Hero, CheckpointError::HeroRole(PlayerId::One)),
        (EntityKind::HeroPower, CheckpointError::HeroPowerRole(PlayerId::One)),
    ] {
        let active = |checkpoint: &SimulationCheckpoint| {
            checkpoint
                .entities
                .iter()
                .position(|entity| {
                    entity.kind == Some(kind) && entity.controller == Some(PlayerId::One) && entity.zone == Some(Zone::Play)
                })
                .unwrap()
        };
        let mut missing = base.copy();
        let index = active(&missing);
        missing.entities.remove(index);
        missing.zone_positions.remove(index);
        assert_eq!(checkpoint_error(missing), expected);

        let mut duplicate = base.copy();
        let index = active(&duplicate);
        let mut copy = duplicate.copy().entities.remove(index);
        copy.id = GameEntityId(duplicate.next_game_entity_id);
        duplicate.next_game_entity_id += 1;
        duplicate.entities.push(copy);
        duplicate.zone_positions.push(Some(5));
        assert_eq!(checkpoint_error(duplicate), expected);
    }
}

#[test]
fn checkpoints_reject_dangling_aura_provider_references() {
    let mut checkpoint = simulation().checkpoint().unwrap();
    checkpoint.entities[0].attack_aura_cache = Some(vec![AuraApplication {
        provider: GameEntityId(u64::MAX),
        definition_index: 0,
        modifier: AuraModifier::Attack(1),
    }]);
    let entity = checkpoint.entities[0].id;
    assert_eq!(
        checkpoint_error(checkpoint),
        CheckpointError::MissingAuraProvider { entity, provider: GameEntityId(u64::MAX) }
    );
}

#[test]
fn checkpoints_reject_missing_attachment_targets() {
    let mut checkpoint = simulation().checkpoint().unwrap();
    checkpoint.entities[0].attached_to = Some(GameEntityId(u64::MAX));
    let entity = checkpoint.entities[0].id;
    assert_eq!(checkpoint_error(checkpoint), CheckpointError::MissingAttachmentTarget(entity));
}

#[test]
fn restoring_an_idle_world_with_retained_work_breaks_an_invariant() {
    let mut checkpoint = simulation().checkpoint().unwrap();
    checkpoint.resolution.event_slots.insert(0, PreparedEventSlot::default());
    checkpoint.resolution.next_event_slot_id = 1;
    assert!(matches!(Simulation::from_checkpoint(checkpoint), Err(SimulationError::Invariant(_))));
}

#[test]
fn a_refused_restore_leaves_the_simulation_unchanged() {
    let mut simulation = played_simulation();
    let before = simulation.checkpoint().unwrap();
    let mut malformed = before.copy();
    malformed.schema_version = 6;
    assert!(simulation.restore(malformed).is_err());
    assert_eq!(simulation.checkpoint().unwrap(), before);

    let fresh = self::simulation().checkpoint().unwrap();
    simulation.restore(fresh.copy()).unwrap();
    assert_eq!(simulation.checkpoint().unwrap(), fresh);
}

#[test]
fn checkpoints_reject_stale_draw_slot_counters() {
    let mut checkpoint = simulation().checkpoint().unwrap();
    checkpoint.resolution.next_draw_result_slot_id = 4;
    checkpoint.resolution.draw_result_slots.insert(4, DrawResultSlot { outcome: None });
    checkpoint.resolution.sequence_active = true;
    checkpoint.game.status = SimulationStatus::Resolving;
    assert_eq!(
        checkpoint_error(checkpoint),
        CheckpointError::StaleCounter { counter: CounterKind::DrawResultSlot, next: 4, highest: 4 }
    );
}

#[test]
fn checkpoints_reject_enchantment_lists_naming_missing_entities() {
    let mut checkpoint = simulation().checkpoint().unwrap();
    let id = checkpoint.entities[0].id;
    checkpoint.entities[0].enchantments = Some(vec![GameEntityId(99_999)]);
    assert_eq!(checkpoint_error(checkpoint), CheckpointError::MissingEnchantment(id));

    let mut kept = simulation().checkpoint().unwrap();
    let present = kept.entities[1].id;
    kept.entities[0].enchantments = Some(vec![present]);
    kept.entities[0].keep_enchantments = true;
    let restored = Simulation::from_checkpoint(kept).unwrap();
    let index = hearthstone_simulator::world::game_entity(&restored.world.objects, id).unwrap();
    assert_eq!(restored.world.objects[index].enchantments, Some(vec![present]));
    assert!(restored.world.objects[index].keep_enchantments);
}

#[test]
fn checkpoints_reject_retained_operations_naming_missing_work() {
    let context = EffectContext {
        source: None,
        controller: PlayerId::One,
        declared_target: None,
        drawn_card: None,
        origin: EffectOrigin::Other,
    };
    let cases = [
        (ResolutionOp::ResolveEvent(EventId(3)), CheckpointError::MissingEvent(EventId(3))),
        (ResolutionOp::FinishEvent(EventId(3)), CheckpointError::MissingEvent(EventId(3))),
        (
            ResolutionOp::RunEffect {
                context,
                effect: Effect::Draw { player: PlayerSelector::Controller, count: 1 },
                event: Some(EventId(3)),
            },
            CheckpointError::MissingEvent(EventId(3)),
        ),
        (ResolutionOp::ResolveEventSlot(EventSlotId(4)), CheckpointError::MissingEventSlot(EventSlotId(4))),
        (ResolutionOp::FinishDraw(DrawResultSlotId(4)), CheckpointError::MissingDrawResultSlot(DrawResultSlotId(4))),
        (
            ResolutionOp::ContinueDraw {
                result: DrawResultSlotId(4),
                context,
                effects: Vec::new(),
                policy: DrawContinuationPolicy::RequireCard,
            },
            CheckpointError::MissingDrawResultSlot(DrawResultSlotId(4)),
        ),
    ];
    for (operation, expected) in cases {
        let mut checkpoint = simulation().checkpoint().unwrap();
        checkpoint.resolution.next_event_id = 5;
        checkpoint.resolution.next_event_slot_id = 5;
        checkpoint.resolution.next_draw_result_slot_id = 5;
        checkpoint.resolution.stack.push(StackedResolutionOp { id: ResolutionId(0), operation });
        checkpoint.resolution.next_resolution_id = 1;
        checkpoint.resolution.sequence_active = true;
        checkpoint.game.status = SimulationStatus::Resolving;
        assert_eq!(checkpoint_error(checkpoint), expected);
    }
}
