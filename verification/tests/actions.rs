use hearthstone_simulator::action_validation::{validate_action, GameAction};
use hearthstone_simulator::error::{SimulationError, ZoneError};
use hearthstone_simulator::setup::{Card, PlayerConfig};
use hearthstone_simulator::simulation::{hand_card, hero, simulation, Simulation};
use hearthstone_simulator::trace::{ActionLabel, TraceEntry};
use hearthstone_simulator::types::{EntityKind, GameEntityId, GameOutcome, PlayerId, SimulationStatus, Zone};
use hearthstone_simulator::world::game_entity;

fn play(card: GameEntityId, board_index: Option<usize>) -> GameAction {
    GameAction::PlayCard { player: PlayerId::One, card, target: None, board_index, choice: None }
}

#[test]
fn cards_keep_identity_when_played() {
    let mut simulation = simulation();
    let card = hand_card(&mut simulation, PlayerId::One);
    simulation.apply(play(card, None)).expect("card should be playable");
    let snapshot = simulation.snapshot();
    assert!(snapshot.players[0].hand.is_empty());
    assert!(snapshot.players[0].board.contains(&card));
    assert_eq!(snapshot.objects.iter().filter(|object| object.id == card).count(), 1);
    assert_eq!(snapshot.players[0].used_resources, 1);
    assert_eq!(snapshot.players[0].available_resources, 0);
}

#[test]
fn actions_use_stable_entity_targets() {
    let mut simulation = simulation();
    let card = hand_card(&mut simulation, PlayerId::One);
    simulation.apply(play(card, None)).expect("card should be playable");
    simulation.apply(GameAction::EndTurn { player: PlayerId::One }).expect("turn should end");
    simulation.apply(GameAction::EndTurn { player: PlayerId::Two }).expect("turn should end");
    let defender = hero(&mut simulation, PlayerId::Two);
    simulation
        .apply(GameAction::Attack { player: PlayerId::One, attacker: card, defender })
        .expect("minion should attack");
    assert_eq!(simulation.snapshot().players[1].health, 27);
}

#[test]
fn accepted_actions_are_appended_in_chronological_order() {
    let mut simulation = simulation();
    let card = hand_card(&mut simulation, PlayerId::One);
    simulation.apply(play(card, None)).unwrap();
    simulation.apply(GameAction::EndTurn { player: PlayerId::One }).unwrap();
    let accepted = simulation
        .trace()
        .iter()
        .filter_map(|entry| match entry {
            TraceEntry::ActionAccepted { action, .. } => Some(*action),
            _ => None,
        })
        .collect::<Vec<_>>();
    assert_eq!(accepted, vec![ActionLabel::PlayCard, ActionLabel::EndTurn]);
}

#[test]
fn negative_card_costs_are_floored_at_zero() {
    let mut simulation = Simulation::new([
        PlayerConfig::new("Jaina", vec![Card::minion("Discounted", -2, 1, 1)]),
        PlayerConfig::new("Rexxar", Vec::new()),
    ]);
    let card = hand_card(&mut simulation, PlayerId::One);
    simulation.apply(play(card, None)).unwrap();
    let snapshot = simulation.snapshot();
    assert_eq!(snapshot.players[0].used_resources, 0);
    assert_eq!(snapshot.players[0].resources_spent, 0);
    assert!(simulation
        .trace()
        .iter()
        .any(|entry| matches!(entry, TraceEntry::ResourceSpent { player: PlayerId::One, amount: 0 })));
}

#[test]
fn invalid_play_position_does_not_spend_mana_or_change_replay_state() {
    let mut simulation = Simulation::new([
        PlayerConfig::new("Jaina", vec![Card::minion("Invalid Position", 1, 1, 1)]),
        PlayerConfig::new("Rexxar", Vec::new()),
    ]);
    let card = hand_card(&mut simulation, PlayerId::One);
    let before = simulation.snapshot();
    assert_eq!(
        simulation.apply(play(card, Some(999))),
        Err(SimulationError::Zone(ZoneError::InvalidPosition { zone: Zone::Play, position: 999, length: 0 }))
    );
    assert_eq!(simulation.snapshot(), before);
    assert_eq!(simulation.fork().unwrap().snapshot(), before);
}

#[test]
fn invalid_declarations_only_append_their_rejection_trace() {
    let mut simulation = simulation();
    let before = simulation.checkpoint().unwrap();
    let error = simulation.apply(GameAction::EndTurn { player: PlayerId::Two }).unwrap_err();
    assert_eq!(error, SimulationError::NotPlayersTurn(PlayerId::Two));
    let after = simulation.checkpoint().unwrap();
    assert_eq!(after.trace.len(), before.trace.len() + 1);
    assert_eq!(after.trace[..before.trace.len()], before.trace[..]);
    assert_eq!(
        after.trace.last(),
        Some(&TraceEntry::ActionRejected { player: PlayerId::Two, reason: SimulationError::NotPlayersTurn(PlayerId::Two) })
    );
    assert_eq!(after.entities, before.entities);
    assert_eq!(after.game, before.game);
}

#[test]
fn play_zone_capacity_counts_minions_without_counting_the_hero() {
    let mut simulation = Simulation::new([
        PlayerConfig::new("Jaina", (0..8).map(|index| Card::minion(&format!("Minion {index}"), 0, 1, 1)).collect()),
        PlayerConfig::new("Rexxar", Vec::new()),
    ]);
    for _ in 0..7 {
        let card = hand_card(&mut simulation, PlayerId::One);
        simulation.apply(play(card, None)).expect("all seven minion slots should be available");
    }
    let snapshot = simulation.snapshot();
    assert_eq!(snapshot.players[0].board.len(), 7);
    assert_eq!(
        snapshot
            .objects
            .iter()
            .filter(|object| {
                object.controller == PlayerId::One && object.zone == Zone::Play && object.kind == EntityKind::Minion
            })
            .count(),
        7
    );
    let card = hand_card(&mut simulation, PlayerId::One);
    assert_eq!(simulation.apply(play(card, None)), Err(SimulationError::BoardFull(PlayerId::One)));
}

#[test]
fn rejected_actions_leave_resolution_idle() {
    let mut simulation = simulation();
    let missing = GameEntityId(99_999);
    assert_eq!(simulation.apply(play(missing, None)), Err(SimulationError::EntityNotFound(missing)));
    assert_eq!(simulation.snapshot().game.status, SimulationStatus::AwaitingAction);
    assert!(simulation.world.resolution.stack.is_empty());
    assert!(!simulation.world.resolution.sequence_active);
}

#[test]
fn legal_actions_are_deterministic() {
    let simulation = simulation();
    let before = simulation.checkpoint().unwrap();
    let first = simulation.legal_actions();
    assert_eq!(first, simulation.legal_actions());
    assert_eq!(simulation.checkpoint().unwrap(), before);
    for action in &first {
        assert_eq!(validate_action(&simulation.world, *action), Ok(*action));
    }
}

#[test]
fn legal_actions_start_with_ending_the_turn_and_end_with_conceding() {
    let mut simulation = Simulation::new([
        PlayerConfig::new("Jaina", vec![Card::minion("First", 0, 1, 1), Card::minion("Second", 0, 1, 1)]),
        PlayerConfig::new("Rexxar", Vec::new()),
    ]);
    let card = hand_card(&mut simulation, PlayerId::One);
    simulation.apply(play(card, None)).unwrap();
    let actions = simulation.legal_actions();
    assert_eq!(actions.first(), Some(&GameAction::EndTurn { player: PlayerId::One }));
    assert_eq!(actions.last(), Some(&GameAction::Concede { player: PlayerId::One }));
    let second = hand_card(&mut simulation, PlayerId::One);
    let positions = actions
        .iter()
        .filter_map(|action| match action {
            GameAction::PlayCard { card, board_index, .. } if *card == second => Some(*board_index),
            _ => None,
        })
        .collect::<Vec<_>>();
    assert_eq!(positions, vec![Some(0), Some(1)]);
}

#[test]
fn every_legal_action_is_accepted() {
    let mut simulation = Simulation::new([
        PlayerConfig::new("Jaina", vec![Card::minion("First", 0, 2, 2), Card::spell("Spark", 1)]),
        PlayerConfig::new("Rexxar", Vec::new()),
    ]);
    let card = hand_card(&mut simulation, PlayerId::One);
    simulation.apply(play(card, None)).unwrap();
    for action in simulation.legal_actions() {
        let mut fork = simulation.fork().unwrap();
        assert_eq!(fork.apply(action), Ok(()), "{action:?}");
    }
}

#[test]
fn legal_actions_are_empty_when_the_game_is_not_awaiting_an_open_action() {
    for status in [SimulationStatus::Resolving, SimulationStatus::AwaitingChoice, SimulationStatus::Complete] {
        let mut simulation = simulation();
        simulation.world.game.status = status;
        assert!(simulation.legal_actions().is_empty(), "status: {status:?}");
    }
}

#[test]
fn action_validation_reports_each_rejection_and_concede_completes_game() {
    let mut wrong_turn = simulation();
    assert_eq!(
        wrong_turn.apply(GameAction::EndTurn { player: PlayerId::Two }),
        Err(SimulationError::NotPlayersTurn(PlayerId::Two))
    );

    let mut game_over = simulation();
    game_over.world.game.outcome = Some(GameOutcome::Winner(PlayerId::Two));
    assert_eq!(game_over.apply(GameAction::EndTurn { player: PlayerId::One }), Err(SimulationError::GameOver));

    let mut busy = simulation();
    busy.world.game.status = SimulationStatus::Resolving;
    assert_eq!(busy.apply(GameAction::EndTurn { player: PlayerId::One }), Err(SimulationError::NotAwaitingAction));
    assert!(busy.legal_actions().is_empty());

    let mut invalid = simulation();
    let card = hand_card(&mut invalid, PlayerId::One);
    let own_hero = hero(&mut invalid, PlayerId::One);
    let opposing_hero = hero(&mut invalid, PlayerId::Two);
    assert_eq!(
        invalid.apply(play(opposing_hero, None)),
        Err(SimulationError::NotControlled { entity: opposing_hero })
    );
    assert_eq!(
        invalid.apply(play(own_hero, None)),
        Err(SimulationError::WrongZone { entity: own_hero, expected: Zone::Hand })
    );
    let index = game_entity(&invalid.world.objects, card).unwrap();
    invalid.world.objects[index].kind = Some(EntityKind::Weapon);
    assert_eq!(invalid.apply(play(card, None)), Err(SimulationError::NotPlayable(card)));

    let mut board_full = simulation();
    board_full.world.ruleset.board_limit = 0;
    let card = hand_card(&mut board_full, PlayerId::One);
    assert_eq!(board_full.apply(play(card, None)), Err(SimulationError::BoardFull(PlayerId::One)));

    let mut expensive = Simulation::new([
        PlayerConfig::new("Jaina", vec![Card::spell("Expensive", 2)]),
        PlayerConfig::new("Rexxar", Vec::new()),
    ]);
    let card = hand_card(&mut expensive, PlayerId::One);
    assert_eq!(
        expensive.apply(play(card, None)),
        Err(SimulationError::NotEnoughMana { player: PlayerId::One, required: 2, available: 1 })
    );

    let mut concede = simulation();
    concede.apply(GameAction::Concede { player: PlayerId::One }).unwrap();
    assert_eq!(concede.snapshot().game.outcome, Some(GameOutcome::Winner(PlayerId::Two)));
    assert_eq!(concede.snapshot().game.status, SimulationStatus::Complete);
    assert_eq!(concede.apply(GameAction::EndTurn { player: PlayerId::One }), Err(SimulationError::GameOver));
}

#[test]
fn ending_turns_alternates_players_and_grows_mana() {
    let mut simulation = simulation();
    simulation.apply(GameAction::EndTurn { player: PlayerId::One }).unwrap();
    let snapshot = simulation.snapshot();
    assert_eq!(snapshot.game.active_player, PlayerId::Two);
    assert_eq!(snapshot.game.turn_number, 2);
    assert_eq!(snapshot.players[1].maximum_resources, 1);
    simulation.apply(GameAction::EndTurn { player: PlayerId::Two }).unwrap();
    let snapshot = simulation.snapshot();
    assert_eq!(snapshot.game.active_player, PlayerId::One);
    assert_eq!(snapshot.players[0].maximum_resources, 2);
}

#[test]
fn minions_cannot_attack_the_turn_they_are_played() {
    let mut simulation = simulation();
    let card = hand_card(&mut simulation, PlayerId::One);
    simulation.apply(play(card, None)).unwrap();
    let defender = hero(&mut simulation, PlayerId::Two);
    assert_eq!(
        simulation.apply(GameAction::Attack { player: PlayerId::One, attacker: card, defender }),
        Err(SimulationError::CannotAttack(card))
    );
}

#[test]
fn unsupported_action_choices_are_rejected() {
    let mut simulation = simulation();
    let card = hand_card(&mut simulation, PlayerId::One);
    let choice = hearthstone_simulator::types::ChoiceId(3);
    assert_eq!(
        simulation.apply(GameAction::PlayCard {
            player: PlayerId::One,
            card,
            target: None,
            board_index: None,
            choice: Some(choice),
        }),
        Err(SimulationError::UnsupportedActionChoice(choice))
    );
}

#[test]
fn deaths_remember_their_board_positions() {
    let mut simulation = Simulation::new([
        PlayerConfig::new("Jaina", vec![Card::minion("Left", 0, 1, 1), Card::minion("Right", 0, 1, 1)]),
        PlayerConfig::new("Rexxar", vec![Card::minion("Guard", 0, 1, 1)]),
    ]);
    let left = hand_card(&mut simulation, PlayerId::One);
    simulation
        .apply(GameAction::PlayCard { player: PlayerId::One, card: left, target: None, board_index: None, choice: None })
        .unwrap();
    let right = hand_card(&mut simulation, PlayerId::One);
    simulation
        .apply(GameAction::PlayCard { player: PlayerId::One, card: right, target: None, board_index: None, choice: None })
        .unwrap();
    simulation.apply(GameAction::EndTurn { player: PlayerId::One }).unwrap();
    let guard = hand_card(&mut simulation, PlayerId::Two);
    simulation
        .apply(GameAction::PlayCard { player: PlayerId::Two, card: guard, target: None, board_index: None, choice: None })
        .unwrap();
    simulation.apply(GameAction::EndTurn { player: PlayerId::Two }).unwrap();
    simulation.apply(GameAction::Attack { player: PlayerId::One, attacker: right, defender: guard }).unwrap();

    let snapshot = simulation.snapshot();
    let mut deaths = snapshot
        .deaths
        .iter()
        .map(|record| (record.entity, record.remembered_zone_position))
        .collect::<Vec<_>>();
    deaths.sort();
    let mut expected = vec![(right, 1), (guard, 0)];
    expected.sort();
    assert_eq!(deaths, expected);
    assert_eq!(snapshot.players[0].board, vec![left]);
    assert!(snapshot.players[1].board.is_empty());
    for dead in [right, guard] {
        assert_eq!(snapshot.objects.iter().find(|object| object.id == dead).unwrap().zone, Zone::Graveyard);
    }
    assert_eq!(
        simulation.trace().iter().filter(|entry| matches!(entry, TraceEntry::DeathPhaseQueued { .. })).count(),
        1
    );
}
