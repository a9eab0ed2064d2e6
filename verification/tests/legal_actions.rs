use hearthstone_simulator::action_validation::{validate_action, GameAction};
use hearthstone_simulator::player::draw_card;
use hearthstone_simulator::setup::{Card, PlayerConfig};
use hearthstone_simulator::simulation::{hand_card, hero, Simulation};
use hearthstone_simulator::types::{ChoiceId, GameEntityId, PlayerId, Zone};
use hearthstone_simulator::world::{game_entity, TargetAudience, TargetFilter, TargetKind, TargetRequirement};

fn play(card: GameEntityId, target: Option<GameEntityId>, board_index: Option<usize>, choice: Option<ChoiceId>) -> GameAction {
    GameAction::PlayCard { player: PlayerId::One, card, target, board_index, choice }
}

#[test]
fn legal_actions_contain_every_successfully_validated_small_fixture_candidate() {
    let enemy_character = TargetFilter { audience: TargetAudience::Enemy, kind: TargetKind::Character };
    let mut simulation = Simulation::new([
        PlayerConfig::new(
            "Jaina",
            vec![
                Card::minion("Targeted", 0, 1, 1).with_targeting(TargetRequirement::Required(enemy_character)),
                Card::spell("Spell", 0),
                Card::hero("Unsupported", 30),
            ],
        ),
        PlayerConfig::new("Rexxar", vec![Card::minion("Enemy", 0, 1, 1)]),
    ]);
    simulation.apply(GameAction::EndTurn { player: PlayerId::One }).unwrap();
    let enemy_minion = hand_card(&mut simulation, PlayerId::Two);
    simulation
        .apply(GameAction::PlayCard {
            player: PlayerId::Two,
            card: enemy_minion,
            target: None,
            board_index: None,
            choice: None,
        })
        .unwrap();
    simulation.apply(GameAction::EndTurn { player: PlayerId::Two }).unwrap();
    let friendly_hero = hero(&mut simulation, PlayerId::One);
    let index = game_entity(&simulation.world.objects, friendly_hero).unwrap();
    simulation.world.objects[index].current_stats.as_mut().unwrap().attack = 1;

    let legal_actions = simulation.legal_actions();
    let snapshot = simulation.snapshot();
    let stale = GameEntityId(u64::MAX);
    let mut hand_ids = snapshot.players[0].hand.clone();
    hand_ids.push(stale);
    let mut entity_ids = snapshot.objects.iter().map(|object| object.id).collect::<Vec<_>>();
    entity_ids.push(stale);
    let board_len = snapshot.players[0].board.len();

    for &card in &hand_ids {
        for target in std::iter::once(None).chain(entity_ids.iter().copied().map(Some)) {
            for board_index in std::iter::once(None).chain((0..=board_len + 1).map(Some)) {
                for choice in [None, Some(ChoiceId(999))] {
                    if let Ok(normalized) = validate_action(&simulation.world, play(card, target, board_index, choice)) {
                        assert!(legal_actions.contains(&normalized), "missing normalized play action: {normalized:?}");
                    }
                }
            }
        }
    }
    for &attacker in &entity_ids {
        for &defender in &entity_ids {
            let candidate = GameAction::Attack { player: PlayerId::One, attacker, defender };
            if let Ok(normalized) = validate_action(&simulation.world, candidate) {
                assert!(legal_actions.contains(&normalized), "missing normalized attack action: {normalized:?}");
            }
        }
    }
    for player in [PlayerId::One, PlayerId::Two] {
        for candidate in [GameAction::EndTurn { player }, GameAction::Concede { player }] {
            if let Ok(normalized) = validate_action(&simulation.world, candidate) {
                assert!(legal_actions.contains(&normalized), "missing normalized turn action: {normalized:?}");
            }
        }
    }
    assert!(legal_actions.iter().any(|action| matches!(
        action,
        GameAction::Attack { attacker, defender, .. } if *attacker == friendly_hero && *defender == enemy_minion
    )));
    let targeted = snapshot.players[0].hand[0];
    assert!(legal_actions.iter().any(|action| matches!(
        action,
        GameAction::PlayCard { card, target: Some(target), .. } if *card == targeted && *target == enemy_minion
    )));
    assert!(!legal_actions.iter().any(|action| matches!(
        action,
        GameAction::PlayCard { card, target: None, .. } if *card == targeted
    )));
}

#[test]
fn drawing_moves_the_top_card_to_the_hand_and_an_empty_deck_causes_fatigue() {
    let mut simulation = Simulation::new([
        PlayerConfig::with_deck("Jaina", vec![Card::minion("Top", 1, 1, 1), Card::spell("Bottom", 1)]),
        PlayerConfig::new("Rexxar", Vec::new()),
    ]);
    let top = simulation.world.zones.entities(PlayerId::One, Zone::Deck)[0];
    draw_card(&mut simulation.world, PlayerId::One).unwrap();
    assert_eq!(simulation.world.zones.entities(PlayerId::One, Zone::Hand), &vec![top]);
    assert_eq!(simulation.world.zones.entities(PlayerId::One, Zone::Deck).len(), 1);

    let before = simulation.snapshot().players[1].health;
    draw_card(&mut simulation.world, PlayerId::Two).unwrap();
    let snapshot = simulation.snapshot();
    assert_eq!(snapshot.players[1].fatigue, 1);
    assert_eq!(snapshot.players[1].health, before - 1);
    draw_card(&mut simulation.world, PlayerId::Two).unwrap();
    let snapshot = simulation.snapshot();
    assert_eq!(snapshot.players[1].fatigue, 2);
    assert_eq!(snapshot.players[1].health, before - 3);
}

#[test]
fn legal_actions_are_the_same_for_a_state_and_its_fork() {
    let mut simulation = Simulation::new([
        PlayerConfig::new("Jaina", vec![Card::minion("First", 0, 1, 1), Card::minion("Second", 0, 2, 2)]),
        PlayerConfig::new("Rexxar", Vec::new()),
    ]);
    let first = hand_card(&mut simulation, PlayerId::One);
    simulation.apply(play(first, None, None, None)).unwrap();
    let fork = simulation.fork().unwrap();
    let here = simulation.legal_actions();
    assert_eq!(here, fork.legal_actions());
    assert_eq!(here, simulation.legal_actions());
    assert_eq!(here.first(), Some(&GameAction::EndTurn { player: PlayerId::One }));
    assert_eq!(here.last(), Some(&GameAction::Concede { player: PlayerId::One }));
    let positions = here
        .iter()
        .filter_map(|action| match action {
            GameAction::PlayCard { board_index, .. } => Some(*board_index),
            _ => None,
        })
        .collect::<Vec<_>>();
    let mut sorted = positions.clone();
    sorted.sort();
    assert_eq!(positions, sorted);
    assert!(!positions.is_empty());
}
