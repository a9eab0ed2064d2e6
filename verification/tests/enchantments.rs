use hearthstone_simulator::action_validation::GameAction;
use hearthstone_simulator::simulation::{hand_card, simulation};
use hearthstone_simulator::trace::TraceEntry;
use hearthstone_simulator::types::{PlayerId, Zone};
use hearthstone_simulator::world::{game_entity, EnchantmentDuration};
use hearthstone_simulator::checkpoint::copy_object;
use hearthstone_simulator::enchantment::{recalculate_cost, recalculate_keywords, recalculate_stats};
use hearthstone_simulator::types::{GameEntityId, Keyword, KeywordSet};
use hearthstone_simulator::world::{
    AuraApplication, AuraModifier, BaseStats, CardRuntime, CostModifier, CostOperation, CurrentStats, GameObject,
    KeywordModifier, StatModifier, TargetRequirement,
};

fn blank(id: u64) -> GameObject {
    GameObject {
        id: GameEntityId(id),
        definition_id: None,
        kind: None,
        controller: None,
        display_name: None,
        play_order: None,
        base_stats: None,
        base_keywords: None,
        current_stats: None,
        damage: None,
        armor: None,
        pending_destroy: false,
        keywords: None,
        attack_state: None,
        hero_metadata: None,
        hero_power_state: None,
        player: None,
        card_runtime: None,
        card_program: None,
        runtime_auras: None,
        runtime_continuous_effects: None,
        silenced: false,
        stat_modifier: None,
        keyword_modifier: None,
        cost_modifier: None,
        enchantment_duration: None,
        health_aura_cache: None,
        attack_aura_cache: None,
        other_aura_cache: None,
        attached_to: None,
        enchantments: None,
        keep_enchantments: false,
        silence_removable: false,
        death_record: None,
        zone: None,
    }
}

fn attached(id: u64, target: u64, play_order: Option<u64>) -> GameObject {
    GameObject { play_order, attached_to: Some(GameEntityId(target)), ..blank(id) }
}

#[test]
fn recalculation_combines_ordered_modifiers_and_auras() {
    let mut objects = vec![
        GameObject {
            base_stats: Some(BaseStats { attack: 2, health: 2 }),
            attack_aura_cache: Some(vec![AuraApplication {
                provider: GameEntityId(9),
                definition_index: 0,
                modifier: AuraModifier::Attack(3),
            }]),
            health_aura_cache: Some(vec![AuraApplication {
                provider: GameEntityId(9),
                definition_index: 0,
                modifier: AuraModifier::MaximumHealth(-10),
            }]),
            ..blank(1)
        },
        GameObject {
            stat_modifier: Some(StatModifier { attack: 4, health: 1, silence_removable: true }),
            ..attached(2, 1, Some(2))
        },
        GameObject {
            stat_modifier: Some(StatModifier { attack: -1, health: 2, silence_removable: false }),
            ..attached(3, 1, None)
        },
        attached(4, 1, None),
    ];
    recalculate_stats(&mut objects, GameEntityId(1));
    assert_eq!(objects[0].current_stats, Some(CurrentStats { attack: 8, maximum_health: 0 }));

    let before: Vec<GameObject> = objects.iter().map(copy_object).collect();
    recalculate_stats(&mut objects, GameEntityId(99));
    assert_eq!(objects, before);

    objects.push(blank(5));
    recalculate_stats(&mut objects, GameEntityId(5));
    assert_eq!(objects[4].current_stats, None);
}

#[test]
fn keyword_recalculation_applies_ordered_grants_removals_and_silence() {
    let mut taunt = KeywordSet::empty();
    taunt.set(Keyword::Taunt, true);
    let mut objects = vec![
        GameObject { base_keywords: Some(taunt), keywords: Some(KeywordSet::empty()), ..blank(1) },
        GameObject {
            keyword_modifier: Some(KeywordModifier { keyword: Keyword::Stealth, granted: true, silence_removable: true }),
            ..attached(2, 1, Some(1))
        },
        GameObject {
            keyword_modifier: Some(KeywordModifier { keyword: Keyword::Taunt, granted: false, silence_removable: false }),
            ..attached(3, 1, Some(2))
        },
    ];
    recalculate_keywords(&mut objects, GameEntityId(1));
    let keywords = objects[0].keywords.unwrap();
    assert!(keywords.contains(Keyword::Stealth));
    assert!(!keywords.contains(Keyword::Taunt));

    objects[0].silenced = true;
    recalculate_keywords(&mut objects, GameEntityId(1));
    assert!(objects[0].keywords.unwrap().is_empty());
    recalculate_keywords(&mut objects, GameEntityId(99));
}

#[test]
fn cost_recalculation_tolerates_stale_targets() {
    let mut objects: Vec<GameObject> = Vec::new();
    recalculate_cost(&mut objects, GameEntityId(99));
    assert!(objects.is_empty());
}

#[test]
fn cost_recalculation_ignores_silence_removable_modifiers_on_silenced_cards() {
    let mut objects = vec![
        GameObject {
            card_runtime: Some(CardRuntime { base_cost: 5, cost: 3, targeting: TargetRequirement::Untargeted }),
            silenced: true,
            ..blank(1)
        },
        GameObject {
            cost_modifier: Some(CostModifier { operation: CostOperation::Add, value: -2, silence_removable: true }),
            ..attached(2, 1, Some(1))
        },
    ];
    recalculate_cost(&mut objects, GameEntityId(1));
    assert_eq!(objects[0].card_runtime.unwrap().cost, 5);

    objects[0].silenced = false;
    recalculate_cost(&mut objects, GameEntityId(1));
    assert_eq!(objects[0].card_runtime.unwrap().cost, 3);
}

#[test]
fn cost_modifiers_apply_in_play_order_then_identity() {
    let mut objects = vec![
        GameObject {
            card_runtime: Some(CardRuntime { base_cost: 4, cost: 4, targeting: TargetRequirement::Untargeted }),
            ..blank(1)
        },
        GameObject {
            cost_modifier: Some(CostModifier { operation: CostOperation::Add, value: -1, silence_removable: false }),
            ..attached(3, 1, Some(2))
        },
        GameObject {
            cost_modifier: Some(CostModifier { operation: CostOperation::Replace, value: 7, silence_removable: false }),
            ..attached(2, 1, Some(2))
        },
    ];
    recalculate_cost(&mut objects, GameEntityId(1));
    assert_eq!(objects[0].card_runtime.unwrap().cost, 6);
}

#[test]
fn maximum_health_changes_follow_h1_and_h2() {
    let mut objects = vec![GameObject {
        base_stats: Some(BaseStats { attack: 1, health: 2 }),
        current_stats: Some(CurrentStats { attack: 1, maximum_health: 2 }),
        damage: Some(1),
        health_aura_cache: Some(vec![AuraApplication {
            provider: GameEntityId(2),
            definition_index: 0,
            modifier: AuraModifier::MaximumHealth(2),
        }]),
        ..blank(1)
    }];
    recalculate_stats(&mut objects, GameEntityId(1));
    assert_eq!(objects[0].current_stats, Some(CurrentStats { attack: 1, maximum_health: 4 }));
    assert_eq!(objects[0].damage, Some(1));

    objects[0].health_aura_cache = Some(Vec::new());
    recalculate_stats(&mut objects, GameEntityId(1));
    assert_eq!(objects[0].current_stats, Some(CurrentStats { attack: 1, maximum_health: 2 }));
    assert_eq!(objects[0].damage, Some(0));

    objects[0].current_stats = Some(CurrentStats { attack: 1, maximum_health: 4 });
    objects[0].damage = Some(3);
    recalculate_stats(&mut objects, GameEntityId(1));
    assert_eq!(objects[0].damage, Some(1));
}

#[test]
fn end_of_turn_effects_leave_the_game_when_the_turn_ends() {
    let mut simulation = simulation();
    let minion = hand_card(&mut simulation, PlayerId::One);
    simulation
        .apply(GameAction::PlayCard { player: PlayerId::One, card: minion, target: None, board_index: None, choice: None })
        .unwrap();
    let buff = GameEntityId(10_000);
    simulation.world.objects.push(GameObject {
        controller: Some(PlayerId::One),
        zone: Some(Zone::Play),
        stat_modifier: Some(StatModifier { attack: 2, health: 0, silence_removable: true }),
        enchantment_duration: Some(EnchantmentDuration::EndOfTurn(PlayerId::One)),
        ..attached(10_000, minion.0, Some(10_000))
    });
    simulation.world.zones.one.play.push(buff);
    recalculate_stats(&mut simulation.world.objects, minion);
    let index = game_entity(&simulation.world.objects, minion).unwrap();
    let boosted = simulation.world.objects[index].current_stats.unwrap().attack;

    simulation.apply(GameAction::EndTurn { player: PlayerId::One }).unwrap();

    let buff_index = game_entity(&simulation.world.objects, buff).unwrap();
    assert_eq!(simulation.world.objects[buff_index].zone, Some(Zone::RemovedFromGame));
    assert_eq!(simulation.world.objects[buff_index].attached_to, None);
    assert!(simulation.world.zones.one.removed.contains(&buff));
    assert!(!simulation.world.zones.one.play.contains(&buff));
    assert_eq!(simulation.world.objects[index].current_stats.unwrap().attack, boosted - 2);
    assert!(simulation
        .trace()
        .iter()
        .any(|entry| matches!(entry, TraceEntry::TemporaryEffectExpired { entity } if *entity == buff)));
}

#[test]
fn checkpoints_refuse_attachments_to_missing_entities() {
    let mut simulation = simulation();
    simulation.world.objects.push(GameObject { attached_to: Some(GameEntityId(99_999)), ..blank(10_001) });
    assert!(matches!(
        simulation.checkpoint(),
        Err(hearthstone_simulator::error::SimulationError::Checkpoint(
            hearthstone_simulator::error::CheckpointError::MissingAttachmentTarget(GameEntityId(10_001))
        ))
    ));
    assert!(simulation.fork().is_err());
}
