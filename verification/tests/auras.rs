use hearthstone_simulator::aura::{aura_matches, current_spell_damage, discover_aura_applications, set_cache, CacheUpdate};
use hearthstone_simulator::aura_refresh::{merge_provider_category, refresh_post_death_auras};
use hearthstone_simulator::types::{EntityKind, GameEntityId, PlayerId, Zone};
use hearthstone_simulator::world::{
    AuraApplication, AuraCategory, AuraDefinition, AuraModifier, AuraTarget, BaseStats, ContinuousEffectDefinition,
    ContinuousModifier, GameObject, PlayerAudience,
};

fn blank(id: u64) -> GameObject {
    GameObject {
        id: GameEntityId(id),
        definition_id: None,
        kind: None,
        controller: None,
        display_name: None,
        play_order: None,
        base_stats: None,
        base_keywords: None,
        current_stats: None,
        damage: None,
        armor: None,
        pending_destroy: false,
        keywords: None,
        attack_state: None,
        hero_metadata: None,
        hero_power_state: None,
        player: None,
        card_runtime: None,
        card_program: None,
        runtime_auras: None,
        runtime_continuous_effects: None,
        silenced: false,
        stat_modifier: None,
        keyword_modifier: None,
        cost_modifier: None,
        enchantment_duration: None,
        health_aura_cache: None,
        attack_aura_cache: None,
        other_aura_cache: None,
        attached_to: None,
        enchantments: None,
        keep_enchantments: false,
        silence_removable: false,
        death_record: None,
        zone: None,
    }
}

#[test]
fn continuous_effects_and_stale_aura_cache_targets_are_handled() {
    let mut objects = vec![
        GameObject {
            controller: Some(PlayerId::One),
            zone: Some(Zone::Play),
            runtime_continuous_effects: Some(vec![ContinuousEffectDefinition {
                recipients: PlayerAudience::Opponent,
                modifier: ContinuousModifier::SpellDamage(2),
            }]),
            ..blank(1)
        },
        GameObject {
            attack_aura_cache: Some(vec![AuraApplication {
                provider: GameEntityId(99),
                definition_index: 0,
                modifier: AuraModifier::Attack(1),
            }]),
            ..blank(2)
        },
    ];
    let mut trace = Vec::new();

    assert_eq!(current_spell_damage(&objects, PlayerId::One), 0);
    assert_eq!(current_spell_damage(&objects, PlayerId::Two), 2);

    merge_provider_category(&mut objects, &mut trace, AuraCategory::Attack, GameEntityId(99), &Vec::new());
    assert!(objects[1].attack_aura_cache.as_ref().unwrap().is_empty());

    let discovered = vec![CacheUpdate { target: GameEntityId(100), applications: Vec::new() }];
    merge_provider_category(&mut objects, &mut trace, AuraCategory::Attack, GameEntityId(99), &discovered);
    set_cache(&mut objects, &mut trace, AuraCategory::Attack, GameEntityId(100), Vec::new());
    assert_eq!(objects.len(), 2);
}

#[test]
fn aura_target_categories_distinguish_controller_kind_and_source() {
    let provider = GameEntityId(1);
    let friendly = GameEntityId(2);
    let enemy = GameEntityId(3);
    let matches = |selector, target, controller, kind| aura_matches(selector, provider, PlayerId::One, target, controller, kind);

    assert!(matches(AuraTarget::FriendlyMinions, provider, PlayerId::One, EntityKind::Minion));
    assert!(!matches(AuraTarget::OtherFriendlyMinions, provider, PlayerId::One, EntityKind::Minion));
    assert!(matches(AuraTarget::OtherFriendlyMinions, friendly, PlayerId::One, EntityKind::Minion));
    assert!(matches(AuraTarget::EnemyMinions, enemy, PlayerId::Two, EntityKind::Minion));
    assert!(!matches(AuraTarget::AllMinions, enemy, PlayerId::Two, EntityKind::Hero));
    assert!(matches(AuraTarget::FriendlyCharacters, friendly, PlayerId::One, EntityKind::Hero));
    assert!(!matches(AuraTarget::OtherFriendlyCharacters, provider, PlayerId::One, EntityKind::Hero));
    assert!(matches(AuraTarget::OtherFriendlyCharacters, friendly, PlayerId::One, EntityKind::Hero));
    assert!(matches(AuraTarget::EnemyCharacters, enemy, PlayerId::Two, EntityKind::Hero));
    assert!(!matches(AuraTarget::AllCharacters, friendly, PlayerId::One, EntityKind::Weapon));
    assert!(matches(AuraTarget::ControllerPlayer, friendly, PlayerId::One, EntityKind::Player));
    assert!(matches(AuraTarget::OpponentPlayer, enemy, PlayerId::Two, EntityKind::Player));
    assert!(matches(AuraTarget::BothPlayers, enemy, PlayerId::Two, EntityKind::Player));
}

fn aura_minion(id: u64, play_order: u64, attack_bonus: Option<i32>) -> GameObject {
    GameObject {
        kind: Some(EntityKind::Minion),
        controller: Some(PlayerId::One),
        zone: Some(Zone::Play),
        play_order: Some(play_order),
        base_stats: Some(BaseStats { attack: 1, health: 1 }),
        runtime_auras: attack_bonus.map(|attack| {
            vec![AuraDefinition { targets: AuraTarget::AllMinions, attack, health: 0, other: None }]
        }),
        ..blank(id)
    }
}

#[test]
fn auras_are_handed_out_in_play_order_then_identity() {
    // The provider played first comes first, whatever its identity or position.
    let objects = vec![aura_minion(1, 5, Some(2)), aura_minion(2, 3, Some(1)), aura_minion(3, 9, None)];
    let updates = discover_aura_applications(&objects, None, AuraCategory::Attack);
    let target = updates.iter().find(|u| u.target == GameEntityId(3)).expect("the minion receives auras");
    assert_eq!(
        target.applications,
        vec![
            AuraApplication { provider: GameEntityId(2), definition_index: 0, modifier: AuraModifier::Attack(1) },
            AuraApplication { provider: GameEntityId(1), definition_index: 0, modifier: AuraModifier::Attack(2) },
        ]
    );
    assert!(updates.iter().all(|u| u.target != GameEntityId(4)));
    let health = discover_aura_applications(&objects, None, AuraCategory::Health);
    assert!(health.is_empty());
}

#[test]
fn refresh_after_deaths_keeps_health_auras() {
    let stale = |modifier| AuraApplication { provider: GameEntityId(50), definition_index: 0, modifier };
    let mut objects = vec![GameObject {
        health_aura_cache: Some(vec![stale(AuraModifier::MaximumHealth(2))]),
        attack_aura_cache: Some(vec![stale(AuraModifier::Attack(1))]),
        ..aura_minion(1, 1, None)
    }];
    let mut trace = Vec::new();
    refresh_post_death_auras(&mut objects, &mut trace);
    assert_eq!(objects[0].health_aura_cache, Some(vec![stale(AuraModifier::MaximumHealth(2))]));
    assert_eq!(objects[0].attack_aura_cache, Some(Vec::new()));
}
