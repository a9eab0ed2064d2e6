//! Card definitions, player configurations and the world a new game starts from.
use vstd::prelude::*;

use crate::aura::unique_ids;
use crate::aura_refresh::auras_indexable;
use crate::operations::ScheduledTurnKind;
use crate::resolver::ResolutionWork;
use crate::rng::DeterministicRng;
use crate::trace::TraceEntry;
use crate::types::{EntityKind, GameEntityId, KeywordSet, PlayerId, SimulationStatus, Zone};
use crate::world::{
    world_wf, AttackState, BaseStats, CardRuntime, CurrentStats, GameObject, GameState, HeroClass,
    HeroMetadata, HeroPowerState, Player, Ruleset, TargetRequirement, TurnSchedule, World, ZoneIndex,
    RULEBOOK_REVISION, STARTING_HEALTH,
};

verus! {

/// The definition of a card a player starts with.
#[derive(Debug, PartialEq, Eq)]
pub struct Card {
    pub name: String,
    pub kind: EntityKind,
    pub cost: i32,
    pub attack: i32,
    pub health: i32,
    pub targeting: TargetRequirement,
}

impl Card {
    /// A minion with a cost, attack and health.
    pub fn minion(name: &str, cost: i32, attack: i32, health: i32) -> (r: Card)
        ensures
            r.name@ == name@,
            r.kind == EntityKind::Minion,
            r.cost == cost,
            r.attack == attack,
            r.health == health,
            r.targeting == TargetRequirement::Untargeted,
    {
        Card { name: name.to_owned(), kind: EntityKind::Minion, cost, attack, health, targeting: TargetRequirement::Untargeted }
    }

    /// A spell with a cost.
    pub fn spell(name: &str, cost: i32) -> (r: Card)
        ensures
            r.name@ == name@,
            r.kind == EntityKind::Spell,
            r.cost == cost,
            r.attack == 0,
            r.health == 0,
            r.targeting == TargetRequirement::Untargeted,
    {
        Card { name: name.to_owned(), kind: EntityKind::Spell, cost, attack: 0, health: 0, targeting: TargetRequirement::Untargeted }
    }

    /// A hero card with a health; it cannot be played from the hand.
    pub fn hero(name: &str, health: i32) -> (r: Card)
        ensures
            r.name@ == name@,
            r.kind == EntityKind::Hero,
            r.cost == 0,
            r.attack == 0,
            r.health == health,
            r.targeting == TargetRequirement::Untargeted,
    {
        Card { name: name.to_owned(), kind: EntityKind::Hero, cost: 0, attack: 0, health, targeting: TargetRequirement::Untargeted }
    }

    /// The same card with another targeting requirement.
    pub fn with_targeting(self, targeting: TargetRequirement) -> (r: Card)
        ensures
            r == (Card { targeting, ..self }),
    {
        Card { targeting, ..self }
    }

    /// A copy of the card.
    pub fn copy(&self) -> (r: Card)
        ensures
            r == *self,
    {
        Card {
            name: self.name.clone(),
            kind: self.kind,
            cost: self.cost,
            attack: self.attack,
            health: self.health,
            targeting: self.targeting,
        }
    }
}

/// How a player starts: a name, a hero class, the cards in hand and the cards in the deck (the
/// first card on top).
#[derive(Debug, PartialEq, Eq)]
pub struct PlayerConfig {
    pub name: String,
    pub hero_class: HeroClass,
    pub hand: Vec<Card>,
    pub deck: Vec<Card>,
}

fn copy_cards(cards: &Vec<Card>) -> (r: Vec<Card>)
    ensures
        r@ == cards@,
{
    let mut r: Vec<Card> = Vec::new();
    let mut i: usize = 0;
    while i < cards.len()
        invariant
            i <= cards.len(),
            r@ == cards@.subrange(0, i as int),
        decreases cards.len() - i,
    {
        r.push(cards[i].copy());
        i = i + 1;
        assert(r@ =~= cards@.subrange(0, i as int));
    }
    assert(cards@.subrange(0, cards@.len() as int) =~= cards@);
    r
}

impl PlayerConfig {
    /// A neutral player with the given cards in hand and an empty deck.
    pub fn new(name: &str, hand: Vec<Card>) -> (r: PlayerConfig)
        ensures
            r.name@ == name@,
            r.hero_class == HeroClass::Neutral,
            r.hand@ == hand@,
            r.deck@.len() == 0,
    {
        PlayerConfig { name: name.to_owned(), hero_class: HeroClass::Neutral, hand, deck: Vec::new() }
    }

    /// A neutral player with an empty hand and the given deck.
    pub fn with_deck(name: &str, deck: Vec<Card>) -> (r: PlayerConfig)
        ensures
            r.name@ == name@,
            r.hero_class == HeroClass::Neutral,
            r.hand@.len() == 0,
            r.deck@ == deck@,
    {
        PlayerConfig { name: name.to_owned(), hero_class: HeroClass::Neutral, hand: Vec::new(), deck }
    }

    /// A copy of the configuration.
    pub fn copy(&self) -> (r: PlayerConfig)
        ensures
            r.name == self.name,
            r.hero_class == self.hero_class,
            r.hand@ == self.hand@,
            r.deck@ == self.deck@,
    {
        PlayerConfig {
            name: self.name.clone(),
            hero_class: self.hero_class,
            hand: copy_cards(&self.hand),
            deck: copy_cards(&self.deck),
        }
    }
}

/// The rules a new game is played under.
pub open spec fn standard_ruleset() -> Ruleset {
    Ruleset {
        id: 1,
        rulebook_revision: RULEBOOK_REVISION,
        resolution_budget: 10000,
        maximum_mana: 10,
        hand_limit: 10,
        board_limit: 7,
    }
}

/// The object a card becomes when it enters the game.
pub open spec fn card_object(id: GameEntityId, card: Card, controller: PlayerId, zone: Zone, play_order: u64) -> GameObject {
    let character = card.kind == EntityKind::Minion || card.kind == EntityKind::Hero;
    GameObject {
        id,
        definition_id: Some(card.name),
        kind: Some(card.kind),
        controller: Some(controller),
        display_name: Some(card.name),
        play_order: Some(play_order),
        base_stats: if character { Some(BaseStats { attack: card.attack, health: card.health }) } else { None },
        base_keywords: if character { Some(KeywordSet::none()) } else { None },
        current_stats: if character { Some(CurrentStats { attack: card.attack, maximum_health: card.health }) } else { None },
        damage: if character { Some(0) } else { None },
        armor: if card.kind == EntityKind::Hero { Some(0) } else { None },
        pending_destroy: false,
        keywords: if character { Some(KeywordSet::none()) } else { None },
        attack_state: if character { Some(AttackState { attacks_this_turn: 0, exhausted: true }) } else { None },
        hero_metadata: if card.kind == EntityKind::Hero { Some(HeroMetadata { class: HeroClass::Neutral }) } else { None },
        hero_power_state: None,
        player: None,
        card_runtime: Some(CardRuntime { base_cost: card.cost, cost: card.cost, targeting: card.targeting }),
        card_program: None,
        runtime_auras: None,
        runtime_continuous_effects: None,
        silenced: false,
        stat_modifier: None,
        keyword_modifier: None,
        cost_modifier: None,
        enchantment_duration: None,
        health_aura_cache: None,
        attack_aura_cache: None,
        other_aura_cache: None,
        attached_to: None,
        enchantments: None,
        keep_enchantments: false,
        silence_removable: false,
        death_record: None,
        zone: Some(zone),
    }
}

/// Turns a card into an object with the given identity, controller, zone and play order.
pub fn make_card_object(id: GameEntityId, card: &Card, controller: PlayerId, zone: Zone, play_order: u64) -> (r: GameObject)
    ensures
        r == card_object(id, *card, controller, zone, play_order),
{
    let character = card.kind == EntityKind::Minion || card.kind == EntityKind::Hero;
    let hero = card.kind == EntityKind::Hero;
    GameObject {
        id,
        definition_id: Some(card.name.clone()),
        kind: Some(card.kind),
        controller: Some(controller),
        display_name: Some(card.name.clone()),
        play_order: Some(play_order),
        base_stats: if character { Some(BaseStats { attack: card.attack, health: card.health }) } else { None },
        base_keywords: if character { Some(KeywordSet::empty()) } else { None },
        current_stats: if character { Some(CurrentStats { attack: card.attack, maximum_health: card.health }) } else { None },
        damage: if character { Some(0) } else { None },
        armor: if hero { Some(0) } else { None },
        pending_destroy: false,
        keywords: if character { Some(KeywordSet::empty()) } else { None },
        attack_state: if character { Some(AttackState { attacks_this_turn: 0, exhausted: true }) } else { None },
        hero_metadata: if hero { Some(HeroMetadata { class: HeroClass::Neutral }) } else { None },
        hero_power_state: None,
        player: None,
        card_runtime: Some(CardRuntime { base_cost: card.cost, cost: card.cost, targeting: card.targeting }),
        card_program: None,
        runtime_auras: None,
        runtime_continuous_effects: None,
        silenced: false,
        stat_modifier: None,
        keyword_modifier: None,
        cost_modifier: None,
        enchantment_duration: None,
        health_aura_cache: None,
        attack_aura_cache: None,
        other_aura_cache: None,
        attached_to: None,
        enchantments: None,
        keep_enchantments: false,
        silence_removable: false,
        death_record: None,
        zone: Some(zone),
    }
}

/// Whether every identity of `objects` is below `next`.
pub open spec fn ids_below(objects: Seq<GameObject>, next: u64) -> bool {
    forall|i: int| 0 <= i < objects.len() ==> (#[trigger] objects[i]).id.0 < next
}

fn add_object(world: &mut World, o: GameObject)
    requires
        unique_ids(old(world).objects@),
        auras_indexable(old(world).objects@),
        ids_below(old(world).objects@, old(world).next_game_entity_id),
        o.id.0 == old(world).next_game_entity_id,
        old(world).next_game_entity_id < u64::MAX,
        o.runtime_auras is None,
    ensures
        final(world).objects@ == old(world).objects@.push(o),
        final(world).next_game_entity_id == old(world).next_game_entity_id + 1,
        unique_ids(final(world).objects@),
        auras_indexable(final(world).objects@),
        ids_below(final(world).objects@, final(world).next_game_entity_id),
        *final(world) == (World { objects: final(world).objects, next_game_entity_id: final(world).next_game_entity_id, ..*old(world) }),
{
    world.objects.push(o);
    world.next_game_entity_id = world.next_game_entity_id + 1;
}


fn add_listed(world: &mut World, o: GameObject, player: PlayerId, zone: Zone)
    requires
        unique_ids(old(world).objects@),
        auras_indexable(old(world).objects@),
        ids_below(old(world).objects@, old(world).next_game_entity_id),
        o.id.0 == old(world).next_game_entity_id,
        old(world).next_game_entity_id < u64::MAX,
        o.runtime_auras is None,
    ensures
        final(world).objects@ == old(world).objects@.push(o),
        final(world).next_game_entity_id == old(world).next_game_entity_id + 1,
        unique_ids(final(world).objects@),
        auras_indexable(final(world).objects@),
        ids_below(final(world).objects@, final(world).next_game_entity_id),
        final(world).zones.list(player, zone) == old(world).zones.list(player, zone).push(o.id),
        forall|q: PlayerId, z: Zone| !(q == player && z == zone) ==> #[trigger] final(world).zones.list(q, z) == old(
            world,
        ).zones.list(q, z),
        *final(world) == (World {
            objects: final(world).objects,
            zones: final(world).zones,
            next_game_entity_id: final(world).next_game_entity_id,
            ..*old(world)
        }),
{
    let id = o.id;
    add_object(world, o);
    let mut list = crate::operations::copy_ids(world.zones.entities(player, zone));
    list.push(id);
    world.zones.set_list(player, zone, list);
}

/// The identities handed to `n` cards dealt from identity `first` on.
pub open spec fn dealt_ids(n: int, first: int) -> Seq<GameEntityId> {
    Seq::new(n as nat, |k: int| GameEntityId((first + k) as u64))
}

/// The objects of `cards` dealt into `player`'s `zone` with identities from `first` and play
/// orders from `order` on.
pub open spec fn dealt_objects(cards: Seq<Card>, player: PlayerId, zone: Zone, first: int, order: int) -> Seq<GameObject> {
    Seq::new(
        cards.len(),
        |k: int| card_object(GameEntityId((first + k) as u64), cards[k], player, zone, (order + k) as u64),
    )
}

/// Whether `player`'s `zone` holds exactly `cards`, in order: each listed identity is the object
/// that card became in that zone.
pub open spec fn holds_cards(w: World, player: PlayerId, zone: Zone, cards: Seq<Card>) -> bool {
    let ids = w.zones.list(player, zone);
    &&& ids.len() == cards.len()
    &&& forall|k: int|
        0 <= k < ids.len() ==> (crate::world::lookup(w.objects@, #[trigger] ids[k]) matches Some(i) && w.objects@[i] == card_object(
            ids[k],
            cards[k],
            player,
            zone,
            w.objects@[i].play_order->0,
        ))
}

/// Puts the cards of `cards` into `player`'s `zone`, in order, with fresh identities and play
/// orders.
fn add_cards(world: &mut World, cards: &Vec<Card>, player: PlayerId, zone: Zone)
    requires
        world_wf(*old(world)),
        ids_below(old(world).objects@, old(world).next_game_entity_id),
        old(world).next_game_entity_id + cards@.len() < u64::MAX,
        old(world).next_play_order + cards@.len() < u64::MAX,
    ensures
        world_wf(*final(world)),
        ids_below(final(world).objects@, final(world).next_game_entity_id),
        final(world).next_game_entity_id == old(world).next_game_entity_id + cards@.len(),
        final(world).next_play_order == old(world).next_play_order + cards@.len(),
        final(world).objects@.len() == old(world).objects@.len() + cards@.len(),
        final(world).zones.list(player, zone).len() == old(world).zones.list(player, zone).len() + cards@.len(),
        final(world).zones.list(player, zone).subrange(0, old(world).zones.list(player, zone).len() as int)
            == old(world).zones.list(player, zone),
        forall|q: PlayerId, z: Zone| !(q == player && z == zone) ==> #[trigger] final(world).zones.list(q, z) == old(
            world,
        ).zones.list(q, z),
        final(world).objects@.subrange(0, old(world).objects@.len() as int) == old(world).objects@,
        final(world).game == old(world).game,
        final(world).ruleset == old(world).ruleset,
        final(world).resolution == old(world).resolution,
        final(world).objects@ == old(world).objects@ + dealt_objects(
            cards@,
            player,
            zone,
            old(world).next_game_entity_id as int,
            old(world).next_play_order as int,
        ),
        final(world).zones.list(player, zone) == old(world).zones.list(player, zone) + dealt_ids(
            cards@.len() as int,
            old(world).next_game_entity_id as int,
        ),
{
    let mut k: usize = 0;
    while k < cards.len()
        invariant
            k <= cards.len(),
            world_wf(*world),
            ids_below(world.objects@, world.next_game_entity_id),
            world.next_game_entity_id == old(world).next_game_entity_id + k,
            world.next_play_order == old(world).next_play_order + k,
            old(world).next_game_entity_id + cards@.len() < u64::MAX,
            old(world).next_play_order + cards@.len() < u64::MAX,
            world.objects@.len() == old(world).objects@.len() + k,
            world.zones.list(player, zone).len() == old(world).zones.list(player, zone).len() + k,
            world.zones.list(player, zone).subrange(0, old(world).zones.list(player, zone).len() as int)
                == old(world).zones.list(player, zone),
            forall|q: PlayerId, z: Zone| !(q == player && z == zone) ==> #[trigger] world.zones.list(q, z) == old(
                world,
            ).zones.list(q, z),
            world.objects@.subrange(0, old(world).objects@.len() as int) == old(world).objects@,
            world.game == old(world).game,
            world.ruleset == old(world).ruleset,
            world.resolution == old(world).resolution,
            world.objects@ == old(world).objects@ + dealt_objects(
                cards@.subrange(0, k as int),
                player,
                zone,
                old(world).next_game_entity_id as int,
                old(world).next_play_order as int,
            ),
            world.zones.list(player, zone) == old(world).zones.list(player, zone) + dealt_ids(
                k as int,
                old(world).next_game_entity_id as int,
            ),
        decreases cards.len() - k,
    {
        let id = GameEntityId(world.next_game_entity_id);
        let order = world.next_play_order;
        let o = make_card_object(id, &cards[k], player, zone, order);
        let ghost before = *world;
        add_listed(world, o, player, zone);
        proof {
            assert(world.objects@.subrange(0, old(world).objects@.len() as int) =~= before.objects@.subrange(
                0,
                old(world).objects@.len() as int,
            ));
            assert(world.zones.list(player, zone).subrange(0, old(world).zones.list(player, zone).len() as int)
                =~= before.zones.list(player, zone).subrange(0, old(world).zones.list(player, zone).len() as int));
            assert(dealt_objects(
                cards@.subrange(0, k + 1),
                player,
                zone,
                old(world).next_game_entity_id as int,
                old(world).next_play_order as int,
            ) =~= dealt_objects(
                cards@.subrange(0, k as int),
                player,
                zone,
                old(world).next_game_entity_id as int,
                old(world).next_play_order as int,
            ).push(o));
            assert(dealt_ids(k + 1, old(world).next_game_entity_id as int) =~= dealt_ids(
                k as int,
                old(world).next_game_entity_id as int,
            ).push(id));
            assert(world.objects@ =~= old(world).objects@ + dealt_objects(
                cards@.subrange(0, k + 1),
                player,
                zone,
                old(world).next_game_entity_id as int,
                old(world).next_play_order as int,
            ));
            assert(world.zones.list(player, zone) =~= old(world).zones.list(player, zone) + dealt_ids(
                k + 1,
                old(world).next_game_entity_id as int,
            ));
        }
        world.next_play_order = world.next_play_order + 1;
        k = k + 1;
    }
    proof {
        assert(cards@.subrange(0, k as int) =~= cards@);
    }
}

/// The Player record a player starts with: `maximum_resources` mana crystals, nothing used,
/// spent, overloaded or fatigued.
pub open spec fn fresh_player(player: PlayerId, maximum_resources: i32) -> Player {
    Player {
        id: player,
        maximum_resources,
        used_resources: 0,
        temporary_resources: 0,
        pending_overload: 0,
        locked_overload: 0,
        resources_spent: 0,
        fatigue: 0,
    }
}

/// The Player object of a player with the given name.
pub fn make_player_object(id: GameEntityId, player: PlayerId, name: &String, maximum_resources: i32) -> (r: GameObject)
    ensures
        r.id == id,
        r.kind == Some(EntityKind::Player),
        r.controller == Some(player),
        r.display_name == Some(*name),
        r.player == Some(Player {
            id: player,
            maximum_resources,
            used_resources: 0,
            temporary_resources: 0,
            pending_overload: 0,
            locked_overload: 0,
            resources_spent: 0,
            fatigue: 0,
        }),
        r.zone is None,
        r.runtime_auras is None,
{
    GameObject {
        id,
        definition_id: None,
        kind: Some(EntityKind::Player),
        controller: Some(player),
        display_name: Some(name.clone()),
        play_order: None,
        base_stats: None,
        base_keywords: None,
        current_stats: None,
        damage: None,
        armor: None,
        pending_destroy: false,
        keywords: None,
        attack_state: None,
        hero_metadata: None,
        hero_power_state: None,
        player: Some(Player {
            id: player,
            maximum_resources,
            used_resources: 0,
            temporary_resources: 0,
            pending_overload: 0,
            locked_overload: 0,
            resources_spent: 0,
            fatigue: 0,
        }),
        card_runtime: None,
        card_program: None,
        runtime_auras: None,
        runtime_continuous_effects: None,
        silenced: false,
        stat_modifier: None,
        keyword_modifier: None,
        cost_modifier: None,
        enchantment_duration: None,
        health_aura_cache: None,
        attack_aura_cache: None,
        other_aura_cache: None,
        attached_to: None,
        enchantments: None,
        keep_enchantments: false,
        silence_removable: false,
        death_record: None,
        zone: None,
    }
}

/// The hero of a player: no attack, starting health, no damage or armor, ready to attack.
pub fn make_hero_object(id: GameEntityId, player: PlayerId, config: &PlayerConfig, play_order: u64) -> (r: GameObject)
    ensures
        r.id == id,
        r.kind == Some(EntityKind::Hero),
        r.controller == Some(player),
        r.current_stats == Some(CurrentStats { attack: 0, maximum_health: STARTING_HEALTH }),
        r.damage == Some(0i32),
        r.armor == Some(0i32),
        r.attack_state == Some(AttackState { attacks_this_turn: 0, exhausted: false }),
        r.hero_metadata == Some(HeroMetadata { class: config.hero_class }),
        r.zone == Some(Zone::Play),
        r.runtime_auras is None,
        r.player is None,
        r.display_name == Some(config.name),
{
    let mut o = make_card_object(id, &Card::hero(config.name.as_str(), STARTING_HEALTH), player, Zone::Play, play_order);
    o.display_name = Some(config.name.clone());
    o.attack_state = Some(AttackState { attacks_this_turn: 0, exhausted: false });
    o.hero_metadata = Some(HeroMetadata { class: config.hero_class });
    o.card_runtime = None;
    o
}

/// The hero power of a player: costs two, takes no target, ready to use.
pub fn make_hero_power_object(id: GameEntityId, player: PlayerId, play_order: u64) -> (r: GameObject)
    ensures
        r.id == id,
        r.kind == Some(EntityKind::HeroPower),
        r.controller == Some(player),
        r.hero_power_state == Some(HeroPowerState { uses_this_turn: 0, exhausted: false }),
        r.card_runtime == Some(CardRuntime { base_cost: 2, cost: 2, targeting: TargetRequirement::Untargeted }),
        r.zone == Some(Zone::Play),
        r.runtime_auras is None,
        r.player is None,
{
    let mut o = make_card_object(id, &Card::spell("Hero Power", 2), player, Zone::Play, play_order);
    o.kind = Some(EntityKind::HeroPower);
    o.hero_power_state = Some(HeroPowerState { uses_this_turn: 0, exhausted: false });
    o
}

fn add_player(world: &mut World, config: &PlayerConfig, player: PlayerId, maximum_resources: i32)
    requires
        world_wf(*old(world)),
        ids_below(old(world).objects@, old(world).next_game_entity_id),
        old(world).next_game_entity_id + config.hand@.len() + config.deck@.len() + 3 < u64::MAX,
        old(world).next_play_order + config.hand@.len() + config.deck@.len() + 2 < u64::MAX,
    ensures
        world_wf(*final(world)),
        ids_below(final(world).objects@, final(world).next_game_entity_id),
        final(world).next_game_entity_id == old(world).next_game_entity_id + config.hand@.len() + config.deck@.len() + 3,
        final(world).next_play_order == old(world).next_play_order + config.hand@.len() + config.deck@.len() + 2,
        final(world).game == old(world).game,
        final(world).ruleset == old(world).ruleset,
        final(world).resolution == old(world).resolution,
        final(world).objects@.len() >= old(world).objects@.len() + 3,
        final(world).objects@.subrange(0, old(world).objects@.len() as int) == old(world).objects@,
        final(world).objects@[old(world).objects@.len() as int].player matches Some(data) && data.id == player,
        final(world).objects@[old(world).objects@.len() as int].player == Some(fresh_player(player, maximum_resources)),
        final(world).objects@[old(world).objects@.len() as int].display_name == Some(config.name),
        final(world).objects@[old(world).objects@.len() + 1int].current_stats == Some(
            CurrentStats { attack: 0, maximum_health: STARTING_HEALTH },
        ),
        final(world).objects@[old(world).objects@.len() + 1int].damage == Some(0i32),
        forall|j: int|
            old(world).objects@.len() + 1 <= j < final(world).objects@.len() ==> (#[trigger] final(world).objects@[j]).player
                is None,
        final(world).objects@[old(world).objects@.len() + 1int].kind == Some(EntityKind::Hero),
        final(world).objects@[old(world).objects@.len() + 1int].current_stats is Some,
        final(world).objects@[old(world).objects@.len() + 1int].damage is Some,
        final(world).objects@[old(world).objects@.len() + 2int].kind == Some(EntityKind::HeroPower),
        final(world).zones.list(player, Zone::Play) == old(world).zones.list(player, Zone::Play).push(
            final(world).objects@[old(world).objects@.len() + 1int].id,
        ).push(final(world).objects@[old(world).objects@.len() + 2int].id),
        forall|z: Zone| #[trigger] final(world).zones.list(player.spec_opponent(), z) == old(world).zones.list(
            player.spec_opponent(),
            z,
        ),
        final(world).zones.list(player, Zone::Hand).len() == old(world).zones.list(player, Zone::Hand).len()
            + config.hand@.len(),
        final(world).zones.list(player, Zone::Deck).len() == old(world).zones.list(player, Zone::Deck).len()
            + config.deck@.len(),
        final(world).zones.list(player, Zone::Hand) == old(world).zones.list(player, Zone::Hand) + dealt_ids(
            config.hand@.len() as int,
            old(world).next_game_entity_id + 3,
        ),
        final(world).zones.list(player, Zone::Deck) == old(world).zones.list(player, Zone::Deck) + dealt_ids(
            config.deck@.len() as int,
            old(world).next_game_entity_id + 3 + config.hand@.len(),
        ),
        final(world).objects@.len() == old(world).objects@.len() + 3 + config.hand@.len() + config.deck@.len(),
        final(world).objects@.subrange(
            old(world).objects@.len() + 3int,
            old(world).objects@.len() + 3int + config.hand@.len(),
        ) == dealt_objects(
            config.hand@,
            player,
            Zone::Hand,
            old(world).next_game_entity_id + 3,
            old(world).next_play_order + 2,
        ),
        final(world).objects@.subrange(
            old(world).objects@.len() + 3int + config.hand@.len(),
            old(world).objects@.len() + 3int + config.hand@.len() + config.deck@.len(),
        ) == dealt_objects(
            config.deck@,
            player,
            Zone::Deck,
            old(world).next_game_entity_id + 3 + config.hand@.len(),
            old(world).next_play_order + 2 + config.hand@.len(),
        ),
{
    let ghost w0 = *world;
    let player_id = GameEntityId(world.next_game_entity_id);
    let o = make_player_object(player_id, player, &config.name, maximum_resources);
    add_object(world, o);
    let hero_id = GameEntityId(world.next_game_entity_id);
    let hero = make_hero_object(hero_id, player, config, world.next_play_order);
    add_listed(world, hero, player, Zone::Play);
    world.next_play_order = world.next_play_order + 1;
    let power_id = GameEntityId(world.next_game_entity_id);
    let power = make_hero_power_object(power_id, player, world.next_play_order);
    add_listed(world, power, player, Zone::Play);
    world.next_play_order = world.next_play_order + 1;
    let ghost w1 = *world;
    add_cards(world, &config.hand, player, Zone::Hand);
    let ghost w2 = *world;
    add_cards(world, &config.deck, player, Zone::Deck);
    proof {
        let n = w0.objects@.len() as int;
        assert(w1.objects@.len() == n + 3);
        assert(world.objects@.subrange(0, n + 3) =~= w1.objects@) by {
            assert(world.objects@.subrange(0, w2.objects@.len() as int) == w2.objects@);
            assert(w2.objects@.subrange(0, w1.objects@.len() as int) == w1.objects@);
        }
        assert(world.objects@[n] == w1.objects@[n]);
        assert(world.objects@[n + 1] == w1.objects@[n + 1]);
        assert(world.objects@[n + 2] == w1.objects@[n + 2]);
        assert(world.objects@.subrange(0, n) =~= w0.objects@);
        assert(world.zones.list(player, Zone::Play) == w2.zones.list(player, Zone::Play));
        assert(w2.zones.list(player, Zone::Play) == w1.zones.list(player, Zone::Play));
        let nh = config.hand@.len() as int;
        let nd = config.deck@.len() as int;
        assert(world.zones.list(player, Zone::Hand) == w2.zones.list(player, Zone::Hand));
        assert(w1.zones.list(player, Zone::Hand) == w0.zones.list(player, Zone::Hand));
        assert(w2.zones.list(player, Zone::Deck) == w1.zones.list(player, Zone::Deck));
        assert(w1.zones.list(player, Zone::Deck) == w0.zones.list(player, Zone::Deck));
        assert(world.objects@.subrange(n + 3, n + 3 + nh) =~= w2.objects@.subrange(n + 3, n + 3 + nh));
        assert(w2.objects@.subrange(n + 3, n + 3 + nh) =~= dealt_objects(
            config.hand@,
            player,
            Zone::Hand,
            w0.next_game_entity_id + 3,
            w0.next_play_order + 2,
        ));
        assert(world.objects@.subrange(n + 3 + nh, n + 3 + nh + nd) =~= dealt_objects(
            config.deck@,
            player,
            Zone::Deck,
            w0.next_game_entity_id + 3 + nh,
            w0.next_play_order + 2 + nh,
        ));
        assert forall|j: int| n + 1 <= j < world.objects@.len() implies (#[trigger] world.objects@[j]).player is None by {
            if j >= n + 3 + nh {
                assert(world.objects@[j] == world.objects@.subrange(n + 3 + nh, n + 3 + nh + nd)[j - (n + 3 + nh)]);
            } else if j >= n + 3 {
                assert(world.objects@[j] == world.objects@.subrange(n + 3, n + 3 + nh)[j - (n + 3)]);
            }
        }
    }
}

/// Objects dealt with fresh identities into a list that held nothing else hold their cards.
proof fn lemma_holds_dealt(w: World, player: PlayerId, zone: Zone, cards: Seq<Card>, base: int, first: int, order: int)
    requires
        unique_ids(w.objects@),
        w.zones.list(player, zone) == dealt_ids(cards.len() as int, first),
        0 <= base,
        base + cards.len() <= w.objects@.len(),
        w.objects@.subrange(base, base + cards.len()) == dealt_objects(cards, player, zone, first, order),
        0 <= first,
        first + cards.len() <= u64::MAX,
    ensures
        holds_cards(w, player, zone, cards),
{
    let ids = w.zones.list(player, zone);
    assert forall|k: int| 0 <= k < ids.len() implies (crate::world::lookup(w.objects@, #[trigger] ids[k]) matches Some(i)
        && w.objects@[i] == card_object(ids[k], cards[k], player, zone, w.objects@[i].play_order->0)) by {
        assert(w.objects@[base + k] == w.objects@.subrange(base, base + cards.len())[k]);
        assert(w.objects@[base + k].id == ids[k]);
        crate::aura::lemma_lookup_unique(w.objects@, base + k);
    }
}

proof fn lemma_players_found(objects: Seq<GameObject>, player: PlayerId, n: int, j: int)
    requires
        0 <= j < n <= objects.len(),
        objects[j].player matches Some(d) && d.id == player,
    ensures
        crate::player::player_positions(objects, player, n).len() > 0,
    decreases n,
{
    if j < n - 1 {
        lemma_players_found(objects, player, n - 1, j);
    }
}

/// A player whose Player object, hero and hero power are present, with only the hero and the
/// hero power in play, has a player view.
proof fn lemma_ready(w: World, player: PlayerId, pi: int, hi: int, qi: int)
    requires
        unique_ids(w.objects@),
        0 <= pi < w.objects@.len(),
        0 <= hi < w.objects@.len(),
        0 <= qi < w.objects@.len(),
        w.objects@[pi].player matches Some(d) && d.id == player,
        w.objects@[hi].kind == Some(EntityKind::Hero),
        w.objects@[hi].current_stats is Some,
        w.objects@[hi].damage is Some,
        w.objects@[qi].kind == Some(EntityKind::HeroPower),
        w.zones.list(player, Zone::Play) == seq![w.objects@[hi].id, w.objects@[qi].id],
    ensures
        crate::player::player_view(w, player) is Some,
{
    let objects = w.objects@;
    lemma_players_found(objects, player, objects.len() as int, pi);
    let h = objects[hi].id;
    let q = objects[qi].id;
    assert(crate::world::first_with_id(objects, h, hi)) by {
        assert forall|j: int| 0 <= j < hi implies (#[trigger] objects[j]).id != h by {
            assert(objects[j].id != objects[hi].id);
        }
    }
    assert(crate::world::first_with_id(objects, q, qi)) by {
        assert forall|j: int| 0 <= j < qi implies (#[trigger] objects[j]).id != q by {
            assert(objects[j].id != objects[qi].id);
        }
    }
    crate::world::lemma_lookup_first(objects, h, hi);
    crate::world::lemma_lookup_first(objects, q, qi);
    let ids = w.zones.list(player, Zone::Play);
    assert(crate::world::kind_of(objects, h) == Some(EntityKind::Hero));
    assert(crate::world::kind_of(objects, q) == Some(EntityKind::HeroPower));
    assert(ids.drop_last() =~= seq![h]);
    assert(ids.last() == q);
    assert(seq![h].drop_last() =~= Seq::<GameEntityId>::empty());
    assert(seq![h].last() == h);
    assert(crate::player::of_kind(objects, Seq::<GameEntityId>::empty(), EntityKind::Hero) =~= Seq::<GameEntityId>::empty());
    assert(crate::player::of_kind(objects, seq![h], EntityKind::Hero) =~= seq![h]);
    assert(crate::player::of_kind(objects, ids, EntityKind::Hero) =~= seq![h]);
}

proof fn lemma_no_player_below(objects: Seq<GameObject>, player: PlayerId, n: int)
    requires
        n <= objects.len(),
        forall|j: int| 0 <= j < n ==> !((#[trigger] objects[j]).player matches Some(d) && d.id == player),
    ensures
        crate::player::player_positions(objects, player, n).len() == 0,
    decreases n,
{
    if n > 0 {
        lemma_no_player_below(objects, player, n - 1);
    }
}

proof fn lemma_first_player(objects: Seq<GameObject>, player: PlayerId, pi: int, n: int)
    requires
        0 <= pi < n <= objects.len(),
        objects[pi].player matches Some(d) && d.id == player,
        forall|j: int| 0 <= j < pi ==> !((#[trigger] objects[j]).player matches Some(d) && d.id == player),
    ensures
        crate::player::player_positions(objects, player, n).len() > 0,
        crate::player::player_positions(objects, player, n)[0] == pi,
    decreases n,
{
    if n == pi + 1 {
        lemma_no_player_below(objects, player, pi);
    } else {
        lemma_first_player(objects, player, pi, n - 1);
    }
}

/// With its Player object first among those of `player`, a ready player's view is that record
/// with its hero's stats and damage.
proof fn lemma_view_exact(w: World, player: PlayerId, pi: int, hi: int, qi: int)
    requires
        unique_ids(w.objects@),
        0 <= pi < w.objects@.len(),
        0 <= hi < w.objects@.len(),
        0 <= qi < w.objects@.len(),
        w.objects@[pi].player matches Some(d) && d.id == player,
        forall|j: int| 0 <= j < pi ==> !((#[trigger] w.objects@[j]).player matches Some(d) && d.id == player),
        w.objects@[hi].kind == Some(EntityKind::Hero),
        w.objects@[hi].current_stats is Some,
        w.objects@[hi].damage is Some,
        w.objects@[qi].kind == Some(EntityKind::HeroPower),
        w.zones.list(player, Zone::Play) == seq![w.objects@[hi].id, w.objects@[qi].id],
    ensures
        crate::player::player_view(w, player) == Some(
            (pi, w.objects@[pi].player->0, w.objects@[hi].current_stats->0, w.objects@[hi].damage->0),
        ),
        crate::zone::board_of(w, player).len() == 0,
{
    lemma_ready(w, player, pi, hi, qi);
    lemma_first_player(w.objects@, player, pi, w.objects@.len() as int);
    let objects = w.objects@;
    let h = objects[hi].id;
    let q = objects[qi].id;
    crate::aura::lemma_lookup_unique(objects, hi);
    crate::aura::lemma_lookup_unique(objects, qi);
    let ids = w.zones.list(player, Zone::Play);
    assert(crate::world::kind_of(objects, h) == Some(EntityKind::Hero));
    assert(crate::world::kind_of(objects, q) == Some(EntityKind::HeroPower));
    assert(ids.drop_last() =~= seq![h]);
    assert(ids.last() == q);
    assert(seq![h].drop_last() =~= Seq::<GameEntityId>::empty());
    assert(seq![h].last() == h);
    assert(crate::player::of_kind(objects, Seq::<GameEntityId>::empty(), EntityKind::Hero) =~= Seq::<GameEntityId>::empty());
    assert(crate::player::of_kind(objects, seq![h], EntityKind::Hero) =~= seq![h]);
    assert(crate::player::of_kind(objects, ids, EntityKind::Hero) =~= seq![h]);
    assert(crate::zone::minions_in(objects, Seq::<GameEntityId>::empty()) =~= Seq::<GameEntityId>::empty());
    assert(crate::zone::minions_in(objects, seq![h]).len() == 0);
    assert(crate::zone::minions_in(objects, ids).len() == 0);
}

/// The world a game starts from: both players with their heroes, hero powers, hands and decks;
/// the first player's first turn, with one mana crystal.
pub fn new_world(first: &PlayerConfig, second: &PlayerConfig) -> (r: World)
    requires
        first.hand@.len() + first.deck@.len() + second.hand@.len() + second.deck@.len() + 8 < u64::MAX,
    ensures
        world_wf(r),
        r.game == (GameState {
            status: SimulationStatus::AwaitingAction,
            active_player: PlayerId::One,
            turn_number: 1,
            outcome: None,
        }),
        r.ruleset == standard_ruleset(),
        !r.resolution.retains_work(),
        !r.resolution.sequence_active,
        r.resolution.counters_exceed_keys(),
        crate::player::player_view(r, PlayerId::One) is Some,
        crate::player::player_view(r, PlayerId::Two) is Some,
        r.zones.list(PlayerId::One, Zone::Hand).len() == first.hand@.len(),
        r.zones.list(PlayerId::One, Zone::Deck).len() == first.deck@.len(),
        r.zones.list(PlayerId::Two, Zone::Hand).len() == second.hand@.len(),
        r.zones.list(PlayerId::Two, Zone::Deck).len() == second.deck@.len(),
        holds_cards(r, PlayerId::One, Zone::Hand, first.hand@),
        holds_cards(r, PlayerId::One, Zone::Deck, first.deck@),
        holds_cards(r, PlayerId::Two, Zone::Hand, second.hand@),
        holds_cards(r, PlayerId::Two, Zone::Deck, second.deck@),
        crate::player::player_view(r, PlayerId::One) == Some(
            (0int, fresh_player(PlayerId::One, 1), CurrentStats { attack: 0, maximum_health: STARTING_HEALTH }, 0i32),
        ),
        crate::player::player_view(r, PlayerId::Two) == Some(
            (
                3int + first.hand@.len() + first.deck@.len(),
                fresh_player(PlayerId::Two, 0),
                CurrentStats { attack: 0, maximum_health: STARTING_HEALTH },
                0i32,
            ),
        ),
        r.objects@[0].display_name == Some(first.name),
        r.objects@[3int + first.hand@.len() + first.deck@.len()].display_name == Some(second.name),
        crate::zone::board_of(r, PlayerId::One).len() == 0,
        crate::zone::board_of(r, PlayerId::Two).len() == 0,
        r.resolution.stack@.len() == 0,
        r.resolution.pending_choice is None,
        r.resolution.remaining_budget == 0,
        r.resolution.next_resolution_id == 0,
        r.resolution.next_event_id == 0,
        r.resolution.next_event_slot_id == 0,
        r.resolution.next_draw_result_slot_id == 0,
        r.next_game_entity_id == 7 + first.hand@.len() + first.deck@.len() + second.hand@.len() + second.deck@.len(),
{
    let mut world = World {
        objects: Vec::new(),
        zones: ZoneIndex::new(),
        game: GameState {
            status: SimulationStatus::AwaitingAction,
            active_player: PlayerId::One,
            turn_number: 1,
            outcome: None,
        },
        ruleset: Ruleset {
            id: 1,
            rulebook_revision: RULEBOOK_REVISION,
            resolution_budget: 10000,
            maximum_mana: 10,
            hand_limit: 10,
            board_limit: 7,
        },
        turn_schedule: TurnSchedule { extra_turns: Vec::new() },
        dominant_player: PlayerId::One,
        next_game_entity_id: 1,
        next_play_order: 1,
        rng: DeterministicRng::new(0),
        trace: Vec::new(),
        deaths: Vec::new(),
        pending_deaths: Vec::new(),
        defeated_heroes: Vec::new(),
        resolution: ResolutionWork::new(),
    };
    let ghost w0 = world;
    add_player(&mut world, first, PlayerId::One, 1);
    let ghost w1 = world;
    add_player(&mut world, second, PlayerId::Two, 0);
    world.trace.push(TraceEntry::TurnChanged { active_player: PlayerId::One, turn: 1, kind: ScheduledTurnKind::Natural });
    proof {
        let n1 = w1.objects@.len() as int;
        assert(w0.objects@.len() == 0);
        assert(w0.zones.list(PlayerId::One, Zone::Play).len() == 0);
        assert(w0.zones.list(PlayerId::Two, Zone::Play).len() == 0);
        assert(world.objects@[0] == w1.objects@[0]);
        assert(world.objects@[1] == w1.objects@[1]);
        assert(world.objects@[2] == w1.objects@[2]);
        assert(world.zones.list(PlayerId::One, Zone::Play) == w1.zones.list(PlayerId::One, Zone::Play));
        assert(w1.zones.list(PlayerId::One, Zone::Play) =~= seq![w1.objects@[1].id, w1.objects@[2].id]);
        lemma_view_exact(world, PlayerId::One, 0, 1, 2);
        assert(world.zones.list(PlayerId::Two, Zone::Play) =~= seq![world.objects@[n1 + 1].id, world.objects@[n1 + 2].id]);
        assert forall|j: int| 0 <= j < n1 implies !((#[trigger] world.objects@[j]).player matches Some(d) && d.id
            == PlayerId::Two) by {
            assert(world.objects@[j] == w1.objects@[j]);
        }
        lemma_view_exact(world, PlayerId::Two, n1, n1 + 1, n1 + 2);
        assert(world.zones.list(PlayerId::One, Zone::Hand) == w1.zones.list(PlayerId::One, Zone::Hand));
        assert(world.zones.list(PlayerId::One, Zone::Deck) == w1.zones.list(PlayerId::One, Zone::Deck));
        assert(w0.zones.list(PlayerId::One, Zone::Hand).len() == 0);
        assert(w0.zones.list(PlayerId::One, Zone::Deck).len() == 0);
        assert(w0.zones.list(PlayerId::Two, Zone::Hand).len() == 0);
        assert(w0.zones.list(PlayerId::Two, Zone::Deck).len() == 0);
        assert(w1.zones.list(PlayerId::Two, Zone::Hand) == w0.zones.list(PlayerId::Two, Zone::Hand));
        assert(w1.zones.list(PlayerId::Two, Zone::Deck) == w0.zones.list(PlayerId::Two, Zone::Deck));
        let h1 = first.hand@.len() as int;
        let d1 = first.deck@.len() as int;
        let h2 = second.hand@.len() as int;
        let d2 = second.deck@.len() as int;
        assert(w0.zones.list(PlayerId::One, Zone::Hand) + dealt_ids(h1, 4) =~= dealt_ids(h1, 4));
        assert(w0.zones.list(PlayerId::One, Zone::Deck) + dealt_ids(d1, 4 + h1) =~= dealt_ids(d1, 4 + h1));
        assert(w0.zones.list(PlayerId::Two, Zone::Hand) + dealt_ids(h2, 7 + h1 + d1) =~= dealt_ids(h2, 7 + h1 + d1));
        assert(w0.zones.list(PlayerId::Two, Zone::Deck) + dealt_ids(d2, 7 + h1 + d1 + h2) =~= dealt_ids(
            d2,
            7 + h1 + d1 + h2,
        ));
        assert(world.objects@.subrange(3, 3 + h1) =~= w1.objects@.subrange(3, 3 + h1));
        assert(world.objects@.subrange(3 + h1, 3 + h1 + d1) =~= w1.objects@.subrange(3 + h1, 3 + h1 + d1));
        lemma_holds_dealt(world, PlayerId::One, Zone::Hand, first.hand@, 3, 4, 3);
        lemma_holds_dealt(world, PlayerId::One, Zone::Deck, first.deck@, 3 + h1, 4 + h1, 3 + h1);
        lemma_holds_dealt(world, PlayerId::Two, Zone::Hand, second.hand@, n1 + 3, 7 + h1 + d1, 5 + h1 + d1);
        lemma_holds_dealt(world, PlayerId::Two, Zone::Deck, second.deck@, n1 + 3 + h2, 7 + h1 + d1 + h2, 5 + h1 + d1 + h2);
    }
    world
}

} // verus!
