//! The game world: game objects with their components, the zone index and the game resources.
use vstd::prelude::*;

use crate::operations::ScheduledTurnKind;
use crate::resolver::ResolutionWork;
use crate::rng::DeterministicRng;
use crate::trace::TraceEntry;
use crate::trigger::Effect;
use crate::types::{
    EntityKind, GameEntityId, GameOutcome, Keyword, KeywordSet, PlayerId, SimulationStatus, Zone,
};

verus! {

/// Starting health of every hero.
pub const STARTING_HEALTH: i32 = 30;

/// Printed attack and health of a character.
#[derive(Clone, Copy, Debug, PartialEq, Eq, Structural)]
pub struct BaseStats {
    pub attack: i32,
    pub health: i32,
}

/// Attack and maximum health after modifiers and auras.
#[derive(Clone, Copy, Debug, PartialEq, Eq, Structural)]
pub struct CurrentStats {
    pub attack: i32,
    pub maximum_health: i32,
}

/// Attacks made this turn and whether the character may attack again.
#[derive(Clone, Copy, Debug, PartialEq, Eq, Structural)]
pub struct AttackState {
    pub attacks_this_turn: u32,
    pub exhausted: bool,
}

/// Uses of a hero power this turn and whether it may be used again.
#[derive(Clone, Copy, Debug, PartialEq, Eq, Structural)]
pub struct HeroPowerState {
    pub uses_this_turn: u32,
    pub exhausted: bool,
}

/// The class of a hero.
#[derive(Clone, Copy, Debug, PartialEq, Eq, Structural, Default)]
pub enum HeroClass {
    #[default]
    Neutral,
    Mage,
    Hunter,
    Warrior,
    Priest,
}

/// Facts about a hero that are not stats.
#[derive(Clone, Copy, Debug, PartialEq, Eq, Structural)]
pub struct HeroMetadata {
    pub class: HeroClass,
}

/// The resources of one player.
#[derive(Clone, Copy, Debug, PartialEq, Eq, Structural)]
pub struct Player {
    pub id: PlayerId,
    pub maximum_resources: i32,
    pub used_resources: i32,
    pub temporary_resources: i32,
    pub pending_overload: i32,
    pub locked_overload: i32,
    pub resources_spent: i32,
    pub fatigue: u32,
}

/// The mana a player can still spend this turn, as an integer.
pub open spec fn available_of(p: Player) -> int {
    let raw = p.maximum_resources + p.temporary_resources - p.used_resources - p.locked_overload;
    if raw < 0 {
        0
    } else if raw > i32::MAX {
        i32::MAX as int
    } else {
        raw
    }
}

impl Player {
    /// The mana the player can still spend this turn: maximum plus temporary mana, minus
    /// spent and locked mana, never below zero.
    pub fn available_resources(&self) -> (r: i32)
        ensures
            r == available_of(*self),
    {
        let raw: i64 = self.maximum_resources as i64 + self.temporary_resources as i64
            - self.used_resources as i64 - self.locked_overload as i64;
        if raw < 0 {
            0
        } else if raw > i32::MAX as i64 {
            i32::MAX
        } else {
            raw as i32
        }
    }
}

/// Who a card may target.
#[derive(Clone, Copy, Debug, PartialEq, Eq, Structural)]
pub enum TargetAudience {
    Friendly,
    Enemy,
    Either,
}

/// What kind of character a card may target.
#[derive(Clone, Copy, Debug, PartialEq, Eq, Structural)]
pub enum TargetKind {
    Minion,
    Hero,
    Character,
}

/// An audience and a kind.
#[derive(Clone, Copy, Debug, PartialEq, Eq, Structural)]
pub struct TargetFilter {
    pub audience: TargetAudience,
    pub kind: TargetKind,
}

/// Whether and how a card takes a target when played.
#[derive(Clone, Copy, Debug, PartialEq, Eq, Structural)]
pub enum TargetRequirement {
    Untargeted,
    Required(TargetFilter),
    Optional(TargetFilter),
    RequiredIfAvailable(TargetFilter),
}

/// The cost and targeting of a card.
#[derive(Clone, Copy, Debug, PartialEq, Eq, Structural)]
pub struct CardRuntime {
    pub base_cost: i32,
    pub cost: i32,
    pub targeting: TargetRequirement,
}

/// Which objects an aura reaches.
#[derive(Clone, Copy, Debug, PartialEq, Eq, Structural)]
pub enum AuraTarget {
    FriendlyMinions,
    OtherFriendlyMinions,
    EnemyMinions,
    AllMinions,
    FriendlyCharacters,
    OtherFriendlyCharacters,
    EnemyCharacters,
    AllCharacters,
    ControllerPlayer,
    OpponentPlayer,
    BothPlayers,
}

/// An aura effect that is neither attack nor health.
#[derive(Clone, Copy, Debug, PartialEq, Eq, Structural)]
pub enum OtherAuraModifier {
    Immune,
    HeroPowerDamage(i32),
}

/// One aura a provider in play hands out.
#[derive(Clone, Copy, Debug, PartialEq, Eq, Structural)]
pub struct AuraDefinition {
    pub targets: AuraTarget,
    pub attack: i32,
    pub health: i32,
    pub other: Option<OtherAuraModifier>,
}

/// The three aura caches.
#[derive(Clone, Copy, Debug, PartialEq, Eq, Structural)]
pub enum AuraCategory {
    Health,
    Attack,
    Other,
}

/// What one aura application does to its target.
#[derive(Clone, Copy, Debug, PartialEq, Eq, Structural)]
pub enum AuraModifier {
    Attack(i32),
    MaximumHealth(i32),
    Immune,
    HeroPowerDamage(i32),
}

/// One aura applied to one target.
#[derive(Clone, Copy, Debug, PartialEq, Eq, Structural)]
pub struct AuraApplication {
    pub provider: GameEntityId,
    pub definition_index: u32,
    pub modifier: AuraModifier,
}

/// Which players a continuous effect reaches.
#[derive(Clone, Copy, Debug, PartialEq, Eq, Structural)]
pub enum PlayerAudience {
    Controller,
    Opponent,
    Both,
}

/// What a continuous effect does.
#[derive(Clone, Copy, Debug, PartialEq, Eq, Structural)]
pub enum ContinuousModifier {
    SpellDamage(i32),
}

/// A continuous effect of a source in play.
#[derive(Clone, Copy, Debug, PartialEq, Eq, Structural)]
pub struct ContinuousEffectDefinition {
    pub recipients: PlayerAudience,
    pub modifier: ContinuousModifier,
}

/// A stat change carried by an enchantment.
#[derive(Clone, Copy, Debug, PartialEq, Eq, Structural)]
pub struct StatModifier {
    pub attack: i32,
    pub health: i32,
    pub silence_removable: bool,
}

/// A keyword grant or removal carried by an enchantment.
#[derive(Clone, Copy, Debug, PartialEq, Eq, Structural)]
pub struct KeywordModifier {
    pub keyword: Keyword,
    pub granted: bool,
    pub silence_removable: bool,
}

/// How a cost modifier changes a cost.
#[derive(Clone, Copy, Debug, PartialEq, Eq, Structural)]
pub enum CostOperation {
    Add,
    Replace,
}

/// A cost change carried by an enchantment.
#[derive(Clone, Copy, Debug, PartialEq, Eq, Structural)]
pub struct CostModifier {
    pub operation: CostOperation,
    pub value: i32,
    pub silence_removable: bool,
}

/// The cost after one modifier; additions saturate at the limits of `i32`.
pub open spec fn cost_after(cost: i32, m: CostModifier) -> i32 {
    match m.operation {
        CostOperation::Add => sat_add(cost, m.value),
        CostOperation::Replace => m.value,
    }
}

impl CostModifier {
    /// The cost after this modifier.
    pub fn apply(&self, cost: i32) -> (r: i32)
        ensures
            r == cost_after(cost, *self),
    {
        match self.operation {
            CostOperation::Add => sat_add_i32(cost, self.value),
            CostOperation::Replace => self.value,
        }
    }
}

/// `a + b`, saturating at the limits of `i32`.
pub open spec fn sat_add(a: i32, b: i32) -> i32 {
    let s = a + b;
    if s > i32::MAX {
        i32::MAX
    } else if s < i32::MIN {
        i32::MIN
    } else {
        s as i32
    }
}

/// `a + b`, saturating at the limits of `i32`.
pub fn sat_add_i32(a: i32, b: i32) -> (r: i32)
    ensures
        r == sat_add(a, b),
{
    let s: i64 = a as i64 + b as i64;
    if s > i32::MAX as i64 {
        i32::MAX
    } else if s < i32::MIN as i64 {
        i32::MIN
    } else {
        s as i32
    }
}

/// `a - b`, saturating at the limits of `i32`.
pub fn sat_sub_i32(a: i32, b: i32) -> (r: i32)
    ensures
        r == sat_sub(a, b),
{
    let s: i64 = a as i64 - b as i64;
    if s > i32::MAX as i64 {
        i32::MAX
    } else if s < i32::MIN as i64 {
        i32::MIN
    } else {
        s as i32
    }
}

/// `a - b`, saturating at the limits of `i32`.
pub open spec fn sat_sub(a: i32, b: i32) -> i32 {
    let s = a - b;
    if s > i32::MAX {
        i32::MAX
    } else if s < i32::MIN {
        i32::MIN
    } else {
        s as i32
    }
}

/// How long an enchantment lasts.
#[derive(Clone, Copy, Debug, PartialEq, Eq, Structural)]
pub enum EnchantmentDuration {
    Permanent,
    /// Until the end of the given player's turn.
    EndOfTurn(PlayerId),
    /// Until the given player's last consecutive turn ends.
    EndOfTurnSeries(PlayerId),
}

/// The record of a death.
#[derive(Clone, Copy, Debug, PartialEq, Eq, Structural)]
pub struct DeathRecord {
    pub entity: GameEntityId,
    pub controller: PlayerId,
    pub kind: EntityKind,
    pub play_order: u64,
    pub remembered_zone_position: u64,
    pub simultaneous_ordinal: u32,
    pub turn_of_death: u32,
}

/// One game object with all of its components; absent components are `None` or `false`.
#[derive(Debug, PartialEq, Eq)]
pub struct GameObject {
    pub id: GameEntityId,
    pub definition_id: Option<String>,
    pub kind: Option<EntityKind>,
    pub controller: Option<PlayerId>,
    pub display_name: Option<String>,
    pub play_order: Option<u64>,
    pub base_stats: Option<BaseStats>,
    pub base_keywords: Option<KeywordSet>,
    pub current_stats: Option<CurrentStats>,
    pub damage: Option<i32>,
    pub armor: Option<i32>,
    pub pending_destroy: bool,
    pub keywords: Option<KeywordSet>,
    pub attack_state: Option<AttackState>,
    pub hero_metadata: Option<HeroMetadata>,
    pub hero_power_state: Option<HeroPowerState>,
    pub player: Option<Player>,
    pub card_runtime: Option<CardRuntime>,
    /// The effect program a card runs when it is played, kept beside its runtime (which stays a
    /// plain copyable value); `None` is an empty program.
    pub card_program: Option<Vec<Effect>>,
    pub runtime_auras: Option<Vec<AuraDefinition>>,
    pub runtime_continuous_effects: Option<Vec<ContinuousEffectDefinition>>,
    pub silenced: bool,
    pub stat_modifier: Option<StatModifier>,
    pub keyword_modifier: Option<KeywordModifier>,
    pub cost_modifier: Option<CostModifier>,
    pub enchantment_duration: Option<EnchantmentDuration>,
    pub health_aura_cache: Option<Vec<AuraApplication>>,
    pub attack_aura_cache: Option<Vec<AuraApplication>>,
    pub other_aura_cache: Option<Vec<AuraApplication>>,
    /// The object this enchantment is attached to.
    pub attached_to: Option<GameEntityId>,
    /// The enchantments recorded as attached to this object.
    pub enchantments: Option<Vec<GameEntityId>>,
    /// This object keeps its enchantments when it changes form.
    pub keep_enchantments: bool,
    /// This enchantment is removed by silence.
    pub silence_removable: bool,
    pub death_record: Option<DeathRecord>,
    pub zone: Option<Zone>,
}

/// The effect program of an object: its card program, or none.
pub open spec fn program_of(o: GameObject) -> Seq<Effect> {
    match o.card_program {
        Some(p) => p@,
        None => Seq::empty(),
    }
}

/// The settings of a game.
#[derive(Clone, Copy, Debug, PartialEq, Eq, Structural)]
pub struct Ruleset {
    pub id: u64,
    pub rulebook_revision: u32,
    pub resolution_budget: u32,
    pub maximum_mana: i32,
    pub hand_limit: u32,
    pub board_limit: u32,
}

/// The current revision of the rules this engine implements.
pub const RULEBOOK_REVISION: u32 = 1;

/// Where the game stands.
#[derive(Clone, Copy, Debug, PartialEq, Eq, Structural)]
pub struct GameState {
    pub status: SimulationStatus,
    pub active_player: PlayerId,
    pub turn_number: u32,
    pub outcome: Option<GameOutcome>,
}

/// The next turn, as the schedule decides it.
#[derive(Clone, Copy, Debug, PartialEq, Eq, Structural)]
pub struct ScheduledTurn {
    pub player: PlayerId,
    pub kind: ScheduledTurnKind,
}

/// The turns to come: extra turns first, in the order they were granted.
#[derive(Debug, PartialEq, Eq)]
pub struct TurnSchedule {
    pub extra_turns: Vec<PlayerId>,
}

impl TurnSchedule {
    /// Takes the next turn after `ending_player`'s turn: the oldest extra turn if one is queued,
    /// else the opponent's natural turn.
    pub fn next_turn(&mut self, ending_player: PlayerId) -> (r: ScheduledTurn)
        ensures
            old(self).extra_turns@.len() == 0 ==> r == (ScheduledTurn {
                player: ending_player.spec_opponent(),
                kind: ScheduledTurnKind::Natural,
            }) && final(self).extra_turns@ == old(self).extra_turns@,
            old(self).extra_turns@.len() > 0 ==> r == (ScheduledTurn {
                player: old(self).extra_turns@[0],
                kind: ScheduledTurnKind::Extra,
            }) && final(self).extra_turns@ == old(self).extra_turns@.drop_first(),
    {
        if self.extra_turns.len() == 0 {
            ScheduledTurn { player: ending_player.opponent(), kind: ScheduledTurnKind::Natural }
        } else {
            let player = self.extra_turns.remove(0);
            ScheduledTurn { player, kind: ScheduledTurnKind::Extra }
        }
    }
}

/// Per-zone ordered lists of one player's objects.
#[derive(Debug, PartialEq, Eq)]
pub struct PlayerZones {
    pub deck: Vec<GameEntityId>,
    pub hand: Vec<GameEntityId>,
    pub play: Vec<GameEntityId>,
    pub graveyard: Vec<GameEntityId>,
    pub removed: Vec<GameEntityId>,
}

impl PlayerZones {
    /// The ordered list of one zone.
    pub open spec fn list(&self, zone: Zone) -> Seq<GameEntityId> {
        match zone {
            Zone::Deck => self.deck@,
            Zone::Hand => self.hand@,
            Zone::Play => self.play@,
            Zone::Graveyard => self.graveyard@,
            Zone::RemovedFromGame => self.removed@,
        }
    }

    /// Empty zones.
    pub fn new() -> (r: PlayerZones)
        ensures
            forall|z: Zone| r.list(z).len() == 0,
    {
        PlayerZones {
            deck: Vec::new(),
            hand: Vec::new(),
            play: Vec::new(),
            graveyard: Vec::new(),
            removed: Vec::new(),
        }
    }
}

/// The ordered contents of every zone of both players.
#[derive(Debug, PartialEq, Eq)]
pub struct ZoneIndex {
    pub one: PlayerZones,
    pub two: PlayerZones,
}

impl ZoneIndex {
    /// The ordered list of one player's zone.
    pub open spec fn list(&self, player: PlayerId, zone: Zone) -> Seq<GameEntityId> {
        match player {
            PlayerId::One => self.one.list(zone),
            PlayerId::Two => self.two.list(zone),
        }
    }

    /// Empty zones for both players.
    pub fn new() -> (r: ZoneIndex)
        ensures
            forall|p: PlayerId, z: Zone| r.list(p, z).len() == 0,
    {
        ZoneIndex { one: PlayerZones::new(), two: PlayerZones::new() }
    }

    /// The ordered list of one player's zone.
    pub fn entities(&self, player: PlayerId, zone: Zone) -> (r: &Vec<GameEntityId>)
        ensures
            r@ == self.list(player, zone),
    {
        let zones = match player {
            PlayerId::One => &self.one,
            PlayerId::Two => &self.two,
        };
        match zone {
            Zone::Deck => &zones.deck,
            Zone::Hand => &zones.hand,
            Zone::Play => &zones.play,
            Zone::Graveyard => &zones.graveyard,
            Zone::RemovedFromGame => &zones.removed,
        }
    }

    /// Replaces one list, keeping all others.
    pub fn set_list(&mut self, player: PlayerId, zone: Zone, ids: Vec<GameEntityId>)
        ensures
            final(self).list(player, zone) == ids@,
            forall|p: PlayerId, z: Zone|
                !(p == player && z == zone) ==> #[trigger] final(self).list(p, z) == old(self).list(p, z),
    {
        let zones = match player {
            PlayerId::One => &mut self.one,
            PlayerId::Two => &mut self.two,
        };
        match zone {
            Zone::Deck => zones.deck = ids,
            Zone::Hand => zones.hand = ids,
            Zone::Play => zones.play = ids,
            Zone::Graveyard => zones.graveyard = ids,
            Zone::RemovedFromGame => zones.removed = ids,
        }
    }
}

/// The whole state of a game.
#[derive(Debug, PartialEq, Eq)]
pub struct World {
    pub objects: Vec<GameObject>,
    pub zones: ZoneIndex,
    pub game: GameState,
    pub ruleset: Ruleset,
    pub turn_schedule: TurnSchedule,
    pub dominant_player: PlayerId,
    pub next_game_entity_id: u64,
    pub next_play_order: u64,
    pub rng: DeterministicRng,
    pub trace: Vec<TraceEntry>,
    /// Deaths of the game so far.
    pub deaths: Vec<DeathRecord>,
    /// Deaths created but not yet turned into death events.
    pub pending_deaths: Vec<DeathRecord>,
    /// Players whose hero has been defeated.
    pub defeated_heroes: Vec<PlayerId>,
    pub resolution: ResolutionWork,
}

/// Whether `i` is the first position of `objects` whose object has identity `id`.
pub open spec fn first_with_id(objects: Seq<GameObject>, id: GameEntityId, i: int) -> bool {
    &&& 0 <= i < objects.len()
    &&& objects[i].id == id
    &&& forall|j: int| 0 <= j < i ==> (#[trigger] objects[j]).id != id
}

/// Whether some object has identity `id`.
pub open spec fn has_id(objects: Seq<GameObject>, id: GameEntityId) -> bool {
    exists|i: int| 0 <= i < objects.len() && (#[trigger] objects[i]).id == id
}

/// The position of the object with identity `id`: the first one, if several share it.
pub open spec fn lookup(objects: Seq<GameObject>, id: GameEntityId) -> Option<int> {
    if has_id(objects, id) {
        Some(choose|i: int| first_with_id(objects, id, i))
    } else {
        None
    }
}

/// The first position with an identity is the one `lookup` gives.
pub proof fn lemma_lookup_first(objects: Seq<GameObject>, id: GameEntityId, i: int)
    requires
        first_with_id(objects, id, i),
    ensures
        lookup(objects, id) == Some(i),
{
    assert(has_id(objects, id));
    let j = choose|j: int| first_with_id(objects, id, j);
    assert(first_with_id(objects, id, j));
    if j < i {
        assert(objects[j].id != id);
    } else if i < j {
        assert(objects[i].id != id);
    }
}

/// When some object has identity `id`, a first such object exists and `lookup` finds it.
pub proof fn lemma_lookup_some(objects: Seq<GameObject>, id: GameEntityId)
    ensures
        lookup(objects, id) matches Some(i) ==> first_with_id(objects, id, i),
    decreases objects.len(),
{
    if has_id(objects, id) {
        if objects.len() > 0 && objects[0].id == id {
            assert(first_with_id(objects, id, 0));
        } else {
            let rest = objects.drop_first();
            let k = choose|k: int| 0 <= k < objects.len() && (#[trigger] objects[k]).id == id;
            assert(rest[k - 1].id == id);
            assert(has_id(rest, id));
            lemma_lookup_some(rest, id);
            let j = lookup(rest, id).unwrap();
            assert(first_with_id(rest, id, j));
            assert forall|m: int| 0 <= m < j + 1 implies (#[trigger] objects[m]).id != id by {
                if m > 0 {
                    assert(objects[m] == rest[m - 1]);
                }
            }
            assert(first_with_id(objects, id, j + 1));
        }
    }
}

/// The kind of the object with identity `id`, if it exists and has one.
pub open spec fn kind_of(objects: Seq<GameObject>, id: GameEntityId) -> Option<EntityKind> {
    match lookup(objects, id) {
        Some(i) => objects[i].kind,
        None => None,
    }
}

/// Finds the object with identity `id`.
pub fn game_entity(objects: &Vec<GameObject>, id: GameEntityId) -> (r: Option<usize>)
    ensures
        r matches Some(i) ==> first_with_id(objects@, id, i as int) && lookup(objects@, id) == Some(
            i as int,
        ),
        r is None <==> !has_id(objects@, id),
        r is None <==> lookup(objects@, id) is None,
{
    let mut i: usize = 0;
    while i < objects.len()
        invariant
            i <= objects.len(),
            forall|j: int| 0 <= j < i ==> (#[trigger] objects@[j]).id != id,
        decreases objects.len() - i,
    {
        if objects[i].id == id {
            proof {
                lemma_lookup_first(objects@, id, i as int);
            }
            return Some(i);
        }
        i = i + 1;
    }
    None
}


/// The well-formedness of a world: no two objects share an identity, and every aura
/// definition list can be numbered with a `u32`.
pub open spec fn world_wf(w: World) -> bool {
    &&& crate::aura::unique_ids(w.objects@)
    &&& crate::aura_refresh::auras_indexable(w.objects@)
}

/// Changing an object while keeping its identity and aura definitions keeps objects
/// well-formed.
pub proof fn lemma_wf_update(objects: Seq<GameObject>, i: int, o: GameObject)
    requires
        crate::aura::unique_ids(objects),
        crate::aura_refresh::auras_indexable(objects),
        0 <= i < objects.len(),
        o.id == objects[i].id,
        o.runtime_auras == objects[i].runtime_auras,
    ensures
        crate::aura::unique_ids(objects.update(i, o)),
        crate::aura_refresh::auras_indexable(objects.update(i, o)),
{
    let u = objects.update(i, o);
    assert forall|a: int, b: int| 0 <= a < u.len() && 0 <= b < u.len() && a != b implies (#[trigger] u[a]).id
        != (#[trigger] u[b]).id by {
        assert(u[a].id == objects[a].id);
        assert(u[b].id == objects[b].id);
    }
    assert forall|j: int| 0 <= j < u.len() implies match (#[trigger] u[j]).runtime_auras {
        Some(defs) => defs@.len() <= u32::MAX + 1,
        None => true,
    } by {
        assert(u[j].runtime_auras == objects[j].runtime_auras);
    }
}

/// Objects that agree position by position on identities and aura definitions keep
/// well-formedness.
pub proof fn lemma_wf_frame(a: Seq<GameObject>, b: Seq<GameObject>)
    requires
        crate::aura::unique_ids(a),
        crate::aura_refresh::auras_indexable(a),
        a.len() == b.len(),
        forall|j: int| 0 <= j < a.len() ==> (#[trigger] b[j]).id == a[j].id && b[j].runtime_auras == a[j].runtime_auras,
    ensures
        crate::aura::unique_ids(b),
        crate::aura_refresh::auras_indexable(b),
{
    assert forall|x: int, y: int| 0 <= x < b.len() && 0 <= y < b.len() && x != y implies (#[trigger] b[x]).id
        != (#[trigger] b[y]).id by {
        assert(a[x].id == b[x].id);
        assert(a[y].id == b[y].id);
    }
    assert forall|j: int| 0 <= j < b.len() implies match (#[trigger] b[j]).runtime_auras {
        Some(defs) => defs@.len() <= u32::MAX + 1,
        None => true,
    } by {
        assert(b[j].runtime_auras == a[j].runtime_auras);
    }
}

} // verus!
