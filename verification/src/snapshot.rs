//! Snapshots: what an observer sees of a game.
use vstd::prelude::*;

use crate::operations::copy_ids;
use crate::player::{hero_id, hero_of, of_kind, player, player_view};
use crate::rng::{RngSnapshot, RNG_ALGORITHM_VERSION};
use crate::sorting::{insert_keyed, sort_keyed, Keyed};
use crate::types::{EntityKind, GameEntityId, PlayerId, Zone};
use crate::world::{
    available_of, game_entity, lookup, sat_sub, sat_sub_i32, DeathRecord, GameObject, GameState, HeroClass, World,
};
use crate::zone::{board_entities, board_of, first_index};

verus! {

/// What an observer sees of one player.
#[derive(Debug, PartialEq, Eq)]
pub struct PlayerSnapshot {
    pub entity: GameEntityId,
    pub id: PlayerId,
    pub name: String,
    pub hero: GameEntityId,
    pub hero_power: Option<GameEntityId>,
    pub hero_class: HeroClass,
    pub health: i32,
    pub armor: i32,
    pub available_resources: i32,
    pub maximum_resources: i32,
    pub used_resources: i32,
    pub temporary_resources: i32,
    pub pending_overload: i32,
    pub locked_overload: i32,
    pub resources_spent: i32,
    pub fatigue: u32,
    pub hand: Vec<GameEntityId>,
    pub deck: Vec<GameEntityId>,
    pub board: Vec<GameEntityId>,
}

/// What an observer sees of one object.
#[derive(Debug, PartialEq, Eq)]
pub struct GameObjectSnapshot {
    pub id: GameEntityId,
    pub definition_id: String,
    pub name: String,
    pub kind: EntityKind,
    pub controller: PlayerId,
    pub zone: Zone,
    pub zone_position: u64,
    pub play_order: u64,
    pub attack: Option<i32>,
    pub maximum_health: Option<i32>,
    pub damage: i32,
    pub exhausted: Option<bool>,
    pub hero_class: Option<HeroClass>,
    pub hero_power_exhausted: Option<bool>,
}

/// What an observer sees of a game.
#[derive(Debug, PartialEq, Eq)]
pub struct GameSnapshot {
    pub ruleset: u64,
    pub game: GameState,
    pub extra_turns: Vec<PlayerId>,
    pub dominant_player: PlayerId,
    pub players: Vec<PlayerSnapshot>,
    pub objects: Vec<GameObjectSnapshot>,
    pub deaths: Vec<DeathRecord>,
    pub rng: RngSnapshot,
    /// The resolution work retained between operations.
    pub resolution: crate::resolver::ResolutionWork,
}

/// Whether `o` shows up among the snapshot's objects: it has a definition, a name, a kind, a
/// controller, a zone and a play order.
pub open spec fn shown(o: GameObject) -> bool {
    &&& o.definition_id is Some
    &&& o.display_name is Some
    &&& o.kind is Some
    &&& o.controller is Some
    &&& o.zone is Some
    &&& o.play_order is Some
}

/// The position of `id` in `ids`, or zero when it is not listed.
pub open spec fn position_in(ids: Seq<GameEntityId>, id: GameEntityId) -> int {
    if ids.contains(id) {
        choose|k: int| first_index(ids, id, k)
    } else {
        0
    }
}

/// What an observer sees of object `o`.
pub open spec fn object_snapshot(w: World, o: GameObject) -> GameObjectSnapshot {
    GameObjectSnapshot {
        id: o.id,
        definition_id: o.definition_id->0,
        name: o.display_name->0,
        kind: o.kind->0,
        controller: o.controller->0,
        zone: o.zone->0,
        zone_position: position_in(w.zones.list(o.controller->0, o.zone->0), o.id) as u64,
        play_order: o.play_order->0,
        attack: match o.current_stats {
            Some(s) => Some(s.attack),
            None => None,
        },
        maximum_health: match o.current_stats {
            Some(s) => Some(s.maximum_health),
            None => None,
        },
        damage: match o.damage {
            Some(d) => d,
            None => 0,
        },
        exhausted: match o.attack_state {
            Some(s) => Some(s.exhausted),
            None => None,
        },
        hero_class: match o.hero_metadata {
            Some(m) => Some(m.class),
            None => None,
        },
        hero_power_exhausted: match o.hero_power_state {
            Some(s) => Some(s.exhausted),
            None => None,
        },
    }
}

/// The shown objects among the first `n`, keyed by identity.
pub open spec fn shown_keys(objects: Seq<GameObject>, n: int) -> Seq<Keyed<usize>>
    decreases n,
{
    if n <= 0 {
        Seq::empty()
    } else {
        let prev = shown_keys(objects, n - 1);
        if shown(objects[n - 1]) {
            prev.push(Keyed { order: objects[n - 1].id.0, id: objects[n - 1].id.0, value: (n - 1) as usize })
        } else {
            prev
        }
    }
}

/// The shown objects, in order of identity.
pub open spec fn shown_objects(w: World) -> Seq<GameObjectSnapshot> {
    let keys = sort_keyed(shown_keys(w.objects@, w.objects@.len() as int));
    Seq::new(keys.len(), |k: int| object_snapshot(w, w.objects@[keys[k].value as int]))
}

proof fn lemma_shown_keys_bounded(objects: Seq<GameObject>, n: int)
    requires
        n <= objects.len(),
        n <= usize::MAX,
    ensures
        forall|k: int| 0 <= k < shown_keys(objects, n).len() ==> (#[trigger] shown_keys(objects, n)[k]).value < n && shown(
            objects[shown_keys(objects, n)[k].value as int],
        ),
    decreases n,
{
    if n > 0 {
        lemma_shown_keys_bounded(objects, n - 1);
        let prev = shown_keys(objects, n - 1);
        let cur = shown_keys(objects, n);
        assert forall|k: int| 0 <= k < cur.len() implies (#[trigger] cur[k]).value < n && shown(objects[cur[k].value as int]) by {
            if k < prev.len() {
                assert(cur[k] == prev[k]);
            }
        }
    }
}

fn find_position(ids: &Vec<GameEntityId>, id: GameEntityId) -> (r: u64)
    ensures
        r == position_in(ids@, id) as u64,
{
    let mut k: usize = 0;
    while k < ids.len()
        invariant
            k <= ids.len(),
            forall|j: int| 0 <= j < k ==> ids@[j] != id,
        decreases ids.len() - k,
    {
        if ids[k] == id {
            proof {
                assert(first_index(ids@, id, k as int));
                assert(ids@.contains(id));
                let c = choose|c: int| first_index(ids@, id, c);
                if c < k {
                    assert(ids@[c] == id);
                } else if k < c {
                    assert(ids@[k as int] == id);
                }
            }
            return k as u64;
        }
        k = k + 1;
    }
    proof {
        assert(!ids@.contains(id));
    }
    0
}

fn snapshot_object(world: &World, i: usize) -> (r: GameObjectSnapshot)
    requires
        i < world.objects@.len(),
        shown(world.objects@[i as int]),
    ensures
        r == object_snapshot(*world, world.objects@[i as int]),
{
    let o = &world.objects[i];
    let controller = match o.controller {
        Some(c) => c,
        None => PlayerId::One,
    };
    let zone = match o.zone {
        Some(z) => z,
        None => Zone::Deck,
    };
    GameObjectSnapshot {
        id: o.id,
        definition_id: match &o.definition_id {
            Some(d) => d.clone(),
            None => String::new(),
        },
        name: match &o.display_name {
            Some(d) => d.clone(),
            None => String::new(),
        },
        kind: match o.kind {
            Some(k) => k,
            None => EntityKind::Minion,
        },
        controller,
        zone,
        zone_position: find_position(world.zones.entities(controller, zone), o.id),
        play_order: match o.play_order {
            Some(p) => p,
            None => 0,
        },
        attack: match o.current_stats {
            Some(s) => Some(s.attack),
            None => None,
        },
        maximum_health: match o.current_stats {
            Some(s) => Some(s.maximum_health),
            None => None,
        },
        damage: match o.damage {
            Some(d) => d,
            None => 0,
        },
        exhausted: match o.attack_state {
            Some(s) => Some(s.exhausted),
            None => None,
        },
        hero_class: match o.hero_metadata {
            Some(m) => Some(m.class),
            None => None,
        },
        hero_power_exhausted: match o.hero_power_state {
            Some(s) => Some(s.exhausted),
            None => None,
        },
    }
}

fn is_shown(o: &GameObject) -> (r: bool)
    ensures
        r == shown(*o),
{
    o.definition_id.is_some() && o.display_name.is_some() && o.kind.is_some() && o.controller.is_some()
        && o.zone.is_some() && o.play_order.is_some()
}

/// The shown objects of the world, in order of identity.
pub fn snapshot_objects(world: &World) -> (r: Vec<GameObjectSnapshot>)
    ensures
        r@ == shown_objects(*world),
{
    let mut keys: Vec<Keyed<usize>> = Vec::new();
    let mut i: usize = 0;
    while i < world.objects.len()
        invariant
            i <= world.objects@.len(),
            keys@ == sort_keyed(shown_keys(world.objects@, i as int)),
        decreases world.objects.len() - i,
    {
        if is_shown(&world.objects[i]) {
            let key = Keyed { order: world.objects[i].id.0, id: world.objects[i].id.0, value: i };
            insert_keyed(&mut keys, key);
            proof {
                let next = shown_keys(world.objects@, i + 1);
                assert(next == shown_keys(world.objects@, i as int).push(key));
                assert(next.drop_last() =~= shown_keys(world.objects@, i as int));
                assert(next.last() == key);
            }
        }
        i = i + 1;
    }
    proof {
        lemma_shown_keys_bounded(world.objects@, world.objects@.len() as int);
        crate::aura::lemma_sort_keeps_members(shown_keys(world.objects@, world.objects@.len() as int));
    }
    let ghost all = shown_keys(world.objects@, world.objects@.len() as int);
    let mut out: Vec<GameObjectSnapshot> = Vec::new();
    let mut k: usize = 0;
    while k < keys.len()
        invariant
            k <= keys@.len(),
            keys@ == sort_keyed(all),
            all == shown_keys(world.objects@, world.objects@.len() as int),
            forall|m: int| 0 <= m < all.len() ==> (#[trigger] all[m]).value < world.objects@.len() && shown(
                world.objects@[all[m].value as int],
            ),
            forall|x: Keyed<usize>| #[trigger] keys@.contains(x) <==> all.contains(x),
            out@.len() == k,
            forall|m: int| 0 <= m < k ==> #[trigger] out@[m] == object_snapshot(*world, world.objects@[keys@[m].value as int]),
        decreases keys.len() - k,
    {
        let key = keys[k];
        proof {
            assert(keys@.contains(key));
            assert(all.contains(key));
            let m = choose|m: int| 0 <= m < all.len() && all[m] == key;
            assert(all[m].value < world.objects@.len());
        }
        let ghost before = out@;
        out.push(snapshot_object(world, key.value));
        proof {
            assert forall|m: int| 0 <= m < k + 1 implies #[trigger] out@[m] == object_snapshot(
                *world,
                world.objects@[keys@[m].value as int],
            ) by {
                if m < k {
                    assert(out@[m] == before[m]);
                }
            }
        }
        k = k + 1;
    }
    proof {
        assert(out@ =~= shown_objects(*world));
    }
    out
}


/// `player`'s hero power: the first hero power among the objects it has in play.
pub open spec fn hero_power_of(w: World, player: PlayerId) -> Option<GameEntityId> {
    let powers = of_kind(w.objects@, w.zones.list(player, Zone::Play), EntityKind::HeroPower);
    if powers.len() > 0 {
        Some(powers[0])
    } else {
        None
    }
}

/// Whether `s` is what an observer sees of `player`: its Player object and record, its hero's
/// health (maximum health minus damage), armor and class, its hero power, and its hand, deck
/// and board.
pub open spec fn player_snapshot_of(w: World, player: PlayerId, s: PlayerSnapshot) -> bool {
    match player_view(w, player) {
        None => false,
        Some((i, data, stats, damage)) => {
            let h = w.objects@[lookup(w.objects@, hero_of(w, player)->0)->0];
            &&& s.entity == w.objects@[i].id
            &&& s.id == player
            &&& s.name@ == match w.objects@[i].display_name {
                Some(n) => n@,
                None => Seq::<char>::empty(),
            }
            &&& s.hero == hero_of(w, player)->0
            &&& s.hero_power == hero_power_of(w, player)
            &&& s.hero_class == match h.hero_metadata {
                Some(m) => m.class,
                None => HeroClass::Neutral,
            }
            &&& s.health == sat_sub(stats.maximum_health, damage)
            &&& s.armor == match h.armor {
                Some(a) => a,
                None => 0i32,
            }
            &&& s.available_resources == available_of(data)
            &&& s.maximum_resources == data.maximum_resources
            &&& s.used_resources == data.used_resources
            &&& s.temporary_resources == data.temporary_resources
            &&& s.pending_overload == data.pending_overload
            &&& s.locked_overload == data.locked_overload
            &&& s.resources_spent == data.resources_spent
            &&& s.fatigue == data.fatigue
            &&& s.hand@ == w.zones.list(player, Zone::Hand)
            &&& s.deck@ == w.zones.list(player, Zone::Deck)
            &&& s.board@ == board_of(w, player)
        },
    }
}

/// Whether the world holds a Player record of `player`.
pub open spec fn present(w: World, player: PlayerId) -> bool {
    crate::player::players_of(w.objects@, player).len() > 0
}

/// Whether every player the world holds has a view: a hero in play with stats and damage.
pub open spec fn snapshot_ready(w: World) -> bool {
    &&& present(w, PlayerId::One) ==> player_view(w, PlayerId::One) is Some
    &&& present(w, PlayerId::Two) ==> player_view(w, PlayerId::Two) is Some
}

fn snapshot_player(world: &World, player_id: PlayerId) -> (r: PlayerSnapshot)
    requires
        player_view(*world, player_id) is Some,
    ensures
        player_snapshot_of(*world, player_id, r),
{
    let (i, data, stats, damage) = match player(world, player_id) {
        Some(found) => found,
        None => {
            proof {
                assert(false);
            }
            (0, crate::world::Player {
                id: player_id,
                maximum_resources: 0,
                used_resources: 0,
                temporary_resources: 0,
                pending_overload: 0,
                locked_overload: 0,
                resources_spent: 0,
                fatigue: 0,
            }, crate::world::CurrentStats { attack: 0, maximum_health: 0 }, 0)
        },
    };
    proof {
        crate::player::lemma_player_positions_bounded(world.objects@, player_id, world.objects@.len() as int);
    }
    let hero = match hero_id(world, player_id) {
        Some(h) => h,
        None => GameEntityId(0),
    };
    let h = match game_entity(&world.objects, hero) {
        Some(h) => h,
        None => 0,
    };
    let powers = crate::player::active_kind(&world.objects, world.zones.entities(player_id, Zone::Play), EntityKind::HeroPower);
    let hero_power = if powers.len() > 0 { Some(powers[0]) } else { None };
    let name = match &world.objects[i].display_name {
        Some(n) => n.clone(),
        None => String::new(),
    };
    PlayerSnapshot {
        entity: world.objects[i].id,
        id: player_id,
        name,
        hero,
        hero_power,
        hero_class: match world.objects[h].hero_metadata {
            Some(m) => m.class,
            None => HeroClass::Neutral,
        },
        health: sat_sub_i32(stats.maximum_health, damage),
        armor: match world.objects[h].armor {
            Some(a) => a,
            None => 0,
        },
        available_resources: data.available_resources(),
        maximum_resources: data.maximum_resources,
        used_resources: data.used_resources,
        temporary_resources: data.temporary_resources,
        pending_overload: data.pending_overload,
        locked_overload: data.locked_overload,
        resources_spent: data.resources_spent,
        fatigue: data.fatigue,
        hand: copy_ids(world.zones.entities(player_id, Zone::Hand)),
        deck: copy_ids(world.zones.entities(player_id, Zone::Deck)),
        board: board_entities(world, player_id),
    }
}

fn copy_deaths(v: &Vec<DeathRecord>) -> (r: Vec<DeathRecord>)
    ensures
        r@ == v@,
{
    let mut r: Vec<DeathRecord> = Vec::new();
    let mut i: usize = 0;
    while i < v.len()
        invariant
            i <= v.len(),
            r@ == v@.subrange(0, i as int),
        decreases v.len() - i,
    {
        r.push(v[i]);
        i = i + 1;
        assert(r@ =~= v@.subrange(0, i as int));
    }
    assert(v@.subrange(0, v@.len() as int) =~= v@);
    r
}

fn copy_players(v: &Vec<PlayerId>) -> (r: Vec<PlayerId>)
    ensures
        r@ == v@,
{
    let mut r: Vec<PlayerId> = Vec::new();
    let mut i: usize = 0;
    while i < v.len()
        invariant
            i <= v.len(),
            r@ == v@.subrange(0, i as int),
        decreases v.len() - i,
    {
        r.push(v[i]);
        i = i + 1;
        assert(r@ =~= v@.subrange(0, i as int));
    }
    assert(v@.subrange(0, v@.len() as int) =~= v@);
    r
}

/// What an observer sees of the game: the rules, the game state, the extra turns to come, the
/// dominant player, both players (the first player first), the shown objects in order of
/// identity, the deaths so far and the generator state.
pub fn build_snapshot(world: &World) -> (r: GameSnapshot)
    requires
        snapshot_ready(*world),
    ensures
        r.ruleset == world.ruleset.id,
        r.game == world.game,
        r.extra_turns@ == world.turn_schedule.extra_turns@,
        r.dominant_player == world.dominant_player,
        r.players@.len() == (if present(*world, PlayerId::One) { 1int } else { 0 }) + (if present(
            *world,
            PlayerId::Two,
        ) {
            1int
        } else {
            0
        }),
        present(*world, PlayerId::One) ==> player_snapshot_of(*world, PlayerId::One, r.players@[0]),
        present(*world, PlayerId::Two) ==> player_snapshot_of(
            *world,
            PlayerId::Two,
            r.players@[if present(*world, PlayerId::One) { 1int } else { 0 }],
        ),
        r.objects@ == shown_objects(*world),
        r.deaths@ == world.deaths@,
        r.rng == (RngSnapshot { algorithm_version: RNG_ALGORITHM_VERSION, state: world.rng.state, position: world.rng.position }),
        crate::checkpoint::same_work(r.resolution, world.resolution),
{
    let mut players: Vec<PlayerSnapshot> = Vec::new();
    if crate::player::player_objects(&world.objects, PlayerId::One).len() > 0 {
        players.push(snapshot_player(world, PlayerId::One));
    }
    if crate::player::player_objects(&world.objects, PlayerId::Two).len() > 0 {
        players.push(snapshot_player(world, PlayerId::Two));
    }
    GameSnapshot {
        ruleset: world.ruleset.id,
        game: world.game,
        extra_turns: copy_players(&world.turn_schedule.extra_turns),
        dominant_player: world.dominant_player,
        players,
        objects: snapshot_objects(world),
        deaths: copy_deaths(&world.deaths),
        rng: world.rng.state(),
        resolution: crate::checkpoint::copy_work(&world.resolution),
    }
}

} // verus!
