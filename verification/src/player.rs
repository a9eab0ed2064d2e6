//! Players, their heroes and hero powers: lookups, role checks, outcome, draws and damage.
use vstd::prelude::*;

use crate::error::{InvariantViolation, SimulationError, ZoneError};
use crate::trace::{trace_view, TraceEntry, TraceEntryView};
use crate::types::{EntityKind, GameEntityId, GameOutcome, PlayerId, Zone};
use crate::world::{
    game_entity, kind_of, lookup, sat_add, sat_add_i32, CurrentStats, GameObject, Player, World,
};
use crate::zone::{move_entity, zone_move, ZoneMoveOutcome};

verus! {

/// The identities among `ids` whose objects are of kind `kind`, in order.
pub open spec fn of_kind(objects: Seq<GameObject>, ids: Seq<GameEntityId>, kind: EntityKind) -> Seq<GameEntityId>
    decreases ids.len(),
{
    if ids.len() == 0 {
        Seq::empty()
    } else {
        let prev = of_kind(objects, ids.drop_last(), kind);
        if kind_of(objects, ids.last()) == Some(kind) {
            prev.push(ids.last())
        } else {
            prev
        }
    }
}

/// The identities among `ids` whose objects are of kind `kind`, in order.
pub fn active_kind(objects: &Vec<GameObject>, ids: &Vec<GameEntityId>, kind: EntityKind) -> (r: Vec<GameEntityId>)
    ensures
        r@ == of_kind(objects@, ids@, kind),
{
    let mut r: Vec<GameEntityId> = Vec::new();
    let mut k: usize = 0;
    while k < ids.len()
        invariant
            k <= ids.len(),
            r@ == of_kind(objects@, ids@.subrange(0, k as int), kind),
        decreases ids.len() - k,
    {
        proof {
            assert(ids@.subrange(0, k + 1).drop_last() =~= ids@.subrange(0, k as int));
        }
        let found = match game_entity(objects, ids[k]) {
            Some(i) => objects[i].kind == Some(kind),
            None => false,
        };
        if found {
            r.push(ids[k]);
        }
        k = k + 1;
    }
    assert(ids@.subrange(0, ids@.len() as int) =~= ids@);
    r
}

/// `player`'s hero: the first hero among the objects it has in play.
pub open spec fn hero_of(w: World, player: PlayerId) -> Option<GameEntityId> {
    let heroes = of_kind(w.objects@, w.zones.list(player, Zone::Play), EntityKind::Hero);
    if heroes.len() > 0 {
        Some(heroes[0])
    } else {
        None
    }
}

/// `player`'s hero: the first hero among the objects it has in play.
pub fn hero_id(world: &World, player: PlayerId) -> (r: Option<GameEntityId>)
    ensures
        r == hero_of(*world, player),
{
    let heroes = active_kind(&world.objects, world.zones.entities(player, Zone::Play), EntityKind::Hero);
    if heroes.len() > 0 {
        Some(heroes[0])
    } else {
        None
    }
}

/// The positions of the objects among the first `n` that carry the Player record of `player`.
pub open spec fn player_positions(objects: Seq<GameObject>, player: PlayerId, n: int) -> Seq<int>
    decreases n,
{
    if n <= 0 {
        Seq::empty()
    } else {
        let prev = player_positions(objects, player, n - 1);
        if objects[n - 1].player matches Some(data) && data.id == player {
            prev.push(n - 1)
        } else {
            prev
        }
    }
}

/// The positions of the objects that carry the Player record of `player`.
pub open spec fn players_of(objects: Seq<GameObject>, player: PlayerId) -> Seq<int> {
    player_positions(objects, player, objects.len() as int)
}

/// Every recorded position is in range and carries the Player record of `player`.
pub proof fn lemma_player_positions_bounded(objects: Seq<GameObject>, player: PlayerId, n: int)
    requires
        n <= objects.len(),
    ensures
        forall|k: int|
            0 <= k < player_positions(objects, player, n).len() ==> 0 <= #[trigger] player_positions(
                objects,
                player,
                n,
            )[k] < n && objects[player_positions(objects, player, n)[k]].player is Some && objects[player_positions(
                objects,
                player,
                n,
            )[k]].player->0.id == player,
    decreases n,
{
    if n > 0 {
        lemma_player_positions_bounded(objects, player, n - 1);
    }
}

/// The positions of the objects that carry the Player record of `player`.
pub fn player_objects(objects: &Vec<GameObject>, player: PlayerId) -> (r: Vec<usize>)
    ensures
        r@.len() == players_of(objects@, player).len(),
        forall|k: int| 0 <= k < r@.len() ==> r@[k] as int == #[trigger] players_of(objects@, player)[k],
{
    let mut r: Vec<usize> = Vec::new();
    let mut i: usize = 0;
    while i < objects.len()
        invariant
            i <= objects.len(),
            r@.len() == player_positions(objects@, player, i as int).len(),
            forall|k: int| 0 <= k < r@.len() ==> r@[k] as int == #[trigger] player_positions(objects@, player, i as int)[k],
        decreases objects.len() - i,
    {
        let ghost before = r@;
        let matches = match objects[i].player {
            Some(data) => data.id == player,
            None => false,
        };
        if matches {
            r.push(i);
        }
        proof {
            assert forall|k: int| 0 <= k < r@.len() implies r@[k] as int == #[trigger] player_positions(
                objects@,
                player,
                i + 1,
            )[k] by {
                if k < before.len() {
                    assert(r@[k] == before[k]);
                }
            }
        }
        i = i + 1;
    }
    r
}

/// The Player record of `player` with its hero's stats and damage; none when the record or an
/// active hero with stats and damage is missing.
pub open spec fn player_view(w: World, player: PlayerId) -> Option<(int, Player, CurrentStats, i32)> {
    let positions = players_of(w.objects@, player);
    if positions.len() == 0 {
        None
    } else {
        let i = positions[0];
        match hero_of(w, player) {
            None => None,
            Some(hero) => match lookup(w.objects@, hero) {
                None => None,
                Some(h) => match (w.objects@[h].current_stats, w.objects@[h].damage) {
                    (Some(stats), Some(damage)) => Some((i, w.objects@[i].player->0, stats, damage)),
                    _ => None,
                },
            },
        }
    }
}

/// The Player record of `player` (with the position of the object carrying it) and its hero's
/// stats and damage.
pub fn player(world: &World, id: PlayerId) -> (r: Option<(usize, Player, CurrentStats, i32)>)
    ensures
        match r {
            None => player_view(*world, id) is None,
            Some((i, data, stats, damage)) => player_view(*world, id) == Some((i as int, data, stats, damage)),
        },
{
    let positions = player_objects(&world.objects, id);
    if positions.len() == 0 {
        return None;
    }
    let i = positions[0];
    proof {
        lemma_player_positions_bounded(world.objects@, id, world.objects@.len() as int);
        assert(players_of(world.objects@, id)[0] == i);
    }
    let data = match world.objects[i].player {
        Some(data) => data,
        None => return None,
    };
    let hero = match hero_id(world, id) {
        Some(hero) => hero,
        None => return None,
    };
    let h = match game_entity(&world.objects, hero) {
        Some(h) => h,
        None => return None,
    };
    match (world.objects[h].current_stats, world.objects[h].damage) {
        (Some(stats), Some(damage)) => Some((i, data, stats, damage)),
        _ => None,
    }
}

/// The first broken role rule of `player`: one Player record on an object of kind Player
/// controlled by the player, exactly one active hero with stats, damage, armor, attack state
/// and metadata, and exactly one active hero power with its state and card data.
pub open spec fn role_fault(w: World, player: PlayerId) -> Option<InvariantViolation> {
    let positions = players_of(w.objects@, player);
    let active = w.zones.list(player, Zone::Play);
    let heroes = of_kind(w.objects@, active, EntityKind::Hero);
    let powers = of_kind(w.objects@, active, EntityKind::HeroPower);
    if positions.len() != 1 {
        Some(InvariantViolation::PlayerCount { player, count: positions.len() as usize })
    } else if w.objects@[positions[0]].controller != Some(player) || w.objects@[positions[0]].kind != Some(
        EntityKind::Player,
    ) {
        Some(InvariantViolation::InvalidPlayerComponents(player))
    } else if heroes.len() != 1 {
        Some(InvariantViolation::HeroCount { player, count: heroes.len() as usize })
    } else if ({
        let h = w.objects@[lookup(w.objects@, heroes[0])->0];
        lookup(w.objects@, heroes[0]) is None || h.current_stats is None || h.damage is None || h.armor is None
            || h.attack_state is None || h.hero_metadata is None
    }) {
        Some(InvariantViolation::HeroComponentsMissing(player))
    } else if powers.len() != 1 {
        Some(InvariantViolation::HeroPowerCount { player, count: powers.len() as usize })
    } else if ({
        let q = w.objects@[lookup(w.objects@, powers[0])->0];
        lookup(w.objects@, powers[0]) is None || q.hero_power_state is None || q.card_runtime is None
    }) {
        Some(InvariantViolation::HeroPowerComponentsMissing(player))
    } else {
        None
    }
}

fn check_player_role(world: &World, player: PlayerId) -> (r: Result<(), InvariantViolation>)
    ensures
        match role_fault(*world, player) {
            Some(e) => r == Err::<(), InvariantViolation>(e),
            None => r == Ok::<(), InvariantViolation>(()),
        },
{
    let positions = player_objects(&world.objects, player);
    if positions.len() != 1 {
        return Err(InvariantViolation::PlayerCount { player, count: positions.len() });
    }
    let i = positions[0];
    proof {
        lemma_player_positions_bounded(world.objects@, player, world.objects@.len() as int);
        assert(players_of(world.objects@, player)[0] == i);
    }
    if world.objects[i].controller != Some(player) || world.objects[i].kind != Some(EntityKind::Player) {
        return Err(InvariantViolation::InvalidPlayerComponents(player));
    }
    let active = world.zones.entities(player, Zone::Play);
    let heroes = active_kind(&world.objects, active, EntityKind::Hero);
    if heroes.len() != 1 {
        return Err(InvariantViolation::HeroCount { player, count: heroes.len() });
    }
    match game_entity(&world.objects, heroes[0]) {
        None => return Err(InvariantViolation::HeroComponentsMissing(player)),
        Some(h) => {
            let o = &world.objects[h];
            if o.current_stats.is_none() || o.damage.is_none() || o.armor.is_none() || o.attack_state.is_none()
                || o.hero_metadata.is_none() {
                return Err(InvariantViolation::HeroComponentsMissing(player));
            }
        },
    }
    let powers = active_kind(&world.objects, active, EntityKind::HeroPower);
    if powers.len() != 1 {
        return Err(InvariantViolation::HeroPowerCount { player, count: powers.len() });
    }
    match game_entity(&world.objects, powers[0]) {
        None => return Err(InvariantViolation::HeroPowerComponentsMissing(player)),
        Some(q) => {
            let o = &world.objects[q];
            if o.hero_power_state.is_none() || o.card_runtime.is_none() {
                return Err(InvariantViolation::HeroPowerComponentsMissing(player));
            }
        },
    }
    Ok(())
}

/// Checks the role rules of both players, the first player first.
pub fn assert_player_role_invariants(world: &World) -> (r: Result<(), InvariantViolation>)
    ensures
        r == (match role_fault(*world, PlayerId::One) {
            Some(e) => Err(e),
            None => match role_fault(*world, PlayerId::Two) {
                Some(e) => Err(e),
                None => Ok(()),
            },
        }),
{
    match check_player_role(world, PlayerId::One) {
        Err(e) => Err(e),
        Ok(()) => check_player_role(world, PlayerId::Two),
    }
}

/// The position of the object `id` if `player` controls it and it is in zone `expected`; the
/// reason otherwise.
pub open spec fn controlled_check(w: World, player: PlayerId, id: GameEntityId, expected: Zone) -> Result<
    int,
    SimulationError,
> {
    match lookup(w.objects@, id) {
        None => Err(SimulationError::EntityNotFound(id)),
        Some(i) => if w.objects@[i].controller != Some(player) {
            Err(SimulationError::NotControlled { entity: id })
        } else if w.objects@[i].zone != Some(expected) {
            Err(SimulationError::WrongZone { entity: id, expected })
        } else {
            Ok(i)
        },
    }
}

/// The object `id` if `player` controls it and it is in zone `expected`.
pub fn controlled_entity_in_zone(world: &World, player: PlayerId, id: GameEntityId, expected: Zone) -> (r: Result<
    usize,
    SimulationError,
>)
    ensures
        match r {
            Ok(j) => controlled_check(*world, player, id, expected) == Ok::<int, SimulationError>(j as int) && j
                < world.objects@.len(),
            Err(e) => controlled_check(*world, player, id, expected) == Err::<int, SimulationError>(e),
        },
{
    let i = match game_entity(&world.objects, id) {
        Some(i) => i,
        None => return Err(SimulationError::EntityNotFound(id)),
    };
    if world.objects[i].controller != Some(player) {
        return Err(SimulationError::NotControlled { entity: id });
    }
    if world.objects[i].zone != Some(expected) {
        return Err(SimulationError::WrongZone { entity: id, expected });
    }
    Ok(i)
}

/// The outcome that the defeated heroes decide: none, a win for the opponent of the only
/// defeated player, or a draw.
pub open spec fn outcome_of(defeated: Seq<PlayerId>) -> Option<GameOutcome> {
    if defeated.len() == 0 {
        None
    } else if defeated.len() == 1 {
        Some(GameOutcome::Winner(defeated[0].spec_opponent()))
    } else {
        Some(GameOutcome::Draw)
    }
}

/// What settling the outcome does.
pub open spec fn outcome_checked(old: World, new: World) -> bool {
    &&& (old.game.outcome is Some || outcome_of(old.defeated_heroes@) is None ==> new == old)
    &&& old.game.outcome is None ==> match outcome_of(old.defeated_heroes@) {
        Some(outcome) => {
            &&& new == (World {
                game: crate::world::GameState { outcome: Some(outcome), ..old.game },
                trace: new.trace,
                ..old
            })
            &&& new.trace@ == old.trace@.push(
                TraceEntry::Outcome {
                    winner: match outcome {
                        GameOutcome::Winner(p) => Some(p),
                        GameOutcome::Draw => None,
                    },
                },
            )
        },
        None => true,
    }
}

/// A defeated player never wins: when the outcome is settled while exactly one player's hero is
/// defeated, the game is won by that player's opponent, and the trace names the opponent as
/// the winner; with both defeated, the game is a draw.
pub proof fn law_defeated_player_loses(old: World, new: World)
    requires
        outcome_checked(old, new),
        old.game.outcome is None,
    ensures
        old.defeated_heroes@.len() == 1 ==> {
            &&& new.game.outcome == Some(GameOutcome::Winner(old.defeated_heroes@[0].spec_opponent()))
            &&& new.game.outcome != Some(GameOutcome::Winner(old.defeated_heroes@[0]))
            &&& new.trace@.last() == TraceEntry::Outcome { winner: Some(old.defeated_heroes@[0].spec_opponent()) }
        },
        old.defeated_heroes@.len() >= 2 ==> new.game.outcome == Some(GameOutcome::Draw),
        old.defeated_heroes@.len() == 0 ==> new == old,
{
    if old.defeated_heroes@.len() == 1 {
        let p = old.defeated_heroes@[0];
        assert(p.spec_opponent() != p) by {
            match p {
                PlayerId::One => {},
                PlayerId::Two => {},
            }
        }
    }
}

/// Settles the outcome from the defeated heroes, unless it is already settled, and records it.
pub fn check_outcome(world: &mut World)
    ensures
        final(world).resolution.remaining_budget == old(world).resolution.remaining_budget,
        final(world).resolution.sequence_active == old(world).resolution.sequence_active,
        outcome_checked(*old(world), *final(world)),
{
    if world.game.outcome.is_some() {
        return;
    }
    let count = world.defeated_heroes.len();
    if count == 0 {
        return;
    }
    let outcome = if count == 1 {
        GameOutcome::Winner(world.defeated_heroes[0].opponent())
    } else {
        GameOutcome::Draw
    };
    let winner = match outcome {
        GameOutcome::Winner(p) => Some(p),
        GameOutcome::Draw => None,
    };
    world.game.outcome = Some(outcome);
    world.trace.push(TraceEntry::Outcome { winner });
}

/// `o` after taking `amount` damage: armor absorbs first, the rest adds to its damage.
pub open spec fn damaged_object(o: GameObject, amount: i32) -> GameObject {
    let armor = match o.armor {
        Some(a) => if a > 0 { a as int } else { 0 },
        None => 0,
    };
    let absorbed = if armor < amount { armor } else { amount as int };
    let rest = (amount - absorbed) as i32;
    GameObject {
        armor: match o.armor {
            Some(a) => Some((a - absorbed) as i32),
            None => None,
        },
        damage: Some(sat_add(
            match o.damage {
                Some(d) => d,
                None => 0,
            },
            rest,
        )),
        ..o
    }
}

/// The objects after the object `target` takes `amount` damage; nothing changes for a
/// non-positive amount or an unknown target.
pub open spec fn damage_objects(objects: Seq<GameObject>, target: GameEntityId, amount: i32) -> Seq<GameObject> {
    match lookup(objects, target) {
        Some(i) if amount > 0 => objects.update(i, damaged_object(objects[i], amount)),
        _ => objects,
    }
}

/// Whether dealing `amount` damage to `target` took `old` to `new`.
pub open spec fn damaged(old: World, new: World, target: GameEntityId, amount: i32) -> bool {
    &&& new == (World { objects: new.objects, ..old })
    &&& new.objects@ == damage_objects(old.objects@, target, amount)
}

/// Deals `amount` damage to the object with identity `target`: armor absorbs first, the rest
/// adds to its damage. Nothing happens for a non-positive amount or an unknown target.
pub fn apply_damage(world: &mut World, target: GameEntityId, amount: i32)
    ensures
        damaged(*old(world), *final(world), target, amount),
{
    if amount <= 0 {
        return;
    }
    let i = match game_entity(&world.objects, target) {
        Some(i) => i,
        None => return,
    };
    let armor: i32 = match world.objects[i].armor {
        Some(a) => if a > 0 { a } else { 0 },
        None => 0,
    };
    let absorbed: i32 = if armor < amount { armor } else { amount };
    let rest: i32 = amount - absorbed;
    let current: i32 = match world.objects[i].damage {
        Some(d) => d,
        None => 0,
    };
    let ghost before = world.objects@;
    match world.objects[i].armor {
        Some(a) => {
            world.objects[i].armor = Some(a - absorbed);
        },
        None => {},
    }
    world.objects[i].damage = Some(sat_add_i32(current, rest));
    proof {
        let o = before[i as int];
        assert(world.objects@ =~= before.update(
            i as int,
            GameObject {
                armor: match o.armor {
                    Some(a) => Some((a - absorbed) as i32),
                    None => None,
                },
                damage: Some(sat_add(current, rest)),
                ..o
            },
        ));
    }
}


/// What a draw by `player` did to `old`, giving `new` and result `r`: the top card of the deck
/// moves to the hand (to the graveyard when the hand is full) and the move is recorded; with
/// an empty deck the player's fatigue grows by one and its hero takes that much damage.
pub open spec fn drew(old: World, new: World, player: PlayerId, r: Result<(), SimulationError>) -> bool {
    let deck = old.zones.list(player, Zone::Deck);
    if deck.len() > 0 {
        let card = deck[0];
        exists|mid: World, moved: Result<ZoneMoveOutcome, ZoneError>|
            {
                &&& #[trigger] zone_move(old, mid, card, Zone::Hand, None, moved)
                &&& match moved {
                    Err(e) => r == Err::<(), SimulationError>(SimulationError::Zone(e)) && new == old,
                    Ok(ZoneMoveOutcome::Moved { from, .. }) => {
                        &&& r is Ok
                        &&& new == (World { trace: new.trace, ..mid })
                        &&& new.trace@ == mid.trace@.push(TraceEntry::ZoneMoved { entity: card, from, to: Zone::Hand })
                    },
                    Ok(ZoneMoveOutcome::FullZoneRemoval { from }) => {
                        &&& r is Ok
                        &&& new == (World { trace: new.trace, ..mid })
                        &&& new.trace@ == mid.trace@.push(TraceEntry::ZoneMoved { entity: card, from, to: Zone::Graveyard })
                    },
                    Ok(ZoneMoveOutcome::PreventedByFullZone) => false,
                }
            }
    } else {
        match player_view(old, player) {
            None => r == Err::<(), SimulationError>(SimulationError::PlayerNotFound(player)) && new == old,
            Some((i, data, _, _)) => {
                let fatigue = (data.fatigue + 1) as u32;
                exists|tired: World|
                    {
                        &&& tired == (World { objects: tired.objects, ..old })
                        &&& tired.objects@ == old.objects@.update(
                            i,
                            GameObject { player: Some(Player { fatigue, ..data }), ..old.objects@[i] },
                        )
                        &&& #[trigger] damaged(tired, new, hero_of(old, player)->0, fatigue as i32)
                        &&& r is Ok
                    }
            },
        }
    }
}

proof fn lemma_of_kind_frame(a: Seq<GameObject>, b: Seq<GameObject>, ids: Seq<GameEntityId>, kind: EntityKind)
    requires
        a.len() == b.len(),
        forall|j: int| 0 <= j < a.len() ==> (#[trigger] a[j]).id == b[j].id && a[j].kind == b[j].kind,
    ensures
        of_kind(a, ids, kind) == of_kind(b, ids, kind),
    decreases ids.len(),
{
    if ids.len() > 0 {
        lemma_of_kind_frame(a, b, ids.drop_last(), kind);
        lemma_kind_of_frame(a, b, ids.last());
    }
}

/// Objects that agree on identities and kinds agree on the kind of every identity.
pub proof fn lemma_kind_of_frame(a: Seq<GameObject>, b: Seq<GameObject>, id: GameEntityId)
    requires
        a.len() == b.len(),
        forall|j: int| 0 <= j < a.len() ==> (#[trigger] a[j]).id == b[j].id && a[j].kind == b[j].kind,
    ensures
        kind_of(a, id) == kind_of(b, id),
        lookup(a, id) == lookup(b, id),
{
    crate::world::lemma_lookup_some(a, id);
    crate::world::lemma_lookup_some(b, id);
    if crate::world::has_id(a, id) {
        let j = choose|j: int| 0 <= j < a.len() && (#[trigger] a[j]).id == id;
        assert(b[j].id == id);
    }
    if crate::world::has_id(b, id) {
        let j = choose|j: int| 0 <= j < b.len() && (#[trigger] b[j]).id == id;
        assert(a[j].id == id);
    }
    match (lookup(a, id), lookup(b, id)) {
        (Some(x), Some(y)) => {
            if x < y {
                assert(b[x].id == id);
            } else if y < x {
                assert(a[y].id == id);
            }
        },
        _ => {},
    }
}

/// Draws a card for `player`: the top card of the deck moves to the hand (to the graveyard
/// when the hand is full); with an empty deck the player's fatigue grows by one and its hero
/// takes that much damage.
pub fn draw_card(world: &mut World, player: PlayerId) -> (r: Result<(), SimulationError>)
    requires
        player_view(*old(world), player) matches Some((_, data, _, _)) ==> data.fatigue < u32::MAX,
    ensures
        drew(*old(world), *final(world), player, r),
{
    let deck = world.zones.entities(player, Zone::Deck);
    if deck.len() > 0 {
        let card = deck[0];
        let ghost before = *world;
        let moved = move_entity(world, card, Zone::Hand, None);
        let ghost mid = *world;
        let (from, to) = match moved {
            Err(e) => {
                proof {
                    assert(zone_move(before, mid, card, Zone::Hand, None, moved));
                }
                return Err(SimulationError::Zone(e));
            },
            Ok(ZoneMoveOutcome::Moved { from, .. }) => (from, Zone::Hand),
            Ok(ZoneMoveOutcome::FullZoneRemoval { from }) => (from, Zone::Graveyard),
            Ok(ZoneMoveOutcome::PreventedByFullZone) => {
                proof {
                    assert(false);
                }
                return Ok(());
            },
        };
        world.trace.push(TraceEntry::ZoneMoved { entity: card, from, to });
        proof {
            assert(zone_move(before, mid, card, Zone::Hand, None, moved));
        }
        Ok(())
    } else {
        let ghost before = *world;
        let (i, data) = match crate::player::player(world, player) {
            Some((i, data, _, _)) => (i, data),
            None => return Err(SimulationError::PlayerNotFound(player)),
        };
        proof {
            lemma_player_positions_bounded(before.objects@, player, before.objects@.len() as int);
            assert(players_of(before.objects@, player)[0] == i);
        }
        let fatigue: u32 = data.fatigue + 1;
        world.objects[i].player = Some(Player { fatigue, ..data });
        let ghost tired = *world;
        proof {
            assert(tired.objects@ =~= before.objects@.update(
                i as int,
                GameObject { player: Some(Player { fatigue, ..data }), ..before.objects@[i as int] },
            ));
            lemma_of_kind_frame(tired.objects@, before.objects@, before.zones.list(player, Zone::Play), EntityKind::Hero);
        }
        let hero = match hero_id(world, player) {
            Some(hero) => hero,
            None => {
                proof {
                    assert(false);
                }
                return Err(SimulationError::PlayerNotFound(player));
            },
        };
        #[verifier::truncate]
        let amount = fatigue as i32;
        apply_damage(world, hero, amount);
        Ok(())
    }
}

} // verus!
