//! Zones: the board, zone positions, and moving objects between zones.
use vstd::prelude::*;

use crate::error::{InvariantViolation, ZoneError};
use crate::operations::copy_ids;
use crate::types::{EntityKind, GameEntityId, PlayerId, Zone};
use crate::world::{game_entity, kind_of, lookup, GameObject, World, ZoneIndex};

verus! {

/// The minions among `ids`, in order.
pub open spec fn minions_in(objects: Seq<GameObject>, ids: Seq<GameEntityId>) -> Seq<GameEntityId>
    decreases ids.len(),
{
    if ids.len() == 0 {
        Seq::empty()
    } else {
        let prev = minions_in(objects, ids.drop_last());
        if kind_of(objects, ids.last()) == Some(EntityKind::Minion) {
            prev.push(ids.last())
        } else {
            prev
        }
    }
}

/// The minions `player` has in play, in board order.
pub open spec fn board_of(w: World, player: PlayerId) -> Seq<GameEntityId> {
    minions_in(w.objects@, w.zones.list(player, Zone::Play))
}

/// Whether the object with identity `id` is a minion.
pub fn is_minion(objects: &Vec<GameObject>, id: GameEntityId) -> (r: bool)
    ensures
        r == (kind_of(objects@, id) == Some(EntityKind::Minion)),
{
    match game_entity(objects, id) {
        Some(i) => match objects[i].kind {
            Some(EntityKind::Minion) => true,
            _ => false,
        },
        None => false,
    }
}

/// The minions `player` has in play, in board order.
pub fn board_entities(world: &World, player: PlayerId) -> (r: Vec<GameEntityId>)
    ensures
        r@ == board_of(*world, player),
{
    let list = world.zones.entities(player, Zone::Play);
    let mut r: Vec<GameEntityId> = Vec::new();
    let mut k: usize = 0;
    while k < list.len()
        invariant
            k <= list.len(),
            r@ == minions_in(world.objects@, list@.subrange(0, k as int)),
        decreases list.len() - k,
    {
        proof {
            assert(list@.subrange(0, k + 1).drop_last() =~= list@.subrange(0, k as int));
        }
        if is_minion(&world.objects, list[k]) {
            r.push(list[k]);
        }
        k = k + 1;
    }
    assert(list@.subrange(0, list@.len() as int) =~= list@);
    r
}

/// Whether `player`'s board has no room for another minion.
pub fn board_is_full(world: &World, player: PlayerId) -> (r: bool)
    ensures
        r == (board_of(*world, player).len() >= world.ruleset.board_limit),
{
    let board = board_entities(world, player);
    board.len() as u64 >= world.ruleset.board_limit as u64
}

/// Checks a requested board position: none, or at most the number of minions on the board.
pub fn validate_board_position(world: &World, player: PlayerId, position: Option<usize>) -> (r: Result<(), ZoneError>)
    ensures
        match position {
            None => r is Ok,
            Some(p) => if p <= board_of(*world, player).len() {
                r is Ok
            } else {
                r == Err::<(), ZoneError>(
                    ZoneError::InvalidPosition { zone: Zone::Play, position: p, length: board_of(*world, player).len() as usize },
                )
            },
        },
{
    match position {
        None => Ok(()),
        Some(p) => {
            let board = board_entities(world, player);
            if p <= board.len() {
                Ok(())
            } else {
                Err(ZoneError::InvalidPosition { zone: Zone::Play, position: p, length: board.len() })
            }
        },
    }
}

/// Checks a requested position in one of `player`'s zones: none, or at most the zone's length.
pub fn validate_zone_position(world: &World, player: PlayerId, zone: Zone, position: Option<usize>) -> (r: Result<(), ZoneError>)
    ensures
        match position {
            None => r is Ok,
            Some(p) => if p <= world.zones.list(player, zone).len() {
                r is Ok
            } else {
                r == Err::<(), ZoneError>(
                    ZoneError::InvalidPosition { zone, position: p, length: world.zones.list(player, zone).len() as usize },
                )
            },
        },
{
    match position {
        None => Ok(()),
        Some(p) => {
            let length = world.zones.entities(player, zone).len();
            if p <= length {
                Ok(())
            } else {
                Err(ZoneError::InvalidPosition { zone, position: p, length })
            }
        },
    }
}

/// The index in a play list at which a minion placed at board position `p` is inserted: before
/// the `p`-th minion, or at the end when fewer minions precede.
pub open spec fn board_slot(objects: Seq<GameObject>, ids: Seq<GameEntityId>, p: int) -> int
    decreases ids.len(),
{
    if ids.len() == 0 {
        0
    } else if kind_of(objects, ids[0]) == Some(EntityKind::Minion) && p == 0 {
        0
    } else if kind_of(objects, ids[0]) == Some(EntityKind::Minion) {
        1 + board_slot(objects, ids.drop_first(), p - 1)
    } else {
        1 + board_slot(objects, ids.drop_first(), p)
    }
}

proof fn lemma_board_slot_bounds(objects: Seq<GameObject>, ids: Seq<GameEntityId>, p: int)
    ensures
        0 <= board_slot(objects, ids, p) <= ids.len(),
    decreases ids.len(),
{
    if ids.len() > 0 {
        lemma_board_slot_bounds(objects, ids.drop_first(), p - 1);
        lemma_board_slot_bounds(objects, ids.drop_first(), p);
    }
}

fn find_board_slot(objects: &Vec<GameObject>, ids: &Vec<GameEntityId>, p: usize) -> (r: usize)
    ensures
        r == board_slot(objects@, ids@, p as int),
{
    let mut k: usize = 0;
    let mut remaining: usize = p;
    proof {
        assert(ids@.subrange(0, ids@.len() as int) =~= ids@);
    }
    while k < ids.len()
        invariant
            k <= ids.len(),
            remaining <= p,
            board_slot(objects@, ids@, p as int) == k + board_slot(
                objects@,
                ids@.subrange(k as int, ids@.len() as int),
                remaining as int,
            ),
        decreases ids.len() - k,
    {
        let rest = Ghost(ids@.subrange(k as int, ids@.len() as int));
        proof {
            assert(rest@[0] == ids@[k as int]);
            assert(rest@.drop_first() =~= ids@.subrange(k + 1, ids@.len() as int));
        }
        let minion = is_minion(objects, ids[k]);
        if minion && remaining == 0 {
            proof {
                assert(board_slot(objects@, rest@, 0) == 0);
            }
            return k;
        }
        if minion {
            remaining = remaining - 1;
        }
        k = k + 1;
    }
    proof {
        assert(ids@.subrange(k as int, ids@.len() as int).len() == 0);
    }
    k
}

/// The first position of `id` in `ids`, if present.
pub open spec fn first_index(ids: Seq<GameEntityId>, id: GameEntityId, k: int) -> bool {
    &&& 0 <= k < ids.len()
    &&& ids[k] == id
    &&& forall|j: int| 0 <= j < k ==> ids[j] != id
}

pub(crate) fn find_in_list(ids: &Vec<GameEntityId>, id: GameEntityId) -> (r: Option<usize>)
    ensures
        r matches Some(k) ==> first_index(ids@, id, k as int),
        r is None ==> !ids@.contains(id),
{
    let mut k: usize = 0;
    while k < ids.len()
        invariant
            k <= ids.len(),
            forall|j: int| 0 <= j < k ==> ids@[j] != id,
        decreases ids.len() - k,
    {
        if ids[k] == id {
            return Some(k);
        }
        k = k + 1;
    }
    None
}

/// What a zone move did.
#[derive(Clone, Copy, Debug, PartialEq, Eq, Structural)]
pub enum ZoneMoveOutcome {
    /// The object moved as requested.
    Moved { from: Zone, to: Zone },
    /// The destination was a full hand; the object went to the graveyard instead.
    FullZoneRemoval { from: Zone },
    /// The destination was a full board; nothing moved.
    PreventedByFullZone,
}

/// Whether `new` is `old` with the object at position `i` (identity `id`, controlled by `p`,
/// listed at `k` of its zone `from`) moved to zone `to`, entering that list at `slot` of the list
/// that remains once it left `from`.
pub open spec fn moved_between(old: World, new: World, i: int, p: PlayerId, from: Zone, k: int, to: Zone, slot: int) -> bool {
    let id = old.objects@[i].id;
    let removed = old.zones.list(p, from).remove(k);
    let base = if to == from { removed } else { old.zones.list(p, to) };
    &&& new == (World { objects: new.objects, zones: new.zones, ..old })
    &&& new.objects@ == old.objects@.update(i, GameObject { zone: Some(to), ..old.objects@[i] })
    &&& new.zones.list(p, to) == base.insert(slot, id)
    &&& (to != from ==> new.zones.list(p, from) == removed)
    &&& forall|q: PlayerId, z: Zone|
        !(q == p && (z == from || z == to)) ==> #[trigger] new.zones.list(q, z) == old.zones.list(q, z)
}

/// Moves the object with identity `id` within its controller's zones to `destination`, at
/// `position` (a board position for play, a list position otherwise; the end when absent). A
/// draw into a full hand sends the object to the graveyard instead; a minion entering a full
/// board stays where it is.
/// Whether a move of `id` to `destination` at `position` took `old` to `new` with result `r`.
pub open spec fn zone_move(
    old: World,
    new: World,
    id: GameEntityId,
    destination: Zone,
    position: Option<usize>,
    r: Result<ZoneMoveOutcome, ZoneError>,
) -> bool {
    match lookup(old.objects@, id) {
        None => r == Err::<ZoneMoveOutcome, ZoneError>(ZoneError::Unzoned { entity: id }) && new == old,
        Some(i) => {
            let o = old.objects@[i];
            match (o.zone, o.controller) {
                (Some(from), Some(p)) => if !old.zones.list(p, from).contains(id) {
                    r == Err::<ZoneMoveOutcome, ZoneError>(ZoneError::NotInZone { entity: id })
                        && new == old
                } else {
                    let full_board = destination == Zone::Play && o.kind == Some(EntityKind::Minion)
                        && board_of(old, p).len() >= old.ruleset.board_limit;
                    let full_hand = destination == Zone::Hand && old.zones.list(p, Zone::Hand).len()
                        >= old.ruleset.hand_limit;
                    let to = if full_hand { Zone::Graveyard } else { destination };
                    let k = choose|k: int| first_index(old.zones.list(p, from), id, k);
                    let removed = old.zones.list(p, from).remove(k);
                    let base = if to == from { removed } else { old.zones.list(p, to) };
                    let slot = match position {
                        None => base.len() as int,
                        Some(q) => if full_hand {
                            base.len() as int
                        } else if to == Zone::Play {
                            board_slot(old.objects@, base, q as int)
                        } else {
                            q as int
                        },
                    };
                    if full_board {
                        r == Ok::<ZoneMoveOutcome, ZoneError>(ZoneMoveOutcome::PreventedByFullZone)
                            && new == old
                    } else if !full_hand && to != Zone::Play && position is Some && position->0 > base.len() {
                        r == Err::<ZoneMoveOutcome, ZoneError>(
                            ZoneError::InvalidPosition { zone: to, position: position->0, length: base.len() as usize },
                        ) && new == old
                    } else {
                        &&& moved_between(old, new, i, p, from, k, to, slot)
                        &&& r == Ok::<ZoneMoveOutcome, ZoneError>(
                            if full_hand {
                                ZoneMoveOutcome::FullZoneRemoval { from }
                            } else {
                                ZoneMoveOutcome::Moved { from, to }
                            },
                        )
                    }
                },
                _ => r == Err::<ZoneMoveOutcome, ZoneError>(ZoneError::Unzoned { entity: id }) && new
                    == old,
            }
        },
    }
}

pub fn move_entity(world: &mut World, id: GameEntityId, destination: Zone, position: Option<usize>) -> (r: Result<
    ZoneMoveOutcome,
    ZoneError,
>)
    ensures
        zone_move(*old(world), *final(world), id, destination, position, r),
{
    let i = match game_entity(&world.objects, id) {
        Some(i) => i,
        None => return Err(ZoneError::Unzoned { entity: id }),
    };
    let (from, p) = match (world.objects[i].zone, world.objects[i].controller) {
        (Some(from), Some(p)) => (from, p),
        _ => return Err(ZoneError::Unzoned { entity: id }),
    };
    let k = match find_in_list(world.zones.entities(p, from), id) {
        Some(k) => k,
        None => return Err(ZoneError::NotInZone { entity: id }),
    };
    let ghost kk = choose|kk: int| first_index(world.zones.list(p, from), id, kk);
    proof {
        assert(first_index(world.zones.list(p, from), id, k as int));
        if kk < k {
            assert(world.zones.list(p, from)[kk] == id);
        } else if k < kk {
            assert(world.zones.list(p, from)[k as int] == id);
        }
    }
    let minion = match world.objects[i].kind {
        Some(EntityKind::Minion) => true,
        _ => false,
    };
    if destination == Zone::Play && minion && board_is_full(world, p) {
        return Ok(ZoneMoveOutcome::PreventedByFullZone);
    }
    let full_hand = destination == Zone::Hand && world.zones.entities(p, Zone::Hand).len() as u64
        >= world.ruleset.hand_limit as u64;
    let to = if full_hand { Zone::Graveyard } else { destination };
    let mut source = copy_ids(world.zones.entities(p, from));
    source.remove(k);
    let mut target = if to == from { copy_ids(&source) } else { copy_ids(world.zones.entities(p, to)) };
    let slot = match position {
        None => target.len(),
        Some(q) => if full_hand {
            target.len()
        } else if to == Zone::Play {
            let s = find_board_slot(&world.objects, &target, q);
            proof {
                lemma_board_slot_bounds(world.objects@, target@, q as int);
            }
            s
        } else {
            if q > target.len() {
                return Err(ZoneError::InvalidPosition { zone: to, position: q, length: target.len() });
            }
            q
        },
    };
    target.insert(slot, id);
    let ghost old_world = *world;
    if to != from {
        world.zones.set_list(p, from, source);
    }
    world.zones.set_list(p, to, target);
    world.objects[i].zone = Some(to);
    proof {
        assert(world.objects@ =~= old_world.objects@.update(i as int, GameObject { zone: Some(to), ..old_world.objects@[i as int] }));
    }
    if full_hand {
        Ok(ZoneMoveOutcome::FullZoneRemoval { from })
    } else {
        Ok(ZoneMoveOutcome::Moved { from, to })
    }
}


/// Whether every entry of `ids` names a distinct object that is in zone `z` under `p`.
pub open spec fn list_agrees(objects: Seq<GameObject>, ids: Seq<GameEntityId>, p: PlayerId, z: Zone) -> bool {
    &&& forall|k: int|
        0 <= k < ids.len() ==> lookup(objects, #[trigger] ids[k]) is Some && objects[lookup(objects, ids[k])->0].zone
            == Some(z) && objects[lookup(objects, ids[k])->0].controller == Some(p)
    &&& forall|a: int, b: int| 0 <= a < b < ids.len() ==> #[trigger] ids[a] != #[trigger] ids[b]
}

/// Whether the object at `i` is listed in the zone it claims, under its controller.
pub open spec fn object_listed(objects: Seq<GameObject>, zones: ZoneIndex, i: int) -> bool {
    match objects[i].zone {
        Some(z) => objects[i].controller is Some && zones.list(objects[i].controller->0, z).contains(objects[i].id),
        None => true,
    }
}

/// Whether the zone lists and the objects agree: every listed object is in that zone under
/// that player, no list repeats an object, and every zoned object is listed where it claims.
pub open spec fn zones_agree(objects: Seq<GameObject>, zones: ZoneIndex) -> bool {
    &&& forall|p: PlayerId, z: Zone| #[trigger] list_agrees(objects, zones.list(p, z), p, z)
    &&& forall|i: int| 0 <= i < objects.len() ==> #[trigger] object_listed(objects, zones, i)
}

fn check_list(objects: &Vec<GameObject>, ids: &Vec<GameEntityId>, p: PlayerId, z: Zone) -> (r: bool)
    ensures
        r == list_agrees(objects@, ids@, p, z),
{
    let mut k: usize = 0;
    while k < ids.len()
        invariant
            k <= ids.len(),
            forall|m: int|
                0 <= m < k ==> lookup(objects@, #[trigger] ids@[m]) is Some && objects@[lookup(objects@, ids@[m])->0].zone
                    == Some(z) && objects@[lookup(objects@, ids@[m])->0].controller == Some(p),
            forall|a: int, b: int| 0 <= a < b < k ==> #[trigger] ids@[a] != #[trigger] ids@[b],
        decreases ids.len() - k,
    {
        let i = match game_entity(objects, ids[k]) {
            Some(i) => i,
            None => return false,
        };
        if objects[i].zone != Some(z) || objects[i].controller != Some(p) {
            return false;
        }
        let mut a: usize = 0;
        while a < k
            invariant
                a <= k < ids.len(),
                forall|m: int| 0 <= m < a ==> ids@[m] != ids@[k as int],
            decreases k - a,
        {
            if ids[a] == ids[k] {
                return false;
            }
            a = a + 1;
        }
        k = k + 1;
    }
    true
}

/// Checks that the zone lists and the objects agree.
pub fn assert_zone_invariants(world: &World) -> (r: Result<(), InvariantViolation>)
    ensures
        r is Ok <==> zones_agree(world.objects@, world.zones),
        r matches Err(e) ==> e is ZoneDisagreement,
{
    let players = [PlayerId::One, PlayerId::Two];
    let zones = [Zone::Deck, Zone::Hand, Zone::Play, Zone::Graveyard, Zone::RemovedFromGame];
    let mut a: usize = 0;
    while a < 2
        invariant
            a <= 2,
            players@ == seq![PlayerId::One, PlayerId::Two],
            zones@ == seq![Zone::Deck, Zone::Hand, Zone::Play, Zone::Graveyard, Zone::RemovedFromGame],
            forall|q: int, z: Zone| 0 <= q < a ==> list_agrees(world.objects@, world.zones.list(players@[q], z), players@[q], z),
        decreases 2 - a,
    {
        let mut b: usize = 0;
        while b < 5
            invariant
                a < 2,
                b <= 5,
                players@ == seq![PlayerId::One, PlayerId::Two],
                zones@ == seq![Zone::Deck, Zone::Hand, Zone::Play, Zone::Graveyard, Zone::RemovedFromGame],
                forall|q: int, z: Zone| 0 <= q < a ==> list_agrees(world.objects@, world.zones.list(players@[q], z), players@[q], z),
                forall|c: int| 0 <= c < b ==> list_agrees(world.objects@, world.zones.list(players@[a as int], zones@[c]), players@[a as int], zones@[c]),
            decreases 5 - b,
        {
            let p = players[a];
            let z = zones[b];
            if !check_list(&world.objects, world.zones.entities(p, z), p, z) {
                proof {
                    assert(!list_agrees(world.objects@, world.zones.list(p, z), p, z));
                }
                return Err(InvariantViolation::ZoneDisagreement(first_listed(world, p, z)));
            }
            b = b + 1;
        }
        proof {
            assert forall|z: Zone| list_agrees(world.objects@, world.zones.list(players@[a as int], z), players@[a as int], z) by {
                match z {
                    Zone::Deck => assert(zones@[0] == z),
                    Zone::Hand => assert(zones@[1] == z),
                    Zone::Play => assert(zones@[2] == z),
                    Zone::Graveyard => assert(zones@[3] == z),
                    Zone::RemovedFromGame => assert(zones@[4] == z),
                }
            }
        }
        a = a + 1;
    }
    proof {
        assert forall|p: PlayerId, z: Zone| #[trigger] list_agrees(world.objects@, world.zones.list(p, z), p, z) by {
            match p {
                PlayerId::One => assert(players@[0] == p),
                PlayerId::Two => assert(players@[1] == p),
            }
        }
    }
    let mut i: usize = 0;
    while i < world.objects.len()
        invariant
            i <= world.objects.len(),
            forall|j: int| 0 <= j < i ==> #[trigger] object_listed(world.objects@, world.zones, j),
        decreases world.objects.len() - i,
    {
        match world.objects[i].zone {
            Some(z) => match world.objects[i].controller {
                Some(p) => {
                    if find_in_list(world.zones.entities(p, z), world.objects[i].id).is_none() {
                        proof {
                            assert(!object_listed(world.objects@, world.zones, i as int));
                        }
                        return Err(InvariantViolation::ZoneDisagreement(world.objects[i].id));
                    }
                },
                None => {
                    proof {
                        assert(!object_listed(world.objects@, world.zones, i as int));
                    }
                    return Err(InvariantViolation::ZoneDisagreement(world.objects[i].id));
                },
            },
            None => {},
        }
        i = i + 1;
    }
    Ok(())
}

/// The first identity on `p`'s list of zone `z`, or identity zero when the list is empty.
fn first_listed(world: &World, p: PlayerId, z: Zone) -> (r: GameEntityId)
    ensures
        r == if world.zones.list(p, z).len() > 0 {
            world.zones.list(p, z)[0]
        } else {
            GameEntityId(0)
        },
{
    let ids = world.zones.entities(p, z);
    if ids.len() > 0 {
        ids[0]
    } else {
        GameEntityId(0)
    }
}


/// A zone move changes nothing but zones: every object keeps all else, and the world all but
/// its objects and zone lists.
pub proof fn lemma_zone_move_frame(
    old: World,
    new: World,
    id: GameEntityId,
    destination: Zone,
    position: Option<usize>,
    r: Result<ZoneMoveOutcome, ZoneError>,
)
    requires
        zone_move(old, new, id, destination, position, r),
    ensures
        new == (World { objects: new.objects, zones: new.zones, ..old }),
        new.objects@.len() == old.objects@.len(),
        forall|j: int|
            0 <= j < old.objects@.len() ==> #[trigger] new.objects@[j] == (GameObject { zone: new.objects@[j].zone, ..old.objects@[j] }),
{
    crate::world::lemma_lookup_some(old.objects@, id);
    if new != old {
        let i = lookup(old.objects@, id)->0;
        let o = old.objects@[i];
        let from = o.zone->0;
        let p = o.controller->0;
        let full_hand = destination == Zone::Hand && old.zones.list(p, Zone::Hand).len() >= old.ruleset.hand_limit;
        let to = if full_hand { Zone::Graveyard } else { destination };
        let k = choose|k: int| first_index(old.zones.list(p, from), id, k);
        assert(new.objects@ == old.objects@.update(i, GameObject { zone: Some(to), ..old.objects@[i] }));
        assert forall|j: int| 0 <= j < old.objects@.len() implies #[trigger] new.objects@[j] == (GameObject {
            zone: new.objects@[j].zone,
            ..old.objects@[j]
        }) by {
            if j == i {
            } else {
            }
        }
    }
}


/// `ids` with the first occurrence of `id` taken out, when it occurs.
pub open spec fn without_first(ids: Seq<GameEntityId>, id: GameEntityId) -> Seq<GameEntityId> {
    if ids.contains(id) {
        ids.remove(choose|k: int| first_index(ids, id, k))
    } else {
        ids
    }
}

/// The first position of `id` on `ids`, or zero when it is absent.
pub open spec fn position_on(ids: Seq<GameEntityId>, id: GameEntityId) -> int {
    if ids.contains(id) {
        choose|k: int| first_index(ids, id, k)
    } else {
        0
    }
}

/// An identity has one first position.
pub proof fn lemma_first_index_unique(ids: Seq<GameEntityId>, id: GameEntityId, k: int)
    requires
        first_index(ids, id, k),
    ensures
        ids.contains(id),
        (choose|j: int| first_index(ids, id, j)) == k,
        position_on(ids, id) == k,
{
    assert(ids[k] == id);
    let j = choose|j: int| first_index(ids, id, j);
    assert(first_index(ids, id, j));
    if j < k {
        assert(ids[j] != id);
    } else if k < j {
        assert(ids[k] != id);
    }
}

/// Objects that agree on identities and kinds agree on the minions among any identities.
pub proof fn lemma_minions_in_frame(a: Seq<GameObject>, b: Seq<GameObject>, ids: Seq<GameEntityId>)
    requires
        a.len() == b.len(),
        forall|j: int| 0 <= j < a.len() ==> (#[trigger] b[j]).id == a[j].id && b[j].kind == a[j].kind,
    ensures
        minions_in(a, ids) == minions_in(b, ids),
    decreases ids.len(),
{
    if ids.len() > 0 {
        lemma_minions_in_frame(a, b, ids.drop_last());
        let id = ids.last();
        crate::world::lemma_lookup_some(a, id);
        crate::world::lemma_lookup_some(b, id);
        if let Some(i) = lookup(a, id) {
            assert(crate::world::first_with_id(b, id, i));
            crate::world::lemma_lookup_first(b, id, i);
        } else if let Some(i) = lookup(b, id) {
            assert(crate::world::first_with_id(a, id, i));
            crate::world::lemma_lookup_first(a, id, i);
        }
    }
}

/// Moving an object in play to the graveyard: when it is on its controller's play list, its
/// first occurrence leaves that list, it joins the end of the graveyard list and its zone becomes
/// the graveyard; otherwise the move is refused and nothing changes.
pub proof fn lemma_move_to_graveyard(
    old: World,
    new: World,
    id: GameEntityId,
    r: Result<ZoneMoveOutcome, ZoneError>,
    i: int,
    p: PlayerId,
)
    requires
        zone_move(old, new, id, Zone::Graveyard, None, r),
        lookup(old.objects@, id) == Some(i),
        old.objects@[i].zone == Some(Zone::Play),
        old.objects@[i].controller == Some(p),
    ensures
        old.zones.list(p, Zone::Play).contains(id) ==> {
            &&& new == (World { objects: new.objects, zones: new.zones, ..old })
            &&& new.objects@ == old.objects@.update(i, GameObject { zone: Some(Zone::Graveyard), ..old.objects@[i] })
            &&& new.zones.list(p, Zone::Play) == without_first(old.zones.list(p, Zone::Play), id)
            &&& new.zones.list(p, Zone::Graveyard) == old.zones.list(p, Zone::Graveyard).push(id)
            &&& forall|q: PlayerId, z: Zone|
                !(q == p && (z == Zone::Play || z == Zone::Graveyard)) ==> #[trigger] new.zones.list(q, z) == old.zones.list(q, z)
            &&& r == Ok::<ZoneMoveOutcome, ZoneError>(ZoneMoveOutcome::Moved { from: Zone::Play, to: Zone::Graveyard })
        },
        !old.zones.list(p, Zone::Play).contains(id) ==> new == old && r is Err,
{
    crate::world::lemma_lookup_some(old.objects@, id);
    if old.zones.list(p, Zone::Play).contains(id) {
        let base = old.zones.list(p, Zone::Graveyard);
        assert(base.insert(base.len() as int, id) =~= base.push(id));
    }
}


/// Whether the object at `j` is on its controller's list of the zone it is in.
pub open spec fn zone_listed(w: World, j: int) -> bool {
    let o = w.objects@[j];
    &&& o.zone is Some
    &&& o.controller is Some
    &&& w.zones.list(o.controller->0, o.zone->0).contains(o.id)
}

/// A move to the end of a zone that is neither play nor the hand succeeds exactly when the object
/// is on its controller's list of its zone, and then changes only its zone among the objects.
pub proof fn lemma_move_to_end(
    old: World,
    new: World,
    id: GameEntityId,
    destination: Zone,
    r: Result<ZoneMoveOutcome, ZoneError>,
    i: int,
)
    requires
        zone_move(old, new, id, destination, None, r),
        destination != Zone::Play,
        destination != Zone::Hand,
        lookup(old.objects@, id) == Some(i),
    ensures
        zone_listed(old, i) ==> new.objects@ == old.objects@.update(i, GameObject { zone: Some(destination), ..old.objects@[i] }),
        !zone_listed(old, i) ==> new == old,
{
    crate::world::lemma_lookup_some(old.objects@, id);
}

/// A move to the end of a zone keeps who else is on each list.
pub proof fn lemma_move_keeps_other_members(
    old: World,
    new: World,
    id: GameEntityId,
    destination: Zone,
    r: Result<ZoneMoveOutcome, ZoneError>,
    x: GameEntityId,
    q: PlayerId,
    z: Zone,
)
    requires
        zone_move(old, new, id, destination, None, r),
        x != id,
    ensures
        new.zones.list(q, z).contains(x) == old.zones.list(q, z).contains(x),
{
    crate::world::lemma_lookup_some(old.objects@, id);
    if new != old {
        let i = lookup(old.objects@, id)->0;
        let o = old.objects@[i];
        let from = o.zone->0;
        let p = o.controller->0;
        let full_hand = destination == Zone::Hand && old.zones.list(p, Zone::Hand).len() >= old.ruleset.hand_limit;
        let to = if full_hand { Zone::Graveyard } else { destination };
        let k = choose|k: int| first_index(old.zones.list(p, from), id, k);
        let list = old.zones.list(p, from);
        lemma_first_index_exists(list, id);
        assert(first_index(list, id, k));
        let removed = list.remove(k);
        assert(removed.contains(x) == list.contains(x)) by {
            if list.contains(x) {
                let m = choose|m: int| 0 <= m < list.len() && list[m] == x;
                assert(m != k);
                if m < k {
                    assert(removed[m] == x);
                } else {
                    assert(removed[m - 1] == x);
                }
            }
            if removed.contains(x) {
                let m = choose|m: int| 0 <= m < removed.len() && removed[m] == x;
                if m < k {
                    assert(list[m] == x);
                } else {
                    assert(list[m + 1] == x);
                }
            }
        }
        let base = if to == from { removed } else { old.zones.list(p, to) };
        assert(base.insert(base.len() as int, id) =~= base.push(id));
        assert(base.push(id).contains(x) == base.contains(x)) by {
            if base.push(id).contains(x) {
                let m = choose|m: int| 0 <= m < base.push(id).len() && base.push(id)[m] == x;
                assert(m < base.len());
                assert(base[m] == x);
            }
            if base.contains(x) {
                let m = choose|m: int| 0 <= m < base.len() && base[m] == x;
                assert(base.push(id)[m] == x);
            }
        }
    }
}


/// An identity that occurs has a first position.
pub proof fn lemma_first_index_exists(ids: Seq<GameEntityId>, id: GameEntityId)
    requires
        ids.contains(id),
    ensures
        exists|k: int| first_index(ids, id, k),
    decreases ids.len(),
{
    if ids[0] == id {
        assert(first_index(ids, id, 0));
    } else {
        let rest = ids.drop_first();
        let m = choose|m: int| 0 <= m < ids.len() && ids[m] == id;
        assert(rest[m - 1] == id);
        lemma_first_index_exists(rest, id);
        let k = choose|k: int| first_index(rest, id, k);
        assert forall|j: int| 0 <= j < k + 1 implies ids[j] != id by {
            if j > 0 {
                assert(ids[j] == rest[j - 1]);
            }
        }
        assert(first_index(ids, id, k + 1));
    }
}

} // verus!
