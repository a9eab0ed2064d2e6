//! A checkpoint of a restored world is the checkpoint the world was restored from.
use vstd::prelude::*;

use crate::aura::{lemma_sort_keeps_members, unique_ids};
use crate::checkpoint::{
    checkpoint_of, object_keys, position_at, restored_from, restored_list, same_checkpoint, same_object, zone_keys,
    zoned_position, SimulationCheckpoint,
};
use crate::snapshot::position_in;
use crate::sorting::{
    key_le, lemma_sort_no_duplicates, lemma_sort_of_sorted, lemma_sort_sorted, sort_keyed, sorted_keys, Keyed,
};
use crate::types::{GameEntityId, PlayerId, Zone};
use crate::world::{lookup, GameObject, World};
use crate::zone::{first_index, list_agrees, object_listed, zones_agree};

verus! {

/// The key a restored zone list gives its `j`th entry.
pub open spec fn list_key(list: Seq<GameEntityId>, j: int) -> Keyed<GameEntityId> {
    Keyed { order: j as u64, id: list[j].0, value: list[j] }
}

/// The key zone restoration gives entity `m` of a checkpoint.
pub open spec fn entity_key(c: SimulationCheckpoint, m: int) -> Keyed<GameEntityId> {
    Keyed {
        order: match position_at(c, m) {
            Some(x) => x,
            None => 0,
        },
        id: c.entities@[m].id.0,
        value: c.entities@[m].id,
    }
}

proof fn lemma_list_bounded(zones: crate::world::ZoneIndex, p: PlayerId, z: Zone)
    ensures
        zones.list(p, z).len() <= usize::MAX,
{
    let pz = match p {
        PlayerId::One => zones.one,
        PlayerId::Two => zones.two,
    };
    match z {
        Zone::Deck => assert(pz.deck.len() == pz.deck@.len()),
        Zone::Hand => assert(pz.hand.len() == pz.hand@.len()),
        Zone::Play => assert(pz.play.len() == pz.play@.len()),
        Zone::Graveyard => assert(pz.graveyard.len() == pz.graveyard@.len()),
        Zone::RemovedFromGame => assert(pz.removed.len() == pz.removed@.len()),
    }
}

/// In a list without repeats, the position of an entry is its index.
proof fn lemma_position_of_distinct(list: Seq<GameEntityId>, j: int)
    requires
        0 <= j < list.len(),
        forall|a: int, b: int| 0 <= a < b < list.len() ==> #[trigger] list[a] != #[trigger] list[b],
    ensures
        position_in(list, list[j]) == j,
{
    let id = list[j];
    assert(first_index(list, id, j)) by {
        assert forall|k: int| 0 <= k < j implies list[k] != id by {
            assert(list[k] != list[j]);
        }
    }
    assert(list.contains(id));
    let q = position_in(list, id);
    assert(first_index(list, id, q));
    if q < j {
        assert(list[q] != list[j]);
    } else if j < q {
        assert(list[j] != id);
    }
}

proof fn lemma_object_keys_at(objects: Seq<GameObject>, n: int)
    requires
        0 <= n <= objects.len(),
        n <= usize::MAX,
    ensures
        object_keys(objects, n).len() == n,
        forall|k: int|
            0 <= k < n ==> #[trigger] object_keys(objects, n)[k] == (Keyed {
                order: objects[k].id.0,
                id: objects[k].id.0,
                value: k as usize,
            }),
    decreases n,
{
    if n > 0 {
        lemma_object_keys_at(objects, n - 1);
        let prev = object_keys(objects, n - 1);
        let cur = object_keys(objects, n);
        assert forall|k: int| 0 <= k < n implies #[trigger] cur[k] == (Keyed {
            order: objects[k].id.0,
            id: objects[k].id.0,
            value: k as usize,
        }) by {
            if k < n - 1 {
                assert(cur[k] == prev[k]);
            }
        }
    }
}

/// Membership in the keys of a zone: each key belongs to an entity of that zone and player,
/// and every such entity has its key there.
proof fn lemma_zone_keys_members(c: SimulationCheckpoint, p: PlayerId, z: Zone, n: int)
    requires
        0 <= n <= c.entities@.len(),
    ensures
        forall|x: Keyed<GameEntityId>| #[trigger] zone_keys(c, p, z, n).contains(x) ==> exists|m: int|
            0 <= m < n && c.entities@[m].zone == Some(z) && c.entities@[m].controller == Some(p) && x
                == #[trigger] entity_key(c, m),
        forall|m: int|
            0 <= m < n && c.entities@[m].zone == Some(z) && c.entities@[m].controller == Some(p) ==> zone_keys(
                c,
                p,
                z,
                n,
            ).contains(#[trigger] entity_key(c, m)),
    decreases n,
{
    if n > 0 {
        lemma_zone_keys_members(c, p, z, n - 1);
        let prev = zone_keys(c, p, z, n - 1);
        let cur = zone_keys(c, p, z, n);
        let e = c.entities@[n - 1];
        if e.zone == Some(z) && e.controller == Some(p) {
            assert(cur == prev.push(entity_key(c, n - 1)));
            assert forall|x: Keyed<GameEntityId>| #[trigger] cur.contains(x) implies exists|m: int|
                0 <= m < n && c.entities@[m].zone == Some(z) && c.entities@[m].controller == Some(p) && x
                    == #[trigger] entity_key(c, m) by {
                let i = choose|i: int| 0 <= i < cur.len() && cur[i] == x;
                if i < prev.len() {
                    assert(prev[i] == x);
                    assert(prev.contains(x));
                } else {
                    assert(x == entity_key(c, n - 1));
                }
            }
            assert forall|m: int|
                0 <= m < n && c.entities@[m].zone == Some(z) && c.entities@[m].controller == Some(p) implies cur.contains(
                #[trigger] entity_key(c, m),
            ) by {
                if m < n - 1 {
                    assert(prev.contains(entity_key(c, m)));
                    let i = choose|i: int| 0 <= i < prev.len() && prev[i] == entity_key(c, m);
                    assert(cur[i] == prev[i]);
                } else {
                    assert(cur[prev.len() as int] == entity_key(c, m));
                }
            }
        } else {
            assert(cur == prev);
        }
    }
}

/// The keys of a zone repeat nothing when the entities' identities are distinct.
proof fn lemma_zone_keys_no_duplicates(c: SimulationCheckpoint, p: PlayerId, z: Zone, n: int)
    requires
        0 <= n <= c.entities@.len(),
        unique_ids(c.entities@),
    ensures
        zone_keys(c, p, z, n).no_duplicates(),
    decreases n,
{
    if n > 0 {
        lemma_zone_keys_no_duplicates(c, p, z, n - 1);
        lemma_zone_keys_members(c, p, z, n - 1);
        let prev = zone_keys(c, p, z, n - 1);
        let e = c.entities@[n - 1];
        if e.zone == Some(z) && e.controller == Some(p) {
            let x = entity_key(c, n - 1);
            let cur = prev.push(x);
            assert(!prev.contains(x)) by {
                if prev.contains(x) {
                    let m = choose|m: int|
                        0 <= m < n - 1 && c.entities@[m].zone == Some(z) && c.entities@[m].controller == Some(p) && x
                            == #[trigger] entity_key(c, m);
                    assert(c.entities@[m].id != c.entities@[n - 1].id);
                }
            }
            assert forall|i: int, j: int| 0 <= i < cur.len() && 0 <= j < cur.len() && i != j implies cur[i] != cur[j] by {
                if i == prev.len() {
                    assert(prev.contains(cur[j]));
                } else if j == prev.len() {
                    assert(prev.contains(cur[i]));
                } else {
                    assert(cur[i] == prev[i] && cur[j] == prev[j]);
                }
            }
        }
    }
}

/// A sorted sequence of keys without repeats, holding exactly the keys of the entries of
/// `list`, is those keys in list order.
proof fn lemma_sorted_keys_are_list(s: Seq<Keyed<GameEntityId>>, list: Seq<GameEntityId>)
    requires
        list.len() <= u64::MAX,
        sorted_keys(s),
        s.no_duplicates(),
        forall|i: int| 0 <= i < s.len() ==> (#[trigger] s[i]).order < list.len() && s[i] == list_key(list, s[i].order as int),
        forall|j: int| 0 <= j < list.len() ==> s.contains(#[trigger] list_key(list, j)),
    ensures
        s.len() == list.len(),
        forall|i: int| 0 <= i < s.len() ==> #[trigger] s[i] == list_key(list, i),
{
    assert forall|i: int, j: int| 0 <= i < j < s.len() implies (#[trigger] s[i]).order < (#[trigger] s[j]).order by {
        assert(key_le(s[i], s[j]));
        if s[i].order == s[j].order {
            assert(s[i] == list_key(list, s[i].order as int));
            assert(s[j] == list_key(list, s[j].order as int));
        }
    }
    lemma_sorted_keys_prefix(s, list, list.len() as int);
    if s.len() > list.len() {
        let n = list.len() as int;
        if n == 0 {
            assert(s[0].order < list.len());
        } else {
            assert(s[n - 1].order < s[n].order);
        }
    }
}

proof fn lemma_sorted_keys_prefix(s: Seq<Keyed<GameEntityId>>, list: Seq<GameEntityId>, k: int)
    requires
        0 <= k <= list.len(),
        list.len() <= u64::MAX,
        forall|i: int, j: int| 0 <= i < j < s.len() ==> (#[trigger] s[i]).order < (#[trigger] s[j]).order,
        forall|i: int| 0 <= i < s.len() ==> (#[trigger] s[i]).order < list.len() && s[i] == list_key(list, s[i].order as int),
        forall|j: int| 0 <= j < list.len() ==> s.contains(#[trigger] list_key(list, j)),
    ensures
        k <= s.len(),
        forall|i: int| 0 <= i < k ==> (#[trigger] s[i]).order == i,
    decreases k,
{
    if k > 0 {
        lemma_sorted_keys_prefix(s, list, k - 1);
        let t = k - 1;
        assert(s.contains(list_key(list, t)));
        let q = choose|q: int| 0 <= q < s.len() && s[q] == list_key(list, t);
        assert(s[q].order == t);
        if q < t {
            assert(s[q].order == q);
        }
        if q > t {
            assert(s[t].order < s[q].order);
            if t > 0 {
                assert(s[t - 1].order < s[t].order);
            }
        }
    }
}

/// What `checkpoint_of` says of the objects' keys: sorting keeps exactly their members, each
/// member is the key of the object at its value, and the sorted keys repeat nothing.
proof fn lemma_checkpoint_keys(w: World)
    ensures
        ({
            let all = object_keys(w.objects@, w.objects@.len() as int);
            let keys = sort_keyed(all);
            &&& keys.len() == w.objects@.len()
            &&& forall|x: Keyed<usize>| #[trigger] keys.contains(x) ==> x.value < w.objects@.len() && x == (Keyed {
                order: w.objects@[x.value as int].id.0,
                id: w.objects@[x.value as int].id.0,
                value: x.value,
            })
            &&& forall|m: int| 0 <= m < w.objects@.len() ==> keys.contains(#[trigger] all[m])
            &&& forall|m: int| 0 <= m < w.objects@.len() ==> (#[trigger] all[m]).value == m
            &&& keys.no_duplicates()
            &&& sorted_keys(keys)
        }),
{
    let n = w.objects@.len() as int;
    let all = object_keys(w.objects@, n);
    assert(n <= usize::MAX) by {
        assert(w.objects.len() == w.objects@.len());
    }
    lemma_object_keys_at(w.objects@, n);
    lemma_sort_keeps_members(all);
    lemma_sort_sorted(all);
    assert(all.no_duplicates()) by {
        assert forall|i: int, j: int| 0 <= i < all.len() && 0 <= j < all.len() && i != j implies all[i] != all[j] by {
            assert(all[i].value == i as usize);
            assert(all[j].value == j as usize);
        }
    }
    lemma_sort_no_duplicates(all);
    let keys = sort_keyed(all);
    assert forall|x: Keyed<usize>| #[trigger] keys.contains(x) implies x.value < w.objects@.len() && x == (Keyed {
        order: w.objects@[x.value as int].id.0,
        id: w.objects@[x.value as int].id.0,
        value: x.value,
    }) by {
        assert(all.contains(x));
        let m = choose|m: int| 0 <= m < all.len() && all[m] == x;
        assert(all[m].value == m as usize);
    }
    assert forall|m: int| 0 <= m < w.objects@.len() implies keys.contains(#[trigger] all[m]) by {
        assert(all.contains(all[m]));
    }
}

/// The entities of a checkpoint have distinct identities, in increasing order.
proof fn lemma_checkpoint_ids_increase(w: World, c: SimulationCheckpoint)
    requires
        unique_ids(w.objects@),
        checkpoint_of(w, c),
    ensures
        unique_ids(c.entities@),
        forall|i: int, j: int| 0 <= i < j < c.entities@.len() ==> (#[trigger] c.entities@[i]).id.0 < (#[trigger] c.entities@[j]).id.0,
{
    lemma_checkpoint_keys(w);
    let keys = sort_keyed(object_keys(w.objects@, w.objects@.len() as int));
    assert forall|i: int| 0 <= i < c.entities@.len() implies (#[trigger] c.entities@[i]).id.0 == keys[i].order by {
        assert(same_object(c.entities@[i], w.objects@[keys[i].value as int]));
        assert(keys.contains(keys[i]));
    }
    assert forall|i: int, j: int| 0 <= i < j < c.entities@.len() implies (#[trigger] c.entities@[i]).id.0 < (#[trigger] c.entities@[j]).id.0 by {
        assert(key_le(keys[i], keys[j]));
        assert(keys.contains(keys[i]));
        assert(keys.contains(keys[j]));
        assert(keys[i] != keys[j]);
        if keys[i].order == keys[j].order {
            assert(keys[i].value != keys[j].value);
            assert(w.objects@[keys[i].value as int].id != w.objects@[keys[j].value as int].id);
        }
    }
}

/// A restored zone list is the list the checkpointed world had.
proof fn lemma_restored_list(w: World, c: SimulationCheckpoint, p: PlayerId, z: Zone)
    requires
        unique_ids(w.objects@),
        zones_agree(w.objects@, w.zones),
        checkpoint_of(w, c),
    ensures
        restored_list(c, p, z) == w.zones.list(p, z),
{
    let list = w.zones.list(p, z);
    let n = c.entities@.len() as int;
    let zk = zone_keys(c, p, z, n);
    let s = sort_keyed(zk);
    let keys = sort_keyed(object_keys(w.objects@, w.objects@.len() as int));
    let all = object_keys(w.objects@, w.objects@.len() as int);
    lemma_checkpoint_keys(w);
    lemma_checkpoint_ids_increase(w, c);
    lemma_zone_keys_members(c, p, z, n);
    lemma_zone_keys_no_duplicates(c, p, z, n);
    lemma_sort_keeps_members(zk);
    lemma_sort_sorted(zk);
    lemma_sort_no_duplicates(zk);
    lemma_list_bounded(w.zones, p, z);
    assert(list_agrees(w.objects@, list, p, z));
    assert forall|i: int| 0 <= i < s.len() implies (#[trigger] s[i]).order < list.len() && s[i] == list_key(
        list,
        s[i].order as int,
    ) by {
        assert(s.contains(s[i]));
        assert(zk.contains(s[i]));
        let m = choose|m: int|
            0 <= m < n && c.entities@[m].zone == Some(z) && c.entities@[m].controller == Some(p) && s[i]
                == #[trigger] entity_key(c, m);
        let v = keys[m].value as int;
        assert(keys.contains(keys[m]));
        assert(same_object(c.entities@[m], w.objects@[v]));
        assert(object_listed(w.objects@, w.zones, v));
        let id = c.entities@[m].id;
        assert(list.contains(id));
        let j = choose|j: int| 0 <= j < list.len() && list[j] == id;
        lemma_position_of_distinct(list, j);
        assert(c.zone_positions@[m] == zoned_position(w, w.objects@[v]));
        assert(s[i].order == j);
    }
    assert forall|j: int| 0 <= j < list.len() implies s.contains(#[trigger] list_key(list, j)) by {
        let id = list[j];
        let v = lookup(w.objects@, id)->0;
        crate::world::lemma_lookup_some(w.objects@, id);
        assert(keys.contains(all[v]));
        let m = choose|m: int| 0 <= m < keys.len() && keys[m] == all[v];
        assert(keys[m].value == v);
        assert(same_object(c.entities@[m], w.objects@[v]));
        assert(zk.contains(entity_key(c, m)));
        assert(c.zone_positions@[m] == zoned_position(w, w.objects@[v]));
        lemma_position_of_distinct(list, j);
        assert(entity_key(c, m) == list_key(list, j));
        assert(s.contains(entity_key(c, m)));
    }
    lemma_sorted_keys_are_list(s, list);
    assert(restored_list(c, p, z) =~= list);
}

/// Restoring a checkpoint of a world whose identities are distinct and whose zone lists agree
/// with its objects, then checkpointing the restored world, gives back the same checkpoint.
pub proof fn law_checkpoint_restores_exactly(w: World, c: SimulationCheckpoint, restored: World, again: SimulationCheckpoint)
    requires
        unique_ids(w.objects@),
        zones_agree(w.objects@, w.zones),
        checkpoint_of(w, c),
        restored_from(c, restored),
        checkpoint_of(restored, again),
    ensures
        same_checkpoint(again, c),
{
    let n = c.entities@.len() as int;
    lemma_checkpoint_ids_increase(w, c);
    let all2 = object_keys(restored.objects@, n);
    assert(n <= usize::MAX) by {
        assert(restored.objects.len() == restored.objects@.len());
    }
    lemma_checkpoint_keys(w);
    lemma_object_keys_at(restored.objects@, n);
    assert(sorted_keys(all2)) by {
        assert forall|i: int, j: int| 0 <= i < j < all2.len() implies key_le(#[trigger] all2[i], #[trigger] all2[j]) by {
            assert(c.entities@[i].id.0 < c.entities@[j].id.0);
        }
    }
    lemma_sort_of_sorted(all2);
    let keys = sort_keyed(object_keys(w.objects@, w.objects@.len() as int));
    assert forall|k: int| 0 <= k < n implies same_object(#[trigger] again.entities@[k], c.entities@[k])
        && again.zone_positions@[k] == c.zone_positions@[k] by {
        assert(all2[k].value == k);
        assert(same_object(again.entities@[k], restored.objects@[k]));
        assert(keys.contains(keys[k]));
        let o = w.objects@[keys[k].value as int];
        assert(same_object(c.entities@[k], o));
        match (o.zone, o.controller) {
            (Some(zz), Some(pp)) => {
                lemma_restored_list(w, c, pp, zz);
                assert(restored.zones.list(pp, zz) == restored_list(c, pp, zz));
            },
            _ => {},
        }
    }
    assert forall|k: int| 0 <= k < n implies #[trigger] again.zone_positions@[k] == c.zone_positions@[k] by {
        assert(same_object(again.entities@[k], c.entities@[k]));
    }
    assert(again.zone_positions@.len() == n);
    assert(c.zone_positions@.len() == n);
    assert(again.zone_positions@ =~= c.zone_positions@);
}


/// Two checkpoints of one world record the same game.
proof fn lemma_checkpoint_unique(w: World, a: SimulationCheckpoint, b: SimulationCheckpoint)
    requires
        checkpoint_of(w, a),
        checkpoint_of(w, b),
    ensures
        same_checkpoint(a, b),
{
    let keys = sort_keyed(object_keys(w.objects@, w.objects@.len() as int));
    lemma_checkpoint_keys(w);
    assert forall|k: int| 0 <= k < a.entities@.len() implies same_object(#[trigger] a.entities@[k], b.entities@[k])
        && a.zone_positions@[k] == b.zone_positions@[k] by {
        assert(keys.contains(keys[k]));
        assert(same_object(a.entities@[k], w.objects@[keys[k].value as int]));
        assert(same_object(b.entities@[k], w.objects@[keys[k].value as int]));
    }
    assert forall|k: int| 0 <= k < a.zone_positions@.len() implies #[trigger] a.zone_positions@[k] == b.zone_positions@[k] by {
        assert(same_object(a.entities@[k], b.entities@[k]));
    }
    assert(a.zone_positions@ =~= b.zone_positions@);
    lemma_same_stack_alike(a.resolution.stack@, b.resolution.stack@, w.resolution.stack@);
}

proof fn lemma_same_stack_alike(
    a: Seq<crate::operations::StackedResolutionOp>,
    b: Seq<crate::operations::StackedResolutionOp>,
    m: Seq<crate::operations::StackedResolutionOp>,
)
    requires
        crate::checkpoint::same_stack(a, m),
        crate::checkpoint::same_stack(b, m),
    ensures
        crate::checkpoint::same_stack(a, b),
{
    assert forall|k: int| 0 <= k < a.len() implies (#[trigger] a[k]).id == b[k].id && a[k].operation@ == b[k].operation@ by {
        assert(a[k].id == m[k].id);
        assert(b[k].id == m[k].id);
    }
}

/// Recording the same game is transitive.
proof fn lemma_same_checkpoint_trans(a: SimulationCheckpoint, b: SimulationCheckpoint, c: SimulationCheckpoint)
    requires
        same_checkpoint(a, b),
        same_checkpoint(b, c),
    ensures
        same_checkpoint(a, c),
{
    assert forall|k: int| 0 <= k < a.entities@.len() implies same_object(#[trigger] a.entities@[k], c.entities@[k]) by {
        assert(same_object(a.entities@[k], b.entities@[k]));
        assert(same_object(b.entities@[k], c.entities@[k]));
    }
    assert forall|k: int| 0 <= k < a.resolution.stack@.len() implies (#[trigger] a.resolution.stack@[k]).id
        == c.resolution.stack@[k].id && a.resolution.stack@[k].operation@ == c.resolution.stack@[k].operation@ by {
        assert(a.resolution.stack@[k].id == b.resolution.stack@[k].id);
        assert(b.resolution.stack@[k].id == c.resolution.stack@[k].id);
    }
}

/// A world restored from a checkpoint of `w` (a fork of `w`) checkpoints exactly as `w` does,
/// when `w`'s identities are distinct and its zone lists agree with its objects.
pub proof fn law_fork_checkpoints_alike(
    w: World,
    c: SimulationCheckpoint,
    fork: World,
    of_original: SimulationCheckpoint,
    of_fork: SimulationCheckpoint,
)
    requires
        unique_ids(w.objects@),
        zones_agree(w.objects@, w.zones),
        checkpoint_of(w, c),
        restored_from(c, fork),
        checkpoint_of(w, of_original),
        checkpoint_of(fork, of_fork),
    ensures
        same_checkpoint(of_fork, of_original),
{
    law_checkpoint_restores_exactly(w, c, fork, of_fork);
    lemma_checkpoint_unique(w, c, of_original);
    lemma_same_checkpoint_trans(of_fork, c, of_original);
}

} // verus!
