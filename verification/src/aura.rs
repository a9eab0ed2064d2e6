//! Auras and continuous effects: who they reach, what they add up to, and the aura caches.
use vstd::prelude::*;

use crate::enchantment::{cache_of, play_order_or_zero, recalculate_stats, stats_result};
use crate::trace::{trace_view, TraceEntry, TraceEntryView};
use crate::sorting::{insert_keyed, sort_keyed, Keyed};
use crate::types::{EntityKind, GameEntityId, Keyword, PlayerId, Zone};
use crate::world::{
    lookup, game_entity, sat_add, sat_add_i32, AuraApplication, AuraCategory, AuraModifier, AuraTarget,
    ContinuousEffectDefinition, ContinuousModifier, GameObject, PlayerAudience,
};

verus! {

/// Whether an aura of `provider` (controlled by `controller`) with selector `selector` reaches
/// `target`.
pub open spec fn aura_reaches(
    selector: AuraTarget,
    provider: GameEntityId,
    controller: PlayerId,
    target: GameEntityId,
    target_controller: PlayerId,
    target_kind: EntityKind,
) -> bool {
    let friendly = controller == target_controller;
    let minion = target_kind == EntityKind::Minion;
    let character = target_kind == EntityKind::Hero || target_kind == EntityKind::Minion;
    let player = target_kind == EntityKind::Player;
    let other = provider != target;
    match selector {
        AuraTarget::FriendlyMinions => friendly && minion,
        AuraTarget::OtherFriendlyMinions => friendly && minion && other,
        AuraTarget::EnemyMinions => !friendly && minion,
        AuraTarget::AllMinions => minion,
        AuraTarget::FriendlyCharacters => friendly && character,
        AuraTarget::OtherFriendlyCharacters => friendly && character && other,
        AuraTarget::EnemyCharacters => !friendly && character,
        AuraTarget::AllCharacters => character,
        AuraTarget::ControllerPlayer => friendly && player,
        AuraTarget::OpponentPlayer => !friendly && player,
        AuraTarget::BothPlayers => player,
    }
}

/// What the aura selectors mean: a friendly selector only ever reaches objects of the provider's
/// controller and an enemy one only objects of the other player; minion selectors reach only
/// minions, character selectors only heroes and minions, player selectors only players; an
/// "other" selector never reaches the provider itself. The "all" and "both" selectors reach
/// every object of their kind, which is exactly what the friendly and the enemy selector of that
/// kind reach together.
pub proof fn law_aura_selectors(
    provider: GameEntityId,
    controller: PlayerId,
    target: GameEntityId,
    target_controller: PlayerId,
    target_kind: EntityKind,
)
    ensures
        ({
            let reaches = |s: AuraTarget| aura_reaches(s, provider, controller, target, target_controller, target_kind);
            let friendly = target_controller == controller;
            let minion = target_kind == EntityKind::Minion;
            let character = target_kind == EntityKind::Minion || target_kind == EntityKind::Hero;
            let player = target_kind == EntityKind::Player;
            &&& reaches(AuraTarget::FriendlyMinions) ==> friendly && minion
            &&& reaches(AuraTarget::OtherFriendlyMinions) ==> friendly && minion && target != provider
            &&& reaches(AuraTarget::EnemyMinions) ==> !friendly && minion
            &&& reaches(AuraTarget::FriendlyCharacters) ==> friendly && character
            &&& reaches(AuraTarget::OtherFriendlyCharacters) ==> friendly && character && target != provider
            &&& reaches(AuraTarget::EnemyCharacters) ==> !friendly && character
            &&& reaches(AuraTarget::ControllerPlayer) ==> friendly && player
            &&& reaches(AuraTarget::OpponentPlayer) ==> !friendly && player
            &&& reaches(AuraTarget::AllMinions) <==> minion
            &&& reaches(AuraTarget::AllCharacters) <==> character
            &&& reaches(AuraTarget::BothPlayers) <==> player
            &&& reaches(AuraTarget::AllMinions) <==> (reaches(AuraTarget::FriendlyMinions) || reaches(AuraTarget::EnemyMinions))
            &&& reaches(AuraTarget::AllCharacters) <==> (reaches(AuraTarget::FriendlyCharacters) || reaches(
                AuraTarget::EnemyCharacters,
            ))
            &&& reaches(AuraTarget::BothPlayers) <==> (reaches(AuraTarget::ControllerPlayer) || reaches(
                AuraTarget::OpponentPlayer,
            ))
            &&& target != provider ==> (reaches(AuraTarget::OtherFriendlyMinions) <==> reaches(AuraTarget::FriendlyMinions))
            &&& target != provider ==> (reaches(AuraTarget::OtherFriendlyCharacters) <==> reaches(
                AuraTarget::FriendlyCharacters,
            ))
            &&& target == provider ==> !reaches(AuraTarget::OtherFriendlyMinions) && !reaches(
                AuraTarget::OtherFriendlyCharacters,
            )
        }),
{
}

/// Whether an aura of `provider` with selector `selector` reaches `target`.
pub fn aura_matches(
    selector: AuraTarget,
    provider: GameEntityId,
    controller: PlayerId,
    target: GameEntityId,
    target_controller: PlayerId,
    target_kind: EntityKind,
) -> (r: bool)
    ensures
        r == aura_reaches(selector, provider, controller, target, target_controller, target_kind),
{
    let friendly = controller == target_controller;
    let minion = target_kind == EntityKind::Minion;
    let character = target_kind == EntityKind::Hero || target_kind == EntityKind::Minion;
    let player = target_kind == EntityKind::Player;
    let other = provider != target;
    match selector {
        AuraTarget::FriendlyMinions => friendly && minion,
        AuraTarget::OtherFriendlyMinions => friendly && minion && other,
        AuraTarget::EnemyMinions => !friendly && minion,
        AuraTarget::AllMinions => minion,
        AuraTarget::FriendlyCharacters => friendly && character,
        AuraTarget::OtherFriendlyCharacters => friendly && character && other,
        AuraTarget::EnemyCharacters => !friendly && character,
        AuraTarget::AllCharacters => character,
        AuraTarget::ControllerPlayer => friendly && player,
        AuraTarget::OpponentPlayer => !friendly && player,
        AuraTarget::BothPlayers => player,
    }
}

/// Whether the continuous effects of `objects[i]` are active: an attached source follows the
/// object it is attached to, any other source must itself be in play.
pub open spec fn source_active(objects: Seq<GameObject>, i: int) -> bool {
    match objects[i].attached_to {
        Some(t) => match lookup(objects, t) {
            Some(j) => objects[j].zone == Some(Zone::Play),
            None => false,
        },
        None => objects[i].zone == Some(Zone::Play),
    }
}

/// Whether the continuous effects of `objects[i]` are active.
pub fn continuous_source_is_active(objects: &Vec<GameObject>, i: usize) -> (r: bool)
    requires
        i < objects@.len(),
    ensures
        r == source_active(objects@, i as int),
{
    match objects[i].attached_to {
        Some(t) => match game_entity(objects, t) {
            Some(j) => objects[j].zone == Some(Zone::Play),
            None => false,
        },
        None => objects[i].zone == Some(Zone::Play),
    }
}

/// Whether `objects[i]` has `keyword`, counting immunity granted by an aura.
pub open spec fn keyword_held(objects: Seq<GameObject>, i: int, keyword: Keyword) -> bool {
    ||| (objects[i].keywords matches Some(k) && k.has(keyword))
    ||| (keyword == Keyword::Immune && exists|j: int|
        0 <= j < cache_of(objects[i].other_aura_cache).len()
            && (#[trigger] cache_of(objects[i].other_aura_cache)[j]).modifier == AuraModifier::Immune)
}

/// Whether `objects[i]` has `keyword`, counting immunity granted by an aura.
pub fn has_keyword(objects: &Vec<GameObject>, i: usize, keyword: Keyword) -> (r: bool)
    requires
        i < objects@.len(),
    ensures
        r == keyword_held(objects@, i as int, keyword),
{
    if let Some(k) = &objects[i].keywords {
        if k.contains(keyword) {
            return true;
        }
    }
    if !(keyword == Keyword::Immune) {
        return false;
    }
    match &objects[i].other_aura_cache {
        None => false,
        Some(cache) => {
            let mut j: usize = 0;
            while j < cache.len()
                invariant
                    j <= cache.len(),
                    keyword == Keyword::Immune,
                    cache@ == cache_of(objects@[i as int].other_aura_cache),
                    forall|m: int| 0 <= m < j ==> (#[trigger] cache@[m]).modifier != AuraModifier::Immune,
                decreases cache.len() - j,
            {
                if cache[j].modifier == AuraModifier::Immune {
                    proof {
                        let c = cache_of(objects@[i as int].other_aura_cache);
                        assert(c[j as int].modifier == AuraModifier::Immune);
                    }
                    return true;
                }
                j = j + 1;
            }
            false
        },
    }
}

/// Whether a continuous effect of a source controlled by `controller` reaches `player`.
pub open spec fn recipient_matches(recipients: PlayerAudience, controller: PlayerId, player: PlayerId) -> bool {
    match recipients {
        PlayerAudience::Controller => player == controller,
        PlayerAudience::Opponent => player == controller.spec_opponent(),
        PlayerAudience::Both => true,
    }
}

/// The spell damage bonus the definitions add to `total` for `player`.
pub open spec fn definitions_total(
    defs: Seq<ContinuousEffectDefinition>,
    controller: PlayerId,
    player: PlayerId,
    total: i32,
) -> i32
    decreases defs.len(),
{
    if defs.len() == 0 {
        total
    } else {
        let acc = definitions_total(defs.drop_last(), controller, player, total);
        let d = defs.last();
        if recipient_matches(d.recipients, controller, player) {
            match d.modifier {
                ContinuousModifier::SpellDamage(amount) => sat_add(acc, amount),
            }
        } else {
            acc
        }
    }
}

/// The positions of the first `n` objects that contribute spell damage, keyed by play order
/// and identity.
pub open spec fn spell_providers(objects: Seq<GameObject>, n: int) -> Seq<Keyed<usize>>
    decreases n,
{
    if n <= 0 {
        Seq::empty()
    } else {
        let prev = spell_providers(objects, n - 1);
        let o = objects[n - 1];
        if !o.silenced && source_active(objects, n - 1) && o.controller is Some
            && o.runtime_continuous_effects is Some {
            prev.push(Keyed { order: play_order_or_zero(o.play_order), id: o.id.0, value: (n - 1) as usize })
        } else {
            prev
        }
    }
}

/// The spell damage total over the sorted providers.
pub open spec fn providers_total(objects: Seq<GameObject>, s: Seq<Keyed<usize>>, player: PlayerId) -> i32
    decreases s.len(),
{
    if s.len() == 0 {
        0
    } else {
        let acc = providers_total(objects, s.drop_last(), player);
        let o = objects[s.last().value as int];
        match (o.runtime_continuous_effects, o.controller) {
            (Some(defs), Some(controller)) => definitions_total(defs@, controller, player, acc),
            _ => acc,
        }
    }
}

/// The spell damage `player` currently has: the spell damage amounts of every unsilenced active
/// source that reaches the player, summed in play order and saturating at the limits of `i32`.
pub open spec fn spell_damage_of(objects: Seq<GameObject>, player: PlayerId) -> i32 {
    providers_total(objects, sort_keyed(spell_providers(objects, objects.len() as int)), player)
}

fn add_definitions(defs: &Vec<ContinuousEffectDefinition>, controller: PlayerId, player: PlayerId, total: i32) -> (r: i32)
    ensures
        r == definitions_total(defs@, controller, player, total),
{
    let mut acc = total;
    let mut k: usize = 0;
    while k < defs.len()
        invariant
            k <= defs.len(),
            acc == definitions_total(defs@.subrange(0, k as int), controller, player, total),
        decreases defs.len() - k,
    {
        let d = defs[k];
        proof {
            assert(defs@.subrange(0, k + 1 as int).drop_last() =~= defs@.subrange(0, k as int));
        }
        let matches = match d.recipients {
            PlayerAudience::Controller => player == controller,
            PlayerAudience::Opponent => player == controller.opponent(),
            PlayerAudience::Both => true,
        };
        if matches {
            match d.modifier {
                ContinuousModifier::SpellDamage(amount) => {
                    acc = sat_add_i32(acc, amount);
                },
            }
        }
        k = k + 1;
    }
    assert(defs@.subrange(0, defs@.len() as int) =~= defs@);
    acc
}

/// Whether every value of `s` is below `bound`.
pub open spec fn values_below(s: Seq<Keyed<usize>>, bound: int) -> bool {
    forall|k: int| 0 <= k < s.len() ==> (#[trigger] s[k]).value < bound
}

/// Sorted insertion keeps values below a bound.
pub proof fn lemma_insert_values_below(s: Seq<Keyed<usize>>, x: Keyed<usize>, bound: int)
    requires
        values_below(s, bound),
        x.value < bound,
    ensures
        values_below(crate::sorting::insert_sorted(s, x), bound),
    decreases s.len(),
{
    if s.len() > 0 && !crate::sorting::key_le(s.last(), x) {
        lemma_insert_values_below(s.drop_last(), x, bound);
        let t = crate::sorting::insert_sorted(s.drop_last(), x);
        assert(s.last().value < bound);
    }
}

/// The spell damage `player` currently has.
pub fn current_spell_damage(objects: &Vec<GameObject>, player: PlayerId) -> (r: i32)
    ensures
        r == spell_damage_of(objects@, player),
{
    let mut sorted: Vec<Keyed<usize>> = Vec::new();
    let mut i: usize = 0;
    while i < objects.len()
        invariant
            i <= objects.len(),
            sorted@ == sort_keyed(spell_providers(objects@, i as int)),
            values_below(sorted@, objects@.len() as int),
        decreases objects.len() - i,
    {
        let o = &objects[i];
        if !o.silenced && continuous_source_is_active(objects, i) && o.controller.is_some()
            && o.runtime_continuous_effects.is_some() {
            let order = match o.play_order {
                Some(x) => x,
                None => 0,
            };
            let x = Keyed { order, id: o.id.0, value: i };
            proof {
                let e = spell_providers(objects@, i as int + 1);
                assert(e.drop_last() =~= spell_providers(objects@, i as int));
                lemma_insert_values_below(sorted@, x, objects@.len() as int);
            }
            insert_keyed(&mut sorted, x);
        }
        i = i + 1;
    }
    let mut total: i32 = 0;
    let mut k: usize = 0;
    while k < sorted.len()
        invariant
            k <= sorted.len(),
            values_below(sorted@, objects@.len() as int),
            total == providers_total(objects@, sorted@.subrange(0, k as int), player),
        decreases sorted.len() - k,
    {
        let index = sorted[k].value;
        proof {
            assert(sorted@.subrange(0, k + 1 as int).drop_last() =~= sorted@.subrange(0, k as int));
        }
        match (&objects[index].runtime_continuous_effects, objects[index].controller) {
            (Some(defs), Some(controller)) => {
                total = add_definitions(defs, controller, player, total);
            },
            _ => {},
        }
        k = k + 1;
    }
    assert(sorted@.subrange(0, sorted@.len() as int) =~= sorted@);
    total
}

/// The hero power damage bonus in one aura cache, summed in order and saturating.
pub open spec fn hero_power_total(cache: Seq<AuraApplication>) -> i32
    decreases cache.len(),
{
    if cache.len() == 0 {
        0
    } else {
        let acc = hero_power_total(cache.drop_last());
        match cache.last().modifier {
            AuraModifier::HeroPowerDamage(amount) => sat_add(acc, amount),
            _ => acc,
        }
    }
}

/// Whether `objects[i]` is the Player object of `player`.
pub open spec fn is_player_object(o: GameObject, player: PlayerId) -> bool {
    o.kind == Some(EntityKind::Player) && o.controller == Some(player)
}

/// The hero power damage bonus of `player`: the hero power damage applications in the other
/// aura cache of the player's first Player object; zero when there is none.
pub open spec fn hero_power_bonus_of(objects: Seq<GameObject>, player: PlayerId) -> i32 {
    if exists|i: int| 0 <= i < objects.len() && is_player_object(#[trigger] objects[i], player) {
        let i = choose|i: int|
            0 <= i < objects.len() && is_player_object(#[trigger] objects[i], player) && forall|j: int|
                0 <= j < i ==> !is_player_object(#[trigger] objects[j], player);
        hero_power_total(cache_of(objects[i].other_aura_cache))
    } else {
        0
    }
}

/// The hero power damage bonus of `player`.
pub fn hero_power_damage_bonus(objects: &Vec<GameObject>, player: PlayerId) -> (r: i32)
    ensures
        r == hero_power_bonus_of(objects@, player),
{
    let mut i: usize = 0;
    while i < objects.len()
        invariant
            i <= objects.len(),
            forall|j: int| 0 <= j < i ==> !is_player_object(#[trigger] objects@[j], player),
        decreases objects.len() - i,
    {
        if objects[i].kind == Some(EntityKind::Player) && objects[i].controller == Some(player) {
            let mut total: i32 = 0;
            match &objects[i].other_aura_cache {
                None => {},
                Some(cache) => {
                    let mut k: usize = 0;
                    while k < cache.len()
                        invariant
                            k <= cache.len(),
                            total == hero_power_total(cache@.subrange(0, k as int)),
                        decreases cache.len() - k,
                    {
                        proof {
                            assert(cache@.subrange(0, k + 1 as int).drop_last() =~= cache@.subrange(0, k as int));
                        }
                        if let AuraModifier::HeroPowerDamage(amount) = cache[k].modifier {
                            total = sat_add_i32(total, amount);
                        }
                        k = k + 1;
                    }
                    assert(cache@.subrange(0, cache@.len() as int) =~= cache@);
                },
            }
            proof {
                let c = choose|c: int|
                    0 <= c < objects@.len() && is_player_object(#[trigger] objects@[c], player) && forall|j: int|
                        0 <= j < c ==> !is_player_object(#[trigger] objects@[j], player);
                assert(is_player_object(objects@[i as int], player));
                if c < i {
                    assert(!is_player_object(objects@[c], player));
                } else if c > i {
                    assert(!is_player_object(objects@[i as int], player));
                }
            }
            return total;
        }
        i = i + 1;
    }
    0
}

} // verus!

verus! {

/// The aura cache of category `c`.
pub open spec fn cache_field(o: GameObject, c: AuraCategory) -> Option<Vec<AuraApplication>> {
    match c {
        AuraCategory::Health => o.health_aura_cache,
        AuraCategory::Attack => o.attack_aura_cache,
        AuraCategory::Other => o.other_aura_cache,
    }
}

/// Whether `f` is `old_objects[i]` after its cache of category `c` was set to `apps`: the cache
/// holds `apps` (and stays absent when it was absent and `apps` is empty), nothing else changes
/// except that attack and maximum health are recalculated when a health or attack cache changed.
pub open spec fn updated_object(
    old_objects: Seq<GameObject>,
    i: int,
    c: AuraCategory,
    apps: Seq<AuraApplication>,
    f: GameObject,
) -> bool {
    let o = old_objects[i];
    let changed = cache_of(cache_field(o, c)) != apps;
    &&& cache_of(cache_field(f, c)) == apps
    &&& (cache_field(f, c) is None <==> (cache_field(o, c) is None && apps.len() == 0))
    &&& f == (GameObject {
        health_aura_cache: f.health_aura_cache,
        attack_aura_cache: f.attack_aura_cache,
        other_aura_cache: f.other_aura_cache,
        current_stats: f.current_stats,
        damage: f.damage,
        ..o
    })
    &&& (c != AuraCategory::Health ==> f.health_aura_cache == o.health_aura_cache)
    &&& (c != AuraCategory::Attack ==> f.attack_aura_cache == o.attack_aura_cache)
    &&& (c != AuraCategory::Other ==> f.other_aura_cache == o.other_aura_cache)
    &&& if changed && c != AuraCategory::Other && o.base_stats is Some {
        let r = stats_result(
            old_objects,
            i,
            if c == AuraCategory::Attack {
                apps
            } else {
                cache_of(o.attack_aura_cache)
            },
            if c == AuraCategory::Health {
                apps
            } else {
                cache_of(o.health_aura_cache)
            },
        );
        f.current_stats == Some(r.0) && f.damage == r.1
    } else {
        f.current_stats == o.current_stats && f.damage == o.damage
    }
}

/// The trace entry for setting the cache of category `c` of `old_objects[i]` to `apps`, if the
/// cache changes and the object had the cache or receives applications.
pub open spec fn cache_update_entry(old_objects: Seq<GameObject>, i: int, c: AuraCategory, apps: Seq<AuraApplication>) -> Seq<TraceEntryView> {
    let o = old_objects[i];
    if cache_of(cache_field(o, c)) != apps && (cache_field(o, c) is Some || apps.len() > 0) {
        seq![TraceEntryView::AuraUpdated { target: o.id, category: c, applications: apps }]
    } else {
        Seq::empty()
    }
}

/// Whether no two objects share an identity.
pub open spec fn unique_ids(objects: Seq<GameObject>) -> bool {
    forall|i: int, j: int|
        0 <= i < objects.len() && 0 <= j < objects.len() && i != j ==> (#[trigger] objects[i]).id
            != (#[trigger] objects[j]).id
}

/// With unique identities, an object is found at its own position.
pub proof fn lemma_lookup_unique(objects: Seq<GameObject>, i: int)
    requires
        unique_ids(objects),
        0 <= i < objects.len(),
    ensures
        lookup(objects, objects[i].id) == Some(i),
{
    assert forall|j: int| 0 <= j < i implies (#[trigger] objects[j]).id != objects[i].id by {}
    crate::world::lemma_lookup_first(objects, objects[i].id, i);
}

pub(crate) fn copy_applications(v: &Vec<AuraApplication>) -> (r: Vec<AuraApplication>)
    ensures
        r@ == v@,
{
    let mut r: Vec<AuraApplication> = Vec::new();
    let mut i: usize = 0;
    while i < v.len()
        invariant
            i <= v.len(),
            r@ == v@.subrange(0, i as int),
        decreases v.len() - i,
    {
        r.push(v[i]);
        i = i + 1;
        assert(r@ =~= v@.subrange(0, i as int));
    }
    assert(v@.subrange(0, v@.len() as int) =~= v@);
    r
}

fn same_applications(a: &Vec<AuraApplication>, b: &Vec<AuraApplication>) -> (r: bool)
    ensures
        r == (a@ == b@),
{
    if a.len() != b.len() {
        return false;
    }
    let mut i: usize = 0;
    while i < a.len()
        invariant
            i <= a.len(),
            a@.len() == b@.len(),
            forall|k: int| 0 <= k < i ==> a@[k] == b@[k],
        decreases a.len() - i,
    {
        if a[i] != b[i] {
            return false;
        }
        i = i + 1;
    }
    assert(a@ =~= b@);
    true
}

pub(crate) fn cache_applications(o: &GameObject, c: AuraCategory) -> (r: (bool, Vec<AuraApplication>))
    ensures
        r.0 == cache_field(*o, c) is Some,
        r.1@ == cache_of(cache_field(*o, c)),
{
    let cache = match c {
        AuraCategory::Health => &o.health_aura_cache,
        AuraCategory::Attack => &o.attack_aura_cache,
        AuraCategory::Other => &o.other_aura_cache,
    };
    match cache {
        Some(v) => (true, copy_applications(v)),
        None => (false, Vec::new()),
    }
}

/// Sets the aura cache of category `c` of `target` to `applications`; when the cache changes,
/// recalculates stats for health and attack caches and records the update in the trace if the
/// target had the cache or receives applications.
pub fn set_cache(
    objects: &mut Vec<GameObject>,
    trace: &mut Vec<TraceEntry>,
    c: AuraCategory,
    target: GameEntityId,
    applications: Vec<AuraApplication>,
)
    ensures
        final(objects)@.len() == old(objects)@.len(),
        match lookup(old(objects)@, target) {
            None => final(objects)@ == old(objects)@ && final(trace)@ == old(trace)@,
            Some(i) => {
                &&& updated_object(old(objects)@, i, c, applications@, final(objects)@[i])
                &&& forall|j: int| 0 <= j < old(objects)@.len() && j != i ==> final(objects)@[j] == old(objects)@[j]
                &&& trace_view(final(trace)@) == trace_view(old(trace)@) + cache_update_entry(old(objects)@, i, c, applications@)
            },
        },
{
    let index = match game_entity(objects, target) {
        Some(i) => i,
        None => return,
    };
    let (had_cache, previous) = cache_applications(&objects[index], c);
    if same_applications(&previous, &applications) {
        proof {
            if cache_field(objects@[index as int], c) is None {
                assert(cache_of(cache_field(objects@[index as int], c)) =~= Seq::<AuraApplication>::empty());
            }
            assert(trace_view(trace@) =~= trace_view(trace@) + cache_update_entry(objects@, index as int, c, applications@));
        }
        return;
    }
    let ghost before = objects@;
    let ghost apps = applications@;
    proof {
        if cache_field(before[index as int], c) is None && apps.len() == 0 {
            assert(apps =~= previous@);
        }
    }
    let record = copy_applications(&applications);
    let nonempty = applications.len() > 0;
    let base_present = objects[index].base_stats.is_some();
    match c {
        AuraCategory::Health => {
            objects[index].health_aura_cache = Some(applications);
        },
        AuraCategory::Attack => {
            objects[index].attack_aura_cache = Some(applications);
        },
        AuraCategory::Other => {
            objects[index].other_aura_cache = Some(applications);
        },
    }
    let ghost middle = objects@;
    proof {
        crate::world::lemma_lookup_first(middle, target, index as int);
    }
    if !(c == AuraCategory::Other) {
        recalculate_stats(objects, target);
        proof {
            if base_present {
                crate::enchantment::lemma_modifier_total_frame(
                    middle, before, target, before[index as int].base_stats.unwrap().attack, true,
                    before.len() as int,
                );
                crate::enchantment::lemma_modifier_total_frame(
                    middle, before, target, before[index as int].base_stats.unwrap().health, false,
                    before.len() as int,
                );
            }
        }
    }
    proof {
        assert(cache_field(objects@[index as int], c) is Some);
        if cache_field(before[index as int], c) is None {
            assert(cache_of(cache_field(before[index as int], c)) =~= Seq::<AuraApplication>::empty());
        }
    }
    let ghost old_trace = trace@;
    if had_cache || nonempty {
        trace.push(TraceEntry::AuraUpdated { target, category: c, applications: record });
        proof {
            assert(trace_view(trace@) =~= trace_view(old_trace) + cache_update_entry(before, index as int, c, cache_of(cache_field(middle[index as int], c))));
        }
    } else {
        proof {
            assert(trace_view(trace@) =~= trace_view(old_trace) + cache_update_entry(before, index as int, c, cache_of(cache_field(middle[index as int], c))));
        }
    }
}

} // verus!

verus! {

/// A new content for the aura cache of one target.
#[derive(Debug, PartialEq, Eq)]
pub struct CacheUpdate {
    pub target: GameEntityId,
    pub applications: Vec<AuraApplication>,
}

/// The applications `updates` assigns to `id`, if it names `id`.
pub open spec fn update_for(updates: Seq<CacheUpdate>, id: GameEntityId) -> Option<Seq<AuraApplication>> {
    if exists|k: int| 0 <= k < updates.len() && (#[trigger] updates[k]).target == id {
        let k = choose|k: int| 0 <= k < updates.len() && (#[trigger] updates[k]).target == id;
        Some(updates[k].applications@)
    } else {
        None
    }
}

/// Whether the targets of `updates` strictly increase.
pub open spec fn targets_increasing(updates: Seq<CacheUpdate>) -> bool {
    forall|a: int, b: int|
        0 <= a < b < updates.len() ==> (#[trigger] updates[a]).target.0 < (#[trigger] updates[b]).target.0
}

/// The trace entries that applying the first `n` updates records.
pub open spec fn update_entries(old_objects: Seq<GameObject>, c: AuraCategory, updates: Seq<CacheUpdate>, n: int) -> Seq<TraceEntryView>
    decreases n,
{
    if n <= 0 {
        Seq::empty()
    } else {
        let prev = update_entries(old_objects, c, updates, n - 1);
        match lookup(old_objects, updates[n - 1].target) {
            Some(i) => prev + cache_update_entry(old_objects, i, c, updates[n - 1].applications@),
            None => prev,
        }
    }
}

/// Stats recomputed on two sequences that agree on the object and on attachments are equal.
pub proof fn lemma_stats_result_frame(
    a: Seq<GameObject>,
    b: Seq<GameObject>,
    i: int,
    x: Seq<AuraApplication>,
    y: Seq<AuraApplication>,
)
    requires
        a.len() == b.len(),
        0 <= i < a.len(),
        a[i] == b[i],
        a[i].base_stats is Some,
        forall|k: int|
            0 <= k < a.len() ==> (#[trigger] a[k]).attached_to == b[k].attached_to && a[k].stat_modifier
                == b[k].stat_modifier,
    ensures
        stats_result(a, i, x, y) == stats_result(b, i, x, y),
{
    let base = a[i].base_stats.unwrap();
    crate::enchantment::lemma_modifier_total_frame(a, b, a[i].id, base.attack, true, a.len() as int);
    crate::enchantment::lemma_modifier_total_frame(a, b, a[i].id, base.health, false, a.len() as int);
}

/// Applies cache updates in order of their targets.
pub fn apply_cache_updates(
    objects: &mut Vec<GameObject>,
    trace: &mut Vec<TraceEntry>,
    c: AuraCategory,
    updates: &Vec<CacheUpdate>,
)
    requires
        unique_ids(old(objects)@),
        targets_increasing(updates@),
    ensures
        final(objects)@.len() == old(objects)@.len(),
        forall|i: int|
            0 <= i < old(objects)@.len() ==> match update_for(updates@, old(objects)@[i].id) {
                Some(apps) => updated_object(old(objects)@, i, c, apps, #[trigger] final(objects)@[i]),
                None => final(objects)@[i] == old(objects)@[i],
            },
        trace_view(final(trace)@) == trace_view(old(trace)@) + update_entries(
            old(objects)@,
            c,
            updates@,
            updates@.len() as int,
        ),
{
    let ghost o0 = objects@;
    let ghost t0 = trace@;
    let mut k: usize = 0;
    while k < updates.len()
        invariant
            k <= updates.len(),
            unique_ids(o0),
            targets_increasing(updates@),
            objects@.len() == o0.len(),
            forall|j: int|
                0 <= j < o0.len() ==> (#[trigger] objects@[j]).id == o0[j].id && objects@[j].attached_to
                    == o0[j].attached_to && objects@[j].stat_modifier == o0[j].stat_modifier,
            forall|i: int|
                0 <= i < o0.len() ==> if exists|m: int| 0 <= m < k && (#[trigger] updates@[m]).target == o0[i].id {
                    updated_object(o0, i, c, update_for(updates@, o0[i].id).unwrap(), #[trigger] objects@[i])
                } else {
                    objects@[i] == o0[i]
                },
            trace_view(trace@) == trace_view(t0) + update_entries(o0, c, updates@, k as int),
        decreases updates.len() - k,
    {
        let target = updates[k].target;
        let apps = copy_applications(&updates[k].applications);
        let ghost cur = objects@;
        let ghost cur_trace = trace@;
        proof {
            assert(unique_ids(cur)) by {
                assert forall|a: int, b: int|
                    0 <= a < cur.len() && 0 <= b < cur.len() && a != b implies (#[trigger] cur[a]).id
                        != (#[trigger] cur[b]).id by {
                    assert(cur[a].id == o0[a].id);
                    assert(cur[b].id == o0[b].id);
                }
            }
        }
        set_cache(objects, trace, c, target, apps);
        proof {
            crate::world::lemma_lookup_some(cur, target);
            match lookup(cur, target) {
                Some(i) => {
                    lemma_lookup_unique(cur, i);
                    lemma_lookup_unique(o0, i);
                    assert(o0[i].id == target);
                    // the target has not been updated yet
                    assert(!exists|m: int| 0 <= m < k && (#[trigger] updates@[m]).target == o0[i].id) by {
                        if exists|m: int| 0 <= m < k && (#[trigger] updates@[m]).target == o0[i].id {
                            let m = choose|m: int| 0 <= m < k && (#[trigger] updates@[m]).target == o0[i].id;
                            assert(updates@[m].target.0 < updates@[k as int].target.0);
                        }
                    }
                    assert(cur[i] == o0[i]);
                    assert(update_for(updates@, o0[i].id) == Some(updates@[k as int].applications@)) by {
                        let w = choose|w: int| 0 <= w < updates@.len() && (#[trigger] updates@[w]).target == o0[i].id;
                        if w != k {
                            if w < k {
                                assert(updates@[w].target.0 < updates@[k as int].target.0);
                            } else {
                                assert(updates@[k as int].target.0 < updates@[w].target.0);
                            }
                        }
                    }
                    if o0[i].base_stats is Some {
                        let o = o0[i];
                        let a1 = if c == AuraCategory::Attack { apps@ } else { cache_of(o.attack_aura_cache) };
                        let h1 = if c == AuraCategory::Health { apps@ } else { cache_of(o.health_aura_cache) };
                        lemma_stats_result_frame(cur, o0, i, a1, h1);
                    }
                    assert(lookup(o0, target) == Some(i));
                    assert(update_entries(o0, c, updates@, k + 1) == update_entries(o0, c, updates@, k as int)
                        + cache_update_entry(o0, i, c, updates@[k as int].applications@));
                    assert forall|j: int| 0 <= j < o0.len() implies if exists|m: int|
                        0 <= m < k + 1 && (#[trigger] updates@[m]).target == o0[j].id {
                        updated_object(o0, j, c, update_for(updates@, o0[j].id).unwrap(), #[trigger] objects@[j])
                    } else {
                        objects@[j] == o0[j]
                    } by {
                        if j != i {
                            assert(o0[j].id != o0[i].id);
                            if exists|m: int| 0 <= m < k + 1 && (#[trigger] updates@[m]).target == o0[j].id {
                                let m = choose|m: int| 0 <= m < k + 1 && (#[trigger] updates@[m]).target == o0[j].id;
                                assert(m != k);
                                assert(exists|m: int| 0 <= m < k && (#[trigger] updates@[m]).target == o0[j].id);
                            } else {
                                assert(!exists|m: int| 0 <= m < k && (#[trigger] updates@[m]).target == o0[j].id);
                            }
                        } else {
                            assert(updates@[k as int].target == o0[j].id);
                        }
                    }
                },
                None => {
                    assert(forall|j: int| 0 <= j < cur.len() ==> (#[trigger] cur[j]).id != target) by {
                        assert forall|j: int| 0 <= j < cur.len() implies (#[trigger] cur[j]).id != target by {
                            if cur[j].id == target {
                                assert(crate::world::has_id(cur, target));
                            }
                        }
                    }
                    assert(lookup(o0, target) is None) by {
                        if crate::world::has_id(o0, target) {
                            let j = choose|j: int| 0 <= j < o0.len() && (#[trigger] o0[j]).id == target;
                            assert(cur[j].id == target);
                        }
                    }
                    assert(update_entries(o0, c, updates@, k + 1) == update_entries(o0, c, updates@, k as int));
                    assert forall|j: int| 0 <= j < o0.len() implies if exists|m: int|
                        0 <= m < k + 1 && (#[trigger] updates@[m]).target == o0[j].id {
                        updated_object(o0, j, c, update_for(updates@, o0[j].id).unwrap(), #[trigger] objects@[j])
                    } else {
                        objects@[j] == o0[j]
                    } by {
                        if exists|m: int| 0 <= m < k + 1 && (#[trigger] updates@[m]).target == o0[j].id {
                            let m = choose|m: int| 0 <= m < k + 1 && (#[trigger] updates@[m]).target == o0[j].id;
                            assert(m != k) by {
                                if m == k {
                                    assert(cur[j].id == target);
                                }
                            }
                            assert(exists|m: int| 0 <= m < k && (#[trigger] updates@[m]).target == o0[j].id);
                        } else {
                            assert(!exists|m: int| 0 <= m < k && (#[trigger] updates@[m]).target == o0[j].id);
                        }
                    }
                },
            }
        }
        k = k + 1;
    }
    proof {
        assert forall|i: int| 0 <= i < o0.len() implies match update_for(updates@, o0[i].id) {
            Some(apps) => updated_object(o0, i, c, apps, #[trigger] objects@[i]),
            None => objects@[i] == o0[i],
        } by {
            if exists|m: int| 0 <= m < updates@.len() && (#[trigger] updates@[m]).target == o0[i].id {
            } else {
            }
        }
    }
}

} // verus!

verus! {

/// Whether `o` can receive auras: a Player object, or a character with base stats in play.
pub open spec fn aura_target_eligible(o: GameObject) -> bool {
    &&& o.kind is Some
    &&& o.controller is Some
    &&& (o.kind == Some(EntityKind::Player) || (o.zone == Some(Zone::Play) && o.base_stats is Some))
}

/// Whether `o` hands out auras (restricted to `only` when given).
pub open spec fn aura_provider(o: GameObject, only: Option<GameEntityId>) -> bool {
    &&& o.zone == Some(Zone::Play)
    &&& !o.silenced
    &&& o.controller is Some
    &&& o.runtime_auras is Some
    &&& (only is None || only == Some(o.id))
}

/// The positions of the aura providers among the first `n` objects, keyed by play order and
/// identity.
pub open spec fn aura_providers(objects: Seq<GameObject>, only: Option<GameEntityId>, n: int) -> Seq<Keyed<usize>>
    decreases n,
{
    if n <= 0 {
        Seq::empty()
    } else {
        let prev = aura_providers(objects, only, n - 1);
        let o = objects[n - 1];
        if aura_provider(o, only) {
            prev.push(Keyed { order: play_order_or_zero(o.play_order), id: o.id.0, value: (n - 1) as usize })
        } else {
            prev
        }
    }
}

/// The application of category `c` that definition number `k` of `provider` produces, if any.
pub open spec fn definition_application(c: AuraCategory, provider: GameEntityId, k: int, d: crate::world::AuraDefinition) -> Option<AuraApplication> {
    match c {
        AuraCategory::Health => if d.health != 0 {
            Some(AuraApplication { provider, definition_index: k as u32, modifier: AuraModifier::MaximumHealth(d.health) })
        } else {
            None
        },
        AuraCategory::Attack => if d.attack != 0 {
            Some(AuraApplication { provider, definition_index: k as u32, modifier: AuraModifier::Attack(d.attack) })
        } else {
            None
        },
        AuraCategory::Other => match d.other {
            Some(crate::world::OtherAuraModifier::Immune) => Some(
                AuraApplication { provider, definition_index: k as u32, modifier: AuraModifier::Immune },
            ),
            Some(crate::world::OtherAuraModifier::HeroPowerDamage(amount)) => Some(
                AuraApplication { provider, definition_index: k as u32, modifier: AuraModifier::HeroPowerDamage(amount) },
            ),
            None => None,
        },
    }
}

/// The applications of category `c` that the first `n` definitions of provider `p` give `t`.
pub open spec fn definition_apps(
    defs: Seq<crate::world::AuraDefinition>,
    p: GameObject,
    t: GameObject,
    c: AuraCategory,
    n: int,
) -> Seq<AuraApplication>
    decreases n,
{
    if n <= 0 {
        Seq::empty()
    } else {
        let prev = definition_apps(defs, p, t, c, n - 1);
        let d = defs[n - 1];
        if aura_reaches(d.targets, p.id, p.controller.unwrap(), t.id, t.controller.unwrap(), t.kind.unwrap())
            && definition_application(c, p.id, n - 1, d) is Some {
            prev.push(definition_application(c, p.id, n - 1, d).unwrap())
        } else {
            prev
        }
    }
}

/// Whether application `a` is what definition `k` of `defs` grants `t` in category `c` from
/// provider `p`: the definition's selector reaches `t`, and the application carries the
/// definition's own amount of that category (an attack or health amount that is not zero, or
/// its other effect).
pub open spec fn granted_by(
    a: AuraApplication,
    defs: Seq<crate::world::AuraDefinition>,
    k: int,
    p: GameObject,
    t: GameObject,
    c: AuraCategory,
) -> bool {
    let d = defs[k];
    &&& 0 <= k < defs.len()
    &&& a.provider == p.id
    &&& a.definition_index == k
    &&& aura_reaches(d.targets, p.id, p.controller.unwrap(), t.id, t.controller.unwrap(), t.kind.unwrap())
    &&& match c {
        AuraCategory::Attack => d.attack != 0 && a.modifier == AuraModifier::Attack(d.attack),
        AuraCategory::Health => d.health != 0 && a.modifier == AuraModifier::MaximumHealth(d.health),
        AuraCategory::Other => match d.other {
            Some(crate::world::OtherAuraModifier::Immune) => a.modifier == AuraModifier::Immune,
            Some(crate::world::OtherAuraModifier::HeroPowerDamage(x)) => a.modifier == AuraModifier::HeroPowerDamage(x),
            None => false,
        },
    }
}

/// A provider grants a target exactly what its definitions that reach the target give, one
/// application per such definition and in definition order: every application comes from the
/// definition it names, whose selector reaches the target, and carries its amount; and every
/// definition that reaches the target with a non-zero amount of the category is granted.
pub proof fn law_provider_grants(
    defs: Seq<crate::world::AuraDefinition>,
    p: GameObject,
    t: GameObject,
    c: AuraCategory,
    n: int,
)
    requires
        0 <= n <= defs.len(),
        defs.len() <= u32::MAX + 1,
    ensures
        forall|j: int|
            0 <= j < definition_apps(defs, p, t, c, n).len() ==> (#[trigger] definition_apps(defs, p, t, c, n)[j]).definition_index < n
                && granted_by(
                definition_apps(defs, p, t, c, n)[j],
                defs,
                definition_apps(defs, p, t, c, n)[j].definition_index as int,
                p,
                t,
                c,
            ),
        forall|j: int, m: int|
            0 <= j < m < definition_apps(defs, p, t, c, n).len() ==> (#[trigger] definition_apps(defs, p, t, c, n)[j]).definition_index
                < (#[trigger] definition_apps(defs, p, t, c, n)[m]).definition_index,
        forall|k: int|
            0 <= k < n && definition_application(c, p.id, k, defs[k]) is Some && #[trigger] aura_reaches(
                defs[k].targets,
                p.id,
                p.controller.unwrap(),
                t.id,
                t.controller.unwrap(),
                t.kind.unwrap(),
            ) ==> exists|j: int|
                0 <= j < definition_apps(defs, p, t, c, n).len() && definition_apps(defs, p, t, c, n)[j].definition_index
                    == k,
    decreases n,
{
    if n > 0 {
        law_provider_grants(defs, p, t, c, n - 1);
        let prev = definition_apps(defs, p, t, c, n - 1);
        let cur = definition_apps(defs, p, t, c, n);
        let d = defs[n - 1];
        assert forall|j: int| 0 <= j < cur.len() implies (#[trigger] cur[j]).definition_index < n && granted_by(
            cur[j],
            defs,
            cur[j].definition_index as int,
            p,
            t,
            c,
        ) by {
            if j < prev.len() {
                assert(cur[j] == prev[j]);
            } else {
                assert(granted_by(cur[j], defs, n - 1, p, t, c));
            }
        }
        assert forall|j: int, m: int| 0 <= j < m < cur.len() implies (#[trigger] cur[j]).definition_index
            < (#[trigger] cur[m]).definition_index by {
            if m < prev.len() {
                assert(cur[j] == prev[j] && cur[m] == prev[m]);
            } else {
                assert(cur[j] == prev[j]);
                assert(cur[m].definition_index == (n - 1) as u32);
            }
        }
        assert forall|k: int|
            0 <= k < n && definition_application(c, p.id, k, defs[k]) is Some && #[trigger] aura_reaches(
                defs[k].targets,
                p.id,
                p.controller.unwrap(),
                t.id,
                t.controller.unwrap(),
                t.kind.unwrap(),
            ) implies exists|j: int| 0 <= j < cur.len() && cur[j].definition_index == k by {
            if k < n - 1 {
                let j = choose|j: int| 0 <= j < prev.len() && prev[j].definition_index == k;
                assert(cur[j] == prev[j]);
            } else {
                assert(cur[cur.len() - 1].definition_index == k);
            }
        }
    }
}

/// The applications of category `c` that the providers at the positions in `s` give `t`, in
/// the order of `s`.
pub open spec fn providers_apps(objects: Seq<GameObject>, s: Seq<Keyed<usize>>, t: GameObject, c: AuraCategory) -> Seq<AuraApplication>
    decreases s.len(),
{
    if s.len() == 0 {
        Seq::empty()
    } else {
        let prev = providers_apps(objects, s.drop_last(), t, c);
        let p = objects[s.last().value as int];
        match p.runtime_auras {
            Some(defs) => prev + definition_apps(defs@, p, t, c, defs@.len() as int),
            None => prev,
        }
    }
}

/// The aura applications of category `c` that `t` receives: from every provider in play, in
/// play order then identity order, each provider's definitions in order; nothing for an object
/// that cannot receive auras.
pub open spec fn discovered_for(objects: Seq<GameObject>, only: Option<GameEntityId>, c: AuraCategory, t: GameObject) -> Seq<AuraApplication> {
    if aura_target_eligible(t) {
        providers_apps(objects, sort_keyed(aura_providers(objects, only, objects.len() as int)), t, c)
    } else {
        Seq::empty()
    }
}

/// Auras are handed out in order of play: the providers whose applications `discovered_for`
/// concatenates come ordered by play order (a missing one counts as zero), then by identity.
pub proof fn law_aura_providers_in_play_order(objects: Seq<GameObject>, only: Option<GameEntityId>)
    ensures
        crate::sorting::sorted_keys(sort_keyed(aura_providers(objects, only, objects.len() as int))),
{
    crate::sorting::lemma_sort_sorted(aura_providers(objects, only, objects.len() as int));
}

fn sorted_aura_providers(objects: &Vec<GameObject>, only: Option<GameEntityId>) -> (r: Vec<Keyed<usize>>)
    ensures
        r@ == sort_keyed(aura_providers(objects@, only, objects@.len() as int)),
        values_below(r@, objects@.len() as int),
{
    let mut sorted: Vec<Keyed<usize>> = Vec::new();
    let mut i: usize = 0;
    while i < objects.len()
        invariant
            i <= objects.len(),
            sorted@ == sort_keyed(aura_providers(objects@, only, i as int)),
            values_below(sorted@, objects@.len() as int),
        decreases objects.len() - i,
    {
        let o = &objects[i];
        let wanted = match only {
            None => true,
            Some(p) => p == o.id,
        };
        if o.zone == Some(Zone::Play) && !o.silenced && o.controller.is_some() && o.runtime_auras.is_some()
            && wanted {
            let order = match o.play_order {
                Some(x) => x,
                None => 0,
            };
            let x = Keyed { order, id: o.id.0, value: i };
            proof {
                let e = aura_providers(objects@, only, i as int + 1);
                assert(e.drop_last() =~= aura_providers(objects@, only, i as int));
                lemma_insert_values_below(sorted@, x, objects@.len() as int);
            }
            insert_keyed(&mut sorted, x);
        }
        i = i + 1;
    }
    sorted
}

fn application_of(c: AuraCategory, provider: GameEntityId, k: usize, d: crate::world::AuraDefinition) -> (r: Option<AuraApplication>)
    requires
        k <= u32::MAX,
    ensures
        r == definition_application(c, provider, k as int, d),
{
    let index = k as u32;
    match c {
        AuraCategory::Health => if d.health != 0 {
            Some(AuraApplication { provider, definition_index: index, modifier: AuraModifier::MaximumHealth(d.health) })
        } else {
            None
        },
        AuraCategory::Attack => if d.attack != 0 {
            Some(AuraApplication { provider, definition_index: index, modifier: AuraModifier::Attack(d.attack) })
        } else {
            None
        },
        AuraCategory::Other => match d.other {
            Some(crate::world::OtherAuraModifier::Immune) => Some(
                AuraApplication { provider, definition_index: index, modifier: AuraModifier::Immune },
            ),
            Some(crate::world::OtherAuraModifier::HeroPowerDamage(amount)) => Some(
                AuraApplication { provider, definition_index: index, modifier: AuraModifier::HeroPowerDamage(amount) },
            ),
            None => None,
        },
    }
}

/// Whether every provider at the positions of `s` has at most `u32::MAX + 1` aura definitions.
pub open spec fn definitions_indexable(objects: Seq<GameObject>, s: Seq<Keyed<usize>>) -> bool {
    forall|k: int| 0 <= k < s.len() ==> match objects[(#[trigger] s[k]).value as int].runtime_auras {
        Some(defs) => defs@.len() <= u32::MAX + 1,
        None => true,
    }
}

fn applications_for_target(
    objects: &Vec<GameObject>,
    providers: &Vec<Keyed<usize>>,
    t: usize,
    c: AuraCategory,
) -> (r: Vec<AuraApplication>)
    requires
        t < objects@.len(),
        values_below(providers@, objects@.len() as int),
        definitions_indexable(objects@, providers@),
        aura_target_eligible(objects@[t as int]),
        forall|k: int| 0 <= k < providers@.len() ==> objects@[(#[trigger] providers@[k]).value as int].controller is Some,
    ensures
        r@ == providers_apps(objects@, providers@, objects@[t as int], c),
{
    let target = &objects[t];
    let target_id = target.id;
    let target_controller = target.controller.unwrap();
    let target_kind = target.kind.unwrap();
    let mut out: Vec<AuraApplication> = Vec::new();
    let mut k: usize = 0;
    while k < providers.len()
        invariant
            k <= providers.len(),
            t < objects@.len(),
            values_below(providers@, objects@.len() as int),
            definitions_indexable(objects@, providers@),
            forall|m: int| 0 <= m < providers@.len() ==> objects@[(#[trigger] providers@[m]).value as int].controller is Some,
            target_id == objects@[t as int].id,
            Some(target_controller) == objects@[t as int].controller,
            Some(target_kind) == objects@[t as int].kind,
            out@ == providers_apps(objects@, providers@.subrange(0, k as int), objects@[t as int], c),
        decreases providers.len() - k,
    {
        let pi = providers[k].value;
        proof {
            assert(providers@.subrange(0, k + 1 as int).drop_last() =~= providers@.subrange(0, k as int));
            assert(providers@[k as int].value < objects@.len());
        }
        let p = &objects[pi];
        match &p.runtime_auras {
            None => {},
            Some(defs) => {
                let controller = p.controller.unwrap();
                let ghost base = out@;
                let mut d: usize = 0;
                while d < defs.len()
                    invariant
                        d <= defs.len(),
                        defs@.len() <= u32::MAX + 1,
                        Some(controller) == p.controller,
                        target_id == objects@[t as int].id,
                        Some(target_controller) == objects@[t as int].controller,
                        Some(target_kind) == objects@[t as int].kind,
                        out@ == base + definition_apps(defs@, *p, objects@[t as int], c, d as int),
                    decreases defs.len() - d,
                {
                    let def = defs[d];
                    if aura_matches(def.targets, p.id, controller, target_id, target_controller, target_kind) {
                        let app = application_of(c, p.id, d, def);
                        if let Some(a) = app {
                            out.push(a);
                            proof {
                                assert(out@ =~= base + definition_apps(defs@, *p, objects@[t as int], c, d + 1));
                            }
                        }
                    }
                    d = d + 1;
                }
            },
        }
        k = k + 1;
    }
    assert(providers@.subrange(0, providers@.len() as int) =~= providers@);
    out
}

/// Whether the targets of `updates` are pairwise different.
pub open spec fn targets_distinct(updates: Seq<CacheUpdate>) -> bool {
    forall|a: int, b: int|
        0 <= a < updates.len() && 0 <= b < updates.len() && a != b ==> (#[trigger] updates[a]).target
            != (#[trigger] updates[b]).target
}

/// With distinct targets, `update_for` gives the applications of the update with that target.
pub proof fn lemma_update_for(updates: Seq<CacheUpdate>, k: int)
    requires
        targets_distinct(updates),
        0 <= k < updates.len(),
    ensures
        update_for(updates, updates[k].target) == Some(updates[k].applications@),
{
    let w = choose|w: int| 0 <= w < updates.len() && (#[trigger] updates[w]).target == updates[k].target;
    assert(updates[k].target == updates[k].target);
}

/// Every aura target of category `c` with its applications: one update per object that can
/// receive auras and receives at least one, in object order.
pub fn discover_aura_applications(objects: &Vec<GameObject>, only: Option<GameEntityId>, c: AuraCategory) -> (r: Vec<CacheUpdate>)
    requires
        unique_ids(objects@),
        forall|i: int| 0 <= i < objects@.len() ==> match (#[trigger] objects@[i]).runtime_auras {
            Some(defs) => defs@.len() <= u32::MAX + 1,
            None => true,
        },
    ensures
        targets_distinct(r@),
        forall|k: int| 0 <= k < r@.len() ==> crate::world::has_id(objects@, (#[trigger] r@[k]).target),
        forall|i: int| 0 <= i < objects@.len() ==> update_for(r@, (#[trigger] objects@[i]).id) == (if discovered_for(
            objects@,
            only,
            c,
            objects@[i],
        ).len() > 0 {
            Some(discovered_for(objects@, only, c, objects@[i]))
        } else {
            None
        }),
{
    let providers = sorted_aura_providers(objects, only);
    proof {
        assert(definitions_indexable(objects@, providers@));
        assert forall|k: int| 0 <= k < providers@.len() implies objects@[(#[trigger] providers@[k]).value as int].controller is Some by {
            assert(objects@.len() == objects.len());
            lemma_sorted_providers_have_controllers(objects@, only, objects@.len() as int, k);
        }
    }
    let mut out: Vec<CacheUpdate> = Vec::new();
    let mut t: usize = 0;
    while t < objects.len()
        invariant
            t <= objects.len(),
            unique_ids(objects@),
            values_below(providers@, objects@.len() as int),
            definitions_indexable(objects@, providers@),
            forall|m: int| 0 <= m < providers@.len() ==> objects@[(#[trigger] providers@[m]).value as int].controller is Some,
            providers@ == sort_keyed(aura_providers(objects@, only, objects@.len() as int)),
            forall|k: int| 0 <= k < out@.len() ==> exists|i: int| 0 <= i < t && (#[trigger] out@[k]).target == objects@[i].id,
            targets_distinct(out@),
            forall|i: int| 0 <= i < t ==> update_for(out@, (#[trigger] objects@[i]).id) == (if discovered_for(
                objects@,
                only,
                c,
                objects@[i],
            ).len() > 0 {
                Some(discovered_for(objects@, only, c, objects@[i]))
            } else {
                None
            }),
        decreases objects.len() - t,
    {
        let o = &objects[t];
        let eligible = o.kind.is_some() && o.controller.is_some() && (o.kind == Some(EntityKind::Player) || (
        o.zone == Some(Zone::Play) && o.base_stats.is_some()));
        let ghost before = out@;
        if eligible {
            let apps = applications_for_target(objects, &providers, t, c);
            if apps.len() > 0 {
                out.push(CacheUpdate { target: o.id, applications: apps });
            }
        }
        proof {
            assert forall|k: int| 0 <= k < out@.len() implies exists|i: int| 0 <= i < t + 1 && (#[trigger] out@[k]).target == objects@[i].id by {
                if k < before.len() {
                    assert(out@[k] == before[k]);
                    let i = choose|i: int| 0 <= i < t && before[k].target == objects@[i].id;
                    assert(out@[k].target == objects@[i].id);
                } else {
                    assert(out@[k].target == objects@[t as int].id);
                }
            }
            assert forall|a: int, b: int| 0 <= a < out@.len() && 0 <= b < out@.len() && a != b implies (#[trigger] out@[a]).target
                != (#[trigger] out@[b]).target by {
                if a < before.len() && b < before.len() {
                    assert(out@[a] == before[a] && out@[b] == before[b]);
                } else if a < before.len() {
                    let i = choose|i: int| 0 <= i < t && before[a].target == objects@[i].id;
                    assert(out@[a] == before[a]);
                    assert(objects@[i].id != objects@[t as int].id);
                } else if b < before.len() {
                    let i = choose|i: int| 0 <= i < t && before[b].target == objects@[i].id;
                    assert(out@[b] == before[b]);
                    assert(objects@[i].id != objects@[t as int].id);
                }
            }
            assert forall|i: int| 0 <= i < t + 1 implies update_for(out@, (#[trigger] objects@[i]).id) == (if discovered_for(
                objects@,
                only,
                c,
                objects@[i],
            ).len() > 0 {
                Some(discovered_for(objects@, only, c, objects@[i]))
            } else {
                None
            }) by {
                if i < t {
                    assert(objects@[i].id != objects@[t as int].id);
                    if exists|k: int| 0 <= k < before.len() && (#[trigger] before[k]).target == objects@[i].id {
                        let k = choose|k: int| 0 <= k < before.len() && (#[trigger] before[k]).target == objects@[i].id;
                        assert(out@[k] == before[k]);
                        lemma_update_for(out@, k);
                        lemma_update_for(before, k);
                    } else {
                        assert forall|k: int| 0 <= k < out@.len() implies (#[trigger] out@[k]).target != objects@[i].id by {
                            if k < before.len() {
                                assert(out@[k] == before[k]);
                            }
                        }
                    }
                } else {
                    if out@.len() > before.len() {
                        lemma_update_for(out@, before.len() as int);
                    } else {
                        assert forall|k: int| 0 <= k < out@.len() implies (#[trigger] out@[k]).target != objects@[i].id by {
                            let j = choose|j: int| 0 <= j < t && out@[k].target == objects@[j].id;
                            assert(objects@[j].id != objects@[t as int].id);
                        }
                    }
                }
            }
        }
        t = t + 1;
    }
    proof {
        assert forall|k: int| 0 <= k < out@.len() implies crate::world::has_id(objects@, (#[trigger] out@[k]).target) by {
            let i = choose|i: int| 0 <= i < objects@.len() && out@[k].target == objects@[i].id;
        }
    }
    out
}

/// Every position in the sorted provider list names an object with a controller.
pub proof fn lemma_sorted_providers_have_controllers(objects: Seq<GameObject>, only: Option<GameEntityId>, n: int, k: int)
    requires
        0 <= n <= objects.len(),
        n <= usize::MAX,
        0 <= k < sort_keyed(aura_providers(objects, only, n)).len(),
    ensures
        0 <= sort_keyed(aura_providers(objects, only, n))[k].value < objects.len(),
        objects[sort_keyed(aura_providers(objects, only, n))[k].value as int].controller is Some,
{
    lemma_providers_members(objects, only, n);
    lemma_sort_keeps_members(aura_providers(objects, only, n));
    let s = sort_keyed(aura_providers(objects, only, n));
    assert(aura_providers(objects, only, n).contains(s[k]));
}

/// Every entry of the unsorted provider list names a provider within the first `n` objects.
pub proof fn lemma_providers_members(objects: Seq<GameObject>, only: Option<GameEntityId>, n: int)
    requires
        0 <= n <= objects.len(),
        n <= usize::MAX,
    ensures
        forall|k: int| 0 <= k < aura_providers(objects, only, n).len() ==> {
            &&& (#[trigger] aura_providers(objects, only, n)[k]).value < n
            &&& aura_provider(objects[aura_providers(objects, only, n)[k].value as int], only)
        },
    decreases n,
{
    if n > 0 {
        lemma_providers_members(objects, only, n - 1);
        let prev = aura_providers(objects, only, n - 1);
        let cur = aura_providers(objects, only, n);
        assert forall|k: int| 0 <= k < cur.len() implies {
            &&& (#[trigger] cur[k]).value < n
            &&& aura_provider(objects[cur[k].value as int], only)
        } by {
            if k < prev.len() {
                assert(cur[k] == prev[k]);
            } else {
                assert(cur[k].value == (n - 1) as usize);
                assert(((n - 1) as usize) as int == n - 1);
            }
        }
    }
}

/// Sorting keeps exactly the members of the sequence.
pub proof fn lemma_sort_keeps_members<T>(s: Seq<Keyed<T>>)
    ensures
        forall|x: Keyed<T>| sort_keyed(s).contains(x) <==> s.contains(x),
        sort_keyed(s).len() == s.len(),
    decreases s.len(),
{
    if s.len() > 0 {
        lemma_sort_keeps_members(s.drop_last());
        lemma_insert_keeps_members(sort_keyed(s.drop_last()), s.last());
        assert forall|x: Keyed<T>| sort_keyed(s).contains(x) <==> s.contains(x) by {
            if s.contains(x) {
                let i = choose|i: int| 0 <= i < s.len() && s[i] == x;
                if i < s.len() - 1 {
                    assert(s.drop_last()[i] == x);
                }
            }
            if s.drop_last().contains(x) {
                let i = choose|i: int| 0 <= i < s.drop_last().len() && s.drop_last()[i] == x;
                assert(s[i] == x);
            }
        }
    }
}

/// Sorted insertion adds exactly the inserted element.
pub proof fn lemma_insert_keeps_members<T>(s: Seq<Keyed<T>>, x: Keyed<T>)
    ensures
        forall|y: Keyed<T>| #[trigger] crate::sorting::insert_sorted(s, x).contains(y) <==> (s.contains(y) || y == x),
        crate::sorting::insert_sorted(s, x).len() == s.len() + 1,
    decreases s.len(),
{
    let u = crate::sorting::insert_sorted(s, x);
    if s.len() == 0 {
        assert(u =~= seq![x]);
        assert forall|y: Keyed<T>| u.contains(y) <==> (s.contains(y) || y == x) by {
            if y == x {
                assert(u[0] == x);
            }
            if u.contains(y) {
                let i = choose|i: int| 0 <= i < u.len() && u[i] == y;
                assert(i == 0);
            }
        }
    } else if crate::sorting::key_le(s.last(), x) {
        assert(u == s.push(x));
        assert forall|y: Keyed<T>| u.contains(y) <==> (s.contains(y) || y == x) by {
            if y == x {
                assert(u[s.len() as int] == x);
            }
            if s.contains(y) {
                let i = choose|i: int| 0 <= i < s.len() && s[i] == y;
                assert(u[i] == y);
            }
            if u.contains(y) {
                let i = choose|i: int| 0 <= i < u.len() && u[i] == y;
                if i < s.len() {
                    assert(s[i] == y);
                }
            }
        }
    } else {
        let d = s.drop_last();
        lemma_insert_keeps_members(d, x);
        let w = crate::sorting::insert_sorted(d, x);
        assert(u == w.push(s.last()));
        assert forall|y: Keyed<T>| u.contains(y) <==> (s.contains(y) || y == x) by {
            assert(w.contains(y) <==> (d.contains(y) || y == x));
            if u.contains(y) {
                let i = choose|i: int| 0 <= i < u.len() && u[i] == y;
                if i == w.len() {
                    assert(s[s.len() - 1] == y);
                } else {
                    assert(w[i] == y);
                    assert(w.contains(y));
                    if d.contains(y) {
                        let j = choose|j: int| 0 <= j < d.len() && d[j] == y;
                        assert(s[j] == y);
                    }
                }
            }
            if s.contains(y) {
                let i = choose|i: int| 0 <= i < s.len() && s[i] == y;
                if i == s.len() - 1 {
                    assert(u[w.len() as int] == y);
                } else {
                    assert(d[i] == y);
                    assert(d.contains(y));
                    assert(w.contains(y));
                    let j = choose|j: int| 0 <= j < w.len() && w[j] == y;
                    assert(u[j] == y);
                }
            }
            if y == x {
                assert(w.contains(x));
                let j = choose|j: int| 0 <= j < w.len() && w[j] == x;
                assert(u[j] == x);
            }
        }
    }
}

} // verus!

verus! {

/// Setting a cache to what it already holds changes nothing.
pub proof fn lemma_updated_object_identity(old_objects: Seq<GameObject>, i: int, c: AuraCategory)
    requires
        0 <= i < old_objects.len(),
    ensures
        updated_object(old_objects, i, c, cache_of(cache_field(old_objects[i], c)), old_objects[i]),
{
    if cache_field(old_objects[i], c) is None {
        assert(cache_of(cache_field(old_objects[i], c)) =~= Seq::<AuraApplication>::empty());
    }
}

/// The applications a discovery result assigns to `id`; none when it names no such target.
pub open spec fn expected_from(d: Seq<CacheUpdate>, id: GameEntityId) -> Seq<AuraApplication> {
    match update_for(d, id) {
        Some(a) => a,
        None => Seq::empty(),
    }
}

pub(crate) fn find_update(d: &Vec<CacheUpdate>, id: GameEntityId) -> (r: Vec<AuraApplication>)
    requires
        targets_distinct(d@),
    ensures
        r@ == expected_from(d@, id),
{
    let mut k: usize = 0;
    while k < d.len()
        invariant
            k <= d.len(),
            targets_distinct(d@),
            forall|m: int| 0 <= m < k ==> (#[trigger] d@[m]).target != id,
        decreases d.len() - k,
    {
        if d[k].target == id {
            proof {
                lemma_update_for(d@, k as int);
            }
            return copy_applications(&d[k].applications);
        }
        k = k + 1;
    }
    Vec::new()
}

/// The cache applications without those of `provider`, in order.
pub open spec fn without_provider(s: Seq<AuraApplication>, provider: GameEntityId) -> Seq<AuraApplication>
    decreases s.len(),
{
    if s.len() == 0 {
        Seq::empty()
    } else {
        let prev = without_provider(s.drop_last(), provider);
        if s.last().provider == provider {
            prev
        } else {
            prev.push(s.last())
        }
    }
}

/// Removing a provider that contributes nothing leaves the applications as they are.
pub proof fn lemma_without_absent_provider(s: Seq<AuraApplication>, provider: GameEntityId)
    requires
        forall|k: int| 0 <= k < s.len() ==> (#[trigger] s[k]).provider != provider,
    ensures
        without_provider(s, provider) == s,
    decreases s.len(),
{
    if s.len() > 0 {
        lemma_without_absent_provider(s.drop_last(), provider);
        assert(s.drop_last().push(s.last()) =~= s);
    }
}

/// Whether one of the first `n` objects has identity `x` and holds a cache of category `c`
/// (with an application from `provider`, when one is given).
pub open spec fn holder_among(objects: Seq<GameObject>, c: AuraCategory, provider: Option<GameEntityId>, x: GameEntityId, n: int) -> bool {
    exists|j: int| 0 <= j < n && (#[trigger] objects[j]).id == x && holds_cache(objects[j], c, provider)
}

proof fn lemma_holder_step(objects: Seq<GameObject>, c: AuraCategory, provider: Option<GameEntityId>, x: GameEntityId, n: int)
    requires
        0 <= n < objects.len(),
    ensures
        holder_among(objects, c, provider, x, n + 1) <==> (holder_among(objects, c, provider, x, n) || (
        objects[n].id == x && holds_cache(objects[n], c, provider))),
{
    if holder_among(objects, c, provider, x, n + 1) {
        let j = choose|j: int| 0 <= j < n + 1 && (#[trigger] objects[j]).id == x && holds_cache(objects[j], c, provider);
        if j < n {
            assert(holder_among(objects, c, provider, x, n));
        }
    }
    if holder_among(objects, c, provider, x, n) {
        let j = choose|j: int| 0 <= j < n && (#[trigger] objects[j]).id == x && holds_cache(objects[j], c, provider);
        assert(0 <= j < n + 1 && objects[j].id == x && holds_cache(objects[j], c, provider));
    }
    if objects[n].id == x && holds_cache(objects[n], c, provider) {
        assert(0 <= n < n + 1 && objects[n].id == x && holds_cache(objects[n], c, provider));
    }
}

proof fn lemma_push_contains<T>(s: Seq<T>, v: T, x: T)
    ensures
        s.push(v).contains(x) <==> (s.contains(x) || x == v),
{
    if s.push(v).contains(x) {
        let j = choose|j: int| 0 <= j < s.push(v).len() && s.push(v)[j] == x;
        if j < s.len() {
            assert(s[j] == x);
        }
    }
    if s.contains(x) {
        let j = choose|j: int| 0 <= j < s.len() && s[j] == x;
        assert(s.push(v)[j] == x);
    }
    if x == v {
        assert(s.push(v)[s.len() as int] == x);
    }
}

/// The ids of objects holding a cache of category `c` (with an application from `provider`,
/// when one is given), appended to the targets of `d`.
pub(crate) fn target_ids(objects: &Vec<GameObject>, c: AuraCategory, d: &Vec<CacheUpdate>, provider: Option<GameEntityId>) -> (r: Vec<GameEntityId>)
    ensures
        forall|x: GameEntityId| #[trigger] r@.contains(x) <==> (update_for(d@, x) is Some || holder_among(objects@, c, provider, x, objects@.len() as int)),
{
    let mut out: Vec<GameEntityId> = Vec::new();
    let mut k: usize = 0;
    while k < d.len()
        invariant
            k <= d.len(),
            forall|x: GameEntityId| #[trigger] out@.contains(x) <==> exists|m: int| 0 <= m < k && (#[trigger] d@[m]).target == x,
        decreases d.len() - k,
    {
        let ghost before = out@;
        out.push(d[k].target);
        proof {
            assert forall|x: GameEntityId| #[trigger] out@.contains(x) <==> exists|m: int| 0 <= m < k + 1 && (#[trigger] d@[m]).target == x by {
                lemma_push_contains(before, d@[k as int].target, x);
                if exists|m: int| 0 <= m < k + 1 && (#[trigger] d@[m]).target == x {
                    let m = choose|m: int| 0 <= m < k + 1 && (#[trigger] d@[m]).target == x;
                    if m < k {
                        assert(before.contains(x));
                    }
                }
                if before.contains(x) {
                    let m = choose|m: int| 0 <= m < k && (#[trigger] d@[m]).target == x;
                    assert(0 <= m < k + 1 && d@[m].target == x);
                }
                if x == d@[k as int].target {
                    assert(0 <= k < k + 1 && d@[k as int].target == x);
                }
            }
        }
        k = k + 1;
    }
    let ghost from_d = out@;
    proof {
        assert forall|x: GameEntityId| #[trigger] from_d.contains(x) <==> update_for(d@, x) is Some by {
            if from_d.contains(x) {
                let m = choose|m: int| 0 <= m < k && (#[trigger] d@[m]).target == x;
                assert(0 <= m < d@.len() && d@[m].target == x);
            }
            if update_for(d@, x) is Some {
                let m = choose|m: int| 0 <= m < d@.len() && (#[trigger] d@[m]).target == x;
                assert(0 <= m < k && d@[m].target == x);
            }
        }
    }
    let mut i: usize = 0;
    while i < objects.len()
        invariant
            i <= objects.len(),
            forall|x: GameEntityId| #[trigger] from_d.contains(x) <==> update_for(d@, x) is Some,
            forall|x: GameEntityId| #[trigger] out@.contains(x) <==> (from_d.contains(x) || holder_among(objects@, c, provider, x, i as int)),
        decreases objects.len() - i,
    {
        let holds = object_holds_cache(&objects[i], c, provider);
        let ghost before = out@;
        if holds {
            out.push(objects[i].id);
        }
        proof {
            assert forall|x: GameEntityId| #[trigger] out@.contains(x) <==> (from_d.contains(x) || holder_among(objects@, c, provider, x, i + 1)) by {
                lemma_holder_step(objects@, c, provider, x, i as int);
                if holds {
                    lemma_push_contains(before, objects@[i as int].id, x);
                }
            }
        }
        i = i + 1;
    }
    out
}

/// Whether `o` holds a cache of category `c`, with an application from `provider` when one is
/// given.
pub open spec fn holds_cache(o: GameObject, c: AuraCategory, provider: Option<GameEntityId>) -> bool {
    match provider {
        None => cache_field(o, c) is Some,
        Some(p) => exists|k: int|
            0 <= k < cache_of(cache_field(o, c)).len() && (#[trigger] cache_of(cache_field(o, c))[k]).provider == p,
    }
}

fn object_holds_cache(o: &GameObject, c: AuraCategory, provider: Option<GameEntityId>) -> (r: bool)
    ensures
        r == holds_cache(*o, c, provider),
{
    let (present, apps) = cache_applications(o, c);
    match provider {
        None => present,
        Some(p) => {
            let mut k: usize = 0;
            while k < apps.len()
                invariant
                    k <= apps.len(),
                    provider == Some(p),
                    apps@ == cache_of(cache_field(*o, c)),
                    forall|m: int| 0 <= m < k ==> (#[trigger] apps@[m]).provider != p,
                decreases apps.len() - k,
            {
                if apps[k].provider == p {
                    assert(cache_of(cache_field(*o, c))[k as int].provider == p);
                    return true;
                }
                k = k + 1;
            }
            false
        },
    }
}

} // verus!
