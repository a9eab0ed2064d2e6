//! Effective stats, keywords and costs recomputed from bases, enchantments and auras.
use vstd::prelude::*;

use crate::error::InvariantViolation;
use crate::sorting::{insert_keyed, sort_keyed, Keyed};
use crate::types::{EntityKind, GameEntityId, Keyword, KeywordSet, Zone};
use crate::world::{
    cost_after, game_entity, lookup, sat_add, sat_add_i32, sat_sub, sat_sub_i32, AuraApplication,
    AuraModifier, CostModifier, CurrentStats, GameObject, KeywordModifier,
};

verus! {

/// The base value plus the stat modifiers of the enchantments attached to `target` among the
/// first `n` objects, added in object order; sums saturate at the limits of `i32`.
pub open spec fn modifier_total(objects: Seq<GameObject>, target: GameEntityId, start: i32, attack: bool, n: int) -> i32
    decreases n,
{
    if n <= 0 {
        start
    } else {
        let acc = modifier_total(objects, target, start, attack, n - 1);
        let o = objects[n - 1];
        if o.attached_to == Some(target) && o.stat_modifier is Some {
            let m = o.stat_modifier.unwrap();
            sat_add(acc, if attack { m.attack } else { m.health })
        } else {
            acc
        }
    }
}

/// `start` plus the attack (or maximum health) amounts of the first `n` aura applications.
pub open spec fn aura_total(cache: Seq<AuraApplication>, start: i32, attack: bool, n: int) -> i32
    decreases n,
{
    if n <= 0 {
        start
    } else {
        let acc = aura_total(cache, start, attack, n - 1);
        match cache[n - 1].modifier {
            AuraModifier::Attack(amount) => if attack {
                sat_add(acc, amount)
            } else {
                acc
            },
            AuraModifier::MaximumHealth(amount) => if attack {
                acc
            } else {
                sat_add(acc, amount)
            },
            _ => acc,
        }
    }
}

/// The applications of an optional aura cache; an absent cache has none.
pub open spec fn cache_of(cache: Option<Vec<AuraApplication>>) -> Seq<AuraApplication> {
    match cache {
        Some(v) => v@,
        None => Seq::empty(),
    }
}

/// Attack, maximum health and damage of `objects[i]` recomputed with the given attack and
/// health aura caches: attack and maximum health from the base, the attached stat modifiers and
/// the auras; maximum health never below zero; when the maximum falls, damage shrinks so that
/// remaining health is kept where possible.
pub open spec fn stats_result(
    objects: Seq<GameObject>,
    i: int,
    attack_cache: Seq<AuraApplication>,
    health_cache: Seq<AuraApplication>,
) -> (CurrentStats, Option<i32>) {
    let o = objects[i];
    let base = o.base_stats.unwrap();
    let attack = aura_total(
        attack_cache,
        modifier_total(objects, o.id, base.attack, true, objects.len() as int),
        true,
        attack_cache.len() as int,
    );
    let health = aura_total(
        health_cache,
        modifier_total(objects, o.id, base.health, false, objects.len() as int),
        false,
        health_cache.len() as int,
    );
    let maximum = if health < 0 {
        0i32
    } else {
        health
    };
    let damage = match (o.current_stats, o.damage) {
        (Some(previous), Some(d)) => if maximum < previous.maximum_health {
            let remaining = sat_sub(previous.maximum_health, d);
            let shrunk = sat_sub(maximum, remaining);
            Some(
                if shrunk < 0 {
                    0i32
                } else {
                    shrunk
                },
            )
        } else {
            Some(d)
        },
        _ => o.damage,
    };
    (CurrentStats { attack, maximum_health: maximum }, damage)
}

/// Damage follows the maximum health down: when recalculation lowers the maximum health of a
/// damaged character, its remaining health is kept where the new maximum allows it, and capped
/// at the new maximum otherwise, and damage is never negative; when the maximum does not fall,
/// damage is unchanged (away from the limits of `i32`).
pub proof fn law_damage_follows_maximum(
    objects: Seq<GameObject>,
    i: int,
    attack_cache: Seq<AuraApplication>,
    health_cache: Seq<AuraApplication>,
)
    requires
        0 <= i < objects.len(),
        objects[i].current_stats is Some,
        objects[i].damage is Some,
        i32::MIN <= objects[i].current_stats->0.maximum_health - objects[i].damage->0 <= i32::MAX,
        i32::MIN <= stats_result(objects, i, attack_cache, health_cache).0.maximum_health
            - (objects[i].current_stats->0.maximum_health - objects[i].damage->0) <= i32::MAX,
    ensures
        ({
            let previous = objects[i].current_stats->0.maximum_health;
            let d = objects[i].damage->0;
            let r = stats_result(objects, i, attack_cache, health_cache);
            let maximum = r.0.maximum_health;
            let remaining = previous - d;
            &&& maximum >= 0
            &&& r.1 is Some
            &&& maximum < previous ==> {
                &&& r.1->0 >= 0
                &&& maximum - r.1->0 == if remaining < maximum { remaining } else { maximum as int }
            }
            &&& maximum >= previous ==> r.1 == Some(d)
        }),
{
}

/// The object `objects[i]` after its stats are recalculated from its own aura caches.
pub open spec fn recalculated_stats(objects: Seq<GameObject>, i: int) -> GameObject {
    let o = objects[i];
    let r = stats_result(objects, i, cache_of(o.attack_aura_cache), cache_of(o.health_aura_cache));
    GameObject { current_stats: Some(r.0), damage: r.1, ..o }
}

/// The attack that the stat modifiers attached to `target` among the first `n` objects add up
/// to, as an integer.
pub open spec fn attached_attack(objects: Seq<GameObject>, target: GameEntityId, n: int) -> int
    decreases n,
{
    if n <= 0 {
        0
    } else {
        attached_attack(objects, target, n - 1) + match objects[n - 1].stat_modifier {
            Some(m) if objects[n - 1].attached_to == Some(target) => m.attack as int,
            _ => 0,
        }
    }
}

/// The health that the stat modifiers attached to `target` among the first `n` objects add up
/// to, as an integer.
pub open spec fn attached_health(objects: Seq<GameObject>, target: GameEntityId, n: int) -> int
    decreases n,
{
    if n <= 0 {
        0
    } else {
        attached_health(objects, target, n - 1) + match objects[n - 1].stat_modifier {
            Some(m) if objects[n - 1].attached_to == Some(target) => m.health as int,
            _ => 0,
        }
    }
}

/// Whether `start` plus every partial sum of the attached attack and health stays within `i32`.
pub open spec fn sums_fit(objects: Seq<GameObject>, target: GameEntityId, attack_start: i32, health_start: i32) -> bool {
    forall|k: int|
        0 <= k <= objects.len() ==> i32::MIN <= attack_start + #[trigger] attached_attack(objects, target, k) <= i32::MAX
            && i32::MIN <= health_start + attached_health(objects, target, k) <= i32::MAX
}

/// Stat modifiers add up: away from the limits of `i32`, the modifier total from `start` is
/// `start` plus the attack (or the health) of every stat modifier attached to `target`.
pub proof fn law_modifier_totals_add_up(objects: Seq<GameObject>, target: GameEntityId, attack_start: i32, health_start: i32, n: int)
    requires
        0 <= n <= objects.len(),
        sums_fit(objects, target, attack_start, health_start),
    ensures
        modifier_total(objects, target, attack_start, true, n) == attack_start + attached_attack(objects, target, n),
        modifier_total(objects, target, health_start, false, n) == health_start + attached_health(objects, target, n),
    decreases n,
{
    if n > 0 {
        law_modifier_totals_add_up(objects, target, attack_start, health_start, n - 1);
        assert(i32::MIN <= attack_start + attached_attack(objects, target, n) <= i32::MAX);
        assert(i32::MIN <= health_start + attached_health(objects, target, n) <= i32::MAX);
    }
}

/// With no auras, a recalculated character has its base attack plus the attack of its attached
/// stat modifiers, and its base health plus their health as maximum health, never below zero
/// (away from the limits of `i32`).
pub proof fn law_stats_without_auras(objects: Seq<GameObject>, i: int)
    requires
        0 <= i < objects.len(),
        objects[i].base_stats is Some,
        sums_fit(objects, objects[i].id, objects[i].base_stats->0.attack, objects[i].base_stats->0.health),
    ensures
        ({
            let base = objects[i].base_stats->0;
            let r = stats_result(objects, i, Seq::empty(), Seq::empty()).0;
            let health = base.health + attached_health(objects, objects[i].id, objects.len() as int);
            &&& r.attack == base.attack + attached_attack(objects, objects[i].id, objects.len() as int)
            &&& r.maximum_health == if health < 0 { 0 } else { health }
            &&& cache_of(objects[i].attack_aura_cache).len() == 0 && cache_of(objects[i].health_aura_cache).len() == 0
                ==> recalculated_stats(objects, i).current_stats == Some(r)
        }),
{
    let base = objects[i].base_stats->0;
    assert(cache_of(objects[i].attack_aura_cache).len() == 0 ==> cache_of(objects[i].attack_aura_cache) =~= Seq::empty());
    assert(cache_of(objects[i].health_aura_cache).len() == 0 ==> cache_of(objects[i].health_aura_cache) =~= Seq::empty());
    law_modifier_totals_add_up(objects, objects[i].id, base.attack, base.health, objects.len() as int);
}

/// The attack amounts of the first `n` aura applications, as an integer.
pub open spec fn aura_attack(cache: Seq<AuraApplication>, n: int) -> int
    decreases n,
{
    if n <= 0 {
        0
    } else {
        aura_attack(cache, n - 1) + match cache[n - 1].modifier {
            AuraModifier::Attack(x) => x as int,
            _ => 0,
        }
    }
}

/// The maximum-health amounts of the first `n` aura applications, as an integer.
pub open spec fn aura_health(cache: Seq<AuraApplication>, n: int) -> int
    decreases n,
{
    if n <= 0 {
        0
    } else {
        aura_health(cache, n - 1) + match cache[n - 1].modifier {
            AuraModifier::MaximumHealth(x) => x as int,
            _ => 0,
        }
    }
}

/// Auras add up: away from the limits of `i32`, the attack total is `start` plus every attack
/// aura, the health total `start` plus every maximum-health aura; other applications add
/// nothing.
pub proof fn law_aura_totals_add_up(cache: Seq<AuraApplication>, start: i32, n: int)
    requires
        0 <= n <= cache.len(),
        forall|k: int| 0 <= k <= cache.len() ==> i32::MIN <= start + #[trigger] aura_attack(cache, k) <= i32::MAX,
        forall|k: int| 0 <= k <= cache.len() ==> i32::MIN <= start + #[trigger] aura_health(cache, k) <= i32::MAX,
    ensures
        aura_total(cache, start, true, n) == start + aura_attack(cache, n),
        aura_total(cache, start, false, n) == start + aura_health(cache, n),
    decreases n,
{
    if n > 0 {
        law_aura_totals_add_up(cache, start, n - 1);
        assert(i32::MIN <= start + aura_attack(cache, n) <= i32::MAX);
        assert(i32::MIN <= start + aura_health(cache, n) <= i32::MAX);
    }
}

/// Modifier totals depend only on which objects are attached where and on their stat modifiers.
pub proof fn lemma_modifier_total_frame(
    a: Seq<GameObject>,
    b: Seq<GameObject>,
    target: GameEntityId,
    start: i32,
    attack: bool,
    n: int,
)
    requires
        n <= a.len(),
        n <= b.len(),
        forall|k: int|
            0 <= k < n ==> (#[trigger] a[k]).attached_to == b[k].attached_to && a[k].stat_modifier
                == b[k].stat_modifier,
    ensures
        modifier_total(a, target, start, attack, n) == modifier_total(b, target, start, attack, n),
    decreases n,
{
    if n > 0 {
        lemma_modifier_total_frame(a, b, target, start, attack, n - 1);
        assert(a[n - 1].attached_to == b[n - 1].attached_to);
    }
}

fn modifier_sum(objects: &Vec<GameObject>, target: GameEntityId, start: i32, attack: bool) -> (r: i32)
    ensures
        r == modifier_total(objects@, target, start, attack, objects@.len() as int),
{
    let mut acc = start;
    let mut i: usize = 0;
    while i < objects.len()
        invariant
            i <= objects.len(),
            acc == modifier_total(objects@, target, start, attack, i as int),
        decreases objects.len() - i,
    {
        let o = &objects[i];
        if o.attached_to == Some(target) {
            if let Some(m) = o.stat_modifier {
                acc = sat_add_i32(acc, if attack { m.attack } else { m.health });
            }
        }
        i = i + 1;
    }
    acc
}

fn aura_sum(cache: &Option<Vec<AuraApplication>>, start: i32, attack: bool) -> (r: i32)
    ensures
        r == aura_total(cache_of(*cache), start, attack, cache_of(*cache).len() as int),
{
    match cache {
        None => start,
        Some(v) => {
            let mut acc = start;
            let mut i: usize = 0;
            while i < v.len()
                invariant
                    i <= v.len(),
                    acc == aura_total(v@, start, attack, i as int),
                decreases v.len() - i,
            {
                match v[i].modifier {
                    AuraModifier::Attack(amount) => {
                        if attack {
                            acc = sat_add_i32(acc, amount);
                        }
                    },
                    AuraModifier::MaximumHealth(amount) => {
                        if !attack {
                            acc = sat_add_i32(acc, amount);
                        }
                    },
                    _ => {},
                }
                i = i + 1;
            }
            acc
        },
    }
}

/// Recomputes attack and maximum health of `target`; a target that is gone or has no base
/// stats is left alone.
pub fn recalculate_stats(objects: &mut Vec<GameObject>, target: GameEntityId)
    ensures
        match lookup(old(objects)@, target) {
            Some(i) => if old(objects)@[i].base_stats is Some {
                final(objects)@ == old(objects)@.update(i, recalculated_stats(old(objects)@, i))
            } else {
                final(objects)@ == old(objects)@
            },
            None => final(objects)@ == old(objects)@,
        },
{
    let index = match game_entity(objects, target) {
        Some(i) => i,
        None => return,
    };
    let base = match objects[index].base_stats {
        Some(b) => b,
        None => return,
    };
    let attack = aura_sum(
        &objects[index].attack_aura_cache,
        modifier_sum(objects, objects[index].id, base.attack, true),
        true,
    );
    let health = aura_sum(
        &objects[index].health_aura_cache,
        modifier_sum(objects, objects[index].id, base.health, false),
        false,
    );
    let maximum: i32 = if health < 0 {
        0
    } else {
        health
    };
    let damage = match (objects[index].current_stats, objects[index].damage) {
        (Some(previous), Some(d)) => if maximum < previous.maximum_health {
            let remaining = sat_sub_i32(previous.maximum_health, d);
            let shrunk = sat_sub_i32(maximum, remaining);
            Some(
                if shrunk < 0 {
                    0
                } else {
                    shrunk
                },
            )
        } else {
            Some(d)
        },
        _ => objects[index].damage,
    };
    let ghost before = objects@;
    objects[index].current_stats = Some(CurrentStats { attack, maximum_health: maximum });
    objects[index].damage = damage;
    proof {
        assert(objects@ =~= before.update(index as int, recalculated_stats(before, index as int)));
    }
}

/// The keyword modifiers of the enchantments attached to `target` among the first `n` objects,
/// in object order, keyed by play order (absent play order counts as zero).
pub open spec fn keyword_entries(objects: Seq<GameObject>, target: GameEntityId, n: int) -> Seq<Keyed<KeywordModifier>>
    decreases n,
{
    if n <= 0 {
        Seq::empty()
    } else {
        let prev = keyword_entries(objects, target, n - 1);
        let o = objects[n - 1];
        if o.attached_to == Some(target) && o.keyword_modifier is Some {
            prev.push(Keyed { order: play_order_or_zero(o.play_order), id: 0, value: o.keyword_modifier.unwrap() })
        } else {
            prev
        }
    }
}

/// A play order, with an absent one counting as zero.
pub open spec fn play_order_or_zero(order: Option<u64>) -> u64 {
    match order {
        Some(x) => x,
        None => 0,
    }
}

/// `start` after applying the keyword modifiers in order; on a silenced target, modifiers that
/// silence removes are skipped.
pub open spec fn fold_keywords(start: KeywordSet, s: Seq<Keyed<KeywordModifier>>, silenced: bool) -> KeywordSet
    decreases s.len(),
{
    if s.len() == 0 {
        start
    } else {
        let acc = fold_keywords(start, s.drop_last(), silenced);
        let m = s.last().value;
        if silenced && m.silence_removable {
            acc
        } else {
            acc.with(m.keyword, m.granted)
        }
    }
}

/// The object `objects[i]` after its keywords are recalculated: the base keywords (none when
/// silenced), then every attached keyword modifier in stable play order.
pub open spec fn recalculated_keywords(objects: Seq<GameObject>, i: int) -> GameObject {
    let o = objects[i];
    let start = if o.silenced {
        KeywordSet::none()
    } else {
        match o.base_keywords {
            Some(k) => k,
            None => KeywordSet::none(),
        }
    };
    GameObject {
        keywords: Some(
            fold_keywords(
                start,
                sort_keyed(keyword_entries(objects, o.id, objects.len() as int)),
                o.silenced,
            ),
        ),
        ..o
    }
}

/// Recomputes the keywords of `target`; a target that is gone is left alone.
pub fn recalculate_keywords(objects: &mut Vec<GameObject>, target: GameEntityId)
    ensures
        match lookup(old(objects)@, target) {
            Some(i) => final(objects)@ == old(objects)@.update(i, recalculated_keywords(old(objects)@, i)),
            None => final(objects)@ == old(objects)@,
        },
{
    let index = match game_entity(objects, target) {
        Some(i) => i,
        None => return,
    };
    let silenced = objects[index].silenced;
    let start = if silenced {
        KeywordSet::empty()
    } else {
        match objects[index].base_keywords {
            Some(k) => k,
            None => KeywordSet::empty(),
        }
    };
    let id = objects[index].id;
    let mut sorted: Vec<Keyed<KeywordModifier>> = Vec::new();
    let mut i: usize = 0;
    while i < objects.len()
        invariant
            i <= objects.len(),
            id == objects@[index as int].id,
            sorted@ == sort_keyed(keyword_entries(objects@, id, i as int)),
        decreases objects.len() - i,
    {
        let o = &objects[i];
        if o.attached_to == Some(id) {
            if let Some(m) = o.keyword_modifier {
                let order = match o.play_order {
                    Some(x) => x,
                    None => 0,
                };
                let x = Keyed { order, id: 0, value: m };
                proof {
                    let e = keyword_entries(objects@, id, i as int + 1);
                    assert(e.drop_last() =~= keyword_entries(objects@, id, i as int));
                }
                insert_keyed(&mut sorted, x);
            }
        }
        i = i + 1;
    }
    let mut keywords = start;
    let mut k: usize = 0;
    while k < sorted.len()
        invariant
            k <= sorted.len(),
            keywords == fold_keywords(start, sorted@.subrange(0, k as int), silenced),
        decreases sorted.len() - k,
    {
        let m = sorted[k].value;
        proof {
            assert(sorted@.subrange(0, k + 1 as int).drop_last() =~= sorted@.subrange(0, k as int));
        }
        if !(silenced && m.silence_removable) {
            keywords.set(m.keyword, m.granted);
        }
        k = k + 1;
    }
    assert(sorted@.subrange(0, sorted@.len() as int) =~= sorted@);
    let ghost before = objects@;
    objects[index].keywords = Some(keywords);
    proof {
        assert(objects@ =~= before.update(index as int, recalculated_keywords(before, index as int)));
    }
}

/// Whether the keyword modifier `m` takes effect on a target that is `silenced` or not.
pub open spec fn keyword_modifier_applies(m: KeywordModifier, silenced: bool) -> bool {
    !(silenced && m.silence_removable)
}

/// Keyword modifiers: a keyword that no applying modifier names keeps its starting presence, and
/// the last applying modifier that names a keyword decides whether it is present; modifiers of
/// other keywords, or that silence removes from a silenced target, change nothing about it.
pub proof fn law_keyword_modifiers(start: KeywordSet, s: Seq<Keyed<KeywordModifier>>, silenced: bool, k: Keyword)
    ensures
        (forall|j: int| 0 <= j < s.len() ==> (#[trigger] s[j]).value.keyword != k || !keyword_modifier_applies(
            s[j].value,
            silenced,
        )) ==> fold_keywords(start, s, silenced).has(k) == start.has(k),
        s.len() > 0 && s.last().value.keyword == k && keyword_modifier_applies(s.last().value, silenced)
            ==> fold_keywords(start, s, silenced).has(k) == s.last().value.granted,
        s.len() > 0 && (s.last().value.keyword != k || !keyword_modifier_applies(s.last().value, silenced))
            ==> fold_keywords(start, s, silenced).has(k) == fold_keywords(start, s.drop_last(), silenced).has(k),
    decreases s.len(),
{
    if s.len() > 0 {
        let d = s.drop_last();
        law_keyword_modifiers(start, d, silenced, k);
        let m = s.last().value;
        let acc = fold_keywords(start, d, silenced);
        assert(acc.with(m.keyword, m.granted).has(k) == if m.keyword == k { m.granted } else { acc.has(k) }) by {
            match k {
                Keyword::Taunt => {},
                Keyword::Stealth => {},
                Keyword::Immune => {},
                Keyword::Windfury => {},
                Keyword::Charge => {},
                Keyword::Rush => {},
            }
        }
        if forall|j: int| 0 <= j < s.len() ==> (#[trigger] s[j]).value.keyword != k || !keyword_modifier_applies(
            s[j].value,
            silenced,
        ) {
            assert forall|j: int| 0 <= j < d.len() implies (#[trigger] d[j]).value.keyword != k || !keyword_modifier_applies(
                d[j].value,
                silenced,
            ) by {
                assert(d[j] == s[j]);
            }
            assert(s[s.len() - 1] == s.last());
        }
    }
}

/// Whether the cost modifier `m` takes effect on a card that is `silenced` or not.
pub open spec fn cost_modifier_applies(m: CostModifier, silenced: bool) -> bool {
    !(silenced && m.silence_removable)
}

/// Cost modifiers: with none taking effect the cost is the starting cost; when the last one that
/// takes effect replaces the cost, the result is its value; additions add their values (away
/// from the limits of `i32`); modifiers that silence removes from a silenced card change nothing.
pub proof fn law_cost_modifiers(cost: i32, s: Seq<Keyed<CostModifier>>, silenced: bool)
    ensures
        (forall|j: int| 0 <= j < s.len() ==> !cost_modifier_applies((#[trigger] s[j]).value, silenced))
            ==> fold_cost(cost, s, silenced) == cost,
        s.len() > 0 && cost_modifier_applies(s.last().value, silenced) && s.last().value.operation
            == crate::world::CostOperation::Replace ==> fold_cost(cost, s, silenced) == s.last().value.value,
        s.len() > 0 && cost_modifier_applies(s.last().value, silenced) && s.last().value.operation
            == crate::world::CostOperation::Add && i32::MIN <= fold_cost(cost, s.drop_last(), silenced)
            + s.last().value.value <= i32::MAX ==> fold_cost(cost, s, silenced) == fold_cost(cost, s.drop_last(), silenced)
            + s.last().value.value,
        s.len() > 0 && !cost_modifier_applies(s.last().value, silenced) ==> fold_cost(cost, s, silenced) == fold_cost(
            cost,
            s.drop_last(),
            silenced,
        ),
    decreases s.len(),
{
    if s.len() > 0 {
        let d = s.drop_last();
        law_cost_modifiers(cost, d, silenced);
        if forall|j: int| 0 <= j < s.len() ==> !cost_modifier_applies((#[trigger] s[j]).value, silenced) {
            assert forall|j: int| 0 <= j < d.len() implies !cost_modifier_applies((#[trigger] d[j]).value, silenced) by {
                assert(d[j] == s[j]);
            }
            assert(s[s.len() - 1] == s.last());
        }
    }
}

/// The cost modifiers of the enchantments attached to `target` among the first `n` objects, in
/// object order, keyed by play order (absent counts as zero) and then by identity.
pub open spec fn cost_entries(objects: Seq<GameObject>, target: GameEntityId, n: int) -> Seq<Keyed<CostModifier>>
    decreases n,
{
    if n <= 0 {
        Seq::empty()
    } else {
        let prev = cost_entries(objects, target, n - 1);
        let o = objects[n - 1];
        if o.attached_to == Some(target) && o.cost_modifier is Some {
            prev.push(Keyed { order: play_order_or_zero(o.play_order), id: o.id.0, value: o.cost_modifier.unwrap() })
        } else {
            prev
        }
    }
}

/// `cost` after applying the cost modifiers in order; on a silenced card, modifiers that silence
/// removes are skipped.
pub open spec fn fold_cost(cost: i32, s: Seq<Keyed<CostModifier>>, silenced: bool) -> i32
    decreases s.len(),
{
    if s.len() == 0 {
        cost
    } else {
        let acc = fold_cost(cost, s.drop_last(), silenced);
        let m = s.last().value;
        if silenced && m.silence_removable {
            acc
        } else {
            cost_after(acc, m)
        }
    }
}

/// The object `objects[i]` after its cost is recalculated from its base cost and the attached
/// cost modifiers, applied in play order and then identity order.
pub open spec fn recalculated_cost(objects: Seq<GameObject>, i: int) -> GameObject {
    let o = objects[i];
    let rt = o.card_runtime.unwrap();
    GameObject {
        card_runtime: Some(
            crate::world::CardRuntime {
                cost: fold_cost(rt.base_cost, sort_keyed(cost_entries(objects, o.id, objects.len() as int)), o.silenced),
                ..rt
            },
        ),
        ..o
    }
}

/// The cost of `objects[index]` from `base_cost` and the cost modifiers attached to it, applied
/// in play order and then identity order; on a silenced card, modifiers that silence removes
/// are skipped.
pub fn effective_cost(objects: &Vec<GameObject>, index: usize, base_cost: i32) -> (r: i32)
    requires
        index < objects@.len(),
    ensures
        r == fold_cost(
            base_cost,
            sort_keyed(cost_entries(objects@, objects@[index as int].id, objects@.len() as int)),
            objects@[index as int].silenced,
        ),
{
    let silenced = objects[index].silenced;
    let id = objects[index].id;
    let mut sorted: Vec<Keyed<CostModifier>> = Vec::new();
    let mut i: usize = 0;
    while i < objects.len()
        invariant
            i <= objects.len(),
            id == objects@[index as int].id,
            sorted@ == sort_keyed(cost_entries(objects@, id, i as int)),
        decreases objects.len() - i,
    {
        let o = &objects[i];
        if o.attached_to == Some(id) {
            if let Some(m) = o.cost_modifier {
                let order = match o.play_order {
                    Some(x) => x,
                    None => 0,
                };
                let x = Keyed { order, id: o.id.0, value: m };
                proof {
                    let e = cost_entries(objects@, id, i as int + 1);
                    assert(e.drop_last() =~= cost_entries(objects@, id, i as int));
                }
                insert_keyed(&mut sorted, x);
            }
        }
        i = i + 1;
    }
    let mut cost = base_cost;
    let mut k: usize = 0;
    while k < sorted.len()
        invariant
            k <= sorted.len(),
            cost == fold_cost(base_cost, sorted@.subrange(0, k as int), silenced),
        decreases sorted.len() - k,
    {
        let m = sorted[k].value;
        proof {
            assert(sorted@.subrange(0, k + 1 as int).drop_last() =~= sorted@.subrange(0, k as int));
        }
        if !(silenced && m.silence_removable) {
            cost = m.apply(cost);
        }
        k = k + 1;
    }
    assert(sorted@.subrange(0, sorted@.len() as int) =~= sorted@);
    cost
}

/// Recomputes the effective cost of `target`; a target that is gone or is not a card is left
/// alone.
pub fn recalculate_cost(objects: &mut Vec<GameObject>, target: GameEntityId)
    ensures
        match lookup(old(objects)@, target) {
            Some(i) => if old(objects)@[i].card_runtime is Some {
                final(objects)@ == old(objects)@.update(i, recalculated_cost(old(objects)@, i))
            } else {
                final(objects)@ == old(objects)@
            },
            None => final(objects)@ == old(objects)@,
        },
{
    let index = match game_entity(objects, target) {
        Some(i) => i,
        None => return,
    };
    let runtime = match objects[index].card_runtime {
        Some(r) => r,
        None => return,
    };
    let cost = effective_cost(objects, index, runtime.base_cost);
    let ghost before = objects@;
    objects[index].card_runtime = Some(crate::world::CardRuntime { cost, ..runtime });
    proof {
        assert(objects@ =~= before.update(index as int, recalculated_cost(before, index as int)));
    }
}

/// The rule an enchantment object breaks, if any: every enchantment has a duration, and an
/// attached enchantment is in play.
pub open spec fn enchantment_fault(o: GameObject) -> Option<InvariantViolation> {
    if o.kind == Some(EntityKind::Enchantment) {
        if o.enchantment_duration is None {
            Some(InvariantViolation::EnchantmentWithoutDuration(o.id))
        } else if o.attached_to is Some && o.zone != Some(Zone::Play) {
            Some(InvariantViolation::AttachedEnchantmentOutsidePlay(o.id))
        } else {
            None
        }
    } else {
        None
    }
}

/// Checks the enchantment rules and reports the first object, in object order, that breaks one.
pub fn assert_enchantment_invariants(objects: &Vec<GameObject>) -> (r: Result<(), InvariantViolation>)
    ensures
        r is Ok <==> forall|i: int| 0 <= i < objects@.len() ==> enchantment_fault(#[trigger] objects@[i]) is None,
        r matches Err(e) ==> exists|i: int|
            0 <= i < objects@.len() && enchantment_fault(#[trigger] objects@[i]) == Some(e) && forall|j: int|
                0 <= j < i ==> enchantment_fault(#[trigger] objects@[j]) is None,
{
    let mut i: usize = 0;
    while i < objects.len()
        invariant
            i <= objects.len(),
            forall|j: int| 0 <= j < i ==> enchantment_fault(#[trigger] objects@[j]) is None,
        decreases objects.len() - i,
    {
        let o = &objects[i];
        if o.kind == Some(EntityKind::Enchantment) {
            if o.enchantment_duration.is_none() {
                return Err(InvariantViolation::EnchantmentWithoutDuration(o.id));
            }
            if o.attached_to.is_some() && o.zone != Some(Zone::Play) {
                return Err(InvariantViolation::AttachedEnchantmentOutsidePlay(o.id));
            }
        }
        i = i + 1;
    }
    Ok(())
}

} // verus!
