//! Rewriting aura caches from discovered applications, category by category.
use vstd::prelude::*;

use crate::aura::{
    apply_cache_updates, discover_aura_applications, discovered_for, cache_applications, cache_field, find_update, holder_among, holds_cache,
    lemma_lookup_unique, lemma_update_for, lemma_updated_object_identity, lemma_without_absent_provider,
    target_ids, targets_distinct, targets_increasing, unique_ids, update_entries, update_for,
    updated_object, cache_update_entry, expected_from, without_provider, CacheUpdate,
};
use crate::enchantment::cache_of;
use crate::rng::{lemma_canonical_unique, sort_dedup, strictly_increasing};
use crate::trace::{trace_view, TraceEntry, TraceEntryView};
use crate::types::GameEntityId;
use crate::world::{game_entity, has_id, lookup, AuraApplication, AuraCategory, GameObject};

verus! {

/// What the cache of category `c` of `o` becomes: without `merge`, the applications `d` assigns
/// to `o`; with a provider, the applications `o` holds minus those of that provider, followed by
/// the applications `d` assigns to `o`.
pub open spec fn target_apps(
    o: GameObject,
    c: AuraCategory,
    d: Seq<CacheUpdate>,
    merge: Option<GameEntityId>,
) -> Seq<AuraApplication> {
    match merge {
        None => expected_from(d, o.id),
        Some(p) => without_provider(cache_of(cache_field(o, c)), p) + expected_from(d, o.id),
    }
}

/// Whether every object of `new` is the object of `old` at the same position with its cache of
/// category `c` set to `target_apps`.
pub open spec fn caches_rewritten(
    old_objects: Seq<GameObject>,
    new_objects: Seq<GameObject>,
    c: AuraCategory,
    d: Seq<CacheUpdate>,
    merge: Option<GameEntityId>,
) -> bool {
    &&& new_objects.len() == old_objects.len()
    &&& forall|i: int|
        0 <= i < old_objects.len() ==> updated_object(
            old_objects,
            i,
            c,
            target_apps(old_objects[i], c, d, merge),
            #[trigger] new_objects[i],
        )
}

/// Whether `s` lists, in increasing order and once each, the targets of `d` and the objects
/// holding a cache of category `c` (with an application of `merge`, when given).
pub open spec fn rewrite_order(
    objects: Seq<GameObject>,
    c: AuraCategory,
    d: Seq<CacheUpdate>,
    merge: Option<GameEntityId>,
    s: Seq<GameEntityId>,
) -> bool {
    &&& strictly_increasing(s)
    &&& forall|x: GameEntityId| #[trigger]
        s.contains(x) <==> (update_for(d, x) is Some || holder_among(objects, c, merge, x, objects.len() as int))
}

/// The identities whose caches a rewrite visits, in the order it visits them.
pub open spec fn rewrite_targets(
    objects: Seq<GameObject>,
    c: AuraCategory,
    d: Seq<CacheUpdate>,
    merge: Option<GameEntityId>,
) -> Seq<GameEntityId> {
    choose|s: Seq<GameEntityId>| rewrite_order(objects, c, d, merge, s)
}

/// The trace entries of visiting the first `n` identities of `s`.
pub open spec fn rewrite_entries(
    objects: Seq<GameObject>,
    c: AuraCategory,
    d: Seq<CacheUpdate>,
    merge: Option<GameEntityId>,
    s: Seq<GameEntityId>,
    n: int,
) -> Seq<TraceEntryView>
    decreases n,
{
    if n <= 0 {
        Seq::empty()
    } else {
        let prev = rewrite_entries(objects, c, d, merge, s, n - 1);
        match lookup(objects, s[n - 1]) {
            Some(i) => prev + cache_update_entry(objects, i, c, target_apps(objects[i], c, d, merge)),
            None => prev,
        }
    }
}

/// The trace entries of a whole rewrite.
pub open spec fn rewrite_trace(
    objects: Seq<GameObject>,
    c: AuraCategory,
    d: Seq<CacheUpdate>,
    merge: Option<GameEntityId>,
) -> Seq<TraceEntryView> {
    let s = rewrite_targets(objects, c, d, merge);
    rewrite_entries(objects, c, d, merge, s, s.len() as int)
}

fn applications_without(apps: &Vec<AuraApplication>, p: GameEntityId) -> (r: Vec<AuraApplication>)
    ensures
        r@ == without_provider(apps@, p),
{
    let mut r: Vec<AuraApplication> = Vec::new();
    let mut k: usize = 0;
    while k < apps.len()
        invariant
            k <= apps.len(),
            r@ == without_provider(apps@.subrange(0, k as int), p),
        decreases apps.len() - k,
    {
        proof {
            assert(apps@.subrange(0, k + 1).drop_last() =~= apps@.subrange(0, k as int));
        }
        if apps[k].provider != p {
            r.push(apps[k]);
        }
        k = k + 1;
    }
    assert(apps@.subrange(0, apps@.len() as int) =~= apps@);
    r
}

fn rewrite_updates(
    objects: &Vec<GameObject>,
    c: AuraCategory,
    d: &Vec<CacheUpdate>,
    merge: Option<GameEntityId>,
    targets: &Vec<GameEntityId>,
) -> (r: Vec<CacheUpdate>)
    requires
        targets_distinct(d@),
    ensures
        r@.len() == targets@.len(),
        forall|k: int|
            0 <= k < r@.len() ==> (#[trigger] r@[k]).target == targets@[k] && (lookup(objects@, targets@[k]) matches Some(i)
                ==> r@[k].applications@ == target_apps(objects@[i], c, d@, merge)),
{
    let mut r: Vec<CacheUpdate> = Vec::new();
    let mut k: usize = 0;
    while k < targets.len()
        invariant
            k <= targets.len(),
            targets_distinct(d@),
            r@.len() == k,
            forall|m: int|
                0 <= m < k ==> (#[trigger] r@[m]).target == targets@[m] && (lookup(objects@, targets@[m]) matches Some(i)
                    ==> r@[m].applications@ == target_apps(objects@[i], c, d@, merge)),
        decreases targets.len() - k,
    {
        let t = targets[k];
        let found = game_entity(objects, t);
        let apps = match merge {
            None => find_update(d, t),
            Some(p) => match found {
                Some(i) => {
                    let (_, current) = cache_applications(&objects[i], c);
                    let mut kept = applications_without(&current, p);
                    let mut assigned = find_update(d, t);
                    kept.append(&mut assigned);
                    kept
                },
                None => Vec::new(),
            },
        };
        proof {
            if let Some(i) = found {
                assert(objects@[i as int].id == t);
            }
        }
        r.push(CacheUpdate { target: t, applications: apps });
        k = k + 1;
    }
    r
}

proof fn lemma_rewrite_entries(
    objects: Seq<GameObject>,
    c: AuraCategory,
    d: Seq<CacheUpdate>,
    merge: Option<GameEntityId>,
    s: Seq<GameEntityId>,
    updates: Seq<CacheUpdate>,
    n: int,
)
    requires
        0 <= n <= s.len(),
        updates.len() == s.len(),
        forall|k: int|
            0 <= k < updates.len() ==> (#[trigger] updates[k]).target == s[k] && (lookup(objects, s[k]) matches Some(i)
                ==> updates[k].applications@ == target_apps(objects[i], c, d, merge)),
    ensures
        update_entries(objects, c, updates, n) == rewrite_entries(objects, c, d, merge, s, n),
    decreases n,
{
    if n > 0 {
        lemma_rewrite_entries(objects, c, d, merge, s, updates, n - 1);
        assert(updates[n - 1].target == s[n - 1]);
    }
}

proof fn lemma_rewrite_objects(
    o0: Seq<GameObject>,
    o1: Seq<GameObject>,
    c: AuraCategory,
    d: Seq<CacheUpdate>,
    merge: Option<GameEntityId>,
    s: Seq<GameEntityId>,
    updates: Seq<CacheUpdate>,
)
    requires
        unique_ids(o0),
        rewrite_order(o0, c, d, merge, s),
        updates.len() == s.len(),
        targets_distinct(updates),
        forall|k: int|
            0 <= k < updates.len() ==> (#[trigger] updates[k]).target == s[k] && (lookup(o0, s[k]) matches Some(i)
                ==> updates[k].applications@ == target_apps(o0[i], c, d, merge)),
        o1.len() == o0.len(),
        forall|i: int|
            0 <= i < o0.len() ==> match update_for(updates, o0[i].id) {
                Some(apps) => updated_object(o0, i, c, apps, #[trigger] o1[i]),
                None => o1[i] == o0[i],
            },
    ensures
        caches_rewritten(o0, o1, c, d, merge),
{
    assert forall|i: int| 0 <= i < o0.len() implies updated_object(
        o0,
        i,
        c,
        target_apps(o0[i], c, d, merge),
        #[trigger] o1[i],
    ) by {
        let id = o0[i].id;
        lemma_lookup_unique(o0, i);
        if s.contains(id) {
            let k = choose|k: int| 0 <= k < s.len() && s[k] == id;
            assert(updates[k].target == id);
            lemma_update_for(updates, k);
        } else {
            assert(update_for(updates, id) is None) by {
                if exists|k: int| 0 <= k < updates.len() && (#[trigger] updates[k]).target == id {
                    let k = choose|k: int| 0 <= k < updates.len() && (#[trigger] updates[k]).target == id;
                    assert(s[k] == id);
                }
            }
            assert(update_for(d, id) is None);
            assert(!holds_cache(o0[i], c, merge)) by {
                if holds_cache(o0[i], c, merge) {
                    assert(holder_among(o0, c, merge, id, o0.len() as int));
                }
            }
            let current = cache_of(cache_field(o0[i], c));
            assert(target_apps(o0[i], c, d, merge) == current) by {
                match merge {
                    None => {
                        assert(current =~= Seq::<AuraApplication>::empty());
                    },
                    Some(p) => {
                        assert forall|m: int| 0 <= m < current.len() implies (#[trigger] current[m]).provider != p by {
                            if current[m].provider == p {
                                assert(holds_cache(o0[i], c, merge));
                            }
                        }
                        lemma_without_absent_provider(current, p);
                        assert(current + Seq::<AuraApplication>::empty() =~= current);
                    },
                }
            }
            lemma_updated_object_identity(o0, i, c);
        }
    }
}

fn rewrite_category(
    objects: &mut Vec<GameObject>,
    trace: &mut Vec<TraceEntry>,
    c: AuraCategory,
    d: &Vec<CacheUpdate>,
    merge: Option<GameEntityId>,
)
    requires
        unique_ids(old(objects)@),
        targets_distinct(d@),
    ensures
        caches_rewritten(old(objects)@, final(objects)@, c, d@, merge),
        trace_view(final(trace)@) == trace_view(old(trace)@) + rewrite_trace(old(objects)@, c, d@, merge),
{
    let ids = target_ids(objects, c, d, merge);
    let sorted = sort_dedup(&ids);
    let updates = rewrite_updates(objects, c, d, merge, &sorted);
    let ghost o0 = objects@;
    let ghost s = sorted@;
    proof {
        assert(rewrite_order(o0, c, d@, merge, s)) by {
            assert forall|x: GameEntityId| #[trigger] s.contains(x) <==> (update_for(d@, x) is Some
                || holder_among(o0, c, merge, x, o0.len() as int)) by {
                assert(s.contains(x) <==> ids@.contains(x));
            }
        }
        assert(targets_increasing(updates@)) by {
            assert forall|a: int, b: int| 0 <= a < b < updates@.len() implies (#[trigger] updates@[a]).target.0
                < (#[trigger] updates@[b]).target.0 by {
                assert(s[a].0 < s[b].0);
            }
        }
        assert(targets_distinct(updates@)) by {
            assert forall|a: int, b: int|
                0 <= a < updates@.len() && 0 <= b < updates@.len() && a != b implies (#[trigger] updates@[a]).target
                    != (#[trigger] updates@[b]).target by {
                if a < b {
                    assert(s[a].0 < s[b].0);
                } else {
                    assert(s[b].0 < s[a].0);
                }
            }
        }
    }
    apply_cache_updates(objects, trace, c, &updates);
    proof {
        lemma_rewrite_objects(o0, objects@, c, d@, merge, s, updates@);
        let chosen = rewrite_targets(o0, c, d@, merge);
        assert(rewrite_order(o0, c, d@, merge, chosen));
        assert forall|x: GameEntityId| chosen.contains(x) <==> s.contains(x) by {
            assert(chosen.contains(x) <==> (update_for(d@, x) is Some || holder_among(o0, c, merge, x, o0.len() as int)));
            assert(s.contains(x) <==> (update_for(d@, x) is Some || holder_among(o0, c, merge, x, o0.len() as int)));
        }
        lemma_canonical_unique(chosen, s);
        lemma_rewrite_entries(o0, c, d@, merge, s, updates@, s.len() as int);
    }
}

/// Replaces the aura cache of category `c` of every object that `d` names or that already holds
/// such a cache, in increasing order of identity, with the applications `d` assigns it (none
/// when `d` names it not).
pub fn replace_category(
    objects: &mut Vec<GameObject>,
    trace: &mut Vec<TraceEntry>,
    c: AuraCategory,
    d: &Vec<CacheUpdate>,
)
    requires
        unique_ids(old(objects)@),
        targets_distinct(d@),
    ensures
        caches_rewritten(old(objects)@, final(objects)@, c, d@, None),
        trace_view(final(trace)@) == trace_view(old(trace)@) + rewrite_trace(old(objects)@, c, d@, None),
{
    rewrite_category(objects, trace, c, d, None);
}

/// Rewrites the aura cache of category `c` of every object that `d` names or whose cache holds
/// an application of `provider`, in increasing order of identity: the applications of
/// `provider` are dropped and those `d` assigns are appended.
pub fn merge_provider_category(
    objects: &mut Vec<GameObject>,
    trace: &mut Vec<TraceEntry>,
    c: AuraCategory,
    provider: GameEntityId,
    d: &Vec<CacheUpdate>,
)
    requires
        unique_ids(old(objects)@),
        targets_distinct(d@),
    ensures
        caches_rewritten(old(objects)@, final(objects)@, c, d@, Some(provider)),
        trace_view(final(trace)@) == trace_view(old(trace)@) + rewrite_trace(old(objects)@, c, d@, Some(provider)),
{
    rewrite_category(objects, trace, c, d, Some(provider));
}

/// Whether `d` is what discovery of category `c` (restricted to `only`) finds in `objects`: one
/// entry per object that receives at least one application, holding those applications.
pub open spec fn is_discovery(
    objects: Seq<GameObject>,
    only: Option<GameEntityId>,
    c: AuraCategory,
    d: Seq<CacheUpdate>,
) -> bool {
    &&& targets_distinct(d)
    &&& forall|k: int| 0 <= k < d.len() ==> has_id(objects, (#[trigger] d[k]).target)
    &&& forall|i: int|
        0 <= i < objects.len() ==> update_for(d, (#[trigger] objects[i]).id) == (if discovered_for(
            objects,
            only,
            c,
            objects[i],
        ).len() > 0 {
            Some(discovered_for(objects, only, c, objects[i]))
        } else {
            None
        })
}

/// Whether every aura definition list of `objects` can be numbered with a `u32`.
pub open spec fn auras_indexable(objects: Seq<GameObject>) -> bool {
    forall|i: int| 0 <= i < objects.len() ==> match (#[trigger] objects[i]).runtime_auras {
        Some(defs) => defs@.len() <= u32::MAX + 1,
        None => true,
    }
}

/// Rewriting caches keeps every identity.
pub proof fn lemma_rewrite_keeps_ids(
    o0: Seq<GameObject>,
    o1: Seq<GameObject>,
    c: AuraCategory,
    d: Seq<CacheUpdate>,
    merge: Option<GameEntityId>,
)
    requires
        caches_rewritten(o0, o1, c, d, merge),
    ensures
        forall|i: int| 0 <= i < o0.len() ==> (#[trigger] o1[i]).id == o0[i].id && o1[i].runtime_auras
            == o0[i].runtime_auras,
        unique_ids(o0) ==> unique_ids(o1),
        auras_indexable(o0) ==> auras_indexable(o1),
{
    assert forall|i: int| 0 <= i < o0.len() implies (#[trigger] o1[i]).id == o0[i].id && o1[i].runtime_auras
        == o0[i].runtime_auras by {
        assert(updated_object(o0, i, c, target_apps(o0[i], c, d, merge), o1[i]));
    }
}

fn discover(objects: &Vec<GameObject>, only: Option<GameEntityId>, c: AuraCategory) -> (r: Vec<CacheUpdate>)
    requires
        unique_ids(objects@),
        auras_indexable(objects@),
    ensures
        is_discovery(objects@, only, c, r@),
{
    discover_aura_applications(objects, only, c)
}

/// Whether `o1` and `t1` are the objects and trace after refreshing the health and then the
/// attack aura caches of `o0` from one discovery of every provider.
pub open spec fn health_attack_pass(
    o0: Seq<GameObject>,
    t0: Seq<TraceEntry>,
    o1: Seq<GameObject>,
    t1: Seq<TraceEntry>,
) -> bool {
    exists|mid: Seq<GameObject>, dh: Seq<CacheUpdate>, da: Seq<CacheUpdate>|
        {
            &&& is_discovery(o0, None, AuraCategory::Health, dh)
            &&& is_discovery(o0, None, AuraCategory::Attack, da)
            &&& caches_rewritten(o0, mid, AuraCategory::Health, dh, None)
            &&& caches_rewritten(mid, o1, AuraCategory::Attack, da, None)
            &&& trace_view(t1) == trace_view(t0) + rewrite_trace(o0, AuraCategory::Health, dh, None) + rewrite_trace(
                mid,
                AuraCategory::Attack,
                da,
                None,
            )
        }
}

/// Refreshes the health and then the attack aura caches from one discovery of every provider.
pub fn refresh_health_attack_auras(objects: &mut Vec<GameObject>, trace: &mut Vec<TraceEntry>)
    requires
        unique_ids(old(objects)@),
        auras_indexable(old(objects)@),
    ensures
        unique_ids(final(objects)@),
        auras_indexable(final(objects)@),
        final(objects)@.len() == old(objects)@.len(),
        forall|i: int| 0 <= i < old(objects)@.len() ==> (#[trigger] final(objects)@[i]).id == old(objects)@[i].id,
        health_attack_pass(old(objects)@, old(trace)@, final(objects)@, final(trace)@),
{
    let ghost o0 = objects@;
    let ghost t0 = trace@;
    let health = discover(objects, None, AuraCategory::Health);
    let attack = discover(objects, None, AuraCategory::Attack);
    replace_category(objects, trace, AuraCategory::Health, &health);
    let ghost mid = objects@;
    let ghost t1 = trace@;
    proof {
        lemma_rewrite_keeps_ids(o0, mid, AuraCategory::Health, health@, None);
    }
    replace_category(objects, trace, AuraCategory::Attack, &attack);
    proof {
        assert(trace_view(trace@) == trace_view(t0) + rewrite_trace(o0, AuraCategory::Health, health@, None)
            + rewrite_trace(mid, AuraCategory::Attack, attack@, None));
        lemma_rewrite_keeps_ids(mid, objects@, AuraCategory::Attack, attack@, None);
        assert(health_attack_pass(o0, t0, objects@, trace@));
    }
}

/// Whether `o1` and `t1` are the objects and trace after refreshing the attack and then the
/// other aura caches of `o0` from one discovery of every provider.
pub open spec fn attack_other_pass(
    o0: Seq<GameObject>,
    t0: Seq<TraceEntry>,
    o1: Seq<GameObject>,
    t1: Seq<TraceEntry>,
) -> bool {
    exists|mid: Seq<GameObject>, da: Seq<CacheUpdate>, dother: Seq<CacheUpdate>|
        {
            &&& is_discovery(o0, None, AuraCategory::Attack, da)
            &&& is_discovery(o0, None, AuraCategory::Other, dother)
            &&& caches_rewritten(o0, mid, AuraCategory::Attack, da, None)
            &&& caches_rewritten(mid, o1, AuraCategory::Other, dother, None)
            &&& trace_view(t1) == trace_view(t0) + rewrite_trace(o0, AuraCategory::Attack, da, None) + rewrite_trace(
                mid,
                AuraCategory::Other,
                dother,
                None,
            )
        }
}

/// After deaths, health auras stay as they were: the refresh of the attack and other caches
/// leaves every health aura cache unchanged.
pub proof fn law_post_death_refresh_keeps_health_caches(
    o0: Seq<GameObject>,
    t0: Seq<TraceEntry>,
    o1: Seq<GameObject>,
    t1: Seq<TraceEntry>,
)
    requires
        attack_other_pass(o0, t0, o1, t1),
    ensures
        o1.len() == o0.len(),
        forall|i: int| 0 <= i < o0.len() ==> (#[trigger] o1[i]).health_aura_cache == o0[i].health_aura_cache,
{
    let (mid, da, dother) = choose|mid: Seq<GameObject>, da: Seq<CacheUpdate>, dother: Seq<CacheUpdate>|
        {
            &&& is_discovery(o0, None, AuraCategory::Attack, da)
            &&& is_discovery(o0, None, AuraCategory::Other, dother)
            &&& caches_rewritten(o0, mid, AuraCategory::Attack, da, None)
            &&& caches_rewritten(mid, o1, AuraCategory::Other, dother, None)
            &&& trace_view(t1) == trace_view(t0) + rewrite_trace(o0, AuraCategory::Attack, da, None) + rewrite_trace(
                mid,
                AuraCategory::Other,
                dother,
                None,
            )
        };
    assert forall|i: int| 0 <= i < o0.len() implies (#[trigger] o1[i]).health_aura_cache == o0[i].health_aura_cache by {
        assert(mid[i].health_aura_cache == o0[i].health_aura_cache);
        assert(o1[i].health_aura_cache == mid[i].health_aura_cache);
    }
}

/// Refreshes the attack and then the other aura caches after deaths; health auras are left as
/// they are, so that removed providers stop granting attack and other effects before death
/// events run.
pub fn refresh_post_death_auras(objects: &mut Vec<GameObject>, trace: &mut Vec<TraceEntry>)
    requires
        unique_ids(old(objects)@),
        auras_indexable(old(objects)@),
    ensures
        unique_ids(final(objects)@),
        auras_indexable(final(objects)@),
        final(objects)@.len() == old(objects)@.len(),
        forall|i: int| 0 <= i < old(objects)@.len() ==> (#[trigger] final(objects)@[i]).id == old(objects)@[i].id,
        attack_other_pass(old(objects)@, old(trace)@, final(objects)@, final(trace)@),
{
    let ghost o0 = objects@;
    let ghost t0 = trace@;
    let attack = discover(objects, None, AuraCategory::Attack);
    let other = discover(objects, None, AuraCategory::Other);
    replace_category(objects, trace, AuraCategory::Attack, &attack);
    let ghost mid = objects@;
    proof {
        lemma_rewrite_keeps_ids(o0, mid, AuraCategory::Attack, attack@, None);
    }
    replace_category(objects, trace, AuraCategory::Other, &other);
    proof {
        lemma_rewrite_keeps_ids(mid, objects@, AuraCategory::Other, other@, None);
        assert(trace_view(trace@) == trace_view(t0) + rewrite_trace(o0, AuraCategory::Attack, attack@, None)
            + rewrite_trace(mid, AuraCategory::Other, other@, None));
    }
}

/// Whether refreshing every aura category took objects `o0` and trace `t0` to `o1` and `t1`.
pub open spec fn all_refreshed(o0: Seq<GameObject>, o1: Seq<GameObject>, t0: Seq<TraceEntry>, t1: Seq<TraceEntry>) -> bool {
    exists|m1: Seq<GameObject>, m2: Seq<GameObject>, dh: Seq<CacheUpdate>, da: Seq<CacheUpdate>, dother: Seq<CacheUpdate>|
        {
            &&& is_discovery(o0, None, AuraCategory::Health, dh)
            &&& is_discovery(o0, None, AuraCategory::Attack, da)
            &&& is_discovery(o0, None, AuraCategory::Other, dother)
            &&& caches_rewritten(o0, m1, AuraCategory::Health, dh, None)
            &&& caches_rewritten(m1, m2, AuraCategory::Attack, da, None)
            &&& caches_rewritten(m2, o1, AuraCategory::Other, dother, None)
            &&& trace_view(t1) == trace_view(t0) + rewrite_trace(
                o0,
                AuraCategory::Health,
                dh,
                None,
            ) + rewrite_trace(m1, AuraCategory::Attack, da, None) + rewrite_trace(
                m2,
                AuraCategory::Other,
                dother,
                None,
            )
        }
}

/// Refreshes the health, attack and other aura caches, in that order, from one discovery of
/// every provider.
pub fn refresh_all_auras(objects: &mut Vec<GameObject>, trace: &mut Vec<TraceEntry>)
    requires
        unique_ids(old(objects)@),
        auras_indexable(old(objects)@),
    ensures
        unique_ids(final(objects)@),
        auras_indexable(final(objects)@),
        all_refreshed(old(objects)@, final(objects)@, old(trace)@, final(trace)@),

{
    let ghost o0 = objects@;
    let ghost t0 = trace@;
    let health = discover(objects, None, AuraCategory::Health);
    let attack = discover(objects, None, AuraCategory::Attack);
    let other = discover(objects, None, AuraCategory::Other);
    replace_category(objects, trace, AuraCategory::Health, &health);
    let ghost m1 = objects@;
    proof {
        lemma_rewrite_keeps_ids(o0, m1, AuraCategory::Health, health@, None);
    }
    replace_category(objects, trace, AuraCategory::Attack, &attack);
    let ghost m2 = objects@;
    proof {
        lemma_rewrite_keeps_ids(m1, m2, AuraCategory::Attack, attack@, None);
    }
    replace_category(objects, trace, AuraCategory::Other, &other);
    proof {
        assert(trace_view(trace@) == trace_view(t0) + rewrite_trace(o0, AuraCategory::Health, health@, None)
            + rewrite_trace(m1, AuraCategory::Attack, attack@, None) + rewrite_trace(m2, AuraCategory::Other, other@, None));
    }
}

/// Whether merging the applications of `provider` took objects `o0` and trace `t0` to `o1` and `t1`.
pub open spec fn provider_refreshed(o0: Seq<GameObject>, o1: Seq<GameObject>, t0: Seq<TraceEntry>, t1: Seq<TraceEntry>, provider: GameEntityId) -> bool {
    exists|m1: Seq<GameObject>, m2: Seq<GameObject>, dh: Seq<CacheUpdate>, da: Seq<CacheUpdate>, dother: Seq<CacheUpdate>|
        {
            &&& is_discovery(o0, Some(provider), AuraCategory::Health, dh)
            &&& is_discovery(o0, Some(provider), AuraCategory::Attack, da)
            &&& is_discovery(o0, Some(provider), AuraCategory::Other, dother)
            &&& caches_rewritten(o0, m1, AuraCategory::Health, dh, Some(provider))
            &&& caches_rewritten(m1, m2, AuraCategory::Attack, da, Some(provider))
            &&& caches_rewritten(m2, o1, AuraCategory::Other, dother, Some(provider))
            &&& trace_view(t1) == trace_view(t0) + rewrite_trace(
                o0,
                AuraCategory::Health,
                dh,
                Some(provider),
            ) + rewrite_trace(m1, AuraCategory::Attack, da, Some(provider)) + rewrite_trace(
                m2,
                AuraCategory::Other,
                dother,
                Some(provider),
            )
        }
}

/// Brings the aura caches up to date with one newly played provider: in each category, in the
/// order health, attack, other, its earlier applications are dropped and its current ones
/// appended.
pub fn refresh_played_provider(objects: &mut Vec<GameObject>, trace: &mut Vec<TraceEntry>, provider: GameEntityId)
    requires
        unique_ids(old(objects)@),
        auras_indexable(old(objects)@),
    ensures
        unique_ids(final(objects)@),
        auras_indexable(final(objects)@),
        provider_refreshed(old(objects)@, final(objects)@, old(trace)@, final(trace)@, provider),

{
    let ghost o0 = objects@;
    let ghost t0 = trace@;
    let health = discover(objects, Some(provider), AuraCategory::Health);
    let attack = discover(objects, Some(provider), AuraCategory::Attack);
    let other = discover(objects, Some(provider), AuraCategory::Other);
    merge_provider_category(objects, trace, AuraCategory::Health, provider, &health);
    let ghost m1 = objects@;
    proof {
        lemma_rewrite_keeps_ids(o0, m1, AuraCategory::Health, health@, Some(provider));
    }
    merge_provider_category(objects, trace, AuraCategory::Attack, provider, &attack);
    let ghost m2 = objects@;
    proof {
        lemma_rewrite_keeps_ids(m1, m2, AuraCategory::Attack, attack@, Some(provider));
    }
    merge_provider_category(objects, trace, AuraCategory::Other, provider, &other);
    proof {
        assert(trace_view(trace@) == trace_view(t0) + rewrite_trace(o0, AuraCategory::Health, health@, Some(provider))
            + rewrite_trace(m1, AuraCategory::Attack, attack@, Some(provider)) + rewrite_trace(m2, AuraCategory::Other, other@, Some(provider)));
    }
}

} // verus!
