//! Checkpoints: a complete, checkable copy of a game that a new world can be restored from.
use std::collections::BTreeMap;
use vstd::prelude::*;

use crate::aura::{copy_applications, unique_ids};
use crate::error::{CheckpointError, CounterKind, InvariantViolation, SimulationError};
use crate::operations::{copy_ids, copy_operation, copy_request, OpView, PendingChoice, ResolutionOp, StackedResolutionOp};
use crate::resolver::ResolutionWork;
use crate::rng::{DeterministicRng, RngSnapshot, RNG_ALGORITHM_VERSION};
use crate::sorting::{insert_keyed, sort_keyed, Keyed};
use crate::trace::{trace_view, TraceEntry, TraceEntryView};
use crate::types::{EntityKind, GameEntityId, PlayerId, Zone};
use crate::enchantment::{cache_of, cost_entries, effective_cost, fold_cost};
use crate::player::{player_objects, players_of};
use crate::world::{
    game_entity, has_id, AuraApplication, AuraDefinition, ContinuousEffectDefinition, DeathRecord, GameObject,
    GameState, Ruleset, TurnSchedule, World, ZoneIndex, RULEBOOK_REVISION,
};

verus! {

broadcast use vstd::std_specs::btree::group_btree_axioms;

/// The version of the checkpoint layout this library reads and writes.
pub const CHECKPOINT_SCHEMA_VERSION: u32 = 16;

/// A complete copy of a game: the objects in order of identity with their zone positions, and
/// every resource of the world.
#[derive(Debug, PartialEq, Eq)]
pub struct SimulationCheckpoint {
    pub schema_version: u32,
    pub ruleset: Ruleset,
    pub game: GameState,
    pub extra_turns: Vec<PlayerId>,
    pub dominant_player: PlayerId,
    pub next_game_entity_id: u64,
    pub next_play_order: u64,
    pub rng: RngSnapshot,
    /// The ruleset the trace was recorded under.
    pub trace_ruleset: u64,
    pub trace: Vec<TraceEntry>,
    pub deaths: Vec<DeathRecord>,
    pub pending_deaths: Vec<DeathRecord>,
    pub defeated_heroes: Vec<PlayerId>,
    pub resolution: ResolutionWork,
    pub entities: Vec<GameObject>,
    /// The position of each entity in its zone, when it has one.
    pub zone_positions: Vec<Option<u64>>,
}

/// The contents of an optional vector.
pub open spec fn opt_seq<T>(v: Option<Vec<T>>) -> Option<Seq<T>> {
    match v {
        Some(v) => Some(v@),
        None => None,
    }
}

/// Whether `a` and `b` hold the same components, vectors compared by their contents.
pub open spec fn same_object(a: GameObject, b: GameObject) -> bool {
    &&& a == (GameObject {
        runtime_auras: a.runtime_auras,
        runtime_continuous_effects: a.runtime_continuous_effects,
        health_aura_cache: a.health_aura_cache,
        attack_aura_cache: a.attack_aura_cache,
        other_aura_cache: a.other_aura_cache,
        enchantments: a.enchantments,
        card_program: a.card_program,
        ..b
    })
    &&& opt_seq(a.enchantments) == opt_seq(b.enchantments)
    &&& opt_seq(a.card_program) == opt_seq(b.card_program)
    &&& opt_seq(a.runtime_auras) == opt_seq(b.runtime_auras)
    &&& opt_seq(a.runtime_continuous_effects) == opt_seq(b.runtime_continuous_effects)
    &&& opt_seq(a.health_aura_cache) == opt_seq(b.health_aura_cache)
    &&& opt_seq(a.attack_aura_cache) == opt_seq(b.attack_aura_cache)
    &&& opt_seq(a.other_aura_cache) == opt_seq(b.other_aura_cache)
}

fn copy_copyable<T: Copy>(v: &Vec<T>) -> (r: Vec<T>)
    ensures
        r@ == v@,
{
    let mut r: Vec<T> = Vec::new();
    let mut i: usize = 0;
    while i < v.len()
        invariant
            i <= v.len(),
            r@ == v@.subrange(0, i as int),
        decreases v.len() - i,
    {
        r.push(v[i]);
        i = i + 1;
        assert(r@ =~= v@.subrange(0, i as int));
    }
    assert(v@.subrange(0, v@.len() as int) =~= v@);
    r
}

fn copy_optional<T: Copy>(v: &Option<Vec<T>>) -> (r: Option<Vec<T>>)
    ensures
        opt_seq(r) == opt_seq(*v),
{
    match v {
        Some(v) => Some(copy_copyable(v)),
        None => None,
    }
}

fn copy_name(v: &Option<String>) -> (r: Option<String>)
    ensures
        r == *v,
{
    match v {
        Some(s) => Some(s.clone()),
        None => None,
    }
}

/// A copy of an object.
pub fn copy_object(o: &GameObject) -> (r: GameObject)
    ensures
        same_object(r, *o),
{
    GameObject {
        id: o.id,
        definition_id: copy_name(&o.definition_id),
        kind: o.kind,
        controller: o.controller,
        display_name: copy_name(&o.display_name),
        play_order: o.play_order,
        base_stats: o.base_stats,
        base_keywords: o.base_keywords,
        current_stats: o.current_stats,
        damage: o.damage,
        armor: o.armor,
        pending_destroy: o.pending_destroy,
        keywords: o.keywords,
        attack_state: o.attack_state,
        hero_metadata: o.hero_metadata,
        hero_power_state: o.hero_power_state,
        player: o.player,
        card_runtime: o.card_runtime,
        card_program: copy_optional(&o.card_program),
        runtime_auras: copy_optional(&o.runtime_auras),
        runtime_continuous_effects: copy_optional(&o.runtime_continuous_effects),
        silenced: o.silenced,
        stat_modifier: o.stat_modifier,
        keyword_modifier: o.keyword_modifier,
        cost_modifier: o.cost_modifier,
        enchantment_duration: o.enchantment_duration,
        health_aura_cache: copy_optional(&o.health_aura_cache),
        attack_aura_cache: copy_optional(&o.attack_aura_cache),
        other_aura_cache: copy_optional(&o.other_aura_cache),
        attached_to: o.attached_to,
        enchantments: copy_optional(&o.enchantments),
        keep_enchantments: o.keep_enchantments,
        silence_removable: o.silence_removable,
        death_record: o.death_record,
        zone: o.zone,
    }
}

/// A copy of a trace entry.
pub fn copy_trace_entry(e: &TraceEntry) -> (r: TraceEntry)
    ensures
        r@ == e@,
{
    match e {
        TraceEntry::ActionAccepted { player, action } => TraceEntry::ActionAccepted { player: *player, action: *action },
        TraceEntry::ActionRejected { player, reason } => TraceEntry::ActionRejected { player: *player, reason: *reason },
        TraceEntry::OperationPopped { id, kind } => TraceEntry::OperationPopped { id: *id, kind: *kind },
        TraceEntry::ZoneMoved { entity, from, to } => TraceEntry::ZoneMoved { entity: *entity, from: *from, to: *to },
        TraceEntry::TemporaryEffectExpired { entity } => TraceEntry::TemporaryEffectExpired { entity: *entity },
        TraceEntry::TurnChanged { active_player, turn, kind } => TraceEntry::TurnChanged {
            active_player: *active_player,
            turn: *turn,
            kind: *kind,
        },
        TraceEntry::Outcome { winner } => TraceEntry::Outcome { winner: *winner },
        TraceEntry::ResourceSpent { player, amount } => TraceEntry::ResourceSpent { player: *player, amount: *amount },
        TraceEntry::ChoiceAnswered { choice, option } => TraceEntry::ChoiceAnswered { choice: *choice, option: *option },
        TraceEntry::ChoiceRequested { choice, player } => TraceEntry::ChoiceRequested { choice: *choice, player: *player },
        TraceEntry::EventCreated { id, kind, source, targets, proposed, actual } => TraceEntry::EventCreated {
            id: *id,
            kind: *kind,
            source: *source,
            targets: copy_ids(targets),
            proposed: *proposed,
            actual: *actual,
        },
        TraceEntry::DeathPhaseQueued { deaths } => TraceEntry::DeathPhaseQueued { deaths: copy_ids(deaths) },
        TraceEntry::TriggerSnapshot { event } => TraceEntry::TriggerSnapshot { event: *event },
        TraceEntry::RngChoice { position, candidates, selected } => TraceEntry::RngChoice {
            position: *position,
            candidates: copy_ids(candidates),
            selected: *selected,
        },
        TraceEntry::AuraUpdated { target, category, applications } => TraceEntry::AuraUpdated {
            target: *target,
            category: *category,
            applications: copy_applications(applications),
        },
    }
}

/// A copy of a trace.
pub fn copy_trace(v: &Vec<TraceEntry>) -> (r: Vec<TraceEntry>)
    ensures
        trace_view(r@) == trace_view(v@),
{
    let mut r: Vec<TraceEntry> = Vec::new();
    let mut i: usize = 0;
    while i < v.len()
        invariant
            i <= v.len(),
            trace_view(r@) == trace_view(v@.subrange(0, i as int)),
        decreases v.len() - i,
    {
        let ghost before = r@;
        r.push(copy_trace_entry(&v[i]));
        proof {
            assert(trace_view(r@) =~= trace_view(before).push(v@[i as int]@));
            assert(trace_view(v@.subrange(0, i + 1)) =~= trace_view(v@.subrange(0, i as int)).push(v@[i as int]@));
        }
        i = i + 1;
    }
    assert(v@.subrange(0, v@.len() as int) =~= v@);
    r
}

/// Whether two stacks hold the same operations under the same identities.
pub open spec fn same_stack(a: Seq<StackedResolutionOp>, b: Seq<StackedResolutionOp>) -> bool {
    &&& a.len() == b.len()
    &&& forall|k: int| 0 <= k < a.len() ==> (#[trigger] a[k]).id == b[k].id && a[k].operation@ == b[k].operation@
}

/// Whether two resolution records hold the same work.
pub open spec fn same_work(a: ResolutionWork, b: ResolutionWork) -> bool {
    &&& same_stack(a.stack@, b.stack@)
    &&& a.events@ == b.events@
    &&& a.event_slots@ == b.event_slots@
    &&& a.draw_result_slots@ == b.draw_result_slots@
    &&& a.pending_played_self_transforms@ == b.pending_played_self_transforms@
    &&& match (a.pending_choice, b.pending_choice) {
        (Some(x), Some(y)) => x.request@ == y.request@,
        (None, None) => true,
        _ => false,
    }
    &&& a.sequence_active == b.sequence_active
    &&& a.remaining_budget == b.remaining_budget
    &&& a.next_resolution_id == b.next_resolution_id
    &&& a.next_event_id == b.next_event_id
    &&& a.next_event_slot_id == b.next_event_slot_id
    &&& a.next_draw_result_slot_id == b.next_draw_result_slot_id
}

/// A copy of the resolution record.
pub fn copy_work(w: &ResolutionWork) -> (r: ResolutionWork)
    ensures
        same_work(r, *w),
{
    let mut stack: Vec<StackedResolutionOp> = Vec::new();
    let mut i: usize = 0;
    while i < w.stack.len()
        invariant
            i <= w.stack@.len(),
            same_stack(stack@, w.stack@.subrange(0, i as int)),
        decreases w.stack@.len() - i,
    {
        let entry = StackedResolutionOp { id: w.stack[i].id, operation: copy_operation(&w.stack[i].operation) };
        stack.push(entry);
        i = i + 1;
    }
    assert(w.stack@.subrange(0, w.stack@.len() as int) =~= w.stack@);
    let pending_choice = match &w.pending_choice {
        Some(p) => Some(PendingChoice { request: copy_request(&p.request) }),
        None => None,
    };
    ResolutionWork {
        stack,
        events: w.events.clone(),
        event_slots: w.event_slots.clone(),
        draw_result_slots: w.draw_result_slots.clone(),
        pending_played_self_transforms: w.pending_played_self_transforms.clone(),
        pending_choice,
        sequence_active: w.sequence_active,
        remaining_budget: w.remaining_budget,
        next_resolution_id: w.next_resolution_id,
        next_event_id: w.next_event_id,
        next_event_slot_id: w.next_event_slot_id,
        next_draw_result_slot_id: w.next_draw_result_slot_id,
    }
}

/// The largest key of `m`, if any.
pub fn max_key<V>(m: &BTreeMap<u64, V>) -> (r: Option<u64>)
    ensures
        r is None ==> m@.dom().is_empty(),
        r matches Some(k) ==> m@.contains_key(k) && forall|j: u64| #[trigger] m@.contains_key(j) ==> j <= k,
{
    let mut best: Option<u64> = None;
    for k in it: m.keys()
        invariant
            best matches Some(b) ==> m@.contains_key(b) && forall|j: int| 0 <= j < it.index() ==> *it.seq()[j] <= b,
            best is None ==> it.index() == 0,
    {
        best = match best {
            None => Some(*k),
            Some(b) => if *k > b { Some(*k) } else { Some(b) },
        };
    }
    best
}


/// Every object among the first `n`, keyed by identity.
pub open spec fn object_keys(objects: Seq<GameObject>, n: int) -> Seq<Keyed<usize>>
    decreases n,
{
    if n <= 0 {
        Seq::empty()
    } else {
        object_keys(objects, n - 1).push(Keyed { order: objects[n - 1].id.0, id: objects[n - 1].id.0, value: (n - 1) as usize })
    }
}

proof fn lemma_object_keys_bounded(objects: Seq<GameObject>, n: int)
    requires
        0 <= n <= objects.len(),
        n <= usize::MAX,
    ensures
        object_keys(objects, n).len() == n,
        forall|k: int| 0 <= k < n ==> (#[trigger] object_keys(objects, n)[k]).value == k,
    decreases n,
{
    if n > 0 {
        lemma_object_keys_bounded(objects, n - 1);
        let prev = object_keys(objects, n - 1);
        let cur = object_keys(objects, n);
        assert forall|k: int| 0 <= k < n implies (#[trigger] cur[k]).value == k by {
            if k < n - 1 {
                assert(cur[k] == prev[k]);
            }
        }
    }
}

/// The zone position a checkpoint records for `o`: its place in its controller's list of its
/// zone (zero when it is not listed); none for an object without zone or controller.
pub open spec fn zoned_position(w: World, o: GameObject) -> Option<u64> {
    match (o.zone, o.controller) {
        (Some(z), Some(p)) => Some(crate::snapshot::position_in(w.zones.list(p, z), o.id) as u64),
        _ => None,
    }
}

/// Whether `c` is a checkpoint of `w`.
pub open spec fn checkpoint_of(w: World, c: SimulationCheckpoint) -> bool {
    let keys = sort_keyed(object_keys(w.objects@, w.objects@.len() as int));
    &&& c.schema_version == CHECKPOINT_SCHEMA_VERSION
    &&& c.ruleset == w.ruleset
    &&& c.game == w.game
    &&& c.extra_turns@ == w.turn_schedule.extra_turns@
    &&& c.dominant_player == w.dominant_player
    &&& c.next_game_entity_id == w.next_game_entity_id
    &&& c.next_play_order == w.next_play_order
    &&& c.rng == (RngSnapshot { algorithm_version: RNG_ALGORITHM_VERSION, state: w.rng.state, position: w.rng.position })
    &&& c.trace_ruleset == w.ruleset.id
    &&& trace_view(c.trace@) == trace_view(w.trace@)
    &&& c.deaths@ == w.deaths@
    &&& c.pending_deaths@ == w.pending_deaths@
    &&& c.defeated_heroes@ == w.defeated_heroes@
    &&& same_work(c.resolution, w.resolution)
    &&& c.entities@.len() == keys.len()
    &&& c.zone_positions@.len() == keys.len()
    &&& forall|k: int|
        0 <= k < keys.len() ==> same_object(#[trigger] c.entities@[k], w.objects@[keys[k].value as int])
            && c.zone_positions@[k] == zoned_position(w, w.objects@[keys[k].value as int])
}

fn zone_position_of(world: &World, o: &GameObject) -> (r: Option<u64>)
    ensures
        r == zoned_position(*world, *o),
{
    match (o.zone, o.controller) {
        (Some(z), Some(p)) => {
            let ids = world.zones.entities(p, z);
            let mut k: usize = 0;
            while k < ids.len()
                invariant
                    k <= ids.len(),
                    o.zone == Some(z),
                    o.controller == Some(p),
                    ids@ == world.zones.list(p, z),
                    forall|j: int| 0 <= j < k ==> ids@[j] != o.id,
                decreases ids.len() - k,
            {
                if ids[k] == o.id {
                    proof {
                        assert(crate::zone::first_index(ids@, o.id, k as int));
                        assert(ids@.contains(o.id));
                        let c = choose|c: int| crate::zone::first_index(ids@, o.id, c);
                        if c < k {
                            assert(ids@[c] == o.id);
                        } else if k < c {
                            assert(ids@[k as int] == o.id);
                        }
                    }
                    return Some(k as u64);
                }
                k = k + 1;
            }
            proof {
                assert(!ids@.contains(o.id));
            }
            Some(0)
        },
        _ => None,
    }
}

/// The identity of the first of the first `n` objects attached to an identity no object has.
pub open spec fn dangling_attachment(objects: Seq<GameObject>, n: int) -> Option<GameEntityId>
    decreases n,
{
    if n <= 0 {
        None
    } else {
        match dangling_attachment(objects, n - 1) {
            Some(id) => Some(id),
            None => match objects[n - 1].attached_to {
                Some(t) => if has_id(objects, t) {
                    None
                } else {
                    Some(objects[n - 1].id)
                },
                None => None,
            },
        }
    }
}

proof fn lemma_dangling_stays(objects: Seq<GameObject>, m: int, n: int)
    requires
        m <= n,
        dangling_attachment(objects, m) is Some,
    ensures
        dangling_attachment(objects, n) == dangling_attachment(objects, m),
    decreases n - m,
{
    if m < n {
        lemma_dangling_stays(objects, m, n - 1);
    }
}

fn find_dangling_attachment(objects: &Vec<GameObject>) -> (r: Option<GameEntityId>)
    ensures
        r == dangling_attachment(objects@, objects@.len() as int),
{
    let mut i: usize = 0;
    while i < objects.len()
        invariant
            i <= objects@.len(),
            dangling_attachment(objects@, i as int) is None,
        decreases objects.len() - i,
    {
        match objects[i].attached_to {
            Some(t) => {
                if !contains_entity(objects, t) {
                    proof {
                        lemma_dangling_stays(objects@, i + 1, objects@.len() as int);
                    }
                    return Some(objects[i].id);
                }
            },
            None => {},
        }
        i = i + 1;
    }
    None
}

/// A checkpoint of the world: its objects in order of identity with their zone positions, and
/// copies of every resource. A world with an object attached to an identity no object has is
/// refused, naming the first such object.
pub fn build_checkpoint(world: &World) -> (r: Result<SimulationCheckpoint, SimulationError>)
    ensures
        dangling_attachment(world.objects@, world.objects@.len() as int) matches Some(id) ==> r == Err::<
            SimulationCheckpoint,
            SimulationError,
        >(SimulationError::Checkpoint(CheckpointError::MissingAttachmentTarget(id))),
        dangling_attachment(world.objects@, world.objects@.len() as int) is None ==> (r matches Ok(c) && checkpoint_of(
            *world,
            c,
        )),
{
    match find_dangling_attachment(&world.objects) {
        Some(id) => return Err(SimulationError::Checkpoint(CheckpointError::MissingAttachmentTarget(id))),
        None => {},
    }
    let mut keys: Vec<Keyed<usize>> = Vec::new();
    let mut i: usize = 0;
    while i < world.objects.len()
        invariant
            i <= world.objects@.len(),
            keys@ == sort_keyed(object_keys(world.objects@, i as int)),
        decreases world.objects.len() - i,
    {
        let key = Keyed { order: world.objects[i].id.0, id: world.objects[i].id.0, value: i };
        insert_keyed(&mut keys, key);
        proof {
            assert(object_keys(world.objects@, i + 1).drop_last() =~= object_keys(world.objects@, i as int));
        }
        i = i + 1;
    }
    let ghost all = object_keys(world.objects@, world.objects@.len() as int);
    proof {
        lemma_object_keys_bounded(world.objects@, world.objects@.len() as int);
        crate::aura::lemma_sort_keeps_members(all);
    }
    let mut entities: Vec<GameObject> = Vec::new();
    let mut positions: Vec<Option<u64>> = Vec::new();
    let mut k: usize = 0;
    while k < keys.len()
        invariant
            k <= keys@.len(),
            keys@ == sort_keyed(all),
            all == object_keys(world.objects@, world.objects@.len() as int),
            forall|m: int| 0 <= m < all.len() ==> (#[trigger] all[m]).value == m,
            all.len() == world.objects@.len(),
            forall|x: Keyed<usize>| #[trigger] keys@.contains(x) <==> all.contains(x),
            entities@.len() == k,
            positions@.len() == k,
            forall|m: int|
                0 <= m < k ==> same_object(#[trigger] entities@[m], world.objects@[keys@[m].value as int])
                    && positions@[m] == zoned_position(*world, world.objects@[keys@[m].value as int]),
        decreases keys.len() - k,
    {
        let key = keys[k];
        proof {
            assert(keys@.contains(key));
            assert(all.contains(key));
            let m = choose|m: int| 0 <= m < all.len() && all[m] == key;
            assert(all[m].value == m);
        }
        let ghost before_entities = entities@;
        let ghost before_positions = positions@;
        entities.push(copy_object(&world.objects[key.value]));
        positions.push(zone_position_of(world, &world.objects[key.value]));
        proof {
            assert forall|m: int| 0 <= m < k + 1 implies same_object(#[trigger] entities@[m], world.objects@[keys@[m].value as int])
                && positions@[m] == zoned_position(*world, world.objects@[keys@[m].value as int]) by {
                if m < k {
                    assert(entities@[m] == before_entities[m]);
                    assert(positions@[m] == before_positions[m]);
                }
            }
        }
        k = k + 1;
    }
    let ghost entities_view = entities@;
    let c = SimulationCheckpoint {
        schema_version: CHECKPOINT_SCHEMA_VERSION,
        ruleset: world.ruleset,
        game: world.game,
        extra_turns: copy_copyable(&world.turn_schedule.extra_turns),
        dominant_player: world.dominant_player,
        next_game_entity_id: world.next_game_entity_id,
        next_play_order: world.next_play_order,
        rng: world.rng.state(),
        trace_ruleset: world.ruleset.id,
        trace: copy_trace(&world.trace),
        deaths: copy_copyable(&world.deaths),
        pending_deaths: copy_copyable(&world.pending_deaths),
        defeated_heroes: copy_copyable(&world.defeated_heroes),
        resolution: copy_work(&world.resolution),
        entities,
        zone_positions: positions,
    };
    proof {
        assert(c.entities@.len() == sort_keyed(object_keys(world.objects@, world.objects@.len() as int)).len());
        assert(c.schema_version == CHECKPOINT_SCHEMA_VERSION);
        assert(c.extra_turns@ == world.turn_schedule.extra_turns@);
        assert(same_work(c.resolution, world.resolution));
        assert(trace_view(c.trace@) == trace_view(world.trace@));
        assert(c.rng == (RngSnapshot { algorithm_version: RNG_ALGORITHM_VERSION, state: world.rng.state, position: world.rng.position }));
        let keys2 = sort_keyed(object_keys(world.objects@, world.objects@.len() as int));
        assert forall|m: int| 0 <= m < keys2.len() implies same_object(#[trigger] c.entities@[m], world.objects@[keys2[m].value as int])
            && c.zone_positions@[m] == zoned_position(*world, world.objects@[keys2[m].value as int]) by {
            assert(c.entities@[m] == entities_view[m]);
        }
        assert(c.deaths@ == world.deaths@);
        assert(c.pending_deaths@ == world.pending_deaths@);
        assert(c.defeated_heroes@ == world.defeated_heroes@);
        assert(c.zone_positions@.len() == keys2.len());
        assert(checkpoint_of(*world, c));
    }
    Ok(c)
}


/// Whether two checkpoints record the same game: every field agrees, vectors by their
/// contents.
pub open spec fn same_checkpoint(a: SimulationCheckpoint, b: SimulationCheckpoint) -> bool {
    &&& a.schema_version == b.schema_version
    &&& a.ruleset == b.ruleset
    &&& a.game == b.game
    &&& a.extra_turns@ == b.extra_turns@
    &&& a.dominant_player == b.dominant_player
    &&& a.next_game_entity_id == b.next_game_entity_id
    &&& a.next_play_order == b.next_play_order
    &&& a.rng == b.rng
    &&& a.trace_ruleset == b.trace_ruleset
    &&& trace_view(a.trace@) == trace_view(b.trace@)
    &&& a.deaths@ == b.deaths@
    &&& a.pending_deaths@ == b.pending_deaths@
    &&& a.defeated_heroes@ == b.defeated_heroes@
    &&& same_work(a.resolution, b.resolution)
    &&& a.entities@.len() == b.entities@.len()
    &&& forall|k: int| 0 <= k < a.entities@.len() ==> same_object(#[trigger] a.entities@[k], b.entities@[k])
    &&& a.zone_positions@ == b.zone_positions@
}

impl SimulationCheckpoint {
    /// A copy of the checkpoint.
    pub fn copy(&self) -> (r: SimulationCheckpoint)
        ensures
            same_checkpoint(r, *self),
    {
        let mut entities: Vec<GameObject> = Vec::new();
        let mut k: usize = 0;
        while k < self.entities.len()
            invariant
                k <= self.entities@.len(),
                entities@.len() == k,
                forall|m: int| 0 <= m < k ==> same_object(#[trigger] entities@[m], self.entities@[m]),
            decreases self.entities@.len() - k,
        {
            let ghost before = entities@;
            entities.push(copy_object(&self.entities[k]));
            proof {
                assert forall|m: int| 0 <= m < k + 1 implies same_object(#[trigger] entities@[m], self.entities@[m]) by {
                    if m < k {
                        assert(entities@[m] == before[m]);
                    }
                }
            }
            k = k + 1;
        }
        SimulationCheckpoint {
            schema_version: self.schema_version,
            ruleset: self.ruleset,
            game: self.game,
            extra_turns: copy_copyable(&self.extra_turns),
            dominant_player: self.dominant_player,
            next_game_entity_id: self.next_game_entity_id,
            next_play_order: self.next_play_order,
            rng: self.rng,
            trace_ruleset: self.trace_ruleset,
            trace: copy_trace(&self.trace),
            deaths: copy_copyable(&self.deaths),
            pending_deaths: copy_copyable(&self.pending_deaths),
            defeated_heroes: copy_copyable(&self.defeated_heroes),
            resolution: copy_work(&self.resolution),
            entities,
            zone_positions: copy_copyable(&self.zone_positions),
        }
    }
}

/// The verdict on a counter: it must exceed the highest identity it handed out that is still
/// retained.
pub open spec fn counter_check(counter: CounterKind, next: u64, highest: Option<u64>) -> Option<CheckpointError> {
    match highest {
        Some(h) => if h >= next {
            Some(CheckpointError::StaleCounter { counter, next, highest: h })
        } else {
            None
        },
        None => None,
    }
}

/// Checks that a counter exceeds the highest retained identity.
pub fn validate_next_counter(counter: CounterKind, next: u64, highest: Option<u64>) -> (r: Result<(), CheckpointError>)
    ensures
        match counter_check(counter, next, highest) {
            Some(e) => r == Err::<(), CheckpointError>(e),
            None => r is Ok,
        },
{
    match highest {
        Some(h) => if h >= next {
            Err(CheckpointError::StaleCounter { counter, next, highest: h })
        } else {
            Ok(())
        },
        None => Ok(()),
    }
}

/// The largest of `a` and `b`, where absent counts as nothing.
pub open spec fn larger(a: Option<u64>, b: u64) -> Option<u64> {
    match a {
        Some(x) => if x < b { Some(b) } else { Some(x) },
        None => Some(b),
    }
}

/// The largest identity on the first `n` entries of the stack.
pub open spec fn stack_max(s: Seq<StackedResolutionOp>, n: int) -> Option<u64>
    decreases n,
{
    if n <= 0 {
        None
    } else {
        larger(stack_max(s, n - 1), s[n - 1].id.0)
    }
}

/// The largest key of a map.
pub open spec fn map_max<V>(m: Map<u64, V>) -> Option<u64> {
    if m.dom().is_empty() {
        None
    } else {
        Some(choose|k: u64| m.contains_key(k) && forall|j: u64| #[trigger] m.contains_key(j) ==> j <= k)
    }
}

/// The largest play order among the first `n` entities.
pub open spec fn play_order_max(entities: Seq<GameObject>, n: int) -> Option<u64>
    decreases n,
{
    if n <= 0 {
        None
    } else {
        match entities[n - 1].play_order {
            Some(p) => larger(play_order_max(entities, n - 1), p),
            None => play_order_max(entities, n - 1),
        }
    }
}

/// The largest identity among the first `n` entities.
pub open spec fn id_max(entities: Seq<GameObject>, n: int) -> Option<u64>
    decreases n,
{
    if n <= 0 {
        None
    } else {
        larger(id_max(entities, n - 1), entities[n - 1].id.0)
    }
}

fn largest_stack_id(s: &Vec<StackedResolutionOp>) -> (r: Option<u64>)
    ensures
        r == stack_max(s@, s@.len() as int),
{
    let mut best: Option<u64> = None;
    let mut i: usize = 0;
    while i < s.len()
        invariant
            i <= s@.len(),
            best == stack_max(s@, i as int),
        decreases s@.len() - i,
    {
        let id = s[i].id.0;
        best = match best {
            Some(x) => if x < id { Some(id) } else { Some(x) },
            None => Some(id),
        };
        i = i + 1;
    }
    best
}

fn largest_key<V>(m: &BTreeMap<u64, V>) -> (r: Option<u64>)
    ensures
        r == map_max(m@),
{
    let r = max_key(m);
    proof {
        if let Some(k) = r {
            let c = choose|c: u64| m@.contains_key(c) && forall|j: u64| #[trigger] m@.contains_key(j) ==> j <= c;
            assert(m@.contains_key(c) && forall|j: u64| #[trigger] m@.contains_key(j) ==> j <= c);
            assert(c <= k);
            assert(k <= c);
        }
    }
    r
}

fn largest_play_order(entities: &Vec<GameObject>) -> (r: Option<u64>)
    ensures
        r == play_order_max(entities@, entities@.len() as int),
{
    let mut best: Option<u64> = None;
    let mut i: usize = 0;
    while i < entities.len()
        invariant
            i <= entities@.len(),
            best == play_order_max(entities@, i as int),
        decreases entities@.len() - i,
    {
        match entities[i].play_order {
            Some(p) => {
                best = match best {
                    Some(x) => if x < p { Some(p) } else { Some(x) },
                    None => Some(p),
                };
            },
            None => {},
        }
        i = i + 1;
    }
    best
}

fn largest_id(entities: &Vec<GameObject>) -> (r: Option<u64>)
    ensures
        r == id_max(entities@, entities@.len() as int),
{
    let mut best: Option<u64> = None;
    let mut i: usize = 0;
    while i < entities.len()
        invariant
            i <= entities@.len(),
            best == id_max(entities@, i as int),
        decreases entities@.len() - i,
    {
        let id = entities[i].id.0;
        best = match best {
            Some(x) => if x < id { Some(id) } else { Some(x) },
            None => Some(id),
        };
        i = i + 1;
    }
    best
}

/// The provider of the first application of `apps` that names no entity.
pub open spec fn first_dangling(apps: Seq<AuraApplication>, entities: Seq<GameObject>) -> Option<GameEntityId>
    decreases apps.len(),
{
    if apps.len() == 0 {
        None
    } else if !has_id(entities, apps[0].provider) {
        Some(apps[0].provider)
    } else {
        first_dangling(apps.drop_first(), entities)
    }
}

/// The first rule entity `e` (recorded at zone position `position`) breaks: an enchantment has
/// a duration and, when attached, is in play; a zoned entity has a controller and a position;
/// an attachment target exists; every enchantment it records exists; every aura provider of its health, attack and other caches
/// exists.
pub open spec fn entity_fault(entities: Seq<GameObject>, e: GameObject, position: Option<u64>) -> Option<CheckpointError> {
    if e.kind == Some(EntityKind::Enchantment) && e.enchantment_duration is None {
        Some(CheckpointError::EnchantmentWithoutDuration(e.id))
    } else if e.kind == Some(EntityKind::Enchantment) && e.attached_to is Some && e.zone != Some(Zone::Play) {
        Some(CheckpointError::AttachedEnchantmentOutsidePlay(e.id))
    } else if e.zone is Some && (e.controller is None || position is None) {
        Some(CheckpointError::ZonedEntityIncomplete(e.id))
    } else if e.attached_to is Some && !has_id(entities, e.attached_to->0) {
        Some(CheckpointError::MissingAttachmentTarget(e.id))
    } else if e.enchantments matches Some(list) && exists|k: int|
        0 <= k < list@.len() && !has_id(entities, #[trigger] list@[k]) {
        Some(CheckpointError::MissingEnchantment(e.id))
    } else {
        match first_dangling(
            cache_of(e.health_aura_cache) + cache_of(e.attack_aura_cache) + cache_of(e.other_aura_cache),
            entities,
        ) {
            Some(provider) => Some(CheckpointError::MissingAuraProvider { entity: e.id, provider }),
            None => None,
        }
    }
}

fn contains_entity(entities: &Vec<GameObject>, id: GameEntityId) -> (r: bool)
    ensures
        r == has_id(entities@, id),
{
    game_entity(entities, id).is_some()
}

fn dangling_provider(apps: &Option<Vec<AuraApplication>>, entities: &Vec<GameObject>) -> (r: Option<GameEntityId>)
    ensures
        r == first_dangling(cache_of(*apps), entities@),
{
    match apps {
        None => None,
        Some(v) => {
            let mut k: usize = 0;
            assert(v@.subrange(0, v@.len() as int) =~= v@);
            while k < v.len()
                invariant
                    k <= v@.len(),
                    cache_of(*apps) == v@,
                    first_dangling(v@, entities@) == first_dangling(v@.subrange(k as int, v@.len() as int), entities@),
                decreases v@.len() - k,
            {
                proof {
                    let rest = v@.subrange(k as int, v@.len() as int);
                    assert(rest[0] == v@[k as int]);
                    assert(rest.drop_first() =~= v@.subrange(k + 1, v@.len() as int));
                }
                if !contains_entity(entities, v[k].provider) {
                    return Some(v[k].provider);
                }
                k = k + 1;
            }
            proof {
                assert(v@.subrange(k as int, v@.len() as int).len() == 0);
            }
            None
        },
    }
}

proof fn lemma_first_dangling_concat(a: Seq<AuraApplication>, b: Seq<AuraApplication>, entities: Seq<GameObject>)
    ensures
        first_dangling(a + b, entities) == match first_dangling(a, entities) {
            Some(p) => Some(p),
            None => first_dangling(b, entities),
        },
    decreases a.len(),
{
    if a.len() > 0 {
        assert((a + b)[0] == a[0]);
        assert((a + b).drop_first() =~= a.drop_first() + b);
        lemma_first_dangling_concat(a.drop_first(), b, entities);
    } else {
        assert(a + b =~= b);
    }
}

/// Checks one entity of a checkpoint.
#[verifier::loop_isolation(false)]
pub fn validate_checkpoint_entity(entities: &Vec<GameObject>, e: &GameObject, position: Option<u64>) -> (r: Result<
    (),
    CheckpointError,
>)
    ensures
        match entity_fault(entities@, *e, position) {
            Some(f) => r == Err::<(), CheckpointError>(f),
            None => r is Ok,
        },
{
    if e.kind == Some(EntityKind::Enchantment) && e.enchantment_duration.is_none() {
        return Err(CheckpointError::EnchantmentWithoutDuration(e.id));
    }
    if e.kind == Some(EntityKind::Enchantment) && e.attached_to.is_some() && e.zone != Some(Zone::Play) {
        return Err(CheckpointError::AttachedEnchantmentOutsidePlay(e.id));
    }
    if e.zone.is_some() && (e.controller.is_none() || position.is_none()) {
        return Err(CheckpointError::ZonedEntityIncomplete(e.id));
    }
    if let Some(t) = e.attached_to {
        if !contains_entity(entities, t) {
            return Err(CheckpointError::MissingAttachmentTarget(e.id));
        }
    }
    if let Some(list) = &e.enchantments {
        let mut k: usize = 0;
        while k < list.len()
            invariant
                k <= list@.len(),
                forall|j: int| 0 <= j < k ==> has_id(entities@, #[trigger] list@[j]),
            decreases list.len() - k,
        {
            if !contains_entity(entities, list[k]) {
                proof {
                    assert(!has_id(entities@, list@[k as int]));
                }
                return Err(CheckpointError::MissingEnchantment(e.id));
            }
            k = k + 1;
        }
    }
    proof {
        lemma_first_dangling_concat(cache_of(e.health_aura_cache), cache_of(e.attack_aura_cache), entities@);
        lemma_first_dangling_concat(
            cache_of(e.health_aura_cache) + cache_of(e.attack_aura_cache),
            cache_of(e.other_aura_cache),
            entities@,
        );
    }
    let found = match dangling_provider(&e.health_aura_cache, entities) {
        Some(p) => Some(p),
        None => match dangling_provider(&e.attack_aura_cache, entities) {
            Some(p) => Some(p),
            None => dangling_provider(&e.other_aura_cache, entities),
        },
    };
    match found {
        Some(provider) => Err(CheckpointError::MissingAuraProvider { entity: e.id, provider }),
        None => Ok(()),
    }
}


/// Whether an entity attached to `target` carries a cost modifier but no play order.
pub open spec fn unordered_cost_modifier(entities: Seq<GameObject>, target: GameEntityId) -> bool {
    exists|j: int|
        0 <= j < entities.len() && (#[trigger] entities[j]).attached_to == Some(target) && entities[j].cost_modifier
            is Some && entities[j].play_order is None
}

/// The cost rule entity `e` breaks, if any: every cost modifier attached to a card has a play
/// order, and the card's cost is its base cost with those modifiers applied in play order and
/// identity order.
pub open spec fn cost_fault(entities: Seq<GameObject>, e: GameObject) -> Option<CheckpointError> {
    match e.card_runtime {
        None => None,
        Some(rt) => if unordered_cost_modifier(entities, e.id) {
            Some(CheckpointError::CostModifierWithoutPlayOrder(e.id))
        } else if fold_cost(rt.base_cost, sort_keyed(cost_entries(entities, e.id, entities.len() as int)), e.silenced)
            != rt.cost {
            Some(CheckpointError::InconsistentCost(e.id))
        } else {
            None
        },
    }
}

/// The first cost rule broken by the entities from position `k` on.
pub open spec fn costs_fault_from(entities: Seq<GameObject>, k: int) -> Option<CheckpointError>
    decreases entities.len() - k,
{
    if k >= entities.len() || k < 0 {
        None
    } else {
        match cost_fault(entities, entities[k]) {
            Some(f) => Some(f),
            None => costs_fault_from(entities, k + 1),
        }
    }
}

fn has_unordered_cost_modifier(entities: &Vec<GameObject>, target: GameEntityId) -> (r: bool)
    ensures
        r == unordered_cost_modifier(entities@, target),
{
    let mut j: usize = 0;
    while j < entities.len()
        invariant
            j <= entities@.len(),
            forall|m: int|
                0 <= m < j ==> !((#[trigger] entities@[m]).attached_to == Some(target) && entities@[m].cost_modifier is Some
                    && entities@[m].play_order is None),
        decreases entities@.len() - j,
    {
        let e = &entities[j];
        if e.attached_to == Some(target) && e.cost_modifier.is_some() && e.play_order.is_none() {
            return true;
        }
        j = j + 1;
    }
    false
}

/// Checks every card's cost against its attached cost modifiers.
pub fn validate_checkpoint_costs(entities: &Vec<GameObject>) -> (r: Result<(), CheckpointError>)
    ensures
        match costs_fault_from(entities@, 0) {
            Some(f) => r == Err::<(), CheckpointError>(f),
            None => r is Ok,
        },
{
    let mut k: usize = 0;
    while k < entities.len()
        invariant
            k <= entities@.len(),
            costs_fault_from(entities@, 0) == costs_fault_from(entities@, k as int),
        decreases entities@.len() - k,
    {
        let e = &entities[k];
        match e.card_runtime {
            None => {},
            Some(rt) => {
                if has_unordered_cost_modifier(entities, e.id) {
                    return Err(CheckpointError::CostModifierWithoutPlayOrder(e.id));
                }
                if effective_cost(entities, k, rt.base_cost) != rt.cost {
                    return Err(CheckpointError::InconsistentCost(e.id));
                }
            },
        }
        k = k + 1;
    }
    Ok(())
}

/// The positions among the first `n` entities of active objects of kind `kind` controlled by
/// `player`.
pub open spec fn active_positions(entities: Seq<GameObject>, player: PlayerId, kind: EntityKind, n: int) -> Seq<int>
    decreases n,
{
    if n <= 0 {
        Seq::empty()
    } else {
        let prev = active_positions(entities, player, kind, n - 1);
        let e = entities[n - 1];
        if e.kind == Some(kind) && e.controller == Some(player) && e.zone == Some(Zone::Play) {
            prev.push(n - 1)
        } else {
            prev
        }
    }
}

proof fn lemma_active_positions_bounded(entities: Seq<GameObject>, player: PlayerId, kind: EntityKind, n: int)
    requires
        n <= entities.len(),
    ensures
        forall|k: int|
            0 <= k < active_positions(entities, player, kind, n).len() ==> 0 <= #[trigger] active_positions(
                entities,
                player,
                kind,
                n,
            )[k] < n,
    decreases n,
{
    if n > 0 {
        lemma_active_positions_bounded(entities, player, kind, n - 1);
        let prev = active_positions(entities, player, kind, n - 1);
        let cur = active_positions(entities, player, kind, n);
        assert forall|k: int| 0 <= k < cur.len() implies 0 <= #[trigger] cur[k] < n by {
            if k < prev.len() {
                assert(cur[k] == prev[k]);
            }
        }
    }
}

fn find_active(entities: &Vec<GameObject>, player: PlayerId, kind: EntityKind) -> (r: Vec<usize>)
    ensures
        r@.len() == active_positions(entities@, player, kind, entities@.len() as int).len(),
        forall|k: int| 0 <= k < r@.len() ==> r@[k] as int == #[trigger] active_positions(entities@, player, kind, entities@.len() as int)[k],
{
    let mut r: Vec<usize> = Vec::new();
    let mut i: usize = 0;
    while i < entities.len()
        invariant
            i <= entities@.len(),
            r@.len() == active_positions(entities@, player, kind, i as int).len(),
            forall|k: int| 0 <= k < r@.len() ==> r@[k] as int == #[trigger] active_positions(entities@, player, kind, i as int)[k],
        decreases entities@.len() - i,
    {
        let ghost before = r@;
        let e = &entities[i];
        if e.kind == Some(kind) && e.controller == Some(player) && e.zone == Some(Zone::Play) {
            r.push(i);
        }
        proof {
            assert forall|k: int| 0 <= k < r@.len() implies r@[k] as int == #[trigger] active_positions(
                entities@,
                player,
                kind,
                i + 1,
            )[k] by {
                if k < before.len() {
                    assert(r@[k] == before[k]);
                }
            }
        }
        i = i + 1;
    }
    r
}

/// The first role rule `player` breaks in a checkpoint: exactly one Player record, on an object
/// of kind Player controlled by the player; exactly one active hero with stats, damage, armor,
/// attack state and metadata; exactly one active hero power with its state and card data.
pub open spec fn checkpoint_role_fault(entities: Seq<GameObject>, player: PlayerId) -> Option<CheckpointError> {
    let ps = players_of(entities, player);
    let heroes = active_positions(entities, player, EntityKind::Hero, entities.len() as int);
    let powers = active_positions(entities, player, EntityKind::HeroPower, entities.len() as int);
    if ps.len() != 1 || entities[ps[0]].kind != Some(EntityKind::Player) || entities[ps[0]].controller != Some(player) {
        Some(CheckpointError::PlayerRole(player))
    } else if heroes.len() != 1 || entities[heroes[0]].current_stats is None || entities[heroes[0]].damage is None
        || entities[heroes[0]].armor is None || entities[heroes[0]].attack_state is None
        || entities[heroes[0]].hero_metadata is None {
        Some(CheckpointError::HeroRole(player))
    } else if powers.len() != 1 || entities[powers[0]].hero_power_state is None || entities[powers[0]].card_runtime is None {
        Some(CheckpointError::HeroPowerRole(player))
    } else {
        None
    }
}

fn check_checkpoint_role(entities: &Vec<GameObject>, player: PlayerId) -> (r: Result<(), CheckpointError>)
    ensures
        match checkpoint_role_fault(entities@, player) {
            Some(f) => r == Err::<(), CheckpointError>(f),
            None => r == Ok::<(), CheckpointError>(()),
        },
{
    let ps = player_objects(entities, player);
    proof {
        crate::player::lemma_player_positions_bounded(entities@, player, entities@.len() as int);
        lemma_active_positions_bounded(entities@, player, EntityKind::Hero, entities@.len() as int);
        lemma_active_positions_bounded(entities@, player, EntityKind::HeroPower, entities@.len() as int);
    }
    if ps.len() != 1 {
        return Err(CheckpointError::PlayerRole(player));
    }
    proof {
        assert(ps@[0] as int == players_of(entities@, player)[0]);
    }
    if entities[ps[0]].kind != Some(EntityKind::Player) || entities[ps[0]].controller != Some(player) {
        return Err(CheckpointError::PlayerRole(player));
    }
    let heroes = find_active(entities, player, EntityKind::Hero);
    if heroes.len() != 1 {
        return Err(CheckpointError::HeroRole(player));
    }
    proof {
        assert(heroes@[0] as int == active_positions(entities@, player, EntityKind::Hero, entities@.len() as int)[0]);
    }
    let h = &entities[heroes[0]];
    if h.current_stats.is_none() || h.damage.is_none() || h.armor.is_none() || h.attack_state.is_none()
        || h.hero_metadata.is_none() {
        return Err(CheckpointError::HeroRole(player));
    }
    let powers = find_active(entities, player, EntityKind::HeroPower);
    if powers.len() != 1 {
        return Err(CheckpointError::HeroPowerRole(player));
    }
    proof {
        assert(powers@[0] as int == active_positions(entities@, player, EntityKind::HeroPower, entities@.len() as int)[0]);
    }
    let q = &entities[powers[0]];
    if q.hero_power_state.is_none() || q.card_runtime.is_none() {
        return Err(CheckpointError::HeroPowerRole(player));
    }
    Ok(())
}

/// Checks the roles of both players in a checkpoint, the first player first.
pub fn validate_checkpoint_player_roles(entities: &Vec<GameObject>) -> (r: Result<(), CheckpointError>)
    ensures
        match checkpoint_role_fault(entities@, PlayerId::One) {
            Some(f) => r == Err::<(), CheckpointError>(f),
            None => match checkpoint_role_fault(entities@, PlayerId::Two) {
                Some(f) => r == Err::<(), CheckpointError>(f),
                None => r is Ok,
            },
        },
{
    match check_checkpoint_role(entities, PlayerId::One) {
        Err(e) => Err(e),
        Ok(_) => check_checkpoint_role(entities, PlayerId::Two),
    }
}


/// The first of two verdicts that is a fault.
pub open spec fn either(a: Option<CheckpointError>, b: Option<CheckpointError>) -> Option<CheckpointError> {
    match a {
        Some(e) => Some(e),
        None => b,
    }
}

/// The zone position recorded for entity `k`; none past the end of the positions.
pub open spec fn position_at(c: SimulationCheckpoint, k: int) -> Option<u64> {
    if 0 <= k < c.zone_positions@.len() {
        c.zone_positions@[k]
    } else {
        None
    }
}

/// An entity with more aura definitions than a `u32` can number.
pub open spec fn aura_count_fault(e: GameObject) -> Option<CheckpointError> {
    match e.runtime_auras {
        Some(d) => if d@.len() > u32::MAX + 1 {
            Some(CheckpointError::TooManyAuraDefinitions(e.id))
        } else {
            None
        },
        None => None,
    }
}

/// The first rule broken by the entities from position `k` on, entity by entity.
pub open spec fn entities_fault_from(c: SimulationCheckpoint, k: int) -> Option<CheckpointError>
    decreases c.entities@.len() - k,
{
    if k < 0 || k >= c.entities@.len() {
        None
    } else {
        either(
            entity_fault(c.entities@, c.entities@[k], position_at(c, k)),
            either(aura_count_fault(c.entities@[k]), entities_fault_from(c, k + 1)),
        )
    }
}

/// The versions a checkpoint is written in: the schema version, the rulebook revision, and the
/// ruleset the trace was recorded under.
pub open spec fn header_fault(c: SimulationCheckpoint) -> Option<CheckpointError> {
    if c.schema_version != CHECKPOINT_SCHEMA_VERSION {
        Some(CheckpointError::UnsupportedSchemaVersion(c.schema_version))
    } else if c.ruleset.rulebook_revision != RULEBOOK_REVISION {
        Some(CheckpointError::UnsupportedRulebookRevision(c.ruleset.rulebook_revision))
    } else if c.trace_ruleset != c.ruleset.id {
        Some(CheckpointError::RulesetMismatch)
    } else {
        None
    }
}

/// The resolution counters: each exceeds the identities it handed out that are retained.
pub open spec fn counters_fault(c: SimulationCheckpoint) -> Option<CheckpointError> {
    either(
        counter_check(
            CounterKind::Resolution,
            c.resolution.next_resolution_id,
            stack_max(c.resolution.stack@, c.resolution.stack@.len() as int),
        ),
        either(
            counter_check(CounterKind::Event, c.resolution.next_event_id, map_max(c.resolution.events@)),
            either(
                counter_check(CounterKind::EventSlot, c.resolution.next_event_slot_id, map_max(c.resolution.event_slots@)),
                counter_check(
                    CounterKind::DrawResultSlot,
                    c.resolution.next_draw_result_slot_id,
                    map_max(c.resolution.draw_result_slots@),
                ),
            ),
        ),
    )
}

/// The entity identities: no two entities share one, the next identity exceeds them all, and
/// the play order counter exceeds every play order.
pub open spec fn identity_fault(c: SimulationCheckpoint) -> Option<CheckpointError> {
    if !unique_ids(c.entities@) {
        Some(CheckpointError::DuplicateEntityIds)
    } else if id_max(c.entities@, c.entities@.len() as int) matches Some(m) && m >= c.next_game_entity_id {
        Some(CheckpointError::StaleEntityCounter)
    } else {
        counter_check(
            CounterKind::PlayOrder,
            c.next_play_order,
            play_order_max(c.entities@, c.entities@.len() as int),
        )
    }
}

/// The first choice request fault among the operations of `stack`, from the bottom up.
pub open spec fn stack_fault(stack: Seq<StackedResolutionOp>) -> Option<InvariantViolation>
    decreases stack.len(),
{
    if stack.len() == 0 {
        None
    } else {
        match stack_fault(stack.subrange(0, stack.len() - 1)) {
            Some(v) => Some(v),
            None => crate::resolution_validation::op_fault(stack[stack.len() - 1].operation),
        }
    }
}

/// The retained work must be runnable: every choice request on the stack, and the pending one,
/// offers options, each identity once, and its branches run no effect for an event (see
/// `resolution_validation`).
pub open spec fn programs_fault(c: SimulationCheckpoint) -> Option<CheckpointError> {
    match stack_fault(c.resolution.stack@) {
        Some(v) => Some(CheckpointError::Invariant(v)),
        None => match c.resolution.pending_choice {
            Some(p) => match crate::resolution_validation::request_fault(p.request) {
                Some(v) => Some(CheckpointError::Invariant(v)),
                None => None,
            },
            None => None,
        },
    }
}

proof fn lemma_stack_fault_prefix(stack: Seq<StackedResolutionOp>, n: int)
    requires
        0 <= n <= stack.len(),
        stack_fault(stack.subrange(0, n)) is Some,
    ensures
        stack_fault(stack) == stack_fault(stack.subrange(0, n)),
    decreases stack.len() - n,
{
    if n < stack.len() {
        assert(stack.subrange(0, n + 1).subrange(0, n) =~= stack.subrange(0, n));
        lemma_stack_fault_prefix(stack, n + 1);
    } else {
        assert(stack.subrange(0, n) =~= stack);
    }
}

/// Checks the retained work of a checkpoint (see `programs_fault`).
fn validate_retained_programs(c: &SimulationCheckpoint) -> (r: Result<(), CheckpointError>)
    ensures
        match programs_fault(*c) {
            Some(f) => r == Err::<(), CheckpointError>(f),
            None => r is Ok,
        },
{
    let stack = &c.resolution.stack;
    let mut k: usize = 0;
    while k < stack.len()
        invariant
            k <= stack@.len(),
            *stack == c.resolution.stack,
            stack_fault(stack@.subrange(0, k as int)) is None,
        decreases stack.len() - k,
    {
        proof {
            assert(stack@.subrange(0, k + 1).subrange(0, k as int) =~= stack@.subrange(0, k as int));
            assert(stack@.subrange(0, k + 1)[k as int] == stack@[k as int]);
        }
        match crate::resolution_validation::validate_resolution_operation(&stack[k].operation) {
            Ok(()) => {},
            Err(SimulationError::Invariant(v)) => {
                proof {
                    lemma_stack_fault_prefix(stack@, k + 1);
                }
                return Err(CheckpointError::Invariant(v));
            },
            Err(e) => {
                proof {
                    assert(false);
                }
                return Ok(());
            },
        }
        k = k + 1;
    }
    proof {
        assert(stack@.subrange(0, k as int) =~= stack@);
    }
    match &c.resolution.pending_choice {
        Some(p) => match crate::resolution_validation::validate_choice_request(&p.request) {
            Ok(()) => Ok(()),
            Err(SimulationError::Invariant(v)) => Err(CheckpointError::Invariant(v)),
            Err(e) => {
                proof {
                    assert(false);
                }
                Ok(())
            },
        },
        None => Ok(()),
    }
}

/// The reference of a retained operation that `w` does not hold: a prepared event, an event
/// slot or a draw result slot.
pub open spec fn op_reference_fault(w: ResolutionWork, op: ResolutionOp) -> Option<CheckpointError> {
    match op {
        ResolutionOp::ResolveEvent(e) => if w.events@.contains_key(e.0) {
            None
        } else {
            Some(CheckpointError::MissingEvent(e))
        },
        ResolutionOp::FinishEvent(e) => if w.events@.contains_key(e.0) {
            None
        } else {
            Some(CheckpointError::MissingEvent(e))
        },
        ResolutionOp::RunEffect { event: Some(e), .. } => if w.events@.contains_key(e.0) {
            None
        } else {
            Some(CheckpointError::MissingEvent(e))
        },
        ResolutionOp::ResolveEventSlot(s) => if w.event_slots@.contains_key(s.0) {
            None
        } else {
            Some(CheckpointError::MissingEventSlot(s))
        },
        ResolutionOp::FinishDraw(s) => if w.draw_result_slots@.contains_key(s.0) {
            None
        } else {
            Some(CheckpointError::MissingDrawResultSlot(s))
        },
        ResolutionOp::ContinueDraw { result, .. } => if w.draw_result_slots@.contains_key(result.0) {
            None
        } else {
            Some(CheckpointError::MissingDrawResultSlot(result))
        },
        _ => None,
    }
}

/// The first missing reference among the operations of `stack`, from the bottom up.
pub open spec fn stack_reference_fault(w: ResolutionWork, stack: Seq<StackedResolutionOp>) -> Option<CheckpointError>
    decreases stack.len(),
{
    if stack.len() == 0 {
        None
    } else {
        match stack_reference_fault(w, stack.subrange(0, stack.len() - 1)) {
            Some(f) => Some(f),
            None => op_reference_fault(w, stack[stack.len() - 1].operation),
        }
    }
}

/// Every event, event slot and draw result slot that an operation on the stack names must be
/// held by the checkpoint.
pub open spec fn references_fault(c: SimulationCheckpoint) -> Option<CheckpointError> {
    stack_reference_fault(c.resolution, c.resolution.stack@)
}

fn op_reference_check(w: &ResolutionWork, op: &ResolutionOp) -> (r: Option<CheckpointError>)
    ensures
        r == op_reference_fault(*w, *op),
{
    match op {
        ResolutionOp::ResolveEvent(e) | ResolutionOp::FinishEvent(e) | ResolutionOp::RunEffect { event: Some(e), .. } => {
            if w.events.contains_key(&e.0) {
                None
            } else {
                Some(CheckpointError::MissingEvent(*e))
            }
        },
        ResolutionOp::ResolveEventSlot(s) => {
            if w.event_slots.contains_key(&s.0) {
                None
            } else {
                Some(CheckpointError::MissingEventSlot(*s))
            }
        },
        ResolutionOp::FinishDraw(s) | ResolutionOp::ContinueDraw { result: s, .. } => {
            if w.draw_result_slots.contains_key(&s.0) {
                None
            } else {
                Some(CheckpointError::MissingDrawResultSlot(*s))
            }
        },
        _ => None,
    }
}

proof fn lemma_stack_reference_fault_prefix(w: ResolutionWork, stack: Seq<StackedResolutionOp>, n: int)
    requires
        0 <= n <= stack.len(),
        stack_reference_fault(w, stack.subrange(0, n)) is Some,
    ensures
        stack_reference_fault(w, stack) == stack_reference_fault(w, stack.subrange(0, n)),
    decreases stack.len() - n,
{
    if n < stack.len() {
        assert(stack.subrange(0, n + 1).subrange(0, n) =~= stack.subrange(0, n));
        lemma_stack_reference_fault_prefix(w, stack, n + 1);
    } else {
        assert(stack.subrange(0, n) =~= stack);
    }
}

/// Checks the references of the retained work of a checkpoint (see `references_fault`).
fn validate_retained_references(c: &SimulationCheckpoint) -> (r: Result<(), CheckpointError>)
    ensures
        match references_fault(*c) {
            Some(f) => r == Err::<(), CheckpointError>(f),
            None => r is Ok,
        },
{
    let stack = &c.resolution.stack;
    let mut k: usize = 0;
    while k < stack.len()
        invariant
            k <= stack@.len(),
            *stack == c.resolution.stack,
            stack_reference_fault(c.resolution, stack@.subrange(0, k as int)) is None,
        decreases stack.len() - k,
    {
        proof {
            assert(stack@.subrange(0, k + 1).subrange(0, k as int) =~= stack@.subrange(0, k as int));
            assert(stack@.subrange(0, k + 1)[k as int] == stack@[k as int]);
        }
        match op_reference_check(&c.resolution, &stack[k].operation) {
            None => {},
            Some(f) => {
                proof {
                    lemma_stack_reference_fault_prefix(c.resolution, stack@, k + 1);
                }
                return Err(f);
            },
        }
        k = k + 1;
    }
    proof {
        assert(stack@.subrange(0, k as int) =~= stack@);
    }
    Ok(())
}

/// The first rule a checkpoint breaks, in the order they are checked: versions, resolution
/// counters, identities, each entity, card costs, the roles of the first and the second player,
/// the retained choice requests, then the references of the retained operations.
pub open spec fn checkpoint_fault(c: SimulationCheckpoint) -> Option<CheckpointError> {
    either(
        header_fault(c),
        either(
            counters_fault(c),
            either(
                identity_fault(c),
                either(
                    entities_fault_from(c, 0),
                    either(
                        costs_fault_from(c.entities@, 0),
                        either(
                            checkpoint_role_fault(c.entities@, PlayerId::One),
                            either(
                                checkpoint_role_fault(c.entities@, PlayerId::Two),
                                either(programs_fault(c), references_fault(c)),
                            ),
                        ),
                    ),
                ),
            ),
        ),
    )
}

fn check_entities(c: &SimulationCheckpoint) -> (r: Result<(), CheckpointError>)
    ensures
        match entities_fault_from(*c, 0) {
            Some(f) => r == Err::<(), CheckpointError>(f),
            None => r is Ok,
        },
{
    let mut k: usize = 0;
    while k < c.entities.len()
        invariant
            k <= c.entities@.len(),
            entities_fault_from(*c, 0) == entities_fault_from(*c, k as int),
        decreases c.entities@.len() - k,
    {
        let position = if k < c.zone_positions.len() {
            c.zone_positions[k]
        } else {
            None
        };
        match validate_checkpoint_entity(&c.entities, &c.entities[k], position) {
            Err(e) => return Err(e),
            Ok(_) => {},
        }
        match &c.entities[k].runtime_auras {
            Some(d) => {
                if d.len() as u64 > 4294967296u64 {
                    return Err(CheckpointError::TooManyAuraDefinitions(c.entities[k].id));
                }
            },
            None => {},
        }
        k = k + 1;
    }
    Ok(())
}

/// Checks a checkpoint before anything is restored from it and reports the first rule it
/// breaks (see `checkpoint_fault`).
pub fn validate_checkpoint(c: &SimulationCheckpoint) -> (r: Result<(), CheckpointError>)
    ensures
        match checkpoint_fault(*c) {
            Some(f) => r == Err::<(), CheckpointError>(f),
            None => r is Ok,
        },
{
    if c.schema_version != CHECKPOINT_SCHEMA_VERSION {
        return Err(CheckpointError::UnsupportedSchemaVersion(c.schema_version));
    }
    if c.ruleset.rulebook_revision != RULEBOOK_REVISION {
        return Err(CheckpointError::UnsupportedRulebookRevision(c.ruleset.rulebook_revision));
    }
    if c.trace_ruleset != c.ruleset.id {
        return Err(CheckpointError::RulesetMismatch);
    }
    match validate_next_counter(
        CounterKind::Resolution,
        c.resolution.next_resolution_id,
        largest_stack_id(&c.resolution.stack),
    ) {
        Err(e) => return Err(e),
        Ok(_) => {},
    }
    match validate_next_counter(CounterKind::Event, c.resolution.next_event_id, largest_key(&c.resolution.events)) {
        Err(e) => return Err(e),
        Ok(_) => {},
    }
    match validate_next_counter(
        CounterKind::EventSlot,
        c.resolution.next_event_slot_id,
        largest_key(&c.resolution.event_slots),
    ) {
        Err(e) => return Err(e),
        Ok(_) => {},
    }
    match validate_next_counter(
        CounterKind::DrawResultSlot,
        c.resolution.next_draw_result_slot_id,
        largest_key(&c.resolution.draw_result_slots),
    ) {
        Err(e) => return Err(e),
        Ok(_) => {},
    }
    match crate::driver::assert_game_entity_index(&c.entities) {
        Err(_) => return Err(CheckpointError::DuplicateEntityIds),
        Ok(_) => {},
    }
    match largest_id(&c.entities) {
        Some(m) => {
            if m >= c.next_game_entity_id {
                return Err(CheckpointError::StaleEntityCounter);
            }
        },
        None => {},
    }
    match validate_next_counter(CounterKind::PlayOrder, c.next_play_order, largest_play_order(&c.entities)) {
        Err(e) => return Err(e),
        Ok(_) => {},
    }
    match check_entities(c) {
        Err(e) => return Err(e),
        Ok(_) => {},
    }
    match validate_checkpoint_costs(&c.entities) {
        Err(e) => return Err(e),
        Ok(_) => {},
    }
    match validate_checkpoint_player_roles(&c.entities) {
        Err(e) => return Err(e),
        Ok(_) => {},
    }
    match validate_retained_programs(c) {
        Err(e) => return Err(e),
        Ok(_) => {},
    }
    validate_retained_references(c)
}


/// The entries of zone `z` under `p` among the first `n` entities, keyed by recorded position
/// (zero when none is recorded) and identity.
pub open spec fn zone_keys(c: SimulationCheckpoint, p: PlayerId, z: Zone, n: int) -> Seq<Keyed<GameEntityId>>
    decreases n,
{
    if n <= 0 {
        Seq::empty()
    } else {
        let prev = zone_keys(c, p, z, n - 1);
        let e = c.entities@[n - 1];
        if e.zone == Some(z) && e.controller == Some(p) {
            prev.push(
                Keyed {
                    order: match position_at(c, n - 1) {
                        Some(x) => x,
                        None => 0,
                    },
                    id: e.id.0,
                    value: e.id,
                },
            )
        } else {
            prev
        }
    }
}

/// The identities of keyed entries, in order.
pub open spec fn key_values(s: Seq<Keyed<GameEntityId>>) -> Seq<GameEntityId> {
    s.map_values(|k: Keyed<GameEntityId>| k.value)
}

/// The list of zone `z` under `p` that a checkpoint restores: the entities recorded there, in
/// order of recorded position, ties broken by identity.
pub open spec fn restored_list(c: SimulationCheckpoint, p: PlayerId, z: Zone) -> Seq<GameEntityId> {
    key_values(sort_keyed(zone_keys(c, p, z, c.entities@.len() as int)))
}

fn restored_zone(c: &SimulationCheckpoint, p: PlayerId, z: Zone) -> (r: Vec<GameEntityId>)
    ensures
        r@ == restored_list(*c, p, z),
{
    let mut keys: Vec<Keyed<GameEntityId>> = Vec::new();
    let mut i: usize = 0;
    while i < c.entities.len()
        invariant
            i <= c.entities@.len(),
            keys@ == sort_keyed(zone_keys(*c, p, z, i as int)),
        decreases c.entities@.len() - i,
    {
        let e = &c.entities[i];
        if e.zone == Some(z) && e.controller == Some(p) {
            let position = if i < c.zone_positions.len() {
                c.zone_positions[i]
            } else {
                None
            };
            let order = match position {
                Some(x) => x,
                None => 0,
            };
            insert_keyed(&mut keys, Keyed { order, id: e.id.0, value: e.id });
            proof {
                assert(zone_keys(*c, p, z, i + 1).drop_last() =~= zone_keys(*c, p, z, i as int));
            }
        }
        i = i + 1;
    }
    let mut r: Vec<GameEntityId> = Vec::new();
    let mut k: usize = 0;
    while k < keys.len()
        invariant
            k <= keys@.len(),
            r@ =~= key_values(keys@.subrange(0, k as int)),
        decreases keys@.len() - k,
    {
        r.push(keys[k].value);
        k = k + 1;
        assert(r@ =~= key_values(keys@.subrange(0, k as int)));
    }
    assert(keys@.subrange(0, keys@.len() as int) =~= keys@);
    r
}

/// The zone lists a checkpoint restores, for both players.
fn restored_zones(c: &SimulationCheckpoint) -> (r: ZoneIndex)
    ensures
        forall|p: PlayerId, z: Zone| #[trigger] r.list(p, z) == restored_list(*c, p, z),
{
    let one = crate::world::PlayerZones {
        deck: restored_zone(c, PlayerId::One, Zone::Deck),
        hand: restored_zone(c, PlayerId::One, Zone::Hand),
        play: restored_zone(c, PlayerId::One, Zone::Play),
        graveyard: restored_zone(c, PlayerId::One, Zone::Graveyard),
        removed: restored_zone(c, PlayerId::One, Zone::RemovedFromGame),
    };
    let two = crate::world::PlayerZones {
        deck: restored_zone(c, PlayerId::Two, Zone::Deck),
        hand: restored_zone(c, PlayerId::Two, Zone::Hand),
        play: restored_zone(c, PlayerId::Two, Zone::Play),
        graveyard: restored_zone(c, PlayerId::Two, Zone::Graveyard),
        removed: restored_zone(c, PlayerId::Two, Zone::RemovedFromGame),
    };
    ZoneIndex { one, two }
}

/// Whether `w` is the world restored from `c`: its objects are the checkpoint's entities in
/// checkpoint order, each zone list is `restored_list`, the generator continues from the
/// recorded state, and every other resource is the recorded one.
pub open spec fn restored_from(c: SimulationCheckpoint, w: World) -> bool {
    &&& w.objects@ == c.entities@
    &&& forall|p: PlayerId, z: Zone| #[trigger] w.zones.list(p, z) == restored_list(c, p, z)
    &&& w.game == c.game
    &&& w.ruleset == c.ruleset
    &&& w.turn_schedule.extra_turns@ == c.extra_turns@
    &&& w.dominant_player == c.dominant_player
    &&& w.next_game_entity_id == c.next_game_entity_id
    &&& w.next_play_order == c.next_play_order
    &&& w.rng == (DeterministicRng { state: c.rng.state, position: c.rng.position })
    &&& w.trace@ == c.trace@
    &&& w.deaths@ == c.deaths@
    &&& w.pending_deaths@ == c.pending_deaths@
    &&& w.defeated_heroes@ == c.defeated_heroes@
    &&& w.resolution == c.resolution
}

/// The rules a restored world must keep: zone lists and objects agree, enchantments are
/// sound, each player has its roles, the resolution bookkeeping fits the game status, and no
/// two objects share an identity.
pub open spec fn restored_rules_hold(w: World) -> bool {
    &&& crate::zone::zones_agree(w.objects@, w.zones)
    &&& forall|i: int| 0 <= i < w.objects@.len() ==> crate::enchantment::enchantment_fault(#[trigger] w.objects@[i]) is None
    &&& crate::player::role_fault(w, PlayerId::One) is None
    &&& crate::player::role_fault(w, PlayerId::Two) is None
    &&& crate::resolver::resolution_rules_hold(&w.resolution, w.game.status)
    &&& unique_ids(w.objects@)
}

/// Whether the world a checkpoint restores keeps the rules.
pub open spec fn restorable(c: SimulationCheckpoint) -> bool {
    exists|w: World| restored_from(c, w) && restored_rules_hold(w)
}

/// The rules hold alike of any two worlds restored from one checkpoint.
proof fn lemma_restored_rules_congruent(c: SimulationCheckpoint, a: World, b: World)
    requires
        restored_from(c, a),
        restored_from(c, b),
    ensures
        restored_rules_hold(a) == restored_rules_hold(b),
{
    assert(a.objects@ == b.objects@);
    assert forall|p: PlayerId, z: Zone| #[trigger] a.zones.list(p, z) == b.zones.list(p, z) by {
        assert(a.zones.list(p, z) == restored_list(c, p, z));
        assert(b.zones.list(p, z) == restored_list(c, p, z));
    }
    assert(crate::zone::zones_agree(a.objects@, a.zones) == crate::zone::zones_agree(b.objects@, b.zones)) by {
        if crate::zone::zones_agree(a.objects@, a.zones) {
            assert forall|p: PlayerId, z: Zone| #[trigger] crate::zone::list_agrees(b.objects@, b.zones.list(p, z), p, z) by {
                assert(crate::zone::list_agrees(a.objects@, a.zones.list(p, z), p, z));
            }
            assert forall|i: int| 0 <= i < b.objects@.len() implies #[trigger] crate::zone::object_listed(b.objects@, b.zones, i) by {
                assert(crate::zone::object_listed(a.objects@, a.zones, i));
                match b.objects@[i].zone {
                    Some(z) => {
                        assert(a.zones.list(b.objects@[i].controller->0, z) == b.zones.list(b.objects@[i].controller->0, z));
                    },
                    None => {},
                }
            }
        }
        if crate::zone::zones_agree(b.objects@, b.zones) {
            assert forall|p: PlayerId, z: Zone| #[trigger] crate::zone::list_agrees(a.objects@, a.zones.list(p, z), p, z) by {
                assert(crate::zone::list_agrees(b.objects@, b.zones.list(p, z), p, z));
            }
            assert forall|i: int| 0 <= i < a.objects@.len() implies #[trigger] crate::zone::object_listed(a.objects@, a.zones, i) by {
                assert(crate::zone::object_listed(b.objects@, b.zones, i));
                match a.objects@[i].zone {
                    Some(z) => {
                        assert(a.zones.list(a.objects@[i].controller->0, z) == b.zones.list(a.objects@[i].controller->0, z));
                    },
                    None => {},
                }
            }
        }
    }
    assert(a.zones.list(PlayerId::One, Zone::Play) == b.zones.list(PlayerId::One, Zone::Play));
    assert(a.zones.list(PlayerId::Two, Zone::Play) == b.zones.list(PlayerId::Two, Zone::Play));
    assert(crate::player::role_fault(a, PlayerId::One) == crate::player::role_fault(b, PlayerId::One));
    assert(crate::player::role_fault(a, PlayerId::Two) == crate::player::role_fault(b, PlayerId::Two));
}

proof fn lemma_entities_sound(c: SimulationCheckpoint, k: int)
    requires
        0 <= k,
        entities_fault_from(c, k) is None,
    ensures
        forall|j: int| k <= j < c.entities@.len() ==> #[trigger] aura_count_fault(c.entities@[j]) is None,
    decreases c.entities@.len() - k,
{
    if k < c.entities@.len() {
        lemma_entities_sound(c, k + 1);
    }
}


/// Restores a world from a checkpoint. The checkpoint is validated first (a refusal names the
/// first rule it breaks), then its generator version; the restored world is then held to the
/// rules of zones, enchantments, player roles, resolution bookkeeping and identities.
pub fn restore_checkpoint(c: SimulationCheckpoint) -> (r: Result<World, SimulationError>)
    ensures
        checkpoint_fault(c) matches Some(e) ==> r == Err::<World, SimulationError>(SimulationError::Checkpoint(e)),
        checkpoint_fault(c) is None && c.rng.algorithm_version != RNG_ALGORITHM_VERSION ==> r
            == Err::<World, SimulationError>(
            SimulationError::Checkpoint(CheckpointError::UnsupportedRngVersion(c.rng.algorithm_version)),
        ),
        checkpoint_fault(c) is None && c.rng.algorithm_version == RNG_ALGORITHM_VERSION ==> (r is Ok
            <==> restorable(c)),
        r matches Ok(w) ==> restored_from(c, w) && restored_rules_hold(w) && crate::world::world_wf(w),
        r matches Err(e) ==> e is Checkpoint || e is Invariant,
{
    match validate_checkpoint(&c) {
        Err(e) => return Err(SimulationError::Checkpoint(e)),
        Ok(_) => {},
    }
    let rng = match DeterministicRng::from_snapshot(c.rng) {
        Some(rng) => rng,
        None => {
            return Err(
                SimulationError::Checkpoint(CheckpointError::UnsupportedRngVersion(c.rng.algorithm_version)),
            )
        },
    };
    let zones = restored_zones(&c);
    let ghost c0 = c;
    proof {
        lemma_entities_sound(c, 0);
    }
    let w = World {
        objects: c.entities,
        zones,
        game: c.game,
        ruleset: c.ruleset,
        turn_schedule: TurnSchedule { extra_turns: c.extra_turns },
        dominant_player: c.dominant_player,
        next_game_entity_id: c.next_game_entity_id,
        next_play_order: c.next_play_order,
        rng,
        trace: c.trace,
        deaths: c.deaths,
        pending_deaths: c.pending_deaths,
        defeated_heroes: c.defeated_heroes,
        resolution: c.resolution,
    };
    assert(restored_from(c0, w));
    proof {
        if restorable(c0) {
            let v = choose|v: World| restored_from(c0, v) && restored_rules_hold(v);
            lemma_restored_rules_congruent(c0, v, w);
        }
        assert forall|i: int| 0 <= i < w.objects@.len() implies match (#[trigger] w.objects@[i]).runtime_auras {
            Some(defs) => defs@.len() <= u32::MAX + 1,
            None => true,
        } by {
            assert(aura_count_fault(c0.entities@[i]) is None);
        }
    }
    match crate::zone::assert_zone_invariants(&w) {
        Err(e) => return Err(SimulationError::Invariant(e)),
        Ok(_) => {},
    }
    match crate::enchantment::assert_enchantment_invariants(&w.objects) {
        Err(e) => return Err(SimulationError::Invariant(e)),
        Ok(_) => {},
    }
    match crate::player::assert_player_role_invariants(&w) {
        Err(e) => return Err(SimulationError::Invariant(e)),
        Ok(_) => {},
    }
    match crate::resolver::assert_resolution_invariants(&w.resolution, w.game.status) {
        Err(e) => return Err(SimulationError::Invariant(InvariantViolation::Resolution(e))),
        Ok(_) => {},
    }
    match crate::driver::assert_game_entity_index(&w.objects) {
        Err(e) => return Err(SimulationError::Invariant(e)),
        Ok(_) => {},
    }
    assert(restored_rules_hold(w));
    assert(restorable(c0));
    Ok(w)
}

} // verus!
