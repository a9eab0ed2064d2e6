//! Running one resolution operation: events, damage batches, phase boundaries, choices.
use vstd::prelude::*;

use crate::action::{context, effect_ops, make_context, only_pushed, push_effects, room, run_sequence_step, step_ran};
use crate::aura_refresh::{
    all_refreshed, provider_refreshed, refresh_all_auras, refresh_health_attack_auras, refresh_played_provider,
    refresh_post_death_auras,
};
use crate::error::SimulationError;
use crate::operations::{
    copy_ids, ops_view, AuraRefreshPlan, ChoiceRequest, DamageRequest, DrawContinuationPolicy, DrawOutcome,
    EffectContext, EventContext, EventContextView,
    EventKind, OpView, PendingChoice, PhaseBoundaryPlan, PreparedEvent, ResolutionOp, StackedResolutionOp,
};
use crate::player::{apply_damage, check_outcome, damage_objects, damaged, outcome_checked};
use crate::resolver::{allocate_event_id, take_draw_result, ResolutionError, ResolutionWork};
use crate::trace::{trace_view, TraceEntry, TraceEntryView};
use crate::trigger::Effect;
use crate::types::{DrawResultSlotId, EntityKind, EventId, EventSlotId, GameEntityId, PlayerId, SimulationStatus, Zone};
use crate::world::{world_wf, DeathRecord, GameObject, GameState, World, ZoneIndex};
use crate::zone::{board_of, minions_in, move_entity, position_on, without_first};

verus! {

broadcast use vstd::std_specs::btree::group_btree_axioms;

/// The trace picture of creating event `id` with context `c`.
pub open spec fn created_entry(id: EventId, c: EventContextView) -> TraceEntryView {
    TraceEntryView::EventCreated {
        id,
        kind: c.kind,
        source: c.source,
        targets: c.targets,
        proposed: c.proposed_value,
        actual: c.actual_value,
    }
}

/// Whether `new` is `old` with event `id` of context `c` created: the next event identity is
/// handed out, the event is retained and its creation recorded.
pub open spec fn event_recorded(old: World, new: World, c: EventContextView, id: EventId) -> bool {
    &&& id == EventId(old.resolution.next_event_id)
    &&& new == (World { trace: new.trace, resolution: new.resolution, ..old })
    &&& new.resolution == (ResolutionWork {
        events: new.resolution.events,
        next_event_id: (old.resolution.next_event_id + 1) as u64,
        ..old.resolution
    })
    &&& new.resolution.events@.dom() == old.resolution.events@.dom().insert(id.0)
    &&& new.resolution.events@[id.0].context@ == c
    &&& !new.resolution.events@[id.0].triggers_collected
    &&& forall|k: u64| k != id.0 && #[trigger] old.resolution.events@.contains_key(k) ==> new.resolution.events@[k]
        == old.resolution.events@[k]
    &&& trace_view(new.trace@) == trace_view(old.trace@).push(created_entry(id, c))
}

/// Creates an event: hands out its identity, retains it and records its creation.
pub fn record_event(world: &mut World, context: EventContext) -> (id: EventId)
    requires
        room(*old(world), 0, 1),
    ensures
        final(world).resolution.remaining_budget == old(world).resolution.remaining_budget,
        final(world).resolution.sequence_active == old(world).resolution.sequence_active,
        event_recorded(*old(world), *final(world), context@, id),
{
    let id = allocate_event_id(&mut world.resolution);
    let ghost c = context@;
    let entry = TraceEntry::EventCreated {
        id,
        kind: context.kind,
        source: context.source,
        targets: copy_ids(&context.targets),
        proposed: context.proposed_value,
        actual: context.actual_value,
    };
    let ghost before = world.trace@;
    world.trace.push(entry);
    world.resolution.events.insert(id.0, PreparedEvent { context, triggers_collected: false });
    proof {
        assert(trace_view(world.trace@) =~= trace_view(before).push(created_entry(id, c)));
    }
    id
}

/// Whether `new` is `old` once the triggers of the retained event `event` are collected: the
/// first time, the event is marked collected and a trigger snapshot is recorded (no game object
/// holds trigger definitions, so it lists none); afterwards nothing changes.
pub open spec fn triggers_snapshotted(old: World, new: World, event: EventId) -> bool {
    let p = old.resolution.events@[event.0];
    if p.triggers_collected {
        new == old
    } else {
        &&& new == (World { trace: new.trace, resolution: new.resolution, ..old })
        &&& new.resolution == (ResolutionWork { events: new.resolution.events, ..old.resolution })
        &&& new.resolution.events@ == old.resolution.events@.insert(event.0, PreparedEvent { triggers_collected: true, ..p })
        &&& new.trace@ == old.trace@.push(TraceEntry::TriggerSnapshot { event })
    }
}

/// What expanding event `event` does: a missing event is refused; otherwise its triggers are
/// collected (see `triggers_snapshotted`) and, unless it is a proposed damage or healing event,
/// its finish is scheduled.
pub open spec fn event_expanded(old: World, new: World, event: EventId, r: Result<(), SimulationError>) -> bool {
    if !old.resolution.events@.contains_key(event.0) {
        r == Err::<(), SimulationError>(SimulationError::Resolution(ResolutionError::MissingEvent(event))) && new == old
    } else {
        let kind = old.resolution.events@[event.0].context.kind;
        &&& r is Ok
        &&& exists|mid: World|
            #[trigger] triggers_snapshotted(old, mid, event) && if kind == EventKind::ProposedDamage || kind
                == EventKind::ProposedHealing {
                new == mid
            } else {
                only_pushed(mid, new, seq![OpView::FinishEvent(event)])
            }
    }
}

/// Expands event `event`: schedules its finish unless it is a proposed damage or healing event.
pub fn expand_event(world: &mut World, event: EventId) -> (r: Result<(), SimulationError>)
    requires
        room(*old(world), 1, 0),
    ensures
        final(world).resolution.remaining_budget == old(world).resolution.remaining_budget,
        final(world).resolution.sequence_active == old(world).resolution.sequence_active,
        event_expanded(*old(world), *final(world), event, r),
{
    let (kind, collected) = match world.resolution.events.get(&event.0) {
        Some(prepared) => (prepared.context.kind, prepared.triggers_collected),
        None => return Err(SimulationError::Resolution(ResolutionError::MissingEvent(event))),
    };
    let ghost w0 = *world;
    if !collected {
        match world.resolution.events.remove(&event.0) {
            Some(mut prepared) => {
                prepared.triggers_collected = true;
                world.resolution.events.insert(event.0, prepared);
            },
            None => {},
        }
        world.trace.push(TraceEntry::TriggerSnapshot { event });
        proof {
            assert(world.resolution.events@ =~= w0.resolution.events@.insert(
                event.0,
                PreparedEvent { triggers_collected: true, ..w0.resolution.events@[event.0] },
            ));
        }
    }
    let ghost mid = *world;
    proof {
        assert(triggers_snapshotted(w0, mid, event));
    }
    if kind == EventKind::ProposedDamage || kind == EventKind::ProposedHealing {
        return Ok(());
    }
    let ops = vec![ResolutionOp::FinishEvent(event)];
    proof {
        crate::operations::lemma_ops_view_index(ops@);
        assert(ops_view(ops@) =~= seq![OpView::FinishEvent(event)]);
    }
    let ghost stack = world.resolution.stack@;
    let ghost next = world.resolution.next_resolution_id;
    let ghost o = ops@;
    crate::resolver::push_resolution_ops(&mut world.resolution, ops);
    proof {
        crate::resolver::lemma_pushed_views(stack, o, next);
    }
    Ok(())
}

/// Removes a retained event and returns it; a missing event is refused.
pub fn take_prepared_event(world: &mut World, event: EventId) -> (r: Result<PreparedEvent, SimulationError>)
    ensures
        !old(world).resolution.events@.contains_key(event.0) ==> r == Err::<PreparedEvent, SimulationError>(
            SimulationError::Resolution(ResolutionError::MissingEvent(event)),
        ) && *final(world) == *old(world),
        old(world).resolution.events@.contains_key(event.0) ==> {
            &&& r == Ok::<PreparedEvent, SimulationError>(old(world).resolution.events@[event.0])
            &&& *final(world) == (World { resolution: final(world).resolution, ..*old(world) })
            &&& final(world).resolution == (ResolutionWork { events: final(world).resolution.events, ..old(world).resolution })
            &&& final(world).resolution.events@ == old(world).resolution.events@.remove(event.0)
        },
{
    if !world.resolution.events.contains_key(&event.0) {
        return Err(SimulationError::Resolution(ResolutionError::MissingEvent(event)));
    }
    match world.resolution.events.remove(&event.0) {
        Some(prepared) => Ok(prepared),
        None => Err(SimulationError::Resolution(ResolutionError::MissingEvent(event))),
    }
}

/// What resolving event slot `slot` does: a missing slot is refused; otherwise the slot is
/// removed and the event it holds, if any, is scheduled for resolution.
pub open spec fn slot_resolved(old: World, new: World, slot: EventSlotId, r: Result<(), SimulationError>) -> bool {
    if !old.resolution.event_slots@.contains_key(slot.0) {
        r == Err::<(), SimulationError>(SimulationError::Resolution(ResolutionError::MissingEventSlot(slot))) && new == old
    } else {
        exists|removed: World|
            #![trigger removed.resolution]
            {
                &&& removed == (World { resolution: removed.resolution, ..old })
                &&& removed.resolution == (ResolutionWork { event_slots: removed.resolution.event_slots, ..old.resolution })
                &&& removed.resolution.event_slots@ == old.resolution.event_slots@.remove(slot.0)
                &&& r is Ok
                &&& match old.resolution.event_slots@[slot.0].event {
                    Some(e) => only_pushed(removed, new, seq![OpView::ResolveEvent(e)]),
                    None => new == removed,
                }
            }
    }
}

/// Resolves an event slot: removes it and schedules the event it holds, if any.
pub fn resolve_event_slot(world: &mut World, slot: EventSlotId) -> (r: Result<(), SimulationError>)
    requires
        room(*old(world), 1, 0),
    ensures
        final(world).resolution.remaining_budget == old(world).resolution.remaining_budget,
        final(world).resolution.sequence_active == old(world).resolution.sequence_active,
        slot_resolved(*old(world), *final(world), slot, r),
{
    if !world.resolution.event_slots.contains_key(&slot.0) {
        return Err(SimulationError::Resolution(ResolutionError::MissingEventSlot(slot)));
    }
    let prepared = match world.resolution.event_slots.remove(&slot.0) {
        Some(prepared) => prepared,
        None => return Err(SimulationError::Resolution(ResolutionError::MissingEventSlot(slot))),
    };
    let ghost removed = *world;
    match prepared.event {
        Some(e) => {
            let ops = vec![ResolutionOp::ResolveEvent(e)];
            proof {
                crate::operations::lemma_ops_view_index(ops@);
                assert(ops_view(ops@) =~= seq![OpView::ResolveEvent(e)]);
            }
            let ghost stack = world.resolution.stack@;
            let ghost next = world.resolution.next_resolution_id;
            let ghost o = ops@;
            crate::resolver::push_resolution_ops(&mut world.resolution, ops);
            proof {
                crate::resolver::lemma_pushed_views(stack, o, next);
                assert(only_pushed(removed, *world, seq![OpView::ResolveEvent(e)]));
            }
        },
        None => {},
    }
    Ok(())
}

/// What asking for a choice does: the request becomes the pending choice, the game waits for
/// it, and the request is recorded.
pub open spec fn choice_requested(old: World, new: World, request: crate::operations::ChoiceRequestView) -> bool {
    &&& new == (World {
        game: GameState { status: SimulationStatus::AwaitingChoice, ..old.game },
        trace: new.trace,
        resolution: new.resolution,
        ..old
    })
    &&& new.resolution == (ResolutionWork { pending_choice: new.resolution.pending_choice, ..old.resolution })
    &&& new.resolution.pending_choice is Some
    &&& new.resolution.pending_choice->0.request@ == request
    &&& new.trace@ == old.trace@.push(TraceEntry::ChoiceRequested { choice: request.id, player: request.player })
}

/// Suspends resolution until `request` is answered.
pub fn request_choice(world: &mut World, request: ChoiceRequest)
    ensures
        final(world).resolution.remaining_budget == old(world).resolution.remaining_budget,
        final(world).resolution.sequence_active == old(world).resolution.sequence_active,
        choice_requested(*old(world), *final(world), request@),
{
    let choice = request.id;
    let player = request.player;
    world.resolution.pending_choice = Some(PendingChoice { request });
    world.game.status = SimulationStatus::AwaitingChoice;
    world.trace.push(TraceEntry::ChoiceRequested { choice, player });
}

/// The objects after the first `n` damage requests are applied in order.
pub open spec fn batch_objects(objects: Seq<GameObject>, requests: Seq<DamageRequest>, n: int) -> Seq<GameObject>
    decreases n,
{
    if n <= 0 {
        objects
    } else {
        let prev = batch_objects(objects, requests, n - 1);
        damage_objects(prev, requests[n - 1].target, requests[n - 1].proposed)
    }
}

/// The context of the damage event of one request, controlled by `controller`.
pub open spec fn damage_context(request: DamageRequest, controller: PlayerId) -> EventContextView {
    EventContextView {
        kind: EventKind::Damage,
        source: request.source,
        targets: seq![request.target],
        controller,
        proposed_value: Some(request.proposed),
        actual_value: Some(request.proposed),
        simultaneous_ordinal: 0,
    }
}

/// What a damage batch does: each request is applied in order, one damage event per request is
/// created, retained and recorded, and their resolution is scheduled in order.
pub open spec fn batch_processed(old: World, new: World, requests: Seq<DamageRequest>) -> bool {
    let n = requests.len();
    let first = old.resolution.next_event_id;
    &&& new.objects@ == batch_objects(old.objects@, requests, n as int)
    &&& new == (World { objects: new.objects, trace: new.trace, resolution: new.resolution, ..old })
    &&& new.resolution == (ResolutionWork {
        events: new.resolution.events,
        stack: new.resolution.stack,
        next_event_id: new.resolution.next_event_id,
        next_resolution_id: new.resolution.next_resolution_id,
        ..old.resolution
    })
    &&& forall|k: int|
        0 <= k < n ==> new.resolution.events@.contains_key((first + k) as u64) && new.resolution.events@[(first
            + k) as u64].context@ == damage_context(#[trigger] requests[k], old.game.active_player)
    &&& forall|key: u64|
        #[trigger] old.resolution.events@.contains_key(key) && !(first <= key < first + n) ==> new.resolution.events@.contains_key(key)
            && new.resolution.events@[key] == old.resolution.events@[key]
    &&& new.resolution.next_event_id == first + n
    &&& trace_view(new.trace@) == trace_view(old.trace@) + Seq::new(
        n,
        |k: int| created_entry(EventId((first + k) as u64), damage_context(requests[k], old.game.active_player)),
    )
    &&& new.resolution.next_resolution_id == old.resolution.next_resolution_id + n
    &&& crate::resolver::pushed_views(
        old.resolution.stack@,
        new.resolution.stack@,
        Seq::new(n, |k: int| OpView::ResolveEvent(EventId((first + k) as u64))),
        old.resolution.next_resolution_id,
    )
}

/// Applies a batch of damage requests in order, creating one damage event per request and
/// scheduling their resolution in the same order.
pub fn process_damage_batch(world: &mut World, requests: &Vec<DamageRequest>)
    requires
        world_wf(*old(world)),
        room(*old(world), requests@.len() as int, requests@.len() as int),
    ensures
        final(world).resolution.remaining_budget == old(world).resolution.remaining_budget,
        final(world).resolution.sequence_active == old(world).resolution.sequence_active,
        batch_processed(*old(world), *final(world), requests@),
        world_wf(*final(world)),
{
    let ghost w0 = *world;
    let controller = world.game.active_player;
    let mut events: Vec<ResolutionOp> = Vec::new();
    let mut k: usize = 0;
    while k < requests.len()
        invariant
            k <= requests.len(),
            world_wf(*world),
            room(w0, requests@.len() as int, requests@.len() as int),
            controller == w0.game.active_player,
            world.objects@ == batch_objects(w0.objects@, requests@, k as int),
            *world == (World { objects: world.objects, trace: world.trace, resolution: world.resolution, ..w0 }),
            forall|m: int|
                0 <= m < k ==> world.resolution.events@.contains_key((w0.resolution.next_event_id + m) as u64)
                    && world.resolution.events@[(w0.resolution.next_event_id + m) as u64].context@ == damage_context(
                    #[trigger] requests@[m],
                    controller,
                ),
            forall|key: u64|
                #[trigger] w0.resolution.events@.contains_key(key) && !(w0.resolution.next_event_id <= key
                    < w0.resolution.next_event_id + k) ==> world.resolution.events@.contains_key(key)
                    && world.resolution.events@[key] == w0.resolution.events@[key],
            world.resolution == (ResolutionWork { events: world.resolution.events, next_event_id: (w0.resolution.next_event_id + k) as u64, ..w0.resolution }),
            trace_view(world.trace@) == trace_view(w0.trace@) + Seq::new(
                k as nat,
                |m: int| created_entry(EventId((w0.resolution.next_event_id + m) as u64), damage_context(requests@[m], controller)),
            ),
            events@.len() == k,
            forall|m: int| 0 <= m < k ==> #[trigger] events@[m] == ResolutionOp::ResolveEvent(EventId((w0.resolution.next_event_id + m) as u64)),
        decreases requests.len() - k,
    {
        let request = requests[k];
        let ghost before = *world;
        apply_damage(world, request.target, request.proposed);
        proof {
            let after = *world;
            crate::world::lemma_lookup_some(before.objects@, request.target);
            crate::world::lemma_wf_frame(before.objects@, after.objects@);
        }
        let mut targets: Vec<GameEntityId> = Vec::new();
        targets.push(request.target);
        let c = EventContext {
            kind: EventKind::Damage,
            source: request.source,
            targets,
            controller,
            proposed_value: Some(request.proposed),
            actual_value: Some(request.proposed),
            simultaneous_ordinal: 0,
        };
        proof {
            assert(c@.targets =~= seq![request.target]);
            assert(c@ == damage_context(request, controller));
        }
        let ghost before_event = *world;
        let id = record_event(world, c);
        let ghost prev_ops = events@;
        events.push(ResolutionOp::ResolveEvent(id));
        proof {
            assert forall|m: int|
                0 <= m < k + 1 implies world.resolution.events@.contains_key((w0.resolution.next_event_id + m) as u64)
                    && world.resolution.events@[(w0.resolution.next_event_id + m) as u64].context@ == damage_context(
                    #[trigger] requests@[m],
                    controller,
                ) by {
                if m < k {
                    assert(before_event.resolution.events@.contains_key((w0.resolution.next_event_id + m) as u64));
                    assert((w0.resolution.next_event_id + m) as u64 != id.0);
                }
            }
            assert(trace_view(world.trace@) =~= trace_view(w0.trace@) + Seq::new(
                (k + 1) as nat,
                |m: int| created_entry(EventId((w0.resolution.next_event_id + m) as u64), damage_context(requests@[m], controller)),
            ));
            assert(world.objects@ == batch_objects(w0.objects@, requests@, k + 1));
        }
        k = k + 1;
    }
    let ghost evs = events@;
    let ghost stack = world.resolution.stack@;
    let ghost next = world.resolution.next_resolution_id;
    proof {
        crate::operations::lemma_ops_view_index(evs);
        assert(ops_view(evs) =~= Seq::new(requests@.len(), |m: int| OpView::ResolveEvent(EventId((w0.resolution.next_event_id + m) as u64))));
    }
    crate::resolver::push_resolution_ops(&mut world.resolution, events);
    proof {
        crate::resolver::lemma_pushed_views(stack, evs, next);
    }
}


/// Whether `o` dies at a phase boundary: a minion or hero in play, controlled, that is marked
/// for destruction or whose damage reaches its maximum health.
pub open spec fn mortally_wounded(o: GameObject) -> bool {
    &&& o.zone == Some(Zone::Play)
    &&& o.controller is Some
    &&& (o.kind == Some(EntityKind::Minion) || o.kind == Some(EntityKind::Hero))
    &&& (o.pending_destroy || (o.current_stats is Some && o.damage is Some && o.damage->0 >= o.current_stats->0.maximum_health))
}

/// Damage kills: armor absorbs damage first (as far as it goes) and the rest adds to the damage
/// taken, and a minion or hero in play dies at the next phase boundary exactly when its damage
/// then reaches its maximum health (away from the limits of `i32`).
pub proof fn law_damage_kills_at_maximum_health(o: GameObject, amount: i32)
    requires
        amount > 0,
        o.zone == Some(Zone::Play),
        o.controller is Some,
        o.kind == Some(EntityKind::Minion) || o.kind == Some(EntityKind::Hero),
        !o.pending_destroy,
        o.current_stats is Some,
        o.damage is Some,
        o.damage->0 + amount <= i32::MAX,
    ensures
        ({
            let armor = if o.armor is Some && o.armor->0 > 0 { o.armor->0 as int } else { 0 };
            let rest = if amount > armor { amount - armor } else { 0 };
            let after = crate::player::damaged_object(o, amount);
            &&& after.damage == Some((o.damage->0 + rest) as i32)
            &&& o.armor is Some ==> after.armor == Some((o.armor->0 - (amount - rest)) as i32)
            &&& mortally_wounded(after) <==> o.damage->0 + rest >= o.current_stats->0.maximum_health
        }),
{
}

fn is_mortally_wounded(o: &GameObject) -> (r: bool)
    ensures
        r == mortally_wounded(*o),
{
    if o.zone != Some(Zone::Play) || o.controller.is_none() {
        return false;
    }
    match o.kind {
        Some(EntityKind::Minion) => {},
        Some(EntityKind::Hero) => {},
        _ => return false,
    }
    if o.pending_destroy {
        return true;
    }
    match (o.current_stats, o.damage) {
        (Some(stats), Some(d)) => d >= stats.maximum_health,
        _ => false,
    }
}

/// The record of the death of the object at `i` of `w`, the `ordinal`-th death of its phase:
/// its identity, controller, play order (zero when it has none), its position on its
/// controller's board (zero when it is not on it) and the turn.
pub open spec fn record_for(w: World, i: int, ordinal: u32) -> DeathRecord {
    let o = w.objects@[i];
    DeathRecord {
        entity: o.id,
        controller: o.controller->0,
        kind: EntityKind::Minion,
        play_order: match o.play_order {
            Some(p) => p,
            None => 0,
        },
        remembered_zone_position: position_on(board_of(w, o.controller->0), o.id) as u64,
        simultaneous_ordinal: ordinal,
        turn_of_death: w.game.turn_number,
    }
}

/// Whether `new` is `old` once the object at `i` has died as the `ordinal`-th death of its
/// phase: its pending destruction is cleared, it leaves its controller's play list for the
/// graveyard when it is listed there (the move is recorded), and its record is kept as a death
/// and as a pending death.
pub open spec fn minion_died(old: World, new: World, i: int, ordinal: u32) -> bool {
    let o = old.objects@[i];
    let c = o.controller->0;
    let record = record_for(old, i, ordinal);
    let listed = old.zones.list(c, Zone::Play).contains(o.id);
    &&& new == (World {
        objects: new.objects,
        zones: new.zones,
        trace: new.trace,
        deaths: new.deaths,
        pending_deaths: new.pending_deaths,
        ..old
    })
    &&& new.deaths@ == old.deaths@.push(record)
    &&& new.pending_deaths@ == old.pending_deaths@.push(record)
    &&& new.objects@ == old.objects@.update(
        i,
        GameObject { zone: if listed { Some(Zone::Graveyard) } else { o.zone }, pending_destroy: false, ..o },
    )
    &&& new.zones.list(c, Zone::Play) == without_first(old.zones.list(c, Zone::Play), o.id)
    &&& new.zones.list(c, Zone::Graveyard) == if listed {
        old.zones.list(c, Zone::Graveyard).push(o.id)
    } else {
        old.zones.list(c, Zone::Graveyard)
    }
    &&& forall|q: PlayerId, z: Zone|
        !(q == c && (z == Zone::Play || z == Zone::Graveyard)) ==> #[trigger] new.zones.list(q, z) == old.zones.list(q, z)
    &&& trace_view(new.trace@) == if listed {
        trace_view(old.trace@).push(TraceEntryView::ZoneMoved { entity: o.id, from: Zone::Play, to: Zone::Graveyard })
    } else {
        trace_view(old.trace@)
    }
}

/// The object at `i`, mortally wounded, dies as the `ordinal`-th death of its phase.
fn record_death(world: &mut World, i: usize, ordinal: u32)
    requires
        world_wf(*old(world)),
        i < old(world).objects@.len(),
        mortally_wounded(old(world).objects@[i as int]),
    ensures
        minion_died(*old(world), *final(world), i as int, ordinal),
        world_wf(*final(world)),
{
    let ghost w0 = *world;
    let id = world.objects[i].id;
    let controller = match world.objects[i].controller {
        Some(c) => c,
        None => {
            proof {
                assert(false);
            }
            PlayerId::One
        },
    };
    let board = crate::zone::board_entities(world, controller);
    let position: usize = match crate::zone::find_in_list(&board, id) {
        Some(k) => {
            proof {
                crate::zone::lemma_first_index_unique(board@, id, k as int);
            }
            k
        },
        None => 0,
    };
    let play_order = match world.objects[i].play_order {
        Some(p) => p,
        None => 0,
    };
    let record = DeathRecord {
        entity: id,
        controller,
        kind: EntityKind::Minion,
        play_order,
        remembered_zone_position: position as u64,
        simultaneous_ordinal: ordinal,
        turn_of_death: world.game.turn_number,
    };
    proof {
        assert(record == record_for(w0, i as int, ordinal));
    }
    world.objects[i].pending_destroy = false;
    let ghost cleared = *world;
    proof {
        let o = GameObject { pending_destroy: false, ..w0.objects@[i as int] };
        assert(cleared.objects@ =~= w0.objects@.update(i as int, o));
        crate::world::lemma_wf_update(w0.objects@, i as int, o);
        crate::aura::lemma_lookup_unique(cleared.objects@, i as int);
    }
    let moved = move_entity(world, id, Zone::Graveyard, None);
    proof {
        crate::zone::lemma_move_to_graveyard(cleared, *world, id, moved, i as int, controller);
        crate::zone::lemma_zone_move_frame(cleared, *world, id, Zone::Graveyard, None, moved);
        crate::world::lemma_wf_frame(cleared.objects@, world.objects@);
    }
    let ghost before_trace = world.trace@;
    match moved {
        Ok(crate::zone::ZoneMoveOutcome::Moved { from, to }) => {
            world.trace.push(TraceEntry::ZoneMoved { entity: id, from, to });
        },
        _ => {},
    }
    proof {
        if w0.zones.list(controller, Zone::Play).contains(id) {
            assert(trace_view(world.trace@) =~= trace_view(before_trace).push(
                TraceEntryView::ZoneMoved { entity: id, from: Zone::Play, to: Zone::Graveyard },
            ));
            assert(world.objects@ =~= w0.objects@.update(
                i as int,
                GameObject { zone: Some(Zone::Graveyard), pending_destroy: false, ..w0.objects@[i as int] },
            ));
        } else {
            assert(world.trace@ == before_trace);
            assert(w0.zones.list(controller, Zone::Play) =~= without_first(w0.zones.list(controller, Zone::Play), id));
        }
    }
    world.deaths.push(record);
    world.pending_deaths.push(record);
}

/// The play list `list` of `p` once each object at `dead` that `p` controls has left it (its
/// first occurrence), in turn.
pub open spec fn play_after(objects: Seq<GameObject>, list: Seq<GameEntityId>, p: PlayerId, dead: Seq<int>) -> Seq<
    GameEntityId,
>
    decreases dead.len(),
{
    if dead.len() == 0 {
        list
    } else {
        let o = objects[dead.last()];
        let prev = play_after(objects, list, p, dead.drop_last());
        if o.controller == Some(p) {
            without_first(prev, o.id)
        } else {
            prev
        }
    }
}

/// Whether the `m`-th object of `dead` is still on its controller's play list when its turn to
/// die comes, those before it having left.
pub open spec fn listed_at_death(objects: Seq<GameObject>, zones: ZoneIndex, dead: Seq<int>, m: int) -> bool {
    let o = objects[dead[m]];
    let c = o.controller->0;
    play_after(objects, zones.list(c, Zone::Play), c, dead.subrange(0, m)).contains(o.id)
}

/// The graveyard list of `p` once the objects at `dead` have died in turn: each that `p`
/// controls and that was still listed in play joins its end.
pub open spec fn graveyard_after(objects: Seq<GameObject>, zones: ZoneIndex, p: PlayerId, dead: Seq<int>) -> Seq<
    GameEntityId,
>
    decreases dead.len(),
{
    if dead.len() == 0 {
        zones.list(p, Zone::Graveyard)
    } else {
        let m = dead.len() - 1;
        let o = objects[dead[m]];
        let prev = graveyard_after(objects, zones, p, dead.drop_last());
        if o.controller == Some(p) && listed_at_death(objects, zones, dead, m) {
            prev.push(o.id)
        } else {
            prev
        }
    }
}

/// The trace of the moves to the graveyard as the objects at `dead` die in turn.
pub open spec fn death_moves(objects: Seq<GameObject>, zones: ZoneIndex, dead: Seq<int>) -> Seq<TraceEntryView>
    decreases dead.len(),
{
    if dead.len() == 0 {
        Seq::empty()
    } else {
        let m = dead.len() - 1;
        let prev = death_moves(objects, zones, dead.drop_last());
        if listed_at_death(objects, zones, dead, m) {
            prev.push(TraceEntryView::ZoneMoved { entity: objects[dead[m]].id, from: Zone::Play, to: Zone::Graveyard })
        } else {
            prev
        }
    }
}

/// The simultaneous ordinal of the `m`-th death of a phase (held at the largest value).
pub open spec fn ordinal_of(m: int) -> u32 {
    if m < u32::MAX {
        m as u32
    } else {
        u32::MAX
    }
}

/// The record of the `m`-th death as the objects of `w` at `dead` die in turn: its identity,
/// controller, play order (zero when it has none), its position on its controller's board at
/// that moment (zero when it is not on it), its ordinal and the turn.
pub open spec fn death_record(w: World, dead: Seq<int>, m: int) -> DeathRecord {
    let o = w.objects@[dead[m]];
    let c = o.controller->0;
    DeathRecord {
        entity: o.id,
        controller: c,
        kind: EntityKind::Minion,
        play_order: match o.play_order {
            Some(p) => p,
            None => 0,
        },
        remembered_zone_position: position_on(
            minions_in(w.objects@, play_after(w.objects@, w.zones.list(c, Zone::Play), c, dead.subrange(0, m))),
            o.id,
        ) as u64,
        simultaneous_ordinal: ordinal_of(m),
        turn_of_death: w.game.turn_number,
    }
}

/// The records of the deaths of the objects of `w` at `dead`, in turn.
pub open spec fn death_records(w: World, dead: Seq<int>) -> Seq<DeathRecord> {
    Seq::new(dead.len(), |m: int| death_record(w, dead, m))
}

/// Whether `w` is `w0` once the objects at `dead` have died in turn (see `minion_died`), the
/// defeated heroes aside.
pub open spec fn died_in_turn(w0: World, w: World, dead: Seq<int>) -> bool {
    &&& w == (World {
        objects: w.objects,
        zones: w.zones,
        trace: w.trace,
        deaths: w.deaths,
        pending_deaths: w.pending_deaths,
        defeated_heroes: w.defeated_heroes,
        ..w0
    })
    &&& w.objects@.len() == w0.objects@.len()
    &&& forall|j: int| 0 <= j < w0.objects@.len() && !dead.contains(j) ==> #[trigger] w.objects@[j] == w0.objects@[j]
    &&& forall|m: int|
        0 <= m < dead.len() ==> w.objects@[#[trigger] dead[m]] == (GameObject {
            zone: if listed_at_death(w0.objects@, w0.zones, dead, m) {
                Some(Zone::Graveyard)
            } else {
                w0.objects@[dead[m]].zone
            },
            pending_destroy: false,
            ..w0.objects@[dead[m]]
        })
    &&& forall|p: PlayerId| #[trigger] w.zones.list(p, Zone::Play) == play_after(w0.objects@, w0.zones.list(p, Zone::Play), p, dead)
    &&& forall|p: PlayerId| #[trigger] w.zones.list(p, Zone::Graveyard) == graveyard_after(w0.objects@, w0.zones, p, dead)
    &&& forall|p: PlayerId, z: Zone|
        z != Zone::Play && z != Zone::Graveyard ==> #[trigger] w.zones.list(p, z) == w0.zones.list(p, z)
    &&& trace_view(w.trace@) == trace_view(w0.trace@) + death_moves(w0.objects@, w0.zones, dead)
    &&& w.deaths@ == w0.deaths@ + death_records(w0, dead)
    &&& w.pending_deaths@ == w0.pending_deaths@ + death_records(w0, dead)
}

/// The defeated players once the heroes among the objects at `wounded` are taken in turn: each
/// hero's controller not yet defeated is added at the end.
pub open spec fn defeats_after(objects: Seq<GameObject>, defeated: Seq<PlayerId>, wounded: Seq<int>) -> Seq<PlayerId>
    decreases wounded.len(),
{
    if wounded.len() == 0 {
        defeated
    } else {
        let prev = defeats_after(objects, defeated, wounded.drop_last());
        let o = objects[wounded.last()];
        if o.kind == Some(EntityKind::Hero) && !prev.contains(o.controller->0) {
            prev.push(o.controller->0)
        } else {
            prev
        }
    }
}

/// What creating deaths does: the mortally wounded objects that are not heroes die in object
/// order (see `died_in_turn`), and the controller of every mortally wounded hero is among the
/// defeated players, added once, in object order, at the end of those already defeated.
pub open spec fn deaths_created(old: World, new: World) -> bool {
    &&& died_in_turn(old, new, dying_positions(old.objects@, old.objects@.len() as int))
    &&& new.defeated_heroes@ == defeats_after(
        old.objects@,
        old.defeated_heroes@,
        wounded_list(old.objects@, old.objects@.len() as int),
    )
    &&& new.defeated_heroes@.len() >= old.defeated_heroes@.len()
    &&& new.defeated_heroes@.subrange(0, old.defeated_heroes@.len() as int) == old.defeated_heroes@
    &&& forall|i: int|
        0 <= i < old.objects@.len() && mortally_wounded(#[trigger] old.objects@[i]) && old.objects@[i].kind == Some(
            EntityKind::Hero,
        ) ==> new.defeated_heroes@.contains(old.objects@[i].controller->0)
}

/// The context of the death event of record `r`.
pub open spec fn death_context(r: DeathRecord) -> EventContextView {
    EventContextView {
        kind: EventKind::Death,
        source: Some(r.entity),
        targets: seq![r.entity],
        controller: r.controller,
        proposed_value: None,
        actual_value: None,
        simultaneous_ordinal: r.simultaneous_ordinal,
    }
}

/// What queuing the pending deaths does: they are taken; when there were any, their entities are
/// recorded as one death phase, one death event per death is created in order, and the
/// resolution of those events, then a forced phase boundary, are scheduled.
pub open spec fn death_events_queued(old: World, new: World) -> bool {
    let pending = old.pending_deaths@;
    let n = pending.len();
    let first = old.resolution.next_event_id;
    &&& new == (World { trace: new.trace, resolution: new.resolution, pending_deaths: new.pending_deaths, ..old })
    &&& new.pending_deaths@.len() == 0
    &&& n == 0 ==> new.trace@ == old.trace@ && new.resolution == old.resolution
    &&& n > 0 ==> {
        &&& trace_view(new.trace@) == trace_view(old.trace@).push(
            TraceEntryView::DeathPhaseQueued { deaths: pending.map_values(|r: DeathRecord| r.entity) },
        ) + Seq::new(n, |k: int| created_entry(EventId((first + k) as u64), death_context(pending[k])))
        &&& new.resolution == (ResolutionWork {
            events: new.resolution.events,
            stack: new.resolution.stack,
            next_event_id: (first + n) as u64,
            next_resolution_id: (old.resolution.next_resolution_id + n + 1) as u64,
            ..old.resolution
        })
        &&& forall|k: int|
            0 <= k < n ==> new.resolution.events@.contains_key((first + k) as u64) && new.resolution.events@[(first
                + k) as u64].context@ == death_context(#[trigger] pending[k])
        &&& forall|key: u64|
            #[trigger] old.resolution.events@.contains_key(key) && !(first <= key < first + n) ==> new.resolution.events@.contains_key(key)
                && new.resolution.events@[key] == old.resolution.events@[key]
        &&& crate::resolver::pushed_views(
            old.resolution.stack@,
            new.resolution.stack@,
            Seq::new(n, |k: int| OpView::ResolveEvent(EventId((first + k) as u64))).push(
                OpView::RunPhaseBoundary(PhaseBoundaryPlan::ForcedDeath),
            ),
            old.resolution.next_resolution_id,
        )
    }
}

/// What a phase boundary does: the health and attack aura caches are refreshed twice, deaths are
/// created (see `deaths_created`), the attack and other aura caches are refreshed, and the
/// pending deaths are queued as death events (see `death_events_queued`).
pub open spec fn boundary_ran(old: World, new: World) -> bool {
    exists|once: World, refreshed: World, died: World, cleaned: World|
        {
            &&& once == (World { objects: once.objects, trace: once.trace, ..old })
            &&& refreshed == (World { objects: refreshed.objects, trace: refreshed.trace, ..old })
            &&& #[trigger] crate::aura_refresh::health_attack_pass(old.objects@, old.trace@, once.objects@, once.trace@)
            &&& crate::aura_refresh::health_attack_pass(once.objects@, once.trace@, refreshed.objects@, refreshed.trace@)
            &&& #[trigger] deaths_created(refreshed, died)
            &&& cleaned == (World { objects: cleaned.objects, trace: cleaned.trace, ..died })
            &&& crate::aura_refresh::attack_other_pass(died.objects@, died.trace@, cleaned.objects@, cleaned.trace@)
            &&& #[trigger] death_events_queued(cleaned, new)
        }
}

/// The positions among the first `n` objects of those mortally wounded, in order.
pub open spec fn wounded_list(objects: Seq<GameObject>, n: int) -> Seq<int>
    decreases n,
{
    if n <= 0 {
        Seq::empty()
    } else if mortally_wounded(objects[n - 1]) {
        wounded_list(objects, n - 1).push(n - 1)
    } else {
        wounded_list(objects, n - 1)
    }
}

/// The positions of `s` whose objects are not heroes, in order.
pub open spec fn non_heroes(objects: Seq<GameObject>, s: Seq<int>) -> Seq<int>
    decreases s.len(),
{
    if s.len() == 0 {
        Seq::empty()
    } else if objects[s.last()].kind != Some(EntityKind::Hero) {
        non_heroes(objects, s.drop_last()).push(s.last())
    } else {
        non_heroes(objects, s.drop_last())
    }
}

/// The positions among the first `n` objects of those that die at a phase boundary: mortally
/// wounded objects that are not heroes, in object order.
pub open spec fn dying_positions(objects: Seq<GameObject>, n: int) -> Seq<int> {
    non_heroes(objects, wounded_list(objects, n))
}

fn wounded_positions(objects: &Vec<GameObject>) -> (r: Vec<usize>)
    ensures
        r@.len() == wounded_list(objects@, objects@.len() as int).len(),
        forall|k: int| 0 <= k < r@.len() ==> r@[k] as int == #[trigger] wounded_list(objects@, objects@.len() as int)[k],
        r@.len() <= objects@.len(),
        forall|k: int| 0 <= k < r@.len() ==> (#[trigger] r@[k]) < objects@.len() && mortally_wounded(objects@[r@[k] as int]),
        forall|i: int| 0 <= i < objects@.len() && mortally_wounded(#[trigger] objects@[i]) ==> exists|m: int|
            0 <= m < r@.len() && r@[m] as int == i,
{
    let mut r: Vec<usize> = Vec::new();
    let mut i: usize = 0;
    while i < objects.len()
        invariant
            i <= objects.len(),
            r@.len() <= i,
            forall|k: int| 0 <= k < r@.len() ==> (#[trigger] r@[k]) < i && mortally_wounded(objects@[r@[k] as int]),
            forall|j: int| 0 <= j < i && mortally_wounded(#[trigger] objects@[j]) ==> exists|m: int|
                0 <= m < r@.len() && r@[m] as int == j,
            r@.len() == wounded_list(objects@, i as int).len(),
            forall|k: int| 0 <= k < r@.len() ==> r@[k] as int == #[trigger] wounded_list(objects@, i as int)[k],
        decreases objects.len() - i,
    {
        let ghost before = r@;
        if is_mortally_wounded(&objects[i]) {
            r.push(i);
            proof {
                assert forall|k: int| 0 <= k < r@.len() implies r@[k] as int == #[trigger] wounded_list(objects@, i + 1)[k] by {
                    if k < before.len() {
                        assert(r@[k] == before[k]);
                    }
                }
                assert(r@[before.len() as int] == i);
                assert forall|j: int| 0 <= j < i + 1 && mortally_wounded(#[trigger] objects@[j]) implies exists|m: int|
                    0 <= m < r@.len() && r@[m] as int == j by {
                    if j < i {
                        let k = choose|k: int| 0 <= k < before.len() && before[k] as int == j;
                        assert(r@[k] as int == j);
                    } else {
                        assert(r@[before.len() as int] as int == j);
                    }
                }
            }
        }
        i = i + 1;
    }
    r
}

/// The positions of a wounded list come in increasing order, each below the count.
proof fn lemma_wounded_increasing(objects: Seq<GameObject>, n: int)
    ensures
        forall|a: int, b: int|
            0 <= a < b < wounded_list(objects, n).len() ==> #[trigger] wounded_list(objects, n)[a] < #[trigger] wounded_list(
                objects,
                n,
            )[b],
        forall|a: int| 0 <= a < wounded_list(objects, n).len() ==> 0 <= #[trigger] wounded_list(objects, n)[a] < n,
    decreases n,
{
    if n > 0 {
        lemma_wounded_increasing(objects, n - 1);
        let prev = wounded_list(objects, n - 1);
        let cur = wounded_list(objects, n);
        if mortally_wounded(objects[n - 1]) {
            assert(cur == prev.push(n - 1));
            assert forall|a: int| 0 <= a < cur.len() implies 0 <= #[trigger] cur[a] < n by {
                if a < prev.len() {
                    assert(cur[a] == prev[a]);
                }
            }
            assert forall|a: int, b: int| 0 <= a < b < cur.len() implies #[trigger] cur[a] < #[trigger] cur[b] by {
                assert(cur[a] == prev[a]);
                if b < prev.len() {
                    assert(cur[b] == prev[b]);
                }
            }
        } else {
            assert(cur == prev);
        }
    }
}

/// One more death, in turn, keeps the closed form of the deaths so far.
proof fn lemma_death_step(w0: World, before: World, after: World, dead: Seq<int>, i: int)
    requires
        died_in_turn(w0, before, dead),
        0 <= i < w0.objects@.len(),
        !dead.contains(i),
        mortally_wounded(w0.objects@[i]),
        forall|m: int| 0 <= m < dead.len() ==> 0 <= #[trigger] dead[m] < w0.objects@.len(),
        minion_died(before, after, i, ordinal_of(dead.len() as int)),
    ensures
        died_in_turn(w0, after, dead.push(i)),
{
    let d2 = dead.push(i);
    let n = dead.len() as int;
    let o = w0.objects@[i];
    let c = o.controller->0;
    assert(before.objects@[i] == o);
    assert(d2.subrange(0, n) =~= dead);
    assert(d2.drop_last() =~= dead);
    assert(d2[n] == i);
    assert forall|m: int| 0 <= m < n implies listed_at_death(w0.objects@, w0.zones, d2, m) == listed_at_death(
        w0.objects@,
        w0.zones,
        dead,
        m,
    ) && death_record(w0, d2, m) == death_record(w0, dead, m) && #[trigger] d2[m] == dead[m] by {
        assert(d2.subrange(0, m) =~= dead.subrange(0, m));
    }
    let listed = before.zones.list(c, Zone::Play).contains(o.id);
    assert(before.zones.list(c, Zone::Play) == play_after(w0.objects@, w0.zones.list(c, Zone::Play), c, dead));
    assert(listed == listed_at_death(w0.objects@, w0.zones, d2, n));
    assert forall|j: int| 0 <= j < w0.objects@.len() implies (#[trigger] before.objects@[j]).id == w0.objects@[j].id
        && before.objects@[j].kind == w0.objects@[j].kind by {
        if dead.contains(j) {
            let m = choose|m: int| 0 <= m < dead.len() && dead[m] == j;
            assert(before.objects@[dead[m]].id == w0.objects@[dead[m]].id);
        }
    }
    crate::zone::lemma_minions_in_frame(w0.objects@, before.objects@, before.zones.list(c, Zone::Play));
    assert(record_for(before, i, ordinal_of(n)) == death_record(w0, d2, n));
    assert forall|j: int| 0 <= j < w0.objects@.len() && !d2.contains(j) implies #[trigger] after.objects@[j]
        == w0.objects@[j] by {
        if dead.contains(j) {
            let m = choose|m: int| 0 <= m < dead.len() && dead[m] == j;
            assert(d2[m] == j);
        }
        assert(d2[n] == i);
        assert(j != i);
    }
    assert forall|m: int| 0 <= m < d2.len() implies after.objects@[#[trigger] d2[m]] == (GameObject {
        zone: if listed_at_death(w0.objects@, w0.zones, d2, m) {
            Some(Zone::Graveyard)
        } else {
            w0.objects@[d2[m]].zone
        },
        pending_destroy: false,
        ..w0.objects@[d2[m]]
    }) by {
        if m < n {
            assert(dead.contains(dead[m]));
            assert(dead[m] != i);
        }
    }
    assert forall|p: PlayerId| #[trigger] after.zones.list(p, Zone::Play) == play_after(
        w0.objects@,
        w0.zones.list(p, Zone::Play),
        p,
        d2,
    ) by {
        if p == c {
            if !listed {
                assert(without_first(before.zones.list(c, Zone::Play), o.id) == before.zones.list(c, Zone::Play));
            }
        } else {
            assert(after.zones.list(p, Zone::Play) == before.zones.list(p, Zone::Play));
        }
    }
    assert forall|p: PlayerId| #[trigger] after.zones.list(p, Zone::Graveyard) == graveyard_after(
        w0.objects@,
        w0.zones,
        p,
        d2,
    ) by {
        if p != c {
            assert(after.zones.list(p, Zone::Graveyard) == before.zones.list(p, Zone::Graveyard));
        }
    }
    assert forall|p: PlayerId, z: Zone| z != Zone::Play && z != Zone::Graveyard implies #[trigger] after.zones.list(p, z)
        == w0.zones.list(p, z) by {
        assert(after.zones.list(p, z) == before.zones.list(p, z));
    }
    assert(death_records(w0, d2) =~= death_records(w0, dead).push(death_record(w0, d2, n)));
    assert(after.deaths@ =~= w0.deaths@ + death_records(w0, d2));
    assert(after.pending_deaths@ =~= w0.pending_deaths@ + death_records(w0, d2));
    if listed {
        assert(trace_view(after.trace@) =~= trace_view(w0.trace@) + death_moves(w0.objects@, w0.zones, d2));
    } else {
        assert(trace_view(after.trace@) =~= trace_view(w0.trace@) + death_moves(w0.objects@, w0.zones, d2));
    }
}

/// Creates the deaths of a phase boundary: each mortally wounded hero defeats its controller
/// (once); every other mortally wounded object dies, in object order.
#[verifier::rlimit(30)]
fn create_deaths(world: &mut World)
    requires
        world_wf(*old(world)),
    ensures
        deaths_created(*old(world), *final(world)),
        world_wf(*final(world)),
{
    let ghost w0 = *world;
    let positions = wounded_positions(&world.objects);
    let ghost wl = wounded_list(w0.objects@, w0.objects@.len() as int);
    proof {
        lemma_wounded_increasing(w0.objects@, w0.objects@.len() as int);
        assert(wl.subrange(0, 0) =~= Seq::<int>::empty());
        assert(died_in_turn(w0, *world, Seq::<int>::empty())) by {
            assert(death_records(w0, Seq::<int>::empty()) =~= Seq::<DeathRecord>::empty());
            assert(w0.deaths@ + Seq::<DeathRecord>::empty() =~= w0.deaths@);
            assert(w0.pending_deaths@ + Seq::<DeathRecord>::empty() =~= w0.pending_deaths@);
            assert(trace_view(w0.trace@) + Seq::<TraceEntryView>::empty() =~= trace_view(w0.trace@));
        }
        assert(w0.defeated_heroes@.subrange(0, w0.defeated_heroes@.len() as int) =~= w0.defeated_heroes@);
    }
    let ghost mut dead: Seq<int> = Seq::empty();
    let mut ordinal: u32 = 0;
    let mut k: usize = 0;
    while k < positions.len()
        invariant
            k <= positions.len(),
            positions@.len() == wl.len(),
            wl == wounded_list(w0.objects@, w0.objects@.len() as int),
            forall|m: int| 0 <= m < positions@.len() ==> positions@[m] as int == #[trigger] wl[m],
            forall|a: int, b: int| 0 <= a < b < wl.len() ==> #[trigger] wl[a] < #[trigger] wl[b],
            forall|a: int| 0 <= a < wl.len() ==> 0 <= #[trigger] wl[a] < w0.objects@.len(),
            dead == non_heroes(w0.objects@, wl.subrange(0, k as int)),
            forall|m: int| 0 <= m < dead.len() ==> 0 <= #[trigger] dead[m] < w0.objects@.len() && (k < wl.len() ==> dead[m]
                < wl[k as int]),
            ordinal == ordinal_of(dead.len() as int),
            forall|m: int| 0 <= m < positions@.len() ==> (#[trigger] positions@[m]) < w0.objects@.len() && mortally_wounded(
                w0.objects@[positions@[m] as int],
            ),
            forall|i: int| 0 <= i < w0.objects@.len() && mortally_wounded(#[trigger] w0.objects@[i]) ==> exists|m: int|
                0 <= m < positions@.len() && positions@[m] as int == i,
            world_wf(w0),
            world_wf(*world),
            died_in_turn(w0, *world, dead),
            world.defeated_heroes@.len() >= w0.defeated_heroes@.len(),
            world.defeated_heroes@.subrange(0, w0.defeated_heroes@.len() as int) == w0.defeated_heroes@,
            forall|m: int|
                0 <= m < k && w0.objects@[#[trigger] positions@[m] as int].kind == Some(EntityKind::Hero)
                    ==> world.defeated_heroes@.contains(w0.objects@[positions@[m] as int].controller->0),
            world.defeated_heroes@ == defeats_after(w0.objects@, w0.defeated_heroes@, wl.subrange(0, k as int)),
        decreases positions.len() - k,
    {
        let i = positions[k];
        let ghost before = *world;
        proof {
            assert(wl.subrange(0, k + 1).drop_last() =~= wl.subrange(0, k as int));
            assert(wl.subrange(0, k + 1).last() == wl[k as int]);
            assert(!dead.contains(i as int)) by {
                if dead.contains(i as int) {
                    let m = choose|m: int| 0 <= m < dead.len() && dead[m] == i as int;
                    assert(dead[m] < wl[k as int]);
                }
            }
            assert(before.objects@[i as int] == w0.objects@[i as int]);
        }
        let kind = world.objects[i].kind;
        if kind == Some(EntityKind::Hero) {
            let controller = match world.objects[i].controller {
                Some(c) => c,
                None => {
                    proof {
                        assert(false);
                    }
                    PlayerId::One
                },
            };
            let mut present = false;
            let mut d: usize = 0;
            while d < world.defeated_heroes.len()
                invariant
                    d <= world.defeated_heroes@.len(),
                    present ==> world.defeated_heroes@.contains(controller),
                    !present ==> forall|m: int| 0 <= m < d ==> world.defeated_heroes@[m] != controller,
                decreases world.defeated_heroes@.len() - d,
            {
                if world.defeated_heroes[d] == controller {
                    present = true;
                }
                d = d + 1;
            }
            if !present {
                world.defeated_heroes.push(controller);
                proof {
                    assert(world.defeated_heroes@[world.defeated_heroes@.len() - 1] == controller);
                }
            }
            proof {
                assert(world.defeated_heroes@.subrange(0, w0.defeated_heroes@.len() as int) =~= before.defeated_heroes@.subrange(
                    0,
                    w0.defeated_heroes@.len() as int,
                ));
                assert forall|m: int|
                    0 <= m < k + 1 && w0.objects@[#[trigger] positions@[m] as int].kind == Some(EntityKind::Hero)
                        implies world.defeated_heroes@.contains(w0.objects@[positions@[m] as int].controller->0) by {
                    if m < k {
                        let x = w0.objects@[positions@[m] as int].controller->0;
                        let q = choose|q: int| 0 <= q < before.defeated_heroes@.len() && before.defeated_heroes@[q] == x;
                        assert(world.defeated_heroes@[q] == x);
                    }
                }
                assert(died_in_turn(w0, *world, dead));
            }
        } else {
            record_death(world, i, ordinal);
            proof {
                lemma_death_step(w0, before, *world, dead, i as int);
                dead = dead.push(i as int);
            }
            if ordinal < u32::MAX {
                ordinal = ordinal + 1;
            }
            proof {
                assert forall|m: int|
                    0 <= m < k + 1 && w0.objects@[#[trigger] positions@[m] as int].kind == Some(EntityKind::Hero)
                        implies world.defeated_heroes@.contains(w0.objects@[positions@[m] as int].controller->0) by {
                    if m == k {
                        assert(w0.objects@[i as int].kind == kind);
                    }
                }
            }
        }
        proof {
            assert(wl.subrange(0, k + 1).drop_last() =~= wl.subrange(0, k as int));
            assert(wl.subrange(0, k + 1).last() == wl[k as int]);
            assert(w0.objects@[i as int].kind == kind);
            assert forall|m: int| 0 <= m < dead.len() implies 0 <= #[trigger] dead[m] < w0.objects@.len() && (k + 1 < wl.len()
                ==> dead[m] < wl[k + 1]) by {
                if k + 1 < wl.len() {
                    assert(wl[k as int] < wl[k + 1]);
                }
            }
        }
        k = k + 1;
    }
    proof {
        assert(wl.subrange(0, wl.len() as int) =~= wl);
        assert forall|i: int|
            0 <= i < w0.objects@.len() && mortally_wounded(#[trigger] w0.objects@[i]) && w0.objects@[i].kind == Some(
                EntityKind::Hero,
            ) implies world.defeated_heroes@.contains(w0.objects@[i].controller->0) by {
            let m = choose|m: int| 0 <= m < positions@.len() && positions@[m] as int == i;
            assert(w0.objects@[positions@[m] as int].kind == Some(EntityKind::Hero));
        }
    }
}

/// Queues the pending deaths as death events: takes them and, when there are any, records their
/// entities as one death phase, creates one death event per death in order, and schedules their
/// resolution followed by a forced phase boundary.
fn queue_death_events(world: &mut World)
    requires
        room(*old(world), (old(world).pending_deaths@.len() + 1) as int, old(world).pending_deaths@.len() as int),
    ensures
        death_events_queued(*old(world), *final(world)),
{
    let ghost w0 = *world;
    let mut pending: Vec<DeathRecord> = Vec::new();
    let mut p: usize = 0;
    while p < world.pending_deaths.len()
        invariant
            p <= world.pending_deaths@.len(),
            pending@ == world.pending_deaths@.subrange(0, p as int),
        decreases world.pending_deaths@.len() - p,
    {
        pending.push(world.pending_deaths[p]);
        p = p + 1;
        assert(pending@ =~= world.pending_deaths@.subrange(0, p as int));
    }
    proof {
        assert(pending@ =~= w0.pending_deaths@);
    }
    world.pending_deaths = Vec::new();
    if pending.len() == 0 {
        return;
    }
    let mut ids: Vec<GameEntityId> = Vec::new();
    let mut q: usize = 0;
    while q < pending.len()
        invariant
            q <= pending.len(),
            ids@ == pending@.subrange(0, q as int).map_values(|r: DeathRecord| r.entity),
        decreases pending.len() - q,
    {
        ids.push(pending[q].entity);
        q = q + 1;
        assert(ids@ =~= pending@.subrange(0, q as int).map_values(|r: DeathRecord| r.entity));
    }
    proof {
        assert(pending@.subrange(0, pending@.len() as int) =~= pending@);
    }
    world.trace.push(TraceEntry::DeathPhaseQueued { deaths: ids });
    let ghost before_events = *world;
    let ghost first = w0.resolution.next_event_id;
    let ghost n = pending@.len();
    proof {
        assert(trace_view(before_events.trace@) =~= trace_view(w0.trace@).push(
            TraceEntryView::DeathPhaseQueued { deaths: pending@.map_values(|r: DeathRecord| r.entity) },
        ));
        assert(trace_view(before_events.trace@) + Seq::new(
            0,
            |m: int| created_entry(EventId((first + m) as u64), death_context(pending@[m])),
        ) =~= trace_view(before_events.trace@));
    }
    let mut ops: Vec<ResolutionOp> = Vec::new();
    let mut e: usize = 0;
    while e < pending.len()
        invariant
            e <= pending.len(),
            n == pending@.len(),
            pending@ == w0.pending_deaths@,
            first == w0.resolution.next_event_id,
            first + n <= u64::MAX,
            w0.resolution.next_resolution_id + n + 1 <= u64::MAX,
            before_events.resolution == w0.resolution,
            ops@.len() == e,
            forall|m: int| 0 <= m < e ==> #[trigger] ops@[m] == ResolutionOp::ResolveEvent(EventId((first + m) as u64)),
            *world == (World { trace: world.trace, resolution: world.resolution, ..before_events }),
            world.resolution == (ResolutionWork {
                events: world.resolution.events,
                next_event_id: (first + e) as u64,
                ..w0.resolution
            }),
            trace_view(world.trace@) == trace_view(before_events.trace@) + Seq::new(
                e as nat,
                |m: int| created_entry(EventId((first + m) as u64), death_context(pending@[m])),
            ),
            forall|m: int|
                0 <= m < e ==> world.resolution.events@.contains_key((first + m) as u64) && world.resolution.events@[(first
                    + m) as u64].context@ == death_context(#[trigger] pending@[m]),
            forall|key: u64|
                #[trigger] w0.resolution.events@.contains_key(key) && !(first <= key < first + e) ==> world.resolution.events@.contains_key(key)
                    && world.resolution.events@[key] == w0.resolution.events@[key],
        decreases pending.len() - e,
    {
        let record = pending[e];
        let mut targets: Vec<GameEntityId> = Vec::new();
        targets.push(record.entity);
        let c = EventContext {
            kind: EventKind::Death,
            source: Some(record.entity),
            targets,
            controller: record.controller,
            proposed_value: None,
            actual_value: None,
            simultaneous_ordinal: record.simultaneous_ordinal,
        };
        proof {
            assert(c@.targets =~= seq![record.entity]);
            assert(c@ == death_context(record));
        }
        let ghost before = *world;
        let id = record_event(world, c);
        ops.push(ResolutionOp::ResolveEvent(id));
        proof {
            assert(trace_view(world.trace@) =~= trace_view(before_events.trace@) + Seq::new(
                (e + 1) as nat,
                |m: int| created_entry(EventId((first + m) as u64), death_context(pending@[m])),
            ));
            assert forall|m: int|
                0 <= m < e + 1 implies world.resolution.events@.contains_key((first + m) as u64) && world.resolution.events@[(first
                    + m) as u64].context@ == death_context(#[trigger] pending@[m]) by {
                if m < e {
                    assert(before.resolution.events@.contains_key((first + m) as u64));
                    assert((first + m) as u64 != id.0);
                }
            }
        }
        e = e + 1;
    }
    ops.push(ResolutionOp::RunPhaseBoundary(PhaseBoundaryPlan::ForcedDeath));
    let ghost stack = world.resolution.stack@;
    let ghost next = world.resolution.next_resolution_id;
    let ghost o = ops@;
    crate::resolver::push_resolution_ops(&mut world.resolution, ops);
    proof {
        crate::resolver::lemma_pushed_views(stack, o, next);
        crate::operations::lemma_ops_view_index(o);
        assert(ops_view(o) =~= Seq::new(n, |k: int| OpView::ResolveEvent(EventId((first + k) as u64))).push(
            OpView::RunPhaseBoundary(PhaseBoundaryPlan::ForcedDeath),
        ));
    }
}

/// The deaths a boundary creates number at most the objects.
proof fn lemma_dying_bounded(objects: Seq<GameObject>, s: Seq<int>)
    ensures
        non_heroes(objects, s).len() <= s.len(),
    decreases s.len(),
{
    if s.len() > 0 {
        lemma_dying_bounded(objects, s.drop_last());
    }
}

proof fn lemma_wounded_bounded(objects: Seq<GameObject>, n: int)
    ensures
        wounded_list(objects, n).len() <= if n < 0 { 0 } else { n },
    decreases n,
{
    if n > 0 {
        lemma_wounded_bounded(objects, n - 1);
    }
}

/// Runs a phase boundary: the health and attack aura caches are refreshed twice; mortally
/// wounded heroes defeat their players; mortally wounded minions die, leave play for the
/// graveyard and are recorded; the attack and other aura caches are refreshed; then every
/// pending death becomes a death event, queued in order and followed by a forced phase boundary.
pub fn run_phase_boundary(world: &mut World, plan: PhaseBoundaryPlan)
    requires
        world_wf(*old(world)),
        room(
            *old(world),
            (old(world).objects@.len() + old(world).pending_deaths@.len() + 1) as int,
            (old(world).objects@.len() + old(world).pending_deaths@.len()) as int,
        ),
    ensures
        final(world).resolution.remaining_budget == old(world).resolution.remaining_budget,
        final(world).resolution.sequence_active == old(world).resolution.sequence_active,
        boundary_ran(*old(world), *final(world)),
        world_wf(*final(world)),
{
    let ghost w_in = *world;
    refresh_health_attack_auras(&mut world.objects, &mut world.trace);
    let ghost once = *world;
    refresh_health_attack_auras(&mut world.objects, &mut world.trace);
    let ghost refreshed = *world;
    create_deaths(world);
    let ghost died = *world;
    proof {
        let dying = dying_positions(refreshed.objects@, refreshed.objects@.len() as int);
        lemma_wounded_bounded(refreshed.objects@, refreshed.objects@.len() as int);
        lemma_dying_bounded(refreshed.objects@, wounded_list(refreshed.objects@, refreshed.objects@.len() as int));
        assert(died.pending_deaths@.len() == refreshed.pending_deaths@.len() + dying.len());
    }
    refresh_post_death_auras(&mut world.objects, &mut world.trace);
    let ghost cleaned = *world;
    proof {
        crate::world::lemma_wf_frame(died.objects@, cleaned.objects@);
    }
    queue_death_events(world);
    proof {
        assert(crate::aura_refresh::health_attack_pass(w_in.objects@, w_in.trace@, once.objects@, once.trace@));
        assert(deaths_created(refreshed, died));
        assert(death_events_queued(cleaned, *world));
    }
}


/// Whether there is room for the identities that running `op` may hand out.
pub open spec fn op_room(w: World, op: ResolutionOp) -> bool {
    match op {
        ResolutionOp::RunSequenceStep(_) => room(w, 4, 0),
        ResolutionOp::RunPhaseBoundary(_) => room(
            w,
            (w.objects@.len() + w.pending_deaths@.len() + 1) as int,
            (w.objects@.len() + w.pending_deaths@.len()) as int,
        ),
        ResolutionOp::PrepareEvent(_) => room(w, 1, 1),
        ResolutionOp::ResolveEvent(_) => room(w, 1, 0),
        ResolutionOp::ResolveEventSlot(_) => room(w, 1, 0),
        ResolutionOp::ProcessDamageBatch(v) => room(w, v@.len() as int, v@.len() as int),
        ResolutionOp::ContinueDraw { effects, .. } => room(w, effects@.len() as int, 0),
        _ => true,
    }
}

fn has_op_room(world: &World, op: &ResolutionOp) -> (r: bool)
    ensures
        r == op_room(*world, *op),
{
    let ops: u64 = world.resolution.next_resolution_id;
    let events: u64 = world.resolution.next_event_id;
    match op {
        ResolutionOp::RunSequenceStep(_) => ops <= u64::MAX - 4,
        ResolutionOp::RunPhaseBoundary(_) => {
            let n: u64 = world.objects.len() as u64;
            let m: u64 = world.pending_deaths.len() as u64;
            if n > u64::MAX - 1 || m > u64::MAX - 1 - n {
                return false;
            }
            ops <= u64::MAX - (n + m + 1) && events <= u64::MAX - (n + m)
        },
        ResolutionOp::PrepareEvent(_) => ops <= u64::MAX - 1 && events <= u64::MAX - 1,
        ResolutionOp::ResolveEvent(_) => ops <= u64::MAX - 1,
        ResolutionOp::ResolveEventSlot(_) => ops <= u64::MAX - 1,
        ResolutionOp::ProcessDamageBatch(v) => {
            let n: u64 = v.len() as u64;
            ops <= u64::MAX - n && events <= u64::MAX - n
        },
        ResolutionOp::ContinueDraw { effects, .. } => {
            let n: u64 = effects.len() as u64;
            ops <= u64::MAX - n
        },
        _ => true,
    }
}

/// What continuing a draw does once its result slot is taken (giving `mid`): with a drawn card,
/// the effects are scheduled with that card; with none, they are scheduled without one when
/// `policy` allows it, else nothing more happens. An empty slot is refused.
pub open spec fn draw_continued(
    mid: World,
    new: World,
    outcome: Option<DrawOutcome>,
    slot: DrawResultSlotId,
    context: EffectContext,
    effects: Seq<Effect>,
    policy: DrawContinuationPolicy,
    r: Result<(), SimulationError>,
) -> bool {
    match outcome {
        None => r == Err::<(), SimulationError>(SimulationError::Resolution(ResolutionError::EmptyDrawResultSlot(slot)))
            && new == mid,
        Some(DrawOutcome::Drawn(card)) => r is Ok && only_pushed(
            mid,
            new,
            effect_ops(EffectContext { drawn_card: Some(card), ..context }, effects),
        ),
        Some(_) => r is Ok && if policy == DrawContinuationPolicy::RunWithoutCard {
            only_pushed(mid, new, effect_ops(EffectContext { drawn_card: None, ..context }, effects))
        } else {
            new == mid
        },
    }
}

/// What running `op` does to `old`, giving `new` and result `r`, when there is room for its
/// identities.
pub open spec fn op_ran(old: World, new: World, op: ResolutionOp, r: Result<(), SimulationError>) -> bool {
    match op {
        ResolutionOp::RunSequenceStep(step) => step_ran(old, new, step, r),
        ResolutionOp::RunPhaseBoundary(_) => r is Ok && boundary_ran(old, new),
        ResolutionOp::RefreshAuras(AuraRefreshPlan::PlayedProvider(provider)) => {
            &&& r is Ok
            &&& new == (World { objects: new.objects, trace: new.trace, ..old })
            &&& provider_refreshed(old.objects@, new.objects@, old.trace@, new.trace@, provider)
        },
        ResolutionOp::RefreshAuras(AuraRefreshPlan::Summon) => {
            &&& r is Ok
            &&& new == (World { objects: new.objects, trace: new.trace, ..old })
            &&& all_refreshed(old.objects@, new.objects@, old.trace@, new.trace@)
        },
        ResolutionOp::CheckOutcome => r is Ok && outcome_checked(old, new),
        ResolutionOp::PrepareEvent(c) => {
            &&& r is Ok
            &&& exists|mid: World, id: EventId|
                #![trigger event_recorded(old, mid, c@, id)]
                {
                    &&& event_recorded(old, mid, c@, id)
                    &&& only_pushed(mid, new, seq![OpView::ResolveEvent(id)])
                }
        },
        ResolutionOp::ResolveEvent(e) => event_expanded(old, new, e, r),
        ResolutionOp::FinishEvent(e) => if old.resolution.events@.contains_key(e.0) {
            &&& r is Ok
            &&& new == (World { resolution: new.resolution, ..old })
            &&& new.resolution == (ResolutionWork { events: new.resolution.events, ..old.resolution })
            &&& new.resolution.events@ == old.resolution.events@.remove(e.0)
        } else {
            r == Err::<(), SimulationError>(SimulationError::Resolution(ResolutionError::MissingEvent(e))) && new == old
        },
        ResolutionOp::ResolveEventSlot(slot) => slot_resolved(old, new, slot, r),
        ResolutionOp::ProcessDamageBatch(v) => r is Ok && batch_processed(old, new, v@),
        ResolutionOp::FinishDraw(slot) => if !old.resolution.draw_result_slots@.contains_key(slot.0) {
            r == Err::<(), SimulationError>(SimulationError::Resolution(ResolutionError::MissingDrawResultSlot(slot)))
                && new == old
        } else {
            &&& new == (World { resolution: new.resolution, ..old })
            &&& new.resolution == (ResolutionWork {
                draw_result_slots: new.resolution.draw_result_slots,
                ..old.resolution
            })
            &&& new.resolution.draw_result_slots@ == old.resolution.draw_result_slots@.remove(slot.0)
            &&& match old.resolution.draw_result_slots@[slot.0].outcome {
                Some(_) => r is Ok,
                None => r == Err::<(), SimulationError>(
                    SimulationError::Resolution(ResolutionError::EmptyDrawResultSlot(slot)),
                ),
            }
        },
        ResolutionOp::RequestChoice(request) => r is Ok && choice_requested(old, new, request@),
        ResolutionOp::RunEffect { effect, .. } => r == Err::<(), SimulationError>(SimulationError::UnsupportedEffect(effect))
            && new == old,
        ResolutionOp::ContinueDraw { result: slot, context, effects, policy } => if !old.resolution.draw_result_slots@.contains_key(slot.0) {
            r == Err::<(), SimulationError>(SimulationError::Resolution(ResolutionError::MissingDrawResultSlot(slot)))
                && new == old
        } else {
            exists|mid: World|
                {
                    &&& mid == (World { resolution: mid.resolution, ..old })
                    &&& mid.resolution == (ResolutionWork {
                        draw_result_slots: mid.resolution.draw_result_slots,
                        ..old.resolution
                    })
                    &&& mid.resolution.draw_result_slots@ == old.resolution.draw_result_slots@.remove(slot.0)
                    &&& #[trigger] draw_continued(
                        mid,
                        new,
                        old.resolution.draw_result_slots@[slot.0].outcome,
                        slot,
                        context,
                        effects@,
                        policy,
                        r,
                    )
                }
        },
    }
}

/// Runs one resolution operation. When the identities it may hand out would pass their
/// largest values, it is refused and nothing changes.
pub fn execute_resolution_op(world: &mut World, op: ResolutionOp) -> (r: Result<(), SimulationError>)
    requires
        world_wf(*old(world)),
    ensures
        world_wf(*final(world)),
        final(world).resolution.remaining_budget == old(world).resolution.remaining_budget,
        final(world).resolution.sequence_active == old(world).resolution.sequence_active,
        !op_room(*old(world), op) ==> r == Err::<(), SimulationError>(
            SimulationError::Resolution(ResolutionError::IdentitiesExhausted),
        ) && *final(world) == *old(world),
        op_room(*old(world), op) ==> op_ran(*old(world), *final(world), op, r),
{
    if !has_op_room(world, &op) {
        return Err(SimulationError::Resolution(ResolutionError::IdentitiesExhausted));
    }
    let ghost w0 = *world;
    match op {
        ResolutionOp::RunSequenceStep(step) => run_sequence_step(world, step),
        ResolutionOp::RunPhaseBoundary(plan) => {
            run_phase_boundary(world, plan);
            Ok(())
        },
        ResolutionOp::RefreshAuras(plan) => {
            match plan {
                AuraRefreshPlan::PlayedProvider(provider) => {
                    refresh_played_provider(&mut world.objects, &mut world.trace, provider);
                },
                AuraRefreshPlan::Summon => {
                    refresh_all_auras(&mut world.objects, &mut world.trace);
                },
            }
            Ok(())
        },
        ResolutionOp::CheckOutcome => {
            check_outcome(world);
            Ok(())
        },
        ResolutionOp::PrepareEvent(c) => {
            let ghost cv = c@;
            let id = record_event(world, c);
            let ghost mid = *world;
            let ops = vec![ResolutionOp::ResolveEvent(id)];
            proof {
                crate::operations::lemma_ops_view_index(ops@);
                assert(ops_view(ops@) =~= seq![OpView::ResolveEvent(id)]);
            }
            let ghost stack = world.resolution.stack@;
            let ghost next = world.resolution.next_resolution_id;
            let ghost o = ops@;
            crate::resolver::push_resolution_ops(&mut world.resolution, ops);
            proof {
                crate::resolver::lemma_pushed_views(stack, o, next);
                assert(event_recorded(w0, mid, cv, id));
                assert(only_pushed(mid, *world, seq![OpView::ResolveEvent(id)]));
            }
            Ok(())
        },
        ResolutionOp::ResolveEvent(e) => expand_event(world, e),
        ResolutionOp::FinishEvent(e) => match take_prepared_event(world, e) {
            Ok(_) => Ok(()),
            Err(error) => Err(error),
        },
        ResolutionOp::ResolveEventSlot(slot) => resolve_event_slot(world, slot),
        ResolutionOp::ProcessDamageBatch(requests) => {
            process_damage_batch(world, &requests);
            Ok(())
        },
        ResolutionOp::FinishDraw(slot) => match take_draw_result(&mut world.resolution, slot) {
            Ok(_) => Ok(()),
            Err(e) => Err(SimulationError::Resolution(e)),
        },
        ResolutionOp::RequestChoice(request) => {
            request_choice(world, request);
            Ok(())
        },
        ResolutionOp::RunEffect { effect, .. } => Err(SimulationError::UnsupportedEffect(effect)),
        ResolutionOp::ContinueDraw { result, context, effects, policy } => {
            let taken = take_draw_result(&mut world.resolution, result);
            let ghost mid = *world;
            proof {
                if w0.resolution.draw_result_slots@.contains_key(result.0) {
                    assert(mid == (World { resolution: mid.resolution, ..w0 }));
                    assert(mid.resolution == (ResolutionWork {
                        draw_result_slots: mid.resolution.draw_result_slots,
                        ..w0.resolution
                    }));
                    assert(mid.resolution.draw_result_slots@ == w0.resolution.draw_result_slots@.remove(result.0));
                }
            }
            match taken {
                Err(e) => {
                    proof {
                        if w0.resolution.draw_result_slots@.contains_key(result.0) {
                            assert(draw_continued(mid, *world, w0.resolution.draw_result_slots@[result.0].outcome, result, context, effects@, policy, Err(SimulationError::Resolution(e))));
                        }
                    }
                    Err(SimulationError::Resolution(e))
                },
                Ok(DrawOutcome::Drawn(card)) => {
                    push_effects(world, EffectContext { drawn_card: Some(card), ..context }, &effects);
                    proof {
                        assert(draw_continued(mid, *world, w0.resolution.draw_result_slots@[result.0].outcome, result, context, effects@, policy, Ok(())));
                    }
                    Ok(())
                },
                Ok(_) => {
                    if policy == DrawContinuationPolicy::RunWithoutCard {
                        push_effects(world, EffectContext { drawn_card: None, ..context }, &effects);
                    }
                    proof {
                        assert(draw_continued(mid, *world, w0.resolution.draw_result_slots@[result.0].outcome, result, context, effects@, policy, Ok(())));
                    }
                    Ok(())
                },
            }
        },
    }
}

/// The failure that running the taken operation `current` left, as the dispatcher records it.
pub open spec fn dispatched(
    old: World,
    new: World,
    current: Option<StackedResolutionOp>,
    failure: Option<SimulationError>,
) -> bool {
    match current {
        None => failure is None && new == old,
        Some(c) => if !op_room(old, c.operation) {
            failure == Some(SimulationError::Resolution(ResolutionError::IdentitiesExhausted)) && new == old
        } else {
            exists|r: Result<(), SimulationError>|
                {
                    &&& #[trigger] op_ran(old, new, c.operation, r)
                    &&& failure == match r {
                        Ok(_) => None::<SimulationError>,
                        Err(e) => Some(e),
                    }
                }
        },
    }
}

/// Runs the operation held as current, if there is one: it is taken, run, and the failure it
/// reports is returned; with none held, nothing happens.
pub fn execute_current_resolution_op(world: &mut World, current: &mut Option<StackedResolutionOp>) -> (failure:
    Option<SimulationError>)
    requires
        world_wf(*old(world)),
    ensures
        world_wf(*final(world)),
        (*final(current)) is None,
        dispatched(*old(world), *final(world), *old(current), failure),
{
    let taken = current.take();
    match taken {
        None => None,
        Some(c) => {
            let ghost op = c.operation;
            let ghost w0 = *world;
            let r = execute_resolution_op(world, c.operation);
            proof {
                if op_room(w0, op) {
                    assert(op_ran(w0, *world, op, r));
                }
            }
            match r {
                Ok(()) => None,
                Err(e) => Some(e),
            }
        },
    }
}

} // verus!
