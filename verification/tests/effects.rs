use hearthstone_simulator::action::play_card;
use hearthstone_simulator::action_validation::{validate_action, GameAction};
use hearthstone_simulator::error::SimulationError;
use hearthstone_simulator::event_resolver::execute_resolution_op;
use hearthstone_simulator::operations::{
    AuraRefreshPlan, DrawContinuationPolicy, DrawOutcome, DrawResultSlot, EffectContext, EffectOrigin, EventKind,
    ResolutionOp,
};
use hearthstone_simulator::resolver::ResolutionError;
use hearthstone_simulator::simulation::{hand_card, simulation, Simulation};
use hearthstone_simulator::trigger::{Effect, PlayerSelector};
use hearthstone_simulator::types::{DrawResultSlotId, GameEntityId, PlayerId, Zone};

fn give_program(simulation: &mut Simulation, card: GameEntityId, program: Vec<Effect>) {
    let object = simulation.world.objects.iter_mut().find(|object| object.id == card).expect("card exists");
    object.card_program = Some(program);
}

fn draw_one() -> Effect {
    Effect::Draw { player: PlayerSelector::Controller, count: 1 }
}

fn hit_for_two() -> Effect {
    Effect::DamageEventTarget { amount: 2 }
}

#[test]
fn played_card_program_runs_after_the_play_events_in_order() {
    let mut simulation = simulation();
    let card = hand_card(&mut simulation, PlayerId::One);
    give_program(&mut simulation, card, vec![draw_one(), hit_for_two()]);
    let before = simulation.world.resolution.stack.len();
    assert_eq!(play_card(&mut simulation.world, PlayerId::One, card, None, None), Ok(()));
    let stack = &simulation.world.resolution.stack;
    assert_eq!(stack.len(), before + 5);
    let context = EffectContext {
        source: Some(card),
        controller: PlayerId::One,
        declared_target: None,
        drawn_card: None,
        origin: EffectOrigin::Other,
    };
    // The top of the stack runs first: the play events, the aura refresh, then each effect.
    let top = |k: usize| &stack[stack.len() - 1 - k].operation;
    match top(0) {
        ResolutionOp::PrepareEvent(c) => {
            assert_eq!(c.kind, EventKind::CardPlayed);
            assert_eq!(c.source, Some(card));
        },
        other => panic!("expected the card-played event, got {:?}", other),
    }
    match top(1) {
        ResolutionOp::PrepareEvent(c) => {
            assert_eq!(c.kind, EventKind::Summoned);
            assert_eq!(c.targets, vec![card]);
        },
        other => panic!("expected the summoned event, got {:?}", other),
    }
    assert_eq!(*top(2), ResolutionOp::RefreshAuras(AuraRefreshPlan::PlayedProvider(card)));
    assert_eq!(*top(3), ResolutionOp::RunEffect { context, effect: draw_one(), event: None });
    assert_eq!(*top(4), ResolutionOp::RunEffect { context, effect: hit_for_two(), event: None });
}

#[test]
fn played_card_without_program_schedules_only_the_play_events() {
    let mut simulation = simulation();
    let card = hand_card(&mut simulation, PlayerId::One);
    let before = simulation.world.resolution.stack.len();
    assert_eq!(play_card(&mut simulation.world, PlayerId::One, card, None, None), Ok(()));
    assert_eq!(simulation.world.resolution.stack.len(), before + 3);
    assert!(simulation
        .world
        .resolution
        .stack
        .iter()
        .all(|stacked| !matches!(stacked.operation, ResolutionOp::RunEffect { .. })));
}

#[test]
fn playing_a_card_with_a_program_is_refused_before_mana() {
    let mut simulation = simulation();
    let card = hand_card(&mut simulation, PlayerId::One);
    give_program(&mut simulation, card, vec![hit_for_two(), draw_one()]);
    let action = GameAction::PlayCard { player: PlayerId::One, card, target: None, board_index: None, choice: None };
    assert_eq!(validate_action(&simulation.world, action), Err(SimulationError::UnsupportedEffect(hit_for_two())));
    let trace_before = simulation.world.trace.len();
    assert_eq!(simulation.apply(action), Err(SimulationError::UnsupportedEffect(hit_for_two())));
    assert_eq!(simulation.world.trace.len(), trace_before + 1);
    assert!(simulation.world.zones.entities(PlayerId::One, Zone::Hand).contains(&card));
}

#[test]
fn running_an_effect_is_refused_and_changes_nothing() {
    let mut simulation = simulation();
    let context = EffectContext {
        source: None,
        controller: PlayerId::Two,
        declared_target: None,
        drawn_card: None,
        origin: EffectOrigin::Spell,
    };
    let stack_before = simulation.world.resolution.stack.len();
    let trace_before = simulation.world.trace.len();
    assert_eq!(
        execute_resolution_op(&mut simulation.world, ResolutionOp::RunEffect { context, effect: draw_one(), event: None }),
        Err(SimulationError::UnsupportedEffect(draw_one()))
    );
    assert_eq!(simulation.world.resolution.stack.len(), stack_before);
    assert_eq!(simulation.world.trace.len(), trace_before);
}

#[test]
fn playing_a_card_is_refused_without_room_for_its_effects() {
    let mut simulation = simulation();
    let card = hand_card(&mut simulation, PlayerId::One);
    give_program(&mut simulation, card, vec![draw_one(), draw_one()]);
    simulation.world.resolution.next_resolution_id = u64::MAX - 4;
    let trace_before = simulation.world.trace.len();
    assert_eq!(
        play_card(&mut simulation.world, PlayerId::One, card, None, None),
        Err(SimulationError::Resolution(ResolutionError::IdentitiesExhausted))
    );
    assert_eq!(simulation.world.trace.len(), trace_before);
    simulation.world.resolution.next_resolution_id = u64::MAX - 5;
    assert_eq!(play_card(&mut simulation.world, PlayerId::One, card, None, None), Ok(()));
}


fn continue_draw(slot: u64, policy: DrawContinuationPolicy) -> ResolutionOp {
    ResolutionOp::ContinueDraw {
        result: DrawResultSlotId(slot),
        context: EffectContext {
            source: None,
            controller: PlayerId::One,
            declared_target: None,
            drawn_card: Some(GameEntityId(77)),
            origin: EffectOrigin::Other,
        },
        effects: vec![draw_one(), hit_for_two()],
        policy,
    }
}

fn with_slot(simulation: &mut Simulation, slot: u64, outcome: Option<DrawOutcome>) {
    simulation.world.resolution.draw_result_slots.insert(slot, DrawResultSlot { outcome });
}

fn top_effects(simulation: &Simulation, n: usize) -> Vec<(Effect, Option<GameEntityId>)> {
    let stack = &simulation.world.resolution.stack;
    (0..n)
        .map(|k| match &stack[stack.len() - 1 - k].operation {
            ResolutionOp::RunEffect { context, effect, event: None } => (*effect, context.drawn_card),
            other => panic!("expected an effect, got {:?}", other),
        })
        .collect()
}

#[test]
fn draw_continuation_schedules_effects_with_the_drawn_card() {
    let mut simulation = simulation();
    with_slot(&mut simulation, 4, Some(DrawOutcome::Drawn(GameEntityId(5))));
    let before = simulation.world.resolution.stack.len();
    assert_eq!(execute_resolution_op(&mut simulation.world, continue_draw(4, DrawContinuationPolicy::RequireCard)), Ok(()));
    assert_eq!(simulation.world.resolution.stack.len(), before + 2);
    assert_eq!(
        top_effects(&simulation, 2),
        vec![(draw_one(), Some(GameEntityId(5))), (hit_for_two(), Some(GameEntityId(5)))]
    );
    assert!(!simulation.world.resolution.draw_result_slots.contains_key(&4));
}

#[test]
fn draw_continuation_runs_without_a_card_only_when_allowed() {
    for (outcome, policy, scheduled) in [
        (DrawOutcome::Burned(GameEntityId(5)), DrawContinuationPolicy::RequireCard, false),
        (DrawOutcome::Burned(GameEntityId(5)), DrawContinuationPolicy::RunWithoutCard, true),
        (DrawOutcome::Fatigue { amount: 2 }, DrawContinuationPolicy::RequireCard, false),
        (DrawOutcome::Fatigue { amount: 2 }, DrawContinuationPolicy::RunWithoutCard, true),
    ] {
        let mut simulation = simulation();
        with_slot(&mut simulation, 4, Some(outcome));
        let before = simulation.world.resolution.stack.len();
        assert_eq!(execute_resolution_op(&mut simulation.world, continue_draw(4, policy)), Ok(()));
        if scheduled {
            assert_eq!(simulation.world.resolution.stack.len(), before + 2);
            assert_eq!(top_effects(&simulation, 2), vec![(draw_one(), None), (hit_for_two(), None)]);
        } else {
            assert_eq!(simulation.world.resolution.stack.len(), before);
        }
        assert!(!simulation.world.resolution.draw_result_slots.contains_key(&4));
    }
}

#[test]
fn draw_continuation_needs_a_filled_slot() {
    let mut simulation = simulation();
    assert_eq!(
        execute_resolution_op(&mut simulation.world, continue_draw(4, DrawContinuationPolicy::RunWithoutCard)),
        Err(SimulationError::Resolution(ResolutionError::MissingDrawResultSlot(DrawResultSlotId(4))))
    );
    with_slot(&mut simulation, 4, None);
    let before = simulation.world.resolution.stack.len();
    assert_eq!(
        execute_resolution_op(&mut simulation.world, continue_draw(4, DrawContinuationPolicy::RunWithoutCard)),
        Err(SimulationError::Resolution(ResolutionError::EmptyDrawResultSlot(DrawResultSlotId(4))))
    );
    assert_eq!(simulation.world.resolution.stack.len(), before);
    assert!(!simulation.world.resolution.draw_result_slots.contains_key(&4));
}
