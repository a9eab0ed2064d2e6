use hearthstone_simulator::operations::{DrawOutcome, PhaseBoundaryPlan, ResolutionOp};
use hearthstone_simulator::resolver::{
    abandon_sequence, allocate_draw_result_slot, assert_resolution_invariants, begin_sequence, consume_budget,
    fill_draw_result_slot, pop_resolution_op, push_resolution_op, push_resolution_ops, take_draw_result,
    ResolutionError, ResolutionInvariantViolation, ResolutionWork,
};
use hearthstone_simulator::types::{DrawResultSlotId, GameEntityId, ResolutionId, SimulationStatus};

#[test]
fn reverse_push_produces_one_shot_lifo_execution_order() {
    let mut work = ResolutionWork::new();
    begin_sequence(&mut work, 10).unwrap();
    push_resolution_ops(
        &mut work,
        vec![
            ResolutionOp::RunPhaseBoundary(PhaseBoundaryPlan::Ordinary),
            ResolutionOp::RunPhaseBoundary(PhaseBoundaryPlan::ForcedDeath),
        ],
    );
    let first = pop_resolution_op(&mut work).unwrap();
    assert_eq!(first.operation, ResolutionOp::RunPhaseBoundary(PhaseBoundaryPlan::Ordinary));
    assert_eq!(first.id, ResolutionId(1));
    let second = pop_resolution_op(&mut work).unwrap();
    assert_eq!(second.operation, ResolutionOp::RunPhaseBoundary(PhaseBoundaryPlan::ForcedDeath));
    assert_eq!(second.id, ResolutionId(0));
    assert!(pop_resolution_op(&mut work).is_none());
    assert_eq!(work.next_resolution_id, 2);
}

#[test]
fn budget_reports_the_exact_popped_operation() {
    let mut work = ResolutionWork::new();
    begin_sequence(&mut work, 1).unwrap();
    let first = push_resolution_op(&mut work, ResolutionOp::RunPhaseBoundary(PhaseBoundaryPlan::Ordinary));
    consume_budget(&mut work, first).unwrap();
    let second = push_resolution_op(&mut work, ResolutionOp::RunPhaseBoundary(PhaseBoundaryPlan::Ordinary));
    assert_eq!(
        consume_budget(&mut work, second),
        Err(ResolutionError::BudgetExhausted { operation: Some(second) })
    );
}

#[test]
fn draw_result_slot_allocation_increments_counter_and_inserts_empty_slot() {
    let mut work = ResolutionWork::new();
    let first = allocate_draw_result_slot(&mut work);
    let second = allocate_draw_result_slot(&mut work);
    assert_eq!(first, DrawResultSlotId(0));
    assert_eq!(second, DrawResultSlotId(1));
    assert_eq!(work.next_draw_result_slot_id, 2);
    assert_eq!(work.draw_result_slots.len(), 2);
    assert_eq!(work.draw_result_slots[&first.0].outcome, None);
    assert_eq!(work.draw_result_slots[&second.0].outcome, None);
}

#[test]
fn draw_result_slots_fill_and_consume_exactly_once() {
    let mut work = ResolutionWork::new();
    let slot = allocate_draw_result_slot(&mut work);
    let outcome = DrawOutcome::Drawn(GameEntityId(4));
    assert_eq!(fill_draw_result_slot(&mut work, slot, outcome), Ok(()));
    assert_eq!(
        fill_draw_result_slot(&mut work, slot, DrawOutcome::Fatigue { amount: 1 }),
        Err(ResolutionError::DrawResultSlotAlreadyFilled(slot))
    );
    assert_eq!(take_draw_result(&mut work, slot), Ok(outcome));
    assert_eq!(take_draw_result(&mut work, slot), Err(ResolutionError::MissingDrawResultSlot(slot)));
}

#[test]
fn draw_result_slots_reject_missing_fill_and_empty_take() {
    let mut work = ResolutionWork::new();
    let missing = DrawResultSlotId(7);
    assert_eq!(
        fill_draw_result_slot(&mut work, missing, DrawOutcome::Burned(GameEntityId(1))),
        Err(ResolutionError::MissingDrawResultSlot(missing))
    );
    let slot = allocate_draw_result_slot(&mut work);
    assert_eq!(take_draw_result(&mut work, slot), Err(ResolutionError::EmptyDrawResultSlot(slot)));
    assert!(work.draw_result_slots.is_empty());
}

#[test]
fn sequence_start_rejects_draw_slots_and_transform_timing_markers() {
    let mut with_slot = ResolutionWork::new();
    allocate_draw_result_slot(&mut with_slot);
    assert_eq!(begin_sequence(&mut with_slot, 5), Err(ResolutionError::AlreadyResolving));

    let mut with_marker = ResolutionWork::new();
    with_marker.pending_played_self_transforms.insert(3);
    assert_eq!(begin_sequence(&mut with_marker, 5), Err(ResolutionError::AlreadyResolving));

    let mut running = ResolutionWork::new();
    begin_sequence(&mut running, 5).unwrap();
    assert_eq!(begin_sequence(&mut running, 5), Err(ResolutionError::AlreadyResolving));
    assert_eq!(running.remaining_budget, 5);
}

#[test]
fn abandon_sequence_clears_draw_slots_and_transform_timing_markers() {
    let mut work = ResolutionWork::new();
    begin_sequence(&mut work, 5).unwrap();
    allocate_draw_result_slot(&mut work);
    work.pending_played_self_transforms.insert(3);
    push_resolution_op(&mut work, ResolutionOp::CheckOutcome);
    abandon_sequence(&mut work);
    assert!(work.draw_result_slots.is_empty());
    assert!(work.pending_played_self_transforms.is_empty());
    assert!(work.stack.is_empty());
    assert!(!work.sequence_active);
    assert_eq!(work.next_draw_result_slot_id, 1);
    assert_eq!(work.next_resolution_id, 1);
}

#[test]
fn idle_invariants_reject_draw_slots_and_transform_timing_markers() {
    let mut work = ResolutionWork::new();
    assert_eq!(assert_resolution_invariants(&work, SimulationStatus::AwaitingAction), Ok(()));
    allocate_draw_result_slot(&mut work);
    assert_eq!(
        assert_resolution_invariants(&work, SimulationStatus::AwaitingAction),
        Err(ResolutionInvariantViolation::IdleWorkRetained)
    );
    let mut marked = ResolutionWork::new();
    marked.pending_played_self_transforms.insert(1);
    assert_eq!(
        assert_resolution_invariants(&marked, SimulationStatus::AwaitingAction),
        Err(ResolutionInvariantViolation::IdleWorkRetained)
    );
}

#[test]
fn sequence_start_and_resolution_invariants_reject_inconsistent_work() {
    let mut work = ResolutionWork::new();
    begin_sequence(&mut work, 5).unwrap();
    assert_eq!(
        assert_resolution_invariants(&work, SimulationStatus::AwaitingChoice),
        Err(ResolutionInvariantViolation::AwaitingChoiceWithoutChoice)
    );
    assert_eq!(assert_resolution_invariants(&work, SimulationStatus::Resolving), Ok(()));
}
