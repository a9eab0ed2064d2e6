use hearthstone_simulator::action_validation::GameAction;
use hearthstone_simulator::error::SimulationError;
use hearthstone_simulator::event_resolver::execute_current_resolution_op;
use hearthstone_simulator::operations::{ResolutionOp, StackedResolutionOp};
use hearthstone_simulator::resolver::ResolutionError;
use hearthstone_simulator::simulation::{hand_card, simulation};
use hearthstone_simulator::trace::TraceEntry;
use hearthstone_simulator::types::{EventId, PlayerId, ResolutionId};

#[test]
fn current_operation_dispatch_handles_empty_and_missing_event_work() {
    let mut simulation = simulation();
    let mut current: Option<StackedResolutionOp> = None;
    let stack_before = simulation.world.resolution.stack.len();
    let trace_before = simulation.world.trace.len();
    assert_eq!(execute_current_resolution_op(&mut simulation.world, &mut current), None);
    assert_eq!(simulation.world.resolution.stack.len(), stack_before);
    assert_eq!(simulation.world.trace.len(), trace_before);

    for operation in [ResolutionOp::FinishEvent(EventId(999)), ResolutionOp::ResolveEvent(EventId(999))] {
        current = Some(StackedResolutionOp { id: ResolutionId(999), operation });
        let events_before = simulation.world.resolution.events.len();
        assert_eq!(
            execute_current_resolution_op(&mut simulation.world, &mut current),
            Some(SimulationError::Resolution(ResolutionError::MissingEvent(EventId(999))))
        );
        assert!(current.is_none());
        assert_eq!(simulation.world.resolution.stack.len(), stack_before);
        assert_eq!(simulation.world.resolution.events.len(), events_before);
    }
}

#[test]
fn each_expanded_event_records_one_trigger_snapshot() {
    let mut simulation = simulation();
    let card = hand_card(&mut simulation, PlayerId::One);
    simulation
        .apply(GameAction::PlayCard { player: PlayerId::One, card, target: None, board_index: None, choice: None })
        .unwrap();
    let snapshots = simulation
        .trace()
        .iter()
        .filter_map(|entry| match entry {
            TraceEntry::TriggerSnapshot { event } => Some(*event),
            _ => None,
        })
        .collect::<Vec<_>>();
    assert!(!snapshots.is_empty());
    let mut unique = snapshots.clone();
    unique.sort();
    unique.dedup();
    assert_eq!(unique.len(), snapshots.len());
    let created = simulation
        .trace()
        .iter()
        .filter(|entry| matches!(entry, TraceEntry::EventCreated { .. }))
        .count();
    assert!(snapshots.len() <= created);
}
