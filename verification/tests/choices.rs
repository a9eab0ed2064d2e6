use hearthstone_simulator::error::{CheckpointError, InvariantViolation, SimulationError};
use hearthstone_simulator::operations::{
    ChoiceOption, ChoiceRequest, EffectContext, EffectOrigin, PendingChoice, ResolutionOp,
};
use hearthstone_simulator::resolution_validation::{validate_choice_request, validate_resolution_operation};
use hearthstone_simulator::simulation::{simulation, Simulation};
use hearthstone_simulator::trigger::{Effect, PlayerSelector};
use hearthstone_simulator::types::{ChoiceId, EventId, PlayerId, SimulationStatus};

fn request(id: u64, option_ids: &[u64]) -> ChoiceRequest {
    ChoiceRequest {
        id: ChoiceId(id),
        player: PlayerId::One,
        options: option_ids.iter().map(|o| ChoiceOption { id: ChoiceId(*o), operations: Vec::new() }).collect(),
    }
}

#[test]
fn choice_requests_need_nonempty_unique_options() {
    assert_eq!(validate_choice_request(&request(1, &[1, 2])), Ok(()));
    assert_eq!(
        validate_choice_request(&request(2, &[])),
        Err(SimulationError::Invariant(InvariantViolation::InvalidChoiceRequest(ChoiceId(2))))
    );
    assert_eq!(
        validate_choice_request(&request(3, &[4, 5, 4])),
        Err(SimulationError::Invariant(InvariantViolation::InvalidChoiceRequest(ChoiceId(3))))
    );
    let nested = ChoiceRequest {
        id: ChoiceId(6),
        player: PlayerId::One,
        options: vec![ChoiceOption {
            id: ChoiceId(1),
            operations: vec![ResolutionOp::CheckOutcome, ResolutionOp::RequestChoice(request(7, &[]))],
        }],
    };
    assert_eq!(
        validate_resolution_operation(&ResolutionOp::RequestChoice(nested)),
        Err(SimulationError::Invariant(InvariantViolation::InvalidChoiceRequest(ChoiceId(7))))
    );
    assert_eq!(validate_resolution_operation(&ResolutionOp::CheckOutcome), Ok(()));
}

#[test]
fn checkpoints_refuse_pending_choices_without_options() {
    let mut checkpoint = simulation().checkpoint().unwrap();
    checkpoint.resolution.pending_choice = Some(PendingChoice { request: request(9, &[]) });
    checkpoint.resolution.sequence_active = true;
    checkpoint.game.status = SimulationStatus::AwaitingChoice;
    assert!(matches!(
        Simulation::from_checkpoint(checkpoint),
        Err(SimulationError::Checkpoint(CheckpointError::Invariant(InvariantViolation::InvalidChoiceRequest(ChoiceId(9)))))
    ));
}

fn run_draw(event: Option<EventId>) -> ResolutionOp {
    ResolutionOp::RunEffect {
        context: EffectContext {
            source: None,
            controller: PlayerId::One,
            declared_target: None,
            drawn_card: None,
            origin: EffectOrigin::Other,
        },
        effect: Effect::Draw { player: PlayerSelector::Controller, count: 1 },
        event,
    }
}

#[test]
fn choice_branches_cannot_run_effects_for_an_event() {
    let borrowing = ChoiceRequest {
        id: ChoiceId(11),
        player: PlayerId::One,
        options: vec![
            ChoiceOption { id: ChoiceId(1), operations: vec![run_draw(None)] },
            ChoiceOption { id: ChoiceId(2), operations: vec![ResolutionOp::CheckOutcome, run_draw(Some(EventId(3)))] },
        ],
    };
    assert_eq!(
        validate_choice_request(&borrowing),
        Err(SimulationError::Invariant(InvariantViolation::ChoiceBranchBorrowsEvent(ChoiceId(11))))
    );
    let plain = ChoiceRequest {
        id: ChoiceId(12),
        player: PlayerId::One,
        options: vec![ChoiceOption { id: ChoiceId(1), operations: vec![run_draw(None)] }],
    };
    assert_eq!(validate_choice_request(&plain), Ok(()));
    assert_eq!(validate_resolution_operation(&run_draw(Some(EventId(3)))), Ok(()));
}
