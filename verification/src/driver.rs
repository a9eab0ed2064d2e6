//! Driving resolution: accepting actions, running the stack, answering choices, and the checks
//! after each action.
use vstd::prelude::*;

use crate::action::{context, only_pushed};
use crate::action_validation::{action_check, validate_action, GameAction};
use crate::error::{InvariantViolation, SimulationError};
use crate::event_resolver::execute_resolution_op;
use crate::operations::{ops_view, OpView, PhaseBoundaryPlan, ResolutionOp, SequenceStep};
use crate::player::{assert_player_role_invariants, role_fault};
use crate::resolver::{
    abandon_sequence, abandoned, begin_sequence, consume_budget, finish_sequence, pop_resolution_op,
    push_resolution_ops, pushed_views, ResolutionError, ResolutionWork,
};
use crate::trace::{TraceEntry, TraceEntryView};
use crate::types::{ChoiceId, GameEntityId, SimulationStatus};
use crate::world::{world_wf, GameObject, GameState, World};
use crate::zone::{assert_zone_invariants, zones_agree};

verus! {

/// What running the operation on top of the stack of `old` does (the stack is not empty): it is
/// popped; with no budget left the run stops with `BudgetExhausted` for it; otherwise one unit
/// of budget is spent, the pop is recorded, and the operation runs (see
/// `execute_resolution_op`).
pub open spec fn resolution_step(old: World, new: World, r: Result<(), SimulationError>) -> bool {
    let top = old.resolution.stack@.last();
    if old.resolution.remaining_budget == 0 {
        &&& r == Err::<(), SimulationError>(
            SimulationError::Resolution(ResolutionError::BudgetExhausted { operation: Some(top.id) }),
        )
        &&& new == (World { resolution: new.resolution, ..old })
        &&& new.resolution == (ResolutionWork { stack: new.resolution.stack, ..old.resolution })
        &&& new.resolution.stack@ == old.resolution.stack@.drop_last()
    } else {
        exists|spent: World|
            #![trigger crate::event_resolver::op_room(spent, top.operation)]
            {
                &&& spent == (World { resolution: spent.resolution, trace: spent.trace, ..old })
                &&& spent.resolution == (ResolutionWork {
                    stack: spent.resolution.stack,
                    remaining_budget: (old.resolution.remaining_budget - 1) as u32,
                    ..old.resolution
                })
                &&& spent.resolution.stack@ == old.resolution.stack@.drop_last()
                &&& spent.trace@ == old.trace@.push(
                    TraceEntry::OperationPopped { id: top.id, kind: top.operation.spec_kind() },
                )
                &&& if crate::event_resolver::op_room(spent, top.operation) {
                    crate::event_resolver::op_ran(spent, new, top.operation, r)
                } else {
                    r == Err::<(), SimulationError>(SimulationError::Resolution(ResolutionError::IdentitiesExhausted))
                        && new == spent
                }
            }
    }
}

/// What running the stack of `old` with at most `fuel` operations does: with an empty stack,
/// nothing; otherwise the top operation runs (see `resolution_step`); a failure stops the run
/// with its error, an awaited choice stops it successfully, and otherwise the run goes on.
pub open spec fn resolution_run(old: World, new: World, r: Result<(), SimulationError>, fuel: nat) -> bool
    decreases fuel,
{
    if old.resolution.stack@.len() == 0 {
        r is Ok && new == old
    } else if fuel == 0 {
        false
    } else {
        exists|mid: World, s: Result<(), SimulationError>|
            #[trigger] resolution_step(old, mid, s) && match s {
                Err(_) => r == s && new == mid,
                Ok(_) => if mid.game.status == SimulationStatus::AwaitingChoice {
                    r is Ok && new == mid
                } else {
                    resolution_run(mid, new, r, (fuel - 1) as nat)
                },
            }
    }
}

/// Runs the stack until it is empty, a choice is awaited, the budget runs out or an operation
/// fails; every popped operation is recorded.
pub fn drive_resolution(world: &mut World) -> (r: Result<(), SimulationError>)
    requires
        world_wf(*old(world)),
    ensures
        world_wf(*final(world)),
        final(world).resolution.sequence_active == old(world).resolution.sequence_active,
        r is Ok ==> final(world).resolution.stack@.len() == 0 || final(world).game.status
            == SimulationStatus::AwaitingChoice,
        final(world).resolution.remaining_budget <= old(world).resolution.remaining_budget,
        resolution_run(*old(world), *final(world), r, (old(world).resolution.remaining_budget + 1) as nat),
{
    let ghost w0 = *world;
    let ghost active = world.resolution.sequence_active;
    let ghost budget = world.resolution.remaining_budget;
    loop
        invariant
            world_wf(*world),
            active == old(world).resolution.sequence_active,
            budget == old(world).resolution.remaining_budget,
            w0 == *old(world),
            world.resolution.sequence_active == active,
            world.resolution.remaining_budget <= budget,
            forall|new: World, rr: Result<(), SimulationError>|
                #[trigger] resolution_run(*world, new, rr, (world.resolution.remaining_budget + 1) as nat)
                    ==> resolution_run(w0, new, rr, (budget + 1) as nat),
        decreases world.resolution.remaining_budget,
    {
        let ghost before = *world;
        let operation = match pop_resolution_op(&mut world.resolution) {
            Some(operation) => operation,
            None => {
                proof {
                    assert(resolution_run(before, *world, Ok(()), (before.resolution.remaining_budget + 1) as nat));
                }
                return Ok(());
            },
        };
        let ghost popped = *world;
        proof {
            crate::world::lemma_wf_frame(before.objects@, world.objects@);
            reveal_with_fuel(resolution_run, 2);
        }
        match consume_budget(&mut world.resolution, operation.id) {
            Ok(()) => {},
            Err(e) => {
                proof {
                    assert(resolution_step(before, *world, Err(SimulationError::Resolution(e))));
                    assert(resolution_run(
                        before,
                        *world,
                        Err(SimulationError::Resolution(e)),
                        (before.resolution.remaining_budget + 1) as nat,
                    ));
                }
                return Err(SimulationError::Resolution(e));
            },
        }
        let kind = operation.operation.kind();
        world.trace.push(TraceEntry::OperationPopped { id: operation.id, kind });
        let ghost spent = *world;
        let ghost spent_budget = world.resolution.remaining_budget;
        let result = execute_resolution_op(world, operation.operation);
        proof {
            assert(crate::event_resolver::op_room(spent, operation.operation) || !crate::event_resolver::op_room(
                spent,
                operation.operation,
            ));
            assert(resolution_step(before, *world, result));
        }
        let ghost res = result;
        if result.is_err() {
            proof {
                assert(resolution_run(before, *world, result, (before.resolution.remaining_budget + 1) as nat));
            }
            return result;
        }
        if world.game.status == SimulationStatus::AwaitingChoice {
            proof {
                assert(resolution_run(before, *world, res, (before.resolution.remaining_budget + 1) as nat));
            }
            return result;
        }
        assert(world.resolution.remaining_budget == spent_budget);
        proof {
            let mid = *world;
            assert forall|new: World, rr: Result<(), SimulationError>|
                #[trigger] resolution_run(mid, new, rr, (mid.resolution.remaining_budget + 1) as nat)
                    implies resolution_run(w0, new, rr, (budget + 1) as nat) by {
                assert(resolution_step(before, mid, res));
                assert(resolution_run(before, new, rr, (before.resolution.remaining_budget + 1) as nat));
            }
        }
    }
}

/// Checks that no two objects share an identity.
pub fn assert_game_entity_index(objects: &Vec<GameObject>) -> (r: Result<(), InvariantViolation>)
    ensures
        r is Ok <==> crate::aura::unique_ids(objects@),
        r matches Err(e) ==> e is DuplicateIdentity,
{
    let mut i: usize = 0;
    while i < objects.len()
        invariant
            i <= objects.len(),
            forall|a: int, b: int|
                0 <= a < i && 0 <= b < objects@.len() && a != b ==> (#[trigger] objects@[a]).id != (#[trigger] objects@[b]).id,
        decreases objects.len() - i,
    {
        let mut j: usize = 0;
        while j < objects.len()
            invariant
                i < objects.len(),
                j <= objects.len(),
                forall|a: int, b: int|
                    0 <= a < i && 0 <= b < objects@.len() && a != b ==> (#[trigger] objects@[a]).id != (#[trigger] objects@[b]).id,
                forall|b: int| 0 <= b < j && b != i ==> objects@[i as int].id != (#[trigger] objects@[b]).id,
            decreases objects.len() - j,
        {
            if j != i && objects[i].id == objects[j].id {
                return Err(InvariantViolation::DuplicateIdentity(objects[i].id));
            }
            j = j + 1;
        }
        i = i + 1;
    }
    Ok(())
}

/// The status a finished sequence leaves: complete once there is an outcome, else awaiting the
/// next action.
pub open spec fn settled_status(game: GameState) -> SimulationStatus {
    if game.outcome is Some {
        SimulationStatus::Complete
    } else {
        SimulationStatus::AwaitingAction
    }
}

/// Whether the bookkeeping checks after a sequence all pass: zones agree with objects, both
/// players' roles hold, and no identity is shared.
pub open spec fn checks_pass(w: World) -> bool {
    &&& zones_agree(w.objects@, w.zones)
    &&& role_fault(w, crate::types::PlayerId::One) is None
    &&& role_fault(w, crate::types::PlayerId::Two) is None
    &&& crate::aura::unique_ids(w.objects@)
}

/// What ending the sequence of `old` when idle gives: with a choice awaited or work left,
/// nothing; otherwise the sequence ends, the status settles, and the bookkeeping checks decide
/// the result.
pub open spec fn finished_if_idle(old: World, new: World, r: Result<(), SimulationError>) -> bool {
    if old.game.status == SimulationStatus::AwaitingChoice || old.resolution.stack@.len() > 0 {
        r is Ok && new == old
    } else {
        &&& new == (World {
            game: GameState { status: settled_status(old.game), ..old.game },
            resolution: ResolutionWork { sequence_active: false, ..old.resolution },
            ..old
        })
        &&& (r is Ok <==> checks_pass(new))
        &&& (r matches Err(e) ==> e is Invariant)
    }
}

/// Ends the sequence when nothing is left to run and no choice is awaited: settles the status
/// and checks the bookkeeping.
pub fn finish_resolution_if_idle(world: &mut World) -> (r: Result<(), SimulationError>)
    ensures
        finished_if_idle(*old(world), *final(world), r),
        old(world).game.status == SimulationStatus::AwaitingChoice || old(world).resolution.stack@.len() > 0 ==> r is Ok
            && *final(world) == *old(world),
        !(old(world).game.status == SimulationStatus::AwaitingChoice || old(world).resolution.stack@.len() > 0) ==> {
            &&& *final(world) == (World {
                game: GameState { status: settled_status(old(world).game), ..old(world).game },
                resolution: ResolutionWork { sequence_active: false, ..old(world).resolution },
                ..*old(world)
            })
            &&& (r is Ok <==> checks_pass(*final(world)))
            &&& (r matches Err(e) ==> e is Invariant)
        },
{
    if world.game.status == SimulationStatus::AwaitingChoice {
        return Ok(());
    }
    if world.resolution.stack.len() > 0 {
        return Ok(());
    }
    finish_sequence(&mut world.resolution);
    world.game.status = if world.game.outcome.is_some() {
        SimulationStatus::Complete
    } else {
        SimulationStatus::AwaitingAction
    };
    match assert_zone_invariants(world) {
        Ok(()) => {},
        Err(e) => return Err(SimulationError::Invariant(e)),
    }
    match assert_player_role_invariants(world) {
        Ok(()) => {},
        Err(e) => return Err(SimulationError::Invariant(e)),
    }
    match assert_game_entity_index(&world.objects) {
        Ok(()) => Ok(()),
        Err(e) => Err(SimulationError::Invariant(e)),
    }
}

/// Whether a sequence came to rest: either a choice is awaited in the middle of the sequence, or
/// nothing is left to run, the sequence is over, the status is settled and the bookkeeping checks
/// pass.
pub open spec fn resolved_to_rest(w: World) -> bool {
    ||| w.game.status == SimulationStatus::AwaitingChoice && w.resolution.sequence_active
    ||| {
        &&& w.resolution.stack@.len() == 0
        &&& !w.resolution.sequence_active
        &&& w.game.status == settled_status(w.game)
        &&& checks_pass(w)
    }
}

/// The sequence step an accepted action starts with.
pub open spec fn step_of(action: GameAction) -> SequenceStep {
    match action {
        GameAction::PlayCard { player, card, target, board_index, .. } => SequenceStep::PlayCard {
            player,
            card,
            target,
            board_index,
        },
        GameAction::Attack { player, attacker, defender } => SequenceStep::Attack { player, attacker, defender },
        GameAction::EndTurn { player } => SequenceStep::EndTurn { player },
        GameAction::Concede { player } => SequenceStep::Concede { player },
    }
}

fn step_for(action: GameAction) -> (r: SequenceStep)
    ensures
        r == step_of(action),
{
    match action {
        GameAction::PlayCard { player, card, target, board_index, .. } => SequenceStep::PlayCard {
            player,
            card,
            target,
            board_index,
        },
        GameAction::Attack { player, attacker, defender } => SequenceStep::Attack { player, attacker, defender },
        GameAction::EndTurn { player } => SequenceStep::EndTurn { player },
        GameAction::Concede { player } => SequenceStep::Concede { player },
    }
}

/// The views of the operations an accepted action starts its sequence with, in execution order.
pub open spec fn opening_ops(action: GameAction) -> Seq<OpView> {
    seq![
        OpView::RunSequenceStep(step_of(action)),
        OpView::RunPhaseBoundary(PhaseBoundaryPlan::Ordinary),
        OpView::CheckOutcome,
    ]
}

/// What applying `action` to `old` gives (`new`, `r`): a refused action changes nothing; with
/// work already under way the status becomes resolving and `AlreadyResolving` is returned;
/// otherwise a sequence starts with the rules' budget. Without room for three operation
/// identities it is abandoned at once with `IdentitiesExhausted`; otherwise the action's step,
/// an ordinary phase boundary and an outcome check are scheduled and the stack is run (see
/// `resolution_run`). A failed run abandons the sequence and awaits the next action with the
/// run's error; otherwise the sequence ends when idle (see `finished_if_idle`).
pub open spec fn action_resolved(old: World, new: World, action: GameAction, r: Result<(), SimulationError>) -> bool {
    match action_check(old, action) {
        Err(e) => r == Err::<(), SimulationError>(e) && new == old,
        Ok(normalized) => if old.resolution.sequence_active || old.resolution.retains_work() {
            r == Err::<(), SimulationError>(SimulationError::Resolution(ResolutionError::AlreadyResolving)) && new == (
            World { game: GameState { status: SimulationStatus::Resolving, ..old.game }, ..old })
        } else if old.resolution.next_resolution_id > u64::MAX - 3 {
            &&& r == Err::<(), SimulationError>(SimulationError::Resolution(ResolutionError::IdentitiesExhausted))
            &&& new == (World {
                game: GameState { status: SimulationStatus::AwaitingAction, ..old.game },
                resolution: new.resolution,
                ..old
            })
            &&& abandoned(old.resolution, new.resolution)
        } else {
            exists|pushed: World, driven: World, rd: Result<(), SimulationError>|
                {
                    &&& pushed == (World {
                        game: GameState { status: SimulationStatus::Resolving, ..old.game },
                        resolution: pushed.resolution,
                        ..old
                    })
                    &&& pushed.resolution == (ResolutionWork {
                        stack: pushed.resolution.stack,
                        next_resolution_id: (old.resolution.next_resolution_id + 3) as u64,
                        remaining_budget: old.ruleset.resolution_budget,
                        sequence_active: true,
                        ..old.resolution
                    })
                    &&& pushed_views(
                        old.resolution.stack@,
                        pushed.resolution.stack@,
                        opening_ops(normalized),
                        old.resolution.next_resolution_id,
                    )
                    &&& #[trigger] resolution_run(pushed, driven, rd, (old.ruleset.resolution_budget + 1) as nat)
                    &&& match rd {
                        Err(_) => {
                            &&& r == rd
                            &&& new == (World {
                                game: GameState { status: SimulationStatus::AwaitingAction, ..driven.game },
                                resolution: new.resolution,
                                ..driven
                            })
                            &&& abandoned(driven.resolution, new.resolution)
                        },
                        Ok(_) => finished_if_idle(driven, new, r),
                    }
                }
        },
    }
}

/// Applies an action: a refused action changes nothing; an accepted one starts a sequence with
/// the action's step, a phase boundary and an outcome check, drives the stack, abandons the
/// sequence on failure, and otherwise finishes it when idle.
pub fn apply_action(world: &mut World, action: GameAction) -> (r: Result<(), SimulationError>)
    requires
        world_wf(*old(world)),
    ensures
        world_wf(*final(world)),
        action_check(*old(world), action) matches Err(e) ==> r == Err::<(), SimulationError>(e) && *final(world)
            == *old(world),
        action_check(*old(world), action) is Ok && (old(world).resolution.sequence_active
            || old(world).resolution.retains_work()) ==> r == Err::<(), SimulationError>(
            SimulationError::Resolution(ResolutionError::AlreadyResolving),
        ) && *final(world) == (World {
            game: GameState { status: SimulationStatus::Resolving, ..old(world).game },
            ..*old(world)
        }),
        action_check(*old(world), action) is Ok && !(old(world).resolution.sequence_active
            || old(world).resolution.retains_work()) && r is Err ==> {
            &&& !final(world).resolution.sequence_active
            &&& final(world).game.status == SimulationStatus::AwaitingAction || final(world).game.status
                == settled_status(final(world).game)
            &&& (r matches Err(e) && !(e is Invariant)) ==> !final(world).resolution.retains_work()
                && final(world).game.status == SimulationStatus::AwaitingAction
        },
        r is Ok ==> resolved_to_rest(*final(world)),
        action_resolved(*old(world), *final(world), action, r),
{
    let normalized = match validate_action(world, action) {
        Ok(a) => a,
        Err(e) => return Err(e),
    };
    world.game.status = SimulationStatus::Resolving;
    let budget = world.ruleset.resolution_budget;
    match begin_sequence(&mut world.resolution, budget) {
        Ok(()) => {},
        Err(e) => return Err(SimulationError::Resolution(e)),
    }
    if world.resolution.next_resolution_id > u64::MAX - 3 {
        abandon_sequence(&mut world.resolution);
        world.game.status = SimulationStatus::AwaitingAction;
        return Err(SimulationError::Resolution(ResolutionError::IdentitiesExhausted));
    }
    let step = step_for(normalized);
    let ops = vec![
        ResolutionOp::RunSequenceStep(step),
        ResolutionOp::RunPhaseBoundary(PhaseBoundaryPlan::Ordinary),
        ResolutionOp::CheckOutcome,
    ];
    let ghost stack0 = world.resolution.stack@;
    let ghost next0 = world.resolution.next_resolution_id;
    let ghost o = ops@;
    push_resolution_ops(&mut world.resolution, ops);
    let ghost pushed = *world;
    proof {
        crate::resolver::lemma_pushed_views(stack0, o, next0);
        crate::operations::lemma_ops_view_index(o);
        assert(ops_view(o) =~= opening_ops(normalized));
    }
    let driven_result = drive_resolution(world);
    let ghost driven = *world;
    let ghost rd = driven_result;
    if driven_result.is_err() {
        abandon_sequence(&mut world.resolution);
        world.game.status = SimulationStatus::AwaitingAction;
        proof {
            assert(resolution_run(pushed, driven, rd, (old(world).ruleset.resolution_budget + 1) as nat));
        }
        return driven_result;
    }
    let r = finish_resolution_if_idle(world);
    proof {
        assert(resolution_run(pushed, driven, rd, (old(world).ruleset.resolution_budget + 1) as nat));
    }
    r
}

/// Whether `k` is the first position of `options` whose option is `option`.
pub open spec fn first_option(options: Seq<crate::operations::ChoiceOption>, option: ChoiceId, k: int) -> bool {
    &&& 0 <= k < options.len()
    &&& options[k].id == option
    &&& forall|m: int| 0 <= m < k ==> (#[trigger] options[m]).id != option
}

proof fn lemma_first_option_unique(options: Seq<crate::operations::ChoiceOption>, option: ChoiceId, k: int)
    requires
        first_option(options, option, k),
    ensures
        (choose|j: int| first_option(options, option, j)) == k,
{
    let j = choose|j: int| first_option(options, option, j);
    assert(first_option(options, option, j));
    if j < k {
        assert(options[j].id != option);
    } else if k < j {
        assert(options[k].id != option);
    }
}

/// What answering the pending choice of `old` with `option` gives: no pending choice, or an
/// option it does not offer, is refused and changes nothing, and so is an option whose
/// operations would pass the largest operation identity; otherwise the choice is consumed, the
/// answer recorded, the status becomes resolving and the (first such) option's operations are
/// scheduled in order.
pub open spec fn choice_answered(old: World, new: World, option: ChoiceId, r: Result<(), SimulationError>) -> bool {
    match old.resolution.pending_choice {
        None => r == Err::<(), SimulationError>(SimulationError::Resolution(ResolutionError::NoPendingChoice))
            && new == old,
        Some(p) => {
            let options = p.request.options@;
            if forall|k: int| 0 <= k < options.len() ==> (#[trigger] options[k]).id != option {
                r == Err::<(), SimulationError>(SimulationError::Resolution(ResolutionError::InvalidChoice(option)))
                    && new == old
            } else {
                let k = choose|k: int| first_option(options, option, k);
                let ops = options[k].operations@;
                if old.resolution.next_resolution_id + ops.len() > u64::MAX {
                    r == Err::<(), SimulationError>(SimulationError::Resolution(ResolutionError::IdentitiesExhausted))
                        && new == old
                } else {
                    &&& r is Ok
                    &&& new == (World {
                        game: GameState { status: SimulationStatus::Resolving, ..old.game },
                        trace: new.trace,
                        resolution: new.resolution,
                        ..old
                    })
                    &&& new.trace@ == old.trace@.push(TraceEntry::ChoiceAnswered { choice: p.request.id, option })
                    &&& new.resolution == (ResolutionWork {
                        pending_choice: None,
                        stack: new.resolution.stack,
                        next_resolution_id: (old.resolution.next_resolution_id + ops.len()) as u64,
                        ..old.resolution
                    })
                    &&& pushed_views(
                        old.resolution.stack@,
                        new.resolution.stack@,
                        ops_view(ops),
                        old.resolution.next_resolution_id,
                    )
                }
            }
        },
    }
}

/// Answers the pending choice with `option`: the option's operations are scheduled and the game
/// resolves again; no pending choice, or an option it does not offer, is refused and changes
/// nothing.
pub fn answer_choice(world: &mut World, option: ChoiceId) -> (r: Result<(), SimulationError>)
    ensures
        choice_answered(*old(world), *final(world), option, r),
        old(world).resolution.pending_choice is None ==> r == Err::<(), SimulationError>(
            SimulationError::Resolution(ResolutionError::NoPendingChoice),
        ) && *final(world) == *old(world),
        match old(world).resolution.pending_choice {
            None => true,
            Some(pending) => {
                &&& (forall|k: int|
                    0 <= k < pending.request.options@.len() ==> (#[trigger] pending.request.options@[k]).id != option)
                    ==> r == Err::<(), SimulationError>(SimulationError::Resolution(ResolutionError::InvalidChoice(option)))
                    && *final(world) == *old(world)
                &&& r is Ok ==> exists|k: int|
                    {
                        &&& 0 <= k < pending.request.options@.len()
                        &&& (#[trigger] pending.request.options@[k]).id == option
                        &&& forall|m: int| 0 <= m < k ==> (#[trigger] pending.request.options@[m]).id != option
                        &&& final(world).resolution.pending_choice is None
                        &&& final(world).game == (GameState { status: SimulationStatus::Resolving, ..old(world).game })
                        &&& final(world).trace@ == old(world).trace@.push(
                            TraceEntry::ChoiceAnswered { choice: pending.request.id, option },
                        )
                        &&& final(world).resolution.next_resolution_id == old(world).resolution.next_resolution_id
                            + pending.request.options@[k].operations@.len()
                    }
            },
        },
        old(world).resolution.pending_choice is None ==> r is Err,
        r is Err ==> *final(world) == *old(world),
        final(world).objects == old(world).objects,
        final(world).resolution.sequence_active == old(world).resolution.sequence_active,
        final(world).resolution.remaining_budget == old(world).resolution.remaining_budget,
{
    let index = match &world.resolution.pending_choice {
        None => return Err(SimulationError::Resolution(ResolutionError::NoPendingChoice)),
        Some(pending) => {
            let mut k: usize = 0;
            let mut found: Option<usize> = None;
            while k < pending.request.options.len()
                invariant
                    k <= pending.request.options@.len(),
                    found is None ==> forall|m: int| 0 <= m < k ==> (#[trigger] pending.request.options@[m]).id != option,
                    found matches Some(j) ==> j < pending.request.options@.len() && pending.request.options@[j as int].id
                        == option && forall|m: int| 0 <= m < j ==> (#[trigger] pending.request.options@[m]).id != option,
                decreases pending.request.options@.len() - k,
            {
                if found.is_none() && pending.request.options[k].id == option {
                    found = Some(k);
                }
                k = k + 1;
            }
            match found {
                None => return Err(SimulationError::Resolution(ResolutionError::InvalidChoice(option))),
                Some(k) => {
                    proof {
                        lemma_first_option_unique(pending.request.options@, option, k as int);
                    }
                    if world.resolution.next_resolution_id as u128 + pending.request.options[k].operations.len() as u128
                        > u64::MAX as u128 {
                        return Err(SimulationError::Resolution(ResolutionError::IdentitiesExhausted));
                    }
                    k
                },
            }
        },
    };
    let ghost before = *world;
    let mut pending = match world.resolution.pending_choice.take() {
        Some(p) => p,
        None => return Err(SimulationError::Resolution(ResolutionError::NoPendingChoice)),
    };
    let choice = pending.request.id;
    let ghost options = pending.request.options@;
    let selected = pending.request.options.remove(index);
    proof {
        assert(selected == options[index as int]);
    }
    world.game.status = SimulationStatus::Resolving;
    world.trace.push(TraceEntry::ChoiceAnswered { choice, option });
    let ghost stack0 = world.resolution.stack@;
    let ghost next0 = world.resolution.next_resolution_id;
    let ghost o = selected.operations@;
    push_resolution_ops(&mut world.resolution, selected.operations);
    proof {
        crate::resolver::lemma_pushed_views(stack0, o, next0);
    }
    Ok(())
}

} // verus!
