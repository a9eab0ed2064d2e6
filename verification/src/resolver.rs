//! The resolution stack and its bookkeeping: sequences, budget, events, slots and choices.
use std::collections::{BTreeMap, BTreeSet};
use vstd::prelude::*;

use crate::operations::{
    lemma_ops_view_index, op_view, ops_view, OpView, DrawOutcome, DrawResultSlot, PendingChoice, PreparedEvent, PreparedEventSlot, ResolutionOp,
    StackedResolutionOp,
};
use crate::types::{
    ChoiceId, DrawResultSlotId, EventId, EventSlotId, ResolutionId, SimulationStatus,
};

verus! {

broadcast use vstd::std_specs::btree::group_btree_axioms;

/// Why a resolution request was refused.
#[derive(Clone, Copy, Debug, PartialEq, Eq, Structural)]
pub enum ResolutionError {
    AlreadyResolving,
    BudgetExhausted { operation: Option<ResolutionId> },
    MissingDrawResultSlot(DrawResultSlotId),
    DrawResultSlotAlreadyFilled(DrawResultSlotId),
    EmptyDrawResultSlot(DrawResultSlotId),
    MissingEvent(EventId),
    MissingEventSlot(EventSlotId),
    NoPendingChoice,
    InvalidChoice(ChoiceId),
    /// A counter of identities would pass its largest value.
    IdentitiesExhausted,
}

/// Everything the resolution of one action keeps between operations.
#[derive(Debug, PartialEq, Eq)]
pub struct ResolutionWork {
    /// The stack; the last element runs next.
    pub stack: Vec<StackedResolutionOp>,
    /// Prepared events by identity.
    pub events: BTreeMap<u64, PreparedEvent>,
    /// Event slots by identity.
    pub event_slots: BTreeMap<u64, PreparedEventSlot>,
    /// Draw result slots by identity.
    pub draw_result_slots: BTreeMap<u64, DrawResultSlot>,
    /// Subjects whose played-self transformation still waits for its finish barrier.
    pub pending_played_self_transforms: BTreeSet<u64>,
    /// The choice the game waits for, if any.
    pub pending_choice: Option<PendingChoice>,
    /// Whether a sequence is running.
    pub sequence_active: bool,
    /// How many more operations the running sequence may pop.
    pub remaining_budget: u32,
    pub next_resolution_id: u64,
    pub next_event_id: u64,
    pub next_event_slot_id: u64,
    pub next_draw_result_slot_id: u64,
}

impl ResolutionWork {
    /// Whether any work item, slot, timing marker or choice is retained.
    pub open spec fn retains_work(&self) -> bool {
        ||| self.stack@.len() > 0
        ||| !self.events@.is_empty()
        ||| !self.event_slots@.is_empty()
        ||| !self.draw_result_slots@.is_empty()
        ||| !self.pending_played_self_transforms@.is_empty()
        ||| self.pending_choice is Some
    }

    /// Every retained identity is below the counter that hands out the next one.
    pub open spec fn counters_exceed_keys(&self) -> bool {
        &&& forall|i: int|
            0 <= i < self.stack@.len() ==> (#[trigger] self.stack@[i]).id.0
                < self.next_resolution_id
        &&& forall|k: u64| #[trigger] self.events@.contains_key(k) ==> k < self.next_event_id
        &&& forall|k: u64| #[trigger] self.event_slots@.contains_key(k) ==> k < self.next_event_slot_id
        &&& forall|k: u64| #[trigger]
            self.draw_result_slots@.contains_key(k) ==> k < self.next_draw_result_slot_id
    }

    /// Work with nothing retained, no sequence and zeroed counters.
    pub fn new() -> (r: ResolutionWork)
        ensures
            !r.retains_work(),
            !r.sequence_active,
            r.remaining_budget == 0,
            r.next_resolution_id == 0,
            r.next_event_id == 0,
            r.next_event_slot_id == 0,
            r.next_draw_result_slot_id == 0,
            r.counters_exceed_keys(),
    {
        ResolutionWork {
            stack: Vec::new(),
            events: BTreeMap::new(),
            event_slots: BTreeMap::new(),
            draw_result_slots: BTreeMap::new(),
            pending_played_self_transforms: BTreeSet::new(),
            pending_choice: None,
            sequence_active: false,
            remaining_budget: 0,
            next_resolution_id: 0,
            next_event_id: 0,
            next_event_slot_id: 0,
            next_draw_result_slot_id: 0,
        }
    }
}

/// The operations of the top `n` stack entries, from the top down: the order in which pops
/// return them.
pub open spec fn top_down(stack: Seq<StackedResolutionOp>, n: nat) -> Seq<ResolutionOp> {
    Seq::new(n, |i: int| stack[stack.len() - 1 - i].operation)
}

/// Starts a sequence with a fresh budget; refused while a sequence runs or work is retained.
pub fn begin_sequence(work: &mut ResolutionWork, budget: u32) -> (r: Result<(), ResolutionError>)
    ensures
        r is Err <==> (old(work).sequence_active || old(work).retains_work()),
        r is Err ==> r == Err::<(), ResolutionError>(ResolutionError::AlreadyResolving)
            && *final(work) == *old(work),
        r is Ok ==> *final(work) == (ResolutionWork {
            remaining_budget: budget,
            sequence_active: true,
            ..*old(work)
        }),
{
    if work.sequence_active || !work.stack.is_empty() || !work.events.is_empty()
        || !work.event_slots.is_empty() || !work.draw_result_slots.is_empty()
        || !work.pending_played_self_transforms.is_empty() || work.pending_choice.is_some() {
        return Err(ResolutionError::AlreadyResolving);
    }
    work.remaining_budget = budget;
    work.sequence_active = true;
    Ok(())
}

/// Marks the running sequence as finished.
pub fn finish_sequence(work: &mut ResolutionWork)
    ensures
        *final(work) == (ResolutionWork { sequence_active: false, ..*old(work) }),
{
    work.sequence_active = false;
}

/// Whether `b` is `a` with every retained work item dropped and the sequence ended; identity
/// counters are kept.
pub open spec fn abandoned(a: ResolutionWork, b: ResolutionWork) -> bool {
    &&& b.stack@.len() == 0
    &&& b.events@ == Map::<u64, PreparedEvent>::empty()
    &&& b.event_slots@ == Map::<u64, PreparedEventSlot>::empty()
    &&& b.draw_result_slots@ == Map::<u64, DrawResultSlot>::empty()
    &&& b.pending_played_self_transforms@ == Set::<u64>::empty()
    &&& b.pending_choice is None
    &&& !b.sequence_active
    &&& b.remaining_budget == 0
    &&& b.next_resolution_id == a.next_resolution_id
    &&& b.next_event_id == a.next_event_id
    &&& b.next_event_slot_id == a.next_event_slot_id
    &&& b.next_draw_result_slot_id == a.next_draw_result_slot_id
}

/// Drops every retained work item and ends the sequence; identity counters are kept.
pub fn abandon_sequence(work: &mut ResolutionWork)
    ensures
        abandoned(*old(work), *final(work)),
        final(work).stack@.len() == 0,
        final(work).events@ == Map::<u64, PreparedEvent>::empty(),
        final(work).event_slots@ == Map::<u64, PreparedEventSlot>::empty(),
        final(work).draw_result_slots@ == Map::<u64, DrawResultSlot>::empty(),
        final(work).pending_played_self_transforms@ == Set::<u64>::empty(),
        final(work).pending_choice is None,
        !final(work).sequence_active,
        final(work).remaining_budget == 0,
        final(work).next_resolution_id == old(work).next_resolution_id,
        final(work).next_event_id == old(work).next_event_id,
        final(work).next_event_slot_id == old(work).next_event_slot_id,
        final(work).next_draw_result_slot_id == old(work).next_draw_result_slot_id,
        !final(work).retains_work(),
{
    work.stack.clear();
    work.events.clear();
    work.event_slots.clear();
    work.draw_result_slots.clear();
    work.pending_played_self_transforms.clear();
    work.pending_choice = None;
    work.sequence_active = false;
    work.remaining_budget = 0;
}

/// Pushes one operation on top of the stack under the next resolution identity.
pub fn push_resolution_op(work: &mut ResolutionWork, operation: ResolutionOp) -> (id: ResolutionId)
    requires
        old(work).next_resolution_id < u64::MAX,
    ensures
        id == ResolutionId(old(work).next_resolution_id),
        *final(work) == (ResolutionWork {
            stack: final(work).stack,
            next_resolution_id: (old(work).next_resolution_id + 1) as u64,
            ..*old(work)
        }),
        final(work).stack@ == old(work).stack@.push(StackedResolutionOp { id, operation }),
{
    let id = ResolutionId(work.next_resolution_id);
    work.next_resolution_id = work.next_resolution_id + 1;
    work.stack.push(StackedResolutionOp { id, operation });
    id
}

/// The stack after pushing `ops` in reverse, numbering them from `next`: the first operation
/// ends on top.
pub open spec fn pushed_in_reverse(stack: Seq<StackedResolutionOp>, ops: Seq<ResolutionOp>, next: u64)
    -> Seq<StackedResolutionOp> {
    stack + Seq::new(
        ops.len(),
        |k: int| StackedResolutionOp { id: ResolutionId((next + k) as u64), operation: ops[ops.len() - 1 - k] },
    )
}

/// Operations pushed in reverse come off the stack in execution order, each once: the `k`th
/// pop returns the `k`th operation under identity `next` plus its push index, and once all are
/// popped the stack is as it was before the push.
pub proof fn law_reverse_push_pops_in_execution_order(
    base: Seq<StackedResolutionOp>,
    ops: Seq<ResolutionOp>,
    next: u64,
)
    requires
        next + ops.len() <= u64::MAX,
    ensures
        ({
            let s = pushed_in_reverse(base, ops, next);
            &&& s.len() == base.len() + ops.len()
            &&& forall|k: int|
                0 <= k < ops.len() ==> (#[trigger] s[s.len() - 1 - k]).operation == ops[k] && s[s.len() - 1
                    - k].id == ResolutionId((next + ops.len() - 1 - k) as u64)
            &&& s.subrange(0, base.len() as int) == base
        }),
{
    let s = pushed_in_reverse(base, ops, next);
    assert(s.subrange(0, base.len() as int) =~= base);
}

/// Pushes operations given in execution order, so that the first of them runs first.
pub fn push_resolution_ops(work: &mut ResolutionWork, operations_in_execution_order: Vec<ResolutionOp>)
    requires
        old(work).next_resolution_id + operations_in_execution_order@.len() <= u64::MAX,
    ensures
        *final(work) == (ResolutionWork {
            stack: final(work).stack,
            next_resolution_id: (old(work).next_resolution_id
                + operations_in_execution_order@.len()) as u64,
            ..*old(work)
        }),
        final(work).stack@ == pushed_in_reverse(
            old(work).stack@,
            operations_in_execution_order@,
            old(work).next_resolution_id,
        ),
        top_down(final(work).stack@, operations_in_execution_order@.len())
            == operations_in_execution_order@,
{
    let mut ops = operations_in_execution_order;
    let ghost all = ops@;
    let ghost start = work.next_resolution_id;
    let ghost base = work.stack@;
    let ghost w0 = *work;
    while ops.len() > 0
        invariant
            ops@ == all.subrange(0, ops@.len() as int),
            ops@.len() <= all.len(),
            work.next_resolution_id == start + (all.len() - ops@.len()),
            start + all.len() <= u64::MAX,
            work.stack@ == pushed_in_reverse(base, all.subrange(ops@.len() as int, all.len() as int), start),
            *work == (ResolutionWork { stack: work.stack, next_resolution_id: work.next_resolution_id, ..w0 }),
        decreases ops.len(),
    {
        let op = ops.pop().unwrap();
        let ghost n = ops@.len();
        let ghost before = work.stack@;
        push_resolution_op(work, op);
        proof {
            let done_before = all.subrange(n + 1 as int, all.len() as int);
            let done_after = all.subrange(n as int, all.len() as int);
            assert(ops@ =~= all.subrange(0, n as int));
            assert(done_after.len() == done_before.len() + 1);
            assert(done_after[0] == op);
            assert(work.stack@ =~= pushed_in_reverse(base, done_after, start));
        }
    }
    proof {
        assert(all.subrange(0, all.len() as int) =~= all);
        let s = work.stack@;
        assert(top_down(s, all.len()) =~= all);
    }
}

/// Pops the operation on top of the stack.
pub fn pop_resolution_op(work: &mut ResolutionWork) -> (r: Option<StackedResolutionOp>)
    ensures
        old(work).stack@.len() == 0 ==> r is None && *final(work) == *old(work),
        old(work).stack@.len() > 0 ==> {
            &&& r == Some(old(work).stack@.last())
            &&& final(work).stack@ == old(work).stack@.drop_last()
            &&& *final(work) == (ResolutionWork { stack: final(work).stack, ..*old(work) })
        },
{
    if work.stack.len() == 0 {
        return None;
    }
    work.stack.pop()
}

/// Spends one unit of budget for the popped operation `operation`.
pub fn consume_budget(work: &mut ResolutionWork, operation: ResolutionId) -> (r: Result<(), ResolutionError>)
    ensures
        old(work).remaining_budget == 0 ==> r == Err::<(), ResolutionError>(
            ResolutionError::BudgetExhausted { operation: Some(operation) },
        ) && *final(work) == *old(work),
        old(work).remaining_budget > 0 ==> r is Ok && *final(work) == (ResolutionWork {
            remaining_budget: (old(work).remaining_budget - 1) as u32,
            ..*old(work)
        }),
{
    if work.remaining_budget == 0 {
        return Err(ResolutionError::BudgetExhausted { operation: Some(operation) });
    }
    work.remaining_budget = work.remaining_budget - 1;
    Ok(())
}

/// Hands out the next event identity.
pub fn allocate_event_id(work: &mut ResolutionWork) -> (id: EventId)
    requires
        old(work).next_event_id < u64::MAX,
    ensures
        id == EventId(old(work).next_event_id),
        *final(work) == (ResolutionWork {
            next_event_id: (old(work).next_event_id + 1) as u64,
            ..*old(work)
        }),
{
    let id = EventId(work.next_event_id);
    work.next_event_id = work.next_event_id + 1;
    id
}

/// Hands out the next event slot identity and inserts an empty slot under it.
pub fn allocate_event_slot(work: &mut ResolutionWork) -> (id: EventSlotId)
    requires
        old(work).next_event_slot_id < u64::MAX,
        !old(work).event_slots@.contains_key(old(work).next_event_slot_id),
    ensures
        id == EventSlotId(old(work).next_event_slot_id),
        *final(work) == (ResolutionWork {
            next_event_slot_id: (old(work).next_event_slot_id + 1) as u64,
            event_slots: final(work).event_slots,
            ..*old(work)
        }),
        final(work).event_slots@ == old(work).event_slots@.insert(
            id.0,
            PreparedEventSlot { event: None },
        ),
{
    let id = EventSlotId(work.next_event_slot_id);
    work.next_event_slot_id = work.next_event_slot_id + 1;
    work.event_slots.insert(id.0, PreparedEventSlot { event: None });
    id
}

/// Hands out the next draw result slot identity and inserts an empty slot under it.
pub fn allocate_draw_result_slot(work: &mut ResolutionWork) -> (id: DrawResultSlotId)
    requires
        old(work).next_draw_result_slot_id < u64::MAX,
        !old(work).draw_result_slots@.contains_key(old(work).next_draw_result_slot_id),
    ensures
        id == DrawResultSlotId(old(work).next_draw_result_slot_id),
        *final(work) == (ResolutionWork {
            next_draw_result_slot_id: (old(work).next_draw_result_slot_id + 1) as u64,
            draw_result_slots: final(work).draw_result_slots,
            ..*old(work)
        }),
        final(work).draw_result_slots@ == old(work).draw_result_slots@.insert(
            id.0,
            DrawResultSlot { outcome: None },
        ),
{
    let id = DrawResultSlotId(work.next_draw_result_slot_id);
    work.next_draw_result_slot_id = work.next_draw_result_slot_id + 1;
    work.draw_result_slots.insert(id.0, DrawResultSlot { outcome: None });
    id
}

/// The verdict and the slots after writing `outcome` into `slot`: a missing or already
/// written slot is refused and nothing changes.
pub open spec fn fill_outcome(slots: Map<u64, DrawResultSlot>, slot: DrawResultSlotId, outcome: DrawOutcome) -> (
    Result<(), ResolutionError>,
    Map<u64, DrawResultSlot>,
) {
    if !slots.contains_key(slot.0) {
        (Err(ResolutionError::MissingDrawResultSlot(slot)), slots)
    } else if slots[slot.0].outcome is Some {
        (Err(ResolutionError::DrawResultSlotAlreadyFilled(slot)), slots)
    } else {
        (Ok(()), slots.insert(slot.0, DrawResultSlot { outcome: Some(outcome) }))
    }
}

/// The verdict and the slots after taking the outcome of `slot`: a missing slot is refused
/// and nothing changes; a present one is removed, and its outcome returned if it was written.
pub open spec fn take_outcome(slots: Map<u64, DrawResultSlot>, slot: DrawResultSlotId) -> (
    Result<DrawOutcome, ResolutionError>,
    Map<u64, DrawResultSlot>,
) {
    if !slots.contains_key(slot.0) {
        (Err(ResolutionError::MissingDrawResultSlot(slot)), slots)
    } else {
        (
            match slots[slot.0].outcome {
                Some(outcome) => Ok(outcome),
                None => Err(ResolutionError::EmptyDrawResultSlot(slot)),
            },
            slots.remove(slot.0),
        )
    }
}

/// A freshly allocated draw result slot is written once and read once: a second write is
/// refused, taking it returns what was written, and afterwards it is gone. Taking it before
/// it is written finds it empty.
pub proof fn law_draw_slot_written_and_taken_once(
    slots: Map<u64, DrawResultSlot>,
    slot: DrawResultSlotId,
    first: DrawOutcome,
    second: DrawOutcome,
)
    requires
        !slots.contains_key(slot.0),
    ensures
        ({
            let fresh = slots.insert(slot.0, DrawResultSlot { outcome: None });
            let written = fill_outcome(fresh, slot, first).1;
            let taken = take_outcome(written, slot).1;
            &&& fill_outcome(fresh, slot, first).0 is Ok
            &&& fill_outcome(written, slot, second) == (Err::<(), ResolutionError>(
                ResolutionError::DrawResultSlotAlreadyFilled(slot),
            ), written)
            &&& take_outcome(written, slot).0 == Ok::<DrawOutcome, ResolutionError>(first)
            &&& taken == slots
            &&& take_outcome(taken, slot).0 == Err::<DrawOutcome, ResolutionError>(
                ResolutionError::MissingDrawResultSlot(slot),
            )
            &&& fill_outcome(taken, slot, second).0 == Err::<(), ResolutionError>(
                ResolutionError::MissingDrawResultSlot(slot),
            )
            &&& take_outcome(fresh, slot).0 == Err::<DrawOutcome, ResolutionError>(
                ResolutionError::EmptyDrawResultSlot(slot),
            )
        }),
{
    let fresh = slots.insert(slot.0, DrawResultSlot { outcome: None });
    let written = fill_outcome(fresh, slot, first).1;
    assert(take_outcome(written, slot).1 =~= slots);
}

/// Writes the outcome of a draw into its slot; each slot is written at most once.
pub fn fill_draw_result_slot(work: &mut ResolutionWork, slot: DrawResultSlotId, outcome: DrawOutcome)
    -> (r: Result<(), ResolutionError>)
    ensures
        (r, final(work).draw_result_slots@) == fill_outcome(old(work).draw_result_slots@, slot, outcome),
        !old(work).draw_result_slots@.contains_key(slot.0) ==> r == Err::<(), ResolutionError>(
            ResolutionError::MissingDrawResultSlot(slot),
        ) && *final(work) == *old(work),
        old(work).draw_result_slots@.contains_key(slot.0)
            && old(work).draw_result_slots@[slot.0].outcome is Some ==> r == Err::<(), ResolutionError>(
            ResolutionError::DrawResultSlotAlreadyFilled(slot),
        ) && *final(work) == *old(work),
        old(work).draw_result_slots@.contains_key(slot.0)
            && old(work).draw_result_slots@[slot.0].outcome is None ==> {
            &&& r is Ok
            &&& final(work).draw_result_slots@ == old(work).draw_result_slots@.insert(
                slot.0,
                DrawResultSlot { outcome: Some(outcome) },
            )
            &&& *final(work) == (ResolutionWork {
                draw_result_slots: final(work).draw_result_slots,
                ..*old(work)
            })
        },
{
    match work.draw_result_slots.get(&slot.0) {
        None => Err(ResolutionError::MissingDrawResultSlot(slot)),
        Some(existing) => {
            if existing.outcome.is_some() {
                return Err(ResolutionError::DrawResultSlotAlreadyFilled(slot));
            }
            work.draw_result_slots.insert(slot.0, DrawResultSlot { outcome: Some(outcome) });
            Ok(())
        },
    }
}

/// Removes a draw result slot and returns its outcome.
pub fn take_draw_result(work: &mut ResolutionWork, slot: DrawResultSlotId) -> (r: Result<DrawOutcome, ResolutionError>)
    ensures
        (r, final(work).draw_result_slots@) == take_outcome(old(work).draw_result_slots@, slot),
        !old(work).draw_result_slots@.contains_key(slot.0) ==> r == Err::<DrawOutcome, ResolutionError>(
            ResolutionError::MissingDrawResultSlot(slot),
        ) && *final(work) == *old(work),
        old(work).draw_result_slots@.contains_key(slot.0) ==> {
            &&& final(work).draw_result_slots@ == old(work).draw_result_slots@.remove(slot.0)
            &&& *final(work) == (ResolutionWork {
                draw_result_slots: final(work).draw_result_slots,
                ..*old(work)
            })
            &&& r == match old(work).draw_result_slots@[slot.0].outcome {
                Some(outcome) => Ok(outcome),
                None => Err(ResolutionError::EmptyDrawResultSlot(slot)),
            }
        },
{
    if !work.draw_result_slots.contains_key(&slot.0) {
        return Err(ResolutionError::MissingDrawResultSlot(slot));
    }
    match work.draw_result_slots.remove(&slot.0) {
        None => Err(ResolutionError::MissingDrawResultSlot(slot)),
        Some(found) => match found.outcome {
            Some(outcome) => Ok(outcome),
            None => Err(ResolutionError::EmptyDrawResultSlot(slot)),
        },
    }
}

/// Whether a sequence is running.
pub fn resolution_is_active(work: &ResolutionWork) -> (r: bool)
    ensures
        r == work.sequence_active,
{
    work.sequence_active
}

/// A broken rule of the resolution bookkeeping.
#[derive(Clone, Copy, Debug, PartialEq, Eq, Structural)]
pub enum ResolutionInvariantViolation {
    /// No sequence runs, yet operations, events, slots, timing markers or a choice remain.
    IdleWorkRetained,
    /// The game waits for a choice that is not recorded.
    AwaitingChoiceWithoutChoice,
}

/// The rules of the resolution bookkeeping: idle work retains nothing, and waiting for a choice
/// means a choice is pending.
pub open spec fn resolution_rules_hold(work: &ResolutionWork, status: SimulationStatus) -> bool {
    &&& !work.sequence_active ==> !work.retains_work()
    &&& work.sequence_active && status == SimulationStatus::AwaitingChoice
        ==> work.pending_choice is Some
}

/// Checks the rules of the resolution bookkeeping against the game status.
pub fn assert_resolution_invariants(work: &ResolutionWork, status: SimulationStatus)
    -> (r: Result<(), ResolutionInvariantViolation>)
    ensures
        r is Ok <==> resolution_rules_hold(work, status),
        !work.sequence_active && work.retains_work() ==> r == Err::<(), ResolutionInvariantViolation>(
            ResolutionInvariantViolation::IdleWorkRetained,
        ),
        work.sequence_active && status == SimulationStatus::AwaitingChoice
            && work.pending_choice is None ==> r == Err::<(), ResolutionInvariantViolation>(
            ResolutionInvariantViolation::AwaitingChoiceWithoutChoice,
        ),
{
    if !work.sequence_active {
        if !work.stack.is_empty() || !work.events.is_empty() || !work.event_slots.is_empty()
            || !work.draw_result_slots.is_empty() || !work.pending_played_self_transforms.is_empty()
            || work.pending_choice.is_some() {
            return Err(ResolutionInvariantViolation::IdleWorkRetained);
        }
    } else if status == SimulationStatus::AwaitingChoice && work.pending_choice.is_none() {
        return Err(ResolutionInvariantViolation::AwaitingChoiceWithoutChoice);
    }
    Ok(())
}


/// Whether `new_stack` is `old_stack` with operations pictured by `views` pushed so that the
/// first of them runs first, numbered from `next` in push order.
pub open spec fn pushed_views(old_stack: Seq<StackedResolutionOp>, new_stack: Seq<StackedResolutionOp>, views: Seq<OpView>, next: u64) -> bool {
    &&& new_stack.len() == old_stack.len() + views.len()
    &&& new_stack.subrange(0, old_stack.len() as int) == old_stack
    &&& forall|k: int|
        0 <= k < views.len() ==> (#[trigger] new_stack[old_stack.len() + k]).id == ResolutionId((next + k) as u64)
            && new_stack[old_stack.len() + k].operation@ == views[views.len() - 1 - k]
}

/// Pushing in reverse pushes the pictures of the operations.
pub proof fn lemma_pushed_views(stack: Seq<StackedResolutionOp>, ops: Seq<ResolutionOp>, next: u64)
    ensures
        pushed_views(stack, pushed_in_reverse(stack, ops, next), ops_view(ops), next),
{
    lemma_ops_view_index(ops);
    let s = pushed_in_reverse(stack, ops, next);
    assert(s.subrange(0, stack.len() as int) =~= stack);
    assert forall|k: int| 0 <= k < ops.len() implies (#[trigger] s[stack.len() + k]).id == ResolutionId((next + k) as u64)
        && s[stack.len() + k].operation@ == ops_view(ops)[ops.len() - 1 - k] by {
        assert(ops_view(ops)[ops.len() - 1 - k] == op_view(ops[ops.len() - 1 - k]));
    }
}

} // verus!
