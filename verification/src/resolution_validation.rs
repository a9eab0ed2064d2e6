//! Checking retained resolution work: every choice request offers options, each once, and no
//! operation of a branch runs an effect for an event.
use vstd::prelude::*;

use crate::error::{InvariantViolation, SimulationError};
use crate::operations::{ChoiceOption, ChoiceRequest, ResolutionOp};
use crate::types::ChoiceId;

verus! {

/// Whether no two of `options` share an identity.
pub open spec fn option_ids_unique(options: Seq<ChoiceOption>) -> bool {
    forall|i: int, j: int| 0 <= i < j < options.len() ==> (#[trigger] options[i]).id != (#[trigger] options[j]).id
}

/// The first broken rule within `op`: a choice request (itself or nested in an option) that
/// offers no option or repeats an option identity, or one of whose branches runs an effect for
/// an event.
pub open spec fn op_fault(op: ResolutionOp) -> Option<InvariantViolation>
    decreases op,
{
    match op {
        ResolutionOp::RequestChoice(r) => {
            proof {
                assert(decreases_to!(r.options => r.options@));
            }
            if r.options@.len() == 0 || !option_ids_unique(r.options@) {
                Some(InvariantViolation::InvalidChoiceRequest(r.id))
            } else {
                options_fault(r.options@, r.id)
            }
        },
        _ => None,
    }
}

/// The first fault among the operations of `options`, the branches of request `id`, option by
/// option.
pub open spec fn options_fault(options: Seq<ChoiceOption>, id: ChoiceId) -> Option<InvariantViolation>
    decreases options,
{
    if options.len() == 0 {
        None
    } else {
        let last = options[options.len() - 1];
        proof {
            assert(decreases_to!(last.operations => last.operations@));
        }
        match options_fault(options.subrange(0, options.len() - 1), id) {
            Some(v) => Some(v),
            None => ops_fault(last.operations@, id),
        }
    }
}

/// The fault of one operation of a branch of request `id`: running an effect for an event, or a
/// fault within the operation.
pub open spec fn branch_op_fault(op: ResolutionOp, id: ChoiceId) -> Option<InvariantViolation> {
    match op {
        ResolutionOp::RunEffect { event: Some(_), .. } => Some(InvariantViolation::ChoiceBranchBorrowsEvent(id)),
        _ => op_fault(op),
    }
}

/// The first fault among `ops`, the operations of a branch of request `id`, in order.
pub open spec fn ops_fault(ops: Seq<ResolutionOp>, id: ChoiceId) -> Option<InvariantViolation>
    decreases ops,
{
    if ops.len() == 0 {
        None
    } else {
        match ops_fault(ops.subrange(0, ops.len() - 1), id) {
            Some(v) => Some(v),
            None => match ops[ops.len() - 1] {
                ResolutionOp::RunEffect { event: Some(_), .. } => Some(InvariantViolation::ChoiceBranchBorrowsEvent(id)),
                _ => op_fault(ops[ops.len() - 1]),
            },
        }
    }
}

/// The fault of a choice request: none offered, a repeated option identity, or a fault among
/// the operations of its options.
pub open spec fn request_fault(r: ChoiceRequest) -> Option<InvariantViolation> {
    if r.options@.len() == 0 || !option_ids_unique(r.options@) {
        Some(InvariantViolation::InvalidChoiceRequest(r.id))
    } else {
        options_fault(r.options@, r.id)
    }
}

/// Checks one retained operation: a choice request it holds, nested ones included, must offer
/// options, each identity once, and no operation of its branches may run an effect for an event.
pub fn validate_resolution_operation(op: &ResolutionOp) -> (r: Result<(), SimulationError>)
    ensures
        match op_fault(*op) {
            Some(v) => r == Err::<(), SimulationError>(SimulationError::Invariant(v)),
            None => r is Ok,
        },
    decreases op,
{
    match op {
        ResolutionOp::RequestChoice(request) => validate_choice_request(request),
        _ => Ok(()),
    }
}

/// Checks a choice request: it must offer options, each identity once; no operation of an option
/// may run an effect for an event, and every one must pass `validate_resolution_operation`.
pub fn validate_choice_request(request: &ChoiceRequest) -> (r: Result<(), SimulationError>)
    ensures
        match request_fault(*request) {
            Some(v) => r == Err::<(), SimulationError>(SimulationError::Invariant(v)),
            None => r is Ok,
        },
    decreases request,
{
    let n = request.options.len();
    if n == 0 {
        return Err(SimulationError::Invariant(InvariantViolation::InvalidChoiceRequest(request.id)));
    }
    let mut i: usize = 0;
    while i < n
        invariant
            n == request.options@.len(),
            i <= n,
            forall|a: int, b: int| 0 <= a < b < n && a < i ==> (#[trigger] request.options@[a]).id
                != (#[trigger] request.options@[b]).id,
        decreases n - i,
    {
        let mut j: usize = i + 1;
        while j < n
            invariant
                n == request.options@.len(),
                i < n,
                i + 1 <= j <= n,
                forall|a: int, b: int| 0 <= a < b < n && a < i ==> (#[trigger] request.options@[a]).id
                    != (#[trigger] request.options@[b]).id,
                forall|b: int| i < b < j ==> request.options@[i as int].id != (#[trigger] request.options@[b]).id,
            decreases n - j,
        {
            if request.options[i].id == request.options[j].id {
                proof {
                    assert(!option_ids_unique(request.options@));
                }
                return Err(SimulationError::Invariant(InvariantViolation::InvalidChoiceRequest(request.id)));
            }
            j = j + 1;
        }
        i = i + 1;
    }
    assert(option_ids_unique(request.options@));
    let mut k: usize = 0;
    while k < n
        invariant
            n == request.options@.len(),
            k <= n,
            options_fault(request.options@.subrange(0, k as int), request.id) is None,
            option_ids_unique(request.options@),
        decreases n - k,
    {
        let option = &request.options[k];
        proof {
            assert(request.options@.subrange(0, k + 1).subrange(0, k as int) =~= request.options@.subrange(0, k as int));
            assert(request.options@.subrange(0, k + 1)[k as int] == *option);
        }
        let m = option.operations.len();
        let mut q: usize = 0;
        while q < m
            invariant
                m == option.operations@.len(),
                q <= m,
                k < n,
                n == request.options@.len(),
                *option == request.options@[k as int],
                options_fault(request.options@.subrange(0, k as int), request.id) is None,
                option_ids_unique(request.options@),
                ops_fault(option.operations@.subrange(0, q as int), request.id) is None,
            decreases m - q,
        {
            proof {
                assert(option.operations@.subrange(0, q + 1).subrange(0, q as int) =~= option.operations@.subrange(0, q as int));
                assert(decreases_to!(*request => request.options));
                assert(decreases_to!(request.options => request.options@));
                assert(decreases_to!(request.options@ => request.options@[k as int]));
                assert(decreases_to!(request.options@[k as int] => option.operations));
                assert(decreases_to!(option.operations => option.operations@));
                assert(decreases_to!(option.operations@ => option.operations@[q as int]));
            }
            let operation = &option.operations[q];
            let checked = match operation {
                ResolutionOp::RunEffect { event: Some(_), .. } => Err(
                    SimulationError::Invariant(InvariantViolation::ChoiceBranchBorrowsEvent(request.id)),
                ),
                _ => validate_resolution_operation(operation),
            };
            match checked {
                Ok(()) => {
                    proof {
                        let ops = option.operations@;
                        assert(ops.subrange(0, q + 1)[q as int] == ops[q as int]);
                        assert(branch_op_fault(ops[q as int], request.id) is None);
                        assert(ops_fault(ops.subrange(0, q + 1), request.id) == branch_op_fault(ops[q as int], request.id));
                    }
                },
                Err(e) => {
                    proof {
                        let ops = option.operations@;
                        assert(ops.subrange(0, q + 1)[q as int] == ops[q as int]);
                        assert(ops_fault(ops.subrange(0, q + 1), request.id) == branch_op_fault(ops[q as int], request.id));
                        lemma_ops_fault_prefix(ops, q as int + 1, request.id);
                        let opts = request.options@;
                        assert(opts.subrange(0, k + 1).subrange(0, k as int) =~= opts.subrange(0, k as int));
                        assert(opts.subrange(0, k + 1)[k as int] == *option);
                        assert(options_fault(opts.subrange(0, k + 1), request.id) == ops_fault(ops, request.id));
                        lemma_options_fault_prefix(opts, k as int + 1, request.id);
                    }
                    return Err(e);
                },
            }
            q = q + 1;
        }
        proof {
            assert(option.operations@.subrange(0, m as int) =~= option.operations@);
        }
        k = k + 1;
    }
    proof {
        assert(request.options@.subrange(0, n as int) =~= request.options@);
    }
    Ok(())
}

/// A fault among the first `n` operations is the fault of all of them.
proof fn lemma_ops_fault_prefix(ops: Seq<ResolutionOp>, n: int, id: ChoiceId)
    requires
        0 <= n <= ops.len(),
        ops_fault(ops.subrange(0, n), id) is Some,
    ensures
        ops_fault(ops, id) == ops_fault(ops.subrange(0, n), id),
    decreases ops.len() - n,
{
    if n < ops.len() {
        assert(ops.subrange(0, n + 1).subrange(0, n) =~= ops.subrange(0, n));
        lemma_ops_fault_prefix(ops, n + 1, id);
    } else {
        assert(ops.subrange(0, n) =~= ops);
    }
}

/// A fault among the first `n` options is the fault of all of them.
proof fn lemma_options_fault_prefix(options: Seq<ChoiceOption>, n: int, id: ChoiceId)
    requires
        0 <= n <= options.len(),
        options_fault(options.subrange(0, n), id) is Some,
    ensures
        options_fault(options, id) == options_fault(options.subrange(0, n), id),
    decreases options.len() - n,
{
    if n < options.len() {
        assert(options.subrange(0, n + 1).subrange(0, n) =~= options.subrange(0, n));
        lemma_options_fault_prefix(options, n + 1, id);
    } else {
        assert(options.subrange(0, n) =~= options);
    }
}

} // verus!
