//! The decisions of an external call made by a running program.
//!
//! A `CallExternal` instruction hands its arguments to a capability that the
//! application bound to the callee's signature. Looking the capability up,
//! observing the argument values, calling it, checking the shape of its
//! result and storing that result are the embedding's work; this module says
//! which cells are the arguments, what each reply of the application becomes,
//! and how the machine's state moves on once a result is in hand.
use vstd::prelude::*;

use crate::compiled::{
    CompiledFunction, CompiledProgram, CompiledValueShapeId, ExternalSymbolId, Instruction,
};
use crate::failures::{
    ExecutionFailure, ExecutionFailureKind, ExternalCapabilityFailure, ExternalExecutionFailure,
};
use crate::lexical::SourceSpan;
use crate::semantic::SignatureSymbol;
use crate::vm::{CallFrame, InstructionPointer, RuntimeValue};

verus! {

/// A copy of `symbol` that the caller owns.
pub fn own_signature_symbol(symbol: &SignatureSymbol) -> (r: SignatureSymbol)
    ensures
        r == *symbol,
{
    SignatureSymbol { module: symbol.module.clone(), name: symbol.name.clone() }
}

/// The instruction that `frame` is about to execute in `program`.
pub open spec fn current_instruction(program: &CompiledProgram, frame: &CallFrame) -> Instruction {
    program.functions@[frame.function.0 as int].instructions@[frame.instruction_pointer.0 as int]
}

/// The first cell above the parameters and locals of `frame`: where its
/// operands begin.
pub open spec fn operand_base(program: &CompiledProgram, frame: &CallFrame) -> int {
    let f = program.functions@[frame.function.0 as int];
    frame.frame_base + f.parameter_count + f.local_count
}

/// The machine is at an external call that it can make: there is an active
/// frame, its function and instruction exist, the instruction is
/// `CallExternal` of a known symbol, and the frame's operands hold at least
/// as many values as the symbol takes, every one of them present.
pub open spec fn external_call_ready(
    program: &CompiledProgram,
    frames: Seq<CallFrame>,
    cells: Seq<Option<RuntimeValue>>,
) -> bool {
    &&& frames.len() > 0
    &&& {
        let frame = frames.last();
        &&& frame.function.0 < program.functions@.len()
        &&& frame.instruction_pointer.0
            < program.functions@[frame.function.0 as int].instructions@.len()
        &&& current_instruction(program, &frame) matches Instruction::CallExternal(id)
        &&& id.0 < program.external_symbols@.len()
        &&& operand_base(program, &frame) <= cells.len()
        &&& {
            let count = program.external_symbols@[id.0 as int].parameter_count;
            &&& cells.len() - operand_base(program, &frame) >= count
            &&& forall|i: int| cells.len() - count <= i < cells.len() ==> (#[trigger] cells[i]) is Some
        }
    }
}

/// What an external call is about: the symbol, how many arguments it takes
/// and the shape its result must have, where its arguments begin among the
/// cells, and how deep the caller's operands were before the call.
pub struct ExternalCallPlan {
    pub symbol: ExternalSymbolId,
    pub parameter_count: usize,
    pub result_shape: CompiledValueShapeId,
    pub argument_start: usize,
    pub operand_depth: usize,
}

/// `p` is the plan of the external call at the active frame: the symbol of
/// its instruction, that symbol's parameter count and result shape, the
/// caller's operand depth, and the topmost `parameter_count` cells as the
/// arguments.
pub open spec fn planned(
    program: &CompiledProgram,
    frames: Seq<CallFrame>,
    cells: Seq<Option<RuntimeValue>>,
    p: ExternalCallPlan,
) -> bool {
    let frame = frames.last();
    let id = current_instruction(program, &frame)->CallExternal_0;
    let symbol = program.external_symbols@[id.0 as int];
    &&& p.symbol == id
    &&& p.parameter_count == symbol.parameter_count
    &&& p.result_shape == symbol.result_shape
    &&& p.operand_depth == cells.len() - operand_base(program, &frame)
    &&& p.argument_start == cells.len() - symbol.parameter_count
}

/// Reads the external call that the active frame is about to make: its
/// symbol, the shape of its result, and the cells that hold its arguments,
/// the topmost `parameter_count` cells.
pub fn plan_external_call(
    program: &CompiledProgram,
    frames: &Vec<CallFrame>,
    cells: &Vec<Option<RuntimeValue>>,
) -> (p: ExternalCallPlan)
    requires
        external_call_ready(program, frames@, cells@),
    ensures
        planned(program, frames@, cells@, p),
{
    let frame = &frames[frames.len() - 1];
    assert(*frame == frames@.last());
    let function = &program.functions[frame.function.0];
    let instruction = &function.instructions[frame.instruction_pointer.0];
    let id = match instruction {
        Instruction::CallExternal(id) => *id,
        _ => {
            proof {
                assert(false);
            }
            ExternalSymbolId(0)
        },
    };
    let symbol = &program.external_symbols[id.0];
    let len = cells.len();
    assert(*function == program.functions@[frame.function.0 as int]);
    let base = frame.frame_base + function.parameter_count + function.local_count;
    let operand_depth = cells.len() - base;
    ExternalCallPlan {
        symbol: id,
        parameter_count: symbol.parameter_count,
        result_shape: symbol.result_shape,
        argument_start: cells.len() - symbol.parameter_count,
        operand_depth,
    }
}

/// What the application answered to an external call.
pub enum ExternalReply {
    /// No capability is bound to the callee's signature.
    Unbound,
    /// The capability ran and reported a failure.
    Failed(ExternalCapabilityFailure),
    /// The capability returned a value, whose shape did or did not match the
    /// result shape of the symbol.
    Returned { shape_matches: bool },
}

/// The failure that a reply stands for, located at `span`, or `None` where
/// the call may go on: an unbound signature is a missing binding, a failed
/// capability passes its failure on, and a result of the wrong shape breaks
/// the call's result contract.
pub fn refusal_of_reply(signature: &SignatureSymbol, reply: ExternalReply, span: SourceSpan) -> (r:
    Option<ExecutionFailure>)
    ensures
        r == match reply {
            ExternalReply::Unbound => Some(
                (ExecutionFailure {
                    kind: ExecutionFailureKind::External(
                        ExternalExecutionFailure::MissingBinding { signature: *signature },
                    ),
                    source_span: Some(span),
                }),
            ),
            ExternalReply::Failed(failure) => Some(
                (ExecutionFailure {
                    kind: ExecutionFailureKind::External(
                        ExternalExecutionFailure::CapabilityFailure { signature: *signature, failure },
                    ),
                    source_span: Some(span),
                }),
            ),
            ExternalReply::Returned { shape_matches } => if shape_matches {
                None
            } else {
                Some(
                    (ExecutionFailure {
                        kind: ExecutionFailureKind::External(
                            ExternalExecutionFailure::ResultContractMismatch { signature: *signature },
                        ),
                        source_span: Some(span),
                    }),
                )
            },
        },
{
    match reply {
        ExternalReply::Unbound => Some(
            ExecutionFailure {
                kind: ExecutionFailureKind::External(
                    ExternalExecutionFailure::MissingBinding {
                        signature: own_signature_symbol(signature),
                    },
                ),
                source_span: Some(span),
            },
        ),
        ExternalReply::Failed(failure) => Some(
            ExecutionFailure {
                kind: ExecutionFailureKind::External(
                    ExternalExecutionFailure::CapabilityFailure {
                        signature: own_signature_symbol(signature),
                        failure,
                    },
                ),
                source_span: Some(span),
            },
        ),
        ExternalReply::Returned { shape_matches } => {
            if shape_matches {
                None
            } else {
                Some(
                    ExecutionFailure {
                        kind: ExecutionFailureKind::External(
                            ExternalExecutionFailure::ResultContractMismatch {
                                signature: own_signature_symbol(signature),
                            },
                        ),
                        source_span: Some(span),
                    },
                )
            }
        },
    }
}

/// The caller's operand depth once the arguments are replaced by the result.
pub open spec fn depth_after_call(plan: ExternalCallPlan) -> int {
    plan.operand_depth - plan.parameter_count + 1
}

/// Finishes an external call whose result is in hand: the argument cells
/// are replaced by the one result, and the frame moves to the next
/// instruction.
pub fn complete_external_call(
    cells: &mut Vec<Option<RuntimeValue>>,
    frame: &mut CallFrame,
    function: &CompiledFunction,
    plan: &ExternalCallPlan,
    result: RuntimeValue,
)
    requires
        plan.argument_start + plan.parameter_count == old(cells)@.len(),
        plan.parameter_count <= plan.operand_depth,
        depth_after_call(*plan) <= function.max_operand_depth,
        old(frame).instruction_pointer.0 + 1 < function.instructions@.len(),
    ensures
        final(cells)@ == old(cells)@.take(plan.argument_start as int).push(Some(result)),
        final(frame).instruction_pointer.0 == old(frame).instruction_pointer.0 + 1,
        final(frame).function == old(frame).function,
        final(frame).frame_base == old(frame).frame_base,
{
    let count = function.instructions.len();
    assert(frame.instruction_pointer.0 + 1 < count);
    cells.truncate(plan.argument_start);
    cells.push(Some(result));
    frame.instruction_pointer = InstructionPointer(frame.instruction_pointer.0 + 1);
}

/// An external call, once completed, leaves the caller's operands
/// `depth_after_call` deep: the arguments are gone, the one result is on
/// top, and every cell below the operands (the frames' parameters and locals
/// among them) is as it was.
pub proof fn law_external_call_depth(
    program: &CompiledProgram,
    frames: Seq<CallFrame>,
    cells: Seq<Option<RuntimeValue>>,
    plan: ExternalCallPlan,
    result: RuntimeValue,
)
    requires
        external_call_ready(program, frames, cells),
        planned(program, frames, cells, plan),
    ensures
        ({
            let after = cells.take(plan.argument_start as int).push(Some(result));
            let base = operand_base(program, &frames.last());
            &&& after.len() - base == depth_after_call(plan)
            &&& after.last() == Some(result)
            &&& forall|i: int| 0 <= i < base ==> after[i] == cells[i]
        }),
{
}

} // verus!
