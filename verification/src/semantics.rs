//! What a program of the intermediate representation computes.
//!
//! A run starts in the entry block with the values that are known on entry,
//! executes the instructions of a block in order, and follows the
//! terminators until it leaves through an exit block. The result of the run
//! is the value of the last instruction of that block.
//!
//! A run that reads a name without a value, divides by zero, computes a
//! number that is no signed 64-bit integer, or is sent to a block that does
//! not exist, has no result.

use vstd::prelude::*;
use crate::ir::{BlockView, InstructionView, OperandView, ProgramView, TerminatorView};
use crate::passes::{evaluate_binary, evaluate_comparison, Evaluation};

verus! {

/// The values of the names that have one.
pub type Env = Map<Seq<char>, i64>;

/// The value of an operand.
pub open spec fn operand_value(env: Env, operand: OperandView) -> Option<i64> {
    match operand {
        OperandView::Constant(value) => Some(value),
        OperandView::Variable(name) => if env.dom().contains(name) {
            Some(env[name])
        } else {
            None
        },
    }
}

/// The operand that a phi lists for the block `from`: the first one at or
/// behind index `start`.
pub open spec fn incoming_from(incoming: Seq<(Seq<char>, OperandView)>, from: Seq<char>, start: int) -> Option<
    OperandView,
>
    decreases incoming.len() - start,
{
    if start < 0 || start >= incoming.len() {
        None
    } else if incoming[start].0 == from {
        Some(incoming[start].1)
    } else {
        incoming_from(incoming, from, start + 1)
    }
}

/// The value that an instruction computes, where control came from the
/// block `from`.
pub open spec fn instruction_value(env: Env, instruction: InstructionView, from: Option<Seq<char>>) -> Option<i64> {
    match instruction {
        InstructionView::Constant { value, .. } => Some(value),
        InstructionView::Binary { op, left, right, .. } => match (
            operand_value(env, left),
            operand_value(env, right),
        ) {
            (Some(l), Some(r)) => match evaluate_binary(op, l, r) {
                Evaluation::Value(v) => Some(v),
                _ => None,
            },
            _ => None,
        },
        InstructionView::Comparison { op, left, right, .. } => match (
            operand_value(env, left),
            operand_value(env, right),
        ) {
            (Some(l), Some(r)) => Some(evaluate_comparison(op, l, r)),
            _ => None,
        },
        InstructionView::Phi { incoming, .. } => match from {
            Some(block) => match incoming_from(incoming, block, 0) {
                Some(operand) => operand_value(env, operand),
                None => None,
            },
            None => None,
        },
    }
}

/// The values after the first `upto` instructions, executed in order.
pub open spec fn env_after(env: Env, instructions: Seq<InstructionView>, from: Option<Seq<char>>, upto: int) -> Option<
    Env,
>
    decreases upto,
{
    if upto <= 0 || upto > instructions.len() {
        Some(env)
    } else {
        match env_after(env, instructions, from, upto - 1) {
            Some(before) => match instruction_value(before, instructions[upto - 1], from) {
                Some(value) => Some(before.insert(instructions[upto - 1].result(), value)),
                None => None,
            },
            None => None,
        }
    }
}

/// The index of the first block called `name`, at or behind `start`.
pub open spec fn block_index(blocks: Seq<BlockView>, name: Seq<char>, start: int) -> Option<int>
    decreases blocks.len() - start,
{
    if start < 0 || start >= blocks.len() {
        None
    } else if blocks[start].name == name {
        Some(start)
    } else {
        block_index(blocks, name, start + 1)
    }
}

/// Where a block sends control with the values `env`: nowhere for an exit,
/// else the name of the next block.
pub open spec fn successor(terminator: TerminatorView, env: Env) -> Option<Seq<char>> {
    match terminator {
        TerminatorView::Jump { target } => Some(target),
        TerminatorView::Branch { condition, then_target, else_target } => match operand_value(
            env,
            condition,
        ) {
            Some(c) => Some(
                if c != 0 {
                    then_target
                } else {
                    else_target
                },
            ),
            None => None,
        },
    }
}

/// The value that a run leaves an exit block with: that of its last
/// instruction, or none where the block is empty.
pub open spec fn exit_value(block: BlockView, env: Env) -> Option<i64> {
    if block.instructions.len() > 0 {
        Some(env[block.instructions.last().result()])
    } else {
        None
    }
}

/// The result of a run that is about to execute the block at `index`,
/// having come from the block `from`, and may execute `fuel` blocks.
///
/// `Some(value)` is a run that leaves the program with `value`. `None` is a
/// run that has no result, or none within `fuel` blocks.
pub open spec fn run_from(program: ProgramView, index: int, from: Option<Seq<char>>, env: Env, fuel: nat) -> Option<
    Option<i64>,
>
    decreases fuel,
{
    if fuel == 0 || index < 0 || index >= program.blocks.len() {
        None
    } else {
        let block = program.blocks[index];
        match env_after(env, block.instructions, from, block.instructions.len() as int) {
            Some(after) => match block.terminator {
                None => Some(exit_value(block, after)),
                Some(terminator) => match successor(terminator, after) {
                    Some(target) => match block_index(program.blocks, target, 0) {
                        Some(next) => run_from(program, next, Some(block.name), after, (fuel - 1) as nat),
                        None => None,
                    },
                    None => None,
                },
            },
            None => None,
        }
    }
}

/// The result of the run of `program` that starts with the values `env`
/// and may execute `fuel` blocks.
pub open spec fn run(program: ProgramView, env: Env, fuel: nat) -> Option<Option<i64>> {
    match block_index(program.blocks, program.entry, 0) {
        Some(entry) => run_from(program, entry, None, env, fuel),
        None => None,
    }
}

} // verus!
