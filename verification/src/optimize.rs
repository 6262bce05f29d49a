//! The optimizer: dead-code elimination and constant folding, alternated
//! until neither changes the program.
//!
//! Each function computes exactly what its model in [`crate::passes`]
//! describes.

use vstd::prelude::*;
use crate::ast::{BinaryOp, ComparisonOp};
use crate::builder::truth;
use crate::ir::{
    blocks_view, clone_names, incoming_view, instructions_view, names_view, BasicBlock, BlockView,
    Instruction, InstructionView, Operand, Program, ProgramView, Terminator,
};
use crate::passes::{
    blocks_uses, eliminate_spec, evaluate_binary, evaluate_comparison, fold_blocks,
    fold_instruction, fold_instructions, fold_repeat, fold_scan, fold_spec, incoming_uses,
    in_range, instruction_count, instruction_uses, instructions_uses, learn, lemma_fold_repeat,
    lemma_fold_scan, lemma_live_instructions, lemma_optimize_idempotent, lemma_round, live_block,
    live_instructions, operand_uses, operations, optimize_spec, resolve, size, terminator_uses,
    uses, Evaluation, FoldState, OptimizeErrorView,
};
use crate::preservation::{lemma_optimize_same_results, same_results};
use crate::ssa::is_ssa;
use crate::structure::{lemma_optimize_keeps_shape, lemma_optimize_keeps_ssa, same_shape};
use crate::table::Table;

verus! {

/// Why a program cannot be optimized.
#[derive(Debug, Clone, PartialEq, Eq)]
pub enum OptimizeError {
    /// Folding `at` would divide by a constant zero.
    DivisionByZero { at: Instruction },
}

impl View for OptimizeError {
    type V = OptimizeErrorView;

    open spec fn view(&self) -> OptimizeErrorView {
        match self {
            OptimizeError::DivisionByZero { at } => OptimizeErrorView::DivisionByZero { at: at@ },
        }
    }
}

/// Adds the name that `operand` reads, if it reads one, to `names`.
fn note_operand(names: &mut Vec<String>, operand: &Operand)
    ensures
        names_view(final(names)@) == names_view(old(names)@) + operand_uses(operand@),
{
    match operand {
        Operand::Variable(name) => {
            let copy: String = name.clone();
            proof {
                assert(names_view(names@.push(copy)) =~= names_view(names@) + seq![name@]);
            }
            names.push(copy);
        },
        Operand::Constant(_) => {
            assert(names_view(names@) =~= names_view(names@) + Seq::<Seq<char>>::empty());
        },
    }
}

/// Adds the names that `instruction` reads to `names`.
fn note_instruction(names: &mut Vec<String>, instruction: &Instruction)
    ensures
        names_view(final(names)@) == names_view(old(names)@) + instruction_uses(instruction@),
{
    let ghost before = names_view(names@);
    match instruction {
        Instruction::Constant { .. } => {
            assert(before =~= before + Seq::<Seq<char>>::empty());
        },
        Instruction::Binary { result: _, op: _, left, right } => {
            note_operand(names, left);
            note_operand(names, right);
            assert(names_view(names@) =~= before + (operand_uses(left@) + operand_uses(right@)));
        },
        Instruction::Comparison { result: _, op: _, left, right } => {
            note_operand(names, left);
            note_operand(names, right);
            assert(names_view(names@) =~= before + (operand_uses(left@) + operand_uses(right@)));
        },
        Instruction::Phi { result: _, incoming } => {
            let mut i: usize = 0;
            assert(before =~= before + incoming_uses(incoming_view(incoming@), 0));
            while i < incoming.len()
                invariant
                    i <= incoming.len(),
                    names_view(names@) == before + incoming_uses(incoming_view(incoming@), i as int),
                decreases incoming.len() - i,
            {
                let ghost so_far = incoming_uses(incoming_view(incoming@), i as int);
                note_operand(names, &incoming[i].1);
                i += 1;
                assert(names_view(names@) =~= before + (so_far + operand_uses(incoming@[i - 1].1@)));
            }
        },
    }
}

/// Every use of a name as an operand in the program, in program order.
fn collect_uses(program: &Program) -> (names: Vec<String>)
    ensures
        names_view(names@) == uses(program@),
{
    let mut names: Vec<String> = Vec::new();
    let mut b: usize = 0;
    assert(names_view(names@) =~= blocks_uses(program@.blocks, 0));
    while b < program.blocks.len()
        invariant
            b <= program.blocks.len(),
            names_view(names@) == blocks_uses(program@.blocks, b as int),
        decreases program.blocks.len() - b,
    {
        let block: &BasicBlock = &program.blocks[b];
        let ghost before = names_view(names@);
        let mut i: usize = 0;
        assert(before =~= before + instructions_uses(block@.instructions, 0));
        while i < block.instructions.len()
            invariant
                i <= block.instructions.len(),
                names_view(names@) == before + instructions_uses(block@.instructions, i as int),
            decreases block.instructions.len() - i,
        {
            let ghost so_far = instructions_uses(block@.instructions, i as int);
            note_instruction(&mut names, &block.instructions[i]);
            i += 1;
            assert(names_view(names@) =~= before + (so_far + instruction_uses(
                block@.instructions[i - 1],
            )));
        }
        let ghost inner = instructions_uses(block@.instructions, block@.instructions.len() as int);
        match &block.terminator {
            Some(Terminator::Branch { condition, then_target: _, else_target: _ }) => {
                note_operand(&mut names, condition);
            },
            _ => {
                assert(names_view(names@) =~= names_view(names@) + Seq::<Seq<char>>::empty());
            },
        }
        b += 1;
        assert(names_view(names@) =~= before + (inner + terminator_uses(block@.terminator)));
    }
    names
}

/// Whether `name` is among `names`.
fn contains_name(names: &Vec<String>, name: &String) -> (r: bool)
    ensures
        r == names_view(names@).contains(name@),
{
    let mut i: usize = 0;
    while i < names.len()
        invariant
            i <= names.len(),
            forall|j: int| 0 <= j < i ==> names_view(names@)[j] != name@,
        decreases names.len() - i,
    {
        if names[i] == *name {
            assert(names_view(names@)[i as int] == name@);
            return true;
        }
        i += 1;
    }
    false
}

/// The result name of an instruction.
fn result_of(instruction: &Instruction) -> (name: &String)
    ensures
        name@ == instruction@.result(),
{
    match instruction {
        Instruction::Constant { result, .. } => result,
        Instruction::Binary { result, .. } => result,
        Instruction::Comparison { result, .. } => result,
        Instruction::Phi { result, .. } => result,
    }
}

/// `block` without its dead instructions, and whether it had any.
fn eliminate_in_block(used: &Vec<String>, block: &BasicBlock) -> (r: (BasicBlock, bool))
    ensures
        r.0@ == live_block(names_view(used@), block@),
        r.1 == (r.0@.instructions.len() < block@.instructions.len()),
{
    let mut kept: Vec<Instruction> = Vec::new();
    let mut removed: bool = false;
    let is_exit: bool = block.terminator.is_none();
    let mut i: usize = 0;
    assert(instructions_view(kept@) =~= live_instructions(names_view(used@), block@, 0));
    while i < block.instructions.len()
        invariant
            i <= block.instructions.len(),
            is_exit == (block@.terminator is None),
            instructions_view(kept@) == live_instructions(names_view(used@), block@, i as int),
            removed == (kept@.len() < i),
            kept@.len() <= i,
        decreases block.instructions.len() - i,
    {
        let instruction: &Instruction = &block.instructions[i];
        let last: bool = is_exit && i == block.instructions.len() - 1;
        if last || contains_name(used, result_of(instruction)) {
            let copy: Instruction = instruction.clone();
            proof {
                assert(instructions_view(kept@.push(copy)) =~= instructions_view(kept@).push(copy@));
            }
            kept.push(copy);
        } else {
            removed = true;
        }
        i += 1;
    }
    let terminator: Option<Terminator> = match &block.terminator {
        Some(t) => Some(t.clone()),
        None => None,
    };
    (
        BasicBlock {
            name: block.name.clone(),
            instructions: kept,
            terminator,
            predecessors: clone_names(&block.predecessors),
        },
        removed,
    )
}

/// Removes every instruction whose result is neither used as an operand
/// anywhere in the program nor the result of the program, and says whether
/// it removed any.
///
/// Uses are counted once, before anything is removed: an instruction that
/// only a removed instruction used stays until the next run.
pub fn dead_code_elimination(program: &mut Program) -> (removed: bool)
    ensures
        (final(program)@, removed) == eliminate_spec(old(program)@),
{
    let used: Vec<String> = collect_uses(program);
    let mut blocks: Vec<BasicBlock> = Vec::new();
    let mut removed: bool = false;
    let mut b: usize = 0;
    let ghost before = program@;
    let ghost after = eliminate_spec(before).0;
    while b < program.blocks.len()
        invariant
            b <= program.blocks.len(),
            program@ == before,
            after == eliminate_spec(before).0,
            names_view(used@) == uses(before),
            blocks@.len() == b,
            forall|j: int| 0 <= j < b ==> (#[trigger] blocks@[j])@ == after.blocks[j],
            instruction_count(after.blocks, b as int) <= instruction_count(before.blocks, b as int),
            removed == (instruction_count(after.blocks, b as int) < instruction_count(
                before.blocks,
                b as int,
            )),
        decreases program.blocks.len() - b,
    {
        proof {
            lemma_live_instructions(
                uses(before),
                before.blocks[b as int],
                before.blocks[b as int].instructions.len() as int,
            );
        }
        let (block, removed_here) = eliminate_in_block(&used, &program.blocks[b]);
        blocks.push(block);
        if removed_here {
            removed = true;
        }
        b += 1;
    }
    assert(blocks_view(blocks@) =~= after.blocks);
    program.blocks = blocks;
    removed
}

/// The constants known so far, and whether the scan has replaced an
/// instruction.
struct Folding {
    known: Table<i64>,
    changed: bool,
}

impl View for Folding {
    type V = FoldState;

    closed spec fn view(&self) -> FoldState {
        FoldState { known: self.known@, changed: self.changed }
    }
}

/// The constant that an operand stands for, where that is known.
fn resolve_operand(known: &Table<i64>, operand: &Operand) -> (value: Option<i64>)
    ensures
        value == resolve(known@, operand@),
{
    match operand {
        Operand::Constant(value) => Some(*value),
        Operand::Variable(name) => known.get(name),
    }
}

/// 1 for true, 0 for false.
fn truth_of(value: bool) -> (r: i64)
    ensures
        r == truth(value),
{
    if value {
        1
    } else {
        0
    }
}

/// `value` where there is one.
fn within_range(value: Option<i64>) -> (r: Evaluation)
    ensures
        r == in_range(value),
{
    match value {
        Some(v) => Evaluation::Value(v),
        None => Evaluation::OutOfRange,
    }
}

/// The value of `left op right`.
pub fn evaluate(op: BinaryOp, left: i64, right: i64) -> (r: Evaluation)
    ensures
        r == evaluate_binary(op, left, right),
{
    match op {
        BinaryOp::Add => within_range(left.checked_add(right)),
        BinaryOp::Subtract => within_range(left.checked_sub(right)),
        BinaryOp::Multiply => within_range(left.checked_mul(right)),
        BinaryOp::Divide => {
            if right == 0 {
                Evaluation::DivisionByZero
            } else {
                within_range(left.checked_div(right))
            }
        },
        BinaryOp::And => Evaluation::Value(truth_of(left != 0 && right != 0)),
        BinaryOp::Or => Evaluation::Value(truth_of(left != 0 || right != 0)),
    }
}

/// The value of the comparison `left op right`: 1 where it holds, else 0.
pub fn compare(op: ComparisonOp, left: i64, right: i64) -> (r: i64)
    ensures
        r == evaluate_comparison(op, left, right),
{
    truth_of(
        match op {
            ComparisonOp::Equal => left == right,
            ComparisonOp::NotEqual => left != right,
            ComparisonOp::Less => left < right,
            ComparisonOp::LessEqual => left <= right,
            ComparisonOp::Greater => left > right,
            ComparisonOp::GreaterEqual => left >= right,
        },
    )
}

impl Folding {
    /// Records that `result` is the constant `value`, and that an
    /// instruction was replaced where `replaced` says so.
    fn learn(&mut self, result: &String, value: i64, replaced: bool)
        ensures
            final(self)@ == learn(old(self)@, result@, value, replaced),
    {
        self.known.set(result, value);
        if replaced {
            self.changed = true;
        }
    }

    /// Folds one instruction.
    fn fold_instruction(&mut self, instruction: &Instruction) -> (r: Result<Instruction, OptimizeError>)
        ensures
            match fold_instruction(instruction@, old(self)@) {
                Ok((folded, next)) => r matches Ok(x) && x@ == folded && final(self)@ == next,
                Err(e) => r matches Err(x) && x@ == e,
            },
    {
        match instruction {
            Instruction::Constant { result, value } => {
                self.learn(result, *value, false);
                Ok(instruction.clone())
            },
            Instruction::Binary { result, op, left, right } => {
                match (resolve_operand(&self.known, left), resolve_operand(&self.known, right)) {
                    (Some(l), Some(r)) => match evaluate(*op, l, r) {
                        Evaluation::Value(value) => {
                            self.learn(result, value, true);
                            Ok(Instruction::Constant { result: result.clone(), value })
                        },
                        Evaluation::OutOfRange => Ok(instruction.clone()),
                        Evaluation::DivisionByZero => Err(
                            OptimizeError::DivisionByZero { at: instruction.clone() },
                        ),
                    },
                    _ => Ok(instruction.clone()),
                }
            },
            Instruction::Comparison { result, op, left, right } => {
                match (resolve_operand(&self.known, left), resolve_operand(&self.known, right)) {
                    (Some(l), Some(r)) => {
                        let value: i64 = compare(*op, l, r);
                        self.learn(result, value, true);
                        Ok(Instruction::Constant { result: result.clone(), value })
                    },
                    _ => Ok(instruction.clone()),
                }
            },
            Instruction::Phi { .. } => Ok(instruction.clone()),
        }
    }

    /// Folds the instructions of a block, in order.
    fn fold_instructions(&mut self, instructions: &Vec<Instruction>) -> (r: Result<
        Vec<Instruction>,
        OptimizeError,
    >)
        ensures
            match fold_instructions(instructions_view(instructions@), 0, old(self)@, Seq::empty()) {
                Ok((folded, next)) => r matches Ok(x) && instructions_view(x@) == folded && final(self)@
                    == next,
                Err(e) => r matches Err(x) && x@ == e,
            },
    {
        let mut out: Vec<Instruction> = Vec::new();
        let mut i: usize = 0;
        assert(instructions_view(out@) =~= Seq::<InstructionView>::empty());
        while i < instructions.len()
            invariant
                i <= instructions.len(),
                fold_instructions(instructions_view(instructions@), 0, old(self)@, Seq::empty())
                    == fold_instructions(
                    instructions_view(instructions@),
                    i as int,
                    self@,
                    instructions_view(out@),
                ),
            decreases instructions.len() - i,
        {
            match self.fold_instruction(&instructions[i]) {
                Ok(folded) => {
                    proof {
                        assert(instructions_view(out@.push(folded)) =~= instructions_view(out@).push(
                            folded@,
                        ));
                    }
                    out.push(folded);
                },
                Err(e) => {
                    return Err(e);
                },
            }
            i += 1;
        }
        Ok(out)
    }

    /// One scan over the program in program order.
    fn scan(&mut self, program: &Program) -> (r: Result<Program, OptimizeError>)
        requires
            !old(self).changed,
        ensures
            match fold_scan(program@, old(self)@.known) {
                Ok((after, next)) => r matches Ok(x) && x@ == after && final(self)@ == next,
                Err(e) => r matches Err(x) && x@ == e,
            },
    {
        let mut blocks: Vec<BasicBlock> = Vec::new();
        let mut b: usize = 0;
        assert(blocks_view(blocks@) =~= Seq::<BlockView>::empty());
        assert(old(self)@ == (FoldState { known: old(self)@.known, changed: false }));
        while b < program.blocks.len()
            invariant
                b <= program.blocks.len(),
                old(self)@ == (FoldState { known: old(self)@.known, changed: false }),
                fold_blocks(program@.blocks, 0, old(self)@, Seq::empty()) == fold_blocks(
                    program@.blocks,
                    b as int,
                    self@,
                    blocks_view(blocks@),
                ),
            decreases program.blocks.len() - b,
        {
            let block: &BasicBlock = &program.blocks[b];
            match self.fold_instructions(&block.instructions) {
                Ok(instructions) => {
                    let terminator: Option<Terminator> = match &block.terminator {
                        Some(t) => Some(t.clone()),
                        None => None,
                    };
                    let folded = BasicBlock {
                        name: block.name.clone(),
                        instructions,
                        terminator,
                        predecessors: clone_names(&block.predecessors),
                    };
                    proof {
                        assert(blocks_view(blocks@.push(folded)) =~= blocks_view(blocks@).push(folded@));
                    }
                    blocks.push(folded);
                },
                Err(e) => {
                    return Err(e);
                },
            }
            b += 1;
        }
        Ok(Program { blocks, entry: program.entry.clone() })
    }
}

/// Replaces every operation on known constants by its value, scan after
/// scan until a scan finds none, and says whether it replaced any.
///
/// It fails, and leaves the program as it was, where an operation would
/// divide by a constant zero.
pub fn constant_folding(program: &mut Program) -> (r: Result<bool, OptimizeError>)
    ensures
        match fold_spec(old(program)@) {
            Ok((after, changed)) => r == Ok::<bool, OptimizeError>(changed) && final(program)@ == after,
            Err(e) => r matches Err(x) && x@ == e && final(program)@ == old(program)@,
        },
{
    let mut state = Folding { known: Table::new(), changed: false };
    proof {
        lemma_fold_repeat(program@, Seq::empty());
    }
    let mut current: Program = match state.scan(program) {
        Ok(p) => p,
        Err(e) => {
            return Err(e);
        },
    };
    let changed: bool = state.changed;
    while state.changed
        invariant
            fold_repeat(old(program)@, Seq::empty()) == if state.changed {
                fold_repeat(current@, state@.known)
            } else {
                Ok::<ProgramView, OptimizeErrorView>(current@)
            },
        decreases operations(current@), if state.changed { 1nat } else { 0nat },
    {
        state.changed = false;
        proof {
            lemma_fold_scan(current@, state@.known);
        }
        match state.scan(&current) {
            Ok(p) => {
                current = p;
            },
            Err(e) => {
                return Err(e);
            },
        }
    }
    *program = current;
    Ok(changed)
}

/// Optimizes a program: rounds of dead-code elimination and constant
/// folding, until a round changes nothing.
///
/// It fails, and leaves the program as it was, where folding would divide
/// by a constant zero. Where it succeeds, the program has the blocks it
/// had, with their names, terminators and predecessors, and is a fixed
/// point: optimizing it again changes nothing. Where no two instructions
/// defined the same name before, none do afterwards, and every run that had
/// a result has the same result.
pub fn optimize(program: &mut Program) -> (r: Result<(), OptimizeError>)
    ensures
        match optimize_spec(old(program)@) {
            Ok(after) => r is Ok && final(program)@ == after,
            Err(e) => r matches Err(x) && x@ == e && final(program)@ == old(program)@,
        },
        r is Ok ==> same_shape(final(program)@, old(program)@),
        r is Ok ==> optimize_spec(final(program)@) == Ok::<ProgramView, OptimizeErrorView>(final(program)@),
        r is Ok && is_ssa(old(program)@) ==> is_ssa(final(program)@),
        r is Ok && is_ssa(old(program)@) ==> same_results(old(program)@, final(program)@),
{
    proof {
        lemma_optimize_keeps_shape(program@);
        lemma_optimize_idempotent(program@);
        if is_ssa(program@) {
            lemma_optimize_keeps_ssa(program@);
            lemma_optimize_same_results(program@);
        }
    }
    let mut work: Program = program.clone();
    let mut changed: bool = true;
    while changed
        invariant
            optimize_spec(old(program)@) == if changed {
                optimize_spec(work@)
            } else {
                Ok::<ProgramView, OptimizeErrorView>(work@)
            },
            program@ == old(program)@,
        decreases size(work@) + operations(work@), if changed { 1nat } else { 0nat },
    {
        proof {
            lemma_round(work@);
        }
        let removed: bool = dead_code_elimination(&mut work);
        match constant_folding(&mut work) {
            Ok(folded) => {
                changed = removed || folded;
            },
            Err(e) => {
                return Err(e);
            },
        }
    }
    *program = work;
    Ok(())
}

} // verus!
