//! The two optimization passes and their alternation, as functions on
//! mathematical values.
//!
//! Each pass returns the program it arrives at together with a flag that
//! says whether it changed anything. [`optimize_spec`] alternates the passes
//! until a round changes nothing.

use vstd::prelude::*;
use crate::ast::{BinaryOp, ComparisonOp};
use crate::builder::truth;
use crate::ir::{BlockView, InstructionView, OperandView, ProgramView, TerminatorView};
use crate::table::{find, put};

verus! {

/// Why a program cannot be optimized.
pub enum OptimizeErrorView {
    /// Folding `at` would divide by a constant zero.
    DivisionByZero { at: InstructionView },
}

/// The constants that are known by name.
pub type Constants = Seq<(Seq<char>, i64)>;

/// The names that an operand reads.
pub open spec fn operand_uses(operand: OperandView) -> Seq<Seq<char>> {
    match operand {
        OperandView::Variable(name) => seq![name],
        OperandView::Constant(_) => Seq::empty(),
    }
}

/// The names that the first `upto` incoming operands of a phi read.
pub open spec fn incoming_uses(incoming: Seq<(Seq<char>, OperandView)>, upto: int) -> Seq<Seq<char>>
    decreases upto,
{
    if upto <= 0 || upto > incoming.len() {
        Seq::empty()
    } else {
        incoming_uses(incoming, upto - 1) + operand_uses(incoming[upto - 1].1)
    }
}

/// The names that an instruction reads, in the order of its operands.
pub open spec fn instruction_uses(instruction: InstructionView) -> Seq<Seq<char>> {
    match instruction {
        InstructionView::Constant { .. } => Seq::empty(),
        InstructionView::Binary { left, right, .. } => operand_uses(left) + operand_uses(right),
        InstructionView::Comparison { left, right, .. } => operand_uses(left) + operand_uses(right),
        InstructionView::Phi { incoming, .. } => incoming_uses(incoming, incoming.len() as int),
    }
}

/// The names that the first `upto` instructions read.
pub open spec fn instructions_uses(instructions: Seq<InstructionView>, upto: int) -> Seq<Seq<char>>
    decreases upto,
{
    if upto <= 0 || upto > instructions.len() {
        Seq::empty()
    } else {
        instructions_uses(instructions, upto - 1) + instruction_uses(instructions[upto - 1])
    }
}

/// The names that a terminator reads.
pub open spec fn terminator_uses(terminator: Option<TerminatorView>) -> Seq<Seq<char>> {
    match terminator {
        Some(TerminatorView::Branch { condition, .. }) => operand_uses(condition),
        _ => Seq::empty(),
    }
}

/// The names that a block reads: those of its instructions, then that of
/// its terminator.
pub open spec fn block_uses(block: BlockView) -> Seq<Seq<char>> {
    instructions_uses(block.instructions, block.instructions.len() as int) + terminator_uses(
        block.terminator,
    )
}

/// The names that the first `upto` blocks read.
pub open spec fn blocks_uses(blocks: Seq<BlockView>, upto: int) -> Seq<Seq<char>>
    decreases upto,
{
    if upto <= 0 || upto > blocks.len() {
        Seq::empty()
    } else {
        blocks_uses(blocks, upto - 1) + block_uses(blocks[upto - 1])
    }
}

/// Every use of a name as an operand in the program, in program order. A
/// name occurs as often as it is used.
pub open spec fn uses(program: ProgramView) -> Seq<Seq<char>> {
    blocks_uses(program.blocks, program.blocks.len() as int)
}

/// Whether the instruction at `index` of `block` is observed without being
/// an operand: it is the last instruction of an exit block, whose value is
/// the result of the program.
pub open spec fn is_result(block: BlockView, index: int) -> bool {
    block.terminator is None && index == block.instructions.len() - 1
}

/// Whether dead-code elimination keeps the instruction at `index` of
/// `block`, given every use in the program.
pub open spec fn is_live(used: Seq<Seq<char>>, block: BlockView, index: int) -> bool {
    used.contains(block.instructions[index].result()) || is_result(block, index)
}

/// The live instructions among the first `upto` of `block`, in order.
pub open spec fn live_instructions(used: Seq<Seq<char>>, block: BlockView, upto: int) -> Seq<InstructionView>
    decreases upto,
{
    if upto <= 0 || upto > block.instructions.len() {
        Seq::empty()
    } else if is_live(used, block, upto - 1) {
        live_instructions(used, block, upto - 1).push(block.instructions[upto - 1])
    } else {
        live_instructions(used, block, upto - 1)
    }
}

/// `block` without its dead instructions.
pub open spec fn live_block(used: Seq<Seq<char>>, block: BlockView) -> BlockView {
    BlockView {
        instructions: live_instructions(used, block, block.instructions.len() as int),
        ..block
    }
}

/// The number of instructions in the first `upto` blocks.
pub open spec fn instruction_count(blocks: Seq<BlockView>, upto: int) -> nat
    decreases upto,
{
    if upto <= 0 || upto > blocks.len() {
        0
    } else {
        instruction_count(blocks, upto - 1) + blocks[upto - 1].instructions.len()
    }
}

/// The number of instructions in a program.
pub open spec fn size(program: ProgramView) -> nat {
    instruction_count(program.blocks, program.blocks.len() as int)
}

/// Dead-code elimination: the program without the instructions whose
/// result is neither used as an operand anywhere in the program nor the
/// result of the program; and whether any instruction was removed.
///
/// Uses are counted once, before anything is removed.
pub open spec fn eliminate_spec(program: ProgramView) -> (ProgramView, bool) {
    let used = uses(program);
    let after = ProgramView {
        blocks: Seq::new(program.blocks.len(), |i: int| live_block(used, program.blocks[i])),
        entry: program.entry,
    };
    (after, size(after) < size(program))
}

/// The constant that an operand stands for, where that is known.
pub open spec fn resolve(known: Constants, operand: OperandView) -> Option<i64> {
    match operand {
        OperandView::Constant(value) => Some(value),
        OperandView::Variable(name) => find(known, name),
    }
}

/// What the evaluation of an operation on constants gives.
#[derive(Debug, Clone, Copy, PartialEq, Eq, Structural)]
pub enum Evaluation {
    /// The result, exactly.
    Value(i64),
    /// The exact result is no signed 64-bit integer.
    OutOfRange,
    /// The divisor is zero.
    DivisionByZero,
}

/// `value` where there is one.
pub open spec fn in_range(value: Option<i64>) -> Evaluation {
    match value {
        Some(v) => Evaluation::Value(v),
        None => Evaluation::OutOfRange,
    }
}

/// The value of `left op right`. Division truncates towards zero. The
/// logical operators take every number but zero as true and give 1 or 0.
pub open spec fn evaluate_binary(op: BinaryOp, left: i64, right: i64) -> Evaluation {
    match op {
        BinaryOp::Add => in_range(left.checked_add(right)),
        BinaryOp::Subtract => in_range(left.checked_sub(right)),
        BinaryOp::Multiply => in_range(left.checked_mul(right)),
        BinaryOp::Divide => if right == 0 {
            Evaluation::DivisionByZero
        } else {
            in_range(left.checked_div(right))
        },
        BinaryOp::And => Evaluation::Value(truth(left != 0 && right != 0)),
        BinaryOp::Or => Evaluation::Value(truth(left != 0 || right != 0)),
    }
}

/// The value of the comparison `left op right`: 1 where it holds, else 0.
pub open spec fn evaluate_comparison(op: ComparisonOp, left: i64, right: i64) -> i64 {
    truth(
        match op {
            ComparisonOp::Equal => left == right,
            ComparisonOp::NotEqual => left != right,
            ComparisonOp::Less => left < right,
            ComparisonOp::LessEqual => left <= right,
            ComparisonOp::Greater => left > right,
            ComparisonOp::GreaterEqual => left >= right,
        },
    )
}

/// The state of a folding scan: the constants known so far, and whether
/// the scan has replaced an instruction.
pub struct FoldState {
    pub known: Constants,
    pub changed: bool,
}

/// The state behind an instruction that was replaced by, or is, the
/// constant `value` named `result`.
pub open spec fn learn(state: FoldState, result: Seq<char>, value: i64, replaced: bool) -> FoldState {
    FoldState { known: put(state.known, result, value), changed: state.changed || replaced }
}

/// Folds one instruction.
///
/// A constant is recorded. An operation whose operands are both known is
/// replaced by the constant it evaluates to, which is recorded; where the
/// exact result is out of range the operation stays; where it would divide
/// by zero the scan fails. Every other instruction stays.
pub open spec fn fold_instruction(instruction: InstructionView, state: FoldState) -> Result<
    (InstructionView, FoldState),
    OptimizeErrorView,
> {
    match instruction {
        InstructionView::Constant { result, value } => Ok((instruction, learn(state, result, value, false))),
        InstructionView::Binary { result, op, left, right } => match (
            resolve(state.known, left),
            resolve(state.known, right),
        ) {
            (Some(l), Some(r)) => match evaluate_binary(op, l, r) {
                Evaluation::Value(value) => Ok(
                    (InstructionView::Constant { result, value }, learn(state, result, value, true)),
                ),
                Evaluation::OutOfRange => Ok((instruction, state)),
                Evaluation::DivisionByZero => Err(OptimizeErrorView::DivisionByZero { at: instruction }),
            },
            _ => Ok((instruction, state)),
        },
        InstructionView::Comparison { result, op, left, right } => match (
            resolve(state.known, left),
            resolve(state.known, right),
        ) {
            (Some(l), Some(r)) => {
                let value = evaluate_comparison(op, l, r);
                Ok((InstructionView::Constant { result, value }, learn(state, result, value, true)))
            },
            _ => Ok((instruction, state)),
        },
        InstructionView::Phi { .. } => Ok((instruction, state)),
    }
}

/// Folds the instructions from index `from` on, in order, behind the
/// folded instructions in `done`.
pub open spec fn fold_instructions(
    instructions: Seq<InstructionView>,
    from: int,
    state: FoldState,
    done: Seq<InstructionView>,
) -> Result<(Seq<InstructionView>, FoldState), OptimizeErrorView>
    decreases instructions.len() - from,
{
    if from < 0 || from >= instructions.len() {
        Ok((done, state))
    } else {
        match fold_instruction(instructions[from], state) {
            Ok((folded, next)) => fold_instructions(instructions, from + 1, next, done.push(folded)),
            Err(e) => Err(e),
        }
    }
}

/// Folds the blocks from index `from` on, in order, behind the folded
/// blocks in `done`.
pub open spec fn fold_blocks(blocks: Seq<BlockView>, from: int, state: FoldState, done: Seq<BlockView>) -> Result<
    (Seq<BlockView>, FoldState),
    OptimizeErrorView,
>
    decreases blocks.len() - from,
{
    if from < 0 || from >= blocks.len() {
        Ok((done, state))
    } else {
        match fold_instructions(blocks[from].instructions, 0, state, Seq::empty()) {
            Ok((instructions, next)) => fold_blocks(
                blocks,
                from + 1,
                next,
                done.push(BlockView { instructions, ..blocks[from] }),
            ),
            Err(e) => Err(e),
        }
    }
}

/// One scan over the program in program order, with the constants in
/// `known` to begin with: the program after the scan, the constants known
/// after it, and whether it replaced an instruction.
pub open spec fn fold_scan(program: ProgramView, known: Constants) -> Result<
    (ProgramView, FoldState),
    OptimizeErrorView,
> {
    match fold_blocks(program.blocks, 0, FoldState { known, changed: false }, Seq::empty()) {
        Ok((blocks, state)) => Ok((ProgramView { blocks, entry: program.entry }, state)),
        Err(e) => Err(e),
    }
}

/// Whether folding might replace the instruction: it is an operation.
pub open spec fn is_operation(instruction: InstructionView) -> bool {
    instruction is Binary || instruction is Comparison
}

/// The number of operations among the first `upto` instructions.
pub open spec fn operations_in(instructions: Seq<InstructionView>, upto: int) -> nat
    decreases upto,
{
    if upto <= 0 || upto > instructions.len() {
        0
    } else if is_operation(instructions[upto - 1]) {
        operations_in(instructions, upto - 1) + 1
    } else {
        operations_in(instructions, upto - 1)
    }
}

/// The number of operations in the first `upto` blocks.
pub open spec fn operation_count(blocks: Seq<BlockView>, upto: int) -> nat
    decreases upto,
{
    if upto <= 0 || upto > blocks.len() {
        0
    } else {
        operation_count(blocks, upto - 1) + operations_in(
            blocks[upto - 1].instructions,
            blocks[upto - 1].instructions.len() as int,
        )
    }
}

/// The number of operations in a program.
pub open spec fn operations(program: ProgramView) -> nat {
    operation_count(program.blocks, program.blocks.len() as int)
}

/// The number of operations among the first instructions depends on
/// those instructions alone.
pub proof fn lemma_operations_prefix(a: Seq<InstructionView>, b: Seq<InstructionView>, upto: int)
    requires
        0 <= upto <= a.len(),
        upto <= b.len(),
        forall|i: int| 0 <= i < upto ==> a[i] == b[i],
    ensures
        operations_in(a, upto) == operations_in(b, upto),
    decreases upto,
{
    if upto > 0 {
        lemma_operations_prefix(a, b, upto - 1);
    }
}

/// Appending an instruction adds it to the count of operations, where it
/// is one.
pub proof fn lemma_operations_push(a: Seq<InstructionView>, x: InstructionView)
    ensures
        operations_in(a.push(x), a.len() as int + 1) == operations_in(a, a.len() as int) + if is_operation(x) {
            1nat
        } else {
            0nat
        },
{
    lemma_operations_prefix(a.push(x), a, a.len() as int);
}

/// The live instructions of a block are no more than its instructions, and
/// hold no more operations. Where they are as many, they are the same.
pub proof fn lemma_live_instructions(used: Seq<Seq<char>>, block: BlockView, upto: int)
    requires
        0 <= upto <= block.instructions.len(),
    ensures
        live_instructions(used, block, upto).len() <= upto,
        operations_in(
            live_instructions(used, block, upto),
            live_instructions(used, block, upto).len() as int,
        ) <= operations_in(block.instructions, upto),
        live_instructions(used, block, upto).len() == upto ==> live_instructions(used, block, upto)
            == block.instructions.subrange(0, upto),
    decreases upto,
{
    if upto > 0 {
        lemma_live_instructions(used, block, upto - 1);
        let before = live_instructions(used, block, upto - 1);
        if is_live(used, block, upto - 1) {
            lemma_operations_push(before, block.instructions[upto - 1]);
            if before.len() == upto - 1 {
                assert(before.push(block.instructions[upto - 1]) =~= block.instructions.subrange(0, upto));
            }
        }
    } else {
        assert(live_instructions(used, block, upto) =~= block.instructions.subrange(0, upto));
    }
}

/// Dead-code elimination adds no instruction and no operation to any
/// block; where it leaves the number of instructions as it was, it leaves
/// the blocks as they were.
pub proof fn lemma_eliminate_blocks(program: ProgramView, upto: int)
    requires
        0 <= upto <= program.blocks.len(),
    ensures
        instruction_count(eliminate_spec(program).0.blocks, upto) <= instruction_count(program.blocks, upto),
        operation_count(eliminate_spec(program).0.blocks, upto) <= operation_count(program.blocks, upto),
        instruction_count(eliminate_spec(program).0.blocks, upto) == instruction_count(program.blocks, upto)
            ==> forall|i: int| 0 <= i < upto ==> eliminate_spec(program).0.blocks[i] == program.blocks[i],
    decreases upto,
{
    if upto > 0 {
        lemma_eliminate_blocks(program, upto - 1);
        let block = program.blocks[upto - 1];
        lemma_live_instructions(uses(program), block, block.instructions.len() as int);
        let live = live_instructions(uses(program), block, block.instructions.len() as int);
        if live.len() == block.instructions.len() {
            assert(block.instructions.subrange(0, block.instructions.len() as int) =~= block.instructions);
        }
    }
}

/// Dead-code elimination shrinks the program or leaves it as it was.
pub proof fn lemma_eliminate(program: ProgramView)
    ensures
        size(eliminate_spec(program).0) <= size(program),
        operations(eliminate_spec(program).0) <= operations(program),
        eliminate_spec(program).1 <==> size(eliminate_spec(program).0) < size(program),
        !eliminate_spec(program).1 ==> eliminate_spec(program).0 == program,
{
    lemma_eliminate_blocks(program, program.blocks.len() as int);
    if !eliminate_spec(program).1 {
        assert(eliminate_spec(program).0.blocks =~= program.blocks);
    }
}

/// Folding one instruction replaces it by a constant, and says so, or
/// leaves it as it is.
pub proof fn lemma_fold_instruction(instruction: InstructionView, state: FoldState)
    ensures
        fold_instruction(instruction, state) matches Ok((folded, next)) ==> {
            &&& (state.changed ==> next.changed)
            &&& (!is_operation(instruction) ==> folded == instruction && next.changed == state.changed)
            &&& (folded != instruction ==> next.changed && is_operation(instruction) && !is_operation(folded))
            &&& (next.changed != state.changed ==> folded != instruction)
        },
{
}

/// A scan over instructions keeps their number and adds no operation.
/// Where it replaces none it leaves them as they are; where it first
/// replaces one, the operations become fewer.
pub proof fn lemma_fold_instructions(
    instructions: Seq<InstructionView>,
    from: int,
    state: FoldState,
    done: Seq<InstructionView>,
)
    requires
        0 <= from <= instructions.len(),
    ensures
        fold_instructions(instructions, from, state, done) matches Ok((out, next)) ==> {
            &&& out.len() == done.len() + instructions.len() - from
            &&& (state.changed ==> next.changed)
            &&& operations_in(out, out.len() as int) + operations_in(instructions, from) <= operations_in(
                done,
                done.len() as int,
            ) + operations_in(instructions, instructions.len() as int)
            &&& (!state.changed && next.changed ==> operations_in(out, out.len() as int) + operations_in(
                instructions,
                from,
            ) < operations_in(done, done.len() as int) + operations_in(
                instructions,
                instructions.len() as int,
            ))
            &&& (!next.changed ==> out == done + instructions.subrange(from, instructions.len() as int))
        },
    decreases instructions.len() - from,
{
    if from < instructions.len() {
        lemma_fold_instruction(instructions[from], state);
        match fold_instruction(instructions[from], state) {
            Ok((folded, next)) => {
                lemma_fold_instructions(instructions, from + 1, next, done.push(folded));
                lemma_operations_push(done, folded);
                match fold_instructions(instructions, from + 1, next, done.push(folded)) {
                    Ok((out, last)) => {
                        if !last.changed {
                            assert(done.push(folded) + instructions.subrange(
                                from + 1,
                                instructions.len() as int,
                            ) =~= done + instructions.subrange(from, instructions.len() as int));
                        }
                    },
                    Err(_) => {},
                }
            },
            Err(_) => {},
        }
    } else {
        assert(done + instructions.subrange(from, instructions.len() as int) =~= done);
    }
}

/// The numbers of instructions and operations in the first blocks depend
/// on those blocks alone.
pub proof fn lemma_counts_prefix(a: Seq<BlockView>, b: Seq<BlockView>, upto: int)
    requires
        0 <= upto <= a.len(),
        upto <= b.len(),
        forall|i: int| 0 <= i < upto ==> a[i] == b[i],
    ensures
        instruction_count(a, upto) == instruction_count(b, upto),
        operation_count(a, upto) == operation_count(b, upto),
    decreases upto,
{
    if upto > 0 {
        lemma_counts_prefix(a, b, upto - 1);
    }
}

/// A scan over blocks keeps the number of instructions and adds no
/// operation. Where it replaces no instruction it leaves the blocks as
/// they are; where it first replaces one, the operations become fewer.
pub proof fn lemma_fold_blocks(blocks: Seq<BlockView>, from: int, state: FoldState, done: Seq<BlockView>)
    requires
        0 <= from <= blocks.len(),
    ensures
        fold_blocks(blocks, from, state, done) matches Ok((out, next)) ==> {
            &&& out.len() == done.len() + blocks.len() - from
            &&& (state.changed ==> next.changed)
            &&& instruction_count(out, out.len() as int) + instruction_count(blocks, from)
                == instruction_count(done, done.len() as int) + instruction_count(
                blocks,
                blocks.len() as int,
            )
            &&& operation_count(out, out.len() as int) + operation_count(blocks, from) <= operation_count(
                done,
                done.len() as int,
            ) + operation_count(blocks, blocks.len() as int)
            &&& (!state.changed && next.changed ==> operation_count(out, out.len() as int)
                + operation_count(blocks, from) < operation_count(done, done.len() as int)
                + operation_count(blocks, blocks.len() as int))
            &&& (!next.changed ==> out == done + blocks.subrange(from, blocks.len() as int))
        },
    decreases blocks.len() - from,
{
    if from < blocks.len() {
        let block = blocks[from];
        lemma_fold_instructions(block.instructions, 0, state, Seq::empty());
        match fold_instructions(block.instructions, 0, state, Seq::empty()) {
            Ok((instructions, next)) => {
                let folded = BlockView { instructions, ..block };
                lemma_fold_blocks(blocks, from + 1, next, done.push(folded));
                lemma_counts_prefix(done.push(folded), done, done.len() as int);
                if !next.changed {
                    assert(Seq::<InstructionView>::empty() + block.instructions.subrange(
                        0,
                        block.instructions.len() as int,
                    ) =~= block.instructions);
                    assert(folded == block);
                }
                match fold_blocks(blocks, from + 1, next, done.push(folded)) {
                    Ok((out, last)) => {
                        if !last.changed {
                            assert(done.push(folded) + blocks.subrange(from + 1, blocks.len() as int)
                                =~= done + blocks.subrange(from, blocks.len() as int));
                        }
                    },
                    Err(_) => {},
                }
            },
            Err(_) => {},
        }
    } else {
        assert(done + blocks.subrange(from, blocks.len() as int) =~= done);
    }
}

/// A scan keeps the size of the program. Where it replaces no instruction
/// it leaves the program as it is; where it replaces one, the operations
/// become fewer.
pub proof fn lemma_fold_scan(program: ProgramView, known: Constants)
    ensures
        fold_scan(program, known) matches Ok((after, state)) ==> {
            &&& size(after) == size(program)
            &&& operations(after) <= operations(program)
            &&& (state.changed ==> operations(after) < operations(program))
            &&& (!state.changed ==> after == program)
        },
{
    lemma_fold_blocks(program.blocks, 0, FoldState { known, changed: false }, Seq::empty());
    match fold_blocks(program.blocks, 0, FoldState { known, changed: false }, Seq::empty()) {
        Ok((blocks, state)) => {
            if !state.changed {
                assert(Seq::<BlockView>::empty() + program.blocks.subrange(0, program.blocks.len() as int)
                    =~= program.blocks);
            }
        },
        Err(_) => {},
    }
}

/// Scans the program again and again, each scan with the constants that
/// the scans before it found, until a scan replaces nothing.
pub open spec fn fold_repeat(program: ProgramView, known: Constants) -> Result<ProgramView, OptimizeErrorView>
    decreases operations(program),
{
    match fold_scan(program, known) {
        Ok((after, state)) => {
            if state.changed {
                proof {
                    lemma_fold_scan(program, known);
                }
                fold_repeat(after, state.known)
            } else {
                Ok(after)
            }
        },
        Err(e) => Err(e),
    }
}

/// Constant folding: the program in which every operation on constants
/// that are known, in place or by name, is replaced by its value, as long
/// as that gives new constants; and whether any instruction was replaced.
/// It fails where an operation would divide by a constant zero.
pub open spec fn fold_spec(program: ProgramView) -> Result<(ProgramView, bool), OptimizeErrorView> {
    match fold_repeat(program, Seq::empty()) {
        Ok(after) => Ok((after, operations(after) < operations(program))),
        Err(e) => Err(e),
    }
}

/// Repeated scans keep the size of the program and add no operation.
/// Where the first scan replaces no instruction the program stays as it
/// is; where it replaces one, the operations become fewer.
pub proof fn lemma_fold_repeat(program: ProgramView, known: Constants)
    ensures
        fold_repeat(program, known) matches Ok(after) ==> {
            &&& size(after) == size(program)
            &&& operations(after) <= operations(program)
            &&& (operations(after) == operations(program) ==> after == program)
            &&& (fold_scan(program, known) matches Ok((_, state)) && (state.changed <==> operations(after)
                < operations(program)))
        },
    decreases operations(program),
{
    lemma_fold_scan(program, known);
    match fold_scan(program, known) {
        Ok((after, state)) => {
            if state.changed {
                lemma_fold_repeat(after, state.known);
            }
        },
        Err(_) => {},
    }
}

/// Constant folding keeps the size of the program; it makes the
/// operations fewer or leaves the program as it is.
pub proof fn lemma_fold(program: ProgramView)
    ensures
        fold_spec(program) matches Ok((after, changed)) ==> {
            &&& size(after) == size(program)
            &&& operations(after) <= operations(program)
            &&& (changed <==> operations(after) < operations(program))
            &&& (!changed ==> after == program)
        },
{
    lemma_fold_repeat(program, Seq::empty());
}

/// One round of optimization: dead-code elimination, then constant
/// folding; and whether either changed the program.
pub open spec fn round_spec(program: ProgramView) -> Result<(ProgramView, bool), OptimizeErrorView> {
    let (live, removed) = eliminate_spec(program);
    match fold_spec(live) {
        Ok((after, folded)) => Ok((after, removed || folded)),
        Err(e) => Err(e),
    }
}

/// A round that changes the program makes it smaller: fewer instructions,
/// or as many with fewer operations among them. A round that does not
/// leaves it as it is.
pub proof fn lemma_round(program: ProgramView)
    ensures
        round_spec(program) matches Ok((after, changed)) ==> {
            &&& (changed ==> size(after) + operations(after) < size(program) + operations(program))
            &&& (!changed ==> after == program)
        },
{
    lemma_eliminate(program);
    lemma_fold(eliminate_spec(program).0);
}

/// Optimization: rounds of dead-code elimination and constant folding,
/// until a round changes nothing. It fails where folding fails.
pub open spec fn optimize_spec(program: ProgramView) -> Result<ProgramView, OptimizeErrorView>
    decreases size(program) + operations(program),
{
    match round_spec(program) {
        Ok((after, changed)) => {
            if changed {
                proof {
                    lemma_round(program);
                }
                optimize_spec(after)
            } else {
                Ok(after)
            }
        },
        Err(e) => Err(e),
    }
}

/// An optimized program is a fixed point of a round: neither pass finds
/// anything to change in it.
pub proof fn lemma_optimized_is_fixed(program: ProgramView)
    ensures
        optimize_spec(program) matches Ok(after) ==> round_spec(after) == Ok::<
            (ProgramView, bool),
            OptimizeErrorView,
        >((after, false)),
    decreases size(program) + operations(program),
{
    lemma_round(program);
    match round_spec(program) {
        Ok((after, changed)) => {
            if changed {
                lemma_optimized_is_fixed(after);
            }
        },
        Err(_) => {},
    }
}

/// Optimizing an optimized program changes nothing: the optimizer run
/// twice gives what it gives run once.
pub proof fn lemma_optimize_idempotent(program: ProgramView)
    ensures
        optimize_spec(program) matches Ok(after) ==> optimize_spec(after) == Ok::<
            ProgramView,
            OptimizeErrorView,
        >(after),
{
    lemma_optimized_is_fixed(program);
}

/// An optimized program holds no dead instruction and no operation on
/// known constants: dead-code elimination and constant folding both leave
/// it as it is.
pub proof fn lemma_optimized_has_no_dead_code(program: ProgramView)
    ensures
        optimize_spec(program) matches Ok(after) ==> eliminate_spec(after) == (after, false) && fold_spec(
            after,
        ) == Ok::<(ProgramView, bool), OptimizeErrorView>((after, false)),
{
    lemma_optimized_is_fixed(program);
    match optimize_spec(program) {
        Ok(after) => {
            lemma_eliminate(after);
            lemma_fold(eliminate_spec(after).0);
        },
        Err(_) => {},
    }
}

/// A program in which dead-code elimination and constant folding find
/// nothing to change is its own optimization.
pub proof fn lemma_optimize_keeps_fixed_point(program: ProgramView)
    requires
        eliminate_spec(program) == (program, false),
        fold_spec(program) matches Ok((_, changed)) && !changed,
    ensures
        optimize_spec(program) == Ok::<ProgramView, OptimizeErrorView>(program),
{
    lemma_fold(program);
}

} // verus!
