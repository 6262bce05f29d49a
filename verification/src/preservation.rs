//! Optimization does not change what a program computes: a run that has a
//! result has the same result once the program is optimized.

use vstd::prelude::*;
use crate::ir::{BlockView, InstructionView, OperandView, ProgramView, TerminatorView};
use crate::passes::{
    block_uses, blocks_uses, eliminate_spec, fold_blocks, fold_instruction, fold_instructions,
    fold_repeat, fold_scan, incoming_uses, instruction_uses, instructions_uses, is_live,
    lemma_fold_scan, lemma_round, live_instructions, operand_uses, operations, optimize_spec,
    resolve, round_spec, size, terminator_uses, uses, Constants, FoldState,
};
use crate::ast::{ParameterView, StatementView};
use crate::builder::{lower_body_spec, lower_spec};
use crate::names::{lemma_ssa_name_injective, ssa_name};
use crate::ssa::{
    is_ssa, is_versioned, lemma_lower_body_is_ssa, lemma_lower_body_is_versioned, lemma_lower_is_ssa,
    lemma_lower_is_versioned,
};
use crate::structure::{lemma_eliminate_keeps, lemma_fold_scan_keeps, lemma_origin, origin};
use crate::table::{find, lemma_find_put};
use crate::semantics::{
    block_index, env_after, incoming_from, instruction_value, operand_value, run, run_from,
    successor, Env,
};

verus! {

/// Every name in `used` that has a value in `a` has the same value in `b`.
pub open spec fn agree(used: Seq<Seq<char>>, a: Env, b: Env) -> bool {
    forall|name: Seq<char>|
        used.contains(name) && #[trigger] a.dom().contains(name) ==> b.dom().contains(name) && b[name]
            == a[name]
}

/// Every name in `part` is in `whole`.
pub open spec fn within(part: Seq<Seq<char>>, whole: Seq<Seq<char>>) -> bool {
    forall|k: int| 0 <= k < part.len() ==> whole.contains(#[trigger] part[k])
}

/// What is within a part of a concatenation is within the whole.
pub proof fn lemma_within_concat(part: Seq<Seq<char>>, left: Seq<Seq<char>>, right: Seq<Seq<char>>)
    requires
        within(part, left) || within(part, right),
    ensures
        within(part, left + right),
{
    assert forall|k: int| 0 <= k < part.len() implies (left + right).contains(#[trigger] part[k]) by {
        if within(part, left) {
            let j = choose|j: int| 0 <= j < left.len() && left[j] == part[k];
            assert((left + right)[j] == part[k]);
        } else {
            let j = choose|j: int| 0 <= j < right.len() && right[j] == part[k];
            assert((left + right)[left.len() + j] == part[k]);
        }
    }
}

/// A sequence is within itself.
pub proof fn lemma_within_self(s: Seq<Seq<char>>)
    ensures
        within(s, s),
{
}

/// The uses of an incoming operand are among the uses of the phi.
pub proof fn lemma_incoming_used(incoming: Seq<(Seq<char>, OperandView)>, upto: int, k: int)
    requires
        0 <= k < upto <= incoming.len(),
    ensures
        within(operand_uses(incoming[k].1), incoming_uses(incoming, upto)),
    decreases upto,
{
    if k == upto - 1 {
        lemma_within_self(operand_uses(incoming[k].1));
    } else {
        lemma_incoming_used(incoming, upto - 1, k);
    }
    lemma_within_concat(
        operand_uses(incoming[k].1),
        incoming_uses(incoming, upto - 1),
        operand_uses(incoming[upto - 1].1),
    );
}

/// The uses of an instruction are among the uses of its block.
pub proof fn lemma_instruction_used(instructions: Seq<InstructionView>, upto: int, k: int)
    requires
        0 <= k < upto <= instructions.len(),
    ensures
        within(instruction_uses(instructions[k]), instructions_uses(instructions, upto)),
    decreases upto,
{
    if k == upto - 1 {
        lemma_within_self(instruction_uses(instructions[k]));
    } else {
        lemma_instruction_used(instructions, upto - 1, k);
    }
    lemma_within_concat(
        instruction_uses(instructions[k]),
        instructions_uses(instructions, upto - 1),
        instruction_uses(instructions[upto - 1]),
    );
}

/// The uses of a block are among the uses of the program.
pub proof fn lemma_block_used(blocks: Seq<BlockView>, upto: int, k: int)
    requires
        0 <= k < upto <= blocks.len(),
    ensures
        within(block_uses(blocks[k]), blocks_uses(blocks, upto)),
    decreases upto,
{
    if k == upto - 1 {
        lemma_within_self(block_uses(blocks[k]));
    } else {
        lemma_block_used(blocks, upto - 1, k);
    }
    lemma_within_concat(block_uses(blocks[k]), blocks_uses(blocks, upto - 1), block_uses(blocks[upto - 1]));
}

/// Being within is transitive.
pub proof fn lemma_within_trans(a: Seq<Seq<char>>, b: Seq<Seq<char>>, c: Seq<Seq<char>>)
    requires
        within(a, b),
        within(b, c),
    ensures
        within(a, c),
{
    assert forall|k: int| 0 <= k < a.len() implies c.contains(#[trigger] a[k]) by {
        let j = choose|j: int| 0 <= j < b.len() && b[j] == a[k];
        assert(c.contains(b[j]));
    }
}

/// The uses of every instruction and of every terminator of a program are
/// among the uses of the program.
pub proof fn lemma_program_uses(program: ProgramView, b: int)
    requires
        0 <= b < program.blocks.len(),
    ensures
        within(terminator_uses(program.blocks[b].terminator), uses(program)),
        forall|i: int|
            0 <= i < program.blocks[b].instructions.len() ==> within(
                instruction_uses(#[trigger] program.blocks[b].instructions[i]),
                uses(program),
            ),
{
    let block = program.blocks[b];
    let inner = instructions_uses(block.instructions, block.instructions.len() as int);
    lemma_block_used(program.blocks, program.blocks.len() as int, b);
    lemma_within_self(terminator_uses(block.terminator));
    lemma_within_concat(terminator_uses(block.terminator), inner, terminator_uses(block.terminator));
    lemma_within_trans(terminator_uses(block.terminator), block_uses(block), uses(program));
    assert forall|i: int| 0 <= i < block.instructions.len() implies within(
        instruction_uses(#[trigger] block.instructions[i]),
        uses(program),
    ) by {
        lemma_instruction_used(block.instructions, block.instructions.len() as int, i);
        lemma_within_concat(instruction_uses(block.instructions[i]), inner, terminator_uses(block.terminator));
        lemma_within_trans(instruction_uses(block.instructions[i]), block_uses(block), uses(program));
    }
}

/// An operand whose uses are in `used` has the same value in two
/// environments that agree.
pub proof fn lemma_operand_agrees(used: Seq<Seq<char>>, a: Env, b: Env, operand: OperandView)
    requires
        agree(used, a, b),
        within(operand_uses(operand), used),
        operand_value(a, operand) is Some,
    ensures
        operand_value(b, operand) == operand_value(a, operand),
{
    if let OperandView::Variable(name) = operand {
        assert(operand_uses(operand)[0] == name);
        assert(used.contains(name));
    }
}

/// The operand that a phi lists for a block is one of its operands.
pub proof fn lemma_incoming_from(incoming: Seq<(Seq<char>, OperandView)>, from: Seq<char>, start: int)
    requires
        0 <= start,
    ensures
        incoming_from(incoming, from, start) matches Some(operand) ==> exists|k: int|
            start <= k < incoming.len() && (#[trigger] incoming[k]).1 == operand,
    decreases incoming.len() - start,
{
    if start < incoming.len() && incoming[start].0 != from {
        lemma_incoming_from(incoming, from, start + 1);
    }
}

/// Parts of what is within are within.
pub proof fn lemma_within_parts(left: Seq<Seq<char>>, right: Seq<Seq<char>>, whole: Seq<Seq<char>>)
    requires
        within(left + right, whole),
    ensures
        within(left, whole),
        within(right, whole),
{
    assert forall|k: int| 0 <= k < left.len() implies whole.contains(#[trigger] left[k]) by {
        assert((left + right)[k] == left[k]);
    }
    assert forall|k: int| 0 <= k < right.len() implies whole.contains(#[trigger] right[k]) by {
        assert((left + right)[left.len() + k] == right[k]);
    }
}

/// An instruction whose uses are in `used` computes the same value in two
/// environments that agree.
pub proof fn lemma_instruction_agrees(
    used: Seq<Seq<char>>,
    a: Env,
    b: Env,
    instruction: InstructionView,
    from: Option<Seq<char>>,
)
    requires
        agree(used, a, b),
        within(instruction_uses(instruction), used),
        instruction_value(a, instruction, from) is Some,
    ensures
        instruction_value(b, instruction, from) == instruction_value(a, instruction, from),
{
    match instruction {
        InstructionView::Constant { .. } => {},
        InstructionView::Binary { left, right, .. } => {
            lemma_within_parts(operand_uses(left), operand_uses(right), used);
            lemma_operand_agrees(used, a, b, left);
            lemma_operand_agrees(used, a, b, right);
        },
        InstructionView::Comparison { left, right, .. } => {
            lemma_within_parts(operand_uses(left), operand_uses(right), used);
            lemma_operand_agrees(used, a, b, left);
            lemma_operand_agrees(used, a, b, right);
        },
        InstructionView::Phi { incoming, .. } => {
            let block = from->Some_0;
            lemma_incoming_from(incoming, block, 0);
            let operand = incoming_from(incoming, block, 0)->Some_0;
            let k = choose|k: int| 0 <= k < incoming.len() && (#[trigger] incoming[k]).1 == operand;
            lemma_incoming_used(incoming, incoming.len() as int, k);
            lemma_within_trans(operand_uses(operand), instruction_uses(instruction), used);
            lemma_operand_agrees(used, a, b, operand);
        },
    }
}

/// The values after the first instructions depend on those instructions
/// alone.
pub proof fn lemma_env_after_prefix(
    env: Env,
    a: Seq<InstructionView>,
    b: Seq<InstructionView>,
    from: Option<Seq<char>>,
    upto: int,
)
    requires
        0 <= upto <= a.len(),
        upto <= b.len(),
        forall|i: int| 0 <= i < upto ==> a[i] == b[i],
    ensures
        env_after(env, a, from, upto) == env_after(env, b, from, upto),
    decreases upto,
{
    if upto > 0 {
        lemma_env_after_prefix(env, a, b, from, upto - 1);
    }
}

/// A run through the live instructions of a block keeps in step with a run
/// through all of them: every used name has the same value, and so has the
/// result of the last instruction where that is live.
pub proof fn lemma_live_run(
    used: Seq<Seq<char>>,
    block: BlockView,
    a: Env,
    b: Env,
    from: Option<Seq<char>>,
    upto: int,
)
    requires
        0 <= upto <= block.instructions.len(),
        agree(used, a, b),
        forall|i: int|
            0 <= i < block.instructions.len() ==> within(
                instruction_uses(#[trigger] block.instructions[i]),
                used,
            ),
        env_after(a, block.instructions, from, upto) is Some,
    ensures
        ({
            let live = live_instructions(used, block, upto);
            let full = env_after(a, block.instructions, from, upto)->Some_0;
            &&& env_after(b, live, from, live.len() as int) matches Some(kept) && agree(used, full, kept) && (
            upto > 0 && is_live(used, block, upto - 1) ==> kept[block.instructions[upto - 1].result()]
                == full[block.instructions[upto - 1].result()])
        }),
    decreases upto,
{
    if upto > 0 {
        lemma_live_run(used, block, a, b, from, upto - 1);
        let before = live_instructions(used, block, upto - 1);
        let live = live_instructions(used, block, upto);
        let full_before = env_after(a, block.instructions, from, upto - 1)->Some_0;
        let kept_before = env_after(b, before, from, before.len() as int)->Some_0;
        let instruction = block.instructions[upto - 1];
        let value = instruction_value(full_before, instruction, from)->Some_0;
        let full = full_before.insert(instruction.result(), value);
        if is_live(used, block, upto - 1) {
            lemma_env_after_prefix(b, live, before, from, before.len() as int);
            lemma_instruction_agrees(used, full_before, kept_before, instruction, from);
            let kept = kept_before.insert(instruction.result(), value);
            assert(live[before.len() as int] == instruction);
            assert(env_after(b, live, from, live.len() as int) == Some(kept));
            assert(agree(used, full, kept));
        } else {
            assert(!used.contains(instruction.result()));
            assert(agree(used, full, kept_before));
        }
    }
}

/// The index of a block depends on the names of the blocks alone.
pub proof fn lemma_block_index_same(a: Seq<BlockView>, b: Seq<BlockView>, name: Seq<char>, start: int)
    requires
        a.len() == b.len(),
        forall|i: int| 0 <= i < a.len() ==> (#[trigger] a[i]).name == b[i].name,
    ensures
        block_index(a, name, start) == block_index(b, name, start),
    decreases a.len() - start,
{
    if 0 <= start < a.len() && a[start].name != name {
        lemma_block_index_same(a, b, name, start + 1);
    }
}

/// An index that `block_index` finds is an index of a block.
pub proof fn lemma_block_index_bounds(blocks: Seq<BlockView>, name: Seq<char>, start: int)
    requires
        0 <= start,
    ensures
        block_index(blocks, name, start) matches Some(k) ==> start <= k < blocks.len(),
    decreases blocks.len() - start,
{
    if start < blocks.len() && blocks[start].name != name {
        lemma_block_index_bounds(blocks, name, start + 1);
    }
}

/// A run of the program without its dead instructions keeps in step with a
/// run of the program.
pub proof fn lemma_eliminate_run_from(
    program: ProgramView,
    index: int,
    from: Option<Seq<char>>,
    a: Env,
    b: Env,
    fuel: nat,
)
    requires
        agree(uses(program), a, b),
        run_from(program, index, from, a, fuel) is Some,
    ensures
        run_from(eliminate_spec(program).0, index, from, b, fuel) == run_from(program, index, from, a, fuel),
    decreases fuel,
{
    let used = uses(program);
    let after = eliminate_spec(program).0;
    let block = program.blocks[index];
    let live = after.blocks[index];
    let n = block.instructions.len() as int;
    lemma_program_uses(program, index);
    lemma_live_run(used, block, a, b, from, n);
    let full = env_after(a, block.instructions, from, n)->Some_0;
    let kept = env_after(b, live.instructions, from, live.instructions.len() as int)->Some_0;
    match block.terminator {
        None => {
            if n > 0 {
                assert(is_live(used, block, n - 1));
                assert(live.instructions.last() == block.instructions[n - 1]);
            } else {
                assert(live.instructions.len() == 0);
            }
        },
        Some(terminator) => {
            if let TerminatorView::Branch { condition, .. } = terminator {
                lemma_operand_agrees(used, full, kept, condition);
            }
            let target = successor(terminator, full)->Some_0;
            lemma_block_index_same(program.blocks, after.blocks, target, 0);
            lemma_block_index_bounds(program.blocks, target, 0);
            let next = block_index(program.blocks, target, 0)->Some_0;
            lemma_eliminate_run_from(program, next, Some(block.name), full, kept, (fuel - 1) as nat);
        },
    }
}

/// Dead-code elimination does not change what a program computes: a run
/// that has a result has the same result without the dead instructions.
pub proof fn lemma_eliminate_preserves(program: ProgramView, env: Env, fuel: nat)
    requires
        run(program, env, fuel) is Some,
    ensures
        run(eliminate_spec(program).0, env, fuel) == run(program, env, fuel),
{
    let after = eliminate_spec(program).0;
    lemma_block_index_same(program.blocks, after.blocks, program.entry, 0);
    let entry = block_index(program.blocks, program.entry, 0)->Some_0;
    lemma_eliminate_run_from(program, entry, None, env, env, fuel);
}

/// The state of a folding scan before the instruction at index `upto` of
/// a block that the scan enters in `state`.
pub open spec fn state_before(instructions: Seq<InstructionView>, state: FoldState, upto: int) -> FoldState
    decreases upto,
{
    if upto <= 0 || upto > instructions.len() {
        state
    } else {
        match fold_instruction(instructions[upto - 1], state_before(instructions, state, upto - 1)) {
            Ok((_, next)) => next,
            Err(_) => state,
        }
    }
}

/// The state of a folding scan before the block at index `upto`, where the
/// scan begins in `state`.
pub open spec fn state_before_block(blocks: Seq<BlockView>, state: FoldState, upto: int) -> FoldState
    decreases upto,
{
    if upto <= 0 || upto > blocks.len() {
        state
    } else {
        state_before(
            blocks[upto - 1].instructions,
            state_before_block(blocks, state, upto - 1),
            blocks[upto - 1].instructions.len() as int,
        )
    }
}

/// What the scan makes of the instruction at `index`.
pub open spec fn folded_at(instructions: Seq<InstructionView>, state: FoldState, index: int) -> InstructionView {
    match fold_instruction(instructions[index], state_before(instructions, state, index)) {
        Ok((folded, _)) => folded,
        Err(_) => instructions[index],
    }
}

/// A scan over the instructions of a block gives, place by place, what
/// folding makes of each instruction in the state that the scan has
/// arrived at.
pub proof fn lemma_fold_instructions_places(
    instructions: Seq<InstructionView>,
    from: int,
    start: FoldState,
    done: Seq<InstructionView>,
)
    requires
        0 <= from <= instructions.len(),
        done.len() == from,
        forall|j: int| 0 <= j < from ==> done[j] == folded_at(instructions, start, j),
    ensures
        fold_instructions(instructions, from, state_before(instructions, start, from), done) matches Ok(
            (out, last),
        ) ==> {
            &&& out.len() == instructions.len()
            &&& last == state_before(instructions, start, instructions.len() as int)
            &&& forall|j: int| 0 <= j < instructions.len() ==> out[j] == folded_at(instructions, start, j)
        },
    decreases instructions.len() - from,
{
    let state = state_before(instructions, start, from);
    if from < instructions.len() {
        if let Ok((folded, next)) = fold_instruction(instructions[from], state) {
            assert(next == state_before(instructions, start, from + 1));
            let more = done.push(folded);
            assert forall|j: int| 0 <= j < from + 1 implies more[j] == folded_at(instructions, start, j) by {
                if j < from {
                    assert(more[j] == done[j]);
                }
            }
            lemma_fold_instructions_places(instructions, from + 1, start, more);
        }
    }
}

/// What the scan makes of the block at `index`.
pub open spec fn folded_block_at(blocks: Seq<BlockView>, state: FoldState, index: int) -> BlockView {
    let entered = state_before_block(blocks, state, index);
    BlockView {
        instructions: Seq::new(
            blocks[index].instructions.len(),
            |j: int| folded_at(blocks[index].instructions, entered, j),
        ),
        ..blocks[index]
    }
}

/// A scan over the blocks gives, place by place, what folding makes of
/// each block in the state that the scan has arrived at.
pub proof fn lemma_fold_blocks_places(blocks: Seq<BlockView>, from: int, start: FoldState, done: Seq<BlockView>)
    requires
        0 <= from <= blocks.len(),
        done.len() == from,
        forall|b: int| 0 <= b < from ==> done[b] == folded_block_at(blocks, start, b),
    ensures
        fold_blocks(blocks, from, state_before_block(blocks, start, from), done) matches Ok((out, last)) ==> {
            &&& out.len() == blocks.len()
            &&& last == state_before_block(blocks, start, blocks.len() as int)
            &&& forall|b: int| 0 <= b < blocks.len() ==> out[b] == folded_block_at(blocks, start, b)
        },
    decreases blocks.len() - from,
{
    let state = state_before_block(blocks, start, from);
    if from < blocks.len() {
        let block = blocks[from];
        lemma_fold_instructions_places(block.instructions, 0, state, Seq::empty());
        if let Ok((instructions, next)) = fold_instructions(block.instructions, 0, state, Seq::empty()) {
            let folded = BlockView { instructions, ..block };
            assert(next == state_before_block(blocks, start, from + 1));
            assert(folded.instructions =~= folded_block_at(blocks, start, from).instructions);
            let more = done.push(folded);
            assert forall|b: int| 0 <= b < from + 1 implies more[b] == folded_block_at(blocks, start, b) by {
                if b < from {
                    assert(more[b] == done[b]);
                }
            }
            lemma_fold_blocks_places(blocks, from + 1, start, more);
        }
    }
}

/// The program has an instruction that defines `name` as the constant
/// `value`.
pub open spec fn has_constant(program: ProgramView, name: Seq<char>, value: i64) -> bool {
    exists|b: int, i: int|
        0 <= b < program.blocks.len() && 0 <= i < program.blocks[b].instructions.len()
            && #[trigger] program.blocks[b].instructions[i] == (InstructionView::Constant {
            result: name,
            value,
        })
}

/// Every constant that is known by name is defined as that constant by an
/// instruction of the program.
pub open spec fn known_in(known: Constants, program: ProgramView) -> bool {
    forall|name: Seq<char>| #[trigger] find(known, name) is Some ==> has_constant(program, name, find(known, name)->Some_0)
}

/// Every name that an instruction of the program defines as a constant
/// has that constant as its value, where it has a value.
pub open spec fn respects(env: Env, program: ProgramView) -> bool {
    forall|b: int, i: int|
        0 <= b < program.blocks.len() && 0 <= i < program.blocks[b].instructions.len() ==> (
        #[trigger] program.blocks[b].instructions[i] matches InstructionView::Constant { result, value }
            ==> env.dom().contains(result) ==> env[result] == value)
}

/// What a scan knows before an instruction, it knew when it entered the
/// block, or has from a constant that it has made or met in the block.
pub proof fn lemma_state_before_known(instructions: Seq<InstructionView>, start: FoldState, upto: int, name: Seq<char>)
    requires
        0 <= upto <= instructions.len(),
        find(state_before(instructions, start, upto).known, name) is Some,
    ensures
        find(start.known, name) == find(state_before(instructions, start, upto).known, name) || exists|
            j: int,
        |
            0 <= j < upto && #[trigger] folded_at(instructions, start, j) == (InstructionView::Constant {
                result: name,
                value: find(state_before(instructions, start, upto).known, name)->Some_0,
            }),
    decreases upto,
{
    if upto > 0 {
        let before = state_before(instructions, start, upto - 1);
        let value = find(state_before(instructions, start, upto).known, name)->Some_0;
        match fold_instruction(instructions[upto - 1], before) {
            Ok((folded, next)) => {
                if find(before.known, name) == Some(value) {
                    lemma_state_before_known(instructions, start, upto - 1, name);
                    if !(find(start.known, name) == Some(value)) {
                        let j = choose|j: int|
                            0 <= j < upto - 1 && #[trigger] folded_at(instructions, start, j) == (
                            InstructionView::Constant { result: name, value });
                        assert(folded_at(instructions, start, j) == (InstructionView::Constant {
                            result: name,
                            value,
                        }));
                    }
                } else {
                    // the entry is new: it comes from this instruction
                    if let InstructionView::Constant { result, value: v } = folded {
                        lemma_find_put(before.known, result, v, name);
                    }
                    assert(folded_at(instructions, start, upto - 1) == (InstructionView::Constant {
                        result: name,
                        value,
                    }));
                }
            },
            Err(_) => {},
        }
    }
}

/// What a scan knows before a block, it knew when it began, or has from a
/// constant that it has made or met in a block before.
pub proof fn lemma_state_before_block_known(blocks: Seq<BlockView>, start: FoldState, upto: int, name: Seq<char>)
    requires
        0 <= upto <= blocks.len(),
        find(state_before_block(blocks, start, upto).known, name) is Some,
    ensures
        find(start.known, name) == find(state_before_block(blocks, start, upto).known, name) || exists|
            b: int,
            j: int,
        |
            0 <= b < upto && 0 <= j < blocks[b].instructions.len() && #[trigger] folded_block_at(
                blocks,
                start,
                b,
            ).instructions[j] == (InstructionView::Constant {
                result: name,
                value: find(state_before_block(blocks, start, upto).known, name)->Some_0,
            }),
    decreases upto,
{
    if upto > 0 {
        let entered = state_before_block(blocks, start, upto - 1);
        let block = blocks[upto - 1];
        let value = find(state_before_block(blocks, start, upto).known, name)->Some_0;
        lemma_state_before_known(block.instructions, entered, block.instructions.len() as int, name);
        if find(entered.known, name) == Some(value) {
            lemma_state_before_block_known(blocks, start, upto - 1, name);
            if !(find(start.known, name) == Some(value)) {
                let (b, j) = choose|b: int, j: int|
                    0 <= b < upto - 1 && 0 <= j < blocks[b].instructions.len() && #[trigger] folded_block_at(
                        blocks,
                        start,
                        b,
                    ).instructions[j] == (InstructionView::Constant { result: name, value });
                assert(folded_block_at(blocks, start, b).instructions[j] == (InstructionView::Constant {
                    result: name,
                    value,
                }));
            }
        } else {
            let j = choose|j: int|
                0 <= j < block.instructions.len() && #[trigger] folded_at(block.instructions, entered, j) == (
                InstructionView::Constant { result: name, value });
            assert(folded_block_at(blocks, start, upto - 1).instructions[j] == (InstructionView::Constant {
                result: name,
                value,
            }));
        }
    }
}

/// The state in which a scan over `program` begins.
pub open spec fn scan_start(known: Constants) -> FoldState {
    FoldState { known, changed: false }
}

/// The state of a scan over `program` before the instruction at index `i`
/// of the block at index `b`.
pub open spec fn scan_state(program: ProgramView, known: Constants, b: int, i: int) -> FoldState {
    state_before(
        program.blocks[b].instructions,
        state_before_block(program.blocks, scan_start(known), b),
        i,
    )
}

/// A scan gives, place by place, what folding makes of each instruction
/// in the state that the scan has arrived at.
pub proof fn lemma_scan_places(program: ProgramView, known: Constants)
    ensures
        fold_scan(program, known) matches Ok((after, last)) ==> {
            &&& after.entry == program.entry
            &&& after.blocks.len() == program.blocks.len()
            &&& last == state_before_block(program.blocks, scan_start(known), program.blocks.len() as int)
            &&& forall|b: int|
                0 <= b < program.blocks.len() ==> #[trigger] after.blocks[b] == folded_block_at(
                    program.blocks,
                    scan_start(known),
                    b,
                )
        },
{
    lemma_fold_blocks_places(program.blocks, 0, scan_start(known), Seq::empty());
}

/// Folding leaves a constant as it is.
pub proof fn lemma_constant_stays(program: ProgramView, known: Constants, name: Seq<char>, value: i64)
    requires
        has_constant(program, name, value),
        fold_scan(program, known) is Ok,
    ensures
        has_constant(fold_scan(program, known)->Ok_0.0, name, value),
{
    lemma_scan_places(program, known);
    let after = fold_scan(program, known)->Ok_0.0;
    let (b, i) = choose|b: int, i: int|
        0 <= b < program.blocks.len() && 0 <= i < program.blocks[b].instructions.len()
            && #[trigger] program.blocks[b].instructions[i] == (InstructionView::Constant {
            result: name,
            value,
        });
    assert(after.blocks[b] == folded_block_at(program.blocks, scan_start(known), b));
    assert(after.blocks[b].instructions[i] == (InstructionView::Constant { result: name, value }));
}

/// What a scan knows at any place is defined as a constant in the program
/// that the scan gives, where that held of what it knew to begin with.
pub proof fn lemma_scan_known(program: ProgramView, known: Constants, b: int, i: int)
    requires
        known_in(known, program),
        fold_scan(program, known) is Ok,
        0 <= b < program.blocks.len(),
        0 <= i <= program.blocks[b].instructions.len(),
    ensures
        known_in(scan_state(program, known, b, i).known, fold_scan(program, known)->Ok_0.0),
{
    lemma_scan_places(program, known);
    let after = fold_scan(program, known)->Ok_0.0;
    let entered = state_before_block(program.blocks, scan_start(known), b);
    let block = program.blocks[b];
    let state = scan_state(program, known, b, i);
    assert forall|name: Seq<char>| #[trigger] find(state.known, name) is Some implies has_constant(
        after,
        name,
        find(state.known, name)->Some_0,
    ) by {
        let value = find(state.known, name)->Some_0;
        lemma_state_before_known(block.instructions, entered, i, name);
        if find(entered.known, name) == Some(value) {
            lemma_state_before_block_known(program.blocks, scan_start(known), b, name);
            if find(known, name) == Some(value) {
                assert(find(known, name) is Some);
                lemma_constant_stays(program, known, name, value);
            } else {
                let (b2, j2) = choose|b2: int, j2: int|
                    0 <= b2 < b && 0 <= j2 < program.blocks[b2].instructions.len()
                        && #[trigger] folded_block_at(program.blocks, scan_start(known), b2).instructions[j2]
                        == (InstructionView::Constant { result: name, value });
                assert(after.blocks[b2] == folded_block_at(program.blocks, scan_start(known), b2));
                assert(after.blocks[b2].instructions[j2] == (InstructionView::Constant {
                    result: name,
                    value,
                }));
            }
        } else {
            let j = choose|j: int|
                0 <= j < i && #[trigger] folded_at(block.instructions, entered, j) == (
                InstructionView::Constant { result: name, value });
            assert(after.blocks[b] == folded_block_at(program.blocks, scan_start(known), b));
            assert(after.blocks[b].instructions[j] == (InstructionView::Constant { result: name, value }));
        }
    }
}

/// What a scan knows at its end is defined as a constant in the program
/// that the scan gives.
pub proof fn lemma_scan_known_last(program: ProgramView, known: Constants)
    requires
        known_in(known, program),
        fold_scan(program, known) is Ok,
    ensures
        known_in(fold_scan(program, known)->Ok_0.1.known, fold_scan(program, known)->Ok_0.0),
{
    lemma_scan_places(program, known);
    let n = program.blocks.len() as int;
    if n > 0 {
        lemma_scan_known(program, known, n - 1, program.blocks[n - 1].instructions.len() as int);
    } else {
        let after = fold_scan(program, known)->Ok_0.0;
        assert forall|name: Seq<char>| #[trigger] find(known, name) is Some implies has_constant(
            after,
            name,
            find(known, name)->Some_0,
        ) by {
            lemma_constant_stays(program, known, name, find(known, name)->Some_0);
        }
    }
}

/// An operand that folding resolves has the value that folding gives it,
/// where it has a value.
pub proof fn lemma_resolve_sound(known: Constants, program: ProgramView, env: Env, operand: OperandView)
    requires
        known_in(known, program),
        respects(env, program),
        operand_value(env, operand) is Some,
        resolve(known, operand) is Some,
    ensures
        resolve(known, operand) == operand_value(env, operand),
{
    if let OperandView::Variable(name) = operand {
        assert(find(known, name) is Some);
        let value = find(known, name)->Some_0;
        let (b, i) = choose|b: int, i: int|
            0 <= b < program.blocks.len() && 0 <= i < program.blocks[b].instructions.len()
                && #[trigger] program.blocks[b].instructions[i] == (InstructionView::Constant {
                result: name,
                value,
            });
        assert(program.blocks[b].instructions[i] matches InstructionView::Constant { result, value: v }
            && result == name && v == value);
    }
}

/// What folding makes of an instruction computes what the instruction
/// computes, where the instruction computes anything.
pub proof fn lemma_fold_instruction_sound(
    instruction: InstructionView,
    state: FoldState,
    program: ProgramView,
    env: Env,
    from: Option<Seq<char>>,
)
    requires
        known_in(state.known, program),
        respects(env, program),
        instruction_value(env, instruction, from) is Some,
    ensures
        fold_instruction(instruction, state) matches Ok((folded, _)) ==> instruction_value(env, folded, from)
            == instruction_value(env, instruction, from) && folded.result() == instruction.result(),
{
    match instruction {
        InstructionView::Binary { left, right, .. } => {
            if resolve(state.known, left) is Some && resolve(state.known, right) is Some {
                lemma_resolve_sound(state.known, program, env, left);
                lemma_resolve_sound(state.known, program, env, right);
            }
        },
        InstructionView::Comparison { left, right, .. } => {
            if resolve(state.known, left) is Some && resolve(state.known, right) is Some {
                lemma_resolve_sound(state.known, program, env, left);
                lemma_resolve_sound(state.known, program, env, right);
            }
        },
        _ => {},
    }
}

/// No name that the program defines has a value yet.
pub open spec fn clean(env: Env, program: ProgramView) -> bool {
    forall|b: int, i: int|
        0 <= b < program.blocks.len() && 0 <= i < program.blocks[b].instructions.len() ==> !env.dom().contains(
            (#[trigger] program.blocks[b].instructions[i]).result(),
        )
}

/// A run through the folded instructions of a block keeps in step with a
/// run through the instructions as they were.
pub proof fn lemma_fold_run_block(
    program: ProgramView,
    known: Constants,
    b: int,
    env: Env,
    from: Option<Seq<char>>,
    upto: int,
)
    requires
        known_in(known, program),
        fold_scan(program, known) is Ok,
        is_ssa(fold_scan(program, known)->Ok_0.0),
        respects(env, fold_scan(program, known)->Ok_0.0),
        0 <= b < program.blocks.len(),
        0 <= upto <= program.blocks[b].instructions.len(),
        env_after(env, program.blocks[b].instructions, from, upto) is Some,
    ensures
        ({
            let after = fold_scan(program, known)->Ok_0.0;
            &&& env_after(env, after.blocks[b].instructions, from, upto) == env_after(
                env,
                program.blocks[b].instructions,
                from,
                upto,
            )
            &&& respects(env_after(env, program.blocks[b].instructions, from, upto)->Some_0, after)
        }),
    decreases upto,
{
    let after = fold_scan(program, known)->Ok_0.0;
    lemma_scan_places(program, known);
    assert(after.blocks[b] == folded_block_at(program.blocks, scan_start(known), b));
    if upto > 0 {
        lemma_fold_run_block(program, known, b, env, from, upto - 1);
        let before = env_after(env, program.blocks[b].instructions, from, upto - 1)->Some_0;
        let instruction = program.blocks[b].instructions[upto - 1];
        let folded = after.blocks[b].instructions[upto - 1];
        let state = scan_state(program, known, b, upto - 1);
        lemma_scan_known(program, known, b, upto - 1);
        lemma_fold_instruction_sound(instruction, state, after, before, from);
        assert(folded == folded_at(
            program.blocks[b].instructions,
            state_before_block(program.blocks, scan_start(known), b),
            upto - 1,
        ));
        let value = instruction_value(before, instruction, from)->Some_0;
        assert(instruction_value(before, folded, from) == Some(value));
        assert(folded.result() == instruction.result());
        let next = before.insert(instruction.result(), value);
        assert forall|b2: int, i2: int|
            0 <= b2 < after.blocks.len() && 0 <= i2 < after.blocks[b2].instructions.len() implies (
        #[trigger] after.blocks[b2].instructions[i2] matches InstructionView::Constant { result, value: c }
            ==> next.dom().contains(result) ==> next[result] == c) by {
            if let InstructionView::Constant { result, value: c } = after.blocks[b2].instructions[i2] {
                if result == instruction.result() {
                    if b2 != b || i2 != upto - 1 {
                        assert(after.blocks[b2].instructions[i2].result() != after.blocks[b].instructions[upto
                            - 1].result());
                    }
                }
            }
        }
    }
}

/// A run of the folded program keeps in step with a run of the program as
/// it was.
pub proof fn lemma_fold_run_from(
    program: ProgramView,
    known: Constants,
    index: int,
    from: Option<Seq<char>>,
    env: Env,
    fuel: nat,
)
    requires
        known_in(known, program),
        fold_scan(program, known) is Ok,
        is_ssa(fold_scan(program, known)->Ok_0.0),
        respects(env, fold_scan(program, known)->Ok_0.0),
        run_from(program, index, from, env, fuel) is Some,
    ensures
        run_from(fold_scan(program, known)->Ok_0.0, index, from, env, fuel) == run_from(
            program,
            index,
            from,
            env,
            fuel,
        ),
    decreases fuel,
{
    let after = fold_scan(program, known)->Ok_0.0;
    lemma_scan_places(program, known);
    let block = program.blocks[index];
    let n = block.instructions.len() as int;
    assert(after.blocks[index] == folded_block_at(program.blocks, scan_start(known), index));
    lemma_fold_run_block(program, known, index, env, from, n);
    let full = env_after(env, block.instructions, from, n)->Some_0;
    match block.terminator {
        None => {
            if n > 0 {
                lemma_fold_run_block(program, known, index, env, from, n - 1);
                let before = env_after(env, block.instructions, from, n - 1)->Some_0;
                lemma_scan_known(program, known, index, n - 1);
                lemma_fold_instruction_sound(
                    block.instructions[n - 1],
                    scan_state(program, known, index, n - 1),
                    after,
                    before,
                    from,
                );
                assert(after.blocks[index].instructions[n - 1] == folded_at(
                    block.instructions,
                    state_before_block(program.blocks, scan_start(known), index),
                    n - 1,
                ));
            }
        },
        Some(terminator) => {
            let target = successor(terminator, full)->Some_0;
            assert forall|i: int| 0 <= i < program.blocks.len() implies (#[trigger] program.blocks[i]).name
                == after.blocks[i].name by {
                assert(after.blocks[i] == folded_block_at(program.blocks, scan_start(known), i));
            }
            lemma_block_index_same(program.blocks, after.blocks, target, 0);
            lemma_block_index_bounds(program.blocks, target, 0);
            let next = block_index(program.blocks, target, 0)->Some_0;
            lemma_fold_run_from(program, known, next, Some(block.name), full, (fuel - 1) as nat);
        },
    }
}

/// Where no defined name has a value, every constant of the program is
/// respected.
pub proof fn lemma_clean_respects(env: Env, program: ProgramView)
    requires
        clean(env, program),
    ensures
        respects(env, program),
{
    assert forall|b: int, i: int|
        0 <= b < program.blocks.len() && 0 <= i < program.blocks[b].instructions.len() implies (
    #[trigger] program.blocks[b].instructions[i] matches InstructionView::Constant { result, value }
        ==> env.dom().contains(result) ==> env[result] == value) by {
        assert(!env.dom().contains(program.blocks[b].instructions[i].result()));
    }
}

/// A scan defines the names that the program defined, in the same places.
pub proof fn lemma_scan_names(program: ProgramView, known: Constants)
    ensures
        fold_scan(program, known) matches Ok((after, _)) ==> {
            &&& after.blocks.len() == program.blocks.len()
            &&& after.entry == program.entry
            &&& forall|b: int|
                0 <= b < program.blocks.len() ==> (#[trigger] after.blocks[b]).instructions.len()
                    == program.blocks[b].instructions.len()
            &&& forall|b: int, i: int|
                0 <= b < program.blocks.len() && 0 <= i < program.blocks[b].instructions.len() ==> (
                #[trigger] after.blocks[b].instructions[i]).result()
                    == program.blocks[b].instructions[i].result()
        },
{
    lemma_scan_places(program, known);
    if let Ok((after, _)) = fold_scan(program, known) {
        assert forall|b: int| 0 <= b < program.blocks.len() implies (#[trigger] after.blocks[b]).instructions.len()
            == program.blocks[b].instructions.len() by {
            assert(after.blocks[b] == folded_block_at(program.blocks, scan_start(known), b));
        }
        assert forall|b: int, i: int|
            0 <= b < program.blocks.len() && 0 <= i < program.blocks[b].instructions.len() implies (
        #[trigger] after.blocks[b].instructions[i]).result() == program.blocks[b].instructions[i].result() by {
            assert(after.blocks[b] == folded_block_at(program.blocks, scan_start(known), b));
        }
    }
}

/// A scan does not change what a program in static single assignment form
/// computes.
pub proof fn lemma_scan_preserves(program: ProgramView, known: Constants, env: Env, fuel: nat)
    requires
        is_ssa(program),
        clean(env, program),
        known_in(known, program),
        run(program, env, fuel) is Some,
    ensures
        fold_scan(program, known) matches Ok((after, last)) ==> {
            &&& run(after, env, fuel) == run(program, env, fuel)
            &&& is_ssa(after)
            &&& clean(env, after)
            &&& known_in(last.known, after)
        },
{
    if let Ok((after, last)) = fold_scan(program, known) {
        lemma_scan_names(program, known);
        lemma_fold_scan_keeps(program, known);
        lemma_scan_known_last(program, known);
        assert(clean(env, after)) by {
            assert forall|b: int, i: int|
                0 <= b < after.blocks.len() && 0 <= i < after.blocks[b].instructions.len() implies !env.dom().contains(
                (#[trigger] after.blocks[b].instructions[i]).result(),
            ) by {
                assert(after.blocks[b].instructions[i].result() == program.blocks[b].instructions[i].result());
            }
        }
        lemma_clean_respects(env, after);
        assert forall|i: int| 0 <= i < program.blocks.len() implies (#[trigger] program.blocks[i]).name
            == after.blocks[i].name by {
            lemma_scan_places(program, known);
            assert(after.blocks[i] == folded_block_at(program.blocks, scan_start(known), i));
        }
        lemma_block_index_same(program.blocks, after.blocks, program.entry, 0);
        let entry = block_index(program.blocks, program.entry, 0)->Some_0;
        lemma_fold_run_from(program, known, entry, None, env, fuel);
    }
}

/// Repeated scans do not change what a program in static single
/// assignment form computes.
pub proof fn lemma_fold_repeat_preserves(program: ProgramView, known: Constants, env: Env, fuel: nat)
    requires
        is_ssa(program),
        clean(env, program),
        known_in(known, program),
        run(program, env, fuel) is Some,
    ensures
        fold_repeat(program, known) matches Ok(after) ==> run(after, env, fuel) == run(program, env, fuel)
            && is_ssa(after) && clean(env, after),
    decreases operations(program),
{
    lemma_scan_preserves(program, known, env, fuel);
    lemma_fold_scan(program, known);
    if let Ok((after, state)) = fold_scan(program, known) {
        if state.changed {
            lemma_fold_repeat_preserves(after, state.known, env, fuel);
        }
    }
}

/// Dead-code elimination defines no name that the program did not define.
pub proof fn lemma_eliminate_clean(program: ProgramView, env: Env)
    requires
        clean(env, program),
    ensures
        clean(env, eliminate_spec(program).0),
{
    let after = eliminate_spec(program).0;
    let used = uses(program);
    assert forall|b: int, i: int|
        0 <= b < after.blocks.len() && 0 <= i < after.blocks[b].instructions.len() implies !env.dom().contains(
        (#[trigger] after.blocks[b].instructions[i]).result(),
    ) by {
        let block = program.blocks[b];
        lemma_origin(used, block, block.instructions.len() as int, i);
        let o = origin(used, block, block.instructions.len() as int, i);
        assert(after.blocks[b].instructions[i] == program.blocks[b].instructions[o]);
    }
}

/// A round does not change what a program in static single assignment
/// form computes.
pub proof fn lemma_round_preserves(program: ProgramView, env: Env, fuel: nat)
    requires
        is_ssa(program),
        clean(env, program),
        run(program, env, fuel) is Some,
    ensures
        round_spec(program) matches Ok((after, _)) ==> run(after, env, fuel) == run(program, env, fuel)
            && is_ssa(after) && clean(env, after),
{
    let live = eliminate_spec(program).0;
    lemma_eliminate_preserves(program, env, fuel);
    lemma_eliminate_keeps(program);
    lemma_eliminate_clean(program, env);
    lemma_fold_repeat_preserves(live, Seq::empty(), env, fuel);
}

/// Optimization does not change what a program computes.
///
/// Take a program in which no two instructions define the same name, and
/// values on entry for names that the program does not define. Where the
/// run of the program has a result, the run of the optimized program has
/// the same result.
pub proof fn lemma_optimize_preserves(program: ProgramView, env: Env, fuel: nat)
    requires
        is_ssa(program),
        clean(env, program),
        run(program, env, fuel) is Some,
    ensures
        optimize_spec(program) matches Ok(after) ==> run(after, env, fuel) == run(program, env, fuel),
    decreases size(program) + operations(program),
{
    lemma_round_preserves(program, env, fuel);
    lemma_round(program);
    if let Ok((after, changed)) = round_spec(program) {
        if changed {
            lemma_optimize_preserves(after, env, fuel);
        }
    }
}

/// Every run of `before` that has a result, from values on entry for names
/// that `before` does not define, has the same result in `after`.
pub open spec fn same_results(before: ProgramView, after: ProgramView) -> bool {
    forall|env: Env, fuel: nat|
        clean(env, before) && (#[trigger] run(before, env, fuel)) is Some ==> run(after, env, fuel) == run(
            before,
            env,
            fuel,
        )
}

/// Optimization does not change what a program in static single
/// assignment form computes, whatever the values on entry and however long
/// the run.
pub proof fn lemma_optimize_same_results(program: ProgramView)
    requires
        is_ssa(program),
    ensures
        optimize_spec(program) matches Ok(after) ==> same_results(program, after),
{
    if let Ok(after) = optimize_spec(program) {
        assert forall|env: Env, fuel: nat|
            clean(env, program) && (#[trigger] run(program, env, fuel)) is Some implies run(after, env, fuel)
            == run(program, env, fuel) by {
            lemma_optimize_preserves(program, env, fuel);
        }
    }
}

/// Only names with the number zero have a value: the values that are
/// known on entry are those of parameters.
pub open spec fn is_entry_env(env: Env) -> bool {
    forall|name: Seq<char>| #[trigger]
        env.dom().contains(name) ==> exists|base: Seq<char>| #[trigger] ssa_name(base, 0) == name
}

/// The values of parameters are values for names that a lowered program
/// does not define.
pub proof fn lemma_entry_env_clean(env: Env, program: ProgramView)
    requires
        is_entry_env(env),
        is_versioned(program),
    ensures
        clean(env, program),
{
    assert forall|b: int, i: int|
        0 <= b < program.blocks.len() && 0 <= i < program.blocks[b].instructions.len() implies !env.dom().contains(
        (#[trigger] program.blocks[b].instructions[i]).result(),
    ) by {
        let name = program.blocks[b].instructions[i].result();
        if env.dom().contains(name) {
            let (base, n) = choose|base: Seq<char>, n: nat| #[trigger] ssa_name(base, n) == name && n >= 1;
            let other = choose|other: Seq<char>| #[trigger] ssa_name(other, 0) == name;
            lemma_ssa_name_injective(base, n, other, 0);
        }
    }
}

/// Optimization does not change what a lowered statement sequence
/// computes: where its run has a result, the run of the optimized program
/// has the same result.
pub proof fn lemma_lowered_optimize_preserves(stmts: Seq<StatementView>, env: Env, fuel: nat)
    requires
        is_entry_env(env),
    ensures
        lower_spec(stmts) matches Ok(program) ==> (optimize_spec(program) matches Ok(after) ==> (run(
            program,
            env,
            fuel,
        ) is Some ==> run(after, env, fuel) == run(program, env, fuel))),
{
    if let Ok(program) = lower_spec(stmts) {
        lemma_lower_is_ssa(stmts);
        lemma_lower_is_versioned(stmts);
        lemma_entry_env_clean(env, program);
        if run(program, env, fuel) is Some {
            lemma_optimize_preserves(program, env, fuel);
        }
    }
}

/// Optimization does not change what a lowered function body computes:
/// where its run on given values of the parameters has a result, the run of
/// the optimized program on those values has the same result.
pub proof fn lemma_lowered_body_optimize_preserves(
    parameters: Seq<ParameterView>,
    body: Seq<StatementView>,
    env: Env,
    fuel: nat,
)
    requires
        is_entry_env(env),
    ensures
        lower_body_spec(parameters, body) matches Ok(program) ==> (optimize_spec(program) matches Ok(
            after,
        ) ==> (run(program, env, fuel) is Some ==> run(after, env, fuel) == run(program, env, fuel))),
{
    if let Ok(program) = lower_body_spec(parameters, body) {
        lemma_lower_body_is_ssa(parameters, body);
        lemma_lower_body_is_versioned(parameters, body);
        lemma_entry_env_clean(env, program);
        if run(program, env, fuel) is Some {
            lemma_optimize_preserves(program, env, fuel);
        }
    }
}

} // verus!
