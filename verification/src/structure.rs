//! What optimization keeps: the blocks with their names, terminators and
//! predecessors, and static single assignment form.
//!
//! The optimizer removes instructions and replaces operations by constants
//! of the same name. It adds no block and no name.

use vstd::prelude::*;
use crate::ir::{BlockView, InstructionView, ProgramView};
use crate::passes::{
    eliminate_spec, fold_blocks, fold_instruction, fold_instructions, fold_repeat, fold_scan,
    is_live, lemma_fold_scan, lemma_round, live_instructions, operations, optimize_spec,
    round_spec, size, uses, Constants, FoldState,
};
use crate::ssa::is_ssa;

verus! {

/// Two blocks differ in their instructions at most.
pub open spec fn same_frame(a: BlockView, b: BlockView) -> bool {
    a.name == b.name && a.terminator == b.terminator && a.predecessors == b.predecessors
}

/// Two programs have the same entry and the same blocks in the same order,
/// up to the instructions in them.
pub open spec fn same_shape(a: ProgramView, b: ProgramView) -> bool {
    &&& a.entry == b.entry
    &&& a.blocks.len() == b.blocks.len()
    &&& forall|i: int| 0 <= i < a.blocks.len() ==> same_frame(#[trigger] a.blocks[i], b.blocks[i])
}

/// The index in `block` of the live instruction that is number `j` among
/// the live ones of the first `upto`.
pub open spec fn origin(used: Seq<Seq<char>>, block: BlockView, upto: int, j: int) -> int
    decreases upto,
{
    if upto <= 0 || upto > block.instructions.len() {
        0
    } else if is_live(used, block, upto - 1) {
        if j == live_instructions(used, block, upto - 1).len() {
            upto - 1
        } else {
            origin(used, block, upto - 1, j)
        }
    } else {
        origin(used, block, upto - 1, j)
    }
}

/// The live instructions are instructions of the block, in their order.
pub proof fn lemma_origin(used: Seq<Seq<char>>, block: BlockView, upto: int, j: int)
    requires
        0 <= upto <= block.instructions.len(),
        0 <= j < live_instructions(used, block, upto).len(),
    ensures
        0 <= origin(used, block, upto, j) < upto,
        live_instructions(used, block, upto)[j] == block.instructions[origin(used, block, upto, j)],
        forall|k: int|
            0 <= k < j ==> origin(used, block, upto, k) < origin(used, block, upto, j),
    decreases upto,
{
    if upto > 0 {
        let before = live_instructions(used, block, upto - 1);
        if j < before.len() {
            lemma_origin(used, block, upto - 1, j);
        }
        assert forall|k: int| 0 <= k < j implies origin(used, block, upto, k) < origin(
            used,
            block,
            upto,
            j,
        ) by {
            if k < before.len() {
                lemma_origin(used, block, upto - 1, k);
            }
        }
    }
}

/// Dead-code elimination keeps the shape of the program and its static
/// single assignment form.
pub proof fn lemma_eliminate_keeps(program: ProgramView)
    ensures
        same_shape(eliminate_spec(program).0, program),
        is_ssa(program) ==> is_ssa(eliminate_spec(program).0),
{
    let after = eliminate_spec(program).0;
    let used = uses(program);
    if is_ssa(program) {
        assert forall|b1: int, i1: int, b2: int, i2: int|
            0 <= b1 < after.blocks.len() && 0 <= i1 < after.blocks[b1].instructions.len() && 0 <= b2
                < after.blocks.len() && 0 <= i2 < after.blocks[b2].instructions.len() && (b1 != b2 || i1
                != i2) implies (#[trigger] after.blocks[b1].instructions[i1]).result()
            != (#[trigger] after.blocks[b2].instructions[i2]).result() by {
            let block1 = program.blocks[b1];
            let block2 = program.blocks[b2];
            lemma_origin(used, block1, block1.instructions.len() as int, i1);
            lemma_origin(used, block2, block2.instructions.len() as int, i2);
            let o1 = origin(used, block1, block1.instructions.len() as int, i1);
            let o2 = origin(used, block2, block2.instructions.len() as int, i2);
            assert(after.blocks[b1].instructions[i1] == program.blocks[b1].instructions[o1]);
            assert(after.blocks[b2].instructions[i2] == program.blocks[b2].instructions[o2]);
            assert(b1 != b2 || o1 != o2);
        }
    }
}

/// A scan over instructions keeps their names, place by place.
pub proof fn lemma_fold_instructions_names(
    instructions: Seq<InstructionView>,
    from: int,
    state: FoldState,
    done: Seq<InstructionView>,
)
    requires
        0 <= from <= instructions.len(),
    ensures
        fold_instructions(instructions, from, state, done) matches Ok((out, _)) ==> {
            &&& out.len() == done.len() + instructions.len() - from
            &&& forall|k: int| 0 <= k < done.len() ==> out[k] == done[k]
            &&& forall|k: int|
                from <= k < instructions.len() ==> (#[trigger] out[done.len() + k - from]).result()
                    == instructions[k].result()
        },
    decreases instructions.len() - from,
{
    if from < instructions.len() {
        if let Ok((folded, next)) = fold_instruction(instructions[from], state) {
            lemma_fold_instructions_names(instructions, from + 1, next, done.push(folded));
            if let Ok((out, _)) = fold_instructions(instructions, from + 1, next, done.push(folded)) {
                assert(out[done.len() as int] == done.push(folded)[done.len() as int]);
                assert forall|k: int| from <= k < instructions.len() implies (#[trigger] out[done.len() + k
                    - from]).result() == instructions[k].result() by {
                    if k > from {
                        assert(out[done.push(folded).len() + k - (from + 1)].result()
                            == instructions[k].result());
                    }
                }
                assert forall|k: int| 0 <= k < done.len() implies out[k] == done[k] by {
                    assert(out[k] == done.push(folded)[k]);
                }
            }
        }
    }
}

/// A scan over blocks keeps the blocks' frames and the names of their
/// instructions, place by place.
pub proof fn lemma_fold_blocks_names(blocks: Seq<BlockView>, from: int, state: FoldState, done: Seq<BlockView>)
    requires
        0 <= from <= blocks.len(),
    ensures
        fold_blocks(blocks, from, state, done) matches Ok((out, _)) ==> {
            &&& out.len() == done.len() + blocks.len() - from
            &&& forall|k: int| 0 <= k < done.len() ==> out[k] == done[k]
            &&& forall|k: int|
                from <= k < blocks.len() ==> same_frame(#[trigger] out[done.len() + k - from], blocks[k])
                    && out[done.len() + k - from].instructions.len() == blocks[k].instructions.len()
                    && forall|i: int|
                    0 <= i < blocks[k].instructions.len() ==> (#[trigger] out[done.len() + k
                        - from].instructions[i]).result() == blocks[k].instructions[i].result()
        },
    decreases blocks.len() - from,
{
    if from < blocks.len() {
        let block = blocks[from];
        lemma_fold_instructions_names(block.instructions, 0, state, Seq::empty());
        if let Ok((instructions, next)) = fold_instructions(block.instructions, 0, state, Seq::empty()) {
            let folded = BlockView { instructions, ..block };
            lemma_fold_blocks_names(blocks, from + 1, next, done.push(folded));
            if let Ok((out, _)) = fold_blocks(blocks, from + 1, next, done.push(folded)) {
                assert(out[done.len() as int] == done.push(folded)[done.len() as int]);
                assert forall|i: int| 0 <= i < block.instructions.len() implies (#[trigger] folded.instructions[i]).result()
                    == block.instructions[i].result() by {
                    assert(folded.instructions[0 + i - 0].result() == block.instructions[i].result());
                }
                assert forall|k: int| 0 <= k < done.len() implies out[k] == done[k] by {
                    assert(out[k] == done.push(folded)[k]);
                }
                assert forall|k: int| from <= k < blocks.len() implies same_frame(
                    #[trigger] out[done.len() + k - from],
                    blocks[k],
                ) && out[done.len() + k - from].instructions.len() == blocks[k].instructions.len()
                    && forall|i: int|
                    0 <= i < blocks[k].instructions.len() ==> (#[trigger] out[done.len() + k
                        - from].instructions[i]).result() == blocks[k].instructions[i].result() by {
                    if k > from {
                        assert(same_frame(out[done.push(folded).len() + k - (from + 1)], blocks[k]));
                    }
                }
            }
        }
    }
}

/// Two programs with the same names in the same places are both in static
/// single assignment form, or neither is.
pub proof fn lemma_same_names(a: ProgramView, b: ProgramView)
    requires
        a.blocks.len() == b.blocks.len(),
        forall|k: int|
            0 <= k < a.blocks.len() ==> (#[trigger] a.blocks[k]).instructions.len()
                == b.blocks[k].instructions.len(),
        forall|k: int, i: int|
            0 <= k < a.blocks.len() && 0 <= i < a.blocks[k].instructions.len() ==> (#[trigger] a.blocks[k].instructions[i]).result()
                == b.blocks[k].instructions[i].result(),
        is_ssa(b),
    ensures
        is_ssa(a),
{
    assert forall|b1: int, i1: int, b2: int, i2: int|
        0 <= b1 < a.blocks.len() && 0 <= i1 < a.blocks[b1].instructions.len() && 0 <= b2 < a.blocks.len()
            && 0 <= i2 < a.blocks[b2].instructions.len() && (b1 != b2 || i1 != i2) implies (#[trigger] a.blocks[b1].instructions[i1]).result()
        != (#[trigger] a.blocks[b2].instructions[i2]).result() by {
        assert(a.blocks[b1].instructions[i1].result() == b.blocks[b1].instructions[i1].result());
        assert(a.blocks[b2].instructions[i2].result() == b.blocks[b2].instructions[i2].result());
    }
}

/// A scan keeps the shape of the program and its static single assignment
/// form.
pub proof fn lemma_fold_scan_keeps(program: ProgramView, known: Constants)
    ensures
        fold_scan(program, known) matches Ok((after, _)) ==> same_shape(after, program) && (is_ssa(program)
            ==> is_ssa(after)),
{
    lemma_fold_blocks_names(program.blocks, 0, FoldState { known, changed: false }, Seq::empty());
    if let Ok((after, _)) = fold_scan(program, known) {
        assert forall|k: int| 0 <= k < after.blocks.len() implies same_frame(
            #[trigger] after.blocks[k],
            program.blocks[k],
        ) && after.blocks[k].instructions.len() == program.blocks[k].instructions.len() by {
            assert(same_frame(after.blocks[0 + k - 0], program.blocks[k]));
        }
        assert forall|k: int, i: int|
            0 <= k < after.blocks.len() && 0 <= i < after.blocks[k].instructions.len() implies (#[trigger] after.blocks[k].instructions[i]).result()
            == program.blocks[k].instructions[i].result() by {
            assert(same_frame(after.blocks[0 + k - 0], program.blocks[k]));
        }
        if is_ssa(program) {
            lemma_same_names(after, program);
        }
    }
}

/// Repeated scans keep the shape of the program and its static single
/// assignment form.
pub proof fn lemma_fold_repeat_keeps(program: ProgramView, known: Constants)
    ensures
        fold_repeat(program, known) matches Ok(after) ==> same_shape(after, program) && (is_ssa(program)
            ==> is_ssa(after)),
    decreases operations(program),
{
    lemma_fold_scan_keeps(program, known);
    lemma_fold_scan(program, known);
    if let Ok((after, state)) = fold_scan(program, known) {
        if state.changed {
            lemma_fold_repeat_keeps(after, state.known);
        }
    }
}

/// A round keeps the shape of the program and its static single
/// assignment form.
pub proof fn lemma_round_keeps(program: ProgramView)
    ensures
        round_spec(program) matches Ok((after, _)) ==> same_shape(after, program) && (is_ssa(program)
            ==> is_ssa(after)),
{
    lemma_eliminate_keeps(program);
    lemma_fold_repeat_keeps(eliminate_spec(program).0, Seq::empty());
}

/// Optimization keeps the blocks: as many as before, in the same order,
/// each with its name, its terminator and its predecessors. Only the
/// instructions in them change.
pub proof fn lemma_optimize_keeps_shape(program: ProgramView)
    ensures
        optimize_spec(program) matches Ok(after) ==> same_shape(after, program),
    decreases size(program) + operations(program),
{
    lemma_round_keeps(program);
    lemma_round(program);
    if let Ok((after, changed)) = round_spec(program) {
        if changed {
            lemma_optimize_keeps_shape(after);
        }
    }
}

/// Optimization keeps static single assignment form: where no two
/// instructions of a program define the same name, none do after it is
/// optimized.
pub proof fn lemma_optimize_keeps_ssa(program: ProgramView)
    requires
        is_ssa(program),
    ensures
        optimize_spec(program) matches Ok(after) ==> is_ssa(after),
    decreases size(program) + operations(program),
{
    lemma_round_keeps(program);
    lemma_round(program);
    if let Ok((after, changed)) = round_spec(program) {
        if changed {
            lemma_optimize_keeps_ssa(after);
        }
    }
}

} // verus!
