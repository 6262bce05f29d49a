//! Every terminator of a lowered program names a block of the program.
//!
//! While a program is under construction, a terminator may name a block
//! that is not finished yet: the block that is being filled, or a block
//! that is promised. A promise is kept, or nothing names the block.

use vstd::prelude::*;
use crate::ast::{ExprView, ParameterView, StatementView};
use crate::builder::{
    begin_if, begin_while, bind_parameters, close_phis, completed, end_if, end_while, enter_phis,
    fresh, leads_to, lower_body_spec, lower_named, lower_operand, lower_spec, lower_statement,
    lower_statements, ArmEnd, BuilderView, IfPlan, Numbers, WhilePlan,
};
use crate::graph::{
    connected, extends, lemma_begin_if, lemma_begin_while, lemma_bind_parameters, lemma_end_while,
    lemma_enter_phis, lemma_extends_trans, lemma_finish, lemma_lower_named, lemma_lower_operand,
    lemma_lower_statement, lemma_lower_statements, lemma_merge_bindings,
};
use crate::ir::{BlockView, ProgramView, TerminatorView};
use crate::names::ssa_name;

verus! {

/// One of the blocks is called `name`.
pub open spec fn has_block(blocks: Seq<BlockView>, name: Seq<char>) -> bool {
    exists|k: int| 0 <= k < blocks.len() && (#[trigger] blocks[k]).name == name
}

/// Every terminator of the program names blocks of the program.
pub open spec fn is_closed(program: ProgramView) -> bool {
    forall|i: int, target: Seq<char>|
        0 <= i < program.blocks.len() && #[trigger] leads_to(program.blocks[i], target) ==> has_block(
            program.blocks,
            target,
        )
}

/// Every terminator of the finished blocks names a finished block, the
/// block that is being filled, or a promised block.
pub open spec fn resolved(b: BuilderView, promised: Set<Seq<char>>) -> bool {
    forall|i: int, target: Seq<char>|
        0 <= i < b.blocks.len() && #[trigger] leads_to(b.blocks[i], target) ==> has_block(b.blocks, target)
            || (b.open && target == b.name) || promised.contains(target)
}

/// The block that was being filled in `b` is finished in `after`, or is
/// still being filled.
pub open spec fn kept(b: BuilderView, after: BuilderView) -> bool {
    b.open ==> has_block(after.blocks, b.name) || (after.open && after.name == b.name)
}

/// A block that exists still exists when blocks are added.
pub proof fn lemma_has_block_extends(before: Seq<BlockView>, after: Seq<BlockView>, name: Seq<char>)
    requires
        extends(before, after),
        has_block(before, name),
    ensures
        has_block(after, name),
{
    let k = choose|k: int| 0 <= k < before.len() && (#[trigger] before[k]).name == name;
    assert(after[k].name == name);
}

/// Finishing the block that is being filled keeps every terminator
/// resolved, where the new terminator is.
pub proof fn lemma_resolved_finish(b: BuilderView, terminator: Option<TerminatorView>, promised: Set<Seq<char>>)
    requires
        resolved(b, promised),
        b.open,
        forall|target: Seq<char>|
            #[trigger] leads_to(b.finish(terminator).blocks.last(), target) ==> has_block(b.blocks, target)
                || target == b.name || promised.contains(target),
    ensures
        resolved(b.finish(terminator), promised),
        has_block(b.finish(terminator).blocks, b.name),
{
    let after = b.finish(terminator);
    assert(after.blocks[b.blocks.len() as int].name == b.name);
    assert forall|i: int, target: Seq<char>|
        0 <= i < after.blocks.len() && #[trigger] leads_to(after.blocks[i], target) implies has_block(
        after.blocks,
        target,
    ) || promised.contains(target) by {
        if i < b.blocks.len() {
            assert(after.blocks[i] == b.blocks[i]);
            assert(leads_to(b.blocks[i], target));
        } else {
            assert(after.blocks[i] == after.blocks.last());
            assert(leads_to(after.blocks.last(), target));
        }
        if has_block(b.blocks, target) {
            lemma_has_block_extends(b.blocks, after.blocks, target);
        }
    }
}

/// Beginning a promised block keeps the promise.
pub proof fn lemma_resolved_begin(b: BuilderView, name: Seq<char>, bindings: Numbers, promised: Set<Seq<char>>)
    requires
        resolved(b, promised.insert(name)),
        !b.open,
    ensures
        resolved(b.begin(name, bindings), promised),
{
    let after = b.begin(name, bindings);
    assert forall|i: int, target: Seq<char>|
        0 <= i < after.blocks.len() && #[trigger] leads_to(after.blocks[i], target) implies has_block(
        after.blocks,
        target,
    ) || (after.open && target == after.name) || promised.contains(target) by {
        assert(leads_to(b.blocks[i], target));
    }
}

/// A promise more changes nothing.
pub proof fn lemma_resolved_more(b: BuilderView, promised: Set<Seq<char>>, more: Set<Seq<char>>)
    requires
        resolved(b, promised),
        promised.subset_of(more),
    ensures
        resolved(b, more),
{
    assert forall|i: int, target: Seq<char>|
        0 <= i < b.blocks.len() && #[trigger] leads_to(b.blocks[i], target) implies has_block(b.blocks, target)
        || (b.open && target == b.name) || more.contains(target) by {
        if promised.contains(target) {
            assert(more.contains(target));
        }
    }
}

/// A state with the same blocks, the same current block and the same
/// reach is resolved where the other is.
pub proof fn lemma_resolved_same(b: BuilderView, after: BuilderView, promised: Set<Seq<char>>)
    requires
        resolved(b, promised),
        after.blocks == b.blocks,
        after.name == b.name,
        after.open == b.open,
    ensures
        resolved(after, promised),
        kept(b, after),
{
    assert forall|i: int, target: Seq<char>|
        0 <= i < after.blocks.len() && #[trigger] leads_to(after.blocks[i], target) implies has_block(
        after.blocks,
        target,
    ) || (after.open && target == after.name) || promised.contains(target) by {
        assert(leads_to(b.blocks[i], target));
    }
}

/// Ending the current block with a jump to a promised block keeps every
/// terminator resolved.
pub proof fn lemma_resolved_jump(b: BuilderView, target: Seq<char>, promised: Set<Seq<char>>)
    requires
        resolved(b, promised),
        b.open ==> promised.contains(target) || has_block(b.blocks, target),
    ensures
        resolved(b.jump_if_open(target), promised),
        kept(b, b.jump_if_open(target)),
        !b.jump_if_open(target).open,
        !b.open ==> b.jump_if_open(target) == b,
{
    if b.open {
        lemma_resolved_finish(b, Some(TerminatorView::Jump { target }), promised);
    }
}

/// Beginning a conditional leaves the other arm promised.
pub proof fn lemma_resolved_begin_if(b: BuilderView, condition: ExprView, has_else: bool, promised: Set<Seq<char>>)
    requires
        resolved(b, promised),
        b.open,
    ensures
        begin_if(b, condition, has_else) matches Ok((plan, after)) ==> {
            &&& resolved(after, promised.insert(plan.else_name))
            &&& after.open
            &&& has_block(after.blocks, b.name)
        },
{
    lemma_lower_operand(b, condition);
    if let Ok((c, b1)) = lower_operand(b, condition) {
        if let Ok((t, labels1)) = fresh(b1.labels, "then"@) {
            if let Ok((e, labels2)) = fresh(labels1, "else"@) {
                if let Ok((m, labels3)) = fresh(labels2, "merge"@) {
                    let then_name = ssa_name("then"@, t as nat);
                    let merge_name = ssa_name("merge"@, m as nat);
                    let else_name = if has_else {
                        ssa_name("else"@, e as nat)
                    } else {
                        merge_name
                    };
                    let branch = TerminatorView::Branch {
                        condition: c,
                        then_target: then_name,
                        else_target: else_name,
                    };
                    let b2 = BuilderView { labels: labels3, ..b1 };
                    let more = promised.insert(else_name).insert(then_name);
                    lemma_resolved_same(b, b2, promised);
                    lemma_resolved_more(b2, promised, more);
                    lemma_resolved_finish(b2, Some(branch), more);
                    lemma_resolved_begin(b2.finish(Some(branch)), then_name, b1.bindings, promised.insert(else_name));
                }
            }
        }
    }
}

/// Ending a conditional keeps every terminator resolved: the merge block
/// is begun where an arm has promised it.
pub proof fn lemma_resolved_end_if(b: BuilderView, plan: IfPlan, first: ArmEnd, second: ArmEnd, promised: Set<Seq<char>>)
    requires
        !b.open,
        if first.open || second.open {
            resolved(b, promised.insert(plan.merge_name))
        } else {
            resolved(b, promised)
        },
    ensures
        end_if(b, plan, first, second) matches Ok(after) ==> resolved(after, promised) && after.blocks
            == b.blocks,
{
    if first.open || second.open {
        lemma_resolved_begin(b, plan.merge_name, Seq::empty(), promised);
        let b1 = b.begin(plan.merge_name, Seq::empty());
        lemma_merge_bindings(b1, plan.saved, 0, first, second);
        if let Ok(after) = end_if(b, plan, first, second) {
            lemma_resolved_same(b1, after, promised);
        }
    } else {
        lemma_resolved_same(b, BuilderView { open: false, ..b }, promised);
    }
}

/// Beginning a loop leaves the exit promised.
pub proof fn lemma_resolved_begin_while(
    b: BuilderView,
    condition: ExprView,
    body: Seq<StatementView>,
    promised: Set<Seq<char>>,
)
    requires
        resolved(b, promised),
        b.open,
    ensures
        begin_while(b, condition, body) matches Ok((plan, after)) ==> {
            &&& resolved(after, promised.insert(plan.exit_name))
            &&& after.open
            &&& has_block(after.blocks, b.name)
            &&& has_block(after.blocks, plan.header_name)
        },
{
    if let Ok((h, labels1)) = fresh(b.labels, "loop"@) {
        if let Ok((d, labels2)) = fresh(labels1, "body"@) {
            if let Ok((x, labels3)) = fresh(labels2, "exit"@) {
                let header_name = ssa_name("loop"@, h as nat);
                let body_name = ssa_name("body"@, d as nat);
                let exit_name = ssa_name("exit"@, x as nat);
                let jump = TerminatorView::Jump { target: header_name };
                let b0 = BuilderView { labels: labels3, ..b };
                let with_header = promised.insert(header_name);
                lemma_resolved_same(b, b0, promised);
                lemma_resolved_more(b0, promised, with_header);
                lemma_resolved_finish(b0, Some(jump), with_header);
                let bf = b0.finish(Some(jump));
                lemma_resolved_begin(bf, header_name, b.bindings, promised);
                let b1 = bf.begin(header_name, b.bindings);
                lemma_enter_phis(b1, b.bindings, 0, body, b.name, Seq::empty());
                if let Ok((pending, b2)) = enter_phis(b1, b.bindings, 0, body, b.name, Seq::empty()) {
                    lemma_lower_operand(b2, condition);
                    if let Ok((c, b3)) = lower_operand(b2, condition) {
                        let branch = TerminatorView::Branch {
                            condition: c,
                            then_target: body_name,
                            else_target: exit_name,
                        };
                        lemma_resolved_same(b1, b3, promised);
                        let more = promised.insert(exit_name).insert(body_name);
                        lemma_resolved_more(b3, promised, more);
                        lemma_resolved_finish(b3, Some(branch), more);
                        let b4 = b3.finish(Some(branch));
                        lemma_resolved_begin(b4, body_name, b3.bindings, promised.insert(exit_name));
                        assert(extends(bf.blocks, b4.blocks));
                        lemma_has_block_extends(bf.blocks, b4.blocks, b.name);
                    }
                }
            }
        }
    }
}

/// Ending a loop keeps every terminator resolved: the back edge names the
/// header, which is finished, and the exit is begun.
pub proof fn lemma_resolved_end_while(b: BuilderView, plan: WhilePlan, promised: Set<Seq<char>>)
    requires
        resolved(b, promised.insert(plan.exit_name)),
        has_block(b.blocks, plan.header_name),
    ensures
        resolved(end_while(b, plan), promised),
        kept(b, end_while(b, plan)),
{
    let body = b.arm_end();
    let with_exit = promised.insert(plan.exit_name);
    lemma_resolved_jump(b, plan.header_name, with_exit);
    let b1 = b.jump_if_open(plan.header_name);
    let blocks = if body.open && plan.header_index < b1.blocks.len() {
        let header = b1.blocks[plan.header_index as int];
        b1.blocks.update(
            plan.header_index as int,
            BlockView { instructions: close_phis(header.instructions, plan.pending, body), ..header },
        )
    } else {
        b1.blocks
    };
    assert(extends(b1.blocks, blocks));
    let b2 = BuilderView { blocks, ..b1 };
    assert forall|i: int, target: Seq<char>|
        0 <= i < b2.blocks.len() && #[trigger] leads_to(b2.blocks[i], target) implies has_block(b2.blocks, target)
        || (b2.open && target == b2.name) || with_exit.contains(target) by {
        assert(leads_to(b1.blocks[i], target));
        if has_block(b1.blocks, target) {
            lemma_has_block_extends(b1.blocks, blocks, target);
        }
    }
    lemma_resolved_begin(b2, plan.exit_name, plan.header_bindings, promised);
    if b.open {
        lemma_has_block_extends(b1.blocks, blocks, b.name);
    }
}

/// Where the current block of `a` is kept in `b`, and that of `b` in `c`,
/// which extends `b`, the current block of `a` is kept in `c`.
pub proof fn lemma_kept_trans(a: BuilderView, b: BuilderView, c: BuilderView)
    requires
        kept(a, b),
        kept(b, c),
        extends(b.blocks, c.blocks),
    ensures
        kept(a, c),
{
    if a.open && has_block(b.blocks, a.name) {
        lemma_has_block_extends(b.blocks, c.blocks, a.name);
    }
}

/// Lowering a statement keeps every terminator resolved and the current
/// block in being.
pub proof fn lemma_resolved_statement(b: BuilderView, s: StatementView, promised: Set<Seq<char>>)
    requires
        connected(b),
        resolved(b, promised),
    ensures
        lower_statement(b, s) matches Ok(after) ==> resolved(after, promised) && kept(b, after),
    decreases s, 1nat,
{
    if b.open {
        match s {
            StatementView::Let { name, value, .. } => {
                lemma_lower_named(b, value, name);
                if let Ok((n, b1)) = lower_named(b, value, name) {
                    lemma_resolved_same(b, b1.bind(name, n), promised);
                }
            },
            StatementView::Assignment { target, value } => {
                lemma_lower_named(b, value, target);
                if let Ok((n, b1)) = lower_named(b, value, target) {
                    lemma_resolved_same(b, b1.bind(target, n), promised);
                }
            },
            StatementView::Expression { value } => {
                lemma_lower_operand(b, value);
                if let Ok((_, b1)) = lower_operand(b, value) {
                    lemma_resolved_same(b, b1, promised);
                }
            },
            StatementView::Return { value } => {
                lemma_lower_named(b, value, "return"@);
                if let Ok((_, b1)) = lower_named(b, value, "return"@) {
                    lemma_resolved_same(b, b1, promised);
                    lemma_resolved_finish(b1, None, promised);
                }
            },
            StatementView::If { condition, then_branch, else_branch } => {
                lemma_resolved_if(b, condition, then_branch, else_branch, promised);
            },
            StatementView::While { condition, body } => {
                lemma_begin_while(b, condition, body);
                lemma_resolved_begin_while(b, condition, body, promised);
                if let Ok((plan, b1)) = begin_while(b, condition, body) {
                    let with_exit = promised.insert(plan.exit_name);
                    lemma_lower_statements(b1, body, 0);
                    lemma_resolved_statements(b1, body, 0, with_exit);
                    if let Ok(b2) = lower_statements(b1, body, 0) {
                        lemma_has_block_extends(b1.blocks, b2.blocks, plan.header_name);
                        lemma_has_block_extends(b1.blocks, b2.blocks, b.name);
                        lemma_resolved_end_while(b2, plan, promised);
                        lemma_end_while(b2, plan);
                        lemma_has_block_extends(b2.blocks, end_while(b2, plan).blocks, b.name);
                    }
                }
            },
        }
    } else {
        lemma_resolved_same(b, b, promised);
    }
}

/// Lowering a conditional keeps every terminator resolved.
pub proof fn lemma_resolved_if(
    b: BuilderView,
    condition: ExprView,
    then_branch: Seq<StatementView>,
    else_branch: Option<Seq<StatementView>>,
    promised: Set<Seq<char>>,
)
    requires
        connected(b),
        resolved(b, promised),
        b.open,
    ensures
        lower_statement(b, (StatementView::If { condition, then_branch, else_branch })) matches Ok(
            after,
        ) ==> resolved(after, promised) && kept(b, after),
    decreases (StatementView::If { condition, then_branch, else_branch }), 0nat,
{
    let has_else = else_branch is Some;
    lemma_begin_if(b, condition, has_else);
    lemma_resolved_begin_if(b, condition, has_else, promised);
    if let Ok((plan, b1)) = begin_if(b, condition, has_else) {
        let with_else = promised.insert(plan.else_name);
        let with_both = with_else.insert(plan.merge_name);
        lemma_lower_statements(b1, then_branch, 0);
        lemma_resolved_statements(b1, then_branch, 0, with_else);
        if let Ok(b2) = lower_statements(b1, then_branch, 0) {
            let first = b2.arm_end();
            let b3 = b2.jump_if_open(plan.merge_name);
            if b2.open {
                lemma_finish(b2, Some(TerminatorView::Jump { target: plan.merge_name }));
                lemma_resolved_more(b2, with_else, with_both);
                lemma_resolved_jump(b2, plan.merge_name, with_both);
            }
            lemma_has_block_extends(b1.blocks, b2.blocks, b.name);
            lemma_has_block_extends(b2.blocks, b3.blocks, b.name);
            match else_branch {
                Some(stmts) => {
                    // the promise of the merge block stands where the first arm made it
                    let carried = if first.open {
                        promised.insert(plan.merge_name)
                    } else {
                        promised
                    };
                    assert(resolved(b3, carried.insert(plan.else_name))) by {
                        if first.open {
                            assert(carried.insert(plan.else_name) =~= with_both);
                        } else {
                            assert(carried.insert(plan.else_name) =~= with_else);
                        }
                    }
                    lemma_resolved_begin(b3, plan.else_name, plan.saved, carried);
                    lemma_extends_trans(b1.blocks, b2.blocks, b3.blocks);
                    assert(leads_to(b3.blocks[b.blocks.len() as int], plan.else_name));
                    crate::graph::lemma_begin(b3, plan.else_name, plan.saved);
                    let b3e = b3.begin(plan.else_name, plan.saved);
                    lemma_lower_statements(b3e, stmts, 0);
                    lemma_resolved_statements(b3e, stmts, 0, carried);
                    if let Ok(b4) = lower_statements(b3e, stmts, 0) {
                        let second = b4.arm_end();
                        let b5 = b4.jump_if_open(plan.merge_name);
                        let with_merge = promised.insert(plan.merge_name);
                        if b4.open {
                            lemma_finish(b4, Some(TerminatorView::Jump { target: plan.merge_name }));
                            lemma_resolved_more(b4, carried, with_merge);
                            lemma_resolved_jump(b4, plan.merge_name, with_merge);
                        } else if first.open {
                            assert(carried == with_merge);
                        }
                        lemma_has_block_extends(b3.blocks, b4.blocks, b.name);
                        lemma_has_block_extends(b4.blocks, b5.blocks, b.name);
                        lemma_resolved_end_if(b5, plan, first, second, promised);
                    }
                },
                None => {
                    let second = ArmEnd { open: true, name: plan.origin, bindings: plan.saved };
                    assert(with_else =~= promised.insert(plan.merge_name));
                    if b2.open {
                        assert(with_both =~= promised.insert(plan.merge_name));
                    }
                    lemma_resolved_end_if(b3, plan, first, second, promised);
                },
            }
        }
    }
}

/// Lowering statements keeps every terminator resolved and the current
/// block in being.
pub proof fn lemma_resolved_statements(
    b: BuilderView,
    stmts: Seq<StatementView>,
    from: int,
    promised: Set<Seq<char>>,
)
    requires
        connected(b),
        resolved(b, promised),
    ensures
        lower_statements(b, stmts, from) matches Ok(after) ==> resolved(after, promised) && kept(b, after),
    decreases stmts, stmts.len() - from,
{
    if 0 <= from < stmts.len() {
        lemma_lower_statement(b, stmts[from]);
        lemma_resolved_statement(b, stmts[from], promised);
        if let Ok(b1) = lower_statement(b, stmts[from]) {
            lemma_lower_statements(b1, stmts, from + 1);
            lemma_resolved_statements(b1, stmts, from + 1, promised);
            if let Ok(b2) = lower_statements(b1, stmts, from + 1) {
                lemma_kept_trans(b, b1, b2);
            }
        }
    } else {
        lemma_resolved_same(b, b, promised);
    }
}

/// The program that a resolved state without promises is completed to is
/// closed.
pub proof fn lemma_resolved_completed(b: BuilderView)
    requires
        resolved(b, Set::empty()),
    ensures
        is_closed(completed(b)),
{
    let done = if b.open {
        b.finish(None)
    } else {
        b
    };
    if b.open {
        lemma_resolved_finish(b, None, Set::empty());
    }
    let program = completed(b);
    assert(extends(done.blocks, program.blocks));
    assert forall|i: int, target: Seq<char>|
        0 <= i < program.blocks.len() && #[trigger] leads_to(program.blocks[i], target) implies has_block(
        program.blocks,
        target,
    ) by {
        assert(leads_to(done.blocks[i], target));
        lemma_has_block_extends(done.blocks, program.blocks, target);
    }
}

/// Binding parameters finishes no block.
pub proof fn lemma_resolved_parameters(b: BuilderView, parameters: Seq<ParameterView>, from: int)
    requires
        resolved(b, Set::empty()),
    ensures
        resolved(bind_parameters(b, parameters, from), Set::empty()),
    decreases parameters.len() - from,
{
    if 0 <= from < parameters.len() {
        lemma_resolved_same(b, b.bind(parameters[from].name, 0), Set::empty());
        lemma_resolved_parameters(b.bind(parameters[from].name, 0), parameters, from + 1);
    }
}

/// In every lowered statement sequence each terminator names blocks of the
/// program.
pub proof fn lemma_lower_is_closed(stmts: Seq<StatementView>)
    ensures
        lower_spec(stmts) matches Ok(program) ==> is_closed(program),
{
    lemma_resolved_statements(BuilderView::start(), stmts, 0, Set::empty());
    if let Ok(b) = lower_statements(BuilderView::start(), stmts, 0) {
        lemma_resolved_completed(b);
    }
}

/// In every lowered function body each terminator names blocks of the
/// program.
pub proof fn lemma_lower_body_is_closed(parameters: Seq<ParameterView>, body: Seq<StatementView>)
    ensures
        lower_body_spec(parameters, body) matches Ok(program) ==> is_closed(program),
{
    lemma_bind_parameters(BuilderView::start(), parameters, 0);
    lemma_resolved_parameters(BuilderView::start(), parameters, 0);
    let b0 = bind_parameters(BuilderView::start(), parameters, 0);
    lemma_resolved_statements(b0, body, 0, Set::empty());
    if let Ok(b) = lower_statements(b0, body, 0) {
        lemma_resolved_completed(b);
    }
}

} // verus!
