//! Every phi of a lowered program lists predecessors of its block: each
//! block that a phi names leads to the block of the phi.

use vstd::prelude::*;
use crate::ast::{ExprView, ParameterView, StatementView};
use crate::builder::{
    assigns, begin_if, begin_while, bind_parameters, close_phis, completed, end_if, end_while,
    enter_phis, fresh, leads_to, lower_body_spec, lower_named, lower_operand, lower_spec,
    lower_statement, lower_statements, merge_bindings, version_at, version_operand, ArmEnd,
    BuilderView, IfPlan, Numbers, PendingPhi, WhilePlan,
};
use crate::graph::{
    connected, extends, lemma_begin_if, lemma_begin_while, lemma_bind_parameters,
    lemma_extends_trans, lemma_finish, lemma_lower_statement, lemma_lower_statements,
};
use crate::ir::{BlockView, InstructionView, ProgramView, TerminatorView};
use crate::names::ssa_name;

verus! {

/// A block called `name` leads to the block called `target`.
pub open spec fn leads_from(blocks: Seq<BlockView>, name: Seq<char>, target: Seq<char>) -> bool {
    exists|k: int| 0 <= k < blocks.len() && (#[trigger] blocks[k]).name == name && leads_to(blocks[k], target)
}

/// Where the instruction is a phi in the block called `home`, every block
/// that it names leads to `home`.
pub open spec fn sources_lead(blocks: Seq<BlockView>, instruction: InstructionView, home: Seq<char>) -> bool {
    instruction matches InstructionView::Phi { incoming, .. } ==> forall|e: int|
        0 <= e < incoming.len() ==> leads_from(blocks, (#[trigger] incoming[e]).0, home)
}

/// Every phi of the program names blocks that lead to its own block.
pub open spec fn has_phi_sources(program: ProgramView) -> bool {
    forall|b: int, i: int|
        0 <= b < program.blocks.len() && 0 <= i < program.blocks[b].instructions.len() ==> sources_lead(
            program.blocks,
            #[trigger] program.blocks[b].instructions[i],
            program.blocks[b].name,
        )
}

/// Every phi so far, in the finished blocks and in the block that is being
/// filled, names finished blocks that lead to its own block.
pub open spec fn sourced(b: BuilderView) -> bool {
    &&& forall|k: int, i: int|
        0 <= k < b.blocks.len() && 0 <= i < b.blocks[k].instructions.len() ==> sources_lead(
            b.blocks,
            #[trigger] b.blocks[k].instructions[i],
            b.blocks[k].name,
        )
    &&& forall|i: int| 0 <= i < b.instructions.len() ==> sources_lead(b.blocks, #[trigger] b.instructions[i], b.name)
}

/// A block that leads to another still does when blocks are added.
pub proof fn lemma_leads_from_extends(before: Seq<BlockView>, after: Seq<BlockView>, name: Seq<char>, target: Seq<char>)
    requires
        extends(before, after),
        leads_from(before, name, target),
    ensures
        leads_from(after, name, target),
{
    let k = choose|k: int| 0 <= k < before.len() && (#[trigger] before[k]).name == name && leads_to(before[k], target);
    assert(after[k].name == name && leads_to(after[k], target));
}

/// The sources of a phi still lead to its block when blocks are added.
pub proof fn lemma_sources_extend(
    before: Seq<BlockView>,
    after: Seq<BlockView>,
    instruction: InstructionView,
    home: Seq<char>,
)
    requires
        extends(before, after),
        sources_lead(before, instruction, home),
    ensures
        sources_lead(after, instruction, home),
{
    if let InstructionView::Phi { incoming, .. } = instruction {
        assert forall|e: int| 0 <= e < incoming.len() implies leads_from(
            after,
            (#[trigger] incoming[e]).0,
            home,
        ) by {
            lemma_leads_from_extends(before, after, incoming[e].0, home);
        }
    }
}

/// A definition whose sources lead to the current block keeps the phis
/// sourced.
pub proof fn lemma_sourced_define(b: BuilderView, base: Seq<char>, shape: InstructionView)
    requires
        sourced(b),
        sources_lead(b.blocks, shape, b.name),
    ensures
        b.define(base, shape) matches Ok((_, after)) ==> sourced(after) && after.blocks == b.blocks
            && after.name == b.name && after.open == b.open && after.labels == b.labels,
{
    if let Ok((n, after)) = b.define(base, shape) {
        let named = shape.named(ssa_name(base, n as nat));
        assert(sources_lead(b.blocks, named, b.name));
        assert forall|i: int| 0 <= i < after.instructions.len() implies sources_lead(
            after.blocks,
            #[trigger] after.instructions[i],
            after.name,
        ) by {
            if i < b.instructions.len() {
                assert(after.instructions[i] == b.instructions[i]);
            }
        }
    }
}

/// A state with the same blocks, the same current block and the same
/// instructions has its phis sourced where the other has.
pub proof fn lemma_sourced_same(b: BuilderView, after: BuilderView)
    requires
        sourced(b),
        after.blocks == b.blocks,
        after.name == b.name,
        after.instructions == b.instructions,
    ensures
        sourced(after),
{
}

/// Lowering an expression keeps the phis sourced.
pub proof fn lemma_sourced_named(b: BuilderView, e: ExprView, base: Seq<char>)
    requires
        sourced(b),
    ensures
        lower_named(b, e, base) matches Ok((_, after)) ==> sourced(after) && after.blocks == b.blocks
            && after.name == b.name && after.open == b.open && after.labels == b.labels,
    decreases e, 0nat,
{
    match e {
        ExprView::Integer(value) => {
            lemma_sourced_define(b, base, InstructionView::Constant { result: Seq::empty(), value });
        },
        ExprView::Boolean(value) => {
            lemma_sourced_define(
                b,
                base,
                InstructionView::Constant { result: Seq::empty(), value: crate::builder::truth(value) },
            );
        },
        ExprView::Variable(name) => {
            if let Some(version) = crate::table::find(b.bindings, name) {
                lemma_sourced_define(
                    b,
                    base,
                    InstructionView::Binary {
                        result: Seq::empty(),
                        op: crate::ast::BinaryOp::Add,
                        left: version_operand(name, version),
                        right: crate::ir::OperandView::Constant(0),
                    },
                );
            }
        },
        ExprView::Binary { op, left, right } => {
            lemma_sourced_operand(b, *left);
            if let Ok((l, b1)) = lower_operand(b, *left) {
                lemma_sourced_operand(b1, *right);
                if let Ok((r, b2)) = lower_operand(b1, *right) {
                    lemma_sourced_define(
                        b2,
                        base,
                        InstructionView::Binary { result: Seq::empty(), op, left: l, right: r },
                    );
                }
            }
        },
        ExprView::Comparison { op, left, right } => {
            lemma_sourced_operand(b, *left);
            if let Ok((l, b1)) = lower_operand(b, *left) {
                lemma_sourced_operand(b1, *right);
                if let Ok((r, b2)) = lower_operand(b1, *right) {
                    lemma_sourced_define(
                        b2,
                        base,
                        InstructionView::Comparison { result: Seq::empty(), op, left: l, right: r },
                    );
                }
            }
        },
        ExprView::Call { .. } => {},
    }
}

/// Lowering an operand keeps the phis sourced.
pub proof fn lemma_sourced_operand(b: BuilderView, e: ExprView)
    requires
        sourced(b),
    ensures
        lower_operand(b, e) matches Ok((_, after)) ==> sourced(after) && after.blocks == b.blocks
            && after.name == b.name && after.open == b.open && after.labels == b.labels,
    decreases e, 1nat,
{
    match e {
        ExprView::Binary { .. } => {
            lemma_sourced_named(b, e, "bin"@);
        },
        ExprView::Comparison { .. } => {
            lemma_sourced_named(b, e, "rel"@);
        },
        _ => {},
    }
}

/// Finishing the current block keeps the phis sourced.
pub proof fn lemma_sourced_finish(b: BuilderView, terminator: Option<TerminatorView>)
    requires
        sourced(b),
    ensures
        sourced(b.finish(terminator)),
        extends(b.blocks, b.finish(terminator).blocks),
{
    let after = b.finish(terminator);
    assert(extends(b.blocks, after.blocks));
    assert forall|k: int, i: int|
        0 <= k < after.blocks.len() && 0 <= i < after.blocks[k].instructions.len() implies sources_lead(
        after.blocks,
        #[trigger] after.blocks[k].instructions[i],
        after.blocks[k].name,
    ) by {
        if k < b.blocks.len() {
            assert(after.blocks[k] == b.blocks[k]);
            lemma_sources_extend(b.blocks, after.blocks, b.blocks[k].instructions[i], b.blocks[k].name);
        } else {
            lemma_sources_extend(b.blocks, after.blocks, b.instructions[i], b.name);
        }
    }
}

/// Beginning a block keeps the phis sourced.
pub proof fn lemma_sourced_begin(b: BuilderView, name: Seq<char>, bindings: Numbers)
    requires
        sourced(b),
    ensures
        sourced(b.begin(name, bindings)),
{
}

/// Ending the current block with a jump keeps the phis sourced, and the
/// block then leads to the target.
pub proof fn lemma_sourced_jump(b: BuilderView, target: Seq<char>)
    requires
        sourced(b),
    ensures
        sourced(b.jump_if_open(target)),
        extends(b.blocks, b.jump_if_open(target).blocks),
        b.open ==> leads_from(b.jump_if_open(target).blocks, b.name, target),
{
    if b.open {
        lemma_sourced_finish(b, Some(TerminatorView::Jump { target }));
        let after = b.jump_if_open(target);
        assert(after.blocks[b.blocks.len() as int].name == b.name && leads_to(
            after.blocks[b.blocks.len() as int],
            target,
        ));
    }
}

/// Settling the versions in a merge block keeps the phis sourced, where
/// the arms that reach the merge block lead to it.
pub proof fn lemma_sourced_merge(b: BuilderView, saved: Numbers, from: int, first: ArmEnd, second: ArmEnd)
    requires
        sourced(b),
        first.open && second.open ==> leads_from(b.blocks, first.name, b.name) && leads_from(
            b.blocks,
            second.name,
            b.name,
        ),
    ensures
        merge_bindings(b, saved, from, first, second) matches Ok(after) ==> sourced(after),
    decreases saved.len() - from,
{
    if 0 <= from < saved.len() {
        let variable = saved[from].0;
        let v1 = version_at(first, variable, saved[from].1);
        let v2 = version_at(second, variable, saved[from].1);
        if first.open && second.open && v1 != v2 {
            let incoming = seq![
                (first.name, version_operand(variable, v1)),
                (second.name, version_operand(variable, v2)),
            ];
            let phi = InstructionView::Phi { result: Seq::empty(), incoming };
            assert forall|e: int| 0 <= e < incoming.len() implies leads_from(
                b.blocks,
                (#[trigger] incoming[e]).0,
                b.name,
            ) by {}
            lemma_sourced_define(b, variable, phi);
            if let Ok((n, b1)) = b.define(variable, phi) {
                lemma_sourced_same(b1, b1.bind(variable, n));
                lemma_sourced_merge(b1.bind(variable, n), saved, from + 1, first, second);
            }
        } else if first.open {
            lemma_sourced_same(b, b.bind(variable, v1));
            lemma_sourced_merge(b.bind(variable, v1), saved, from + 1, first, second);
        } else {
            lemma_sourced_same(b, b.bind(variable, v2));
            lemma_sourced_merge(b.bind(variable, v2), saved, from + 1, first, second);
        }
    }
}

/// Ending a conditional keeps the phis sourced, where the arms that reach
/// the merge block lead to it.
pub proof fn lemma_sourced_end_if(b: BuilderView, plan: IfPlan, first: ArmEnd, second: ArmEnd)
    requires
        sourced(b),
        first.open && second.open ==> leads_from(b.blocks, first.name, plan.merge_name) && leads_from(
            b.blocks,
            second.name,
            plan.merge_name,
        ),
    ensures
        end_if(b, plan, first, second) matches Ok(after) ==> sourced(after),
{
    if !first.open && !second.open {
        lemma_sourced_same(b, BuilderView { open: false, ..b });
    } else {
        lemma_sourced_begin(b, plan.merge_name, Seq::empty());
        lemma_sourced_merge(b.begin(plan.merge_name, Seq::empty()), plan.saved, 0, first, second);
    }
}

/// Making the phis of a loop header keeps the phis sourced, where the
/// block `origin` leads to the header.
pub proof fn lemma_sourced_enter(
    b: BuilderView,
    saved: Numbers,
    from: int,
    body: Seq<StatementView>,
    origin: Seq<char>,
    before: Seq<PendingPhi>,
)
    requires
        sourced(b),
        leads_from(b.blocks, origin, b.name),
    ensures
        enter_phis(b, saved, from, body, origin, before) matches Ok((_, after)) ==> sourced(after)
            && after.blocks == b.blocks && after.name == b.name && after.open == b.open && after.labels
            == b.labels,
    decreases saved.len() - from,
{
    if 0 <= from < saved.len() {
        let variable = saved[from].0;
        if assigns(body, 0, variable) {
            let incoming = seq![(origin, version_operand(variable, saved[from].1))];
            let phi = InstructionView::Phi { result: Seq::empty(), incoming };
            assert forall|e: int| 0 <= e < incoming.len() implies leads_from(
                b.blocks,
                (#[trigger] incoming[e]).0,
                b.name,
            ) by {}
            lemma_sourced_define(b, variable, phi);
            if let Ok((n, b1)) = b.define(variable, phi) {
                lemma_sourced_same(b1, b1.bind(variable, n));
                lemma_sourced_enter(
                    b1.bind(variable, n),
                    saved,
                    from + 1,
                    body,
                    origin,
                    before.push(PendingPhi { variable, version: n }),
                );
            }
        } else {
            lemma_sourced_enter(b, saved, from + 1, body, origin, before);
        }
    }
}

/// Beginning a conditional keeps the phis sourced.
pub proof fn lemma_sourced_begin_if(b: BuilderView, condition: ExprView, has_else: bool)
    requires
        sourced(b),
    ensures
        begin_if(b, condition, has_else) matches Ok((_, after)) ==> sourced(after),
{
    lemma_sourced_operand(b, condition);
    if let Ok((c, b1)) = lower_operand(b, condition) {
        if let Ok((t, labels1)) = fresh(b1.labels, "then"@) {
            if let Ok((e, labels2)) = fresh(labels1, "else"@) {
                if let Ok((m, labels3)) = fresh(labels2, "merge"@) {
                    let then_name = ssa_name("then"@, t as nat);
                    let merge_name = ssa_name("merge"@, m as nat);
                    let else_name = if has_else {
                        ssa_name("else"@, e as nat)
                    } else {
                        merge_name
                    };
                    let branch = TerminatorView::Branch {
                        condition: c,
                        then_target: then_name,
                        else_target: else_name,
                    };
                    let b2 = BuilderView { labels: labels3, ..b1 };
                    lemma_sourced_same(b1, b2);
                    lemma_sourced_finish(b2, Some(branch));
                    lemma_sourced_begin(b2.finish(Some(branch)), then_name, b1.bindings);
                }
            }
        }
    }
}

/// Beginning a loop keeps the phis sourced.
pub proof fn lemma_sourced_begin_while(b: BuilderView, condition: ExprView, body: Seq<StatementView>)
    requires
        sourced(b),
    ensures
        begin_while(b, condition, body) matches Ok((_, after)) ==> sourced(after),
{
    if let Ok((h, labels1)) = fresh(b.labels, "loop"@) {
        if let Ok((d, labels2)) = fresh(labels1, "body"@) {
            if let Ok((x, labels3)) = fresh(labels2, "exit"@) {
                let header_name = ssa_name("loop"@, h as nat);
                let body_name = ssa_name("body"@, d as nat);
                let exit_name = ssa_name("exit"@, x as nat);
                let jump = TerminatorView::Jump { target: header_name };
                let b0 = BuilderView { labels: labels3, ..b };
                lemma_sourced_same(b, b0);
                lemma_sourced_finish(b0, Some(jump));
                let bf = b0.finish(Some(jump));
                assert(bf.blocks[b.blocks.len() as int].name == b.name && leads_to(
                    bf.blocks[b.blocks.len() as int],
                    header_name,
                ));
                lemma_sourced_begin(bf, header_name, b.bindings);
                let b1 = bf.begin(header_name, b.bindings);
                lemma_sourced_enter(b1, b.bindings, 0, body, b.name, Seq::empty());
                if let Ok((pending, b2)) = enter_phis(b1, b.bindings, 0, body, b.name, Seq::empty()) {
                    lemma_sourced_operand(b2, condition);
                    if let Ok((c, b3)) = lower_operand(b2, condition) {
                        let branch = TerminatorView::Branch {
                            condition: c,
                            then_target: body_name,
                            else_target: exit_name,
                        };
                        lemma_sourced_finish(b3, Some(branch));
                        lemma_sourced_begin(b3.finish(Some(branch)), body_name, b3.bindings);
                    }
                }
            }
        }
    }
}

/// Ending a loop keeps the phis sourced, where the header is in its place.
pub proof fn lemma_sourced_end_while(b: BuilderView, plan: WhilePlan)
    requires
        sourced(b),
        plan.header_index < b.blocks.len(),
        b.blocks[plan.header_index as int].name == plan.header_name,
    ensures
        sourced(end_while(b, plan)),
{
    let body = b.arm_end();
    lemma_sourced_jump(b, plan.header_name);
    let b1 = b.jump_if_open(plan.header_name);
    let header = b1.blocks[plan.header_index as int];
    let blocks = if body.open && plan.header_index < b1.blocks.len() {
        b1.blocks.update(
            plan.header_index as int,
            BlockView { instructions: close_phis(header.instructions, plan.pending, body), ..header },
        )
    } else {
        b1.blocks
    };
    assert(extends(b1.blocks, blocks));
    let b2 = BuilderView { blocks, ..b1 };
    assert(sourced(b2)) by {
        assert forall|k: int, i: int|
            0 <= k < blocks.len() && 0 <= i < blocks[k].instructions.len() implies sources_lead(
            blocks,
            #[trigger] blocks[k].instructions[i],
            blocks[k].name,
        ) by {
            if body.open && k == plan.header_index {
                let old = header.instructions[i];
                lemma_sources_extend(b1.blocks, blocks, old, header.name);
                if 0 <= i < plan.pending.len() {
                    if let InstructionView::Phi { incoming, .. } = old {
                        let operand = version_operand(
                            plan.pending[i].variable,
                            version_at(body, plan.pending[i].variable, plan.pending[i].version),
                        );
                        let more = incoming.push((body.name, operand));
                        lemma_leads_from_extends(b1.blocks, blocks, body.name, plan.header_name);
                        assert(blocks[k].instructions[i] == old.with_incoming(body.name, operand));
                        assert forall|e: int| 0 <= e < more.len() implies leads_from(
                            blocks,
                            (#[trigger] more[e]).0,
                            header.name,
                        ) by {
                            if e < incoming.len() {
                                assert(more[e] == incoming[e]);
                            }
                        }
                    }
                }
            } else {
                assert(blocks[k] == b1.blocks[k]);
                lemma_sources_extend(b1.blocks, blocks, b1.blocks[k].instructions[i], b1.blocks[k].name);
            }
        }
    }
    lemma_sourced_begin(b2, plan.exit_name, plan.header_bindings);
}

/// Lowering a statement keeps the phis sourced.
pub proof fn lemma_sourced_statement(b: BuilderView, s: StatementView)
    requires
        connected(b),
        sourced(b),
    ensures
        lower_statement(b, s) matches Ok(after) ==> sourced(after),
    decreases s, 1nat,
{
    if b.open {
        match s {
            StatementView::Let { name, value, .. } => {
                lemma_sourced_named(b, value, name);
                if let Ok((n, b1)) = lower_named(b, value, name) {
                    lemma_sourced_same(b1, b1.bind(name, n));
                }
            },
            StatementView::Assignment { target, value } => {
                lemma_sourced_named(b, value, target);
                if let Ok((n, b1)) = lower_named(b, value, target) {
                    lemma_sourced_same(b1, b1.bind(target, n));
                }
            },
            StatementView::Expression { value } => {
                lemma_sourced_operand(b, value);
            },
            StatementView::Return { value } => {
                lemma_sourced_named(b, value, "return"@);
                if let Ok((_, b1)) = lower_named(b, value, "return"@) {
                    lemma_sourced_finish(b1, None);
                }
            },
            StatementView::If { condition, then_branch, else_branch } => {
                lemma_sourced_if(b, condition, then_branch, else_branch);
            },
            StatementView::While { condition, body } => {
                lemma_begin_while(b, condition, body);
                lemma_sourced_begin_while(b, condition, body);
                if let Ok((plan, b1)) = begin_while(b, condition, body) {
                    lemma_lower_statements(b1, body, 0);
                    lemma_sourced_statements(b1, body, 0);
                    if let Ok(b2) = lower_statements(b1, body, 0) {
                        assert(b2.blocks[plan.header_index as int].name == plan.header_name);
                        lemma_sourced_end_while(b2, plan);
                    }
                }
            },
        }
    }
}

/// Lowering a conditional keeps the phis sourced.
pub proof fn lemma_sourced_if(
    b: BuilderView,
    condition: ExprView,
    then_branch: Seq<StatementView>,
    else_branch: Option<Seq<StatementView>>,
)
    requires
        connected(b),
        sourced(b),
        b.open,
    ensures
        lower_statement(b, (StatementView::If { condition, then_branch, else_branch })) matches Ok(
            after,
        ) ==> sourced(after),
    decreases (StatementView::If { condition, then_branch, else_branch }), 0nat,
{
    let has_else = else_branch is Some;
    lemma_begin_if(b, condition, has_else);
    lemma_sourced_begin_if(b, condition, has_else);
    if let Ok((plan, b1)) = begin_if(b, condition, has_else) {
        lemma_lower_statements(b1, then_branch, 0);
        lemma_sourced_statements(b1, then_branch, 0);
        if let Ok(b2) = lower_statements(b1, then_branch, 0) {
            let first = b2.arm_end();
            lemma_sourced_jump(b2, plan.merge_name);
            let b3 = b2.jump_if_open(plan.merge_name);
            lemma_extends_trans(b1.blocks, b2.blocks, b3.blocks);
            let k = b.blocks.len() as int;
            assert(b3.blocks[k].name == b.name && leads_to(b3.blocks[k], plan.else_name));
            match else_branch {
                Some(stmts) => {
                    lemma_sourced_begin(b3, plan.else_name, plan.saved);
                    let b3e = b3.begin(plan.else_name, plan.saved);
                    if b2.open {
                        lemma_finish(b2, Some(TerminatorView::Jump { target: plan.merge_name }));
                    }
                    crate::graph::lemma_begin(b3, plan.else_name, plan.saved);
                    lemma_lower_statements(b3e, stmts, 0);
                    lemma_sourced_statements(b3e, stmts, 0);
                    if let Ok(b4) = lower_statements(b3e, stmts, 0) {
                        let second = b4.arm_end();
                        lemma_sourced_jump(b4, plan.merge_name);
                        let b5 = b4.jump_if_open(plan.merge_name);
                        lemma_extends_trans(b3.blocks, b4.blocks, b5.blocks);
                        if first.open {
                            lemma_leads_from_extends(b3.blocks, b5.blocks, first.name, plan.merge_name);
                        }
                        lemma_sourced_end_if(b5, plan, first, second);
                    }
                },
                None => {
                    let second = ArmEnd { open: true, name: plan.origin, bindings: plan.saved };
                    assert(leads_from(b3.blocks, plan.origin, plan.merge_name));
                    lemma_sourced_end_if(b3, plan, first, second);
                },
            }
        }
    }
}

/// Lowering statements keeps the phis sourced.
pub proof fn lemma_sourced_statements(b: BuilderView, stmts: Seq<StatementView>, from: int)
    requires
        connected(b),
        sourced(b),
    ensures
        lower_statements(b, stmts, from) matches Ok(after) ==> sourced(after),
    decreases stmts, stmts.len() - from,
{
    if 0 <= from < stmts.len() {
        lemma_lower_statement(b, stmts[from]);
        lemma_sourced_statement(b, stmts[from]);
        if let Ok(b1) = lower_statement(b, stmts[from]) {
            lemma_sourced_statements(b1, stmts, from + 1);
        }
    }
}

/// The program that a state with sourced phis is completed to has phis
/// that name predecessors only.
pub proof fn lemma_sourced_completed(b: BuilderView)
    requires
        sourced(b),
    ensures
        has_phi_sources(completed(b)),
{
    let done = if b.open {
        b.finish(None)
    } else {
        b
    };
    if b.open {
        lemma_sourced_finish(b, None);
    }
    let program = completed(b);
    assert(extends(done.blocks, program.blocks));
    assert forall|k: int, i: int|
        0 <= k < program.blocks.len() && 0 <= i < program.blocks[k].instructions.len() implies sources_lead(
        program.blocks,
        #[trigger] program.blocks[k].instructions[i],
        program.blocks[k].name,
    ) by {
        assert(program.blocks[k].instructions[i] == done.blocks[k].instructions[i]);
        lemma_sources_extend(done.blocks, program.blocks, done.blocks[k].instructions[i], done.blocks[k].name);
    }
}

/// Binding parameters makes no phi.
pub proof fn lemma_sourced_parameters(b: BuilderView, parameters: Seq<ParameterView>, from: int)
    requires
        sourced(b),
    ensures
        sourced(bind_parameters(b, parameters, from)),
    decreases parameters.len() - from,
{
    if 0 <= from < parameters.len() {
        lemma_sourced_same(b, b.bind(parameters[from].name, 0));
        lemma_sourced_parameters(b.bind(parameters[from].name, 0), parameters, from + 1);
    }
}

/// Every phi of a lowered statement sequence names blocks that lead to
/// its own block.
pub proof fn lemma_lower_has_phi_sources(stmts: Seq<StatementView>)
    ensures
        lower_spec(stmts) matches Ok(program) ==> has_phi_sources(program),
{
    lemma_sourced_statements(BuilderView::start(), stmts, 0);
    if let Ok(b) = lower_statements(BuilderView::start(), stmts, 0) {
        lemma_sourced_completed(b);
    }
}

/// Every phi of a lowered function body names blocks that lead to its own
/// block.
pub proof fn lemma_lower_body_has_phi_sources(parameters: Seq<ParameterView>, body: Seq<StatementView>)
    ensures
        lower_body_spec(parameters, body) matches Ok(program) ==> has_phi_sources(program),
{
    lemma_bind_parameters(BuilderView::start(), parameters, 0);
    lemma_sourced_parameters(BuilderView::start(), parameters, 0);
    let b0 = bind_parameters(BuilderView::start(), parameters, 0);
    lemma_sourced_statements(b0, body, 0);
    if let Ok(b) = lower_statements(b0, body, 0) {
        lemma_sourced_completed(b);
    }
}

} // verus!
