//! The control-flow graph of a lowered program: control enters at the
//! first block, and every block can be reached from it.
//!
//! Construction finishes blocks in an order in which every block but the
//! first is named by the terminator of a block before it.

use vstd::prelude::*;
use crate::ast::{ExprView, ParameterView, StatementView};
use crate::builder::{
    begin_if, begin_while, bind_parameters, close_phis, completed, end_if, end_while, enter_phis,
    fresh, leads_to, predecessors_of, lower_body_spec, lower_named, lower_operand, lower_spec, lower_statement,
    lower_statements, merge_bindings, ArmEnd, BuilderView, IfPlan, Numbers, PendingPhi, WhilePlan,
};
use crate::ir::{entry_name, BlockView, InstructionView, ProgramView, TerminatorView};
use crate::names::ssa_name;

verus! {

/// A walk through the blocks along their terminators that begins at the
/// first block: a sequence of block indices.
pub open spec fn is_path(blocks: Seq<BlockView>, path: Seq<int>) -> bool {
    &&& path.len() > 0
    &&& path[0] == 0
    &&& forall|k: int| 0 <= k < path.len() ==> 0 <= #[trigger] path[k] < blocks.len()
    &&& forall|k: int|
        0 <= k < path.len() - 1 ==> leads_to(blocks[#[trigger] path[k]], blocks[path[k + 1]].name)
}

/// The block at `index` can be reached from the first block.
pub open spec fn reachable(blocks: Seq<BlockView>, index: int) -> bool {
    exists|path: Seq<int>| #[trigger] is_path(blocks, path) && path.last() == index
}

/// Control enters at the first block and reaches every block.
pub open spec fn is_connected(program: ProgramView) -> bool {
    &&& program.blocks.len() > 0
    &&& program.blocks[0].name == program.entry
    &&& forall|i: int| 0 <= i < program.blocks.len() ==> reachable(program.blocks, i)
}

/// The predecessors of every block are the blocks whose terminators name
/// it: the edges of the graph, read backwards.
pub open spec fn has_inverse_edges(program: ProgramView) -> bool {
    forall|i: int, name: Seq<char>|
        0 <= i < program.blocks.len() ==> (#[trigger] program.blocks[i].predecessors.contains(name) <==> exists|
            j: int,
        |
            0 <= j < program.blocks.len() && (#[trigger] program.blocks[j]).name == name && leads_to(
                program.blocks[j],
                program.blocks[i].name,
            ))
}

/// One of the first `upto` blocks names `name` in its terminator.
pub open spec fn targeted(blocks: Seq<BlockView>, upto: int, name: Seq<char>) -> bool {
    exists|j: int| 0 <= j < upto && j < blocks.len() && leads_to(#[trigger] blocks[j], name)
}

/// The first block is the entry, and every other block is named by the
/// terminator of a block before it.
pub open spec fn rooted(blocks: Seq<BlockView>) -> bool {
    &&& blocks.len() > 0 ==> blocks[0].name == entry_name()
    &&& forall|i: int| 1 <= i < blocks.len() ==> targeted(blocks, i, (#[trigger] blocks[i]).name)
}

/// The finished blocks are rooted, and so will the block that is being
/// filled be once it is finished.
pub open spec fn connected(b: BuilderView) -> bool {
    &&& rooted(b.blocks)
    &&& b.open ==> if b.blocks.len() == 0 {
        b.name == entry_name()
    } else {
        targeted(b.blocks, b.blocks.len() as int, b.name)
    }
    &&& !b.open ==> b.blocks.len() > 0
}

/// `after` holds the blocks of `before` at its start, each with the name
/// and the terminator it had.
pub open spec fn extends(before: Seq<BlockView>, after: Seq<BlockView>) -> bool {
    &&& before.len() <= after.len()
    &&& forall|i: int|
        0 <= i < before.len() ==> (#[trigger] after[i]).name == before[i].name && after[i].terminator
            == before[i].terminator
}

/// What was targeted stays targeted as blocks are added.
pub proof fn lemma_targeted_extends(before: Seq<BlockView>, after: Seq<BlockView>, upto: int, name: Seq<char>)
    requires
        extends(before, after),
        targeted(before, upto, name),
    ensures
        targeted(after, upto, name),
        targeted(after, after.len() as int, name),
{
    let j = choose|j: int| 0 <= j < upto && j < before.len() && leads_to(#[trigger] before[j], name);
    assert(leads_to(after[j], name));
}

/// Rooted blocks stay rooted under a change that keeps names and
/// terminators.
pub proof fn lemma_rooted_same(before: Seq<BlockView>, after: Seq<BlockView>)
    requires
        rooted(before),
        extends(before, after),
        before.len() == after.len(),
    ensures
        rooted(after),
{
    assert forall|i: int| 1 <= i < after.len() implies targeted(after, i, (#[trigger] after[i]).name) by {
        assert(targeted(before, i, before[i].name));
        lemma_targeted_extends(before, after, i, before[i].name);
    }
}

/// Finishing the block that is being filled keeps the state connected.
pub proof fn lemma_finish(b: BuilderView, terminator: Option<TerminatorView>)
    requires
        connected(b),
        b.open,
    ensures
        connected(b.finish(terminator)),
        extends(b.blocks, b.finish(terminator).blocks),
        b.finish(terminator).blocks.len() == b.blocks.len() + 1,
        b.finish(terminator).blocks.last().name == b.name,
        b.finish(terminator).blocks.last().terminator == terminator,
{
    let after = b.finish(terminator).blocks;
    assert forall|i: int| 1 <= i < after.len() implies targeted(after, i, (#[trigger] after[i]).name) by {
        if i < b.blocks.len() {
            assert(targeted(b.blocks, i, b.blocks[i].name));
            lemma_targeted_extends(b.blocks, after, i, b.blocks[i].name);
        } else {
            lemma_targeted_extends(b.blocks, after, b.blocks.len() as int, b.name);
        }
    }
}

/// Beginning a block that a finished block leads to keeps the state
/// connected.
pub proof fn lemma_begin(b: BuilderView, name: Seq<char>, bindings: Numbers)
    requires
        connected(b),
        !b.open,
        targeted(b.blocks, b.blocks.len() as int, name),
    ensures
        connected(b.begin(name, bindings)),
{
}

/// Lowering an expression changes the instructions of the current block
/// and the counters, and nothing else.
pub proof fn lemma_lower_named(b: BuilderView, e: ExprView, base: Seq<char>)
    ensures
        lower_named(b, e, base) matches Ok((_, after)) ==> after.blocks == b.blocks && after.name == b.name
            && after.open == b.open && after.bindings == b.bindings && after.labels == b.labels,
    decreases e, 0nat,
{
    match e {
        ExprView::Binary { op, left, right } => {
            lemma_lower_operand(b, *left);
            if let Ok((l, b1)) = lower_operand(b, *left) {
                lemma_lower_operand(b1, *right);
            }
        },
        ExprView::Comparison { op, left, right } => {
            lemma_lower_operand(b, *left);
            if let Ok((l, b1)) = lower_operand(b, *left) {
                lemma_lower_operand(b1, *right);
            }
        },
        _ => {},
    }
}

/// Lowering an operand changes the instructions of the current block and
/// the counters, and nothing else.
pub proof fn lemma_lower_operand(b: BuilderView, e: ExprView)
    ensures
        lower_operand(b, e) matches Ok((_, after)) ==> after.blocks == b.blocks && after.name == b.name
            && after.open == b.open && after.bindings == b.bindings && after.labels == b.labels,
    decreases e, 1nat,
{
    match e {
        ExprView::Binary { .. } => {
            lemma_lower_named(b, e, "bin"@);
        },
        ExprView::Comparison { .. } => {
            lemma_lower_named(b, e, "rel"@);
        },
        _ => {},
    }
}

/// Settling the versions in a merge block changes no finished block.
pub proof fn lemma_merge_bindings(b: BuilderView, saved: Numbers, from: int, first: ArmEnd, second: ArmEnd)
    ensures
        merge_bindings(b, saved, from, first, second) matches Ok(after) ==> after.blocks == b.blocks
            && after.name == b.name && after.open == b.open && after.labels == b.labels,
    decreases saved.len() - from,
{
    if 0 <= from < saved.len() {
        let variable = saved[from].0;
        let v1 = crate::builder::version_at(first, variable, saved[from].1);
        let v2 = crate::builder::version_at(second, variable, saved[from].1);
        if first.open && second.open && v1 != v2 {
            let phi = InstructionView::Phi {
                result: Seq::empty(),
                incoming: seq![
                    (first.name, crate::builder::version_operand(variable, v1)),
                    (second.name, crate::builder::version_operand(variable, v2)),
                ],
            };
            if let Ok((n, b1)) = b.define(variable, phi) {
                lemma_merge_bindings(b1.bind(variable, n), saved, from + 1, first, second);
            }
        } else if first.open {
            lemma_merge_bindings(b.bind(variable, v1), saved, from + 1, first, second);
        } else {
            lemma_merge_bindings(b.bind(variable, v2), saved, from + 1, first, second);
        }
    }
}

/// Making the phis of a loop header changes no finished block.
pub proof fn lemma_enter_phis(
    b: BuilderView,
    saved: Numbers,
    from: int,
    body: Seq<StatementView>,
    origin: Seq<char>,
    before: Seq<PendingPhi>,
)
    ensures
        enter_phis(b, saved, from, body, origin, before) matches Ok((_, after)) ==> after.blocks == b.blocks
            && after.name == b.name && after.open == b.open && after.labels == b.labels,
    decreases saved.len() - from,
{
    if 0 <= from < saved.len() {
        let variable = saved[from].0;
        if crate::builder::assigns(body, 0, variable) {
            let phi = InstructionView::Phi {
                result: Seq::empty(),
                incoming: seq![(origin, crate::builder::version_operand(variable, saved[from].1))],
            };
            if let Ok((n, b1)) = b.define(variable, phi) {
                lemma_enter_phis(
                    b1.bind(variable, n),
                    saved,
                    from + 1,
                    body,
                    origin,
                    before.push(PendingPhi { variable, version: n }),
                );
            }
        } else {
            lemma_enter_phis(b, saved, from + 1, body, origin, before);
        }
    }
}

/// Beginning a conditional keeps the state connected: the block that
/// branches is finished and leads to both arms, and the first arm is begun.
pub proof fn lemma_begin_if(b: BuilderView, condition: ExprView, has_else: bool)
    requires
        connected(b),
        b.open,
    ensures
        begin_if(b, condition, has_else) matches Ok((plan, after)) ==> {
            &&& connected(after)
            &&& after.open
            &&& extends(b.blocks, after.blocks)
            &&& after.blocks.len() == b.blocks.len() + 1
            &&& leads_to(after.blocks.last(), plan.else_name)
            &&& (!has_else ==> plan.else_name == plan.merge_name)
            &&& after.blocks.last().name == b.name
            &&& plan.origin == b.name
            &&& after.name == plan.then_name
        },
{
    lemma_lower_operand(b, condition);
    if let Ok((c, b1)) = lower_operand(b, condition) {
        if let Ok((t, labels1)) = fresh(b1.labels, "then"@) {
            if let Ok((e, labels2)) = fresh(labels1, "else"@) {
                if let Ok((m, labels3)) = fresh(labels2, "merge"@) {
                    let then_name = ssa_name("then"@, t as nat);
                    let merge_name = ssa_name("merge"@, m as nat);
                    let else_name = if has_else {
                        ssa_name("else"@, e as nat)
                    } else {
                        merge_name
                    };
                    let branch = TerminatorView::Branch {
                        condition: c,
                        then_target: then_name,
                        else_target: else_name,
                    };
                    let b2 = BuilderView { labels: labels3, ..b1 };
                    lemma_finish(b2, Some(branch));
                    let b3 = b2.finish(Some(branch));
                    assert(leads_to(b3.blocks[b3.blocks.len() - 1], then_name));
                    lemma_begin(b3, then_name, b1.bindings);
                }
            }
        }
    }
}

/// Ending a conditional keeps the state connected, where each arm that
/// reaches its end has a finished block that leads to the merge block.
pub proof fn lemma_end_if(b: BuilderView, plan: IfPlan, first: ArmEnd, second: ArmEnd)
    requires
        connected(b),
        !b.open,
        first.open || second.open ==> targeted(b.blocks, b.blocks.len() as int, plan.merge_name),
    ensures
        end_if(b, plan, first, second) matches Ok(after) ==> connected(after) && after.blocks == b.blocks,
{
    if first.open || second.open {
        lemma_begin(b, plan.merge_name, Seq::empty());
        lemma_merge_bindings(b.begin(plan.merge_name, Seq::empty()), plan.saved, 0, first, second);
    }
}

/// Beginning a loop keeps the state connected: the header is finished and
/// leads to the body, which is begun, and to the exit.
pub proof fn lemma_begin_while(b: BuilderView, condition: ExprView, body: Seq<StatementView>)
    requires
        connected(b),
        b.open,
    ensures
        begin_while(b, condition, body) matches Ok((plan, after)) ==> {
            &&& connected(after)
            &&& after.open
            &&& extends(b.blocks, after.blocks)
            &&& plan.header_index == after.blocks.len() - 1
            &&& leads_to(after.blocks[plan.header_index as int], plan.exit_name)
            &&& after.blocks[plan.header_index as int].name == plan.header_name
        },
{
    if let Ok((h, labels1)) = fresh(b.labels, "loop"@) {
        if let Ok((d, labels2)) = fresh(labels1, "body"@) {
            if let Ok((x, labels3)) = fresh(labels2, "exit"@) {
                let header_name = ssa_name("loop"@, h as nat);
                let body_name = ssa_name("body"@, d as nat);
                let exit_name = ssa_name("exit"@, x as nat);
                let jump = TerminatorView::Jump { target: header_name };
                let b0 = BuilderView { labels: labels3, ..b };
                lemma_finish(b0, Some(jump));
                let bf = b0.finish(Some(jump));
                assert(leads_to(bf.blocks[bf.blocks.len() - 1], header_name));
                lemma_begin(bf, header_name, b.bindings);
                let b1 = bf.begin(header_name, b.bindings);
                lemma_enter_phis(b1, b.bindings, 0, body, b.name, Seq::empty());
                if let Ok((pending, b2)) = enter_phis(b1, b.bindings, 0, body, b.name, Seq::empty()) {
                    lemma_lower_operand(b2, condition);
                    if let Ok((c, b3)) = lower_operand(b2, condition) {
                        let branch = TerminatorView::Branch {
                            condition: c,
                            then_target: body_name,
                            else_target: exit_name,
                        };
                        lemma_finish(b3, Some(branch));
                        let b4 = b3.finish(Some(branch));
                        assert(leads_to(b4.blocks[b4.blocks.len() - 1], body_name));
                        lemma_begin(b4, body_name, b3.bindings);
                        assert(extends(b.blocks, b4.blocks)) by {
                            assert forall|i: int| 0 <= i < b.blocks.len() implies (#[trigger] b4.blocks[i]).name
                                == b.blocks[i].name && b4.blocks[i].terminator
                                == b.blocks[i].terminator by {
                                assert(b4.blocks[i] == b3.blocks[i]);
                                assert(b3.blocks[i] == bf.blocks[i]);
                            }
                        }
                    }
                }
            }
        }
    }
}

/// Ending a loop keeps the state connected, where the header is a finished
/// block that leads to the exit.
pub proof fn lemma_end_while(b: BuilderView, plan: WhilePlan)
    requires
        connected(b),
        plan.header_index < b.blocks.len(),
        leads_to(b.blocks[plan.header_index as int], plan.exit_name),
    ensures
        connected(end_while(b, plan)),
        extends(b.blocks, end_while(b, plan).blocks),
{
    let body = b.arm_end();
    let b1 = b.jump_if_open(plan.header_name);
    if b.open {
        lemma_finish(b, Some(TerminatorView::Jump { target: plan.header_name }));
    }
    let header = b1.blocks[plan.header_index as int];
    let blocks = if body.open && plan.header_index < b1.blocks.len() {
        b1.blocks.update(
            plan.header_index as int,
            BlockView { instructions: close_phis(header.instructions, plan.pending, body), ..header },
        )
    } else {
        b1.blocks
    };
    assert(extends(b1.blocks, blocks));
    lemma_rooted_same(b1.blocks, blocks);
    let b2 = BuilderView { blocks, ..b1 };
    assert(leads_to(blocks[plan.header_index as int], plan.exit_name));
    lemma_begin(b2, plan.exit_name, plan.header_bindings);
}

/// Extension is transitive.
pub proof fn lemma_extends_trans(a: Seq<BlockView>, b: Seq<BlockView>, c: Seq<BlockView>)
    requires
        extends(a, b),
        extends(b, c),
    ensures
        extends(a, c),
{
    assert forall|i: int| 0 <= i < a.len() implies (#[trigger] c[i]).name == a[i].name && c[i].terminator
        == a[i].terminator by {
        assert(b[i].name == a[i].name);
    }
}

/// Lowering a statement keeps the state connected and the finished blocks
/// in place.
pub proof fn lemma_lower_statement(b: BuilderView, s: StatementView)
    requires
        connected(b),
    ensures
        lower_statement(b, s) matches Ok(after) ==> connected(after) && extends(b.blocks, after.blocks),
    decreases s, 0nat,
{
    if b.open {
        match s {
            StatementView::Let { name, value, .. } => {
                lemma_lower_named(b, value, name);
            },
            StatementView::Assignment { target, value } => {
                lemma_lower_named(b, value, target);
            },
            StatementView::Expression { value } => {
                lemma_lower_operand(b, value);
            },
            StatementView::Return { value } => {
                lemma_lower_named(b, value, "return"@);
                if let Ok((_, b1)) = lower_named(b, value, "return"@) {
                    lemma_finish(b1, None);
                }
            },
            StatementView::If { condition, then_branch, else_branch } => {
                lemma_begin_if(b, condition, else_branch is Some);
                if let Ok((plan, b1)) = begin_if(b, condition, else_branch is Some) {
                    let k = b.blocks.len() as int;
                    lemma_lower_statements(b1, then_branch, 0);
                    if let Ok(b2) = lower_statements(b1, then_branch, 0) {
                        let first = b2.arm_end();
                        let b3 = b2.jump_if_open(plan.merge_name);
                        if b2.open {
                            lemma_finish(b2, Some(TerminatorView::Jump { target: plan.merge_name }));
                            assert(leads_to(b3.blocks[b3.blocks.len() - 1], plan.merge_name));
                        }
                        lemma_extends_trans(b.blocks, b1.blocks, b2.blocks);
                        lemma_extends_trans(b.blocks, b2.blocks, b3.blocks);
                        lemma_extends_trans(b1.blocks, b2.blocks, b3.blocks);
                        assert(leads_to(b3.blocks[k], plan.else_name));
                        match else_branch {
                            Some(stmts) => {
                                lemma_begin(b3, plan.else_name, plan.saved);
                                let b3e = b3.begin(plan.else_name, plan.saved);
                                lemma_lower_statements(b3e, stmts, 0);
                                if let Ok(b4) = lower_statements(b3e, stmts, 0) {
                                    let b5 = b4.jump_if_open(plan.merge_name);
                                    if b4.open {
                                        lemma_finish(
                                            b4,
                                            Some(TerminatorView::Jump { target: plan.merge_name }),
                                        );
                                        assert(leads_to(b5.blocks[b5.blocks.len() - 1], plan.merge_name));
                                    }
                                    lemma_extends_trans(b3.blocks, b4.blocks, b5.blocks);
                                    lemma_extends_trans(b.blocks, b3.blocks, b5.blocks);
                                    if first.open {
                                        assert(leads_to(b5.blocks[b2.blocks.len() as int], plan.merge_name));
                                    }
                                    lemma_end_if(b5, plan, first, b4.arm_end());
                                }
                            },
                            None => {
                                lemma_end_if(
                                    b3,
                                    plan,
                                    first,
                                    ArmEnd { open: true, name: plan.origin, bindings: plan.saved },
                                );
                            },
                        }
                    }
                }
            },
            StatementView::While { condition, body } => {
                lemma_begin_while(b, condition, body);
                if let Ok((plan, b1)) = begin_while(b, condition, body) {
                    lemma_lower_statements(b1, body, 0);
                    if let Ok(b2) = lower_statements(b1, body, 0) {
                        assert(leads_to(b2.blocks[plan.header_index as int], plan.exit_name));
                        lemma_end_while(b2, plan);
                        lemma_extends_trans(b.blocks, b1.blocks, b2.blocks);
                        lemma_extends_trans(b.blocks, b2.blocks, end_while(b2, plan).blocks);
                    }
                }
            },
        }
    }
}

/// Lowering statements keeps the state connected and the finished blocks
/// in place.
pub proof fn lemma_lower_statements(b: BuilderView, stmts: Seq<StatementView>, from: int)
    requires
        connected(b),
    ensures
        lower_statements(b, stmts, from) matches Ok(after) ==> connected(after) && extends(
            b.blocks,
            after.blocks,
        ),
    decreases stmts, stmts.len() - from,
{
    if 0 <= from < stmts.len() {
        lemma_lower_statement(b, stmts[from]);
        if let Ok(b1) = lower_statement(b, stmts[from]) {
            lemma_lower_statements(b1, stmts, from + 1);
            if let Ok(b2) = lower_statements(b1, stmts, from + 1) {
                lemma_extends_trans(b.blocks, b1.blocks, b2.blocks);
            }
        }
    }
}

/// Every block of rooted blocks can be reached from the first.
pub proof fn lemma_rooted_reachable(blocks: Seq<BlockView>, index: int)
    requires
        rooted(blocks),
        0 <= index < blocks.len(),
    ensures
        reachable(blocks, index),
    decreases index,
{
    if index == 0 {
        let path = seq![0int];
        assert(is_path(blocks, path));
        assert(path.last() == index);
    } else {
        assert(targeted(blocks, index, blocks[index].name));
        let j = choose|j: int| 0 <= j < index && j < blocks.len() && leads_to(
            #[trigger] blocks[j],
            blocks[index].name,
        );
        lemma_rooted_reachable(blocks, j);
        let before = choose|path: Seq<int>| #[trigger] is_path(blocks, path) && path.last() == j;
        let path = before.push(index);
        assert forall|k: int| 0 <= k < path.len() - 1 implies leads_to(
            blocks[#[trigger] path[k]],
            blocks[path[k + 1]].name,
        ) by {
            if k < before.len() - 1 {
                assert(path[k] == before[k] && path[k + 1] == before[k + 1]);
            } else {
                assert(path[k] == j && path[k + 1] == index);
            }
        }
        assert(is_path(blocks, path));
        assert(path.last() == index);
    }
}

/// The predecessors found for a block are the names of the blocks whose
/// terminators name it.
pub proof fn lemma_predecessors_of(blocks: Seq<BlockView>, target: Seq<char>, upto: int, name: Seq<char>)
    requires
        0 <= upto <= blocks.len(),
    ensures
        predecessors_of(blocks, target, upto).contains(name) <==> exists|j: int|
            0 <= j < upto && (#[trigger] blocks[j]).name == name && leads_to(blocks[j], target),
    decreases upto,
{
    if upto > 0 {
        lemma_predecessors_of(blocks, target, upto - 1, name);
        let before = predecessors_of(blocks, target, upto - 1);
        let all = predecessors_of(blocks, target, upto);
        let last = blocks[upto - 1];
        if leads_to(last, target) {
            assert(all == before.push(last.name));
            if all.contains(name) {
                let k = choose|k: int| 0 <= k < all.len() && all[k] == name;
                if k < before.len() {
                    assert(before[k] == name);
                    assert(before.contains(name));
                } else {
                    assert(last.name == name);
                }
            }
            if before.contains(name) {
                let k = choose|k: int| 0 <= k < before.len() && before[k] == name;
                assert(all[k] == name);
            }
            if last.name == name {
                assert(all[before.len() as int] == name);
            }
        }
    } else {
        assert(!predecessors_of(blocks, target, upto).contains(name));
    }
}

/// Completion gives every block the blocks that lead to it as its
/// predecessors.
pub proof fn lemma_completed_edges(b: BuilderView)
    ensures
        has_inverse_edges(completed(b)),
{
    let done = if b.open {
        b.finish(None)
    } else {
        b
    };
    let program = completed(b);
    assert forall|i: int, name: Seq<char>| 0 <= i < program.blocks.len() implies (#[trigger] program.blocks[i].predecessors.contains(
        name,
    ) <==> exists|j: int|
        0 <= j < program.blocks.len() && (#[trigger] program.blocks[j]).name == name && leads_to(
            program.blocks[j],
            program.blocks[i].name,
        )) by {
        lemma_predecessors_of(done.blocks, done.blocks[i].name, done.blocks.len() as int, name);
        if exists|j: int|
            0 <= j < done.blocks.len() && (#[trigger] done.blocks[j]).name == name && leads_to(
                done.blocks[j],
                done.blocks[i].name,
            ) {
            let j = choose|j: int|
                0 <= j < done.blocks.len() && (#[trigger] done.blocks[j]).name == name && leads_to(
                    done.blocks[j],
                    done.blocks[i].name,
                );
            assert(program.blocks[j].name == name && leads_to(program.blocks[j], program.blocks[i].name));
        }
        if exists|j: int|
            0 <= j < program.blocks.len() && (#[trigger] program.blocks[j]).name == name && leads_to(
                program.blocks[j],
                program.blocks[i].name,
            ) {
            let j = choose|j: int|
                0 <= j < program.blocks.len() && (#[trigger] program.blocks[j]).name == name && leads_to(
                    program.blocks[j],
                    program.blocks[i].name,
                );
            assert(done.blocks[j].name == name && leads_to(done.blocks[j], done.blocks[i].name));
        }
    }
}

/// The program that a connected state is completed to is connected.
pub proof fn lemma_completed(b: BuilderView)
    requires
        connected(b),
    ensures
        is_connected(completed(b)),
{
    let done = if b.open {
        b.finish(None)
    } else {
        b
    };
    if b.open {
        lemma_finish(b, None);
    }
    let program = completed(b);
    assert(extends(done.blocks, program.blocks));
    lemma_rooted_same(done.blocks, program.blocks);
    assert forall|i: int| 0 <= i < program.blocks.len() implies reachable(program.blocks, i) by {
        lemma_rooted_reachable(program.blocks, i);
    }
}

/// Binding parameters changes the versions of variables only.
pub proof fn lemma_bind_parameters(b: BuilderView, parameters: Seq<ParameterView>, from: int)
    requires
        connected(b),
    ensures
        connected(bind_parameters(b, parameters, from)),
    decreases parameters.len() - from,
{
    if 0 <= from < parameters.len() {
        lemma_bind_parameters(b.bind(parameters[from].name, 0), parameters, from + 1);
    }
}

/// In every lowered statement sequence control enters at the first block,
/// and every block can be reached from it.
pub proof fn lemma_lower_is_connected(stmts: Seq<StatementView>)
    ensures
        lower_spec(stmts) matches Ok(program) ==> is_connected(program),
{
    lemma_lower_statements(BuilderView::start(), stmts, 0);
    if let Ok(b) = lower_statements(BuilderView::start(), stmts, 0) {
        lemma_completed(b);
    }
}

/// In every lowered statement sequence the predecessors of a block are
/// the blocks whose terminators name it.
pub proof fn lemma_lower_has_inverse_edges(stmts: Seq<StatementView>)
    ensures
        lower_spec(stmts) matches Ok(program) ==> has_inverse_edges(program),
{
    if let Ok(b) = lower_statements(BuilderView::start(), stmts, 0) {
        lemma_completed_edges(b);
    }
}

/// In every lowered function body the predecessors of a block are the
/// blocks whose terminators name it.
pub proof fn lemma_lower_body_has_inverse_edges(parameters: Seq<ParameterView>, body: Seq<StatementView>)
    ensures
        lower_body_spec(parameters, body) matches Ok(program) ==> has_inverse_edges(program),
{
    let b0 = bind_parameters(BuilderView::start(), parameters, 0);
    if let Ok(b) = lower_statements(b0, body, 0) {
        lemma_completed_edges(b);
    }
}

/// In every lowered function body control enters at the first block, and
/// every block can be reached from it.
pub proof fn lemma_lower_body_is_connected(parameters: Seq<ParameterView>, body: Seq<StatementView>)
    ensures
        lower_body_spec(parameters, body) matches Ok(program) ==> is_connected(program),
{
    lemma_bind_parameters(BuilderView::start(), parameters, 0);
    let b0 = bind_parameters(BuilderView::start(), parameters, 0);
    lemma_lower_statements(b0, body, 0);
    if let Ok(b) = lower_statements(b0, body, 0) {
        lemma_completed(b);
    }
}

} // verus!
