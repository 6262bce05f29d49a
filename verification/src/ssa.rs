//! Static single assignment: no two instructions of a lowered program
//! define the same name.
//!
//! Every result name is generated: it is made of a base and a number that
//! the counter of that base has passed. A fresh name takes the next number,
//! so it differs from every generated name.

use vstd::prelude::*;
use crate::ast::{ExprView, ParameterView, StatementView};
use crate::builder::{
    begin_if, begin_while, bind_parameters, close_phis, completed, count, end_if, end_while,
    enter_phis, fresh, lower_body_spec, lower_named, lower_operand, lower_spec, lower_statement,
    lower_statements, merge_bindings, ArmEnd, BuilderView, IfPlan, Numbers, PendingPhi, WhilePlan,
};
use crate::ir::{BlockView, InstructionView, ProgramView, TerminatorView};
use crate::names::{lemma_ssa_name_injective, ssa_name};
use crate::table::{find, lemma_find_put, put};

verus! {

/// The result names of a sequence of instructions, in order.
pub open spec fn results_of(instructions: Seq<InstructionView>) -> Seq<Seq<char>> {
    Seq::new(instructions.len(), |i: int| instructions[i].result())
}

/// The result names of the instructions of the first `upto` blocks, block
/// by block.
pub open spec fn block_results(blocks: Seq<BlockView>, upto: int) -> Seq<Seq<char>>
    decreases upto,
{
    if upto <= 0 || upto > blocks.len() {
        Seq::empty()
    } else {
        block_results(blocks, upto - 1) + results_of(blocks[upto - 1].instructions)
    }
}

/// No two instructions of the program define the same name.
pub open spec fn is_ssa(program: ProgramView) -> bool {
    forall|b1: int, i1: int, b2: int, i2: int|
        0 <= b1 < program.blocks.len() && 0 <= i1 < program.blocks[b1].instructions.len() && 0 <= b2
            < program.blocks.len() && 0 <= i2 < program.blocks[b2].instructions.len() && (b1 != b2 || i1
            != i2) ==> (#[trigger] program.blocks[b1].instructions[i1]).result()
            != (#[trigger] program.blocks[b2].instructions[i2]).result()
}

/// Every result name of the program is a generated name with a number of
/// one or more.
pub open spec fn is_versioned(program: ProgramView) -> bool {
    forall|b: int, i: int|
        0 <= b < program.blocks.len() && 0 <= i < program.blocks[b].instructions.len() ==> exists|
            base: Seq<char>,
            n: nat,
        |
            #[trigger] ssa_name(base, n) == (#[trigger] program.blocks[b].instructions[i]).result() && n
                >= 1
}

/// `name` is a base and a number that the counter of the base has passed.
pub open spec fn generated(name: Seq<char>, values: Numbers) -> bool {
    exists|base: Seq<char>, n: nat| #[trigger] ssa_name(base, n) == name && 1 <= n <= count(values, base)
}

/// Every name in `names` is generated.
pub open spec fn all_generated(names: Seq<Seq<char>>, values: Numbers) -> bool {
    forall|i: int| 0 <= i < names.len() ==> generated(#[trigger] names[i], values)
}

/// Every result name that construction has made so far.
pub open spec fn builder_results(b: BuilderView) -> Seq<Seq<char>> {
    block_results(b.blocks, b.blocks.len() as int) + results_of(b.instructions)
}

/// The state of construction holds no result name twice, and only
/// generated ones.
pub open spec fn sound(b: BuilderView) -> bool {
    builder_results(b).no_duplicates() && all_generated(builder_results(b), b.values)
}

/// The results of the first blocks depend on those blocks' results alone.
pub proof fn lemma_block_results_same(a: Seq<BlockView>, b: Seq<BlockView>, upto: int)
    requires
        0 <= upto <= a.len(),
        upto <= b.len(),
        forall|i: int| 0 <= i < upto ==> results_of(a[i].instructions) == results_of(b[i].instructions),
    ensures
        block_results(a, upto) == block_results(b, upto),
    decreases upto,
{
    if upto > 0 {
        lemma_block_results_same(a, b, upto - 1);
    }
}

/// A generated name stays generated when a counter takes its next number.
pub proof fn lemma_generated_grows(name: Seq<char>, values: Numbers, base: Seq<char>)
    requires
        generated(name, values),
        fresh(values, base) is Ok,
    ensures
        generated(name, fresh(values, base)->Ok_0.1),
{
    let (b, n) = choose|b: Seq<char>, n: nat| #[trigger] ssa_name(b, n) == name && 1 <= n <= count(values, b);
    let next = (count(values, base) + 1) as u64;
    lemma_find_put(values, base, next, b);
    assert(ssa_name(b, n) == name && 1 <= n <= count(put(values, base, next), b));
}

/// The next name of a base differs from every generated name, and is
/// generated once the counter has passed it.
pub proof fn lemma_fresh_name(names: Seq<Seq<char>>, values: Numbers, base: Seq<char>)
    requires
        names.no_duplicates(),
        all_generated(names, values),
        fresh(values, base) is Ok,
    ensures
        ({
            let (n, after) = fresh(values, base)->Ok_0;
            &&& names.push(ssa_name(base, n as nat)).no_duplicates()
            &&& all_generated(names.push(ssa_name(base, n as nat)), after)
            &&& all_generated(names, after)
        }),
{
    let (n, after) = fresh(values, base)->Ok_0;
    let name = ssa_name(base, n as nat);
    let extended = names.push(name);
    lemma_find_put(values, base, n, base);
    assert forall|i: int| 0 <= i < names.len() implies names[i] != name && generated(names[i], after) by {
        lemma_generated_grows(names[i], values, base);
        let (b, k) = choose|b: Seq<char>, k: nat|
            #[trigger] ssa_name(b, k) == names[i] && 1 <= k <= count(values, b);
        if names[i] == name {
            lemma_ssa_name_injective(b, k, base, n as nat);
        }
    }
    assert(generated(name, after)) by {
        assert(ssa_name(base, n as nat) == name && 1 <= n as nat <= count(after, base));
    }
    assert forall|i: int| 0 <= i < extended.len() implies generated(#[trigger] extended[i], after) by {
        if i < names.len() {
            assert(extended[i] == names[i]);
        }
    }
    assert forall|i: int, j: int| 0 <= i < extended.len() && 0 <= j < extended.len() && i != j implies extended[i]
        != extended[j] by {
        if i < names.len() && j < names.len() {
            assert(names[i] != names[j]);
        }
    }
}

/// A definition under a fresh name keeps the state sound.
pub proof fn lemma_define(b: BuilderView, base: Seq<char>, shape: InstructionView)
    requires
        sound(b),
    ensures
        b.define(base, shape) matches Ok((_, after)) ==> sound(after),
{
    if let Ok((n, after)) = b.define(base, shape) {
        lemma_fresh_name(builder_results(b), b.values, base);
        assert(builder_results(after) =~= builder_results(b).push(ssa_name(base, n as nat)));
    }
}

/// A finished block holds the results that the current block held.
pub proof fn lemma_finish(b: BuilderView, terminator: Option<TerminatorView>)
    ensures
        builder_results(b.finish(terminator)) == builder_results(b),
{
    let after = b.finish(terminator);
    lemma_block_results_same(after.blocks, b.blocks, b.blocks.len() as int);
    assert(builder_results(after) =~= builder_results(b));
}

/// Beginning a block keeps the state sound.
pub proof fn lemma_begin(b: BuilderView, name: Seq<char>, bindings: Numbers)
    requires
        sound(b),
    ensures
        sound(b.begin(name, bindings)),
{
    let before = builder_results(b);
    let after = builder_results(b.begin(name, bindings));
    assert(after =~= before.subrange(0, after.len() as int));
    assert forall|i: int| 0 <= i < after.len() implies generated(#[trigger] after[i], b.values) by {
        assert(after[i] == before[i]);
    }
    assert forall|i: int, j: int| 0 <= i < after.len() && 0 <= j < after.len() && i != j implies after[i]
        != after[j] by {
        assert(after[i] == before[i] && after[j] == before[j]);
    }
}

/// Lowering an expression keeps the state sound.
pub proof fn lemma_lower_named(b: BuilderView, e: ExprView, base: Seq<char>)
    requires
        sound(b),
    ensures
        lower_named(b, e, base) matches Ok((_, after)) ==> sound(after),
    decreases e, 0nat,
{
    match e {
        ExprView::Integer(value) => {
            lemma_define(b, base, InstructionView::Constant { result: Seq::empty(), value });
        },
        ExprView::Boolean(value) => {
            lemma_define(
                b,
                base,
                InstructionView::Constant { result: Seq::empty(), value: crate::builder::truth(value) },
            );
        },
        ExprView::Variable(name) => {
            if let Some(version) = find(b.bindings, name) {
                lemma_define(
                    b,
                    base,
                    InstructionView::Binary {
                        result: Seq::empty(),
                        op: crate::ast::BinaryOp::Add,
                        left: crate::builder::version_operand(name, version),
                        right: crate::ir::OperandView::Constant(0),
                    },
                );
            }
        },
        ExprView::Binary { op, left, right } => {
            lemma_lower_operand(b, *left);
            if let Ok((l, b1)) = lower_operand(b, *left) {
                lemma_lower_operand(b1, *right);
                if let Ok((r, b2)) = lower_operand(b1, *right) {
                    lemma_define(
                        b2,
                        base,
                        InstructionView::Binary { result: Seq::empty(), op, left: l, right: r },
                    );
                }
            }
        },
        ExprView::Comparison { op, left, right } => {
            lemma_lower_operand(b, *left);
            if let Ok((l, b1)) = lower_operand(b, *left) {
                lemma_lower_operand(b1, *right);
                if let Ok((r, b2)) = lower_operand(b1, *right) {
                    lemma_define(
                        b2,
                        base,
                        InstructionView::Comparison { result: Seq::empty(), op, left: l, right: r },
                    );
                }
            }
        },
        ExprView::Call { .. } => {},
    }
}

/// Lowering an operand keeps the state sound.
pub proof fn lemma_lower_operand(b: BuilderView, e: ExprView)
    requires
        sound(b),
    ensures
        lower_operand(b, e) matches Ok((_, after)) ==> sound(after),
    decreases e, 1nat,
{
    match e {
        ExprView::Binary { .. } => {
            lemma_lower_named(b, e, "bin"@);
        },
        ExprView::Comparison { .. } => {
            lemma_lower_named(b, e, "rel"@);
        },
        _ => {},
    }
}

/// Ending a block with a jump keeps the state sound.
pub proof fn lemma_jump_if_open(b: BuilderView, target: Seq<char>)
    requires
        sound(b),
    ensures
        sound(b.jump_if_open(target)),
{
    if b.open {
        lemma_finish(b, Some(TerminatorView::Jump { target }));
    }
}

/// Beginning a conditional keeps the state sound.
pub proof fn lemma_begin_if(b: BuilderView, condition: ExprView, has_else: bool)
    requires
        sound(b),
    ensures
        begin_if(b, condition, has_else) matches Ok((_, after)) ==> sound(after),
{
    lemma_lower_operand(b, condition);
    if let Ok((plan, after)) = begin_if(b, condition, has_else) {
        let (c, b1) = lower_operand(b, condition)->Ok_0;
        let branch = TerminatorView::Branch {
            condition: c,
            then_target: plan.then_name,
            else_target: plan.else_name,
        };
        let b2 = BuilderView { labels: after.labels, ..b1 };
        assert(builder_results(b2) == builder_results(b1));
        lemma_finish(b2, Some(branch));
        lemma_begin(b2.finish(Some(branch)), plan.then_name, b1.bindings);
    }
}

/// Settling the versions in a merge block keeps the state sound.
pub proof fn lemma_merge_bindings(b: BuilderView, saved: Numbers, from: int, first: ArmEnd, second: ArmEnd)
    requires
        sound(b),
    ensures
        merge_bindings(b, saved, from, first, second) matches Ok(after) ==> sound(after),
    decreases saved.len() - from,
{
    if 0 <= from < saved.len() {
        let variable = saved[from].0;
        let v1 = crate::builder::version_at(first, variable, saved[from].1);
        let v2 = crate::builder::version_at(second, variable, saved[from].1);
        if first.open && second.open && v1 != v2 {
            let phi = InstructionView::Phi {
                result: Seq::empty(),
                incoming: seq![
                    (first.name, crate::builder::version_operand(variable, v1)),
                    (second.name, crate::builder::version_operand(variable, v2)),
                ],
            };
            lemma_define(b, variable, phi);
            if let Ok((n, b1)) = b.define(variable, phi) {
                assert(builder_results(b1.bind(variable, n)) == builder_results(b1));
                lemma_merge_bindings(b1.bind(variable, n), saved, from + 1, first, second);
            }
        } else if first.open {
            assert(builder_results(b.bind(variable, v1)) == builder_results(b));
            lemma_merge_bindings(b.bind(variable, v1), saved, from + 1, first, second);
        } else {
            assert(builder_results(b.bind(variable, v2)) == builder_results(b));
            lemma_merge_bindings(b.bind(variable, v2), saved, from + 1, first, second);
        }
    }
}

/// Ending a conditional keeps the state sound.
pub proof fn lemma_end_if(b: BuilderView, plan: IfPlan, first: ArmEnd, second: ArmEnd)
    requires
        sound(b),
    ensures
        end_if(b, plan, first, second) matches Ok(after) ==> sound(after),
{
    if !first.open && !second.open {
        assert(builder_results(BuilderView { open: false, ..b }) == builder_results(b));
    } else {
        lemma_begin(b, plan.merge_name, Seq::empty());
        lemma_merge_bindings(b.begin(plan.merge_name, Seq::empty()), plan.saved, 0, first, second);
    }
}

/// Making the phis of a loop header keeps the state sound.
pub proof fn lemma_enter_phis(
    b: BuilderView,
    saved: Numbers,
    from: int,
    body: Seq<StatementView>,
    origin: Seq<char>,
    before: Seq<PendingPhi>,
)
    requires
        sound(b),
    ensures
        enter_phis(b, saved, from, body, origin, before) matches Ok((_, after)) ==> sound(after),
    decreases saved.len() - from,
{
    if 0 <= from < saved.len() {
        let variable = saved[from].0;
        if crate::builder::assigns(body, 0, variable) {
            let phi = InstructionView::Phi {
                result: Seq::empty(),
                incoming: seq![(origin, crate::builder::version_operand(variable, saved[from].1))],
            };
            lemma_define(b, variable, phi);
            if let Ok((n, b1)) = b.define(variable, phi) {
                assert(builder_results(b1.bind(variable, n)) == builder_results(b1));
                lemma_enter_phis(
                    b1.bind(variable, n),
                    saved,
                    from + 1,
                    body,
                    origin,
                    before.push(PendingPhi { variable, version: n }),
                );
            }
        } else {
            lemma_enter_phis(b, saved, from + 1, body, origin, before);
        }
    }
}

/// Beginning a loop keeps the state sound.
pub proof fn lemma_begin_while(b: BuilderView, condition: ExprView, body: Seq<StatementView>)
    requires
        sound(b),
    ensures
        begin_while(b, condition, body) matches Ok((_, after)) ==> sound(after),
{
    if let Ok((h, labels1)) = fresh(b.labels, "loop"@) {
        if let Ok((d, labels2)) = fresh(labels1, "body"@) {
            if let Ok((x, labels3)) = fresh(labels2, "exit"@) {
                let header_name = ssa_name("loop"@, h as nat);
                let body_name = ssa_name("body"@, d as nat);
                let exit_name = ssa_name("exit"@, x as nat);
                let jump = TerminatorView::Jump { target: header_name };
                let b0 = BuilderView { labels: labels3, ..b };
                assert(builder_results(b0) == builder_results(b));
                lemma_finish(b0, Some(jump));
                lemma_begin(b0.finish(Some(jump)), header_name, b.bindings);
                let b1 = b0.finish(Some(jump)).begin(header_name, b.bindings);
                lemma_enter_phis(b1, b.bindings, 0, body, b.name, Seq::empty());
                if let Ok((pending, b2)) = enter_phis(b1, b.bindings, 0, body, b.name, Seq::empty()) {
                    lemma_lower_operand(b2, condition);
                    if let Ok((c, b3)) = lower_operand(b2, condition) {
                        let branch = TerminatorView::Branch {
                            condition: c,
                            then_target: body_name,
                            else_target: exit_name,
                        };
                        lemma_finish(b3, Some(branch));
                        lemma_begin(b3.finish(Some(branch)), body_name, b3.bindings);
                    }
                }
            }
        }
    }
}

/// Closing the phis of a header changes no result name.
pub proof fn lemma_close_phis(instructions: Seq<InstructionView>, pending: Seq<PendingPhi>, body: ArmEnd)
    ensures
        results_of(close_phis(instructions, pending, body)) == results_of(instructions),
{
    assert(results_of(close_phis(instructions, pending, body)) =~= results_of(instructions));
}

/// Ending a loop keeps the state sound.
pub proof fn lemma_end_while(b: BuilderView, plan: WhilePlan)
    requires
        sound(b),
    ensures
        sound(end_while(b, plan)),
{
    let body = b.arm_end();
    lemma_jump_if_open(b, plan.header_name);
    let b1 = b.jump_if_open(plan.header_name);
    let closed = if body.open && plan.header_index < b1.blocks.len() {
        let header = b1.blocks[plan.header_index as int];
        lemma_close_phis(header.instructions, plan.pending, body);
        let blocks = b1.blocks.update(
            plan.header_index as int,
            BlockView { instructions: close_phis(header.instructions, plan.pending, body), ..header },
        );
        lemma_block_results_same(blocks, b1.blocks, b1.blocks.len() as int);
        BuilderView { blocks, ..b1 }
    } else {
        b1
    };
    assert(builder_results(closed) == builder_results(b1));
    lemma_begin(closed, plan.exit_name, plan.header_bindings);
}

/// Lowering a statement keeps the state sound.
pub proof fn lemma_lower_statement(b: BuilderView, s: StatementView)
    requires
        sound(b),
    ensures
        lower_statement(b, s) matches Ok(after) ==> sound(after),
    decreases s, 0nat,
{
    if b.open {
        match s {
            StatementView::Let { name, value, .. } => {
                lemma_lower_named(b, value, name);
                if let Ok((n, b1)) = lower_named(b, value, name) {
                    assert(builder_results(b1.bind(name, n)) == builder_results(b1));
                }
            },
            StatementView::Assignment { target, value } => {
                lemma_lower_named(b, value, target);
                if let Ok((n, b1)) = lower_named(b, value, target) {
                    assert(builder_results(b1.bind(target, n)) == builder_results(b1));
                }
            },
            StatementView::Expression { value } => {
                lemma_lower_operand(b, value);
            },
            StatementView::Return { value } => {
                lemma_lower_named(b, value, "return"@);
                if let Ok((_, b1)) = lower_named(b, value, "return"@) {
                    lemma_finish(b1, None);
                }
            },
            StatementView::If { condition, then_branch, else_branch } => {
                lemma_begin_if(b, condition, else_branch is Some);
                if let Ok((plan, b1)) = begin_if(b, condition, else_branch is Some) {
                    lemma_lower_statements(b1, then_branch, 0);
                    if let Ok(b2) = lower_statements(b1, then_branch, 0) {
                        let first = b2.arm_end();
                        lemma_jump_if_open(b2, plan.merge_name);
                        let b3 = b2.jump_if_open(plan.merge_name);
                        match else_branch {
                            Some(stmts) => {
                                lemma_begin(b3, plan.else_name, plan.saved);
                                lemma_lower_statements(b3.begin(plan.else_name, plan.saved), stmts, 0);
                                if let Ok(b4) = lower_statements(
                                    b3.begin(plan.else_name, plan.saved),
                                    stmts,
                                    0,
                                ) {
                                    lemma_jump_if_open(b4, plan.merge_name);
                                    lemma_end_if(
                                        b4.jump_if_open(plan.merge_name),
                                        plan,
                                        first,
                                        b4.arm_end(),
                                    );
                                }
                            },
                            None => {
                                lemma_end_if(
                                    b3,
                                    plan,
                                    first,
                                    ArmEnd { open: true, name: plan.origin, bindings: plan.saved },
                                );
                            },
                        }
                    }
                }
            },
            StatementView::While { condition, body } => {
                lemma_begin_while(b, condition, body);
                if let Ok((plan, b1)) = begin_while(b, condition, body) {
                    lemma_lower_statements(b1, body, 0);
                    if let Ok(b2) = lower_statements(b1, body, 0) {
                        lemma_end_while(b2, plan);
                    }
                }
            },
        }
    }
}

/// Lowering statements keeps the state sound.
pub proof fn lemma_lower_statements(b: BuilderView, stmts: Seq<StatementView>, from: int)
    requires
        sound(b),
    ensures
        lower_statements(b, stmts, from) matches Ok(after) ==> sound(after),
    decreases stmts, stmts.len() - from,
{
    if 0 <= from < stmts.len() {
        lemma_lower_statement(b, stmts[from]);
        if let Ok(b1) = lower_statement(b, stmts[from]) {
            lemma_lower_statements(b1, stmts, from + 1);
        }
    }
}

/// Where the results of the blocks hold no name twice, no two instructions
/// of the blocks define the same name.
pub proof fn lemma_results_distinct(blocks: Seq<BlockView>, upto: int, b1: int, i1: int, b2: int, i2: int)
    requires
        0 <= upto <= blocks.len(),
        block_results(blocks, upto).no_duplicates(),
        0 <= b1 < upto,
        0 <= i1 < blocks[b1].instructions.len(),
        0 <= b2 < upto,
        0 <= i2 < blocks[b2].instructions.len(),
        b1 != b2 || i1 != i2,
    ensures
        blocks[b1].instructions[i1].result() != blocks[b2].instructions[i2].result(),
    decreases upto,
{
    let all = block_results(blocks, upto);
    let before = block_results(blocks, upto - 1);
    let last = results_of(blocks[upto - 1].instructions);
    assert(all == before + last);
    if b1 < upto - 1 && b2 < upto - 1 {
        assert(before.no_duplicates()) by {
            assert forall|i: int, j: int| 0 <= i < before.len() && 0 <= j < before.len() && i != j implies before[i]
                != before[j] by {
                assert(all[i] == before[i] && all[j] == before[j]);
            }
        }
        lemma_results_distinct(blocks, upto - 1, b1, i1, b2, i2);
    } else if b1 == upto - 1 && b2 == upto - 1 {
        assert(all[before.len() + i1] == last[i1]);
        assert(all[before.len() + i2] == last[i2]);
    } else if b1 == upto - 1 {
        lemma_result_occurs(blocks, upto - 1, b2, i2);
        let k = choose|k: int| 0 <= k < before.len() && before[k] == blocks[b2].instructions[i2].result();
        assert(all[k] == before[k]);
        assert(all[before.len() + i1] == last[i1]);
    } else {
        lemma_result_occurs(blocks, upto - 1, b1, i1);
        let k = choose|k: int| 0 <= k < before.len() && before[k] == blocks[b1].instructions[i1].result();
        assert(all[k] == before[k]);
        assert(all[before.len() + i2] == last[i2]);
    }
}

/// The result of every instruction of the first blocks is among their
/// results.
pub proof fn lemma_result_occurs(blocks: Seq<BlockView>, upto: int, b: int, i: int)
    requires
        0 <= upto <= blocks.len(),
        0 <= b < upto,
        0 <= i < blocks[b].instructions.len(),
    ensures
        exists|k: int|
            0 <= k < block_results(blocks, upto).len() && block_results(blocks, upto)[k]
                == blocks[b].instructions[i].result(),
    decreases upto,
{
    let all = block_results(blocks, upto);
    let before = block_results(blocks, upto - 1);
    let last = results_of(blocks[upto - 1].instructions);
    if b == upto - 1 {
        assert(all[before.len() + i] == last[i]);
    } else {
        lemma_result_occurs(blocks, upto - 1, b, i);
        let k = choose|k: int| 0 <= k < before.len() && before[k] == blocks[b].instructions[i].result();
        assert(all[k] == before[k]);
    }
}

/// The program that a sound state is completed to is in static single
/// assignment form.
pub proof fn lemma_completed(b: BuilderView)
    requires
        sound(b),
    ensures
        is_ssa(completed(b)),
{
    let done = if b.open {
        b.finish(None)
    } else {
        b
    };
    if b.open {
        lemma_finish(b, None);
    }
    let program = completed(b);
    lemma_block_results_same(program.blocks, done.blocks, done.blocks.len() as int);
    let all = block_results(done.blocks, done.blocks.len() as int);
    let full = builder_results(done);
    assert(all =~= full.subrange(0, all.len() as int));
    assert(all.no_duplicates()) by {
        assert forall|i: int, j: int| 0 <= i < all.len() && 0 <= j < all.len() && i != j implies all[i]
            != all[j] by {
            assert(all[i] == full[i] && all[j] == full[j]);
        }
    }
    assert forall|b1: int, i1: int, b2: int, i2: int|
        0 <= b1 < program.blocks.len() && 0 <= i1 < program.blocks[b1].instructions.len() && 0 <= b2
            < program.blocks.len() && 0 <= i2 < program.blocks[b2].instructions.len() && (b1 != b2 || i1
            != i2) implies (#[trigger] program.blocks[b1].instructions[i1]).result()
        != (#[trigger] program.blocks[b2].instructions[i2]).result() by {
        lemma_results_distinct(program.blocks, program.blocks.len() as int, b1, i1, b2, i2);
    }
}

/// The program that a sound state is completed to has generated result
/// names only.
pub proof fn lemma_completed_versioned(b: BuilderView)
    requires
        sound(b),
    ensures
        is_versioned(completed(b)),
{
    let done = if b.open {
        b.finish(None)
    } else {
        b
    };
    if b.open {
        lemma_finish(b, None);
    }
    let program = completed(b);
    let all = block_results(done.blocks, done.blocks.len() as int);
    let full = builder_results(done);
    assert forall|b1: int, i1: int|
        0 <= b1 < program.blocks.len() && 0 <= i1 < program.blocks[b1].instructions.len() implies exists|
        base: Seq<char>,
        n: nat,
    |
        #[trigger] ssa_name(base, n) == (#[trigger] program.blocks[b1].instructions[i1]).result() && n
            >= 1 by {
        let name = program.blocks[b1].instructions[i1].result();
        assert(program.blocks[b1].instructions[i1] == done.blocks[b1].instructions[i1]);
        lemma_result_occurs(done.blocks, done.blocks.len() as int, b1, i1);
        let k = choose|k: int| 0 <= k < all.len() && all[k] == name;
        assert(full[k] == name);
        assert(generated(full[k], done.values));
        let (base, n) = choose|base: Seq<char>, n: nat|
            #[trigger] ssa_name(base, n) == name && 1 <= n <= count(done.values, base);
        assert(ssa_name(base, n) == name && n >= 1);
    }
}

/// Binding parameters makes no instruction.
pub proof fn lemma_bind_parameters(b: BuilderView, parameters: Seq<ParameterView>, from: int)
    requires
        sound(b),
    ensures
        sound(bind_parameters(b, parameters, from)),
    decreases parameters.len() - from,
{
    if 0 <= from < parameters.len() {
        assert(builder_results(b.bind(parameters[from].name, 0)) == builder_results(b));
        lemma_bind_parameters(b.bind(parameters[from].name, 0), parameters, from + 1);
    }
}

/// Construction starts sound: with no instruction at all.
pub proof fn lemma_start_sound()
    ensures
        sound(BuilderView::start()),
{
    assert(builder_results(BuilderView::start()) =~= Seq::<Seq<char>>::empty());
}

/// Every lowered statement sequence is in static single assignment form:
/// no two of its instructions define the same name.
pub proof fn lemma_lower_is_ssa(stmts: Seq<StatementView>)
    ensures
        lower_spec(stmts) matches Ok(program) ==> is_ssa(program),
{
    lemma_start_sound();
    lemma_lower_statements(BuilderView::start(), stmts, 0);
    if let Ok(b) = lower_statements(BuilderView::start(), stmts, 0) {
        lemma_completed(b);
    }
}

/// Every result name of a lowered statement sequence is a generated name
/// with a number of one or more.
pub proof fn lemma_lower_is_versioned(stmts: Seq<StatementView>)
    ensures
        lower_spec(stmts) matches Ok(program) ==> is_versioned(program),
{
    lemma_start_sound();
    lemma_lower_statements(BuilderView::start(), stmts, 0);
    if let Ok(b) = lower_statements(BuilderView::start(), stmts, 0) {
        lemma_completed_versioned(b);
    }
}

/// Every result name of a lowered function body is a generated name with
/// a number of one or more.
pub proof fn lemma_lower_body_is_versioned(parameters: Seq<ParameterView>, body: Seq<StatementView>)
    ensures
        lower_body_spec(parameters, body) matches Ok(program) ==> is_versioned(program),
{
    lemma_start_sound();
    lemma_bind_parameters(BuilderView::start(), parameters, 0);
    let b0 = bind_parameters(BuilderView::start(), parameters, 0);
    lemma_lower_statements(b0, body, 0);
    if let Ok(b) = lower_statements(b0, body, 0) {
        lemma_completed_versioned(b);
    }
}

/// Every lowered function body is in static single assignment form: no
/// two of its instructions define the same name.
pub proof fn lemma_lower_body_is_ssa(parameters: Seq<ParameterView>, body: Seq<StatementView>)
    ensures
        lower_body_spec(parameters, body) matches Ok(program) ==> is_ssa(program),
{
    lemma_start_sound();
    lemma_bind_parameters(BuilderView::start(), parameters, 0);
    let b0 = bind_parameters(BuilderView::start(), parameters, 0);
    lemma_lower_statements(b0, body, 0);
    if let Ok(b) = lower_statements(b0, body, 0) {
        lemma_completed(b);
    }
}

} // verus!
