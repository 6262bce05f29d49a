//! No two blocks of a lowered program have the same name.
//!
//! Every block name is generated from the counters for block names, and a
//! name is given to one block at most: it is promised when it is made, and
//! the promise is spent when the block is begun.

use vstd::prelude::*;
use crate::ast::{ExprView, ParameterView, StatementView};
use crate::builder::{
    begin_if, begin_while, bind_parameters, close_phis, completed, count, end_if, end_while,
    enter_phis, fresh, lower_body_spec, lower_named, lower_operand, lower_spec, lower_statement,
    lower_statements, ArmEnd, BuilderView, IfPlan, Numbers, WhilePlan,
};
use crate::graph::{
    lemma_enter_phis, lemma_lower_named, lemma_lower_operand, lemma_merge_bindings,
};
use crate::ir::{entry_name, BlockView, ProgramView, TerminatorView};
use crate::names::{lemma_ssa_name_injective, ssa_name};
use crate::ssa::{generated, lemma_generated_grows};
use crate::table::lemma_find_put;

verus! {

/// No two of the blocks have the same name.
pub open spec fn distinct_names(blocks: Seq<BlockView>) -> bool {
    forall|i: int, j: int|
        0 <= i < blocks.len() && 0 <= j < blocks.len() && i != j ==> (#[trigger] blocks[i]).name
            != (#[trigger] blocks[j]).name
}

/// No two blocks of the program have the same name.
pub open spec fn has_distinct_blocks(program: ProgramView) -> bool {
    distinct_names(program.blocks)
}

/// The names of the finished blocks, of the block that is being filled and
/// of the promised blocks are generated and differ from each other.
pub open spec fn apart(b: BuilderView, promised: Set<Seq<char>>) -> bool {
    &&& distinct_names(b.blocks)
    &&& forall|i: int|
        0 <= i < b.blocks.len() ==> generated((#[trigger] b.blocks[i]).name, b.labels)
            && !promised.contains(b.blocks[i].name) && (b.open ==> b.blocks[i].name != b.name)
    &&& b.open ==> generated(b.name, b.labels) && !promised.contains(b.name)
    &&& forall|p: Seq<char>| promised.contains(p) ==> generated(p, b.labels)
}

/// The next name of a base is not generated yet.
pub proof fn lemma_next_is_new(labels: Numbers, base: Seq<char>)
    requires
        fresh(labels, base) is Ok,
    ensures
        !generated(ssa_name(base, fresh(labels, base)->Ok_0.0 as nat), labels),
{
    let n = fresh(labels, base)->Ok_0.0;
    if generated(ssa_name(base, n as nat), labels) {
        let (b, k) = choose|b: Seq<char>, k: nat|
            #[trigger] ssa_name(b, k) == ssa_name(base, n as nat) && 1 <= k <= count(labels, b);
        lemma_ssa_name_injective(b, k, base, n as nat);
    }
}

/// A fresh block name can be promised.
pub proof fn lemma_promise(b: BuilderView, base: Seq<char>, promised: Set<Seq<char>>)
    requires
        apart(b, promised),
        fresh(b.labels, base) is Ok,
    ensures
        ({
            let (n, labels) = fresh(b.labels, base)->Ok_0;
            &&& apart(BuilderView { labels, ..b }, promised.insert(ssa_name(base, n as nat)))
            &&& !promised.contains(ssa_name(base, n as nat))
        }),
{
    let (n, labels) = fresh(b.labels, base)->Ok_0;
    let name = ssa_name(base, n as nat);
    let after = BuilderView { labels, ..b };
    let more = promised.insert(name);
    lemma_next_is_new(b.labels, base);
    lemma_find_put(b.labels, base, n, base);
    assert(generated(name, labels)) by {
        assert(ssa_name(base, n as nat) == name && 1 <= n as nat <= count(labels, base));
    }
    assert forall|i: int| 0 <= i < after.blocks.len() implies generated(
        (#[trigger] after.blocks[i]).name,
        labels,
    ) && !more.contains(after.blocks[i].name) by {
        lemma_generated_grows(b.blocks[i].name, b.labels, base);
    }
    if b.open {
        lemma_generated_grows(b.name, b.labels, base);
    }
    assert forall|p: Seq<char>| more.contains(p) implies generated(p, labels) by {
        if promised.contains(p) {
            lemma_generated_grows(p, b.labels, base);
        }
    }
}

/// Promises can be dropped.
pub proof fn lemma_apart_less(b: BuilderView, promised: Set<Seq<char>>, fewer: Set<Seq<char>>)
    requires
        apart(b, promised),
        fewer.subset_of(promised),
    ensures
        apart(b, fewer),
{
}

/// A state with the same blocks, the same current block, the same reach
/// and the same counters has its names apart where the other has.
pub proof fn lemma_apart_same(b: BuilderView, after: BuilderView, promised: Set<Seq<char>>)
    requires
        apart(b, promised),
        after.blocks == b.blocks,
        after.name == b.name,
        after.open == b.open,
        after.labels == b.labels,
    ensures
        apart(after, promised),
{
}

/// Finishing the current block keeps the names apart.
pub proof fn lemma_apart_finish(b: BuilderView, terminator: Option<TerminatorView>, promised: Set<Seq<char>>)
    requires
        apart(b, promised),
        b.open,
    ensures
        apart(b.finish(terminator), promised),
{
    let after = b.finish(terminator);
    assert forall|i: int, j: int|
        0 <= i < after.blocks.len() && 0 <= j < after.blocks.len() && i != j implies (#[trigger] after.blocks[i]).name
        != (#[trigger] after.blocks[j]).name by {
        if i < b.blocks.len() && j < b.blocks.len() {
            assert(b.blocks[i].name != b.blocks[j].name);
        } else if i < b.blocks.len() {
            assert(b.blocks[i].name != b.name);
        } else {
            assert(b.blocks[j].name != b.name);
        }
    }
    assert forall|i: int| 0 <= i < after.blocks.len() implies generated(
        (#[trigger] after.blocks[i]).name,
        after.labels,
    ) && !promised.contains(after.blocks[i].name) by {
        if i < b.blocks.len() {
            assert(after.blocks[i] == b.blocks[i]);
        }
    }
}

/// Ending the current block with a jump keeps the names apart.
pub proof fn lemma_apart_jump(b: BuilderView, target: Seq<char>, promised: Set<Seq<char>>)
    requires
        apart(b, promised),
    ensures
        apart(b.jump_if_open(target), promised),
        !b.jump_if_open(target).open,
{
    if b.open {
        lemma_apart_finish(b, Some(TerminatorView::Jump { target }), promised);
    }
}

/// Beginning a promised block spends the promise.
pub proof fn lemma_apart_begin(b: BuilderView, name: Seq<char>, bindings: Numbers, promised: Set<Seq<char>>)
    requires
        apart(b, promised),
        promised.contains(name),
        !b.open,
    ensures
        apart(b.begin(name, bindings), promised.remove(name)),
{
    let after = b.begin(name, bindings);
    assert forall|i: int| 0 <= i < after.blocks.len() implies (#[trigger] after.blocks[i]).name != name by {
        assert(!promised.contains(b.blocks[i].name));
    }
}

/// Beginning a conditional keeps the names apart, with the other arm and
/// the merge block promised.
pub proof fn lemma_apart_begin_if(b: BuilderView, condition: ExprView, has_else: bool, promised: Set<Seq<char>>)
    requires
        apart(b, promised),
        b.open,
    ensures
        begin_if(b, condition, has_else) matches Ok((plan, after)) ==> {
            &&& apart(after, promised.insert(plan.else_name).insert(plan.merge_name))
            &&& !promised.contains(plan.else_name)
            &&& !promised.contains(plan.merge_name)
            &&& (has_else ==> plan.else_name != plan.merge_name)
        },
{
    lemma_lower_operand(b, condition);
    if let Ok((c, b1)) = lower_operand(b, condition) {
        lemma_apart_same(b, b1, promised);
        if let Ok((t, labels1)) = fresh(b1.labels, "then"@) {
            lemma_promise(b1, "then"@, promised);
            let then_name = ssa_name("then"@, t as nat);
            let with_then = promised.insert(then_name);
            let s1 = BuilderView { labels: labels1, ..b1 };
            if let Ok((e, labels2)) = fresh(labels1, "else"@) {
                lemma_promise(s1, "else"@, with_then);
                let fresh_else = ssa_name("else"@, e as nat);
                let with_else = with_then.insert(fresh_else);
                let s2 = BuilderView { labels: labels2, ..b1 };
                if let Ok((m, labels3)) = fresh(labels2, "merge"@) {
                    lemma_promise(s2, "merge"@, with_else);
                    let merge_name = ssa_name("merge"@, m as nat);
                    let with_all = with_else.insert(merge_name);
                    let s3 = BuilderView { labels: labels3, ..b1 };
                    let else_name = if has_else {
                        fresh_else
                    } else {
                        merge_name
                    };
                    let branch = TerminatorView::Branch {
                        condition: c,
                        then_target: then_name,
                        else_target: else_name,
                    };
                    lemma_apart_finish(s3, Some(branch), with_all);
                    lemma_apart_begin(s3.finish(Some(branch)), then_name, b1.bindings, with_all);
                    lemma_apart_less(
                        s3.finish(Some(branch)).begin(then_name, b1.bindings),
                        with_all.remove(then_name),
                        promised.insert(else_name).insert(merge_name),
                    );
                }
            }
        }
    }
}

/// Ending a conditional keeps the names apart.
pub proof fn lemma_apart_end_if(b: BuilderView, plan: IfPlan, first: ArmEnd, second: ArmEnd, promised: Set<Seq<char>>)
    requires
        apart(b, promised.insert(plan.merge_name)),
        !promised.contains(plan.merge_name),
        !b.open,
    ensures
        end_if(b, plan, first, second) matches Ok(after) ==> apart(after, promised),
{
    let with_merge = promised.insert(plan.merge_name);
    if first.open || second.open {
        lemma_apart_begin(b, plan.merge_name, Seq::empty(), with_merge);
        let b1 = b.begin(plan.merge_name, Seq::empty());
        lemma_apart_less(b1, with_merge.remove(plan.merge_name), promised);
        lemma_merge_bindings(b1, plan.saved, 0, first, second);
        if let Ok(after) = end_if(b, plan, first, second) {
            lemma_apart_same(b1, after, promised);
        }
    } else {
        lemma_apart_less(b, with_merge, promised);
        lemma_apart_same(b, BuilderView { open: false, ..b }, promised);
    }
}

/// Beginning a loop keeps the names apart, with the exit promised.
pub proof fn lemma_apart_begin_while(
    b: BuilderView,
    condition: ExprView,
    body: Seq<StatementView>,
    promised: Set<Seq<char>>,
)
    requires
        apart(b, promised),
        b.open,
    ensures
        begin_while(b, condition, body) matches Ok((plan, after)) ==> {
            &&& apart(after, promised.insert(plan.exit_name))
            &&& !promised.contains(plan.exit_name)
        },
{
    if let Ok((h, labels1)) = fresh(b.labels, "loop"@) {
        lemma_promise(b, "loop"@, promised);
        let header_name = ssa_name("loop"@, h as nat);
        let with_header = promised.insert(header_name);
        let s1 = BuilderView { labels: labels1, ..b };
        if let Ok((d, labels2)) = fresh(labels1, "body"@) {
            lemma_promise(s1, "body"@, with_header);
            let body_name = ssa_name("body"@, d as nat);
            let with_body = with_header.insert(body_name);
            let s2 = BuilderView { labels: labels2, ..b };
            if let Ok((x, labels3)) = fresh(labels2, "exit"@) {
                lemma_promise(s2, "exit"@, with_body);
                let exit_name = ssa_name("exit"@, x as nat);
                let with_all = with_body.insert(exit_name);
                let b0 = BuilderView { labels: labels3, ..b };
                let jump = TerminatorView::Jump { target: header_name };
                lemma_apart_finish(b0, Some(jump), with_all);
                lemma_apart_begin(b0.finish(Some(jump)), header_name, b.bindings, with_all);
                let b1 = b0.finish(Some(jump)).begin(header_name, b.bindings);
                let with_rest = with_all.remove(header_name);
                lemma_enter_phis(b1, b.bindings, 0, body, b.name, Seq::empty());
                if let Ok((pending, b2)) = enter_phis(b1, b.bindings, 0, body, b.name, Seq::empty()) {
                    lemma_lower_operand(b2, condition);
                    if let Ok((c, b3)) = lower_operand(b2, condition) {
                        lemma_apart_same(b1, b3, with_rest);
                        let branch = TerminatorView::Branch {
                            condition: c,
                            then_target: body_name,
                            else_target: exit_name,
                        };
                        lemma_apart_finish(b3, Some(branch), with_rest);
                        lemma_apart_begin(b3.finish(Some(branch)), body_name, b3.bindings, with_rest);
                        lemma_apart_less(
                            b3.finish(Some(branch)).begin(body_name, b3.bindings),
                            with_rest.remove(body_name),
                            promised.insert(exit_name),
                        );
                    }
                }
            }
        }
    }
}

/// Ending a loop keeps the names apart.
pub proof fn lemma_apart_end_while(b: BuilderView, plan: WhilePlan, promised: Set<Seq<char>>)
    requires
        apart(b, promised.insert(plan.exit_name)),
        !promised.contains(plan.exit_name),
    ensures
        apart(end_while(b, plan), promised),
{
    let body = b.arm_end();
    let with_exit = promised.insert(plan.exit_name);
    lemma_apart_jump(b, plan.header_name, with_exit);
    let b1 = b.jump_if_open(plan.header_name);
    let blocks = if body.open && plan.header_index < b1.blocks.len() {
        let header = b1.blocks[plan.header_index as int];
        b1.blocks.update(
            plan.header_index as int,
            BlockView { instructions: close_phis(header.instructions, plan.pending, body), ..header },
        )
    } else {
        b1.blocks
    };
    let b2 = BuilderView { blocks, ..b1 };
    assert forall|i: int| 0 <= i < blocks.len() implies (#[trigger] blocks[i]).name == b1.blocks[i].name by {}
    assert(apart(b2, with_exit)) by {
        assert forall|i: int, j: int|
            0 <= i < blocks.len() && 0 <= j < blocks.len() && i != j implies (#[trigger] blocks[i]).name
            != (#[trigger] blocks[j]).name by {
            assert(b1.blocks[i].name != b1.blocks[j].name);
        }
        assert forall|i: int| 0 <= i < b2.blocks.len() implies generated(
            (#[trigger] b2.blocks[i]).name,
            b2.labels,
        ) && !with_exit.contains(b2.blocks[i].name) by {
            assert(generated(b1.blocks[i].name, b1.labels));
        }
    }
    lemma_apart_begin(b2, plan.exit_name, plan.header_bindings, with_exit);
    lemma_apart_less(b2.begin(plan.exit_name, plan.header_bindings), with_exit.remove(plan.exit_name), promised);
}

/// Lowering a statement keeps the names apart.
pub proof fn lemma_apart_statement(b: BuilderView, s: StatementView, promised: Set<Seq<char>>)
    requires
        apart(b, promised),
    ensures
        lower_statement(b, s) matches Ok(after) ==> apart(after, promised),
    decreases s, 1nat,
{
    if b.open {
        match s {
            StatementView::Let { name, value, .. } => {
                lemma_lower_named(b, value, name);
                if let Ok((n, b1)) = lower_named(b, value, name) {
                    lemma_apart_same(b, b1.bind(name, n), promised);
                }
            },
            StatementView::Assignment { target, value } => {
                lemma_lower_named(b, value, target);
                if let Ok((n, b1)) = lower_named(b, value, target) {
                    lemma_apart_same(b, b1.bind(target, n), promised);
                }
            },
            StatementView::Expression { value } => {
                lemma_lower_operand(b, value);
                if let Ok((_, b1)) = lower_operand(b, value) {
                    lemma_apart_same(b, b1, promised);
                }
            },
            StatementView::Return { value } => {
                lemma_lower_named(b, value, "return"@);
                if let Ok((_, b1)) = lower_named(b, value, "return"@) {
                    lemma_apart_same(b, b1, promised);
                    lemma_apart_finish(b1, None, promised);
                }
            },
            StatementView::If { condition, then_branch, else_branch } => {
                lemma_apart_if(b, condition, then_branch, else_branch, promised);
            },
            StatementView::While { condition, body } => {
                lemma_apart_begin_while(b, condition, body, promised);
                if let Ok((plan, b1)) = begin_while(b, condition, body) {
                    lemma_apart_statements(b1, body, 0, promised.insert(plan.exit_name));
                    if let Ok(b2) = lower_statements(b1, body, 0) {
                        lemma_apart_end_while(b2, plan, promised);
                    }
                }
            },
        }
    }
}

/// Lowering a conditional keeps the names apart.
pub proof fn lemma_apart_if(
    b: BuilderView,
    condition: ExprView,
    then_branch: Seq<StatementView>,
    else_branch: Option<Seq<StatementView>>,
    promised: Set<Seq<char>>,
)
    requires
        apart(b, promised),
        b.open,
    ensures
        lower_statement(b, (StatementView::If { condition, then_branch, else_branch })) matches Ok(
            after,
        ) ==> apart(after, promised),
    decreases (StatementView::If { condition, then_branch, else_branch }), 0nat,
{
    let has_else = else_branch is Some;
    lemma_apart_begin_if(b, condition, has_else, promised);
    if let Ok((plan, b1)) = begin_if(b, condition, has_else) {
        let with_merge = promised.insert(plan.merge_name);
        let with_both = promised.insert(plan.else_name).insert(plan.merge_name);
        lemma_apart_statements(b1, then_branch, 0, with_both);
        if let Ok(b2) = lower_statements(b1, then_branch, 0) {
            let first = b2.arm_end();
            lemma_apart_jump(b2, plan.merge_name, with_both);
            let b3 = b2.jump_if_open(plan.merge_name);
            match else_branch {
                Some(stmts) => {
                    lemma_apart_begin(b3, plan.else_name, plan.saved, with_both);
                    let b3e = b3.begin(plan.else_name, plan.saved);
                    lemma_apart_less(b3e, with_both.remove(plan.else_name), with_merge);
                    lemma_apart_statements(b3e, stmts, 0, with_merge);
                    if let Ok(b4) = lower_statements(b3e, stmts, 0) {
                        lemma_apart_jump(b4, plan.merge_name, with_merge);
                        lemma_apart_end_if(b4.jump_if_open(plan.merge_name), plan, first, b4.arm_end(), promised);
                    }
                },
                None => {
                    lemma_apart_less(b3, with_both, with_merge);
                    lemma_apart_end_if(
                        b3,
                        plan,
                        first,
                        ArmEnd { open: true, name: plan.origin, bindings: plan.saved },
                        promised,
                    );
                },
            }
        }
    }
}

/// Lowering statements keeps the names apart.
pub proof fn lemma_apart_statements(
    b: BuilderView,
    stmts: Seq<StatementView>,
    from: int,
    promised: Set<Seq<char>>,
)
    requires
        apart(b, promised),
    ensures
        lower_statements(b, stmts, from) matches Ok(after) ==> apart(after, promised),
    decreases stmts, stmts.len() - from,
{
    if 0 <= from < stmts.len() {
        lemma_apart_statement(b, stmts[from], promised);
        if let Ok(b1) = lower_statement(b, stmts[from]) {
            lemma_apart_statements(b1, stmts, from + 1, promised);
        }
    }
}

/// Construction starts with the entry block's name alone.
pub proof fn lemma_apart_start()
    ensures
        apart(BuilderView::start(), Set::empty()),
{
    let b = BuilderView::start();
    assert(generated(b.name, b.labels)) by {
        assert(crate::table::position(b.labels, "entry"@, 0) == 0);
        assert(ssa_name("entry"@, 1) == entry_name() && 1 <= 1nat <= count(b.labels, "entry"@));
    }
}

/// Binding parameters names no block.
pub proof fn lemma_apart_parameters(b: BuilderView, parameters: Seq<ParameterView>, from: int)
    requires
        apart(b, Set::empty()),
    ensures
        apart(bind_parameters(b, parameters, from), Set::empty()),
    decreases parameters.len() - from,
{
    if 0 <= from < parameters.len() {
        lemma_apart_same(b, b.bind(parameters[from].name, 0), Set::empty());
        lemma_apart_parameters(b.bind(parameters[from].name, 0), parameters, from + 1);
    }
}

/// The program that a state with its names apart is completed to has
/// distinct block names.
pub proof fn lemma_apart_completed(b: BuilderView)
    requires
        apart(b, Set::empty()),
    ensures
        has_distinct_blocks(completed(b)),
{
    let done = if b.open {
        b.finish(None)
    } else {
        b
    };
    if b.open {
        lemma_apart_finish(b, None, Set::empty());
    }
    let program = completed(b);
    assert forall|i: int, j: int|
        0 <= i < program.blocks.len() && 0 <= j < program.blocks.len() && i != j implies (#[trigger] program.blocks[i]).name
        != (#[trigger] program.blocks[j]).name by {
        assert(done.blocks[i].name != done.blocks[j].name);
    }
}

/// No two blocks of a lowered statement sequence have the same name.
pub proof fn lemma_lower_has_distinct_blocks(stmts: Seq<StatementView>)
    ensures
        lower_spec(stmts) matches Ok(program) ==> has_distinct_blocks(program),
{
    lemma_apart_start();
    lemma_apart_statements(BuilderView::start(), stmts, 0, Set::empty());
    if let Ok(b) = lower_statements(BuilderView::start(), stmts, 0) {
        lemma_apart_completed(b);
    }
}

/// No two blocks of a lowered function body have the same name.
pub proof fn lemma_lower_body_has_distinct_blocks(parameters: Seq<ParameterView>, body: Seq<StatementView>)
    ensures
        lower_body_spec(parameters, body) matches Ok(program) ==> has_distinct_blocks(program),
{
    lemma_apart_start();
    lemma_apart_parameters(BuilderView::start(), parameters, 0);
    let b0 = bind_parameters(BuilderView::start(), parameters, 0);
    lemma_apart_statements(b0, body, 0, Set::empty());
    if let Ok(b) = lower_statements(b0, body, 0) {
        lemma_apart_completed(b);
    }
}

} // verus!
