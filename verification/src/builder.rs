//! How a statement sequence becomes a control-flow graph, as a function on
//! mathematical values.
//!
//! A [`BuilderView`] is the state of construction: the blocks that are
//! finished, the block that is being filled, the counters from which fresh
//! names are made, and the current version of every source variable. Each
//! function below takes a state and returns the state that follows, or the
//! first error.

use vstd::prelude::*;
use crate::ast::{BinaryOp, ExprView, StatementView, ParameterView};
use crate::ir::{
    entry_name, BlockView, InstructionView, OperandView, ProgramView, TerminatorView,
};
use crate::names::ssa_name;
use crate::table::{find, put};

verus! {

/// Why a program has no intermediate representation.
pub enum LowerErrorView {
    /// A variable is read that has no value at that point.
    UndefinedVariable { name: Seq<char> },
    /// A call: the intermediate representation has no instruction for one.
    UnsupportedCall { callee: Seq<char> },
    /// The numbers for names with this base have run out.
    TooManyNames { base: Seq<char> },
}

/// Counters or versions by name.
pub type Numbers = Seq<(Seq<char>, u64)>;

/// The state of construction.
pub struct BuilderView {
    /// The finished blocks, in the order in which they were finished.
    pub blocks: Seq<BlockView>,
    /// The name of the block that is being filled.
    pub name: Seq<char>,
    /// The instructions of that block so far.
    pub instructions: Seq<InstructionView>,
    /// Whether control reaches this point. It does not behind a `return`.
    pub open: bool,
    /// For each base, the last number used in the name of a value.
    pub values: Numbers,
    /// For each base, the last number used in the name of a block.
    pub labels: Numbers,
    /// For each source variable that has a value, its current version.
    pub bindings: Numbers,
}

/// What is known of an arm of a conditional, or of the body of a loop, once
/// it is lowered.
pub struct ArmEnd {
    /// Whether control reaches the end of the arm.
    pub open: bool,
    /// The name of the block in which the arm ends.
    pub name: Seq<char>,
    /// The versions of the variables at the end of the arm.
    pub bindings: Numbers,
}

/// The names that the lowering of a conditional has settled before its arms
/// are lowered.
pub struct IfPlan {
    pub then_name: Seq<char>,
    pub else_name: Seq<char>,
    pub merge_name: Seq<char>,
    /// The name of the block that branches.
    pub origin: Seq<char>,
    /// The versions of the variables where the conditional begins.
    pub saved: Numbers,
}

/// A phi of a loop header that waits for its operand from the back edge:
/// the variable and the version that the phi defines.
pub struct PendingPhi {
    pub variable: Seq<char>,
    pub version: u64,
}

/// What the lowering of a loop has settled before its body is lowered.
pub struct WhilePlan {
    /// The index of the header among the finished blocks.
    pub header_index: nat,
    pub header_name: Seq<char>,
    pub exit_name: Seq<char>,
    /// The phis of the header: its first instructions, in this order.
    pub pending: Seq<PendingPhi>,
    /// The versions of the variables in the header, behind its phis.
    pub header_bindings: Numbers,
}

/// The last number used for `base`; zero where none was.
pub open spec fn count(numbers: Numbers, base: Seq<char>) -> u64 {
    match find(numbers, base) {
        Some(n) => n,
        None => 0,
    }
}

/// The next number for `base` and the counters that remember it.
pub open spec fn fresh(numbers: Numbers, base: Seq<char>) -> Result<(u64, Numbers), LowerErrorView> {
    let n = count(numbers, base);
    if n == u64::MAX {
        Err(LowerErrorView::TooManyNames { base })
    } else {
        Ok(((n + 1) as u64, put(numbers, base, (n + 1) as u64)))
    }
}

/// The value of a boolean literal as an integer.
pub open spec fn truth(value: bool) -> i64 {
    if value {
        1
    } else {
        0
    }
}

impl InstructionView {
    /// The same instruction under the result name `name`.
    pub open spec fn named(self, name: Seq<char>) -> InstructionView {
        match self {
            InstructionView::Constant { value, .. } => InstructionView::Constant { result: name, value },
            InstructionView::Binary { op, left, right, .. } => InstructionView::Binary {
                result: name,
                op,
                left,
                right,
            },
            InstructionView::Comparison { op, left, right, .. } => InstructionView::Comparison {
                result: name,
                op,
                left,
                right,
            },
            InstructionView::Phi { incoming, .. } => InstructionView::Phi { result: name, incoming },
        }
    }
}

impl BuilderView {
    /// Where construction starts: an empty entry block, no names used but
    /// that of the entry block, no variable bound.
    pub open spec fn start() -> BuilderView {
        BuilderView {
            blocks: Seq::empty(),
            name: entry_name(),
            instructions: Seq::empty(),
            open: true,
            values: Seq::empty(),
            labels: seq![("entry"@, 1u64)],
            bindings: Seq::empty(),
        }
    }

    /// Appends `shape` to the current block under a fresh name made from
    /// `base`, and returns the number in that name.
    pub open spec fn define(self, base: Seq<char>, shape: InstructionView) -> Result<
        (u64, BuilderView),
        LowerErrorView,
    > {
        match fresh(self.values, base) {
            Ok((n, values)) => Ok(
                (
                    n,
                    BuilderView {
                        values,
                        instructions: self.instructions.push(shape.named(ssa_name(base, n as nat))),
                        ..self
                    },
                ),
            ),
            Err(e) => Err(e),
        }
    }

    /// Makes `version` the current version of `variable`.
    pub open spec fn bind(self, variable: Seq<char>, version: u64) -> BuilderView {
        BuilderView { bindings: put(self.bindings, variable, version), ..self }
    }

    /// Ends the current block with `terminator` and adds it to the finished
    /// blocks. No block is being filled afterwards.
    pub open spec fn finish(self, terminator: Option<TerminatorView>) -> BuilderView {
        BuilderView {
            blocks: self.blocks.push(
                BlockView {
                    name: self.name,
                    instructions: self.instructions,
                    terminator,
                    predecessors: Seq::empty(),
                },
            ),
            instructions: Seq::empty(),
            open: false,
            ..self
        }
    }

    /// Begins to fill a new block called `name`, with the variables at the
    /// versions in `bindings`.
    pub open spec fn begin(self, name: Seq<char>, bindings: Numbers) -> BuilderView {
        BuilderView { name, instructions: Seq::empty(), open: true, bindings, ..self }
    }

    /// How the current path ends here.
    pub open spec fn arm_end(self) -> ArmEnd {
        ArmEnd { open: self.open, name: self.name, bindings: self.bindings }
    }

    /// Ends the current block with a jump to `target` where control reaches
    /// this point; changes nothing where it does not.
    pub open spec fn jump_if_open(self, target: Seq<char>) -> BuilderView {
        if self.open {
            self.finish(Some(TerminatorView::Jump { target }))
        } else {
            self
        }
    }
}

/// The operand that reads `variable` at `version`.
pub open spec fn version_operand(variable: Seq<char>, version: u64) -> OperandView {
    OperandView::Variable(ssa_name(variable, version as nat))
}

/// Lowers `e` to an instruction whose result name is made from `base`, and
/// returns the number in that name.
///
/// A literal becomes a constant, a variable a copy of its current version
/// (an addition of zero), an operation the operation on its lowered
/// operands. The operands are lowered first, left before right.
pub open spec fn lower_named(b: BuilderView, e: ExprView, base: Seq<char>) -> Result<
    (u64, BuilderView),
    LowerErrorView,
>
    decreases e, 0nat,
{
    match e {
        ExprView::Integer(value) => b.define(
            base,
            InstructionView::Constant { result: Seq::empty(), value },
        ),
        ExprView::Boolean(value) => b.define(
            base,
            InstructionView::Constant { result: Seq::empty(), value: truth(value) },
        ),
        ExprView::Variable(name) => match find(b.bindings, name) {
            Some(version) => b.define(
                base,
                InstructionView::Binary {
                    result: Seq::empty(),
                    op: BinaryOp::Add,
                    left: version_operand(name, version),
                    right: OperandView::Constant(0),
                },
            ),
            None => Err(LowerErrorView::UndefinedVariable { name }),
        },
        ExprView::Binary { op, left, right } => match lower_operand(b, *left) {
            Ok((l, b1)) => match lower_operand(b1, *right) {
                Ok((r, b2)) => b2.define(
                    base,
                    InstructionView::Binary { result: Seq::empty(), op, left: l, right: r },
                ),
                Err(e) => Err(e),
            },
            Err(e) => Err(e),
        },
        ExprView::Comparison { op, left, right } => match lower_operand(b, *left) {
            Ok((l, b1)) => match lower_operand(b1, *right) {
                Ok((r, b2)) => b2.define(
                    base,
                    InstructionView::Comparison { result: Seq::empty(), op, left: l, right: r },
                ),
                Err(e) => Err(e),
            },
            Err(e) => Err(e),
        },
        ExprView::Call { callee, .. } => Err(LowerErrorView::UnsupportedCall { callee }),
    }
}

/// Lowers `e` to an operand.
///
/// A literal is written in place and a variable is read at its current
/// version, neither with an instruction. An operation becomes an
/// instruction under a temporary name: base `bin` for an arithmetic or
/// logical operation, base `rel` for a comparison.
pub open spec fn lower_operand(b: BuilderView, e: ExprView) -> Result<(OperandView, BuilderView), LowerErrorView>
    decreases e, 1nat,
{
    match e {
        ExprView::Integer(value) => Ok((OperandView::Constant(value), b)),
        ExprView::Boolean(value) => Ok((OperandView::Constant(truth(value)), b)),
        ExprView::Variable(name) => match find(b.bindings, name) {
            Some(version) => Ok((version_operand(name, version), b)),
            None => Err(LowerErrorView::UndefinedVariable { name }),
        },
        ExprView::Binary { .. } => match lower_named(b, e, "bin"@) {
            Ok((n, b1)) => Ok((version_operand("bin"@, n), b1)),
            Err(e) => Err(e),
        },
        ExprView::Comparison { .. } => match lower_named(b, e, "rel"@) {
            Ok((n, b1)) => Ok((version_operand("rel"@, n), b1)),
            Err(e) => Err(e),
        },
        ExprView::Call { callee, .. } => Err(LowerErrorView::UnsupportedCall { callee }),
    }
}

/// Whether one of the statements from index `from` on gives `variable` a
/// value, at any depth.
pub open spec fn assigns(stmts: Seq<StatementView>, from: int, variable: Seq<char>) -> bool
    decreases stmts, stmts.len() - from,
{
    if from < 0 || from >= stmts.len() {
        false
    } else {
        statement_assigns(stmts[from], variable) || assigns(stmts, from + 1, variable)
    }
}

/// Whether `s` gives `variable` a value, at any depth.
pub open spec fn statement_assigns(s: StatementView, variable: Seq<char>) -> bool
    decreases s, 0nat,
{
    match s {
        StatementView::Let { name, .. } => name == variable,
        StatementView::Assignment { target, .. } => target == variable,
        StatementView::If { then_branch, else_branch, .. } => assigns(then_branch, 0, variable) || match else_branch {
            Some(stmts) => assigns(stmts, 0, variable),
            None => false,
        },
        StatementView::While { body, .. } => assigns(body, 0, variable),
        _ => false,
    }
}

/// Begins a conditional: lowers the condition, names the blocks, ends the
/// current block with the branch and begins the block of the first arm.
pub open spec fn begin_if(b: BuilderView, condition: ExprView, has_else: bool) -> Result<
    (IfPlan, BuilderView),
    LowerErrorView,
> {
    match lower_operand(b, condition) {
        Ok((c, b1)) => match fresh(b1.labels, "then"@) {
            Ok((t, labels1)) => match fresh(labels1, "else"@) {
                Ok((e, labels2)) => match fresh(labels2, "merge"@) {
                    Ok((m, labels3)) => {
                        let then_name = ssa_name("then"@, t as nat);
                        let merge_name = ssa_name("merge"@, m as nat);
                        let else_name = if has_else {
                            ssa_name("else"@, e as nat)
                        } else {
                            merge_name
                        };
                        let plan = IfPlan {
                            then_name,
                            else_name,
                            merge_name,
                            origin: b1.name,
                            saved: b1.bindings,
                        };
                        let branch = TerminatorView::Branch {
                            condition: c,
                            then_target: then_name,
                            else_target: else_name,
                        };
                        Ok(
                            (
                                plan,
                                (BuilderView { labels: labels3, ..b1 }).finish(Some(branch)).begin(
                                    then_name,
                                    b1.bindings,
                                ),
                            ),
                        )
                    },
                    Err(e) => Err(e),
                },
                Err(e) => Err(e),
            },
            Err(e) => Err(e),
        },
        Err(e) => Err(e),
    }
}

/// The version of `variable` at the end of an arm; `otherwise` where the
/// arm has none.
pub open spec fn version_at(end: ArmEnd, variable: Seq<char>, otherwise: u64) -> u64 {
    match find(end.bindings, variable) {
        Some(v) => v,
        None => otherwise,
    }
}

/// Settles, in the merge block, the versions of the variables of `saved`
/// from index `from` on.
///
/// Where both arms reach the merge block and end with different versions of
/// a variable, a phi gives it a fresh version. Where one arm alone reaches
/// the merge block, the variable keeps the version of that arm.
pub open spec fn merge_bindings(b: BuilderView, saved: Numbers, from: int, first: ArmEnd, second: ArmEnd) -> Result<
    BuilderView,
    LowerErrorView,
>
    decreases saved.len() - from,
{
    if from < 0 || from >= saved.len() {
        Ok(b)
    } else {
        let variable = saved[from].0;
        let v1 = version_at(first, variable, saved[from].1);
        let v2 = version_at(second, variable, saved[from].1);
        if first.open && second.open && v1 != v2 {
            let phi = InstructionView::Phi {
                result: Seq::empty(),
                incoming: seq![
                    (first.name, version_operand(variable, v1)),
                    (second.name, version_operand(variable, v2)),
                ],
            };
            match b.define(variable, phi) {
                Ok((n, b1)) => merge_bindings(b1.bind(variable, n), saved, from + 1, first, second),
                Err(e) => Err(e),
            }
        } else if first.open {
            merge_bindings(b.bind(variable, v1), saved, from + 1, first, second)
        } else {
            merge_bindings(b.bind(variable, v2), saved, from + 1, first, second)
        }
    }
}

/// Ends a conditional whose arms ended as `first` and `second`: begins the
/// merge block and settles the versions of the variables in it. Where
/// neither arm reaches its end there is no merge block, and control does
/// not reach what follows.
pub open spec fn end_if(b: BuilderView, plan: IfPlan, first: ArmEnd, second: ArmEnd) -> Result<
    BuilderView,
    LowerErrorView,
> {
    if !first.open && !second.open {
        Ok(BuilderView { open: false, ..b })
    } else {
        merge_bindings(b.begin(plan.merge_name, Seq::empty()), plan.saved, 0, first, second)
    }
}

/// Gives every variable of `saved` from index `from` on that the loop body
/// assigns a phi in the header, which is the current block. The phi reads
/// the version before the loop from the block `origin`; its operand from the
/// back edge is added when the body is lowered. The phis made so far are in
/// `before`.
pub open spec fn enter_phis(
    b: BuilderView,
    saved: Numbers,
    from: int,
    body: Seq<StatementView>,
    origin: Seq<char>,
    before: Seq<PendingPhi>,
) -> Result<(Seq<PendingPhi>, BuilderView), LowerErrorView>
    decreases saved.len() - from,
{
    if from < 0 || from >= saved.len() {
        Ok((before, b))
    } else {
        let variable = saved[from].0;
        if assigns(body, 0, variable) {
            let phi = InstructionView::Phi {
                result: Seq::empty(),
                incoming: seq![(origin, version_operand(variable, saved[from].1))],
            };
            match b.define(variable, phi) {
                Ok((n, b1)) => enter_phis(
                    b1.bind(variable, n),
                    saved,
                    from + 1,
                    body,
                    origin,
                    before.push(PendingPhi { variable, version: n }),
                ),
                Err(e) => Err(e),
            }
        } else {
            enter_phis(b, saved, from + 1, body, origin, before)
        }
    }
}

/// Begins a loop: names the blocks, ends the current block with a jump to
/// the header, fills the header with its phis and the condition, ends it
/// with the branch and begins the body.
pub open spec fn begin_while(b: BuilderView, condition: ExprView, body: Seq<StatementView>) -> Result<
    (WhilePlan, BuilderView),
    LowerErrorView,
> {
    match fresh(b.labels, "loop"@) {
        Ok((h, labels1)) => match fresh(labels1, "body"@) {
            Ok((d, labels2)) => match fresh(labels2, "exit"@) {
                Ok((x, labels3)) => {
                    let header_name = ssa_name("loop"@, h as nat);
                    let body_name = ssa_name("body"@, d as nat);
                    let exit_name = ssa_name("exit"@, x as nat);
                    let jump = TerminatorView::Jump { target: header_name };
                    let b1 = (BuilderView { labels: labels3, ..b }).finish(Some(jump)).begin(
                        header_name,
                        b.bindings,
                    );
                    match enter_phis(b1, b.bindings, 0, body, b.name, Seq::empty()) {
                        Ok((pending, b2)) => match lower_operand(b2, condition) {
                            Ok((c, b3)) => {
                                let branch = TerminatorView::Branch {
                                    condition: c,
                                    then_target: body_name,
                                    else_target: exit_name,
                                };
                                Ok(
                                    (
                                        WhilePlan {
                                            header_index: b3.blocks.len(),
                                            header_name,
                                            exit_name,
                                            pending,
                                            header_bindings: b3.bindings,
                                        },
                                        b3.finish(Some(branch)).begin(body_name, b3.bindings),
                                    ),
                                )
                            },
                            Err(e) => Err(e),
                        },
                        Err(e) => Err(e),
                    }
                },
                Err(e) => Err(e),
            },
            Err(e) => Err(e),
        },
        Err(e) => Err(e),
    }
}

impl InstructionView {
    /// The same instruction with one more incoming operand, where it is a
    /// phi.
    pub open spec fn with_incoming(self, block: Seq<char>, operand: OperandView) -> InstructionView {
        match self {
            InstructionView::Phi { result, incoming } => InstructionView::Phi {
                result,
                incoming: incoming.push((block, operand)),
            },
            _ => self,
        }
    }
}

/// The instructions of a loop header once the body has ended as `body`:
/// each of the phis in `pending` has got the version of its variable at the
/// end of the body as its operand from the block in which the body ends.
pub open spec fn close_phis(instructions: Seq<InstructionView>, pending: Seq<PendingPhi>, body: ArmEnd) -> Seq<
    InstructionView,
> {
    Seq::new(
        instructions.len(),
        |i: int|
            if 0 <= i < pending.len() {
                instructions[i].with_incoming(
                    body.name,
                    version_operand(
                        pending[i].variable,
                        version_at(body, pending[i].variable, pending[i].version),
                    ),
                )
            } else {
                instructions[i]
            },
    )
}

/// Ends a loop whose body is lowered: closes the body with the back edge
/// and the header's phis with their operands from it, where control
/// reaches the end of the body, and begins the exit block.
pub open spec fn end_while(b: BuilderView, plan: WhilePlan) -> BuilderView {
    let body = b.arm_end();
    let b1 = b.jump_if_open(plan.header_name);
    let blocks = if body.open && plan.header_index < b1.blocks.len() {
        let header = b1.blocks[plan.header_index as int];
        b1.blocks.update(
            plan.header_index as int,
            BlockView { instructions: close_phis(header.instructions, plan.pending, body), ..header },
        )
    } else {
        b1.blocks
    };
    (BuilderView { blocks, ..b1 }).begin(plan.exit_name, plan.header_bindings)
}

/// Lowers one statement.
///
/// Where control does not reach the statement, nothing is lowered. A `let`
/// or an assignment lowers its value under a fresh version of its variable
/// and makes that version current. A `return` lowers its value under a
/// fresh version of `return` and ends the block without a terminator.
pub open spec fn lower_statement(b: BuilderView, s: StatementView) -> Result<BuilderView, LowerErrorView>
    decreases s, 0nat,
{
    if !b.open {
        Ok(b)
    } else {
        match s {
            StatementView::Let { name, value, .. } => match lower_named(b, value, name) {
                Ok((n, b1)) => Ok(b1.bind(name, n)),
                Err(e) => Err(e),
            },
            StatementView::Assignment { target, value } => match lower_named(b, value, target) {
                Ok((n, b1)) => Ok(b1.bind(target, n)),
                Err(e) => Err(e),
            },
            StatementView::Expression { value } => match lower_operand(b, value) {
                Ok((_, b1)) => Ok(b1),
                Err(e) => Err(e),
            },
            StatementView::Return { value } => match lower_named(b, value, "return"@) {
                Ok((_, b1)) => Ok(b1.finish(None)),
                Err(e) => Err(e),
            },
            StatementView::If { condition, then_branch, else_branch } => match begin_if(
                b,
                condition,
                else_branch is Some,
            ) {
                Ok((plan, b1)) => match lower_statements(b1, then_branch, 0) {
                    Ok(b2) => {
                        let first = b2.arm_end();
                        let b3 = b2.jump_if_open(plan.merge_name);
                        match else_branch {
                            Some(stmts) => match lower_statements(
                                b3.begin(plan.else_name, plan.saved),
                                stmts,
                                0,
                            ) {
                                Ok(b4) => end_if(
                                    b4.jump_if_open(plan.merge_name),
                                    plan,
                                    first,
                                    b4.arm_end(),
                                ),
                                Err(e) => Err(e),
                            },
                            None => end_if(
                                b3,
                                plan,
                                first,
                                ArmEnd { open: true, name: plan.origin, bindings: plan.saved },
                            ),
                        }
                    },
                    Err(e) => Err(e),
                },
                Err(e) => Err(e),
            },
            StatementView::While { condition, body } => match begin_while(b, condition, body) {
                Ok((plan, b1)) => match lower_statements(b1, body, 0) {
                    Ok(b2) => Ok(end_while(b2, plan)),
                    Err(e) => Err(e),
                },
                Err(e) => Err(e),
            },
        }
    }
}

/// Lowers the statements of `stmts` from index `from` on, in order.
pub open spec fn lower_statements(b: BuilderView, stmts: Seq<StatementView>, from: int) -> Result<
    BuilderView,
    LowerErrorView,
>
    decreases stmts, stmts.len() - from,
{
    if from < 0 || from >= stmts.len() {
        Ok(b)
    } else {
        match lower_statement(b, stmts[from]) {
            Ok(b1) => lower_statements(b1, stmts, from + 1),
            Err(e) => Err(e),
        }
    }
}

/// Whether the terminator of `block` names `target`.
pub open spec fn leads_to(block: BlockView, target: Seq<char>) -> bool {
    match block.terminator {
        Some(TerminatorView::Jump { target: t }) => t == target,
        Some(TerminatorView::Branch { then_target, else_target, .. }) => then_target == target || else_target
            == target,
        None => false,
    }
}

/// The names of the blocks among the first `upto` whose terminator names
/// `target`, in order.
pub open spec fn predecessors_of(blocks: Seq<BlockView>, target: Seq<char>, upto: int) -> Seq<Seq<char>>
    decreases upto,
{
    if upto <= 0 || upto > blocks.len() {
        Seq::empty()
    } else if leads_to(blocks[upto - 1], target) {
        predecessors_of(blocks, target, upto - 1).push(blocks[upto - 1].name)
    } else {
        predecessors_of(blocks, target, upto - 1)
    }
}

/// The blocks, each with the predecessors that the terminators give it.
pub open spec fn with_predecessors(blocks: Seq<BlockView>) -> Seq<BlockView> {
    Seq::new(
        blocks.len(),
        |i: int|
            BlockView {
                predecessors: predecessors_of(blocks, blocks[i].name, blocks.len() as int),
                ..blocks[i]
            },
    )
}

/// The program that construction has arrived at: the block being filled
/// becomes an exit where control reaches its end, and every block gets its
/// predecessors.
pub open spec fn completed(b: BuilderView) -> ProgramView {
    let done = if b.open {
        b.finish(None)
    } else {
        b
    };
    ProgramView { blocks: with_predecessors(done.blocks), entry: entry_name() }
}

/// The state in which the body of a function is lowered: each of the
/// parameters from index `from` on bound at version zero.
pub open spec fn bind_parameters(b: BuilderView, parameters: Seq<ParameterView>, from: int) -> BuilderView
    decreases parameters.len() - from,
{
    if from < 0 || from >= parameters.len() {
        b
    } else {
        bind_parameters(b.bind(parameters[from].name, 0), parameters, from + 1)
    }
}

/// The intermediate representation of a statement sequence.
pub open spec fn lower_spec(stmts: Seq<StatementView>) -> Result<ProgramView, LowerErrorView> {
    match lower_statements(BuilderView::start(), stmts, 0) {
        Ok(b) => Ok(completed(b)),
        Err(e) => Err(e),
    }
}

/// The intermediate representation of a function body whose parameters are
/// `parameters`.
pub open spec fn lower_body_spec(parameters: Seq<ParameterView>, body: Seq<StatementView>) -> Result<
    ProgramView,
    LowerErrorView,
> {
    match lower_statements(bind_parameters(BuilderView::start(), parameters, 0), body, 0) {
        Ok(b) => Ok(completed(b)),
        Err(e) => Err(e),
    }
}

} // verus!
