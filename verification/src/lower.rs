//! Lowering: from the syntax tree to the intermediate representation.
//!
//! [`lower`] builds exactly the program that [`crate::builder::lower_spec`]
//! describes.

use vstd::prelude::*;
use vstd::string::StringExecFns;
use crate::ast::{
    lemma_if_view, lemma_while_view, statements_view, BinaryOp, Expr, Function, Parameter,
    ParameterView, Statement, StatementView,
};
use crate::builder::{
    assigns, begin_if, begin_while, bind_parameters, completed, end_if, end_while, fresh,
    close_phis, enter_phis, leads_to, lower_body_spec, lower_named, lower_operand, lower_spec,
    lower_statement, lower_statements, merge_bindings, predecessors_of, statement_assigns, truth,
    version_operand, with_predecessors, ArmEnd, BuilderView, IfPlan, LowerErrorView, PendingPhi,
    WhilePlan,
};
use crate::ir::{
    blocks_view, clone_incoming, clone_instructions, clone_names, incoming_view, instructions_view,
    names_view, terminator_view, BasicBlock, BlockView, Instruction, InstructionView, Operand,
    Program, ProgramView, Terminator,
};
use crate::names::make_name;
use crate::definitions::{
    has_definitions, lemma_lower_body_has_definitions, lemma_lower_has_definitions, parameter_names,
};
use crate::graph::{
    has_inverse_edges, is_connected, lemma_lower_body_has_inverse_edges,
    lemma_lower_body_is_connected, lemma_lower_has_inverse_edges, lemma_lower_is_connected,
};
use crate::labels::{
    has_distinct_blocks, lemma_lower_body_has_distinct_blocks, lemma_lower_has_distinct_blocks,
};
use crate::phis::{has_phi_sources, lemma_lower_body_has_phi_sources, lemma_lower_has_phi_sources};
use crate::ssa::{is_ssa, lemma_lower_body_is_ssa, lemma_lower_is_ssa};
use crate::targets::{is_closed, lemma_lower_body_is_closed, lemma_lower_is_closed};
use crate::table::{Table};

verus! {

/// Why a program has no intermediate representation.
#[derive(Debug, Clone, PartialEq, Eq)]
pub enum LowerError {
    /// A variable is read that has no value at that point.
    UndefinedVariable { name: String },
    /// A call: the intermediate representation has no instruction for one.
    UnsupportedCall { callee: String },
    /// The numbers for names with this base have run out.
    TooManyNames { base: String },
}

impl View for LowerError {
    type V = LowerErrorView;

    open spec fn view(&self) -> LowerErrorView {
        match self {
            LowerError::UndefinedVariable { name } => LowerErrorView::UndefinedVariable { name: name@ },
            LowerError::UnsupportedCall { callee } => LowerErrorView::UnsupportedCall { callee: callee@ },
            LowerError::TooManyNames { base } => LowerErrorView::TooManyNames { base: base@ },
        }
    }
}

/// The state of construction.
struct Builder {
    blocks: Vec<BasicBlock>,
    name: String,
    instructions: Vec<Instruction>,
    open: bool,
    values: Table<u64>,
    labels: Table<u64>,
    bindings: Table<u64>,
}

impl View for Builder {
    type V = BuilderView;

    closed spec fn view(&self) -> BuilderView {
        BuilderView {
            blocks: blocks_view(self.blocks@),
            name: self.name@,
            instructions: instructions_view(self.instructions@),
            open: self.open,
            values: self.values@,
            labels: self.labels@,
            bindings: self.bindings@,
        }
    }
}

/// Takes the next number for `base` from `numbers`.
fn next_number(numbers: &mut Table<u64>, base: &String) -> (r: Result<u64, LowerError>)
    ensures
        match fresh(old(numbers)@, base@) {
            Ok((n, after)) => r == Ok::<u64, LowerError>(n) && final(numbers)@ == after,
            Err(e) => r matches Err(x) && x@ == e,
        },
{
    let n: u64 = match numbers.get(base) {
        Some(n) => n,
        None => 0,
    };
    if n == u64::MAX {
        Err(LowerError::TooManyNames { base: base.clone() })
    } else {
        numbers.set(base, n + 1);
        Ok(n + 1)
    }
}

/// The instruction `shape` under the result name `name`.
fn with_result(shape: Instruction, name: String) -> (instruction: Instruction)
    ensures
        instruction@ == shape@.named(name@),
{
    match shape {
        Instruction::Constant { result: _, value } => Instruction::Constant { result: name, value },
        Instruction::Binary { result: _, op, left, right } => Instruction::Binary {
            result: name,
            op,
            left,
            right,
        },
        Instruction::Comparison { result: _, op, left, right } => Instruction::Comparison {
            result: name,
            op,
            left,
            right,
        },
        Instruction::Phi { result: _, incoming } => Instruction::Phi { result: name, incoming },
    }
}

/// The operand that reads `variable` at `version`.
fn operand_at(variable: &String, version: u64) -> (operand: Operand)
    ensures
        operand@ == version_operand(variable@, version),
{
    Operand::Variable(make_name(variable, version))
}

/// The value of a boolean literal as an integer.
fn truth_value(value: bool) -> (r: i64)
    ensures
        r == truth(value),
{
    if value {
        1
    } else {
        0
    }
}

impl Builder {
    /// Where construction starts.
    fn start() -> (builder: Builder)
        ensures
            builder@ == BuilderView::start(),
    {
        let base: String = String::from_str("entry");
        let mut labels: Table<u64> = Table::new();
        labels.set(&base, 1);
        let builder = Builder {
            blocks: Vec::new(),
            name: make_name(&base, 1),
            instructions: Vec::new(),
            open: true,
            values: Table::new(),
            labels,
            bindings: Table::new(),
        };
        proof {
            assert(builder@.blocks =~= Seq::<BlockView>::empty());
            assert(builder@.instructions =~= Seq::<InstructionView>::empty());
            assert(builder@.labels =~= seq![("entry"@, 1u64)]);
        }
        builder
    }

    /// Appends `shape` to the current block under a fresh name made from
    /// `base`, and returns the number in that name.
    fn define(&mut self, base: &String, shape: Instruction) -> (r: Result<u64, LowerError>)
        ensures
            match old(self)@.define(base@, shape@) {
                Ok((n, after)) => r == Ok::<u64, LowerError>(n) && final(self)@ == after,
                Err(e) => r matches Err(x) && x@ == e,
            },
    {
        match next_number(&mut self.values, base) {
            Ok(n) => {
                let instruction = with_result(shape, make_name(base, n));
                proof {
                    assert(instructions_view(self.instructions@.push(instruction))
                        =~= instructions_view(self.instructions@).push(instruction@));
                }
                self.instructions.push(instruction);
                Ok(n)
            },
            Err(e) => Err(e),
        }
    }

    /// Lowers `e` to an instruction whose result name is made from `base`.
    fn lower_named(&mut self, e: &Expr, base: &String) -> (r: Result<u64, LowerError>)
        ensures
            match lower_named(old(self)@, e@, base@) {
                Ok((n, after)) => r == Ok::<u64, LowerError>(n) && final(self)@ == after,
                Err(err) => r matches Err(x) && x@ == err,
            },
        decreases e, 0nat,
    {
        match e {
            Expr::Integer(value) => self.define(
                base,
                Instruction::Constant { result: String::new(), value: *value },
            ),
            Expr::Boolean(value) => self.define(
                base,
                Instruction::Constant { result: String::new(), value: truth_value(*value) },
            ),
            Expr::Variable(name) => match self.bindings.get(name) {
                Some(version) => self.define(
                    base,
                    Instruction::Binary {
                        result: String::new(),
                        op: BinaryOp::Add,
                        left: operand_at(name, version),
                        right: Operand::Constant(0),
                    },
                ),
                None => Err(LowerError::UndefinedVariable { name: name.clone() }),
            },
            Expr::Binary { op, left, right } => {
                let l: Operand = match self.lower_operand(left) {
                    Ok(l) => l,
                    Err(e) => {
                        return Err(e);
                    },
                };
                let r: Operand = match self.lower_operand(right) {
                    Ok(r) => r,
                    Err(e) => {
                        return Err(e);
                    },
                };
                self.define(base, Instruction::Binary { result: String::new(), op: *op, left: l, right: r })
            },
            Expr::Comparison { op, left, right } => {
                let l: Operand = match self.lower_operand(left) {
                    Ok(l) => l,
                    Err(e) => {
                        return Err(e);
                    },
                };
                let r: Operand = match self.lower_operand(right) {
                    Ok(r) => r,
                    Err(e) => {
                        return Err(e);
                    },
                };
                self.define(
                    base,
                    Instruction::Comparison { result: String::new(), op: *op, left: l, right: r },
                )
            },
            Expr::Call { callee, args: _ } => Err(LowerError::UnsupportedCall { callee: callee.clone() }),
        }
    }

    /// Lowers `e` to an operand.
    fn lower_operand(&mut self, e: &Expr) -> (r: Result<Operand, LowerError>)
        ensures
            match lower_operand(old(self)@, e@) {
                Ok((operand, after)) => r matches Ok(x) && x@ == operand && final(self)@ == after,
                Err(err) => r matches Err(x) && x@ == err,
            },
        decreases e, 1nat,
    {
        match e {
            Expr::Integer(value) => Ok(Operand::Constant(*value)),
            Expr::Boolean(value) => Ok(Operand::Constant(truth_value(*value))),
            Expr::Variable(name) => match self.bindings.get(name) {
                Some(version) => Ok(operand_at(name, version)),
                None => Err(LowerError::UndefinedVariable { name: name.clone() }),
            },
            Expr::Binary { .. } => {
                let base: String = String::from_str("bin");
                match self.lower_named(e, &base) {
                    Ok(n) => Ok(operand_at(&base, n)),
                    Err(e) => Err(e),
                }
            },
            Expr::Comparison { .. } => {
                let base: String = String::from_str("rel");
                match self.lower_named(e, &base) {
                    Ok(n) => Ok(operand_at(&base, n)),
                    Err(e) => Err(e),
                }
            },
            Expr::Call { callee, args: _ } => Err(LowerError::UnsupportedCall { callee: callee.clone() }),
        }
    }

    /// Makes `version` the current version of `variable`.
    fn bind(&mut self, variable: &String, version: u64)
        ensures
            final(self)@ == old(self)@.bind(variable@, version),
    {
        self.bindings.set(variable, version);
    }

    /// Ends the current block with `terminator`.
    fn finish(&mut self, terminator: Option<Terminator>)
        ensures
            final(self)@ == old(self)@.finish(terminator_view(terminator)),
    {
        let mut instructions: Vec<Instruction> = Vec::new();
        std::mem::swap(&mut self.instructions, &mut instructions);
        let block = BasicBlock {
            name: self.name.clone(),
            instructions,
            terminator,
            predecessors: Vec::new(),
        };
        proof {
            assert(block@.predecessors =~= Seq::<Seq<char>>::empty());
            assert(blocks_view(self.blocks@.push(block)) =~= blocks_view(self.blocks@).push(block@));
            assert(instructions_view(self.instructions@) =~= Seq::<InstructionView>::empty());
        }
        self.blocks.push(block);
        self.open = false;
    }

    /// Begins to fill a new block called `name`.
    fn begin(&mut self, name: String, bindings: Table<u64>)
        ensures
            final(self)@ == old(self)@.begin(name@, bindings@),
    {
        self.name = name;
        self.instructions = Vec::new();
        self.open = true;
        self.bindings = bindings;
        assert(instructions_view(self.instructions@) =~= Seq::<InstructionView>::empty());
    }

    /// How the current path ends here.
    fn arm_end(&self) -> (end: Arm)
        ensures
            end@ == self@.arm_end(),
    {
        Arm { open: self.open, name: self.name.clone(), bindings: self.bindings.duplicate() }
    }

    /// Ends the current block with a jump to `target` where control
    /// reaches this point.
    fn jump_if_open(&mut self, target: &String)
        ensures
            final(self)@ == old(self)@.jump_if_open(target@),
    {
        if self.open {
            self.finish(Some(Terminator::Jump { target: target.clone() }));
        }
    }

    /// Begins a conditional.
    fn begin_if(&mut self, condition: &Expr, has_else: bool) -> (r: Result<IfNames, LowerError>)
        ensures
            match begin_if(old(self)@, condition@, has_else) {
                Ok((plan, after)) => r matches Ok(x) && x@ == plan && final(self)@ == after,
                Err(e) => r matches Err(x) && x@ == e,
            },
    {
        let c: Operand = match self.lower_operand(condition) {
            Ok(c) => c,
            Err(e) => {
                return Err(e);
            },
        };
        let then_base: String = String::from_str("then");
        let else_base: String = String::from_str("else");
        let merge_base: String = String::from_str("merge");
        let t: u64 = match next_number(&mut self.labels, &then_base) {
            Ok(n) => n,
            Err(e) => {
                return Err(e);
            },
        };
        let e: u64 = match next_number(&mut self.labels, &else_base) {
            Ok(n) => n,
            Err(e) => {
                return Err(e);
            },
        };
        let m: u64 = match next_number(&mut self.labels, &merge_base) {
            Ok(n) => n,
            Err(e) => {
                return Err(e);
            },
        };
        let then_name: String = make_name(&then_base, t);
        let merge_name: String = make_name(&merge_base, m);
        let else_name: String = if has_else {
            make_name(&else_base, e)
        } else {
            merge_name.clone()
        };
        let plan = IfNames {
            then_name: then_name.clone(),
            else_name: else_name.clone(),
            merge_name,
            origin: self.name.clone(),
            saved: self.bindings.duplicate(),
        };
        let bindings: Table<u64> = self.bindings.duplicate();
        self.finish(
            Some(Terminator::Branch { condition: c, then_target: then_name.clone(), else_target: else_name }),
        );
        self.begin(then_name, bindings);
        Ok(plan)
    }

    /// Settles the versions of the variables of `saved` in the merge block.
    fn merge_bindings(&mut self, saved: &Table<u64>, first: &Arm, second: &Arm) -> (r: Result<
        (),
        LowerError,
    >)
        ensures
            match merge_bindings(old(self)@, saved@, 0, first@, second@) {
                Ok(after) => r is Ok && final(self)@ == after,
                Err(e) => r matches Err(x) && x@ == e,
            },
    {
        let mut i: usize = 0;
        while i < saved.len()
            invariant
                i <= saved@.len(),
                merge_bindings(old(self)@, saved@, 0, first@, second@) == merge_bindings(
                    self@,
                    saved@,
                    i as int,
                    first@,
                    second@,
                ),
            decreases saved@.len() - i,
        {
            let variable: &String = saved.key_at(i);
            let before: u64 = saved.value_at(i);
            let v1: u64 = match first.bindings.get(variable) {
                Some(v) => v,
                None => before,
            };
            let v2: u64 = match second.bindings.get(variable) {
                Some(v) => v,
                None => before,
            };
            if first.open && second.open && v1 != v2 {
                let mut incoming: Vec<(String, Operand)> = Vec::new();
                incoming.push((first.name.clone(), operand_at(variable, v1)));
                incoming.push((second.name.clone(), operand_at(variable, v2)));
                proof {
                    assert(incoming_view(incoming@) =~= seq![
                        (first@.name, version_operand(variable@, v1)),
                        (second@.name, version_operand(variable@, v2)),
                    ]);
                }
                match self.define(variable, Instruction::Phi { result: String::new(), incoming }) {
                    Ok(n) => {
                        self.bind(variable, n);
                    },
                    Err(e) => {
                        return Err(e);
                    },
                }
            } else if first.open {
                self.bind(variable, v1);
            } else {
                self.bind(variable, v2);
            }
            i += 1;
        }
        Ok(())
    }

    /// Ends a conditional whose arms ended as `first` and `second`.
    fn end_if(&mut self, plan: &IfNames, first: &Arm, second: &Arm) -> (r: Result<(), LowerError>)
        ensures
            match end_if(old(self)@, plan@, first@, second@) {
                Ok(after) => r is Ok && final(self)@ == after,
                Err(e) => r matches Err(x) && x@ == e,
            },
    {
        if !first.open && !second.open {
            self.open = false;
            Ok(())
        } else {
            self.begin(plan.merge_name.clone(), Table::new());
            self.merge_bindings(&plan.saved, first, second)
        }
    }

    /// Gives every variable that the loop body assigns a phi in the header.
    fn enter_phis(&mut self, saved: &Table<u64>, body: &Vec<Statement>, origin: &String) -> (r: Result<
        Vec<Pending>,
        LowerError,
    >)
        ensures
            match enter_phis(old(self)@, saved@, 0, statements_view(body@), origin@, Seq::empty()) {
                Ok((pending, after)) => r matches Ok(x) && pending_view(x@) == pending && final(self)@
                    == after,
                Err(e) => r matches Err(x) && x@ == e,
            },
    {
        let mut pending: Vec<Pending> = Vec::new();
        let mut i: usize = 0;
        assert(pending_view(pending@) =~= Seq::<PendingPhi>::empty());
        while i < saved.len()
            invariant
                i <= saved@.len(),
                enter_phis(old(self)@, saved@, 0, statements_view(body@), origin@, Seq::empty())
                    == enter_phis(
                    self@,
                    saved@,
                    i as int,
                    statements_view(body@),
                    origin@,
                    pending_view(pending@),
                ),
            decreases saved@.len() - i,
        {
            let variable: &String = saved.key_at(i);
            if assigns_in(body, variable) {
                let mut incoming: Vec<(String, Operand)> = Vec::new();
                incoming.push((origin.clone(), operand_at(variable, saved.value_at(i))));
                proof {
                    assert(incoming_view(incoming@) =~= seq![
                        (origin@, version_operand(variable@, saved@[i as int].1)),
                    ]);
                }
                match self.define(variable, Instruction::Phi { result: String::new(), incoming }) {
                    Ok(n) => {
                        self.bind(variable, n);
                        let entry = Pending { variable: variable.clone(), version: n };
                        proof {
                            assert(pending_view(pending@.push(entry)) =~= pending_view(pending@).push(
                                entry@,
                            ));
                        }
                        pending.push(entry);
                    },
                    Err(e) => {
                        return Err(e);
                    },
                }
            }
            i += 1;
        }
        Ok(pending)
    }

    /// Begins a loop.
    fn begin_while(&mut self, condition: &Expr, body: &Vec<Statement>) -> (r: Result<
        LoopPlan,
        LowerError,
    >)
        ensures
            match begin_while(old(self)@, condition@, statements_view(body@)) {
                Ok((plan, after)) => r matches Ok(x) && x@ == plan && final(self)@ == after,
                Err(e) => r matches Err(x) && x@ == e,
            },
    {
        let header_base: String = String::from_str("loop");
        let body_base: String = String::from_str("body");
        let exit_base: String = String::from_str("exit");
        let h: u64 = match next_number(&mut self.labels, &header_base) {
            Ok(n) => n,
            Err(e) => {
                return Err(e);
            },
        };
        let d: u64 = match next_number(&mut self.labels, &body_base) {
            Ok(n) => n,
            Err(e) => {
                return Err(e);
            },
        };
        let x: u64 = match next_number(&mut self.labels, &exit_base) {
            Ok(n) => n,
            Err(e) => {
                return Err(e);
            },
        };
        let header_name: String = make_name(&header_base, h);
        let body_name: String = make_name(&body_base, d);
        let exit_name: String = make_name(&exit_base, x);
        let origin: String = self.name.clone();
        let saved: Table<u64> = self.bindings.duplicate();
        let bindings: Table<u64> = self.bindings.duplicate();
        self.finish(Some(Terminator::Jump { target: header_name.clone() }));
        self.begin(header_name.clone(), bindings);
        let pending: Vec<Pending> = match self.enter_phis(&saved, body, &origin) {
            Ok(p) => p,
            Err(e) => {
                return Err(e);
            },
        };
        let c: Operand = match self.lower_operand(condition) {
            Ok(c) => c,
            Err(e) => {
                return Err(e);
            },
        };
        let plan = LoopPlan {
            header_index: self.blocks.len(),
            header_name,
            exit_name: exit_name.clone(),
            pending,
            header_bindings: self.bindings.duplicate(),
        };
        let bindings: Table<u64> = self.bindings.duplicate();
        self.finish(
            Some(Terminator::Branch { condition: c, then_target: body_name.clone(), else_target: exit_name }),
        );
        self.begin(body_name, bindings);
        Ok(plan)
    }

    /// Ends a loop whose body is lowered.
    fn end_while(&mut self, plan: LoopPlan)
        ensures
            final(self)@ == end_while(old(self)@, plan@),
    {
        let body: Arm = self.arm_end();
        self.jump_if_open(&plan.header_name);
        if body.open && plan.header_index < self.blocks.len() {
            let header: &BasicBlock = &self.blocks[plan.header_index];
            let mut instructions: Vec<Instruction> = Vec::new();
            let mut i: usize = 0;
            while i < header.instructions.len()
                invariant
                    i <= header.instructions.len(),
                    instructions@.len() == i,
                    forall|j: int|
                        0 <= j < i ==> (#[trigger] instructions@[j])@ == close_phis(
                            header@.instructions,
                            plan@.pending,
                            body@,
                        )[j],
                decreases header.instructions.len() - i,
            {
                let instruction: &Instruction = &header.instructions[i];
                if i < plan.pending.len() {
                    let p: &Pending = &plan.pending[i];
                    let version: u64 = match body.bindings.get(&p.variable) {
                        Some(v) => v,
                        None => p.version,
                    };
                    instructions.push(
                        with_incoming(instruction, body.name.clone(), operand_at(&p.variable, version)),
                    );
                } else {
                    instructions.push(instruction.clone());
                }
                i += 1;
            }
            proof {
                assert(instructions_view(instructions@) =~= close_phis(
                    header@.instructions,
                    plan@.pending,
                    body@,
                ));
            }
            let terminator: Option<Terminator> = match &header.terminator {
                Some(t) => Some(t.clone()),
                None => None,
            };
            let closed = BasicBlock {
                name: header.name.clone(),
                instructions,
                terminator,
                predecessors: clone_names(&header.predecessors),
            };
            proof {
                assert(blocks_view(self.blocks@.update(plan.header_index as int, closed))
                    =~= blocks_view(self.blocks@).update(plan.header_index as int, closed@));
            }
            self.blocks.set(plan.header_index, closed);
        }
        self.begin(plan.exit_name, plan.header_bindings);
    }

    /// Lowers one statement.
    fn lower_statement(&mut self, s: &Statement) -> (r: Result<(), LowerError>)
        ensures
            match lower_statement(old(self)@, s@) {
                Ok(after) => r is Ok && final(self)@ == after,
                Err(e) => r matches Err(x) && x@ == e,
            },
        decreases s, 0nat,
    {
        if !self.open {
            return Ok(());
        }
        match s {
            Statement::Let { name, typ: _, value } => match self.lower_named(value, name) {
                Ok(n) => {
                    self.bind(name, n);
                    Ok(())
                },
                Err(e) => Err(e),
            },
            Statement::Assignment { target, value } => match self.lower_named(value, target) {
                Ok(n) => {
                    self.bind(target, n);
                    Ok(())
                },
                Err(e) => Err(e),
            },
            Statement::Expression { value } => match self.lower_operand(value) {
                Ok(_) => Ok(()),
                Err(e) => Err(e),
            },
            Statement::Return { value } => {
                let base: String = String::from_str("return");
                match self.lower_named(value, &base) {
                    Ok(_) => {
                        self.finish(None);
                        Ok(())
                    },
                    Err(e) => Err(e),
                }
            },
            Statement::If { condition, then_branch, else_branch } => {
                proof {
                    lemma_if_view(*condition, *then_branch, *else_branch);
                }
                let plan: IfNames = match self.begin_if(condition, else_branch.is_some()) {
                    Ok(plan) => plan,
                    Err(e) => {
                        return Err(e);
                    },
                };
                match self.lower_statements(then_branch) {
                    Ok(()) => {},
                    Err(e) => {
                        return Err(e);
                    },
                }
                let first: Arm = self.arm_end();
                self.jump_if_open(&plan.merge_name);
                match else_branch {
                    Some(stmts) => {
                        self.begin(plan.else_name.clone(), plan.saved.duplicate());
                        match self.lower_statements(stmts) {
                            Ok(()) => {},
                            Err(e) => {
                                return Err(e);
                            },
                        }
                        let second: Arm = self.arm_end();
                        self.jump_if_open(&plan.merge_name);
                        self.end_if(&plan, &first, &second)
                    },
                    None => {
                        let second = Arm {
                            open: true,
                            name: plan.origin.clone(),
                            bindings: plan.saved.duplicate(),
                        };
                        self.end_if(&plan, &first, &second)
                    },
                }
            },
            Statement::While { condition, body } => {
                proof {
                    lemma_while_view(*condition, *body);
                }
                let plan: LoopPlan = match self.begin_while(condition, body) {
                    Ok(plan) => plan,
                    Err(e) => {
                        return Err(e);
                    },
                };
                match self.lower_statements(body) {
                    Ok(()) => {
                        self.end_while(plan);
                        Ok(())
                    },
                    Err(e) => Err(e),
                }
            },
        }
    }

    /// Lowers the statements of `stmts`, in order.
    fn lower_statements(&mut self, stmts: &Vec<Statement>) -> (r: Result<(), LowerError>)
        ensures
            match lower_statements(old(self)@, statements_view(stmts@), 0) {
                Ok(after) => r is Ok && final(self)@ == after,
                Err(e) => r matches Err(x) && x@ == e,
            },
        decreases stmts, 0nat,
    {
        let mut i: usize = 0;
        while i < stmts.len()
            invariant
                i <= stmts.len(),
                lower_statements(old(self)@, statements_view(stmts@), 0) == lower_statements(
                    self@,
                    statements_view(stmts@),
                    i as int,
                ),
            decreases stmts.len() - i,
        {
            match self.lower_statement(&stmts[i]) {
                Ok(()) => {},
                Err(e) => {
                    return Err(e);
                },
            }
            i += 1;
        }
        Ok(())
    }
}

/// What is known of an arm of a conditional, or of the body of a loop, once
/// it is lowered.
struct Arm {
    open: bool,
    name: String,
    bindings: Table<u64>,
}

impl View for Arm {
    type V = ArmEnd;

    closed spec fn view(&self) -> ArmEnd {
        ArmEnd { open: self.open, name: self.name@, bindings: self.bindings@ }
    }
}

/// The names that the lowering of a conditional has settled.
struct IfNames {
    then_name: String,
    else_name: String,
    merge_name: String,
    origin: String,
    saved: Table<u64>,
}

impl View for IfNames {
    type V = IfPlan;

    closed spec fn view(&self) -> IfPlan {
        IfPlan {
            then_name: self.then_name@,
            else_name: self.else_name@,
            merge_name: self.merge_name@,
            origin: self.origin@,
            saved: self.saved@,
        }
    }
}

/// A phi of a loop header that waits for its operand from the back edge.
struct Pending {
    variable: String,
    version: u64,
}

impl View for Pending {
    type V = PendingPhi;

    closed spec fn view(&self) -> PendingPhi {
        PendingPhi { variable: self.variable@, version: self.version }
    }
}

/// The pending phis of a vector, each as a mathematical value.
spec fn pending_view(pending: Seq<Pending>) -> Seq<PendingPhi> {
    Seq::new(pending.len(), |i: int| pending[i]@)
}

/// What the lowering of a loop has settled before its body is lowered.
struct LoopPlan {
    header_index: usize,
    header_name: String,
    exit_name: String,
    pending: Vec<Pending>,
    header_bindings: Table<u64>,
}

impl View for LoopPlan {
    type V = WhilePlan;

    closed spec fn view(&self) -> WhilePlan {
        WhilePlan {
            header_index: self.header_index as nat,
            header_name: self.header_name@,
            exit_name: self.exit_name@,
            pending: pending_view(self.pending@),
            header_bindings: self.header_bindings@,
        }
    }
}

/// The instruction with one more incoming operand, where it is a phi.
fn with_incoming(instruction: &Instruction, block: String, operand: Operand) -> (r: Instruction)
    ensures
        r@ == instruction@.with_incoming(block@, operand@),
{
    match instruction {
        Instruction::Phi { result, incoming } => {
            let mut all: Vec<(String, Operand)> = clone_incoming(incoming);
            proof {
                assert(incoming_view(all@.push((block, operand))) =~= incoming_view(incoming@).push(
                    (block@, operand@),
                ));
            }
            all.push((block, operand));
            Instruction::Phi { result: result.clone(), incoming: all }
        },
        _ => instruction.clone(),
    }
}

/// Whether one of the statements gives `variable` a value, at any depth.
fn assigns_in(stmts: &Vec<Statement>, variable: &String) -> (r: bool)
    ensures
        r == assigns(statements_view(stmts@), 0, variable@),
    decreases stmts, 0nat,
{
    let mut i: usize = 0;
    while i < stmts.len()
        invariant
            i <= stmts.len(),
            assigns(statements_view(stmts@), 0, variable@) == assigns(
                statements_view(stmts@),
                i as int,
                variable@,
            ),
        decreases stmts.len() - i,
    {
        if statement_assigns_to(&stmts[i], variable) {
            return true;
        }
        i += 1;
    }
    false
}

/// Whether `s` gives `variable` a value, at any depth.
fn statement_assigns_to(s: &Statement, variable: &String) -> (r: bool)
    ensures
        r == statement_assigns(s@, variable@),
    decreases s, 0nat,
{
    match s {
        Statement::Let { name, typ: _, value: _ } => *name == *variable,
        Statement::Assignment { target, value: _ } => *target == *variable,
        Statement::If { condition, then_branch, else_branch } => {
            proof {
                lemma_if_view(*condition, *then_branch, *else_branch);
            }
            if assigns_in(then_branch, variable) {
                true
            } else {
                match else_branch {
                    Some(stmts) => assigns_in(stmts, variable),
                    None => false,
                }
            }
        },
        Statement::While { condition, body } => {
            proof {
                lemma_while_view(*condition, *body);
            }
            assigns_in(body, variable)
        },
        _ => false,
    }
}

/// Whether the terminator of `block` names `target`.
fn block_leads_to(block: &BasicBlock, target: &String) -> (r: bool)
    ensures
        r == leads_to(block@, target@),
{
    match &block.terminator {
        Some(Terminator::Jump { target: t }) => *t == *target,
        Some(Terminator::Branch { condition: _, then_target, else_target }) => *then_target == *target
            || *else_target == *target,
        None => false,
    }
}

/// The names of the blocks whose terminator names `target`, in order.
fn find_predecessors(blocks: &Vec<BasicBlock>, target: &String) -> (names: Vec<String>)
    ensures
        names_view(names@) == predecessors_of(blocks_view(blocks@), target@, blocks.len() as int),
{
    let mut names: Vec<String> = Vec::new();
    let mut i: usize = 0;
    assert(names_view(names@) =~= Seq::<Seq<char>>::empty());
    while i < blocks.len()
        invariant
            i <= blocks.len(),
            names_view(names@) == predecessors_of(blocks_view(blocks@), target@, i as int),
        decreases blocks.len() - i,
    {
        if block_leads_to(&blocks[i], target) {
            let name: String = blocks[i].name.clone();
            proof {
                assert(names_view(names@.push(name)) =~= names_view(names@).push(name@));
            }
            names.push(name);
        }
        i += 1;
    }
    names
}

/// The blocks, each with the predecessors that the terminators give it.
fn attach_predecessors(blocks: &Vec<BasicBlock>) -> (out: Vec<BasicBlock>)
    ensures
        blocks_view(out@) == with_predecessors(blocks_view(blocks@)),
{
    let mut out: Vec<BasicBlock> = Vec::new();
    let mut i: usize = 0;
    while i < blocks.len()
        invariant
            i <= blocks.len(),
            out@.len() == i,
            forall|j: int|
                0 <= j < i ==> (#[trigger] out@[j])@ == with_predecessors(blocks_view(blocks@))[j],
        decreases blocks.len() - i,
    {
        let block: &BasicBlock = &blocks[i];
        let terminator: Option<Terminator> = match &block.terminator {
            Some(t) => Some(t.clone()),
            None => None,
        };
        out.push(
            BasicBlock {
                name: block.name.clone(),
                instructions: clone_instructions(&block.instructions),
                terminator,
                predecessors: find_predecessors(blocks, &block.name),
            },
        );
        i += 1;
    }
    assert(blocks_view(out@) =~= with_predecessors(blocks_view(blocks@)));
    out
}

impl Builder {
    /// The program that construction has arrived at.
    fn complete(self) -> (program: Program)
        ensures
            program@ == completed(self@),
    {
        let mut done = self;
        if done.open {
            done.finish(None);
        }
        let base: String = String::from_str("entry");
        Program { blocks: attach_predecessors(&done.blocks), entry: make_name(&base, 1) }
    }

    /// Binds each parameter at version zero.
    fn bind_parameters(&mut self, parameters: &Vec<Parameter>)
        ensures
            final(self)@ == bind_parameters(old(self)@, crate::ast::parameters_view(parameters@), 0),
    {
        let mut i: usize = 0;
        while i < parameters.len()
            invariant
                i <= parameters.len(),
                bind_parameters(old(self)@, crate::ast::parameters_view(parameters@), 0)
                    == bind_parameters(self@, crate::ast::parameters_view(parameters@), i as int),
            decreases parameters.len() - i,
        {
            self.bind(&parameters[i].name, 0);
            i += 1;
        }
    }
}

/// What holds of every lowered program: no two instructions define the
/// same name, no two blocks have the same name, every terminator names
/// blocks of the program, control enters at the first block, every block
/// can be reached from it, the predecessors of a block are the blocks
/// whose terminators name it, and every phi names predecessors of its
/// block.
pub open spec fn well_formed(program: ProgramView) -> bool {
    &&& is_ssa(program)
    &&& has_distinct_blocks(program)
    &&& is_closed(program)
    &&& is_connected(program)
    &&& has_inverse_edges(program)
    &&& has_phi_sources(program)
}

/// Every lowered statement sequence is well formed.
pub proof fn lemma_lower_is_well_formed(stmts: Seq<StatementView>)
    ensures
        lower_spec(stmts) matches Ok(program) ==> well_formed(program),
{
    lemma_lower_is_ssa(stmts);
    lemma_lower_has_distinct_blocks(stmts);
    lemma_lower_is_closed(stmts);
    lemma_lower_is_connected(stmts);
    lemma_lower_has_inverse_edges(stmts);
    lemma_lower_has_phi_sources(stmts);
}

/// Every lowered function body is well formed.
pub proof fn lemma_lower_body_is_well_formed(parameters: Seq<ParameterView>, body: Seq<StatementView>)
    ensures
        lower_body_spec(parameters, body) matches Ok(program) ==> well_formed(program),
{
    lemma_lower_body_is_ssa(parameters, body);
    lemma_lower_body_has_distinct_blocks(parameters, body);
    lemma_lower_body_is_closed(parameters, body);
    lemma_lower_body_is_connected(parameters, body);
    lemma_lower_body_has_inverse_edges(parameters, body);
    lemma_lower_body_has_phi_sources(parameters, body);
}

/// The result of lowering as a mathematical value.
pub open spec fn lower_result_view(result: Result<Program, LowerError>) -> Result<
    ProgramView,
    LowerErrorView,
> {
    match result {
        Ok(program) => Ok(program@),
        Err(e) => Err(e@),
    }
}

/// Lowers a statement sequence to its intermediate representation.
///
/// The result is exactly [`lower_spec`] of the statements: the program, or
/// the first error. The program is well formed, and every name that it
/// reads is defined by one of its instructions.
pub fn lower(statements: Vec<Statement>) -> (result: Result<Program, LowerError>)
    ensures
        lower_result_view(result) == lower_spec(statements_view(statements@)),
        result matches Ok(program) ==> well_formed(program@),
        result matches Ok(program) ==> has_definitions(program@, Set::empty()),
{
    proof {
        lemma_lower_is_well_formed(statements_view(statements@));
        lemma_lower_has_definitions(statements_view(statements@));
    }
    let mut builder = Builder::start();
    match builder.lower_statements(&statements) {
        Ok(()) => Ok(builder.complete()),
        Err(e) => Err(e),
    }
}

/// Lowers the body of a function to its intermediate representation, with
/// the parameters as the values that are known on entry, each at version
/// zero.
///
/// The result is exactly [`lower_body_spec`] of the parameters and the
/// body. The program is well formed, and every name that it reads is
/// defined by one of its instructions or is a parameter at version zero.
pub fn lower_function(function: &Function) -> (result: Result<Program, LowerError>)
    ensures
        lower_result_view(result) == lower_body_spec(function@.parameters, function@.body),
        result matches Ok(program) ==> well_formed(program@),
        result matches Ok(program) ==> has_definitions(program@, parameter_names(function@.parameters)),
{
    proof {
        lemma_lower_body_is_well_formed(function@.parameters, function@.body);
        lemma_lower_body_has_definitions(function@.parameters, function@.body);
    }
    let mut builder = Builder::start();
    builder.bind_parameters(&function.parameters);
    match builder.lower_statements(&function.body) {
        Ok(()) => Ok(builder.complete()),
        Err(e) => Err(e),
    }
}

} // verus!
