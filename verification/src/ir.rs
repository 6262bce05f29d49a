//! The intermediate representation: basic blocks of instructions in static
//! single assignment form, and each part of it as a mathematical value.

use vstd::prelude::*;
use vstd::string::StringExecFns;
use crate::ast::{BinaryOp, ComparisonOp};
use crate::names::{make_name, ssa_name};

verus! {

/// An operand of an instruction: the name of a value, or a constant
/// written in place.
#[derive(Debug, PartialEq, Eq)]
pub enum Operand {
    Variable(String),
    Constant(i64),
}

/// One definition: a result name and the value bound to it.
#[derive(Debug, PartialEq, Eq)]
#[allow(inconsistent_fields)]
pub enum Instruction {
    /// `result` is the constant `value`.
    Constant { result: String, value: i64 },
    /// `result` is `left op right`.
    Binary { result: String, op: BinaryOp, left: Operand, right: Operand },
    /// `result` is 1 where `left op right` holds and 0 where it does not.
    Comparison { result: String, op: ComparisonOp, left: Operand, right: Operand },
    /// `result` is the operand listed for the block that control came from.
    Phi { result: String, incoming: Vec<(String, Operand)> },
}

/// The control transfer that ends a block.
#[derive(Debug, PartialEq, Eq)]
pub enum Terminator {
    /// Go to `target`.
    Jump { target: String },
    /// Go to `then_target` where `condition` is not zero, else to
    /// `else_target`.
    Branch { condition: Operand, then_target: String, else_target: String },
}

/// A basic block. A block without a terminator is an exit: control leaves
/// the program there, and the value of its last instruction is the result.
#[derive(Debug, PartialEq, Eq)]
pub struct BasicBlock {
    pub name: String,
    pub instructions: Vec<Instruction>,
    pub terminator: Option<Terminator>,
    pub predecessors: Vec<String>,
}

/// The blocks of one function or statement sequence, and the name of the
/// block where control enters.
#[derive(Debug, PartialEq, Eq)]
pub struct Program {
    pub blocks: Vec<BasicBlock>,
    pub entry: String,
}

pub enum OperandView {
    Variable(Seq<char>),
    Constant(i64),
}

#[allow(inconsistent_fields)]
pub enum InstructionView {
    Constant { result: Seq<char>, value: i64 },
    Binary { result: Seq<char>, op: BinaryOp, left: OperandView, right: OperandView },
    Comparison { result: Seq<char>, op: ComparisonOp, left: OperandView, right: OperandView },
    Phi { result: Seq<char>, incoming: Seq<(Seq<char>, OperandView)> },
}

pub enum TerminatorView {
    Jump { target: Seq<char> },
    Branch { condition: OperandView, then_target: Seq<char>, else_target: Seq<char> },
}

pub struct BlockView {
    pub name: Seq<char>,
    pub instructions: Seq<InstructionView>,
    pub terminator: Option<TerminatorView>,
    pub predecessors: Seq<Seq<char>>,
}

pub struct ProgramView {
    pub blocks: Seq<BlockView>,
    pub entry: Seq<char>,
}

impl InstructionView {
    /// The name that the instruction defines.
    pub open spec fn result(self) -> Seq<char> {
        match self {
            InstructionView::Constant { result, .. } => result,
            InstructionView::Binary { result, .. } => result,
            InstructionView::Comparison { result, .. } => result,
            InstructionView::Phi { result, .. } => result,
        }
    }
}

impl View for Operand {
    type V = OperandView;

    open spec fn view(&self) -> OperandView {
        match self {
            Operand::Variable(name) => OperandView::Variable(name@),
            Operand::Constant(value) => OperandView::Constant(*value),
        }
    }
}

/// The incoming operands of a phi, each as a mathematical value.
pub open spec fn incoming_view(incoming: Seq<(String, Operand)>) -> Seq<(Seq<char>, OperandView)> {
    Seq::new(incoming.len(), |i: int| (incoming[i].0@, incoming[i].1@))
}

impl View for Instruction {
    type V = InstructionView;

    open spec fn view(&self) -> InstructionView {
        match self {
            Instruction::Constant { result, value } => InstructionView::Constant {
                result: result@,
                value: *value,
            },
            Instruction::Binary { result, op, left, right } => InstructionView::Binary {
                result: result@,
                op: *op,
                left: left@,
                right: right@,
            },
            Instruction::Comparison { result, op, left, right } => InstructionView::Comparison {
                result: result@,
                op: *op,
                left: left@,
                right: right@,
            },
            Instruction::Phi { result, incoming } => InstructionView::Phi {
                result: result@,
                incoming: incoming_view(incoming@),
            },
        }
    }
}

/// The instructions of a vector, each as a mathematical value.
pub open spec fn instructions_view(instructions: Seq<Instruction>) -> Seq<InstructionView> {
    Seq::new(instructions.len(), |i: int| instructions[i]@)
}

/// The names of a vector, each as a sequence of characters.
pub open spec fn names_view(names: Seq<String>) -> Seq<Seq<char>> {
    Seq::new(names.len(), |i: int| names[i]@)
}

impl View for Terminator {
    type V = TerminatorView;

    open spec fn view(&self) -> TerminatorView {
        match self {
            Terminator::Jump { target } => TerminatorView::Jump { target: target@ },
            Terminator::Branch { condition, then_target, else_target } => TerminatorView::Branch {
                condition: condition@,
                then_target: then_target@,
                else_target: else_target@,
            },
        }
    }
}

/// The terminator of a block, if it has one, as a mathematical value.
pub open spec fn terminator_view(terminator: Option<Terminator>) -> Option<TerminatorView> {
    match terminator {
        Some(t) => Some(t@),
        None => None,
    }
}

impl View for BasicBlock {
    type V = BlockView;

    open spec fn view(&self) -> BlockView {
        BlockView {
            name: self.name@,
            instructions: instructions_view(self.instructions@),
            terminator: terminator_view(self.terminator),
            predecessors: names_view(self.predecessors@),
        }
    }
}

/// The blocks of a vector, each as a mathematical value.
pub open spec fn blocks_view(blocks: Seq<BasicBlock>) -> Seq<BlockView> {
    Seq::new(blocks.len(), |i: int| blocks[i]@)
}

impl View for Program {
    type V = ProgramView;

    open spec fn view(&self) -> ProgramView {
        ProgramView { blocks: blocks_view(self.blocks@), entry: self.entry@ }
    }
}

/// The name of the entry block of every program that this library builds.
pub open spec fn entry_name() -> Seq<char> {
    ssa_name("entry"@, 1)
}

/// The program that does nothing: a lone exit block without instructions.
pub open spec fn empty_program() -> ProgramView {
    ProgramView {
        blocks: seq![
            BlockView {
                name: entry_name(),
                instructions: Seq::empty(),
                terminator: None,
                predecessors: Seq::empty(),
            },
        ],
        entry: entry_name(),
    }
}

impl Clone for Operand {
    fn clone(&self) -> (copy: Operand)
        ensures
            copy@ == self@,
    {
        match self {
            Operand::Variable(name) => Operand::Variable(name.clone()),
            Operand::Constant(value) => Operand::Constant(*value),
        }
    }
}

/// A copy of the incoming operands of a phi.
pub fn clone_incoming(incoming: &Vec<(String, Operand)>) -> (copy: Vec<(String, Operand)>)
    ensures
        incoming_view(copy@) == incoming_view(incoming@),
{
    let mut copy: Vec<(String, Operand)> = Vec::new();
    let mut i: usize = 0;
    while i < incoming.len()
        invariant
            i <= incoming.len(),
            copy@.len() == i,
            forall|j: int|
                0 <= j < i ==> (#[trigger] copy@[j]).0@ == incoming@[j].0@ && copy@[j].1@ == incoming@[j].1@,
        decreases incoming.len() - i,
    {
        copy.push((incoming[i].0.clone(), incoming[i].1.clone()));
        i += 1;
    }
    assert(incoming_view(copy@) =~= incoming_view(incoming@));
    copy
}

impl Clone for Instruction {
    fn clone(&self) -> (copy: Instruction)
        ensures
            copy@ == self@,
    {
        match self {
            Instruction::Constant { result, value } => Instruction::Constant {
                result: result.clone(),
                value: *value,
            },
            Instruction::Binary { result, op, left, right } => Instruction::Binary {
                result: result.clone(),
                op: *op,
                left: left.clone(),
                right: right.clone(),
            },
            Instruction::Comparison { result, op, left, right } => Instruction::Comparison {
                result: result.clone(),
                op: *op,
                left: left.clone(),
                right: right.clone(),
            },
            Instruction::Phi { result, incoming } => Instruction::Phi {
                result: result.clone(),
                incoming: clone_incoming(incoming),
            },
        }
    }
}

impl Clone for Terminator {
    fn clone(&self) -> (copy: Terminator)
        ensures
            copy@ == self@,
    {
        match self {
            Terminator::Jump { target } => Terminator::Jump { target: target.clone() },
            Terminator::Branch { condition, then_target, else_target } => Terminator::Branch {
                condition: condition.clone(),
                then_target: then_target.clone(),
                else_target: else_target.clone(),
            },
        }
    }
}

/// A copy of a vector of instructions.
pub fn clone_instructions(instructions: &Vec<Instruction>) -> (copy: Vec<Instruction>)
    ensures
        instructions_view(copy@) == instructions_view(instructions@),
{
    let mut copy: Vec<Instruction> = Vec::new();
    let mut i: usize = 0;
    while i < instructions.len()
        invariant
            i <= instructions.len(),
            copy@.len() == i,
            forall|j: int| 0 <= j < i ==> (#[trigger] copy@[j])@ == instructions@[j]@,
        decreases instructions.len() - i,
    {
        copy.push(instructions[i].clone());
        i += 1;
    }
    assert(instructions_view(copy@) =~= instructions_view(instructions@));
    copy
}

/// A copy of a vector of names.
pub fn clone_names(names: &Vec<String>) -> (copy: Vec<String>)
    ensures
        names_view(copy@) == names_view(names@),
{
    let mut copy: Vec<String> = Vec::new();
    let mut i: usize = 0;
    while i < names.len()
        invariant
            i <= names.len(),
            copy@.len() == i,
            forall|j: int| 0 <= j < i ==> (#[trigger] copy@[j])@ == names@[j]@,
        decreases names.len() - i,
    {
        copy.push(names[i].clone());
        i += 1;
    }
    assert(names_view(copy@) =~= names_view(names@));
    copy
}

impl Clone for BasicBlock {
    fn clone(&self) -> (copy: BasicBlock)
        ensures
            copy@ == self@,
    {
        let terminator: Option<Terminator> = match &self.terminator {
            Some(t) => Some(t.clone()),
            None => None,
        };
        BasicBlock {
            name: self.name.clone(),
            instructions: clone_instructions(&self.instructions),
            terminator,
            predecessors: clone_names(&self.predecessors),
        }
    }
}

impl Clone for Program {
    fn clone(&self) -> (copy: Program)
        ensures
            copy@ == self@,
    {
        let mut blocks: Vec<BasicBlock> = Vec::new();
        let mut i: usize = 0;
        while i < self.blocks.len()
            invariant
                i <= self.blocks.len(),
                blocks@.len() == i,
                forall|j: int| 0 <= j < i ==> (#[trigger] blocks@[j])@ == self.blocks@[j]@,
            decreases self.blocks.len() - i,
        {
            blocks.push(self.blocks[i].clone());
            i += 1;
        }
        assert(blocks_view(blocks@) =~= blocks_view(self.blocks@));
        Program { blocks, entry: self.entry.clone() }
    }
}

impl Program {
    /// The program that does nothing.
    pub fn new() -> (program: Program)
        ensures
            program@ == empty_program(),
    {
        let base: String = String::from_str("entry");
        let block = BasicBlock {
            name: make_name(&base, 1),
            instructions: Vec::new(),
            terminator: None,
            predecessors: Vec::new(),
        };
        assert(block@.instructions =~= Seq::<InstructionView>::empty());
        assert(block@.predecessors =~= Seq::<Seq<char>>::empty());
        let mut blocks: Vec<BasicBlock> = Vec::new();
        blocks.push(block);
        assert(blocks_view(blocks@) =~= empty_program().blocks);
        Program { blocks, entry: make_name(&base, 1) }
    }
}

} // verus!
