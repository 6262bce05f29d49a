//! Every name that a lowered program reads is defined by an instruction of
//! the program, or is a parameter.

use vstd::prelude::*;
use crate::ast::{ExprView, ParameterView, StatementView};
use crate::builder::{
    assigns, begin_if, begin_while, bind_parameters, close_phis, completed, end_if, end_while,
    enter_phis, fresh, lower_body_spec, lower_named, lower_operand, lower_spec, lower_statement,
    lower_statements, merge_bindings, truth, version_at, version_operand, ArmEnd, BuilderView,
    IfPlan, Numbers, PendingPhi, WhilePlan,
};
use crate::ir::{BlockView, InstructionView, OperandView, ProgramView, TerminatorView};
use crate::names::ssa_name;
use crate::passes::{
    block_uses, incoming_uses, instruction_uses, instructions_uses, operand_uses, terminator_uses,
};
use crate::table::{find, lemma_position, position, put};

verus! {

/// An instruction of the blocks defines `name`.
pub open spec fn defines(blocks: Seq<BlockView>, name: Seq<char>) -> bool {
    exists|k: int, i: int|
        0 <= k < blocks.len() && 0 <= i < blocks[k].instructions.len() && (
        #[trigger] blocks[k].instructions[i]).result() == name
}

/// Every name that a block of the program reads is given on entry or
/// defined by an instruction of the program.
pub open spec fn has_definitions(program: ProgramView, given: Set<Seq<char>>) -> bool {
    forall|b: int, k: int|
        0 <= b < program.blocks.len() && 0 <= k < block_uses(program.blocks[b]).len() ==> given.contains(
            #[trigger] block_uses(program.blocks[b])[k],
        ) || defines(program.blocks, block_uses(program.blocks[b])[k])
}

/// The names of the parameters as they are known on entry: each at
/// version zero.
pub open spec fn parameter_names(parameters: Seq<ParameterView>) -> Set<Seq<char>> {
    Set::new(
        |name: Seq<char>|
            exists|i: int| 0 <= i < parameters.len() && name == ssa_name((#[trigger] parameters[i]).name, 0),
    )
}

/// `name` is given on entry or defined by an instruction so far.
pub open spec fn available(b: BuilderView, given: Set<Seq<char>>, name: Seq<char>) -> bool {
    given.contains(name) || defines(b.blocks, name) || exists|i: int|
        0 <= i < b.instructions.len() && (#[trigger] b.instructions[i]).result() == name
}

/// Every name in `names` is available.
pub open spec fn all_available(b: BuilderView, given: Set<Seq<char>>, names: Seq<Seq<char>>) -> bool {
    forall|k: int| 0 <= k < names.len() ==> available(b, given, #[trigger] names[k])
}

/// Every version in `numbers` is the version of an available name.
pub open spec fn versions_available(b: BuilderView, given: Set<Seq<char>>, numbers: Numbers) -> bool {
    forall|i: int|
        0 <= i < numbers.len() ==> available(b, given, ssa_name((#[trigger] numbers[i]).0, numbers[i].1 as nat))
}

/// Every name that is read so far, and every current version of a
/// variable, is available.
pub open spec fn defined(b: BuilderView, given: Set<Seq<char>>) -> bool {
    &&& forall|k: int| 0 <= k < b.blocks.len() ==> all_available(b, given, block_uses(#[trigger] b.blocks[k]))
    &&& all_available(b, given, instructions_uses(b.instructions, b.instructions.len() as int))
    &&& versions_available(b, given, b.bindings)
    &&& !b.open ==> b.instructions.len() == 0
}

/// What is available in `b` is available in `after`.
pub open spec fn grows(b: BuilderView, after: BuilderView, given: Set<Seq<char>>) -> bool {
    forall|name: Seq<char>| #[trigger] available(b, given, name) ==> available(after, given, name)
}

/// What is available stays available when names are defined.
pub proof fn lemma_grows_all(b: BuilderView, after: BuilderView, given: Set<Seq<char>>, names: Seq<Seq<char>>)
    requires
        grows(b, after, given),
        all_available(b, given, names),
    ensures
        all_available(after, given, names),
{
    assert forall|k: int| 0 <= k < names.len() implies available(after, given, #[trigger] names[k]) by {
        assert(available(b, given, names[k]));
    }
}

/// Versions that are available stay available when names are defined.
pub proof fn lemma_grows_versions(b: BuilderView, after: BuilderView, given: Set<Seq<char>>, numbers: Numbers)
    requires
        grows(b, after, given),
        versions_available(b, given, numbers),
    ensures
        versions_available(after, given, numbers),
{
    assert forall|i: int| 0 <= i < numbers.len() implies available(
        after,
        given,
        ssa_name((#[trigger] numbers[i]).0, numbers[i].1 as nat),
    ) by {
        assert(available(b, given, ssa_name(numbers[i].0, numbers[i].1 as nat)));
    }
}

/// Growth is transitive.
pub proof fn lemma_grows_trans(a: BuilderView, b: BuilderView, c: BuilderView, given: Set<Seq<char>>)
    requires
        grows(a, b, given),
        grows(b, c, given),
    ensures
        grows(a, c, given),
{
    assert forall|name: Seq<char>| #[trigger] available(a, given, name) implies available(c, given, name) by {
        assert(available(b, given, name));
    }
}

/// The names of a concatenation are available where those of both parts
/// are.
pub proof fn lemma_available_concat(b: BuilderView, given: Set<Seq<char>>, left: Seq<Seq<char>>, right: Seq<Seq<char>>)
    requires
        all_available(b, given, left),
        all_available(b, given, right),
    ensures
        all_available(b, given, left + right),
{
    assert forall|k: int| 0 <= k < (left + right).len() implies available(b, given, #[trigger] (left + right)[k]) by {
        if k < left.len() {
            assert((left + right)[k] == left[k]);
        } else {
            assert((left + right)[k] == right[k - left.len()]);
        }
    }
}

/// The version that is found for a variable is one of the versions.
pub proof fn lemma_found_available(b: BuilderView, given: Set<Seq<char>>, numbers: Numbers, variable: Seq<char>)
    requires
        versions_available(b, given, numbers),
        find(numbers, variable) is Some,
    ensures
        available(b, given, ssa_name(variable, find(numbers, variable)->Some_0 as nat)),
        all_available(b, given, operand_uses(version_operand(variable, find(numbers, variable)->Some_0))),
{
    lemma_position(numbers, variable, 0);
    let i = position(numbers, variable, 0);
    assert(numbers[i].0 == variable);
    assert(available(b, given, ssa_name(numbers[i].0, numbers[i].1 as nat)));
}

/// The versions stay available when an available version is entered.
pub proof fn lemma_put_available(b: BuilderView, given: Set<Seq<char>>, numbers: Numbers, variable: Seq<char>, version: u64)
    requires
        versions_available(b, given, numbers),
        available(b, given, ssa_name(variable, version as nat)),
    ensures
        versions_available(b, given, put(numbers, variable, version)),
{
    lemma_position(numbers, variable, 0);
    let after = put(numbers, variable, version);
    assert forall|i: int| 0 <= i < after.len() implies available(
        b,
        given,
        ssa_name((#[trigger] after[i]).0, after[i].1 as nat),
    ) by {
        if i < numbers.len() && after[i] == numbers[i] {
            assert(available(b, given, ssa_name(numbers[i].0, numbers[i].1 as nat)));
        }
    }
}

/// The names that the first instructions read depend on those
/// instructions alone.
pub proof fn lemma_uses_prefix(a: Seq<InstructionView>, b: Seq<InstructionView>, upto: int)
    requires
        0 <= upto <= a.len(),
        upto <= b.len(),
        forall|i: int| 0 <= i < upto ==> instruction_uses(a[i]) == instruction_uses(b[i]),
    ensures
        instructions_uses(a, upto) == instructions_uses(b, upto),
    decreases upto,
{
    if upto > 0 {
        lemma_uses_prefix(a, b, upto - 1);
    }
}

/// The names that the first incoming operands read depend on those
/// operands alone.
pub proof fn lemma_incoming_prefix(
    a: Seq<(Seq<char>, OperandView)>,
    b: Seq<(Seq<char>, OperandView)>,
    upto: int,
)
    requires
        0 <= upto <= a.len(),
        upto <= b.len(),
        forall|i: int| 0 <= i < upto ==> a[i] == b[i],
    ensures
        incoming_uses(a, upto) == incoming_uses(b, upto),
    decreases upto,
{
    if upto > 0 {
        lemma_incoming_prefix(a, b, upto - 1);
    }
}

/// A definition that reads available names keeps everything defined, and
/// the name it defines is available.
pub proof fn lemma_defined_define(b: BuilderView, given: Set<Seq<char>>, base: Seq<char>, shape: InstructionView)
    requires
        defined(b, given),
        b.open,
        all_available(b, given, instruction_uses(shape)),
    ensures
        b.define(base, shape) matches Ok((n, after)) ==> defined(after, given) && grows(b, after, given)
            && available(after, given, ssa_name(base, n as nat)) && after.open && after.bindings
            == b.bindings,
{
    if let Ok((n, after)) = b.define(base, shape) {
        let named = shape.named(ssa_name(base, n as nat));
        let len = b.instructions.len() as int;
        assert(after.instructions[len] == named);
        assert(named.result() == ssa_name(base, n as nat));
        assert(instruction_uses(named) == instruction_uses(shape));
        assert(grows(b, after, given)) by {
            assert forall|name: Seq<char>| #[trigger] available(b, given, name) implies available(
                after,
                given,
                name,
            ) by {
                if !given.contains(name) && !defines(b.blocks, name) {
                    let i = choose|i: int|
                        0 <= i < b.instructions.len() && (#[trigger] b.instructions[i]).result() == name;
                    assert(after.instructions[i].result() == name);
                }
            }
        }
        lemma_uses_prefix(after.instructions, b.instructions, len);
        lemma_grows_all(b, after, given, instructions_uses(b.instructions, len));
        lemma_grows_all(b, after, given, instruction_uses(shape));
        lemma_available_concat(after, given, instructions_uses(b.instructions, len), instruction_uses(shape));
        lemma_grows_versions(b, after, given, b.bindings);
        assert forall|k: int| 0 <= k < after.blocks.len() implies all_available(
            after,
            given,
            block_uses(#[trigger] after.blocks[k]),
        ) by {
            lemma_grows_all(b, after, given, block_uses(b.blocks[k]));
        }
    }
}

/// States with the same blocks and the same instructions have the same
/// names available.
pub proof fn lemma_same_available(b: BuilderView, after: BuilderView, given: Set<Seq<char>>)
    requires
        after.blocks == b.blocks,
        after.instructions == b.instructions,
    ensures
        grows(b, after, given),
        grows(after, b, given),
{
    assert forall|name: Seq<char>| #[trigger] available(b, given, name) implies available(after, given, name) by {
        if !given.contains(name) && !defines(b.blocks, name) {
            let i = choose|i: int| 0 <= i < b.instructions.len() && (#[trigger] b.instructions[i]).result() == name;
            assert(after.instructions[i].result() == name);
        }
    }
    assert forall|name: Seq<char>| #[trigger] available(after, given, name) implies available(b, given, name) by {
        if !given.contains(name) && !defines(after.blocks, name) {
            let i = choose|i: int|
                0 <= i < after.instructions.len() && (#[trigger] after.instructions[i]).result() == name;
            assert(b.instructions[i].result() == name);
        }
    }
}

/// Making a version current keeps everything defined, where its name is
/// available.
pub proof fn lemma_defined_bind(b: BuilderView, given: Set<Seq<char>>, variable: Seq<char>, version: u64)
    requires
        defined(b, given),
        available(b, given, ssa_name(variable, version as nat)),
    ensures
        defined(b.bind(variable, version), given),
        grows(b, b.bind(variable, version), given),
{
    let after = b.bind(variable, version);
    lemma_put_available(b, given, b.bindings, variable, version);
    lemma_same_available(b, after, given);
    lemma_grows_versions(b, after, given, put(b.bindings, variable, version));
    lemma_grows_all(b, after, given, instructions_uses(b.instructions, b.instructions.len() as int));
    assert forall|k: int| 0 <= k < after.blocks.len() implies all_available(
        after,
        given,
        block_uses(#[trigger] after.blocks[k]),
    ) by {
        lemma_grows_all(b, after, given, block_uses(b.blocks[k]));
    }
}

/// Finishing the current block with a terminator that reads available
/// names keeps everything defined.
pub proof fn lemma_defined_finish(b: BuilderView, given: Set<Seq<char>>, terminator: Option<TerminatorView>)
    requires
        defined(b, given),
        all_available(b, given, terminator_uses(terminator)),
    ensures
        defined(b.finish(terminator), given),
        grows(b, b.finish(terminator), given),
{
    let after = b.finish(terminator);
    let len = b.blocks.len() as int;
    assert(grows(b, after, given)) by {
        assert forall|name: Seq<char>| #[trigger] available(b, given, name) implies available(
            after,
            given,
            name,
        ) by {
            if !given.contains(name) {
                if defines(b.blocks, name) {
                    let (k, i) = choose|k: int, i: int|
                        0 <= k < b.blocks.len() && 0 <= i < b.blocks[k].instructions.len() && (
                        #[trigger] b.blocks[k].instructions[i]).result() == name;
                    assert(after.blocks[k].instructions[i].result() == name);
                } else {
                    let i = choose|i: int|
                        0 <= i < b.instructions.len() && (#[trigger] b.instructions[i]).result() == name;
                    assert(after.blocks[len].instructions[i].result() == name);
                }
            }
        }
    }
    lemma_grows_versions(b, after, given, b.bindings);
    assert(instructions_uses(after.instructions, 0) =~= Seq::<Seq<char>>::empty());
    assert forall|k: int| 0 <= k < after.blocks.len() implies all_available(
        after,
        given,
        block_uses(#[trigger] after.blocks[k]),
    ) by {
        if k < len {
            assert(after.blocks[k] == b.blocks[k]);
            lemma_grows_all(b, after, given, block_uses(b.blocks[k]));
        } else {
            lemma_grows_all(b, after, given, instructions_uses(b.instructions, b.instructions.len() as int));
            lemma_grows_all(b, after, given, terminator_uses(terminator));
            lemma_available_concat(
                after,
                given,
                instructions_uses(b.instructions, b.instructions.len() as int),
                terminator_uses(terminator),
            );
        }
    }
}

/// Beginning a block with available versions keeps everything defined.
pub proof fn lemma_defined_begin(b: BuilderView, given: Set<Seq<char>>, name: Seq<char>, bindings: Numbers)
    requires
        defined(b, given),
        !b.open,
        versions_available(b, given, bindings),
    ensures
        defined(b.begin(name, bindings), given),
        grows(b, b.begin(name, bindings), given),
{
    let after = b.begin(name, bindings);
    assert(after.instructions =~= b.instructions);
    assert(grows(b, after, given)) by {
        assert forall|n: Seq<char>| #[trigger] available(b, given, n) implies available(after, given, n) by {}
    }
    lemma_grows_versions(b, after, given, bindings);
    lemma_grows_all(b, after, given, instructions_uses(b.instructions, b.instructions.len() as int));
    assert forall|k: int| 0 <= k < after.blocks.len() implies all_available(
        after,
        given,
        block_uses(#[trigger] after.blocks[k]),
    ) by {
        lemma_grows_all(b, after, given, block_uses(b.blocks[k]));
    }
}

/// Ending the current block with a jump keeps everything defined.
pub proof fn lemma_defined_jump(b: BuilderView, given: Set<Seq<char>>, target: Seq<char>)
    requires
        defined(b, given),
    ensures
        defined(b.jump_if_open(target), given),
        grows(b, b.jump_if_open(target), given),
        !b.jump_if_open(target).open,
{
    if b.open {
        lemma_defined_finish(b, given, Some(TerminatorView::Jump { target }));
    } else {
        lemma_grows_refl(b, given);
    }
}

/// A state grows to itself.
pub proof fn lemma_grows_refl(b: BuilderView, given: Set<Seq<char>>)
    ensures
        grows(b, b, given),
{
}

/// Lowering an expression keeps everything defined, and the name it
/// defines is available.
pub proof fn lemma_defined_named(b: BuilderView, given: Set<Seq<char>>, e: ExprView, base: Seq<char>)
    requires
        defined(b, given),
        b.open,
    ensures
        lower_named(b, e, base) matches Ok((n, after)) ==> defined(after, given) && grows(b, after, given)
            && available(after, given, ssa_name(base, n as nat)) && after.open && after.bindings
            == b.bindings,
    decreases e, 0nat,
{
    match e {
        ExprView::Integer(value) => {
            lemma_defined_define(b, given, base, InstructionView::Constant { result: Seq::empty(), value });
        },
        ExprView::Boolean(value) => {
            lemma_defined_define(
                b,
                given,
                base,
                InstructionView::Constant { result: Seq::empty(), value: truth(value) },
            );
        },
        ExprView::Variable(name) => {
            if let Some(version) = find(b.bindings, name) {
                lemma_found_available(b, given, b.bindings, name);
                let shape = InstructionView::Binary {
                    result: Seq::empty(),
                    op: crate::ast::BinaryOp::Add,
                    left: version_operand(name, version),
                    right: OperandView::Constant(0),
                };
                assert(instruction_uses(shape) =~= operand_uses(version_operand(name, version)));
                lemma_defined_define(b, given, base, shape);
            }
        },
        ExprView::Binary { op, left, right } => {
            lemma_defined_operand(b, given, *left);
            if let Ok((l, b1)) = lower_operand(b, *left) {
                lemma_defined_operand(b1, given, *right);
                if let Ok((r, b2)) = lower_operand(b1, *right) {
                    lemma_grows_all(b1, b2, given, operand_uses(l));
                    lemma_available_concat(b2, given, operand_uses(l), operand_uses(r));
                    lemma_defined_define(
                        b2,
                        given,
                        base,
                        InstructionView::Binary { result: Seq::empty(), op, left: l, right: r },
                    );
                    if let Ok((n, b3)) = b2.define(
                        base,
                        InstructionView::Binary { result: Seq::empty(), op, left: l, right: r },
                    ) {
                        lemma_grows_trans(b, b1, b2, given);
                        lemma_grows_trans(b, b2, b3, given);
                    }
                }
            }
        },
        ExprView::Comparison { op, left, right } => {
            lemma_defined_operand(b, given, *left);
            if let Ok((l, b1)) = lower_operand(b, *left) {
                lemma_defined_operand(b1, given, *right);
                if let Ok((r, b2)) = lower_operand(b1, *right) {
                    lemma_grows_all(b1, b2, given, operand_uses(l));
                    lemma_available_concat(b2, given, operand_uses(l), operand_uses(r));
                    lemma_defined_define(
                        b2,
                        given,
                        base,
                        InstructionView::Comparison { result: Seq::empty(), op, left: l, right: r },
                    );
                    if let Ok((n, b3)) = b2.define(
                        base,
                        InstructionView::Comparison { result: Seq::empty(), op, left: l, right: r },
                    ) {
                        lemma_grows_trans(b, b1, b2, given);
                        lemma_grows_trans(b, b2, b3, given);
                    }
                }
            }
        },
        ExprView::Call { .. } => {},
    }
}

/// Lowering an operand keeps everything defined, and what the operand
/// reads is available.
pub proof fn lemma_defined_operand(b: BuilderView, given: Set<Seq<char>>, e: ExprView)
    requires
        defined(b, given),
        b.open,
    ensures
        lower_operand(b, e) matches Ok((operand, after)) ==> defined(after, given) && grows(b, after, given)
            && all_available(after, given, operand_uses(operand)) && after.open && after.bindings
            == b.bindings,
    decreases e, 1nat,
{
    match e {
        ExprView::Variable(name) => {
            if find(b.bindings, name) is Some {
                lemma_found_available(b, given, b.bindings, name);
            }
        },
        ExprView::Binary { .. } => {
            lemma_defined_named(b, given, e, "bin"@);
        },
        ExprView::Comparison { .. } => {
            lemma_defined_named(b, given, e, "rel"@);
        },
        _ => {},
    }
}

/// The version of a variable at the end of an arm is available.
pub proof fn lemma_version_at_available(
    b: BuilderView,
    given: Set<Seq<char>>,
    end: ArmEnd,
    variable: Seq<char>,
    otherwise: u64,
)
    requires
        versions_available(b, given, end.bindings),
        available(b, given, ssa_name(variable, otherwise as nat)),
    ensures
        available(b, given, ssa_name(variable, version_at(end, variable, otherwise) as nat)),
        all_available(b, given, operand_uses(version_operand(variable, version_at(end, variable, otherwise)))),
{
    if find(end.bindings, variable) is Some {
        lemma_found_available(b, given, end.bindings, variable);
    }
}

/// Settling the versions in a merge block keeps everything defined.
pub proof fn lemma_defined_merge(
    b: BuilderView,
    given: Set<Seq<char>>,
    saved: Numbers,
    from: int,
    first: ArmEnd,
    second: ArmEnd,
)
    requires
        defined(b, given),
        b.open,
        versions_available(b, given, saved),
        versions_available(b, given, first.bindings),
        versions_available(b, given, second.bindings),
    ensures
        merge_bindings(b, saved, from, first, second) matches Ok(after) ==> defined(after, given) && grows(
            b,
            after,
            given,
        ),
    decreases saved.len() - from,
{
    if 0 <= from < saved.len() {
        let variable = saved[from].0;
        let v1 = version_at(first, variable, saved[from].1);
        let v2 = version_at(second, variable, saved[from].1);
        assert(available(b, given, ssa_name(saved[from].0, saved[from].1 as nat)));
        lemma_version_at_available(b, given, first, variable, saved[from].1);
        lemma_version_at_available(b, given, second, variable, saved[from].1);
        let next = if first.open && second.open && v1 != v2 {
            let incoming = seq![
                (first.name, version_operand(variable, v1)),
                (second.name, version_operand(variable, v2)),
            ];
            let phi = InstructionView::Phi { result: Seq::empty(), incoming };
            assert(incoming_uses(incoming, 2) =~= operand_uses(version_operand(variable, v1)) + operand_uses(
                version_operand(variable, v2),
            )) by {
                assert(incoming_uses(incoming, 0) =~= Seq::<Seq<char>>::empty());
                assert(incoming_uses(incoming, 1) =~= operand_uses(version_operand(variable, v1)));
            }
            lemma_available_concat(
                b,
                given,
                operand_uses(version_operand(variable, v1)),
                operand_uses(version_operand(variable, v2)),
            );
            lemma_defined_define(b, given, variable, phi);
            match b.define(variable, phi) {
                Ok((n, b1)) => {
                    lemma_defined_bind(b1, given, variable, n);
                    lemma_grows_trans(b, b1, b1.bind(variable, n), given);
                    Some(b1.bind(variable, n))
                },
                Err(_) => None,
            }
        } else if first.open {
            lemma_defined_bind(b, given, variable, v1);
            Some(b.bind(variable, v1))
        } else {
            lemma_defined_bind(b, given, variable, v2);
            Some(b.bind(variable, v2))
        };
        if let Some(b2) = next {
            lemma_grows_versions(b, b2, given, saved);
            lemma_grows_versions(b, b2, given, first.bindings);
            lemma_grows_versions(b, b2, given, second.bindings);
            lemma_defined_merge(b2, given, saved, from + 1, first, second);
            if let Ok(after) = merge_bindings(b2, saved, from + 1, first, second) {
                lemma_grows_trans(b, b2, after, given);
            }
        }
    } else {
        lemma_grows_refl(b, given);
    }
}

/// Ending a conditional keeps everything defined.
pub proof fn lemma_defined_end_if(b: BuilderView, given: Set<Seq<char>>, plan: IfPlan, first: ArmEnd, second: ArmEnd)
    requires
        defined(b, given),
        !b.open,
        versions_available(b, given, plan.saved),
        versions_available(b, given, first.bindings),
        versions_available(b, given, second.bindings),
    ensures
        end_if(b, plan, first, second) matches Ok(after) ==> defined(after, given) && grows(b, after, given),
{
    if !first.open && !second.open {
        let after = BuilderView { open: false, ..b };
        assert(after == b);
        lemma_grows_refl(b, given);
    } else {
        lemma_defined_begin(b, given, plan.merge_name, Seq::empty());
        let b1 = b.begin(plan.merge_name, Seq::empty());
        lemma_grows_versions(b, b1, given, plan.saved);
        lemma_grows_versions(b, b1, given, first.bindings);
        lemma_grows_versions(b, b1, given, second.bindings);
        lemma_defined_merge(b1, given, plan.saved, 0, first, second);
        if let Ok(after) = merge_bindings(b1, plan.saved, 0, first, second) {
            lemma_grows_trans(b, b1, after, given);
        }
    }
}

/// The names that the phis in `pending` define are available.
pub open spec fn pending_available(b: BuilderView, given: Set<Seq<char>>, pending: Seq<PendingPhi>) -> bool {
    forall|i: int|
        0 <= i < pending.len() ==> available(
            b,
            given,
            ssa_name((#[trigger] pending[i]).variable, pending[i].version as nat),
        )
}

/// Making the phis of a loop header keeps everything defined, and the
/// names that the phis define are available.
pub proof fn lemma_defined_enter(
    b: BuilderView,
    given: Set<Seq<char>>,
    saved: Numbers,
    from: int,
    body: Seq<StatementView>,
    origin: Seq<char>,
    before: Seq<PendingPhi>,
)
    requires
        defined(b, given),
        b.open,
        versions_available(b, given, saved),
        pending_available(b, given, before),
    ensures
        enter_phis(b, saved, from, body, origin, before) matches Ok((pending, after)) ==> defined(after, given)
            && grows(b, after, given) && pending_available(after, given, pending) && after.open,
    decreases saved.len() - from,
{
    if 0 <= from < saved.len() {
        let variable = saved[from].0;
        if assigns(body, 0, variable) {
            let operand = version_operand(variable, saved[from].1);
            let incoming = seq![(origin, operand)];
            let phi = InstructionView::Phi { result: Seq::empty(), incoming };
            assert(available(b, given, ssa_name(saved[from].0, saved[from].1 as nat)));
            assert(incoming_uses(incoming, 1) =~= operand_uses(operand)) by {
                assert(incoming_uses(incoming, 0) =~= Seq::<Seq<char>>::empty());
            }
            lemma_defined_define(b, given, variable, phi);
            if let Ok((n, b1)) = b.define(variable, phi) {
                lemma_defined_bind(b1, given, variable, n);
                let b2 = b1.bind(variable, n);
                lemma_grows_trans(b, b1, b2, given);
                lemma_grows_versions(b, b2, given, saved);
                let more = before.push(PendingPhi { variable, version: n });
                assert forall|i: int| 0 <= i < more.len() implies available(
                    b2,
                    given,
                    ssa_name((#[trigger] more[i]).variable, more[i].version as nat),
                ) by {
                    if i < before.len() {
                        assert(more[i] == before[i]);
                        assert(available(b, given, ssa_name(before[i].variable, before[i].version as nat)));
                    }
                }
                lemma_defined_enter(b2, given, saved, from + 1, body, origin, more);
                if let Ok((_, after)) = enter_phis(b2, saved, from + 1, body, origin, more) {
                    lemma_grows_trans(b, b2, after, given);
                }
            }
        } else {
            lemma_defined_enter(b, given, saved, from + 1, body, origin, before);
        }
    } else {
        lemma_grows_refl(b, given);
    }
}

/// Beginning a conditional keeps everything defined.
pub proof fn lemma_defined_begin_if(b: BuilderView, given: Set<Seq<char>>, condition: ExprView, has_else: bool)
    requires
        defined(b, given),
        b.open,
    ensures
        begin_if(b, condition, has_else) matches Ok((plan, after)) ==> defined(after, given) && grows(
            b,
            after,
            given,
        ) && versions_available(after, given, plan.saved) && after.open,
{
    lemma_defined_operand(b, given, condition);
    if let Ok((c, b1)) = lower_operand(b, condition) {
        if let Ok((t, labels1)) = fresh(b1.labels, "then"@) {
            if let Ok((e, labels2)) = fresh(labels1, "else"@) {
                if let Ok((m, labels3)) = fresh(labels2, "merge"@) {
                    let then_name = ssa_name("then"@, t as nat);
                    let merge_name = ssa_name("merge"@, m as nat);
                    let else_name = if has_else {
                        ssa_name("else"@, e as nat)
                    } else {
                        merge_name
                    };
                    let branch = TerminatorView::Branch {
                        condition: c,
                        then_target: then_name,
                        else_target: else_name,
                    };
                    let b2 = BuilderView { labels: labels3, ..b1 };
                    lemma_defined_relabel(b1, given, labels3);
                    lemma_grows_all(b1, b2, given, operand_uses(c));
                    lemma_defined_finish(b2, given, Some(branch));
                    let b3 = b2.finish(Some(branch));
                    lemma_grows_versions(b2, b3, given, b1.bindings);
                    lemma_defined_begin(b3, given, then_name, b1.bindings);
                    let b4 = b3.begin(then_name, b1.bindings);
                    lemma_grows_trans(b, b1, b2, given);
                    lemma_grows_trans(b, b2, b3, given);
                    lemma_grows_trans(b, b3, b4, given);
                }
            }
        }
    }
}

/// New counters for block names change nothing that is defined.
pub proof fn lemma_defined_relabel(b: BuilderView, given: Set<Seq<char>>, labels: Numbers)
    requires
        defined(b, given),
    ensures
        defined(BuilderView { labels, ..b }, given),
        grows(b, BuilderView { labels, ..b }, given),
        grows(BuilderView { labels, ..b }, b, given),
{
    let after = BuilderView { labels, ..b };
    lemma_same_available(b, after, given);
    lemma_grows_versions(b, after, given, b.bindings);
    lemma_grows_all(b, after, given, instructions_uses(b.instructions, b.instructions.len() as int));
    assert forall|k: int| 0 <= k < after.blocks.len() implies all_available(
        after,
        given,
        block_uses(#[trigger] after.blocks[k]),
    ) by {
        lemma_grows_all(b, after, given, block_uses(b.blocks[k]));
    }
}

/// Beginning a loop keeps everything defined, and the names that the phis
/// of the header define are available.
pub proof fn lemma_defined_begin_while(
    b: BuilderView,
    given: Set<Seq<char>>,
    condition: ExprView,
    body: Seq<StatementView>,
)
    requires
        defined(b, given),
        b.open,
    ensures
        begin_while(b, condition, body) matches Ok((plan, after)) ==> defined(after, given) && grows(
            b,
            after,
            given,
        ) && versions_available(after, given, plan.header_bindings) && pending_available(
            after,
            given,
            plan.pending,
        ) && after.open,
{
    if let Ok((h, labels1)) = fresh(b.labels, "loop"@) {
        if let Ok((d, labels2)) = fresh(labels1, "body"@) {
            if let Ok((x, labels3)) = fresh(labels2, "exit"@) {
                let header_name = ssa_name("loop"@, h as nat);
                let body_name = ssa_name("body"@, d as nat);
                let exit_name = ssa_name("exit"@, x as nat);
                let jump = TerminatorView::Jump { target: header_name };
                let b0 = BuilderView { labels: labels3, ..b };
                lemma_defined_relabel(b, given, labels3);
                lemma_defined_finish(b0, given, Some(jump));
                let bf = b0.finish(Some(jump));
                lemma_grows_versions(b0, bf, given, b.bindings);
                lemma_defined_begin(bf, given, header_name, b.bindings);
                let b1 = bf.begin(header_name, b.bindings);
                lemma_grows_trans(b, b0, bf, given);
                lemma_grows_trans(b, bf, b1, given);
                lemma_defined_enter(b1, given, b.bindings, 0, body, b.name, Seq::empty());
                if let Ok((pending, b2)) = enter_phis(b1, b.bindings, 0, body, b.name, Seq::empty()) {
                    lemma_defined_operand(b2, given, condition);
                    if let Ok((c, b3)) = lower_operand(b2, condition) {
                        let branch = TerminatorView::Branch {
                            condition: c,
                            then_target: body_name,
                            else_target: exit_name,
                        };
                        lemma_defined_finish(b3, given, Some(branch));
                        let b4 = b3.finish(Some(branch));
                        lemma_grows_versions(b3, b4, given, b3.bindings);
                        lemma_defined_begin(b4, given, body_name, b3.bindings);
                        let b5 = b4.begin(body_name, b3.bindings);
                        lemma_grows_trans(b, b1, b2, given);
                        lemma_grows_trans(b, b2, b3, given);
                        lemma_grows_trans(b, b3, b4, given);
                        lemma_grows_trans(b, b4, b5, given);
                        lemma_grows_trans(b2, b3, b4, given);
                        lemma_grows_trans(b2, b4, b5, given);
                        assert forall|i: int| 0 <= i < pending.len() implies available(
                            b5,
                            given,
                            ssa_name((#[trigger] pending[i]).variable, pending[i].version as nat),
                        ) by {
                            assert(available(b2, given, ssa_name(pending[i].variable, pending[i].version as nat)));
                        }
                    }
                }
            }
        }
    }
}

/// The names that the closed phis of a header read are available, where
/// those that the header read were, and so are the versions at the end of
/// the body and the names that the phis define.
pub proof fn lemma_close_phis_available(
    b: BuilderView,
    given: Set<Seq<char>>,
    instructions: Seq<InstructionView>,
    pending: Seq<PendingPhi>,
    body: ArmEnd,
    upto: int,
)
    requires
        0 <= upto <= instructions.len(),
        all_available(b, given, instructions_uses(instructions, upto)),
        versions_available(b, given, body.bindings),
        pending_available(b, given, pending),
    ensures
        all_available(b, given, instructions_uses(close_phis(instructions, pending, body), upto)),
    decreases upto,
{
    let closed = close_phis(instructions, pending, body);
    if upto > 0 {
        let before = instructions_uses(instructions, upto - 1);
        let last = instruction_uses(instructions[upto - 1]);
        assert(all_available(b, given, before) && all_available(b, given, last)) by {
            assert forall|k: int| 0 <= k < before.len() implies available(b, given, #[trigger] before[k]) by {
                assert((before + last)[k] == before[k]);
            }
            assert forall|k: int| 0 <= k < last.len() implies available(b, given, #[trigger] last[k]) by {
                assert((before + last)[before.len() + k] == last[k]);
            }
        }
        lemma_close_phis_available(b, given, instructions, pending, body, upto - 1);
        let i = upto - 1;
        if 0 <= i < pending.len() {
            if let InstructionView::Phi { incoming, .. } = instructions[i] {
                let version = version_at(body, pending[i].variable, pending[i].version);
                let operand = version_operand(pending[i].variable, version);
                let more = incoming.push((body.name, operand));
                assert(available(b, given, ssa_name(pending[i].variable, pending[i].version as nat)));
                lemma_version_at_available(b, given, body, pending[i].variable, pending[i].version);
                lemma_incoming_prefix(more, incoming, incoming.len() as int);
                assert(instruction_uses(closed[i]) == incoming_uses(incoming, incoming.len() as int)
                    + operand_uses(operand));
                lemma_available_concat(b, given, last, operand_uses(operand));
            }
        }
        lemma_available_concat(
            b,
            given,
            instructions_uses(closed, upto - 1),
            instruction_uses(closed[upto - 1]),
        );
    } else {
        assert(instructions_uses(closed, upto) =~= Seq::<Seq<char>>::empty());
    }
}

/// Ending a loop keeps everything defined.
pub proof fn lemma_defined_end_while(b: BuilderView, given: Set<Seq<char>>, plan: WhilePlan)
    requires
        defined(b, given),
        versions_available(b, given, plan.header_bindings),
        pending_available(b, given, plan.pending),
    ensures
        defined(end_while(b, plan), given),
        grows(b, end_while(b, plan), given),
{
    let body = b.arm_end();
    lemma_defined_jump(b, given, plan.header_name);
    let b1 = b.jump_if_open(plan.header_name);
    lemma_grows_versions(b, b1, given, body.bindings);
    lemma_grows_versions(b, b1, given, plan.header_bindings);
    assert(pending_available(b1, given, plan.pending)) by {
        assert forall|i: int| 0 <= i < plan.pending.len() implies available(
            b1,
            given,
            ssa_name((#[trigger] plan.pending[i]).variable, plan.pending[i].version as nat),
        ) by {
            assert(available(b, given, ssa_name(plan.pending[i].variable, plan.pending[i].version as nat)));
        }
    }
    let patch = body.open && plan.header_index < b1.blocks.len();
    let header = b1.blocks[plan.header_index as int];
    let closed = BlockView { instructions: close_phis(header.instructions, plan.pending, body), ..header };
    let blocks = if patch {
        b1.blocks.update(plan.header_index as int, closed)
    } else {
        b1.blocks
    };
    let b2 = BuilderView { blocks, ..b1 };
    assert(grows(b1, b2, given) && grows(b2, b1, given)) by {
        assert forall|name: Seq<char>| #[trigger] available(b1, given, name) implies available(
            b2,
            given,
            name,
        ) by {
            if !given.contains(name) && defines(b1.blocks, name) {
                let (k, i) = choose|k: int, i: int|
                    0 <= k < b1.blocks.len() && 0 <= i < b1.blocks[k].instructions.len() && (
                    #[trigger] b1.blocks[k].instructions[i]).result() == name;
                assert(blocks[k].instructions[i].result() == name);
            }
        }
        assert forall|name: Seq<char>| #[trigger] available(b2, given, name) implies available(
            b1,
            given,
            name,
        ) by {
            if !given.contains(name) && defines(blocks, name) {
                let (k, i) = choose|k: int, i: int|
                    0 <= k < blocks.len() && 0 <= i < blocks[k].instructions.len() && (
                    #[trigger] blocks[k].instructions[i]).result() == name;
                assert(b1.blocks[k].instructions[i].result() == name);
            }
        }
    }
    assert(defined(b2, given)) by {
        lemma_grows_versions(b1, b2, given, b1.bindings);
        assert(instructions_uses(b2.instructions, 0) =~= Seq::<Seq<char>>::empty());
        assert forall|k: int| 0 <= k < blocks.len() implies all_available(
            b2,
            given,
            block_uses(#[trigger] blocks[k]),
        ) by {
            if patch && k == plan.header_index {
                let n = header.instructions.len() as int;
                let inner = instructions_uses(header.instructions, n);
                assert(all_available(b1, given, inner)) by {
                    assert forall|j: int| 0 <= j < inner.len() implies available(b1, given, #[trigger] inner[j]) by {
                        assert(block_uses(header)[j] == inner[j]);
                    }
                }
                assert(all_available(b1, given, terminator_uses(header.terminator))) by {
                    let tail = terminator_uses(header.terminator);
                    assert forall|j: int| 0 <= j < tail.len() implies available(b1, given, #[trigger] tail[j]) by {
                        assert(block_uses(header)[inner.len() + j] == tail[j]);
                    }
                }
                lemma_close_phis_available(b1, given, header.instructions, plan.pending, body, n);
                lemma_available_concat(
                    b1,
                    given,
                    instructions_uses(closed.instructions, n),
                    terminator_uses(header.terminator),
                );
                lemma_grows_all(b1, b2, given, block_uses(closed));
            } else {
                assert(blocks[k] == b1.blocks[k]);
                lemma_grows_all(b1, b2, given, block_uses(b1.blocks[k]));
            }
        }
    }
    lemma_grows_versions(b1, b2, given, plan.header_bindings);
    lemma_defined_begin(b2, given, plan.exit_name, plan.header_bindings);
    let b3 = b2.begin(plan.exit_name, plan.header_bindings);
    lemma_grows_trans(b, b1, b2, given);
    lemma_grows_trans(b, b2, b3, given);
}

/// Lowering a statement keeps everything defined.
pub proof fn lemma_defined_statement(b: BuilderView, given: Set<Seq<char>>, s: StatementView)
    requires
        defined(b, given),
    ensures
        lower_statement(b, s) matches Ok(after) ==> defined(after, given) && grows(b, after, given),
    decreases s, 1nat,
{
    if b.open {
        match s {
            StatementView::Let { name, value, .. } => {
                lemma_defined_named(b, given, value, name);
                if let Ok((n, b1)) = lower_named(b, value, name) {
                    lemma_defined_bind(b1, given, name, n);
                    lemma_grows_trans(b, b1, b1.bind(name, n), given);
                }
            },
            StatementView::Assignment { target, value } => {
                lemma_defined_named(b, given, value, target);
                if let Ok((n, b1)) = lower_named(b, value, target) {
                    lemma_defined_bind(b1, given, target, n);
                    lemma_grows_trans(b, b1, b1.bind(target, n), given);
                }
            },
            StatementView::Expression { value } => {
                lemma_defined_operand(b, given, value);
            },
            StatementView::Return { value } => {
                lemma_defined_named(b, given, value, "return"@);
                if let Ok((_, b1)) = lower_named(b, value, "return"@) {
                    lemma_defined_finish(b1, given, None);
                    lemma_grows_trans(b, b1, b1.finish(None), given);
                }
            },
            StatementView::If { condition, then_branch, else_branch } => {
                lemma_defined_if(b, given, condition, then_branch, else_branch);
            },
            StatementView::While { condition, body } => {
                lemma_defined_begin_while(b, given, condition, body);
                if let Ok((plan, b1)) = begin_while(b, condition, body) {
                    lemma_defined_statements(b1, given, body, 0);
                    if let Ok(b2) = lower_statements(b1, body, 0) {
                        lemma_grows_versions(b1, b2, given, plan.header_bindings);
                        assert(pending_available(b2, given, plan.pending)) by {
                            assert forall|i: int| 0 <= i < plan.pending.len() implies available(
                                b2,
                                given,
                                ssa_name((#[trigger] plan.pending[i]).variable, plan.pending[i].version as nat),
                            ) by {
                                assert(available(
                                    b1,
                                    given,
                                    ssa_name(plan.pending[i].variable, plan.pending[i].version as nat),
                                ));
                            }
                        }
                        lemma_defined_end_while(b2, given, plan);
                        lemma_grows_trans(b, b1, b2, given);
                        lemma_grows_trans(b, b2, end_while(b2, plan), given);
                    }
                }
            },
        }
    } else {
        lemma_grows_refl(b, given);
    }
}

/// Lowering a conditional keeps everything defined.
pub proof fn lemma_defined_if(
    b: BuilderView,
    given: Set<Seq<char>>,
    condition: ExprView,
    then_branch: Seq<StatementView>,
    else_branch: Option<Seq<StatementView>>,
)
    requires
        defined(b, given),
        b.open,
    ensures
        lower_statement(b, (StatementView::If { condition, then_branch, else_branch })) matches Ok(
            after,
        ) ==> defined(after, given) && grows(b, after, given),
    decreases (StatementView::If { condition, then_branch, else_branch }), 0nat,
{
    let has_else = else_branch is Some;
    lemma_defined_begin_if(b, given, condition, has_else);
    if let Ok((plan, b1)) = begin_if(b, condition, has_else) {
        lemma_defined_statements(b1, given, then_branch, 0);
        if let Ok(b2) = lower_statements(b1, then_branch, 0) {
            let first = b2.arm_end();
            lemma_defined_jump(b2, given, plan.merge_name);
            let b3 = b2.jump_if_open(plan.merge_name);
            lemma_grows_trans(b1, b2, b3, given);
            lemma_grows_trans(b, b1, b3, given);
            lemma_grows_versions(b1, b3, given, plan.saved);
            lemma_grows_versions(b2, b3, given, first.bindings);
            match else_branch {
                Some(stmts) => {
                    lemma_defined_begin(b3, given, plan.else_name, plan.saved);
                    let b3e = b3.begin(plan.else_name, plan.saved);
                    lemma_defined_statements(b3e, given, stmts, 0);
                    if let Ok(b4) = lower_statements(b3e, stmts, 0) {
                        let second = b4.arm_end();
                        lemma_defined_jump(b4, given, plan.merge_name);
                        let b5 = b4.jump_if_open(plan.merge_name);
                        lemma_grows_trans(b3, b3e, b4, given);
                        lemma_grows_trans(b3, b4, b5, given);
                        lemma_grows_trans(b, b3, b5, given);
                        lemma_grows_versions(b3, b5, given, plan.saved);
                        lemma_grows_versions(b3, b5, given, first.bindings);
                        lemma_grows_versions(b4, b5, given, second.bindings);
                        lemma_defined_end_if(b5, given, plan, first, second);
                        if let Ok(after) = end_if(b5, plan, first, second) {
                            lemma_grows_trans(b, b5, after, given);
                        }
                    }
                },
                None => {
                    let second = ArmEnd { open: true, name: plan.origin, bindings: plan.saved };
                    lemma_defined_end_if(b3, given, plan, first, second);
                    if let Ok(after) = end_if(b3, plan, first, second) {
                        lemma_grows_trans(b, b3, after, given);
                    }
                },
            }
        }
    }
}

/// Lowering statements keeps everything defined.
pub proof fn lemma_defined_statements(b: BuilderView, given: Set<Seq<char>>, stmts: Seq<StatementView>, from: int)
    requires
        defined(b, given),
    ensures
        lower_statements(b, stmts, from) matches Ok(after) ==> defined(after, given) && grows(b, after, given),
    decreases stmts, stmts.len() - from,
{
    if 0 <= from < stmts.len() {
        lemma_defined_statement(b, given, stmts[from]);
        if let Ok(b1) = lower_statement(b, stmts[from]) {
            lemma_defined_statements(b1, given, stmts, from + 1);
            if let Ok(b2) = lower_statements(b1, stmts, from + 1) {
                lemma_grows_trans(b, b1, b2, given);
            }
        }
    } else {
        lemma_grows_refl(b, given);
    }
}

/// The program that a state with everything defined is completed to has
/// a definition for every name that it reads.
pub proof fn lemma_defined_completed(b: BuilderView, given: Set<Seq<char>>)
    requires
        defined(b, given),
    ensures
        has_definitions(completed(b), given),
{
    let done = if b.open {
        b.finish(None)
    } else {
        b
    };
    if b.open {
        assert(terminator_uses(None) =~= Seq::<Seq<char>>::empty());
        lemma_defined_finish(b, given, None);
    }
    let program = completed(b);
    assert forall|k: int, j: int|
        0 <= k < program.blocks.len() && 0 <= j < block_uses(program.blocks[k]).len() implies given.contains(
        #[trigger] block_uses(program.blocks[k])[j],
    ) || defines(program.blocks, block_uses(program.blocks[k])[j]) by {
        assert(block_uses(program.blocks[k]) == block_uses(done.blocks[k]));
        let name = block_uses(done.blocks[k])[j];
        assert(all_available(done, given, block_uses(done.blocks[k])));
        assert(available(done, given, name));
        if !given.contains(name) {
            assert(done.instructions.len() == 0);
            let (k2, i2) = choose|k2: int, i2: int|
                0 <= k2 < done.blocks.len() && 0 <= i2 < done.blocks[k2].instructions.len() && (
                #[trigger] done.blocks[k2].instructions[i2]).result() == name;
            assert(program.blocks[k2].instructions[i2].result() == name);
        }
    }
}

/// Construction starts with nothing read and nothing bound.
pub proof fn lemma_defined_start(given: Set<Seq<char>>)
    ensures
        defined(BuilderView::start(), given),
{
    assert(instructions_uses(BuilderView::start().instructions, 0) =~= Seq::<Seq<char>>::empty());
}

/// Binding the parameters keeps everything defined: their names are given
/// on entry.
pub proof fn lemma_defined_parameters(b: BuilderView, all: Seq<ParameterView>, from: int)
    requires
        defined(b, parameter_names(all)),
    ensures
        defined(bind_parameters(b, all, from), parameter_names(all)),
    decreases all.len() - from,
{
    if 0 <= from < all.len() {
        assert(parameter_names(all).contains(ssa_name(all[from].name, 0)));
        lemma_defined_bind(b, parameter_names(all), all[from].name, 0);
        lemma_defined_parameters(b.bind(all[from].name, 0), all, from + 1);
    }
}

/// Every name that a lowered statement sequence reads is defined by one of
/// its instructions.
pub proof fn lemma_lower_has_definitions(stmts: Seq<StatementView>)
    ensures
        lower_spec(stmts) matches Ok(program) ==> has_definitions(program, Set::empty()),
{
    lemma_defined_start(Set::empty());
    lemma_defined_statements(BuilderView::start(), Set::empty(), stmts, 0);
    if let Ok(b) = lower_statements(BuilderView::start(), stmts, 0) {
        lemma_defined_completed(b, Set::empty());
    }
}

/// Every name that a lowered function body reads is defined by one of its
/// instructions or is a parameter at version zero.
pub proof fn lemma_lower_body_has_definitions(parameters: Seq<ParameterView>, body: Seq<StatementView>)
    ensures
        lower_body_spec(parameters, body) matches Ok(program) ==> has_definitions(
            program,
            parameter_names(parameters),
        ),
{
    let given = parameter_names(parameters);
    lemma_defined_start(given);
    lemma_defined_parameters(BuilderView::start(), parameters, 0);
    let b0 = bind_parameters(BuilderView::start(), parameters, 0);
    lemma_defined_statements(b0, given, body, 0);
    if let Ok(b) = lower_statements(b0, body, 0) {
        lemma_defined_completed(b, given);
    }
}

} // verus!
