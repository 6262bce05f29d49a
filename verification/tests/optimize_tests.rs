use minilang::ast::{BinaryOp, ComparisonOp};
use minilang::ir::{BasicBlock, Instruction, Operand, Program, Terminator};
use minilang::lexer::lex;
use minilang::lower::lower;
use minilang::optimize::{
    compare, constant_folding, dead_code_elimination, evaluate, optimize, OptimizeError,
};
use minilang::parser::parse;
use minilang::passes::Evaluation;

fn lower_source(source: &str) -> Program {
    lower(parse(lex(source).unwrap()).unwrap()).unwrap()
}

fn v(name: &str) -> Operand {
    Operand::Variable(name.to_string())
}

fn c(value: i64) -> Operand {
    Operand::Constant(value)
}

fn constant(result: &str, value: i64) -> Instruction {
    Instruction::Constant { result: result.to_string(), value }
}

fn binary(result: &str, op: BinaryOp, left: Operand, right: Operand) -> Instruction {
    Instruction::Binary { result: result.to_string(), op, left, right }
}

fn single_block(instructions: Vec<Instruction>) -> Program {
    Program {
        blocks: vec![BasicBlock {
            name: "entry.1".to_string(),
            instructions,
            terminator: None,
            predecessors: vec![],
        }],
        entry: "entry.1".to_string(),
    }
}

#[test]
fn a_chain_of_constants_folds_to_its_last_value() {
    let mut program = lower_source("let x: int = 3; let y: int = 4; let z: int = x * y;");
    assert_eq!(program.blocks[0].instructions.len(), 3);
    assert_eq!(optimize(&mut program), Ok(()));
    assert_eq!(program, single_block(vec![constant("z.1", 12)]));
}

#[test]
fn an_unused_definition_is_removed() {
    let mut program = lower_source("let x: int = 3; let unused: int = 0; let y: int = x + 1;");
    assert_eq!(optimize(&mut program), Ok(()));
    assert_eq!(program, single_block(vec![constant("y.1", 4)]));
    let mut again = program.clone();
    assert!(!dead_code_elimination(&mut again));
    assert_eq!(again, program);
}

#[test]
fn dividing_by_a_constant_zero_is_an_error() {
    let mut program = lower_source("let x: int = 1 / 0;");
    let before = program.clone();
    assert_eq!(
        optimize(&mut program),
        Err(OptimizeError::DivisionByZero { at: binary("x.1", BinaryOp::Divide, c(1), c(0)) })
    );
    assert_eq!(program, before);
}

#[test]
fn dividing_by_a_folded_zero_is_an_error() {
    let mut program = lower_source("let a: int = 2 - 2; let b: int = 7 / a;");
    let before = program.clone();
    assert_eq!(
        optimize(&mut program),
        Err(OptimizeError::DivisionByZero { at: binary("b.1", BinaryOp::Divide, c(7), v("a.1")) })
    );
    assert_eq!(program, before);
}

#[test]
fn a_dead_division_by_zero_is_removed_before_it_is_folded() {
    let mut program = lower_source("let a: int = 1 / 0; let b: int = 2;");
    assert_eq!(optimize(&mut program), Ok(()));
    assert_eq!(program, single_block(vec![constant("b.1", 2)]));
}

#[test]
fn the_whole_example_folds_to_seven() {
    let mut program = lower_source(
        "let x: int = 3; let unused: int = 0; let y: int = x + 1; let z: int = x * y / 2; z = z + 1;",
    );
    assert_eq!(program.blocks[0].instructions, vec![
        constant("x.1", 3),
        constant("unused.1", 0),
        binary("y.1", BinaryOp::Add, v("x.1"), c(1)),
        binary("bin.1", BinaryOp::Multiply, v("x.1"), v("y.1")),
        binary("z.1", BinaryOp::Divide, v("bin.1"), c(2)),
        binary("z.2", BinaryOp::Add, v("z.1"), c(1)),
    ]);
    assert_eq!(optimize(&mut program), Ok(()));
    assert_eq!(program, single_block(vec![constant("z.2", 7)]));
}

#[test]
fn optimizing_twice_is_optimizing_once() {
    for source in [
        "let x: int = 3; let y: int = 4; let z: int = x * y;",
        "let a: int = 2; let b: int = a * 3; let c: int = b + 1;",
        "let i: int = 0; let s: int = 1 + 2; while (i < 10) { s = s + i; i = i + 1; } return s;",
        "let x: int = 1; if (x < 2) { x = 5 * 5; } else { x = 6; } return x;",
    ] {
        let mut once = lower_source(source);
        optimize(&mut once).unwrap();
        let mut twice = once.clone();
        optimize(&mut twice).unwrap();
        assert_eq!(once, twice);
    }
}

#[test]
fn dead_code_elimination_counts_uses_before_it_removes() {
    let mut program = single_block(vec![
        constant("a.1", 1),
        binary("b.1", BinaryOp::Add, v("a.1"), c(1)),
        constant("c.1", 5),
    ]);
    assert!(dead_code_elimination(&mut program));
    assert_eq!(program, single_block(vec![constant("a.1", 1), constant("c.1", 5)]));
    assert!(dead_code_elimination(&mut program));
    assert_eq!(program, single_block(vec![constant("c.1", 5)]));
    assert!(!dead_code_elimination(&mut program));
}

#[test]
fn phi_operands_and_branch_conditions_are_uses() {
    let mut program =
        lower_source("let x: int = 1; let y: int = 2; if (x < y) { y = 3; } else { y = 4; } return y;");
    let before = program.clone();
    assert!(!dead_code_elimination(&mut program));
    assert_eq!(program, before);
}

#[test]
fn folding_replaces_in_place_and_reports_changes() {
    let mut program = single_block(vec![
        constant("a.1", 2),
        binary("b.1", BinaryOp::Multiply, v("a.1"), c(3)),
        binary("c.1", BinaryOp::Add, v("b.1"), c(1)),
        binary("d.1", BinaryOp::Add, v("c.1"), v("p.0")),
    ]);
    assert_eq!(constant_folding(&mut program), Ok(true));
    assert_eq!(program, single_block(vec![
        constant("a.1", 2),
        constant("b.1", 6),
        constant("c.1", 7),
        binary("d.1", BinaryOp::Add, v("c.1"), v("p.0")),
    ]));
    assert_eq!(constant_folding(&mut program), Ok(false));
}

#[test]
fn folding_scans_again_for_definitions_behind_their_uses() {
    let mut program = single_block(vec![
        binary("b.1", BinaryOp::Add, v("a.1"), c(1)),
        binary("a.1", BinaryOp::Add, c(1), c(1)),
    ]);
    assert_eq!(constant_folding(&mut program), Ok(true));
    assert_eq!(program, single_block(vec![constant("b.1", 3), constant("a.1", 2)]));
}

#[test]
fn results_out_of_range_are_left_to_run_time() {
    let mut program = single_block(vec![
        constant("a.1", i64::MAX),
        binary("b.1", BinaryOp::Add, v("a.1"), c(1)),
        binary("c.1", BinaryOp::Divide, c(i64::MIN), c(-1)),
    ]);
    let before = program.clone();
    assert_eq!(constant_folding(&mut program), Ok(false));
    assert_eq!(program, before);
}

#[test]
fn comparisons_and_logic_fold_to_zero_or_one() {
    let mut program = lower_source("let a: bool = 1 < 2; let b: bool = a && false; let c: bool = a || b;");
    assert_eq!(optimize(&mut program), Ok(()));
    assert_eq!(program, single_block(vec![constant("c.1", 1)]));
}

#[test]
fn an_optimized_program_is_left_alone() {
    let mut program = lower_source("let i: int = 0; while (i < 10) { i = i + 1; } return i;");
    optimize(&mut program).unwrap();
    let fixed = program.clone();
    assert_eq!(optimize(&mut program), Ok(()));
    assert_eq!(program, fixed);
    assert!(!dead_code_elimination(&mut program));
    assert_eq!(constant_folding(&mut program), Ok(false));
    assert_eq!(program, fixed);
}

#[test]
fn constants_fold_through_a_branch_but_not_through_a_phi() {
    let mut program = lower_source("let x: int = 1; if (x < 2) { x = 5 * 5; } else { x = 6; } return x;");
    optimize(&mut program).unwrap();
    let phi = Instruction::Phi {
        result: "x.4".to_string(),
        incoming: vec![("then.1".to_string(), v("x.2")), ("else.1".to_string(), v("x.3"))],
    };
    assert_eq!(program.blocks[0].instructions, vec![constant("rel.1", 1)]);
    assert_eq!(
        program.blocks[0].terminator,
        Some(Terminator::Branch {
            condition: v("rel.1"),
            then_target: "then.1".to_string(),
            else_target: "else.1".to_string(),
        })
    );
    assert_eq!(program.blocks[1].instructions, vec![constant("x.2", 25)]);
    assert_eq!(program.blocks[2].instructions, vec![constant("x.3", 6)]);
    assert_eq!(program.blocks[3].instructions, vec![
        phi,
        binary("return.1", BinaryOp::Add, v("x.4"), c(0)),
    ]);
}

#[test]
fn arithmetic_is_exact_and_division_truncates() {
    assert_eq!(evaluate(BinaryOp::Add, 2, 3), Evaluation::Value(5));
    assert_eq!(evaluate(BinaryOp::Subtract, 2, 3), Evaluation::Value(-1));
    assert_eq!(evaluate(BinaryOp::Multiply, -4, 3), Evaluation::Value(-12));
    assert_eq!(evaluate(BinaryOp::Divide, 7, 2), Evaluation::Value(3));
    assert_eq!(evaluate(BinaryOp::Divide, -7, 2), Evaluation::Value(-3));
    assert_eq!(evaluate(BinaryOp::Divide, 7, -2), Evaluation::Value(-3));
    assert_eq!(evaluate(BinaryOp::Divide, 7, 0), Evaluation::DivisionByZero);
    assert_eq!(evaluate(BinaryOp::Divide, i64::MIN, -1), Evaluation::OutOfRange);
    assert_eq!(evaluate(BinaryOp::Add, i64::MAX, 1), Evaluation::OutOfRange);
    assert_eq!(evaluate(BinaryOp::Subtract, i64::MIN, 1), Evaluation::OutOfRange);
    assert_eq!(evaluate(BinaryOp::Multiply, i64::MAX, 2), Evaluation::OutOfRange);
    assert_eq!(evaluate(BinaryOp::And, 2, 0), Evaluation::Value(0));
    assert_eq!(evaluate(BinaryOp::And, 2, -1), Evaluation::Value(1));
    assert_eq!(evaluate(BinaryOp::Or, 0, 0), Evaluation::Value(0));
    assert_eq!(evaluate(BinaryOp::Or, 0, 9), Evaluation::Value(1));
}

#[test]
fn comparisons_give_zero_or_one() {
    assert_eq!(compare(ComparisonOp::Equal, 1, 1), 1);
    assert_eq!(compare(ComparisonOp::NotEqual, 1, 1), 0);
    assert_eq!(compare(ComparisonOp::Less, 1, 2), 1);
    assert_eq!(compare(ComparisonOp::LessEqual, 2, 2), 1);
    assert_eq!(compare(ComparisonOp::Greater, 1, 2), 0);
    assert_eq!(compare(ComparisonOp::GreaterEqual, 1, 2), 0);
}
