use std::collections::HashMap;

use minilang::ast::{BinaryOp, ComparisonOp};
use minilang::ir::{Instruction, Operand, Program, Terminator};
use minilang::lexer::lex;
use minilang::lower::{lower, lower_function};
use minilang::optimize::optimize;
use minilang::parser::{parse, parse_program};

fn value(env: &HashMap<String, i64>, operand: &Operand) -> Option<i64> {
    match operand {
        Operand::Constant(v) => Some(*v),
        Operand::Variable(name) => env.get(name).copied(),
    }
}

fn truth(b: bool) -> i64 {
    if b {
        1
    } else {
        0
    }
}

fn compute(env: &HashMap<String, i64>, instruction: &Instruction, from: Option<&String>) -> Option<i64> {
    match instruction {
        Instruction::Constant { value, .. } => Some(*value),
        Instruction::Binary { op, left, right, .. } => {
            let l = value(env, left)?;
            let r = value(env, right)?;
            match op {
                BinaryOp::Add => l.checked_add(r),
                BinaryOp::Subtract => l.checked_sub(r),
                BinaryOp::Multiply => l.checked_mul(r),
                BinaryOp::Divide => l.checked_div(r),
                BinaryOp::And => Some(truth(l != 0 && r != 0)),
                BinaryOp::Or => Some(truth(l != 0 || r != 0)),
            }
        },
        Instruction::Comparison { op, left, right, .. } => {
            let l = value(env, left)?;
            let r = value(env, right)?;
            Some(truth(match op {
                ComparisonOp::Equal => l == r,
                ComparisonOp::NotEqual => l != r,
                ComparisonOp::Less => l < r,
                ComparisonOp::LessEqual => l <= r,
                ComparisonOp::Greater => l > r,
                ComparisonOp::GreaterEqual => l >= r,
            }))
        },
        Instruction::Phi { incoming, .. } => {
            let from = from?;
            let (_, operand) = incoming.iter().find(|(block, _)| block == from)?;
            value(env, operand)
        },
    }
}

fn result_of(instruction: &Instruction) -> &String {
    match instruction {
        Instruction::Constant { result, .. } => result,
        Instruction::Binary { result, .. } => result,
        Instruction::Comparison { result, .. } => result,
        Instruction::Phi { result, .. } => result,
    }
}

/// Runs a program for at most `fuel` blocks. `Some(r)` is a run that
/// leaves the program with the result `r`.
fn run(program: &Program, inputs: &[(&str, i64)], mut fuel: usize) -> Option<Option<i64>> {
    let mut env: HashMap<String, i64> = inputs.iter().map(|(n, v)| (n.to_string(), *v)).collect();
    let mut index = program.blocks.iter().position(|b| b.name == program.entry)?;
    let mut from: Option<String> = None;
    while fuel > 0 {
        fuel -= 1;
        let block = &program.blocks[index];
        for instruction in &block.instructions {
            let v = compute(&env, instruction, from.as_ref())?;
            env.insert(result_of(instruction).clone(), v);
        }
        let target = match &block.terminator {
            None => {
                return Some(block.instructions.last().map(|i| env[result_of(i)]));
            },
            Some(Terminator::Jump { target }) => target,
            Some(Terminator::Branch { condition, then_target, else_target }) => {
                if value(&env, condition)? != 0 {
                    then_target
                } else {
                    else_target
                }
            },
        };
        from = Some(block.name.clone());
        index = program.blocks.iter().position(|b| &b.name == target)?;
    }
    None
}

fn lowered(source: &str) -> Program {
    lower(parse(lex(source).unwrap()).unwrap()).unwrap()
}

#[test]
fn straight_line_programs_compute_their_last_value() {
    let program = lowered("let x: int = 3; let y: int = 4; let z: int = x * y;");
    assert_eq!(run(&program, &[], 10), Some(Some(12)));
    let program = lowered("let x: int = 3; let y: int = x + 1; let z: int = x * y / 2; z = z + 1;");
    assert_eq!(run(&program, &[], 10), Some(Some(7)));
    assert_eq!(run(&lowered(""), &[], 10), Some(None));
}

#[test]
fn loops_and_branches_compute_what_the_source_says() {
    let sum = "let i: int = 0; let s: int = 0; while (i < 10) { i = i + 1; s = s + i; } return s;";
    assert_eq!(run(&lowered(sum), &[], 100), Some(Some(55)));
    assert_eq!(run(&lowered(sum), &[], 5), None);
    let max = "let a: int = 7; let b: int = 9; let m: int = a; if (a < b) { m = b; } return m;";
    assert_eq!(run(&lowered(max), &[], 100), Some(Some(9)));
    let nested = "let i: int = 0; let t: int = 0; \
                  while (i < 4) { let j: int = 0; while (j < i) { t = t + 1; j = j + 1; } i = i + 1; } \
                  return t;";
    assert_eq!(run(&lowered(nested), &[], 100), Some(Some(6)));
    let early = "let i: int = 0; while (true) { if (i == 5) { return i * 2; } i = i + 1; } return 0;";
    assert_eq!(run(&lowered(early), &[], 100), Some(Some(10)));
}

#[test]
fn functions_compute_on_their_parameters() {
    let source = "fn gcd(a: int, b: int) -> int { \
                      while (b != 0) { let q: int = a / b; let t: int = q * b; let r: int = a - t; a = b; b = r; } \
                      return a; }";
    let functions = parse_program(lex(source).unwrap()).unwrap();
    let program = lower_function(&functions[0]).unwrap();
    assert_eq!(run(&program, &[("a.0", 48), ("b.0", 18)], 100), Some(Some(6)));
    assert_eq!(run(&program, &[("a.0", 17), ("b.0", 5)], 100), Some(Some(1)));
    assert_eq!(run(&program, &[("a.0", 5)], 100), None);
}

#[test]
fn optimization_keeps_the_result_of_every_run() {
    let sources = [
        "let x: int = 3; let y: int = 4; let z: int = x * y;",
        "let a: int = 2; let b: int = a * 3; let unused: int = b - b; let c: int = b + 1;",
        "let i: int = 0; let s: int = 2 * 3; while (i < 10) { i = i + 1; let d: int = 1 + 1; s = s + i * d; } return s;",
        "let a: int = 7; let b: int = 9; let m: int = a; if (a < b && true) { m = b; } else { m = 1 / 1; } return m;",
        "let i: int = 0; while (true) { if (i == 5) { return i * 2; } i = i + 1; } return 0;",
        "let x: int = 5; if (x < 3) { return 1; } x = x + 10 / 2; x;",
    ];
    for source in sources {
        let program = lowered(source);
        let mut optimized = program.clone();
        optimize(&mut optimized).unwrap();
        let expected = run(&program, &[], 1000);
        assert!(expected.is_some());
        assert_eq!(run(&optimized, &[], 1000), expected);
    }
}

#[test]
fn optimization_keeps_the_result_for_every_input() {
    let source = "fn f(a: int, b: int) -> int { \
                      let k: int = 2 * 3 + 1; let dead: int = a * a; let s: int = 0; \
                      while (a < b) { let t: int = a * k; s = s + t; a = a + 1; } \
                      if (s > 100) { return s - 100; } return s; }";
    let functions = parse_program(lex(source).unwrap()).unwrap();
    let program = lower_function(&functions[0]).unwrap();
    let mut optimized = program.clone();
    optimize(&mut optimized).unwrap();
    assert_ne!(program, optimized);
    for a in -3..6 {
        for b in -3..6 {
            let inputs = [("a.0", a), ("b.0", b)];
            let expected = run(&program, &inputs, 1000);
            assert!(expected.is_some());
            assert_eq!(run(&optimized, &inputs, 1000), expected);
        }
    }
}
