use minilang::ast::{BinaryOp, ComparisonOp};
use minilang::ir::{BasicBlock, Instruction, Operand, Program, Terminator};
use minilang::lexer::lex;
use minilang::lower::{lower, lower_function, LowerError};
use minilang::parser::{parse, parse_program};

fn lower_source(source: &str) -> Result<Program, LowerError> {
    lower(parse(lex(source).unwrap()).unwrap())
}

fn v(name: &str) -> Operand {
    Operand::Variable(name.to_string())
}

fn c(value: i64) -> Operand {
    Operand::Constant(value)
}

fn constant(result: &str, value: i64) -> Instruction {
    Instruction::Constant { result: result.to_string(), value }
}

fn binary(result: &str, op: BinaryOp, left: Operand, right: Operand) -> Instruction {
    Instruction::Binary { result: result.to_string(), op, left, right }
}

fn comparison(result: &str, op: ComparisonOp, left: Operand, right: Operand) -> Instruction {
    Instruction::Comparison { result: result.to_string(), op, left, right }
}

fn phi(result: &str, incoming: &[(&str, Operand)]) -> Instruction {
    Instruction::Phi {
        result: result.to_string(),
        incoming: incoming.iter().map(|(b, o)| (b.to_string(), o.clone())).collect(),
    }
}

fn block(name: &str, instructions: Vec<Instruction>, terminator: Option<Terminator>, preds: &[&str]) -> BasicBlock {
    BasicBlock {
        name: name.to_string(),
        instructions,
        terminator,
        predecessors: preds.iter().map(|p| p.to_string()).collect(),
    }
}

fn jump(target: &str) -> Option<Terminator> {
    Some(Terminator::Jump { target: target.to_string() })
}

fn branch(condition: Operand, then_target: &str, else_target: &str) -> Option<Terminator> {
    Some(Terminator::Branch {
        condition,
        then_target: then_target.to_string(),
        else_target: else_target.to_string(),
    })
}

#[test]
fn straight_line_code_is_one_exit_block() {
    let program = lower_source("let x: int = 3; let y: int = 4; let z: int = x * y;").unwrap();
    assert_eq!(program.entry, "entry.1");
    assert_eq!(program.blocks, vec![block(
        "entry.1",
        vec![
            constant("x.1", 3),
            constant("y.1", 4),
            binary("z.1", BinaryOp::Multiply, v("x.1"), v("y.1")),
        ],
        None,
        &[],
    )]);
}

#[test]
fn the_empty_program_is_a_lone_entry_block() {
    let program = lower(vec![]).unwrap();
    assert_eq!(program, Program::new());
    assert_eq!(program.blocks, vec![block("entry.1", vec![], None, &[])]);
}

#[test]
fn literals_are_written_in_place_and_temporaries_are_named() {
    let program = lower_source("let x: int = 1 + 2 * 3 - 4;").unwrap();
    assert_eq!(program.blocks[0].instructions, vec![
        binary("bin.1", BinaryOp::Add, c(1), c(2)),
        binary("bin.2", BinaryOp::Multiply, v("bin.1"), c(3)),
        binary("x.1", BinaryOp::Subtract, v("bin.2"), c(4)),
    ]);
}

#[test]
fn every_assignment_makes_a_new_version() {
    let program = lower_source("let x: int = 1; x = x + 1; x = x + x; let y: int = x;").unwrap();
    assert_eq!(program.blocks[0].instructions, vec![
        constant("x.1", 1),
        binary("x.2", BinaryOp::Add, v("x.1"), c(1)),
        binary("x.3", BinaryOp::Add, v("x.2"), v("x.2")),
        binary("y.1", BinaryOp::Add, v("x.3"), c(0)),
    ]);
}

#[test]
fn booleans_comparisons_and_logic() {
    let program = lower_source("let a: bool = true; let b: bool = a && 1 < 2 || false;").unwrap();
    assert_eq!(program.blocks[0].instructions, vec![
        constant("a.1", 1),
        comparison("rel.1", ComparisonOp::Less, c(1), c(2)),
        binary("bin.1", BinaryOp::And, v("a.1"), v("rel.1")),
        binary("b.1", BinaryOp::Or, v("bin.1"), c(0)),
    ]);
}

#[test]
fn a_variable_named_like_a_temporary_shares_its_counter() {
    let program = lower_source("let bin: int = 1; let y: int = 2 + 3 + bin;").unwrap();
    assert_eq!(program.blocks[0].instructions, vec![
        constant("bin.1", 1),
        binary("bin.2", BinaryOp::Add, c(2), c(3)),
        binary("y.1", BinaryOp::Add, v("bin.2"), v("bin.1")),
    ]);
}

#[test]
fn reading_an_unbound_variable_is_an_error() {
    assert_eq!(
        lower_source("let y: int = x + 1;"),
        Err(LowerError::UndefinedVariable { name: "x".to_string() })
    );
    assert_eq!(lower_source("x = x;"), Err(LowerError::UndefinedVariable { name: "x".to_string() }));
    assert_eq!(
        lower_source("if (1) { let t: int = 1; } t;"),
        Err(LowerError::UndefinedVariable { name: "t".to_string() })
    );
}

#[test]
fn calls_have_no_representation() {
    assert_eq!(
        lower_source("let y: int = 1 + f(2);"),
        Err(LowerError::UnsupportedCall { callee: "f".to_string() })
    );
}

#[test]
fn a_conditional_merges_versions_with_a_phi() {
    let program =
        lower_source("let x: int = 1; let y: int = 2; if (x < y) { x = 5; } else { x = 6; } return x + y;")
            .unwrap();
    assert_eq!(program.blocks, vec![
        block(
            "entry.1",
            vec![
                constant("x.1", 1),
                constant("y.1", 2),
                comparison("rel.1", ComparisonOp::Less, v("x.1"), v("y.1")),
            ],
            branch(v("rel.1"), "then.1", "else.1"),
            &[],
        ),
        block("then.1", vec![constant("x.2", 5)], jump("merge.1"), &["entry.1"]),
        block("else.1", vec![constant("x.3", 6)], jump("merge.1"), &["entry.1"]),
        block(
            "merge.1",
            vec![
                phi("x.4", &[("then.1", v("x.2")), ("else.1", v("x.3"))]),
                binary("return.1", BinaryOp::Add, v("x.4"), v("y.1")),
            ],
            None,
            &["then.1", "else.1"],
        ),
    ]);
}

#[test]
fn a_conditional_without_else_branches_to_the_merge_block() {
    let program = lower_source("let x: int = 1; if (x) { x = 2; } x;").unwrap();
    assert_eq!(program.blocks, vec![
        block("entry.1", vec![constant("x.1", 1)], branch(v("x.1"), "then.1", "merge.1"), &[]),
        block("then.1", vec![constant("x.2", 2)], jump("merge.1"), &["entry.1"]),
        block(
            "merge.1",
            vec![phi("x.3", &[("then.1", v("x.2")), ("entry.1", v("x.1"))])],
            None,
            &["entry.1", "then.1"],
        ),
    ]);
}

#[test]
fn nothing_follows_a_return() {
    let program = lower_source("let x: int = 1; return x; x = 2; y;").unwrap();
    assert_eq!(program.blocks, vec![block(
        "entry.1",
        vec![constant("x.1", 1), binary("return.1", BinaryOp::Add, v("x.1"), c(0))],
        None,
        &[],
    )]);
}

#[test]
fn an_arm_that_returns_does_not_reach_the_merge_block() {
    let program = lower_source(
        "let x: int = 1; if (x < 2) { x = 5; } else { if (x) { return 3; } x = x + 1; } let y: int = x; y;",
    )
    .unwrap();
    assert_eq!(program.blocks, vec![
        block(
            "entry.1",
            vec![constant("x.1", 1), comparison("rel.1", ComparisonOp::Less, v("x.1"), c(2))],
            branch(v("rel.1"), "then.1", "else.1"),
            &[],
        ),
        block("then.1", vec![constant("x.2", 5)], jump("merge.1"), &["entry.1"]),
        block("else.1", vec![], branch(v("x.1"), "then.2", "merge.2"), &["entry.1"]),
        block("then.2", vec![constant("return.1", 3)], None, &["else.1"]),
        block(
            "merge.2",
            vec![binary("x.3", BinaryOp::Add, v("x.1"), c(1))],
            jump("merge.1"),
            &["else.1"],
        ),
        block(
            "merge.1",
            vec![
                phi("x.4", &[("then.1", v("x.2")), ("merge.2", v("x.3"))]),
                binary("y.1", BinaryOp::Add, v("x.4"), c(0)),
            ],
            None,
            &["then.1", "merge.2"],
        ),
    ]);
}

#[test]
fn both_arms_returning_leaves_no_merge_block() {
    let program = lower_source("if (1) { return 1; } else { return 2; } return 3;").unwrap();
    assert_eq!(program.blocks, vec![
        block("entry.1", vec![], branch(c(1), "then.1", "else.1"), &[]),
        block("then.1", vec![constant("return.1", 1)], None, &["entry.1"]),
        block("else.1", vec![constant("return.2", 2)], None, &["entry.1"]),
    ]);
}

#[test]
fn a_loop_header_holds_the_phis_of_what_the_body_assigns() {
    let program = lower_source(
        "let i: int = 0; let s: int = 0; let n: int = 10; while (i < n) { s = s + i; i = i + 1; } return s;",
    )
    .unwrap();
    assert_eq!(program.blocks, vec![
        block(
            "entry.1",
            vec![constant("i.1", 0), constant("s.1", 0), constant("n.1", 10)],
            jump("loop.1"),
            &[],
        ),
        block(
            "loop.1",
            vec![
                phi("i.2", &[("entry.1", v("i.1")), ("body.1", v("i.3"))]),
                phi("s.2", &[("entry.1", v("s.1")), ("body.1", v("s.3"))]),
                comparison("rel.1", ComparisonOp::Less, v("i.2"), v("n.1")),
            ],
            branch(v("rel.1"), "body.1", "exit.1"),
            &["entry.1", "body.1"],
        ),
        block(
            "body.1",
            vec![
                binary("s.3", BinaryOp::Add, v("s.2"), v("i.2")),
                binary("i.3", BinaryOp::Add, v("i.2"), c(1)),
            ],
            jump("loop.1"),
            &["loop.1"],
        ),
        block("exit.1", vec![binary("return.1", BinaryOp::Add, v("s.2"), c(0))], None, &["loop.1"]),
    ]);
}

#[test]
fn a_loop_whose_body_returns_has_no_back_edge() {
    let program = lower_source("let x: int = 1; while (x) { x = 2; return x; } x;").unwrap();
    assert_eq!(program.blocks, vec![
        block("entry.1", vec![constant("x.1", 1)], jump("loop.1"), &[]),
        block(
            "loop.1",
            vec![phi("x.2", &[("entry.1", v("x.1"))])],
            branch(v("x.2"), "body.1", "exit.1"),
            &["entry.1"],
        ),
        block(
            "body.1",
            vec![constant("x.3", 2), binary("return.1", BinaryOp::Add, v("x.3"), c(0))],
            None,
            &["loop.1"],
        ),
        block("exit.1", vec![], None, &["loop.1"]),
    ]);
}

#[test]
fn parameters_are_known_at_version_zero() {
    let functions =
        parse_program(lex("fn add(a: int, b: int) -> int { a = a + b; return a; }").unwrap()).unwrap();
    let program = lower_function(&functions[0]).unwrap();
    assert_eq!(program.blocks, vec![block(
        "entry.1",
        vec![
            binary("a.1", BinaryOp::Add, v("a.0"), v("b.0")),
            binary("return.1", BinaryOp::Add, v("a.1"), c(0)),
        ],
        None,
        &[],
    )]);
}

fn results(program: &Program) -> Vec<String> {
    let mut names = Vec::new();
    for b in &program.blocks {
        for i in &b.instructions {
            names.push(match i {
                Instruction::Constant { result, .. } => result.clone(),
                Instruction::Binary { result, .. } => result.clone(),
                Instruction::Comparison { result, .. } => result.clone(),
                Instruction::Phi { result, .. } => result.clone(),
            });
        }
    }
    names
}

#[test]
fn no_two_instructions_share_a_result_name() {
    let source = "let x: int = 0; let bin: int = 1; let y: int = 1 + 2 + 3; \
                  while (x < 10) { if (x < 5) { x = x + 1; y = y + bin + 1; } else { x = x + 2; } \
                  while (y) { y = y - 1; } } \
                  if (x == y) { return x; } x = y; return x + y + bin;";
    let program = lower_source(source).unwrap();
    let names = results(&program);
    for i in 0..names.len() {
        for j in 0..i {
            assert_ne!(names[i], names[j]);
        }
    }
    let blocks: Vec<&String> = program.blocks.iter().map(|b| &b.name).collect();
    for i in 0..blocks.len() {
        for j in 0..i {
            assert_ne!(blocks[i], blocks[j]);
        }
    }
}

#[test]
fn every_target_is_a_block_and_predecessors_mirror_the_edges() {
    let source = "let x: int = 0; while (x < 10) { if (x < 5) { x = x + 1; } else { return x; } } x;";
    let program = lower_source(source).unwrap();
    for b in &program.blocks {
        let targets: Vec<&String> = match &b.terminator {
            Some(Terminator::Jump { target }) => vec![target],
            Some(Terminator::Branch { then_target, else_target, .. }) => vec![then_target, else_target],
            None => vec![],
        };
        for t in targets {
            let target = program.blocks.iter().find(|c| &c.name == t).expect("target exists");
            assert!(target.predecessors.contains(&b.name));
        }
        for p in &b.predecessors {
            let pred = program.blocks.iter().find(|c| &c.name == p).expect("predecessor exists");
            let leads = match &pred.terminator {
                Some(Terminator::Jump { target }) => target == &b.name,
                Some(Terminator::Branch { then_target, else_target, .. }) => {
                    then_target == &b.name || else_target == &b.name
                },
                None => false,
            };
            assert!(leads);
        }
    }
}

#[test]
fn nested_loops_close_their_own_headers() {
    let program = lower_source(
        "let i: int = 0; while (i < 3) { let j: int = 0; while (j < i) { j = j + 1; } i = i + j; } i;",
    )
    .unwrap();
    assert_eq!(program.blocks, vec![
        block("entry.1", vec![constant("i.1", 0)], jump("loop.1"), &[]),
        block(
            "loop.1",
            vec![
                phi("i.2", &[("entry.1", v("i.1")), ("exit.2", v("i.3"))]),
                comparison("rel.1", ComparisonOp::Less, v("i.2"), c(3)),
            ],
            branch(v("rel.1"), "body.1", "exit.1"),
            &["entry.1", "exit.2"],
        ),
        block("body.1", vec![constant("j.1", 0)], jump("loop.2"), &["loop.1"]),
        block(
            "loop.2",
            vec![
                phi("j.2", &[("body.1", v("j.1")), ("body.2", v("j.3"))]),
                comparison("rel.2", ComparisonOp::Less, v("j.2"), v("i.2")),
            ],
            branch(v("rel.2"), "body.2", "exit.2"),
            &["body.1", "body.2"],
        ),
        block("body.2", vec![binary("j.3", BinaryOp::Add, v("j.2"), c(1))], jump("loop.2"), &["loop.2"]),
        block("exit.2", vec![binary("i.3", BinaryOp::Add, v("i.2"), v("j.2"))], jump("loop.1"), &["loop.2"]),
        block("exit.1", vec![], None, &["loop.1"]),
    ]);
}
