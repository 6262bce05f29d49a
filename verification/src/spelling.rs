//! How a syntax tree is written, and the proof that the parser reads what
//! is written: the tokens that a parsed tree is made of are the tokens of
//! the tree as it is written.

use vstd::prelude::*;
use crate::ast::{
    BinaryOp, ComparisonOp, ExprView, FunctionView, ParameterView, StatementView, Type,
};
use crate::grammar::{
    arguments, arithmetic, arithmetic_op, arithmetic_rest, block, block_rest, comparison,
    comparison_op, comparison_rest, condition, conjunction, conjunction_rest, disjunction_rest,
    expression, expression_then_semicolon, function, functions, if_statement, lemma_expression,
    lemma_primary, lemma_statement, let_statement, more_arguments, more_parameters, named_type,
    parameters, parse_program_spec, parse_spec, peek_at, primary, remaining, statement, statements,
    while_statement,
};
use crate::token::TokenView;

verus! {

/// The token that an operator is written as.
pub open spec fn binary_token(op: BinaryOp) -> TokenView {
    match op {
        BinaryOp::Add => TokenView::Plus,
        BinaryOp::Subtract => TokenView::Minus,
        BinaryOp::Multiply => TokenView::Star,
        BinaryOp::Divide => TokenView::Slash,
        BinaryOp::And => TokenView::And,
        BinaryOp::Or => TokenView::Or,
    }
}

/// The token that a comparison operator is written as.
pub open spec fn comparison_token(op: ComparisonOp) -> TokenView {
    match op {
        ComparisonOp::Equal => TokenView::Equal,
        ComparisonOp::NotEqual => TokenView::NotEqual,
        ComparisonOp::Less => TokenView::Less,
        ComparisonOp::LessEqual => TokenView::LessEqual,
        ComparisonOp::Greater => TokenView::Greater,
        ComparisonOp::GreaterEqual => TokenView::GreaterEqual,
    }
}

/// The token that a type is written as.
pub open spec fn type_token(typ: Type) -> TokenView {
    match typ {
        Type::Int => TokenView::TypeInt,
        Type::Bool => TokenView::TypeBool,
        Type::Void => TokenView::TypeVoid,
    }
}

/// The tokens that an expression is written as.
pub open spec fn expr_tokens(e: ExprView) -> Seq<TokenView>
    decreases e, 0nat,
{
    match e {
        ExprView::Integer(value) => seq![TokenView::Integer(value)],
        ExprView::Boolean(value) => seq![
            if value {
                TokenView::True
            } else {
                TokenView::False
            },
        ],
        ExprView::Variable(name) => seq![TokenView::Identifier(name)],
        ExprView::Binary { op, left, right } => expr_tokens(*left) + seq![binary_token(op)] + expr_tokens(
            *right,
        ),
        ExprView::Comparison { op, left, right } => expr_tokens(*left) + seq![comparison_token(op)]
            + expr_tokens(*right),
        ExprView::Call { callee, args } => seq![TokenView::Identifier(callee), TokenView::LeftParen]
            + list_tokens(args, args.len() as int) + seq![TokenView::RightParen],
    }
}

/// The tokens that the first `upto` expressions of a list are written as,
/// with a comma between every two of them.
pub open spec fn list_tokens(es: Seq<ExprView>, upto: int) -> Seq<TokenView>
    decreases es, upto,
{
    if upto <= 0 || upto > es.len() {
        Seq::empty()
    } else if upto == 1 {
        expr_tokens(es[0])
    } else {
        list_tokens(es, upto - 1) + seq![TokenView::Comma] + expr_tokens(es[upto - 1])
    }
}

/// The tokens that a statement is written as.
pub open spec fn statement_tokens(s: StatementView) -> Seq<TokenView>
    decreases s, 0nat,
{
    match s {
        StatementView::Return { value } => seq![TokenView::Return] + expr_tokens(value) + seq![
            TokenView::Semicolon,
        ],
        StatementView::Let { name, typ, value } => seq![
            TokenView::Let,
            TokenView::Identifier(name),
            TokenView::Colon,
            type_token(typ),
            TokenView::Assign,
        ] + expr_tokens(value) + seq![TokenView::Semicolon],
        StatementView::Assignment { target, value } => seq![
            TokenView::Identifier(target),
            TokenView::Assign,
        ] + expr_tokens(value) + seq![TokenView::Semicolon],
        StatementView::Expression { value } => expr_tokens(value) + seq![TokenView::Semicolon],
        StatementView::If { condition, then_branch, else_branch } => seq![
            TokenView::If,
            TokenView::LeftParen,
        ] + expr_tokens(condition) + seq![TokenView::RightParen] + block_tokens(then_branch) + match else_branch {
            Some(stmts) => seq![TokenView::Else] + block_tokens(stmts),
            None => Seq::empty(),
        },
        StatementView::While { condition, body } => seq![TokenView::While, TokenView::LeftParen]
            + expr_tokens(condition) + seq![TokenView::RightParen] + block_tokens(body),
    }
}

/// The tokens that the first `upto` statements of a sequence are written
/// as.
pub open spec fn statements_tokens(stmts: Seq<StatementView>, upto: int) -> Seq<TokenView>
    decreases stmts, upto,
{
    if upto <= 0 || upto > stmts.len() {
        Seq::empty()
    } else {
        statements_tokens(stmts, upto - 1) + statement_tokens(stmts[upto - 1])
    }
}

/// The tokens that a block is written as: its statements in braces.
pub open spec fn block_tokens(stmts: Seq<StatementView>) -> Seq<TokenView>
    decreases stmts, stmts.len() + 1,
{
    seq![TokenView::LeftBrace] + statements_tokens(stmts, stmts.len() as int) + seq![TokenView::RightBrace]
}

/// The tokens that a parameter is written as.
pub open spec fn parameter_tokens(p: ParameterView) -> Seq<TokenView> {
    seq![TokenView::Identifier(p.name), TokenView::Colon, type_token(p.typ)]
}

/// The tokens that the first `upto` parameters of a list are written as,
/// with a comma between every two of them.
pub open spec fn parameters_tokens(ps: Seq<ParameterView>, upto: int) -> Seq<TokenView>
    decreases upto,
{
    if upto <= 0 || upto > ps.len() {
        Seq::empty()
    } else if upto == 1 {
        parameter_tokens(ps[0])
    } else {
        parameters_tokens(ps, upto - 1) + seq![TokenView::Comma] + parameter_tokens(ps[upto - 1])
    }
}

/// The tokens that a function is written as.
pub open spec fn function_tokens(f: FunctionView) -> Seq<TokenView> {
    seq![TokenView::Function, TokenView::Identifier(f.name), TokenView::LeftParen] + parameters_tokens(
        f.parameters,
        f.parameters.len() as int,
    ) + seq![TokenView::RightParen, TokenView::Arrow, type_token(f.return_type)] + block_tokens(f.body)
}

/// The tokens that the first `upto` functions of a sequence are written
/// as.
pub open spec fn functions_tokens(fs: Seq<FunctionView>, upto: int) -> Seq<TokenView>
    decreases upto,
{
    if upto <= 0 || upto > fs.len() {
        Seq::empty()
    } else {
        functions_tokens(fs, upto - 1) + function_tokens(fs[upto - 1])
    }
}

/// The `n` tokens from `pos` on are the tokens in `written`.
pub open spec fn reads(ts: Seq<TokenView>, pos: nat, n: nat, written: Seq<TokenView>) -> bool {
    pos + n <= ts.len() && ts.subrange(pos as int, (pos + n) as int) == written
}

/// A token that is not the end marker lies within the sequence.
pub proof fn lemma_reads_one(ts: Seq<TokenView>, pos: nat)
    requires
        peek_at(ts, pos) != TokenView::Eof,
    ensures
        reads(ts, pos, 1, seq![peek_at(ts, pos)]),
{
    assert(ts.subrange(pos as int, (pos + 1) as int) =~= seq![peek_at(ts, pos)]);
}

/// What is read in two steps is read in one.
pub proof fn lemma_reads_join(ts: Seq<TokenView>, pos: nat, n: nat, a: Seq<TokenView>, m: nat, b: Seq<TokenView>)
    requires
        reads(ts, pos, n, a),
        reads(ts, pos + n, m, b),
    ensures
        reads(ts, pos, n + m, a + b),
{
    assert(ts.subrange(pos as int, (pos + n + m) as int) =~= ts.subrange(pos as int, (pos + n) as int)
        + ts.subrange((pos + n) as int, (pos + n + m) as int));
}

/// Nothing is read in no step.
pub proof fn lemma_reads_nothing(ts: Seq<TokenView>, pos: nat)
    requires
        pos <= ts.len(),
    ensures
        reads(ts, pos, 0, Seq::empty()),
{
    assert(ts.subrange(pos as int, pos as int) =~= Seq::<TokenView>::empty());
}

/// The operator that a token spells is written as that token.
pub proof fn lemma_operator_tokens(t: TokenView)
    ensures
        arithmetic_op(t) matches Some(op) ==> binary_token(op) == t,
        comparison_op(t) matches Some(op) ==> comparison_token(op) == t,
        named_type(t) matches Some(typ) ==> type_token(typ) == t,
        arithmetic_op(t) is Some || comparison_op(t) is Some || named_type(t) is Some ==> t
            != TokenView::Eof,
{
}

/// A primary expression is made of the tokens that it is written as.
pub proof fn lemma_primary_reads(ts: Seq<TokenView>, pos: nat)
    ensures
        primary(ts, pos) matches Ok((e, n)) ==> reads(ts, pos, n, expr_tokens(e)),
    decreases remaining(ts, pos), 0nat,
{
    lemma_primary(ts, pos);
    if let Ok((e, n)) = primary(ts, pos) {
        lemma_reads_one(ts, pos);
        if let ExprView::Call { callee, args } = e {
            lemma_reads_one(ts, pos + 1);
            lemma_arguments_reads(ts, pos + 2);
            let m = arguments(ts, pos + 2)->Ok_0.1;
            lemma_reads_join(
                ts,
                pos,
                1,
                seq![TokenView::Identifier(callee)],
                1,
                seq![TokenView::LeftParen],
            );
            lemma_reads_join(
                ts,
                pos,
                2,
                seq![TokenView::Identifier(callee)] + seq![TokenView::LeftParen],
                m,
                list_tokens(args, args.len() as int) + seq![TokenView::RightParen],
            );
            assert(seq![TokenView::Identifier(callee)] + seq![TokenView::LeftParen] + (list_tokens(
                args,
                args.len() as int,
            ) + seq![TokenView::RightParen]) =~= expr_tokens(e));
        }
    }
}

/// The arguments of a call are made of the tokens that they are written
/// as, up to and including the closing parenthesis.
pub proof fn lemma_arguments_reads(ts: Seq<TokenView>, pos: nat)
    ensures
        arguments(ts, pos) matches Ok((args, n)) ==> reads(
            ts,
            pos,
            n,
            list_tokens(args, args.len() as int) + seq![TokenView::RightParen],
        ),
    decreases remaining(ts, pos), 10nat,
{
    if peek_at(ts, pos) == TokenView::RightParen {
        lemma_reads_one(ts, pos);
        assert(Seq::<TokenView>::empty() + seq![TokenView::RightParen] =~= seq![TokenView::RightParen]);
    } else {
        if pos <= ts.len() {
            lemma_reads_nothing(ts, pos);
        }
        lemma_more_arguments_reads(ts, pos, Seq::empty(), 0);
    }
}

/// The arguments behind those that are read are made of the tokens that
/// they are written as.
pub proof fn lemma_more_arguments_reads(ts: Seq<TokenView>, pos: nat, before: Seq<ExprView>, taken: nat)
    requires
        taken <= pos,
        before.len() == 0 ==> taken == 0,
        before.len() > 0 ==> reads(
            ts,
            (pos - taken) as nat,
            taken,
            list_tokens(before, before.len() as int) + seq![TokenView::Comma],
        ),
    ensures
        more_arguments(ts, pos, before, taken) matches Ok((args, n)) ==> reads(
            ts,
            (pos - taken) as nat,
            n,
            list_tokens(args, args.len() as int) + seq![TokenView::RightParen],
        ),
    decreases remaining(ts, pos), 9nat,
{
    lemma_expression_reads(ts, pos);
    if let Ok((arg, n)) = expression(ts, pos) {
        let all = before.push(arg);
        let start = (pos - taken) as nat;
        // the arguments so far, the new one included
        assert(reads(ts, start, taken + n, list_tokens(all, all.len() as int))) by {
            lemma_list_prefix(all, before, before.len() as int);
            if before.len() == 0 {
                assert(list_tokens(all, 1) == expr_tokens(arg));
            } else {
                lemma_reads_join(
                    ts,
                    start,
                    taken,
                    list_tokens(before, before.len() as int) + seq![TokenView::Comma],
                    n,
                    expr_tokens(arg),
                );
            }
        }
        if peek_at(ts, pos + n) == TokenView::Comma || peek_at(ts, pos + n) == TokenView::RightParen {
            lemma_reads_one(ts, pos + n);
            lemma_reads_join(
                ts,
                start,
                taken + n,
                list_tokens(all, all.len() as int),
                1,
                seq![peek_at(ts, pos + n)],
            );
            if peek_at(ts, pos + n) == TokenView::Comma {
                lemma_more_arguments_reads(ts, pos + n + 1, all, taken + n + 1);
            }
        }
    }
}

/// The tokens of the first expressions of a list depend on those
/// expressions alone.
pub proof fn lemma_list_prefix(a: Seq<ExprView>, b: Seq<ExprView>, upto: int)
    requires
        0 <= upto <= a.len(),
        upto <= b.len(),
        forall|i: int| 0 <= i < upto ==> a[i] == b[i],
    ensures
        list_tokens(a, upto) == list_tokens(b, upto),
    decreases upto,
{
    if upto > 1 {
        lemma_list_prefix(a, b, upto - 1);
    }
}

/// An arithmetic expression is made of the tokens that it is written as.
pub proof fn lemma_arithmetic_reads(ts: Seq<TokenView>, pos: nat)
    ensures
        arithmetic(ts, pos) matches Ok((e, n)) ==> reads(ts, pos, n, expr_tokens(e)),
    decreases remaining(ts, pos), 2nat,
{
    lemma_primary_reads(ts, pos);
    if let Ok((left, n)) = primary(ts, pos) {
        lemma_arithmetic_rest_reads(ts, pos + n, left, n);
    }
}

/// What continues an arithmetic expression is made of the tokens that it
/// is written as.
pub proof fn lemma_arithmetic_rest_reads(ts: Seq<TokenView>, pos: nat, left: ExprView, taken: nat)
    requires
        taken <= pos,
        reads(ts, (pos - taken) as nat, taken, expr_tokens(left)),
    ensures
        arithmetic_rest(ts, pos, left, taken) matches Ok((e, n)) ==> reads(
            ts,
            (pos - taken) as nat,
            n,
            expr_tokens(e),
        ),
    decreases remaining(ts, pos), 1nat,
{
    lemma_operator_tokens(peek_at(ts, pos));
    if let Some(op) = arithmetic_op(peek_at(ts, pos)) {
        lemma_reads_one(ts, pos);
        lemma_primary_reads(ts, pos + 1);
        if let Ok((right, n)) = primary(ts, pos + 1) {
            let start = (pos - taken) as nat;
            lemma_reads_join(ts, start, taken, expr_tokens(left), 1, seq![binary_token(op)]);
            lemma_reads_join(
                ts,
                start,
                taken + 1,
                expr_tokens(left) + seq![binary_token(op)],
                n,
                expr_tokens(right),
            );
            lemma_arithmetic_rest_reads(
                ts,
                pos + 1 + n,
                ExprView::Binary { op, left: Box::new(left), right: Box::new(right) },
                taken + 1 + n,
            );
        }
    }
}

/// A comparison is made of the tokens that it is written as.
pub proof fn lemma_comparison_reads(ts: Seq<TokenView>, pos: nat)
    ensures
        comparison(ts, pos) matches Ok((e, n)) ==> reads(ts, pos, n, expr_tokens(e)),
    decreases remaining(ts, pos), 4nat,
{
    lemma_arithmetic_reads(ts, pos);
    if let Ok((left, n)) = arithmetic(ts, pos) {
        lemma_comparison_rest_reads(ts, pos + n, left, n);
    }
}

/// What continues a comparison is made of the tokens that it is written
/// as.
pub proof fn lemma_comparison_rest_reads(ts: Seq<TokenView>, pos: nat, left: ExprView, taken: nat)
    requires
        taken <= pos,
        reads(ts, (pos - taken) as nat, taken, expr_tokens(left)),
    ensures
        comparison_rest(ts, pos, left, taken) matches Ok((e, n)) ==> reads(
            ts,
            (pos - taken) as nat,
            n,
            expr_tokens(e),
        ),
    decreases remaining(ts, pos), 3nat,
{
    lemma_operator_tokens(peek_at(ts, pos));
    if let Some(op) = comparison_op(peek_at(ts, pos)) {
        lemma_reads_one(ts, pos);
        lemma_arithmetic_reads(ts, pos + 1);
        if let Ok((right, n)) = arithmetic(ts, pos + 1) {
            let start = (pos - taken) as nat;
            lemma_reads_join(ts, start, taken, expr_tokens(left), 1, seq![comparison_token(op)]);
            lemma_reads_join(
                ts,
                start,
                taken + 1,
                expr_tokens(left) + seq![comparison_token(op)],
                n,
                expr_tokens(right),
            );
            lemma_comparison_rest_reads(
                ts,
                pos + 1 + n,
                ExprView::Comparison { op, left: Box::new(left), right: Box::new(right) },
                taken + 1 + n,
            );
        }
    }
}

/// A conjunction is made of the tokens that it is written as.
pub proof fn lemma_conjunction_reads(ts: Seq<TokenView>, pos: nat)
    ensures
        conjunction(ts, pos) matches Ok((e, n)) ==> reads(ts, pos, n, expr_tokens(e)),
    decreases remaining(ts, pos), 6nat,
{
    lemma_comparison_reads(ts, pos);
    if let Ok((left, n)) = comparison(ts, pos) {
        lemma_conjunction_rest_reads(ts, pos + n, left, n);
    }
}

/// What continues a conjunction is made of the tokens that it is written
/// as.
pub proof fn lemma_conjunction_rest_reads(ts: Seq<TokenView>, pos: nat, left: ExprView, taken: nat)
    requires
        taken <= pos,
        reads(ts, (pos - taken) as nat, taken, expr_tokens(left)),
    ensures
        conjunction_rest(ts, pos, left, taken) matches Ok((e, n)) ==> reads(
            ts,
            (pos - taken) as nat,
            n,
            expr_tokens(e),
        ),
    decreases remaining(ts, pos), 5nat,
{
    if peek_at(ts, pos) == TokenView::And {
        lemma_reads_one(ts, pos);
        lemma_comparison_reads(ts, pos + 1);
        if let Ok((right, n)) = comparison(ts, pos + 1) {
            let start = (pos - taken) as nat;
            lemma_reads_join(ts, start, taken, expr_tokens(left), 1, seq![TokenView::And]);
            lemma_reads_join(
                ts,
                start,
                taken + 1,
                expr_tokens(left) + seq![TokenView::And],
                n,
                expr_tokens(right),
            );
            lemma_conjunction_rest_reads(
                ts,
                pos + 1 + n,
                ExprView::Binary { op: BinaryOp::And, left: Box::new(left), right: Box::new(right) },
                taken + 1 + n,
            );
        }
    }
}

/// An expression is made of the tokens that it is written as.
pub proof fn lemma_expression_reads(ts: Seq<TokenView>, pos: nat)
    ensures
        expression(ts, pos) matches Ok((e, n)) ==> reads(ts, pos, n, expr_tokens(e)),
    decreases remaining(ts, pos), 8nat,
{
    lemma_expression(ts, pos);
    lemma_conjunction_reads(ts, pos);
    if let Ok((left, n)) = conjunction(ts, pos) {
        lemma_disjunction_rest_reads(ts, pos + n, left, n);
    }
}

/// What continues a disjunction is made of the tokens that it is written
/// as.
pub proof fn lemma_disjunction_rest_reads(ts: Seq<TokenView>, pos: nat, left: ExprView, taken: nat)
    requires
        taken <= pos,
        reads(ts, (pos - taken) as nat, taken, expr_tokens(left)),
    ensures
        disjunction_rest(ts, pos, left, taken) matches Ok((e, n)) ==> reads(
            ts,
            (pos - taken) as nat,
            n,
            expr_tokens(e),
        ),
    decreases remaining(ts, pos), 7nat,
{
    if peek_at(ts, pos) == TokenView::Or {
        lemma_reads_one(ts, pos);
        lemma_conjunction_reads(ts, pos + 1);
        if let Ok((right, n)) = conjunction(ts, pos + 1) {
            let start = (pos - taken) as nat;
            lemma_reads_join(ts, start, taken, expr_tokens(left), 1, seq![TokenView::Or]);
            lemma_reads_join(
                ts,
                start,
                taken + 1,
                expr_tokens(left) + seq![TokenView::Or],
                n,
                expr_tokens(right),
            );
            lemma_disjunction_rest_reads(
                ts,
                pos + 1 + n,
                ExprView::Binary { op: BinaryOp::Or, left: Box::new(left), right: Box::new(right) },
                taken + 1 + n,
            );
        }
    }
}

/// An expression and the semicolon behind it are made of the tokens that
/// they are written as.
pub proof fn lemma_expression_then_semicolon_reads(ts: Seq<TokenView>, pos: nat, expected: Seq<char>)
    ensures
        expression_then_semicolon(ts, pos, expected) matches Ok((e, n)) ==> reads(
            ts,
            pos,
            n,
            expr_tokens(e) + seq![TokenView::Semicolon],
        ),
{
    lemma_expression_reads(ts, pos);
    if let Ok((value, n)) = expression(ts, pos) {
        if peek_at(ts, pos + n) == TokenView::Semicolon {
            lemma_reads_one(ts, pos + n);
            lemma_reads_join(ts, pos, n, expr_tokens(value), 1, seq![TokenView::Semicolon]);
        }
    }
}

/// A condition in parentheses is made of the tokens that it is written
/// as.
pub proof fn lemma_condition_reads(ts: Seq<TokenView>, pos: nat, expected: Seq<char>)
    ensures
        condition(ts, pos, expected) matches Ok((e, n)) ==> reads(
            ts,
            pos,
            n,
            seq![TokenView::LeftParen] + expr_tokens(e) + seq![TokenView::RightParen],
        ),
{
    if peek_at(ts, pos) == TokenView::LeftParen {
        lemma_reads_one(ts, pos);
        lemma_expression_reads(ts, pos + 1);
        if let Ok((value, n)) = expression(ts, pos + 1) {
            if peek_at(ts, pos + 1 + n) == TokenView::RightParen {
                lemma_reads_one(ts, pos + 1 + n);
                lemma_reads_join(ts, pos, 1, seq![TokenView::LeftParen], n, expr_tokens(value));
                lemma_reads_join(
                    ts,
                    pos,
                    1 + n,
                    seq![TokenView::LeftParen] + expr_tokens(value),
                    1,
                    seq![TokenView::RightParen],
                );
            }
        }
    }
}

/// A `let` statement is made of the tokens that it is written as.
pub proof fn lemma_let_reads(ts: Seq<TokenView>, pos: nat)
    requires
        peek_at(ts, pos) == TokenView::Let,
    ensures
        let_statement(ts, pos) matches Ok((s, n)) ==> reads(ts, pos, n, statement_tokens(s)),
{
    if let Ok((s, n)) = let_statement(ts, pos) {
        let name = s->Let_name;
        let typ = s->Let_typ;
        let value = s->Let_value;
        lemma_operator_tokens(peek_at(ts, pos + 3));
        lemma_reads_one(ts, pos);
        lemma_reads_one(ts, pos + 1);
        lemma_reads_one(ts, pos + 2);
        lemma_reads_one(ts, pos + 3);
        lemma_reads_one(ts, pos + 4);
        lemma_expression_then_semicolon_reads(ts, pos + 5, "';' after expression"@);
        lemma_reads_join(ts, pos, 1, seq![TokenView::Let], 1, seq![TokenView::Identifier(name)]);
        lemma_reads_join(
            ts,
            pos,
            2,
            seq![TokenView::Let] + seq![TokenView::Identifier(name)],
            1,
            seq![TokenView::Colon],
        );
        lemma_reads_join(
            ts,
            pos,
            3,
            seq![TokenView::Let] + seq![TokenView::Identifier(name)] + seq![TokenView::Colon],
            1,
            seq![type_token(typ)],
        );
        lemma_reads_join(
            ts,
            pos,
            4,
            seq![TokenView::Let] + seq![TokenView::Identifier(name)] + seq![TokenView::Colon] + seq![
                type_token(typ),
            ],
            1,
            seq![TokenView::Assign],
        );
        let head = seq![
            TokenView::Let,
            TokenView::Identifier(name),
            TokenView::Colon,
            type_token(typ),
            TokenView::Assign,
        ];
        assert(seq![TokenView::Let] + seq![TokenView::Identifier(name)] + seq![TokenView::Colon] + seq![
            type_token(typ),
        ] + seq![TokenView::Assign] =~= head);
        lemma_reads_join(
            ts,
            pos,
            5,
            head,
            (n - 5) as nat,
            expr_tokens(value) + seq![TokenView::Semicolon],
        );
        assert(head + (expr_tokens(value) + seq![TokenView::Semicolon]) =~= statement_tokens(s));
    }
}

/// A statement is made of the tokens that it is written as.
pub proof fn lemma_statement_reads(ts: Seq<TokenView>, pos: nat)
    ensures
        statement(ts, pos) matches Ok((s, n)) ==> reads(ts, pos, n, statement_tokens(s)),
    decreases remaining(ts, pos), 1nat,
{
    lemma_statement(ts, pos);
    if let Ok((s, n)) = statement(ts, pos) {
        match peek_at(ts, pos) {
            TokenView::Return => {
                lemma_reads_one(ts, pos);
                lemma_expression_then_semicolon_reads(ts, pos + 1, "';' after return value"@);
                let value = s->Return_value;
                lemma_reads_join(
                    ts,
                    pos,
                    1,
                    seq![TokenView::Return],
                    (n - 1) as nat,
                    expr_tokens(value) + seq![TokenView::Semicolon],
                );
                assert(seq![TokenView::Return] + (expr_tokens(value) + seq![TokenView::Semicolon])
                    =~= statement_tokens(s));
            },
            TokenView::Let => {
                lemma_let_reads(ts, pos);
            },
            TokenView::If => {
                lemma_if_reads(ts, pos);
            },
            TokenView::While => {
                lemma_while_reads(ts, pos);
            },
            TokenView::Identifier(name) => {
                if peek_at(ts, pos + 1) == TokenView::Assign {
                    lemma_reads_one(ts, pos);
                    lemma_reads_one(ts, pos + 1);
                    lemma_expression_then_semicolon_reads(ts, pos + 2, "';' after assignment"@);
                    let value = s->Assignment_value;
                    lemma_reads_join(
                        ts,
                        pos,
                        1,
                        seq![TokenView::Identifier(name)],
                        1,
                        seq![TokenView::Assign],
                    );
                    lemma_reads_join(
                        ts,
                        pos,
                        2,
                        seq![TokenView::Identifier(name)] + seq![TokenView::Assign],
                        (n - 2) as nat,
                        expr_tokens(value) + seq![TokenView::Semicolon],
                    );
                    assert(seq![TokenView::Identifier(name)] + seq![TokenView::Assign] + (expr_tokens(
                        value,
                    ) + seq![TokenView::Semicolon]) =~= statement_tokens(s));
                } else {
                    lemma_expression_then_semicolon_reads(ts, pos, "';' after expression"@);
                }
            },
            _ => {
                lemma_expression_then_semicolon_reads(ts, pos, "';' after expression"@);
            },
        }
    }
}

/// A conditional is made of the tokens that it is written as.
pub proof fn lemma_if_reads(ts: Seq<TokenView>, pos: nat)
    ensures
        if_statement(ts, pos) matches Ok((s, n)) ==> reads(ts, pos, n, statement_tokens(s)),
    decreases remaining(ts, pos), 0nat,
{
    if let Ok((s, total)) = if_statement(ts, pos) {
        let cond = s->If_condition;
        let then_branch = s->If_then_branch;
        lemma_reads_one(ts, pos);
        lemma_condition_reads(ts, pos + 1, "'(' after 'if'"@);
        let n = condition(ts, pos + 1, "'(' after 'if'"@)->Ok_0.1;
        lemma_block_reads(ts, pos + 1 + n);
        let m = block(ts, pos + 1 + n)->Ok_0.1;
        let head = seq![TokenView::If, TokenView::LeftParen] + expr_tokens(cond) + seq![
            TokenView::RightParen,
        ];
        lemma_reads_join(
            ts,
            pos,
            1,
            seq![TokenView::If],
            n,
            seq![TokenView::LeftParen] + expr_tokens(cond) + seq![TokenView::RightParen],
        );
        assert(seq![TokenView::If] + (seq![TokenView::LeftParen] + expr_tokens(cond) + seq![
            TokenView::RightParen,
        ]) =~= head);
        lemma_reads_join(ts, pos, 1 + n, head, m, block_tokens(then_branch));
        if peek_at(ts, pos + 1 + n + m) == TokenView::Else {
            let else_branch = s->If_else_branch->Some_0;
            lemma_reads_one(ts, pos + 1 + n + m);
            lemma_block_reads(ts, pos + 1 + n + m + 1);
            let k = block(ts, pos + 1 + n + m + 1)->Ok_0.1;
            lemma_reads_join(
                ts,
                pos + 1 + n + m,
                1,
                seq![TokenView::Else],
                k,
                block_tokens(else_branch),
            );
            lemma_reads_join(
                ts,
                pos,
                1 + n + m,
                head + block_tokens(then_branch),
                1 + k,
                seq![TokenView::Else] + block_tokens(else_branch),
            );
        } else {
            assert(head + block_tokens(then_branch) + Seq::<TokenView>::empty() =~= head + block_tokens(
                then_branch,
            ));
        }
    }
}

/// A loop is made of the tokens that it is written as.
pub proof fn lemma_while_reads(ts: Seq<TokenView>, pos: nat)
    ensures
        while_statement(ts, pos) matches Ok((s, n)) ==> reads(ts, pos, n, statement_tokens(s)),
    decreases remaining(ts, pos), 0nat,
{
    if let Ok((s, total)) = while_statement(ts, pos) {
        let cond = s->While_condition;
        let body = s->While_body;
        lemma_reads_one(ts, pos);
        lemma_condition_reads(ts, pos + 1, "'(' after 'while'"@);
        let n = condition(ts, pos + 1, "'(' after 'while'"@)->Ok_0.1;
        lemma_block_reads(ts, pos + 1 + n);
        let m = block(ts, pos + 1 + n)->Ok_0.1;
        let head = seq![TokenView::While, TokenView::LeftParen] + expr_tokens(cond) + seq![
            TokenView::RightParen,
        ];
        lemma_reads_join(
            ts,
            pos,
            1,
            seq![TokenView::While],
            n,
            seq![TokenView::LeftParen] + expr_tokens(cond) + seq![TokenView::RightParen],
        );
        assert(seq![TokenView::While] + (seq![TokenView::LeftParen] + expr_tokens(cond) + seq![
            TokenView::RightParen,
        ]) =~= head);
        lemma_reads_join(ts, pos, 1 + n, head, m, block_tokens(body));
    }
}

/// A block is made of the tokens that it is written as.
pub proof fn lemma_block_reads(ts: Seq<TokenView>, pos: nat)
    ensures
        block(ts, pos) matches Ok((stmts, n)) ==> reads(ts, pos, n, block_tokens(stmts)),
    decreases remaining(ts, pos), 3nat,
{
    if peek_at(ts, pos) == TokenView::LeftBrace {
        lemma_reads_one(ts, pos);
        assert(seq![TokenView::LeftBrace] + statements_tokens(Seq::<StatementView>::empty(), 0) =~= seq![
            TokenView::LeftBrace,
        ]);
        lemma_block_rest_reads(ts, pos + 1, Seq::empty(), 1);
    }
}

/// The tokens of the first statements of a sequence depend on those
/// statements alone.
pub proof fn lemma_statements_prefix(a: Seq<StatementView>, b: Seq<StatementView>, upto: int)
    requires
        0 <= upto <= a.len(),
        upto <= b.len(),
        forall|i: int| 0 <= i < upto ==> a[i] == b[i],
    ensures
        statements_tokens(a, upto) == statements_tokens(b, upto),
    decreases upto,
{
    if upto > 0 {
        lemma_statements_prefix(a, b, upto - 1);
    }
}

/// The statements of a block behind those that are read are made of the
/// tokens that they are written as.
pub proof fn lemma_block_rest_reads(ts: Seq<TokenView>, pos: nat, before: Seq<StatementView>, taken: nat)
    requires
        taken <= pos,
        reads(
            ts,
            (pos - taken) as nat,
            taken,
            seq![TokenView::LeftBrace] + statements_tokens(before, before.len() as int),
        ),
    ensures
        block_rest(ts, pos, before, taken) matches Ok((stmts, n)) ==> reads(
            ts,
            (pos - taken) as nat,
            n,
            block_tokens(stmts),
        ),
    decreases remaining(ts, pos), 2nat,
{
    let start = (pos - taken) as nat;
    let written = seq![TokenView::LeftBrace] + statements_tokens(before, before.len() as int);
    if peek_at(ts, pos) == TokenView::RightBrace {
        lemma_reads_one(ts, pos);
        lemma_reads_join(ts, start, taken, written, 1, seq![TokenView::RightBrace]);
    } else if peek_at(ts, pos) != TokenView::Eof {
        lemma_statement_reads(ts, pos);
        if let Ok((stmt, n)) = statement(ts, pos) {
            if n > 0 {
                let more = before.push(stmt);
                lemma_statements_prefix(more, before, before.len() as int);
                lemma_reads_join(ts, start, taken, written, n, statement_tokens(stmt));
                assert(written + statement_tokens(stmt) =~= seq![TokenView::LeftBrace] + statements_tokens(
                    more,
                    more.len() as int,
                ));
                lemma_block_rest_reads(ts, pos + n, more, taken + n);
            }
        }
    }
}

/// The statements behind those that are read are made of the tokens that
/// they are written as, and the end marker follows them. The number of
/// tokens that are read is returned.
pub proof fn lemma_statements_reads(ts: Seq<TokenView>, pos: nat, before: Seq<StatementView>) -> (n: nat)
    requires
        reads(ts, 0, pos, statements_tokens(before, before.len() as int)),
    ensures
        statements(ts, pos, before) matches Ok(stmts) ==> reads(
            ts,
            0,
            n,
            statements_tokens(stmts, stmts.len() as int),
        ) && peek_at(ts, n) == TokenView::Eof,
    decreases remaining(ts, pos),
{
    if peek_at(ts, pos) == TokenView::Eof {
        pos
    } else {
        lemma_statement_reads(ts, pos);
        if let Ok((stmt, n)) = statement(ts, pos) {
            if n > 0 {
                let more = before.push(stmt);
                lemma_statements_prefix(more, before, before.len() as int);
                lemma_reads_join(
                    ts,
                    0,
                    pos,
                    statements_tokens(before, before.len() as int),
                    n,
                    statement_tokens(stmt),
                );
                lemma_statements_reads(ts, pos + n, more)
            } else {
                0
            }
        } else {
            0
        }
    }
}

/// The tokens of the first parameters of a list depend on those
/// parameters alone.
pub proof fn lemma_parameters_prefix(a: Seq<ParameterView>, b: Seq<ParameterView>, upto: int)
    requires
        0 <= upto <= a.len(),
        upto <= b.len(),
        forall|i: int| 0 <= i < upto ==> a[i] == b[i],
    ensures
        parameters_tokens(a, upto) == parameters_tokens(b, upto),
    decreases upto,
{
    if upto > 1 {
        lemma_parameters_prefix(a, b, upto - 1);
    }
}

/// The parameters behind those that are read are made of the tokens that
/// they are written as.
pub proof fn lemma_more_parameters_reads(ts: Seq<TokenView>, pos: nat, before: Seq<ParameterView>, taken: nat)
    requires
        taken <= pos,
        before.len() == 0 ==> taken == 0,
        before.len() > 0 ==> reads(
            ts,
            (pos - taken) as nat,
            taken,
            parameters_tokens(before, before.len() as int) + seq![TokenView::Comma],
        ),
    ensures
        more_parameters(ts, pos, before, taken) matches Ok((ps, n)) ==> reads(
            ts,
            (pos - taken) as nat,
            n,
            parameters_tokens(ps, ps.len() as int) + seq![TokenView::RightParen],
        ),
    decreases remaining(ts, pos),
{
    let start = (pos - taken) as nat;
    if let TokenView::Identifier(name) = peek_at(ts, pos) {
        if peek_at(ts, pos + 1) == TokenView::Colon {
            lemma_operator_tokens(peek_at(ts, pos + 2));
            if let Some(typ) = named_type(peek_at(ts, pos + 2)) {
                let p = ParameterView { name, typ };
                let all = before.push(p);
                lemma_reads_one(ts, pos);
                lemma_reads_one(ts, pos + 1);
                lemma_reads_one(ts, pos + 2);
                lemma_reads_join(
                    ts,
                    pos,
                    1,
                    seq![TokenView::Identifier(name)],
                    1,
                    seq![TokenView::Colon],
                );
                lemma_reads_join(
                    ts,
                    pos,
                    2,
                    seq![TokenView::Identifier(name)] + seq![TokenView::Colon],
                    1,
                    seq![type_token(typ)],
                );
                assert(seq![TokenView::Identifier(name)] + seq![TokenView::Colon] + seq![type_token(typ)]
                    =~= parameter_tokens(p));
                assert(reads(ts, start, taken + 3, parameters_tokens(all, all.len() as int))) by {
                    lemma_parameters_prefix(all, before, before.len() as int);
                    if before.len() == 0 {
                        assert(parameters_tokens(all, 1) == parameter_tokens(p));
                    } else {
                        lemma_reads_join(
                            ts,
                            start,
                            taken,
                            parameters_tokens(before, before.len() as int) + seq![TokenView::Comma],
                            3,
                            parameter_tokens(p),
                        );
                    }
                }
                if peek_at(ts, pos + 3) == TokenView::Comma || peek_at(ts, pos + 3)
                    == TokenView::RightParen {
                    lemma_reads_one(ts, pos + 3);
                    lemma_reads_join(
                        ts,
                        start,
                        taken + 3,
                        parameters_tokens(all, all.len() as int),
                        1,
                        seq![peek_at(ts, pos + 3)],
                    );
                    if peek_at(ts, pos + 3) == TokenView::Comma {
                        lemma_more_parameters_reads(ts, pos + 4, all, taken + 4);
                    }
                }
            }
        }
    }
}

/// The parameters of a function are made of the tokens that they are
/// written as, up to and including the closing parenthesis.
pub proof fn lemma_parameters_reads(ts: Seq<TokenView>, pos: nat)
    ensures
        parameters(ts, pos) matches Ok((ps, n)) ==> reads(
            ts,
            pos,
            n,
            parameters_tokens(ps, ps.len() as int) + seq![TokenView::RightParen],
        ),
{
    if peek_at(ts, pos) == TokenView::RightParen {
        lemma_reads_one(ts, pos);
        assert(Seq::<TokenView>::empty() + seq![TokenView::RightParen] =~= seq![TokenView::RightParen]);
    } else {
        lemma_more_parameters_reads(ts, pos, Seq::empty(), 0);
    }
}

/// A function is made of the tokens that it is written as.
pub proof fn lemma_function_reads(ts: Seq<TokenView>, pos: nat)
    ensures
        function(ts, pos) matches Ok((f, n)) ==> reads(ts, pos, n, function_tokens(f)),
{
    if let Ok((f, total)) = function(ts, pos) {
        lemma_reads_one(ts, pos);
        lemma_reads_one(ts, pos + 1);
        lemma_reads_one(ts, pos + 2);
        lemma_parameters_reads(ts, pos + 3);
        let n = parameters(ts, pos + 3)->Ok_0.1;
        lemma_operator_tokens(peek_at(ts, pos + 4 + n));
        lemma_reads_one(ts, pos + 3 + n);
        lemma_reads_one(ts, pos + 4 + n);
        lemma_block_reads(ts, pos + 5 + n);
        let m = block(ts, pos + 5 + n)->Ok_0.1;
        let ps = parameters_tokens(f.parameters, f.parameters.len() as int);
        lemma_reads_join(ts, pos, 1, seq![TokenView::Function], 1, seq![TokenView::Identifier(f.name)]);
        lemma_reads_join(
            ts,
            pos,
            2,
            seq![TokenView::Function] + seq![TokenView::Identifier(f.name)],
            1,
            seq![TokenView::LeftParen],
        );
        let head = seq![TokenView::Function, TokenView::Identifier(f.name), TokenView::LeftParen];
        assert(seq![TokenView::Function] + seq![TokenView::Identifier(f.name)] + seq![
            TokenView::LeftParen,
        ] =~= head);
        lemma_reads_join(ts, pos, 3, head, n, ps + seq![TokenView::RightParen]);
        lemma_reads_join(
            ts,
            pos,
            3 + n,
            head + (ps + seq![TokenView::RightParen]),
            1,
            seq![TokenView::Arrow],
        );
        lemma_reads_join(
            ts,
            pos,
            4 + n,
            head + (ps + seq![TokenView::RightParen]) + seq![TokenView::Arrow],
            1,
            seq![type_token(f.return_type)],
        );
        let front = head + ps + seq![TokenView::RightParen, TokenView::Arrow, type_token(f.return_type)];
        assert(head + (ps + seq![TokenView::RightParen]) + seq![TokenView::Arrow] + seq![
            type_token(f.return_type),
        ] =~= front);
        lemma_reads_join(ts, pos, 5 + n, front, m, block_tokens(f.body));
    }
}

/// The tokens of the first functions of a sequence depend on those
/// functions alone.
pub proof fn lemma_functions_prefix(a: Seq<FunctionView>, b: Seq<FunctionView>, upto: int)
    requires
        0 <= upto <= a.len(),
        upto <= b.len(),
        forall|i: int| 0 <= i < upto ==> a[i] == b[i],
    ensures
        functions_tokens(a, upto) == functions_tokens(b, upto),
    decreases upto,
{
    if upto > 0 {
        lemma_functions_prefix(a, b, upto - 1);
    }
}

/// The functions behind those that are read are made of the tokens that
/// they are written as, and the end marker follows them. The number of
/// tokens that are read is returned.
pub proof fn lemma_functions_reads(ts: Seq<TokenView>, pos: nat, before: Seq<FunctionView>) -> (n: nat)
    requires
        reads(ts, 0, pos, functions_tokens(before, before.len() as int)),
    ensures
        functions(ts, pos, before) matches Ok(fs) ==> reads(ts, 0, n, functions_tokens(fs, fs.len() as int))
            && peek_at(ts, n) == TokenView::Eof,
    decreases remaining(ts, pos),
{
    if peek_at(ts, pos) == TokenView::Eof {
        pos
    } else {
        lemma_function_reads(ts, pos);
        if let Ok((f, n)) = function(ts, pos) {
            if n > 0 {
                let more = before.push(f);
                lemma_functions_prefix(more, before, before.len() as int);
                lemma_reads_join(
                    ts,
                    0,
                    pos,
                    functions_tokens(before, before.len() as int),
                    n,
                    function_tokens(f),
                );
                lemma_functions_reads(ts, pos + n, more)
            } else {
                0
            }
        } else {
            0
        }
    }
}

/// The parser reads what is written: the statements that a token sequence
/// is parsed to, written out, are the first tokens of the sequence, and
/// the end of the sequence or an end marker follows them.
pub proof fn lemma_parse_reads(ts: Seq<TokenView>) -> (n: nat)
    ensures
        parse_spec(ts) matches Ok(stmts) ==> reads(ts, 0, n, statements_tokens(stmts, stmts.len() as int))
            && peek_at(ts, n) == TokenView::Eof,
{
    lemma_reads_nothing(ts, 0);
    lemma_statements_reads(ts, 0, Seq::empty())
}

/// The parser reads what is written: the functions that a token sequence
/// is parsed to, written out, are the first tokens of the sequence, and
/// the end of the sequence or an end marker follows them.
pub proof fn lemma_parse_program_reads(ts: Seq<TokenView>) -> (n: nat)
    ensures
        parse_program_spec(ts) matches Ok(fs) ==> reads(ts, 0, n, functions_tokens(fs, fs.len() as int))
            && peek_at(ts, n) == TokenView::Eof,
{
    lemma_reads_nothing(ts, 0);
    lemma_functions_reads(ts, 0, Seq::empty())
}

} // verus!
