//! The grammar of the language, as functions from a token sequence and a
//! position to the tree that begins there.
//!
//! Each function returns the value it recognises together with the number
//! of tokens that it took, or the first error. Positions at or behind the
//! end of the sequence hold the end-of-input token.

use vstd::prelude::*;
use crate::ast::{
    BinaryOp, ComparisonOp, ExprView, FunctionView, ParameterView, StatementView, Type,
};
use crate::lexer::TokenView;

verus! {

/// A token was found where the grammar asks for something else.
pub struct ParseErrorView {
    /// What the grammar asks for at this point.
    pub expected: Seq<char>,
    /// The token that stands there instead.
    pub found: TokenView,
    /// The index of that token.
    pub position: nat,
}

/// The token at `pos`; the end-of-input token where the sequence has ended.
pub open spec fn peek_at(ts: Seq<TokenView>, pos: nat) -> TokenView {
    if pos < ts.len() {
        ts[pos as int]
    } else {
        TokenView::Eof
    }
}

/// The number of tokens from `pos` to the end of the sequence.
pub open spec fn remaining(ts: Seq<TokenView>, pos: nat) -> nat {
    if pos < ts.len() {
        (ts.len() - pos) as nat
    } else {
        0
    }
}

/// The error for the token at `pos`, where `expected` is asked for.
pub open spec fn unexpected(ts: Seq<TokenView>, pos: nat, expected: Seq<char>) -> ParseErrorView {
    ParseErrorView { expected, found: peek_at(ts, pos), position: pos }
}

/// The operator of the arithmetic tier that a token spells.
pub open spec fn arithmetic_op(t: TokenView) -> Option<BinaryOp> {
    match t {
        TokenView::Plus => Some(BinaryOp::Add),
        TokenView::Minus => Some(BinaryOp::Subtract),
        TokenView::Star => Some(BinaryOp::Multiply),
        TokenView::Slash => Some(BinaryOp::Divide),
        _ => None,
    }
}

/// The comparison operator that a token spells.
pub open spec fn comparison_op(t: TokenView) -> Option<ComparisonOp> {
    match t {
        TokenView::Equal => Some(ComparisonOp::Equal),
        TokenView::NotEqual => Some(ComparisonOp::NotEqual),
        TokenView::Less => Some(ComparisonOp::Less),
        TokenView::LessEqual => Some(ComparisonOp::LessEqual),
        TokenView::Greater => Some(ComparisonOp::Greater),
        TokenView::GreaterEqual => Some(ComparisonOp::GreaterEqual),
        _ => None,
    }
}

/// The type that a token names.
pub open spec fn named_type(t: TokenView) -> Option<Type> {
    match t {
        TokenView::TypeInt => Some(Type::Int),
        TokenView::TypeBool => Some(Type::Bool),
        TokenView::TypeVoid => Some(Type::Void),
        _ => None,
    }
}

/// primary := INTEGER | `true` | `false` | NAME | NAME `(` arguments
#[verifier::opaque]
pub open spec fn primary(ts: Seq<TokenView>, pos: nat) -> Result<(ExprView, nat), ParseErrorView>
    decreases remaining(ts, pos), 0nat,
{
    match peek_at(ts, pos) {
        TokenView::Integer(value) => Ok((ExprView::Integer(value), 1)),
        TokenView::True => Ok((ExprView::Boolean(true), 1)),
        TokenView::False => Ok((ExprView::Boolean(false), 1)),
        TokenView::Identifier(name) => {
            if peek_at(ts, pos + 1) == TokenView::LeftParen {
                match arguments(ts, pos + 2) {
                    Ok((args, n)) => Ok((ExprView::Call { callee: name, args }, n + 2)),
                    Err(e) => Err(e),
                }
            } else {
                Ok((ExprView::Variable(name), 1))
            }
        },
        _ => Err(unexpected(ts, pos, "expression"@)),
    }
}

/// arguments := `)` | expression (`,` expression)* `)`
pub open spec fn arguments(ts: Seq<TokenView>, pos: nat) -> Result<(Seq<ExprView>, nat), ParseErrorView>
    decreases remaining(ts, pos), 10nat,
{
    if peek_at(ts, pos) == TokenView::RightParen {
        Ok((Seq::empty(), 1))
    } else {
        more_arguments(ts, pos, Seq::empty(), 0)
    }
}

/// The arguments from `pos` on, behind those in `before`, up to and
/// including the closing parenthesis; `taken` tokens lie between the
/// opening parenthesis and `pos`.
pub open spec fn more_arguments(ts: Seq<TokenView>, pos: nat, before: Seq<ExprView>, taken: nat) -> Result<
    (Seq<ExprView>, nat),
    ParseErrorView,
>
    decreases remaining(ts, pos), 9nat,
{
    match expression(ts, pos) {
        Ok((arg, n)) => {
            if peek_at(ts, pos + n) == TokenView::Comma {
                more_arguments(ts, pos + n + 1, before.push(arg), taken + n + 1)
            } else if peek_at(ts, pos + n) == TokenView::RightParen {
                Ok((before.push(arg), taken + n + 1))
            } else {
                Err(unexpected(ts, pos + n, "',' or ')' after argument"@))
            }
        },
        Err(e) => Err(e),
    }
}

/// arithmetic := primary ((`+` | `-` | `*` | `/`) primary)*
///
/// The four operators share one tier and group to the left.
pub open spec fn arithmetic(ts: Seq<TokenView>, pos: nat) -> Result<(ExprView, nat), ParseErrorView>
    decreases remaining(ts, pos), 2nat,
{
    match primary(ts, pos) {
        Ok((left, n)) => arithmetic_rest(ts, pos + n, left, n),
        Err(e) => Err(e),
    }
}

/// Continues an arithmetic expression whose operand so far is `left`, made
/// of the `taken` tokens before `pos`.
pub open spec fn arithmetic_rest(ts: Seq<TokenView>, pos: nat, left: ExprView, taken: nat) -> Result<
    (ExprView, nat),
    ParseErrorView,
>
    decreases remaining(ts, pos), 1nat,
{
    match arithmetic_op(peek_at(ts, pos)) {
        Some(op) => match primary(ts, pos + 1) {
            Ok((right, n)) => arithmetic_rest(
                ts,
                pos + 1 + n,
                ExprView::Binary { op, left: Box::new(left), right: Box::new(right) },
                taken + 1 + n,
            ),
            Err(e) => Err(e),
        },
        None => Ok((left, taken)),
    }
}

/// comparison := arithmetic ((`==` | `!=` | `<` | `<=` | `>` | `>=`) arithmetic)*
///
/// A repeated comparison groups to the left: `a < b < c` is `(a < b) < c`.
pub open spec fn comparison(ts: Seq<TokenView>, pos: nat) -> Result<(ExprView, nat), ParseErrorView>
    decreases remaining(ts, pos), 4nat,
{
    match arithmetic(ts, pos) {
        Ok((left, n)) => comparison_rest(ts, pos + n, left, n),
        Err(e) => Err(e),
    }
}

/// Continues a comparison whose operand so far is `left`, made of the
/// `taken` tokens before `pos`.
pub open spec fn comparison_rest(ts: Seq<TokenView>, pos: nat, left: ExprView, taken: nat) -> Result<
    (ExprView, nat),
    ParseErrorView,
>
    decreases remaining(ts, pos), 3nat,
{
    match comparison_op(peek_at(ts, pos)) {
        Some(op) => match arithmetic(ts, pos + 1) {
            Ok((right, n)) => comparison_rest(
                ts,
                pos + 1 + n,
                ExprView::Comparison { op, left: Box::new(left), right: Box::new(right) },
                taken + 1 + n,
            ),
            Err(e) => Err(e),
        },
        None => Ok((left, taken)),
    }
}

/// conjunction := comparison (`&&` comparison)*
pub open spec fn conjunction(ts: Seq<TokenView>, pos: nat) -> Result<(ExprView, nat), ParseErrorView>
    decreases remaining(ts, pos), 6nat,
{
    match comparison(ts, pos) {
        Ok((left, n)) => conjunction_rest(ts, pos + n, left, n),
        Err(e) => Err(e),
    }
}

/// Continues a conjunction whose operand so far is `left`, made of the
/// `taken` tokens before `pos`.
pub open spec fn conjunction_rest(ts: Seq<TokenView>, pos: nat, left: ExprView, taken: nat) -> Result<
    (ExprView, nat),
    ParseErrorView,
>
    decreases remaining(ts, pos), 5nat,
{
    if peek_at(ts, pos) == TokenView::And {
        match comparison(ts, pos + 1) {
            Ok((right, n)) => conjunction_rest(
                ts,
                pos + 1 + n,
                ExprView::Binary { op: BinaryOp::And, left: Box::new(left), right: Box::new(right) },
                taken + 1 + n,
            ),
            Err(e) => Err(e),
        }
    } else {
        Ok((left, taken))
    }
}

/// expression := conjunction (`||` conjunction)*
#[verifier::opaque]
pub open spec fn expression(ts: Seq<TokenView>, pos: nat) -> Result<(ExprView, nat), ParseErrorView>
    decreases remaining(ts, pos), 8nat,
{
    match conjunction(ts, pos) {
        Ok((left, n)) => disjunction_rest(ts, pos + n, left, n),
        Err(e) => Err(e),
    }
}

/// Continues a disjunction whose operand so far is `left`, made of the
/// `taken` tokens before `pos`.
pub open spec fn disjunction_rest(ts: Seq<TokenView>, pos: nat, left: ExprView, taken: nat) -> Result<
    (ExprView, nat),
    ParseErrorView,
>
    decreases remaining(ts, pos), 7nat,
{
    if peek_at(ts, pos) == TokenView::Or {
        match conjunction(ts, pos + 1) {
            Ok((right, n)) => disjunction_rest(
                ts,
                pos + 1 + n,
                ExprView::Binary { op: BinaryOp::Or, left: Box::new(left), right: Box::new(right) },
                taken + 1 + n,
            ),
            Err(e) => Err(e),
        }
    } else {
        Ok((left, taken))
    }
}

/// `expression` `;` from `pos` on, where a missing semicolon is reported as
/// `expected`.
pub open spec fn expression_then_semicolon(ts: Seq<TokenView>, pos: nat, expected: Seq<char>) -> Result<
    (ExprView, nat),
    ParseErrorView,
> {
    match expression(ts, pos) {
        Ok((value, n)) => {
            if peek_at(ts, pos + n) == TokenView::Semicolon {
                Ok((value, n + 1))
            } else {
                Err(unexpected(ts, pos + n, expected))
            }
        },
        Err(e) => Err(e),
    }
}

/// `let` NAME `:` type `=` expression `;`, with `let` at `pos`.
pub open spec fn let_statement(ts: Seq<TokenView>, pos: nat) -> Result<(StatementView, nat), ParseErrorView> {
    match peek_at(ts, pos + 1) {
        TokenView::Identifier(name) => {
            if peek_at(ts, pos + 2) != TokenView::Colon {
                Err(unexpected(ts, pos + 2, "':' after variable name"@))
            } else {
                match named_type(peek_at(ts, pos + 3)) {
                    None => Err(unexpected(ts, pos + 3, "type"@)),
                    Some(typ) => {
                        if peek_at(ts, pos + 4) != TokenView::Assign {
                            Err(unexpected(ts, pos + 4, "'=' after type"@))
                        } else {
                            match expression_then_semicolon(ts, pos + 5, "';' after expression"@) {
                                Ok((value, n)) => Ok((StatementView::Let { name, typ, value }, n + 5)),
                                Err(e) => Err(e),
                            }
                        }
                    },
                }
            }
        },
        _ => Err(unexpected(ts, pos + 1, "variable name"@)),
    }
}

/// `(` expression `)`, with the opening parenthesis asked for at `pos` and
/// reported missing as `expected`.
pub open spec fn condition(ts: Seq<TokenView>, pos: nat, expected: Seq<char>) -> Result<
    (ExprView, nat),
    ParseErrorView,
> {
    if peek_at(ts, pos) != TokenView::LeftParen {
        Err(unexpected(ts, pos, expected))
    } else {
        match expression(ts, pos + 1) {
            Ok((value, n)) => {
                if peek_at(ts, pos + 1 + n) == TokenView::RightParen {
                    Ok((value, n + 2))
                } else {
                    Err(unexpected(ts, pos + 1 + n, "')' after condition"@))
                }
            },
            Err(e) => Err(e),
        }
    }
}

/// statement := `return` expression `;`
///            | `let` NAME `:` type `=` expression `;`
///            | NAME `=` expression `;`
///            | `if` `(` expression `)` block (`else` block)?
///            | `while` `(` expression `)` block
///            | expression `;`
///
/// A name followed by `=` begins an assignment; any other name begins an
/// expression.
#[verifier::opaque]
pub open spec fn statement(ts: Seq<TokenView>, pos: nat) -> Result<(StatementView, nat), ParseErrorView>
    decreases remaining(ts, pos), 1nat,
{
    match peek_at(ts, pos) {
        TokenView::Return => match expression_then_semicolon(ts, pos + 1, "';' after return value"@) {
            Ok((value, n)) => Ok((StatementView::Return { value }, n + 1)),
            Err(e) => Err(e),
        },
        TokenView::Let => let_statement(ts, pos),
        TokenView::If => if_statement(ts, pos),
        TokenView::While => while_statement(ts, pos),
        TokenView::Identifier(name) => {
            if peek_at(ts, pos + 1) == TokenView::Assign {
                match expression_then_semicolon(ts, pos + 2, "';' after assignment"@) {
                    Ok((value, n)) => Ok((StatementView::Assignment { target: name, value }, n + 2)),
                    Err(e) => Err(e),
                }
            } else {
                match expression_then_semicolon(ts, pos, "';' after expression"@) {
                    Ok((value, n)) => Ok((StatementView::Expression { value }, n)),
                    Err(e) => Err(e),
                }
            }
        },
        TokenView::Integer(_) | TokenView::True | TokenView::False => {
            match expression_then_semicolon(ts, pos, "';' after expression"@) {
                Ok((value, n)) => Ok((StatementView::Expression { value }, n)),
                Err(e) => Err(e),
            }
        },
        _ => Err(unexpected(ts, pos, "statement"@)),
    }
}

/// `if` `(` expression `)` block (`else` block)?, with `if` at `pos`.
pub open spec fn if_statement(ts: Seq<TokenView>, pos: nat) -> Result<(StatementView, nat), ParseErrorView>
    decreases remaining(ts, pos), 0nat,
{
    if peek_at(ts, pos) != TokenView::If {
        Err(unexpected(ts, pos, "'if'"@))
    } else {
        match condition(ts, pos + 1, "'(' after 'if'"@) {
            Ok((cond, n)) => match block(ts, pos + 1 + n) {
                Ok((then_branch, m)) => {
                    if peek_at(ts, pos + 1 + n + m) == TokenView::Else {
                        match block(ts, pos + 1 + n + m + 1) {
                            Ok((else_branch, k)) => Ok(
                                (
                                    StatementView::If {
                                        condition: cond,
                                        then_branch,
                                        else_branch: Some(else_branch),
                                    },
                                    1 + n + m + 1 + k,
                                ),
                            ),
                            Err(e) => Err(e),
                        }
                    } else {
                        Ok(
                            (
                                StatementView::If { condition: cond, then_branch, else_branch: None },
                                1 + n + m,
                            ),
                        )
                    }
                },
                Err(e) => Err(e),
            },
            Err(e) => Err(e),
        }
    }
}

/// `while` `(` expression `)` block, with `while` at `pos`.
pub open spec fn while_statement(ts: Seq<TokenView>, pos: nat) -> Result<(StatementView, nat), ParseErrorView>
    decreases remaining(ts, pos), 0nat,
{
    if peek_at(ts, pos) != TokenView::While {
        Err(unexpected(ts, pos, "'while'"@))
    } else {
        match condition(ts, pos + 1, "'(' after 'while'"@) {
            Ok((cond, n)) => match block(ts, pos + 1 + n) {
                Ok((body, m)) => Ok((StatementView::While { condition: cond, body }, 1 + n + m)),
                Err(e) => Err(e),
            },
            Err(e) => Err(e),
        }
    }
}

/// block := `{` statement* `}`
pub open spec fn block(ts: Seq<TokenView>, pos: nat) -> Result<(Seq<StatementView>, nat), ParseErrorView>
    decreases remaining(ts, pos), 3nat,
{
    if peek_at(ts, pos) != TokenView::LeftBrace {
        Err(unexpected(ts, pos, "'{' before block"@))
    } else {
        block_rest(ts, pos + 1, Seq::empty(), 1)
    }
}

/// The statements of a block from `pos` on, behind those in `before`, up
/// to and including the closing brace; `taken` tokens lie between the start
/// of the block and `pos`.
pub open spec fn block_rest(ts: Seq<TokenView>, pos: nat, before: Seq<StatementView>, taken: nat) -> Result<
    (Seq<StatementView>, nat),
    ParseErrorView,
>
    decreases remaining(ts, pos), 2nat,
{
    if peek_at(ts, pos) == TokenView::RightBrace {
        Ok((before, taken + 1))
    } else if peek_at(ts, pos) == TokenView::Eof {
        Err(unexpected(ts, pos, "'}' after block"@))
    } else {
        match statement(ts, pos) {
            Ok((stmt, n)) => {
                if n > 0 {
                    block_rest(ts, pos + n, before.push(stmt), taken + n)
                } else {
                    Err(unexpected(ts, pos, "statement"@))
                }
            },
            Err(e) => Err(e),
        }
    }
}

/// The statements from `pos` to the end of input, behind those in `before`.
pub open spec fn statements(ts: Seq<TokenView>, pos: nat, before: Seq<StatementView>) -> Result<
    Seq<StatementView>,
    ParseErrorView,
>
    decreases remaining(ts, pos),
{
    if peek_at(ts, pos) == TokenView::Eof {
        Ok(before)
    } else {
        match statement(ts, pos) {
            Ok((stmt, n)) => {
                if n > 0 {
                    statements(ts, pos + n, before.push(stmt))
                } else {
                    Err(unexpected(ts, pos, "statement"@))
                }
            },
            Err(e) => Err(e),
        }
    }
}

/// parameters := `)` | NAME `:` type (`,` NAME `:` type)* `)`
pub open spec fn parameters(ts: Seq<TokenView>, pos: nat) -> Result<(Seq<ParameterView>, nat), ParseErrorView> {
    if peek_at(ts, pos) == TokenView::RightParen {
        Ok((Seq::empty(), 1))
    } else {
        more_parameters(ts, pos, Seq::empty(), 0)
    }
}

/// The parameters from `pos` on, behind those in `before`, up to and
/// including the closing parenthesis; `taken` tokens lie between the
/// opening parenthesis and `pos`.
pub open spec fn more_parameters(ts: Seq<TokenView>, pos: nat, before: Seq<ParameterView>, taken: nat) -> Result<
    (Seq<ParameterView>, nat),
    ParseErrorView,
>
    decreases remaining(ts, pos),
{
    match peek_at(ts, pos) {
        TokenView::Identifier(name) => {
            if peek_at(ts, pos + 1) != TokenView::Colon {
                Err(unexpected(ts, pos + 1, "':' after parameter name"@))
            } else {
                match named_type(peek_at(ts, pos + 2)) {
                    None => Err(unexpected(ts, pos + 2, "type"@)),
                    Some(typ) => {
                        let all = before.push(ParameterView { name, typ });
                        if peek_at(ts, pos + 3) == TokenView::Comma {
                            more_parameters(ts, pos + 4, all, taken + 4)
                        } else if peek_at(ts, pos + 3) == TokenView::RightParen {
                            Ok((all, taken + 4))
                        } else {
                            Err(unexpected(ts, pos + 3, "',' or ')' after parameter"@))
                        }
                    },
                }
            }
        },
        _ => Err(unexpected(ts, pos, "parameter name"@)),
    }
}

/// function := `fn` NAME `(` parameters `->` type block
pub open spec fn function(ts: Seq<TokenView>, pos: nat) -> Result<(FunctionView, nat), ParseErrorView> {
    if peek_at(ts, pos) != TokenView::Function {
        Err(unexpected(ts, pos, "'fn'"@))
    } else {
        match peek_at(ts, pos + 1) {
            TokenView::Identifier(name) => {
                if peek_at(ts, pos + 2) != TokenView::LeftParen {
                    Err(unexpected(ts, pos + 2, "'(' after function name"@))
                } else {
                    match parameters(ts, pos + 3) {
                        Ok((params, n)) => {
                            if peek_at(ts, pos + 3 + n) != TokenView::Arrow {
                                Err(unexpected(ts, pos + 3 + n, "'->' after parameters"@))
                            } else {
                                match named_type(peek_at(ts, pos + 4 + n)) {
                                    None => Err(unexpected(ts, pos + 4 + n, "type"@)),
                                    Some(return_type) => match block(ts, pos + 5 + n) {
                                        Ok((body, m)) => Ok(
                                            (
                                                FunctionView { name, parameters: params, return_type, body },
                                                5 + n + m,
                                            ),
                                        ),
                                        Err(e) => Err(e),
                                    },
                                }
                            }
                        },
                        Err(e) => Err(e),
                    }
                }
            },
            _ => Err(unexpected(ts, pos + 1, "function name"@)),
        }
    }
}

/// The functions from `pos` to the end of input, behind those in `before`.
pub open spec fn functions(ts: Seq<TokenView>, pos: nat, before: Seq<FunctionView>) -> Result<
    Seq<FunctionView>,
    ParseErrorView,
>
    decreases remaining(ts, pos),
{
    if peek_at(ts, pos) == TokenView::Eof {
        Ok(before)
    } else {
        match function(ts, pos) {
            Ok((f, n)) => {
                if n > 0 {
                    functions(ts, pos + n, before.push(f))
                } else {
                    Err(unexpected(ts, pos, "'fn'"@))
                }
            },
            Err(e) => Err(e),
        }
    }
}

/// The statements that a whole token sequence consists of.
pub open spec fn parse_spec(ts: Seq<TokenView>) -> Result<Seq<StatementView>, ParseErrorView> {
    statements(ts, 0, Seq::empty())
}

/// The functions that a whole token sequence consists of.
pub open spec fn parse_program_spec(ts: Seq<TokenView>) -> Result<Seq<FunctionView>, ParseErrorView> {
    functions(ts, 0, Seq::empty())
}

/// What a primary expression is, by the token it begins with.
pub proof fn lemma_primary(ts: Seq<TokenView>, pos: nat)
    ensures
        primary(ts, pos) == match peek_at(ts, pos) {
            TokenView::Integer(value) => Ok::<(ExprView, nat), ParseErrorView>((ExprView::Integer(value), 1)),
            TokenView::True => Ok((ExprView::Boolean(true), 1)),
            TokenView::False => Ok((ExprView::Boolean(false), 1)),
            TokenView::Identifier(name) => {
                if peek_at(ts, pos + 1) == TokenView::LeftParen {
                    match arguments(ts, pos + 2) {
                        Ok((args, n)) => Ok((ExprView::Call { callee: name, args }, n + 2)),
                        Err(e) => Err(e),
                    }
                } else {
                    Ok((ExprView::Variable(name), 1))
                }
            },
            _ => Err(unexpected(ts, pos, "expression"@)),
        },
{
    reveal(primary);
}

/// An expression is a conjunction and what continues it.
pub proof fn lemma_expression(ts: Seq<TokenView>, pos: nat)
    ensures
        expression(ts, pos) == match conjunction(ts, pos) {
            Ok((left, n)) => disjunction_rest(ts, pos + n, left, n),
            Err(e) => Err(e),
        },
{
    reveal(expression);
}

/// What a statement is, by the token it begins with.
pub proof fn lemma_statement(ts: Seq<TokenView>, pos: nat)
    ensures
        statement(ts, pos) == match peek_at(ts, pos) {
            TokenView::Return => match expression_then_semicolon(ts, pos + 1, "';' after return value"@) {
                Ok((value, n)) => Ok::<(StatementView, nat), ParseErrorView>(
                    (StatementView::Return { value }, n + 1),
                ),
                Err(e) => Err(e),
            },
            TokenView::Let => let_statement(ts, pos),
            TokenView::If => if_statement(ts, pos),
            TokenView::While => while_statement(ts, pos),
            TokenView::Identifier(name) => {
                if peek_at(ts, pos + 1) == TokenView::Assign {
                    match expression_then_semicolon(ts, pos + 2, "';' after assignment"@) {
                        Ok((value, n)) => Ok((StatementView::Assignment { target: name, value }, n + 2)),
                        Err(e) => Err(e),
                    }
                } else {
                    match expression_then_semicolon(ts, pos, "';' after expression"@) {
                        Ok((value, n)) => Ok((StatementView::Expression { value }, n)),
                        Err(e) => Err(e),
                    }
                }
            },
            TokenView::Integer(_) | TokenView::True | TokenView::False => {
                match expression_then_semicolon(ts, pos, "';' after expression"@) {
                    Ok((value, n)) => Ok((StatementView::Expression { value }, n)),
                    Err(e) => Err(e),
                }
            },
            _ => Err(unexpected(ts, pos, "statement"@)),
        },
{
    reveal(statement);
}

/// A statement is at least one token long.
pub proof fn lemma_statement_takes_tokens(ts: Seq<TokenView>, pos: nat)
    ensures
        statement(ts, pos) matches Ok((_, n)) ==> n > 0,
{
    reveal(statement);
}

/// A function is at least one token long.
pub proof fn lemma_function_takes_tokens(ts: Seq<TokenView>, pos: nat)
    ensures
        function(ts, pos) matches Ok((_, n)) ==> n > 0,
{
}

} // verus!
