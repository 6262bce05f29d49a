//! The parser: a recursive-descent reading of the grammar in
//! [`crate::grammar`], with one token of lookahead and a second one where a
//! statement or a call begins with a name.

use vstd::prelude::*;
use vstd::string::StringExecFns;
use crate::ast::{
    exprs_view, functions_view, lemma_call_view, lemma_if_view, lemma_while_view, parameters_view,
    statements_view, BinaryOp, ComparisonOp, Expr, ExprView, Function, FunctionView, Parameter,
    ParameterView, Statement, StatementView, Type,
};
use crate::grammar::{
    arguments, arithmetic, arithmetic_op, arithmetic_rest, block, block_rest, comparison,
    comparison_op, comparison_rest, condition, conjunction, conjunction_rest, disjunction_rest,
    expression, expression_then_semicolon, function, functions, if_statement, let_statement,
    lemma_expression, lemma_function_takes_tokens, lemma_primary, lemma_statement, lemma_statement_takes_tokens, more_arguments, more_parameters,
    named_type, parameters, parse_program_spec, parse_spec, peek_at, primary, remaining, statement,
    statements, unexpected, while_statement, ParseErrorView,
};
use crate::token::{tokens_view, Token, TokenView};

verus! {

/// A token was found where the grammar asks for something else. Parsing
/// stops at the first such token.
#[derive(Debug, Clone, PartialEq)]
pub struct ParseError {
    /// What the grammar asks for at this point, in words.
    pub expected: String,
    /// The token that stands there instead.
    pub found: Token,
    /// The index of that token in the token sequence.
    pub position: usize,
}

impl View for ParseError {
    type V = ParseErrorView;

    open spec fn view(&self) -> ParseErrorView {
        ParseErrorView { expected: self.expected@, found: self.found@, position: self.position as nat }
    }
}

/// A cursor over a token sequence.
pub struct Parser {
    tokens: Vec<Token>,
    current: usize,
    end: Token,
}

/// `r` is the outcome `expected` for an expression with the cursor moved from
/// `before` to `after`: behind the tokens taken, or onto the token that the
/// error names.
pub open spec fn is_expr_outcome(
    r: Result<Expr, ParseError>,
    before: nat,
    after: nat,
    expected: Result<(ExprView, nat), ParseErrorView>,
) -> bool {
    match expected {
        Ok((e, n)) => r matches Ok(x) && x@ == e && after == before + n,
        Err(err) => r matches Err(x) && x@ == err && after == err.position,
    }
}

/// `r` is the outcome `expected` for a list of expressions with the cursor moved from
/// `before` to `after`: behind the tokens taken, or onto the token that the
/// error names.
pub open spec fn is_exprs_outcome(
    r: Result<Vec<Expr>, ParseError>,
    before: nat,
    after: nat,
    expected: Result<(Seq<ExprView>, nat), ParseErrorView>,
) -> bool {
    match expected {
        Ok((es, n)) => r matches Ok(x) && exprs_view(x@) == es && after == before + n,
        Err(err) => r matches Err(x) && x@ == err && after == err.position,
    }
}

/// `r` is the outcome `expected` for a statement with the cursor moved from
/// `before` to `after`: behind the tokens taken, or onto the token that the
/// error names.
pub open spec fn is_statement_outcome(
    r: Result<Statement, ParseError>,
    before: nat,
    after: nat,
    expected: Result<(StatementView, nat), ParseErrorView>,
) -> bool {
    match expected {
        Ok((s, n)) => r matches Ok(x) && x@ == s && after == before + n,
        Err(err) => r matches Err(x) && x@ == err && after == err.position,
    }
}

/// `r` is the outcome `expected` for a block with the cursor moved from
/// `before` to `after`: behind the tokens taken, or onto the token that the
/// error names.
pub open spec fn is_block_outcome(
    r: Result<Vec<Statement>, ParseError>,
    before: nat,
    after: nat,
    expected: Result<(Seq<StatementView>, nat), ParseErrorView>,
) -> bool {
    match expected {
        Ok((ss, n)) => r matches Ok(x) && statements_view(x@) == ss && after == before + n,
        Err(err) => r matches Err(x) && x@ == err && after == err.position,
    }
}

/// `r` is the outcome `expected` for a parameter list with the cursor moved from
/// `before` to `after`: behind the tokens taken, or onto the token that the
/// error names.
pub open spec fn is_parameters_outcome(
    r: Result<Vec<Parameter>, ParseError>,
    before: nat,
    after: nat,
    expected: Result<(Seq<ParameterView>, nat), ParseErrorView>,
) -> bool {
    match expected {
        Ok((ps, n)) => r matches Ok(x) && parameters_view(x@) == ps && after == before + n,
        Err(err) => r matches Err(x) && x@ == err && after == err.position,
    }
}

/// `r` is the outcome `expected` for a function with the cursor moved from
/// `before` to `after`: behind the tokens taken, or onto the token that the
/// error names.
pub open spec fn is_function_outcome(
    r: Result<Function, ParseError>,
    before: nat,
    after: nat,
    expected: Result<(FunctionView, nat), ParseErrorView>,
) -> bool {
    match expected {
        Ok((f, n)) => r matches Ok(x) && x@ == f && after == before + n,
        Err(err) => r matches Err(x) && x@ == err && after == err.position,
    }
}

/// The operator of the arithmetic tier that `token` spells.
fn arithmetic_operator(token: &Token) -> (r: Option<BinaryOp>)
    ensures
        r == arithmetic_op(token@),
{
    match token {
        Token::Plus => Some(BinaryOp::Add),
        Token::Minus => Some(BinaryOp::Subtract),
        Token::Star => Some(BinaryOp::Multiply),
        Token::Slash => Some(BinaryOp::Divide),
        _ => None,
    }
}

/// The comparison operator that `token` spells.
fn comparison_operator(token: &Token) -> (r: Option<ComparisonOp>)
    ensures
        r == comparison_op(token@),
{
    match token {
        Token::Equal => Some(ComparisonOp::Equal),
        Token::NotEqual => Some(ComparisonOp::NotEqual),
        Token::Less => Some(ComparisonOp::Less),
        Token::LessEqual => Some(ComparisonOp::LessEqual),
        Token::Greater => Some(ComparisonOp::Greater),
        Token::GreaterEqual => Some(ComparisonOp::GreaterEqual),
        _ => None,
    }
}

/// The type that `token` names.
fn type_of_token(token: &Token) -> (r: Option<Type>)
    ensures
        r == named_type(token@),
{
    match token {
        Token::TypeInt => Some(Type::Int),
        Token::TypeBool => Some(Type::Bool),
        Token::TypeVoid => Some(Type::Void),
        _ => None,
    }
}

/// The name that `token` carries, where it is an identifier.
fn name_of_token(token: &Token) -> (r: Option<String>)
    ensures
        match token@ {
            TokenView::Identifier(name) => r matches Some(x) && x@ == name,
            _ => r is None,
        },
{
    match token {
        Token::Identifier(name) => Some(name.clone()),
        _ => None,
    }
}

impl Parser {
    /// The cursor stays within the token sequence.
    pub closed spec fn wf(&self) -> bool {
        &&& self.current <= self.tokens.len()
        &&& self.end@ == TokenView::Eof
    }

    /// The token sequence that the parser reads.
    pub closed spec fn stream(&self) -> Seq<TokenView> {
        tokens_view(self.tokens@)
    }

    /// The index of the token under the cursor.
    pub closed spec fn position(&self) -> nat {
        self.current as nat
    }

    /// A parser at the start of `tokens`.
    pub fn new(tokens: Vec<Token>) -> (parser: Parser)
        ensures
            parser.wf(),
            parser.stream() == tokens_view(tokens@),
            parser.position() == 0,
    {
        Parser { tokens, current: 0, end: Token::Eof }
    }

    /// The token `offset` places behind the cursor, without moving.
    fn look(&self, offset: usize) -> (token: &Token)
        requires
            self.wf(),
        ensures
            token@ == peek_at(self.stream(), self.position() + offset as nat),
    {
        if offset < self.tokens.len() - self.current {
            &self.tokens[self.current + offset]
        } else {
            &self.end
        }
    }

    /// The token under the cursor.
    fn peek(&self) -> (token: &Token)
        requires
            self.wf(),
        ensures
            token@ == peek_at(self.stream(), self.position()),
    {
        self.look(0)
    }

    /// Whether the cursor has reached the end of input.
    pub fn is_at_end(&self) -> (r: bool)
        requires
            self.wf(),
        ensures
            r == (peek_at(self.stream(), self.position()) == TokenView::Eof),
    {
        matches!(self.peek(), Token::Eof)
    }

    /// Moves the cursor one token on, unless it has reached the end of input.
    fn advance(&mut self)
        requires
            old(self).wf(),
        ensures
            final(self).wf(),
            final(self).stream() == old(self).stream(),
            final(self).position() == if peek_at(old(self).stream(), old(self).position())
                == TokenView::Eof {
                old(self).position()
            } else {
                old(self).position() + 1
            },
    {
        if !self.is_at_end() {
            self.current += 1;
        }
    }

    /// The error for the token under the cursor, where `expected` is asked
    /// for.
    fn unexpected_here(&self, expected: &str) -> (e: ParseError)
        requires
            self.wf(),
        ensures
            e@ == unexpected(self.stream(), self.position(), expected@),
    {
        ParseError {
            expected: String::from_str(expected),
            found: self.peek().clone(),
            position: self.current,
        }
    }

    /// Steps over the token `expected`, or fails with `message` where
    /// another token stands under the cursor.
    fn consume(&mut self, expected: &Token, message: &str) -> (r: Result<(), ParseError>)
        requires
            old(self).wf(),
            expected@ != TokenView::Eof,
        ensures
            final(self).wf(),
            final(self).stream() == old(self).stream(),
            peek_at(old(self).stream(), old(self).position()) == expected@ ==> (r is Ok && final(
                self
            ).position() == old(self).position() + 1),
            peek_at(old(self).stream(), old(self).position()) != expected@ ==> (r matches Err(e) && e@
                == unexpected(old(self).stream(), old(self).position(), message@) && final(
                self
            ).position() == old(self).position()),
    {
        if *self.peek() == *expected {
            self.advance();
            Ok(())
        } else {
            Err(self.unexpected_here(message))
        }
    }

    /// type := `int` | `bool` | `void`
    pub fn parse_type(&mut self) -> (r: Result<Type, ParseError>)
        requires
            old(self).wf(),
        ensures
            final(self).wf(),
            final(self).stream() == old(self).stream(),
            match named_type(peek_at(old(self).stream(), old(self).position())) {
                Some(typ) => r == Ok::<Type, ParseError>(typ) && final(self).position() == old(self).position() + 1,
                None => r matches Err(e) && e@ == unexpected(
                    old(self).stream(),
                    old(self).position(),
                    "type"@,
                ) && final(self).position() == old(self).position(),
            },
    {
        match type_of_token(self.peek()) {
            Some(typ) => {
                self.advance();
                Ok(typ)
            },
            None => Err(self.unexpected_here("type")),
        }
    }

    /// Reads a primary expression: a literal, a variable or a call.
    fn parse_primary(&mut self) -> (r: Result<Expr, ParseError>)
        requires
            old(self).wf(),
        ensures
            final(self).wf(),
            final(self).stream() == old(self).stream(),
            is_expr_outcome(
                r,
                old(self).position(),
                final(self).position(),
                primary(old(self).stream(), old(self).position()),
            ),
        decreases remaining(old(self).stream(), old(self).position()), 0nat,
    {
        proof {
            lemma_primary(self.stream(), self.position());
        }
        let found: Option<Expr> = match self.peek() {
            Token::Integer(value) => Some(Expr::Integer(*value)),
            Token::True => Some(Expr::Boolean(true)),
            Token::False => Some(Expr::Boolean(false)),
            Token::Identifier(name) => Some(Expr::Variable(name.clone())),
            _ => None,
        };
        match found {
            Some(Expr::Variable(name)) => {
                if matches!(self.look(1), Token::LeftParen) {
                    self.advance();
                    self.advance();
                    match self.parse_arguments() {
                        Ok(args) => {
                            proof {
                                lemma_call_view(name, args);
                            }
                            Ok(Expr::Call { callee: name, args })
                        },
                        Err(e) => Err(e),
                    }
                } else {
                    self.advance();
                    Ok(Expr::Variable(name))
                }
            },
            Some(literal) => {
                self.advance();
                Ok(literal)
            },
            None => Err(self.unexpected_here("expression")),
        }
    }

    /// Reads the arguments of a call, behind its opening parenthesis.
    fn parse_arguments(&mut self) -> (r: Result<Vec<Expr>, ParseError>)
        requires
            old(self).wf(),
        ensures
            final(self).wf(),
            final(self).stream() == old(self).stream(),
            is_exprs_outcome(
                r,
                old(self).position(),
                final(self).position(),
                arguments(old(self).stream(), old(self).position()),
            ),
        decreases remaining(old(self).stream(), old(self).position()), 10nat,
    {
        let mut args: Vec<Expr> = Vec::new();
        if matches!(self.peek(), Token::RightParen) {
            self.advance();
            assert(exprs_view(args@) =~= Seq::<ExprView>::empty());
            return Ok(args);
        }
        let ghost ts = self.stream();
        let ghost start = self.position();
        assert(exprs_view(args@) =~= Seq::<ExprView>::empty());
        loop
            invariant
                self.wf(),
                self.stream() == ts,
                ts == old(self).stream(),
                start == old(self).position(),
                start <= self.position(),
                arguments(ts, start) == more_arguments(
                    ts,
                    self.position(),
                    exprs_view(args@),
                    (self.position() - start) as nat,
                ),
            decreases remaining(ts, self.position()),
        {
            let ghost before = exprs_view(args@);
            match self.parse_expression() {
                Ok(arg) => {
                    proof {
                        assert(exprs_view(args@.push(arg)) =~= before.push(arg@));
                    }
                    args.push(arg);
                },
                Err(e) => {
                    return Err(e);
                },
            }
            if matches!(self.peek(), Token::Comma) {
                self.advance();
            } else if matches!(self.peek(), Token::RightParen) {
                self.advance();
                return Ok(args);
            } else {
                return Err(self.unexpected_here("',' or ')' after argument"));
            }
        }
    }

    /// Reads an expression of the arithmetic tier: operands joined by `+`,
    /// `-`, `*` and `/`, grouped to the left.
    fn parse_binary(&mut self) -> (r: Result<Expr, ParseError>)
        requires
            old(self).wf(),
        ensures
            final(self).wf(),
            final(self).stream() == old(self).stream(),
            is_expr_outcome(
                r,
                old(self).position(),
                final(self).position(),
                arithmetic(old(self).stream(), old(self).position()),
            ),
        decreases remaining(old(self).stream(), old(self).position()), 2nat,
    {
        let ghost ts = self.stream();
        let ghost start = self.position();
        let mut expr: Expr = match self.parse_primary() {
            Ok(e) => e,
            Err(e) => {
                return Err(e);
            },
        };
        let mut next: Option<BinaryOp> = arithmetic_operator(self.peek());
        while next.is_some()
            invariant
                self.wf(),
                self.stream() == ts,
                ts == old(self).stream(),
                start == old(self).position(),
                start <= self.position(),
                next == arithmetic_op(peek_at(ts, self.position())),
                arithmetic(ts, start) == arithmetic_rest(
                    ts,
                    self.position(),
                    expr@,
                    (self.position() - start) as nat,
                ),
            decreases remaining(ts, self.position()),
        {
            let op: BinaryOp = next.unwrap();
            self.advance();
            match self.parse_primary() {
                Ok(right) => {
                    expr = Expr::Binary { op, left: Box::new(expr), right: Box::new(right) };
                },
                Err(e) => {
                    return Err(e);
                },
            }
            next = arithmetic_operator(self.peek());
        }
        Ok(expr)
    }

    /// Reads a comparison: arithmetic expressions joined by comparison
    /// operators, grouped to the left.
    fn parse_comparison(&mut self) -> (r: Result<Expr, ParseError>)
        requires
            old(self).wf(),
        ensures
            final(self).wf(),
            final(self).stream() == old(self).stream(),
            is_expr_outcome(
                r,
                old(self).position(),
                final(self).position(),
                comparison(old(self).stream(), old(self).position()),
            ),
        decreases remaining(old(self).stream(), old(self).position()), 4nat,
    {
        let ghost ts = self.stream();
        let ghost start = self.position();
        let mut expr: Expr = match self.parse_binary() {
            Ok(e) => e,
            Err(e) => {
                return Err(e);
            },
        };
        let mut next: Option<ComparisonOp> = comparison_operator(self.peek());
        while next.is_some()
            invariant
                self.wf(),
                self.stream() == ts,
                ts == old(self).stream(),
                start == old(self).position(),
                start <= self.position(),
                next == comparison_op(peek_at(ts, self.position())),
                comparison(ts, start) == comparison_rest(
                    ts,
                    self.position(),
                    expr@,
                    (self.position() - start) as nat,
                ),
            decreases remaining(ts, self.position()),
        {
            let op: ComparisonOp = next.unwrap();
            self.advance();
            match self.parse_binary() {
                Ok(right) => {
                    expr = Expr::Comparison { op, left: Box::new(expr), right: Box::new(right) };
                },
                Err(e) => {
                    return Err(e);
                },
            }
            next = comparison_operator(self.peek());
        }
        Ok(expr)
    }

    /// Reads a conjunction: comparisons joined by `&&`.
    fn parse_conjunction(&mut self) -> (r: Result<Expr, ParseError>)
        requires
            old(self).wf(),
        ensures
            final(self).wf(),
            final(self).stream() == old(self).stream(),
            is_expr_outcome(
                r,
                old(self).position(),
                final(self).position(),
                conjunction(old(self).stream(), old(self).position()),
            ),
        decreases remaining(old(self).stream(), old(self).position()), 6nat,
    {
        let ghost ts = self.stream();
        let ghost start = self.position();
        let mut expr: Expr = match self.parse_comparison() {
            Ok(e) => e,
            Err(e) => {
                return Err(e);
            },
        };
        while matches!(self.peek(), Token::And)
            invariant
                self.wf(),
                self.stream() == ts,
                ts == old(self).stream(),
                start == old(self).position(),
                start <= self.position(),
                conjunction(ts, start) == conjunction_rest(
                    ts,
                    self.position(),
                    expr@,
                    (self.position() - start) as nat,
                ),
            decreases remaining(ts, self.position()),
        {
            self.advance();
            match self.parse_comparison() {
                Ok(right) => {
                    expr = Expr::Binary { op: BinaryOp::And, left: Box::new(expr), right: Box::new(right) };
                },
                Err(e) => {
                    return Err(e);
                },
            }
        }
        Ok(expr)
    }

    /// Reads an expression: conjunctions joined by `||`.
    pub fn parse_expression(&mut self) -> (r: Result<Expr, ParseError>)
        requires
            old(self).wf(),
        ensures
            final(self).wf(),
            final(self).stream() == old(self).stream(),
            is_expr_outcome(
                r,
                old(self).position(),
                final(self).position(),
                expression(old(self).stream(), old(self).position()),
            ),
        decreases remaining(old(self).stream(), old(self).position()), 8nat,
    {
        let ghost ts = self.stream();
        let ghost start = self.position();
        proof {
            lemma_expression(ts, start);
        }
        let mut expr: Expr = match self.parse_conjunction() {
            Ok(e) => e,
            Err(e) => {
                return Err(e);
            },
        };
        while matches!(self.peek(), Token::Or)
            invariant
                self.wf(),
                self.stream() == ts,
                ts == old(self).stream(),
                start == old(self).position(),
                start <= self.position(),
                expression(ts, start) == disjunction_rest(
                    ts,
                    self.position(),
                    expr@,
                    (self.position() - start) as nat,
                ),
            decreases remaining(ts, self.position()),
        {
            self.advance();
            match self.parse_conjunction() {
                Ok(right) => {
                    expr = Expr::Binary { op: BinaryOp::Or, left: Box::new(expr), right: Box::new(right) };
                },
                Err(e) => {
                    return Err(e);
                },
            }
        }
        Ok(expr)
    }

    /// Reads an expression and the semicolon behind it; a missing
    /// semicolon is reported as `message`.
    fn parse_expression_then_semicolon(&mut self, message: &str) -> (r: Result<Expr, ParseError>)
        requires
            old(self).wf(),
        ensures
            final(self).wf(),
            final(self).stream() == old(self).stream(),
            is_expr_outcome(
                r,
                old(self).position(),
                final(self).position(),
                expression_then_semicolon(old(self).stream(), old(self).position(), message@),
            ),
    {
        let value: Expr = match self.parse_expression() {
            Ok(e) => e,
            Err(e) => {
                return Err(e);
            },
        };
        match self.consume(&Token::Semicolon, message) {
            Ok(()) => Ok(value),
            Err(e) => Err(e),
        }
    }

    /// Reads a condition in parentheses; a missing opening parenthesis is
    /// reported as `message`.
    fn parse_condition(&mut self, message: &str) -> (r: Result<Expr, ParseError>)
        requires
            old(self).wf(),
        ensures
            final(self).wf(),
            final(self).stream() == old(self).stream(),
            is_expr_outcome(
                r,
                old(self).position(),
                final(self).position(),
                condition(old(self).stream(), old(self).position(), message@),
            ),
    {
        match self.consume(&Token::LeftParen, message) {
            Ok(()) => {},
            Err(e) => {
                return Err(e);
            },
        }
        let value: Expr = match self.parse_expression() {
            Ok(e) => e,
            Err(e) => {
                return Err(e);
            },
        };
        match self.consume(&Token::RightParen, "')' after condition") {
            Ok(()) => Ok(value),
            Err(e) => Err(e),
        }
    }

    /// Reads a `let` statement, with the cursor on `let`.
    fn parse_let(&mut self) -> (r: Result<Statement, ParseError>)
        requires
            old(self).wf(),
            peek_at(old(self).stream(), old(self).position()) == TokenView::Let,
        ensures
            final(self).wf(),
            final(self).stream() == old(self).stream(),
            is_statement_outcome(
                r,
                old(self).position(),
                final(self).position(),
                let_statement(old(self).stream(), old(self).position()),
            ),
    {
        self.advance();
        let name: String = match name_of_token(self.peek()) {
            Some(name) => name,
            None => {
                return Err(self.unexpected_here("variable name"));
            },
        };
        self.advance();
        match self.consume(&Token::Colon, "':' after variable name") {
            Ok(()) => {},
            Err(e) => {
                return Err(e);
            },
        }
        let typ: Type = match self.parse_type() {
            Ok(t) => t,
            Err(e) => {
                return Err(e);
            },
        };
        match self.consume(&Token::Assign, "'=' after type") {
            Ok(()) => {},
            Err(e) => {
                return Err(e);
            },
        }
        match self.parse_expression_then_semicolon("';' after expression") {
            Ok(value) => Ok(Statement::Let { name, typ, value }),
            Err(e) => Err(e),
        }
    }

    /// Reads a conditional, with the cursor on `if`.
    fn parse_if(&mut self) -> (r: Result<Statement, ParseError>)
        requires
            old(self).wf(),
            peek_at(old(self).stream(), old(self).position()) == TokenView::If,
        ensures
            final(self).wf(),
            final(self).stream() == old(self).stream(),
            is_statement_outcome(
                r,
                old(self).position(),
                final(self).position(),
                if_statement(old(self).stream(), old(self).position()),
            ),
        decreases remaining(old(self).stream(), old(self).position()), 0nat,
    {
        self.advance();
        let condition: Expr = match self.parse_condition("'(' after 'if'") {
            Ok(e) => e,
            Err(e) => {
                return Err(e);
            },
        };
        let then_branch: Vec<Statement> = match self.parse_block() {
            Ok(b) => b,
            Err(e) => {
                return Err(e);
            },
        };
        if matches!(self.peek(), Token::Else) {
            self.advance();
            match self.parse_block() {
                Ok(else_branch) => {
                    proof {
                        lemma_if_view(condition, then_branch, Some(else_branch));
                    }
                    Ok(Statement::If { condition, then_branch, else_branch: Some(else_branch) })
                },
                Err(e) => Err(e),
            }
        } else {
            proof {
                lemma_if_view(condition, then_branch, None);
            }
            Ok(Statement::If { condition, then_branch, else_branch: None })
        }
    }

    /// Reads a loop, with the cursor on `while`.
    fn parse_while(&mut self) -> (r: Result<Statement, ParseError>)
        requires
            old(self).wf(),
            peek_at(old(self).stream(), old(self).position()) == TokenView::While,
        ensures
            final(self).wf(),
            final(self).stream() == old(self).stream(),
            is_statement_outcome(
                r,
                old(self).position(),
                final(self).position(),
                while_statement(old(self).stream(), old(self).position()),
            ),
        decreases remaining(old(self).stream(), old(self).position()), 0nat,
    {
        self.advance();
        let condition: Expr = match self.parse_condition("'(' after 'while'") {
            Ok(e) => e,
            Err(e) => {
                return Err(e);
            },
        };
        match self.parse_block() {
            Ok(body) => {
                proof {
                    lemma_while_view(condition, body);
                }
                Ok(Statement::While { condition, body })
            },
            Err(e) => Err(e),
        }
    }

    /// Reads a block: statements in braces.
    pub fn parse_block(&mut self) -> (r: Result<Vec<Statement>, ParseError>)
        requires
            old(self).wf(),
        ensures
            final(self).wf(),
            final(self).stream() == old(self).stream(),
            is_block_outcome(
                r,
                old(self).position(),
                final(self).position(),
                block(old(self).stream(), old(self).position()),
            ),
        decreases remaining(old(self).stream(), old(self).position()), 3nat,
    {
        let ghost ts = self.stream();
        let ghost start = self.position();
        match self.consume(&Token::LeftBrace, "'{' before block") {
            Ok(()) => {},
            Err(e) => {
                return Err(e);
            },
        }
        let mut stmts: Vec<Statement> = Vec::new();
        assert(statements_view(stmts@) =~= Seq::<StatementView>::empty());
        while !matches!(self.peek(), Token::RightBrace)
            invariant
                self.wf(),
                self.stream() == ts,
                ts == old(self).stream(),
                start == old(self).position(),
                start < self.position(),
                block(ts, start) == block_rest(
                    ts,
                    self.position(),
                    statements_view(stmts@),
                    (self.position() - start) as nat,
                ),
            decreases remaining(ts, self.position()),
        {
            if self.is_at_end() {
                return Err(self.unexpected_here("'}' after block"));
            }
            let ghost before = statements_view(stmts@);
            proof {
                lemma_statement_takes_tokens(ts, self.position());
            }
            match self.parse_statement() {
                Ok(stmt) => {
                    proof {
                        assert(statements_view(stmts@.push(stmt)) =~= before.push(stmt@));
                    }
                    stmts.push(stmt);
                },
                Err(e) => {
                    return Err(e);
                },
            }
        }
        self.advance();
        Ok(stmts)
    }

    /// Reads one statement.
    pub fn parse_statement(&mut self) -> (r: Result<Statement, ParseError>)
        requires
            old(self).wf(),
        ensures
            final(self).wf(),
            final(self).stream() == old(self).stream(),
            is_statement_outcome(
                r,
                old(self).position(),
                final(self).position(),
                statement(old(self).stream(), old(self).position()),
            ),
        decreases remaining(old(self).stream(), old(self).position()), 1nat,
    {
        proof {
            lemma_statement(self.stream(), self.position());
        }
        if matches!(self.peek(), Token::Return) {
            self.advance();
            match self.parse_expression_then_semicolon("';' after return value") {
                Ok(value) => Ok(Statement::Return { value }),
                Err(e) => Err(e),
            }
        } else if matches!(self.peek(), Token::Let) {
            self.parse_let()
        } else if matches!(self.peek(), Token::If) {
            self.parse_if()
        } else if matches!(self.peek(), Token::While) {
            self.parse_while()
        } else if matches!(self.peek(), Token::Identifier(_)) && matches!(self.look(1), Token::Assign) {
            let target: String = match name_of_token(self.peek()) {
                Some(name) => name,
                None => {
                    return Err(self.unexpected_here("statement"));
                },
            };
            self.advance();
            self.advance();
            match self.parse_expression_then_semicolon("';' after assignment") {
                Ok(value) => Ok(Statement::Assignment { target, value }),
                Err(e) => Err(e),
            }
        } else if matches!(
            self.peek(),
            Token::Identifier(_) | Token::Integer(_) | Token::True | Token::False
        ) {
            match self.parse_expression_then_semicolon("';' after expression") {
                Ok(value) => Ok(Statement::Expression { value }),
                Err(e) => Err(e),
            }
        } else {
            Err(self.unexpected_here("statement"))
        }
    }

    /// Reads the parameters of a function, behind the opening parenthesis.
    fn parse_parameters(&mut self) -> (r: Result<Vec<Parameter>, ParseError>)
        requires
            old(self).wf(),
        ensures
            final(self).wf(),
            final(self).stream() == old(self).stream(),
            is_parameters_outcome(
                r,
                old(self).position(),
                final(self).position(),
                parameters(old(self).stream(), old(self).position()),
            ),
    {
        let mut params: Vec<Parameter> = Vec::new();
        assert(parameters_view(params@) =~= Seq::<ParameterView>::empty());
        if matches!(self.peek(), Token::RightParen) {
            self.advance();
            return Ok(params);
        }
        let ghost ts = self.stream();
        let ghost start = self.position();
        loop
            invariant
                self.wf(),
                self.stream() == ts,
                ts == old(self).stream(),
                start == old(self).position(),
                start <= self.position(),
                parameters(ts, start) == more_parameters(
                    ts,
                    self.position(),
                    parameters_view(params@),
                    (self.position() - start) as nat,
                ),
            decreases remaining(ts, self.position()),
        {
            let ghost before = parameters_view(params@);
            let name: String = match name_of_token(self.peek()) {
                Some(name) => name,
                None => {
                    return Err(self.unexpected_here("parameter name"));
                },
            };
            self.advance();
            match self.consume(&Token::Colon, "':' after parameter name") {
                Ok(()) => {},
                Err(e) => {
                    return Err(e);
                },
            }
            let typ: Type = match self.parse_type() {
                Ok(t) => t,
                Err(e) => {
                    return Err(e);
                },
            };
            let param = Parameter { name, typ };
            proof {
                assert(parameters_view(params@.push(param)) =~= before.push(param@));
            }
            params.push(param);
            if matches!(self.peek(), Token::Comma) {
                self.advance();
            } else if matches!(self.peek(), Token::RightParen) {
                self.advance();
                return Ok(params);
            } else {
                return Err(self.unexpected_here("',' or ')' after parameter"));
            }
        }
    }

    /// Reads one function.
    pub fn parse_function(&mut self) -> (r: Result<Function, ParseError>)
        requires
            old(self).wf(),
        ensures
            final(self).wf(),
            final(self).stream() == old(self).stream(),
            is_function_outcome(
                r,
                old(self).position(),
                final(self).position(),
                function(old(self).stream(), old(self).position()),
            ),
    {
        match self.consume(&Token::Function, "'fn'") {
            Ok(()) => {},
            Err(e) => {
                return Err(e);
            },
        }
        let name: String = match name_of_token(self.peek()) {
            Some(name) => name,
            None => {
                return Err(self.unexpected_here("function name"));
            },
        };
        self.advance();
        match self.consume(&Token::LeftParen, "'(' after function name") {
            Ok(()) => {},
            Err(e) => {
                return Err(e);
            },
        }
        let parameters: Vec<Parameter> = match self.parse_parameters() {
            Ok(p) => p,
            Err(e) => {
                return Err(e);
            },
        };
        match self.consume(&Token::Arrow, "'->' after parameters") {
            Ok(()) => {},
            Err(e) => {
                return Err(e);
            },
        }
        let return_type: Type = match self.parse_type() {
            Ok(t) => t,
            Err(e) => {
                return Err(e);
            },
        };
        match self.parse_block() {
            Ok(body) => Ok(Function { name, parameters, return_type, body }),
            Err(e) => Err(e),
        }
    }
}

/// The result of parsing statements as a mathematical value.
pub open spec fn parse_result_view(result: Result<Vec<Statement>, ParseError>) -> Result<
    Seq<StatementView>,
    ParseErrorView,
> {
    match result {
        Ok(stmts) => Ok(statements_view(stmts@)),
        Err(e) => Err(e@),
    }
}

/// The result of parsing functions as a mathematical value.
pub open spec fn parse_program_result_view(result: Result<Vec<Function>, ParseError>) -> Result<
    Seq<FunctionView>,
    ParseErrorView,
> {
    match result {
        Ok(fs) => Ok(functions_view(fs@)),
        Err(e) => Err(e@),
    }
}

/// Parses a token sequence as statements, up to the end of input.
///
/// The result is exactly [`parse_spec`] of the tokens: the statements in
/// order, or the first token that the grammar does not allow.
pub fn parse(tokens: Vec<Token>) -> (result: Result<Vec<Statement>, ParseError>)
    ensures
        parse_result_view(result) == parse_spec(tokens_view(tokens@)),
{
    let mut parser = Parser::new(tokens);
    let mut stmts: Vec<Statement> = Vec::new();
    let ghost ts = parser.stream();
    assert(statements_view(stmts@) =~= Seq::<StatementView>::empty());
    while !parser.is_at_end()
        invariant
            parser.wf(),
            parser.stream() == ts,
            ts == tokens_view(tokens@),
            parse_spec(ts) == statements(ts, parser.position(), statements_view(stmts@)),
        decreases remaining(ts, parser.position()),
    {
        let ghost before = statements_view(stmts@);
        proof {
            lemma_statement_takes_tokens(ts, parser.position());
        }
        match parser.parse_statement() {
            Ok(stmt) => {
                proof {
                    assert(statements_view(stmts@.push(stmt)) =~= before.push(stmt@));
                }
                stmts.push(stmt);
            },
            Err(e) => {
                return Err(e);
            },
        }
    }
    Ok(stmts)
}

/// Parses a token sequence as functions, up to the end of input.
///
/// The result is exactly [`parse_program_spec`] of the tokens: the
/// functions in order, or the first token that the grammar does not allow.
pub fn parse_program(tokens: Vec<Token>) -> (result: Result<Vec<Function>, ParseError>)
    ensures
        parse_program_result_view(result) == parse_program_spec(tokens_view(tokens@)),
{
    let mut parser = Parser::new(tokens);
    let mut fs: Vec<Function> = Vec::new();
    let ghost ts = parser.stream();
    assert(functions_view(fs@) =~= Seq::<FunctionView>::empty());
    while !parser.is_at_end()
        invariant
            parser.wf(),
            parser.stream() == ts,
            ts == tokens_view(tokens@),
            parse_program_spec(ts) == functions(ts, parser.position(), functions_view(fs@)),
        decreases remaining(ts, parser.position()),
    {
        let ghost before = functions_view(fs@);
        proof {
            lemma_function_takes_tokens(ts, parser.position());
        }
        match parser.parse_function() {
            Ok(f) => {
                proof {
                    assert(functions_view(fs@.push(f)) =~= before.push(f@));
                }
                fs.push(f);
            },
            Err(e) => {
                return Err(e);
            },
        }
    }
    Ok(fs)
}

} // verus!
