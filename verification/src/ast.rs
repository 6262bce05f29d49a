//! The abstract syntax tree, and each node as a mathematical value.

use vstd::prelude::*;

verus! {

/// An arithmetic or logical operator with two operands.
#[derive(Debug, Clone, Copy, PartialEq, Eq, Structural)]
pub enum BinaryOp {
    Add,
    Subtract,
    Multiply,
    Divide,
    And,
    Or,
}

/// A comparison operator.
#[derive(Debug, Clone, Copy, PartialEq, Eq, Structural)]
pub enum ComparisonOp {
    Equal,
    NotEqual,
    Less,
    LessEqual,
    Greater,
    GreaterEqual,
}

/// A declared type. Types are recorded, never checked.
#[derive(Debug, Clone, Copy, PartialEq, Eq, Structural)]
pub enum Type {
    Int,
    Bool,
    Void,
}

/// An expression. Each node owns its operands.
#[derive(Debug, PartialEq)]
#[allow(inconsistent_fields)]
pub enum Expr {
    Integer(i64),
    Boolean(bool),
    Variable(String),
    Binary { op: BinaryOp, left: Box<Expr>, right: Box<Expr> },
    Comparison { op: ComparisonOp, left: Box<Expr>, right: Box<Expr> },
    Call { callee: String, args: Vec<Expr> },
}

/// A statement. A block is a vector of statements in execution order.
#[derive(Debug, PartialEq)]
pub enum Statement {
    Return { value: Expr },
    Let { name: String, typ: Type, value: Expr },
    Assignment { target: String, value: Expr },
    Expression { value: Expr },
    If { condition: Expr, then_branch: Vec<Statement>, else_branch: Option<Vec<Statement>> },
    While { condition: Expr, body: Vec<Statement> },
}

/// A parameter of a function: its name and declared type.
#[derive(Debug, Clone, PartialEq)]
pub struct Parameter {
    pub name: String,
    pub typ: Type,
}

/// A function: name, parameters in order, declared return type and body.
#[derive(Debug, PartialEq)]
pub struct Function {
    pub name: String,
    pub parameters: Vec<Parameter>,
    pub return_type: Type,
    pub body: Vec<Statement>,
}

#[allow(inconsistent_fields)]
pub enum ExprView {
    Integer(i64),
    Boolean(bool),
    Variable(Seq<char>),
    Binary { op: BinaryOp, left: Box<ExprView>, right: Box<ExprView> },
    Comparison { op: ComparisonOp, left: Box<ExprView>, right: Box<ExprView> },
    Call { callee: Seq<char>, args: Seq<ExprView> },
}

pub enum StatementView {
    Return { value: ExprView },
    Let { name: Seq<char>, typ: Type, value: ExprView },
    Assignment { target: Seq<char>, value: ExprView },
    Expression { value: ExprView },
    If { condition: ExprView, then_branch: Seq<StatementView>, else_branch: Option<Seq<StatementView>> },
    While { condition: ExprView, body: Seq<StatementView> },
}

pub struct ParameterView {
    pub name: Seq<char>,
    pub typ: Type,
}

pub struct FunctionView {
    pub name: Seq<char>,
    pub parameters: Seq<ParameterView>,
    pub return_type: Type,
    pub body: Seq<StatementView>,
}

/// An expression as a mathematical value.
pub open spec fn expr_view(e: Expr) -> ExprView
    decreases e,
{
    match e {
        Expr::Integer(value) => ExprView::Integer(value),
        Expr::Boolean(value) => ExprView::Boolean(value),
        Expr::Variable(name) => ExprView::Variable(name@),
        Expr::Binary { op, left, right } => ExprView::Binary {
            op,
            left: Box::new(expr_view(*left)),
            right: Box::new(expr_view(*right)),
        },
        Expr::Comparison { op, left, right } => ExprView::Comparison {
            op,
            left: Box::new(expr_view(*left)),
            right: Box::new(expr_view(*right)),
        },
        Expr::Call { callee, args } => ExprView::Call {
            callee: callee@,
            args: Seq::new(
                args@.len(),
                |i: int|
                    if 0 <= i < args@.len() {
                        expr_view(args@[i])
                    } else {
                        ExprView::Integer(0)
                    },
            ),
        },
    }
}

/// The expressions of a vector, each as a mathematical value.
pub open spec fn exprs_view(es: Seq<Expr>) -> Seq<ExprView> {
    Seq::new(es.len(), |i: int| expr_view(es[i]))
}

/// A statement as a mathematical value.
pub open spec fn statement_view(s: Statement) -> StatementView
    decreases s,
{
    match s {
        Statement::Return { value } => StatementView::Return { value: expr_view(value) },
        Statement::Let { name, typ, value } => StatementView::Let {
            name: name@,
            typ,
            value: expr_view(value),
        },
        Statement::Assignment { target, value } => StatementView::Assignment {
            target: target@,
            value: expr_view(value),
        },
        Statement::Expression { value } => StatementView::Expression { value: expr_view(value) },
        Statement::If { condition, then_branch, else_branch } => StatementView::If {
            condition: expr_view(condition),
            then_branch: Seq::new(
                then_branch@.len(),
                |i: int|
                    if 0 <= i < then_branch@.len() {
                        statement_view(then_branch@[i])
                    } else {
                        StatementView::Expression { value: ExprView::Integer(0) }
                    },
            ),
            else_branch: match else_branch {
                Some(stmts) => Some(
                    Seq::new(
                        stmts@.len(),
                        |i: int|
                            if 0 <= i < stmts@.len() {
                                statement_view(stmts@[i])
                            } else {
                                StatementView::Expression { value: ExprView::Integer(0) }
                            },
                    ),
                ),
                None => None,
            },
        },
        Statement::While { condition, body } => StatementView::While {
            condition: expr_view(condition),
            body: Seq::new(
                body@.len(),
                |i: int|
                    if 0 <= i < body@.len() {
                        statement_view(body@[i])
                    } else {
                        StatementView::Expression { value: ExprView::Integer(0) }
                    },
            ),
        },
    }
}

/// The statements of a vector, each as a mathematical value.
pub open spec fn statements_view(stmts: Seq<Statement>) -> Seq<StatementView> {
    Seq::new(stmts.len(), |i: int| statement_view(stmts[i]))
}

impl View for Expr {
    type V = ExprView;

    open spec fn view(&self) -> ExprView {
        expr_view(*self)
    }
}

impl View for Statement {
    type V = StatementView;

    open spec fn view(&self) -> StatementView {
        statement_view(*self)
    }
}

impl View for Parameter {
    type V = ParameterView;

    open spec fn view(&self) -> ParameterView {
        ParameterView { name: self.name@, typ: self.typ }
    }
}

/// The parameters of a vector, each as a mathematical value.
pub open spec fn parameters_view(ps: Seq<Parameter>) -> Seq<ParameterView> {
    Seq::new(ps.len(), |i: int| ps[i]@)
}

impl View for Function {
    type V = FunctionView;

    open spec fn view(&self) -> FunctionView {
        FunctionView {
            name: self.name@,
            parameters: parameters_view(self.parameters@),
            return_type: self.return_type,
            body: statements_view(self.body@),
        }
    }
}

/// The functions of a vector, each as a mathematical value.
pub open spec fn functions_view(fs: Seq<Function>) -> Seq<FunctionView> {
    Seq::new(fs.len(), |i: int| fs[i]@)
}

/// The view of a call's arguments is the view of each argument.
pub proof fn lemma_call_view(callee: String, args: Vec<Expr>)
    ensures
        expr_view(Expr::Call { callee, args }) == (ExprView::Call {
            callee: callee@,
            args: exprs_view(args@),
        }),
{
    assert(expr_view(Expr::Call { callee, args })->Call_args =~= exprs_view(args@));
}

/// The view of a conditional is the view of its condition and of each
/// statement of its branches.
pub proof fn lemma_if_view(condition: Expr, then_branch: Vec<Statement>, else_branch: Option<Vec<Statement>>)
    ensures
        statement_view(Statement::If { condition, then_branch, else_branch }) == (StatementView::If {
            condition: expr_view(condition),
            then_branch: statements_view(then_branch@),
            else_branch: match else_branch {
                Some(stmts) => Some(statements_view(stmts@)),
                None => None,
            },
        }),
{
    let v = statement_view(Statement::If { condition, then_branch, else_branch });
    assert(v->then_branch =~= statements_view(then_branch@));
    match else_branch {
        Some(stmts) => {
            assert(v->else_branch->0 =~= statements_view(stmts@));
        },
        None => {},
    }
}

/// The view of a loop is the view of its condition and of each statement
/// of its body.
pub proof fn lemma_while_view(condition: Expr, body: Vec<Statement>)
    ensures
        statement_view(Statement::While { condition, body }) == (StatementView::While {
            condition: expr_view(condition),
            body: statements_view(body@),
        }),
{
    assert(statement_view(Statement::While { condition, body })->body =~= statements_view(body@));
}

/// A copy of an expression.
pub fn clone_expr(e: &Expr) -> (copy: Expr)
    ensures
        copy@ == e@,
    decreases e,
{
    match e {
        Expr::Integer(value) => Expr::Integer(*value),
        Expr::Boolean(value) => Expr::Boolean(*value),
        Expr::Variable(name) => Expr::Variable(name.clone()),
        Expr::Binary { op, left, right } => Expr::Binary {
            op: *op,
            left: Box::new(clone_expr(left)),
            right: Box::new(clone_expr(right)),
        },
        Expr::Comparison { op, left, right } => Expr::Comparison {
            op: *op,
            left: Box::new(clone_expr(left)),
            right: Box::new(clone_expr(right)),
        },
        Expr::Call { callee, args } => {
            let copies: Vec<Expr> = clone_exprs(args);
            let name: String = callee.clone();
            proof {
                lemma_call_view(*callee, *args);
                lemma_call_view(name, copies);
            }
            Expr::Call { callee: name, args: copies }
        },
    }
}

/// A copy of a list of expressions.
pub fn clone_exprs(es: &Vec<Expr>) -> (copy: Vec<Expr>)
    ensures
        exprs_view(copy@) == exprs_view(es@),
    decreases es,
{
    let mut copies: Vec<Expr> = Vec::new();
    let mut i: usize = 0;
    while i < es.len()
        invariant
            i <= es.len(),
            copies@.len() == i,
            forall|j: int| 0 <= j < i ==> (#[trigger] copies@[j])@ == es@[j]@,
        decreases es.len() - i,
    {
        copies.push(clone_expr(&es[i]));
        i += 1;
    }
    assert(exprs_view(copies@) =~= exprs_view(es@));
    copies
}

/// A copy of a statement sequence.
pub fn clone_statements(stmts: &Vec<Statement>) -> (copy: Vec<Statement>)
    ensures
        statements_view(copy@) == statements_view(stmts@),
    decreases stmts, 0nat,
{
    let mut copies: Vec<Statement> = Vec::new();
    let mut i: usize = 0;
    while i < stmts.len()
        invariant
            i <= stmts.len(),
            copies@.len() == i,
            forall|j: int| 0 <= j < i ==> (#[trigger] copies@[j])@ == stmts@[j]@,
        decreases stmts.len() - i,
    {
        copies.push(clone_statement(&stmts[i]));
        i += 1;
    }
    assert(statements_view(copies@) =~= statements_view(stmts@));
    copies
}

/// A copy of a statement.
pub fn clone_statement(s: &Statement) -> (copy: Statement)
    ensures
        copy@ == s@,
    decreases s, 0nat,
{
    match s {
        Statement::Return { value } => Statement::Return { value: clone_expr(value) },
        Statement::Let { name, typ, value } => Statement::Let {
            name: name.clone(),
            typ: *typ,
            value: clone_expr(value),
        },
        Statement::Assignment { target, value } => Statement::Assignment {
            target: target.clone(),
            value: clone_expr(value),
        },
        Statement::Expression { value } => Statement::Expression { value: clone_expr(value) },
        Statement::If { condition, then_branch, else_branch } => {
            let cond: Expr = clone_expr(condition);
            let first: Vec<Statement> = clone_statements(then_branch);
            let second: Option<Vec<Statement>> = match else_branch {
                Some(stmts) => Some(clone_statements(stmts)),
                None => None,
            };
            proof {
                lemma_if_view(*condition, *then_branch, *else_branch);
                lemma_if_view(cond, first, second);
            }
            Statement::If { condition: cond, then_branch: first, else_branch: second }
        },
        Statement::While { condition, body } => {
            let cond: Expr = clone_expr(condition);
            let copy: Vec<Statement> = clone_statements(body);
            proof {
                lemma_while_view(*condition, *body);
                lemma_while_view(cond, copy);
            }
            Statement::While { condition: cond, body: copy }
        },
    }
}

impl Clone for Expr {
    fn clone(&self) -> (copy: Expr)
        ensures
            copy@ == self@,
    {
        clone_expr(self)
    }
}

impl Clone for Statement {
    fn clone(&self) -> (copy: Statement)
        ensures
            copy@ == self@,
    {
        clone_statement(self)
    }
}

impl Clone for Function {
    fn clone(&self) -> (copy: Function)
        ensures
            copy@ == self@,
    {
        let mut parameters: Vec<Parameter> = Vec::new();
        let mut i: usize = 0;
        while i < self.parameters.len()
            invariant
                i <= self.parameters.len(),
                parameters@.len() == i,
                forall|j: int| 0 <= j < i ==> (#[trigger] parameters@[j])@ == self.parameters@[j]@,
            decreases self.parameters.len() - i,
        {
            parameters.push(
                Parameter { name: self.parameters[i].name.clone(), typ: self.parameters[i].typ },
            );
            i += 1;
        }
        assert(parameters_view(parameters@) =~= parameters_view(self.parameters@));
        Function {
            name: self.name.clone(),
            parameters,
            return_type: self.return_type,
            body: clone_statements(&self.body),
        }
    }
}

} // verus!
