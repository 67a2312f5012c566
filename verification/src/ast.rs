//! The syntax tree that the parser builds, and its mathematical view.
use vstd::prelude::*;
use crate::token::Position;

verus! {

/// A statement and where it starts.
#[derive(Debug, PartialEq)]
pub struct Statement {
    pub position: Position,
    pub value: StatementKind,
}

#[derive(Debug, PartialEq)]
pub enum StatementKind {
    FunctionDeclaration {
        name: Expression,
        parameters: Vec<Expression>,
        body: Vec<Statement>,
    },
    LetDeclaration {
        name: Expression,
        value: Option<Expression>,
    },
    IfStatement {
        predicate: Expression,
        then_body: Vec<Statement>,
        else_body: Option<Vec<Statement>>,
    },
    WhileStatement {
        predicate: Expression,
        body: Vec<Statement>,
    },
    ForStatement {
        initializer: Option<Box<Statement>>,
        predicate: Option<Expression>,
        increment: Option<Expression>,
        body: Vec<Statement>,
    },
    BreakStatement,
    ContinueStatement,
    ReturnStatement(Option<Expression>),
    ExpressionStatement(Expression),
}

#[derive(Debug, PartialEq, Eq, Clone, Copy, Structural)]
pub enum Operator {
    Plus,
    Minus,
    Star,
    Slash,
    Percent,
    StarStar,
    And,
    Pipe,
    Caret,
    AndAnd,
    PipePipe,
}

/// An expression and where it starts.
#[derive(Debug, PartialEq)]
pub struct Expression {
    pub position: Position,
    pub value: ExpressionKind,
}

#[derive(Debug, PartialEq)]
pub enum ExpressionKind {
    /// The number that the agent gave the identifier's text.
    Identifier(usize),
    Integer(i64),
    /// A floating-point literal, held as its source text.
    Double(String),
    Function {
        name: Option<usize>,
        parameters: Vec<Expression>,
        body: Vec<Statement>,
    },
    UnaryOperation(Operator, Box<Expression>),
    BinaryOperation(Box<Expression>, Operator, Box<Expression>),
    Call(Box<Expression>, Vec<Expression>),
    Index(Box<Expression>, Box<Expression>),
}

// ---------------------------------------------------------------------------
// Views: the same trees with sequences in place of vectors and strings

pub struct StatementV {
    pub position: Position,
    pub value: StatementKindV,
}

pub enum StatementKindV {
    FunctionDeclaration {
        name: ExpressionV,
        parameters: Seq<ExpressionV>,
        body: Seq<StatementV>,
    },
    LetDeclaration {
        name: ExpressionV,
        value: Option<ExpressionV>,
    },
    IfStatement {
        predicate: ExpressionV,
        then_body: Seq<StatementV>,
        else_body: Option<Seq<StatementV>>,
    },
    WhileStatement {
        predicate: ExpressionV,
        body: Seq<StatementV>,
    },
    ForStatement {
        initializer: Option<Box<StatementV>>,
        predicate: Option<ExpressionV>,
        increment: Option<ExpressionV>,
        body: Seq<StatementV>,
    },
    BreakStatement,
    ContinueStatement,
    ReturnStatement(Option<ExpressionV>),
    ExpressionStatement(ExpressionV),
}

pub struct ExpressionV {
    pub position: Position,
    pub value: ExpressionKindV,
}

pub enum ExpressionKindV {
    Identifier(usize),
    Integer(i64),
    Double(Seq<char>),
    Function {
        name: Option<usize>,
        parameters: Seq<ExpressionV>,
        body: Seq<StatementV>,
    },
    UnaryOperation(Operator, Box<ExpressionV>),
    BinaryOperation(Box<ExpressionV>, Operator, Box<ExpressionV>),
    Call(Box<ExpressionV>, Seq<ExpressionV>),
    Index(Box<ExpressionV>, Box<ExpressionV>),
}

pub open spec fn statements_view(v: Seq<Statement>) -> Seq<StatementV>
    decreases v, 1int,
{
    Seq::new(v.len(), |i: int| if 0 <= i < v.len() { statement_view(v[i]) } else { arbitrary_statement() })
}

pub open spec fn expressions_view(v: Seq<Expression>) -> Seq<ExpressionV>
    decreases v, 1int,
{
    Seq::new(v.len(), |i: int| if 0 <= i < v.len() { expression_view(v[i]) } else { arbitrary_expression() })
}

pub open spec fn arbitrary_statement() -> StatementV {
    StatementV { position: Position { line: 0, column: 0 }, value: StatementKindV::BreakStatement }
}

pub open spec fn arbitrary_expression() -> ExpressionV {
    ExpressionV { position: Position { line: 0, column: 0 }, value: ExpressionKindV::Integer(0) }
}

pub open spec fn statement_view(s: Statement) -> StatementV
    decreases s, 0int,
{
    StatementV {
        position: s.position,
        value: match s.value {
            StatementKind::FunctionDeclaration { name, parameters, body } =>
                StatementKindV::FunctionDeclaration {
                    name: expression_view(name),
                    parameters: expressions_view(parameters@),
                    body: statements_view(body@),
                },
            StatementKind::LetDeclaration { name, value } =>
                StatementKindV::LetDeclaration {
                    name: expression_view(name),
                    value: match value { Some(e) => Some(expression_view(e)), None => None },
                },
            StatementKind::IfStatement { predicate, then_body, else_body } =>
                StatementKindV::IfStatement {
                    predicate: expression_view(predicate),
                    then_body: statements_view(then_body@),
                    else_body: match else_body { Some(b) => Some(statements_view(b@)), None => None },
                },
            StatementKind::WhileStatement { predicate, body } =>
                StatementKindV::WhileStatement {
                    predicate: expression_view(predicate),
                    body: statements_view(body@),
                },
            StatementKind::ForStatement { initializer, predicate, increment, body } =>
                StatementKindV::ForStatement {
                    initializer: match initializer { Some(b) => Some(Box::new(statement_view(*b))), None => None },
                    predicate: match predicate { Some(e) => Some(expression_view(e)), None => None },
                    increment: match increment { Some(e) => Some(expression_view(e)), None => None },
                    body: statements_view(body@),
                },
            StatementKind::BreakStatement => StatementKindV::BreakStatement,
            StatementKind::ContinueStatement => StatementKindV::ContinueStatement,
            StatementKind::ReturnStatement(e) =>
                StatementKindV::ReturnStatement(match e { Some(e) => Some(expression_view(e)), None => None }),
            StatementKind::ExpressionStatement(e) =>
                StatementKindV::ExpressionStatement(expression_view(e)),
        },
    }
}

pub open spec fn expression_view(e: Expression) -> ExpressionV
    decreases e, 0int,
{
    ExpressionV {
        position: e.position,
        value: match e.value {
            ExpressionKind::Identifier(id) => ExpressionKindV::Identifier(id),
            ExpressionKind::Integer(n) => ExpressionKindV::Integer(n),
            ExpressionKind::Double(t) => ExpressionKindV::Double(t@),
            ExpressionKind::Function { name, parameters, body } =>
                ExpressionKindV::Function {
                    name,
                    parameters: expressions_view(parameters@),
                    body: statements_view(body@),
                },
            ExpressionKind::UnaryOperation(op, a) =>
                ExpressionKindV::UnaryOperation(op, Box::new(expression_view(*a))),
            ExpressionKind::BinaryOperation(a, op, b) =>
                ExpressionKindV::BinaryOperation(Box::new(expression_view(*a)), op, Box::new(expression_view(*b))),
            ExpressionKind::Call(f, args) =>
                ExpressionKindV::Call(Box::new(expression_view(*f)), expressions_view(args@)),
            ExpressionKind::Index(a, b) =>
                ExpressionKindV::Index(Box::new(expression_view(*a)), Box::new(expression_view(*b))),
        },
    }
}

impl View for Statement {
    type V = StatementV;

    open spec fn view(&self) -> StatementV {
        statement_view(*self)
    }
}

impl View for Expression {
    type V = ExpressionV;

    open spec fn view(&self) -> ExpressionV {
        expression_view(*self)
    }
}

// ---------------------------------------------------------------------------
// Copies. The trees are recursive, so the copies are written out: each is
// the same tree, as its view shows.

fn clone_expression(e: &Expression) -> (r: Expression)
    ensures
        r@ == e@,
    decreases *e,
{
    let value = match &e.value {
        ExpressionKind::Identifier(id) => ExpressionKind::Identifier(*id),
        ExpressionKind::Integer(n) => ExpressionKind::Integer(*n),
        ExpressionKind::Double(t) => ExpressionKind::Double(t.clone()),
        ExpressionKind::Function { name, parameters, body } => ExpressionKind::Function {
            name: *name,
            parameters: clone_expressions(parameters),
            body: clone_statements(body),
        },
        ExpressionKind::UnaryOperation(op, a) =>
            ExpressionKind::UnaryOperation(*op, Box::new(clone_expression(a))),
        ExpressionKind::BinaryOperation(a, op, b) =>
            ExpressionKind::BinaryOperation(Box::new(clone_expression(a)), *op, Box::new(clone_expression(b))),
        ExpressionKind::Call(f, args) =>
            ExpressionKind::Call(Box::new(clone_expression(f)), clone_expressions(args)),
        ExpressionKind::Index(a, b) =>
            ExpressionKind::Index(Box::new(clone_expression(a)), Box::new(clone_expression(b))),
    };
    Expression { position: e.position, value }
}

fn clone_optional_expression(e: &Option<Expression>) -> (r: Option<Expression>)
    ensures
        match (r, *e) {
            (Some(a), Some(b)) => a@ == b@,
            (None, None) => true,
            _ => false,
        },
    decreases *e,
{
    match e {
        Some(x) => Some(clone_expression(x)),
        None => None,
    }
}

fn clone_expressions(v: &Vec<Expression>) -> (r: Vec<Expression>)
    ensures
        expressions_view(r@) == expressions_view(v@),
    decreases v@,
{
    let mut r: Vec<Expression> = Vec::new();
    let mut i: usize = 0;
    while i < v.len()
        invariant
            i <= v@.len(),
            r@.len() == i,
            forall|j: int| 0 <= j < i ==> expression_view(#[trigger] r@[j]) == expression_view(v@[j]),
        decreases v@.len() - i,
    {
        assert(decreases_to!(v@ => v@[i as int]));
        let x = clone_expression(&v[i]);
        r.push(x);
        i += 1;
    }
    assert(expressions_view(r@) =~= expressions_view(v@));
    r
}

fn clone_statement(s: &Statement) -> (r: Statement)
    ensures
        r@ == s@,
    decreases *s,
{
    let value = match &s.value {
        StatementKind::FunctionDeclaration { name, parameters, body } => StatementKind::FunctionDeclaration {
            name: clone_expression(name),
            parameters: clone_expressions(parameters),
            body: clone_statements(body),
        },
        StatementKind::LetDeclaration { name, value } => StatementKind::LetDeclaration {
            name: clone_expression(name),
            value: clone_optional_expression(value),
        },
        StatementKind::IfStatement { predicate, then_body, else_body } => StatementKind::IfStatement {
            predicate: clone_expression(predicate),
            then_body: clone_statements(then_body),
            else_body: match else_body {
                Some(b) => Some(clone_statements(b)),
                None => None,
            },
        },
        StatementKind::WhileStatement { predicate, body } => StatementKind::WhileStatement {
            predicate: clone_expression(predicate),
            body: clone_statements(body),
        },
        StatementKind::ForStatement { initializer, predicate, increment, body } => StatementKind::ForStatement {
            initializer: match initializer {
                Some(b) => Some(Box::new(clone_statement(b))),
                None => None,
            },
            predicate: clone_optional_expression(predicate),
            increment: clone_optional_expression(increment),
            body: clone_statements(body),
        },
        StatementKind::BreakStatement => StatementKind::BreakStatement,
        StatementKind::ContinueStatement => StatementKind::ContinueStatement,
        StatementKind::ReturnStatement(e) => StatementKind::ReturnStatement(clone_optional_expression(e)),
        StatementKind::ExpressionStatement(e) => StatementKind::ExpressionStatement(clone_expression(e)),
    };
    Statement { position: s.position, value }
}

fn clone_statements(v: &Vec<Statement>) -> (r: Vec<Statement>)
    ensures
        statements_view(r@) == statements_view(v@),
    decreases v@,
{
    let mut r: Vec<Statement> = Vec::new();
    let mut i: usize = 0;
    while i < v.len()
        invariant
            i <= v@.len(),
            r@.len() == i,
            forall|j: int| 0 <= j < i ==> statement_view(#[trigger] r@[j]) == statement_view(v@[j]),
        decreases v@.len() - i,
    {
        assert(decreases_to!(v@ => v@[i as int]));
        let x = clone_statement(&v[i]);
        r.push(x);
        i += 1;
    }
    assert(statements_view(r@) =~= statements_view(v@));
    r
}

impl Clone for Statement {
    /// The same statement.
    fn clone(&self) -> (r: Self)
        ensures
            r@ == self@,
    {
        clone_statement(self)
    }
}

impl Clone for Expression {
    /// The same expression.
    fn clone(&self) -> (r: Self)
        ensures
            r@ == self@,
    {
        clone_expression(self)
    }
}

} // verus!
