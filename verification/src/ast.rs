//! The syntax tree: operators, expressions and statements, each with the
//! mathematical value that specifications speak of.

use crate::compiler_settings::spells;
use vstd::prelude::*;

verus! {

/// The binary operators. All of them associate to the left.
#[derive(Clone, Copy, Debug, PartialEq, Eq, Structural)]
pub enum Operator {
    Add,
    Sub,
    Mul,
    Div,
    LessThan,
    GreaterThan,
    LessOrEqual,
    GreaterOrEqual,
    Equal,
    NotEqual,
}

/// The precedence of the operators that bind tightest.
pub const HIGHEST_PRECEDENCE: u8 = 2;

impl Operator {
    /// How tightly the operator binds: comparisons 0, addition and
    /// subtraction 1, multiplication and division 2.
    pub open spec fn level(self) -> nat {
        match self {
            Operator::Mul | Operator::Div => 2,
            Operator::Add | Operator::Sub => 1,
            _ => 0,
        }
    }

    /// How tightly the operator binds.
    pub fn precedence(&self) -> (level: u8)
        ensures
            level == self.level(),
            level <= HIGHEST_PRECEDENCE,
    {
        match self {
            Operator::Mul | Operator::Div => 2,
            Operator::Add | Operator::Sub => 1,
            _ => 0,
        }
    }
}

/// The operator that `spelling` writes, if it writes one.
pub open spec fn operator(spelling: Seq<char>) -> Option<Operator> {
    if spelling == "+"@ {
        Some(Operator::Add)
    } else if spelling == "-"@ {
        Some(Operator::Sub)
    } else if spelling == "*"@ {
        Some(Operator::Mul)
    } else if spelling == "/"@ {
        Some(Operator::Div)
    } else if spelling == "<"@ {
        Some(Operator::LessThan)
    } else if spelling == ">"@ {
        Some(Operator::GreaterThan)
    } else if spelling == "<="@ {
        Some(Operator::LessOrEqual)
    } else if spelling == ">="@ {
        Some(Operator::GreaterOrEqual)
    } else if spelling == "=="@ {
        Some(Operator::Equal)
    } else if spelling == "!="@ {
        Some(Operator::NotEqual)
    } else {
        None
    }
}

/// Looks `text` up in the table of operators.
pub fn find_operator(text: &[char]) -> (found: Option<Operator>)
    ensures
        found == operator(text@),
{
    if spells(text, "+") {
        Some(Operator::Add)
    } else if spells(text, "-") {
        Some(Operator::Sub)
    } else if spells(text, "*") {
        Some(Operator::Mul)
    } else if spells(text, "/") {
        Some(Operator::Div)
    } else if spells(text, "<") {
        Some(Operator::LessThan)
    } else if spells(text, ">") {
        Some(Operator::GreaterThan)
    } else if spells(text, "<=") {
        Some(Operator::LessOrEqual)
    } else if spells(text, ">=") {
        Some(Operator::GreaterOrEqual)
    } else if spells(text, "==") {
        Some(Operator::Equal)
    } else if spells(text, "!=") {
        Some(Operator::NotEqual)
    } else {
        None
    }
}

/// An expression.
#[derive(Debug, PartialEq, Eq)]
pub enum Expression {
    /// An integer literal.
    Number(i64),
    /// A string literal, without its quotes.
    String(String),
    /// A reference to a variable by its name.
    Variable(String),
    /// Two operands joined by a binary operator.
    Operation { left: Box<Expression>, operator: Operator, right: Box<Expression> },
    /// A call of the function `target` on the arguments, in their order.
    FunctionCall { target: String, args: Vec<Expression> },
}

/// What an `Expression` stands for in specifications.
pub enum ExpressionView {
    Number(int),
    String(Seq<char>),
    Variable(Seq<char>),
    Operation { left: Box<ExpressionView>, operator: Operator, right: Box<ExpressionView> },
    FunctionCall { target: Seq<char>, args: Seq<ExpressionView> },
}

/// The value of an expression: the same tree over integers and sequences.
pub open spec fn expression_view(expression: Expression) -> ExpressionView
    decreases expression,
{
    match expression {
        Expression::Number(n) => ExpressionView::Number(n as int),
        Expression::String(text) => ExpressionView::String(text@),
        Expression::Variable(name) => ExpressionView::Variable(name@),
        Expression::Operation { left, operator, right } => ExpressionView::Operation {
            left: Box::new(expression_view(*left)),
            operator,
            right: Box::new(expression_view(*right)),
        },
        Expression::FunctionCall { target, args } => ExpressionView::FunctionCall {
            target: target@,
            args: Seq::new(
                args.len() as nat,
                |i: int|
                    if 0 <= i < args.len() {
                        expression_view(args[i])
                    } else {
                        ExpressionView::Number(0)
                    },
            ),
        },
    }
}

impl View for Expression {
    type V = ExpressionView;

    open spec fn view(&self) -> ExpressionView {
        expression_view(*self)
    }
}

impl DeepView for Expression {
    type V = ExpressionView;

    open spec fn deep_view(&self) -> ExpressionView {
        expression_view(*self)
    }
}

/// A statement.
#[derive(Debug, PartialEq, Eq)]
pub enum Statement {
    /// An expression evaluated for its effect: a call, or a value returned.
    ExpressionStatement(Expression),
    /// The binding of a value to a name.
    VariableAssignment { name: String, value: Expression },
    /// The definition of a function. Its parameters are written in the
    /// grammar of arguments, so each of them is an expression.
    FunctionAssignment { name: String, arguments: Vec<Expression>, body: Vec<Statement> },
    /// A body that runs if the condition holds.
    ConditionalStatement { condition: Expression, body: Vec<Statement> },
    /// A body that runs as long as the condition holds.
    While { condition: Expression, body: Vec<Statement> },
}

/// What a `Statement` stands for in specifications.
pub enum StatementView {
    ExpressionStatement(ExpressionView),
    VariableAssignment { name: Seq<char>, value: ExpressionView },
    FunctionAssignment {
        name: Seq<char>,
        arguments: Seq<ExpressionView>,
        body: Seq<StatementView>,
    },
    ConditionalStatement { condition: ExpressionView, body: Seq<StatementView> },
    While { condition: ExpressionView, body: Seq<StatementView> },
}

/// The values of the statements of a body, in their order.
pub open spec fn body_view(body: Vec<Statement>) -> Seq<StatementView>
    decreases body, 1int,
{
    Seq::new(
        body.len() as nat,
        |i: int|
            if 0 <= i < body.len() {
                statement_view(body[i])
            } else {
                StatementView::ExpressionStatement(ExpressionView::Number(0))
            },
    )
}

/// The value of a statement: the same tree over integers and sequences.
pub open spec fn statement_view(statement: Statement) -> StatementView
    decreases statement, 0int,
{
    match statement {
        Statement::ExpressionStatement(expression) => StatementView::ExpressionStatement(
            expression@,
        ),
        Statement::VariableAssignment { name, value } => StatementView::VariableAssignment {
            name: name@,
            value: value@,
        },
        Statement::FunctionAssignment { name, arguments, body } => {
            StatementView::FunctionAssignment {
                name: name@,
                arguments: arguments.deep_view(),
                body: body_view(body),
            }
        },
        Statement::ConditionalStatement { condition, body } => {
            StatementView::ConditionalStatement { condition: condition@, body: body_view(body) }
        },
        Statement::While { condition, body } => StatementView::While {
            condition: condition@,
            body: body_view(body),
        },
    }
}

impl View for Statement {
    type V = StatementView;

    open spec fn view(&self) -> StatementView {
        statement_view(*self)
    }
}

impl DeepView for Statement {
    type V = StatementView;

    open spec fn deep_view(&self) -> StatementView {
        statement_view(*self)
    }
}

/// The arguments of a call, seen as values, are the values of its arguments.
pub proof fn lemma_call_view(target: String, args: Vec<Expression>)
    ensures
        (Expression::FunctionCall { target, args })@ == (ExpressionView::FunctionCall {
            target: target@,
            args: args.deep_view(),
        }),
{
    let call = Expression::FunctionCall { target, args };
    assert(call@->FunctionCall_args =~= args.deep_view());
}

/// A body, seen as values, is the values of its statements.
pub proof fn lemma_body_view(body: Vec<Statement>)
    ensures
        body_view(body) == body.deep_view(),
{
    assert(body_view(body) =~= body.deep_view());
}

} // verus!
