//! The syntax tree that the parser builds: programs, statements, expressions.

use vstd::prelude::*;

verus! {

/// A unary operator written before its operand.
#[derive(Debug, Clone, Copy, PartialEq, Eq)]
pub enum PrefixOperator {
    /// Logical negation, `!`.
    Not,
    /// Arithmetic negation, `-`.
    Negative,
}

/// A binary operator written between its operands.
#[derive(Debug, Clone, Copy, PartialEq, Eq)]
pub enum InfixOperator {
    Add,
    Sub,
    Mult,
    Div,
    Equal,
    NotEqual,
    GreaterThan,
    LessThan,
}

/// An expression. Every node owns its children: the tree has no sharing.
#[derive(Debug, PartialEq, Eq)]
#[allow(inconsistent_fields)]
pub enum Expression {
    Identifier(String),
    /// An integer literal.
    Int(i64),
    /// A boolean literal.
    Bool(bool),
    Prefix { operator: PrefixOperator, operand: Box<Expression> },
    Infix { operator: InfixOperator, left: Box<Expression>, right: Box<Expression> },
    If {
        condition: Box<Expression>,
        consequence: Vec<Statement>,
        alternative: Option<Vec<Statement>>,
    },
    /// A function literal; the parser only ever stores identifiers as
    /// parameters.
    Function { parameters: Vec<Expression>, body: Vec<Statement> },
    /// A call; the callee is an arbitrary expression.
    Call { function: Box<Expression>, arguments: Vec<Expression> },
}

/// A statement.
#[derive(Debug, PartialEq, Eq)]
pub enum Statement {
    Let { name: String, value: Expression },
    Return { value: Expression },
    /// An expression used as a statement.
    Expression(Expression),
}

/// The mathematical value of an [`Expression`].
#[allow(inconsistent_fields)]
pub ghost enum Expr {
    Identifier(Seq<char>),
    Int(i64),
    Bool(bool),
    Prefix { operator: PrefixOperator, operand: Box<Expr> },
    Infix { operator: InfixOperator, left: Box<Expr>, right: Box<Expr> },
    If { condition: Box<Expr>, consequence: Seq<Stmt>, alternative: Option<Seq<Stmt>> },
    Function { parameters: Seq<Expr>, body: Seq<Stmt> },
    Call { function: Box<Expr>, arguments: Seq<Expr> },
}

/// The mathematical value of a [`Statement`].
pub ghost enum Stmt {
    Let { name: Seq<char>, value: Expr },
    Return { value: Expr },
    Expression(Expr),
}

/// The value of an expression tree.
pub open spec fn expression_view(e: Expression) -> Expr
    decreases e,
{
    match e {
        Expression::Identifier(name) => Expr::Identifier(name@),
        Expression::Int(value) => Expr::Int(value),
        Expression::Bool(value) => Expr::Bool(value),
        Expression::Prefix { operator, operand } => Expr::Prefix {
            operator,
            operand: Box::new(expression_view(*operand)),
        },
        Expression::Infix { operator, left, right } => Expr::Infix {
            operator,
            left: Box::new(expression_view(*left)),
            right: Box::new(expression_view(*right)),
        },
        Expression::If { condition, consequence, alternative } => Expr::If {
            condition: Box::new(expression_view(*condition)),
            consequence: statements_view(consequence),
            alternative: match alternative {
                Some(block) => Some(statements_view(block)),
                None => None,
            },
        },
        Expression::Function { parameters, body } => Expr::Function {
            parameters: expressions_view(parameters),
            body: statements_view(body),
        },
        Expression::Call { function, arguments } => Expr::Call {
            function: Box::new(expression_view(*function)),
            arguments: expressions_view(arguments),
        },
    }
}

/// The value of a statement.
pub open spec fn statement_view(s: Statement) -> Stmt
    decreases s,
{
    match s {
        Statement::Let { name, value } => Stmt::Let { name: name@, value: expression_view(value) },
        Statement::Return { value } => Stmt::Return { value: expression_view(value) },
        Statement::Expression(value) => Stmt::Expression(expression_view(value)),
    }
}

/// The values of a list of expressions, in order.
pub open spec fn expressions_view(list: Vec<Expression>) -> Seq<Expr>
    decreases list,
{
    Seq::new(
        list@.len(),
        |i: int|
            if 0 <= i < list@.len() {
                expression_view(list@[i])
            } else {
                arbitrary()
            },
    )
}

/// The values of a list of statements, in order.
pub open spec fn statements_view(list: Vec<Statement>) -> Seq<Stmt>
    decreases list,
{
    Seq::new(
        list@.len(),
        |i: int|
            if 0 <= i < list@.len() {
                statement_view(list@[i])
            } else {
                arbitrary()
            },
    )
}

impl View for Expression {
    type V = Expr;

    open spec fn view(&self) -> Expr {
        expression_view(*self)
    }
}

impl View for Statement {
    type V = Stmt;

    open spec fn view(&self) -> Stmt {
        statement_view(*self)
    }
}

/// A parsed program: its statements in source order.
#[derive(Debug, PartialEq, Eq)]
pub struct Program {
    pub statements: Vec<Statement>,
}

impl View for Program {
    type V = Seq<Stmt>;

    open spec fn view(&self) -> Seq<Stmt> {
        statements_view(self.statements)
    }
}

impl Program {
    /// The empty program.
    pub fn new() -> (program: Program)
        ensures
            program@ == Seq::<Stmt>::empty(),
    {
        Program { statements: Vec::new() }
    }
}

impl Expression {
    /// The identifier `name`.
    pub fn identifier(name: &str) -> (tree: Expression)
        ensures
            tree@ == Expr::Identifier(name@),
    {
        Expression::Identifier(name.to_owned())
    }

    /// `operator` applied to `operand`.
    pub fn prefix(operand: Expression, operator: PrefixOperator) -> (tree: Expression)
        ensures
            tree@ == (Expr::Prefix { operator, operand: Box::new(operand@) }),
    {
        Expression::Prefix { operator, operand: Box::new(operand) }
    }

    /// `operator` applied to `left` and `right`.
    pub fn infix(left: Expression, right: Expression, operator: InfixOperator) -> (tree:
        Expression)
        ensures
            tree@ == (Expr::Infix { operator, left: Box::new(left@), right: Box::new(right@) }),
    {
        Expression::Infix { operator, left: Box::new(left), right: Box::new(right) }
    }

    /// A conditional with its first block and, optionally, its `else` block.
    pub fn if_else(
        condition: Expression,
        consequence: Vec<Statement>,
        alternative: Option<Vec<Statement>>,
    ) -> (tree: Expression)
        ensures
            tree@ == (Expr::If {
                condition: Box::new(condition@),
                consequence: statements_view(consequence),
                alternative: match alternative {
                    Some(block) => Some(statements_view(block)),
                    None => None,
                },
            }),
    {
        Expression::If { condition: Box::new(condition), consequence, alternative }
    }

    /// A function literal.
    pub fn function(parameters: Vec<Expression>, body: Vec<Statement>) -> (tree: Expression)
        ensures
            tree@ == (Expr::Function {
                parameters: expressions_view(parameters),
                body: statements_view(body),
            }),
    {
        Expression::Function { parameters, body }
    }

    /// A call of `function` with `arguments`.
    pub fn call(function: Expression, arguments: Vec<Expression>) -> (tree: Expression)
        ensures
            tree@ == (Expr::Call {
                function: Box::new(function@),
                arguments: expressions_view(arguments),
            }),
    {
        Expression::Call { function: Box::new(function), arguments }
    }
}

impl Statement {
    /// The statement that binds `name` to `value`.
    pub fn let_binding(name: &str, value: Expression) -> (tree: Statement)
        ensures
            tree@ == (Stmt::Let { name: name@, value: value@ }),
    {
        Statement::Let { name: name.to_owned(), value }
    }

    /// The statement that returns `value`.
    pub fn return_value(value: Expression) -> (tree: Statement)
        ensures
            tree@ == (Stmt::Return { value: value@ }),
    {
        Statement::Return { value }
    }

    /// `value` used as a statement.
    pub fn expression(value: Expression) -> (tree: Statement)
        ensures
            tree@ == Stmt::Expression(value@),
    {
        Statement::Expression(value)
    }
}

/// Appending an expression to a list appends its value to the list's values.
pub proof fn lemma_expressions_view_push(
    before: Vec<Expression>,
    after: Vec<Expression>,
    last: Expression,
)
    requires
        after@ == before@.push(last),
    ensures
        expressions_view(after) == expressions_view(before).push(last@),
{
    assert(expressions_view(after) =~= expressions_view(before).push(last@));
}

/// Appending a statement to a list appends its value to the list's values.
pub proof fn lemma_statements_view_push(
    before: Vec<Statement>,
    after: Vec<Statement>,
    last: Statement,
)
    requires
        after@ == before@.push(last),
    ensures
        statements_view(after) == statements_view(before).push(last@),
{
    assert(statements_view(after) =~= statements_view(before).push(last@));
}

} // verus!
