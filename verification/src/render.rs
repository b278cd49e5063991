//! The canonical text of a syntax tree, in which every operation stands in
//! parentheses of its own.
//!
//! [`render_expression`], [`render_statement`] and [`render_program`] state
//! the text of a tree; the `to_string` methods are proved to produce it.

use crate::ast::{Expr, Expression, InfixOperator, PrefixOperator, Program, Statement, Stmt};
use crate::ast::{expressions_view, statements_view};
use vstd::prelude::*;

verus! {

/// The text of a decimal digit.
pub open spec fn digit_text(digit: int) -> Seq<char> {
    if digit == 0 {
        "0"@
    } else if digit == 1 {
        "1"@
    } else if digit == 2 {
        "2"@
    } else if digit == 3 {
        "3"@
    } else if digit == 4 {
        "4"@
    } else if digit == 5 {
        "5"@
    } else if digit == 6 {
        "6"@
    } else if digit == 7 {
        "7"@
    } else if digit == 8 {
        "8"@
    } else {
        "9"@
    }
}

/// The decimal digits of a natural number, without leading zeros.
pub open spec fn render_natural(n: nat) -> Seq<char>
    decreases n,
{
    if n < 10 {
        digit_text(n as int)
    } else {
        render_natural(n / 10) + digit_text((n % 10) as int)
    }
}

/// The decimal text of an integer, with `-` before a negative one.
pub open spec fn render_integer(value: int) -> Seq<char> {
    if value < 0 {
        "-"@ + render_natural((-value) as nat)
    } else {
        render_natural(value as nat)
    }
}

/// The symbol of a unary operator.
pub open spec fn prefix_symbol(operator: PrefixOperator) -> Seq<char> {
    match operator {
        PrefixOperator::Not => "!"@,
        PrefixOperator::Negative => "-"@,
    }
}

/// The symbol of a binary operator.
pub open spec fn infix_symbol(operator: InfixOperator) -> Seq<char> {
    match operator {
        InfixOperator::Add => "+"@,
        InfixOperator::Sub => "-"@,
        InfixOperator::Mult => "*"@,
        InfixOperator::Div => "/"@,
        InfixOperator::Equal => "=="@,
        InfixOperator::NotEqual => "!="@,
        InfixOperator::GreaterThan => ">"@,
        InfixOperator::LessThan => "<"@,
    }
}

/// The text of an expression. A unary operation reads `(-x)`, a binary one
/// `(x + y)`, a conditional `if (c) { .. } else { .. }`, a function literal
/// `fn(x, y) { .. }` and a call `f(a, b)`.
pub open spec fn render_expression(tree: Expr) -> Seq<char>
    decreases tree, 0nat,
{
    match tree {
        Expr::Identifier(name) => name,
        Expr::Int(value) => render_integer(value as int),
        Expr::Bool(value) => if value {
            "true"@
        } else {
            "false"@
        },
        Expr::Prefix { operator, operand } => "("@ + prefix_symbol(operator) + render_expression(
            *operand,
        ) + ")"@,
        Expr::Infix { operator, left, right } => "("@ + render_expression(*left) + " "@
            + infix_symbol(operator) + " "@ + render_expression(*right) + ")"@,
        Expr::If { condition, consequence, alternative } => "if ("@ + render_expression(
            *condition,
        ) + ") "@ + render_block(consequence) + match alternative {
            Some(block) => " else "@ + render_block(block),
            None => Seq::empty(),
        },
        Expr::Function { parameters, body } => "fn("@ + render_list(parameters, 0) + ") "@
            + render_block(body),
        Expr::Call { function, arguments } => render_expression(*function) + "("@ + render_list(
            arguments,
            0,
        ) + ")"@,
    }
}

/// The text of the expressions of `list` from index `from` on, each but the
/// very first of the list behind `, `.
pub open spec fn render_list(list: Seq<Expr>, from: nat) -> Seq<char>
    decreases list, list.len() - from,
{
    if from >= list.len() {
        Seq::empty()
    } else if from == 0 {
        render_expression(list[0]) + render_list(list, 1)
    } else {
        ", "@ + render_expression(list[from as int]) + render_list(list, from + 1)
    }
}

/// The text of the block that holds the statements of `list`: `{ `, each
/// statement followed by a space, and `}`.
pub open spec fn render_block(list: Seq<Stmt>) -> Seq<char>
    decreases list, list.len() + 1,
{
    "{ "@ + render_block_items(list, 0) + "}"@
}

/// The text of the statements of `list` from index `from` on, each followed
/// by a space.
pub open spec fn render_block_items(list: Seq<Stmt>, from: nat) -> Seq<char>
    decreases list, list.len() - from,
{
    if from >= list.len() {
        Seq::empty()
    } else {
        render_statement(list[from as int]) + " "@ + render_block_items(list, from + 1)
    }
}

/// The text of a statement: `let x = v;`, `return v;`, or the bare expression.
pub open spec fn render_statement(tree: Stmt) -> Seq<char>
    decreases tree, 0nat,
{
    match tree {
        Stmt::Let { name, value } => "let "@ + name + " = "@ + render_expression(value) + ";"@,
        Stmt::Return { value } => "return "@ + render_expression(value) + ";"@,
        Stmt::Expression(value) => render_expression(value),
    }
}

/// The text of the statements of a program from index `from` on, each
/// followed by a line break.
pub open spec fn render_lines(program: Seq<Stmt>, from: nat) -> Seq<char>
    decreases program.len() - from,
{
    if from >= program.len() {
        Seq::empty()
    } else {
        render_statement(program[from as int]) + "\n"@ + render_lines(program, from + 1)
    }
}

/// The text of a program: one statement to a line.
pub open spec fn render_program(program: Seq<Stmt>) -> Seq<char> {
    render_lines(program, 0)
}

fn digit_str(digit: u64) -> (text: &'static str)
    requires
        digit < 10,
    ensures
        text@ == digit_text(digit as int),
{
    if digit == 0 {
        "0"
    } else if digit == 1 {
        "1"
    } else if digit == 2 {
        "2"
    } else if digit == 3 {
        "3"
    } else if digit == 4 {
        "4"
    } else if digit == 5 {
        "5"
    } else if digit == 6 {
        "6"
    } else if digit == 7 {
        "7"
    } else if digit == 8 {
        "8"
    } else {
        "9"
    }
}

/// Appends the decimal digits of `n` to `out`.
fn write_natural(n: u64, out: &mut String)
    ensures
        final(out)@ == old(out)@ + render_natural(n as nat),
    decreases n,
{
    if n >= 10 {
        write_natural(n / 10, out);
    }
    out.append(digit_str(n % 10));
    assert(out@ =~= old(out)@ + render_natural(n as nat));
}

/// Appends the decimal text of `value` to `out`.
fn write_integer(value: i64, out: &mut String)
    ensures
        final(out)@ == old(out)@ + render_integer(value as int),
{
    if value < 0 {
        out.append("-");
        let magnitude: u64 = if value == i64::MIN {
            0x8000_0000_0000_0000u64
        } else {
            (-value) as u64
        };
        write_natural(magnitude, out);
        assert(out@ =~= old(out)@ + render_integer(value as int));
    } else {
        write_natural(value as u64, out);
    }
}

fn prefix_str(operator: &PrefixOperator) -> (text: &'static str)
    ensures
        text@ == prefix_symbol(*operator),
{
    match operator {
        PrefixOperator::Not => "!",
        PrefixOperator::Negative => "-",
    }
}

fn infix_str(operator: &InfixOperator) -> (text: &'static str)
    ensures
        text@ == infix_symbol(*operator),
{
    match operator {
        InfixOperator::Add => "+",
        InfixOperator::Sub => "-",
        InfixOperator::Mult => "*",
        InfixOperator::Div => "/",
        InfixOperator::Equal => "==",
        InfixOperator::NotEqual => "!=",
        InfixOperator::GreaterThan => ">",
        InfixOperator::LessThan => "<",
    }
}

/// Appends the text of `tree` to `out`.
fn write_expression(tree: &Expression, out: &mut String)
    ensures
        final(out)@ == old(out)@ + render_expression(tree@),
    decreases tree, 1nat,
{
    match tree {
        Expression::Identifier(name) => {
            out.append(name.as_str());
        },
        Expression::Int(value) => {
            write_integer(*value, out);
        },
        Expression::Bool(value) => {
            if *value {
                out.append("true");
            } else {
                out.append("false");
            }
        },
        Expression::Prefix { operator, operand } => {
            out.append("(");
            out.append(prefix_str(operator));
            write_expression(operand, out);
            out.append(")");
            assert(out@ =~= old(out)@ + render_expression(tree@));
        },
        Expression::Infix { operator, left, right } => {
            out.append("(");
            write_expression(left, out);
            out.append(" ");
            out.append(infix_str(operator));
            out.append(" ");
            write_expression(right, out);
            out.append(")");
            assert(out@ =~= old(out)@ + render_expression(tree@));
        },
        Expression::If { .. } => {
            write_if(tree, out);
        },
        Expression::Function { parameters, body } => {
            out.append("fn(");
            write_list(parameters, out);
            out.append(") ");
            write_block(body, out);
            assert(out@ =~= old(out)@ + render_expression(tree@));
        },
        Expression::Call { function, arguments } => {
            write_expression(function, out);
            out.append("(");
            write_list(arguments, out);
            out.append(")");
            assert(out@ =~= old(out)@ + render_expression(tree@));
        },
    }
}

/// Appends the text of the conditional `tree` to `out`.
fn write_if(tree: &Expression, out: &mut String)
    requires
        tree is If,
    ensures
        final(out)@ == old(out)@ + render_expression(tree@),
    decreases tree, 0nat,
{
    match tree {
        Expression::If { condition, consequence, alternative } => {
            out.append("if (");
            write_expression(condition, out);
            out.append(") ");
            write_block(consequence, out);
            let ghost before = out@;
            match alternative {
                Some(block) => {
                    out.append(" else ");
                    write_block(block, out);
                    assert(out@ =~= before + (" else "@ + render_block(statements_view(*block))));
                },
                None => {
                    assert(out@ =~= before + Seq::<char>::empty());
                },
            }
            assert(out@ =~= old(out)@ + render_expression(tree@));
        },
        _ => {},
    }
}

/// Appends the texts of the expressions of `list`, separated by `, `.
fn write_list(list: &Vec<Expression>, out: &mut String)
    ensures
        final(out)@ == old(out)@ + render_list(expressions_view(*list), 0),
    decreases list, 0nat,
{
    let ghost values = expressions_view(*list);
    let mut i: usize = 0;
    while i < list.len()
        invariant
            i <= list.len(),
            values == expressions_view(*list),
            out@ + render_list(values, i as nat) == old(out)@ + render_list(values, 0),
        decreases list.len() - i,
    {
        let ghost before = out@;
        if i > 0 {
            out.append(", ");
        }
        write_expression(&list[i], out);
        assert(out@ + render_list(values, (i + 1) as nat) =~= before + render_list(
            values,
            i as nat,
        ));
        i += 1;
    }
    assert(out@ + render_list(values, i as nat) =~= out@);
}

/// Appends the text of the block that holds the statements of `list`.
fn write_block(list: &Vec<Statement>, out: &mut String)
    ensures
        final(out)@ == old(out)@ + render_block(statements_view(*list)),
    decreases list, 0nat,
{
    let ghost values = statements_view(*list);
    out.append("{ ");
    let mut i: usize = 0;
    while i < list.len()
        invariant
            i <= list.len(),
            values == statements_view(*list),
            out@ + render_block_items(values, i as nat) == old(out)@ + "{ "@
                + render_block_items(values, 0),
        decreases list.len() - i,
    {
        let ghost before = out@;
        write_statement(&list[i], out);
        out.append(" ");
        assert(out@ + render_block_items(values, (i + 1) as nat) =~= before
            + render_block_items(values, i as nat));
        i += 1;
    }
    assert(out@ + render_block_items(values, i as nat) =~= out@);
    out.append("}");
    assert(out@ =~= old(out)@ + render_block(values));
}

/// Appends the text of `tree` to `out`.
fn write_statement(tree: &Statement, out: &mut String)
    ensures
        final(out)@ == old(out)@ + render_statement(tree@),
    decreases tree, 0nat,
{
    match tree {
        Statement::Let { name, value } => {
            out.append("let ");
            out.append(name.as_str());
            out.append(" = ");
            write_expression(value, out);
            out.append(";");
            assert(out@ =~= old(out)@ + render_statement(tree@));
        },
        Statement::Return { value } => {
            out.append("return ");
            write_expression(value, out);
            out.append(";");
            assert(out@ =~= old(out)@ + render_statement(tree@));
        },
        Statement::Expression(value) => {
            write_expression(value, out);
        },
    }
}

impl Expression {
    /// The canonical text of this expression.
    pub fn to_string(&self) -> (text: String)
        ensures
            text@ == render_expression(self@),
    {
        let mut text = String::new();
        write_expression(self, &mut text);
        assert(text@ =~= render_expression(self@));
        text
    }
}

impl Statement {
    /// The canonical text of this statement.
    pub fn to_string(&self) -> (text: String)
        ensures
            text@ == render_statement(self@),
    {
        let mut text = String::new();
        write_statement(self, &mut text);
        assert(text@ =~= render_statement(self@));
        text
    }
}

impl Program {
    /// The canonical text of this program: each statement on a line of its
    /// own.
    pub fn to_string(&self) -> (text: String)
        ensures
            text@ == render_program(self@),
    {
        let mut text = String::new();
        let mut i: usize = 0;
        while i < self.statements.len()
            invariant
                i <= self.statements.len(),
                text@ + render_lines(self@, i as nat) == render_program(self@),
            decreases self.statements.len() - i,
        {
            let ghost before = text@;
            write_statement(&self.statements[i], &mut text);
            text.append("\n");
            assert(text@ + render_lines(self@, (i + 1) as nat) =~= before + render_lines(
                self@,
                i as nat,
            ));
            i += 1;
        }
        assert(text@ + render_lines(self@, i as nat) =~= text@);
        text
    }
}

} // verus!
