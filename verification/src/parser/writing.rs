//! The canonical writing of a syntax tree as tokens, in which every
//! operation stands in parentheses of its own.
//!
//! Each function here prepends the tokens of a tree to the tokens that
//! follow it, `tail`. The canonical text of `crate::render` is this writing
//! spelled out in characters.

use crate::ast::{Expr, Stmt};
use crate::parser::phrase::{cons, infix_token, prefix_token};
use crate::render::render_integer;
use crate::token::Tok;
use vstd::prelude::*;

verus! {

/// The tokens of `tree`, followed by `tail`.
pub open spec fn written_expression(tree: Expr, tail: Seq<Tok>) -> Seq<Tok>
    decreases tree, 0nat,
{
    match tree {
        Expr::Identifier(name) => cons(Tok::Identifier(name), tail),
        Expr::Int(value) => cons(Tok::Integer(render_integer(value as int)), tail),
        Expr::Bool(value) => cons(
            if value {
                Tok::True
            } else {
                Tok::False
            },
            tail,
        ),
        Expr::Prefix { operator, operand } => cons(
            Tok::LParen,
            cons(prefix_token(operator), written_expression(*operand, cons(Tok::RParen, tail))),
        ),
        Expr::Infix { operator, left, right } => cons(
            Tok::LParen,
            written_expression(
                *left,
                cons(infix_token(operator), written_expression(*right, cons(Tok::RParen, tail))),
            ),
        ),
        Expr::If { condition, consequence, alternative } => cons(
            Tok::If,
            cons(
                Tok::LParen,
                written_expression(
                    *condition,
                    cons(
                        Tok::RParen,
                        written_block(
                            consequence,
                            match alternative {
                                Some(block) => cons(Tok::Else, written_block(block, tail)),
                                None => tail,
                            },
                        ),
                    ),
                ),
            ),
        ),
        Expr::Function { parameters, body } => cons(
            Tok::Function,
            cons(
                Tok::LParen,
                written_list(parameters, 0, cons(Tok::RParen, written_block(body, tail))),
            ),
        ),
        Expr::Call { function, arguments } => written_expression(
            *function,
            cons(Tok::LParen, written_list(arguments, 0, cons(Tok::RParen, tail))),
        ),
    }
}

/// The tokens of the expressions of `list` from index `from` on, each but
/// the very first of the list behind a comma, followed by `tail`.
pub open spec fn written_list(list: Seq<Expr>, from: nat, tail: Seq<Tok>) -> Seq<Tok>
    decreases list, list.len() - from,
{
    if from >= list.len() {
        tail
    } else if from == 0 {
        written_expression(list[0], written_list(list, 1, tail))
    } else {
        cons(Tok::Comma, written_expression(list[from as int], written_list(list, from + 1, tail)))
    }
}

/// The tokens of the block that holds the statements of `list`, followed by
/// `tail`.
pub open spec fn written_block(list: Seq<Stmt>, tail: Seq<Tok>) -> Seq<Tok>
    decreases list, list.len() + 1,
{
    cons(Tok::LBrace, written_statements(list, 0, cons(Tok::RBrace, tail)))
}

/// The tokens of the statements of `list` from index `from` on, followed by
/// `tail`.
pub open spec fn written_statements(list: Seq<Stmt>, from: nat, tail: Seq<Tok>) -> Seq<Tok>
    decreases list, list.len() - from,
{
    if from >= list.len() {
        tail
    } else {
        written_statement(list[from as int], written_statements(list, from + 1, tail))
    }
}

/// The tokens of `tree`, followed by `tail`. A `let` and a `return` end in
/// `;`, an expression used as a statement does not.
pub open spec fn written_statement(tree: Stmt, tail: Seq<Tok>) -> Seq<Tok>
    decreases tree, 0nat,
{
    match tree {
        Stmt::Let { name, value } => cons(
            Tok::Let,
            cons(
                Tok::Identifier(name),
                cons(Tok::Assign, written_expression(value, cons(Tok::Semicolon, tail))),
            ),
        ),
        Stmt::Return { value } => cons(
            Tok::Return,
            written_expression(value, cons(Tok::Semicolon, tail)),
        ),
        Stmt::Expression(value) => written_expression(value, tail),
    }
}

/// The tokens of a program.
pub open spec fn written_program(program: Seq<Stmt>) -> Seq<Tok> {
    written_statements(program, 0, Seq::empty())
}

/// The trees whose writing the parser reads back as the same tree. The
/// parser passes exactly one token behind each statement of a block, so a
/// block that is read back holds at most one statement, and that one is an
/// expression; and the parameters of a function are identifiers.
pub open spec fn writable_expression(tree: Expr) -> bool
    decreases tree, 0nat,
{
    match tree {
        Expr::Identifier(_) => true,
        Expr::Int(_) => true,
        Expr::Bool(_) => true,
        Expr::Prefix { operator, operand } => writable_expression(*operand),
        Expr::Infix { operator, left, right } => writable_expression(*left) && writable_expression(
            *right,
        ),
        Expr::If { condition, consequence, alternative } => writable_expression(*condition)
            && writable_block(consequence) && match alternative {
            Some(block) => writable_block(block),
            None => true,
        },
        Expr::Function { parameters, body } => (forall|i: int|
            0 <= i < parameters.len() ==> #[trigger] parameters[i] is Identifier) && writable_block(
            body,
        ),
        Expr::Call { function, arguments } => writable_expression(*function) && forall|i: int|
            0 <= i < arguments.len() ==> writable_expression(#[trigger] arguments[i]),
    }
}

/// A block that is read back: empty, or one expression that is.
pub open spec fn writable_block(list: Seq<Stmt>) -> bool
    decreases list, 1nat,
{
    list.len() == 0 || (list.len() == 1 && match list[0] {
        Stmt::Expression(value) => writable_expression(value),
        _ => false,
    })
}

/// A statement that is read back: one whose expression is.
pub open spec fn writable_statement(tree: Stmt) -> bool {
    match tree {
        Stmt::Let { name, value } => writable_expression(value),
        Stmt::Return { value } => writable_expression(value),
        Stmt::Expression(value) => writable_expression(value),
    }
}

/// A program that is read back: its statements are, and each but the last
/// ends in `;`, which is where the parser looks for the next statement.
pub open spec fn writable_program(program: Seq<Stmt>) -> bool {
    &&& forall|i: int| 0 <= i < program.len() ==> writable_statement(#[trigger] program[i])
    &&& forall|i: int| 0 <= i < program.len() - 1 ==> !(#[trigger] program[i] is Expression)
}

} // verus!
