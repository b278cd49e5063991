//! Well-formed input, stated without reference to the parser.
//!
//! A [`Phrase`] is an expression as it is written: a syntax tree that also
//! records where parentheses stand. [`spelled`] gives its tokens, and
//! [`meaning`] the syntax tree it denotes. [`well_formed`] holds where the
//! parentheses that precedence and associativity demand are all there. That
//! the tokens of a well-formed phrase parse to what the phrase means is the
//! theorem of `crate::parser::correctness`.

use crate::ast::{Expr, InfixOperator, PrefixOperator, Stmt};
use crate::parser::grammar::{advance, current, peek};
use crate::parser::number::integer_value;
use crate::parser::precedence::Precedence;
use crate::token::Tok;
use vstd::prelude::*;

verus! {

/// The stream that starts with `first` and goes on as `rest`.
#[verifier::opaque]
pub open spec fn cons(first: Tok, rest: Seq<Tok>) -> Seq<Tok> {
    seq![first] + rest
}

/// The first two tokens of a stream built with `cons`, and what follows.
pub broadcast proof fn lemma_cons(first: Tok, rest: Seq<Tok>)
    ensures
        current(#[trigger] cons(first, rest)) == first,
        peek(cons(first, rest)) == current(rest),
        advance(cons(first, rest)) == rest,
        cons(first, rest).len() == rest.len() + 1,
{
    reveal(cons);
    assert(cons(first, rest).skip(1) =~= rest);
    if rest.len() > 0 {
        assert(cons(first, rest)[1] == rest[0]);
    }
}

/// The token of a unary operator.
pub open spec fn prefix_token(operator: PrefixOperator) -> Tok {
    match operator {
        PrefixOperator::Not => Tok::Bang,
        PrefixOperator::Negative => Tok::Minus,
    }
}

/// The token of a binary operator.
pub open spec fn infix_token(operator: InfixOperator) -> Tok {
    match operator {
        InfixOperator::Add => Tok::Plus,
        InfixOperator::Sub => Tok::Minus,
        InfixOperator::Mult => Tok::Asterisk,
        InfixOperator::Div => Tok::Slash,
        InfixOperator::Equal => Tok::Eq,
        InfixOperator::NotEqual => Tok::NotEq,
        InfixOperator::GreaterThan => Tok::GT,
        InfixOperator::LessThan => Tok::LT,
    }
}

/// An expression as written.
#[allow(inconsistent_fields)]
pub ghost enum Phrase {
    Identifier(Seq<char>),
    /// An integer literal, by its text.
    Integer(Seq<char>),
    Bool(bool),
    /// A phrase in parentheses.
    Group(Box<Phrase>),
    Prefix { operator: PrefixOperator, operand: Box<Phrase> },
    Infix { operator: InfixOperator, left: Box<Phrase>, right: Box<Phrase> },
    If { condition: Box<Phrase>, consequence: Seq<Clause>, alternative: Option<Seq<Clause>> },
    /// A function literal, with its parameters by name.
    Function { parameters: Seq<Seq<char>>, body: Seq<Clause> },
    Call { function: Box<Phrase>, arguments: Seq<Phrase> },
}

/// What kind of statement a clause is.
pub ghost enum ClauseKind {
    /// A `let` of the given name.
    Let(Seq<char>),
    Return,
    Expression,
}

/// A statement as written: its kind, its expression, and whether a `;`
/// stands behind it.
pub ghost struct Clause {
    pub kind: ClauseKind,
    pub value: Phrase,
    pub terminated: bool,
}

/// The syntax tree that a phrase denotes: the phrase without its
/// parentheses, each literal replaced by its value.
pub open spec fn meaning(phrase: Phrase) -> Expr
    decreases phrase, 0nat,
{
    match phrase {
        Phrase::Identifier(name) => Expr::Identifier(name),
        Phrase::Integer(text) => Expr::Int(integer_value(text).unwrap()),
        Phrase::Bool(value) => Expr::Bool(value),
        Phrase::Group(inner) => meaning(*inner),
        Phrase::Prefix { operator, operand } => Expr::Prefix {
            operator,
            operand: Box::new(meaning(*operand)),
        },
        Phrase::Infix { operator, left, right } => Expr::Infix {
            operator,
            left: Box::new(meaning(*left)),
            right: Box::new(meaning(*right)),
        },
        Phrase::If { condition, consequence, alternative } => Expr::If {
            condition: Box::new(meaning(*condition)),
            consequence: clause_meanings(consequence),
            alternative: match alternative {
                Some(block) => Some(clause_meanings(block)),
                None => None,
            },
        },
        Phrase::Function { parameters, body } => Expr::Function {
            parameters: Seq::new(parameters.len(), |i: int| Expr::Identifier(parameters[i])),
            body: clause_meanings(body),
        },
        Phrase::Call { function, arguments } => Expr::Call {
            function: Box::new(meaning(*function)),
            arguments: meanings(arguments),
        },
    }
}

/// The syntax trees that the phrases of a list denote.
pub open spec fn meanings(list: Seq<Phrase>) -> Seq<Expr>
    decreases list, 1nat,
{
    Seq::new(
        list.len(),
        |i: int|
            if 0 <= i < list.len() {
                meaning(list[i])
            } else {
                arbitrary()
            },
    )
}

/// The statement that a clause denotes.
pub open spec fn clause_meaning(clause: Clause) -> Stmt
    decreases clause, 1nat,
{
    match clause.kind {
        ClauseKind::Let(name) => Stmt::Let { name, value: meaning(clause.value) },
        ClauseKind::Return => Stmt::Return { value: meaning(clause.value) },
        ClauseKind::Expression => Stmt::Expression(meaning(clause.value)),
    }
}

/// The statements that the clauses of a list denote.
pub open spec fn clause_meanings(list: Seq<Clause>) -> Seq<Stmt>
    decreases list, 2nat,
{
    Seq::new(
        list.len(),
        |i: int|
            if 0 <= i < list.len() {
                clause_meaning(list[i])
            } else {
                arbitrary()
            },
    )
}

/// The tokens of a phrase, followed by `tail`.
pub open spec fn spelled(phrase: Phrase, tail: Seq<Tok>) -> Seq<Tok>
    decreases phrase, 0nat,
{
    match phrase {
        Phrase::Identifier(name) => cons(Tok::Identifier(name), tail),
        Phrase::Integer(text) => cons(Tok::Integer(text), tail),
        Phrase::Bool(value) => cons(
            if value {
                Tok::True
            } else {
                Tok::False
            },
            tail,
        ),
        Phrase::Group(inner) => cons(Tok::LParen, spelled(*inner, cons(Tok::RParen, tail))),
        Phrase::Prefix { operator, operand } => cons(
            prefix_token(operator),
            spelled(*operand, tail),
        ),
        Phrase::Infix { operator, left, right } => spelled(
            *left,
            cons(infix_token(operator), spelled(*right, tail)),
        ),
        Phrase::If { condition, consequence, alternative } => cons(
            Tok::If,
            cons(
                Tok::LParen,
                spelled(
                    *condition,
                    cons(
                        Tok::RParen,
                        spelled_block(
                            consequence,
                            match alternative {
                                Some(block) => cons(Tok::Else, spelled_block(block, tail)),
                                None => tail,
                            },
                        ),
                    ),
                ),
            ),
        ),
        Phrase::Function { parameters, body } => cons(
            Tok::Function,
            cons(
                Tok::LParen,
                spelled_names(parameters, 0, cons(Tok::RParen, spelled_block(body, tail))),
            ),
        ),
        Phrase::Call { function, arguments } => spelled(
            *function,
            cons(Tok::LParen, spelled_list(arguments, 0, cons(Tok::RParen, tail))),
        ),
    }
}

/// The tokens of the phrases of `list` from index `from` on, each but the
/// very first of the list behind a comma, followed by `tail`.
pub open spec fn spelled_list(list: Seq<Phrase>, from: nat, tail: Seq<Tok>) -> Seq<Tok>
    decreases list, list.len() - from,
{
    if from >= list.len() {
        tail
    } else if from == 0 {
        spelled(list[0], spelled_list(list, 1, tail))
    } else {
        cons(Tok::Comma, spelled(list[from as int], spelled_list(list, from + 1, tail)))
    }
}

/// The tokens of the names of `list` from index `from` on, each but the
/// very first of the list behind a comma, followed by `tail`.
pub open spec fn spelled_names(list: Seq<Seq<char>>, from: nat, tail: Seq<Tok>) -> Seq<Tok>
    decreases list.len() - from,
{
    if from >= list.len() {
        tail
    } else if from == 0 {
        cons(Tok::Identifier(list[0]), spelled_names(list, 1, tail))
    } else {
        cons(
            Tok::Comma,
            cons(Tok::Identifier(list[from as int]), spelled_names(list, from + 1, tail)),
        )
    }
}

/// The tokens of a block of clauses, followed by `tail`.
pub open spec fn spelled_block(list: Seq<Clause>, tail: Seq<Tok>) -> Seq<Tok>
    decreases list, list.len() + 1,
{
    cons(Tok::LBrace, spelled_clauses(list, 0, cons(Tok::RBrace, tail)))
}

/// The tokens of the clauses of `list` from index `from` on, followed by
/// `tail`.
pub open spec fn spelled_clauses(list: Seq<Clause>, from: nat, tail: Seq<Tok>) -> Seq<Tok>
    decreases list, list.len() - from,
{
    if from >= list.len() {
        tail
    } else {
        spelled_clause(list[from as int], spelled_clauses(list, from + 1, tail))
    }
}

/// What stands behind the expression of a clause: its `;` if it has one,
/// and `tail`.
pub open spec fn clause_end(clause: Clause, tail: Seq<Tok>) -> Seq<Tok> {
    if clause.terminated {
        cons(Tok::Semicolon, tail)
    } else {
        tail
    }
}

/// The tokens of a clause, followed by `tail`.
pub open spec fn spelled_clause(clause: Clause, tail: Seq<Tok>) -> Seq<Tok>
    decreases clause, 0nat,
{
    match clause.kind {
        ClauseKind::Let(name) => cons(
            Tok::Let,
            cons(
                Tok::Identifier(name),
                cons(Tok::Assign, spelled(clause.value, clause_end(clause, tail))),
            ),
        ),
        ClauseKind::Return => cons(Tok::Return, spelled(clause.value, clause_end(clause, tail))),
        ClauseKind::Expression => spelled(clause.value, clause_end(clause, tail)),
    }
}

/// The tokens of a program of clauses.
pub open spec fn spelled_program(program: Seq<Clause>) -> Seq<Tok> {
    spelled_clauses(program, 0, Seq::empty())
}

/// The first token of a phrase.
pub open spec fn first_token(phrase: Phrase) -> Tok
    decreases phrase,
{
    match phrase {
        Phrase::Identifier(name) => Tok::Identifier(name),
        Phrase::Integer(text) => Tok::Integer(text),
        Phrase::Bool(value) => if value {
            Tok::True
        } else {
            Tok::False
        },
        Phrase::Group(_) => Tok::LParen,
        Phrase::Prefix { operator, operand } => prefix_token(operator),
        Phrase::Infix { operator, left, right } => first_token(*left),
        Phrase::If { .. } => Tok::If,
        Phrase::Function { .. } => Tok::Function,
        Phrase::Call { function, arguments } => first_token(*function),
    }
}

/// The last token of a phrase.
pub open spec fn final_token(phrase: Phrase) -> Tok
    decreases phrase,
{
    match phrase {
        Phrase::Identifier(name) => Tok::Identifier(name),
        Phrase::Integer(text) => Tok::Integer(text),
        Phrase::Bool(value) => if value {
            Tok::True
        } else {
            Tok::False
        },
        Phrase::Group(_) => Tok::RParen,
        Phrase::Prefix { operator, operand } => final_token(*operand),
        Phrase::Infix { operator, left, right } => final_token(*right),
        Phrase::If { .. } => Tok::RBrace,
        Phrase::Function { .. } => Tok::RBrace,
        Phrase::Call { .. } => Tok::RParen,
    }
}

/// The first token of a clause.
pub open spec fn first_clause_token(clause: Clause) -> Tok {
    match clause.kind {
        ClauseKind::Let(_) => Tok::Let,
        ClauseKind::Return => Tok::Return,
        ClauseKind::Expression => first_token(clause.value),
    }
}

/// How tightly a phrase holds together: a binary operation as tightly as
/// its operator binds, a unary one as a prefix, anything else as a call.
pub open spec fn binding(phrase: Phrase) -> nat {
    match phrase {
        Phrase::Infix { operator, left, right } => Precedence::of(infix_token(operator)).level(),
        Phrase::Prefix { .. } => Precedence::PREFIX.level(),
        _ => Precedence::CALL.level(),
    }
}

/// Whether every part of a phrase has the parentheses it needs. The left
/// operand of a binary operator must hold together at least as tightly as
/// the operator binds, the right operand more tightly; the operand of a
/// unary operator as tightly as a prefix; the callee of a call as tightly as
/// a call. An integer literal must denote a 64-bit integer.
pub open spec fn well_formed(phrase: Phrase) -> bool
    decreases phrase, 0nat,
{
    match phrase {
        Phrase::Identifier(_) => true,
        Phrase::Integer(text) => integer_value(text) is Some,
        Phrase::Bool(_) => true,
        Phrase::Group(inner) => well_formed(*inner),
        Phrase::Prefix { operator, operand } => well_formed(*operand) && binding(*operand)
            >= Precedence::PREFIX.level(),
        Phrase::Infix { operator, left, right } => well_formed(*left) && well_formed(*right)
            && binding(*left) >= binding(phrase) && binding(*right) > binding(phrase),
        Phrase::If { condition, consequence, alternative } => well_formed(*condition)
            && well_formed_block(consequence) && match alternative {
            Some(block) => well_formed_block(block),
            None => true,
        },
        Phrase::Function { parameters, body } => well_formed_block(body),
        Phrase::Call { function, arguments } => well_formed(*function) && binding(*function)
            >= Precedence::CALL.level() && forall|i: int|
            0 <= i < arguments.len() ==> well_formed(#[trigger] arguments[i]),
    }
}

/// Whether a clause can stand behind a clause that no `;` ends: its first
/// token must not continue an expression.
pub open spec fn starts_afresh(clause: Clause) -> bool {
    Precedence::of(first_clause_token(clause)).level() == 0
}

/// Whether the clauses of a block are well-formed. Inside a block the
/// parser passes exactly one token behind each statement, and a `let` or a
/// `return` ends at its expression: so no `;` may stand behind those, and
/// behind a clause without `;` the next must start afresh.
pub open spec fn well_formed_block(list: Seq<Clause>) -> bool
    decreases list, 1nat,
{
    forall|i: int|
        0 <= i < list.len() ==> {
            &&& well_formed((#[trigger] list[i]).value)
            &&& list[i].terminated ==> list[i].kind is Expression
            &&& !list[i].terminated && i + 1 < list.len() ==> starts_afresh(list[i + 1])
        }
}

/// Whether the clauses of a program are well-formed: each holds a
/// well-formed phrase, and a `;` ends each but possibly the last.
pub open spec fn well_formed_program(program: Seq<Clause>) -> bool {
    forall|i: int|
        0 <= i < program.len() ==> {
            &&& well_formed((#[trigger] program[i]).value)
            &&& i + 1 < program.len() ==> program[i].terminated
        }
}

} // verus!
