//! What holds of every parse: theorems about the grammar, and through it
//! about the parser, which computes exactly what the grammar says.

use crate::ast::Stmt;
use crate::lexer::{scan, tokens};
use crate::parser::grammar::{
    current, lemma_statement_rest, lemma_synchronize, parse_program, parse_statement,
    parse_statements, synchronize, Outcome,
};
use crate::token::Tok;
use vstd::prelude::*;

verus! {

/// One outcome followed by another: the statements of both in order, and
/// the errors of both.
pub open spec fn join(first: Outcome, second: Outcome) -> Outcome {
    Outcome {
        statements: first.statements + second.statements,
        errors: first.errors + second.errors,
    }
}

/// What one statement contributes to a program: itself if it is well-formed,
/// one error if it is not.
pub open spec fn contribution(statement: Option<Stmt>) -> Outcome {
    match statement {
        Some(tree) => Outcome { statements: seq![tree], errors: 0 },
        None => Outcome { statements: Seq::empty(), errors: 1 },
    }
}

/// What was parsed before has no influence on what is parsed next: the
/// program after `done` is `done` followed by the program of the stream.
pub proof fn lemma_parse_statements_joins(ts: Seq<Tok>, done: Outcome)
    ensures
        parse_statements(ts, done) == join(done, parse_program(ts)),
    decreases ts.len(),
{
    let nothing = Outcome { statements: Seq::empty(), errors: 0 };
    if current(ts) == Tok::EOF {
        assert(join(done, nothing).statements =~= done.statements);
    } else {
        let next = parse_statement(ts);
        let rest = synchronize(next.rest);
        lemma_statement_rest(ts);
        lemma_synchronize(next.rest);
        let with_next = match next.value {
            Some(statement) => Outcome {
                statements: done.statements.push(statement),
                errors: done.errors,
            },
            None => Outcome { statements: done.statements, errors: done.errors + 1 },
        };
        let only_next = match next.value {
            Some(statement) => Outcome {
                statements: Seq::<Stmt>::empty().push(statement),
                errors: 0,
            },
            None => Outcome { statements: Seq::empty(), errors: 1 },
        };
        lemma_parse_statements_joins(rest, with_next);
        lemma_parse_statements_joins(rest, only_next);
        assert(join(with_next, parse_program(rest)).statements =~= join(
            done,
            join(only_next, parse_program(rest)),
        ).statements);
    }
}

/// Error recovery never loses its place. A program is its first statement's
/// contribution, followed by the program that starts behind the next
/// statement boundary: a malformed statement costs one error and nothing
/// else.
pub proof fn law_statement_by_statement(ts: Seq<Tok>)
    requires
        current(ts) != Tok::EOF,
    ensures
        parse_program(ts) == join(
            contribution(parse_statement(ts).value),
            parse_program(synchronize(parse_statement(ts).rest)),
        ),
{
    let next = parse_statement(ts);
    let first = match next.value {
        Some(statement) => Outcome { statements: Seq::<Stmt>::empty().push(statement), errors: 0 },
        None => Outcome { statements: Seq::empty(), errors: 1 },
    };
    lemma_parse_statements_joins(synchronize(next.rest), first);
    assert(first.statements =~= contribution(next.value).statements);
}

/// A stream that holds one well-formed statement, and nothing behind it
/// but what resynchronizing passes over, gives a program of exactly
/// that statement and no error.
pub proof fn law_single_statement(ts: Seq<Tok>)
    requires
        parse_statement(ts).value is Some,
        synchronize(parse_statement(ts).rest).len() == 0,
    ensures
        parse_program(ts).statements == seq![parse_statement(ts).value->0],
        parse_program(ts).errors == 0,
{
    assert(current(ts) != Tok::EOF);
    law_statement_by_statement(ts);
    assert(parse_program(ts).statements =~= seq![parse_statement(ts).value->0]);
}

/// A stream whose first statement is malformed, and that holds nothing
/// behind it but what resynchronizing passes over, gives the empty program
/// and exactly one error.
pub proof fn law_single_malformed_statement(ts: Seq<Tok>)
    requires
        current(ts) != Tok::EOF,
        parse_statement(ts).value is None,
        synchronize(parse_statement(ts).rest).len() == 0,
    ensures
        parse_program(ts).statements == Seq::<Stmt>::empty(),
        parse_program(ts).errors == 1,
{
    law_statement_by_statement(ts);
    assert(parse_program(ts).statements =~= Seq::<Stmt>::empty());
}

/// The empty stream is the empty program, without errors.
pub proof fn law_empty_input()
    ensures
        parse_program(Seq::empty()) == (Outcome { statements: Seq::empty(), errors: 0 }),
{
}

/// A text without tokens, such as the empty text or white space alone, is
/// the empty program, without errors.
pub proof fn law_blank_text(text: Seq<char>)
    requires
        scan(text).0 is EOF,
    ensures
        parse_program(tokens(text)) == (Outcome { statements: Seq::empty(), errors: 0 }),
{
}

/// Every statement and every error accounts for at least one token of its
/// own: a program has no more statements and errors than its stream has tokens.
pub proof fn law_progress(ts: Seq<Tok>)
    ensures
        parse_program(ts).statements.len() + parse_program(ts).errors <= ts.len(),
    decreases ts.len(),
{
    if current(ts) != Tok::EOF {
        let next = parse_statement(ts);
        lemma_statement_rest(ts);
        lemma_synchronize(next.rest);
        law_statement_by_statement(ts);
        law_progress(synchronize(next.rest));
    }
}

} // verus!
