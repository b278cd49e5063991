//! Reading back what was written: the parser maps the canonical writing of a
//! tree to that same tree. The canonical writing is the spelling of a
//! well-formed phrase, so this is an instance of the parser's correctness.

use crate::ast::{Expr, Stmt};
use crate::parser::correctness::{law_well_formed_statement, named, theorem_parser_correct};
use crate::parser::grammar::{parse_program, Outcome};
use crate::parser::number::lemma_render_integer;
use crate::parser::phrase::{
    binding, clause_meaning, clause_meanings, cons, infix_token, meaning, meanings, prefix_token,
    spelled, spelled_block, spelled_clause, spelled_clauses, spelled_list, spelled_names,
    well_formed, well_formed_block, Clause, ClauseKind, Phrase,
};
use crate::parser::writing::{
    writable_block, writable_expression, writable_program, writable_statement, written_block,
    written_expression, written_list, written_program, written_statement, written_statements,
};
use crate::render::render_integer;
use crate::token::Tok;
use vstd::prelude::*;

verus! {

/// The phrase that the canonical writing of a tree spells: every operation
/// in parentheses of its own, every integer by its decimal text.
pub open spec fn canonical(tree: Expr) -> Phrase
    decreases tree, 0nat,
{
    match tree {
        Expr::Identifier(name) => Phrase::Identifier(name),
        Expr::Int(value) => Phrase::Integer(render_integer(value as int)),
        Expr::Bool(value) => Phrase::Bool(value),
        Expr::Prefix { operator, operand } => Phrase::Group(
            Box::new(Phrase::Prefix { operator, operand: Box::new(canonical(*operand)) }),
        ),
        Expr::Infix { operator, left, right } => Phrase::Group(
            Box::new(
                Phrase::Infix {
                    operator,
                    left: Box::new(canonical(*left)),
                    right: Box::new(canonical(*right)),
                },
            ),
        ),
        Expr::If { condition, consequence, alternative } => Phrase::If {
            condition: Box::new(canonical(*condition)),
            consequence: canonical_clauses(consequence),
            alternative: match alternative {
                Some(block) => Some(canonical_clauses(block)),
                None => None,
            },
        },
        Expr::Function { parameters, body } => Phrase::Function {
            parameters: names(parameters),
            body: canonical_clauses(body),
        },
        Expr::Call { function, arguments } => Phrase::Call {
            function: Box::new(canonical(*function)),
            arguments: canonical_list(arguments),
        },
    }
}

/// The names of a list of identifiers.
pub open spec fn names(list: Seq<Expr>) -> Seq<Seq<char>> {
    Seq::new(list.len(), |i: int| list[i]->Identifier_0)
}

/// The phrases that the canonical writing of a list of trees spells.
pub open spec fn canonical_list(list: Seq<Expr>) -> Seq<Phrase>
    decreases list, 1nat,
{
    Seq::new(
        list.len(),
        |i: int|
            if 0 <= i < list.len() {
                canonical(list[i])
            } else {
                arbitrary()
            },
    )
}

/// The clause that the canonical writing of a statement spells: a `let`
/// and a `return` with their `;`, an expression without.
pub open spec fn canonical_clause(tree: Stmt) -> Clause
    decreases tree, 1nat,
{
    match tree {
        Stmt::Let { name, value } => Clause {
            kind: ClauseKind::Let(name),
            value: canonical(value),
            terminated: true,
        },
        Stmt::Return { value } => Clause {
            kind: ClauseKind::Return,
            value: canonical(value),
            terminated: true,
        },
        Stmt::Expression(value) => Clause {
            kind: ClauseKind::Expression,
            value: canonical(value),
            terminated: false,
        },
    }
}

/// The clauses that the canonical writing of a list of statements spells.
pub open spec fn canonical_clauses(list: Seq<Stmt>) -> Seq<Clause>
    decreases list, 2nat,
{
    Seq::new(
        list.len(),
        |i: int|
            if 0 <= i < list.len() {
                canonical_clause(list[i])
            } else {
                arbitrary()
            },
    )
}

/// The canonical phrase of a writable tree is well-formed, means the tree,
/// and is spelled as the tree is written.
pub proof fn lemma_canonical(tree: Expr, tail: Seq<Tok>)
    requires
        writable_expression(tree),
    ensures
        well_formed(canonical(tree)),
        binding(canonical(tree)) == 6,
        meaning(canonical(tree)) == tree,
        spelled(canonical(tree), tail) == written_expression(tree, tail),
    decreases tree, 0nat,
{
    match tree {
        Expr::Identifier(name) => {},
        Expr::Int(value) => {
            lemma_render_integer(value);
        },
        Expr::Bool(value) => {},
        Expr::Prefix { operator, operand } => {
            let closing = cons(Tok::RParen, tail);
            let inner = Phrase::Prefix { operator, operand: Box::new(canonical(*operand)) };
            lemma_canonical(*operand, closing);
            assert(canonical(tree) == Phrase::Group(Box::new(inner)));
            assert(well_formed(inner));
            assert(meaning(inner) == tree);
            assert(spelled(inner, closing) == cons(
                prefix_token(operator),
                written_expression(*operand, closing),
            ));
        },
        Expr::Infix { operator, left, right } => {
            let closing = cons(Tok::RParen, tail);
            let at_operator = cons(infix_token(operator), written_expression(*right, closing));
            let inner = Phrase::Infix {
                operator,
                left: Box::new(canonical(*left)),
                right: Box::new(canonical(*right)),
            };
            lemma_canonical(*right, closing);
            lemma_canonical(*left, at_operator);
            assert(canonical(tree) == Phrase::Group(Box::new(inner)));
            assert(binding(inner) < 6);
            assert(well_formed(inner));
            assert(meaning(inner) == tree);
            assert(spelled(inner, closing) == written_expression(*left, at_operator));
        },
        Expr::If { condition, consequence, alternative } => {
            let behind = match alternative {
                Some(block) => cons(Tok::Else, written_block(block, tail)),
                None => tail,
            };
            match alternative {
                Some(block) => lemma_canonical_block(block, tail),
                None => {},
            }
            lemma_canonical_block(consequence, behind);
            lemma_canonical(*condition, cons(Tok::RParen, written_block(consequence, behind)));
        },
        Expr::Function { parameters, body } => {
            lemma_canonical_block(body, tail);
            lemma_canonical_names(parameters, 0, cons(Tok::RParen, written_block(body, tail)));
            assert(named(names(parameters)) =~= parameters);
        },
        Expr::Call { function, arguments } => {
            let closing = cons(Tok::RParen, tail);
            lemma_canonical_list(arguments, 0, closing);
            lemma_canonical(*function, cons(Tok::LParen, written_list(arguments, 0, closing)));
            assert(meanings(canonical_list(arguments)) =~= arguments) by {
                assert forall|i: int| 0 <= i < arguments.len() implies meaning(
                    canonical(arguments[i]),
                ) == arguments[i] by {
                    lemma_canonical(arguments[i], tail);
                }
            }
            assert forall|i: int| 0 <= i < arguments.len() implies well_formed(
                #[trigger] canonical_list(arguments)[i],
            ) by {
                lemma_canonical(arguments[i], tail);
            }
        },
    }
}

/// The canonical phrases of a list are spelled as the list is written.
pub proof fn lemma_canonical_list(list: Seq<Expr>, from: nat, tail: Seq<Tok>)
    requires
        forall|i: int| 0 <= i < list.len() ==> writable_expression(#[trigger] list[i]),
    ensures
        spelled_list(canonical_list(list), from, tail) == written_list(list, from, tail),
    decreases list, list.len() - from,
{
    if from < list.len() {
        lemma_canonical_list(list, from + 1, tail);
        lemma_canonical(list[from as int], written_list(list, from + 1, tail));
    }
}

/// The names of a list of identifiers are spelled as the list is written.
pub proof fn lemma_canonical_names(list: Seq<Expr>, from: nat, tail: Seq<Tok>)
    requires
        forall|i: int| 0 <= i < list.len() ==> #[trigger] list[i] is Identifier,
    ensures
        spelled_names(names(list), from, tail) == written_list(list, from, tail),
    decreases list.len() - from,
{
    if from < list.len() {
        let behind = written_list(list, from + 1, tail);
        lemma_canonical_names(list, from + 1, tail);
        assert(list[from as int] is Identifier);
        assert(written_expression(list[from as int], behind) == cons(
            Tok::Identifier(names(list)[from as int]),
            behind,
        ));
    }
}

/// The canonical clauses of a writable block form a well-formed block that
/// means the block and is spelled as the block is written.
pub proof fn lemma_canonical_block(list: Seq<Stmt>, tail: Seq<Tok>)
    requires
        writable_block(list),
    ensures
        well_formed_block(canonical_clauses(list)),
        clause_meanings(canonical_clauses(list)) == list,
        spelled_block(canonical_clauses(list), tail) == written_block(list, tail),
    decreases list, 1nat,
{
    let closing = cons(Tok::RBrace, tail);
    let clauses = canonical_clauses(list);
    if list.len() == 0 {
        assert(clause_meanings(clauses) =~= list);
    } else {
        match list[0] {
            Stmt::Expression(value) => {
                lemma_canonical(value, closing);
                assert(clauses[0] == canonical_clause(list[0]));
                assert(clause_meanings(clauses) =~= list);
                assert(spelled_clauses(clauses, 1, closing) == closing);
                assert(written_statements(list, 1, closing) == closing);
                assert(spelled_clauses(clauses, 0, closing) == spelled_clause(clauses[0], closing));
                assert(written_statements(list, 0, closing) == written_statement(list[0], closing));
            },
            _ => {},
        }
    }
}

/// The canonical clause of a writable statement holds a well-formed phrase,
/// means the statement, and is spelled as the statement is written.
pub proof fn lemma_canonical_clause(tree: Stmt, tail: Seq<Tok>)
    requires
        writable_statement(tree),
    ensures
        well_formed(canonical_clause(tree).value),
        clause_meaning(canonical_clause(tree)) == tree,
        spelled_clause(canonical_clause(tree), tail) == written_statement(tree, tail),
{
    match tree {
        Stmt::Let { name, value } => lemma_canonical(value, cons(Tok::Semicolon, tail)),
        Stmt::Return { value } => lemma_canonical(value, cons(Tok::Semicolon, tail)),
        Stmt::Expression(value) => lemma_canonical(value, tail),
    }
}

/// The canonical clauses of a writable program are spelled as the program
/// is written.
pub proof fn lemma_canonical_program(program: Seq<Stmt>, from: nat)
    requires
        writable_program(program),
    ensures
        spelled_clauses(canonical_clauses(program), from, Seq::empty()) == written_statements(
            program,
            from,
            Seq::empty(),
        ),
    decreases program.len() - from,
{
    if from < program.len() {
        lemma_canonical_program(program, from + 1);
        lemma_canonical_clause(
            program[from as int],
            written_statements(program, from + 1, Seq::empty()),
        );
    }
}

/// Reading back what was written: the writing of a program whose statements
/// can be read back parses to that very program, without errors.
pub proof fn theorem_read_back(program: Seq<Stmt>)
    requires
        writable_program(program),
    ensures
        parse_program(written_program(program)) == (Outcome { statements: program, errors: 0 }),
{
    let clauses = canonical_clauses(program);
    assert forall|i: int| 0 <= i < clauses.len() implies {
        &&& well_formed((#[trigger] clauses[i]).value)
        &&& i + 1 < clauses.len() ==> clauses[i].terminated
        &&& clause_meaning(clauses[i]) == program[i]
    } by {
        lemma_canonical_clause(program[i], Seq::empty());
    }
    assert(clause_meanings(clauses) =~= program);
    lemma_canonical_program(program, 0);
    theorem_parser_correct(clauses);
}

/// A single written statement, with or without a `;` behind an expression,
/// parses to a program of exactly that statement, without errors.
pub proof fn law_written_statement(tree: Stmt)
    requires
        writable_statement(tree),
    ensures
        parse_program(written_statement(tree, Seq::empty())) == (Outcome {
            statements: seq![tree],
            errors: 0,
        }),
        tree is Expression ==> parse_program(
            written_statement(tree, cons(Tok::Semicolon, Seq::empty())),
        ) == (Outcome { statements: seq![tree], errors: 0 }),
{
    let clause = canonical_clause(tree);
    lemma_canonical_clause(tree, Seq::empty());
    law_well_formed_statement(clause);
    if tree is Expression {
        let ended = Clause { kind: clause.kind, value: clause.value, terminated: true };
        lemma_canonical_clause(tree, cons(Tok::Semicolon, Seq::empty()));
        law_well_formed_statement(ended);
    }
}

} // verus!
