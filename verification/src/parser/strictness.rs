//! What the parser refuses: a parameter list that is not names separated by
//! commas, and a block that is not closed.

use crate::ast::{Expr, Stmt};
use crate::parser::grammar::{
    advance, current, lemma_block_statement_rest, lemma_expression_rest, lemma_function_params_rest,
    lemma_statement_rest, lemma_suffix, parse_block_items, parse_block_statement, parse_else,
    parse_expression, parse_function_literal, parse_function_params, parse_if_blocks,
    parse_if_expression, parse_more_params, parse_statement, peek,
};
use crate::parser::phrase::{cons, lemma_cons, spelled_names};
use crate::parser::precedence::Precedence;
use crate::parser::reading::names;
use crate::token::Tok;
use vstd::prelude::*;

verus! {

/// A stream that is not exhausted is its current token and what follows.
pub proof fn lemma_uncons(ts: Seq<Tok>)
    requires
        ts.len() > 0,
    ensures
        ts == cons(current(ts), advance(ts)),
{
    reveal(cons);
    assert(ts =~= seq![ts[0]] + ts.skip(1));
}

/// Whether every expression of a list is an identifier.
pub open spec fn all_identifiers(list: Seq<Expr>) -> bool {
    forall|i: int| 0 <= i < list.len() ==> #[trigger] list[i] is Identifier
}

/// Where further parameters are accepted, the stream holds a name for each,
/// a comma between each two, and then the closing `)`.
pub proof fn lemma_more_parameters_are_spelled(ts: Seq<Tok>, done: Seq<Expr>)
    requires
        parse_more_params(ts, done).value is Some,
        all_identifiers(done),
    ensures
        parse_more_params(ts, done).value->0.len() > done.len(),
        parse_more_params(ts, done).value->0.take(done.len() as int) == done,
        all_identifiers(parse_more_params(ts, done).value->0),
        current(parse_more_params(ts, done).rest) == Tok::RParen,
        ts == cons(
            Tok::Identifier(names(parse_more_params(ts, done).value->0)[done.len() as int]),
            spelled_names(
                names(parse_more_params(ts, done).value->0),
                done.len() + 1,
                parse_more_params(ts, done).rest,
            ),
        ),
    decreases ts.len(),
{
    broadcast use lemma_cons;

    let found = parse_more_params(ts, done);
    let list = found.value->0;
    let k = done.len() as int;
    match current(ts) {
        Tok::Identifier(name) => {
            let longer = done.push(Expr::Identifier(name));
            lemma_uncons(ts);
            if peek(ts) == Tok::Comma {
                let behind = advance(advance(ts));
                lemma_uncons(advance(ts));
                lemma_more_parameters_are_spelled(behind, longer);
                assert(list.take(k) =~= longer.take(k));
                assert(longer.take(k) =~= done);
                assert(list[k] == longer[k]);
                assert(spelled_names(names(list), (k + 1) as nat, found.rest) == cons(
                    Tok::Comma,
                    behind,
                ));
            } else {
                assert(list == longer);
                assert(list.take(k) =~= done);
                assert(spelled_names(names(list), (k + 1) as nat, found.rest) == found.rest);
            }
        },
        _ => {},
    }
}

/// Parameters are accepted only as names separated by commas between `(`
/// and `)`: where they are accepted, each is an identifier, the stream is
/// left at the closing `)`, and what was passed is the opening token, a
/// name for each parameter and a comma between each two.
pub proof fn law_parameters_are_spelled(ts: Seq<Tok>)
    requires
        parse_function_params(ts).value is Some,
    ensures
        all_identifiers(parse_function_params(ts).value->0),
        current(parse_function_params(ts).rest) == Tok::RParen,
        ts == cons(
            current(ts),
            spelled_names(
                names(parse_function_params(ts).value->0),
                0,
                parse_function_params(ts).rest,
            ),
        ),
{
    broadcast use lemma_cons;

    let found = parse_function_params(ts);
    if peek(ts) == Tok::RParen {
        lemma_uncons(ts);
        lemma_uncons(advance(ts));
    } else {
        lemma_more_parameters_are_spelled(advance(ts), Seq::empty());
        lemma_uncons(ts);
    }
}

/// Further statements of a block are accepted only up to a closing `}`.
pub proof fn lemma_block_items_are_closed(ts: Seq<Tok>, done: Seq<Stmt>)
    ensures
        parse_block_items(ts, done).value is Some ==> current(parse_block_items(ts, done).rest)
            == Tok::RBrace,
    decreases ts.len(),
{
    if current(ts) != Tok::RBrace && current(ts) != Tok::EOF {
        let next = parse_statement(ts);
        lemma_statement_rest(ts);
        lemma_suffix(next.rest, ts, ts);
        match next.value {
            Some(statement) => lemma_block_items_are_closed(
                advance(next.rest),
                done.push(statement),
            ),
            None => {},
        }
    }
}

/// A block is accepted only where `}` closes it: not where the input ends
/// first.
pub proof fn law_block_is_closed(ts: Seq<Tok>)
    ensures
        parse_block_statement(ts).value is Some ==> current(parse_block_statement(ts).rest)
            == Tok::RBrace,
{
    lemma_block_items_are_closed(ts, Seq::empty());
}

/// A conditional is accepted only where `}` closes its last block.
pub proof fn law_conditional_is_closed(ts: Seq<Tok>)
    ensures
        parse_if_expression(ts).value is Some ==> current(parse_if_expression(ts).rest)
            == Tok::RBrace,
{
    if peek(ts) == Tok::LParen {
        let start = advance(advance(ts));
        let condition = parse_expression(start, Precedence::LOWEST);
        lemma_expression_rest(start, Precedence::LOWEST);
        lemma_suffix(condition.rest, start, start);
        match condition.value {
            Some(tree) => {
                let at_condition = condition.rest;
                assert(parse_if_expression(ts) == parse_if_blocks(tree, at_condition));
                if peek(at_condition) == Tok::RParen && peek(advance(at_condition))
                    == Tok::LBrace {
                    let at_brace = advance(advance(at_condition));
                    let consequence = parse_block_statement(advance(at_brace));
                    law_block_is_closed(advance(at_brace));
                    lemma_block_statement_rest(advance(at_brace));
                    lemma_suffix(at_brace, at_brace, at_brace);
                    lemma_suffix(consequence.rest, advance(at_brace), at_brace);
                    lemma_suffix(consequence.rest, at_brace, at_brace);
                    match consequence.value {
                        Some(block) => {
                            let at_end = consequence.rest;
                            assert(parse_if_blocks(tree, at_condition) == parse_else(
                                tree,
                                block,
                                at_end,
                            ));
                            if peek(at_end) == Tok::Else && peek(advance(at_end)) == Tok::LBrace {
                                law_block_is_closed(advance(advance(advance(at_end))));
                            }
                        },
                        None => {},
                    }
                }
            },
            None => {},
        }
    }
}

/// A function literal is accepted only where `}` closes its body.
pub proof fn law_function_is_closed(ts: Seq<Tok>)
    ensures
        parse_function_literal(ts).value is Some ==> current(parse_function_literal(ts).rest)
            == Tok::RBrace,
{
    if peek(ts) == Tok::LParen {
        let parameters = parse_function_params(advance(ts));
        lemma_function_params_rest(advance(ts));
        if parameters.value is Some && peek(parameters.rest) == Tok::LBrace {
            law_block_is_closed(advance(advance(parameters.rest)));
        }
    }
}

} // verus!
