//! Parsing as normalization: the canonical text of a program that was parsed
//! from a text parses to that program again.
//!
//! Every tree parsed from a text is lexable: its identifiers are names and
//! its integer literals are not negative, because the lexer hands out
//! nothing else. So the round trip from tree to text and back applies to it,
//! whatever the text was, provided the shape of the tree can be read back.

use crate::ast::{Expr, Stmt};
use crate::lexer::{
    digits_length, is_digit, is_letter, is_word_char, lemma_digits_length_bound,
    lemma_scan_consumes, lemma_word_length_bound, punctuation, scan, tokens, word_length,
};
use crate::parser::grammar::{
    advance, continues, current, extend_expression, is_suffix, lemma_block_statement_rest,
    lemma_expression_rest, lemma_function_params_rest, lemma_infix_rest, lemma_prefix_rest,
    lemma_statement_rest, lemma_suffix, lemma_synchronize, parse_block_items, parse_block_statement,
    parse_call_arguments, parse_call_expression, parse_else, parse_expression,
    parse_expression_statement, parse_function_literal, parse_function_params,
    parse_grouped_expression, parse_if_blocks, parse_if_expression, parse_infix,
    parse_more_arguments, parse_more_params, parse_prefix, parse_prefix_expression, parse_program,
    parse_statement, parse_statements, peek, synchronize, within, Outcome,
};
use crate::parser::number::{all_digits, lemma_digits_value_nonnegative};
use crate::parser::precedence::Precedence;
use crate::parser::writing::writable_program;
use crate::render::render_program;
use crate::roundtrip::{
    all_word_chars, is_name, lexable_expression, lexable_list, lexable_statement,
    lexable_statements, theorem_roundtrip,
};
use crate::token::Tok;
use vstd::prelude::*;

verus! {

/// Whether a token is one that the lexer hands out: an identifier is a
/// name, and an integer literal a run of digits.
pub open spec fn is_lexical(token: Tok) -> bool {
    match token {
        Tok::Identifier(name) => is_name(name),
        Tok::Integer(text) => text.len() > 0 && all_digits(text),
        _ => true,
    }
}

/// Whether every token of a stream is one that the lexer hands out.
pub open spec fn all_lexical(ts: Seq<Tok>) -> bool {
    forall|i: int| 0 <= i < ts.len() ==> is_lexical(#[trigger] ts[i])
}

/// The first characters of a text, as far as its longest run of word
/// characters goes, are word characters.
pub proof fn lemma_word_run(text: Seq<char>)
    ensures
        all_word_chars(text.take(word_length(text) as int)),
    decreases text.len(),
{
    lemma_word_length_bound(text);
    if text.len() > 0 && is_word_char(text[0]) {
        let rest = text.skip(1);
        lemma_word_run(rest);
        lemma_word_length_bound(rest);
        let run = text.take(word_length(text) as int);
        assert forall|i: int| 0 <= i < run.len() implies is_word_char(#[trigger] run[i]) by {
            if i > 0 {
                assert(run[i] == rest.take(word_length(rest) as int)[i - 1]);
            }
        }
    }
}

/// The first characters of a text, as far as its longest run of digits
/// goes, are digits.
pub proof fn lemma_digits_run(text: Seq<char>)
    ensures
        all_digits(text.take(digits_length(text) as int)),
    decreases text.len(),
{
    lemma_digits_length_bound(text);
    if text.len() > 0 && is_digit(text[0]) {
        let rest = text.skip(1);
        lemma_digits_run(rest);
        lemma_digits_length_bound(rest);
        let run = text.take(digits_length(text) as int);
        assert forall|i: int| 0 <= i < run.len() implies is_digit(#[trigger] run[i]) by {
            if i > 0 {
                assert(run[i] == rest.take(digits_length(rest) as int)[i - 1]);
            }
        }
    }
}

/// The first token of a text is one that the lexer hands out.
pub proof fn lemma_scan_lexical(text: Seq<char>)
    ensures
        is_lexical(scan(text).0),
    decreases text.len(),
{
    if text.len() == 0 {
    } else if is_letter(text[0]) {
        lemma_word_run(text);
        lemma_word_length_bound(text);
    } else if is_digit(text[0]) {
        lemma_digits_run(text);
        lemma_digits_length_bound(text);
    } else if text[0] == '=' && text.len() > 1 && text[1] == '=' {
    } else if text[0] == '!' && text.len() > 1 && text[1] == '=' {
    } else if punctuation(text[0]) is None {
        lemma_scan_lexical(text.skip(1));
    }
}

/// Every token of a text is one that the lexer hands out.
pub proof fn lemma_tokens_lexical(text: Seq<char>)
    ensures
        all_lexical(tokens(text)),
    decreases text.len(),
{
    if !(scan(text).0 is EOF) {
        lemma_scan_consumes(text);
        lemma_scan_lexical(text);
        lemma_tokens_lexical(scan(text).1);
    }
}

/// What remains of a stream of lexical tokens is a stream of lexical tokens.
pub proof fn lemma_lexical_suffix(rest: Seq<Tok>, ts: Seq<Tok>)
    requires
        all_lexical(ts),
        is_suffix(rest, ts),
    ensures
        all_lexical(rest),
        all_lexical(advance(rest)),
        is_lexical(current(rest)),
        within(rest, ts) == rest,
{
    assert forall|i: int| 0 <= i < rest.len() implies is_lexical(#[trigger] rest[i]) by {
        assert(rest[i] == ts[ts.len() - rest.len() + i]);
    }
    assert forall|i: int| 0 <= i < advance(rest).len() implies is_lexical(
        #[trigger] advance(rest)[i],
    ) by {
        assert(advance(rest)[i] == rest[i + 1]);
    }
}

/// A statement parsed from lexical tokens is lexable.
pub proof fn lemma_statement_lexable(ts: Seq<Tok>)
    requires
        all_lexical(ts),
    ensures
        parse_statement(ts).value matches Some(tree) ==> lexable_statement(tree),
    decreases ts.len(), 6nat,
{
    lemma_suffix(ts, ts, ts);
    lemma_lexical_suffix(ts, ts);
    match current(ts) {
        Tok::Let => {
            let at_name = advance(ts);
            lemma_lexical_suffix(at_name, ts);
            lemma_suffix(at_name, ts, ts);
            lemma_lexical_suffix(advance(at_name), ts);
            if current(at_name) is Identifier && peek(at_name) == Tok::Assign {
                assert(peek(at_name) == at_name[1]);
                lemma_expression_lexable(advance(advance(at_name)), Precedence::LOWEST);
            }
        },
        Tok::Return => {
            lemma_expression_lexable(advance(ts), Precedence::LOWEST);
        },
        _ => {
            lemma_expression_lexable(ts, Precedence::LOWEST);
            assert(parse_statement(ts) == parse_expression_statement(ts));
        },
    }
}

/// An expression parsed from lexical tokens is lexable.
pub proof fn lemma_expression_lexable(ts: Seq<Tok>, floor: Precedence)
    requires
        all_lexical(ts),
    ensures
        parse_expression(ts, floor).value matches Some(tree) ==> lexable_expression(tree),
    decreases ts.len(), 3nat,
{
    let first = parse_prefix(ts);
    lemma_prefix_lexable(ts);
    lemma_prefix_rest(ts);
    lemma_lexical_suffix(first.rest, ts);
    match first.value {
        Some(left) => lemma_extend_lexable(left, first.rest, floor),
        None => {},
    }
}

/// Extending a lexable expression over lexical tokens gives a lexable one.
pub proof fn lemma_extend_lexable(left: Expr, ts: Seq<Tok>, floor: Precedence)
    requires
        all_lexical(ts),
        lexable_expression(left),
    ensures
        extend_expression(left, ts, floor).value matches Some(tree) ==> lexable_expression(tree),
    decreases ts.len(), 2nat,
{
    if continues(peek(ts), floor) {
        let longer = parse_infix(left, advance(ts));
        lemma_suffix(ts, ts, ts);
        lemma_lexical_suffix(ts, ts);
        lemma_infix_lexable(left, advance(ts));
        lemma_infix_rest(left, advance(ts));
        lemma_lexical_suffix(longer.rest, advance(ts));
        match longer.value {
            Some(tree) => lemma_extend_lexable(tree, longer.rest, floor),
            None => {},
        }
    }
}

/// A prefix form parsed from lexical tokens is lexable.
pub proof fn lemma_prefix_lexable(ts: Seq<Tok>)
    requires
        all_lexical(ts),
    ensures
        parse_prefix(ts).value matches Some(tree) ==> lexable_expression(tree),
    decreases ts.len(), 2nat,
{
    lemma_suffix(ts, ts, ts);
    lemma_lexical_suffix(ts, ts);
    match current(ts) {
        Tok::Integer(text) => {
            lemma_digits_value_nonnegative(text);
        },
        Tok::LParen => {
            lemma_expression_lexable(advance(ts), Precedence::LOWEST);
            assert(parse_prefix(ts) == parse_grouped_expression(advance(ts)));
        },
        Tok::Bang | Tok::Minus => {
            lemma_expression_lexable(advance(ts), Precedence::PREFIX);
            assert(parse_prefix(ts) == parse_prefix_expression(ts));
        },
        Tok::If => lemma_if_lexable(ts),
        Tok::Function => lemma_function_lexable(ts),
        _ => {},
    }
}

/// An infix continuation of a lexable expression over lexical tokens is
/// lexable.
pub proof fn lemma_infix_lexable(left: Expr, ts: Seq<Tok>)
    requires
        all_lexical(ts),
        lexable_expression(left),
    ensures
        parse_infix(left, ts).value matches Some(tree) ==> lexable_expression(tree),
    decreases ts.len(), 6nat,
{
    lemma_suffix(ts, ts, ts);
    lemma_lexical_suffix(ts, ts);
    match current(ts) {
        Tok::LParen => {
            lemma_arguments_lexable(ts);
            assert(parse_infix(left, ts) == parse_call_expression(left, ts));
        },
        token => {
            lemma_expression_lexable(advance(ts), Precedence::of(token));
        },
    }
}

/// Call arguments parsed from lexical tokens are lexable.
pub proof fn lemma_arguments_lexable(ts: Seq<Tok>)
    requires
        all_lexical(ts),
    ensures
        parse_call_arguments(ts).value matches Some(list) ==> lexable_list(list),
    decreases ts.len(), 4nat,
{
    lemma_suffix(ts, ts, ts);
    lemma_lexical_suffix(ts, ts);
    if peek(ts) != Tok::RParen {
        let first = parse_expression(advance(ts), Precedence::LOWEST);
        lemma_expression_lexable(advance(ts), Precedence::LOWEST);
        lemma_expression_rest(advance(ts), Precedence::LOWEST);
        lemma_suffix(first.rest, advance(ts), ts);
        lemma_lexical_suffix(first.rest, ts);
        match first.value {
            Some(tree) => lemma_more_arguments_lexable(first.rest, seq![tree]),
            None => {},
        }
    }
}

/// Further call arguments parsed from lexical tokens are lexable.
pub proof fn lemma_more_arguments_lexable(ts: Seq<Tok>, done: Seq<Expr>)
    requires
        all_lexical(ts),
        lexable_list(done),
    ensures
        parse_more_arguments(ts, done).value matches Some(list) ==> lexable_list(list),
    decreases ts.len(), 0nat,
{
    if peek(ts) == Tok::Comma {
        let start = advance(advance(ts));
        let next = parse_expression(start, Precedence::LOWEST);
        lemma_suffix(ts, ts, ts);
        lemma_suffix(advance(ts), ts, ts);
        lemma_lexical_suffix(advance(ts), ts);
        lemma_expression_lexable(start, Precedence::LOWEST);
        lemma_expression_rest(start, Precedence::LOWEST);
        lemma_lexical_suffix(next.rest, start);
        match next.value {
            Some(tree) => lemma_more_arguments_lexable(next.rest, done.push(tree)),
            None => {},
        }
    }
}

/// A conditional parsed from lexical tokens is lexable.
pub proof fn lemma_if_lexable(ts: Seq<Tok>)
    requires
        all_lexical(ts),
    ensures
        parse_if_expression(ts).value matches Some(tree) ==> lexable_expression(tree),
    decreases ts.len(), 1nat,
{
    if peek(ts) == Tok::LParen {
        let start = advance(advance(ts));
        let condition = parse_expression(start, Precedence::LOWEST);
        lemma_suffix(ts, ts, ts);
        lemma_suffix(advance(ts), ts, ts);
        lemma_lexical_suffix(advance(ts), ts);
        lemma_expression_lexable(start, Precedence::LOWEST);
        lemma_expression_rest(start, Precedence::LOWEST);
        lemma_lexical_suffix(condition.rest, start);
        match condition.value {
            Some(tree) => lemma_if_blocks_lexable(tree, condition.rest),
            None => {},
        }
    }
}

/// The blocks of a conditional parsed from lexical tokens are lexable.
pub proof fn lemma_if_blocks_lexable(condition: Expr, ts: Seq<Tok>)
    requires
        all_lexical(ts),
        lexable_expression(condition),
    ensures
        parse_if_blocks(condition, ts).value matches Some(tree) ==> lexable_expression(tree),
    decreases ts.len(), 9nat,
{
    if peek(ts) == Tok::RParen && peek(advance(ts)) == Tok::LBrace {
        let at_brace = advance(advance(ts));
        let consequence = parse_block_statement(advance(at_brace));
        lemma_suffix(ts, ts, ts);
        lemma_suffix(advance(ts), ts, ts);
        lemma_suffix(at_brace, ts, ts);
        lemma_lexical_suffix(advance(ts), ts);
        lemma_lexical_suffix(at_brace, ts);
        lemma_block_lexable(advance(at_brace));
        lemma_block_statement_rest(advance(at_brace));
        lemma_suffix(consequence.rest, advance(at_brace), at_brace);
        lemma_lexical_suffix(consequence.rest, at_brace);
        match consequence.value {
            Some(block) => lemma_else_lexable(condition, block, consequence.rest),
            None => {},
        }
    }
}

/// The `else` of a conditional parsed from lexical tokens is lexable.
pub proof fn lemma_else_lexable(condition: Expr, consequence: Seq<Stmt>, ts: Seq<Tok>)
    requires
        all_lexical(ts),
        lexable_expression(condition),
        lexable_statements(consequence),
    ensures
        parse_else(condition, consequence, ts).value matches Some(tree) ==> lexable_expression(
            tree,
        ),
    decreases ts.len(), 9nat,
{
    if peek(ts) == Tok::Else && peek(advance(ts)) == Tok::LBrace {
        lemma_suffix(ts, ts, ts);
        lemma_suffix(advance(ts), ts, ts);
        lemma_suffix(advance(advance(ts)), ts, ts);
        lemma_lexical_suffix(advance(advance(ts)), ts);
        lemma_block_lexable(advance(advance(advance(ts))));
    }
}

/// A function literal parsed from lexical tokens is lexable.
pub proof fn lemma_function_lexable(ts: Seq<Tok>)
    requires
        all_lexical(ts),
    ensures
        parse_function_literal(ts).value matches Some(tree) ==> lexable_expression(tree),
    decreases ts.len(), 1nat,
{
    if peek(ts) == Tok::LParen {
        let parameters = parse_function_params(advance(ts));
        let after = parameters.rest;
        lemma_suffix(ts, ts, ts);
        lemma_lexical_suffix(ts, ts);
        lemma_params_lexable(advance(ts));
        lemma_function_params_rest(advance(ts));
        lemma_suffix(after, advance(ts), ts);
        lemma_lexical_suffix(after, ts);
        if peek(after) == Tok::LBrace {
            lemma_suffix(advance(after), ts, ts);
            lemma_lexical_suffix(advance(after), ts);
            lemma_block_lexable(advance(advance(after)));
        }
    }
}

/// Parameters parsed from lexical tokens are lexable.
pub proof fn lemma_params_lexable(ts: Seq<Tok>)
    requires
        all_lexical(ts),
    ensures
        parse_function_params(ts).value matches Some(list) ==> lexable_list(list),
{
    lemma_suffix(ts, ts, ts);
    lemma_lexical_suffix(ts, ts);
    if peek(ts) != Tok::RParen {
        lemma_more_params_lexable(advance(ts), Seq::empty());
    }
}

/// Further parameters parsed from lexical tokens are lexable.
pub proof fn lemma_more_params_lexable(ts: Seq<Tok>, done: Seq<Expr>)
    requires
        all_lexical(ts),
        lexable_list(done),
    ensures
        parse_more_params(ts, done).value matches Some(list) ==> lexable_list(list),
    decreases ts.len(),
{
    lemma_suffix(ts, ts, ts);
    lemma_lexical_suffix(ts, ts);
    match current(ts) {
        Tok::Identifier(name) => if peek(ts) == Tok::Comma {
            lemma_suffix(advance(ts), ts, ts);
            lemma_lexical_suffix(advance(ts), ts);
            lemma_more_params_lexable(advance(advance(ts)), done.push(Expr::Identifier(name)));
        },
        _ => {},
    }
}

/// A block parsed from lexical tokens is lexable.
pub proof fn lemma_block_lexable(ts: Seq<Tok>)
    requires
        all_lexical(ts),
    ensures
        parse_block_statement(ts).value matches Some(list) ==> lexable_statements(list),
    decreases ts.len(), 8nat,
{
    lemma_block_items_lexable(ts, Seq::empty());
}

/// Further statements of a block parsed from lexical tokens are lexable.
pub proof fn lemma_block_items_lexable(ts: Seq<Tok>, done: Seq<Stmt>)
    requires
        all_lexical(ts),
        lexable_statements(done),
    ensures
        parse_block_items(ts, done).value matches Some(list) ==> lexable_statements(list),
    decreases ts.len(), 7nat,
{
    if current(ts) != Tok::RBrace && current(ts) != Tok::EOF {
        let next = parse_statement(ts);
        lemma_statement_lexable(ts);
        lemma_statement_rest(ts);
        lemma_lexical_suffix(next.rest, ts);
        match next.value {
            Some(statement) => lemma_block_items_lexable(advance(next.rest), done.push(statement)),
            None => {},
        }
    }
}

/// The statements parsed from lexical tokens, behind lexable ones, are
/// lexable.
pub proof fn lemma_statements_lexable(ts: Seq<Tok>, done: Outcome)
    requires
        all_lexical(ts),
        lexable_statements(done.statements),
    ensures
        lexable_statements(parse_statements(ts, done).statements),
    decreases ts.len(),
{
    if current(ts) != Tok::EOF {
        let next = parse_statement(ts);
        lemma_statement_lexable(ts);
        lemma_statement_rest(ts);
        lemma_synchronize(next.rest);
        lemma_suffix(synchronize(next.rest), next.rest, ts);
        lemma_lexical_suffix(synchronize(next.rest), ts);
        let with_next = match next.value {
            Some(statement) => Outcome {
                statements: done.statements.push(statement),
                errors: done.errors,
            },
            None => Outcome { statements: done.statements, errors: done.errors + 1 },
        };
        lemma_statements_lexable(synchronize(next.rest), with_next);
    }
}

/// Whatever the text, the program parsed from it is lexable.
pub proof fn theorem_parsed_program_is_lexable(text: Seq<char>)
    ensures
        lexable_statements(parse_program(tokens(text)).statements),
{
    lemma_tokens_lexical(text);
    lemma_statements_lexable(tokens(text), Outcome { statements: Seq::empty(), errors: 0 });
}

/// Parsing normalizes: if the program parsed from a text has a shape that
/// can be read back, then its canonical text parses to that same program,
/// without errors.
pub proof fn theorem_normalization_is_idempotent(text: Seq<char>)
    requires
        writable_program(parse_program(tokens(text)).statements),
    ensures
        parse_program(tokens(render_program(parse_program(tokens(text)).statements))) == (Outcome {
            statements: parse_program(tokens(text)).statements,
            errors: 0,
        }),
{
    theorem_parsed_program_is_lexable(text);
    theorem_roundtrip(parse_program(tokens(text)).statements);
}

} // verus!
