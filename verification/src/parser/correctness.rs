//! The parser is correct: the tokens of every well-formed phrase parse to
//! the tree that the phrase means.

use crate::ast::Expr;
use crate::parser::grammar::{
    accept, advance, continues, current, extend_expression, infix_operator,
    lemma_block_statement_rest, lemma_expression_rest, lemma_infix_rest, lemma_prefix_rest,
    lemma_statement_rest, parse_block_items, parse_block_statement, parse_call_arguments,
    parse_call_expression, parse_else, parse_expression, parse_expression_statement,
    parse_function_literal, parse_function_params, parse_grouped_expression, parse_if_blocks,
    parse_if_expression, parse_infix, parse_let_statement, parse_more_arguments, parse_more_params,
    parse_prefix, parse_prefix_expression, parse_program, parse_return_statement, parse_statement,
    peek, prefix_operator, synchronize, within, Outcome,
};
use crate::parser::laws::law_statement_by_statement;
use crate::parser::phrase::{
    binding, clause_end, clause_meaning, clause_meanings, final_token, first_clause_token,
    first_token, meaning, meanings, spelled, spelled_block, spelled_clause, spelled_clauses,
    spelled_list, spelled_names, spelled_program, well_formed, well_formed_block,
    well_formed_program, Clause, ClauseKind, Phrase,
};
use crate::parser::precedence::Precedence;
use crate::parser::phrase::{cons, infix_token, lemma_cons, prefix_token};
use crate::token::Tok;
use vstd::prelude::*;

verus! {

/// Whether an expression can start with `token`.
pub open spec fn starts_expression(token: Tok) -> bool {
    token is Identifier || token is Integer || token is True || token is False || token is LParen
        || token is Bang || token is Minus || token is If || token is Function
}

/// Whether an expression can end with `token`.
pub open spec fn ends_expression(token: Tok) -> bool {
    token is Identifier || token is Integer || token is True || token is False || token is RParen
        || token is RBrace
}

/// The tokens of a phrase start with its first token, which starts
/// expressions, and the phrase ends with a token that ends expressions.
pub proof fn lemma_phrase_ends(phrase: Phrase, tail: Seq<Tok>)
    ensures
        current(spelled(phrase, tail)) == first_token(phrase),
        spelled(phrase, tail).len() > tail.len(),
        starts_expression(first_token(phrase)),
        ends_expression(final_token(phrase)),
    decreases phrase,
{
    broadcast use lemma_cons;

    match phrase {
        Phrase::Identifier(name) => {},
        Phrase::Integer(text) => {},
        Phrase::Bool(value) => {},
        Phrase::Group(inner) => {
            lemma_phrase_ends(*inner, cons(Tok::RParen, tail));
        },
        Phrase::Prefix { operator, operand } => {
            lemma_phrase_ends(*operand, tail);
        },
        Phrase::Infix { operator, left, right } => {
            lemma_phrase_ends(*right, tail);
            lemma_phrase_ends(*left, cons(infix_token(operator), spelled(*right, tail)));
        },
        Phrase::If { condition, consequence, alternative } => {
            let behind = match alternative {
                Some(block) => cons(Tok::Else, spelled_block(block, tail)),
                None => tail,
            };
            match alternative {
                Some(block) => lemma_clauses_length(block, 0, cons(Tok::RBrace, tail)),
                None => {},
            }
            lemma_clauses_length(consequence, 0, cons(Tok::RBrace, behind));
            lemma_phrase_ends(*condition, cons(Tok::RParen, spelled_block(consequence, behind)));
        },
        Phrase::Function { parameters, body } => {
            lemma_clauses_length(body, 0, cons(Tok::RBrace, tail));
            lemma_names_length(parameters, 0, cons(Tok::RParen, spelled_block(body, tail)));
        },
        Phrase::Call { function, arguments } => {
            let closing = cons(Tok::RParen, tail);
            lemma_list_length(arguments, 0, closing);
            lemma_phrase_ends(*function, cons(Tok::LParen, spelled_list(arguments, 0, closing)));
        },
    }
}

/// The tokens of a clause start with its first token.
pub proof fn lemma_clause_ends(clause: Clause, tail: Seq<Tok>)
    ensures
        current(spelled_clause(clause, tail)) == first_clause_token(clause),
        spelled_clause(clause, tail).len() > tail.len(),
        first_clause_token(clause) is Let || first_clause_token(clause) is Return
            || starts_expression(first_clause_token(clause)),
    decreases clause,
{
    broadcast use lemma_cons;

    lemma_phrase_ends(clause.value, clause_end(clause, tail));
}

/// A spelled list is at least as long as what follows it.
pub proof fn lemma_list_length(list: Seq<Phrase>, from: nat, tail: Seq<Tok>)
    ensures
        spelled_list(list, from, tail).len() >= tail.len(),
    decreases list, list.len() - from,
{
    broadcast use lemma_cons;

    if from < list.len() {
        lemma_list_length(list, from + 1, tail);
        lemma_phrase_ends(list[from as int], spelled_list(list, from + 1, tail));
    }
}

/// Spelled names are at least as long as what follows them.
pub proof fn lemma_names_length(list: Seq<Seq<char>>, from: nat, tail: Seq<Tok>)
    ensures
        spelled_names(list, from, tail).len() >= tail.len(),
    decreases list.len() - from,
{
    broadcast use lemma_cons;

    if from < list.len() {
        lemma_names_length(list, from + 1, tail);
    }
}

/// Spelled clauses are at least as long as what follows them.
pub proof fn lemma_clauses_length(list: Seq<Clause>, from: nat, tail: Seq<Tok>)
    ensures
        spelled_clauses(list, from, tail).len() >= tail.len(),
    decreases list, list.len() - from,
{
    if from < list.len() {
        lemma_clauses_length(list, from + 1, tail);
        lemma_clause_ends(list[from as int], spelled_clauses(list, from + 1, tail));
    }
}

/// Whether `tail` may stand behind `phrase` without being taken for a part
/// of it: its first token binds no more tightly than the phrase holds
/// together, and is not an `else`.
pub open spec fn may_follow(phrase: Phrase, tail: Seq<Tok>) -> bool {
    Precedence::of(current(tail)).level() <= binding(phrase) && current(tail) != Tok::Else
}

/// Whether a phrase can be read where operators must bind more tightly than
/// `floor`: if it is a binary operation, its operator does.
pub open spec fn fits(phrase: Phrase, floor: Precedence) -> bool {
    floor.level() < Precedence::CALL.level() && (phrase is Infix ==> floor.level() < binding(
        phrase,
    ))
}

/// Reading a well-formed phrase amounts to extending the whole of it: the
/// parser finds what the phrase means and stands at its last token, ready to
/// go on.
pub proof fn lemma_parse_phrase(phrase: Phrase, tail: Seq<Tok>, floor: Precedence)
    requires
        well_formed(phrase),
        fits(phrase, floor),
        may_follow(phrase, tail),
    ensures
        parse_expression(spelled(phrase, tail), floor) == extend_expression(
            meaning(phrase),
            cons(final_token(phrase), tail),
            floor,
        ),
    decreases phrase, 4nat,
{
    broadcast use lemma_cons;

    let ts = spelled(phrase, tail);
    match phrase {
        Phrase::Infix { operator, left, right } => {
            let token = infix_token(operator);
            let right_side = spelled(*right, tail);
            let at_operator = cons(token, right_side);
            let at_left = cons(final_token(*left), at_operator);
            let at_right = cons(final_token(*right), tail);
            assert(ts == spelled(*left, at_operator));
            assert(infix_operator(token) == Some(operator));
            assert(!(token is LParen) && token != Tok::Else && token != Tok::Semicolon);
            assert(Precedence::of(token).level() < Precedence::CALL.level());
            lemma_parse_phrase(*left, at_operator, floor);
            assert(continues(peek(at_left), floor));
            lemma_parse_whole_phrase(*right, tail, Precedence::of(token));
            assert(parse_expression(right_side, Precedence::of(token)) == accept(
                meaning(*right),
                at_right,
            ));
            assert(parse_infix(meaning(*left), at_operator) == accept(meaning(phrase), at_right));
            lemma_infix_rest(meaning(*left), at_operator);
            assert(within(at_right, at_operator) == at_right);
            assert(extend_expression(meaning(*left), at_left, floor) == extend_expression(
                meaning(phrase),
                at_right,
                floor,
            ));
        },
        Phrase::Call { function, arguments } => {
            let closing = cons(Tok::RParen, tail);
            let opening = cons(Tok::LParen, spelled_list(arguments, 0, closing));
            let at_function = cons(final_token(*function), opening);
            assert(ts == spelled(*function, opening));
            lemma_parse_phrase(*function, opening, floor);
            assert(continues(peek(at_function), floor));
            lemma_parse_call(meaning(*function), arguments, tail);
            lemma_infix_rest(meaning(*function), opening);
            assert(parse_infix(meaning(*function), opening) == accept(meaning(phrase), closing));
            assert(within(closing, opening) == closing);
            assert(extend_expression(meaning(*function), at_function, floor) == extend_expression(
                meaning(phrase),
                closing,
                floor,
            ));
        },
        _ => {
            lemma_parse_form(phrase, tail);
            lemma_prefix_rest(ts);
        },
    }
}

/// Reading a well-formed phrase, where what follows does not continue it,
/// gives what the phrase means and leaves the parser at its last token.
pub proof fn lemma_parse_whole_phrase(phrase: Phrase, tail: Seq<Tok>, floor: Precedence)
    requires
        well_formed(phrase),
        fits(phrase, floor),
        may_follow(phrase, tail),
        !continues(current(tail), floor),
    ensures
        parse_expression(spelled(phrase, tail), floor) == accept(
            meaning(phrase),
            cons(final_token(phrase), tail),
        ),
    decreases phrase, 5nat,
{
    broadcast use lemma_cons;

    lemma_parse_phrase(phrase, tail, floor);
}

/// Reading the arguments of a spelled call gives the call.
pub proof fn lemma_parse_call(function: Expr, arguments: Seq<Phrase>, tail: Seq<Tok>)
    requires
        forall|i: int| 0 <= i < arguments.len() ==> well_formed(#[trigger] arguments[i]),
    ensures
        parse_infix(
            function,
            cons(Tok::LParen, spelled_list(arguments, 0, cons(Tok::RParen, tail))),
        ) == accept(
            Expr::Call { function: Box::new(function), arguments: meanings(arguments) },
            cons(Tok::RParen, tail),
        ),
    decreases arguments, arguments.len() + 1,
{
    broadcast use lemma_cons;

    let closing = cons(Tok::RParen, tail);
    let opening = cons(Tok::LParen, spelled_list(arguments, 0, closing));
    assert(parse_infix(function, opening) == parse_call_expression(function, opening));
    if arguments.len() == 0 {
        assert(meanings(arguments) =~= Seq::empty());
        assert(parse_call_arguments(opening) == accept(Seq::<Expr>::empty(), closing));
    } else {
        let behind = spelled_list(arguments, 1, closing);
        let first = spelled(arguments[0], behind);
        assert(advance(opening) == first);
        lemma_phrase_ends(arguments[0], behind);
        assert(peek(opening) != Tok::RParen);
        lemma_list_separator(arguments, 1, closing);
        lemma_parse_whole_phrase(arguments[0], behind, Precedence::LOWEST);
        let at_first = cons(final_token(arguments[0]), behind);
        assert(parse_expression(first, Precedence::LOWEST) == accept(
            meaning(arguments[0]),
            at_first,
        ));
        lemma_expression_rest(first, Precedence::LOWEST);
        assert(within(at_first, opening) == at_first);
        assert(seq![meaning(arguments[0])] =~= meanings(arguments).take(1));
        lemma_parse_arguments(arguments, 1, tail);
        assert(parse_call_arguments(opening) == accept(meanings(arguments), closing));
    }
}

/// Behind an element of a spelled list comes a comma, or else what follows
/// the list.
pub proof fn lemma_list_separator(list: Seq<Phrase>, from: nat, tail: Seq<Tok>)
    requires
        1 <= from <= list.len(),
    ensures
        from < list.len() ==> current(spelled_list(list, from, tail)) == Tok::Comma,
        from == list.len() ==> spelled_list(list, from, tail) == tail,
{
    broadcast use lemma_cons;

}

/// Reading the spelled arguments from index `from` on completes the list.
pub proof fn lemma_parse_arguments(list: Seq<Phrase>, from: nat, tail: Seq<Tok>)
    requires
        forall|i: int| 0 <= i < list.len() ==> well_formed(#[trigger] list[i]),
        1 <= from <= list.len(),
    ensures
        parse_more_arguments(
            cons(final_token(list[from - 1]), spelled_list(list, from, cons(Tok::RParen, tail))),
            meanings(list).take(from as int),
        ) == accept(meanings(list), cons(Tok::RParen, tail)),
    decreases list, list.len() - from,
{
    broadcast use lemma_cons;

    let closing = cons(Tok::RParen, tail);
    let ts = cons(final_token(list[from - 1]), spelled_list(list, from, closing));
    if from == list.len() {
        assert(meanings(list).take(from as int) =~= meanings(list));
        assert(peek(ts) == Tok::RParen);
    } else {
        let behind = spelled_list(list, from + 1, closing);
        let next = spelled(list[from as int], behind);
        assert(spelled_list(list, from, closing) == cons(Tok::Comma, next));
        assert(peek(ts) == Tok::Comma);
        assert(advance(advance(ts)) == next);
        lemma_list_separator(list, from + 1, closing);
        lemma_parse_whole_phrase(list[from as int], behind, Precedence::LOWEST);
        let at_next = cons(final_token(list[from as int]), behind);
        assert(parse_expression(next, Precedence::LOWEST) == accept(
            meaning(list[from as int]),
            at_next,
        ));
        lemma_expression_rest(next, Precedence::LOWEST);
        assert(within(at_next, next) == at_next);
        assert(meanings(list).take(from as int).push(meaning(list[from as int])) =~= meanings(
            list,
        ).take(from as int + 1));
        lemma_parse_arguments(list, from + 1, tail);
    }
}

/// Reading the prefix form of a well-formed phrase that is neither a binary
/// operation nor a call gives what the phrase means.
pub proof fn lemma_parse_form(phrase: Phrase, tail: Seq<Tok>)
    requires
        well_formed(phrase),
        !(phrase is Infix),
        !(phrase is Call),
        may_follow(phrase, tail),
    ensures
        parse_prefix(spelled(phrase, tail)) == accept(
            meaning(phrase),
            cons(final_token(phrase), tail),
        ),
    decreases phrase, 3nat,
{
    broadcast use lemma_cons;

    match phrase {
        Phrase::Identifier(name) => {},
        Phrase::Integer(text) => {},
        Phrase::Bool(value) => {},
        Phrase::Group(_) => lemma_parse_group(phrase, tail),
        Phrase::Prefix { .. } => lemma_parse_prefix_operation(phrase, tail),
        Phrase::If { .. } => lemma_parse_if(phrase, tail),
        Phrase::Function { .. } => lemma_parse_function(phrase, tail),
        Phrase::Infix { .. } => {},
        Phrase::Call { .. } => {},
    }
}

/// Reading a phrase in parentheses gives what the phrase inside means.
pub proof fn lemma_parse_group(phrase: Phrase, tail: Seq<Tok>)
    requires
        well_formed(phrase),
        phrase is Group,
    ensures
        parse_prefix(spelled(phrase, tail)) == accept(meaning(phrase), cons(Tok::RParen, tail)),
    decreases phrase, 2nat,
{
    broadcast use lemma_cons;

    let inner = *phrase->Group_0;
    let ts = spelled(phrase, tail);
    let closing = cons(Tok::RParen, tail);
    let inside = spelled(inner, closing);
    let at_inner = cons(final_token(inner), closing);
    assert(ts == cons(Tok::LParen, inside));
    lemma_parse_whole_phrase(inner, closing, Precedence::LOWEST);
    assert(parse_expression(inside, Precedence::LOWEST) == accept(meaning(inner), at_inner));
    assert(parse_grouped_expression(inside) == accept(meaning(inner), closing));
}

/// Reading a unary operation gives it.
pub proof fn lemma_parse_prefix_operation(phrase: Phrase, tail: Seq<Tok>)
    requires
        well_formed(phrase),
        phrase is Prefix,
        may_follow(phrase, tail),
    ensures
        parse_prefix(spelled(phrase, tail)) == accept(
            meaning(phrase),
            cons(final_token(phrase), tail),
        ),
    decreases phrase, 2nat,
{
    broadcast use lemma_cons;

    let operator = phrase->Prefix_operator;
    let operand = *phrase->operand;
    let ts = spelled(phrase, tail);
    let inside = spelled(operand, tail);
    let at_operand = cons(final_token(operand), tail);
    assert(ts == cons(prefix_token(operator), inside));
    assert(prefix_operator(prefix_token(operator)) == Some(operator));
    lemma_parse_whole_phrase(operand, tail, Precedence::PREFIX);
    assert(parse_expression(inside, Precedence::PREFIX) == accept(meaning(operand), at_operand));
    assert(parse_prefix_expression(ts) == accept(meaning(phrase), at_operand));
}

/// What follows the first block of a spelled conditional.
pub open spec fn behind_consequence(phrase: Phrase, tail: Seq<Tok>) -> Seq<Tok> {
    match phrase->alternative {
        Some(block) => cons(Tok::Else, spelled_block(block, tail)),
        None => tail,
    }
}

/// Reading a conditional gives it.
pub proof fn lemma_parse_if(phrase: Phrase, tail: Seq<Tok>)
    requires
        well_formed(phrase),
        phrase is If,
        current(tail) != Tok::Else,
    ensures
        parse_prefix(spelled(phrase, tail)) == accept(meaning(phrase), cons(Tok::RBrace, tail)),
    decreases phrase, 2nat,
{
    let condition = *phrase->condition;
    let ts = spelled(phrase, tail);
    let at_brace = spelled_block(phrase->consequence, behind_consequence(phrase, tail));
    let after_condition = cons(Tok::RParen, at_brace);
    let inside = spelled(condition, after_condition);
    let at_condition = cons(final_token(condition), after_condition);
    assert(ts == cons(Tok::If, cons(Tok::LParen, inside)));
    lemma_cons(Tok::If, cons(Tok::LParen, inside));
    lemma_cons(Tok::LParen, inside);
    lemma_cons(Tok::RParen, at_brace);
    assert(advance(advance(ts)) == inside);
    lemma_parse_whole_phrase(condition, after_condition, Precedence::LOWEST);
    lemma_expression_rest(inside, Precedence::LOWEST);
    assert(parse_if_expression(ts) == parse_if_blocks(meaning(condition), at_condition));
    lemma_parse_if_blocks(phrase, tail);
    assert(parse_prefix(ts) == parse_if_expression(ts));
}

/// Reading the blocks of a conditional gives the conditional.
pub proof fn lemma_parse_if_blocks(phrase: Phrase, tail: Seq<Tok>)
    requires
        well_formed(phrase),
        phrase is If,
        current(tail) != Tok::Else,
    ensures
        parse_if_blocks(
            meaning(*phrase->condition),
            cons(
                final_token(*phrase->condition),
                cons(
                    Tok::RParen,
                    spelled_block(phrase->consequence, behind_consequence(phrase, tail)),
                ),
            ),
        ) == accept(meaning(phrase), cons(Tok::RBrace, tail)),
    decreases phrase, 1nat,
{
    let condition = *phrase->condition;
    let consequence = phrase->consequence;
    let behind = behind_consequence(phrase, tail);
    let block_end = cons(Tok::RBrace, behind);
    let inner = spelled_clauses(consequence, 0, block_end);
    let at_brace = cons(Tok::LBrace, inner);
    let after_condition = cons(Tok::RParen, at_brace);
    let at_condition = cons(final_token(condition), after_condition);
    assert(at_brace == spelled_block(consequence, behind));
    lemma_cons(final_token(condition), after_condition);
    lemma_cons(Tok::RParen, at_brace);
    lemma_cons(Tok::LBrace, inner);
    assert(peek(at_condition) == Tok::RParen);
    assert(advance(at_condition) == after_condition);
    assert(peek(after_condition) == Tok::LBrace);
    assert(advance(after_condition) == at_brace);
    assert(advance(at_brace) == inner);
    lemma_parse_block(consequence, behind);
    assert(parse_block_statement(inner) == accept(clause_meanings(consequence), block_end));
    lemma_cons(Tok::RBrace, behind);
    assert(within(block_end, at_brace) == block_end) by {
        lemma_block_statement_rest(inner);
    }
    assert(parse_if_blocks(meaning(condition), at_condition) == parse_else(
        meaning(condition),
        clause_meanings(consequence),
        block_end,
    ));
    lemma_parse_else(phrase, tail);
}

/// Reading what follows the first block of a conditional gives the
/// conditional.
pub proof fn lemma_parse_else(phrase: Phrase, tail: Seq<Tok>)
    requires
        well_formed(phrase),
        phrase is If,
        current(tail) != Tok::Else,
    ensures
        parse_else(
            meaning(*phrase->condition),
            clause_meanings(phrase->consequence),
            cons(Tok::RBrace, behind_consequence(phrase, tail)),
        ) == accept(meaning(phrase), cons(Tok::RBrace, tail)),
    decreases phrase, 0nat,
{
    let behind = behind_consequence(phrase, tail);
    let block_end = cons(Tok::RBrace, behind);
    lemma_cons(Tok::RBrace, behind);
    match phrase->alternative {
        Some(block) => {
            let closing = cons(Tok::RBrace, tail);
            let inner = spelled_clauses(block, 0, closing);
            let at_brace = cons(Tok::LBrace, inner);
            assert(at_brace == spelled_block(block, tail));
            assert(behind == cons(Tok::Else, at_brace));
            lemma_cons(Tok::Else, at_brace);
            lemma_cons(Tok::LBrace, inner);
            assert(peek(block_end) == Tok::Else);
            assert(advance(block_end) == behind);
            assert(peek(behind) == Tok::LBrace);
            assert(advance(advance(advance(block_end))) == inner);
            lemma_parse_block(block, tail);
        },
        None => {
            assert(peek(block_end) == current(tail));
        },
    }
}

/// Reading a function literal gives it.
pub proof fn lemma_parse_function(phrase: Phrase, tail: Seq<Tok>)
    requires
        well_formed(phrase),
        phrase is Function,
    ensures
        parse_prefix(spelled(phrase, tail)) == accept(meaning(phrase), cons(Tok::RBrace, tail)),
    decreases phrase, 2nat,
{
    broadcast use lemma_cons;

    let parameters = phrase->parameters;
    let body = phrase->body;
    let ts = spelled(phrase, tail);
    let at_body = spelled_block(body, tail);
    let after_parameters = cons(Tok::RParen, at_body);
    let opening = cons(Tok::LParen, spelled_names(parameters, 0, after_parameters));
    assert(ts == cons(Tok::Function, opening));
    lemma_parse_names(parameters, at_body);
    lemma_parse_block(body, tail);
    assert(advance(advance(after_parameters)) == spelled_clauses(
        body,
        0,
        cons(Tok::RBrace, tail),
    ));
    assert(parse_function_literal(ts) == accept(meaning(phrase), cons(Tok::RBrace, tail)));
}

/// The identifiers that a list of names denotes.
pub open spec fn named(names: Seq<Seq<char>>) -> Seq<Expr> {
    Seq::new(names.len(), |i: int| Expr::Identifier(names[i]))
}

/// Reading spelled parameters gives them and leaves the parser at the
/// closing `)`.
pub proof fn lemma_parse_names(names: Seq<Seq<char>>, tail: Seq<Tok>)
    ensures
        parse_function_params(
            cons(Tok::LParen, spelled_names(names, 0, cons(Tok::RParen, tail))),
        ) == accept(named(names), cons(Tok::RParen, tail)),
{
    broadcast use lemma_cons;

    let closing = cons(Tok::RParen, tail);
    if names.len() == 0 {
        assert(named(names) =~= Seq::empty());
    } else {
        assert(named(names).take(0) =~= Seq::empty());
        lemma_parse_more_names(names, 0, tail);
    }
}

/// Reading the spelled parameters from index `from` on completes the list.
pub proof fn lemma_parse_more_names(names: Seq<Seq<char>>, from: nat, tail: Seq<Tok>)
    requires
        from < names.len(),
    ensures
        parse_more_params(
            cons(
                Tok::Identifier(names[from as int]),
                spelled_names(names, from + 1, cons(Tok::RParen, tail)),
            ),
            named(names).take(from as int),
        ) == accept(named(names), cons(Tok::RParen, tail)),
    decreases names.len() - from,
{
    broadcast use lemma_cons;

    let closing = cons(Tok::RParen, tail);
    let behind = spelled_names(names, from + 1, closing);
    assert(named(names).take(from as int).push(Expr::Identifier(names[from as int])) =~= named(
        names,
    ).take(from as int + 1));
    if from + 1 == names.len() {
        assert(named(names).take(from as int + 1) =~= named(names));
        assert(behind == closing);
    } else {
        assert(behind == cons(
            Tok::Comma,
            cons(
                Tok::Identifier(names[from as int + 1]),
                spelled_names(names, from + 2, closing),
            ),
        ));
        lemma_parse_more_names(names, from + 1, tail);
    }
}

/// Where the parser stands after a clause: at the `;` of an expression
/// that has one, else at the last token of the clause's expression.
pub open spec fn after_clause(clause: Clause, tail: Seq<Tok>) -> Seq<Tok> {
    if clause.kind is Expression && clause.terminated {
        cons(Tok::Semicolon, tail)
    } else {
        cons(final_token(clause.value), clause_end(clause, tail))
    }
}

/// Reading a clause gives the statement it denotes.
pub proof fn lemma_parse_clause(clause: Clause, tail: Seq<Tok>)
    requires
        well_formed(clause.value),
        !clause.terminated ==> Precedence::of(current(tail)).level() == 0 && current(tail)
            != Tok::Else && current(tail) != Tok::Semicolon,
    ensures
        parse_statement(spelled_clause(clause, tail)) == accept(
            clause_meaning(clause),
            after_clause(clause, tail),
        ),
    decreases clause, 0nat,
{
    broadcast use lemma_cons;

    let ts = spelled_clause(clause, tail);
    let ending = clause_end(clause, tail);
    let inside = spelled(clause.value, ending);
    let at_value = cons(final_token(clause.value), ending);
    lemma_parse_whole_phrase(clause.value, ending, Precedence::LOWEST);
    assert(parse_expression(inside, Precedence::LOWEST) == accept(meaning(clause.value), at_value));
    match clause.kind {
        ClauseKind::Let(name) => {
            let at_name = cons(Tok::Identifier(name), cons(Tok::Assign, inside));
            assert(ts == cons(Tok::Let, at_name));
            assert(advance(advance(at_name)) == inside);
            assert(parse_let_statement(ts) == accept(clause_meaning(clause), at_value));
        },
        ClauseKind::Return => {
            assert(ts == cons(Tok::Return, inside));
            assert(parse_return_statement(ts) == accept(clause_meaning(clause), at_value));
        },
        ClauseKind::Expression => {
            lemma_phrase_ends(clause.value, ending);
            assert(parse_expression_statement(ts) == accept(
                clause_meaning(clause),
                after_clause(clause, tail),
            ));
        },
    }
}

/// Reading the clauses of a block gives their statements and leaves the
/// parser at the closing `}`.
pub proof fn lemma_parse_block(list: Seq<Clause>, tail: Seq<Tok>)
    requires
        well_formed_block(list),
    ensures
        parse_block_statement(spelled_clauses(list, 0, cons(Tok::RBrace, tail))) == accept(
            clause_meanings(list),
            cons(Tok::RBrace, tail),
        ),
    decreases list, list.len() + 1,
{
    assert(clause_meanings(list).take(0) =~= Seq::empty());
    lemma_parse_block_items(list, 0, tail);
}

/// Reading the clauses of a block from index `from` on completes the block.
pub proof fn lemma_parse_block_items(list: Seq<Clause>, from: nat, tail: Seq<Tok>)
    requires
        well_formed_block(list),
        from <= list.len(),
    ensures
        parse_block_items(
            spelled_clauses(list, from, cons(Tok::RBrace, tail)),
            clause_meanings(list).take(from as int),
        ) == accept(clause_meanings(list), cons(Tok::RBrace, tail)),
    decreases list, list.len() - from,
{
    broadcast use lemma_cons;

    let closing = cons(Tok::RBrace, tail);
    let ts = spelled_clauses(list, from, closing);
    let done = clause_meanings(list).take(from as int);
    if from == list.len() {
        assert(done =~= clause_meanings(list));
    } else {
        let clause = list[from as int];
        let behind = spelled_clauses(list, from + 1, closing);
        assert(ts == spelled_clause(clause, behind));
        lemma_clause_ends(clause, behind);
        if from + 1 < list.len() {
            let next = list[from as int + 1];
            assert(behind == spelled_clause(next, spelled_clauses(list, from + 2, closing)));
            lemma_clause_ends(next, spelled_clauses(list, from + 2, closing));
        }
        lemma_parse_clause(clause, behind);
        lemma_statement_rest(ts);
        assert(advance(after_clause(clause, behind)) == behind);
        assert(done.push(clause_meaning(clause)) =~= clause_meanings(list).take(from as int + 1));
        lemma_parse_block_items(list, from + 1, tail);
    }
}

/// Reading the clauses of a program from index `from` on gives their
/// statements and no error.
pub proof fn lemma_parse_clauses(program: Seq<Clause>, from: nat)
    requires
        well_formed_program(program),
        from <= program.len(),
    ensures
        parse_program(spelled_clauses(program, from, Seq::empty())) == (Outcome {
            statements: clause_meanings(program).skip(from as int),
            errors: 0,
        }),
    decreases program.len() - from,
{
    broadcast use lemma_cons;

    let ts = spelled_clauses(program, from, Seq::empty());
    if from == program.len() {
        assert(clause_meanings(program).skip(from as int) =~= Seq::empty());
    } else {
        let clause = program[from as int];
        let behind = spelled_clauses(program, from + 1, Seq::empty());
        let after = after_clause(clause, behind);
        assert(ts == spelled_clause(clause, behind));
        assert(well_formed(clause.value));
        if !clause.terminated {
            assert(from + 1 == program.len());
            assert(behind.len() == 0);
        }
        lemma_clause_ends(clause, behind);
        lemma_phrase_ends(clause.value, clause_end(clause, behind));
        lemma_parse_clause(clause, behind);
        assert(synchronize(after) == behind) by {
            if clause.kind is Expression && clause.terminated {
            } else {
                assert(synchronize(after) == synchronize(clause_end(clause, behind)));
            }
        }
        law_statement_by_statement(ts);
        lemma_parse_clauses(program, from + 1);
        assert(seq![clause_meaning(clause)] + clause_meanings(program).skip(from as int + 1)
            =~= clause_meanings(program).skip(from as int));
    }
}

/// The parser is correct on well-formed programs: it reads the tokens of
/// each as the statements that its clauses denote, and records no error.
pub proof fn theorem_parser_correct(program: Seq<Clause>)
    requires
        well_formed_program(program),
    ensures
        parse_program(spelled_program(program)) == (Outcome {
            statements: clause_meanings(program),
            errors: 0,
        }),
{
    lemma_parse_clauses(program, 0);
    assert(clause_meanings(program).skip(0) =~= clause_meanings(program));
}

/// A well-formed statement, alone in the input and with or without its
/// `;`, parses to exactly one statement, the one it denotes, and no error.
pub proof fn law_well_formed_statement(clause: Clause)
    requires
        well_formed(clause.value),
    ensures
        parse_program(spelled_clause(clause, Seq::empty())) == (Outcome {
            statements: seq![clause_meaning(clause)],
            errors: 0,
        }),
{
    let program = seq![clause];
    assert(well_formed_program(program));
    theorem_parser_correct(program);
    assert(spelled_clauses(program, 1, Seq::empty()) == Seq::<Tok>::empty());
    assert(spelled_program(program) == spelled_clause(clause, Seq::empty()));
    assert(clause_meanings(program) =~= seq![clause_meaning(clause)]);
}

} // verus!
