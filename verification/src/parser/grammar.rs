//! The grammar, as a mathematical function from token streams to syntax trees.
//!
//! A token stream is the sequence of tokens that lie ahead, starting with the
//! one under examination (the current token) and without the end marker: past
//! its end every token is the end marker. Each function here says, for one
//! construct, which tree the stream denotes and where the stream stands
//! afterwards. By the parser's convention a construct leaves the stream at its
//! own last token, not behind it.
//!
//! The functions call each other recursively on streams that never grow.
//! That they never grow is a theorem ([`lemma_statement_rest`] and its
//! companions), not something a definition can use about itself, so wherever
//! one parse continues after another the definition goes through [`within`],
//! which is the identity on every stream that actually occurs.

use crate::ast::{Expr, InfixOperator, PrefixOperator, Stmt};
use crate::parser::number::integer_value;
use crate::parser::precedence::Precedence;
use crate::token::Tok;
use vstd::prelude::*;

verus! {

/// What parsing one construct gives: its value, or `None` where the tokens do
/// not form the construct, and the stream as it stands afterwards.
pub ghost struct Parsed<T> {
    pub value: Option<T>,
    pub rest: Seq<Tok>,
}

/// The construct was found.
pub open spec fn accept<T>(value: T, rest: Seq<Tok>) -> Parsed<T> {
    Parsed { value: Some(value), rest }
}

/// The construct was not found; the stream stands at `rest`.
pub open spec fn reject<T>(rest: Seq<Tok>) -> Parsed<T> {
    Parsed { value: None, rest }
}

/// The token under examination.
pub open spec fn current(ts: Seq<Tok>) -> Tok {
    if ts.len() > 0 {
        ts[0]
    } else {
        Tok::EOF
    }
}

/// The token after the current one.
pub open spec fn peek(ts: Seq<Tok>) -> Tok {
    if ts.len() > 1 {
        ts[1]
    } else {
        Tok::EOF
    }
}

/// The stream with the current token passed. At the end it stays at the end.
pub open spec fn advance(ts: Seq<Tok>) -> Seq<Tok> {
    if ts.len() > 0 {
        ts.skip(1)
    } else {
        ts
    }
}

/// `rest`, which is never longer than the stream `ts` it was parsed from.
pub open spec fn within(rest: Seq<Tok>, ts: Seq<Tok>) -> Seq<Tok> {
    if rest.len() <= ts.len() {
        rest
    } else {
        ts
    }
}

/// The unary operator that a token denotes in prefix position.
pub open spec fn prefix_operator(token: Tok) -> Option<PrefixOperator> {
    match token {
        Tok::Bang => Some(PrefixOperator::Not),
        Tok::Minus => Some(PrefixOperator::Negative),
        _ => None,
    }
}

/// The binary operator that a token denotes in infix position.
pub open spec fn infix_operator(token: Tok) -> Option<InfixOperator> {
    match token {
        Tok::Eq => Some(InfixOperator::Equal),
        Tok::NotEq => Some(InfixOperator::NotEqual),
        Tok::Plus => Some(InfixOperator::Add),
        Tok::Minus => Some(InfixOperator::Sub),
        Tok::Asterisk => Some(InfixOperator::Mult),
        Tok::Slash => Some(InfixOperator::Div),
        Tok::GT => Some(InfixOperator::GreaterThan),
        Tok::LT => Some(InfixOperator::LessThan),
        _ => None,
    }
}

/// An integer literal with the given text.
pub open spec fn parse_integer(text: Seq<char>) -> Option<Expr> {
    match integer_value(text) {
        Some(value) => Some(Expr::Int(value)),
        None => None,
    }
}

/// A boolean literal at the current token.
pub open spec fn parse_boolean(ts: Seq<Tok>) -> Option<Expr> {
    match current(ts) {
        Tok::True => Some(Expr::Bool(true)),
        Tok::False => Some(Expr::Bool(false)),
        _ => None,
    }
}

/// A statement: `let`, `return`, or else an expression.
pub open spec fn parse_statement(ts: Seq<Tok>) -> Parsed<Stmt>
    decreases ts.len(), 6nat,
{
    match current(ts) {
        Tok::Let => parse_let_statement(ts),
        Tok::Return => parse_return_statement(ts),
        _ => parse_expression_statement(ts),
    }
}

/// `let`, an identifier, `=`, an expression. The stream stands at `let`.
pub open spec fn parse_let_statement(ts: Seq<Tok>) -> Parsed<Stmt>
    decreases ts.len(), 5nat,
{
    let at_name = advance(ts);
    match current(at_name) {
        Tok::Identifier(name) => if peek(at_name) == Tok::Assign {
            let value = parse_expression(advance(advance(at_name)), Precedence::LOWEST);
            match value.value {
                Some(value_tree) => accept(Stmt::Let { name, value: value_tree }, value.rest),
                None => reject(value.rest),
            }
        } else {
            reject(at_name)
        },
        _ => reject(at_name),
    }
}

/// `return` and an expression. The stream stands at `return`.
pub open spec fn parse_return_statement(ts: Seq<Tok>) -> Parsed<Stmt>
    decreases ts.len(), 5nat,
{
    let value = parse_expression(advance(ts), Precedence::LOWEST);
    match value.value {
        Some(value_tree) => accept(Stmt::Return { value: value_tree }, value.rest),
        None => reject(value.rest),
    }
}

/// An expression, and the `;` after it if there is one.
pub open spec fn parse_expression_statement(ts: Seq<Tok>) -> Parsed<Stmt>
    decreases ts.len(), 5nat,
{
    let value = parse_expression(ts, Precedence::LOWEST);
    match value.value {
        Some(value_tree) => accept(
            Stmt::Expression(value_tree),
            if peek(value.rest) == Tok::Semicolon {
                advance(value.rest)
            } else {
                value.rest
            },
        ),
        None => reject(value.rest),
    }
}

/// An expression whose operators all bind more tightly than `floor`: one
/// prefix form, extended by every infix continuation that binds more tightly.
pub open spec fn parse_expression(ts: Seq<Tok>, floor: Precedence) -> Parsed<Expr>
    decreases ts.len(), 3nat,
{
    let first = parse_prefix(ts);
    match first.value {
        Some(left) => extend_expression(left, within(first.rest, ts), floor),
        None => reject(first.rest),
    }
}

/// Whether `token`, met behind an expression, continues that expression
/// above `floor`: it is not `;` and binds more tightly than `floor`.
pub open spec fn continues(token: Tok, floor: Precedence) -> bool {
    token != Tok::Semicolon && floor.level() < Precedence::of(token).level()
}

/// `left`, extended by the infix continuations that follow it for as long as
/// the next token continues the expression above `floor`.
pub open spec fn extend_expression(left: Expr, ts: Seq<Tok>, floor: Precedence) -> Parsed<Expr>
    decreases ts.len(), 2nat,
{
    if continues(peek(ts), floor) {
        let longer = parse_infix(left, advance(ts));
        match longer.value {
            Some(tree) => extend_expression(tree, within(longer.rest, advance(ts)), floor),
            None => reject(longer.rest),
        }
    } else {
        accept(left, ts)
    }
}

/// The form that the current token starts: an identifier, a literal, a
/// parenthesised expression, a unary operation, an `if` or a function literal.
/// No other token starts an expression.
pub open spec fn parse_prefix(ts: Seq<Tok>) -> Parsed<Expr>
    decreases ts.len(), 2nat,
{
    match current(ts) {
        Tok::Identifier(name) => accept(Expr::Identifier(name), ts),
        Tok::Integer(text) => Parsed { value: parse_integer(text), rest: ts },
        Tok::LParen => parse_grouped_expression(advance(ts)),
        Tok::True | Tok::False => Parsed { value: parse_boolean(ts), rest: ts },
        Tok::Bang | Tok::Minus => parse_prefix_expression(ts),
        Tok::If => parse_if_expression(ts),
        Tok::Function => parse_function_literal(ts),
        _ => reject(ts),
    }
}

/// An expression and the `)` that closes it. The stream stands behind the
/// opening `(`. The `)` is looked for even if the expression is malformed.
pub open spec fn parse_grouped_expression(ts: Seq<Tok>) -> Parsed<Expr>
    decreases ts.len(), 4nat,
{
    let inner = parse_expression(ts, Precedence::LOWEST);
    if peek(inner.rest) == Tok::RParen {
        Parsed { value: inner.value, rest: advance(inner.rest) }
    } else {
        reject(inner.rest)
    }
}

/// A unary operator and its operand, which binds as tightly as a prefix.
pub open spec fn parse_prefix_expression(ts: Seq<Tok>) -> Parsed<Expr>
    decreases ts.len(), 1nat,
{
    match prefix_operator(current(ts)) {
        Some(operator) => {
            let operand = parse_expression(advance(ts), Precedence::PREFIX);
            match operand.value {
                Some(tree) => accept(
                    Expr::Prefix { operator, operand: Box::new(tree) },
                    operand.rest,
                ),
                None => reject(operand.rest),
            }
        },
        None => reject(ts),
    }
}

/// The continuation of `left` that the current token starts: a call if it is
/// `(`, else a binary operation whose right operand binds more tightly than
/// the operator itself, which makes operators of one level associate left.
pub open spec fn parse_infix(left: Expr, ts: Seq<Tok>) -> Parsed<Expr>
    decreases ts.len(), 6nat,
{
    match current(ts) {
        Tok::LParen => parse_call_expression(left, ts),
        token => match infix_operator(token) {
            Some(operator) => {
                let right = parse_expression(advance(ts), Precedence::of(token));
                match right.value {
                    Some(tree) => accept(
                        Expr::Infix { operator, left: Box::new(left), right: Box::new(tree) },
                        right.rest,
                    ),
                    None => reject(right.rest),
                }
            },
            None => reject(ts),
        },
    }
}

/// A call of `function` with the arguments that follow. The stream stands at
/// the `(` that opens them.
pub open spec fn parse_call_expression(function: Expr, ts: Seq<Tok>) -> Parsed<Expr>
    decreases ts.len(), 5nat,
{
    let arguments = parse_call_arguments(ts);
    match arguments.value {
        Some(list) => accept(
            Expr::Call { function: Box::new(function), arguments: list },
            arguments.rest,
        ),
        None => reject(arguments.rest),
    }
}

/// Expressions separated by commas, up to the closing `)`; there may be none.
/// The stream stands at the opening `(`.
pub open spec fn parse_call_arguments(ts: Seq<Tok>) -> Parsed<Seq<Expr>>
    decreases ts.len(), 4nat,
{
    if peek(ts) == Tok::RParen {
        accept(Seq::empty(), advance(ts))
    } else {
        let first = parse_expression(advance(ts), Precedence::LOWEST);
        match first.value {
            Some(tree) => parse_more_arguments(within(first.rest, ts), seq![tree]),
            None => reject(first.rest),
        }
    }
}

/// The arguments after `done`: each a comma and an expression, then `)`.
pub open spec fn parse_more_arguments(ts: Seq<Tok>, done: Seq<Expr>) -> Parsed<Seq<Expr>>
    decreases ts.len(), 0nat,
{
    if peek(ts) == Tok::Comma {
        let next = parse_expression(advance(advance(ts)), Precedence::LOWEST);
        match next.value {
            Some(tree) => parse_more_arguments(
                within(next.rest, advance(advance(ts))),
                done.push(tree),
            ),
            None => reject(next.rest),
        }
    } else if peek(ts) == Tok::RParen {
        accept(done, advance(ts))
    } else {
        reject(ts)
    }
}

/// `if`, a condition in parentheses, a block, and optionally `else` and a
/// second block. The stream stands at `if`.
pub open spec fn parse_if_expression(ts: Seq<Tok>) -> Parsed<Expr>
    decreases ts.len(), 1nat,
{
    if peek(ts) != Tok::LParen {
        reject(ts)
    } else {
        let condition = parse_expression(advance(advance(ts)), Precedence::LOWEST);
        match condition.value {
            Some(tree) => parse_if_blocks(tree, within(condition.rest, advance(advance(ts)))),
            None => reject(condition.rest),
        }
    }
}

/// What follows the condition of an `if`: `)`, a block, and optionally `else`
/// and a second block. The stream stands at the last token of the condition.
pub open spec fn parse_if_blocks(condition: Expr, ts: Seq<Tok>) -> Parsed<Expr>
    decreases ts.len(), 9nat,
{
    if peek(ts) != Tok::RParen {
        reject(ts)
    } else if peek(advance(ts)) != Tok::LBrace {
        reject(advance(ts))
    } else {
        let at_brace = advance(advance(ts));
        let consequence = parse_block_statement(advance(at_brace));
        match consequence.value {
            Some(block) => parse_else(condition, block, within(consequence.rest, at_brace)),
            None => reject(consequence.rest),
        }
    }
}

/// What follows the first block of an `if`: nothing, or `else` and a block.
/// The stream stands at the end of the first block.
pub open spec fn parse_else(condition: Expr, consequence: Seq<Stmt>, ts: Seq<Tok>) -> Parsed<Expr>
    decreases ts.len(), 9nat,
{
    if peek(ts) != Tok::Else {
        accept(
            Expr::If { condition: Box::new(condition), consequence, alternative: None },
            ts,
        )
    } else if peek(advance(ts)) != Tok::LBrace {
        reject(advance(ts))
    } else {
        let alternative = parse_block_statement(advance(advance(advance(ts))));
        match alternative.value {
            Some(block) => accept(
                Expr::If {
                    condition: Box::new(condition),
                    consequence,
                    alternative: Some(block),
                },
                alternative.rest,
            ),
            None => reject(alternative.rest),
        }
    }
}

/// `fn`, parameters in parentheses, and a block. The stream stands at `fn`.
pub open spec fn parse_function_literal(ts: Seq<Tok>) -> Parsed<Expr>
    decreases ts.len(), 1nat,
{
    if peek(ts) != Tok::LParen {
        reject(ts)
    } else {
        let parameters = parse_function_params(advance(ts));
        let after = parameters.rest;
        match parameters.value {
            Some(names) => if peek(after) != Tok::LBrace {
                reject(after)
            } else {
                proof {
                    lemma_function_params_rest(advance(ts));
                }
                let body = parse_block_statement(advance(advance(after)));
                match body.value {
                    Some(block) => accept(
                        Expr::Function { parameters: names, body: block },
                        body.rest,
                    ),
                    None => reject(body.rest),
                }
            },
            None => reject(after),
        }
    }
}

/// The parameters of a function literal: names separated by commas, up to
/// the closing `)`; there may be none. The stream stands at the opening `(`
/// and is left at the closing `)`.
pub open spec fn parse_function_params(ts: Seq<Tok>) -> Parsed<Seq<Expr>> {
    if peek(ts) == Tok::RParen {
        accept(Seq::empty(), advance(ts))
    } else {
        parse_more_params(advance(ts), Seq::empty())
    }
}

/// The parameters after `done`: a name, and behind it either a comma and
/// further parameters, or the closing `)`. Anything else is no parameter
/// list. The stream stands where the name is due.
pub open spec fn parse_more_params(ts: Seq<Tok>, done: Seq<Expr>) -> Parsed<Seq<Expr>>
    decreases ts.len(),
{
    match current(ts) {
        Tok::Identifier(name) => if peek(ts) == Tok::Comma {
            parse_more_params(advance(advance(ts)), done.push(Expr::Identifier(name)))
        } else if peek(ts) == Tok::RParen {
            accept(done.push(Expr::Identifier(name)), advance(ts))
        } else {
            reject(ts)
        },
        _ => reject(ts),
    }
}

/// The statements of a block, up to its closing `}`, without which there is
/// no block. The stream stands behind the opening `{`.
pub open spec fn parse_block_statement(ts: Seq<Tok>) -> Parsed<Seq<Stmt>>
    decreases ts.len(), 8nat,
{
    parse_block_items(ts, Seq::empty())
}

/// The statements of a block after `done`. Behind each statement exactly one
/// token is passed: it is the statement's own last token.
pub open spec fn parse_block_items(ts: Seq<Tok>, done: Seq<Stmt>) -> Parsed<Seq<Stmt>>
    decreases ts.len(), 7nat,
{
    if current(ts) == Tok::RBrace {
        accept(done, ts)
    } else if current(ts) == Tok::EOF {
        reject(ts)
    } else {
        let next = parse_statement(ts);
        match next.value {
            Some(statement) => parse_block_items(
                advance(within(next.rest, ts)),
                done.push(statement),
            ),
            None => reject(next.rest),
        }
    }
}

/// Whether `rest` is what remains of `ts` after some of its tokens are passed.
pub open spec fn is_suffix(rest: Seq<Tok>, ts: Seq<Tok>) -> bool {
    rest.len() <= ts.len() && rest =~= ts.skip(ts.len() - rest.len())
}

/// Being a suffix is reflexive and transitive, and passing a token gives one.
pub proof fn lemma_suffix(a: Seq<Tok>, b: Seq<Tok>, c: Seq<Tok>)
    ensures
        is_suffix(a, a),
        is_suffix(advance(a), a),
        is_suffix(a, b) && is_suffix(b, c) ==> is_suffix(a, c),
        is_suffix(a, b) ==> is_suffix(advance(a), b),
        is_suffix(a, b) ==> within(a, b) == a,
{
    if is_suffix(a, b) && is_suffix(b, c) {
        assert(a =~= c.skip(c.len() - a.len()));
    }
    if is_suffix(a, b) {
        assert(advance(a) =~= b.skip(b.len() - advance(a).len()));
    }
}

/// A statement leaves a suffix of the stream it was read from.
pub proof fn lemma_statement_rest(ts: Seq<Tok>)
    ensures
        is_suffix(parse_statement(ts).rest, ts),
    decreases ts.len(), 6nat,
{
    match current(ts) {
        Tok::Let => lemma_let_statement_rest(ts),
        Tok::Return => lemma_return_statement_rest(ts),
        _ => lemma_expression_statement_rest(ts),
    }
}

proof fn lemma_let_statement_rest(ts: Seq<Tok>)
    ensures
        is_suffix(parse_let_statement(ts).rest, ts),
    decreases ts.len(), 5nat,
{
    let at_name = advance(ts);
    lemma_suffix(ts, ts, ts);
    match current(at_name) {
        Tok::Identifier(name) => if peek(at_name) == Tok::Assign {
            let start = advance(advance(at_name));
            lemma_expression_rest(start, Precedence::LOWEST);
            lemma_suffix(at_name, ts, ts);
            lemma_suffix(advance(at_name), ts, ts);
            lemma_suffix(parse_expression(start, Precedence::LOWEST).rest, start, ts);
        },
        _ => {},
    }
}

proof fn lemma_return_statement_rest(ts: Seq<Tok>)
    ensures
        is_suffix(parse_return_statement(ts).rest, ts),
    decreases ts.len(), 5nat,
{
    lemma_expression_rest(advance(ts), Precedence::LOWEST);
    lemma_suffix(ts, ts, ts);
    lemma_suffix(parse_expression(advance(ts), Precedence::LOWEST).rest, advance(ts), ts);
}

proof fn lemma_expression_statement_rest(ts: Seq<Tok>)
    ensures
        is_suffix(parse_expression_statement(ts).rest, ts),
    decreases ts.len(), 5nat,
{
    lemma_expression_rest(ts, Precedence::LOWEST);
    lemma_suffix(parse_expression(ts, Precedence::LOWEST).rest, ts, ts);
}

/// An expression leaves a suffix of the stream it was read from.
pub proof fn lemma_expression_rest(ts: Seq<Tok>, floor: Precedence)
    ensures
        is_suffix(parse_expression(ts, floor).rest, ts),
    decreases ts.len(), 3nat,
{
    let first = parse_prefix(ts);
    lemma_prefix_rest(ts);
    lemma_suffix(first.rest, ts, ts);
    match first.value {
        Some(left) => {
            lemma_extend_expression_rest(left, first.rest, floor);
            lemma_suffix(extend_expression(left, first.rest, floor).rest, first.rest, ts);
        },
        None => {},
    }
}

proof fn lemma_extend_expression_rest(left: Expr, ts: Seq<Tok>, floor: Precedence)
    ensures
        is_suffix(extend_expression(left, ts, floor).rest, ts),
    decreases ts.len(), 2nat,
{
    lemma_suffix(ts, ts, ts);
    if continues(peek(ts), floor) {
        let longer = parse_infix(left, advance(ts));
        lemma_infix_rest(left, advance(ts));
        lemma_suffix(longer.rest, advance(ts), ts);
        match longer.value {
            Some(tree) => {
                lemma_extend_expression_rest(tree, longer.rest, floor);
                lemma_suffix(extend_expression(tree, longer.rest, floor).rest, longer.rest, ts);
            },
            None => {},
        }
    }
}

/// A prefix form leaves a suffix of the stream it was read from.
pub proof fn lemma_prefix_rest(ts: Seq<Tok>)
    ensures
        is_suffix(parse_prefix(ts).rest, ts),
    decreases ts.len(), 2nat,
{
    lemma_suffix(ts, ts, ts);
    match current(ts) {
        Tok::LParen => {
            lemma_grouped_expression_rest(advance(ts));
            lemma_suffix(parse_grouped_expression(advance(ts)).rest, advance(ts), ts);
        },
        Tok::Bang | Tok::Minus => lemma_prefix_expression_rest(ts),
        Tok::If => lemma_if_expression_rest(ts),
        Tok::Function => lemma_function_literal_rest(ts),
        _ => {},
    }
}

proof fn lemma_grouped_expression_rest(ts: Seq<Tok>)
    ensures
        is_suffix(parse_grouped_expression(ts).rest, ts),
    decreases ts.len(), 4nat,
{
    lemma_expression_rest(ts, Precedence::LOWEST);
    lemma_suffix(parse_expression(ts, Precedence::LOWEST).rest, ts, ts);
}

proof fn lemma_prefix_expression_rest(ts: Seq<Tok>)
    ensures
        is_suffix(parse_prefix_expression(ts).rest, ts),
    decreases ts.len(), 1nat,
{
    lemma_suffix(ts, ts, ts);
    if prefix_operator(current(ts)) is Some {
        lemma_expression_rest(advance(ts), Precedence::PREFIX);
        lemma_suffix(parse_expression(advance(ts), Precedence::PREFIX).rest, advance(ts), ts);
    }
}

/// An infix continuation leaves a suffix of the stream it was read from.
pub proof fn lemma_infix_rest(left: Expr, ts: Seq<Tok>)
    ensures
        is_suffix(parse_infix(left, ts).rest, ts),
    decreases ts.len(), 6nat,
{
    lemma_suffix(ts, ts, ts);
    match current(ts) {
        Tok::LParen => lemma_call_expression_rest(left, ts),
        token => if infix_operator(token) is Some {
            lemma_expression_rest(advance(ts), Precedence::of(token));
            lemma_suffix(
                parse_expression(advance(ts), Precedence::of(token)).rest,
                advance(ts),
                ts,
            );
        },
    }
}

proof fn lemma_call_expression_rest(function: Expr, ts: Seq<Tok>)
    ensures
        is_suffix(parse_call_expression(function, ts).rest, ts),
    decreases ts.len(), 5nat,
{
    lemma_call_arguments_rest(ts);
}

proof fn lemma_call_arguments_rest(ts: Seq<Tok>)
    ensures
        is_suffix(parse_call_arguments(ts).rest, ts),
    decreases ts.len(), 4nat,
{
    lemma_suffix(ts, ts, ts);
    if peek(ts) != Tok::RParen {
        let first = parse_expression(advance(ts), Precedence::LOWEST);
        lemma_expression_rest(advance(ts), Precedence::LOWEST);
        lemma_suffix(first.rest, advance(ts), ts);
        match first.value {
            Some(tree) => {
                lemma_more_arguments_rest(first.rest, seq![tree]);
                lemma_suffix(parse_more_arguments(first.rest, seq![tree]).rest, first.rest, ts);
            },
            None => {},
        }
    }
}

proof fn lemma_more_arguments_rest(ts: Seq<Tok>, done: Seq<Expr>)
    ensures
        is_suffix(parse_more_arguments(ts, done).rest, ts),
    decreases ts.len(), 0nat,
{
    lemma_suffix(ts, ts, ts);
    if peek(ts) == Tok::Comma {
        let start = advance(advance(ts));
        let next = parse_expression(start, Precedence::LOWEST);
        lemma_expression_rest(start, Precedence::LOWEST);
        lemma_suffix(advance(ts), ts, ts);
        lemma_suffix(next.rest, start, ts);
        match next.value {
            Some(tree) => {
                lemma_more_arguments_rest(next.rest, done.push(tree));
                lemma_suffix(parse_more_arguments(next.rest, done.push(tree)).rest, next.rest, ts);
            },
            None => {},
        }
    }
}

proof fn lemma_if_expression_rest(ts: Seq<Tok>)
    ensures
        is_suffix(parse_if_expression(ts).rest, ts),
    decreases ts.len(), 1nat,
{
    lemma_suffix(ts, ts, ts);
    if peek(ts) == Tok::LParen {
        let start = advance(advance(ts));
        let condition = parse_expression(start, Precedence::LOWEST);
        lemma_expression_rest(start, Precedence::LOWEST);
        lemma_suffix(advance(ts), ts, ts);
        lemma_suffix(condition.rest, start, ts);
        match condition.value {
            Some(tree) => {
                lemma_if_blocks_rest(tree, condition.rest);
                lemma_suffix(parse_if_blocks(tree, condition.rest).rest, condition.rest, ts);
            },
            None => {},
        }
    }
}

proof fn lemma_if_blocks_rest(condition: Expr, ts: Seq<Tok>)
    ensures
        is_suffix(parse_if_blocks(condition, ts).rest, ts),
    decreases ts.len(), 9nat,
{
    lemma_suffix(ts, ts, ts);
    lemma_suffix(advance(ts), ts, ts);
    if peek(ts) == Tok::RParen && peek(advance(ts)) == Tok::LBrace {
        let at_brace = advance(advance(ts));
        let consequence = parse_block_statement(advance(at_brace));
        lemma_block_statement_rest(advance(at_brace));
        lemma_suffix(at_brace, ts, ts);
        lemma_suffix(consequence.rest, advance(at_brace), ts);
        lemma_suffix(consequence.rest, advance(at_brace), at_brace);
        match consequence.value {
            Some(block) => {
                lemma_else_rest(condition, block, consequence.rest);
                lemma_suffix(
                    parse_else(condition, block, consequence.rest).rest,
                    consequence.rest,
                    ts,
                );
            },
            None => {},
        }
    }
}

proof fn lemma_else_rest(condition: Expr, consequence: Seq<Stmt>, ts: Seq<Tok>)
    ensures
        is_suffix(parse_else(condition, consequence, ts).rest, ts),
    decreases ts.len(), 9nat,
{
    lemma_suffix(ts, ts, ts);
    lemma_suffix(advance(ts), ts, ts);
    if peek(ts) == Tok::Else && peek(advance(ts)) == Tok::LBrace {
        let start = advance(advance(advance(ts)));
        lemma_block_statement_rest(start);
        lemma_suffix(advance(advance(ts)), ts, ts);
        lemma_suffix(parse_block_statement(start).rest, start, ts);
    }
}

proof fn lemma_function_literal_rest(ts: Seq<Tok>)
    ensures
        is_suffix(parse_function_literal(ts).rest, ts),
    decreases ts.len(), 1nat,
{
    lemma_suffix(ts, ts, ts);
    if peek(ts) == Tok::LParen {
        let after = parse_function_params(advance(ts)).rest;
        lemma_function_params_rest(advance(ts));
        lemma_suffix(after, advance(ts), ts);
        if peek(after) == Tok::LBrace {
            let start = advance(advance(after));
            lemma_block_statement_rest(start);
            lemma_suffix(advance(after), ts, ts);
            lemma_suffix(parse_block_statement(start).rest, start, ts);
        }
    }
}

/// The parameters of a function literal leave a suffix of their stream.
pub proof fn lemma_function_params_rest(ts: Seq<Tok>)
    ensures
        is_suffix(parse_function_params(ts).rest, ts),
{
    lemma_suffix(ts, ts, ts);
    if peek(ts) != Tok::RParen {
        lemma_more_params_rest(advance(ts), Seq::empty());
        lemma_suffix(parse_more_params(advance(ts), Seq::empty()).rest, advance(ts), ts);
    }
}

proof fn lemma_more_params_rest(ts: Seq<Tok>, done: Seq<Expr>)
    ensures
        is_suffix(parse_more_params(ts, done).rest, ts),
    decreases ts.len(),
{
    lemma_suffix(ts, ts, ts);
    match current(ts) {
        Tok::Identifier(name) => if peek(ts) == Tok::Comma {
            let next = advance(advance(ts));
            lemma_suffix(advance(ts), ts, ts);
            lemma_more_params_rest(next, done.push(Expr::Identifier(name)));
            lemma_suffix(parse_more_params(next, done.push(Expr::Identifier(name))).rest, next, ts);
        },
        _ => {},
    }
}

/// A block leaves a suffix of the stream it was read from.
pub proof fn lemma_block_statement_rest(ts: Seq<Tok>)
    ensures
        is_suffix(parse_block_statement(ts).rest, ts),
    decreases ts.len(), 8nat,
{
    lemma_block_items_rest(ts, Seq::empty());
}

proof fn lemma_block_items_rest(ts: Seq<Tok>, done: Seq<Stmt>)
    ensures
        is_suffix(parse_block_items(ts, done).rest, ts),
    decreases ts.len(), 7nat,
{
    lemma_suffix(ts, ts, ts);
    if current(ts) != Tok::RBrace && current(ts) != Tok::EOF {
        let next = parse_statement(ts);
        lemma_statement_rest(ts);
        lemma_suffix(next.rest, ts, ts);
        match next.value {
            Some(statement) => {
                lemma_block_items_rest(advance(next.rest), done.push(statement));
                lemma_suffix(
                    parse_block_items(advance(next.rest), done.push(statement)).rest,
                    advance(next.rest),
                    ts,
                );
            },
            None => {},
        }
    }
}

/// The stream behind the next statement boundary: the tokens up to and
/// including the first `;` are passed, or all of them if there is none.
pub open spec fn synchronize(ts: Seq<Tok>) -> Seq<Tok>
    decreases ts.len(),
{
    if current(ts) == Tok::Semicolon {
        advance(ts)
    } else if current(ts) == Tok::EOF {
        ts
    } else {
        synchronize(advance(ts))
    }
}

/// What parsing a program gives: the statements that were well-formed, in
/// source order, and the number of statements that were not.
pub ghost struct Outcome {
    pub statements: Seq<Stmt>,
    pub errors: nat,
}

/// The program that a token stream denotes.
pub open spec fn parse_program(ts: Seq<Tok>) -> Outcome {
    parse_statements(ts, Outcome { statements: Seq::empty(), errors: 0 })
}

/// The program after `done`: statement after statement until the stream is
/// exhausted. Each one either joins the program or counts as an error, and
/// in both cases parsing resumes behind the next statement boundary.
pub open spec fn parse_statements(ts: Seq<Tok>, done: Outcome) -> Outcome
    decreases ts.len(),
{
    if current(ts) == Tok::EOF {
        done
    } else {
        let next = parse_statement(ts);
        proof {
            lemma_statement_rest(ts);
            lemma_synchronize(next.rest);
        }
        parse_statements(
            synchronize(next.rest),
            match next.value {
                Some(statement) => Outcome {
                    statements: done.statements.push(statement),
                    errors: done.errors,
                },
                None => Outcome { statements: done.statements, errors: done.errors + 1 },
            },
        )
    }
}

/// Resynchronizing leaves a suffix of the stream, and a strictly shorter one
/// unless the stream stands at the end marker.
pub proof fn lemma_synchronize(ts: Seq<Tok>)
    ensures
        is_suffix(synchronize(ts), ts),
        current(ts) != Tok::EOF ==> synchronize(ts).len() < ts.len(),
    decreases ts.len(),
{
    lemma_suffix(ts, ts, ts);
    if current(ts) != Tok::Semicolon && current(ts) != Tok::EOF {
        lemma_synchronize(advance(ts));
        lemma_suffix(synchronize(advance(ts)), advance(ts), ts);
    }
}

} // verus!
