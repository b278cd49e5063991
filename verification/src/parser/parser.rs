//! The executable parser.
//!
//! [`Parser`] keeps two tokens drawn from its lexer, the current one and the
//! one after it. [`Parser::remaining`] is the token stream that lies ahead of
//! it, and every method is proved to do to that stream, and to return, what
//! the function of the same name in [`crate::parser::grammar`] says.

use crate::ast::{Expr, Expression, InfixOperator, PrefixOperator, Program, Statement, Stmt};
use crate::ast::{
    expressions_view, lemma_expressions_view_push, lemma_statements_view_push, statements_view,
};
use crate::lexer::{lemma_tokens_empty, tokens, Lexer};
use crate::parser::grammar;
use crate::parser::grammar::{advance, current, peek, Parsed};
use crate::parser::number::parse_decimal;
use crate::parser::precedence::Precedence;
use crate::token::{Tok, Token};
use vstd::prelude::*;

verus! {

/// A statement, or a part of one, was malformed.
#[derive(Debug, Clone, Copy, PartialEq, Eq)]
pub struct ParserError {}

/// A parser over the tokens of one source text.
pub struct Parser {
    /// The source of tokens, which stands behind the two held here.
    pub lexer: Lexer,
    /// The token under examination.
    pub current_token: Token,
    /// The token after the current one.
    pub peeking_token: Token,
    /// The errors recorded so far, one for each malformed statement.
    pub errors: Vec<ParserError>,
}

/// The value of the expression that a parse returned, if it returned one.
pub open spec fn expression_value(result: Result<Expression, ParserError>) -> Option<Expr> {
    match result {
        Ok(tree) => Some(tree@),
        Err(_) => None,
    }
}

/// How the grammar records what a parse of an expression returned.
pub open spec fn expression_outcome(
    result: Result<Expression, ParserError>,
    rest: Seq<Tok>,
) -> Parsed<Expr> {
    Parsed { value: expression_value(result), rest }
}

/// How the grammar records what a parse of a statement returned.
pub open spec fn statement_outcome(
    result: Result<Statement, ParserError>,
    rest: Seq<Tok>,
) -> Parsed<Stmt> {
    Parsed {
        value: match result {
            Ok(tree) => Some(tree@),
            Err(_) => None,
        },
        rest,
    }
}

/// How the grammar records what a parse of a list of expressions returned.
pub open spec fn expressions_outcome(
    result: Result<Vec<Expression>, ParserError>,
    rest: Seq<Tok>,
) -> Parsed<Seq<Expr>> {
    Parsed {
        value: match result {
            Ok(list) => Some(expressions_view(list)),
            Err(_) => None,
        },
        rest,
    }
}

/// How the grammar records what a parse of a list of statements returned.
pub open spec fn statements_outcome(
    result: Result<Vec<Statement>, ParserError>,
    rest: Seq<Tok>,
) -> Parsed<Seq<Stmt>> {
    Parsed {
        value: match result {
            Ok(list) => Some(statements_view(list)),
            Err(_) => None,
        },
        rest,
    }
}

impl Parser {
    /// The lookahead is consistent: once a token held here is the end
    /// marker, nothing but the end marker comes behind it.
    pub open spec fn wf(&self) -> bool {
        &&& self.current_token@ is EOF ==> self.peeking_token@ is EOF
        &&& self.peeking_token@ is EOF ==> tokens(self.lexer@).len() == 0
    }

    /// The tokens that lie ahead, from the current token on, without the end
    /// marker.
    pub open spec fn remaining(&self) -> Seq<Tok> {
        if self.current_token@ is EOF {
            Seq::empty()
        } else if self.peeking_token@ is EOF {
            seq![self.current_token@]
        } else {
            seq![self.current_token@, self.peeking_token@] + tokens(self.lexer@)
        }
    }

    /// The two tokens that the parser holds are the first two that lie ahead.
    pub proof fn lemma_lookahead(&self)
        requires
            self.wf(),
        ensures
            current(self.remaining()) == self.current_token@,
            peek(self.remaining()) == self.peeking_token@,
    {
        if !(self.current_token@ is EOF) && !(self.peeking_token@ is EOF) {
            assert(self.remaining()[0] == self.current_token@);
            assert(self.remaining()[1] == self.peeking_token@);
        }
    }

    /// Whether the lookahead is consistent. It is after [`Parser::new`] and
    /// after every method; only a write to a field can break it.
    pub fn is_well_formed(&self) -> (yes: bool)
        ensures
            yes == self.wf(),
    {
        if matches!(self.current_token, Token::EOF) && !matches!(self.peeking_token, Token::EOF) {
            false
        } else if matches!(self.peeking_token, Token::EOF) {
            self.lexer.is_exhausted()
        } else {
            true
        }
    }

    /// A parser at the start of the lexer's text, with its two tokens of
    /// lookahead drawn.
    pub fn new(lexer: Lexer) -> (parser: Parser)
        ensures
            parser.wf(),
            parser.remaining() == tokens(lexer@),
            parser.current_token@ == current(tokens(lexer@)),
            parser.peeking_token@ == peek(tokens(lexer@)),
            parser.errors@.len() == 0,
    {
        let mut lexer = lexer;
        let ghost text = lexer@;
        let current_token = lexer.next_token();
        let ghost text_after = lexer@;
        let peeking_token = lexer.next_token();
        proof {
            lemma_tokens_empty(text);
            lemma_tokens_empty(text_after);
            lemma_tokens_empty(lexer@);
        }
        let parser = Parser { lexer, current_token, peeking_token, errors: Vec::new() };
        proof {
            parser.lemma_lookahead();
        }
        parser
    }

    /// Passes the current token: the token after it becomes current, and a
    /// fresh one is drawn from the lexer.
    pub fn next_token(&mut self)
        requires
            old(self).wf(),
        ensures
            final(self).wf(),
            final(self).remaining() == advance(old(self).remaining()),
            final(self).current_token@ == old(self).peeking_token@,
            final(self).peeking_token@ == peek(advance(old(self).remaining())),
            final(self).errors@ == old(self).errors@,
    {
        proof {
            lemma_tokens_empty(self.lexer@);
        }
        std::mem::swap(&mut self.current_token, &mut self.peeking_token);
        self.peeking_token = self.lexer.next_token();
        proof {
            lemma_tokens_empty(self.lexer@);
            self.lemma_lookahead();
        }
    }

    /// What every step of parsing keeps: the lookahead stays consistent, the
    /// recorded errors are untouched, and the stream has not grown.
    pub open spec fn follows(self, before: Parser) -> bool {
        &&& self.wf()
        &&& self.errors@ == before.errors@
        &&& self.remaining().len() <= before.remaining().len()
    }

    /// Parses the whole input. Every well-formed statement joins the program;
    /// every malformed one adds an error to `errors`, and parsing resumes
    /// behind the next `;`.
    pub fn parse_program(&mut self) -> (program: Program)
        requires
            old(self).wf(),
        ensures
            final(self).wf(),
            final(self).remaining().len() == 0,
            final(self).current_token@ is EOF,
            program@ == grammar::parse_program(old(self).remaining()).statements,
            final(self).errors@.len() == old(self).errors@.len() + grammar::parse_program(
                old(self).remaining(),
            ).errors,
            final(self).errors@.take(old(self).errors@.len() as int) == old(self).errors@,
    {
        let mut program = Program::new();
        let ghost mut done = grammar::Outcome { statements: Seq::empty(), errors: 0 };
        while !matches!(self.current_token, Token::EOF)
            invariant
                self.wf(),
                program@ == done.statements,
                self.errors@.len() == old(self).errors@.len() + done.errors,
                self.errors@.take(old(self).errors@.len() as int) == old(self).errors@,
                grammar::parse_statements(self.remaining(), done) == grammar::parse_program(
                    old(self).remaining(),
                ),
            decreases self.remaining().len(),
        {
            proof {
                self.lemma_lookahead();
            }
            let ghost ts = self.remaining();
            let ghost statements_before = program.statements;
            let ghost errors_before = self.errors@;
            let stmt = self.parse_statement();
            match stmt {
                Ok(stmt) => {
                    program.statements.push(stmt);
                    proof {
                        lemma_statements_view_push(statements_before, program.statements, stmt);
                        done = grammar::Outcome {
                            statements: done.statements.push(stmt@),
                            errors: done.errors,
                        };
                    }
                },
                Err(err) => {
                    self.errors.push(err);
                    proof {
                        done = grammar::Outcome {
                            statements: done.statements,
                            errors: done.errors + 1,
                        };
                        assert(self.errors@.take(old(self).errors@.len() as int)
                            =~= errors_before.take(old(self).errors@.len() as int));
                    }
                },
            }
            self.advance_tokens();
            proof {
                grammar::lemma_synchronize(grammar::parse_statement(ts).rest);
            }
        }
        proof {
            self.lemma_lookahead();
            assert(self.errors@.take(old(self).errors@.len() as int) == old(self).errors@);
        }
        program
    }

    /// Parses the statement that the current token starts.
    pub fn parse_statement(&mut self) -> (result: Result<Statement, ParserError>)
        requires
            old(self).wf(),
        ensures
            final(self).follows(*old(self)),
            statement_outcome(result, final(self).remaining()) == grammar::parse_statement(
                old(self).remaining(),
            ),
        decreases old(self).remaining().len(), 6nat,
    {
        proof {
            self.lemma_lookahead();
        }
        match self.current_token {
            Token::Let => self.parse_let_statement(),
            Token::Return => self.parse_return_statement(),
            _ => self.parse_expression_statement(),
        }
    }

    /// Parses an expression used as a statement, and passes the `;` behind
    /// it if there is one.
    pub fn parse_expression_statement(&mut self) -> (result: Result<Statement, ParserError>)
        requires
            old(self).wf(),
        ensures
            final(self).follows(*old(self)),
            statement_outcome(result, final(self).remaining())
                == grammar::parse_expression_statement(old(self).remaining()),
        decreases old(self).remaining().len(), 5nat,
    {
        let expression = self.parse_expression(Precedence::LOWEST)?;
        proof {
            self.lemma_lookahead();
        }
        if matches!(self.peeking_token, Token::Semicolon) {
            self.next_token();
        }
        Ok(Statement::expression(expression))
    }

    /// Parses an expression whose operators all bind more tightly than
    /// `precedence`.
    pub fn parse_expression(&mut self, precedence: Precedence) -> (result: Result<
        Expression,
        ParserError,
    >)
        requires
            old(self).wf(),
        ensures
            final(self).follows(*old(self)),
            expression_outcome(result, final(self).remaining()) == grammar::parse_expression(
                old(self).remaining(),
                precedence,
            ),
        decreases old(self).remaining().len(), 3nat,
    {
        let mut lhs = self.parse_prefix()?;
        proof {
            self.lemma_lookahead();
        }
        while !matches!(self.peeking_token, Token::Semicolon) && precedence.lower_than(
            &Precedence::from(&self.peeking_token),
        )
            invariant
                self.follows(*old(self)),
                self.peeking_token@ == peek(self.remaining()),
                grammar::extend_expression(lhs@, self.remaining(), precedence)
                    == grammar::parse_expression(old(self).remaining(), precedence),
            decreases self.remaining().len(),
        {
            self.next_token();
            lhs = self.parse_infix(lhs)?;
            proof {
                self.lemma_lookahead();
            }
        }
        Ok(lhs)
    }

    /// Passes the rest of the current statement: every token up to and
    /// including the next `;`, or up to the end of the input.
    pub fn advance_tokens(&mut self)
        requires
            old(self).wf(),
        ensures
            final(self).follows(*old(self)),
            final(self).remaining() == grammar::synchronize(old(self).remaining()),
    {
        proof {
            self.lemma_lookahead();
        }
        while !matches!(self.current_token, Token::Semicolon) && !matches!(
            self.current_token,
            Token::EOF
        )
            invariant
                self.follows(*old(self)),
                self.current_token@ == current(self.remaining()),
                grammar::synchronize(self.remaining()) == grammar::synchronize(
                    old(self).remaining(),
                ),
            decreases self.remaining().len(),
        {
            self.next_token();
            proof {
                self.lemma_lookahead();
            }
        }
        if matches!(self.current_token, Token::Semicolon) {
            self.next_token();
        }
    }

    /// Parses the form that the current token starts.
    pub fn parse_prefix(&mut self) -> (result: Result<Expression, ParserError>)
        requires
            old(self).wf(),
        ensures
            final(self).follows(*old(self)),
            expression_outcome(result, final(self).remaining()) == grammar::parse_prefix(
                old(self).remaining(),
            ),
        decreases old(self).remaining().len(), 2nat,
    {
        proof {
            self.lemma_lookahead();
        }
        match &self.current_token {
            Token::Identifier(identifier) => Ok(Expression::identifier(identifier.as_str())),
            Token::Integer(integer_literal) => self.parse_integer(integer_literal),
            Token::LParen => self.parse_grouped_expression(),
            Token::True | Token::False => self.parse_boolean(),
            Token::Bang | Token::Minus => self.parse_prefix_expression(),
            Token::If => self.parse_if_expression(),
            Token::Function => self.parse_function_literal(),
            _ => Err(ParserError {}),
        }
    }

    /// Parses the arguments of a call of `function`. The current token is the
    /// `(` that opens them.
    pub fn parse_call_expression(&mut self, function: Expression) -> (result: Result<
        Expression,
        ParserError,
    >)
        requires
            old(self).wf(),
        ensures
            final(self).follows(*old(self)),
            expression_outcome(result, final(self).remaining()) == grammar::parse_call_expression(
                function@,
                old(self).remaining(),
            ),
        decreases old(self).remaining().len(), 5nat,
    {
        let arguments = self.parse_call_arguments()?;
        Ok(Expression::call(function, arguments))
    }

    /// Parses expressions separated by commas up to the closing `)`. The
    /// current token is the opening `(`.
    pub fn parse_call_arguments(&mut self) -> (result: Result<Vec<Expression>, ParserError>)
        requires
            old(self).wf(),
        ensures
            final(self).follows(*old(self)),
            expressions_outcome(result, final(self).remaining()) == grammar::parse_call_arguments(
                old(self).remaining(),
            ),
        decreases old(self).remaining().len(), 4nat,
    {
        let mut arguments: Vec<Expression> = Vec::new();
        proof {
            self.lemma_lookahead();
            assert(expressions_view(arguments) =~= Seq::empty());
        }
        if matches!(self.peeking_token, Token::RParen) {
            self.next_token();
            return Ok(arguments);
        }
        self.next_token();
        let first = self.parse_expression(Precedence::LOWEST)?;
        arguments.push(first);
        proof {
            self.lemma_lookahead();
            assert(expressions_view(arguments) =~= seq![first@]);
        }
        while matches!(self.peeking_token, Token::Comma)
            invariant
                self.follows(*old(self)),
                self.peeking_token@ == peek(self.remaining()),
                grammar::parse_more_arguments(self.remaining(), expressions_view(arguments))
                    == grammar::parse_call_arguments(old(self).remaining()),
            decreases self.remaining().len(),
        {
            let ghost before = arguments;
            self.next_token();
            self.next_token();
            let next = self.parse_expression(Precedence::LOWEST)?;
            arguments.push(next);
            proof {
                self.lemma_lookahead();
                lemma_expressions_view_push(before, arguments, next);
            }
        }
        self.expect_peek(&Token::RParen)?;
        Ok(arguments)
    }

    /// Parses a function literal. The current token is `fn`.
    pub fn parse_function_literal(&mut self) -> (result: Result<Expression, ParserError>)
        requires
            old(self).wf(),
        ensures
            final(self).follows(*old(self)),
            expression_outcome(result, final(self).remaining())
                == grammar::parse_function_literal(old(self).remaining()),
        decreases old(self).remaining().len(), 1nat,
    {
        self.expect_peek(&Token::LParen)?;
        let parameters = self.parse_function_params()?;
        self.expect_peek(&Token::LBrace)?;
        let body = self.parse_block_statement()?;
        Ok(Expression::function(parameters, body))
    }

    /// Parses the parameters of a function literal: names separated by
    /// commas, up to the closing `)`. The current token is the opening `(`.
    /// Behind `(` a name or `)` must follow, and behind each name a comma
    /// and another name, or `)`; anything else is an error.
    pub fn parse_function_params(&mut self) -> (result: Result<Vec<Expression>, ParserError>)
        requires
            old(self).wf(),
        ensures
            final(self).follows(*old(self)),
            expressions_outcome(result, final(self).remaining())
                == grammar::parse_function_params(old(self).remaining()),
    {
        let mut params: Vec<Expression> = Vec::new();
        proof {
            self.lemma_lookahead();
            assert(expressions_view(params) =~= Seq::empty());
        }
        if matches!(self.peeking_token, Token::RParen) {
            self.next_token();
            return Ok(params);
        }
        self.next_token();
        proof {
            self.lemma_lookahead();
        }
        loop
            invariant
                self.follows(*old(self)),
                self.current_token@ == current(self.remaining()),
                self.peeking_token@ == peek(self.remaining()),
                grammar::parse_more_params(self.remaining(), expressions_view(params))
                    == grammar::parse_function_params(old(self).remaining()),
            decreases self.remaining().len(),
        {
            let ghost before = params;
            let parameter = match &self.current_token {
                Token::Identifier(identifier) => Expression::identifier(identifier.as_str()),
                _ => return Err(ParserError {}),
            };
            params.push(parameter);
            proof {
                lemma_expressions_view_push(before, params, parameter);
            }
            if !matches!(self.peeking_token, Token::Comma) {
                self.expect_peek(&Token::RParen)?;
                return Ok(params);
            }
            self.next_token();
            self.next_token();
            proof {
                self.lemma_lookahead();
            }
        }
    }

    /// Parses a conditional. The current token is `if`.
    pub fn parse_if_expression(&mut self) -> (result: Result<Expression, ParserError>)
        requires
            old(self).wf(),
        ensures
            final(self).follows(*old(self)),
            expression_outcome(result, final(self).remaining()) == grammar::parse_if_expression(
                old(self).remaining(),
            ),
        decreases old(self).remaining().len(), 1nat,
    {
        self.expect_peek(&Token::LParen)?;
        self.next_token();
        let condition = self.parse_expression(Precedence::LOWEST)?;
        let ghost at_condition = self.remaining();
        assert(grammar::parse_if_expression(old(self).remaining()) == grammar::parse_if_blocks(
            condition@,
            at_condition,
        ));
        self.expect_peek(&Token::RParen)?;
        self.expect_peek(&Token::LBrace)?;
        let consequence = self.parse_block_statement()?;
        assert(grammar::parse_if_blocks(condition@, at_condition) == grammar::parse_else(
            condition@,
            statements_view(consequence),
            self.remaining(),
        ));
        let mut alternative: Option<Vec<Statement>> = None;
        proof {
            self.lemma_lookahead();
        }
        if matches!(self.peeking_token, Token::Else) {
            self.next_token();
            self.expect_peek(&Token::LBrace)?;
            alternative = Some(self.parse_block_statement()?);
        }
        Ok(Expression::if_else(condition, consequence, alternative))
    }

    /// Parses the statements of a block up to its closing `}`. The current
    /// token is the opening `{`. A block that the input ends before its `}`
    /// is an error.
    pub fn parse_block_statement(&mut self) -> (result: Result<Vec<Statement>, ParserError>)
        requires
            old(self).wf(),
        ensures
            final(self).follows(*old(self)),
            statements_outcome(result, final(self).remaining())
                == grammar::parse_block_statement(advance(old(self).remaining())),
        decreases advance(old(self).remaining()).len(), 8nat,
    {
        self.next_token();
        let mut statements: Vec<Statement> = Vec::new();
        proof {
            self.lemma_lookahead();
            assert(statements_view(statements) =~= Seq::empty());
        }
        while !matches!(self.current_token, Token::RBrace)
            invariant
                self.follows(*old(self)),
                self.remaining().len() <= advance(old(self).remaining()).len(),
                self.current_token@ == current(self.remaining()),
                grammar::parse_block_items(self.remaining(), statements_view(statements))
                    == grammar::parse_block_statement(advance(old(self).remaining())),
            decreases self.remaining().len(),
        {
            if matches!(self.current_token, Token::EOF) {
                return Err(ParserError {});
            }
            let ghost before = statements;
            let statement = self.parse_statement()?;
            statements.push(statement);
            self.next_token();
            proof {
                self.lemma_lookahead();
                lemma_statements_view_push(before, statements, statement);
            }
        }
        Ok(statements)
    }

    /// Parses an expression in parentheses. The current token is the opening
    /// `(`. The closing `)` is passed even if the expression is malformed.
    pub fn parse_grouped_expression(&mut self) -> (result: Result<Expression, ParserError>)
        requires
            old(self).wf(),
        ensures
            final(self).follows(*old(self)),
            expression_outcome(result, final(self).remaining())
                == grammar::parse_grouped_expression(advance(old(self).remaining())),
        decreases advance(old(self).remaining()).len(), 4nat,
    {
        self.next_token();
        let expression = self.parse_expression(Precedence::LOWEST);
        self.expect_peek(&Token::RParen)?;
        expression
    }

    /// Parses a unary operation. The current token is its operator.
    pub fn parse_prefix_expression(&mut self) -> (result: Result<Expression, ParserError>)
        requires
            old(self).wf(),
        ensures
            final(self).follows(*old(self)),
            expression_outcome(result, final(self).remaining())
                == grammar::parse_prefix_expression(old(self).remaining()),
        decreases old(self).remaining().len(), 1nat,
    {
        proof {
            self.lemma_lookahead();
        }
        let operator = match &self.current_token {
            Token::Bang => PrefixOperator::Not,
            Token::Minus => PrefixOperator::Negative,
            _ => return Err(ParserError {}),
        };
        self.next_token();
        match self.parse_expression(Precedence::PREFIX) {
            Ok(expression) => Ok(Expression::prefix(expression, operator)),
            Err(_) => Err(ParserError {}),
        }
    }

    /// Parses the continuation of `lhs` that the current token starts: the
    /// arguments of a call, or an operator and its right operand.
    pub fn parse_infix(&mut self, lhs: Expression) -> (result: Result<Expression, ParserError>)
        requires
            old(self).wf(),
        ensures
            final(self).follows(*old(self)),
            expression_outcome(result, final(self).remaining()) == grammar::parse_infix(
                lhs@,
                old(self).remaining(),
            ),
        decreases old(self).remaining().len(), 6nat,
    {
        proof {
            self.lemma_lookahead();
        }
        let precedence = Precedence::from(&self.current_token);
        let operator = match &self.current_token {
            Token::Eq => InfixOperator::Equal,
            Token::NotEq => InfixOperator::NotEqual,
            Token::Plus => InfixOperator::Add,
            Token::Minus => InfixOperator::Sub,
            Token::Asterisk => InfixOperator::Mult,
            Token::Slash => InfixOperator::Div,
            Token::GT => InfixOperator::GreaterThan,
            Token::LT => InfixOperator::LessThan,
            Token::LParen => return self.parse_call_expression(lhs),
            _ => return Err(ParserError {}),
        };
        self.next_token();
        let rhs = self.parse_expression(precedence);
        match rhs {
            Ok(rhs) => Ok(Expression::infix(lhs, rhs, operator)),
            Err(_) => Err(ParserError {}),
        }
    }

    /// The boolean literal that the current token is.
    pub fn parse_boolean(&self) -> (result: Result<Expression, ParserError>)
        requires
            self.wf(),
        ensures
            expression_value(result) == grammar::parse_boolean(self.remaining()),
    {
        proof {
            self.lemma_lookahead();
        }
        match &self.current_token {
            Token::True => Ok(Expression::Bool(true)),
            Token::False => Ok(Expression::Bool(false)),
            _ => Err(ParserError {}),
        }
    }

    /// The integer literal whose text is `literal`.
    pub fn parse_integer(&self, literal: &String) -> (result: Result<Expression, ParserError>)
        ensures
            expression_value(result) == grammar::parse_integer(literal@),
    {
        match parse_decimal(literal.as_str()) {
            Some(value) => Ok(Expression::Int(value)),
            None => Err(ParserError {}),
        }
    }

    /// Parses a `let` statement. The current token is `let`.
    pub fn parse_let_statement(&mut self) -> (result: Result<Statement, ParserError>)
        requires
            old(self).wf(),
        ensures
            final(self).follows(*old(self)),
            statement_outcome(result, final(self).remaining()) == grammar::parse_let_statement(
                old(self).remaining(),
            ),
        decreases old(self).remaining().len(), 5nat,
    {
        self.next_token();
        proof {
            self.lemma_lookahead();
        }
        let identifier = match &self.current_token {
            Token::Identifier(identifier) => identifier.clone(),
            _ => return Err(ParserError {}),
        };
        self.expect_peek(&Token::Assign)?;
        self.next_token();
        let expression = self.parse_expression(Precedence::LOWEST)?;
        Ok(Statement::let_binding(identifier.as_str(), expression))
    }

    /// Parses a `return` statement. The current token is `return`.
    pub fn parse_return_statement(&mut self) -> (result: Result<Statement, ParserError>)
        requires
            old(self).wf(),
        ensures
            final(self).follows(*old(self)),
            statement_outcome(result, final(self).remaining())
                == grammar::parse_return_statement(old(self).remaining()),
        decreases old(self).remaining().len(), 5nat,
    {
        self.next_token();
        let expression = self.parse_expression(Precedence::LOWEST)?;
        Ok(Statement::return_value(expression))
    }

    /// Passes the current token if the one after it is `expected`, and
    /// fails without moving if it is not.
    pub fn expect_peek(&mut self, expected: &Token) -> (result: Result<(), ParserError>)
        requires
            old(self).wf(),
        ensures
            final(self).follows(*old(self)),
            result is Ok <==> peek(old(self).remaining()) == expected@,
            final(self).remaining() == if result is Ok {
                advance(old(self).remaining())
            } else {
                old(self).remaining()
            },
    {
        proof {
            self.lemma_lookahead();
        }
        if self.peeking_token.same(expected) {
            self.next_token();
            Ok(())
        } else {
            Err(ParserError {})
        }
    }
}

} // verus!
