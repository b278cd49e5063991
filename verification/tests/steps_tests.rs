use monkey::ast::{Expression, InfixOperator, PrefixOperator, Statement};
use monkey::lexer::Lexer;
use monkey::parser::parser::Parser;
use monkey::parser::precedence::Precedence;
use monkey::token::Token;

fn make_parser(input: &str) -> Parser {
    Parser::new(Lexer::new(input))
}

fn id(name: &str) -> Expression {
    Expression::identifier(name)
}

#[test]
fn test_new_parser_is_well_formed_and_has_no_errors() {
    for input in ["", ";", "a", "a b", "let five = 5;"] {
        let parser = make_parser(input);
        assert!(parser.is_well_formed());
        assert_eq!(parser.errors.len(), 0);
    }
}

#[test]
fn test_well_formedness_can_be_broken_only_by_hand() {
    let mut parser = make_parser("a b c");
    parser.next_token();
    assert!(parser.is_well_formed());
    parser.current_token = Token::EOF;
    assert!(!parser.is_well_formed());

    let mut parser = make_parser("a b c");
    parser.peeking_token = Token::EOF;
    assert!(!parser.is_well_formed());
}

#[test]
fn test_next_token_stays_at_the_end() {
    let mut parser = make_parser("a");
    assert_eq!(parser.current_token, Token::identifier("a"));
    assert_eq!(parser.peeking_token, Token::EOF);
    parser.next_token();
    assert_eq!(parser.current_token, Token::EOF);
    assert_eq!(parser.peeking_token, Token::EOF);
    parser.next_token();
    assert_eq!(parser.current_token, Token::EOF);
    assert_eq!(parser.peeking_token, Token::EOF);
    assert!(parser.is_well_formed());
}

#[test]
fn test_expect_peek() {
    let mut parser = make_parser("a = b");
    assert!(parser.expect_peek(&Token::Plus).is_err());
    assert_eq!(parser.current_token, Token::identifier("a"));
    assert!(parser.expect_peek(&Token::Assign).is_ok());
    assert_eq!(parser.current_token, Token::Assign);
    assert_eq!(parser.peeking_token, Token::identifier("b"));
    assert!(parser.expect_peek(&Token::identifier("c")).is_err());
    assert!(parser.expect_peek(&Token::identifier("b")).is_ok());
    assert!(parser.expect_peek(&Token::Semicolon).is_err());
    assert!(parser.expect_peek(&Token::EOF).is_ok());
    assert_eq!(parser.current_token, Token::EOF);
}

#[test]
fn test_advance_tokens_stops_behind_the_semicolon() {
    let mut parser = make_parser("a b ; c ; d");
    parser.advance_tokens();
    assert_eq!(parser.current_token, Token::identifier("c"));
    parser.advance_tokens();
    assert_eq!(parser.current_token, Token::identifier("d"));
    parser.advance_tokens();
    assert_eq!(parser.current_token, Token::EOF);
    parser.advance_tokens();
    assert_eq!(parser.current_token, Token::EOF);
}

#[test]
fn test_advance_tokens_passes_a_semicolon_it_stands_on() {
    let mut parser = make_parser("; ; a");
    parser.advance_tokens();
    assert_eq!(parser.current_token, Token::Semicolon);
    parser.advance_tokens();
    assert_eq!(parser.current_token, Token::identifier("a"));
}

#[test]
fn test_expression_leaves_the_parser_at_its_last_token() {
    let mut parser = make_parser("a + b * c ) d");
    let tree = parser.parse_expression(Precedence::LOWEST);
    assert_eq!(
        tree,
        Ok(Expression::infix(
            id("a"),
            Expression::infix(id("b"), id("c"), InfixOperator::Mult),
            InfixOperator::Add
        ))
    );
    assert_eq!(parser.current_token, Token::identifier("c"));
    assert_eq!(parser.peeking_token, Token::RParen);
}

#[test]
fn test_expression_stops_at_an_operator_that_does_not_bind_tighter() {
    let mut parser = make_parser("a * b + c");
    let tree = parser.parse_expression(Precedence::SUM);
    assert_eq!(
        tree,
        Ok(Expression::infix(id("a"), id("b"), InfixOperator::Mult))
    );
    assert_eq!(parser.current_token, Token::identifier("b"));
    assert_eq!(parser.peeking_token, Token::Plus);

    let mut parser = make_parser("a * b + c");
    let tree = parser.parse_expression(Precedence::PRODUCT);
    assert_eq!(tree, Ok(id("a")));
    assert_eq!(parser.current_token, Token::identifier("a"));

    let mut parser = make_parser("a + b; c");
    let tree = parser.parse_expression(Precedence::LOWEST);
    assert_eq!(
        tree,
        Ok(Expression::infix(id("a"), id("b"), InfixOperator::Add))
    );
    assert_eq!(parser.peeking_token, Token::Semicolon);
}

#[test]
fn test_prefix_forms() {
    assert_eq!(make_parser("x").parse_prefix(), Ok(id("x")));
    assert_eq!(make_parser("42").parse_prefix(), Ok(Expression::Int(42)));
    assert_eq!(make_parser("true").parse_prefix(), Ok(Expression::Bool(true)));
    assert_eq!(make_parser("false").parse_prefix(), Ok(Expression::Bool(false)));
    assert_eq!(make_parser("(x)").parse_prefix(), Ok(id("x")));
    assert_eq!(
        make_parser("!x").parse_prefix(),
        Ok(Expression::prefix(id("x"), PrefixOperator::Not))
    );
    assert_eq!(
        make_parser("-x").parse_prefix(),
        Ok(Expression::prefix(id("x"), PrefixOperator::Negative))
    );
    assert_eq!(
        make_parser("if (x) { }").parse_prefix(),
        Ok(Expression::if_else(id("x"), vec![], None))
    );
    assert_eq!(
        make_parser("fn() { }").parse_prefix(),
        Ok(Expression::function(vec![], vec![]))
    );
    assert!(make_parser("").parse_prefix().is_err());
    assert!(make_parser("+").parse_prefix().is_err());
    assert!(make_parser("let").parse_prefix().is_err());
}

#[test]
fn test_grouped_expression_passes_the_closing_parenthesis_even_on_failure() {
    let mut parser = make_parser("( + ) a");
    assert!(parser.parse_grouped_expression().is_err());
    assert_eq!(parser.current_token, Token::RParen);
    assert_eq!(parser.peeking_token, Token::identifier("a"));

    let mut parser = make_parser("( a b");
    assert!(parser.parse_grouped_expression().is_err());
    assert_eq!(parser.current_token, Token::identifier("a"));

    let mut parser = make_parser("( a ) b");
    assert_eq!(parser.parse_grouped_expression(), Ok(id("a")));
    assert_eq!(parser.current_token, Token::RParen);
}

#[test]
fn test_boolean_and_integer_literals() {
    assert_eq!(make_parser("true").parse_boolean(), Ok(Expression::Bool(true)));
    assert_eq!(make_parser("false").parse_boolean(), Ok(Expression::Bool(false)));
    assert!(make_parser("x").parse_boolean().is_err());
    let parser = make_parser("");
    assert_eq!(parser.parse_integer(&String::from("12")), Ok(Expression::Int(12)));
    assert_eq!(parser.parse_integer(&String::from("-12")), Ok(Expression::Int(-12)));
    assert!(parser.parse_integer(&String::from("twelve")).is_err());
    assert!(parser.parse_integer(&String::from("")).is_err());
}

#[test]
fn test_infix_continuations() {
    let mut parser = make_parser("+ b");
    assert_eq!(
        parser.parse_infix(id("a")),
        Ok(Expression::infix(id("a"), id("b"), InfixOperator::Add))
    );
    let mut parser = make_parser("(b, c)");
    assert_eq!(
        parser.parse_infix(id("a")),
        Ok(Expression::call(id("a"), vec![id("b"), id("c")]))
    );
    assert_eq!(parser.current_token, Token::RParen);
    let mut parser = make_parser("b");
    assert!(parser.parse_infix(id("a")).is_err());
    assert_eq!(parser.current_token, Token::identifier("b"));
    let mut parser = make_parser("!= b == c");
    assert_eq!(
        parser.parse_infix(id("a")),
        Ok(Expression::infix(id("a"), id("b"), InfixOperator::NotEqual))
    );
}

#[test]
fn test_call_arguments() {
    assert_eq!(make_parser("()").parse_call_arguments(), Ok(vec![]));
    assert_eq!(make_parser("(a)").parse_call_arguments(), Ok(vec![id("a")]));
    assert_eq!(
        make_parser("(a, b + c)").parse_call_arguments(),
        Ok(vec![
            id("a"),
            Expression::infix(id("b"), id("c"), InfixOperator::Add)
        ])
    );
    assert!(make_parser("(a").parse_call_arguments().is_err());
    assert!(make_parser("(a,").parse_call_arguments().is_err());
    assert!(make_parser("(a b)").parse_call_arguments().is_err());
    assert_eq!(
        make_parser("(a)").parse_call_expression(id("f")),
        Ok(Expression::call(id("f"), vec![id("a")]))
    );
}

#[test]
fn test_function_params() {
    let mut parser = make_parser("(a, b) {");
    assert_eq!(parser.parse_function_params(), Ok(vec![id("a"), id("b")]));
    assert_eq!(parser.current_token, Token::RParen);
    assert_eq!(parser.peeking_token, Token::LBrace);
    let mut parser = make_parser("(a) {");
    assert_eq!(parser.parse_function_params(), Ok(vec![id("a")]));
    assert_eq!(parser.current_token, Token::RParen);
    let mut parser = make_parser("()");
    assert_eq!(parser.parse_function_params(), Ok(vec![]));
    assert_eq!(parser.current_token, Token::RParen);
}

#[test]
fn test_function_params_stop_where_the_list_breaks() {
    let mut parser = make_parser("(a, 5)");
    assert!(parser.parse_function_params().is_err());
    assert_eq!(parser.current_token, Token::integer("5"));
    let mut parser = make_parser("(a b)");
    assert!(parser.parse_function_params().is_err());
    assert_eq!(parser.current_token, Token::identifier("a"));
    assert_eq!(parser.peeking_token, Token::identifier("b"));
    let mut parser = make_parser("(a,)");
    assert!(parser.parse_function_params().is_err());
    assert_eq!(parser.current_token, Token::RParen);
    let mut parser = make_parser("(,a)");
    assert!(parser.parse_function_params().is_err());
    assert_eq!(parser.current_token, Token::Comma);
    let mut parser = make_parser("(a");
    assert!(parser.parse_function_params().is_err());
    assert_eq!(parser.current_token, Token::identifier("a"));
    let mut parser = make_parser("");
    assert!(parser.parse_function_params().is_err());
    assert_eq!(parser.current_token, Token::EOF);
}

#[test]
fn test_function_literal_with_names_in_a_row_is_an_error() {
    let mut parser = make_parser("fn(x y) { x }");
    assert!(parser.parse_function_literal().is_err());
    let mut parser = make_parser("fn(x,) { }");
    assert!(parser.parse_function_literal().is_err());
    let mut parser = make_parser("fn(x, y) { x }");
    assert!(parser.parse_function_literal().is_ok());
}

#[test]
fn test_block_without_closing_brace_is_an_error() {
    let mut parser = make_parser("{ a");
    assert!(parser.parse_block_statement().is_err());
    assert_eq!(parser.current_token, Token::EOF);
    let mut parser = make_parser("{");
    assert!(parser.parse_block_statement().is_err());
    let mut parser = make_parser("{ }");
    assert_eq!(parser.parse_block_statement(), Ok(vec![]));
    assert_eq!(parser.current_token, Token::RBrace);
    let mut parser = make_parser("if (x) { x");
    assert!(parser.parse_if_expression().is_err());
    let mut parser = make_parser("if (x) { x } else { y");
    assert!(parser.parse_if_expression().is_err());
    let mut parser = make_parser("fn() { a");
    assert!(parser.parse_function_literal().is_err());
}

#[test]
fn test_if_needs_every_token_of_its_frame() {
    for input in ["if x < y { x }", "if (x { x }", "if (x) x", "if (x) { x } else y", "if (x) { x"] {
        let mut parser = make_parser(input);
        assert!(parser.parse_if_expression().is_err(), "{}", input);
    }
    let mut parser = make_parser("if (x) { x }");
    assert!(parser.parse_if_expression().is_ok());
}

#[test]
fn test_block_statement() {
    let mut parser = make_parser("{ a; b } c");
    assert_eq!(
        parser.parse_block_statement(),
        Ok(vec![Statement::expression(id("a")), Statement::expression(id("b"))])
    );
    assert_eq!(parser.current_token, Token::RBrace);
    let mut parser = make_parser("{ a; + }");
    assert!(parser.parse_block_statement().is_err());
    assert_eq!(parser.current_token, Token::Plus);
}

#[test]
fn test_statements() {
    assert_eq!(
        make_parser("let x = 1;").parse_statement(),
        Ok(Statement::let_binding("x", Expression::Int(1)))
    );
    assert_eq!(
        make_parser("return x;").parse_statement(),
        Ok(Statement::return_value(id("x")))
    );
    assert_eq!(
        make_parser("x;").parse_statement(),
        Ok(Statement::expression(id("x")))
    );
    assert_eq!(
        make_parser("let x = 1;").parse_let_statement(),
        Ok(Statement::let_binding("x", Expression::Int(1)))
    );
    assert_eq!(
        make_parser("return x;").parse_return_statement(),
        Ok(Statement::return_value(id("x")))
    );
    assert_eq!(
        make_parser("x;").parse_expression_statement(),
        Ok(Statement::expression(id("x")))
    );
}

#[test]
fn test_expression_statement_passes_its_semicolon_and_let_does_not() {
    let mut parser = make_parser("x; y");
    assert!(parser.parse_expression_statement().is_ok());
    assert_eq!(parser.current_token, Token::Semicolon);
    let mut parser = make_parser("let x = 1; y");
    assert!(parser.parse_let_statement().is_ok());
    assert_eq!(parser.current_token, Token::integer("1"));
    assert_eq!(parser.peeking_token, Token::Semicolon);
    let mut parser = make_parser("return 1; y");
    assert!(parser.parse_return_statement().is_ok());
    assert_eq!(parser.current_token, Token::integer("1"));
}

#[test]
fn test_if_and_function_literals() {
    let mut parser = make_parser("if (a) { b } else { c } d");
    assert_eq!(
        parser.parse_if_expression(),
        Ok(Expression::if_else(
            id("a"),
            vec![Statement::expression(id("b"))],
            Some(vec![Statement::expression(id("c"))])
        ))
    );
    assert_eq!(parser.current_token, Token::RBrace);
    assert_eq!(parser.peeking_token, Token::identifier("d"));
    let mut parser = make_parser("fn(a) { b } d");
    assert_eq!(
        parser.parse_function_literal(),
        Ok(Expression::function(
            vec![id("a")],
            vec![Statement::expression(id("b"))]
        ))
    );
    assert_eq!(parser.current_token, Token::RBrace);
    let mut parser = make_parser("-a + b");
    assert_eq!(
        parser.parse_prefix_expression(),
        Ok(Expression::prefix(id("a"), PrefixOperator::Negative))
    );
    assert_eq!(parser.peeking_token, Token::Plus);
    assert!(make_parser("a").parse_prefix_expression().is_err());
}
