use monkey::ast::{Expression, InfixOperator, PrefixOperator, Statement};
use monkey::lexer::Lexer;
use monkey::parser::parser::Parser;
use monkey::token::Token;

fn make_parser(input: &str) -> Parser {
    let lexer = Lexer::new(input);
    Parser::new(lexer)
}

#[test]
fn test_call_expression_parsing() {
    let mut parser = make_parser("add(1, 2 * 3, 4 + 5, 6 / 2);");
    let program = parser.parse_program();

    assert_eq!(parser.errors.len(), 0);
    assert_eq!(program.statements.len(), 1);
    assert_eq!(
        program.statements[0],
        Statement::Expression(Expression::call(
            Expression::identifier("add"),
            vec![
                Expression::Int(1),
                Expression::infix(Expression::Int(2), Expression::Int(3), InfixOperator::Mult),
                Expression::infix(Expression::Int(4), Expression::Int(5), InfixOperator::Add),
                Expression::infix(Expression::Int(6), Expression::Int(2), InfixOperator::Div)
            ]
        ))
    )
}

#[test]
fn test_function_literal_parsing() {
    let mut parser = make_parser("fn(x, y) {\n    x + y;\n}\n");
    let program = parser.parse_program();

    assert_eq!(parser.errors.len(), 0);
    assert_eq!(program.statements.len(), 1);

    assert_eq!(
        program.statements[0],
        Statement::Expression(Expression::function(
            vec![Expression::identifier("x"), Expression::identifier("y")],
            vec![Statement::expression(Expression::infix(
                Expression::identifier("x"),
                Expression::identifier("y"),
                InfixOperator::Add,
            ))]
        ))
    );
}

fn five_op_five(operator: InfixOperator) -> Statement {
    Statement::expression(Expression::infix(
        Expression::Int(5),
        Expression::Int(5),
        operator,
    ))
}

#[test]
fn test_parsing_infix_expressions_with_integers() {
    let mut parser = make_parser("5 + 5;\n5 - 5;\n5 * 5;\n5 / 5;\n5 > 5;\n5 < 5;\n5 == 5;\n5 != 5;\n");
    let program = parser.parse_program();

    assert_eq!(parser.errors.len(), 0);
    assert_eq!(program.statements.len(), 8);

    assert_eq!(program.statements[0], five_op_five(InfixOperator::Add));
    assert_eq!(program.statements[1], five_op_five(InfixOperator::Sub));
    assert_eq!(program.statements[2], five_op_five(InfixOperator::Mult));
    assert_eq!(program.statements[3], five_op_five(InfixOperator::Div));
    assert_eq!(program.statements[4], five_op_five(InfixOperator::GreaterThan));
    assert_eq!(program.statements[5], five_op_five(InfixOperator::LessThan));
    assert_eq!(program.statements[6], five_op_five(InfixOperator::Equal));
    assert_eq!(program.statements[7], five_op_five(InfixOperator::NotEqual));
}

#[test]
fn test_parsing_infix_with_multiple_expressions() {
    let mut parser = make_parser("5 + 7 * 10;\n1 - 2 + 3;\n5 * 7 + 10;\n");
    let program = parser.parse_program();

    assert_eq!(parser.errors.len(), 0);
    assert_eq!(program.statements.len(), 3);
    assert_eq!(
        program.statements[0],
        Statement::Expression(Expression::infix(
            Expression::Int(5),
            Expression::infix(Expression::Int(7), Expression::Int(10), InfixOperator::Mult),
            InfixOperator::Add
        ))
    );
    assert_eq!(
        program.statements[1],
        Statement::Expression(Expression::infix(
            Expression::infix(Expression::Int(1), Expression::Int(2), InfixOperator::Sub),
            Expression::Int(3),
            InfixOperator::Add
        ))
    );
    assert_eq!(
        program.statements[2],
        Statement::Expression(Expression::infix(
            Expression::infix(Expression::Int(5), Expression::Int(7), InfixOperator::Mult),
            Expression::Int(10),
            InfixOperator::Add
        ))
    );
}

#[test]
fn test_new_with_empty_input() {
    let parser = make_parser("");

    assert_eq!(parser.current_token, Token::EOF);
    assert_eq!(parser.peeking_token, Token::EOF);
}

#[test]
fn test_new_with_single_token_input() {
    let parser = make_parser(";");

    assert_eq!(parser.current_token, Token::Semicolon);
    assert_eq!(parser.peeking_token, Token::EOF);
}

#[test]
fn test_new_with_multiple_tokens_input() {
    let parser = make_parser("let five = 5;");

    assert_eq!(parser.current_token, Token::Let);
    assert_eq!(
        parser.peeking_token,
        Token::Identifier(String::from("five"))
    );
}

#[test]
fn test_next_token() {
    let mut parser = make_parser("let five = 5;");

    assert_eq!(parser.current_token, Token::Let);
    assert_eq!(parser.peeking_token, Token::identifier("five"));

    parser.next_token();
    assert_eq!(parser.current_token, Token::identifier("five"));
    assert_eq!(parser.peeking_token, Token::Assign);

    parser.next_token();
    assert_eq!(parser.current_token, Token::Assign);
    assert_eq!(parser.peeking_token, Token::integer("5"));

    parser.next_token();
    assert_eq!(parser.current_token, Token::integer("5"));
    assert_eq!(parser.peeking_token, Token::Semicolon);
}

#[test]
fn test_if_expression() {
    let mut parser = make_parser("if (x < y) { x }\n");
    let program = parser.parse_program();

    assert_eq!(parser.errors.len(), 0);
    assert_eq!(program.statements.len(), 1);

    assert_eq!(
        program.statements[0],
        Statement::Expression(Expression::if_else(
            Expression::infix(
                Expression::identifier("x"),
                Expression::identifier("y"),
                InfixOperator::LessThan,
            ),
            vec![Statement::Expression(Expression::identifier("x"))],
            None
        ))
    )
}

#[test]
fn test_if_else_expression() {
    let mut parser = make_parser("if (x < y) { x } else { y }\n");
    let program = parser.parse_program();

    assert_eq!(parser.errors.len(), 0);
    assert_eq!(program.statements.len(), 1);

    assert_eq!(
        program.statements[0],
        Statement::Expression(Expression::if_else(
            Expression::infix(
                Expression::identifier("x"),
                Expression::identifier("y"),
                InfixOperator::LessThan,
            ),
            vec![Statement::Expression(Expression::identifier("x"))],
            Some(vec![Statement::Expression(Expression::identifier("y"))])
        ))
    )
}

#[test]
fn test_parse_let_statement() {
    let mut parser = make_parser("let x = 5;\nlet y = 10;\nlet banana = 123456;\n");

    let program = parser.parse_program();

    assert_eq!(parser.errors.len(), 0);
    assert_eq!(program.statements.len(), 3);

    assert_eq!(
        program.statements[0],
        Statement::let_binding("x", Expression::Int(5))
    );
    assert_eq!(
        program.statements[1],
        Statement::let_binding("y", Expression::Int(10))
    );
    assert_eq!(
        program.statements[2],
        Statement::let_binding("banana", Expression::Int(123456))
    );
}

#[test]
fn test_parse_return_statement() {
    let mut parser = make_parser("return banana;\nreturn 69 + 420;\n");

    let program = parser.parse_program();

    assert_eq!(program.statements.len(), 2);
    assert_eq!(parser.errors.len(), 0);

    assert_eq!(
        program.statements[0],
        Statement::return_value(Expression::identifier("banana"))
    );
    assert_eq!(
        program.statements[1],
        Statement::return_value(Expression::infix(
            Expression::Int(69),
            Expression::Int(420),
            InfixOperator::Add
        ))
    );
}

#[test]
fn test_identifier_expression() {
    let mut parser = make_parser("banana;\napple;\n");
    let program = parser.parse_program();

    assert_eq!(parser.errors.len(), 0);
    assert_eq!(program.statements.len(), 2);
    assert_eq!(
        program.statements[0],
        Statement::expression(Expression::identifier("banana"))
    );
    assert_eq!(
        program.statements[1],
        Statement::expression(Expression::identifier("apple"))
    );
}

#[test]
fn test_integer_literal_expression() {
    let mut parser = make_parser("123;\n456;\n");
    let program = parser.parse_program();

    assert_eq!(parser.errors.len(), 0);
    assert_eq!(program.statements.len(), 2);
    assert_eq!(
        program.statements[0],
        Statement::expression(Expression::Int(123))
    );
    assert_eq!(
        program.statements[1],
        Statement::expression(Expression::Int(456))
    );
}

#[test]
fn test_prefix_operators() {
    let mut parser = make_parser("!5;\n-15;\n");
    let program = parser.parse_program();

    assert_eq!(parser.errors.len(), 0);
    assert_eq!(program.statements.len(), 2);
    assert_eq!(
        program.statements[0],
        Statement::expression(Expression::prefix(Expression::Int(5), PrefixOperator::Not))
    );
    assert_eq!(
        program.statements[1],
        Statement::expression(Expression::prefix(
            Expression::Int(15),
            PrefixOperator::Negative
        ))
    );
}

#[test]
fn test_precedences() {
    let tests = vec![
        ("-a * b", "((-a) * b)"),
        ("!-a", "(!(-a))"),
        ("a + b + c", "((a + b) + c)"),
        ("a + b - c", "((a + b) - c)"),
        ("a * b * c", "((a * b) * c)"),
        ("a * b / c", "((a * b) / c)"),
        ("a + b / c", "(a + (b / c))"),
        ("a + b * c + d / e - f", "(((a + (b * c)) + (d / e)) - f)"),
        ("3 + 4; -5 * 5", "(3 + 4)\n((-5) * 5)"),
        ("5 > 4 == 3 < 4", "((5 > 4) == (3 < 4))"),
        ("5 < 4 != 3 > 4", "((5 < 4) != (3 > 4))"),
        (
            "3 + 4 * 5 == 3 * 1 + 4 * 5",
            "((3 + (4 * 5)) == ((3 * 1) + (4 * 5)))",
        ),
        ("true", "true"),
        ("false", "false"),
        ("3 > 5 == false", "((3 > 5) == false)"),
        ("3 < 5 == true", "((3 < 5) == true)"),
        ("1 + (2 + 3) + 4", "((1 + (2 + 3)) + 4)"),
        ("(5 + 5) * 2", "((5 + 5) * 2)"),
        ("2 / (5 + 5)", "(2 / (5 + 5))"),
        ("-(5 + 5)", "(-(5 + 5))"),
        ("!(true == true)", "(!(true == true))"),
    ];

    for test in tests {
        let mut parser = make_parser(test.0);
        let program = parser.parse_program();
        assert_eq!(parser.errors.len(), 0);
        assert_eq!(program.to_string().trim(), test.1);
    }
}
