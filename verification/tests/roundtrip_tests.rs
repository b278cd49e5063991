use monkey::ast::{Expression, InfixOperator, PrefixOperator, Program, Statement};
use monkey::lexer::Lexer;
use monkey::parser::number::parse_decimal;
use monkey::parser::parser::Parser;

fn parse(input: &str) -> (Program, usize) {
    let mut parser = Parser::new(Lexer::new(input));
    let program = parser.parse_program();
    (program, parser.errors.len())
}

fn assert_reads_back(input: &str) {
    let (first, errors) = parse(input);
    assert_eq!(errors, 0, "{}", input);
    let text = first.to_string();
    let (second, errors) = parse(&text);
    assert_eq!(errors, 0, "{}", text);
    assert_eq!(second, first, "{}", text);
    assert_eq!(second.to_string(), text);
}

#[test]
fn test_rendered_precedence_cases_parse_to_the_same_tree() {
    let inputs = vec![
        "-a * b",
        "!-a",
        "a + b + c",
        "a + b - c",
        "a * b * c",
        "a * b / c",
        "a + b / c",
        "a + b * c + d / e - f",
        "5 > 4 == 3 < 4",
        "5 < 4 != 3 > 4",
        "3 + 4 * 5 == 3 * 1 + 4 * 5",
        "true",
        "false",
        "3 > 5 == false",
        "3 < 5 == true",
        "1 + (2 + 3) + 4",
        "(5 + 5) * 2",
        "2 / (5 + 5)",
        "-(5 + 5)",
        "!(true == true)",
    ];
    for input in inputs {
        assert_reads_back(input);
    }
}

#[test]
fn test_rendering_is_a_fixed_point_of_parsing() {
    let texts = vec![
        "((-a) * b)",
        "(((a + (b * c)) + (d / e)) - f)",
        "((3 > 5) == false)",
        "(!(-a))",
        "add(1, (2 * 3), (4 + 5), (6 / 2))",
        "if ((x < y)) { x } else { y }",
        "if (x) { }",
        "fn(x, y) { (x + y) }",
        "fn() { }",
        "fn(x) { x }(1)(2)",
        "let x = 5;",
        "return (a + b);",
        "let a = 1;\nlet b = f(a);\nreturn b;\n(a + b)",
    ];
    for text in texts {
        let (program, errors) = parse(text);
        assert_eq!(errors, 0, "{}", text);
        assert_eq!(program.to_string().trim(), text);
    }
}

#[test]
fn test_constructs_read_back() {
    assert_reads_back("if (x < y) { x } else { y }");
    assert_reads_back("if (x < y) { x }");
    assert_reads_back("fn(x, y) { x + y; }");
    assert_reads_back("add(1, 2 * 3, 4 + 5, 6 / 2);");
    assert_reads_back("let x = 5 * 5;");
    assert_reads_back("return fn(a) { a }(1);");
    assert_reads_back("let a = 1; let b = 2; return a; a + b");
}

#[test]
fn test_rendered_expression_statements_on_two_lines_read_as_a_call() {
    let (first, errors) = parse("3 + 4; -5 * 5");
    assert_eq!(errors, 0);
    assert_eq!(first.statements.len(), 2);
    let text = first.to_string();
    assert_eq!(text, "(3 + 4)\n((-5) * 5)\n");
    let (second, errors) = parse(&text);
    assert_eq!(errors, 0);
    assert_eq!(second.statements.len(), 1);
    assert_eq!(
        second.statements[0],
        Statement::expression(Expression::call(
            Expression::infix(Expression::Int(3), Expression::Int(4), InfixOperator::Add),
            vec![Expression::infix(
                Expression::prefix(Expression::Int(5), PrefixOperator::Negative),
                Expression::Int(5),
                InfixOperator::Mult
            )]
        ))
    );
}

#[test]
fn test_negative_literal_reads_back_as_a_negation() {
    let tree = Statement::expression(Expression::Int(-5));
    assert_eq!(tree.to_string(), "-5");
    let (program, errors) = parse("-5");
    assert_eq!(errors, 0);
    assert_eq!(
        program.statements[0],
        Statement::expression(Expression::prefix(Expression::Int(5), PrefixOperator::Negative))
    );
    assert_eq!(program.to_string(), "(-5)\n");
}

#[test]
fn test_render_integers() {
    assert_eq!(Expression::Int(0).to_string(), "0");
    assert_eq!(Expression::Int(7).to_string(), "7");
    assert_eq!(Expression::Int(10).to_string(), "10");
    assert_eq!(Expression::Int(123456).to_string(), "123456");
    assert_eq!(Expression::Int(-1).to_string(), "-1");
    assert_eq!(Expression::Int(-907).to_string(), "-907");
    assert_eq!(Expression::Int(i64::MAX).to_string(), "9223372036854775807");
    assert_eq!(Expression::Int(i64::MIN).to_string(), "-9223372036854775808");
}

#[test]
fn test_render_expressions() {
    assert_eq!(Expression::identifier("banana").to_string(), "banana");
    assert_eq!(Expression::Bool(true).to_string(), "true");
    assert_eq!(Expression::Bool(false).to_string(), "false");
    assert_eq!(
        Expression::prefix(Expression::identifier("a"), PrefixOperator::Not).to_string(),
        "(!a)"
    );
    assert_eq!(
        Expression::prefix(Expression::identifier("a"), PrefixOperator::Negative).to_string(),
        "(-a)"
    );
    let operators = vec![
        (InfixOperator::Add, "(a + b)"),
        (InfixOperator::Sub, "(a - b)"),
        (InfixOperator::Mult, "(a * b)"),
        (InfixOperator::Div, "(a / b)"),
        (InfixOperator::Equal, "(a == b)"),
        (InfixOperator::NotEqual, "(a != b)"),
        (InfixOperator::GreaterThan, "(a > b)"),
        (InfixOperator::LessThan, "(a < b)"),
    ];
    for (operator, text) in operators {
        assert_eq!(
            Expression::infix(
                Expression::identifier("a"),
                Expression::identifier("b"),
                operator
            )
            .to_string(),
            text
        );
    }
    assert_eq!(
        Expression::call(Expression::identifier("f"), vec![]).to_string(),
        "f()"
    );
    assert_eq!(
        Expression::call(
            Expression::identifier("f"),
            vec![Expression::Int(1), Expression::Int(2), Expression::Int(3)]
        )
        .to_string(),
        "f(1, 2, 3)"
    );
    assert_eq!(
        Expression::function(
            vec![Expression::identifier("x"), Expression::identifier("y")],
            vec![
                Statement::let_binding("z", Expression::identifier("x")),
                Statement::return_value(Expression::identifier("z")),
            ]
        )
        .to_string(),
        "fn(x, y) { let z = x; return z; }"
    );
    assert_eq!(
        Expression::if_else(
            Expression::Bool(true),
            vec![Statement::expression(Expression::Int(1))],
            Some(vec![])
        )
        .to_string(),
        "if (true) { 1 } else { }"
    );
}

#[test]
fn test_render_statements_and_programs() {
    assert_eq!(
        Statement::let_binding("x", Expression::Int(5)).to_string(),
        "let x = 5;"
    );
    assert_eq!(
        Statement::return_value(Expression::identifier("x")).to_string(),
        "return x;"
    );
    assert_eq!(
        Statement::expression(Expression::identifier("x")).to_string(),
        "x"
    );
    assert_eq!(Program::new().to_string(), "");
    let mut program = Program::new();
    program.statements.push(Statement::let_binding("x", Expression::Int(5)));
    program.statements.push(Statement::expression(Expression::identifier("x")));
    assert_eq!(program.to_string(), "let x = 5;\nx\n");
}

#[test]
fn test_parse_decimal() {
    assert_eq!(parse_decimal("0"), Some(0));
    assert_eq!(parse_decimal("5"), Some(5));
    assert_eq!(parse_decimal("123456"), Some(123456));
    assert_eq!(parse_decimal("000123"), Some(123));
    assert_eq!(parse_decimal("+5"), Some(5));
    assert_eq!(parse_decimal("-5"), Some(-5));
    assert_eq!(parse_decimal("-0"), Some(0));
    assert_eq!(parse_decimal("9223372036854775807"), Some(i64::MAX));
    assert_eq!(parse_decimal("+9223372036854775807"), Some(i64::MAX));
    assert_eq!(parse_decimal("-9223372036854775808"), Some(i64::MIN));
    assert_eq!(parse_decimal("-9223372036854775807"), Some(-9223372036854775807));
}

#[test]
fn test_parse_decimal_rejects_what_is_no_integer() {
    for text in [
        "",
        "+",
        "-",
        "--5",
        "+-5",
        "5-",
        "5+",
        "12a",
        "a12",
        " 5",
        "5 ",
        "1_000",
        "0x10",
        "1.5",
        "\u{663}",
        "9223372036854775808",
        "-9223372036854775809",
        "18446744073709551616",
        "99999999999999999999999999999999999999",
        "-99999999999999999999999999999999999999",
    ] {
        assert_eq!(parse_decimal(text), None, "{}", text);
    }
}

#[test]
fn test_parse_decimal_agrees_with_the_standard_library() {
    for text in [
        "0", "7", "+7", "-7", "", "-", "+", "00", "-00", "12345678901234567890", "9223372036854775807",
        "9223372036854775808", "-9223372036854775808", "-9223372036854775809", "1a", "++1", "٣",
    ] {
        assert_eq!(parse_decimal(text), text.parse::<i64>().ok(), "{}", text);
    }
}

#[test]
fn test_a_well_formed_statement_is_one_statement_and_no_error() {
    let inputs = vec![
        "x",
        "x;",
        "5",
        "true;",
        "let x = 5;",
        "let x = 5",
        "return x;",
        "return x",
        "a + b * c",
        "a * b + c;",
        "-a - -b",
        "!a == !b",
        "((a))",
        "(a + b) * (c - d);",
        "f(a, b)(c)",
        "-f(x) * (1 + 2)",
        "if (a < b) { a } else { b }",
        "if (a) { f(a); g(a) }",
        "fn(a, b) { let c = a + b return c }",
        "fn() { fn() { 1 } }",
        "let f = fn(x) { if (x) { 1 } else { 2 } };",
        "a + if (b) { c } * d",
    ];
    for input in inputs {
        let (program, errors) = parse(input);
        assert_eq!(errors, 0, "{}", input);
        assert_eq!(program.statements.len(), 1, "{}", input);
    }
}

#[test]
fn test_parsing_normalizes_whatever_the_text_was() {
    let inputs = vec![
        "  a+b*c  ",
        "1+2;;;",
        "let x 5; a - b - c",
        "@ a # * $ b",
        ") ( + ; -(-(-x))",
        "if (x) { } else { } junk junk",
        "let a = f(1)(2)(3); let b = !a; return a == b; fn(x) { x }",
        "9223372036854775807 + 0",
    ];
    for input in inputs {
        let (first, _) = parse(input);
        let text = first.to_string();
        let (second, errors) = parse(&text);
        assert_eq!(errors, 0, "{}", input);
        assert_eq!(second, first, "{}", input);
    }
}
