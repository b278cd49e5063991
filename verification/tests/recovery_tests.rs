use monkey::ast::{Expression, InfixOperator, PrefixOperator, Program, Statement};
use monkey::lexer::Lexer;
use monkey::parser::parser::Parser;
use monkey::token::Token;

fn parse(input: &str) -> (Program, usize) {
    let mut parser = Parser::new(Lexer::new(input));
    let program = parser.parse_program();
    assert_eq!(parser.current_token, Token::EOF);
    assert_eq!(parser.peeking_token, Token::EOF);
    (program, parser.errors.len())
}

fn id(name: &str) -> Expression {
    Expression::identifier(name)
}

#[test]
fn test_empty_input_is_the_empty_program() {
    let (program, errors) = parse("");
    assert_eq!(program.statements.len(), 0);
    assert_eq!(errors, 0);
}

#[test]
fn test_blank_input_is_the_empty_program() {
    let (program, errors) = parse(" \n\t \r\n");
    assert_eq!(program.statements.len(), 0);
    assert_eq!(errors, 0);
}

#[test]
fn test_lone_semicolon_is_no_statement() {
    let (program, errors) = parse(";");
    assert_eq!(program.statements.len(), 0);
    assert_eq!(errors, 1);
}

#[test]
fn test_let_without_assign_is_one_error() {
    let (program, errors) = parse("let x 5;");
    assert_eq!(program.statements.len(), 0);
    assert_eq!(errors, 1);
}

#[test]
fn test_parsing_continues_behind_a_malformed_let() {
    let (program, errors) = parse("let x 5; let y = 10; 7;");
    assert_eq!(errors, 1);
    assert_eq!(program.statements.len(), 2);
    assert_eq!(
        program.statements[0],
        Statement::let_binding("y", Expression::Int(10))
    );
    assert_eq!(program.statements[1], Statement::expression(Expression::Int(7)));
}

#[test]
fn test_every_malformed_statement_is_one_error() {
    let (program, errors) = parse("let = 1; let 2; return; a; let b = ; c");
    assert_eq!(errors, 4);
    assert_eq!(program.statements.len(), 2);
    assert_eq!(program.statements[0], Statement::expression(id("a")));
    assert_eq!(program.statements[1], Statement::expression(id("c")));
}

#[test]
fn test_let_without_name_is_an_error() {
    assert_eq!(parse("let = 5;").1, 1);
    assert_eq!(parse("let 5 = 5;").1, 1);
    assert_eq!(parse("let").1, 1);
    assert_eq!(parse("let x").1, 1);
    assert_eq!(parse("let x =").1, 1);
}

#[test]
fn test_return_without_expression_is_an_error() {
    let (program, errors) = parse("return;");
    assert_eq!(program.statements.len(), 0);
    assert_eq!(errors, 1);
    assert_eq!(parse("return").1, 1);
}

#[test]
fn test_token_without_prefix_rule_is_an_error() {
    for input in ["+ 1;", "* 2", ")", "}", "=", ",", "else", "== 1", "{ x }", "< 3"] {
        let (program, errors) = parse(input);
        assert_eq!(program.statements.len(), 0, "{}", input);
        assert_eq!(errors, 1, "{}", input);
    }
}

#[test]
fn test_integer_out_of_range_is_an_error() {
    let (program, errors) = parse("9223372036854775808;");
    assert_eq!(program.statements.len(), 0);
    assert_eq!(errors, 1);

    let (program, errors) = parse("99999999999999999999999999;");
    assert_eq!(program.statements.len(), 0);
    assert_eq!(errors, 1);

    let (program, errors) = parse("-9223372036854775808;");
    assert_eq!(program.statements.len(), 0);
    assert_eq!(errors, 1);
}

#[test]
fn test_largest_integer_parses() {
    let (program, errors) = parse("9223372036854775807; -9223372036854775807; 000123");
    assert_eq!(errors, 0);
    assert_eq!(program.statements.len(), 3);
    assert_eq!(
        program.statements[0],
        Statement::expression(Expression::Int(9223372036854775807))
    );
    assert_eq!(
        program.statements[1],
        Statement::expression(Expression::prefix(
            Expression::Int(9223372036854775807),
            PrefixOperator::Negative
        ))
    );
    assert_eq!(program.statements[2], Statement::expression(Expression::Int(123)));
}

#[test]
fn test_operator_without_right_operand_is_an_error() {
    for input in ["1 + ;", "1 +", "a * )", "x == ;", "-", "!;", "1 + 2 * ;"] {
        let (program, errors) = parse(input);
        assert_eq!(program.statements.len(), 0, "{}", input);
        assert_eq!(errors, 1, "{}", input);
    }
}

#[test]
fn test_missing_closing_parenthesis_is_an_error() {
    for input in ["(1 + 2", "(1 + 2;", "((1)", "f(1, 2", "f(1, 2;", "f(1 2)", "f(,)", "f(1,)"] {
        let (program, errors) = parse(input);
        assert_eq!(program.statements.len(), 0, "{}", input);
        assert_eq!(errors, 1, "{}", input);
    }
}

#[test]
fn test_malformed_if_is_an_error() {
    for input in [
        "if x { y }",
        "if (x { y }",
        "if (x) y",
        "if (x) { y } else y",
        "if () { y }",
        "if",
        "if (x)",
        "if (x) { + }",
    ] {
        let (program, errors) = parse(input);
        assert_eq!(program.statements.len(), 0, "{}", input);
        assert_eq!(errors, 1, "{}", input);
    }
}

#[test]
fn test_malformed_function_literal_is_an_error() {
    for input in ["fn x { }", "fn (x) x", "fn", "fn(", "fn(x) { ) }", "fn(x) x }", "fn()"] {
        let (program, errors) = parse(input);
        assert_eq!(program.statements.len(), 0, "{}", input);
        assert_eq!(errors, 1, "{}", input);
    }
}

#[test]
fn test_resynchronizing_passes_what_follows_a_statement_up_to_the_semicolon() {
    let (program, errors) = parse("a b c; d");
    assert_eq!(errors, 0);
    assert_eq!(program.statements.len(), 2);
    assert_eq!(program.statements[0], Statement::expression(id("a")));
    assert_eq!(program.statements[1], Statement::expression(id("d")));
}

#[test]
fn test_statement_without_semicolon_hides_the_rest_of_its_line() {
    let (program, errors) = parse("if (x) { y } z; w");
    assert_eq!(errors, 0);
    assert_eq!(program.statements.len(), 2);
    assert_eq!(
        program.statements[0],
        Statement::expression(Expression::if_else(
            id("x"),
            vec![Statement::expression(id("y"))],
            None
        ))
    );
    assert_eq!(program.statements[1], Statement::expression(id("w")));
}

#[test]
fn test_repeated_semicolons_are_errors_of_their_own() {
    let (program, errors) = parse("a;; b;");
    assert_eq!(errors, 1);
    assert_eq!(program.statements.len(), 2);
}

#[test]
fn test_errors_are_appended_to_those_already_recorded() {
    let mut parser = Parser::new(Lexer::new("let; let; 1"));
    let first = parser.parse_program();
    assert_eq!(first.statements.len(), 1);
    assert_eq!(parser.errors.len(), 2);
    let second = parser.parse_program();
    assert_eq!(second.statements.len(), 0);
    assert_eq!(parser.errors.len(), 2);
}

#[test]
fn test_statements_and_errors_never_outnumber_tokens() {
    let inputs = [
        ("", 0),
        (";", 1),
        (";;;", 3),
        ("a", 1),
        ("a;b;c", 5),
        ("let let let", 3),
        ("1 + ; 2", 4),
        (") ) ; ( (", 5),
    ];
    for (input, tokens) in inputs {
        let (program, errors) = parse(input);
        assert!(program.statements.len() + errors <= tokens, "{}", input);
    }
}

#[test]
fn test_a_program_is_its_first_statement_and_the_program_behind_it() {
    let whole = parse("let a = 1; oops +; b * 2; return c;");
    let first = parse("let a = 1;");
    let rest = parse("oops +; b * 2; return c;");
    assert_eq!(whole.1, first.1 + rest.1);
    assert_eq!(whole.0.statements.len(), first.0.statements.len() + rest.0.statements.len());
    assert_eq!(whole.0.statements[0], first.0.statements[0]);
    assert_eq!(whole.0.statements[1], rest.0.statements[0]);
    assert_eq!(whole.0.statements[2], rest.0.statements[1]);
    assert_eq!(whole.1, 1);
}

#[test]
fn test_grouping_overrides_precedence() {
    let (program, errors) = parse("(1 + 2) * 3");
    assert_eq!(errors, 0);
    assert_eq!(
        program.statements[0],
        Statement::expression(Expression::infix(
            Expression::infix(Expression::Int(1), Expression::Int(2), InfixOperator::Add),
            Expression::Int(3),
            InfixOperator::Mult
        ))
    );
}

#[test]
fn test_operators_of_one_level_associate_left() {
    let (program, errors) = parse("a - b - c; a / b * c; a == b != c; a < b > c");
    assert_eq!(errors, 0);
    assert_eq!(program.to_string(), "((a - b) - c)\n((a / b) * c)\n((a == b) != c)\n((a < b) > c)\n");
}

#[test]
fn test_prefix_binds_tighter_than_any_infix_operator() {
    let (program, errors) = parse("-a + b; !a == b; -a * -b; !-!a");
    assert_eq!(errors, 0);
    assert_eq!(
        program.to_string(),
        "((-a) + b)\n((!a) == b)\n((-a) * (-b))\n(!(-(!a)))\n"
    );
}

#[test]
fn test_call_binds_tighter_than_prefix() {
    let (program, errors) = parse("-f(x); !g() == h(1)(2); a + f(b) * c");
    assert_eq!(errors, 0);
    assert_eq!(
        program.to_string(),
        "(-f(x))\n((!g()) == h(1)(2))\n(a + (f(b) * c))\n"
    );
}

#[test]
fn test_calls() {
    let (program, errors) = parse("f(); f(a)(b); fn(x) { x }(1); (a + b)(c); if (a) { b }(c)");
    assert_eq!(errors, 0);
    assert_eq!(program.statements.len(), 5);
    assert_eq!(
        program.statements[0],
        Statement::expression(Expression::call(id("f"), vec![]))
    );
    assert_eq!(
        program.statements[1],
        Statement::expression(Expression::call(
            Expression::call(id("f"), vec![id("a")]),
            vec![id("b")]
        ))
    );
    assert_eq!(
        program.statements[2],
        Statement::expression(Expression::call(
            Expression::function(vec![id("x")], vec![Statement::expression(id("x"))]),
            vec![Expression::Int(1)]
        ))
    );
    assert_eq!(
        program.statements[3],
        Statement::expression(Expression::call(
            Expression::infix(id("a"), id("b"), InfixOperator::Add),
            vec![id("c")]
        ))
    );
    assert_eq!(
        program.statements[4],
        Statement::expression(Expression::call(
            Expression::if_else(id("a"), vec![Statement::expression(id("b"))], None),
            vec![id("c")]
        ))
    );
}

#[test]
fn test_function_parameters() {
    let (program, errors) = parse("fn() { }; fn(x) { }; fn(x, y, z) { }");
    assert_eq!(errors, 0);
    assert_eq!(program.statements.len(), 3);
    assert_eq!(
        program.statements[0],
        Statement::expression(Expression::function(vec![], vec![]))
    );
    assert_eq!(
        program.statements[1],
        Statement::expression(Expression::function(vec![id("x")], vec![]))
    );
    assert_eq!(
        program.statements[2],
        Statement::expression(Expression::function(vec![id("x"), id("y"), id("z")], vec![]))
    );
}

#[test]
fn test_function_parameters_must_be_separated_by_commas() {
    for input in ["fn(x y) { x }", "fn(x y) { }", "fn(x, y z) { }", "fn(x y, z) { }"] {
        let (program, errors) = parse(input);
        assert_eq!(program.statements.len(), 0, "{}", input);
        assert_eq!(errors, 1, "{}", input);
    }
}

#[test]
fn test_function_parameters_need_a_name_behind_each_comma() {
    for input in ["fn(x,) { }", "fn(,) { }", "fn(,x) { }", "fn(x,,y) { }", "fn(x, y,) { }"] {
        let (program, errors) = parse(input);
        assert_eq!(program.statements.len(), 0, "{}", input);
        assert_eq!(errors, 1, "{}", input);
    }
}

#[test]
fn test_function_parameters_must_be_names() {
    for input in ["fn(5) { }", "fn(x, 5) { }", "fn(true) { }", "fn(x + y) { }", "fn((x)) { }",
        "fn(let) { }", "fn(x { }", "fn(x", "fn(x,"] {
        let (program, errors) = parse(input);
        assert_eq!(program.statements.len(), 0, "{}", input);
        assert_eq!(errors, 1, "{}", input);
    }
}

#[test]
fn test_a_malformed_parameter_list_costs_one_error_and_nothing_else() {
    let (program, errors) = parse("fn(x y) { x }; fn(x, y) { x }; 7");
    assert_eq!(errors, 1);
    assert_eq!(program.statements.len(), 2);
    assert_eq!(
        program.statements[0],
        Statement::expression(Expression::function(
            vec![id("x"), id("y")],
            vec![Statement::expression(id("x"))]
        ))
    );
    assert_eq!(program.statements[1], Statement::expression(Expression::Int(7)));
}

#[test]
fn test_blocks() {
    let (program, errors) = parse("fn() { a; b; c }; if (x) { } else { }; fn() { a b }");
    assert_eq!(errors, 0);
    assert_eq!(program.statements.len(), 3);
    assert_eq!(
        program.statements[0],
        Statement::expression(Expression::function(
            vec![],
            vec![
                Statement::expression(id("a")),
                Statement::expression(id("b")),
                Statement::expression(id("c")),
            ]
        ))
    );
    assert_eq!(
        program.statements[1],
        Statement::expression(Expression::if_else(id("x"), vec![], Some(vec![])))
    );
    assert_eq!(
        program.statements[2],
        Statement::expression(Expression::function(
            vec![],
            vec![Statement::expression(id("a")), Statement::expression(id("b"))]
        ))
    );
}

#[test]
fn test_block_must_be_closed() {
    for input in [
        "fn() { a",
        "fn() {",
        "fn(x) { x; y",
        "if (x) { x",
        "if (x) {",
        "if (x) { x } else { y",
        "if (x) { x } else {",
        "fn() { fn() { a }",
        "if (x) { if (y) { z }",
    ] {
        let (program, errors) = parse(input);
        assert_eq!(program.statements.len(), 0, "{}", input);
        assert_eq!(errors, 1, "{}", input);
    }
}

#[test]
fn test_an_unclosed_block_swallows_the_rest_of_the_input() {
    let (program, errors) = parse("a; fn() { b; c; d");
    assert_eq!(errors, 1);
    assert_eq!(program.statements.len(), 1);
    assert_eq!(program.statements[0], Statement::expression(id("a")));
}

#[test]
fn test_let_and_return_inside_a_block_end_at_their_expression() {
    let (program, errors) = parse("fn() { let a = 1 return a }");
    assert_eq!(errors, 0);
    assert_eq!(
        program.statements[0],
        Statement::expression(Expression::function(
            vec![],
            vec![
                Statement::let_binding("a", Expression::Int(1)),
                Statement::return_value(id("a")),
            ]
        ))
    );
}

#[test]
fn test_semicolon_behind_a_let_inside_a_block_starts_no_statement() {
    let (program, errors) = parse("fn() { let a = 1; a }");
    assert_eq!(errors, 1);
    assert_eq!(program.statements.len(), 1);
    assert_eq!(program.statements[0], Statement::expression(id("a")));
}

#[test]
fn test_nested_constructs() {
    let (program, errors) = parse("let f = fn(a, b) { if (a < b) { f(b, a) } else { a - b } };");
    assert_eq!(errors, 0);
    assert_eq!(program.statements.len(), 1);
    assert_eq!(
        program.to_string(),
        "let f = fn(a, b) { if ((a < b)) { f(b, a) } else { (a - b) } };\n"
    );
}
