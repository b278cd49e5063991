use monkey::lexer::Lexer;
use monkey::token::Token;

fn lex(input: &str) -> Vec<Token> {
    let mut lexer = Lexer::new(input);
    let mut tokens = Vec::new();
    loop {
        let token = lexer.next_token();
        if token == Token::EOF {
            return tokens;
        }
        tokens.push(token);
    }
}

#[test]
fn test_lexes_let_statement() {
    assert_eq!(
        lex("let five = 5;"),
        vec![
            Token::Let,
            Token::identifier("five"),
            Token::Assign,
            Token::integer("5"),
            Token::Semicolon,
        ]
    );
}

#[test]
fn test_lexes_every_punctuation_mark() {
    assert_eq!(
        lex("=+-!*/<>,;(){}"),
        vec![
            Token::Assign,
            Token::Plus,
            Token::Minus,
            Token::Bang,
            Token::Asterisk,
            Token::Slash,
            Token::LT,
            Token::GT,
            Token::Comma,
            Token::Semicolon,
            Token::LParen,
            Token::RParen,
            Token::LBrace,
            Token::RBrace,
        ]
    );
}

#[test]
fn test_lexes_every_keyword() {
    assert_eq!(
        lex("let fn if else return true false"),
        vec![
            Token::Let,
            Token::Function,
            Token::If,
            Token::Else,
            Token::Return,
            Token::True,
            Token::False,
        ]
    );
}

#[test]
fn test_words_that_only_resemble_keywords_are_identifiers() {
    assert_eq!(
        lex("letter fn_ iff Else returns truE _false le"),
        vec![
            Token::identifier("letter"),
            Token::identifier("fn_"),
            Token::identifier("iff"),
            Token::identifier("Else"),
            Token::identifier("returns"),
            Token::identifier("truE"),
            Token::identifier("_false"),
            Token::identifier("le"),
        ]
    );
}

#[test]
fn test_two_character_operators_need_one_character_of_lookahead() {
    assert_eq!(lex("=="), vec![Token::Eq]);
    assert_eq!(lex("!="), vec![Token::NotEq]);
    assert_eq!(lex("="), vec![Token::Assign]);
    assert_eq!(lex("!"), vec![Token::Bang]);
    assert_eq!(lex("==="), vec![Token::Eq, Token::Assign]);
    assert_eq!(lex("!=="), vec![Token::NotEq, Token::Assign]);
    assert_eq!(lex("=!"), vec![Token::Assign, Token::Bang]);
    assert_eq!(lex("= ="), vec![Token::Assign, Token::Assign]);
    assert_eq!(lex("!!="), vec![Token::Bang, Token::NotEq]);
}

#[test]
fn test_identifiers_take_letters_digits_and_underscores() {
    assert_eq!(lex("_x1"), vec![Token::identifier("_x1")]);
    assert_eq!(lex("a_b_c2d"), vec![Token::identifier("a_b_c2d")]);
    assert_eq!(lex("_"), vec![Token::identifier("_")]);
    assert_eq!(
        lex("foo-bar"),
        vec![
            Token::identifier("foo"),
            Token::Minus,
            Token::identifier("bar"),
        ]
    );
}

#[test]
fn test_integers_keep_their_text() {
    assert_eq!(lex("007"), vec![Token::integer("007")]);
    assert_eq!(lex("0"), vec![Token::integer("0")]);
    assert_eq!(
        lex("99999999999999999999999"),
        vec![Token::integer("99999999999999999999999")]
    );
}

#[test]
fn test_a_digit_run_ends_where_a_letter_starts() {
    assert_eq!(
        lex("1a"),
        vec![Token::integer("1"), Token::identifier("a")]
    );
    assert_eq!(lex("a1"), vec![Token::identifier("a1")]);
    assert_eq!(
        lex("12_3"),
        vec![Token::integer("12"), Token::identifier("_3")]
    );
}

#[test]
fn test_white_space_separates_and_is_dropped() {
    assert_eq!(
        lex(" \t\r\n a \n\n b\t"),
        vec![Token::identifier("a"), Token::identifier("b")]
    );
    assert_eq!(lex("   "), vec![]);
    assert_eq!(lex(""), vec![]);
}

#[test]
fn test_unknown_characters_are_skipped() {
    assert_eq!(
        lex("a @ b"),
        vec![Token::identifier("a"), Token::identifier("b")]
    );
    assert_eq!(
        lex("#1$2%"),
        vec![Token::integer("1"), Token::integer("2")]
    );
    assert_eq!(lex("@#$%^&"), vec![]);
    assert_eq!(
        lex("x\u{e9}y"),
        vec![Token::identifier("x"), Token::identifier("y")]
    );
    assert_eq!(lex("\u{4e2d}\u{6587}"), vec![]);
}

#[test]
fn test_end_marker_repeats_after_exhaustion() {
    let mut lexer = Lexer::new("x");
    assert_eq!(lexer.next_token(), Token::identifier("x"));
    assert_eq!(lexer.next_token(), Token::EOF);
    assert_eq!(lexer.next_token(), Token::EOF);
    assert_eq!(lexer.next_token(), Token::EOF);
}

#[test]
fn test_end_marker_on_empty_text() {
    let mut lexer = Lexer::new("");
    assert_eq!(lexer.next_token(), Token::EOF);
    assert_eq!(lexer.next_token(), Token::EOF);
}

#[test]
fn test_is_exhausted() {
    assert!(Lexer::new("").is_exhausted());
    assert!(Lexer::new("  \n @ ").is_exhausted());
    assert!(!Lexer::new("  x ").is_exhausted());
    let mut lexer = Lexer::new("x  ");
    assert!(!lexer.is_exhausted());
    lexer.next_token();
    assert!(lexer.is_exhausted());
}

#[test]
fn test_lexes_a_small_program() {
    assert_eq!(
        lex("let add = fn(x, y) {\n  x + y;\n};\nif (5 < 10) { return true; } else { return false; }\n10 == 10; 10 != 9;"),
        vec![
            Token::Let,
            Token::identifier("add"),
            Token::Assign,
            Token::Function,
            Token::LParen,
            Token::identifier("x"),
            Token::Comma,
            Token::identifier("y"),
            Token::RParen,
            Token::LBrace,
            Token::identifier("x"),
            Token::Plus,
            Token::identifier("y"),
            Token::Semicolon,
            Token::RBrace,
            Token::Semicolon,
            Token::If,
            Token::LParen,
            Token::integer("5"),
            Token::LT,
            Token::integer("10"),
            Token::RParen,
            Token::LBrace,
            Token::Return,
            Token::True,
            Token::Semicolon,
            Token::RBrace,
            Token::Else,
            Token::LBrace,
            Token::Return,
            Token::False,
            Token::Semicolon,
            Token::RBrace,
            Token::integer("10"),
            Token::Eq,
            Token::integer("10"),
            Token::Semicolon,
            Token::integer("10"),
            Token::NotEq,
            Token::integer("9"),
            Token::Semicolon,
        ]
    );
}

#[test]
fn test_token_same() {
    assert!(Token::EOF.same(&Token::EOF));
    assert!(Token::identifier("a").same(&Token::identifier("a")));
    assert!(!Token::identifier("a").same(&Token::identifier("b")));
    assert!(!Token::identifier("1").same(&Token::integer("1")));
    assert!(Token::integer("12").same(&Token::integer("12")));
    assert!(!Token::integer("12").same(&Token::integer("012")));
    assert!(!Token::Plus.same(&Token::Minus));
    assert!(!Token::Eq.same(&Token::Assign));
    assert!(Token::RBrace.same(&Token::RBrace));
}

#[test]
fn test_token_text_is_cut_out_correctly_behind_characters_of_several_bytes() {
    assert_eq!(
        lex("h\u{e9}llo w\u{f6}rld 123 \u{1f600} let_it = 4567;"),
        vec![
            Token::identifier("h"),
            Token::identifier("llo"),
            Token::identifier("w"),
            Token::identifier("rld"),
            Token::integer("123"),
            Token::identifier("let_it"),
            Token::Assign,
            Token::integer("4567"),
            Token::Semicolon,
        ]
    );
}

#[test]
fn test_token_text_is_cut_out_correctly_from_plain_text() {
    assert_eq!(
        lex("alpha beta_2 0042 gamma"),
        vec![
            Token::identifier("alpha"),
            Token::identifier("beta_2"),
            Token::integer("0042"),
            Token::identifier("gamma"),
        ]
    );
}
