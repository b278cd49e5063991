use monkey::parser::precedence::Precedence;
use monkey::token::Token;

#[test]
fn test_precedence_of_operators() {
    assert_eq!(Precedence::from(&Token::Eq), Precedence::EQUALS);
    assert_eq!(Precedence::from(&Token::NotEq), Precedence::EQUALS);
    assert_eq!(Precedence::from(&Token::LT), Precedence::LESSGREATER);
    assert_eq!(Precedence::from(&Token::GT), Precedence::LESSGREATER);
    assert_eq!(Precedence::from(&Token::Plus), Precedence::SUM);
    assert_eq!(Precedence::from(&Token::Minus), Precedence::SUM);
    assert_eq!(Precedence::from(&Token::Asterisk), Precedence::PRODUCT);
    assert_eq!(Precedence::from(&Token::Slash), Precedence::PRODUCT);
    assert_eq!(Precedence::from(&Token::LParen), Precedence::CALL);
}

#[test]
fn test_tokens_without_infix_meaning_have_lowest_precedence() {
    let tokens = vec![
        Token::EOF,
        Token::identifier("x"),
        Token::integer("1"),
        Token::Let,
        Token::Return,
        Token::Function,
        Token::If,
        Token::Else,
        Token::True,
        Token::False,
        Token::Assign,
        Token::Bang,
        Token::Comma,
        Token::Semicolon,
        Token::RParen,
        Token::LBrace,
        Token::RBrace,
    ];
    for token in tokens {
        assert_eq!(Precedence::from(&token), Precedence::LOWEST);
    }
}

#[test]
fn test_precedence_levels_rise_from_lowest_to_call() {
    let levels = vec![
        Precedence::LOWEST,
        Precedence::EQUALS,
        Precedence::LESSGREATER,
        Precedence::SUM,
        Precedence::PRODUCT,
        Precedence::PREFIX,
        Precedence::CALL,
    ];
    for i in 0..levels.len() {
        assert_eq!(levels[i].rank(), i as u8);
        for j in 0..levels.len() {
            assert_eq!(levels[i].lower_than(&levels[j]), i < j);
        }
    }
}
