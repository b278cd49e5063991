//! The lexical units that the lexer emits and the parser consumes.

use vstd::prelude::*;

verus! {

/// One lexical unit. Identifiers and integer literals carry their source text
/// verbatim; every other token is fully described by its kind.
#[derive(Debug, PartialEq, Eq)]
pub enum Token {
    /// The end marker, returned once the source text is exhausted.
    EOF,
    Identifier(String),
    /// An integer literal, as the run of digits found in the source.
    Integer(String),
    Let,
    Return,
    Function,
    If,
    Else,
    True,
    False,
    Assign,
    Plus,
    Minus,
    Bang,
    Asterisk,
    Slash,
    LT,
    GT,
    Eq,
    NotEq,
    Comma,
    Semicolon,
    LParen,
    RParen,
    LBrace,
    RBrace,
}

/// The mathematical value of a [`Token`]: the same kinds, with the carried
/// text as a sequence of characters.
pub ghost enum Tok {
    EOF,
    Identifier(Seq<char>),
    Integer(Seq<char>),
    Let,
    Return,
    Function,
    If,
    Else,
    True,
    False,
    Assign,
    Plus,
    Minus,
    Bang,
    Asterisk,
    Slash,
    LT,
    GT,
    Eq,
    NotEq,
    Comma,
    Semicolon,
    LParen,
    RParen,
    LBrace,
    RBrace,
}

impl View for Token {
    type V = Tok;

    open spec fn view(&self) -> Tok {
        match self {
            Token::EOF => Tok::EOF,
            Token::Identifier(text) => Tok::Identifier(text@),
            Token::Integer(text) => Tok::Integer(text@),
            Token::Let => Tok::Let,
            Token::Return => Tok::Return,
            Token::Function => Tok::Function,
            Token::If => Tok::If,
            Token::Else => Tok::Else,
            Token::True => Tok::True,
            Token::False => Tok::False,
            Token::Assign => Tok::Assign,
            Token::Plus => Tok::Plus,
            Token::Minus => Tok::Minus,
            Token::Bang => Tok::Bang,
            Token::Asterisk => Tok::Asterisk,
            Token::Slash => Tok::Slash,
            Token::LT => Tok::LT,
            Token::GT => Tok::GT,
            Token::Eq => Tok::Eq,
            Token::NotEq => Tok::NotEq,
            Token::Comma => Tok::Comma,
            Token::Semicolon => Tok::Semicolon,
            Token::LParen => Tok::LParen,
            Token::RParen => Tok::RParen,
            Token::LBrace => Tok::LBrace,
            Token::RBrace => Tok::RBrace,
        }
    }
}

impl Token {
    /// An identifier token carrying `text`.
    pub fn identifier(text: &str) -> (token: Token)
        ensures
            token@ == Tok::Identifier(text@),
    {
        Token::Identifier(text.to_owned())
    }

    /// An integer-literal token carrying `text`.
    pub fn integer(text: &str) -> (token: Token)
        ensures
            token@ == Tok::Integer(text@),
    {
        Token::Integer(text.to_owned())
    }

    /// Whether both tokens have the same kind and carry the same text.
    pub fn same(&self, other: &Token) -> (equal: bool)
        ensures
            equal == (self@ == other@),
    {
        match (self, other) {
            (Token::EOF, Token::EOF) => true,
            (Token::Identifier(a), Token::Identifier(b)) => *a == *b,
            (Token::Integer(a), Token::Integer(b)) => *a == *b,
            (Token::Let, Token::Let) => true,
            (Token::Return, Token::Return) => true,
            (Token::Function, Token::Function) => true,
            (Token::If, Token::If) => true,
            (Token::Else, Token::Else) => true,
            (Token::True, Token::True) => true,
            (Token::False, Token::False) => true,
            (Token::Assign, Token::Assign) => true,
            (Token::Plus, Token::Plus) => true,
            (Token::Minus, Token::Minus) => true,
            (Token::Bang, Token::Bang) => true,
            (Token::Asterisk, Token::Asterisk) => true,
            (Token::Slash, Token::Slash) => true,
            (Token::LT, Token::LT) => true,
            (Token::GT, Token::GT) => true,
            (Token::Eq, Token::Eq) => true,
            (Token::NotEq, Token::NotEq) => true,
            (Token::Comma, Token::Comma) => true,
            (Token::Semicolon, Token::Semicolon) => true,
            (Token::LParen, Token::LParen) => true,
            (Token::RParen, Token::RParen) => true,
            (Token::LBrace, Token::LBrace) => true,
            (Token::RBrace, Token::RBrace) => true,
            _ => false,
        }
    }
}

} // verus!
