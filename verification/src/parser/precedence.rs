//! Binding strength of tokens in infix position.

use crate::token::{Tok, Token};
use vstd::prelude::*;

verus! {

/// How tightly an operator binds, from loosest to tightest.
#[derive(Debug, Clone, Copy, PartialEq, Eq)]
pub enum Precedence {
    LOWEST,
    /// `==` and `!=`.
    EQUALS,
    /// `<` and `>`.
    LESSGREATER,
    /// `+` and `-`.
    SUM,
    /// `*` and `/`.
    PRODUCT,
    /// A unary `!` or `-`.
    PREFIX,
    /// The `(` of a call.
    CALL,
}

impl Precedence {
    /// The position of this level in the order of binding strength.
    pub open spec fn level(self) -> nat {
        match self {
            Precedence::LOWEST => 0,
            Precedence::EQUALS => 1,
            Precedence::LESSGREATER => 2,
            Precedence::SUM => 3,
            Precedence::PRODUCT => 4,
            Precedence::PREFIX => 5,
            Precedence::CALL => 6,
        }
    }

    /// The precedence of a token met in infix position. Tokens with no infix
    /// meaning have the lowest precedence, so that an expression ends at them.
    pub open spec fn of(token: Tok) -> Precedence {
        match token {
            Tok::Eq | Tok::NotEq => Precedence::EQUALS,
            Tok::LT | Tok::GT => Precedence::LESSGREATER,
            Tok::Plus | Tok::Minus => Precedence::SUM,
            Tok::Asterisk | Tok::Slash => Precedence::PRODUCT,
            Tok::LParen => Precedence::CALL,
            _ => Precedence::LOWEST,
        }
    }

    /// The precedence of `token` in infix position.
    pub fn from(token: &Token) -> (precedence: Precedence)
        ensures
            precedence == Precedence::of(token@),
    {
        match token {
            Token::Eq | Token::NotEq => Precedence::EQUALS,
            Token::LT | Token::GT => Precedence::LESSGREATER,
            Token::Plus | Token::Minus => Precedence::SUM,
            Token::Asterisk | Token::Slash => Precedence::PRODUCT,
            Token::LParen => Precedence::CALL,
            _ => Precedence::LOWEST,
        }
    }

    /// The position of this level in the order of binding strength.
    pub fn rank(&self) -> (rank: u8)
        ensures
            rank == self.level(),
    {
        match self {
            Precedence::LOWEST => 0,
            Precedence::EQUALS => 1,
            Precedence::LESSGREATER => 2,
            Precedence::SUM => 3,
            Precedence::PRODUCT => 4,
            Precedence::PREFIX => 5,
            Precedence::CALL => 6,
        }
    }

    /// Whether `self` binds strictly less tightly than `other`.
    pub fn lower_than(&self, other: &Precedence) -> (lower: bool)
        ensures
            lower == (self.level() < other.level()),
    {
        self.rank() < other.rank()
    }
}

} // verus!
