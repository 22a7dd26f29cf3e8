//! Tokens produced by the lexer.

use vstd::prelude::*;

verus! {

/// The kinds of token of the language.
#[derive(Debug, Clone, Copy, PartialEq, Eq, Structural)]
pub enum Token {
    EOF,
    Newline,
    LeftParen,
    RightParen,
    LeftBrace,
    RightBrace,
    RightCurlyBrace,
    LeftCurlyBrace,
    Comma,
    Dot,
    Minus,
    Plus,
    Slash,
    Mod,
    Star,
    Power,
    Colon,
    Semicolon,
    BangEqual,
    Equal,
    EqualEqual,
    Greater,
    GreaterEqual,
    Less,
    LessEqual,
    Identifier,
    String,
    Number,
    And,
    Class,
    Else,
    False,
    Fn,
    For,
    If,
    Elif,
    Nil,
    Or,
    Return,
    Break,
    Continue,
    Super,
    This,
    True,
    Let,
    While,
    Not,
    In,
    Try,
    Catch,
}

/// A literal value written in the source.
///
/// A number keeps the text it was written with (digits, optionally a dot and
/// more digits); the runtime reads it as a floating point number.
#[derive(Debug, Clone, PartialEq)]
pub enum Literal {
    String(String),
    Number(String),
    Boolean(bool),
    Nil,
}

/// A token with the text it was read from, its literal value and its line.
#[derive(Debug, Clone, PartialEq)]
pub struct TokenData {
    pub token: Token,
    pub lexeme: String,
    pub literal: Option<Literal>,
    pub line: i32,
}

impl Literal {
    /// A copy of this literal.
    pub fn copied(&self) -> (r: Literal)
        ensures
            r == *self,
    {
        match self {
            Literal::String(s) => Literal::String(s.clone()),
            Literal::Number(s) => Literal::Number(s.clone()),
            Literal::Boolean(b) => Literal::Boolean(*b),
            Literal::Nil => Literal::Nil,
        }
    }
}

impl TokenData {
    /// A copy of this token.
    pub fn copied(&self) -> (r: TokenData)
        ensures
            r == *self,
    {
        let literal = match &self.literal {
            Some(l) => Some(l.copied()),
            None => None,
        };
        TokenData { token: self.token, lexeme: self.lexeme.clone(), literal, line: self.line }
    }
}

} // verus!
