//! What the tokenizer produces: tokens with their source positions, comments, and errors.

use vstd::prelude::*;
use crate::token_types::{Keyword, Literal, Operator, Separator};
use crate::tokenizer::Position;

verus! {

/// The different kinds of tokens of the language.
#[derive(Debug, Clone, PartialEq, Eq)]
pub enum Token<'a> {
    Identifier(&'a str),
    Keyword(Keyword),
    Literal(Literal),
    Separator(Separator),
    Operator(Operator),
}

impl<'a> Token<'a> {
    /// A copy of this token.
    pub fn copy(&self) -> (r: Token<'a>)
        ensures
            r == *self,
    {
        match self {
            Token::Identifier(s) => Token::Identifier(*s),
            Token::Keyword(k) => Token::Keyword(*k),
            Token::Literal(l) => Token::Literal(l.copy()),
            Token::Separator(x) => Token::Separator(*x),
            Token::Operator(x) => Token::Operator(*x),
        }
    }
}

/// A token of the output stream, with where it stands in the input.
#[derive(Debug, Clone, PartialEq, Eq)]
pub struct TokenInfo<'a> {
    pub val: Token<'a>,
    pub start: Position<'a>,
    pub lexeme: &'a str,
}

impl<'a> TokenInfo<'a> {
    /// A copy of this token.
    pub fn clone_info(&self) -> (r: TokenInfo<'a>)
        ensures
            r == *self,
    {
        TokenInfo { val: self.val.copy(), start: self.start, lexeme: self.lexeme }
    }

    /// Zero-indexed, exclusive end column. Tokens never span lines and are ASCII.
    pub fn end_col(&self) -> (r: usize)
        requires
            self.start.col + self.lexeme@.len() <= usize::MAX,
        ensures
            r == self.start.col + self.lexeme@.len(),
    {
        self.start.col + self.lexeme.unicode_len()
    }
}

/// An element of the output stream that keeps comments.
#[derive(Debug, Clone, PartialEq, Eq)]
pub enum TokenOrComment<'a> {
    Token(TokenInfo<'a>),
    LineComment { start: Position<'a> },
    /// `end_inclusive` is the position of the closing `/`.
    StarComment { start: Position<'a>, end_inclusive: Position<'a> },
}

impl<'a> TokenOrComment<'a> {
    pub open spec fn spec_start(self) -> Position<'a> {
        match self {
            TokenOrComment::Token(t) => t.start,
            TokenOrComment::LineComment { start } => start,
            TokenOrComment::StarComment { start, .. } => start,
        }
    }

    /// Where this element begins.
    pub fn start(&self) -> (r: Position<'a>)
        ensures
            r == self.spec_start(),
    {
        match self {
            TokenOrComment::Token(t) => t.start,
            TokenOrComment::LineComment { start } => *start,
            TokenOrComment::StarComment { start, .. } => *start,
        }
    }
}

/// An error met while tokenizing, anchored at a position of the input.
#[derive(Debug, Clone, PartialEq, Eq)]
pub struct TokenError<'a> {
    pub start: Position<'a>,
    pub type_: TokenErrorType<'a>,
}

/// The kinds of `TokenError`.
#[derive(Debug, Clone, PartialEq, Eq)]
pub enum TokenErrorType<'a> {
    /// The input held a non-ASCII character, which the language does not allow.
    NonAsciiChar { c: char },
    /// Not a token, nor a prefix of a token.
    NotAToken {
        /// Just past the symbol at which no token could go on (the last position when the input
        /// ends first); for a match that spans lines, its last position.
        end: Position<'a>,
    },
    /// A star comment that is never closed: the input ended first.
    UnclosedComment,
    /// A string literal that is never closed: the line ended first.
    UnclosedStringLit,
    /// A char literal that is never closed: the line ended first.
    UnclosedCharLit,
    /// An integer literal above `2^31`.
    IntTooLarge,
    /// A malformed escape sequence in a string or char literal.
    InvalidEscape,
    /// A char literal that does not hold exactly one character.
    BadCharLit,
}

} // verus!
