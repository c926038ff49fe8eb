//! Tokens of the value language, their spans, and their mathematical model.

use vstd::prelude::*;

verus! {

/// A half-open range of UTF-8 byte offsets into the source text.
#[derive(Clone, Copy, Debug, PartialEq, Eq, Structural)]
pub struct Span {
    pub start: usize,
    pub end: usize,
}

/// One lexical unit of the value language.
///
/// A lone ASCII space is itself a token; runs of other whitespace and `//`
/// line comments are discarded by the lexer and never appear here. Radix
/// integers and hex floats are recognized but never converted to a number;
/// decimal floats keep their source text, borrowed from the source buffer.
#[derive(Clone, Copy, Debug)]
pub enum Token<'a> {
    Space,
    Integer(i64),
    HexInteger,
    OctalInteger,
    BinaryInteger,
    Float(&'a str),
    HexFloat(&'a str),
    Bool(bool),
    BraceOpen,
    BraceClose,
    BracketOpen,
    BracketClose,
    Colon,
    Comma,
    Null,
    Let,
    In,
    Equals,
    SemiColon,
    Identifier(&'a str),
}

/// The mathematical model of a [`Token`]: text payloads become character
/// sequences, integers become unbounded integers.
pub enum TokenModel {
    Space,
    Integer(int),
    HexInteger,
    OctalInteger,
    BinaryInteger,
    Float(Seq<char>),
    HexFloat(Seq<char>),
    Bool(bool),
    BraceOpen,
    BraceClose,
    BracketOpen,
    BracketClose,
    Colon,
    Comma,
    Null,
    Let,
    In,
    Equals,
    SemiColon,
    Identifier(Seq<char>),
}

impl<'a> Token<'a> {
    /// The model of this token.
    pub open spec fn model(self) -> TokenModel {
        match self {
            Token::Space => TokenModel::Space,
            Token::Integer(n) => TokenModel::Integer(n as int),
            Token::HexInteger => TokenModel::HexInteger,
            Token::OctalInteger => TokenModel::OctalInteger,
            Token::BinaryInteger => TokenModel::BinaryInteger,
            Token::Float(t) => TokenModel::Float(t@),
            Token::HexFloat(t) => TokenModel::HexFloat(t@),
            Token::Bool(b) => TokenModel::Bool(b),
            Token::BraceOpen => TokenModel::BraceOpen,
            Token::BraceClose => TokenModel::BraceClose,
            Token::BracketOpen => TokenModel::BracketOpen,
            Token::BracketClose => TokenModel::BracketClose,
            Token::Colon => TokenModel::Colon,
            Token::Comma => TokenModel::Comma,
            Token::Null => TokenModel::Null,
            Token::Let => TokenModel::Let,
            Token::In => TokenModel::In,
            Token::Equals => TokenModel::Equals,
            Token::SemiColon => TokenModel::SemiColon,
            Token::Identifier(t) => TokenModel::Identifier(t@),
        }
    }
}

} // verus!
