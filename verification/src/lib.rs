//! A tokenizer and recursive-descent parser for a small declarative value
//! language with a Nix-like literal syntax.
//!
//! Source text is turned into a stream of [`token::Token`]s by
//! [`lexer::Lexer`], and the stream is consumed exactly once by
//! [`parser::Parser`] to build a [`value::Value`] tree, or to report a
//! diagnostic carrying the source text, a byte span and a message.

pub mod lexer;
pub mod parser;
pub mod render;
pub mod token;
pub mod value;

pub use lexer::LexError;
pub use lexer::LexErrorKind;
pub use lexer::Lexer;
pub use parser::ParseError;
pub use parser::ParseErrorKind;
pub use parser::Parser;
pub use token::Span;
pub use token::Token;
pub use value::Value;
