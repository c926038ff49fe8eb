//! The recursive-descent parser: one pass over the token stream, one-token
//! lookahead, no backtracking.
//!
//! The spec functions [`p_value`], [`p_list`] and [`p_attrset`] are the
//! mathematical definition of the grammar as the parser consumes it; they
//! take a fuel argument only to be well founded, and [`parse_value_at`],
//! [`parse_list_at`] and [`parse_attrset_at`] fix the fuel at a value shown
//! sufficient. Every diagnostic carries the span recorded at the entry of
//! the production that failed (the span of the token that opened it), except
//! an integer-overflow diagnostic, which carries the offending literal's own
//! span.

use vstd::prelude::*;
use crate::lexer::{
    byte_of, lemma_lexer_wf, lemma_next_token_bounds, next_token_at, LexErrorKind, Lexer, NextTok,
};
use crate::token::{Span, Token, TokenModel};
use crate::value::{
    entries_model, insert_entry, keys_unique, lemma_list_model_push, list_model, value_model,
    Value, ValueModel,
};

verus! {

/// Why a parse failed.
#[derive(Clone, Copy, Debug, PartialEq, Eq, Structural)]
pub enum ParseErrorKind {
    /// End of input where a value was required.
    EmptyValue,
    /// A token that no value production accepts.
    UnexpectedTokenValue,
    /// A token that the list state machine does not accept here.
    UnexpectedTokenList,
    /// A token that the attribute-set state machine does not accept here.
    UnexpectedTokenAttrSet,
    /// A binding key not immediately followed by `=`.
    ExpectedEquals,
    /// A lexically valid literal with no converted value (radix integers,
    /// hex floats).
    UnsupportedLiteral,
    /// End of input before the `]` of a list.
    UnterminatedList,
    /// End of input before the `}` of an attribute set.
    UnterminatedAttrSet,
    /// A decimal integer literal past the 64-bit signed range.
    IntegerOverflow,
}

/// A parse failure: the source text for snippet rendering, the byte span at
/// fault, and a kind from which the message derives.
#[derive(Debug)]
pub struct ParseError {
    pub kind: ParseErrorKind,
    pub file_name: String,
    pub src: String,
    pub span: Span,
}

impl ParseError {
    /// The human-readable message for this failure.
    pub fn message(&self) -> (r: String)
        ensures
            r@ == message_of(self.kind),
    {
        match self.kind {
            ParseErrorKind::EmptyValue => String::from_str("empty values are not allowed"),
            ParseErrorKind::UnexpectedTokenValue => String::from_str(
                "unexpected token (context: value)",
            ),
            ParseErrorKind::UnexpectedTokenList => String::from_str(
                "unexpected token (context: list)",
            ),
            ParseErrorKind::UnexpectedTokenAttrSet => String::from_str(
                "unexpected token (context: attrset)",
            ),
            ParseErrorKind::ExpectedEquals => String::from_str("expected '=' (context: attrset)"),
            ParseErrorKind::UnsupportedLiteral => String::from_str(
                "unsupported literal (context: value)",
            ),
            ParseErrorKind::UnterminatedList => String::from_str(
                "unmatched opening bracket defined (context: list)",
            ),
            ParseErrorKind::UnterminatedAttrSet => String::from_str(
                "unmatched opening brace (context: attrset)",
            ),
            ParseErrorKind::IntegerOverflow => String::from_str(
                "integer literal out of 64-bit signed range",
            ),
        }
    }
}

/// The message each failure kind carries.
pub open spec fn message_of(k: ParseErrorKind) -> Seq<char> {
    match k {
        ParseErrorKind::EmptyValue => "empty values are not allowed"@,
        ParseErrorKind::UnexpectedTokenValue => "unexpected token (context: value)"@,
        ParseErrorKind::UnexpectedTokenList => "unexpected token (context: list)"@,
        ParseErrorKind::UnexpectedTokenAttrSet => "unexpected token (context: attrset)"@,
        ParseErrorKind::ExpectedEquals => "expected '=' (context: attrset)"@,
        ParseErrorKind::UnsupportedLiteral => "unsupported literal (context: value)"@,
        ParseErrorKind::UnterminatedList => "unmatched opening bracket defined (context: list)"@,
        ParseErrorKind::UnterminatedAttrSet => "unmatched opening brace (context: attrset)"@,
        ParseErrorKind::IntegerOverflow => "integer literal out of 64-bit signed range"@,
    }
}

/// The outcome of a production: a value model and the position after it, or
/// a failure kind with the character span its diagnostic carries.
pub enum ParseOut {
    Parsed(ValueModel, nat),
    Failed(ParseErrorKind, nat, nat),
}

/// How a lexical failure surfaces in a production whose catch-all failure
/// kind is `ctx`: overflow keeps its own kind and span, anything else is an
/// unexpected token with the production's entry span.
pub open spec fn lex_fail(
    k: LexErrorKind,
    a: nat,
    b: nat,
    e0: nat,
    e1: nat,
    ctx: ParseErrorKind,
) -> ParseOut {
    match k {
        LexErrorKind::IntegerOverflow => ParseOut::Failed(ParseErrorKind::IntegerOverflow, a, b),
        LexErrorKind::InvalidToken => ParseOut::Failed(ctx, e0, e1),
    }
}

/// The value production at position `p`, with entry span `(e0, e1)`.
/// Consumes one token and dispatches.
pub open spec fn p_value(s: Seq<char>, p: nat, e0: nat, e1: nat, fuel: nat) -> ParseOut
    decreases fuel,
{
    if fuel == 0 {
        arbitrary()
    } else {
        match next_token_at(s, p) {
            NextTok::Eof => ParseOut::Failed(ParseErrorKind::EmptyValue, e0, e1),
            NextTok::Fail(k, a, b) => lex_fail(
                k,
                a,
                b,
                e0,
                e1,
                ParseErrorKind::UnexpectedTokenValue,
            ),
            NextTok::Lexed(t, a, b) => match t {
                TokenModel::Null => ParseOut::Parsed(ValueModel::Null, b),
                TokenModel::Bool(v) => ParseOut::Parsed(ValueModel::Bool(v), b),
                TokenModel::Integer(n) => ParseOut::Parsed(ValueModel::Integer(n), b),
                TokenModel::Float(txt) => ParseOut::Parsed(ValueModel::Float(txt), b),
                TokenModel::BraceOpen => p_attrset(
                    s,
                    b,
                    a,
                    b,
                    Map::empty(),
                    false,
                    false,
                    (fuel - 1) as nat,
                ),
                TokenModel::BracketOpen => p_list(
                    s,
                    b,
                    a,
                    b,
                    Seq::empty(),
                    false,
                    false,
                    (fuel - 1) as nat,
                ),
                TokenModel::HexInteger => ParseOut::Failed(
                    ParseErrorKind::UnsupportedLiteral,
                    e0,
                    e1,
                ),
                TokenModel::OctalInteger => ParseOut::Failed(
                    ParseErrorKind::UnsupportedLiteral,
                    e0,
                    e1,
                ),
                TokenModel::BinaryInteger => ParseOut::Failed(
                    ParseErrorKind::UnsupportedLiteral,
                    e0,
                    e1,
                ),
                TokenModel::HexFloat(txt) => ParseOut::Failed(
                    ParseErrorKind::UnsupportedLiteral,
                    e0,
                    e1,
                ),
                _ => ParseOut::Failed(ParseErrorKind::UnexpectedTokenValue, e0, e1),
            },
        }
    }
}

/// The list production after its `[`, as a state machine: `acc` holds the
/// elements so far, `aw_space` says a space separator is now required,
/// `aw_value` says a value is now required.
pub open spec fn p_list(
    s: Seq<char>,
    p: nat,
    e0: nat,
    e1: nat,
    acc: Seq<ValueModel>,
    aw_space: bool,
    aw_value: bool,
    fuel: nat,
) -> ParseOut
    decreases fuel,
{
    if fuel == 0 {
        arbitrary()
    } else {
        match next_token_at(s, p) {
            NextTok::Eof => ParseOut::Failed(ParseErrorKind::UnterminatedList, e0, e1),
            NextTok::Fail(k, a, b) => lex_fail(
                k,
                a,
                b,
                e0,
                e1,
                ParseErrorKind::UnexpectedTokenList,
            ),
            NextTok::Lexed(t, a, b) => match t {
                TokenModel::Bool(v) => if !aw_space {
                    p_list(s, b, e0, e1, acc.push(ValueModel::Bool(v)), true, false, (fuel - 1) as nat)
                } else {
                    ParseOut::Failed(ParseErrorKind::UnexpectedTokenList, e0, e1)
                },
                TokenModel::Null => if !aw_space {
                    p_list(s, b, e0, e1, acc.push(ValueModel::Null), true, false, (fuel - 1) as nat)
                } else {
                    ParseOut::Failed(ParseErrorKind::UnexpectedTokenList, e0, e1)
                },
                TokenModel::Integer(n) => if !aw_space {
                    p_list(s, b, e0, e1, acc.push(ValueModel::Integer(n)), true, false, (fuel - 1) as nat)
                } else {
                    ParseOut::Failed(ParseErrorKind::UnexpectedTokenList, e0, e1)
                },
                TokenModel::Float(txt) => if !aw_space {
                    p_list(s, b, e0, e1, acc.push(ValueModel::Float(txt)), true, false, (fuel - 1) as nat)
                } else {
                    ParseOut::Failed(ParseErrorKind::UnexpectedTokenList, e0, e1)
                },
                TokenModel::BraceOpen => if !aw_space {
                    match p_attrset(s, b, a, b, Map::empty(), false, false, (fuel - 1) as nat) {
                        ParseOut::Parsed(v, b2) => p_list(
                            s,
                            b2,
                            e0,
                            e1,
                            acc.push(v),
                            true,
                            false,
                            (fuel - 1) as nat,
                        ),
                        ParseOut::Failed(k, x, y) => ParseOut::Failed(k, x, y),
                    }
                } else {
                    ParseOut::Failed(ParseErrorKind::UnexpectedTokenList, e0, e1)
                },
                TokenModel::BracketOpen => if !aw_space {
                    match p_list(s, b, a, b, Seq::empty(), false, false, (fuel - 1) as nat) {
                        ParseOut::Parsed(v, b2) => p_list(
                            s,
                            b2,
                            e0,
                            e1,
                            acc.push(v),
                            true,
                            false,
                            (fuel - 1) as nat,
                        ),
                        ParseOut::Failed(k, x, y) => ParseOut::Failed(k, x, y),
                    }
                } else {
                    ParseOut::Failed(ParseErrorKind::UnexpectedTokenList, e0, e1)
                },
                TokenModel::BracketClose => if !aw_value {
                    ParseOut::Parsed(ValueModel::List(acc), b)
                } else {
                    ParseOut::Failed(ParseErrorKind::UnexpectedTokenList, e0, e1)
                },
                TokenModel::Space => if aw_space {
                    p_list(s, b, e0, e1, acc, false, true, (fuel - 1) as nat)
                } else {
                    ParseOut::Failed(ParseErrorKind::UnexpectedTokenList, e0, e1)
                },
                _ => ParseOut::Failed(ParseErrorKind::UnexpectedTokenList, e0, e1),
            },
        }
    }
}

/// The attribute-set production after its `{`, as a state machine: `m` holds
/// the bindings so far (last write wins), `aw_comma` says a `,` separator is
/// now required, `aw_key` says a key is now required (so `}` is not allowed,
/// which rejects a trailing comma).
pub open spec fn p_attrset(
    s: Seq<char>,
    p: nat,
    e0: nat,
    e1: nat,
    m: Map<Seq<char>, ValueModel>,
    aw_comma: bool,
    aw_key: bool,
    fuel: nat,
) -> ParseOut
    decreases fuel,
{
    if fuel == 0 {
        arbitrary()
    } else {
        match next_token_at(s, p) {
            NextTok::Eof => ParseOut::Failed(ParseErrorKind::UnterminatedAttrSet, e0, e1),
            NextTok::Fail(k, a, b) => lex_fail(
                k,
                a,
                b,
                e0,
                e1,
                ParseErrorKind::UnexpectedTokenAttrSet,
            ),
            NextTok::Lexed(t, a, b) => match t {
                TokenModel::BraceClose => if !aw_key {
                    ParseOut::Parsed(ValueModel::AttrSet(m), b)
                } else {
                    ParseOut::Failed(ParseErrorKind::UnexpectedTokenAttrSet, e0, e1)
                },
                TokenModel::Comma => if aw_comma {
                    p_attrset(s, b, e0, e1, m, false, true, (fuel - 1) as nat)
                } else {
                    ParseOut::Failed(ParseErrorKind::UnexpectedTokenAttrSet, e0, e1)
                },
                TokenModel::Identifier(name) => if !aw_comma {
                    match next_token_at(s, b) {
                        NextTok::Lexed(TokenModel::Equals, a2, b2) => match p_value(
                            s,
                            b2,
                            a2,
                            b2,
                            (fuel - 1) as nat,
                        ) {
                            ParseOut::Parsed(v, p2) => p_attrset(
                                s,
                                p2,
                                e0,
                                e1,
                                m.insert(name, v),
                                true,
                                false,
                                (fuel - 1) as nat,
                            ),
                            ParseOut::Failed(k, x, y) => ParseOut::Failed(k, x, y),
                        },
                        NextTok::Fail(LexErrorKind::IntegerOverflow, a2, b2) => ParseOut::Failed(
                            ParseErrorKind::IntegerOverflow,
                            a2,
                            b2,
                        ),
                        _ => ParseOut::Failed(ParseErrorKind::ExpectedEquals, e0, e1),
                    }
                } else {
                    ParseOut::Failed(ParseErrorKind::UnexpectedTokenAttrSet, e0, e1)
                },
                _ => ParseOut::Failed(ParseErrorKind::UnexpectedTokenAttrSet, e0, e1),
            },
        }
    }
}

/// Fuel that always suffices for a production starting at `p`: every step of
/// every production consumes at least one character.
pub open spec fn parse_fuel(s: Seq<char>, p: nat) -> nat {
    (s.len() + 1 - p) as nat
}

/// The value production at `p`, at its canonical fuel.
pub open spec fn parse_value_at(s: Seq<char>, p: nat, e0: nat, e1: nat) -> ParseOut {
    p_value(s, p, e0, e1, parse_fuel(s, p))
}

/// The list production at `p`, at its canonical fuel.
pub open spec fn parse_list_at(
    s: Seq<char>,
    p: nat,
    e0: nat,
    e1: nat,
    acc: Seq<ValueModel>,
    aw_space: bool,
    aw_value: bool,
) -> ParseOut {
    p_list(s, p, e0, e1, acc, aw_space, aw_value, parse_fuel(s, p))
}

/// The attribute-set production at `p`, at its canonical fuel.
pub open spec fn parse_attrset_at(
    s: Seq<char>,
    p: nat,
    e0: nat,
    e1: nat,
    m: Map<Seq<char>, ValueModel>,
    aw_comma: bool,
    aw_key: bool,
) -> ParseOut {
    p_attrset(s, p, e0, e1, m, aw_comma, aw_key, parse_fuel(s, p))
}

/// With enough fuel, a successful value production advances the position.
pub proof fn lemma_value_advance(s: Seq<char>, p: nat, e0: nat, e1: nat, fuel: nat)
    requires
        p <= s.len(),
        fuel >= s.len() + 1 - p,
    ensures
        match p_value(s, p, e0, e1, fuel) {
            ParseOut::Parsed(v, p2) => p < p2 <= s.len(),
            ParseOut::Failed(k, a, b) => true,
        },
    decreases fuel,
{
    lemma_next_token_bounds(s, p);
    match next_token_at(s, p) {
        NextTok::Lexed(t, a, b) => match t {
            TokenModel::BraceOpen => lemma_attrset_advance(
                s,
                b,
                a,
                b,
                Map::empty(),
                false,
                false,
                (fuel - 1) as nat,
            ),
            TokenModel::BracketOpen => lemma_list_advance(
                s,
                b,
                a,
                b,
                Seq::empty(),
                false,
                false,
                (fuel - 1) as nat,
            ),
            _ => {},
        },
        _ => {},
    }
}

/// With enough fuel, a successful list production advances the position.
pub proof fn lemma_list_advance(
    s: Seq<char>,
    p: nat,
    e0: nat,
    e1: nat,
    acc: Seq<ValueModel>,
    aw_space: bool,
    aw_value: bool,
    fuel: nat,
)
    requires
        p <= s.len(),
        fuel >= s.len() + 1 - p,
    ensures
        match p_list(s, p, e0, e1, acc, aw_space, aw_value, fuel) {
            ParseOut::Parsed(v, p2) => p < p2 <= s.len(),
            ParseOut::Failed(k, a, b) => true,
        },
    decreases fuel,
{
    lemma_next_token_bounds(s, p);
    match next_token_at(s, p) {
        NextTok::Lexed(t, a, b) => match t {
            TokenModel::Bool(v) => if !aw_space {
                lemma_list_advance(s, b, e0, e1, acc.push(ValueModel::Bool(v)), true, false, (fuel - 1) as nat);
            },
            TokenModel::Null => if !aw_space {
                lemma_list_advance(s, b, e0, e1, acc.push(ValueModel::Null), true, false, (fuel - 1) as nat);
            },
            TokenModel::Integer(n) => if !aw_space {
                lemma_list_advance(s, b, e0, e1, acc.push(ValueModel::Integer(n)), true, false, (fuel - 1) as nat);
            },
            TokenModel::Float(txt) => if !aw_space {
                lemma_list_advance(s, b, e0, e1, acc.push(ValueModel::Float(txt)), true, false, (fuel - 1) as nat);
            },
            TokenModel::BraceOpen => if !aw_space {
                lemma_attrset_advance(s, b, a, b, Map::empty(), false, false, (fuel - 1) as nat);
                match p_attrset(s, b, a, b, Map::empty(), false, false, (fuel - 1) as nat) {
                    ParseOut::Parsed(v, b2) => {
                        lemma_list_advance(s, b2, e0, e1, acc.push(v), true, false, (fuel - 1) as nat);
                    },
                    ParseOut::Failed(k, x, y) => {},
                }
            },
            TokenModel::BracketOpen => if !aw_space {
                lemma_list_advance(s, b, a, b, Seq::empty(), false, false, (fuel - 1) as nat);
                match p_list(s, b, a, b, Seq::empty(), false, false, (fuel - 1) as nat) {
                    ParseOut::Parsed(v, b2) => {
                        lemma_list_advance(s, b2, e0, e1, acc.push(v), true, false, (fuel - 1) as nat);
                    },
                    ParseOut::Failed(k, x, y) => {},
                }
            },
            TokenModel::Space => if aw_space {
                lemma_list_advance(s, b, e0, e1, acc, false, true, (fuel - 1) as nat);
            },
            _ => {},
        },
        _ => {},
    }
}

/// With enough fuel, a successful attribute-set production advances the
/// position.
pub proof fn lemma_attrset_advance(
    s: Seq<char>,
    p: nat,
    e0: nat,
    e1: nat,
    m: Map<Seq<char>, ValueModel>,
    aw_comma: bool,
    aw_key: bool,
    fuel: nat,
)
    requires
        p <= s.len(),
        fuel >= s.len() + 1 - p,
    ensures
        match p_attrset(s, p, e0, e1, m, aw_comma, aw_key, fuel) {
            ParseOut::Parsed(v, p2) => p < p2 <= s.len(),
            ParseOut::Failed(k, a, b) => true,
        },
    decreases fuel,
{
    lemma_next_token_bounds(s, p);
    match next_token_at(s, p) {
        NextTok::Lexed(t, a, b) => match t {
            TokenModel::Comma => if aw_comma {
                lemma_attrset_advance(s, b, e0, e1, m, false, true, (fuel - 1) as nat);
            },
            TokenModel::Identifier(name) => if !aw_comma {
                lemma_next_token_bounds(s, b);
                match next_token_at(s, b) {
                    NextTok::Lexed(TokenModel::Equals, a2, b2) => {
                        lemma_value_advance(s, b2, a2, b2, (fuel - 1) as nat);
                        match p_value(s, b2, a2, b2, (fuel - 1) as nat) {
                            ParseOut::Parsed(v, p2) => {
                                lemma_attrset_advance(
                                    s,
                                    p2,
                                    e0,
                                    e1,
                                    m.insert(name, v),
                                    true,
                                    false,
                                    (fuel - 1) as nat,
                                );
                            },
                            ParseOut::Failed(k, x, y) => {},
                        }
                    },
                    _ => {},
                }
            },
            _ => {},
        },
        _ => {},
    }
}

/// Any two sufficient fuels give the value production the same outcome.
pub proof fn lemma_value_fuel(s: Seq<char>, p: nat, e0: nat, e1: nat, f1: nat, f2: nat)
    requires
        p <= s.len(),
        f1 >= s.len() + 1 - p,
        f2 >= s.len() + 1 - p,
    ensures
        p_value(s, p, e0, e1, f1) == p_value(s, p, e0, e1, f2),
    decreases f1 + f2,
{
    lemma_next_token_bounds(s, p);
    match next_token_at(s, p) {
        NextTok::Lexed(t, a, b) => match t {
            TokenModel::BraceOpen => lemma_attrset_fuel(
                s,
                b,
                a,
                b,
                Map::empty(),
                false,
                false,
                (f1 - 1) as nat,
                (f2 - 1) as nat,
            ),
            TokenModel::BracketOpen => lemma_list_fuel(
                s,
                b,
                a,
                b,
                Seq::empty(),
                false,
                false,
                (f1 - 1) as nat,
                (f2 - 1) as nat,
            ),
            _ => {},
        },
        _ => {},
    }
}

/// Any two sufficient fuels give the list production the same outcome.
pub proof fn lemma_list_fuel(
    s: Seq<char>,
    p: nat,
    e0: nat,
    e1: nat,
    acc: Seq<ValueModel>,
    aw_space: bool,
    aw_value: bool,
    f1: nat,
    f2: nat,
)
    requires
        p <= s.len(),
        f1 >= s.len() + 1 - p,
        f2 >= s.len() + 1 - p,
    ensures
        p_list(s, p, e0, e1, acc, aw_space, aw_value, f1) == p_list(
            s,
            p,
            e0,
            e1,
            acc,
            aw_space,
            aw_value,
            f2,
        ),
    decreases f1 + f2,
{
    lemma_next_token_bounds(s, p);
    match next_token_at(s, p) {
        NextTok::Lexed(t, a, b) => match t {
            TokenModel::Bool(v) => if !aw_space {
                lemma_list_fuel(s, b, e0, e1, acc.push(ValueModel::Bool(v)), true, false, (f1 - 1) as nat, (f2 - 1) as nat);
            },
            TokenModel::Null => if !aw_space {
                lemma_list_fuel(s, b, e0, e1, acc.push(ValueModel::Null), true, false, (f1 - 1) as nat, (f2 - 1) as nat);
            },
            TokenModel::Integer(n) => if !aw_space {
                lemma_list_fuel(s, b, e0, e1, acc.push(ValueModel::Integer(n)), true, false, (f1 - 1) as nat, (f2 - 1) as nat);
            },
            TokenModel::Float(txt) => if !aw_space {
                lemma_list_fuel(s, b, e0, e1, acc.push(ValueModel::Float(txt)), true, false, (f1 - 1) as nat, (f2 - 1) as nat);
            },
            TokenModel::BraceOpen => if !aw_space {
                lemma_attrset_fuel(s, b, a, b, Map::empty(), false, false, (f1 - 1) as nat, (f2 - 1) as nat);
                lemma_attrset_advance(s, b, a, b, Map::empty(), false, false, (f1 - 1) as nat);
                match p_attrset(s, b, a, b, Map::empty(), false, false, (f1 - 1) as nat) {
                    ParseOut::Parsed(v, b2) => {
                        lemma_list_fuel(s, b2, e0, e1, acc.push(v), true, false, (f1 - 1) as nat, (f2 - 1) as nat);
                    },
                    ParseOut::Failed(k, x, y) => {},
                }
            },
            TokenModel::BracketOpen => if !aw_space {
                lemma_list_fuel(s, b, a, b, Seq::empty(), false, false, (f1 - 1) as nat, (f2 - 1) as nat);
                lemma_list_advance(s, b, a, b, Seq::empty(), false, false, (f1 - 1) as nat);
                match p_list(s, b, a, b, Seq::empty(), false, false, (f1 - 1) as nat) {
                    ParseOut::Parsed(v, b2) => {
                        lemma_list_fuel(s, b2, e0, e1, acc.push(v), true, false, (f1 - 1) as nat, (f2 - 1) as nat);
                    },
                    ParseOut::Failed(k, x, y) => {},
                }
            },
            TokenModel::Space => if aw_space {
                lemma_list_fuel(s, b, e0, e1, acc, false, true, (f1 - 1) as nat, (f2 - 1) as nat);
            },
            _ => {},
        },
        _ => {},
    }
}

/// Any two sufficient fuels give the attribute-set production the same
/// outcome.
pub proof fn lemma_attrset_fuel(
    s: Seq<char>,
    p: nat,
    e0: nat,
    e1: nat,
    m: Map<Seq<char>, ValueModel>,
    aw_comma: bool,
    aw_key: bool,
    f1: nat,
    f2: nat,
)
    requires
        p <= s.len(),
        f1 >= s.len() + 1 - p,
        f2 >= s.len() + 1 - p,
    ensures
        p_attrset(s, p, e0, e1, m, aw_comma, aw_key, f1) == p_attrset(
            s,
            p,
            e0,
            e1,
            m,
            aw_comma,
            aw_key,
            f2,
        ),
    decreases f1 + f2,
{
    lemma_next_token_bounds(s, p);
    match next_token_at(s, p) {
        NextTok::Lexed(t, a, b) => match t {
            TokenModel::Comma => if aw_comma {
                lemma_attrset_fuel(s, b, e0, e1, m, false, true, (f1 - 1) as nat, (f2 - 1) as nat);
            },
            TokenModel::Identifier(name) => if !aw_comma {
                lemma_next_token_bounds(s, b);
                match next_token_at(s, b) {
                    NextTok::Lexed(TokenModel::Equals, a2, b2) => {
                        lemma_value_fuel(s, b2, a2, b2, (f1 - 1) as nat, (f2 - 1) as nat);
                        lemma_value_advance(s, b2, a2, b2, (f1 - 1) as nat);
                        match p_value(s, b2, a2, b2, (f1 - 1) as nat) {
                            ParseOut::Parsed(v, p2) => {
                                lemma_attrset_fuel(
                                    s,
                                    p2,
                                    e0,
                                    e1,
                                    m.insert(name, v),
                                    true,
                                    false,
                                    (f1 - 1) as nat,
                                    (f2 - 1) as nat,
                                );
                            },
                            ParseOut::Failed(k, x, y) => {},
                        }
                    },
                    _ => {},
                }
            },
            _ => {},
        },
        _ => {},
    }
}


/// Builds a diagnostic that carries the file name, the full source text,
/// and the failing byte span.
fn mk_error(file_name: &str, src_text: &str, kind: ParseErrorKind, span: Span) -> (e: ParseError)
    ensures
        e.kind == kind,
        e.span == span,
        e.src@ == src_text@,
        e.file_name@ == file_name@,
{
    ParseError { kind, file_name: file_name.to_owned(), src: src_text.to_owned(), span }
}

/// The recursive-descent parser; the file name is carried into every
/// diagnostic it produces.
pub struct Parser<'a> {
    pub file_name: &'a str,
}

impl<'a> Parser<'a> {
    /// Parses exactly one value from the lexer's current position, as
    /// [`parse_value_at`] describes: one token is consumed and dispatched
    /// on; `{` and `[` delegate to the attribute-set and list productions.
    #[verifier::rlimit(100)]
    pub fn parse_value<'s>(&mut self, lexer: &mut Lexer<'s>) -> (r: Result<Value<'s>, ParseError>)
        requires
            old(lexer).wf(),
        ensures
            *final(self) == *old(self),
            final(lexer).wf(),
            final(lexer).source() == old(lexer).source(),
            match parse_value_at(
                old(lexer).source(),
                old(lexer).pos(),
                old(lexer).span_start(),
                old(lexer).span_end(),
            ) {
                ParseOut::Parsed(m, p2) => r matches Ok(v) && value_model(v) == m && final(lexer).pos() == p2,
                ParseOut::Failed(k, x, y) => r matches Err(e) && e.kind == k && e.span.start as nat
                    == byte_of(old(lexer).source(), x) && e.span.end as nat == byte_of(
                    old(lexer).source(),
                    y,
                ) && e.src@ == old(lexer).source() && e.file_name@ == old(self).file_name@,
            },
        decreases old(lexer).source().len() - old(lexer).pos(),
    {
        let ghost s = lexer.source();
        let ghost p0 = lexer.pos();
        let ghost e0 = lexer.span_start();
        let ghost e1 = lexer.span_end();
        let entry_span = lexer.span();
        let src_text = lexer.source_text();
        proof {
                lemma_lexer_wf(*lexer);
            lemma_next_token_bounds(s, p0);
        }
        match lexer.next() {
            None => Err(
                mk_error(self.file_name, src_text, ParseErrorKind::EmptyValue, entry_span),
            ),
            Some(Err(le)) => match le.kind {
                LexErrorKind::IntegerOverflow => Err(
                    mk_error(self.file_name, src_text, ParseErrorKind::IntegerOverflow, le.span),
                ),
                LexErrorKind::InvalidToken => Err(
                    mk_error(
                        self.file_name,
                        src_text,
                        ParseErrorKind::UnexpectedTokenValue,
                        entry_span,
                    ),
                ),
            },
            Some(Ok(tok)) => {
                let ghost a = lexer.span_start();
                let ghost b = lexer.pos();
                match tok {
                    Token::Null => Ok(Value::Null),
                    Token::Bool(v) => Ok(Value::Bool(v)),
                    Token::Integer(n) => Ok(Value::Integer(n)),
                    Token::Float(t) => Ok(Value::Float(t)),
                    Token::BraceOpen => {
                        proof {
                lemma_lexer_wf(*lexer);
                            lemma_attrset_fuel(
                                s,
                                b,
                                a,
                                b,
                                Map::empty(),
                                false,
                                false,
                                (parse_fuel(s, p0) - 1) as nat,
                                parse_fuel(s, b),
                            );
                        }
                        self.parse_attrset(lexer)
                    },
                    Token::BracketOpen => {
                        proof {
                lemma_lexer_wf(*lexer);
                            lemma_list_fuel(
                                s,
                                b,
                                a,
                                b,
                                Seq::empty(),
                                false,
                                false,
                                (parse_fuel(s, p0) - 1) as nat,
                                parse_fuel(s, b),
                            );
                        }
                        self.parse_list(lexer)
                    },
                    Token::HexInteger => Err(
                        mk_error(
                            self.file_name,
                            src_text,
                            ParseErrorKind::UnsupportedLiteral,
                            entry_span,
                        ),
                    ),
                    Token::OctalInteger => Err(
                        mk_error(
                            self.file_name,
                            src_text,
                            ParseErrorKind::UnsupportedLiteral,
                            entry_span,
                        ),
                    ),
                    Token::BinaryInteger => Err(
                        mk_error(
                            self.file_name,
                            src_text,
                            ParseErrorKind::UnsupportedLiteral,
                            entry_span,
                        ),
                    ),
                    Token::HexFloat(_) => Err(
                        mk_error(
                            self.file_name,
                            src_text,
                            ParseErrorKind::UnsupportedLiteral,
                            entry_span,
                        ),
                    ),
                    _ => Err(
                        mk_error(
                            self.file_name,
                            src_text,
                            ParseErrorKind::UnexpectedTokenValue,
                            entry_span,
                        ),
                    ),
                }
            },
        }
    }

    /// Parses a list, the `[` already consumed: values separated by exactly
    /// one space token, closed by `]`, as [`parse_list_at`] describes.
    #[verifier::loop_isolation(false)]
    #[verifier::rlimit(100)]
    pub fn parse_list<'s>(&mut self, lexer: &mut Lexer<'s>) -> (r: Result<Value<'s>, ParseError>)
        requires
            old(lexer).wf(),
        ensures
            *final(self) == *old(self),
            final(lexer).wf(),
            final(lexer).source() == old(lexer).source(),
            match parse_list_at(
                old(lexer).source(),
                old(lexer).pos(),
                old(lexer).span_start(),
                old(lexer).span_end(),
                Seq::empty(),
                false,
                false,
            ) {
                ParseOut::Parsed(m, p2) => r matches Ok(v) && value_model(v) == m && final(lexer).pos() == p2,
                ParseOut::Failed(k, x, y) => r matches Err(e) && e.kind == k && e.span.start as nat
                    == byte_of(old(lexer).source(), x) && e.span.end as nat == byte_of(
                    old(lexer).source(),
                    y,
                ) && e.src@ == old(lexer).source() && e.file_name@ == old(self).file_name@,
            },
        decreases old(lexer).source().len() - old(lexer).pos(),
    {
        let ghost s = lexer.source();
        let ghost p0 = lexer.pos();
        let ghost e0 = lexer.span_start();
        let ghost e1 = lexer.span_end();
        let ghost fname = self.file_name;
        let entry_span = lexer.span();
        let src_text = lexer.source_text();
        let mut array: Vec<Value<'s>> = Vec::new();
        let mut aw_space = false;
        let mut aw_value = false;
        proof {
                lemma_lexer_wf(*lexer);
            assert(list_model(array@) =~= Seq::<ValueModel>::empty());
        }
        loop
            invariant
                lexer.wf(),
                lexer.source() == s,
                p0 <= lexer.pos(),
                self.file_name == fname,
                src_text@ == s,
                entry_span.start as nat == byte_of(s, e0),
                entry_span.end as nat == byte_of(s, e1),
                parse_list_at(s, lexer.pos(), e0, e1, list_model(array@), aw_space, aw_value)
                    == parse_list_at(s, p0, e0, e1, Seq::empty(), false, false),
            decreases s.len() - lexer.pos(),
        {
            let ghost p = lexer.pos();
            proof {
                lemma_lexer_wf(*lexer);
                lemma_next_token_bounds(s, p);
            }
            match lexer.next() {
                None => {
                    return Err(
                        mk_error(
                            self.file_name,
                            src_text,
                            ParseErrorKind::UnterminatedList,
                            entry_span,
                        ),
                    );
                },
                Some(Err(le)) => {
                    match le.kind {
                        LexErrorKind::IntegerOverflow => {
                            return Err(
                                mk_error(
                                    self.file_name,
                                    src_text,
                                    ParseErrorKind::IntegerOverflow,
                                    le.span,
                                ),
                            );
                        },
                        LexErrorKind::InvalidToken => {
                            return Err(
                                mk_error(
                                    self.file_name,
                                    src_text,
                                    ParseErrorKind::UnexpectedTokenList,
                                    entry_span,
                                ),
                            );
                        },
                    }
                },
                Some(Ok(tok)) => {
                    let ghost a = lexer.span_start();
                    let ghost b = lexer.pos();
                    match tok {
                        Token::Bool(v) => {
                            if aw_space {
                                return Err(
                                    mk_error(
                                        self.file_name,
                                        src_text,
                                        ParseErrorKind::UnexpectedTokenList,
                                        entry_span,
                                    ),
                                );
                            }
                            proof {
                lemma_lexer_wf(*lexer);
                                lemma_list_model_push(array@, Value::Bool(v));
                                lemma_list_fuel(
                                    s,
                                    b,
                                    e0,
                                    e1,
                                    list_model(array@).push(ValueModel::Bool(v)),
                                    true,
                                    false,
                                    (parse_fuel(s, p) - 1) as nat,
                                    parse_fuel(s, b),
                                );
                            }
                            array.push(Value::Bool(v));
                            aw_space = true;
                            aw_value = false;
                        },
                        Token::Null => {
                            if aw_space {
                                return Err(
                                    mk_error(
                                        self.file_name,
                                        src_text,
                                        ParseErrorKind::UnexpectedTokenList,
                                        entry_span,
                                    ),
                                );
                            }
                            proof {
                lemma_lexer_wf(*lexer);
                                lemma_list_model_push(array@, Value::Null);
                                lemma_list_fuel(
                                    s,
                                    b,
                                    e0,
                                    e1,
                                    list_model(array@).push(ValueModel::Null),
                                    true,
                                    false,
                                    (parse_fuel(s, p) - 1) as nat,
                                    parse_fuel(s, b),
                                );
                            }
                            array.push(Value::Null);
                            aw_space = true;
                            aw_value = false;
                        },
                        Token::Integer(n) => {
                            if aw_space {
                                return Err(
                                    mk_error(
                                        self.file_name,
                                        src_text,
                                        ParseErrorKind::UnexpectedTokenList,
                                        entry_span,
                                    ),
                                );
                            }
                            proof {
                lemma_lexer_wf(*lexer);
                                lemma_list_model_push(array@, Value::Integer(n));
                                lemma_list_fuel(
                                    s,
                                    b,
                                    e0,
                                    e1,
                                    list_model(array@).push(ValueModel::Integer(n as int)),
                                    true,
                                    false,
                                    (parse_fuel(s, p) - 1) as nat,
                                    parse_fuel(s, b),
                                );
                            }
                            array.push(Value::Integer(n));
                            aw_space = true;
                            aw_value = false;
                        },
                        Token::Float(t) => {
                            if aw_space {
                                return Err(
                                    mk_error(
                                        self.file_name,
                                        src_text,
                                        ParseErrorKind::UnexpectedTokenList,
                                        entry_span,
                                    ),
                                );
                            }
                            proof {
                lemma_lexer_wf(*lexer);
                                lemma_list_model_push(array@, Value::Float(t));
                                lemma_list_fuel(
                                    s,
                                    b,
                                    e0,
                                    e1,
                                    list_model(array@).push(ValueModel::Float(t@)),
                                    true,
                                    false,
                                    (parse_fuel(s, p) - 1) as nat,
                                    parse_fuel(s, b),
                                );
                            }
                            array.push(Value::Float(t));
                            aw_space = true;
                            aw_value = false;
                        },
                        Token::BraceOpen => {
                            if aw_space {
                                return Err(
                                    mk_error(
                                        self.file_name,
                                        src_text,
                                        ParseErrorKind::UnexpectedTokenList,
                                        entry_span,
                                    ),
                                );
                            }
                            proof {
                lemma_lexer_wf(*lexer);
                                lemma_attrset_fuel(
                                    s,
                                    b,
                                    a,
                                    b,
                                    Map::empty(),
                                    false,
                                    false,
                                    (parse_fuel(s, p) - 1) as nat,
                                    parse_fuel(s, b),
                                );
                                lemma_attrset_advance(
                                    s,
                                    b,
                                    a,
                                    b,
                                    Map::empty(),
                                    false,
                                    false,
                                    parse_fuel(s, b),
                                );
                            }
                            match self.parse_attrset(lexer) {
                                Ok(v) => {
                                    proof {
                lemma_lexer_wf(*lexer);
                                        lemma_list_model_push(array@, v);
                                        lemma_list_fuel(
                                            s,
                                            lexer.pos(),
                                            e0,
                                            e1,
                                            list_model(array@).push(value_model(v)),
                                            true,
                                            false,
                                            (parse_fuel(s, p) - 1) as nat,
                                            parse_fuel(s, lexer.pos()),
                                        );
                                    }
                                    array.push(v);
                                    aw_space = true;
                                    aw_value = false;
                                },
                                Err(e) => {
                                    return Err(e);
                                },
                            }
                        },
                        Token::BracketOpen => {
                            if aw_space {
                                return Err(
                                    mk_error(
                                        self.file_name,
                                        src_text,
                                        ParseErrorKind::UnexpectedTokenList,
                                        entry_span,
                                    ),
                                );
                            }
                            proof {
                lemma_lexer_wf(*lexer);
                                lemma_list_fuel(
                                    s,
                                    b,
                                    a,
                                    b,
                                    Seq::empty(),
                                    false,
                                    false,
                                    (parse_fuel(s, p) - 1) as nat,
                                    parse_fuel(s, b),
                                );
                                lemma_list_advance(
                                    s,
                                    b,
                                    a,
                                    b,
                                    Seq::empty(),
                                    false,
                                    false,
                                    parse_fuel(s, b),
                                );
                            }
                            match self.parse_list(lexer) {
                                Ok(v) => {
                                    proof {
                lemma_lexer_wf(*lexer);
                                        lemma_list_model_push(array@, v);
                                        lemma_list_fuel(
                                            s,
                                            lexer.pos(),
                                            e0,
                                            e1,
                                            list_model(array@).push(value_model(v)),
                                            true,
                                            false,
                                            (parse_fuel(s, p) - 1) as nat,
                                            parse_fuel(s, lexer.pos()),
                                        );
                                    }
                                    array.push(v);
                                    aw_space = true;
                                    aw_value = false;
                                },
                                Err(e) => {
                                    return Err(e);
                                },
                            }
                        },
                        Token::BracketClose => {
                            if aw_value {
                                return Err(
                                    mk_error(
                                        self.file_name,
                                        src_text,
                                        ParseErrorKind::UnexpectedTokenList,
                                        entry_span,
                                    ),
                                );
                            }
                            return Ok(Value::List(array));
                        },
                        Token::Space => {
                            if !aw_space {
                                return Err(
                                    mk_error(
                                        self.file_name,
                                        src_text,
                                        ParseErrorKind::UnexpectedTokenList,
                                        entry_span,
                                    ),
                                );
                            }
                            proof {
                lemma_lexer_wf(*lexer);
                                lemma_list_fuel(
                                    s,
                                    b,
                                    e0,
                                    e1,
                                    list_model(array@),
                                    false,
                                    true,
                                    (parse_fuel(s, p) - 1) as nat,
                                    parse_fuel(s, b),
                                );
                            }
                            aw_space = false;
                            aw_value = true;
                        },
                        _ => {
                            return Err(
                                mk_error(
                                    self.file_name,
                                    src_text,
                                    ParseErrorKind::UnexpectedTokenList,
                                    entry_span,
                                ),
                            );
                        },
                    }
                },
            }
        }
    }

    /// Parses an attribute set, the `{` already consumed: `key = value`
    /// bindings separated by `,`, no trailing comma, closed by `}`, the
    /// last binding winning on a repeated key, as [`parse_attrset_at`]
    /// describes.
    #[verifier::loop_isolation(false)]
    #[verifier::rlimit(100)]
    pub fn parse_attrset<'s>(&mut self, lexer: &mut Lexer<'s>) -> (r: Result<
        Value<'s>,
        ParseError,
    >)
        requires
            old(lexer).wf(),
        ensures
            *final(self) == *old(self),
            final(lexer).wf(),
            final(lexer).source() == old(lexer).source(),
            match parse_attrset_at(
                old(lexer).source(),
                old(lexer).pos(),
                old(lexer).span_start(),
                old(lexer).span_end(),
                Map::empty(),
                false,
                false,
            ) {
                ParseOut::Parsed(m, p2) => r matches Ok(v) && value_model(v) == m && final(lexer).pos() == p2,
                ParseOut::Failed(k, x, y) => r matches Err(e) && e.kind == k && e.span.start as nat
                    == byte_of(old(lexer).source(), x) && e.span.end as nat == byte_of(
                    old(lexer).source(),
                    y,
                ) && e.src@ == old(lexer).source() && e.file_name@ == old(self).file_name@,
            },
        decreases old(lexer).source().len() - old(lexer).pos(),
    {
        let ghost s = lexer.source();
        let ghost p0 = lexer.pos();
        let ghost e0 = lexer.span_start();
        let ghost e1 = lexer.span_end();
        let ghost fname = self.file_name;
        let entry_span = lexer.span();
        let src_text = lexer.source_text();
        let mut entries: Vec<(&'s str, Value<'s>)> = Vec::new();
        let mut aw_comma = false;
        let mut aw_key = false;
        proof {
                lemma_lexer_wf(*lexer);
            assert(entries_model(entries@) =~= Map::<Seq<char>, ValueModel>::empty());
        }
        loop
            invariant
                lexer.wf(),
                lexer.source() == s,
                p0 <= lexer.pos(),
                self.file_name == fname,
                src_text@ == s,
                entry_span.start as nat == byte_of(s, e0),
                entry_span.end as nat == byte_of(s, e1),
                keys_unique(entries@),
                parse_attrset_at(s, lexer.pos(), e0, e1, entries_model(entries@), aw_comma, aw_key)
                    == parse_attrset_at(s, p0, e0, e1, Map::empty(), false, false),
            decreases s.len() - lexer.pos(),
        {
            let ghost p = lexer.pos();
            proof {
                lemma_lexer_wf(*lexer);
                lemma_next_token_bounds(s, p);
            }
            match lexer.next() {
                None => {
                    return Err(
                        mk_error(
                            self.file_name,
                            src_text,
                            ParseErrorKind::UnterminatedAttrSet,
                            entry_span,
                        ),
                    );
                },
                Some(Err(le)) => {
                    match le.kind {
                        LexErrorKind::IntegerOverflow => {
                            return Err(
                                mk_error(
                                    self.file_name,
                                    src_text,
                                    ParseErrorKind::IntegerOverflow,
                                    le.span,
                                ),
                            );
                        },
                        LexErrorKind::InvalidToken => {
                            return Err(
                                mk_error(
                                    self.file_name,
                                    src_text,
                                    ParseErrorKind::UnexpectedTokenAttrSet,
                                    entry_span,
                                ),
                            );
                        },
                    }
                },
                Some(Ok(tok)) => {
                    let ghost b = lexer.pos();
                    match tok {
                        Token::BraceClose => {
                            if aw_key {
                                return Err(
                                    mk_error(
                                        self.file_name,
                                        src_text,
                                        ParseErrorKind::UnexpectedTokenAttrSet,
                                        entry_span,
                                    ),
                                );
                            }
                            return Ok(Value::AttrSet(entries));
                        },
                        Token::Comma => {
                            if !aw_comma {
                                return Err(
                                    mk_error(
                                        self.file_name,
                                        src_text,
                                        ParseErrorKind::UnexpectedTokenAttrSet,
                                        entry_span,
                                    ),
                                );
                            }
                            proof {
                lemma_lexer_wf(*lexer);
                                lemma_attrset_fuel(
                                    s,
                                    b,
                                    e0,
                                    e1,
                                    entries_model(entries@),
                                    false,
                                    true,
                                    (parse_fuel(s, p) - 1) as nat,
                                    parse_fuel(s, b),
                                );
                            }
                            aw_comma = false;
                            aw_key = true;
                        },
                        Token::Identifier(key) => {
                            if aw_comma {
                                return Err(
                                    mk_error(
                                        self.file_name,
                                        src_text,
                                        ParseErrorKind::UnexpectedTokenAttrSet,
                                        entry_span,
                                    ),
                                );
                            }
                            proof {
                lemma_lexer_wf(*lexer);
                                lemma_next_token_bounds(s, b);
                            }
                            match lexer.next() {
                                Some(Ok(Token::Equals)) => {
                                    let ghost a2 = lexer.span_start();
                                    let ghost b2 = lexer.pos();
                                    proof {
                lemma_lexer_wf(*lexer);
                                        lemma_value_fuel(
                                            s,
                                            b2,
                                            a2,
                                            b2,
                                            (parse_fuel(s, p) - 1) as nat,
                                            parse_fuel(s, b2),
                                        );
                                        lemma_value_advance(s, b2, a2, b2, parse_fuel(s, b2));
                                    }
                                    match self.parse_value(lexer) {
                                        Ok(v) => {
                                            proof {
                lemma_lexer_wf(*lexer);
                                                lemma_attrset_fuel(
                                                    s,
                                                    lexer.pos(),
                                                    e0,
                                                    e1,
                                                    entries_model(entries@).insert(
                                                        key@,
                                                        value_model(v),
                                                    ),
                                                    true,
                                                    false,
                                                    (parse_fuel(s, p) - 1) as nat,
                                                    parse_fuel(s, lexer.pos()),
                                                );
                                            }
                                            insert_entry(&mut entries, key, v);
                                            aw_comma = true;
                                            aw_key = false;
                                        },
                                        Err(e) => {
                                            return Err(e);
                                        },
                                    }
                                },
                                Some(Err(le2)) => {
                                    match le2.kind {
                                        LexErrorKind::IntegerOverflow => {
                                            return Err(
                                                mk_error(
                                                    self.file_name,
                                                    src_text,
                                                    ParseErrorKind::IntegerOverflow,
                                                    le2.span,
                                                ),
                                            );
                                        },
                                        LexErrorKind::InvalidToken => {
                                            return Err(
                                                mk_error(
                                                    self.file_name,
                                                    src_text,
                                                    ParseErrorKind::ExpectedEquals,
                                                    entry_span,
                                                ),
                                            );
                                        },
                                    }
                                },
                                _ => {
                                    return Err(
                                        mk_error(
                                            self.file_name,
                                            src_text,
                                            ParseErrorKind::ExpectedEquals,
                                            entry_span,
                                        ),
                                    );
                                },
                            }
                        },
                        _ => {
                            return Err(
                                mk_error(
                                    self.file_name,
                                    src_text,
                                    ParseErrorKind::UnexpectedTokenAttrSet,
                                    entry_span,
                                ),
                            );
                        },
                    }
                },
            }
        }
    }
}


/// Parsing is deterministic: the outcome of the value production is a
/// function of the source text alone, so parsing equal text twice, in any
/// order, yields equal results or equal failures. Together with
/// [`Parser::parse_value`]'s contract this pins any two runs over the same
/// input to the same outcome.
pub proof fn lemma_parse_deterministic(s1: Seq<char>, s2: Seq<char>)
    requires
        s1 == s2,
    ensures
        parse_value_at(s1, 0, 0, 0) == parse_value_at(s2, 0, 0, 0),
{
}

} // verus!
