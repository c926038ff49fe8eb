//! The tokenizer: turns source text into a forward-only stream of [`Token`]s.
//!
//! Whitespace policy: a lone ASCII space is itself a token; any longer run of
//! whitespace, any single tab, newline or form feed, and any `//` line
//! comment is discarded. Decimal integers are converted (with `_` separators
//! allowed); a value past the 64-bit signed range is a diagnostic, not a
//! crash. Radix-prefixed integers and hex floats are recognized but never
//! converted. Decimal floats keep their source text. Identifiers follow the
//! Unicode `XID_Start`/`XID_Continue` rules, with `_` allowed as a start.
//!
//! The functions [`lex_step`] and [`next_token_at`] are the mathematical
//! definition of the tokenizer; [`Lexer::next`] is proved against them.
//! Longest-match wins everywhere, mirrored by the explicit comparisons in
//! [`number_step`].

use vstd::prelude::*;
use vstd::utf8::{encode_scalar, encode_utf8};
use crate::token::{Span, Token, TokenModel};

verus! {

/// Why the lexer rejected a stretch of input.
#[derive(Clone, Copy, Debug, PartialEq, Eq, Structural)]
pub enum LexErrorKind {
    /// No token rule matches at this position.
    InvalidToken,
    /// A decimal integer literal whose value exceeds the 64-bit signed range.
    IntegerOverflow,
}

/// A lexical failure, with the byte span of the offending input.
#[derive(Clone, Copy, Debug)]
pub struct LexError {
    pub kind: LexErrorKind,
    pub span: Span,
}

/// Whether the character has the Unicode property `XID_Start`.
/// Interpreted only through `unicode_ident::is_xid_start`; used for
/// characters outside ASCII.
pub uninterp spec fn xid_start(c: char) -> bool;

/// Whether the character has the Unicode property `XID_Continue`.
/// Interpreted only through `unicode_ident::is_xid_continue`; used for
/// characters outside ASCII.
pub uninterp spec fn xid_continue(c: char) -> bool;

/// Relies on `unicode_ident::is_xid_start`: whether `c` has the Unicode
/// `XID_Start` property, a pure function of the character alone.
#[verifier::external_body]
fn char_is_xid_start(c: char) -> (r: bool)
    ensures
        r == xid_start(c),
{
    unicode_ident::is_xid_start(c)
}

/// Relies on `unicode_ident::is_xid_continue`: whether `c` has the Unicode
/// `XID_Continue` property, a pure function of the character alone.
#[verifier::external_body]
fn char_is_xid_continue(c: char) -> (r: bool)
    ensures
        r == xid_continue(c),
{
    unicode_ident::is_xid_continue(c)
}

/// Whitespace that the tokenizer may discard: space, tab, newline, form feed.
pub open spec fn is_ws_char(c: char) -> bool {
    c == ' ' || c == '\t' || c == '\n' || c == '\u{000c}'
}

pub open spec fn is_dec_digit(c: char) -> bool {
    0x30 <= c as u32 && c as u32 <= 0x39
}

pub open spec fn is_hex_digit(c: char) -> bool {
    is_dec_digit(c) || (0x61 <= c as u32 && c as u32 <= 0x66) || (0x41 <= c as u32 && c as u32
        <= 0x46)
}

pub open spec fn is_oct_digit(c: char) -> bool {
    0x30 <= c as u32 && c as u32 <= 0x37
}

pub open spec fn is_bin_digit(c: char) -> bool {
    c == '0' || c == '1'
}

pub open spec fn is_sign_char(c: char) -> bool {
    c == '+' || c == '-'
}

pub open spec fn is_exp_char(c: char) -> bool {
    c == 'e' || c == 'E'
}

/// A float type-suffix letter.
pub open spec fn is_suffix_char(c: char) -> bool {
    c == 'f' || c == 'F' || c == 'd' || c == 'D'
}

pub open spec fn is_ascii_alpha(c: char) -> bool {
    (0x41 <= c as u32 && c as u32 <= 0x5A) || (0x61 <= c as u32 && c as u32 <= 0x7A)
}

/// A character that may start an identifier: an ASCII letter, `_`, or a
/// non-ASCII character with `XID_Start`.
pub open spec fn is_ident_start(c: char) -> bool {
    if (c as u32) < 0x80 {
        is_ascii_alpha(c) || c == '_'
    } else {
        xid_start(c)
    }
}

/// A character that may continue an identifier: an ASCII letter or digit,
/// `_`, or a non-ASCII character with `XID_Continue`.
pub open spec fn is_ident_continue(c: char) -> bool {
    if (c as u32) < 0x80 {
        is_ascii_alpha(c) || is_dec_digit(c) || c == '_'
    } else {
        xid_continue(c)
    }
}

/// The character classes that maximal runs are taken over.
#[derive(Clone, Copy, Debug)]
pub enum CharClass {
    /// Discardable whitespace.
    Whitespace,
    /// Decimal digits and `_`.
    DecDigits,
    /// Hexadecimal digits and `_`.
    HexDigits,
    /// Octal digits and `_`.
    OctDigits,
    /// Binary digits and `_`.
    BinDigits,
    /// Identifier continuation characters.
    IdentContinue,
    /// Anything but a newline (the body of a `//` comment).
    CommentBody,
}

pub open spec fn class_holds(cls: CharClass, c: char) -> bool {
    match cls {
        CharClass::Whitespace => is_ws_char(c),
        CharClass::DecDigits => is_dec_digit(c) || c == '_',
        CharClass::HexDigits => is_hex_digit(c) || c == '_',
        CharClass::OctDigits => is_oct_digit(c) || c == '_',
        CharClass::BinDigits => is_bin_digit(c) || c == '_',
        CharClass::IdentContinue => is_ident_continue(c),
        CharClass::CommentBody => c != '\n',
    }
}

/// The end of the maximal run of characters of class `cls` starting at `p`.
pub open spec fn run_end(s: Seq<char>, cls: CharClass, p: nat) -> nat
    decreases s.len() - p,
{
    if p < s.len() && class_holds(cls, s[p as int]) {
        run_end(s, cls, p + 1)
    } else {
        p
    }
}

pub proof fn lemma_run_end(s: Seq<char>, cls: CharClass, p: nat)
    requires
        p <= s.len(),
    ensures
        p <= run_end(s, cls, p) <= s.len(),
    decreases s.len() - p,
{
    if p < s.len() && class_holds(cls, s[p as int]) {
        lemma_run_end(s, cls, p + 1);
    }
}

/// The UTF-8 byte offset of character position `p` of `s`.
pub open spec fn byte_of(s: Seq<char>, p: nat) -> nat {
    encode_utf8(s.take(p as int)).len()
}

pub proof fn lemma_encode_push(a: Seq<char>, c: char)
    ensures
        encode_utf8(a.push(c)) == encode_utf8(a) + encode_scalar(c as u32),
    decreases a.len(),
{
    if a.len() == 0 {
        assert(a.push(c).drop_first() =~= Seq::<char>::empty());
        assert(a.push(c)[0] == c);
        assert(encode_utf8(a.push(c)) == encode_scalar(c as u32) + encode_utf8(
            Seq::<char>::empty(),
        ));
        assert(encode_scalar(c as u32) + encode_utf8(Seq::<char>::empty()) =~= encode_scalar(
            c as u32,
        ));
        assert(encode_utf8(a) + encode_scalar(c as u32) =~= encode_scalar(c as u32));
    } else {
        assert(a.push(c).drop_first() =~= a.drop_first().push(c));
        lemma_encode_push(a.drop_first(), c);
        assert(encode_utf8(a.push(c)) =~= encode_utf8(a) + encode_scalar(c as u32));
    }
}

pub proof fn lemma_byte_of_step(s: Seq<char>, p: nat)
    requires
        p < s.len(),
    ensures
        byte_of(s, p + 1) == byte_of(s, p) + encode_scalar(s[p as int] as u32).len(),
{
    assert(s.take((p + 1) as int) =~= s.take(p as int).push(s[p as int]));
    lemma_encode_push(s.take(p as int), s[p as int]);
}

pub proof fn lemma_byte_of_mono(s: Seq<char>, p: nat, q: nat)
    requires
        p <= q <= s.len(),
    ensures
        byte_of(s, p) <= byte_of(s, q),
    decreases q - p,
{
    if p < q {
        lemma_byte_of_step(s, (q - 1) as nat);
        lemma_byte_of_mono(s, p, (q - 1) as nat);
    }
}

/// The numeric value of a decimal digit run, `_` separators skipped.
pub open spec fn dec_val(digits: Seq<char>) -> int
    decreases digits.len(),
{
    if digits.len() == 0 {
        0
    } else if digits.last() == '_' {
        dec_val(digits.drop_last())
    } else {
        dec_val(digits.drop_last()) * 10 + (digits.last() as u32 - 0x30)
    }
}

/// The largest value a 64-bit signed integer can hold.
pub const I64_MAX_VALUE: u64 = 0x7fff_ffff_ffff_ffff;

/// End of an exponent part (`e`/`E`, optional sign, digit run) at `p`, if one
/// starts there.
pub open spec fn exp_end(s: Seq<char>, p: nat) -> Option<nat> {
    if p < s.len() && is_exp_char(s[p as int]) {
        let q: nat = if p + 1 < s.len() && is_sign_char(s[(p + 1) as int]) {
            p + 2
        } else {
            p + 1
        };
        if q < s.len() && is_dec_digit(s[q as int]) {
            Some(run_end(s, CharClass::DecDigits, q + 1))
        } else {
            None
        }
    } else {
        None
    }
}

/// Consumes one float type-suffix letter at `p` if present.
pub open spec fn suffix_opt(s: Seq<char>, p: nat) -> nat {
    if p < s.len() && is_suffix_char(s[p as int]) {
        p + 1
    } else {
        p
    }
}

/// End of a decimal float after its `.`: optional fraction digits, optional
/// exponent, optional suffix. `p` is the position just past the `.`.
pub open spec fn after_dot(s: Seq<char>, p: nat) -> nat {
    let fr: nat = if p < s.len() && is_dec_digit(s[p as int]) {
        run_end(s, CharClass::DecDigits, p + 1)
    } else {
        p
    };
    let ex: nat = match exp_end(s, fr) {
        Some(e) => e,
        None => fr,
    };
    suffix_opt(s, ex)
}

/// End of a decimal float literal starting at `p` (optional sign, then
/// either digits with a `.`, exponent or suffix, or `.` followed by digits),
/// or `None` if no float shape starts there.
pub open spec fn float_from(s: Seq<char>, p: nat) -> Option<nat> {
    let q: nat = if p < s.len() && is_sign_char(s[p as int]) {
        p + 1
    } else {
        p
    };
    if q < s.len() && is_dec_digit(s[q as int]) {
        let d_end = run_end(s, CharClass::DecDigits, q + 1);
        if d_end < s.len() && s[d_end as int] == '.' {
            Some(after_dot(s, d_end + 1))
        } else {
            match exp_end(s, d_end) {
                Some(e) => Some(suffix_opt(s, e)),
                None => if d_end < s.len() && is_suffix_char(s[d_end as int]) {
                    Some(d_end + 1)
                } else {
                    None
                },
            }
        }
    } else if q + 1 < s.len() && s[q as int] == '.' && is_dec_digit(s[(q + 1) as int]) {
        Some(after_dot(s, q + 1))
    } else {
        None
    }
}

/// End of the mantissa of a hex float, `p` just past the `0x`: hex digits,
/// optionally with a `.` and optional further hex digits, or `.` then hex
/// digits.
pub open spec fn hex_mantissa_end(s: Seq<char>, p: nat) -> Option<nat> {
    if p < s.len() && is_hex_digit(s[p as int]) {
        let h = run_end(s, CharClass::HexDigits, p + 1);
        if h < s.len() && s[h as int] == '.' {
            if h + 1 < s.len() && is_hex_digit(s[(h + 1) as int]) {
                Some(run_end(s, CharClass::HexDigits, h + 2))
            } else {
                Some(h + 1)
            }
        } else {
            Some(h)
        }
    } else if p + 1 < s.len() && s[p as int] == '.' && is_hex_digit(s[(p + 1) as int]) {
        Some(run_end(s, CharClass::HexDigits, p + 2))
    } else {
        None
    }
}

/// End of a hex float literal whose mantissa starts at `p` (just past the
/// `0x`): mantissa, mandatory `p`/`P` exponent with optional sign, optional
/// suffix.
pub open spec fn hex_float_end(s: Seq<char>, p: nat) -> Option<nat> {
    match hex_mantissa_end(s, p) {
        Some(m) => if m < s.len() && (s[m as int] == 'p' || s[m as int] == 'P') {
            let q: nat = if m + 1 < s.len() && is_sign_char(s[(m + 1) as int]) {
                m + 2
            } else {
                m + 1
            };
            if q < s.len() && is_dec_digit(s[q as int]) {
                Some(suffix_opt(s, run_end(s, CharClass::DecDigits, q + 1)))
            } else {
                None
            }
        } else {
            None
        },
        None => None,
    }
}

/// One step of the tokenizer at position `p`.
pub enum LexStep {
    /// Discarded input (whitespace run or comment) up to the given position.
    Discard(nat),
    /// A token, with its model and end position.
    Lexed(TokenModel, nat),
    /// A lexical failure covering the given character range.
    Fail(LexErrorKind, nat, nat),
}

/// The keyword spellings, written out as character tests.
pub open spec fn is_kw_true(w: Seq<char>) -> bool {
    w.len() == 4 && w[0] == 't' && w[1] == 'r' && w[2] == 'u' && w[3] == 'e'
}

pub open spec fn is_kw_false(w: Seq<char>) -> bool {
    w.len() == 5 && w[0] == 'f' && w[1] == 'a' && w[2] == 'l' && w[3] == 's' && w[4] == 'e'
}

pub open spec fn is_kw_null(w: Seq<char>) -> bool {
    w.len() == 4 && w[0] == 'n' && w[1] == 'u' && w[2] == 'l' && w[3] == 'l'
}

pub open spec fn is_kw_let(w: Seq<char>) -> bool {
    w.len() == 3 && w[0] == 'l' && w[1] == 'e' && w[2] == 't'
}

pub open spec fn is_kw_in(w: Seq<char>) -> bool {
    w.len() == 2 && w[0] == 'i' && w[1] == 'n'
}

/// The token (or discard, or failure) for a number starting with a decimal
/// digit at `p`: the longest of the matching shapes wins. A decimal integer
/// whose digits exceed the 64-bit signed range is a failure, not a panic.
pub open spec fn number_step(s: Seq<char>, p: nat) -> LexStep {
    let int_end = run_end(s, CharClass::DecDigits, p + 1);
    let is_0 = s[p as int] == '0' && p + 1 < s.len();
    let hex_int: Option<nat> = if is_0 && (s[(p + 1) as int] == 'x' || s[(p + 1) as int] == 'X') && p + 2 < s.len()
        && is_hex_digit(s[(p + 2) as int]) {
        Some(run_end(s, CharClass::HexDigits, p + 3))
    } else {
        None
    };
    let hex_fl: Option<nat> = if is_0 && (s[(p + 1) as int] == 'x' || s[(p + 1) as int] == 'X') {
        hex_float_end(s, p + 2)
    } else {
        None
    };
    let oct_int: Option<nat> = if is_0 && (s[(p + 1) as int] == 'o' || s[(p + 1) as int] == 'O') && p + 2 < s.len()
        && is_oct_digit(s[(p + 2) as int]) {
        Some(run_end(s, CharClass::OctDigits, p + 3))
    } else {
        None
    };
    let bin_int: Option<nat> = if is_0 && (s[(p + 1) as int] == 'b' || s[(p + 1) as int] == 'B') && p + 2 < s.len()
        && is_bin_digit(s[(p + 2) as int]) {
        Some(run_end(s, CharClass::BinDigits, p + 3))
    } else {
        None
    };
    let fl: Option<nat> = float_from(s, p);
    if hex_fl.is_some() && exceeds_all(hex_fl->Some_0, int_end, fl, hex_int, oct_int, bin_int) {
        let e = hex_fl->Some_0;
        LexStep::Lexed(TokenModel::HexFloat(s.subrange(p as int, e as int)), e)
    } else if hex_int.is_some() && exceeds_all(hex_int->Some_0, int_end, fl, hex_fl, oct_int,
        bin_int) {
        LexStep::Lexed(TokenModel::HexInteger, hex_int->Some_0)
    } else if oct_int.is_some() && exceeds_all(oct_int->Some_0, int_end, fl, hex_fl, hex_int,
        bin_int) {
        LexStep::Lexed(TokenModel::OctalInteger, oct_int->Some_0)
    } else if bin_int.is_some() && exceeds_all(bin_int->Some_0, int_end, fl, hex_fl, hex_int,
        oct_int) {
        LexStep::Lexed(TokenModel::BinaryInteger, bin_int->Some_0)
    } else if fl.is_some() && fl->Some_0 > int_end {
        let e = fl->Some_0;
        LexStep::Lexed(TokenModel::Float(s.subrange(p as int, e as int)), e)
    } else {
        let v = dec_val(s.subrange(p as int, int_end as int));
        if v > I64_MAX_VALUE {
            LexStep::Fail(LexErrorKind::IntegerOverflow, p, int_end)
        } else {
            LexStep::Lexed(TokenModel::Integer(v), int_end)
        }
    }
}

/// `e` is strictly past the plain-integer end and at least as far as every
/// other candidate.
pub open spec fn exceeds_all(
    e: nat,
    int_end: nat,
    a: Option<nat>,
    b: Option<nat>,
    c: Option<nat>,
    d: Option<nat>,
) -> bool {
    e > int_end && (a matches Some(x) ==> e >= x) && (b matches Some(x) ==> e >= x) && (c matches
        Some(x) ==> e >= x) && (d matches Some(x) ==> e >= x)
}

/// One step of the tokenizer at position `p < s.len()`: the token starting
/// there, input to discard, or a failure.
pub open spec fn lex_step(s: Seq<char>, p: nat) -> LexStep {
    let c = s[p as int];
    if is_ws_char(c) {
        let r = run_end(s, CharClass::Whitespace, p);
        if r == p + 1 && c == ' ' {
            LexStep::Lexed(TokenModel::Space, r)
        } else {
            LexStep::Discard(r)
        }
    } else if c == '/' && p + 1 < s.len() && s[(p + 1) as int] == '/' {
        let r = run_end(s, CharClass::CommentBody, p + 2);
        LexStep::Discard(if r < s.len() {
            r + 1
        } else {
            r
        })
    } else if is_dec_digit(c) {
        number_step(s, p)
    } else if is_sign_char(c) || c == '.' {
        match float_from(s, p) {
            Some(e) => LexStep::Lexed(TokenModel::Float(s.subrange(p as int, e as int)), e),
            None => LexStep::Fail(LexErrorKind::InvalidToken, p, p + 1),
        }
    } else if is_ident_start(c) {
        let r = run_end(s, CharClass::IdentContinue, p + 1);
        let w = s.subrange(p as int, r as int);
        if is_kw_true(w) {
            LexStep::Lexed(TokenModel::Bool(true), r)
        } else if is_kw_false(w) {
            LexStep::Lexed(TokenModel::Bool(false), r)
        } else if is_kw_null(w) {
            LexStep::Lexed(TokenModel::Null, r)
        } else if is_kw_let(w) {
            LexStep::Lexed(TokenModel::Let, r)
        } else if is_kw_in(w) {
            LexStep::Lexed(TokenModel::In, r)
        } else {
            LexStep::Lexed(TokenModel::Identifier(w), r)
        }
    } else if c == '{' {
        LexStep::Lexed(TokenModel::BraceOpen, p + 1)
    } else if c == '}' {
        LexStep::Lexed(TokenModel::BraceClose, p + 1)
    } else if c == '[' {
        LexStep::Lexed(TokenModel::BracketOpen, p + 1)
    } else if c == ']' {
        LexStep::Lexed(TokenModel::BracketClose, p + 1)
    } else if c == ':' {
        LexStep::Lexed(TokenModel::Colon, p + 1)
    } else if c == ',' {
        LexStep::Lexed(TokenModel::Comma, p + 1)
    } else if c == '=' {
        LexStep::Lexed(TokenModel::Equals, p + 1)
    } else if c == ';' {
        LexStep::Lexed(TokenModel::SemiColon, p + 1)
    } else {
        LexStep::Fail(LexErrorKind::InvalidToken, p, p + 1)
    }
}

/// What the tokenizer yields when asked for a token at position `p`, after
/// discarding: end of input, a token with its character span, or a failure
/// with its character span.
pub enum NextTok {
    Eof,
    Lexed(TokenModel, nat, nat),
    Fail(LexErrorKind, nat, nat),
}

/// The next token at or after position `p`, discarded input skipped.
pub open spec fn next_token_at(s: Seq<char>, p: nat) -> NextTok
    decreases s.len() - p,
{
    if p >= s.len() {
        NextTok::Eof
    } else {
        match lex_step(s, p) {
            LexStep::Discard(q) => if p < q <= s.len() {
                next_token_at(s, q)
            } else {
                NextTok::Eof
            },
            LexStep::Lexed(t, e) => NextTok::Lexed(t, p, e),
            LexStep::Fail(k, a, b) => NextTok::Fail(k, a, b),
        }
    }
}


/// The whole character sequence has a UTF-8 encoding whose length fits a
/// `usize`, so byte offsets into it can be computed without overflow.
pub open spec fn bytes_fit(s: Seq<char>) -> bool {
    byte_of(s, s.len()) <= usize::MAX
}

pub proof fn lemma_run_chars(s: Seq<char>, cls: CharClass, p: nat, j: nat)
    requires
        p <= j < run_end(s, cls, p),
        p <= s.len(),
    ensures
        j < s.len() && class_holds(cls, s[j as int]),
    decreases j - p,
{
    lemma_run_end(s, cls, p);
    if p < s.len() && class_holds(cls, s[p as int]) {
        if j > p {
            lemma_run_chars(s, cls, p + 1, j);
        }
    }
}

fn char_width(c: char) -> (w: usize)
    ensures
        w == encode_scalar(c as u32).len(),
{
    proof {
        vstd::utf8::char_is_scalar(c);
    }
    let u = c as u32;
    if u < 0x80 {
        1
    } else if u < 0x800 {
        2
    } else if u < 0x10000 {
        3
    } else {
        4
    }
}

fn is_dec_digit_exec(c: char) -> (b: bool)
    ensures
        b == is_dec_digit(c),
{
    let u = c as u32;
    0x30 <= u && u <= 0x39
}

fn is_hex_digit_exec(c: char) -> (b: bool)
    ensures
        b == is_hex_digit(c),
{
    let u = c as u32;
    (0x30 <= u && u <= 0x39) || (0x61 <= u && u <= 0x66) || (0x41 <= u && u <= 0x46)
}

fn is_oct_digit_exec(c: char) -> (b: bool)
    ensures
        b == is_oct_digit(c),
{
    let u = c as u32;
    0x30 <= u && u <= 0x37
}

fn is_suffix_exec(c: char) -> (b: bool)
    ensures
        b == is_suffix_char(c),
{
    c == 'f' || c == 'F' || c == 'd' || c == 'D'
}

fn class_check(cls: CharClass, c: char) -> (b: bool)
    ensures
        b == class_holds(cls, c),
{
    match cls {
        CharClass::Whitespace => c == ' ' || c == '\t' || c == '\n' || c == '\u{000c}',
        CharClass::DecDigits => is_dec_digit_exec(c) || c == '_',
        CharClass::HexDigits => is_hex_digit_exec(c) || c == '_',
        CharClass::OctDigits => is_oct_digit_exec(c) || c == '_',
        CharClass::BinDigits => c == '0' || c == '1' || c == '_',
        CharClass::IdentContinue => {
            let u = c as u32;
            if u < 0x80 {
                (0x41 <= u && u <= 0x5A) || (0x61 <= u && u <= 0x7A) || (0x30 <= u && u <= 0x39)
                    || c == '_'
            } else {
                char_is_xid_continue(c)
            }
        },
        CharClass::CommentBody => c != '\n',
    }
}

fn ident_start_check(c: char) -> (b: bool)
    ensures
        b == is_ident_start(c),
{
    let u = c as u32;
    if u < 0x80 {
        (0x41 <= u && u <= 0x5A) || (0x61 <= u && u <= 0x7A) || c == '_'
    } else {
        char_is_xid_start(c)
    }
}

/// Scans the maximal run of characters of class `cls` from `start_c`,
/// returning its end as a character position and a byte offset.
fn scan_run(s: &str, n: usize, cls: CharClass, start_c: usize, start_b: usize) -> (r: (
    usize,
    usize,
))
    requires
        n == s@.len(),
        start_c <= n,
        start_b as nat == byte_of(s@, start_c as nat),
        bytes_fit(s@),
    ensures
        r.0 as nat == run_end(s@, cls, start_c as nat),
        start_c <= r.0 <= n,
        r.1 as nat == byte_of(s@, r.0 as nat),
{
    let mut p = start_c;
    let mut b = start_b;
    while p < n
        invariant
            n == s@.len(),
            start_c <= p <= n,
            b as nat == byte_of(s@, p as nat),
            run_end(s@, cls, p as nat) == run_end(s@, cls, start_c as nat),
            bytes_fit(s@),
        decreases n - p,
    {
        let c = s.get_char(p);
        if !class_check(cls, c) {
            return (p, b);
        }
        let w = char_width(c);
        proof {
            lemma_byte_of_step(s@, p as nat);
            lemma_byte_of_mono(s@, (p + 1) as nat, s@.len());
        }
        b = b + w;
        p = p + 1;
    }
    proof {
        lemma_run_end(s@, cls, start_c as nat);
    }
    (p, b)
}

/// Consumes a float type-suffix letter at `q` if one is there.
fn suffix_scan(s: &str, n: usize, q: usize, qb: usize) -> (r: (usize, usize))
    requires
        n == s@.len(),
        q <= n,
        qb as nat == byte_of(s@, q as nat),
        bytes_fit(s@),
    ensures
        r.0 as nat == suffix_opt(s@, q as nat),
        q <= r.0 <= n,
        r.1 as nat == byte_of(s@, r.0 as nat),
{
    if q < n {
        let c = s.get_char(q);
        if is_suffix_exec(c) {
            let w = char_width(c);
            proof {
                lemma_byte_of_step(s@, q as nat);
                lemma_byte_of_mono(s@, (q + 1) as nat, s@.len());
            }
            return (q + 1, qb + w);
        }
    }
    (q, qb)
}

/// Scans an exponent part (`e`/`E`, optional sign, digit run) at `q`.
fn exp_scan(s: &str, n: usize, q: usize, qb: usize) -> (r: Option<(usize, usize)>)
    requires
        n == s@.len(),
        q <= n,
        qb as nat == byte_of(s@, q as nat),
        bytes_fit(s@),
    ensures
        match r {
            Some(x) => exp_end(s@, q as nat) == Some(x.0 as nat) && q <= x.0 <= n && x.1 as nat
                == byte_of(s@, x.0 as nat),
            None => exp_end(s@, q as nat) is None,
        },
{
    if q < n {
        let c = s.get_char(q);
        if c == 'e' || c == 'E' {
            let w = char_width(c);
            proof {
                lemma_byte_of_step(s@, q as nat);
                lemma_byte_of_mono(s@, (q + 1) as nat, s@.len());
            }
            let mut t = q + 1;
            let mut tb = qb + w;
            if t < n {
                let c2 = s.get_char(t);
                if c2 == '+' || c2 == '-' {
                    let w2 = char_width(c2);
                    proof {
                        lemma_byte_of_step(s@, t as nat);
                        lemma_byte_of_mono(s@, (t + 1) as nat, s@.len());
                    }
                    tb = tb + w2;
                    t = t + 1;
                }
            }
            if t < n {
                let c3 = s.get_char(t);
                if is_dec_digit_exec(c3) {
                    let w3 = char_width(c3);
                    proof {
                        lemma_byte_of_step(s@, t as nat);
                        lemma_byte_of_mono(s@, (t + 1) as nat, s@.len());
                    }
                    let e = scan_run(s, n, CharClass::DecDigits, t + 1, tb + w3);
                    return Some(e);
                }
            }
            return None;
        }
    }
    None
}

/// Scans the tail of a decimal float after its `.`; `q` is just past the dot.
fn after_dot_scan(s: &str, n: usize, q: usize, qb: usize) -> (r: (usize, usize))
    requires
        n == s@.len(),
        q <= n,
        qb as nat == byte_of(s@, q as nat),
        bytes_fit(s@),
    ensures
        r.0 as nat == after_dot(s@, q as nat),
        q <= r.0 <= n,
        r.1 as nat == byte_of(s@, r.0 as nat),
{
    let mut fr = q;
    let mut frb = qb;
    if q < n {
        let c = s.get_char(q);
        if is_dec_digit_exec(c) {
            let w = char_width(c);
            proof {
                lemma_byte_of_step(s@, q as nat);
                lemma_byte_of_mono(s@, (q + 1) as nat, s@.len());
            }
            let e = scan_run(s, n, CharClass::DecDigits, q + 1, qb + w);
            fr = e.0;
            frb = e.1;
        }
    }
    let ex = match exp_scan(s, n, fr, frb) {
        Some(x) => x,
        None => (fr, frb),
    };
    suffix_scan(s, n, ex.0, ex.1)
}

/// Scans a decimal float literal starting at `p` (sign allowed).
fn float_scan(s: &str, n: usize, p: usize, pb: usize) -> (r: Option<(usize, usize)>)
    requires
        n == s@.len(),
        p < n,
        pb as nat == byte_of(s@, p as nat),
        bytes_fit(s@),
    ensures
        match r {
            Some(x) => float_from(s@, p as nat) == Some(x.0 as nat) && p < x.0 <= n && x.1 as nat
                == byte_of(s@, x.0 as nat),
            None => float_from(s@, p as nat) is None,
        },
{
    let c0 = s.get_char(p);
    let mut q = p;
    let mut qb = pb;
    if c0 == '+' || c0 == '-' {
        let w = char_width(c0);
        proof {
            lemma_byte_of_step(s@, p as nat);
            lemma_byte_of_mono(s@, (p + 1) as nat, s@.len());
        }
        q = p + 1;
        qb = pb + w;
    }
    if q < n {
        let cq = s.get_char(q);
        if is_dec_digit_exec(cq) {
            let w = char_width(cq);
            proof {
                lemma_byte_of_step(s@, q as nat);
                lemma_byte_of_mono(s@, (q + 1) as nat, s@.len());
            }
            let d = scan_run(s, n, CharClass::DecDigits, q + 1, qb + w);
            let d_end = d.0;
            let d_eb = d.1;
            if d_end < n {
                let cd = s.get_char(d_end);
                if cd == '.' {
                    let wd = char_width(cd);
                    proof {
                        lemma_byte_of_step(s@, d_end as nat);
                        lemma_byte_of_mono(s@, (d_end + 1) as nat, s@.len());
                    }
                    let e = after_dot_scan(s, n, d_end + 1, d_eb + wd);
                    return Some(e);
                }
            }
            match exp_scan(s, n, d_end, d_eb) {
                Some(x) => {
                    let e = suffix_scan(s, n, x.0, x.1);
                    return Some(e);
                },
                None => {
                    if d_end < n {
                        let cs = s.get_char(d_end);
                        if is_suffix_exec(cs) {
                            let ws = char_width(cs);
                            proof {
                                lemma_byte_of_step(s@, d_end as nat);
                                lemma_byte_of_mono(s@, (d_end + 1) as nat, s@.len());
                            }
                            return Some((d_end + 1, d_eb + ws));
                        }
                    }
                    return None;
                },
            }
        }
        if q + 1 < n {
            let cq2 = s.get_char(q);
            if cq2 == '.' {
                let cn = s.get_char(q + 1);
                if is_dec_digit_exec(cn) {
                    let w = char_width(cq2);
                    proof {
                        lemma_byte_of_step(s@, q as nat);
                        lemma_byte_of_mono(s@, (q + 1) as nat, s@.len());
                    }
                    let e = after_dot_scan(s, n, q + 1, qb + w);
                    return Some(e);
                }
            }
        }
    }
    None
}

/// Scans the mantissa of a hex float; `p` is just past the `0x`.
fn hex_mantissa_scan(s: &str, n: usize, p: usize, pb: usize) -> (r: Option<(usize, usize)>)
    requires
        n == s@.len(),
        p <= n,
        pb as nat == byte_of(s@, p as nat),
        bytes_fit(s@),
    ensures
        match r {
            Some(x) => hex_mantissa_end(s@, p as nat) == Some(x.0 as nat) && p <= x.0 <= n
                && x.1 as nat == byte_of(s@, x.0 as nat),
            None => hex_mantissa_end(s@, p as nat) is None,
        },
{
    if p < n {
        let c = s.get_char(p);
        if is_hex_digit_exec(c) {
            let w = char_width(c);
            proof {
                lemma_byte_of_step(s@, p as nat);
                lemma_byte_of_mono(s@, (p + 1) as nat, s@.len());
            }
            let h = scan_run(s, n, CharClass::HexDigits, p + 1, pb + w);
            if h.0 < n {
                let cd = s.get_char(h.0);
                if cd == '.' {
                    let wd = char_width(cd);
                    proof {
                        lemma_byte_of_step(s@, h.0 as nat);
                        lemma_byte_of_mono(s@, (h.0 + 1) as nat, s@.len());
                    }
                    if h.0 + 1 < n {
                        let cn = s.get_char(h.0 + 1);
                        if is_hex_digit_exec(cn) {
                            let wn = char_width(cn);
                            proof {
                                lemma_byte_of_step(s@, (h.0 + 1) as nat);
                                lemma_byte_of_mono(s@, (h.0 + 2) as nat, s@.len());
                            }
                            let e = scan_run(s, n, CharClass::HexDigits, h.0 + 2, h.1 + wd + wn);
                            return Some(e);
                        }
                    }
                    return Some((h.0 + 1, h.1 + wd));
                }
            }
            return Some(h);
        }
        if p + 1 < n {
            if c == '.' {
                let cn = s.get_char(p + 1);
                if is_hex_digit_exec(cn) {
                    let w = char_width(c);
                    let wn = char_width(cn);
                    proof {
                        lemma_byte_of_step(s@, p as nat);
                        lemma_byte_of_step(s@, (p + 1) as nat);
                        lemma_byte_of_mono(s@, (p + 2) as nat, s@.len());
                    }
                    let e = scan_run(s, n, CharClass::HexDigits, p + 2, pb + w + wn);
                    return Some(e);
                }
            }
        }
    }
    None
}

/// Scans a hex float (mantissa, `p`/`P` exponent, optional suffix); `p` is
/// just past the `0x`.
fn hex_float_scan(s: &str, n: usize, p: usize, pb: usize) -> (r: Option<(usize, usize)>)
    requires
        n == s@.len(),
        p <= n,
        pb as nat == byte_of(s@, p as nat),
        bytes_fit(s@),
    ensures
        match r {
            Some(x) => hex_float_end(s@, p as nat) == Some(x.0 as nat) && p <= x.0 <= n
                && x.1 as nat == byte_of(s@, x.0 as nat),
            None => hex_float_end(s@, p as nat) is None,
        },
{
    let m = match hex_mantissa_scan(s, n, p, pb) {
        Some(x) => x,
        None => {
            return None;
        },
    };
    if m.0 < n {
        let c = s.get_char(m.0);
        if c == 'p' || c == 'P' {
            let w = char_width(c);
            proof {
                lemma_byte_of_step(s@, m.0 as nat);
                lemma_byte_of_mono(s@, (m.0 + 1) as nat, s@.len());
            }
            let mut t = m.0 + 1;
            let mut tb = m.1 + w;
            if t < n {
                let c2 = s.get_char(t);
                if c2 == '+' || c2 == '-' {
                    let w2 = char_width(c2);
                    proof {
                        lemma_byte_of_step(s@, t as nat);
                        lemma_byte_of_mono(s@, (t + 1) as nat, s@.len());
                    }
                    tb = tb + w2;
                    t = t + 1;
                }
            }
            if t < n {
                let c3 = s.get_char(t);
                if is_dec_digit_exec(c3) {
                    let w3 = char_width(c3);
                    proof {
                        lemma_byte_of_step(s@, t as nat);
                        lemma_byte_of_mono(s@, (t + 1) as nat, s@.len());
                    }
                    let e = scan_run(s, n, CharClass::DecDigits, t + 1, tb + w3);
                    let r2 = suffix_scan(s, n, e.0, e.1);
                    return Some(r2);
                }
            }
            return None;
        }
    }
    None
}


/// `e` is at least as far as the candidate end `o`, if there is one.
fn le_all(o: &Option<(usize, usize)>, e: usize) -> (b: bool)
    ensures
        b == match *o {
            Some(x) => e >= x.0,
            None => true,
        },
{
    match o {
        Some(x) => e >= x.0,
        None => true,
    }
}

/// Lexes the number starting with a decimal digit at `p`, longest match
/// winning, mirroring [`number_step`].
fn lex_number<'a>(s: &'a str, n: usize, p: usize, pb: usize) -> (r: (
    Result<Token<'a>, LexError>,
    usize,
    usize,
))
    requires
        n == s@.len(),
        p < n,
        pb as nat == byte_of(s@, p as nat),
        bytes_fit(s@),
        is_dec_digit(s@[p as int]),
    ensures
        match number_step(s@, p as nat) {
            LexStep::Lexed(t, e) => r.0 matches Ok(tok) && tok.model() == t && r.1 as nat == e && p
                < e <= s@.len() && r.2 as nat == byte_of(s@, e),
            LexStep::Fail(k, a, b) => r.0 matches Err(le) && le.kind == k && le.span.start as nat
                == byte_of(s@, a) && le.span.end as nat == byte_of(s@, b) && r.1 as nat == b && p
                < b <= s@.len() && r.2 as nat == byte_of(s@, b),
            LexStep::Discard(q) => false,
        },
{
    let c0 = s.get_char(p);
    let w0 = char_width(c0);
    proof {
        lemma_byte_of_step(s@, p as nat);
        lemma_byte_of_mono(s@, (p + 1) as nat, s@.len());
    }
    let ie = scan_run(s, n, CharClass::DecDigits, p + 1, pb + w0);
    let int_end = ie.0;
    let int_eb = ie.1;

    let mut hex_int: Option<(usize, usize)> = None;
    let mut hex_fl: Option<(usize, usize)> = None;
    let mut oct_int: Option<(usize, usize)> = None;
    let mut bin_int: Option<(usize, usize)> = None;
    if c0 == '0' && p + 1 < n {
        let c1 = s.get_char(p + 1);
        let w1 = char_width(c1);
        proof {
            lemma_byte_of_step(s@, (p + 1) as nat);
            lemma_byte_of_mono(s@, (p + 2) as nat, s@.len());
        }
        let b2 = pb + w0 + w1;
        if c1 == 'x' || c1 == 'X' {
            if p + 2 < n {
                let c2 = s.get_char(p + 2);
                if is_hex_digit_exec(c2) {
                    let w2 = char_width(c2);
                    proof {
                        lemma_byte_of_step(s@, (p + 2) as nat);
                        lemma_byte_of_mono(s@, (p + 3) as nat, s@.len());
                    }
                    hex_int = Some(scan_run(s, n, CharClass::HexDigits, p + 3, b2 + w2));
                }
            }
            hex_fl = hex_float_scan(s, n, p + 2, b2);
        } else if c1 == 'o' || c1 == 'O' {
            if p + 2 < n {
                let c2 = s.get_char(p + 2);
                if is_oct_digit_exec(c2) {
                    let w2 = char_width(c2);
                    proof {
                        lemma_byte_of_step(s@, (p + 2) as nat);
                        lemma_byte_of_mono(s@, (p + 3) as nat, s@.len());
                    }
                    oct_int = Some(scan_run(s, n, CharClass::OctDigits, p + 3, b2 + w2));
                }
            }
        } else if c1 == 'b' || c1 == 'B' {
            if p + 2 < n {
                let c2 = s.get_char(p + 2);
                if c2 == '0' || c2 == '1' {
                    let w2 = char_width(c2);
                    proof {
                        lemma_byte_of_step(s@, (p + 2) as nat);
                        lemma_byte_of_mono(s@, (p + 3) as nat, s@.len());
                    }
                    bin_int = Some(scan_run(s, n, CharClass::BinDigits, p + 3, b2 + w2));
                }
            }
        }
    }
    let fl = float_scan(s, n, p, pb);

    match hex_fl {
        Some(hf) => if hf.0 > int_end && le_all(&fl, hf.0) && le_all(&hex_int, hf.0) && le_all(
            &oct_int,
            hf.0,
        ) && le_all(&bin_int, hf.0) {
            let text = s.substring_char(p, hf.0);
            return (Ok(Token::HexFloat(text)), hf.0, hf.1);
        },
        None => {},
    }
    match hex_int {
        Some(hi) => if hi.0 > int_end && le_all(&fl, hi.0) && le_all(&hex_fl, hi.0) && le_all(
            &oct_int,
            hi.0,
        ) && le_all(&bin_int, hi.0) {
            return (Ok(Token::HexInteger), hi.0, hi.1);
        },
        None => {},
    }
    match oct_int {
        Some(oi) => if oi.0 > int_end && le_all(&fl, oi.0) && le_all(&hex_fl, oi.0) && le_all(
            &hex_int,
            oi.0,
        ) && le_all(&bin_int, oi.0) {
            return (Ok(Token::OctalInteger), oi.0, oi.1);
        },
        None => {},
    }
    match bin_int {
        Some(bi) => if bi.0 > int_end && le_all(&fl, bi.0) && le_all(&hex_fl, bi.0) && le_all(
            &hex_int,
            bi.0,
        ) && le_all(&oct_int, bi.0) {
            return (Ok(Token::BinaryInteger), bi.0, bi.1);
        },
        None => {},
    }
    match fl {
        Some(f) => if f.0 > int_end {
            let text = s.substring_char(p, f.0);
            return (Ok(Token::Float(text)), f.0, f.1);
        },
        None => {},
    }

    // plain decimal integer: convert, watching for 64-bit signed overflow
    proof {
        assert forall|j: int| p < j < int_end implies (is_dec_digit(#[trigger] s@[j]) || s@[j]
            == '_') by {
            lemma_run_chars(s@, CharClass::DecDigits, (p + 1) as nat, j as nat);
        }
    }
    let mut acc: u64 = 0;
    let mut over = false;
    let mut i = p;
    while i < int_end
        invariant
            p <= i <= int_end <= n,
            n == s@.len(),
            is_dec_digit(s@[p as int]),
            forall|j: int| p < j < int_end ==> (is_dec_digit(#[trigger] s@[j]) || s@[j] == '_'),
            !over ==> acc as int == dec_val(s@.subrange(p as int, i as int)) && acc
                <= I64_MAX_VALUE,
            over ==> dec_val(s@.subrange(p as int, i as int)) > I64_MAX_VALUE,
        decreases int_end - i,
    {
        let c = s.get_char(i);
        proof {
            assert(s@.subrange(p as int, (i + 1) as int).drop_last() =~= s@.subrange(
                p as int,
                i as int,
            ));
            assert(s@.subrange(p as int, (i + 1) as int).last() == s@[i as int]);
        }
        if c == '_' {
        } else {
            let u = c as u32;
            let d = (u - 0x30) as u64;
            if over {
                proof {
                    let prev = dec_val(s@.subrange(p as int, i as int));
                    assert(prev * 10 >= prev) by (nonlinear_arith)
                        requires
                            prev >= 0,
                    ;
                }
            } else if acc > (I64_MAX_VALUE - d) / 10 {
                proof {
                    let m = (I64_MAX_VALUE - d) as int;
                    assert(m / 10 * 10 + m % 10 == m);
                    assert(acc * 10 >= (m / 10 + 1) * 10) by (nonlinear_arith)
                        requires
                            acc >= m / 10 + 1,
                    ;
                }
                over = true;
            } else {
                proof {
                    let m = (I64_MAX_VALUE - d) as int;
                    assert(m / 10 * 10 + m % 10 == m);
                    assert(acc * 10 <= (m / 10) * 10) by (nonlinear_arith)
                        requires
                            acc <= m / 10,
                    ;
                }
                acc = acc * 10 + d;
            }
        }
        i = i + 1;
    }
    proof {
        assert(s@.subrange(p as int, int_end as int) == s@.subrange(p as int, i as int));
    }
    if over {
        return (
            (
                Err(
                    LexError {
                        kind: LexErrorKind::IntegerOverflow,
                        span: Span { start: pb, end: int_eb },
                    },
                ),
                int_end,
                int_eb,
            )
        );
    }
    (Ok(Token::Integer(acc as i64)), int_end, int_eb)
}

/// A forward-only tokenizer over borrowed source text.
///
/// `next` yields tokens one at a time; `span` reports the byte span of the
/// most recently yielded token, which the parser records at the entry of
/// each production for its diagnostics.
pub struct Lexer<'a> {
    src: &'a str,
    n: usize,
    pos_c: usize,
    pos_b: usize,
    tok_start_c: usize,
    tok_start_b: usize,
    tok_end_c: usize,
    tok_end_b: usize,
}

impl<'a> Lexer<'a> {
    /// The source text as a character sequence.
    pub closed spec fn source(self) -> Seq<char> {
        self.src@
    }

    /// The current position, as a character index.
    pub closed spec fn pos(self) -> nat {
        self.pos_c as nat
    }

    /// Start of the span of the last token, as a character index.
    pub closed spec fn span_start(self) -> nat {
        self.tok_start_c as nat
    }

    /// End of the span of the last token, as a character index.
    pub closed spec fn span_end(self) -> nat {
        self.tok_end_c as nat
    }

    /// The cached lengths and byte offsets agree with the source text.
    pub closed spec fn wf(self) -> bool {
        &&& self.n == self.source().len()
        &&& self.pos_c as nat <= self.source().len()
        &&& self.pos_b as nat == byte_of(self.source(), self.pos_c as nat)
        &&& self.tok_start_c <= self.tok_end_c
        &&& self.tok_end_c as nat <= self.source().len()
        &&& self.tok_start_b as nat == byte_of(self.source(), self.tok_start_c as nat)
        &&& self.tok_end_b as nat == byte_of(self.source(), self.tok_end_c as nat)
        &&& bytes_fit(self.source())
    }

    /// A lexer at the start of `src`, with an empty initial span.
    pub fn new(src: &'a str) -> (r: Lexer<'a>)
        ensures
            r.wf(),
            r.source() == src@,
            r.pos() == 0,
            r.span_start() == 0,
            r.span_end() == 0,
    {
        let n = src.unicode_len();
        let bytes = src.as_bytes();
        let nb = bytes.len();
        proof {
            assert(src@.take(src@.len() as int) =~= src@);
            assert(src@.take(0) =~= Seq::<char>::empty());
        }
        Lexer {
            src,
            n,
            pos_c: 0,
            pos_b: 0,
            tok_start_c: 0,
            tok_start_b: 0,
            tok_end_c: 0,
            tok_end_b: 0,
        }
    }

    /// The source text this lexer reads from.
    pub fn source_text(&self) -> (r: &'a str)
        ensures
            r@ == self.source(),
    {
        self.src
    }

    /// The byte span of the most recently yielded token.
    pub fn span(&self) -> (r: Span)
        requires
            self.wf(),
        ensures
            r.start as nat == byte_of(self.source(), self.span_start()),
            r.end as nat == byte_of(self.source(), self.span_end()),
    {
        Span { start: self.tok_start_b, end: self.tok_end_b }
    }

    /// Yields the next token, `None` at the end of input, or a lexical
    /// error; exactly as [`next_token_at`] describes from the current
    /// position.
    #[verifier::rlimit(100)]
    pub fn next(&mut self) -> (r: Option<Result<Token<'a>, LexError>>)
        requires
            old(self).wf(),
        ensures
            final(self).wf(),
            final(self).source() == old(self).source(),
            match next_token_at(old(self).source(), old(self).pos()) {
                NextTok::Eof => r is None,
                NextTok::Lexed(t, a, b) => r matches Some(Ok(tok)) && tok.model() == t
                    && final(self).pos() == b && final(self).span_start() == a
                    && final(self).span_end() == b,
                NextTok::Fail(k, a, b) => r matches Some(Err(e)) && e.kind == k
                    && e.span.start as nat == byte_of(final(self).source(), a) && e.span.end as nat
                    == byte_of(final(self).source(), b) && final(self).pos() == b,
            },
    {
        loop
            invariant
                self.wf(),
                self.source() == old(self).source(),
                next_token_at(self.source(), self.pos()) == next_token_at(
                    old(self).source(),
                    old(self).pos(),
                ),
            decreases self.source().len() - self.pos(),
        {
            if self.pos_c >= self.n {
                return None;
            }
            let ghost s = self.source();
            let ghost pn = self.pos_c as nat;
            let c = self.src.get_char(self.pos_c);
            if class_check(CharClass::Whitespace, c) {
                let e = scan_run(self.src, self.n, CharClass::Whitespace, self.pos_c, self.pos_b);
                if e.0 == self.pos_c + 1 && c == ' ' {
                    self.tok_start_c = self.pos_c;
                    self.tok_start_b = self.pos_b;
                    self.tok_end_c = e.0;
                    self.tok_end_b = e.1;
                    self.pos_c = e.0;
                    self.pos_b = e.1;
                    return Some(Ok(Token::Space));
                } else {
                    proof {
                        lemma_run_end(s, CharClass::Whitespace, pn + 1);
                    }
                    self.pos_c = e.0;
                    self.pos_b = e.1;
                }
            } else if c == '/' {
                let mut comment = false;
                if self.pos_c + 1 < self.n {
                    let c1 = self.src.get_char(self.pos_c + 1);
                    if c1 == '/' {
                        comment = true;
                    }
                }
                if comment {
                    let w0 = char_width(c);
                    let c1 = self.src.get_char(self.pos_c + 1);
                    let w1 = char_width(c1);
                    proof {
                        lemma_byte_of_step(s, pn);
                        lemma_byte_of_step(s, pn + 1);
                        lemma_byte_of_mono(s, pn + 2, s.len());
                    }
                    let e = scan_run(
                        self.src,
                        self.n,
                        CharClass::CommentBody,
                        self.pos_c + 2,
                        self.pos_b + w0 + w1,
                    );
                    if e.0 < self.n {
                        let cn = self.src.get_char(e.0);
                        let wn = char_width(cn);
                        proof {
                            lemma_byte_of_step(s, e.0 as nat);
                            lemma_byte_of_mono(s, (e.0 + 1) as nat, s.len());
                            lemma_run_end(s, CharClass::CommentBody, pn + 2);
                        }
                        self.pos_c = e.0 + 1;
                        self.pos_b = e.1 + wn;
                    } else {
                        self.pos_c = e.0;
                        self.pos_b = e.1;
                    }
                } else {
                    // a lone '/' matches no rule
                    let w = char_width(c);
                    proof {
                        lemma_byte_of_step(s, pn);
                        lemma_byte_of_mono(s, pn + 1, s.len());
                    }
                    let sp = Span { start: self.pos_b, end: self.pos_b + w };
                    self.pos_c = self.pos_c + 1;
                    self.pos_b = self.pos_b + w;
                    return Some(Err(LexError { kind: LexErrorKind::InvalidToken, span: sp }));
                }
            } else if is_dec_digit_exec(c) {
                let r = lex_number(self.src, self.n, self.pos_c, self.pos_b);
                let start_c = self.pos_c;
                let start_b = self.pos_b;
                self.pos_c = r.1;
                self.pos_b = r.2;
                match r.0 {
                    Ok(tok) => {
                        self.tok_start_c = start_c;
                        self.tok_start_b = start_b;
                        self.tok_end_c = r.1;
                        self.tok_end_b = r.2;
                        return Some(Ok(tok));
                    },
                    Err(le) => {
                        return Some(Err(le));
                    },
                }
            } else if c == '+' || c == '-' || c == '.' {
                match float_scan(self.src, self.n, self.pos_c, self.pos_b) {
                    Some(f) => {
                        let text = self.src.substring_char(self.pos_c, f.0);
                        self.tok_start_c = self.pos_c;
                        self.tok_start_b = self.pos_b;
                        self.tok_end_c = f.0;
                        self.tok_end_b = f.1;
                        self.pos_c = f.0;
                        self.pos_b = f.1;
                        return Some(Ok(Token::Float(text)));
                    },
                    None => {
                        let w = char_width(c);
                        proof {
                            lemma_byte_of_step(s, pn);
                            lemma_byte_of_mono(s, pn + 1, s.len());
                        }
                        let sp = Span { start: self.pos_b, end: self.pos_b + w };
                        self.pos_c = self.pos_c + 1;
                        self.pos_b = self.pos_b + w;
                        return Some(Err(LexError { kind: LexErrorKind::InvalidToken, span: sp }));
                    },
                }
            } else if ident_start_check(c) {
                let w = char_width(c);
                proof {
                    lemma_byte_of_step(s, pn);
                    lemma_byte_of_mono(s, pn + 1, s.len());
                }
                let e = scan_run(
                    self.src,
                    self.n,
                    CharClass::IdentContinue,
                    self.pos_c + 1,
                    self.pos_b + w,
                );
                let word = self.src.substring_char(self.pos_c, e.0);
                let wlen = e.0 - self.pos_c;
                let p = self.pos_c;
                let tok: Token<'a> = if wlen == 2 && char_at_is(self.src, p, 'i') && char_at_is(
                    self.src,
                    p + 1,
                    'n',
                ) {
                    Token::In
                } else if wlen == 3 && char_at_is(self.src, p, 'l') && char_at_is(self.src, p + 1, 'e')
                    && char_at_is(self.src, p + 2, 't') {
                    Token::Let
                } else if wlen == 4 && char_at_is(self.src, p, 't') && char_at_is(self.src, p + 1, 'r')
                    && char_at_is(self.src, p + 2, 'u') && char_at_is(self.src, p + 3, 'e') {
                    Token::Bool(true)
                } else if wlen == 4 && char_at_is(self.src, p, 'n') && char_at_is(self.src, p + 1, 'u')
                    && char_at_is(self.src, p + 2, 'l') && char_at_is(self.src, p + 3, 'l') {
                    Token::Null
                } else if wlen == 5 && char_at_is(self.src, p, 'f') && char_at_is(self.src, p + 1, 'a')
                    && char_at_is(self.src, p + 2, 'l') && char_at_is(self.src, p + 3, 's')
                    && char_at_is(self.src, p + 4, 'e') {
                    Token::Bool(false)
                } else {
                    Token::Identifier(word)
                };
                self.tok_start_c = self.pos_c;
                self.tok_start_b = self.pos_b;
                self.tok_end_c = e.0;
                self.tok_end_b = e.1;
                self.pos_c = e.0;
                self.pos_b = e.1;
                return Some(Ok(tok));
            } else {
                let w = char_width(c);
                proof {
                    lemma_byte_of_step(s, pn);
                    lemma_byte_of_mono(s, pn + 1, s.len());
                }
                let t: Option<Token<'a>> = if c == '{' {
                    Some(Token::BraceOpen)
                } else if c == '}' {
                    Some(Token::BraceClose)
                } else if c == '[' {
                    Some(Token::BracketOpen)
                } else if c == ']' {
                    Some(Token::BracketClose)
                } else if c == ':' {
                    Some(Token::Colon)
                } else if c == ',' {
                    Some(Token::Comma)
                } else if c == '=' {
                    Some(Token::Equals)
                } else if c == ';' {
                    Some(Token::SemiColon)
                } else {
                    None
                };
                match t {
                    Some(tok) => {
                        self.tok_start_c = self.pos_c;
                        self.tok_start_b = self.pos_b;
                        self.tok_end_c = self.pos_c + 1;
                        self.tok_end_b = self.pos_b + w;
                        self.pos_c = self.pos_c + 1;
                        self.pos_b = self.pos_b + w;
                        return Some(Ok(tok));
                    },
                    None => {
                        let sp = Span { start: self.pos_b, end: self.pos_b + w };
                        self.pos_c = self.pos_c + 1;
                        self.pos_b = self.pos_b + w;
                        return Some(Err(LexError { kind: LexErrorKind::InvalidToken, span: sp }));
                    },
                }
            }
        }
    }
}

/// Whether the character at index `i` is `c`.
fn char_at_is(s: &str, i: usize, c: char) -> (b: bool)
    requires
        i < s@.len(),
    ensures
        b == (s@[i as int] == c),
{
    s.get_char(i) == c
}


pub proof fn lemma_exp_bounds(s: Seq<char>, p: nat)
    requires
        p <= s.len(),
    ensures
        match exp_end(s, p) {
            Some(e) => p < e <= s.len(),
            None => true,
        },
{
    if p < s.len() && is_exp_char(s[p as int]) {
        let q: nat = if p + 1 < s.len() && is_sign_char(s[(p + 1) as int]) {
            p + 2
        } else {
            p + 1
        };
        if q < s.len() && is_dec_digit(s[q as int]) {
            lemma_run_end(s, CharClass::DecDigits, q + 1);
        }
    }
}

pub proof fn lemma_suffix_bounds(s: Seq<char>, p: nat)
    requires
        p <= s.len(),
    ensures
        p <= suffix_opt(s, p) <= s.len(),
{
}

pub proof fn lemma_after_dot_bounds(s: Seq<char>, p: nat)
    requires
        p <= s.len(),
    ensures
        p <= after_dot(s, p) <= s.len(),
{
    let fr: nat = if p < s.len() && is_dec_digit(s[p as int]) {
        run_end(s, CharClass::DecDigits, p + 1)
    } else {
        p
    };
    if p < s.len() && is_dec_digit(s[p as int]) {
        lemma_run_end(s, CharClass::DecDigits, p + 1);
    }
    lemma_exp_bounds(s, fr);
    let ex: nat = match exp_end(s, fr) {
        Some(e) => e,
        None => fr,
    };
    lemma_suffix_bounds(s, ex);
}

pub proof fn lemma_float_bounds(s: Seq<char>, p: nat)
    requires
        p <= s.len(),
    ensures
        match float_from(s, p) {
            Some(e) => p < e <= s.len(),
            None => true,
        },
{
    let q: nat = if p < s.len() && is_sign_char(s[p as int]) {
        p + 1
    } else {
        p
    };
    if q < s.len() && is_dec_digit(s[q as int]) {
        lemma_run_end(s, CharClass::DecDigits, q + 1);
        let d_end = run_end(s, CharClass::DecDigits, q + 1);
        if d_end < s.len() && s[d_end as int] == '.' {
            lemma_after_dot_bounds(s, d_end + 1);
        } else {
            lemma_exp_bounds(s, d_end);
            match exp_end(s, d_end) {
                Some(e) => lemma_suffix_bounds(s, e),
                None => {},
            }
        }
    } else if q + 1 < s.len() && s[q as int] == '.' && is_dec_digit(s[(q + 1) as int]) {
        lemma_after_dot_bounds(s, q + 1);
    }
}

pub proof fn lemma_hex_mantissa_bounds(s: Seq<char>, p: nat)
    requires
        p <= s.len(),
    ensures
        match hex_mantissa_end(s, p) {
            Some(m) => p < m <= s.len(),
            None => true,
        },
{
    if p < s.len() && is_hex_digit(s[p as int]) {
        lemma_run_end(s, CharClass::HexDigits, p + 1);
        let h = run_end(s, CharClass::HexDigits, p + 1);
        if h < s.len() && s[h as int] == '.' {
            if h + 1 < s.len() && is_hex_digit(s[(h + 1) as int]) {
                lemma_run_end(s, CharClass::HexDigits, h + 2);
            }
        }
    } else if p + 1 < s.len() && s[p as int] == '.' && is_hex_digit(s[(p + 1) as int]) {
        lemma_run_end(s, CharClass::HexDigits, p + 2);
    }
}

pub proof fn lemma_hex_float_bounds(s: Seq<char>, p: nat)
    requires
        p <= s.len(),
    ensures
        match hex_float_end(s, p) {
            Some(e) => p < e <= s.len(),
            None => true,
        },
{
    lemma_hex_mantissa_bounds(s, p);
    match hex_mantissa_end(s, p) {
        Some(m) => {
            if m < s.len() && (s[m as int] == 'p' || s[m as int] == 'P') {
                let q: nat = if m + 1 < s.len() && is_sign_char(s[(m + 1) as int]) {
                    m + 2
                } else {
                    m + 1
                };
                if q < s.len() && is_dec_digit(s[q as int]) {
                    lemma_run_end(s, CharClass::DecDigits, q + 1);
                    lemma_suffix_bounds(s, run_end(s, CharClass::DecDigits, q + 1));
                }
            }
        },
        None => {},
    }
}

pub proof fn lemma_number_bounds(s: Seq<char>, p: nat)
    requires
        p < s.len(),
    ensures
        match number_step(s, p) {
            LexStep::Lexed(t, e) => p < e <= s.len(),
            LexStep::Fail(k, a, b) => p <= a < b <= s.len(),
            LexStep::Discard(q) => false,
        },
{
    lemma_run_end(s, CharClass::DecDigits, p + 1);
    lemma_float_bounds(s, p);
    if p + 2 <= s.len() {
        lemma_hex_float_bounds(s, p + 2);
    }
    if p + 2 < s.len() {
        lemma_run_end(s, CharClass::HexDigits, p + 3);
        lemma_run_end(s, CharClass::OctDigits, p + 3);
        lemma_run_end(s, CharClass::BinDigits, p + 3);
    }
}

pub proof fn lemma_lex_step_bounds(s: Seq<char>, p: nat)
    requires
        p < s.len(),
    ensures
        match lex_step(s, p) {
            LexStep::Discard(q) => p < q <= s.len(),
            LexStep::Lexed(t, e) => p < e <= s.len(),
            LexStep::Fail(k, a, b) => p <= a < b <= s.len(),
        },
{
    let c = s[p as int];
    if is_ws_char(c) {
        lemma_run_end(s, CharClass::Whitespace, p + 1);
    } else if c == '/' && p + 1 < s.len() && s[(p + 1) as int] == '/' {
        lemma_run_end(s, CharClass::CommentBody, p + 2);
    } else if is_dec_digit(c) {
        lemma_number_bounds(s, p);
    } else if is_sign_char(c) || c == '.' {
        lemma_float_bounds(s, p);
    } else if is_ident_start(c) {
        lemma_run_end(s, CharClass::IdentContinue, p + 1);
    }
}

pub proof fn lemma_next_token_bounds(s: Seq<char>, p: nat)
    requires
        p <= s.len(),
    ensures
        match next_token_at(s, p) {
            NextTok::Eof => true,
            NextTok::Lexed(t, a, b) => p <= a < b <= s.len(),
            NextTok::Fail(k, a, b) => p <= a < b <= s.len(),
        },
    decreases s.len() - p,
{
    if p < s.len() {
        lemma_lex_step_bounds(s, p);
        match lex_step(s, p) {
            LexStep::Discard(q) => lemma_next_token_bounds(s, q),
            LexStep::Lexed(t, e) => {},
            LexStep::Fail(k, a, b) => {},
        }
    }
}


/// What well-formedness guarantees about a lexer's positions.
pub proof fn lemma_lexer_wf<'a>(l: Lexer<'a>)
    requires
        l.wf(),
    ensures
        l.pos() <= l.source().len(),
        l.span_start() <= l.span_end(),
        l.span_end() <= l.source().len(),
{
}

} // verus!
