//! Rendering a value tree back to text in the grammar: values in lists
//! separated by one space, bindings separated by commas, no trailing
//! separators.
//!
//! Only trees the grammar can produce render: no `String`, no `LetIn`, no
//! negative integers (the grammar has no signed integer literal).

use vstd::prelude::*;
use vstd::string::StrSliceExecFns;
use vstd::string::StringExecFns;
use crate::lexer::{
    class_holds, dec_val, float_from, is_dec_digit, lemma_run_chars, lemma_run_end, next_token_at,
    run_end, CharClass, NextTok, I64_MAX_VALUE,
};
use crate::parser::{parse_value_at, ParseOut};
use crate::token::TokenModel;
use crate::value::{value_model, Value};

verus! {

broadcast use {
    vstd::seq::axiom_seq_index_decreases,
    vstd::seq::axiom_seq_subrange_decreases,
    vstd::std_specs::vec::axiom_vec_decreases_to_view,
};

pub open spec fn digit_char(d: int) -> char {
    if d == 0 {
        '0'
    } else if d == 1 {
        '1'
    } else if d == 2 {
        '2'
    } else if d == 3 {
        '3'
    } else if d == 4 {
        '4'
    } else if d == 5 {
        '5'
    } else if d == 6 {
        '6'
    } else if d == 7 {
        '7'
    } else if d == 8 {
        '8'
    } else {
        '9'
    }
}

/// The decimal digits of `n`, most significant first.
pub open spec fn dec_digits(n: int) -> Seq<char>
    decreases n,
{
    if n < 10 {
        seq![digit_char(n)]
    } else {
        dec_digits(n / 10).push(digit_char(n % 10))
    }
}

/// The text a value renders to.
pub open spec fn rendered<'a>(v: Value<'a>) -> Seq<char>
    decreases v,
{
    match v {
        Value::Null => seq!['n', 'u', 'l', 'l'],
        Value::Bool(b) => if b {
            seq!['t', 'r', 'u', 'e']
        } else {
            seq!['f', 'a', 'l', 's', 'e']
        },
        Value::Integer(n) => dec_digits(n as int),
        Value::Float(t) => t@,
        Value::String(t) => t@,
        Value::List(vs) => seq!['['] + rendered_list(vs@) + seq![']'],
        Value::AttrSet(es) => seq!['{'] + rendered_entries(es@) + seq!['}'],
        Value::LetIn(es, b) => Seq::empty(),
    }
}

/// List elements, separated by exactly one space.
pub open spec fn rendered_list<'a>(s: Seq<Value<'a>>) -> Seq<char>
    decreases s,
{
    if s.len() == 0 {
        Seq::empty()
    } else if s.len() == 1 {
        rendered(s.last())
    } else {
        rendered_list(s.drop_last()) + seq![' '] + rendered(s.last())
    }
}

/// Bindings `key=value`, separated by commas, no trailing comma.
pub open spec fn rendered_entries<'a>(s: Seq<(&'a str, Value<'a>)>) -> Seq<char>
    decreases s,
{
    if s.len() == 0 {
        Seq::empty()
    } else if s.len() == 1 {
        s.last().0@ + seq!['='] + rendered(s.last().1)
    } else {
        rendered_entries(s.drop_last()) + seq![','] + s.last().0@ + seq!['='] + rendered(
            s.last().1,
        )
    }
}

/// Whether the grammar can express this tree: no `String` or `LetIn` nodes
/// and no negative integers.
pub open spec fn renderable<'a>(v: Value<'a>) -> bool
    decreases v,
{
    match v {
        Value::Null => true,
        Value::Bool(b) => true,
        Value::Integer(n) => n >= 0,
        Value::Float(t) => true,
        Value::String(t) => false,
        Value::List(vs) => forall|i: int| 0 <= i < vs@.len() ==> renderable(#[trigger] vs@[i]),
        Value::AttrSet(es) => forall|i: int|
            0 <= i < es@.len() ==> renderable(#[trigger] es@[i].1),
        Value::LetIn(es, b) => false,
    }
}

/// Appends the decimal digits of `n`.
fn render_int(n: u64, out: &mut String)
    ensures
        final(out)@ == old(out)@ + dec_digits(n as int),
    decreases n,
{
    if n >= 10 {
        render_int(n / 10, out);
    }
    let d = n % 10;
    let piece: &str = if d == 0 {
        "0"
    } else if d == 1 {
        "1"
    } else if d == 2 {
        "2"
    } else if d == 3 {
        "3"
    } else if d == 4 {
        "4"
    } else if d == 5 {
        "5"
    } else if d == 6 {
        "6"
    } else if d == 7 {
        "7"
    } else if d == 8 {
        "8"
    } else {
        "9"
    };
    proof {
        reveal_strlit("0");
        reveal_strlit("1");
        reveal_strlit("2");
        reveal_strlit("3");
        reveal_strlit("4");
        reveal_strlit("5");
        reveal_strlit("6");
        reveal_strlit("7");
        reveal_strlit("8");
        reveal_strlit("9");
        assert(piece@ =~= seq![digit_char(d as int)]);
        if n >= 10 {
            assert(dec_digits(n as int) =~= dec_digits(n as int / 10) + seq![
                digit_char(n as int % 10),
            ]);
        }
        assert(old(out)@ + dec_digits(n as int / 10) + seq![digit_char(n as int % 10)] =~= old(
            out,
        )@ + (dec_digits(n as int / 10) + seq![digit_char(n as int % 10)]));
    }
    out.append(piece);
}

/// Renders a tree to text in the grammar; reparsing that text recovers the
/// tree, element for element and binding for binding.
#[verifier::loop_isolation(false)]
#[verifier::rlimit(100)]
pub fn render<'a>(v: &Value<'a>) -> (r: String)
    requires
        renderable(*v),
    ensures
        r@ == rendered(*v),
    decreases *v,
{
    match v {
        Value::Null => {
            let r = String::from_str("null");
            proof {
                reveal_strlit("null");
                assert(r@ =~= rendered(*v));
            }
            r
        },
        Value::Bool(b) => {
            if *b {
                let r = String::from_str("true");
                proof {
                    reveal_strlit("true");
                    assert(r@ =~= rendered(*v));
                }
                r
            } else {
                let r = String::from_str("false");
                proof {
                    reveal_strlit("false");
                    assert(r@ =~= rendered(*v));
                }
                r
            }
        },
        Value::Integer(n) => {
            let mut out = String::new();
            render_int(*n as u64, &mut out);
            out
        },
        Value::Float(t) => String::from_str(t),
        Value::String(t) => {
            proof {
                assert(false);
            }
            String::new()
        },
        Value::List(vs) => {
            let mut out = String::from_str("[");
            proof {
                reveal_strlit("[");
                reveal_strlit("]");
                reveal_strlit(" ");
                assert(vs@.take(0) =~= Seq::<Value<'a>>::empty());
                assert(out@ =~= seq!['['] + rendered_list(vs@.take(0)));
            }
            let n = vs.len();
            let mut i: usize = 0;
            while i < n
                invariant
                    i <= n,
                    n == vs@.len(),
                    out@ == seq!['['] + rendered_list(vs@.take(i as int)),
                decreases n - i,
            {
                if i > 0 {
                    out.append(" ");
                }
                let piece = render(&vs[i]);
                out.append(piece.as_str());
                proof {
                    assert(vs@.take(i + 1).drop_last() =~= vs@.take(i as int));
                    assert(vs@.take(i + 1).last() == vs@[i as int]);
                    if i == 0 {
                        assert(out@ =~= seq!['['] + rendered_list(vs@.take(i + 1)));
                    } else {
                        assert(rendered_list(vs@.take(i + 1)) =~= rendered_list(vs@.take(i as int))
                            + seq![' '] + rendered(vs@[i as int]));
                        assert(out@ =~= seq!['['] + rendered_list(vs@.take(i + 1)));
                    }
                }
                i = i + 1;
            }
            out.append("]");
            proof {
                assert(vs@.take(n as int) =~= vs@);
                assert(out@ =~= rendered(*v));
            }
            out
        },
        Value::AttrSet(es) => {
            let mut out = String::from_str("{");
            proof {
                reveal_strlit("{");
                reveal_strlit("}");
                reveal_strlit(",");
                reveal_strlit("=");
                assert(es@.take(0) =~= Seq::<(&'a str, Value<'a>)>::empty());
                assert(out@ =~= seq!['{'] + rendered_entries(es@.take(0)));
            }
            let n = es.len();
            let mut i: usize = 0;
            while i < n
                invariant
                    i <= n,
                    n == es@.len(),
                    out@ == seq!['{'] + rendered_entries(es@.take(i as int)),
                decreases n - i,
            {
                if i > 0 {
                    out.append(",");
                }
                out.append(es[i].0);
                out.append("=");
                let piece = render(&es[i].1);
                out.append(piece.as_str());
                proof {
                    assert(es@.take(i + 1).drop_last() =~= es@.take(i as int));
                    assert(es@.take(i + 1).last() == es@[i as int]);
                    if i == 0 {
                        assert(out@ =~= seq!['{'] + rendered_entries(es@.take(i + 1)));
                    } else {
                        assert(rendered_entries(es@.take(i + 1)) =~= rendered_entries(
                            es@.take(i as int),
                        ) + seq![','] + es@[i as int].0@ + seq!['='] + rendered(es@[i as int].1));
                        assert(out@ =~= seq!['{'] + rendered_entries(es@.take(i + 1)));
                    }
                }
                i = i + 1;
            }
            out.append("}");
            proof {
                assert(es@.take(n as int) =~= es@);
                assert(out@ =~= rendered(*v));
            }
            out
        },
        Value::LetIn(es, b) => {
            proof {
                assert(false);
            }
            String::new()
        },
    }
}



/// Text that lexes as exactly one decimal float literal covering all of it.
pub open spec fn is_float_text(t: Seq<char>) -> bool {
    t.len() > 0 && float_from(t, 0) == Some(t.len() as nat)
}

proof fn lemma_run_all(s: Seq<char>, cls: CharClass, p: nat)
    requires
        p <= s.len(),
        forall|j: int| p <= j < s.len() ==> class_holds(cls, #[trigger] s[j]),
    ensures
        run_end(s, cls, p) == s.len(),
    decreases s.len() - p,
{
    if p < s.len() {
        lemma_run_all(s, cls, p + 1);
    }
}

proof fn lemma_digit_char_val(d: int)
    requires
        0 <= d <= 9,
    ensures
        is_dec_digit(digit_char(d)),
        digit_char(d) as u32 == 0x30 + d,
{
}

/// The digits of `n` are decimal digits and read back as `n`.
pub proof fn lemma_dec_digits(n: int)
    requires
        n >= 0,
    ensures
        dec_digits(n).len() >= 1,
        forall|j: int| 0 <= j < dec_digits(n).len() ==> is_dec_digit(#[trigger] dec_digits(n)[j]),
        dec_val(dec_digits(n)) == n,
    decreases n,
{
    let s = dec_digits(n);
    if n < 10 {
        lemma_digit_char_val(n);
        assert(s.drop_last() =~= Seq::<char>::empty());
        assert(dec_val(Seq::<char>::empty()) == 0);
        assert(s.last() == digit_char(n) && digit_char(n) != '_');
        assert(dec_val(s) == 0 * 10 + (digit_char(n) as u32 - 0x30));
    } else {
        lemma_dec_digits(n / 10);
        lemma_digit_char_val(n % 10);
        let prev = dec_digits(n / 10);
        assert(s.drop_last() =~= prev);
        assert(s.last() == digit_char(n % 10));
        assert(s.last() != '_');
        assert(dec_val(s) == dec_val(prev) * 10 + (digit_char(n % 10) as u32 - 0x30));
        assert(digit_char(n % 10) as u32 - 0x30 == n % 10);
        assert(n / 10 * 10 + n % 10 == n);
        assert forall|j: int| 0 <= j < s.len() implies is_dec_digit(#[trigger] s[j]) by {
            if j < s.len() - 1 {
                assert(s[j] == prev[j]);
            }
        }
    }
}

/// A run of decimal digits, alone, lexes as one integer token holding its
/// value.
proof fn lemma_lex_digits(s: Seq<char>)
    requires
        s.len() >= 1,
        forall|j: int| 0 <= j < s.len() ==> is_dec_digit(#[trigger] s[j]),
        dec_val(s) <= I64_MAX_VALUE,
    ensures
        next_token_at(s, 0) == NextTok::Lexed(TokenModel::Integer(dec_val(s)), 0, s.len() as nat),
{
    let c = s[0];
    assert(is_dec_digit(c));
    assert(forall|j: int|
        1 <= j < s.len() ==> class_holds(CharClass::DecDigits, #[trigger] s[j]));
    lemma_run_all(s, CharClass::DecDigits, 1);
    assert(s.subrange(0, s.len() as int) =~= s);
}

/// A valid float text, alone, lexes as one float token holding the text.
proof fn lemma_lex_float(s: Seq<char>)
    requires
        is_float_text(s),
    ensures
        next_token_at(s, 0) == NextTok::Lexed(TokenModel::Float(s), 0, s.len() as nat),
{
    let c = s[0];
    assert(s.subrange(0, s.len() as int) =~= s);
    if is_dec_digit(c) {
        // the digit run is shorter than the text, else no float shape fits
        lemma_run_end(s, CharClass::DecDigits, 1);
        let m = run_end(s, CharClass::DecDigits, 1);
        assert(m < s.len());
        // the character after the digit run keeps every radix shape out
        if s[0] == '0' && 1 < s.len() {
            if m >= 2 {
                lemma_run_chars(s, CharClass::DecDigits, 1, 1);
            }
        }
    }
}

/// Round trip for leaf values: rendering a `Null`, `Bool`, nonnegative
/// `Integer` or `Float` (with text in the float grammar) and parsing the
/// text back recovers exactly the value's model, with all input consumed.
#[verifier::rlimit(100)]
pub proof fn lemma_round_trip_scalar<'a>(v: Value<'a>)
    requires
        match v {
            Value::Null => true,
            Value::Bool(b) => true,
            Value::Integer(n) => n >= 0,
            Value::Float(t) => is_float_text(t@),
            _ => false,
        },
    ensures
        parse_value_at(rendered(v), 0, 0, 0) == ParseOut::Parsed(
            value_model(v),
            rendered(v).len() as nat,
        ),
{
    let s = rendered(v);
    match v {
        Value::Null => {
            assert(class_holds(CharClass::IdentContinue, s[1]));
            assert(class_holds(CharClass::IdentContinue, s[2]));
            assert(class_holds(CharClass::IdentContinue, s[3]));
            lemma_run_all(s, CharClass::IdentContinue, 1);
            assert(s.subrange(0, 4) =~= s);
        },
        Value::Bool(b) => {
            if b {
                assert(class_holds(CharClass::IdentContinue, s[1]));
                assert(class_holds(CharClass::IdentContinue, s[2]));
                assert(class_holds(CharClass::IdentContinue, s[3]));
                lemma_run_all(s, CharClass::IdentContinue, 1);
                assert(s.subrange(0, 4) =~= s);
            } else {
                assert(class_holds(CharClass::IdentContinue, s[1]));
                assert(class_holds(CharClass::IdentContinue, s[2]));
                assert(class_holds(CharClass::IdentContinue, s[3]));
                assert(class_holds(CharClass::IdentContinue, s[4]));
                lemma_run_all(s, CharClass::IdentContinue, 1);
                assert(s.subrange(0, 5) =~= s);
            }
        },
        Value::Integer(n) => {
            lemma_dec_digits(n as int);
            lemma_lex_digits(s);
        },
        Value::Float(t) => {
            lemma_lex_float(t@);
        },
        _ => {},
    }
}

} // verus!
