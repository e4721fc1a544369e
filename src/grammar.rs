use vstd::prelude::*;

use crate::ast::{value_span, EntryTree, Num, NodeTree, ValueTree};
use crate::error::{error_model, ErrorModel};
use crate::lexer::{digits_end, is_digit};
use crate::span::{span_union, Span};
use crate::token::{kind_name, Kind, Tok};

verus! {

// ---------------------------------------------------------------------------
// Number literals
// ---------------------------------------------------------------------------

pub open spec fn digit_value(c: char) -> int {
    (c as u32) as int - ('0' as u32) as int
}

/// The value of a run of decimal digits.
pub open spec fn digits_value(s: Seq<char>) -> int
    decreases s.len(),
{
    if s.len() == 0 {
        0
    } else {
        digits_value(s.drop_last()) * 10 + digit_value(s.last())
    }
}

pub open spec fn all_digits(s: Seq<char>) -> bool {
    s.len() > 0 && forall|i: int| 0 <= i < s.len() ==> '0' <= #[trigger] s[i] <= '9'
}

/// Whether a literal is read as a fraction rather than an integer.
pub open spec fn is_fraction_text(raw: Seq<char>) -> bool {
    raw.contains('.') || raw.contains('e') || raw.contains('E')
}

/// The text of a decimal fraction: an optional `-`, digits, a dot, digits.
pub open spec fn fraction_text(f: Seq<char>) -> bool {
    let s: int = if f.len() > 0 && f[0] == '-' { 1 } else { 0 };
    let d = digits_end(f, s);
    &&& s < d
    &&& d + 1 < f.len()
    &&& f[d] == '.'
    &&& is_digit(f[d + 1])
    &&& digits_end(f, d + 1) == f.len()
}

/// The length of an optional leading `+` or `-`.
pub open spec fn sign_len(f: Seq<char>) -> int {
    if f.len() > 0 && (f[0] == '-' || f[0] == '+') {
        1
    } else {
        0
    }
}

/// Where the digits, dot and digits of a float's mantissa that start at `s` end.
pub open spec fn mantissa_end(f: Seq<char>, s: int) -> int {
    let a = digits_end(f, s);
    if 0 <= a < f.len() && f[a] == '.' {
        digits_end(f, a + 1)
    } else {
        a
    }
}

/// From `b` on, `f` holds nothing, or an exponent: `e` or `E`, an optional
/// sign, and digits to the end.
pub open spec fn exponent_rest(f: Seq<char>, b: int) -> bool {
    b == f.len() || (0 <= b < f.len() && (f[b] == 'e' || f[b] == 'E') && {
        let c = if b + 1 < f.len() && (f[b + 1] == '+' || f[b + 1] == '-') {
            b + 2
        } else {
            b + 1
        };
        c < f.len() && digits_end(f, c) == f.len()
    })
}

/// Decimal float text: an optional sign; digits with an
/// optional dot and digits, or a dot and digits; then an optional exponent.
pub open spec fn float_text(f: Seq<char>) -> bool {
    let s = sign_len(f);
    let a = digits_end(f, s);
    let m = mantissa_end(f, s);
    &&& (s < a || a + 1 < m)
    &&& exponent_rest(f, m)
}

/// A fraction as the lexer makes it is float text.
pub proof fn lemma_fraction_is_float(f: Seq<char>)
    requires
        fraction_text(f),
    ensures
        float_text(f),
{
    let s: int = if f.len() > 0 && f[0] == '-' { 1 } else { 0 };
    if f.len() > 0 && f[0] == '+' {
        assert(digits_end(f, 0) == 0);
    }
    assert(sign_len(f) == s);
}

/// The integer that a literal denotes, if it is a well-formed integer literal.
pub open spec fn integer_text_value(raw: Seq<char>) -> Option<int> {
    if raw.len() > 0 && raw[0] == '-' {
        if all_digits(raw.drop_first()) {
            Some(-digits_value(raw.drop_first()))
        } else {
            None
        }
    } else if all_digits(raw) {
        Some(digits_value(raw))
    } else {
        None
    }
}

/// Converts the text of a number: text with a dot or an exponent mark must
/// be float text and keeps its text; an integer must be well formed and fit
/// in 64 signed bits.
pub open spec fn number_value(raw: Seq<char>, span: Span) -> Result<Num, ErrorModel> {
    if is_fraction_text(raw) {
        if float_text(raw) {
            Ok(Num::Float(raw))
        } else {
            Err(error_model("invalid float literal"@, span))
        }
    } else {
        match integer_text_value(raw) {
            Some(v) => if i64::MIN <= v <= i64::MAX {
                Ok(Num::Integer(v as i64))
            } else {
                Err(error_model("invalid integer literal"@, span))
            },
            None => Err(error_model("invalid integer literal"@, span)),
        }
    }
}

// ---------------------------------------------------------------------------
// The grammar over significant tokens
// ---------------------------------------------------------------------------

/// The kind of token `p`; past either end, end of input.
pub open spec fn kind_at(t: Seq<Tok>, p: int) -> Kind {
    if 0 <= p < t.len() {
        t[p].kind
    } else {
        Kind::Eof
    }
}

pub open spec fn span_at(t: Seq<Tok>, p: int) -> Span {
    if 0 <= p < t.len() {
        t[p].span
    } else if t.len() > 0 {
        t.last().span
    } else {
        Span { start: 0, end: 0 }
    }
}

/// A sequence of significant tokens as the grammar reads it: the last and
/// only the last is the end of input, and none is trivia.
pub open spec fn grammar_tokens(t: Seq<Tok>) -> bool {
    &&& t.len() > 0
    &&& t.last().kind is Eof
    &&& forall|i: int| 0 <= i < t.len() - 1 ==> !(#[trigger] t[i].kind is Eof)
    &&& forall|i: int|
        0 <= i < t.len() ==> !(#[trigger] t[i].kind is Newline) && !(t[i].kind is Comment)
}

/// What a parse step gives: its result, and where the cursor then rests.
pub type Step<T> = (Result<T, ErrorModel>, int);

/// The error of a step that made no progress; the grammar never takes it.
pub open spec fn stalled() -> ErrorModel {
    error_model(Seq::empty(), Span { start: 0, end: 0 })
}

pub open spec fn unexpected_value_message(k: Kind) -> Seq<char> {
    "unexpected token "@ + kind_name(k) + " while parsing value"@
}

/// `Value := String | Number | Bool | List | Object`, from token `p`.
pub open spec fn value_at(t: Seq<Tok>, p: int) -> Step<ValueTree>
    decreases t.len() - p, 0int,
{
    if p < 0 || p >= t.len() {
        (Err(stalled()), p)
    } else {
        let span = t[p].span;
        match t[p].kind {
            Kind::Str(s) => (Ok(ValueTree::Str(s, span)), p + 1),
            Kind::Number(raw) => match number_value(raw, span) {
                Ok(n) => (Ok(ValueTree::Num(n, span)), p + 1),
                Err(e) => (Err(e), p + 1),
            },
            Kind::Bool(b) => (Ok(ValueTree::Bool(b, span)), p + 1),
            Kind::LBracket => if kind_at(t, p + 1) is RBracket {
                (Ok(ValueTree::List(Seq::empty(), span_union(span, span_at(t, p + 1)))), p + 2)
            } else {
                list_items_at(t, p + 1, span, Seq::empty())
            },
            Kind::LBrace => if kind_at(t, p + 1) is RBrace {
                (Ok(ValueTree::Object(Seq::empty(), span_union(span, span_at(t, p + 1)))), p + 2)
            } else {
                object_items_at(t, p + 1, span, Seq::empty())
            },
            k => (Err(error_model(unexpected_value_message(k), span)), p),
        }
    }
}

/// The items of a list from token `q`, after `acc`; `open` is the span of `[`.
pub open spec fn list_items_at(t: Seq<Tok>, q: int, open: Span, acc: Seq<ValueTree>) -> Step<
    ValueTree,
>
    decreases t.len() - q, 1int,
{
    if q < 0 || q >= t.len() {
        (Err(stalled()), q)
    } else {
        let (r, q1) = value_at(t, q);
        match r {
            Err(e) => (Err(e), q1),
            Ok(v) => {
                let items = acc.push(v);
                if kind_at(t, q1) is Comma {
                    if kind_at(t, q1 + 1) is RBracket {
                        (Ok(ValueTree::List(items, span_union(open, span_at(t, q1 + 1)))), q1 + 2)
                    } else if q1 >= q {
                        list_items_at(t, q1 + 1, open, items)
                    } else {
                        (Err(stalled()), q1)
                    }
                } else if kind_at(t, q1) is RBracket {
                    (Ok(ValueTree::List(items, span_union(open, span_at(t, q1)))), q1 + 1)
                } else {
                    (Err(error_model("expected ']' to close list"@, span_at(t, q1))), q1)
                }
            },
        }
    }
}

/// The members of an object literal from token `q`, after `acc`.
pub open spec fn object_items_at(t: Seq<Tok>, q: int, open: Span, acc: Seq<EntryTree>) -> Step<
    ValueTree,
>
    decreases t.len() - q, 1int,
{
    if q < 0 || q >= t.len() {
        (Err(stalled()), q)
    } else if !(kind_at(t, q) is Ident) {
        (Err(error_model("expected key inside object"@, span_at(t, q))), q)
    } else if !(kind_at(t, q + 1) is Colon) {
        (Err(error_model("expected ':' after key in object"@, span_at(t, q + 1))), q + 1)
    } else {
        let (r, q1) = value_at(t, q + 2);
        match r {
            Err(e) => (Err(e), q1),
            Ok(v) => {
                let entry = EntryTree {
                    key: kind_at(t, q)->Ident_0,
                    value: v,
                    span: span_union(t[q].span, value_span(v)),
                };
                let entries = acc.push(entry);
                if kind_at(t, q1) is Comma {
                    if kind_at(t, q1 + 1) is RBrace {
                        (
                            Ok(ValueTree::Object(entries, span_union(open, span_at(t, q1 + 1)))),
                            q1 + 2,
                        )
                    } else if q1 >= q {
                        object_items_at(t, q1 + 1, open, entries)
                    } else {
                        (Err(stalled()), q1)
                    }
                } else if kind_at(t, q1) is RBrace {
                    (Ok(ValueTree::Object(entries, span_union(open, span_at(t, q1)))), q1 + 1)
                } else {
                    (Err(error_model("expected '}' to close object"@, span_at(t, q1))), q1)
                }
            },
        }
    }
}

/// `EntryOrBlock := Ident ( Block | ':' Value )`, from token `p`.
pub open spec fn entry_or_block_at(t: Seq<Tok>, p: int) -> Step<NodeTree>
    decreases t.len() - p, 2int,
{
    if p < 0 || p >= t.len() {
        (Err(stalled()), p)
    } else if !(kind_at(t, p) is Ident) {
        (Err(error_model("expected identifier"@, span_at(t, p))), p)
    } else {
        let name = kind_at(t, p)->Ident_0;
        let name_span = t[p].span;
        if kind_at(t, p + 1) is LBrace {
            block_items_at(t, p + 2, name, name_span, Seq::empty())
        } else if !(kind_at(t, p + 1) is Colon) {
            (Err(error_model("expected ':' after identifier"@, span_at(t, p + 1))), p + 1)
        } else {
            let (r, q) = value_at(t, p + 2);
            match r {
                Err(e) => (Err(e), q),
                Ok(v) => (Ok(NodeTree::Entry(name, v, span_union(name_span, value_span(v)))), q),
            }
        }
    }
}

/// The items of a block from token `q`, after `acc`.
pub open spec fn block_items_at(
    t: Seq<Tok>,
    q: int,
    name: Seq<char>,
    name_span: Span,
    acc: Seq<NodeTree>,
) -> Step<NodeTree>
    decreases t.len() - q, 3int,
{
    if q < 0 || q >= t.len() {
        (Err(stalled()), q)
    } else if kind_at(t, q) is RBrace {
        (Ok(NodeTree::Block(name, acc, span_union(name_span, t[q].span))), q + 1)
    } else if kind_at(t, q) is Eof {
        (Err(error_model("unterminated block"@, name_span)), q)
    } else {
        let (r, q1) = entry_or_block_at(t, q);
        match r {
            Err(e) => (Err(e), q1),
            Ok(n) => if q < q1 <= t.len() {
                block_items_at(t, q1, name, name_span, acc.push(n))
            } else {
                (Err(stalled()), q1)
            },
        }
    }
}

/// The items of a document from token `p`, after `acc`, stopping at the first error.
pub open spec fn document_items_at(t: Seq<Tok>, p: int, acc: Seq<NodeTree>) -> Result<
    Seq<NodeTree>,
    ErrorModel,
>
    decreases t.len() - p,
{
    if p < 0 || p >= t.len() || kind_at(t, p) is Eof {
        Ok(acc)
    } else {
        let (r, at1) = entry_or_block_at(t, p);
        match r {
            Err(e) => Err(e),
            Ok(n) => if p < at1 <= t.len() {
                document_items_at(t, at1, acc.push(n))
            } else {
                Err(stalled())
            },
        }
    }
}

/// The first index at or after `q` that holds an identifier, a closing
/// brace or the end of input.
pub open spec fn restart_point(t: Seq<Tok>, q: int) -> int
    decreases t.len() - q,
{
    if 0 <= q < t.len() && !(kind_at(t, q) is Ident || kind_at(t, q) is RBrace || kind_at(t, q) is Eof) {
        restart_point(t, q + 1)
    } else {
        q
    }
}

pub proof fn lemma_restart_point(t: Seq<Tok>, q: int)
    requires
        0 <= q <= t.len(),
    ensures
        q <= restart_point(t, q) <= t.len(),
    decreases t.len() - q,
{
    if q < t.len() && !(kind_at(t, q) is Ident || kind_at(t, q) is RBrace || kind_at(t, q) is Eof) {
        lemma_restart_point(t, q + 1);
    }
}

/// Where recovery resumes after an error detected at token `p`: one token
/// is dropped unconditionally, then tokens up to a safe restart point.
pub open spec fn synchronize_from(t: Seq<Tok>, p: int) -> int {
    if kind_at(t, p) is Eof {
        p
    } else {
        restart_point(t, p + 1)
    }
}

/// The items and errors of a document from token `p`, recovering after each error.
pub open spec fn recover_items_at(
    t: Seq<Tok>,
    p: int,
    acc: Seq<NodeTree>,
    errors: Seq<ErrorModel>,
) -> (Seq<NodeTree>, Seq<ErrorModel>)
    decreases t.len() - p,
{
    if p < 0 || p >= t.len() || kind_at(t, p) is Eof {
        (acc, errors)
    } else {
        let (r, at1) = entry_or_block_at(t, p);
        match r {
            Ok(n) => if p < at1 <= t.len() {
                recover_items_at(t, at1, acc.push(n), errors)
            } else {
                (acc, errors)
            },
            Err(e) => {
                let at2 = synchronize_from(t, at1);
                if p < at2 <= t.len() {
                    recover_items_at(t, at2, acc, errors.push(e))
                } else {
                    (acc, errors.push(e))
                }
            },
        }
    }
}

} // verus!
