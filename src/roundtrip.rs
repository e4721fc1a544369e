//! Canonical text reads back: the printer's output lexes to canonical
//! tokens, parses to the same tree up to spans and the key order of object
//! literals, prints identically, and evaluates to the same value up to the
//! order of mapping members.

use vstd::prelude::*;

use crate::ast::{EntryTree, NodeTree, Num, ValueTree};
use crate::error::ErrorModel;
use crate::evaluator::{
    plain_body, plain_node, eval_body, eval_item, eval_items, eval_members, eval_value, member_keys, Members,
};
use crate::format::{
    entry_keys, escape_text, first_greater, format_tree, int_text, key_le, key_le_from,
    law_printed_integers_read_back, lemma_first_greater, lemma_nat_text, lemma_scan_escaped,
    lemma_sort_order, nat_text, number_text, print_items, print_members, print_node, print_nodes,
    print_value, separator, sort_order,
};
use crate::grammar::{
    fraction_text, block_items_at, document_items_at, entry_or_block_at, is_fraction_text, kind_at, list_items_at,
    object_items_at, value_at,
};
use crate::lexer::{
    char_span, digits_end, ident_end, ident_part, ident_start, is_digit, lemma_digits_end,
    lemma_ident_end, lemma_line_end, lemma_number_end, lemma_scan_string, lex_from, line_end,
    number_end, scan_string, starts_number, symbol_kind, word_kind, StrScan,
};
use crate::parser::{document_span, parse_tokens, significant};
use crate::token::{is_trivia_kind, tok, Kind, Tok};
use crate::value::{has_key, Val};

verus! {

pub open spec fn kinds(ts: Seq<Tok>) -> Seq<Kind> {
    ts.map_values(|t: Tok| t.kind)
}

/// The kinds of the significant tokens among `ts`.
pub open spec fn sig_kinds(ts: Seq<Tok>) -> Seq<Kind> {
    kinds(significant(ts))
}

pub open spec fn lift(z: Seq<Tok>, r: Result<Seq<Tok>, ErrorModel>) -> Result<Seq<Tok>, ErrorModel> {
    match r {
        Ok(ts) => Ok(z + ts),
        Err(e) => Err(e),
    }
}

/// The tokens from index `i` on.
pub open spec fn lex_tail(cs: Seq<char>, i: int) -> Result<Seq<Tok>, ErrorModel> {
    lex_from(cs, i, Seq::empty())
}

proof fn lemma_lift_push(acc: Seq<Tok>, x: Tok, r: Result<Seq<Tok>, ErrorModel>)
    ensures
        lift(acc.push(x), r) == lift(acc, lift(seq![x], r)),
{
    match r {
        Ok(ts) => {
            assert(acc.push(x) + ts =~= acc + (seq![x] + ts));
        },
        Err(_) => {},
    }
}

/// Scanning after tokens `acc` gives `acc` followed by what scanning alone gives.
proof fn lemma_lex_acc(cs: Seq<char>, i: int, acc: Seq<Tok>)
    requires
        0 <= i,
    ensures
        lex_from(cs, i, acc) == lift(acc, lex_tail(cs, i)),
    decreases cs.len() - i,
{
    if i < cs.len() {
        lemma_line_end(cs, i + 1);
        lemma_ident_end(cs, i + 1);
        lemma_number_end(cs, i);
        lemma_scan_string(cs, i + 1, Seq::empty());
        let c = cs[i];
        let e = Seq::<Tok>::empty();
        if c == ' ' || c == '\t' || c == '\x0c' {
            lemma_lex_acc(cs, i + 1, acc);
        } else if c == '\r' {
            let j = if i + 1 < cs.len() && cs[i + 1] == '\n' { i + 2 } else { i + 1 };
            let x = tok(Kind::Newline, char_span(cs, i, j));
            lemma_lex_acc(cs, j, acc.push(x));
            lemma_lex_acc(cs, j, e.push(x));
            lemma_lift_push(acc, x, lex_tail(cs, j));
            assert(e.push(x) =~= seq![x]);
        } else if c == '\n' {
            let x = tok(Kind::Newline, char_span(cs, i, i + 1));
            lemma_lex_acc(cs, i + 1, acc.push(x));
            lemma_lex_acc(cs, i + 1, e.push(x));
            lemma_lift_push(acc, x, lex_tail(cs, i + 1));
            assert(e.push(x) =~= seq![x]);
        } else if c == '#' {
            let j = line_end(cs, i + 1);
            let x = tok(Kind::Comment(cs.subrange(i, j)), char_span(cs, i, j));
            lemma_lex_acc(cs, j, acc.push(x));
            lemma_lex_acc(cs, j, e.push(x));
            lemma_lift_push(acc, x, lex_tail(cs, j));
            assert(e.push(x) =~= seq![x]);
        } else if symbol_kind(c) is Some {
            let x = tok(symbol_kind(c)->Some_0, char_span(cs, i, i + 1));
            lemma_lex_acc(cs, i + 1, acc.push(x));
            lemma_lex_acc(cs, i + 1, e.push(x));
            lemma_lift_push(acc, x, lex_tail(cs, i + 1));
            assert(e.push(x) =~= seq![x]);
        } else if c == '"' {
            match scan_string(cs, i + 1, Seq::empty()) {
                StrScan::Closed(v, j) => {
                    let x = tok(Kind::Str(v), char_span(cs, i, j));
                    lemma_lex_acc(cs, j, acc.push(x));
                    lemma_lex_acc(cs, j, e.push(x));
                    lemma_lift_push(acc, x, lex_tail(cs, j));
                    assert(e.push(x) =~= seq![x]);
                },
                _ => {},
            }
        } else if ident_start(c) {
            let j = ident_end(cs, i + 1);
            let x = tok(word_kind(cs.subrange(i, j)), char_span(cs, i, j));
            lemma_lex_acc(cs, j, acc.push(x));
            lemma_lex_acc(cs, j, e.push(x));
            lemma_lift_push(acc, x, lex_tail(cs, j));
            assert(e.push(x) =~= seq![x]);
        } else if starts_number(cs, i) {
            let j = number_end(cs, i);
            let x = tok(Kind::Number(cs.subrange(i, j)), char_span(cs, i, j));
            lemma_lex_acc(cs, j, acc.push(x));
            lemma_lex_acc(cs, j, e.push(x));
            lemma_lift_push(acc, x, lex_tail(cs, j));
            assert(e.push(x) =~= seq![x]);
        }
    } else {
        let n = cs.len() as int;
        let x = tok(Kind::Eof, char_span(cs, n, n));
        assert(acc.push(x) =~= acc + Seq::<Tok>::empty().push(x));
    }
}

proof fn lemma_significant_concat(a: Seq<Tok>, b: Seq<Tok>)
    ensures
        significant(a + b) == significant(a) + significant(b),
    decreases b.len(),
{
    if b.len() == 0 {
        assert(a + b =~= a);
        assert(significant(a) + significant(b) =~= significant(a));
    } else {
        lemma_significant_concat(a, b.drop_last());
        assert((a + b).drop_last() =~= a + b.drop_last());
        assert((a + b).last() == b.last());
        if is_trivia_kind(b.last().kind) {
        } else {
            assert(significant(a) + significant(b.drop_last()).push(b.last()) =~= (significant(a)
                + significant(b.drop_last())).push(b.last()));
        }
    }
}

proof fn lemma_sig_kinds_concat(a: Seq<Tok>, b: Seq<Tok>)
    ensures
        sig_kinds(a + b) == sig_kinds(a) + sig_kinds(b),
{
    lemma_significant_concat(a, b);
    assert(kinds(significant(a) + significant(b)) =~= kinds(significant(a)) + kinds(significant(b)));
}

/// Scanning from `i` reaches `j` having produced significant tokens of kinds `ks`.
pub open spec fn region(cs: Seq<char>, i: int, j: int, ks: Seq<Kind>) -> bool {
    &&& (lex_tail(cs, i) is Ok <==> lex_tail(cs, j) is Ok)
    &&& lex_tail(cs, j) is Ok ==> sig_kinds(lex_tail(cs, i)->Ok_0) == ks + sig_kinds(
        lex_tail(cs, j)->Ok_0,
    )
}

proof fn lemma_region_chain(cs: Seq<char>, i: int, j: int, k: int, a: Seq<Kind>, b: Seq<Kind>)
    requires
        region(cs, i, j, a),
        region(cs, j, k, b),
    ensures
        region(cs, i, k, a + b),
{
    if lex_tail(cs, k) is Ok {
        assert(a + (b + sig_kinds(lex_tail(cs, k)->Ok_0)) =~= (a + b) + sig_kinds(
            lex_tail(cs, k)->Ok_0,
        ));
    }
}

proof fn lemma_region_token(cs: Seq<char>, i: int, j: int, x: Tok)
    requires
        0 <= j,
        lex_tail(cs, i) == lex_from(cs, j, seq![x]),
    ensures
        region(cs, i, j, if is_trivia_kind(x.kind) { Seq::empty() } else { seq![x.kind] }),
{
    lemma_lex_acc(cs, j, seq![x]);
    if lex_tail(cs, j) is Ok {
        lemma_sig_kinds_concat(seq![x], lex_tail(cs, j)->Ok_0);
        assert(seq![x].drop_last() =~= Seq::<Tok>::empty());
        assert(significant(Seq::<Tok>::empty()) == Seq::<Tok>::empty());
        if is_trivia_kind(x.kind) {
            assert(sig_kinds(seq![x]) =~= Seq::<Kind>::empty());
        } else {
            assert(sig_kinds(seq![x]) =~= seq![x.kind]);
        }
    }
}

proof fn lemma_region_empty(cs: Seq<char>, i: int)
    ensures
        region(cs, i, i, Seq::empty()),
{
    if lex_tail(cs, i) is Ok {
        assert(Seq::<Kind>::empty() + sig_kinds(lex_tail(cs, i)->Ok_0) =~= sig_kinds(
            lex_tail(cs, i)->Ok_0,
        ));
    }
}

/// Spaces produce no tokens.
proof fn lemma_region_spaces(cs: Seq<char>, i: int, j: int)
    requires
        0 <= i <= j <= cs.len(),
        forall|k: int| i <= k < j ==> cs[k] == ' ',
    ensures
        region(cs, i, j, Seq::empty()),
    decreases j - i,
{
    if i < j {
        lemma_region_spaces(cs, i + 1, j);
        assert(lex_tail(cs, i) == lex_tail(cs, i + 1));
        lemma_region_empty(cs, i);
    } else {
        lemma_region_empty(cs, i);
    }
}

/// A line break is trivia.
proof fn lemma_region_newline(cs: Seq<char>, i: int)
    requires
        0 <= i < cs.len(),
        cs[i] == '\n',
    ensures
        region(cs, i, i + 1, Seq::empty()),
{
    let x = tok(Kind::Newline, char_span(cs, i, i + 1));
    assert(lex_tail(cs, i) == lex_from(cs, i + 1, Seq::<Tok>::empty().push(x)));
    assert(Seq::<Tok>::empty().push(x) =~= seq![x]);
    lemma_region_token(cs, i, i + 1, x);
}

/// A structural character is one token.
proof fn lemma_region_symbol(cs: Seq<char>, i: int)
    requires
        0 <= i < cs.len(),
        symbol_kind(cs[i]) is Some,
    ensures
        region(cs, i, i + 1, seq![symbol_kind(cs[i])->Some_0]),
{
    let x = tok(symbol_kind(cs[i])->Some_0, char_span(cs, i, i + 1));
    assert(lex_tail(cs, i) == lex_from(cs, i + 1, Seq::<Tok>::empty().push(x)));
    assert(Seq::<Tok>::empty().push(x) =~= seq![x]);
    lemma_region_token(cs, i, i + 1, x);
}


/// An identifier's text: a letter or `_`, then letters, digits, `_`, `.`, `-`.
pub open spec fn word_text(w: Seq<char>) -> bool {
    &&& w.len() > 0
    &&& ident_start(w[0])
    &&& forall|m: int| 0 <= m < w.len() ==> ident_part(#[trigger] w[m])
}

/// The text of a number token: an optional `-`, digits, and optionally a
/// dot followed by digits.
pub open spec fn number_text_shape(f: Seq<char>) -> bool {
    let s: int = if f.len() > 0 && f[0] == '-' { 1 } else { 0 };
    let d = digits_end(f, s);
    &&& s < d
    &&& (d == f.len() || (f[d] == '.' && d + 1 < f.len() && is_digit(f[d + 1]) && digits_end(
        f,
        d + 1,
    ) == f.len()))
}

proof fn lemma_fraction_text(f: Seq<char>)
    requires
        fraction_text(f),
    ensures
        number_text_shape(f),
        f.contains('.'),
        is_fraction_text(f),
{
    let s: int = if f.len() > 0 && f[0] == '-' { 1 } else { 0 };
    let d = digits_end(f, s);
    assert(f[d] == '.');
}

/// Text placed at `i` in `cs`.
pub open spec fn placed(cs: Seq<char>, i: int, w: Seq<char>) -> bool {
    0 <= i && i + w.len() <= cs.len() && cs.subrange(i, i + w.len()) == w
}

proof fn lemma_placed_char(cs: Seq<char>, i: int, w: Seq<char>, m: int)
    requires
        placed(cs, i, w),
        0 <= m < w.len(),
    ensures
        cs[i + m] == w[m],
{
    assert(cs.subrange(i, i + w.len())[m] == w[m]);
}

/// Text placed at `i` as `a + b` places `a` at `i` and `b` right after it.
proof fn lemma_placed_split(cs: Seq<char>, i: int, a: Seq<char>, b: Seq<char>)
    requires
        placed(cs, i, a + b),
    ensures
        placed(cs, i, a),
        placed(cs, i + a.len(), b),
{
    assert forall|m: int| 0 <= m < a.len() implies cs.subrange(i, i + a.len())[m] == a[m] by {
        lemma_placed_char(cs, i, a + b, m);
    }
    assert(cs.subrange(i, i + a.len()) =~= a);
    assert forall|m: int| 0 <= m < b.len() implies cs.subrange(i + a.len(), i + a.len() + b.len())[m]
        == b[m] by {
        lemma_placed_char(cs, i, a + b, a.len() + m);
    }
    assert(cs.subrange(i + a.len(), i + a.len() + b.len()) =~= b);
}

proof fn lemma_ident_end_at(cs: Seq<char>, k: int, end: int)
    requires
        0 <= k <= end <= cs.len(),
        forall|m: int| k <= m < end ==> ident_part(#[trigger] cs[m]),
        end == cs.len() || !ident_part(cs[end]),
    ensures
        ident_end(cs, k) == end,
    decreases end - k,
{
    if k < end {
        lemma_ident_end_at(cs, k + 1, end);
    }
}

proof fn lemma_digits_end_shift(cs: Seq<char>, i: int, f: Seq<char>, k: int)
    requires
        placed(cs, i, f),
        0 <= k <= f.len(),
        i + f.len() == cs.len() || !is_digit(cs[i + f.len()]),
    ensures
        digits_end(cs, i + k) == i + digits_end(f, k),
    decreases f.len() - k,
{
    if k < f.len() {
        lemma_placed_char(cs, i, f, k);
        if is_digit(f[k]) {
            lemma_digits_end_shift(cs, i, f, k + 1);
        }
    }
}

/// A word followed by a character that cannot continue it is one token.
proof fn lemma_region_word(cs: Seq<char>, i: int, w: Seq<char>)
    requires
        placed(cs, i, w),
        word_text(w),
        i + w.len() == cs.len() || !ident_part(cs[i + w.len()]),
    ensures
        region(cs, i, i + w.len(), seq![word_kind(w)]),
{
    let end = i + w.len();
    assert forall|m: int| i + 1 <= m < end implies ident_part(#[trigger] cs[m]) by {
        lemma_placed_char(cs, i, w, m - i);
    }
    lemma_ident_end_at(cs, i + 1, end);
    lemma_placed_char(cs, i, w, 0);
    let x = tok(word_kind(cs.subrange(i, end)), char_span(cs, i, end));
    assert(lex_tail(cs, i) == lex_from(cs, end, Seq::<Tok>::empty().push(x)));
    assert(Seq::<Tok>::empty().push(x) =~= seq![x]);
    lemma_region_token(cs, i, end, x);
}

/// A number's text followed by neither a digit nor a dot is one token.
proof fn lemma_region_number(cs: Seq<char>, i: int, f: Seq<char>)
    requires
        placed(cs, i, f),
        number_text_shape(f),
        i + f.len() == cs.len() || (!is_digit(cs[i + f.len()]) && cs[i + f.len()] != '.'),
    ensures
        region(cs, i, i + f.len(), seq![Kind::Number(f)]),
{
    let end = i + f.len();
    let s: int = if f.len() > 0 && f[0] == '-' { 1 } else { 0 };
    lemma_digits_end(f, s);
    lemma_digits_end(f, 1);
    let d = digits_end(f, s);
    lemma_placed_char(cs, i, f, 0);
    lemma_placed_char(cs, i, f, s);
    if s == 1 {
        lemma_placed_char(cs, i, f, 1);
    }
    lemma_digits_end_shift(cs, i, f, 1);
    assert(digits_end(f, 1) == d);
    if d < f.len() {
        lemma_placed_char(cs, i, f, d);
        lemma_placed_char(cs, i, f, d + 1);
        lemma_digits_end_shift(cs, i, f, d + 1);
    }
    assert(number_end(cs, i) == end);
    assert(starts_number(cs, i));
    assert(cs.subrange(i, end) == f);
    let x = tok(Kind::Number(f), char_span(cs, i, end));
    assert(lex_tail(cs, i) == lex_from(cs, end, Seq::<Tok>::empty().push(x)));
    assert(Seq::<Tok>::empty().push(x) =~= seq![x]);
    lemma_region_token(cs, i, end, x);
}

/// A quoted, escaped string is one token holding the same characters.
proof fn lemma_region_string(cs: Seq<char>, i: int, s: Seq<char>)
    requires
        placed(cs, i, seq!['"'] + escape_text(s) + seq!['"']),
    ensures
        region(cs, i, i + escape_text(s).len() + 2, seq![Kind::Str(s)]),
{
    let e = escape_text(s);
    lemma_placed_split(cs, i, seq!['"'] + e, seq!['"']);
    lemma_placed_split(cs, i, seq!['"'], e);
    lemma_placed_char(cs, i, seq!['"'], 0);
    lemma_placed_char(cs, i + 1 + e.len(), seq!['"'], 0);
    lemma_scan_escaped(cs, i + 1, Seq::empty(), s);
    assert(Seq::<char>::empty() + s =~= s);
    let end = i + e.len() + 2;
    let x = tok(Kind::Str(s), char_span(cs, i, end));
    assert(lex_tail(cs, i) == lex_from(cs, end, Seq::<Tok>::empty().push(x)));
    assert(Seq::<Tok>::empty().push(x) =~= seq![x]);
    lemma_region_token(cs, i, end, x);
}


// ---------------------------------------------------------------------------
// The tokens of canonical text
// ---------------------------------------------------------------------------

pub open spec fn sep_kinds(n: int, len: int) -> Seq<Kind> {
    if n < len {
        seq![Kind::Comma]
    } else {
        Seq::empty()
    }
}

/// The kinds of the significant tokens of a printed value.
pub open spec fn value_kinds(v: ValueTree) -> Seq<Kind>
    decreases v, 0int,
{
    match v {
        ValueTree::Str(s, _) => seq![Kind::Str(s)],
        ValueTree::Num(n, _) => seq![Kind::Number(number_text(n))],
        ValueTree::Bool(b, _) => seq![Kind::Bool(b)],
        ValueTree::List(items, _) => if items.len() == 0 {
            seq![Kind::LBracket, Kind::RBracket]
        } else {
            seq![Kind::LBracket] + items_kinds(items, items.len() as int) + seq![Kind::RBracket]
        },
        ValueTree::Object(es, _) => if es.len() == 0 {
            seq![Kind::LBrace, Kind::RBrace]
        } else {
            seq![Kind::LBrace] + members_kinds(
                es,
                sort_order(entry_keys(es), es.len() as int),
                es.len() as int,
            ) + seq![Kind::RBrace]
        },
    }
}

pub open spec fn items_kinds(items: Seq<ValueTree>, n: int) -> Seq<Kind>
    decreases items, n,
{
    if n <= 0 || n > items.len() {
        Seq::empty()
    } else {
        items_kinds(items, n - 1) + value_kinds(items[n - 1]) + sep_kinds(n, items.len() as int)
    }
}

pub open spec fn members_kinds(es: Seq<EntryTree>, order: Seq<usize>, n: int) -> Seq<Kind>
    decreases es, n,
{
    if n <= 0 || n > order.len() {
        Seq::empty()
    } else {
        let j = order[n - 1] as int;
        if 0 <= j < es.len() {
            members_kinds(es, order, n - 1) + seq![Kind::Ident(es[j].key), Kind::Colon]
                + value_kinds(es[j].value) + sep_kinds(n, order.len() as int)
        } else {
            members_kinds(es, order, n - 1)
        }
    }
}

pub open spec fn node_kinds(n: NodeTree) -> Seq<Kind>
    decreases n, 0int,
{
    match n {
        NodeTree::Entry(k, v, _) => seq![Kind::Ident(k), Kind::Colon] + value_kinds(v),
        NodeTree::Block(name, body, _) => seq![Kind::Ident(name), Kind::LBrace] + nodes_kinds(
            body,
            body.len() as int,
        ) + seq![Kind::RBrace],
        NodeTree::Document(body, _) => nodes_kinds(body, body.len() as int),
    }
}

pub open spec fn nodes_kinds(ns: Seq<NodeTree>, n: int) -> Seq<Kind>
    decreases ns, n,
{
    if n <= 0 || n > ns.len() {
        Seq::empty()
    } else {
        nodes_kinds(ns, n - 1) + node_kinds(ns[n - 1])
    }
}

/// A key as the grammar reads it: an identifier other than `true` and `false`.
pub open spec fn key_text(k: Seq<char>) -> bool {
    word_text(k) && k != "true"@ && k != "false"@
}

/// A value as the parser builds it: object keys are identifiers, and a
/// fraction keeps the text of a number token with a dot.
pub open spec fn value_ok(v: ValueTree) -> bool
    decreases v,
{
    match v {
        ValueTree::Num(Num::Float(f), _) => fraction_text(f),
        ValueTree::List(items, _) => forall|i: int|
            0 <= i < items.len() ==> value_ok(#[trigger] items[i]),
        ValueTree::Object(es, _) => es.len() <= usize::MAX && entries_ok(es),
        _ => true,
    }
}

/// Every member has an identifier key and a value as the parser builds it.
pub open spec fn entries_ok(es: Seq<EntryTree>) -> bool
    decreases es,
{
    forall|i: int| 0 <= i < es.len() ==> key_text(#[trigger] es[i].key) && value_ok(es[i].value)
}

/// An item as the parser builds it.
pub open spec fn node_ok(n: NodeTree) -> bool
    decreases n,
{
    match n {
        NodeTree::Entry(k, v, _) => key_text(k) && value_ok(v),
        NodeTree::Block(name, body, _) => key_text(name) && body_ok(body),
        NodeTree::Document(_, _) => false,
    }
}

/// Every item of a body is as the parser builds it.
pub open spec fn body_ok(ns: Seq<NodeTree>) -> bool
    decreases ns,
{
    forall|i: int| 0 <= i < ns.len() ==> node_ok(#[trigger] ns[i])
}

pub open spec fn spaces(p: Seq<char>) -> bool {
    forall|k: int| 0 <= k < p.len() ==> p[k] == ' '
}

proof fn lemma_literals()
    ensures
        "\""@ == seq!['"'],
        "true"@ == seq!['t', 'r', 'u', 'e'],
        "false"@ == seq!['f', 'a', 'l', 's', 'e'],
        "[]"@ == seq!['[', ']'],
        "{}"@ == seq!['{', '}'],
        "[\n"@ == seq!['[', '\n'],
        "{\n"@ == seq!['{', '\n'],
        "]"@ == seq![']'],
        "}"@ == seq!['}'],
        ","@ == seq![','],
        "\n"@ == seq!['\n'],
        ": "@ == seq![':', ' '],
        " {\n"@ == seq![' ', '{', '\n'],
        "}\n"@ == seq!['}', '\n'],
        "    "@ == seq![' ', ' ', ' ', ' '],
{
    reveal_strlit("\"");
    reveal_strlit("true");
    reveal_strlit("false");
    reveal_strlit("[]");
    reveal_strlit("{}");
    reveal_strlit("[\n");
    reveal_strlit("{\n");
    reveal_strlit("]");
    reveal_strlit("}");
    reveal_strlit(",");
    reveal_strlit("\n");
    reveal_strlit(": ");
    reveal_strlit(" {\n");
    reveal_strlit("}\n");
    reveal_strlit("    ");
    assert("\""@ =~= seq!['"']);
    assert("true"@ =~= seq!['t', 'r', 'u', 'e']);
    assert("false"@ =~= seq!['f', 'a', 'l', 's', 'e']);
    assert("[]"@ =~= seq!['[', ']']);
    assert("{}"@ =~= seq!['{', '}']);
    assert("[\n"@ =~= seq!['[', '\n']);
    assert("{\n"@ =~= seq!['{', '\n']);
    assert("]"@ =~= seq![']']);
    assert("}"@ =~= seq!['}']);
    assert(","@ =~= seq![',']);
    assert("\n"@ =~= seq!['\n']);
    assert(": "@ =~= seq![':', ' ']);
    assert(" {\n"@ =~= seq![' ', '{', '\n']);
    assert("}\n"@ =~= seq!['}', '\n']);
    assert("    "@ =~= seq![' ', ' ', ' ', ' ']);
}

proof fn lemma_int_shape(x: int)
    ensures
        number_text_shape(int_text(x)),
        !int_text(x).contains('.'),
{
    let t = int_text(x);
    let m: nat = if x < 0 { (-x) as nat } else { x as nat };
    lemma_nat_text(m);
    let s: int = if t.len() > 0 && t[0] == '-' { 1 } else { 0 };
    if x < 0 {
        assert(t.drop_first() =~= nat_text(m));
        assert(s == 1);
    } else {
        assert(t == nat_text(m));
        assert(s == 0);
    }
    assert forall|k: int| s <= k < t.len() implies is_digit(#[trigger] t[k]) by {
        if x < 0 {
            assert(t[k] == nat_text(m)[k - 1]);
        }
    }
    lemma_digits_all(t, s);
    assert(!t.contains('.')) by {
        if t.contains('.') {
            let k = choose|k: int| 0 <= k < t.len() && t[k] == '.';
            if x < 0 && k == 0 {
            } else {
                assert(is_digit(t[k]));
            }
        }
    }
}

proof fn lemma_digits_all(t: Seq<char>, k: int)
    requires
        0 <= k <= t.len(),
        forall|m: int| k <= m < t.len() ==> is_digit(#[trigger] t[m]),
    ensures
        digits_end(t, k) == t.len(),
    decreases t.len() - k,
{
    if k < t.len() {
        lemma_digits_all(t, k + 1);
    }
}


// ---------------------------------------------------------------------------
// Lexing canonical text
// ---------------------------------------------------------------------------

proof fn lemma_spaces_more(pad: Seq<char>)
    requires
        spaces(pad),
    ensures
        spaces(pad + "    "@),
{
    lemma_literals();
    assert forall|k: int| 0 <= k < (pad + "    "@).len() implies (pad + "    "@)[k] == ' ' by {
        if k >= pad.len() {
            assert((pad + "    "@)[k] == "    "@[k - pad.len()]);
        }
    }
}

proof fn lemma_region_pad(cs: Seq<char>, i: int, pad: Seq<char>)
    requires
        placed(cs, i, pad),
        spaces(pad),
    ensures
        region(cs, i, i + pad.len(), Seq::empty()),
{
    assert forall|k: int| i <= k < i + pad.len() implies cs[k] == ' ' by {
        lemma_placed_char(cs, i, pad, k - i);
    }
    lemma_region_spaces(cs, i, i + pad.len());
}

/// A separator, then a line break: a comma token or nothing.
proof fn lemma_region_separator_line(cs: Seq<char>, i: int, n: int, len: int)
    requires
        placed(cs, i, separator(n, len) + "\n"@),
    ensures
        region(cs, i, i + separator(n, len).len() + 1, sep_kinds(n, len)),
        i + separator(n, len).len() < cs.len(),
        cs[i] == ',' || cs[i] == '\n',
{
    lemma_literals();
    let sp = separator(n, len);
    lemma_placed_split(cs, i, sp, "\n"@);
    lemma_placed_char(cs, i + sp.len(), "\n"@, 0);
    lemma_region_newline(cs, i + sp.len());
    if n < len {
        lemma_placed_char(cs, i, sp, 0);
        lemma_region_symbol(cs, i);
        lemma_region_chain(cs, i, i + 1, i + 2, seq![Kind::Comma], Seq::empty());
        assert(seq![Kind::Comma] + Seq::<Kind>::empty() =~= sep_kinds(n, len));
    } else {
        assert(sp.len() == 0);
        assert(Seq::<Kind>::empty() =~= sep_kinds(n, len));
    }
}

proof fn lemma_lex_value(cs: Seq<char>, i: int, v: ValueTree, pad: Seq<char>)
    requires
        value_ok(v),
        spaces(pad),
        placed(cs, i, print_value(v, pad)),
        i + print_value(v, pad).len() < cs.len(),
        cs[i + print_value(v, pad).len()] == ',' || cs[i + print_value(v, pad).len()] == '\n',
    ensures
        region(cs, i, i + print_value(v, pad).len(), value_kinds(v)),
    decreases v, 0int,
{
    lemma_literals();
    let pv = print_value(v, pad);
    match v {
        ValueTree::Str(s, _) => {
            assert(pv == seq!['"'] + escape_text(s) + seq!['"']);
            lemma_region_string(cs, i, s);
        },
        ValueTree::Num(n, _) => {
            match n {
                Num::Integer(x) => {
                    lemma_int_shape(x as int);
                },
                Num::Float(f) => {
                    lemma_fraction_text(f);
                },
            }
            lemma_region_number(cs, i, number_text(n));
        },
        ValueTree::Bool(b, _) => {
            let w = if b { "true"@ } else { "false"@ };
            assert(word_text(w));
            lemma_region_word(cs, i, w);
        },
        ValueTree::List(items, span) => {
            lemma_lex_list(cs, i, items, span, pad);
        },
        ValueTree::Object(es, span) => {
            lemma_lex_object(cs, i, es, span, pad);
        },
    }
}

proof fn lemma_lex_list(cs: Seq<char>, i: int, items: Seq<ValueTree>, span: crate::span::Span, pad: Seq<char>)
    requires
        value_ok(ValueTree::List(items, span)),
        spaces(pad),
        placed(cs, i, print_value(ValueTree::List(items, span), pad)),
    ensures
        region(
            cs,
            i,
            i + print_value(ValueTree::List(items, span), pad).len(),
            value_kinds(ValueTree::List(items, span)),
        ),
    decreases items, items.len() + 1,
{
    lemma_literals();
    let v = ValueTree::List(items, span);
    let pv = print_value(v, pad);
    if items.len() == 0 {
        lemma_placed_char(cs, i, pv, 0);
        lemma_placed_char(cs, i, pv, 1);
        lemma_region_symbol(cs, i);
        lemma_region_symbol(cs, i + 1);
        lemma_region_chain(cs, i, i + 1, i + 2, seq![Kind::LBracket], seq![Kind::RBracket]);
        assert(seq![Kind::LBracket] + seq![Kind::RBracket] =~= value_kinds(v));
    } else {
        let pad2 = pad + "    "@;
        lemma_spaces_more(pad);
        let body = print_items(items, pad2, items.len() as int);
        let a = "[\n"@;
        lemma_placed_split(cs, i, a + body + pad, "]"@);
        lemma_placed_split(cs, i, a + body, pad);
        lemma_placed_split(cs, i, a, body);
        lemma_placed_char(cs, i, a, 0);
        lemma_placed_char(cs, i, a, 1);
        let at1 = i + 2;
        let at2 = at1 + body.len();
        let at3 = at2 + pad.len();
        lemma_placed_char(cs, at3, "]"@, 0);
        lemma_region_symbol(cs, i);
        lemma_region_newline(cs, i + 1);
        lemma_lex_items(cs, at1, items, pad2, items.len() as int);
        lemma_region_pad(cs, at2, pad);
        lemma_region_symbol(cs, at3);
        lemma_region_chain(cs, i, i + 1, at1, seq![Kind::LBracket], Seq::empty());
        let k1 = seq![Kind::LBracket] + Seq::<Kind>::empty();
        let ik = items_kinds(items, items.len() as int);
        lemma_region_chain(cs, i, at1, at2, k1, ik);
        lemma_region_chain(cs, i, at2, at3, k1 + ik, Seq::empty());
        lemma_region_chain(cs, i, at3, at3 + 1, k1 + ik + Seq::<Kind>::empty(), seq![Kind::RBracket]);
        assert(k1 + ik + Seq::<Kind>::empty() + seq![Kind::RBracket] =~= value_kinds(v));
    }
}

proof fn lemma_lex_object(cs: Seq<char>, i: int, es: Seq<EntryTree>, span: crate::span::Span, pad: Seq<char>)
    requires
        value_ok(ValueTree::Object(es, span)),
        spaces(pad),
        placed(cs, i, print_value(ValueTree::Object(es, span), pad)),
    ensures
        region(
            cs,
            i,
            i + print_value(ValueTree::Object(es, span), pad).len(),
            value_kinds(ValueTree::Object(es, span)),
        ),
    decreases es, es.len() + 1,
{
    lemma_literals();
    let v = ValueTree::Object(es, span);
    let pv = print_value(v, pad);
    if es.len() == 0 {
        lemma_placed_char(cs, i, pv, 0);
        lemma_placed_char(cs, i, pv, 1);
        lemma_region_symbol(cs, i);
        lemma_region_symbol(cs, i + 1);
        lemma_region_chain(cs, i, i + 1, i + 2, seq![Kind::LBrace], seq![Kind::RBrace]);
        assert(seq![Kind::LBrace] + seq![Kind::RBrace] =~= value_kinds(v));
    } else {
        let pad2 = pad + "    "@;
        lemma_spaces_more(pad);
        let order = sort_order(entry_keys(es), es.len() as int);
        lemma_sort_order(entry_keys(es), es.len() as int);
        let body = print_members(es, order, pad2, es.len() as int);
        let a = "{\n"@;
        lemma_placed_split(cs, i, a + body + pad, "}"@);
        lemma_placed_split(cs, i, a + body, pad);
        lemma_placed_split(cs, i, a, body);
        lemma_placed_char(cs, i, a, 0);
        lemma_placed_char(cs, i, a, 1);
        let at1 = i + 2;
        let at2 = at1 + body.len();
        let at3 = at2 + pad.len();
        lemma_placed_char(cs, at3, "}"@, 0);
        lemma_region_symbol(cs, i);
        lemma_region_newline(cs, i + 1);
        lemma_lex_members(cs, at1, es, order, pad2, es.len() as int);
        lemma_region_pad(cs, at2, pad);
        lemma_region_symbol(cs, at3);
        lemma_region_chain(cs, i, i + 1, at1, seq![Kind::LBrace], Seq::empty());
        let k1 = seq![Kind::LBrace] + Seq::<Kind>::empty();
        let mk = members_kinds(es, order, es.len() as int);
        lemma_region_chain(cs, i, at1, at2, k1, mk);
        lemma_region_chain(cs, i, at2, at3, k1 + mk, Seq::empty());
        lemma_region_chain(cs, i, at3, at3 + 1, k1 + mk + Seq::<Kind>::empty(), seq![Kind::RBrace]);
        assert(k1 + mk + Seq::<Kind>::empty() + seq![Kind::RBrace] =~= value_kinds(v));
    }
}

proof fn lemma_lex_items(cs: Seq<char>, i: int, items: Seq<ValueTree>, pad: Seq<char>, n: int)
    requires
        0 <= n <= items.len(),
        forall|k: int| 0 <= k < items.len() ==> value_ok(#[trigger] items[k]),
        spaces(pad),
        placed(cs, i, print_items(items, pad, n)),
    ensures
        region(cs, i, i + print_items(items, pad, n).len(), items_kinds(items, n)),
    decreases items, n,
{
    lemma_literals();
    if n == 0 {
        lemma_region_empty(cs, i);
    } else {
        let prev = print_items(items, pad, n - 1);
        let v = items[n - 1];
        let pv = print_value(v, pad);
        let sp = separator(n, items.len() as int);
        assert(prev + pad + pv + sp + "\n"@ =~= prev + pad + pv + (sp + "\n"@));
        lemma_placed_split(cs, i, prev + pad + pv, sp + "\n"@);
        lemma_placed_split(cs, i, prev + pad, pv);
        lemma_placed_split(cs, i, prev, pad);
        let at1 = i + prev.len();
        let at2 = at1 + pad.len();
        let at3 = at2 + pv.len();
        lemma_lex_items(cs, i, items, pad, n - 1);
        lemma_region_pad(cs, at1, pad);
        lemma_region_separator_line(cs, at3, n, items.len() as int);
        lemma_lex_value(cs, at2, v, pad);
        let k0 = items_kinds(items, n - 1);
        lemma_region_chain(cs, i, at1, at2, k0, Seq::empty());
        lemma_region_chain(cs, i, at2, at3, k0 + Seq::<Kind>::empty(), value_kinds(v));
        lemma_region_chain(
            cs,
            i,
            at3,
            at3 + sp.len() + 1,
            k0 + Seq::<Kind>::empty() + value_kinds(v),
            sep_kinds(n, items.len() as int),
        );
        assert(k0 + Seq::<Kind>::empty() + value_kinds(v) + sep_kinds(n, items.len() as int)
            =~= items_kinds(items, n));
    }
}

#[verifier::rlimit(50)]
proof fn lemma_lex_members(
    cs: Seq<char>,
    i: int,
    es: Seq<EntryTree>,
    order: Seq<usize>,
    pad: Seq<char>,
    n: int,
)
    requires
        0 <= n <= order.len(),
        entries_ok(es),
        spaces(pad),
        placed(cs, i, print_members(es, order, pad, n)),
    ensures
        region(cs, i, i + print_members(es, order, pad, n).len(), members_kinds(es, order, n)),
    decreases es, n,
{
    lemma_literals();
    if n == 0 {
        lemma_region_empty(cs, i);
    } else {
        let j = order[n - 1] as int;
        if 0 <= j < es.len() {
            let prev = print_members(es, order, pad, n - 1);
            let key = es[j].key;
            let v = es[j].value;
            assert(key_text(es[j].key) && value_ok(es[j].value));
            let pv = print_value(v, pad);
            let sp = separator(n, order.len() as int);
            let colon = ": "@;
            assert(prev + pad + key + colon + pv + sp + "\n"@ =~= prev + pad + key + colon + pv + (sp
                + "\n"@));
            lemma_placed_split(cs, i, prev + pad + key + colon + pv, sp + "\n"@);
            lemma_placed_split(cs, i, prev + pad + key + colon, pv);
            lemma_placed_split(cs, i, prev + pad + key, colon);
            lemma_placed_split(cs, i, prev + pad, key);
            lemma_placed_split(cs, i, prev, pad);
            let at1 = i + prev.len();
            let at2 = at1 + pad.len();
            let at3 = at2 + key.len();
            let at4 = at3 + 2;
            let at5 = at4 + pv.len();
            lemma_placed_char(cs, at3, colon, 0);
            lemma_placed_char(cs, at3, colon, 1);
            lemma_lex_members(cs, i, es, order, pad, n - 1);
            lemma_region_pad(cs, at1, pad);
            lemma_region_word(cs, at2, key);
            lemma_region_symbol(cs, at3);
            lemma_region_spaces(cs, at3 + 1, at4);
            lemma_region_separator_line(cs, at5, n, order.len() as int);
            lemma_lex_value(cs, at4, v, pad);
            let k0 = members_kinds(es, order, n - 1);
            let e = Seq::<Kind>::empty();
            lemma_region_chain(cs, i, at1, at2, k0, e);
            lemma_region_chain(cs, i, at2, at3, k0 + e, seq![Kind::Ident(key)]);
            lemma_region_chain(cs, i, at3, at3 + 1, k0 + e + seq![Kind::Ident(key)], seq![Kind::Colon]);
            let k3 = k0 + e + seq![Kind::Ident(key)] + seq![Kind::Colon];
            lemma_region_chain(cs, i, at3 + 1, at4, k3, e);
            lemma_region_chain(cs, i, at4, at5, k3 + e, value_kinds(v));
            lemma_region_chain(
                cs,
                i,
                at5,
                at5 + sp.len() + 1,
                k3 + e + value_kinds(v),
                sep_kinds(n, order.len() as int),
            );
            assert(k3 + e + value_kinds(v) + sep_kinds(n, order.len() as int) =~= members_kinds(
                es,
                order,
                n,
            ));
        } else {
            lemma_lex_members(cs, i, es, order, pad, n - 1);
        }
    }
}


proof fn lemma_lex_node(cs: Seq<char>, i: int, node: NodeTree, pad: Seq<char>)
    requires
        node_ok(node),
        spaces(pad),
        placed(cs, i, print_node(node, pad)),
    ensures
        region(cs, i, i + print_node(node, pad).len(), node_kinds(node)),
    decreases node, 2int,
{
    match node {
        NodeTree::Entry(key, v, span) => lemma_lex_entry(cs, i, key, v, span, pad),
        NodeTree::Block(name, body, span) => lemma_lex_block(cs, i, name, body, span, pad),
        NodeTree::Document(_, _) => {},
    }
}

proof fn lemma_lex_entry(cs: Seq<char>, i: int, key: Seq<char>, v: ValueTree, span: crate::span::Span, pad: Seq<char>)
    requires
        node_ok(NodeTree::Entry(key, v, span)),
        spaces(pad),
        placed(cs, i, print_node(NodeTree::Entry(key, v, span), pad)),
    ensures
        region(
            cs,
            i,
            i + print_node(NodeTree::Entry(key, v, span), pad).len(),
            node_kinds(NodeTree::Entry(key, v, span)),
        ),
    decreases NodeTree::Entry(key, v, span), 1int,
{
    lemma_literals();
    let e = Seq::<Kind>::empty();
    let node = NodeTree::Entry(key, v, span);
    let colon = ": "@;
    let pv = print_value(v, pad);
    lemma_placed_split(cs, i, pad + key + colon + pv, "\n"@);
    lemma_placed_split(cs, i, pad + key + colon, pv);
    lemma_placed_split(cs, i, pad + key, colon);
    lemma_placed_split(cs, i, pad, key);
    let at2 = i + pad.len();
    let at3 = at2 + key.len();
    let at4 = at3 + 2;
    let at5 = at4 + pv.len();
    lemma_placed_char(cs, at3, colon, 0);
    lemma_placed_char(cs, at3, colon, 1);
    lemma_placed_char(cs, at5, "\n"@, 0);
    lemma_region_pad(cs, i, pad);
    lemma_region_word(cs, at2, key);
    lemma_region_symbol(cs, at3);
    lemma_region_spaces(cs, at3 + 1, at4);
    lemma_lex_value(cs, at4, v, pad);
    lemma_region_newline(cs, at5);
    lemma_region_chain(cs, i, at2, at3, e, seq![Kind::Ident(key)]);
    lemma_region_chain(cs, i, at3, at3 + 1, e + seq![Kind::Ident(key)], seq![Kind::Colon]);
    let k3 = e + seq![Kind::Ident(key)] + seq![Kind::Colon];
    lemma_region_chain(cs, i, at3 + 1, at4, k3, e);
    lemma_region_chain(cs, i, at4, at5, k3 + e, value_kinds(v));
    lemma_region_chain(cs, i, at5, at5 + 1, k3 + e + value_kinds(v), e);
    assert(k3 + e + value_kinds(v) + e =~= node_kinds(node));

}

#[verifier::rlimit(100)]
proof fn lemma_lex_block(
    cs: Seq<char>,
    i: int,
    name: Seq<char>,
    body: Seq<NodeTree>,
    span: crate::span::Span,
    pad: Seq<char>,
)
    requires
        node_ok(NodeTree::Block(name, body, span)),
        spaces(pad),
        placed(cs, i, print_node(NodeTree::Block(name, body, span), pad)),
    ensures
        region(
            cs,
            i,
            i + print_node(NodeTree::Block(name, body, span), pad).len(),
            node_kinds(NodeTree::Block(name, body, span)),
        ),
    decreases NodeTree::Block(name, body, span), 1int,
{
    lemma_literals();
    let e = Seq::<Kind>::empty();
    let node = NodeTree::Block(name, body, span);
    let pad2 = pad + "    "@;
    lemma_spaces_more(pad);
    let open = " {\n"@;
    let inner = print_nodes(body, pad2, body.len() as int);
    let close = "}\n"@;
    lemma_placed_split(cs, i, pad + name + open + inner + pad, close);
    lemma_placed_split(cs, i, pad + name + open + inner, pad);
    lemma_placed_split(cs, i, pad + name + open, inner);
    lemma_placed_split(cs, i, pad + name, open);
    lemma_placed_split(cs, i, pad, name);
    let at2 = i + pad.len();
    let at3 = at2 + name.len();
    let at4 = at3 + 3;
    let at5 = at4 + inner.len();
    let at6 = at5 + pad.len();
    lemma_placed_char(cs, at3, open, 0);
    lemma_placed_char(cs, at3, open, 1);
    lemma_placed_char(cs, at3, open, 2);
    lemma_placed_char(cs, at6, close, 0);
    lemma_placed_char(cs, at6, close, 1);
    lemma_region_pad(cs, i, pad);
    lemma_region_word(cs, at2, name);
    lemma_region_spaces(cs, at3, at3 + 1);
    lemma_region_symbol(cs, at3 + 1);
    lemma_region_newline(cs, at3 + 2);
    lemma_lex_nodes(cs, at4, body, pad2, body.len() as int);
    lemma_region_pad(cs, at5, pad);
    lemma_region_symbol(cs, at6);
    lemma_region_newline(cs, at6 + 1);
    lemma_region_chain(cs, i, at2, at3, e, seq![Kind::Ident(name)]);
    let k2 = e + seq![Kind::Ident(name)];
    lemma_region_chain(cs, i, at3, at3 + 1, k2, e);
    lemma_region_chain(cs, i, at3 + 1, at3 + 2, k2 + e, seq![Kind::LBrace]);
    let k3 = k2 + e + seq![Kind::LBrace];
    lemma_region_chain(cs, i, at3 + 2, at4, k3, e);
    let nk = nodes_kinds(body, body.len() as int);
    lemma_region_chain(cs, i, at4, at5, k3 + e, nk);
    lemma_region_chain(cs, i, at5, at6, k3 + e + nk, e);
    lemma_region_chain(cs, i, at6, at6 + 1, k3 + e + nk + e, seq![Kind::RBrace]);
    lemma_region_chain(cs, i, at6 + 1, at6 + 2, k3 + e + nk + e + seq![Kind::RBrace], e);
    assert(k3 + e + nk + e + seq![Kind::RBrace] + e =~= node_kinds(node));

}

proof fn lemma_lex_nodes(cs: Seq<char>, i: int, ns: Seq<NodeTree>, pad: Seq<char>, n: int)
    requires
        0 <= n <= ns.len(),
        body_ok(ns),
        spaces(pad),
        placed(cs, i, print_nodes(ns, pad, n)),
    ensures
        region(cs, i, i + print_nodes(ns, pad, n).len(), nodes_kinds(ns, n)),
    decreases ns, n,
{
    if n == 0 {
        lemma_region_empty(cs, i);
    } else {
        let prev = print_nodes(ns, pad, n - 1);
        let pn = print_node(ns[n - 1], pad);
        assert(node_ok(ns[n - 1]));
        lemma_placed_split(cs, i, prev, pn);
        lemma_lex_nodes(cs, i, ns, pad, n - 1);
        lemma_lex_node(cs, i + prev.len(), ns[n - 1], pad);
        lemma_region_chain(
            cs,
            i,
            i + prev.len(),
            i + prev.len() + pn.len(),
            nodes_kinds(ns, n - 1),
            node_kinds(ns[n - 1]),
        );
    }
}

/// The canonical text of a document lexes to the canonical kinds of its
/// items, then the end of input.
proof fn lemma_lex_document(body: Seq<NodeTree>, span: crate::span::Span)
    requires
        body_ok(body),
    ensures
        crate::lexer::lex_spec(format_tree(NodeTree::Document(body, span))) is Ok,
        sig_kinds(crate::lexer::lex_spec(format_tree(NodeTree::Document(body, span)))->Ok_0)
            == nodes_kinds(body, body.len() as int).push(Kind::Eof),
{
    lemma_literals();
    let doc = NodeTree::Document(body, span);
    let out = print_node(doc, Seq::empty());
    let text = format_tree(doc);
    assert(spaces(Seq::<char>::empty()));
    let nk = nodes_kinds(body, body.len() as int);
    if out.len() > 0 && out.last() == '\n' {
        assert(text.subrange(0, out.len() as int) =~= out);
        lemma_lex_nodes(text, 0, body, Seq::empty(), body.len() as int);
        assert(region(text, 0, text.len() as int, nk));
    } else {
        assert(text.subrange(0, out.len() as int) =~= out);
        lemma_lex_nodes(text, 0, body, Seq::empty(), body.len() as int);
        lemma_region_newline(text, out.len() as int);
        lemma_region_chain(text, 0, out.len() as int, text.len() as int, nk, Seq::empty());
        assert(nk + Seq::<Kind>::empty() =~= nk);
    }
    let n = text.len() as int;
    let x = tok(Kind::Eof, char_span(text, n, n));
    assert(lex_tail(text, n) == Ok::<Seq<Tok>, ErrorModel>(Seq::<Tok>::empty().push(x)));
    let ts = Seq::<Tok>::empty().push(x);
    assert(ts.drop_last() =~= Seq::<Tok>::empty());
    assert(significant(Seq::<Tok>::empty()) == Seq::<Tok>::empty());
    assert(!is_trivia_kind(x.kind));
    assert(significant(ts) =~= ts);
    assert(sig_kinds(ts) =~= seq![Kind::Eof]);
    assert(nk + seq![Kind::Eof] =~= nk.push(Kind::Eof));
}


// ---------------------------------------------------------------------------
// The key order
// ---------------------------------------------------------------------------

proof fn lemma_key_le_total(a: Seq<char>, b: Seq<char>, i: int)
    requires
        0 <= i,
    ensures
        key_le_from(a, b, i) || key_le_from(b, a, i),
    decreases a.len() - i,
{
    if i < a.len() && i < b.len() {
        vstd::utf8::char_u32_cast(a[i], a[i] as u32);
        vstd::utf8::char_u32_cast(b[i], b[i] as u32);
        if a[i] == b[i] {
            lemma_key_le_total(a, b, i + 1);
        }
    }
}

proof fn lemma_key_le_trans(a: Seq<char>, b: Seq<char>, c: Seq<char>, i: int)
    requires
        0 <= i,
        key_le_from(a, b, i),
        key_le_from(b, c, i),
    ensures
        key_le_from(a, c, i),
    decreases a.len() - i,
{
    if i < a.len() && i < b.len() && i < c.len() && a[i] == b[i] && b[i] == c[i] {
        lemma_key_le_trans(a, b, c, i + 1);
    }
}

pub open spec fn sorted_by_key(keys: Seq<Seq<char>>, o: Seq<usize>) -> bool {
    forall|x: int, y: int|
        0 <= x < y < o.len() ==> key_le(#[trigger] keys[o[x] as int], #[trigger] keys[o[y] as int])
}

proof fn lemma_first_greater_props(keys: Seq<Seq<char>>, o: Seq<usize>, k: Seq<char>, i: int)
    requires
        0 <= i <= o.len(),
        forall|x: int| 0 <= x < i ==> key_le(#[trigger] keys[o[x] as int], k),
    ensures
        forall|x: int|
            0 <= x < first_greater(keys, o, k, i) ==> key_le(#[trigger] keys[o[x] as int], k),
        first_greater(keys, o, k, i) < o.len() ==> !key_le(
            keys[o[first_greater(keys, o, k, i)] as int],
            k,
        ),
    decreases o.len() - i,
{
    if i < o.len() && key_le(keys[o[i] as int], k) {
        lemma_first_greater_props(keys, o, k, i + 1);
    }
}

proof fn lemma_sort_order_sorted(keys: Seq<Seq<char>>, n: int)
    requires
        0 <= n <= keys.len() <= usize::MAX,
    ensures
        sorted_by_key(keys, sort_order(keys, n)),
    decreases n,
{
    if n > 0 {
        lemma_sort_order_sorted(keys, n - 1);
        let o = sort_order(keys, n - 1);
        let k = keys[n - 1];
        lemma_sort_order(keys, n - 1);
        lemma_first_greater(keys, o, k, 0);
        lemma_first_greater_props(keys, o, k, 0);
        let p = first_greater(keys, o, k, 0);
        let o2 = o.insert(p, (n - 1) as usize);
        assert(sort_order(keys, n) == o2);
        assert forall|x: int, y: int| 0 <= x < y < o2.len() implies key_le(
            #[trigger] keys[o2[x] as int],
            #[trigger] keys[o2[y] as int],
        ) by {
            if y < p {
                assert(o2[x] == o[x] && o2[y] == o[y]);
                assert(key_le(keys[o[x] as int], keys[o[y] as int]));
            } else if y == p {
                assert(o2[x] == o[x]);
                assert(o2[y] == (n - 1) as usize);
                assert(key_le(keys[o[x] as int], k));
            } else {
                assert(o2[y] == o[y - 1]);
                assert(p < o.len());
                assert(!key_le(keys[o[p] as int], k));
                lemma_key_le_total(keys[o[p] as int], k, 0);
                assert(key_le(k, keys[o[p] as int]));
                if p < y - 1 {
                    assert(key_le(keys[o[p] as int], keys[o[y - 1] as int]));
                    lemma_key_le_trans(k, keys[o[p] as int], keys[o[y - 1] as int], 0);
                }
                assert(key_le(k, keys[o[y - 1] as int]));
                if x < p {
                    assert(o2[x] == o[x]);
                    assert(key_le(keys[o[x] as int], k));
                    lemma_key_le_trans(keys[o[x] as int], k, keys[o[y - 1] as int], 0);
                } else if x == p {
                    assert(o2[x] == (n - 1) as usize);
                } else {
                    assert(o2[x] == o[x - 1]);
                    assert(key_le(keys[o[x - 1] as int], keys[o[y - 1] as int]));
                }
            }
        }
    }
}

proof fn lemma_key_le_refl(a: Seq<char>, i: int)
    requires
        0 <= i,
    ensures
        key_le_from(a, a, i),
    decreases a.len() - i,
{
    if i < a.len() {
        lemma_key_le_refl(a, i + 1);
    }
}

proof fn lemma_sort_order_stable(keys: Seq<Seq<char>>, n: int)
    requires
        0 <= n <= keys.len() <= usize::MAX,
    ensures
        forall|x: int, y: int|
            0 <= x < y < n && keys[sort_order(keys, n)[x] as int] == keys[sort_order(keys, n)[y] as int]
                ==> #[trigger] sort_order(keys, n)[x] < #[trigger] sort_order(keys, n)[y],
    decreases n,
{
    lemma_sort_order(keys, n);
    if n > 0 {
        lemma_sort_order_stable(keys, n - 1);
        lemma_sort_order_sorted(keys, n - 1);
        lemma_sort_order(keys, n - 1);
        let o = sort_order(keys, n - 1);
        let k = keys[n - 1];
        lemma_first_greater(keys, o, k, 0);
        lemma_first_greater_props(keys, o, k, 0);
        let p = first_greater(keys, o, k, 0);
        let o2 = o.insert(p, (n - 1) as usize);
        assert(sort_order(keys, n) == o2);
        assert forall|x: int, y: int|
            0 <= x < y < n && keys[o2[x] as int] == keys[o2[y] as int] implies #[trigger] o2[x]
                < #[trigger] o2[y] by {
            if y < p {
                assert(o2[x] == o[x] && o2[y] == o[y]);
            } else if y == p {
                assert(o2[x] == o[x]);
            } else if x < p {
                assert(o2[x] == o[x] && o2[y] == o[y - 1]);
            } else if x == p {
                assert(o2[y] == o[y - 1]);
                let q = o[y - 1] as int;
                lemma_key_le_refl(keys[q], 0);
                assert(!key_le(keys[o[p] as int], k));
                if p < y - 1 {
                    assert(key_le(keys[o[p] as int], keys[q]));
                    lemma_key_le_trans(keys[o[p] as int], keys[q], k, 0);
                }
            } else {
                assert(o2[x] == o[x - 1] && o2[y] == o[y - 1]);
            }
        }
    }
}

/// The printer's member order is a stable sort: `sort_order(keys, n)` lists
/// each of the positions `0..n` once, in ascending `key_le` order of their
/// keys, and positions with equal keys in increasing order.
pub proof fn lemma_sort_order_is_stable_sort(keys: Seq<Seq<char>>, n: int)
    requires
        0 <= n <= keys.len() <= usize::MAX,
    ensures
        sort_order(keys, n).len() == n,
        forall|x: int| 0 <= x < n ==> 0 <= #[trigger] sort_order(keys, n)[x] < n,
        forall|x: int, y: int|
            0 <= x < y < n ==> #[trigger] sort_order(keys, n)[x] != #[trigger] sort_order(keys, n)[y],
        forall|x: int, y: int|
            0 <= x < y < n ==> key_le(
                #[trigger] keys[sort_order(keys, n)[x] as int],
                #[trigger] keys[sort_order(keys, n)[y] as int],
            ),
        forall|x: int, y: int|
            0 <= x < y < n && keys[sort_order(keys, n)[x] as int] == keys[sort_order(keys, n)[y] as int]
                ==> #[trigger] sort_order(keys, n)[x] < #[trigger] sort_order(keys, n)[y],
{
    lemma_sort_order(keys, n);
    lemma_sort_order_injective(keys, n);
    lemma_sort_order_sorted(keys, n);
    lemma_sort_order_stable(keys, n);
}

/// Sorting keys that are already in order keeps every position.
proof fn lemma_sort_order_identity(keys: Seq<Seq<char>>, n: int)
    requires
        0 <= n <= keys.len() <= usize::MAX,
        forall|x: int, y: int| 0 <= x < y < keys.len() ==> key_le(#[trigger] keys[x], #[trigger] keys[y]),
    ensures
        forall|x: int| 0 <= x < n ==> #[trigger] sort_order(keys, n)[x] == x,
        sort_order(keys, n).len() == n,
    decreases n,
{
    lemma_sort_order(keys, n);
    if n > 0 {
        lemma_sort_order_identity(keys, n - 1);
        let o = sort_order(keys, n - 1);
        let k = keys[n - 1];
        lemma_first_greater_props(keys, o, k, 0);
        lemma_first_greater(keys, o, k, 0);
        let p = first_greater(keys, o, k, 0);
        if p < o.len() {
            assert(o[p] == p);
            assert(key_le(keys[p], keys[n - 1]));
        }
        assert(p == n - 1);
        let o2 = o.insert(p, (n - 1) as usize);
        assert(sort_order(keys, n) == o2);
        assert forall|x: int| 0 <= x < n implies #[trigger] sort_order(keys, n)[x] == x by {
            if x < n - 1 {
                assert(o2[x] == o[x]);
            }
        }
    }
}


// ---------------------------------------------------------------------------
// Parsing canonical tokens
// ---------------------------------------------------------------------------

/// The tokens from `p` on have kinds `ks`.
pub open spec fn kinds_at(t: Seq<Tok>, p: int, ks: Seq<Kind>) -> bool {
    &&& 0 <= p
    &&& p + ks.len() <= t.len()
    &&& forall|k: int| 0 <= k < ks.len() ==> #[trigger] t[p + k].kind == ks[k]
}

/// Two values that print alike at every indentation.
pub open spec fn same_value(a: ValueTree, b: ValueTree) -> bool {
    forall|pad: Seq<char>| #[trigger] print_value(a, pad) == print_value(b, pad)
}

pub open spec fn same_node(a: NodeTree, b: NodeTree) -> bool {
    forall|pad: Seq<char>| #[trigger] print_node(a, pad) == print_node(b, pad)
}

/// `a` is `b` read back from canonical text: the same up to spans, with
/// the members of each object literal in key order.
pub open spec fn canon_value(a: ValueTree, b: ValueTree) -> bool
    decreases b, 1int,
{
    match b {
        ValueTree::Str(y, _) => a is Str && a->Str_0 == y,
        ValueTree::Num(y, _) => a is Num && a->Num_0 == y,
        ValueTree::Bool(y, _) => a is Bool && a->Bool_0 == y,
        ValueTree::List(ys, _) => a is List && a->List_0.len() == ys.len() && forall|k: int|
            0 <= k < ys.len() ==> canon_value(a->List_0[k], #[trigger] ys[k]),
        ValueTree::Object(ys, _) => a is Object && a->Object_0.len() == ys.len() && forall|k: int|
            0 <= k < ys.len() ==> canon_member(
                #[trigger] a->Object_0[k],
                ys,
                sort_order(entry_keys(ys), ys.len() as int)[k] as int,
            ),
    }
}

pub open spec fn canon_member(x: EntryTree, ys: Seq<EntryTree>, j: int) -> bool
    decreases ys, 0int,
{
    0 <= j < ys.len() && x.key == ys[j].key && canon_value(x.value, ys[j].value)
}

pub open spec fn canon_node(a: NodeTree, b: NodeTree) -> bool
    decreases b, 1int,
{
    match b {
        NodeTree::Entry(k, v, _) => a is Entry && a->Entry_0 == k && canon_value(a->Entry_1, v),
        NodeTree::Block(name, body, _) => a is Block && a->Block_0 == name && canon_body(
            a->Block_1,
            body,
        ),
        NodeTree::Document(_, _) => false,
    }
}

pub open spec fn canon_body(xs: Seq<NodeTree>, ys: Seq<NodeTree>) -> bool
    decreases ys, 0int,
{
    xs.len() == ys.len() && forall|k: int| 0 <= k < ys.len() ==> canon_node(xs[k], #[trigger] ys[k])
}

/// A kind that can start a value.
pub open spec fn starts_value(k: Kind) -> bool {
    k is Str || k is Number || k is Bool || k is LBracket || k is LBrace
}

proof fn lemma_kinds_split(t: Seq<Tok>, p: int, a: Seq<Kind>, b: Seq<Kind>)
    requires
        kinds_at(t, p, a + b),
    ensures
        kinds_at(t, p, a),
        kinds_at(t, p + a.len(), b),
{
    assert forall|k: int| 0 <= k < a.len() implies #[trigger] t[p + k].kind == a[k] by {
        assert(t[p + k].kind == (a + b)[k]);
    }
    assert forall|k: int| 0 <= k < b.len() implies #[trigger] t[p + a.len() + k].kind == b[k] by {
        assert(t[p + (a.len() + k)].kind == (a + b)[a.len() + k]);
    }
}

proof fn lemma_value_kinds_head(v: ValueTree)
    ensures
        value_kinds(v).len() >= 1,
        starts_value(value_kinds(v)[0]),
{
}

proof fn lemma_items_kinds_prefix(items: Seq<ValueTree>, m: int, n: int)
    requires
        0 <= m <= n <= items.len(),
    ensures
        items_kinds(items, m).len() <= items_kinds(items, n).len(),
        items_kinds(items, n).subrange(0, items_kinds(items, m).len() as int) == items_kinds(items, m),
    decreases n - m,
{
    if m < n {
        lemma_items_kinds_prefix(items, m, n - 1);
        let a = items_kinds(items, n - 1);
        let b = items_kinds(items, n);
        assert(b == a + value_kinds(items[n - 1]) + sep_kinds(n, items.len() as int));
        assert(b.subrange(0, a.len() as int) =~= a);
        assert(b.subrange(0, items_kinds(items, m).len() as int) =~= a.subrange(
            0,
            items_kinds(items, m).len() as int,
        ));
    } else {
        assert(items_kinds(items, n).subrange(0, items_kinds(items, m).len() as int) =~= items_kinds(items, m));
    }
}

proof fn lemma_members_kinds_prefix(es: Seq<EntryTree>, order: Seq<usize>, m: int, n: int)
    requires
        0 <= m <= n <= order.len(),
    ensures
        members_kinds(es, order, m).len() <= members_kinds(es, order, n).len(),
        members_kinds(es, order, n).subrange(0, members_kinds(es, order, m).len() as int)
            == members_kinds(es, order, m),
    decreases n - m,
{
    if m < n {
        lemma_members_kinds_prefix(es, order, m, n - 1);
        let a = members_kinds(es, order, n - 1);
        let b = members_kinds(es, order, n);
        let j = order[n - 1] as int;
        if 0 <= j < es.len() {
            assert(b == a + seq![Kind::Ident(es[j].key), Kind::Colon] + value_kinds(es[j].value)
                + sep_kinds(n, order.len() as int));
        }
        assert(b.subrange(0, a.len() as int) =~= a);
        assert(b.subrange(0, members_kinds(es, order, m).len() as int) =~= a.subrange(
            0,
            members_kinds(es, order, m).len() as int,
        ));
    } else {
        assert(members_kinds(es, order, n).subrange(0, members_kinds(es, order, m).len() as int)
            =~= members_kinds(es, order, m));
    }
}

proof fn lemma_nodes_kinds_prefix(ns: Seq<NodeTree>, m: int, n: int)
    requires
        0 <= m <= n <= ns.len(),
    ensures
        nodes_kinds(ns, m).len() <= nodes_kinds(ns, n).len(),
        nodes_kinds(ns, n).subrange(0, nodes_kinds(ns, m).len() as int) == nodes_kinds(ns, m),
    decreases n - m,
{
    if m < n {
        lemma_nodes_kinds_prefix(ns, m, n - 1);
        let a = nodes_kinds(ns, n - 1);
        let b = nodes_kinds(ns, n);
        assert(b == a + node_kinds(ns[n - 1]));
        assert(b.subrange(0, a.len() as int) =~= a);
        assert(b.subrange(0, nodes_kinds(ns, m).len() as int) =~= a.subrange(
            0,
            nodes_kinds(ns, m).len() as int,
        ));
    } else {
        assert(nodes_kinds(ns, n).subrange(0, nodes_kinds(ns, m).len() as int) =~= nodes_kinds(ns, m));
    }
}

/// Tokens of kinds `big` from `q0` hold `small` at `q0 + off` when `small`
/// sits at `off` inside `big`.
proof fn lemma_kinds_inner(t: Seq<Tok>, q0: int, big: Seq<Kind>, off: int, small: Seq<Kind>)
    requires
        kinds_at(t, q0, big),
        0 <= off,
        off + small.len() <= big.len(),
        big.subrange(off, off + small.len()) == small,
    ensures
        kinds_at(t, q0 + off, small),
{
    assert forall|k: int| 0 <= k < small.len() implies #[trigger] t[q0 + off + k].kind == small[k] by {
        assert(t[q0 + (off + k)].kind == big[off + k]);
        assert(big.subrange(off, off + small.len())[k] == big[off + k]);
    }
}

proof fn lemma_print_items_same(a: Seq<ValueTree>, b: Seq<ValueTree>, pad: Seq<char>, n: int)
    requires
        a.len() == b.len(),
        0 <= n <= a.len(),
        forall|k: int| 0 <= k < a.len() ==> same_value(#[trigger] a[k], b[k]),
    ensures
        print_items(a, pad, n) == print_items(b, pad, n),
    decreases n,
{
    if n > 0 {
        lemma_print_items_same(a, b, pad, n - 1);
        assert(print_value(a[n - 1], pad) == print_value(b[n - 1], pad));
    }
}

proof fn lemma_print_nodes_same(a: Seq<NodeTree>, b: Seq<NodeTree>, pad: Seq<char>, n: int)
    requires
        a.len() == b.len(),
        0 <= n <= a.len(),
        forall|k: int| 0 <= k < a.len() ==> same_node(#[trigger] a[k], b[k]),
    ensures
        print_nodes(a, pad, n) == print_nodes(b, pad, n),
    decreases n,
{
    if n > 0 {
        lemma_print_nodes_same(a, b, pad, n - 1);
        assert(print_node(a[n - 1], pad) == print_node(b[n - 1], pad));
    }
}


proof fn lemma_inner_of_prefix(big: Seq<Kind>, pre: Seq<Kind>, a: Seq<Kind>, mid: Seq<Kind>, b: Seq<Kind>)
    requires
        pre == a + mid + b,
        pre.len() <= big.len(),
        big.subrange(0, pre.len() as int) == pre,
    ensures
        big.subrange(a.len() as int, (a.len() + mid.len()) as int) == mid,
{
    assert forall|k: int| 0 <= k < mid.len() implies big.subrange(a.len() as int, (a.len() + mid.len()) as int)[k]
        == mid[k] by {
        assert(big[a.len() + k] == big.subrange(0, pre.len() as int)[a.len() + k]);
        assert(pre[a.len() + k] == mid[k]);
    }
    assert(big.subrange(a.len() as int, (a.len() + mid.len()) as int) =~= mid);
}

proof fn lemma_parse_items(
    t: Seq<Tok>,
    q0: int,
    open: crate::span::Span,
    items: Seq<ValueTree>,
    m: int,
    acc: Seq<ValueTree>,
)
    requires
        0 <= m < items.len(),
        forall|k: int| 0 <= k < items.len() ==> value_ok(#[trigger] items[k]),
        kinds_at(t, q0, items_kinds(items, items.len() as int) + seq![Kind::RBracket]),
    ensures
        ({
            let r = list_items_at(t, q0 + items_kinds(items, m).len(), open, acc);
            let out = r.0->Ok_0->List_0;
            &&& r.0 is Ok
            &&& r.0->Ok_0 is List
            &&& r.1 == q0 + items_kinds(items, items.len() as int).len() + 1
            &&& out.len() == acc.len() + items.len() - m
            &&& forall|k: int| 0 <= k < acc.len() ==> out[k] == acc[k]
            &&& forall|k: int| m <= k < items.len() ==> same_value(out[acc.len() + k - m], #[trigger] items[k])
            &&& forall|k: int| m <= k < items.len() ==> canon_value(out[acc.len() + k - m], #[trigger] items[k])
        }),
    decreases items, items.len() - m,
{
    let n = items.len() as int;
    let ikn = items_kinds(items, n);
    let big = ikn + seq![Kind::RBracket];
    let ikm = items_kinds(items, m);
    let v = items[m];
    let vk = value_kinds(v);
    let sep = sep_kinds(m + 1, n);
    let ikm1 = items_kinds(items, m + 1);
    assert(ikm1 == ikm + vk + sep);
    lemma_items_kinds_prefix(items, m + 1, n);
    assert(big.subrange(0, ikn.len() as int) =~= ikn);
    assert(big.subrange(0, ikm1.len() as int) =~= ikm1) by {
        assert(ikn.subrange(0, ikm1.len() as int) == ikm1);
        assert forall|k: int| 0 <= k < ikm1.len() implies big.subrange(0, ikm1.len() as int)[k] == ikm1[k] by {
            assert(big[k] == ikn[k]);
            assert(ikn.subrange(0, ikm1.len() as int)[k] == ikn[k]);
        }
    }
    lemma_inner_of_prefix(big, ikm1, ikm, vk, sep);
    let q = q0 + ikm.len();
    lemma_kinds_inner(t, q0, big, ikm.len() as int, vk);
    lemma_value_kinds_head(v);
    lemma_parse_value(t, q, v);
    let v2 = value_at(t, q).0->Ok_0;
    let q1 = q + vk.len();
    let acc2 = acc.push(v2);
    if m + 1 < n {
        assert(sep == seq![Kind::Comma]);
        assert(ikm1 == ikm + vk + sep + Seq::<Kind>::empty());
        lemma_inner_of_prefix(big, ikm1, ikm + vk, sep, Seq::empty());
        assert(t[q0 + (ikm.len() + vk.len())].kind == big[(ikm.len() + vk.len()) as int]);
        assert(kind_at(t, q1) is Comma);
        let ikm2 = items_kinds(items, m + 2);
        lemma_value_kinds_head(items[m + 1]);
        assert(ikm2 == ikm1 + value_kinds(items[m + 1]) + sep_kinds(m + 2, n));
        lemma_items_kinds_prefix(items, m + 2, n);
        assert(ikn[ikm1.len() as int] == ikn.subrange(0, ikm2.len() as int)[ikm1.len() as int]);
        assert(t[q0 + ikm1.len()].kind == big[ikm1.len() as int]);
        assert(!(kind_at(t, q1 + 1) is RBracket));
        lemma_parse_items(t, q0, open, items, m + 1, acc2);
        let r = list_items_at(t, q0 + ikm1.len(), open, acc2);
        assert(list_items_at(t, q, open, acc) == r);
        let out = r.0->Ok_0->List_0;
        assert forall|k: int| m <= k < items.len() implies same_value(out[acc.len() + k - m], #[trigger] items[k]) by {
            if k == m {
                assert(out[acc.len() as int] == acc2[acc.len() as int]);
            } else {
                assert(same_value(out[acc2.len() + k - (m + 1)], items[k]));
            }
        }
        assert forall|k: int| m <= k < items.len() implies canon_value(out[acc.len() + k - m], #[trigger] items[k]) by {
            if k == m {
                assert(out[acc.len() as int] == acc2[acc.len() as int]);
            } else {
                assert(canon_value(out[acc2.len() + k - (m + 1)], items[k]));
            }
        }
        assert forall|k: int| 0 <= k < acc.len() implies out[k] == acc[k] by {
            assert(out[k] == acc2[k]);
        }
    } else {
        assert(sep =~= Seq::<Kind>::empty());
        assert(ikn == ikm + vk + sep);
        assert(t[q0 + ikn.len()].kind == big[ikn.len() as int]);
        assert(kind_at(t, q1) is RBracket);
        let r = list_items_at(t, q, open, acc);
        assert(r.0 is Ok);
    }
}

proof fn lemma_parse_value(t: Seq<Tok>, p: int, v: ValueTree)
    requires
        value_ok(v),
        kinds_at(t, p, value_kinds(v)),
    ensures
        value_at(t, p).0 is Ok,
        value_at(t, p).1 == p + value_kinds(v).len(),
        same_value(value_at(t, p).0->Ok_0, v),
        canon_value(value_at(t, p).0->Ok_0, v),
    decreases v, 1int,
{
    lemma_value_kinds_head(v);
    assert(t[p + 0].kind == value_kinds(v)[0]);
    match v {
        ValueTree::Num(n, _) => {
            match n {
                Num::Integer(x) => {
                    law_printed_integers_read_back(x, t[p].span);
                },
                Num::Float(f) => {
                    lemma_fraction_text(f);
                    crate::grammar::lemma_fraction_is_float(f);
                },
            }
        },
        ValueTree::List(items, _) => {
            if items.len() > 0 {
                lemma_parse_list(t, p, v);
            } else {
                assert(t[p + 1].kind == value_kinds(v)[1]);
            }
        },
        ValueTree::Object(es, _) => {
            if es.len() > 0 {
                lemma_parse_object(t, p, v);
            } else {
                assert(t[p + 1].kind == value_kinds(v)[1]);
            }
        },
        _ => {},
    }
}

proof fn lemma_parse_list(t: Seq<Tok>, p: int, v: ValueTree)
    requires
        value_ok(v),
        v is List,
        v->List_0.len() > 0,
        kinds_at(t, p, value_kinds(v)),
    ensures
        value_at(t, p).0 is Ok,
        value_at(t, p).1 == p + value_kinds(v).len(),
        same_value(value_at(t, p).0->Ok_0, v),
        canon_value(value_at(t, p).0->Ok_0, v),
    decreases v, 0int,
{
    let items = v->List_0;
    let n = items.len() as int;
    let ikn = items_kinds(items, n);
    assert(value_kinds(v) =~= seq![Kind::LBracket] + (ikn + seq![Kind::RBracket]));
    lemma_kinds_split(t, p, seq![Kind::LBracket], ikn + seq![Kind::RBracket]);
    assert(t[p + 0].kind == Kind::LBracket);
    lemma_value_kinds_head(items[0]);
    assert(items_kinds(items, 0) =~= Seq::<Kind>::empty());
    let ik1 = items_kinds(items, 1);
    assert(ik1 =~= value_kinds(items[0]) + sep_kinds(1, n));
    lemma_items_kinds_prefix(items, 1, n);
    assert(ikn[0] == ikn.subrange(0, ik1.len() as int)[0]);
    assert(t[p + 1 + 0].kind == (ikn + seq![Kind::RBracket])[0]);
    assert(!(kind_at(t, p + 1) is RBracket));
    assert(items_kinds(items, 0) =~= Seq::<Kind>::empty());
    lemma_parse_items(t, p + 1, t[p].span, items, 0, Seq::empty());
    let r = value_at(t, p);
    let out = r.0->Ok_0->List_0;
    assert(r == list_items_at(t, p + 1, t[p].span, Seq::empty()));
    assert forall|k: int| 0 <= k < out.len() implies same_value(#[trigger] out[k], items[k]) by {
        assert(same_value(out[0 + k - 0], items[k]));
    }
    assert forall|k: int| 0 <= k < items.len() implies canon_value(out[k], #[trigger] items[k]) by {
        assert(canon_value(out[0 + k - 0], items[k]));
    }
    assert forall|pad: Seq<char>| #[trigger] print_value(r.0->Ok_0, pad) == print_value(v, pad) by {
        lemma_print_items_same(out, items, pad + "    "@, n);
    }
}


proof fn lemma_print_members_same(
    a: Seq<EntryTree>,
    oa: Seq<usize>,
    b: Seq<EntryTree>,
    ob: Seq<usize>,
    pad: Seq<char>,
    n: int,
)
    requires
        oa.len() == ob.len() == a.len(),
        0 <= n <= oa.len(),
        forall|k: int| 0 <= k < oa.len() ==> (#[trigger] oa[k]) == k,
        forall|k: int| 0 <= k < ob.len() ==> 0 <= (#[trigger] ob[k]) < b.len(),
        forall|k: int| 0 <= k < a.len() ==> (#[trigger] a[k]).key == b[ob[k] as int].key,
        forall|k: int|
            0 <= k < a.len() ==> forall|pad2: Seq<char>| #[trigger] print_value((#[trigger] a[k]).value, pad2)
                == print_value(b[ob[k] as int].value, pad2),
    ensures
        print_members(a, oa, pad, n) == print_members(b, ob, pad, n),
    decreases n,
{
    if n > 0 {
        lemma_print_members_same(a, oa, b, ob, pad, n - 1);
        assert(oa[n - 1] == n - 1);
        let j = ob[n - 1] as int;
        assert(0 <= j < b.len());
        assert(a[n - 1].key == b[j].key);
        assert(print_value(a[n - 1].value, pad) == print_value(b[j].value, pad));
    }
}

proof fn lemma_parse_members(
    t: Seq<Tok>,
    q0: int,
    open: crate::span::Span,
    es: Seq<EntryTree>,
    order: Seq<usize>,
    m: int,
    acc: Seq<EntryTree>,
)
    requires
        0 <= m < order.len(),
        order.len() == es.len(),
        forall|k: int| 0 <= k < order.len() ==> 0 <= #[trigger] order[k] < es.len(),
        entries_ok(es),
        kinds_at(t, q0, members_kinds(es, order, order.len() as int) + seq![Kind::RBrace]),
    ensures
        ({
            let r = object_items_at(t, q0 + members_kinds(es, order, m).len(), open, acc);
            let out = r.0->Ok_0->Object_0;
            &&& r.0 is Ok
            &&& r.0->Ok_0 is Object
            &&& r.1 == q0 + members_kinds(es, order, order.len() as int).len() + 1
            &&& out.len() == acc.len() + order.len() - m
            &&& forall|k: int| 0 <= k < acc.len() ==> out[k] == acc[k]
            &&& forall|k: int|
                m <= k < order.len() ==> out[acc.len() + k - m].key == es[#[trigger] order[k] as int].key
                    && same_value(out[acc.len() + k - m].value, es[order[k] as int].value)
                    && canon_value(out[acc.len() + k - m].value, es[order[k] as int].value)
        }),
    decreases es, order.len() - m,
{
    let n = order.len() as int;
    let mkn = members_kinds(es, order, n);
    let big = mkn + seq![Kind::RBrace];
    let mkm = members_kinds(es, order, m);
    let j = order[m] as int;
    let key = es[j].key;
    let v = es[j].value;
    assert(key_text(es[j].key) && value_ok(es[j].value));
    let vk = value_kinds(v);
    let head = seq![Kind::Ident(key), Kind::Colon];
    let sep = sep_kinds(m + 1, n);
    let mkm1 = members_kinds(es, order, m + 1);
    assert(mkm1 == mkm + head + vk + sep);
    lemma_members_kinds_prefix(es, order, m + 1, n);
    assert(big.subrange(0, mkm1.len() as int) =~= mkm1) by {
        assert forall|k: int| 0 <= k < mkm1.len() implies big.subrange(0, mkm1.len() as int)[k] == mkm1[k] by {
            assert(big[k] == mkn[k]);
            assert(mkn.subrange(0, mkm1.len() as int)[k] == mkn[k]);
        }
    }
    assert(mkm1 == mkm + head + (vk + sep));
    lemma_inner_of_prefix(big, mkm1, mkm, head, vk + sep);
    lemma_inner_of_prefix(big, mkm1, mkm + head, vk, sep);
    let q = q0 + mkm.len();
    lemma_kinds_inner(t, q0, big, mkm.len() as int, head);
    lemma_kinds_inner(t, q0, big, (mkm.len() + 2) as int, vk);
    assert(t[q + 0].kind == head[0]);
    assert(t[q + 1].kind == head[1]);
    lemma_parse_value(t, q + 2, v);
    let v2 = value_at(t, q + 2).0->Ok_0;
    let q1 = q + 2 + vk.len();
    let entry = EntryTree { key: key, value: v2, span: crate::span::span_union(t[q].span, crate::ast::value_span(v2)) };
    let acc2 = acc.push(entry);
    lemma_value_kinds_head(v);
    if m + 1 < n {
        assert(sep == seq![Kind::Comma]);
        assert(mkm1 == mkm + head + vk + sep + Seq::<Kind>::empty());
        lemma_inner_of_prefix(big, mkm1, mkm + head + vk, sep, Seq::empty());
        let a = (mkm + head + vk).len() as int;
        assert(a == mkm.len() + 2 + vk.len());
        assert(big.subrange(a, a + 1)[0] == big[a]);
        assert(big[a] == Kind::Comma);
        assert(t[q0 + a].kind == big[a]);
        assert(kind_at(t, q1) is Comma);
        let mkm2 = members_kinds(es, order, m + 2);
        let j2 = order[m + 1] as int;
        assert(mkm2 == mkm1 + seq![Kind::Ident(es[j2].key), Kind::Colon] + value_kinds(es[j2].value)
            + sep_kinds(m + 2, n));
        lemma_members_kinds_prefix(es, order, m + 2, n);
        assert(mkn[mkm1.len() as int] == mkn.subrange(0, mkm2.len() as int)[mkm1.len() as int]);
        assert(t[q0 + mkm1.len()].kind == big[mkm1.len() as int]);
        assert(!(kind_at(t, q1 + 1) is RBrace));
        lemma_parse_members(t, q0, open, es, order, m + 1, acc2);
        let r = object_items_at(t, q0 + mkm1.len(), open, acc2);
        assert(object_items_at(t, q, open, acc) == r);
        let out = r.0->Ok_0->Object_0;
        assert forall|k: int| m <= k < order.len() implies out[acc.len() + k - m].key == es[#[trigger] order[k] as int].key
            && same_value(out[acc.len() + k - m].value, es[order[k] as int].value)
            && canon_value(out[acc.len() + k - m].value, es[order[k] as int].value) by {
            if k == m {
                assert(out[acc.len() as int] == acc2[acc.len() as int]);
            } else {
                assert(out[acc2.len() + k - (m + 1)].key == es[order[k] as int].key);
            }
        }
        assert forall|k: int| 0 <= k < acc.len() implies out[k] == acc[k] by {
            assert(out[k] == acc2[k]);
        }
    } else {
        assert(sep =~= Seq::<Kind>::empty());
        assert(mkn == mkm + head + vk + sep);
        assert(t[q0 + mkn.len()].kind == big[mkn.len() as int]);
        assert(kind_at(t, q1) is RBrace);
    }
}

proof fn lemma_parse_object(t: Seq<Tok>, p: int, v: ValueTree)
    requires
        value_ok(v),
        v is Object,
        v->Object_0.len() > 0,
        kinds_at(t, p, value_kinds(v)),
    ensures
        value_at(t, p).0 is Ok,
        value_at(t, p).1 == p + value_kinds(v).len(),
        same_value(value_at(t, p).0->Ok_0, v),
        canon_value(value_at(t, p).0->Ok_0, v),
    decreases v, 0int,
{
    let es = v->Object_0;
    let n = es.len() as int;
    let keys = entry_keys(es);
    let order = sort_order(keys, n);
    lemma_sort_order(keys, n);
    let mkn = members_kinds(es, order, n);
    assert(value_kinds(v) =~= seq![Kind::LBrace] + (mkn + seq![Kind::RBrace]));
    lemma_kinds_split(t, p, seq![Kind::LBrace], mkn + seq![Kind::RBrace]);
    assert(t[p + 0].kind == Kind::LBrace);
    assert(members_kinds(es, order, 0) =~= Seq::<Kind>::empty());
    let mk1 = members_kinds(es, order, 1);
    let j0 = order[0] as int;
    assert(mk1 =~= seq![Kind::Ident(es[j0].key), Kind::Colon] + value_kinds(es[j0].value) + sep_kinds(1, n));
    lemma_members_kinds_prefix(es, order, 1, n);
    assert(mkn[0] == mkn.subrange(0, mk1.len() as int)[0]);
    assert(t[p + 1 + 0].kind == (mkn + seq![Kind::RBrace])[0]);
    assert(!(kind_at(t, p + 1) is RBrace));
    assert(members_kinds(es, order, 0) =~= Seq::<Kind>::empty());
    assert forall|k: int| 0 <= k < order.len() implies 0 <= #[trigger] order[k] < es.len() by {}
    assert(v == ValueTree::Object(es, v->Object_1));
    assert(entries_ok(es));
    lemma_parse_members(t, p + 1, t[p].span, es, order, 0, Seq::empty());
    let r = value_at(t, p);
    assert(r == object_items_at(t, p + 1, t[p].span, Seq::empty()));
    let out = r.0->Ok_0->Object_0;
    let keys2 = entry_keys(out);
    lemma_sort_order_sorted(keys, n);
    assert forall|x: int, y: int| 0 <= x < y < keys2.len() implies key_le(#[trigger] keys2[x], #[trigger] keys2[y]) by {
        assert(out[0 + x - 0].key == es[order[x] as int].key);
        assert(out[0 + y - 0].key == es[order[y] as int].key);
        assert(key_le(keys[order[x] as int], keys[order[y] as int]));
    }
    lemma_sort_order_identity(keys2, n);
    let order2 = sort_order(keys2, n);
    assert forall|k: int| 0 <= k < out.len() implies (#[trigger] out[k]).key == es[order[k] as int].key && same_value(out[k].value, es[order[k] as int].value) by {
        assert(out[0 + k - 0].key == es[order[k] as int].key);
    }
    assert forall|k: int| 0 <= k < es.len() implies canon_member(#[trigger] out[k], es, order[k] as int) by {
        assert(out[0 + k - 0].key == es[order[k] as int].key);
        assert(canon_value(out[0 + k - 0].value, es[order[k] as int].value));
    }
    assert forall|pad: Seq<char>| #[trigger] print_value(r.0->Ok_0, pad) == print_value(v, pad) by {
        lemma_print_members_same(out, order2, es, order, pad + "    "@, n);
    }
}


proof fn lemma_parse_node(t: Seq<Tok>, p: int, node: NodeTree)
    requires
        node_ok(node),
        kinds_at(t, p, node_kinds(node)),
    ensures
        entry_or_block_at(t, p).0 is Ok,
        entry_or_block_at(t, p).1 == p + node_kinds(node).len(),
        same_node(entry_or_block_at(t, p).0->Ok_0, node),
        canon_node(entry_or_block_at(t, p).0->Ok_0, node),
    decreases node, 1int,
{
    match node {
        NodeTree::Entry(k, v, _) => {
            let head = seq![Kind::Ident(k), Kind::Colon];
            lemma_kinds_split(t, p, head, value_kinds(v));
            assert(t[p + 0].kind == head[0]);
            assert(t[p + 1].kind == head[1]);
            lemma_parse_value(t, p + 2, v);
            let r = entry_or_block_at(t, p);
            assert forall|pad: Seq<char>| #[trigger] print_node(r.0->Ok_0, pad) == print_node(node, pad) by {
                assert(print_value(value_at(t, p + 2).0->Ok_0, pad) == print_value(v, pad));
            }
        },
        NodeTree::Block(name, body, _) => {
            let head = seq![Kind::Ident(name), Kind::LBrace];
            let nk = nodes_kinds(body, body.len() as int);
            assert(node_kinds(node) =~= head + (nk + seq![Kind::RBrace]));
            lemma_kinds_split(t, p, head, nk + seq![Kind::RBrace]);
            assert(t[p + 0].kind == head[0]);
            assert(t[p + 1].kind == head[1]);
            assert(nodes_kinds(body, 0) =~= Seq::<Kind>::empty());
            lemma_parse_block_items(t, p + 2, name, t[p].span, body, 0, Seq::empty());
            let r = entry_or_block_at(t, p);
            assert(r == block_items_at(t, p + 2, name, t[p].span, Seq::empty()));
            let out = r.0->Ok_0->Block_1;
            assert forall|k: int| 0 <= k < out.len() implies same_node(#[trigger] out[k], body[k]) by {
                assert(same_node(out[0 + k - 0], body[k]));
            }
            assert forall|k: int| 0 <= k < body.len() implies canon_node(out[k], #[trigger] body[k]) by {
                assert(canon_node(out[0 + k - 0], body[k]));
            }
            assert forall|pad: Seq<char>| #[trigger] print_node(r.0->Ok_0, pad) == print_node(node, pad) by {
                lemma_print_nodes_same(out, body, pad + "    "@, body.len() as int);
            }
        },
        NodeTree::Document(_, _) => {},
    }
}

proof fn lemma_parse_block_items(
    t: Seq<Tok>,
    q0: int,
    name: Seq<char>,
    name_span: crate::span::Span,
    body: Seq<NodeTree>,
    m: int,
    acc: Seq<NodeTree>,
)
    requires
        0 <= m <= body.len(),
        body_ok(body),
        kinds_at(t, q0, nodes_kinds(body, body.len() as int) + seq![Kind::RBrace]),
    ensures
        ({
            let r = block_items_at(t, q0 + nodes_kinds(body, m).len(), name, name_span, acc);
            let out = r.0->Ok_0->Block_1;
            &&& r.0 is Ok
            &&& r.0->Ok_0 is Block
            &&& r.0->Ok_0->Block_0 == name
            &&& r.1 == q0 + nodes_kinds(body, body.len() as int).len() + 1
            &&& out.len() == acc.len() + body.len() - m
            &&& forall|k: int| 0 <= k < acc.len() ==> out[k] == acc[k]
            &&& forall|k: int| m <= k < body.len() ==> same_node(out[acc.len() + k - m], #[trigger] body[k])
            &&& forall|k: int| m <= k < body.len() ==> canon_node(out[acc.len() + k - m], #[trigger] body[k])
        }),
    decreases body, body.len() - m,
{
    let n = body.len() as int;
    let nkn = nodes_kinds(body, n);
    let big = nkn + seq![Kind::RBrace];
    let nkm = nodes_kinds(body, m);
    let q = q0 + nkm.len();
    if m == n {
        assert(t[q0 + nkn.len()].kind == big[nkn.len() as int]);
    } else {
        let node = body[m];
        assert(node_ok(node));
        let nkd = node_kinds(node);
        let nkm1 = nodes_kinds(body, m + 1);
        assert(nkm1 == nkm + nkd);
        lemma_nodes_kinds_prefix(body, m + 1, n);
        assert(big.subrange(0, nkm1.len() as int) =~= nkm1) by {
            assert forall|k: int| 0 <= k < nkm1.len() implies big.subrange(0, nkm1.len() as int)[k] == nkm1[k] by {
                assert(big[k] == nkn[k]);
                assert(nkn.subrange(0, nkm1.len() as int)[k] == nkn[k]);
            }
        }
        assert(nkm1 == nkm + nkd + Seq::<Kind>::empty());
        lemma_inner_of_prefix(big, nkm1, nkm, nkd, Seq::empty());
        lemma_kinds_inner(t, q0, big, nkm.len() as int, nkd);
        assert(t[q + 0].kind == nkd[0]);
        lemma_parse_node(t, q, node);
        let n2 = entry_or_block_at(t, q).0->Ok_0;
        let acc2 = acc.push(n2);
        lemma_parse_block_items(t, q0, name, name_span, body, m + 1, acc2);
        let r = block_items_at(t, q0 + nkm1.len(), name, name_span, acc2);
        assert(block_items_at(t, q, name, name_span, acc) == r);
        let out = r.0->Ok_0->Block_1;
        assert forall|k: int| m <= k < body.len() implies same_node(out[acc.len() + k - m], #[trigger] body[k]) by {
            if k == m {
                assert(out[acc.len() as int] == acc2[acc.len() as int]);
            } else {
                assert(same_node(out[acc2.len() + k - (m + 1)], body[k]));
            }
        }
        assert forall|k: int| m <= k < body.len() implies canon_node(out[acc.len() + k - m], #[trigger] body[k]) by {
            if k == m {
                assert(out[acc.len() as int] == acc2[acc.len() as int]);
            } else {
                assert(canon_node(out[acc2.len() + k - (m + 1)], body[k]));
            }
        }
        assert forall|k: int| 0 <= k < acc.len() implies out[k] == acc[k] by {
            assert(out[k] == acc2[k]);
        }
    }
}

proof fn lemma_parse_document_items(t: Seq<Tok>, body: Seq<NodeTree>, m: int, acc: Seq<NodeTree>)
    requires
        0 <= m <= body.len(),
        body_ok(body),
        kinds_at(t, 0, nodes_kinds(body, body.len() as int) + seq![Kind::Eof]),
    ensures
        ({
            let r = document_items_at(t, nodes_kinds(body, m).len() as int, acc);
            let out = r->Ok_0;
            &&& r is Ok
            &&& out.len() == acc.len() + body.len() - m
            &&& forall|k: int| 0 <= k < acc.len() ==> out[k] == acc[k]
            &&& forall|k: int| m <= k < body.len() ==> same_node(out[acc.len() + k - m], #[trigger] body[k])
            &&& forall|k: int| m <= k < body.len() ==> canon_node(out[acc.len() + k - m], #[trigger] body[k])
        }),
    decreases body.len() - m,
{
    let n = body.len() as int;
    let nkn = nodes_kinds(body, n);
    let big = nkn + seq![Kind::Eof];
    let nkm = nodes_kinds(body, m);
    let q = nkm.len() as int;
    if m == n {
        assert(t[0 + nkn.len() as int].kind == big[nkn.len() as int]);
    } else {
        let node = body[m];
        assert(node_ok(node));
        let nkd = node_kinds(node);
        let nkm1 = nodes_kinds(body, m + 1);
        assert(nkm1 == nkm + nkd);
        lemma_nodes_kinds_prefix(body, m + 1, n);
        assert(big.subrange(0, nkm1.len() as int) =~= nkm1) by {
            assert forall|k: int| 0 <= k < nkm1.len() implies big.subrange(0, nkm1.len() as int)[k] == nkm1[k] by {
                assert(big[k] == nkn[k]);
                assert(nkn.subrange(0, nkm1.len() as int)[k] == nkn[k]);
            }
        }
        assert(nkm1 == nkm + nkd + Seq::<Kind>::empty());
        lemma_inner_of_prefix(big, nkm1, nkm, nkd, Seq::empty());
        lemma_kinds_inner(t, 0, big, nkm.len() as int, nkd);
        assert(t[q + 0].kind == nkd[0]);
        lemma_parse_node(t, q, node);
        let n2 = entry_or_block_at(t, q).0->Ok_0;
        let acc2 = acc.push(n2);
        lemma_parse_document_items(t, body, m + 1, acc2);
        let r = document_items_at(t, nkm1.len() as int, acc2);
        assert(document_items_at(t, q, acc) == r);
        let out = r->Ok_0;
        assert forall|k: int| m <= k < body.len() implies same_node(out[acc.len() + k - m], #[trigger] body[k]) by {
            if k == m {
                assert(out[acc.len() as int] == acc2[acc.len() as int]);
            } else {
                assert(same_node(out[acc2.len() + k - (m + 1)], body[k]));
            }
        }
        assert forall|k: int| m <= k < body.len() implies canon_node(out[acc.len() + k - m], #[trigger] body[k]) by {
            if k == m {
                assert(out[acc.len() as int] == acc2[acc.len() as int]);
            } else {
                assert(canon_node(out[acc2.len() + k - (m + 1)], body[k]));
            }
        }
        assert forall|k: int| 0 <= k < acc.len() implies out[k] == acc[k] by {
            assert(out[k] == acc2[k]);
        }
    }
}


/// Parsing the canonical text of a document whose items are as the parser
/// builds them gives a document with the same canonical text.
proof fn lemma_reformat(body: Seq<NodeTree>, span: crate::span::Span)
    requires
        body_ok(body),
    ensures
        crate::parse_spec(format_tree(NodeTree::Document(body, span))) is Ok,
        format_tree(crate::parse_spec(format_tree(NodeTree::Document(body, span)))->Ok_0)
            == format_tree(NodeTree::Document(body, span)),
        crate::parse_spec(format_tree(NodeTree::Document(body, span)))->Ok_0 is Document,
        canon_body(
            crate::parse_spec(format_tree(NodeTree::Document(body, span)))->Ok_0->Document_0,
            body,
        ),
{
    let doc = NodeTree::Document(body, span);
    let text = format_tree(doc);
    lemma_lex_document(body, span);
    let ts = crate::lexer::lex_spec(text)->Ok_0;
    let t = significant(ts);
    let n = body.len() as int;
    let nk = nodes_kinds(body, n);
    assert(kinds(t) == nk.push(Kind::Eof));
    assert(nk.push(Kind::Eof) =~= nk + seq![Kind::Eof]);
    assert forall|k: int| 0 <= k < (nk + seq![Kind::Eof]).len() implies #[trigger] t[0 + k].kind == (nk
        + seq![Kind::Eof])[k] by {
        assert(kinds(t)[k] == t[k].kind);
    }
    assert(nodes_kinds(body, 0) =~= Seq::<Kind>::empty());
    lemma_parse_document_items(t, body, 0, Seq::empty());
    let out = document_items_at(t, 0, Seq::empty())->Ok_0;
    assert(parse_tokens(ts) == Ok::<NodeTree, ErrorModel>(NodeTree::Document(out, document_span(ts))));
    assert forall|k: int| 0 <= k < out.len() implies same_node(#[trigger] out[k], body[k]) by {
        assert(same_node(out[0 + k - 0], body[k]));
    }
    assert forall|k: int| 0 <= k < body.len() implies canon_node(out[k], #[trigger] body[k]) by {
        assert(canon_node(out[0 + k - 0], body[k]));
    }
    lemma_print_nodes_same(out, body, Seq::empty(), n);
}


// ---------------------------------------------------------------------------
// What the lexer and the parser build
// ---------------------------------------------------------------------------

/// A token kind as the lexer makes it.
pub open spec fn kind_ok(k: Kind) -> bool {
    match k {
        Kind::Ident(w) => key_text(w),
        Kind::Number(f) => number_text_shape(f) && (is_fraction_text(f) ==> fraction_text(f)),
        _ => true,
    }
}

pub open spec fn toks_ok(ts: Seq<Tok>) -> bool {
    forall|i: int| 0 <= i < ts.len() ==> kind_ok(#[trigger] ts[i].kind)
}

proof fn lemma_ident_end_parts(cs: Seq<char>, k: int)
    requires
        0 <= k <= cs.len(),
    ensures
        forall|m: int| k <= m < ident_end(cs, k) ==> ident_part(#[trigger] cs[m]),
    decreases cs.len() - k,
{
    if k < cs.len() && ident_part(cs[k]) {
        lemma_ident_end_parts(cs, k + 1);
    }
}

proof fn lemma_digits_end_parts(cs: Seq<char>, k: int)
    requires
        0 <= k <= cs.len(),
    ensures
        forall|m: int| k <= m < digits_end(cs, k) ==> is_digit(#[trigger] cs[m]),
        digits_end(cs, k) == cs.len() || !is_digit(cs[digits_end(cs, k)]),
    decreases cs.len() - k,
{
    lemma_digits_end(cs, k);
    if k < cs.len() && is_digit(cs[k]) {
        lemma_digits_end_parts(cs, k + 1);
    }
}

proof fn lemma_word_token_ok(cs: Seq<char>, i: int)
    requires
        0 <= i < cs.len(),
        ident_start(cs[i]),
    ensures
        kind_ok(word_kind(cs.subrange(i, ident_end(cs, i + 1)))),
{
    lemma_ident_end(cs, i + 1);
    lemma_ident_end_parts(cs, i + 1);
    let j = ident_end(cs, i + 1);
    let w = cs.subrange(i, j);
    assert forall|m: int| 0 <= m < w.len() implies ident_part(#[trigger] w[m]) by {
        assert(w[m] == cs[i + m]);
    }
    assert(word_text(w));
}

proof fn lemma_number_token_ok(cs: Seq<char>, i: int)
    requires
        0 <= i < cs.len(),
        starts_number(cs, i),
    ensures
        kind_ok(Kind::Number(cs.subrange(i, number_end(cs, i)))),
{
    lemma_number_end(cs, i);
    let j = number_end(cs, i);
    let f = cs.subrange(i, j);
    let a = digits_end(cs, i + 1);
    lemma_digits_end(cs, i + 1);
    lemma_digits_end_parts(cs, i + 1);
    let frac = a + 1 < cs.len() && cs[a] == '.' && is_digit(cs[a + 1]);
    if frac {
        lemma_digits_end_parts(cs, a + 1);
        lemma_digits_end(cs, a + 2);
        assert(j == digits_end(cs, a + 1));
        assert(j >= a + 2);
    }
    assert(placed(cs, i, f));
    assert(i + f.len() == cs.len() || !is_digit(cs[i + f.len()]));
    let s: int = if f.len() > 0 && f[0] == '-' { 1 } else { 0 };
    lemma_digits_end_shift(cs, i, f, s);
    lemma_digits_end_shift(cs, i, f, 1);
    assert(f[0] == cs[i]);
    if s == 0 {
        assert(is_digit(cs[i]));
        assert(digits_end(cs, i) == digits_end(cs, i + 1));
    }
    let d = digits_end(f, s);
    assert(d == a - i);
    assert forall|m: int| 0 <= m < f.len() implies (#[trigger] f[m] == '-' && m == 0) || is_digit(f[m]) || (
    frac && m == d) by {
        assert(f[m] == cs[i + m]);
    }
    if frac {
        assert(f.len() == j - i);
        assert(j >= a + 2);
        assert(d + 1 <= f.len());
        lemma_digits_end_shift(cs, i, f, d + 1);
        assert(f[d] == '.');
        assert(f[d + 1] == cs[a + 1]);
        assert(f.contains('.'));
        assert(fraction_text(f));
    } else {
        assert(j == a);
        assert(!f.contains('.'));
        assert(!f.contains('e'));
        assert(!f.contains('E'));
    }
}

/// Every token the lexer makes has the shape its kind promises, and each
/// token consumes at least one character.
proof fn lemma_lex_from_ok(cs: Seq<char>, i: int, acc: Seq<Tok>)
    requires
        0 <= i <= cs.len(),
        toks_ok(acc),
    ensures
        lex_from(cs, i, acc) is Ok ==> toks_ok(lex_from(cs, i, acc)->Ok_0) && lex_from(
            cs,
            i,
            acc,
        )->Ok_0.len() <= acc.len() + cs.len() - i + 1,
    decreases cs.len() - i,
{
    if i < cs.len() {
        lemma_line_end(cs, i + 1);
        lemma_ident_end(cs, i + 1);
        lemma_number_end(cs, i);
        lemma_scan_string(cs, i + 1, Seq::empty());
        let c = cs[i];
        if c == ' ' || c == '\t' || c == '\x0c' {
            lemma_lex_from_ok(cs, i + 1, acc);
        } else if c == '\r' {
            let j = if i + 1 < cs.len() && cs[i + 1] == '\n' { i + 2 } else { i + 1 };
            let x = tok(Kind::Newline, char_span(cs, i, j));
            assert(toks_ok(acc.push(x)));
            lemma_lex_from_ok(cs, j, acc.push(x));
        } else if c == '\n' {
            let x = tok(Kind::Newline, char_span(cs, i, i + 1));
            assert(toks_ok(acc.push(x)));
            lemma_lex_from_ok(cs, i + 1, acc.push(x));
        } else if c == '#' {
            let j = line_end(cs, i + 1);
            let x = tok(Kind::Comment(cs.subrange(i, j)), char_span(cs, i, j));
            assert(toks_ok(acc.push(x)));
            lemma_lex_from_ok(cs, j, acc.push(x));
        } else if symbol_kind(c) is Some {
            let x = tok(symbol_kind(c)->Some_0, char_span(cs, i, i + 1));
            assert(toks_ok(acc.push(x)));
            lemma_lex_from_ok(cs, i + 1, acc.push(x));
        } else if c == '"' {
            match scan_string(cs, i + 1, Seq::empty()) {
                StrScan::Closed(v, j) => {
                    let x = tok(Kind::Str(v), char_span(cs, i, j));
                    assert(toks_ok(acc.push(x)));
                    lemma_lex_from_ok(cs, j, acc.push(x));
                },
                _ => {},
            }
        } else if ident_start(c) {
            let j = ident_end(cs, i + 1);
            let x = tok(word_kind(cs.subrange(i, j)), char_span(cs, i, j));
            lemma_word_token_ok(cs, i);
            assert(toks_ok(acc.push(x)));
            lemma_lex_from_ok(cs, j, acc.push(x));
        } else if starts_number(cs, i) {
            let j = number_end(cs, i);
            let x = tok(Kind::Number(cs.subrange(i, j)), char_span(cs, i, j));
            lemma_number_token_ok(cs, i);
            assert(toks_ok(acc.push(x)));
            lemma_lex_from_ok(cs, j, acc.push(x));
        }
    } else {
        let n = cs.len() as int;
        let x = tok(Kind::Eof, char_span(cs, n, n));
        assert(toks_ok(acc.push(x)));
    }
}

proof fn lemma_significant_ok(ts: Seq<Tok>)
    requires
        toks_ok(ts),
    ensures
        toks_ok(significant(ts)),
        significant(ts).len() <= ts.len(),
    decreases ts.len(),
{
    if ts.len() > 0 {
        lemma_significant_ok(ts.drop_last());
        let r = significant(ts.drop_last());
        if !is_trivia_kind(ts.last().kind) {
            assert(toks_ok(r.push(ts.last())));
        }
    }
}


proof fn lemma_value_at_ok(t: Seq<Tok>, p: int)
    requires
        toks_ok(t),
        t.len() <= usize::MAX,
    ensures
        value_at(t, p).0 is Ok ==> value_ok(value_at(t, p).0->Ok_0),
    decreases t.len() - p, 0int,
{
    if 0 <= p < t.len() {
        assert(kind_ok(t[p].kind));
        match t[p].kind {
            Kind::LBracket => {
                if !(kind_at(t, p + 1) is RBracket) {
                    lemma_list_at_ok(t, p + 1, t[p].span, Seq::empty());
                }
            },
            Kind::LBrace => {
                if !(kind_at(t, p + 1) is RBrace) {
                    lemma_object_at_ok(t, p + 1, t[p].span, Seq::empty());
                } else {
                    assert(entries_ok(Seq::<EntryTree>::empty()));
                }
            },
            _ => {},
        }
    }
}

proof fn lemma_list_at_ok(t: Seq<Tok>, q: int, open: crate::span::Span, acc: Seq<ValueTree>)
    requires
        toks_ok(t),
        t.len() <= usize::MAX,
        forall|k: int| 0 <= k < acc.len() ==> value_ok(#[trigger] acc[k]),
    ensures
        list_items_at(t, q, open, acc).0 is Ok ==> value_ok(list_items_at(t, q, open, acc).0->Ok_0),
    decreases t.len() - q, 1int,
{
    if 0 <= q < t.len() {
        lemma_value_at_ok(t, q);
        let (r, q1) = value_at(t, q);
        if r is Ok {
            let items = acc.push(r->Ok_0);
            assert forall|k: int| 0 <= k < items.len() implies value_ok(#[trigger] items[k]) by {
                if k < acc.len() {
                    assert(items[k] == acc[k]);
                }
            }
            if kind_at(t, q1) is Comma && !(kind_at(t, q1 + 1) is RBracket) && q1 >= q {
                lemma_list_at_ok(t, q1 + 1, open, items);
            }
        }
    }
}

proof fn lemma_entries_push_ok(acc: Seq<EntryTree>, e: EntryTree)
    requires
        entries_ok(acc),
        key_text(e.key),
        value_ok(e.value),
    ensures
        entries_ok(acc.push(e)),
{
    let es = acc.push(e);
    assert forall|i: int| 0 <= i < es.len() implies key_text(#[trigger] es[i].key) && value_ok(es[i].value) by {
        if i < acc.len() {
            assert(es[i] == acc[i]);
            assert(key_text(acc[i].key) && value_ok(acc[i].value));
        }
    }
}

proof fn lemma_object_at_ok(t: Seq<Tok>, q: int, open: crate::span::Span, acc: Seq<EntryTree>)
    requires
        toks_ok(t),
        t.len() <= usize::MAX,
        0 <= q,
        entries_ok(acc),
    ensures
        ({
            let r = object_items_at(t, q, open, acc).0;
            r is Ok ==> r->Ok_0 is Object && r->Ok_0->Object_0.len() <= acc.len() + t.len() - q
                && entries_ok(r->Ok_0->Object_0)
        }),
    decreases t.len() - q, 1int,
{
    if q < t.len() && kind_at(t, q) is Ident && kind_at(t, q + 1) is Colon {
        assert(kind_ok(t[q].kind));
        lemma_value_at_ok(t, q + 2);
        let (r, q1) = value_at(t, q + 2);
        if r is Ok {
            let v = r->Ok_0;
            let entry = EntryTree {
                key: kind_at(t, q)->Ident_0,
                value: v,
                span: crate::span::span_union(t[q].span, crate::ast::value_span(v)),
            };
            lemma_entries_push_ok(acc, entry);
            if kind_at(t, q1) is Comma && !(kind_at(t, q1 + 1) is RBrace) && q1 >= q {
                lemma_object_at_ok(t, q1 + 1, open, acc.push(entry));
            }
        }
    }
}

proof fn lemma_entry_at_ok(t: Seq<Tok>, p: int)
    requires
        toks_ok(t),
        t.len() <= usize::MAX,
    ensures
        entry_or_block_at(t, p).0 is Ok ==> node_ok(entry_or_block_at(t, p).0->Ok_0),
    decreases t.len() - p, 2int,
{
    if 0 <= p < t.len() && kind_at(t, p) is Ident {
        assert(kind_ok(t[p].kind));
        let name = kind_at(t, p)->Ident_0;
        if kind_at(t, p + 1) is LBrace {
            assert(body_ok(Seq::<NodeTree>::empty()));
            lemma_block_at_ok(t, p + 2, name, t[p].span, Seq::empty());
        } else if kind_at(t, p + 1) is Colon {
            lemma_value_at_ok(t, p + 2);
        }
    }
}

proof fn lemma_block_at_ok(
    t: Seq<Tok>,
    q: int,
    name: Seq<char>,
    name_span: crate::span::Span,
    acc: Seq<NodeTree>,
)
    requires
        toks_ok(t),
        t.len() <= usize::MAX,
        key_text(name),
        body_ok(acc),
    ensures
        block_items_at(t, q, name, name_span, acc).0 is Ok ==> node_ok(
            block_items_at(t, q, name, name_span, acc).0->Ok_0,
        ),
    decreases t.len() - q, 3int,
{
    if 0 <= q < t.len() && !(kind_at(t, q) is RBrace) && !(kind_at(t, q) is Eof) {
        lemma_entry_at_ok(t, q);
        let (r, q1) = entry_or_block_at(t, q);
        if r is Ok && q < q1 <= t.len() {
            let body = acc.push(r->Ok_0);
            assert forall|i: int| 0 <= i < body.len() implies node_ok(#[trigger] body[i]) by {
                if i < acc.len() {
                    assert(body[i] == acc[i]);
                }
            }
            lemma_block_at_ok(t, q1, name, name_span, body);
        }
    }
}

proof fn lemma_document_at_ok(t: Seq<Tok>, p: int, acc: Seq<NodeTree>)
    requires
        toks_ok(t),
        t.len() <= usize::MAX,
        body_ok(acc),
    ensures
        document_items_at(t, p, acc) is Ok ==> body_ok(document_items_at(t, p, acc)->Ok_0),
    decreases t.len() - p,
{
    if 0 <= p < t.len() && !(kind_at(t, p) is Eof) {
        lemma_entry_at_ok(t, p);
        let (r, at1) = entry_or_block_at(t, p);
        if r is Ok && p < at1 <= t.len() {
            let body = acc.push(r->Ok_0);
            assert forall|i: int| 0 <= i < body.len() implies node_ok(#[trigger] body[i]) by {
                if i < acc.len() {
                    assert(body[i] == acc[i]);
                }
            }
            lemma_document_at_ok(t, at1, body);
        }
    }
}

proof fn lemma_entry_at_plain(t: Seq<Tok>, p: int)
    ensures
        entry_or_block_at(t, p).0 is Ok ==> plain_node(entry_or_block_at(t, p).0->Ok_0),
    decreases t.len() - p, 2int,
{
    if 0 <= p < t.len() && kind_at(t, p) is Ident && kind_at(t, p + 1) is LBrace {
        assert(plain_body(Seq::<NodeTree>::empty()));
        lemma_block_at_plain(t, p + 2, kind_at(t, p)->Ident_0, t[p].span, Seq::empty());
    }
}

proof fn lemma_block_at_plain(
    t: Seq<Tok>,
    q: int,
    name: Seq<char>,
    name_span: crate::span::Span,
    acc: Seq<NodeTree>,
)
    requires
        plain_body(acc),
    ensures
        block_items_at(t, q, name, name_span, acc).0 is Ok ==> plain_node(
            block_items_at(t, q, name, name_span, acc).0->Ok_0,
        ),
    decreases t.len() - q, 3int,
{
    if 0 <= q < t.len() && !(kind_at(t, q) is RBrace) && !(kind_at(t, q) is Eof) {
        lemma_entry_at_plain(t, q);
        let (r, q1) = entry_or_block_at(t, q);
        if r is Ok && q < q1 <= t.len() {
            let body = acc.push(r->Ok_0);
            assert forall|i: int| 0 <= i < body.len() implies plain_node(#[trigger] body[i]) by {
                if i < acc.len() {
                    assert(body[i] == acc[i]);
                }
            }
            lemma_block_at_plain(t, q1, name, name_span, body);
        }
    }
}

proof fn lemma_document_at_plain(t: Seq<Tok>, p: int, acc: Seq<NodeTree>)
    requires
        plain_body(acc),
    ensures
        document_items_at(t, p, acc) is Ok ==> plain_body(document_items_at(t, p, acc)->Ok_0),
    decreases t.len() - p,
{
    if 0 <= p < t.len() && !(kind_at(t, p) is Eof) {
        lemma_entry_at_plain(t, p);
        let (r, after) = entry_or_block_at(t, p);
        if r is Ok && p < after <= t.len() {
            let body = acc.push(r->Ok_0);
            assert forall|i: int| 0 <= i < body.len() implies plain_node(#[trigger] body[i]) by {
                if i < acc.len() {
                    assert(body[i] == acc[i]);
                }
            }
            lemma_document_at_plain(t, after, body);
        }
    }
}

/// A parsed document holds no nested document.
pub(crate) proof fn lemma_parsed_body_plain(text: Seq<char>)
    requires
        crate::parse_spec(text) is Ok,
    ensures
        plain_body(crate::parse_spec(text)->Ok_0->Document_0),
{
    let ts = crate::lexer::lex_spec(text)->Ok_0;
    assert(plain_body(Seq::<NodeTree>::empty()));
    lemma_document_at_plain(significant(ts), 0, Seq::empty());
}

/// The items of a parsed document are as the parser builds them.
pub(crate) proof fn lemma_parsed_body_ok(text: Seq<char>)
    requires
        crate::parse_spec(text) is Ok,
        text.len() < usize::MAX,
    ensures
        body_ok(crate::parse_spec(text)->Ok_0->Document_0),
{
    let ts = crate::lexer::lex_spec(text)->Ok_0;
    assert(toks_ok(Seq::<Tok>::empty()));
    lemma_lex_from_ok(text, 0, Seq::empty());
    let t = significant(ts);
    lemma_significant_ok(ts);
    assert(body_ok(Seq::<NodeTree>::empty()));
    lemma_document_at_ok(t, 0, Seq::empty());
}

/// Formatting is idempotent: the canonical text of any text that parses
/// parses again, and formatting that parse gives the same canonical text.
pub proof fn law_formatting_is_idempotent(text: Seq<char>)
    requires
        crate::parse_spec(text) is Ok,
        text.len() < usize::MAX,
    ensures
        crate::parse_spec(format_tree(crate::parse_spec(text)->Ok_0)) is Ok,
        format_tree(crate::parse_spec(format_tree(crate::parse_spec(text)->Ok_0))->Ok_0)
            == format_tree(crate::parse_spec(text)->Ok_0),
{
    lemma_parsed_body_ok(text);
    let tree = crate::parse_spec(text)->Ok_0;
    lemma_reformat(tree->Document_0, tree->Document_1);
}


// ---------------------------------------------------------------------------
// Values of canonical text
// ---------------------------------------------------------------------------

/// `x` is the value of a literal `y` after formatting: equal, except that
/// each mapping lists the members of `y`'s in key order.
pub open spec fn literal_equiv(x: Val, y: Val) -> bool
    decreases y, 1int,
{
    match y {
        Val::List(ys) => x is List && x->List_0.len() == ys.len() && forall|k: int|
            0 <= k < ys.len() ==> literal_equiv(x->List_0[k], #[trigger] ys[k]),
        Val::Object(ms) => x is Object && x->Object_0.len() == ms.len() && forall|k: int|
            0 <= k < ms.len() ==> literal_member(
                #[trigger] x->Object_0[k],
                ms,
                sort_order(member_keys(ms), ms.len() as int)[k] as int,
            ),
        _ => x == y,
    }
}

pub open spec fn literal_member(x: (Seq<char>, Val), ms: Members, j: int) -> bool
    decreases ms, 0int,
{
    0 <= j < ms.len() && x.0 == ms[j].0 && literal_equiv(x.1, ms[j].1)
}

/// `mx` is the mapping of the items `body` after formatting, `my` the one
/// before: the same keys in the same order, an entry's value as a literal
/// above, and a block's mapping again in its own order.
pub open spec fn body_equiv(mx: Members, my: Members, body: Seq<NodeTree>) -> bool
    decreases body, 0int,
{
    &&& mx.len() == my.len()
    &&& my.len() <= body.len()
    &&& forall|k: int|
        0 <= k < my.len() && k < body.len() ==> item_equiv(#[trigger] mx[k], my[k], body[k])
}

pub open spec fn item_equiv(x: (Seq<char>, Val), y: (Seq<char>, Val), node: NodeTree) -> bool
    decreases node, 1int,
{
    &&& x.0 == y.0
    &&& match node {
        NodeTree::Entry(_, _, _) => literal_equiv(x.1, y.1),
        NodeTree::Block(_, b, _) => x.1 is Object && y.1 is Object && body_equiv(
            x.1->Object_0,
            y.1->Object_0,
            b,
        ),
        NodeTree::Document(_, _) => false,
    }
}

proof fn lemma_sort_order_injective(keys: Seq<Seq<char>>, n: int)
    requires
        0 <= n <= keys.len() <= usize::MAX,
    ensures
        forall|x: int, y: int|
            0 <= x < y < n ==> #[trigger] sort_order(keys, n)[x] != #[trigger] sort_order(keys, n)[y],
    decreases n,
{
    lemma_sort_order(keys, n);
    if n > 0 {
        lemma_sort_order_injective(keys, n - 1);
        lemma_sort_order(keys, n - 1);
        let o = sort_order(keys, n - 1);
        lemma_first_greater(keys, o, keys[n - 1], 0);
        let p = first_greater(keys, o, keys[n - 1], 0);
        let o2 = o.insert(p, (n - 1) as usize);
        assert(sort_order(keys, n) == o2);
        assert forall|x: int, y: int| 0 <= x < y < n implies #[trigger] o2[x] != #[trigger] o2[y] by {
            if y < p {
                assert(o2[x] == o[x] && o2[y] == o[y]);
            } else if y == p {
                assert(o2[x] == o[x]);
            } else if x < p {
                assert(o2[x] == o[x] && o2[y] == o[y - 1]);
            } else if x == p {
                assert(o2[y] == o[y - 1]);
            } else {
                assert(o2[x] == o[x - 1] && o2[y] == o[y - 1]);
            }
        }
    }
}

/// The mapping of an object literal, when there is one, lists its members in
/// order with their values; there is one exactly when the keys are distinct
/// and every value evaluates.
pub(crate) proof fn lemma_members_char(es: Seq<EntryTree>, n: int)
    requires
        0 <= n <= es.len(),
    ensures
        eval_members(es, n) is Ok <==> ((forall|i: int, j: int|
            0 <= i < j < n ==> (#[trigger] es[i]).key != (#[trigger] es[j]).key) && forall|k: int|
            0 <= k < n ==> eval_value((#[trigger] es[k]).value) is Ok),
        eval_members(es, n) is Ok ==> eval_members(es, n)->Ok_0.len() == n && forall|k: int|
            0 <= k < n ==> #[trigger] eval_members(es, n)->Ok_0[k] == (
                es[k].key,
                eval_value(es[k].value)->Ok_0,
            ),
    decreases n,
{
    if n > 0 {
        lemma_members_char(es, n - 1);
        let e = es[n - 1];
        if eval_members(es, n - 1) is Ok {
            let m = eval_members(es, n - 1)->Ok_0;
            if eval_value(e.value) is Ok {
                let v = eval_value(e.value)->Ok_0;
                if has_key(m, e.key) {
                    let i = choose|i: int| 0 <= i < m.len() && (#[trigger] m[i]).0 == e.key;
                    assert(es[i].key == e.key);
                } else {
                    assert forall|i: int| 0 <= i < n - 1 implies (#[trigger] es[i]).key != es[n - 1].key by {
                        assert(m[i].0 == es[i].key);
                    }
                    let m2 = m.push((e.key, v));
                    assert forall|k: int| 0 <= k < n implies #[trigger] m2[k] == (
                        es[k].key,
                        eval_value(es[k].value)->Ok_0,
                    ) by {
                        if k < n - 1 {
                            assert(m2[k] == m[k]);
                        }
                    }
                }
            }
        }
    }
}

proof fn lemma_has_key_same(a: Members, b: Members, k: Seq<char>)
    requires
        a.len() == b.len(),
        forall|i: int| 0 <= i < a.len() ==> (#[trigger] a[i]).0 == b[i].0,
    ensures
        has_key(a, k) == has_key(b, k),
{
    if has_key(a, k) {
        let i = choose|i: int| 0 <= i < a.len() && (#[trigger] a[i]).0 == k;
        assert(b[i].0 == k);
    }
    if has_key(b, k) {
        let i = choose|i: int| 0 <= i < b.len() && (#[trigger] b[i]).0 == k;
        assert(a[i].0 == k);
    }
}

proof fn lemma_eval_canon_value(a: ValueTree, b: ValueTree)
    requires
        canon_value(a, b),
        value_ok(b),
        eval_value(b) is Ok,
    ensures
        eval_value(a) is Ok,
        literal_equiv(eval_value(a)->Ok_0, eval_value(b)->Ok_0),
    decreases b, 2int,
{
    match b {
        ValueTree::List(ys, _) => {
            let xs = a->List_0;
            lemma_eval_canon_items(xs, ys, ys.len() as int);
        },
        ValueTree::Object(ys, _) => {
            lemma_eval_canon_object(a, b);
        },
        _ => {},
    }
}

proof fn lemma_eval_canon_items(xs: Seq<ValueTree>, ys: Seq<ValueTree>, n: int)
    requires
        xs.len() == ys.len(),
        0 <= n <= ys.len(),
        forall|k: int| 0 <= k < ys.len() ==> canon_value(xs[k], #[trigger] ys[k]),
        forall|k: int| 0 <= k < ys.len() ==> value_ok(#[trigger] ys[k]),
        eval_items(ys, n) is Ok,
    ensures
        eval_items(xs, n) is Ok,
        eval_items(xs, n)->Ok_0.len() == eval_items(ys, n)->Ok_0.len(),
        forall|k: int| 0 <= k < eval_items(ys, n)->Ok_0.len() ==> literal_equiv(eval_items(xs, n)->Ok_0[k], #[trigger] eval_items(ys, n)->Ok_0[k]),
    decreases ys, n,
{
    if n > 0 {
        lemma_eval_canon_items(xs, ys, n - 1);
        lemma_eval_canon_value(xs[n - 1], ys[n - 1]);
        let p = eval_items(xs, n - 1)->Ok_0;
        let q = eval_items(ys, n - 1)->Ok_0;
        let px = p.push(eval_value(xs[n - 1])->Ok_0);
        let qy = q.push(eval_value(ys[n - 1])->Ok_0);
        assert forall|k: int| 0 <= k < qy.len() implies literal_equiv(px[k], #[trigger] qy[k]) by {
            if k < q.len() {
                assert(px[k] == p[k] && qy[k] == q[k]);
            }
        }
    }
}

proof fn lemma_eval_canon_object(a: ValueTree, b: ValueTree)
    requires
        b is Object,
        canon_value(a, b),
        value_ok(b),
        eval_value(b) is Ok,
    ensures
        eval_value(a) is Ok,
        literal_equiv(eval_value(a)->Ok_0, eval_value(b)->Ok_0),
    decreases b, 1int,
{
    let ys = b->Object_0;
    let xs = a->Object_0;
    let n = ys.len() as int;
    let order = sort_order(entry_keys(ys), n);
    assert(entries_ok(ys));
    lemma_sort_order(entry_keys(ys), n);
    lemma_sort_order_injective(entry_keys(ys), n);
    lemma_members_char(ys, n);
    let m = eval_members(ys, n)->Ok_0;
    assert forall|k: int| 0 <= k < n implies canon_member(#[trigger] xs[k], ys, order[k] as int) by {}
    assert forall|k: int| 0 <= k < n implies eval_value((#[trigger] xs[k]).value) is Ok by {
        let j = order[k] as int;
        assert(canon_member(xs[k], ys, j));
        assert(key_text(ys[j].key) && value_ok(ys[j].value));
        lemma_eval_canon_value(xs[k].value, ys[j].value);
    }
    assert forall|i: int, j: int| 0 <= i < j < n implies (#[trigger] xs[i]).key != (#[trigger] xs[j]).key by {
        assert(canon_member(xs[i], ys, order[i] as int));
        assert(canon_member(xs[j], ys, order[j] as int));
        assert(order[i] != order[j]);
        if order[i] < order[j] {
            assert(ys[order[i] as int].key != ys[order[j] as int].key);
        } else {
            assert(ys[order[j] as int].key != ys[order[i] as int].key);
        }
    }
    lemma_members_char(xs, n);
    let mx = eval_members(xs, n)->Ok_0;
    assert(member_keys(m) =~= entry_keys(ys)) by {
        assert forall|k: int| 0 <= k < n implies member_keys(m)[k] == entry_keys(ys)[k] by {
            assert(m[k] == (ys[k].key, eval_value(ys[k].value)->Ok_0));
        }
    }
    assert forall|k: int| 0 <= k < n implies literal_member(
        #[trigger] mx[k],
        m,
        sort_order(member_keys(m), n)[k] as int,
    ) by {
        let j = order[k] as int;
        assert(canon_member(xs[k], ys, j));
        assert(key_text(ys[j].key) && value_ok(ys[j].value));
        lemma_eval_canon_value(xs[k].value, ys[j].value);
        assert(mx[k] == (xs[k].key, eval_value(xs[k].value)->Ok_0));
        assert(m[j] == (ys[j].key, eval_value(ys[j].value)->Ok_0));
    }
}


proof fn lemma_eval_canon_body(xs: Seq<NodeTree>, ys: Seq<NodeTree>, n: int)
    requires
        canon_body(xs, ys),
        body_ok(ys),
        0 <= n <= ys.len(),
        eval_body(ys, n) is Ok,
    ensures
        eval_body(xs, n) is Ok,
        eval_body(ys, n)->Ok_0.len() == n,
        body_equiv(eval_body(xs, n)->Ok_0, eval_body(ys, n)->Ok_0, ys),
    decreases ys, n,
{
    if n > 0 {
        lemma_eval_canon_body(xs, ys, n - 1);
        let m = eval_body(ys, n - 1)->Ok_0;
        let mx = eval_body(xs, n - 1)->Ok_0;
        let node = ys[n - 1];
        let nx = xs[n - 1];
        assert(canon_node(nx, node));
        assert(node_ok(node));
        assert forall|i: int| 0 <= i < mx.len() implies (#[trigger] mx[i]).0 == m[i].0 by {
            assert(item_equiv(mx[i], m[i], ys[i]));
        }
        assert(eval_body(ys, n) == eval_item(m, node));
        assert(eval_body(xs, n) == eval_item(mx, nx));
        assert(eval_item(m, node) is Ok);
        match node {
            NodeTree::Entry(k, v, _) => {
                assert(eval_value(v) is Ok);
                assert(!has_key(m, k));
                lemma_has_key_same(mx, m, k);
                lemma_eval_canon_value(nx->Entry_1, v);
                let r = m.push((k, eval_value(v)->Ok_0));
                let rx = mx.push((k, eval_value(nx->Entry_1)->Ok_0));
                assert(eval_body(ys, n) == Ok::<Members, ErrorModel>(r));
                assert(eval_body(xs, n) == Ok::<Members, ErrorModel>(rx));
                assert forall|i: int| 0 <= i < r.len() && i < ys.len() implies item_equiv(#[trigger] rx[i], r[i], ys[i]) by {
                    if i < m.len() {
                        assert(item_equiv(mx[i], m[i], ys[i]));
                    }
                }
            },
            NodeTree::Block(name, body, _) => {
                assert(eval_body(body, body.len() as int) is Ok);
                assert(!has_key(m, name));
                lemma_has_key_same(mx, m, name);
                let bx = nx->Block_1;
                lemma_eval_canon_body(bx, body, body.len() as int);
                let inner = eval_body(body, body.len() as int)->Ok_0;
                let innerx = eval_body(bx, body.len() as int)->Ok_0;
                let r = m.push((name, Val::Object(inner)));
                let rx = mx.push((name, Val::Object(innerx)));
                assert(eval_body(ys, n) == Ok::<Members, ErrorModel>(r));
                assert(eval_body(xs, n) == Ok::<Members, ErrorModel>(rx));
                assert forall|i: int| 0 <= i < r.len() && i < ys.len() implies item_equiv(#[trigger] rx[i], r[i], ys[i]) by {
                    if i < m.len() {
                        assert(item_equiv(mx[i], m[i], ys[i]));
                    }
                }
            },
            NodeTree::Document(_, _) => {},
        }
    }
}

/// Formatting keeps meaning: when a text evaluates, its canonical text
/// evaluates too, to the same mapping with the same keys in the same order;
/// only the members of object literals may come back in another order, the
/// key order.
pub proof fn law_formatting_preserves_values(text: Seq<char>)
    requires
        crate::evaluate_spec(text) is Ok,
        text.len() < usize::MAX,
    ensures
        crate::evaluate_spec(format_tree(crate::parse_spec(text)->Ok_0)) is Ok,
        crate::evaluate_spec(format_tree(crate::parse_spec(text)->Ok_0))->Ok_0 is Object,
        crate::evaluate_spec(text)->Ok_0 is Object,
        body_equiv(
            crate::evaluate_spec(format_tree(crate::parse_spec(text)->Ok_0))->Ok_0->Object_0,
            crate::evaluate_spec(text)->Ok_0->Object_0,
            crate::parse_spec(text)->Ok_0->Document_0,
        ),
{
    lemma_parsed_body_ok(text);
    let tree = crate::parse_spec(text)->Ok_0;
    let body = tree->Document_0;
    lemma_reformat(body, tree->Document_1);
    let tree2 = crate::parse_spec(format_tree(tree))->Ok_0;
    let body2 = tree2->Document_0;
    lemma_eval_canon_body(body2, body, body.len() as int);
    let m = eval_body(body, body.len() as int)->Ok_0;
    let m2 = eval_body(body2, body2.len() as int)->Ok_0;
    assert(body2.len() == body.len());
}

} // verus!
