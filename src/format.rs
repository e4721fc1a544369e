use vstd::prelude::*;

use crate::ast::{
    entries_view, lemma_block_view, lemma_document_view, lemma_list_view, lemma_object_view,
    nodes_view, values_view, AstNode, EntryTree, Num, NodeTree, ObjectEntry, OrbitNumber,
    ValueNode, ValueTree,
};
use crate::error::CoreError;
use crate::text::{chars_of, push_char};
use crate::grammar::{all_digits, digit_value, digits_value, integer_text_value, number_value};
use crate::lexer::{scan_string, unescape, StrScan};
use crate::span::Span;
use crate::{parse, parse_spec};

verus! {

// ---------------------------------------------------------------------------
// Canonical text
// ---------------------------------------------------------------------------

pub open spec fn digit_char(d: nat) -> char {
    if d == 0 { '0' }
    else if d == 1 { '1' }
    else if d == 2 { '2' }
    else if d == 3 { '3' }
    else if d == 4 { '4' }
    else if d == 5 { '5' }
    else if d == 6 { '6' }
    else if d == 7 { '7' }
    else if d == 8 { '8' }
    else { '9' }
}

/// The decimal digits of a natural number.
pub open spec fn nat_text(n: nat) -> Seq<char>
    decreases n,
{
    if n < 10 {
        seq![digit_char(n)]
    } else {
        nat_text(n / 10).push(digit_char(n % 10))
    }
}

/// The decimal text of an integer, with `-` when negative.
pub open spec fn int_text(i: int) -> Seq<char> {
    if i < 0 {
        seq!['-'] + nat_text((-i) as nat)
    } else {
        nat_text(i as nat)
    }
}

pub open spec fn escape_char(c: char) -> Seq<char> {
    if c == '\\' {
        seq!['\\', '\\']
    } else if c == '"' {
        seq!['\\', '"']
    } else if c == '\n' {
        seq!['\\', 'n']
    } else if c == '\r' {
        seq!['\\', 'r']
    } else if c == '\t' {
        seq!['\\', 't']
    } else {
        seq![c]
    }
}

/// A string's characters with backslash, quote and line controls escaped.
pub open spec fn escape_text(s: Seq<char>) -> Seq<char>
    decreases s.len(),
{
    if s.len() == 0 {
        Seq::empty()
    } else {
        escape_text(s.drop_last()) + escape_char(s.last())
    }
}

pub open spec fn number_text(n: Num) -> Seq<char> {
    match n {
        Num::Integer(i) => int_text(i as int),
        Num::Float(t) => t,
    }
}

/// Whether `a` sorts before or equal to `b`, comparing from index `i` by code point.
pub open spec fn key_le_from(a: Seq<char>, b: Seq<char>, i: int) -> bool
    decreases a.len() - i,
{
    if i < 0 || i >= a.len() {
        true
    } else if i >= b.len() {
        false
    } else if a[i] != b[i] {
        (a[i] as u32) < (b[i] as u32)
    } else {
        key_le_from(a, b, i + 1)
    }
}

pub open spec fn key_le(a: Seq<char>, b: Seq<char>) -> bool {
    key_le_from(a, b, 0)
}

/// The first position at or after `i` in `order` whose key sorts after `k`.
pub open spec fn first_greater(keys: Seq<Seq<char>>, order: Seq<usize>, k: Seq<char>, i: int) -> int
    decreases order.len() - i,
{
    if 0 <= i < order.len() && key_le(keys[order[i] as int], k) {
        first_greater(keys, order, k, i + 1)
    } else {
        i
    }
}

/// The positions of the first `n` keys in stable ascending order, built by
/// insertion; `lemma_sort_order_is_stable_sort` states what it gives.
pub open spec fn sort_order(keys: Seq<Seq<char>>, n: int) -> Seq<usize>
    decreases n,
{
    if n <= 0 {
        Seq::empty()
    } else {
        let o = sort_order(keys, n - 1);
        o.insert(first_greater(keys, o, keys[n - 1], 0), (n - 1) as usize)
    }
}

pub open spec fn entry_keys(es: Seq<EntryTree>) -> Seq<Seq<char>> {
    es.map_values(|e: EntryTree| e.key)
}

pub open spec fn separator(i: int, n: int) -> Seq<char> {
    if i < n {
        ","@
    } else {
        Seq::empty()
    }
}

/// A value printed at indentation `pad`.
pub open spec fn print_value(v: ValueTree, pad: Seq<char>) -> Seq<char>
    decreases v, 0int,
{
    match v {
        ValueTree::Str(s, _) => "\""@ + escape_text(s) + "\""@,
        ValueTree::Num(n, _) => number_text(n),
        ValueTree::Bool(b, _) => if b { "true"@ } else { "false"@ },
        ValueTree::List(items, _) => if items.len() == 0 {
            "[]"@
        } else {
            "[\n"@ + print_items(items, pad + "    "@, items.len() as int) + pad + "]"@
        },
        ValueTree::Object(es, _) => if es.len() == 0 {
            "{}"@
        } else {
            "{\n"@ + print_members(
                es,
                sort_order(entry_keys(es), es.len() as int),
                pad + "    "@,
                es.len() as int,
            ) + pad + "}"@
        },
    }
}

/// The first `n` list items, one per line at indentation `pad`.
pub open spec fn print_items(items: Seq<ValueTree>, pad: Seq<char>, n: int) -> Seq<char>
    decreases items, n,
{
    if n <= 0 || n > items.len() {
        Seq::empty()
    } else {
        print_items(items, pad, n - 1) + pad + print_value(items[n - 1], pad) + separator(
            n,
            items.len() as int,
        ) + "\n"@
    }
}

/// The members at the first `n` positions of `order`, one per line.
pub open spec fn print_members(es: Seq<EntryTree>, order: Seq<usize>, pad: Seq<char>, n: int) -> Seq<
    char,
>
    decreases es, n,
{
    if n <= 0 || n > order.len() {
        Seq::empty()
    } else {
        let j = order[n - 1] as int;
        if 0 <= j < es.len() {
            print_members(es, order, pad, n - 1) + pad + es[j].key + ": "@ + print_value(
                es[j].value,
                pad,
            ) + separator(n, order.len() as int) + "\n"@
        } else {
            print_members(es, order, pad, n - 1)
        }
    }
}

/// A document item printed at indentation `pad`.
pub open spec fn print_node(n: NodeTree, pad: Seq<char>) -> Seq<char>
    decreases n, 0int,
{
    match n {
        NodeTree::Entry(k, v, _) => pad + k + ": "@ + print_value(v, pad) + "\n"@,
        NodeTree::Block(name, body, _) => pad + name + " {\n"@ + print_nodes(
            body,
            pad + "    "@,
            body.len() as int,
        ) + pad + "}\n"@,
        NodeTree::Document(body, _) => print_nodes(body, pad, body.len() as int),
    }
}

/// The first `n` items of a body at indentation `pad`.
pub open spec fn print_nodes(ns: Seq<NodeTree>, pad: Seq<char>, n: int) -> Seq<char>
    decreases ns, n,
{
    if n <= 0 || n > ns.len() {
        Seq::empty()
    } else {
        print_nodes(ns, pad, n - 1) + print_node(ns[n - 1], pad)
    }
}

/// The canonical text of a syntax tree, ending in a line break.
pub open spec fn format_tree(n: NodeTree) -> Seq<char> {
    let out = print_node(n, Seq::empty());
    if out.len() > 0 && out.last() == '\n' {
        out
    } else {
        out.push('\n')
    }
}

// ---------------------------------------------------------------------------
// Printed literals read back
// ---------------------------------------------------------------------------

proof fn lemma_escape_front(t: Seq<char>)
    requires
        t.len() > 0,
    ensures
        escape_text(t) == escape_char(t[0]) + escape_text(t.drop_first()),
    decreases t.len(),
{
    if t.len() > 1 {
        lemma_escape_front(t.drop_last());
        assert(t.drop_last().drop_first() =~= t.drop_first().drop_last());
        assert(escape_text(t) =~= escape_char(t[0]) + escape_text(t.drop_first()));
    } else {
        assert(t.drop_last() =~= Seq::<char>::empty());
        assert(t.drop_first() =~= Seq::<char>::empty());
        assert(escape_text(t) =~= escape_char(t[0]) + escape_text(t.drop_first()));
    }
}

pub(crate) proof fn lemma_scan_escaped(cs: Seq<char>, i: int, acc: Seq<char>, t: Seq<char>)
    requires
        0 <= i,
        i + escape_text(t).len() < cs.len(),
        cs.subrange(i, i + escape_text(t).len()) == escape_text(t),
        cs[i + escape_text(t).len()] == '"',
    ensures
        scan_string(cs, i, acc) == StrScan::Closed(acc + t, i + escape_text(t).len() + 1),
    decreases t.len(),
{
    if t.len() == 0 {
        assert(acc + t =~= acc);
    } else {
        lemma_escape_front(t);
        let c = t[0];
        let e = escape_char(c);
        let rest = t.drop_first();
        assert(cs.subrange(i, i + e.len()) =~= e) by {
            assert forall|k: int| 0 <= k < e.len() implies cs[i + k] == e[k] by {
                assert(cs.subrange(i, i + escape_text(t).len())[k] == escape_text(t)[k]);
            }
        }
        assert(cs.subrange(i + e.len(), i + e.len() + escape_text(rest).len()) =~= escape_text(
            rest,
        )) by {
            assert forall|k: int| 0 <= k < escape_text(rest).len() implies cs[i + e.len() + k]
                == escape_text(rest)[k] by {
                assert(cs.subrange(i, i + escape_text(t).len())[e.len() + k] == escape_text(
                    t,
                )[e.len() + k]);
            }
        }
        assert(cs[i] == e[0]);
        if e.len() == 2 {
            assert(cs[i + 1] == e[1]);
            assert(unescape(e[1]) == c);
        }
        lemma_scan_escaped(cs, i + e.len(), acc.push(c), rest);
        assert(acc.push(c) + rest =~= acc + t);
    }
}

pub(crate) proof fn lemma_nat_text(n: nat)
    ensures
        all_digits(nat_text(n)),
        digits_value(nat_text(n)) == n,
    decreases n,
{
    let d = n % 10;
    assert(digit_value(digit_char(d)) == d);
    if n >= 10 {
        lemma_nat_text(n / 10);
        let t = nat_text(n / 10);
        let s = t.push(digit_char(d));
        assert(s.drop_last() =~= t);
        assert(s.last() == digit_char(d));
        assert(digits_value(s) == digits_value(t) * 10 + digit_value(digit_char(d)));
        assert(n == (n / 10) * 10 + n % 10) by (nonlinear_arith);
    } else {
        assert(seq![digit_char(n)].drop_last() =~= Seq::<char>::empty());
        assert(seq![digit_char(n)].last() == digit_char(n));
        assert(d == n);
        assert(digits_value(seq![digit_char(n)]) == digits_value(Seq::<char>::empty()) * 10
            + digit_value(digit_char(n)));
    }
}

/// An integer printed in decimal converts back to the same integer.
pub proof fn law_printed_integers_read_back(i: i64, span: Span)
    ensures
        number_value(int_text(i as int), span) == Ok::<Num, crate::error::ErrorModel>(Num::Integer(i)),
{
    let t = int_text(i as int);
    if i < 0 {
        let m = (-(i as int)) as nat;
        lemma_nat_text(m);
        assert(t.drop_first() =~= nat_text(m));
        assert(t[0] == '-');
        assert(!t.contains('.')) by {
            if t.contains('.') {
                let k = choose|k: int| 0 <= k < t.len() && t[k] == '.';
                assert(nat_text(m)[k - 1] == '.');
            }
        }
        assert(!t.contains('e')) by {
            if t.contains('e') {
                let k = choose|k: int| 0 <= k < t.len() && t[k] == 'e';
                assert(nat_text(m)[k - 1] == 'e');
            }
        }
        assert(!t.contains('E')) by {
            if t.contains('E') {
                let k = choose|k: int| 0 <= k < t.len() && t[k] == 'E';
                assert(nat_text(m)[k - 1] == 'E');
            }
        }
        assert(integer_text_value(t) == Some(i as int));
    } else {
        lemma_nat_text(i as nat);
        assert(t[0] != '-');
        assert(!t.contains('.'));
        assert(!t.contains('e'));
        assert(!t.contains('E'));
    }
}

// ---------------------------------------------------------------------------
// Lemmas on the sort order
// ---------------------------------------------------------------------------

pub(crate) proof fn lemma_first_greater(keys: Seq<Seq<char>>, order: Seq<usize>, k: Seq<char>, i: int)
    requires
        0 <= i <= order.len(),
    ensures
        i <= first_greater(keys, order, k, i) <= order.len(),
    decreases order.len() - i,
{
    if i < order.len() && key_le(keys[order[i] as int], k) {
        lemma_first_greater(keys, order, k, i + 1);
    }
}

pub(crate) proof fn lemma_sort_order(keys: Seq<Seq<char>>, n: int)
    requires
        0 <= n,
    ensures
        sort_order(keys, n).len() == n,
        forall|i: int| 0 <= i < n ==> (#[trigger] sort_order(keys, n)[i]) < n,
    decreases n,
{
    if n > 0 {
        let o = sort_order(keys, n - 1);
        lemma_sort_order(keys, n - 1);
        lemma_first_greater(keys, o, keys[n - 1], 0);
        let p = first_greater(keys, o, keys[n - 1], 0);
        assert forall|i: int| 0 <= i < n implies (#[trigger] sort_order(keys, n)[i]) < n by {
            if i < p {
                assert(sort_order(keys, n)[i] == o[i]);
            } else if i > p {
                assert(sort_order(keys, n)[i] == o[i - 1]);
            }
        }
    }
}

// ---------------------------------------------------------------------------
// The printer
// ---------------------------------------------------------------------------

fn digit(d: u64) -> (r: char)
    requires
        d < 10,
    ensures
        r == digit_char(d as nat),
{
    if d == 0 { '0' }
    else if d == 1 { '1' }
    else if d == 2 { '2' }
    else if d == 3 { '3' }
    else if d == 4 { '4' }
    else if d == 5 { '5' }
    else if d == 6 { '6' }
    else if d == 7 { '7' }
    else if d == 8 { '8' }
    else { '9' }
}

fn push_decimal(out: &mut String, n: u64)
    ensures
        final(out)@ == old(out)@ + nat_text(n as nat),
    decreases n,
{
    if n >= 10 {
        push_decimal(out, n / 10);
    }
    push_char(out, digit(n % 10));
    proof {
        if n >= 10 {
            assert(old(out)@ + nat_text(n as nat) =~= old(out)@ + nat_text((n / 10) as nat) + seq![
                digit_char((n % 10) as nat),
            ]);
        } else {
            assert(old(out)@ + nat_text(n as nat) =~= old(out)@.push(digit_char((n % 10) as nat)));
        }
    }
}

fn push_integer(out: &mut String, i: i64)
    ensures
        final(out)@ == old(out)@ + int_text(i as int),
{
    if i < 0 {
        push_char(out, '-');
        let magnitude = (0i128 - i as i128) as u64;
        push_decimal(out, magnitude);
        proof {
            assert(old(out)@ + int_text(i as int) =~= old(out)@.push('-') + nat_text(magnitude as nat));
        }
    } else {
        push_decimal(out, i as u64);
    }
}

/// Escapes backslashes, quotes and line controls so that the text reads back as `value`.
pub fn escape_string(value: &String) -> (r: String)
    ensures
        r@ == escape_text(value@),
{
    let cs = chars_of(value.as_str());
    let mut escaped = String::new();
    let mut k: usize = 0;
    while k < cs.len()
        invariant
            k <= cs.len(),
            cs@ == value@,
            escaped@ == escape_text(cs@.take(k as int)),
        decreases cs.len() - k,
    {
        let ch = cs[k];
        proof {
            assert(cs@.take(k + 1).drop_last() =~= cs@.take(k as int));
        }
        let ghost before = escaped@;
        if ch == '\\' {
            escaped.append("\\\\");
        } else if ch == '"' {
            escaped.append("\\\"");
        } else if ch == '\n' {
            escaped.append("\\n");
        } else if ch == '\r' {
            escaped.append("\\r");
        } else if ch == '\t' {
            escaped.append("\\t");
        } else {
            push_char(&mut escaped, ch);
        }
        proof {
            reveal_strlit("\\\\");
            reveal_strlit("\\\"");
            reveal_strlit("\\n");
            reveal_strlit("\\r");
            reveal_strlit("\\t");
            assert(escaped@ =~= before + escape_char(ch));
        }
        k = k + 1;
    }
    proof {
        assert(cs@.take(cs.len() as int) =~= cs@);
    }
    escaped
}

fn key_le_exec(a: &String, b: &String) -> (r: bool)
    ensures
        r == key_le(a@, b@),
{
    let x = chars_of(a.as_str());
    let y = chars_of(b.as_str());
    let mut i: usize = 0;
    while i < x.len()
        invariant
            i <= x.len(),
            x@ == a@,
            y@ == b@,
            key_le_from(a@, b@, i as int) == key_le(a@, b@),
        decreases x.len() - i,
    {
        if i >= y.len() {
            return false;
        }
        if x[i] != y[i] {
            return (x[i] as u32) < (y[i] as u32);
        }
        i = i + 1;
    }
    true
}

/// The positions of `entries` in stable ascending order of their keys.
fn sorted_order(entries: &Vec<ObjectEntry>) -> (r: Vec<usize>)
    ensures
        r@ == sort_order(entry_keys(entries_view(entries@)), entries.len() as int),
{
    let ghost keys = entry_keys(entries_view(entries@));
    let mut order: Vec<usize> = Vec::new();
    let mut n: usize = 0;
    while n < entries.len()
        invariant
            n <= entries.len(),
            keys == entry_keys(entries_view(entries@)),
            order@ == sort_order(keys, n as int),
        decreases entries.len() - n,
    {
        proof {
            lemma_sort_order(keys, n as int);
        }
        let mut i: usize = 0;
        loop
            invariant
                i <= order.len() == n,
                n < entries.len(),
                keys == entry_keys(entries_view(entries@)),
                order@ == sort_order(keys, n as int),
                forall|j: int| 0 <= j < n ==> (#[trigger] order@[j]) < n,
                first_greater(keys, order@, keys[n as int], i as int) == first_greater(
                    keys,
                    order@,
                    keys[n as int],
                    0,
                ),
            ensures
                i == first_greater(keys, order@, keys[n as int], 0),
            decreases order.len() - i,
        {
            if i >= order.len() {
                break;
            }
            if !key_le_exec(&entries[order[i]].key, &entries[n].key) {
                break;
            }
            i = i + 1;
        }
        order.insert(i, n);
        n = n + 1;
    }
    order
}

/// Writes canonical text into a buffer, tracking the current indentation.
struct Formatter {
    output: String,
    indent: String,
}

impl Formatter {
    fn new() -> (r: Formatter)
        ensures
            r.output@ == Seq::<char>::empty(),
            r.indent@ == Seq::<char>::empty(),
    {
        Formatter { output: String::new(), indent: String::new() }
    }

    fn finish(self) -> (r: String)
        ensures
            r@ == self.output@,
    {
        self.output
    }

    fn write_indent(&mut self)
        ensures
            final(self).output@ == old(self).output@ + old(self).indent@,
            final(self).indent@ == old(self).indent@,
    {
        self.output.append(self.indent.as_str());
    }

    fn write_value(&mut self, value: &ValueNode)
        ensures
            final(self).output@ == old(self).output@ + print_value(value@, old(self).indent@),
            final(self).indent@ == old(self).indent@,
        decreases value, 0int,
    {
        let ghost before = self.output@;
        let ghost pad = self.indent@;
        match value {
            ValueNode::String { value, .. } => {
                self.output.append("\"");
                let escaped = escape_string(value);
                self.output.append(escaped.as_str());
                self.output.append("\"");
                proof {
                    assert(self.output@ =~= before + ("\""@ + escape_text(value@) + "\""@));
                }
            },
            ValueNode::Number { value, .. } => {
                match value {
                    OrbitNumber::Integer(i) => push_integer(&mut self.output, *i),
                    OrbitNumber::Float(text) => self.output.append(text.as_str()),
                }
            },
            ValueNode::Bool { value, .. } => {
                if *value {
                    self.output.append("true");
                } else {
                    self.output.append("false");
                }
            },
            ValueNode::List { items, span } => {
                proof {
                    lemma_list_view(*items, *span);
                }
                if items.len() == 0 {
                    self.output.append("[]");
                } else {
                    self.output.append("[\n");
                    let saved = self.indent.clone();
                    self.indent.append("    ");
                    self.write_items(items);
                    self.indent = saved;
                    self.write_indent();
                    self.output.append("]");
                    proof {
                        assert(self.output@ =~= before + ("[\n"@ + print_items(
                            values_view(items@),
                            pad + "    "@,
                            items.len() as int,
                        ) + pad + "]"@));
                    }
                }
            },
            ValueNode::Object { entries, span } => {
                proof {
                    lemma_object_view(*entries, *span);
                }
                if entries.len() == 0 {
                    self.output.append("{}");
                } else {
                    self.output.append("{\n");
                    let saved = self.indent.clone();
                    self.indent.append("    ");
                    self.write_members(entries);
                    self.indent = saved;
                    self.write_indent();
                    self.output.append("}");
                    proof {
                        let es = entries_view(entries@);
                        assert(self.output@ =~= before + ("{\n"@ + print_members(
                            es,
                            sort_order(entry_keys(es), es.len() as int),
                            pad + "    "@,
                            es.len() as int,
                        ) + pad + "}"@));
                    }
                }
            },
        }
    }

    fn write_items(&mut self, items: &Vec<ValueNode>)
        ensures
            final(self).output@ == old(self).output@ + print_items(
                values_view(items@),
                old(self).indent@,
                items.len() as int,
            ),
            final(self).indent@ == old(self).indent@,
        decreases items, 1int,
    {
        let ghost before = self.output@;
        let ghost pad = self.indent@;
        let ghost vs = values_view(items@);
        let mut k: usize = 0;
        while k < items.len()
            invariant
                k <= items.len(),
                vs == values_view(items@),
                self.indent@ == pad,
                self.output@ == before + print_items(vs, pad, k as int),
            decreases items.len() - k,
        {
            self.write_indent();
            self.write_value(&items[k]);
            if k + 1 != items.len() {
                self.output.append(",");
            }
            self.output.append("\n");
            proof {
                assert(self.output@ =~= before + print_items(vs, pad, k + 1));
            }
            k = k + 1;
        }
    }

    fn write_members(&mut self, entries: &Vec<ObjectEntry>)
        ensures
            final(self).output@ == old(self).output@ + print_members(
                entries_view(entries@),
                sort_order(entry_keys(entries_view(entries@)), entries.len() as int),
                old(self).indent@,
                entries.len() as int,
            ),
            final(self).indent@ == old(self).indent@,
        decreases entries, 1int,
    {
        let ghost before = self.output@;
        let ghost pad = self.indent@;
        let ghost es = entries_view(entries@);
        let order = sorted_order(entries);
        proof {
            lemma_sort_order(entry_keys(es), entries.len() as int);
        }
        let mut k: usize = 0;
        while k < order.len()
            invariant
                k <= order.len() == entries.len(),
                es == entries_view(entries@),
                order@ == sort_order(entry_keys(es), entries.len() as int),
                forall|j: int| 0 <= j < order.len() ==> (#[trigger] order@[j]) < entries.len(),
                self.indent@ == pad,
                self.output@ == before + print_members(es, order@, pad, k as int),
            decreases order.len() - k,
        {
            let entry = &entries[order[k]];
            self.write_indent();
            self.output.append(entry.key.as_str());
            self.output.append(": ");
            self.write_value(&entry.value);
            if k + 1 != order.len() {
                self.output.append(",");
            }
            self.output.append("\n");
            proof {
                assert(self.output@ =~= before + print_members(es, order@, pad, k + 1));
            }
            k = k + 1;
        }
    }

    fn write_node(&mut self, node: &AstNode)
        ensures
            final(self).output@ == old(self).output@ + print_node(node@, old(self).indent@),
            final(self).indent@ == old(self).indent@,
        decreases node, 0int,
    {
        let ghost before = self.output@;
        let ghost pad = self.indent@;
        match node {
            AstNode::Entry { key, value, .. } => {
                self.write_indent();
                self.output.append(key.as_str());
                self.output.append(": ");
                self.write_value(value);
                self.output.append("\n");
                proof {
                    assert(self.output@ =~= before + print_node(node@, pad));
                }
            },
            AstNode::Block { name, body, span } => {
                proof {
                    lemma_block_view(*name, *body, *span);
                }
                self.write_indent();
                self.output.append(name.as_str());
                self.output.append(" {\n");
                let saved = self.indent.clone();
                self.indent.append("    ");
                self.write_nodes(body);
                self.indent = saved;
                self.write_indent();
                self.output.append("}\n");
                proof {
                    assert(self.output@ =~= before + print_node(node@, pad));
                }
            },
            AstNode::Document { body, span } => {
                proof {
                    lemma_document_view(*body, *span);
                }
                self.write_nodes(body);
            },
        }
    }

    fn write_nodes(&mut self, nodes: &Vec<AstNode>)
        ensures
            final(self).output@ == old(self).output@ + print_nodes(
                nodes_view(nodes@),
                old(self).indent@,
                nodes.len() as int,
            ),
            final(self).indent@ == old(self).indent@,
        decreases nodes, 1int,
    {
        let ghost before = self.output@;
        let ghost pad = self.indent@;
        let ghost ns = nodes_view(nodes@);
        let mut k: usize = 0;
        while k < nodes.len()
            invariant
                k <= nodes.len(),
                ns == nodes_view(nodes@),
                self.indent@ == pad,
                self.output@ == before + print_nodes(ns, pad, k as int),
            decreases nodes.len() - k,
        {
            self.write_node(&nodes[k]);
            proof {
                assert(self.output@ =~= before + print_nodes(ns, pad, k + 1));
            }
            k = k + 1;
        }
    }

    /// Writes a document's items, or a lone item, at the outermost level.
    fn write_document(&mut self, node: &AstNode)
        ensures
            final(self).output@ == old(self).output@ + print_node(node@, old(self).indent@),
            final(self).indent@ == old(self).indent@,
    {
        self.write_node(node);
    }
}

/// Why a text could not be formatted.
#[derive(Debug)]
pub enum FormatError {
    Core(CoreError),
}

/// The canonical text of `source`: one item per line, four spaces per
/// level, object-literal members sorted by key, ending in a line break.
pub fn format_source(source: &str) -> (r: Result<String, FormatError>)
    ensures
        match parse_spec(source@) {
            Ok(n) => r is Ok && r->Ok_0@ == format_tree(n),
            Err(f) => r is Err && r->Err_0 is Core && r->Err_0->Core_0@ == f,
        },
{
    let ast = match parse(source) {
        Ok(ast) => ast,
        Err(e) => return Err(FormatError::Core(e)),
    };
    let mut formatter = Formatter::new();
    formatter.write_document(&ast);
    let mut output = formatter.finish();
    proof {
        assert(output@ =~= print_node(ast@, Seq::empty()));
    }
    let cs = chars_of(output.as_str());
    let ends_with_newline = cs.len() > 0 && cs[cs.len() - 1] == '\n';
    if !ends_with_newline {
        push_char(&mut output, '\n');
    }
    Ok(output)
}

} // verus!
