use vstd::prelude::*;

use crate::ast::{
    entries_view, lemma_block_view, lemma_document_view, lemma_list_view, lemma_object_view,
    nodes_view, values_view, AstNode, EntryTree, NodeTree, ObjectEntry, OrbitNumber, ValueNode,
    ValueTree,
};
use crate::error::{error_model, ErrorModel, RuntimeError};
use crate::roundtrip::lemma_members_char;
use crate::value::{
    has_key, lemma_vals_push, lemma_value_list_view, vals_view, Environment, ObjectMap, OrbitValue,
    Val,
};

verus! {

pub type Members = Seq<(Seq<char>, Val)>;

pub open spec fn duplicate_key_message(k: Seq<char>) -> Seq<char> {
    "duplicate key '"@ + k + "'"@
}

pub open spec fn duplicate_block_message(k: Seq<char>) -> Seq<char> {
    "duplicate block '"@ + k + "'"@
}

pub open spec fn duplicate_member_message(k: Seq<char>) -> Seq<char> {
    "duplicate key '"@ + k + "' inside object literal"@
}

/// The value of a syntax-tree value.
pub open spec fn eval_value(v: ValueTree) -> Result<Val, ErrorModel>
    decreases v, 0int,
{
    match v {
        ValueTree::Str(s, _) => Ok(Val::Str(s)),
        ValueTree::Num(n, _) => Ok(Val::Num(n)),
        ValueTree::Bool(b, _) => Ok(Val::Bool(b)),
        ValueTree::List(items, _) => match eval_items(items, items.len() as int) {
            Ok(vs) => Ok(Val::List(vs)),
            Err(e) => Err(e),
        },
        ValueTree::Object(entries, _) => match eval_members(entries, entries.len() as int) {
            Ok(m) => Ok(Val::Object(m)),
            Err(e) => Err(e),
        },
    }
}

/// The values of the first `n` list items, or the first error among them.
pub open spec fn eval_items(items: Seq<ValueTree>, n: int) -> Result<Seq<Val>, ErrorModel>
    decreases items, n,
{
    if n <= 0 || n > items.len() {
        Ok(Seq::empty())
    } else {
        match eval_items(items, n - 1) {
            Err(e) => Err(e),
            Ok(vs) => match eval_value(items[n - 1]) {
                Err(e) => Err(e),
                Ok(v) => Ok(vs.push(v)),
            },
        }
    }
}

/// The mapping of the first `n` members of an object literal.
pub open spec fn eval_members(entries: Seq<EntryTree>, n: int) -> Result<Members, ErrorModel>
    decreases entries, n,
{
    if n <= 0 || n > entries.len() {
        Ok(Seq::empty())
    } else {
        match eval_members(entries, n - 1) {
            Err(e) => Err(e),
            Ok(m) => {
                let entry = entries[n - 1];
                match eval_value(entry.value) {
                    Err(e) => Err(e),
                    Ok(v) => if has_key(m, entry.key) {
                        Err(error_model(duplicate_member_message(entry.key), entry.span))
                    } else {
                        Ok(m.push((entry.key, v)))
                    },
                }
            },
        }
    }
}

/// Adds the first `n` members of `nested` to `m`, failing at `span` on a key already there.
pub open spec fn splice(m: Members, nested: Members, n: int, span: crate::span::Span) -> Result<
    Members,
    ErrorModel,
>
    decreases n,
{
    if n <= 0 || n > nested.len() {
        Ok(m)
    } else {
        match splice(m, nested, n - 1, span) {
            Err(e) => Err(e),
            Ok(acc) => if has_key(acc, nested[n - 1].0) {
                Err(error_model(duplicate_key_message(nested[n - 1].0), span))
            } else {
                Ok(acc.push(nested[n - 1]))
            },
        }
    }
}

/// Adds one document item to the mapping `m`.
pub open spec fn eval_item(m: Members, node: NodeTree) -> Result<Members, ErrorModel>
    decreases node, 0int,
{
    match node {
        NodeTree::Entry(key, value, span) => match eval_value(value) {
            Err(e) => Err(e),
            Ok(v) => if has_key(m, key) {
                Err(error_model(duplicate_key_message(key), span))
            } else {
                Ok(m.push((key, v)))
            },
        },
        NodeTree::Block(name, body, span) => match eval_body(body, body.len() as int) {
            Err(e) => Err(e),
            Ok(nested) => if has_key(m, name) {
                Err(error_model(duplicate_block_message(name), span))
            } else {
                Ok(m.push((name, Val::Object(nested))))
            },
        },
        NodeTree::Document(body, span) => match eval_body(body, body.len() as int) {
            Err(e) => Err(e),
            Ok(nested) => splice(m, nested, nested.len() as int, span),
        },
    }
}

/// The mapping of the first `n` items of a body, in a fresh scope.
pub open spec fn eval_body(nodes: Seq<NodeTree>, n: int) -> Result<Members, ErrorModel>
    decreases nodes, n,
{
    if n <= 0 || n > nodes.len() {
        Ok(Seq::empty())
    } else {
        match eval_body(nodes, n - 1) {
            Err(e) => Err(e),
            Ok(m) => eval_item(m, nodes[n - 1]),
        }
    }
}

/// The value of a syntax tree: a document's items, or a lone item, as one mapping.
pub open spec fn eval_tree(node: NodeTree) -> Result<Val, ErrorModel> {
    let r = match node {
        NodeTree::Document(body, _) => eval_body(body, body.len() as int),
        _ => eval_item(Seq::empty(), node),
    };
    match r {
        Ok(m) => Ok(Val::Object(m)),
        Err(e) => Err(e),
    }
}


// ---------------------------------------------------------------------------
// When evaluation succeeds
// ---------------------------------------------------------------------------

pub open spec fn distinct(keys: Seq<Seq<char>>) -> bool {
    forall|i: int, j: int| 0 <= i < j < keys.len() ==> keys[i] != keys[j]
}

pub open spec fn member_keys(m: Members) -> Seq<Seq<char>> {
    m.map_values(|kv: (Seq<char>, Val)| kv.0)
}

pub open spec fn member_tree_keys(es: Seq<EntryTree>) -> Seq<Seq<char>> {
    es.map_values(|e: EntryTree| e.key)
}

/// The key that a document item binds: an entry's key or a block's name.
pub open spec fn item_key(n: NodeTree) -> Seq<char> {
    match n {
        NodeTree::Entry(k, _, _) => k,
        NodeTree::Block(name, _, _) => name,
        NodeTree::Document(_, _) => Seq::empty(),
    }
}

pub open spec fn item_keys(ns: Seq<NodeTree>) -> Seq<Seq<char>> {
    ns.map_values(|n: NodeTree| item_key(n))
}

/// Every object literal inside `v` has distinct keys.
pub open spec fn value_scopes_distinct(v: ValueTree) -> bool
    decreases v,
{
    match v {
        ValueTree::List(items, _) => forall|i: int|
            0 <= i < items.len() ==> value_scopes_distinct(#[trigger] items[i]),
        ValueTree::Object(es, _) => distinct(member_tree_keys(es)) && forall|i: int|
            0 <= i < es.len() ==> value_scopes_distinct(#[trigger] es[i].value),
        _ => true,
    }
}

/// Every scope of a body, the body's own included, has distinct keys; no
/// document is nested in it.
pub open spec fn body_scopes_distinct(ns: Seq<NodeTree>) -> bool
    decreases ns,
{
    &&& distinct(item_keys(ns))
    &&& forall|i: int|
        0 <= i < ns.len() ==> match #[trigger] ns[i] {
            NodeTree::Entry(_, v, _) => value_scopes_distinct(v),
            NodeTree::Block(_, body, _) => body_scopes_distinct(body),
            NodeTree::Document(_, _) => false,
        }
}

proof fn lemma_not_has_key(m: Members, keys: Seq<Seq<char>>, k: Seq<char>)
    requires
        member_keys(m) == keys,
        forall|i: int| 0 <= i < keys.len() ==> keys[i] != k,
    ensures
        !has_key(m, k),
{
    if has_key(m, k) {
        let i = choose|i: int| 0 <= i < m.len() && (#[trigger] m[i]).0 == k;
        assert(member_keys(m)[i] == k);
    }
}

proof fn lemma_value_ok(v: ValueTree)
    requires
        value_scopes_distinct(v),
    ensures
        eval_value(v) is Ok,
    decreases v, 0int,
{
    match v {
        ValueTree::List(items, _) => {
            lemma_items_ok(items, items.len() as int);
        },
        ValueTree::Object(es, _) => {
            lemma_members_ok(es, es.len() as int);
        },
        _ => {},
    }
}

proof fn lemma_items_ok(items: Seq<ValueTree>, n: int)
    requires
        0 <= n <= items.len(),
        forall|i: int| 0 <= i < items.len() ==> value_scopes_distinct(#[trigger] items[i]),
    ensures
        eval_items(items, n) is Ok,
    decreases items, n,
{
    if n > 0 {
        lemma_items_ok(items, n - 1);
        lemma_value_ok(items[n - 1]);
    }
}

proof fn lemma_members_ok(es: Seq<EntryTree>, n: int)
    requires
        0 <= n <= es.len(),
        distinct(member_tree_keys(es)),
        forall|i: int| 0 <= i < es.len() ==> value_scopes_distinct(#[trigger] es[i].value),
    ensures
        eval_members(es, n) is Ok,
        member_keys(eval_members(es, n)->Ok_0) == member_tree_keys(es).take(n),
    decreases es, n,
{
    if n > 0 {
        lemma_members_ok(es, n - 1);
        lemma_value_ok(es[n - 1].value);
        let m = eval_members(es, n - 1)->Ok_0;
        let keys = member_tree_keys(es);
        assert forall|i: int| 0 <= i < keys.take(n - 1).len() implies #[trigger] keys.take(n - 1)[i]
            != es[n - 1].key by {
            assert(keys[i] != keys[n - 1]);
        }
        lemma_not_has_key(m, keys.take(n - 1), es[n - 1].key);
        let v = eval_value(es[n - 1].value)->Ok_0;
        assert(member_keys(m.push((es[n - 1].key, v))) =~= keys.take(n));
    } else {
        assert(member_keys(Seq::empty()) =~= member_tree_keys(es).take(0));
    }
}

proof fn lemma_body_ok(ns: Seq<NodeTree>, n: int)
    requires
        0 <= n <= ns.len(),
        body_scopes_distinct(ns),
    ensures
        eval_body(ns, n) is Ok,
        member_keys(eval_body(ns, n)->Ok_0) == item_keys(ns).take(n),
    decreases ns, n,
{
    if n > 0 {
        lemma_body_ok(ns, n - 1);
        let m = eval_body(ns, n - 1)->Ok_0;
        let keys = item_keys(ns);
        let node = ns[n - 1];
        assert forall|i: int| 0 <= i < keys.take(n - 1).len() implies #[trigger] keys.take(n - 1)[i]
            != item_key(node) by {
            assert(keys[i] != keys[n - 1]);
        }
        lemma_not_has_key(m, keys.take(n - 1), item_key(node));
        assert(member_keys(m) == keys.take(n - 1));
        assert(eval_body(ns, n) == eval_item(m, node));
        match node {
            NodeTree::Entry(k, v, _) => {
                lemma_value_ok(v);
                let x = eval_value(v)->Ok_0;
                assert(eval_item(m, node) == Ok::<Members, ErrorModel>(m.push((k, x))));
                assert(member_keys(m.push((k, x))) =~= keys.take(n));
            },
            NodeTree::Block(name, body, _) => {
                lemma_body_ok(body, body.len() as int);
                let x = Val::Object(eval_body(body, body.len() as int)->Ok_0);
                assert(member_keys(m.push((name, x))) =~= keys.take(n));
            },
            NodeTree::Document(_, _) => {},
        }
    } else {
        assert(member_keys(Seq::empty()) =~= item_keys(ns).take(0));
    }
}

/// A document whose scopes each have distinct keys evaluates to a mapping
/// whose keys are its items' keys, in the order written.
pub proof fn lemma_document_evaluates(body: Seq<NodeTree>, span: crate::span::Span)
    requires
        body_scopes_distinct(body),
    ensures
        eval_tree(NodeTree::Document(body, span)) is Ok,
        eval_tree(NodeTree::Document(body, span))->Ok_0 is Object,
        member_keys(eval_tree(NodeTree::Document(body, span))->Ok_0->Object_0) == item_keys(body),
{
    lemma_body_ok(body, body.len() as int);
    assert(item_keys(body).take(body.len() as int) =~= item_keys(body));
}

/// No item of `ns`, at any depth, is a nested document.
pub open spec fn plain_body(ns: Seq<NodeTree>) -> bool
    decreases ns, 0int,
{
    forall|i: int| 0 <= i < ns.len() ==> plain_node(#[trigger] ns[i])
}

pub open spec fn plain_node(n: NodeTree) -> bool
    decreases n, 1int,
{
    match n {
        NodeTree::Entry(_, _, _) => true,
        NodeTree::Block(_, b, _) => plain_body(b),
        NodeTree::Document(_, _) => false,
    }
}

/// `x` is the value of `v` with every list and mapping in source order.
pub open spec fn follows_value(x: Val, v: ValueTree) -> bool
    decreases v, 1int,
{
    match v {
        ValueTree::Str(s, _) => x == Val::Str(s),
        ValueTree::Num(n, _) => x == Val::Num(n),
        ValueTree::Bool(b, _) => x == Val::Bool(b),
        ValueTree::List(items, _) => x is List && x->List_0.len() == items.len() && forall|k: int|
            0 <= k < items.len() ==> follows_value(x->List_0[k], #[trigger] items[k]),
        ValueTree::Object(es, _) => x is Object && x->Object_0.len() == es.len() && forall|k: int|
            0 <= k < es.len() ==> follows_member(x->Object_0[k], #[trigger] es[k]),
    }
}

pub open spec fn follows_member(x: (Seq<char>, Val), e: EntryTree) -> bool
    decreases e, 0int,
{
    x.0 == e.key && follows_value(x.1, e.value)
}

/// `m` lists the items of `ns` in source order, each block's mapping in turn
/// following its own items.
pub open spec fn follows_body(m: Members, ns: Seq<NodeTree>) -> bool
    decreases ns, 0int,
{
    m.len() == ns.len() && forall|k: int| 0 <= k < ns.len() ==> follows_item(m[k], #[trigger] ns[k])
}

pub open spec fn follows_item(x: (Seq<char>, Val), n: NodeTree) -> bool
    decreases n, 1int,
{
    &&& x.0 == item_key(n)
    &&& match n {
        NodeTree::Entry(_, v, _) => follows_value(x.1, v),
        NodeTree::Block(_, b, _) => x.1 is Object && follows_body(x.1->Object_0, b),
        NodeTree::Document(_, _) => false,
    }
}

proof fn lemma_items_char(items: Seq<ValueTree>, n: int)
    requires
        0 <= n <= items.len(),
        eval_items(items, n) is Ok,
    ensures
        eval_items(items, n)->Ok_0.len() == n,
        forall|k: int| 0 <= k < n ==> eval_value(#[trigger] items[k]) is Ok,
        forall|k: int|
            0 <= k < n ==> eval_items(items, n)->Ok_0[k] == eval_value(#[trigger] items[k])->Ok_0,
    decreases n,
{
    if n > 0 {
        assert(eval_items(items, n - 1) is Ok);
        lemma_items_char(items, n - 1);
        let r = eval_items(items, n - 1)->Ok_0;
        assert(eval_value(items[n - 1]) is Ok);
        let r2 = r.push(eval_value(items[n - 1])->Ok_0);
        assert forall|k: int| 0 <= k < n implies r2[k] == eval_value(#[trigger] items[k])->Ok_0 by {
            if k < n - 1 {
                assert(r2[k] == r[k]);
            }
        }
    }
}

/// A value that evaluates has distinct keys in each object literal, and
/// its value keeps the order of its lists and object literals.
proof fn lemma_value_facts(v: ValueTree)
    requires
        eval_value(v) is Ok,
    ensures
        value_scopes_distinct(v),
        follows_value(eval_value(v)->Ok_0, v),
    decreases v, 2int,
{
    match v {
        ValueTree::List(items, _) => {
            let n = items.len() as int;
            assert(eval_items(items, n) is Ok);
            lemma_items_char(items, n);
            let r = eval_items(items, n)->Ok_0;
            assert forall|k: int| 0 <= k < n implies value_scopes_distinct(#[trigger] items[k])
                && follows_value(r[k], items[k]) by {
                lemma_value_facts(items[k]);
            }
            assert(eval_value(v)->Ok_0 == Val::List(r));
        },
        ValueTree::Object(es, _) => {
            let n = es.len() as int;
            assert(eval_members(es, n) is Ok);
            lemma_members_char(es, n);
            let m = eval_members(es, n)->Ok_0;
            assert forall|k: int| 0 <= k < n implies value_scopes_distinct((#[trigger] es[k]).value)
                && follows_member(m[k], es[k]) by {
                assert(eval_value(es[k].value) is Ok);
                lemma_value_facts(es[k].value);
                assert(m[k] == (es[k].key, eval_value(es[k].value)->Ok_0));
            }
            let keys = member_tree_keys(es);
            assert forall|i: int, j: int| 0 <= i < j < keys.len() implies keys[i] != keys[j] by {
                assert(keys[i] == es[i].key && keys[j] == es[j].key);
            }
            assert(eval_value(v)->Ok_0 == Val::Object(m));
        },
        _ => {},
    }
}

/// A body that evaluates has distinct keys in every scope, and its mapping
/// follows its items in order.
proof fn lemma_body_facts(ns: Seq<NodeTree>, n: int)
    requires
        plain_body(ns),
        0 <= n <= ns.len(),
        eval_body(ns, n) is Ok,
    ensures
        eval_body(ns, n)->Ok_0.len() == n,
        forall|i: int, j: int|
            0 <= i < j < n ==> item_key(#[trigger] ns[i]) != item_key(#[trigger] ns[j]),
        forall|k: int|
            0 <= k < n ==> follows_item(eval_body(ns, n)->Ok_0[k], #[trigger] ns[k]) && match ns[k] {
                NodeTree::Entry(_, v, _) => value_scopes_distinct(v),
                NodeTree::Block(_, body, _) => body_scopes_distinct(body),
                NodeTree::Document(_, _) => false,
            },
    decreases ns, n,
{
    if n > 0 {
        assert(eval_body(ns, n - 1) is Ok);
        lemma_body_facts(ns, n - 1);
        let m = eval_body(ns, n - 1)->Ok_0;
        let node = ns[n - 1];
        assert(plain_node(node));
        assert(eval_body(ns, n) == eval_item(m, node));
        let r = eval_body(ns, n)->Ok_0;
        let key = item_key(node);
        assert(!has_key(m, key)) by {
            match node {
                NodeTree::Entry(_, v, _) => {
                    assert(eval_value(v) is Ok);
                },
                NodeTree::Block(_, b, _) => {
                    assert(eval_body(b, b.len() as int) is Ok);
                },
                NodeTree::Document(_, _) => {},
            }
        }
        let x = r[n - 1];
        match node {
            NodeTree::Entry(_, v, _) => {
                assert(eval_value(v) is Ok);
                lemma_value_facts(v);
                assert(r == m.push((key, eval_value(v)->Ok_0)));
            },
            NodeTree::Block(_, b, _) => {
                assert(eval_body(b, b.len() as int) is Ok);
                lemma_body_facts(b, b.len() as int);
                let inner = eval_body(b, b.len() as int)->Ok_0;
                assert(r == m.push((key, Val::Object(inner))));
                assert(distinct(item_keys(b))) by {
                    assert forall|i: int, j: int| 0 <= i < j < item_keys(b).len() implies item_keys(b)[i]
                        != item_keys(b)[j] by {
                        assert(item_key(b[i]) != item_key(b[j]));
                    }
                }
                assert(body_scopes_distinct(b));
                assert(follows_body(inner, b));
            },
            NodeTree::Document(_, _) => {},
        }
        assert forall|i: int, j: int| 0 <= i < j < n implies item_key(#[trigger] ns[i]) != item_key(
            #[trigger] ns[j],
        ) by {
            if j == n - 1 {
                assert(follows_item(m[i], ns[i]));
                assert(m[i].0 == item_key(ns[i]));
            }
        }
        assert forall|k: int| 0 <= k < n implies follows_item(r[k], #[trigger] ns[k]) && match ns[k] {
            NodeTree::Entry(_, v, _) => value_scopes_distinct(v),
            NodeTree::Block(_, body, _) => body_scopes_distinct(body),
            NodeTree::Document(_, _) => false,
        } by {
            if k < n - 1 {
                assert(r[k] == m[k]);
            }
        }
    }
}

/// For items as the parser builds them, evaluation succeeds exactly when
/// every scope has distinct keys, and then its mapping follows the items.
pub proof fn lemma_document_facts(body: Seq<NodeTree>, span: crate::span::Span)
    requires
        plain_body(body),
        eval_tree(NodeTree::Document(body, span)) is Ok,
    ensures
        body_scopes_distinct(body),
        eval_tree(NodeTree::Document(body, span))->Ok_0 is Object,
        follows_body(eval_tree(NodeTree::Document(body, span))->Ok_0->Object_0, body),
{
    let n = body.len() as int;
    assert(eval_body(body, n) is Ok);
    lemma_body_facts(body, n);
    assert forall|i: int, j: int| 0 <= i < j < item_keys(body).len() implies item_keys(body)[i]
        != item_keys(body)[j] by {
        assert(item_key(body[i]) != item_key(body[j]));
    }
}

proof fn lemma_items_err(items: Seq<ValueTree>, n: int, m: int)
    requires
        0 <= n <= m <= items.len(),
        eval_items(items, n) is Err,
    ensures
        eval_items(items, m) == eval_items(items, n),
    decreases m - n,
{
    if n < m {
        lemma_items_err(items, n, m - 1);
    }
}

proof fn lemma_members_err(entries: Seq<EntryTree>, n: int, m: int)
    requires
        0 <= n <= m <= entries.len(),
        eval_members(entries, n) is Err,
    ensures
        eval_members(entries, m) == eval_members(entries, n),
    decreases m - n,
{
    if n < m {
        lemma_members_err(entries, n, m - 1);
    }
}

proof fn lemma_body_err(nodes: Seq<NodeTree>, n: int, m: int)
    requires
        0 <= n <= m <= nodes.len(),
        eval_body(nodes, n) is Err,
    ensures
        eval_body(nodes, m) == eval_body(nodes, n),
    decreases m - n,
{
    if n < m {
        lemma_body_err(nodes, n, m - 1);
    }
}

proof fn lemma_splice_err(m0: Members, nested: Members, n: int, k: int, span: crate::span::Span)
    requires
        0 <= n <= k <= nested.len(),
        splice(m0, nested, n, span) is Err,
    ensures
        splice(m0, nested, k, span) == splice(m0, nested, n, span),
    decreases k - n,
{
    if n < k {
        lemma_splice_err(m0, nested, n, k - 1, span);
    }
}

/// `prefix`, then `key`, then `suffix`.
fn quoted_message(prefix: &str, key: &String, suffix: &str) -> (r: String)
    ensures
        r@ == prefix@ + key@ + suffix@,
{
    let mut message = String::from_str(prefix);
    message.append(key.as_str());
    message.append(suffix);
    message
}

fn copy_number(n: &OrbitNumber) -> (r: OrbitNumber)
    ensures
        r@ == n@,
{
    match n {
        OrbitNumber::Integer(i) => OrbitNumber::Integer(*i),
        OrbitNumber::Float(s) => OrbitNumber::Float(s.clone()),
    }
}

/// Reduces syntax trees to values, enforcing unique keys in each scope.
pub struct Evaluator;

impl Evaluator {
    /// Evaluates a document, or a lone entry or block, into one mapping.
    pub fn evaluate(ast: &AstNode) -> (r: Result<OrbitValue, RuntimeError>)
        ensures
            match eval_tree(ast@) {
                Ok(v) => r is Ok && r->Ok_0@ == v,
                Err(e) => r is Err && r->Err_0@ == e,
            },
    {
        match ast {
            AstNode::Document { body, span } => {
                proof {
                    lemma_document_view(*body, *span);
                }
                match Self::evaluate_nodes(body) {
                    Ok(map) => Ok(OrbitValue::Object(map)),
                    Err(e) => Err(e),
                }
            },
            _ => {
                let mut env = Environment::new();
                match Self::evaluate_item(&mut env, ast) {
                    Ok(()) => Ok(env.into_value()),
                    Err(e) => Err(e),
                }
            },
        }
    }

    /// The mapping of a body's items, in a fresh scope.
    fn evaluate_nodes(nodes: &Vec<AstNode>) -> (r: Result<ObjectMap, RuntimeError>)
        ensures
            match eval_body(nodes_view(nodes@), nodes.len() as int) {
                Ok(m) => r is Ok && r->Ok_0@ == m,
                Err(e) => r is Err && r->Err_0@ == e,
            },
        decreases nodes, 1int,
    {
        let ghost ns = nodes_view(nodes@);
        let mut env = Environment::new();
        let mut i: usize = 0;
        while i < nodes.len()
            invariant
                i <= nodes.len(),
                ns == nodes_view(nodes@),
                eval_body(ns, i as int) == Ok::<Members, ErrorModel>(env@),
            decreases nodes.len() - i,
        {
            match Self::evaluate_item(&mut env, &nodes[i]) {
                Ok(()) => {},
                Err(e) => {
                    proof {
                        lemma_body_err(ns, i + 1, nodes.len() as int);
                    }
                    return Err(e);
                },
            }
            i = i + 1;
        }
        Ok(env.into_map())
    }

    /// Adds one item to the mapping `env`.
    fn evaluate_item(env: &mut Environment, node: &AstNode) -> (r: Result<(), RuntimeError>)
        ensures
            match eval_item(old(env)@, node@) {
                Ok(m) => r is Ok && final(env)@ == m,
                Err(e) => r is Err && r->Err_0@ == e,
            },
        decreases node, 0int,
    {
        match node {
            AstNode::Entry { key, value, span } => {
                let evaluated = match Self::evaluate_value(value) {
                    Ok(v) => v,
                    Err(e) => return Err(e),
                };
                if env.insert(key.clone(), evaluated).is_some() {
                    let message = quoted_message("duplicate key '", key, "'");
                    return Err(RuntimeError { message, span: *span });
                }
                Ok(())
            },
            AstNode::Block { name, body, span } => {
                proof {
                    lemma_block_view(*name, *body, *span);
                }
                let nested = match Self::evaluate_nodes(body) {
                    Ok(m) => m,
                    Err(e) => return Err(e),
                };
                if env.insert(name.clone(), OrbitValue::Object(nested)).is_some() {
                    let message = quoted_message("duplicate block '", name, "'");
                    return Err(RuntimeError { message, span: *span });
                }
                Ok(())
            },
            AstNode::Document { body, span } => {
                proof {
                    lemma_document_view(*body, *span);
                }
                let mut nested = match Self::evaluate_nodes(body) {
                    Ok(m) => m,
                    Err(e) => return Err(e),
                };
                let ghost m0 = env@;
                let ghost all = nested@;
                let total = nested.len();
                let mut k: usize = 0;
                while nested.len() > 0
                    invariant
                        k <= all.len() == total,
                        m0 == old(env)@,
                        eval_item(old(env)@, node@) == splice(m0, all, all.len() as int, *span),
                        nested@ == all.subrange(k as int, all.len() as int),
                        splice(m0, all, k as int, *span) == Ok::<Members, ErrorModel>(env@),
                    decreases nested@.len(),
                {
                    let (key, value) = match nested.shift_remove_index(0) {
                        Some(kv) => kv,
                        None => return Ok(()),
                    };
                    let shown = key.clone();
                    if env.insert(key, value).is_some() {
                        proof {
                            lemma_splice_err(m0, all, k + 1, all.len() as int, *span);
                        }
                        let message = quoted_message("duplicate key '", &shown, "'");
                        return Err(RuntimeError { message, span: *span });
                    }
                    k = k + 1;
                }
                proof {
                    assert(k == all.len());
                }
                Ok(())
            },
        }
    }

    fn evaluate_value(value: &ValueNode) -> (r: Result<OrbitValue, RuntimeError>)
        ensures
            match eval_value(value@) {
                Ok(v) => r is Ok && r->Ok_0@ == v,
                Err(e) => r is Err && r->Err_0@ == e,
            },
        decreases value, 0int,
    {
        match value {
            ValueNode::String { value, .. } => Ok(OrbitValue::String(value.clone())),
            ValueNode::Number { value, .. } => Ok(OrbitValue::Number(copy_number(value))),
            ValueNode::Bool { value, .. } => Ok(OrbitValue::Bool(*value)),
            ValueNode::List { items, span } => {
                proof {
                    lemma_list_view(*items, *span);
                }
                match Self::evaluate_list(items) {
                    Ok(vs) => {
                        proof {
                            lemma_value_list_view(vs);
                        }
                        Ok(OrbitValue::List(vs))
                    },
                    Err(e) => Err(e),
                }
            },
            ValueNode::Object { entries, span } => {
                proof {
                    lemma_object_view(*entries, *span);
                }
                match Self::evaluate_object_entries(entries) {
                    Ok(map) => Ok(OrbitValue::Object(map)),
                    Err(e) => Err(e),
                }
            },
        }
    }

    fn evaluate_list(items: &Vec<ValueNode>) -> (r: Result<Vec<OrbitValue>, RuntimeError>)
        ensures
            match eval_items(values_view(items@), items.len() as int) {
                Ok(vs) => r is Ok && vals_view(r->Ok_0@) == vs,
                Err(e) => r is Err && r->Err_0@ == e,
            },
        decreases items, 1int,
    {
        let ghost vs = values_view(items@);
        let mut evaluated: Vec<OrbitValue> = Vec::new();
        let mut i: usize = 0;
        proof {
            assert(vals_view(evaluated@) =~= Seq::<Val>::empty());
        }
        while i < items.len()
            invariant
                i <= items.len(),
                vs == values_view(items@),
                eval_items(vs, i as int) == Ok::<Seq<Val>, ErrorModel>(vals_view(evaluated@)),
            decreases items.len() - i,
        {
            let item = match Self::evaluate_value(&items[i]) {
                Ok(v) => v,
                Err(e) => {
                    proof {
                        lemma_items_err(vs, i + 1, items.len() as int);
                    }
                    return Err(e);
                },
            };
            proof {
                lemma_vals_push(evaluated@, item);
            }
            evaluated.push(item);
            i = i + 1;
        }
        Ok(evaluated)
    }

    fn evaluate_object_entries(entries: &Vec<ObjectEntry>) -> (r: Result<ObjectMap, RuntimeError>)
        ensures
            match eval_members(entries_view(entries@), entries.len() as int) {
                Ok(m) => r is Ok && r->Ok_0@ == m,
                Err(e) => r is Err && r->Err_0@ == e,
            },
        decreases entries, 1int,
    {
        let ghost es = entries_view(entries@);
        let mut map = ObjectMap::new();
        let mut i: usize = 0;
        while i < entries.len()
            invariant
                i <= entries.len(),
                es == entries_view(entries@),
                eval_members(es, i as int) == Ok::<Members, ErrorModel>(map@),
            decreases entries.len() - i,
        {
            let entry = &entries[i];
            let value = match Self::evaluate_value(&entry.value) {
                Ok(v) => v,
                Err(e) => {
                    proof {
                        lemma_members_err(es, i + 1, entries.len() as int);
                    }
                    return Err(e);
                },
            };
            if map.insert(entry.key.clone(), value).is_some() {
                proof {
                    lemma_members_err(es, i + 1, entries.len() as int);
                }
                let message = quoted_message("duplicate key '", &entry.key, "' inside object literal");
                return Err(RuntimeError { message, span: entry.span });
            }
            i = i + 1;
        }
        Ok(map)
    }
}

} // verus!
