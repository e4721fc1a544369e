use vstd::prelude::*;

use crate::span::Span;

verus! {

/// A number as the literal gave it: an integer, or the text of a decimal fraction.
#[derive(Debug, PartialEq)]
pub enum OrbitNumber {
    Integer(i64),
    /// The literal's text, such as `3.0` or `-0.25`.
    Float(String),
}

/// A number with its text as a character sequence.
pub enum Num {
    Integer(i64),
    Float(Seq<char>),
}

impl View for OrbitNumber {
    type V = Num;

    open spec fn view(&self) -> Num {
        match self {
            OrbitNumber::Integer(i) => Num::Integer(*i),
            OrbitNumber::Float(s) => Num::Float(s@),
        }
    }
}

#[derive(Debug)]
pub enum ValueNode {
    String { value: String, span: Span },
    Number { value: OrbitNumber, span: Span },
    Bool { value: bool, span: Span },
    List { items: Vec<ValueNode>, span: Span },
    Object { entries: Vec<ObjectEntry>, span: Span },
}

#[derive(Debug)]
pub struct ObjectEntry {
    pub key: String,
    pub value: ValueNode,
    pub span: Span,
}

#[derive(Debug)]
pub enum AstNode {
    Document { body: Vec<AstNode>, span: Span },
    Entry { key: String, value: ValueNode, span: Span },
    Block { name: String, body: Vec<AstNode>, span: Span },
}

/// A value of the syntax tree, with strings as character sequences.
pub enum ValueTree {
    Str(Seq<char>, Span),
    Num(Num, Span),
    Bool(bool, Span),
    List(Seq<ValueTree>, Span),
    Object(Seq<EntryTree>, Span),
}

/// One `key: value` member of an object literal.
pub struct EntryTree {
    pub key: Seq<char>,
    pub value: ValueTree,
    pub span: Span,
}

/// A node of the syntax tree, with strings as character sequences.
pub enum NodeTree {
    Document(Seq<NodeTree>, Span),
    Entry(Seq<char>, ValueTree, Span),
    Block(Seq<char>, Seq<NodeTree>, Span),
}

pub open spec fn value_tree(v: &ValueNode) -> ValueTree
    decreases v, 1int,
{
    match v {
        ValueNode::String { value, span } => ValueTree::Str(value@, *span),
        ValueNode::Number { value, span } => ValueTree::Num(value@, *span),
        ValueNode::Bool { value, span } => ValueTree::Bool(*value, *span),
        ValueNode::List { items, span } => ValueTree::List(
            Seq::new(
                items.len() as nat,
                |i: int|
                    if 0 <= i < items.len() {
                        value_tree(&items[i])
                    } else {
                        ValueTree::Bool(false, *span)
                    },
            ),
            *span,
        ),
        ValueNode::Object { entries, span } => ValueTree::Object(
            Seq::new(
                entries.len() as nat,
                |i: int|
                    if 0 <= i < entries.len() {
                        entry_tree(&entries[i])
                    } else {
                        EntryTree { key: Seq::empty(), value: ValueTree::Bool(false, *span), span: *span }
                    },
            ),
            *span,
        ),
    }
}

pub open spec fn entry_tree(e: &ObjectEntry) -> EntryTree
    decreases e, 0int,
{
    EntryTree { key: e.key@, value: value_tree(&e.value), span: e.span }
}


pub open spec fn node_tree(n: &AstNode) -> NodeTree
    decreases n,
{
    match n {
        AstNode::Document { body, span } => NodeTree::Document(
            Seq::new(
                body.len() as nat,
                |i: int|
                    if 0 <= i < body.len() {
                        node_tree(&body[i])
                    } else {
                        NodeTree::Document(Seq::empty(), *span)
                    },
            ),
            *span,
        ),
        AstNode::Entry { key, value, span } => NodeTree::Entry(key@, value_tree(value), *span),
        AstNode::Block { name, body, span } => NodeTree::Block(
            name@,
            Seq::new(
                body.len() as nat,
                |i: int|
                    if 0 <= i < body.len() {
                        node_tree(&body[i])
                    } else {
                        NodeTree::Document(Seq::empty(), *span)
                    },
            ),
            *span,
        ),
    }
}

impl View for ValueNode {
    type V = ValueTree;

    open spec fn view(&self) -> ValueTree {
        value_tree(self)
    }
}

impl View for ObjectEntry {
    type V = EntryTree;

    open spec fn view(&self) -> EntryTree {
        entry_tree(self)
    }
}

impl View for AstNode {
    type V = NodeTree;

    open spec fn view(&self) -> NodeTree {
        node_tree(self)
    }
}

pub open spec fn values_view(vs: Seq<ValueNode>) -> Seq<ValueTree> {
    vs.map_values(|v: ValueNode| value_tree(&v))
}

pub open spec fn entries_view(es: Seq<ObjectEntry>) -> Seq<EntryTree> {
    es.map_values(|e: ObjectEntry| entry_tree(&e))
}

pub open spec fn nodes_view(ns: Seq<AstNode>) -> Seq<NodeTree> {
    ns.map_values(|n: AstNode| node_tree(&n))
}

pub open spec fn value_span(v: ValueTree) -> Span {
    match v {
        ValueTree::Str(_, s) => s,
        ValueTree::Num(_, s) => s,
        ValueTree::Bool(_, s) => s,
        ValueTree::List(_, s) => s,
        ValueTree::Object(_, s) => s,
    }
}

pub open spec fn node_span(n: NodeTree) -> Span {
    match n {
        NodeTree::Document(_, s) => s,
        NodeTree::Entry(_, _, s) => s,
        NodeTree::Block(_, _, s) => s,
    }
}

pub proof fn lemma_list_view(items: Vec<ValueNode>, span: Span)
    ensures
        (ValueNode::List { items, span })@ == ValueTree::List(values_view(items@), span),
{
    let t = value_tree(&ValueNode::List { items, span });
    assert(t->List_0 =~= values_view(items@));
}

pub proof fn lemma_object_view(entries: Vec<ObjectEntry>, span: Span)
    ensures
        (ValueNode::Object { entries, span })@ == ValueTree::Object(entries_view(entries@), span),
{
    let t = value_tree(&ValueNode::Object { entries, span });
    assert(t->Object_0 =~= entries_view(entries@));
}

pub proof fn lemma_document_view(body: Vec<AstNode>, span: Span)
    ensures
        (AstNode::Document { body, span })@ == NodeTree::Document(nodes_view(body@), span),
{
    let t = node_tree(&AstNode::Document { body, span });
    assert(t->Document_0 =~= nodes_view(body@));
}

pub proof fn lemma_block_view(name: String, body: Vec<AstNode>, span: Span)
    ensures
        (AstNode::Block { name, body, span })@ == NodeTree::Block(name@, nodes_view(body@), span),
{
    let t = node_tree(&AstNode::Block { name, body, span });
    assert(t->Block_1 =~= nodes_view(body@));
}

pub proof fn lemma_values_push(vs: Seq<ValueNode>, v: ValueNode)
    ensures
        values_view(vs.push(v)) == values_view(vs).push(v@),
{
    assert(values_view(vs.push(v)) =~= values_view(vs).push(v@));
}

pub proof fn lemma_entries_push(es: Seq<ObjectEntry>, e: ObjectEntry)
    ensures
        entries_view(es.push(e)) == entries_view(es).push(e@),
{
    assert(entries_view(es.push(e)) =~= entries_view(es).push(e@));
}

pub proof fn lemma_nodes_push(ns: Seq<AstNode>, n: AstNode)
    ensures
        nodes_view(ns.push(n)) == nodes_view(ns).push(n@),
{
    assert(nodes_view(ns.push(n)) =~= nodes_view(ns).push(n@));
}

impl AstNode {
    pub fn span(&self) -> (r: Span)
        ensures
            r == node_span(self@),
    {
        match self {
            AstNode::Document { span, .. } => *span,
            AstNode::Entry { span, .. } => *span,
            AstNode::Block { span, .. } => *span,
        }
    }

    /// The items of a document or block.
    pub fn as_body(&self) -> (r: Option<&Vec<AstNode>>)
        ensures
            match self {
                AstNode::Document { body, .. } => r == Some(body),
                AstNode::Block { body, .. } => r == Some(body),
                AstNode::Entry { .. } => r is None,
            },
    {
        match self {
            AstNode::Document { body, .. } => Some(body),
            AstNode::Block { body, .. } => Some(body),
            AstNode::Entry { .. } => None,
        }
    }
}

impl ValueNode {
    pub fn span(&self) -> (r: Span)
        ensures
            r == value_span(self@),
    {
        match self {
            ValueNode::String { span, .. } => *span,
            ValueNode::Number { span, .. } => *span,
            ValueNode::Bool { span, .. } => *span,
            ValueNode::List { span, .. } => *span,
            ValueNode::Object { span, .. } => *span,
        }
    }
}

} // verus!
