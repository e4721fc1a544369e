//! A small configuration language: a lexer, a recursive-descent parser with
//! error recovery, an evaluator that enforces unique keys per scope, and a
//! canonical printer. Each stage is specified by spec functions over
//! character sequences and trees, and its code is proved to compute them.

use vstd::prelude::*;

pub mod ast;
pub mod error;
pub mod evaluator;
pub mod format;
pub mod grammar;
pub mod lexer;
pub mod number;
pub mod parser;
pub mod roundtrip;
pub mod span;
mod text;
pub mod token;
pub mod value;

pub use crate::ast::{AstNode, ObjectEntry, OrbitNumber, ValueNode};
pub use crate::error::{CoreError, LexError, ParseError, RuntimeError};
pub use crate::evaluator::Evaluator;
pub use crate::format::{format_source, FormatError};
pub use crate::lexer::{lex, Lexer};
pub use crate::parser::{document, ParseReport, Parser};
pub use crate::span::Span;
pub use crate::token::{Token, TokenKind};
pub use crate::value::{Environment, ObjectMap, OrbitValue};

use crate::ast::NodeTree;
use crate::error::ErrorModel;
use crate::evaluator::{
    body_scopes_distinct, eval_tree, follows_body, item_keys, lemma_document_evaluates,
    lemma_document_facts, member_keys,
};
use crate::roundtrip::lemma_parsed_body_plain;
use crate::lexer::lex_spec;
use crate::parser::{errors_view, parse_tokens, recover_tokens};
use crate::value::Val;

verus! {

/// Which stage failed, and how.
pub enum Failure {
    Lex(ErrorModel),
    Parse(ErrorModel),
    Runtime(ErrorModel),
}

impl View for CoreError {
    type V = Failure;

    open spec fn view(&self) -> Failure {
        match self {
            CoreError::Lex(e) => Failure::Lex(e@),
            CoreError::Parse(e) => Failure::Parse(e@),
            CoreError::Runtime(e) => Failure::Runtime(e@),
        }
    }
}

/// The strict parse of a text.
pub open spec fn parse_spec(text: Seq<char>) -> Result<NodeTree, Failure> {
    match lex_spec(text) {
        Err(e) => Err(Failure::Lex(e)),
        Ok(ts) => match parse_tokens(ts) {
            Ok(n) => Ok(n),
            Err(e) => Err(Failure::Parse(e)),
        },
    }
}

/// The value of a text: its strict parse, evaluated.
pub open spec fn evaluate_spec(text: Seq<char>) -> Result<Val, Failure> {
    match parse_spec(text) {
        Err(f) => Err(f),
        Ok(n) => match eval_tree(n) {
            Ok(v) => Ok(v),
            Err(e) => Err(Failure::Runtime(e)),
        },
    }
}

/// Parses `source`, stopping at the first lex or parse error.
pub fn parse(source: &str) -> (r: Result<AstNode, CoreError>)
    ensures
        match parse_spec(source@) {
            Ok(n) => r is Ok && r->Ok_0@ == n,
            Err(f) => r is Err && r->Err_0@ == f,
        },
{
    let parser = match Parser::from_source(source) {
        Ok(p) => p,
        Err(e) => return Err(CoreError::Lex(e)),
    };
    match parser.parse_document() {
        Ok(ast) => Ok(ast),
        Err(e) => Err(CoreError::Parse(e)),
    }
}

/// Parses and evaluates `source`, stopping at the first error of any stage.
pub fn evaluate(source: &str) -> (r: Result<OrbitValue, CoreError>)
    ensures
        match evaluate_spec(source@) {
            Ok(v) => r is Ok && r->Ok_0@ == v,
            Err(f) => r is Err && r->Err_0@ == f,
        },
{
    let ast = match parse(source) {
        Ok(ast) => ast,
        Err(e) => return Err(e),
    };
    match Evaluator::evaluate(&ast) {
        Ok(v) => Ok(v),
        Err(e) => Err(CoreError::Runtime(e)),
    }
}

/// Evaluates a syntax tree supplied directly.
pub fn evaluate_ast(ast: &AstNode) -> (r: Result<OrbitValue, RuntimeError>)
    ensures
        match eval_tree(ast@) {
            Ok(v) => r is Ok && r->Ok_0@ == v,
            Err(e) => r is Err && r->Err_0@ == e,
        },
{
    Evaluator::evaluate(ast)
}

/// Parses `source` with recovery: a best-effort document and every parse
/// error; only a lex error fails the call.
pub fn parse_with_recovery(source: &str) -> (r: Result<ParseReport, CoreError>)
    ensures
        match lex_spec(source@) {
            Err(e) => r is Err && r->Err_0@ == Failure::Lex(e),
            Ok(ts) => r is Ok && (r->Ok_0.document@, errors_view(r->Ok_0.errors@))
                == recover_tokens(ts),
        },
{
    let parser = match Parser::from_source(source) {
        Ok(p) => p,
        Err(e) => return Err(CoreError::Lex(e)),
    };
    Ok(parser.parse_document_with_recovery())
}

/// A text that parses evaluates without error when every scope of its
/// document (the top level, each block body, each object literal) has
/// distinct keys; the mapping it gives lists the document's items in the
/// order they were written. `evaluate` returns exactly `evaluate_spec` of the
/// text, so repeated runs agree.
pub proof fn law_parsed_documents_evaluate(text: Seq<char>)
    requires
        parse_spec(text) is Ok,
        body_scopes_distinct(parse_spec(text)->Ok_0->Document_0),
    ensures
        evaluate_spec(text) is Ok,
        evaluate_spec(text)->Ok_0 is Object,
        member_keys(evaluate_spec(text)->Ok_0->Object_0) == item_keys(
            parse_spec(text)->Ok_0->Document_0,
        ),
{
    let tree = parse_spec(text)->Ok_0;
    lemma_document_evaluates(tree->Document_0, tree->Document_1);
}

/// A text that parses fails to evaluate only on a repeated key: it
/// evaluates exactly when every scope of its document (the top level, each
/// block body, each object literal) has distinct keys. Repeated values in a
/// list never fail.
pub proof fn law_evaluation_fails_only_on_repeated_keys(text: Seq<char>)
    requires
        parse_spec(text) is Ok,
    ensures
        evaluate_spec(text) is Ok <==> body_scopes_distinct(parse_spec(text)->Ok_0->Document_0),
{
    let tree = parse_spec(text)->Ok_0;
    lemma_parsed_body_plain(text);
    if evaluate_spec(text) is Ok {
        lemma_document_facts(tree->Document_0, tree->Document_1);
    }
    if body_scopes_distinct(tree->Document_0) {
        law_parsed_documents_evaluate(text);
    }
}

/// The value of a text keeps the order in which things were written: its
/// mapping lists the document's items in order, each block's mapping its own
/// items in order, each object literal its members in order, and each list
/// its items in order, duplicates included.
pub proof fn law_evaluation_keeps_source_order(text: Seq<char>)
    requires
        evaluate_spec(text) is Ok,
    ensures
        evaluate_spec(text)->Ok_0 is Object,
        follows_body(evaluate_spec(text)->Ok_0->Object_0, parse_spec(text)->Ok_0->Document_0),
{
    let tree = parse_spec(text)->Ok_0;
    lemma_parsed_body_plain(text);
    lemma_document_facts(tree->Document_0, tree->Document_1);
}

} // verus!
