use vstd::prelude::*;

use crate::span::Span;

verus! {

/// A malformed character stream.
#[derive(Debug)]
pub struct LexError {
    pub message: String,
    pub span: Span,
}

/// A grammar violation or a literal that does not convert.
#[derive(Debug)]
pub struct ParseError {
    pub message: String,
    pub span: Span,
}

/// A duplicate key met during evaluation.
#[derive(Debug)]
pub struct RuntimeError {
    pub message: String,
    pub span: Span,
}

/// The first error of the parse-then-evaluate pipeline, of whichever stage.
#[derive(Debug)]
pub enum CoreError {
    Lex(LexError),
    Parse(ParseError),
    Runtime(RuntimeError),
}

/// An error as a message and a span, without its owning string.
pub struct ErrorModel {
    pub message: Seq<char>,
    pub span: Span,
}

pub open spec fn error_model(message: Seq<char>, span: Span) -> ErrorModel {
    ErrorModel { message, span }
}

impl View for LexError {
    type V = ErrorModel;

    open spec fn view(&self) -> ErrorModel {
        ErrorModel { message: self.message@, span: self.span }
    }
}

impl View for ParseError {
    type V = ErrorModel;

    open spec fn view(&self) -> ErrorModel {
        ErrorModel { message: self.message@, span: self.span }
    }
}

impl View for RuntimeError {
    type V = ErrorModel;

    open spec fn view(&self) -> ErrorModel {
        ErrorModel { message: self.message@, span: self.span }
    }
}

impl LexError {
    pub fn new(message: &str, span: Span) -> (r: LexError)
        ensures
            r.message@ == message@,
            r.span == span,
    {
        LexError { message: String::from_str(message), span }
    }
}

impl ParseError {
    pub fn new(message: &str, span: Span) -> (r: ParseError)
        ensures
            r.message@ == message@,
            r.span == span,
    {
        ParseError { message: String::from_str(message), span }
    }
}

impl RuntimeError {
    pub fn new(message: &str, span: Span) -> (r: RuntimeError)
        ensures
            r.message@ == message@,
            r.span == span,
    {
        RuntimeError { message: String::from_str(message), span }
    }
}

} // verus!
