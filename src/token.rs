use vstd::prelude::*;

use crate::span::Span;

verus! {

#[derive(Debug)]
pub enum TokenKind {
    Ident(String),
    String(String),
    Number(String),
    Bool(bool),
    LBrace,
    RBrace,
    LBracket,
    RBracket,
    Colon,
    Comma,
    Newline,
    Comment(String),
    Eof,
}

/// A token kind with its text as a character sequence.
pub enum Kind {
    Ident(Seq<char>),
    Str(Seq<char>),
    Number(Seq<char>),
    Bool(bool),
    LBrace,
    RBrace,
    LBracket,
    RBracket,
    Colon,
    Comma,
    Newline,
    Comment(Seq<char>),
    Eof,
}

impl View for TokenKind {
    type V = Kind;

    open spec fn view(&self) -> Kind {
        match self {
            TokenKind::Ident(s) => Kind::Ident(s@),
            TokenKind::String(s) => Kind::Str(s@),
            TokenKind::Number(s) => Kind::Number(s@),
            TokenKind::Bool(b) => Kind::Bool(*b),
            TokenKind::LBrace => Kind::LBrace,
            TokenKind::RBrace => Kind::RBrace,
            TokenKind::LBracket => Kind::LBracket,
            TokenKind::RBracket => Kind::RBracket,
            TokenKind::Colon => Kind::Colon,
            TokenKind::Comma => Kind::Comma,
            TokenKind::Newline => Kind::Newline,
            TokenKind::Comment(s) => Kind::Comment(s@),
            TokenKind::Eof => Kind::Eof,
        }
    }
}

#[derive(Debug)]
pub struct Token {
    pub kind: TokenKind,
    pub span: Span,
}

/// A token as its kind and span.
pub struct Tok {
    pub kind: Kind,
    pub span: Span,
}

pub open spec fn tok(kind: Kind, span: Span) -> Tok {
    Tok { kind, span }
}

impl View for Token {
    type V = Tok;

    open spec fn view(&self) -> Tok {
        Tok { kind: self.kind@, span: self.span }
    }
}

/// Newlines and comments: present in the stream, invisible to the grammar.
pub open spec fn is_trivia_kind(k: Kind) -> bool {
    k is Newline || k is Comment
}

/// What a token kind is called in a diagnostic.
pub open spec fn kind_name(k: Kind) -> Seq<char> {
    match k {
        Kind::Ident(_) => "identifier"@,
        Kind::Str(_) => "string"@,
        Kind::Number(_) => "number"@,
        Kind::Bool(_) => "boolean"@,
        Kind::LBrace => "{"@,
        Kind::RBrace => "}"@,
        Kind::LBracket => "["@,
        Kind::RBracket => "]"@,
        Kind::Colon => ":"@,
        Kind::Comma => ","@,
        Kind::Newline => "newline"@,
        Kind::Comment(_) => "comment"@,
        Kind::Eof => "end of file"@,
    }
}

impl Token {
    pub fn is_trivia(&self) -> (r: bool)
        ensures
            r == is_trivia_kind(self.kind@),
    {
        match self.kind {
            TokenKind::Newline | TokenKind::Comment(_) => true,
            _ => false,
        }
    }
}

impl TokenKind {
    pub fn describe(&self) -> (r: &'static str)
        ensures
            r@ == kind_name(self@),
    {
        match self {
            TokenKind::Ident(_) => "identifier",
            TokenKind::String(_) => "string",
            TokenKind::Number(_) => "number",
            TokenKind::Bool(_) => "boolean",
            TokenKind::LBrace => "{",
            TokenKind::RBrace => "}",
            TokenKind::LBracket => "[",
            TokenKind::RBracket => "]",
            TokenKind::Colon => ":",
            TokenKind::Comma => ",",
            TokenKind::Newline => "newline",
            TokenKind::Comment(_) => "comment",
            TokenKind::Eof => "end of file",
        }
    }
}

} // verus!
