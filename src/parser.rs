use vstd::prelude::*;

use crate::ast::{
    entries_view, lemma_block_view, lemma_document_view, lemma_entries_push, lemma_list_view,
    lemma_nodes_push, lemma_object_view, lemma_values_push, nodes_view, values_view, AstNode,
    EntryTree, NodeTree, ObjectEntry, ValueNode, ValueTree,
};
use crate::error::{error_model, ErrorModel, LexError, ParseError};
use crate::grammar::{
    block_items_at, document_items_at, entry_or_block_at, grammar_tokens, kind_at,
    lemma_restart_point, list_items_at, object_items_at, recover_items_at, restart_point, span_at,
    synchronize_from, unexpected_value_message, value_at,
};
use crate::lexer::{lemma_lex_from_shape, lex, lex_spec, no_eof, tokens_view};
use crate::number::parse_number_literal;
use crate::span::{span_union, Span};
use crate::token::{is_trivia_kind, Kind, Tok, Token, TokenKind};

verus! {

/// The tokens that the grammar sees: all but newlines and comments, in order.
pub open spec fn significant(ts: Seq<Tok>) -> Seq<Tok>
    decreases ts.len(),
{
    if ts.len() == 0 {
        Seq::empty()
    } else if is_trivia_kind(ts.last().kind) {
        significant(ts.drop_last())
    } else {
        significant(ts.drop_last()).push(ts.last())
    }
}

proof fn lemma_significant_clean(ts: Seq<Tok>)
    requires
        no_eof(ts),
    ensures
        no_eof(significant(ts)),
        forall|i: int|
            0 <= i < significant(ts).len() ==> !is_trivia_kind(#[trigger] significant(ts)[i].kind),
    decreases ts.len(),
{
    if ts.len() > 0 {
        lemma_significant_clean(ts.drop_last());
    }
}

proof fn lemma_significant_grammar(ts: Seq<Tok>)
    requires
        ts.len() > 0,
        ts.last().kind is Eof,
        no_eof(ts.drop_last()),
    ensures
        grammar_tokens(significant(ts)),
{
    lemma_significant_clean(ts.drop_last());
    let s = significant(ts);
    assert(s.drop_last() == significant(ts.drop_last()));
    assert forall|i: int| 0 <= i < s.len() implies !(#[trigger] s[i].kind is Newline) && !(
    s[i].kind is Comment) by {
        if i < s.len() - 1 {
            assert(s[i] == significant(ts.drop_last())[i]);
        }
    }
}

/// The strict parse of a token sequence from the lexer.
pub open spec fn parse_tokens(ts: Seq<Tok>) -> Result<NodeTree, ErrorModel> {
    match document_items_at(significant(ts), 0, Seq::empty()) {
        Ok(items) => Ok(NodeTree::Document(items, document_span(ts))),
        Err(e) => Err(e),
    }
}

/// A document spans from the first token to the end of input.
pub open spec fn document_span(ts: Seq<Tok>) -> Span {
    Span { start: ts[0].span.start, end: ts.last().span.end }
}

/// The recovering parse of a token sequence: a document and the errors met.
pub open spec fn recover_tokens(ts: Seq<Tok>) -> (NodeTree, Seq<ErrorModel>) {
    let (items, errors) = recover_items_at(significant(ts), 0, Seq::empty(), Seq::empty());
    (NodeTree::Document(items, document_span(ts)), errors)
}

/// A structural token that the grammar asks for by name.
pub enum Punct {
    LBrace,
    RBrace,
    LBracket,
    RBracket,
    Colon,
    Comma,
}

pub open spec fn is_punct(k: Kind, p: Punct) -> bool {
    match p {
        Punct::LBrace => k is LBrace,
        Punct::RBrace => k is RBrace,
        Punct::LBracket => k is LBracket,
        Punct::RBracket => k is RBracket,
        Punct::Colon => k is Colon,
        Punct::Comma => k is Comma,
    }
}

/// A document node over `body`.
pub fn document(body: Vec<AstNode>, span: Span) -> (r: AstNode)
    ensures
        r@ == NodeTree::Document(nodes_view(body@), span),
{
    proof {
        lemma_document_view(body, span);
    }
    AstNode::Document { body, span }
}

/// A parsed document and every parse error met on the way, in detection order.
pub struct ParseReport {
    pub document: AstNode,
    pub errors: Vec<ParseError>,
}

pub open spec fn errors_view(es: Seq<ParseError>) -> Seq<ErrorModel> {
    es.map_values(|e: ParseError| e@)
}

/// The number of significant tokens among the first `j` of `ts`: the
/// grammar's position of token `j`.
pub open spec fn sig_pos(ts: Seq<Tok>, j: int) -> int {
    significant(ts.take(j)).len() as int
}

/// A token sequence as the lexer makes it: one end-of-input token, last.
pub open spec fn lexed_shape(ts: Seq<Tok>) -> bool {
    &&& ts.len() > 0
    &&& ts.last().kind is Eof
    &&& no_eof(ts.drop_last())
}

proof fn lemma_sig_step(ts: Seq<Tok>, j: int)
    requires
        0 <= j < ts.len(),
    ensures
        sig_pos(ts, j + 1) == sig_pos(ts, j) + if is_trivia_kind(ts[j].kind) { 0int } else { 1int },
        !is_trivia_kind(ts[j].kind) ==> significant(ts.take(j + 1)) == significant(ts.take(j)).push(ts[j]),
        is_trivia_kind(ts[j].kind) ==> significant(ts.take(j + 1)) == significant(ts.take(j)),
{
    assert(ts.take(j + 1).drop_last() =~= ts.take(j));
}

proof fn lemma_sig_prefix(ts: Seq<Tok>, m: int, n: int)
    requires
        0 <= m <= n <= ts.len(),
    ensures
        sig_pos(ts, m) <= sig_pos(ts, n),
        significant(ts.take(n)).subrange(0, sig_pos(ts, m)) == significant(ts.take(m)),
    decreases n - m,
{
    if m < n {
        lemma_sig_prefix(ts, m, n - 1);
        lemma_sig_step(ts, n - 1);
        let a = significant(ts.take(n - 1));
        let b = significant(ts.take(n));
        assert(b.subrange(0, a.len() as int) =~= a);
        assert(b.subrange(0, sig_pos(ts, m)) =~= a.subrange(0, sig_pos(ts, m)));
    } else {
        assert(significant(ts.take(n)).subrange(0, sig_pos(ts, m)) =~= significant(ts.take(m)));
    }
}

/// A significant token sits in the grammar's sequence at its grammar position.
proof fn lemma_sig_at(ts: Seq<Tok>, j: int)
    requires
        0 <= j < ts.len(),
        !is_trivia_kind(ts[j].kind),
    ensures
        0 <= sig_pos(ts, j) < significant(ts).len(),
        significant(ts)[sig_pos(ts, j)] == ts[j],
{
    lemma_sig_step(ts, j);
    lemma_sig_prefix(ts, j + 1, ts.len() as int);
    assert(ts.take(ts.len() as int) =~= ts);
    let b = significant(ts);
    assert(b.subrange(0, sig_pos(ts, j + 1))[sig_pos(ts, j)] == b[sig_pos(ts, j)]);
}

/// A cursor over the tokens of one text, skipping newlines and comments.
pub struct Parser {
    tokens: Vec<Token>,
    index: usize,
    last_consumed: Option<usize>,
}

impl Parser {
    /// The lexer's tokens, trivia included.
    pub closed spec fn tokens(&self) -> Seq<Tok> {
        tokens_view(self.tokens@)
    }

    /// The index of the current token among all tokens.
    pub closed spec fn position(&self) -> int {
        self.index as int
    }

    /// The tokens that the grammar sees.
    pub closed spec fn toks(&self) -> Seq<Tok> {
        significant(self.tokens())
    }

    /// The grammar's position of the current token.
    pub closed spec fn cursor(&self) -> int {
        sig_pos(self.tokens(), self.index as int)
    }

    /// The span that the whole document gets.
    pub closed spec fn doc_span(&self) -> Span {
        document_span(self.tokens())
    }

    /// The tokens are the lexer's, and the cursor lies within them.
    pub closed spec fn valid(&self) -> bool {
        &&& lexed_shape(self.tokens())
        &&& grammar_tokens(self.toks())
        &&& self.index < self.tokens.len()
        &&& self.cursor() > 0 ==> match self.last_consumed {
            Some(l) => l < self.index && !is_trivia_kind(self.tokens()[l as int].kind) && sig_pos(
                self.tokens(),
                l as int,
            ) == self.cursor() - 1,
            None => false,
        }
    }

    /// The cursor rests on a token that the grammar sees.
    pub closed spec fn well_formed(&self) -> bool {
        &&& self.valid()
        &&& !is_trivia_kind(self.tokens()[self.index as int].kind)
        &&& 0 <= self.cursor() < self.toks().len()
        &&& self.toks()[self.cursor()] == self.tokens()[self.index as int]
    }

    pub open spec fn same_input(&self, other: &Parser) -> bool {
        self.tokens() == other.tokens()
    }

    /// Lexes `source` and holds its tokens, with nothing consumed yet.
    pub fn from_source(source: &str) -> (r: Result<Parser, LexError>)
        ensures
            match lex_spec(source@) {
                Ok(ts) => r is Ok && r->Ok_0.valid() && r->Ok_0.position() == 0
                    && r->Ok_0.tokens() == ts,
                Err(e) => r is Err && r->Err_0@ == e,
            },
    {
        let tokens = match lex(source) {
            Ok(all) => all,
            Err(e) => return Err(e),
        };
        let ghost ts = tokens_view(tokens@);
        proof {
            lemma_lex_from_shape(source@, 0, Seq::empty());
            lemma_significant_grammar(ts);
            assert(ts.take(0) =~= Seq::<Tok>::empty());
        }
        Ok(Parser { tokens, index: 0, last_consumed: None })
    }

    /// Moves the cursor past newlines and comments.
    fn skip_trivia(&mut self)
        requires
            old(self).valid(),
        ensures
            final(self).well_formed(),
            final(self).same_input(old(self)),
            final(self).cursor() == old(self).cursor(),
            old(self).position() <= final(self).position(),
    {
        let ghost ts = self.tokens();
        while self.tokens[self.index].is_trivia()
            invariant
                self.valid(),
                ts == self.tokens(),
                ts == old(self).tokens(),
                self.cursor() == old(self).cursor(),
                old(self).position() <= self.position(),
            decreases self.tokens.len() - self.index,
        {
            proof {
                lemma_sig_step(ts, self.index as int);
                assert(ts[self.index as int] == self.tokens@[self.index as int]@);
            }
            self.index = self.index + 1;
        }
        proof {
            lemma_sig_at(ts, self.index as int);
        }
    }

    fn kind_is(&self, p: Punct) -> (r: bool)
        requires
            self.well_formed(),
        ensures
            r == is_punct(kind_at(self.toks(), self.cursor()), p),
    {
        match (&self.tokens[self.index].kind, p) {
            (TokenKind::LBrace, Punct::LBrace) => true,
            (TokenKind::RBrace, Punct::RBrace) => true,
            (TokenKind::LBracket, Punct::LBracket) => true,
            (TokenKind::RBracket, Punct::RBracket) => true,
            (TokenKind::Colon, Punct::Colon) => true,
            (TokenKind::Comma, Punct::Comma) => true,
            _ => false,
        }
    }

    /// Whether the current token is `p`, without consuming it.
    fn current_is(&self, p: Punct) -> (r: bool)
        requires
            self.well_formed(),
        ensures
            r == is_punct(kind_at(self.toks(), self.cursor()), p),
    {
        self.kind_is(p)
    }

    fn is_at_end(&self) -> (r: bool)
        requires
            self.well_formed(),
        ensures
            r == kind_at(self.toks(), self.cursor()) is Eof,
    {
        match self.tokens[self.index].kind {
            TokenKind::Eof => true,
            _ => false,
        }
    }

    /// The span of the current token.
    fn peek(&self) -> (r: Span)
        requires
            self.well_formed(),
        ensures
            r == span_at(self.toks(), self.cursor()),
    {
        self.tokens[self.index].span
    }

    /// The span of the token consumed last.
    fn previous(&self) -> (r: Span)
        requires
            self.well_formed(),
            self.cursor() > 0,
        ensures
            r == span_at(self.toks(), self.cursor() - 1),
    {
        match self.last_consumed {
            Some(l) => {
                proof {
                    lemma_sig_at(self.tokens(), l as int);
                }
                self.tokens[l].span
            },
            None => self.tokens[self.index].span,
        }
    }

    /// Consumes the current token, which is not the end of input, and gives its span.
    fn advance(&mut self) -> (r: Span)
        requires
            old(self).well_formed(),
            !(kind_at(old(self).toks(), old(self).cursor()) is Eof),
        ensures
            final(self).well_formed(),
            final(self).same_input(old(self)),
            final(self).cursor() == old(self).cursor() + 1,
            r == span_at(old(self).toks(), old(self).cursor()),
    {
        let ghost ts = self.tokens();
        let j = self.index;
        let span = self.tokens[j].span;
        proof {
            lemma_sig_step(ts, j as int);
            assert(ts.last() == ts[ts.len() - 1]);
            if j as int == ts.len() - 1 {
                assert(ts[j as int].kind is Eof);
            }
        }
        self.last_consumed = Some(j);
        self.index = j + 1;
        self.skip_trivia();
        span
    }

    /// Consumes the current token when it is `p`.
    fn matches(&mut self, p: Punct) -> (r: bool)
        requires
            old(self).well_formed(),
        ensures
            final(self).well_formed(),
            final(self).same_input(old(self)),
            r == is_punct(kind_at(old(self).toks(), old(self).cursor()), p),
            final(self).cursor() == old(self).cursor() + if r { 1int } else { 0int },
    {
        if self.kind_is(p) {
            self.advance();
            true
        } else {
            false
        }
    }

    /// Consumes the current token when it is `p`, else fails with `message` at it.
    fn expect(&mut self, p: Punct, message: &str) -> (r: Result<Span, ParseError>)
        requires
            old(self).well_formed(),
        ensures
            final(self).well_formed(),
            final(self).same_input(old(self)),
            ({
                let t = old(self).toks();
                let i = old(self).cursor();
                if is_punct(kind_at(t, i), p) {
                    r == Ok::<Span, ParseError>(span_at(t, i)) && final(self).cursor() == i + 1
                } else {
                    r is Err && r->Err_0@ == error_model(message@, span_at(t, i))
                        && final(self).cursor() == i
                }
            }),
    {
        if self.kind_is(p) {
            Ok(self.advance())
        } else {
            Err(ParseError::new(message, self.peek()))
        }
    }

    /// Consumes an identifier and gives its text and span, else fails with `message`.
    fn consume_ident(&mut self, message: &str) -> (r: Result<(String, Span), ParseError>)
        requires
            old(self).well_formed(),
        ensures
            final(self).well_formed(),
            final(self).same_input(old(self)),
            ({
                let t = old(self).toks();
                let i = old(self).cursor();
                if kind_at(t, i) is Ident {
                    r is Ok && r->Ok_0.0@ == kind_at(t, i)->Ident_0 && r->Ok_0.1 == span_at(t, i)
                        && final(self).cursor() == i + 1
                } else {
                    r is Err && r->Err_0@ == error_model(message@, span_at(t, i))
                        && final(self).cursor() == i
                }
            }),
    {
        let name = match &self.tokens[self.index].kind {
            TokenKind::Ident(name) => name.clone(),
            _ => return Err(ParseError::new(message, self.peek())),
        };
        let span = self.advance();
        Ok((name, span))
    }

    fn at_ident(&self) -> (r: bool)
        requires
            self.well_formed(),
        ensures
            r == kind_at(self.toks(), self.cursor()) is Ident,
    {
        match self.tokens[self.index].kind {
            TokenKind::Ident(_) => true,
            _ => false,
        }
    }

    /// Drops the current token, then every token up to an identifier, a
    /// closing brace or the end of input.
    fn synchronize(&mut self)
        requires
            old(self).well_formed(),
        ensures
            final(self).well_formed(),
            final(self).same_input(old(self)),
            final(self).cursor() == synchronize_from(old(self).toks(), old(self).cursor()),
    {
        let ghost t = self.toks();
        let ghost p = self.cursor();
        if self.is_at_end() {
            return;
        }
        self.advance();
        loop
            invariant
                self.well_formed(),
                self.same_input(old(self)),
                t == self.toks(),
                p < self.cursor(),
                restart_point(t, self.cursor()) == restart_point(t, p + 1),
            ensures
                self.cursor() == restart_point(t, p + 1),
            decreases t.len() - self.cursor(),
        {
            if self.is_at_end() || self.at_ident() || self.current_is(Punct::RBrace) {
                break;
            }
            self.advance();
        }
    }

    fn parse_value(&mut self) -> (r: Result<ValueNode, ParseError>)
        requires
            old(self).well_formed(),
        ensures
            final(self).well_formed(),
            final(self).same_input(old(self)),
            ({
                let (sr, sp) = value_at(old(self).toks(), old(self).cursor());
                &&& final(self).cursor() == sp
                &&& match sr {
                    Ok(v) => r is Ok && r->Ok_0@ == v,
                    Err(e) => r is Err && r->Err_0@ == e,
                }
            }),
            old(self).cursor() <= final(self).cursor(),
            r is Ok ==> old(self).cursor() < final(self).cursor(),
        decreases old(self).toks().len() - old(self).cursor(), 2int,
    {
        let idx = self.index;
        let span = self.tokens[idx].span;
        match &self.tokens[idx].kind {
            TokenKind::String(s) => {
                let value = s.clone();
                self.advance();
                Ok(ValueNode::String { value, span })
            },
            TokenKind::Number(raw) => {
                let text = raw.clone();
                self.advance();
                match parse_number_literal(&text, span) {
                    Ok(value) => Ok(ValueNode::Number { value, span }),
                    Err(e) => Err(e),
                }
            },
            TokenKind::Bool(b) => {
                let value = *b;
                self.advance();
                Ok(ValueNode::Bool { value, span })
            },
            TokenKind::LBracket => self.parse_list(),
            TokenKind::LBrace => self.parse_object(),
            other => {
                let mut message = String::from_str("unexpected token ");
                message.append(other.describe());
                message.append(" while parsing value");
                proof {
                    assert(message@ =~= unexpected_value_message(other@));
                }
                Err(ParseError { message, span })
            },
        }
    }

    fn parse_list(&mut self) -> (r: Result<ValueNode, ParseError>)
        requires
            old(self).well_formed(),
            kind_at(old(self).toks(), old(self).cursor()) is LBracket,
        ensures
            final(self).well_formed(),
            final(self).same_input(old(self)),
            ({
                let (sr, sp) = value_at(old(self).toks(), old(self).cursor());
                &&& final(self).cursor() == sp
                &&& match sr {
                    Ok(v) => r is Ok && r->Ok_0@ == v,
                    Err(e) => r is Err && r->Err_0@ == e,
                }
            }),
            old(self).cursor() <= final(self).cursor(),
            r is Ok ==> old(self).cursor() < final(self).cursor(),
        decreases old(self).toks().len() - old(self).cursor(), 1int,
    {
        let ghost t = self.toks();
        let ghost p = self.cursor();
        let open = self.advance();
        let mut items: Vec<ValueNode> = Vec::new();
        if self.matches(Punct::RBracket) {
            let close = self.previous();
            proof {
                lemma_list_view(items, span_union(open, close));
                assert(values_view(items@) =~= Seq::<ValueTree>::empty());
            }
            return Ok(ValueNode::List { items, span: open.union(close) });
        }
        proof {
            assert(values_view(items@) =~= Seq::<ValueTree>::empty());
        }
        loop
            invariant
                self.well_formed(),
                self.same_input(old(self)),
                t == old(self).toks(),
                p == old(self).cursor(),
                t == self.toks(),
                p < self.cursor(),
                open == t[p].span,
                list_items_at(t, self.cursor(), open, values_view(items@)) == value_at(t, p),
            decreases t.len() - self.cursor(),
        {
            let value = match self.parse_value() {
                Ok(v) => v,
                Err(e) => return Err(e),
            };
            proof {
                lemma_values_push(items@, value);
            }
            items.push(value);
            if self.matches(Punct::Comma) {
                if self.matches(Punct::RBracket) {
                    let close = self.previous();
                    proof {
                        lemma_list_view(items, span_union(open, close));
                    }
                    return Ok(ValueNode::List { items, span: open.union(close) });
                }
                continue;
            }
            let close = match self.expect(Punct::RBracket, "expected ']' to close list") {
                Ok(s) => s,
                Err(e) => return Err(e),
            };
            proof {
                lemma_list_view(items, span_union(open, close));
            }
            return Ok(ValueNode::List { items, span: open.union(close) });
        }
    }

    fn parse_object(&mut self) -> (r: Result<ValueNode, ParseError>)
        requires
            old(self).well_formed(),
            kind_at(old(self).toks(), old(self).cursor()) is LBrace,
        ensures
            final(self).well_formed(),
            final(self).same_input(old(self)),
            ({
                let (sr, sp) = value_at(old(self).toks(), old(self).cursor());
                &&& final(self).cursor() == sp
                &&& match sr {
                    Ok(v) => r is Ok && r->Ok_0@ == v,
                    Err(e) => r is Err && r->Err_0@ == e,
                }
            }),
            old(self).cursor() <= final(self).cursor(),
            r is Ok ==> old(self).cursor() < final(self).cursor(),
        decreases old(self).toks().len() - old(self).cursor(), 1int,
    {
        let ghost t = self.toks();
        let ghost p = self.cursor();
        let open = self.advance();
        let mut entries: Vec<ObjectEntry> = Vec::new();
        if self.matches(Punct::RBrace) {
            let close = self.previous();
            proof {
                lemma_object_view(entries, span_union(open, close));
                assert(entries_view(entries@) =~= Seq::<EntryTree>::empty());
            }
            return Ok(ValueNode::Object { entries, span: open.union(close) });
        }
        proof {
            assert(entries_view(entries@) =~= Seq::<EntryTree>::empty());
        }
        loop
            invariant
                self.well_formed(),
                self.same_input(old(self)),
                t == old(self).toks(),
                p == old(self).cursor(),
                t == self.toks(),
                p < self.cursor(),
                open == t[p].span,
                object_items_at(t, self.cursor(), open, entries_view(entries@)) == value_at(t, p),
            decreases t.len() - self.cursor(),
        {
            let (key, key_span) = match self.consume_ident("expected key inside object") {
                Ok(k) => k,
                Err(e) => return Err(e),
            };
            match self.expect(Punct::Colon, "expected ':' after key in object") {
                Ok(_) => {},
                Err(e) => return Err(e),
            }
            let value = match self.parse_value() {
                Ok(v) => v,
                Err(e) => return Err(e),
            };
            let entry_span = key_span.union(value.span());
            let entry = ObjectEntry { key, value, span: entry_span };
            proof {
                lemma_entries_push(entries@, entry);
            }
            entries.push(entry);
            if self.matches(Punct::Comma) {
                if self.matches(Punct::RBrace) {
                    let close = self.previous();
                    proof {
                        lemma_object_view(entries, span_union(open, close));
                    }
                    return Ok(ValueNode::Object { entries, span: open.union(close) });
                }
                continue;
            }
            let close = match self.expect(Punct::RBrace, "expected '}' to close object") {
                Ok(s) => s,
                Err(e) => return Err(e),
            };
            proof {
                lemma_object_view(entries, span_union(open, close));
            }
            return Ok(ValueNode::Object { entries, span: open.union(close) });
        }
    }

    fn parse_entry_or_block(&mut self) -> (r: Result<AstNode, ParseError>)
        requires
            old(self).well_formed(),
        ensures
            final(self).well_formed(),
            final(self).same_input(old(self)),
            ({
                let (sr, sp) = entry_or_block_at(old(self).toks(), old(self).cursor());
                &&& final(self).cursor() == sp
                &&& match sr {
                    Ok(n) => r is Ok && r->Ok_0@ == n,
                    Err(e) => r is Err && r->Err_0@ == e,
                }
            }),
            old(self).cursor() <= final(self).cursor(),
            r is Ok ==> old(self).cursor() < final(self).cursor(),
        decreases old(self).toks().len() - old(self).cursor(), 2int,
    {
        let (ident, ident_span) = match self.consume_ident("expected identifier") {
            Ok(k) => k,
            Err(e) => return Err(e),
        };
        if self.matches(Punct::LBrace) {
            self.parse_block(ident, ident_span)
        } else {
            match self.expect(Punct::Colon, "expected ':' after identifier") {
                Ok(_) => {},
                Err(e) => return Err(e),
            }
            let value = match self.parse_value() {
                Ok(v) => v,
                Err(e) => return Err(e),
            };
            let span = ident_span.union(value.span());
            Ok(AstNode::Entry { key: ident, value, span })
        }
    }

    /// The items of a block whose name and `{` are consumed, through its `}`.
    fn parse_block(&mut self, name: String, name_span: Span) -> (r: Result<AstNode, ParseError>)
        requires
            old(self).well_formed(),
        ensures
            final(self).well_formed(),
            final(self).same_input(old(self)),
            ({
                let (sr, sp) = block_items_at(
                    old(self).toks(),
                    old(self).cursor(),
                    name@,
                    name_span,
                    Seq::empty(),
                );
                &&& final(self).cursor() == sp
                &&& match sr {
                    Ok(n) => r is Ok && r->Ok_0@ == n,
                    Err(e) => r is Err && r->Err_0@ == e,
                }
            }),
            old(self).cursor() <= final(self).cursor(),
            r is Ok ==> old(self).cursor() < final(self).cursor(),
        decreases old(self).toks().len() - old(self).cursor(), 3int,
    {
        let ghost t = self.toks();
        let ghost p = self.cursor();
        let mut body: Vec<AstNode> = Vec::new();
        proof {
            assert(nodes_view(body@) =~= Seq::<NodeTree>::empty());
        }
        loop
            invariant
                self.well_formed(),
                self.same_input(old(self)),
                t == old(self).toks(),
                p == old(self).cursor(),
                t == self.toks(),
                p <= self.cursor(),
                block_items_at(t, self.cursor(), name@, name_span, nodes_view(body@))
                    == block_items_at(t, p, name@, name_span, Seq::empty()),
            decreases t.len() - self.cursor(),
        {
            if self.current_is(Punct::RBrace) {
                let close = self.advance();
                proof {
                    lemma_block_view(name, body, span_union(name_span, close));
                }
                return Ok(AstNode::Block { name, body, span: name_span.union(close) });
            }
            if self.is_at_end() {
                return Err(ParseError::new("unterminated block", name_span));
            }
            let node = match self.parse_entry_or_block() {
                Ok(n) => n,
                Err(e) => return Err(e),
            };
            proof {
                lemma_nodes_push(body@, node);
            }
            body.push(node);
        }
    }

    fn parse_items(&mut self) -> (r: Result<AstNode, ParseError>)
        requires
            old(self).well_formed(),
            old(self).cursor() == 0,
        ensures
            match document_items_at(old(self).toks(), 0, Seq::empty()) {
                Ok(items) => r is Ok && r->Ok_0@ == NodeTree::Document(items, old(self).doc_span()),
                Err(e) => r is Err && r->Err_0@ == e,
            },
    {
        let ghost t = self.toks();
        let mut body: Vec<AstNode> = Vec::new();
        proof {
            assert(nodes_view(body@) =~= Seq::<NodeTree>::empty());
        }
        while !self.is_at_end()
            invariant
                self.well_formed(),
                self.same_input(old(self)),
                t == old(self).toks(),
                t == self.toks(),
                document_items_at(t, self.cursor(), nodes_view(body@)) == document_items_at(
                    t,
                    0,
                    Seq::empty(),
                ),
            decreases t.len() - self.cursor(),
        {
            let node = match self.parse_entry_or_block() {
                Ok(n) => n,
                Err(e) => return Err(e),
            };
            proof {
                lemma_nodes_push(body@, node);
            }
            body.push(node);
        }
        Ok(document(body, self.document_span()))
    }

    /// Parses the whole document, stopping at the first error.
    pub fn parse_document(self) -> (r: Result<AstNode, ParseError>)
        requires
            self.valid(),
            self.position() == 0,
        ensures
            match parse_tokens(self.tokens()) {
                Ok(n) => r is Ok && r->Ok_0@ == n,
                Err(e) => r is Err && r->Err_0@ == e,
            },
    {
        let mut parser = self;
        proof {
            assert(parser.tokens().take(0) =~= Seq::<Tok>::empty());
        }
        parser.skip_trivia();
        parser.parse_items()
    }

    /// The span from the first token to the end of input.
    fn document_span(&self) -> (r: Span)
        requires
            self.valid(),
        ensures
            r == self.doc_span(),
    {
        Span::new(self.tokens[0].span.start, self.tokens[self.tokens.len() - 1].span.end)
    }

    fn recover_items(&mut self) -> (r: ParseReport)
        requires
            old(self).well_formed(),
            old(self).cursor() == 0,
        ensures
            ({
                let (items, errors) = recover_items_at(
                    old(self).toks(),
                    0,
                    Seq::empty(),
                    Seq::empty(),
                );
                &&& r.document@ == NodeTree::Document(items, old(self).doc_span())
                &&& errors_view(r.errors@) == errors
            }),
    {
        let ghost t = self.toks();
        let mut body: Vec<AstNode> = Vec::new();
        let mut errors: Vec<ParseError> = Vec::new();
        proof {
            assert(nodes_view(body@) =~= Seq::<NodeTree>::empty());
            assert(errors_view(errors@) =~= Seq::<ErrorModel>::empty());
        }
        while !self.is_at_end()
            invariant
                self.well_formed(),
                self.same_input(old(self)),
                t == old(self).toks(),
                t == self.toks(),
                recover_items_at(t, self.cursor(), nodes_view(body@), errors_view(errors@))
                    == recover_items_at(t, 0, Seq::empty(), Seq::empty()),
            decreases t.len() - self.cursor(),
        {
            let ghost p = self.cursor();
            match self.parse_entry_or_block() {
                Ok(node) => {
                    proof {
                        lemma_nodes_push(body@, node);
                    }
                    body.push(node);
                },
                Err(err) => {
                    proof {
                        lemma_restart_point(t, self.cursor() + 1);
                    }
                    proof {
                        assert(errors_view(errors@.push(err)) =~= errors_view(errors@).push(err@));
                    }
                    errors.push(err);
                    self.synchronize();
                },
            }
        }
        ParseReport { document: document(body, self.document_span()), errors }
    }

    /// Parses the whole document, recording each error and resuming at the
    /// next safe restart point.
    pub fn parse_document_with_recovery(self) -> (r: ParseReport)
        requires
            self.valid(),
            self.position() == 0,
        ensures
            (r.document@, errors_view(r.errors@)) == recover_tokens(self.tokens()),
    {
        let mut parser = self;
        proof {
            assert(parser.tokens().take(0) =~= Seq::<Tok>::empty());
        }
        parser.skip_trivia();
        parser.recover_items()
    }
}

} // verus!
