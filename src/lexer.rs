use vstd::prelude::*;
use vstd::string::StringSliceAdditionalSpecFns;
use vstd::utf8::*;

use crate::error::{error_model, ErrorModel, LexError};
use crate::span::Span;
use crate::text::{chars_of, push_char};
use crate::token::{tok, Kind, Tok, Token, TokenKind};

verus! {

// ---------------------------------------------------------------------------
// Byte offsets of a character sequence
// ---------------------------------------------------------------------------

/// The length of the UTF-8 encoding of one character.
pub open spec fn char_width(c: char) -> nat {
    if (c as u32) < 0x80 {
        1
    } else if (c as u32) < 0x800 {
        2
    } else if (c as u32) < 0x10000 {
        3
    } else {
        4
    }
}

/// The length of the UTF-8 encoding of a character sequence.
pub open spec fn byte_len(cs: Seq<char>) -> nat
    decreases cs.len(),
{
    if cs.len() == 0 {
        0
    } else {
        byte_len(cs.drop_last()) + char_width(cs.last())
    }
}

/// The byte offset at which character `i` starts.
pub open spec fn offset_at(cs: Seq<char>, i: int) -> nat {
    byte_len(cs.take(i))
}

/// The span from the start of character `i` to the start of character `j`.
pub open spec fn char_span(cs: Seq<char>, i: int, j: int) -> Span {
    Span { start: offset_at(cs, i) as usize, end: offset_at(cs, j) as usize }
}

proof fn lemma_offset_step(cs: Seq<char>, i: int)
    requires
        0 <= i < cs.len(),
    ensures
        offset_at(cs, i + 1) == offset_at(cs, i) + char_width(cs[i]),
{
    assert(cs.take(i + 1).drop_last() =~= cs.take(i));
}

proof fn lemma_offset_mono(cs: Seq<char>, i: int, j: int)
    requires
        0 <= i <= j <= cs.len(),
    ensures
        offset_at(cs, i) <= offset_at(cs, j) <= byte_len(cs),
    decreases cs.len() - i,
{
    assert(cs.take(cs.len() as int) =~= cs);
    if i < j {
        lemma_offset_step(cs, i);
        lemma_offset_mono(cs, i + 1, j);
    } else if j < cs.len() {
        lemma_offset_step(cs, j);
        lemma_offset_mono(cs, j + 1, cs.len() as int);
    }
}

proof fn lemma_byte_len_front(cs: Seq<char>)
    requires
        cs.len() > 0,
    ensures
        byte_len(cs) == char_width(cs[0]) + byte_len(cs.drop_first()),
    decreases cs.len(),
{
    if cs.len() > 1 {
        lemma_byte_len_front(cs.drop_last());
        assert(cs.drop_last().drop_first() =~= cs.drop_first().drop_last());
    } else {
        assert(cs.drop_last() =~= Seq::<char>::empty());
        assert(cs.drop_first() =~= Seq::<char>::empty());
    }
}

proof fn lemma_encode_len(cs: Seq<char>)
    ensures
        encode_utf8(cs).len() == byte_len(cs),
    decreases cs.len(),
{
    if cs.len() > 0 {
        lemma_encode_len(cs.drop_first());
        lemma_byte_len_front(cs);
        char_is_scalar(cs[0]);
    }
}

/// The byte length of a string slice is the sum of its characters' widths.
pub proof fn lemma_str_byte_len(s: &str)
    ensures
        byte_len(s@) == s.spec_bytes().len(),
{
    lemma_encode_len(s@);
}

// ---------------------------------------------------------------------------
// Character classes
// ---------------------------------------------------------------------------

pub open spec fn is_digit(c: char) -> bool {
    '0' <= c <= '9'
}

pub open spec fn ident_start(c: char) -> bool {
    ('a' <= c <= 'z') || ('A' <= c <= 'Z') || c == '_'
}

pub open spec fn ident_part(c: char) -> bool {
    ident_start(c) || is_digit(c) || c == '.' || c == '-'
}

pub open spec fn is_line_end(c: char) -> bool {
    c == '\n' || c == '\r'
}

/// The first index at or after `i` whose character is not an identifier part.
pub open spec fn ident_end(cs: Seq<char>, i: int) -> int
    decreases cs.len() - i,
{
    if 0 <= i < cs.len() && ident_part(cs[i]) {
        ident_end(cs, i + 1)
    } else {
        i
    }
}

/// The first index at or after `i` whose character is not a digit.
pub open spec fn digits_end(cs: Seq<char>, i: int) -> int
    decreases cs.len() - i,
{
    if 0 <= i < cs.len() && is_digit(cs[i]) {
        digits_end(cs, i + 1)
    } else {
        i
    }
}

/// The first index at or after `i` that holds a line terminator, or the end.
pub open spec fn line_end(cs: Seq<char>, i: int) -> int
    decreases cs.len() - i,
{
    if 0 <= i < cs.len() && !is_line_end(cs[i]) {
        line_end(cs, i + 1)
    } else {
        i
    }
}

/// Where a number literal that starts at `i` ends: digits, then a fraction
/// only when a digit follows the dot.
pub open spec fn number_end(cs: Seq<char>, i: int) -> int {
    let j = digits_end(cs, i + 1);
    if j + 1 < cs.len() && cs[j] == '.' && is_digit(cs[j + 1]) {
        digits_end(cs, j + 1)
    } else {
        j
    }
}

pub(crate) proof fn lemma_ident_end(cs: Seq<char>, i: int)
    requires
        0 <= i <= cs.len(),
    ensures
        i <= ident_end(cs, i) <= cs.len(),
    decreases cs.len() - i,
{
    if i < cs.len() && ident_part(cs[i]) {
        lemma_ident_end(cs, i + 1);
    }
}

pub(crate) proof fn lemma_digits_end(cs: Seq<char>, i: int)
    requires
        0 <= i <= cs.len(),
    ensures
        i <= digits_end(cs, i) <= cs.len(),
    decreases cs.len() - i,
{
    if i < cs.len() && is_digit(cs[i]) {
        lemma_digits_end(cs, i + 1);
    }
}

pub(crate) proof fn lemma_line_end(cs: Seq<char>, i: int)
    requires
        0 <= i <= cs.len(),
    ensures
        i <= line_end(cs, i) <= cs.len(),
    decreases cs.len() - i,
{
    if i < cs.len() && !is_line_end(cs[i]) {
        lemma_line_end(cs, i + 1);
    }
}

pub(crate) proof fn lemma_number_end(cs: Seq<char>, i: int)
    requires
        0 <= i < cs.len(),
    ensures
        i < number_end(cs, i) <= cs.len(),
{
    lemma_digits_end(cs, i + 1);
    let j = digits_end(cs, i + 1);
    if j + 1 < cs.len() && cs[j] == '.' && is_digit(cs[j + 1]) {
        lemma_digits_end(cs, j + 1);
    }
}

// ---------------------------------------------------------------------------
// String literals
// ---------------------------------------------------------------------------

/// The character that an escape sequence `\c` stands for.
pub open spec fn unescape(c: char) -> char {
    if c == 'n' {
        '\n'
    } else if c == 'r' {
        '\r'
    } else if c == 't' {
        '\t'
    } else {
        c
    }
}

/// How the body of a string literal ends.
pub enum StrScan {
    /// The decoded text, and the index just after the closing quote.
    Closed(Seq<char>, int),
    /// A raw line end, or the end of input (also right after a backslash),
    /// came before the closing quote; the index just after what was read.
    Unterminated(int),
}

/// Scans a string body from index `i`, with `acc` decoded so far.
pub open spec fn scan_string(cs: Seq<char>, i: int, acc: Seq<char>) -> StrScan
    decreases cs.len() - i,
{
    if i < 0 || i >= cs.len() {
        StrScan::Unterminated(cs.len() as int)
    } else if cs[i] == '"' {
        StrScan::Closed(acc, i + 1)
    } else if cs[i] == '\\' {
        if i + 1 >= cs.len() {
            StrScan::Unterminated(i + 1)
        } else {
            scan_string(cs, i + 2, acc.push(unescape(cs[i + 1])))
        }
    } else if is_line_end(cs[i]) {
        StrScan::Unterminated(i + 1)
    } else {
        scan_string(cs, i + 1, acc.push(cs[i]))
    }
}

pub(crate) proof fn lemma_scan_string(cs: Seq<char>, i: int, acc: Seq<char>)
    requires
        0 <= i <= cs.len(),
    ensures
        match scan_string(cs, i, acc) {
            StrScan::Closed(_, j) => i < j <= cs.len(),
            StrScan::Unterminated(j) => i <= j <= cs.len(),
        },
    decreases cs.len() - i,
{
    if i < cs.len() {
        if cs[i] == '\\' && i + 1 < cs.len() {
            lemma_scan_string(cs, i + 2, acc.push(unescape(cs[i + 1])));
        } else if cs[i] != '"' && cs[i] != '\\' && !is_line_end(cs[i]) {
            lemma_scan_string(cs, i + 1, acc.push(cs[i]));
        }
    }
}

// ---------------------------------------------------------------------------
// The token sequence
// ---------------------------------------------------------------------------

pub open spec fn unexpected_message(c: char) -> Seq<char> {
    "unexpected character '"@ + seq![c] + "'"@
}

pub open spec fn symbol_kind(c: char) -> Option<Kind> {
    if c == '{' {
        Some(Kind::LBrace)
    } else if c == '}' {
        Some(Kind::RBrace)
    } else if c == '[' {
        Some(Kind::LBracket)
    } else if c == ']' {
        Some(Kind::RBracket)
    } else if c == ':' {
        Some(Kind::Colon)
    } else if c == ',' {
        Some(Kind::Comma)
    } else {
        None
    }
}

pub open spec fn word_kind(w: Seq<char>) -> Kind {
    if w == "true"@ {
        Kind::Bool(true)
    } else if w == "false"@ {
        Kind::Bool(false)
    } else {
        Kind::Ident(w)
    }
}

pub open spec fn starts_number(cs: Seq<char>, i: int) -> bool {
    is_digit(cs[i]) || (cs[i] == '-' && i + 1 < cs.len() && is_digit(cs[i + 1]))
}

/// Tokenizes `cs` from index `i`, after the tokens `acc`.
pub open spec fn lex_from(cs: Seq<char>, i: int, acc: Seq<Tok>) -> Result<Seq<Tok>, ErrorModel>
    decreases cs.len() - i,
    via lex_from_decreases
{
    if i < 0 || i >= cs.len() {
        let n = cs.len() as int;
        Ok(acc.push(tok(Kind::Eof, char_span(cs, n, n))))
    } else {
        let c = cs[i];
        if c == ' ' || c == '\t' || c == '\x0c' {
            lex_from(cs, i + 1, acc)
        } else if c == '\r' {
            let j = if i + 1 < cs.len() && cs[i + 1] == '\n' { i + 2 } else { i + 1 };
            lex_from(cs, j, acc.push(tok(Kind::Newline, char_span(cs, i, j))))
        } else if c == '\n' {
            lex_from(cs, i + 1, acc.push(tok(Kind::Newline, char_span(cs, i, i + 1))))
        } else if c == '#' {
            let j = line_end(cs, i + 1);
            lex_from(cs, j, acc.push(tok(Kind::Comment(cs.subrange(i, j)), char_span(cs, i, j))))
        } else if symbol_kind(c) is Some {
            lex_from(cs, i + 1, acc.push(tok(symbol_kind(c)->Some_0, char_span(cs, i, i + 1))))
        } else if c == '"' {
            match scan_string(cs, i + 1, Seq::empty()) {
                StrScan::Closed(v, j) => lex_from(
                    cs,
                    j,
                    acc.push(tok(Kind::Str(v), char_span(cs, i, j))),
                ),
                StrScan::Unterminated(j) => Err(
                    error_model("unterminated string literal"@, char_span(cs, i, j)),
                ),
            }
        } else if ident_start(c) {
            let j = ident_end(cs, i + 1);
            lex_from(cs, j, acc.push(tok(word_kind(cs.subrange(i, j)), char_span(cs, i, j))))
        } else if starts_number(cs, i) {
            let j = number_end(cs, i);
            lex_from(cs, j, acc.push(tok(Kind::Number(cs.subrange(i, j)), char_span(cs, i, j))))
        } else {
            Err(error_model(unexpected_message(c), char_span(cs, i, i + 1)))
        }
    }
}

#[via_fn]
proof fn lex_from_decreases(cs: Seq<char>, i: int, acc: Seq<Tok>) {
    if 0 <= i < cs.len() {
        lemma_line_end(cs, i + 1);
        lemma_scan_string(cs, i + 1, Seq::empty());
        lemma_ident_end(cs, i + 1);
        lemma_number_end(cs, i);
    }
}

/// The tokens of a text, ending in one end-of-input token, or the first lex error.
pub open spec fn lex_spec(cs: Seq<char>) -> Result<Seq<Tok>, ErrorModel> {
    lex_from(cs, 0, Seq::empty())
}

pub open spec fn tokens_view(ts: Seq<Token>) -> Seq<Tok> {
    ts.map_values(|t: Token| t@)
}


proof fn lemma_view_push(ts: Seq<Token>, t: Token)
    ensures
        tokens_view(ts.push(t)) == tokens_view(ts).push(t@),
{
    assert(tokens_view(ts.push(t)) =~= tokens_view(ts).push(t@));
}

// ---------------------------------------------------------------------------
// The scanner
// ---------------------------------------------------------------------------

/// A forward scan over the characters of a text, tracking the byte offset.
pub struct Lexer {
    chars: Vec<char>,
    pos: usize,
    offset: usize,
}

fn char_len(c: char) -> (r: usize)
    ensures
        r == char_width(c),
{
    let u = c as u32;
    if u < 0x80 {
        1
    } else if u < 0x800 {
        2
    } else if u < 0x10000 {
        3
    } else {
        4
    }
}

fn is_ascii_digit(c: char) -> (r: bool)
    ensures
        r == is_digit(c),
{
    '0' <= c && c <= '9'
}

fn is_ident_start(ch: char) -> (r: bool)
    ensures
        r == ident_start(ch),
{
    ('a' <= ch && ch <= 'z') || ('A' <= ch && ch <= 'Z') || ch == '_'
}

fn is_ident_part(ch: char) -> (r: bool)
    ensures
        r == ident_part(ch),
{
    is_ident_start(ch) || is_ascii_digit(ch) || ch == '.' || ch == '-'
}

fn unescape_char(c: char) -> (r: char)
    ensures
        r == unescape(c),
{
    if c == 'n' {
        '\n'
    } else if c == 'r' {
        '\r'
    } else if c == 't' {
        '\t'
    } else {
        c
    }
}

impl Lexer {
    /// The text being scanned.
    pub closed spec fn text(&self) -> Seq<char> {
        self.chars@
    }

    /// The index of the next character to scan.
    pub closed spec fn position(&self) -> int {
        self.pos as int
    }

    pub closed spec fn well_formed(&self) -> bool {
        &&& self.pos <= self.chars.len()
        &&& self.offset == offset_at(self.chars@, self.pos as int)
        &&& byte_len(self.chars@) <= usize::MAX
    }

    pub fn new(source: &str) -> (r: Lexer)
        ensures
            r.text() == source@,
            r.position() == 0,
            r.well_formed(),
    {
        let chars = chars_of(source);
        let byte_count = source.as_bytes().len();
        proof {
            lemma_str_byte_len(source);
            assert(byte_len(source@) == byte_count);
            assert(chars@.take(0) =~= Seq::<char>::empty());
        }
        Lexer { chars, pos: 0, offset: 0 }
    }

    fn peek_char(&self) -> (r: Option<char>)
        requires
            self.well_formed(),
        ensures
            r == (if self.pos < self.chars.len() { Some(self.chars@[self.pos as int]) } else { None }),
    {
        if self.pos < self.chars.len() {
            Some(self.chars[self.pos])
        } else {
            None
        }
    }

    fn peek_next_char(&self) -> (r: Option<char>)
        requires
            self.well_formed(),
        ensures
            r == (if self.pos + 1 < self.chars.len() {
                Some(self.chars@[self.pos + 1])
            } else {
                None
            }),
    {
        if self.pos < self.chars.len() && self.pos + 1 < self.chars.len() {
            Some(self.chars[self.pos + 1])
        } else {
            None
        }
    }

    fn advance_char(&mut self) -> (r: Option<char>)
        requires
            old(self).well_formed(),
        ensures
            final(self).well_formed(),
            final(self).chars@ == old(self).chars@,
            old(self).pos < old(self).chars.len() ==> r == Some(old(self).chars@[old(self).pos as int])
                && final(self).pos == old(self).pos + 1,
            old(self).pos >= old(self).chars.len() ==> r is None && final(self).pos == old(self).pos,
    {
        if self.pos < self.chars.len() {
            let c = self.chars[self.pos];
            proof {
                lemma_offset_step(self.chars@, self.pos as int);
                lemma_offset_mono(self.chars@, self.pos + 1, self.chars.len() as int);
            }
            self.offset = self.offset + char_len(c);
            self.pos = self.pos + 1;
            Some(c)
        } else {
            None
        }
    }

    /// The characters from index `from` up to `to`, as a string.
    fn text_between(&self, from: usize, to: usize) -> (r: String)
        requires
            from <= to <= self.chars.len(),
        ensures
            r@ == self.chars@.subrange(from as int, to as int),
    {
        let mut out = String::new();
        let mut k: usize = from;
        while k < to
            invariant
                from <= k <= to <= self.chars.len(),
                out@ == self.chars@.subrange(from as int, k as int),
            decreases to - k,
        {
            push_char(&mut out, self.chars[k]);
            proof {
                assert(self.chars@.subrange(from as int, k + 1) =~= self.chars@.subrange(
                    from as int,
                    k as int,
                ).push(self.chars@[k as int]));
            }
            k = k + 1;
        }
        out
    }

    fn symbol(&mut self, kind: TokenKind) -> (t: Token)
        requires
            old(self).well_formed(),
            old(self).pos < old(self).chars.len(),
        ensures
            final(self).well_formed(),
            final(self).chars@ == old(self).chars@,
            final(self).pos == old(self).pos + 1,
            t.kind == kind,
            t.span == char_span(old(self).chars@, old(self).pos as int, final(self).pos as int),
    {
        let start = self.offset;
        self.advance_char();
        let span = Span::new(start, self.offset);
        Token { kind, span }
    }

    fn lex_comment(&mut self) -> (r: Result<Token, LexError>)
        requires
            old(self).well_formed(),
            old(self).pos < old(self).chars.len(),
        ensures
            final(self).well_formed(),
            final(self).chars@ == old(self).chars@,
            final(self).pos == line_end(old(self).chars@, old(self).pos + 1),
            r is Ok,
            r->Ok_0@ == tok(
                Kind::Comment(old(self).chars@.subrange(old(self).pos as int, final(self).pos as int)),
                char_span(old(self).chars@, old(self).pos as int, final(self).pos as int),
            ),
    {
        let ghost cs = self.chars@;
        let first = self.pos;
        let start = self.offset;
        self.advance_char();
        loop
            invariant
                self.well_formed(),
                self.chars@ == cs,
                first < self.pos <= cs.len(),
                first < cs.len(),
                start == offset_at(cs, first as int),
                line_end(cs, self.pos as int) == line_end(cs, first + 1),
            ensures
                self.pos == line_end(cs, first + 1),
            decreases cs.len() - self.pos,
        {
            match self.peek_char() {
                Some(ch) => {
                    if ch == '\n' || ch == '\r' {
                        break;
                    }
                    self.advance_char();
                },
                None => break,
            }
        }
        let span = Span::new(start, self.offset);
        let lexeme = self.text_between(first, self.pos);
        Ok(Token { kind: TokenKind::Comment(lexeme), span })
    }

    fn lex_string(&mut self) -> (r: Result<Token, LexError>)
        requires
            old(self).well_formed(),
            old(self).pos < old(self).chars.len(),
        ensures
            final(self).well_formed(),
            final(self).chars@ == old(self).chars@,
            ({
                let cs = old(self).chars@;
                let i = old(self).pos as int;
                match scan_string(cs, i + 1, Seq::empty()) {
                    StrScan::Closed(v, j) => r is Ok && final(self).pos == j && r->Ok_0@ == tok(
                        Kind::Str(v),
                        char_span(cs, i, j),
                    ),
                    StrScan::Unterminated(j) => r is Err && r->Err_0@ == error_model(
                        "unterminated string literal"@,
                        char_span(cs, i, j),
                    ),
                }
            }),
    {
        let ghost cs = self.chars@;
        let ghost first = self.pos as int;
        let start = self.offset;
        self.advance_char();
        let mut value = String::new();
        loop
            invariant
                self.well_formed(),
                self.chars@ == cs,
                cs == old(self).chars@,
                first == old(self).pos,
                first < self.pos <= cs.len(),
                start == offset_at(cs, first),
                scan_string(cs, self.pos as int, value@) == scan_string(cs, first + 1, Seq::empty()),
            decreases cs.len() - self.pos,
        {
            match self.advance_char() {
                Some(ch) => {
                    if ch == '"' {
                        let span = Span::new(start, self.offset);
                        return Ok(Token { kind: TokenKind::String(value), span });
                    } else if ch == '\\' {
                        match self.advance_char() {
                            Some(escaped) => {
                                push_char(&mut value, unescape_char(escaped));
                            },
                            None => {
                                return Err(
                                    LexError::new(
                                        "unterminated string literal",
                                        Span::new(start, self.offset),
                                    ),
                                );
                            },
                        }
                    } else if ch == '\n' || ch == '\r' {
                        return Err(
                            LexError::new("unterminated string literal", Span::new(start, self.offset)),
                        );
                    } else {
                        push_char(&mut value, ch);
                    }
                },
                None => {
                    return Err(
                        LexError::new("unterminated string literal", Span::new(start, self.offset)),
                    );
                },
            }
        }
    }

    fn lex_ident_or_bool(&mut self) -> (r: Result<Token, LexError>)
        requires
            old(self).well_formed(),
            old(self).pos < old(self).chars.len(),
        ensures
            final(self).well_formed(),
            final(self).chars@ == old(self).chars@,
            final(self).pos == ident_end(old(self).chars@, old(self).pos + 1),
            r is Ok,
            r->Ok_0@ == tok(
                word_kind(old(self).chars@.subrange(old(self).pos as int, final(self).pos as int)),
                char_span(old(self).chars@, old(self).pos as int, final(self).pos as int),
            ),
    {
        let ghost cs = self.chars@;
        let first = self.pos;
        let start = self.offset;
        self.advance_char();
        loop
            invariant
                self.well_formed(),
                self.chars@ == cs,
                first < self.pos <= cs.len(),
                first < cs.len(),
                start == offset_at(cs, first as int),
                ident_end(cs, self.pos as int) == ident_end(cs, first + 1),
            ensures
                self.pos == ident_end(cs, first + 1),
            decreases cs.len() - self.pos,
        {
            match self.peek_char() {
                Some(ch) => {
                    if is_ident_part(ch) {
                        self.advance_char();
                    } else {
                        break;
                    }
                },
                None => break,
            }
        }
        let span = Span::new(start, self.offset);
        let lexeme = self.text_between(first, self.pos);
        let word_true = String::from_str("true");
        let word_false = String::from_str("false");
        if lexeme == word_true {
            Ok(Token { kind: TokenKind::Bool(true), span })
        } else if lexeme == word_false {
            Ok(Token { kind: TokenKind::Bool(false), span })
        } else {
            Ok(Token { kind: TokenKind::Ident(lexeme), span })
        }
    }

    fn skip_digits(&mut self)
        requires
            old(self).well_formed(),
        ensures
            final(self).well_formed(),
            final(self).chars@ == old(self).chars@,
            final(self).pos == digits_end(old(self).chars@, old(self).pos as int),
            old(self).pos <= final(self).pos <= old(self).chars.len(),
    {
        let ghost cs = self.chars@;
        let ghost first = self.pos as int;
        proof {
            lemma_digits_end(cs, first);
        }
        loop
            invariant
                self.well_formed(),
                self.chars@ == cs,
                first <= self.pos <= cs.len(),
                digits_end(cs, self.pos as int) == digits_end(cs, first),
            ensures
                self.pos == digits_end(cs, first),
            decreases cs.len() - self.pos,
        {
            match self.peek_char() {
                Some(ch) => {
                    if is_ascii_digit(ch) {
                        self.advance_char();
                    } else {
                        break;
                    }
                },
                None => break,
            }
        }
    }

    fn lex_number(&mut self) -> (r: Result<Token, LexError>)
        requires
            old(self).well_formed(),
            old(self).pos < old(self).chars.len(),
        ensures
            final(self).well_formed(),
            final(self).chars@ == old(self).chars@,
            final(self).pos == number_end(old(self).chars@, old(self).pos as int),
            r is Ok,
            r->Ok_0@ == tok(
                Kind::Number(old(self).chars@.subrange(old(self).pos as int, final(self).pos as int)),
                char_span(old(self).chars@, old(self).pos as int, final(self).pos as int),
            ),
    {
        let first = self.pos;
        let start = self.offset;
        self.advance_char();
        self.skip_digits();
        let fraction = match (self.peek_char(), self.peek_next_char()) {
            (Some(dot), Some(d)) => dot == '.' && is_ascii_digit(d),
            _ => false,
        };
        if fraction {
            self.advance_char();
            self.skip_digits();
        }
        let span = Span::new(start, self.offset);
        let lexeme = self.text_between(first, self.pos);
        Ok(Token { kind: TokenKind::Number(lexeme), span })
    }

    /// Scans the whole text into tokens, ending with one end-of-input token.
    pub fn tokenize(self) -> (r: Result<Vec<Token>, LexError>)
        requires
            self.well_formed(),
            self.position() == 0,
        ensures
            match lex_spec(self.text()) {
                Ok(ts) => r is Ok && tokens_view(r->Ok_0@) == ts,
                Err(e) => r is Err && r->Err_0@ == e,
            },
    {
        let mut scanner = self;
        scanner.scan_all()
    }

    fn scan_all(&mut self) -> (r: Result<Vec<Token>, LexError>)
        requires
            old(self).well_formed(),
            old(self).pos == 0,
        ensures
            match lex_spec(old(self).chars@) {
                Ok(ts) => r is Ok && tokens_view(r->Ok_0@) == ts,
                Err(e) => r is Err && r->Err_0@ == e,
            },
    {
        let ghost cs = self.chars@;
        let mut tokens: Vec<Token> = Vec::new();
        proof {
            assert(tokens_view(tokens@) =~= Seq::<Tok>::empty());
        }
        loop
            invariant
                self.well_formed(),
                self.chars@ == cs,
                cs == old(self).chars@,
                lex_from(cs, self.pos as int, tokens_view(tokens@)) == lex_spec(cs),
            ensures
                self.pos >= cs.len(),
            decreases cs.len() - self.pos,
        {
            let ghost i = self.pos as int;
            let ghost acc = tokens_view(tokens@);
            let c = match self.peek_char() {
                Some(c) => c,
                None => break,
            };
            proof {
                lemma_line_end(cs, i + 1);
                lemma_ident_end(cs, i + 1);
                lemma_number_end(cs, i);
                lemma_scan_string(cs, i + 1, Seq::empty());
            }
            if c == ' ' || c == '\t' || c == '\x0c' {
                self.advance_char();
            } else if c == '\r' {
                let start = self.offset;
                self.advance_char();
                if self.peek_char() == Some('\n') {
                    self.advance_char();
                }
                let t = Token { kind: TokenKind::Newline, span: Span::new(start, self.offset) };
                proof { lemma_view_push(tokens@, t); }
                tokens.push(t);
            } else if c == '\n' {
                let t = self.symbol(TokenKind::Newline);
                proof { lemma_view_push(tokens@, t); }
                tokens.push(t);
            } else if c == '#' {
                let t = match self.lex_comment() {
                    Ok(t) => t,
                    Err(e) => return Err(e),
                };
                proof { lemma_view_push(tokens@, t); }
                tokens.push(t);
            } else if c == '{' || c == '}' || c == '[' || c == ']' || c == ':' || c == ',' {
                let kind = if c == '{' {
                    TokenKind::LBrace
                } else if c == '}' {
                    TokenKind::RBrace
                } else if c == '[' {
                    TokenKind::LBracket
                } else if c == ']' {
                    TokenKind::RBracket
                } else if c == ':' {
                    TokenKind::Colon
                } else {
                    TokenKind::Comma
                };
                let t = self.symbol(kind);
                proof { lemma_view_push(tokens@, t); }
                tokens.push(t);
            } else if c == '"' {
                let t = match self.lex_string() {
                    Ok(t) => t,
                    Err(e) => return Err(e),
                };
                proof { lemma_view_push(tokens@, t); }
                tokens.push(t);
            } else if is_ident_start(c) {
                let t = match self.lex_ident_or_bool() {
                    Ok(t) => t,
                    Err(e) => return Err(e),
                };
                proof { lemma_view_push(tokens@, t); }
                tokens.push(t);
            } else if is_ascii_digit(c) || (c == '-' && match self.peek_next_char() {
                Some(n) => is_ascii_digit(n),
                None => false,
            }) {
                let t = match self.lex_number() {
                    Ok(t) => t,
                    Err(e) => return Err(e),
                };
                proof { lemma_view_push(tokens@, t); }
                tokens.push(t);
            } else {
                proof {
                    lemma_offset_step(cs, i);
                    lemma_offset_mono(cs, i + 1, cs.len() as int);
                }
                let span = Span::new(self.offset, self.offset + char_len(c));
                let mut message = String::from_str("unexpected character '");
                push_char(&mut message, c);
                message.append("'");
                proof {
                    assert(message@ =~= unexpected_message(c));
                }
                return Err(LexError { message, span });
            }
        }
        proof {
            assert(cs.take(cs.len() as int) =~= cs);
        }
        let t = Token { kind: TokenKind::Eof, span: Span::new(self.offset, self.offset) };
        proof { lemma_view_push(tokens@, t); }
        tokens.push(t);
        Ok(tokens)
    }
}

/// Tokenizes `source`.
pub fn lex(source: &str) -> (r: Result<Vec<Token>, LexError>)
    ensures
        match lex_spec(source@) {
            Ok(ts) => r is Ok && tokens_view(r->Ok_0@) == ts,
            Err(e) => r is Err && r->Err_0@ == e,
        },
{
    Lexer::new(source).tokenize()
}


pub open spec fn no_eof(ts: Seq<Tok>) -> bool {
    forall|j: int| 0 <= j < ts.len() ==> !(#[trigger] ts[j].kind is Eof)
}

/// A successful scan ends in exactly one end-of-input token.
pub proof fn lemma_lex_from_shape(cs: Seq<char>, i: int, acc: Seq<Tok>)
    requires
        0 <= i,
        no_eof(acc),
    ensures
        lex_from(cs, i, acc) is Ok ==> ({
            let ts = lex_from(cs, i, acc)->Ok_0;
            &&& ts.len() > 0
            &&& ts.last().kind is Eof
            &&& no_eof(ts.drop_last())
        }),
    decreases cs.len() - i,
{
    if i < cs.len() {
        lemma_line_end(cs, i + 1);
        lemma_ident_end(cs, i + 1);
        lemma_number_end(cs, i);
        lemma_scan_string(cs, i + 1, Seq::empty());
        let c = cs[i];
        if c == ' ' || c == '\t' || c == '\x0c' {
            lemma_lex_from_shape(cs, i + 1, acc);
        } else if c == '\r' {
            let j = if i + 1 < cs.len() && cs[i + 1] == '\n' { i + 2 } else { i + 1 };
            let x = tok(Kind::Newline, char_span(cs, i, j));
            assert(no_eof(acc.push(x)));
            lemma_lex_from_shape(cs, j, acc.push(x));
        } else if c == '\n' {
            let x = tok(Kind::Newline, char_span(cs, i, i + 1));
            assert(no_eof(acc.push(x)));
            lemma_lex_from_shape(cs, i + 1, acc.push(x));
        } else if c == '#' {
            let j = line_end(cs, i + 1);
            let x = tok(Kind::Comment(cs.subrange(i, j)), char_span(cs, i, j));
            assert(no_eof(acc.push(x)));
            lemma_lex_from_shape(cs, j, acc.push(x));
        } else if symbol_kind(c) is Some {
            let x = tok(symbol_kind(c)->Some_0, char_span(cs, i, i + 1));
            assert(no_eof(acc.push(x)));
            lemma_lex_from_shape(cs, i + 1, acc.push(x));
        } else if c == '"' {
            match scan_string(cs, i + 1, Seq::empty()) {
                StrScan::Closed(v, j) => {
                    let x = tok(Kind::Str(v), char_span(cs, i, j));
                    assert(no_eof(acc.push(x)));
                    lemma_lex_from_shape(cs, j, acc.push(x));
                },
                _ => {},
            }
        } else if ident_start(c) {
            let j = ident_end(cs, i + 1);
            let x = tok(word_kind(cs.subrange(i, j)), char_span(cs, i, j));
            assert(no_eof(acc.push(x)));
            lemma_lex_from_shape(cs, j, acc.push(x));
        } else if starts_number(cs, i) {
            let j = number_end(cs, i);
            let x = tok(Kind::Number(cs.subrange(i, j)), char_span(cs, i, j));
            assert(no_eof(acc.push(x)));
            lemma_lex_from_shape(cs, j, acc.push(x));
        }
    } else {
        let n = cs.len() as int;
        assert(acc.push(tok(Kind::Eof, char_span(cs, n, n))).drop_last() =~= acc);
    }
}

} // verus!
