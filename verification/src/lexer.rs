//! The tokens of the tree language, read from the bytes of the source text.
use std::ops::Range;
use vstd::prelude::*;
use vstd::string::*;
use vstd::utf8::*;

use crate::text::str_debug;

verus! {

/// A range of byte positions in the source text.
pub type Span = Range<usize>;

/// A token of the tree language.
#[derive(Debug, Clone, Copy)]
pub enum Token<'src> {
    /// `=`
    Equal,
    /// `△` or `$`
    Triangle,
    /// `(`
    Open,
    /// `)`
    Close,
    /// A line break.
    Newline,
    /// A run of ASCII letters, digits and `_`.
    Identifier(&'src str),
    /// `->`
    Arrow,
    /// `fn`
    Fn,
    /// `#num`
    Num,
    /// `#show`
    Show,
    /// `#viz`
    Visualize,
    /// A character that starts no token.
    Error,
    /// The end of the text.
    Eof,
}

/// The kind of a token, without the text of a name.
pub enum Lexeme {
    Equal,
    Triangle,
    Open,
    Close,
    Newline,
    Identifier,
    Arrow,
    Fn,
    Num,
    Show,
    Visualize,
    Error,
    Eof,
}

/// A token read from the text: its kind and the byte range it covers.
pub struct Lexed {
    pub kind: Lexeme,
    pub start: nat,
    pub end: nat,
}

/// Space, tab, form feed or carriage return: skipped between tokens.
pub open spec fn is_blank(c: u8) -> bool {
    c == 0x20 || c == 0x09 || c == 0x0c || c == 0x0d
}

/// An ASCII letter, digit or `_`: the bytes of a name.
pub open spec fn is_name_byte(c: u8) -> bool {
    (0x61 <= c <= 0x7a) || (0x41 <= c <= 0x5a) || (0x30 <= c <= 0x39) || c == 0x5f
}

/// The first position at or after `p` that holds no name byte.
pub open spec fn name_end(b: Seq<u8>, p: nat) -> nat
    decreases b.len() - p,
{
    if p < b.len() && is_name_byte(b[p as int]) {
        name_end(b, p + 1)
    } else {
        p
    }
}

/// The first position at or after `p` that holds a line break, or the end of the text.
pub open spec fn line_end(b: Seq<u8>, p: nat) -> nat
    decreases b.len() - p,
{
    if p < b.len() && b[p as int] != 0x0a {
        line_end(b, p + 1)
    } else {
        p
    }
}

/// The position of the next token at or after `p`: blanks and `//` comments up to the end of
/// their line are skipped.
pub open spec fn skip_trivia(b: Seq<u8>, p: nat) -> nat
    decreases b.len() - p,
{
    if p >= b.len() {
        p
    } else if is_blank(b[p as int]) {
        skip_trivia(b, p + 1)
    } else if b[p as int] == 0x2f && p + 1 < b.len() && b[p + 1int] == 0x2f {
        proof {
            lemma_line_end(b, p + 2);
        }
        skip_trivia(b, line_end(b, p + 2))
    } else {
        p
    }
}

/// The number of bytes of the character whose UTF-8 encoding starts with `c`.
pub open spec fn char_width(c: u8) -> nat {
    if c < 0x80 {
        1
    } else if c < 0xe0 {
        2
    } else if c < 0xf0 {
        3
    } else {
        4
    }
}

/// Whether the bytes from `p` on start with `w`.
pub open spec fn starts_with(b: Seq<u8>, p: nat, w: Seq<u8>) -> bool {
    p + w.len() <= b.len() && b.subrange(p as int, (p + w.len()) as int) == w
}

/// The token that a lexer at position `p` of the text `b` reads next.
pub open spec fn lex(b: Seq<u8>, p: nat) -> Lexed {
    let s = skip_trivia(b, p);
    if s >= b.len() {
        Lexed { kind: Lexeme::Eof, start: b.len(), end: b.len() }
    } else {
        let c = b[s as int];
        if c == 0x3d {
            Lexed { kind: Lexeme::Equal, start: s, end: s + 1 }
        } else if c == 0x24 {
            Lexed { kind: Lexeme::Triangle, start: s, end: s + 1 }
        } else if starts_with(b, s, seq![0xe2u8, 0x96u8, 0xb3u8]) {
            Lexed { kind: Lexeme::Triangle, start: s, end: s + 3 }
        } else if c == 0x28 {
            Lexed { kind: Lexeme::Open, start: s, end: s + 1 }
        } else if c == 0x29 {
            Lexed { kind: Lexeme::Close, start: s, end: s + 1 }
        } else if c == 0x0a {
            Lexed { kind: Lexeme::Newline, start: s, end: s + 1 }
        } else if starts_with(b, s, seq![0x2du8, 0x3eu8]) {
            Lexed { kind: Lexeme::Arrow, start: s, end: s + 2 }
        } else if starts_with(b, s, seq![0x23u8, 0x6eu8, 0x75u8, 0x6du8]) {
            Lexed { kind: Lexeme::Num, start: s, end: s + 4 }
        } else if starts_with(b, s, seq![0x23u8, 0x73u8, 0x68u8, 0x6fu8, 0x77u8]) {
            Lexed { kind: Lexeme::Show, start: s, end: s + 5 }
        } else if starts_with(b, s, seq![0x23u8, 0x76u8, 0x69u8, 0x7au8]) {
            Lexed { kind: Lexeme::Visualize, start: s, end: s + 4 }
        } else if is_name_byte(c) {
            let e = name_end(b, s);
            if e == s + 2 && c == 0x66 && b[s + 1int] == 0x6e {
                Lexed { kind: Lexeme::Fn, start: s, end: e }
            } else {
                Lexed { kind: Lexeme::Identifier, start: s, end: e }
            }
        } else {
            let e = s + char_width(c);
            Lexed { kind: Lexeme::Error, start: s, end: if e <= b.len() { e } else { b.len() } }
        }
    }
}

/// `t` is the token `l` read from the text `b`: of its kind, and for a name, with its bytes.
pub open spec fn token_is(t: Token, l: Lexed, b: Seq<u8>) -> bool {
    match t {
        Token::Equal => l.kind == Lexeme::Equal,
        Token::Triangle => l.kind == Lexeme::Triangle,
        Token::Open => l.kind == Lexeme::Open,
        Token::Close => l.kind == Lexeme::Close,
        Token::Newline => l.kind == Lexeme::Newline,
        Token::Identifier(name) => l.kind == Lexeme::Identifier && name.spec_bytes() == b.subrange(
            l.start as int,
            l.end as int,
        ),
        Token::Arrow => l.kind == Lexeme::Arrow,
        Token::Fn => l.kind == Lexeme::Fn,
        Token::Num => l.kind == Lexeme::Num,
        Token::Show => l.kind == Lexeme::Show,
        Token::Visualize => l.kind == Lexeme::Visualize,
        Token::Error => l.kind == Lexeme::Error,
        Token::Eof => l.kind == Lexeme::Eof,
    }
}

/// `(t, span)` is the token `l` read from the text `b`, with its byte range.
pub open spec fn read_as(t: Token, span: Span, l: Lexed, b: Seq<u8>) -> bool {
    &&& token_is(t, l, b)
    &&& span.start == l.start
    &&& span.end == l.end
}

/// The text that `{:?}` gives for a token.
pub open spec fn token_debug(t: Token) -> Seq<char> {
    match t {
        Token::Equal => "Equal"@,
        Token::Triangle => "Triangle"@,
        Token::Open => "Open"@,
        Token::Close => "Close"@,
        Token::Newline => "Newline"@,
        Token::Identifier(name) => "Identifier("@ + str_debug(name@) + ")"@,
        Token::Arrow => "Arrow"@,
        Token::Fn => "Fn"@,
        Token::Num => "Num"@,
        Token::Show => "Show"@,
        Token::Visualize => "Visualize"@,
        Token::Error => "Error"@,
        Token::Eof => "Eof"@,
    }
}

/// The text that `{:?}` gives for `t`.
pub fn token_debug_text(t: Token) -> (r: String)
    ensures
        r@ == token_debug(t),
{
    match t {
        Token::Equal => String::from_str("Equal"),
        Token::Triangle => String::from_str("Triangle"),
        Token::Open => String::from_str("Open"),
        Token::Close => String::from_str("Close"),
        Token::Newline => String::from_str("Newline"),
        Token::Identifier(name) => {
            let mut s = String::from_str("Identifier(");
            let quoted = crate::text::debug_quoted(name);
            s.append(quoted.as_str());
            s.append(")");
            s
        },
        Token::Arrow => String::from_str("Arrow"),
        Token::Fn => String::from_str("Fn"),
        Token::Num => String::from_str("Num"),
        Token::Show => String::from_str("Show"),
        Token::Visualize => String::from_str("Visualize"),
        Token::Error => String::from_str("Error"),
        Token::Eof => String::from_str("Eof"),
    }
}

/// A position just after an ASCII character is a character boundary.
pub proof fn lemma_boundary_after_ascii(b: Seq<u8>, i: int)
    requires
        valid_utf8(b),
        is_char_boundary(b, i),
        0 <= i < b.len(),
        b[i] < 0x80,
    ensures
        is_char_boundary(b, i + 1),
    decreases b.len(),
{
    let l = length_of_first_scalar(b);
    let p = pop_first_scalar(b);
    assert(1 <= l <= 4);
    assert(l <= b.len());
    assert(p.len() == b.len() - l);
    if i == 0 {
        assert(l == 1);
        assert(is_char_boundary(p, 0));
    } else {
        assert(valid_utf8(p));
        assert(is_char_boundary(p, i - l));
        assert(i - l >= 0);
        assert(i - l < p.len());
        assert(p[i - l] == b[i]);
        lemma_boundary_after_ascii(p, i - l);
    }
}

/// The bytes `b[start..end]` of a name are a whole piece of the text.
proof fn lemma_name_boundaries(b: Seq<u8>, start: int, end: int)
    requires
        valid_utf8(b),
        0 <= start < end <= b.len(),
        forall|k: int| start <= k < end ==> #[trigger] b[k] < 0x80,
    ensures
        is_char_boundary(b, start),
        is_char_boundary(b, end),
        valid_utf8(b.subrange(start, b.len() as int)),
        is_char_boundary(b.subrange(start, b.len() as int), end - start),
{
    is_char_boundary_iff_not_is_continuation_byte(b, start);
    is_char_boundary_iff_not_is_continuation_byte(b, end - 1);
    lemma_boundary_after_ascii(b, end - 1);
    valid_utf8_split(b, start);
    let rest = b.subrange(start, b.len() as int);
    if end < b.len() {
        is_char_boundary_iff_not_is_continuation_byte(b, end);
        assert(rest[end - start] == b[end]);
        is_char_boundary_iff_not_is_continuation_byte(rest, end - start);
    } else {
        is_char_boundary_start_end_of_seq(rest);
    }
}

/// The piece `start..end` of `source`, where both ends are character boundaries.
pub fn text_slice<'a>(source: &'a str, start: usize, end: usize) -> (r: &'a str)
    requires
        start <= end <= source.spec_bytes().len(),
        is_char_boundary(source.spec_bytes(), start as int),
        is_char_boundary(source.spec_bytes(), end as int),
    ensures
        r.spec_bytes() == source.spec_bytes().subrange(start as int, end as int),
{
    let ghost b = source.spec_bytes();
    proof {
        encode_utf8_valid_utf8(source@);
        valid_utf8_split(b, start as int);
        let rest = b.subrange(start as int, b.len() as int);
        if end < b.len() {
            is_char_boundary_iff_not_is_continuation_byte(b, end as int);
            assert(rest[end - start] == b[end as int]);
            is_char_boundary_iff_not_is_continuation_byte(rest, end - start);
        } else {
            is_char_boundary_start_end_of_seq(rest);
        }
    }
    let (_, rest) = source.split_at(start);
    let (piece, _) = rest.split_at(end - start);
    proof {
        assert(piece.spec_bytes() =~= b.subrange(start as int, end as int));
    }
    piece
}

/// The name that covers `start..end` of `source`, which holds name bytes only.
fn name_slice<'src>(source: &'src str, bytes: &[u8], start: usize, end: usize) -> (r: &'src str)
    requires
        bytes@ == source.spec_bytes(),
        start < end <= bytes.len(),
        forall|k: int| start <= k < end ==> #[trigger] is_name_byte(bytes@[k]),
    ensures
        r.spec_bytes() == bytes@.subrange(start as int, end as int),
{
    proof {
        encode_utf8_valid_utf8(source@);
        assert forall|k: int| start <= k < end implies #[trigger] bytes@[k] < 0x80 by {
            assert(is_name_byte(bytes@[k]));
        }
        lemma_name_boundaries(bytes@, start as int, end as int);
    }
    let (_, rest) = source.split_at(start);
    let (name, _) = rest.split_at(end - start);
    proof {
        assert(name.spec_bytes() =~= bytes@.subrange(start as int, end as int));
    }
    name
}

/// The lexer's reading of the text: the next token, the one after, and so on.
pub struct Lexer<'src> {
    source: &'src str,
    bytes: &'src [u8],
    pos: usize,
    peeked: Option<(Token<'src>, Span)>,
    cursor: Ghost<nat>,
}

impl<'src> Lexer<'src> {
    /// The bytes of the text.
    pub closed spec fn text(&self) -> Seq<u8> {
        self.bytes@
    }

    /// The position from which the next token is read.
    pub closed spec fn cursor(&self) -> nat {
        self.cursor@
    }

    /// The lexer reads its text: the position is within it, and a token looked at ahead is
    /// the one read from the position.
    pub closed spec fn wf(&self) -> bool {
        &&& self.bytes@ == self.source.spec_bytes()
        &&& self.pos <= self.bytes.len()
        &&& self.cursor@ <= self.bytes.len()
        &&& match self.peeked {
            None => self.cursor@ == self.pos,
            Some((t, span)) => read_as(t, span, lex(self.bytes@, self.cursor@), self.bytes@)
                && self.pos == lex(self.bytes@, self.cursor@).end,
        }
    }

    /// The position of a lexer lies within its text.
    pub proof fn lemma_cursor(&self)
        requires
            self.wf(),
        ensures
            self.cursor() <= self.text().len(),
    {
    }

    /// A lexer at the start of `source`.
    pub fn new(source: &'src str) -> (r: Self)
        ensures
            r.wf(),
            r.text() == source.spec_bytes(),
            r.cursor() == 0,
    {
        Lexer { source, bytes: source.as_bytes(), pos: 0, peeked: None, cursor: Ghost(0) }
    }

    /// Reads the next token, with its byte range.
    pub fn next(&mut self) -> (r: (Token<'src>, Span))
        requires
            old(self).wf(),
        ensures
            final(self).wf(),
            final(self).text() == old(self).text(),
            read_as(r.0, r.1, lex(old(self).text(), old(self).cursor()), old(self).text()),
            final(self).cursor() == lex(old(self).text(), old(self).cursor()).end,
    {
        if let Some(inner) = self.peeked.take() {
            proof {
                self.cursor@ = self.pos as nat;
            }
            return inner;
        }
        let (tok, start, end) = read_token(self.source, self.bytes, self.pos);
        proof {
            lemma_lex_bounds(self.bytes@, self.pos as nat);
        }
        self.pos = end;
        proof {
            self.cursor@ = end as nat;
        }
        let span = start..end;
        assert(span.start == start && span.end == end);
        (tok, span)
    }

    /// The next token, with its byte range, left to be read again.
    pub fn peek(&mut self) -> (r: (Token<'src>, Span))
        requires
            old(self).wf(),
        ensures
            final(self).wf(),
            final(self).text() == old(self).text(),
            read_as(r.0, r.1, lex(old(self).text(), old(self).cursor()), old(self).text()),
            final(self).cursor() == old(self).cursor(),
    {
        if let Some((t, span)) = &self.peeked {
            return (*t, span.start..span.end);
        }
        let (tok, start, end) = read_token(self.source, self.bytes, self.pos);
        proof {
            lemma_lex_bounds(self.bytes@, self.pos as nat);
        }
        self.pos = end;
        self.peeked = Some((tok, start..end));
        (tok, start..end)
    }

    /// Reads the next token that is not a line break, with its byte range.
    pub fn next_skip_newline(&mut self) -> (r: (Token<'src>, Span))
        requires
            old(self).wf(),
        ensures
            final(self).wf(),
            final(self).text() == old(self).text(),
            final(self).cursor() == lex(old(self).text(), skip_newlines(old(self).text(), old(self).cursor())).end,
            read_as(r.0, r.1, lex(old(self).text(), skip_newlines(old(self).text(), old(self).cursor())), old(self).text()),
    {
        loop
            invariant
                self.wf(),
                self.text() == old(self).text(),
                self.cursor() <= self.text().len(),
                skip_newlines(self.text(), self.cursor()) == skip_newlines(old(self).text(), old(self).cursor()),
            decreases self.text().len() - self.cursor(),
        {
            let ghost c = self.cursor();
            proof {
                lemma_lex_bounds(self.text(), c);
            }
            match self.next() {
                (Token::Newline, _) => {},
                (tok, span) => {
                    return (tok, span);
                },
            }
        }
    }

    /// The next token that is not a line break, with its byte range, left to be read again;
    /// the line breaks before it are read.
    pub fn peek_skip_newline(&mut self) -> (r: (Token<'src>, Span))
        requires
            old(self).wf(),
        ensures
            final(self).wf(),
            final(self).text() == old(self).text(),
            final(self).cursor() == skip_newlines(old(self).text(), old(self).cursor()),
            read_as(r.0, r.1, lex(old(self).text(), skip_newlines(old(self).text(), old(self).cursor())), old(self).text()),
    {
        loop
            invariant
                self.wf(),
                self.text() == old(self).text(),
                self.cursor() <= self.text().len(),
                skip_newlines(self.text(), self.cursor()) == skip_newlines(old(self).text(), old(self).cursor()),
            decreases self.text().len() - self.cursor(),
        {
            proof {
                lemma_lex_bounds(self.text(), self.cursor());
            }
            let (tok, span) = self.peek();
            match tok {
                Token::Newline => {
                    self.next();
                },
                _ => {
                    return (tok, span);
                },
            }
        }
    }
}

/// The position of the next token that is not a line break, read from `p`.
pub open spec fn skip_newlines(b: Seq<u8>, p: nat) -> nat
    decreases b.len() - p,
{
    if p < b.len() && lex(b, p).kind == Lexeme::Newline {
        proof {
            lemma_lex_bounds(b, p);
        }
        skip_newlines(b, lex(b, p).end)
    } else {
        p
    }
}

/// A token lies within the text, after the position it is read from; only the end of the
/// text is read without moving.
pub proof fn lemma_lex_bounds(b: Seq<u8>, p: nat)
    requires
        p <= b.len(),
    ensures
        p <= lex(b, p).start <= lex(b, p).end <= b.len(),
        lex(b, p).kind != Lexeme::Eof ==> lex(b, p).start < lex(b, p).end,
        lex(b, p).kind == Lexeme::Eof <==> skip_trivia(b, p) >= b.len(),
        lex(b, p).kind == Lexeme::Eof ==> lex(b, p).end == b.len(),
{
    lemma_skip_trivia(b, p);
    let s = skip_trivia(b, p);
    if s < b.len() && is_name_byte(b[s as int]) {
        lemma_name_end(b, s);
    }
}

pub proof fn lemma_skip_newlines_bound(b: Seq<u8>, p: nat)
    requires
        p <= b.len(),
    ensures
        p <= skip_newlines(b, p) <= b.len(),
    decreases b.len() - p,
{
    if p < b.len() && lex(b, p).kind == Lexeme::Newline {
        lemma_lex_bounds(b, p);
        lemma_skip_newlines_bound(b, lex(b, p).end);
    }
}

proof fn lemma_skip_trivia(b: Seq<u8>, p: nat)
    requires
        p <= b.len(),
    ensures
        p <= skip_trivia(b, p) <= b.len(),
    decreases b.len() - p,
{
    if p >= b.len() {
    } else if is_blank(b[p as int]) {
        lemma_skip_trivia(b, p + 1);
    } else if b[p as int] == 0x2f && p + 1 < b.len() && b[p + 1int] == 0x2f {
        lemma_line_end(b, p + 2);
        lemma_skip_trivia(b, line_end(b, p + 2));
    }
}

pub proof fn lemma_line_end(b: Seq<u8>, p: nat)
    requires
        p <= b.len(),
    ensures
        p <= line_end(b, p) <= b.len(),
    decreases b.len() - p,
{
    if p < b.len() && b[p as int] != 0x0a {
        lemma_line_end(b, p + 1);
    }
}

proof fn lemma_name_end(b: Seq<u8>, p: nat)
    requires
        p <= b.len(),
    ensures
        p <= name_end(b, p) <= b.len(),
        forall|k: int| p <= k < name_end(b, p) ==> #[trigger] is_name_byte(b[k]),
        p < b.len() && is_name_byte(b[p as int]) ==> p < name_end(b, p),
    decreases b.len() - p,
{
    if p < b.len() && is_name_byte(b[p as int]) {
        lemma_name_end(b, p + 1);
    }
}

/// Whether `c` is a name byte.
fn name_byte(c: u8) -> (r: bool)
    ensures
        r == is_name_byte(c),
{
    (0x61 <= c && c <= 0x7a) || (0x41 <= c && c <= 0x5a) || (0x30 <= c && c <= 0x39) || c == 0x5f
}

/// Whether the bytes from `p` on start with `w`.
fn bytes_start_with(b: &[u8], p: usize, w: &[u8]) -> (r: bool)
    requires
        p <= b.len(),
    ensures
        r == starts_with(b@, p as nat, w@),
{
    if w.len() > b.len() - p {
        return false;
    }
    let mut i: usize = 0;
    while i < w.len()
        invariant
            p + w.len() <= b.len(),
            i <= w.len(),
            forall|k: int| 0 <= k < i ==> b@[p + k] == w@[k],
        decreases w.len() - i,
    {
        if b[p + i] != w[i] {
            proof {
                assert(b@.subrange(p as int, p + w.len())[i as int] != w@[i as int]);
            }
            return false;
        }
        i += 1;
    }
    proof {
        assert(b@.subrange(p as int, p + w.len()) =~= w@);
    }
    true
}

/// The position of the next token at or after `p`.
fn skip_trivia_at(b: &[u8], p: usize) -> (r: usize)
    requires
        p <= b.len(),
    ensures
        r == skip_trivia(b@, p as nat),
{
    let mut q = p;
    while q < b.len()
        invariant
            p <= q <= b.len(),
            skip_trivia(b@, q as nat) == skip_trivia(b@, p as nat),
        decreases b.len() - q,
    {
        let c = b[q];
        if c == 0x20 || c == 0x09 || c == 0x0c || c == 0x0d {
            q += 1;
        } else if c == 0x2f && q + 1 < b.len() && b[q + 1] == 0x2f {
            let mut e = q + 2;
            while e < b.len() && b[e] != 0x0a
                invariant
                    q + 2 <= e <= b.len(),
                    line_end(b@, e as nat) == line_end(b@, (q + 2) as nat),
                decreases b.len() - e,
            {
                e += 1;
            }
            q = e;
        } else {
            return q;
        }
    }
    q
}

/// Reads the token at or after position `p` of `source`, giving it with its byte range.
fn read_token<'src>(source: &'src str, bytes: &'src [u8], p: usize) -> (r: (Token<'src>, usize, usize))
    requires
        bytes@ == source.spec_bytes(),
        p <= bytes.len(),
    ensures
        token_is(r.0, lex(bytes@, p as nat), bytes@),
        r.1 == lex(bytes@, p as nat).start,
        r.2 == lex(bytes@, p as nat).end,
{
    let b = bytes;
    let s = skip_trivia_at(b, p);
    if s >= b.len() {
        return (Token::Eof, b.len(), b.len());
    }
    let c = b[s];
    if c == 0x3d {
        return (Token::Equal, s, s + 1);
    }
    if c == 0x24 {
        return (Token::Triangle, s, s + 1);
    }
    let triangle: [u8; 3] = [0xe2, 0x96, 0xb3];
    if bytes_start_with(b, s, triangle.as_slice()) {
        proof {
            assert(triangle@ =~= seq![0xe2u8, 0x96u8, 0xb3u8]);
        }
        return (Token::Triangle, s, s + 3);
    }
    assert(!starts_with(b@, s as nat, seq![0xe2u8, 0x96u8, 0xb3u8])) by {
        assert(triangle@ =~= seq![0xe2u8, 0x96u8, 0xb3u8]);
    }
    if c == 0x28 {
        return (Token::Open, s, s + 1);
    }
    if c == 0x29 {
        return (Token::Close, s, s + 1);
    }
    if c == 0x0a {
        return (Token::Newline, s, s + 1);
    }
    let arrow: [u8; 2] = [0x2d, 0x3e];
    let num: [u8; 4] = [0x23, 0x6e, 0x75, 0x6d];
    let show: [u8; 5] = [0x23, 0x73, 0x68, 0x6f, 0x77];
    let viz: [u8; 4] = [0x23, 0x76, 0x69, 0x7a];
    proof {
        assert(arrow@ =~= seq![0x2du8, 0x3eu8]);
        assert(num@ =~= seq![0x23u8, 0x6eu8, 0x75u8, 0x6du8]);
        assert(show@ =~= seq![0x23u8, 0x73u8, 0x68u8, 0x6fu8, 0x77u8]);
        assert(viz@ =~= seq![0x23u8, 0x76u8, 0x69u8, 0x7au8]);
    }
    if bytes_start_with(b, s, arrow.as_slice()) {
        return (Token::Arrow, s, s + 2);
    }
    if bytes_start_with(b, s, num.as_slice()) {
        return (Token::Num, s, s + 4);
    }
    if bytes_start_with(b, s, show.as_slice()) {
        return (Token::Show, s, s + 5);
    }
    if bytes_start_with(b, s, viz.as_slice()) {
        return (Token::Visualize, s, s + 4);
    }
    if name_byte(c) {
        let mut e = s + 1;
        while e < b.len() && name_byte(b[e])
            invariant
                s < e <= b.len(),
                name_end(b@, e as nat) == name_end(b@, s as nat),
                forall|k: int| s <= k < e ==> #[trigger] is_name_byte(b@[k]),
            decreases b.len() - e,
        {
            e += 1;
        }
        if e - s == 2 && c == 0x66 && b[s + 1] == 0x6e {
            return (Token::Fn, s, e);
        }
        let name = name_slice(source, b, s, e);
        return (Token::Identifier(name), s, e);
    }
    let w: usize = if c < 0x80 {
        1
    } else if c < 0xe0 {
        2
    } else if c < 0xf0 {
        3
    } else {
        4
    };
    let e = if w <= b.len() - s {
        s + w
    } else {
        b.len()
    };
    (Token::Error, s, e)
}


/// The name bytes from `p` run up to `name_end`, and the byte there, if any, is none.
proof fn lemma_name_run(b: Seq<u8>, p: nat)
    requires
        p <= b.len(),
    ensures
        name_end(b, p) < b.len() ==> !is_name_byte(b[name_end(b, p) as int]),
    decreases b.len() - p,
{
    if p < b.len() && is_name_byte(b[p as int]) {
        lemma_name_run(b, p + 1);
    }
}

/// Names are runs of ASCII letters of either case, digits and `_`: where the next token starts
/// with such a byte, it is a name, or the keyword `fn`, covering the whole run up to the first
/// byte that is none of them.
pub proof fn law_names(b: Seq<u8>, p: nat)
    requires
        p <= b.len(),
        skip_trivia(b, p) < b.len(),
        ({
            let c = b[skip_trivia(b, p) as int];
            (0x41 <= c <= 0x5a) || (0x61 <= c <= 0x7a) || (0x30 <= c <= 0x39) || c == 0x5f
        }),
    ensures
        lex(b, p).kind == Lexeme::Identifier || lex(b, p).kind == Lexeme::Fn,
        lex(b, p).start == skip_trivia(b, p),
        lex(b, p).start < lex(b, p).end <= b.len(),
        forall|k: int|
            lex(b, p).start <= k < lex(b, p).end ==> {
                let c = #[trigger] b[k];
                (0x41 <= c <= 0x5a) || (0x61 <= c <= 0x7a) || (0x30 <= c <= 0x39) || c == 0x5f
            },
        lex(b, p).end < b.len() ==> {
            let c = b[lex(b, p).end as int];
            !((0x41 <= c <= 0x5a) || (0x61 <= c <= 0x7a) || (0x30 <= c <= 0x39) || c == 0x5f)
        },
        lex(b, p).kind == Lexeme::Fn <==> (lex(b, p).end == lex(b, p).start + 2 && b[lex(b, p).start as int] == 0x66
            && b[lex(b, p).start + 1int] == 0x6e),
{
    lemma_skip_trivia(b, p);
    let s = skip_trivia(b, p);
    lemma_name_end(b, s);
    lemma_name_run(b, s);
    let c = b[s as int];
    assert(!starts_with(b, s, seq![0xe2u8, 0x96u8, 0xb3u8])) by {
        if starts_with(b, s, seq![0xe2u8, 0x96u8, 0xb3u8]) {
            assert(b.subrange(s as int, s + 3int)[0] == b[s as int]);
        }
    }
    assert(!starts_with(b, s, seq![0x2du8, 0x3eu8])) by {
        if starts_with(b, s, seq![0x2du8, 0x3eu8]) {
            assert(b.subrange(s as int, s + 2int)[0] == b[s as int]);
        }
    }
    assert(!starts_with(b, s, seq![0x23u8, 0x6eu8, 0x75u8, 0x6du8])) by {
        if starts_with(b, s, seq![0x23u8, 0x6eu8, 0x75u8, 0x6du8]) {
            assert(b.subrange(s as int, s + 4int)[0] == b[s as int]);
        }
    }
    assert(!starts_with(b, s, seq![0x23u8, 0x73u8, 0x68u8, 0x6fu8, 0x77u8])) by {
        if starts_with(b, s, seq![0x23u8, 0x73u8, 0x68u8, 0x6fu8, 0x77u8]) {
            assert(b.subrange(s as int, s + 5int)[0] == b[s as int]);
        }
    }
    assert(!starts_with(b, s, seq![0x23u8, 0x76u8, 0x69u8, 0x7au8])) by {
        if starts_with(b, s, seq![0x23u8, 0x76u8, 0x69u8, 0x7au8]) {
            assert(b.subrange(s as int, s + 4int)[0] == b[s as int]);
        }
    }
    let e = name_end(b, s);
    assert forall|k: int| s <= k < e implies {
        let c = #[trigger] b[k];
        (0x41 <= c <= 0x5a) || (0x61 <= c <= 0x7a) || (0x30 <= c <= 0x39) || c == 0x5f
    } by {
        assert(is_name_byte(b[k]));
    }
    if lex(b, p).kind == Lexeme::Fn {
        assert(b[s + 1int] == 0x6e);
    } else if e == s + 2 && c == 0x66 && b[s + 1int] == 0x6e {
    }
}

/// Spaces, tabs, form feeds and carriage returns are skipped between tokens, so a text reads
/// the same with or without one of them in front; a line break is a token of its own.
pub proof fn law_blanks(b: Seq<u8>, p: nat)
    requires
        p < b.len(),
    ensures
        (b[p as int] == 0x20 || b[p as int] == 0x09 || b[p as int] == 0x0c || b[p as int] == 0x0d) ==> skip_trivia(b, p)
            == skip_trivia(b, p + 1) && lex(b, p) == lex(b, p + 1),
        b[p as int] == 0x0a ==> skip_trivia(b, p) == p && lex(b, p) == (Lexed {
            kind: Lexeme::Newline,
            start: p,
            end: p + 1,
        }),
{
    if b[p as int] == 0x0a {
        assert(!starts_with(b, p, seq![0xe2u8, 0x96u8, 0xb3u8])) by {
            if starts_with(b, p, seq![0xe2u8, 0x96u8, 0xb3u8]) {
                assert(b.subrange(p as int, p + 3int)[0] == b[p as int]);
            }
        }
    }
}


/// The one-byte tokens: after the skipped blanks and comments, `=` is `Equal`, `$` a triangle,
/// `(` and `)` the brackets and a line break `Newline`, each covering its one byte; `△` is a
/// triangle covering its three bytes.
pub proof fn law_symbols(b: Seq<u8>, p: nat)
    requires
        p <= b.len(),
        skip_trivia(b, p) < b.len(),
    ensures
        ({
            let s = skip_trivia(b, p);
            let c = b[s as int];
            &&& c == 0x3d ==> lex(b, p) == (Lexed { kind: Lexeme::Equal, start: s, end: s + 1 })
            &&& c == 0x24 ==> lex(b, p) == (Lexed { kind: Lexeme::Triangle, start: s, end: s + 1 })
            &&& c == 0x28 ==> lex(b, p) == (Lexed { kind: Lexeme::Open, start: s, end: s + 1 })
            &&& c == 0x29 ==> lex(b, p) == (Lexed { kind: Lexeme::Close, start: s, end: s + 1 })
            &&& c == 0x0a ==> lex(b, p) == (Lexed { kind: Lexeme::Newline, start: s, end: s + 1 })
            &&& (s + 3 <= b.len() && c == 0xe2 && b[s + 1int] == 0x96 && b[s + 2int] == 0xb3) ==> lex(b, p) == (Lexed {
                kind: Lexeme::Triangle,
                start: s,
                end: s + 3,
            })
            &&& (s + 2 <= b.len() && c == 0x2d && b[s + 1int] == 0x3e) ==> lex(b, p) == (Lexed {
                kind: Lexeme::Arrow,
                start: s,
                end: s + 2,
            })
        }),
{
    let s = skip_trivia(b, p);
    lemma_skip_trivia(b, p);
    let c = b[s as int];
    if c == 0x3d || c == 0x24 || c == 0x28 || c == 0x29 || c == 0x0a {
        assert(!starts_with(b, s, seq![0xe2u8, 0x96u8, 0xb3u8])) by {
            if starts_with(b, s, seq![0xe2u8, 0x96u8, 0xb3u8]) {
                assert(b.subrange(s as int, s + 3int)[0] == b[s as int]);
            }
        }
    }
    if s + 3 <= b.len() && c == 0xe2 && b[s + 1int] == 0x96 && b[s + 2int] == 0xb3 {
        assert(b.subrange(s as int, s + 3int) =~= seq![0xe2u8, 0x96u8, 0xb3u8]);
    }
    if s + 2 <= b.len() && c == 0x2d && b[s + 1int] == 0x3e {
        assert(b.subrange(s as int, s + 2int) =~= seq![0x2du8, 0x3eu8]);
        assert(!starts_with(b, s, seq![0xe2u8, 0x96u8, 0xb3u8])) by {
            if starts_with(b, s, seq![0xe2u8, 0x96u8, 0xb3u8]) {
                assert(b.subrange(s as int, s + 3int)[0] == b[s as int]);
            }
        }
    }
}

/// A `//` comment runs to the end of its line: the next token is the one after the line.
pub proof fn law_comments(b: Seq<u8>, p: nat)
    requires
        p + 1 < b.len(),
        b[p as int] == 0x2f,
        b[p + 1int] == 0x2f,
    ensures
        skip_trivia(b, p) == skip_trivia(b, line_end(b, p + 2)),
        line_end(b, p + 2) == b.len() || b[line_end(b, p + 2) as int] == 0x0a,
        forall|k: int| p + 2 <= k < line_end(b, p + 2) ==> #[trigger] b[k] != 0x0a,
{
    lemma_line_end_run(b, p + 2);
}

/// A line runs from `p` to the first line break at or after it.
proof fn lemma_line_end_run(b: Seq<u8>, p: nat)
    requires
        p <= b.len(),
    ensures
        p <= line_end(b, p) <= b.len(),
        line_end(b, p) == b.len() || b[line_end(b, p) as int] == 0x0a,
        forall|k: int| p <= k < line_end(b, p) ==> #[trigger] b[k] != 0x0a,
    decreases b.len() - p,
{
    if p < b.len() && b[p as int] != 0x0a {
        lemma_line_end_run(b, p + 1);
    }
}

} // verus!
