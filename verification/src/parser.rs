//! Declarations of the tree language, parsed from the tokens of the lexer.
use vstd::prelude::*;
use vstd::string::*;
use vstd::utf8::*;

use crate::lexer::{
    lemma_lex_bounds, lex, read_as, skip_newlines, token_debug, token_debug_text, token_is, Lexed,
    Lexeme, Lexer, Span, Token,
};
use crate::text::str_debug;

verus! {

/// A tree expression: `△`, a name, a function `fn x y -> body`, or an application of a
/// sequence of expressions.
#[derive(Debug)]
pub enum TreeExpr<'src> {
    Leaf,
    Application(Vec<TreeExpr<'src>>),
    NameRef((&'src str, Span)),
    Lambda(TreeLambda<'src>),
}

/// A function: its parameters and its body.
#[derive(Debug)]
pub struct TreeLambda<'src> {
    pub params: Vec<&'src str>,
    pub body: Box<TreeExpr<'src>>,
}

/// A message and the byte range of the text it is about.
pub type Error = (String, Span);

/// A declaration `name = expression`.
#[derive(Debug)]
pub struct TreeDecl<'src> {
    pub name: &'src str,
    pub span: Span,
    pub expr: TreeExpr<'src>,
}

/// The number of steps an application chain may take: the parser stops at this many.
pub const MAX_APPLICATION_CHAIN: usize = 10_000;

/// A tree expression as the text gives it, names by their characters and byte ranges.
pub enum Syntax {
    Leaf,
    Application(Seq<Syntax>),
    Name(Seq<char>, nat, nat),
    Lambda(Seq<Seq<char>>, Box<Syntax>),
}

/// A declaration as the text gives it.
pub struct DeclSyntax {
    pub name: Seq<char>,
    pub start: nat,
    pub end: nat,
    pub expr: Syntax,
}

/// The outcome of parsing an expression: the expression and the position after it, or a
/// message with the byte range it is about, or a chain too long for the parser.
pub enum Parsed {
    Done(Syntax, nat),
    Failed(Seq<char>, nat, nat),
    TooLong,
}

/// The outcome of parsing the parameters of a function.
pub enum ParamsParsed {
    Done(Seq<Seq<char>>, nat),
    Failed(Seq<char>, nat, nat),
}

/// The outcome of parsing a declaration.
pub enum DeclParsed {
    Done(DeclSyntax, nat),
    Failed(Seq<char>, nat, nat),
    TooLong,
}

/// The outcome of parsing all declarations of a text.
pub enum DeclsParsed {
    Done(Seq<DeclSyntax>),
    Failed(Seq<char>, nat, nat),
    TooLong,
}

/// The characters of the token `l`.
pub open spec fn lexed_text(l: Lexed, b: Seq<u8>) -> Seq<char> {
    decode_utf8(b.subrange(l.start as int, l.end as int))
}

/// The text that `{:?}` gives for the token `l` of the text `b`.
pub open spec fn lexed_debug(l: Lexed, b: Seq<u8>) -> Seq<char> {
    match l.kind {
        Lexeme::Equal => "Equal"@,
        Lexeme::Triangle => "Triangle"@,
        Lexeme::Open => "Open"@,
        Lexeme::Close => "Close"@,
        Lexeme::Newline => "Newline"@,
        Lexeme::Identifier => "Identifier("@ + str_debug(lexed_text(l, b)) + ")"@,
        Lexeme::Arrow => "Arrow"@,
        Lexeme::Fn => "Fn"@,
        Lexeme::Num => "Num"@,
        Lexeme::Show => "Show"@,
        Lexeme::Visualize => "Visualize"@,
        Lexeme::Error => "Error"@,
        Lexeme::Eof => "Eof"@,
    }
}

/// The message for a token that cannot start an expression.
pub open spec fn unexpected_in_expr(l: Lexed, b: Seq<u8>) -> Seq<char> {
    "Unexpected token "@ + lexed_debug(l, b) + ", expected △ / (tree) / name"@
}

/// The message for a token that is neither a parameter nor `->`.
pub open spec fn unexpected_in_params(l: Lexed, b: Seq<u8>) -> Seq<char> {
    "Unexpected token "@ + lexed_debug(l, b) + ", expected <name> / '->'"@
}

/// The message for a token where `)` should be.
pub open spec fn missing_close(l: Lexed, b: Seq<u8>) -> Seq<char> {
    "Missing closing ')', got unexpected: <"@ + lexed_debug(l, b) + ">"@
}

/// The message for a token where a declared name should be.
pub open spec fn expected_name(l: Lexed, b: Seq<u8>) -> Seq<char> {
    "Unexpected token <"@ + lexed_debug(l, b) + ">, expected <name>"@
}

/// The message for a token where `=` should be.
pub open spec fn expected_equal(l: Lexed, b: Seq<u8>) -> Seq<char> {
    "Unexpected token <"@ + lexed_debug(l, b) + ">, expected '='"@
}

/// The message for a token where the end of the text or a declaration should be.
pub open spec fn expected_end(l: Lexed, b: Seq<u8>) -> Seq<char> {
    "Unexpected token: <"@ + lexed_debug(l, b) + ">, expected EOF / declaration"@
}

/// The parameters of a function from position `c` up to and including `->`, after `acc`.
pub open spec fn parse_params(b: Seq<u8>, c: nat, acc: Seq<Seq<char>>) -> ParamsParsed
    decreases b.len() - c,
{
    if c > b.len() {
        ParamsParsed::Done(acc, c)
    } else {
        let s = skip_newlines(b, c);
        let l = lex(b, s);
        proof {
            crate::lexer::lemma_skip_newlines_bound(b, c);
            lemma_lex_bounds(b, s);
        }
        if l.kind == Lexeme::Identifier {
            parse_params(b, l.end, acc.push(lexed_text(l, b)))
        } else if l.kind == Lexeme::Arrow {
            ParamsParsed::Done(acc, l.end)
        } else {
            ParamsParsed::Failed(unexpected_in_params(l, b), l.start, l.end)
        }
    }
}

/// An application chain from position `c`, inside brackets or not, after the expressions
/// `acc` and `k` steps: it ends before `)` inside brackets, before a line break outside them
/// once it holds an expression, and at the end of the text.
pub open spec fn parse_chain(b: Seq<u8>, c: nat, inside: bool, acc: Seq<Syntax>, k: nat) -> Parsed
    decreases b.len() - c,
{
    if c > b.len() || k + 1 >= MAX_APPLICATION_CHAIN {
        Parsed::TooLong
    } else {
        let l = lex(b, c);
        proof {
            lemma_lex_bounds(b, c);
        }
        let k1 = k + 1;
        if l.kind == Lexeme::Identifier {
            parse_chain(b, l.end, inside, acc.push(Syntax::Name(lexed_text(l, b), l.start, l.end)), k1)
        } else if l.kind == Lexeme::Triangle {
            parse_chain(b, l.end, inside, acc.push(Syntax::Leaf), k1)
        } else if l.kind == Lexeme::Fn {
            proof {
                lemma_params_bounds(b, l.end, seq![]);
            }
            match parse_params(b, l.end, seq![]) {
                ParamsParsed::Failed(m, s, e) => Parsed::Failed(m, s, e),
                ParamsParsed::Done(ps, n) => match parse_chain(b, n, inside, seq![], 0) {
                    Parsed::Done(body, n2) => if c < n2 <= b.len() {
                        parse_chain(b, n2, inside, acc.push(Syntax::Lambda(ps, Box::new(body))), k1)
                    } else {
                        Parsed::TooLong
                    },
                    Parsed::Failed(m, s, e) => Parsed::Failed(m, s, e),
                    Parsed::TooLong => Parsed::TooLong,
                },
            }
        } else if l.kind == Lexeme::Open {
            match parse_chain(b, l.end, true, seq![], 0) {
                Parsed::Done(inner, n) => if c < n <= b.len() {
                    let l2 = lex(b, n);
                    proof {
                        lemma_lex_bounds(b, n);
                    }
                    if l2.kind == Lexeme::Close {
                        parse_chain(b, l2.end, inside, acc.push(inner), k1)
                    } else {
                        Parsed::Failed(missing_close(l2, b), l2.start, l2.end)
                    }
                } else {
                    Parsed::TooLong
                },
                Parsed::Failed(m, s, e) => Parsed::Failed(m, s, e),
                Parsed::TooLong => Parsed::TooLong,
            }
        } else if l.kind == Lexeme::Close && inside {
            Parsed::Done(Syntax::Application(acc), c)
        } else if l.kind == Lexeme::Newline && !inside && acc.len() > 0 {
            Parsed::Done(Syntax::Application(acc), c)
        } else if l.kind == Lexeme::Newline && inside {
            parse_chain(b, l.end, inside, acc, k1)
        } else if l.kind == Lexeme::Eof {
            Parsed::Done(Syntax::Application(acc), c)
        } else {
            Parsed::Failed(unexpected_in_expr(l, b), l.start, l.end)
        }
    }
}

/// The declaration `name = expression` from position `c`.
pub open spec fn parse_decl_at(b: Seq<u8>, c: nat) -> DeclParsed {
    let l1 = lex(b, skip_newlines(b, c));
    let l2 = lex(b, skip_newlines(b, l1.end));
    if l1.kind != Lexeme::Identifier {
        DeclParsed::Failed(expected_name(l1, b), l1.start, l1.end)
    } else if l2.kind != Lexeme::Equal {
        DeclParsed::Failed(expected_equal(l2, b), l2.start, l2.end)
    } else {
        match parse_chain(b, l2.end, false, seq![], 0) {
            Parsed::Done(e, n) => DeclParsed::Done(
                DeclSyntax { name: lexed_text(l1, b), start: l1.start, end: l1.end, expr: e },
                n,
            ),
            Parsed::Failed(m, s, e) => DeclParsed::Failed(m, s, e),
            Parsed::TooLong => DeclParsed::TooLong,
        }
    }
}

/// The declarations from position `c` to the end of the text, after `acc`.
pub open spec fn parse_decls(b: Seq<u8>, c: nat, acc: Seq<DeclSyntax>) -> DeclsParsed
    decreases b.len() - c,
{
    if c > b.len() {
        DeclsParsed::TooLong
    } else {
        let s = skip_newlines(b, c);
        let l = lex(b, s);
        if l.kind == Lexeme::Identifier {
            match parse_decl_at(b, s) {
                DeclParsed::Done(d, n) => if c < n <= b.len() {
                    parse_decls(b, n, acc.push(d))
                } else {
                    DeclsParsed::TooLong
                },
                DeclParsed::Failed(m, st, e) => DeclsParsed::Failed(m, st, e),
                DeclParsed::TooLong => DeclsParsed::TooLong,
            }
        } else if l.kind == Lexeme::Eof {
            DeclsParsed::Done(acc)
        } else {
            DeclsParsed::Failed(expected_end(l, b), l.start, l.end)
        }
    }
}

/// `e` is the expression `s`.
pub open spec fn expr_is(e: TreeExpr, s: Syntax) -> bool
    decreases e,
{
    match e {
        TreeExpr::Leaf => s is Leaf,
        TreeExpr::Application(v) => match s {
            Syntax::Application(ss) => v@.len() == ss.len() && forall|i: int|
                0 <= i < v@.len() ==> expr_is(#[trigger] v@[i], ss[i]),
            _ => false,
        },
        TreeExpr::NameRef((name, span)) => s == Syntax::Name(name@, span.start as nat, span.end as nat),
        TreeExpr::Lambda(lam) => match s {
            Syntax::Lambda(ps, body) => lam.params@.len() == ps.len() && (forall|i: int|
                0 <= i < ps.len() ==> (#[trigger] lam.params@[i])@ == ps[i]) && expr_is(*lam.body, *body),
            _ => false,
        },
    }
}

/// `d` is the declaration `s`.
pub open spec fn decl_is(d: TreeDecl, s: DeclSyntax) -> bool {
    &&& d.name@ == s.name
    &&& d.span.start == s.start
    &&& d.span.end == s.end
    &&& expr_is(d.expr, s.expr)
}

/// `r` is what parsing an expression gives for the outcome `p`, the lexer ending at `c`.
pub open spec fn expr_result(r: Option<Result<TreeExpr, Error>>, p: Parsed, c: nat) -> bool {
    match p {
        Parsed::Done(s, n) => r matches Some(Ok(e)) && expr_is(e, s) && c == n,
        Parsed::Failed(m, st, en) => r matches Some(Err(err)) && err.0@ == m && err.1.start == st
            && err.1.end == en,
        Parsed::TooLong => r is None,
    }
}

/// `r` is what parsing a declaration gives for the outcome `p`, the lexer ending at `c`.
pub open spec fn decl_result(r: Option<Result<TreeDecl, Error>>, p: DeclParsed, c: nat) -> bool {
    match p {
        DeclParsed::Done(s, n) => r matches Some(Ok(d)) && decl_is(d, s) && c == n,
        DeclParsed::Failed(m, st, en) => r matches Some(Err(err)) && err.0@ == m && err.1.start == st
            && err.1.end == en,
        DeclParsed::TooLong => r is None,
    }
}

/// `r` is what parsing all declarations gives for the outcome `p`.
pub open spec fn decls_result(r: Option<Result<Vec<TreeDecl>, Error>>, p: DeclsParsed) -> bool {
    match p {
        DeclsParsed::Done(ds) => r matches Some(Ok(v)) && v@.len() == ds.len() && forall|i: int|
            0 <= i < ds.len() ==> decl_is(#[trigger] v@[i], ds[i]),
        DeclsParsed::Failed(m, st, en) => r matches Some(Err(err)) && err.0@ == m && err.1.start == st
            && err.1.end == en,
        DeclsParsed::TooLong => r is None,
    }
}

/// Parameters end at or after where they start, within the text.
pub proof fn lemma_params_bounds(b: Seq<u8>, c: nat, acc: Seq<Seq<char>>)
    requires
        c <= b.len(),
    ensures
        parse_params(b, c, acc) matches ParamsParsed::Done(_, n) ==> c < n <= b.len(),
    decreases b.len() - c,
{
    let s = skip_newlines(b, c);
    crate::lexer::lemma_skip_newlines_bound(b, c);
    lemma_lex_bounds(b, s);
    let l = lex(b, s);
    if l.kind == Lexeme::Identifier {
        lemma_params_bounds(b, l.end, acc.push(lexed_text(l, b)));
    }
}

/// A chain that parses ends at or after where it starts, within the text.
proof fn lemma_chain_bounds(b: Seq<u8>, c: nat, inside: bool, acc: Seq<Syntax>, k: nat)
    ensures
        parse_chain(b, c, inside, acc, k) matches Parsed::Done(_, n) ==> c <= n <= b.len(),
    decreases b.len() - c,
{
    if c <= b.len() && k + 1 < MAX_APPLICATION_CHAIN {
        let l = lex(b, c);
        lemma_lex_bounds(b, c);
        let k1 = k + 1;
        if l.kind == Lexeme::Identifier {
            lemma_chain_bounds(b, l.end, inside, acc.push(Syntax::Name(lexed_text(l, b), l.start, l.end)), k1);
        } else if l.kind == Lexeme::Triangle {
            lemma_chain_bounds(b, l.end, inside, acc.push(Syntax::Leaf), k1);
        } else if l.kind == Lexeme::Fn {
            lemma_params_bounds(b, l.end, seq![]);
            if let ParamsParsed::Done(ps, n) = parse_params(b, l.end, seq![]) {
                if let Parsed::Done(body, n2) = parse_chain(b, n, inside, seq![], 0) {
                    if c < n2 <= b.len() {
                        lemma_chain_bounds(b, n2, inside, acc.push(Syntax::Lambda(ps, Box::new(body))), k1);
                    }
                }
            }
        } else if l.kind == Lexeme::Open {
            if let Parsed::Done(inner, n) = parse_chain(b, l.end, true, seq![], 0) {
                if c < n <= b.len() {
                    let l2 = lex(b, n);
                    lemma_lex_bounds(b, n);
                    if l2.kind == Lexeme::Close {
                        lemma_chain_bounds(b, l2.end, inside, acc.push(inner), k1);
                    }
                }
            }
        } else if l.kind == Lexeme::Newline && inside {
            lemma_chain_bounds(b, l.end, inside, acc, k1);
        }
    }
}

/// A function in brackets ends at the closing bracket: where `(` is followed by `fn`, its
/// parameters and a body that, read inside the brackets, stops before `)`, the chain goes on
/// after that `)` with the function as one more expression, whatever the chain around it is.
pub proof fn law_function_in_brackets(b: Seq<u8>, c: nat, inside: bool, acc: Seq<Syntax>, k: nat)
    requires
        c <= b.len(),
        k + 2 < MAX_APPLICATION_CHAIN,
        lex(b, c).kind == Lexeme::Open,
        lex(b, lex(b, c).end).kind == Lexeme::Fn,
        parse_params(b, lex(b, lex(b, c).end).end, seq![]) is Done,
        parse_chain(b, parse_params(b, lex(b, lex(b, c).end).end, seq![])->Done_1, true, seq![], 0) is Done,
        lex(b, parse_chain(b, parse_params(b, lex(b, lex(b, c).end).end, seq![])->Done_1, true, seq![], 0)->Done_1).kind
            == Lexeme::Close,
    ensures
        ({
            let ps = parse_params(b, lex(b, lex(b, c).end).end, seq![])->Done_0;
            let n = parse_params(b, lex(b, lex(b, c).end).end, seq![])->Done_1;
            let body = parse_chain(b, n, true, seq![], 0)->Done_0;
            let m = parse_chain(b, n, true, seq![], 0)->Done_1;
            parse_chain(b, c, inside, acc, k) == parse_chain(
                b,
                lex(b, m).end,
                inside,
                acc.push(Syntax::Application(seq![Syntax::Lambda(ps, Box::new(body))])),
                k + 1,
            )
        }),
{
    let o = lex(b, c);
    lemma_lex_bounds(b, c);
    let f = lex(b, o.end);
    lemma_lex_bounds(b, o.end);
    lemma_params_bounds(b, f.end, seq![]);
    let ps = parse_params(b, f.end, seq![])->Done_0;
    let n = parse_params(b, f.end, seq![])->Done_1;
    lemma_chain_bounds(b, n, true, seq![], 0);
    let body = parse_chain(b, n, true, seq![], 0)->Done_0;
    let m = parse_chain(b, n, true, seq![], 0)->Done_1;
    lemma_lex_bounds(b, m);
    let lam = Syntax::Lambda(ps, Box::new(body));
    assert(parse_chain(b, m, true, seq![lam], 1) == Parsed::Done(Syntax::Application(seq![lam]), m));
    assert(seq![].push(lam) == seq![lam]);
    assert(parse_chain(b, o.end, true, seq![], 0) == Parsed::Done(Syntax::Application(seq![lam]), m));
}

/// A token read as `l` prints as `lexed_debug` gives; a name has the characters of its bytes.
proof fn lemma_token(t: Token, l: Lexed, b: Seq<u8>)
    requires
        token_is(t, l, b),
    ensures
        token_debug(t) == lexed_debug(l, b),
        t matches Token::Identifier(name) ==> name@ == lexed_text(l, b),
{
    if let Token::Identifier(name) = t {
        encode_utf8_decode_utf8(name@);
    }
}

/// A line break is skipped: after `skip_newlines` no line break comes.
proof fn lemma_skip_newlines_again(b: Seq<u8>, c: nat)
    requires
        c <= b.len(),
    ensures
        skip_newlines(b, skip_newlines(b, c)) == skip_newlines(b, c),
    decreases b.len() - c,
{
    if c < b.len() && lex(b, c).kind == Lexeme::Newline {
        lemma_lex_bounds(b, c);
        lemma_skip_newlines_again(b, lex(b, c).end);
    }
}

/// A message: the text `before`, the `{:?}` text of `tok`, then `after`.
fn message_with(before: &str, tok: Token, after: &str) -> (r: String)
    ensures
        r@ == before@ + token_debug(tok) + after@,
{
    let mut s = String::from_str(before);
    let t = token_debug_text(tok);
    s.append(t.as_str());
    s.append(after);
    s
}

/// Reads the parameters of a function up to and including `->`.
fn parse_params_exec<'src>(lexer: &mut Lexer<'src>) -> (r: Result<Vec<&'src str>, Error>)
    requires
        old(lexer).wf(),
    ensures
        final(lexer).wf(),
        final(lexer).text() == old(lexer).text(),
        final(lexer).cursor() >= old(lexer).cursor(),
        match parse_params(old(lexer).text(), old(lexer).cursor(), seq![]) {
            ParamsParsed::Done(ps, n) => r matches Ok(v) && v@.len() == ps.len() && (forall|i: int|
                0 <= i < ps.len() ==> (#[trigger] v@[i])@ == ps[i]) && final(lexer).cursor() == n,
            ParamsParsed::Failed(m, st, en) => r matches Err(err) && err.0@ == m && err.1.start == st
                && err.1.end == en,
        },
{
    let ghost b = lexer.text();
    let ghost c0 = lexer.cursor();
    proof {
        lexer.lemma_cursor();
    }
    let mut params: Vec<&'src str> = Vec::with_capacity(4);
    let ghost mut names: Seq<Seq<char>> = seq![];
    loop
        invariant
            lexer.wf(),
            lexer.text() == b,
            b == old(lexer).text(),
            c0 == old(lexer).cursor(),
            c0 <= lexer.cursor() <= b.len(),
            params@.len() == names.len(),
            forall|i: int| 0 <= i < names.len() ==> (#[trigger] params@[i])@ == names[i],
            parse_params(b, lexer.cursor(), names) == parse_params(b, c0, seq![]),
        decreases b.len() - lexer.cursor(),
    {
        let ghost c = lexer.cursor();
        let ghost s = skip_newlines(b, c);
        proof {
            crate::lexer::lemma_skip_newlines_bound(b, c);
            lemma_lex_bounds(b, s);
        }
        let (tok, span) = lexer.next_skip_newline();
        proof {
            lemma_token(tok, lex(b, s), b);
        }
        match tok {
            Token::Identifier(name) => {
                params.push(name);
                proof {
                    names = names.push(name@);
                }
            },
            Token::Arrow => {
                return Ok(params);
            },
            _ => {
                let msg = message_with("Unexpected token ", tok, ", expected <name> / '->'");
                return Err((msg, span));
            },
        }
    }
}

/// Parses an application chain; `None` where the chain reaches `MAX_APPLICATION_CHAIN`
/// steps.
#[verifier::rlimit(80)]
fn parse_tree_expr<'src>(lexer: &mut Lexer<'src>, inside_paren: bool) -> (r: Option<Result<TreeExpr<'src>, Error>>)
    requires
        old(lexer).wf(),
    ensures
        final(lexer).wf(),
        final(lexer).text() == old(lexer).text(),
        final(lexer).cursor() >= old(lexer).cursor(),
        expr_result(r, parse_chain(old(lexer).text(), old(lexer).cursor(), inside_paren, seq![], 0), final(lexer).cursor()),
    decreases old(lexer).text().len() - old(lexer).cursor(),
{
    let ghost b = lexer.text();
    let ghost c0 = lexer.cursor();
    proof {
        lexer.lemma_cursor();
    }
    let mut trees: Vec<TreeExpr<'src>> = Vec::with_capacity(8);
    let ghost mut items: Seq<Syntax> = seq![];
    let mut applications: usize = 0;
    loop
        invariant
            lexer.wf(),
            lexer.text() == b,
            b == old(lexer).text(),
            c0 == old(lexer).cursor(),
            c0 <= lexer.cursor() <= b.len(),
            applications < MAX_APPLICATION_CHAIN,
            trees@.len() == items.len(),
            forall|i: int| 0 <= i < items.len() ==> expr_is(#[trigger] trees@[i], items[i]),
            parse_chain(b, lexer.cursor(), inside_paren, items, applications as nat) == parse_chain(
                b,
                c0,
                inside_paren,
                seq![],
                0,
            ),
        decreases b.len() - lexer.cursor(),
    {
        let ghost c = lexer.cursor();
        let ghost l = lex(b, c);
        proof {
            lemma_lex_bounds(b, c);
        }
        applications += 1;
        if applications >= MAX_APPLICATION_CHAIN {
            return None;
        }
        let (tok, span) = lexer.peek();
        proof {
            lemma_token(tok, l, b);
        }
        let t = match tok {
            Token::Identifier(name) => {
                lexer.next();
                let ghost item = Syntax::Name(name@, span.start as nat, span.end as nat);
                proof {
                    items = items.push(item);
                }
                TreeExpr::NameRef((name, span))
            },
            Token::Triangle => {
                lexer.next();
                proof {
                    items = items.push(Syntax::Leaf);
                }
                TreeExpr::Leaf
            },
            Token::Fn => {
                lexer.next();
                proof {
                    lemma_params_bounds(b, l.end, seq![]);
                }
                let params = match parse_params_exec(lexer) {
                    Ok(params) => params,
                    Err(e) => {
                        return Some(Err(e));
                    },
                };
                let ghost ps = match parse_params(b, l.end, seq![]) {
                    ParamsParsed::Done(ps, _) => ps,
                    ParamsParsed::Failed(..) => seq![],
                };
                let body = match parse_tree_expr(lexer, inside_paren) {
                    None => {
                        return None;
                    },
                    Some(Err(e)) => {
                        return Some(Err(e));
                    },
                    Some(Ok(body)) => body,
                };
                let ghost sbody = match parse_chain(b, match parse_params(b, l.end, seq![]) {
                    ParamsParsed::Done(_, n) => n,
                    ParamsParsed::Failed(..) => 0,
                }, inside_paren, seq![], 0) {
                    Parsed::Done(sb, _) => sb,
                    _ => Syntax::Leaf,
                };
                proof {
                    items = items.push(Syntax::Lambda(ps, Box::new(sbody)));
                }
                TreeExpr::Lambda(TreeLambda { params, body: Box::new(body) })
            },
            Token::Open => {
                lexer.next();
                let inner = match parse_tree_expr(lexer, true) {
                    None => {
                        return None;
                    },
                    Some(Err(e)) => {
                        return Some(Err(e));
                    },
                    Some(Ok(inner)) => inner,
                };
                let ghost n = lexer.cursor();
                proof {
                    lexer.lemma_cursor();
                }
                let ghost sinner = match parse_chain(b, l.end, true, seq![], 0) {
                    Parsed::Done(si, _) => si,
                    _ => Syntax::Leaf,
                };
                proof {
                    lemma_lex_bounds(b, n);
                }
                let (tok2, span2) = lexer.next();
                proof {
                    lemma_token(tok2, lex(b, n), b);
                }
                if !matches!(tok2, Token::Close) {
                    let msg = message_with("Missing closing ')', got unexpected: <", tok2, ">");
                    return Some(Err((msg, span2)));
                }
                proof {
                    items = items.push(sinner);
                }
                inner
            },
            Token::Close => {
                if inside_paren {
                    return Some(Ok(TreeExpr::Application(trees)));
                }
                let msg = message_with("Unexpected token ", tok, ", expected △ / (tree) / name");
                return Some(Err((msg, span)));
            },
            Token::Newline => {
                if !inside_paren && trees.len() > 0 {
                    return Some(Ok(TreeExpr::Application(trees)));
                }
                if inside_paren {
                    lexer.next();
                    continue;
                }
                let msg = message_with("Unexpected token ", tok, ", expected △ / (tree) / name");
                return Some(Err((msg, span)));
            },
            Token::Eof => {
                return Some(Ok(TreeExpr::Application(trees)));
            },
            _ => {
                let msg = message_with("Unexpected token ", tok, ", expected △ / (tree) / name");
                return Some(Err((msg, span)));
            },
        };
        trees.push(t);
        proof {
            lexer.lemma_cursor();
        }
    }
}

/// Parses a declaration `name = expression`; `None` where its expression reaches
/// `MAX_APPLICATION_CHAIN` steps.
fn try_parse_decl<'src>(lexer: &mut Lexer<'src>) -> (r: Option<Result<TreeDecl<'src>, Error>>)
    requires
        old(lexer).wf(),
    ensures
        final(lexer).wf(),
        final(lexer).text() == old(lexer).text(),
        final(lexer).cursor() >= old(lexer).cursor(),
        r matches Some(Ok(_)) ==> final(lexer).cursor() > old(lexer).cursor(),
        decl_result(r, parse_decl_at(old(lexer).text(), old(lexer).cursor()), final(lexer).cursor()),
{
    let ghost b = lexer.text();
    let ghost c0 = lexer.cursor();
    let ghost s1 = skip_newlines(b, c0);
    proof {
        lexer.lemma_cursor();
        crate::lexer::lemma_skip_newlines_bound(b, c0);
        lemma_lex_bounds(b, s1);
    }
    let (tok, name_span) = lexer.next_skip_newline();
    proof {
        lemma_token(tok, lex(b, s1), b);
    }
    let name = match tok {
        Token::Identifier(name) => name,
        _ => {
            let msg = message_with("Unexpected token <", tok, ">, expected <name>");
            return Some(Err((msg, name_span)));
        },
    };
    let ghost s2 = skip_newlines(b, lex(b, s1).end);
    proof {
        crate::lexer::lemma_skip_newlines_bound(b, lex(b, s1).end);
        lemma_lex_bounds(b, s2);
    }
    let (tok, span) = lexer.next_skip_newline();
    proof {
        lemma_token(tok, lex(b, s2), b);
    }
    match tok {
        Token::Equal => {},
        _ => {
            let msg = message_with("Unexpected token <", tok, ">, expected '='");
            return Some(Err((msg, span)));
        },
    }
    let expr = match parse_tree_expr(lexer, false) {
        None => {
            return None;
        },
        Some(Err(e)) => {
            return Some(Err(e));
        },
        Some(Ok(expr)) => expr,
    };
    Some(Ok(TreeDecl { name, span: name_span, expr }))
}

/// Parses a declaration `name = expression`.
pub fn parse_decl<'src>(lexer: &mut Lexer<'src>) -> (r: Result<TreeDecl<'src>, Error>)
    requires
        old(lexer).wf(),
        !(parse_decl_at(old(lexer).text(), old(lexer).cursor()) is TooLong),
    ensures
        final(lexer).wf(),
        final(lexer).text() == old(lexer).text(),
        decl_result(Some(r), parse_decl_at(old(lexer).text(), old(lexer).cursor()), final(lexer).cursor()),
{
    try_parse_decl(lexer).unwrap()
}

/// Parses the declarations up to the end of the text; `None` where an expression reaches
/// `MAX_APPLICATION_CHAIN` steps.
#[verifier::rlimit(50)]
pub fn try_parse_declarations<'src>(lexer: &mut Lexer<'src>) -> (r: Option<Result<Vec<TreeDecl<'src>>, Error>>)
    requires
        old(lexer).wf(),
    ensures
        final(lexer).wf(),
        decls_result(r, parse_decls(old(lexer).text(), old(lexer).cursor(), seq![])),
{
    let ghost b = lexer.text();
    let ghost c0 = lexer.cursor();
    proof {
        lexer.lemma_cursor();
    }
    let mut decls: Vec<TreeDecl<'src>> = Vec::with_capacity(128);
    let ghost mut found: Seq<DeclSyntax> = seq![];
    loop
        invariant
            lexer.wf(),
            lexer.text() == b,
            c0 == old(lexer).cursor(),
            b == old(lexer).text(),
            lexer.cursor() <= b.len(),
            decls@.len() == found.len(),
            forall|i: int| 0 <= i < found.len() ==> decl_is(#[trigger] decls@[i], found[i]),
            parse_decls(b, lexer.cursor(), found) == parse_decls(b, c0, seq![]),
        decreases b.len() - lexer.cursor(),
    {
        let ghost c = lexer.cursor();
        let ghost s = skip_newlines(b, c);
        proof {
            crate::lexer::lemma_skip_newlines_bound(b, c);
            lemma_lex_bounds(b, s);
            lemma_skip_newlines_again(b, c);
        }
        let (tok, _) = lexer.peek_skip_newline();
        match tok {
            Token::Identifier(_) => {
                let d = match try_parse_decl(lexer) {
                    None => {
                        return None;
                    },
                    Some(Err(e)) => {
                        return Some(Err(e));
                    },
                    Some(Ok(d)) => d,
                };
                proof {
                    let ds = match parse_decl_at(b, s) {
                        DeclParsed::Done(ds, _) => ds,
                        _ => arbitrary(),
                    };
                    found = found.push(ds);
                    lexer.lemma_cursor();
                }
                decls.push(d);
            },
            _ => {
                let (tok, span) = lexer.next_skip_newline();
                proof {
                    lemma_token(tok, lex(b, s), b);
                }
                if !matches!(tok, Token::Eof) {
                    let msg = message_with("Unexpected token: <", tok, ">, expected EOF / declaration");
                    return Some(Err((msg, span)));
                }
                return Some(Ok(decls));
            },
        }
    }
}

/// Parses the declarations up to the end of the text.
pub fn parse_declarations<'src>(lexer: &mut Lexer<'src>) -> (r: Result<Vec<TreeDecl<'src>>, Error>)
    requires
        old(lexer).wf(),
        !(parse_decls(old(lexer).text(), old(lexer).cursor(), seq![]) is TooLong),
    ensures
        final(lexer).wf(),
        decls_result(Some(r), parse_decls(old(lexer).text(), old(lexer).cursor(), seq![])),
{
    try_parse_declarations(lexer).unwrap()
}

/// How an expression is written: `△`, a name as itself, a function as `fn` with its
/// parameters, `->` and its body, an application of one part as that part, and of more parts
/// as the parts separated by spaces, applications and functions in brackets.
pub open spec fn show_expr(e: TreeExpr) -> Seq<char>
    decreases e, 1nat,
{
    match e {
        TreeExpr::Leaf => "△"@,
        TreeExpr::NameRef((name, _)) => name@,
        TreeExpr::Application(v) => if v@.len() == 1 {
            show_expr(v@[0])
        } else {
            show_expr_list(v@, true)
        },
        TreeExpr::Lambda(lam) => show_lambda(lam),
    }
}

/// How a function is written: `fn`, its parameters separated by spaces, `->` and its body.
pub open spec fn show_lambda(lam: TreeLambda) -> Seq<char>
    decreases lam, 1nat,
{
    "fn "@ + join_params(lam.params@) + " -> "@ + show_expr(*lam.body)
}

/// The names `ps` separated by spaces.
pub open spec fn join_params(ps: Seq<&str>) -> Seq<char>
    decreases ps.len(),
{
    if ps.len() == 0 {
        Seq::empty()
    } else if ps.len() == 1 {
        ps[0]@
    } else {
        join_params(ps.drop_last()) + " "@ + ps.last()@
    }
}

/// The parts `items` written one after the other, separated by spaces, applications and
/// functions in brackets; `first` where no part comes before them.
pub open spec fn show_expr_list(items: Seq<TreeExpr>, first: bool) -> Seq<char>
    decreases items, 0nat,
{
    if items.len() == 0 {
        Seq::empty()
    } else {
        let sep = if first { Seq::<char>::empty() } else { " "@ };
        let part = if items[0] is Application || items[0] is Lambda {
            "("@ + show_expr(items[0]) + ")"@
        } else {
            show_expr(items[0])
        };
        sep + part + show_expr_list(items.drop_first(), false)
    }
}

impl<'src> TreeExpr<'src> {
    /// The text of this expression.
    pub fn to_string(&self) -> (r: String)
        ensures
            r@ == show_expr(*self),
        decreases self, 1nat,
    {
        match self {
            TreeExpr::Leaf => String::from_str("△"),
            TreeExpr::NameRef((name, _)) => String::from_str(name),
            TreeExpr::Application(sub_exprs) => {
                proof {
                    let t = *self;
                    let w = t->Application_0;
                    assert(w == *sub_exprs);
                    assert(decreases_to!(t => w));
                    assert(decreases_to!(w => w@));
                }
                if sub_exprs.len() == 1 {
                    proof {
                        assert(decreases_to!((*sub_exprs)@ => (*sub_exprs)@[0]));
                    }
                    sub_exprs[0].to_string()
                } else {
                    expr_parts_text(sub_exprs)
                }
            },
            TreeExpr::Lambda(lambda) => {
                proof {
                    let t = *self;
                    assert(decreases_to!(t => t->Lambda_0));
                }
                lambda.to_string()
            },
        }
    }
}

impl<'src> TreeLambda<'src> {
    /// The text of this function: `fn`, its parameters separated by spaces, `->` and its body.
    pub fn to_string(&self) -> (r: String)
        ensures
            r@ == show_lambda(*self),
        decreases self, 1nat,
    {
        let mut s = String::from_str("fn ");
        let mut i: usize = 0;
        while i < self.params.len()
            invariant
                i <= self.params@.len(),
                s@ == "fn "@ + join_params(self.params@.take(i as int)),
            decreases self.params@.len() - i,
        {
            if i > 0 {
                s.append(" ");
            }
            s.append(self.params[i]);
            proof {
                let ps = self.params@.take(i + 1);
                assert(ps.drop_last() =~= self.params@.take(i as int));
                assert(ps.last() == self.params@[i as int]);
                if i == 0 {
                    assert(self.params@.take(0) =~= Seq::<&str>::empty());
                }
            }
            i += 1;
        }
        proof {
            assert(self.params@.take(self.params@.len() as int) =~= self.params@);
            let t = *self;
            assert(decreases_to!(t => t.body));
        }
        let body = self.body.to_string();
        s.append(" -> ");
        s.append(body.as_str());
        s
    }
}

/// The text of the parts `items`, separated by spaces, applications and functions in
/// brackets.
fn expr_parts_text<'src>(items: &Vec<TreeExpr<'src>>) -> (r: String)
    ensures
        r@ == show_expr_list(items@, true),
    decreases items, 0nat,
{
    let mut s = String::new();
    let mut i: usize = 0;
    proof {
        assert(items@.skip(0) =~= items@);
    }
    while i < items.len()
        invariant
            i <= items@.len(),
            s@ + show_expr_list(items@.skip(i as int), i == 0) == show_expr_list(items@, true),
        decreases items@.len() - i,
    {
        let ghost rest = items@.skip(i as int);
        proof {
            assert(rest[0] == items@[i as int]);
            assert(rest.drop_first() =~= items@.skip(i + 1));
            assert(decreases_to!(items => items@));
            assert(decreases_to!(items@ => items@[i as int]));
        }
        if i > 0 {
            s.append(" ");
        }
        let part = items[i].to_string();
        let bracket = match &items[i] {
            TreeExpr::Application(_) | TreeExpr::Lambda(_) => true,
            _ => false,
        };
        if bracket {
            s.append("(");
            s.append(part.as_str());
            s.append(")");
        } else {
            s.append(part.as_str());
        }
        proof {
            let sep = if i == 0 { Seq::<char>::empty() } else { " "@ };
            let x = items@[i as int];
            let p = if x is Application || x is Lambda { "("@ + show_expr(x) + ")"@ } else { show_expr(x) };
            assert(show_expr_list(rest, i == 0) == sep + p + show_expr_list(items@.skip(i + 1), false));
        }
        i += 1;
    }
    proof {
        assert(items@.skip(items@.len() as int) =~= Seq::<TreeExpr>::empty());
    }
    s
}

} // verus!
