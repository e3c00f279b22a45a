use tree_calculus::lexer::{text_slice, token_debug_text, Lexer, Token};

fn all_tokens(source: &str) -> Vec<(String, std::ops::Range<usize>)> {
    let mut lexer = Lexer::new(source);
    let mut out = Vec::new();
    loop {
        let (tok, span) = lexer.next();
        let done = matches!(tok, Token::Eof);
        out.push((token_debug_text(tok), span));
        if done {
            return out;
        }
    }
}

#[test]
fn lexer_reads_a_declaration() {
    let toks = all_tokens("a = △ (fn x -> x)\n");
    let expected: Vec<(String, std::ops::Range<usize>)> = vec![
        ("Identifier(\"a\")".to_string(), 0..1),
        ("Equal".to_string(), 2..3),
        ("Triangle".to_string(), 4..7),
        ("Open".to_string(), 8..9),
        ("Fn".to_string(), 9..11),
        ("Identifier(\"x\")".to_string(), 12..13),
        ("Arrow".to_string(), 14..16),
        ("Identifier(\"x\")".to_string(), 17..18),
        ("Close".to_string(), 18..19),
        ("Newline".to_string(), 19..20),
        ("Eof".to_string(), 20..20),
    ];
    assert_eq!(toks, expected);
}

#[test]
fn lexer_skips_blanks_and_comments() {
    let toks = all_tokens("x // note\n\t$");
    let expected: Vec<(String, std::ops::Range<usize>)> = vec![
        ("Identifier(\"x\")".to_string(), 0..1),
        ("Newline".to_string(), 9..10),
        ("Triangle".to_string(), 11..12),
        ("Eof".to_string(), 12..12),
    ];
    assert_eq!(toks, expected);
}

#[test]
fn lexer_reads_keywords_and_names() {
    let toks = all_tokens("#num #show #viz fnx fn_1");
    let names: Vec<String> = toks.iter().map(|(t, _)| t.clone()).collect();
    assert_eq!(
        names,
        vec![
            "Num".to_string(),
            "Show".to_string(),
            "Visualize".to_string(),
            "Identifier(\"fnx\")".to_string(),
            "Identifier(\"fn_1\")".to_string(),
            "Eof".to_string(),
        ]
    );
    assert_eq!(toks[0].1, 0..4);
    assert_eq!(toks[1].1, 5..10);
    assert_eq!(toks[2].1, 11..15);
}

#[test]
fn lexer_marks_unknown_characters() {
    let toks = all_tokens("a ? -");
    assert_eq!(toks[1], ("Error".to_string(), 2..3));
    assert_eq!(toks[2], ("Error".to_string(), 4..5));
    assert_eq!(toks[3], ("Eof".to_string(), 5..5));
}

#[test]
fn lexer_peek_does_not_consume() {
    let mut lexer = Lexer::new("x y");
    let (t1, s1) = lexer.peek();
    let (t2, s2) = lexer.peek();
    let (t3, s3) = lexer.next();
    assert!(matches!(t1, Token::Identifier("x")));
    assert!(matches!(t2, Token::Identifier("x")));
    assert!(matches!(t3, Token::Identifier("x")));
    assert_eq!(s1, 0..1);
    assert_eq!(s2, 0..1);
    assert_eq!(s3, 0..1);
    let (t4, s4) = lexer.next();
    assert!(matches!(t4, Token::Identifier("y")));
    assert_eq!(s4, 2..3);
}

#[test]
fn lexer_skips_line_breaks_on_request() {
    let mut lexer = Lexer::new("\n\n= \nz");
    let (t, s) = lexer.peek_skip_newline();
    assert!(matches!(t, Token::Equal));
    assert_eq!(s, 2..3);
    let (t, s) = lexer.next_skip_newline();
    assert!(matches!(t, Token::Equal));
    assert_eq!(s, 2..3);
    let (t, _) = lexer.next();
    assert!(matches!(t, Token::Newline));
    let (t, s) = lexer.next_skip_newline();
    assert!(matches!(t, Token::Identifier("z")));
    assert_eq!(s, 5..6);
}

#[test]
fn lexer_end_of_empty_text() {
    let mut lexer = Lexer::new("");
    let (t, s) = lexer.next();
    assert!(matches!(t, Token::Eof));
    assert_eq!(s, 0..0);
    let (t, _) = lexer.next();
    assert!(matches!(t, Token::Eof));
}

#[test]
fn slices_of_text() {
    assert_eq!(text_slice("héllo", 0, 3), "hé");
    assert_eq!(text_slice("héllo", 3, 6), "llo");
    assert_eq!(token_debug_text(Token::Arrow), "Arrow");
}
