use tree_calculus::compiler::apps_are_nonempty;
use tree_calculus::lexer::Lexer;
use tree_calculus::parser::{parse_decl, parse_declarations, try_parse_declarations, TreeExpr};

#[test]
fn parses_declarations() {
    let source = "id = fn x -> x\nk = fn a b -> a\n";
    let mut lexer = Lexer::new(source);
    let decls = parse_declarations(&mut lexer).unwrap();
    assert_eq!(decls.len(), 2);
    assert_eq!(decls[0].name, "id");
    assert_eq!(decls[0].span, 0..2);
    assert_eq!(decls[1].name, "k");
    assert_eq!(decls[1].span, 15..16);
    assert_eq!(decls[0].expr.to_string(), "fn x -> x");
    assert_eq!(decls[1].expr.to_string(), "fn a b -> a");
    match &decls[1].expr {
        TreeExpr::Application(parts) => {
            assert_eq!(parts.len(), 1);
            match &parts[0] {
                TreeExpr::Lambda(lam) => {
                    assert_eq!(lam.params, vec!["a", "b"]);
                    match lam.body.as_ref() {
                        TreeExpr::Application(body) => {
                            assert_eq!(body.len(), 1);
                            assert!(matches!(body[0], TreeExpr::NameRef(("a", _))));
                        }
                        _ => panic!("body is not an application"),
                    }
                }
                _ => panic!("not a function"),
            }
        }
        _ => panic!("not an application"),
    }
}

#[test]
fn writes_expressions_back() {
    let mut lexer = Lexer::new("t = △ (△ △) fn y -> y");
    let decl = parse_decl(&mut lexer).unwrap();
    assert_eq!(decl.name, "t");
    assert_eq!(decl.expr.to_string(), "△ (△ △) (fn y -> y)");
    let mut lexer = Lexer::new("u = (a\n b) c");
    let decl = parse_decl(&mut lexer).unwrap();
    assert_eq!(decl.expr.to_string(), "(a b) c");
}

#[test]
fn name_reference_keeps_its_range() {
    let mut lexer = Lexer::new("x = foo");
    let decl = parse_decl(&mut lexer).unwrap();
    match &decl.expr {
        TreeExpr::Application(parts) => match &parts[0] {
            TreeExpr::NameRef((name, span)) => {
                assert_eq!(*name, "foo");
                assert_eq!(*span, 4..7);
            }
            _ => panic!("not a name"),
        },
        _ => panic!("not an application"),
    }
}

#[test]
fn rejects_a_stray_closing_parenthesis() {
    let mut lexer = Lexer::new("x = )");
    let err = parse_declarations(&mut lexer).unwrap_err();
    assert_eq!(err.0, "Unexpected token Close, expected △ / (tree) / name");
    assert_eq!(err.1, 4..5);
}

#[test]
fn rejects_a_declaration_without_name() {
    let mut lexer = Lexer::new("= x");
    let err = parse_decl(&mut lexer).unwrap_err();
    assert_eq!(err.0, "Unexpected token <Equal>, expected <name>");
    assert_eq!(err.1, 0..1);
}

#[test]
fn rejects_a_declaration_without_equal_sign() {
    let mut lexer = Lexer::new("x y");
    let err = parse_decl(&mut lexer).unwrap_err();
    assert_eq!(err.0, "Unexpected token <Identifier(\"y\")>, expected '='");
    assert_eq!(err.1, 2..3);
}

#[test]
fn rejects_a_missing_closing_parenthesis() {
    let mut lexer = Lexer::new("x = (△");
    let err = parse_decl(&mut lexer).unwrap_err();
    assert_eq!(err.0, "Missing closing ')', got unexpected: <Eof>");
    assert_eq!(err.1, 8..8);
}

#[test]
fn rejects_text_after_the_declarations() {
    let mut lexer = Lexer::new("x = △\n)");
    let err = parse_declarations(&mut lexer).unwrap_err();
    assert_eq!(err.0, "Unexpected token: <Close>, expected EOF / declaration");
    assert_eq!(err.1, 8..9);
}

#[test]
fn rejects_a_bad_parameter() {
    let mut lexer = Lexer::new("f = fn △");
    let err = parse_decl(&mut lexer).unwrap_err();
    assert_eq!(err.0, "Unexpected token Triangle, expected <name> / '->'");
    assert_eq!(err.1, 7..10);
}

#[test]
fn rejects_an_expression_that_starts_with_a_line_break() {
    let mut lexer = Lexer::new("x =\n△");
    let err = parse_decl(&mut lexer).unwrap_err();
    assert_eq!(err.0, "Unexpected token Newline, expected △ / (tree) / name");
    assert_eq!(err.1, 3..4);
}

#[test]
fn empty_application_is_parsed_but_flagged() {
    let mut lexer = Lexer::new("x =");
    let decls = parse_declarations(&mut lexer).unwrap();
    assert_eq!(decls.len(), 1);
    assert!(!apps_are_nonempty(&decls[0].expr));
    let mut lexer = Lexer::new("x = △ ()");
    let decls = parse_declarations(&mut lexer).unwrap();
    assert!(!apps_are_nonempty(&decls[0].expr));
    let mut lexer = Lexer::new("x = △ (△)");
    let decls = parse_declarations(&mut lexer).unwrap();
    assert!(apps_are_nonempty(&decls[0].expr));
}

#[test]
fn long_chains_hit_the_limit() {
    let mut source = String::from("x =");
    for _ in 0..10_000 {
        source.push_str(" △");
    }
    let mut lexer = Lexer::new(&source);
    assert!(try_parse_declarations(&mut lexer).is_none());
    let mut short = String::from("x =");
    for _ in 0..100 {
        short.push_str(" △");
    }
    let mut lexer = Lexer::new(&short);
    let decls = try_parse_declarations(&mut lexer).unwrap().unwrap();
    match &decls[0].expr {
        TreeExpr::Application(parts) => assert_eq!(parts.len(), 100),
        _ => panic!("not an application"),
    }
}

#[test]
fn no_declarations_in_blank_text() {
    let mut lexer = Lexer::new("\n\n");
    let decls = parse_declarations(&mut lexer).unwrap();
    assert!(decls.is_empty());
}
