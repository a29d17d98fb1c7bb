use yield_lang::{
    boolean, expr, identifier, integer, parse, program, string, ErrorKind, Expr, LiteralValue,
    Rule,
};

fn is_ident(e: &Expr, name: &str) -> bool {
    matches!(e, Expr::Identifier(n) if n == name)
}

fn is_int(e: &Expr, v: i32) -> bool {
    matches!(e, Expr::Literal(LiteralValue::Integer(x)) if *x == v)
}

#[test]
fn test_integer() {
    assert!(matches!(integer("123"), Ok((_, 123))));
    assert!(integer("abc").is_err());
}

#[test]
fn test_boolean() {
    assert!(matches!(boolean("true"), Ok((_, true))));
    assert!(matches!(boolean("false"), Ok((_, false))));
    assert!(boolean("abc").is_err());
}

#[test]
fn test_identifier() {
    assert!(matches!(identifier("abc"), Ok((_, ref s)) if s == "abc"));
    assert!(matches!(identifier("abc123"), Ok((_, ref s)) if s == "abc123"));
    assert!(matches!(identifier("abc_123"), Ok((_, ref s)) if s == "abc_123"));
    assert!(matches!(identifier("_abc_123"), Ok((_, ref s)) if s == "_abc_123"));
    assert!(identifier("").is_err());
    assert!(identifier("123abc").is_err());
}

#[test]
fn integer_limits() {
    assert!(matches!(integer("2147483647"), Ok((10, 2147483647))));
    assert!(matches!(integer("0"), Ok((1, 0))));
    assert!(matches!(integer("007x"), Ok((3, 7))));
    let e = integer("2147483648").unwrap_err();
    assert_eq!(e.kind, ErrorKind::MalformedInteger);
    let e = integer("99999999999999999999").unwrap_err();
    assert_eq!(e.kind, ErrorKind::MalformedInteger);
    let e = integer("").unwrap_err();
    assert_eq!(e.kind, ErrorKind::Digits);
}

#[test]
fn identifier_takes_longest_prefix() {
    assert!(matches!(identifier("abc_1 = 2"), Ok((5, ref s)) if s == "abc_1"));
    assert!(matches!(identifier("x=1"), Ok((1, ref s)) if s == "x"));
    assert!(identifier("=x").is_err());
}

#[test]
fn boolean_prefix() {
    assert!(matches!(boolean("truex"), Ok((4, true))));
    assert!(boolean("tru").is_err());
}

#[test]
fn string_unicode_escapes() {
    let (n, t) = string("\"\\u{48}\\u{49}\"").unwrap();
    assert_eq!(t, "HI");
    assert_eq!(n, 14);
    let (_, t) = string("\"\\u{1F600}\"").unwrap();
    assert_eq!(t, "\u{1F600}");
}

#[test]
fn string_line_continuation() {
    let (_, t) = string("\"a\\\nb\"").unwrap();
    assert_eq!(t, "ab");
    let (_, t) = string("\"a\\ \t\r\n  b\"").unwrap();
    assert_eq!(t, "ab");
}

#[test]
fn string_simple_escapes() {
    let (_, t) = string("\"\\n\\r\\t\\b\\f\\\\\\/\\\"\"").unwrap();
    assert_eq!(t, "\n\r\t\u{08}\u{0C}\\/\"");
    let (n, t) = string("\"\" rest").unwrap();
    assert_eq!(t, "");
    assert_eq!(n, 2);
}

#[test]
fn string_invalid_code_point() {
    let e = string("\"\\u{110000}\"").unwrap_err();
    assert_eq!(e.kind, ErrorKind::InvalidCodePoint);
    let e = string("\"\\u{D800}\"").unwrap_err();
    assert_eq!(e.kind, ErrorKind::InvalidCodePoint);
    assert!(string("\"\\u{1234567}\"").is_err());
    assert!(string("\"\\q\"").is_err());
    assert!(string("\"open").is_err());
}

#[test]
fn application_is_left_associative() {
    let (n, e) = expr("f a b c").unwrap();
    assert_eq!(n, 7);
    match e {
        Expr::FunctionApplication(l, c) => {
            assert!(is_ident(&c, "c"));
            match *l {
                Expr::FunctionApplication(l, b) => {
                    assert!(is_ident(&b, "b"));
                    match *l {
                        Expr::FunctionApplication(f, a) => {
                            assert!(is_ident(&f, "f"));
                            assert!(is_ident(&a, "a"));
                        }
                        _ => panic!("expected an application"),
                    }
                }
                _ => panic!("expected an application"),
            }
        }
        _ => panic!("expected an application"),
    }
}

#[test]
fn parentheses_group() {
    let (_, e) = expr("f (g 1)").unwrap();
    match e {
        Expr::FunctionApplication(f, arg) => {
            assert!(is_ident(&f, "f"));
            match *arg {
                Expr::FunctionApplication(g, one) => {
                    assert!(is_ident(&g, "g"));
                    assert!(is_int(&one, 1));
                }
                _ => panic!("expected an application"),
            }
        }
        _ => panic!("expected an application"),
    }
}

#[test]
fn assignment_needs_blanks() {
    assert!(program("x=1").is_err());
    assert!(program("x =1").is_err());
    let (n, e) = expr("x=1").unwrap();
    assert_eq!(n, 1);
    assert!(is_ident(&e, "x"));
    let (_, e) = expr("x = 1").unwrap();
    match e {
        Expr::AssignmentExpr(name, v) => {
            assert_eq!(name, "x");
            assert!(is_int(&v, 1));
        }
        _ => panic!("expected an assignment"),
    }
}

#[test]
fn assignment_does_not_chain() {
    assert!(program("a = b = 1").is_err());
    assert!(program("a = (b = 1)").is_ok());
}

fn two_assignments(e: &Expr) {
    match e {
        Expr::Block(items) => {
            assert_eq!(items.len(), 2);
            match &items[0] {
                Expr::AssignmentExpr(n, v) => {
                    assert_eq!(n, "x");
                    assert!(is_int(v, 1));
                }
                _ => panic!("expected an assignment"),
            }
            match &items[1] {
                Expr::AssignmentExpr(n, v) => {
                    assert_eq!(n, "y");
                    assert!(is_int(v, 2));
                }
                _ => panic!("expected an assignment"),
            }
        }
        _ => panic!("expected a block"),
    }
}

#[test]
fn program_with_trailing_newline() {
    let (n, e) = program("x = 1\ny = 2\n").unwrap();
    assert_eq!(n, 12);
    two_assignments(&e);
}

#[test]
fn program_without_trailing_newline() {
    let e = parse("x = 1\r\n\ny = 2").unwrap();
    two_assignments(&e);
}

#[test]
fn program_with_trailing_garbage() {
    let e = parse("x = 1\ny = 2 )").unwrap_err();
    assert_eq!(e.context.last(), Some(&(Rule::Program, 0)));
    assert!(parse("").is_err());
    assert!(parse("\nx = 1").is_err());
}

#[test]
fn program_literals() {
    let e = parse("puts \"hi\"\nflag = true\n  42  ").unwrap();
    match e {
        Expr::Block(items) => {
            assert_eq!(items.len(), 3);
            assert!(is_int(&items[2], 42));
            match &items[1] {
                Expr::AssignmentExpr(n, v) => {
                    assert_eq!(n, "flag");
                    assert!(matches!(**v, Expr::Literal(LiteralValue::Boolean(true))));
                }
                _ => panic!("expected an assignment"),
            }
            match &items[0] {
                Expr::FunctionApplication(f, a) => {
                    assert!(is_ident(f, "puts"));
                    assert!(matches!(&**a, Expr::Literal(LiteralValue::String(s)) if s == "hi"));
                }
                _ => panic!("expected an application"),
            }
        }
        _ => panic!("expected a block"),
    }
}

#[test]
fn rule_names() {
    assert_eq!(Rule::Program.name(), "program");
    assert_eq!(Rule::ParenthesizedExpr.name(), "parenthesized expr");
}

#[test]
fn boolean_word_is_not_split_from_a_name() {
    let (n, e) = expr("truefoo").unwrap();
    assert_eq!(n, 4);
    assert!(matches!(e, Expr::Literal(LiteralValue::Boolean(true))));
    assert!(parse("truefoo").is_err());
    let e = parse("truex = 1").unwrap();
    match e {
        Expr::Block(items) => {
            assert!(matches!(&items[0], Expr::AssignmentExpr(n, _) if n == "truex"));
        }
        _ => panic!("expected a block"),
    }
}

#[test]
fn error_context_names_rules() {
    let e = parse("x = (1").unwrap_err();
    assert_eq!(e.context.last(), Some(&(Rule::Program, 0)));
    let e = parse("").unwrap_err();
    assert_eq!(e.position, 0);
    assert!(e.context.contains(&(Rule::Expr, 0)));
}

#[test]
fn stray_text_is_an_incomplete_parse() {
    let e = parse("x = 1\ny = 2 )").unwrap_err();
    assert_eq!(e.kind, ErrorKind::End);
    assert_eq!(e.position, 12);
    let e = program("f a ?").unwrap_err();
    assert_eq!(e.kind, ErrorKind::End);
    assert_eq!(e.position, 4);
}

#[test]
fn invalid_code_point_inside_text() {
    let e = string("\"ok \\u{DFFF} more\"").unwrap_err();
    assert_eq!(e.kind, ErrorKind::InvalidCodePoint);
    let e = string("\"\\u{110000}\"").unwrap_err();
    assert_eq!(e.kind, ErrorKind::InvalidCodePoint);
}

#[test]
fn code_point_and_letter_escapes_read_back() {
    let (_, t) = string("\"\\u{61}b\\u{0063}\\n\\\"\"").unwrap();
    assert_eq!(t, "abc\n\"");
}

#[test]
fn terminal_failure_names_rules() {
    let e = expr("?").unwrap_err();
    assert_eq!(e.position, 0);
    assert_eq!(
        e.context.iter().map(|(r, _)| *r).collect::<Vec<_>>(),
        vec![Rule::Terminals, Rule::ParenthesizedExpr, Rule::Expr]
    );
}

#[test]
fn all_rule_names() {
    assert_eq!(Rule::Terminals.name(), "terminals");
    assert_eq!(Rule::FunctionApplication.name(), "function application");
    assert_eq!(Rule::AssignmentExpr.name(), "assignment expr");
    assert_eq!(Rule::Expr.name(), "expr");
    assert_eq!(Rule::EndOfStatement.name(), "end of statement");
}
