use yield_lang::{parse, quote, string, Expr, LiteralValue};

#[test]
fn quote_escapes_quotes_and_backslashes() {
    assert_eq!(quote("a\"b\\c"), "\"a\\\"b\\\\c\"");
    assert_eq!(quote(""), "\"\"");
    assert_eq!(quote("line\nnext"), "\"line\nnext\"");
}

#[test]
fn quoted_text_reads_back() {
    for t in ["HI", "a\"b", "\\", "tab\there", "\u{1F600} x", ""] {
        let q = quote(t);
        let (n, back) = string(&q).unwrap();
        assert_eq!(back, t);
        assert_eq!(n, q.chars().count());
    }
}

#[test]
fn decoded_literal_reparses_alike() {
    let (_, decoded) = string("\"\\u{48}i \\\"there\\\"\\\n   !\"").unwrap();
    assert_eq!(decoded, "Hi \"there\"!");
    let e = parse(&quote(&decoded)).unwrap();
    match e {
        Expr::Block(items) => {
            assert_eq!(items.len(), 1);
            assert!(matches!(&items[0], Expr::Literal(LiteralValue::String(s)) if *s == decoded));
        }
        _ => panic!("expected a block"),
    }
}
