use ovq::{parse, parse_number, CompareOp, Expr, Number, Value};

#[test]
fn test_simple_eq() {
    let expr = parse(r#"status = "active""#).unwrap();
    assert!(matches!(expr, Expr::Compare { op: CompareOp::Eq, .. }));
}

#[test]
fn test_and() {
    let expr = parse(r#"status = "done" AND priority > 2"#).unwrap();
    assert!(matches!(expr, Expr::And(_, _)));
}

#[test]
fn test_contains() {
    let expr = parse(r#"tags contains "project""#).unwrap();
    assert!(matches!(expr, Expr::Contains { .. }));
}

#[test]
fn test_date() {
    let expr = parse("created >= 2024-01-01").unwrap();
    if let Expr::Compare { value: Value::Date(d), .. } = expr {
        assert_eq!(d.year, 2024);
        assert_eq!(d.month, 1);
        assert_eq!(d.day, 1);
    } else {
        panic!("Expected date comparison");
    }
}

#[test]
fn parse_twice_gives_equal_trees() {
    let q = r#"(a = "x" OR b > 2.5) AND tags contains "t""#;
    assert_eq!(parse(q).unwrap(), parse(q).unwrap());
}

#[test]
fn longest_operator_wins() {
    let cases = [
        (">=", CompareOp::Ge),
        ("<=", CompareOp::Le),
        ("!=", CompareOp::Ne),
        ("=", CompareOp::Eq),
        (">", CompareOp::Gt),
        ("<", CompareOp::Lt),
    ];
    for (tok, want) in cases {
        let expr = parse(&format!("x {} 1", tok)).unwrap();
        assert!(matches!(expr, Expr::Compare { op, .. } if op == want));
    }
    assert!(parse("x >== 1").is_err());
}

#[test]
fn keyword_needs_word_boundary() {
    let expr = parse("android = 1").unwrap();
    match expr {
        Expr::Compare { field, op, value } => {
            assert_eq!(field, "android");
            assert_eq!(op, CompareOp::Eq);
            assert_eq!(value, Value::Number(Number { mantissa: 1, scale: 0 }));
        }
        _ => panic!("expected a comparison"),
    }
    let expr = parse("a = 1 and order = 2").unwrap();
    assert!(matches!(expr, Expr::And(_, _)));
    let expr = parse("x contains \"a\" OR oregon = 1").unwrap();
    assert!(matches!(expr, Expr::Or(_, _)));
    assert!(parse("x containsy \"a\"").is_err());
}

#[test]
fn keywords_ignore_case() {
    let expr = parse("a = TRUE and b = False Or c Contains \"x\"").unwrap();
    match expr {
        Expr::Or(l, r) => {
            assert!(matches!(*l, Expr::And(_, _)));
            assert!(matches!(*r, Expr::Contains { .. }));
        }
        _ => panic!("expected OR at the top"),
    }
}

#[test]
fn and_binds_tighter_than_or() {
    let expr = parse("a = 1 OR b = 2 AND c = 3").unwrap();
    match expr {
        Expr::Or(l, r) => {
            assert!(matches!(*l, Expr::Compare { .. }));
            assert!(matches!(*r, Expr::And(_, _)));
        }
        _ => panic!("expected OR at the top"),
    }
    let expr = parse("(a = 1 OR b = 2) AND c = 3").unwrap();
    assert!(matches!(expr, Expr::And(_, _)));
}

#[test]
fn missing_value_is_an_error() {
    let err = parse("status =").unwrap_err();
    assert_eq!(err.message, "Expected number or date");
    assert_eq!(err.pos, 8);
}

#[test]
fn parse_errors_carry_messages_and_offsets() {
    let err = parse("= 1").unwrap_err();
    assert_eq!(err.message, "Expected identifier");
    assert_eq!(err.pos, 0);
    let err = parse("a ~ 1").unwrap_err();
    assert_eq!(err.message, "Expected operator (=, !=, >, <, >=, <=)");
    assert_eq!(err.pos, 2);
    let err = parse("a = \"open").unwrap_err();
    assert_eq!(err.message, "Unterminated string");
    assert_eq!(err.pos, 9);
    let err = parse("(a = 1").unwrap_err();
    assert_eq!(err.message, "Expected ')'");
    assert_eq!(err.pos, 6);
    let err = parse("a = 1 b").unwrap_err();
    assert_eq!(err.message, "Unexpected input after expression");
    assert_eq!(err.pos, 6);
    let err = parse("a = 1.2.3").unwrap_err();
    assert_eq!(err.message, "Invalid number");
    let err = parse("a = -x").unwrap_err();
    assert_eq!(err.message, "Expected number or date");
    let err = parse("é = 1 )").unwrap_err();
    assert_eq!(err.pos, 7);
    let err = parse("x = 1 ANDroid = 2").unwrap_err();
    assert_eq!(err.message, "Unexpected input after expression");
    assert_eq!(err.pos, 6);
    let err = parse("(a = 1 OR b = 2").unwrap_err();
    assert_eq!(err.message, "Expected ')'");
    assert_eq!(err.pos, 15);
}

#[test]
fn number_needs_a_leading_digit() {
    for q in ["a = -.5", "a = --1", "a = .5", "a = -"] {
        let err = parse(q).unwrap_err();
        assert_eq!(err.message, "Expected number or date", "{}", q);
    }
    assert_eq!(parse("a = -.5").unwrap_err().pos, 7);
    assert_eq!(parse_number(".5"), None);
    assert_eq!(parse_number("-.5"), None);
}

#[test]
fn failed_parses_agree() {
    let a = parse("a = ").unwrap_err();
    let b = parse("a = ").unwrap_err();
    assert_eq!((a.message, a.pos), (b.message, b.pos));
}

#[test]
fn numbers_and_dates() {
    let v = |q: &str| match parse(q).unwrap() {
        Expr::Compare { value, .. } => value,
        _ => panic!("expected a comparison"),
    };
    assert_eq!(v("a = -12.50"), Value::Number(Number { mantissa: -1250, scale: 2 }));
    assert_eq!(v("a = 3."), Value::Number(Number { mantissa: 3, scale: 0 }));
    assert_eq!(v("a = true"), Value::Bool(true));
    assert_eq!(v("a != false"), Value::Bool(false));
    assert_eq!(v("a = \"x y\""), Value::String("x y".to_string()));
    // out-of-range month: not a date, and not a number either
    assert!(parse("a = 2024-13-01").is_err());
    // structurally invalid days are accepted
    assert!(matches!(v("a = 2024-02-30"), Value::Date(_)));
}

#[test]
fn parse_number_reads_decimals() {
    assert_eq!(parse_number("42"), Some(Number { mantissa: 42, scale: 0 }));
    assert_eq!(parse_number("-0.25"), Some(Number { mantissa: -25, scale: 2 }));
    assert_eq!(parse_number("1e5"), None);
    assert_eq!(parse_number(""), None);
}

#[test]
fn unicode_white_space_is_skipped() {
    let expr = parse("a\u{3000}=\u{2003}1\u{85}").unwrap();
    assert!(matches!(expr, Expr::Compare { op: CompareOp::Eq, .. }));
    assert!(parse("a\u{200B}= 1").is_err());
}
