use ovq::{evaluate, parse, parse_number, CompareOp, Date, Expr, Meta, MetaNumber, Number, Value};
use serde_yaml::from_str;
use serde_yaml::Value as YamlValue;

fn to_meta(v: &YamlValue) -> Meta {
    match v {
        YamlValue::Null => Meta::Null,
        YamlValue::Bool(b) => Meta::Bool(*b),
        YamlValue::Number(n) => {
            let value = match n.as_i64() {
                Some(i) => Some(Number { mantissa: i, scale: 0 }),
                None if n.is_f64() => n.as_f64().and_then(|f| parse_number(&format!("{}", f))),
                None => None,
            };
            Meta::Number(MetaNumber { text: n.to_string(), value })
        }
        YamlValue::String(s) => Meta::Text(s.clone()),
        YamlValue::Sequence(items) => Meta::List(items.iter().map(to_meta).collect()),
        YamlValue::Mapping(m) => Meta::Mapping(m.iter().map(|(k, v)| (to_meta(k), to_meta(v))).collect()),
        YamlValue::Tagged(_) => Meta::Null,
    }
}

fn yaml(text: &str) -> Meta {
    let v: YamlValue = from_str(text).unwrap();
    to_meta(&v)
}

fn cmp(field: &str, op: CompareOp, value: Value) -> Expr {
    Expr::Compare { field: field.to_string(), op, value }
}

fn text(s: &str) -> Value {
    Value::String(s.to_string())
}

#[test]
fn test_string_eq() {
    let fm = yaml("status: active");
    let expr = cmp("status", CompareOp::Eq, text("active"));
    assert!(evaluate(&expr, &fm));
}

#[test]
fn test_case_insensitive_field() {
    let fm = yaml("Status: active");
    let expr = cmp("status", CompareOp::Eq, text("active"));
    assert!(evaluate(&expr, &fm));
}

#[test]
fn test_case_insensitive_value() {
    let fm = yaml("status: ACTIVE");
    let expr = cmp("status", CompareOp::Eq, text("active"));
    assert!(evaluate(&expr, &fm));
}

#[test]
fn test_obsidian_link_stripping() {
    let fm = yaml("project: \"[[Graph0mane]]\"");
    let expr = cmp("project", CompareOp::Eq, text("Graph0mane"));
    assert!(evaluate(&expr, &fm));
}

#[test]
fn test_contains_array() {
    let fm = yaml("tags: [a, b, c]");
    let expr = Expr::Contains { field: "tags".to_string(), value: text("b") };
    assert!(evaluate(&expr, &fm));
}

#[test]
fn test_contains_case_insensitive() {
    let fm = yaml("tags: [Project, TODO]");
    let expr = Expr::Contains { field: "tags".to_string(), value: text("project") };
    assert!(evaluate(&expr, &fm));
}

#[test]
fn mixed_case_field_and_value() {
    let fm = yaml("sTaTuS: DoNe");
    assert!(evaluate(&cmp("STATUS", CompareOp::Eq, text("done")), &fm));
    assert!(!evaluate(&cmp("STATUS", CompareOp::Ne, text("dOnE")), &fm));
}

#[test]
fn link_and_plain_normalize_alike() {
    assert_eq!(ovq::text::normalize_for_compare("[[Note]]"), ovq::text::normalize_for_compare("Note"));
    assert_eq!(ovq::text::normalize_for_compare("[[Note]]"), "note");
    assert_eq!(ovq::text::strip_obsidian_link("[[]]"), "");
    assert_eq!(ovq::text::strip_obsidian_link("[[x]"), "[[x]");
}

#[test]
fn numeric_equality_within_epsilon() {
    let fm = Meta::Mapping(vec![(
        Meta::Text("n".to_string()),
        Meta::Number(MetaNumber {
            text: "1.00000000000000001".to_string(),
            value: Some(Number { mantissa: 100000000000000001, scale: 17 }),
        }),
    )]);
    let one = Value::Number(Number { mantissa: 1, scale: 0 });
    assert!(evaluate(&cmp("n", CompareOp::Eq, one.clone()), &fm));
    assert!(!evaluate(&cmp("n", CompareOp::Ne, one.clone()), &fm));
    assert!(evaluate(&cmp("n", CompareOp::Gt, one.clone()), &fm));
    let fm = yaml("n: 1.00000000000000000001");
    assert!(evaluate(&cmp("n", CompareOp::Eq, one.clone()), &fm));
    let fm = yaml("n: 1.001");
    assert!(!evaluate(&cmp("n", CompareOp::Eq, one), &fm));
}

#[test]
fn numbers_compare_only_with_native_numbers() {
    let fm = yaml("a: 3\nb: \"3\"\nc: 2.5");
    let three = Value::Number(Number { mantissa: 3, scale: 0 });
    assert!(evaluate(&cmp("a", CompareOp::Eq, three.clone()), &fm));
    assert!(!evaluate(&cmp("b", CompareOp::Eq, three.clone()), &fm));
    assert!(evaluate(&cmp("c", CompareOp::Lt, three.clone()), &fm));
    assert!(evaluate(&cmp("c", CompareOp::Ge, Value::Number(Number { mantissa: 25, scale: 1 })), &fm));
    // a number field still reads as text for string comparisons
    assert!(evaluate(&cmp("a", CompareOp::Eq, text("3")), &fm));
}

#[test]
fn contains_list_versus_scalar() {
    let fm = yaml("tags: [Project, TODO]\nsummary: \"Project kickoff\"");
    let contains = |f: &str, v: &str| Expr::Contains { field: f.to_string(), value: text(v) };
    assert!(evaluate(&contains("tags", "project"), &fm));
    assert!(!evaluate(&contains("tags", "proj"), &fm));
    assert!(evaluate(&contains("summary", "kick"), &fm));
    assert!(!evaluate(&contains("missing", "kick"), &fm));
    let not_text = Expr::Contains { field: "summary".to_string(), value: Value::Bool(true) };
    assert!(!evaluate(&not_text, &fm));
}

#[test]
fn dates_compare_in_order() {
    let expr = parse("created >= 2024-01-01").unwrap();
    assert!(evaluate(&expr, &yaml("created: \"2024-06-15\"")));
    assert!(!evaluate(&expr, &yaml("created: \"2023-12-31\"")));
    assert!(evaluate(&expr, &yaml("created: \"2024-01-01\"")));
    assert!(!evaluate(&expr, &yaml("created: \"not a date\"")));
    let d = Value::Date(Date::new(2024, 1, 1));
    assert!(evaluate(&cmp("created", CompareOp::Lt, d), &yaml("created: \"2023-99-99\"")));
}

#[test]
fn booleans_allow_only_equality() {
    let fm = yaml("done: true");
    assert!(evaluate(&cmp("done", CompareOp::Eq, Value::Bool(true)), &fm));
    assert!(evaluate(&cmp("done", CompareOp::Ne, Value::Bool(false)), &fm));
    for op in [CompareOp::Gt, CompareOp::Lt, CompareOp::Ge, CompareOp::Le] {
        assert!(!evaluate(&cmp("done", op, Value::Bool(true)), &fm));
        assert!(!evaluate(&cmp("done", op, Value::Bool(false)), &fm));
    }
    assert!(!evaluate(&cmp("done", CompareOp::Eq, Value::Bool(true)), &yaml("done: \"true\"")));
}

#[test]
fn absent_field_is_false() {
    let fm = yaml("status: x");
    assert!(!evaluate(&cmp("nonexistent", CompareOp::Eq, text("x")), &fm));
    assert!(!evaluate(&cmp("nonexistent", CompareOp::Ne, text("x")), &fm));
    assert!(!evaluate(&cmp("status", CompareOp::Eq, text("x")), &Meta::Null));
}

#[test]
fn end_to_end_query() {
    let expr = parse(r#"status = "done" AND priority > 2"#).unwrap();
    assert!(evaluate(&expr, &yaml("status: Done\npriority: 3")));
    assert!(!evaluate(&expr, &yaml("status: done\npriority: 2")));
    let expr = parse(r#"status = "done" OR priority > 2"#).unwrap();
    assert!(evaluate(&expr, &yaml("status: open\npriority: 3")));
}

#[test]
fn strings_order_lexicographically() {
    let fm = yaml("name: Beta");
    assert!(evaluate(&cmp("name", CompareOp::Gt, text("alpha")), &fm));
    assert!(evaluate(&cmp("name", CompareOp::Le, text("BETA")), &fm));
    assert!(!evaluate(&cmp("name", CompareOp::Lt, text("beta")), &fm));
}
