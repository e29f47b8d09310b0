use ovq::values::{collect_values, format_values};
use ovq::{Meta, MetaNumber};
use serde_yaml::from_str;
use serde_yaml::Value as YamlValue;

fn meta_of(v: &YamlValue) -> Meta {
    match v {
        YamlValue::Bool(b) => Meta::Bool(*b),
        YamlValue::Number(n) => Meta::Number(MetaNumber { text: n.to_string(), value: None }),
        YamlValue::String(s) => Meta::Text(s.clone()),
        YamlValue::Sequence(items) => Meta::List(items.iter().map(meta_of).collect()),
        YamlValue::Mapping(m) => Meta::Mapping(m.iter().map(|(k, v)| (meta_of(k), meta_of(v))).collect()),
        _ => Meta::Null,
    }
}

fn doc(text: &str) -> Meta {
    let v: YamlValue = from_str(text).unwrap();
    meta_of(&v)
}

fn count_of(counts: &[(String, usize)], key: &str) -> Option<usize> {
    counts.iter().find(|(k, _)| k == key).map(|(_, c)| *c)
}

#[test]
fn test_collect_values() {
    let data = vec![
        ("a.md".to_string(), doc("status: active")),
        ("b.md".to_string(), doc("status: done")),
        ("c.md".to_string(), doc("status: active")),
    ];
    let counts = collect_values(&data, "status");
    assert_eq!(count_of(&counts, "active"), Some(2));
    assert_eq!(count_of(&counts, "done"), Some(1));
}

#[test]
fn test_collect_array_values() {
    let data = vec![("x.md".to_string(), doc("tags: [a, b, a]"))];
    let counts = collect_values(&data, "tags");
    assert_eq!(count_of(&counts, "a"), Some(2));
    assert_eq!(count_of(&counts, "b"), Some(1));
}

#[test]
fn collect_skips_empty_and_matches_field_exactly() {
    let data = vec![
        ("a.md".to_string(), doc("Status: x\nstatus: \"\"")),
        ("b.md".to_string(), doc("status: [7, true, \"\", {k: v}]")),
    ];
    let counts = collect_values(&data, "status");
    assert_eq!(counts.len(), 2);
    assert_eq!(count_of(&counts, "7"), Some(1));
    assert_eq!(count_of(&counts, "true"), Some(1));
    assert_eq!(count_of(&counts, "x"), None);
}

#[test]
fn format_by_name_or_by_count() {
    let counts = vec![("b".to_string(), 1), ("a".to_string(), 1), ("c".to_string(), 5)];
    assert_eq!(format_values(counts.clone(), false), vec!["a", "b", "c"]);
    assert_eq!(format_values(counts, true), vec!["c: 5", "a: 1", "b: 1"]);
    assert_eq!(format_values(vec![("big".to_string(), 1234)], true), vec!["big: 1234"]);
    assert!(format_values(Vec::new(), true).is_empty());
}
