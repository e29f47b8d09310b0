use ovq::frontmatter::extract_block;
use serde_yaml::Value as YamlValue;

#[test]
fn test_basic_frontmatter() {
    let content = r#"---
title: Test
tags: [a, b]
---
Body content"#;
    let block = extract_block(content).unwrap();
    let fm: YamlValue = serde_yaml::from_str(&block).unwrap();
    assert_eq!(fm["title"], "Test");
}

#[test]
fn test_no_frontmatter() {
    let content = "Just body content";
    assert!(extract_block(content).is_none());
}

#[test]
fn block_after_leading_space_and_without_close() {
    assert_eq!(extract_block("\n  ---\na: 1\n---\nrest"), Some("\na: 1".to_string()));
    assert_eq!(extract_block("---\na: 1\n"), None);
    assert_eq!(extract_block("--"), None);
}
