use std::path::PathBuf;

use hashcards::frontmatter::extract_frontmatter;
use hashcards::frontmatter::metadata_from_toml;
use hashcards::parser::Parser;
use hashcards::parser::ParserError;

fn make_test_parser() -> Parser {
    Parser::new("test_deck".to_string(), PathBuf::from("test.md"))
}

#[test]
fn test_extract_frontmatter_with_name() {
    let input = r#"---
name = "Custom Deck Name"
---

Q: What is Rust?
A: A systems programming language."#;

    let result = extract_frontmatter(input);
    assert!(result.is_ok());
    let (metadata, content) = result.unwrap();
    assert_eq!(metadata.name, Some("Custom Deck Name".to_string()));
    assert_eq!(
        content.trim(),
        "Q: What is Rust?\nA: A systems programming language."
    );
}

#[test]
fn test_extract_frontmatter_without_name() {
    let input = r#"---
other_field = "value"
---

Q: What is Rust?
A: A systems programming language."#;

    let result = extract_frontmatter(input);
    assert!(result.is_ok());
    let (metadata, content) = result.unwrap();
    assert_eq!(metadata.name, None);
    assert_eq!(
        content.trim(),
        "Q: What is Rust?\nA: A systems programming language."
    );
}

#[test]
fn test_extract_frontmatter_empty() {
    let input = r#"---
---

Q: What is Rust?
A: A systems programming language."#;

    let result = extract_frontmatter(input);
    assert!(result.is_ok());
    let (metadata, content) = result.unwrap();
    assert_eq!(metadata.name, None);
    assert_eq!(
        content.trim(),
        "Q: What is Rust?\nA: A systems programming language."
    );
}

#[test]
fn test_no_frontmatter() {
    let input = "Q: What is Rust?\nA: A systems programming language.";
    let result = extract_frontmatter(input);
    assert!(result.is_ok());
    let (metadata, content) = result.unwrap();
    assert_eq!(metadata.name, None);
    assert_eq!(content, input);
}

#[test]
fn test_frontmatter_unclosed() {
    let input = r#"---
name = "Custom Deck Name"

Q: What is Rust?
A: A systems programming language."#;

    let result = extract_frontmatter(input);
    assert!(result.is_err());
    let err = result.err().unwrap();
    assert!(err.to_string().contains("no closing '---'"));
}

#[test]
fn test_frontmatter_invalid_toml() {
    let input = r#"---
name = Custom Deck Name (missing quotes)
---

Q: What is Rust?"#;

    let result = extract_frontmatter(input);
    assert!(result.is_err());
}

#[test]
fn test_parse_with_frontmatter() -> Result<(), ParserError> {
    let input = r#"---
name = "Custom Deck Name"
---

Q: What is Rust?
A: A systems programming language."#;

    let (metadata, content) = extract_frontmatter(input).unwrap();
    assert_eq!(metadata.name, Some("Custom Deck Name".to_string()));

    let parser = make_test_parser();
    let cards = parser.parse(content)?;
    assert_eq!(cards.len(), 1);
    Ok(())
}

#[test]
fn body_keeps_its_bytes() {
    let (metadata, content) = extract_frontmatter("---\n---\n\nQ: a\r\nA: b\n").unwrap();
    assert_eq!(metadata.name, None);
    assert_eq!(content, "\nQ: a\r\nA: b\n");
}

#[test]
fn nothing_after_closing_line() {
    let (_, content) = extract_frontmatter("---\nname = \"x\"\n---").unwrap();
    assert_eq!(content, "");
    let (_, content) = extract_frontmatter("---\nname = \"x\"\n---\n").unwrap();
    assert_eq!(content, "");
}

#[test]
fn delimiters_may_carry_spaces() {
    let (metadata, content) = extract_frontmatter("  ---  \nname = \"x\"\n --- \nQ: a").unwrap();
    assert_eq!(metadata.name, Some("x".to_string()));
    assert_eq!(content, "Q: a");
}

#[test]
fn name_of_wrong_type_is_refused() {
    let err = extract_frontmatter("---\nname = 5\n---\n").err().unwrap();
    assert_eq!(err.to_string(), "Failed to parse TOML frontmatter: `name` must be a string");
}

#[test]
fn malformed_toml_message_has_prefix() {
    let err = extract_frontmatter("---\nname = \n---\n").err().unwrap();
    assert!(err.to_string().starts_with("Failed to parse TOML frontmatter: "));
    assert!(err.to_string().len() > "Failed to parse TOML frontmatter: ".len());
}

#[test]
fn metadata_from_each_toml_reading() {
    assert_eq!(metadata_from_toml(Ok(vec![])).unwrap().name, None);
    assert_eq!(
        metadata_from_toml(Ok(vec![("other".to_string(), None)])).unwrap().name,
        None
    );
    assert_eq!(
        metadata_from_toml(Ok(vec![
            ("a".to_string(), Some("x".to_string())),
            ("name".to_string(), Some("n".to_string())),
        ]))
        .unwrap()
        .name,
        Some("n".to_string())
    );
    assert!(metadata_from_toml(Ok(vec![("name".to_string(), None)])).is_err());
    assert_eq!(
        metadata_from_toml(Err("bad".to_string())).err().unwrap().message,
        "Failed to parse TOML frontmatter: bad"
    );
}
