use std::path::PathBuf;

use hashcards::card::Card;
use hashcards::deck::merge_cards;
use hashcards::deck::parse_file;
use hashcards::deck::resolve_deck_name;
use hashcards::deck::DeckError;
use hashcards::parser::ParseErrorKind;

fn load(files: &[(&str, &str)]) -> Result<Vec<Card>, DeckError> {
    let mut all = Vec::new();
    for (stem, text) in files {
        let path = PathBuf::from(format!("{stem}.md"));
        all.extend(parse_file(text, Some(stem.to_string()), path)?);
    }
    Ok(merge_cards(all))
}

#[test]
fn identical_cards_in_two_files_merge() {
    let deck = load(&[("file1", "Q: foo\nA: bar"), ("file2", "Q: foo\nA: bar")]).unwrap();
    assert_eq!(deck.len(), 1);
}

#[test]
fn frontmatter_name_applies_to_each_card() {
    let deck = load(&[
        ("ch1", "---\nname = \"Cell Biology\"\n---\n\nQ: What is a cell?\nA: The basic unit of life."),
        ("ch2", "---\nname = \"Cell Biology\"\n---\n\nQ: What is DNA?\nA: Genetic material."),
    ])
    .unwrap();
    assert_eq!(deck.len(), 2);
    for card in &deck {
        assert_eq!(card.deck_name(), "Cell Biology");
    }
}

#[test]
fn deck_name_falls_back_to_stem() {
    let deck = load(&[("biology", "---\nother = 1\n---\nQ: a\nA: b")]).unwrap();
    assert_eq!(deck[0].deck_name(), "biology");
    let deck = load(&[("plain", "Q: a\nA: b")]).unwrap();
    assert_eq!(deck[0].deck_name(), "plain");
    let deck = load(&[("empty", "---\nname = \"\"\n---\nQ: a\nA: b")]).unwrap();
    assert_eq!(deck[0].deck_name(), "empty");
}

#[test]
fn resolve_deck_name_cases() {
    assert_eq!(resolve_deck_name(Some("n".to_string()), Some("s".to_string())), "n");
    assert_eq!(resolve_deck_name(Some(String::new()), Some("s".to_string())), "s");
    assert_eq!(resolve_deck_name(None, Some("s".to_string())), "s");
    assert_eq!(resolve_deck_name(None, None), "None");
}

#[test]
fn merged_cards_sorted_by_hash() {
    let deck = load(&[
        ("a", "Q: 1\nA: 1\n---\nQ: 2\nA: 2\n---\nC: ||x|| and ||y||"),
        ("b", "Q: 2\nA: 2\n---\nQ: 3\nA: 3"),
    ])
    .unwrap();
    assert_eq!(deck.len(), 5);
    for pair in deck.windows(2) {
        assert!(pair[0].hash().as_bytes() < pair[1].hash().as_bytes());
    }
}

#[test]
fn unclosed_header_fails_the_file() {
    match load(&[("x", "---\nname = \"n\"\nQ: a\nA: b")]) {
        Err(DeckError::Config(e)) => assert!(e.message.contains("no closing")),
        _ => panic!("expected a header error"),
    }
}

#[test]
fn parse_errors_carry_the_file() {
    match load(&[("ok", "Q: a\nA: b"), ("bad", "A: b")]) {
        Err(DeckError::Parser(e)) => {
            assert_eq!(e.kind, ParseErrorKind::AnswerWithoutQuestion);
            assert_eq!(e.file_path, PathBuf::from("bad.md"));
        }
        _ => panic!("expected a parse error"),
    }
}

#[test]
fn lines_count_from_the_body() {
    let deck = load(&[("f", "---\nname = \"d\"\n---\nQ: a\nA: b")]).unwrap();
    assert_eq!(deck[0].range(), (0, 1));
}
