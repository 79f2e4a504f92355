use std::path::PathBuf;

use hashcards::card::Card;
use hashcards::card::CardContent;
use hashcards::media::is_external;
use hashcards::media::media_references;
use hashcards::media::missing_media_report;
use hashcards::media::MissingMedia;

fn extract_media_paths(markdown: &str) -> Vec<String> {
    let card = Card::new(
        "deck".to_string(),
        PathBuf::from("deck.md"),
        (0, 0),
        CardContent::new_cloze(markdown, 0, 0),
    );
    media_references(&[card]).into_iter().map(|m| m.file_path).collect()
}

#[test]
fn test_extract_media_paths() {
    let markdown = "Here is an image: ![alt](foo.jpg)\nAnd another: ![](bar.png)";
    let paths = extract_media_paths(markdown);
    assert_eq!(paths, vec!["foo.jpg", "bar.png"]);
}

#[test]
fn test_extract_media_paths_with_audio() {
    let markdown = "Audio file: ![](sound.mp3)";
    let paths = extract_media_paths(markdown);
    assert_eq!(paths, vec!["sound.mp3"]);
}

#[test]
fn test_extract_media_paths_no_media() {
    let markdown = "Just some **bold** text.";
    let paths = extract_media_paths(markdown);
    assert!(paths.is_empty());
}

#[test]
fn test_extract_media_paths_with_urls() {
    let markdown = "![](https://example.com/image.jpg) and ![](local.png)";
    let paths = extract_media_paths(markdown);
    assert_eq!(paths, vec!["https://example.com/image.jpg", "local.png"]);
}

#[test]
fn references_carry_card_provenance() {
    let basic = Card::new(
        "deck".to_string(),
        PathBuf::from("a.md"),
        (3, 5),
        CardContent::new_basic("![](q.png)", "![](a1.png) ![](a2.png)"),
    );
    let cloze = Card::new(
        "deck".to_string(),
        PathBuf::from("b.md"),
        (7, 7),
        CardContent::new_cloze("![](c.png)", 0, 0),
    );
    let refs = media_references(&[basic, cloze]);
    let got: Vec<(String, PathBuf, (usize, usize))> = refs
        .into_iter()
        .map(|m| (m.file_path, m.card_file, m.card_lines))
        .collect();
    assert_eq!(
        got,
        vec![
            ("q.png".to_string(), PathBuf::from("a.md"), (3, 5)),
            ("a1.png".to_string(), PathBuf::from("a.md"), (3, 5)),
            ("a2.png".to_string(), PathBuf::from("a.md"), (3, 5)),
            ("c.png".to_string(), PathBuf::from("b.md"), (7, 7)),
        ]
    );
}

#[test]
fn urls_are_external() {
    assert!(is_external("https://example.com/image.jpg"));
    assert!(!is_external("images/local.png"));
    assert!(!is_external(":/"));
}

#[test]
fn missing_media_report_lists_each_file() {
    assert!(missing_media_report(&[]).is_none());
    let missing = vec![
        MissingMedia {
            file_path: "a.png".to_string(),
            card_file: PathBuf::from("deck.md"),
            card_lines: (3, 4),
        },
        MissingMedia {
            file_path: "b.mp3".to_string(),
            card_file: PathBuf::from("other.md"),
            card_lines: (10, 12),
        },
    ];
    assert_eq!(
        missing_media_report(&missing).unwrap(),
        "Missing media files referenced in cards:\n  - a.png (referenced in deck.md:3)\n  - b.mp3 (referenced in other.md:10)\n"
    );
}
