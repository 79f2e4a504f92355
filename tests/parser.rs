use std::path::PathBuf;

use hashcards::card::Card;
use hashcards::card::CardContent;
use hashcards::parser::ParseErrorKind;
use hashcards::parser::Parser;
use hashcards::parser::decimal_string;
use hashcards::parser::ParserError;

fn make_test_parser() -> Parser {
    Parser::new("test_deck".to_string(), PathBuf::from("test.md"))
}

fn assert_cloze(cards: &[Card], clean_text: &str, deletions: &[(usize, usize)]) {
    assert_eq!(cards.len(), deletions.len());
    for (i, (start, end)) in deletions.iter().enumerate() {
        assert!(matches!(
            &cards[i].content(),
            CardContent::Cloze {
                text,
                start: s,
                end: e,
            } if text == clean_text && *s == *start && *e == *end
        ));
    }
}

fn assert_basic(card: &Card, q: &str, a: &str) {
    assert!(matches!(
        card.content(),
        CardContent::Basic { question, answer } if question == q && answer == a
    ));
}

#[test]
fn test_empty_string() -> Result<(), ParserError> {
    let input = "";
    let parser = make_test_parser();
    let cards = parser.parse(input)?;
    assert_eq!(cards.len(), 0);
    Ok(())
}

#[test]
fn test_whitespace_string() -> Result<(), ParserError> {
    let input = "\n\n\n";
    let parser = make_test_parser();
    let cards = parser.parse(input)?;
    assert_eq!(cards.len(), 0);
    Ok(())
}

#[test]
fn test_basic_card() -> Result<(), ParserError> {
    let input = "Q: What is Rust?\nA: A systems programming language.";
    let parser = make_test_parser();
    let cards = parser.parse(input)?;

    assert_eq!(cards.len(), 1);
    assert!(matches!(
        &cards[0].content(),
        CardContent::Basic {
            question,
            answer,
        } if question == "What is Rust?" && answer == "A systems programming language."
    ));
    Ok(())
}

#[test]
fn test_multiline_qa() -> Result<(), ParserError> {
    let input = "Q: foo\nbaz\nbaz\nA: FOO\nBAR\nBAZ";
    let parser = make_test_parser();
    let cards = parser.parse(input)?;

    assert_eq!(cards.len(), 1);
    assert!(matches!(
        &cards[0].content(),
        CardContent::Basic {
            question,
            answer,
        } if question == "foo\nbaz\nbaz" && answer == "FOO\nBAR\nBAZ"
    ));
    Ok(())
}

#[test]
fn test_two_questions() -> Result<(), ParserError> {
    let input = "Q: foo\nA: bar\n\nQ: baz\nA: quux\n\n";
    let parser = make_test_parser();
    let cards = parser.parse(input)?;

    assert_eq!(cards.len(), 2);
    assert_basic(&cards[0], "foo", "bar");
    assert_basic(&cards[1], "baz", "quux");
    Ok(())
}

#[test]
fn test_cloze_followed_by_question() -> Result<(), ParserError> {
    let input = "C: ||foo||\nQ: Question\nA: Answer";
    let parser = make_test_parser();
    let cards = parser.parse(input)?;

    assert_eq!(cards.len(), 2);
    assert_cloze(&cards[0..1], "foo", &[(0, 2)]);
    assert_basic(&cards[1], "Question", "Answer");
    Ok(())
}

#[test]
fn test_cloze_single() -> Result<(), ParserError> {
    let input = "C: Foo ||bar|| baz.";
    let parser = make_test_parser();
    let cards = parser.parse(input)?;

    assert_cloze(&cards, "Foo bar baz.", &[(4, 6)]);
    Ok(())
}

#[test]
fn test_cloze_multiple() -> Result<(), ParserError> {
    let input = "C: Foo ||bar|| baz ||quux||.";
    let parser = make_test_parser();
    let cards = parser.parse(input)?;

    assert_cloze(&cards, "Foo bar baz quux.", &[(4, 6), (12, 15)]);
    Ok(())
}

#[test]
fn test_cloze_with_image() -> Result<(), ParserError> {
    let input = "C: Foo ||bar|| ![](image.jpg) ||quux||.";
    let parser = make_test_parser();
    let cards = parser.parse(input)?;

    assert_cloze(&cards, "Foo bar ![](image.jpg) quux.", &[(4, 6), (23, 26)]);
    Ok(())
}

#[test]
fn test_multi_line_cloze() -> Result<(), ParserError> {
    let input = "C: ||foo||\n||bar||\nbaz.";
    let parser = make_test_parser();
    let cards = parser.parse(input)?;

    assert_cloze(&cards, "foo\nbar\nbaz.", &[(0, 2), (4, 6)]);
    Ok(())
}

#[test]
fn test_two_clozes() -> Result<(), ParserError> {
    let input = "C: ||foo||\nC: ||bar||";
    let parser = make_test_parser();
    let cards = parser.parse(input)?;

    assert_eq!(cards.len(), 2);
    assert_cloze(&cards[0..1], "foo", &[(0, 2)]);
    assert_cloze(&cards[1..2], "bar", &[(0, 2)]);
    Ok(())
}

#[test]
fn test_question_without_answer() -> Result<(), ParserError> {
    let input = "Q: Question without answer";
    let parser = make_test_parser();
    let result = parser.parse(input);

    assert!(result.is_err());
    Ok(())
}

#[test]
fn test_answer_without_question() -> Result<(), ParserError> {
    let input = "A: Answer without question";
    let parser = make_test_parser();
    let result = parser.parse(input);

    assert!(result.is_err());
    Ok(())
}

#[test]
fn test_question_followed_by_cloze() -> Result<(), ParserError> {
    let input = "Q: Question\nC: Cloze";
    let parser = make_test_parser();
    let result = parser.parse(input);

    assert!(result.is_err());
    Ok(())
}

#[test]
fn test_question_followed_by_question() -> Result<(), ParserError> {
    let input = "Q: Question\nQ: Another";
    let parser = make_test_parser();
    let result = parser.parse(input);

    assert!(result.is_err());
    Ok(())
}

#[test]
fn test_multiple_answers() -> Result<(), ParserError> {
    let input = "Q: Question\nA: Answer\nA: Another answer";
    let parser = make_test_parser();
    let result = parser.parse(input);

    assert!(result.is_err());
    Ok(())
}

#[test]
fn test_cloze_followed_by_answer() -> Result<(), ParserError> {
    let input = "C: Cloze\nA: Answer";
    let parser = make_test_parser();
    let result = parser.parse(input);

    assert!(result.is_err());
    Ok(())
}

#[test]
fn test_cloze_without_deletions() -> Result<(), ParserError> {
    let input = "C: Cloze";
    let parser = make_test_parser();
    let result = parser.parse(input);

    assert!(result.is_err());
    Ok(())
}

#[test]
fn test_cloze_with_initial_blank_line() -> Result<(), ParserError> {
    let input = "C:\nBuild something people want in Lisp.\n\n— ||Paul Graham||, ||_Hackers and Painters_||\n\n";
    let parser = make_test_parser();
    let cards = parser.parse(input)?;

    assert_cloze(
        &cards,
        "Build something people want in Lisp.\n\n— Paul Graham, _Hackers and Painters_",
        &[(42, 52), (55, 76)],
    );
    Ok(())
}

#[test]
fn test_identical_basic_cards() -> Result<(), ParserError> {
    let input = "Q: foo\nA: bar\n\nQ: foo\nA: bar\n\n";
    let parser = make_test_parser();
    let cards = parser.parse(input)?;

    assert_eq!(cards.len(), 1);
    Ok(())
}

#[test]
fn test_identical_cloze_cards() -> Result<(), ParserError> {
    let input = "C: foo ||bar||\n\nC: foo ||bar||";
    let parser = make_test_parser();
    let cards = parser.parse(input)?;

    assert_eq!(cards.len(), 1);
    Ok(())
}

#[test]
fn test_cloze_deletion_with_exclamation_sign() -> Result<(), ParserError> {
    let input = "C: The notation ||$n!$|| means 'n factorial'.";
    let parser = make_test_parser();
    let result = parser.parse(input);
    let cards = result.unwrap();
    assert_eq!(cards.len(), 1);
    let card: Card = cards[0].clone();
    match &card.content() {
        CardContent::Cloze { text, .. } => {
            assert_eq!(text, "The notation $n!$ means 'n factorial'.");
        }
        _ => panic!("Expected cloze card."),
    }
    Ok(())
}

#[test]
fn test_separator_between_basic_cards() -> Result<(), ParserError> {
    let input = "Q: foo\nA: bar\n---\nQ: baz\nA: quux";
    let parser = make_test_parser();
    let cards = parser.parse(input)?;

    assert_eq!(cards.len(), 2);
    assert_basic(&cards[0], "foo", "bar");
    assert_basic(&cards[1], "baz", "quux");
    Ok(())
}

#[test]
fn test_separator_after_cloze_card() -> Result<(), ParserError> {
    let input = "C: ||foo||\n---\nQ: Question\nA: Answer";
    let parser = make_test_parser();
    let cards = parser.parse(input)?;

    assert_eq!(cards.len(), 2);
    assert_cloze(&cards[0..1], "foo", &[(0, 2)]);
    assert_basic(&cards[1], "Question", "Answer");
    Ok(())
}

#[test]
fn test_separator_between_cloze_cards() -> Result<(), ParserError> {
    let input = "C: ||foo||\n---\nC: ||bar||";
    let parser = make_test_parser();
    let cards = parser.parse(input)?;

    assert_eq!(cards.len(), 2);
    assert_cloze(&cards[0..1], "foo", &[(0, 2)]);
    assert_cloze(&cards[1..2], "bar", &[(0, 2)]);
    Ok(())
}

#[test]
fn test_separator_in_question_errors() -> Result<(), ParserError> {
    let input = "Q: Question\n---\nA: Answer";
    let parser = make_test_parser();
    let result = parser.parse(input);

    assert!(result.is_err());
    if let Err(e) = result {
        assert!(e.to_string().contains("separator"));
    }
    Ok(())
}

#[test]
fn test_multiple_separators() -> Result<(), ParserError> {
    let input = "Q: foo\nA: bar\n---\n---\nQ: baz\nA: quux";
    let parser = make_test_parser();
    let cards = parser.parse(input)?;

    assert_eq!(cards.len(), 2);
    assert_basic(&cards[0], "foo", "bar");
    assert_basic(&cards[1], "baz", "quux");
    Ok(())
}

#[test]
fn test_separator_at_end() -> Result<(), ParserError> {
    let input = "Q: foo\nA: bar\n---";
    let parser = make_test_parser();
    let cards = parser.parse(input)?;

    assert_eq!(cards.len(), 1);
    assert_basic(&cards[0], "foo", "bar");
    Ok(())
}

// Error kinds, locations and line handling.

fn parse_err(input: &str) -> ParserError {
    make_test_parser().parse(input).err().expect("expected an error")
}

#[test]
fn multiline_join_is_exact() {
    let cards = make_test_parser().parse("Q: foo\nbaz\nA: FOO\nBAR").unwrap();
    assert_eq!(cards.len(), 1);
    assert_basic(&cards[0], "foo\nbaz", "FOO\nBAR");
}

#[test]
fn error_kinds_and_lines() {
    let e = parse_err("A: x");
    assert_eq!(e.kind, ParseErrorKind::AnswerWithoutQuestion);
    assert_eq!(e.message, "Found answer tag without a question.");
    assert_eq!(e.line_num, 0);
    let e = parse_err("Q: a\nQ: b");
    assert_eq!(e.kind, ParseErrorKind::QuestionWithoutAnswer);
    assert_eq!(e.line_num, 1);
    let e = parse_err("Q: a\nC: b");
    assert_eq!(e.kind, ParseErrorKind::ClozeInQuestion);
    let e = parse_err("Q: a\n---");
    assert_eq!(e.kind, ParseErrorKind::SeparatorInQuestion);
    let e = parse_err("Q: a\nA: b\nA: c");
    assert_eq!(e.kind, ParseErrorKind::AnswerInAnswer);
    assert_eq!(e.line_num, 2);
    let e = parse_err("C: ||a||\nA: b");
    assert_eq!(e.kind, ParseErrorKind::AnswerInCloze);
    let e = parse_err("\n\nQ: a");
    assert_eq!(e.kind, ParseErrorKind::UnfinishedQuestion);
    assert_eq!(e.line_num, 2);
    let e = parse_err("Q: a\nA: b\n\nC: Cloze");
    assert_eq!(e.kind, ParseErrorKind::NoDeletion);
    assert_eq!(e.message, "Cloze card must contain at least one cloze deletion.");
    assert_eq!(e.line_num, 3);
    let e = parse_err("C: a |||| b");
    assert_eq!(e.kind, ParseErrorKind::EmptyDeletion);
}

#[test]
fn error_text_gives_location() {
    let e = parse_err("Q: a\n---");
    assert_eq!(
        e.to_string(),
        "Found flashcard separator while reading a question. Location: test.md:2"
    );
}

#[test]
fn ranges_follow_the_table() {
    let cards = make_test_parser()
        .parse("Q: a\nA: b\n\nC: ||x|| y\n---\nQ: c\nA: d\nmore")
        .unwrap();
    assert_eq!(cards.len(), 3);
    assert_eq!(cards[0].range(), (0, 3));
    assert_eq!(cards[1].range(), (3, 4));
    assert_eq!(cards[2].range(), (5, 7));
    assert_eq!(cards[2].deck_name(), "test_deck");
    assert_eq!(cards[2].file_path(), &PathBuf::from("test.md"));
}

#[test]
fn colon_tags_need_no_space_and_are_case_sensitive() {
    let cards = make_test_parser().parse("Q:x\nA:y\nq: not a tag").unwrap();
    assert_eq!(cards.len(), 1);
    assert_basic(&cards[0], "x", "y\nq: not a tag");
}

#[test]
fn carriage_returns_end_lines() {
    let cards = make_test_parser().parse("Q: a\r\nb\r\nA: c\r\n").unwrap();
    assert_eq!(cards.len(), 1);
    assert_basic(&cards[0], "a\nb", "c");
}

#[test]
fn dedup_keeps_first_occurrence() {
    let cards = make_test_parser()
        .parse("Q: a\nA: b\n---\nQ: c\nA: d\n---\nQ: a\nA: b")
        .unwrap();
    assert_eq!(cards.len(), 2);
    assert_eq!(cards[0].range(), (0, 2));
    assert_basic(&cards[1], "c", "d");
}

#[test]
fn single_basic_card() {
    let cards = make_test_parser().parse("Q: foo\nA: bar").unwrap();
    assert_eq!(cards.len(), 1);
    assert_basic(&cards[0], "foo", "bar");
    assert_eq!(cards[0].range(), (0, 1));
}

#[test]
fn decimal_numerals() {
    assert_eq!(decimal_string(0), "0");
    assert_eq!(decimal_string(7), "7");
    assert_eq!(decimal_string(10), "10");
    assert_eq!(decimal_string(1234567890), "1234567890");
    assert_eq!(decimal_string(u64::MAX as u128 + 1), "18446744073709551616");
}
