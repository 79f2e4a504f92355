use std::path::PathBuf;

use hashcards::card::Card;
use hashcards::card::CardContent;
use hashcards::card::CardHash;
use hashcards::card::CardType;

#[test]
fn test_basic_card_hash() {
    let card1 = CardContent::new_basic("What is 2+2?", "4");
    let card2 = CardContent::new_basic("What is 2+2?", "4");
    let card3 = CardContent::new_basic("What is 3+3?", "6");
    assert_eq!(card1.hash(), card2.hash());
    assert_ne!(card1.hash(), card3.hash());
}

#[test]
fn test_cloze_card_hash() {
    let a = CardContent::new_cloze("The capital of France is Paris", 0, 1);
    let b = CardContent::new_cloze("The capital of France is Paris", 0, 2);
    assert_eq!(a.family_hash(), b.family_hash());
}

#[test]
fn test_family_hash() {
    let a = CardContent::new_cloze("The capital of France is Paris", 0, 1);
    let b = CardContent::new_cloze("The capital of France is Paris", 0, 2);
    assert_eq!(a.family_hash(), b.family_hash());
}

#[test]
fn hash_is_blake3_of_tagged_fields() {
    let basic = CardContent::new_basic("  q ", "a\n");
    let mut input = Vec::new();
    input.extend_from_slice(b"Basic");
    input.extend_from_slice(b"q");
    input.extend_from_slice(b"a");
    assert_eq!(basic.hash().as_bytes(), blake3::hash(&input).as_bytes());

    let cloze = CardContent::new_cloze("text", 1, 2);
    let mut input = Vec::new();
    input.extend_from_slice(b"Cloze");
    input.extend_from_slice(b"text");
    input.extend_from_slice(&1usize.to_le_bytes());
    input.extend_from_slice(&2usize.to_le_bytes());
    assert_eq!(cloze.hash().as_bytes(), blake3::hash(&input).as_bytes());

    let family = cloze.family_hash().unwrap();
    assert_eq!(family.as_bytes(), blake3::hash(b"Clozetext").as_bytes());
    assert_eq!(CardHash::hash_bytes(b"a").as_bytes(), blake3::hash(b"a").as_bytes());
}

#[test]
fn basic_and_cloze_hashes_differ() {
    let a = CardContent::new_cloze("x", 0, 0);
    let b = CardContent::new_cloze("x", 0, 0);
    let c = CardContent::new_cloze("x", 0, 1);
    assert_eq!(a.hash(), b.hash());
    assert_ne!(a.hash(), c.hash());
    assert!(CardContent::new_basic("q", "a").family_hash().is_none());
}

#[test]
fn new_basic_trims() {
    let c = CardContent::new_basic("\t q \n", "  a  ");
    assert!(matches!(c, CardContent::Basic { ref question, ref answer } if question == "q" && answer == "a"));
}

#[test]
fn card_caches_content_hash() {
    let content = CardContent::new_basic("q", "a");
    let h = content.hash();
    let card = Card::new("deck".to_string(), PathBuf::from("f.md"), (1, 2), content);
    assert_eq!(card.hash(), h);
    assert_eq!(card.deck_name(), "deck");
    assert_eq!(card.file_path(), &PathBuf::from("f.md"));
    assert_eq!(card.range(), (1, 2));
    assert_eq!(card.card_type(), CardType::Basic);
    assert!(card.family_hash().is_none());
    let cloze = Card::new(
        "deck".to_string(),
        PathBuf::from("f.md"),
        (0, 0),
        CardContent::new_cloze("abc", 1, 1),
    );
    assert_eq!(cloze.card_type(), CardType::Cloze);
    assert_eq!(cloze.family_hash(), cloze.content().family_hash());
}

#[test]
fn hash_order_is_bytewise() {
    let a = CardHash::hash_bytes(b"a");
    let b = CardHash::hash_bytes(b"b");
    assert_eq!(a.less_than(&b), a.as_bytes() < b.as_bytes());
    assert_eq!(b.less_than(&a), b.as_bytes() < a.as_bytes());
    assert!(!a.less_than(&a));
    assert!(a.same(&a));
    assert!(!a.same(&b));
}
