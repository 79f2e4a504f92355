//! Flashcard decks: a line-oriented deck parser, a cloze-deletion tokenizer
//! and content-addressed cards.
pub mod card;
pub mod text;
pub mod cloze;
pub mod parser;
pub mod frontmatter;
pub mod deck;
pub mod cache;
pub mod drill;
pub mod media;
