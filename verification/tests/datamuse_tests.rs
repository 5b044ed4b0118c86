//! Tests for the word-service URL builder and response conversion.

use poet::{UrlBuilder, WordsApiItem};

#[test]
fn test_url_builder() {
    // Basic cases of query words: make sure they're urlencoded.
    assert_eq!(
        UrlBuilder::new().spelled_like("plz&escape me").build(),
        "https://api.datamuse.com/words?sp=plz%26escape+me&md=r"
    );
    assert_eq!(
        UrlBuilder::new().sounds_like("escape/me&too?").build(),
        "https://api.datamuse.com/words?sl=escape%2Fme%26too%3F&md=r"
    );

    // Test with the various options.
    assert_eq!(
        UrlBuilder::new()
            .sounds_like("a")
            .spelled_like("b")
            .max(42)
            .want_syllables()
            .build(),
        "https://api.datamuse.com/words?sl=a&sp=b&max=42&md=sr"
    );

    // Testing with Query Echo.
    assert_eq!(
        UrlBuilder::new().sounds_like("flower").query_echo().build(),
        "https://api.datamuse.com/words?sl=flower&qe=sl&max=1&md=r"
    );
    assert_eq!(
        UrlBuilder::new()
            .spelled_like("flower")
            .query_echo()
            .max(42)
            .build(),
        "https://api.datamuse.com/words?sp=flower&qe=sp&max=42&md=r"
    );
}

#[test]
fn word_api_to_entry() {
    let input = WordsApiItem {
        word: String::from("flowers"),
        score: 129846,
        numSyllables: Some(2),
        tags: vec![
            String::from("pron:F L AW1 ER0 Z "),
            String::from("f:51.905237"),
        ],
    };
    let entry = input.to_entry().unwrap();
    assert_eq!(entry.word, "flowers");
    assert_eq!(entry.variant, 1);
    assert_eq!(entry.phonemes.phonemes, vec!["F", "L", "AW1", "ER0", "Z"]);
    assert_eq!(entry.phonemes.num_syllables(), 2);
}

#[test]
fn word_api_to_entry_without_pron_tag() {
    let input = WordsApiItem {
        word: String::from("flowers"),
        score: 1,
        numSyllables: None,
        tags: vec![String::from("f:51.905237")],
    };
    let entry = input.to_entry().unwrap();
    assert_eq!(entry.word, "flowers");
    assert_eq!(entry.variant, 1);
    assert!(entry.phonemes.phonemes.is_empty());
}
