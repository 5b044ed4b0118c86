//! Tests for the lexicon parser and the dictionary.

use poet::{Dictionary, DictionaryImpl, Entry, LexiconError};

#[test]
fn test_parser_handles_basic_entries() {
    let entry = Entry::new("ampersand AE1 M P ER0 S AE2 N D").unwrap();
    assert_eq!(entry.word, "ampersand");
    assert_eq!(entry.dict_key(), "ampersand");
    assert_eq!(
        entry.phonemes.phonemes,
        vec!["AE1", "M", "P", "ER0", "S", "AE2", "N", "D"]
    );
}

#[test]
fn test_parser_ignores_comments() {
    // Everything after # should be ignored.
    let entry = Entry::new("gdp G IY1 D IY1 P IY1 # abbrev ## IGN").unwrap();
    assert_eq!(entry.word, "gdp");
    assert_eq!(
        entry.phonemes.phonemes,
        vec!["G", "IY1", "D", "IY1", "P", "IY1"]
    );
}

#[test]
fn test_parser_with_punctuation_in_terms() {
    assert_eq!(Entry::new("'frisco F R IH1 S K OW0").unwrap().word, "'frisco");
    assert_eq!(Entry::new("a.m. EY2 EH1 M").unwrap().word, "a.m.");
}

#[test]
fn test_parser_with_alternate_words() {
    let entry = Entry::new("amounted(2) AH0 M AW1 N IH0 D").unwrap();
    assert_eq!(entry.word, "amounted");
    assert_eq!(entry.dict_key(), "amounted(2)");
    assert_eq!(
        entry.phonemes.phonemes,
        vec!["AH0", "M", "AW1", "N", "IH0", "D"]
    );
    assert_eq!(entry.variant, 2);
}

#[test]
fn test_default_variant_is_one() {
    let entry = Entry::new("a AH0").unwrap();
    assert_eq!(entry.variant, 1);
}

#[test]
fn test_entry_syllable_count() {
    assert_eq!(Entry::new("a AH0").unwrap().num_syllables(), 1);
    assert_eq!(
        Entry::new("aardvark AA1 R D V AA2 R K").unwrap().num_syllables(),
        2
    );
    assert_eq!(
        Entry::new("amounted(2) AH0 M AW1 N IH0 D").unwrap().num_syllables(),
        3
    );
    assert_eq!(Entry::new("gdp G IY1 D IY1 P IY1").unwrap().num_syllables(), 3);
}

#[test]
fn test_parser_rejects_malformed_lines() {
    // A comment-only line has no word at all.
    assert_eq!(Entry::new("# nothing here"), Err(LexiconError::MissingWord));
    assert_eq!(Entry::new("   "), Err(LexiconError::MissingWord));
    // A phoneme must be uppercase letters, then digits.
    assert_eq!(Entry::new("word 123"), Err(LexiconError::BadPhoneme));
    assert_eq!(Entry::new("word AH0x"), Err(LexiconError::BadPhoneme));
    // A variant number too large to represent is rejected.
    assert_eq!(
        Entry::new("word(99999999999) AH0"),
        Err(LexiconError::VariantOutOfRange)
    );
}

#[test]
fn test_dict_key_round_trip() {
    // The key of a later variant parses back to the same word and variant.
    let entry = Entry::new("amounted(2) AH0 M AW1 N IH0 D").unwrap();
    let key = entry.dict_key();
    assert_eq!(key, "amounted(2)");
    let reparsed = Entry::new(&format!("{} AH0", key)).unwrap();
    assert_eq!(reparsed.word, "amounted");
    assert_eq!(reparsed.variant, 2);
}

#[test]
fn test_entry_to_text() {
    let entry = Entry::new("a AH0").unwrap();
    assert_eq!(entry.to_text(), "\"a\" (AH0); variant=1, syllables=1");
}

#[test]
fn test_dictionary_insert() {
    let mut dict = DictionaryImpl::new();
    dict.insert(Entry::new("a AH0").unwrap());
    dict.insert(Entry::new("aardvark AA1 R D V AA2 R K").unwrap());
    dict.insert(Entry::new("aardvarks AA1 R D V AA2 R K S").unwrap());
    assert_eq!(dict.len(), 3);
}

#[test]
fn test_dictionary_insert_raw() {
    let mut dict = DictionaryImpl::new();
    dict.insert_raw("a H0").unwrap();
    dict.insert_raw("a.m. EY2 EH1 M").unwrap();
    assert_eq!(dict.len(), 2);
}

#[test]
fn test_dictionary_insert_all() {
    let values: Vec<&str> = vec![
        "a AH0",
        "aardvark AA1 R D V AA2 R K",
        "aardvarks AA1 R D V AA2 R K S",
    ];
    let mut dict = DictionaryImpl::new();
    dict.insert_all(&values).unwrap();
    assert_eq!(dict.len(), 3);
}

#[test]
fn test_dictionary_lookup_by_term() {
    let mut dict = DictionaryImpl::new();
    dict.insert(Entry::new("a AH0").unwrap());
    dict.insert(Entry::new("aardvark AA1 R D V AA2 R K").unwrap());
    dict.insert(Entry::new("aardvarks AA1 R D V AA2 R K S").unwrap());
    let entry = dict.lookup("aardvark").unwrap(); // Or fail.
    assert_eq!(entry[0].word, "aardvark");
    assert_eq!(entry[0].phonemes.phonemes.len(), 7);
    assert_eq!(None, dict.lookup("unknown"));
}

#[test]
fn test_dictionary_lookup_multi() {
    let values = vec!["our AW1 ER0", "our(2) AW1 R", "our(3) AA1 R"];
    let mut dict = DictionaryImpl::new();
    dict.insert_all(&values).unwrap();
    let entries = dict.lookup("our").unwrap(); // Or fail.
    assert_eq!(entries.len(), 3);
    assert_eq!(entries[0].word, "our");
    assert_eq!(entries[1].word, "our");
    assert_eq!(entries[2].word, "our");
    assert_eq!(entries[0].dict_key(), "our");
    assert_eq!(entries[1].dict_key(), "our(2)");
    assert_eq!(entries[2].dict_key(), "our(3)");
    assert_eq!(entries[0].variant, 1);
    assert_eq!(entries[1].variant, 2);
    assert_eq!(entries[2].variant, 3);
    assert_eq!(entries[1].phonemes.phonemes, vec!["AW1", "R"]);
}

#[test]
fn test_dictionary_lookup_variant() {
    let values = vec!["our AW1 ER0", "our(2) AW1 R", "our(3) AA1 R"];
    let mut dict = DictionaryImpl::new();
    dict.insert_all(&values).unwrap();
    assert_eq!(dict.lookup_variant("our", 2).unwrap().dict_key(), "our(2)");
    assert_eq!(dict.lookup_variant("our", 1).unwrap().dict_key(), "our");
    assert_eq!(dict.lookup_variant("our", 9), None);
    assert_eq!(dict.lookup_variant("foo", 1), None);
}

#[test]
fn test_dictionary_stats() {
    let mut dict = DictionaryImpl::new();
    dict.insert(Entry::new("a AH0").unwrap());
    dict.insert(Entry::new("aardvark AA1 R D V AA2 R K").unwrap());
    dict.insert(Entry::new("aardvarks AA1 R D V AA2 R K S").unwrap());
    assert_eq!(dict.len(), 3);
}

#[test]
fn test_similarity_score() {
    let bayous = Entry::new("bayous B AY1 UW0 Z").unwrap();
    let fondues = Entry::new("fondues F AA1 N D UW0 Z").unwrap();
    let virtues = Entry::new("virtues V ER1 CH UW0 Z").unwrap();
    assert_eq!(bayous.phonemes.similarity_score(&fondues.phonemes), 2);
    assert_eq!(fondues.phonemes.similarity_score(&virtues.phonemes), 2);

    let diagram = Entry::new("diagram D AY1 AH0 G R AE2 M").unwrap();
    let polygram = Entry::new("polygram P AA1 L IY2 G R AE2 M").unwrap();
    let program = Entry::new("program P R OW1 G R AE2 M").unwrap();
    let programme = Entry::new("programme P R OW1 G R AE2 M").unwrap();
    assert_eq!(diagram.phonemes.similarity_score(&polygram.phonemes), 4);
    assert_eq!(diagram.phonemes.similarity_score(&program.phonemes), 4);
    assert_eq!(program.phonemes.similarity_score(&programme.phonemes), 7);

    let apple = Entry::new("apple AE1 P AH0 L").unwrap();
    let apple_s = Entry::new("apple's AE1 P AH0 L Z").unwrap();
    let apples = Entry::new("apples AE1 P AH0 L Z").unwrap();
    assert_eq!(apple.phonemes.similarity_score(&apple_s.phonemes), 0);
    assert_eq!(apple.phonemes.similarity_score(&apples.phonemes), 0);
    assert_eq!(apple_s.phonemes.similarity_score(&apples.phonemes), 5);

    let mango = Entry::new("mango M AE1 NG G OW0").unwrap();
    let mangoes = Entry::new("mangoes M AE1 NG G OW0 Z").unwrap();
    let mangold = Entry::new("mangold M AE1 N G OW2 L D").unwrap();
    assert_eq!(mango.phonemes.similarity_score(&mangoes.phonemes), 0);
    assert_eq!(mango.phonemes.similarity_score(&mangold.phonemes), 0);
    assert_eq!(mangoes.phonemes.similarity_score(&mangold.phonemes), 0);
}

// This helper calls `dict.similar(query)` and checks that the returned words are `expected`.
fn assert_similar_terms_are(dict: &DictionaryImpl, query: &str, expected: &Vec<&str>) {
    let result = dict.similar(query);
    let result_words: Vec<String> = result
        .words
        .iter()
        .map(|similar_entry| similar_entry.word.clone())
        .collect();
    assert_eq!(&result_words, expected);
}

#[test]
fn test_similar() {
    let values = vec![
        // These words rhyme.
        "bayous B AY1 UW0 Z",
        "fondues F AA1 N D UW0 Z",
        "virtues V ER1 CH UW0 Z",
        // These do too, but not with the first ones.
        "diagram D AY1 AH0 G R AE2 M",
        "polygram P AA1 L IY2 G R AE2 M",
        "program P R OW1 G R AE2 M",
        "programme P R OW1 G R AE2 M",
        "telegram T EH1 L AH0 G R AE2 M",
        // These are other unrelated words to pad out the dictionary.
        "apple AE1 P AH0 L",
        "apple's AE1 P AH0 L Z",
        "apples AE1 P AH0 L Z",
        "applesauce AE1 P AH0 L S AO2 S",
        "avocado AE2 V AH0 K AA1 D OW0",
        "avocados AE2 V AH0 K AA1 D OW0 Z",
        "cranberry K R AE1 N B EH2 R IY0",
        "guava G W AA1 V AH0",
        "guavas G W AA1 V AH0 Z",
        "mango M AE1 NG G OW0",
        "mangoes M AE1 NG G OW0 Z",
        "mangold M AE1 N G OW2 L D",
    ];
    let mut dict = DictionaryImpl::new();
    dict.insert_all(&values).unwrap();

    assert_similar_terms_are(&dict, "bayous", &vec!["fondues", "virtues"]);
    assert_similar_terms_are(
        &dict,
        "program",
        &vec!["programme", "diagram", "polygram", "telegram"],
    );
    assert!(dict.similar("guava").words.is_empty());
    assert_similar_terms_are(&dict, "apples", &vec!["apple's"]);
}

#[test]
fn test_similar_with_homonyms() {
    let values = vec![
        "read R EH1 D",
        "reade R EH1 D",
        "red R EH1 D",
        "redd R EH1 D",
    ];
    let mut dict = DictionaryImpl::new();
    dict.insert_all(&values).unwrap();
    assert_similar_terms_are(&dict, "red", &vec!["read", "reade", "redd"]);
}

#[test]
fn test_similar_returns_words_for_all_variants() {
    // These are fake pronunciations to exercise multi-variant queries.
    let values = vec![
        "far F AA1 R",
        "far's F AA1 R Z",
        "our AW1 ER0",
        "our(2) AW1 R",
        "our(3) AA1 R",
        "sour S AW1 ER0",
        "sour(2) S AW1 R",
    ];
    let mut dict = DictionaryImpl::new();
    dict.insert_all(&values).unwrap();

    // Case: A word with a single variant should rhyme with variants of other words.
    assert_similar_terms_are(&dict, "far", &vec!["our" /* (3) */]);

    // Case: A word with many variants should return words that are similar to any variant.
    // "sour" appears twice because both variants rhyme.
    assert_similar_terms_are(&dict, "our", &vec!["far", "sour", "sour"]);
}

#[test]
fn test_similar_reports_scores_and_syllables() {
    let values = vec![
        "bayous B AY1 UW0 Z",
        "fondues F AA1 N D UW0 Z",
        "virtues V ER1 CH UW0 Z",
    ];
    let mut dict = DictionaryImpl::new();
    dict.insert_all(&values).unwrap();
    let result = dict.similar("bayous");
    assert_eq!(result.words.len(), 2);
    assert_eq!(result.words[0].word, "fondues");
    assert_eq!(result.words[0].syllables, 2);
    assert_eq!(result.words[0].score, 2);
    assert_eq!(result.words[1].word, "virtues");
    assert_eq!(result.words[1].score, 2);
}

#[test]
fn test_dictionary_trait_forwards() {
    let mut dict = DictionaryImpl::new();
    dict.insert(Entry::new("a AH0").unwrap());
    let entries = Dictionary::lookup(&dict, "a").unwrap();
    assert_eq!(entries[0].word, "a");
    assert_eq!(
        Dictionary::lookup_variant(&dict, "a", 1).unwrap().dict_key(),
        "a"
    );
    assert!(Dictionary::similar(&dict, "a").words.is_empty());
}
