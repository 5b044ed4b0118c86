//! Tests for the normalizer, stanza parsing, interpretations and classifiers.

use poet::{
    get_stanzas_from_text, is_haiku, is_shakespearean_sonnet, normalize_for_lookup,
    ClassifyError, DictionaryImpl, Stanza, StanzaView,
};

#[test]
fn test_token_normalize() {
    assert_eq!(normalize_for_lookup("tools"), "tools");
    assert_eq!(normalize_for_lookup("let's"), "let's");

    // ASCII capital letters should be lowercased.
    assert_eq!(normalize_for_lookup("Such"), "such");
    assert_eq!(normalize_for_lookup("ID"), "id");

    // Trailing punctuation should be cleared in most cases.
    assert_eq!(normalize_for_lookup("this,"), "this");
    assert_eq!(normalize_for_lookup("there."), "there");
    assert_eq!(normalize_for_lookup("found..."), "found");
    assert_eq!(normalize_for_lookup("prize!"), "prize");
    assert_eq!(normalize_for_lookup("flowers?"), "flowers");
    assert_eq!(normalize_for_lookup("cure:"), "cure");
    assert_eq!(normalize_for_lookup("ground;"), "ground");
    assert_eq!(normalize_for_lookup("\"Nope.\""), "nope");

    // Curly quotes should be treated as the ascii equivalents.
    assert_eq!(normalize_for_lookup("“double”"), "double");
    assert_eq!(normalize_for_lookup("single’s"), "single's");

    // For now, only trailing dashes should be removed.
    assert_eq!(normalize_for_lookup("pen--"), "pen");
    assert_eq!(normalize_for_lookup("well-contented"), "well-contented");

    // Periods should be preserved if they also appear within the term.
    assert_eq!(normalize_for_lookup("A.M."), "a.m.");
    assert_eq!(normalize_for_lookup("p.m.,"), "p.m.");
}

#[test]
fn test_get_stanzas_from_text_selects_correct_text_blocks() {
    let dict = DictionaryImpl::new(); // Empty is ok, not testing lookups here.
    let input = "\
         # Some comment to be ignored.\n\
         A duck walked the streets\n\
         Searching for crumbs of crackers\n\
         Quacking constantly\n\
         \n\
         \n\
         This single empty line should be ignored / replaced by the next.\n\
         \n\
         Valentine\n\
         \n\
         Roses are red\n\
         Violets are blue\n\
         Sugar is sweet\n\
         And so are you\n";
    let output = get_stanzas_from_text(&input, &dict);
    assert_eq!(output.len(), 2);
    assert_eq!(output[0].title, None);
    assert_eq!(output[0].lines.len(), 3);
    assert_eq!(output[1].title.as_ref().unwrap(), "Valentine");
    assert_eq!(output[1].lines.len(), 4);
}

#[test]
fn test_classifyerror_ord() {
    // Spot check -- not exhaustive.
    // StanzaErrors should come first, ordered by error string.
    assert!(
        ClassifyError::StanzaError("".to_string()) < ClassifyError::LineError(0, "".to_string())
    );
    assert!(
        ClassifyError::StanzaError("abc".to_string())
            < ClassifyError::StanzaError("def".to_string())
    );
    // LineErrors should come after, sorted by line then string.
    assert!(
        ClassifyError::LineError(42, "z".to_string())
            > ClassifyError::LineError(8, "a".to_string())
    );
    assert!(
        ClassifyError::LineError(42, "a".to_string())
            < ClassifyError::LineError(42, "z".to_string())
    );
}

#[test]
fn test_classifyerror_to_text() {
    assert_eq!(
        ClassifyError::StanzaError("abc".to_string()).to_text(),
        "Stanza: abc"
    );
    assert_eq!(
        ClassifyError::LineError(42, "z".to_string()).to_text(),
        "Line 43: z"
    );
}

/// This test helper parses `text` to extract exactly one `Stanza`.
fn to_stanza(text: &str, dict: &DictionaryImpl) -> Stanza {
    let stanzas = get_stanzas_from_text(&text, &dict);
    assert_eq!(stanzas.len(), 1);
    stanzas.into_iter().next().unwrap()
}

/// This test helper extracts interpretations from `Stanza` and expects only one.
fn unique_interp(stanza: &Stanza) -> StanzaView {
    let mut iter = stanza.interpretations();
    assert_eq!(iter.size_hint().1, Some(1));
    iter.next().unwrap()
}

#[test]
fn test_with_valid_known_words() {
    // Valid haikus with all words in the dictionary should be valid.
    let test_dictionary = vec![
        "a AH0",
        "a(2) EY1",
        "bits B IH1 T S",
        "constantly K AA1 N S T AH0 N T L IY0",
        "crackers K R AE1 K ER0",
        "crumbs K R AH1 M Z",
        "duck D AH1 K",
        "for F AO1 R",
        "for(2) F ER0",
        "for(3) F R ER0",
        "of AH1 V",
        "quacking K W AE1 K IH0 NG",
        "searching S ER1 CH IH0 NG",
        "streets S T R IY1 T S",
        "the DH AH0",
        "the(2) DH AH1",
        "the(3) DH IY0",
        "walked W AO1 K T",
    ];
    let mut dict = DictionaryImpl::new();
    dict.insert_all(&test_dictionary).unwrap();

    let text = "\
      A duck walked the streets\n\
      Searching for crumbs of crackers\n\
      Quacking constantly\n";
    let stanza = to_stanza(text, &dict);
    assert!(!stanza.has_unknown_words()); // Test invariant.
    assert_eq!(is_haiku(&unique_interp(&stanza)), Ok(()));
}

#[test]
fn test_checks_exact_syllable_counts_with_known_words() {
    let test_dictionary = vec!["a AH0"];
    let mut dict = DictionaryImpl::new();
    dict.insert_all(&test_dictionary).unwrap();

    // If all the words are known and the number of syllables are not correct,
    // the stanza should not be valid.
    let line1_too_short = "a a a a\na a a a a a a\na a a a a";
    let line2_too_short = "a a a a a\na a a a a a\na a a a a";
    let line3_too_short = "a a a a a\na a a a a a a\na a a a";
    let all_too_long = "a a a a a a\na a a a a a a a\na a a a a a";
    let stanza = to_stanza(&line1_too_short, &dict);
    assert!(!stanza.has_unknown_words()); // Test invariant.
    assert!(is_haiku(&unique_interp(&stanza)).is_err());

    let stanza = to_stanza(&line2_too_short, &dict);
    assert!(is_haiku(&unique_interp(&stanza)).is_err());

    let stanza = to_stanza(&line3_too_short, &dict);
    assert!(is_haiku(&unique_interp(&stanza)).is_err());

    let stanza = to_stanza(&all_too_long, &dict);
    assert!(is_haiku(&unique_interp(&stanza)).is_err());
}

#[test]
fn test_requires_exactly_3_lines() {
    let test_dictionary = vec!["a AH0"];
    let mut dict = DictionaryImpl::new();
    dict.insert_all(&test_dictionary).unwrap();

    let two_lines = "a a a a a\na a a a a a a";
    let four_lines = "a a a a a\na a a a a a a\na a a a a\na a a a a";

    let stanza = to_stanza(&two_lines, &dict);
    assert!(is_haiku(&unique_interp(&stanza)).is_err());

    let stanza = to_stanza(&four_lines, &dict);
    assert!(is_haiku(&unique_interp(&stanza)).is_err());
}

#[test]
fn test_is_conservative_with_unknown_words() {
    let test_dictionary = vec!["a AH0"];
    let mut dict = DictionaryImpl::new();
    dict.insert_all(&test_dictionary).unwrap();

    let text = "a a a a someword\n\
                wertgreen\n\
                a a a a a";
    let stanza = to_stanza(&text, &dict);
    assert!(is_haiku(&unique_interp(&stanza)).is_ok());
}

#[test]
fn test_fails_with_unknown_words_when_clearly_too_long() {
    let test_dictionary = vec!["a AH0"];
    let mut dict = DictionaryImpl::new();
    dict.insert_all(&test_dictionary).unwrap();

    let text = "a a a a a toolong\n\
                a a a a a a a\n\
                a a a a a";
    let stanza = to_stanza(&text, &dict);
    assert!(is_haiku(&unique_interp(&stanza)).is_err());
}

#[test]
fn test_single_interpretation() {
    let poem = "a b c \n d \n e f";
    // This dictionary has either zero or one entries per word in the poem.
    // The phonemes don't matter to the outcome.
    let poem_dict_entries = vec![
        "a AH0 D",
        "b AH0 P",
        "c IH1 V",
        "d G IH1 V",
        "e EH1 L",
        // f missing.
    ];
    let mut poem_dict = DictionaryImpl::new();
    poem_dict.insert_all(&poem_dict_entries).unwrap();
    let stanza = to_stanza(&poem, &poem_dict);

    let mut iter = stanza.interpretations();
    assert_eq!(iter.size_hint().1, Some(1));

    let view = iter.next().unwrap();
    assert_eq!(view.line(0).token_string(), "a b c");
    assert_eq!(view.line(1).token_string(), "d");
    assert_eq!(view.line(2).token_string(), "e None");
    assert!(iter.next().is_none());
}

#[test]
fn test_full_generation_with_several_variants() {
    let poem = "a b c \n d \n e f";
    // Same poem, but this time many of the words have multiple variants.
    //
    // In order to avoid any filtering/pruning, the variants for each word
    // can't all have the same number of syllables.
    let poem_dict_entries = vec![
        "a AH0 D",
        "b AH0 P",        // 1 syllable.
        "b(2) AY1 AH0 X", // 2 syllables.
        "c IH1 V",
        "c(2) AY1 IH1 Y",
        "c(3) AE1 IH1 Z",
        "d G IH1 V",
        "e EH1 L",
        "e(2) AY1 EH1 X",
        // f missing.
    ];
    let mut poem_dict = DictionaryImpl::new();
    poem_dict.insert_all(&poem_dict_entries).unwrap();
    let stanza = to_stanza(&poem, &poem_dict);

    let mut all: Vec<StanzaView> = Vec::new();
    let mut iter = stanza.interpretations();
    while let Some(view) = iter.next() {
        all.push(view);
    }
    assert_eq!(all.len(), 12);

    // Spot check one of the outputs, #9.
    let view = &all[9];
    assert_eq!(view.line(0).token_string(), "a b(2) c");
    assert_eq!(view.line(1).token_string(), "d");
    assert_eq!(view.line(2).token_string(), "e(2) None");
}

#[test]
fn test_filtering() {
    let poem = "a b c \n d \n e f";
    // Same poem, but this time many of the words have multiple variants.
    //
    // This time the variants have the same number of syllables, so only
    // the one at the end of a line (c) should be produced.
    let poem_dict_entries = vec![
        "a AH0 D",
        "b AH0 P",
        "b(2) AH0 X",
        "c IH1 V",
        "c(2) IH1 Y",
        "c(3) IH1 Z",
        "d G IH1 V",
        "e EH1 L",
        "e(2) EH1 X",
        // f missing.
    ];
    let mut poem_dict = DictionaryImpl::new();
    poem_dict.insert_all(&poem_dict_entries).unwrap();
    let stanza = to_stanza(&poem, &poem_dict);

    let mut all: Vec<StanzaView> = Vec::new();
    let mut iter = stanza.interpretations();
    while let Some(view) = iter.next() {
        all.push(view);
    }
    assert_eq!(all.len(), 3);

    assert_eq!(all[0].line(0).token_string(), "a b c");
    assert_eq!(all[1].line(0).token_string(), "a b c(2)");
    assert_eq!(all[2].line(0).token_string(), "a b c(3)");

    assert_eq!(all[2].line(2).token_string(), "e None");
}

#[test]
fn test_size_estimate_shrinks_under_pruning() {
    // The unpruned space of this poem would be 2 * 3 * 2 = 12; with
    // same-syllable variants on the interior tokens ("b" and "e" both sit
    // before the end of their lines), pruning cuts the estimate to the 3
    // variants of the line-final token "c".
    let poem = "a b c \n d \n e f";
    let poem_dict_entries = vec![
        "a AH0 D",
        "b AH0 P",
        "b(2) AH0 X",
        "c IH1 V",
        "c(2) IH1 Y",
        "c(3) IH1 Z",
        "d G IH1 V",
        "e EH1 L",
        "e(2) EH1 X",
    ];
    let mut poem_dict = DictionaryImpl::new();
    poem_dict.insert_all(&poem_dict_entries).unwrap();
    let stanza = to_stanza(&poem, &poem_dict);
    let iter = stanza.interpretations();
    assert_eq!(iter.size_hint(), (0, Some(3)));
}

#[test]
fn test_requires_14_lines() {
    let test_dictionary = vec!["a AH0"];
    let mut dict = DictionaryImpl::new();
    dict.insert_all(&test_dictionary).unwrap();

    let line = "a a a a a a a a a a\n";
    let too_short = to_stanza(&line.repeat(13), &dict);
    assert!(is_shakespearean_sonnet(&unique_interp(&too_short)).is_err());

    let correct = to_stanza(&line.repeat(14), &dict);
    assert!(is_shakespearean_sonnet(&unique_interp(&correct)).is_ok());

    let too_long = to_stanza(&line.repeat(15), &dict);
    assert!(is_shakespearean_sonnet(&unique_interp(&too_long)).is_err());
}

#[test]
fn test_lines_must_have_10_syllables() {
    let test_dictionary = vec!["a AH0"];
    let mut dict = DictionaryImpl::new();
    dict.insert_all(&test_dictionary).unwrap();

    let full_line = "a a a a a a a a a a\n";
    let short_line = "a a a a a a a a a\n";
    let long_line = "a a a a a a a a a a a\n";

    // Just test inserting a short or long line in two spots in the middle.
    let prose_short = format!(
        "{}{}{}",
        &full_line.repeat(8),
        &short_line,
        &full_line.repeat(5)
    );
    let prose_long = format!(
        "{}{}{}",
        &full_line.repeat(3),
        &long_line,
        &full_line.repeat(10)
    );

    let too_short = to_stanza(&prose_short, &dict);
    assert!(is_shakespearean_sonnet(&unique_interp(&too_short)).is_err());
    let too_long = to_stanza(&prose_long, &dict);
    assert!(is_shakespearean_sonnet(&unique_interp(&too_long)).is_err());
}

#[test]
fn test_rhyming_pattern() {
    // Sonnet lines should match the rhyming pattern ABAB CDCD EFEF GG.
    let poem_dict_entries = vec![
        // These are the rhyming end words of the poem below.
        "aloud AH0 L AW1 D",
        "apart AH0 P AA1 R T",
        "crowd K R AW1 D",
        "ferns F ER1 N Z",
        "gazelle G AH0 Z EH1 L",
        "give G IH1 V",
        "group G R UW1 P",
        "live L IH1 V",
        "poop P UW1 P",
        "smart S M AA1 R T",
        "spiteful S P AY1 T F AH0 L",
        "terns T ER1 N Z",
        "unwell AH0 N W EH1 L",
        "unimpressible AH2 N IH2 M P R EH1 S AH0 B AH0 L",
        // These are some other words that don't rhyme with those.
        "one W AH1 N",
        "zebra Z IY1 B R AH0",
        "electroplating IH2 L EH1 K T R AH0 P L EY2 T IH0 NG",
    ];
    let mut poem_dict = DictionaryImpl::new();
    poem_dict.insert_all(&poem_dict_entries).unwrap();

    let poem = "\
        A tricksy girl named Stella once did live\n\
        among acacia thorns and ng’ombe poop.\n\
        In Tanzanian hinterlands rains give\n\
        sweet life to every possible food group.\n\
        But in this verdant, fertile land of ferns,\n\
        inhabited by bustards, storks, gazelle,\n\
        and lions, warthogs, bees, gnats, buzzards, terns,\n\
        our dearest Stella found herself unwell.\n\
        She’d hoped to have made friends, but she was smart.\n\
        Schoolkids at her poked fun, in jests spiteful.\n\
        Performance set her in a class apart\n\
        that left her classmates unimpressible.\n\
        Post-class one day, and distanced from the crowd,\n\
        our Stella pondered friendlessness aloud.\n";

    {
        // The unmodified poem should be ok.
        let stanza = to_stanza(&poem, &poem_dict);
        assert!(is_shakespearean_sonnet(&unique_interp(&stanza)).is_ok());
    }

    // For the last word in each line, replace it with another word of the same length
    // that doesn't rhyme, and verify that the test fails.
    let replacements = [
        ("live", "one"),
        ("poop", "one"),
        ("give", "one"),
        ("group", "one"),
        ("ferns", "one"),
        ("gazelle", "zebra"),
        ("terns", "one"),
        ("unwell", "zebra"),
        ("smart", "one"),
        ("spiteful", "zebra"),
        ("apart", "zebra"),
        ("unimpressible", "electroplating"),
        ("crowd", "one"),
        ("aloud", "zebra"),
    ];
    for (old, new) in replacements {
        let text = poem.replace(old, new);
        let stanza = to_stanza(&text, &poem_dict);
        assert!(is_shakespearean_sonnet(&unique_interp(&stanza)).is_err());
    }
}

#[test]
fn test_best_interpretation_of_sonnet() {
    let test_dictionary = vec!["a AH0"];
    let mut dict = DictionaryImpl::new();
    dict.insert_all(&test_dictionary).unwrap();

    let line = "a a a a a a a a a a\n";
    let correct = to_stanza(&line.repeat(14), &dict);
    let (_, errors) = poet::best_interpretation(&correct);
    assert!(errors.is_empty());

    let broken = to_stanza(&line.repeat(13), &dict);
    let (_, errors) = poet::best_interpretation(&broken);
    assert_eq!(errors.len(), 1);
    assert_eq!(
        errors[0].to_text(),
        "Stanza: Expected 14 lines but the stanza has 13."
    );
}

#[test]
fn test_check_stanza_for_unknown_words() {
    let test_dictionary = vec!["a AH0"];
    let mut dict = DictionaryImpl::new();
    dict.insert_all(&test_dictionary).unwrap();

    let known = to_stanza("a a
a a", &dict);
    assert!(poet::check_stanza_for_unknown_words(&unique_interp(&known)).is_ok());

    let unknown = to_stanza("a mystery
a a", &dict);
    let r = poet::check_stanza_for_unknown_words(&unique_interp(&unknown));
    let errors = r.unwrap_err();
    assert_eq!(errors.len(), 1);
    assert_eq!(
        errors[0].to_text(),
        "Stanza: Warning: The text has some unknown words. Analysis may suffer."
    );
}

#[test]
fn test_summarize_to_text() {
    let test_dictionary = vec!["a AH0"];
    let mut dict = DictionaryImpl::new();
    dict.insert_all(&test_dictionary).unwrap();

    let text = "Title Here\n\na a\na nope\n";
    let stanzas = get_stanzas_from_text(&text, &dict);
    assert_eq!(stanzas.len(), 1);
    let summary = stanzas[0].summarize_to_text();
    assert_eq!(
        summary,
        "TITLE: Title Here\n\
         a a\n\
         \ta: \"a\" (AH0); variant=1, syllables=1\n\
         \ta: \"a\" (AH0); variant=1, syllables=1\n\
         \n\
         a nope\n\
         \ta: \"a\" (AH0); variant=1, syllables=1\n\
         \tnope: None.\n\
         \n\
         Warning: The text has some unknown words. Analysis may suffer.\n"
    );
}
