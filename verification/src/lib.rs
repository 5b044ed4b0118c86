//! A phonetic dictionary and poetic-form analyzer.
//!
//! The library parses a phonetic lexicon (one word with its pronunciation per
//! line), answers lookup and rhyme-similarity queries over it, splits raw text
//! into stanzas, enumerates the pronunciation interpretations of a stanza, and
//! classifies interpretations against verse forms (haiku, Shakespearean
//! sonnet).

pub mod classify;
pub mod datamuse;
pub mod dictionary;
pub mod entry;
pub mod interp;
pub mod phoneme;
pub mod snippet;
pub mod strutil;

pub use classify::{
    best_interpretation, check_line_has_num_syllables, check_lines_rhyme,
    check_stanza_for_unknown_words, check_stanza_has_num_lines, is_haiku, is_shakespearean_sonnet,
    ClassifyError,
};
pub use datamuse::{Client, UrlBuilder, WordsApiItem};
pub use dictionary::{Dictionary, DictionaryImpl, SimilarResult, SimilarWord};
pub use entry::{Entry, LexiconError};
pub use interp::{InterpretationsIter, LineView, StanzaView};
pub use phoneme::Phonemes;
pub use snippet::{get_stanzas_from_text, normalize_for_lookup, Line, Stanza, Token};
