//! The word-service request builder and response model.
//!
//! The remote word service is queried over HTTP by the surrounding
//! application; this module owns the two computations around that call: the
//! request URL (percent-encoded query parameters) and the conversion of one
//! response item into a lexicon entry.

use vstd::prelude::*;
use vstd::utf8::encode_utf8;

use crate::entry::{Entry, LexiconError};
use crate::phoneme::is_phoneme;
use crate::strutil::{
    chars_to_string, dec_rep, dec_string, digit_to_char, has_prefix, split_ws, str_chars,
};

verus! {

/// A client for the remote word service; the HTTP call itself lives with the
/// surrounding application.
pub struct Client {}

impl Client {
    /// Creates a new client.
    pub fn new() -> Client {
        Client {}
    }
}

/// A byte the form-urlencoded serializer keeps as itself: ASCII alphanumerics
/// and `* - . _`.
pub open spec fn form_unchanged(b: u8) -> bool {
    b == 42 || b == 45 || b == 46 || (48 <= b && b <= 57) || (65 <= b && b <= 90) || b == 95 || (97
        <= b && b <= 122)
}

/// An uppercase hexadecimal digit.
pub open spec fn hex_char(d: u8) -> char {
    if d < 10 {
        digit_to_char(d as nat)
    } else if d == 10 {
        'A'
    } else if d == 11 {
        'B'
    } else if d == 12 {
        'C'
    } else if d == 13 {
        'D'
    } else if d == 14 {
        'E'
    } else {
        'F'
    }
}

/// One byte under form-urlencoding: kept, turned into `+` for a space, or
/// percent-escaped with two uppercase hex digits.
pub open spec fn enc_byte(b: u8) -> Seq<char> {
    if b == 32 {
        seq!['+']
    } else if form_unchanged(b) {
        seq![b as char]
    } else {
        seq!['%', hex_char(b / 16), hex_char(b % 16)]
    }
}

/// A byte string under form-urlencoding.
pub open spec fn form_encode_bytes(bs: Seq<u8>) -> Seq<char>
    decreases bs.len(),
{
    if bs.len() == 0 {
        Seq::empty()
    } else {
        form_encode_bytes(bs.drop_last()) + enc_byte(bs.last())
    }
}

/// A string under form-urlencoding: its UTF-8 bytes, encoded.
pub open spec fn encode_component(s: Seq<char>) -> Seq<char> {
    form_encode_bytes(encode_utf8(s))
}

/// A whole query string: `k=v` pairs, percent-encoded and joined by `&`.
pub open spec fn urlquery(pairs: Seq<(Seq<char>, Seq<char>)>) -> Seq<char>
    decreases pairs.len(),
{
    if pairs.len() == 0 {
        Seq::empty()
    } else {
        urlquery(pairs.drop_last()) + (if pairs.len() > 1 {
            seq!['&']
        } else {
            Seq::empty()
        }) + encode_component(pairs.last().0) + seq!['='] + encode_component(pairs.last().1)
    }
}

/// Relies on `url::form_urlencoded::byte_serialize`: every alphanumeric byte
/// and `* - . _` passes through, a space becomes `+`, and any other byte
/// becomes `%` followed by its two uppercase hex digits.
#[verifier::external_body]
fn urlencode_component(s: &str) -> (r: String)
    ensures
        r@ == form_encode_bytes(encode_utf8(s@)),
{
    url::form_urlencoded::byte_serialize(s.as_bytes()).collect()
}

/// The abstract value of a `UrlBuilder`.
pub struct UbView {
    pub sounds_like: Option<Seq<char>>,
    pub spelled_like: Option<Seq<char>>,
    pub query_echo: bool,
    pub max: Option<usize>,
    pub want_syllable_count: bool,
    pub want_pronunciation: bool,
}

/// A builder for word-service request URLs: set the query constraints, then
/// finish with `build`.
pub struct UrlBuilder {
    sounds_like: Option<String>,
    spelled_like: Option<String>,
    query_echo: bool,
    max: Option<usize>,
    want_syllable_count: bool,
    want_pronunciation: bool,
}

impl View for UrlBuilder {
    type V = UbView;

    closed spec fn view(&self) -> UbView {
        UbView {
            sounds_like: self.sounds_like.deep_view(),
            spelled_like: self.spelled_like.deep_view(),
            query_echo: self.query_echo,
            max: self.max,
            want_syllable_count: self.want_syllable_count,
            want_pronunciation: self.want_pronunciation,
        }
    }
}

/// The query pairs a builder's URL carries, in order: the sounds-like and
/// spelled-like constraints, the query-echo marker, the result cap, and the
/// metadata flags (`s` for syllable counts, `r` for pronunciations).
pub open spec fn build_pairs(ub: UbView) -> Seq<(Seq<char>, Seq<char>)> {
    let base = pairs_after_max(ub);
    let flags = md_flags(ub);
    if flags.len() > 0 {
        base.push(("md"@, flags))
    } else {
        base
    }
}

/// The pairs after the sounds-like constraint.
pub open spec fn pairs_after_sl(ub: UbView) -> Seq<(Seq<char>, Seq<char>)> {
    if ub.sounds_like is Some {
        Seq::<(Seq<char>, Seq<char>)>::empty().push(("sl"@, ub.sounds_like->Some_0))
    } else {
        Seq::<(Seq<char>, Seq<char>)>::empty()
    }
}

/// The pairs after the spelled-like constraint.
pub open spec fn pairs_after_sp(ub: UbView) -> Seq<(Seq<char>, Seq<char>)> {
    if ub.spelled_like is Some {
        pairs_after_sl(ub).push(("sp"@, ub.spelled_like->Some_0))
    } else {
        pairs_after_sl(ub)
    }
}

/// The pairs after the query-echo marker.
pub open spec fn pairs_after_qe(ub: UbView) -> Seq<(Seq<char>, Seq<char>)> {
    if ub.query_echo {
        if ub.spelled_like is Some {
            pairs_after_sp(ub).push(("qe"@, "sp"@))
        } else {
            pairs_after_sp(ub).push(("qe"@, "sl"@))
        }
    } else {
        pairs_after_sp(ub)
    }
}

/// The pairs after the result cap.
pub open spec fn pairs_after_max(ub: UbView) -> Seq<(Seq<char>, Seq<char>)> {
    if ub.max is Some {
        pairs_after_qe(ub).push(("max"@, dec_rep(ub.max->Some_0 as nat)))
    } else {
        pairs_after_qe(ub)
    }
}

/// The metadata flags of a request: `s` to ask for syllable counts, `r` to
/// ask for pronunciations.
pub open spec fn md_flags(ub: UbView) -> Seq<char> {
    (if ub.want_syllable_count {
        seq!['s']
    } else {
        Seq::<char>::empty()
    }) + (if ub.want_pronunciation {
        seq!['r']
    } else {
        Seq::<char>::empty()
    })
}

impl UrlBuilder {
    /// A fresh builder: no constraints, pronunciations requested.
    pub fn new() -> (r: UrlBuilder)
        ensures
            (r@ == UbView {
                sounds_like: None::<Seq<char>>,
                spelled_like: None::<Seq<char>>,
                query_echo: false,
                max: None::<usize>,
                want_syllable_count: false,
                want_pronunciation: true,
            }),
    {
        UrlBuilder {
            sounds_like: None,
            spelled_like: None,
            query_echo: false,
            max: None,
            want_syllable_count: false,
            want_pronunciation: true,
        }
    }

    /// Requires results spelled like `term`.
    pub fn spelled_like(self, term: &str) -> (r: Self)
        ensures
            (r@ == UbView { spelled_like: Some(term@), ..self@ }),
    {
        UrlBuilder { spelled_like: Some(term.to_owned()), ..self }
    }

    /// Requires results pronounced like `term`.
    pub fn sounds_like(self, term: &str) -> (r: Self)
        ensures
            (r@ == UbView { sounds_like: Some(term@), ..self@ }),
    {
        UrlBuilder { sounds_like: Some(term.to_owned()), ..self }
    }

    /// Asks the service to echo the query word as the first result, for exact
    /// lookups; caps the results at one.
    pub fn query_echo(self) -> (r: Self)
        ensures
            (r@ == UbView { query_echo: true, max: Some(1usize), ..self@ }),
    {
        UrlBuilder { query_echo: true, max: Some(1), ..self }
    }

    /// Caps the number of results; the service accepts at most 1000.
    pub fn max(self, max: usize) -> (r: Self)
        requires
            max <= 1000,
        ensures
            (r@ == UbView { max: Some(max), ..self@ }),
    {
        UrlBuilder { max: Some(max), ..self }
    }

    /// Asks the service for syllable-count estimates.
    pub fn want_syllables(self) -> (r: Self)
        ensures
            (r@ == UbView { want_syllable_count: true, ..self@ }),
    {
        UrlBuilder { want_syllable_count: true, ..self }
    }

    /// Builds the request URL: the service's words endpoint with the
    /// percent-encoded query pairs of this builder.
    #[verifier::loop_isolation(false)]
    #[verifier::rlimit(100)]
    #[verifier::spinoff_prover]
    pub fn build(&self) -> (r: String)
        ensures
            r@ == "https://api.datamuse.com/words?"@ + urlquery(build_pairs(self@)),
    {
        let mut pairs: Vec<(String, String)> = Vec::new();
        if let Some(term) = &self.sounds_like {
            pairs.push((String::from_str("sl"), term.clone()));
        }
        proof {
            assert(pairs.deep_view() =~~= pairs_after_sl(self@));
        }
        if let Some(term) = &self.spelled_like {
            pairs.push((String::from_str("sp"), term.clone()));
        }
        proof {
            assert(pairs.deep_view() =~~= pairs_after_sp(self@));
        }
        if self.query_echo {
            if self.spelled_like.is_some() {
                pairs.push((String::from_str("qe"), String::from_str("sp")));
            } else {
                pairs.push((String::from_str("qe"), String::from_str("sl")));
            }
        }
        proof {
            assert(pairs.deep_view() =~~= pairs_after_qe(self@));
        }
        if let Some(n) = &self.max {
            pairs.push((String::from_str("max"), dec_string(*n)));
        }
        proof {
            assert(pairs.deep_view() =~~= pairs_after_max(self@));
        }
        let mut flags = String::new();
        if self.want_syllable_count {
            flags.append("s");
        }
        if self.want_pronunciation {
            flags.append("r");
        }
        proof {
            reveal_strlit("s");
            reveal_strlit("r");
            assert(flags@ =~= md_flags(self@));
        }
        if flags.as_str().unicode_len() > 0 {
            pairs.push((String::from_str("md"), flags));
        }
        proof {
            assert(pairs.deep_view() =~~= build_pairs(self@));
        }
        let mut out = String::from_str("https://api.datamuse.com/words?");
        let query = encode_pairs(&pairs);
        out.append(query.as_str());
        out
    }
}

/// Percent-encodes and joins query pairs with `&`.
fn encode_pairs(pairs: &Vec<(String, String)>) -> (r: String)
    ensures
        r@ == urlquery(pairs.deep_view()),
{
    let mut out = String::new();
    let n = pairs.len();
    let mut i: usize = 0;
    proof {
        assert(pairs.deep_view().subrange(0, 0) =~= Seq::<(Seq<char>, Seq<char>)>::empty());
        assert(out@ =~= urlquery(pairs.deep_view().subrange(0, 0)));
    }
    while i < n
        invariant
            i <= n,
            n == pairs@.len(),
            out@ == urlquery(pairs.deep_view().subrange(0, i as int)),
        decreases n - i,
    {
        if i > 0 {
            out.append("&");
            proof {
                reveal_strlit("&");
            }
        }
        let k = urlencode_component(pairs[i].0.as_str());
        out.append(k.as_str());
        out.append("=");
        let v = urlencode_component(pairs[i].1.as_str());
        out.append(v.as_str());
        proof {
            reveal_strlit("=");
            assert(pairs@[i as int].0@ == pairs.deep_view()[i as int].0);
            assert(pairs@[i as int].1@ == pairs.deep_view()[i as int].1);
        }
        i = i + 1;
        proof {
            let sub1 = pairs.deep_view().subrange(0, i as int);
            assert(sub1.drop_last() =~= pairs.deep_view().subrange(0, i - 1));
            assert(sub1.last() == pairs.deep_view()[i - 1]);
            assert(out@ =~= urlquery(sub1));
        }
    }
    proof {
        assert(pairs.deep_view().subrange(0, n as int) =~= pairs.deep_view());
    }
    out
}

/// The phoneme text of a response item: its first `pron:` tag without the
/// prefix, or nothing when no such tag is present.
pub open spec fn pron_text(tags: Seq<Seq<char>>) -> Seq<char> {
    match first_pron(tags) {
        Some(t) => t,
        None => Seq::empty(),
    }
}

/// The first tag carrying a pronunciation, with its `pron:` prefix removed.
pub open spec fn first_pron(tags: Seq<Seq<char>>) -> Option<Seq<char>>
    decreases tags.len(),
{
    if tags.len() == 0 {
        None
    } else if has_prefix(tags[0], "pron:"@) {
        Some(tags[0].skip("pron:"@.len() as int))
    } else {
        first_pron(tags.skip(1))
    }
}

/// One item of the word service's response: a word with its score and tags;
/// a `pron:` tag carries whitespace-separated phonemes.
#[allow(non_snake_case)]
pub struct WordsApiItem {
    /// The word found.
    pub word: String,
    /// The service's relevance score.
    pub score: i32,
    /// The service's syllable-count estimate, when requested.
    pub numSyllables: Option<usize>,
    /// Metadata tags; pronunciations arrive as `pron:PH1 PH2 ...`.
    pub tags: Vec<String>,
}

impl WordsApiItem {
    /// Converts this response item to a lexicon entry: the word with the
    /// phonemes of its first `pron:` tag (or no phonemes when none is
    /// present), rejected if a phoneme breaks the grammar.
    #[verifier::loop_isolation(false)]
    pub fn to_entry(&self) -> (r: Result<Entry, LexiconError>)
        ensures
            (r matches Ok(e) ==> e@.word == self.word@ && e@.variant == 1u32 && e@.phonemes
                == split_ws(pron_text(self.tags.deep_view())) && e.wf()),
            (r matches Err(err) ==> err == LexiconError::BadPhoneme && !(forall|i: int|
                0 <= i < split_ws(pron_text(self.tags.deep_view())).len() ==> is_phoneme(
                    #[trigger] split_ws(pron_text(self.tags.deep_view()))[i],
                ))),
    {
        let ghost tagviews = self.tags.deep_view();
        let n = self.tags.len();
        let mut i: usize = 0;
        proof {
            reveal_strlit("pron:");
        }
        proof {
            assert(tagviews.skip(0) =~= tagviews);
        }
        while i < n
            invariant
                i <= n,
                first_pron(tagviews) == first_pron(tagviews.skip(i as int)),
            decreases n - i,
        {
            let tag = &self.tags[i];
            let tc = str_chars(tag.as_str());
            let pc = str_chars("pron:");
            proof {
                assert(tagviews.skip(i as int)[0] == tagviews[i as int]);
                assert(tc@ == tagviews[i as int]);
            }
            if crate::strutil::starts_with_chars(&tc, &pc) {
                // Found the pronunciation tag: take everything after "pron:".
                let mut rest: Vec<char> = Vec::new();
                let mut j: usize = 5;
                proof {
                    assert(pc@.len() == 5);
                    assert(rest@ =~= tc@.subrange(5, 5));
                }
                while j < tc.len()
                    invariant
                        5 <= j <= tc@.len(),
                        tc@.len() >= 5,
                        rest@ == tc@.subrange(5, j as int),
                    decreases tc@.len() - j,
                {
                    rest.push(tc[j]);
                    j = j + 1;
                    assert(rest@ =~= tc@.subrange(5, j as int));
                }
                proof {
                    assert(rest@ =~= tagviews[i as int].skip(5));
                    assert(first_pron(tagviews) == Some(rest@));
                }
                let text = chars_to_string(&rest);
                let result = Entry::from_parts(self.word.as_str(), text.as_str());
                proof {
                    assert(first_pron(self.tags.deep_view()) is Some);
                    assert(text@ == first_pron(self.tags.deep_view())->Some_0);
                    assert(text@ == pron_text(self.tags.deep_view()));
                    match &result {
                        Ok(e) => {
                            assert(e@.phonemes == split_ws(text@));
                        },
                        Err(err) => {
                            assert(*err == LexiconError::BadPhoneme);
                            let ws = split_ws(text@);
                            assert(!(forall|i: int|
                                0 <= i < ws.len() ==> is_phoneme(#[trigger] ws[i])));
                            let k = choose|i: int| 0 <= i < ws.len() && !is_phoneme(ws[i]);
                            assert(!is_phoneme(split_ws(pron_text(self.tags.deep_view()))[k]));
                        },
                    }
                }
                return result;
            }
            proof {
                assert(tagviews.skip(i as int).skip(1) =~= tagviews.skip(i + 1));
            }
            i = i + 1;
        }
        proof {
            assert(tagviews.skip(n as int) =~= Seq::<Seq<char>>::empty());
            assert(first_pron(tagviews) is None);
        }
        let r = Entry::from_parts(self.word.as_str(), "");
        proof {
            reveal_strlit("");
            assert(""@ =~= Seq::<char>::empty());
        }
        r
    }
}

} // verus!
