//! Lexicon entries: one word, its pronunciation variant, and its phonemes,
//! parsed from one line of lexicon text.
//!
//! The line grammar is `WORD[(VARIANT)] PH1 PH2 ...[# comment]`: everything
//! from the first `#` is dropped, the rest splits on whitespace, the first
//! token is the word with an optional `(N)` variant marker, and every further
//! token must be a phoneme code.

use vstd::prelude::*;

use crate::phoneme::{count_stressed, is_phoneme, join_spaces, last_syllables, rev_key, Phonemes};
use crate::strutil::{
    chars_to_string, dec_rep, dec_string, dec_val, digit_to_char, digit_val, is_digit_char,
    lemma_run_of_unique, run_of, split_whitespace, split_ws, str_chars,
};

verus! {

/// Why a lexicon line was rejected.
#[derive(Clone, Copy, Debug, PartialEq, Eq, Structural)]
pub enum LexiconError {
    /// The line holds no token at all (it is empty or comment-only).
    MissingWord,
    /// A phoneme token does not follow the phoneme grammar.
    BadPhoneme,
    /// The `(N)` variant marker holds a number too large to represent.
    VariantOutOfRange,
}

/// A character allowed inside the word field of a lexicon term.
pub open spec fn is_word_char(c: char) -> bool {
    c != ' ' && c != '(' && c != ')' && c != '#'
}

/// The word-field predicate as a function value, shared by specs and proofs.
pub open spec fn word_char_p() -> spec_fn(char) -> bool {
    |c: char| is_word_char(c)
}

/// The digit predicate as a function value, shared by specs and proofs.
pub open spec fn digit_char_p() -> spec_fn(char) -> bool {
    |c: char| is_digit_char(c)
}

/// The line up to (excluding) its first `#`.
pub open spec fn strip_comment(s: Seq<char>) -> Seq<char>
    decreases s.len(),
{
    if s.len() == 0 {
        s
    } else if s[0] == '#' {
        Seq::empty()
    } else {
        seq![s[0]] + strip_comment(s.skip(1))
    }
}

/// `strip_comment` is the prefix ending at the first `#`.
pub proof fn lemma_strip_comment(s: Seq<char>, h: int)
    requires
        0 <= h <= s.len(),
        forall|j: int| 0 <= j < h ==> s[j] != '#',
        h < s.len() ==> s[h] == '#',
    ensures
        strip_comment(s) == s.subrange(0, h),
    decreases s.len(),
{
    if s.len() == 0 {
        assert(strip_comment(s) =~= s.subrange(0, h));
    } else if s[0] == '#' {
        assert(h == 0);
        assert(strip_comment(s) =~= s.subrange(0, h));
    } else {
        assert(h >= 1);
        assert forall|j: int| 0 <= j < h - 1 implies s.skip(1)[j] != '#' by {
            assert(s.skip(1)[j] == s[j + 1]);
        }
        if h - 1 < s.skip(1).len() {
            assert(s.skip(1)[h - 1] == s[h]);
        }
        lemma_strip_comment(s.skip(1), h - 1);
        assert(strip_comment(s) =~= s.subrange(0, h));
    }
}

/// The run of word characters opening a term token.
pub open spec fn word_run(t: Seq<char>) -> nat {
    run_of(t, word_char_p())
}

/// The word field of a term token: its longest word-character prefix.
pub open spec fn term_word(t: Seq<char>) -> Seq<char> {
    t.subrange(0, word_run(t) as int)
}

/// Whether the word field is followed by a complete `(N)` variant marker.
pub open spec fn term_has_variant(t: Seq<char>) -> bool {
    let k = word_run(t) as int;
    if k < t.len() && t[k] == '(' {
        let d = run_of(t.skip(k + 1), digit_char_p()) as int;
        d >= 1 && k + 1 + d < t.len() && t[k + 1 + d] == ')'
    } else {
        false
    }
}

/// The digits of the `(N)` variant marker.
pub open spec fn term_digits(t: Seq<char>) -> Seq<char> {
    let k = word_run(t) as int;
    let d = run_of(t.skip(k + 1), digit_char_p()) as int;
    t.subrange(k + 1, k + 1 + d)
}

/// The variant number of a term token; 1 when no marker is present.
pub open spec fn term_variant(t: Seq<char>) -> nat {
    if term_has_variant(t) {
        dec_val(term_digits(t))
    } else {
        1
    }
}

/// The whitespace tokens of a lexicon line, after comment stripping.
pub open spec fn line_tokens(s: Seq<char>) -> Seq<Seq<char>> {
    split_ws(strip_comment(s))
}

/// The phoneme tokens of a lexicon line: everything after the term.
pub open spec fn line_phonemes(s: Seq<char>) -> Seq<Seq<char>> {
    line_tokens(s).skip(1)
}

/// Whether a lexicon line parses: it has a first token, its variant number is
/// representable, and every further token is a phoneme code.
pub open spec fn line_parses(s: Seq<char>) -> bool {
    &&& line_tokens(s).len() > 0
    &&& term_variant(line_tokens(s)[0]) <= u32::MAX
    &&& forall|i: int| 0 <= i < line_phonemes(s).len() ==> is_phoneme(#[trigger] line_phonemes(s)[i])
}

/// The entry a parsable lexicon line denotes.
pub open spec fn line_entry_view(s: Seq<char>) -> EntryView {
    EntryView {
        word: term_word(line_tokens(s)[0]),
        phonemes: line_phonemes(s),
        variant: term_variant(line_tokens(s)[0]) as u32,
    }
}

/// The dictionary key of a word and variant: the word itself for variant 1,
/// else `word(N)`.
pub open spec fn dict_key_of(w: Seq<char>, v: u32) -> Seq<char> {
    if v == 1 {
        w
    } else {
        w + seq!['('] + dec_rep(v as nat) + seq![')']
    }
}

/// The sort key of an entry: its reversed phonemes, then its dictionary key to
/// separate homophones.
pub open spec fn entry_key(ev: EntryView) -> Seq<char> {
    rev_key(ev.phonemes) + dict_key_of(ev.word, ev.variant)
}

/// The abstract value of an `Entry`.
pub struct EntryView {
    pub word: Seq<char>,
    pub phonemes: Seq<Seq<char>>,
    pub variant: u32,
}

/// One word with one pronunciation: a single row of the lexicon.
#[derive(Debug, PartialEq)]
pub struct Entry {
    /// The word as listed, e.g. "flower", "let's", "a.m.".
    pub word: String,
    /// The parsed phonemes of this pronunciation.
    pub phonemes: Phonemes,
    /// The pronunciation variant, numbered from 1.
    pub variant: u32,
}

impl View for Entry {
    type V = EntryView;

    open spec fn view(&self) -> EntryView {
        EntryView { word: self.word@, phonemes: self.phonemes@, variant: self.variant }
    }
}

impl DeepView for Entry {
    type V = EntryView;

    open spec fn deep_view(&self) -> EntryView {
        self@
    }
}

impl Entry {
    /// The stored syllable count.
    pub open spec fn syl(&self) -> nat {
        self.phonemes.syl()
    }

    /// The phonemes follow the grammar and the syllable count is derived from
    /// them.
    pub open spec fn wf(&self) -> bool {
        self.phonemes.wf()
    }

    /// Parses one line of lexicon text.
    ///
    /// The syllable count of the result is the number of phonemes carrying a
    /// stress digit (`wf`). Each error names what failed: no token at all, a
    /// malformed phoneme token, or an unrepresentable variant number.
    #[verifier::loop_isolation(false)]
    pub fn new(line: &str) -> (r: Result<Entry, LexiconError>)
        ensures
            match r {
                Ok(e) => {
                    &&& line_parses(line@)
                    &&& e@ == line_entry_view(line@)
                    &&& e.wf()
                },
                Err(err) => {
                    &&& !line_parses(line@)
                    &&& (err == LexiconError::MissingWord <==> line_tokens(line@).len() == 0)
                    &&& (err == LexiconError::VariantOutOfRange <==> line_tokens(line@).len() > 0
                        && term_variant(line_tokens(line@)[0]) > u32::MAX)
                },
            },
    {
        let cs = str_chars(line);
        // Strip everything from the first '#'.
        let n = cs.len();
        let mut h: usize = 0;
        while h < n && cs[h] != '#'
            invariant
                h <= n,
                n == cs@.len(),
                forall|j: int| 0 <= j < h ==> cs@[j] != '#',
            decreases n - h,
        {
            h = h + 1;
        }
        let mut body: Vec<char> = Vec::new();
        let mut j: usize = 0;
        while j < h
            invariant
                j <= h <= n,
                n == cs@.len(),
                body@ == cs@.subrange(0, j as int),
            decreases h - j,
        {
            body.push(cs[j]);
            j = j + 1;
            assert(body@ =~= cs@.subrange(0, j as int));
        }
        proof {
            lemma_strip_comment(cs@, h as int);
        }
        let mut toks = split_whitespace(&body);
        let ghost all_toks = toks.deep_view();
        proof {
            assert(all_toks == line_tokens(line@));
        }
        if toks.len() == 0 {
            return Err(LexiconError::MissingWord);
        }
        let term = toks.remove(0);
        proof {
            assert(toks.deep_view() =~~= all_toks.skip(1));
            assert(term@ == all_toks[0]);
        }
        // The word field: the longest run of word characters.
        let tn = term.len();
        let mut k: usize = 0;
        while k < tn && word_char(term[k])
            invariant
                k <= tn,
                tn == term@.len(),
                forall|i: int| 0 <= i < k ==> is_word_char(#[trigger] term@[i]),
            decreases tn - k,
        {
            k = k + 1;
        }
        proof {
            assert forall|i: int| 0 <= i < k implies word_char_p()(#[trigger] term@[i]) by {}
            if k < tn {
                assert(!word_char_p()(term@[k as int]));
            }
            lemma_run_of_unique(term@, word_char_p(), k as int);
        }
        let mut word_chars: Vec<char> = Vec::new();
        let mut j2: usize = 0;
        while j2 < k
            invariant
                j2 <= k <= tn,
                tn == term@.len(),
                word_chars@ == term@.subrange(0, j2 as int),
            decreases k - j2,
        {
            word_chars.push(term[j2]);
            j2 = j2 + 1;
            assert(word_chars@ =~= term@.subrange(0, j2 as int));
        }
        let word = chars_to_string(&word_chars);
        // The optional (N) variant marker.
        let mut variant: u32 = 1;
        if k < tn && term[k] == '(' {
            let ghost after = term@.skip(k + 1);
            let mut d: usize = k + 1;
            while d < tn && digit_char_x(term[d])
                invariant
                    k + 1 <= d <= tn,
                    tn == term@.len(),
                    forall|i: int| k + 1 <= i < d ==> is_digit_char(#[trigger] term@[i]),
                decreases tn - d,
            {
                d = d + 1;
            }
            let dlen = d - (k + 1);
            proof {
                assert forall|i: int| 0 <= i < dlen implies digit_char_p()(#[trigger] after[i]) by {
                    assert(after[i] == term@[k + 1 + i]);
                }
                if dlen < after.len() {
                    assert(after[dlen as int] == term@[d as int]);
                }
                lemma_run_of_unique(after, digit_char_p(), dlen as int);
            }
            if dlen >= 1 && d < tn && term[d] == ')' {
                assert(term_has_variant(term@));
                let ghost ds = term_digits(term@);
                proof {
                    assert(ds =~= term@.subrange(k + 1, d as int));
                }
                // Parse the digits, watching for overflow.
                let mut v: u32 = 0;
                let mut p: usize = k + 1;
                while p < d
                    invariant
                        k + 1 <= p <= d <= tn,
                        tn == term@.len(),
                        ds == term@.subrange(k + 1, d as int),
                        forall|i: int| k + 1 <= i < d ==> is_digit_char(#[trigger] term@[i]),
                        v as nat == dec_val(ds.subrange(0, p - (k + 1))),
                    decreases d - p,
                {
                    let c = term[p];
                    let dv = (c as u32) - 48;
                    let ghost pre = ds.subrange(0, p + 1 - (k + 1));
                    proof {
                        assert(pre.drop_last() =~= ds.subrange(0, p - (k + 1)));
                        assert(pre.last() == term@[p as int]);
                        assert(digit_val(term@[p as int]) == dv as nat);
                    }
                    let m = match v.checked_mul(10) {
                        Some(m) => m,
                        None => {
                            proof {
                                assert(dec_val(pre) > u32::MAX);
                                lemma_dec_val_mono(ds, p + 1 - (k + 1));
                                assert(term_variant(term@) > u32::MAX);
                            }
                            return Err(LexiconError::VariantOutOfRange);
                        },
                    };
                    let s = match m.checked_add(dv) {
                        Some(s) => s,
                        None => {
                            proof {
                                assert(dec_val(pre) > u32::MAX);
                                lemma_dec_val_mono(ds, p + 1 - (k + 1));
                                assert(term_variant(term@) > u32::MAX);
                            }
                            return Err(LexiconError::VariantOutOfRange);
                        },
                    };
                    v = s;
                    p = p + 1;
                }
                proof {
                    assert(ds.subrange(0, ds.len() as int) =~= ds);
                    assert(v as nat == term_variant(term@));
                }
                variant = v;
            } else {
                proof {
                    assert(!term_has_variant(term@));
                }
            }
        } else {
            assert(!term_has_variant(term@));
        }
        proof {
            assert(variant as nat == term_variant(term@));
        }
        // Everything after the term must be phoneme codes.
        let phonemes = match Phonemes::from_tokens(&toks) {
            Some(p) => p,
            None => {
                proof {
                    assert(toks.deep_view() == line_phonemes(line@));
                    assert(!(forall|i: int|
                        0 <= i < line_phonemes(line@).len() ==> is_phoneme(
                            #[trigger] line_phonemes(line@)[i],
                        )));
                    assert(!line_parses(line@));
                }
                return Err(LexiconError::BadPhoneme);
            },
        };
        let e = Entry { word, phonemes, variant };
        proof {
            assert(e@.phonemes == line_phonemes(line@));
        }
        Ok(e)
    }

    /// Builds an entry for `word` (variant 1) from whitespace-separated
    /// phoneme text, as the lexicon line grammar reads it.
    pub fn from_parts(word: &str, phoneme_text: &str) -> (r: Result<Entry, LexiconError>)
        ensures
            match r {
                Ok(e) => {
                    &&& e@.word == word@
                    &&& e@.variant == 1u32
                    &&& e@.phonemes == split_ws(phoneme_text@)
                    &&& e.wf()
                },
                Err(err) => {
                    &&& err == LexiconError::BadPhoneme
                    &&& !(forall|i: int|
                        0 <= i < split_ws(phoneme_text@).len() ==> is_phoneme(
                            #[trigger] split_ws(phoneme_text@)[i],
                        ))
                },
            },
    {
        let cs = str_chars(phoneme_text);
        let toks = split_whitespace(&cs);
        let phonemes = match Phonemes::from_tokens(&toks) {
            Some(p) => p,
            None => {
                return Err(LexiconError::BadPhoneme);
            },
        };
        Ok(Entry { word: word.to_owned(), phonemes, variant: 1 })
    }

    /// Whether this entry rhymes with another: their final syllables share the
    /// same phonemes.
    pub fn rhymes_with(&self, other: &Self) -> (r: bool)
        ensures
            r == (last_syllables(self@.phonemes, 1) == last_syllables(other@.phonemes, 1)),
    {
        self.phonemes.rhymes_with(&other.phonemes)
    }

    /// The number of syllables: the number of stressed phonemes.
    pub fn num_syllables(&self) -> (r: usize)
        ensures
            r as nat == self.syl(),
            self.wf() ==> r as nat == count_stressed(self@.phonemes),
    {
        self.phonemes.num_syllables()
    }

    /// The term as it would appear in the source lexicon: the word, with a
    /// `(N)` suffix for variants past the first.
    pub fn dict_key(&self) -> (r: String)
        ensures
            r@ == dict_key_of(self@.word, self@.variant),
    {
        if self.variant == 1 {
            self.word.clone()
        } else {
            let mut out = String::new();
            out.append(self.word.as_str());
            out.append("(");
            let digits = dec_string(self.variant as usize);
            out.append(digits.as_str());
            out.append(")");
            proof {
                reveal_strlit("(");
                reveal_strlit(")");
                assert(out@ =~= dict_key_of(self@.word, self@.variant));
            }
            out
        }
    }

    /// The sort key placing similar-sounding entries together: the reversed
    /// phonemes, then the dictionary key to separate homophones.
    pub fn similarity_key(&self) -> (r: Vec<char>)
        ensures
            r@ == entry_key(self@),
    {
        let mut r = self.phonemes.similarity_key();
        let ghost mid = r@;
        let key = self.dict_key();
        let cs = str_chars(key.as_str());
        let mut i: usize = 0;
        while i < cs.len()
            invariant
                i <= cs@.len(),
                r@ == mid + cs@.subrange(0, i as int),
            decreases cs@.len() - i,
        {
            r.push(cs[i]);
            i = i + 1;
            assert(r@ =~= mid + cs@.subrange(0, i as int));
        }
        proof {
            assert(cs@.subrange(0, cs@.len() as int) =~= cs@);
            assert(r@ =~= entry_key(self@));
        }
        r
    }

    /// The reversed phonemes of the last `n` syllables, the prefix used to
    /// group rhyme candidates.
    pub fn similarity_prefix(&self, syllable_count: usize) -> (r: Vec<char>)
        ensures
            r@ == last_syllables(self@.phonemes, syllable_count as nat),
    {
        self.phonemes.last_syllables_key(syllable_count)
    }

    /// A deep copy with the same word, phonemes and variant.
    pub fn duplicate(&self) -> (r: Self)
        ensures
            r@ == self@,
            r.syl() == self.syl(),
    {
        Entry { word: self.word.clone(), phonemes: self.phonemes.duplicate(), variant: self.variant }
    }

    /// A one-line description: the word, phonemes, variant and syllable count.
    pub fn to_text(&self) -> (r: String)
        ensures
            r@ == entry_text(self@, self.syl()),
    {
        let mut out = String::new();
        out.append("\"");
        out.append(self.word.as_str());
        out.append("\" (");
        let ph = self.phonemes.to_text();
        out.append(ph.as_str());
        out.append("); variant=");
        let v = dec_string(self.variant as usize);
        out.append(v.as_str());
        out.append(", syllables=");
        let s = dec_string(self.num_syllables());
        out.append(s.as_str());
        out
    }
}

/// Law: a parsed entry's syllable count equals the number of its phonemes
/// that carry a stress digit. This is the well-formedness every constructor
/// establishes; `num_syllables` returns the stored count.
pub proof fn lemma_syllable_count_is_derived(e: Entry)
    requires
        e.wf(),
    ensures
        e.syl() == count_stressed(e@.phonemes),
{
}

/// Copies a list of entries, keeping views and well-formedness.
pub fn duplicate_list(v: &Vec<Entry>) -> (r: Vec<Entry>)
    ensures
        r.deep_view() == v.deep_view(),
        r@.len() == v@.len(),
        forall|j: int| 0 <= j < v@.len() && (#[trigger] v@[j]).wf() ==> r@[j].wf(),
{
    let n = v.len();
    let mut r: Vec<Entry> = Vec::new();
    let mut i: usize = 0;
    while i < n
        invariant
            i <= n,
            n == v@.len(),
            r@.len() == i,
            forall|j: int| 0 <= j < i ==> (#[trigger] r@[j])@ == v@[j]@,
            forall|j: int| 0 <= j < i && (#[trigger] v@[j]).wf() ==> r@[j].wf(),
        decreases n - i,
    {
        r.push(v[i].duplicate());
        i = i + 1;
    }
    proof {
        assert(r.deep_view() =~~= v.deep_view());
    }
    r
}

/// The display form of an entry: its word quoted, its phonemes, its variant
/// and its syllable count.
pub open spec fn entry_text(ev: EntryView, syl: nat) -> Seq<char> {
    "\""@ + ev.word + "\" ("@ + join_spaces(ev.phonemes) + "); variant="@ + dec_rep(
        ev.variant as nat,
    ) + ", syllables="@ + dec_rep(syl)
}

/// Exec test for a word-field character.
fn word_char(c: char) -> (r: bool)
    ensures
        r == is_word_char(c),
{
    c != ' ' && c != '(' && c != ')' && c != '#'
}

/// Exec test for a decimal digit.
fn digit_char_x(c: char) -> (r: bool)
    ensures
        r == is_digit_char(c),
{
    '0' <= c && c <= '9'
}

/// A digit-sequence prefix never exceeds the whole value.
proof fn lemma_dec_val_mono(s: Seq<char>, j: int)
    requires
        0 <= j <= s.len(),
    ensures
        dec_val(s.subrange(0, j)) <= dec_val(s),
    decreases s.len() - j,
{
    if j == s.len() {
        assert(s.subrange(0, j) =~= s);
    } else {
        let a = s.subrange(0, j);
        let b = s.subrange(0, j + 1);
        assert(b.drop_last() =~= a);
        assert(dec_val(b) == dec_val(a) * 10 + digit_val(b.last()));
        lemma_dec_val_mono(s, j + 1);
    }
}

/// Law: a dictionary key round-trips through the term grammar. Parsing the
/// key of a word made of word characters yields the word and variant back.
pub proof fn lemma_dict_key_round_trip(w: Seq<char>, v: u32)
    requires
        forall|i: int| 0 <= i < w.len() ==> is_word_char(#[trigger] w[i]),
        v >= 1,
    ensures
        term_word(dict_key_of(w, v)) == w,
        term_variant(dict_key_of(w, v)) == v as nat,
{
    let t = dict_key_of(w, v);
    if v == 1 {
        assert forall|i: int| 0 <= i < w.len() implies word_char_p()(#[trigger] t[i]) by {}
        lemma_run_of_unique(t, word_char_p(), w.len() as int);
        assert(term_word(t) =~= w);
        assert(!term_has_variant(t));
    } else {
        let digits = dec_rep(v as nat);
        lemma_dec_rep_digits(v as nat);
        assert(t.len() == w.len() + 2 + digits.len());
        assert forall|i: int| 0 <= i < w.len() implies word_char_p()(#[trigger] t[i]) by {
            assert(t[i] == w[i]);
        }
        assert(t[w.len() as int] == '(');
        assert(!word_char_p()(t[w.len() as int]));
        lemma_run_of_unique(t, word_char_p(), w.len() as int);
        assert(term_word(t) =~= w);
        let after = t.skip(w.len() as int + 1);
        assert forall|i: int| 0 <= i < digits.len() implies digit_char_p()(#[trigger] after[i]) by {
            assert(after[i] == digits[i]);
        }
        assert(after[digits.len() as int] == ')');
        assert(!digit_char_p()(after[digits.len() as int]));
        lemma_run_of_unique(after, digit_char_p(), digits.len() as int);
        assert(digits.len() >= 1);
        assert(t[w.len() as int + 1 + digits.len() as int] == ')');
        assert(term_has_variant(t));
        assert(term_digits(t) =~= digits);
        lemma_dec_val_of_rep(v as nat);
    }
}

/// Every character of a decimal representation is a digit, and it is nonempty.
pub proof fn lemma_dec_rep_digits(n: nat)
    ensures
        dec_rep(n).len() >= 1,
        forall|i: int| 0 <= i < dec_rep(n).len() ==> is_digit_char(#[trigger] dec_rep(n)[i]),
    decreases n,
{
    if n >= 10 {
        lemma_dec_rep_digits(n / 10);
    }
}

/// Reading a decimal representation back yields the number.
pub proof fn lemma_dec_val_of_rep(n: nat)
    ensures
        dec_val(dec_rep(n)) == n,
    decreases n,
{
    if n < 10 {
        lemma_digit_val_to_char(n);
        assert(dec_rep(n).drop_last() =~= Seq::<char>::empty());
        assert(dec_rep(n).last() == digit_to_char(n));
        assert(dec_val(dec_rep(n)) == dec_val(Seq::<char>::empty()) * 10 + digit_val(
            digit_to_char(n),
        ));
        assert(dec_val(dec_rep(n)) == n);
    } else {
        lemma_dec_val_of_rep(n / 10);
        lemma_digit_val_to_char(n % 10);
        assert(dec_rep(n).drop_last() =~= dec_rep(n / 10));
        assert(dec_rep(n).last() == digit_to_char(n % 10));
        assert(dec_val(dec_rep(n)) == (n / 10) * 10 + n % 10);
        vstd::arithmetic::div_mod::lemma_fundamental_div_mod(n as int, 10);
    }
}

/// The value of a digit character made from a digit is that digit.
proof fn lemma_digit_val_to_char(d: nat)
    requires
        d < 10,
    ensures
        digit_val(digit_to_char(d)) == d,
{
    if d == 0 {
        assert(digit_val('0') == 0);
    } else if d == 1 {
        assert(digit_val('1') == 1);
    } else if d == 2 {
        assert(digit_val('2') == 2);
    } else if d == 3 {
        assert(digit_val('3') == 3);
    } else if d == 4 {
        assert(digit_val('4') == 4);
    } else if d == 5 {
        assert(digit_val('5') == 5);
    } else if d == 6 {
        assert(digit_val('6') == 6);
    } else if d == 7 {
        assert(digit_val('7') == 7);
    } else if d == 8 {
        assert(digit_val('8') == 8);
    } else {
        assert(digit_val('9') == 9);
    }
}

} // verus!
