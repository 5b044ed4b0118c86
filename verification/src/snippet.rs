//! Snippets: raw text split into stanzas of analyzed lines.
//!
//! A stanza is a contiguous block of at least two non-blank lines. A single
//! non-blank line directly before such a block becomes its title. Each line is
//! tokenized against a dictionary, keeping every pronunciation variant of
//! every known word.

use vstd::prelude::*;

use crate::dictionary::DictionaryImpl;
use crate::entry::{duplicate_list, entry_text, Entry, EntryView};
use crate::phoneme::count_stressed;
use crate::strutil::{
    chars_to_string, lower_of, lowercase, space_string, spaces, split_lines, split_whitespace,
    split_ws, str_chars, text_lines, trim_chars, trim_spec,
};
use vstd::utf8::encode_utf8;

verus! {

/// A character the normalizer removes outright.
pub open spec fn is_removed_char(c: char) -> bool {
    c == '!' || c == ',' || c == '?' || c == ':' || c == ';' || c == '"' || c == '\u{201c}' || c
        == '\u{201d}'
}

/// A character that shows a word continuing after a period: anything the
/// normalizer neither removes nor maps, other than a period itself.
pub open spec fn is_word_cont(c: char) -> bool {
    !is_removed_char(c) && c != '\u{2019}' && c != '.'
}

/// One character after scrubbing: dropped, mapped to an ASCII apostrophe, or
/// kept.
pub open spec fn scrub_char(c: char) -> Seq<char> {
    if is_removed_char(c) {
        Seq::empty()
    } else if c == '\u{2019}' {
        seq!['\'']
    } else {
        seq![c]
    }
}

/// The text with removed characters dropped and curly apostrophes mapped.
pub open spec fn scrub(s: Seq<char>) -> Seq<char>
    decreases s.len(),
{
    if s.len() == 0 {
        Seq::empty()
    } else {
        scrub(s.drop_last()) + scrub_char(s.last())
    }
}

/// Whether some period is followed, anywhere later, by a word character: then
/// periods belong to the word (as in `a.m.`) and are kept.
pub open spec fn has_inner_period(s: Seq<char>) -> bool {
    exists|i: int, j: int| 0 <= i < j < s.len() && s[i] == '.' && is_word_cont(s[j])
}

/// The text with all periods dropped.
pub open spec fn drop_dots(s: Seq<char>) -> Seq<char>
    decreases s.len(),
{
    if s.len() == 0 {
        Seq::empty()
    } else {
        drop_dots(s.drop_last()) + if s.last() == '.' {
            Seq::empty()
        } else {
            seq![s.last()]
        }
    }
}

/// What normalization does after lowercasing: scrub punctuation, drop periods
/// unless one sits inside the word, and strip trailing dashes.
pub open spec fn normalize_scrubbed(s: Seq<char>) -> Seq<char> {
    let t1 = scrub(s);
    let t2 = if has_inner_period(s) {
        t1
    } else {
        drop_dots(t1)
    };
    crate::strutil::drop_trailing(t2, '-')
}

/// The full normalization of a raw word: lowercased, then scrubbed.
pub open spec fn normalize_spec(w: Seq<char>) -> Seq<char> {
    normalize_scrubbed(lower_of(w))
}

/// Normalizes one word for dictionary lookup: lowercases; removes
/// `! , ? : ; "` and curly double quotes; maps the curly apostrophe to `'`;
/// drops periods unless a period is followed by more of the word (so `a.m.`
/// survives and `found...` loses its dots); and strips trailing dashes.
#[verifier::loop_isolation(false)]
pub fn normalize_for_lookup(term: &str) -> (r: String)
    ensures
        r@ == normalize_spec(term@),
{
    let low = lowercase(term);
    let cs = str_chars(low.as_str());
    let n = cs.len();
    let mut out: Vec<char> = Vec::new();
    let mut found_period = false;
    let mut has_inner = false;
    let mut i: usize = 0;
    proof {
        assert(cs@.subrange(0, 0) =~= Seq::<char>::empty());
        assert(out@ =~= scrub(cs@.subrange(0, 0)));
    }
    while i < n
        invariant
            i <= n,
            out@ == scrub(cs@.subrange(0, i as int)),
            found_period == exists|k: int| 0 <= k < i && cs@[k] == '.',
            has_inner == exists|k: int, j: int|
                0 <= k < j < i && cs@[k] == '.' && is_word_cont(cs@[j]),
        decreases n - i,
    {
        let c = cs[i];
        let ghost pre = cs@.subrange(0, i + 1);
        proof {
            assert(pre.drop_last() =~= cs@.subrange(0, i as int));
            assert(pre.last() == cs@[i as int]);
        }
        if c == '!' || c == ',' || c == '?' || c == ':' || c == ';' || c == '"' || c == '\u{201c}'
            || c == '\u{201d}' {
            proof {
                assert(out@ =~= scrub(pre));
            }
        } else if c == '\u{2019}' {
            out.push('\'');
            proof {
                assert(out@ =~= scrub(pre));
            }
        } else if c == '.' {
            out.push('.');
            found_period = true;
            proof {
                assert(out@ =~= scrub(pre));
                assert(cs@[i as int] == '.');
            }
        } else {
            out.push(c);
            proof {
                assert(out@ =~= scrub(pre));
                assert(is_word_cont(cs@[i as int]));
            }
            if found_period {
                has_inner = true;
            }
        }
        i = i + 1;
        proof {
            if found_period {
                assert(exists|k: int| 0 <= k < i && cs@[k] == '.');
            }
            if has_inner {
                assert(exists|k: int, j: int|
                    0 <= k < j < i && cs@[k] == '.' && is_word_cont(cs@[j]));
            }
        }
    }
    proof {
        assert(cs@.subrange(0, n as int) =~= cs@);
    }
    let mut kept: Vec<char>;
    if has_inner {
        kept = out;
    } else {
        // No inner periods: drop all periods (sentence ends, ellipses).
        kept = Vec::new();
        let m = out.len();
        let mut j: usize = 0;
        proof {
            assert(out@.subrange(0, 0) =~= Seq::<char>::empty());
            assert(kept@ =~= drop_dots(out@.subrange(0, 0)));
        }
        while j < m
            invariant
                j <= m,
                kept@ == drop_dots(out@.subrange(0, j as int)),
            decreases m - j,
        {
            let ghost pre = out@.subrange(0, j + 1);
            proof {
                assert(pre.drop_last() =~= out@.subrange(0, j as int));
                assert(pre.last() == out@[j as int]);
            }
            if out[j] != '.' {
                kept.push(out[j]);
            }
            j = j + 1;
            proof {
                assert(kept@ =~= drop_dots(pre));
            }
        }
        proof {
            assert(out@.subrange(0, m as int) =~= out@);
        }
    }
    while kept.len() > 0 && kept[kept.len() - 1] == '-'
        invariant
            crate::strutil::drop_trailing(kept@, '-') == normalize_spec(term@),
        decreases kept@.len(),
    {
        let ghost before = kept@;
        kept.pop();
        proof {
            assert(kept@ =~= before.drop_last());
        }
    }
    proof {
        assert(crate::strutil::drop_trailing(kept@, '-') == kept@);
    }
    chars_to_string(&kept)
}

/// The abstract value of a `Token`.
pub struct TokenView {
    pub text: Seq<char>,
    pub entry: Option<Seq<EntryView>>,
}

/// A token: one word of the original text, normalized, with the dictionary
/// entries of the word when it is known.
pub struct Token {
    /// The text, after passing through `normalize_for_lookup`.
    pub text: String,
    /// The dictionary entries for the word, if the word is known.
    pub entry: Option<Vec<Entry>>,
}

impl View for Token {
    type V = TokenView;

    open spec fn view(&self) -> TokenView {
        TokenView { text: self.text@, entry: self.entry.deep_view() }
    }
}

impl DeepView for Token {
    type V = TokenView;

    open spec fn deep_view(&self) -> TokenView {
        self@
    }
}

impl Token {
    /// A known word's entry list is nonempty, and its entries are well formed.
    pub open spec fn wf(&self) -> bool {
        match self.entry {
            Some(l) => l@.len() > 0 && forall|j: int| 0 <= j < l@.len() ==> (#[trigger] l@[j]).wf(),
            None => true,
        }
    }
}

impl Token {
    /// A deep copy with the same text and entries.
    pub fn duplicate(&self) -> (r: Token)
        requires
            self.wf(),
        ensures
            r@ == self@,
            r.wf(),
    {
        let entry = match &self.entry {
            Some(v) => {
                let d = duplicate_list(v);
                proof {
                    assert(d@.len() > 0);
                    assert forall|j: int| 0 <= j < d@.len() implies (#[trigger] d@[j]).wf() by {
                        assert(v@[j].wf());
                    }
                }
                Some(d)
            },
            None => None,
        };
        let r = Token { text: self.text.clone(), entry };
        proof {
            assert(r@.entry == self@.entry);
        }
        r
    }
}

/// What tokenizing one raw word against a dictionary yields.
pub open spec fn token_spec(dict: DictionaryImpl, w: Seq<char>) -> TokenView {
    let norm = normalize_spec(w);
    TokenView {
        text: norm,
        entry: if dict.has_word(norm) {
            Some(dict.entries_of(norm))
        } else {
            None
        },
    }
}

/// The tokenizer as a function value over one dictionary.
pub open spec fn token_spec_p(dict: DictionaryImpl) -> spec_fn(Seq<char>) -> TokenView {
    |w: Seq<char>| token_spec(dict, w)
}

/// The abstract value of a `Line`.
pub struct LineModel {
    pub raw_text: Seq<char>,
    pub num: nat,
    pub index: nat,
    pub tokens: Seq<TokenView>,
}

/// A single line of a stanza: its trimmed text, its position, and its tokens.
pub struct Line {
    /// The user-entered text of the line, trimmed.
    pub raw_text: String,
    /// The line number in the original text, 1-indexed.
    pub num: usize,
    /// The index of the line within the enclosing stanza, 0-indexed.
    pub index: usize,
    /// The tokenized version of `raw_text`.
    pub tokens: Vec<Token>,
}

impl View for Line {
    type V = LineModel;

    open spec fn view(&self) -> LineModel {
        LineModel {
            raw_text: self.raw_text@,
            num: self.num as nat,
            index: self.index as nat,
            tokens: self.tokens.deep_view(),
        }
    }
}

impl DeepView for Line {
    type V = LineModel;

    open spec fn deep_view(&self) -> LineModel {
        self@
    }
}

/// What tokenizing one raw line yields: each whitespace-separated word,
/// normalized and looked up.
pub open spec fn line_spec(dict: DictionaryImpl, raw: Seq<char>, num: nat, index: nat) -> LineModel {
    LineModel {
        raw_text: raw,
        num,
        index,
        tokens: split_ws(raw).map_values(token_spec_p(dict)),
    }
}

impl Line {
    /// Every token is well formed.
    pub open spec fn wf(&self) -> bool {
        forall|j: int| 0 <= j < self.tokens@.len() ==> (#[trigger] self.tokens@[j]).wf()
    }

    /// Tokenizes one line: split on whitespace, normalize each word, and look
    /// it up, keeping every variant found.
    #[verifier::loop_isolation(false)]
    pub fn new_from_line(raw: &str, line_num: usize, index: usize, dict: &DictionaryImpl) -> (r:
        Line)
        requires
            dict.wf(),
        ensures
            r@ == line_spec(*dict, raw@, line_num as nat, index as nat),
            r.wf(),
    {
        let cs = str_chars(raw);
        let words = split_whitespace(&cs);
        let ghost ws = words.deep_view();
        let n = words.len();
        let mut tokens: Vec<Token> = Vec::new();
        let mut i: usize = 0;
        while i < n
            invariant
                i <= n,
                tokens.deep_view() =~= ws.subrange(0, i as int).map_values(token_spec_p(*dict)),
                forall|j: int| 0 <= j < tokens@.len() ==> (#[trigger] tokens@[j]).wf(),
            decreases n - i,
        {
            let word = &words[i];
            proof {
                assert(word@ == ws[i as int]);
            }
            let text = normalize_for_lookup_chars(word);
            let entry: Option<Vec<Entry>> = match dict.lookup(text.as_str()) {
                Some(v) => {
                    let d = duplicate_list(v);
                    proof {
                        assert(d@.len() > 0);
                        assert forall|j: int| 0 <= j < d@.len() implies (
                        #[trigger] d@[j]).wf() by {
                            assert(v@[j].wf());
                        }
                        assert(d.deep_view() == dict.entries_of(text@));
                    }
                    Some(d)
                },
                None => None,
            };
            let tok = Token { text, entry };
            proof {
                assert(tok@.entry == token_spec(*dict, ws[i as int]).entry);
                assert(tok@ == token_spec_p(*dict)(ws[i as int]));
                assert(tok.wf());
            }
            let ghost prevdeep = tokens.deep_view();
            tokens.push(tok);
            i = i + 1;
            proof {
                let f = token_spec_p(*dict);
                assert(tokens.deep_view() =~~= prevdeep.push(tok@));
                assert(ws.subrange(0, i as int) =~= ws.subrange(0, i - 1).push(ws[i - 1]));
                ws.subrange(0, i - 1).lemma_push_map_commute(f, ws[i - 1]);
                assert(tokens.deep_view() =~~= ws.subrange(0, i as int).map_values(f));
            }
        }
        proof {
            assert(ws.subrange(0, n as int) =~= ws);
        }
        let r = Line { raw_text: raw.to_owned(), num: line_num, index, tokens };
        proof {
            assert(r@.tokens == line_spec(*dict, raw@, line_num as nat, index as nat).tokens);
        }
        r
    }

    /// A deep copy of the line and its tokens.
    pub fn duplicate(&self) -> (r: Line)
        requires
            self.wf(),
        ensures
            r@ == self@,
            r.wf(),
    {
        let n = self.tokens.len();
        let mut tokens: Vec<Token> = Vec::new();
        let mut i: usize = 0;
        while i < n
            invariant
                i <= n,
                n == self.tokens@.len(),
                self.wf(),
                tokens@.len() == i,
                forall|j: int| 0 <= j < i ==> (#[trigger] tokens@[j])@ == self.tokens@[j]@,
                forall|j: int| 0 <= j < i ==> (#[trigger] tokens@[j]).wf(),
            decreases n - i,
        {
            proof {
                assert(self.tokens@[i as int].wf());
            }
            tokens.push(self.tokens[i].duplicate());
            i = i + 1;
        }
        let r = Line {
            raw_text: self.raw_text.clone(),
            num: self.num,
            index: self.index,
            tokens,
        };
        proof {
            assert(r@.tokens =~= self@.tokens);
        }
        r
    }

    /// Whether any word of the line is missing from the dictionary.
    pub fn has_unknown_words(&self) -> (r: bool)
        ensures
            r == line_has_unknown(self@.tokens),
    {
        let n = self.tokens.len();
        let mut i: usize = 0;
        while i < n
            invariant
                i <= n,
                n == self.tokens@.len(),
                forall|j: int| 0 <= j < i ==> !(#[trigger] self@.tokens[j].entry is None),
            decreases n - i,
        {
            if self.tokens[i].entry.is_none() {
                proof {
                    assert(self@.tokens[i as int].entry is None);
                }
                return true;
            }
            i = i + 1;
        }
        false
    }
}

/// Normalizes a word already held as characters.
fn normalize_for_lookup_chars(w: &Vec<char>) -> (r: String)
    ensures
        r@ == normalize_spec(w@),
{
    let s = chars_to_string(w);
    normalize_for_lookup(s.as_str())
}

/// Whether a token list holds a word with no dictionary entry.
pub open spec fn line_has_unknown(tokens: Seq<TokenView>) -> bool {
    exists|j: int| 0 <= j < tokens.len() && tokens[j].entry is None
}

/// The abstract value of a `Stanza`.
pub struct StanzaModel {
    pub lines: Seq<LineModel>,
    pub title: Option<Seq<char>>,
}

/// A contiguous block of analyzed lines, with an optional title.
pub struct Stanza {
    /// The analyzed lines of the stanza.
    pub lines: Vec<Line>,
    /// The single line preceding the stanza, if there was one.
    pub title: Option<String>,
}

impl View for Stanza {
    type V = StanzaModel;

    open spec fn view(&self) -> StanzaModel {
        StanzaModel { lines: self.lines.deep_view(), title: self.title.deep_view() }
    }
}

impl DeepView for Stanza {
    type V = StanzaModel;

    open spec fn deep_view(&self) -> StanzaModel {
        self@
    }
}

/// Whether any line of the stanza model holds an unknown word.
pub open spec fn stanza_has_unknown(lines: Seq<LineModel>) -> bool {
    exists|i: int| 0 <= i < lines.len() && line_has_unknown(lines[i].tokens)
}

/// The title banner of a summary, empty when there is no title.
pub open spec fn title_text(title: Option<Seq<char>>) -> Seq<char> {
    match title {
        Some(t) => "TITLE: "@ + t + "\n"@,
        None => Seq::empty(),
    }
}

/// The summary rows of the first `k` entries of one token: the token's text on
/// the first row, space padding (one per byte of the text) on the rest, then
/// the entry's description.
pub open spec fn entries_text(text: Seq<char>, evs: Seq<EntryView>, k: int) -> Seq<char>
    decreases k,
{
    if k <= 0 {
        Seq::empty()
    } else {
        entries_text(text, evs, k - 1) + "\t"@ + (if k == 1 {
            text
        } else {
            spaces((encode_utf8(text).len() as usize) as nat)
        }) + ": "@ + entry_text(evs[k - 1], count_stressed(evs[k - 1].phonemes)) + "\n"@
    }
}

/// The summary rows of one token: its entries, or a `None.` row for an
/// unknown word.
pub open spec fn token_text(tv: TokenView) -> Seq<char> {
    match tv.entry {
        Some(evs) => entries_text(tv.text, evs, evs.len() as int),
        None => "\t"@ + tv.text + ": None.\n"@,
    }
}

/// The summary rows of a token prefix, in order.
pub open spec fn tokens_text(ts: Seq<TokenView>) -> Seq<char>
    decreases ts.len(),
{
    if ts.len() == 0 {
        Seq::empty()
    } else {
        tokens_text(ts.drop_last()) + token_text(ts.last())
    }
}

/// The summary block of one line: its raw text, its token rows, and a blank
/// row.
pub open spec fn line_text(lv: LineModel) -> Seq<char> {
    lv.raw_text + "\n"@ + tokens_text(lv.tokens) + "\n"@
}

/// The summary blocks of a line prefix, in order.
pub open spec fn lines_text(ls: Seq<LineModel>) -> Seq<char>
    decreases ls.len(),
{
    if ls.len() == 0 {
        Seq::empty()
    } else {
        lines_text(ls.drop_last()) + line_text(ls.last())
    }
}

/// The whole summary: the title banner, each line's block, and a warning when
/// some word is unknown.
pub open spec fn stanza_text(sm: StanzaModel) -> Seq<char> {
    title_text(sm.title) + lines_text(sm.lines) + if stanza_has_unknown(sm.lines) {
        "Warning: The text has some unknown words. Analysis may suffer.\n"@
    } else {
        Seq::empty()
    }
}

/// The state of the stanza builder: finished stanzas, the lines of the block
/// being read, and a pending title candidate.
pub struct BuildState {
    pub out: Seq<StanzaModel>,
    pub cur: Seq<LineModel>,
    pub cand: Option<Seq<char>>,
}

/// The builder's empty starting state.
pub open spec fn build_init() -> BuildState {
    BuildState { out: Seq::empty(), cur: Seq::empty(), cand: None }
}

/// One step of the stanza builder on a raw line: comments are skipped; a
/// blank line closes the block (a one-line block becomes a title candidate, a
/// block of two or more lines becomes a stanza carrying the candidate); any
/// other line joins the block.
pub open spec fn build_step(
    dict: DictionaryImpl,
    st: BuildState,
    raw: Seq<char>,
    line_no: nat,
) -> BuildState {
    let t = trim_spec(raw);
    if t.len() > 0 && t[0] == '#' {
        st
    } else if t.len() == 0 {
        if st.cur.len() == 0 {
            st
        } else if st.cur.len() == 1 {
            BuildState { out: st.out, cur: Seq::empty(), cand: Some(st.cur[0].raw_text) }
        } else {
            BuildState {
                out: st.out.push(StanzaModel { lines: st.cur, title: st.cand }),
                cur: Seq::empty(),
                cand: None,
            }
        }
    } else {
        BuildState {
            out: st.out,
            cur: st.cur.push(line_spec(dict, t, line_no + 1, st.cur.len())),
            cand: st.cand,
        }
    }
}

/// The builder's state after the first `k` lines.
pub open spec fn build_fold(dict: DictionaryImpl, lines: Seq<Seq<char>>, k: int) -> BuildState
    decreases k,
{
    if k <= 0 {
        build_init()
    } else {
        build_step(dict, build_fold(dict, lines, k - 1), lines[k - 1], (k - 1) as nat)
    }
}

/// The stanzas of a whole text: the builder folded over its lines, with a
/// final block of two or more lines kept.
pub open spec fn stanzas_spec(dict: DictionaryImpl, input: Seq<char>) -> Seq<StanzaModel> {
    let lines = split_lines(input);
    let st = build_fold(dict, lines, lines.len() as int);
    if st.cur.len() >= 2 {
        st.out.push(StanzaModel { lines: st.cur, title: st.cand })
    } else {
        st.out
    }
}

/// A line the builder reads as blank.
pub open spec fn is_blank_line(raw: Seq<char>) -> bool {
    trim_spec(raw).len() == 0
}

/// A line the builder keeps: neither blank nor a comment.
pub open spec fn is_text_line(raw: Seq<char>) -> bool {
    trim_spec(raw).len() > 0 && trim_spec(raw)[0] != '#'
}

/// The line models of a block of kept lines starting at source line `base`.
pub open spec fn block_models(dict: DictionaryImpl, block: Seq<Seq<char>>, base: nat) -> Seq<
    LineModel,
> {
    Seq::new(block.len(), |i: int| line_spec(dict, trim_spec(block[i]), (base + i + 1) as nat, i as nat))
}

/// Law: a blank line never opens an empty stanza. With no block being read, a
/// blank line leaves the builder's state untouched, so runs of blank lines
/// emit nothing.
pub proof fn lemma_blank_line_keeps_state(
    dict: DictionaryImpl,
    st: BuildState,
    raw: Seq<char>,
    line_no: nat,
)
    requires
        is_blank_line(raw),
        st.cur.len() == 0,
    ensures
        build_step(dict, st, raw, line_no) == st,
{
}

/// Law: a single kept line, then a blank line, then a block of two or more
/// kept lines parses as one stanza that carries the single line as its title.
pub proof fn lemma_title_assignment(
    dict: DictionaryImpl,
    t: Seq<char>,
    b: Seq<char>,
    block: Seq<Seq<char>>,
)
    requires
        is_text_line(t),
        is_blank_line(b),
        block.len() >= 2,
        forall|i: int| 0 <= i < block.len() ==> is_text_line(#[trigger] block[i]),
    ensures
        ({
            let lines = seq![t] + seq![b] + block;
            let st = build_fold(dict, lines, lines.len() as int);
            st.cur == block_models(dict, block, 2) && st.cand == Some(trim_spec(t)) && st.out
                == Seq::<StanzaModel>::empty()
        }),
{
    let lines = seq![t] + seq![b] + block;
    assert(lines[0] == t);
    assert(lines[1] == b);
    assert(build_fold(dict, lines, 0) == build_init());
    let st1 = build_fold(dict, lines, 1);
    assert(st1 == build_step(dict, build_init(), t, 0));
    assert(st1.cur =~= seq![line_spec(dict, trim_spec(t), 1, 0)]);
    assert(st1.out == Seq::<StanzaModel>::empty());
    let st2 = build_fold(dict, lines, 2);
    assert(st2.cur =~= Seq::<LineModel>::empty());
    assert(st2.cand == Some(trim_spec(t)));
    assert(st2.out == Seq::<StanzaModel>::empty());
    lemma_block_fold(dict, lines, block.len() as int);
    assert(build_fold(dict, lines, lines.len() as int).cur =~= block_models(dict, block, 2));
}

/// Folding over `m` kept block lines (after a title and a blank line) only
/// grows the current block.
proof fn lemma_block_fold(dict: DictionaryImpl, lines: Seq<Seq<char>>, m: int)
    requires
        lines.len() >= 2 + m,
        0 <= m,
        forall|i: int| 2 <= i < 2 + m ==> is_text_line(#[trigger] lines[i]),
        build_fold(dict, lines, 2).cur == Seq::<LineModel>::empty(),
    ensures
        build_fold(dict, lines, 2 + m).out == build_fold(dict, lines, 2).out,
        build_fold(dict, lines, 2 + m).cand == build_fold(dict, lines, 2).cand,
        build_fold(dict, lines, 2 + m).cur == Seq::new(
            m as nat,
            |i: int| line_spec(dict, trim_spec(lines[2 + i]), (2 + i + 1) as nat, i as nat),
        ),
    decreases m,
{
    if m == 0 {
        assert(build_fold(dict, lines, 2).cur =~= Seq::new(
            0,
            |i: int| line_spec(dict, trim_spec(lines[2 + i]), (2 + i + 1) as nat, i as nat),
        ));
    } else {
        lemma_block_fold(dict, lines, m - 1);
        let prev = build_fold(dict, lines, 2 + m - 1);
        let raw = lines[2 + m - 1];
        assert(is_text_line(raw));
        assert(build_fold(dict, lines, 2 + m) == build_step(
            dict,
            prev,
            raw,
            (2 + m - 1) as nat,
        ));
        assert(build_fold(dict, lines, 2 + m).cur =~= Seq::new(
            m as nat,
            |i: int| line_spec(dict, trim_spec(lines[2 + i]), (2 + i + 1) as nat, i as nat),
        ));
    }
}

/// A nonempty trimmed line starts with a non-whitespace character.
proof fn lemma_trim_first(s: Seq<char>)
    ensures
        trim_spec(s).len() > 0 ==> !crate::strutil::is_space_char(trim_spec(s)[0]),
{
    let a = crate::strutil::run_of(s, crate::strutil::space_p()) as int;
    crate::strutil::lemma_run_of(s, crate::strutil::space_p());
    let core = s.skip(a);
    lemma_drop_trailing_prefix(core);
    if trim_spec(s).len() > 0 {
        assert(trim_spec(s)[0] == core[0]);
        assert(core[0] == s[a]);
    }
}

/// Dropping trailing whitespace keeps the front characters.
proof fn lemma_drop_trailing_prefix(s: Seq<char>)
    ensures
        crate::strutil::drop_trailing_spaces(s).len() <= s.len(),
        forall|i: int|
            0 <= i < crate::strutil::drop_trailing_spaces(s).len()
                ==> crate::strutil::drop_trailing_spaces(s)[i] == s[i],
    decreases s.len(),
{
    if s.len() > 0 && crate::strutil::is_space_char(s.last()) {
        lemma_drop_trailing_prefix(s.drop_last());
        let d = crate::strutil::drop_trailing_spaces(s);
        assert forall|i: int| 0 <= i < d.len() implies d[i] == s[i] by {
            assert(d == crate::strutil::drop_trailing_spaces(s.drop_last()));
            assert(d[i] == s.drop_last()[i]);
        }
    }
}

/// Finds and analyzes all stanzas in the given text.
///
/// Lines starting (after trimming) with `#` are comments and skipped. Blank
/// lines separate blocks. A block is kept as a stanza only when it has at
/// least two lines; a single line directly before a kept block becomes that
/// stanza's title.
#[verifier::loop_isolation(false)]
pub fn get_stanzas_from_text(input: &str, dict: &DictionaryImpl) -> (r: Vec<Stanza>)
    requires
        dict.wf(),
    ensures
        r.deep_view() == stanzas_spec(*dict, input@),
        forall|i: int| 0 <= i < r@.len() ==> (#[trigger] r@[i]).wf(),
{
    let cs = str_chars(input);
    let lines = text_lines(&cs);
    let ghost lm = lines.deep_view();
    let mut out: Vec<Stanza> = Vec::new();
    let mut cur: Vec<Line> = Vec::new();
    let mut cand: Option<String> = None;
    let n = lines.len();
    let mut k: usize = 0;
    proof {
        assert(out.deep_view() =~~= build_fold(*dict, lm, 0).out);
        assert(cur.deep_view() =~~= build_fold(*dict, lm, 0).cur);
        assert(cand.deep_view() == build_fold(*dict, lm, 0).cand);
    }
    while k < n
        invariant
            k <= n,
            out.deep_view() == build_fold(*dict, lm, k as int).out,
            cur.deep_view() == build_fold(*dict, lm, k as int).cur,
            cand.deep_view() == build_fold(*dict, lm, k as int).cand,
            forall|i: int| 0 <= i < out@.len() ==> (#[trigger] out@[i]).wf(),
            forall|i: int| 0 <= i < cur@.len() ==> (#[trigger] cur@[i]).wf(),
            forall|i: int| 0 <= i < cur@.len() ==> (#[trigger] cur@[i])@.tokens.len() > 0,
        decreases n - k,
    {
        let raw = &lines[k];
        proof {
            assert(raw@ == lm[k as int]);
        }
        let t = trim_chars(raw);
        let ghost st = build_fold(*dict, lm, k as int);
        let ghost st1 = build_fold(*dict, lm, k + 1);
        proof {
            assert(st1 == build_step(*dict, st, lm[k as int], k as nat));
        }
        if t.len() > 0 && t[0] == '#' {
            // Comment line: skipped entirely.
        } else if t.len() == 0 {
            if cur.len() == 0 {
                // Nothing pending.
            } else if cur.len() == 1 {
                cand = Some(cur[0].raw_text.clone());
                cur = Vec::new();
                proof {
                    assert(cur.deep_view() =~~= st1.cur);
                }
            } else {
                let stanza = Stanza { lines: cur, title: cand };
                proof {
                    assert(stanza.wf());
                    assert(stanza@ == StanzaModel { lines: st.cur, title: st.cand });
                }
                let ghost prev = out.deep_view();
                out.push(stanza);
                cur = Vec::new();
                cand = None;
                proof {
                    assert(out.deep_view() =~~= prev.push(StanzaModel {
                        lines: st.cur,
                        title: st.cand,
                    }));
                    assert(cur.deep_view() =~~= st1.cur);
                }
            }
        } else {
            let text = chars_to_string(&t);
            let line = Line::new_from_line(text.as_str(), k + 1, cur.len(), dict);
            proof {
                assert(line@ == line_spec(*dict, trim_spec(lm[k as int]), k as nat + 1, st.cur.len()));
                lemma_trim_first(lm[k as int]);
                assert(!crate::strutil::is_space_char(t@[0]));
                assert(split_ws(t@).len() >= 1);
                assert(line@.tokens.len() > 0);
            }
            let ghost prevcur = cur.deep_view();
            cur.push(line);
            proof {
                assert(cur.deep_view() =~~= prevcur.push(line@));
            }
        }
        k = k + 1;
    }
    proof {
        assert(build_fold(*dict, lm, n as int).cur == cur.deep_view());
    }
    if cur.len() >= 2 {
        let stanza = Stanza { lines: cur, title: cand };
        proof {
            assert(stanza.wf());
        }
        let ghost prev = out.deep_view();
        out.push(stanza);
        proof {
            assert(out.deep_view() =~~= prev.push(stanza@));
            assert(out.deep_view() =~~= stanzas_spec(*dict, input@));
        }
    } else {
        proof {
            assert(out.deep_view() =~~= stanzas_spec(*dict, input@));
        }
    }
    out
}

impl Stanza {
    /// Every line is well formed and has at least one token.
    pub open spec fn wf(&self) -> bool {
        &&& forall|i: int| 0 <= i < self.lines@.len() ==> (#[trigger] self.lines@[i]).wf()
        &&& forall|i: int| 0 <= i < self.lines@.len() ==> (#[trigger] self.lines@[i])@.tokens.len() > 0
    }

    /// The number of lines in the stanza.
    pub fn num_lines(&self) -> (r: usize)
        ensures
            r == self@.lines.len(),
    {
        self.lines.len()
    }

    /// A plain-text summary of the stanza: each line's text followed by the
    /// dictionary entries of each of its words.
    pub fn summarize_to_text(&self) -> (r: String)
        requires
            self.wf(),
        ensures
            r@ == stanza_text(self@),
    {
        let mut out = String::new();
        if let Some(title) = &self.title {
            out.append("TITLE: ");
            out.append(title.as_str());
            out.append("\n");
        }
        let n = self.lines.len();
        let mut i: usize = 0;
        proof {
            assert(self@.lines.subrange(0, 0) =~= Seq::<LineModel>::empty());
            assert(out@ =~= title_text(self@.title) + lines_text(self@.lines.subrange(0, 0)));
        }
        while i < n
            invariant
                i <= n,
                n == self@.lines.len(),
                self.wf(),
                out@ == title_text(self@.title) + lines_text(self@.lines.subrange(0, i as int)),
            decreases n - i,
        {
            let line = &self.lines[i];
            proof {
                assert(line@ == self@.lines[i as int]);
            }
            out.append(line.raw_text.as_str());
            out.append("\n");
            let m = line.tokens.len();
            let mut t: usize = 0;
            let ghost linestart = out@;
            proof {
                assert(line@.tokens.subrange(0, 0) =~= Seq::<TokenView>::empty());
                assert(out@ =~= linestart + tokens_text(line@.tokens.subrange(0, 0)));
            }
            while t < m
                invariant
                    t <= m,
                    m == line@.tokens.len(),
                    line.wf(),
                    line@ == self@.lines[i as int],
                    out@ == linestart + tokens_text(line@.tokens.subrange(0, t as int)),
                decreases m - t,
            {
                let tok = &line.tokens[t];
                proof {
                    assert(tok@ == line@.tokens[t as int]);
                    assert(tok.wf());
                }
                match &tok.entry {
                    Some(entries) => {
                        let ne = entries.len();
                        let mut e: usize = 0;
                        let ghost tokstart = out@;
                        let ghost evs = tok@.entry->Some_0;
                        proof {
                            assert(out@ =~= tokstart + entries_text(tok@.text, evs, 0));
                        }
                        while e < ne
                            invariant
                                e <= ne,
                                ne == evs.len(),
                                entries.deep_view() == evs,
                                tok@.text == tok.text@,
                                forall|j: int|
                                    0 <= j < entries@.len() ==> (#[trigger] entries@[j]).wf(),
                                out@ == tokstart + entries_text(tok@.text, evs, e as int),
                            decreases ne - e,
                        {
                            out.append("\t");
                            if e == 0 {
                                out.append(tok.text.as_str());
                            } else {
                                let pad = space_string(tok.text.as_str().len());
                                out.append(pad.as_str());
                            }
                            out.append(": ");
                            let et = entries[e].to_text();
                            out.append(et.as_str());
                            out.append("\n");
                            proof {
                                assert(entries@[e as int]@ == evs[e as int]);
                                assert(entries@[e as int].wf());
                                assert(et@ == entry_text(
                                    evs[e as int],
                                    count_stressed(evs[e as int].phonemes),
                                ));
                            }
                            e = e + 1;
                            proof {
                                assert(out@ =~= tokstart + entries_text(
                                    tok@.text,
                                    evs,
                                    e as int,
                                ));
                            }
                        }
                        proof {
                            assert(out@ =~= tokstart + token_text(tok@));
                        }
                    },
                    None => {
                        out.append("\t");
                        out.append(tok.text.as_str());
                        out.append(": None.\n");
                    },
                }
                t = t + 1;
                proof {
                    let sub1 = line@.tokens.subrange(0, t as int);
                    assert(sub1.drop_last() =~= line@.tokens.subrange(0, t - 1));
                    assert(sub1.last() == line@.tokens[t - 1]);
                }
            }
            out.append("\n");
            i = i + 1;
            proof {
                assert(line@.tokens.subrange(0, m as int) =~= line@.tokens);
                let sub1 = self@.lines.subrange(0, i as int);
                assert(sub1.drop_last() =~= self@.lines.subrange(0, i - 1));
                assert(sub1.last() == self@.lines[i - 1]);
                assert(out@ =~= title_text(self@.title) + lines_text(sub1));
            }
        }
        proof {
            assert(self@.lines.subrange(0, n as int) =~= self@.lines);
        }
        if self.has_unknown_words() {
            out.append("Warning: The text has some unknown words. Analysis may suffer.\n");
        }
        out
    }

    /// Whether any word of the stanza is missing from the dictionary.
    pub fn has_unknown_words(&self) -> (r: bool)
        ensures
            r == stanza_has_unknown(self@.lines),
    {
        let n = self.lines.len();
        let mut i: usize = 0;
        while i < n
            invariant
                i <= n,
                n == self.lines@.len(),
                forall|j: int| 0 <= j < i ==> !line_has_unknown(#[trigger] self@.lines[j].tokens),
            decreases n - i,
        {
            if self.lines[i].has_unknown_words() {
                proof {
                    assert(line_has_unknown(self@.lines[i as int].tokens));
                }
                return true;
            }
            i = i + 1;
        }
        false
    }
}

} // verus!
