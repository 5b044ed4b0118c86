//! The phonetic dictionary: every parsed lexicon entry, keyed by word, with a
//! secondary structure sorted by similarity key for rhyme search.
//!
//! The secondary structure maps each entry's similarity key (reversed
//! phonemes, then the dictionary key) to its word and variant. It stays sorted
//! lexicographically at all times, and it corresponds one-to-one with the
//! entries of the primary map: `similar` depends on that correspondence.

use vstd::prelude::*;
use vstd::multiset::Multiset;
use vstd::relations::sorted_by;
use vstd::seq_lib::lemma_multiset_commutative;
use vstd::seq_lib::group_to_multiset_ensures;

use crate::entry::{entry_key, Entry, EntryView, LexiconError};
use crate::phoneme::{common_suffix, count_stressed, last_syllables};
use crate::strutil::{
    has_prefix, lemma_lex_le_total, lemma_lex_le_trans, lex_le, starts_with_chars, str_eq,
};

verus! {

/// The abstract value of one row of the secondary structure.
pub struct RowModel {
    pub key: Seq<char>,
    pub word: Seq<char>,
    pub variant: u32,
}

/// One row of the secondary structure: a similarity key and the word and
/// variant it belongs to.
struct RevRow {
    key: Vec<char>,
    word: String,
    variant: u32,
}

impl View for RevRow {
    type V = RowModel;

    closed spec fn view(&self) -> RowModel {
        RowModel { key: self.key@, word: self.word@, variant: self.variant }
    }
}

impl DeepView for RevRow {
    type V = RowModel;

    closed spec fn deep_view(&self) -> RowModel {
        self@
    }
}

/// The row an entry contributes to the secondary structure.
pub open spec fn row_of(ev: EntryView) -> RowModel {
    RowModel { key: entry_key(ev), word: ev.word, variant: ev.variant }
}

/// The rows of one word's entry list, in list order.
pub open spec fn rows_of_list(l: Seq<EntryView>) -> Seq<RowModel> {
    l.map_values(|ev: EntryView| row_of(ev))
}

/// The rows of all entry lists, word by word.
pub open spec fn flat_rows(ls: Seq<Seq<EntryView>>) -> Seq<RowModel>
    decreases ls.len(),
{
    if ls.len() == 0 {
        Seq::empty()
    } else {
        flat_rows(ls.drop_last()) + rows_of_list(ls.last())
    }
}

/// Row order: lexicographic on the similarity key.
pub open spec fn row_le_p() -> spec_fn(RowModel, RowModel) -> bool {
    |a: RowModel, b: RowModel| lex_le(a.key, b.key)
}

/// The abstract value of a `SimilarWord`.
pub struct SwView {
    pub word: Seq<char>,
    pub syllables: nat,
    pub score: nat,
}

/// One rhyme-search result: a word, its syllable count, and its similarity
/// score (higher is more similar).
#[derive(Debug)]
pub struct SimilarWord {
    /// The word.
    pub word: String,
    /// The number of syllables in `word`.
    pub syllables: usize,
    /// Larger scores represent higher similarity.
    pub score: usize,
}

impl View for SimilarWord {
    type V = SwView;

    open spec fn view(&self) -> SwView {
        SwView { word: self.word@, syllables: self.syllables as nat, score: self.score as nat }
    }
}

impl DeepView for SimilarWord {
    type V = SwView;

    open spec fn deep_view(&self) -> SwView {
        self@
    }
}

/// Result order: descending by score, then ascending by word text.
pub open spec fn sim_le(a: SwView, b: SwView) -> bool {
    a.score > b.score || (a.score == b.score && lex_le(a.word, b.word))
}

/// The result order as a function value.
pub open spec fn sim_le_p() -> spec_fn(SwView, SwView) -> bool {
    |a: SwView, b: SwView| sim_le(a, b)
}

/// All rhyme-search results, most similar first.
pub struct SimilarResult {
    /// The similar words, sorted decreasing by similarity.
    pub words: Vec<SimilarWord>,
}

/// The lookup/read/query interface of dictionaries.
///
/// The verified contracts live on the inherent methods of `DictionaryImpl`,
/// which this trait forwards to.
pub trait Dictionary {
    /// The receiver is a well-formed dictionary.
    spec fn inv(&self) -> bool;

    /// Looks up the given term, returning all entries that match.
    fn lookup(&self, term: &str) -> Option<&Vec<Entry>>
        requires
            self.inv(),
    ;

    /// Looks up a specific term and variant combination.
    fn lookup_variant(&self, term: &str, variant: u32) -> Option<&Entry>
        requires
            self.inv(),
    ;

    /// Returns words that rhyme with the given word, most similar first.
    fn similar(&self, query: &str) -> SimilarResult
        requires
            self.inv(),
    ;
}

/// A dictionary holding every parsed entry, keyed by word, plus the sorted
/// secondary structure used by `similar`.
pub struct DictionaryImpl {
    /// Entry lists keyed by word; one slot per distinct word.
    entries: Vec<(String, Vec<Entry>)>,
    /// Rows sorted by similarity key, one per entry.
    reverse_list: Vec<RevRow>,
}

impl DictionaryImpl {
    /// The distinct words, in insertion order.
    pub closed spec fn words(&self) -> Seq<Seq<char>> {
        Seq::new(self.entries@.len(), |i: int| self.entries@[i].0@)
    }

    /// The entry list of the `i`-th word.
    pub closed spec fn list_at(&self, i: int) -> Seq<EntryView> {
        self.entries@[i].1.deep_view()
    }

    /// All entry lists, in word order.
    pub open spec fn lists(&self) -> Seq<Seq<EntryView>> {
        Seq::new(self.words().len(), |i: int| self.list_at(i))
    }

    /// Whether the dictionary knows the word.
    pub open spec fn has_word(&self, w: Seq<char>) -> bool {
        exists|i: int| 0 <= i < self.words().len() && self.words()[i] == w
    }

    /// The slot of a known word.
    pub open spec fn idx_of(&self, w: Seq<char>) -> int {
        choose|i: int| 0 <= i < self.words().len() && self.words()[i] == w
    }

    /// The entries of a known word, in insertion order.
    pub open spec fn entries_of(&self, w: Seq<char>) -> Seq<EntryView> {
        self.list_at(self.idx_of(w))
    }

    /// The rows of the secondary structure, in their stored order.
    closed spec fn rows_model(&self) -> Seq<RowModel> {
        self.reverse_list.deep_view()
    }

    /// Well-formedness: words unique, lists nonempty and of well-formed
    /// entries stored under their own word, and the secondary structure sorted
    /// and one-to-one with the entries.
    pub closed spec fn wf(&self) -> bool {
        &&& forall|i: int, j: int|
            0 <= i < j < self.words().len() ==> #[trigger] self.words()[i] != #[trigger] self.words()[j]
        &&& forall|i: int| 0 <= i < self.words().len() ==> #[trigger] self.list_at(i).len() > 0
        &&& forall|i: int, j: int|
            0 <= i < self.words().len() && 0 <= j < self.list_at(i).len()
                ==> (#[trigger] self.list_at(i)[j]).word == self.words()[i]
        &&& forall|i: int, j: int|
            0 <= i < self.entries@.len() && 0 <= j < self.entries@[i].1@.len()
                ==> (#[trigger] self.entries@[i].1@[j]).wf()
        &&& sorted_by(self.rows_model(), row_le_p())
        &&& self.rows_model().to_multiset() == flat_rows(self.lists()).to_multiset()
    }

    /// Creates a new empty dictionary.
    pub fn new() -> (r: DictionaryImpl)
        ensures
            r.wf(),
            r.words() == Seq::<Seq<char>>::empty(),
    {
        let r = DictionaryImpl { entries: Vec::new(), reverse_list: Vec::new() };
        proof {
            assert(r.words() =~= Seq::<Seq<char>>::empty());
            assert(r.rows_model() =~= Seq::<RowModel>::empty());
            assert(r.lists() =~= Seq::<Seq<EntryView>>::empty());
            assert(r.rows_model().to_multiset() =~= flat_rows(r.lists()).to_multiset());
        }
        r
    }

    /// The number of distinct words in the dictionary.
    pub fn len(&self) -> (r: usize)
        ensures
            r == self.words().len(),
    {
        self.entries.len()
    }

    /// Inserts a single entry, keeping the secondary structure sorted.
    ///
    /// The entry joins the list of its word, at the end; a new word opens a
    /// new list at the end.
    pub fn insert(&mut self, entry: Entry)
        requires
            old(self).wf(),
            entry.wf(),
        ensures
            final(self).wf(),
            old(self).has_word(entry@.word) ==> {
                &&& final(self).words() == old(self).words()
                &&& final(self).list_at(old(self).idx_of(entry@.word)) == old(self).list_at(
                    old(self).idx_of(entry@.word),
                ).push(entry@)
                &&& forall|i: int|
                    0 <= i < old(self).words().len() && i != old(self).idx_of(entry@.word)
                        ==> final(self).list_at(i) == old(self).list_at(i)
            },
            !old(self).has_word(entry@.word) ==> {
                &&& final(self).words() == old(self).words().push(entry@.word)
                &&& final(self).list_at(old(self).words().len() as int) == seq![entry@]
                &&& forall|i: int|
                    0 <= i < old(self).words().len() ==> final(self).list_at(i) == old(
                        self,
                    ).list_at(i)
            },
    {
        self.insert_internal(entry);
    }

    /// Parses one lexicon line and inserts it; a malformed line is reported,
    /// not inserted.
    pub fn insert_raw(&mut self, line: &str) -> (r: Result<(), LexiconError>)
        requires
            old(self).wf(),
        ensures
            final(self).wf(),
            r is Ok <==> crate::entry::line_parses(line@),
            r is Err ==> *final(self) == *old(self),
            r is Ok ==> ({
                let ev = crate::entry::line_entry_view(line@);
                &&& old(self).has_word(ev.word) ==> {
                    &&& final(self).words() == old(self).words()
                    &&& final(self).list_at(old(self).idx_of(ev.word)) == old(self).list_at(
                        old(self).idx_of(ev.word),
                    ).push(ev)
                    &&& forall|i: int|
                        0 <= i < old(self).words().len() && i != old(self).idx_of(ev.word)
                            ==> final(self).list_at(i) == old(self).list_at(i)
                }
                &&& !old(self).has_word(ev.word) ==> {
                    &&& final(self).words() == old(self).words().push(ev.word)
                    &&& final(self).list_at(old(self).words().len() as int) == seq![ev]
                    &&& forall|i: int|
                        0 <= i < old(self).words().len() ==> final(self).list_at(i) == old(
                            self,
                        ).list_at(i)
                }
            }),
    {
        match Entry::new(line) {
            Ok(e) => {
                self.insert(e);
                Ok(())
            },
            Err(err) => Err(err),
        }
    }

    /// Parses and inserts each of the given lexicon lines; the first malformed
    /// line is reported, and every line before it is inserted.
    pub fn insert_all(&mut self, lines: &Vec<&str>) -> (r: Result<(), LexiconError>)
        requires
            old(self).wf(),
        ensures
            final(self).wf(),
            r is Ok ==> forall|i: int|
                0 <= i < lines@.len() ==> crate::entry::line_parses(#[trigger] lines@[i]@),
            r is Err ==> exists|i: int|
                0 <= i < lines@.len() && !crate::entry::line_parses(#[trigger] lines@[i]@),
    {
        let n = lines.len();
        let mut i: usize = 0;
        while i < n
            invariant
                i <= n,
                n == lines@.len(),
                self.wf(),
                forall|j: int| 0 <= j < i ==> crate::entry::line_parses(#[trigger] lines@[j]@),
            decreases n - i,
        {
            let line: &str = lines[i];
            let r = self.insert_raw(line);
            if let Err(e) = r {
                return Err(e);
            }
            i = i + 1;
        }
        Ok(())
    }

    fn insert_internal(&mut self, entry: Entry)
        requires
            old(self).wf(),
            entry.wf(),
        ensures
            final(self).wf(),
            old(self).has_word(entry@.word) ==> {
                &&& final(self).words() == old(self).words()
                &&& final(self).list_at(old(self).idx_of(entry@.word)) == old(self).list_at(
                    old(self).idx_of(entry@.word),
                ).push(entry@)
                &&& forall|i: int|
                    0 <= i < old(self).words().len() && i != old(self).idx_of(entry@.word)
                        ==> final(self).list_at(i) == old(self).list_at(i)
            },
            !old(self).has_word(entry@.word) ==> {
                &&& final(self).words() == old(self).words().push(entry@.word)
                &&& final(self).list_at(old(self).words().len() as int) == seq![entry@]
                &&& forall|i: int|
                    0 <= i < old(self).words().len() ==> final(self).list_at(i) == old(
                        self,
                    ).list_at(i)
            },
    {
        let ghost old_self = *old(self);
        let key = entry.similarity_key();
        let word = entry.word.clone();
        let word2 = entry.word.clone();
        let variant = entry.variant;
        let ghost rm = row_of(entry@);
        let row = RevRow { key, word, variant };
        proof {
            assert(row@ == rm);
        }
        insert_row_sorted(&mut self.reverse_list, row);
        // Find the word's slot, if it exists.
        let n = self.entries.len();
        let mut i: usize = 0;
        let mut found = false;
        while i < n && !found
            invariant
                i <= n,
                n == old_self.entries@.len(),
                self.entries == old_self.entries,
                !found ==> forall|j: int| 0 <= j < i ==> old_self.words()[j] != entry@.word,
                found ==> i < n && old_self.words()[i as int] == entry@.word,
            decreases n - i + (if found {
                0int
            } else {
                1int
            }),
        {
            if str_eq(self.entries[i].0.as_str(), entry.word.as_str()) {
                found = true;
            } else {
                i = i + 1;
            }
        }
        let ghost new_entry = entry@;
        if found {
            proof {
                assert(old_self.has_word(entry@.word));
                assert(old_self.idx_of(entry@.word) == i as int) by {
                    let j = old_self.idx_of(entry@.word);
                    if j != i as int {
                        assert(old_self.words()[j] == old_self.words()[i as int]);
                    }
                }
            }
            let ghost old_list = old_self.list_at(i as int);
            let mut pair = self.entries.remove(i);
            pair.1.push(entry);
            let ghost new_list = pair.1.deep_view();
            self.entries.insert(i, pair);
            proof {
                assert(self.entries@ =~= old_self.entries@.update(
                    i as int,
                    self.entries@[i as int],
                ));
                assert(self.words() =~= old_self.words());
                assert(new_list =~~= old_list.push(new_entry));
                assert(self.list_at(i as int) == new_list);
                assert forall|k: int|
                    0 <= k < old_self.words().len() && k != i as int implies self.list_at(k)
                    == old_self.list_at(k) by {
                    assert(self.entries@[k] == old_self.entries@[k]);
                }
                assert(self.lists() =~= old_self.lists().update(
                    i as int,
                    old_list.push(new_entry),
                ));
                assert(old_self.lists()[i as int] == old_list);
                lemma_flat_rows_update_push(old_self.lists(), i as int, new_entry);
                assert(self.rows_model().to_multiset() =~= flat_rows(self.lists()).to_multiset());
                // Each well-formedness clause carries over to the updated slot.
                assert forall|a: int, b: int|
                    0 <= a < self.words().len() && 0 <= b < self.list_at(a).len() implies (
                #[trigger] self.list_at(a)[b]).word == self.words()[a] by {
                    if a == i as int && b == self.list_at(a).len() - 1 {
                        assert(self.list_at(a)[b] == new_entry);
                    } else {
                        assert(self.list_at(a)[b] == old_self.list_at(a)[b]);
                    }
                }
                assert forall|a: int, b: int|
                    0 <= a < self.entries@.len() && 0 <= b < self.entries@[a].1@.len() implies (
                #[trigger] self.entries@[a].1@[b]).wf() by {
                    if a == i as int {
                        if b == self.entries@[a].1@.len() - 1 {
                        } else {
                            assert(self.entries@[a].1@[b] == old_self.entries@[a].1@[b]);
                        }
                    } else {
                        assert(self.entries@[a] == old_self.entries@[a]);
                    }
                }
                assert forall|a: int| 0 <= a < self.words().len() implies #[trigger] self.list_at(
                    a,
                ).len() > 0 by {
                    if a != i as int {
                        assert(self.list_at(a) == old_self.list_at(a));
                    }
                }
                assert forall|a: int, b: int|
                    0 <= a < b < self.words().len() implies #[trigger] self.words()[a]
                    != #[trigger] self.words()[b] by {
                    assert(self.words()[a] == old_self.words()[a]);
                    assert(self.words()[b] == old_self.words()[b]);
                }
                assert(sorted_by(self.rows_model(), row_le_p()));
                assert(self.wf());
            }
        } else {
            proof {
                assert(!old_self.has_word(entry@.word));
            }
            let mut list: Vec<Entry> = Vec::new();
            list.push(entry);
            let ghost single = list.deep_view();
            self.entries.push((word2, list));
            proof {
                assert(single =~~= seq![new_entry]);
                assert(self.words() =~= old_self.words().push(new_entry.word));
                assert forall|a: int, b: int|
                    0 <= a < self.entries@.len() && 0 <= b < self.entries@[a].1@.len() implies (
                #[trigger] self.entries@[a].1@[b]).wf() by {
                    if a < self.entries@.len() - 1 {
                        assert(self.entries@[a] == old_self.entries@[a]);
                    }
                }
                assert(self.list_at(old_self.words().len() as int) == single);
                assert forall|k: int| 0 <= k < old_self.words().len() implies self.list_at(k)
                    == old_self.list_at(k) by {
                    assert(self.entries@[k] == old_self.entries@[k]);
                }
                assert(self.lists() =~= old_self.lists().push(single));
                lemma_flat_rows_push_single(old_self.lists(), new_entry);
                assert(self.rows_model().to_multiset() =~= flat_rows(self.lists()).to_multiset());
                assert(i == n);
                assert forall|a: int, b: int|
                    0 <= a < b < self.words().len() implies #[trigger] self.words()[a]
                    != #[trigger] self.words()[b] by {
                    if b < self.words().len() - 1 {
                        assert(self.words()[a] == old_self.words()[a]);
                        assert(self.words()[b] == old_self.words()[b]);
                    } else {
                        assert(self.words()[a] == old_self.words()[a]);
                        assert(self.words()[b] == new_entry.word);
                        assert(old_self.words()[a] != new_entry.word);
                    }
                }
                assert forall|a: int, b: int|
                    0 <= a < self.words().len() && 0 <= b < self.list_at(a).len() implies (
                #[trigger] self.list_at(a)[b]).word == self.words()[a] by {
                    if a < self.words().len() - 1 {
                        assert(self.list_at(a) == old_self.list_at(a));
                        assert(self.words()[a] == old_self.words()[a]);
                    } else {
                        assert(self.list_at(a) == single);
                        assert(self.list_at(a)[b] == new_entry);
                    }
                }
                assert forall|a: int| 0 <= a < self.words().len() implies #[trigger] self.list_at(
                    a,
                ).len() > 0 by {
                    if a < self.words().len() - 1 {
                        assert(self.list_at(a) == old_self.list_at(a));
                    } else {
                        assert(self.list_at(a) == single);
                    }
                }
                assert(sorted_by(self.rows_model(), row_le_p()));
                assert(self.wf());
            }
        }
    }
}

/// Opening a new word slot with one entry adds exactly its row to the flat
/// rows, as multisets.
proof fn lemma_flat_rows_push_single(ls: Seq<Seq<EntryView>>, ev: EntryView)
    ensures
        flat_rows(ls.push(seq![ev])).to_multiset() == flat_rows(ls).to_multiset().insert(
            row_of(ev),
        ),
{
    broadcast use group_to_multiset_ensures;

    let upd = ls.push(seq![ev]);
    assert(upd.drop_last() =~= ls);
    assert(upd.last() == seq![ev]);
    assert(rows_of_list(seq![ev]) =~= seq![row_of(ev)]);
    lemma_multiset_commutative(flat_rows(ls), rows_of_list(seq![ev]));
    assert(seq![row_of(ev)].to_multiset() =~= Multiset::<RowModel>::empty().insert(row_of(ev))) by {
        assert(seq![row_of(ev)] =~= Seq::<RowModel>::empty().push(row_of(ev)));
    }
    assert(flat_rows(upd).to_multiset() =~= flat_rows(ls).to_multiset().insert(row_of(ev)));
}

/// The first index of the list holding the given variant, or -1.
pub open spec fn first_variant_idx(l: Seq<EntryView>, v: u32) -> int
    decreases l.len(),
{
    if l.len() == 0 {
        -1
    } else if l[0].variant == v {
        0
    } else {
        let r = first_variant_idx(l.skip(1), v);
        if r == -1 {
            -1
        } else {
            r + 1
        }
    }
}

proof fn lemma_first_variant_at(l: Seq<EntryView>, v: u32, j: int)
    requires
        0 <= j < l.len(),
        l[j].variant == v,
        forall|k: int| 0 <= k < j ==> l[k].variant != v,
    ensures
        first_variant_idx(l, v) == j,
    decreases l.len(),
{
    if j > 0 {
        assert forall|k: int| 0 <= k < j - 1 implies l.skip(1)[k].variant != v by {
            assert(l.skip(1)[k] == l[k + 1]);
        }
        assert(l.skip(1)[j - 1] == l[j]);
        lemma_first_variant_at(l.skip(1), v, j - 1);
    }
}

proof fn lemma_first_variant_none(l: Seq<EntryView>, v: u32)
    requires
        forall|k: int| 0 <= k < l.len() ==> l[k].variant != v,
    ensures
        first_variant_idx(l, v) == -1,
    decreases l.len(),
{
    if l.len() > 0 {
        assert forall|k: int| 0 <= k < l.skip(1).len() implies l.skip(1)[k].variant != v by {
            assert(l.skip(1)[k] == l[k + 1]);
        }
        lemma_first_variant_none(l.skip(1), v);
    }
}

proof fn lemma_first_variant_exists(l: Seq<EntryView>, v: u32, j: int)
    requires
        0 <= j < l.len(),
        l[j].variant == v,
    ensures
        first_variant_idx(l, v) >= 0,
    decreases l.len(),
{
    if l[0].variant != v {
        assert(l.skip(1)[j - 1] == l[j]);
        lemma_first_variant_exists(l.skip(1), v, j - 1);
    }
}

/// The reversed final syllable of a pronunciation: the prefix that groups its
/// rhyme candidates.
pub open spec fn rhyme_prefix(q: EntryView) -> Seq<char> {
    last_syllables(q.phonemes, 1)
}

/// Whether a row is a rhyme candidate for the query pronunciation `q`: its key
/// starts with `q`'s final syllable, and it is not the query word itself.
pub open spec fn row_matched(q: EntryView, query: Seq<char>, row: RowModel) -> bool {
    has_prefix(row.key, rhyme_prefix(q)) && row.word != query
}

/// The candidate predicate as a function value.
pub open spec fn row_matched_p(q: EntryView, query: Seq<char>) -> spec_fn(RowModel) -> bool {
    |row: RowModel| row_matched(q, query, row)
}

/// The result row built from a matching row: the candidate's word, its
/// syllable count, and the length of the common phoneme suffix with `q`.
pub open spec fn sw_of(d: DictionaryImpl, q: EntryView, row: RowModel) -> SwView {
    let t = d.variant_entry(row.word, row.variant);
    SwView {
        word: row.word,
        syllables: count_stressed(t.phonemes),
        score: common_suffix(q.phonemes, t.phonemes),
    }
}

/// The result constructor as a function value.
pub open spec fn sw_of_p(d: DictionaryImpl, q: EntryView) -> spec_fn(RowModel) -> SwView {
    |row: RowModel| sw_of(d, q, row)
}

impl DictionaryImpl {
    /// The entry of a known word and present variant.
    pub open spec fn variant_entry(&self, w: Seq<char>, v: u32) -> EntryView {
        self.entries_of(w)[first_variant_idx(self.entries_of(w), v)]
    }

    /// The results one query pronunciation contributes, scanning `rows` in
    /// order.
    pub open spec fn variant_matches(
        &self,
        q: EntryView,
        query: Seq<char>,
        rows: Seq<RowModel>,
    ) -> Seq<SwView> {
        rows.filter(row_matched_p(q, query)).map_values(sw_of_p(*self, q))
    }

    /// The results of the first `qvs` query pronunciations, in order.
    pub open spec fn matches_upto(
        &self,
        qvs: Seq<EntryView>,
        query: Seq<char>,
        rows: Seq<RowModel>,
    ) -> Seq<SwView>
        decreases qvs.len(),
    {
        if qvs.len() == 0 {
            Seq::empty()
        } else {
            self.matches_upto(qvs.drop_last(), query, rows) + self.variant_matches(
                qvs.last(),
                query,
                rows,
            )
        }
    }

    /// Everything `similar` returns for `query`, as a sequence over the
    /// entry model: for each pronunciation of the query word, each entry
    /// whose key begins with that pronunciation's final syllable, the query
    /// word itself excluded.
    pub open spec fn sim_candidates(&self, query: Seq<char>) -> Seq<SwView> {
        if self.has_word(query) {
            self.matches_upto(self.entries_of(query), query, flat_rows(self.lists()))
        } else {
            Seq::empty()
        }
    }

    /// Looks up the given term, returning all entries that match, in
    /// insertion order.
    pub fn lookup(&self, term: &str) -> (r: Option<&Vec<Entry>>)
        requires
            self.wf(),
        ensures
            match r {
                Some(v) => {
                    &&& self.has_word(term@)
                    &&& v.deep_view() == self.entries_of(term@)
                    &&& v@.len() > 0
                    &&& forall|j: int| 0 <= j < v@.len() ==> (#[trigger] v@[j]).wf()
                },
                None => !self.has_word(term@),
            },
    {
        let n = self.entries.len();
        let mut i: usize = 0;
        while i < n
            invariant
                i <= n,
                n == self.entries@.len(),
                self.wf(),
                forall|j: int| 0 <= j < i ==> self.words()[j] != term@,
            decreases n - i,
        {
            if str_eq(self.entries[i].0.as_str(), term) {
                let r = &self.entries[i].1;
                proof {
                    assert(self.words()[i as int] == term@);
                    assert(self.has_word(term@));
                    assert(self.idx_of(term@) == i as int) by {
                        let j2 = self.idx_of(term@);
                        if j2 != i as int {
                            assert(self.words()[j2] == self.words()[i as int]);
                        }
                    }
                    assert(r.deep_view() == self.list_at(i as int));
                    assert(self.entries_of(term@) == self.list_at(i as int));
                    assert(self.list_at(i as int).len() > 0);
                    assert forall|j2: int| 0 <= j2 < r@.len() implies (#[trigger] r@[j2]).wf() by {
                        assert(r@[j2] == self.entries@[i as int].1@[j2]);
                    }
                }
                return Some(r);
            }
            i = i + 1;
        }
        None
    }

    /// Looks up the given term and exact variant: the first entry of the
    /// word's list with that variant number.
    pub fn lookup_variant(&self, term: &str, variant: u32) -> (r: Option<&Entry>)
        requires
            self.wf(),
        ensures
            match r {
                Some(e) => {
                    &&& self.has_word(term@)
                    &&& first_variant_idx(self.entries_of(term@), variant) >= 0
                    &&& e@ == self.variant_entry(term@, variant)
                    &&& e.wf()
                },
                None => !self.has_word(term@) || first_variant_idx(
                    self.entries_of(term@),
                    variant,
                ) == -1,
            },
    {
        match self.lookup(term) {
            None => None,
            Some(v) => {
                let ghost l = self.entries_of(term@);
                let m = v.len();
                let mut j: usize = 0;
                while j < m
                    invariant
                        j <= m,
                        m == l.len(),
                        v.deep_view() == l,
                        l == self.entries_of(term@),
                        self.wf(),
                        self.has_word(term@),
                        forall|k: int| 0 <= k < j ==> l[k].variant != variant,
                        forall|k: int| 0 <= k < v@.len() ==> (#[trigger] v@[k]).wf(),
                    decreases m - j,
                {
                    if v[j].variant == variant {
                        let e = &v[j];
                        proof {
                            assert(e@ == l[j as int]);
                            assert(l[j as int].variant == variant);
                            lemma_first_variant_at(l, variant, j as int);
                            assert(first_variant_idx(self.entries_of(term@), variant)
                                == j as int);
                            assert(self.variant_entry(term@, variant) == self.entries_of(term@)[
                                j as int
                            ]);
                            assert(e.wf());
                        }
                        return Some(e);
                    }
                    proof {
                        assert(v@[j as int]@ == l[j as int]);
                    }
                    j = j + 1;
                }
                proof {
                    lemma_first_variant_none(l, variant);
                }
                None
            },
        }
    }

    /// Returns the words sharing a final syllable with any pronunciation of
    /// the query word, scored by common phoneme suffix and sorted most
    /// similar first (ties by word text). A word may appear once per
    /// matching pronunciation pair; the query word itself never appears.
    #[verifier::loop_isolation(false)]
    pub fn similar(&self, query: &str) -> (r: SimilarResult)
        requires
            self.wf(),
        ensures
            sorted_by(r.words.deep_view(), sim_le_p()),
            r.words.deep_view().to_multiset() == self.sim_candidates(query@).to_multiset(),
    {
        broadcast use group_to_multiset_ensures;

        let mut out: Vec<SimilarWord> = Vec::new();
        let qlist = match self.lookup(query) {
            None => {
                proof {
                    assert(out.deep_view() =~= Seq::<SwView>::empty());
                    assert(Seq::<SwView>::empty().to_multiset() =~= self.sim_candidates(
                        query@,
                    ).to_multiset());
                }
                return SimilarResult { words: out };
            },
            Some(v) => v,
        };
        let ghost qvs = self.entries_of(query@);
        let ghost rows = self.rows_model();
        let nv = qlist.len();
        let mut v: usize = 0;
        proof {
            assert(out.deep_view() =~= Seq::<SwView>::empty());
            assert(qvs.subrange(0, 0) =~= Seq::<EntryView>::empty());
        }
        while v < nv
            invariant
                v <= nv,
                sorted_by(out.deep_view(), sim_le_p()),
                out.deep_view().to_multiset() == self.matches_upto(
                    qvs.subrange(0, v as int),
                    query@,
                    rows,
                ).to_multiset(),
            decreases nv - v,
        {
            let q = &qlist[v];
            proof {
                assert(q@ == qvs[v as int]);
            }
            let prefix = q.similarity_prefix(1);
            let nr = self.reverse_list.len();
            let ghost base = self.matches_upto(qvs.subrange(0, v as int), query@, rows);
            let mut j: usize = 0;
            proof {
                assert(rows.subrange(0, 0) =~= Seq::<RowModel>::empty());
                assert(self.variant_matches(qvs[v as int], query@, rows.subrange(0, 0))
                    =~= Seq::<SwView>::empty());
                assert((base + Seq::<SwView>::empty()).to_multiset() =~= base.to_multiset()) by {
                    assert(base + Seq::<SwView>::empty() =~= base);
                }
            }
            while j < nr
                invariant
                    j <= nr,
                    nr == rows.len(),
                    prefix@ == rhyme_prefix(qvs[v as int]),
                    v < nv,
                    sorted_by(out.deep_view(), sim_le_p()),
                    out.deep_view().to_multiset() == (base + self.variant_matches(
                        qvs[v as int],
                        query@,
                        rows.subrange(0, j as int),
                    )).to_multiset(),
                decreases nr - j,
            {
                let ghost row_m = rows[j as int];
                let ghost pre = rows.subrange(0, j as int);
                let ghost pre1 = rows.subrange(0, j + 1);
                proof {
                    assert(self.reverse_list@[j as int]@ == rows[j as int]);
                    assert(pre1.drop_last() =~= pre);
                    assert(pre1 =~= pre.push(row_m));
                }
                let row = &self.reverse_list[j];
                let is_candidate = starts_with_chars(&row.key, &prefix) && !str_eq(
                    row.word.as_str(),
                    query,
                );
                if is_candidate {
                    proof {
                        assert(row_matched(qvs[v as int], query@, row_m));
                        lemma_row_resolves(self, row_m);
                    }
                    let target = self.lookup_variant(row.word.as_str(), row.variant);
                    let t = target.unwrap();
                    let syllables = t.num_syllables();
                    let score = q.phonemes.similarity_score(&t.phonemes);
                    let sw = SimilarWord { word: row.word.clone(), syllables, score };
                    proof {
                        assert(t@ == self.variant_entry(row_m.word, row_m.variant));
                        assert(sw@ == sw_of(*self, qvs[v as int], row_m));
                    }
                    let ghost before_out = out.deep_view();
                    insert_sim_sorted(&mut out, sw);
                    proof {
                        let p = row_matched_p(qvs[v as int], query@);
                        let f = sw_of_p(*self, qvs[v as int]);
                        assert(p(row_m));
                        pre.lemma_filter_push(row_m, p);
                        assert(pre1.filter(p) == pre.filter(p).push(row_m));
                        pre.filter(p).lemma_push_map_commute(f, row_m);
                        assert(pre1.filter(p).map_values(f) =~= pre.filter(p).map_values(f).push(
                            f(row_m),
                        ));
                        assert(f(row_m) == sw@);
                        lemma_concat_push_multiset(base, pre.filter(p).map_values(f), sw@);
                        assert(out.deep_view().to_multiset() =~= (base + self.variant_matches(
                            qvs[v as int],
                            query@,
                            pre1,
                        )).to_multiset());
                    }
                } else {
                    proof {
                        let p = row_matched_p(qvs[v as int], query@);
                        let f = sw_of_p(*self, qvs[v as int]);
                        assert(!row_matched(qvs[v as int], query@, row_m));
                        assert(!p(row_m));
                        pre.lemma_filter_push(row_m, p);
                        assert(pre1.filter(p) == pre.filter(p));
                    }
                }
                j = j + 1;
            }
            proof {
                assert(rows.subrange(0, nr as int) =~= rows);
                let sub1 = qvs.subrange(0, v + 1);
                assert(sub1.drop_last() =~= qvs.subrange(0, v as int));
                assert(sub1.last() == qvs[v as int]);
                assert(self.matches_upto(sub1, query@, rows) == base + self.variant_matches(
                    qvs[v as int],
                    query@,
                    rows,
                ));
            }
            v = v + 1;
        }
        proof {
            assert(qvs.subrange(0, nv as int) =~= qvs);
            lemma_matches_upto_multiset(self, qvs, query@, rows, flat_rows(self.lists()));
        }
        SimilarResult { words: out }
    }
}

impl Dictionary for DictionaryImpl {
    open spec fn inv(&self) -> bool {
        self.wf()
    }

    fn lookup(&self, term: &str) -> Option<&Vec<Entry>> {
        DictionaryImpl::lookup(self, term)
    }

    fn lookup_variant(&self, term: &str, variant: u32) -> Option<&Entry> {
        DictionaryImpl::lookup_variant(self, term, variant)
    }

    fn similar(&self, query: &str) -> SimilarResult {
        DictionaryImpl::similar(self, query)
    }
}

/// A row of the secondary structure resolves to an entry of the primary map.
proof fn lemma_row_resolves(d: &DictionaryImpl, row: RowModel)
    requires
        d.wf(),
        d.rows_model().contains(row),
    ensures
        d.has_word(row.word),
        first_variant_idx(d.entries_of(row.word), row.variant) >= 0,
{
    broadcast use group_to_multiset_ensures;

    assert(d.rows_model().to_multiset().count(row) > 0);
    assert(flat_rows(d.lists()).contains(row));
    let (i, j) = lemma_flat_rows_elem(d.lists(), row);
    let ev = d.lists()[i][j];
    assert(ev.word == d.words()[i]);
    assert(d.has_word(row.word));
    let i2 = d.idx_of(row.word);
    assert(d.words()[i2] == row.word);
    assert(i2 == i) by {
        if i2 != i {
            assert(d.words()[i2] == d.words()[i]);
        }
    }
    lemma_first_variant_exists(d.entries_of(row.word), row.variant, j);
}

/// A member of the flat rows comes from some entry of some list.
proof fn lemma_flat_rows_elem(ls: Seq<Seq<EntryView>>, row: RowModel) -> (r: (int, int))
    requires
        flat_rows(ls).contains(row),
    ensures
        0 <= r.0 < ls.len(),
        0 <= r.1 < ls[r.0].len(),
        row_of(ls[r.0][r.1]) == row,
    decreases ls.len(),
{
    let fr = flat_rows(ls);
    let head = flat_rows(ls.drop_last());
    let tail = rows_of_list(ls.last());
    let k = choose|k: int| 0 <= k < fr.len() && fr[k] == row;
    if k < head.len() {
        assert(head[k] == row);
        assert(head.contains(row));
        let (a, b) = lemma_flat_rows_elem(ls.drop_last(), row);
        (a, b)
    } else {
        let b = k - head.len();
        assert(tail[b] == row);
        assert(row_of(ls.last()[b]) == row);
        (ls.len() - 1, b)
    }
}

/// Appending an element to the right part of a concatenation inserts it into
/// the multiset of the whole.
proof fn lemma_concat_push_multiset(a: Seq<SwView>, b: Seq<SwView>, x: SwView)
    ensures
        (a + b.push(x)).to_multiset() == (a + b).to_multiset().insert(x),
{
    broadcast use group_to_multiset_ensures;

    assert(a + b.push(x) =~= (a + b).push(x));
}

/// Two row sequences with equal multisets yield equal result multisets for
/// every query pronunciation prefix.
proof fn lemma_matches_upto_multiset(
    d: &DictionaryImpl,
    qvs: Seq<EntryView>,
    query: Seq<char>,
    rows_a: Seq<RowModel>,
    rows_b: Seq<RowModel>,
)
    requires
        rows_a.to_multiset() == rows_b.to_multiset(),
    ensures
        d.matches_upto(qvs, query, rows_a).to_multiset() == d.matches_upto(
            qvs,
            query,
            rows_b,
        ).to_multiset(),
    decreases qvs.len(),
{
    if qvs.len() > 0 {
        lemma_matches_upto_multiset(d, qvs.drop_last(), query, rows_a, rows_b);
        lemma_filter_map_multiset(
            rows_a,
            rows_b,
            row_matched_p(qvs.last(), query),
            sw_of_p(*d, qvs.last()),
        );
        lemma_multiset_commutative(
            d.matches_upto(qvs.drop_last(), query, rows_a),
            d.variant_matches(qvs.last(), query, rows_a),
        );
        lemma_multiset_commutative(
            d.matches_upto(qvs.drop_last(), query, rows_b),
            d.variant_matches(qvs.last(), query, rows_b),
        );
        assert(d.matches_upto(qvs, query, rows_a).to_multiset() =~= d.matches_upto(
            qvs,
            query,
            rows_b,
        ).to_multiset());
    }
}

/// Sequences with equal multisets keep equal multisets through a filter and a
/// map.
proof fn lemma_filter_map_multiset(
    a: Seq<RowModel>,
    b: Seq<RowModel>,
    p: spec_fn(RowModel) -> bool,
    f: spec_fn(RowModel) -> SwView,
)
    requires
        a.to_multiset() == b.to_multiset(),
    ensures
        a.filter(p).map_values(f).to_multiset() == b.filter(p).map_values(f).to_multiset(),
    decreases a.len(),
{
    broadcast use group_to_multiset_ensures;

    if a.len() == 0 {
        assert(b.to_multiset().len() == 0);
        assert(b.len() == 0);
        assert(b =~= a);
    } else {
        let x = a.last();
        let a0 = a.drop_last();
        assert(a =~= a0.push(x));
        assert(a.to_multiset().count(x) > 0);
        assert(b.to_multiset().count(x) > 0);
        assert(b.contains(x));
        let k = choose|k: int| 0 <= k < b.len() && b[k] == x;
        let b0 = b.remove(k);
        assert(b0.to_multiset() =~= a0.to_multiset()) by {
            assert(b.remove(k).to_multiset() == b.to_multiset().remove(b[k]));
            assert(a0.push(x).to_multiset() == a0.to_multiset().insert(x));
        }
        lemma_filter_map_multiset(a0, b0, p, f);
        // Relate a's side through the push.
        a0.lemma_filter_push(x, p);
        if p(x) {
            a0.filter(p).lemma_push_map_commute(f, x);
        }
        // Relate b's side through the removal at k.
        let bl = b.subrange(0, k);
        let br = b.subrange(k + 1, b.len() as int);
        assert(b =~= bl + (seq![x] + br));
        assert(b0 =~= bl + br);
        Seq::filter_distributes_over_add(bl, seq![x] + br, p);
        Seq::filter_distributes_over_add(seq![x], br, p);
        Seq::filter_distributes_over_add(bl, br, p);
        assert(seq![x].filter(p) == if p(x) {
            seq![x]
        } else {
            Seq::<RowModel>::empty()
        }) by {
            let e = Seq::<RowModel>::empty();
            assert(seq![x] =~= e.push(x));
            e.lemma_filter_push(x, p);
            assert(e.filter(p) =~= e);
            if p(x) {
                assert(e.filter(p).push(x) =~= seq![x]);
            }
        }
        if p(x) {
            assert(b.filter(p) =~= bl.filter(p) + (seq![x] + br.filter(p)));
            assert(b0.filter(p) =~= bl.filter(p) + br.filter(p));
            lemma_map_concat(bl.filter(p), seq![x] + br.filter(p), f);
            lemma_map_concat(seq![x], br.filter(p), f);
            lemma_map_concat(bl.filter(p), br.filter(p), f);
            assert(seq![x].map_values(f) =~= seq![f(x)]);
            lemma_multiset_middle(bl.filter(p).map_values(f), br.filter(p).map_values(f), f(x));
            assert(a.filter(p).map_values(f).to_multiset() =~= b.filter(p).map_values(
                f,
            ).to_multiset());
        } else {
            assert(b.filter(p) =~= bl.filter(p) + br.filter(p));
            assert(b0.filter(p) =~= bl.filter(p) + br.filter(p));
            assert(a.filter(p) == a0.filter(p));
            assert(a.filter(p).map_values(f).to_multiset() =~= b.filter(p).map_values(
                f,
            ).to_multiset());
        }
    }
}

/// A map distributes over concatenation.
proof fn lemma_map_concat(a: Seq<RowModel>, b: Seq<RowModel>, f: spec_fn(RowModel) -> SwView)
    ensures
        (a + b).map_values(f) == a.map_values(f) + b.map_values(f),
{
    assert((a + b).map_values(f) =~= a.map_values(f) + b.map_values(f));
}

/// The multiset of a concatenation with a middle element.
proof fn lemma_multiset_middle(a: Seq<SwView>, b: Seq<SwView>, x: SwView)
    ensures
        (a + (seq![x] + b)).to_multiset() == (a + b).to_multiset().insert(x),
{
    broadcast use group_to_multiset_ensures;

    lemma_multiset_commutative(a, seq![x] + b);
    lemma_multiset_commutative(seq![x], b);
    lemma_multiset_commutative(a, b);
    assert(seq![x].to_multiset() =~= Multiset::<SwView>::empty().insert(x)) by {
        assert(seq![x] =~= Seq::<SwView>::empty().push(x));
    }
    assert((a + (seq![x] + b)).to_multiset() =~= (a + b).to_multiset().insert(x));
}

/// Inserts a result into a vector sorted by similarity, keeping it sorted.
fn insert_sim_sorted(words: &mut Vec<SimilarWord>, w: SimilarWord)
    requires
        sorted_by(old(words).deep_view(), sim_le_p()),
    ensures
        sorted_by(final(words).deep_view(), sim_le_p()),
        final(words).deep_view().to_multiset() == old(words).deep_view().to_multiset().insert(w@),
{
    broadcast use group_to_multiset_ensures;

    let n = words.len();
    let mut j: usize = 0;
    while j < n && !sim_before(&w, &words[j])
        invariant
            j <= n,
            n == words@.len(),
            words == old(words),
            forall|k: int| 0 <= k < j ==> sim_le(#[trigger] words.deep_view()[k], w@),
        decreases n - j,
    {
        proof {
            lemma_sim_le_total(w@, words.deep_view()[j as int]);
        }
        j = j + 1;
    }
    let ghost before = words.deep_view();
    proof {
        if j < n {
            lemma_sim_le_total(w@, before[j as int]);
        }
    }
    words.insert(j, w);
    proof {
        assert(words.deep_view() =~= before.insert(j as int, w@));
        vstd::seq_lib::to_multiset_insert(before, j as int, w@);
        assert forall|a: int, b: int|
            0 <= a < b < words.deep_view().len() implies sim_le_p()(
            words.deep_view()[a],
            words.deep_view()[b],
        ) by {
            let s = words.deep_view();
            if b < j as int {
                assert(s[a] == before[a] && s[b] == before[b]);
            } else if a > j as int {
                assert(s[a] == before[a - 1] && s[b] == before[b - 1]);
            } else if a == j as int {
                assert(s[a] == w@ && s[b] == before[b - 1]);
                if b - 1 > j as int {
                    assert(sim_le_p()(before[j as int], before[b - 1]));
                    lemma_sim_le_trans(w@, before[j as int], before[b - 1]);
                }
            } else if b == j as int {
                assert(s[a] == before[a] && s[b] == w@);
            } else {
                assert(s[a] == before[a] && s[b] == before[b - 1]);
                assert(sim_le_p()(before[a], before[b - 1]));
            }
        }
    }
}

/// Whether `a` sorts strictly before `b`: better score, or same score and
/// earlier word.
fn sim_before(a: &SimilarWord, b: &SimilarWord) -> (r: bool)
    ensures
        r == !sim_le(b@, a@),
{
    if a.score != b.score {
        a.score > b.score
    } else {
        let ca = crate::strutil::str_chars(a.word.as_str());
        let cb = crate::strutil::str_chars(b.word.as_str());
        crate::strutil::chars_lt(&ca, &cb)
    }
}

proof fn lemma_sim_le_total(a: SwView, b: SwView)
    ensures
        sim_le(a, b) || sim_le(b, a),
{
    if a.score == b.score {
        lemma_lex_le_total(a.word, b.word);
    }
}

proof fn lemma_sim_le_trans(a: SwView, b: SwView, c: SwView)
    requires
        sim_le(a, b),
        sim_le(b, c),
    ensures
        sim_le(a, c),
{
    if a.score == b.score && b.score == c.score {
        lemma_lex_le_trans(a.word, b.word, c.word);
    }
}

/// Inserts a row into a key-sorted vector, keeping it sorted.
fn insert_row_sorted(rows: &mut Vec<RevRow>, row: RevRow)
    requires
        sorted_by(old(rows).deep_view(), row_le_p()),
    ensures
        sorted_by(final(rows).deep_view(), row_le_p()),
        final(rows).deep_view().to_multiset() == old(rows).deep_view().to_multiset().insert(row@),
{
    broadcast use group_to_multiset_ensures;

    let n = rows.len();
    let mut j: usize = 0;
    while j < n && !crate::strutil::chars_lt(&row.key, &rows[j].key)
        invariant
            j <= n,
            n == rows@.len(),
            rows == old(rows),
            forall|k: int| 0 <= k < j ==> lex_le(#[trigger] rows.deep_view()[k].key, row@.key),
        decreases n - j,
    {
        proof {
            lemma_lex_le_total(row@.key, rows.deep_view()[j as int].key);
        }
        j = j + 1;
    }
    let ghost before = rows.deep_view();
    proof {
        if j < n {
            lemma_lex_le_total(row@.key, before[j as int].key);
        }
    }
    rows.insert(j, row);
    proof {
        assert(rows.deep_view() =~= before.insert(j as int, row@));
        vstd::seq_lib::to_multiset_insert(before, j as int, row@);
        assert forall|a: int, b: int|
            0 <= a < b < rows.deep_view().len() implies row_le_p()(
            rows.deep_view()[a],
            rows.deep_view()[b],
        ) by {
            let s = rows.deep_view();
            if b < j as int {
                assert(s[a] == before[a] && s[b] == before[b]);
            } else if a > j as int {
                assert(s[a] == before[a - 1] && s[b] == before[b - 1]);
            } else if a == j as int {
                assert(s[a] == row@ && s[b] == before[b - 1]);
                assert(lex_le(row@.key, before[j as int].key));
                if b - 1 > j as int {
                    assert(row_le_p()(before[j as int], before[b - 1]));
                    lemma_lex_le_trans(row@.key, before[j as int].key, before[b - 1].key);
                }
            } else if b == j as int {
                assert(s[a] == before[a] && s[b] == row@);
                assert(lex_le(before[a].key, row@.key));
            } else {
                // a < j < b
                assert(s[a] == before[a] && s[b] == before[b - 1]);
                assert(row_le_p()(before[a], before[b - 1]));
            }
        }
    }
}

/// Appending an entry to one word's list adds exactly its row to the flat
/// rows, as multisets.
proof fn lemma_flat_rows_update_push(ls: Seq<Seq<EntryView>>, i: int, ev: EntryView)
    requires
        0 <= i < ls.len(),
    ensures
        flat_rows(ls.update(i, ls[i].push(ev))).to_multiset() == flat_rows(ls).to_multiset().insert(
            row_of(ev),
        ),
    decreases ls.len(),
{
    broadcast use group_to_multiset_ensures;

    let upd = ls.update(i, ls[i].push(ev));
    if i == ls.len() - 1 {
        assert(upd.drop_last() =~= ls.drop_last());
        assert(upd.last() == ls[i].push(ev));
        assert(rows_of_list(ls[i].push(ev)) =~= rows_of_list(ls[i]).push(row_of(ev)));
        lemma_multiset_commutative(flat_rows(ls.drop_last()), rows_of_list(ls[i].push(ev)));
        lemma_multiset_commutative(flat_rows(ls.drop_last()), rows_of_list(ls[i]));
        assert(rows_of_list(ls[i].push(ev)).to_multiset() =~= rows_of_list(
            ls[i],
        ).to_multiset().insert(row_of(ev)));
        assert(flat_rows(upd).to_multiset() =~= flat_rows(ls).to_multiset().insert(row_of(ev)));
    } else {
        assert(upd.drop_last() =~= ls.drop_last().update(i, ls[i].push(ev)));
        assert(upd.last() == ls.last());
        lemma_flat_rows_update_push(ls.drop_last(), i, ev);
        lemma_multiset_commutative(flat_rows(upd.drop_last()), rows_of_list(upd.last()));
        lemma_multiset_commutative(flat_rows(ls.drop_last()), rows_of_list(ls.last()));
        assert(flat_rows(upd).to_multiset() =~= flat_rows(ls).to_multiset().insert(row_of(ev)));
    }
}

} // verus!
