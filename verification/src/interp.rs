//! Interpretations of a stanza: read-only views that pin one pronunciation
//! variant per token, and the odometer that enumerates every such view.
//!
//! Advancing increments the rightmost advanceable token of the first
//! advanceable line, with carry: within a line the last token is the fastest
//! digit, and line after line rolls over into the next. The very first view
//! produced selects variant zero everywhere. With pruning on, an interior
//! token whose variants all share one syllable count never advances, since
//! those variants cannot change any syllable-count-based classification.

use vstd::prelude::*;
use vstd::pervasive::VecAdditionalExecFns;

use crate::entry::{dict_key_of, Entry, EntryView};
use crate::phoneme::count_stressed;
use crate::snippet::{line_has_unknown, LineModel, Stanza, TokenView};

verus! {

/// The abstract value of a `LineView`: the line it projects and one selected
/// variant index per token.
pub struct LvModel {
    pub line: LineModel,
    pub indices: Seq<usize>,
}

/// The entry a view selects for token `i`, if the word is known.
pub open spec fn sel_entry(tokens: Seq<TokenView>, indices: Seq<usize>, i: int) -> Option<
    EntryView,
> {
    match tokens[i].entry {
        Some(l) => Some(l[indices[i] as int]),
        None => None,
    }
}

/// The syllables of the first `k` selected entries; unknown words count zero.
pub open spec fn line_syllables(tokens: Seq<TokenView>, indices: Seq<usize>, k: int) -> nat
    decreases k,
{
    if k <= 0 {
        0
    } else {
        line_syllables(tokens, indices, k - 1) + match sel_entry(tokens, indices, k - 1) {
            Some(ev) => count_stressed(ev.phonemes),
            None => 0,
        }
    }
}

/// A value capped at the machine word: what a saturating fold returns.
pub open spec fn cap_usize(n: nat) -> nat {
    if n > usize::MAX as nat {
        usize::MAX as nat
    } else {
        n
    }
}

/// Whether all variants of a known word share one syllable count: then no
/// choice among them can change a count-based classification.
pub open spec fn all_same_syllables(v: Seq<EntryView>) -> bool {
    forall|j: int|
        1 <= j < v.len() ==> count_stressed(#[trigger] v[j].phonemes) == count_stressed(
            v[0].phonemes,
        )
}

/// One odometer step of a line, considering digits `i` and later: the last
/// token advances first, carry moves left, and the second component reports
/// roll-over. A token never advances when its word is unknown, has one
/// variant, or (with `filter` on, away from the line end) has variants of one
/// shared syllable count.
pub open spec fn adv(tokens: Seq<TokenView>, idxs: Seq<usize>, filter: bool, i: int) -> (
    Seq<usize>,
    bool,
)
    decreases idxs.len() - i,
{
    if i >= idxs.len() {
        (idxs, true)
    } else {
        let stepped = adv(tokens, idxs, filter, i + 1);
        if !stepped.1 {
            stepped
        } else {
            let idxs1 = stepped.0;
            match tokens[i].entry {
                Some(v) => {
                    if idxs1[i] == 0 && v.len() == 1 {
                        (idxs1, true)
                    } else if idxs1[i] == 0 && i != idxs.len() - 1 && filter && all_same_syllables(
                        v,
                    ) {
                        (idxs1, true)
                    } else if idxs1[i] + 1 == v.len() {
                        (idxs1.update(i, 0usize), true)
                    } else {
                        (idxs1.update(i, (idxs1[i] + 1) as usize), false)
                    }
                },
                None => (idxs1, true),
            }
        }
    }
}

/// A view of one line that selects one variant per token.
pub struct LineView {
    line: crate::snippet::Line,
    indices: Vec<usize>,
}

impl View for LineView {
    type V = LvModel;

    closed spec fn view(&self) -> LvModel {
        LvModel { line: self.line@, indices: self.indices@ }
    }
}

impl DeepView for LineView {
    type V = LvModel;

    closed spec fn deep_view(&self) -> LvModel {
        self@
    }
}

/// A selected index stays within its token's variant list; unknown words pin
/// index zero.
pub open spec fn indices_ok(tokens: Seq<TokenView>, indices: Seq<usize>) -> bool {
    &&& indices.len() == tokens.len()
    &&& forall|j: int|
        0 <= j < indices.len() ==> match (#[trigger] tokens[j]).entry {
            Some(l) => (indices[j] as int) < l.len(),
            None => indices[j] == 0,
        }
}

impl LineView {
    /// The projected line is well formed, nonempty, and every index in range.
    pub closed spec fn wf(&self) -> bool {
        &&& self.line.wf()
        &&& self@.line.tokens.len() > 0
        &&& indices_ok(self@.line.tokens, self@.indices)
    }

    /// A view of the given line, selecting variant zero everywhere.
    pub fn new(l: &crate::snippet::Line) -> (r: LineView)
        requires
            l.wf(),
            l@.tokens.len() > 0,
        ensures
            r@.line == l@,
            r@.indices == Seq::new(l@.tokens.len(), |i: int| 0usize),
            r.wf(),
    {
        let n = l.tokens.len();
        let indices: Vec<usize> = vec![0usize; n];
        let r = LineView { line: l.duplicate(), indices };
        proof {
            assert(r@.indices =~= Seq::new(l@.tokens.len(), |i: int| 0usize));
        }
        r
    }

    /// The selected entry of the `idx`-th token, if the word is known.
    pub fn get_entry(&self, idx: usize) -> (r: Option<&Entry>)
        requires
            self.wf(),
            idx < self@.line.tokens.len(),
        ensures
            match r {
                Some(e) => sel_entry(self@.line.tokens, self@.indices, idx as int) == Some(e@)
                    && e.wf(),
                None => sel_entry(self@.line.tokens, self@.indices, idx as int) is None,
            },
    {
        match &self.line.tokens[idx].entry {
            Some(v) => {
                let e = &v[self.indices[idx]];
                proof {
                    assert(self.line.tokens@[idx as int].wf());
                    assert(e@ == sel_entry(self@.line.tokens, self@.indices, idx as int)->Some_0);
                }
                Some(e)
            },
            None => None,
        }
    }

    /// The selected entry of the last token, the one rhyme checks compare.
    pub fn last_entry(&self) -> (r: Option<&Entry>)
        requires
            self.wf(),
        ensures
            match r {
                Some(e) => sel_entry(
                    self@.line.tokens,
                    self@.indices,
                    self@.line.tokens.len() - 1,
                ) == Some(e@) && e.wf(),
                None => sel_entry(
                    self@.line.tokens,
                    self@.indices,
                    self@.line.tokens.len() - 1,
                ) is None,
            },
    {
        self.get_entry(self.indices.len() - 1)
    }

    /// The syllables of the line under this view, unknown words counting
    /// zero: an underestimate when the line has unknown words.
    pub fn num_syllables(&self) -> (r: usize)
        requires
            self.wf(),
        ensures
            r as nat == cap_usize(
                line_syllables(self@.line.tokens, self@.indices, self@.line.tokens.len() as int),
            ),
    {
        let n = self.line.tokens.len();
        let mut total: usize = 0;
        let mut i: usize = 0;
        while i < n
            invariant
                i <= n,
                n == self@.line.tokens.len(),
                self.wf(),
                total as nat == cap_usize(line_syllables(self@.line.tokens, self@.indices, i as int)),
            decreases n - i,
        {
            let s = match self.get_entry(i) {
                Some(e) => e.num_syllables(),
                None => 0,
            };
            total = total.saturating_add(s);
            i = i + 1;
        }
        total
    }

    /// The 1-indexed source line number.
    pub fn num(&self) -> (r: usize)
        ensures
            r as nat == self@.line.num,
    {
        self.line.num
    }

    /// The 0-indexed position of the line in its stanza.
    pub fn index(&self) -> (r: usize)
        ensures
            r as nat == self@.line.index,
    {
        self.line.index
    }

    /// Whether any word of the line is missing from the dictionary.
    pub fn has_unknown_words(&self) -> (r: bool)
        ensures
            r == line_has_unknown(self@.line.tokens),
    {
        self.line.has_unknown_words()
    }

    /// The selected dictionary keys of the line's tokens, space-separated;
    /// `None` stands in for unknown words.
    pub fn token_string(&self) -> (r: String)
        requires
            self.wf(),
        ensures
            r@ == token_string_spec(
                self@.line.tokens,
                self@.indices,
                self@.line.tokens.len() as int,
            ),
    {
        let n = self.line.tokens.len();
        let mut out = String::new();
        let mut i: usize = 0;
        proof {
            assert(out@ =~= token_string_spec(self@.line.tokens, self@.indices, 0));
        }
        while i < n
            invariant
                i <= n,
                n == self@.line.tokens.len(),
                self.wf(),
                out@ == token_string_spec(self@.line.tokens, self@.indices, i as int),
            decreases n - i,
        {
            if i > 0 {
                out.append(" ");
                proof {
                    reveal_strlit(" ");
                    assert(" "@ =~= seq![' ']);
                }
            }
            match self.get_entry(i) {
                Some(e) => {
                    let k = e.dict_key();
                    out.append(k.as_str());
                },
                None => {
                    out.append("None");
                },
            }
            i = i + 1;
            proof {
                assert(out@ =~= token_string_spec(
                    self@.line.tokens,
                    self@.indices,
                    i as int,
                ));
            }
        }
        out
    }

    /// One odometer step. Returns true when the line rolled over (and is back
    /// at its first interpretation), so the next line must advance.
    pub fn advance(&mut self, filter: bool) -> (done: bool)
        requires
            old(self).wf(),
        ensures
            final(self).wf(),
            final(self)@.line == old(self)@.line,
            (final(self)@.indices, done) == adv(
                old(self)@.line.tokens,
                old(self)@.indices,
                filter,
                0,
            ),
    {
        self.advance_internal(filter, 0)
    }

    /// The recursive odometer step over digits `idx` and later.
    fn advance_internal(&mut self, filter: bool, idx: usize) -> (done: bool)
        requires
            old(self).wf(),
            idx <= old(self)@.indices.len(),
        ensures
            final(self).wf(),
            final(self)@.line == old(self)@.line,
            (final(self)@.indices, done) == adv(
                old(self)@.line.tokens,
                old(self)@.indices,
                filter,
                idx as int,
            ),
        decreases old(self)@.indices.len() - idx,
    {
        let ghost tokens = self@.line.tokens;
        let ghost idxs0 = self@.indices;
        if idx >= self.indices.len() {
            return true;
        }
        let reached_the_end = self.advance_internal(filter, idx + 1);
        let ghost idxs1 = self@.indices;
        if !reached_the_end {
            return false;
        }
        proof {
            assert(self.line.tokens@[idx as int].wf());
        }
        match &self.line.tokens[idx].entry {
            Some(v) => {
                let vlen = v.len();
                proof {
                    assert(self@.line.tokens[idx as int].entry == Some(v.deep_view()));
                    assert((self@.indices[idx as int] as int) < v.deep_view().len());
                }
                let cur = self.indices[idx];
                if cur == 0 {
                    if vlen == 1 {
                        return true;
                    }
                    if idx != self.indices.len() - 1 {
                        let same = variants_all_same(v);
                        if filter && same {
                            return true;
                        }
                    }
                }
                let next = cur + 1;
                if next == vlen {
                    self.indices.set(idx, 0);
                    proof {
                        assert(self@.indices =~= idxs1.update(idx as int, 0usize));
                    }
                    true
                } else {
                    self.indices.set(idx, next);
                    proof {
                        assert(self@.indices =~= idxs1.update(idx as int, next));
                    }
                    false
                }
            },
            None => true,
        }
    }
}

/// Tests whether all variants of a known word share one syllable count.
fn variants_all_same(v: &Vec<Entry>) -> (r: bool)
    requires
        v@.len() > 0,
        forall|k: int| 0 <= k < v@.len() ==> (#[trigger] v@[k]).wf(),
    ensures
        r == all_same_syllables(v.deep_view()),
{
    let base = v[0].num_syllables();
    let m = v.len();
    let mut j: usize = 1;
    while j < m
        invariant
            1 <= j <= m,
            m == v@.len(),
            forall|k: int| 0 <= k < v@.len() ==> (#[trigger] v@[k]).wf(),
            base as nat == count_stressed(v.deep_view()[0].phonemes),
            forall|k: int|
                1 <= k < j ==> count_stressed(#[trigger] v.deep_view()[k].phonemes)
                    == count_stressed(v.deep_view()[0].phonemes),
        decreases m - j,
    {
        if v[j].num_syllables() != base {
            proof {
                assert(count_stressed(v.deep_view()[j as int].phonemes) != count_stressed(
                    v.deep_view()[0].phonemes,
                ));
            }
            return false;
        }
        proof {
            assert(count_stressed(v.deep_view()[j as int].phonemes) == count_stressed(
                v.deep_view()[0].phonemes,
            ));
        }
        j = j + 1;
    }
    true
}

/// The index vector selecting variant zero for every token.
pub open spec fn zero_indices(n: nat) -> Seq<usize> {
    Seq::new(n, |i: int| 0usize)
}

/// The all-zero view of each line of a stanza.
pub open spec fn zero_view(lines: Seq<LineModel>) -> Seq<LvModel> {
    Seq::new(
        lines.len(),
        |i: int| LvModel { line: lines[i], indices: zero_indices(lines[i].tokens.len()) },
    )
}

/// One odometer step of a whole stanza, from line `i` on: each line that
/// rolls over carries into the next; the second component reports that every
/// line rolled over, i.e. the enumeration is complete.
pub open spec fn stanza_adv(lines: Seq<LvModel>, filter: bool, i: int) -> (Seq<LvModel>, bool)
    decreases lines.len() - i,
    via stanza_adv_decreases
{
    if i < 0 || i >= lines.len() {
        (lines, true)
    } else {
        let st = adv(lines[i].line.tokens, lines[i].indices, filter, 0);
        let newlines = lines.update(i, LvModel { line: lines[i].line, indices: st.0 });
        if !st.1 {
            (newlines, false)
        } else {
            stanza_adv(newlines, filter, i + 1)
        }
    }
}

#[via_fn]
proof fn stanza_adv_decreases(lines: Seq<LvModel>, filter: bool, i: int) {
    if 0 <= i < lines.len() {
        let st = adv(lines[i].line.tokens, lines[i].indices, filter, 0);
        assert(lines.update(i, LvModel { line: lines[i].line, indices: st.0 }).len()
            == lines.len());
    }
}

/// A view of a stanza pinning one variant per token, one `LineView` per line.
pub struct StanzaView {
    lines: Vec<LineView>,
}

impl View for StanzaView {
    type V = Seq<LvModel>;

    closed spec fn view(&self) -> Seq<LvModel> {
        self.lines.deep_view()
    }
}

impl StanzaView {
    /// Every line view is well formed.
    pub closed spec fn wf(&self) -> bool {
        forall|i: int| 0 <= i < self@.len() ==> (#[trigger] self.lines@[i]).wf()
    }

    /// Each line view in a well-formed stanza view is well formed.
    pub proof fn lemma_wf_lines(&self)
        requires
            self.wf(),
        ensures
            forall|i: int|
                0 <= i < self@.len() ==> indices_ok(
                    (#[trigger] self@[i]).line.tokens,
                    self@[i].indices,
                ) && self@[i].line.tokens.len() > 0,
    {
        assert forall|i: int|
            0 <= i < self@.len() implies indices_ok(
            (#[trigger] self@[i]).line.tokens,
            self@[i].indices,
        ) && self@[i].line.tokens.len() > 0 by {
            assert(self.lines@[i].wf());
            assert(self.lines@[i]@ == self@[i]);
        }
    }

    /// The all-zero view over the given stanza.
    pub fn new(s: &Stanza) -> (r: StanzaView)
        requires
            s.wf(),
        ensures
            r@ == zero_view(s@.lines),
            r.wf(),
    {
        let n = s.lines.len();
        let mut lines: Vec<LineView> = Vec::new();
        let mut i: usize = 0;
        while i < n
            invariant
                i <= n,
                n == s@.lines.len(),
                s.wf(),
                lines@.len() == i,
                forall|j: int| 0 <= j < i ==> (#[trigger] lines@[j]).wf(),
                forall|j: int| 0 <= j < i ==> (#[trigger] lines@[j])@ == zero_view(s@.lines)[j],
            decreases n - i,
        {
            proof {
                assert(s.lines@[i as int].wf());
                assert(s.lines@[i as int]@ == s@.lines[i as int]);
            }
            let lv = LineView::new(&s.lines[i]);
            lines.push(lv);
            i = i + 1;
        }
        let r = StanzaView { lines };
        proof {
            assert(r@ =~= zero_view(s@.lines));
        }
        r
    }

    /// The number of lines in the view (and its stanza).
    pub fn num_lines(&self) -> (r: usize)
        ensures
            r == self@.len(),
    {
        self.lines.len()
    }

    /// The view of one line.
    pub fn line(&self, i: usize) -> (r: &LineView)
        requires
            i < self@.len(),
        ensures
            r@ == self@[i as int],
            self.wf() ==> r.wf(),
    {
        proof {
            assert(self.lines@[i as int]@ == self@[i as int]);
            if self.wf() {
                assert(self.lines@[i as int].wf());
            }
        }
        &self.lines[i]
    }

    /// A deep copy of the view.
    pub fn duplicate(&self) -> (r: StanzaView)
        requires
            self.wf(),
        ensures
            r@ == self@,
            r.wf(),
    {
        let n = self.lines.len();
        let mut lines: Vec<LineView> = Vec::new();
        let mut i: usize = 0;
        while i < n
            invariant
                i <= n,
                n == self@.len(),
                self.wf(),
                lines@.len() == i,
                forall|j: int| 0 <= j < i ==> (#[trigger] lines@[j]).wf(),
                forall|j: int| 0 <= j < i ==> (#[trigger] lines@[j])@ == self@[j],
            decreases n - i,
        {
            proof {
                assert(self.lines@[i as int].wf());
                assert(self.lines@[i as int]@ == self@[i as int]);
            }
            let lv = self.lines[i].duplicate();
            lines.push(lv);
            i = i + 1;
        }
        let r = StanzaView { lines };
        proof {
            assert(r@ =~= self@);
        }
        r
    }
}

impl LineView {
    /// A deep copy of the line view.
    pub fn duplicate(&self) -> (r: LineView)
        requires
            self.wf(),
        ensures
            r@ == self@,
            r.wf(),
    {
        let n = self.indices.len();
        let mut indices: Vec<usize> = Vec::new();
        let mut i: usize = 0;
        while i < n
            invariant
                i <= n,
                n == self.indices@.len(),
                indices@ == self.indices@.subrange(0, i as int),
            decreases n - i,
        {
            indices.push(self.indices[i]);
            i = i + 1;
            assert(indices@ =~= self.indices@.subrange(0, i as int));
        }
        proof {
            assert(indices@ =~= self.indices@);
        }
        proof {
            assert(self.line.wf());
        }
        let r = LineView { line: self.line.duplicate(), indices };
        r
    }
}

/// The number of interpretations one token contributes: its variant count
/// when it can advance, one otherwise.
pub open spec fn token_factor(tokens: Seq<TokenView>, i: int, pruned: bool) -> nat {
    match tokens[i].entry {
        Some(v) => if v.len() <= 1 {
            1
        } else if i == tokens.len() - 1 {
            v.len()
        } else if pruned && all_same_syllables(v) {
            1
        } else {
            v.len()
        },
        None => 1,
    }
}

/// The product of the first `k` token factors of a line.
pub open spec fn line_product(tokens: Seq<TokenView>, k: int, pruned: bool) -> nat
    decreases k,
{
    if k <= 0 {
        1
    } else {
        line_product(tokens, k - 1, pruned) * token_factor(tokens, k - 1, pruned)
    }
}

/// The product of the line products of the first `k` lines.
pub open spec fn stanza_product(lines: Seq<LvModel>, k: int, pruned: bool) -> nat
    decreases k,
{
    if k <= 0 {
        1
    } else {
        stanza_product(lines, k - 1, pruned) * line_product(
            lines[k - 1].line.tokens,
            lines[k - 1].line.tokens.len() as int,
            pruned,
        )
    }
}

/// Enumerates every interpretation of a stanza, the all-zero view first.
pub struct InterpretationsIter {
    view: StanzaView,
    first_run: bool,
    filter: bool,
}

impl InterpretationsIter {
    /// The current odometer state.
    pub closed spec fn cur(&self) -> Seq<LvModel> {
        self.view@
    }

    /// Whether the first view has not been produced yet.
    pub closed spec fn is_first(&self) -> bool {
        self.first_run
    }

    /// Whether pruning is on (it is, for every iterator this library builds).
    pub closed spec fn filtering(&self) -> bool {
        self.filter
    }

    /// The held view is well formed.
    pub closed spec fn wf(&self) -> bool {
        self.view.wf()
    }

    /// An iterator over all interpretations of the stanza, with pruning on;
    /// the first view it yields selects variant zero everywhere.
    pub fn new(s: &Stanza) -> (r: InterpretationsIter)
        requires
            s.wf(),
        ensures
            r.wf(),
            r.is_first(),
            r.filtering(),
            r.cur() == zero_view(s@.lines),
    {
        InterpretationsIter { view: StanzaView::new(s), first_run: true, filter: true }
    }

    /// The next interpretation: the current view on the first call, then one
    /// odometer step per call until every line rolls over at once.
    #[verifier::loop_isolation(false)]
    pub fn next(&mut self) -> (r: Option<StanzaView>)
        requires
            old(self).wf(),
        ensures
            final(self).wf(),
            final(self).filtering() == old(self).filtering(),
            !final(self).is_first(),
            old(self).is_first() ==> {
                &&& final(self).cur() == old(self).cur()
                &&& (r matches Some(v) && v@ == old(self).cur() && v.wf())
            },
            !old(self).is_first() ==> {
                let st = stanza_adv(old(self).cur(), old(self).filtering(), 0);
                &&& final(self).cur() == st.0
                &&& (st.1 ==> r is None)
                &&& (!st.1 ==> (r matches Some(v) && v@ == st.0 && v.wf()))
            },
    {
        if self.first_run {
            self.first_run = false;
            return Some(self.view.duplicate());
        }
        let ghost orig = self.view@;
        let n = self.view.lines.len();
        let mut i: usize = 0;
        while i < n
            invariant
                i <= n,
                n == self.view@.len(),
                self.view.wf(),
                self.first_run == false,
                self.filter == old(self).filtering(),
                stanza_adv(orig, self.filter, 0) == stanza_adv(self.view@, self.filter, i as int),
            decreases n - i,
        {
            let ghost pre = self.view@;
            let mut lv = self.view.lines.remove(i);
            proof {
                assert(lv.wf());
                assert(lv@ == pre[i as int]);
            }
            let done = lv.advance(self.filter);
            let ghost lvafter = lv@;
            self.view.lines.insert(i, lv);
            proof {
                assert(self.view@ =~~= pre.update(i as int, lvafter));
                let st = adv(pre[i as int].line.tokens, pre[i as int].indices, self.filter, 0);
                assert(lvafter == LvModel { line: pre[i as int].line, indices: st.0 });
                assert(done == st.1);
                assert forall|j: int| 0 <= j < self.view@.len() implies (
                #[trigger] self.view.lines@[j]).wf() by {
                    if j != i as int {
                        assert(self.view.lines@[j]@ == pre[j]);
                    }
                }
            }
            if !done {
                proof {
                    assert(stanza_adv(pre, self.filter, i as int) == (self.view@, false));
                }
                return Some(self.view.duplicate());
            }
            proof {
                assert(stanza_adv(pre, self.filter, i as int) == stanza_adv(
                    self.view@,
                    self.filter,
                    i + 1,
                ));
            }
            i = i + 1;
        }
        proof {
            assert(stanza_adv(self.view@, self.filter, n as int) == (self.view@, true));
        }
        None
    }

    /// A size estimate: an exact count (capped at the machine word) of the
    /// interpretations the iterator enumerates from its starting state, as
    /// the product of every token's variant range after pruning.
    #[verifier::loop_isolation(false)]
    pub fn size_hint(&self) -> (r: (usize, Option<usize>))
        requires
            self.wf(),
        ensures
            r.0 == 0,
            (r.1 matches Some(c) && c as nat == cap_usize(
                stanza_product(self.cur(), self.cur().len() as int, self.filtering()),
            )),
    {
        let n = self.view.lines.len();
        let mut count: usize = 1;
        let mut i: usize = 0;
        while i < n
            invariant
                i <= n,
                count as nat == cap_usize(stanza_product(self.cur(), i as int, self.filtering())),
            decreases n - i,
        {
            let lv = &self.view.lines[i];
            proof {
                assert(lv.wf());
                assert(lv@ == self.cur()[i as int]);
            }
            let tokens = &lv.line.tokens;
            let m = tokens.len();
            let mut lp: usize = 1;
            let mut t: usize = 0;
            while t < m
                invariant
                    t <= m,
                    m == lv@.line.tokens.len(),
                    lv.wf(),
                    lv@ == self.cur()[i as int],
                    tokens.deep_view() == lv@.line.tokens,
                    lp as nat == cap_usize(
                        line_product(lv@.line.tokens, t as int, self.filtering()),
                    ),
                decreases m - t,
            {
                proof {
                    assert(tokens@[t as int].wf());
                    assert(tokens@[t as int]@ == lv@.line.tokens[t as int]);
                }
                let factor: usize = match &tokens[t].entry {
                    Some(v) => {
                        if v.len() <= 1 {
                            1
                        } else if t == m - 1 {
                            v.len()
                        } else if self.filter && variants_all_same(v) {
                            1
                        } else {
                            if !self.filter {
                                proof {
                                    assert(token_factor(lv@.line.tokens, t as int, self.filtering())
                                        == v.deep_view().len());
                                }
                            }
                            v.len()
                        }
                    },
                    None => 1,
                };
                proof {
                    assert(factor as nat == token_factor(
                        lv@.line.tokens,
                        t as int,
                        self.filtering(),
                    ));
                    assert(factor >= 1);
                }
                lp = saturating_mul(lp, factor);
                t = t + 1;
                proof {
                    lemma_cap_mul(
                        line_product(lv@.line.tokens, t - 1, self.filtering()),
                        factor as nat,
                    );
                }
            }
            proof {
                lemma_line_product_pos(lv@.line.tokens, m as int, self.filtering());
                lemma_stanza_product_pos(self.cur(), i as int, self.filtering());
            }
            count = saturating_mul(count, lp);
            i = i + 1;
            proof {
                assert(lv@.line.tokens.len() as int == m as int);
                lemma_cap_mul2(
                    stanza_product(self.cur(), i - 1, self.filtering()),
                    line_product(lv@.line.tokens, m as int, self.filtering()),
                );
            }
        }
        (0, Some(count))
    }
}

/// Multiplies, capping at the machine word.
fn saturating_mul(a: usize, b: usize) -> (r: usize)
    ensures
        r as nat == cap_usize((a * b) as nat),
{
    match a.checked_mul(b) {
        Some(r) => r,
        None => usize::MAX,
    }
}

/// Capping composes with multiplication by a positive factor.
proof fn lemma_cap_mul(p: nat, f: nat)
    requires
        f >= 1,
    ensures
        cap_usize(cap_usize(p) * f) == cap_usize(p * f),
{
    if p > usize::MAX as nat {
        assert(cap_usize(p) * f >= cap_usize(p)) by (nonlinear_arith)
            requires
                f >= 1,
                cap_usize(p) >= 0,
        ;
        assert(p * f >= p) by (nonlinear_arith)
            requires
                f >= 1,
                p >= 0,
        ;
    }
}

/// Capping composes with multiplication of two positive factors.
proof fn lemma_cap_mul2(p: nat, q: nat)
    requires
        p >= 1,
        q >= 1,
    ensures
        cap_usize(cap_usize(p) * cap_usize(q)) == cap_usize(p * q),
{
    if p <= usize::MAX as nat && q <= usize::MAX as nat {
    } else {
        assert(cap_usize(p) >= 1 && cap_usize(q) >= 1);
        assert(cap_usize(p) * cap_usize(q) >= cap_usize(p) && cap_usize(p) * cap_usize(q)
            >= cap_usize(q)) by (nonlinear_arith)
            requires
                cap_usize(p) >= 1,
                cap_usize(q) >= 1,
        ;
        assert(p * q >= p && p * q >= q) by (nonlinear_arith)
            requires
                p >= 1,
                q >= 1,
        ;
    }
}

/// A stanza's interpretation count is at least one.
pub proof fn lemma_stanza_product_pos(lines: Seq<LvModel>, k: int, pruned: bool)
    ensures
        stanza_product(lines, k, pruned) >= 1,
    decreases k,
{
    if k > 0 {
        lemma_stanza_product_pos(lines, k - 1, pruned);
        lemma_line_product_pos(
            lines[k - 1].line.tokens,
            lines[k - 1].line.tokens.len() as int,
            pruned,
        );
        assert(stanza_product(lines, k - 1, pruned) * line_product(
            lines[k - 1].line.tokens,
            lines[k - 1].line.tokens.len() as int,
            pruned,
        ) >= 1) by (nonlinear_arith)
            requires
                stanza_product(lines, k - 1, pruned) >= 1,
                line_product(
                    lines[k - 1].line.tokens,
                    lines[k - 1].line.tokens.len() as int,
                    pruned,
                ) >= 1,
        ;
    }
}

/// A line's interpretation count is at least one.
pub proof fn lemma_line_product_pos(tokens: Seq<TokenView>, k: int, pruned: bool)
    ensures
        line_product(tokens, k, pruned) >= 1,
    decreases k,
{
    if k > 0 {
        lemma_line_product_pos(tokens, k - 1, pruned);
        assert(line_product(tokens, k, pruned) == line_product(tokens, k - 1, pruned)
            * token_factor(tokens, k - 1, pruned));
        assert(token_factor(tokens, k - 1, pruned) >= 1) by {
            match tokens[k - 1].entry {
                Some(v) => {},
                None => {},
            }
        }
        assert(line_product(tokens, k - 1, pruned) * token_factor(tokens, k - 1, pruned) >= 1) by (
        nonlinear_arith)
            requires
                line_product(tokens, k - 1, pruned) >= 1,
                token_factor(tokens, k - 1, pruned) >= 1,
        ;
    }
}

/// A pruned token factor never exceeds the unpruned one.
proof fn lemma_token_factor_le(tokens: Seq<TokenView>, i: int)
    ensures
        token_factor(tokens, i, true) <= token_factor(tokens, i, false),
        token_factor(tokens, i, true) >= 1,
        token_factor(tokens, i, false) >= 1,
{
    match tokens[i].entry {
        Some(v) => {},
        None => {},
    }
}

/// A pruned line product never exceeds the unpruned one.
proof fn lemma_line_product_le(tokens: Seq<TokenView>, k: int)
    ensures
        line_product(tokens, k, true) <= line_product(tokens, k, false),
    decreases k,
{
    if k > 0 {
        lemma_line_product_le(tokens, k - 1);
        lemma_token_factor_le(tokens, k - 1);
        assert(line_product(tokens, k - 1, true) * token_factor(tokens, k - 1, true)
            <= line_product(tokens, k - 1, false) * token_factor(tokens, k - 1, false)) by (
        nonlinear_arith)
            requires
                line_product(tokens, k - 1, true) <= line_product(tokens, k - 1, false),
                token_factor(tokens, k - 1, true) <= token_factor(tokens, k - 1, false),
                token_factor(tokens, k - 1, true) >= 0,
                line_product(tokens, k - 1, true) >= 0,
        ;
    }
}

/// Past a prunable interior token, the pruned line product stays at most half
/// the unpruned one.
proof fn lemma_line_product_half(tokens: Seq<TokenView>, j: int, k: int)
    requires
        0 <= j < tokens.len() - 1,
        j < k <= tokens.len(),
        tokens[j].entry is Some,
        tokens[j].entry->Some_0.len() >= 2,
        all_same_syllables(tokens[j].entry->Some_0),
    ensures
        2 * line_product(tokens, k, true) <= line_product(tokens, k, false),
    decreases k,
{
    if k == j + 1 {
        lemma_line_product_le(tokens, j);
        lemma_line_product_pos(tokens, j, true);
        assert(token_factor(tokens, j, true) == 1);
        assert(token_factor(tokens, j, false) == tokens[j].entry->Some_0.len());
        assert(2 * (line_product(tokens, j, true) * 1) <= line_product(tokens, j, false)
            * token_factor(tokens, j, false)) by (nonlinear_arith)
            requires
                line_product(tokens, j, true) <= line_product(tokens, j, false),
                token_factor(tokens, j, false) >= 2,
                line_product(tokens, j, true) >= 0,
        ;
    } else {
        lemma_line_product_half(tokens, j, k - 1);
        lemma_token_factor_le(tokens, k - 1);
        assert(2 * (line_product(tokens, k - 1, true) * token_factor(tokens, k - 1, true))
            <= line_product(tokens, k - 1, false) * token_factor(tokens, k - 1, false)) by (
        nonlinear_arith)
            requires
                2 * line_product(tokens, k - 1, true) <= line_product(tokens, k - 1, false),
                token_factor(tokens, k - 1, true) <= token_factor(tokens, k - 1, false),
                token_factor(tokens, k - 1, true) >= 1,
                line_product(tokens, k - 1, true) >= 0,
        ;
    }
}

/// A pruned stanza product never exceeds the unpruned one.
proof fn lemma_stanza_product_le(lines: Seq<LvModel>, k: int)
    ensures
        stanza_product(lines, k, true) <= stanza_product(lines, k, false),
    decreases k,
{
    if k > 0 {
        lemma_stanza_product_le(lines, k - 1);
        let toks = lines[k - 1].line.tokens;
        lemma_line_product_le(toks, toks.len() as int);
        lemma_line_product_pos(toks, toks.len() as int, true);
        lemma_stanza_product_pos(lines, k - 1, true);
        assert(stanza_product(lines, k - 1, true) * line_product(toks, toks.len() as int, true)
            <= stanza_product(lines, k - 1, false) * line_product(
            toks,
            toks.len() as int,
            false,
        )) by (nonlinear_arith)
            requires
                stanza_product(lines, k - 1, true) <= stanza_product(lines, k - 1, false),
                line_product(toks, toks.len() as int, true) <= line_product(
                    toks,
                    toks.len() as int,
                    false,
                ),
                line_product(toks, toks.len() as int, true) >= 0,
                stanza_product(lines, k - 1, true) >= 0,
        ;
    }
}

/// Law: whenever some line holds an interior token with several variants of
/// one shared syllable count, the pruned size estimate is strictly smaller
/// than the unpruned one.
pub proof fn lemma_pruning_shrinks_estimate(lines: Seq<LvModel>, li: int, tj: int)
    requires
        0 <= li < lines.len(),
        0 <= tj < lines[li].line.tokens.len() - 1,
        lines[li].line.tokens[tj].entry is Some,
        lines[li].line.tokens[tj].entry->Some_0.len() >= 2,
        all_same_syllables(lines[li].line.tokens[tj].entry->Some_0),
    ensures
        stanza_product(lines, lines.len() as int, true) < stanza_product(
            lines,
            lines.len() as int,
            false,
        ),
{
    lemma_stanza_half(lines, li, tj, lines.len() as int);
    lemma_stanza_product_pos(lines, lines.len() as int, true);
}

/// Past the line with the prunable token, the pruned stanza product stays at
/// most half the unpruned one.
proof fn lemma_stanza_half(lines: Seq<LvModel>, li: int, tj: int, k: int)
    requires
        0 <= li < lines.len(),
        0 <= tj < lines[li].line.tokens.len() - 1,
        lines[li].line.tokens[tj].entry is Some,
        lines[li].line.tokens[tj].entry->Some_0.len() >= 2,
        all_same_syllables(lines[li].line.tokens[tj].entry->Some_0),
        li < k <= lines.len(),
    ensures
        2 * stanza_product(lines, k, true) <= stanza_product(lines, k, false),
    decreases k,
{
    let toks = lines[k - 1].line.tokens;
    if k == li + 1 {
        lemma_stanza_product_le(lines, li);
        lemma_line_product_half(toks, tj, toks.len() as int);
        lemma_line_product_pos(toks, toks.len() as int, true);
        lemma_stanza_product_pos(lines, li, true);
        assert(2 * (stanza_product(lines, li, true) * line_product(toks, toks.len() as int, true))
            <= stanza_product(lines, li, false) * line_product(toks, toks.len() as int, false)) by (
        nonlinear_arith)
            requires
                stanza_product(lines, li, true) <= stanza_product(lines, li, false),
                2 * line_product(toks, toks.len() as int, true) <= line_product(
                    toks,
                    toks.len() as int,
                    false,
                ),
                stanza_product(lines, li, true) >= 0,
                line_product(toks, toks.len() as int, true) >= 0,
                stanza_product(lines, li, false) >= 0,
        ;
    } else {
        lemma_stanza_half(lines, li, tj, k - 1);
        lemma_line_product_le(toks, toks.len() as int);
        lemma_line_product_pos(toks, toks.len() as int, true);
        assert(2 * (stanza_product(lines, k - 1, true) * line_product(
            toks,
            toks.len() as int,
            true,
        )) <= stanza_product(lines, k - 1, false) * line_product(toks, toks.len() as int, false))
            by (nonlinear_arith)
            requires
                2 * stanza_product(lines, k - 1, true) <= stanza_product(lines, k - 1, false),
                line_product(toks, toks.len() as int, true) <= line_product(
                    toks,
                    toks.len() as int,
                    false,
                ),
                line_product(toks, toks.len() as int, true) >= 1,
                stanza_product(lines, k - 1, true) >= 0,
        ;
    }
}

impl Stanza {
    /// An iterator over every interpretation of the stanza: the Cartesian
    /// product of the variant choices of its tokens, pruned as the iterator
    /// describes.
    pub fn interpretations(&self) -> (r: InterpretationsIter)
        requires
            self.wf(),
        ensures
            r.wf(),
            r.is_first(),
            r.filtering(),
            r.cur() == zero_view(self@.lines),
    {
        InterpretationsIter::new(self)
    }
}

/// The space-separated selected dictionary keys of the first `k` tokens.
pub open spec fn token_string_spec(tokens: Seq<TokenView>, indices: Seq<usize>, k: int) -> Seq<
    char,
>
    decreases k,
{
    if k <= 0 {
        Seq::empty()
    } else {
        token_string_spec(tokens, indices, k - 1) + (if k > 1 {
            seq![' ']
        } else {
            Seq::empty()
        }) + match sel_entry(tokens, indices, k - 1) {
            Some(ev) => dict_key_of(ev.word, ev.variant),
            None => "None"@,
        }
    }
}

} // verus!
