//! Verse-form classifiers: stateless checks that take one interpretation of a
//! stanza and report structured, line-addressable errors.
//!
//! Stanza-scoped errors sort before line-scoped ones; stanza errors order by
//! message, line errors by line index and then message.

use vstd::prelude::*;
use vstd::relations::sorted_by;
use vstd::seq_lib::group_to_multiset_ensures;

use crate::entry::{entry_text, EntryView};
use crate::interp::{
    cap_usize, line_syllables, sel_entry, stanza_adv, stanza_product, zero_view, LineView, LvModel,
    StanzaView,
};
use crate::phoneme::{count_stressed, last_syllables};
use crate::snippet::{line_has_unknown, Stanza};
use crate::strutil::{
    dec_rep, dec_string, lemma_lex_le_total, lemma_lex_le_trans, lemma_lex_lt_connected, lex_le,
    lex_lt,
};
use vstd::string::StringExecFns;

verus! {

/// The abstract value of a `ClassifyError`.
pub enum CeView {
    StanzaError(Seq<char>),
    LineError(int, Seq<char>),
}

/// An error from a classifier: scoped to the whole stanza, or to one line
/// (addressed by its index into the stanza's lines).
#[derive(Debug)]
pub enum ClassifyError {
    /// An error covering the whole stanza, e.g. a wrong number of lines.
    StanzaError(String),
    /// An error about one line; the index is 0-based within the stanza.
    LineError(usize, String),
}

impl View for ClassifyError {
    type V = CeView;

    open spec fn view(&self) -> CeView {
        match self {
            ClassifyError::StanzaError(m) => CeView::StanzaError(m@),
            ClassifyError::LineError(i, m) => CeView::LineError(*i as int, m@),
        }
    }
}

impl DeepView for ClassifyError {
    type V = CeView;

    open spec fn deep_view(&self) -> CeView {
        self@
    }
}

/// The classifier error order: stanza errors first, by message; then line
/// errors by line index and message.
pub open spec fn ce_le(a: CeView, b: CeView) -> bool {
    match (a, b) {
        (CeView::StanzaError(x), CeView::StanzaError(y)) => lex_le(x, y),
        (CeView::StanzaError(x), CeView::LineError(j, y)) => true,
        (CeView::LineError(i, x), CeView::StanzaError(y)) => false,
        (CeView::LineError(i, x), CeView::LineError(j, y)) => i < j || (i == j && lex_le(x, y)),
    }
}

/// The order as a function value.
pub open spec fn ce_le_p() -> spec_fn(CeView, CeView) -> bool {
    |a: CeView, b: CeView| ce_le(a, b)
}

proof fn lemma_ce_le_total(a: CeView, b: CeView)
    ensures
        ce_le(a, b) || ce_le(b, a),
{
    match (a, b) {
        (CeView::StanzaError(x), CeView::StanzaError(y)) => lemma_lex_le_total(x, y),
        (CeView::LineError(i, x), CeView::LineError(j, y)) => {
            if i == j {
                lemma_lex_le_total(x, y);
            }
        },
        _ => {},
    }
}

proof fn lemma_ce_le_trans(a: CeView, b: CeView, c: CeView)
    requires
        ce_le(a, b),
        ce_le(b, c),
    ensures
        ce_le(a, c),
{
    match (a, b, c) {
        (CeView::StanzaError(x), CeView::StanzaError(y), CeView::StanzaError(z)) => {
            lemma_lex_le_trans(x, y, z);
        },
        (CeView::LineError(i, x), CeView::LineError(j, y), CeView::LineError(k, z)) => {
            if i == j && j == k {
                lemma_lex_le_trans(x, y, z);
            }
        },
        _ => {},
    }
}

impl PartialEq for ClassifyError {
    fn eq(&self, other: &Self) -> (r: bool) {
        match (self, other) {
            (ClassifyError::StanzaError(x), ClassifyError::StanzaError(y)) => x.eq(y),
            (ClassifyError::LineError(i, x), ClassifyError::LineError(j, y)) => *i == *j && x.eq(
                y,
            ),
            _ => false,
        }
    }
}

impl vstd::std_specs::cmp::PartialEqSpecImpl for ClassifyError {
    open spec fn obeys_eq_spec() -> bool {
        true
    }

    open spec fn eq_spec(&self, other: &Self) -> bool {
        self@ == other@
    }
}

impl Eq for ClassifyError {

}

impl PartialOrd for ClassifyError {
    fn partial_cmp(&self, other: &Self) -> (r: Option<core::cmp::Ordering>) {
        Some(ce_compare(self, other))
    }
}

impl vstd::std_specs::cmp::PartialOrdSpecImpl for ClassifyError {
    open spec fn obeys_partial_cmp_spec() -> bool {
        true
    }

    open spec fn partial_cmp_spec(&self, other: &Self) -> Option<core::cmp::Ordering> {
        Some(ce_cmp(self@, other@))
    }
}

/// The three-way classifier error order.
pub open spec fn ce_cmp(a: CeView, b: CeView) -> core::cmp::Ordering {
    match (a, b) {
        (CeView::StanzaError(x), CeView::StanzaError(y)) => lex_cmp(x, y),
        (CeView::StanzaError(x), CeView::LineError(j, y)) => core::cmp::Ordering::Less,
        (CeView::LineError(i, x), CeView::StanzaError(y)) => core::cmp::Ordering::Greater,
        (CeView::LineError(i, x), CeView::LineError(j, y)) => {
            if i < j {
                core::cmp::Ordering::Less
            } else if i > j {
                core::cmp::Ordering::Greater
            } else {
                lex_cmp(x, y)
            }
        },
    }
}

/// The three-way lexicographic order on character sequences.
pub open spec fn lex_cmp(x: Seq<char>, y: Seq<char>) -> core::cmp::Ordering {
    if lex_lt(x, y) {
        core::cmp::Ordering::Less
    } else if x == y {
        core::cmp::Ordering::Equal
    } else {
        core::cmp::Ordering::Greater
    }
}

/// Compares two strings in lexicographic order.
fn str_compare(x: &String, y: &String) -> (r: core::cmp::Ordering)
    ensures
        r == lex_cmp(x@, y@),
{
    let cx = crate::strutil::str_chars(x.as_str());
    let cy = crate::strutil::str_chars(y.as_str());
    proof {
        lemma_lex_lt_connected(x@, y@);
    }
    if crate::strutil::chars_lt(&cx, &cy) {
        core::cmp::Ordering::Less
    } else if crate::phoneme::chars_eq(&cx, &cy) {
        core::cmp::Ordering::Equal
    } else {
        core::cmp::Ordering::Greater
    }
}

/// Compares two classifier errors: stanza errors first, then by message or by
/// line index and message.
fn ce_compare(a: &ClassifyError, b: &ClassifyError) -> (r: core::cmp::Ordering)
    ensures
        r == ce_cmp(a@, b@),
{
    match (a, b) {
        (ClassifyError::StanzaError(x), ClassifyError::StanzaError(y)) => str_compare(x, y),
        (ClassifyError::StanzaError(x), ClassifyError::LineError(j, y)) => core::cmp::Ordering::Less,
        (ClassifyError::LineError(i, x), ClassifyError::StanzaError(y)) => core::cmp::Ordering::Greater,
        (ClassifyError::LineError(i, x), ClassifyError::LineError(j, y)) => {
            if *i < *j {
                core::cmp::Ordering::Less
            } else if *i > *j {
                core::cmp::Ordering::Greater
            } else {
                str_compare(x, y)
            }
        },
    }
}

impl ClassifyError {
    /// A one-line description: the scope, then the message; line errors show
    /// the 1-based line position.
    pub fn to_text(&self) -> (r: String)
        ensures
            r@ == ce_text(self@),
    {
        match self {
            ClassifyError::StanzaError(m) => {
                let mut out = String::new();
                out.append("Stanza: ");
                out.append(m.as_str());
                out
            },
            ClassifyError::LineError(i, m) => {
                let mut out = String::new();
                out.append("Line ");
                let d = dec_string(i.checked_add(1).unwrap_or(usize::MAX));
                out.append(d.as_str());
                out.append(": ");
                out.append(m.as_str());
                out
            },
        }
    }

    /// A deep copy.
    pub fn duplicate(&self) -> (r: Self)
        ensures
            r@ == self@,
    {
        match self {
            ClassifyError::StanzaError(m) => ClassifyError::StanzaError(m.clone()),
            ClassifyError::LineError(i, m) => ClassifyError::LineError(*i, m.clone()),
        }
    }
}

/// The display form of a classifier error.
pub open spec fn ce_text(e: CeView) -> Seq<char> {
    match e {
        CeView::StanzaError(m) => "Stanza: "@ + m,
        CeView::LineError(i, m) => "Line "@ + dec_rep(cap_usize((i + 1) as nat)) + ": "@ + m,
    }
}

/// The message of a wrong line count.
pub open spec fn num_lines_msg(n: nat, len: nat) -> Seq<char> {
    "Expected "@ + dec_rep(n) + " lines but the stanza has "@ + dec_rep(len) + "."@
}

/// The message of a line already over its syllable limit despite unknown
/// words.
pub open spec fn exceeds_msg(num: nat, syll: nat, expected: nat) -> Seq<char> {
    "line "@ + dec_rep(num) + " has unknown words and "@ + dec_rep(syll)
        + " syllables already, so it will exceed the limit of "@ + dec_rep(expected) + "."@
}

/// The message of a fully known line with the wrong syllable count.
pub open spec fn wrong_count_msg(num: nat, syll: nat, expected: nat) -> Seq<char> {
    "line "@ + dec_rep(num) + " has "@ + dec_rep(syll) + " syllables but should have "@ + dec_rep(
        expected,
    ) + "."@
}

/// The message of a failed rhyme between two lines' last words.
pub open spec fn rhyme_msg(na: nat, nb: nat, ea: EntryView, eb: EntryView) -> Seq<char> {
    "lines "@ + dec_rep(na) + " and "@ + dec_rep(nb) + ": the words "@ + entry_text(
        ea,
        count_stressed(ea.phonemes),
    ) + " and "@ + entry_text(eb, count_stressed(eb.phonemes)) + " don't rhyme?"@
}

/// The capped syllable count of one line view.
pub open spec fn view_syllables(lv: LvModel) -> nat {
    cap_usize(line_syllables(lv.line.tokens, lv.indices, lv.line.tokens.len() as int))
}

/// The errors one line contributes to a syllable check against `expected`: a
/// line with unknown words fails only once its known syllables already reach
/// the limit; a fully known line must match exactly.
pub open spec fn line_check_errs(lv: LvModel, expected: nat) -> Seq<CeView> {
    let syll = view_syllables(lv);
    if line_has_unknown(lv.line.tokens) {
        if syll >= expected {
            seq![CeView::LineError(lv.line.index as int, exceeds_msg(lv.line.num, syll, expected))]
        } else {
            Seq::empty()
        }
    } else {
        if syll != expected {
            seq![
                CeView::LineError(lv.line.index as int, wrong_count_msg(lv.line.num, syll, expected)),
            ]
        } else {
            Seq::empty()
        }
    }
}

/// The selected entry of a line's last token.
pub open spec fn last_sel(lv: LvModel) -> Option<EntryView> {
    sel_entry(lv.line.tokens, lv.indices, lv.line.tokens.len() - 1)
}

/// The errors a rhyme check of two lines contributes: none when either last
/// word is unknown (a rhyme cannot be disproved), none when the final
/// syllables match, and one error per line otherwise.
pub open spec fn rhyme_pair_errs(a: LvModel, b: LvModel) -> Seq<CeView> {
    match (last_sel(a), last_sel(b)) {
        (Some(ea), Some(eb)) => {
            if last_syllables(ea.phonemes, 1) == last_syllables(eb.phonemes, 1) {
                Seq::empty()
            } else {
                let msg = rhyme_msg(a.line.num, b.line.num, ea, eb);
                seq![
                    CeView::LineError(a.line.index as int, msg),
                    CeView::LineError(b.line.index as int, msg),
                ]
            }
        },
        _ => Seq::empty(),
    }
}

/// Checks that the stanza has exactly `n` lines.
pub fn check_stanza_has_num_lines(stanza: &StanzaView, n: usize) -> (r: Result<
    (),
    Vec<ClassifyError>,
>)
    ensures
        r is Ok <==> stanza@.len() == n,
        (r matches Err(v) ==> v.deep_view() == seq![
            CeView::StanzaError(num_lines_msg(n as nat, stanza@.len())),
        ]),
{
    let len = stanza.num_lines();
    if len != n {
        let mut msg = String::new();
        msg.append("Expected ");
        let d1 = dec_string(n);
        msg.append(d1.as_str());
        msg.append(" lines but the stanza has ");
        let d2 = dec_string(len);
        msg.append(d2.as_str());
        msg.append(".");
        let mut v: Vec<ClassifyError> = Vec::new();
        v.push(ClassifyError::StanzaError(msg));
        proof {
            assert(v.deep_view() =~= seq![
                CeView::StanzaError(num_lines_msg(n as nat, stanza@.len())),
            ]);
        }
        return Err(v);
    }
    Ok(())
}

/// Checks the stanza for unknown words.
pub fn check_stanza_for_unknown_words(stanza: &StanzaView) -> (r: Result<(), Vec<ClassifyError>>)
    requires
        stanza.wf(),
    ensures
        r is Ok <==> !(exists|i: int|
            0 <= i < stanza@.len() && line_has_unknown(#[trigger] stanza@[i].line.tokens)),
        (r matches Err(v) ==> v.deep_view() == seq![
            CeView::StanzaError(
                "Warning: The text has some unknown words. Analysis may suffer."@,
            ),
        ]),
{
    let n = stanza.num_lines();
    let mut i: usize = 0;
    while i < n
        invariant
            i <= n,
            n == stanza@.len(),
            stanza.wf(),
            forall|j: int| 0 <= j < i ==> !line_has_unknown(#[trigger] stanza@[j].line.tokens),
        decreases n - i,
    {
        if stanza.line(i).has_unknown_words() {
            let mut v: Vec<ClassifyError> = Vec::new();
            v.push(
                ClassifyError::StanzaError(
                    String::from_str(
                        "Warning: The text has some unknown words. Analysis may suffer.",
                    ),
                ),
            );
            proof {
                assert(v.deep_view() =~= seq![
                    CeView::StanzaError(
                        "Warning: The text has some unknown words. Analysis may suffer."@,
                    ),
                ]);
            }
            return Err(v);
        }
        i = i + 1;
    }
    Ok(())
}

/// Checks that the line has exactly `expected` syllables, conservatively: a
/// line with unknown words passes unless its known syllables already reach
/// the limit.
pub fn check_line_has_num_syllables(line: &LineView, expected: usize) -> (r: Result<
    (),
    Vec<ClassifyError>,
>)
    requires
        line.wf(),
    ensures
        r is Ok <==> line_check_errs(line@, expected as nat).len() == 0,
        (r matches Err(v) ==> v.deep_view() == line_check_errs(line@, expected as nat)),
{
    let num_syllables = line.num_syllables();
    if line.has_unknown_words() {
        if num_syllables >= expected {
            let mut msg = String::new();
            msg.append("line ");
            let d1 = dec_string(line.num());
            msg.append(d1.as_str());
            msg.append(" has unknown words and ");
            let d2 = dec_string(num_syllables);
            msg.append(d2.as_str());
            msg.append(" syllables already, so it will exceed the limit of ");
            let d3 = dec_string(expected);
            msg.append(d3.as_str());
            msg.append(".");
            let mut v: Vec<ClassifyError> = Vec::new();
            v.push(ClassifyError::LineError(line.index(), msg));
            proof {
                assert(v.deep_view() =~= line_check_errs(line@, expected as nat));
            }
            return Err(v);
        }
        Ok(())
    } else {
        if num_syllables != expected {
            let mut msg = String::new();
            msg.append("line ");
            let d1 = dec_string(line.num());
            msg.append(d1.as_str());
            msg.append(" has ");
            let d2 = dec_string(num_syllables);
            msg.append(d2.as_str());
            msg.append(" syllables but should have ");
            let d3 = dec_string(expected);
            msg.append(d3.as_str());
            msg.append(".");
            let mut v: Vec<ClassifyError> = Vec::new();
            v.push(ClassifyError::LineError(line.index(), msg));
            proof {
                assert(v.deep_view() =~= line_check_errs(line@, expected as nat));
            }
            return Err(v);
        }
        Ok(())
    }
}

/// Checks that two lines rhyme: their last words' final syllables must share
/// the same phonemes. Unknown last words are conservatively accepted.
pub fn check_lines_rhyme(a: &LineView, b: &LineView) -> (r: Result<(), Vec<ClassifyError>>)
    requires
        a.wf(),
        b.wf(),
    ensures
        r is Ok <==> rhyme_pair_errs(a@, b@).len() == 0,
        (r matches Err(v) ==> v.deep_view() == rhyme_pair_errs(a@, b@)),
{
    let ea = match a.last_entry() {
        Some(e) => e,
        None => {
            return Ok(());
        },
    };
    let eb = match b.last_entry() {
        Some(e) => e,
        None => {
            return Ok(());
        },
    };
    if ea.rhymes_with(eb) {
        Ok(())
    } else {
        let mut msg = String::new();
        msg.append("lines ");
        let d1 = dec_string(a.num());
        msg.append(d1.as_str());
        msg.append(" and ");
        let d2 = dec_string(b.num());
        msg.append(d2.as_str());
        msg.append(": the words ");
        let t1 = ea.to_text();
        msg.append(t1.as_str());
        msg.append(" and ");
        let t2 = eb.to_text();
        msg.append(t2.as_str());
        msg.append(" don't rhyme?");
        let mut v: Vec<ClassifyError> = Vec::new();
        let msg2 = msg.clone();
        v.push(ClassifyError::LineError(a.index(), msg));
        v.push(ClassifyError::LineError(b.index(), msg2));
        proof {
            assert(v.deep_view() =~= rhyme_pair_errs(a@, b@));
        }
        Err(v)
    }
}

/// The errors of the syllable checks of the first `k` lines against a shared
/// limit.
pub open spec fn lines_check_errs(sv: Seq<LvModel>, expected: nat, k: int) -> Seq<CeView>
    decreases k,
{
    if k <= 0 {
        Seq::empty()
    } else {
        lines_check_errs(sv, expected, k - 1) + line_check_errs(sv[k - 1], expected)
    }
}

/// All errors the haiku form assigns to an interpretation: exactly three
/// lines of five, seven and five syllables.
pub open spec fn haiku_errors(sv: Seq<LvModel>) -> Seq<CeView> {
    if sv.len() != 3 {
        seq![CeView::StanzaError(num_lines_msg(3, sv.len()))]
    } else {
        line_check_errs(sv[0], 5) + line_check_errs(sv[1], 7) + line_check_errs(sv[2], 5)
    }
}

/// All errors the Shakespearean sonnet form assigns to an interpretation:
/// exactly fourteen lines of ten syllables, rhyming ABAB CDCD EFEF GG.
#[verifier::opaque]
pub open spec fn sonnet_errors(sv: Seq<LvModel>) -> Seq<CeView> {
    if sv.len() != 14 {
        seq![CeView::StanzaError(num_lines_msg(14, sv.len()))]
    } else {
        lines_check_errs(sv, 10, 14) + rhyme_pair_errs(sv[0], sv[2]) + rhyme_pair_errs(
            sv[1],
            sv[3],
        ) + rhyme_pair_errs(sv[4], sv[6]) + rhyme_pair_errs(sv[5], sv[7]) + rhyme_pair_errs(
            sv[8],
            sv[10],
        ) + rhyme_pair_errs(sv[9], sv[11]) + rhyme_pair_errs(sv[12], sv[13])
    }
}

/// Appends the errors of one check to the accumulator.
fn take_errs(
    errors: &mut Vec<ClassifyError>,
    r: Result<(), Vec<ClassifyError>>,
    expect: Ghost<Seq<CeView>>,
)
    requires
        (r matches Err(v) ==> v.deep_view() == expect@),
        (r is Ok ==> expect@.len() == 0),
    ensures
        final(errors).deep_view() == old(errors).deep_view() + expect@,
{
    match r {
        Ok(()) => {
            proof {
                assert(errors.deep_view() =~= old(errors).deep_view() + expect@);
            }
        },
        Err(mut v) => {
            let ghost before = errors.deep_view();
            errors.append(&mut v);
            proof {
                assert(errors.deep_view() =~~= before + expect@);
            }
        },
    }
}

/// The odometer state after `k` advances from `start`: the view, and whether
/// the enumeration was exhausted at or before step `k`.
pub open spec fn chain(start: Seq<LvModel>, filter: bool, k: nat) -> (Seq<LvModel>, bool)
    decreases k,
{
    if k == 0 {
        (start, false)
    } else {
        let p = chain(start, filter, (k - 1) as nat);
        if p.1 {
            p
        } else {
            stanza_adv(p.0, filter, 0)
        }
    }
}

/// Sorts classifier errors into their presentation order.
pub fn sort_errors(v: Vec<ClassifyError>) -> (r: Vec<ClassifyError>)
    ensures
        sorted_by(r.deep_view(), ce_le_p()),
        r.deep_view().to_multiset() == v.deep_view().to_multiset(),
{
    broadcast use group_to_multiset_ensures;

    let mut v = v;
    let ghost orig = v.deep_view();
    let mut out: Vec<ClassifyError> = Vec::new();
    proof {
        assert(out.deep_view() =~= Seq::<CeView>::empty());
    }
    proof {
        assert(Seq::<CeView>::empty().to_multiset().add(orig.to_multiset())
            =~= orig.to_multiset());
    }
    while v.len() > 0
        invariant
            out.deep_view().to_multiset().add(v.deep_view().to_multiset()) == orig.to_multiset(),
            sorted_by(out.deep_view(), ce_le_p()),
        decreases v.len(),
    {
        let ghost vprev = v.deep_view();
        let ghost outprev = out.deep_view();
        let x = v.pop().unwrap();
        proof {
            assert(x@ == vprev.last());
            assert(v.deep_view() =~~= vprev.drop_last());
            assert(vprev =~= vprev.drop_last().push(x@));
            vstd::seq_lib::to_multiset_build(vprev.drop_last(), x@);
            assert(vprev.to_multiset() == vprev.drop_last().to_multiset().insert(x@));
        }
        insert_err_sorted(&mut out, x);
        proof {
            assert(out.deep_view().to_multiset().add(v.deep_view().to_multiset())
                =~= outprev.to_multiset().add(vprev.to_multiset()));
        }
    }
    proof {
        assert(v.deep_view() =~= Seq::<CeView>::empty());
        assert(out.deep_view().to_multiset().add(
            Seq::<CeView>::empty().to_multiset(),
        ) =~= out.deep_view().to_multiset());
        assert(out.deep_view().to_multiset() =~= orig.to_multiset());
    }
    out
}

/// Inserts an error into a sorted vector, keeping it sorted.
fn insert_err_sorted(errs: &mut Vec<ClassifyError>, e: ClassifyError)
    requires
        sorted_by(old(errs).deep_view(), ce_le_p()),
    ensures
        sorted_by(final(errs).deep_view(), ce_le_p()),
        final(errs).deep_view().to_multiset() == old(errs).deep_view().to_multiset().insert(e@),
{
    broadcast use group_to_multiset_ensures;

    let n = errs.len();
    let mut j: usize = 0;
    while j < n && !matches!(ce_compare(&e, &errs[j]), core::cmp::Ordering::Less)
        invariant
            j <= n,
            n == errs@.len(),
            errs == old(errs),
            forall|k: int| 0 <= k < j ==> ce_le(#[trigger] errs.deep_view()[k], e@),
        decreases n - j,
    {
        proof {
            lemma_ce_le_total(e@, errs.deep_view()[j as int]);
            lemma_ce_cmp_le(e@, errs.deep_view()[j as int]);
        }
        j = j + 1;
    }
    let ghost before = errs.deep_view();
    proof {
        if j < n {
            lemma_ce_cmp_le(e@, before[j as int]);
        }
    }
    errs.insert(j, e);
    proof {
        assert(errs.deep_view() =~= before.insert(j as int, e@));
        vstd::seq_lib::to_multiset_insert(before, j as int, e@);
        assert forall|a: int, b: int|
            0 <= a < b < errs.deep_view().len() implies ce_le_p()(
            errs.deep_view()[a],
            errs.deep_view()[b],
        ) by {
            let s = errs.deep_view();
            if b < j as int {
                assert(s[a] == before[a] && s[b] == before[b]);
            } else if a > j as int {
                assert(s[a] == before[a - 1] && s[b] == before[b - 1]);
            } else if a == j as int {
                assert(s[a] == e@ && s[b] == before[b - 1]);
                if b - 1 > j as int {
                    assert(ce_le_p()(before[j as int], before[b - 1]));
                    lemma_ce_le_trans(e@, before[j as int], before[b - 1]);
                }
            } else if b == j as int {
                assert(s[a] == before[a] && s[b] == e@);
            } else {
                assert(s[a] == before[a] && s[b] == before[b - 1]);
                assert(ce_le_p()(before[a], before[b - 1]));
            }
        }
    }
}

/// A three-way comparison of `Less` refutes the reverse order.
proof fn lemma_ce_cmp_le(a: CeView, b: CeView)
    ensures
        (ce_cmp(a, b) == core::cmp::Ordering::Less) ==> (ce_le(a, b) && !ce_le(b, a)),
        (ce_cmp(a, b) != core::cmp::Ordering::Less) ==> ce_le(b, a),
{
    match (a, b) {
        (CeView::StanzaError(x), CeView::StanzaError(y)) => {
            lemma_lex_le_total(x, y);
            lemma_lex_le_total(y, x);
        },
        (CeView::LineError(i, x), CeView::LineError(j, y)) => {
            if i == j {
                lemma_lex_le_total(x, y);
                lemma_lex_le_total(y, x);
            }
        },
        _ => {},
    }
}

/// How many interpretations the enumeration is bounded by: the pruned size
/// estimate, capped at the machine word.
pub open spec fn interp_bound(lines: Seq<crate::snippet::LineModel>) -> nat {
    cap_usize(stanza_product(zero_view(lines), zero_view(lines).len() as int, true))
}

/// The interpretation with the fewest sonnet errors.
///
/// Enumerates the stanza's interpretations (the enumeration is bounded by the
/// size estimate, which caps at the machine word) and returns a view whose
/// sorted error list is no longer than that of any enumerated view.
#[verifier::loop_isolation(false)]
#[verifier::rlimit(100)]
#[verifier::spinoff_prover]
pub fn best_interpretation(stanza: &Stanza) -> (r: (StanzaView, Vec<ClassifyError>))
    requires
        stanza.wf(),
    ensures
        r.0.wf(),
        sorted_by(r.1.deep_view(), ce_le_p()),
        r.1.deep_view().to_multiset() == sonnet_errors(r.0@).to_multiset(),
        exists|k: nat|
            k <= interp_bound(stanza@.lines) && !(#[trigger] chain(
                zero_view(stanza@.lines),
                true,
                k,
            )).1 && r.0@ == chain(zero_view(stanza@.lines), true, k).0,
        forall|k: nat|
            k <= interp_bound(stanza@.lines) && !(#[trigger] chain(
                zero_view(stanza@.lines),
                true,
                k,
            )).1 ==> r.1@.len() <= sonnet_errors(chain(zero_view(stanza@.lines), true, k).0).len(),
{
    let ghost start = zero_view(stanza@.lines);
    let mut it = stanza.interpretations();
    let bound = match it.size_hint() {
        (_, Some(c)) => c,
        (_, None) => 0,
    };
    let first = match it.next() {
        Some(v) => v,
        None => {
            proof {
                assert(false);
            }
            unreached()
        },
    };
    let mut best_errors: Vec<ClassifyError> = eval_sonnet(&first);
    let mut best = first;
    let ghost mut bestk: nat = 0;
    proof {
        assert(chain(start, true, 0) == (start, false));
        assert(best@ == chain(start, true, 0).0);
    }
    let mut k: usize = 0;
    while k < bound
        invariant
            it.wf(),
            !it.is_first(),
            it.filtering(),
            k <= bound,
            it.cur() == chain(start, true, k as nat).0,
            !chain(start, true, k as nat).1,
            best.wf(),
            sorted_by(best_errors.deep_view(), ce_le_p()),
            best_errors.deep_view().to_multiset() == sonnet_errors(best@).to_multiset(),
            best_errors@.len() == sonnet_errors(best@).len(),
            bestk <= k && !chain(start, true, bestk).1 && best@ == chain(start, true, bestk).0,
            forall|j: nat|
                j <= k && !(#[trigger] chain(start, true, j)).1 ==> best_errors@.len()
                    <= sonnet_errors(chain(start, true, j).0).len(),
        decreases bound - k,
    {
        let nxt = it.next();
        match nxt {
            None => {
                proof {
                    assert(chain(start, true, (k + 1) as nat).1);
                    assert forall|j: nat|
                        j <= bound && !(#[trigger] chain(start, true, j)).1 implies best_errors@.len()
                        <= sonnet_errors(chain(start, true, j).0).len() by {
                        if j > k {
                            lemma_chain_stays_done(start, true, (k + 1) as nat, j);
                        }
                    }
                }
                return (best, best_errors);
            },
            Some(v) => {
                k = k + 1;
                proof {
                    assert(v@ == chain(start, true, k as nat).0);
                    assert(!chain(start, true, k as nat).1);
                }
                let errs = eval_sonnet(&v);
                if errs.len() < best_errors.len() {
                    best = v;
                    best_errors = errs;
                    proof {
                        bestk = k as nat;
                    }
                }
            },
        }
    }
    (best, best_errors)
}

/// The sorted sonnet errors of one interpretation.
fn eval_sonnet(view: &StanzaView) -> (r: Vec<ClassifyError>)
    requires
        view.wf(),
    ensures
        sorted_by(r.deep_view(), ce_le_p()),
        r.deep_view().to_multiset() == sonnet_errors(view@).to_multiset(),
        r@.len() == sonnet_errors(view@).len(),
{
    match is_shakespearean_sonnet(view) {
        Ok(()) => {
            let r: Vec<ClassifyError> = Vec::new();
            proof {
                assert(sonnet_errors(view@) =~= Seq::<CeView>::empty());
                assert(r.deep_view() =~= Seq::<CeView>::empty());
            }
            r
        },
        Err(v) => {
            let r = sort_errors(v);
            proof {
                vstd::seq_lib::to_multiset_len(r.deep_view());
                vstd::seq_lib::to_multiset_len(sonnet_errors(view@));
            }
            r
        },
    }
}

/// Once the enumeration is exhausted it stays exhausted.
proof fn lemma_chain_stays_done(start: Seq<LvModel>, filter: bool, k: nat, j: nat)
    requires
        chain(start, filter, k).1,
        k <= j,
    ensures
        chain(start, filter, j).1,
    decreases j - k,
{
    if j > k {
        lemma_chain_stays_done(start, filter, k, (j - 1) as nat);
    }
}

/// Classifies one interpretation as a haiku: three lines of five, seven and
/// five syllables. Unknown words are treated conservatively.
pub fn is_haiku(stanza: &StanzaView) -> (r: Result<(), Vec<ClassifyError>>)
    requires
        stanza.wf(),
    ensures
        r is Ok <==> haiku_errors(stanza@).len() == 0,
        (r matches Err(v) ==> v.deep_view() == haiku_errors(stanza@)),
{
    if let Err(v) = check_stanza_has_num_lines(stanza, 3) {
        return Err(v);
    }
    let mut errors: Vec<ClassifyError> = Vec::new();
    let r0 = check_line_has_num_syllables(stanza.line(0), 5);
    take_errs(&mut errors, r0, Ghost(line_check_errs(stanza@[0], 5)));
    let r1 = check_line_has_num_syllables(stanza.line(1), 7);
    take_errs(&mut errors, r1, Ghost(line_check_errs(stanza@[1], 7)));
    let r2 = check_line_has_num_syllables(stanza.line(2), 5);
    take_errs(&mut errors, r2, Ghost(line_check_errs(stanza@[2], 5)));
    proof {
        assert(errors.deep_view() =~= haiku_errors(stanza@));
    }
    if errors.len() == 0 {
        Ok(())
    } else {
        Err(errors)
    }
}

/// Classifies one interpretation as a Shakespearean sonnet: fourteen lines of
/// ten syllables, rhyming ABAB CDCD EFEF GG. Unknown words are treated
/// conservatively.
#[verifier::loop_isolation(false)]
pub fn is_shakespearean_sonnet(stanza: &StanzaView) -> (r: Result<(), Vec<ClassifyError>>)
    requires
        stanza.wf(),
    ensures
        r is Ok <==> sonnet_errors(stanza@).len() == 0,
        (r matches Err(v) ==> v.deep_view() == sonnet_errors(stanza@)),
{
    proof {
        reveal(sonnet_errors);
    }
    if let Err(v) = check_stanza_has_num_lines(stanza, 14) {
        return Err(v);
    }
    let mut errors: Vec<ClassifyError> = Vec::new();
    let mut i: usize = 0;
    proof {
        assert(errors.deep_view() =~= lines_check_errs(stanza@, 10, 0));
    }
    while i < 14
        invariant
            i <= 14,
            errors.deep_view() == lines_check_errs(stanza@, 10, i as int),
        decreases 14 - i,
    {
        let ri = check_line_has_num_syllables(stanza.line(i), 10);
        take_errs(&mut errors, ri, Ghost(line_check_errs(stanza@[i as int], 10)));
        i = i + 1;
    }
    let ra = check_lines_rhyme(stanza.line(0), stanza.line(2));
    take_errs(&mut errors, ra, Ghost(rhyme_pair_errs(stanza@[0], stanza@[2])));
    let rb = check_lines_rhyme(stanza.line(1), stanza.line(3));
    take_errs(&mut errors, rb, Ghost(rhyme_pair_errs(stanza@[1], stanza@[3])));
    let rc = check_lines_rhyme(stanza.line(4), stanza.line(6));
    take_errs(&mut errors, rc, Ghost(rhyme_pair_errs(stanza@[4], stanza@[6])));
    let rd = check_lines_rhyme(stanza.line(5), stanza.line(7));
    take_errs(&mut errors, rd, Ghost(rhyme_pair_errs(stanza@[5], stanza@[7])));
    let re = check_lines_rhyme(stanza.line(8), stanza.line(10));
    take_errs(&mut errors, re, Ghost(rhyme_pair_errs(stanza@[8], stanza@[10])));
    let rf = check_lines_rhyme(stanza.line(9), stanza.line(11));
    take_errs(&mut errors, rf, Ghost(rhyme_pair_errs(stanza@[9], stanza@[11])));
    let rg = check_lines_rhyme(stanza.line(12), stanza.line(13));
    take_errs(&mut errors, rg, Ghost(rhyme_pair_errs(stanza@[12], stanza@[13])));
    proof {
        assert(errors.deep_view() =~= sonnet_errors(stanza@));
    }
    if errors.len() == 0 {
        Ok(())
    } else {
        Err(errors)
    }
}

} // verus!
