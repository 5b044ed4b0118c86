//! Phoneme sequences: the parsed pronunciation of one word.
//!
//! A phoneme code is a run of uppercase letters optionally followed by decimal
//! digits (`"AA1"`, `"N"`). Digits mark a vowel sound and its stress level, and
//! the number of syllables of a word is the number of its stressed phonemes.

use vstd::prelude::*;

use crate::strutil::{
    chars_to_string, digit_char, is_digit_char, is_upper_char, split_whitespace, split_ws,
    str_chars, upper_char,
};

verus! {

/// The length of the run of uppercase letters at the front of `t`.
pub open spec fn upper_run(t: Seq<char>) -> nat
    decreases t.len(),
{
    if t.len() == 0 {
        0
    } else if is_upper_char(t[0]) {
        upper_run(t.skip(1)) + 1
    } else {
        0
    }
}

/// The run length is pinned by its two properties.
pub proof fn lemma_upper_run_unique(t: Seq<char>, m: int)
    requires
        0 <= m <= t.len(),
        forall|i: int| 0 <= i < m ==> is_upper_char(#[trigger] t[i]),
        m < t.len() ==> !is_upper_char(t[m]),
    ensures
        m == upper_run(t),
    decreases t.len(),
{
    if t.len() == 0 {
    } else if m == 0 {
        assert(!is_upper_char(t[0]));
    } else {
        assert(is_upper_char(t[0]));
        assert forall|i: int| 0 <= i < m - 1 implies is_upper_char(#[trigger] t.skip(1)[i]) by {
            assert(t.skip(1)[i] == t[i + 1]);
        }
        if m - 1 < t.skip(1).len() {
            assert(t.skip(1)[m - 1] == t[m]);
        }
        lemma_upper_run_unique(t.skip(1), m - 1);
    }
}

/// One phoneme code: at least one uppercase letter, then optional digits.
pub open spec fn is_phoneme(t: Seq<char>) -> bool {
    &&& upper_run(t) >= 1
    &&& forall|i: int| upper_run(t) <= i < t.len() ==> is_digit_char(#[trigger] t[i])
}

/// A phoneme that carries a stress digit, i.e. a vowel sound.
pub open spec fn has_stress(t: Seq<char>) -> bool {
    t.len() > 0 && is_digit_char(t[t.len() - 1])
}

/// How many phonemes of the sequence carry a stress digit.
pub open spec fn count_stressed(phs: Seq<Seq<char>>) -> nat
    decreases phs.len(),
{
    if phs.len() == 0 {
        0
    } else {
        count_stressed(phs.drop_last()) + if has_stress(phs.last()) {
            1nat
        } else {
            0nat
        }
    }
}

/// The phonemes reversed, each followed by one space: the similarity key of a
/// pronunciation, which places words with similar endings together.
pub open spec fn rev_key(phs: Seq<Seq<char>>) -> Seq<char>
    decreases phs.len(),
{
    if phs.len() == 0 {
        Seq::empty()
    } else {
        phs.last() + seq![' '] + rev_key(phs.drop_last())
    }
}

/// The reversed phonemes of the last `n` syllables, each followed by one
/// space: the shortest reversed run spanning `n` vowel sounds (everything, if
/// the word has fewer).
pub open spec fn last_syllables(phs: Seq<Seq<char>>, n: nat) -> Seq<char>
    decreases phs.len(),
{
    if phs.len() == 0 {
        Seq::empty()
    } else {
        let piece = phs.last() + seq![' '];
        if has_stress(phs.last()) && n <= 1 {
            piece
        } else {
            piece + last_syllables(
                phs.drop_last(),
                if has_stress(phs.last()) {
                    (n - 1) as nat
                } else {
                    n
                },
            )
        }
    }
}

/// The number of phonemes shared at the end of the two sequences.
pub open spec fn common_suffix(a: Seq<Seq<char>>, b: Seq<Seq<char>>) -> nat
    decreases a.len(),
{
    if a.len() == 0 || b.len() == 0 {
        0
    } else if a.last() == b.last() {
        common_suffix(a.drop_last(), b.drop_last()) + 1
    } else {
        0
    }
}

/// The phonemes joined by single spaces, the listing order kept.
pub open spec fn join_spaces(phs: Seq<Seq<char>>) -> Seq<char>
    decreases phs.len(),
{
    if phs.len() == 0 {
        Seq::empty()
    } else if phs.len() == 1 {
        phs.last()
    } else {
        join_spaces(phs.drop_last()) + seq![' '] + phs.last()
    }
}

/// The phonemes of one pronunciation, in their listed order, with the derived
/// syllable count.
#[derive(Debug, PartialEq)]
pub struct Phonemes {
    /// The individual phoneme codes as listed, e.g. `["SH", "R", "IH1", "M", "P"]`.
    pub phonemes: Vec<String>,
    /// The number of stressed phonemes, fixed at construction.
    syllables: usize,
}

impl View for Phonemes {
    type V = Seq<Seq<char>>;

    closed spec fn view(&self) -> Seq<Seq<char>> {
        self.phonemes.deep_view()
    }
}

impl Phonemes {
    /// The stored syllable count.
    pub closed spec fn syl(&self) -> nat {
        self.syllables as nat
    }

    /// Every code follows the phoneme grammar and the stored count is the
    /// derived one.
    pub open spec fn wf(&self) -> bool {
        &&& self.syl() == count_stressed(self@)
        &&& forall|i: int| 0 <= i < self@.len() ==> is_phoneme(#[trigger] self@[i])
    }

    /// Parses one whitespace token as a phoneme code.
    ///
    /// Returns whether the token matches the grammar and whether it carries a
    /// stress digit.
    fn check_token(t: &Vec<char>) -> (r: (bool, bool))
        ensures
            r.0 == is_phoneme(t@),
            r.1 == has_stress(t@),
    {
        let n = t.len();
        let mut j: usize = 0;
        while j < n && upper_char(t[j])
            invariant
                j <= n,
                n == t@.len(),
                forall|i: int| 0 <= i < j ==> is_upper_char(#[trigger] t@[i]),
            decreases n - j,
        {
            j = j + 1;
        }
        let letters = j;
        let mut p: usize = letters;
        while p < n && digit_char(t[p])
            invariant
                letters <= p <= n,
                n == t@.len(),
                forall|i: int| letters <= i < p ==> is_digit_char(#[trigger] t@[i]),
            decreases n - p,
        {
            p = p + 1;
        }
        let ok = letters > 0 && p == n;
        proof {
            // The scan found exactly the leading uppercase run.
            lemma_upper_run_unique(t@, letters as int);
            if !ok && letters > 0 {
                assert(p < n && !is_digit_char(t@[p as int]));
            }
            if ok {
                if letters < n {
                    assert(is_digit_char(t@[n - 1]));
                } else {
                    assert(is_upper_char(t@[n - 1]));
                    assert(!is_digit_char(t@[n - 1]));
                }
            }
        }
        if ok {
            (true, letters < n)
        } else {
            let st = if n > 0 {
                digit_char(t[n - 1])
            } else {
                false
            };
            (false, st)
        }
    }

    /// Builds a `Phonemes` from whitespace tokens; `None` if any token breaks
    /// the phoneme grammar.
    pub fn from_tokens(toks: &Vec<Vec<char>>) -> (r: Option<Phonemes>)
        ensures
            match r {
                Some(p) => {
                    &&& p@ == toks.deep_view()
                    &&& p.wf()
                },
                None => !(forall|i: int|
                    0 <= i < toks.deep_view().len() ==> is_phoneme(#[trigger] toks.deep_view()[i])),
            },
    {
        let n = toks.len();
        let mut out: Vec<String> = Vec::new();
        let mut syllables: usize = 0;
        let mut i: usize = 0;
        while i < n
            invariant
                i <= n,
                n == toks@.len(),
                out.deep_view() =~= toks.deep_view().subrange(0, i as int),
                syllables as nat == count_stressed(toks.deep_view().subrange(0, i as int)),
                syllables <= i,
                forall|j: int| 0 <= j < i ==> is_phoneme(#[trigger] toks.deep_view()[j]),
            decreases n - i,
        {
            let (ok, stressed) = Self::check_token(&toks[i]);
            proof {
                assert(toks@[i as int]@ == toks.deep_view()[i as int]);
            }
            if !ok {
                return None;
            }
            out.push(chars_to_string(&toks[i]));
            if stressed {
                syllables = syllables + 1;
            }
            i = i + 1;
            proof {
                let pref = toks.deep_view().subrange(0, i as int);
                assert(pref.drop_last() =~= toks.deep_view().subrange(0, i - 1));
                assert(pref.last() == toks.deep_view()[i - 1]);
                assert(out.deep_view() =~= pref);
            }
        }
        proof {
            assert(toks.deep_view().subrange(0, n as int) =~= toks.deep_view());
        }
        let p = Phonemes { phonemes: out, syllables };
        proof {
            assert(p@ =~= toks.deep_view());
        }
        Some(p)
    }

    /// The number of syllables: the number of stressed phonemes.
    pub fn num_syllables(&self) -> (r: usize)
        ensures
            r as nat == self.syl(),
    {
        self.syllables
    }

    /// The reversed phoneme sequence as a sort key: similar endings sort
    /// together.
    pub fn similarity_key(&self) -> (r: Vec<char>)
        ensures
            r@ == rev_key(self@),
    {
        let n = self.phonemes.len();
        let mut r: Vec<char> = Vec::new();
        let mut i: usize = n;
        proof {
            assert(self@.subrange(0, n as int) =~= self@);
        }
        while i > 0
            invariant
                i <= n,
                n == self@.len(),
                rev_key(self@) == r@ + rev_key(self@.subrange(0, i as int)),
            decreases i,
        {
            i = i - 1;
            let ghost pre = self@.subrange(0, i + 1);
            let ghost before = r@;
            push_chars(&mut r, self.phonemes[i].as_str());
            r.push(' ');
            proof {
                reveal_strlit(" ");
                assert(pre.last() == self@[i as int]);
                assert(pre.drop_last() =~= self@.subrange(0, i as int));
                assert(r@ =~= before + (pre.last() + seq![' ']));
                assert(rev_key(pre) == pre.last() + seq![' '] + rev_key(pre.drop_last()));
                assert(before + ((pre.last() + seq![' ']) + rev_key(
                    self@.subrange(0, i as int),
                )) =~= r@ + rev_key(self@.subrange(0, i as int)));
            }
        }
        proof {
            assert(self@.subrange(0, 0) =~= Seq::<Seq<char>>::empty());
            assert(r@ + rev_key(self@.subrange(0, 0)) =~= r@);
        }
        r
    }

    /// The reversed phonemes of the last `n` syllables, as characters.
    pub fn last_syllables_key(&self, n: usize) -> (r: Vec<char>)
        ensures
            r@ == last_syllables(self@, n as nat),
    {
        let len = self.phonemes.len();
        let mut r: Vec<char> = Vec::new();
        let mut i: usize = len;
        let mut want: usize = n;
        proof {
            assert(self@.subrange(0, len as int) =~= self@);
        }
        while i > 0
            invariant
                i <= len,
                len == self@.len(),
                last_syllables(self@, n as nat) == r@ + last_syllables(
                    self@.subrange(0, i as int),
                    want as nat,
                ),
            decreases i,
        {
            i = i - 1;
            let ghost pre = self@.subrange(0, i + 1);
            let ghost before = r@;
            let (_, stressed) = Self::check_token(&str_chars(self.phonemes[i].as_str()));
            push_chars(&mut r, self.phonemes[i].as_str());
            r.push(' ');
            proof {
                reveal_strlit(" ");
                assert(pre.last() == self@[i as int]);
                assert(pre.drop_last() =~= self@.subrange(0, i as int));
                assert(r@ =~= before + (pre.last() + seq![' ']));
            }
            if stressed && want <= 1 {
                proof {
                    assert(last_syllables(pre, want as nat) == pre.last() + seq![' ']);
                    assert(r@ =~= before + last_syllables(pre, want as nat));
                }
                return r;
            }
            if stressed {
                want = want - 1;
            }
            proof {
                assert(last_syllables(pre, if has_stress(pre.last()) {
                    (want + 1) as nat
                } else {
                    want as nat
                }) == (pre.last() + seq![' ']) + last_syllables(pre.drop_last(), want as nat));
                assert(before + ((pre.last() + seq![' ']) + last_syllables(
                    self@.subrange(0, i as int),
                    want as nat,
                )) =~= r@ + last_syllables(self@.subrange(0, i as int), want as nat));
            }
        }
        proof {
            assert(self@.subrange(0, 0) =~= Seq::<Seq<char>>::empty());
            assert(r@ + last_syllables(self@.subrange(0, 0), want as nat) =~= r@);
        }
        r
    }

    /// The reversed phonemes of the last `n` syllables, as a string.
    pub fn last_n_syllables(&self, n: usize) -> (r: String)
        ensures
            r@ == last_syllables(self@, n as nat),
    {
        let cs = self.last_syllables_key(n);
        chars_to_string(&cs)
    }

    /// Whether two pronunciations rhyme: their last syllables sound the same.
    pub fn rhymes_with(&self, other: &Self) -> (r: bool)
        ensures
            r == (last_syllables(self@, 1) == last_syllables(other@, 1)),
    {
        let a = self.last_syllables_key(1);
        let b = other.last_syllables_key(1);
        chars_eq(&a, &b)
    }

    /// How many phonemes the two pronunciations share at the end; higher is
    /// more similar.
    pub fn similarity_score(&self, other: &Self) -> (r: usize)
        ensures
            r as nat == common_suffix(self@, other@),
    {
        let na = self.phonemes.len();
        let nb = other.phonemes.len();
        let mut k: usize = 0;
        proof {
            assert(self@.subrange(0, na as int) =~= self@);
            assert(other@.subrange(0, nb as int) =~= other@);
        }
        loop
            invariant
                k <= na,
                k <= nb,
                na == self@.len(),
                nb == other@.len(),
                common_suffix(self@, other@) == common_suffix(
                    self@.subrange(0, (na - k) as int),
                    other@.subrange(0, (nb - k) as int),
                ) + k,
            decreases na - k,
        {
            proof {
                if k < na && k < nb {
                    assert(self@.subrange(0, (na - k) as int).drop_last() =~= self@.subrange(
                        0,
                        na - k - 1,
                    ));
                    assert(other@.subrange(0, (nb - k) as int).drop_last() =~= other@.subrange(
                        0,
                        nb - k - 1,
                    ));
                }
            }
            if k == na || k == nb {
                proof {
                    if k == na {
                        assert(self@.subrange(0, (na - k) as int).len() == 0);
                    } else {
                        assert(other@.subrange(0, (nb - k) as int).len() == 0);
                    }
                }
                return k;
            }
            let sa = &self.phonemes[na - 1 - k];
            let sb = &other.phonemes[nb - 1 - k];
            proof {
                assert(self@.subrange(0, (na - k) as int).last() == self@[na - 1 - k]);
                assert(other@.subrange(0, (nb - k) as int).last() == other@[nb - 1 - k]);
            }
            if !sa.eq(sb) {
                return k;
            }
            k = k + 1;
        }
    }

    /// The phonemes joined with spaces, for display.
    pub fn to_text(&self) -> (r: String)
        ensures
            r@ == join_spaces(self@),
    {
        let n = self.phonemes.len();
        let mut out = String::new();
        let mut i: usize = 0;
        while i < n
            invariant
                i <= n,
                n == self@.len(),
                out@ == join_spaces(self@.subrange(0, i as int)),
            decreases n - i,
        {
            if i > 0 {
                out.append(" ");
                proof {
                    reveal_strlit(" ");
                }
            }
            out.append(self.phonemes[i].as_str());
            i = i + 1;
            proof {
                let pre = self@.subrange(0, i as int);
                assert(pre.drop_last() =~= self@.subrange(0, i - 1));
                assert(pre.last() == self@[i - 1]);
                if i > 1 {
                    assert(out@ =~= join_spaces(pre.drop_last()) + seq![' '] + pre.last());
                } else {
                    assert(out@ =~= pre.last());
                }
            }
        }
        proof {
            assert(self@.subrange(0, n as int) =~= self@);
        }
        out
    }

    /// A deep copy with the same phonemes and syllable count.
    pub fn duplicate(&self) -> (r: Self)
        ensures
            r@ == self@,
            r.syl() == self.syl(),
    {
        let n = self.phonemes.len();
        let mut out: Vec<String> = Vec::new();
        let mut i: usize = 0;
        while i < n
            invariant
                i <= n,
                n == self@.len(),
                out.deep_view() =~= self@.subrange(0, i as int),
            decreases n - i,
        {
            let ghost prev = out.deep_view();
            out.push(self.phonemes[i].clone());
            i = i + 1;
            proof {
                assert(out.deep_view() =~~= prev.push(self@[i - 1]));
                assert(out.deep_view() =~~= self@.subrange(0, i as int));
            }
        }
        proof {
            assert(self@.subrange(0, n as int) =~= self@);
        }
        let r = Phonemes { phonemes: out, syllables: self.syllables };
        proof {
            assert(r@ =~= self@);
        }
        r
    }
}

/// Appends the characters of `s` to `dst`.
pub fn push_chars(dst: &mut Vec<char>, s: &str) -> (n: usize)
    ensures
        final(dst)@ == old(dst)@ + s@,
        n == s@.len(),
{
    let cs = str_chars(s);
    let mut j: usize = 0;
    let ghost base = dst@;
    while j < cs.len()
        invariant
            j <= cs@.len(),
            cs@ == s@,
            dst@ == base + cs@.subrange(0, j as int),
        decreases cs@.len() - j,
    {
        dst.push(cs[j]);
        j = j + 1;
        assert(dst@ =~= base + cs@.subrange(0, j as int));
    }
    proof {
        assert(base + cs@.subrange(0, j as int) =~= base + s@);
    }
    j
}

/// Compares two character vectors for equality.
pub fn chars_eq(a: &Vec<char>, b: &Vec<char>) -> (r: bool)
    ensures
        r == (a@ == b@),
{
    if a.len() != b.len() {
        return false;
    }
    let n = a.len();
    let mut i: usize = 0;
    while i < n
        invariant
            i <= n,
            n == a@.len() == b@.len(),
            forall|j: int| 0 <= j < i ==> a@[j] == b@[j],
        decreases n - i,
    {
        if a[i] != b[i] {
            return false;
        }
        i = i + 1;
    }
    proof {
        assert(a@ =~= b@);
    }
    true
}

} // verus!
