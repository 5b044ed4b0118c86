//! Character classes and string helpers shared by the parser, the normalizer
//! and the dictionary: everything here works on `Seq<char>` views.

use vstd::prelude::*;

verus! {

/// An ASCII decimal digit; in a phoneme code the digit marks a vowel stress.
pub open spec fn is_digit_char(c: char) -> bool {
    '0' <= c && c <= '9'
}

/// An ASCII uppercase letter, the alphabet of phoneme codes.
pub open spec fn is_upper_char(c: char) -> bool {
    'A' <= c && c <= 'Z'
}

/// The characters with the Unicode `White_Space` property, the set that
/// `str::split_whitespace` and `str::trim` split on.
pub open spec fn is_space_char(c: char) -> bool {
    c == ' ' || c == '\t' || c == '\n' || c == '\r' || c == '\u{b}' || c == '\u{c}'
        || c == '\u{85}' || c == '\u{a0}' || c == '\u{1680}' || ('\u{2000}' <= c && c
        <= '\u{200a}') || c == '\u{2028}' || c == '\u{2029}' || c == '\u{202f}' || c == '\u{205f}'
        || c == '\u{3000}'
}

pub fn digit_char(c: char) -> (r: bool)
    ensures
        r == is_digit_char(c),
{
    '0' <= c && c <= '9'
}

pub fn upper_char(c: char) -> (r: bool)
    ensures
        r == is_upper_char(c),
{
    'A' <= c && c <= 'Z'
}

pub fn space_char(c: char) -> (r: bool)
    ensures
        r == is_space_char(c),
{
    c == ' ' || c == '\t' || c == '\n' || c == '\r' || c == '\u{b}' || c == '\u{c}'
        || c == '\u{85}' || c == '\u{a0}' || c == '\u{1680}' || ('\u{2000}' <= c && c
        <= '\u{200a}') || c == '\u{2028}' || c == '\u{2029}' || c == '\u{202f}' || c == '\u{205f}'
        || c == '\u{3000}'
}

/// Copies the characters of a string slice into a vector.
pub fn str_chars(s: &str) -> (r: Vec<char>)
    ensures
        r@ == s@,
{
    let n = s.unicode_len();
    let mut r: Vec<char> = Vec::new();
    let mut i: usize = 0;
    while i < n
        invariant
            n == s@.len(),
            i <= n,
            r@ == s@.subrange(0, i as int),
        decreases n - i,
    {
        r.push(s.get_char(i));
        i = i + 1;
        assert(r@ =~= s@.subrange(0, i as int));
    }
    assert(r@ =~= s@);
    r
}

/// Relies on `String`'s `FromIterator<char>`: collecting chars yields the
/// string with exactly those chars in order.
#[verifier::external_body]
pub fn chars_to_string(cs: &Vec<char>) -> (r: String)
    ensures
        r@ == cs@,
{
    cs.iter().collect()
}

/// Strict lexicographic order on character sequences, by code point.
pub open spec fn lex_lt(a: Seq<char>, b: Seq<char>) -> bool
    decreases a.len(),
{
    if b.len() == 0 {
        false
    } else if a.len() == 0 {
        true
    } else if a[0] != b[0] {
        a[0] < b[0]
    } else {
        lex_lt(a.skip(1), b.skip(1))
    }
}

/// Lexicographic order on character sequences: `a` at or before `b`.
pub open spec fn lex_le(a: Seq<char>, b: Seq<char>) -> bool {
    !lex_lt(b, a)
}

pub proof fn lemma_lex_lt_connected(a: Seq<char>, b: Seq<char>)
    ensures
        lex_lt(a, b) || lex_lt(b, a) || a == b,
    decreases a.len(),
{
    if b.len() == 0 {
        if a.len() == 0 {
            assert(a =~= b);
        }
    } else if a.len() == 0 {
    } else if a[0] != b[0] {
    } else {
        lemma_lex_lt_connected(a.skip(1), b.skip(1));
        if a.skip(1) == b.skip(1) {
            assert(a =~= seq![a[0]] + a.skip(1));
            assert(b =~= seq![b[0]] + b.skip(1));
        }
    }
}

pub proof fn lemma_lex_lt_trans(a: Seq<char>, b: Seq<char>, c: Seq<char>)
    requires
        lex_lt(a, b),
        lex_lt(b, c),
    ensures
        lex_lt(a, c),
    decreases a.len(),
{
    if a.len() == 0 {
    } else if a[0] == c[0] {
        if a[0] == b[0] {
            lemma_lex_lt_trans(a.skip(1), b.skip(1), c.skip(1));
        }
    }
}

pub proof fn lemma_lex_le_total(a: Seq<char>, b: Seq<char>)
    ensures
        lex_le(a, b) || lex_le(b, a),
        lex_lt(a, b) ==> !lex_lt(b, a),
    decreases a.len(),
{
    if a.len() != 0 && b.len() != 0 && a[0] == b[0] {
        lemma_lex_le_total(a.skip(1), b.skip(1));
    }
}

/// Compares two character vectors in lexicographic order.
pub fn chars_lt(a: &Vec<char>, b: &Vec<char>) -> (r: bool)
    ensures
        r == lex_lt(a@, b@),
{
    let mut i: usize = 0;
    proof {
        assert(a@.skip(0) =~= a@);
        assert(b@.skip(0) =~= b@);
    }
    loop
        invariant
            i <= a.len(),
            i <= b.len(),
            lex_lt(a@, b@) == lex_lt(a@.skip(i as int), b@.skip(i as int)),
        decreases a.len() - i,
    {
        if i == b.len() {
            return false;
        }
        if i == a.len() {
            return true;
        }
        let ca = a[i];
        let cb = b[i];
        proof {
            assert(a@.skip(i as int)[0] == a@[i as int]);
            assert(b@.skip(i as int)[0] == b@[i as int]);
        }
        if ca != cb {
            return ca < cb;
        }
        proof {
            assert(a@.skip(i as int).skip(1) =~= a@.skip(i + 1));
            assert(b@.skip(i as int).skip(1) =~= b@.skip(i + 1));
        }
        i = i + 1;
    }
}

/// The decimal representation of `n`, most significant digit first.
pub open spec fn dec_rep(n: nat) -> Seq<char>
    decreases n,
{
    if n < 10 {
        seq![digit_to_char(n)]
    } else {
        dec_rep(n / 10).push(digit_to_char(n % 10))
    }
}

pub open spec fn digit_to_char(d: nat) -> char {
    if d == 0 {
        '0'
    } else if d == 1 {
        '1'
    } else if d == 2 {
        '2'
    } else if d == 3 {
        '3'
    } else if d == 4 {
        '4'
    } else if d == 5 {
        '5'
    } else if d == 6 {
        '6'
    } else if d == 7 {
        '7'
    } else if d == 8 {
        '8'
    } else {
        '9'
    }
}

fn digit_char_of(d: usize) -> (r: char)
    requires
        d < 10,
    ensures
        r == digit_to_char(d as nat),
{
    if d == 0 {
        '0'
    } else if d == 1 {
        '1'
    } else if d == 2 {
        '2'
    } else if d == 3 {
        '3'
    } else if d == 4 {
        '4'
    } else if d == 5 {
        '5'
    } else if d == 6 {
        '6'
    } else if d == 7 {
        '7'
    } else if d == 8 {
        '8'
    } else {
        '9'
    }
}

/// The decimal digits of `n` as characters.
pub fn dec_chars(n: usize) -> (r: Vec<char>)
    ensures
        r@ == dec_rep(n as nat),
    decreases n,
{
    if n < 10 {
        let mut r: Vec<char> = Vec::new();
        r.push(digit_char_of(n));
        assert(r@ =~= dec_rep(n as nat));
        r
    } else {
        let mut r = dec_chars(n / 10);
        r.push(digit_char_of(n % 10));
        r
    }
}

/// The decimal digits of `n` as a string.
pub fn dec_string(n: usize) -> (r: String)
    ensures
        r@ == dec_rep(n as nat),
{
    let cs = dec_chars(n);
    chars_to_string(&cs)
}

pub proof fn lemma_lex_le_trans(a: Seq<char>, b: Seq<char>, c: Seq<char>)
    requires
        lex_le(a, b),
        lex_le(b, c),
    ensures
        lex_le(a, c),
{
    if lex_lt(c, a) {
        lemma_lex_lt_connected(a, b);
        if lex_lt(a, b) {
            lemma_lex_lt_trans(c, a, b);
        }
    }
}

/// Compares two string slices for character equality.
pub fn str_eq(a: &str, b: &str) -> (r: bool)
    ensures
        r == (a@ == b@),
{
    let ca = str_chars(a);
    let cb = str_chars(b);
    if ca.len() != cb.len() {
        return false;
    }
    let n = ca.len();
    let mut i: usize = 0;
    while i < n
        invariant
            i <= n,
            n == ca@.len() == cb@.len(),
            ca@ == a@,
            cb@ == b@,
            forall|j: int| 0 <= j < i ==> ca@[j] == cb@[j],
        decreases n - i,
    {
        if ca[i] != cb[i] {
            return false;
        }
        i = i + 1;
    }
    proof {
        assert(a@ =~= b@);
    }
    true
}

/// Whether `a` begins with `p`.
pub open spec fn has_prefix(a: Seq<char>, p: Seq<char>) -> bool {
    a.len() >= p.len() && a.subrange(0, p.len() as int) == p
}

/// Tests whether `a` begins with the characters of `p`.
pub fn starts_with_chars(a: &Vec<char>, p: &Vec<char>) -> (r: bool)
    ensures
        r == has_prefix(a@, p@),
{
    if a.len() < p.len() {
        return false;
    }
    let n = p.len();
    let mut i: usize = 0;
    while i < n
        invariant
            i <= n,
            n == p@.len() <= a@.len(),
            forall|j: int| 0 <= j < i ==> a@[j] == p@[j],
        decreases n - i,
    {
        if a[i] != p[i] {
            proof {
                assert(a@.subrange(0, p@.len() as int)[i as int] == a@[i as int]);
            }
            return false;
        }
        i = i + 1;
    }
    proof {
        assert(a@.subrange(0, p@.len() as int) =~= p@);
    }
    true
}

/// The length of the run of characters satisfying `p` at the front of `t`.
pub open spec fn run_of(t: Seq<char>, p: spec_fn(char) -> bool) -> nat
    decreases t.len(),
{
    if t.len() == 0 {
        0
    } else if p(t[0]) {
        run_of(t.skip(1), p) + 1
    } else {
        0
    }
}

pub proof fn lemma_run_of(t: Seq<char>, p: spec_fn(char) -> bool)
    ensures
        run_of(t, p) <= t.len(),
        forall|i: int| 0 <= i < run_of(t, p) ==> p(#[trigger] t[i]),
        run_of(t, p) < t.len() ==> !p(t[run_of(t, p) as int]),
    decreases t.len(),
{
    if t.len() > 0 && p(t[0]) {
        lemma_run_of(t.skip(1), p);
        assert forall|i: int| 0 <= i < run_of(t, p) implies p(#[trigger] t[i]) by {
            if i > 0 {
                assert(t.skip(1)[i - 1] == t[i]);
            }
        }
        if run_of(t, p) < t.len() {
            assert(t.skip(1)[run_of(t, p) - 1] == t[run_of(t, p) as int]);
        }
    }
}

/// The run length is pinned by its two properties.
pub proof fn lemma_run_of_unique(t: Seq<char>, p: spec_fn(char) -> bool, m: int)
    requires
        0 <= m <= t.len(),
        forall|i: int| 0 <= i < m ==> p(#[trigger] t[i]),
        m < t.len() ==> !p(t[m]),
    ensures
        m == run_of(t, p),
    decreases t.len(),
{
    if t.len() == 0 {
    } else if m == 0 {
        assert(!p(t[0]));
    } else {
        assert(p(t[0]));
        assert forall|i: int| 0 <= i < m - 1 implies p(#[trigger] t.skip(1)[i]) by {
            assert(t.skip(1)[i] == t[i + 1]);
        }
        if m - 1 < t.skip(1).len() {
            assert(t.skip(1)[m - 1] == t[m]);
        }
        lemma_run_of_unique(t.skip(1), p, m - 1);
    }
}

/// The numeric value of a run of decimal digits, most significant first.
pub open spec fn dec_val(s: Seq<char>) -> nat
    decreases s.len(),
{
    if s.len() == 0 {
        0
    } else {
        dec_val(s.drop_last()) * 10 + digit_val(s.last())
    }
}

pub open spec fn digit_val(c: char) -> nat {
    ((c as int) - ('0' as int)) as nat
}

/// The index of the first whitespace character, or the length if none.
pub open spec fn token_end(s: Seq<char>) -> nat
    decreases s.len(),
{
    if s.len() == 0 {
        0
    } else if is_space_char(s[0]) {
        0
    } else {
        token_end(s.skip(1)) + 1
    }
}

pub proof fn lemma_token_end(s: Seq<char>)
    ensures
        token_end(s) <= s.len(),
        forall|i: int| 0 <= i < token_end(s) ==> !is_space_char(s[i]),
        token_end(s) < s.len() ==> is_space_char(s[token_end(s) as int]),
        s.len() > 0 && !is_space_char(s[0]) ==> token_end(s) >= 1,
    decreases s.len(),
{
    if s.len() > 0 && !is_space_char(s[0]) {
        lemma_token_end(s.skip(1));
        assert forall|i: int| 0 <= i < token_end(s) implies !is_space_char(s[i]) by {
            if i > 0 {
                assert(s.skip(1)[i - 1] == s[i]);
            }
        }
        if token_end(s) < s.len() {
            assert(s.skip(1)[token_end(s) - 1] == s[token_end(s) as int]);
        }
    }
}

/// The whitespace-separated tokens of `s`, in order.
pub open spec fn split_ws(s: Seq<char>) -> Seq<Seq<char>>
    decreases s.len(),
    via split_ws_decreases
{
    if s.len() == 0 {
        Seq::empty()
    } else if is_space_char(s[0]) {
        split_ws(s.skip(1))
    } else {
        let k = token_end(s) as int;
        seq![s.subrange(0, k)] + split_ws(s.skip(k))
    }
}

#[via_fn]
proof fn split_ws_decreases(s: Seq<char>) {
    if s.len() > 0 && !is_space_char(s[0]) {
        lemma_token_end(s);
        assert(token_end(s) >= 1);
    }
}

/// Splits a character vector into its whitespace-separated tokens.
pub fn split_whitespace(s: &Vec<char>) -> (r: Vec<Vec<char>>)
    ensures
        r.deep_view() == split_ws(s@),
{
    let n = s.len();
    let mut r: Vec<Vec<char>> = Vec::new();
    let mut i: usize = 0;
    proof {
        assert(s@.skip(0) =~= s@);
        assert(r.deep_view() =~~= Seq::<Seq<char>>::empty());
        assert(Seq::<Seq<char>>::empty() + split_ws(s@) =~= split_ws(s@));
    }
    while i < n
        invariant
            n == s@.len(),
            i <= n,
            split_ws(s@) == r.deep_view() + split_ws(s@.skip(i as int)),
        decreases n - i,
    {
        if space_char(s[i]) {
            proof {
                assert(s@.skip(i as int)[0] == s@[i as int]);
                assert(s@.skip(i as int).skip(1) =~= s@.skip(i + 1));
            }
            i = i + 1;
        } else {
            let ghost rest = s@.skip(i as int);
            let start = i;
            let mut tok: Vec<char> = Vec::new();
            proof {
                lemma_token_end(rest);
            }
            while i < n && !space_char(s[i])
                invariant
                    n == s@.len(),
                    start <= i <= n,
                    rest == s@.skip(start as int),
                    tok@ == s@.subrange(start as int, i as int),
                    forall|m: int| start <= m < i ==> !is_space_char(s@[m]),
                decreases n - i,
            {
                tok.push(s[i]);
                i = i + 1;
                assert(tok@ =~= s@.subrange(start as int, i as int));
            }
            proof {
                // The scan stopped exactly at the spec-level token end.
                let k = token_end(rest) as int;
                lemma_token_end(rest);
                assert forall|m: int| 0 <= m < i - start implies !is_space_char(rest[m]) by {
                    assert(rest[m] == s@[start + m]);
                }
                if i < n {
                    assert(rest[i - start] == s@[i as int]);
                }
                if k < i - start {
                    assert(!is_space_char(rest[k]));
                }
                if k > i - start {
                    assert(i < n);
                }
                assert(k == i - start);
                assert(rest.subrange(0, k) =~= s@.subrange(start as int, i as int));
                assert(rest.skip(k) =~= s@.skip(i as int));
                assert(split_ws(rest) == seq![tok@] + split_ws(s@.skip(i as int)));
            }
            let ghost prev = r.deep_view();
            r.push(tok);
            proof {
                assert(r.deep_view() =~~= prev + seq![tok@]);
                assert((prev + seq![tok@]) + split_ws(s@.skip(i as int)) =~~= prev + split_ws(rest));
            }
        }
    }
    proof {
        assert(s@.skip(n as int) =~= Seq::<char>::empty());
        assert(r.deep_view() + split_ws(s@.skip(n as int)) =~= r.deep_view());
    }
    r
}

/// The whitespace predicate as a function value.
pub open spec fn space_p() -> spec_fn(char) -> bool {
    |c: char| is_space_char(c)
}

/// The not-a-newline predicate as a function value.
pub open spec fn not_nl_p() -> spec_fn(char) -> bool {
    |c: char| c != '\n'
}

/// A line with one trailing carriage return removed, as `str::lines` yields
/// it.
pub open spec fn strip_cr(t: Seq<char>) -> Seq<char> {
    if t.len() > 0 && t.last() == '\r' {
        t.drop_last()
    } else {
        t
    }
}

/// The lines of a text: split at `'\n'`, a trailing `'\r'` removed from each,
/// and no final empty line after a trailing newline.
pub open spec fn split_lines(s: Seq<char>) -> Seq<Seq<char>>
    decreases s.len(),
    via split_lines_decreases
{
    if s.len() == 0 {
        Seq::empty()
    } else {
        let d = run_of(s, not_nl_p()) as int;
        if d == s.len() {
            seq![strip_cr(s)]
        } else {
            seq![strip_cr(s.subrange(0, d))] + split_lines(s.skip(d + 1))
        }
    }
}

#[via_fn]
proof fn split_lines_decreases(s: Seq<char>) {
    if s.len() > 0 {
        lemma_run_of(s, not_nl_p());
    }
}

/// Splits text into its lines, as `split_lines` describes.
#[verifier::loop_isolation(false)]
pub fn text_lines(s: &Vec<char>) -> (r: Vec<Vec<char>>)
    ensures
        r.deep_view() == split_lines(s@),
{
    let n = s.len();
    let mut r: Vec<Vec<char>> = Vec::new();
    let mut i: usize = 0;
    proof {
        assert(s@.skip(0) =~= s@);
        assert(r.deep_view() =~~= Seq::<Seq<char>>::empty());
        assert(Seq::<Seq<char>>::empty() + split_lines(s@) =~= split_lines(s@));
    }
    while i < n
        invariant
            i <= n,
            split_lines(s@) == r.deep_view() + split_lines(s@.skip(i as int)),
        decreases n - i,
    {
        let ghost rest = s@.skip(i as int);
        let start = i;
        let mut line: Vec<char> = Vec::new();
        while i < n && s[i] != '\n'
            invariant
                start <= i <= n,
                line@ == s@.subrange(start as int, i as int),
                forall|m: int| start <= m < i ==> s@[m] != '\n',
            decreases n - i,
        {
            line.push(s[i]);
            i = i + 1;
            assert(line@ =~= s@.subrange(start as int, i as int));
        }
        proof {
            let d = run_of(rest, not_nl_p()) as int;
            lemma_run_of(rest, not_nl_p());
            assert forall|m: int| 0 <= m < i - start implies not_nl_p()(rest[m]) by {
                assert(rest[m] == s@[start + m]);
            }
            if i < n {
                assert(rest[i - start] == s@[i as int]);
                assert(!not_nl_p()(rest[i - start]));
            }
            lemma_run_of_unique(rest, not_nl_p(), i - start);
            assert(d == i - start);
        }
        // Strip one trailing carriage return, as `str::lines` does.
        let has_cr = line.len() > 0 && line[line.len() - 1] == '\r';
        if has_cr {
            line.pop();
        }
        let ghost prev = r.deep_view();
        if i == n {
            proof {
                let d = run_of(rest, not_nl_p()) as int;
                assert(d == rest.len());
                assert(rest =~= s@.subrange(start as int, i as int));
                assert(line@ =~= strip_cr(rest));
                assert(split_lines(rest) == seq![strip_cr(rest)]);
            }
            r.push(line);
            proof {
                assert(r.deep_view() =~~= prev + seq![strip_cr(rest)]);
                assert((prev + seq![strip_cr(rest)]) + split_lines(s@.skip(n as int)) =~= prev
                    + split_lines(rest)) by {
                    assert(s@.skip(n as int) =~= Seq::<char>::empty());
                }
            }
        } else {
            proof {
                let d = run_of(rest, not_nl_p()) as int;
                assert(d < rest.len());
                assert(rest.subrange(0, d) =~= s@.subrange(start as int, i as int));
                assert(line@ =~= strip_cr(rest.subrange(0, d)));
                assert(rest.skip(d + 1) =~= s@.skip(i + 1));
                assert(split_lines(rest) == seq![strip_cr(rest.subrange(0, d))] + split_lines(
                    s@.skip(i + 1),
                ));
            }
            r.push(line);
            i = i + 1;
            proof {
                assert(r.deep_view() =~~= prev + seq![strip_cr(rest.subrange(
                    0,
                    run_of(rest, not_nl_p()) as int,
                ))]);
                assert((prev + seq![strip_cr(rest.subrange(0, run_of(rest, not_nl_p()) as int))])
                    + split_lines(s@.skip(i as int)) =~= prev + split_lines(rest));
            }
        }
    }
    proof {
        assert(s@.skip(n as int) =~= Seq::<char>::empty());
        assert(r.deep_view() + split_lines(s@.skip(n as int)) =~= r.deep_view());
    }
    r
}

/// Trailing characters `c` removed from the end.
pub open spec fn drop_trailing(s: Seq<char>, c: char) -> Seq<char>
    decreases s.len(),
{
    if s.len() > 0 && s.last() == c {
        drop_trailing(s.drop_last(), c)
    } else {
        s
    }
}

/// The text with leading and trailing whitespace removed.
pub open spec fn trim_spec(s: Seq<char>) -> Seq<char> {
    drop_trailing_spaces(s.skip(run_of(s, space_p()) as int))
}

/// Trailing whitespace removed from the end.
pub open spec fn drop_trailing_spaces(s: Seq<char>) -> Seq<char>
    decreases s.len(),
{
    if s.len() > 0 && is_space_char(s.last()) {
        drop_trailing_spaces(s.drop_last())
    } else {
        s
    }
}

/// Trims leading and trailing whitespace, as `str::trim` does.
#[verifier::loop_isolation(false)]
pub fn trim_chars(s: &Vec<char>) -> (r: Vec<char>)
    ensures
        r@ == trim_spec(s@),
{
    let n = s.len();
    let mut a: usize = 0;
    while a < n && space_char(s[a])
        invariant
            a <= n,
            forall|m: int| 0 <= m < a ==> is_space_char(#[trigger] s@[m]),
        decreases n - a,
    {
        a = a + 1;
    }
    proof {
        assert forall|m: int| 0 <= m < a implies space_p()(s@[m]) by {}
        if a < n {
            assert(!space_p()(s@[a as int]));
        }
        lemma_run_of_unique(s@, space_p(), a as int);
    }
    let mut r: Vec<char> = Vec::new();
    let mut i: usize = a;
    while i < n
        invariant
            a <= i <= n,
            r@ == s@.subrange(a as int, i as int),
        decreases n - i,
    {
        r.push(s[i]);
        i = i + 1;
        assert(r@ =~= s@.subrange(a as int, i as int));
    }
    proof {
        assert(r@ =~= s@.skip(a as int));
    }
    while r.len() > 0 && space_char(r[r.len() - 1])
        invariant
            drop_trailing_spaces(r@) == trim_spec(s@),
        decreases r@.len(),
    {
        let ghost before = r@;
        r.pop();
        proof {
            assert(r@ =~= before.drop_last());
        }
    }
    proof {
        assert(drop_trailing_spaces(r@) == r@);
    }
    r
}

/// A run of `n` spaces.
pub open spec fn spaces(n: nat) -> Seq<char>
    decreases n,
{
    if n == 0 {
        Seq::empty()
    } else {
        spaces((n - 1) as nat).push(' ')
    }
}

/// Builds a string of `n` spaces.
pub fn space_string(n: usize) -> (r: String)
    ensures
        r@ == spaces(n as nat),
{
    let mut cs: Vec<char> = Vec::new();
    let mut i: usize = 0;
    proof {
        assert(cs@ =~= spaces(0));
    }
    while i < n
        invariant
            i <= n,
            cs@ == spaces(i as nat),
        decreases n - i,
    {
        cs.push(' ');
        i = i + 1;
    }
    chars_to_string(&cs)
}

/// What `str::to_lowercase` returns: it depends on the characters alone.
pub uninterp spec fn lower_of(s: Seq<char>) -> Seq<char>;

/// Relies on `str::to_lowercase`: the result is a function of the characters
/// alone, and an empty string stays empty.
#[verifier::external_body]
pub fn lowercase(s: &str) -> (r: String)
    ensures
        r@ == lower_of(s@),
        s@.len() == 0 ==> r@.len() == 0,
{
    s.to_lowercase()
}

} // verus!
