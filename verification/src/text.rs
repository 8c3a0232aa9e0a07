//! Character-level text utilities: classifier predicates, run-length
//! scanners, substring search, trimming, splitting and lexicographic
//! order, each exec function proved against its spec twin.

use vstd::prelude::*;

verus! {

use vstd::string::StrSliceExecFns;

/// Whitespace as the scanners understand it (the ASCII white space
/// characters; input files are conventionally formatted ASCII text).
pub open spec fn is_ws(c: char) -> bool {
    c == ' ' || c == '\t' || c == '\n' || c == '\r' || c == '\u{b}' || c == '\u{c}'
}

/// A word character: letter, digit or underscore.
pub open spec fn is_word(c: char) -> bool {
    ||| 'a' <= c && c <= 'z'
    ||| 'A' <= c && c <= 'Z'
    ||| '0' <= c && c <= '9'
    ||| c == '_'
}

/// A decimal digit.
pub open spec fn is_digit(c: char) -> bool {
    '0' <= c && c <= '9'
}

pub fn is_ws_x(c: char) -> (b: bool)
    ensures
        b == is_ws(c),
{
    c == ' ' || c == '\t' || c == '\n' || c == '\r' || c == '\u{b}' || c == '\u{c}'
}

pub fn is_word_x(c: char) -> (b: bool)
    ensures
        b == is_word(c),
{
    ('a' <= c && c <= 'z') || ('A' <= c && c <= 'Z') || ('0' <= c && c <= '9') || c == '_'
}

pub fn is_digit_x(c: char) -> (b: bool)
    ensures
        b == is_digit(c),
{
    '0' <= c && c <= '9'
}

/// Length of the run of whitespace characters starting at `i`.
pub open spec fn ws_run(s: Seq<char>, i: int) -> nat
    decreases s.len() - i,
{
    if i < 0 || i >= s.len() || !is_ws(s[i]) {
        0
    } else {
        1 + ws_run(s, i + 1)
    }
}

/// Length of the run of word characters starting at `i`.
pub open spec fn word_run(s: Seq<char>, i: int) -> nat
    decreases s.len() - i,
{
    if i < 0 || i >= s.len() || !is_word(s[i]) {
        0
    } else {
        1 + word_run(s, i + 1)
    }
}

/// Length of the run of digits starting at `i`.
pub open spec fn digit_run(s: Seq<char>, i: int) -> nat
    decreases s.len() - i,
{
    if i < 0 || i >= s.len() || !is_digit(s[i]) {
        0
    } else {
        1 + digit_run(s, i + 1)
    }
}

/// Length of the run of characters other than `stop` starting at `i`.
pub open spec fn not_char_run(s: Seq<char>, i: int, stop: char) -> nat
    decreases s.len() - i,
{
    if i < 0 || i >= s.len() || s[i] == stop {
        0
    } else {
        1 + not_char_run(s, i + 1, stop)
    }
}

pub proof fn lemma_ws_run_bound(s: Seq<char>, i: int)
    requires
        0 <= i <= s.len(),
    ensures
        i + ws_run(s, i) <= s.len(),
    decreases s.len() - i,
{
    if i < s.len() && is_ws(s[i]) {
        lemma_ws_run_bound(s, i + 1);
    }
}

pub fn ws_run_x(v: &Vec<char>, i: usize) -> (n: usize)
    requires
        i <= v.len(),
    ensures
        n == ws_run(v@, i as int),
        i + n <= v.len(),
{
    let mut j: usize = i;
    while j < v.len() && is_ws_x(v[j])
        invariant
            i <= j <= v.len(),
            ws_run(v@, i as int) == (j - i) + ws_run(v@, j as int),
        decreases v.len() - j,
    {
        j = j + 1;
    }
    j - i
}

pub proof fn lemma_word_run_bound(s: Seq<char>, i: int)
    requires
        0 <= i <= s.len(),
    ensures
        i + word_run(s, i) <= s.len(),
    decreases s.len() - i,
{
    if i < s.len() && is_word(s[i]) {
        lemma_word_run_bound(s, i + 1);
    }
}

pub fn word_run_x(v: &Vec<char>, i: usize) -> (n: usize)
    requires
        i <= v.len(),
    ensures
        n == word_run(v@, i as int),
        i + n <= v.len(),
{
    let mut j: usize = i;
    while j < v.len() && is_word_x(v[j])
        invariant
            i <= j <= v.len(),
            word_run(v@, i as int) == (j - i) + word_run(v@, j as int),
        decreases v.len() - j,
    {
        j = j + 1;
    }
    j - i
}

pub proof fn lemma_digit_run_bound(s: Seq<char>, i: int)
    requires
        0 <= i <= s.len(),
    ensures
        i + digit_run(s, i) <= s.len(),
    decreases s.len() - i,
{
    if i < s.len() && is_digit(s[i]) {
        lemma_digit_run_bound(s, i + 1);
    }
}

pub fn digit_run_x(v: &Vec<char>, i: usize) -> (n: usize)
    requires
        i <= v.len(),
    ensures
        n == digit_run(v@, i as int),
        i + n <= v.len(),
{
    let mut j: usize = i;
    while j < v.len() && is_digit_x(v[j])
        invariant
            i <= j <= v.len(),
            digit_run(v@, i as int) == (j - i) + digit_run(v@, j as int),
        decreases v.len() - j,
    {
        j = j + 1;
    }
    j - i
}

pub proof fn lemma_not_char_run_bound(s: Seq<char>, i: int, stop: char)
    requires
        0 <= i <= s.len(),
    ensures
        i + not_char_run(s, i, stop) <= s.len(),
    decreases s.len() - i,
{
    if i < s.len() && s[i] != stop {
        lemma_not_char_run_bound(s, i + 1, stop);
    }
}

pub fn not_char_run_x(v: &Vec<char>, i: usize, stop: char) -> (n: usize)
    requires
        i <= v.len(),
    ensures
        n == not_char_run(v@, i as int, stop),
        i + n <= v.len(),
{
    let mut j: usize = i;
    while j < v.len() && v[j] != stop
        invariant
            i <= j <= v.len(),
            not_char_run(v@, i as int, stop) == (j - i) + not_char_run(v@, j as int, stop),
        decreases v.len() - j,
    {
        j = j + 1;
    }
    j - i
}

/// `needle` occurs in `hay` starting at index `i`.
pub open spec fn match_at(hay: Seq<char>, needle: Seq<char>, i: int) -> bool {
    0 <= i && i + needle.len() <= hay.len() && hay.subrange(i, i + needle.len() as int)
        == needle
}

/// `needle` occurs somewhere in `hay` (substring containment).
pub open spec fn contains_seq(hay: Seq<char>, needle: Seq<char>) -> bool {
    exists|i: int| match_at(hay, needle, i)
}

pub fn match_at_x(hay: &Vec<char>, needle: &Vec<char>, i: usize) -> (b: bool)
    ensures
        b == match_at(hay@, needle@, i as int),
{
    if i > hay.len() || needle.len() > hay.len() - i {
        return false;
    }
    let mut k: usize = 0;
    while k < needle.len()
        invariant
            0 <= k <= needle.len(),
            i + needle.len() <= hay.len(),
            forall|m: int| 0 <= m < k ==> hay@[i + m] == needle@[m],
        decreases needle.len() - k,
    {
        if hay[i + k] != needle[k] {
            proof {
                assert(hay@.subrange(i as int, i + needle@.len() as int)[k as int]
                    != needle@[k as int]);
            }
            return false;
        }
        k = k + 1;
    }
    proof {
        assert(hay@.subrange(i as int, i + needle@.len() as int) =~= needle@);
    }
    true
}

pub fn contains_x(hay: &Vec<char>, needle: &Vec<char>) -> (b: bool)
    ensures
        b == contains_seq(hay@, needle@),
{
    if needle.len() == 0 {
        proof {
            assert(hay@.subrange(0, 0) =~= needle@);
            assert(match_at(hay@, needle@, 0));
        }
        return true;
    }
    if needle.len() > hay.len() {
        proof {
            assert(forall|i: int| !match_at(hay@, needle@, i));
        }
        return false;
    }
    let mut i: usize = 0;
    while i <= hay.len() - needle.len()
        invariant
            1 <= needle.len() <= hay.len(),
            0 <= i <= hay.len() - needle.len() + 1,
            forall|m: int| 0 <= m < i ==> !match_at(hay@, needle@, m),
        decreases hay.len() - needle.len() + 1 - i,
    {
        if match_at_x(hay, needle, i) {
            return true;
        }
        i = i + 1;
    }
    proof {
        assert(forall|m: int| m >= i ==> !match_at(hay@, needle@, m));
    }
    false
}

pub proof fn lemma_contains_prefix(c: Seq<char>, t: Seq<char>, x: Seq<char>)
    requires
        contains_seq(c, x),
    ensures
        contains_seq(c + t, x),
{
    let i = choose|i: int| match_at(c, x, i);
    assert((c + t).subrange(i, i + x.len() as int) =~= c.subrange(i, i + x.len() as int));
    assert(match_at(c + t, x, i));
}

pub proof fn lemma_contains_suffix(c: Seq<char>, t: Seq<char>, x: Seq<char>)
    requires
        contains_seq(t, x),
    ensures
        contains_seq(c + t, x),
{
    let i = choose|i: int| match_at(t, x, i);
    assert((c + t).subrange(c.len() + i, c.len() + i + x.len() as int) =~= t.subrange(
        i,
        i + x.len() as int,
    ));
    assert(match_at(c + t, x, c.len() + i));
}

pub proof fn lemma_contains_trans(a: Seq<char>, b: Seq<char>, x: Seq<char>)
    requires
        contains_seq(a, b),
        contains_seq(b, x),
    ensures
        contains_seq(a, x),
{
    let i = choose|i: int| match_at(a, b, i);
    let j = choose|j: int| match_at(b, x, j);
    assert(a.subrange(i + j, i + j + x.len() as int) =~= a.subrange(i, i + b.len() as int)
        .subrange(j, j + x.len() as int));
    assert(match_at(a, x, i + j));
}

/// Copy of `v[a..b]`.
pub fn subvec(v: &Vec<char>, a: usize, b: usize) -> (r: Vec<char>)
    requires
        a <= b <= v.len(),
    ensures
        r@ == v@.subrange(a as int, b as int),
{
    let mut r: Vec<char> = Vec::new();
    let mut j: usize = a;
    while j < b
        invariant
            a <= j <= b <= v.len(),
            r@ == v@.subrange(a as int, j as int),
        decreases b - j,
    {
        r.push(v[j]);
        proof {
            assert(r@ =~= v@.subrange(a as int, j + 1 as int));
        }
        j = j + 1;
    }
    r
}

/// The characters of `s`, one element per `char`.
pub fn chars_of(s: &str) -> (r: Vec<char>)
    ensures
        r@ == s@,
{
    let n = s.unicode_len();
    let mut r: Vec<char> = Vec::new();
    let mut i: usize = 0;
    while i < n
        invariant
            0 <= i <= n,
            n == s@.len(),
            r@ == s@.subrange(0, i as int),
        decreases n - i,
    {
        r.push(s.get_char(i));
        proof {
            assert(r@ =~= s@.subrange(0, i + 1 as int));
        }
        i = i + 1;
    }
    proof {
        assert(r@ =~= s@);
    }
    r
}

/// Relies on String::push: appends the given character at the end.
#[verifier::external_body]
fn push_char(s: &mut String, c: char)
    ensures
        final(s)@ == old(s)@.push(c),
{
    s.push(c)
}

/// A `String` holding exactly the characters of `v`.
pub fn string_of(v: &Vec<char>) -> (r: String)
    ensures
        r@ == v@,
{
    let mut r = String::new();
    let mut i: usize = 0;
    while i < v.len()
        invariant
            0 <= i <= v.len(),
            r@ == v@.subrange(0, i as int),
        decreases v.len() - i,
    {
        push_char(&mut r, v[i]);
        proof {
            assert(r@ =~= v@.subrange(0, i + 1 as int));
        }
        i = i + 1;
    }
    proof {
        assert(r@ =~= v@);
    }
    r
}

/// Number of trailing whitespace characters of `s` before index `i`.
pub open spec fn rev_ws_run(s: Seq<char>, i: int) -> nat
    decreases i,
{
    if i <= 0 || i > s.len() || !is_ws(s[i - 1]) {
        0
    } else {
        1 + rev_ws_run(s, i - 1)
    }
}

pub proof fn lemma_rev_ws_run_stops(s: Seq<char>, i: int, a: int)
    requires
        0 <= a < i <= s.len(),
        !is_ws(s[a]),
    ensures
        rev_ws_run(s, i) <= i - a - 1,
    decreases i,
{
    if i - 1 > a && is_ws(s[i - 1]) {
        lemma_rev_ws_run_stops(s, i - 1, a);
    }
}

pub fn rev_ws_run_x(v: &Vec<char>, i: usize) -> (n: usize)
    requires
        i <= v.len(),
    ensures
        n == rev_ws_run(v@, i as int),
        n <= i,
{
    let mut j: usize = i;
    while j > 0 && is_ws_x(v[j - 1])
        invariant
            0 <= j <= i <= v.len(),
            rev_ws_run(v@, i as int) == (i - j) + rev_ws_run(v@, j as int),
        decreases j,
    {
        j = j - 1;
    }
    i - j
}

/// `s` with leading and trailing whitespace removed.
pub open spec fn trim_spec(s: Seq<char>) -> Seq<char> {
    if ws_run(s, 0) == s.len() {
        Seq::empty()
    } else {
        s.subrange(ws_run(s, 0) as int, s.len() - rev_ws_run(s, s.len() as int))
    }
}

pub proof fn lemma_ws_run_all_ws(s: Seq<char>, i: int)
    requires
        0 <= i <= s.len(),
    ensures
        forall|m: int| i <= m < i + ws_run(s, i) ==> is_ws(s[m]),
        i + ws_run(s, i) < s.len() ==> !is_ws(s[i + ws_run(s, i)]),
    decreases s.len() - i,
{
    if i < s.len() && is_ws(s[i]) {
        lemma_ws_run_all_ws(s, i + 1);
    }
}

pub fn trim_vec(v: &Vec<char>) -> (r: Vec<char>)
    ensures
        r@ == trim_spec(v@),
{
    let a = ws_run_x(v, 0);
    if a == v.len() {
        proof {
            assert(Seq::<char>::empty() =~= Seq::<char>::empty());
        }
        let r: Vec<char> = Vec::new();
        return r;
    }
    proof {
        lemma_ws_run_all_ws(v@, 0);
        assert(!is_ws(v@[a as int]));
        lemma_rev_ws_run_stops(v@, v@.len() as int, a as int);
    }
    let b = rev_ws_run_x(v, v.len());
    subvec(v, a, v.len() - b)
}

/// Split on `sep`, scanning from index `i` with `cur` the piece read so
/// far: the semantics of `str::split` for a single separator character.
pub open spec fn split_char_acc(s: Seq<char>, sep: char, i: int, cur: Seq<char>) -> Seq<
    Seq<char>,
>
    decreases s.len() - i,
{
    if i < 0 || i >= s.len() {
        seq![cur]
    } else if s[i] == sep {
        seq![cur] + split_char_acc(s, sep, i + 1, Seq::empty())
    } else {
        split_char_acc(s, sep, i + 1, cur.push(s[i]))
    }
}

/// The pieces of `s` split on `sep`.
pub open spec fn split_char(s: Seq<char>, sep: char) -> Seq<Seq<char>> {
    split_char_acc(s, sep, 0, Seq::empty())
}

pub fn split_char_x(v: &Vec<char>, sep: char) -> (r: Vec<Vec<char>>)
    ensures
        r.deep_view() == split_char(v@, sep),
{
    let mut done: Vec<Vec<char>> = Vec::new();
    let mut cur: Vec<char> = Vec::new();
    let mut i: usize = 0;
    while i < v.len()
        invariant
            0 <= i <= v.len(),
            split_char(v@, sep) == done.deep_view() + split_char_acc(
                v@,
                sep,
                i as int,
                cur@,
            ),
        decreases v.len() - i,
    {
        if v[i] == sep {
            let ghost old_done = done.deep_view();
            let ghost old_cur = cur@;
            done.push(cur);
            cur = Vec::new();
            proof {
                assert(done.deep_view() =~~= old_done + seq![old_cur]);
                assert(done.deep_view() + split_char_acc(
                    v@,
                    sep,
                    i + 1 as int,
                    Seq::empty(),
                ) =~= old_done + (seq![old_cur] + split_char_acc(
                    v@,
                    sep,
                    i + 1 as int,
                    Seq::empty(),
                )));
            }
        } else {
            cur.push(v[i]);
        }
        i = i + 1;
    }
    let ghost old_done = done.deep_view();
    let ghost old_cur = cur@;
    done.push(cur);
    proof {
        assert(done.deep_view() =~~= old_done + seq![old_cur]);
    }
    done
}

pub proof fn lemma_split_nonempty(s: Seq<char>, sep: char, i: int, cur: Seq<char>)
    ensures
        split_char_acc(s, sep, i, cur).len() >= 1,
    decreases s.len() - i,
{
    if !(i < 0 || i >= s.len()) {
        if s[i] == sep {
            lemma_split_nonempty(s, sep, i + 1, Seq::empty());
        } else {
            lemma_split_nonempty(s, sep, i + 1, cur.push(s[i]));
        }
    }
}

/// Lexicographic order on character sequences by code point, the order
/// `str` comparison uses.
pub open spec fn lex_le(a: Seq<char>, b: Seq<char>) -> bool
    decreases a.len(),
{
    if a.len() == 0 {
        true
    } else if b.len() == 0 {
        false
    } else if a[0] == b[0] {
        lex_le(a.drop_first(), b.drop_first())
    } else {
        (a[0] as u32) < (b[0] as u32)
    }
}

/// Strict lexicographic order.
pub open spec fn lex_lt(a: Seq<char>, b: Seq<char>) -> bool {
    lex_le(a, b) && a != b
}

pub proof fn lemma_lex_le_total(a: Seq<char>, b: Seq<char>)
    ensures
        lex_le(a, b) || lex_le(b, a),
    decreases a.len(),
{
    if a.len() > 0 && b.len() > 0 {
        if a[0] == b[0] {
            lemma_lex_le_total(a.drop_first(), b.drop_first());
        } else if (a[0] as u32) == (b[0] as u32) {
            vstd::utf8::char_u32_cast(a[0], a[0] as u32);
            vstd::utf8::char_u32_cast(b[0], b[0] as u32);
            assert(false);
        }
    }
}

pub proof fn lemma_lex_le_antisym(a: Seq<char>, b: Seq<char>)
    requires
        lex_le(a, b),
        lex_le(b, a),
    ensures
        a == b,
    decreases a.len(),
{
    if a.len() == 0 {
        assert(b.len() == 0);
        assert(a =~= b);
    } else {
        assert(b.len() > 0);
        if a[0] == b[0] {
            lemma_lex_le_antisym(a.drop_first(), b.drop_first());
            assert(a =~= seq![a[0]] + a.drop_first());
            assert(b =~= seq![b[0]] + b.drop_first());
        }
    }
}

pub proof fn lemma_lex_le_trans(a: Seq<char>, b: Seq<char>, c: Seq<char>)
    requires
        lex_le(a, b),
        lex_le(b, c),
    ensures
        lex_le(a, c),
    decreases a.len(),
{
    if a.len() > 0 && b.len() > 0 && c.len() > 0 && a[0] == b[0] && b[0] == c[0] {
        lemma_lex_le_trans(a.drop_first(), b.drop_first(), c.drop_first());
    }
}

pub proof fn lemma_lex_lt_trans(a: Seq<char>, b: Seq<char>, c: Seq<char>)
    requires
        lex_lt(a, b),
        lex_lt(b, c),
    ensures
        lex_lt(a, c),
{
    lemma_lex_le_trans(a, b, c);
    if a == c {
        lemma_lex_le_antisym(a, b);
    }
}

pub fn str_eq(a: &str, b: &str) -> (r: bool)
    ensures
        r == (a@ == b@),
{
    let av = chars_of(a);
    let bv = chars_of(b);
    vec_eq(&av, &bv)
}

pub fn vec_eq(a: &Vec<char>, b: &Vec<char>) -> (r: bool)
    ensures
        r == (a@ == b@),
{
    if a.len() != b.len() {
        return false;
    }
    let mut i: usize = 0;
    while i < a.len()
        invariant
            0 <= i <= a.len(),
            a.len() == b.len(),
            forall|m: int| 0 <= m < i ==> a@[m] == b@[m],
        decreases a.len() - i,
    {
        if a[i] != b[i] {
            return false;
        }
        i = i + 1;
    }
    proof {
        assert(a@ =~= b@);
    }
    true
}

pub proof fn lemma_lex_le_skip(a: Seq<char>, b: Seq<char>, i: int)
    requires
        0 <= i <= a.len(),
        i <= b.len(),
        forall|m: int| 0 <= m < i ==> a[m] == b[m],
    ensures
        lex_le(a, b) == lex_le(a.skip(i), b.skip(i)),
    decreases i,
{
    if i > 0 {
        if a.len() > 0 && b.len() > 0 {
            assert(a.drop_first() =~= a.skip(1));
            assert(b.drop_first() =~= b.skip(1));
            lemma_lex_le_skip(a.skip(1), b.skip(1), i - 1);
            assert(a.skip(1).skip(i - 1) =~= a.skip(i));
            assert(b.skip(1).skip(i - 1) =~= b.skip(i));
        }
    } else {
        assert(a.skip(0) =~= a);
        assert(b.skip(0) =~= b);
    }
}

pub fn lex_lt_x(a: &Vec<char>, b: &Vec<char>) -> (r: bool)
    ensures
        r == lex_lt(a@, b@),
{
    lex_le_x(a, b) && !vec_eq(a, b)
}

pub fn lex_le_x(a: &Vec<char>, b: &Vec<char>) -> (r: bool)
    ensures
        r == lex_le(a@, b@),
{
    let mut i: usize = 0;
    while i < a.len() && i < b.len()
        invariant
            0 <= i <= a.len(),
            i <= b.len(),
            forall|m: int| 0 <= m < i ==> a@[m] == b@[m],
        decreases a.len() - i,
    {
        if a[i] != b[i] {
            proof {
                lemma_lex_le_skip(a@, b@, i as int);
                assert(a@.skip(i as int)[0] == a@[i as int]);
                assert(b@.skip(i as int)[0] == b@[i as int]);
            }
            return (a[i] as u32) < (b[i] as u32);
        }
        i = i + 1;
    }
    proof {
        lemma_lex_le_skip(a@, b@, i as int);
    }
    i == a.len()
}

} // verus!


