//! Documentation normalization: a documentation file re-serialized
//! with its sections in ascending header order and every underline
//! corrected to exactly the header's length.

use vstd::prelude::*;

verus! {

use vstd::string::StrSliceExecFns;
use vstd::string::StringExecFns;
use crate::text::{chars_of, string_of, lex_lt, lex_lt_x, vec_eq, subvec};
use crate::doc_gen::{sign_of, get_func_sign};

/// One section of a documentation file: a header name and the body
/// text that runs to the next header or the end of the file.
#[derive(Debug)]
pub struct DocSection {
    pub header_name: String,
    pub body_text: String,
}

/// Mathematical model of a [`DocSection`].
#[verifier::ext_equal]
pub ghost struct SecV {
    pub name: Seq<char>,
    pub body: Seq<char>,
}

impl View for DocSection {
    type V = SecV;

    open spec fn view(&self) -> SecV {
        SecV { name: self.header_name@, body: self.body_text@ }
    }
}

impl DeepView for DocSection {
    type V = SecV;

    open spec fn deep_view(&self) -> SecV {
        self.view()
    }
}

/// A parsed documentation file: the preamble before the first header
/// and the sections in their order of appearance.
#[verifier::ext_equal]
pub ghost struct DocV {
    pub preamble: Seq<char>,
    pub sections: Seq<SecV>,
}

/// The lines of `s` with their newlines kept: every piece ends with
/// the newline that closed it, and a final piece without a newline is
/// kept only when it is non-empty, so the pieces concatenate back to
/// `s`.
pub open spec fn klines_acc(s: Seq<char>, i: int, cur: Seq<char>) -> Seq<Seq<char>>
    decreases s.len() - i,
{
    if i < 0 || i >= s.len() {
        if cur.len() > 0 {
            seq![cur]
        } else {
            Seq::empty()
        }
    } else if s[i] == '\n' {
        seq![cur.push('\n')] + klines_acc(s, i + 1, Seq::empty())
    } else {
        klines_acc(s, i + 1, cur.push(s[i]))
    }
}

/// The newline-kept lines of `s`.
pub open spec fn klines(s: Seq<char>) -> Seq<Seq<char>> {
    klines_acc(s, 0, Seq::empty())
}

pub fn klines_x(v: &Vec<char>) -> (r: Vec<Vec<char>>)
    ensures
        r.deep_view() == klines(v@),
{
    let mut done: Vec<Vec<char>> = Vec::new();
    let mut cur: Vec<char> = Vec::new();
    let mut i: usize = 0;
    proof {
        assert(done.deep_view() =~~= Seq::<Seq<char>>::empty());
    }
    while i < v.len()
        invariant
            0 <= i <= v.len(),
            klines(v@) == done.deep_view() + klines_acc(v@, i as int, cur@),
        decreases v.len() - i,
    {
        if v[i] == '\n' {
            cur.push('\n');
            let ghost old_done = done.deep_view();
            let ghost line = cur@;
            done.push(cur);
            cur = Vec::new();
            proof {
                assert(done.deep_view() =~~= old_done + seq![line]);
                assert(done.deep_view() + klines_acc(v@, i + 1 as int, Seq::empty())
                    =~= old_done + (seq![line] + klines_acc(v@, i + 1 as int, Seq::empty())));
            }
        } else {
            cur.push(v[i]);
        }
        i = i + 1;
    }
    if cur.len() > 0 {
        let ghost old_done = done.deep_view();
        let ghost line = cur@;
        done.push(cur);
        proof {
            assert(done.deep_view() =~~= old_done + seq![line]);
        }
    } else {
        proof {
            assert(done.deep_view() + klines_acc(v@, v@.len() as int, cur@) =~= done.deep_view());
        }
    }
    done
}

/// A header name line: non-empty text closed by its newline.
pub open spec fn is_name_line(l: Seq<char>) -> bool {
    l.len() >= 2 && l.last() == '\n'
}

/// An underline: three or more dashes closed by a newline.
pub open spec fn is_dash_line(l: Seq<char>) -> bool {
    l.len() >= 4 && l.last() == '\n' && (forall|m: int| 0 <= m < l.len() - 1 ==> l[m] == '-')
}

fn is_name_line_x(l: &Vec<char>) -> (b: bool)
    ensures
        b == is_name_line(l@),
{
    l.len() >= 2 && l[l.len() - 1] == '\n'
}

fn is_dash_line_x(l: &Vec<char>) -> (b: bool)
    ensures
        b == is_dash_line(l@),
{
    if !(l.len() >= 4 && l[l.len() - 1] == '\n') {
        return false;
    }
    let mut m: usize = 0;
    while m < l.len() - 1
        invariant
            l@.len() >= 4,
            0 <= m <= l@.len() - 1,
            forall|t: int| 0 <= t < m ==> l@[t] == '-',
        decreases l.len() - m,
    {
        if l[m] != '-' {
            return false;
        }
        m = m + 1;
    }
    true
}

/// The section parse of the kept lines from index `i`: a non-empty
/// line directly followed by a dash underline opens a section; every
/// other line joins the preceding section's body, or the preamble
/// when no section is open yet. A header without its underline is
/// plain content, not an error.
pub open spec fn doc_scan(ls: Seq<Seq<char>>, i: int, st: DocV) -> DocV
    decreases ls.len() - i,
{
    if i < 0 || i >= ls.len() {
        st
    } else if i + 1 < ls.len() && is_name_line(ls[i]) && is_dash_line(ls[i + 1]) {
        doc_scan(
            ls,
            i + 2,
            DocV {
                preamble: st.preamble,
                sections: st.sections.push(SecV { name: ls[i].drop_last(), body: Seq::empty() }),
            },
        )
    } else {
        let st2 = if st.sections.len() == 0 {
            DocV { preamble: st.preamble + ls[i], sections: st.sections }
        } else {
            DocV {
                preamble: st.preamble,
                sections: st.sections.update(
                    st.sections.len() - 1,
                    SecV {
                        name: st.sections.last().name,
                        body: st.sections.last().body + ls[i],
                    },
                ),
            }
        };
        doc_scan(ls, i + 1, st2)
    }
}

/// The parsed form of a documentation file.
pub open spec fn spec_parse_doc(s: Seq<char>) -> DocV {
    doc_scan(klines(s), 0, DocV { preamble: Seq::empty(), sections: Seq::empty() })
}

/// A section placed into a name-sorted section list; a section of the
/// same name is overwritten, the last write winning.
pub open spec fn secs_insert(ss: Seq<SecV>, s: SecV) -> Seq<SecV>
    decreases ss.len(),
{
    if ss.len() == 0 {
        seq![s]
    } else if s.name == ss[0].name {
        seq![s] + ss.drop_first()
    } else if lex_lt(s.name, ss[0].name) {
        seq![s] + ss
    } else {
        seq![ss[0]] + secs_insert(ss.drop_first(), s)
    }
}

/// The sections folded into ascending name order from index `i`.
pub open spec fn sort_secs(ss: Seq<SecV>, i: int, acc: Seq<SecV>) -> Seq<SecV>
    decreases ss.len() - i,
{
    if i < 0 || i >= ss.len() {
        acc
    } else {
        sort_secs(ss, i + 1, secs_insert(acc, ss[i]))
    }
}

/// The re-serialized sections from index `i`: each header followed by
/// an underline of exactly the header's length, then its body.
pub open spec fn render_secs(ss: Seq<SecV>, i: int) -> Seq<char>
    decreases ss.len() - i,
{
    if i < 0 || i >= ss.len() {
        Seq::empty()
    } else {
        sign_of(ss[i].name) + seq!['\n'] + ss[i].body + render_secs(ss, i + 1)
    }
}

/// The normalized form of a documentation file: the preamble
/// unchanged, then the sections in ascending header order, each
/// underline corrected to the header's character count, duplicate
/// headers resolved last-write-wins.
pub open spec fn spec_normalize(s: Seq<char>) -> Seq<char> {
    let d = spec_parse_doc(s);
    d.preamble + render_secs(sort_secs(d.sections, 0, Seq::empty()), 0)
}

/// The lines of a list concatenated back into one text.
pub open spec fn cat_list(ls: Seq<Seq<char>>) -> Seq<char>
    decreases ls.len(),
{
    if ls.len() == 0 {
        Seq::empty()
    } else {
        ls[0] + cat_list(ls.drop_first())
    }
}

proof fn lemma_klines_acc_shift(s1: Seq<char>, s2: Seq<char>, j: int, cur: Seq<char>)
    requires
        0 <= j <= s2.len(),
    ensures
        klines_acc(s1 + s2, s1.len() + j, cur) == klines_acc(s2, j, cur),
    decreases s2.len() - j,
{
    if j < s2.len() {
        assert((s1 + s2)[s1.len() + j] == s2[j]);
        if s2[j] == '\n' {
            lemma_klines_acc_shift(s1, s2, j + 1, Seq::empty());
        } else {
            lemma_klines_acc_shift(s1, s2, j + 1, cur.push(s2[j]));
        }
    }
}

proof fn lemma_klines_acc_append(s1: Seq<char>, s2: Seq<char>, i: int, cur: Seq<char>)
    requires
        0 <= i < s1.len(),
        s1.last() == '\n',
    ensures
        klines_acc(s1 + s2, i, cur) == klines_acc(s1, i, cur) + klines(s2),
    decreases s1.len() - i,
{
    assert((s1 + s2)[i] == s1[i]);
    if s1[i] == '\n' {
        if i + 1 < s1.len() {
            lemma_klines_acc_append(s1, s2, i + 1, Seq::empty());
            assert(seq![cur.push('\n')] + (klines_acc(s1, i + 1, Seq::empty()) + klines(s2))
                =~= (seq![cur.push('\n')] + klines_acc(s1, i + 1, Seq::empty())) + klines(s2));
        } else {
            lemma_klines_acc_shift(s1, s2, 0, Seq::empty());
            assert(klines_acc(s1, i + 1, Seq::empty()) =~= Seq::<Seq<char>>::empty());
            assert(seq![cur.push('\n')] + klines(s2) =~= (seq![cur.push('\n')] + Seq::<
                Seq<char>,
            >::empty()) + klines(s2));
        }
    } else {
        lemma_klines_acc_append(s1, s2, i + 1, cur.push(s1[i]));
    }
}

/// Splitting into kept lines distributes over concatenation at a
/// newline boundary.
pub proof fn lemma_klines_concat(s1: Seq<char>, s2: Seq<char>)
    requires
        s1.len() == 0 || s1.last() == '\n',
    ensures
        klines(s1 + s2) == klines(s1) + klines(s2),
{
    if s1.len() == 0 {
        assert(s1 + s2 =~= s2);
        assert(klines(s1) + klines(s2) =~= klines(s2));
    } else {
        lemma_klines_acc_append(s1, s2, 0, Seq::empty());
    }
}

proof fn lemma_klines_acc_line(l: Seq<char>, i: int, cur: Seq<char>)
    requires
        0 <= i < l.len(),
        l.last() == '\n',
        forall|m: int| i <= m < l.len() - 1 ==> l[m] != '\n',
    ensures
        klines_acc(l, i, cur) == seq![cur + l.skip(i)],
    decreases l.len() - i,
{
    if i == l.len() - 1 {
        assert(l[i] == '\n');
        assert(klines_acc(l, i + 1, Seq::empty()) =~= Seq::<Seq<char>>::empty());
        assert(cur.push('\n') =~= cur + l.skip(i));
        assert(seq![cur.push('\n')] + Seq::<Seq<char>>::empty() =~= seq![cur + l.skip(i)]);
    } else {
        assert(l[i] != '\n');
        lemma_klines_acc_line(l, i + 1, cur.push(l[i]));
        assert(cur.push(l[i]) + l.skip(i + 1) =~= cur + l.skip(i));
    }
}

/// A newline-terminated text with no inner newline is one kept line.
pub proof fn lemma_klines_single(l: Seq<char>)
    requires
        l.len() >= 1,
        l.last() == '\n',
        forall|m: int| 0 <= m < l.len() - 1 ==> l[m] != '\n',
    ensures
        klines(l) == seq![l],
{
    lemma_klines_acc_line(l, 0, Seq::empty());
    assert(Seq::<char>::empty() + l.skip(0) =~= l);
}

proof fn lemma_cat_klines_acc(t: Seq<char>, i: int, cur: Seq<char>)
    requires
        0 <= i <= t.len(),
    ensures
        cat_list(klines_acc(t, i, cur)) == cur + t.skip(i),
    decreases t.len() - i,
{
    if i >= t.len() {
        if cur.len() > 0 {
            assert(seq![cur].drop_first() =~= Seq::<Seq<char>>::empty());
            assert(cat_list(seq![cur]) == cur + cat_list(Seq::<Seq<char>>::empty()));
            assert(cur + Seq::<char>::empty() =~= cur + t.skip(i));
        } else {
            assert(cur + t.skip(i) =~= Seq::<char>::empty());
        }
    } else if t[i] == '\n' {
        lemma_cat_klines_acc(t, i + 1, Seq::empty());
        let rest = klines_acc(t, i + 1, Seq::empty());
        let lsall = seq![cur.push('\n')] + rest;
        assert(lsall[0] == cur.push('\n'));
        assert(lsall.drop_first() =~= rest);
        assert(cat_list(lsall) == cur.push('\n') + cat_list(rest));
        assert(cur.push('\n') + (Seq::<char>::empty() + t.skip(i + 1)) =~= cur + t.skip(i));
    } else {
        lemma_cat_klines_acc(t, i + 1, cur.push(t[i]));
        assert(cur.push(t[i]) + t.skip(i + 1) =~= cur + t.skip(i));
    }
}

/// The kept lines of a text concatenate back to the text itself.
pub proof fn lemma_cat_klines(t: Seq<char>)
    ensures
        cat_list(klines(t)) == t,
{
    lemma_cat_klines_acc(t, 0, Seq::empty());
    assert(Seq::<char>::empty() + t.skip(0) =~= t);
}

/// A header name whose rendered form parses back as a header: long
/// enough for its corrected underline to count as one, free of
/// newlines, and not itself a run of dashes.
pub open spec fn wf_name(n: Seq<char>) -> bool {
    &&& 3 <= n.len()
    &&& forall|m: int| 0 <= m < n.len() ==> n[m] != '\n'
    &&& !(forall|m: int| 0 <= m < n.len() ==> n[m] == '-')
}

/// A preamble or body whose rendered form parses back unchanged: it
/// is empty or newline-terminated, and no two consecutive lines of it
/// form a header-plus-underline pair.
pub open spec fn wf_part(t: Seq<char>) -> bool {
    &&& t.len() == 0 || t.last() == '\n'
    &&& forall|j: int|
        0 <= j < klines(t).len() - 1 ==> !(is_name_line(#[trigger] klines(t)[j]) && is_dash_line(
            klines(t)[j + 1],
        ))
}

/// A section whose rendered form parses back unchanged.
pub open spec fn wf_sec(s: SecV) -> bool {
    wf_name(s.name) && wf_part(s.body)
}

/// The kept lines a rendered section contributes: its header line,
/// its corrected underline, and its body's lines.
pub open spec fn sec_lines(s: SecV) -> Seq<Seq<char>> {
    seq![s.name.push('\n'), crate::doc_gen::dashes(s.name.len()).push('\n')] + klines(s.body)
}

/// The kept lines of the rendered sections from index `i` on.
pub open spec fn render_lines(ss: Seq<SecV>, i: int) -> Seq<Seq<char>>
    decreases ss.len() - i,
{
    if i < 0 || i >= ss.len() {
        Seq::empty()
    } else {
        sec_lines(ss[i]) + render_lines(ss, i + 1)
    }
}

proof fn lemma_render_klines(ss: Seq<SecV>, i: int)
    requires
        0 <= i,
        forall|k: int| i <= k < ss.len() ==> wf_sec(#[trigger] ss[k]),
    ensures
        klines(render_secs(ss, i)) == render_lines(ss, i),
    decreases ss.len() - i,
{
    if i >= ss.len() {
        assert(klines(Seq::<char>::empty()) =~= Seq::<Seq<char>>::empty());
    } else {
        assert(wf_sec(ss[i]));
        let n = ss[i].name;
        let body = ss[i].body;
        let rest = render_secs(ss, i + 1);
        let name_line = n.push('\n');
        let dash_line = crate::doc_gen::dashes(n.len()).push('\n');
        assert(render_secs(ss, i) =~= name_line + (dash_line + (body + rest)));
        lemma_render_klines(ss, i + 1);
        lemma_klines_concat(body, rest);
        lemma_klines_concat(dash_line, body + rest);
        lemma_klines_concat(name_line, dash_line + (body + rest));
        lemma_klines_single(name_line);
        assert(forall|m: int| 0 <= m < dash_line.len() - 1 ==> dash_line[m] == '-');
        lemma_klines_single(dash_line);
        assert(seq![name_line] + (seq![dash_line] + (klines(body) + render_lines(ss, i + 1)))
            =~= sec_lines(ss[i]) + render_lines(ss, i + 1));
    }
}

/// Text joined to the part the scanner is filling: the last open
/// section's body, or the preamble when no section is open.
pub open spec fn append_part(st: DocV, t: Seq<char>) -> DocV {
    if st.sections.len() == 0 {
        DocV { preamble: st.preamble + t, sections: st.sections }
    } else {
        DocV {
            preamble: st.preamble,
            sections: st.sections.update(
                st.sections.len() - 1,
                SecV { name: st.sections.last().name, body: st.sections.last().body + t },
            ),
        }
    }
}

proof fn lemma_scan_append_run(ls: Seq<Seq<char>>, i: int, k: int, st: DocV)
    requires
        0 <= i <= k <= ls.len(),
        forall|j: int|
            i <= j < k ==> !(j + 1 < ls.len() && is_name_line(#[trigger] ls[j]) && is_dash_line(
                ls[j + 1],
            )),
    ensures
        doc_scan(ls, i, st) == doc_scan(ls, k, append_part(st, cat_list(ls.subrange(i, k)))),
    decreases k - i,
{
    if i == k {
        assert(ls.subrange(i, k) =~= Seq::<Seq<char>>::empty());
        assert(append_part(st, Seq::<char>::empty()) =~~= st);
    } else {
        let st2 = append_part(st, ls[i]);
        assert(doc_scan(ls, i, st) == doc_scan(ls, i + 1, st2));
        lemma_scan_append_run(ls, i + 1, k, st2);
        let tail = cat_list(ls.subrange(i + 1, k));
        let whole = ls.subrange(i, k);
        assert(whole[0] == ls[i]);
        assert(whole.drop_first() =~= ls.subrange(i + 1, k));
        assert(cat_list(whole) == ls[i] + tail);
        assert(append_part(st2, tail) =~~= append_part(st, ls[i] + tail));
    }
}

proof fn lemma_scan_sections(ls: Seq<Seq<char>>, pos: int, ss: Seq<SecV>, k: int, p: Seq<char>)
    requires
        0 <= pos <= ls.len(),
        0 <= k <= ss.len(),
        ls.skip(pos) == render_lines(ss, k),
        (forall|m: int| k <= m < ss.len() ==> wf_sec(#[trigger] ss[m])),
    ensures
        (doc_scan(ls, pos, DocV { preamble: p, sections: ss.take(k) }) == DocV {
            preamble: p,
            sections: ss,
        }),
    decreases ss.len() - k,
{
    if k >= ss.len() {
        assert(render_lines(ss, k) =~= Seq::<Seq<char>>::empty());
        assert(pos == ls.len());
        assert(ss.take(k) =~= ss);
    } else {
        assert(wf_sec(ss[k]));
        let n = ss[k].name;
        let body = ss[k].body;
        let bl = klines(body);
        let nl = bl.len() as int;
        let sl = sec_lines(ss[k]);
        let rest = render_lines(ss, k + 1);
        assert(sl.len() == 2 + nl);
        assert(ls.skip(pos).len() == sl.len() + rest.len());
        assert(pos + 2 + nl <= ls.len());
        assert forall|u: int| 0 <= u < sl.len() implies ls[pos + u] == sl[u] by {
            assert(ls.skip(pos)[u] == ls[pos + u]);
            assert(render_lines(ss, k)[u] == sl[u]);
        }
        let name_line = n.push('\n');
        let dash_line = crate::doc_gen::dashes(n.len()).push('\n');
        assert(ls[pos + 0] == sl[0]);
        assert(ls[pos + 1] == sl[1]);
        assert(sl[0] == name_line);
        assert(sl[1] == dash_line);
        assert(ls[pos] == name_line);
        assert(is_name_line(name_line));
        assert(forall|m: int| 0 <= m < dash_line.len() - 1 ==> dash_line[m] == '-');
        assert(is_dash_line(dash_line));
        let st0 = DocV { preamble: p, sections: ss.take(k) };
        let sth = DocV {
            preamble: p,
            sections: ss.take(k).push(SecV { name: ls[pos].drop_last(), body: Seq::empty() }),
        };
        assert(doc_scan(ls, pos, st0) == doc_scan(ls, pos + 2, sth));
        let st1 = DocV {
            preamble: p,
            sections: ss.take(k).push(SecV { name: n, body: Seq::empty() }),
        };
        assert(name_line.drop_last() =~= n);
        assert(sth =~~= st1);
        assert forall|j: int| pos + 2 <= j < pos + 2 + nl implies !(j + 1 < ls.len()
            && is_name_line(#[trigger] ls[j]) && is_dash_line(ls[j + 1])) by {
            let u = j - (pos + 2);
            assert(ls[pos + (u + 2)] == sl[u + 2]);
            assert(ls[j] == sl[u + 2]);
            assert(sl[u + 2] == bl[u]);
            if j + 1 < pos + 2 + nl {
                assert(ls[pos + (u + 3)] == sl[u + 3]);
                assert(ls[j + 1] == sl[u + 3]);
                assert(sl[u + 3] == bl[u + 1]);
                assert(!(is_name_line(bl[u]) && is_dash_line(bl[u + 1])));
            } else if j + 1 < ls.len() {
                assert(ls.skip(pos)[2 + nl] == ls[pos + 2 + nl]);
                assert(rest.len() > 0);
                if k + 1 >= ss.len() {
                    assert(render_lines(ss, k + 1) =~= Seq::<Seq<char>>::empty());
                    assert(false);
                }
                let n2 = ss[k + 1].name;
                assert(wf_sec(ss[k + 1]));
                assert(rest[0] == sec_lines(ss[k + 1])[0]);
                assert(ls[j + 1] == n2.push('\n'));
                if is_dash_line(n2.push('\n')) {
                    assert forall|m: int| 0 <= m < n2.len() implies n2[m] == '-' by {
                        assert(n2.push('\n')[m] == n2[m]);
                    }
                    assert(false);
                }
            }
        }
        lemma_scan_append_run(ls, pos + 2, pos + 2 + nl, st1);
        assert forall|w: int| 0 <= w < nl implies ls.subrange(pos + 2, pos + 2 + nl)[w]
            == bl[w] by {
            assert(ls[pos + (w + 2)] == sl[w + 2]);
        }
        assert(ls.subrange(pos + 2, pos + 2 + nl) =~= bl);
        lemma_cat_klines(body);
        let st2 = append_part(st1, cat_list(ls.subrange(pos + 2, pos + 2 + nl)));
        assert(st2.sections =~~= ss.take(k).push(SecV { name: n, body: Seq::empty() }).update(
            k,
            SecV { name: n, body: Seq::empty() + body },
        ));
        assert(Seq::<char>::empty() + body =~= body);
        assert(SecV { name: n, body: body } =~~= ss[k]);
        assert(st2.sections =~~= ss.take(k + 1));
        let st3 = DocV { preamble: p, sections: ss.take(k + 1) };
        assert(st2 =~~= st3);
        assert forall|w: int| 0 <= w < rest.len() implies ls.skip(pos + 2 + nl)[w]
            == rest[w] by {
            assert(ls.skip(pos)[2 + nl + w] == ls[pos + 2 + nl + w]);
            assert(render_lines(ss, k)[2 + nl + w] == rest[w]);
            assert(ls.skip(pos + 2 + nl)[w] == ls[pos + 2 + nl + w]);
        }
        assert(ls.skip(pos + 2 + nl) =~= render_lines(ss, k + 1));
        lemma_scan_sections(ls, pos + 2 + nl, ss, k + 1, p);
    }
}

/// Law (parse inverts render): a preamble and well-formed sections,
/// rendered and parsed again, come back exactly.
pub proof fn lemma_parse_render(p: Seq<char>, ss: Seq<SecV>)
    requires
        wf_part(p),
        (forall|k: int| 0 <= k < ss.len() ==> wf_sec(#[trigger] ss[k])),
    ensures
        (spec_parse_doc(p + render_secs(ss, 0)) == DocV { preamble: p, sections: ss }),
{
    let out = p + render_secs(ss, 0);
    lemma_render_klines(ss, 0);
    lemma_klines_concat(p, render_secs(ss, 0));
    let ls = klines(out);
    let np = klines(p).len() as int;
    assert(ls =~= klines(p) + render_lines(ss, 0));
    assert forall|j: int| 0 <= j < np implies !(j + 1 < ls.len() && is_name_line(
        #[trigger] ls[j],
    ) && is_dash_line(ls[j + 1])) by {
        assert(ls[j] == klines(p)[j]);
        if j + 1 < np {
            assert(ls[j + 1] == klines(p)[j + 1]);
            assert(!(is_name_line(klines(p)[j]) && is_dash_line(klines(p)[j + 1])));
        } else if j + 1 < ls.len() {
            assert(ls[j + 1] == render_lines(ss, 0)[0]);
            if ss.len() == 0 {
                assert(render_lines(ss, 0) =~= Seq::<Seq<char>>::empty());
                assert(false);
            }
            let n0 = ss[0].name;
            assert(wf_sec(ss[0]));
            assert(render_lines(ss, 0)[0] == sec_lines(ss[0])[0]);
            assert(ls[j + 1] == n0.push('\n'));
            if is_dash_line(n0.push('\n')) {
                assert forall|m: int| 0 <= m < n0.len() implies n0[m] == '-' by {
                    assert(n0.push('\n')[m] == n0[m]);
                }
                assert(false);
            }
        }
    }
    let init = DocV { preamble: Seq::empty(), sections: Seq::empty() };
    lemma_scan_append_run(ls, 0, np, init);
    assert(ls.subrange(0, np) =~= klines(p));
    lemma_cat_klines(p);
    let st1 = append_part(init, cat_list(ls.subrange(0, np)));
    assert(st1 =~~= DocV { preamble: p, sections: Seq::empty() });
    assert(ls.skip(np) =~= render_lines(ss, 0));
    assert(ss.take(0) =~= Seq::<SecV>::empty());
    lemma_scan_sections(ls, np, ss, 0, p);
}

proof fn lemma_secs_insert_split(ss: Seq<SecV>, s: SecV, idx: int)
    requires
        0 <= idx <= ss.len(),
        forall|m: int| 0 <= m < idx ==> lex_lt(ss[m].name, s.name),
    ensures
        (idx < ss.len() && ss[idx].name == s.name) ==> secs_insert(ss, s) == ss.update(idx, s),
        (idx == ss.len() || (ss[idx].name != s.name && !lex_lt(ss[idx].name, s.name)))
            ==> secs_insert(ss, s) == ss.insert(idx, s),
    decreases ss.len(),
{
    if idx == 0 {
        if ss.len() == 0 {
            assert(secs_insert(ss, s) =~= ss.insert(0, s));
        } else {
            if ss[0].name == s.name {
                assert(seq![s] + ss.drop_first() =~= ss.update(0, s));
            } else if !lex_lt(ss[0].name, s.name) {
                crate::text::lemma_lex_le_total(s.name, ss[0].name);
                assert(lex_lt(s.name, ss[0].name));
                assert(seq![s] + ss =~= ss.insert(0, s));
            }
        }
    } else {
        assert(lex_lt(ss[0].name, s.name));
        if lex_lt(s.name, ss[0].name) {
            crate::text::lemma_lex_le_antisym(s.name, ss[0].name);
            assert(false);
        }
        assert forall|m: int| 0 <= m < idx - 1 implies lex_lt(ss.drop_first()[m].name, s.name) by {
            assert(ss.drop_first()[m] == ss[m + 1]);
        }
        lemma_secs_insert_split(ss.drop_first(), s, idx - 1);
        if idx < ss.len() && ss[idx].name == s.name {
            assert(ss.drop_first()[idx - 1] == ss[idx]);
            assert(seq![ss[0]] + ss.drop_first().update(idx - 1, s) =~= ss.update(idx, s));
        } else if idx == ss.len() || (ss[idx].name != s.name && !lex_lt(ss[idx].name, s.name)) {
            if idx < ss.len() {
                assert(ss.drop_first()[idx - 1] == ss[idx]);
            }
            assert(seq![ss[0]] + ss.drop_first().insert(idx - 1, s) =~= ss.insert(idx, s));
        }
    }
}

/// A section list in strictly ascending header order (so with no
/// duplicate header).
pub open spec fn secs_sorted(ss: Seq<SecV>) -> bool {
    forall|a: int, b: int| 0 <= a < b < ss.len() ==> lex_lt(ss[a].name, ss[b].name)
}

proof fn secs_pos(ss: Seq<SecV>, name: Seq<char>) -> (idx: int)
    ensures
        0 <= idx <= ss.len(),
        forall|m: int| 0 <= m < idx ==> lex_lt(ss[m].name, name),
        idx < ss.len() ==> !lex_lt(ss[idx as int].name, name),
    decreases ss.len(),
{
    if ss.len() == 0 {
        0
    } else if lex_lt(ss[0].name, name) {
        let t = secs_pos(ss.drop_first(), name);
        assert forall|m: int| 0 <= m < t + 1 implies lex_lt(ss[m].name, name) by {
            if m > 0 {
                assert(ss.drop_first()[m - 1] == ss[m]);
            }
        }
        if t + 1 < ss.len() {
            assert(ss.drop_first()[t] == ss[t + 1]);
        }
        t + 1
    } else {
        0
    }
}

proof fn lemma_secs_insert_sorted(ss: Seq<SecV>, s: SecV)
    requires
        secs_sorted(ss),
    ensures
        secs_sorted(secs_insert(ss, s)),
{
    let idx = secs_pos(ss, s.name);
    lemma_secs_insert_split(ss, s, idx);
    if idx < ss.len() && ss[idx].name == s.name {
        let r = ss.update(idx, s);
        assert forall|a: int, b: int| 0 <= a < b < r.len() implies lex_lt(r[a].name, r[b].name) by {
            if a == idx {
                assert(lex_lt(ss[a].name, ss[b].name));
            } else if b == idx {
                assert(lex_lt(ss[a].name, ss[b].name));
            }
        }
    } else {
        if idx < ss.len() {
            crate::text::lemma_lex_le_total(s.name, ss[idx].name);
            assert(lex_lt(s.name, ss[idx].name));
        }
        let r = ss.insert(idx, s);
        assert(r =~= ss.take(idx) + seq![s] + ss.skip(idx));
        assert forall|a: int, b: int| 0 <= a < b < r.len() implies lex_lt(r[a].name, r[b].name) by {
            if a < idx {
                assert(r[a] == ss[a]);
            } else if a == idx {
                assert(r[a] == s);
            } else {
                assert(r[a] == ss[a - 1]);
            }
            if b < idx {
                assert(r[b] == ss[b]);
            } else if b == idx {
                assert(r[b] == s);
            } else {
                assert(r[b] == ss[b - 1]);
            }
            if b == idx {
                assert(lex_lt(r[a].name, s.name));
            } else if a == idx {
                assert(b > idx);
                if b - 1 == idx {
                    assert(lex_lt(s.name, ss[idx].name));
                } else {
                    assert(lex_lt(ss[idx].name, ss[b - 1].name));
                    crate::text::lemma_lex_lt_trans(s.name, ss[idx].name, ss[b - 1].name);
                }
            } else if a < idx && b > idx {
                if b - 1 == a {
                    assert(a == idx - 1 && b == idx + 1);
                    assert(lex_lt(ss[a].name, s.name));
                    crate::text::lemma_lex_lt_trans(ss[a].name, s.name, ss[idx].name);
                } else {
                    assert(lex_lt(ss[a].name, ss[b - 1].name));
                }
            }
        }
    }
}

proof fn lemma_sort_secs_sorted_from(ss: Seq<SecV>, i: int, acc: Seq<SecV>)
    requires
        secs_sorted(acc),
    ensures
        secs_sorted(sort_secs(ss, i, acc)),
    decreases ss.len() - i,
{
    if !(i < 0 || i >= ss.len()) {
        lemma_secs_insert_sorted(acc, ss[i]);
        lemma_sort_secs_sorted_from(ss, i + 1, secs_insert(acc, ss[i]));
    }
}

/// Law: the re-ordering pass always yields a strictly ascending
/// section list — duplicate headers are resolved, every header
/// appears once.
pub proof fn lemma_sort_secs_sorted(ss: Seq<SecV>)
    ensures
        secs_sorted(sort_secs(ss, 0, Seq::empty())),
{
    lemma_sort_secs_sorted_from(ss, 0, Seq::empty());
}

proof fn lemma_sort_of_sorted_from(ss: Seq<SecV>, i: int)
    requires
        secs_sorted(ss),
        0 <= i <= ss.len(),
    ensures
        sort_secs(ss, i, ss.take(i)) == ss,
    decreases ss.len() - i,
{
    if i >= ss.len() {
        assert(ss.take(i) =~= ss);
    } else {
        lemma_secs_insert_split(ss.take(i), ss[i], i);
        assert(ss.take(i).insert(i, ss[i]) =~= ss.take(i + 1));
        lemma_sort_of_sorted_from(ss, i + 1);
        assert(sort_secs(ss, i, ss.take(i)) == sort_secs(ss, i + 1, ss.take(i + 1)));
    }
}

/// Law (idempotence of the re-ordering pass): sorting an already
/// sorted section list returns it unchanged, so normalizing a second
/// time re-orders nothing.
pub proof fn lemma_sort_idempotent(ss: Seq<SecV>)
    ensures
        sort_secs(sort_secs(ss, 0, Seq::empty()), 0, Seq::empty()) == sort_secs(
            ss,
            0,
            Seq::empty(),
        ),
{
    lemma_sort_secs_sorted(ss);
    let r = sort_secs(ss, 0, Seq::empty());
    assert(r.take(0) =~= Seq::<SecV>::empty());
    lemma_sort_of_sorted_from(r, 0);
}

proof fn lemma_secs_insert_elems(ss: Seq<SecV>, s: SecV)
    ensures
        forall|k: int|
            0 <= k < secs_insert(ss, s).len() ==> secs_insert(ss, s)[k] == s || ss.contains(
                #[trigger] secs_insert(ss, s)[k],
            ),
    decreases ss.len(),
{
    let r = secs_insert(ss, s);
    if ss.len() == 0 {
    } else if s.name == ss[0].name {
        assert forall|k: int| 0 <= k < r.len() implies r[k] == s || ss.contains(#[trigger] r[k]) by {
            if k > 0 {
                assert(r[k] == ss[k]);
            }
        }
    } else if lex_lt(s.name, ss[0].name) {
        assert forall|k: int| 0 <= k < r.len() implies r[k] == s || ss.contains(#[trigger] r[k]) by {
            if k > 0 {
                assert(r[k] == ss[k - 1]);
            }
        }
    } else {
        lemma_secs_insert_elems(ss.drop_first(), s);
        let rt = secs_insert(ss.drop_first(), s);
        assert forall|k: int| 0 <= k < r.len() implies r[k] == s || ss.contains(#[trigger] r[k]) by {
            if k == 0 {
                assert(ss.contains(ss[0]));
            } else {
                assert(r[k] == rt[k - 1]);
                if rt[k - 1] != s {
                    let m = choose|m: int|
                        0 <= m < ss.drop_first().len() && ss.drop_first()[m] == rt[k - 1];
                    assert(ss[m + 1] == rt[k - 1]);
                }
            }
        }
    }
}

proof fn lemma_sort_elems(ss: Seq<SecV>, i: int, acc: Seq<SecV>)
    requires
        forall|k: int| 0 <= k < acc.len() ==> ss.contains(#[trigger] acc[k]),
    ensures
        forall|k: int|
            0 <= k < sort_secs(ss, i, acc).len() ==> ss.contains(
                #[trigger] sort_secs(ss, i, acc)[k],
            ),
    decreases ss.len() - i,
{
    if !(i < 0 || i >= ss.len()) {
        lemma_secs_insert_elems(acc, ss[i]);
        let acc2 = secs_insert(acc, ss[i]);
        assert forall|k: int| 0 <= k < acc2.len() implies ss.contains(#[trigger] acc2[k]) by {
            if acc2[k] == ss[i] {
                assert(ss.contains(ss[i]));
            } else {
                let m = choose|m: int| 0 <= m < acc.len() && acc[m] == acc2[k];
                assert(ss.contains(acc[m]));
            }
        }
        lemma_sort_elems(ss, i + 1, acc2);
        assert(sort_secs(ss, i, acc) == sort_secs(ss, i + 1, acc2));
    }
}

/// Law: normalization is idempotent, byte for byte, on every file
/// whose parse is well formed: preamble and bodies newline-terminated
/// (or empty) with no stray header-plus-underline pair inside them,
/// and headers of at least underline length that are neither newlines
/// nor dash runs. A second normalization returns its input unchanged.
pub proof fn lemma_normalize_idempotent(s: Seq<char>)
    requires
        wf_part(spec_parse_doc(s).preamble),
        (forall|k: int|
            0 <= k < spec_parse_doc(s).sections.len() ==> wf_sec(
                #[trigger] spec_parse_doc(s).sections[k],
            )),
    ensures
        spec_normalize(spec_normalize(s)) == spec_normalize(s),
{
    let d = spec_parse_doc(s);
    let sorted = sort_secs(d.sections, 0, Seq::empty());
    lemma_sort_elems(d.sections, 0, Seq::empty());
    assert forall|k: int| 0 <= k < sorted.len() implies wf_sec(#[trigger] sorted[k]) by {
        assert(d.sections.contains(sorted[k]));
        let m = choose|m: int| 0 <= m < d.sections.len() && d.sections[m] == sorted[k];
        assert(wf_sec(d.sections[m]));
    }
    lemma_parse_render(d.preamble, sorted);
    lemma_sort_idempotent(d.sections);
}

fn secs_find_pos(ss: &Vec<DocSection>, kn: &Vec<char>) -> (idx: usize)
    ensures
        idx <= ss.len(),
        forall|m: int| 0 <= m < idx ==> lex_lt(ss.deep_view()[m].name, kn@),
        idx < ss.len() ==> !lex_lt(ss.deep_view()[idx as int].name, kn@),
{
    let mut idx: usize = 0;
    while idx < ss.len()
        invariant
            0 <= idx <= ss.len(),
            forall|m: int| 0 <= m < idx ==> lex_lt(ss.deep_view()[m].name, kn@),
        decreases ss.len() - idx,
    {
        let ke = chars_of(ss[idx].header_name.as_str());
        proof {
            assert(ss@[idx as int]@ == ss.deep_view()[idx as int]);
        }
        if !lex_lt_x(&ke, kn) {
            return idx;
        }
        idx = idx + 1;
    }
    idx
}

fn secs_insert_x(ss: &mut Vec<DocSection>, s: DocSection)
    ensures
        final(ss).deep_view() == secs_insert(old(ss).deep_view(), s@),
{
    let ghost sv = s@;
    let ghost old_ss = ss.deep_view();
    let kn = chars_of(s.header_name.as_str());
    let idx = secs_find_pos(ss, &kn);
    proof {
        lemma_secs_insert_split(old_ss, sv, idx as int);
    }
    if idx < ss.len() {
        let ke = chars_of(ss[idx].header_name.as_str());
        proof {
            assert(ss@[idx as int]@ == old_ss[idx as int]);
        }
        if vec_eq(&ke, &kn) {
            let _old_entry = ss.remove(idx);
            ss.insert(idx, s);
            proof {
                assert(ss.deep_view() =~~= old_ss.update(idx as int, sv));
            }
            return ;
        }
    }
    ss.insert(idx, s);
    proof {
        assert(ss.deep_view() =~~= old_ss.insert(idx as int, sv));
    }
}

/// Normalizes one documentation file's text: the preamble is kept,
/// sections are re-ordered by ascending header name with duplicates
/// resolved last-write-wins, and each header is re-underlined with
/// exactly as many dashes as the header has characters.
pub fn sort_content(text: &str) -> (r: String)
    ensures
        r@ == spec_normalize(text@),
{
    let v = chars_of(text);
    let lines = klines_x(&v);
    let mut preamble = String::new();
    let mut sections: Vec<DocSection> = Vec::new();
    let mut i: usize = 0;
    proof {
        assert(sections.deep_view() =~~= Seq::<SecV>::empty());
    }
    while i < lines.len()
        invariant
            0 <= i <= lines.len(),
            lines.deep_view() == klines(v@),
            spec_parse_doc(v@) == doc_scan(
                lines.deep_view(),
                i as int,
                DocV { preamble: preamble@, sections: sections.deep_view() },
            ),
        decreases lines.len() - i,
    {
        proof {
            assert(lines@[i as int].deep_view() =~= lines@[i as int]@);
            assert(lines.deep_view()[i as int] == lines@[i as int]@);
            if i + 1 < lines.len() {
                assert(lines@[i + 1 as int].deep_view() =~= lines@[i + 1 as int]@);
                assert(lines.deep_view()[i + 1 as int] == lines@[i + 1 as int]@);
            }
        }
        if i + 1 < lines.len() && is_name_line_x(&lines[i]) && is_dash_line_x(&lines[i + 1]) {
            let name = subvec(&lines[i], 0, lines[i].len() - 1);
            proof {
                assert(name@ =~= lines.deep_view()[i as int].drop_last());
            }
            let ghost old_secs = sections.deep_view();
            sections.push(DocSection { header_name: string_of(&name), body_text: String::new() });
            proof {
                assert(sections.deep_view() =~~= old_secs.push(
                    SecV { name: lines.deep_view()[i as int].drop_last(), body: Seq::empty() },
                ));
            }
            i = i + 2;
        } else {
            let line_str = string_of(&lines[i]);
            if sections.len() == 0 {
                preamble.append(line_str.as_str());
            } else {
                let n = sections.len();
                let ghost old_secs = sections.deep_view();
                let mut last = sections.remove(n - 1);
                last.body_text.append(line_str.as_str());
                sections.push(last);
                proof {
                    assert(sections.deep_view() =~~= old_secs.update(
                        n - 1 as int,
                        SecV {
                            name: old_secs.last().name,
                            body: old_secs.last().body + lines.deep_view()[i as int],
                        },
                    ));
                }
            }
            i = i + 1;
        }
    }
    let ghost parsed = spec_parse_doc(v@);
    let mut sorted: Vec<DocSection> = Vec::new();
    let mut j: usize = 0;
    proof {
        assert(sorted.deep_view() =~~= Seq::<SecV>::empty());
    }
    while j < sections.len()
        invariant
            0 <= j <= sections.len(),
            sections.deep_view() == parsed.sections,
            sort_secs(parsed.sections, 0, Seq::empty()) == sort_secs(
                parsed.sections,
                j as int,
                sorted.deep_view(),
            ),
        decreases sections.len() - j,
    {
        proof {
            assert(sections@[j as int]@ == sections.deep_view()[j as int]);
        }
        let s = DocSection {
            header_name: sections[j].header_name.clone(),
            body_text: sections[j].body_text.clone(),
        };
        proof {
            assert(s@ =~~= sections.deep_view()[j as int]);
        }
        secs_insert_x(&mut sorted, s);
        j = j + 1;
    }
    let ghost sorted_v = sort_secs(parsed.sections, 0, Seq::empty());
    let mut out = preamble;
    let ghost head = out@;
    let mut k: usize = 0;
    while k < sorted.len()
        invariant
            0 <= k <= sorted.len(),
            sorted.deep_view() == sorted_v,
            out@ + render_secs(sorted_v, k as int) =~= head + render_secs(sorted_v, 0),
        decreases sorted.len() - k,
    {
        proof {
            assert(sorted@[k as int]@ == sorted_v[k as int]);
        }
        let sign = get_func_sign(sorted[k].header_name.as_str());
        out.append(sign.as_str());
        out.append("\n");
        out.append(sorted[k].body_text.as_str());
        proof {
            reveal_strlit("\n");
            assert("\n"@ =~= seq!['\n']);
            assert(out@ + render_secs(sorted_v, k + 1 as int) =~= head + render_secs(
                sorted_v,
                0,
            ));
        }
        k = k + 1;
    }
    proof {
        assert(out@ =~= head + render_secs(sorted_v, 0));
        assert(out@ =~= spec_normalize(text@));
    }
    out
}

} // verus!
