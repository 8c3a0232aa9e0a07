//! Documentation reconciliation: detecting documented entries by their
//! header-plus-underline marker, rendering stub blocks for undocumented
//! entries, and selecting the output behaviour.

use vstd::prelude::*;

verus! {

use vstd::string::StrSliceExecFns;
use vstd::string::StringExecFns;
use crate::text::{contains_seq, contains_x, chars_of, string_of, ws_run, ws_run_x, not_char_run,
    not_char_run_x, lemma_ws_run_bound, lemma_not_char_run_bound, subvec};
use crate::source_parser::{ScriptFunction, FuncV, ParamV};

/// `n` dash characters.
pub open spec fn dashes(n: nat) -> Seq<char> {
    Seq::new(n, |i: int| '-')
}

/// The marker by which an entry counts as documented: its public name
/// on one line, underlined by exactly as many dashes as the name has
/// characters.
pub open spec fn sign_of(name: Seq<char>) -> Seq<char> {
    name + seq!['\n'] + dashes(name.len())
}

/// The documentation marker of a public name: the name, a newline,
/// and one dash per character of the name.
pub fn get_func_sign(name: &str) -> (r: String)
    ensures
        r@ == sign_of(name@),
{
    let v = chars_of(name);
    let mut out = string_of(&v);
    out.append("\n");
    proof {
        reveal_strlit("\n");
        assert(out@ =~= name@ + seq!['\n']);
    }
    let mut k: usize = 0;
    while k < v.len()
        invariant
            0 <= k <= v.len(),
            v@ == name@,
            out@ =~= name@ + seq!['\n'] + dashes(k as nat),
        decreases v.len() - k,
    {
        out.append("-");
        proof {
            reveal_strlit("-");
            assert(out@ =~= name@ + seq!['\n'] + dashes((k + 1) as nat));
        }
        k = k + 1;
    }
    proof {
        assert(out@ =~= sign_of(name@));
    }
    out
}

/// One rendered argument-table row.
pub open spec fn param_row(p: ParamV) -> Seq<char> {
    "    \""@ + p.name + "\", \""@ + p.ty + "\", \"description\"\n"@
}

/// The rendered argument-table rows from index `i` on.
pub open spec fn param_rows(ps: Seq<ParamV>, i: int) -> Seq<char>
    decreases ps.len() - i,
{
    if i < 0 || i >= ps.len() {
        Seq::empty()
    } else {
        param_row(ps[i]) + param_rows(ps, i + 1)
    }
}

/// The parameter names joined after the first with a comma separator.
pub open spec fn tail_join(ps: Seq<ParamV>, i: int) -> Seq<char>
    decreases ps.len() - i,
{
    if i < 0 || i >= ps.len() {
        Seq::empty()
    } else {
        ", "@ + ps[i].name + tail_join(ps, i + 1)
    }
}

/// The comma-joined parameter names of the example invocation.
pub open spec fn joined_names(ps: Seq<ParamV>) -> Seq<char> {
    if ps.len() == 0 {
        Seq::empty()
    } else {
        ps[0].name + tail_join(ps, 1)
    }
}

/// One rendered returns line.
pub open spec fn returns_line(r: Seq<char>) -> Seq<char> {
    "| **Returns** ``"@ + r + "``\n"@
}

/// The rendered returns lines from index `i` on.
pub open spec fn returns_lines(rs: Seq<Seq<char>>, i: int) -> Seq<char>
    decreases rs.len() - i,
{
    if i < 0 || i >= rs.len() {
        Seq::empty()
    } else {
        returns_line(rs[i]) + returns_lines(rs, i + 1)
    }
}

/// The full stub block rendered for one undocumented entry: marker,
/// argument table, the called-on annotation for methods, one returns
/// line per tag, a placeholder description and an example invocation.
pub open spec fn spec_template(f: FuncV, is_method: bool) -> Seq<char> {
    let head = "\n"@ + sign_of(f.script_name)
        + "\n\n.. csv-table:: **Arguments**\n    :header: \"Argument\", \"Type\", \"Description\"\n    :align: left\n\n"@;
    let mid = if is_method {
        "\n| **Called on** ``<some object>``\n"@
    } else {
        "\n"@
    };
    let desc = if is_method {
        "\nthis is the Description of the method. Explain the usage in detail here\n"@
    } else {
        "\nthis is the Description of the function. Explain the usage in detail here\n"@
    };
    let callee = if is_method {
        "<some object> "@ + f.script_name
    } else {
        f.script_name
    };
    let example =
        "\n**Example**\n\n.. code-block:: cpp\n    \n    // stub example for dev.\n    // dev. should remove this comment after he is done changing it\n    "@
        + callee + "("@ + joined_names(f.params) + ");\n\n"@;
    head + param_rows(f.params, 0) + mid + returns_lines(f.returns, 0) + desc + example
}

/// Renders the stub block for one entry.
pub fn gen_template(func: &ScriptFunction, is_method: bool) -> (r: String)
    ensures
        r@ == spec_template(func@, is_method),
{
    let ghost fv = func@;
    let mut out = String::new();
    out.append("\n");
    let sign = get_func_sign(func.script_name.as_str());
    out.append(sign.as_str());
    out.append(
        "\n\n.. csv-table:: **Arguments**\n    :header: \"Argument\", \"Type\", \"Description\"\n    :align: left\n\n",
    );
    let ghost head = out@;
    let mut i: usize = 0;
    while i < func.params.len()
        invariant
            0 <= i <= func.params.len(),
            fv == func@,
            out@ + param_rows(fv.params, i as int) =~= head + param_rows(fv.params, 0),
        decreases func.params.len() - i,
    {
        out.append("    \"");
        out.append(func.params[i].param_name.as_str());
        out.append("\", \"");
        out.append(func.params[i].param_type.as_str());
        out.append("\", \"description\"\n");
        proof {
            assert(fv.params[i as int] == func.params@[i as int]@);
            assert(out@ + param_rows(fv.params, i + 1 as int) =~= head + param_rows(
                fv.params,
                0,
            ));
        }
        i = i + 1;
    }
    if is_method {
        out.append("\n| **Called on** ``<some object>``\n");
    } else {
        out.append("\n");
    }
    let ghost upto_mid = out@;
    let mut j: usize = 0;
    while j < func.returns.len()
        invariant
            0 <= j <= func.returns.len(),
            fv == func@,
            out@ + returns_lines(fv.returns, j as int) =~= upto_mid + returns_lines(
                fv.returns,
                0,
            ),
        decreases func.returns.len() - j,
    {
        out.append("| **Returns** ``");
        out.append(func.returns[j].as_str());
        out.append("``\n");
        proof {
            assert(fv.returns[j as int] == func.returns@[j as int]@);
            assert(out@ + returns_lines(fv.returns, j + 1 as int) =~= upto_mid + returns_lines(
                fv.returns,
                0,
            ));
        }
        j = j + 1;
    }
    if is_method {
        out.append("\nthis is the Description of the method. Explain the usage in detail here\n");
    } else {
        out.append(
            "\nthis is the Description of the function. Explain the usage in detail here\n",
        );
    }
    out.append(
        "\n**Example**\n\n.. code-block:: cpp\n    \n    // stub example for dev.\n    // dev. should remove this comment after he is done changing it\n    ",
    );
    if is_method {
        out.append("<some object> ");
    }
    out.append(func.script_name.as_str());
    out.append("(");
    let ghost upto_call = out@;
    let mut k: usize = 0;
    while k < func.params.len()
        invariant
            0 <= k <= func.params.len(),
            fv == func@,
            k == 0 ==> out@ =~= upto_call,
            k > 0 ==> out@ + tail_join(fv.params, k as int) =~= upto_call + joined_names(
                fv.params,
            ),
            upto_call + joined_names(fv.params) =~= upto_call + joined_names(fv.params),
        decreases func.params.len() - k,
    {
        if k > 0 {
            out.append(", ");
        }
        out.append(func.params[k].param_name.as_str());
        proof {
            assert(fv.params[k as int] == func.params@[k as int]@);
            if k == 0 {
                assert(out@ + tail_join(fv.params, 1) =~= upto_call + joined_names(fv.params));
            } else {
                assert(out@ + tail_join(fv.params, k + 1 as int) =~= upto_call + joined_names(
                    fv.params,
                ));
            }
        }
        k = k + 1;
    }
    proof {
        if fv.params.len() == 0 {
            assert(out@ =~= upto_call + joined_names(fv.params));
        }
    }
    out.append(");\n\n");
    proof {
        assert(out@ =~= spec_template(fv, is_method));
    }
    out
}

/// Everything the reconciliation of one category produces in lenient
/// mode: the concatenated stub blocks of the undocumented entries and
/// their public names, in registry order.
#[derive(Debug)]
pub struct ReconcileOutcome {
    pub stubs: String,
    pub missing: Vec<String>,
}

/// Mathematical model of a [`ReconcileOutcome`].
#[verifier::ext_equal]
pub ghost struct RecV {
    pub stubs: Seq<char>,
    pub missing: Seq<Seq<char>>,
}

impl View for ReconcileOutcome {
    type V = RecV;

    open spec fn view(&self) -> RecV {
        RecV { stubs: self.stubs@, missing: self.missing.deep_view() }
    }
}

/// The strict-mode error: the first undocumented entry aborts the
/// run, naming the entry and its category.
#[derive(Debug)]
pub struct MissingDoc {
    pub script_name: String,
    pub category: String,
}

impl MissingDoc {
    /// The error text the run reports.
    pub fn message(&self) -> (r: String)
        ensures
            r@ == "No documentation found for "@ + self.script_name@ + " in "@ + self.category@
                + ".rst"@,
    {
        let mut out = String::from_str("No documentation found for ");
        out.append(self.script_name.as_str());
        out.append(" in ");
        out.append(self.category.as_str());
        out.append(".rst");
        out
    }
}

/// Reconciliation of one category's entries against the existing
/// documentation text, from index `i`: a documented entry (its marker
/// contained in the text) is passed over; an undocumented one aborts
/// in strict mode and otherwise appends its stub and is recorded as
/// missing.
pub open spec fn spec_reconcile(
    entries: Seq<FuncV>,
    content: Seq<char>,
    is_method: bool,
    fail_missing: bool,
    i: int,
    acc: RecV,
) -> Result<RecV, Seq<char>>
    decreases entries.len() - i,
{
    if i < 0 || i >= entries.len() {
        Ok(acc)
    } else if contains_seq(content, sign_of(entries[i].script_name)) {
        spec_reconcile(entries, content, is_method, fail_missing, i + 1, acc)
    } else if fail_missing {
        Err(entries[i].script_name)
    } else {
        spec_reconcile(
            entries,
            content,
            is_method,
            fail_missing,
            i + 1,
            RecV {
                stubs: acc.stubs + spec_template(entries[i], is_method),
                missing: acc.missing.push(entries[i].script_name),
            },
        )
    }
}

/// One category's reconciliation result.
pub open spec fn spec_reconcile_category(
    entries: Seq<FuncV>,
    content: Seq<char>,
    is_method: bool,
    fail_missing: bool,
) -> Result<RecV, Seq<char>> {
    spec_reconcile(
        entries,
        content,
        is_method,
        fail_missing,
        0,
        RecV { stubs: Seq::empty(), missing: Seq::empty() },
    )
}

/// Diffs one category's registry entries against its documentation
/// text. An entry is documented iff the text contains its marker. In
/// strict mode the first undocumented entry yields the distinct
/// missing-documentation error and nothing is rendered; otherwise the
/// stub blocks of all undocumented entries are rendered in registry
/// order, together with their names.
pub fn reconcile_category(
    entries: &Vec<ScriptFunction>,
    content: &str,
    category: &str,
    is_method: bool,
    fail_missing: bool,
) -> (r: Result<ReconcileOutcome, MissingDoc>)
    ensures
        match r {
            Ok(o) => spec_reconcile_category(entries.deep_view(), content@, is_method, fail_missing)
                == Ok::<RecV, Seq<char>>(o@),
            Err(e) => spec_reconcile_category(
                entries.deep_view(),
                content@,
                is_method,
                fail_missing,
            ) == Err::<RecV, Seq<char>>(e.script_name@) && e.category@ == category@,
        },
{
    let cv = chars_of(content);
    let mut stubs = String::new();
    let mut missing: Vec<String> = Vec::new();
    let mut i: usize = 0;
    proof {
        assert(missing.deep_view() =~= Seq::<Seq<char>>::empty());
    }
    while i < entries.len()
        invariant
            0 <= i <= entries.len(),
            cv@ == content@,
            spec_reconcile_category(entries.deep_view(), content@, is_method, fail_missing)
                == spec_reconcile(
                entries.deep_view(),
                content@,
                is_method,
                fail_missing,
                i as int,
                RecV { stubs: stubs@, missing: missing.deep_view() },
            ),
        decreases entries.len() - i,
    {
        proof {
            assert(entries.deep_view()[i as int] == entries@[i as int]@);
        }
        let sign = get_func_sign(entries[i].script_name.as_str());
        let sv = chars_of(sign.as_str());
        if !contains_x(&cv, &sv) {
            if fail_missing {
                return Err(
                    MissingDoc {
                        script_name: entries[i].script_name.clone(),
                        category: String::from_str(category),
                    },
                );
            }
            let stub = gen_template(&entries[i], is_method);
            stubs.append(stub.as_str());
            let ghost old_missing = missing.deep_view();
            missing.push(entries[i].script_name.clone());
            proof {
                assert(missing.deep_view() =~~= old_missing.push(
                    entries.deep_view()[i as int].script_name,
                ));
            }
        }
        i = i + 1;
    }
    Ok(ReconcileOutcome { stubs, missing })
}

/// Law: the stub block rendered for an entry contains that entry's
/// documentation marker, so an appended stub documents its entry.
pub proof fn lemma_template_contains_sign(f: FuncV, is_method: bool)
    ensures
        contains_seq(spec_template(f, is_method), sign_of(f.script_name)),
{
    let sign = sign_of(f.script_name);
    assert(sign.subrange(0, sign.len() as int) =~= sign);
    assert(crate::text::match_at(sign, sign, 0));
    crate::text::lemma_contains_suffix("\n"@, sign, sign);
    crate::text::lemma_contains_prefix(
        "\n"@ + sign,
        "\n\n.. csv-table:: **Arguments**\n    :header: \"Argument\", \"Type\", \"Description\"\n    :align: left\n\n"@,
        sign,
    );
    let head = "\n"@ + sign_of(f.script_name)
        + "\n\n.. csv-table:: **Arguments**\n    :header: \"Argument\", \"Type\", \"Description\"\n    :align: left\n\n"@;
    crate::text::lemma_contains_prefix(head, param_rows(f.params, 0), sign);
    let mid = if is_method {
        "\n| **Called on** ``<some object>``\n"@
    } else {
        "\n"@
    };
    crate::text::lemma_contains_prefix(head + param_rows(f.params, 0), mid, sign);
    let desc = if is_method {
        "\nthis is the Description of the method. Explain the usage in detail here\n"@
    } else {
        "\nthis is the Description of the function. Explain the usage in detail here\n"@
    };
    let callee = if is_method {
        "<some object> "@ + f.script_name
    } else {
        f.script_name
    };
    let example =
        "\n**Example**\n\n.. code-block:: cpp\n    \n    // stub example for dev.\n    // dev. should remove this comment after he is done changing it\n    "@
        + callee + "("@ + joined_names(f.params) + ");\n\n"@;
    crate::text::lemma_contains_prefix(
        head + param_rows(f.params, 0) + mid,
        returns_lines(f.returns, 0),
        sign,
    );
    crate::text::lemma_contains_prefix(
        head + param_rows(f.params, 0) + mid + returns_lines(f.returns, 0),
        desc,
        sign,
    );
    crate::text::lemma_contains_prefix(
        head + param_rows(f.params, 0) + mid + returns_lines(f.returns, 0) + desc,
        example,
        sign,
    );
}

/// The entry counts as documented in `text`.
pub open spec fn documented_in(e: FuncV, text: Seq<char>) -> bool {
    contains_seq(text, sign_of(e.script_name))
}

proof fn lemma_reconcile_covers(
    entries: Seq<FuncV>,
    content: Seq<char>,
    is_method: bool,
    i: int,
    acc: RecV,
    res: RecV,
)
    requires
        0 <= i,
        spec_reconcile(entries, content, is_method, false, i, acc) == Ok::<RecV, Seq<char>>(res),
    ensures
        forall|k: int|
            i <= k < entries.len() ==> documented_in(#[trigger] entries[k], content)
                || documented_in(entries[k], res.stubs),
        exists|t: Seq<char>| res.stubs == acc.stubs + t,
    decreases entries.len() - i,
{
    if i < 0 || i >= entries.len() {
        let t0 = Seq::<char>::empty();
        assert(res.stubs =~= acc.stubs + t0);
    } else if contains_seq(content, sign_of(entries[i].script_name)) {
        assert(spec_reconcile(entries, content, is_method, false, i, acc) == spec_reconcile(
            entries,
            content,
            is_method,
            false,
            i + 1,
            acc,
        ));
        lemma_reconcile_covers(entries, content, is_method, i + 1, acc, res);
    } else {
        let tmpl = spec_template(entries[i], is_method);
        let acc2 = RecV {
            stubs: acc.stubs + tmpl,
            missing: acc.missing.push(entries[i].script_name),
        };
        assert(spec_reconcile(entries, content, is_method, false, i, acc) == spec_reconcile(
            entries,
            content,
            is_method,
            false,
            i + 1,
            acc2,
        ));
        lemma_reconcile_covers(entries, content, is_method, i + 1, acc2, res);
        let t1 = choose|t: Seq<char>| res.stubs == acc2.stubs + t;
        assert(res.stubs =~= acc.stubs + (tmpl + t1));
        assert(tmpl.subrange(0, tmpl.len() as int) =~= tmpl);
        assert(crate::text::match_at(tmpl, tmpl, 0));
        crate::text::lemma_contains_suffix(acc.stubs, tmpl, tmpl);
        crate::text::lemma_contains_prefix(acc.stubs + tmpl, t1, tmpl);
        assert(contains_seq(res.stubs, tmpl));
        lemma_template_contains_sign(entries[i], is_method);
        crate::text::lemma_contains_trans(res.stubs, tmpl, sign_of(entries[i].script_name));
        assert(documented_in(entries[i], res.stubs));
    }
}

proof fn lemma_reconcile_all_present(
    entries: Seq<FuncV>,
    content: Seq<char>,
    is_method: bool,
    fail_missing: bool,
    i: int,
    acc: RecV,
)
    requires
        forall|k: int| i <= k < entries.len() ==> documented_in(#[trigger] entries[k], content),
    ensures
        spec_reconcile(entries, content, is_method, fail_missing, i, acc) == Ok::<
            RecV,
            Seq<char>,
        >(acc),
    decreases entries.len() - i,
{
    if !(i < 0 || i >= entries.len()) {
        assert(documented_in(entries[i], content));
        lemma_reconcile_all_present(entries, content, is_method, fail_missing, i + 1, acc);
    }
}

/// Law: reconciliation is idempotent. When a lenient run yields stub
/// text and the run's stubs are appended to the documentation text
/// (with the newlines the append writes), a re-run over the appended
/// text finds every entry documented: it renders nothing, reports
/// nothing missing, and succeeds even in strict mode.
pub proof fn lemma_reconcile_idempotent(
    entries: Seq<FuncV>,
    content: Seq<char>,
    is_method: bool,
    fail2: bool,
)
    requires
        spec_reconcile_category(entries, content, is_method, false) is Ok,
    ensures
        ({
            let o = spec_reconcile_category(entries, content, is_method, false)->Ok_0;
            let content2 = content + "\n"@ + o.stubs + "\n"@;
            spec_reconcile_category(entries, content2, is_method, fail2) == Ok::<
                RecV,
                Seq<char>,
            >(RecV { stubs: Seq::empty(), missing: Seq::empty() })
        }),
{
    let o = spec_reconcile_category(entries, content, is_method, false)->Ok_0;
    let content2 = content + "\n"@ + o.stubs + "\n"@;
    let init = RecV { stubs: Seq::empty(), missing: Seq::empty() };
    lemma_reconcile_covers(entries, content, is_method, 0, init, o);
    assert forall|k: int| 0 <= k < entries.len() implies documented_in(
        #[trigger] entries[k],
        content2,
    ) by {
        let sign = sign_of(entries[k].script_name);
        if contains_seq(content, sign) {
            crate::text::lemma_contains_prefix(content, "\n"@, sign);
            crate::text::lemma_contains_prefix(content + "\n"@, o.stubs, sign);
            crate::text::lemma_contains_prefix(content + "\n"@ + o.stubs, "\n"@, sign);
        } else {
            assert(contains_seq(o.stubs, sign));
            crate::text::lemma_contains_suffix(content + "\n"@, o.stubs, sign);
            crate::text::lemma_contains_prefix(content + "\n"@ + o.stubs, "\n"@, sign);
        }
    }
    lemma_reconcile_all_present(entries, content2, is_method, fail2, 0, init);
}

/// How the rendered stubs of a category leave the program: written to
/// a separate file, printed as a preview, or appended to the
/// category's documentation file.
#[derive(PartialEq, Eq, Structural, Clone, Copy, Debug)]
pub enum OutputMode {
    SeparateFile,
    PreviewOnly,
    Append,
}

/// Selects the output behaviour: exactly one executes, and writing a
/// separate file takes precedence over preview-only when both are
/// requested.
pub fn choose_output(write_sep: bool, no_write: bool) -> (r: OutputMode)
    ensures
        r == (if write_sep {
            OutputMode::SeparateFile
        } else if no_write {
            OutputMode::PreviewOnly
        } else {
            OutputMode::Append
        }),
{
    if write_sep {
        OutputMode::SeparateFile
    } else if no_write {
        OutputMode::PreviewOnly
    } else {
        OutputMode::Append
    }
}

/// The first line of the stub text after leading whitespace: the
/// public name of the first rendered entry, which names the separate
/// output file.
pub open spec fn first_line_after_ws(s: Seq<char>) -> Seq<char> {
    let a = ws_run(s, 0) as int;
    s.subrange(a, a + not_char_run(s, a, '\n'))
}

/// The name of the separate output file's entry: the first line of
/// the rendered stubs after leading whitespace, or `None` for text
/// that is whitespace only.
pub fn stub_block_name(stubs: &str) -> (r: Option<String>)
    ensures
        match r {
            Some(s) => ws_run(stubs@, 0) < stubs@.len() && s@ == first_line_after_ws(stubs@),
            None => ws_run(stubs@, 0) == stubs@.len(),
        },
{
    let v = chars_of(stubs);
    proof {
        lemma_ws_run_bound(v@, 0);
    }
    let a = ws_run_x(&v, 0);
    if a == v.len() {
        return None;
    }
    proof {
        lemma_not_char_run_bound(v@, a as int, '\n');
    }
    let n = not_char_run_x(&v, a, '\n');
    Some(string_of(&subvec(&v, a, a + n)))
}

} // verus!
