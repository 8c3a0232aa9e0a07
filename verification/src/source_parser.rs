//! The signature-introspection pipeline: declaration-table scanning,
//! brace-matched body extraction, call-pattern signature inference and
//! the merge into a typed registry.
//!
//! All matching is best-effort text scanning over fixed call idioms:
//! unmatched input degrades to defined sentinel values, never an error.

use vstd::prelude::*;

verus! {

use vstd::string::StrSliceExecFns;
use vstd::string::StringExecFns;
use crate::text::{
    ws_run,
    word_run,
    digit_run,
    not_char_run,
    ws_run_x,
    word_run_x,
    digit_run_x,
    not_char_run_x,
    match_at,
    contains_seq,
    match_at_x,
    contains_x,
    subvec,
    chars_of,
    string_of,
    trim_spec,
    trim_vec,
    split_char,
    split_char_x,
    lex_lt,
    str_eq,
    lemma_ws_run_bound,
    lemma_word_run_bound,
    lemma_digit_run_bound,
    lemma_not_char_run_bound,
};

/// One parameter of a script callable: a type tag from the fixed code
/// table and the argument name found at the call site.
#[derive(Debug)]
pub struct ScriptParameter {
    pub param_type: String,
    pub param_name: String,
}

/// Mathematical model of a [`ScriptParameter`].
#[verifier::ext_equal]
pub ghost struct ParamV {
    pub ty: Seq<char>,
    pub name: Seq<char>,
}

impl View for ScriptParameter {
    type V = ParamV;

    open spec fn view(&self) -> ParamV {
        ParamV { ty: self.param_type@, name: self.param_name@ }
    }
}

impl DeepView for ScriptParameter {
    type V = ParamV;

    open spec fn deep_view(&self) -> ParamV {
        self.view()
    }
}

/// A script callable joined from a declaration and its inferred
/// signature. `params` is never empty: absence of a detected parameter
/// call yields exactly one `unknown` sentinel. `returns` is never
/// empty either: absence yields exactly one `"unknown"` tag.
#[derive(Debug)]
pub struct ScriptFunction {
    pub name: String,
    pub script_name: String,
    pub params: Vec<ScriptParameter>,
    pub returns: Vec<String>,
}

/// Mathematical model of a [`ScriptFunction`].
#[verifier::ext_equal]
pub ghost struct FuncV {
    pub name: Seq<char>,
    pub script_name: Seq<char>,
    pub params: Seq<ParamV>,
    pub returns: Seq<Seq<char>>,
}

impl View for ScriptFunction {
    type V = FuncV;

    open spec fn view(&self) -> FuncV {
        FuncV {
            name: self.name@,
            script_name: self.script_name@,
            params: self.params.deep_view(),
            returns: self.returns.deep_view(),
        }
    }
}

impl DeepView for ScriptFunction {
    type V = FuncV;

    open spec fn deep_view(&self) -> FuncV {
        self.view()
    }
}

/// The inferred signature of one implementation body.
#[derive(Debug)]
pub struct ScriptFunctionDetails {
    pub name: String,
    pub params: Vec<ScriptParameter>,
    pub returns: Vec<String>,
}

/// Mathematical model of a [`ScriptFunctionDetails`].
#[verifier::ext_equal]
pub ghost struct DetailV {
    pub name: Seq<char>,
    pub params: Seq<ParamV>,
    pub returns: Seq<Seq<char>>,
}

impl View for ScriptFunctionDetails {
    type V = DetailV;

    open spec fn view(&self) -> DetailV {
        DetailV {
            name: self.name@,
            params: self.params.deep_view(),
            returns: self.returns.deep_view(),
        }
    }
}

impl DeepView for ScriptFunctionDetails {
    type V = DetailV;

    open spec fn deep_view(&self) -> DetailV {
        self.view()
    }
}

/// One row of a declaration table: public name, internal symbol, and
/// the category derived from the symbol's second underscore token.
#[derive(Debug)]
pub struct Declaration {
    pub name: String,
    pub script_name: String,
    pub category: String,
}

/// Mathematical model of a [`Declaration`].
#[verifier::ext_equal]
pub ghost struct DeclV {
    pub name: Seq<char>,
    pub script_name: Seq<char>,
    pub category: Seq<char>,
}

impl View for Declaration {
    type V = DeclV;

    open spec fn view(&self) -> DeclV {
        DeclV { name: self.name@, script_name: self.script_name@, category: self.category@ }
    }
}

impl DeepView for Declaration {
    type V = DeclV;

    open spec fn deep_view(&self) -> DeclV {
        self.view()
    }
}

/// The declarations of one category, in the order they were scanned.
#[derive(Debug)]
pub struct DeclGroup {
    pub category: String,
    pub decls: Vec<Declaration>,
}

/// Mathematical model of a [`DeclGroup`].
#[verifier::ext_equal]
pub ghost struct GroupV {
    pub category: Seq<char>,
    pub decls: Seq<DeclV>,
}

impl View for DeclGroup {
    type V = GroupV;

    open spec fn view(&self) -> GroupV {
        GroupV { category: self.category@, decls: self.decls.deep_view() }
    }
}

impl DeepView for DeclGroup {
    type V = GroupV;

    open spec fn deep_view(&self) -> GroupV {
        self.view()
    }
}

/// The merged registry entries of one category, sorted by key.
#[derive(Debug)]
pub struct CategoryFunctions {
    pub category: String,
    pub entries: Vec<ScriptFunction>,
}

/// Mathematical model of a [`CategoryFunctions`].
#[verifier::ext_equal]
pub ghost struct CatV {
    pub category: Seq<char>,
    pub entries: Seq<FuncV>,
}

impl View for CategoryFunctions {
    type V = CatV;

    open spec fn view(&self) -> CatV {
        CatV { category: self.category@, entries: self.entries.deep_view() }
    }
}

impl DeepView for CategoryFunctions {
    type V = CatV;

    open spec fn deep_view(&self) -> CatV {
        self.view()
    }
}

/// The full typed registry: functions keyed by internal symbol,
/// methods keyed by public name, each grouped per category with the
/// categories in ascending order.
#[derive(Debug)]
pub struct ParseResult {
    pub functions: Vec<CategoryFunctions>,
    pub methods: Vec<CategoryFunctions>,
}

// ------------------------------------------------------------------
// Signature inference: parameters
// ------------------------------------------------------------------

/// The fixed table mapping one format code to a type tag.
pub open spec fn code_tag(c: char) -> Seq<char> {
    if c == 'i' {
        "int"@
    } else if c == 'v' {
        "vector"@
    } else if c == 'f' {
        "float"@
    } else if c == 's' {
        "string"@
    } else if c == 'c' {
        "const string"@
    } else if c == 'l' {
        "localized string"@
    } else {
        "unknown"@
    }
}

pub fn code_tag_x(c: char) -> (r: String)
    ensures
        r@ == code_tag(c),
{
    if c == 'i' {
        String::from_str("int")
    } else if c == 'v' {
        String::from_str("vector")
    } else if c == 'f' {
        String::from_str("float")
    } else if c == 's' {
        String::from_str("string")
    } else if c == 'c' {
        String::from_str("const string")
    } else if c == 'l' {
        String::from_str("localized string")
    } else {
        String::from_str("unknown")
    }
}

/// The parameter-call pattern matched at position `i`: the literal
/// `stackGetParams(`, optional whitespace, a quoted non-empty code
/// string, optional whitespace, a comma, then one or more characters
/// up to the next closing parenthesis (the raw argument text).
pub open spec fn params_match_at(s: Seq<char>, i: int) -> Option<(Seq<char>, Seq<char>)> {
    if !match_at(s, "stackGetParams("@, i) {
        None
    } else {
        let q = i + "stackGetParams("@.len() + ws_run(s, i + "stackGetParams("@.len() as int);
        if !(q < s.len() && s[q] == '"') {
            None
        } else {
            let cl = not_char_run(s, q + 1, '"');
            let b = q + 1 + cl;
            if !(cl >= 1 && b < s.len()) {
                None
            } else {
                let c = b + 1 + ws_run(s, b + 1);
                if !(c < s.len() && s[c] == ',') {
                    None
                } else {
                    let al = not_char_run(s, c + 1, ')');
                    let d = c + 1 + al;
                    if !(al >= 1 && d < s.len()) {
                        None
                    } else {
                        Some((s.subrange(q + 1, b as int), s.subrange(c + 1, d as int)))
                    }
                }
            }
        }
    }
}

/// The leftmost parameter-call match at or after `i`.
pub open spec fn params_capture_from(s: Seq<char>, i: int) -> Option<(Seq<char>, Seq<char>)>
    decreases s.len() - i,
{
    if i < 0 || i >= s.len() {
        None
    } else if params_match_at(s, i) is Some {
        params_match_at(s, i)
    } else {
        params_capture_from(s, i + 1)
    }
}

/// The leftmost parameter-call match of the body, if any.
pub open spec fn params_capture(s: Seq<char>) -> Option<(Seq<char>, Seq<char>)> {
    params_capture_from(s, 0)
}

/// Leading `&` markers stripped from an argument name.
pub open spec fn strip_amp(s: Seq<char>) -> Seq<char>
    decreases s.len(),
{
    if s.len() > 0 && s[0] == '&' {
        strip_amp(s.drop_first())
    } else {
        s
    }
}

/// An argument name cleaned: trimmed, then leading `&` stripped.
pub open spec fn clean_param_name(s: Seq<char>) -> Seq<char> {
    strip_amp(trim_spec(s))
}

/// Type tags and cleaned argument names paired positionally,
/// truncating to the shorter of the two lists.
pub open spec fn zip_params(codes: Seq<char>, names: Seq<Seq<char>>) -> Seq<ParamV> {
    Seq::new(
        if codes.len() <= names.len() {
            codes.len()
        } else {
            names.len()
        },
        |k: int| ParamV { ty: code_tag(codes[k]), name: clean_param_name(names[k]) },
    )
}

/// The sentinel parameter emitted when no call is found.
pub open spec fn sentinel_param() -> ParamV {
    ParamV { ty: "unknown"@, name: "unknown"@ }
}

/// The inferred parameter list of a body: the codes and arguments of
/// its parameter call zipped, or exactly one sentinel.
pub open spec fn spec_extract_params(body: Seq<char>) -> Seq<ParamV> {
    match params_capture(body) {
        Some((codes, args)) => zip_params(codes, split_char(args, ',')),
        None => seq![sentinel_param()],
    }
}

fn params_match_at_x(v: &Vec<char>, lit: &Vec<char>, i: usize) -> (r: Option<
    (Vec<char>, Vec<char>),
>)
    requires
        lit@ == "stackGetParams("@,
        i <= v.len(),
    ensures
        match r {
            Some(p) => params_match_at(v@, i as int) == Some((p.0@, p.1@)),
            None => params_match_at(v@, i as int) is None,
        },
{
    proof {
        reveal_strlit("stackGetParams(");
    }
    if !match_at_x(v, lit, i) {
        return None;
    }
    proof {
        lemma_ws_run_bound(v@, i + lit@.len() as int);
    }
    let q = i + lit.len() + ws_run_x(v, i + lit.len());
    if !(q < v.len() && v[q] == '"') {
        return None;
    }
    proof {
        lemma_not_char_run_bound(v@, q + 1, '"');
    }
    let cl = not_char_run_x(v, q + 1, '"');
    let b = q + 1 + cl;
    if !(cl >= 1 && b < v.len()) {
        return None;
    }
    proof {
        lemma_ws_run_bound(v@, b + 1);
    }
    let c = b + 1 + ws_run_x(v, b + 1);
    if !(c < v.len() && v[c] == ',') {
        return None;
    }
    proof {
        lemma_not_char_run_bound(v@, c + 1, ')');
    }
    let al = not_char_run_x(v, c + 1, ')');
    let d = c + 1 + al;
    if !(al >= 1 && d < v.len()) {
        return None;
    }
    Some((subvec(v, q + 1, b), subvec(v, c + 1, d)))
}

fn find_params_call(v: &Vec<char>, lit: &Vec<char>) -> (r: Option<(Vec<char>, Vec<char>)>)
    requires
        lit@ == "stackGetParams("@,
    ensures
        match r {
            Some(p) => params_capture(v@) == Some((p.0@, p.1@)),
            None => params_capture(v@) is None,
        },
{
    proof {
        reveal_strlit("stackGetParams(");
    }
    let mut i: usize = 0;
    while i < v.len()
        invariant
            lit@ == "stackGetParams("@,
            0 <= i <= v.len(),
            params_capture(v@) == params_capture_from(v@, i as int),
        decreases v.len() - i,
    {
        let m = params_match_at_x(v, lit, i);
        if m.is_some() {
            return m;
        }
        i = i + 1;
    }
    None
}

fn clean_param_name_x(v: &Vec<char>) -> (r: Vec<char>)
    ensures
        r@ == clean_param_name(v@),
{
    let t = trim_vec(v);
    let mut j: usize = 0;
    proof {
        assert(t@.skip(0) =~= t@);
    }
    while j < t.len() && t[j] == '&'
        invariant
            0 <= j <= t.len(),
            strip_amp(t@) == strip_amp(t@.skip(j as int)),
        decreases t.len() - j,
    {
        proof {
            assert(t@.skip(j as int).drop_first() =~= t@.skip(j + 1 as int));
        }
        j = j + 1;
    }
    proof {
        assert(t@.skip(j as int) =~= t@.subrange(j as int, t@.len() as int));
    }
    subvec(&t, j, t.len())
}

proof fn lemma_params_capture_lens(s: Seq<char>, i: int, c: Seq<char>, a: Seq<char>)
    requires
        params_capture_from(s, i) == Some((c, a)),
    ensures
        c.len() >= 1,
        a.len() >= 1,
    decreases s.len() - i,
{
    if i < 0 || i >= s.len() {
    } else if params_match_at(s, i) is Some {
    } else {
        lemma_params_capture_lens(s, i + 1, c, a);
    }
}

/// Infers the parameter list of an implementation body. The format
/// codes of its single `stackGetParams` call map through the fixed
/// code table and pair positionally with the cleaned argument names;
/// a body with no such call yields exactly one sentinel parameter.
pub fn extract_params(body: &str) -> (r: Vec<ScriptParameter>)
    ensures
        r.deep_view() == spec_extract_params(body@),
        r.len() >= 1,
{
    let v = chars_of(body);
    let lit = chars_of("stackGetParams(");
    match find_params_call(&v, &lit) {
        None => {
            let mut r: Vec<ScriptParameter> = Vec::new();
            r.push(
                ScriptParameter {
                    param_type: String::from_str("unknown"),
                    param_name: String::from_str("unknown"),
                },
            );
            proof {
                assert(r.deep_view() =~~= seq![sentinel_param()]);
            }
            r
        },
        Some((codes, args)) => {
            proof {
                lemma_params_capture_lens(v@, 0, codes@, args@);
                crate::text::lemma_split_nonempty(args@, ',', 0, Seq::empty());
            }
            let names = split_char_x(&args, ',');
            let n: usize = if codes.len() <= names.len() {
                codes.len()
            } else {
                names.len()
            };
            let mut r: Vec<ScriptParameter> = Vec::new();
            let mut k: usize = 0;
            while k < n
                invariant
                    0 <= k <= n,
                    n == if codes@.len() <= names.deep_view().len() {
                        codes@.len()
                    } else {
                        names.deep_view().len()
                    },
                    n <= codes.len(),
                    n <= names.len(),
                    names.deep_view().len() == names.len(),
                    r.deep_view() =~~= zip_params(codes@, names.deep_view()).take(k as int),
                decreases n - k,
            {
                let ty = code_tag_x(codes[k]);
                let cleaned = clean_param_name_x(&names[k]);
                let nm = string_of(&cleaned);
                let ghost old_r = r.deep_view();
                r.push(ScriptParameter { param_type: ty, param_name: nm });
                proof {
                    assert(names@[k as int].deep_view() =~= names@[k as int]@);
                    assert(names.deep_view()[k as int] == names@[k as int].deep_view());
                    assert(nm@ == clean_param_name(names.deep_view()[k as int]));
                    assert(r.deep_view() =~~= old_r.push(
                        zip_params(codes@, names.deep_view())[k as int],
                    ));
                    assert(r.deep_view() =~~= zip_params(codes@, names.deep_view()).take(
                        k + 1 as int,
                    ));
                }
                k = k + 1;
            }
            proof {
                assert(r.deep_view() =~~= zip_params(codes@, names.deep_view()));
            }
            r
        },
    }
}

// ------------------------------------------------------------------
// Signature inference: return types
// ------------------------------------------------------------------

/// The fixed table from a return-registration function name to its
/// documented type tag.
pub open spec fn tag_of(name: Seq<char>) -> Option<Seq<char>> {
    if name == "Scr_AddBool"@ {
        Some("bool"@)
    } else if name == "Scr_AddInt"@ {
        Some("int"@)
    } else if name == "Scr_AddFloat"@ {
        Some("float"@)
    } else if name == "Scr_AddString"@ {
        Some("string"@)
    } else if name == "Scr_AddArray"@ {
        Some("array"@)
    } else if name == "Scr_AddVector"@ {
        Some("vector"@)
    } else if name == "Scr_AddObject"@ {
        Some("object"@)
    } else {
        None
    }
}

/// Maps a return-registration function name to its type tag, `None`
/// for names outside the fixed table.
pub fn map_scr_add_to_type(func_name: &str) -> (r: Option<String>)
    ensures
        match r {
            Some(t) => tag_of(func_name@) == Some(t@),
            None => tag_of(func_name@) is None,
        },
{
    if str_eq(func_name, "Scr_AddBool") {
        Some(String::from_str("bool"))
    } else if str_eq(func_name, "Scr_AddInt") {
        Some(String::from_str("int"))
    } else if str_eq(func_name, "Scr_AddFloat") {
        Some(String::from_str("float"))
    } else if str_eq(func_name, "Scr_AddString") {
        Some(String::from_str("string"))
    } else if str_eq(func_name, "Scr_AddArray") {
        Some(String::from_str("array"))
    } else if str_eq(func_name, "Scr_AddVector") {
        Some(String::from_str("vector"))
    } else if str_eq(func_name, "Scr_AddObject") {
        Some(String::from_str("object"))
    } else {
        None
    }
}

/// The return-registration pattern matched at position `i`: the
/// literal `Scr_Add`, a non-empty word, optional whitespace and an
/// opening parenthesis. Yields the word and the index just past the
/// parenthesis.
pub open spec fn scr_add_match_at(s: Seq<char>, i: int) -> Option<(Seq<char>, int)> {
    if !match_at(s, "Scr_Add"@, i) {
        None
    } else {
        let w = word_run(s, i + "Scr_Add"@.len() as int);
        if w < 1 {
            None
        } else {
            let p = i + "Scr_Add"@.len() + w;
            let q = p + ws_run(s, p as int);
            if q < s.len() && s[q as int] == '(' {
                Some((s.subrange(i + "Scr_Add"@.len() as int, p as int), q + 1))
            } else {
                None
            }
        }
    }
}

/// All distinct type tags registered anywhere in the body, scanning
/// left to right from `i` with successive non-overlapping matches,
/// first occurrence first; duplicates collapse.
pub open spec fn returns_scan(s: Seq<char>, i: int, acc: Seq<Seq<char>>) -> Seq<Seq<char>>
    decreases s.len() - i,
{
    if i < 0 || i >= s.len() {
        acc
    } else {
        match scr_add_match_at(s, i) {
            Some((w, e)) => {
                let acc2 = match tag_of("Scr_Add"@ + w) {
                    Some(t) => if acc.contains(t) {
                        acc
                    } else {
                        acc.push(t)
                    },
                    None => acc,
                };
                returns_scan(s, e, acc2)
            },
            None => returns_scan(s, i + 1, acc),
        }
    }
}

/// The inferred return-tag list of a body: each distinct registered
/// kind's tag in first-occurrence order, or exactly one `"unknown"`.
pub open spec fn spec_extract_returns(body: Seq<char>) -> Seq<Seq<char>> {
    let found = returns_scan(body, 0, Seq::empty());
    if found.len() == 0 {
        seq!["unknown"@]
    } else {
        found
    }
}

fn scr_add_match_at_x(v: &Vec<char>, lit: &Vec<char>, i: usize) -> (r: Option<(Vec<char>, usize)>)
    requires
        lit@ == "Scr_Add"@,
        i <= v.len(),
    ensures
        match r {
            Some(p) => scr_add_match_at(v@, i as int) == Some((p.0@, p.1 as int)) && i < p.1
                <= v.len(),
            None => scr_add_match_at(v@, i as int) is None,
        },
{
    if !match_at_x(v, lit, i) {
        return None;
    }
    proof {
        lemma_word_run_bound(v@, i + lit@.len() as int);
    }
    let w = word_run_x(v, i + lit.len());
    if w < 1 {
        return None;
    }
    let p = i + lit.len() + w;
    proof {
        lemma_ws_run_bound(v@, p as int);
    }
    let q = p + ws_run_x(v, p);
    if q < v.len() && v[q] == '(' {
        Some((subvec(v, i + lit.len(), p), q + 1))
    } else {
        None
    }
}

fn contains_string(acc: &Vec<String>, t: &String) -> (b: bool)
    ensures
        b == acc.deep_view().contains(t@),
{
    let mut j: usize = 0;
    while j < acc.len()
        invariant
            0 <= j <= acc.len(),
            forall|m: int| 0 <= m < j ==> acc.deep_view()[m] != t@,
        decreases acc.len() - j,
    {
        if str_eq(acc[j].as_str(), t.as_str()) {
            proof {
                assert(acc.deep_view()[j as int] == t@);
            }
            return true;
        }
        j = j + 1;
    }
    false
}

/// Infers the set of return-type tags of an implementation body from
/// its return-registration calls; a body with none yields exactly one
/// `"unknown"` tag.
pub fn extract_return_types(body: &str) -> (r: Vec<String>)
    ensures
        r.deep_view() == spec_extract_returns(body@),
        r.len() >= 1,
{
    let v = chars_of(body);
    let lit = chars_of("Scr_Add");
    let mut acc: Vec<String> = Vec::new();
    let mut i: usize = 0;
    proof {
        reveal_strlit("Scr_Add");
        assert(acc.deep_view() =~= Seq::<Seq<char>>::empty());
    }
    while i < v.len()
        invariant
            lit@ == "Scr_Add"@,
            0 <= i <= v.len(),
            returns_scan(v@, 0, Seq::empty()) == returns_scan(v@, i as int, acc.deep_view()),
        decreases v.len() - i,
    {
        match scr_add_match_at_x(&v, &lit, i) {
            Some((w, e)) => {
                let mut full = String::from_str("Scr_Add");
                let wstr = string_of(&w);
                full.append(wstr.as_str());
                let ghost old_acc = acc.deep_view();
                match map_scr_add_to_type(full.as_str()) {
                    Some(t) => {
                        if !contains_string(&acc, &t) {
                            acc.push(t);
                            proof {
                                assert(acc.deep_view() =~~= old_acc.push(acc.deep_view().last()));
                            }
                        }
                    },
                    None => {},
                }
                proof {
                    assert(returns_scan(v@, i as int, old_acc) == returns_scan(
                        v@,
                        e as int,
                        acc.deep_view(),
                    ));
                }
                i = e;
            },
            None => {
                i = i + 1;
            },
        }
    }
    if acc.len() == 0 {
        let mut r: Vec<String> = Vec::new();
        r.push(String::from_str("unknown"));
        proof {
            assert(r.deep_view() =~~= seq!["unknown"@]);
        }
        r
    } else {
        acc
    }
}

/// Law: a body whose parameter call carries `N` format codes and `N`
/// arguments yields exactly `N` parameters, the type tags mapped from
/// the fixed code table in argument order and each name cleaned; when
/// the code string and the argument list differ in length, the pairing
/// truncates to the shorter of the two.
pub proof fn lemma_params_shape(body: Seq<char>, codes: Seq<char>, args: Seq<char>)
    requires
        params_capture(body) == Some((codes, args)),
    ensures
        ({
            let names = split_char(args, ',');
            let r = spec_extract_params(body);
            &&& r.len() == if codes.len() <= names.len() {
                codes.len()
            } else {
                names.len()
            }
            &&& codes.len() == names.len() ==> r.len() == codes.len()
            &&& forall|k: int|
                0 <= k < r.len() ==> r[k].ty == code_tag(codes[k]) && r[k].name
                    == clean_param_name(names[k])
        }),
{
}

/// Law: a body with no parameter call yields exactly one sentinel
/// parameter, never zero.
pub proof fn lemma_params_sentinel(body: Seq<char>)
    requires
        params_capture(body) is None,
    ensures
        spec_extract_params(body) == seq![sentinel_param()],
        spec_extract_params(body).len() == 1,
{
}

proof fn lemma_returns_scan_nodup(s: Seq<char>, i: int, acc: Seq<Seq<char>>)
    requires
        forall|a: int, b: int| 0 <= a < b < acc.len() ==> acc[a] != acc[b],
    ensures
        forall|a: int, b: int|
            0 <= a < b < returns_scan(s, i, acc).len() ==> returns_scan(s, i, acc)[a]
                != returns_scan(s, i, acc)[b],
    decreases s.len() - i,
{
    if i < 0 || i >= s.len() {
    } else {
        match scr_add_match_at(s, i) {
            Some((w, e)) => {
                let acc2 = match tag_of("Scr_Add"@ + w) {
                    Some(t) => if acc.contains(t) {
                        acc
                    } else {
                        acc.push(t)
                    },
                    None => acc,
                };
                assert forall|a: int, b: int| 0 <= a < b < acc2.len() implies acc2[a] != acc2[b] by {
                    if b == acc.len() {
                        assert(!acc.contains(acc2[b]));
                    }
                }
                lemma_returns_scan_nodup(s, e, acc2);
                assert(returns_scan(s, i, acc) == returns_scan(s, e, acc2));
            },
            None => {
                lemma_returns_scan_nodup(s, i + 1, acc);
                assert(returns_scan(s, i, acc) == returns_scan(s, i + 1, acc));
            },
        }
    }
}

/// Law: the inferred return tags are distinct — duplicate
/// registrations of one kind collapse to one tag — and a body with no
/// registration yields exactly the one `"unknown"` tag.
pub proof fn lemma_returns_distinct(body: Seq<char>)
    ensures
        spec_extract_returns(body).len() >= 1,
        forall|a: int, b: int|
            0 <= a < b < spec_extract_returns(body).len() ==> spec_extract_returns(body)[a]
                != spec_extract_returns(body)[b],
        returns_scan(body, 0, Seq::empty()) =~= Seq::empty() ==> spec_extract_returns(body)
            =~= seq!["unknown"@],
{
    lemma_returns_scan_nodup(body, 0, Seq::empty());
}

// ------------------------------------------------------------------
// Line splitting
// ------------------------------------------------------------------

/// A line with a trailing carriage return stripped.
pub open spec fn strip_cr(l: Seq<char>) -> Seq<char> {
    if l.len() > 0 && l.last() == '\r' {
        l.drop_last()
    } else {
        l
    }
}

/// The lines of `s`: split on newline, a final empty piece after a
/// trailing newline dropped, and a trailing carriage return stripped
/// from each line (the semantics of `str::lines`).
pub open spec fn lines_of(s: Seq<char>) -> Seq<Seq<char>> {
    if s.len() == 0 {
        Seq::empty()
    } else {
        let raw = split_char(s, '\n');
        let kept = if s.last() == '\n' {
            raw.drop_last()
        } else {
            raw
        };
        kept.map_values(|l: Seq<char>| strip_cr(l))
    }
}

fn strip_cr_x(l: &Vec<char>) -> (r: Vec<char>)
    ensures
        r@ == strip_cr(l@),
{
    if l.len() > 0 && l[l.len() - 1] == '\r' {
        let r = subvec(l, 0, l.len() - 1);
        proof {
            assert(l@.subrange(0, l@.len() - 1) =~= l@.drop_last());
        }
        r
    } else {
        subvec(l, 0, l.len())
    }
}

pub fn lines_of_x(v: &Vec<char>) -> (r: Vec<Vec<char>>)
    ensures
        r.deep_view() == lines_of(v@),
{
    if v.len() == 0 {
        let r: Vec<Vec<char>> = Vec::new();
        proof {
            assert(r.deep_view() =~~= lines_of(v@));
        }
        return r;
    }
    let mut raw = split_char_x(v, '\n');
    if v[v.len() - 1] == '\n' {
        proof {
            crate::text::lemma_split_nonempty(v@, '\n', 0, Seq::empty());
        }
        let _last = raw.pop();
    }
    let ghost kept = raw.deep_view();
    let mut out: Vec<Vec<char>> = Vec::new();
    let mut i: usize = 0;
    while i < raw.len()
        invariant
            0 <= i <= raw.len(),
            kept == raw.deep_view(),
            out.deep_view() =~~= kept.map_values(|l: Seq<char>| strip_cr(l)).take(i as int),
        decreases raw.len() - i,
    {
        let stripped = strip_cr_x(&raw[i]);
        let ghost old_out = out.deep_view();
        out.push(stripped);
        proof {
            assert(raw@[i as int].deep_view() =~= raw@[i as int]@);
            assert(out.deep_view() =~~= old_out.push(strip_cr(kept[i as int])));
            assert(out.deep_view() =~~= kept.map_values(|l: Seq<char>| strip_cr(l)).take(
                i + 1 as int,
            ));
        }
        i = i + 1;
    }
    proof {
        assert(out.deep_view() =~~= kept.map_values(|l: Seq<char>| strip_cr(l)));
    }
    out
}

// ------------------------------------------------------------------
// Declaration-table scanning
// ------------------------------------------------------------------

/// Which declaration table the scanner is currently inside.
#[derive(PartialEq, Eq, Structural, Clone, Copy)]
pub enum Table {
    Outside,
    Functions,
    Methods,
}

/// Mathematical state of the declaration scanner: the current table
/// and the declarations grouped per category, in first-seen order.
#[verifier::ext_equal]
pub ghost struct ScanV {
    pub table: Table,
    pub functions: Seq<GroupV>,
    pub methods: Seq<GroupV>,
}

/// A declaration appended to its category's group, or a new group
/// opened at the end for a category not seen before.
pub open spec fn group_add(gs: Seq<GroupV>, cat: Seq<char>, d: DeclV) -> Seq<GroupV>
    decreases gs.len(),
{
    if gs.len() == 0 {
        seq![GroupV { category: cat, decls: seq![d] }]
    } else if gs[0].category == cat {
        seq![GroupV { category: gs[0].category, decls: gs[0].decls.push(d) }] + gs.drop_first()
    } else {
        seq![gs[0]] + group_add(gs.drop_first(), cat, d)
    }
}

/// One declaration row matched at position `i` of a line: a brace,
/// the quoted public name, a comma, the internal symbol word, a comma,
/// a digit count, then `},`, with optional whitespace between tokens.
pub open spec fn row_match_at(l: Seq<char>, i: int) -> Option<(Seq<char>, Seq<char>)> {
    if !(0 <= i < l.len() && l[i] == '{') {
        None
    } else {
        let a = i + 1 + ws_run(l, i + 1);
        if !(a < l.len() && l[a] == '"') {
            None
        } else {
            let nl = not_char_run(l, a + 1, '"');
            let b = a + 1 + nl;
            if !(nl >= 1 && b < l.len()) {
                None
            } else {
                let c = b + 1 + ws_run(l, b + 1);
                if !(c < l.len() && l[c] == ',') {
                    None
                } else {
                    let d = c + 1 + ws_run(l, c + 1);
                    let w = word_run(l, d);
                    if !(w >= 1) {
                        None
                    } else {
                        let e = d + w;
                        let f = e + ws_run(l, e);
                        if !(f < l.len() && l[f] == ',') {
                            None
                        } else {
                            let g = f + 1 + ws_run(l, f + 1);
                            let h = digit_run(l, g);
                            if !(h >= 1) {
                                None
                            } else {
                                let k = g + h + ws_run(l, g + h);
                                if !(k + 1 < l.len() && l[k] == '}' && l[k + 1] == ',') {
                                    None
                                } else {
                                    Some((l.subrange(a + 1, b as int), l.subrange(d, e as int)))
                                }
                            }
                        }
                    }
                }
            }
        }
    }
}

/// The leftmost declaration-row match of a line, if any.
pub open spec fn row_capture_from(l: Seq<char>, i: int) -> Option<(Seq<char>, Seq<char>)>
    decreases l.len() - i,
{
    if i < 0 || i >= l.len() {
        None
    } else if row_match_at(l, i) is Some {
        row_match_at(l, i)
    } else {
        row_capture_from(l, i + 1)
    }
}

/// The scanner's transition on one (already trimmed-on-read) line:
/// comment lines are skipped, marker lines switch the current table,
/// lines mentioning the test-harness marker are skipped, and matching
/// rows whose symbol starts with the `gsc` prefix token emit a
/// declaration into the current table under the symbol's second token.
pub open spec fn decl_line_step(st: ScanV, line: Seq<char>) -> ScanV {
    let t = trim_spec(line);
    if match_at(t, "//"@, 0) {
        st
    } else if contains_seq(t, "scriptFunctions[]"@) {
        ScanV { table: Table::Functions, ..st }
    } else if contains_seq(t, "scriptMethods[]"@) {
        ScanV { table: Table::Methods, ..st }
    } else if st.table is Outside || contains_seq(t, "test"@) {
        st
    } else {
        match row_capture_from(t, 0) {
            Some((sname, sym)) => {
                let parts = split_char(sym, '_');
                if parts.len() >= 2 && parts[0] == "gsc"@ {
                    let d = DeclV { name: sym, script_name: sname, category: parts[1] };
                    if st.table is Functions {
                        ScanV { functions: group_add(st.functions, parts[1], d), ..st }
                    } else {
                        ScanV { methods: group_add(st.methods, parts[1], d), ..st }
                    }
                } else {
                    st
                }
            },
            None => st,
        }
    }
}

/// The scanner folded over the lines from index `i`.
pub open spec fn decl_scan(ls: Seq<Seq<char>>, i: int, st: ScanV) -> ScanV
    decreases ls.len() - i,
{
    if i < 0 || i >= ls.len() {
        st
    } else {
        decl_scan(ls, i + 1, decl_line_step(st, ls[i]))
    }
}

/// The scanner run over a whole declaration-table file.
pub open spec fn spec_scan_declarations(s: Seq<char>) -> ScanV {
    decl_scan(
        lines_of(s),
        0,
        ScanV { table: Table::Outside, functions: Seq::empty(), methods: Seq::empty() },
    )
}

/// A declaration in the form the scanner emits: its category is the
/// second underscore token of its internal symbol, whose first token
/// is the fixed `gsc` prefix.
pub open spec fn decl_ok(d: DeclV) -> bool {
    let parts = split_char(d.name, '_');
    parts.len() >= 2 && parts[0] == "gsc"@ && d.category == parts[1]
}

/// Every declaration of every group is well-formed and grouped under
/// its own category.
pub open spec fn groups_ok(gs: Seq<GroupV>) -> bool {
    forall|g: int, m: int|
        0 <= g < gs.len() && 0 <= m < gs[g].decls.len() ==> decl_ok(#[trigger] gs[g].decls[m])
            && gs[g].decls[m].category == gs[g].category
}

proof fn lemma_group_add_ok(gs: Seq<GroupV>, cat: Seq<char>, d: DeclV)
    requires
        groups_ok(gs),
        decl_ok(d),
        d.category == cat,
    ensures
        groups_ok(group_add(gs, cat, d)),
    decreases gs.len(),
{
    if gs.len() == 0 {
    } else if gs[0].category == cat {
        let r = group_add(gs, cat, d);
        assert forall|g: int, m: int|
            0 <= g < r.len() && 0 <= m < r[g].decls.len() implies decl_ok(#[trigger] r[g].decls[m])
            && r[g].decls[m].category == r[g].category by {
            if g == 0 {
                if m < gs[0].decls.len() {
                    assert(r[0].decls[m] == gs[0].decls[m]);
                }
            } else {
                assert(r[g] == gs[g]);
            }
        }
    } else {
        lemma_group_add_ok(gs.drop_first(), cat, d);
        let r = group_add(gs, cat, d);
        let rt = group_add(gs.drop_first(), cat, d);
        assert forall|g: int, m: int|
            0 <= g < r.len() && 0 <= m < r[g].decls.len() implies decl_ok(#[trigger] r[g].decls[m])
            && r[g].decls[m].category == r[g].category by {
            if g == 0 {
                assert(r[0] == gs[0]);
                assert(gs[0].decls[m] == gs[0].decls[m]);
            } else {
                assert(r[g] == rt[g - 1]);
            }
        }
    }
}

proof fn lemma_decl_step_ok(st: ScanV, line: Seq<char>)
    requires
        groups_ok(st.functions),
        groups_ok(st.methods),
    ensures
        groups_ok(decl_line_step(st, line).functions),
        groups_ok(decl_line_step(st, line).methods),
{
    let t = trim_spec(line);
    if !match_at(t, "//"@, 0) && !contains_seq(t, "scriptFunctions[]"@) && !contains_seq(
        t,
        "scriptMethods[]"@,
    ) && !(st.table is Outside || contains_seq(t, "test"@)) {
        match row_capture_from(t, 0) {
            Some((sname, sym)) => {
                let parts = split_char(sym, '_');
                if parts.len() >= 2 && parts[0] == "gsc"@ {
                    let d = DeclV { name: sym, script_name: sname, category: parts[1] };
                    assert(decl_ok(d));
                    if st.table is Functions {
                        lemma_group_add_ok(st.functions, parts[1], d);
                    } else {
                        lemma_group_add_ok(st.methods, parts[1], d);
                    }
                }
            },
            None => {},
        }
    }
}

proof fn lemma_decl_scan_ok(ls: Seq<Seq<char>>, i: int, st: ScanV)
    requires
        groups_ok(st.functions),
        groups_ok(st.methods),
    ensures
        groups_ok(decl_scan(ls, i, st).functions),
        groups_ok(decl_scan(ls, i, st).methods),
    decreases ls.len() - i,
{
    if !(i < 0 || i >= ls.len()) {
        lemma_decl_step_ok(st, ls[i]);
        lemma_decl_scan_ok(ls, i + 1, decl_line_step(st, ls[i]));
    }
}

/// Law: every declaration the scanner emits, into either table,
/// derives its category from the second underscore token of its
/// internal symbol with the fixed prefix as first token, and stands
/// grouped under exactly that category; rows failing the pattern or
/// the token test appear in no group.
pub proof fn lemma_scanner_categories(s: Seq<char>)
    ensures
        groups_ok(spec_scan_declarations(s).functions),
        groups_ok(spec_scan_declarations(s).methods),
{
    lemma_decl_scan_ok(
        lines_of(s),
        0,
        ScanV { table: Table::Outside, functions: Seq::empty(), methods: Seq::empty() },
    );
}

fn row_match_at_x(l: &Vec<char>, i: usize) -> (r: Option<(Vec<char>, Vec<char>)>)
    requires
        i <= l.len(),
    ensures
        match r {
            Some(p) => row_match_at(l@, i as int) == Some((p.0@, p.1@)),
            None => row_match_at(l@, i as int) is None,
        },
{
    if !(i < l.len() && l[i] == '{') {
        return None;
    }
    proof {
        lemma_ws_run_bound(l@, i + 1);
    }
    let a = i + 1 + ws_run_x(l, i + 1);
    if !(a < l.len() && l[a] == '"') {
        return None;
    }
    proof {
        lemma_not_char_run_bound(l@, a + 1, '"');
    }
    let nl = not_char_run_x(l, a + 1, '"');
    let b = a + 1 + nl;
    if !(nl >= 1 && b < l.len()) {
        return None;
    }
    proof {
        lemma_ws_run_bound(l@, b + 1);
    }
    let c = b + 1 + ws_run_x(l, b + 1);
    if !(c < l.len() && l[c] == ',') {
        return None;
    }
    proof {
        lemma_ws_run_bound(l@, c + 1);
    }
    let d = c + 1 + ws_run_x(l, c + 1);
    proof {
        lemma_word_run_bound(l@, d as int);
    }
    let w = word_run_x(l, d);
    if !(w >= 1) {
        return None;
    }
    let e = d + w;
    proof {
        lemma_ws_run_bound(l@, e as int);
    }
    let f = e + ws_run_x(l, e);
    if !(f < l.len() && l[f] == ',') {
        return None;
    }
    proof {
        lemma_ws_run_bound(l@, f + 1);
    }
    let g = f + 1 + ws_run_x(l, f + 1);
    proof {
        lemma_digit_run_bound(l@, g as int);
    }
    let h = digit_run_x(l, g);
    if !(h >= 1) {
        return None;
    }
    proof {
        lemma_ws_run_bound(l@, g + h);
    }
    let k = g + h + ws_run_x(l, g + h);
    if !(k < l.len() && k + 1 < l.len() && l[k] == '}' && l[k + 1] == ',') {
        return None;
    }
    Some((subvec(l, a + 1, b), subvec(l, d, e)))
}

fn row_capture_x(l: &Vec<char>) -> (r: Option<(Vec<char>, Vec<char>)>)
    ensures
        match r {
            Some(p) => row_capture_from(l@, 0) == Some((p.0@, p.1@)),
            None => row_capture_from(l@, 0) is None,
        },
{
    let mut i: usize = 0;
    while i < l.len()
        invariant
            0 <= i <= l.len(),
            row_capture_from(l@, 0) == row_capture_from(l@, i as int),
        decreases l.len() - i,
    {
        let m = row_match_at_x(l, i);
        if m.is_some() {
            return m;
        }
        i = i + 1;
    }
    None
}

proof fn lemma_group_add_found(gs: Seq<GroupV>, cat: Seq<char>, d: DeclV, idx: int)
    requires
        0 <= idx < gs.len(),
        gs[idx].category == cat,
        forall|m: int| 0 <= m < idx ==> gs[m].category != cat,
    ensures
        group_add(gs, cat, d) == gs.update(
            idx,
            GroupV { category: gs[idx].category, decls: gs[idx].decls.push(d) },
        ),
    decreases gs.len(),
{
    if idx == 0 {
        assert(group_add(gs, cat, d) =~= gs.update(
            0,
            GroupV { category: gs[0].category, decls: gs[0].decls.push(d) },
        ));
    } else {
        lemma_group_add_found(gs.drop_first(), cat, d, idx - 1);
        assert(group_add(gs, cat, d) =~= gs.update(
            idx,
            GroupV { category: gs[idx].category, decls: gs[idx].decls.push(d) },
        ));
    }
}

proof fn lemma_group_add_missing(gs: Seq<GroupV>, cat: Seq<char>, d: DeclV)
    requires
        forall|m: int| 0 <= m < gs.len() ==> gs[m].category != cat,
    ensures
        group_add(gs, cat, d) == gs.push(GroupV { category: cat, decls: seq![d] }),
    decreases gs.len(),
{
    if gs.len() == 0 {
        assert(group_add(gs, cat, d) =~= gs.push(GroupV { category: cat, decls: seq![d] }));
    } else {
        lemma_group_add_missing(gs.drop_first(), cat, d);
        assert(group_add(gs, cat, d) =~= gs.push(GroupV { category: cat, decls: seq![d] }));
    }
}

fn group_add_x(gs: &mut Vec<DeclGroup>, cat: &Vec<char>, d: Declaration)
    ensures
        final(gs).deep_view() == group_add(old(gs).deep_view(), cat@, d@),
{
    let ghost old_gs = gs.deep_view();
    let ghost dv = d@;
    let mut idx: usize = 0;
    let cat_str = string_of(cat);
    while idx < gs.len()
        invariant
            0 <= idx <= gs.len(),
            old_gs == gs.deep_view(),
            old_gs == old(gs).deep_view(),
            cat_str@ == cat@,
            dv == d@,
            forall|m: int| 0 <= m < idx ==> old_gs[m].category != cat@,
        decreases gs.len() - idx,
    {
        if str_eq(gs[idx].category.as_str(), cat_str.as_str()) {
            let mut g = gs.remove(idx);
            proof {
                assert(g.category@ == old_gs[idx as int].category);
                assert(g.decls.deep_view() =~~= old_gs[idx as int].decls);
            }
            let ghost dd = d;
            let ghost pre_decls = g.decls@;
            g.decls.push(d);
            proof {
                assert(g.decls@ =~= pre_decls.push(dd));
                assert(dd.deep_view() =~~= dv);
                assert(g.decls.deep_view() =~~= old_gs[idx as int].decls.push(dv));
            }
            let ghost gv = g.deep_view();
            gs.insert(idx, g);
            proof {
                lemma_group_add_found(old_gs, cat@, dv, idx as int);
                assert(gv =~~= GroupV {
                    category: old_gs[idx as int].category,
                    decls: old_gs[idx as int].decls.push(dv),
                });
                assert(gs.deep_view() =~~= old_gs.update(idx as int, gv));
            }
            return ;
        }
        idx = idx + 1;
    }
    let mut decls: Vec<Declaration> = Vec::new();
    decls.push(d);
    let g = DeclGroup { category: cat_str, decls };
    let ghost gv = g.deep_view();
    gs.push(g);
    proof {
        lemma_group_add_missing(old_gs, cat@, dv);
        assert(gv =~~= GroupV { category: cat@, decls: seq![dv] });
        assert(gs.deep_view() =~~= old_gs.push(gv));
    }
}

fn decl_line_step_x(table: Table, funcs: Vec<DeclGroup>, meths: Vec<DeclGroup>, line: &Vec<char>)
    -> (r: (Table, Vec<DeclGroup>, Vec<DeclGroup>))
    ensures
        ({
            let st2 = decl_line_step(
                ScanV { table, functions: funcs.deep_view(), methods: meths.deep_view() },
                line@,
            );
            r.0 == st2.table && r.1.deep_view() == st2.functions && r.2.deep_view() == st2.methods
        }),
{
    proof {
        reveal_strlit("//");
        reveal_strlit("scriptFunctions[]");
        reveal_strlit("scriptMethods[]");
        reveal_strlit("test");
        reveal_strlit("gsc");
    }
    let t = trim_vec(line);
    let slashes = chars_of("//");
    if match_at_x(&t, &slashes, 0) {
        return (table, funcs, meths);
    }
    let fmark = chars_of("scriptFunctions[]");
    if contains_x(&t, &fmark) {
        return (Table::Functions, funcs, meths);
    }
    let mmark = chars_of("scriptMethods[]");
    if contains_x(&t, &mmark) {
        return (Table::Methods, funcs, meths);
    }
    let tmark = chars_of("test");
    if table == Table::Outside || contains_x(&t, &tmark) {
        return (table, funcs, meths);
    }
    match row_capture_x(&t) {
        Some((sname, sym)) => {
            let parts = split_char_x(&sym, '_');
            let prefix = chars_of("gsc");
            proof {
                assert forall|m: int| 0 <= m < parts@.len() implies parts.deep_view()[m]
                    == parts@[m]@ by {
                    assert(parts@[m].deep_view() =~= parts@[m]@);
                }
            }
            if parts.len() >= 2 && crate::text::vec_eq(&parts[0], &prefix) {
                let d = Declaration {
                    name: string_of(&sym),
                    script_name: string_of(&sname),
                    category: string_of(&parts[1]),
                };
                if table == Table::Functions {
                    let mut fs = funcs;
                    group_add_x(&mut fs, &parts[1], d);
                    (table, fs, meths)
                } else {
                    let mut ms = meths;
                    group_add_x(&mut ms, &parts[1], d);
                    (table, funcs, ms)
                }
            } else {
                (table, funcs, meths)
            }
        },
        None => (table, funcs, meths),
    }
}

/// Scans a declaration-table file: the declarations of the functions
/// table and of the methods table, grouped per category in first-seen
/// order. Comment lines, lines mentioning the test-harness marker,
/// and malformed rows are skipped without error.
pub fn scan_declarations(code: &str) -> (r: (Vec<DeclGroup>, Vec<DeclGroup>))
    ensures
        r.0.deep_view() == spec_scan_declarations(code@).functions,
        r.1.deep_view() == spec_scan_declarations(code@).methods,
{
    let v = chars_of(code);
    let lines = lines_of_x(&v);
    let mut table = Table::Outside;
    let mut funcs: Vec<DeclGroup> = Vec::new();
    let mut meths: Vec<DeclGroup> = Vec::new();
    let mut i: usize = 0;
    proof {
        assert(funcs.deep_view() =~= Seq::<GroupV>::empty());
        assert(meths.deep_view() =~= Seq::<GroupV>::empty());
    }
    while i < lines.len()
        invariant
            0 <= i <= lines.len(),
            lines.deep_view() == lines_of(v@),
            spec_scan_declarations(v@) == decl_scan(
                lines.deep_view(),
                i as int,
                ScanV { table, functions: funcs.deep_view(), methods: meths.deep_view() },
            ),
        decreases lines.len() - i,
    {
        proof {
            assert(lines@[i as int].deep_view() =~= lines@[i as int]@);
            assert(lines.deep_view()[i as int] == lines@[i as int].deep_view());
        }
        let (t2, f2, m2) = decl_line_step_x(table, funcs, meths, &lines[i]);
        table = t2;
        funcs = f2;
        meths = m2;
        i = i + 1;
    }
    (funcs, meths)
}

// ------------------------------------------------------------------
// Body extraction
// ------------------------------------------------------------------

/// Brace-depth body collection from index `i` at depth `depth`: each
/// character is collected, `{` raises and `}` lowers the depth, and
/// the scan stops at depth zero or at the end of input; the last
/// collected character (the closing brace when one was found) is
/// dropped. A flat scan with no awareness of strings or comments:
/// literal braces inside string or comment text corrupt the match, an
/// accepted limitation of the conventionally formatted input.
pub open spec fn brace_scan(s: Seq<char>, i: int, depth: int, acc: Seq<char>) -> Seq<char>
    decreases s.len() - i,
{
    if i < 0 || i >= s.len() || depth <= 0 {
        if acc.len() > 0 {
            acc.drop_last()
        } else {
            acc
        }
    } else {
        let d2 = if s[i] == '{' {
            depth + 1
        } else if s[i] == '}' {
            depth - 1
        } else {
            depth
        };
        brace_scan(s, i + 1, d2, acc.push(s[i]))
    }
}

/// An implementation header matched at `i`: `void`, whitespace, the
/// function name word, optional whitespace, a parenthesized argument
/// text, then optional whitespace, an optional line comment running to
/// the end of its line, optional whitespace and the opening brace.
/// Yields the name and the index just past the brace.
pub open spec fn header_match_at(s: Seq<char>, i: int) -> Option<(Seq<char>, int)> {
    if !match_at(s, "void"@, i) {
        None
    } else {
        let a = i + "void"@.len();
        let wsa = ws_run(s, a);
        if wsa < 1 {
            None
        } else {
            let b = a + wsa;
            let w = word_run(s, b);
            if w < 1 {
                None
            } else {
                let c = b + w + ws_run(s, b + w);
                if !(c < s.len() && s[c] == '(') {
                    None
                } else {
                    let d = c + 1 + not_char_run(s, c + 1, ')');
                    if !(d < s.len()) {
                        None
                    } else {
                        let e = d + 1 + ws_run(s, d + 1);
                        if e < s.len() && s[e] == '{' {
                            Some((s.subrange(b as int, b + w), e + 1))
                        } else if e + 1 < s.len() && s[e] == '/' && s[e + 1] == '/' {
                            let f = e + 2 + not_char_run(s, e + 2, '\n');
                            let g = f + ws_run(s, f as int);
                            if g < s.len() && s[g as int] == '{' {
                                Some((s.subrange(b as int, b + w), g + 1))
                            } else {
                                None
                            }
                        } else {
                            None
                        }
                    }
                }
            }
        }
    }
}

/// The inferred details of every implementation body of a category
/// file, collected by successive leftmost header matches, in scan
/// order; a later body of the same name shadows an earlier one on
/// lookup.
pub open spec fn category_scan(s: Seq<char>, i: int, acc: Seq<DetailV>) -> Seq<DetailV>
    decreases s.len() - i,
{
    if i < 0 || i >= s.len() {
        acc
    } else {
        match header_match_at(s, i) {
            Some((name, e)) => {
                let body = brace_scan(s, e, 1, Seq::empty());
                category_scan(
                    s,
                    e,
                    acc.push(
                        DetailV {
                            name,
                            params: spec_extract_params(body),
                            returns: spec_extract_returns(body),
                        },
                    ),
                )
            },
            None => category_scan(s, i + 1, acc),
        }
    }
}

/// The details map of one category implementation file.
pub open spec fn spec_parse_category(s: Seq<char>) -> Seq<DetailV> {
    category_scan(s, 0, Seq::empty())
}

fn brace_scan_x(v: &Vec<char>, start: usize) -> (r: Vec<char>)
    requires
        start <= v.len(),
    ensures
        r@ == brace_scan(v@, start as int, 1, Seq::empty()),
{
    let mut acc: Vec<char> = Vec::new();
    let mut depth: u128 = 1;
    let mut j: usize = start;
    proof {
        assert(acc@ =~= Seq::<char>::empty());
    }
    while j < v.len() && depth > 0
        invariant
            start <= j <= v.len(),
            depth <= 1 + (j - start),
            brace_scan(v@, start as int, 1, Seq::empty()) == brace_scan(
                v@,
                j as int,
                depth as int,
                acc@,
            ),
        decreases v.len() - j,
    {
        let c = v[j];
        acc.push(c);
        if c == '{' {
            depth = depth + 1;
        } else if c == '}' {
            depth = depth - 1;
        }
        j = j + 1;
    }
    if acc.len() > 0 {
        let _last = acc.pop();
    }
    acc
}

fn header_match_at_x(v: &Vec<char>, lit: &Vec<char>, i: usize) -> (r: Option<(Vec<char>, usize)>)
    requires
        lit@ == "void"@,
        i <= v.len(),
    ensures
        match r {
            Some(p) => header_match_at(v@, i as int) == Some((p.0@, p.1 as int)) && i < p.1
                <= v.len(),
            None => header_match_at(v@, i as int) is None,
        },
{
    proof {
        reveal_strlit("void");
    }
    if !match_at_x(v, lit, i) {
        return None;
    }
    let a = i + lit.len();
    proof {
        lemma_ws_run_bound(v@, a as int);
    }
    let wsa = ws_run_x(v, a);
    if wsa < 1 {
        return None;
    }
    let b = a + wsa;
    proof {
        lemma_word_run_bound(v@, b as int);
    }
    let w = word_run_x(v, b);
    if w < 1 {
        return None;
    }
    proof {
        lemma_ws_run_bound(v@, b + w);
    }
    let c = b + w + ws_run_x(v, b + w);
    if !(c < v.len() && v[c] == '(') {
        return None;
    }
    proof {
        lemma_not_char_run_bound(v@, c + 1, ')');
    }
    let d = c + 1 + not_char_run_x(v, c + 1, ')');
    if !(d < v.len()) {
        return None;
    }
    proof {
        lemma_ws_run_bound(v@, d + 1);
    }
    let e = d + 1 + ws_run_x(v, d + 1);
    if e < v.len() && v[e] == '{' {
        Some((subvec(v, b, b + w), e + 1))
    } else if e < v.len() && e + 1 < v.len() && v[e] == '/' && v[e + 1] == '/' {
        proof {
            lemma_not_char_run_bound(v@, e + 2, '\n');
        }
        let f = e + 2 + not_char_run_x(v, e + 2, '\n');
        proof {
            lemma_ws_run_bound(v@, f as int);
        }
        let g = f + ws_run_x(v, f);
        if g < v.len() && v[g] == '{' {
            Some((subvec(v, b, b + w), g + 1))
        } else {
            None
        }
    } else {
        None
    }
}

/// Extracts every implementation body of a category file by brace
/// counting and infers each body's signature.
pub fn parse_category_details(code: &str) -> (r: Vec<ScriptFunctionDetails>)
    ensures
        r.deep_view() == spec_parse_category(code@),
{
    let v = chars_of(code);
    let lit = chars_of("void");
    let mut out: Vec<ScriptFunctionDetails> = Vec::new();
    let mut i: usize = 0;
    proof {
        assert(out.deep_view() =~= Seq::<DetailV>::empty());
    }
    while i < v.len()
        invariant
            lit@ == "void"@,
            0 <= i <= v.len(),
            spec_parse_category(v@) == category_scan(v@, i as int, out.deep_view()),
        decreases v.len() - i,
    {
        match header_match_at_x(&v, &lit, i) {
            Some((name, e)) => {
                let body = brace_scan_x(&v, e);
                let body_str = string_of(&body);
                let body_params = extract_params(body_str.as_str());
                let body_returns = extract_return_types(body_str.as_str());
                let det = ScriptFunctionDetails {
                    name: string_of(&name),
                    params: body_params,
                    returns: body_returns,
                };
                let ghost old_out = out.deep_view();
                out.push(det);
                proof {
                    assert(out.deep_view() =~~= old_out.push(
                        DetailV {
                            name: name@,
                            params: spec_extract_params(body@),
                            returns: spec_extract_returns(body@),
                        },
                    ));
                }
                i = e;
            },
            None => {
                i = i + 1;
            },
        }
    }
    out
}

// ------------------------------------------------------------------
// Registry merge
// ------------------------------------------------------------------

/// The key a registry entry is stored under: the public name for the
/// methods registry, the internal symbol for the functions registry.
pub open spec fn entry_key(f: FuncV, by_script: bool) -> Seq<char> {
    if by_script {
        f.script_name
    } else {
        f.name
    }
}

/// An entry placed into a key-sorted entry list: an entry with an
/// equal key is replaced, otherwise the new entry enters at its
/// ordered position.
pub open spec fn entries_insert(es: Seq<FuncV>, f: FuncV, by_script: bool) -> Seq<FuncV>
    decreases es.len(),
{
    if es.len() == 0 {
        seq![f]
    } else if entry_key(f, by_script) == entry_key(es[0], by_script) {
        seq![f] + es.drop_first()
    } else if lex_lt(entry_key(f, by_script), entry_key(es[0], by_script)) {
        seq![f] + es
    } else {
        seq![es[0]] + entries_insert(es.drop_first(), f, by_script)
    }
}

/// The details entry for `name`, the last scanned winning over
/// earlier ones of the same name.
pub open spec fn lookup_detail(ds: Seq<DetailV>, name: Seq<char>) -> Option<DetailV>
    decreases ds.len(),
{
    if ds.len() == 0 {
        None
    } else if ds.last().name == name {
        Some(ds.last())
    } else {
        lookup_detail(ds.drop_last(), name)
    }
}

/// The registry entries of one category: each declaration whose
/// internal symbol has a scanned body joins that body's inferred
/// signature; a declaration without a body is dropped silently.
pub open spec fn merge_scan(
    decls: Seq<DeclV>,
    details: Seq<DetailV>,
    by_script: bool,
    i: int,
    acc: Seq<FuncV>,
) -> Seq<FuncV>
    decreases decls.len() - i,
{
    if i < 0 || i >= decls.len() {
        acc
    } else {
        let acc2 = match lookup_detail(details, decls[i].name) {
            Some(det) => entries_insert(
                acc,
                FuncV {
                    name: decls[i].name,
                    script_name: decls[i].script_name,
                    params: det.params,
                    returns: det.returns,
                },
                by_script,
            ),
            None => acc,
        };
        merge_scan(decls, details, by_script, i + 1, acc2)
    }
}

/// The merged, key-sorted registry of one category.
pub open spec fn spec_merge(decls: Seq<DeclV>, details: Seq<DetailV>, by_script: bool) -> Seq<
    FuncV,
> {
    merge_scan(decls, details, by_script, 0, Seq::empty())
}

/// A registry entry list in strictly ascending key order (so with no
/// duplicate key).
pub open spec fn entries_sorted(es: Seq<FuncV>, by: bool) -> bool {
    forall|a: int, b: int|
        0 <= a < b < es.len() ==> lex_lt(entry_key(es[a], by), entry_key(es[b], by))
}

proof fn entries_pos(es: Seq<FuncV>, key: Seq<char>, by: bool) -> (idx: int)
    ensures
        0 <= idx <= es.len(),
        forall|m: int| 0 <= m < idx ==> lex_lt(entry_key(es[m], by), key),
        idx < es.len() ==> !lex_lt(entry_key(es[idx as int], by), key),
    decreases es.len(),
{
    if es.len() == 0 {
        0
    } else if lex_lt(entry_key(es[0], by), key) {
        let t = entries_pos(es.drop_first(), key, by);
        assert forall|m: int| 0 <= m < t + 1 implies lex_lt(entry_key(es[m], by), key) by {
            if m > 0 {
                assert(es.drop_first()[m - 1] == es[m]);
            }
        }
        if t + 1 < es.len() {
            assert(es.drop_first()[t] == es[t + 1]);
        }
        t + 1
    } else {
        0
    }
}

proof fn lemma_entries_insert_sorted(es: Seq<FuncV>, f: FuncV, by: bool)
    requires
        entries_sorted(es, by),
    ensures
        entries_sorted(entries_insert(es, f, by), by),
{
    let idx = entries_pos(es, entry_key(f, by), by);
    lemma_entries_insert_split(es, f, by, idx);
    if idx < es.len() && entry_key(es[idx], by) == entry_key(f, by) {
        let r = es.update(idx, f);
        assert forall|a: int, b: int| 0 <= a < b < r.len() implies lex_lt(
            entry_key(r[a], by),
            entry_key(r[b], by),
        ) by {
            if a == idx || b == idx {
                assert(lex_lt(entry_key(es[a], by), entry_key(es[b], by)));
            }
        }
    } else {
        if idx < es.len() {
            crate::text::lemma_lex_le_total(entry_key(f, by), entry_key(es[idx], by));
            assert(lex_lt(entry_key(f, by), entry_key(es[idx], by)));
        }
        let r = es.insert(idx, f);
        assert(r =~= es.take(idx) + seq![f] + es.skip(idx));
        assert forall|a: int, b: int| 0 <= a < b < r.len() implies lex_lt(
            entry_key(r[a], by),
            entry_key(r[b], by),
        ) by {
            if a < idx {
                assert(r[a] == es[a]);
            } else if a == idx {
                assert(r[a] == f);
            } else {
                assert(r[a] == es[a - 1]);
            }
            if b < idx {
                assert(r[b] == es[b]);
            } else if b == idx {
                assert(r[b] == f);
            } else {
                assert(r[b] == es[b - 1]);
            }
            if b == idx {
                assert(lex_lt(entry_key(r[a], by), entry_key(f, by)));
            } else if a == idx {
                assert(b > idx);
                if b - 1 == idx {
                    assert(lex_lt(entry_key(f, by), entry_key(es[idx], by)));
                } else {
                    assert(lex_lt(entry_key(es[idx], by), entry_key(es[b - 1], by)));
                    crate::text::lemma_lex_lt_trans(
                        entry_key(f, by),
                        entry_key(es[idx], by),
                        entry_key(es[b - 1], by),
                    );
                }
            } else if a < idx && b > idx {
                if b - 1 == a {
                    assert(a == idx - 1 && b == idx + 1);
                    assert(lex_lt(entry_key(es[a], by), entry_key(f, by)));
                    crate::text::lemma_lex_lt_trans(
                        entry_key(es[a], by),
                        entry_key(f, by),
                        entry_key(es[idx], by),
                    );
                } else {
                    assert(lex_lt(entry_key(es[a], by), entry_key(es[b - 1], by)));
                }
            }
        }
    }
}

proof fn lemma_merge_scan_sorted(
    decls: Seq<DeclV>,
    details: Seq<DetailV>,
    by: bool,
    i: int,
    acc: Seq<FuncV>,
)
    requires
        entries_sorted(acc, by),
    ensures
        entries_sorted(merge_scan(decls, details, by, i, acc), by),
    decreases decls.len() - i,
{
    if !(i < 0 || i >= decls.len()) {
        match lookup_detail(details, decls[i].name) {
            Some(det) => {
                let f = FuncV {
                    name: decls[i].name,
                    script_name: decls[i].script_name,
                    params: det.params,
                    returns: det.returns,
                };
                lemma_entries_insert_sorted(acc, f, by);
                lemma_merge_scan_sorted(decls, details, by, i + 1, entries_insert(acc, f, by));
            },
            None => {
                lemma_merge_scan_sorted(decls, details, by, i + 1, acc);
            },
        }
    }
}

/// Law: a merged registry is in strictly ascending key order — the
/// functions registry by internal symbol, the methods registry by
/// public name — so iteration order is the keys' order and no key
/// appears twice.
pub proof fn lemma_merge_sorted(decls: Seq<DeclV>, details: Seq<DetailV>, by: bool)
    ensures
        entries_sorted(spec_merge(decls, details, by), by),
{
    lemma_merge_scan_sorted(decls, details, by, 0, Seq::empty());
}

/// `e` carries the identity of one of the declarations in `decls`.
pub open spec fn entry_from_decl(e: FuncV, decls: Seq<DeclV>) -> bool {
    exists|m: int|
        0 <= m < decls.len() && decls[m].name == e.name && decls[m].script_name == e.script_name
}

proof fn lemma_entries_insert_elems(es: Seq<FuncV>, f: FuncV, by: bool)
    ensures
        forall|k: int|
            0 <= k < entries_insert(es, f, by).len() ==> entries_insert(es, f, by)[k] == f
                || es.contains(#[trigger] entries_insert(es, f, by)[k]),
    decreases es.len(),
{
    let r = entries_insert(es, f, by);
    if es.len() == 0 {
    } else if entry_key(f, by) == entry_key(es[0], by) {
        assert forall|k: int| 0 <= k < r.len() implies r[k] == f || es.contains(#[trigger] r[k]) by {
            if k > 0 {
                assert(r[k] == es[k]);
            }
        }
    } else if lex_lt(entry_key(f, by), entry_key(es[0], by)) {
        assert forall|k: int| 0 <= k < r.len() implies r[k] == f || es.contains(#[trigger] r[k]) by {
            if k > 0 {
                assert(r[k] == es[k - 1]);
            }
        }
    } else {
        lemma_entries_insert_elems(es.drop_first(), f, by);
        let rt = entries_insert(es.drop_first(), f, by);
        assert forall|k: int| 0 <= k < r.len() implies r[k] == f || es.contains(#[trigger] r[k]) by {
            if k == 0 {
                assert(es.contains(es[0]));
            } else {
                assert(r[k] == rt[k - 1]);
                if rt[k - 1] != f {
                    let m = choose|m: int|
                        0 <= m < es.drop_first().len() && es.drop_first()[m] == rt[k - 1];
                    assert(es[m + 1] == rt[k - 1]);
                }
            }
        }
    }
}

proof fn lemma_merge_scan_from(
    decls: Seq<DeclV>,
    details: Seq<DetailV>,
    by: bool,
    i: int,
    acc: Seq<FuncV>,
)
    requires
        forall|k: int| 0 <= k < acc.len() ==> entry_from_decl(#[trigger] acc[k], decls),
    ensures
        forall|k: int|
            0 <= k < merge_scan(decls, details, by, i, acc).len() ==> entry_from_decl(
                #[trigger] merge_scan(decls, details, by, i, acc)[k],
                decls,
            ),
    decreases decls.len() - i,
{
    if i < 0 || i >= decls.len() {
    } else {
        match lookup_detail(details, decls[i].name) {
            Some(det) => {
                let f = FuncV {
                    name: decls[i].name,
                    script_name: decls[i].script_name,
                    params: det.params,
                    returns: det.returns,
                };
                assert(entry_from_decl(f, decls));
                lemma_entries_insert_elems(acc, f, by);
                let acc2 = entries_insert(acc, f, by);
                assert forall|k: int| 0 <= k < acc2.len() implies entry_from_decl(
                    #[trigger] acc2[k],
                    decls,
                ) by {
                    if acc2[k] != f {
                        let m = choose|m: int| 0 <= m < acc.len() && acc[m] == acc2[k];
                        assert(entry_from_decl(acc[m], decls));
                    }
                }
                lemma_merge_scan_from(decls, details, by, i + 1, acc2);
                assert(merge_scan(decls, details, by, i, acc) == merge_scan(
                    decls,
                    details,
                    by,
                    i + 1,
                    acc2,
                ));
            },
            None => {
                lemma_merge_scan_from(decls, details, by, i + 1, acc);
                assert(merge_scan(decls, details, by, i, acc) == merge_scan(
                    decls,
                    details,
                    by,
                    i + 1,
                    acc,
                ));
            },
        }
    }
}

/// Law: every merged registry entry stems from one of the scanned
/// declarations — its internal symbol and public name are that
/// declaration's. Together with `lemma_scanner_categories`, no row
/// that failed the pattern or the category-token test reaches any
/// registry.
pub proof fn lemma_merge_from_declarations(decls: Seq<DeclV>, details: Seq<DetailV>, by: bool)
    ensures
        forall|k: int|
            0 <= k < spec_merge(decls, details, by).len() ==> entry_from_decl(
                #[trigger] spec_merge(decls, details, by)[k],
                decls,
            ),
{
    lemma_merge_scan_from(decls, details, by, 0, Seq::empty());
}

fn lookup_detail_idx(ds: &Vec<ScriptFunctionDetails>, name: &str) -> (r: Option<usize>)
    ensures
        match r {
            Some(idx) => idx < ds.len() && lookup_detail(ds.deep_view(), name@) == Some(
                ds.deep_view()[idx as int],
            ),
            None => lookup_detail(ds.deep_view(), name@) is None,
        },
{
    let mut j: usize = ds.len();
    proof {
        assert(ds.deep_view().take(ds@.len() as int) =~= ds.deep_view());
    }
    while j > 0
        invariant
            0 <= j <= ds.len(),
            lookup_detail(ds.deep_view(), name@) == lookup_detail(
                ds.deep_view().take(j as int),
                name@,
            ),
        decreases j,
    {
        proof {
            assert(ds.deep_view().take(j as int).last() == ds.deep_view()[j - 1]);
        }
        if str_eq(ds[j - 1].name.as_str(), name) {
            return Some(j - 1);
        }
        proof {
            assert(ds.deep_view().take(j as int).drop_last() =~= ds.deep_view().take(j - 1));
        }
        j = j - 1;
    }
    None
}

fn clone_params(ps: &Vec<ScriptParameter>) -> (r: Vec<ScriptParameter>)
    ensures
        r.deep_view() == ps.deep_view(),
{
    let mut r: Vec<ScriptParameter> = Vec::new();
    let mut i: usize = 0;
    while i < ps.len()
        invariant
            0 <= i <= ps.len(),
            r.deep_view() =~~= ps.deep_view().take(i as int),
        decreases ps.len() - i,
    {
        let ghost old_r = r.deep_view();
        r.push(
            ScriptParameter {
                param_type: ps[i].param_type.clone(),
                param_name: ps[i].param_name.clone(),
            },
        );
        proof {
            assert(r.deep_view() =~~= old_r.push(ps.deep_view()[i as int]));
            assert(r.deep_view() =~~= ps.deep_view().take(i + 1 as int));
        }
        i = i + 1;
    }
    proof {
        assert(ps.deep_view().take(ps@.len() as int) =~= ps.deep_view());
    }
    r
}

fn clone_strings(v: &Vec<String>) -> (r: Vec<String>)
    ensures
        r.deep_view() == v.deep_view(),
{
    let mut r: Vec<String> = Vec::new();
    let mut i: usize = 0;
    while i < v.len()
        invariant
            0 <= i <= v.len(),
            r.deep_view() =~~= v.deep_view().take(i as int),
        decreases v.len() - i,
    {
        let ghost old_r = r.deep_view();
        r.push(v[i].clone());
        proof {
            assert(r.deep_view() =~~= old_r.push(v.deep_view()[i as int]));
            assert(r.deep_view() =~~= v.deep_view().take(i + 1 as int));
        }
        i = i + 1;
    }
    proof {
        assert(v.deep_view().take(v@.len() as int) =~= v.deep_view());
    }
    r
}

proof fn lemma_entries_insert_split(es: Seq<FuncV>, f: FuncV, by: bool, idx: int)
    requires
        0 <= idx <= es.len(),
        forall|m: int| 0 <= m < idx ==> lex_lt(entry_key(es[m], by), entry_key(f, by)),
    ensures
        (idx < es.len() && entry_key(es[idx], by) == entry_key(f, by)) ==> entries_insert(
            es,
            f,
            by,
        ) == es.update(idx, f),
        (idx == es.len() || (entry_key(es[idx], by) != entry_key(f, by) && !lex_lt(
            entry_key(es[idx], by),
            entry_key(f, by),
        ))) ==> entries_insert(es, f, by) == es.insert(idx, f),
    decreases es.len(),
{
    if idx == 0 {
        if es.len() == 0 {
            assert(entries_insert(es, f, by) =~= es.insert(0, f));
        } else {
            if entry_key(es[0], by) == entry_key(f, by) {
                assert(seq![f] + es.drop_first() =~= es.update(0, f));
            } else if !lex_lt(entry_key(es[0], by), entry_key(f, by)) {
                crate::text::lemma_lex_le_total(entry_key(f, by), entry_key(es[0], by));
                assert(lex_lt(entry_key(f, by), entry_key(es[0], by)));
                assert(seq![f] + es =~= es.insert(0, f));
            }
        }
    } else {
        assert(lex_lt(entry_key(es[0], by), entry_key(f, by)));
        if lex_lt(entry_key(f, by), entry_key(es[0], by)) {
            crate::text::lemma_lex_le_antisym(entry_key(f, by), entry_key(es[0], by));
            assert(false);
        }
        assert forall|m: int| 0 <= m < idx - 1 implies lex_lt(
            entry_key(es.drop_first()[m], by),
            entry_key(f, by),
        ) by {
            assert(es.drop_first()[m] == es[m + 1]);
        }
        lemma_entries_insert_split(es.drop_first(), f, by, idx - 1);
        if idx < es.len() && entry_key(es[idx], by) == entry_key(f, by) {
            assert(es.drop_first()[idx - 1] == es[idx]);
            assert(seq![es[0]] + es.drop_first().update(idx - 1, f) =~= es.update(idx, f));
        } else if idx == es.len() || (entry_key(es[idx], by) != entry_key(f, by) && !lex_lt(
            entry_key(es[idx], by),
            entry_key(f, by),
        )) {
            if idx < es.len() {
                assert(es.drop_first()[idx - 1] == es[idx]);
            }
            assert(seq![es[0]] + es.drop_first().insert(idx - 1, f) =~= es.insert(idx, f));
        }
    }
}

fn entry_key_chars(f: &ScriptFunction, by_script: bool) -> (r: Vec<char>)
    ensures
        r@ == entry_key(f@, by_script),
{
    if by_script {
        chars_of(f.script_name.as_str())
    } else {
        chars_of(f.name.as_str())
    }
}

fn find_insert_pos(es: &Vec<ScriptFunction>, kf: &Vec<char>, by_script: bool) -> (idx: usize)
    ensures
        idx <= es.len(),
        forall|m: int| 0 <= m < idx ==> lex_lt(entry_key(es.deep_view()[m], by_script), kf@),
        idx < es.len() ==> !lex_lt(entry_key(es.deep_view()[idx as int], by_script), kf@),
{
    let mut idx: usize = 0;
    while idx < es.len()
        invariant
            0 <= idx <= es.len(),
            forall|m: int| 0 <= m < idx ==> lex_lt(entry_key(es.deep_view()[m], by_script), kf@),
        decreases es.len() - idx,
    {
        let ke = entry_key_chars(&es[idx], by_script);
        proof {
            assert(es@[idx as int]@ == es.deep_view()[idx as int]);
        }
        if !crate::text::lex_lt_x(&ke, &kf) {
            return idx;
        }
        idx = idx + 1;
    }
    idx
}

fn entries_insert_x(es: &mut Vec<ScriptFunction>, f: ScriptFunction, by_script: bool)
    ensures
        final(es).deep_view() == entries_insert(old(es).deep_view(), f@, by_script),
{
    let ghost fv = f@;
    let ghost old_es = es.deep_view();
    let kf = entry_key_chars(&f, by_script);
    let idx = find_insert_pos(es, &kf, by_script);
    proof {
        lemma_entries_insert_split(old_es, fv, by_script, idx as int);
    }
    if idx < es.len() {
        let ke = entry_key_chars(&es[idx], by_script);
        proof {
            assert(es@[idx as int]@ == old_es[idx as int]);
        }
        if crate::text::vec_eq(&ke, &kf) {
            let _old_entry = es.remove(idx);
            es.insert(idx, f);
            proof {
                assert(es.deep_view() =~~= old_es.update(idx as int, fv));
            }
            return ;
        }
    }
    es.insert(idx, f);
    proof {
        assert(es.deep_view() =~~= old_es.insert(idx as int, fv));
    }
}

/// Merges one category's declarations with the signatures inferred
/// from its implementation file into the key-sorted registry entries
/// of that category. A declaration whose symbol has no scanned body is
/// dropped silently; the inferencer's guarantee that a matched body
/// always carries a non-empty parameter list is proved, so no failing
/// merge path exists.
pub fn merge_category(decls: &Vec<Declaration>, code: &str, by_script_name: bool) -> (r: Vec<
    ScriptFunction,
>)
    ensures
        r.deep_view() == spec_merge(decls.deep_view(), spec_parse_category(code@), by_script_name),
        entries_sorted(r.deep_view(), by_script_name),
{
    proof {
        lemma_merge_sorted(decls.deep_view(), spec_parse_category(code@), by_script_name);
    }
    let details = parse_category_details(code);
    let mut out: Vec<ScriptFunction> = Vec::new();
    let mut i: usize = 0;
    proof {
        assert(out.deep_view() =~= Seq::<FuncV>::empty());
    }
    while i < decls.len()
        invariant
            0 <= i <= decls.len(),
            details.deep_view() == spec_parse_category(code@),
            spec_merge(decls.deep_view(), details.deep_view(), by_script_name) == merge_scan(
                decls.deep_view(),
                details.deep_view(),
                by_script_name,
                i as int,
                out.deep_view(),
            ),
        decreases decls.len() - i,
    {
        proof {
            assert(decls.deep_view()[i as int] == decls@[i as int].deep_view());
        }
        match lookup_detail_idx(&details, decls[i].name.as_str()) {
            Some(idx) => {
                let det = &details[idx];
                let f = ScriptFunction {
                    name: decls[i].name.clone(),
                    script_name: decls[i].script_name.clone(),
                    params: clone_params(&det.params),
                    returns: clone_strings(&det.returns),
                };
                proof {
                    assert(f@ =~~= FuncV {
                        name: decls.deep_view()[i as int].name,
                        script_name: decls.deep_view()[i as int].script_name,
                        params: details.deep_view()[idx as int].params,
                        returns: details.deep_view()[idx as int].returns,
                    });
                }
                entries_insert_x(&mut out, f, by_script_name);
            },
            None => {},
        }
        i = i + 1;
    }
    out
}

} // verus!
