use gsc_doc_sync::doc_gen::{
    choose_output, gen_template, get_func_sign, reconcile_category, stub_block_name, OutputMode,
};
use gsc_doc_sync::source_parser::{ScriptFunction, ScriptParameter};

fn entry(script_name: &str, params: &[(&str, &str)], rets: &[&str]) -> ScriptFunction {
    ScriptFunction {
        name: format!("gsc_x_{}", script_name),
        script_name: script_name.to_string(),
        params: params
            .iter()
            .map(|(t, n)| ScriptParameter {
                param_type: t.to_string(),
                param_name: n.to_string(),
            })
            .collect(),
        returns: rets.iter().map(|r| r.to_string()).collect(),
    }
}

#[test]
fn sign_is_name_underlined_to_its_length() {
    assert_eq!(get_func_sign("foo"), "foo\n---");
    assert_eq!(get_func_sign("ab"), "ab\n--");
    assert_eq!(get_func_sign(""), "\n");
}

#[test]
fn template_exact_function_block() {
    let f = entry("foo", &[("int", "a"), ("string", "b")], &["bool"]);
    let expected = "\nfoo\n---\n\n.. csv-table:: **Arguments**\n    :header: \"Argument\", \"Type\", \"Description\"\n    :align: left\n\n    \"a\", \"int\", \"description\"\n    \"b\", \"string\", \"description\"\n\n| **Returns** ``bool``\n\nthis is the Description of the function. Explain the usage in detail here\n\n**Example**\n\n.. code-block:: cpp\n    \n    // stub example for dev.\n    // dev. should remove this comment after he is done changing it\n    foo(a, b);\n\n";
    let got = gen_template(&f, false);
    assert!(got.contains("foo\n---"));
    assert_eq!(got, expected);
}

#[test]
fn template_method_block_has_called_on_and_receiver() {
    let m = entry("kick", &[("int", "id")], &["unknown"]);
    let got = gen_template(&m, true);
    assert!(got.contains("| **Called on** ``<some object>``"));
    assert!(got.contains("this is the Description of the method."));
    assert!(got.contains("<some object> kick(id);"));
}

#[test]
fn exact_underline_counts_as_documented() {
    let e = entry("foo", &[], &["bool"]);
    let content = "intro\n\nfoo\n---\nolder text\n";
    let r = reconcile_category(&vec![e], content, "util", false, false).unwrap();
    assert_eq!(r.stubs, "");
    assert!(r.missing.is_empty());
}

#[test]
fn shorter_underline_counts_as_undocumented() {
    let e = entry("foo", &[], &["bool"]);
    let content = "foo\n--\n";
    let r = reconcile_category(&vec![e], content, "util", false, false).unwrap();
    assert!(!r.stubs.is_empty());
    assert!(r.stubs.contains("foo\n---"));
    assert_eq!(r.missing, vec!["foo".to_string()]);
}

#[test]
fn longer_underline_contains_marker_and_counts_as_documented() {
    // substring containment: four dashes contain the three-dash marker
    let e = entry("foo", &[], &["bool"]);
    let content = "foo\n----\n";
    let r = reconcile_category(&vec![e], content, "util", false, false).unwrap();
    assert_eq!(r.stubs, "");
}

#[test]
fn strict_mode_aborts_with_distinct_error_and_no_output() {
    let e = entry("foo", &[], &["bool"]);
    let err = reconcile_category(&vec![e], "", "weapon", false, true).unwrap_err();
    assert_eq!(err.script_name, "foo");
    assert_eq!(err.category, "weapon");
    assert_eq!(
        err.message(),
        "No documentation found for foo in weapon.rst"
    );
}

#[test]
fn strict_mode_stops_at_first_missing_entry() {
    let a = entry("aa", &[], &["bool"]);
    let b = entry("bb", &[], &["bool"]);
    let err = reconcile_category(&vec![a, b], "", "weapon", false, true).unwrap_err();
    assert_eq!(err.script_name, "aa");
}

#[test]
fn reconcile_is_idempotent_after_append() {
    let a = entry("aa", &[("int", "n")], &["bool"]);
    let b = entry("bb", &[], &["int"]);
    let content = "title\n\naa\n-\n\nbb\n-\n";
    let first = reconcile_category(&vec![a, b], content, "util", false, false).unwrap();
    assert_eq!(first.missing.len(), 2);
    // the append writes a newline, the stubs, and a final newline
    let content2 = format!("{}\n{}\n", content, first.stubs);
    let second = reconcile_category(
        &vec![
            entry("aa", &[("int", "n")], &["bool"]),
            entry("bb", &[], &["int"]),
        ],
        &content2,
        "util",
        false,
        false,
    )
    .unwrap();
    assert_eq!(second.stubs, "");
    assert!(second.missing.is_empty());
    // strict mode succeeds too once everything is documented
    assert!(reconcile_category(
        &vec![entry("aa", &[("int", "n")], &["bool"])],
        &content2,
        "util",
        false,
        true
    )
    .is_ok());
}

#[test]
fn reconcile_reruns_render_byte_identical_stubs() {
    let mk = || vec![entry("foo", &[("int", "a")], &["bool"])];
    let r1 = reconcile_category(&mk(), "", "util", false, false).unwrap();
    let r2 = reconcile_category(&mk(), "", "util", false, false).unwrap();
    assert_eq!(r1.stubs, r2.stubs);
}

#[test]
fn stubs_concatenated_in_entry_order() {
    let zz = entry("zz", &[], &["int"]);
    let aa = entry("aa", &[], &["int"]);
    let r = reconcile_category(&vec![zz, aa], "", "util", false, false).unwrap();
    assert_eq!(r.missing, vec!["zz".to_string(), "aa".to_string()]);
    let zz_pos = r.stubs.find("zz\n--").unwrap();
    let aa_pos = r.stubs.find("aa\n--").unwrap();
    assert!(zz_pos < aa_pos);
}

#[test]
fn output_mode_precedence() {
    assert_eq!(choose_output(true, true), OutputMode::SeparateFile);
    assert_eq!(choose_output(true, false), OutputMode::SeparateFile);
    assert_eq!(choose_output(false, true), OutputMode::PreviewOnly);
    assert_eq!(choose_output(false, false), OutputMode::Append);
}

#[test]
fn separate_file_named_after_first_entry() {
    let e = entry("foo", &[], &["bool"]);
    let r = reconcile_category(&vec![e], "", "util", false, false).unwrap();
    assert_eq!(stub_block_name(&r.stubs), Some("foo".to_string()));
    assert_eq!(stub_block_name("   \n\t"), None);
}
