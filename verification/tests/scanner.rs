use gsc_doc_sync::source_parser::{merge_category, parse_category_details, scan_declarations};

const TABLE: &str = "\
// native script surface\n\
static script_function_s scriptFunctions[] = {\n\
{\"foo\", gsc_util_bar, 0},\n\
{ \"zoo\", gsc_util_aaa , 12 },\n\
{\"broken\" gsc_util_broken, 0},\n\
{\"plain\", nothing, 0},\n\
};\n\
static script_function_s scriptMethods[] = {\n\
{\"mfoo\", gsc_player_kick, 1},\n\
};\n";

#[test]
fn scanner_groups_by_second_token() {
    let (funcs, meths) = scan_declarations(TABLE);
    assert_eq!(funcs.len(), 1);
    assert_eq!(funcs[0].category, "util");
    let names: Vec<&str> = funcs[0].decls.iter().map(|d| d.name.as_str()).collect();
    assert_eq!(names, vec!["gsc_util_bar", "gsc_util_aaa"]);
    assert_eq!(funcs[0].decls[0].script_name, "foo");
    assert_eq!(funcs[0].decls[0].category, "util");
    assert_eq!(meths.len(), 1);
    assert_eq!(meths[0].category, "player");
    assert_eq!(meths[0].decls[0].script_name, "mfoo");
}

#[test]
fn scanner_skips_rows_without_prefix_or_second_token() {
    let input = "scriptFunctions[] = {\n\
        {\"a\", other_util_x, 0},\n\
        {\"b\", gsconly, 0},\n\
        };\n";
    let (funcs, meths) = scan_declarations(input);
    assert!(funcs.is_empty());
    assert!(meths.is_empty());
}

#[test]
fn scanner_skips_comment_and_test_marker_lines() {
    let input = "scriptFunctions[] = {\n\
        //{\"c\", gsc_util_c, 0},\n\
        {\"t\", gsc_test_bar, 0},\n\
        {\"k\", gsc_util_keep, 0},\n\
        };\n";
    let (funcs, _) = scan_declarations(input);
    assert_eq!(funcs.len(), 1);
    assert_eq!(funcs[0].decls.len(), 1);
    assert_eq!(funcs[0].decls[0].name, "gsc_util_keep");
}

#[test]
fn scanner_handles_crlf_lines() {
    let input = "scriptFunctions[] = {\r\n{\"w\", gsc_util_w, 0},\r\n};\r\n";
    let (funcs, _) = scan_declarations(input);
    assert_eq!(funcs.len(), 1);
    assert_eq!(funcs[0].decls[0].script_name, "w");
}

#[test]
fn scanner_ignores_rows_outside_tables() {
    let input = "{\"a\", gsc_util_a, 0},\n";
    let (funcs, meths) = scan_declarations(input);
    assert!(funcs.is_empty());
    assert!(meths.is_empty());
}

const UTIL_SRC: &str = "\
// native bindings\n\
void gsc_util_bar(scr_entref_t ref) {\n\
    stackGetParams(\"is\", &a, &b);\n\
    Scr_AddBool(x);\n\
}\n\
void gsc_util_aaa() // helper\n\
{\n\
    Scr_AddInt(n);\n\
}\n";

#[test]
fn body_extraction_and_inference() {
    let details = parse_category_details(UTIL_SRC);
    assert_eq!(details.len(), 2);
    assert_eq!(details[0].name, "gsc_util_bar");
    assert_eq!(details[0].params.len(), 2);
    assert_eq!(details[0].params[0].param_type, "int");
    assert_eq!(details[0].params[0].param_name, "a");
    assert_eq!(details[0].params[1].param_type, "string");
    assert_eq!(details[0].params[1].param_name, "b");
    assert_eq!(details[0].returns, vec!["bool".to_string()]);
    // header with a trailing line comment before the brace
    assert_eq!(details[1].name, "gsc_util_aaa");
    assert_eq!(details[1].returns, vec!["int".to_string()]);
}

#[test]
fn body_extraction_counts_nested_braces() {
    let src = "void gsc_util_deep() {\n    if (a) { b(); { c(); } }\n    Scr_AddFloat(v);\n}\n";
    let details = parse_category_details(src);
    assert_eq!(details.len(), 1);
    assert_eq!(details[0].returns, vec!["float".to_string()]);
}

#[test]
fn declaration_row_with_body_joins_registry() {
    let (funcs, _) = scan_declarations(TABLE);
    let entries = merge_category(&funcs[0].decls, UTIL_SRC, false);
    // functions are keyed and sorted by internal symbol
    assert_eq!(entries.len(), 2);
    assert_eq!(entries[0].name, "gsc_util_aaa");
    assert_eq!(entries[1].name, "gsc_util_bar");
    assert_eq!(entries[1].script_name, "foo");
    assert_eq!(entries[1].params.len(), 2);
    assert_eq!(entries[1].params[0].param_type, "int");
    assert_eq!(entries[1].params[0].param_name, "a");
    assert_eq!(entries[1].params[1].param_type, "string");
    assert_eq!(entries[1].params[1].param_name, "b");
    assert_eq!(entries[1].returns, vec!["bool".to_string()]);
}

#[test]
fn unmatched_declarations_dropped_silently() {
    let (funcs, _) = scan_declarations(TABLE);
    let entries = merge_category(&funcs[0].decls, "void unrelated() { }\n", false);
    assert!(entries.is_empty());
}

#[test]
fn methods_keyed_by_public_name() {
    let table = "scriptMethods[] = {\n\
        {\"zz\", gsc_m_aaa, 0},\n\
        {\"aa\", gsc_m_zzz, 0},\n\
        };\n";
    let src = "void gsc_m_aaa() { Scr_AddInt(a); }\nvoid gsc_m_zzz() { Scr_AddBool(b); }\n";
    let (_, meths) = scan_declarations(table);
    // methods sort by public name: "aa" (gsc_m_zzz) before "zz" (gsc_m_aaa)
    let entries = merge_category(&meths[0].decls, src, true);
    assert_eq!(entries[0].script_name, "aa");
    assert_eq!(entries[0].name, "gsc_m_zzz");
    assert_eq!(entries[1].script_name, "zz");
    // the same declarations keyed as functions sort the other way round
    let as_funcs = merge_category(&meths[0].decls, src, false);
    assert_eq!(as_funcs[0].name, "gsc_m_aaa");
}

#[test]
fn duplicate_key_last_write_wins() {
    let table = "scriptFunctions[] = {\n\
        {\"first\", gsc_u_same, 0},\n\
        {\"second\", gsc_u_same, 0},\n\
        };\n";
    let src = "void gsc_u_same() { Scr_AddInt(a); }\n";
    let (funcs, _) = scan_declarations(table);
    let entries = merge_category(&funcs[0].decls, src, false);
    assert_eq!(entries.len(), 1);
    assert_eq!(entries[0].script_name, "second");
}

#[test]
fn duplicate_body_last_definition_wins() {
    let table = "scriptFunctions[] = {\n{\"f\", gsc_u_f, 0},\n};\n";
    let src = "void gsc_u_f() { Scr_AddInt(a); }\nvoid gsc_u_f() { Scr_AddBool(b); }\n";
    let (funcs, _) = scan_declarations(table);
    let entries = merge_category(&funcs[0].decls, src, false);
    assert_eq!(entries.len(), 1);
    assert_eq!(entries[0].returns, vec!["bool".to_string()]);
}
