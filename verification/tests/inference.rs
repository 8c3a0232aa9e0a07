use gsc_doc_sync::source_parser::{extract_params, extract_return_types, map_scr_add_to_type};

fn params_of(body: &str) -> Vec<(String, String)> {
    extract_params(body)
        .into_iter()
        .map(|p| (p.param_type, p.param_name))
        .collect()
}

#[test]
fn params_two_codes_two_args() {
    let got = params_of("    stackGetParams(\"is\", &a, &b);\n    Scr_AddBool(x);");
    assert_eq!(
        got,
        vec![
            ("int".to_string(), "a".to_string()),
            ("string".to_string(), "b".to_string())
        ]
    );
}

#[test]
fn params_all_code_letters() {
    let got = params_of("stackGetParams(\"ivfscl\", a, b, c, d, e, f)");
    let types: Vec<&str> = got.iter().map(|p| p.0.as_str()).collect();
    assert_eq!(
        types,
        vec![
            "int",
            "vector",
            "float",
            "string",
            "const string",
            "localized string"
        ]
    );
}

#[test]
fn params_unrecognized_code_maps_to_unknown() {
    let got = params_of("stackGetParams(\"x\", &v)");
    assert_eq!(got, vec![("unknown".to_string(), "v".to_string())]);
}

#[test]
fn params_absent_call_yields_single_sentinel() {
    let got = params_of("int x = 3;\nreturn;");
    assert_eq!(got, vec![("unknown".to_string(), "unknown".to_string())]);
    assert_eq!(extract_params("").len(), 1);
}

#[test]
fn params_truncate_to_shorter_list() {
    // three codes, two arguments: pairing truncates to two
    let got = params_of("stackGetParams(\"isf\", &a, &b)");
    assert_eq!(
        got,
        vec![
            ("int".to_string(), "a".to_string()),
            ("string".to_string(), "b".to_string())
        ]
    );
    // two codes, three arguments: also two
    let got2 = params_of("stackGetParams(\"is\", &a, &b, &c)");
    assert_eq!(got2.len(), 2);
}

#[test]
fn params_strip_leading_ampersands() {
    let got = params_of("stackGetParams(\"i\", &&ref)");
    assert_eq!(got, vec![("int".to_string(), "ref".to_string())]);
}

#[test]
fn returns_distinct_kinds_collapse_duplicates() {
    let got = extract_return_types("Scr_AddBool(a); Scr_AddInt(b); Scr_AddBool(c);");
    assert_eq!(got, vec!["bool".to_string(), "int".to_string()]);
}

#[test]
fn returns_absent_yields_unknown() {
    let got = extract_return_types("int x = 0;");
    assert_eq!(got, vec!["unknown".to_string()]);
}

#[test]
fn returns_unmapped_kind_ignored() {
    let got = extract_return_types("Scr_AddWeird(a);");
    assert_eq!(got, vec!["unknown".to_string()]);
}

#[test]
fn returns_all_seven_kinds() {
    let body = "Scr_AddBool(a); Scr_AddInt(b); Scr_AddFloat(c); Scr_AddString(d); \
                Scr_AddArray(e); Scr_AddVector(f); Scr_AddObject(g);";
    let got = extract_return_types(body);
    assert_eq!(
        got,
        vec!["bool", "int", "float", "string", "array", "vector", "object"]
            .into_iter()
            .map(String::from)
            .collect::<Vec<_>>()
    );
}

#[test]
fn returns_whitespace_before_paren_accepted() {
    let got = extract_return_types("Scr_AddFloat  (x)");
    assert_eq!(got, vec!["float".to_string()]);
}

#[test]
fn map_scr_add_table() {
    assert_eq!(map_scr_add_to_type("Scr_AddBool"), Some("bool".to_string()));
    assert_eq!(map_scr_add_to_type("Scr_AddInt"), Some("int".to_string()));
    assert_eq!(
        map_scr_add_to_type("Scr_AddFloat"),
        Some("float".to_string())
    );
    assert_eq!(
        map_scr_add_to_type("Scr_AddString"),
        Some("string".to_string())
    );
    assert_eq!(
        map_scr_add_to_type("Scr_AddArray"),
        Some("array".to_string())
    );
    assert_eq!(
        map_scr_add_to_type("Scr_AddVector"),
        Some("vector".to_string())
    );
    assert_eq!(
        map_scr_add_to_type("Scr_AddObject"),
        Some("object".to_string())
    );
    assert_eq!(map_scr_add_to_type("Scr_AddUndefined"), None);
    assert_eq!(map_scr_add_to_type("anything"), None);
}
