use ske::buck::{normalize_target, parse_targets, targets_from_json, Json, Kind, Target};

#[test]
fn parses_buck2_targets_json() {
    let json = br#"[
            {
                "name": "ske",
                "buck.type": "prelude//rules.bzl:rust_library",
                "buck.package": "root//crates/ske",
                "srcs": ["root//crates/ske/src/lib.rs", "root//crates/ske/src/buck.rs"],
                "deps": ["root//third-party:serde_json"],
                "visibility": ["PUBLIC"]
            },
            {
                "name": "skyde",
                "buck.type": "prelude//rules.bzl:rust_binary",
                "buck.package": "root//crates/skyde"
            }
        ]"#;
    let ts = parse_targets(json).unwrap();
    assert_eq!(ts.len(), 2);
    assert_eq!(ts[0].label, "//crates/ske:ske");
    assert_eq!(ts[0].package, "//crates/ske");
    assert_eq!(ts[0].kind(), Kind::Library);
    assert_eq!(ts[0].rule_name(), "rust_library");
    assert_eq!(ts[0].srcs, ["src/lib.rs", "src/buck.rs"]);
    assert_eq!(ts[0].deps, ["//third-party:serde_json"]);
    assert_eq!(ts[1].kind(), Kind::Binary);
    assert!(ts[1].deps.is_empty());
}

#[test]
fn bad_json_is_refused() {
    let e = parse_targets(b"not json").unwrap_err();
    assert!(e.starts_with("bad json from buck2: "));
    assert_eq!(
        parse_targets(b"{}").unwrap_err(),
        "expected a json array from buck2 targets"
    );
}

#[test]
fn missing_fields_read_as_question_marks() {
    let ts = parse_targets(br#"[{"srcs": [1, "a"]}]"#).unwrap();
    assert_eq!(ts[0].name, "?");
    assert_eq!(ts[0].label, "?:?");
    assert_eq!(ts[0].srcs, ["a"]);
}

fn target(rule_type: &str) -> Target {
    Target {
        label: String::new(),
        name: String::new(),
        package: String::new(),
        rule_type: rule_type.to_string(),
        srcs: vec![],
        deps: vec![],
        visibility: vec![],
    }
}

#[test]
fn kinds_from_rule_types() {
    assert_eq!(target("rust_test").kind(), Kind::Test);
    assert_eq!(target("cc_binary").kind(), Kind::Binary);
    assert_eq!(target("cc_library").kind(), Kind::Library);
    assert_eq!(target("genrule").kind(), Kind::Other);
    // "test" wins over "binary"
    assert_eq!(target("binary_test").kind(), Kind::Test);
}

#[test]
fn rule_name_without_colon_is_whole() {
    assert_eq!(target("genrule").rule_name(), "genrule");
    assert_eq!(target("a:b:c").rule_name(), "c");
    assert_eq!(target("x:").rule_name(), "");
}

#[test]
fn normalizing_keeps_foreign_cells() {
    let t = normalize_target(
        "n".to_string(),
        "//plain".to_string(),
        "t".to_string(),
        vec!["//plain/x.rs".to_string(), "other//y".to_string()],
        vec!["cell//dep".to_string()],
        vec![],
    );
    assert_eq!(t.label, "//plain:n");
    assert_eq!(t.srcs, ["x.rs", "other//y"]);
    assert_eq!(t.deps, ["cell//dep"]);
}

#[test]
fn targets_from_a_parsed_value() {
    let item = Json::Object(vec![
        ("name".to_string(), Json::Str("a".to_string())),
        ("buck.package".to_string(), Json::Str("cell//p".to_string())),
        ("buck.type".to_string(), Json::Other),
        (
            "deps".to_string(),
            Json::Array(vec![Json::Str("cell//q:b".to_string()), Json::Other]),
        ),
    ]);
    let ts = targets_from_json(Ok(Json::Array(vec![item, Json::Other]))).unwrap();
    assert_eq!(ts.len(), 2);
    assert_eq!(ts[0].label, "//p:a");
    assert_eq!(ts[0].rule_type, "?");
    assert_eq!(ts[0].deps, ["//q:b"]);
    assert_eq!(ts[1].label, "?:?");
    assert_eq!(
        targets_from_json(Err("eof".to_string())).unwrap_err(),
        "bad json from buck2: eof"
    );
    assert_eq!(
        targets_from_json(Ok(Json::Other)).unwrap_err(),
        "expected a json array from buck2 targets"
    );
}
