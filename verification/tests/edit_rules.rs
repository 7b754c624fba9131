use ske::edit::{
    add_entry, create_rule, list_entries, list_rules, remove_entry, remove_rule, Error,
    RuleSelector,
};

fn selector(rule: &str, attr: &str) -> RuleSelector {
    RuleSelector {
        rule_name: rule.to_string(),
        attr: attr.to_string(),
        name: None,
    }
}

fn named_selector(rule: &str, attr: &str, name: &str) -> RuleSelector {
    RuleSelector {
        rule_name: rule.to_string(),
        attr: attr.to_string(),
        name: Some(name.to_string()),
    }
}

#[test]
fn list_entries_basic() {
    let source = r#"
rust_binary(
    name = "foo",
    srcs = [
        "main.rs",
        "lib.rs",
    ],
)
"#;
    let sel = selector("rust_binary", "srcs");
    let files = list_entries(source, &sel).unwrap();
    assert_eq!(files, vec!["main.rs", "lib.rs"]);
}

#[test]
fn add_entry_multiline() {
    let source = r#"rust_binary(
    name = "foo",
    srcs = [
        "main.rs",
    ],
)"#;
    let sel = selector("rust_binary", "srcs");
    let result = add_entry(source, &sel, "util.rs").unwrap();
    assert!(result.contains("\"util.rs\""));
    // Verify it parses and has the new file
    let files = list_entries(&result, &sel).unwrap();
    assert_eq!(files, vec!["main.rs", "util.rs"]);
}

#[test]
fn add_entry_empty_list() {
    let source = r#"rust_binary(
    name = "foo",
    srcs = [],
)"#;
    let sel = selector("rust_binary", "srcs");
    let result = add_entry(source, &sel, "main.rs").unwrap();
    let files = list_entries(&result, &sel).unwrap();
    assert_eq!(files, vec!["main.rs"]);
}

#[test]
fn add_entry_already_present() {
    let source = r#"rust_binary(
    name = "foo",
    srcs = ["main.rs"],
)"#;
    let sel = selector("rust_binary", "srcs");
    let err = add_entry(source, &sel, "main.rs").unwrap_err();
    assert!(matches!(err, Error::EntryAlreadyPresent { .. }));
}

#[test]
fn add_multople_already_present() {
    let source = r#"rust_binary(
    name = "foo",
    srcs = [],
)"#;
    let sel = selector("rust_binary", "srcs");
    let result = add_entry(source, &sel, "main0.rs").unwrap();
    let result = add_entry(&result, &sel, "main1.rs").unwrap();
    let result = add_entry(&result, &sel, "main2.rs").unwrap();
    let result = add_entry(&result, &sel, "main3.rs").unwrap();
    let files = list_entries(&result, &sel).unwrap();
    assert_eq!(files, vec!["main0.rs", "main1.rs", "main2.rs", "main3.rs"]);
}

#[test]
fn remove_entry_multiline() {
    let source = r#"rust_binary(
    name = "foo",
    srcs = [
        "main.rs",
        "util.rs",
        "lib.rs",
    ],
)"#;
    let sel = selector("rust_binary", "srcs");
    let result = remove_entry(source, &sel, "util.rs").unwrap();
    let files = list_entries(&result, &sel).unwrap();
    assert_eq!(files, vec!["lib.rs", "main.rs"]);
}

#[test]
fn remove_entry_not_found() {
    let source = r#"rust_binary(
    name = "foo",
    srcs = ["main.rs"],
)"#;
    let sel = selector("rust_binary", "srcs");
    let err = remove_entry(source, &sel, "nope.rs").unwrap_err();
    assert!(matches!(err, Error::EntryNotFound { .. }));
}

#[test]
fn name_selector_disambiguates() {
    let source = r#"
rust_binary(
    name = "foo",
    srcs = ["foo.rs"],
)

rust_binary(
    name = "bar",
    srcs = ["bar.rs"],
)
"#;
    let sel = named_selector("rust_binary", "srcs", "bar");
    let files = list_entries(source, &sel).unwrap();
    assert_eq!(files, vec!["bar.rs"]);
}

#[test]
fn ambiguous_rule_error() {
    let source = r#"
rust_binary(
    name = "foo",
    srcs = ["foo.rs"],
)

rust_binary(
    name = "bar",
    srcs = ["bar.rs"],
)
"#;
    let sel = selector("rust_binary", "srcs");
    let err = list_entries(source, &sel).unwrap_err();
    assert!(matches!(err, Error::AmbiguousRule { count: 2, .. }));
}

#[test]
fn rule_not_found() {
    let source = r#"
cc_binary(
    name = "foo",
    srcs = ["main.cc"],
)
"#;
    let sel = selector("rust_binary", "srcs");
    let err = list_entries(source, &sel).unwrap_err();
    assert!(matches!(err, Error::RuleNotFound { .. }));
}

#[test]
fn remove_single_line_middle() {
    let source = r#"rust_binary(name = "x", srcs = ["a.rs", "b.rs", "c.rs"])"#;
    let sel = selector("rust_binary", "srcs");
    let result = remove_entry(source, &sel, "b.rs").unwrap();
    let files = list_entries(&result, &sel).unwrap();
    assert_eq!(files, vec!["a.rs", "c.rs"]);
}

#[test]
fn remove_single_line_last() {
    let source = r#"rust_binary(name = "x", srcs = ["a.rs", "b.rs"])"#;
    let sel = selector("rust_binary", "srcs");
    let result = remove_entry(source, &sel, "b.rs").unwrap();
    let files = list_entries(&result, &sel).unwrap();
    assert_eq!(files, vec!["a.rs"]);
}

#[test]
fn remove_leaves_empty_list() {
    let source = r#"rust_binary(
    name = "x",
    srcs = [
        "only.rs",
    ],
)"#;
    let sel = selector("rust_binary", "srcs");
    let result = remove_entry(source, &sel, "only.rs").unwrap();
    let files = list_entries(&result, &sel).unwrap();
    assert!(files.is_empty());
    // Attribute should be removed entirely
    assert!(!result.contains("srcs"));
}

#[test]
fn add_creates_missing_attr() {
    let source = r#"rust_binary(
    name = "foo",
)"#;
    let sel = selector("rust_binary", "srcs");
    let result = add_entry(source, &sel, "main.rs").unwrap();
    let files = list_entries(&result, &sel).unwrap();
    assert_eq!(files, vec!["main.rs"]);
}

#[test]
fn remove_deletes_empty_attr() {
    let source = r#"rust_binary(
    name = "foo",
    srcs = ["only.rs"],
)"#;
    let sel = selector("rust_binary", "srcs");
    let result = remove_entry(source, &sel, "only.rs").unwrap();
    assert!(!result.contains("srcs"));
    // Should still parse
    let files = list_entries(&result, &sel).unwrap();
    assert!(files.is_empty());
}

#[test]
fn list_missing_attr_returns_empty() {
    let source = r#"rust_binary(
    name = "foo",
)"#;
    let sel = selector("rust_binary", "srcs");
    let files = list_entries(source, &sel).unwrap();
    assert!(files.is_empty());
}

#[test]
fn add_reformats_whole_rule_exactly() {
    let source = "x = 1\n\nrust_binary(name = \"foo\", deps = dep_list, srcs = [\"b.rs\", \"a.rs\"])\ntail()\n";
    let sel = selector("rust_binary", "srcs");
    let result = add_entry(source, &sel, "c.rs").unwrap();
    assert_eq!(
        result,
        "x = 1\n\nrust_binary(\n    name = \"foo\",\n    deps = dep_list,\n    srcs = [\n        \"a.rs\",\n        \"b.rs\",\n        \"c.rs\",\n    ],\n)\ntail()\n"
    );
}

#[test]
fn attribute_that_is_not_a_list() {
    let source = "rust_binary(name = \"foo\", srcs = glob([\"*.rs\"]))";
    let sel = selector("rust_binary", "srcs");
    assert!(matches!(list_entries(source, &sel).unwrap_err(), Error::AttrNotAList { .. }));
    assert!(matches!(add_entry(source, &sel, "a.rs").unwrap_err(), Error::AttrNotAList { .. }));
    assert!(matches!(remove_entry(source, &sel, "a.rs").unwrap_err(), Error::AttrNotAList { .. }));
    let sel = selector("rust_binary", "deps");
    assert!(matches!(remove_entry(source, &sel, "a").unwrap_err(), Error::AttrNotFound { .. }));
}

#[test]
fn unparsable_source_is_a_parse_error() {
    let sel = selector("rust_binary", "srcs");
    assert!(matches!(list_entries("rust_binary(", &sel).unwrap_err(), Error::Parse(_)));
    assert!(matches!(list_rules("(("), Err(Error::Parse(_))));
}

#[test]
fn create_and_remove_rule() {
    let created = create_rule("a()", "rust_binary", "app").unwrap();
    assert_eq!(created, "a()\n\nrust_binary(\n    name = \"app\",\n)\n");
    assert_eq!(create_rule("", "rust_test", "t").unwrap(), "rust_test(\n    name = \"t\",\n)\n");
    assert!(matches!(
        create_rule(&created, "rust_binary", "app"),
        Err(Error::RuleAlreadyExists { .. })
    ));
    let removed = remove_rule(&created, "rust_binary", "app").unwrap();
    assert_eq!(removed, "a()");
    let two = "a()\n\nrust_binary(name = \"x\")\n\nb()\n";
    assert_eq!(remove_rule(two, "rust_binary", "x").unwrap(), "a()\nb()\n");
    assert!(matches!(remove_rule(two, "rust_binary", "y"), Err(Error::RuleNotFound { .. })));
}

#[test]
fn list_rules_in_file_order() {
    let rules = list_rules("load(\"x.bzl\", \"r\")\nr(name = \"a\")\nfoo = 3\ncc_library(srcs = [], name = \"b\")\ng()\n").unwrap();
    let got: Vec<(String, Option<String>)> =
        rules.into_iter().map(|r| (r.rule_type, r.name)).collect();
    assert_eq!(
        got,
        vec![
            ("r".to_string(), Some("a".to_string())),
            ("cc_library".to_string(), Some("b".to_string())),
            ("g".to_string(), None),
        ]
    );
}

#[test]
fn error_messages() {
    let e = |x: Error| x.message();
    assert_eq!(e(Error::Parse("bad".into())), "parse error: bad");
    assert_eq!(
        e(Error::RuleNotFound { rule_name: "r".into() }),
        "no rule `r` found"
    );
    assert_eq!(
        e(Error::AttrNotFound { rule_name: "r".into(), attr: "a".into() }),
        "rule `r` has no attribute `a`"
    );
    assert_eq!(
        e(Error::AttrNotAList { rule_name: "r".into(), attr: "a".into() }),
        "attribute `a` of rule `r` is not a list"
    );
    assert_eq!(
        e(Error::EntryAlreadyPresent { entry: "x".into() }),
        "`x` is already present"
    );
    assert_eq!(
        e(Error::EntryNotFound { entry: "x".into() }),
        "`x` not found in list"
    );
    assert_eq!(
        e(Error::AmbiguousRule { rule_name: "r".into(), count: 12 }),
        "found 12 rules named `r`; use `name` to disambiguate"
    );
    assert_eq!(
        e(Error::RuleAlreadyExists { rule_name: "r".into(), name: "n".into() }),
        "rule `r` with name `n` already exists"
    );
}

#[test]
fn create_refuses_when_several_rules_of_that_name_exist() {
    let two = "rust_binary(name = \"app\")\nrust_binary(name = \"app\")\n";
    assert!(matches!(
        create_rule(two, "rust_binary", "app"),
        Err(Error::RuleAlreadyExists { rule_name, name }) if rule_name == "rust_binary" && name == "app"
    ));
    assert!(matches!(create_rule("rust_binary(", "rust_binary", "app"), Err(Error::Parse(_))));
    assert_eq!(
        create_rule(two, "rust_binary", "other").unwrap(),
        format!("{two}\nrust_binary(\n    name = \"other\",\n)\n")
    );
}

#[test]
fn deep_or_odd_sources_are_refused_before_parsing() {
    let sel = selector("rust_binary", "srcs");
    let deep = format!("x = {}1{}\n", "[".repeat(200), "]".repeat(200));
    assert!(matches!(list_entries(&deep, &sel), Err(Error::Parse(m)) if m.contains("nests too deeply")));
    let minus = format!("x = {}1\n", "-".repeat(300));
    assert!(matches!(list_rules(&minus), Err(Error::Parse(m)) if m.contains("nests too deeply")));
    assert!(matches!(list_rules("x = f\"{y}\"\n"), Err(Error::Parse(m)) if m.contains("f-string")));
    let near = format!("x = {}1{}\n", "[".repeat(120), "]".repeat(120));
    assert!(list_rules(&near).is_ok());
    let chain = format!("x = {}1\n", "-".repeat(120));
    assert!(list_rules(&chain).is_ok());
    let nots = format!("x = {}y\n", "not ".repeat(120));
    assert!(list_rules(&nots).is_ok());
    let calls = format!("x = {}1{}\n", "f(".repeat(120), ")".repeat(120));
    assert!(list_rules(&calls).is_ok());
    let mixed = format!("x = {}1{}\n", "-(".repeat(63), ")".repeat(63));
    assert!(list_rules(&mixed).is_ok());
    let ternary = format!("x = {}0\n", "1 if y else ".repeat(60));
    assert!(list_rules(&ternary).is_ok());
    let many = "rust_binary(name = \"a\", srcs = [\"a-b.rs\", \"c-d.rs\"])\n".repeat(500);
    assert_eq!(list_rules(&many).unwrap().len(), 500);
}
