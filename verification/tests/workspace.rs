use ske::batch::{add_entries, remove_entries, rule_labels};
use ske::dirs::{data_dir, recents_file, template_roots, templates_dir};
use ske::edit::{list_rules, RuleSelector};
use ske::index::{
    ancestors, is_buck_file_name, is_file_link, join_path, package_of, parent_dir, relative_to, skips_dir,
    Index,
};
use ske::lang::{extension, language_name, syntax_for};
use ske::paths::{components_of, normal_path, same_path};
use ske::template::TemplateSet;

const BUCK: &str = r#"rust_binary(
    name = "app",
    srcs = ["src/main.rs", "src/util.rs"],
    deps = [":lib"],
)

rust_library(
    name = "lib",
    srcs = ["src/lib.rs"],
)
"#;

#[test]
fn scans_a_workspace() {
    let root = "/tmp/ske-index-test";
    let mut index = Index::default();
    index.add_buck_file(root, "/tmp/ske-index-test/app/BUCK", BUCK, &TemplateSet::default());
    assert_eq!(index.targets.len(), 2);
    assert_eq!(index.targets[0].label, "//app:app");
    assert_eq!(index.targets[0].deps, vec![":lib"]);
    assert_eq!(index.buck_file("//app"), Some("/tmp/ske-index-test/app/BUCK"));
    assert_eq!(
        index.targets_of("/tmp/ske-index-test/app/src/main.rs"),
        vec!["//app:app"]
    );
    // lib.rs belongs to the library, main.rs does not
    assert_eq!(
        index.targets_of("/tmp/ske-index-test/app/src/lib.rs"),
        vec!["//app:lib"]
    );
    assert!(index.targets_of("/tmp/ske-index-test/app/src/other.rs").is_empty());
}

#[test]
fn labels_and_globs_link_no_file() {
    let src = r#"cc_library(name = "x", srcs = ["a.c", ":gen", "//p:q", "*.c"], visibility = ["PUBLIC"])"#;
    let mut index = Index::default();
    index.add_buck_file("/w", "/w/BUCK", src, &TemplateSet::default());
    assert_eq!(index.targets[0].label, "//:x");
    assert_eq!(index.targets[0].srcs, vec!["a.c", ":gen", "//p:q", "*.c"]);
    assert_eq!(index.targets[0].visibility, vec!["PUBLIC"]);
    assert_eq!(index.targets_of("/w/a.c"), vec!["//:x"]);
    assert!(index.targets_of("/w/:gen").is_empty());
}

#[test]
fn unparsable_buck_file_adds_nothing() {
    let mut index = Index::default();
    index.add_buck_file("/w", "/w/BUCK", "rust_binary(", &TemplateSet::default());
    assert!(index.targets.is_empty());
    assert_eq!(index.buck_file("//"), None);
}

#[test]
fn a_file_listed_by_two_targets() {
    let src = r#"a(name = "one", srcs = ["x.rs"])
b(name = "two", srcs = ["x.rs"])
c(srcs = ["x.rs"])
"#;
    let mut index = Index::default();
    index.add_buck_file("/w", "/w/p/BUILD", src, &TemplateSet::default());
    assert_eq!(index.targets.len(), 2);
    assert_eq!(index.targets_of("/w/p/x.rs"), vec!["//p:one", "//p:two"]);
}

#[test]
fn path_pieces() {
    assert_eq!(parent_dir("/a/b/BUCK"), "/a/b");
    assert_eq!(parent_dir("/BUCK"), "/");
    assert_eq!(parent_dir("BUCK"), "");
    assert_eq!(relative_to("/r/", "/r/app"), "app");
    assert_eq!(relative_to("/r", "/r"), "");
    assert_eq!(relative_to("/r", "/other"), "/other");
    assert_eq!(package_of("/r", "/r/a/b/BUCK"), "//a/b");
    assert_eq!(package_of("/r", "/r/BUCK"), "//");
    assert_eq!(join_path("/a", "b.rs"), "/a/b.rs");
    assert_eq!(join_path("/a/", "b.rs"), "/a/b.rs");
    assert_eq!(join_path("/a", "/abs"), "/abs");
    assert_eq!(join_path("", "b"), "b");
    assert!(is_file_link("src/x.rs"));
    assert!(!is_file_link(":x"));
    assert!(!is_file_link("//x"));
    assert!(!is_file_link("*.rs"));
    assert!(is_buck_file_name("BUILD.bazel"));
    assert!(!is_buck_file_name("BUCK.v2"));
    assert!(skips_dir(".git"));
    assert!(skips_dir("buck-out"));
    assert!(!skips_dir("src"));
}

#[test]
fn data_dir_ends_with_skyde() {
    assert!(data_dir(Some("/home/u/.local/share")).ends_with("skyde"));
    assert!(data_dir(None).ends_with("skyde"));
}

#[test]
fn user_dirs() {
    assert_eq!(data_dir(Some("/home/u/.local/share")), "/home/u/.local/share/skyde");
    assert_eq!(data_dir(None), "./skyde");
    assert_eq!(templates_dir(Some("/home/u")), "/home/u/.config/skedit/templates");
    assert_eq!(templates_dir(None), "./.config/skedit/templates");
    assert_eq!(recents_file(Some("/d/")), "/d/skyde/recent-workspaces");
}

#[test]
fn template_roots_in_search_order() {
    assert_eq!(
        template_roots("/w", Some("/home/u")),
        vec![
            "/w/.skedit/templates".to_string(),
            "/w/templates".to_string(),
            "/home/u/.config/skedit/templates".to_string(),
        ]
    );
    assert_eq!(
        template_roots("/w/", None),
        vec!["/w/.skedit/templates".to_string(), "/w/templates".to_string()]
    );
}

fn sel(rule: &str, attr: &str) -> RuleSelector {
    RuleSelector {
        rule_name: rule.to_string(),
        attr: attr.to_string(),
        name: None,
    }
}

#[test]
fn adds_several_entries_in_turn() {
    let mut text = "rust_binary(\n    name = \"foo\",\n    srcs = [],\n)".to_string();
    let failed = add_entries(
        &mut text,
        &sel("rust_binary", "srcs"),
        &vec!["b.rs".to_string(), "a.rs".to_string()],
    );
    assert_eq!(failed, None);
    assert_eq!(
        text,
        "rust_binary(\n    name = \"foo\",\n    srcs = [\"a.rs\", \"b.rs\"],\n)"
    );
}

#[test]
fn stops_at_the_first_failing_entry() {
    let mut text = "rust_binary(\n    name = \"foo\",\n    srcs = [\"a.rs\"],\n)".to_string();
    let failed = add_entries(
        &mut text,
        &sel("rust_binary", "srcs"),
        &vec!["b.rs".to_string(), "a.rs".to_string(), "c.rs".to_string()],
    );
    assert_eq!(failed.as_deref(), Some("a.rs"));
    assert_eq!(
        text,
        "rust_binary(\n    name = \"foo\",\n    srcs = [\"a.rs\", \"b.rs\"],\n)"
    );
    let failed = remove_entries(
        &mut text,
        &sel("rust_binary", "srcs"),
        &vec!["a.rs".to_string(), "zz.rs".to_string()],
    );
    assert_eq!(failed.as_deref(), Some("zz.rs"));
    assert_eq!(
        text,
        "rust_binary(\n    name = \"foo\",\n    srcs = [\"b.rs\"],\n)"
    );
}

#[test]
fn rule_listing_lines() {
    let rules = list_rules("a(name = \"x\")\nb()\n").unwrap();
    assert_eq!(rule_labels(&rules, None), vec!["x", "<unnamed>"]);
    assert_eq!(rule_labels(&rules, Some("p/q")), vec!["//p/q:x", "//p/q:<unnamed>"]);
}

#[test]
fn languages() {
    assert_eq!(syntax_for(Some("BUCK")), "py");
    assert_eq!(syntax_for(Some("defs.bzl")), "py");
    assert_eq!(syntax_for(Some("Main.RS")), "rs");
    assert_eq!(syntax_for(Some("Makefile")), "txt");
    assert_eq!(syntax_for(Some(".bashrc")), "txt");
    assert_eq!(syntax_for(None), "txt");
    assert_eq!(extension("a.tar.gz"), Some("gz"));
    assert_eq!(extension(".."), None);
    assert_eq!(language_name("rs"), "Rust");
    assert_eq!(language_name("hpp"), "C++");
    assert_eq!(language_name("fish"), "Shell");
    assert_eq!(language_name("zig"), "Plain Text");
}

#[test]
fn ancestors_walk_up() {
    assert_eq!(ancestors("/a/b"), vec!["/a/b", "/a", "/"]);
    assert_eq!(ancestors("a/b/"), vec!["a/b/", "a", ""]);
    assert_eq!(ancestors("/"), vec!["/"]);
}

#[test]
fn paths_compare_by_components() {
    assert_eq!(components_of("/a//b/./c/"), vec!["/", "a", "b", "c"]);
    assert_eq!(components_of("./x/y"), vec![".", "x", "y"]);
    assert_eq!(components_of("."), vec!["."]);
    assert!(components_of("").is_empty());
    assert_eq!(components_of("a/../b"), vec!["a", "..", "b"]);
    assert!(same_path("/w/src//main.rs", "/w/src/main.rs"));
    assert!(same_path("/w/src/", "/w/src"));
    assert!(!same_path("/w/src", "w/src"));
    assert_eq!(normal_path("/w/./src//main.rs"), "/w/src/main.rs");
    assert_eq!(normal_path("a/b/"), "a/b");
    assert_eq!(normal_path("/"), "/");
}

#[test]
fn file_lookup_ignores_spelling_of_the_path() {
    let src = r#"rust_binary(name = "app", srcs = ["src//main.rs", "./lib.rs"])"#;
    let mut index = Index::default();
    index.add_buck_file("/w", "/w/p/BUCK", src, &TemplateSet::default());
    assert_eq!(index.targets_of("/w/p/src/main.rs"), vec!["//p:app"]);
    assert_eq!(index.targets_of("/w/p//src/./main.rs"), vec!["//p:app"]);
    assert_eq!(index.targets_of("/w/p/lib.rs"), vec!["//p:app"]);
}

#[test]
fn relative_paths_by_components() {
    assert_eq!(relative_to("/r/.", "/r/app"), "app");
    assert_eq!(relative_to("/r", "/r//app/src/"), "app/src");
    assert_eq!(relative_to("/r", "/rx/app"), "/rx/app");
    assert_eq!(relative_to("", "/r/app"), "/r/app");
    assert_eq!(package_of("/r/", "/r/app//BUCK"), "//app");
}
