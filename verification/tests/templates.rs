use std::collections::BTreeMap;

use ske::buck::{Kind, Target};
use ske::graph::graph_nodes;
use ske::index::Index;
use ske::menu::{context_items, CtxTarget, MenuAction};
use ske::tabs::Tabs;
use ske::workbench::{cursor_status, new_target_heading, ready_status, rule_calls, window_title};
use ske::install::{clone_args, clone_url, installed_line, list_line, parse_template_spec, tool_lines};
use ske::template::{
    check_manifest, default_engine, is_manifest, substitute, AttrRef, Cmd, FileAttr, Lark,
    Manifest, Meta, Rule, RuleKind, TemplateSet, Toolchain,
};

fn file_attr(attr: &str, exts: &[&str]) -> Option<FileAttr> {
    Some(FileAttr {
        attr: attr.to_string(),
        ext: exts.iter().map(|e| e.to_string()).collect(),
    })
}

fn deps() -> Option<AttrRef> {
    Some(AttrRef {
        attr: "deps".to_string(),
    })
}

/// The manifest of the rust template.
fn rust() -> Manifest {
    let mut load = BTreeMap::new();
    load.insert(
        "rust_binary".to_string(),
        "@prelude//rust:rust_binary.bzl".to_string(),
    );
    Manifest {
        template: Meta {
            name: "rust".to_string(),
            engine: "buck2".to_string(),
            version: 1,
        },
        toolchain: Toolchain {
            lsp: Some(Cmd {
                cmd: "rust-analyzer".to_string(),
                args: vec![],
            }),
            fmt: Some(Cmd {
                cmd: "rustfmt".to_string(),
                args: vec!["--edition".to_string(), "2024".to_string()],
            }),
            lint: None,
        },
        lark: Lark {
            ident: "name".to_string(),
            rules: vec![
                Rule {
                    call: "rust_binary".to_string(),
                    kind: RuleKind::Binary,
                    srcs: file_attr("srcs", &["rs"]),
                    hdrs: None,
                    deps: deps(),
                    scaffold: Some("binary".to_string()),
                },
                Rule {
                    call: "rust_library".to_string(),
                    kind: RuleKind::Library,
                    srcs: file_attr("srcs", &["rs"]),
                    hdrs: None,
                    deps: deps(),
                    scaffold: None,
                },
            ],
            load,
        },
    }
}

/// The manifest of the cc template.
fn cc() -> Manifest {
    Manifest {
        template: Meta {
            name: "cc".to_string(),
            engine: default_engine(),
            version: 1,
        },
        toolchain: Toolchain {
            lsp: None,
            fmt: None,
            lint: None,
        },
        lark: Lark {
            ident: "name".to_string(),
            rules: vec![Rule {
                call: "cc_library".to_string(),
                kind: RuleKind::Library,
                srcs: file_attr("srcs", &["cc", "cpp", "c"]),
                hdrs: file_attr("hdrs", &["h", "hpp"]),
                deps: deps(),
                scaffold: None,
            }],
            load: BTreeMap::new(),
        },
    }
}

#[test]
fn parses_rust_manifest() {
    let m = check_manifest(rust()).unwrap();
    assert_eq!(m.template.name, "rust");
    assert_eq!(m.template.engine, "buck2");
    assert_eq!(m.lark.rules.len(), 2);
    assert_eq!(m.lark.rules[0].kind, RuleKind::Binary);
    assert_eq!(m.lark.rules[0].attr_for_ext("rs"), Some("srcs"));
    assert_eq!(m.lark.load["rust_binary"], "@prelude//rust:rust_binary.bzl");
    assert_eq!(m.toolchain.lsp.as_ref().unwrap().cmd, "rust-analyzer");
}

#[test]
fn cc_headers_route_to_hdrs() {
    let m = check_manifest(cc()).unwrap();
    let rule = &m.lark.rules[0];
    assert_eq!(rule.attr_for_ext("h"), Some("hdrs"));
    assert_eq!(rule.attr_for_ext("cc"), Some("srcs"));
    assert_eq!(rule.attr_for_ext("zig"), None);
}

#[test]
fn rejects_bad_manifests() {
    // Text that is not TOML never reaches the checks: the TOML reader refuses it.
    assert!(toml::from_str::<toml::Value>("not toml at all [").is_err());
    // [template] name="x" version=2 [lark] ident="name" rule=[]
    let m = Manifest {
        template: Meta {
            name: "x".to_string(),
            engine: default_engine(),
            version: 2,
        },
        toolchain: Toolchain {
            lsp: None,
            fmt: None,
            lint: None,
        },
        lark: Lark {
            ident: "name".to_string(),
            rules: vec![],
            load: BTreeMap::new(),
        },
    };
    assert!(check_manifest(m).is_err());
}

#[test]
fn manifest_checks_in_order() {
    let mut m = rust();
    m.template.version = 2;
    assert_eq!(
        check_manifest(m).unwrap_err(),
        "unsupported manifest version 2 (this build supports 1)"
    );
    let mut m = rust();
    m.lark.ident = String::new();
    assert_eq!(check_manifest(m).unwrap_err(), "lark.ident must not be empty");
    let mut m = rust();
    m.lark.rules.clear();
    assert_eq!(
        check_manifest(m).unwrap_err(),
        "template declares no [[lark.rule]]"
    );
}

#[test]
fn collision_keeps_first_and_warns() {
    let mut set = TemplateSet::default();
    set.add(check_manifest(rust()).unwrap(), "rust.skedit.toml".into());
    let mut clash = check_manifest(cc()).unwrap();
    clash.lark.rules[0].call = "rust_binary".into();
    set.add(clash, "cc.skedit.toml".into());
    assert_eq!(set.warnings.len(), 1);
    assert_eq!(set.kind_of("rust_binary"), Some(Kind::Binary));
    assert_eq!(set.kind_of("nope"), None);
}

#[test]
fn collision_warning_names_both_templates() {
    let mut set = TemplateSet::default();
    assert!(set.is_empty());
    set.add(rust(), "rust.skedit.toml".into());
    let mut clash = cc();
    clash.lark.rules[0].call = "rust_library".into();
    set.add(clash, "cc.skedit.toml".into());
    assert!(!set.is_empty());
    assert_eq!(
        set.warnings,
        vec!["rule 'rust_library' in template 'cc' already defined by template 'rust'; keeping the first"]
    );
    let (m, r) = set.rule("rust_library").unwrap();
    assert_eq!(m.template.name, "rust");
    assert_eq!(r.kind, RuleKind::Library);
    assert_eq!(set.manifests.len(), 2);
}

#[test]
fn file_attrs_in_match_order() {
    let m = cc();
    let attrs: Vec<&str> = m.lark.rules[0]
        .file_attrs()
        .iter()
        .map(|f| f.attr.as_str())
        .collect();
    assert_eq!(attrs, vec!["srcs", "hdrs"]);
}

#[test]
fn substitutes_scaffold_vars() {
    assert_eq!(
        substitute(
            "rust_binary(name = \"{{name}}\") # {{package}}",
            "app",
            "//crates/app"
        ),
        "rust_binary(name = \"app\") # //crates/app"
    );
}

#[test]
fn substitutes_every_occurrence() {
    assert_eq!(substitute("{{name}}-{{name}}", "x", "p"), "x-x");
    assert_eq!(substitute("{{nam}}", "x", "p"), "{{nam}}");
}

#[test]
fn manifest_file_names() {
    assert!(is_manifest("rust.skedit.toml"));
    assert!(!is_manifest("rust.toml"));
    assert!(!is_manifest("skedit.toml"));
}

#[test]
fn template_specs() {
    let s = parse_template_spec("github:me/skedit-rust@v1", &vec![]).unwrap();
    assert_eq!(s.repo, "me/skedit-rust");
    assert_eq!(s.git_ref.as_deref(), Some("v1"));
    assert_eq!(s.name, "rust");
    let s = parse_template_spec(
        "github:me/tpl",
        &vec!["--name".to_string(), "mine".to_string()],
    )
    .unwrap();
    assert_eq!(s.repo, "me/tpl");
    assert_eq!(s.git_ref, None);
    assert_eq!(s.name, "mine");
    assert_eq!(
        parse_template_spec("gitlab:me/tpl", &vec![]).unwrap_err(),
        "template spec must look like github:user/repo[@ref]"
    );
    assert_eq!(
        parse_template_spec("github:tpl", &vec![]).unwrap_err(),
        "expected github:user/repo"
    );
    assert_eq!(
        parse_template_spec("github:a/b", &vec!["--x".to_string()]).unwrap_err(),
        "unexpected arguments: [\"--x\"]"
    );
    assert_eq!(
        parse_template_spec("github:a/skedit-skedit-c", &vec![]).unwrap().name,
        "c"
    );
    assert_eq!(clone_url("me/tpl"), "https://github.com/me/tpl.git");
}

#[test]
fn template_manager_lines() {
    let m = rust();
    assert_eq!(
        installed_line(&m, "/t/rust/rust.skedit.toml"),
        "installed 'rust' (engine buck2, 2 rules) from /t/rust/rust.skedit.toml"
    );
    assert_eq!(
        tool_lines(&m),
        vec![
            "  lsp: runs `rust-analyzer `".to_string(),
            "  fmt: runs `rustfmt --edition 2024`".to_string()
        ]
    );
    assert_eq!(list_line(&m, "p"), "rust\tbuck2\t2 rules\tp");
}

#[test]
fn a_call_repeated_in_one_manifest_warns_and_keeps_the_first() {
    let mut set = TemplateSet::default();
    let mut twice = rust();
    twice.lark.rules[1].call = "rust_binary".into();
    set.add(twice, "rust.skedit.toml".into());
    assert_eq!(
        set.warnings,
        vec!["rule 'rust_binary' in template 'rust' already defined by template 'rust'; keeping the first"]
    );
    let (m, r) = set.rule("rust_binary").unwrap();
    assert_eq!(m.template.name, "rust");
    assert_eq!(r.kind, RuleKind::Binary);
    assert_eq!(set.kind_of("rust_library"), None);
    set.add(cc(), "cc.skedit.toml".into());
    let mut again = cc();
    again.lark.rules.push(again.lark.rules[0].clone());
    set.add(again, "cc2.skedit.toml".into());
    assert_eq!(set.warnings.len(), 3);
    assert_eq!(set.manifests.len(), 3);
}

#[test]
fn clone_arguments_follow_the_spec() {
    let spec = parse_template_spec("github:someuser/skedit-java@v2", &vec![]).unwrap();
    assert_eq!(spec.name, "java");
    assert_eq!(
        clone_args(&spec, "/home/u/.config/skedit/templates/java"),
        vec![
            "clone".to_string(),
            "--depth".to_string(),
            "1".to_string(),
            "--branch".to_string(),
            "v2".to_string(),
            "https://github.com/someuser/skedit-java.git".to_string(),
            "/home/u/.config/skedit/templates/java".to_string(),
        ]
    );
    let plain = parse_template_spec("github:me/tpl", &vec![]).unwrap();
    assert_eq!(
        clone_args(&plain, "d"),
        vec![
            "clone".to_string(),
            "--depth".to_string(),
            "1".to_string(),
            "https://github.com/me/tpl.git".to_string(),
            "d".to_string(),
        ]
    );
}

#[test]
fn editor_status_lines() {
    let mut set = TemplateSet::default();
    assert_eq!(ready_status(&set), "ready (no templates found)");
    set.add(rust(), "rust.skedit.toml".into());
    assert_eq!(ready_status(&set), "ready · templates: rust");
    set.add(cc(), "cc.skedit.toml".into());
    assert_eq!(ready_status(&set), "ready · templates: rust, cc");
    assert_eq!(rule_calls(&set), vec!["rust_binary", "rust_library", "cc_library"]);
    assert_eq!(cursor_status(0, 4, "rs"), "Ln 1, Col 5   Rust");
    assert_eq!(new_target_heading("/w/app/src", "/w"), "new target in //app/src");
    assert_eq!(new_target_heading("/elsewhere", "/w"), "new target in ///elsewhere");
    let mut tabs = Tabs::new();
    assert_eq!(window_title(&tabs), "skyde");
    tabs.push_opened("/w/app/BUCK".to_string());
    assert_eq!(window_title(&tabs), "skyde — BUCK");
}

#[test]
fn menus_and_graph_follow_the_templates() {
    let mut set = TemplateSet::default();
    set.add(cc(), "cc.skedit.toml".into());
    let mut index = Index::default();
    index.add_buck_file("/w", "/w/lib/BUCK", "cc_library(name = \"core\", srcs = [\"a.cc\"])", &set);
    let ts: Vec<Target> = index.targets.clone();
    let items = context_items(
        &CtxTarget::Entry { path: "/w/lib/a.h".into(), is_dir: false },
        &index,
        &ts,
        Some(0),
        &set,
        "/w",
    );
    let labels: Vec<&str> = items.iter().map(|i| i.label.as_str()).collect();
    assert_eq!(labels, vec!["add to core (srcs)", "add to core (hdrs)", "new file…", "new build target here…"]);
    assert!(matches!(&items[1].action, MenuAction::AddFileAs { attr, .. } if attr == "hdrs"));
    let g = graph_nodes(&ts, &set);
    assert_eq!(g[0].kind, Some(Kind::Library));
}
