use ske::buck::{Kind, Target};
use ske::graph::{columns, graph_nodes, rows_in_columns};
use ske::index::Index;
use ske::menu::{context_items, CtxTarget, MenuAction, MenuItem};
use ske::outline::{package_groups, toggle_route, visible_rows, NodeKind, TreeNode};
use ske::tabs::{Tab, TabMsg, Tabs};
use ske::template::TemplateSet;
use ske::workbench::{
    build_label, build_start, menu_click, new_entry_path, new_target, selected_dir, target_by_label,
    workspace_path, workspace_prefill, Folds,
};

fn tab(path: &str) -> Tab {
    Tab { path: Some(path.to_string()), dirty: false }
}

fn three() -> Tabs {
    Tabs { open: vec![tab("/w/a.rs"), tab("/w/b.rs"), tab("/w/c.rs")], active: Some(1) }
}

#[test]
fn closing_a_tab_left_of_the_focus_keeps_the_focused_file() {
    let mut t = three();
    let closed = t.close_tab(0).unwrap();
    assert_eq!(closed.path.as_deref(), Some("/w/a.rs"));
    assert_eq!(t.open.len(), 2);
    assert_eq!(t.active, Some(0));
    assert_eq!(t.open[0].path.as_deref(), Some("/w/b.rs"));
}

#[test]
fn closing_the_focused_last_tab_moves_the_focus_left() {
    let mut t = three();
    t.select_tab(2);
    assert_eq!(t.active, Some(2));
    t.close_active_tab();
    assert_eq!(t.active, Some(1));
    t.close_tab(1);
    t.close_tab(0);
    assert_eq!(t.active, None);
    assert!(t.open.is_empty());
    assert!(t.close_tab(0).is_none());
    assert!(t.close_active_tab().is_none());
}

#[test]
fn selecting_a_missing_tab_does_nothing() {
    let mut t = three();
    t.select_tab(7);
    assert_eq!(t.active, Some(1));
}

#[test]
fn dirty_tracking_and_close_note() {
    let mut t = Tabs::new();
    t.new_tab();
    assert_eq!(t.active, Some(0));
    t.mark_edited(false);
    assert!(!t.open[0].dirty);
    t.mark_edited(true);
    assert!(t.open[0].dirty);
    assert_eq!(t.open[0].title(), "untitled");
    assert_eq!(
        t.open[0].close_note().as_deref(),
        Some("closed untitled (unsaved changes discarded)")
    );
    t.mark_saved();
    assert!(!t.open[0].dirty);
    assert_eq!(t.open[0].close_note(), None);
}

#[test]
fn opening_focuses_an_open_file() {
    let mut t = three();
    assert_eq!(t.find("/w/c.rs"), Some(2));
    assert_eq!(t.find("/w//./c.rs"), Some(2));
    assert_eq!(t.find("/w/d.rs"), None);
    t.push_opened("/w/d.rs".to_string());
    assert_eq!(t.active, Some(3));
    assert_eq!(t.open[3].title(), "d.rs");
    assert_eq!(tab("/").title(), "/");
}

fn target(package: &str, name: &str) -> Target {
    Target {
        label: format!("{package}:{name}"),
        name: name.to_string(),
        package: package.to_string(),
        rule_type: "prelude//rules.bzl:rust_binary".to_string(),
        srcs: vec![],
        deps: vec![],
        visibility: vec![],
    }
}

#[test]
fn targets_grouped_by_package_in_order() {
    let ts = vec![
        target("//b", "x"),
        target("//a", "y"),
        target("//b", "z"),
        target("//a/c", "w"),
    ];
    let g = package_groups(&ts);
    assert_eq!(
        g,
        vec![
            ("//a".to_string(), vec![1]),
            ("//a/c".to_string(), vec![3]),
            ("//b".to_string(), vec![0, 2]),
        ]
    );
    assert!(package_groups(&vec![]).is_empty());
}

fn file(dir: &str, name: &str) -> TreeNode {
    TreeNode {
        name: name.to_string(),
        path: format!("{dir}/{name}"),
        hidden: name.starts_with('.'),
        kind: NodeKind::File,
    }
}

#[test]
fn tree_rows_follow_expanded_directories() {
    let src = TreeNode {
        name: "src".to_string(),
        path: "/w/src".to_string(),
        hidden: false,
        kind: NodeKind::Dir { expanded: true, children: Some(vec![file("/w/src", "main.rs")]) },
    };
    let closed = TreeNode {
        name: "docs".to_string(),
        path: "/w/docs".to_string(),
        hidden: false,
        kind: NodeKind::Dir { expanded: false, children: Some(vec![file("/w/docs", "a.md")]) },
    };
    let nodes = vec![src, closed, file("/w", "BUCK"), file("/w", ".hidden")];
    let mut index = Index::default();
    index.add_buck_file("/w", "/w/BUCK", "rust_binary(name = \"app\", srcs = [\"src/main.rs\"])", &TemplateSet::default());
    let rows = visible_rows(&nodes, Some("/w/BUCK"), &index);
    let seen: Vec<(usize, &str, bool, bool, usize)> = rows
        .iter()
        .map(|r| (r.depth, r.name.as_str(), r.selected, r.buck_file, r.badge))
        .collect();
    assert_eq!(
        seen,
        vec![
            (0, "src", false, false, 0),
            (1, "main.rs", false, false, 1),
            (0, "docs", false, false, 0),
            (0, "BUCK", true, true, 0),
            (0, ".hidden", false, false, 0),
        ]
    );
    assert!(rows[0].is_dir && rows[0].expanded);
    assert!(rows[2].is_dir && !rows[2].expanded);
    assert!(rows[4].hidden);
}

fn labels(items: &[MenuItem]) -> Vec<&str> {
    items.iter().map(|i| i.label.as_str()).collect()
}

#[test]
fn menus_for_directories_build_files_and_the_file_menu() {
    let mut index = Index::default();
    index.add_buck_file("/w", "/w/app/BUCK", "rust_binary(name = \"app\", srcs = [\"main.rs\"])", &TemplateSet::default());
    let none = TemplateSet::default();
    let dir = context_items(&CtxTarget::Entry { path: "/w/app".into(), is_dir: true }, &index, &vec![], None, &none, "/w");
    assert_eq!(labels(&dir), vec!["new file…", "new folder…", "new build target here…"]);
    let buck = context_items(&CtxTarget::Entry { path: "/w/app/BUCK".into(), is_dir: false }, &index, &vec![], None, &none, "/w");
    assert_eq!(labels(&buck), vec!["build //app:", "add target…"]);
    assert!(matches!(&buck[0].action, MenuAction::BuildTarget(l) if l == "//app:"));
    assert!(matches!(&buck[1].action, MenuAction::NewTargetIn(d) if d == "/w/app"));
    let unknown = context_items(&CtxTarget::Entry { path: "/w/lib/BUILD".into(), is_dir: false }, &index, &vec![], None, &none, "/w/");
    assert_eq!(labels(&unknown), vec!["build //lib:", "add target…"]);
    let menu = context_items(&CtxTarget::FileMenu, &index, &vec![], None, &none, "/w");
    assert_eq!(labels(&menu), vec!["new file (ctrl+n)", "save (ctrl+s)", "new workspace…", "open workspace…"]);
}

#[test]
fn menus_for_files_targets_and_packages() {
    let mut index = Index::default();
    index.add_buck_file("/w", "/w/app/BUCK", "rust_binary(name = \"app\", srcs = [\"main.rs\"])", &TemplateSet::default());
    let none = TemplateSet::default();
    let ts = index.targets.clone();
    let listed = context_items(&CtxTarget::Entry { path: "/w/app/main.rs".into(), is_dir: false }, &index, &ts, Some(0), &none, "/w");
    assert_eq!(labels(&listed), vec!["new file…", "new build target here…"]);
    let other = context_items(&CtxTarget::Entry { path: "/w/app/util.rs".into(), is_dir: false }, &index, &ts, Some(0), &none, "/w");
    assert_eq!(labels(&other), vec!["add to app (srcs)", "new file…", "new build target here…"]);
    assert!(matches!(&other[0].action, MenuAction::AddFileAs { label, attr } if label == "//app:app" && attr == "srcs"));
    let t = context_items(&CtxTarget::Target(0), &index, &ts, None, &none, "/w");
    assert_eq!(labels(&t), vec!["build app", "open BUCK file", "delete target"]);
    assert!(context_items(&CtxTarget::Target(5), &index, &ts, None, &none, "/w").is_empty());
    let pkg = context_items(&CtxTarget::Package("//app".into()), &index, &ts, None, &none, "/w");
    assert!(matches!(&pkg[0].action, MenuAction::NewTargetIn(d) if d == "/w/app"));
    let cell = context_items(&CtxTarget::Package("root//lib".into()), &index, &ts, None, &none, "/w");
    assert!(matches!(&cell[0].action, MenuAction::NewTargetIn(d) if d == "/w/lib"));
    assert!(context_items(&CtxTarget::Package("plain".into()), &index, &ts, None, &none, "/w").is_empty());
}

#[test]
fn prompt_names_are_trimmed_and_plain() {
    assert_eq!(new_entry_path("/w/src", "  util.rs \n"), Ok("/w/src/util.rs".to_string()));
    assert_eq!(
        new_entry_path("/w", "a/b"),
        Err("give it a plain name (no path separators)".to_string())
    );
    assert_eq!(
        new_entry_path("/w", "   "),
        Err("give it a plain name (no path separators)".to_string())
    );
    assert_eq!(new_target(" app ", Some("rust_binary")), Ok(("rust_binary".to_string(), "app".to_string())));
    assert_eq!(new_target("", Some("rust_binary")), Err("target needs a name".to_string()));
    assert_eq!(new_target("", None), Err("pick a rule type first".to_string()));
}

#[test]
fn workspace_prompt_paths() {
    assert_eq!(workspace_path(" ~/code/x ", Some("/home/u")), Some("/home/u/code/x".to_string()));
    assert_eq!(workspace_path("~/code", None), Some("~/code".to_string()));
    assert_eq!(workspace_path("/srv/w", Some("/home/u")), Some("/srv/w".to_string()));
    assert_eq!(workspace_path("  ", Some("/home/u")), None);
    assert_eq!(workspace_prefill("/home/u/w", true), "/home/u/my-project");
    assert_eq!(workspace_prefill("/home/u/w", false), "/home/u/w");
}

#[test]
fn build_decisions() {
    let ts = vec![target("//a", "y")];
    assert_eq!(build_label(&ts, Some(0)), "//a:y");
    assert_eq!(build_label(&ts, None), "//...");
    assert_eq!(build_label(&ts, Some(4)), "//...");
    assert_eq!(
        build_start(true, false, "//a:y"),
        Ok(("building //a:y…".to_string(), "$ buck2 build //a:y\n".to_string()))
    );
    assert_eq!(build_start(true, true, "//a:y"), Err("a build is already running".to_string()));
    assert_eq!(
        build_start(false, true, "//a:y"),
        Err("no buck2 workspace (.buckconfig not found)".to_string())
    );
    assert_eq!(target_by_label(&ts, "//a:y"), Some(0));
    assert_eq!(target_by_label(&ts, "//a:z"), None);
}

#[test]
fn where_new_things_go_and_menus() {
    assert_eq!(selected_dir(Some("/w/src"), true, "/w"), "/w/src");
    assert_eq!(selected_dir(Some("/w/src/main.rs"), false, "/w"), "/w/src");
    assert_eq!(selected_dir(None, false, "/w"), "/w");
    assert_eq!(menu_click("File", false), (true, None));
    assert_eq!(menu_click("File", true), (false, None));
    assert_eq!(menu_click("Edit", false), (false, Some("Edit menu: not implemented yet".to_string())));
}

#[test]
fn folding_packages() {
    let mut f = Folds::new();
    assert!(!f.is_folded("//a"));
    f.toggle("//a");
    f.toggle("//b");
    assert!(f.is_folded("//a") && f.is_folded("//b"));
    f.toggle("//a");
    assert!(!f.is_folded("//a") && f.is_folded("//b"));
    f.clear();
    assert!(!f.is_folded("//b"));
}

fn dep_target(package: &str, name: &str, deps: &[&str]) -> Target {
    let mut t = target(package, name);
    t.deps = deps.iter().map(|d| d.to_string()).collect();
    t
}

#[test]
fn graph_nodes_resolve_local_and_full_labels() {
    let ts = vec![
        dep_target("//a", "app", &[":lib", "//b:util", "//third-party:serde", "prelude//x:y"]),
        dep_target("//a", "lib", &["//third-party:serde"]),
        dep_target("//b", "util", &[]),
    ];
    let g = graph_nodes(&ts, &TemplateSet::default());
    let names: Vec<&str> = g.iter().map(|n| n.name.as_str()).collect();
    assert_eq!(names, vec!["app", "lib", "util", "serde", "y"]);
    assert_eq!(g[0].deps, vec![1, 2, 3, 4]);
    assert_eq!(g[1].deps, vec![3]);
    assert!(g[3].external && g[3].sub == "extern" && g[3].target_idx.is_none());
    assert_eq!(g[0].sub, "rust_binary");
    assert_eq!(g[0].kind, Some(Kind::Binary));
    assert_eq!(g[2].target_idx, Some(2));
    let cols = columns(&g);
    assert_eq!(cols, vec![0, 1, 1, 2, 1]);
    assert_eq!(rows_in_columns(&cols), vec![0, 0, 1, 0, 2]);
}

#[test]
fn a_cycle_stops_deepening() {
    let ts = vec![dep_target("//a", "x", &[":y"]), dep_target("//a", "y", &[":x", ":y"])];
    let g = graph_nodes(&ts, &TemplateSet::default());
    assert_eq!(g[1].deps, vec![0, 1]);
    assert_eq!(columns(&g), vec![4, 3]);
}

#[test]
fn toggling_finds_the_directory_and_says_when_to_read_it() {
    let inner = TreeNode {
        name: "lib".to_string(),
        path: "/w/src/lib".to_string(),
        hidden: false,
        kind: NodeKind::Dir { expanded: false, children: None },
    };
    let src = TreeNode {
        name: "src".to_string(),
        path: "/w/src".to_string(),
        hidden: false,
        kind: NodeKind::Dir { expanded: true, children: Some(vec![file("/w/src", "main.rs"), inner]) },
    };
    let unread = TreeNode {
        name: "docs".to_string(),
        path: "/w/docs".to_string(),
        hidden: false,
        kind: NodeKind::Dir { expanded: false, children: None },
    };
    let nodes = vec![unread, src, file("/w", "BUCK")];
    assert_eq!(toggle_route(&nodes, "/w/src"), Some((vec![1], false)));
    assert_eq!(toggle_route(&nodes, "/w/docs/"), Some((vec![0], true)));
    assert_eq!(toggle_route(&nodes, "/w/src/lib"), Some((vec![1, 1], true)));
    assert_eq!(toggle_route(&nodes, "/w/src/main.rs"), None);
    assert_eq!(toggle_route(&nodes, "/w/docs/x"), None);
    assert_eq!(toggle_route(&nodes, "/elsewhere"), None);
}

#[test]
fn tab_messages_keep_the_focus_on_an_open_tab() {
    let mut t = Tabs::new();
    t.handle(TabMsg::New);
    t.handle(TabMsg::Opened("/w/a.rs".to_string()));
    t.handle(TabMsg::Edited(true));
    assert!(t.open[1].dirty);
    t.handle(TabMsg::Saved);
    assert!(!t.open[1].dirty);
    t.handle(TabMsg::Select(0));
    let closed = t.handle(TabMsg::Close(1)).unwrap();
    assert_eq!(closed.path.as_deref(), Some("/w/a.rs"));
    assert_eq!(t.active, Some(0));
    t.handle(TabMsg::CloseActive);
    assert_eq!(t.active, None);
    assert!(t.handle(TabMsg::Close(0)).is_none());
}
