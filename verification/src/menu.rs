//! The right-click menus of the editor: which items a menu offers for the
//! entry, target or package it was opened on, and what each item does.
//! Drawing the menu and carrying out its actions are the application's part.
use vstd::prelude::*;
use crate::buck::{after_last_colon, find_first, first_occurrence, Target};
use crate::index::{
    file_of_package, join_path, join_spec, lemma_file_of_package, package_with_file, path_parent, path_parent_of,
    is_buck_file_name, Index,
};
use crate::paths::{normal_spec, strip_prefix_of, strip_spec};
use crate::strings::{starts_with_text, str_eq, str_starts_with, views};
use crate::template::{definition_of, manifests_of, FileAttr, Rule, TemplateSet};

verus! {

/// What a menu was opened on.
#[derive(Debug, Clone)]
pub enum CtxTarget {
    /// A file or directory of the tree.
    Entry { path: String, is_dir: bool },
    /// The target at this position of the target list.
    Target(usize),
    /// A package of the targets view.
    Package(String),
    /// The title bar's File menu.
    FileMenu,
}

/// What choosing a menu item does.
#[derive(Debug, Clone)]
pub enum MenuAction {
    /// Ask for the name of a new file (or folder) in `dir`.
    NewEntryPrompt { dir: String, folder: bool },
    /// Switch to the new-target form for the package directory `dir`.
    NewTargetIn(String),
    /// Build this label.
    BuildTarget(String),
    /// Open the BUCK file of the target at this position.
    OpenTargetSource(usize),
    /// Remove the target with this label from its BUCK file.
    DeleteTarget(String),
    /// Add the selected file to the target `label` under `attr`.
    AddFileAs { label: String, attr: String },
    NewFile,
    Save,
    /// Ask for a workspace path to create or to open.
    WorkspacePrompt { create: bool },
}

/// One item of a menu.
#[derive(Debug, Clone)]
pub struct MenuItem {
    pub label: String,
    pub action: MenuAction,
}

/// A `CtxTarget` with its strings as characters.
pub enum CtxView {
    Entry { path: Seq<char>, is_dir: bool },
    Target(usize),
    Package(Seq<char>),
    FileMenu,
}

/// A `MenuAction` with its strings as characters.
pub enum ActionView {
    NewEntryPrompt { dir: Seq<char>, folder: bool },
    NewTargetIn(Seq<char>),
    BuildTarget(Seq<char>),
    OpenTargetSource(usize),
    DeleteTarget(Seq<char>),
    AddFileAs { label: Seq<char>, attr: Seq<char> },
    NewFile,
    Save,
    WorkspacePrompt { create: bool },
}

/// A menu item with its strings as characters.
pub struct ItemView {
    pub label: Seq<char>,
    pub action: ActionView,
}

impl View for CtxTarget {
    type V = CtxView;

    open spec fn view(&self) -> CtxView {
        match self {
            CtxTarget::Entry { path, is_dir } => CtxView::Entry { path: path@, is_dir: *is_dir },
            CtxTarget::Target(i) => CtxView::Target(*i),
            CtxTarget::Package(p) => CtxView::Package(p@),
            CtxTarget::FileMenu => CtxView::FileMenu,
        }
    }
}

impl View for MenuAction {
    type V = ActionView;

    open spec fn view(&self) -> ActionView {
        match self {
            MenuAction::NewEntryPrompt { dir, folder } => ActionView::NewEntryPrompt { dir: dir@, folder: *folder },
            MenuAction::NewTargetIn(d) => ActionView::NewTargetIn(d@),
            MenuAction::BuildTarget(l) => ActionView::BuildTarget(l@),
            MenuAction::OpenTargetSource(i) => ActionView::OpenTargetSource(*i),
            MenuAction::DeleteTarget(l) => ActionView::DeleteTarget(l@),
            MenuAction::AddFileAs { label, attr } => ActionView::AddFileAs { label: label@, attr: attr@ },
            MenuAction::NewFile => ActionView::NewFile,
            MenuAction::Save => ActionView::Save,
            MenuAction::WorkspacePrompt { create } => ActionView::WorkspacePrompt { create: *create },
        }
    }
}

impl View for MenuItem {
    type V = ItemView;

    open spec fn view(&self) -> ItemView {
        ItemView { label: self.label@, action: self.action@ }
    }
}

/// The items, each by its view.
pub open spec fn item_views(s: Seq<MenuItem>) -> Seq<ItemView> {
    s.map_values(|m: MenuItem| m@)
}

/// An item.
pub open spec fn item(label: Seq<char>, action: ActionView) -> ItemView {
    ItemView { label, action }
}

/// The rule the templates define for `call`.
pub open spec fn rule_for(templates: TemplateSet, call: Seq<char>) -> Option<Rule> {
    match definition_of(manifests_of(templates.manifest_list()), call) {
        Some((mi, ri)) => Some(templates.manifest_list()[mi].0.lark.rules@[ri]),
        None => None,
    }
}

/// An attribute name, when there is a file attribute.
pub open spec fn attr_name(f: Option<FileAttr>) -> Seq<Seq<char>> {
    match f {
        Some(a) => seq![a.attr@],
        None => Seq::empty(),
    }
}

/// The attributes a file can be added to a target of rule `call` under:
/// the rule's file attributes, `srcs` then `hdrs`, the same name once;
/// `srcs` when the templates know none.
pub open spec fn add_attrs(templates: TemplateSet, call: Seq<char>) -> Seq<Seq<char>> {
    let raw = match rule_for(templates, call) {
        Some(r) => attr_name(r.srcs) + attr_name(r.hdrs),
        None => Seq::empty(),
    };
    if raw.len() == 0 {
        seq!["srcs"@]
    } else if raw.len() == 2 && raw[0] == raw[1] {
        seq![raw[0]]
    } else {
        raw
    }
}

/// The labels of the index's targets that list the file `path`.
pub open spec fn owners(index: Index, path: Seq<char>) -> Seq<Seq<char>> {
    index.links(normal_spec(path)).map_values(|i: usize| index.target_list()[i as int].label)
}

/// The items for a directory of the tree.
pub open spec fn dir_items(path: Seq<char>) -> Seq<ItemView> {
    seq![
        item("new file…"@, ActionView::NewEntryPrompt { dir: path, folder: false }),
        item("new folder…"@, ActionView::NewEntryPrompt { dir: path, folder: true }),
        item("new build target here…"@, ActionView::NewTargetIn(path)),
    ]
}

/// The package a build file defines: from the index, else from its
/// directory under the workspace base.
pub open spec fn buck_package(index: Index, path: Seq<char>, base: Seq<char>) -> Option<Seq<char>> {
    match package_with_file(index.buck_file_list(), path) {
        Some(p) => Some(p),
        None => match path_parent(path) {
            Some(d) => match strip_spec(base, d) {
                Some(rel) => Some("//"@ + rel),
                None => None,
            },
            None => None,
        },
    }
}

/// The items for a build file: build its whole package, add a target.
pub open spec fn buck_items(index: Index, path: Seq<char>, base: Seq<char>) -> Seq<ItemView> {
    let build: Seq<ItemView> = match buck_package(index, path, base) {
        Some(p) => seq![item("build "@ + p + ":"@, ActionView::BuildTarget(p + ":"@))],
        None => Seq::empty(),
    };
    let add: Seq<ItemView> = match path_parent(path) {
        Some(d) => seq![item("add target…"@, ActionView::NewTargetIn(d))],
        None => Seq::empty(),
    };
    build + add
}

/// The items for another file: add it to the selected target, one item
/// per attribute, unless that target lists it already; then a new file or
/// target beside it.
pub open spec fn file_items(
    index: Index,
    targets: Seq<Target>,
    sel: Option<usize>,
    templates: TemplateSet,
    path: Seq<char>,
) -> Seq<ItemView> {
    let adds: Seq<ItemView> = match sel {
        Some(i) => if i < targets.len() && !owners(index, path).contains(targets[i as int].label@) {
            let t = targets[i as int];
            add_attrs(templates, after_last_colon(t.rule_type@)).map_values(
                |a: Seq<char>|
                    item(
                        "add to "@ + t.name@ + " ("@ + a + ")"@,
                        ActionView::AddFileAs { label: t.label@, attr: a },
                    ),
            )
        } else {
            Seq::empty()
        },
        None => Seq::empty(),
    };
    let beside: Seq<ItemView> = match path_parent(path) {
        Some(d) => seq![
            item("new file…"@, ActionView::NewEntryPrompt { dir: d, folder: false }),
            item("new build target here…"@, ActionView::NewTargetIn(d)),
        ],
        None => Seq::empty(),
    };
    adds + beside
}

/// The directory of a package: that of its BUCK file, else its path under
/// the workspace base.
pub open spec fn package_dir(index: Index, pkg: Seq<char>, base: Seq<char>) -> Option<Seq<char>> {
    match file_of_package(index.buck_file_list(), pkg) {
        Some(f) if path_parent(f) is Some => path_parent(f),
        _ => match first_occurrence(pkg, "//"@) {
            Some(k) => Some(join_spec(base, pkg.skip(k + 2))),
            None => None,
        },
    }
}

/// The items a menu offers. `targets` is the target list the views show,
/// `sel` the selected target's position in it, and `base` the directory
/// package paths are taken from.
pub open spec fn context_items_spec(
    kind: CtxView,
    index: Index,
    targets: Seq<Target>,
    sel: Option<usize>,
    templates: TemplateSet,
    base: Seq<char>,
) -> Seq<ItemView> {
    match kind {
        CtxView::Entry { path, is_dir } => if is_dir {
            dir_items(path)
        } else {
            let name = match crate::buck::last_index_of(path, '/') {
                Some(k) => path.skip(k + 1),
                None => path,
            };
            if name == "BUCK"@ || name == "BUILD"@ || name == "BUILD.bazel"@ {
                buck_items(index, path, base)
            } else {
                file_items(index, targets, sel, templates, path)
            }
        },
        CtxView::Target(i) => if i < targets.len() {
            let t = targets[i as int];
            seq![
                item("build "@ + t.name@, ActionView::BuildTarget(t.label@)),
                item("open BUCK file"@, ActionView::OpenTargetSource(i)),
                item("delete target"@, ActionView::DeleteTarget(t.label@)),
            ]
        } else {
            Seq::empty()
        },
        CtxView::Package(pkg) => match package_dir(index, pkg, base) {
            Some(d) => seq![item("new target in this package…"@, ActionView::NewTargetIn(d))],
            None => Seq::empty(),
        },
        CtxView::FileMenu => seq![
            item("new file (ctrl+n)"@, ActionView::NewFile),
            item("save (ctrl+s)"@, ActionView::Save),
            item("new workspace…"@, ActionView::WorkspacePrompt { create: true }),
            item("open workspace…"@, ActionView::WorkspacePrompt { create: false }),
        ],
    }
}

/// A new item.
fn mk(label: &str, action: MenuAction) -> (r: MenuItem)
    ensures
        r@ == item(label@, action@),
{
    MenuItem { label: label.to_owned(), action }
}

/// The rule the templates define for `call`.
fn rule_of<'a>(templates: &'a TemplateSet, call: &str) -> (r: Option<&'a Rule>)
    requires
        templates.wf(),
    ensures
        match r {
            Some(x) => rule_for(*templates, call@) == Some(*x),
            None => rule_for(*templates, call@) is None,
        },
{
    match templates.rule(call) {
        Some((_, x)) => Some(x),
        None => None,
    }
}

/// The attributes a file can be added to a target of rule `call` under.
fn attrs_for(templates: &TemplateSet, call: &str) -> (r: Vec<String>)
    requires
        templates.wf(),
    ensures
        views(r@) == add_attrs(*templates, call@),
{
    let mut raw: Vec<String> = Vec::new();
    let ghost rule = rule_for(*templates, call@);
    match rule_of(templates, call) {
        Some(x) => {
            if let Some(a) = &x.srcs {
                raw.push(a.attr.clone());
            }
            if let Some(a) = &x.hdrs {
                raw.push(a.attr.clone());
            }
            proof {
                assert(views(raw@) =~= attr_name(x.srcs) + attr_name(x.hdrs));
            }
        },
        None => {
            assert(views(raw@) =~= Seq::<Seq<char>>::empty());
        },
    }
    proof {
        reveal_strlit("srcs");
    }
    if raw.len() == 0 {
        let mut v: Vec<String> = Vec::new();
        v.push("srcs".to_owned());
        assert(views(v@) =~= seq!["srcs"@]);
        v
    } else if raw.len() == 2 && str_eq(raw[0].as_str(), raw[1].as_str()) {
        let mut v: Vec<String> = Vec::new();
        v.push(raw[0].clone());
        assert(views(v@) =~= seq![views(raw@)[0]]);
        v
    } else {
        raw
    }
}

/// Whether `labels` holds `label`.
fn holds(labels: &Vec<&str>, label: &str) -> (r: bool)
    ensures
        r == labels@.map_values(|s: &str| s@).contains(label@),
{
    let ghost ls = labels@.map_values(|s: &str| s@);
    let mut k: usize = 0;
    while k < labels.len()
        invariant
            ls == labels@.map_values(|s: &str| s@),
            k <= labels@.len(),
            forall|j: int| 0 <= j < k ==> ls[j] != label@,
        decreases labels@.len() - k,
    {
        if str_eq(labels[k], label) {
            assert(ls[k as int] == label@);
            return true;
        }
        k = k + 1;
    }
    false
}

/// The items a right-click menu offers on `kind`. `targets` is the target
/// list the views show, `selected_target` the selected target's position in
/// it, and `base` the directory package paths are taken from (the buck2
/// root, else the workspace root).
pub fn context_items(
    kind: &CtxTarget,
    index: &Index,
    targets: &Vec<Target>,
    selected_target: Option<usize>,
    templates: &TemplateSet,
    base: &str,
) -> (r: Vec<MenuItem>)
    requires
        index.wf(),
        templates.wf(),
    ensures
        item_views(r@) == context_items_spec(kind@, *index, targets@, selected_target, *templates, base@),
{
    let mut items: Vec<MenuItem> = Vec::new();
    match kind {
        CtxTarget::Entry { path, is_dir } => {
            if *is_dir {
                items.push(mk("new file…", MenuAction::NewEntryPrompt { dir: path.clone(), folder: false }));
                items.push(mk("new folder…", MenuAction::NewEntryPrompt { dir: path.clone(), folder: true }));
                items.push(mk("new build target here…", MenuAction::NewTargetIn(path.clone())));
                assert(item_views(items@) =~= dir_items(path@));
            } else if is_buck_file_name(file_name(path.as_str()).as_str()) {
                entry_buck_items(index, path.as_str(), base, &mut items);
            } else {
                entry_file_items(index, targets, selected_target, templates, path.as_str(), &mut items);
            }
        },
        CtxTarget::Target(i) => {
            if *i < targets.len() {
                let t = &targets[*i];
                let mut label = "build ".to_owned();
                label.append(t.name.as_str());
                items.push(MenuItem { label, action: MenuAction::BuildTarget(t.label.clone()) });
                items.push(mk("open BUCK file", MenuAction::OpenTargetSource(*i)));
                items.push(mk("delete target", MenuAction::DeleteTarget(t.label.clone())));
                proof {
                    reveal_strlit("build ");
                }
                assert(item_views(items@) =~= context_items_spec(kind@, *index, targets@, selected_target, *templates, base@));
            }
        },
        CtxTarget::Package(pkg) => {
            match dir_of_package(index, pkg.as_str(), base) {
                Some(d) => {
                    items.push(mk("new target in this package…", MenuAction::NewTargetIn(d)));
                },
                None => {},
            }
            assert(item_views(items@) =~= context_items_spec(kind@, *index, targets@, selected_target, *templates, base@));
        },
        CtxTarget::FileMenu => {
            items.push(mk("new file (ctrl+n)", MenuAction::NewFile));
            items.push(mk("save (ctrl+s)", MenuAction::Save));
            items.push(mk("new workspace…", MenuAction::WorkspacePrompt { create: true }));
            items.push(mk("open workspace…", MenuAction::WorkspacePrompt { create: false }));
            assert(item_views(items@) =~= context_items_spec(kind@, *index, targets@, selected_target, *templates, base@));
        },
    }
    items
}

/// The last part of a path.
fn file_name(path: &str) -> (r: String)
    ensures
        r@ == match crate::buck::last_index_of(path@, '/') {
            Some(k) => path@.skip(k + 1),
            None => path@,
        },
{
    let n = path.unicode_len();
    match crate::big::last_char(path, '/') {
        Some(k) => {
            proof {
                crate::buck::lemma_last_index_bound(path@, '/');
            }
            let s = path.substring_char(k + 1, n);
            assert(s@ =~= path@.skip(k + 1));
            s.to_owned()
        },
        None => path.to_owned(),
    }
}

/// The package a build file defines.
fn package_of_buck_file(index: &Index, path: &str, base: &str) -> (r: Option<String>)
    requires
        index.wf(),
    ensures
        match r {
            Some(p) => buck_package(*index, path@, base@) == Some(p@),
            None => buck_package(*index, path@, base@) is None,
        },
{
    match index.package_of_file(path) {
        Some(p) => Some(p.to_owned()),
        None => match path_parent_of(path) {
            Some(d) => match strip_prefix_of(base, d.as_str()) {
                Some(rel) => {
                    let mut s = "//".to_owned();
                    s.append(rel.as_str());
                    Some(s)
                },
                None => None,
            },
            None => None,
        },
    }
}

/// Append the items for a build file.
fn entry_buck_items(index: &Index, path: &str, base: &str, items: &mut Vec<MenuItem>)
    requires
        index.wf(),
    ensures
        item_views(final(items)@) == item_views(old(items)@) + buck_items(*index, path@, base@),
{
    let ghost start = item_views(items@);
    let ghost build: Seq<ItemView> = match buck_package(*index, path@, base@) {
        Some(p) => seq![item("build "@ + p + ":"@, ActionView::BuildTarget(p + ":"@))],
        None => Seq::empty(),
    };
    match package_of_buck_file(index, path, base) {
        Some(p) => {
            let mut label = "build ".to_owned();
            label.append(p.as_str());
            label.append(":");
            let mut target = p.clone();
            target.append(":");
            items.push(MenuItem { label, action: MenuAction::BuildTarget(target) });
        },
        None => {},
    }
    assert(item_views(items@) =~= start + build);
    let ghost mid = item_views(items@);
    match path_parent_of(path) {
        Some(d) => {
            items.push(mk("add target…", MenuAction::NewTargetIn(d)));
        },
        None => {},
    }
    assert(item_views(items@) =~= start + buck_items(*index, path@, base@));
}

/// Append the items for a file other than a build file.
fn entry_file_items(
    index: &Index,
    targets: &Vec<Target>,
    sel: Option<usize>,
    templates: &TemplateSet,
    path: &str,
    items: &mut Vec<MenuItem>,
)
    requires
        index.wf(),
        templates.wf(),
    ensures
        item_views(final(items)@) == item_views(old(items)@) + file_items(*index, targets@, sel, *templates, path@),
{
    let ghost start = item_views(items@);
    let ghost adds: Seq<ItemView> = match sel {
        Some(i) => if i < targets@.len() && !owners(*index, path@).contains(targets@[i as int].label@) {
            let t = targets@[i as int];
            add_attrs(*templates, after_last_colon(t.rule_type@)).map_values(
                |a: Seq<char>|
                    item(
                        "add to "@ + t.name@ + " ("@ + a + ")"@,
                        ActionView::AddFileAs { label: t.label@, attr: a },
                    ),
            )
        } else {
            Seq::empty()
        },
        None => Seq::empty(),
    };
    match sel {
        Some(i) => {
            if i < targets.len() {
                let t = &targets[i];
                let owners_now = index.targets_of(path);
                if !holds(&owners_now, t.label.as_str()) {
                    let attrs = attrs_for(templates, t.rule_name());
                    let ghost al = views(attrs@);
                    let mut k: usize = 0;
                    while k < attrs.len()
                        invariant
                            al == views(attrs@),
                            k <= attrs@.len(),
                            item_views(items@) == start + al.take(k as int).map_values(
                                |a: Seq<char>|
                                    item(
                                        "add to "@ + t.name@ + " ("@ + a + ")"@,
                                        ActionView::AddFileAs { label: t.label@, attr: a },
                                    ),
                            ),
                        decreases attrs@.len() - k,
                    {
                        let a = &attrs[k];
                        let mut label = "add to ".to_owned();
                        label.append(t.name.as_str());
                        label.append(" (");
                        label.append(a.as_str());
                        label.append(")");
                        let ghost before = item_views(items@);
                        items.push(MenuItem { label, action: MenuAction::AddFileAs { label: t.label.clone(), attr: a.clone() } });
                        proof {
                            assert(al.take(k + 1) =~= al.take(k as int).push(al[k as int]));
                            assert(item_views(items@) =~= before.push(
                                item(
                                    "add to "@ + t.name@ + " ("@ + al[k as int] + ")"@,
                                    ActionView::AddFileAs { label: t.label@, attr: al[k as int] },
                                ),
                            ));
                        }
                        k = k + 1;
                    }
                    assert(al.take(al.len() as int) =~= al);
                }
            }
        },
        None => {},
    }
    assert(item_views(items@) =~= start + adds);
    let ghost mid = item_views(items@);
    let ghost beside: Seq<ItemView> = match path_parent(path@) {
        Some(d) => seq![
            item("new file…"@, ActionView::NewEntryPrompt { dir: d, folder: false }),
            item("new build target here…"@, ActionView::NewTargetIn(d)),
        ],
        None => Seq::empty(),
    };
    match path_parent_of(path) {
        Some(d) => {
            let d2 = d.clone();
            items.push(mk("new file…", MenuAction::NewEntryPrompt { dir: d2, folder: false }));
            items.push(mk("new build target here…", MenuAction::NewTargetIn(d)));
        },
        None => {},
    }
    assert(item_views(items@) =~= mid + beside);
    assert(file_items(*index, targets@, sel, *templates, path@) == adds + beside);
    assert(item_views(items@) =~= start + file_items(*index, targets@, sel, *templates, path@));
}

/// The directory of the BUCK file the index has for a package.
fn dir_of_package_file(index: &Index, pkg: &str) -> (r: Option<String>)
    requires
        index.wf(),
    ensures
        match file_of_package(index.buck_file_list(), pkg@) {
            Some(f) => match r {
                Some(d) => path_parent(f) == Some(d@),
                None => path_parent(f) is None,
            },
            None => r is None,
        },
{
    match index.buck_file(pkg) {
        Some(f) => {
            proof {
                let list = index.buck_file_list();
                let k = choose|k: int|
                    0 <= k < list.len() && list[k].0 == pkg@ && list[k].1 == f@ && forall|j: int|
                        0 <= j < k ==> (#[trigger] list[j]).0 != pkg@;
                lemma_file_of_package(list, pkg@, k);
            }
            path_parent_of(f)
        },
        None => {
            proof {
                let list = index.buck_file_list();
                assert(!exists|k: int| 0 <= k < list.len() && (#[trigger] list[k]).0 == pkg@);
            }
            None
        },
    }
}

/// The path after the first `//` of a package, under `base`.
fn dir_under_base(pkg: &str, base: &str) -> (r: Option<String>)
    ensures
        match r {
            Some(d) => first_occurrence(pkg@, "//"@) matches Some(k) && d@ == join_spec(base@, pkg@.skip(k + 2)),
            None => first_occurrence(pkg@, "//"@) is None,
        },
{
    match find_first(pkg, "//") {
        Some(k) => {
            let n = pkg.unicode_len();
            proof {
                reveal_strlit("//");
            }
            let rest = pkg.substring_char(k + 2, n);
            assert(rest@ =~= pkg@.skip(k + 2));
            Some(join_path(base, rest))
        },
        None => None,
    }
}

/// The directory of a package.
fn dir_of_package(index: &Index, pkg: &str, base: &str) -> (r: Option<String>)
    requires
        index.wf(),
    ensures
        match r {
            Some(d) => package_dir(*index, pkg@, base@) == Some(d@),
            None => package_dir(*index, pkg@, base@) is None,
        },
{
    match dir_of_package_file(index, pkg) {
        Some(d) => Some(d),
        None => dir_under_base(pkg, base),
    }
}

} // verus!
