//! The editor's other decisions on what the user asks for: the names and
//! paths typed into its prompts, which label a build runs, whether a build
//! may start, which packages are folded, and where new things go. Touching
//! the disk, running `buck2` and drawing are the application's part.
use vstd::prelude::*;
use crate::buck::Target;
use crate::index::{join_path, join_spec, path_parent, path_parent_of};
use crate::lang::{language_name, language_spec};
use crate::paths::{strip_prefix_of, strip_spec};
use crate::strings::{decimal, decimal_string, starts_with_text, str_eq, str_starts_with, str_trim, trim_text, views};
use crate::tabs::{title_spec, Tab, Tabs};
use crate::template::{Manifest, Rule, TemplateSet};

verus! {

/// What the new file or folder named `input` in `dir` is: its path, or
/// why the name is refused. The name is trimmed, and must be plain: not
/// empty, and without a path separator.
pub open spec fn new_entry_spec(dir: Seq<char>, input: Seq<char>) -> Result<Seq<char>, Seq<char>> {
    let name = trim_text(input);
    if name.len() == 0 || name.contains('/') {
        Err("give it a plain name (no path separators)"@)
    } else {
        Ok(join_spec(dir, name))
    }
}

/// The path of a new file or folder named `input` in `dir`.
pub fn new_entry_path(dir: &str, input: &str) -> (r: Result<String, String>)
    ensures
        match r {
            Ok(p) => new_entry_spec(dir@, input@) == Ok::<Seq<char>, Seq<char>>(p@),
            Err(e) => new_entry_spec(dir@, input@) == Err::<Seq<char>, Seq<char>>(e@),
        },
{
    let name = str_trim(input);
    let n = name.unicode_len();
    let mut k: usize = 0;
    while k < n
        invariant
            k <= n,
            n == name@.len(),
            name@ == trim_text(input@),
            forall|j: int| 0 <= j < k ==> name@[j] != '/',
        decreases n - k,
    {
        if name.get_char(k) == '/' {
            assert(name@.contains('/')) by {
                assert(name@[k as int] == '/');
            }
            return Err("give it a plain name (no path separators)".to_owned());
        }
        k = k + 1;
    }
    if n == 0 {
        return Err("give it a plain name (no path separators)".to_owned());
    }
    Ok(join_path(dir, name))
}

/// What the new-target form decides: the rule call and the trimmed name
/// to create, or what is missing. The rule is asked for first.
pub open spec fn new_target_spec(name_input: Seq<char>, rule: Option<Seq<char>>) -> Result<
    (Seq<char>, Seq<char>),
    Seq<char>,
> {
    match rule {
        None => Err("pick a rule type first"@),
        Some(call) => {
            let name = trim_text(name_input);
            if name.len() == 0 {
                Err("target needs a name"@)
            } else {
                Ok((call, name))
            }
        },
    }
}

/// The rule call and name the new-target form asks for.
pub fn new_target(name_input: &str, rule: Option<&str>) -> (r: Result<(String, String), String>)
    ensures
        match r {
            Ok((c, n)) => new_target_spec(name_input@, crate::dirs::opt_chars(rule)) == Ok::<
                (Seq<char>, Seq<char>),
                Seq<char>,
            >((c@, n@)),
            Err(e) => new_target_spec(name_input@, crate::dirs::opt_chars(rule)) == Err::<
                (Seq<char>, Seq<char>),
                Seq<char>,
            >(e@),
        },
{
    match rule {
        None => Err("pick a rule type first".to_owned()),
        Some(call) => {
            let name = str_trim(name_input);
            if name.unicode_len() == 0 {
                Err("target needs a name".to_owned())
            } else {
                Ok((call.to_owned(), name.to_owned()))
            }
        },
    }
}

/// The workspace path typed into the workspace prompt: trimmed, with a
/// leading `~/` taken from the home directory when there is one; nothing
/// when the input is blank.
pub open spec fn workspace_path_spec(input: Seq<char>, home: Option<Seq<char>>) -> Option<Seq<char>> {
    let t = trim_text(input);
    if t.len() == 0 {
        None
    } else if starts_with_text(t, "~/"@) {
        match home {
            Some(h) => Some(join_spec(h, t.skip(2))),
            None => Some(t),
        }
    } else {
        Some(t)
    }
}

/// The workspace path typed into the workspace prompt.
pub fn workspace_path(input: &str, home: Option<&str>) -> (r: Option<String>)
    ensures
        match r {
            Some(p) => workspace_path_spec(input@, crate::dirs::opt_chars(home)) == Some(p@),
            None => workspace_path_spec(input@, crate::dirs::opt_chars(home)) is None,
        },
{
    let t = str_trim(input);
    let n = t.unicode_len();
    if n == 0 {
        return None;
    }
    proof {
        reveal_strlit("~/");
    }
    if str_starts_with(t, "~/") {
        match home {
            Some(h) => {
                let rest = t.substring_char(2, n);
                assert(rest@ =~= t@.skip(2));
                Some(join_path(h, rest))
            },
            None => Some(t.to_owned()),
        }
    } else {
        Some(t.to_owned())
    }
}

/// What the workspace prompt starts with: for a new workspace, a
/// `my-project` folder beside the current root; else the current root.
pub open spec fn workspace_prefill_spec(root: Seq<char>, create: bool) -> Seq<char> {
    if create {
        let above = match path_parent(root) {
            Some(p) => p,
            None => root,
        };
        join_spec(above, "my-project"@)
    } else {
        root
    }
}

/// What the workspace prompt starts with.
pub fn workspace_prefill(root: &str, create: bool) -> (r: String)
    ensures
        r@ == workspace_prefill_spec(root@, create),
{
    if create {
        let above = match path_parent_of(root) {
            Some(p) => p,
            None => root.to_owned(),
        };
        join_path(above.as_str(), "my-project")
    } else {
        root.to_owned()
    }
}

/// The label the Build button builds: the selected target's, or every
/// target (`//...`) when none is selected.
pub open spec fn build_label_spec(targets: Seq<Target>, selected: Option<usize>) -> Seq<char> {
    match selected {
        Some(i) => if i < targets.len() {
            targets[i as int].label@
        } else {
            "//..."@
        },
        None => "//..."@,
    }
}

/// The label the Build button builds.
pub fn build_label(targets: &Vec<Target>, selected: Option<usize>) -> (r: String)
    ensures
        r@ == build_label_spec(targets@, selected),
{
    match selected {
        Some(i) => if i < targets.len() {
            targets[i].label.clone()
        } else {
            "//...".to_owned()
        },
        None => "//...".to_owned(),
    }
}

/// Whether a build of `label` may start, and if so the status line and the
/// console's first line; else why not. A build needs a buck2 workspace,
/// and one runs at a time.
pub open spec fn build_start_spec(has_root: bool, building: bool, label: Seq<char>) -> Result<
    (Seq<char>, Seq<char>),
    Seq<char>,
> {
    if !has_root {
        Err("no buck2 workspace (.buckconfig not found)"@)
    } else if building {
        Err("a build is already running"@)
    } else {
        Ok(("building "@ + label + "…"@, "$ buck2 build "@ + label + "\n"@))
    }
}

/// Whether a build of `label` may start.
pub fn build_start(has_root: bool, building: bool, label: &str) -> (r: Result<(String, String), String>)
    ensures
        match r {
            Ok((s, c)) => build_start_spec(has_root, building, label@) == Ok::<
                (Seq<char>, Seq<char>),
                Seq<char>,
            >((s@, c@)),
            Err(e) => build_start_spec(has_root, building, label@) == Err::<
                (Seq<char>, Seq<char>),
                Seq<char>,
            >(e@),
        },
{
    if !has_root {
        return Err("no buck2 workspace (.buckconfig not found)".to_owned());
    }
    if building {
        return Err("a build is already running".to_owned());
    }
    let mut status = "building ".to_owned();
    status.append(label);
    status.append("…");
    let mut console = "$ buck2 build ".to_owned();
    console.append(label);
    console.append("\n");
    Ok((status, console))
}

/// The position of the first target with this label.
pub fn target_by_label(targets: &Vec<Target>, label: &str) -> (r: Option<usize>)
    ensures
        match r {
            Some(i) => i < targets@.len() && targets@[i as int].label@ == label@ && forall|j: int|
                0 <= j < i ==> (#[trigger] targets@[j]).label@ != label@,
            None => forall|j: int| 0 <= j < targets@.len() ==> (#[trigger] targets@[j]).label@ != label@,
        },
{
    let mut k: usize = 0;
    while k < targets.len()
        invariant
            k <= targets@.len(),
            forall|j: int| 0 <= j < k ==> (#[trigger] targets@[j]).label@ != label@,
        decreases targets@.len() - k,
    {
        if str_eq(targets[k].label.as_str(), label) {
            return Some(k);
        }
        k = k + 1;
    }
    None
}

/// Where the new-target form creates: the selected entry when it is a
/// directory, the directory of a selected file (the root when it has
/// none), and the root when nothing is selected.
pub open spec fn selected_dir_spec(selected: Option<Seq<char>>, is_dir: bool, root: Seq<char>) -> Seq<char> {
    match selected {
        Some(p) => if is_dir {
            p
        } else {
            match path_parent(p) {
                Some(d) => d,
                None => root,
            }
        },
        None => root,
    }
}

/// Where the new-target form creates; `is_dir` says whether the selected
/// entry is a directory.
pub fn selected_dir(selected: Option<&str>, is_dir: bool, root: &str) -> (r: String)
    ensures
        r@ == selected_dir_spec(crate::dirs::opt_chars(selected), is_dir, root@),
{
    match selected {
        Some(p) => if is_dir {
            p.to_owned()
        } else {
            match path_parent_of(p) {
                Some(d) => d,
                None => root.to_owned(),
            }
        },
        None => root.to_owned(),
    }
}

/// A click on a title-bar menu: the File menu opens, or closes when it is
/// open; the others answer that they do not exist yet.
pub open spec fn menu_click_spec(name: Seq<char>, file_menu_open: bool) -> (bool, Option<Seq<char>>) {
    if name == "File"@ {
        (!file_menu_open, None)
    } else {
        (file_menu_open, Some(name + " menu: not implemented yet"@))
    }
}

/// A click on a title-bar menu: whether the File menu is open after it,
/// and the status line to show, if any.
pub fn menu_click(name: &str, file_menu_open: bool) -> (r: (bool, Option<String>))
    ensures
        (r.0, match r.1 {
            Some(s) => Some(s@),
            None => None,
        }) == menu_click_spec(name@, file_menu_open),
{
    if str_eq(name, "File") {
        (!file_menu_open, None)
    } else {
        let mut s = name.to_owned();
        s.append(" menu: not implemented yet");
        (file_menu_open, Some(s))
    }
}

/// The names of the templates, joined by `, `.
pub open spec fn joined_names(ms: Seq<(Manifest, String)>) -> Seq<char>
    decreases ms.len(),
{
    if ms.len() == 0 {
        Seq::empty()
    } else if ms.len() == 1 {
        ms[0].0.template.name@
    } else {
        joined_names(ms.drop_last()) + ", "@ + ms.last().0.template.name@
    }
}

/// The status line the editor starts with: the templates it loaded, by
/// name, or that it found none.
pub open spec fn ready_status_spec(ms: Seq<(Manifest, String)>) -> Seq<char> {
    if ms.len() == 0 {
        "ready (no templates found)"@
    } else {
        "ready · templates: "@ + joined_names(ms)
    }
}

/// The status line the editor starts with.
pub fn ready_status(templates: &TemplateSet) -> (r: String)
    ensures
        r@ == ready_status_spec(templates.manifest_list()),
{
    let ms = templates.entries();
    if ms.len() == 0 {
        return "ready (no templates found)".to_owned();
    }
    let mut names = String::new();
    let mut i: usize = 0;
    while i < ms.len()
        invariant
            i <= ms@.len(),
            names@ == joined_names(ms@.take(i as int)),
        decreases ms@.len() - i,
    {
        proof {
            assert(ms@.take(i + 1).drop_last() =~= ms@.take(i as int));
            assert(ms@.take(i + 1).last() == ms@[i as int]);
        }
        if i > 0 {
            names.append(", ");
        }
        names.append(ms[i].0.template.name.as_str());
        proof {
            if i == 0 {
                assert(ms@.take(1).len() == 1);
            }
        }
        i = i + 1;
    }
    assert(ms@.take(i as int) =~= ms@);
    let mut r = "ready · templates: ".to_owned();
    r.append(names.as_str());
    r
}

/// The window title: the focused tab's title after the editor's name.
pub open spec fn window_title_spec(tabs: Seq<Tab>, active: Option<usize>) -> Seq<char> {
    match active {
        Some(i) => if i < tabs.len() {
            "skyde — "@ + title_spec(tabs[i as int]@.path)
        } else {
            "skyde"@
        },
        None => "skyde"@,
    }
}

/// The window title.
pub fn window_title(tabs: &Tabs) -> (r: String)
    ensures
        r@ == window_title_spec(tabs.open@, tabs.active),
{
    match tabs.active {
        Some(i) => if i < tabs.open.len() {
            let mut r = "skyde — ".to_owned();
            let t = tabs.open[i].title();
            r.append(t.as_str());
            r
        } else {
            "skyde".to_owned()
        },
        None => "skyde".to_owned(),
    }
}

/// The right end of the status bar on a tab: the cursor's line and column,
/// counted from one, and the language of the tab's text.
pub open spec fn cursor_status_spec(line: nat, col: nat, syntax: Seq<char>) -> Seq<char> {
    "Ln "@ + decimal(line + 1) + ", Col "@ + decimal(col + 1) + "   "@ + language_spec(syntax)
}

/// The right end of the status bar on a tab.
pub fn cursor_status(line: u64, col: u64, syntax: &str) -> (r: String)
    requires
        line < u64::MAX,
        col < u64::MAX,
    ensures
        r@ == cursor_status_spec(line as nat, col as nat, syntax@),
{
    let mut r = "Ln ".to_owned();
    r.append(decimal_string(line + 1).as_str());
    r.append(", Col ");
    r.append(decimal_string(col + 1).as_str());
    r.append("   ");
    r.append(language_name(syntax));
    r
}

/// Every rule call the templates define, template by template, rule by
/// rule: what the new-target form offers.
pub open spec fn rule_calls_spec(ms: Seq<(Manifest, String)>) -> Seq<Seq<char>>
    decreases ms.len(),
{
    if ms.len() == 0 {
        Seq::empty()
    } else {
        rule_calls_spec(ms.drop_last()) + ms.last().0.lark.rules@.map_values(|r: Rule| r.call@)
    }
}

/// Every rule call the templates define.
pub fn rule_calls(templates: &TemplateSet) -> (r: Vec<String>)
    ensures
        views(r@) == rule_calls_spec(templates.manifest_list()),
{
    let ms = templates.entries();
    let mut out: Vec<String> = Vec::new();
    let mut i: usize = 0;
    while i < ms.len()
        invariant
            i <= ms@.len(),
            views(out@) == rule_calls_spec(ms@.take(i as int)),
        decreases ms@.len() - i,
    {
        let rules = &ms[i].0.lark.rules;
        let ghost base = views(out@);
        let mut k: usize = 0;
        while k < rules.len()
            invariant
                k <= rules@.len(),
                views(out@) == base + rules@.take(k as int).map_values(|r: Rule| r.call@),
            decreases rules@.len() - k,
        {
            let c = rules[k].call.clone();
            let ghost prev = views(out@);
            out.push(c);
            proof {
                assert(views(out@) =~= prev.push(c@));
                assert(rules@.take(k + 1).map_values(|r: Rule| r.call@) =~= rules@.take(k as int).map_values(
                    |r: Rule| r.call@,
                ).push(rules@[k as int].call@));
            }
            k = k + 1;
        }
        proof {
            assert(rules@.take(k as int) =~= rules@);
            assert(ms@.take(i + 1).drop_last() =~= ms@.take(i as int));
            assert(ms@.take(i + 1).last() == ms@[i as int]);
        }
        i = i + 1;
    }
    assert(ms@.take(i as int) =~= ms@);
    out
}

/// The heading of the new-target form: the package the target goes in,
/// the directory relative to the workspace root.
pub open spec fn new_target_heading_spec(dir: Seq<char>, root: Seq<char>) -> Seq<char> {
    let rel = match strip_spec(root, dir) {
        Some(r) => r,
        None => dir,
    };
    "new target in //"@ + rel
}

/// The heading of the new-target form.
pub fn new_target_heading(dir: &str, root: &str) -> (r: String)
    ensures
        r@ == new_target_heading_spec(dir@, root@),
{
    let mut r = "new target in //".to_owned();
    match strip_prefix_of(root, dir) {
        Some(rel) => r.append(rel.as_str()),
        None => r.append(dir),
    }
    r
}

/// The packages folded in the targets view, each once.
pub struct Folds {
    pkgs: Vec<String>,
}

impl Folds {
    /// The folded packages.
    pub closed spec fn folded(&self) -> Set<Seq<char>> {
        views(self.pkgs@).to_set()
    }

    /// No package is listed twice.
    pub closed spec fn wf(&self) -> bool {
        forall|i: int, j: int|
            0 <= i < j < self.pkgs@.len() ==> (#[trigger] self.pkgs@[i])@ != (#[trigger] self.pkgs@[j])@
    }

    /// Nothing folded.
    pub fn new() -> (r: Folds)
        ensures
            r.wf(),
            r.folded() == Set::<Seq<char>>::empty(),
    {
        let r = Folds { pkgs: Vec::new() };
        assert(views(r.pkgs@).to_set() =~= Set::<Seq<char>>::empty());
        r
    }

    /// Where `pkg` is in the list.
    fn position(&self, pkg: &str) -> (r: Option<usize>)
        ensures
            match r {
                Some(k) => k < self.pkgs@.len() && self.pkgs@[k as int]@ == pkg@,
                None => !self.folded().contains(pkg@),
            },
    {
        let mut k: usize = 0;
        while k < self.pkgs.len()
            invariant
                k <= self.pkgs@.len(),
                forall|j: int| 0 <= j < k ==> (#[trigger] self.pkgs@[j])@ != pkg@,
            decreases self.pkgs@.len() - k,
        {
            if str_eq(self.pkgs[k].as_str(), pkg) {
                return Some(k);
            }
            k = k + 1;
        }
        proof {
            if views(self.pkgs@).to_set().contains(pkg@) {
                let j = choose|j: int| 0 <= j < views(self.pkgs@).len() && views(self.pkgs@)[j] == pkg@;
                assert(self.pkgs@[j]@ == pkg@);
            }
        }
        None
    }

    /// Whether `pkg` is folded.
    pub fn is_folded(&self, pkg: &str) -> (r: bool)
        ensures
            r == self.folded().contains(pkg@),
    {
        let p = self.position(pkg);
        proof {
            if let Some(k) = p {
                assert(views(self.pkgs@)[k as int] == pkg@);
            }
        }
        p.is_some()
    }

    /// Fold `pkg`, or unfold it when it is folded.
    pub fn toggle(&mut self, pkg: &str)
        requires
            old(self).wf(),
        ensures
            final(self).wf(),
            final(self).folded() == if old(self).folded().contains(pkg@) {
                old(self).folded().remove(pkg@)
            } else {
                old(self).folded().insert(pkg@)
            },
    {
        let ghost before = views(self.pkgs@);
        match self.position(pkg) {
            Some(k) => {
                self.pkgs.remove(k);
                proof {
                    assert(before[k as int] == pkg@);
                    assert(views(self.pkgs@) =~= before.remove(k as int));
                    assert forall|x: Seq<char>| #[trigger] views(self.pkgs@).to_set().contains(x) == before.to_set().remove(pkg@).contains(x) by {
                        if views(self.pkgs@).contains(x) {
                            let j = choose|j: int| 0 <= j < views(self.pkgs@).len() && views(self.pkgs@)[j] == x;
                            if j < k {
                                assert(before[j] == x);
                            } else {
                                assert(before[j + 1] == x);
                                assert(self.pkgs@[j] == old(self).pkgs@[j + 1]);
                            }
                        }
                        if x != pkg@ && before.contains(x) {
                            let j = choose|j: int| 0 <= j < before.len() && before[j] == x;
                            if j < k {
                                assert(views(self.pkgs@)[j] == x);
                            } else {
                                assert(j != k);
                                assert(views(self.pkgs@)[j - 1] == x);
                            }
                        }
                    }
                    assert(views(self.pkgs@).to_set() =~= before.to_set().remove(pkg@));
                }
            },
            None => {
                self.pkgs.push(pkg.to_owned());
                proof {
                    assert(views(self.pkgs@) =~= before.push(pkg@));
                    assert(views(self.pkgs@).to_set() =~= before.to_set().insert(pkg@)) by {
                        assert forall|x: Seq<char>| #[trigger] views(self.pkgs@).to_set().contains(x) == before.to_set().insert(pkg@).contains(x) by {
                            if views(self.pkgs@).contains(x) {
                                let j = choose|j: int| 0 <= j < views(self.pkgs@).len() && views(self.pkgs@)[j] == x;
                                if j < before.len() {
                                    assert(before[j] == x);
                                }
                            }
                            if before.contains(x) {
                                let j = choose|j: int| 0 <= j < before.len() && before[j] == x;
                                assert(views(self.pkgs@)[j] == x);
                            }
                            if x == pkg@ {
                                assert(views(self.pkgs@)[before.len() as int] == x);
                            }
                        }
                    }
                    assert forall|i: int| 0 <= i < before.len() implies (#[trigger] self.pkgs@[i])@ != pkg@ by {
                        assert(before[i] == self.pkgs@[i]@);
                        assert(before.contains(before[i]));
                    }
                }
            },
        }
    }

    /// Unfold every package.
    pub fn clear(&mut self)
        ensures
            final(self).wf(),
            final(self).folded() == Set::<Seq<char>>::empty(),
    {
        self.pkgs.clear();
        assert(views(self.pkgs@).to_set() =~= Set::<Seq<char>>::empty());
    }
}

/// Folding a package twice leaves the folds as they were.
pub proof fn law_toggle_twice(folded: Set<Seq<char>>, pkg: Seq<char>)
    ensures
        ({
            let once = if folded.contains(pkg) {
                folded.remove(pkg)
            } else {
                folded.insert(pkg)
            };
            let twice = if once.contains(pkg) {
                once.remove(pkg)
            } else {
                once.insert(pkg)
            };
            twice == folded
        }),
{
    if folded.contains(pkg) {
        assert(folded.remove(pkg).insert(pkg) =~= folded);
    } else {
        assert(folded.insert(pkg).remove(pkg) =~= folded);
    }
}

} // verus!
