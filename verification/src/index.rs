//! Workspace index built by parsing BUCK/BUILD files directly with the
//! starlark engine — no buck2 required. Answers both directions of the
//! file⇄target question and gives the target view a data source when buck2
//! isn't installed. Walking the directory tree and reading the files is the
//! application's part; what each file adds to the index is decided here.
use vstd::prelude::*;
use crate::buck::{last_index_of, Target, TargetView};
use crate::paths::{components, normal_path, normal_spec, same_path, strip_prefix_of, strip_spec};
use crate::edit::{list_entries_in, list_entries_spec, list_rules_in, rule_entries, RuleEntry, RuleEntryView, RuleSelector};
use crate::starlark::{read_statements, statements_spec, stmts_fit, StmtNode};
use crate::strings::{
    contains_text, replace_all, replace_str, starts_with_text, str_contains, str_eq, str_starts_with,
    utf8, views,
};
use crate::template::{definition_of, file_attrs_spec, lemma_definition_bound, manifests_of, FileAttr, Manifest, TemplateSet};

verus! {

/// How many times `x` occurs in `s`.
pub open spec fn count_of(s: Seq<Seq<char>>, x: Seq<char>) -> nat
    decreases s.len(),
{
    if s.len() == 0 {
        0
    } else {
        count_of(s.drop_last(), x) + if s.last() == x {
            1nat
        } else {
            0nat
        }
    }
}

/// Counting over one more item.
proof fn lemma_count_push(s: Seq<Seq<char>>, x: Seq<char>, g: Seq<char>)
    ensures
        count_of(s.push(x), g) == count_of(s, g) + if x == g {
            1nat
        } else {
            0nat
        },
{
    assert(s.push(x).drop_last() =~= s);
}

/// `n` copies of the target index `i`.
pub open spec fn repeat(i: usize, n: nat) -> Seq<usize> {
    Seq::new(n, |_j: int| i)
}

/// The directory that holds the file at `p`: the text before the last
/// `'/'`, `"/"` when that is the first character, `""` when there is none.
pub open spec fn parent_dir_spec(p: Seq<char>) -> Seq<char> {
    match last_index_of(p, '/') {
        Some(k) => if k == 0 {
            "/"@
        } else {
            p.take(k)
        },
        None => Seq::empty(),
    }
}

/// `s` without its trailing `'/'` characters.
pub open spec fn trim_slashes(s: Seq<char>) -> Seq<char>
    decreases s.len(),
{
    if s.len() > 0 && s.last() == '/' {
        trim_slashes(s.drop_last())
    } else {
        s
    }
}

/// The path `dir` relative to `root`, as `Path::strip_prefix` decides it
/// (by components): empty when they are the same directory, the rest when
/// `dir` lies inside `root`, and `dir` itself otherwise.
pub open spec fn relative_spec(root: Seq<char>, dir: Seq<char>) -> Seq<char> {
    match strip_spec(root, dir) {
        Some(r) => r,
        None => dir,
    }
}

/// The package label of the BUCK file at `buck_file` in the workspace at
/// `root`: `//` and its directory relative to the root, with `/` for `\\`.
pub open spec fn package_spec(root: Seq<char>, buck_file: Seq<char>) -> Seq<char> {
    "//"@ + replace_all(relative_spec(root, parent_dir_spec(buck_file)), "\\"@, "/"@)
}

/// The path `rel` taken from the directory `dir`: `rel` itself when it is
/// absolute or `dir` is empty, else the two joined by one `'/'`.
pub open spec fn join_spec(dir: Seq<char>, rel: Seq<char>) -> Seq<char> {
    if starts_with_text(rel, "/"@) || dir.len() == 0 {
        rel
    } else if dir.last() == '/' {
        dir + rel
    } else {
        dir + "/"@ + rel
    }
}

/// Whether a list entry is a plain relative path, which links a file.
/// Labels (`:x`, `//x`) and globs (`*`) stay display-only.
pub open spec fn is_file_link_spec(e: Seq<char>) -> bool {
    !starts_with_text(e, ":"@) && !starts_with_text(e, "//"@) && !contains_text(e, "*"@)
}

/// The attributes that carry the files of a rule call: those its template
/// names, else `srcs`.
pub open spec fn file_attr_names(ms: Seq<Manifest>, call: Seq<char>) -> Seq<Seq<char>> {
    match definition_of(ms, call) {
        Some((mi, ri)) => file_attrs_spec(ms[mi].lark.rules@[ri]).map_values(|f: FileAttr| f.attr@),
        None => seq!["srcs"@],
    }
}

/// The attribute that carries the deps of a rule call: the one its template
/// names, else `deps`.
pub open spec fn dep_attr_name(ms: Seq<Manifest>, call: Seq<char>) -> Seq<char> {
    match definition_of(ms, call) {
        Some((mi, ri)) => match ms[mi].lark.rules@[ri].deps {
            Some(d) => d.attr@,
            None => "deps"@,
        },
        None => "deps"@,
    }
}

/// The entries of `attr` in the rule `call` named `name`, or none when
/// `list_entries` refuses.
pub open spec fn entries_or_none(
    src: Seq<u8>,
    stmts: Seq<StmtNode>,
    call: Seq<char>,
    attr: Seq<char>,
    name: Seq<char>,
) -> Seq<Seq<char>> {
    match list_entries_spec(src, stmts, call, attr, Some(name)) {
        Ok(v) => v,
        Err(_) => Seq::empty(),
    }
}

/// The entries of all of `attrs`, one attribute after the other.
pub open spec fn listed_in(
    src: Seq<u8>,
    stmts: Seq<StmtNode>,
    call: Seq<char>,
    name: Seq<char>,
    attrs: Seq<Seq<char>>,
) -> Seq<Seq<char>>
    decreases attrs.len(),
{
    if attrs.len() == 0 {
        Seq::empty()
    } else {
        listed_in(src, stmts, call, name, attrs.drop_last()) + entries_or_none(
            src,
            stmts,
            call,
            attrs.last(),
            name,
        )
    }
}

/// The files that the entries `srcs` of a package in `pkg_dir` link, each
/// written from its components.
pub open spec fn linked_files(pkg_dir: Seq<char>, srcs: Seq<Seq<char>>) -> Seq<Seq<char>>
    decreases srcs.len(),
{
    if srcs.len() == 0 {
        Seq::empty()
    } else {
        let rest = linked_files(pkg_dir, srcs.drop_last());
        if is_file_link_spec(srcs.last()) {
            rest.push(normal_spec(join_spec(pkg_dir, srcs.last())))
        } else {
            rest
        }
    }
}

/// The target that the rule call `call` named `name` defines.
pub open spec fn rule_target(
    src: Seq<u8>,
    stmts: Seq<StmtNode>,
    ms: Seq<Manifest>,
    package: Seq<char>,
    call: Seq<char>,
    name: Seq<char>,
) -> TargetView {
    TargetView {
        label: package + ":"@ + name,
        name: name,
        package: package,
        rule_type: call,
        srcs: listed_in(src, stmts, call, name, file_attr_names(ms, call)),
        deps: entries_or_none(src, stmts, call, dep_attr_name(ms, call), name),
        visibility: entries_or_none(src, stmts, call, "visibility"@, name),
    }
}

/// The targets that the rule calls `entries` of a BUCK file define, each
/// with the files it links: one for every call that has a name.
pub open spec fn package_targets_spec(
    src: Seq<u8>,
    stmts: Seq<StmtNode>,
    ms: Seq<Manifest>,
    package: Seq<char>,
    pkg_dir: Seq<char>,
    entries: Seq<RuleEntryView>,
) -> Seq<(TargetView, Seq<Seq<char>>)>
    decreases entries.len(),
{
    if entries.len() == 0 {
        Seq::empty()
    } else {
        let rest = package_targets_spec(src, stmts, ms, package, pkg_dir, entries.drop_last());
        match entries.last().name {
            Some(n) => {
                let t = rule_target(src, stmts, ms, package, entries.last().rule_type, n);
                rest.push((t, linked_files(pkg_dir, t.srcs)))
            },
            None => rest,
        }
    }
}

/// The directory of the file at `p`.
pub fn parent_dir(p: &str) -> (r: String)
    ensures
        r@ == parent_dir_spec(p@),
{
    let n = p.unicode_len();
    let mut k = n;
    assert(p@.take(n as int) =~= p@);
    while k > 0 && p.get_char(k - 1) != '/'
        invariant
            k <= n,
            n == p@.len(),
            last_index_of(p@, '/') == last_index_of(p@.take(k as int), '/'),
        decreases k,
    {
        proof {
            assert(p@.take(k - 1) =~= p@.take(k as int).drop_last());
        }
        k = k - 1;
    }
    if k == 0 {
        String::new()
    } else if k == 1 {
        assert(p@.take(1).last() == '/');
        "/".to_owned()
    } else {
        assert(p@.take(k as int).last() == '/');
        p.substring_char(0, k - 1).to_owned()
    }
}

/// The path `dir` relative to `root`.
pub fn relative_to(root: &str, dir: &str) -> (r: String)
    ensures
        r@ == relative_spec(root@, dir@),
{
    match strip_prefix_of(root, dir) {
        Some(r) => r,
        None => dir.to_owned(),
    }
}

/// The package label of the BUCK file at `buck_file` in the workspace at `root`.
pub fn package_of(root: &str, buck_file: &str) -> (r: String)
    ensures
        r@ == package_spec(root@, buck_file@),
{
    let dir = parent_dir(buck_file);
    let rel = relative_to(root, dir.as_str());
    let fixed = replace_str(rel.as_str(), "\\", "/");
    let mut p = "//".to_owned();
    p.append(fixed.as_str());
    p
}

/// The path `rel` taken from the directory `dir`.
pub fn join_path(dir: &str, rel: &str) -> (r: String)
    ensures
        r@ == join_spec(dir@, rel@),
{
    if str_starts_with(rel, "/") {
        return rel.to_owned();
    }
    let n = dir.unicode_len();
    if n == 0 {
        return rel.to_owned();
    }
    let mut out = dir.to_owned();
    if dir.get_char(n - 1) != '/' {
        out.append("/");
    }
    out.append(rel);
    out
}

/// Whether a list entry links a file.
pub fn is_file_link(e: &str) -> (r: bool)
    ensures
        r == is_file_link_spec(e@),
{
    !str_starts_with(e, ":") && !str_starts_with(e, "//") && !str_contains(e, "*")
}

/// The entries of `attr` in the rule `call` named `name`, or none when
/// the rule or the list cannot be found.
fn entries_of(source: &str, stmts: &Vec<StmtNode>, call: &str, attr: &str, name: &str) -> (r: Vec<String>)
    requires
        stmts_fit(utf8(source@), stmts@),
    ensures
        views(r@) == entries_or_none(utf8(source@), stmts@, call@, attr@, name@),
{
    let sel = RuleSelector { rule_name: call.to_owned(), attr: attr.to_owned(), name: Some(name.to_owned()) };
    match list_entries_in(source, stmts, &sel) {
        Ok(v) => v,
        Err(_) => {
            let v: Vec<String> = Vec::new();
            assert(views(v@) =~= Seq::<Seq<char>>::empty());
            v
        },
    }
}

/// Append `more` to `out`.
fn extend_strings(out: &mut Vec<String>, more: Vec<String>)
    ensures
        views(final(out)@) == views(old(out)@) + views(more@),
{
    let ghost start = views(out@);
    let mut i: usize = 0;
    while i < more.len()
        invariant
            i <= more@.len(),
            views(out@) == start + views(more@).take(i as int),
        decreases more@.len() - i,
    {
        let x = more[i].clone();
        let ghost prev = out@;
        out.push(x);
        proof {
            assert(views(out@) =~= views(prev).push(x@));
            assert(views(more@).take(i + 1) =~= views(more@).take(i as int).push(more@[i as int]@));
        }
        i = i + 1;
    }
    assert(views(more@).take(i as int) =~= views(more@));
}

/// The entries of all of `attrs` in the rule `call` named `name`.
fn entries_of_all(source: &str, stmts: &Vec<StmtNode>, call: &str, name: &str, attrs: &Vec<String>) -> (r:
    Vec<String>)
    requires
        stmts_fit(utf8(source@), stmts@),
    ensures
        views(r@) == listed_in(utf8(source@), stmts@, call@, name@, views(attrs@)),
{
    let mut out: Vec<String> = Vec::new();
    let mut i: usize = 0;
    assert(views(out@) =~= listed_in(utf8(source@), stmts@, call@, name@, views(attrs@).take(0)));
    while i < attrs.len()
        invariant
            stmts_fit(utf8(source@), stmts@),
            i <= attrs@.len(),
            views(out@) == listed_in(utf8(source@), stmts@, call@, name@, views(attrs@).take(i as int)),
        decreases attrs@.len() - i,
    {
        let more = entries_of(source, stmts, call, attrs[i].as_str(), name);
        extend_strings(&mut out, more);
        proof {
            let t = views(attrs@).take(i + 1);
            assert(t.drop_last() =~= views(attrs@).take(i as int));
            assert(t.last() == attrs@[i as int]@);
        }
        i = i + 1;
    }
    assert(views(attrs@).take(i as int) =~= views(attrs@));
    out
}

/// The files that the entries `srcs` of a package in `pkg_dir` link.
fn files_linked(pkg_dir: &str, srcs: &Vec<String>) -> (r: Vec<String>)
    ensures
        views(r@) == linked_files(pkg_dir@, views(srcs@)),
{
    let mut out: Vec<String> = Vec::new();
    let mut i: usize = 0;
    assert(views(srcs@).take(0) =~= Seq::<Seq<char>>::empty());
    while i < srcs.len()
        invariant
            i <= srcs@.len(),
            views(out@) == linked_files(pkg_dir@, views(srcs@).take(i as int)),
        decreases srcs@.len() - i,
    {
        let e = srcs[i].as_str();
        let ghost prev = out@;
        proof {
            let t = views(srcs@).take(i + 1);
            assert(t.drop_last() =~= views(srcs@).take(i as int));
            assert(t.last() == e@);
        }
        if is_file_link(e) {
            let joined = join_path(pkg_dir, e);
            let f = normal_path(joined.as_str());
            out.push(f);
            assert(views(out@) =~= views(prev).push(f@));
        }
        i = i + 1;
    }
    assert(views(srcs@).take(i as int) =~= views(srcs@));
    out
}

/// The attributes that carry the files of a rule call.
fn file_attrs_for(templates: &TemplateSet, call: &str) -> (r: Vec<String>)
    requires
        templates.wf(),
    ensures
        views(r@) == file_attr_names(manifests_of(templates.manifest_list()), call@),
{
    let ghost ms = manifests_of(templates.manifest_list());
    match templates.rule(call) {
        Some((_, rule)) => {
            let fs = rule.file_attrs();
            let ghost want = file_attrs_spec(*rule).map_values(|f: FileAttr| f.attr@);
            let mut out: Vec<String> = Vec::new();
            let mut i: usize = 0;
            while i < fs.len()
                invariant
                    i <= fs@.len(),
                    fs@.map_values(|f: &FileAttr| *f) == file_attrs_spec(*rule),
                    want == file_attrs_spec(*rule).map_values(|f: FileAttr| f.attr@),
                    views(out@) == want.take(i as int),
                decreases fs@.len() - i,
            {
                let a = fs[i].attr.clone();
                let ghost prev = out@;
                out.push(a);
                proof {
                    assert(file_attrs_spec(*rule)[i as int] == *fs@[i as int]);
                    assert(views(out@) =~= views(prev).push(a@));
                    assert(want.take(i + 1) =~= want.take(i as int).push(want[i as int]));
                }
                i = i + 1;
            }
            proof {
                assert(want.take(i as int) =~= want);
                let (mi, ri) = choose|mi: int, ri: int|
                    definition_of(manifests_of(templates.manifest_list()), call@) == Some((mi, ri))
                        && *rule == templates.manifest_list()[mi].0.lark.rules@[ri];
                lemma_definition_bound(ms, call@);
                assert(ms[mi] == templates.manifest_list()[mi].0);
            }
            out
        },
        None => {
            let mut out: Vec<String> = Vec::new();
            out.push("srcs".to_owned());
            assert(views(out@) =~= seq!["srcs"@]);
            out
        },
    }
}

/// The attribute that carries the deps of a rule call.
fn dep_attr_for(templates: &TemplateSet, call: &str) -> (r: String)
    requires
        templates.wf(),
    ensures
        r@ == dep_attr_name(manifests_of(templates.manifest_list()), call@),
{
    let ghost ms = manifests_of(templates.manifest_list());
    match templates.rule(call) {
        Some((_, rule)) => {
            proof {
                let (mi, ri) = choose|mi: int, ri: int|
                    definition_of(manifests_of(templates.manifest_list()), call@) == Some((mi, ri))
                        && *rule == templates.manifest_list()[mi].0.lark.rules@[ri];
                lemma_definition_bound(ms, call@);
                assert(ms[mi] == templates.manifest_list()[mi].0);
            }
            match &rule.deps {
                Some(d) => d.attr.clone(),
                None => "deps".to_owned(),
            }
        },
        None => "deps".to_owned(),
    }
}

/// The pairs of a list of targets with their files, as characters.
pub open spec fn pairs_view(v: Seq<(Target, Vec<String>)>) -> Seq<(TargetView, Seq<Seq<char>>)> {
    v.map_values(|p: (Target, Vec<String>)| (p.0@, views(p.1@)))
}

/// The targets that a BUCK file defines, each with the files it links,
/// from its statements already parsed. `buck_file` is the file's path and
/// `root` the workspace's, which give the package label.
pub fn package_targets(
    root: &str,
    buck_file: &str,
    source: &str,
    stmts: &Vec<StmtNode>,
    templates: &TemplateSet,
) -> (r: Vec<(Target, Vec<String>)>)
    requires
        stmts_fit(utf8(source@), stmts@),
        templates.wf(),
    ensures
        pairs_view(r@) == package_targets_spec(
            utf8(source@),
            stmts@,
            manifests_of(templates.manifest_list()),
            package_spec(root@, buck_file@),
            parent_dir_spec(buck_file@),
            rule_entries(stmts@),
        ),
{
    let ghost src = utf8(source@);
    let ghost ms = manifests_of(templates.manifest_list());
    let package = package_of(root, buck_file);
    let pkg_dir = parent_dir(buck_file);
    let rules = list_rules_in(stmts);
    let ghost es = rule_entries(stmts@);
    let mut out: Vec<(Target, Vec<String>)> = Vec::new();
    let mut i: usize = 0;
    assert(es.take(0) =~= Seq::<RuleEntryView>::empty());
    while i < rules.len()
        invariant
            stmts_fit(src, stmts@),
            src == utf8(source@),
            templates.wf(),
            ms == manifests_of(templates.manifest_list()),
            rules@.map_values(|e: RuleEntry| e@) == es,
            es == rule_entries(stmts@),
            i <= rules@.len(),
            pairs_view(out@) == package_targets_spec(src, stmts@, ms, package@, pkg_dir@, es.take(i as int)),
        decreases rules@.len() - i,
    {
        let entry = &rules[i];
        proof {
            let t = es.take(i + 1);
            assert(t.drop_last() =~= es.take(i as int));
            assert(t.last() == entry@);
        }
        if let Some(name) = &entry.name {
            let call = entry.rule_type.as_str();
            let attrs = file_attrs_for(templates, call);
            let srcs = entries_of_all(source, stmts, call, name.as_str(), &attrs);
            let dep_attr = dep_attr_for(templates, call);
            let deps = entries_of(source, stmts, call, dep_attr.as_str(), name.as_str());
            let visibility = entries_of(source, stmts, call, "visibility", name.as_str());
            let files = files_linked(pkg_dir.as_str(), &srcs);
            let mut label = package.clone();
            label.append(":");
            label.append(name.as_str());
            let t = Target {
                label,
                name: name.clone(),
                package: package.clone(),
                rule_type: entry.rule_type.clone(),
                srcs,
                deps,
                visibility,
            };
            let ghost prev = out@;
            out.push((t, files));
            proof {
                assert(pairs_view(out@) =~= pairs_view(prev).push((t@, views(files@))));
                assert(t@ == rule_target(src, stmts@, ms, package@, entry.rule_type@, name@));
            }
        }
        i = i + 1;
    }
    assert(es.take(i as int) =~= es);
    out
}

/// The links that appending the targets `added` after `base` earlier ones
/// gives the file `f`: each new index once for every time its target
/// lists `f`.
pub open spec fn added_links(base: int, added: Seq<(TargetView, Seq<Seq<char>>)>, f: Seq<char>) -> Seq<usize>
    decreases added.len(),
{
    if added.len() == 0 {
        Seq::empty()
    } else {
        added_links(base, added.drop_last(), f) + repeat(
            (base + added.len() - 1) as usize,
            count_of(added.last().1, f),
        )
    }
}

/// Whether `k` is the first position of `package` in `list`.
pub open spec fn first_package_at(list: Seq<(Seq<char>, Seq<char>)>, package: Seq<char>, k: int) -> bool {
    &&& 0 <= k < list.len()
    &&& list[k].0 == package
    &&& forall|j: int| 0 <= j < k ==> (#[trigger] list[j]).0 != package
}

/// `list` with `package` mapped to `file`: its first entry replaced when
/// it has one, else a new entry at the end.
pub open spec fn with_buck_file(
    list: Seq<(Seq<char>, Seq<char>)>,
    package: Seq<char>,
    file: Seq<char>,
) -> Seq<(Seq<char>, Seq<char>)> {
    if exists|k: int| first_package_at(list, package, k) {
        list.update(choose|k: int| first_package_at(list, package, k), (package, file))
    } else {
        list.push((package, file))
    }
}

/// The file of the first entry of `list` for package `p`.
pub open spec fn file_of_package(list: Seq<(Seq<char>, Seq<char>)>, p: Seq<char>) -> Option<Seq<char>> {
    if exists|k: int| 0 <= k < list.len() && (#[trigger] list[k]).0 == p {
        Some(
            list[choose|k: int|
                0 <= k < list.len() && (#[trigger] list[k]).0 == p && forall|j: int|
                    0 <= j < k ==> (#[trigger] list[j]).0 != p].1,
        )
    } else {
        None
    }
}

/// The package of the first entry of `list` whose file is `f`, paths
/// compared by their components.
pub open spec fn package_with_file(list: Seq<(Seq<char>, Seq<char>)>, f: Seq<char>) -> Option<Seq<char>> {
    if exists|k: int| 0 <= k < list.len() && components((#[trigger] list[k]).1) == components(f) {
        Some(
            list[choose|k: int|
                0 <= k < list.len() && components((#[trigger] list[k]).1) == components(f) && forall|j: int|
                    0 <= j < k ==> components((#[trigger] list[j]).1) != components(f)].0,
        )
    } else {
        None
    }
}

/// The first entry for a package is the one `file_of_package` gives.
pub proof fn lemma_file_of_package(list: Seq<(Seq<char>, Seq<char>)>, p: Seq<char>, k: int)
    requires
        0 <= k < list.len(),
        list[k].0 == p,
        forall|j: int| 0 <= j < k ==> (#[trigger] list[j]).0 != p,
    ensures
        file_of_package(list, p) == Some(list[k].1),
{
    let c = choose|c: int|
        0 <= c < list.len() && (#[trigger] list[c]).0 == p && forall|j: int| 0 <= j < c ==> (#[trigger] list[j]).0 != p;
    assert(0 <= c < list.len() && list[c].0 == p && forall|j: int| 0 <= j < c ==> (#[trigger] list[j]).0 != p);
    if c < k {
        assert(list[c].0 != p);
    } else if k < c {
        assert(list[k].0 != p);
    }
}

/// The first entry with a file is the one `package_with_file` gives.
pub proof fn lemma_package_with_file(list: Seq<(Seq<char>, Seq<char>)>, f: Seq<char>, k: int)
    requires
        0 <= k < list.len(),
        components(list[k].1) == components(f),
        forall|j: int| 0 <= j < k ==> components((#[trigger] list[j]).1) != components(f),
    ensures
        package_with_file(list, f) == Some(list[k].0),
{
    let c = choose|c: int|
        0 <= c < list.len() && components((#[trigger] list[c]).1) == components(f) && forall|j: int| 0 <= j < c ==> components((#[trigger] list[j]).1) != components(f);
    assert(0 <= c < list.len() && components(list[c].1) == components(f) && forall|j: int| 0 <= j < c ==> components((#[trigger] list[j]).1) != components(f));
    if c < k {
        assert(components(list[c].1) != components(f));
    } else if k < c {
        assert(components(list[k].1) != components(f));
    }
}

/// Whether a file of this name is a build file.
pub fn is_buck_file_name(name: &str) -> (r: bool)
    ensures
        r == (name@ == "BUCK"@ || name@ == "BUILD"@ || name@ == "BUILD.bazel"@),
{
    str_eq(name, "BUCK") || str_eq(name, "BUILD") || str_eq(name, "BUILD.bazel")
}

/// Whether the workspace walk stays out of a directory of this name:
/// hidden directories and build outputs.
pub fn skips_dir(name: &str) -> (r: bool)
    ensures
        r == (starts_with_text(name@, "."@) || name@ == "target"@ || name@ == "node_modules"@
            || name@ == "buck-out"@),
{
    str_starts_with(name, ".") || str_eq(name, "target") || str_eq(name, "node_modules") || str_eq(
        name,
        "buck-out",
    )
}

/// A text occurs in a list exactly when it is counted there.
proof fn lemma_count_contains(s: Seq<Seq<char>>, x: Seq<char>)
    ensures
        count_of(s, x) > 0 <==> s.contains(x),
    decreases s.len(),
{
    if s.len() > 0 {
        lemma_count_contains(s.drop_last(), x);
        if s.drop_last().contains(x) {
            let k = choose|k: int| 0 <= k < s.drop_last().len() && s.drop_last()[k] == x;
            assert(s[k] == x);
        }
        if s.contains(x) && s.last() != x {
            let k = choose|k: int| 0 <= k < s.len() && s[k] == x;
            assert(s.drop_last()[k] == x);
        }
    }
}

/// The links that appended targets add name only those targets.
proof fn lemma_added_links_range(base: int, added: Seq<(TargetView, Seq<Seq<char>>)>, f: Seq<char>)
    requires
        0 <= base,
        base + added.len() <= usize::MAX,
    ensures
        forall|j: int|
            0 <= j < added_links(base, added, f).len() ==> base <= #[trigger] added_links(base, added, f)[j]
                < base + added.len(),
    decreases added.len(),
{
    if added.len() > 0 {
        lemma_added_links_range(base, added.drop_last(), f);
        let p = added_links(base, added.drop_last(), f);
        let q = repeat((base + added.len() - 1) as usize, count_of(added.last().1, f));
        assert forall|j: int| 0 <= j < (p + q).len() implies base <= #[trigger] (p + q)[j] < base + added.len() by {
            if j < p.len() {
                assert((p + q)[j] == p[j]);
            } else {
                assert((p + q)[j] == q[j - p.len()]);
            }
        }
    }
}

/// The index answers both ways: a target added from a BUCK file is listed
/// for a file exactly when it links that file, and as many times as it
/// lists it.
pub proof fn law_links_both_ways(base: int, added: Seq<(TargetView, Seq<Seq<char>>)>, f: Seq<char>, k: int)
    requires
        0 <= base,
        base + added.len() <= usize::MAX,
        0 <= k < added.len(),
    ensures
        added_links(base, added, f).contains((base + k) as usize) <==> added[k].1.contains(f),
        added_links(base, added, f).len() == added_links(base, added.drop_last(), f).len() + count_of(
            added.last().1,
            f,
        ),
    decreases added.len(),
{
    let n = added.len();
    let p = added_links(base, added.drop_last(), f);
    let q = repeat((base + n - 1) as usize, count_of(added.last().1, f));
    let all = added_links(base, added, f);
    assert(all == p + q);
    lemma_count_contains(added.last().1, f);
    lemma_added_links_range(base, added.drop_last(), f);
    if k == n - 1 {
        if added[k].1.contains(f) {
            assert(q.len() > 0);
            assert(all[p.len() as int] == q[0]);
        }
        if all.contains((base + k) as usize) {
            let j = choose|j: int| 0 <= j < all.len() && all[j] == (base + k) as usize;
            if j < p.len() {
                assert(all[j] == p[j]);
            } else {
                assert(all[j] == q[j - p.len()]);
            }
        }
    } else {
        law_links_both_ways(base, added.drop_last(), f, k);
        assert(added.drop_last()[k] == added[k]);
        if p.contains((base + k) as usize) {
            let j = choose|j: int| 0 <= j < p.len() && p[j] == (base + k) as usize;
            assert(all[j] == p[j]);
        }
        if all.contains((base + k) as usize) {
            let j = choose|j: int| 0 <= j < all.len() && all[j] == (base + k) as usize;
            if j < p.len() {
                assert(all[j] == p[j]);
            } else {
                assert(all[j] == q[j - p.len()]);
            }
        }
    }
}

/// The directory above `p`, as `Path::parent` gives it for a path written
/// with `/` and without `.` or `..` components: none for the root or an
/// empty path.
pub open spec fn path_parent(p: Seq<char>) -> Option<Seq<char>> {
    let t = trim_slashes(p);
    if t.len() == 0 {
        None
    } else {
        Some(parent_dir_spec(t))
    }
}

/// `p` and every directory above it, nearest first: where `.buckconfig`
/// is looked for when finding a workspace's root.
pub open spec fn ancestors_spec(p: Seq<char>) -> Seq<Seq<char>>
    decreases p.len(),
{
    match path_parent(p) {
        Some(q) => if q.len() < p.len() {
            seq![p] + ancestors_spec(q)
        } else {
            seq![p]
        },
        None => seq![p],
    }
}

/// The directory above `p`.
pub fn path_parent_of(p: &str) -> (r: Option<String>)
    ensures
        match r {
            Some(q) => path_parent(p@) == Some(q@),
            None => path_parent(p@) is None,
        },
{
    let n = p.unicode_len();
    let mut k = n;
    assert(p@.take(n as int) =~= p@);
    while k > 0 && p.get_char(k - 1) == '/'
        invariant
            k <= n,
            n == p@.len(),
            trim_slashes(p@) == trim_slashes(p@.take(k as int)),
        decreases k,
    {
        proof {
            assert(p@.take(k - 1) =~= p@.take(k as int).drop_last());
        }
        k = k - 1;
    }
    let t = p.substring_char(0, k);
    assert(t@ =~= p@.take(k as int));
    if k == 0 {
        None
    } else {
        Some(parent_dir(t))
    }
}

/// `start` and every directory above it, nearest first.
pub fn ancestors(start: &str) -> (r: Vec<String>)
    ensures
        views(r@) == ancestors_spec(start@),
{
    let mut out: Vec<String> = Vec::new();
    let mut cur = start.to_owned();
    loop
        invariant
            views(out@) + ancestors_spec(cur@) == ancestors_spec(start@),
        decreases cur@.len(),
    {
        let next = path_parent_of(cur.as_str());
        let ghost prev = out@;
        let ghost c = cur@;
        match next {
            Some(q) => {
                if q.as_str().unicode_len() < cur.as_str().unicode_len() {
                    out.push(cur);
                    proof {
                        assert(views(out@) =~= views(prev).push(c));
                        assert(views(out@) + ancestors_spec(q@) =~= views(prev) + ancestors_spec(c));
                    }
                    cur = q;
                } else {
                    out.push(cur);
                    proof {
                        assert(views(out@) =~= views(prev) + ancestors_spec(c));
                    }
                    return out;
                }
            },
            None => {
                out.push(cur);
                proof {
                    assert(views(out@) =~= views(prev) + ancestors_spec(c));
                }
                return out;
            },
        }
    }
}

#[derive(Debug, Clone)]
pub struct Index {
    pub targets: Vec<Target>,
    /// package (e.g. "//crates/ske") -> BUCK file that defines it
    pub buck_files: Vec<(String, String)>,
    /// Source files that some target lists, each once ...
    file_keys: Vec<String>,
    /// ... and, at the same position, the indices into `targets` that list it.
    file_hits: Vec<Vec<usize>>,
}

impl Index {
    /// The targets, in the order they were found.
    pub closed spec fn target_list(&self) -> Seq<TargetView> {
        self.targets@.map_values(|t: Target| t@)
    }

    /// Each package with the BUCK file that defines it.
    pub closed spec fn buck_file_list(&self) -> Seq<(Seq<char>, Seq<char>)> {
        self.buck_files@.map_values(|p: (String, String)| (p.0@, p.1@))
    }

    /// The indices of the targets that list the file `f`, once per listing.
    pub closed spec fn links(&self, f: Seq<char>) -> Seq<usize> {
        if exists|k: int| 0 <= k < self.file_keys@.len() && self.file_keys@[k]@ == f {
            self.file_hits@[choose|k: int| 0 <= k < self.file_keys@.len() && self.file_keys@[k]@ == f]@
        } else {
            Seq::empty()
        }
    }

    /// Every file is recorded once, and every recorded index is a target.
    pub closed spec fn wf(&self) -> bool {
        &&& self.file_keys@.len() == self.file_hits@.len()
        &&& forall|k1: int, k2: int|
            0 <= k1 < k2 < self.file_keys@.len() ==> (#[trigger] self.file_keys@[k1])@ != (
            #[trigger] self.file_keys@[k2])@
        &&& forall|k: int, j: int|
            0 <= k < self.file_hits@.len() && 0 <= j < self.file_hits@[k]@.len() ==> (
            #[trigger] self.file_hits@[k]@[j]) < self.targets@.len()
    }

    /// The position of the file `f` among the recorded files.
    fn file_pos(&self, f: &str) -> (r: Option<usize>)
        requires
            self.wf(),
        ensures
            match r {
                Some(k) => k < self.file_keys@.len() && self.file_keys@[k as int]@ == f@
                    && self.links(f@) == self.file_hits@[k as int]@,
                None => forall|k: int|
                    0 <= k < self.file_keys@.len() ==> (#[trigger] self.file_keys@[k])@ != f@,
            },
    {
        let mut k: usize = 0;
        while k < self.file_keys.len()
            invariant
                self.wf(),
                k <= self.file_keys@.len(),
                forall|j: int| 0 <= j < k ==> (#[trigger] self.file_keys@[j])@ != f@,
            decreases self.file_keys@.len() - k,
        {
            if str_eq(self.file_keys[k].as_str(), f) {
                proof {
                    let c = choose|c: int| 0 <= c < self.file_keys@.len() && self.file_keys@[c]@ == f@;
                    if c != k {
                        if c < k {
                            assert(self.file_keys@[c]@ != self.file_keys@[k as int]@);
                        } else {
                            assert(self.file_keys@[k as int]@ != self.file_keys@[c]@);
                        }
                    }
                }
                return Some(k);
            }
            k = k + 1;
        }
        None
    }

    /// Labels of every target that lists this file in a file-carrying attr;
    /// files are matched by their path components.
    pub fn targets_of(&self, file: &str) -> (r: Vec<&str>)
        requires
            self.wf(),
        ensures
            r@.map_values(|s: &str| s@) == self.links(normal_spec(file@)).map_values(
                |i: usize| self.target_list()[i as int].label,
            ),
    {
        let mut out: Vec<&str> = Vec::new();
        let key = normal_path(file);
        match self.file_pos(key.as_str()) {
            None => {
                assert(out@.map_values(|s: &str| s@) =~= self.links(key@).map_values(
                    |i: usize| self.target_list()[i as int].label,
                ));
            },
            Some(k) => {
                let hits = &self.file_hits[k];
                let ghost want = hits@.map_values(|i: usize| self.target_list()[i as int].label);
                let mut j: usize = 0;
                while j < hits.len()
                    invariant
                        self.wf(),
                        k < self.file_hits@.len(),
                        *hits == self.file_hits@[k as int],
                        want == hits@.map_values(|i: usize| self.target_list()[i as int].label),
                        j <= hits@.len(),
                        out@.map_values(|s: &str| s@) == want.take(j as int),
                    decreases hits@.len() - j,
                {
                    let ti = hits[j];
                    assert(ti < self.targets@.len());
                    let label = self.targets[ti].label.as_str();
                    let ghost old_out = out@;
                    out.push(label);
                    proof {
                        assert(out@.map_values(|s: &str| s@) =~= old_out.map_values(|s: &str| s@).push(label@));
                        assert(want.take(j + 1) =~= want.take(j as int).push(want[j as int]));
                    }
                    j = j + 1;
                }
                assert(want.take(j as int) =~= want);
            },
        }
        out
    }

    /// The package whose BUCK file is `file` (compared by components).
    pub fn package_of_file(&self, file: &str) -> (r: Option<&str>)
        ensures
            match r {
                Some(p) => package_with_file(self.buck_file_list(), file@) == Some(p@),
                None => package_with_file(self.buck_file_list(), file@) is None,
            },
    {
        let mut k: usize = 0;
        while k < self.buck_files.len()
            invariant
                k <= self.buck_files@.len(),
                forall|j: int| 0 <= j < k ==> components((#[trigger] self.buck_file_list()[j]).1) != components(file@),
            decreases self.buck_files@.len() - k,
        {
            if same_path(self.buck_files[k].1.as_str(), file) {
                let p = self.buck_files[k].0.as_str();
                proof {
                    lemma_package_with_file(self.buck_file_list(), file@, k as int);
                }
                return Some(p);
            }
            assert(components(self.buck_file_list()[k as int].1) != components(file@));
            k = k + 1;
        }
        None
    }

    /// The BUCK file that defines `package`.
    pub fn buck_file(&self, package: &str) -> (r: Option<&str>)
        ensures
            match r {
                Some(b) => exists|k: int|
                    0 <= k < self.buck_file_list().len() && self.buck_file_list()[k].0 == package@
                        && self.buck_file_list()[k].1 == b@ && forall|j: int|
                        0 <= j < k ==> (#[trigger] self.buck_file_list()[j]).0 != package@,
                None => forall|k: int|
                    0 <= k < self.buck_file_list().len() ==> (#[trigger] self.buck_file_list()[k]).0
                        != package@,
            },
    {
        let mut k: usize = 0;
        while k < self.buck_files.len()
            invariant
                k <= self.buck_files@.len(),
                forall|j: int| 0 <= j < k ==> (#[trigger] self.buck_file_list()[j]).0 != package@,
            decreases self.buck_files@.len() - k,
        {
            if str_eq(self.buck_files[k].0.as_str(), package) {
                let b = self.buck_files[k].1.as_str();
                assert(self.buck_file_list()[k as int].0 == package@);
                return Some(b);
            }
            assert(self.buck_file_list()[k as int].0 != package@);
            k = k + 1;
        }
        None
    }

    /// Map `package` to the BUCK file `file`, as a map insert does.
    fn set_buck_file(&mut self, package: String, file: String)
        ensures
            final(self).buck_file_list() == with_buck_file(old(self).buck_file_list(), package@, file@),
            final(self).targets == old(self).targets,
            final(self).file_keys == old(self).file_keys,
            final(self).file_hits == old(self).file_hits,
    {
        let ghost l = self.buck_file_list();
        let ghost start = *self;
        let mut k: usize = 0;
        while k < self.buck_files.len()
            invariant
                *self == start,
                start == *old(self),
                l == self.buck_file_list(),
                k <= self.buck_files@.len(),
                forall|j: int| 0 <= j < k ==> (#[trigger] l[j]).0 != package@,
            decreases self.buck_files@.len() - k,
        {
            if str_eq(self.buck_files[k].0.as_str(), package.as_str()) {
                proof {
                    assert(first_package_at(l, package@, k as int));
                    let c = choose|c: int| first_package_at(l, package@, c);
                    if c < k {
                        assert(l[c].0 != package@);
                    } else if c > k {
                        assert(l[k as int].0 != package@);
                    }
                }
                let ghost pf = (package@, file@);
                self.buck_files.set(k, (package, file));
                proof {
                    assert(self.buck_file_list() =~= l.update(k as int, pf));
                }
                return;
            }
            k = k + 1;
        }
        let ghost pf = (package@, file@);
        self.buck_files.push((package, file));
        proof {
            assert(self.buck_file_list() =~= l.push(pf));
        }
    }

    /// Add what the BUCK file at `buck_file`, in the workspace at `root`,
    /// defines: its package and targets, and the files they link. A file
    /// that does not parse adds nothing. Which attributes carry files and
    /// deps comes from the templates that declare the rule; `srcs` and
    /// `deps` when none does.
    pub fn add_buck_file(&mut self, root: &str, buck_file: &str, source: &str, templates: &TemplateSet)
        requires
            old(self).wf(),
            templates.wf(),
        ensures
            final(self).wf(),
            match statements_spec(source@) {
                Err(_) => *final(self) == *old(self),
                Ok(stmts) => {
                    let added = package_targets_spec(
                        utf8(source@),
                        stmts,
                        manifests_of(templates.manifest_list()),
                        package_spec(root@, buck_file@),
                        parent_dir_spec(buck_file@),
                        rule_entries(stmts),
                    );
                    &&& final(self).buck_file_list() == with_buck_file(
                        old(self).buck_file_list(),
                        package_spec(root@, buck_file@),
                        buck_file@,
                    )
                    &&& final(self).target_list() == old(self).target_list() + added.map_values(
                        |p: (TargetView, Seq<Seq<char>>)| p.0,
                    )
                    &&& forall|f: Seq<char>|
                        #[trigger] final(self).links(f) == old(self).links(f) + added_links(
                            old(self).target_list().len() as int,
                            added,
                            f,
                        )
                },
            },
    {
        let stmts = match read_statements(source) {
            Ok(v) => v,
            Err(_) => return,
        };
        let pairs = package_targets(root, buck_file, source, &stmts, templates);
        let total = pairs.len();
        let ghost added = pairs_view(pairs@);
        let ghost base = self.target_list().len() as int;
        let ghost start = *self;
        self.set_buck_file(package_of(root, buck_file), buck_file.to_owned());
        let ghost mid = *self;
        assert forall|f: Seq<char>| #[trigger] mid.links(f) == start.links(f) by {}
        let mut i: usize = 0;
        let mut pairs = pairs;
        let mut rest: Vec<(Target, Vec<String>)> = Vec::new();
        // Take the pairs out front to back: reverse once, then pop.
        while pairs.len() > 0
            invariant
                total == added.len(),
                rest@.len() + pairs@.len() == added.len(),
                pairs_view(pairs@) == added.take(pairs@.len() as int),
                pairs_view(rest@) == added.skip(pairs@.len() as int).reverse(),
            decreases pairs@.len(),
        {
            let ghost before = pairs@;
            let p = pairs.pop().unwrap();
            let ghost prev = rest@;
            rest.push(p);
            proof {
                let n = pairs@.len() as int;
                assert(before == pairs@.push(p));
                assert(pairs_view(pairs@) =~= added.take(n)) by {
                    assert(pairs_view(before) =~= pairs_view(pairs@).push((p.0@, views(p.1@))));
                    assert(added.take(n + 1).drop_last() =~= added.take(n));
                }
                assert(pairs_view(before)[n] == added[n]);
                assert(pairs_view(rest@) =~= pairs_view(prev).push(added[n]));
                assert(added.skip(n).reverse() =~= added.skip(n + 1).reverse().push(added[n]));
            }
        }
        assert(added.skip(0) =~= added);
        let ghost rev = rest@;
        proof {
            assert forall|f: Seq<char>| #[trigger] self.links(f) == start.links(f) + added_links(base, added.take(0), f) by {
                assert(added.take(0) =~= Seq::<(TargetView, Seq<Seq<char>>)>::empty());
                assert(start.links(f) + Seq::<usize>::empty() =~= start.links(f));
            }
            assert(self.target_list() =~= start.target_list() + added.take(0).map_values(
                |p: (TargetView, Seq<Seq<char>>)| p.0,
            ));
        }
        while rest.len() > 0
            invariant
                self.wf(),
                total == added.len(),
                i + rest@.len() == added.len(),
                pairs_view(rest@) == added.skip(i as int).reverse(),
                base == start.target_list().len(),
                self.buck_file_list() == mid.buck_file_list(),
                self.target_list() == start.target_list() + added.take(i as int).map_values(
                    |p: (TargetView, Seq<Seq<char>>)| p.0,
                ),
                forall|f: Seq<char>| #[trigger] self.links(f) == start.links(f) + added_links(base, added.take(i as int), f),
            decreases rest@.len(),
        {
            let ghost before = rest@;
            let (t, files) = rest.pop().unwrap();
            proof {
                let n = rest@.len() as int;
                assert(before == rest@.push((t, files)));
                assert(pairs_view(before)[n] == (t@, views(files@)));
                assert(added.skip(i as int).reverse()[n] == added[i as int]);
                assert(pairs_view(rest@) =~= pairs_view(before).drop_last());
                assert(added.skip(i as int).reverse().drop_last() =~= added.skip(i + 1).reverse());
            }
            let ghost tv = t@;
            let ghost fs = views(files@);
            let ghost prev = *self;
            self.push_target(t, &files);
            proof {
                let a1 = added.take(i + 1);
                assert(a1.drop_last() =~= added.take(i as int));
                assert(a1.last() == (tv, fs));
                assert(self.target_list() =~= prev.target_list().push(tv));
                assert(self.target_list() =~= start.target_list() + a1.map_values(
                    |p: (TargetView, Seq<Seq<char>>)| p.0,
                ));
                assert(prev.targets@.len() == base + i);
                assert forall|f: Seq<char>| #[trigger] self.links(f) == start.links(f) + added_links(base, a1, f) by {
                    assert(self.links(f) == prev.links(f) + repeat(prev.targets@.len() as usize, count_of(fs, f)));
                    assert(start.links(f) + added_links(base, a1, f) =~= start.links(f) + added_links(
                        base,
                        added.take(i as int),
                        f,
                    ) + repeat(prev.targets@.len() as usize, count_of(fs, f)));
                }
                assert(self.buck_file_list() == prev.buck_file_list());
            }
            i = i + 1;
        }
        assert(added.take(i as int) =~= added);
    }

    /// A copy of the target indices recorded for one file.
    fn hits_at(&self, k: usize) -> (r: Vec<usize>)
        requires
            k < self.file_hits@.len(),
        ensures
            r@ == self.file_hits@[k as int]@,
    {
        let h = &self.file_hits[k];
        let mut out: Vec<usize> = Vec::new();
        let mut j: usize = 0;
        while j < h.len()
            invariant
                j <= h@.len(),
                out@ == h@.take(j as int),
            decreases h@.len() - j,
        {
            out.push(h[j]);
            j = j + 1;
            assert(out@ =~= h@.take(j as int));
        }
        assert(h@.take(j as int) =~= h@);
        out
    }

    /// Append a target and record it for each of `files`, once per listing.
    fn push_target(&mut self, t: Target, files: &Vec<String>)
        requires
            old(self).wf(),
        ensures
            final(self).wf(),
            final(self).targets@ == old(self).targets@.push(t),
            final(self).buck_files == old(self).buck_files,
            forall|f: Seq<char>|
                #[trigger] final(self).links(f) == old(self).links(f) + repeat(
                    old(self).targets@.len() as usize,
                    count_of(views(files@), f),
                ),
    {
        let ti = self.targets.len();
        self.targets.push(t);
        let ghost old_self = *old(self);
        proof {
            assert forall|f: Seq<char>| #[trigger] self.links(f) == old_self.links(f) + repeat(
                ti,
                count_of(views(files@).take(0), f),
            ) by {
                assert(views(files@).take(0) =~= Seq::<Seq<char>>::empty());
                assert(count_of(views(files@).take(0), f) == 0);
                assert(self.file_keys == old_self.file_keys);
                assert(self.file_hits == old_self.file_hits);
                assert(self.links(f) == old_self.links(f));
                assert(old_self.links(f) + repeat(ti, 0) =~= old_self.links(f));
            }
        }
        let mut i: usize = 0;
        while i < files.len()
            invariant
                self.wf(),
                ti == old_self.targets@.len(),
                self.targets@ == old_self.targets@.push(t),
                self.buck_files == old_self.buck_files,
                i <= files@.len(),
                forall|f: Seq<char>|
                    #[trigger] self.links(f) == old_self.links(f) + repeat(
                        ti,
                        count_of(views(files@).take(i as int), f),
                    ),
            decreases files@.len() - i,
        {
            let f = files[i].as_str();
            let ghost before = *self;
            proof {
                assert(views(files@).take(i + 1) =~= views(files@).take(i as int).push(f@));
                assert forall|g: Seq<char>| #[trigger] count_of(views(files@).take(i + 1), g) == count_of(views(files@).take(i as int), g) + if f@ == g {
                    1nat
                } else {
                    0nat
                } by {
                    lemma_count_push(views(files@).take(i as int), f@, g);
                }
            }
            match self.file_pos(f) {
                Some(k) => {
                    let mut h = self.hits_at(k);
                    h.push(ti);
                    self.file_hits.set(k, h);
                    proof {
                        assert(self.file_keys == before.file_keys);
                        assert forall|g: Seq<char>| #[trigger] self.links(g) == old_self.links(g) + repeat(
                            ti,
                            count_of(views(files@).take(i + 1), g),
                        ) by {
                            if g == f@ {
                                assert(self.file_keys@[k as int]@ == g);
                                assert(self.links(g) == self.file_hits@[k as int]@) by {
                                    let c = choose|c: int| 0 <= c < self.file_keys@.len() && self.file_keys@[c]@ == g;
                                    if c != k {
                                        if c < k {
                                            assert(self.file_keys@[c]@ != self.file_keys@[k as int]@);
                                        } else {
                                            assert(self.file_keys@[k as int]@ != self.file_keys@[c]@);
                                        }
                                    }
                                }
                                assert(repeat(ti, count_of(views(files@).take(i + 1), g)) =~= repeat(
                                    ti,
                                    count_of(views(files@).take(i as int), g),
                                ).push(ti));
                            } else {
                                assert(before.links(g) == self.links(g)) by {
                                    if exists|c: int| 0 <= c < self.file_keys@.len() && self.file_keys@[c]@ == g {
                                        let c = choose|c: int| 0 <= c < self.file_keys@.len() && self.file_keys@[c]@ == g;
                                        assert(c != k);
                                        assert(self.file_hits@[c] == before.file_hits@[c]);
                                    }
                                }
                            }
                        }
                    }
                },
                None => {
                    self.file_keys.push(f.to_owned());
                    let mut h: Vec<usize> = Vec::new();
                    h.push(ti);
                    self.file_hits.push(h);
                    proof {
                        let n = before.file_keys@.len() as int;
                        assert forall|k1: int, k2: int|
                            0 <= k1 < k2 < self.file_keys@.len() implies (#[trigger] self.file_keys@[k1])@ != (
                            #[trigger] self.file_keys@[k2])@ by {
                            if k2 == n {
                                assert(before.file_keys@[k1]@ != f@);
                            }
                        }
                        assert forall|g: Seq<char>| #[trigger] self.links(g) == old_self.links(g) + repeat(
                            ti,
                            count_of(views(files@).take(i + 1), g),
                        ) by {
                            if g == f@ {
                                assert(self.file_keys@[n]@ == g);
                                assert(self.links(g) == self.file_hits@[n]@) by {
                                    let c = choose|c: int| 0 <= c < self.file_keys@.len() && self.file_keys@[c]@ == g;
                                    if c != n {
                                        assert(before.file_keys@[c]@ != f@);
                                    }
                                }
                                assert(before.links(g) =~= Seq::<usize>::empty());
                                assert(repeat(ti, count_of(views(files@).take(i + 1), g)) =~= repeat(
                                    ti,
                                    count_of(views(files@).take(i as int), g),
                                ).push(ti));
                                assert(old_self.links(g).len() == 0);
                                assert(repeat(ti, count_of(views(files@).take(i as int), g)).len() == 0);
                                assert(self.links(g) =~= old_self.links(g) + repeat(
                                    ti,
                                    count_of(views(files@).take(i + 1), g),
                                ));
                            } else {
                                assert(before.links(g) == self.links(g)) by {
                                    if exists|c: int| 0 <= c < self.file_keys@.len() && self.file_keys@[c]@ == g {
                                        let c = choose|c: int| 0 <= c < self.file_keys@.len() && self.file_keys@[c]@ == g;
                                        assert(c != n);
                                        assert(self.file_keys@[c] == before.file_keys@[c]);
                                        assert(before.file_keys@[c]@ == g);
                                        let c0 = choose|c: int| 0 <= c < before.file_keys@.len() && before.file_keys@[c]@ == g;
                                        if c0 != c {
                                            if c0 < c {
                                                assert(before.file_keys@[c0]@ != before.file_keys@[c]@);
                                            } else {
                                                assert(before.file_keys@[c]@ != before.file_keys@[c0]@);
                                            }
                                        }
                                    } else {
                                        assert forall|c: int| 0 <= c < before.file_keys@.len() implies before.file_keys@[c]@ != g by {
                                            assert(self.file_keys@[c] == before.file_keys@[c]);
                                        }
                                    }
                                }
                            }
                        }
                    }
                },
            }
            i = i + 1;
        }
        assert(views(files@).take(i as int) =~= views(files@));
    }
}

impl Default for Index {
    fn default() -> (r: Self)
        ensures
            r.wf(),
            r.target_list().len() == 0,
            r.buck_file_list().len() == 0,
            forall|f: Seq<char>| #[trigger] r.links(f).len() == 0,
    {
        Index { targets: Vec::new(), buck_files: Vec::new(), file_keys: Vec::new(), file_hits: Vec::new() }
    }
}


/// The files of a rule call are read from every file attribute that its
/// template's rule declares, `srcs` first, then `hdrs`, and from no other;
/// a call no template knows is read from `srcs`.
pub proof fn law_all_file_attrs_read(ms: Seq<Manifest>, call: Seq<char>)
    ensures
        match definition_of(ms, call) {
            Some((mi, ri)) => {
                let rule = ms[mi].lark.rules@[ri];
                let names = file_attr_names(ms, call);
                &&& rule.srcs matches Some(f) ==> names.contains(f.attr@) && names[0] == f.attr@
                &&& rule.hdrs matches Some(h) ==> names.contains(h.attr@) && names.last() == h.attr@
                &&& forall|k: int|
                    0 <= k < names.len() ==> (rule.srcs matches Some(f) && #[trigger] names[k] == f.attr@) || (
                    rule.hdrs matches Some(h) && names[k] == h.attr@)
                &&& names.len() == (if rule.srcs is Some { 1int } else { 0int }) + (if rule.hdrs is Some {
                    1int
                } else {
                    0int
                })
            },
            None => file_attr_names(ms, call) == seq!["srcs"@],
        },
{
    match definition_of(ms, call) {
        Some((mi, ri)) => {
            let rule = ms[mi].lark.rules@[ri];
            let names = file_attr_names(ms, call);
            let fs = file_attrs_spec(rule);
            assert(names == fs.map_values(|f: FileAttr| f.attr@));
            if let Some(f) = rule.srcs {
                assert(fs[0] == f);
                assert(names[0] == f.attr@);
            }
            if let Some(h) = rule.hdrs {
                assert(fs[fs.len() - 1] == h);
                assert(names[names.len() - 1] == h.attr@);
            }
        },
        None => {},
    }
}

} // verus!
