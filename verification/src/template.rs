//! The `*.skedit.toml` template format.
//!
//! A template teaches the editor a language: which Starlark rules exist, which
//! attributes carry files and deps, and what toolchain to run. Templates are
//! plain text so they can be shared and audited as repositories. Reading the
//! TOML text into a `Manifest` is the application's part; the checks on a
//! manifest and the set of active templates are here.
use std::collections::BTreeMap;
use vstd::prelude::*;
use crate::buck::Kind;
use crate::strings::{decimal, decimal_string, ends_with_text, replace_all, replace_str, str_ends_with, str_eq, views};

verus! {

#[derive(Debug, Clone)]
pub struct Manifest {
    pub template: Meta,
    pub toolchain: Toolchain,
    pub lark: Lark,
}

#[derive(Debug, Clone)]
pub struct Meta {
    pub name: String,
    pub engine: String,
    pub version: u32,
}

/// The engine a template is for when it names none.
pub fn default_engine() -> (r: String)
    ensures
        r@ == "buck2"@,
{
    "buck2".to_owned()
}

#[derive(Debug, Clone)]
pub struct Toolchain {
    pub lsp: Option<Cmd>,
    pub fmt: Option<Cmd>,
    pub lint: Option<Cmd>,
}

#[derive(Debug, Clone)]
pub struct Cmd {
    pub cmd: String,
    pub args: Vec<String>,
}

#[derive(Debug, Clone)]
pub struct Lark {
    /// Attribute that names a target, e.g. "name".
    pub ident: String,
    pub rules: Vec<Rule>,
    /// Rule name -> .bzl file to load() it from.
    pub load: BTreeMap<String, String>,
}

#[derive(Debug, Clone)]
pub struct Rule {
    /// The Starlark function name to look for, e.g. "rust_binary".
    pub call: String,
    pub kind: RuleKind,
    pub srcs: Option<FileAttr>,
    pub hdrs: Option<FileAttr>,
    pub deps: Option<AttrRef>,
    /// Which scaffold/ subdirectory `new target` copies.
    pub scaffold: Option<String>,
}

#[derive(Debug, Clone, Copy, PartialEq, Eq, Structural)]
pub enum RuleKind {
    Binary,
    Library,
    Test,
    Web,
    Other,
}

#[derive(Debug, Clone)]
pub struct FileAttr {
    pub attr: String,
    pub ext: Vec<String>,
}

#[derive(Debug, Clone)]
pub struct AttrRef {
    pub attr: String,
}

/// The target kind a rule kind stands for.
pub open spec fn kind_spec(k: RuleKind) -> Kind {
    match k {
        RuleKind::Binary => Kind::Binary,
        RuleKind::Library => Kind::Library,
        RuleKind::Test => Kind::Test,
        RuleKind::Web => Kind::Web,
        RuleKind::Other => Kind::Other,
    }
}

/// The target kind a rule kind stands for.
pub fn to_kind(k: RuleKind) -> (r: Kind)
    ensures
        r == kind_spec(k),
{
    match k {
        RuleKind::Binary => Kind::Binary,
        RuleKind::Library => Kind::Library,
        RuleKind::Test => Kind::Test,
        RuleKind::Web => Kind::Web,
        RuleKind::Other => Kind::Other,
    }
}

/// The file-carrying attributes of a rule: `srcs`, then `hdrs`.
pub open spec fn file_attrs_spec(r: Rule) -> Seq<FileAttr> {
    let s: Seq<FileAttr> = match r.srcs {
        Some(f) => seq![f],
        None => Seq::empty(),
    };
    let h: Seq<FileAttr> = match r.hdrs {
        Some(f) => seq![f],
        None => Seq::empty(),
    };
    s + h
}

/// The first of `attrs` that lists the extension `ext`.
pub open spec fn attr_for_ext_in(attrs: Seq<FileAttr>, ext: Seq<char>) -> Option<Seq<char>>
    decreases attrs.len(),
{
    if attrs.len() == 0 {
        None
    } else if views(attrs[0].ext@).contains(ext) {
        Some(attrs[0].attr@)
    } else {
        attr_for_ext_in(attrs.drop_first(), ext)
    }
}

impl Rule {
    /// File-carrying attributes, in match order.
    pub fn file_attrs(&self) -> (r: Vec<&FileAttr>)
        ensures
            r@.map_values(|f: &FileAttr| *f) == file_attrs_spec(*self),
    {
        let mut r: Vec<&FileAttr> = Vec::new();
        if let Some(f) = &self.srcs {
            r.push(f);
        }
        if let Some(f) = &self.hdrs {
            r.push(f);
        }
        assert(r@.map_values(|f: &FileAttr| *f) =~= file_attrs_spec(*self));
        r
    }

    /// Which attribute a file with this extension belongs in.
    pub fn attr_for_ext(&self, ext: &str) -> (r: Option<&str>)
        ensures
            match r {
                Some(a) => attr_for_ext_in(file_attrs_spec(*self), ext@) == Some(a@),
                None => attr_for_ext_in(file_attrs_spec(*self), ext@) is None,
            },
    {
        let attrs = self.file_attrs();
        let ghost fs = file_attrs_spec(*self);
        let mut i: usize = 0;
        assert(fs.skip(0) =~= fs);
        while i < attrs.len()
            invariant
                i <= attrs@.len(),
                fs == attrs@.map_values(|f: &FileAttr| *f),
                fs == file_attrs_spec(*self),
                attr_for_ext_in(fs, ext@) == attr_for_ext_in(fs.skip(i as int), ext@),
            decreases attrs@.len() - i,
        {
            let f = attrs[i];
            assert(fs.skip(i as int).drop_first() =~= fs.skip(i + 1));
            assert(fs.skip(i as int)[0] == *f);
            if lists_ext(&f.ext, ext) {
                let a = f.attr.as_str();
                assert(attr_for_ext_in(fs.skip(i as int), ext@) == Some(f.attr@));
                assert(a@ == f.attr@);
                return Some(a);
            }
            i = i + 1;
        }
        None
    }
}

/// Whether `exts` holds `ext`.
pub(crate) fn lists_ext(exts: &Vec<String>, ext: &str) -> (r: bool)
    ensures
        r == views(exts@).contains(ext@),
{
    let mut i: usize = 0;
    while i < exts.len()
        invariant
            i <= exts@.len(),
            forall|j: int| 0 <= j < i ==> views(exts@)[j] != ext@,
        decreases exts@.len() - i,
    {
        if str_eq(exts[i].as_str(), ext) {
            assert(views(exts@)[i as int] == ext@);
            return true;
        }
        i = i + 1;
    }
    false
}

/// What the checks on a freshly read manifest decide: the manifest, or
/// the reason it is refused.
pub open spec fn checked_manifest_spec(m: Manifest) -> Result<Manifest, Seq<char>> {
    if m.template.version != 1 {
        Err(
            "unsupported manifest version "@ + decimal(m.template.version as nat)
                + " (this build supports 1)"@,
        )
    } else if m.lark.ident@.len() == 0 {
        Err("lark.ident must not be empty"@)
    } else if m.lark.rules@.len() == 0 {
        Err("template declares no [[lark.rule]]"@)
    } else {
        Ok(m)
    }
}

/// The checks on a manifest just read from TOML: version 1, a non-empty
/// `lark.ident`, and at least one `[[lark.rule]]`.
pub fn check_manifest(manifest: Manifest) -> (r: Result<Manifest, String>)
    ensures
        match r {
            Ok(m) => checked_manifest_spec(manifest) == Ok::<Manifest, Seq<char>>(m),
            Err(e) => checked_manifest_spec(manifest) == Err::<Manifest, Seq<char>>(e@),
        },
{
    if manifest.template.version != 1 {
        let mut msg = "unsupported manifest version ".to_owned();
        msg.append(decimal_string(manifest.template.version as u64).as_str());
        msg.append(" (this build supports 1)");
        return Err(msg);
    }
    if manifest.lark.ident.as_str().unicode_len() == 0 {
        return Err("lark.ident must not be empty".to_owned());
    }
    if manifest.lark.rules.len() == 0 {
        return Err("template declares no [[lark.rule]]".to_owned());
    }
    Ok(manifest)
}

/// Whether a file name is that of a template manifest.
pub fn is_manifest(file_name: &str) -> (r: bool)
    ensures
        r == ends_with_text(file_name@, ".skedit.toml"@),
{
    str_ends_with(file_name, ".skedit.toml")
}

/// Minimal scaffold substitution: `{{name}}` and `{{package}}` only, by design
/// (no logic — keeps shared templates auditable).
pub fn substitute(text: &str, name: &str, package: &str) -> (r: String)
    ensures
        r@ == replace_all(replace_all(text@, "{{name}}"@, name@), "{{package}}"@, package@),
{
    let first = replace_str(text, "{{name}}", name);
    replace_str(first.as_str(), "{{package}}", package)
}

/// All active templates, indexed by rule call name.
#[derive(Debug, Clone)]
pub struct TemplateSet {
    /// Each manifest with the path it was read from.
    pub manifests: Vec<(Manifest, String)>,
    /// call -> (manifest idx, rule idx)
    by_call: Vec<(String, usize, usize)>,
    pub warnings: Vec<String>,
}

/// The manifests of a set, without their paths.
pub open spec fn manifests_of(ms: Seq<(Manifest, String)>) -> Seq<Manifest> {
    ms.map_values(|p: (Manifest, String)| p.0)
}

/// Position of the first rule of `rules` whose call is `call`.
pub open spec fn rule_index(rules: Seq<Rule>, call: Seq<char>) -> Option<int>
    decreases rules.len(),
{
    if rules.len() == 0 {
        None
    } else {
        match rule_index(rules.drop_last(), call) {
            Some(i) => Some(i),
            None => if rules.last().call@ == call {
                Some(rules.len() - 1)
            } else {
                None
            },
        }
    }
}

/// Where `call` is defined first: the earliest manifest that has it, and
/// its first rule with that call.
pub open spec fn definition_of(ms: Seq<Manifest>, call: Seq<char>) -> Option<(int, int)>
    decreases ms.len(),
{
    if ms.len() == 0 {
        None
    } else {
        match definition_of(ms.drop_last(), call) {
            Some(d) => Some(d),
            None => match rule_index(ms.last().lark.rules@, call) {
                Some(r) => Some((ms.len() - 1, r)),
                None => None,
            },
        }
    }
}

/// The warning for a rule call that an earlier template already defines.
pub open spec fn collision_warning(call: Seq<char>, template: Seq<char>, first: Seq<char>) -> Seq<char> {
    "rule '"@ + call + "' in template '"@ + template + "' already defined by template '"@ + first
        + "'; keeping the first"@
}

/// The name of the template that defines a call first, where `(mi, _)`
/// is that definition among `ms` and then `m`.
pub open spec fn definer_name(ms: Seq<Manifest>, m: Manifest, mi: int) -> Seq<char> {
    if mi < ms.len() {
        ms[mi].template.name@
    } else {
        m.template.name@
    }
}

/// The warnings that adding manifest `m` after `ms` gives, one for each of
/// its first `k` rules whose call is already defined: by `ms`, or by an
/// earlier rule of `m` itself.
pub open spec fn add_warnings(ms: Seq<Manifest>, m: Manifest, k: int) -> Seq<Seq<char>>
    decreases k,
{
    if k <= 0 {
        Seq::empty()
    } else {
        let rest = add_warnings(ms, m, k - 1);
        let call = m.lark.rules@[k - 1].call@;
        match def_partial(ms, m, k - 1, call) {
            Some((mi, _)) => rest.push(collision_warning(call, m.template.name@, definer_name(ms, m, mi))),
            None => rest,
        }
    }
}

impl TemplateSet {
    /// The manifests, each with the path it was read from.
    pub closed spec fn manifest_list(&self) -> Seq<(Manifest, String)> {
        self.manifests@
    }

    /// The warnings gathered so far.
    pub closed spec fn warning_list(&self) -> Seq<Seq<char>> {
        views(self.warnings@)
    }

    /// The index maps each call to its first definition, and to nothing else.
    pub closed spec fn wf(&self) -> bool {
        let ms = manifests_of(self.manifests@);
        &&& forall|k: int|
            0 <= k < self.by_call@.len() ==> definition_of(ms, (#[trigger] self.by_call@[k]).0@)
                == Some((self.by_call@[k].1 as int, self.by_call@[k].2 as int))
        &&& forall|k1: int, k2: int|
            0 <= k1 < k2 < self.by_call@.len() ==> (#[trigger] self.by_call@[k1]).0@ != (
            #[trigger] self.by_call@[k2]).0@
        &&& forall|call: Seq<char>|
            #![trigger definition_of(ms, call)]
            definition_of(ms, call) is Some ==> exists|k: int|
                0 <= k < self.by_call@.len() && (#[trigger] self.by_call@[k]).0@ == call
    }

    /// Add a manifest read from `path`. Its rule calls that are already
    /// defined, by an earlier template or by an earlier rule of its own, are
    /// reported as warnings, and the first definition stays in force.
    pub fn add(&mut self, manifest: Manifest, path: String)
        requires
            old(self).wf(),
        ensures
            final(self).wf(),
            final(self).manifest_list() == old(self).manifest_list().push((manifest, path)),
            final(self).warning_list() == old(self).warning_list() + add_warnings(
                manifests_of(old(self).manifest_list()),
                manifest,
                manifest.lark.rules@.len() as int,
            ),
    {
        let ghost ms = manifests_of(self.manifests@);
        let ghost old_warn = views(self.warnings@);
        let mi = self.manifests.len();
        proof {
            assert forall|call: Seq<char>| #[trigger] def_partial(ms, manifest, 0, call) == definition_of(ms, call) by {
                assert(manifest.lark.rules@.take(0) =~= Seq::<Rule>::empty());
            }
        }
        let mut ri: usize = 0;
        while ri < manifest.lark.rules.len()
            invariant
                ms == manifests_of(self.manifests@),
                self.manifests == old(self).manifests,
                mi == self.manifests@.len(),
                mi == ms.len(),
                ri <= manifest.lark.rules@.len(),
                views(self.warnings@) == old_warn + add_warnings(ms, manifest, ri as int),
                self.covers(ms, manifest, ri as int),
            decreases manifest.lark.rules@.len() - ri,
        {
            let rule = &manifest.lark.rules[ri];
            let ghost call = rule.call@;
            proof {
                lemma_def_partial_step(ms, manifest, ri as int);
            }
            match self.lookup(rule.call.as_str()) {
                Some((prev, _)) => {
                    let mut w = "rule '".to_owned();
                    w.append(rule.call.as_str());
                    w.append("' in template '");
                    w.append(manifest.template.name.as_str());
                    w.append("' already defined by template '");
                    if prev < mi {
                        w.append(self.manifests[prev].0.template.name.as_str());
                    } else {
                        w.append(manifest.template.name.as_str());
                    }
                    w.append("'; keeping the first");
                    let ghost old_w = self.warnings@;
                    self.warnings.push(w);
                    proof {
                        assert(views(self.warnings@) =~= views(old_w).push(w@));
                        if prev < mi {
                            assert(ms[prev as int] == self.manifests@[prev as int].0);
                        }
                        assert forall|k: int| 0 <= k < self.by_call@.len() implies def_partial(
                            ms,
                            manifest,
                            ri + 1,
                            (#[trigger] self.by_call@[k]).0@,
                        ) == Some((self.by_call@[k].1 as int, self.by_call@[k].2 as int)) by {
                            if self.by_call@[k].0@ != call {
                                assert(def_partial(ms, manifest, ri + 1, self.by_call@[k].0@) == def_partial(ms, manifest, ri as int, self.by_call@[k].0@));
                            }
                        }
                        assert forall|c2: Seq<char>| #[trigger] def_partial(ms, manifest, ri + 1, c2) is Some implies exists|k: int|
                            0 <= k < self.by_call@.len() && (#[trigger] self.by_call@[k]).0@ == c2 by {
                            if c2 != call {
                                assert(def_partial(ms, manifest, ri + 1, c2) == def_partial(ms, manifest, ri as int, c2));
                            }
                        }
                        assert(self.covers(ms, manifest, ri + 1));
                    }
                },
                None => {
                    let c = rule.call.clone();
                    assert(c == rule.call);
                    let ghost old_idx = self.by_call@;
                    self.by_call.push((c, mi, ri));
                    proof {
                        assert forall|k: int| 0 <= k < old_idx.len() implies (#[trigger] self.by_call@[k]) == old_idx[k] by {}
                        assert(def_partial(ms, manifest, ri as int, call) is None);
                        assert forall|k: int| 0 <= k < self.by_call@.len() implies def_partial(
                            ms,
                            manifest,
                            ri + 1,
                            (#[trigger] self.by_call@[k]).0@,
                        ) == Some((self.by_call@[k].1 as int, self.by_call@[k].2 as int)) by {
                            if k < old_idx.len() {
                                assert(old_idx[k].0@ != call);
                                assert(def_partial(ms, manifest, ri + 1, old_idx[k].0@) == def_partial(ms, manifest, ri as int, old_idx[k].0@));
                            }
                        }
                        assert forall|k1: int, k2: int|
                            0 <= k1 < k2 < self.by_call@.len() implies (#[trigger] self.by_call@[k1]).0@ != (
                            #[trigger] self.by_call@[k2]).0@ by {
                            if k2 == old_idx.len() {
                                assert(old_idx[k1].0@ != call);
                            } else {
                                assert(old_idx[k1].0@ != old_idx[k2].0@);
                            }
                        }
                        assert forall|c2: Seq<char>| #[trigger] def_partial(ms, manifest, ri + 1, c2) is Some implies exists|k: int|
                            0 <= k < self.by_call@.len() && (#[trigger] self.by_call@[k]).0@ == c2 by {
                            if c2 != call {
                                assert(def_partial(ms, manifest, ri + 1, c2) == def_partial(ms, manifest, ri as int, c2));
                                let k = choose|k: int| 0 <= k < old_idx.len() && (#[trigger] old_idx[k]).0@ == c2;
                                assert(self.by_call@[k] == old_idx[k]);
                            } else {
                                assert(self.by_call@[old_idx.len() as int].0@ == c2);
                            }
                        }
                        assert(self.covers(ms, manifest, ri + 1));
                    }
                },
            }
            ri = ri + 1;
        }
        self.manifests.push((manifest, path));
        proof {
            assert(manifests_of(self.manifests@) =~= ms.push(manifest));
            assert(manifest.lark.rules@.take(ri as int) =~= manifest.lark.rules@);
            assert forall|call: Seq<char>| #[trigger] definition_of(ms.push(manifest), call) == def_partial(
                ms,
                manifest,
                ri as int,
                call,
            ) by {
                assert(ms.push(manifest).drop_last() =~= ms);
            }
        }
    }

    /// While manifest `m` is being added after `ms`, with its first `ri`
    /// rules handled: the index maps calls to their first definition among
    /// those, and to nothing else.
    spec fn covers(&self, ms: Seq<Manifest>, m: Manifest, ri: int) -> bool {
        &&& forall|k: int|
            0 <= k < self.by_call@.len() ==> def_partial(ms, m, ri, (#[trigger] self.by_call@[k]).0@)
                == Some((self.by_call@[k].1 as int, self.by_call@[k].2 as int))
        &&& forall|k1: int, k2: int|
            0 <= k1 < k2 < self.by_call@.len() ==> (#[trigger] self.by_call@[k1]).0@ != (
            #[trigger] self.by_call@[k2]).0@
        &&& forall|call: Seq<char>|
            #![trigger def_partial(ms, m, ri, call)]
            def_partial(ms, m, ri, call) is Some ==> exists|k: int|
                0 <= k < self.by_call@.len() && (#[trigger] self.by_call@[k]).0@ == call
    }

    /// The index entry of `call`.
    fn lookup(&self, call: &str) -> (r: Option<(usize, usize)>)
        ensures
            match r {
                Some((mi, ri)) => exists|k: int|
                    0 <= k < self.by_call@.len() && (#[trigger] self.by_call@[k]).0@ == call@
                        && self.by_call@[k].1 == mi && self.by_call@[k].2 == ri,
                None => forall|k: int|
                    0 <= k < self.by_call@.len() ==> (#[trigger] self.by_call@[k]).0@ != call@,
            },
    {
        let mut k: usize = 0;
        while k < self.by_call.len()
            invariant
                k <= self.by_call@.len(),
                forall|j: int| 0 <= j < k ==> (#[trigger] self.by_call@[j]).0@ != call@,
            decreases self.by_call@.len() - k,
        {
            if str_eq(self.by_call[k].0.as_str(), call) {
                return Some((self.by_call[k].1, self.by_call[k].2));
            }
            k = k + 1;
        }
        None
    }

    /// The first definition of `call`, from the index.
    fn find_definition(&self, call: &str) -> (r: Option<(usize, usize)>)
        requires
            self.wf(),
        ensures
            match r {
                Some((mi, ri)) => definition_of(manifests_of(self.manifests@), call@) == Some(
                    (mi as int, ri as int),
                ),
                None => definition_of(manifests_of(self.manifests@), call@) is None,
            },
    {
        let r = self.lookup(call);
        proof {
            let ms = manifests_of(self.manifests@);
            if definition_of(ms, call@) is Some {
                let k = choose|k: int| 0 <= k < self.by_call@.len() && (#[trigger] self.by_call@[k]).0@ == call@;
                assert(self.by_call@[k].0@ == call@);
            }
        }
        r
    }

    /// The manifests, each with the path it was read from.
    pub fn entries(&self) -> (r: &Vec<(Manifest, String)>)
        ensures
            r@ == self.manifest_list(),
    {
        &self.manifests
    }

    pub fn is_empty(&self) -> (r: bool)
        ensures
            r == (self.manifest_list().len() == 0),
    {
        self.manifests.len() == 0
    }

    /// The manifest and rule that first define `call`.
    pub fn rule(&self, call: &str) -> (r: Option<(&Manifest, &Rule)>)
        requires
            self.wf(),
        ensures
            match r {
                Some((m, rule)) => exists|mi: int, ri: int|
                    definition_of(manifests_of(self.manifest_list()), call@) == Some((mi, ri)) && *m
                        == self.manifest_list()[mi].0 && *rule == self.manifest_list()[mi].0.lark.rules@[ri],
                None => definition_of(manifests_of(self.manifest_list()), call@) is None,
            },
    {
        match self.find_definition(call) {
            Some((mi, ri)) => {
                proof {
                    lemma_definition_bound(manifests_of(self.manifests@), call@);
                    assert(manifests_of(self.manifests@)[mi as int] == self.manifests@[mi as int].0);
                }
                let manifest = &self.manifests[mi].0;
                Some((manifest, &manifest.lark.rules[ri]))
            },
            None => None,
        }
    }

    /// Target kind for a rule call name, if any active template declares it.
    pub fn kind_of(&self, call: &str) -> (r: Option<Kind>)
        requires
            self.wf(),
        ensures
            match definition_of(manifests_of(self.manifest_list()), call@) {
                Some((mi, ri)) => r == Some(kind_spec(self.manifest_list()[mi].0.lark.rules@[ri].kind)),
                None => r is None,
            },
    {
        match self.rule(call) {
            Some((_, r)) => Some(to_kind(r.kind)),
            None => None,
        }
    }
}

impl Default for TemplateSet {
    /// No templates.
    fn default() -> (s: Self)
        ensures
            s.wf(),
            s.manifest_list().len() == 0,
            s.warning_list().len() == 0,
    {
        TemplateSet { manifests: Vec::new(), by_call: Vec::new(), warnings: Vec::new() }
    }
}

/// The first definition of `call` among `ms` and the first `ri` rules of `m`.
pub open spec fn def_partial(ms: Seq<Manifest>, m: Manifest, ri: int, call: Seq<char>) -> Option<(int, int)> {
    match definition_of(ms, call) {
        Some(d) => Some(d),
        None => match rule_index(m.lark.rules@.take(ri), call) {
            Some(r) => Some((ms.len() as int, r)),
            None => None,
        },
    }
}

/// Handling one more rule of `m` changes the first definition of its call
/// only, and only when nothing defined it before.
proof fn lemma_def_partial_step(ms: Seq<Manifest>, m: Manifest, ri: int)
    requires
        0 <= ri < m.lark.rules@.len(),
    ensures
        def_partial(ms, m, ri + 1, m.lark.rules@[ri].call@) == match def_partial(ms, m, ri, m.lark.rules@[ri].call@) {
            Some(d) => Some(d),
            None => Some((ms.len() as int, ri)),
        },
        forall|call: Seq<char>|
            call != m.lark.rules@[ri].call@ ==> #[trigger] def_partial(ms, m, ri + 1, call) == def_partial(
                ms,
                m,
                ri,
                call,
            ),
{
    let rules = m.lark.rules@;
    assert(rules.take(ri + 1).drop_last() =~= rules.take(ri));
    assert(rules.take(ri + 1).last() == rules[ri]);
}

/// A first definition points inside the manifests and at a rule with that call.
pub proof fn lemma_definition_bound(ms: Seq<Manifest>, call: Seq<char>)
    ensures
        definition_of(ms, call) matches Some((mi, ri)) ==> 0 <= mi < ms.len() && 0 <= ri
            < ms[mi].lark.rules@.len() && ms[mi].lark.rules@[ri].call@ == call,
    decreases ms.len(),
{
    if ms.len() > 0 {
        lemma_definition_bound(ms.drop_last(), call);
        lemma_rule_index_bound(ms.last().lark.rules@, call);
    }
}

/// A rule index points at a rule with that call.
pub proof fn lemma_rule_index_bound(rules: Seq<Rule>, call: Seq<char>)
    ensures
        rule_index(rules, call) matches Some(i) ==> 0 <= i < rules.len() && rules[i].call@ == call,
    decreases rules.len(),
{
    if rules.len() > 0 {
        lemma_rule_index_bound(rules.drop_last(), call);
    }
}

/// Templates added later do not override earlier ones: a call that the
/// first templates define keeps that definition whatever template comes
/// after them.
pub proof fn law_first_definition_stays(ms: Seq<Manifest>, m: Manifest, call: Seq<char>)
    requires
        definition_of(ms, call) is Some,
    ensures
        definition_of(ms.push(m), call) == definition_of(ms, call),
{
    assert(ms.push(m).drop_last() =~= ms);
}

/// A call that no earlier template defines takes the definition of the
/// new template's first rule with that call, if it has one.
pub proof fn law_new_definition(ms: Seq<Manifest>, m: Manifest, call: Seq<char>)
    requires
        definition_of(ms, call) is None,
    ensures
        definition_of(ms.push(m), call) == match rule_index(m.lark.rules@, call) {
            Some(r) => Some((ms.len() as int, r)),
            None => None,
        },
{
    assert(ms.push(m).drop_last() =~= ms);
}

} // verus!
