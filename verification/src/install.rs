//! Installing templates from GitHub: what `skedit template add` makes of
//! its arguments, and the lines the template manager prints. Cloning,
//! pulling and reading the files are the application's part.
use vstd::prelude::*;
use crate::buck::{find_first, first_occurrence};
use crate::recent::{join_spaces, split_at, split_on};
use crate::strings::{decimal, decimal_string, starts_with_text, str_eq, str_starts_with, views};
use crate::template::{Cmd, Manifest};

verus! {

/// Where a template comes from and the name it is installed under.
#[derive(Debug)]
pub struct TemplateSpec {
    /// `user/repo` on GitHub.
    pub repo: String,
    /// The branch or tag to clone, if one was named.
    pub git_ref: Option<String>,
    /// The directory name under the templates directory.
    pub name: String,
}

/// A `TemplateSpec` with its strings as characters.
pub struct TemplateSpecView {
    pub repo: Seq<char>,
    pub git_ref: Option<Seq<char>>,
    pub name: Seq<char>,
}

impl View for TemplateSpec {
    type V = TemplateSpecView;

    open spec fn view(&self) -> TemplateSpecView {
        TemplateSpecView {
            repo: self.repo@,
            git_ref: match self.git_ref {
                Some(g) => Some(g@),
                None => None,
            },
            name: self.name@,
        }
    }
}

/// The text `format!("{:?}", items)` gives for a list of strings.
pub uninterp spec fn debug_strs(items: Seq<Seq<char>>) -> Seq<char>;

/// `format!("{:?}", ..)` on a list of strings: std's `Debug` text for it,
/// the strings quoted and escaped inside brackets. Nothing is stated of
/// that text beyond its being a function of the strings.
#[verifier::external_body]
fn debug_text(items: &Vec<String>) -> (r: String)
    ensures
        r@ == debug_strs(views(items@)),
{
    format!("{:?}", items)
}

/// `s` without every leading copy of `p`, as `trim_start_matches` does.
pub open spec fn trim_start_all(s: Seq<char>, p: Seq<char>) -> Seq<char>
    decreases s.len(),
{
    if p.len() > 0 && starts_with_text(s, p) {
        trim_start_all(s.skip(p.len() as int), p)
    } else {
        s
    }
}

/// The repository part of `user/repo[@ref]`: the text before the first `@`.
pub open spec fn repo_part(full: Seq<char>) -> Seq<char> {
    match first_occurrence(full, "@"@) {
        Some(i) => full.take(i),
        None => full,
    }
}

/// The ref part of `user/repo[@ref]`: the text after the first `@`.
pub open spec fn ref_part(full: Seq<char>) -> Option<Seq<char>> {
    match first_occurrence(full, "@"@) {
        Some(i) => Some(full.skip(i + 1)),
        None => None,
    }
}

/// The repository and ref parts of `user/repo[@ref]`.
fn split_ref(full: &str) -> (r: (&str, Option<String>))
    ensures
        r.0@ == repo_part(full@),
        match r.1 {
            Some(g) => ref_part(full@) == Some(g@),
            None => ref_part(full@) is None,
        },
{
    let m = full.unicode_len();
    match find_first(full, "@") {
        Some(i) => {
            proof {
                reveal_strlit("@");
            }
            assert(i + 1 <= m);
            let r = full.substring_char(0, i);
            let g = full.substring_char(i + 1, m);
            assert(r@ =~= full@.take(i as int));
            assert(g@ =~= full@.skip(i + 1));
            (r, Some(g.to_owned()))
        },
        None => (full, None),
    }
}

/// What `skedit template add SPEC REST..` asks for. `SPEC` is
/// `github:user/repo`, optionally with `@ref`; `REST` is empty or
/// `--name NAME`. Without a name the template is installed under the
/// repository's name less any leading `skedit-`.
pub open spec fn template_spec_spec(spec: Seq<char>, rest: Seq<Seq<char>>) -> Result<TemplateSpecView, Seq<char>> {
    if !starts_with_text(spec, "github:"@) {
        Err("template spec must look like github:user/repo[@ref]"@)
    } else {
        let full = spec.skip(7);
        let repo = repo_part(full);
        let git_ref = ref_part(full);
        if split_on(repo, '/').len() != 2 {
            Err("expected github:user/repo"@)
        } else if rest.len() == 0 {
            Ok(TemplateSpecView { repo, git_ref, name: trim_start_all(split_on(repo, '/').last(), "skedit-"@) })
        } else if rest.len() == 2 && rest[0] == "--name"@ {
            Ok(TemplateSpecView { repo, git_ref, name: rest[1] })
        } else {
            Err("unexpected arguments: "@ + debug_strs(rest))
        }
    }
}

/// `s` without every leading copy of `p`.
fn trim_start_str(s: &str, p: &str) -> (r: String)
    ensures
        r@ == trim_start_all(s@, p@),
{
    let n = s.unicode_len();
    let m = p.unicode_len();
    if m == 0 {
        return s.to_owned();
    }
    let mut i: usize = 0;
    assert(s@.skip(0) =~= s@);
    loop
        invariant
            n == s@.len(),
            m == p@.len(),
            m > 0,
            i <= n,
            trim_start_all(s@, p@) == trim_start_all(s@.skip(i as int), p@),
        decreases n - i,
    {
        let rest = s.substring_char(i, n);
        assert(rest@ =~= s@.skip(i as int));
        if !str_starts_with(rest, p) {
            return rest.to_owned();
        }
        assert(s@.skip(i as int).skip(m as int) =~= s@.skip(i + m));
        i = i + m;
    }
}

/// What `skedit template add` asks for, from its spec and the arguments
/// after it.
pub fn parse_template_spec(spec: &str, rest: &Vec<String>) -> (r: Result<TemplateSpec, String>)
    ensures
        match r {
            Ok(t) => template_spec_spec(spec@, views(rest@)) == Ok::<TemplateSpecView, Seq<char>>(t@),
            Err(e) => template_spec_spec(spec@, views(rest@)) == Err::<TemplateSpecView, Seq<char>>(e@),
        },
{
    if !str_starts_with(spec, "github:") {
        return Err("template spec must look like github:user/repo[@ref]".to_owned());
    }
    proof {
        reveal_strlit("github:");
    }
    let n = spec.unicode_len();
    let full = spec.substring_char(7, n);
    assert(full@ =~= spec@.skip(7));
    let (repo, git_ref) = split_ref(full);
    let pieces = split_at(repo, '/');
    if pieces.len() != 2 {
        return Err("expected github:user/repo".to_owned());
    }
    let ghost ps = pieces@.map_values(|x: String| x@);
    let name = if rest.len() == 0 {
        assert(ps.last() == pieces@[1]@);
        trim_start_str(pieces[1].as_str(), "skedit-")
    } else if rest.len() == 2 && str_eq(rest[0].as_str(), "--name") {
        rest[1].clone()
    } else {
        let mut msg = "unexpected arguments: ".to_owned();
        msg.append(debug_text(rest).as_str());
        return Err(msg);
    };
    Ok(TemplateSpec { repo: repo.to_owned(), git_ref, name })
}

/// The URL that a template repository is cloned from.
pub fn clone_url(repo: &str) -> (r: String)
    ensures
        r@ == "https://github.com/"@ + repo@ + ".git"@,
{
    let mut u = "https://github.com/".to_owned();
    u.append(repo);
    u.append(".git");
    u
}

/// The arguments `git` gets to install the template `t` into `dest`: a
/// shallow clone, of the named branch or tag when there is one.
pub open spec fn clone_args_spec(t: TemplateSpecView, dest: Seq<char>) -> Seq<Seq<char>> {
    let by_ref: Seq<Seq<char>> = match t.git_ref {
        Some(r) => seq!["--branch"@, r],
        None => Seq::empty(),
    };
    seq!["clone"@, "--depth"@, "1"@] + by_ref + seq!["https://github.com/"@ + t.repo + ".git"@, dest]
}

/// The arguments of the `git` run that installs `spec` into `dest`.
pub fn clone_args(spec: &TemplateSpec, dest: &str) -> (r: Vec<String>)
    ensures
        views(r@) == clone_args_spec(spec@, dest@),
{
    let mut args: Vec<String> = Vec::new();
    args.push("clone".to_owned());
    args.push("--depth".to_owned());
    args.push("1".to_owned());
    match &spec.git_ref {
        Some(r) => {
            args.push("--branch".to_owned());
            args.push(r.clone());
        },
        None => {},
    }
    args.push(clone_url(spec.repo.as_str()));
    args.push(dest.to_owned());
    proof {
        assert(views(args@) =~= clone_args_spec(spec@, dest@));
    }
    args
}

/// The strings joined by single spaces, as `join(" ")` does.
fn join_with_spaces(v: &Vec<String>) -> (r: String)
    ensures
        r@ == join_spaces(views(v@)),
{
    let ghost vs = views(v@);
    if v.len() == 0 {
        return String::new();
    }
    let mut out = v[0].clone();
    let mut k: usize = 1;
    assert(vs.take(1) =~= seq![vs[0]]);
    while k < v.len()
        invariant
            vs == views(v@),
            1 <= k <= v@.len(),
            out@ == join_spaces(vs.take(k as int)),
        decreases v@.len() - k,
    {
        out.append(" ");
        out.append(v[k].as_str());
        proof {
            assert(vs.take(k + 1).drop_last() =~= vs.take(k as int));
            assert(vs.take(k + 1).last() == v@[k as int]@);
        }
        k = k + 1;
    }
    assert(vs.take(k as int) =~= vs);
    out
}

/// The line `skedit template add` prints for an installed manifest.
pub open spec fn installed_line_spec(m: Manifest, path: Seq<char>) -> Seq<char> {
    "installed '"@ + m.template.name@ + "' (engine "@ + m.template.engine@ + ", "@ + decimal(
        m.lark.rules@.len(),
    ) + " rules) from "@ + path
}

/// The line `skedit template add` prints for an installed manifest.
pub fn installed_line(m: &Manifest, path: &str) -> (r: String)
    ensures
        r@ == installed_line_spec(*m, path@),
{
    let mut s = "installed '".to_owned();
    s.append(m.template.name.as_str());
    s.append("' (engine ");
    s.append(m.template.engine.as_str());
    s.append(", ");
    s.append(decimal_string(m.lark.rules.len() as u64).as_str());
    s.append(" rules) from ");
    s.append(path);
    s
}

/// The line that shows what a toolchain command runs.
pub open spec fn tool_line_spec(what: Seq<char>, c: Cmd) -> Seq<char> {
    "  "@ + what + ": runs `"@ + c.cmd@ + " "@ + join_spaces(views(c.args@)) + "`"@
}

/// The lines that show the toolchain commands a manifest runs: `lsp`,
/// `fmt` and `lint`, each where it is set.
pub open spec fn tool_lines_spec(m: Manifest) -> Seq<Seq<char>> {
    let a: Seq<Seq<char>> = match m.toolchain.lsp {
        Some(c) => seq![tool_line_spec("lsp"@, c)],
        None => Seq::empty(),
    };
    let b: Seq<Seq<char>> = match m.toolchain.fmt {
        Some(c) => seq![tool_line_spec("fmt"@, c)],
        None => Seq::empty(),
    };
    let c: Seq<Seq<char>> = match m.toolchain.lint {
        Some(c) => seq![tool_line_spec("lint"@, c)],
        None => Seq::empty(),
    };
    a + b + c
}

/// The line that shows what one toolchain command runs.
fn tool_line(what: &str, c: &Cmd) -> (r: String)
    ensures
        r@ == tool_line_spec(what@, *c),
{
    let mut s = "  ".to_owned();
    s.append(what);
    s.append(": runs `");
    s.append(c.cmd.as_str());
    s.append(" ");
    s.append(join_with_spaces(&c.args).as_str());
    s.append("`");
    s
}

/// The lines that show the toolchain commands a manifest runs.
pub fn tool_lines(m: &Manifest) -> (r: Vec<String>)
    ensures
        views(r@) == tool_lines_spec(*m),
{
    let mut out: Vec<String> = Vec::new();
    if let Some(c) = &m.toolchain.lsp {
        out.push(tool_line("lsp", c));
    }
    let ghost a = views(out@);
    if let Some(c) = &m.toolchain.fmt {
        out.push(tool_line("fmt", c));
    }
    let ghost b = views(out@);
    if let Some(c) = &m.toolchain.lint {
        out.push(tool_line("lint", c));
    }
    assert(views(out@) =~= tool_lines_spec(*m));
    out
}

/// The line `skedit template list` prints for a manifest.
pub open spec fn list_line_spec(m: Manifest, path: Seq<char>) -> Seq<char> {
    m.template.name@ + "\t"@ + m.template.engine@ + "\t"@ + decimal(m.lark.rules@.len()) + " rules\t"@ + path
}

/// The line `skedit template list` prints for a manifest.
pub fn list_line(m: &Manifest, path: &str) -> (r: String)
    ensures
        r@ == list_line_spec(*m, path@),
{
    let mut s = m.template.name.clone();
    s.append("\t");
    s.append(m.template.engine.as_str());
    s.append("\t");
    s.append(decimal_string(m.lark.rules.len() as u64).as_str());
    s.append(" rules\t");
    s.append(path);
    s
}

} // verus!
