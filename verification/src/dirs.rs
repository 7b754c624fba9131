//! Per-user skyde directories. The platform's data directory (XDG on
//! Linux/BSD, `%APPDATA%` on Windows, `~/Library/Application Support` on
//! macOS) is read from the environment by the application; the layout
//! under it is decided here.
use vstd::prelude::*;
use crate::index::{join_path, join_spec};
use crate::strings::{ends_with_text, starts_with_text, views};

verus! {

/// The per-user data directory for skyde under the platform's data
/// directory `base`, or under the current directory when there is none.
pub open spec fn data_dir_spec(base: Option<Seq<char>>) -> Seq<char> {
    let b = match base {
        Some(b) => b,
        None => "."@,
    };
    join_spec(b, "skyde"@)
}

/// An optional string slice, as characters.
pub open spec fn opt_chars(o: Option<&str>) -> Option<Seq<char>> {
    match o {
        Some(s) => Some(s@),
        None => None,
    }
}

/// The per-user data directory for skyde. Falls back to the current
/// directory only if the platform gives no home at all.
pub fn data_dir(base: Option<&str>) -> (r: String)
    ensures
        r@ == data_dir_spec(opt_chars(base)),
{
    match base {
        Some(b) => join_path(b, "skyde"),
        None => join_path(".", "skyde"),
    }
}

/// The user's home directory, or the current directory when there is none.
pub open spec fn home_or_here(home: Option<Seq<char>>) -> Seq<char> {
    match home {
        Some(h) => h,
        None => "."@,
    }
}

/// Where shared, per-user templates live: `.config/skedit/templates` under
/// the user's home directory `home`. `skedit template add` installs there,
/// and the editor searches there after the workspace's own roots.
pub fn templates_dir(home: Option<&str>) -> (r: String)
    ensures
        r@ == join_spec(home_or_here(opt_chars(home)), ".config/skedit/templates"@),
{
    match home {
        Some(h) => join_path(h, ".config/skedit/templates"),
        None => join_path(".", ".config/skedit/templates"),
    }
}

/// The directories templates are loaded from, in order: the workspace's
/// `.skedit/templates`, its `templates`, then the user's shared templates
/// when there is a home directory.
pub open spec fn template_roots_spec(root: Seq<char>, home: Option<Seq<char>>) -> Seq<Seq<char>> {
    let local = seq![join_spec(root, ".skedit/templates"@), join_spec(root, "templates"@)];
    match home {
        Some(h) => local.push(join_spec(h, ".config/skedit/templates"@)),
        None => local,
    }
}

/// The template roots of the workspace at `root`, for a user whose home
/// directory is `home`.
pub fn template_roots(root: &str, home: Option<&str>) -> (r: Vec<String>)
    ensures
        views(r@) == template_roots_spec(root@, opt_chars(home)),
{
    let mut roots: Vec<String> = Vec::new();
    roots.push(join_path(root, ".skedit/templates"));
    roots.push(join_path(root, "templates"));
    match home {
        Some(h) => roots.push(templates_dir(Some(h))),
        None => {},
    }
    proof {
        assert(views(roots@) =~= template_roots_spec(root@, opt_chars(home)));
    }
    roots
}

/// The recently-opened-workspaces list: one `<name> <path> <epoch>` per line.
pub fn recents_file(base: Option<&str>) -> (r: String)
    ensures
        r@ == join_spec(data_dir_spec(opt_chars(base)), "recent-workspaces"@),
{
    let d = data_dir(base);
    join_path(d.as_str(), "recent-workspaces")
}

/// Whatever the platform's data directory, skyde's directory under it is
/// named `skyde`: the path ends with `/skyde`, or is just `skyde`.
pub proof fn law_data_dir_ends_with_skyde(base: Option<Seq<char>>)
    ensures
        ends_with_text(data_dir_spec(base), "skyde"@),
        data_dir_spec(base) == "skyde"@ || ends_with_text(data_dir_spec(base), "/skyde"@),
{
    let b = match base {
        Some(b) => b,
        None => "."@,
    };
    let d = data_dir_spec(base);
    reveal_strlit("skyde");
    reveal_strlit("/skyde");
    reveal_strlit("/");
    reveal_strlit(".");
    if starts_with_text("skyde"@, "/"@) || b.len() == 0 {
        assert(d == "skyde"@);
        assert(d.subrange(d.len() - 5, d.len() as int) =~= "skyde"@);
    } else if b.last() == '/' {
        assert(d == b + "skyde"@);
        assert(d.subrange(d.len() - 5, d.len() as int) =~= "skyde"@);
        assert(d.subrange(d.len() - 6, d.len() as int) =~= "/skyde"@);
    } else {
        assert(d == b + "/"@ + "skyde"@);
        assert(d.subrange(d.len() - 5, d.len() as int) =~= "skyde"@);
        assert(d.subrange(d.len() - 6, d.len() as int) =~= "/skyde"@);
    }
}

} // verus!
