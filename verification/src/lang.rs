//! Which language a file is in: the syntax used to highlight it and the
//! name the status bar shows for it.
use vstd::prelude::*;
use crate::buck::last_index_of;
use crate::strings::str_eq;

verus! {

/// The text `str::to_lowercase` gives: Unicode's lowercase mapping of the
/// text (a capital sigma's form depends on the letters around it).
pub uninterp spec fn lowercase(s: Seq<char>) -> Seq<char>;

/// `str::to_lowercase`. Its result is named, not stated: it is Unicode's
/// lowercase mapping of the text, which depends on the text alone.
#[verifier::external_body]
fn to_lowercase(s: &str) -> (r: String)
    ensures
        r@ == lowercase(s@),
{
    s.to_lowercase()
}

/// The extension of a file name, as `Path::extension` reads it: the text
/// after the last `.`, when that dot is not the name's first character
/// and the name is not `..`.
pub open spec fn extension_spec(name: Seq<char>) -> Option<Seq<char>> {
    if name == ".."@ {
        None
    } else {
        match last_index_of(name, '.') {
            Some(k) => if k == 0 {
                None
            } else {
                Some(name.skip(k + 1))
            },
            None => None,
        }
    }
}

/// The syntax a file is highlighted with, from its file name: build files
/// and `.bzl`/`.bxl` as Python, others by their extension in lower case,
/// `txt` without one.
pub open spec fn syntax_spec(file_name: Option<Seq<char>>) -> Seq<char> {
    let name = match file_name {
        Some(n) => n,
        None => Seq::empty(),
    };
    if name == "BUCK"@ || name == "BUILD"@ || name == "BUILD.bazel"@ || name == "WORKSPACE"@ {
        "py"@
    } else {
        match extension_spec(name) {
            Some(e) => if e == "bzl"@ || e == "bxl"@ {
                "py"@
            } else {
                lowercase(e)
            },
            None => "txt"@,
        }
    }
}

/// The extension of a file name.
pub fn extension(name: &str) -> (r: Option<&str>)
    ensures
        match r {
            Some(e) => extension_spec(name@) == Some(e@),
            None => extension_spec(name@) is None,
        },
{
    if str_eq(name, "..") {
        return None;
    }
    let n = name.unicode_len();
    let mut k = n;
    assert(name@.take(n as int) =~= name@);
    while k > 0 && name.get_char(k - 1) != '.'
        invariant
            k <= n,
            n == name@.len(),
            last_index_of(name@, '.') == last_index_of(name@.take(k as int), '.'),
        decreases k,
    {
        proof {
            assert(name@.take(k - 1) =~= name@.take(k as int).drop_last());
        }
        k = k - 1;
    }
    if k == 0 {
        assert(name@.take(0) =~= Seq::<char>::empty());
        None
    } else if k == 1 {
        assert(name@.take(1).last() == '.');
        None
    } else {
        assert(name@.take(k as int).last() == '.');
        let e = name.substring_char(k, n);
        assert(e@ =~= name@.skip(k as int));
        Some(e)
    }
}

/// The syntax a file is highlighted with, from its file name (none when
/// its path has no name).
pub fn syntax_for(file_name: Option<&str>) -> (r: String)
    ensures
        r@ == syntax_spec(
            match file_name {
                Some(n) => Some(n@),
                None => None,
            },
        ),
{
    let name = match file_name {
        Some(n) => n,
        None => "",
    };
    let ghost fnv: Option<Seq<char>> = match file_name {
        Some(n) => Some(n@),
        None => None,
    };
    proof {
        reveal_strlit("");
        assert(name@ == match fnv {
            Some(n) => n,
            None => Seq::<char>::empty(),
        });
    }
    if str_eq(name, "BUCK") || str_eq(name, "BUILD") || str_eq(name, "BUILD.bazel") || str_eq(
        name,
        "WORKSPACE",
    ) {
        return "py".to_owned();
    }
    match extension(name) {
        Some(e) => {
            if str_eq(e, "bzl") || str_eq(e, "bxl") {
                "py".to_owned()
            } else {
                to_lowercase(e)
            }
        },
        None => "txt".to_owned(),
    }
}

/// The name of the language highlighted with a syntax.
pub open spec fn language_spec(syntax: Seq<char>) -> Seq<char> {
    if syntax == "rs"@ {
        "Rust"@
    } else if syntax == "py"@ {
        "Starlark/Python"@
    } else if syntax == "toml"@ {
        "TOML"@
    } else if syntax == "md"@ {
        "Markdown"@
    } else if syntax == "json"@ {
        "JSON"@
    } else if syntax == "sh"@ || syntax == "fish"@ {
        "Shell"@
    } else if syntax == "c"@ || syntax == "h"@ {
        "C"@
    } else if syntax == "cc"@ || syntax == "cpp"@ || syntax == "hpp"@ {
        "C++"@
    } else if syntax == "js"@ {
        "JavaScript"@
    } else if syntax == "ts"@ {
        "TypeScript"@
    } else {
        "Plain Text"@
    }
}

/// The name of the language highlighted with a syntax.
pub fn language_name(syntax: &str) -> (r: &'static str)
    ensures
        r@ == language_spec(syntax@),
{
    if str_eq(syntax, "rs") {
        "Rust"
    } else if str_eq(syntax, "py") {
        "Starlark/Python"
    } else if str_eq(syntax, "toml") {
        "TOML"
    } else if str_eq(syntax, "md") {
        "Markdown"
    } else if str_eq(syntax, "json") {
        "JSON"
    } else if str_eq(syntax, "sh") || str_eq(syntax, "fish") {
        "Shell"
    } else if str_eq(syntax, "c") || str_eq(syntax, "h") {
        "C"
    } else if str_eq(syntax, "cc") || str_eq(syntax, "cpp") || str_eq(syntax, "hpp") {
        "C++"
    } else if str_eq(syntax, "js") {
        "JavaScript"
    } else if str_eq(syntax, "ts") {
        "TypeScript"
    } else {
        "Plain Text"
    }
}

} // verus!
