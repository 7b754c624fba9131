//! Targets as the `buck2` CLI reports them, and what the editor derives
//! from them. Running `buck2` itself is left to the application.
use vstd::prelude::*;
use crate::strings::{
    contains_text, occurs_at, occurs_at_exec, starts_with_text, str_contains, str_eq,
    str_starts_with, views,
};

verus! {

#[derive(Debug, Clone)]
pub struct Target {
    pub label: String,
    pub name: String,
    pub package: String,
    pub rule_type: String,
    pub srcs: Vec<String>,
    pub deps: Vec<String>,
    pub visibility: Vec<String>,
}

/// A target with its strings as characters.
pub struct TargetView {
    pub label: Seq<char>,
    pub name: Seq<char>,
    pub package: Seq<char>,
    pub rule_type: Seq<char>,
    pub srcs: Seq<Seq<char>>,
    pub deps: Seq<Seq<char>>,
    pub visibility: Seq<Seq<char>>,
}

impl View for Target {
    type V = TargetView;

    open spec fn view(&self) -> TargetView {
        TargetView {
            label: self.label@,
            name: self.name@,
            package: self.package@,
            rule_type: self.rule_type@,
            srcs: views(self.srcs@),
            deps: views(self.deps@),
            visibility: views(self.visibility@),
        }
    }
}

/// Kind of a target, inferred from its rule type name.
#[derive(Debug, Clone, Copy, PartialEq, Eq, Structural)]
pub enum Kind {
    Binary,
    Library,
    Test,
    Web,
    Other,
}

/// The kind a rule type name stands for: a test if it mentions `test`,
/// else a binary if it mentions `binary`, else a library if it mentions
/// `library`, else other.
pub open spec fn kind_of_rule_type(t: Seq<char>) -> Kind {
    if contains_text(t, "test"@) {
        Kind::Test
    } else if contains_text(t, "binary"@) {
        Kind::Binary
    } else if contains_text(t, "library"@) {
        Kind::Library
    } else {
        Kind::Other
    }
}

/// Position of the last occurrence of `c`.
pub open spec fn last_index_of(s: Seq<char>, c: char) -> Option<int>
    decreases s.len(),
{
    if s.len() == 0 {
        None
    } else if s.last() == c {
        Some(s.len() - 1)
    } else {
        last_index_of(s.drop_last(), c)
    }
}

/// The last occurrence lies inside the text and holds `c`.
pub proof fn lemma_last_index_bound(s: Seq<char>, c: char)
    ensures
        last_index_of(s, c) matches Some(k) ==> 0 <= k < s.len() && s[k] == c,
    decreases s.len(),
{
    if s.len() > 0 {
        lemma_last_index_bound(s.drop_last(), c);
    }
}

/// The text after the last `':'`, or all of it when there is none.
pub open spec fn after_last_colon(s: Seq<char>) -> Seq<char> {
    match last_index_of(s, ':') {
        Some(k) => s.skip(k + 1),
        None => s,
    }
}

impl Target {
    pub fn kind(&self) -> (k: Kind)
        ensures
            k == kind_of_rule_type(self.rule_type@),
    {
        let t = self.rule_type.as_str();
        if str_contains(t, "test") {
            Kind::Test
        } else if str_contains(t, "binary") {
            Kind::Binary
        } else if str_contains(t, "library") {
            Kind::Library
        } else {
            Kind::Other
        }
    }

    /// Short rule name: "prelude//rules.bzl:rust_binary" -> "rust_binary".
    pub fn rule_name(&self) -> (r: &str)
        ensures
            r@ == after_last_colon(self.rule_type@),
    {
        let s = self.rule_type.as_str();
        let n = s.unicode_len();
        let mut k = n;
        assert(s@.take(n as int) =~= s@);
        while k > 0 && s.get_char(k - 1) != ':'
            invariant
                k <= n,
                n == s@.len(),
                last_index_of(s@, ':') == last_index_of(s@.take(k as int), ':'),
            decreases k,
        {
            proof {
                assert(s@.take(k - 1) =~= s@.take(k as int).drop_last());
            }
            k = k - 1;
        }
        proof {
            assert(s@.take(n as int) =~= s@);
            if k > 0 {
                assert(s@.take(k as int).last() == ':');
            }
        }
        if k == 0 {
            s
        } else {
            s.substring_char(k, n)
        }
    }
}

/// Position of the first occurrence of `pat`.
pub open spec fn first_occurrence(s: Seq<char>, pat: Seq<char>) -> Option<int> {
    if exists|i: int| occurs_at(s, pat, i) {
        Some(choose|i: int| occurs_at(s, pat, i) && forall|j: int| 0 <= j < i ==> !occurs_at(s, pat, j))
    } else {
        None
    }
}

/// The cell name of a package: the text before the first `"//"`, or all of
/// it when there is none.
pub open spec fn cell_of(raw_package: Seq<char>) -> Seq<char> {
    match first_occurrence(raw_package, "//"@) {
        Some(i) => raw_package.take(i),
        None => raw_package,
    }
}

/// A label without its cell prefix: `cell//x` becomes `//x` when the cell
/// is not empty.
pub open spec fn strip_cell_spec(cell: Seq<char>, s: Seq<char>) -> Seq<char> {
    if cell.len() > 0 && starts_with_text(s, cell) && starts_with_text(s.skip(cell.len() as int), "//"@) {
        s.skip(cell.len() as int)
    } else {
        s
    }
}

/// A source path relative to its package: `//pkg/src/x` becomes `src/x`.
pub open spec fn strip_package_spec(cell: Seq<char>, package: Seq<char>, s: Seq<char>) -> Seq<char> {
    let full = strip_cell_spec(cell, s);
    let prefix = package + "/"@;
    if starts_with_text(full, prefix) {
        full.skip(prefix.len() as int)
    } else {
        full
    }
}

/// A target in the editor's form, from what `buck2 targets --json`
/// reports: labels lose the root cell name, and sources become relative to
/// their package.
pub open spec fn normalized(
    name: Seq<char>,
    raw_package: Seq<char>,
    rule_type: Seq<char>,
    srcs: Seq<Seq<char>>,
    deps: Seq<Seq<char>>,
    visibility: Seq<Seq<char>>,
) -> TargetView {
    let cell = cell_of(raw_package);
    let package = strip_cell_spec(cell, raw_package);
    TargetView {
        label: package + ":"@ + name,
        name,
        package,
        rule_type,
        srcs: srcs.map_values(|s: Seq<char>| strip_package_spec(cell, package, s)),
        deps: deps.map_values(|s: Seq<char>| strip_cell_spec(cell, s)),
        visibility,
    }
}

/// The first occurrence of `pat` in `s`, found by scanning.
pub(crate) fn find_first(s: &str, pat: &str) -> (r: Option<usize>)
    ensures
        r matches Some(i) ==> occurs_at(s@, pat@, i as int),
        match r {
            Some(i) => first_occurrence(s@, pat@) == Some(i as int),
            None => first_occurrence(s@, pat@) is None,
        },
{
    let n = s.unicode_len();
    let m = pat.unicode_len();
    let mut i: usize = 0;
    loop
        invariant
            n == s@.len(),
            m == pat@.len(),
            i <= n,
            forall|j: int| 0 <= j < i ==> !occurs_at(s@, pat@, j),
        ensures
            forall|j: int| 0 <= j <= n ==> !occurs_at(s@, pat@, j),
        decreases n - i,
    {
        if occurs_at_exec(s, n, pat, m, i) {
            proof {
                let c = choose|k: int| occurs_at(s@, pat@, k) && forall|j: int| 0 <= j < k ==> !occurs_at(s@, pat@, j);
                assert(occurs_at(s@, pat@, i as int) && forall|j: int| 0 <= j < i ==> !occurs_at(s@, pat@, j));
                assert(occurs_at(s@, pat@, c) && forall|j: int| 0 <= j < c ==> !occurs_at(s@, pat@, j));
                if c < i {
                } else if c > i {
                    assert(!occurs_at(s@, pat@, i as int));
                }
            }
            return Some(i);
        }
        if i == n {
            break;
        }
        i = i + 1;
    }
    assert forall|j: int| !occurs_at(s@, pat@, j) by {
        if 0 <= j <= n {
        }
    }
    None
}

/// `s` without its cell prefix.
fn strip_cell(cell: &str, s: &str) -> (r: String)
    ensures
        r@ == strip_cell_spec(cell@, s@),
{
    let n = s.unicode_len();
    let m = cell.unicode_len();
    if m > 0 && str_starts_with(s, cell) {
        let rest = s.substring_char(m, n);
        assert(rest@ =~= s@.skip(m as int));
        if str_starts_with(rest, "//") {
            return rest.to_owned();
        }
    }
    s.to_owned()
}

/// `s` relative to `package`.
fn strip_package(cell: &str, package: &str, s: &str) -> (r: String)
    ensures
        r@ == strip_package_spec(cell@, package@, s@),
{
    let full = strip_cell(cell, s);
    let mut prefix = package.to_owned();
    prefix.append("/");
    let n = full.as_str().unicode_len();
    let m = prefix.as_str().unicode_len();
    if str_starts_with(full.as_str(), prefix.as_str()) {
        let rel = full.as_str().substring_char(m, n);
        assert(rel@ =~= full@.skip(m as int));
        return rel.to_owned();
    }
    full
}

/// Every source made relative to `package`.
fn strip_packages(cell: &str, package: &str, srcs: &Vec<String>) -> (r: Vec<String>)
    ensures
        views(r@) == views(srcs@).map_values(|s: Seq<char>| strip_package_spec(cell@, package@, s)),
{
    let mut out: Vec<String> = Vec::new();
    let mut i: usize = 0;
    while i < srcs.len()
        invariant
            i <= srcs@.len(),
            views(out@) == views(srcs@).take(i as int).map_values(
                |s: Seq<char>| strip_package_spec(cell@, package@, s),
            ),
        decreases srcs@.len() - i,
    {
        let ghost old = out@;
        let x = strip_package(cell, package, srcs[i].as_str());
        out.push(x);
        i = i + 1;
        proof {
            assert(views(out@) =~= views(old).push(x@));
            assert(views(srcs@).take(i as int) =~= views(srcs@).take(i - 1).push(srcs@[i - 1]@));
            assert(views(out@) =~= views(srcs@).take(i as int).map_values(
                |s: Seq<char>| strip_package_spec(cell@, package@, s),
            ));
        }
    }
    assert(views(srcs@).take(i as int) =~= views(srcs@));
    out
}

/// Every label without its cell prefix.
fn strip_cells(cell: &str, deps: &Vec<String>) -> (r: Vec<String>)
    ensures
        views(r@) == views(deps@).map_values(|s: Seq<char>| strip_cell_spec(cell@, s)),
{
    let mut out: Vec<String> = Vec::new();
    let mut j: usize = 0;
    while j < deps.len()
        invariant
            j <= deps@.len(),
            views(out@) == views(deps@).take(j as int).map_values(
                |s: Seq<char>| strip_cell_spec(cell@, s),
            ),
        decreases deps@.len() - j,
    {
        let ghost old = out@;
        let x = strip_cell(cell, deps[j].as_str());
        out.push(x);
        j = j + 1;
        proof {
            assert(views(out@) =~= views(old).push(x@));
            assert(views(deps@).take(j as int) =~= views(deps@).take(j - 1).push(deps@[j - 1]@));
            assert(views(out@) =~= views(deps@).take(j as int).map_values(
                |s: Seq<char>| strip_cell_spec(cell@, s),
            ));
        }
    }
    assert(views(deps@).take(j as int) =~= views(deps@));
    out
}

/// The cell name of a package label.
fn cell_name(raw_package: &str) -> (r: String)
    ensures
        r@ == cell_of(raw_package@),
{
    match find_first(raw_package, "//") {
        Some(i) => raw_package.substring_char(0, i).to_owned(),
        None => raw_package.to_owned(),
    }
}

/// Bring one target from `buck2 targets --json` into the editor's form:
/// labels lose the root cell name (`root//demo` becomes `//demo`) and
/// sources become relative to their package.
pub fn normalize_target(
    name: String,
    raw_package: String,
    rule_type: String,
    srcs: Vec<String>,
    deps: Vec<String>,
    visibility: Vec<String>,
) -> (t: Target)
    ensures
        t@ == normalized(name@, raw_package@, rule_type@, views(srcs@), views(deps@), views(visibility@)),
{
    let cell = cell_name(raw_package.as_str());
    let package = strip_cell(cell.as_str(), raw_package.as_str());
    let new_srcs = strip_packages(cell.as_str(), package.as_str(), &srcs);
    let new_deps = strip_cells(cell.as_str(), &deps);
    let mut label = package.clone();
    label.append(":");
    label.append(name.as_str());
    Target { label, name, package, rule_type, srcs: new_srcs, deps: new_deps, visibility }
}

/// A JSON value as `serde_json` parses it.
#[verifier::external_type_specification]
#[verifier::external_body]
pub struct ExJsonValue(serde_json::Value);

/// A JSON value, holding what the target list is read from: strings,
/// arrays and objects (with their fields in the parser's order); any
/// other value is `Other`.
#[derive(Debug)]
pub enum Json {
    Str(String),
    Array(Vec<Json>),
    Object(Vec<(String, Json)>),
    Other,
}

/// What `serde_json` reads from a text: the value, or its error message.
pub uninterp spec fn json_of(bytes: Seq<u8>) -> Result<Json, String>;

/// `serde_json::from_slice` into a `serde_json::Value`, brought into a
/// `Json`; the error is the crate's message. The result is named, not
/// stated: it is the JSON grammar's reading of the bytes, which depends
/// on them alone.
#[verifier::external_body]
fn json_parse(json: &[u8]) -> (r: Result<Json, String>)
    ensures
        r == json_of(json@),
{
    serde_json::from_slice::<serde_json::Value>(json).map(json_from_value).map_err(|e| e.to_string())
}

/// A `serde_json::Value` as a `Json`, variant for variant.
#[verifier::external_body]
fn json_from_value(v: serde_json::Value) -> Json {
    match v {
        serde_json::Value::String(s) => Json::Str(s),
        serde_json::Value::Array(a) => Json::Array(a.into_iter().map(json_from_value).collect()),
        serde_json::Value::Object(m) => Json::Object(m.into_iter().map(|(k, x)| (k, json_from_value(x))).collect()),
        _ => Json::Other,
    }
}

/// The value of the first of `fields` named `key`.
pub open spec fn field_in(fields: Seq<(String, Json)>, key: Seq<char>) -> Option<Json>
    decreases fields.len(),
{
    if fields.len() == 0 {
        None
    } else if fields[0].0@ == key {
        Some(fields[0].1)
    } else {
        field_in(fields.drop_first(), key)
    }
}

/// The value of field `key` of an object, as `Value::get` finds it;
/// nothing for other values.
pub open spec fn field_spec(v: Json, key: Seq<char>) -> Option<Json> {
    match v {
        Json::Object(fields) => field_in(fields@, key),
        _ => None,
    }
}

/// The string field `key` of an object, or `"?"`.
pub open spec fn str_field_spec(v: Json, key: Seq<char>) -> Seq<char> {
    match field_spec(v, key) {
        Some(Json::Str(s)) => s@,
        _ => "?"@,
    }
}

/// The strings among items.
pub open spec fn strings_in(items: Seq<Json>) -> Seq<Seq<char>>
    decreases items.len(),
{
    if items.len() == 0 {
        Seq::empty()
    } else {
        let rest = strings_in(items.drop_last());
        match items.last() {
            Json::Str(s) => rest.push(s@),
            _ => rest,
        }
    }
}

/// The strings of the array field `key` of an object; other items are
/// skipped, and a missing field gives no strings.
pub open spec fn str_list_spec(v: Json, key: Seq<char>) -> Seq<Seq<char>> {
    match field_spec(v, key) {
        Some(Json::Array(items)) => strings_in(items@),
        _ => Seq::empty(),
    }
}

/// The target one item of the list stands for.
pub open spec fn target_of_item(t: Json) -> TargetView {
    normalized(
        str_field_spec(t, "name"@),
        str_field_spec(t, "buck.package"@),
        str_field_spec(t, "buck.type"@),
        str_list_spec(t, "srcs"@),
        str_list_spec(t, "deps"@),
        str_list_spec(t, "visibility"@),
    )
}

/// What `buck2 targets //... --json` output reads as: one target per item
/// of its array, or why it cannot be read.
pub open spec fn targets_spec(json: Seq<u8>) -> Result<Seq<TargetView>, Seq<char>> {
    targets_of_json(json_of(json))
}

/// What a parsed `buck2 targets --json` output reads as: one target per
/// item of its array, or why it cannot be read.
pub open spec fn targets_of_json(parsed: Result<Json, String>) -> Result<Seq<TargetView>, Seq<char>> {
    match parsed {
        Err(e) => Err("bad json from buck2: "@ + e@),
        Ok(Json::Array(items)) => Ok(items@.map_values(|t: Json| target_of_item(t))),
        Ok(_) => Err("expected a json array from buck2 targets"@),
    }
}

/// The field `key` of an object.
fn field<'a>(v: &'a Json, key: &str) -> (r: Option<&'a Json>)
    ensures
        match r {
            Some(x) => field_spec(*v, key@) == Some(*x),
            None => field_spec(*v, key@) is None,
        },
{
    match v {
        Json::Object(fields) => {
            let mut k: usize = 0;
            assert(fields@.skip(0) =~= fields@);
            while k < fields.len()
                invariant
                    *v == Json::Object(*fields),
                    k <= fields@.len(),
                    field_in(fields@, key@) == field_in(fields@.skip(k as int), key@),
                decreases fields@.len() - k,
            {
                proof {
                    assert(fields@.skip(k as int)[0] == fields@[k as int]);
                    assert(fields@.skip(k as int).drop_first() =~= fields@.skip(k + 1));
                }
                if str_eq(fields[k].0.as_str(), key) {
                    return Some(&fields[k].1);
                }
                k = k + 1;
            }
            None
        },
        _ => None,
    }
}

/// The string field `key` of an object, or `"?"`.
fn str_field(t: &Json, key: &str) -> (r: String)
    ensures
        r@ == str_field_spec(*t, key@),
{
    match field(t, key) {
        Some(Json::Str(s)) => s.clone(),
        _ => "?".to_owned(),
    }
}

/// The strings of the array field `key` of an object.
fn str_list(t: &Json, key: &str) -> (r: Vec<String>)
    ensures
        views(r@) == str_list_spec(*t, key@),
{
    let mut out: Vec<String> = Vec::new();
    match field(t, key) {
        Some(Json::Array(items)) => {
            let mut i: usize = 0;
            assert(items@.take(0) =~= Seq::<Json>::empty());
            while i < items.len()
                invariant
                    i <= items@.len(),
                    views(out@) == strings_in(items@.take(i as int)),
                decreases items@.len() - i,
            {
                proof {
                    assert(items@.take(i + 1).drop_last() =~= items@.take(i as int));
                    assert(items@.take(i + 1).last() == items@[i as int]);
                }
                if let Json::Str(s) = &items[i] {
                    let c = s.clone();
                    let ghost prev = out@;
                    out.push(c);
                    assert(views(out@) =~= views(prev).push(c@));
                }
                i = i + 1;
            }
            assert(items@.take(i as int) =~= items@);
        },
        _ => {
            assert(views(out@) =~= Seq::<Seq<char>>::empty());
        },
    }
    out
}

/// Parse the output of `buck2 targets //... --json`: an array of objects,
/// each brought into the editor's form by `normalize_target`.
pub fn parse_targets(json: &[u8]) -> (r: Result<Vec<Target>, String>)
    ensures
        match r {
            Ok(v) => targets_spec(json@) == Ok::<Seq<TargetView>, Seq<char>>(v@.map_values(|t: Target| t@)),
            Err(e) => targets_spec(json@) == Err::<Seq<TargetView>, Seq<char>>(e@),
        },
{
    targets_from_json(json_parse(json))
}

/// The targets that the parsed output of `buck2 targets //... --json`
/// lists, or why it cannot be read.
pub fn targets_from_json(parsed: Result<Json, String>) -> (r: Result<Vec<Target>, String>)
    ensures
        match r {
            Ok(v) => targets_of_json(parsed) == Ok::<Seq<TargetView>, Seq<char>>(v@.map_values(|t: Target| t@)),
            Err(e) => targets_of_json(parsed) == Err::<Seq<TargetView>, Seq<char>>(e@),
        },
{
    let parsed = match parsed {
        Ok(v) => v,
        Err(e) => {
            let mut msg = "bad json from buck2: ".to_owned();
            msg.append(e.as_str());
            return Err(msg);
        },
    };
    let items = match &parsed {
        Json::Array(items) => items,
        _ => return Err("expected a json array from buck2 targets".to_owned()),
    };
    let ghost want = items@.map_values(|t: Json| target_of_item(t));
    let mut targets: Vec<Target> = Vec::new();
    let mut i: usize = 0;
    while i < items.len()
        invariant
            i <= items@.len(),
            want == items@.map_values(|t: Json| target_of_item(t)),
            targets@.map_values(|t: Target| t@) == want.take(i as int),
        decreases items@.len() - i,
    {
        let t = &items[i];
        let x = normalize_target(
            str_field(t, "name"),
            str_field(t, "buck.package"),
            str_field(t, "buck.type"),
            str_list(t, "srcs"),
            str_list(t, "deps"),
            str_list(t, "visibility"),
        );
        let ghost prev = targets@;
        targets.push(x);
        proof {
            assert(x@ == want[i as int]);
            assert(targets@.map_values(|t: Target| t@) =~= prev.map_values(|t: Target| t@).push(x@));
            assert(want.take(i + 1) =~= want.take(i as int).push(want[i as int]));
        }
        i = i + 1;
    }
    assert(want.take(i as int) =~= want);
    Ok(targets)
}

} // verus!
