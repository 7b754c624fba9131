//! Several edits in a row, as the command-line tool applies them: each
//! entry in turn, stopping at the first that fails, and the lines that
//! list a file's rules.
use vstd::prelude::*;
use crate::edit::{
    add_entry, add_entry_spec, after_parse, opt_view, remove_entry, remove_entry_spec,
    ErrorView, RuleEntry, RuleEntryView, RuleSelector,
};
use crate::starlark::{statements_spec, StmtNode};
use crate::strings::{utf8, views};

verus! {

/// What `add_entry` gives on a text.
pub open spec fn add_entry_text(
    source: Seq<char>,
    rule_name: Seq<char>,
    attr: Seq<char>,
    name: Option<Seq<char>>,
    entry: Seq<char>,
) -> Result<Seq<char>, ErrorView> {
    after_parse(
        statements_spec(source),
        |stmts: Seq<StmtNode>| add_entry_spec(utf8(source), stmts, rule_name, attr, name, entry),
    )
}

/// What `remove_entry` gives on a text.
pub open spec fn remove_entry_text(
    source: Seq<char>,
    rule_name: Seq<char>,
    attr: Seq<char>,
    name: Option<Seq<char>>,
    entry: Seq<char>,
) -> Result<Seq<char>, ErrorView> {
    after_parse(
        statements_spec(source),
        |stmts: Seq<StmtNode>| remove_entry_spec(utf8(source), stmts, rule_name, attr, name, entry),
    )
}

/// Adding (or, when `adding` is false, removing) each of `entries` in
/// turn: the text after the edits that went through, and the first entry
/// whose edit failed, after which no more are tried.
pub open spec fn edit_all(
    source: Seq<char>,
    rule_name: Seq<char>,
    attr: Seq<char>,
    name: Option<Seq<char>>,
    entries: Seq<Seq<char>>,
    adding: bool,
) -> (Seq<char>, Option<Seq<char>>)
    decreases entries.len(),
{
    if entries.len() == 0 {
        (source, None)
    } else {
        let r = if adding {
            add_entry_text(source, rule_name, attr, name, entries[0])
        } else {
            remove_entry_text(source, rule_name, attr, name, entries[0])
        };
        match r {
            Ok(t) => edit_all(t, rule_name, attr, name, entries.drop_first(), adding),
            Err(_) => (source, Some(entries[0])),
        }
    }
}

/// Add or remove each of `entries` in turn, stopping at the first that
/// fails; `input` keeps the edits made before it. Returns that entry.
fn edit_entries(input: &mut String, rule: &RuleSelector, entries: &Vec<String>, adding: bool) -> (failed:
    Option<String>)
    ensures
        (final(input)@, opt_view(failed)) == edit_all(
            old(input)@,
            rule.rule_name@,
            rule.attr@,
            opt_view(rule.name),
            views(entries@),
            adding,
        ),
{
    let ghost want = edit_all(input@, rule.rule_name@, rule.attr@, opt_view(rule.name), views(entries@), adding);
    let mut i: usize = 0;
    assert(views(entries@).skip(0) =~= views(entries@));
    while i < entries.len()
        invariant
            i <= entries@.len(),
            want == edit_all(
                old(input)@,
                rule.rule_name@,
                rule.attr@,
                opt_view(rule.name),
                views(entries@),
                adding,
            ),
            want == edit_all(
                input@,
                rule.rule_name@,
                rule.attr@,
                opt_view(rule.name),
                views(entries@).skip(i as int),
                adding,
            ),
        decreases entries@.len() - i,
    {
        let e = entries[i].as_str();
        let ghost rest = views(entries@).skip(i as int);
        proof {
            assert(rest[0] == e@);
            assert(rest.drop_first() =~= views(entries@).skip(i + 1));
        }
        let r = if adding {
            add_entry(input.as_str(), rule, e)
        } else {
            remove_entry(input.as_str(), rule, e)
        };
        match r {
            Ok(t) => {
                *input = t;
            },
            Err(_) => {
                let f = entries[i].clone();
                assert(f@ == rest[0]);
                return Some(f);
            },
        }
        i = i + 1;
    }
    assert(views(entries@).skip(i as int) =~= Seq::<Seq<char>>::empty());
    None
}

/// Add each of `entries` to the selected rule's list in turn, stopping at
/// the first that fails; `input` keeps the edits made before it. Returns
/// the entry that failed.
pub fn add_entries(input: &mut String, rule: &RuleSelector, entries: &Vec<String>) -> (failed: Option<String>)
    ensures
        (final(input)@, opt_view(failed)) == edit_all(
            old(input)@,
            rule.rule_name@,
            rule.attr@,
            opt_view(rule.name),
            views(entries@),
            true,
        ),
{
    edit_entries(input, rule, entries, true)
}

/// Remove each of `entries` from the selected rule's list in turn,
/// stopping at the first that fails; `input` keeps the edits made before
/// it. Returns the entry that failed.
pub fn remove_entries(input: &mut String, rule: &RuleSelector, entries: &Vec<String>) -> (failed: Option<
    String,
>)
    ensures
        (final(input)@, opt_view(failed)) == edit_all(
            old(input)@,
            rule.rule_name@,
            rule.attr@,
            opt_view(rule.name),
            views(entries@),
            false,
        ),
{
    edit_entries(input, rule, entries, false)
}

/// The line that lists a rule: its name, or `<unnamed>`, as a label
/// `//package:name` when a package is given.
pub open spec fn rule_label_spec(e: RuleEntryView, package: Option<Seq<char>>) -> Seq<char> {
    let name = match e.name {
        Some(n) => n,
        None => "<unnamed>"@,
    };
    match package {
        Some(p) => "//"@ + p + ":"@ + name,
        None => name,
    }
}

/// The lines that list the rules of a file, one per rule.
pub fn rule_labels(rules: &Vec<RuleEntry>, package: Option<&str>) -> (r: Vec<String>)
    ensures
        views(r@) == rules@.map_values(
            |e: RuleEntry|
                rule_label_spec(
                    e@,
                    match package {
                        Some(p) => Some(p@),
                        None => None,
                    },
                ),
        ),
{
    let ghost pk = match package {
        Some(p) => Some(p@),
        None => None::<Seq<char>>,
    };
    let ghost want = rules@.map_values(|e: RuleEntry| rule_label_spec(e@, pk));
    let mut out: Vec<String> = Vec::new();
    let mut i: usize = 0;
    while i < rules.len()
        invariant
            i <= rules@.len(),
            want == rules@.map_values(|e: RuleEntry| rule_label_spec(e@, pk)),
            pk == match package {
                Some(p) => Some(p@),
                None => None::<Seq<char>>,
            },
            views(out@) == want.take(i as int),
        decreases rules@.len() - i,
    {
        let e = &rules[i];
        let name = match &e.name {
            Some(n) => n.as_str(),
            None => "<unnamed>",
        };
        let line = match package {
            Some(p) => {
                let mut s = "//".to_owned();
                s.append(p);
                s.append(":");
                s.append(name);
                s
            },
            None => name.to_owned(),
        };
        let ghost prev = out@;
        out.push(line);
        proof {
            assert(line@ == want[i as int]);
            assert(views(out@) =~= views(prev).push(line@));
            assert(want.take(i + 1) =~= want.take(i as int).push(want[i as int]));
        }
        i = i + 1;
    }
    assert(want.take(i as int) =~= want);
    out
}

} // verus!
