//! Editing list attributes of rule calls in Starlark build files.
//!
//! A rule call is picked by its function name and, optionally, by its
//! `name = "..."` argument. Every edit reformats the whole call with
//! consistent indentation and leaves the rest of the file untouched.
use vstd::prelude::*;
use vstd::utf8::*;
use crate::starlark::{
    call_fits, read_statements, span_fits, statements_spec, stmts_fit, ArgNode, CallNode,
    StmtNode, ValueNode,
};
use crate::strings::{
    decimal, decimal_string, law_sort_texts, texts_sorted,
    byte_slice, char_is_whitespace, is_ws, indent_len, sort_strings, sort_texts, str_eq, utf8,
    views,
};

verus! {

broadcast use vstd::utf8::group_utf8_lib;

/// Selects which rule and attribute to target in a starlark file.
#[derive(Debug, Clone)]
pub struct RuleSelector {
    /// The rule function name, e.g. "rust_binary"
    pub rule_name: String,
    /// The attribute containing the file list, e.g. "srcs"
    pub attr: String,
    /// Optional: only match rules with this `name = "..."` value
    pub name: Option<String>,
}

#[derive(Debug)]
pub enum Error {
    Parse(String),
    RuleNotFound { rule_name: String },
    AttrNotFound { rule_name: String, attr: String },
    AttrNotAList { rule_name: String, attr: String },
    EntryAlreadyPresent { entry: String },
    EntryNotFound { entry: String },
    /// Multiple rules matched; narrow with `name`
    AmbiguousRule { rule_name: String, count: usize },
    /// A rule with this name already exists
    RuleAlreadyExists { rule_name: String, name: String },
}

/// An `Error` with its strings as characters.
pub enum ErrorView {
    Parse(Seq<char>),
    RuleNotFound(Seq<char>),
    AttrNotFound(Seq<char>, Seq<char>),
    AttrNotAList(Seq<char>, Seq<char>),
    EntryAlreadyPresent(Seq<char>),
    EntryNotFound(Seq<char>),
    AmbiguousRule(Seq<char>, nat),
    RuleAlreadyExists(Seq<char>, Seq<char>),
}

impl View for Error {
    type V = ErrorView;

    open spec fn view(&self) -> ErrorView {
        match self {
            Error::Parse(m) => ErrorView::Parse(m@),
            Error::RuleNotFound { rule_name } => ErrorView::RuleNotFound(rule_name@),
            Error::AttrNotFound { rule_name, attr } => ErrorView::AttrNotFound(rule_name@, attr@),
            Error::AttrNotAList { rule_name, attr } => ErrorView::AttrNotAList(rule_name@, attr@),
            Error::EntryAlreadyPresent { entry } => ErrorView::EntryAlreadyPresent(entry@),
            Error::EntryNotFound { entry } => ErrorView::EntryNotFound(entry@),
            Error::AmbiguousRule { rule_name, count } => ErrorView::AmbiguousRule(
                rule_name@,
                *count as nat,
            ),
            Error::RuleAlreadyExists { rule_name, name } => ErrorView::RuleAlreadyExists(
                rule_name@,
                name@,
            ),
        }
    }
}

/// A rule entry found in the file.
#[derive(Debug, Clone)]
pub struct RuleEntry {
    /// The function name, e.g. "rust_binary"
    pub rule_type: String,
    /// The `name = "..."` value, if present
    pub name: Option<String>,
}

/// A `RuleEntry` with its strings as characters.
pub struct RuleEntryView {
    pub rule_type: Seq<char>,
    pub name: Option<Seq<char>>,
}

impl View for RuleEntry {
    type V = RuleEntryView;

    open spec fn view(&self) -> RuleEntryView {
        RuleEntryView { rule_type: self.rule_type@, name: opt_view(self.name) }
    }
}

/// The value of a named argument, as the editor sees it.
pub enum ArgValueView {
    /// A list of string literals, which the editor can reformat.
    List(Seq<Seq<char>>),
    /// Any other expression, kept as its source text.
    Raw(Seq<char>),
}

/// A named argument of a rule call.
pub struct ArgView {
    pub name: Seq<char>,
    pub value: ArgValueView,
}

/// A matched rule call: its function name, byte span, named arguments in
/// order, and the position of the selected attribute among them.
pub struct RuleView {
    pub func: Seq<char>,
    pub start: int,
    pub end: int,
    pub args: Seq<ArgView>,
    pub target: Option<int>,
}

// ---------------------------------------------------------------------------
// What a matching rule is

pub open spec fn opt_view(o: Option<String>) -> Option<Seq<char>> {
    match o {
        Some(s) => Some(s@),
        None => None,
    }
}

/// The value of a string literal.
pub open spec fn str_value(v: ValueNode) -> Option<Seq<char>> {
    match v {
        ValueNode::Str(s) => Some(s@),
        _ => None,
    }
}

/// The call has a `name = "<name>"` argument.
pub open spec fn has_name_literal(c: CallNode, name: Seq<char>) -> bool {
    exists|j: int|
        0 <= j < c.args@.len() && opt_view((#[trigger] c.args@[j]).name) == Some("name"@)
            && str_value(c.args@[j].value) == Some(name)
}

/// A statement is a call of `rule_name`, with a `name = "<name>"` argument
/// when a name is asked for.
pub open spec fn selects(rule_name: Seq<char>, name: Option<Seq<char>>, s: StmtNode) -> bool {
    match s {
        StmtNode::Call(c) => c.func@ == rule_name && match name {
            None => true,
            Some(n) => has_name_literal(c, n),
        },
        StmtNode::Other => false,
    }
}

/// The calls among `stmts` that a selector picks, in file order.
pub open spec fn matching_calls(
    stmts: Seq<StmtNode>,
    rule_name: Seq<char>,
    name: Option<Seq<char>>,
) -> Seq<CallNode>
    decreases stmts.len(),
{
    if stmts.len() == 0 {
        Seq::empty()
    } else {
        let rest = matching_calls(stmts.drop_last(), rule_name, name);
        match stmts.last() {
            StmtNode::Call(c) => if selects(rule_name, name, stmts.last()) {
                rest.push(c)
            } else {
                rest
            },
            StmtNode::Other => rest,
        }
    }
}

/// Every item of a list literal is a string literal.
pub open spec fn all_str(items: Seq<ValueNode>) -> bool {
    forall|i: int| 0 <= i < items.len() ==> (#[trigger] items[i]) is Str
}

/// The values of a list of string literals.
pub open spec fn str_items(items: Seq<ValueNode>) -> Seq<Seq<char>> {
    items.map_values(|v: ValueNode| match v {
        ValueNode::Str(s) => s@,
        _ => Seq::empty(),
    })
}

/// The source text of a byte span.
pub open spec fn span_text(src: Seq<u8>, start: int, end: int) -> Seq<char> {
    decode_utf8(src.subrange(start, end))
}

/// What the editor makes of an argument's value: a list of string
/// literals, or the raw source text.
pub open spec fn value_view(src: Seq<u8>, a: ArgNode) -> ArgValueView {
    match a.value {
        ValueNode::List(items) => if all_str(items@) {
            ArgValueView::List(str_items(items@))
        } else {
            ArgValueView::Raw(span_text(src, a.start as int, a.end as int))
        },
        _ => ArgValueView::Raw(span_text(src, a.start as int, a.end as int)),
    }
}

/// The named arguments of a call, in order.
pub open spec fn named_args(src: Seq<u8>, args: Seq<ArgNode>) -> Seq<ArgView>
    decreases args.len(),
{
    if args.len() == 0 {
        Seq::empty()
    } else {
        let rest = named_args(src, args.drop_last());
        match args.last().name {
            Some(n) => rest.push(ArgView { name: n@, value: value_view(src, args.last()) }),
            None => rest,
        }
    }
}

/// Position of the last argument called `attr`.
pub open spec fn last_named(args: Seq<ArgView>, attr: Seq<char>) -> Option<int>
    decreases args.len(),
{
    if args.len() == 0 {
        None
    } else if args.last().name == attr {
        Some(args.len() - 1)
    } else {
        last_named(args.drop_last(), attr)
    }
}

/// The rule a call stands for, with `attr` as the selected attribute.
pub open spec fn rule_view(src: Seq<u8>, c: CallNode, attr: Seq<char>) -> RuleView {
    let args = named_args(src, c.args@);
    RuleView { func: c.func@, start: c.start as int, end: c.end as int, args, target: last_named(args, attr) }
}

/// The single rule a selector picks: an error when none or several match.
pub open spec fn find_rule_spec(
    src: Seq<u8>,
    stmts: Seq<StmtNode>,
    rule_name: Seq<char>,
    attr: Seq<char>,
    name: Option<Seq<char>>,
) -> Result<RuleView, ErrorView> {
    let ms = matching_calls(stmts, rule_name, name);
    if ms.len() == 0 {
        Err(ErrorView::RuleNotFound(rule_name))
    } else if ms.len() > 1 {
        Err(ErrorView::AmbiguousRule(rule_name, ms.len()))
    } else {
        Ok(rule_view(src, ms[0], attr))
    }
}

// ---------------------------------------------------------------------------
// How a rule is written back

/// An entry in double quotes.
pub open spec fn quoted(e: Seq<char>) -> Seq<char> {
    "\""@ + e + "\""@
}

/// The lines of a multi-line list, each entry on its own line.
pub open spec fn list_lines(entries: Seq<Seq<char>>, entry_indent: Seq<char>) -> Seq<char>
    decreases entries.len(),
{
    if entries.len() == 0 {
        Seq::empty()
    } else {
        list_lines(entries.drop_last(), entry_indent) + entry_indent + "\""@ + entries.last()
            + "\",\n"@
    }
}

/// A list of string entries: `[]`, one line for one or two entries,
/// otherwise one entry per line indented one level deeper than the
/// attribute.
pub open spec fn format_list_spec(entries: Seq<Seq<char>>, attr_indent: Seq<char>) -> Seq<char> {
    if entries.len() == 0 {
        "[]"@
    } else if entries.len() == 1 {
        "["@ + quoted(entries[0]) + "]"@
    } else if entries.len() == 2 {
        "["@ + quoted(entries[0]) + ", "@ + quoted(entries[1]) + "]"@
    } else {
        "[\n"@ + list_lines(entries, attr_indent + "    "@) + attr_indent + "]"@
    }
}

/// An argument value as written in the rule.
pub open spec fn format_value_spec(v: ArgValueView, attr_indent: Seq<char>) -> Seq<char> {
    match v {
        ArgValueView::List(es) => format_list_spec(es, attr_indent),
        ArgValueView::Raw(r) => r,
    }
}

/// The arguments of a rule, one `name = value,` line each.
pub open spec fn format_args_spec(args: Seq<ArgView>, attr_indent: Seq<char>) -> Seq<char>
    decreases args.len(),
{
    if args.len() == 0 {
        Seq::empty()
    } else {
        format_args_spec(args.drop_last(), attr_indent) + attr_indent + args.last().name + " = "@
            + format_value_spec(args.last().value, attr_indent) + ",\n"@
    }
}

/// A whole rule call, reformatted.
pub open spec fn format_rule_spec(func: Seq<char>, args: Seq<ArgView>, base: Seq<char>) -> Seq<char> {
    func + "(\n"@ + format_args_spec(args, base + "    "@) + base + ")"@
}

/// Where the line holding byte `pos` starts: just past the last newline
/// before `pos`.
pub open spec fn line_begin(src: Seq<u8>, pos: int) -> int
    decreases pos,
{
    if pos <= 0 {
        0
    } else if src[pos - 1] == 10u8 {
        pos
    } else {
        line_begin(src, pos - 1)
    }
}

/// The indentation (leading white space) of the line holding byte `pos`;
/// it ends where the line does.
pub open spec fn indent_at(src: Seq<u8>, pos: int) -> Seq<char> {
    let line = decode_utf8(src.subrange(line_begin(src, pos), src.len() as int));
    line.take(indent_len(line) as int)
}

/// The source with the rule's call replaced by the reformatted call.
pub open spec fn rewrite_spec(src: Seq<u8>, r: RuleView) -> Seq<char> {
    span_text(src, 0, r.start) + format_rule_spec(r.func, r.args, indent_at(src, r.start)) + span_text(
        src,
        r.end,
        src.len() as int,
    )
}

// ---------------------------------------------------------------------------
// The edits

/// A rule with the value of one argument replaced.
pub open spec fn with_value(r: RuleView, idx: int, v: ArgValueView) -> RuleView {
    RuleView { args: r.args.update(idx, ArgView { name: r.args[idx].name, value: v }), ..r }
}

/// What `add_entry` gives on parsed statements.
pub open spec fn add_entry_spec(
    src: Seq<u8>,
    stmts: Seq<StmtNode>,
    rule_name: Seq<char>,
    attr: Seq<char>,
    name: Option<Seq<char>>,
    entry: Seq<char>,
) -> Result<Seq<char>, ErrorView> {
    match find_rule_spec(src, stmts, rule_name, attr, name) {
        Err(e) => Err(e),
        Ok(r) => match r.target {
            Some(idx) => match r.args[idx].value {
                ArgValueView::Raw(_) => Err(ErrorView::AttrNotAList(rule_name, attr)),
                ArgValueView::List(es) => if es.contains(entry) {
                    Err(ErrorView::EntryAlreadyPresent(entry))
                } else {
                    Ok(
                        rewrite_spec(
                            src,
                            with_value(r, idx, ArgValueView::List(sort_texts(es.push(entry)))),
                        ),
                    )
                },
            },
            None => Ok(
                rewrite_spec(
                    src,
                    RuleView {
                        args: r.args.push(
                            ArgView { name: attr, value: ArgValueView::List(seq![entry]) },
                        ),
                        ..r
                    },
                ),
            ),
        },
    }
}

/// Position of the first occurrence of `x`.
pub open spec fn first_index(s: Seq<Seq<char>>, x: Seq<char>) -> Option<int>
    decreases s.len(),
{
    if s.len() == 0 {
        None
    } else if s[0] == x {
        Some(0)
    } else {
        match first_index(s.drop_first(), x) {
            Some(k) => Some(k + 1),
            None => None,
        }
    }
}

/// What `remove_entry` gives on parsed statements.
pub open spec fn remove_entry_spec(
    src: Seq<u8>,
    stmts: Seq<StmtNode>,
    rule_name: Seq<char>,
    attr: Seq<char>,
    name: Option<Seq<char>>,
    entry: Seq<char>,
) -> Result<Seq<char>, ErrorView> {
    match find_rule_spec(src, stmts, rule_name, attr, name) {
        Err(e) => Err(e),
        Ok(r) => match r.target {
            None => Err(ErrorView::AttrNotFound(rule_name, attr)),
            Some(idx) => match r.args[idx].value {
                ArgValueView::Raw(_) => Err(ErrorView::AttrNotAList(rule_name, attr)),
                ArgValueView::List(es) => match first_index(es, entry) {
                    None => Err(ErrorView::EntryNotFound(entry)),
                    Some(k) => {
                        let rest = sort_texts(es.remove(k));
                        if rest.len() == 0 {
                            Ok(rewrite_spec(src, RuleView { args: r.args.remove(idx), ..r }))
                        } else {
                            Ok(rewrite_spec(src, with_value(r, idx, ArgValueView::List(rest))))
                        }
                    },
                },
            },
        },
    }
}

/// What `list_entries` gives on parsed statements.
pub open spec fn list_entries_spec(
    src: Seq<u8>,
    stmts: Seq<StmtNode>,
    rule_name: Seq<char>,
    attr: Seq<char>,
    name: Option<Seq<char>>,
) -> Result<Seq<Seq<char>>, ErrorView> {
    match find_rule_spec(src, stmts, rule_name, attr, name) {
        Err(e) => Err(e),
        Ok(r) => match r.target {
            Some(idx) => match r.args[idx].value {
                ArgValueView::List(es) => Ok(es),
                ArgValueView::Raw(_) => Err(ErrorView::AttrNotAList(rule_name, attr)),
            },
            None => Ok(Seq::empty()),
        },
    }
}

/// The text of a new rule block.
pub open spec fn rule_block(rule_name: Seq<char>, name: Seq<char>) -> Seq<char> {
    rule_name + "(\n    name = \""@ + name + "\",\n)"@
}

/// The source with a new rule block appended after one blank line.
pub open spec fn appended_rule(source: Seq<char>, rule_name: Seq<char>, name: Seq<char>) -> Seq<char> {
    let sep1: Seq<char> = if source.len() > 0 && source.last() != '\n' {
        "\n"@
    } else {
        Seq::empty()
    };
    let sep2: Seq<char> = if source.len() > 0 {
        "\n"@
    } else {
        Seq::empty()
    };
    source + sep1 + sep2 + rule_block(rule_name, name) + "\n"@
}

/// What `create_rule` gives on parsed statements.
pub open spec fn create_rule_spec(
    source: Seq<char>,
    stmts: Seq<StmtNode>,
    rule_name: Seq<char>,
    name: Seq<char>,
) -> Result<Seq<char>, ErrorView> {
    if matching_calls(stmts, rule_name, Some(name)).len() >= 1 {
        Err(ErrorView::RuleAlreadyExists(rule_name, name))
    } else {
        Ok(appended_rule(source, rule_name, name))
    }
}

/// First byte at or after `i` that is not a newline, space or tab.
pub open spec fn skip_blank_forward(src: Seq<u8>, i: int) -> int
    decreases src.len() - i,
{
    if i < 0 || i >= src.len() {
        i
    } else if src[i] == 10u8 || src[i] == 32u8 || src[i] == 9u8 {
        skip_blank_forward(src, i + 1)
    } else {
        i
    }
}

/// Move back from `i` over newlines.
pub open spec fn skip_newlines_back(src: Seq<u8>, i: int) -> int
    decreases i,
{
    if i > 0 && src[i - 1] == 10u8 {
        skip_newlines_back(src, i - 1)
    } else {
        i
    }
}

/// The source with the call at `[start, end)` cut out, together with the
/// blanks after it and the newlines before it, keeping one newline between
/// what comes before and what comes after.
pub open spec fn removed_rule(src: Seq<u8>, start: int, end: int) -> Seq<char> {
    let e = skip_blank_forward(src, end);
    let s0 = skip_newlines_back(src, start);
    let s = if s0 > 0 && e < src.len() {
        s0 + 1
    } else {
        s0
    };
    span_text(src, 0, s) + span_text(src, e, src.len() as int)
}

/// What `remove_rule` gives on parsed statements.
pub open spec fn remove_rule_spec(
    src: Seq<u8>,
    stmts: Seq<StmtNode>,
    rule_name: Seq<char>,
    name: Seq<char>,
) -> Result<Seq<char>, ErrorView> {
    match find_rule_spec(src, stmts, rule_name, Seq::empty(), Some(name)) {
        Err(e) => Err(e),
        Ok(r) => Ok(removed_rule(src, r.start, r.end)),
    }
}

/// The value of the first `name = "..."` argument.
pub open spec fn first_name_literal(args: Seq<ArgNode>) -> Option<Seq<char>>
    decreases args.len(),
{
    if args.len() == 0 {
        None
    } else if opt_view(args[0].name) == Some("name"@) && str_value(args[0].value) is Some {
        str_value(args[0].value)
    } else {
        first_name_literal(args.drop_first())
    }
}

/// Every call statement as a rule entry, in file order.
pub open spec fn rule_entries(stmts: Seq<StmtNode>) -> Seq<RuleEntryView>
    decreases stmts.len(),
{
    if stmts.len() == 0 {
        Seq::empty()
    } else {
        let rest = rule_entries(stmts.drop_last());
        match stmts.last() {
            StmtNode::Call(c) => rest.push(
                RuleEntryView { rule_type: c.func@, name: first_name_literal(c.args@) },
            ),
            StmtNode::Other => rest,
        }
    }
}

/// A result with its strings as characters.
pub open spec fn text_result(r: Result<String, Error>) -> Result<Seq<char>, ErrorView> {
    match r {
        Ok(s) => Ok(s@),
        Err(e) => Err(e@),
    }
}

/// The outcome when parsing fails, or else the outcome on the statements.
pub open spec fn after_parse<T>(
    parsed: Result<Seq<StmtNode>, Seq<char>>,
    on_stmts: spec_fn(Seq<StmtNode>) -> Result<T, ErrorView>,
) -> Result<T, ErrorView> {
    match parsed {
        Err(m) => Err(ErrorView::Parse(m)),
        Ok(v) => on_stmts(v),
    }
}

// ---------------------------------------------------------------------------
// Implementation

/// The value of a named argument.
enum ArgValue {
    /// A list of string literals — we can reformat these
    StringList(Vec<String>),
    /// Any other expression — its source text, kept as written
    Raw(String),
}

/// A single named argument in a rule call.
struct ArgInfo {
    name: String,
    value: ArgValue,
}

/// Information about a matched rule call, with all its arguments extracted.
struct RuleInfo {
    /// The function name, e.g. "rust_binary"
    func_name: String,
    /// Byte span of the entire call expression
    call_start: usize,
    call_end: usize,
    /// All named arguments in order
    args: Vec<ArgInfo>,
    /// Index of the target attribute in `args`, if it exists
    target_idx: Option<usize>,
}

impl View for ArgValue {
    type V = ArgValueView;

    closed spec fn view(&self) -> ArgValueView {
        match self {
            ArgValue::StringList(v) => ArgValueView::List(views(v@)),
            ArgValue::Raw(r) => ArgValueView::Raw(r@),
        }
    }
}

impl View for ArgInfo {
    type V = ArgView;

    closed spec fn view(&self) -> ArgView {
        ArgView { name: self.name@, value: self.value@ }
    }
}

spec fn arg_views(v: Seq<ArgInfo>) -> Seq<ArgView> {
    v.map_values(|a: ArgInfo| a@)
}

spec fn opt_index(o: Option<usize>) -> Option<int> {
    match o {
        Some(i) => Some(i as int),
        None => None,
    }
}

/// An optional string slice, as characters.
pub open spec fn opt_str(o: Option<&str>) -> Option<Seq<char>> {
    match o {
        Some(s) => Some(s@),
        None => None,
    }
}

impl View for RuleInfo {
    type V = RuleView;

    closed spec fn view(&self) -> RuleView {
        RuleView {
            func: self.func_name@,
            start: self.call_start as int,
            end: self.call_end as int,
            args: arg_views(self.args@),
            target: opt_index(self.target_idx),
        }
    }
}

impl RuleInfo {
    /// The call's span lies on character boundaries of the source and starts
    /// with a one-byte character; the target index is inside the arguments.
    spec fn fits(&self, src: Seq<u8>) -> bool {
        &&& span_fits(src, self.call_start as int, self.call_end as int)
        &&& self.call_start < self.call_end
        &&& is_leading_byte_width_1(src[self.call_start as int])
        &&& self.target_idx matches Some(i) ==> i < self.args@.len()
    }
}

proof fn lemma_last_named_bound(args: Seq<ArgView>, attr: Seq<char>)
    ensures
        last_named(args, attr) matches Some(i) ==> 0 <= i < args.len() && args[i].name == attr,
    decreases args.len(),
{
    if args.len() > 0 {
        lemma_last_named_bound(args.drop_last(), attr);
    }
}

/// A copy of a list of strings.
fn clone_strings(v: &Vec<String>) -> (r: Vec<String>)
    ensures
        views(r@) == views(v@),
{
    let mut r: Vec<String> = Vec::new();
    let mut i: usize = 0;
    while i < v.len()
        invariant
            i <= v@.len(),
            views(r@) == views(v@.take(i as int)),
        decreases v@.len() - i,
    {
        let c = v[i].clone();
        assert(c == v@[i as int]);
        let ghost old_r = r@;
        r.push(c);
        i = i + 1;
        proof {
            assert(views(r@) =~= views(old_r).push(c@));
            assert(views(v@.take(i as int)) =~= views(v@.take(i - 1)).push(v@[i - 1]@));
            assert(views(r@) =~= views(v@.take(i as int)));
        }
    }
    assert(v@.take(i as int) =~= v@);
    r
}

/// Whether `v` holds `x`.
fn contains_str(v: &Vec<String>, x: &str) -> (r: bool)
    ensures
        r == views(v@).contains(x@),
{
    let mut i: usize = 0;
    while i < v.len()
        invariant
            i <= v@.len(),
            forall|j: int| 0 <= j < i ==> views(v@)[j] != x@,
        decreases v@.len() - i,
    {
        if str_eq(v[i].as_str(), x) {
            assert(views(v@)[i as int] == x@);
            return true;
        }
        i = i + 1;
    }
    false
}

/// Position of the first occurrence of `x` in `v`.
fn position_of(v: &Vec<String>, x: &str) -> (r: Option<usize>)
    ensures
        opt_index(r) == first_index(views(v@), x@),
{
    let mut i: usize = 0;
    assert(views(v@).skip(0) =~= views(v@));
    while i < v.len()
        invariant
            i <= v@.len(),
            first_index(views(v@), x@) == match first_index(views(v@).skip(i as int), x@) {
                Some(k) => Some(k + i),
                None => None,
            },
        decreases v@.len() - i,
    {
        let ghost s = views(v@).skip(i as int);
        assert(s.drop_first() =~= views(v@).skip(i + 1));
        if str_eq(v[i].as_str(), x) {
            return Some(i);
        }
        i = i + 1;
    }
    None
}

/// The call has a `name = "<name>"` argument.
fn name_literal_matches(c: &CallNode, name: &str) -> (r: bool)
    ensures
        r == has_name_literal(*c, name@),
{
    let mut j: usize = 0;
    while j < c.args.len()
        invariant
            j <= c.args@.len(),
            forall|k: int|
                0 <= k < j ==> !(opt_view((#[trigger] c.args@[k]).name) == Some("name"@) && str_value(
                    c.args@[k].value,
                ) == Some(name@)),
        decreases c.args@.len() - j,
    {
        let a = &c.args[j];
        if let Some(n) = &a.name {
            if str_eq(n.as_str(), "name") {
                if let ValueNode::Str(v) = &a.value {
                    if str_eq(v.as_str(), name) {
                        assert(opt_view(c.args@[j as int].name) == Some("name"@));
                        return true;
                    }
                }
            }
        }
        j = j + 1;
    }
    false
}

/// Whether a statement is a call the selector picks.
fn stmt_selects(s: &StmtNode, rule_name: &str, name: Option<&str>) -> (r: bool)
    ensures
        r == selects(rule_name@, opt_str(name), *s),
{
    match s {
        StmtNode::Call(c) => {
            if !str_eq(c.func.as_str(), rule_name) {
                return false;
            }
            match name {
                None => true,
                Some(n) => name_literal_matches(c, n),
            }
        },
        StmtNode::Other => false,
    }
}

/// The values of a list literal when every item is a string literal.
fn string_items(items: &Vec<ValueNode>) -> (r: Option<Vec<String>>)
    ensures
        r is Some <==> all_str(items@),
        r matches Some(v) ==> views(v@) == str_items(items@),
{
    let mut out: Vec<String> = Vec::new();
    let mut i: usize = 0;
    while i < items.len()
        invariant
            i <= items@.len(),
            all_str(items@.take(i as int)),
            views(out@) == str_items(items@.take(i as int)),
        decreases items@.len() - i,
    {
        let ghost old_out = out@;
        match &items[i] {
            ValueNode::Str(s) => {
                let c = s.clone();
                assert(c == *s);
                out.push(c);
            },
            _ => {
                assert(!(items@[i as int] is Str));
                return None;
            },
        }
        i = i + 1;
        proof {
            assert(views(out@) =~= views(old_out).push(views(out@).last()));
            assert(str_items(items@.take(i as int)) =~= str_items(items@.take(i - 1)).push(
                str_items(items@.take(i as int)).last(),
            ));
            assert(views(out@) =~= str_items(items@.take(i as int)));
            assert forall|j: int| 0 <= j < i implies (#[trigger] items@.take(i as int)[j]) is Str by {
                if j < i - 1 {
                    assert(items@.take(i as int)[j] == items@.take(i - 1)[j]);
                }
            }
        }
    }
    assert(items@.take(i as int) =~= items@);
    Some(out)
}

/// What the editor makes of one argument's value.
fn arg_value(source: &str, a: &ArgNode) -> (r: ArgValue)
    requires
        span_fits(utf8(source@), a.start as int, a.end as int),
    ensures
        r@ == value_view(utf8(source@), *a),
{
    if let ValueNode::List(items) = &a.value {
        if let Some(strings) = string_items(items) {
            return ArgValue::StringList(strings);
        }
    }
    ArgValue::Raw(byte_slice(source, a.start, a.end).to_owned())
}

/// The rule a call stands for, with `attr` as the selected attribute.
fn rule_info(source: &str, c: &CallNode, attr: &str) -> (r: RuleInfo)
    requires
        call_fits(utf8(source@), *c),
    ensures
        r@ == rule_view(utf8(source@), *c, attr@),
        r.fits(utf8(source@)),
{
    let ghost src = utf8(source@);
    let mut args: Vec<ArgInfo> = Vec::new();
    let mut target_idx: Option<usize> = None;
    let mut j: usize = 0;
    while j < c.args.len()
        invariant
            call_fits(src, *c),
            src == utf8(source@),
            j <= c.args@.len(),
            arg_views(args@) == named_args(src, c.args@.take(j as int)),
            opt_index(target_idx) == last_named(arg_views(args@), attr@),
            target_idx matches Some(i) ==> i < args@.len(),
        decreases c.args@.len() - j,
    {
        let a = &c.args[j];
        proof {
            assert(span_fits(src, c.args@[j as int].start as int, c.args@[j as int].end as int));
            assert(c.args@.take(j + 1).drop_last() =~= c.args@.take(j as int));
        }
        let ghost old_args = args@;
        if let Some(n) = &a.name {
            let value = arg_value(source, a);
            if str_eq(n.as_str(), attr) {
                target_idx = Some(args.len());
            }
            let nc = n.clone();
            assert(nc == *n);
            let info = ArgInfo { name: nc, value };
            args.push(info);
            proof {
                assert(arg_views(args@) =~= arg_views(old_args).push(info@));
                assert(arg_views(args@).drop_last() =~= arg_views(old_args));
            }
        }
        j = j + 1;
        proof {
            assert(arg_views(args@) =~= named_args(src, c.args@.take(j as int)));
        }
    }
    proof {
        assert(c.args@.take(j as int) =~= c.args@);
    }
    RuleInfo { func_name: c.func.clone(), call_start: c.start, call_end: c.end, args, target_idx }
}

/// Find the single rule call the selector picks among the statements.
fn find_rule(
    source: &str,
    stmts: &Vec<StmtNode>,
    rule_name: &str,
    attr: &str,
    name: Option<&str>,
) -> (r: Result<RuleInfo, Error>)
    requires
        stmts_fit(utf8(source@), stmts@),
    ensures
        match r {
            Ok(info) => find_rule_spec(utf8(source@), stmts@, rule_name@, attr@, opt_str(name)) == Ok::<
                RuleView,
                ErrorView,
            >(info@) && info.fits(utf8(source@)),
            Err(e) => find_rule_spec(utf8(source@), stmts@, rule_name@, attr@, opt_str(name)) == Err::<
                RuleView,
                ErrorView,
            >(e@),
        },
{
    let ghost nm = opt_str(name);
    let mut count: usize = 0;
    let mut first: usize = 0;
    let mut i: usize = 0;
    while i < stmts.len()
        invariant
            nm == opt_str(name),
            i <= stmts@.len(),
            count == matching_calls(stmts@.take(i as int), rule_name@, nm).len(),
            count <= i,
            count > 0 ==> first < i && (stmts@[first as int] matches StmtNode::Call(c)
                && matching_calls(stmts@.take(i as int), rule_name@, nm)[0] == c),
        decreases stmts@.len() - i,
    {
        let sel = stmt_selects(&stmts[i], rule_name, name);
        proof {
            assert(stmts@.take(i + 1).drop_last() =~= stmts@.take(i as int));
            assert(stmts@.take(i + 1).last() == stmts@[i as int]);
        }
        if sel {
            if count == 0 {
                first = i;
            }
            count = count + 1;
        }
        i = i + 1;
    }
    proof {
        assert(stmts@.take(i as int) =~= stmts@);
    }
    if count == 0 {
        return Err(Error::RuleNotFound { rule_name: rule_name.to_owned() });
    }
    if count > 1 {
        return Err(Error::AmbiguousRule { rule_name: rule_name.to_owned(), count });
    }
    match &stmts[first] {
        StmtNode::Call(c) => {
            proof {
                assert(match stmts@[first as int] {
                    StmtNode::Call(c) => call_fits(utf8(source@), c),
                    StmtNode::Other => true,
                });
            }
            Ok(rule_info(source, c, attr))
        },
        StmtNode::Other => {
            proof {
                assert(false);
            }
            Err(Error::RuleNotFound { rule_name: rule_name.to_owned() })
        },
    }
}

/// Detect the indentation (leading whitespace) of the line containing the
/// given byte position.
fn detect_indent_at(source: &str, pos: usize) -> (r: &str)
    requires
        pos <= utf8(source@).len(),
        is_char_boundary(utf8(source@), pos as int),
    ensures
        r@ == indent_at(utf8(source@), pos as int),
{
    let ghost src = utf8(source@);
    let bytes = source.as_bytes();
    let n_bytes = bytes.len();
    let mut line_start = pos;
    while line_start > 0 && bytes[line_start - 1] != 10u8
        invariant
            src == utf8(source@),
            pos <= src.len(),
            line_start <= pos,
            bytes@ == src,
            line_begin(src, pos as int) == line_begin(src, line_start as int),
        decreases line_start,
    {
        line_start = line_start - 1;
    }
    proof {
        if line_start > 0 {
            crate::utf8_text::lemma_newline_boundary(src, line_start - 1);
            crate::strings::lemma_ascii_step(src, line_start - 1);
        }
        is_char_boundary_start_end_of_seq(src);
    }
    let line = byte_slice(source, line_start, n_bytes);
    let n = line.unicode_len();
    let mut k: usize = 0;
    while k < n && line.get_char(k) != '\n' && char_is_whitespace(line.get_char(k))
        invariant
            k <= n,
            n == line@.len(),
            forall|j: int| 0 <= j < k ==> is_ws(#[trigger] line@[j]) && line@[j] != '\n',
        decreases n - k,
    {
        k = k + 1;
    }
    proof {
        crate::strings::lemma_indent_len(line@, k as int);
    }
    line.substring_char(0, k)
}

/// Format a list of string entries, choosing single-line or multi-line
/// based on count.
fn format_list(entries: &Vec<String>, attr_indent: &str) -> (r: String)
    ensures
        r@ == format_list_spec(views(entries@), attr_indent@),
{
    let ghost es = views(entries@);
    if entries.len() == 0 {
        "[]".to_owned()
    } else if entries.len() <= 2 {
        let mut result = "[".to_owned();
        result.append("\"");
        result.append(entries[0].as_str());
        result.append("\"");
        if entries.len() == 2 {
            result.append(", ");
            result.append("\"");
            result.append(entries[1].as_str());
            result.append("\"");
        }
        result.append("]");
        proof {
            if es.len() == 1 {
                assert(result@ =~= "["@ + quoted(es[0]) + "]"@);
            } else {
                assert(result@ =~= "["@ + quoted(es[0]) + ", "@ + quoted(es[1]) + "]"@);
            }
        }
        result
    } else {
        let mut entry_indent = attr_indent.to_owned();
        entry_indent.append("    ");
        let mut result = "[\n".to_owned();
        let mut i: usize = 0;
        while i < entries.len()
            invariant
                i <= entries@.len(),
                es == views(entries@),
                entry_indent@ == attr_indent@ + "    "@,
                result@ == "[\n"@ + list_lines(es.take(i as int), entry_indent@),
            decreases entries@.len() - i,
        {
            result.append(entry_indent.as_str());
            result.append("\"");
            result.append(entries[i].as_str());
            result.append("\",\n");
            i = i + 1;
            proof {
                assert(es.take(i as int).drop_last() =~= es.take(i - 1));
                assert(result@ =~= "[\n"@ + list_lines(es.take(i as int), entry_indent@));
            }
        }
        result.append(attr_indent);
        result.append("]");
        proof {
            assert(es.take(i as int) =~= es);
        }
        result
    }
}

/// Format an argument value.
fn format_arg_value(value: &ArgValue, attr_indent: &str) -> (r: String)
    ensures
        r@ == format_value_spec(value@, attr_indent@),
{
    match value {
        ArgValue::StringList(entries) => format_list(entries, attr_indent),
        ArgValue::Raw(raw) => raw.clone(),
    }
}

/// Rebuild an entire rule call with consistent formatting, then splice it
/// into source.
fn rewrite_rule(source: &str, rule: &RuleInfo) -> (r: String)
    requires
        rule.fits(utf8(source@)),
    ensures
        r@ == rewrite_spec(utf8(source@), rule@),
{
    let ghost src = utf8(source@);
    let base_indent = detect_indent_at(source, rule.call_start);
    let mut attr_indent = base_indent.to_owned();
    attr_indent.append("    ");
    let mut formatted = rule.func_name.clone();
    formatted.append("(\n");
    let ghost head = formatted@;
    let mut i: usize = 0;
    while i < rule.args.len()
        invariant
            i <= rule.args@.len(),
            attr_indent@ == base_indent@ + "    "@,
            formatted@ == head + format_args_spec(arg_views(rule.args@).take(i as int), attr_indent@),
        decreases rule.args@.len() - i,
    {
        let arg = &rule.args[i];
        formatted.append(attr_indent.as_str());
        formatted.append(arg.name.as_str());
        formatted.append(" = ");
        let v = format_arg_value(&arg.value, attr_indent.as_str());
        formatted.append(v.as_str());
        formatted.append(",\n");
        i = i + 1;
        proof {
            let avs = arg_views(rule.args@);
            assert(avs.take(i as int).drop_last() =~= avs.take(i - 1));
            assert(avs.take(i as int).last() == rule.args@[i - 1]@);
            assert(formatted@ =~= head + format_args_spec(avs.take(i as int), attr_indent@));
        }
    }
    formatted.append(base_indent);
    formatted.append(")");
    proof {
        assert(arg_views(rule.args@).take(i as int) =~= arg_views(rule.args@));
        is_char_boundary_start_end_of_seq(src);
    }
    let n_bytes = source.as_bytes().len();
    let mut result = byte_slice(source, 0, rule.call_start).to_owned();
    result.append(formatted.as_str());
    result.append(byte_slice(source, rule.call_end, n_bytes));
    proof {
        assert(result@ =~= rewrite_spec(src, rule@));
    }
    result
}

// ---------------------------------------------------------------------------
// Public edits

/// Add an entry to the specified rule's list attribute, on statements
/// already parsed from `source`.
pub fn add_entry_in(source: &str, stmts: &Vec<StmtNode>, selector: &RuleSelector, entry: &str) -> (r:
    Result<String, Error>)
    requires
        stmts_fit(utf8(source@), stmts@),
    ensures
        text_result(r) == add_entry_spec(
            utf8(source@),
            stmts@,
            selector.rule_name@,
            selector.attr@,
            opt_view(selector.name),
            entry@,
        ),
{
    let name = match &selector.name {
        Some(n) => Some(n.as_str()),
        None => None,
    };
    let mut rule = match find_rule(
        source,
        stmts,
        selector.rule_name.as_str(),
        selector.attr.as_str(),
        name,
    ) {
        Ok(rule) => rule,
        Err(e) => return Err(e),
    };
    let ghost r0 = rule@;
    match rule.target_idx {
        Some(idx) => {
            let new_value = match &rule.args[idx].value {
                ArgValue::StringList(entries) => {
                    if contains_str(entries, entry) {
                        return Err(Error::EntryAlreadyPresent { entry: entry.to_owned() });
                    }
                    let mut grown = clone_strings(entries);
                    grown.push(entry.to_owned());
                    proof {
                        assert(views(grown@) =~= views(entries@).push(entry@));
                    }
                    ArgValue::StringList(sort_strings(&grown))
                },
                ArgValue::Raw(_) => {
                    return Err(
                        Error::AttrNotAList {
                            rule_name: selector.rule_name.clone(),
                            attr: selector.attr.clone(),
                        },
                    );
                },
            };
            let arg_name = rule.args[idx].name.clone();
            let ghost old_args = rule.args@;
            rule.args.set(idx, ArgInfo { name: arg_name, value: new_value });
            proof {
                assert(arg_views(rule.args@) =~= arg_views(old_args).update(
                    idx as int,
                    ArgView { name: old_args[idx as int].name@, value: new_value@ },
                ));
            }
        },
        None => {
            let ghost old_args = rule.args@;
            let mut list: Vec<String> = Vec::new();
            list.push(entry.to_owned());
            let info = ArgInfo { name: selector.attr.clone(), value: ArgValue::StringList(list) };
            rule.args.push(info);
            proof {
                assert(views(list@) =~= seq![entry@]);
                assert(arg_views(rule.args@) =~= arg_views(old_args).push(info@));
            }
        },
    }
    proof {
        assert(rule.fits(utf8(source@)));
    }
    Ok(rewrite_rule(source, &rule))
}

/// Add an entry to the specified rule's list attribute.
/// Creates the attribute if it doesn't exist.
/// Reformats the entire rule block with consistent indentation.
pub fn add_entry(source: &str, selector: &RuleSelector, entry: &str) -> (r: Result<String, Error>)
    ensures
        text_result(r) == after_parse(
            statements_spec(source@),
            |stmts: Seq<StmtNode>|
                add_entry_spec(
                    utf8(source@),
                    stmts,
                    selector.rule_name@,
                    selector.attr@,
                    opt_view(selector.name),
                    entry@,
                ),
        ),
{
    match read_statements(source) {
        Err(m) => Err(Error::Parse(m)),
        Ok(stmts) => add_entry_in(source, &stmts, selector, entry),
    }
}

/// Remove an entry from the specified rule's list attribute, on statements
/// already parsed from `source`.
pub fn remove_entry_in(
    source: &str,
    stmts: &Vec<StmtNode>,
    selector: &RuleSelector,
    entry: &str,
) -> (r: Result<String, Error>)
    requires
        stmts_fit(utf8(source@), stmts@),
    ensures
        text_result(r) == remove_entry_spec(
            utf8(source@),
            stmts@,
            selector.rule_name@,
            selector.attr@,
            opt_view(selector.name),
            entry@,
        ),
{
    let name = match &selector.name {
        Some(n) => Some(n.as_str()),
        None => None,
    };
    let mut rule = match find_rule(
        source,
        stmts,
        selector.rule_name.as_str(),
        selector.attr.as_str(),
        name,
    ) {
        Ok(rule) => rule,
        Err(e) => return Err(e),
    };
    let idx = match rule.target_idx {
        Some(idx) => idx,
        None => {
            return Err(
                Error::AttrNotFound {
                    rule_name: selector.rule_name.clone(),
                    attr: selector.attr.clone(),
                },
            );
        },
    };
    let remaining = match &rule.args[idx].value {
        ArgValue::StringList(entries) => {
            let entry_idx = match position_of(entries, entry) {
                Some(k) => k,
                None => {
                    return Err(Error::EntryNotFound { entry: entry.to_owned() });
                },
            };
            proof {
                lemma_first_index_bound(views(entries@), entry@);
            }
            let mut rest = clone_strings(entries);
            let ghost before = rest@;
            rest.remove(entry_idx);
            proof {
                assert(views(rest@) =~= views(before).remove(entry_idx as int));
            }
            sort_strings(&rest)
        },
        ArgValue::Raw(_) => {
            return Err(
                Error::AttrNotAList {
                    rule_name: selector.rule_name.clone(),
                    attr: selector.attr.clone(),
                },
            );
        },
    };
    let ghost old_args = rule.args@;
    if remaining.len() == 0 {
        rule.args.remove(idx);
        proof {
            assert(arg_views(rule.args@) =~= arg_views(old_args).remove(idx as int));
        }
        rule.target_idx = None;
    } else {
        let arg_name = rule.args[idx].name.clone();
        let info = ArgInfo { name: arg_name, value: ArgValue::StringList(remaining) };
        rule.args.set(idx, info);
        proof {
            assert(arg_views(rule.args@) =~= arg_views(old_args).update(idx as int, info@));
        }
    }
    Ok(rewrite_rule(source, &rule))
}

proof fn lemma_first_index_bound(s: Seq<Seq<char>>, x: Seq<char>)
    ensures
        first_index(s, x) matches Some(k) ==> 0 <= k < s.len() && s[k] == x,
    decreases s.len(),
{
    if s.len() > 0 {
        lemma_first_index_bound(s.drop_first(), x);
        if s[0] != x {
            if let Some(k) = first_index(s.drop_first(), x) {
                assert(s[k + 1] == s.drop_first()[k]);
            }
        }
    }
}

/// Remove an entry from the specified rule's list attribute.
/// Removes the attribute entirely if the list becomes empty.
/// Reformats the entire rule block with consistent indentation.
pub fn remove_entry(source: &str, selector: &RuleSelector, entry: &str) -> (r: Result<String, Error>)
    ensures
        text_result(r) == after_parse(
            statements_spec(source@),
            |stmts: Seq<StmtNode>|
                remove_entry_spec(
                    utf8(source@),
                    stmts,
                    selector.rule_name@,
                    selector.attr@,
                    opt_view(selector.name),
                    entry@,
                ),
        ),
{
    match read_statements(source) {
        Err(m) => Err(Error::Parse(m)),
        Ok(stmts) => remove_entry_in(source, &stmts, selector, entry),
    }
}

/// Adding to an existing list writes the list back sorted, holding the
/// old entries and the new one, into the rule found.
pub proof fn law_add_writes_sorted(
    src: Seq<u8>,
    stmts: Seq<StmtNode>,
    rule_name: Seq<char>,
    attr: Seq<char>,
    name: Option<Seq<char>>,
    entry: Seq<char>,
    r: RuleView,
    idx: int,
    es: Seq<Seq<char>>,
)
    requires
        find_rule_spec(src, stmts, rule_name, attr, name) == Ok::<RuleView, ErrorView>(r),
        r.target == Some(idx),
        0 <= idx < r.args.len(),
        r.args[idx].value == ArgValueView::List(es),
        !es.contains(entry),
    ensures
        exists|l: Seq<Seq<char>>|
            #![trigger texts_sorted(l)]
            texts_sorted(l) && l.to_multiset() == es.to_multiset().insert(entry) && add_entry_spec(
                src,
                stmts,
                rule_name,
                attr,
                name,
                entry,
            ) == Ok::<Seq<char>, ErrorView>(rewrite_spec(src, with_value(r, idx, ArgValueView::List(l)))),
{
    broadcast use vstd::seq_lib::group_to_multiset_ensures;

    law_sort_texts(es.push(entry));
    let l = sort_texts(es.push(entry));
    assert(texts_sorted(l));
}

/// Removing from a list writes what is left back sorted, holding every
/// old entry but one copy of the removed one.
pub proof fn law_remove_writes_sorted(
    src: Seq<u8>,
    stmts: Seq<StmtNode>,
    rule_name: Seq<char>,
    attr: Seq<char>,
    name: Option<Seq<char>>,
    entry: Seq<char>,
    r: RuleView,
    idx: int,
    es: Seq<Seq<char>>,
)
    requires
        find_rule_spec(src, stmts, rule_name, attr, name) == Ok::<RuleView, ErrorView>(r),
        r.target == Some(idx),
        0 <= idx < r.args.len(),
        r.args[idx].value == ArgValueView::List(es),
        es.contains(entry),
    ensures
        remove_entry_spec(src, stmts, rule_name, attr, name, entry) is Ok,
        es.len() > 1 ==> exists|l: Seq<Seq<char>>|
            #![trigger texts_sorted(l)]
            texts_sorted(l) && l.to_multiset() == es.to_multiset().remove(entry) && remove_entry_spec(
                src,
                stmts,
                rule_name,
                attr,
                name,
                entry,
            ) == Ok::<Seq<char>, ErrorView>(rewrite_spec(src, with_value(r, idx, ArgValueView::List(l)))),
{
    broadcast use vstd::seq_lib::group_to_multiset_ensures;

    lemma_first_index_found(es, entry);
    let k = first_index(es, entry)->0;
    lemma_first_index_bound(es, entry);
    law_sort_texts(es.remove(k));
    let l = sort_texts(es.remove(k));
    assert(texts_sorted(l));
    assert(l.len() == es.len() - 1) by {
        assert(l.to_multiset().len() == es.remove(k).to_multiset().len());
    }
    assert(es[k] == entry);
    assert(l.to_multiset() == es.to_multiset().remove(entry));
    if es.len() > 1 {
        assert(l.len() > 0);
        assert(remove_entry_spec(src, stmts, rule_name, attr, name, entry) == Ok::<Seq<char>, ErrorView>(
            rewrite_spec(src, with_value(r, idx, ArgValueView::List(l))),
        ));
    }
}

/// An entry that a list holds has a first position.
proof fn lemma_first_index_found(s: Seq<Seq<char>>, x: Seq<char>)
    requires
        s.contains(x),
    ensures
        first_index(s, x) is Some,
    decreases s.len(),
{
    if s[0] != x {
        let k = choose|k: int| 0 <= k < s.len() && s[k] == x;
        assert(s.drop_first()[k - 1] == x);
        lemma_first_index_found(s.drop_first(), x);
    }
}

/// An edit rewrites only the rule it found: the text before the call and
/// the text after it are kept as they were.
pub proof fn law_edit_keeps_other_text(
    src: Seq<u8>,
    stmts: Seq<StmtNode>,
    rule_name: Seq<char>,
    attr: Seq<char>,
    name: Option<Seq<char>>,
    entry: Seq<char>,
    r: RuleView,
)
    requires
        find_rule_spec(src, stmts, rule_name, attr, name) == Ok::<RuleView, ErrorView>(r),
    ensures
        add_entry_spec(src, stmts, rule_name, attr, name, entry) matches Ok(t) ==> exists|mid: Seq<char>|
            t == span_text(src, 0, r.start) + mid + span_text(src, r.end, src.len() as int),
        remove_entry_spec(src, stmts, rule_name, attr, name, entry) matches Ok(t) ==> exists|mid: Seq<char>|
            t == span_text(src, 0, r.start) + mid + span_text(src, r.end, src.len() as int),
{
    if let Ok(t) = add_entry_spec(src, stmts, rule_name, attr, name, entry) {
        let idx = r.target;
        let mid = if r.target is Some && r.args[r.target->0].value is List {
            format_rule_spec(
                r.func,
                with_value(
                    r,
                    r.target->0,
                    ArgValueView::List(sort_texts(r.args[r.target->0].value->List_0.push(entry))),
                ).args,
                indent_at(src, r.start),
            )
        } else {
            format_rule_spec(
                r.func,
                r.args.push(ArgView { name: attr, value: ArgValueView::List(seq![entry]) }),
                indent_at(src, r.start),
            )
        };
        assert(t == span_text(src, 0, r.start) + mid + span_text(src, r.end, src.len() as int));
    }
    if let Ok(t) = remove_entry_spec(src, stmts, rule_name, attr, name, entry) {
        let idx = r.target->0;
        let es = r.args[idx].value->List_0;
        let k = first_index(es, entry)->0;
        let rest = sort_texts(es.remove(k));
        let mid = if rest.len() == 0 {
            format_rule_spec(r.func, r.args.remove(idx), indent_at(src, r.start))
        } else {
            format_rule_spec(r.func, with_value(r, idx, ArgValueView::List(rest)).args, indent_at(src, r.start))
        };
        assert(t == span_text(src, 0, r.start) + mid + span_text(src, r.end, src.len() as int));
    }
}

/// The message an error reads as.
pub open spec fn error_message(e: ErrorView) -> Seq<char> {
    match e {
        ErrorView::Parse(m) => "parse error: "@ + m,
        ErrorView::RuleNotFound(r) => "no rule `"@ + r + "` found"@,
        ErrorView::AttrNotFound(r, a) => "rule `"@ + r + "` has no attribute `"@ + a + "`"@,
        ErrorView::AttrNotAList(r, a) => "attribute `"@ + a + "` of rule `"@ + r + "` is not a list"@,
        ErrorView::EntryAlreadyPresent(e) => "`"@ + e + "` is already present"@,
        ErrorView::EntryNotFound(e) => "`"@ + e + "` not found in list"@,
        ErrorView::AmbiguousRule(r, n) => "found "@ + decimal(n) + " rules named `"@ + r
            + "`; use `name` to disambiguate"@,
        ErrorView::RuleAlreadyExists(r, n) => "rule `"@ + r + "` with name `"@ + n + "` already exists"@,
    }
}

impl Error {
    /// The message this error reads as.
    pub fn message(&self) -> (r: String)
        ensures
            r@ == error_message(self@),
    {
        let mut s = String::new();
        match self {
            Error::Parse(m) => {
                s.append("parse error: ");
                s.append(m.as_str());
            },
            Error::RuleNotFound { rule_name } => {
                s.append("no rule `");
                s.append(rule_name.as_str());
                s.append("` found");
            },
            Error::AttrNotFound { rule_name, attr } => {
                s.append("rule `");
                s.append(rule_name.as_str());
                s.append("` has no attribute `");
                s.append(attr.as_str());
                s.append("`");
            },
            Error::AttrNotAList { rule_name, attr } => {
                s.append("attribute `");
                s.append(attr.as_str());
                s.append("` of rule `");
                s.append(rule_name.as_str());
                s.append("` is not a list");
            },
            Error::EntryAlreadyPresent { entry } => {
                s.append("`");
                s.append(entry.as_str());
                s.append("` is already present");
            },
            Error::EntryNotFound { entry } => {
                s.append("`");
                s.append(entry.as_str());
                s.append("` not found in list");
            },
            Error::AmbiguousRule { rule_name, count } => {
                s.append("found ");
                s.append(decimal_string(*count as u64).as_str());
                s.append(" rules named `");
                s.append(rule_name.as_str());
                s.append("`; use `name` to disambiguate");
            },
            Error::RuleAlreadyExists { rule_name, name } => {
                s.append("rule `");
                s.append(rule_name.as_str());
                s.append("` with name `");
                s.append(name.as_str());
                s.append("` already exists");
            },
        }
        s
    }
}

/// A list result with its strings as characters.
pub open spec fn list_result(r: Result<Vec<String>, Error>) -> Result<Seq<Seq<char>>, ErrorView> {
    match r {
        Ok(v) => Ok(views(v@)),
        Err(e) => Err(e@),
    }
}

/// List entries in the specified rule's list attribute, on statements
/// already parsed from `source`.
pub fn list_entries_in(source: &str, stmts: &Vec<StmtNode>, selector: &RuleSelector) -> (r: Result<
    Vec<String>,
    Error,
>)
    requires
        stmts_fit(utf8(source@), stmts@),
    ensures
        list_result(r) == list_entries_spec(
            utf8(source@),
            stmts@,
            selector.rule_name@,
            selector.attr@,
            opt_view(selector.name),
        ),
{
    let name = match &selector.name {
        Some(n) => Some(n.as_str()),
        None => None,
    };
    let rule = match find_rule(
        source,
        stmts,
        selector.rule_name.as_str(),
        selector.attr.as_str(),
        name,
    ) {
        Ok(rule) => rule,
        Err(e) => return Err(e),
    };
    match rule.target_idx {
        Some(idx) => match &rule.args[idx].value {
            ArgValue::StringList(entries) => {
                let v = clone_strings(entries);
                proof {
                    assert(rule@.args[idx as int].value == ArgValueView::List(views(entries@)));
                }
                Ok(v)
            },
            ArgValue::Raw(_) => Err(
                Error::AttrNotAList {
                    rule_name: selector.rule_name.clone(),
                    attr: selector.attr.clone(),
                },
            ),
        },
        None => {
            let v: Vec<String> = Vec::new();
            assert(views(v@) =~= Seq::<Seq<char>>::empty());
            Ok(v)
        },
    }
}

/// List entries in the specified rule's list attribute.
/// Returns an empty list if the attribute doesn't exist.
pub fn list_entries(source: &str, selector: &RuleSelector) -> (r: Result<Vec<String>, Error>)
    ensures
        list_result(r) == after_parse(
            statements_spec(source@),
            |stmts: Seq<StmtNode>|
                list_entries_spec(
                    utf8(source@),
                    stmts,
                    selector.rule_name@,
                    selector.attr@,
                    opt_view(selector.name),
                ),
        ),
{
    match read_statements(source) {
        Err(m) => Err(Error::Parse(m)),
        Ok(stmts) => list_entries_in(source, &stmts, selector),
    }
}

/// Create a new rule block and append it to the source, on statements
/// already parsed from `source`.
pub fn create_rule_in(source: &str, stmts: &Vec<StmtNode>, rule_name: &str, name: &str) -> (r:
    Result<String, Error>)
    requires
        stmts_fit(utf8(source@), stmts@),
    ensures
        text_result(r) == create_rule_spec(source@, stmts@, rule_name@, name@),
{
    // One rule of that type and name, or several, and the block is not added.
    match find_rule(source, stmts, rule_name, "", Some(name)) {
        Ok(_) | Err(Error::AmbiguousRule { .. }) => {
            return Err(
                Error::RuleAlreadyExists { rule_name: rule_name.to_owned(), name: name.to_owned() },
            );
        },
        Err(Error::RuleNotFound { .. }) => {},
        Err(e) => return Err(e),
    }
    let mut result = source.to_owned();
    let n = source.unicode_len();
    if n > 0 && source.get_char(n - 1) != '\n' {
        result.append("\n");
    }
    if n > 0 {
        result.append("\n");
    }
    result.append(rule_name);
    result.append("(\n    name = \"");
    result.append(name);
    result.append("\",\n)");
    result.append("\n");
    proof {
        assert(result@ =~= appended_rule(source@, rule_name@, name@));
    }
    Ok(result)
}

/// Create a new rule block and append it to the source.
/// Errors if a rule of the same type and name already exists.
pub fn create_rule(source: &str, rule_name: &str, name: &str) -> (r: Result<String, Error>)
    ensures
        text_result(r) == after_parse(
            statements_spec(source@),
            |stmts: Seq<StmtNode>| create_rule_spec(source@, stmts, rule_name@, name@),
        ),
{
    match read_statements(source) {
        Err(m) => Err(Error::Parse(m)),
        Ok(stmts) => create_rule_in(source, &stmts, rule_name, name),
    }
}

/// Remove a rule by its function name and `name` attribute, on statements
/// already parsed from `source`.
pub fn remove_rule_in(source: &str, stmts: &Vec<StmtNode>, rule_name: &str, name: &str) -> (r:
    Result<String, Error>)
    requires
        stmts_fit(utf8(source@), stmts@),
    ensures
        text_result(r) == remove_rule_spec(utf8(source@), stmts@, rule_name@, name@),
{
    let ghost src = utf8(source@);
    let rule = match find_rule(source, stmts, rule_name, "", Some(name)) {
        Ok(rule) => rule,
        Err(e) => return Err(e),
    };
    let bytes = source.as_bytes();
    let len = bytes.len();
    // Expand to remove surrounding whitespace/newlines
    let mut start = rule.call_start;
    let mut end = rule.call_end;
    // Consume trailing whitespace and newlines
    while end < len && (bytes[end] == 10u8 || bytes[end] == 32u8 || bytes[end] == 9u8)
        invariant
            src == utf8(source@),
            bytes@ == src,
            len == src.len(),
            rule.call_end <= end <= len,
            is_char_boundary(src, end as int),
            skip_blank_forward(src, rule.call_end as int) == skip_blank_forward(src, end as int),
        decreases len - end,
    {
        proof {
            crate::strings::lemma_ascii_step(src, end as int);
        }
        end = end + 1;
    }
    // Consume leading blank lines back to the previous rule/content
    while start > 0 && bytes[start - 1] == 10u8
        invariant
            src == utf8(source@),
            bytes@ == src,
            len == src.len(),
            start <= rule.call_start,
            rule.call_start < len,
            is_char_boundary(src, start as int),
            is_leading_byte_width_1(src[start as int]),
            skip_newlines_back(src, rule.call_start as int) == skip_newlines_back(src, start as int),
        decreases start,
    {
        proof {
            crate::utf8_text::lemma_newline_boundary(src, start - 1);
        }
        start = start - 1;
    }
    // Keep one newline separator if we're not at the start of the file
    if start > 0 && end < len {
        proof {
            crate::strings::lemma_ascii_step(src, start as int);
        }
        start = start + 1;
    }
    proof {
        is_char_boundary_start_end_of_seq(src);
    }
    let mut result = byte_slice(source, 0, start).to_owned();
    result.append(byte_slice(source, end, len));
    Ok(result)
}

/// Remove a rule by its function name and `name` attribute.
pub fn remove_rule(source: &str, rule_name: &str, name: &str) -> (r: Result<String, Error>)
    ensures
        text_result(r) == after_parse(
            statements_spec(source@),
            |stmts: Seq<StmtNode>| remove_rule_spec(utf8(source@), stmts, rule_name@, name@),
        ),
{
    match read_statements(source) {
        Err(m) => Err(Error::Parse(m)),
        Ok(stmts) => remove_rule_in(source, &stmts, rule_name, name),
    }
}

/// The entries of a rule list with their strings as characters.
pub open spec fn entries_result(r: Result<Vec<RuleEntry>, Error>) -> Result<Seq<RuleEntryView>, ErrorView> {
    match r {
        Ok(v) => Ok(v@.map_values(|e: RuleEntry| e@)),
        Err(e) => Err(e@),
    }
}

/// The value of the first `name = "..."` argument of a call.
fn first_name_of(c: &CallNode) -> (r: Option<String>)
    ensures
        opt_view(r) == first_name_literal(c.args@),
{
    let mut j: usize = 0;
    assert(c.args@.skip(0) =~= c.args@);
    while j < c.args.len()
        invariant
            j <= c.args@.len(),
            first_name_literal(c.args@) == first_name_literal(c.args@.skip(j as int)),
        decreases c.args@.len() - j,
    {
        let a = &c.args[j];
        assert(c.args@.skip(j as int).drop_first() =~= c.args@.skip(j + 1));
        assert(c.args@.skip(j as int)[0] == c.args@[j as int]);
        if let Some(n) = &a.name {
            if str_eq(n.as_str(), "name") {
                if let ValueNode::Str(v) = &a.value {
                    let vc = v.clone();
                    assert(vc == *v);
                    return Some(vc);
                }
            }
        }
        j = j + 1;
    }
    None
}

/// Every call statement as a rule entry, on statements already parsed.
pub fn list_rules_in(stmts: &Vec<StmtNode>) -> (r: Vec<RuleEntry>)
    ensures
        r@.map_values(|e: RuleEntry| e@) == rule_entries(stmts@),
{
    let mut out: Vec<RuleEntry> = Vec::new();
    let mut i: usize = 0;
    while i < stmts.len()
        invariant
            i <= stmts@.len(),
            out@.map_values(|e: RuleEntry| e@) == rule_entries(stmts@.take(i as int)),
        decreases stmts@.len() - i,
    {
        let ghost old_out = out@;
        proof {
            assert(stmts@.take(i + 1).drop_last() =~= stmts@.take(i as int));
            assert(stmts@.take(i + 1).last() == stmts@[i as int]);
        }
        if let StmtNode::Call(c) = &stmts[i] {
            let rule_type = c.func.clone();
            assert(rule_type == c.func);
            let entry = RuleEntry { rule_type, name: first_name_of(c) };
            out.push(entry);
            proof {
                assert(out@.map_values(|e: RuleEntry| e@) =~= old_out.map_values(|e: RuleEntry| e@).push(
                    entry@,
                ));
            }
        }
        i = i + 1;
    }
    assert(stmts@.take(i as int) =~= stmts@);
    out
}

/// List all rule calls in the file.
pub fn list_rules(source: &str) -> (r: Result<Vec<RuleEntry>, Error>)
    ensures
        entries_result(r) == after_parse(
            statements_spec(source@),
            |stmts: Seq<StmtNode>| Ok::<Seq<RuleEntryView>, ErrorView>(rule_entries(stmts)),
        ),
{
    match read_statements(source) {
        Err(m) => Err(Error::Parse(m)),
        Ok(stmts) => Ok(list_rules_in(&stmts)),
    }
}


/// A newline, a space or a tab.
pub open spec fn is_blank_byte(b: u8) -> bool {
    b == 10u8 || b == 32u8 || b == 9u8
}

/// Blanks after `i` are passed over, never past the end.
proof fn lemma_skip_forward_bounds(src: Seq<u8>, i: int)
    requires
        0 <= i <= src.len(),
    ensures
        i <= skip_blank_forward(src, i) <= src.len(),
        forall|k: int| i <= k < skip_blank_forward(src, i) ==> is_blank_byte(#[trigger] src[k]),
        skip_blank_forward(src, i) < src.len() ==> !is_blank_byte(src[skip_blank_forward(src, i)]),
    decreases src.len() - i,
{
    if i < src.len() && (src[i] == 10u8 || src[i] == 32u8 || src[i] == 9u8) {
        lemma_skip_forward_bounds(src, i + 1);
    }
}

/// Newlines before `i` are passed over, never before the start; when the
/// byte before `i` is a newline, at least that one.
proof fn lemma_skip_back_bounds(src: Seq<u8>, i: int)
    requires
        0 <= i <= src.len(),
    ensures
        0 <= skip_newlines_back(src, i) <= i,
        i > 0 && src[i - 1] == 10u8 ==> skip_newlines_back(src, i) < i,
        forall|k: int| skip_newlines_back(src, i) <= k < i ==> #[trigger] src[k] == 10u8,
    decreases i,
{
    if i > 0 && src[i - 1] == 10u8 {
        lemma_skip_back_bounds(src, i - 1);
    }
}

/// Removing a rule whose call starts a line (or the file) removes all of
/// the call and keeps text only from before it and from after it: the
/// result is the source up to some point at or before the call's start,
/// then the source from some point at or after the call's end. What goes
/// besides the call is newlines before it and the blanks after it, up to
/// the next text. A rule at the very start of the file leaves only what
/// follows it.
pub proof fn law_remove_cuts_the_whole_call(src: Seq<u8>, start: int, end: int)
    requires
        0 <= start <= end <= src.len(),
        start == 0 || src[start - 1] == 10u8,
    ensures
        exists|s: int, e: int|
            0 <= s <= start && end <= e <= src.len() && removed_rule(src, start, end) == span_text(src, 0, s)
                + span_text(src, e, src.len() as int) && (forall|k: int| s <= k < start ==> #[trigger] src[k]
                == 10u8) && (forall|k: int| end <= k < e ==> is_blank_byte(#[trigger] src[k])) && (e
                < src.len() ==> !is_blank_byte(src[e])),
        start == 0 ==> exists|e: int|
            end <= e <= src.len() && removed_rule(src, start, end) == span_text(src, e, src.len() as int),
{
    lemma_skip_forward_bounds(src, end);
    lemma_skip_back_bounds(src, start);
    let e = skip_blank_forward(src, end);
    let s0 = skip_newlines_back(src, start);
    let s = if s0 > 0 && e < src.len() {
        s0 + 1
    } else {
        s0
    };
    assert(0 <= s <= start);
    assert(removed_rule(src, start, end) == span_text(src, 0, s) + span_text(src, e, src.len() as int));
    if start == 0 {
        assert(src.subrange(0, 0) =~= Seq::<u8>::empty());
        assert(span_text(src, 0, 0) =~= Seq::<char>::empty());
        assert(removed_rule(src, start, end) =~= span_text(src, e, src.len() as int));
    }
}

} // verus!
