//! What the editor reads of a parsed Starlark file: its top-level
//! statements, and of each call statement the function name, the byte span
//! and the arguments. Parsing is done by the `starlark_syntax` crate; the
//! items here turn its syntax tree into these plain values.
use vstd::prelude::*;
use vstd::utf8::{is_char_boundary, is_leading_byte_width_1};
use crate::nesting::{nesting_ok, nesting_within};
use starlark_syntax::syntax::ast::{ArgumentP, AstLiteral, AstNoPayload, ExprP, StmtP};
use starlark_syntax::syntax::top_level_stmts::top_level_stmts;
use starlark_syntax::syntax::{AstModule, Dialect};

verus! {

/// A borrowed statement of the `starlark_syntax` tree. Verus refuses to
/// declare the tree's generic types (their parameter is bounded by the
/// crate's `AstPayload` trait), so the reference is held opaquely.
#[verifier::external_body]
struct StmtRef<'a>(&'a StmtP<AstNoPayload>);

/// A borrowed expression of the `starlark_syntax` tree, held opaquely.
#[verifier::external_body]
struct ExprRef<'a>(&'a ExprP<AstNoPayload>);

/// A borrowed call argument of the `starlark_syntax` tree, held opaquely.
#[verifier::external_body]
struct ArgRef<'a>(&'a ArgumentP<AstNoPayload>);

/// An argument value, as far as the editor looks into it.
pub enum ValueNode {
    /// A string literal, with its value.
    Str(String),
    /// A list literal, with its items.
    List(Vec<ValueNode>),
    /// Any other expression.
    Other,
}

/// One argument of a call: its name when it is a named argument, what its
/// value is, and the byte span of the value in the source.
pub struct ArgNode {
    pub name: Option<String>,
    pub value: ValueNode,
    pub start: usize,
    pub end: usize,
}

/// A call of a plain identifier, with the byte span of the whole call.
pub struct CallNode {
    pub func: String,
    pub start: usize,
    pub end: usize,
    pub args: Vec<ArgNode>,
}

/// A top-level statement: a call of an identifier, or anything else.
pub enum StmtNode {
    Call(CallNode),
    Other,
}

/// The top-level statements that `starlark_syntax` finds in a source text
/// (blocks of statements flattened), or its error message when the text
/// does not parse.
pub uninterp spec fn starlark_statements(source: Seq<char>) -> Result<Vec<StmtNode>, String>;

/// A byte span `[start, end)` that lies between two character boundaries
/// of the source bytes.
pub open spec fn span_fits(src: Seq<u8>, start: int, end: int) -> bool {
    &&& 0 <= start <= end <= src.len()
    &&& is_char_boundary(src, start)
    &&& is_char_boundary(src, end)
}

/// Every span of a call lies on character boundaries of the source, and the
/// call starts with the one-byte first character of its name.
pub open spec fn call_fits(src: Seq<u8>, c: CallNode) -> bool {
    &&& span_fits(src, c.start as int, c.end as int)
    &&& c.start < c.end
    &&& is_leading_byte_width_1(src[c.start as int])
    &&& forall|j: int|
        0 <= j < c.args@.len() ==> span_fits(
            src,
            (#[trigger] c.args@[j]).start as int,
            c.args@[j].end as int,
        )
}

/// Every call statement fits the source.
pub open spec fn stmts_fit(src: Seq<u8>, stmts: Seq<StmtNode>) -> bool {
    forall|i: int|
        0 <= i < stmts.len() ==> match #[trigger] stmts[i] {
            StmtNode::Call(c) => call_fits(src, c),
            StmtNode::Other => true,
        }
}

/// Parses `source` with `starlark_syntax::syntax::AstModule::parse` (the
/// standard dialect) and lists its top-level statements with
/// `top_level_stmts`. The result is a function of the source text alone.
/// Spans come from the crate's lexer, which cuts the source at token
/// boundaries; a call's span starts at its function name, an identifier
/// made of ASCII letters, digits and underscores.
///
/// The crate keeps positions as `u32` and parses by recursive descent with
/// no depth limit, so the call is only made on a source of fewer than 2^32
/// bytes (its positions are then exact) that passes the nesting scan of
/// `crate::nesting` (its recursion then stays shallow; see that module).
#[verifier::external_body]
pub(crate) fn parse_statements(source: &str) -> (r: Result<Vec<StmtNode>, String>)
    requires
        vstd::utf8::encode_utf8(source@).len() < 0x1_0000_0000,
        nesting_ok(source@),
    ensures
        r == starlark_statements(source@),
        r matches Ok(v) ==> stmts_fit(vstd::utf8::encode_utf8(source@), v@),
{
    let module = AstModule::parse("BUILD", source.to_owned(), &Dialect::Standard)
        .map_err(|e| e.to_string())?;
    Ok(top_level_stmts(module.statement()).into_iter().map(|s| statement_node(StmtRef(&s.node))).collect())
}

/// Why a source is not handed to the parser: it is too large.
pub open spec fn too_large_message() -> Seq<char> {
    "the source is 4 GiB or larger and is not parsed"@
}

/// Why a source is not handed to the parser: it nests too deeply.
pub open spec fn too_deep_message() -> Seq<char> {
    "the source nests too deeply (or holds an f-string) and is not parsed"@
}

/// The statements of `source`: refused when it is 4 GiB or larger, or
/// fails the nesting scan; else what the parser finds, or its error.
pub open spec fn statements_spec(source: Seq<char>) -> Result<Seq<StmtNode>, Seq<char>> {
    if vstd::utf8::encode_utf8(source).len() >= 0x1_0000_0000 {
        Err(too_large_message())
    } else if !nesting_ok(source) {
        Err(too_deep_message())
    } else {
        match starlark_statements(source) {
            Ok(v) => Ok(v@),
            Err(m) => Err(m@),
        }
    }
}

/// The top-level statements of `source`, or why there are none.
pub fn read_statements(source: &str) -> (r: Result<Vec<StmtNode>, String>)
    ensures
        match r {
            Ok(v) => statements_spec(source@) == Ok::<Seq<StmtNode>, Seq<char>>(v@) && stmts_fit(
                vstd::utf8::encode_utf8(source@),
                v@,
            ),
            Err(m) => statements_spec(source@) == Err::<Seq<StmtNode>, Seq<char>>(m@),
        },
{
    let len = source.as_bytes().len() as u64;
    if len >= 0x1_0000_0000u64 {
        proof {
            reveal_strlit("the source is 4 GiB or larger and is not parsed");
        }
        return Err("the source is 4 GiB or larger and is not parsed".to_owned());
    }
    if !nesting_within(source) {
        proof {
            reveal_strlit("the source nests too deeply (or holds an f-string) and is not parsed");
        }
        return Err("the source nests too deeply (or holds an f-string) and is not parsed".to_owned());
    }
    parse_statements(source)
}

/// One top-level statement of the syntax tree, as a `StmtNode`.
#[verifier::external_body]
fn statement_node(s: StmtRef) -> StmtNode {
    match s.0 {
        StmtP::Expression(e) => call_node(ExprRef(&e.node), e.span.begin().get() as usize, e.span.end().get() as usize),
        _ => StmtNode::Other,
    }
}

/// An expression statement spanning `[start, end)`, as a `StmtNode`.
#[verifier::external_body]
fn call_node(e: ExprRef, start: usize, end: usize) -> StmtNode {
    match e.0 {
        ExprP::Call(f, call) => match &f.node {
            ExprP::Identifier(id) => StmtNode::Call(CallNode {
                func: id.node.ident.clone(),
                start,
                end,
                args: call.args.iter().map(|a| argument_node(ArgRef(&a.node))).collect(),
            }),
            _ => StmtNode::Other,
        },
        _ => StmtNode::Other,
    }
}

/// One argument of a call, as an `ArgNode`.
#[verifier::external_body]
fn argument_node(a: ArgRef) -> ArgNode {
    let v = a.0.expr();
    let name = match a.0 {
        ArgumentP::Named(n, _) => Some(n.node.clone()),
        _ => None,
    };
    ArgNode { name, value: value_node(ExprRef(&v.node)), start: v.span.begin().get() as usize, end: v.span.end().get() as usize }
}

/// An expression in argument position, as a `ValueNode`.
#[verifier::external_body]
fn value_node(e: ExprRef) -> ValueNode {
    match e.0 {
        ExprP::Literal(AstLiteral::String(s)) => ValueNode::Str(s.node.clone()),
        ExprP::List(items) => ValueNode::List(items.iter().map(|i| value_node(ExprRef(&i.node))).collect()),
        _ => ValueNode::Other,
    }
}

} // verus!
