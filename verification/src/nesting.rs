//! How deeply the Starlark parser may have to recurse on a source text, as
//! far as a scan of its characters can tell, so that texts it could not
//! parse without running out of stack are refused before it sees them.
//!
//! The scan follows the lexer of `starlark_syntax` where that matters:
//! strings (single or triple quoted, a backslash escaping the next
//! character), comments, escaped newlines and top-level statements (a line
//! at column 0, outside brackets, that does not start `elif` or `else`).
//! In each top-level statement it adds up the deepest bracket nesting and
//! every token that can make the parser go one level deeper: an operator
//! character, and a word that ends in a keyword (`not`, `and`, `or`, `in`,
//! `if`, `else`, `elif`, `lambda`, `for`, `def`). Every level of the
//! parser's recursion within a statement stands on an open bracket or on
//! such a token, so the sum bounds that recursion. A text with an f-string
//! is refused too: its expressions are lexed inside the string.
use vstd::prelude::*;

verus! {

/// The largest sum a top-level statement may reach. Each unit stands for a
/// handful of parser frames; sources just under it (120 nested brackets or
/// calls, 120 unary operators or `not`s in a row) parse on the 2 MiB stack
/// of a spawned thread.
pub const NESTING_LIMIT: u32 = 128;

/// Counters stop growing here.
pub const COUNT_CAP: u32 = 1_000_000;

/// Where the scan stands after some characters.
#[derive(Clone, Copy)]
pub struct Scan {
    /// 0: code, 1: a comment, 2: a string.
    pub mode: u8,
    /// The quote a string was opened with, and whether it was tripled.
    pub quote: char,
    pub triple: bool,
    /// The next character of the string is escaped.
    pub esc: bool,
    /// Quotes in a row so far, inside a triple-quoted string.
    pub qs: u8,
    /// Opening quotes of a triple-quoted string still to pass over.
    pub skip: u8,
    /// Open brackets.
    pub depth: u32,
    /// A closing bracket came with none open: from there on the parser
    /// has stopped, and the rest is taken as one statement.
    pub broken: bool,
    /// At column 0 of a line that may start a new statement.
    pub line_start: bool,
    /// The last code character was a backslash.
    pub cont: bool,
    /// Inside a word, which started at `word_start`.
    pub in_word: bool,
    pub word_start: usize,
    /// The deepest bracket nesting and the tokens counted in the current
    /// statement, and the largest sum over the statements before it.
    pub seg_depth: u32,
    pub seg_trig: u32,
    pub worst: u32,
    /// An f-string was met.
    pub fstr: bool,
}

/// The character at `i`, or `'\0'` outside the text.
pub open spec fn at(s: Seq<char>, i: int) -> char {
    if 0 <= i < s.len() {
        s[i]
    } else {
        '\0'
    }
}

/// One more, stopping at the cap.
pub open spec fn inc(x: u32) -> u32 {
    if x < COUNT_CAP {
        (x + 1) as u32
    } else {
        x
    }
}

/// A character of a word: a letter, a digit or `_`.
pub open spec fn is_word_char(c: char) -> bool {
    ('a' <= c && c <= 'z') || ('A' <= c && c <= 'Z') || ('0' <= c && c <= '9') || c == '_'
}

/// A character that starts a word: a letter or `_`.
pub open spec fn is_word_start(c: char) -> bool {
    ('a' <= c && c <= 'z') || ('A' <= c && c <= 'Z') || c == '_'
}

/// A character that is, or starts, an operator.
pub open spec fn is_op_char(c: char) -> bool {
    c == '+' || c == '-' || c == '*' || c == '/' || c == '%' || c == '&' || c == '|' || c == '^'
        || c == '~' || c == '<' || c == '>' || c == '!'
}

/// The word `s[ws..e]` ends in the keyword `k`.
pub open spec fn ends_in(s: Seq<char>, ws: int, e: int, k: Seq<char>) -> bool {
    ws <= e - k.len() && e <= s.len() && s.subrange(e - k.len(), e) == k
}

/// The word `s[ws..e]` ends in a keyword that can open a level.
pub open spec fn ends_in_keyword(s: Seq<char>, ws: int, e: int) -> bool {
    ||| ends_in(s, ws, e, seq!['n', 'o', 't'])
    ||| ends_in(s, ws, e, seq!['a', 'n', 'd'])
    ||| ends_in(s, ws, e, seq!['o', 'r'])
    ||| ends_in(s, ws, e, seq!['i', 'n'])
    ||| ends_in(s, ws, e, seq!['i', 'f'])
    ||| ends_in(s, ws, e, seq!['e', 'l', 's', 'e'])
    ||| ends_in(s, ws, e, seq!['e', 'l', 'i', 'f'])
    ||| ends_in(s, ws, e, seq!['l', 'a', 'm', 'b', 'd', 'a'])
    ||| ends_in(s, ws, e, seq!['f', 'o', 'r'])
    ||| ends_in(s, ws, e, seq!['d', 'e', 'f'])
}

/// A line at `i` starts with `elif` or `else`, and so goes on with the
/// statement before it.
pub open spec fn goes_on(s: Seq<char>, i: int) -> bool {
    at(s, i) == 'e' && at(s, i + 1) == 'l' && ((at(s, i + 2) == 'i' && at(s, i + 3) == 'f') || (at(s, i
        + 2) == 's' && at(s, i + 3) == 'e'))
}

/// The scan before any character.
pub open spec fn scan_start() -> Scan {
    Scan {
        mode: 0,
        quote: '\0',
        triple: false,
        esc: false,
        qs: 0,
        skip: 0,
        depth: 0,
        broken: false,
        line_start: false,
        cont: false,
        in_word: false,
        word_start: 0,
        seg_depth: 0,
        seg_trig: 0,
        worst: 0,
        fstr: false,
    }
}

/// The word that ends before `e` is over; one more token when it ends in
/// a keyword.
pub open spec fn end_word(st: Scan, s: Seq<char>, e: int) -> Scan {
    Scan {
        in_word: false,
        seg_trig: if ends_in_keyword(s, st.word_start as int, e) {
            inc(st.seg_trig)
        } else {
            st.seg_trig
        },
        ..st
    }
}

/// A statement ends: its sum counts, and the next starts from nothing.
pub open spec fn split(st: Scan) -> Scan {
    let sum = (st.seg_depth + st.seg_trig) as u32;
    Scan { worst: if sum > st.worst { sum } else { st.worst }, seg_depth: 0, seg_trig: 0, ..st }
}

/// A newline in code: the next line may start a statement when no bracket
/// is open and the newline is not escaped.
pub open spec fn code_newline(st: Scan) -> Scan {
    Scan { line_start: st.depth == 0 && !st.cont && !st.broken, cont: false, ..st }
}

/// The code character `c` at `i`.
pub open spec fn code_char(st: Scan, s: Seq<char>, i: int, c: char) -> Scan {
    if c == '\n' {
        code_newline(st)
    } else if c == '\r' {
        st
    } else if c == '\\' {
        Scan { cont: true, ..st }
    } else if c == '#' {
        Scan { mode: 1, cont: false, ..st }
    } else if c == '"' || c == '\'' {
        let f = at(s, i - 1) == 'f' || (at(s, i - 1) == 'r' && at(s, i - 2) == 'f');
        let triple = at(s, i + 1) == c && at(s, i + 2) == c;
        Scan {
            mode: 2,
            quote: c,
            triple,
            esc: false,
            qs: 0,
            skip: if triple {
                2
            } else {
                0
            },
            fstr: st.fstr || f,
            cont: false,
            ..st
        }
    } else if c == '(' || c == '[' || c == '{' {
        let d = inc(st.depth);
        Scan { depth: d, seg_depth: if d > st.seg_depth { d } else { st.seg_depth }, cont: false, ..st }
    } else if c == ')' || c == ']' || c == '}' {
        if st.depth == 0 {
            Scan { broken: true, cont: false, ..st }
        } else {
            Scan { depth: (st.depth - 1) as u32, cont: false, ..st }
        }
    } else if is_op_char(c) || (c == '=' && at(s, i - 1) == '=') {
        Scan { seg_trig: inc(st.seg_trig), cont: false, ..st }
    } else if is_word_start(c) && !st.in_word {
        Scan { in_word: true, word_start: i as usize, cont: false, ..st }
    } else {
        Scan { cont: false, ..st }
    }
}

/// A character `c` inside a string.
pub open spec fn string_char(st: Scan, c: char) -> Scan {
    if st.esc {
        Scan { esc: false, ..st }
    } else if c == '\\' {
        Scan { esc: true, qs: 0, ..st }
    } else if c == st.quote {
        if !st.triple {
            Scan { mode: 0, ..st }
        } else if st.qs >= 2 {
            Scan { mode: 0, qs: 0, ..st }
        } else {
            Scan { qs: (st.qs + 1) as u8, ..st }
        }
    } else if c == '\n' && !st.triple {
        Scan { mode: 0, ..st }
    } else {
        Scan { qs: 0, ..st }
    }
}

/// The code character `c` at `i`, seen first as the end of a word and as
/// the start of a line.
pub open spec fn code_step(st: Scan, s: Seq<char>, i: int, c: char) -> Scan {
    let st1 = if st.in_word && !is_word_char(c) {
        end_word(st, s, i)
    } else {
        st
    };
    let st2 = if st1.line_start {
        if c == '\n' || c == '\r' {
            st1
        } else if c == ' ' || c == '\t' || c == '#' || goes_on(s, i) {
            Scan { line_start: false, ..st1 }
        } else {
            Scan { line_start: false, ..split(st1) }
        }
    } else {
        st1
    };
    code_char(st2, s, i, c)
}

/// One character more: the character at `i`.
pub open spec fn step(st: Scan, s: Seq<char>, i: int) -> Scan {
    let c = at(s, i);
    if st.skip > 0 {
        Scan { skip: (st.skip - 1) as u8, ..st }
    } else if st.mode == 1 {
        if c == '\n' {
            code_newline(Scan { mode: 0, ..st })
        } else {
            st
        }
    } else if st.mode == 2 {
        string_char(st, c)
    } else {
        code_step(st, s, i, c)
    }
}

/// The scan after the first `n` characters.
pub open spec fn scan(s: Seq<char>, n: int) -> Scan
    decreases n,
{
    if n <= 0 {
        scan_start()
    } else {
        step(scan(s, n - 1), s, n - 1)
    }
}

/// The largest sum over all the statements of `s`.
pub open spec fn deepest(s: Seq<char>) -> u32 {
    let st = scan(s, s.len() as int);
    let st1 = if st.mode == 0 && st.in_word {
        end_word(st, s, s.len() as int)
    } else {
        st
    };
    split(st1).worst
}

/// The parser can take `s` without going too deep: no statement reaches
/// the limit, and there is no f-string.
pub open spec fn nesting_ok(s: Seq<char>) -> bool {
    !scan(s, s.len() as int).fstr && deepest(s) <= NESTING_LIMIT
}

/// The character at `i` of `s`, of `n` characters.
fn char_at(s: &str, n: usize, i: usize) -> (r: char)
    requires
        n == s@.len(),
    ensures
        r == at(s@, i as int),
{
    if i < n {
        s.get_char(i)
    } else {
        '\0'
    }
}

/// The character before `i`.
fn char_before(s: &str, n: usize, i: usize, back: usize) -> (r: char)
    requires
        n == s@.len(),
    ensures
        r == at(s@, i - back),
{
    if i >= back {
        char_at(s, n, i - back)
    } else {
        '\0'
    }
}

/// The character `k` places after `i`.
fn char_after(s: &str, n: usize, i: usize, k: usize) -> (r: char)
    requires
        n == s@.len(),
    ensures
        r == at(s@, i + k),
{
    if k < n && i < n - k {
        s.get_char(i + k)
    } else {
        '\0'
    }
}

fn inc_exec(x: u32) -> (r: u32)
    ensures
        r == inc(x),
{
    if x < COUNT_CAP {
        x + 1
    } else {
        x
    }
}

fn is_word_char_exec(c: char) -> (r: bool)
    ensures
        r == is_word_char(c),
{
    ('a' <= c && c <= 'z') || ('A' <= c && c <= 'Z') || ('0' <= c && c <= '9') || c == '_'
}

/// Whether `s[ws..e]` ends in the keyword `k`.
fn ends_in_exec(s: &str, n: usize, ws: usize, e: usize, k: &[char]) -> (r: bool)
    requires
        n == s@.len(),
    ensures
        r == ends_in(s@, ws as int, e as int, k@),
{
    if e > n || e < k.len() || ws > e - k.len() {
        return false;
    }
    let b = e - k.len();
    let mut j: usize = 0;
    while j < k.len()
        invariant
            n == s@.len(),
            b + k@.len() == e,
            e <= n,
            j <= k@.len(),
            forall|m: int| 0 <= m < j ==> s@[b + m] == k@[m],
        decreases k@.len() - j,
    {
        if s.get_char(b + j) != k[j] {
            assert(s@.subrange(b as int, e as int)[j as int] != k@[j as int]);
            return false;
        }
        j = j + 1;
    }
    assert(s@.subrange(b as int, e as int) =~= k@);
    true
}

/// Whether the word `s[ws..e]` ends in a keyword.
fn ends_in_keyword_exec(s: &str, n: usize, ws: usize, e: usize) -> (r: bool)
    requires
        n == s@.len(),
    ensures
        r == ends_in_keyword(s@, ws as int, e as int),
{
    let a1 = ['n', 'o', 't'];
    let a2 = ['a', 'n', 'd'];
    let a3 = ['o', 'r'];
    let a4 = ['i', 'n'];
    let a5 = ['i', 'f'];
    let a6 = ['e', 'l', 's', 'e'];
    let a7 = ['e', 'l', 'i', 'f'];
    let a8 = ['l', 'a', 'm', 'b', 'd', 'a'];
    let a9 = ['f', 'o', 'r'];
    let a10 = ['d', 'e', 'f'];
    assert(a1@ =~= seq!['n', 'o', 't']);
    assert(a2@ =~= seq!['a', 'n', 'd']);
    assert(a3@ =~= seq!['o', 'r']);
    assert(a4@ =~= seq!['i', 'n']);
    assert(a5@ =~= seq!['i', 'f']);
    assert(a6@ =~= seq!['e', 'l', 's', 'e']);
    assert(a7@ =~= seq!['e', 'l', 'i', 'f']);
    assert(a8@ =~= seq!['l', 'a', 'm', 'b', 'd', 'a']);
    assert(a9@ =~= seq!['f', 'o', 'r']);
    assert(a10@ =~= seq!['d', 'e', 'f']);
    ends_in_exec(s, n, ws, e, &a1) || ends_in_exec(s, n, ws, e, &a2) || ends_in_exec(s, n, ws, e, &a3)
        || ends_in_exec(s, n, ws, e, &a4) || ends_in_exec(s, n, ws, e, &a5) || ends_in_exec(
        s,
        n,
        ws,
        e,
        &a6,
    ) || ends_in_exec(s, n, ws, e, &a7) || ends_in_exec(s, n, ws, e, &a8) || ends_in_exec(
        s,
        n,
        ws,
        e,
        &a9,
    ) || ends_in_exec(s, n, ws, e, &a10)
}

fn end_word_exec(st: Scan, s: &str, n: usize, e: usize) -> (r: Scan)
    requires
        n == s@.len(),
    ensures
        r == end_word(st, s@, e as int),
{
    let kw = ends_in_keyword_exec(s, n, st.word_start, e);
    Scan {
        in_word: false,
        seg_trig: if kw {
            inc_exec(st.seg_trig)
        } else {
            st.seg_trig
        },
        ..st
    }
}

fn split_exec(st: Scan) -> (r: Scan)
    requires
        st.seg_depth <= COUNT_CAP,
        st.seg_trig <= COUNT_CAP,
    ensures
        r == split(st),
{
    let sum = st.seg_depth + st.seg_trig;
    Scan { worst: if sum > st.worst { sum } else { st.worst }, seg_depth: 0, seg_trig: 0, ..st }
}

/// The counters stay within the cap.
pub open spec fn bounded(st: Scan) -> bool {
    st.seg_depth <= COUNT_CAP && st.seg_trig <= COUNT_CAP && st.depth <= COUNT_CAP
}

fn string_char_exec(st: Scan, c: char) -> (r: Scan)
    requires
        bounded(st),
    ensures
        r == string_char(st, c),
        bounded(r),
{
    if st.esc {
        Scan { esc: false, ..st }
    } else if c == '\\' {
        Scan { esc: true, qs: 0, ..st }
    } else if c == st.quote {
        if !st.triple {
            Scan { mode: 0, ..st }
        } else if st.qs >= 2 {
            Scan { mode: 0, qs: 0, ..st }
        } else {
            Scan { qs: st.qs + 1, ..st }
        }
    } else if c == '\n' && !st.triple {
        Scan { mode: 0, ..st }
    } else {
        Scan { qs: 0, ..st }
    }
}

fn quote_exec(st2: Scan, s: &str, n: usize, i: usize, c: char) -> (r: Scan)
    requires
        n == s@.len(),
        bounded(st2),
        c == '"' || c == '\'',
    ensures
        r == code_char(st2, s@, i as int, c),
        bounded(r),
{
    let p1 = char_before(s, n, i, 1);
    let p2 = char_before(s, n, i, 2);
    let f = p1 == 'f' || (p1 == 'r' && p2 == 'f');
    let triple = char_after(s, n, i, 1) == c && char_after(s, n, i, 2) == c;
    Scan {
        mode: 2,
        quote: c,
        triple,
        esc: false,
        qs: 0,
        skip: if triple {
            2
        } else {
            0
        },
        fstr: st2.fstr || f,
        cont: false,
        ..st2
    }
}

fn code_char_exec(st2: Scan, s: &str, n: usize, i: usize, c: char) -> (r: Scan)
    requires
        n == s@.len(),
        bounded(st2),
    ensures
        r == code_char(st2, s@, i as int, c),
        bounded(r),
{
    if c == '\n' {
        Scan { line_start: st2.depth == 0 && !st2.cont && !st2.broken, cont: false, ..st2 }
    } else if c == '\r' {
        st2
    } else if c == '\\' {
        Scan { cont: true, ..st2 }
    } else if c == '#' {
        Scan { mode: 1, cont: false, ..st2 }
    } else if c == '"' || c == '\'' {
        quote_exec(st2, s, n, i, c)
    } else if c == '(' || c == '[' || c == '{' {
        let d = inc_exec(st2.depth);
        Scan { depth: d, seg_depth: if d > st2.seg_depth { d } else { st2.seg_depth }, cont: false, ..st2 }
    } else if c == ')' || c == ']' || c == '}' {
        if st2.depth == 0 {
            Scan { broken: true, cont: false, ..st2 }
        } else {
            Scan { depth: st2.depth - 1, cont: false, ..st2 }
        }
    } else if c == '+' || c == '-' || c == '*' || c == '/' || c == '%' || c == '&' || c == '|' || c
        == '^' || c == '~' || c == '<' || c == '>' || c == '!' || (c == '=' && char_before(s, n, i, 1)
        == '=') {
        Scan { seg_trig: inc_exec(st2.seg_trig), cont: false, ..st2 }
    } else if (('a' <= c && c <= 'z') || ('A' <= c && c <= 'Z') || c == '_') && !st2.in_word {
        Scan { in_word: true, word_start: i, cont: false, ..st2 }
    } else {
        Scan { cont: false, ..st2 }
    }
}

fn line_exec(st1: Scan, s: &str, n: usize, i: usize, c: char) -> (r: Scan)
    requires
        n == s@.len(),
        bounded(st1),
        st1.line_start,
        c != '\n' && c != '\r',
    ensures
        r == (if c == ' ' || c == '\t' || c == '#' || goes_on(s@, i as int) {
            Scan { line_start: false, ..st1 }
        } else {
            Scan { line_start: false, ..split(st1) }
        }),
        bounded(r),
{
    let on = char_at(s, n, i) == 'e' && char_after(s, n, i, 1) == 'l' && ((char_after(s, n, i, 2) == 'i'
        && char_after(s, n, i, 3) == 'f') || (char_after(s, n, i, 2) == 's' && char_after(s, n, i, 3)
        == 'e'));
    if c == ' ' || c == '\t' || c == '#' || on {
        Scan { line_start: false, ..st1 }
    } else {
        Scan { line_start: false, ..split_exec(st1) }
    }
}

fn code_step_exec(st: Scan, s: &str, n: usize, i: usize, c: char) -> (r: Scan)
    requires
        n == s@.len(),
        bounded(st),
    ensures
        r == code_step(st, s@, i as int, c),
        bounded(r),
{
    let st1 = if st.in_word && !is_word_char_exec(c) {
        end_word_exec(st, s, n, i)
    } else {
        st
    };
    let st2 = if st1.line_start && c != '\n' && c != '\r' {
        line_exec(st1, s, n, i, c)
    } else {
        st1
    };
    code_char_exec(st2, s, n, i, c)
}

fn step_exec(st: Scan, s: &str, n: usize, i: usize) -> (r: Scan)
    requires
        n == s@.len(),
        bounded(st),
    ensures
        r == step(st, s@, i as int),
        bounded(r),
{
    let c = char_at(s, n, i);
    if st.skip > 0 {
        Scan { skip: st.skip - 1, ..st }
    } else if st.mode == 1 {
        if c == '\n' {
            let m = Scan { mode: 0, ..st };
            Scan { line_start: m.depth == 0 && !m.cont && !m.broken, cont: false, ..m }
        } else {
            st
        }
    } else if st.mode == 2 {
        string_char_exec(st, c)
    } else {
        code_step_exec(st, s, n, i, c)
    }
}

/// Whether the parser can take `s` without going too deep.
pub fn nesting_within(s: &str) -> (r: bool)
    ensures
        r == nesting_ok(s@),
{
    let n = s.unicode_len();
    let mut st = Scan {
        mode: 0,
        quote: '\0',
        triple: false,
        esc: false,
        qs: 0,
        skip: 0,
        depth: 0,
        broken: false,
        line_start: false,
        cont: false,
        in_word: false,
        word_start: 0,
        seg_depth: 0,
        seg_trig: 0,
        worst: 0,
        fstr: false,
    };
    let mut i: usize = 0;
    while i < n
        invariant
            n == s@.len(),
            i <= n,
            st == scan(s@, i as int),
            bounded(st),
        decreases n - i,
    {
        st = step_exec(st, s, n, i);
        i = i + 1;
    }
    let st1 = if st.mode == 0 && st.in_word {
        end_word_exec(st, s, n, n)
    } else {
        st
    };
    let last = split_exec(st1);
    !st.fstr && last.worst <= NESTING_LIMIT
}

} // verus!
