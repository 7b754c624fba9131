//! Super-large-file editing: a piece-table buffer streamed in from disk,
//! with a cursor that moves and edits by lines and characters. Drawing the
//! buffer, and its scroll position in pixels, are the application's part.
use vstd::prelude::*;
use vstd::utf8::*;
use crate::buck::last_index_of;
use crate::lines::{
    is_nl, lemma_line_bounds, lemma_nl_positions_concat, lemma_nl_positions_shape, line_count_of,
    line_end_of, line_of, line_start_of, nl_count, nl_positions,
};
use crate::piece::PieceTable;
use crate::utf8_text::{
    lemma_after_newline_boundary, lemma_concat_boundary, lemma_encode_concat, lemma_encode_len,
    lemma_newline_boundary, lemma_valid_subrange,
};

verus! {

broadcast use vstd::utf8::group_utf8_lib;

/// One streaming read event.
#[derive(Debug, Clone)]
pub enum Load {
    Chunk(String),
    Done,
    Failed(String),
}

/// Editing and navigation intents. Wheel scrolling, which moves the view
/// by pixels and not the cursor, is handled where the view is drawn.
#[derive(Debug, Clone)]
pub enum Action {
    Insert(String),
    Enter,
    Backspace,
    Delete,
    Left,
    Right,
    Up,
    Down,
    Home,
    End,
    PageUp,
    PageDown,
    Click { line: usize, col: usize },
}

/// The characters of line `i` of the document `d`.
pub open spec fn line_text(d: Seq<u8>, i: int) -> Seq<char> {
    decode_utf8(line_of(d, i))
}

/// The number of characters of line `i`.
pub open spec fn line_len(d: Seq<u8>, i: int) -> int {
    line_text(d, i).len() as int
}

/// A column kept inside line `i`.
pub open spec fn clamped(d: Seq<u8>, i: int, col: int) -> int {
    if col > line_len(d, i) {
        line_len(d, i)
    } else {
        col
    }
}

/// The byte offset of column `c` of line `i`.
pub open spec fn offset_at(d: Seq<u8>, i: int, c: int) -> int {
    line_start_of(d, i) + encode_utf8(line_text(d, i).take(c)).len()
}

/// `d` with the bytes `t` inserted at offset `o`.
pub open spec fn inserted(d: Seq<u8>, o: int, t: Seq<u8>) -> Seq<u8> {
    d.take(o) + t + d.skip(o)
}

/// `d` without the bytes `[a, b)`.
pub open spec fn removed(d: Seq<u8>, a: int, b: int) -> Seq<u8> {
    d.take(a) + d.skip(b)
}

/// A space or a tab.
pub open spec fn is_blank(c: char) -> bool {
    c == ' ' || c == '\t'
}

/// How many spaces and tabs `t` starts with.
pub open spec fn lead_blank(t: Seq<char>) -> nat
    decreases t.len(),
{
    if t.len() > 0 && is_blank(t[0]) {
        1 + lead_blank(t.drop_first())
    } else {
        0
    }
}

/// The indentation a new line gets after Enter at column `c` of line `i`:
/// the spaces and tabs the line starts with, up to the cursor.
pub open spec fn indent_of(d: Seq<u8>, i: int, c: int) -> Seq<char> {
    line_text(d, i).take(lead_blank(line_text(d, i).take(c)) as int)
}

/// The column after typing `s` at column `c`: past the text after its
/// last newline when it has one, else `c` moved by its length.
pub open spec fn col_after_insert(s: Seq<char>, c: int) -> int {
    match last_index_of(s, '\n') {
        Some(k) => s.len() - 1 - k,
        None => c + s.len(),
    }
}

/// Typing `s` at the cursor: the text goes in at the cursor, and the
/// cursor moves past it. Typing nothing changes nothing.
pub open spec fn insert_spec(d: Seq<u8>, line: int, col: int, s: Seq<char>) -> (Seq<u8>, int, int, bool) {
    let c = clamped(d, line, col);
    (
        inserted(d, offset_at(d, line, c), encode_utf8(s)),
        line + nl_count(encode_utf8(s)),
        col_after_insert(s, c),
        s.len() > 0,
    )
}

/// Enter: a newline and the current line's indentation go in at the
/// cursor, and the cursor moves to the start of the new line's text.
pub open spec fn enter_spec(d: Seq<u8>, line: int, col: int) -> (Seq<u8>, int, int, bool) {
    let c = clamped(d, line, col);
    let ind = indent_of(d, line, c);
    (inserted(d, offset_at(d, line, c), encode_utf8(seq!['\n'] + ind)), line + 1, ind.len() as int, true)
}

/// Backspace: the character before the cursor goes, or at the start of a
/// line the newline before it, joining the two lines.
pub open spec fn backspace_spec(d: Seq<u8>, line: int, col: int) -> (Seq<u8>, int, int, bool) {
    let c = clamped(d, line, col);
    let off = offset_at(d, line, c);
    if c > 0 {
        (removed(d, offset_at(d, line, c - 1), off), line, c - 1, true)
    } else if line > 0 {
        (removed(d, off - 1, off), line - 1, line_len(d, line - 1), true)
    } else {
        (d, line, c, false)
    }
}

/// Delete: the character after the cursor goes, or at the end of a line
/// the newline after it, joining the two lines.
pub open spec fn delete_spec(d: Seq<u8>, line: int, col: int) -> (Seq<u8>, int, int, bool) {
    let c = clamped(d, line, col);
    let off = offset_at(d, line, c);
    if off < d.len() {
        if c < line_len(d, line) {
            (removed(d, off, offset_at(d, line, c + 1)), line, c, true)
        } else {
            (removed(d, off, off + 1), line, c, true)
        }
    } else {
        (d, line, c, false)
    }
}

/// What one action does to the document `d` and the cursor at line `line`,
/// column `col`: the new document, line and column, and whether the
/// document changed. `page` is the number of lines a page holds. Edits
/// and moves by character first keep the column inside its line.
pub open spec fn apply_spec(d: Seq<u8>, line: int, col: int, a: Action, page: int) -> (Seq<u8>, int, int, bool) {
    let c = clamped(d, line, col);
    let p = if page > 1 {
        page
    } else {
        1
    };
    match a {
        Action::Insert(s) => insert_spec(d, line, col, s@),
        Action::Enter => enter_spec(d, line, col),
        Action::Backspace => backspace_spec(d, line, col),
        Action::Delete => delete_spec(d, line, col),
        Action::Left => if c > 0 {
            (d, line, c - 1, false)
        } else if line > 0 {
            (d, line - 1, line_len(d, line - 1), false)
        } else {
            (d, line, c, false)
        },
        Action::Right => if c < line_len(d, line) {
            (d, line, c + 1, false)
        } else if line + 1 < line_count_of(d) {
            (d, line + 1, 0, false)
        } else {
            (d, line, c, false)
        },
        Action::Up => (d, if line > 0 { line - 1 } else { 0 }, col, false),
        Action::Down => (d, if line + 1 < line_count_of(d) { line + 1 } else { line }, col, false),
        Action::Home => (d, line, 0, false),
        Action::End => (d, line, line_len(d, line), false),
        Action::PageUp => (d, if line > p { line - p } else { 0 }, col, false),
        Action::PageDown => (
            d,
            if line + p < line_count_of(d) - 1 { line + p } else { line_count_of(d) - 1 },
            col,
            false,
        ),
        Action::Click { line: l, col: cl } => {
            let nl = if l < line_count_of(d) - 1 { l as int } else { line_count_of(d) - 1 };
            (d, nl, clamped(d, nl, cl as int), false)
        },
    }
}

/// Whether the document has room for what `a` may insert.
pub open spec fn fits(d: Seq<u8>, line: int, col: int, a: Action) -> bool {
    match a {
        Action::Insert(s) => d.len() + encode_utf8(s@).len() < usize::MAX,
        Action::Enter => d.len() + 1 + encode_utf8(indent_of(d, line, clamped(d, line, col))).len() < usize::MAX,
        _ => true,
    }
}

/// Newlines of a concatenation add up.
pub proof fn lemma_nl_count_concat(a: Seq<u8>, b: Seq<u8>)
    ensures
        nl_count(a + b) == nl_count(a) + nl_count(b),
{
    lemma_nl_positions_concat(a, b);
}

/// A text without newline bytes has no newlines.
pub proof fn lemma_nl_count_zero(s: Seq<u8>)
    requires
        forall|j: int| 0 <= j < s.len() ==> !is_nl(#[trigger] s[j]),
    ensures
        nl_count(s) == 0,
{
    lemma_nl_positions_shape(s);
    if nl_count(s) > 0 {
        assert(is_nl(s[nl_positions(s)[0]]));
    }
}

/// Where line `i` starts and ends are character boundaries, and what lies
/// between is valid text.
proof fn lemma_line_boundaries(d: Seq<u8>, i: int)
    requires
        valid_utf8(d),
        0 <= i <= nl_count(d),
    ensures
        is_char_boundary(d, line_start_of(d, i)),
        is_char_boundary(d, line_end_of(d, i)),
        valid_utf8(line_of(d, i)),
        line_of(d, i) == d.subrange(line_start_of(d, i), line_end_of(d, i)),
{
    lemma_line_bounds(d, i);
    lemma_nl_positions_shape(d);
    let a = line_start_of(d, i);
    let b = line_end_of(d, i);
    if i > 0 {
        assert(nl_positions(d)[i - 1] >= 0);
        lemma_after_newline_boundary(d, a - 1);
    } else {
        is_char_boundary_start_end_of_seq(d);
    }
    if b < d.len() {
        lemma_newline_boundary(d, b);
    } else {
        is_char_boundary_start_end_of_seq(d);
    }
    lemma_valid_subrange(d, a, b);
}

/// Column `c` of line `i` lies at a character boundary inside the line;
/// one column further lies one character's bytes further; the end of the
/// line is its last column.
pub proof fn lemma_cursor(d: Seq<u8>, i: int, c: int)
    requires
        valid_utf8(d),
        0 <= i <= nl_count(d),
        0 <= c <= line_len(d, i),
    ensures
        line_start_of(d, i) <= offset_at(d, i, c) <= line_end_of(d, i),
        is_char_boundary(d, offset_at(d, i, c)),
        c == line_len(d, i) ==> offset_at(d, i, c) == line_end_of(d, i),
        c < line_len(d, i) ==> offset_at(d, i, c + 1) == offset_at(d, i, c) + encode_utf8(
            line_text(d, i).subrange(c, c + 1),
        ).len(),
        line_len(d, i) <= line_end_of(d, i) - line_start_of(d, i),
        line_end_of(d, i) <= d.len(),
        d.subrange(line_start_of(d, i), offset_at(d, i, c)) == encode_utf8(line_text(d, i).take(c)),
        d.subrange(offset_at(d, i, c), line_end_of(d, i)) == encode_utf8(line_text(d, i).skip(c)),
{
    lemma_line_bounds(d, i);
    lemma_line_boundaries(d, i);
    let a = line_start_of(d, i);
    let b = line_end_of(d, i);
    let l = line_of(d, i);
    let t = line_text(d, i);
    assert(encode_utf8(t) == l);
    lemma_encode_len(t);
    let x = t.take(c);
    let y = t.skip(c);
    assert(t =~= x + y);
    lemma_encode_concat(x, y);
    let p = d.take(a);
    let s = d.skip(b);
    valid_utf8_split(d, a);
    valid_utf8_split(d, b);
    assert(p =~= d.subrange(0, a));
    assert(s =~= d.subrange(b, d.len() as int));
    valid_utf8_concat(p, encode_utf8(x));
    valid_utf8_concat(encode_utf8(y), s);
    assert(encode_utf8(x + y) == l);
    assert(l == d.subrange(a, b));
    assert(d =~= p + d.subrange(a, b) + s);
    assert(d =~= (p + encode_utf8(x)) + (encode_utf8(y) + s));
    lemma_concat_boundary(p + encode_utf8(x), encode_utf8(y) + s);
    assert(d.subrange(a, offset_at(d, i, c)) =~= encode_utf8(x));
    assert(d.subrange(offset_at(d, i, c), b) =~= encode_utf8(y));
    if c == line_len(d, i) {
        assert(x =~= t);
    }
    if c < line_len(d, i) {
        let x1 = t.take(c + 1);
        assert(x1 =~= x + t.subrange(c, c + 1));
        lemma_encode_concat(x, t.subrange(c, c + 1));
    }
}

/// A newline character encodes as the newline byte.
proof fn lemma_encode_newline()
    ensures
        encode_utf8(seq!['\n']) == seq![10u8],
{
    let c = seq!['\n'];
    assert(c[0] as u32 == 10u32);
    assert(has_width_1_encoding(10u32));
    assert((10u32 & 0x7Fu32) as u8 == 10u8) by (bit_vector);
    assert(leading_byte_width_1(10u32) == 10u8);
    assert(encode_scalar(10u32) =~= seq![10u8]);
    assert(c.drop_first() =~= Seq::<char>::empty());
    assert(encode_utf8(c.drop_first()) =~= Seq::<u8>::empty());
    assert(encode_utf8(c) =~= seq![10u8]);
}

/// A single newline byte is one newline.
proof fn lemma_nl_count_newline()
    ensures
        nl_count(seq![10u8]) == 1,
{
    let s = seq![10u8];
    assert(s.drop_last() =~= Seq::<u8>::empty());
    assert(nl_positions(s.drop_last()) =~= Seq::<int>::empty());
    assert(is_nl(s.last()));
    assert(nl_positions(s) =~= seq![0int]);
}

/// Inserting bytes adds their newlines.
proof fn lemma_nl_inserted(d: Seq<u8>, o: int, t: Seq<u8>)
    requires
        0 <= o <= d.len(),
    ensures
        nl_count(inserted(d, o, t)) == nl_count(d) + nl_count(t),
{
    assert(d =~= d.take(o) + d.skip(o));
    lemma_nl_count_concat(d.take(o), d.skip(o));
    lemma_nl_count_concat(d.take(o), t);
    lemma_nl_count_concat(d.take(o) + t, d.skip(o));
}

/// Removing bytes removes their newlines.
proof fn lemma_nl_removed(d: Seq<u8>, a: int, b: int)
    requires
        0 <= a <= b <= d.len(),
    ensures
        nl_count(removed(d, a, b)) + nl_count(d.subrange(a, b)) == nl_count(d),
{
    assert(d =~= d.take(a) + d.subrange(a, b) + d.skip(b));
    lemma_nl_count_concat(d.take(a), d.subrange(a, b));
    lemma_nl_count_concat(d.take(a) + d.subrange(a, b), d.skip(b));
    lemma_nl_count_concat(d.take(a), d.skip(b));
}

/// The newline bytes of a string.
fn count_newlines(s: &str) -> (n: usize)
    ensures
        n == nl_count(encode_utf8(s@)),
{
    let b = s.as_bytes();
    let mut n: usize = 0;
    let mut i: usize = 0;
    proof {
        lemma_nl_positions_shape(b@);
    }
    while i < b.len()
        invariant
            i <= b@.len(),
            n == nl_count(b@.take(i as int)),
            nl_count(b@) <= b@.len(),
        decreases b@.len() - i,
    {
        proof {
            assert(b@.take(i + 1) =~= b@.take(i as int).push(b@[i as int]));
            crate::lines::lemma_nl_positions_push(b@.take(i as int), b@[i as int]);
            crate::lines::lemma_nl_positions_take(b@, i + 1);
        }
        if b[i] == 10 {
            n = n + 1;
        }
        i = i + 1;
    }
    assert(b@.take(i as int) =~= b@);
    n
}

/// Position of the last occurrence of `c` in `s`.
pub(crate) fn last_char(s: &str, c: char) -> (r: Option<usize>)
    ensures
        match r {
            Some(k) => last_index_of(s@, c) == Some(k as int),
            None => last_index_of(s@, c) is None,
        },
{
    let n = s.unicode_len();
    let mut k = n;
    assert(s@.take(n as int) =~= s@);
    while k > 0 && s.get_char(k - 1) != c
        invariant
            k <= n,
            n == s@.len(),
            last_index_of(s@, c) == last_index_of(s@.take(k as int), c),
        decreases k,
    {
        proof {
            assert(s@.take(k - 1) =~= s@.take(k as int).drop_last());
        }
        k = k - 1;
    }
    if k == 0 {
        assert(s@.take(0) =~= Seq::<char>::empty());
        None
    } else {
        assert(s@.take(k as int).last() == c);
        Some(k - 1)
    }
}

/// The bytes of a character other than a newline hold no newline byte.
proof fn lemma_char_no_newline(ch: char)
    requires
        ch != '\n',
    ensures
        nl_count(encode_utf8(seq![ch])) == 0,
{
    let t = encode_utf8(seq![ch]);
    let v = ch as u32;
    assert(seq![ch].drop_first() =~= Seq::<char>::empty());
    assert(encode_utf8(Seq::<char>::empty()) =~= Seq::<u8>::empty());
    assert(seq![ch][0] == ch);
    assert(t =~= encode_scalar(v));
    assert(v != 10u32);
    assert(forall|y: u8| #[trigger] (0x80u8 | y) != 10u8) by (bit_vector);
    assert(forall|y: u8| #[trigger] (0xC0u8 | y) != 10u8) by (bit_vector);
    assert(forall|y: u8| #[trigger] (0xE0u8 | y) != 10u8) by (bit_vector);
    assert(forall|y: u8| #[trigger] (0xF0u8 | y) != 10u8) by (bit_vector);
    if has_width_1_encoding(v) {
        assert(forall|w: u32| w <= 0x7F && w != 10 ==> #[trigger] ((w & 0x7F) as u8) != 10u8) by (bit_vector);
        assert(leading_byte_width_1(v) != 10u8);
    } else if has_width_2_encoding(v) {
        assert(leading_byte_width_2(v) != 10u8);
        assert(last_continuation_byte(v) != 10u8);
    } else if has_width_3_encoding(v) {
        assert(leading_byte_width_3(v) != 10u8);
        assert(second_last_continuation_byte(v) != 10u8);
        assert(last_continuation_byte(v) != 10u8);
    } else {
        assert(leading_byte_width_4(v) != 10u8);
        assert(third_last_continuation_byte(v) != 10u8);
        assert(second_last_continuation_byte(v) != 10u8);
        assert(last_continuation_byte(v) != 10u8);
    }
    assert forall|j: int| 0 <= j < t.len() implies !is_nl(#[trigger] t[j]) by {}
    lemma_nl_count_zero(t);
}

/// Before any offset inside line `i` lie exactly the newlines of the lines
/// above it.
proof fn lemma_newlines_before(d: Seq<u8>, i: int, off: int)
    requires
        0 <= i <= nl_count(d),
        line_start_of(d, i) <= off <= line_end_of(d, i),
    ensures
        nl_count(d.take(off)) == i,
{
    lemma_line_bounds(d, i);
    lemma_nl_positions_shape(d);
    crate::lines::lemma_nl_positions_take(d, off);
    let c0 = nl_count(d.take(off));
    if i > 0 {
        assert(nl_positions(d)[i - 1] < off);
        if c0 <= i - 1 {
            assert(nl_positions(d)[i - 1] >= off);
        }
    }
    if i < nl_count(d) {
        assert(nl_positions(d)[i] == line_end_of(d, i));
        if c0 > i {
            assert(nl_positions(d)[i] < off);
        }
    }
}

/// Typing a character other than a newline inside line `i` leaves the
/// lines as they were but for that character, put in at its column.
proof fn lemma_typed_line(d: Seq<u8>, i: int, c: int, ch: char)
    requires
        valid_utf8(d),
        0 <= i <= nl_count(d),
        0 <= c <= line_len(d, i),
        ch != '\n',
    ensures
        ({
            let off = offset_at(d, i, c);
            let t = encode_utf8(seq![ch]);
            let d1 = inserted(d, off, t);
            &&& nl_count(d1) == nl_count(d)
            &&& line_start_of(d1, i) == line_start_of(d, i)
            &&& line_text(d1, i) == line_text(d, i).take(c) + seq![ch] + line_text(d, i).skip(c)
        }),
{
    lemma_cursor(d, i, c);
    lemma_line_bounds(d, i);
    let off = offset_at(d, i, c);
    let t = encode_utf8(seq![ch]);
    lemma_char_no_newline(ch);
    let a = d.take(off);
    let b = d.skip(off);
    let d1 = inserted(d, off, t);
    assert(d =~= a + b);
    lemma_nl_positions_concat(a, b);
    lemma_nl_positions_concat(a, t);
    lemma_nl_positions_concat(a + t, b);
    lemma_nl_inserted(d, off, t);
    lemma_newlines_before(d, i, off);
    let p = nl_positions(d);
    let p1 = nl_positions(d1);
    assert(nl_positions(a + t) =~= nl_positions(a));
    assert(forall|j: int| 0 <= j < i ==> #[trigger] p1[j] == p[j]);
    assert(forall|j: int| i <= j < nl_count(d) ==> #[trigger] p1[j] == p[j] + t.len());
    let s = line_start_of(d, i);
    let e = line_end_of(d, i);
    assert(line_start_of(d1, i) == s);
    assert(line_end_of(d1, i) == e + t.len());
    let tx = line_text(d, i);
    assert(line_of(d1, i) =~= d.subrange(s, off) + t + d.subrange(off, e));
    lemma_encode_concat(tx.take(c), seq![ch]);
    lemma_encode_concat(tx.take(c) + seq![ch], tx.skip(c));
    assert(line_of(d1, i) == encode_utf8(tx.take(c) + seq![ch] + tx.skip(c)));
}

/// Backspace right after typing a character other than a newline takes it
/// back: the document is as it was, and the cursor at the column where the
/// character was typed.
pub proof fn law_backspace_undoes_typing(d: Seq<u8>, line: int, col: int, ch: char)
    requires
        valid_utf8(d),
        0 <= line < line_count_of(d),
        0 <= col,
        ch != '\n',
    ensures
        ({
            let (d1, l1, c1, _) = insert_spec(d, line, col, seq![ch]);
            backspace_spec(d1, l1, c1) == (d, line, clamped(d, line, col), true)
        }),
{
    let c = clamped(d, line, col);
    let off = offset_at(d, line, c);
    let t = encode_utf8(seq![ch]);
    let d1 = inserted(d, off, t);
    lemma_cursor(d, line, c);
    lemma_char_no_newline(ch);
    lemma_typed_line(d, line, c, ch);
    let tx = line_text(d, line);
    let u = tx.take(c) + seq![ch] + tx.skip(c);
    assert(last_index_of(seq![ch], '\n') is None) by {
        assert(seq![ch].drop_last() =~= Seq::<char>::empty());
        assert(seq![ch].last() == ch);
        assert(last_index_of(Seq::<char>::empty(), '\n') is None);
    }
    assert(insert_spec(d, line, col, seq![ch]) == (d1, line, c + 1, true));
    assert(line_len(d1, line) == tx.len() + 1);
    assert(clamped(d1, line, c + 1) == c + 1);
    assert(u.take(c) =~= tx.take(c));
    assert(u.take(c + 1) =~= tx.take(c) + seq![ch]);
    lemma_encode_concat(tx.take(c), seq![ch]);
    assert(offset_at(d1, line, c) == off);
    assert(offset_at(d1, line, c + 1) == off + t.len());
    assert(removed(d1, off, off + t.len()) =~= d);
}

/// The flag an action gives is exactly whether the document changed.
pub proof fn lemma_apply_dirty(d: Seq<u8>, line: int, col: int, a: Action, page: int)
    requires
        valid_utf8(d),
        0 <= line < line_count_of(d),
        0 <= col,
    ensures
        apply_spec(d, line, col, a, page).3 == (apply_spec(d, line, col, a, page).0 != d),
{
    let c = clamped(d, line, col);
    lemma_cursor(d, line, c);
    let off = offset_at(d, line, c);
    match a {
        Action::Insert(s) => {
            lemma_encode_len(s@);
            if s@.len() == 0 {
                assert(encode_utf8(s@) =~= Seq::<u8>::empty());
                assert(inserted(d, off, encode_utf8(s@)) =~= d);
            } else {
                assert(inserted(d, off, encode_utf8(s@)).len() > d.len());
            }
        },
        Action::Enter => {
            let t = seq!['\n'] + indent_of(d, line, c);
            lemma_encode_len(t);
            assert(inserted(d, off, encode_utf8(t)).len() > d.len());
        },
        Action::Backspace => {
            if c > 0 {
                lemma_cursor(d, line, c - 1);
                lemma_encode_len(line_text(d, line).subrange(c - 1, c));
                assert(removed(d, offset_at(d, line, c - 1), off).len() < d.len());
            } else if line > 0 {
                lemma_line_bounds(d, line);
                lemma_nl_positions_shape(d);
                assert(removed(d, off - 1, off).len() < d.len());
            }
        },
        Action::Delete => {
            if off < d.len() {
                if c < line_len(d, line) {
                    lemma_cursor(d, line, c + 1);
                    lemma_encode_len(line_text(d, line).subrange(c, c + 1));
                    assert(removed(d, off, offset_at(d, line, c + 1)).len() < d.len());
                } else {
                    assert(removed(d, off, off + 1).len() < d.len());
                }
            }
        },
        _ => {},
    }
}

/// The buffer of a large file and its cursor.
pub struct BigBuffer {
    pub table: PieceTable,
    pub line: usize,
    /// Char column within the line (clamped to line length on use).
    pub col: usize,
    /// First visible char column (follows the cursor horizontally).
    pub h_first: usize,
    pub loading: bool,
    pub total_bytes: u64,
    pub loaded_bytes: u64,
}

impl BigBuffer {
    /// The table is well formed and the cursor's line exists.
    pub open spec fn wf(&self) -> bool {
        &&& self.table.wf()
        &&& self.line < line_count_of(self.table@)
    }

    /// An empty buffer about to receive a file of `total_bytes` bytes.
    pub fn new(total_bytes: u64) -> (b: Self)
        ensures
            b.wf(),
            b.table@ == Seq::<u8>::empty(),
            b.line == 0,
            b.col == 0,
            b.h_first == 0,
            b.loading,
            b.total_bytes == total_bytes,
            b.loaded_bytes == 0,
    {
        BigBuffer {
            table: PieceTable::new(),
            line: 0,
            col: 0,
            h_first: 0,
            loading: true,
            total_bytes,
            loaded_bytes: 0,
        }
    }

    /// The number of characters of the cursor's line.
    fn line_chars(&self) -> (n: usize)
        requires
            self.wf(),
        ensures
            n == line_len(self.table@, self.line as int),
    {
        let l = self.table.line(self.line);
        l.as_str().unicode_len()
    }

    /// Keep the column inside the cursor's line.
    fn clamp_col(&mut self)
        requires
            old(self).wf(),
        ensures
            final(self).table == old(self).table,
            final(self).line == old(self).line,
            final(self).col == clamped(old(self).table@, old(self).line as int, old(self).col as int),
            final(self).h_first == old(self).h_first,
            final(self).loading == old(self).loading,
            final(self).total_bytes == old(self).total_bytes,
            final(self).loaded_bytes == old(self).loaded_bytes,
    {
        let n = self.line_chars();
        if self.col > n {
            self.col = n;
        }
    }

    /// The cursor moved to `line` and `col`, nothing else changed.
    pub open spec fn moved(&self, old: BigBuffer, line: int, col: int) -> bool {
        &&& self.table == old.table
        &&& self.line == line
        &&& self.col == col
        &&& self.h_first == old.h_first
        &&& self.loading == old.loading
        &&& self.total_bytes == old.total_bytes
        &&& self.loaded_bytes == old.loaded_bytes
    }

    /// The document became `d` and the cursor moved to `line` and `col`,
    /// nothing else changed.
    pub open spec fn edited(&self, old: BigBuffer, d: Seq<u8>, line: int, col: int) -> bool {
        &&& self.table.wf()
        &&& self.table@ == d
        &&& self.line == line
        &&& self.col == col
        &&& self.h_first == old.h_first
        &&& self.loading == old.loading
        &&& self.total_bytes == old.total_bytes
        &&& self.loaded_bytes == old.loaded_bytes
    }

    /// Type `text` at the cursor.
    fn insert_text(&mut self, text: &str)
        requires
            old(self).wf(),
            old(self).table@.len() + encode_utf8(text@).len() < usize::MAX,
        ensures
            final(self).wf(),
            final(self).edited(
                *old(self),
                insert_spec(old(self).table@, old(self).line as int, old(self).col as int, text@).0,
                insert_spec(old(self).table@, old(self).line as int, old(self).col as int, text@).1,
                insert_spec(old(self).table@, old(self).line as int, old(self).col as int, text@).2,
            ),
    {
        let ghost d = self.table@;
        self.clamp_col();
        let off = self.cursor_offset();
        let nls = count_newlines(text);
        let chars = text.unicode_len();
        let last_nl = last_char(text, '\n');
        proof {
            self.table.lemma_wf_text();
            lemma_cursor(d, self.line as int, self.col as int);
            lemma_nl_positions_shape(d);
            lemma_nl_positions_shape(encode_utf8(text@));
            lemma_encode_len(text@);
            lemma_nl_inserted(d, off as int, encode_utf8(text@));
        }
        self.table.insert(off, text);
        self.line = self.line + nls;
        match last_nl {
            Some(k) => {
                proof {
                    crate::buck::lemma_last_index_bound(text@, '\n');
                }
                self.col = chars - 1 - k;
            },
            None => {
                self.col = self.col + chars;
            },
        }
    }

    /// Break the line at the cursor, carrying the line's indentation over.
    fn enter(&mut self)
        requires
            old(self).wf(),
            fits(old(self).table@, old(self).line as int, old(self).col as int, Action::Enter),
        ensures
            final(self).wf(),
            final(self).edited(
                *old(self),
                enter_spec(old(self).table@, old(self).line as int, old(self).col as int).0,
                enter_spec(old(self).table@, old(self).line as int, old(self).col as int).1,
                enter_spec(old(self).table@, old(self).line as int, old(self).col as int).2,
            ),
    {
        let ghost d = self.table@;
        self.clamp_col();
        let c = self.col;
        let l = self.table.line(self.line);
        let ls = l.as_str();
        let ghost t = line_text(d, self.line as int);
        let ghost u = t.take(c as int);
        proof {
            self.table.lemma_wf_text();
            lemma_cursor(d, self.line as int, c as int);
            assert(u.skip(0) =~= u);
        }
        let mut k: usize = 0;
        while k < c && (ls.get_char(k) == ' ' || ls.get_char(k) == '\t')
            invariant
                ls@ == t,
                c <= t.len(),
                u == t.take(c as int),
                k <= c,
                lead_blank(u) == k + lead_blank(u.skip(k as int)),
            decreases c - k,
        {
            proof {
                assert(u.skip(k as int)[0] == u[k as int]);
                assert(u.skip(k as int).drop_first() =~= u.skip(k + 1));
            }
            k = k + 1;
        }
        proof {
            if k < c {
                assert(u.skip(k as int)[0] == u[k as int]);
            } else {
                assert(u.skip(k as int).len() == 0);
            }
            assert(lead_blank(u) == k);
        }
        let indent = ls.substring_char(0, k);
        let mut text = "\n".to_owned();
        text.append(indent);
        proof {
            reveal_strlit("\n");
            assert(text@ =~= seq!['\n'] + indent_of(d, self.line as int, c as int));
            lemma_encode_concat(seq!['\n'], indent@);
            lemma_encode_newline();
            lemma_nl_count_newline();
            lemma_nl_count_concat(seq![10u8], encode_utf8(indent@));
            lemma_nl_positions_shape(d);
        }
        let off = self.cursor_offset();
        proof {
            lemma_nl_inserted(d, off as int, encode_utf8(text@));
        }
        self.table.insert(off, text.as_str());
        self.line = self.line + 1;
        self.col = k;
    }

    /// Delete the character before the cursor, or join the line with the
    /// one before it.
    #[verifier::spinoff_prover]
    #[verifier::rlimit(40)]
    fn backspace(&mut self) -> (dirty: bool)
        requires
            old(self).wf(),
        ensures
            final(self).wf(),
            final(self).edited(
                *old(self),
                backspace_spec(old(self).table@, old(self).line as int, old(self).col as int).0,
                backspace_spec(old(self).table@, old(self).line as int, old(self).col as int).1,
                backspace_spec(old(self).table@, old(self).line as int, old(self).col as int).2,
            ),
            dirty == backspace_spec(old(self).table@, old(self).line as int, old(self).col as int).3,
    {
        let ghost d = self.table@;
        self.clamp_col();
        let end = self.cursor_offset();
        let i = self.line;
        proof {
            self.table.lemma_wf_text();
            lemma_line_bounds(d, i as int);
            lemma_nl_positions_shape(d);
        }
        if self.col > 0 {
            let c = self.col;
            let l = self.table.line(i);
            let prev = l.as_str().substring_char(c - 1, c).len();
            proof {
                lemma_cursor(d, i as int, c - 1);
                lemma_cursor(d, i as int, c as int);
                let a = offset_at(d, i as int, c - 1);
                assert(forall|j: int| a <= j < end ==> #[trigger] d.subrange(a, end as int)[j - a] == d[j]);
                assert forall|j: int| 0 <= j < d.subrange(a, end as int).len() implies !is_nl(
                    #[trigger] d.subrange(a, end as int)[j],
                ) by {
                    assert(d.subrange(a, end as int)[j] == d[a + j]);
                }
                lemma_nl_count_zero(d.subrange(a, end as int));
                lemma_nl_removed(d, a, end as int);
            }
            self.table.delete(end - prev..end);
            self.col = c - 1;
            true
        } else if i > 0 {
            proof {
                lemma_cursor(d, i as int, 0);
                assert(end == line_start_of(d, i as int));
                assert(is_nl(d[end - 1]));
                lemma_newline_boundary(d, end - 1);
                assert(d.subrange(end - 1, end as int) =~= seq![10u8]);
                lemma_nl_count_newline();
                lemma_nl_removed(d, end - 1, end as int);
            }
            self.line = i - 1;
            self.col = self.line_chars();
            self.table.delete(end - 1..end);
            true
        } else {
            false
        }
    }

    /// Delete the character after the cursor, or join the line with the
    /// one after it.
    fn delete_forward(&mut self) -> (dirty: bool)
        requires
            old(self).wf(),
        ensures
            final(self).wf(),
            final(self).edited(
                *old(self),
                delete_spec(old(self).table@, old(self).line as int, old(self).col as int).0,
                delete_spec(old(self).table@, old(self).line as int, old(self).col as int).1,
                delete_spec(old(self).table@, old(self).line as int, old(self).col as int).2,
            ),
            dirty == delete_spec(old(self).table@, old(self).line as int, old(self).col as int).3,
    {
        let ghost d = self.table@;
        self.clamp_col();
        let start = self.cursor_offset();
        let i = self.line;
        let c = self.col;
        proof {
            self.table.lemma_wf_text();
            lemma_line_bounds(d, i as int);
            lemma_nl_positions_shape(d);
            lemma_cursor(d, i as int, c as int);
        }
        if start < self.table.len_bytes() {
            let n = self.line_chars();
            if c < n {
                let l = self.table.line(i);
                let next = l.as_str().substring_char(c, c + 1).len();
                proof {
                    lemma_cursor(d, i as int, c + 1);
                    let b = offset_at(d, i as int, c + 1);
                    assert forall|j: int| 0 <= j < d.subrange(start as int, b).len() implies !is_nl(
                        #[trigger] d.subrange(start as int, b)[j],
                    ) by {
                        assert(d.subrange(start as int, b)[j] == d[start + j]);
                    }
                    lemma_nl_count_zero(d.subrange(start as int, b));
                    lemma_nl_removed(d, start as int, b);
                }
                self.table.delete(start..start + next);
            } else {
                proof {
                    assert(start == line_end_of(d, i as int));
                    assert(is_nl(d[start as int]));
                    lemma_newline_boundary(d, start as int);
                    lemma_after_newline_boundary(d, start as int);
                    assert(d.subrange(start as int, start + 1) =~= seq![10u8]);
                    lemma_nl_count_newline();
                    lemma_nl_removed(d, start as int, start + 1);
                    assert(i < nl_count(d));
                }
                self.table.delete(start..start + 1);
            }
            true
        } else {
            false
        }
    }

    /// Apply one action; returns whether the document was modified.
    /// `page` is how many lines the view shows.
    pub fn apply(&mut self, action: Action, page: usize) -> (dirty: bool)
        requires
            old(self).wf(),
            fits(old(self).table@, old(self).line as int, old(self).col as int, action),
            action is PageDown ==> old(self).line + if page > 1 {
                page as int
            } else {
                1
            } <= usize::MAX,
        ensures
            final(self).wf(),
            ({
                let (d, l, c, m) = apply_spec(
                    old(self).table@,
                    old(self).line as int,
                    old(self).col as int,
                    action,
                    page as int,
                );
                &&& final(self).edited(*old(self), d, l, c)
                &&& dirty == m
            }),
            dirty == (final(self).table@ != old(self).table@),
    {
        proof {
            self.table.lemma_wf_text();
            lemma_nl_positions_shape(self.table@);
            lemma_apply_dirty(self.table@, self.line as int, self.col as int, action, page as int);
        }
        match action {
            Action::Insert(s) => {
                let typed = s.as_str().unicode_len() > 0;
                self.insert_text(s.as_str());
                typed
            },
            Action::Enter => {
                self.enter();
                true
            },
            Action::Backspace => self.backspace(),
            Action::Delete => self.delete_forward(),
            Action::Left => {
                self.clamp_col();
                if self.col > 0 {
                    self.col = self.col - 1;
                } else if self.line > 0 {
                    self.line = self.line - 1;
                    self.col = self.line_chars();
                }
                false
            },
            Action::Right => {
                self.clamp_col();
                if self.col < self.line_chars() {
                    self.col = self.col + 1;
                } else if self.line + 1 < self.table.line_count() {
                    self.line = self.line + 1;
                    self.col = 0;
                }
                false
            },
            Action::Up => {
                self.line = self.line.saturating_sub(1);
                false
            },
            Action::Down => {
                if self.line + 1 < self.table.line_count() {
                    self.line = self.line + 1;
                }
                false
            },
            Action::Home => {
                self.col = 0;
                false
            },
            Action::End => {
                self.col = self.line_chars();
                false
            },
            Action::PageUp => {
                let p = if page > 1 {
                    page
                } else {
                    1
                };
                self.line = self.line.saturating_sub(p);
                false
            },
            Action::PageDown => {
                let p = if page > 1 {
                    page
                } else {
                    1
                };
                let last = self.table.line_count() - 1;
                let target = self.line + p;
                self.line = if target < last {
                    target
                } else {
                    last
                };
                false
            },
            Action::Click { line, col } => {
                let last = self.table.line_count() - 1;
                self.line = if line < last {
                    line
                } else {
                    last
                };
                self.col = col;
                self.clamp_col();
                false
            },
        }
    }

    /// Keep the cursor's column inside the visible band of `cols` columns,
    /// which leaves 8 columns of room at its right.
    pub fn follow_cursor_h(&mut self, cols: usize)
        requires
            old(self).wf(),
        ensures
            final(self).table == old(self).table,
            final(self).line == old(self).line,
            final(self).col == clamped(old(self).table@, old(self).line as int, old(self).col as int),
            final(self).h_first == ({
                let c = clamped(old(self).table@, old(self).line as int, old(self).col as int);
                if c < old(self).h_first {
                    c
                } else if cols > 8 && c > old(self).h_first + cols - 8 {
                    c + 8 - cols
                } else {
                    old(self).h_first as int
                }
            }),
            final(self).loading == old(self).loading,
            final(self).total_bytes == old(self).total_bytes,
            final(self).loaded_bytes == old(self).loaded_bytes,
    {
        self.clamp_col();
        if self.col < self.h_first {
            self.h_first = self.col;
        } else if cols > 8 && self.col - self.h_first > cols - 8 {
            self.h_first = self.col - (cols - 8);
        }
    }

    /// Byte offset of the cursor, whose column lies inside its line.
    fn cursor_offset(&self) -> (o: usize)
        requires
            self.wf(),
            self.col <= line_len(self.table@, self.line as int),
        ensures
            o == offset_at(self.table@, self.line as int, self.col as int),
            is_char_boundary(self.table@, o as int),
    {
        proof {
            self.table.lemma_wf_text();
            lemma_cursor(self.table@, self.line as int, self.col as int);
        }
        let start = self.table.line_start(self.line);
        let l = self.table.line(self.line);
        let pre = l.as_str().substring_char(0, self.col);
        assert(pre@ =~= line_text(self.table@, self.line as int).take(self.col as int));
        start + pre.len()
    }
}


/// A click puts the cursor on the clicked line, or the last line when the
/// click lies below the text, and on the clicked column kept inside that
/// line: a click within a line lands exactly where it was made. The text
/// does not change.
pub proof fn law_click_lands_where_clicked(d: Seq<u8>, line: int, col: int, l: usize, c: usize, page: int)
    ensures
        ({
            let nl = if l < line_count_of(d) - 1 {
                l as int
            } else {
                line_count_of(d) - 1
            };
            let (d1, l1, c1, m) = apply_spec(d, line, col, Action::Click { line: l, col: c }, page);
            &&& d1 == d
            &&& !m
            &&& l1 == nl
            &&& l1 <= l
            &&& c1 <= c
            &&& c1 <= line_len(d, nl)
            &&& (c <= line_len(d, nl) ==> c1 == c)
            &&& (c > line_len(d, nl) ==> c1 == line_len(d, nl))
        }),
{
}

} // verus!
