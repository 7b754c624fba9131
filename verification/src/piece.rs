//! Piece-table text buffer for super-large files.
//!
//! The file is streamed in as read-only chunks; edits go into a separate
//! append-only "add" buffer. The document is a list of pieces, each a byte
//! range into one of those buffers. Newline offsets are cached per buffer so
//! line lookups are a binary search, not a scan.
use vstd::prelude::*;
use vstd::utf8::*;
use crate::lines::{
    is_nl, lemma_line_bounds, lemma_nl_positions_concat, lemma_nl_positions_push,
    lemma_nl_positions_shape, lemma_nl_positions_subrange, lemma_nl_positions_take, line_count_of,
    line_end_of, line_of, line_start_of, nl_count, nl_positions,
};
use crate::utf8_text::{lemma_newline_boundary, lemma_valid_splice, str_bytes, string_from_utf8};

verus! {

broadcast use vstd::utf8::group_utf8_lib;

/// Byte range into one buffer. `buf == 0` is the add buffer.
#[derive(Clone, Copy)]
struct Piece {
    buf: usize,
    start: usize,
    len: usize,
}

/// The document `d` with the bytes `t` inserted at `offset`, or at its end
/// when `offset` lies past it.
pub open spec fn doc_inserted(d: Seq<u8>, offset: int, t: Seq<u8>) -> Seq<u8> {
    let o = if offset <= d.len() {
        offset
    } else {
        d.len() as int
    };
    d.take(o) + t + d.skip(o)
}

/// The document `d` without the bytes `[start, end)`, each bound stopping
/// at its end; an empty or reversed range removes nothing.
pub open spec fn doc_deleted(d: Seq<u8>, start: int, end: int) -> Seq<u8> {
    if start < end {
        let len = d.len() as int;
        let a = if start <= len {
            start
        } else {
            len
        };
        let b = if end <= len {
            end
        } else {
            len
        };
        d.take(a) + d.skip(b)
    } else {
        d
    }
}

/// Inserting text adds as many lines as the text has newlines, wherever it
/// goes; inserting nothing leaves the document as it was.
pub proof fn law_insert_adds_lines(d: Seq<u8>, offset: int, t: Seq<u8>)
    requires
        0 <= offset,
    ensures
        line_count_of(doc_inserted(d, offset, t)) == line_count_of(d) + nl_count(t),
        t.len() == 0 ==> doc_inserted(d, offset, t) == d,
{
    let o = if offset <= d.len() {
        offset
    } else {
        d.len() as int
    };
    assert(d =~= d.take(o) + d.skip(o));
    lemma_nl_positions_concat(d.take(o), d.skip(o));
    lemma_nl_positions_concat(d.take(o), t);
    lemma_nl_positions_concat(d.take(o) + t, d.skip(o));
    if t.len() == 0 {
        assert(doc_inserted(d, offset, t) =~= d);
    }
}

/// Deleting what was just inserted gives the document back.
pub proof fn law_delete_undoes_insert(d: Seq<u8>, offset: int, t: Seq<u8>)
    requires
        0 <= offset <= d.len(),
    ensures
        doc_deleted(doc_inserted(d, offset, t), offset, offset + t.len()) == d,
{
    let e = doc_inserted(d, offset, t);
    if t.len() > 0 {
        assert(e.take(offset) =~= d.take(offset));
        assert(e.skip(offset + t.len()) =~= d.skip(offset));
    } else {
        assert(e =~= d);
    }
    assert(d =~= d.take(offset) + d.skip(offset));
}

/// Inserting what was just deleted, where it was, gives the document back.
pub proof fn law_insert_undoes_delete(d: Seq<u8>, start: int, end: int)
    requires
        0 <= start <= end <= d.len(),
    ensures
        doc_inserted(doc_deleted(d, start, end), start, d.subrange(start, end)) == d,
{
    let e = doc_deleted(d, start, end);
    if start < end {
        assert(e.take(start) =~= d.take(start));
        assert(e.skip(start) =~= d.skip(end));
    }
    assert(d =~= d.take(start) + d.subrange(start, end) + d.skip(end));
}


pub struct PieceTable {
    /// `buffers[0]` is the append-only edit buffer; the rest are the
    /// file as it was read, one entry per streamed chunk.
    buffers: Vec<Vec<u8>>,
    /// Sorted byte offsets of every '\n' in each buffer.
    newlines: Vec<Vec<usize>>,
    pieces: Vec<Piece>,
}

/// The bytes of `parts`, one part after another.
pub open spec fn concat_parts(parts: Seq<Seq<u8>>) -> Seq<u8>
    decreases parts.len(),
{
    if parts.len() == 0 {
        Seq::empty()
    } else {
        concat_parts(parts.drop_last()) + parts.last()
    }
}

/// The bytes a piece stands for.
spec fn piece_bytes(bufs: Seq<Seq<u8>>, p: Piece) -> Seq<u8> {
    bufs[p.buf as int].subrange(p.start as int, p.start + p.len)
}

/// The document spelled out by a list of pieces.
spec fn doc_of(bufs: Seq<Seq<u8>>, ps: Seq<Piece>) -> Seq<u8>
    decreases ps.len(),
{
    if ps.len() == 0 {
        Seq::empty()
    } else {
        doc_of(bufs, ps.drop_last()) + piece_bytes(bufs, ps.last())
    }
}

/// A piece that lies inside its buffer and is not empty.
spec fn piece_ok(bufs: Seq<Seq<u8>>, p: Piece) -> bool {
    &&& p.buf < bufs.len()
    &&& p.len > 0
    &&& p.start + p.len <= bufs[p.buf as int].len()
}

/// `v` lists exactly the entries of `l`.
spec fn same_ints(v: Seq<usize>, l: Seq<int>) -> bool {
    &&& v.len() == l.len()
    &&& forall|j: int| 0 <= j < v.len() ==> v[j] as int == #[trigger] l[j]
}

proof fn lemma_doc_concat(bufs: Seq<Seq<u8>>, a: Seq<Piece>, b: Seq<Piece>)
    ensures
        doc_of(bufs, a + b) =~= doc_of(bufs, a) + doc_of(bufs, b),
    decreases b.len(),
{
    if b.len() == 0 {
        assert(a + b =~= a);
    } else {
        lemma_doc_concat(bufs, a, b.drop_last());
        assert((a + b).drop_last() =~= a + b.drop_last());
    }
}

proof fn lemma_doc_push(bufs: Seq<Seq<u8>>, a: Seq<Piece>, p: Piece)
    ensures
        doc_of(bufs, a.push(p)) == doc_of(bufs, a) + piece_bytes(bufs, p),
{
    assert(a.push(p).drop_last() =~= a);
}

/// The document is unchanged when the buffers change only where no piece looks.
proof fn lemma_doc_frame(b1: Seq<Seq<u8>>, b2: Seq<Seq<u8>>, ps: Seq<Piece>)
    requires
        forall|i: int| 0 <= i < ps.len() ==> piece_ok(b1, #[trigger] ps[i]),
        forall|i: int|
            0 <= i < ps.len() ==> piece_bytes(b1, #[trigger] ps[i]) == piece_bytes(b2, ps[i]),
    ensures
        doc_of(b1, ps) == doc_of(b2, ps),
    decreases ps.len(),
{
    if ps.len() > 0 {
        lemma_doc_frame(b1, b2, ps.drop_last());
        assert(piece_bytes(b1, ps[ps.len() - 1]) == piece_bytes(b2, ps[ps.len() - 1]));
    }
}

/// The document of the first `i` pieces is a prefix of the whole document.
proof fn lemma_doc_prefix(bufs: Seq<Seq<u8>>, ps: Seq<Piece>, i: int)
    requires
        0 <= i <= ps.len(),
    ensures
        doc_of(bufs, ps) =~= doc_of(bufs, ps.take(i)) + doc_of(bufs, ps.skip(i)),
        doc_of(bufs, ps.take(i)).len() <= doc_of(bufs, ps).len(),
{
    assert(ps =~= ps.take(i) + ps.skip(i));
    lemma_doc_concat(bufs, ps.take(i), ps.skip(i));
}


/// A lower bound over a buffer's newline cache counts the newlines before `x`.
proof fn lemma_lower_bound_counts(buf: Seq<u8>, v: Seq<usize>, x: int, r: int)
    requires
        same_ints(v, nl_positions(buf)),
        0 <= x <= buf.len(),
        0 <= r <= v.len(),
        forall|j: int| 0 <= j < r ==> v[j] < x,
        forall|j: int| r <= j < v.len() ==> v[j] >= x,
    ensures
        r == nl_count(buf.take(x)),
{
    lemma_nl_positions_take(buf, x);
    let c = nl_count(buf.take(x)) as int;
    if r < c {
        assert(v[r] as int == nl_positions(buf)[r]);
    } else if r > c {
        assert(v[c] as int == nl_positions(buf)[c]);
    }
}

/// The newline cache of a well-formed buffer is strictly increasing.
proof fn lemma_cache_increasing(buf: Seq<u8>, v: Seq<usize>)
    requires
        same_ints(v, nl_positions(buf)),
    ensures
        forall|j: int, k: int| 0 <= j < k < v.len() ==> v[j] < v[k],
{
    lemma_nl_positions_shape(buf);
    assert forall|j: int, k: int| 0 <= j < k < v.len() implies v[j] < v[k] by {
        assert(v[j] as int == nl_positions(buf)[j]);
        assert(v[k] as int == nl_positions(buf)[k]);
    }
}

/// The document of the pieces up to and including piece `i`.
proof fn lemma_doc_step(bufs: Seq<Seq<u8>>, ps: Seq<Piece>, i: int)
    requires
        0 <= i < ps.len(),
    ensures
        doc_of(bufs, ps.take(i + 1)) == doc_of(bufs, ps.take(i)) + piece_bytes(bufs, ps[i]),
        doc_of(bufs, ps) =~= doc_of(bufs, ps.take(i + 1)) + doc_of(bufs, ps.skip(i + 1)),
        doc_of(bufs, ps.take(i + 1)).len() <= doc_of(bufs, ps).len(),
{
    assert(ps.take(i + 1) =~= ps.take(i).push(ps[i]));
    lemma_doc_push(bufs, ps.take(i), ps[i]);
    lemma_doc_prefix(bufs, ps, i + 1);
}

/// Newline counts add up over a concatenation.
proof fn lemma_nl_count_concat(a: Seq<u8>, b: Seq<u8>)
    ensures
        nl_count(a + b) == nl_count(a) + nl_count(b),
{
    lemma_nl_positions_concat(a, b);
}


/// Length of the document made by the first `m` pieces.
spec fn prefix_len(bufs: Seq<Seq<u8>>, ps: Seq<Piece>, m: int) -> int {
    doc_of(bufs, ps.take(m)).len() as int
}

/// With non-empty pieces, longer prefixes spell longer documents.
proof fn lemma_prefix_len_increasing(bufs: Seq<Seq<u8>>, ps: Seq<Piece>, m1: int, m2: int)
    requires
        0 <= m1 < m2 <= ps.len(),
        forall|i: int| 0 <= i < ps.len() ==> piece_ok(bufs, #[trigger] ps[i]),
    ensures
        prefix_len(bufs, ps, m1) < prefix_len(bufs, ps, m2),
    decreases m2 - m1,
{
    let t = ps.take(m2);
    lemma_doc_step(bufs, t, m2 - 1);
    assert(t.take(m2 - 1) =~= ps.take(m2 - 1));
    assert(t.take(m2) =~= t);
    assert(piece_ok(bufs, ps[m2 - 1]));
    assert(t[m2 - 1] == ps[m2 - 1]);
    if m1 < m2 - 1 {
        lemma_prefix_len_increasing(bufs, ps, m1, m2 - 1);
    }
}

/// The document of pieces with one piece replaced by two that together
/// spell the same bytes.
proof fn lemma_doc_replace(bufs: Seq<Seq<u8>>, ps: Seq<Piece>, i: int, mid: Seq<Piece>)
    requires
        0 <= i < ps.len(),
        doc_of(bufs, mid) == piece_bytes(bufs, ps[i]),
    ensures
        doc_of(bufs, ps.take(i) + mid + ps.skip(i + 1)) == doc_of(bufs, ps),
{
    lemma_doc_concat(bufs, ps.take(i) + mid, ps.skip(i + 1));
    lemma_doc_concat(bufs, ps.take(i), mid);
    lemma_doc_step(bufs, ps, i);
}

/// Count of entries of an increasing sequence that lie below `x`.
fn lower_bound(v: &Vec<usize>, x: usize) -> (r: usize)
    requires
        forall|j: int, k: int| 0 <= j < k < v@.len() ==> v@[j] < v@[k],
    ensures
        r <= v@.len(),
        forall|j: int| 0 <= j < r ==> v@[j] < x,
        forall|j: int| r <= j < v@.len() ==> v@[j] >= x,
{
    let mut lo: usize = 0;
    let mut hi: usize = v.len();
    while lo < hi
        invariant
            lo <= hi <= v@.len(),
            forall|j: int, k: int| 0 <= j < k < v@.len() ==> v@[j] < v@[k],
            forall|j: int| 0 <= j < lo ==> v@[j] < x,
            forall|j: int| hi <= j < v@.len() ==> v@[j] >= x,
        decreases hi - lo,
    {
        let mid = lo + (hi - lo) / 2;
        if v[mid] < x {
            lo = mid + 1;
        } else {
            hi = mid;
        }
    }
    lo
}

/// Sorted byte offsets of every '\n' in `s`.
fn newline_offsets(s: &[u8]) -> (r: Vec<usize>)
    ensures
        same_ints(r@, nl_positions(s@)),
{
    let mut r: Vec<usize> = Vec::new();
    let mut i: usize = 0;
    while i < s.len()
        invariant
            i <= s@.len(),
            same_ints(r@, nl_positions(s@.take(i as int))),
        decreases s@.len() - i,
    {
        proof {
            assert(s@.take(i + 1) =~= s@.take(i as int).push(s@[i as int]));
            lemma_nl_positions_push(s@.take(i as int), s@[i as int]);
        }
        if s[i] == 10u8 {
            r.push(i);
        }
        i = i + 1;
    }
    assert(s@.take(i as int) =~= s@);
    r
}

impl View for PieceTable {
    type V = Seq<u8>;

    /// The document's bytes.
    closed spec fn view(&self) -> Seq<u8> {
        doc_of(self.bufs(), self.pieces@)
    }
}

impl PieceTable {
    spec fn bufs(&self) -> Seq<Seq<u8>> {
        self.buffers@.map_values(|b: Vec<u8>| b@)
    }

    /// The table is well formed: caches match their buffers, every piece
    /// lies inside its buffer, and the document is valid UTF-8 whose length
    /// leaves room for one more count.
    pub closed spec fn wf(&self) -> bool {
        &&& self.wf_parts()
        &&& self@.len() < usize::MAX
        &&& valid_utf8(self@)
    }

    /// Everything of `wf` but the facts about the document as a whole.
    spec fn wf_parts(&self) -> bool {
        &&& self.buffers@.len() >= 1
        &&& self.newlines@.len() == self.buffers@.len()
        &&& forall|b: int|
            0 <= b < self.buffers@.len() ==> same_ints(
                #[trigger] self.newlines@[b]@,
                nl_positions(self.buffers@[b]@),
            )
        &&& forall|b: int|
            0 <= b < self.buffers@.len() ==> #[trigger] self.buffers@[b]@.len() <= usize::MAX
        &&& forall|i: int| 0 <= i < self.pieces@.len() ==> piece_ok(self.bufs(), #[trigger] self.pieces@[i])
    }

    /// A well formed table holds valid UTF-8 with room for one more count.
    pub proof fn lemma_wf_text(&self)
        requires
            self.wf(),
        ensures
            valid_utf8(self@),
            self@.len() < usize::MAX,
    {
    }

    /// Number of pieces the document is made of.
    pub closed spec fn spec_piece_count(&self) -> nat {
        self.pieces@.len()
    }

    /// An empty document.
    pub fn new() -> (t: Self)
        ensures
            t.wf(),
            t@ == Seq::<u8>::empty(),
    {
        let mut buffers: Vec<Vec<u8>> = Vec::new();
        buffers.push(Vec::new());
        let mut newlines: Vec<Vec<usize>> = Vec::new();
        newlines.push(Vec::new());
        let t = PieceTable { buffers, newlines, pieces: Vec::new() };
        proof {
            assert(t.buffers@[0]@ =~= Seq::<u8>::empty());
            assert(nl_positions(t.buffers@[0]@) =~= Seq::<int>::empty());
        }
        t
    }

    /// A document holding `text`.
    pub fn from_text(text: &str) -> (t: Self)
        requires
            encode_utf8(text@).len() < usize::MAX,
        ensures
            t.wf(),
            t@ == encode_utf8(text@),
    {
        let mut t = Self::new();
        t.push_chunk(text.to_owned());
        assert(Seq::<u8>::empty() + encode_utf8(text@) =~= encode_utf8(text@));
        t
    }

    /// Append a streamed chunk of the file being read at the end of the
    /// document. Correct even if the user already edited earlier content:
    /// not-yet-loaded bytes always belong at the document's end.
    pub fn push_chunk(&mut self, chunk: String)
        requires
            old(self).wf(),
            old(self)@.len() + encode_utf8(chunk@).len() < usize::MAX,
        ensures
            final(self).wf(),
            final(self)@ == old(self)@ + encode_utf8(chunk@),
    {
        let bytes = str_bytes(chunk.as_str());
        if bytes.len() == 0 {
            assert(old(self)@ + encode_utf8(chunk@) =~= old(self)@);
            return;
        }
        let ghost old_bufs = self.bufs();
        let ghost old_doc = self@;
        let nl = newline_offsets(bytes.as_slice());
        self.newlines.push(nl);
        let p = Piece { buf: self.buffers.len(), start: 0, len: bytes.len() };
        self.buffers.push(bytes);
        let ghost new_bufs = self.bufs();
        proof {
            assert(new_bufs =~= old_bufs.push(bytes@));
            assert forall|i: int| 0 <= i < self.pieces@.len() implies piece_bytes(
                old_bufs,
                #[trigger] self.pieces@[i],
            ) == piece_bytes(new_bufs, self.pieces@[i]) by {}
            lemma_doc_frame(old_bufs, new_bufs, self.pieces@);
        }
        self.pieces.push(p);
        proof {
            lemma_doc_push(new_bufs, old(self).pieces@, p);
            assert(piece_bytes(new_bufs, p) =~= bytes@);
            valid_utf8_concat(old_doc, bytes@);
            assert forall|b: int| 0 <= b < self.buffers@.len() implies same_ints(
                #[trigger] self.newlines@[b]@,
                nl_positions(self.buffers@[b]@),
            ) by {
                if b < old(self).buffers@.len() {
                    assert(self.newlines@[b] == old(self).newlines@[b]);
                    assert(self.buffers@[b] == old(self).buffers@[b]);
                }
            }
            assert forall|i: int| 0 <= i < self.pieces@.len() implies piece_ok(
                self.bufs(),
                #[trigger] self.pieces@[i],
            ) by {
                if i < old(self).pieces@.len() {
                    assert(self.pieces@[i] == old(self).pieces@[i]);
                    assert(piece_ok(old_bufs, old(self).pieces@[i]));
                }
            }
        }
    }

    /// Total number of bytes in the document.
    pub fn len_bytes(&self) -> (n: usize)
        requires
            self.wf(),
        ensures
            n == self@.len(),
    {
        let mut total: usize = 0;
        let mut i: usize = 0;
        while i < self.pieces.len()
            invariant
                self.wf(),
                i <= self.pieces@.len(),
                total == doc_of(self.bufs(), self.pieces@.take(i as int)).len(),
            decreases self.pieces@.len() - i,
        {
            proof {
                let ps = self.pieces@;
                assert(ps.take(i + 1) =~= ps.take(i as int).push(ps[i as int]));
                lemma_doc_push(self.bufs(), ps.take(i as int), ps[i as int]);
                lemma_doc_prefix(self.bufs(), ps, i + 1);
                assert(piece_ok(self.bufs(), ps[i as int]));
            }
            total = total + self.pieces[i].len;
            i = i + 1;
        }
        assert(self.pieces@.take(i as int) =~= self.pieces@);
        total
    }


    /// Newlines inside one piece, from the cache of its buffer.
    fn piece_newlines(&self, p: Piece) -> (n: usize)
        requires
            self.wf(),
            piece_ok(self.bufs(), p),
        ensures
            n == nl_count(piece_bytes(self.bufs(), p)),
    {
        let nl = &self.newlines[p.buf];
        let ghost buf = self.buffers@[p.buf as int]@;
        proof {
            assert(self.bufs()[p.buf as int] == buf);
            assert(buf.len() <= usize::MAX);
            assert(same_ints(nl@, nl_positions(buf)));
            lemma_cache_increasing(buf, nl@);
        }
        let hi = lower_bound(nl, p.start + p.len);
        let lo = lower_bound(nl, p.start);
        proof {
            lemma_lower_bound_counts(buf, nl@, p.start + p.len, hi as int);
            lemma_lower_bound_counts(buf, nl@, p.start as int, lo as int);
            lemma_nl_positions_subrange(buf, p.start as int, p.start + p.len);
        }
        hi - lo
    }

    /// Number of newlines in the document.
    pub fn newline_count(&self) -> (n: usize)
        requires
            self.wf(),
        ensures
            n == nl_count(self@),
    {
        let mut total: usize = 0;
        let mut i: usize = 0;
        while i < self.pieces.len()
            invariant
                self.wf(),
                i <= self.pieces@.len(),
                total == nl_count(doc_of(self.bufs(), self.pieces@.take(i as int))),
            decreases self.pieces@.len() - i,
        {
            let p = self.pieces[i];
            proof {
                assert(piece_ok(self.bufs(), self.pieces@[i as int]));
            }
            let n = self.piece_newlines(p);
            proof {
                let ps = self.pieces@;
                lemma_doc_step(self.bufs(), ps, i as int);
                lemma_nl_count_concat(doc_of(self.bufs(), ps.take(i as int)), piece_bytes(self.bufs(), p));
                lemma_nl_count_concat(doc_of(self.bufs(), ps.take(i + 1)), doc_of(self.bufs(), ps.skip(i + 1)));
                lemma_nl_positions_shape(self@);
            }
            total = total + n;
            i = i + 1;
        }
        assert(self.pieces@.take(i as int) =~= self.pieces@);
        total
    }

    /// Number of lines (a trailing newline still counts one final empty line).
    pub fn line_count(&self) -> (n: usize)
        requires
            self.wf(),
        ensures
            n == line_count_of(self@),
    {
        proof {
            lemma_nl_positions_shape(self@);
        }
        self.newline_count() + 1
    }

    /// Global byte offset where line `i` (0-based) starts.
    pub fn line_start(&self, i: usize) -> (r: usize)
        requires
            self.wf(),
        ensures
            r == line_start_of(self@, i as int),
    {
        if i == 0 {
            return 0;
        }
        // Find the (i-1)-th newline; the line starts right after it.
        let k = i - 1;
        let mut seen: usize = 0;
        let mut global: usize = 0;
        let mut idx: usize = 0;
        while idx < self.pieces.len()
            invariant
                self.wf(),
                0 < i,
                k == i - 1,
                idx <= self.pieces@.len(),
                seen <= k,
                seen == nl_count(doc_of(self.bufs(), self.pieces@.take(idx as int))),
                global == doc_of(self.bufs(), self.pieces@.take(idx as int)).len(),
            decreases self.pieces@.len() - idx,
        {
            let p = self.pieces[idx];
            let ghost bufs = self.bufs();
            let ghost ps = self.pieces@;
            proof {
                assert(piece_ok(bufs, ps[idx as int]));
                lemma_doc_step(bufs, ps, idx as int);
                lemma_nl_count_concat(doc_of(bufs, ps.take(idx as int)), piece_bytes(bufs, p));
                lemma_nl_count_concat(doc_of(bufs, ps.take(idx + 1)), doc_of(bufs, ps.skip(idx + 1)));
                lemma_nl_positions_shape(self@);
            }
            let n = self.piece_newlines(p);
            if seen + n > k {
                let nl = &self.newlines[p.buf];
                let ghost buf = self.buffers@[p.buf as int]@;
                proof {
                    assert(bufs[p.buf as int] == buf);
                    assert(buf.len() <= usize::MAX);
                    lemma_cache_increasing(buf, nl@);
                }
                let base = lower_bound(nl, p.start);
                proof {
                    lemma_lower_bound_counts(buf, nl@, p.start as int, base as int);
                    lemma_nl_positions_subrange(buf, p.start as int, p.start + p.len);
                    lemma_nl_positions_take(buf, p.start + p.len);
                    lemma_nl_positions_take(buf, p.start as int);
                    assert(piece_bytes(bufs, p) == buf.subrange(p.start as int, p.start + p.len));
                    assert(n == nl_count(buf.take(p.start + p.len)) - nl_count(buf.take(p.start as int)));
                    assert(nl_count(buf) == nl@.len());
                    assert(base + (k - seen) < nl.len());
                }
                let pos_in_buf = nl[base + (k - seen)];
                proof {
                    let a = doc_of(bufs, ps.take(idx as int));
                    let q = piece_bytes(bufs, p);
                    let b = doc_of(bufs, ps.take(idx + 1));
                    let rest = doc_of(bufs, ps.skip(idx + 1));
                    lemma_nl_positions_concat(a, q);
                    lemma_nl_positions_concat(b, rest);
                    lemma_nl_positions_shape(q);
                    lemma_nl_positions_shape(self@);
                    let j = (k - seen) as int;
                    assert(nl_positions(q)[j] == nl_positions(buf)[j + base] - p.start);
                    assert(nl@[base + j] as int == nl_positions(buf)[base + j]);
                    assert(nl_positions(b)[k as int] == nl_positions(q)[j] + a.len());
                    assert(nl_positions(self@)[k as int] == nl_positions(b)[k as int]);
                }
                return global + (pos_in_buf - p.start) + 1;
            }
            seen = seen + n;
            global = global + p.len;
            idx = idx + 1;
        }
        proof {
            assert(self.pieces@.take(idx as int) =~= self.pieces@);
        }
        self.len_bytes()
    }

    /// The text of line `i`, without its trailing newline.
    pub fn line(&self, i: usize) -> (r: String)
        requires
            self.wf(),
        ensures
            r@ == decode_utf8(line_of(self@, i as int)),
    {
        let start = self.line_start(i);
        let ghost doc = self@;
        let ghost end = line_end_of(doc, i as int);
        proof {
            lemma_nl_positions_shape(doc);
            if i as int <= nl_count(doc) {
                lemma_line_bounds(doc, i as int);
            }
        }
        let mut out: Vec<u8> = Vec::new();
        let mut pos: usize = 0;
        let mut idx: usize = 0;
        while idx < self.pieces.len()
            invariant
                self.wf(),
                doc == self@,
                start == line_start_of(doc, i as int),
                end == line_end_of(doc, i as int),
                i as int <= nl_count(doc) ==> start <= end,
                i as int > nl_count(doc) ==> start == doc.len(),
                idx <= self.pieces@.len(),
                pos == doc_of(self.bufs(), self.pieces@.take(idx as int)).len(),
                pos <= start ==> out@ == Seq::<u8>::empty(),
                pos > start ==> out@ == doc.subrange(start as int, pos as int),
                forall|j: int| start <= j < pos ==> !is_nl(#[trigger] doc[j]),
            decreases self.pieces@.len() - idx,
        {
            let p = self.pieces[idx];
            let ghost bufs = self.bufs();
            let ghost ps = self.pieces@;
            proof {
                assert(piece_ok(bufs, ps[idx as int]));
                lemma_doc_step(bufs, ps, idx as int);
                assert(bufs[p.buf as int] == self.buffers@[p.buf as int]@);
                assert(self.buffers@[p.buf as int]@.len() <= usize::MAX);
                assert forall|t: int| 0 <= t < p.len implies doc[pos + t] == #[trigger] bufs[p.buf as int][p.start + t] by {
                    let a = doc_of(bufs, ps.take(idx as int));
                    let q = piece_bytes(bufs, p);
                    assert(doc_of(bufs, ps.take(idx + 1))[pos + t] == q[t]);
                }
            }
            if pos + p.len <= start {
                pos = pos + p.len;
                idx = idx + 1;
                continue;
            }
            let buf = &self.buffers[p.buf];
            let mut j: usize = if start > pos { start - pos + p.start } else { p.start };
            let end_in_buf = p.start + p.len;
            while j < end_in_buf
                invariant
                    self.wf(),
                    doc == self@,
                    p.start <= j <= end_in_buf,
                    end_in_buf == p.start + p.len,
                    end_in_buf <= buf@.len(),
                    buf@ == bufs[p.buf as int],
                    pos + (j - p.start) >= start,
                    forall|t: int| 0 <= t < p.len ==> doc[pos + t] == #[trigger] bufs[p.buf as int][p.start + t],
                    out@ == doc.subrange(start as int, pos + (j - p.start)),
                    forall|x: int| start <= x < pos + (j - p.start) ==> !is_nl(#[trigger] doc[x]),
                    i as int <= nl_count(doc) ==> start <= end,
                    i as int > nl_count(doc) ==> start == doc.len(),
                    start == line_start_of(doc, i as int),
                    end == line_end_of(doc, i as int),
                    pos + p.len <= doc.len(),
                decreases end_in_buf - j,
            {
                let b = buf[j];
                let ghost at = pos + (j - p.start);
                assert(buf@[j as int] == bufs[p.buf as int][p.start + (j - p.start)]);
                assert(doc[at] == b);
                if b == 10u8 {
                    proof {
                        assert(i as int <= nl_count(doc)) by {
                            if i as int > nl_count(doc) {
                                assert(at >= doc.len());
                            }
                        }
                        lemma_line_bounds(doc, i as int);
                        if at < end {
                            assert(!is_nl(doc[at]));
                        }
                        if at > end {
                            assert(end < doc.len());
                            assert(is_nl(doc[end]));
                        }
                        assert(at == end);
                    }
                    return self.line_bytes_to_string(out, i);
                }
                out.push(b);
                j = j + 1;
                proof {
                    assert(out@ =~= doc.subrange(start as int, pos + (j - p.start)));
                }
            }
            pos = pos + p.len;
            idx = idx + 1;
        }
        proof {
            assert(self.pieces@.take(idx as int) =~= self.pieces@);
            if pos <= start {
                assert(start == doc.len());
                assert(out@ =~= doc.subrange(start as int, doc.len() as int));
            }
            if i as int <= nl_count(doc) {
                lemma_line_bounds(doc, i as int);
                if end < doc.len() {
                    assert(is_nl(doc[end]));
                }
            }
        }
        self.line_bytes_to_string(out, i)
    }

    /// The characters of line `i`, from its bytes.
    fn line_bytes_to_string(&self, out: Vec<u8>, i: usize) -> (r: String)
        requires
            self.wf(),
            out@ == line_of(self@, i as int),
        ensures
            r@ == decode_utf8(line_of(self@, i as int)),
    {
        proof {
            let doc = self@;
            if 0 <= i <= nl_count(doc) {
                lemma_line_bounds(doc, i as int);
                let start = line_start_of(doc, i as int);
                let end = line_end_of(doc, i as int);
                let tail = doc.subrange(start, doc.len() as int);
                if i > 0 {
                    lemma_nl_positions_shape(doc);
                    assert(nl_positions(doc)[i - 1] < doc.len());
                    lemma_newline_boundary(doc, start - 1);
                } else {
                    assert(tail =~= doc);
                }
                if end < doc.len() {
                    assert(tail[end - start] == 10u8);
                    lemma_newline_boundary(tail, end - start);
                    assert(tail.subrange(0, end - start) =~= doc.subrange(start, end));
                } else {
                    assert(tail =~= doc.subrange(start, end));
                }
            }
        }
        string_from_utf8(out)
    }


    /// Split any piece containing `offset` so a piece boundary lands exactly
    /// there; returns the index of the piece that starts at `offset` (or
    /// `pieces.len()` when `offset` is the end of the document).
    fn split_at(&mut self, offset: usize) -> (r: usize)
        requires
            old(self).wf(),
        ensures
            final(self).wf(),
            final(self)@ == old(self)@,
            final(self).buffers == old(self).buffers,
            final(self).newlines == old(self).newlines,
            r <= final(self).pieces@.len(),
            final(self).pieces@.len() >= old(self).pieces@.len(),
            prefix_len(final(self).bufs(), final(self).pieces@, r as int) == if offset
                <= old(self)@.len() {
                offset as int
            } else {
                old(self)@.len() as int
            },
            offset >= old(self)@.len() ==> final(self).pieces@ == old(self).pieces@ && r
                == final(self).pieces@.len(),
            forall|m: int|
                0 <= m <= old(self).pieces@.len() && prefix_len(old(self).bufs(), old(self).pieces@, m)
                    <= offset ==> #[trigger] final(self).pieces@.take(m) == old(self).pieces@.take(m),
    {
        let ghost bufs = self.bufs();
        let ghost ps = self.pieces@;
        let mut pos: usize = 0;
        let mut i: usize = 0;
        while i < self.pieces.len()
            invariant
                self.wf(),
                *self == *old(self),
                bufs == self.bufs(),
                ps == self.pieces@,
                i <= ps.len(),
                pos == prefix_len(bufs, ps, i as int),
                pos <= offset,
            decreases ps.len() - i,
        {
            let p = self.pieces[i];
            proof {
                assert(piece_ok(bufs, ps[i as int]));
                lemma_doc_step(bufs, ps, i as int);
                assert(bufs[p.buf as int].len() == self.buffers@[p.buf as int]@.len());
                assert(self.buffers@[p.buf as int]@.len() <= usize::MAX);
            }
            if offset < pos + p.len {
                if offset == pos {
                    proof {
                        assert forall|m: int|
                            0 <= m <= ps.len() && prefix_len(bufs, ps, m) <= offset implies #[trigger] ps.take(m)
                            == ps.take(m) by {}
                    }
                    return i;
                }
                let cut = offset - pos;
                let left = Piece { buf: p.buf, start: p.start, len: cut };
                let right = Piece { buf: p.buf, start: p.start + cut, len: p.len - cut };
                self.pieces.set(i, left);
                self.pieces.insert(i + 1, right);
                proof {
                    let mid = seq![left, right];
                    let new_ps = self.pieces@;
                    assert(new_ps =~= ps.take(i as int) + mid + ps.skip(i + 1));
                    lemma_doc_push(bufs, seq![left], right);
                    assert(seq![left].push(right) =~= mid);
                    lemma_doc_push(bufs, Seq::<Piece>::empty(), left);
                    assert(Seq::<Piece>::empty().push(left) =~= seq![left]);
                    assert(piece_bytes(bufs, left) + piece_bytes(bufs, right) =~= piece_bytes(bufs, p));
                    lemma_doc_replace(bufs, ps, i as int, mid);
                    assert(self.bufs() == bufs);
                    assert forall|j: int| 0 <= j < new_ps.len() implies piece_ok(
                        self.bufs(),
                        #[trigger] new_ps[j],
                    ) by {
                        if j < i {
                            assert(new_ps[j] == ps[j]);
                        } else if j > i + 1 {
                            assert(new_ps[j] == ps[j - 1]);
                        }
                    }
                    assert(new_ps.take(i + 1) =~= ps.take(i as int).push(left));
                    lemma_doc_push(bufs, ps.take(i as int), left);
                    assert forall|m: int|
                        0 <= m <= ps.len() && prefix_len(bufs, ps, m) <= offset implies #[trigger] new_ps.take(m)
                        == ps.take(m) by {
                        if m > i {
                            lemma_prefix_len_increasing(bufs, ps, i as int, m);
                            if m > i + 1 {
                                lemma_prefix_len_increasing(bufs, ps, i + 1, m);
                            }
                        }
                        assert(new_ps.take(m) =~= ps.take(m));
                    }
                }
                return i + 1;
            }
            pos = pos + p.len;
            i = i + 1;
        }
        proof {
            assert(ps.take(i as int) =~= ps);
            assert forall|m: int|
                0 <= m <= ps.len() && prefix_len(bufs, ps, m) <= offset implies #[trigger] ps.take(m)
                == ps.take(m) by {}
        }
        self.pieces.len()
    }

    /// Insert `text` at the global byte `offset` (must be a char boundary).
    /// An offset past the end inserts at the end.
    pub fn insert(&mut self, offset: usize, text: &str)
        requires
            old(self).wf(),
            old(self)@.len() + encode_utf8(text@).len() < usize::MAX,
            offset >= old(self)@.len() || is_char_boundary(old(self)@, offset as int),
        ensures
            final(self).wf(),
            final(self)@ == doc_inserted(old(self)@, offset as int, encode_utf8(text@)),
    {
        let ghost o = if offset <= old(self)@.len() { offset as int } else { old(self)@.len() as int };
        let ghost old_doc = self@;
        if text.is_empty() {
            proof {
                assert(encode_utf8(text@) =~= Seq::<u8>::empty());
                assert(old_doc =~= old_doc.take(o) + encode_utf8(text@) + old_doc.skip(o));
            }
            return;
        }
        let bytes = str_bytes(text);
        let ghost old_bufs = self.bufs();
        let add_start = self.buffers[0].len();
        self.append_to_add_buffer(&bytes);
        let ghost bufs = self.bufs();
        proof {
            assert forall|i: int| 0 <= i < self.pieces@.len() implies piece_bytes(
                old_bufs,
                #[trigger] self.pieces@[i],
            ) == piece_bytes(bufs, self.pieces@[i]) by {
                let p = self.pieces@[i];
                assert(piece_ok(old_bufs, p));
                if p.buf == 0 {
                    assert(bufs[0].subrange(p.start as int, p.start + p.len) =~= old_bufs[0].subrange(
                        p.start as int,
                        p.start + p.len,
                    ));
                }
            }
            lemma_doc_frame(old_bufs, bufs, self.pieces@);
            assert forall|i: int| 0 <= i < self.pieces@.len() implies piece_ok(
                bufs,
                #[trigger] self.pieces@[i],
            ) by {
                assert(piece_ok(old_bufs, self.pieces@[i]));
            }
            assert(self.wf());
        }
        let i = self.split_at(offset);
        let ghost ps = self.pieces@;
        proof {
            lemma_doc_prefix(bufs, ps, i as int);
            assert(doc_of(bufs, ps.take(i as int)) =~= old_doc.take(o));
            assert(doc_of(bufs, ps.skip(i as int)) =~= old_doc.skip(o));
            if offset >= old_doc.len() {
                is_char_boundary_start_end_of_seq(old_doc);
            }
            lemma_valid_splice(old_doc, o, o, bytes@);
            assert(old_doc.subrange(0, o) =~= old_doc.take(o));
            assert(old_doc.subrange(o, old_doc.len() as int) =~= old_doc.skip(o));
        }
        proof {
            assert(self.bufs()[0].subrange(add_start as int, add_start + bytes@.len()) =~= bytes@);
        }
        self.place_added(i, add_start, bytes.len(), Ghost(bytes@));
    }

    /// Make the document show the add-buffer bytes `[add_start, add_start +
    /// n)` right before piece `i`.
    fn place_added(&mut self, i: usize, add_start: usize, n: usize, Ghost(bytes): Ghost<Seq<u8>>)
        requires
            old(self).wf_parts(),
            i <= old(self).pieces@.len(),
            n == bytes.len(),
            n > 0,
            add_start + n == old(self).bufs()[0].len(),
            old(self).bufs()[0].subrange(add_start as int, add_start + n) == bytes,
        ensures
            final(self).wf_parts(),
            final(self).buffers == old(self).buffers,
            final(self).newlines == old(self).newlines,
            final(self)@ == doc_of(old(self).bufs(), old(self).pieces@.take(i as int)) + bytes + doc_of(
                old(self).bufs(),
                old(self).pieces@.skip(i as int),
            ),
    {
        let ghost bufs = self.bufs();
        let ghost ps = self.pieces@;
        // Typing appends run after run to the add buffer; extend the previous
        // piece instead of growing the piece list one char at a time.
        if i > 0 {
            let prev = self.pieces[i - 1];
            proof {
                assert(piece_ok(bufs, ps[i - 1]));
            }
            if prev.buf == 0 && prev.start + prev.len == add_start {
                let grown = Piece { buf: 0, start: prev.start, len: prev.len + n };
                self.pieces.set(i - 1, grown);
                proof {
                    let new_ps = self.pieces@;
                    assert(new_ps =~= ps.take(i - 1) + seq![grown] + ps.skip(i as int));
                    assert(piece_bytes(bufs, grown) =~= piece_bytes(bufs, prev) + bytes);
                    lemma_doc_step(bufs, ps.take(i as int), i - 1);
                    assert(ps.take(i as int).take(i - 1) =~= ps.take(i - 1));
                    assert(ps.take(i as int).take(i as int) =~= ps.take(i as int));
                    assert(ps.take(i as int)[i - 1] == prev);
                    lemma_doc_push(bufs, ps.take(i - 1), grown);
                    assert(ps.take(i - 1).push(grown) =~= ps.take(i - 1) + seq![grown]);
                    lemma_doc_concat(bufs, ps.take(i - 1) + seq![grown], ps.skip(i as int));
                    self.lemma_pieces_ok_after_set(ps, (i - 1) as int, grown);
                }
                return;
            }
        }
        let piece = Piece { buf: 0, start: add_start, len: n };
        self.pieces.insert(i, piece);
        proof {
            let new_ps = self.pieces@;
            assert(new_ps =~= ps.take(i as int).push(piece) + ps.skip(i as int));
            assert(piece_bytes(bufs, piece) =~= bytes);
            lemma_doc_push(bufs, ps.take(i as int), piece);
            lemma_doc_concat(bufs, ps.take(i as int).push(piece), ps.skip(i as int));
            assert forall|j: int| 0 <= j < new_ps.len() implies piece_ok(self.bufs(), #[trigger] new_ps[j]) by {
                if j < i {
                    assert(new_ps[j] == ps[j]);
                } else if j > i {
                    assert(new_ps[j] == ps[j - 1]);
                }
            }
        }
    }

    /// After replacing one piece by a valid one, every piece is still valid.
    proof fn lemma_pieces_ok_after_set(&self, ps: Seq<Piece>, i: int, p: Piece)
        requires
            0 <= i < ps.len(),
            self.pieces@ == ps.update(i, p),
            piece_ok(self.bufs(), p),
            forall|j: int| 0 <= j < ps.len() ==> piece_ok(self.bufs(), #[trigger] ps[j]),
        ensures
            forall|j: int| 0 <= j < self.pieces@.len() ==> piece_ok(self.bufs(), #[trigger] self.pieces@[j]),
    {
        assert forall|j: int| 0 <= j < self.pieces@.len() implies piece_ok(
            self.bufs(),
            #[trigger] self.pieces@[j],
        ) by {
            if j != i {
                assert(self.pieces@[j] == ps[j]);
            }
        }
    }

    /// Append `bytes` to the add buffer and its newline cache; the pieces
    /// are untouched.
    fn append_to_add_buffer(&mut self, bytes: &Vec<u8>)
        requires
            old(self).wf(),
        ensures
            final(self).pieces == old(self).pieces,
            final(self).buffers@.len() == old(self).buffers@.len(),
            final(self).bufs() == old(self).bufs().update(0, old(self).bufs()[0] + bytes@),
            final(self).buffers@[0]@.len() <= usize::MAX,
            forall|b: int|
                0 <= b < final(self).buffers@.len() ==> same_ints(
                    #[trigger] final(self).newlines@[b]@,
                    nl_positions(final(self).buffers@[b]@),
                ),
            forall|b: int|
                0 <= b < final(self).buffers@.len() ==> #[trigger] final(self).buffers@[b]@.len()
                    <= usize::MAX,
            final(self).newlines@.len() == final(self).buffers@.len(),
    {
        let mut add: Vec<u8> = Vec::new();
        std::mem::swap(&mut add, &mut self.buffers[0]);
        let mut cache: Vec<usize> = Vec::new();
        std::mem::swap(&mut cache, &mut self.newlines[0]);
        let ghost add0 = add@;
        let ghost cache0 = cache@;
        proof {
            assert(add0 == old(self).buffers@[0]@);
            assert(cache0 == old(self).newlines@[0]@);
        }
        let mut j: usize = 0;
        while j < bytes.len()
            invariant
                j <= bytes@.len(),
                add@ == add0 + bytes@.take(j as int),
                same_ints(cache@, nl_positions(add@)),
            decreases bytes@.len() - j,
        {
            let b = bytes[j];
            let at = add.len();
            proof {
                lemma_nl_positions_push(add@, b);
            }
            add.push(b);
            if b == 10u8 {
                cache.push(at);
            }
            j = j + 1;
            proof {
                assert(add@ =~= add0 + bytes@.take(j as int));
            }
        }
        assert(bytes@.take(j as int) =~= bytes@);
        assert(add.len() == add@.len());
        std::mem::swap(&mut add, &mut self.buffers[0]);
        std::mem::swap(&mut cache, &mut self.newlines[0]);
        proof {
            assert(self.bufs() =~= old(self).bufs().update(0, old(self).bufs()[0] + bytes@));
            assert forall|b: int| 0 <= b < self.buffers@.len() implies same_ints(
                #[trigger] self.newlines@[b]@,
                nl_positions(self.buffers@[b]@),
            ) by {
                if b != 0 {
                    assert(self.newlines@[b] == old(self).newlines@[b]);
                    assert(self.buffers@[b] == old(self).buffers@[b]);
                }
            }
            assert forall|b: int| 0 <= b < self.buffers@.len() implies #[trigger] self.buffers@[b]@.len()
                <= usize::MAX by {
                if b != 0 {
                    assert(self.buffers@[b] == old(self).buffers@[b]);
                }
            }
        }
    }

    /// Delete the global byte range (bounds must be char boundaries).
    /// Bounds past the end stop at the end.
    pub fn delete(&mut self, range: std::ops::Range<usize>)
        requires
            old(self).wf(),
            range.start < range.end ==> (range.start >= old(self)@.len() || is_char_boundary(
                old(self)@,
                range.start as int,
            )),
            range.start < range.end ==> (range.end >= old(self)@.len() || is_char_boundary(
                old(self)@,
                range.end as int,
            )),
        ensures
            final(self).wf(),
            final(self)@ == doc_deleted(old(self)@, range.start as int, range.end as int),
    {
        if range.start >= range.end {
            return;
        }
        let ghost doc = self@;
        let ghost len = doc.len() as int;
        let ghost a = if range.start <= len { range.start as int } else { len };
        let ghost b = if range.end <= len { range.end as int } else { len };
        let ghost ps0 = self.pieces@;
        let first = self.split_at(range.start);
        let ghost ps1 = self.pieces@;
        let last = self.split_at(range.end);
        let ghost ps2 = self.pieces@;
        let ghost bufs = self.bufs();
        proof {
            // The pieces before `first` survive the second split.
            if range.start >= len {
                assert(ps2 == ps1);
            } else {
                assert(ps2.take(first as int) == ps1.take(first as int));
            }
            assert(prefix_len(bufs, ps2, first as int) == a) by {
                assert(ps2.take(first as int) == ps1.take(first as int));
            }
            if first > last {
                lemma_prefix_len_increasing(bufs, ps2, last as int, first as int);
            }
        }
        self.remove_pieces(first, last);
        proof {
            lemma_doc_prefix(bufs, ps2, first as int);
            lemma_doc_prefix(bufs, ps2, last as int);
            assert(doc_of(bufs, ps2.take(first as int)) =~= doc.take(a));
            assert(doc_of(bufs, ps2.skip(last as int)) =~= doc.skip(b));
            lemma_doc_concat(bufs, ps2.take(first as int), ps2.skip(last as int));
            if range.start >= len {
                is_char_boundary_start_end_of_seq(doc);
            }
            if range.end >= len {
                is_char_boundary_start_end_of_seq(doc);
            }
            lemma_valid_splice(doc, a, b, Seq::<u8>::empty());
            assert(doc.subrange(0, a) + Seq::<u8>::empty() + doc.subrange(b, len) =~= doc.take(a)
                + doc.skip(b));
        }
    }

    /// Drop the pieces with index in `[first, last)`.
    fn remove_pieces(&mut self, first: usize, last: usize)
        requires
            old(self).wf(),
            first <= last <= old(self).pieces@.len(),
        ensures
            final(self).buffers == old(self).buffers,
            final(self).newlines == old(self).newlines,
            final(self).pieces@ == old(self).pieces@.take(first as int) + old(self).pieces@.skip(
                last as int,
            ),
            forall|i: int| 0 <= i < final(self).pieces@.len() ==> piece_ok(final(self).bufs(), #[trigger] final(self).pieces@[i]),
            forall|b: int|
                0 <= b < final(self).buffers@.len() ==> same_ints(
                    #[trigger] final(self).newlines@[b]@,
                    nl_positions(final(self).buffers@[b]@),
                ),
    {
        let ghost ps = self.pieces@;
        let mut k: usize = first;
        while k < last
            invariant
                first <= k <= last <= ps.len(),
                self.pieces@ == ps.take(first as int) + ps.skip(k as int),
                self.buffers == old(self).buffers,
                self.newlines == old(self).newlines,
            decreases last - k,
        {
            self.pieces.remove(first);
            k = k + 1;
            proof {
                assert(self.pieces@ =~= ps.take(first as int) + ps.skip(k as int));
            }
        }
        proof {
            assert(self.bufs() == old(self).bufs());
            assert forall|i: int| 0 <= i < self.pieces@.len() implies piece_ok(
                self.bufs(),
                #[trigger] self.pieces@[i],
            ) by {
                if i < first {
                    assert(self.pieces@[i] == ps[i]);
                } else {
                    assert(self.pieces@[i] == ps[i - first + last]);
                }
            }
        }
    }

    /// The whole document as bytes.
    pub fn to_bytes(&self) -> (r: Vec<u8>)
        requires
            self.wf(),
        ensures
            r@ == self@,
    {
        let mut out: Vec<u8> = Vec::new();
        let mut i: usize = 0;
        while i < self.pieces.len()
            invariant
                self.wf(),
                i <= self.pieces@.len(),
                out@ == doc_of(self.bufs(), self.pieces@.take(i as int)),
            decreases self.pieces@.len() - i,
        {
            let p = self.pieces[i];
            let ghost bufs = self.bufs();
            proof {
                assert(piece_ok(bufs, self.pieces@[i as int]));
                lemma_doc_step(bufs, self.pieces@, i as int);
                assert(bufs[p.buf as int] == self.buffers@[p.buf as int]@);
                assert(self.buffers@[p.buf as int]@.len() <= usize::MAX);
            }
            let buf = &self.buffers[p.buf];
            let mut j: usize = p.start;
            let stop = p.start + p.len;
            while j < stop
                invariant
                    stop == p.start + p.len,
                    p.start <= j <= p.start + p.len,
                    p.start + p.len <= buf@.len(),
                    buf@ == bufs[p.buf as int],
                    out@ == doc_of(bufs, self.pieces@.take(i as int)) + buf@.subrange(
                        p.start as int,
                        j as int,
                    ),
                decreases stop - j,
            {
                out.push(buf[j]);
                j = j + 1;
                proof {
                    assert(out@ =~= doc_of(bufs, self.pieces@.take(i as int)) + buf@.subrange(
                        p.start as int,
                        j as int,
                    ));
                }
            }
            i = i + 1;
        }
        assert(self.pieces@.take(i as int) =~= self.pieces@);
        out
    }

    /// The document as the byte slices of its pieces, in order: what a
    /// writer is handed one after another to save the document without
    /// copying it whole.
    pub fn slices(&self) -> (r: Vec<&[u8]>)
        requires
            self.wf(),
        ensures
            concat_parts(r@.map_values(|s: &[u8]| s@)) == self@,
    {
        let mut out: Vec<&[u8]> = Vec::new();
        let mut i: usize = 0;
        while i < self.pieces.len()
            invariant
                self.wf(),
                i <= self.pieces@.len(),
                concat_parts(out@.map_values(|s: &[u8]| s@)) == doc_of(self.bufs(), self.pieces@.take(i as int)),
            decreases self.pieces@.len() - i,
        {
            let p = self.pieces[i];
            let ghost bufs = self.bufs();
            proof {
                assert(piece_ok(bufs, self.pieces@[i as int]));
                lemma_doc_step(bufs, self.pieces@, i as int);
                assert(bufs[p.buf as int] == self.buffers@[p.buf as int]@);
            }
            let buf = &self.buffers[p.buf];
            let part = vstd::slice::slice_subrange(buf.as_slice(), p.start, p.start + p.len);
            let ghost before = out@.map_values(|s: &[u8]| s@);
            out.push(part);
            proof {
                assert(out@.map_values(|s: &[u8]| s@) =~= before.push(part@));
                assert(concat_parts(before.push(part@)) == concat_parts(before) + part@) by {
                    assert(before.push(part@).drop_last() =~= before);
                }
            }
            i = i + 1;
        }
        assert(self.pieces@.take(i as int) =~= self.pieces@);
        out
    }

    /// The whole document as text.
    pub fn text(&self) -> (r: String)
        requires
            self.wf(),
        ensures
            r@ == decode_utf8(self@),
    {
        string_from_utf8(self.to_bytes())
    }

    /// Number of pieces the document is made of.
    pub fn piece_count(&self) -> (n: usize)
        ensures
            n == self.spec_piece_count(),
    {
        self.pieces.len()
    }
}

} // verus!
