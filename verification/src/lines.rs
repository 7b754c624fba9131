//! Lines of a byte text: where the newlines are, where each line starts and
//! what it holds. A line ends at a `'\n'` byte (not included); the text after
//! the last newline is one more line, empty when the text ends in a newline.
use vstd::prelude::*;

verus! {

/// The newline byte.
pub open spec fn is_nl(b: u8) -> bool {
    b == 10u8
}

/// Positions of every `'\n'` byte of `s`, in increasing order.
pub open spec fn nl_positions(s: Seq<u8>) -> Seq<int>
    decreases s.len(),
{
    if s.len() == 0 {
        Seq::empty()
    } else {
        let rest = nl_positions(s.drop_last());
        if is_nl(s.last()) {
            rest.push(s.len() - 1)
        } else {
            rest
        }
    }
}

/// Number of newlines in `s`.
pub open spec fn nl_count(s: Seq<u8>) -> nat {
    nl_positions(s).len()
}

/// Number of lines of `s`: one more than its newlines.
pub open spec fn line_count_of(s: Seq<u8>) -> nat {
    nl_count(s) + 1
}

/// Byte offset where line `i` starts: 0 for the first line, one past the
/// `i`-th newline for the others, the end of the text past the last line.
pub open spec fn line_start_of(s: Seq<u8>, i: int) -> int {
    if i <= 0 {
        0
    } else if i <= nl_count(s) {
        nl_positions(s)[i - 1] + 1
    } else {
        s.len() as int
    }
}

/// Byte offset where line `i` ends: its newline, or the end of the text.
pub open spec fn line_end_of(s: Seq<u8>, i: int) -> int {
    if 0 <= i < nl_count(s) {
        nl_positions(s)[i]
    } else {
        s.len() as int
    }
}

/// The bytes of line `i`, without its newline; empty past the last line.
pub open spec fn line_of(s: Seq<u8>, i: int) -> Seq<u8> {
    if i < 0 || i > nl_count(s) {
        Seq::empty()
    } else {
        s.subrange(line_start_of(s, i), line_end_of(s, i))
    }
}

/// A strictly increasing sequence whose entries all lie in `[0, n)`.
pub open spec fn increasing_below(v: Seq<int>, n: int) -> bool {
    &&& forall|j: int, k: int| 0 <= j < k < v.len() ==> v[j] < v[k]
    &&& forall|j: int| 0 <= j < v.len() ==> 0 <= #[trigger] v[j] < n
}

/// Newline positions are increasing, inside the text, and mark newlines.
pub proof fn lemma_nl_positions_shape(s: Seq<u8>)
    ensures
        increasing_below(nl_positions(s), s.len() as int),
        forall|j: int| 0 <= j < nl_positions(s).len() ==> is_nl(s[#[trigger] nl_positions(s)[j]]),
        nl_positions(s).len() <= s.len(),
    decreases s.len(),
{
    if s.len() > 0 {
        lemma_nl_positions_shape(s.drop_last());
        let rest = nl_positions(s.drop_last());
        assert forall|j: int| 0 <= j < rest.len() implies is_nl(s[#[trigger] rest[j]]) by {
            assert(s.drop_last()[rest[j]] == s[rest[j]]);
        }
    }
}

/// Newlines of a concatenation: those of the left part, then those of the
/// right part moved by the length of the left part.
pub proof fn lemma_nl_positions_concat(a: Seq<u8>, b: Seq<u8>)
    ensures
        nl_positions(a + b) =~= nl_positions(a) + nl_positions(b).map_values(|p: int| p + a.len()),
    decreases b.len(),
{
    if b.len() == 0 {
        assert(a + b =~= a);
    } else {
        lemma_nl_positions_concat(a, b.drop_last());
        assert((a + b).drop_last() =~= a + b.drop_last());
        assert((a + b).last() == b.last());
    }
}

/// The newlines of a prefix are a prefix of the newlines.
pub proof fn lemma_nl_positions_take(s: Seq<u8>, x: int)
    requires
        0 <= x <= s.len(),
    ensures
        nl_count(s.take(x)) <= nl_count(s),
        nl_positions(s.take(x)) =~= nl_positions(s).take(nl_count(s.take(x)) as int),
        forall|j: int|
            nl_count(s.take(x)) <= j < nl_count(s) ==> #[trigger] nl_positions(s)[j] >= x,
        forall|j: int| 0 <= j < nl_count(s.take(x)) ==> #[trigger] nl_positions(s)[j] < x,
{
    let t = s.take(x);
    let u = s.skip(x);
    assert(s =~= t + u);
    lemma_nl_positions_concat(t, u);
    lemma_nl_positions_shape(t);
    lemma_nl_positions_shape(u);
    let c = nl_count(t) as int;
    assert forall|j: int| c <= j < nl_count(s) implies #[trigger] nl_positions(s)[j] >= x by {
        assert(nl_positions(s)[j] == nl_positions(u)[j - c] + x);
    }
}

/// Newlines of a sub-range, seen from the whole text.
pub proof fn lemma_nl_positions_subrange(s: Seq<u8>, a: int, b: int)
    requires
        0 <= a <= b <= s.len(),
    ensures
        nl_count(s.take(a)) <= nl_count(s.take(b)),
        nl_count(s.subrange(a, b)) == nl_count(s.take(b)) - nl_count(s.take(a)),
        forall|j: int|
            0 <= j < nl_count(s.subrange(a, b)) ==> #[trigger] nl_positions(s.subrange(a, b))[j]
                == nl_positions(s)[j + nl_count(s.take(a))] - a,
{
    let tb = s.take(b);
    assert(tb =~= s.take(a) + s.subrange(a, b));
    assert(tb.take(a) =~= s.take(a));
    lemma_nl_positions_concat(s.take(a), s.subrange(a, b));
    lemma_nl_positions_take(s, b);
    lemma_nl_positions_take(tb, a);
    let ca = nl_count(s.take(a)) as int;
    let sub = s.subrange(a, b);
    assert forall|j: int| 0 <= j < nl_count(sub) implies #[trigger] nl_positions(sub)[j]
        == nl_positions(s)[j + ca] - a by {
        assert(nl_positions(tb)[j + ca] == nl_positions(sub)[j] + a);
    }
}

/// Appending one byte adds a newline position exactly when it is a newline.
pub proof fn lemma_nl_positions_push(s: Seq<u8>, b: u8)
    ensures
        nl_positions(s.push(b)) == if is_nl(b) {
            nl_positions(s).push(s.len() as int)
        } else {
            nl_positions(s)
        },
{
    assert(s.push(b).drop_last() =~= s);
}

/// Line `i` runs from its start up to the first newline at or after its
/// start, or to the end of the text when there is none.
pub proof fn lemma_line_bounds(s: Seq<u8>, i: int)
    requires
        0 <= i <= nl_count(s),
    ensures
        0 <= line_start_of(s, i) <= line_end_of(s, i) <= s.len(),
        forall|j: int| line_start_of(s, i) <= j < line_end_of(s, i) ==> !is_nl(#[trigger] s[j]),
        line_end_of(s, i) < s.len() ==> is_nl(s[line_end_of(s, i)]),
        i < nl_count(s) ==> line_end_of(s, i) < s.len(),
        i > 0 ==> is_nl(s[line_start_of(s, i) - 1]),
{
    lemma_nl_positions_shape(s);
    let l = nl_positions(s);
    let start = line_start_of(s, i);
    let end = line_end_of(s, i);
    if i > 0 {
        assert(l[i - 1] < s.len());
    }
    if i > 0 && i < nl_count(s) {
        assert(l[i - 1] < l[i]);
    }
    assert forall|j: int| start <= j < end implies !is_nl(#[trigger] s[j]) by {
        if is_nl(s[j]) {
            let x = j + 1;
            lemma_nl_positions_take(s, x);
            assert(s.take(x) =~= s.take(j).push(s[j]));
            lemma_nl_positions_push(s.take(j), s[j]);
            let c = nl_count(s.take(x)) as int;
            assert(c >= 1);
            assert(nl_positions(s.take(x))[c - 1] == j);
            assert(l[c - 1] == j);
            if i > 0 {
                assert(l[i - 1] < x);
                assert(i - 1 < c);
            }
            if i < nl_count(s) {
                assert(l[i] >= x);
                assert(i >= c);
            } else {
                assert(c <= nl_count(s));
            }
            assert(false);
        }
    }
}

/// Lines joined with one newline byte between each two.
pub open spec fn join_lines(ls: Seq<Seq<u8>>) -> Seq<u8>
    decreases ls.len(),
{
    if ls.len() <= 1 {
        if ls.len() == 1 {
            ls[0]
        } else {
            Seq::empty()
        }
    } else {
        join_lines(ls.drop_last()) + seq![10u8] + ls.last()
    }
}

/// The lines of a text, in order.
pub open spec fn lines_of(s: Seq<u8>) -> Seq<Seq<u8>> {
    Seq::new(line_count_of(s), |i: int| line_of(s, i))
}

/// The first `k + 1` lines, joined, are the text up to where line `k` ends.
proof fn lemma_join_prefix(s: Seq<u8>, k: int)
    requires
        0 <= k <= nl_count(s),
    ensures
        join_lines(lines_of(s).take(k + 1)) == s.take(line_end_of(s, k)),
    decreases k,
{
    lemma_line_bounds(s, k);
    lemma_nl_positions_shape(s);
    let ls = lines_of(s).take(k + 1);
    if k == 0 {
        assert(ls =~= seq![line_of(s, 0)]);
        assert(s.take(line_end_of(s, 0)) =~= line_of(s, 0));
    } else {
        lemma_join_prefix(s, k - 1);
        lemma_line_bounds(s, k - 1);
        assert(ls.drop_last() =~= lines_of(s).take(k));
        let e = line_end_of(s, k - 1);
        assert(line_start_of(s, k) == e + 1);
        assert(s[e] == 10u8);
        assert(s.take(line_end_of(s, k)) =~= s.take(e) + seq![10u8] + line_of(s, k));
    }
}

/// A text is its lines joined by newlines.
pub proof fn law_lines_rebuild_text(s: Seq<u8>)
    ensures
        join_lines(lines_of(s)) == s,
        lines_of(s).len() == nl_count(s) + 1,
{
    lemma_join_prefix(s, nl_count(s) as int);
    assert(lines_of(s).take(nl_count(s) + 1 as int) =~= lines_of(s));
    assert(s.take(s.len() as int) =~= s);
}

} // verus!
