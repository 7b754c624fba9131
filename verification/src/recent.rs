//! Recently-opened workspaces: a plain text file in the skyde user dir,
//! one `<name> <path> <epoch-last-opened>` per line. Reading and writing
//! the file and the clock are the application's part; the format and the
//! list's rules are here.
use vstd::prelude::*;
use crate::paths::components;
use crate::strings::{decimal, decimal_string, digit_char, replace_all, replace_str};

verus! {

/// The pieces of `s` between the occurrences of `c`, in order; one more
/// than there are occurrences.
pub open spec fn split_on(s: Seq<char>, c: char) -> Seq<Seq<char>>
    decreases s.len(),
{
    if s.len() == 0 {
        seq![Seq::empty()]
    } else {
        let p = split_on(s.drop_last(), c);
        if s.last() == c {
            p.push(Seq::empty())
        } else {
            p.update(p.len() - 1, p.last().push(s.last()))
        }
    }
}

/// There is always at least one piece.
proof fn lemma_split_nonempty(s: Seq<char>, c: char)
    ensures
        split_on(s, c).len() >= 1,
    decreases s.len(),
{
    if s.len() > 0 {
        lemma_split_nonempty(s.drop_last(), c);
    }
}

/// A line without the `'\r'` of a `"\r\n"` ending.
pub open spec fn strip_cr(l: Seq<char>) -> Seq<char> {
    if l.len() > 0 && l.last() == '\r' {
        l.drop_last()
    } else {
        l
    }
}

/// The lines of a text as `str::lines` gives them: cut at each `'\n'`,
/// without a `'\r'` just before it, and without an empty last line.
pub open spec fn lines_spec(s: Seq<char>) -> Seq<Seq<char>> {
    let p = split_on(s, '\n');
    let init = p.drop_last().map_values(|l: Seq<char>| strip_cr(l));
    if p.last().len() == 0 {
        init
    } else {
        init.push(p.last())
    }
}

/// The pieces, joined by single spaces.
pub open spec fn join_spaces(p: Seq<Seq<char>>) -> Seq<char>
    decreases p.len(),
{
    if p.len() == 0 {
        Seq::empty()
    } else if p.len() == 1 {
        p[0]
    } else {
        join_spaces(p.drop_last()) + " "@ + p.last()
    }
}

/// Whether `c` is an ASCII digit.
pub open spec fn is_digit(c: char) -> bool {
    '0' <= c && c <= '9'
}

/// The value of a string of decimal digits.
pub open spec fn digits_value(d: Seq<char>) -> nat
    decreases d.len(),
{
    if d.len() == 0 {
        0
    } else {
        digits_value(d.drop_last()) * 10 + ((d.last() as int) - ('0' as int)) as nat
    }
}

/// The text after an optional leading `+`.
pub open spec fn unsigned_digits(s: Seq<char>) -> Seq<char> {
    if s.len() > 0 && s[0] == '+' {
        s.drop_first()
    } else {
        s
    }
}

/// Whether every character is a decimal digit.
pub open spec fn all_digits(d: Seq<char>) -> bool {
    forall|i: int| 0 <= i < d.len() ==> is_digit(#[trigger] d[i])
}

/// What `str::parse::<u64>` gives: an optional `+`, then one or more
/// decimal digits whose value fits in a `u64`.
pub open spec fn parse_u64_spec(s: Seq<char>) -> Option<u64> {
    let d = unsigned_digits(s);
    if d.len() > 0 && all_digits(d) && digits_value(d) <= u64::MAX {
        Some(digits_value(d) as u64)
    } else {
        None
    }
}

/// The pieces of `s` between the occurrences of `sep`.
pub fn split_at(s: &str, sep: char) -> (r: Vec<String>)
    ensures
        r@.map_values(|x: String| x@) == split_on(s@, sep),
{
    let n = s.unicode_len();
    let mut done: Vec<String> = Vec::new();
    let mut start: usize = 0;
    let mut i: usize = 0;
    assert(s@.take(0) =~= Seq::<char>::empty());
    assert(done@.map_values(|x: String| x@).push(s@.subrange(0, 0)) =~= split_on(s@.take(0), sep));
    while i < n
        invariant
            n == s@.len(),
            start <= i <= n,
            done@.map_values(|x: String| x@).push(s@.subrange(start as int, i as int)) == split_on(
                s@.take(i as int),
                sep,
            ),
        decreases n - i,
    {
        let c = s.get_char(i);
        let ghost pieces = done@.map_values(|x: String| x@).push(s@.subrange(start as int, i as int));
        proof {
            assert(s@.take(i + 1).drop_last() =~= s@.take(i as int));
            assert(s@.take(i + 1).last() == c);
        }
        if c == sep {
            let piece = s.substring_char(start, i).to_owned();
            let ghost prev = done@;
            done.push(piece);
            proof {
                assert(done@.map_values(|x: String| x@) =~= prev.map_values(|x: String| x@).push(
                    s@.subrange(start as int, i as int),
                ));
                assert(s@.subrange(i + 1, i + 1) =~= Seq::<char>::empty());
            }
            start = i + 1;
        } else {
            proof {
                assert(s@.subrange(start as int, i + 1) =~= s@.subrange(start as int, i as int).push(c));
                assert(done@.map_values(|x: String| x@).push(s@.subrange(start as int, i + 1)) =~= pieces.update(
                    pieces.len() - 1,
                    pieces.last().push(c),
                ));
            }
        }
        i = i + 1;
    }
    let last = s.substring_char(start, n).to_owned();
    let ghost prev = done@;
    done.push(last);
    proof {
        assert(s@.take(n as int) =~= s@);
        assert(done@.map_values(|x: String| x@) =~= prev.map_values(|x: String| x@).push(last@));
    }
    done
}

/// The value of `s` as `str::parse::<u64>` reads it.
pub fn parse_u64(s: &str) -> (r: Option<u64>)
    ensures
        r == parse_u64_spec(s@),
{
    let n = s.unicode_len();
    let mut i: usize = 0;
    if n > 0 && s.get_char(0) == '+' {
        i = 1;
    }
    let ghost d = unsigned_digits(s@);
    assert(d =~= s@.skip(i as int));
    if i == n {
        return None;
    }
    let mut v: u64 = 0;
    let start = i;
    assert(d.take(0) =~= Seq::<char>::empty());
    while i < n
        invariant
            n == s@.len(),
            start <= i <= n,
            start < n,
            d == s@.skip(start as int),
            d == unsigned_digits(s@),
            d.len() > 0,
            forall|j: int| 0 <= j < i - start ==> is_digit(#[trigger] d[j]),
            v == digits_value(d.take(i - start)),
        decreases n - i,
    {
        let c = s.get_char(i);
        assert(d[i - start] == c);
        if !('0' <= c && c <= '9') {
            assert(!is_digit(d[i - start]));
            return None;
        }
        let digit = (c as u32 - '0' as u32) as u64;
        proof {
            assert(d.take(i - start + 1).drop_last() =~= d.take(i - start));
            assert(d.take(i - start + 1).last() == c);
            assert(digits_value(d.take(i - start + 1)) == v * 10 + digit);
        }
        if v > 1844674407370955161 || (v == 1844674407370955161 && digit > 5) {
            proof {
                if all_digits(d) {
                    lemma_digits_grow(d, (i - start + 1) as int);
                }
            }
            return None;
        }
        v = v * 10 + digit;
        i = i + 1;
    }
    assert(d.take(i - start) =~= d);
    Some(v)
}

/// One entry of the recent-workspaces list.
#[derive(Debug)]
pub struct Entry {
    pub name: String,
    pub path: String,
    pub epoch: u64,
}

/// An entry with its strings as characters.
pub struct EntryView {
    pub name: Seq<char>,
    pub path: Seq<char>,
    pub epoch: u64,
}

impl View for Entry {
    type V = EntryView;

    open spec fn view(&self) -> EntryView {
        EntryView { name: self.name@, path: self.path@, epoch: self.epoch }
    }
}

/// The views of a list of entries.
pub open spec fn entry_views(v: Seq<Entry>) -> Seq<EntryView> {
    v.map_values(|e: Entry| e@)
}

/// The entry a line of the file holds: the name is the first field, the
/// epoch the last, and the path everything between (it may hold spaces).
/// A line with fewer than three fields, or whose epoch does not parse,
/// holds none.
pub open spec fn parse_line_spec(line: Seq<char>) -> Option<EntryView> {
    let parts = split_on(line, ' ');
    if parts.len() < 3 {
        None
    } else {
        match parse_u64_spec(parts.last()) {
            None => None,
            Some(epoch) => Some(
                EntryView {
                    name: parts[0],
                    path: join_spaces(parts.subrange(1, parts.len() - 1)),
                    epoch,
                },
            ),
        }
    }
}

/// The entries that the lines `ls` hold, in order.
pub open spec fn parsed_lines(ls: Seq<Seq<char>>) -> Seq<EntryView>
    decreases ls.len(),
{
    if ls.len() == 0 {
        Seq::empty()
    } else {
        let rest = parsed_lines(ls.drop_last());
        match parse_line_spec(ls.last()) {
            Some(e) => rest.push(e),
            None => rest,
        }
    }
}

/// `x` placed into the newest-first list `sorted`, after every entry at
/// least as recent.
pub open spec fn insert_newest(sorted: Seq<EntryView>, x: EntryView) -> Seq<EntryView>
    decreases sorted.len(),
{
    if sorted.len() == 0 {
        seq![x]
    } else if sorted.last().epoch >= x.epoch {
        sorted.push(x)
    } else {
        insert_newest(sorted.drop_last(), x).push(sorted.last())
    }
}

/// The entries newest first; entries opened at the same second keep
/// their order.
pub open spec fn newest_first(s: Seq<EntryView>) -> Seq<EntryView>
    decreases s.len(),
{
    if s.len() == 0 {
        Seq::empty()
    } else {
        insert_newest(newest_first(s.drop_last()), s.last())
    }
}

/// The list a recent-workspaces file holds: the entries of its lines,
/// newest first.
pub open spec fn recents_spec(text: Seq<char>) -> Seq<EntryView> {
    newest_first(parsed_lines(lines_spec(text)))
}

/// The pieces `parts[a..b]`, joined by single spaces.
fn join_range(parts: &Vec<String>, a: usize, b: usize) -> (r: String)
    requires
        a < b <= parts@.len(),
    ensures
        r@ == join_spaces(parts@.map_values(|x: String| x@).subrange(a as int, b as int)),
{
    let ghost ps = parts@.map_values(|x: String| x@);
    let mut out = parts[a].clone();
    let mut k = a + 1;
    assert(ps.subrange(a as int, k as int) =~= seq![ps[a as int]]);
    while k < b
        invariant
            a < k <= b <= parts@.len(),
            ps == parts@.map_values(|x: String| x@),
            out@ == join_spaces(ps.subrange(a as int, k as int)),
        decreases b - k,
    {
        out.append(" ");
        out.append(parts[k].as_str());
        proof {
            let t = ps.subrange(a as int, k + 1);
            assert(t.drop_last() =~= ps.subrange(a as int, k as int));
            assert(t.last() == parts@[k as int]@);
        }
        k = k + 1;
    }
    out
}

/// The entry a line of the file holds.
pub fn parse_line(line: &str) -> (r: Option<Entry>)
    ensures
        match r {
            Some(e) => parse_line_spec(line@) == Some(e@),
            None => parse_line_spec(line@) is None,
        },
{
    let parts = split_at(line, ' ');
    let ghost ps = parts@.map_values(|x: String| x@);
    let n = parts.len();
    if n < 3 {
        return None;
    }
    assert(ps.last() == parts@[n - 1]@);
    let epoch = match parse_u64(parts[n - 1].as_str()) {
        Some(v) => v,
        None => return None,
    };
    let name = parts[0].clone();
    let path = join_range(&parts, 1, n - 1);
    Some(Entry { name, path, epoch })
}

/// A line without the `'\r'` of a `"\r\n"` ending.
fn strip_cr_str(l: &str) -> (r: String)
    ensures
        r@ == strip_cr(l@),
{
    let n = l.unicode_len();
    if n > 0 && l.get_char(n - 1) == '\r' {
        let t = l.substring_char(0, n - 1);
        assert(t@ =~= l@.drop_last());
        t.to_owned()
    } else {
        l.to_owned()
    }
}

/// The lines of a text, as `str::lines` gives them.
pub fn text_lines(text: &str) -> (r: Vec<String>)
    ensures
        r@.map_values(|x: String| x@) == lines_spec(text@),
{
    let p = split_at(text, '\n');
    let ghost ps = p@.map_values(|x: String| x@);
    proof {
        lemma_split_nonempty(text@, '\n');
    }
    let n = p.len();
    let mut out: Vec<String> = Vec::new();
    let mut i: usize = 0;
    while i + 1 < n
        invariant
            ps == p@.map_values(|x: String| x@),
            n == p@.len(),
            n >= 1,
            i < n,
            out@.map_values(|x: String| x@) == ps.take(i as int).map_values(|l: Seq<char>| strip_cr(l)),
        decreases n - i,
    {
        let l = strip_cr_str(p[i].as_str());
        let ghost prev = out@;
        out.push(l);
        proof {
            assert(out@.map_values(|x: String| x@) =~= prev.map_values(|x: String| x@).push(l@));
            assert(ps.take(i + 1) =~= ps.take(i as int).push(ps[i as int]));
            assert(ps.take(i + 1).map_values(|l: Seq<char>| strip_cr(l)) =~= ps.take(i as int).map_values(
                |l: Seq<char>| strip_cr(l),
            ).push(strip_cr(ps[i as int])));
        }
        i = i + 1;
    }
    assert(ps.take(i as int) =~= ps.drop_last());
    let last = &p[n - 1];
    if last.as_str().unicode_len() > 0 {
        let l = last.clone();
        let ghost prev = out@;
        out.push(l);
        assert(out@.map_values(|x: String| x@) =~= prev.map_values(|x: String| x@).push(l@));
    }
    out
}

/// The entries of a list without those for the path `p`, compared by
/// components.
pub open spec fn without_path(s: Seq<EntryView>, p: Seq<char>) -> Seq<EntryView>
    decreases s.len(),
{
    if s.len() == 0 {
        Seq::empty()
    } else {
        let rest = without_path(s.drop_last(), p);
        if components(s.last().path) == components(p) {
            rest
        } else {
            rest.push(s.last())
        }
    }
}

/// The name a workspace is listed under: its directory's name with `-`
/// for each space, or `workspace` when the path has no name.
pub open spec fn workspace_name_spec(file_name: Option<Seq<char>>) -> Seq<char> {
    match file_name {
        Some(n) => replace_all(n, " "@, "-"@),
        None => "workspace"@,
    }
}

/// The list after the workspace at `root` was opened at `now`: its entry
/// first, and no other entry for that path.
pub open spec fn touch_spec(entries: Seq<EntryView>, root: Seq<char>, name: Seq<char>, now: u64) -> Seq<
    EntryView,
> {
    seq![EntryView { name, path: root, epoch: now }] + without_path(entries, root)
}

/// The line of the file that holds an entry.
pub open spec fn entry_line(e: EntryView) -> Seq<char> {
    line_body(e) + "\n"@
}

/// The line of the file that holds an entry, without its newline.
pub open spec fn line_body(e: EntryView) -> Seq<char> {
    e.name + " "@ + e.path + " "@ + decimal(e.epoch as nat)
}

/// The lines of all the entries, one after the other.
pub open spec fn lines_text(s: Seq<EntryView>) -> Seq<char>
    decreases s.len(),
{
    if s.len() == 0 {
        Seq::empty()
    } else {
        lines_text(s.drop_last()) + entry_line(s.last())
    }
}

/// At most how many entries the file keeps.
pub const KEEP: usize = 20;

/// The text of the file for a list: its first `KEEP` entries.
pub open spec fn recents_text_spec(s: Seq<EntryView>) -> Seq<char> {
    lines_text(
        if s.len() > KEEP {
            s.take(KEEP as int)
        } else {
            s
        },
    )
}

/// The age of a time stamp, as the dialog shows it: `just now` under a
/// minute, then whole minutes, hours or days. A stamp in the future is
/// just now.
pub open spec fn ago_spec(epoch: u64, now: u64) -> Seq<char> {
    let dt: int = if now >= epoch {
        now - epoch
    } else {
        0
    };
    if dt < 60 {
        "just now"@
    } else if dt < 3600 {
        decimal((dt / 60) as nat) + "m ago"@
    } else if dt < 86400 {
        decimal((dt / 3600) as nat) + "h ago"@
    } else {
        decimal((dt / 86400) as nat) + "d ago"@
    }
}

/// Reversing the tail from `i` peels off its first item last.
proof fn lemma_reverse_skip<T>(s: Seq<T>, i: int)
    requires
        0 <= i < s.len(),
    ensures
        s.skip(i).reverse() == s.skip(i + 1).reverse().push(s[i]),
{
    assert(s.skip(i).reverse() =~= s.skip(i + 1).reverse().push(s[i]));
}

/// Items pushed on equal sequences are equal, and so are the sequences.
proof fn lemma_push_eq<T>(a: Seq<T>, x: T, b: Seq<T>, y: T)
    requires
        a.push(x) == b.push(y),
    ensures
        a == b,
        x == y,
{
    assert(a =~= a.push(x).drop_last());
    assert(b =~= b.push(y).drop_last());
    assert(a.push(x).last() == x);
    assert(b.push(y).last() == y);
}

/// The items of `v` in reverse order.
fn reversed<T>(v: Vec<T>) -> (r: Vec<T>)
    ensures
        r@ == v@.reverse(),
{
    let mut v = v;
    let ghost orig = v@;
    let mut out: Vec<T> = Vec::new();
    while v.len() > 0
        invariant
            v@.len() <= orig.len(),
            v@ == orig.take(v@.len() as int),
            out@ == orig.skip(v@.len() as int).reverse(),
        decreases v@.len(),
    {
        let ghost before = v@;
        let x = v.pop().unwrap();
        let ghost n = v@.len() as int;
        out.push(x);
        proof {
            assert(before == v@.push(x));
            assert(orig.take(n + 1) =~= orig.take(n).push(orig[n]));
            lemma_push_eq(v@, x, orig.take(n), orig[n]);
            lemma_reverse_skip(orig, n);
        }
    }
    assert(orig.skip(0) =~= orig);
    out
}

/// Where `insert_newest` places `x`: after the entries at least as recent.
proof fn lemma_insert_newest_at(sorted: Seq<EntryView>, x: EntryView, j: int)
    requires
        0 <= j <= sorted.len(),
        forall|k: int| j <= k < sorted.len() ==> (#[trigger] sorted[k]).epoch < x.epoch,
        j > 0 ==> sorted[j - 1].epoch >= x.epoch,
    ensures
        insert_newest(sorted, x) == sorted.insert(j, x),
    decreases sorted.len(),
{
    if sorted.len() == 0 {
        assert(sorted.insert(j, x) =~= seq![x]);
    } else if j == sorted.len() {
        assert(sorted.insert(j, x) =~= sorted.push(x));
    } else {
        let d = sorted.drop_last();
        assert(sorted.last().epoch < x.epoch);
        assert forall|k: int| j <= k < d.len() implies (#[trigger] d[k]).epoch < x.epoch by {
            assert(d[k] == sorted[k]);
        }
        lemma_insert_newest_at(d, x, j);
        assert(d.insert(j, x).push(sorted.last()) =~= sorted.insert(j, x));
    }
}

/// The entries newest first, stably.
fn sort_newest_first(v: Vec<Entry>) -> (r: Vec<Entry>)
    ensures
        entry_views(r@) == newest_first(entry_views(v@)),
{
    let ghost orig = entry_views(v@);
    let mut rest = reversed(v);
    let mut out: Vec<Entry> = Vec::new();
    let ghost total = orig.len();
    assert(orig.take(0) =~= Seq::<EntryView>::empty());
    while rest.len() > 0
        invariant
            orig.len() == total,
            rest@.len() <= total,
            entry_views(rest@) == orig.skip(total - rest@.len()).reverse(),
            entry_views(out@) == newest_first(orig.take(total - rest@.len())),
        decreases rest@.len(),
    {
        let ghost before = rest@;
        let x = rest.pop().unwrap();
        let ghost i = total - before.len();
        proof {
            assert(before == rest@.push(x));
            assert(entry_views(before) =~= entry_views(rest@).push(x@));
            lemma_reverse_skip(orig, i);
            lemma_push_eq(entry_views(rest@), x@, orig.skip(i + 1).reverse(), orig[i]);
            assert(orig.take(i + 1).drop_last() =~= orig.take(i));
        }
        let mut j = out.len();
        while j > 0 && out[j - 1].epoch < x.epoch
            invariant
                j <= out@.len(),
                forall|k: int| j <= k < out@.len() ==> (#[trigger] out@[k]).epoch < x.epoch,
            decreases j,
        {
            j = j - 1;
        }
        let ghost prev = out@;
        proof {
            assert forall|k: int| j <= k < entry_views(prev).len() implies (#[trigger] entry_views(prev)[k]).epoch
                < x.epoch by {
                assert(entry_views(prev)[k] == prev[k]@);
            }
            if j > 0 {
                assert(entry_views(prev)[j - 1] == prev[j - 1]@);
            }
            lemma_insert_newest_at(entry_views(prev), x@, j as int);
        }
        out.insert(j, x);
        proof {
            assert(entry_views(out@) =~= entry_views(prev).insert(j as int, x@));
        }
    }
    assert(orig.take(total as int) =~= orig);
    out
}

/// The list a recent-workspaces file holds, newest first. Lines that do
/// not parse are skipped.
pub fn parse_recents(text: &str) -> (r: Vec<Entry>)
    ensures
        entry_views(r@) == recents_spec(text@),
{
    let ls = text_lines(text);
    let ghost lv = ls@.map_values(|x: String| x@);
    let mut entries: Vec<Entry> = Vec::new();
    let mut i: usize = 0;
    assert(lv.take(0) =~= Seq::<Seq<char>>::empty());
    while i < ls.len()
        invariant
            lv == ls@.map_values(|x: String| x@),
            i <= ls@.len(),
            entry_views(entries@) == parsed_lines(lv.take(i as int)),
        decreases ls@.len() - i,
    {
        proof {
            assert(lv.take(i + 1).drop_last() =~= lv.take(i as int));
            assert(lv.take(i + 1).last() == ls@[i as int]@);
        }
        match parse_line(ls[i].as_str()) {
            Some(e) => {
                let ghost prev = entries@;
                entries.push(e);
                assert(entry_views(entries@) =~= entry_views(prev).push(e@));
            },
            None => {},
        }
        i = i + 1;
    }
    assert(lv.take(i as int) =~= lv);
    sort_newest_first(entries)
}

/// The name a workspace is listed under, from its directory's name.
pub fn workspace_name(file_name: Option<&str>) -> (r: String)
    ensures
        r@ == workspace_name_spec(
            match file_name {
                Some(n) => Some(n@),
                None => None,
            },
        ),
{
    match file_name {
        Some(n) => replace_str(n, " ", "-"),
        None => "workspace".to_owned(),
    }
}

/// Record that the workspace at `root`, whose directory is named
/// `file_name`, was opened at `now`: it moves to the front of `entries`
/// with that time, and no other entry for it stays.
pub fn touch(entries: Vec<Entry>, root: &str, file_name: Option<&str>, now: u64) -> (r: Vec<Entry>)
    ensures
        entry_views(r@) == touch_spec(
            entry_views(entries@),
            root@,
            workspace_name_spec(
                match file_name {
                    Some(n) => Some(n@),
                    None => None,
                },
            ),
            now,
        ),
{
    let name = workspace_name(file_name);
    let ghost ev = entry_views(entries@);
    let mut kept: Vec<Entry> = Vec::new();
    let mut rest = reversed(entries);
    let ghost total = ev.len();
    assert(ev.take(0) =~= Seq::<EntryView>::empty());
    while rest.len() > 0
        invariant
            ev.len() == total,
            rest@.len() <= total,
            entry_views(rest@) == ev.skip(total - rest@.len()).reverse(),
            entry_views(kept@) == without_path(ev.take(total - rest@.len()), root@),
        decreases rest@.len(),
    {
        let ghost before = rest@;
        let e = rest.pop().unwrap();
        let ghost i = total - before.len();
        proof {
            assert(before == rest@.push(e));
            assert(entry_views(before) =~= entry_views(rest@).push(e@));
            lemma_reverse_skip(ev, i);
            lemma_push_eq(entry_views(rest@), e@, ev.skip(i + 1).reverse(), ev[i]);
            assert(ev.take(i + 1).drop_last() =~= ev.take(i));
        }
        if !crate::paths::same_path(e.path.as_str(), root) {
            let ghost prev = kept@;
            kept.push(e);
            assert(entry_views(kept@) =~= entry_views(prev).push(e@));
        }
    }
    assert(ev.take(total as int) =~= ev);
    let first = Entry { name, path: root.to_owned(), epoch: now };
    let ghost k = kept@;
    kept.insert(0, first);
    assert(entry_views(kept@) =~= seq![first@] + entry_views(k));
    kept
}

/// The lines of the entries `s[0..k]`.
fn entry_lines(entries: &Vec<Entry>, k: usize) -> (r: String)
    requires
        k <= entries@.len(),
    ensures
        r@ == lines_text(entry_views(entries@).take(k as int)),
{
    let ghost ev = entry_views(entries@);
    let mut out = String::new();
    let mut i: usize = 0;
    assert(ev.take(0) =~= Seq::<EntryView>::empty());
    while i < k
        invariant
            ev == entry_views(entries@),
            i <= k <= entries@.len(),
            out@ == lines_text(ev.take(i as int)),
        decreases k - i,
    {
        let e = &entries[i];
        out.append(e.name.as_str());
        out.append(" ");
        out.append(e.path.as_str());
        out.append(" ");
        out.append(decimal_string(e.epoch).as_str());
        out.append("\n");
        proof {
            assert(ev.take(i + 1).drop_last() =~= ev.take(i as int));
            assert(ev.take(i + 1).last() == e@);
        }
        i = i + 1;
    }
    out
}

/// The text of the file for a list: its first `KEEP` entries, one line each.
pub fn recents_text(entries: &Vec<Entry>) -> (r: String)
    ensures
        r@ == recents_text_spec(entry_views(entries@)),
{
    let n = entries.len();
    if n > KEEP {
        entry_lines(entries, KEEP)
    } else {
        let r = entry_lines(entries, n);
        assert(entry_views(entries@).take(n as int) =~= entry_views(entries@));
        r
    }
}

/// "3 days ago"-style label for the dialog, for a stamp `epoch` seen at `now`.
pub fn ago(epoch: u64, now: u64) -> (r: String)
    ensures
        r@ == ago_spec(epoch, now),
{
    let dt = now.saturating_sub(epoch);
    if dt < 60 {
        "just now".to_owned()
    } else if dt < 3600 {
        let mut s = decimal_string(dt / 60);
        s.append("m ago");
        s
    } else if dt < 86400 {
        let mut s = decimal_string(dt / 3600);
        s.append("h ago");
        s
    } else {
        let mut s = decimal_string(dt / 86400);
        s.append("d ago");
        s
    }
}

/// Whether entries run from the most recently opened to the least.
pub open spec fn is_newest_first(s: Seq<EntryView>) -> bool {
    forall|i: int, j: int| 0 <= i < j < s.len() ==> (#[trigger] s[i]).epoch >= (#[trigger] s[j]).epoch
}

/// Placing an entry into a newest-first list keeps it newest first and
/// adds just that entry.
proof fn lemma_insert_newest(sorted: Seq<EntryView>, x: EntryView)
    requires
        is_newest_first(sorted),
    ensures
        is_newest_first(insert_newest(sorted, x)),
        insert_newest(sorted, x).to_multiset() == sorted.to_multiset().insert(x),
    decreases sorted.len(),
{
    broadcast use vstd::seq_lib::group_to_multiset_ensures;

    if sorted.len() == 0 {
        assert(insert_newest(sorted, x) =~= sorted.push(x));
    } else if sorted.last().epoch >= x.epoch {
        let r = sorted.push(x);
        assert forall|i: int, j: int| 0 <= i < j < r.len() implies (#[trigger] r[i]).epoch >= (#[trigger] r[j]).epoch by {
            if j == sorted.len() {
                if i < sorted.len() - 1 {
                    assert(sorted[i].epoch >= sorted[sorted.len() - 1].epoch);
                }
            }
        }
    } else {
        let d = sorted.drop_last();
        assert forall|i: int, j: int| 0 <= i < j < d.len() implies (#[trigger] d[i]).epoch >= (#[trigger] d[j]).epoch by {
            assert(d[i] == sorted[i]);
            assert(d[j] == sorted[j]);
        }
        lemma_insert_newest(d, x);
        let it = insert_newest(d, x);
        let r = it.push(sorted.last());
        assert forall|k: int| 0 <= k < it.len() implies (#[trigger] it[k]).epoch >= sorted.last().epoch by {
            assert(it.contains(it[k]));
            assert(it.to_multiset().count(it[k]) > 0);
            assert(d.to_multiset().insert(x).count(it[k]) > 0);
            if it[k] != x {
                assert(d.to_multiset().count(it[k]) > 0);
                let m = choose|m: int| 0 <= m < d.len() && d[m] == it[k];
                assert(sorted[m].epoch >= sorted[sorted.len() - 1].epoch);
            }
        }
        assert forall|i: int, j: int| 0 <= i < j < r.len() implies (#[trigger] r[i]).epoch >= (#[trigger] r[j]).epoch by {
            if j == it.len() {
                assert(r[i] == it[i]);
            } else {
                assert(r[i] == it[i]);
                assert(r[j] == it[j]);
            }
        }
        assert(sorted =~= d.push(sorted.last()));
        assert(d.to_multiset().insert(x).insert(sorted.last()) =~= d.to_multiset().insert(sorted.last()).insert(x));
    }
}

/// The recent list is shown newest first, and holds every entry it was
/// given, as many times as it was given.
pub proof fn law_newest_first(s: Seq<EntryView>)
    ensures
        is_newest_first(newest_first(s)),
        newest_first(s).to_multiset() == s.to_multiset(),
    decreases s.len(),
{
    broadcast use vstd::seq_lib::group_to_multiset_ensures;

    if s.len() > 0 {
        law_newest_first(s.drop_last());
        lemma_insert_newest(newest_first(s.drop_last()), s.last());
        assert(s =~= s.drop_last().push(s.last()));
    } else {
        assert(newest_first(s) =~= s);
    }
}

/// Dropping a path's entries keeps the others, in order, and no entry for it.
proof fn lemma_without_path(s: Seq<EntryView>, p: Seq<char>)
    ensures
        forall|i: int| 0 <= i < without_path(s, p).len() ==> components((#[trigger] without_path(s, p)[i]).path) != components(p),
        forall|e: EntryView| components(e.path) != components(p) && s.contains(e) ==> #[trigger] without_path(s, p).contains(e),
        without_path(s, p).len() <= s.len(),
    decreases s.len(),
{
    if s.len() > 0 {
        lemma_without_path(s.drop_last(), p);
        let r = without_path(s.drop_last(), p);
        assert forall|e: EntryView| components(e.path) != components(p) && s.contains(e) implies #[trigger] without_path(s, p).contains(e) by {
            let k = choose|k: int| 0 <= k < s.len() && s[k] == e;
            if k < s.len() - 1 {
                assert(s.drop_last()[k] == e);
                assert(s.drop_last().contains(e));
                assert(r.contains(e));
                let m = choose|m: int| 0 <= m < r.len() && r[m] == e;
                if components(s.last().path) != components(p) {
                    assert(without_path(s, p) == r.push(s.last()));
                    assert(r.push(s.last())[m] == e);
                } else {
                    assert(without_path(s, p) == r);
                }
            } else {
                assert(without_path(s, p) == r.push(s.last()));
                assert(r.push(s.last())[r.len() as int] == e);
            }
        }
    }
}

/// After a workspace is opened it heads the list with the time it was
/// opened, is listed once, and every other workspace stays listed (paths
/// compared by their components).
pub proof fn law_touch(entries: Seq<EntryView>, root: Seq<char>, name: Seq<char>, now: u64)
    ensures
        touch_spec(entries, root, name, now)[0] == (EntryView { name, path: root, epoch: now }),
        forall|i: int|
            #![trigger touch_spec(entries, root, name, now)[i]]
            0 < i < touch_spec(entries, root, name, now).len() ==> components(
                touch_spec(entries, root, name, now)[i].path,
            ) != components(root),
        forall|e: EntryView|
            components(e.path) != components(root) && entries.contains(e) ==> #[trigger] touch_spec(entries, root, name, now).contains(e),
{
    lemma_without_path(entries, root);
    let t = touch_spec(entries, root, name, now);
    let w = without_path(entries, root);
    assert forall|i: int| 0 < i < t.len() implies components((#[trigger] t[i]).path) != components(root) by {
        assert(t[i] == w[i - 1]);
    }
    assert forall|e: EntryView| components(e.path) != components(root) && entries.contains(e) implies #[trigger] t.contains(e) by {
        assert(w.contains(e));
        let m = choose|m: int| 0 <= m < w.len() && w[m] == e;
        assert(t[m + 1] == e);
    }
}

/// A text without `c` is one piece.
proof fn lemma_split_single(s: Seq<char>, c: char)
    requires
        !s.contains(c),
    ensures
        split_on(s, c) == seq![s],
    decreases s.len(),
{
    if s.len() > 0 {
        assert(!s.drop_last().contains(c)) by {
            if s.drop_last().contains(c) {
                let k = choose|k: int| 0 <= k < s.drop_last().len() && s.drop_last()[k] == c;
                assert(s[k] == c);
            }
        }
        lemma_split_single(s.drop_last(), c);
        assert(s.last() != c);
        assert(s.drop_last().push(s.last()) =~= s);
    } else {
        assert(s =~= Seq::<char>::empty());
    }
}

/// Cutting at an occurrence of `c` splits the pieces there.
proof fn lemma_split_concat(a: Seq<char>, b: Seq<char>, c: char)
    ensures
        split_on(a + seq![c] + b, c) == split_on(a, c) + split_on(b, c),
    decreases b.len(),
{
    lemma_split_nonempty(a, c);
    lemma_split_nonempty(b, c);
    if b.len() == 0 {
        assert(a + seq![c] + b =~= a.push(c));
        assert(a.push(c).drop_last() =~= a);
        assert(split_on(b, c) =~= seq![Seq::<char>::empty()]);
        assert(split_on(a, c).push(Seq::<char>::empty()) =~= split_on(a, c) + split_on(b, c));
    } else {
        let b0 = b.drop_last();
        lemma_split_concat(a, b0, c);
        lemma_split_nonempty(b0, c);
        let x = a + seq![c] + b;
        assert(x.drop_last() =~= a + seq![c] + b0);
        assert(x.last() == b.last());
        let p = split_on(a, c);
        let q = split_on(b0, c);
        if b.last() == c {
            assert((p + q).push(Seq::<char>::empty()) =~= p + q.push(Seq::<char>::empty()));
        } else {
            assert((p + q).update((p + q).len() - 1, (p + q).last().push(b.last())) =~= p + q.update(
                q.len() - 1,
                q.last().push(b.last()),
            ));
        }
    }
}

/// Joining the pieces between the spaces gives the text back.
proof fn lemma_join_split(s: Seq<char>)
    ensures
        join_spaces(split_on(s, ' ')) == s,
    decreases s.len(),
{
    if s.len() > 0 {
        let t = s.drop_last();
        lemma_join_split(t);
        lemma_split_nonempty(t, ' ');
        let p = split_on(t, ' ');
        if s.last() == ' ' {
            let q = p.push(Seq::<char>::empty());
            assert(q.drop_last() =~= p);
            assert(join_spaces(q) =~= t + " "@);
            assert(t + " "@ =~= s) by {
                reveal_strlit(" ");
            }
        } else {
            let q = p.update(p.len() - 1, p.last().push(s.last()));
            if p.len() == 1 {
                assert(join_spaces(p) == p[0]);
                assert(join_spaces(q) == q[0]);
                assert(q[0] =~= t.push(s.last()));
            } else {
                assert(q.drop_last() =~= p.drop_last());
                assert(join_spaces(q) =~= join_spaces(p.drop_last()) + " "@ + p.last().push(s.last()));
                assert(join_spaces(q) =~= join_spaces(p).push(s.last()));
            }
            assert(t.push(s.last()) =~= s);
        }
    } else {
        assert(split_on(s, ' ') =~= seq![Seq::<char>::empty()]);
    }
}

/// A decimal digit character stands for its value.
proof fn lemma_digit_char(d: nat)
    requires
        d < 10,
    ensures
        is_digit(digit_char(d)),
        (digit_char(d) as int) - ('0' as int) == d,
{
}

/// The decimal writing of a number is made of digits worth that number.
proof fn lemma_decimal_digits(n: nat)
    ensures
        decimal(n).len() > 0,
        all_digits(decimal(n)),
        digits_value(decimal(n)) == n,
    decreases n,
{
    if n < 10 {
        lemma_digit_char(n);
        let d = decimal(n);
        assert(d.drop_last() =~= Seq::<char>::empty());
        assert(digits_value(d.drop_last()) == 0);
        assert(d.last() == digit_char(n));
        assert(digits_value(d) == ((digit_char(n) as int) - ('0' as int)) as nat);
    } else {
        lemma_decimal_digits(n / 10);
        lemma_digit_char(n % 10);
        let d = decimal(n);
        assert(d.drop_last() =~= decimal(n / 10));
        assert(d.last() == digit_char(n % 10));
        assert((n / 10) * 10 + n % 10 == n) by (nonlinear_arith);
        assert(digits_value(d) == digits_value(decimal(n / 10)) * 10 + ((digit_char(n % 10) as int) - ('0' as int)) as nat);
    }
}

/// A number written in decimal reads back as itself.
proof fn lemma_parse_decimal(n: u64)
    ensures
        parse_u64_spec(decimal(n as nat)) == Some(n),
        !decimal(n as nat).contains(' '),
        !decimal(n as nat).contains('\n'),
        decimal(n as nat).last() != '\r',
{
    lemma_decimal_digits(n as nat);
    let d = decimal(n as nat);
    assert(is_digit(d[0]));
    assert(unsigned_digits(d) == d);
    if d.contains(' ') {
        let k = choose|k: int| 0 <= k < d.len() && d[k] == ' ';
        assert(is_digit(d[k]));
    }
    if d.contains('\n') {
        let k = choose|k: int| 0 <= k < d.len() && d[k] == '\n';
        assert(is_digit(d[k]));
    }
    assert(is_digit(d[d.len() - 1]));
}

/// An entry that its line can hold: its name has no space and neither its
/// name nor its path a newline.
pub open spec fn storable(e: EntryView) -> bool {
    &&& !e.name.contains(' ')
    &&& !e.name.contains('\n')
    &&& !e.path.contains('\n')
}

/// The line of a storable entry reads back as that entry.
proof fn lemma_line_round_trip(e: EntryView)
    requires
        storable(e),
    ensures
        parse_line_spec(line_body(e)) == Some(e),
        !line_body(e).contains('\n'),
        line_body(e).last() != '\r',
{
    reveal_strlit(" ");
    let d = decimal(e.epoch as nat);
    lemma_parse_decimal(e.epoch);
    lemma_split_single(e.name, ' ');
    lemma_split_single(d, ' ');
    let b = line_body(e);
    assert(b =~= e.name + seq![' '] + (e.path + seq![' '] + d));
    lemma_split_concat(e.name, e.path + seq![' '] + d, ' ');
    lemma_split_concat(e.path, d, ' ');
    let ps = split_on(e.path, ' ');
    lemma_split_nonempty(e.path, ' ');
    let parts = split_on(b, ' ');
    assert(parts =~= seq![e.name] + ps + seq![d]);
    assert(parts.subrange(1, parts.len() - 1) =~= ps);
    lemma_join_split(e.path);
    if b.contains('\n') {
        let k = choose|k: int| 0 <= k < b.len() && b[k] == '\n';
        if k < e.name.len() {
            assert(e.name[k] == '\n');
        } else if k == e.name.len() {
        } else if k < e.name.len() + 1 + e.path.len() {
            assert(e.path[k - e.name.len() - 1] == '\n');
        } else if k == e.name.len() + 1 + e.path.len() {
        } else {
            assert(d[k - e.name.len() - 2 - e.path.len()] == '\n');
        }
    }
    assert(b.last() == d.last());
}

/// The lines of several storable entries, one after the other.
proof fn lemma_lines_text_split(s: Seq<EntryView>)
    requires
        s.len() > 0,
        forall|i: int| 0 <= i < s.len() ==> storable(#[trigger] s[i]),
    ensures
        lines_text(s) == lines_text(s.drop_last()) + line_body(s.last()) + seq!['\n'],
        split_on(lines_text(s.drop_last()) + line_body(s.last()), '\n') == s.map_values(
            |e: EntryView| line_body(e),
        ),
    decreases s.len(),
{
    reveal_strlit("\n");
    let t = s.drop_last();
    lemma_line_round_trip(s.last());
    assert(lines_text(s) =~= lines_text(t) + line_body(s.last()) + seq!['\n']);
    if t.len() == 0 {
        assert(lines_text(t) =~= Seq::<char>::empty());
        assert(lines_text(t) + line_body(s.last()) =~= line_body(s.last()));
        lemma_split_single(line_body(s.last()), '\n');
        assert(s.map_values(|e: EntryView| line_body(e)) =~= seq![line_body(s.last())]);
    } else {
        assert forall|i: int| 0 <= i < t.len() implies storable(#[trigger] t[i]) by {
            assert(t[i] == s[i]);
        }
        lemma_lines_text_split(t);
        let z = lines_text(t.drop_last()) + line_body(t.last());
        assert(lines_text(t) + line_body(s.last()) =~= z + seq!['\n'] + line_body(s.last()));
        lemma_split_concat(z, line_body(s.last()), '\n');
        lemma_split_single(line_body(s.last()), '\n');
        assert(s.map_values(|e: EntryView| line_body(e)) =~= t.map_values(|e: EntryView| line_body(e)).push(
            line_body(s.last()),
        ));
    }
}

/// The lines of storable entries are their bodies.
proof fn lemma_lines_of_entries(s: Seq<EntryView>)
    requires
        forall|i: int| 0 <= i < s.len() ==> storable(#[trigger] s[i]),
    ensures
        lines_spec(lines_text(s)) == s.map_values(|e: EntryView| line_body(e)),
{
    if s.len() == 0 {
        assert(lines_text(s) =~= Seq::<char>::empty());
        assert(split_on(lines_text(s), '\n') =~= seq![Seq::<char>::empty()]);
        assert(lines_spec(lines_text(s)) =~= s.map_values(|e: EntryView| line_body(e)));
    } else {
        lemma_lines_text_split(s);
        let z = lines_text(s.drop_last()) + line_body(s.last());
        let bodies = s.map_values(|e: EntryView| line_body(e));
        assert(lines_text(s) =~= z + seq!['\n'] + Seq::<char>::empty());
        lemma_split_concat(z, Seq::<char>::empty(), '\n');
        assert(split_on(Seq::<char>::empty(), '\n') =~= seq![Seq::<char>::empty()]);
        let p = split_on(lines_text(s), '\n');
        assert(p =~= bodies.push(Seq::<char>::empty()));
        assert(p.drop_last() =~= bodies);
        assert forall|i: int| 0 <= i < bodies.len() implies strip_cr(#[trigger] bodies[i]) == bodies[i] by {
            lemma_line_round_trip(s[i]);
        }
        assert(bodies.map_values(|l: Seq<char>| strip_cr(l)) =~= bodies);
    }
}

/// The entries that the bodies of storable entries hold are those entries.
proof fn lemma_parsed_bodies(s: Seq<EntryView>)
    requires
        forall|i: int| 0 <= i < s.len() ==> storable(#[trigger] s[i]),
    ensures
        parsed_lines(s.map_values(|e: EntryView| line_body(e))) == s,
    decreases s.len(),
{
    if s.len() > 0 {
        let t = s.drop_last();
        assert forall|i: int| 0 <= i < t.len() implies storable(#[trigger] t[i]) by {
            assert(t[i] == s[i]);
        }
        lemma_parsed_bodies(t);
        lemma_line_round_trip(s.last());
        let b = s.map_values(|e: EntryView| line_body(e));
        assert(b.drop_last() =~= t.map_values(|e: EntryView| line_body(e)));
        assert(t.push(s.last()) =~= s);
    } else {
        assert(s.map_values(|e: EntryView| line_body(e)) =~= Seq::<Seq<char>>::empty());
    }
}

/// A list already newest first stays as it is.
proof fn lemma_newest_first_id(s: Seq<EntryView>)
    requires
        is_newest_first(s),
    ensures
        newest_first(s) == s,
    decreases s.len(),
{
    if s.len() > 0 {
        let t = s.drop_last();
        assert forall|i: int, j: int| 0 <= i < j < t.len() implies (#[trigger] t[i]).epoch >= (#[trigger] t[j]).epoch by {
            assert(t[i] == s[i]);
            assert(t[j] == s[j]);
        }
        lemma_newest_first_id(t);
        if t.len() > 0 {
            assert(s[t.len() - 1].epoch >= s[s.len() - 1].epoch);
        }
        assert(t.push(s.last()) =~= s);
    }
}

/// The file the list is saved to reads back as the list: a newest-first
/// list of storable entries reads back as its first `KEEP` entries.
pub proof fn law_recents_round_trip(s: Seq<EntryView>)
    requires
        is_newest_first(s),
        forall|i: int| 0 <= i < s.len() ==> storable(#[trigger] s[i]),
    ensures
        recents_spec(recents_text_spec(s)) == if s.len() > KEEP {
            s.take(KEEP as int)
        } else {
            s
        },
{
    let k = if s.len() > KEEP {
        s.take(KEEP as int)
    } else {
        s
    };
    assert forall|i: int| 0 <= i < k.len() implies storable(#[trigger] k[i]) by {
        assert(k[i] == s[i]);
    }
    assert forall|i: int, j: int| 0 <= i < j < k.len() implies (#[trigger] k[i]).epoch >= (#[trigger] k[j]).epoch by {
        assert(k[i] == s[i]);
        assert(k[j] == s[j]);
    }
    lemma_lines_of_entries(k);
    lemma_parsed_bodies(k);
    lemma_newest_first_id(k);
}

/// A longer string of digits has at least the value of its prefix.
proof fn lemma_digits_grow(d: Seq<char>, k: int)
    requires
        0 <= k <= d.len(),
        all_digits(d),
    ensures
        digits_value(d) >= digits_value(d.take(k)),
    decreases d.len() - k,
{
    if k < d.len() {
        lemma_digits_grow(d, k + 1);
        assert(d.take(k + 1).drop_last() =~= d.take(k));
        assert(is_digit(d.take(k + 1).last()));
    } else {
        assert(d.take(k) =~= d);
    }
}

/// What is left after dropping a path's entries comes from the list, and
/// stays newest first when the list was.
proof fn lemma_without_path_sub(s: Seq<EntryView>, p: Seq<char>)
    ensures
        forall|i: int| 0 <= i < without_path(s, p).len() ==> s.contains(#[trigger] without_path(s, p)[i]),
        is_newest_first(s) ==> is_newest_first(without_path(s, p)),
    decreases s.len(),
{
    if s.len() > 0 {
        let d = s.drop_last();
        lemma_without_path_sub(d, p);
        let r = without_path(d, p);
        let w = without_path(s, p);
        assert forall|i: int| 0 <= i < r.len() implies s.contains(#[trigger] r[i]) by {
            let j = choose|j: int| 0 <= j < d.len() && d[j] == r[i];
            assert(s[j] == d[j]);
        }
        assert forall|i: int| 0 <= i < w.len() implies s.contains(#[trigger] w[i]) by {
            if i < r.len() {
                assert(w[i] == r[i]);
            } else {
                assert(w[i] == s.last());
                assert(s[s.len() - 1] == s.last());
            }
        }
        if is_newest_first(s) {
            assert(is_newest_first(d)) by {
                assert forall|a: int, b: int| 0 <= a < b < d.len() implies (#[trigger] d[a]).epoch >= (#[trigger] d[b]).epoch by {
                    assert(d[a] == s[a] && d[b] == s[b]);
                }
            }
            assert forall|a: int, b: int| 0 <= a < b < w.len() implies (#[trigger] w[a]).epoch >= (#[trigger] w[b]).epoch by {
                if b < r.len() {
                    assert(w[a] == r[a] && w[b] == r[b]);
                } else {
                    assert(w[b] == s.last());
                    assert(w[a] == r[a]);
                    let j = choose|j: int| 0 <= j < d.len() && d[j] == r[a];
                    assert(s[j] == d[j]);
                    assert(s[j].epoch >= s[s.len() - 1].epoch);
                }
            }
        }
    }
}

/// Opening a workspace and reading the recents file back: the workspace
/// first, with the time it was opened, then the other workspaces as they
/// were listed (none for the same path), the first `KEEP` of them in all.
/// This holds when the old list is newest first, no entry of it is newer
/// than the time of opening, and every entry can be written to the file.
pub proof fn law_touch_then_load(entries: Seq<EntryView>, root: Seq<char>, name: Seq<char>, now: u64)
    requires
        is_newest_first(entries),
        forall|i: int| 0 <= i < entries.len() ==> (#[trigger] entries[i]).epoch <= now,
        forall|i: int| 0 <= i < entries.len() ==> storable(#[trigger] entries[i]),
        storable(EntryView { name, path: root, epoch: now }),
    ensures
        ({
            let t = touch_spec(entries, root, name, now);
            recents_spec(recents_text_spec(t)) == if t.len() > KEEP {
                t.take(KEEP as int)
            } else {
                t
            }
        }),
{
    let t = touch_spec(entries, root, name, now);
    let w = without_path(entries, root);
    lemma_without_path_sub(entries, root);
    assert forall|i: int| 0 <= i < t.len() implies storable(#[trigger] t[i]) by {
        if i > 0 {
            assert(t[i] == w[i - 1]);
            let j = choose|j: int| 0 <= j < entries.len() && entries[j] == w[i - 1];
            assert(storable(entries[j]));
        }
    }
    assert forall|a: int, b: int| 0 <= a < b < t.len() implies (#[trigger] t[a]).epoch >= (#[trigger] t[b]).epoch by {
        assert(t[b] == w[b - 1]);
        let j = choose|j: int| 0 <= j < entries.len() && entries[j] == w[b - 1];
        assert(entries[j].epoch <= now);
        if a > 0 {
            assert(t[a] == w[a - 1]);
        }
    }
    law_recents_round_trip(t);
}

} // verus!
