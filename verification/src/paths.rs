//! Paths compared the way `std::path::Path` compares them on Unix: by
//! their components, so that `a//b`, `a/./b` and `a/b/` are all `a/b`.
use vstd::prelude::*;
use crate::strings::{str_eq, views};

verus! {

/// The parts of `p` between its `/` characters, empty ones included; a
/// path without `/` is one part.
pub open spec fn segments(p: Seq<char>) -> Seq<Seq<char>>
    decreases p.len(),
{
    if p.len() == 0 {
        seq![Seq::empty()]
    } else {
        let s = segments(p.drop_last());
        if p.last() == '/' {
            s.push(Seq::empty())
        } else {
            s.update(s.len() - 1, s.last().push(p.last()))
        }
    }
}

/// The parts of `s` that name something: not empty, and not `.`.
pub open spec fn named_parts(s: Seq<Seq<char>>) -> Seq<Seq<char>>
    decreases s.len(),
{
    if s.len() == 0 {
        Seq::empty()
    } else {
        let rest = named_parts(s.drop_last());
        if s.last().len() == 0 || s.last() == "."@ {
            rest
        } else {
            rest.push(s.last())
        }
    }
}

/// The components of `p`, as `Path::components` gives them: `/` for the
/// root of an absolute path, `.` for a relative path that starts with
/// `./` (or is `.`), then every part that names something.
pub open spec fn components(p: Seq<char>) -> Seq<Seq<char>> {
    let segs = segments(p);
    let tail = named_parts(segs.drop_first());
    if p.len() > 0 && p[0] == '/' {
        seq!["/"@] + tail
    } else if segs[0] == "."@ {
        seq!["."@] + tail
    } else if segs[0].len() == 0 {
        tail
    } else {
        seq![segs[0]] + tail
    }
}

/// A path has at least one part.
proof fn lemma_segments_len(p: Seq<char>)
    ensures
        segments(p).len() >= 1,
    decreases p.len(),
{
    if p.len() > 0 {
        lemma_segments_len(p.drop_last());
    }
}

/// The parts of `p`.
fn segments_of(p: &str) -> (r: Vec<String>)
    ensures
        views(r@) == segments(p@),
{
    let n = p.unicode_len();
    let mut done: Vec<String> = Vec::new();
    let mut start: usize = 0;
    let mut k: usize = 0;
    assert(p@.take(0) =~= Seq::<char>::empty());
    assert(p@.subrange(0, 0) =~= Seq::<char>::empty());
    while k < n
        invariant
            n == p@.len(),
            start <= k <= n,
            views(done@).push(p@.subrange(start as int, k as int)) == segments(p@.take(k as int)),
        decreases n - k,
    {
        let c = p.get_char(k);
        proof {
            assert(p@.take(k + 1).drop_last() =~= p@.take(k as int));
            assert(p@.take(k + 1).last() == c);
            lemma_segments_len(p@.take(k as int));
        }
        if c == '/' {
            let part = p.substring_char(start, k).to_owned();
            let ghost before = views(done@);
            done.push(part);
            start = k + 1;
            proof {
                assert(views(done@) =~= before.push(part@));
                assert(p@.subrange(start as int, k + 1) =~= Seq::<char>::empty());
            }
        } else {
            proof {
                let s = segments(p@.take(k as int));
                assert(p@.subrange(start as int, k + 1) =~= p@.subrange(start as int, k as int).push(c));
                assert(views(done@).push(p@.subrange(start as int, k + 1)) =~= s.update(
                    s.len() - 1,
                    s.last().push(c),
                ));
            }
        }
        k = k + 1;
    }
    let last = p.substring_char(start, n).to_owned();
    let ghost before = views(done@);
    done.push(last);
    proof {
        assert(p@.take(n as int) =~= p@);
        assert(views(done@) =~= before.push(last@));
    }
    done
}

/// The components of `p`.
pub fn components_of(p: &str) -> (r: Vec<String>)
    ensures
        views(r@) == components(p@),
{
    let segs = segments_of(p);
    proof {
        lemma_segments_len(p@);
        reveal_strlit("/");
        reveal_strlit(".");
    }
    let ghost sv = views(segs@);
    let mut out: Vec<String> = Vec::new();
    let rooted = p.unicode_len() > 0 && p.get_char(0) == '/';
    let first = segs[0].as_str();
    if rooted {
        out.push("/".to_owned());
    } else if str_eq(first, ".") {
        out.push(".".to_owned());
    } else if first.unicode_len() > 0 {
        out.push(first.to_owned());
    }
    let ghost head = views(out@);
    let mut i: usize = 1;
    assert(sv.drop_first().take(0) =~= Seq::<Seq<char>>::empty());
    while i < segs.len()
        invariant
            sv == views(segs@),
            1 <= i <= segs@.len(),
            views(out@) == head + named_parts(sv.drop_first().take(i - 1)),
        decreases segs@.len() - i,
    {
        let s = segs[i].as_str();
        proof {
            assert(sv.drop_first().take(i as int).drop_last() =~= sv.drop_first().take(i - 1));
            assert(sv.drop_first().take(i as int).last() == s@);
        }
        if s.unicode_len() > 0 && !str_eq(s, ".") {
            let ghost before = views(out@);
            out.push(s.to_owned());
            assert(views(out@) =~= before.push(s@));
        }
        i = i + 1;
    }
    proof {
        assert(sv.drop_first().take(i - 1) =~= sv.drop_first());
        assert(views(out@) =~= components(p@));
    }
    out
}

/// Whether `a` and `b` are the same path, component by component.
pub fn same_path(a: &str, b: &str) -> (r: bool)
    ensures
        r == (components(a@) == components(b@)),
{
    let ca = components_of(a);
    let cb = components_of(b);
    if ca.len() != cb.len() {
        proof {
            assert(views(ca@).len() != views(cb@).len());
        }
        return false;
    }
    let mut i: usize = 0;
    while i < ca.len()
        invariant
            views(ca@) == components(a@),
            views(cb@) == components(b@),
            ca@.len() == cb@.len(),
            i <= ca@.len(),
            forall|j: int| 0 <= j < i ==> views(ca@)[j] == views(cb@)[j],
        decreases ca@.len() - i,
    {
        if !str_eq(ca[i].as_str(), cb[i].as_str()) {
            proof {
                assert(views(ca@)[i as int] != views(cb@)[i as int]);
            }
            return false;
        }
        i = i + 1;
    }
    proof {
        assert(views(ca@) =~= views(cb@));
    }
    true
}

/// The components joined by `/`, after the root's own `/`.
pub open spec fn join_parts(s: Seq<Seq<char>>) -> Seq<char>
    decreases s.len(),
{
    if s.len() == 0 {
        Seq::empty()
    } else if s.len() == 1 {
        s[0]
    } else {
        join_parts(s.drop_last()) + "/"@ + s.last()
    }
}

/// A path written from the components `c`: the root's `/`, then the
/// other components joined by `/`.
pub open spec fn write_parts(c: Seq<Seq<char>>) -> Seq<char> {
    if c.len() > 0 && c[0] == "/"@ {
        "/"@ + join_parts(c.drop_first())
    } else {
        join_parts(c)
    }
}

/// The path written from its components: `a//b/`, `a/./b` and `a/b` are
/// all written `a/b`.
pub open spec fn normal_spec(p: Seq<char>) -> Seq<char> {
    write_parts(components(p))
}

/// The path `d` relative to `base`, as `Path::strip_prefix` decides it:
/// when the components of `base` start those of `d`, the rest of them
/// written as a path (empty when they are the same); nothing otherwise.
pub open spec fn strip_spec(base: Seq<char>, d: Seq<char>) -> Option<Seq<char>> {
    let b = components(base);
    let c = components(d);
    if b.len() <= c.len() && c.take(b.len() as int) == b {
        Some(write_parts(c.skip(b.len() as int)))
    } else {
        None
    }
}

/// The components `c[from..]` written as a path.
fn write_parts_of(c: &Vec<String>, from: usize) -> (r: String)
    requires
        from <= c@.len(),
    ensures
        r@ == write_parts(views(c@).skip(from as int)),
{
    let ghost cv = views(c@);
    proof {
        reveal_strlit("/");
    }
    let rooted = from < c.len() && str_eq(c[from].as_str(), "/");
    let start: usize = if rooted {
        from + 1
    } else {
        from
    };
    let ghost parts = cv.skip(start as int);
    let mut out = if rooted {
        "/".to_owned()
    } else {
        String::new()
    };
    let ghost lead = out@;
    let mut i: usize = start;
    assert(parts.take(0) =~= Seq::<Seq<char>>::empty());
    while i < c.len()
        invariant
            cv == views(c@),
            start <= i <= c@.len(),
            parts == cv.skip(start as int),
            out@ == lead + join_parts(parts.take(i - start)),
        decreases c@.len() - i,
    {
        proof {
            assert(parts.take(i - start + 1).drop_last() =~= parts.take(i - start));
            assert(parts.take(i - start + 1).last() == cv[i as int]);
        }
        if i > start {
            out.append("/");
        }
        out.append(c[i].as_str());
        proof {
            if i == start {
                assert(parts.take(1) =~= seq![cv[i as int]]);
            }
        }
        i = i + 1;
    }
    proof {
        assert(parts.take(i - start) =~= parts);
        if rooted {
            assert(cv.skip(from as int).drop_first() =~= parts);
            assert(cv.skip(from as int)[0] == cv[from as int]);
        } else {
            assert(cv.skip(from as int) =~= parts);
        }
    }
    out
}

/// The path written from its components.
pub fn normal_path(p: &str) -> (r: String)
    ensures
        r@ == normal_spec(p@),
{
    let c = components_of(p);
    assert(views(c@).skip(0) =~= views(c@));
    write_parts_of(&c, 0)
}

/// The path `d` relative to `base`, if `d` lies in `base`.
pub fn strip_prefix_of(base: &str, d: &str) -> (r: Option<String>)
    ensures
        match r {
            Some(s) => strip_spec(base@, d@) == Some(s@),
            None => strip_spec(base@, d@) is None,
        },
{
    let cb = components_of(base);
    let cd = components_of(d);
    if cb.len() > cd.len() {
        return None;
    }
    let mut i: usize = 0;
    while i < cb.len()
        invariant
            views(cb@) == components(base@),
            views(cd@) == components(d@),
            cb@.len() <= cd@.len(),
            i <= cb@.len(),
            forall|j: int| 0 <= j < i ==> views(cd@)[j] == views(cb@)[j],
        decreases cb@.len() - i,
    {
        if !str_eq(cb[i].as_str(), cd[i].as_str()) {
            proof {
                assert(views(cd@).take(cb@.len() as int)[i as int] != views(cb@)[i as int]);
            }
            return None;
        }
        i = i + 1;
    }
    assert(views(cd@).take(cb@.len() as int) =~= views(cb@));
    Some(write_parts_of(&cd, cb.len()))
}

/// Paths with the same components are written the same way.
pub proof fn law_same_components_same_text(a: Seq<char>, b: Seq<char>)
    requires
        components(a) == components(b),
    ensures
        normal_spec(a) == normal_spec(b),
{
}

} // verus!
