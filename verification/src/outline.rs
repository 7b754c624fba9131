//! What the sidebar lists: the targets grouped by package, and the rows of
//! the file tree as far as it is expanded. Reading directories and drawing
//! the rows are the application's part.
use vstd::prelude::*;
use crate::buck::Target;
use crate::index::{is_buck_file_name, Index};
use crate::paths::{components, normal_spec, same_path, strip_prefix_of, strip_spec};
use crate::strings::{sort_strings, sort_texts, str_eq, views};
use crate::template::lists_ext;

verus! {

// ---------------------------------------------------------------------------
// Packages and their targets

/// The packages of the first `n` targets, each once, in the order they
/// first appear.
pub open spec fn packages_seen(ts: Seq<Target>, n: int) -> Seq<Seq<char>>
    decreases n,
{
    if n <= 0 {
        Seq::empty()
    } else {
        let d = packages_seen(ts, n - 1);
        if d.contains(ts[n - 1].package@) {
            d
        } else {
            d.push(ts[n - 1].package@)
        }
    }
}

/// The positions among the first `n` targets of those in package `pkg`,
/// in order.
pub open spec fn indices_in(ts: Seq<Target>, pkg: Seq<char>, n: int) -> Seq<usize>
    decreases n,
{
    if n <= 0 {
        Seq::empty()
    } else {
        let r = indices_in(ts, pkg, n - 1);
        if ts[n - 1].package@ == pkg {
            r.push((n - 1) as usize)
        } else {
            r
        }
    }
}

/// Each package once, in ascending byte order, with the positions of its
/// targets in the order the targets come.
pub open spec fn groups_spec(ts: Seq<Target>) -> Seq<(Seq<char>, Seq<usize>)> {
    sort_texts(packages_seen(ts, ts.len() as int)).map_values(
        |k: Seq<char>| (k, indices_in(ts, k, ts.len() as int)),
    )
}

/// Groups with their strings as characters.
pub open spec fn groups_view(g: Seq<(String, Vec<usize>)>) -> Seq<(Seq<char>, Seq<usize>)> {
    g.map_values(|p: (String, Vec<usize>)| (p.0@, p.1@))
}

/// The targets view's outline: each package, in ascending order, with the
/// positions of its targets.
pub fn package_groups(targets: &Vec<Target>) -> (r: Vec<(String, Vec<usize>)>)
    ensures
        groups_view(r@) == groups_spec(targets@),
{
    let ghost ts = targets@;
    let mut seen: Vec<String> = Vec::new();
    let mut i: usize = 0;
    while i < targets.len()
        invariant
            ts == targets@,
            i <= ts.len(),
            views(seen@) == packages_seen(ts, i as int),
        decreases ts.len() - i,
    {
        let p = &targets[i].package;
        if !lists_ext(&seen, p.as_str()) {
            let c = p.clone();
            seen.push(c);
            proof {
                assert(views(seen@) =~= packages_seen(ts, i as int).push(ts[i as int].package@));
            }
        }
        i = i + 1;
    }
    let keys = sort_strings(&seen);
    let ghost ks = sort_texts(packages_seen(ts, ts.len() as int));
    let mut out: Vec<(String, Vec<usize>)> = Vec::new();
    let mut k: usize = 0;
    while k < keys.len()
        invariant
            ts == targets@,
            views(keys@) == ks,
            k <= keys@.len(),
            groups_view(out@) == ks.take(k as int).map_values(
                |key: Seq<char>| (key, indices_in(ts, key, ts.len() as int)),
            ),
        decreases keys@.len() - k,
    {
        let key = &keys[k];
        assert(key@ == ks[k as int]);
        let mut idx: Vec<usize> = Vec::new();
        let mut j: usize = 0;
        while j < targets.len()
            invariant
                ts == targets@,
                j <= ts.len(),
                idx@ == indices_in(ts, key@, j as int),
            decreases ts.len() - j,
        {
            if str_eq(targets[j].package.as_str(), key.as_str()) {
                idx.push(j);
            }
            j = j + 1;
        }
        let name = key.clone();
        let ghost before = out@;
        out.push((name, idx));
        proof {
            assert(groups_view(out@) =~= groups_view(before).push((key@, idx@)));
            assert(ks.take(k + 1) =~= ks.take(k as int).push(ks[k as int]));
            assert(ks.take(k + 1).map_values(|key: Seq<char>| (key, indices_in(ts, key, ts.len() as int)))
                =~= ks.take(k as int).map_values(|key: Seq<char>| (key, indices_in(ts, key, ts.len() as int))).push(
                (ks[k as int], indices_in(ts, ks[k as int], ts.len() as int)),
            ));
        }
        k = k + 1;
    }
    proof {
        assert(ks.take(ks.len() as int) =~= ks);
    }
    out
}

// ---------------------------------------------------------------------------
// The file tree

/// An entry of the file tree, as far as it has been read.
#[derive(Debug)]
pub struct TreeNode {
    pub name: String,
    pub path: String,
    pub hidden: bool,
    pub kind: NodeKind,
}

/// A directory, with its entries once they have been read, or a file.
#[derive(Debug)]
pub enum NodeKind {
    Dir { expanded: bool, children: Option<Vec<TreeNode>> },
    File,
}

/// One row of the tree as drawn: how deep it is, what it shows, and
/// whether it is the selected entry (by path components), a build file,
/// and in how many of the index's file lists it stands.
#[derive(Debug)]
pub struct Row {
    pub depth: usize,
    pub name: String,
    pub path: String,
    pub is_dir: bool,
    pub expanded: bool,
    pub hidden: bool,
    pub selected: bool,
    pub buck_file: bool,
    pub badge: usize,
}

/// A row with its strings as characters.
pub struct RowView {
    pub depth: int,
    pub name: Seq<char>,
    pub path: Seq<char>,
    pub is_dir: bool,
    pub expanded: bool,
    pub hidden: bool,
    pub selected: bool,
    pub buck_file: bool,
    pub badge: int,
}

impl View for Row {
    type V = RowView;

    open spec fn view(&self) -> RowView {
        RowView {
            depth: self.depth as int,
            name: self.name@,
            path: self.path@,
            is_dir: self.is_dir,
            expanded: self.expanded,
            hidden: self.hidden,
            selected: self.selected,
            buck_file: self.buck_file,
            badge: self.badge as int,
        }
    }
}

/// The rows, each by its view.
pub open spec fn row_views(s: Seq<Row>) -> Seq<RowView> {
    s.map_values(|r: Row| r@)
}

/// The depth of the entries of a directory at depth `d` (it stops growing
/// at the largest `usize`).
pub open spec fn deeper(d: int) -> int {
    if d < usize::MAX {
        d + 1
    } else {
        d
    }
}

/// The row of entry `n` at depth `depth`.
pub open spec fn node_row(n: TreeNode, depth: int, sel: Option<Seq<char>>, index: Index) -> RowView {
    RowView {
        depth,
        name: n.name@,
        path: n.path@,
        is_dir: n.kind is Dir,
        expanded: match n.kind {
            NodeKind::Dir { expanded, .. } => expanded,
            NodeKind::File => false,
        },
        hidden: n.hidden,
        selected: sel matches Some(s) && components(s) == components(n.path@),
        buck_file: n.kind is File && (n.name@ == "BUCK"@ || n.name@ == "BUILD"@ || n.name@ == "BUILD.bazel"@),
        badge: if n.kind is File {
            index.links(normal_spec(n.path@)).len() as int
        } else {
            0
        },
    }
}

/// The rows of entry `n` and, when it is an expanded directory whose
/// entries were read, of those entries one level deeper.
pub open spec fn node_rows(n: TreeNode, depth: int, sel: Option<Seq<char>>, index: Index) -> Seq<RowView>
    decreases n, 0int,
{
    seq![node_row(n, depth, sel, index)] + match n.kind {
        NodeKind::Dir { expanded: true, children: Some(c) } => rows_from(c@, 0, deeper(depth), sel, index),
        _ => Seq::empty(),
    }
}

/// The rows of the entries `nodes[k..]`, in order.
pub open spec fn rows_from(nodes: Seq<TreeNode>, k: int, depth: int, sel: Option<Seq<char>>, index: Index) -> Seq<RowView>
    decreases nodes, nodes.len() - k,
{
    if k < 0 || k >= nodes.len() {
        Seq::empty()
    } else {
        node_rows(nodes[k], depth, sel, index) + rows_from(nodes, k + 1, depth, sel, index)
    }
}

/// The rows the tree shows: every entry, and the entries of each expanded
/// directory below it, one level deeper; `selected` marks the selected
/// entry.
pub fn visible_rows(nodes: &Vec<TreeNode>, selected: Option<&str>, index: &Index) -> (r: Vec<Row>)
    requires
        index.wf(),
    ensures
        row_views(r@) == rows_from(nodes@, 0, 0, crate::dirs::opt_chars(selected), *index),
{
    let mut out: Vec<Row> = Vec::new();
    push_rows(nodes, 0, selected, index, &mut out);
    proof {
        assert(row_views(out@) =~= rows_from(nodes@, 0, 0, crate::dirs::opt_chars(selected), *index));
    }
    out
}

/// Append the rows of `nodes` at depth `depth`.
fn push_rows(nodes: &Vec<TreeNode>, depth: usize, selected: Option<&str>, index: &Index, out: &mut Vec<Row>)
    requires
        index.wf(),
    ensures
        row_views(final(out)@) == row_views(old(out)@) + rows_from(
            nodes@,
            0,
            depth as int,
            crate::dirs::opt_chars(selected),
            *index,
        ),
    decreases nodes@,
{
    let ghost sel = crate::dirs::opt_chars(selected);
    let ghost start = row_views(out@);
    let mut k: usize = 0;
    while k < nodes.len()
        invariant
            index.wf(),
            sel == crate::dirs::opt_chars(selected),
            k <= nodes@.len(),
            row_views(out@) + rows_from(nodes@, k as int, depth as int, sel, *index) == start + rows_from(
                nodes@,
                0,
                depth as int,
                sel,
                *index,
            ),
        decreases nodes@.len() - k,
    {
        let n = &nodes[k];
        let ghost before = row_views(out@);
        let row = node_row_of(n, depth, selected, index);
        out.push(row);
        proof {
            assert(row_views(out@) =~= before.push(node_row(*n, depth as int, sel, *index)));
        }
        let ghost mid = row_views(out@);
        match &n.kind {
            NodeKind::Dir { expanded: true, children: Some(c) } => {
                proof {
                    assert(decreases_to!(nodes@ => nodes@[k as int]));
                }
                let d = depth.saturating_add(1);
                push_rows(c, d, selected, index, out);
                proof {
                    assert(node_rows(*n, depth as int, sel, *index) =~= seq![node_row(*n, depth as int, sel, *index)]
                        + rows_from(c@, 0, deeper(depth as int), sel, *index));
                }
            },
            _ => {
                proof {
                    assert(node_rows(*n, depth as int, sel, *index) =~= seq![node_row(*n, depth as int, sel, *index)]);
                }
            },
        }
        proof {
            assert(rows_from(nodes@, k as int, depth as int, sel, *index) == node_rows(nodes@[k as int], depth as int, sel, *index)
                + rows_from(nodes@, k + 1, depth as int, sel, *index));
            assert(before.push(node_row(*n, depth as int, sel, *index)) =~= before + seq![node_row(*n, depth as int, sel, *index)]);
        }
        k = k + 1;
    }
}

/// The row of one entry.
fn node_row_of(n: &TreeNode, depth: usize, selected: Option<&str>, index: &Index) -> (r: Row)
    requires
        index.wf(),
    ensures
        r@ == node_row(*n, depth as int, crate::dirs::opt_chars(selected), *index),
{
    let (is_dir, expanded) = match &n.kind {
        NodeKind::Dir { expanded, .. } => (true, *expanded),
        NodeKind::File => (false, false),
    };
    let is_sel = match selected {
        Some(s) => same_path(s, n.path.as_str()),
        None => false,
    };
    let buck_file = !is_dir && is_buck_file_name(n.name.as_str());
    let badge = if is_dir {
        0
    } else {
        let owners = index.targets_of(n.path.as_str());
        assert(owners@.len() == index.links(normal_spec(n.path@)).len()) by {
            assert(owners@.map_values(|s: &str| s@).len() == owners@.len());
        }
        owners.len()
    };
    let name = n.name.clone();
    let path = n.path.clone();
    let r = Row { depth, name, path, is_dir, expanded, hidden: n.hidden, selected: is_sel, buck_file, badge };
    assert(r@.name == n.name@);
    assert(r@.path == n.path@);
    assert(r@.badge == node_row(*n, depth as int, crate::dirs::opt_chars(selected), *index).badge);
    assert(r@.selected == node_row(*n, depth as int, crate::dirs::opt_chars(selected), *index).selected);
    assert(r@.buck_file == node_row(*n, depth as int, crate::dirs::opt_chars(selected), *index).buck_file);
    r
}

/// What a click on the tree entry at `target` does, searching `nodes[k..]`
/// as the tree does: the first entry at that path, or the first directory
/// above it whose entries were read, and then on inside it. The answer is
/// the positions leading to the entry to expand or fold, and whether its
/// entries must be read first (it is being expanded and was never read);
/// none when the path leads to no directory.
pub open spec fn toggle_from(nodes: Seq<TreeNode>, k: int, target: Seq<char>) -> Option<(Seq<usize>, bool)>
    decreases nodes, nodes.len() - k,
{
    if k < 0 || k >= nodes.len() {
        None
    } else if components(nodes[k].path@) == components(target) {
        match nodes[k].kind {
            NodeKind::Dir { expanded, children } => Some((seq![k as usize], !expanded && children is None)),
            NodeKind::File => None,
        }
    } else if strip_spec(nodes[k].path@, target) is Some {
        match nodes[k].kind {
            NodeKind::Dir { children: Some(c), .. } => match toggle_from(c@, 0, target) {
                Some((r, b)) => Some((seq![k as usize] + r, b)),
                None => None,
            },
            _ => None,
        }
    } else {
        toggle_from(nodes, k + 1, target)
    }
}

/// What a click on the tree entry at `target` does: the positions leading
/// to the directory to expand or fold, and whether its entries must be
/// read first. The application flips that directory, reading it when told.
pub fn toggle_route(nodes: &Vec<TreeNode>, target: &str) -> (r: Option<(Vec<usize>, bool)>)
    ensures
        match r {
            Some((v, b)) => toggle_from(nodes@, 0, target@) == Some((v@, b)),
            None => toggle_from(nodes@, 0, target@) is None,
        },
    decreases nodes@,
{
    let mut k: usize = 0;
    while k < nodes.len()
        invariant
            k <= nodes@.len(),
            toggle_from(nodes@, 0, target@) == toggle_from(nodes@, k as int, target@),
        decreases nodes@.len() - k,
    {
        let n = &nodes[k];
        if same_path(n.path.as_str(), target) {
            return match &n.kind {
                NodeKind::Dir { expanded, children } => {
                    let mut v: Vec<usize> = Vec::new();
                    v.push(k);
                    assert(v@ =~= seq![k]);
                    Some((v, !*expanded && children.is_none()))
                },
                NodeKind::File => None,
            };
        }
        if strip_prefix_of(n.path.as_str(), target).is_some() {
            return match &n.kind {
                NodeKind::Dir { children: Some(c), .. } => {
                    proof {
                        assert(decreases_to!(nodes@ => nodes@[k as int]));
                    }
                    match toggle_route(c, target) {
                        Some((r, b)) => {
                            let mut v: Vec<usize> = Vec::new();
                            v.push(k);
                            let mut i: usize = 0;
                            while i < r.len()
                                invariant
                                    i <= r@.len(),
                                    v@ == seq![k] + r@.take(i as int),
                                decreases r@.len() - i,
                            {
                                v.push(r[i]);
                                assert(r@.take(i + 1) =~= r@.take(i as int).push(r@[i as int]));
                                i = i + 1;
                            }
                            assert(r@.take(i as int) =~= r@);
                            Some((v, b))
                        },
                        None => None,
                    }
                },
                _ => None,
            };
        }
        k = k + 1;
    }
    None
}


/// A file's row shows, as its badge, how many targets of the index list
/// that file (looked up by its path's components); a directory shows none.
pub proof fn law_badge_counts_targets(n: TreeNode, depth: int, sel: Option<Seq<char>>, index: Index)
    ensures
        n.kind is File ==> node_row(n, depth, sel, index).badge == index.links(normal_spec(n.path@)).len(),
        n.kind is Dir ==> node_row(n, depth, sel, index).badge == 0,
{
}

} // verus!
