//! The build graph the targets view draws: one node per target, one node
//! per dependency that names no known target, and an edge for each
//! dependency; then the column each node stands in. Placing the nodes in
//! pixels and drawing them are the application's part.
use vstd::prelude::*;
use crate::buck::{after_last_colon, kind_of_rule_type, Kind, Target};
use crate::strings::{str_eq, views};
use crate::template::{definition_of, kind_spec, manifests_of, TemplateSet};

verus! {

/// A node of the graph.
#[derive(Debug, Clone)]
pub struct GraphNode {
    pub name: String,
    /// The rule name of a target, `extern` for an outside dependency.
    pub sub: String,
    pub external: bool,
    /// What kind of target it is; none for an outside dependency.
    pub kind: Option<Kind>,
    /// The position of its target in the target list.
    pub target_idx: Option<usize>,
    /// The nodes it depends on.
    pub deps: Vec<usize>,
}

/// A node with its strings as characters.
pub struct NodeView {
    pub name: Seq<char>,
    pub sub: Seq<char>,
    pub external: bool,
    pub kind: Option<Kind>,
    pub target_idx: Option<usize>,
    pub deps: Seq<usize>,
}

impl View for GraphNode {
    type V = NodeView;

    open spec fn view(&self) -> NodeView {
        NodeView {
            name: self.name@,
            sub: self.sub@,
            external: self.external,
            kind: self.kind,
            target_idx: self.target_idx,
            deps: self.deps@,
        }
    }
}

/// The nodes, each by its view.
pub open spec fn node_views(s: Seq<GraphNode>) -> Seq<NodeView> {
    s.map_values(|n: GraphNode| n@)
}

/// The first of the targets `ts[k..]` for which `p` holds.
pub open spec fn first_from(ts: Seq<Target>, k: int, p: spec_fn(Target) -> bool) -> Option<int>
    decreases ts.len() - k,
{
    if k < 0 || k >= ts.len() {
        None
    } else if p(ts[k]) {
        Some(k)
    } else {
        first_from(ts, k + 1, p)
    }
}

/// Targets of package `pkg` named `name`.
pub open spec fn named_in(pkg: Seq<char>, name: Seq<char>) -> spec_fn(Target) -> bool {
    |o: Target| o.package@ == pkg && o.name@ == name
}

/// Targets with the label `label`.
pub open spec fn labelled(label: Seq<char>) -> spec_fn(Target) -> bool {
    |o: Target| o.label@ == label
}

/// The target that dependency `d` of target `i` names: `:name` is a target
/// of the same package, anything else a full label.
pub open spec fn resolve(ts: Seq<Target>, i: int, d: Seq<char>) -> Option<int> {
    if d.len() > 0 && d[0] == ':' {
        first_from(ts, 0, named_in(ts[i].package@, d.skip(1)))
    } else {
        first_from(ts, 0, labelled(d))
    }
}

/// The dependencies that name no target, each once, in the order they are
/// first met, after the dependencies of the targets before `i` and the
/// first `k` of target `i`.
pub open spec fn outside_after(ts: Seq<Target>, i: int, k: int) -> Seq<Seq<char>>
    decreases i, k,
{
    if i < 0 || i > ts.len() {
        Seq::empty()
    } else if k > 0 {
        let e = outside_after(ts, i, k - 1);
        let d = if i < ts.len() && k - 1 < ts[i].deps@.len() {
            ts[i].deps@[k - 1]@
        } else {
            Seq::empty()
        };
        if i < ts.len() && k - 1 < ts[i].deps@.len() && resolve(ts, i, d) is None && !e.contains(d) {
            e.push(d)
        } else {
            e
        }
    } else if i > 0 {
        outside_after(ts, i - 1, ts[i - 1].deps@.len() as int)
    } else {
        Seq::empty()
    }
}

/// Every dependency that names no target, each once, in the order met.
pub open spec fn outside_all(ts: Seq<Target>) -> Seq<Seq<char>> {
    outside_after(ts, ts.len() as int, 0)
}

/// The first position of `x` in `s`.
pub open spec fn position_of(s: Seq<Seq<char>>, x: Seq<char>) -> int {
    choose|j: int| 0 <= j < s.len() && s[j] == x && forall|m: int| 0 <= m < j ==> s[m] != x
}

/// The node that dependency `k` of target `i` points at: its target, or
/// the outside node made for it when it was first met.
pub open spec fn dep_node(ts: Seq<Target>, i: int, k: int) -> int {
    let d = ts[i].deps@[k]@;
    match resolve(ts, i, d) {
        Some(j) => j,
        None => ts.len() + position_of(outside_after(ts, i, k + 1), d),
    }
}

/// What kind of target `t` is: what the templates say of its rule, else
/// what its rule type says.
pub open spec fn target_kind_spec(templates: TemplateSet, t: Target) -> Kind {
    let ms = manifests_of(templates.manifest_list());
    match definition_of(ms, after_last_colon(t.rule_type@)) {
        Some((mi, ri)) => kind_spec(templates.manifest_list()[mi].0.lark.rules@[ri].kind),
        None => kind_of_rule_type(t.rule_type@),
    }
}

/// The node of target `i`.
pub open spec fn target_node(ts: Seq<Target>, templates: TemplateSet, i: int) -> NodeView {
    NodeView {
        name: ts[i].name@,
        sub: after_last_colon(ts[i].rule_type@),
        external: false,
        kind: Some(target_kind_spec(templates, ts[i])),
        target_idx: Some(i as usize),
        deps: Seq::new(ts[i].deps@.len(), |k: int| dep_node(ts, i, k) as usize),
    }
}

/// The node of an outside dependency: named by the text after its last `:`.
pub open spec fn outside_node(d: Seq<char>) -> NodeView {
    NodeView {
        name: after_last_colon(d),
        sub: "extern"@,
        external: true,
        kind: None,
        target_idx: None,
        deps: Seq::empty(),
    }
}

/// The graph: the targets' nodes in order, then the outside nodes in the
/// order their dependencies were first met.
pub open spec fn graph_spec(ts: Seq<Target>, templates: TemplateSet) -> Seq<NodeView> {
    Seq::new(ts.len(), |i: int| target_node(ts, templates, i)) + outside_all(ts).map_values(
        |d: Seq<char>| outside_node(d),
    )
}

/// The target that dependency `d` of target `i` names.
fn resolve_dep(ts: &Vec<Target>, i: usize, d: &str) -> (r: Option<usize>)
    requires
        i < ts@.len(),
    ensures
        match r {
            Some(j) => resolve(ts@, i as int, d@) == Some(j as int),
            None => resolve(ts@, i as int, d@) is None,
        },
{
    let n = d.unicode_len();
    let local = n > 0 && d.get_char(0) == ':';
    let ghost p: spec_fn(Target) -> bool = if local {
        named_in(ts@[i as int].package@, d@.skip(1))
    } else {
        labelled(d@)
    };
    let rest = if local {
        d.substring_char(1, n)
    } else {
        d
    };
    assert(local ==> rest@ =~= d@.skip(1));
    let mut k: usize = ts.len();
    let mut found: Option<usize> = None;
    while k > 0
        invariant
            k <= ts@.len(),
            i < ts@.len(),
            local ==> rest@ == d@.skip(1),
            p == (if local {
                named_in(ts@[i as int].package@, d@.skip(1))
            } else {
                labelled(d@)
            }),
            match found {
                Some(j) => first_from(ts@, k as int, p) == Some(j as int),
                None => first_from(ts@, k as int, p) is None,
            },
        decreases k,
    {
        k = k - 1;
        let o = &ts[k];
        let hit = if local {
            str_eq(o.package.as_str(), ts[i].package.as_str()) && str_eq(o.name.as_str(), rest)
        } else {
            str_eq(o.label.as_str(), d)
        };
        assert(hit == p(ts@[k as int]));
        if hit {
            found = Some(k);
        }
    }
    found
}

/// Where `d` stands in `list`.
fn find_text(list: &Vec<String>, d: &str) -> (r: Option<usize>)
    ensures
        match r {
            Some(j) => j < list@.len() && views(list@)[j as int] == d@ && forall|m: int|
                0 <= m < j ==> views(list@)[m] != d@,
            None => !views(list@).contains(d@),
        },
{
    let mut j: usize = 0;
    while j < list.len()
        invariant
            j <= list@.len(),
            forall|m: int| 0 <= m < j ==> views(list@)[m] != d@,
        decreases list@.len() - j,
    {
        if str_eq(list[j].as_str(), d) {
            return Some(j);
        }
        j = j + 1;
    }
    None
}

/// The first position is the one `position_of` names.
proof fn lemma_position_of(s: Seq<Seq<char>>, x: Seq<char>, j: int)
    requires
        0 <= j < s.len(),
        s[j] == x,
        forall|m: int| 0 <= m < j ==> s[m] != x,
    ensures
        position_of(s, x) == j,
{
    let c = position_of(s, x);
    assert(0 <= c < s.len() && s[c] == x && forall|m: int| 0 <= m < c ==> s[m] != x);
    if c < j {
        assert(s[c] != x);
    } else if j < c {
        assert(s[j] != x);
    }
}

/// The kind of target `t`.
fn target_kind(templates: &TemplateSet, t: &Target) -> (r: Kind)
    requires
        templates.wf(),
    ensures
        r == target_kind_spec(*templates, *t),
{
    match templates.kind_of(t.rule_name()) {
        Some(k) => k,
        None => t.kind(),
    }
}

/// The graph the targets view draws for `targets`.
pub fn graph_nodes(targets: &Vec<Target>, templates: &TemplateSet) -> (r: Vec<GraphNode>)
    requires
        templates.wf(),
        targets@.len() + outside_all(targets@).len() <= usize::MAX,
    ensures
        node_views(r@) == graph_spec(targets@, *templates),
{
    let ghost ts = targets@;
    let n = targets.len();
    let mut nodes: Vec<GraphNode> = Vec::new();
    let mut outside: Vec<String> = Vec::new();
    let mut i: usize = 0;
    while i < n
        invariant
            ts == targets@,
            n == ts.len(),
            templates.wf(),
            ts.len() + outside_all(ts).len() <= usize::MAX,
            i <= n,
            views(outside@) == outside_after(ts, i as int, 0),
            node_views(nodes@) == Seq::new(i as nat, |j: int| target_node(ts, *templates, j)),
        decreases n - i,
    {
        let t = &targets[i];
        let m = t.deps.len();
        let mut deps: Vec<usize> = Vec::new();
        let mut k: usize = 0;
        while k < m
            invariant
                ts == targets@,
                n == ts.len(),
                i < n,
                *t == ts[i as int],
                m == ts[i as int].deps@.len(),
                ts.len() + outside_all(ts).len() <= usize::MAX,
                k <= m,
                views(outside@) == outside_after(ts, i as int, k as int),
                deps@ == Seq::new(k as nat, |j: int| dep_node(ts, i as int, j) as usize),
            decreases m - k,
        {
            let d = t.deps[k].as_str();
            let ghost before = views(outside@);
            let ni = match resolve_dep(targets, i, d) {
                Some(j) => j,
                None => {
                    let pos = match find_text(&outside, d) {
                        Some(p) => {
                            proof {
                                lemma_position_of(views(outside@), d@, p as int);
                            }
                            p
                        },
                        None => {
                            outside.push(d.to_owned());
                            proof {
                                assert(views(outside@) =~= before.push(d@));
                                lemma_position_of(views(outside@), d@, before.len() as int);
                                lemma_outside_prefix(ts, i as int, k + 1);
                            }
                            outside.len() - 1
                        },
                    };
                    proof {
                        lemma_outside_prefix(ts, i as int, k + 1);
                    }
                    n + pos
                },
            };
            proof {
                assert(views(outside@) == outside_after(ts, i as int, k + 1));
                assert(ni as int == dep_node(ts, i as int, k as int));
            }
            let ghost prev = deps@;
            deps.push(ni);
            assert(deps@ =~= Seq::new((k + 1) as nat, |j: int| dep_node(ts, i as int, j) as usize));
            k = k + 1;
        }
        let node = GraphNode {
            name: t.name.clone(),
            sub: t.rule_name().to_owned(),
            external: false,
            kind: Some(target_kind(templates, t)),
            target_idx: Some(i),
            deps,
        };
        let ghost prev = node_views(nodes@);
        nodes.push(node);
        proof {
            assert(node@ == target_node(ts, *templates, i as int));
            assert(node_views(nodes@) =~= prev.push(node@));
            assert(node_views(nodes@) =~= Seq::new((i + 1) as nat, |j: int| target_node(ts, *templates, j)));
            assert(outside_after(ts, i + 1, 0) == outside_after(ts, i as int, m as int));
        }
        i = i + 1;
    }
    let ghost base = node_views(nodes@);
    let ghost all = outside_all(ts);
    let mut e: usize = 0;
    while e < outside.len()
        invariant
            views(outside@) == all,
            node_views(nodes@) == base + all.take(e as int).map_values(|d: Seq<char>| outside_node(d)),
            e <= outside@.len(),
        decreases outside@.len() - e,
    {
        let d = outside[e].as_str();
        let node = GraphNode {
            name: after_colon(d),
            sub: "extern".to_owned(),
            external: true,
            kind: None,
            target_idx: None,
            deps: Vec::new(),
        };
        let ghost prev = node_views(nodes@);
        nodes.push(node);
        proof {
            reveal_strlit("extern");
            assert(views(outside@)[e as int] == d@);
            assert(node_views(nodes@) =~= prev.push(outside_node(d@)));
            assert(all.take(e + 1) =~= all.take(e as int).push(all[e as int]));
            assert(all.take(e + 1).map_values(|d: Seq<char>| outside_node(d)) =~= all.take(e as int).map_values(
                |d: Seq<char>| outside_node(d),
            ).push(outside_node(all[e as int])));
        }
        e = e + 1;
    }
    proof {
        assert(all.take(e as int) =~= all);
        assert(node_views(nodes@) =~= graph_spec(ts, *templates));
    }
    nodes
}

/// No more is met after the first `k` dependencies of target `i` than in
/// all.
proof fn lemma_outside_prefix(ts: Seq<Target>, i: int, k: int)
    requires
        0 <= i < ts.len(),
        0 <= k <= ts[i].deps@.len(),
    ensures
        outside_after(ts, i, k).len() <= outside_all(ts).len(),
    decreases ts.len() - i, ts[i].deps@.len() - k,
{
    if k < ts[i].deps@.len() {
        lemma_outside_prefix(ts, i, k + 1);
    } else if i + 1 < ts.len() {
        assert(outside_after(ts, i + 1, 0) == outside_after(ts, i, k));
        lemma_outside_prefix(ts, i + 1, 0);
    } else {
        assert(outside_all(ts) == outside_after(ts, i + 1, 0));
    }
}

/// The text after the last `:` of `d`.
fn after_colon(d: &str) -> (r: String)
    ensures
        r@ == after_last_colon(d@),
{
    let n = d.unicode_len();
    match crate::big::last_char(d, ':') {
        Some(k) => {
            proof {
                crate::buck::lemma_last_index_bound(d@, ':');
            }
            let s = d.substring_char(k + 1, n);
            assert(s@ =~= d@.skip(k + 1));
            s.to_owned()
        },
        None => d.to_owned(),
    }
}

/// A target found by `first_from` is one of the targets searched, and
/// has the property.
proof fn lemma_first_from_bound(ts: Seq<Target>, k: int, p: spec_fn(Target) -> bool)
    ensures
        first_from(ts, k, p) matches Some(j) ==> 0 <= k <= j < ts.len() && p(ts[j]),
    decreases ts.len() - k,
{
    if 0 <= k < ts.len() && !p(ts[k]) {
        lemma_first_from_bound(ts, k + 1, p);
    }
}

/// A text that a list holds has a first position in it.
proof fn lemma_first_position(s: Seq<Seq<char>>, x: Seq<char>)
    requires
        s.contains(x),
    ensures
        0 <= position_of(s, x) < s.len(),
        s[position_of(s, x)] == x,
        forall|m: int| 0 <= m < position_of(s, x) ==> s[m] != x,
    decreases s.len(),
{
    let j = if s.drop_last().contains(x) {
        lemma_first_position(s.drop_last(), x);
        let j = position_of(s.drop_last(), x);
        assert forall|m: int| 0 <= m < j implies s[m] != x by {
            assert(s[m] == s.drop_last()[m]);
        }
        assert(s[j] == s.drop_last()[j]);
        j
    } else {
        let j = s.len() - 1;
        let w = choose|w: int| 0 <= w < s.len() && s[w] == x;
        if w < j {
            assert(s.drop_last()[w] == x);
        }
        assert forall|m: int| 0 <= m < j implies s[m] != x by {
            if s[m] == x {
                assert(s.drop_last()[m] == x);
            }
        }
        j
    };
    assert(0 <= j < s.len() && s[j] == x && forall|m: int| 0 <= m < j ==> s[m] != x);
}

/// Dependency `k` of target `i` points at a node of the graph.
proof fn lemma_dep_node_bound(ts: Seq<Target>, i: int, k: int)
    requires
        0 <= i < ts.len(),
        0 <= k < ts[i].deps@.len(),
    ensures
        0 <= dep_node(ts, i, k) < ts.len() + outside_all(ts).len(),
{
    let d = ts[i].deps@[k]@;
    match resolve(ts, i, d) {
        Some(j) => {
            if d.len() > 0 && d[0] == ':' {
                lemma_first_from_bound(ts, 0, named_in(ts[i].package@, d.skip(1)));
            } else {
                lemma_first_from_bound(ts, 0, labelled(d));
            }
        },
        None => {
            let e = outside_after(ts, i, k + 1);
            assert(e.contains(d)) by {
                let before = outside_after(ts, i, k);
                if !before.contains(d) {
                    assert(e == before.push(d));
                    assert(e[before.len() as int] == d);
                } else {
                    assert(e == before);
                }
            }
            lemma_first_position(e, d);
            lemma_outside_prefix(ts, i, k + 1);
        },
    }
}

/// Every edge of the graph points at one of its nodes.
pub proof fn law_edges_point_at_nodes(ts: Seq<Target>, templates: TemplateSet)
    requires
        ts.len() + outside_all(ts).len() <= usize::MAX,
    ensures
        forall|a: int, q: int|
            0 <= a < graph_spec(ts, templates).len() && 0 <= q < graph_spec(ts, templates)[a].deps.len()
                ==> #[trigger] graph_spec(ts, templates)[a].deps[q] < graph_spec(ts, templates).len(),
{
    let g = graph_spec(ts, templates);
    assert forall|a: int, q: int| 0 <= a < g.len() && 0 <= q < g[a].deps.len() implies #[trigger] g[a].deps[q] < g.len() by {
        if a < ts.len() {
            assert(g[a] == target_node(ts, templates, a));
            lemma_dep_node_bound(ts, a, q);
        } else {
            assert(g[a] == outside_node(outside_all(ts)[a - ts.len()]));
        }
    }
}

// ---------------------------------------------------------------------------
// Columns

/// One rank raised past another, stopping at the largest `usize`.
pub open spec fn one_past(x: int) -> int {
    if x < usize::MAX {
        x + 1
    } else {
        x
    }
}

/// The ranks after relaxing the edges of the nodes before `a` and the
/// first `k` edges of node `a`, one after another, starting from `r0`; and
/// whether any rank changed. An edge from `a` to `d` (not `a` itself)
/// puts `d` at least one column right of `a`.
pub open spec fn relax_after(deps: Seq<Seq<usize>>, r0: Seq<int>, a: int, k: int) -> (Seq<int>, bool)
    decreases a, k,
{
    if a < 0 || a > deps.len() {
        (r0, false)
    } else if k > 0 {
        let (r, ch) = relax_after(deps, r0, a, k - 1);
        if a < deps.len() && k - 1 < deps[a].len() {
            let d = deps[a][k - 1] as int;
            if d != a && 0 <= d < r.len() && r[d] < one_past(r[a]) {
                (r.update(d, one_past(r[a])), true)
            } else {
                (r, ch)
            }
        } else {
            (r, ch)
        }
    } else if a > 0 {
        relax_after(deps, r0, a - 1, deps[a - 1].len() as int)
    } else {
        (r0, false)
    }
}

/// The ranks after `t` passes over all edges, stopping early after a pass
/// that changes nothing; and whether the last pass changed anything.
pub open spec fn ranks_after(deps: Seq<Seq<usize>>, t: nat) -> (Seq<int>, bool)
    decreases t,
{
    if t == 0 {
        (Seq::new(deps.len(), |i: int| 0), true)
    } else {
        let (r, go) = ranks_after(deps, (t - 1) as nat);
        if go {
            relax_after(deps, r, deps.len() as int, 0)
        } else {
            (r, false)
        }
    }
}

/// The column of each node: nodes nobody depends on stand in column 0,
/// each dependency right of its deepest dependent; at most one pass per
/// node, so a cycle just stops deepening.
pub open spec fn columns_spec(deps: Seq<Seq<usize>>) -> Seq<int> {
    ranks_after(deps, deps.len()).0
}

/// The edges of the nodes.
pub open spec fn edges_of(nodes: Seq<GraphNode>) -> Seq<Seq<usize>> {
    nodes.map_values(|n: GraphNode| n.deps@)
}

/// The column each node of the graph stands in.
pub fn columns(nodes: &Vec<GraphNode>) -> (r: Vec<usize>)
    ensures
        r@.map_values(|x: usize| x as int) == columns_spec(edges_of(nodes@)),
{
    let ghost deps = edges_of(nodes@);
    let n = nodes.len();
    let mut rank: Vec<usize> = Vec::new();
    let mut z: usize = 0;
    while z < n
        invariant
            z <= n,
            rank@.map_values(|x: usize| x as int) == Seq::new(z as nat, |i: int| 0int),
        decreases n - z,
    {
        let ghost before = rank@;
        rank.push(0);
        assert(rank@ == before.push(0usize));
        assert(rank@.map_values(|x: usize| x as int) =~= before.map_values(|x: usize| x as int).push(0int));
        assert(rank@.map_values(|x: usize| x as int) =~= Seq::new((z + 1) as nat, |i: int| 0int));
        z = z + 1;
    }
    let mut go = true;
    let mut t: usize = 0;
    while t < n
        invariant
            deps == edges_of(nodes@),
            n == nodes@.len(),
            t <= n,
            (rank@.map_values(|x: usize| x as int), go) == ranks_after(deps, t as nat),
            rank@.len() == n,
        decreases n - t,
    {
        if go {
            let ghost r0 = rank@.map_values(|x: usize| x as int);
            let mut changed = false;
            let mut a: usize = 0;
            while a < n
                invariant
                    deps == edges_of(nodes@),
                    n == nodes@.len(),
                    a <= n,
                    rank@.len() == n,
                    (rank@.map_values(|x: usize| x as int), changed) == relax_after(deps, r0, a as int, 0),
                decreases n - a,
            {
                let ds = &nodes[a].deps;
                assert(ds@ == deps[a as int]);
                let mut k: usize = 0;
                while k < ds.len()
                    invariant
                        deps == edges_of(nodes@),
                        n == nodes@.len(),
                        a < n,
                        ds@ == deps[a as int],
                        k <= ds@.len(),
                        rank@.len() == n,
                        (rank@.map_values(|x: usize| x as int), changed) == relax_after(deps, r0, a as int, k as int),
                    decreases ds@.len() - k,
                {
                    let d = ds[k];
                    let up = rank[a].saturating_add(1);
                    let ghost before = rank@;
                    if d != a && d < n && rank[d] < up {
                        rank.set(d, up);
                        changed = true;
                        assert(rank@.map_values(|x: usize| x as int) =~= before.map_values(|x: usize| x as int).update(
                            d as int,
                            up as int,
                        ));
                    }
                    k = k + 1;
                }
                proof {
                    assert(relax_after(deps, r0, a + 1, 0) == relax_after(deps, r0, a as int, deps[a as int].len() as int));
                }
                a = a + 1;
            }
            go = changed;
        }
        t = t + 1;
    }
    rank
}

/// The row of each node within its column: how many nodes before it stand
/// in the same column.
pub open spec fn row_spec(cols: Seq<int>, i: int, j: int) -> int
    decreases j,
{
    if j <= 0 {
        0
    } else {
        row_spec(cols, i, j - 1) + if cols[j - 1] == cols[i] {
            1int
        } else {
            0int
        }
    }
}

/// The row of each node within its column.
pub fn rows_in_columns(cols: &Vec<usize>) -> (r: Vec<usize>)
    ensures
        r@.len() == cols@.len(),
        forall|i: int|
            0 <= i < cols@.len() ==> r@[i] as int == row_spec(cols@.map_values(|x: usize| x as int), i, i),
{
    let ghost cv = cols@.map_values(|x: usize| x as int);
    let n = cols.len();
    let mut out: Vec<usize> = Vec::new();
    let mut i: usize = 0;
    while i < n
        invariant
            cv == cols@.map_values(|x: usize| x as int),
            n == cols@.len(),
            i <= n,
            out@.len() == i,
            forall|m: int| 0 <= m < i ==> out@[m] as int == row_spec(cv, m, m),
        decreases n - i,
    {
        let mut c: usize = 0;
        let mut j: usize = 0;
        while j < i
            invariant
                cv == cols@.map_values(|x: usize| x as int),
                n == cols@.len(),
                i < n,
                j <= i,
                c <= j,
                c as int == row_spec(cv, i as int, j as int),
            decreases i - j,
        {
            if cols[j] == cols[i] {
                c = c + 1;
            }
            j = j + 1;
        }
        out.push(c);
        i = i + 1;
    }
    out
}

/// A graph without edges has every node in the first column.
pub proof fn law_no_edges_one_column(deps: Seq<Seq<usize>>)
    requires
        forall|a: int| 0 <= a < deps.len() ==> (#[trigger] deps[a]).len() == 0,
    ensures
        forall|i: int| 0 <= i < deps.len() ==> #[trigger] columns_spec(deps)[i] == 0,
{
    let z = Seq::new(deps.len(), |i: int| 0int);
    assert forall|a: int| 0 <= a <= deps.len() implies #[trigger] relax_after(deps, z, a, 0) == (z, false) by {
        lemma_no_edges_pass(deps, z, a);
    }
    lemma_no_edges_ranks(deps, deps.len());
}

proof fn lemma_no_edges_pass(deps: Seq<Seq<usize>>, z: Seq<int>, a: int)
    requires
        forall|b: int| 0 <= b < deps.len() ==> (#[trigger] deps[b]).len() == 0,
        0 <= a <= deps.len(),
    ensures
        relax_after(deps, z, a, 0) == (z, false),
    decreases a,
{
    if a > 0 {
        assert(deps[a - 1].len() == 0);
        lemma_no_edges_pass(deps, z, a - 1);
    }
}

proof fn lemma_no_edges_ranks(deps: Seq<Seq<usize>>, t: nat)
    requires
        forall|b: int| 0 <= b < deps.len() ==> (#[trigger] deps[b]).len() == 0,
    ensures
        ranks_after(deps, t).0 == Seq::new(deps.len(), |i: int| 0int),
    decreases t,
{
    if t > 0 {
        lemma_no_edges_ranks(deps, (t - 1) as nat);
        let z = Seq::new(deps.len(), |i: int| 0int);
        lemma_no_edges_pass(deps, z, deps.len() as int);
    }
}


/// The count `row_spec(cols, i, m)` depends on node `i` only through its
/// column.
proof fn lemma_row_same(cols: Seq<int>, i: int, j: int, m: int)
    requires
        0 <= i < cols.len(),
        0 <= j < cols.len(),
        cols[i] == cols[j],
        0 <= m <= cols.len(),
    ensures
        row_spec(cols, i, m) == row_spec(cols, j, m),
    decreases m,
{
    if m > 0 {
        lemma_row_same(cols, i, j, m - 1);
    }
}

/// The count `row_spec(cols, i, m)` grows with `m`.
proof fn lemma_row_grows(cols: Seq<int>, i: int, m: int, m2: int)
    requires
        0 <= m <= m2 <= cols.len(),
    ensures
        row_spec(cols, i, m) <= row_spec(cols, i, m2),
    decreases m2,
{
    if m2 > m {
        lemma_row_grows(cols, i, m, m2 - 1);
    }
}

/// Two nodes in the same column never share a row: the later one stands
/// below the earlier one. So the rows of a column are 0, 1, 2, ... in the
/// order of the nodes, the first node of a column on row 0.
pub proof fn law_rows_apart(cols: Seq<int>)
    ensures
        forall|i: int, j: int|
            0 <= i < j < cols.len() && cols[i] == cols[j] ==> #[trigger] row_spec(cols, i, i) < #[trigger] row_spec(
                cols,
                j,
                j,
            ),
        forall|i: int| 0 <= i < cols.len() ==> (forall|k: int| 0 <= k < i ==> cols[k] != cols[i]) ==> #[trigger] row_spec(cols, i, i) == 0,
        forall|i: int, j: int|
            0 <= i < j < cols.len() && cols[i] == cols[j] && (forall|k: int| i < k < j ==> cols[k] != cols[i])
                ==> #[trigger] row_spec(cols, j, j) == #[trigger] row_spec(cols, i, i) + 1,
{
    assert forall|i: int, j: int| 0 <= i < j < cols.len() && cols[i] == cols[j] implies #[trigger] row_spec(
        cols,
        i,
        i,
    ) < #[trigger] row_spec(cols, j, j) by {
        lemma_row_same(cols, i, j, i);
        lemma_row_grows(cols, j, i + 1, j);
        assert(row_spec(cols, j, i + 1) == row_spec(cols, j, i) + 1);
    }
    assert forall|i: int| 0 <= i < cols.len() && (forall|k: int| 0 <= k < i ==> cols[k] != cols[i]) implies #[trigger] row_spec(cols, i, i) == 0 by {
        lemma_no_same_before(cols, i, i);
    }
    assert forall|i: int, j: int|
        0 <= i < j < cols.len() && cols[i] == cols[j] && (forall|k: int| i < k < j ==> cols[k] != cols[i])
        implies #[trigger] row_spec(cols, j, j) == #[trigger] row_spec(cols, i, i) + 1 by {
        lemma_row_same(cols, i, j, i);
        assert(row_spec(cols, j, i + 1) == row_spec(cols, j, i) + 1);
        lemma_no_same_between(cols, i, j, j);
    }
}

proof fn lemma_no_same_between(cols: Seq<int>, i: int, j: int, m: int)
    requires
        0 <= i < m <= j < cols.len(),
        cols[i] == cols[j],
        forall|k: int| i < k < j ==> cols[k] != cols[i],
    ensures
        row_spec(cols, j, m) == row_spec(cols, j, i + 1),
    decreases m,
{
    if m > i + 1 {
        lemma_no_same_between(cols, i, j, m - 1);
    }
}

proof fn lemma_no_same_before(cols: Seq<int>, i: int, m: int)
    requires
        0 <= m <= i < cols.len(),
        forall|k: int| 0 <= k < i ==> cols[k] != cols[i],
    ensures
        row_spec(cols, i, m) == 0,
    decreases m,
{
    if m > 0 {
        lemma_no_same_before(cols, i, m - 1);
    }
}

} // verus!
