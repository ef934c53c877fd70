//! Counts over a vault graph: documents by kind, links, unlinked notes, and
//! connected components.

use vstd::prelude::*;
use vstd::pervasive::VecAdditionalExecFns;
use vstd::set_lib::lemma_map_size;

use crate::graph::{
    has_node, in_layout, is_unconnected, GraphNodeKind, GraphSnapshot, NodeView, EdgeView,
    SnapshotView,
};
use crate::path_set::{distinct_paths, path_set, PathSet};
use crate::graph_rank::{
    lemma_path_less_total, lemma_path_less_transitive, path_less, path_less_chars,
};
use crate::text::{chars_equal, chars_of};

verus! {

/// Counts over the whole vault graph.
#[derive(Debug, Clone, PartialEq, Eq)]
pub struct GraphStats {
    pub markdown: usize,
    pub pdfs: usize,
    pub missing: usize,
    pub connections: usize,
    pub unconnected: usize,
    pub components: usize,
}

impl GraphStats {
    /// All counts zero.
    pub fn new() -> (s: GraphStats)
        ensures
            s.markdown == 0 && s.pdfs == 0 && s.missing == 0 && s.connections == 0
                && s.unconnected == 0 && s.components == 0,
    {
        GraphStats { markdown: 0, pdfs: 0, missing: 0, connections: 0, unconnected: 0, components: 0 }
    }

    /// Markdown notes and PDFs together.
    pub fn documents(&self) -> (r: usize)
        requires
            self.markdown + self.pdfs <= usize::MAX,
        ensures
            r == self.markdown + self.pdfs,
    {
        self.markdown + self.pdfs
    }
}

impl Default for GraphStats {
    fn default() -> (s: GraphStats)
        ensures
            s.markdown == 0 && s.pdfs == 0 && s.missing == 0 && s.connections == 0
                && s.unconnected == 0 && s.components == 0,
    {
        GraphStats::new()
    }
}

/// How many of `nodes` are of this kind.
pub open spec fn count_kind(nodes: Seq<NodeView>, kind: GraphNodeKind) -> nat
    decreases nodes.len(),
{
    if nodes.len() == 0 {
        0
    } else {
        count_kind(nodes.drop_last(), kind) + if nodes.last().kind == kind {
            1nat
        } else {
            0nat
        }
    }
}

/// How many of `nodes` are notes with no links.
pub open spec fn count_unconnected(nodes: Seq<NodeView>) -> nat
    decreases nodes.len(),
{
    if nodes.len() == 0 {
        0
    } else {
        count_unconnected(nodes.drop_last()) + if is_unconnected(nodes.last()) {
            1nat
        } else {
            0nat
        }
    }
}

/// The weights of `edges`, added up.
pub open spec fn total_weight(edges: Seq<EdgeView>) -> nat
    decreases edges.len(),
{
    if edges.len() == 0 {
        0
    } else {
        total_weight(edges.drop_last()) + edges.last().weight as nat
    }
}

/// `a` and `b` are joined through the first `k` edges, each taken in either
/// direction.
pub open spec fn joined_by(s: SnapshotView, k: nat, a: Seq<char>, b: Seq<char>) -> bool
    decreases k,
{
    if k == 0 {
        a == b
    } else {
        let e = s.edges[k - 1];
        let prev = (k - 1) as nat;
        ||| joined_by(s, prev, a, b)
        ||| joined_by(s, prev, a, e.source) && joined_by(s, prev, e.target, b)
        ||| joined_by(s, prev, a, e.target) && joined_by(s, prev, e.source, b)
    }
}

/// `a` and `b` are joined through the graph's edges.
pub open spec fn connected(s: SnapshotView, a: Seq<char>, b: Seq<char>) -> bool {
    joined_by(s, s.edges.len(), a, b)
}

/// Every path the graph mentions: its nodes and both ends of its edges.
pub open spec fn vertices(s: SnapshotView) -> Set<Seq<char>> {
    Set::new(|p: Seq<char>| in_layout(s, p))
}

/// The paths connected to `p`.
pub open spec fn component(s: SnapshotView, p: Seq<char>) -> Set<Seq<char>> {
    vertices(s).filter(|q: Seq<char>| connected(s, p, q))
}

/// The graph's connected components.
pub open spec fn components(s: SnapshotView) -> Set<Set<Seq<char>>> {
    vertices(s).map(|p: Seq<char>| component(s, p))
}

/// The counts [`compute_stats`] gives for `s`.
pub open spec fn stats_match(r: GraphStats, s: SnapshotView) -> bool {
    &&& r.markdown == count_kind(s.nodes, GraphNodeKind::Markdown)
    &&& r.pdfs == count_kind(s.nodes, GraphNodeKind::Pdf)
    &&& r.missing == count_kind(s.nodes, GraphNodeKind::Missing)
    &&& r.connections == total_weight(s.edges)
    &&& r.unconnected == count_unconnected(s.nodes)
    &&& components(s).finite()
    &&& r.components == components(s).len()
}

/// The positions below `n` whose label is their own position.
pub open spec fn leaders(labels: Seq<usize>, n: int) -> Set<int> {
    Set::new(|x: int| 0 <= x < n && labels[x] == x)
}

/// Being joined is reflexive.
pub proof fn lemma_joined_reflexive(s: SnapshotView, k: nat, a: Seq<char>)
    ensures
        joined_by(s, k, a, a),
    decreases k,
{
    if k > 0 {
        lemma_joined_reflexive(s, (k - 1) as nat, a);
    }
}

/// Being joined is symmetric.
pub proof fn lemma_joined_symmetric(s: SnapshotView, k: nat, a: Seq<char>, b: Seq<char>)
    ensures
        joined_by(s, k, a, b) ==> joined_by(s, k, b, a),
    decreases k,
{
    if k > 0 {
        let e = s.edges[k - 1];
        let prev = (k - 1) as nat;
        lemma_joined_symmetric(s, prev, a, b);
        lemma_joined_symmetric(s, prev, a, e.source);
        lemma_joined_symmetric(s, prev, e.target, b);
        lemma_joined_symmetric(s, prev, a, e.target);
        lemma_joined_symmetric(s, prev, e.source, b);
    }
}

/// Being joined is transitive.
pub proof fn lemma_joined_transitive(
    s: SnapshotView,
    k: nat,
    a: Seq<char>,
    b: Seq<char>,
    c: Seq<char>,
)
    ensures
        joined_by(s, k, a, b) && joined_by(s, k, b, c) ==> joined_by(s, k, a, c),
    decreases k,
{
    if k > 0 {
        let e = s.edges[k - 1];
        let (u, v) = (e.source, e.target);
        let prev = (k - 1) as nat;
        lemma_joined_transitive(s, prev, a, b, c);
        lemma_joined_transitive(s, prev, a, b, u);
        lemma_joined_transitive(s, prev, a, b, v);
        lemma_joined_transitive(s, prev, v, b, c);
        lemma_joined_transitive(s, prev, u, b, c);
        lemma_joined_transitive(s, prev, a, u, c);
        lemma_joined_transitive(s, prev, a, v, c);
    }
}

/// Connected paths have the same component.
proof fn lemma_same_component(s: SnapshotView, p: Seq<char>, q: Seq<char>)
    requires
        connected(s, p, q),
    ensures
        component(s, p) == component(s, q),
{
    let k = s.edges.len();
    assert forall|x: Seq<char>| component(s, p).contains(x) <==> component(s, q).contains(x) by {
        lemma_joined_symmetric(s, k, p, q);
        lemma_joined_transitive(s, k, q, p, x);
        lemma_joined_transitive(s, k, p, q, x);
    }
    assert(component(s, p) =~= component(s, q));
}

fn position_in(vs: &Vec<String>, p: &Vec<char>) -> (r: usize)
    requires
        path_set(vs@).contains(p@),
    ensures
        r < vs@.len(),
        vs@[r as int]@ == p@,
{
    let mut i: usize = 0;
    while i < vs.len()
        invariant
            path_set(vs@).contains(p@),
            i <= vs@.len(),
            forall|j: int| 0 <= j < i ==> (#[trigger] vs@[j])@ != p@,
        decreases vs@.len() - i,
    {
        if chars_equal(&chars_of(vs[i].as_str()), p) {
            return i;
        }
        i = i + 1;
    }
    proof {
        let j = choose|j: int| 0 <= j < vs@.len() && (#[trigger] vs@[j])@ == p@;
        assert(vs@[j]@ != p@);
    }
    0
}

pub(crate) fn vertex_list(snapshot: &GraphSnapshot) -> (vs: Vec<String>)
    ensures
        path_set(vs@) == vertices(snapshot@),
        distinct_paths(vs@),
{
    let ghost s = snapshot@;
    let mut set = PathSet::new();
    let mut i: usize = 0;
    while i < snapshot.nodes.len()
        invariant
            s == snapshot@,
            i <= s.nodes.len(),
            set.wf(),
            set.set() == Set::new(
                |p: Seq<char>| exists|j: int| 0 <= j < i && (#[trigger] s.nodes[j]).path == p,
            ),
        decreases s.nodes.len() - i,
    {
        let ghost before = set.set();
        set.insert(snapshot.nodes[i].path.clone());
        assert(set.set() =~= Set::new(
            |p: Seq<char>| exists|j: int| 0 <= j < i + 1 && (#[trigger] s.nodes[j]).path == p,
        )) by {
            assert(s.nodes[i as int].path == snapshot.nodes@[i as int].path@);
            assert forall|p: Seq<char>|
                (exists|j: int| 0 <= j < i + 1 && (#[trigger] s.nodes[j]).path == p) implies set.set().contains(p) by {
                let j = choose|j: int| 0 <= j < i + 1 && (#[trigger] s.nodes[j]).path == p;
                if j < i {
                    assert(before.contains(p));
                }
            }
        }
        i = i + 1;
    }
    let mut k: usize = 0;
    while k < snapshot.edges.len()
        invariant
            s == snapshot@,
            k <= s.edges.len(),
            set.wf(),
            set.set() == Set::new(
                |p: Seq<char>|
                    has_node(s, p) || exists|j: int|
                        0 <= j < k && ((#[trigger] s.edges[j]).source == p || s.edges[j].target
                            == p),
            ),
        decreases s.edges.len() - k,
    {
        let ghost before = set.set();
        set.insert(snapshot.edges[k].source.clone());
        set.insert(snapshot.edges[k].target.clone());
        assert(set.set() =~= Set::new(
            |p: Seq<char>|
                has_node(s, p) || exists|j: int|
                    0 <= j < k + 1 && ((#[trigger] s.edges[j]).source == p || s.edges[j].target
                        == p),
        )) by {
            assert(s.edges[k as int].source == snapshot.edges@[k as int].source@);
            assert(s.edges[k as int].target == snapshot.edges@[k as int].target@);
            assert forall|p: Seq<char>|
                has_node(s, p) || (exists|j: int|
                    0 <= j < k + 1 && ((#[trigger] s.edges[j]).source == p || s.edges[j].target
                        == p)) implies set.set().contains(p) by {
                if !has_node(s, p) {
                    let j = choose|j: int|
                        0 <= j < k + 1 && ((#[trigger] s.edges[j]).source == p || s.edges[j].target
                            == p);
                    if j < k {
                        assert(before.contains(p));
                    }
                }
            }
        }
        k = k + 1;
    }
    assert(set.set() =~= vertices(s));
    set.to_vec()
}

/// The number of connected components of the graph: sets of paths joined by
/// edges, each edge taken in either direction.
fn component_labels(snapshot: &GraphSnapshot) -> (r: (Vec<String>, Vec<usize>))
    ensures
        path_set(r.0@) == vertices(snapshot@),
        distinct_paths(r.0@),
        labels_components(snapshot@, r.0@, r.1@),
{
    let ghost s = snapshot@;
    let vs = vertex_list(snapshot);
    let m = vs.len();
    // Each path starts as its own component, labelled by its position.
    let mut labels: Vec<usize> = Vec::new();
    let mut i: usize = 0;
    while i < m
        invariant
            m == vs@.len(),
            i <= m,
            labels@.len() == i,
            forall|x: int| 0 <= x < i ==> #[trigger] labels@[x] == x,
        decreases m - i,
    {
        labels.push(i);
        i = i + 1;
    }
    assert forall|x: int, y: int|
        0 <= x < m && 0 <= y < m implies (#[trigger] labels@[x] == #[trigger] labels@[y])
        == joined_by(s, 0, vs@[x]@, vs@[y]@) by {
        if x != y {
            assert(distinct_paths(vs@));
            if x < y {
                assert(vs@[x]@ != vs@[y]@);
            } else {
                assert(vs@[y]@ != vs@[x]@);
            }
        }
    }
    // Merge the components of each edge's ends, one edge at a time.
    let mut k: usize = 0;
    while k < snapshot.edges.len()
        invariant
            s == snapshot@,
            m == vs@.len(),
            path_set(vs@) == vertices(s),
            distinct_paths(vs@),
            k <= s.edges.len(),
            labels@.len() == m,
            forall|x: int| 0 <= x < m ==> #[trigger] labels@[x] < m,
            forall|x: int| 0 <= x < m ==> labels@[#[trigger] labels@[x] as int] == labels@[x],
            forall|x: int, y: int|
                0 <= x < m && 0 <= y < m ==> (#[trigger] labels@[x] == #[trigger] labels@[y])
                    == joined_by(s, k as nat, vs@[x]@, vs@[y]@),
        decreases s.edges.len() - k,
    {
        let e = &snapshot.edges[k];
        proof {
            assert(in_layout(s, e.source@) && in_layout(s, e.target@)) by {
                assert(s.edges[k as int].source == e.source@);
                assert(s.edges[k as int].target == e.target@);
            }
            assert(vertices(s).contains(e.source@));
            assert(vertices(s).contains(e.target@));
        }
        let u = position_in(&vs, &chars_of(e.source.as_str()));
        let v = position_in(&vs, &chars_of(e.target.as_str()));
        let lu = labels[u];
        let lv = labels[v];
        let ghost old_labels = labels@;
        if lu != lv {
            let mut z: usize = 0;
            while z < m
                invariant
                    m == labels@.len(),
                    old_labels.len() == m,
                    z <= m,
                    forall|x: int|
                        0 <= x < z ==> #[trigger] labels@[x] == if old_labels[x] == lv {
                            lu
                        } else {
                            old_labels[x]
                        },
                    forall|x: int| z <= x < m ==> #[trigger] labels@[x] == old_labels[x],
                decreases m - z,
            {
                if labels[z] == lv {
                    labels.set(z, lu);
                }
                z = z + 1;
            }
        }
        proof {
            let f = |l: usize| if l == lv { lu } else { l };
            assert forall|x: int| 0 <= x < m implies #[trigger] labels@[x] == f(old_labels[x]) by {}
            assert(old_labels[lu as int] == lu);
            assert forall|x: int| 0 <= x < m implies labels@[#[trigger] labels@[x] as int]
                == labels@[x] by {
                assert(old_labels[old_labels[x] as int] == old_labels[x]);
            }
            assert forall|x: int, y: int|
                0 <= x < m && 0 <= y < m implies (#[trigger] labels@[x] == #[trigger] labels@[y])
                == joined_by(s, (k + 1) as nat, vs@[x]@, vs@[y]@) by {
                assert(s.edges[k as int].source == vs@[u as int]@);
                assert(s.edges[k as int].target == vs@[v as int]@);
                assert(old_labels[x] == old_labels[y] <==> joined_by(s, k as nat, vs@[x]@, vs@[y]@));
                assert(old_labels[x] == old_labels[u as int] <==> joined_by(
                    s,
                    k as nat,
                    vs@[x]@,
                    vs@[u as int]@,
                ));
                assert(old_labels[v as int] == old_labels[y] <==> joined_by(
                    s,
                    k as nat,
                    vs@[v as int]@,
                    vs@[y]@,
                ));
                assert(old_labels[x] == old_labels[v as int] <==> joined_by(
                    s,
                    k as nat,
                    vs@[x]@,
                    vs@[v as int]@,
                ));
                assert(old_labels[u as int] == old_labels[y] <==> joined_by(
                    s,
                    k as nat,
                    vs@[u as int]@,
                    vs@[y]@,
                ));
            }
        }
        k = k + 1;
    }
    (vs, labels)
}

/// `labels` gives each path of `vs` the position of a path in its component,
/// the same for the whole component: the component's leader, which is
/// labelled by its own position.
pub open spec fn labels_components(s: SnapshotView, vs: Seq<String>, labels: Seq<usize>) -> bool {
    &&& labels.len() == vs.len()
    &&& forall|x: int| 0 <= x < vs.len() ==> #[trigger] labels[x] < vs.len()
    &&& forall|x: int| 0 <= x < vs.len() ==> labels[#[trigger] labels[x] as int] == labels[x]
    &&& forall|x: int, y: int|
        0 <= x < vs.len() && 0 <= y < vs.len() ==> (#[trigger] labels[x] == #[trigger] labels[y])
            == connected(s, vs[x]@, vs[y]@)
}

/// The number of connected components of the graph: sets of paths joined by
/// edges, each edge taken in either direction.
pub fn component_count(snapshot: &GraphSnapshot) -> (r: usize)
    ensures
        components(snapshot@).finite(),
        r == components(snapshot@).len(),
{
    let ghost s = snapshot@;
    let (vs, labels) = component_labels(snapshot);
    let m = vs.len();
    proof {
        lemma_leaders_count_components(s, vs@, labels@);
    }
    // Count the components by their leaders: the paths labelled by their own
    // position.
    let mut count: usize = 0;
    let mut x: usize = 0;
    assert(leaders(labels@, 0) =~= Set::<int>::empty());
    while x < m
        invariant
            m == labels@.len(),
            x <= m,
            count <= x,
            leaders(labels@, x as int).finite(),
            count == leaders(labels@, x as int).len(),
        decreases m - x,
    {
        if labels[x] == x {
            assert(leaders(labels@, x + 1) =~= leaders(labels@, x as int).insert(x as int));
            count = count + 1;
        } else {
            assert(leaders(labels@, x + 1) =~= leaders(labels@, x as int));
        }
        x = x + 1;
    }
    count
}


/// The leaders stand one for one for the components.
proof fn lemma_leaders_count_components(s: SnapshotView, vs: Seq<String>, labels: Seq<usize>)
    requires
        path_set(vs) == vertices(s),
        distinct_paths(vs),
        labels_components(s, vs, labels),
    ensures
        leaders(labels, vs.len() as int).finite() ==> components(s).finite() && components(s).len()
            == leaders(labels, vs.len() as int).len(),
        components(s) == leaders(labels, vs.len() as int).map(|x: int| component(s, vs[x]@)),
        forall|x: int, y: int|
            leaders(labels, vs.len() as int).contains(x) && leaders(labels, vs.len() as int).contains(y)
                && component(s, vs[x]@) == component(s, vs[y]@) ==> x == y,
{
    let m = vs.len();
    let leaders = leaders(labels, m as int);
    let k = s.edges.len();
    let f = |x: int| component(s, vs[x]@);
    assert forall|x: int, y: int|
        leaders.contains(x) && leaders.contains(y) && #[trigger] f(x) == #[trigger] f(y) implies x
        == y by {
        lemma_joined_reflexive(s, k, vs[y]@);
        assert(path_set(vs).contains(vs[y]@));
        assert(component(s, vs[y]@).contains(vs[y]@));
        assert(component(s, vs[x]@).contains(vs[y]@));
        assert(labels[x] == labels[y]);
    }
    assert(components(s) =~= leaders.map(f)) by {
        assert forall|c: Set<Seq<char>>| components(s).contains(c) implies leaders.map(f).contains(
            c,
        ) by {
            let p = choose|p: Seq<char>| vertices(s).contains(p) && component(s, p) == c;
            assert(path_set(vs).contains(p));
            let y = choose|y: int| 0 <= y < vs.len() && (#[trigger] vs[y])@ == p;
            let l = labels[y] as int;
            assert(labels[l] == labels[y]);
            assert(joined_by(s, k, vs[l]@, vs[y]@));
            lemma_same_component(s, vs[l]@, vs[y]@);
            assert(leaders.contains(l));
            assert(f(l) == c);
        }
        assert forall|c: Set<Seq<char>>| leaders.map(f).contains(c) implies components(s).contains(
            c,
        ) by {
            let y = choose|y: int| leaders.contains(y) && f(y) == c;
            assert(path_set(vs).contains(vs[y]@));
        }
    }
    assert forall|x: int, y: int|
        leaders.contains(x) && leaders.contains(y) && component(s, vs[x]@) == component(
            s,
            vs[y]@,
        ) implies x == y by {
        assert(f(x) == component(s, vs[x]@) && f(y) == component(s, vs[y]@));
    }
    if leaders.finite() {
        lemma_map_size(leaders, components(s), f);
    }
}


/// Paths in strictly increasing order.
pub open spec fn paths_sorted(v: Seq<String>) -> bool {
    forall|i: int, j: int| 0 <= i < j < v.len() ==> path_less((#[trigger] v[i])@, (#[trigger] v[j])@)
}

/// Component `a` is listed before `b`: it has more paths, or as many and its
/// first path comes first.
pub open spec fn component_before(a: Seq<String>, b: Seq<String>) -> bool {
    ||| a.len() > b.len()
    ||| a.len() == b.len() && a.len() > 0 && b.len() > 0 && path_less(a[0]@, b[0]@)
}

/// `r` lists the graph's connected components: each once, its paths in
/// increasing order, the largest first and equal sizes by first path.
pub open spec fn lists_components(s: SnapshotView, r: Seq<Vec<String>>) -> bool {
    &&& r.len() == components(s).len()
    &&& forall|i: int|
        0 <= i < r.len() ==> {
            &&& (#[trigger] r[i])@.len() > 0
            &&& paths_sorted(r[i]@)
            &&& path_set(r[i]@) == component(s, r[i]@[0]@)
        }
    &&& forall|c: Set<Seq<char>>|
        #[trigger] components(s).contains(c) ==> exists|i: int| 0 <= i < r.len() && path_set(r[i]@) == c
    &&& forall|i: int, j: int|
        0 <= i < j < r.len() ==> component_before((#[trigger] r[i])@, (#[trigger] r[j])@)
}

/// The paths of `v` in increasing order.
pub(crate) fn sort_paths(v: Vec<String>) -> (r: Vec<String>)
    requires
        distinct_paths(v@),
    ensures
        r@.len() == v@.len(),
        path_set(r@) == path_set(v@),
        paths_sorted(r@),
{
    let mut out: Vec<String> = Vec::new();
    let mut i: usize = 0;
    while i < v.len()
        invariant
            distinct_paths(v@),
            i <= v@.len(),
            out@.len() == i,
            path_set(out@) == path_set(v@.take(i as int)),
            paths_sorted(out@),
        decreases v@.len() - i,
    {
        let item = v[i].clone();
        let ic = chars_of(item.as_str());
        let mut p = out.len();
        while p > 0 && path_less_chars(&ic, &chars_of(out[p - 1].as_str()))
            invariant
                p <= out@.len(),
                ic@ == item@,
                forall|q: int| p <= q < out@.len() ==> path_less(item@, (#[trigger] out@[q])@),
            decreases p,
        {
            p = p - 1;
        }
        proof {
            assert(!path_set(v@.take(i as int)).contains(item@)) by {
                if path_set(v@.take(i as int)).contains(item@) {
                    let j = choose|j: int| 0 <= j < v@.take(i as int).len() && (#[trigger] v@.take(i as int)[j])@ == item@;
                    assert(v@[j]@ == v@[i as int]@);
                }
            }
            if p > 0 {
                let last = out@[p - 1];
                assert(path_set(out@).contains(last@));
                lemma_path_less_total(item@, last@);
                assert(path_less(last@, item@));
                assert forall|a: int| 0 <= a < p implies path_less((#[trigger] out@[a])@, item@) by {
                    if a < p - 1 {
                        lemma_path_less_transitive(out@[a]@, last@, item@);
                    }
                }
            }
        }
        let ghost before = out@;
        out.insert(p, item);
        proof {
            assert forall|a: int, b: int| 0 <= a < b < out@.len() implies path_less(
                (#[trigger] out@[a])@,
                (#[trigger] out@[b])@,
            ) by {
                if b < p {
                    assert(out@[a] == before[a] && out@[b] == before[b]);
                } else if b == p {
                    assert(out@[a] == before[a]);
                } else if a < p {
                    assert(out@[a] == before[a] && out@[b] == before[b - 1]);
                    lemma_path_less_transitive(before[a]@, item@, before[b - 1]@);
                } else if a == p {
                    assert(out@[b] == before[b - 1]);
                } else {
                    assert(out@[a] == before[a - 1] && out@[b] == before[b - 1]);
                }
            }
            assert(path_set(out@) =~= path_set(v@.take(i + 1))) by {
                assert(v@.take(i + 1)[i as int] == v@[i as int]);
                assert forall|q: Seq<char>| path_set(out@).contains(q) implies path_set(
                    v@.take(i + 1),
                ).contains(q) by {
                    let k = choose|k: int| 0 <= k < out@.len() && (#[trigger] out@[k])@ == q;
                    if k < p {
                        assert(out@[k] == before[k]);
                    } else if k > p {
                        assert(out@[k] == before[k - 1]);
                    }
                    if k != p {
                        let kb = if k < p { k } else { k - 1 };
                        assert(path_set(before).contains(before[kb]@));
                        let j = choose|j: int| 0 <= j < v@.take(i as int).len() && (#[trigger] v@.take(i as int)[j])@ == q;
                        assert(v@.take(i + 1)[j] == v@.take(i as int)[j]);
                    } else {
                        assert(v@.take(i + 1)[i as int]@ == q);
                    }
                }
                assert forall|q: Seq<char>| path_set(v@.take(i + 1)).contains(q) implies path_set(
                    out@,
                ).contains(q) by {
                    let j = choose|j: int| 0 <= j < v@.take(i + 1).len() && (#[trigger] v@.take(i + 1)[j])@ == q;
                    if j == i {
                        assert(out@[p as int] == item);
                    } else {
                        assert(v@.take(i as int)[j] == v@.take(i + 1)[j]);
                        assert(path_set(before).contains(q));
                        let k = choose|k: int| 0 <= k < before.len() && (#[trigger] before[k])@ == q;
                        if k < p {
                            assert(out@[k] == before[k]);
                        } else {
                            assert(out@[k + 1] == before[k]);
                        }
                    }
                }
            }
        }
        i = i + 1;
    }
    assert(v@.take(i as int) =~= v@);
    out
}


fn component_first(a: &Vec<String>, b: &Vec<String>) -> (r: bool)
    requires
        a@.len() > 0,
        b@.len() > 0,
    ensures
        r == component_before(a@, b@),
{
    if a.len() != b.len() {
        return a.len() > b.len();
    }
    path_less_chars(&chars_of(a[0].as_str()), &chars_of(b[0].as_str()))
}

/// Listing order is a strict total order on different components.
proof fn lemma_component_order(s: SnapshotView, a: Seq<String>, b: Seq<String>, c: Seq<String>)
    requires
        component_list(s, a),
        component_list(s, b),
        component_list(s, c),
    ensures
        a.len() > 0 && b.len() > 0 && c.len() > 0,
        path_set(a) != path_set(b) ==> (component_before(a, b) || component_before(b, a)),
        !(component_before(a, b) && component_before(b, a)),
        component_before(a, b) && component_before(b, c) ==> component_before(a, c),
{
    reveal(component_list);
    lemma_path_less_total(a[0]@, b[0]@);
    lemma_path_less_transitive(a[0]@, b[0]@, c[0]@);
}


/// Each list is a component, its paths in increasing order.
#[verifier::opaque]
pub open spec fn component_list(s: SnapshotView, c: Seq<String>) -> bool {
    &&& c.len() > 0
    &&& paths_sorted(c)
    &&& path_set(c) == component(s, c[0]@)
}

fn sort_components(Ghost(s): Ghost<SnapshotView>, comps: Vec<Vec<String>>) -> (r: (Vec<Vec<String>>, Ghost<Seq<int>>, Ghost<Seq<int>>))
    requires
        forall|t: int| 0 <= t < comps@.len() ==> component_list(s, (#[trigger] comps@[t])@),
        forall|t1: int, t2: int|
            0 <= t1 < t2 < comps@.len() ==> path_set((#[trigger] comps@[t1])@) != path_set(
                (#[trigger] comps@[t2])@,
            ),
    ensures
        r.0@.len() == comps@.len(),
        r.1@.len() == comps@.len(),
        r.2@.len() == comps@.len(),
        forall|t: int| 0 <= t < r.0@.len() ==> 0 <= #[trigger] r.1@[t] < comps@.len() && r.0@[t]@ == comps@[r.1@[t]]@,
        forall|k: int| 0 <= k < comps@.len() ==> 0 <= #[trigger] r.2@[k] < r.0@.len() && r.0@[r.2@[k]]@ == comps@[k]@,
        forall|a: int, b: int|
            0 <= a < b < r.0@.len() ==> component_before((#[trigger] r.0@[a])@, (#[trigger] r.0@[b])@),
{
    let mut out: Vec<Vec<String>> = Vec::new();
    let ghost mut from: Seq<int> = Seq::empty();
    let ghost mut to: Seq<int> = Seq::empty();
    let mut i: usize = 0;
    while i < comps.len()
        invariant
            i <= comps@.len(),
            out@.len() == i,
            from.len() == i,
            to.len() == i,
            forall|t: int| 0 <= t < comps@.len() ==> component_list(s, (#[trigger] comps@[t])@),
            forall|t1: int, t2: int|
                0 <= t1 < t2 < comps@.len() ==> path_set((#[trigger] comps@[t1])@) != path_set(
                    (#[trigger] comps@[t2])@,
                ),
            forall|t: int| 0 <= t < i ==> 0 <= #[trigger] from[t] < i && out@[t]@ == comps@[from[t]]@,
            forall|k: int| 0 <= k < i ==> 0 <= #[trigger] to[k] < i && out@[to[k]]@ == comps@[k]@,
            forall|a: int, b: int|
                0 <= a < b < out@.len() ==> component_before((#[trigger] out@[a])@, (#[trigger] out@[b])@),
        decreases comps@.len() - i,
    {
        let item = comps[i].clone();
        let ghost iv = comps@[i as int]@;
        assert(item@ =~= iv);
        proof {
            lemma_component_order(s, iv, iv, iv);
            assert forall|t: int| 0 <= t < out@.len() implies component_list(s, (#[trigger] out@[t])@) by {
                assert(component_list(s, comps@[from[t]]@));
            }
            assert forall|t: int| 0 <= t < out@.len() implies (#[trigger] out@[t])@.len() > 0 by {
                lemma_component_order(s, out@[t]@, iv, iv);
            }
        }
        let mut p = out.len();
        while p > 0 && component_first(&item, &out[p - 1])
            invariant
                p <= out@.len(),
                item@.len() > 0,
                forall|t: int| 0 <= t < out@.len() ==> (#[trigger] out@[t])@.len() > 0,
                forall|q: int| p <= q < out@.len() ==> component_before(item@, (#[trigger] out@[q])@),
            decreases p,
        {
            p = p - 1;
        }
        proof {
            if p > 0 {
                let last = out@[p - 1]@;
                let kl = from[p - 1];
                assert(component_list(s, comps@[kl]@));
                assert(path_set(last) != path_set(iv)) by {
                    assert(path_set(comps@[kl]@) != path_set(comps@[i as int]@));
                }
                lemma_component_order(s, iv, last, iv);
                assert(component_before(last, iv));
                assert forall|a: int| 0 <= a < p implies component_before((#[trigger] out@[a])@, iv) by {
                    if a < p - 1 {
                        assert(component_list(s, comps@[from[a]]@));
                        lemma_component_order(s, out@[a]@, last, iv);
                    }
                }
            }
        }
        let ghost before = out@;
        let ghost from0 = from;
        let ghost to0 = to;
        out.insert(p, item);
        proof {
            from = from0.insert(p as int, i as int);
            to = Seq::new(
                (i + 1) as nat,
                |k: int|
                    if k == i {
                        p as int
                    } else if to0[k] >= p {
                        to0[k] + 1
                    } else {
                        to0[k]
                    },
            );
            assert(out@[p as int]@ == iv);
            assert forall|a: int, b: int| 0 <= a < b < out@.len() implies component_before(
                (#[trigger] out@[a])@,
                (#[trigger] out@[b])@,
            ) by {
                if b < p {
                    assert(out@[a] == before[a] && out@[b] == before[b]);
                } else if b == p {
                    assert(out@[a] == before[a]);
                } else if a < p {
                    assert(out@[a] == before[a] && out@[b] == before[b - 1]);
                    assert(component_list(s, comps@[from0[a]]@));
                    assert(component_list(s, comps@[from0[b - 1]]@));
                    lemma_component_order(s, before[a]@, iv, before[b - 1]@);
                } else if a == p {
                    assert(out@[b] == before[b - 1]);
                } else {
                    assert(out@[a] == before[a - 1] && out@[b] == before[b - 1]);
                }
            }
            assert forall|t: int| 0 <= t < i + 1 implies 0 <= #[trigger] from[t] < i + 1 && out@[t]@
                == comps@[from[t]]@ by {
                if t < p {
                    assert(out@[t] == before[t] && from[t] == from0[t]);
                } else if t > p {
                    assert(out@[t] == before[t - 1] && from[t] == from0[t - 1]);
                }
            }
            assert forall|k: int| 0 <= k < i + 1 implies 0 <= #[trigger] to[k] < i + 1 && out@[to[k]]@
                == comps@[k]@ by {
                if k < i {
                    if to0[k] >= p {
                        assert(out@[to0[k] + 1] == before[to0[k]]);
                    } else {
                        assert(out@[to0[k]] == before[to0[k]]);
                    }
                }
            }
        }
        i = i + 1;
    }
    (out, Ghost(from), Ghost(to))
}

/// The graph's connected components (see [`lists_components`]): each as its
/// paths in increasing order, the largest first, and components of equal
/// size by their first path.
pub fn components_from(snapshot: &GraphSnapshot) -> (r: Vec<Vec<String>>)
    ensures
        lists_components(snapshot@, r@),
{
    let ghost s = snapshot@;
    let (vs, labels) = component_labels(snapshot);
    let m = vs.len();
    proof {
        lemma_leaders_count_components(s, vs@, labels@);
    }
    // One list per leader, in leader order: list `t` is the component of
    // leader `lead[t]`, and leader `x` has list `slot[x]`.
    let mut comps: Vec<Vec<String>> = Vec::new();
    let ghost mut lead: Seq<int> = Seq::empty();
    let ghost mut slot: Seq<int> = Seq::empty();
    let mut l: usize = 0;
    assert(leaders(labels@, 0) =~= Set::<int>::empty());
    while l < m
        invariant
            s == snapshot@,
            path_set(vs@) == vertices(s),
            distinct_paths(vs@),
            labels_components(s, vs@, labels@),
            m == vs@.len(),
            l <= m,
            leaders(labels@, l as int).finite(),
            comps@.len() == leaders(labels@, l as int).len(),
            lead.len() == comps@.len(),
            slot.len() == l,
            forall|t: int|
                0 <= t < comps@.len() ==> component_list(s, (#[trigger] comps@[t])@),
            forall|t: int|
                0 <= t < comps@.len() ==> 0 <= #[trigger] lead[t] < l && labels@[lead[t]] == lead[t]
                    && path_set(comps@[t]@) == component(s, vs@[lead[t]]@),
            forall|t1: int, t2: int| 0 <= t1 < t2 < comps@.len() ==> #[trigger] lead[t1] < #[trigger] lead[t2],
            forall|x: int|
                0 <= x < l && labels@[x] == x ==> 0 <= #[trigger] slot[x] < comps@.len() && lead[slot[x]] == x,
        decreases m - l,
    {
        if labels[l] == l {
            let mut members: Vec<String> = Vec::new();
            let mut x: usize = 0;
            while x < m
                invariant
                    path_set(vs@) == vertices(s),
                    distinct_paths(vs@),
                    m == vs@.len(),
                    l < m,
                    x <= m,
                    labels@.len() == m,
                    distinct_paths(members@),
                    path_set(members@) == Set::new(
                        |p: Seq<char>|
                            exists|y: int|
                                0 <= y < x && labels@[y] == l && (#[trigger] vs@[y])@ == p,
                    ),
                decreases m - x,
            {
                if labels[x] == l {
                    let ghost before = members@;
                    proof {
                        assert(!path_set(before).contains(vs@[x as int]@)) by {
                            if path_set(before).contains(vs@[x as int]@) {
                                let y = choose|y: int|
                                    0 <= y < x && labels@[y] == l && (#[trigger] vs@[y])@
                                        == vs@[x as int]@;
                            }
                        }
                    }
                    members.push(vs[x].clone());
                    proof {
                        assert forall|a: int, b: int| 0 <= a < b < members@.len() implies (
                        #[trigger] members@[a])@ != (#[trigger] members@[b])@ by {
                            if b == before.len() {
                                assert(path_set(before).contains(before[a]@));
                            } else {
                                assert(members@[a] == before[a] && members@[b] == before[b]);
                            }
                        }
                        assert(path_set(members@) =~= Set::new(
                            |p: Seq<char>|
                                exists|y: int|
                                    0 <= y < x + 1 && labels@[y] == l && (#[trigger] vs@[y])@ == p,
                        )) by {
                            assert forall|p: Seq<char>| path_set(members@).contains(p) implies exists|
                                y: int,
                            | 0 <= y < x + 1 && labels@[y] == l && (#[trigger] vs@[y])@ == p by {
                                let k = choose|k: int| 0 <= k < members@.len() && (#[trigger] members@[k])@ == p;
                                if k < before.len() {
                                    assert(members@[k] == before[k]);
                                    assert(path_set(before).contains(p));
                                } else {
                                    assert(vs@[x as int]@ == p);
                                }
                            }
                            assert forall|p: Seq<char>|
                                (exists|y: int|
                                    0 <= y < x + 1 && labels@[y] == l && (#[trigger] vs@[y])@ == p) implies path_set(
                                members@,
                            ).contains(p) by {
                                let y = choose|y: int|
                                    0 <= y < x + 1 && labels@[y] == l && (#[trigger] vs@[y])@ == p;
                                if y < x {
                                    assert(path_set(before).contains(p));
                                    let k = choose|k: int| 0 <= k < before.len() && (#[trigger] before[k])@ == p;
                                    assert(members@[k] == before[k]);
                                } else {
                                    assert(members@[before.len() as int] == vs@[x as int]);
                                }
                            }
                        }
                    }
                } else {
                    assert(Set::new(
                        |p: Seq<char>|
                            exists|y: int|
                                0 <= y < x + 1 && labels@[y] == l && (#[trigger] vs@[y])@ == p,
                    ) =~= Set::new(
                        |p: Seq<char>|
                            exists|y: int| 0 <= y < x && labels@[y] == l && (#[trigger] vs@[y])@ == p,
                    ));
                }
                x = x + 1;
            }
            let ghost comp = component(s, vs@[l as int]@);
            proof {
                assert(path_set(members@) =~= comp) by {
                    assert forall|p: Seq<char>| path_set(members@).contains(p) implies comp.contains(p) by {
                        let y = choose|y: int| 0 <= y < m && labels@[y] == l && (#[trigger] vs@[y])@ == p;
                        assert(path_set(vs@).contains(p));
                        assert(labels@[l as int] == labels@[y]);
                    }
                    assert forall|p: Seq<char>| comp.contains(p) implies path_set(members@).contains(p) by {
                        assert(vertices(s).contains(p));
                        let y = choose|y: int| 0 <= y < vs@.len() && (#[trigger] vs@[y])@ == p;
                        assert(labels@[l as int] == labels@[y]);
                    }
                }
                lemma_joined_reflexive(s, s.edges.len(), vs@[l as int]@);
                assert(path_set(vs@).contains(vs@[l as int]@));
                assert(comp.contains(vs@[l as int]@));
            }
            let sorted = sort_paths(members);
            proof {
                assert(sorted@.len() > 0) by {
                    if sorted@.len() == 0 {
                        assert(path_set(sorted@).contains(vs@[l as int]@));
                    }
                }
                assert(path_set(sorted@).contains(sorted@[0]@));
                lemma_same_component(s, vs@[l as int]@, sorted@[0]@);
                reveal(component_list);
                assert(component_list(s, sorted@));
                assert(leaders(labels@, l + 1) =~= leaders(labels@, l as int).insert(l as int));
            }
            let ghost before = comps@;
            comps.push(sorted);
            proof {
                lead = lead.push(l as int);
                slot = slot.push(before.len() as int);
                assert(comps@[before.len() as int] == sorted);
                assert forall|t: int| 0 <= t < comps@.len() implies component_list(s, (#[trigger] comps@[t])@) by {
                    if t < before.len() {
                        assert(comps@[t] == before[t]);
                    }
                }
                assert forall|t: int| 0 <= t < comps@.len() implies 0 <= #[trigger] lead[t] < l + 1
                    && labels@[lead[t]] == lead[t] && path_set(comps@[t]@) == component(s, vs@[lead[t]]@) by {
                    if t < before.len() {
                        assert(comps@[t] == before[t]);
                    }
                }
            }
        } else {
            proof {
                slot = slot.push(0);
            }
            assert(leaders(labels@, l + 1) =~= leaders(labels@, l as int));
        }
        l = l + 1;
    }
    proof {
        assert forall|t1: int, t2: int| 0 <= t1 < t2 < comps@.len() implies path_set(
            (#[trigger] comps@[t1])@,
        ) != path_set((#[trigger] comps@[t2])@) by {
            assert(lead[t1] < lead[t2]);
            assert(leaders(labels@, m as int).contains(lead[t1]));
            assert(leaders(labels@, m as int).contains(lead[t2]));
        }
    }
    // Order the lists: largest first, then by first path.
    let (out, Ghost(from), Ghost(to)) = sort_components(Ghost(s), comps);
    proof {
        assert forall|t: int| 0 <= t < out@.len() implies {
            &&& (#[trigger] out@[t])@.len() > 0
            &&& paths_sorted(out@[t]@)
            &&& path_set(out@[t]@) == component(s, out@[t]@[0]@)
        } by {
            assert(component_list(s, comps@[from[t]]@));
            reveal(component_list);
        }
        assert forall|c: Set<Seq<char>>| #[trigger] components(s).contains(c) implies exists|t: int|
            0 <= t < out@.len() && path_set(out@[t]@) == c by {
            let f = |x: int| component(s, vs@[x]@);
            let x = choose|x: int| leaders(labels@, m as int).contains(x) && f(x) == c;
            let k = slot[x];
            assert(path_set(comps@[k]@) == c);
            assert(path_set(out@[to[k]]@) == c);
        }
    }
    out
}

/// Counts documents by kind, links by weight, notes without links, and
/// connected components.
pub fn compute_stats(snapshot: &GraphSnapshot) -> (r: GraphStats)
    requires
        total_weight(snapshot@.edges) <= usize::MAX,
    ensures
        stats_match(r, snapshot@),
{
    let ghost s = snapshot@;
    let mut stats = GraphStats::new();
    let mut i: usize = 0;
    while i < snapshot.nodes.len()
        invariant
            s == snapshot@,
            i <= s.nodes.len(),
            stats.markdown == count_kind(s.nodes.take(i as int), GraphNodeKind::Markdown),
            stats.pdfs == count_kind(s.nodes.take(i as int), GraphNodeKind::Pdf),
            stats.missing == count_kind(s.nodes.take(i as int), GraphNodeKind::Missing),
            stats.unconnected == count_unconnected(s.nodes.take(i as int)),
            stats.markdown + stats.pdfs + stats.missing == i,
            stats.unconnected <= stats.markdown,
            stats.connections == 0,
        decreases s.nodes.len() - i,
    {
        let n = &snapshot.nodes[i];
        assert(s.nodes.take(i + 1).drop_last() =~= s.nodes.take(i as int));
        assert(s.nodes.take(i + 1).last() == n@);
        match n.kind {
            GraphNodeKind::Markdown => {
                stats.markdown = stats.markdown + 1;
            },
            GraphNodeKind::Pdf => {
                stats.pdfs = stats.pdfs + 1;
            },
            GraphNodeKind::Missing => {
                stats.missing = stats.missing + 1;
            },
        }
        if n.kind == GraphNodeKind::Markdown && n.incoming == 0 && n.outgoing == 0 {
            stats.unconnected = stats.unconnected + 1;
        }
        i = i + 1;
    }
    assert(s.nodes.take(i as int) =~= s.nodes);
    assert(s.nodes.take(s.nodes.len() as int) =~= s.nodes);
    assert(s.edges.take(0) =~= Seq::<EdgeView>::empty());
    let mut k: usize = 0;
    while k < snapshot.edges.len()
        invariant
            s == snapshot@,
            k <= s.edges.len(),
            total_weight(s.edges) <= usize::MAX,
            stats.connections == total_weight(s.edges.take(k as int)),
            stats.markdown == count_kind(s.nodes, GraphNodeKind::Markdown),
            stats.pdfs == count_kind(s.nodes, GraphNodeKind::Pdf),
            stats.missing == count_kind(s.nodes, GraphNodeKind::Missing),
            stats.unconnected == count_unconnected(s.nodes),
        decreases s.edges.len() - k,
    {
        assert(s.edges.take(k + 1).drop_last() =~= s.edges.take(k as int));
        proof {
            lemma_total_weight_prefix(s.edges, (k + 1) as int);
        }
        stats.connections = stats.connections + snapshot.edges[k].weight;
        k = k + 1;
    }
    assert(s.edges.take(k as int) =~= s.edges);
    assert(s.nodes.take(s.nodes.len() as int) =~= s.nodes);
    stats.components = component_count(snapshot);
    stats
}

/// A prefix weighs no more than the whole.
pub proof fn lemma_total_weight_prefix(edges: Seq<EdgeView>, n: int)
    requires
        0 <= n <= edges.len(),
    ensures
        total_weight(edges.take(n)) <= total_weight(edges),
    decreases edges.len() - n,
{
    if n < edges.len() {
        lemma_total_weight_prefix(edges, n + 1);
        assert(edges.take(n + 1).drop_last() =~= edges.take(n));
    } else {
        assert(edges.take(n) =~= edges);
    }
}

} // verus!
