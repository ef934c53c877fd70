//! Ranking the documents of a vault graph as hubs: by how many links they
//! have, then by path.

use vstd::prelude::*;

use crate::graph::{GraphNodeKind, GraphSnapshot, NodeView, SnapshotView};
use crate::text::chars_of;

verus! {

/// `a` comes before `b` character by character, a proper prefix first: the
/// order of `str`, whose byte order agrees with the order of its characters.
pub open spec fn path_less(a: Seq<char>, b: Seq<char>) -> bool
    decreases a.len(),
{
    if a.len() == 0 {
        b.len() > 0
    } else if b.len() == 0 {
        false
    } else if a[0] != b[0] {
        (a[0] as int) < (b[0] as int)
    } else {
        path_less(a.drop_first(), b.drop_first())
    }
}

/// No path comes before itself.
pub proof fn lemma_path_less_irreflexive(a: Seq<char>)
    ensures
        !path_less(a, a),
    decreases a.len(),
{
    if a.len() > 0 {
        lemma_path_less_irreflexive(a.drop_first());
    }
}

/// Of two different paths, one comes before the other, and not both.
pub proof fn lemma_path_less_total(a: Seq<char>, b: Seq<char>)
    ensures
        a != b ==> (path_less(a, b) || path_less(b, a)),
        !(path_less(a, b) && path_less(b, a)),
    decreases a.len(),
{
    if a.len() > 0 && b.len() > 0 {
        if a[0] == b[0] {
            lemma_path_less_total(a.drop_first(), b.drop_first());
            if a != b {
                assert(a.drop_first() != b.drop_first()) by {
                    if a.drop_first() == b.drop_first() {
                        assert(a =~= seq![a[0]] + a.drop_first());
                        assert(b =~= seq![b[0]] + b.drop_first());
                    }
                }
            }
        } else {
            assert((a[0] as int) != (b[0] as int));
        }
    } else if a.len() == 0 && b.len() == 0 {
        assert(a =~= b);
    }
}

/// Coming before is transitive.
pub proof fn lemma_path_less_transitive(a: Seq<char>, b: Seq<char>, c: Seq<char>)
    ensures
        path_less(a, b) && path_less(b, c) ==> path_less(a, c),
    decreases a.len(),
{
    if a.len() > 0 && b.len() > 0 && c.len() > 0 {
        lemma_path_less_transitive(a.drop_first(), b.drop_first(), c.drop_first());
    }
}

/// How many links a document has, in and out.
pub open spec fn degree(n: NodeView) -> int {
    n.incoming + n.outgoing
}

/// Node `i` ranks above node `j` as a hub: it has more links; or as many,
/// and a path that comes first; or the same path, and an earlier position.
pub open spec fn ranks_above(s: SnapshotView, i: int, j: int) -> bool {
    let (a, b) = (s.nodes[i], s.nodes[j]);
    ||| degree(a) > degree(b)
    ||| degree(a) == degree(b) && path_less(a.path, b.path)
    ||| degree(a) == degree(b) && a.path == b.path && i < j
}

/// Ranking is a strict total order on positions.
pub proof fn lemma_ranks_above_order(s: SnapshotView, i: int, j: int, k: int)
    ensures
        !ranks_above(s, i, i),
        i != j ==> (ranks_above(s, i, j) || ranks_above(s, j, i)),
        !(ranks_above(s, i, j) && ranks_above(s, j, i)),
        ranks_above(s, i, j) && ranks_above(s, j, k) ==> ranks_above(s, i, k),
{
    let (a, b, c) = (s.nodes[i].path, s.nodes[j].path, s.nodes[k].path);
    lemma_path_less_irreflexive(a);
    lemma_path_less_total(a, b);
    lemma_path_less_total(a, c);
    lemma_path_less_total(b, c);
    lemma_path_less_transitive(a, b, c);
    lemma_path_less_irreflexive(b);
    lemma_path_less_irreflexive(c);
}

/// A document that exists in the vault can be a hub.
pub open spec fn hub_candidate(n: NodeView) -> bool {
    n.kind != GraphNodeKind::Missing
}

/// `order` lists the position of every hub candidate, best hub first.
pub open spec fn hub_ranking(s: SnapshotView, order: Seq<int>) -> bool {
    &&& forall|x: int|
        0 <= x < order.len() ==> 0 <= #[trigger] order[x] < s.nodes.len() && hub_candidate(
            s.nodes[order[x]],
        )
    &&& forall|i: int|
        0 <= i < s.nodes.len() && hub_candidate(#[trigger] s.nodes[i]) ==> order.contains(i)
    &&& forall|x: int, y: int|
        0 <= x < y < order.len() ==> ranks_above(s, #[trigger] order[x], #[trigger] order[y])
}

/// A hub ranking lists documents by their total link count, in plus out,
/// from most to fewest: of two listed documents, the one with strictly more
/// links comes first.
pub proof fn lemma_ranking_follows_link_count(s: SnapshotView, order: Seq<int>, x: int, y: int)
    requires
        hub_ranking(s, order),
        0 <= x < order.len(),
        0 <= y < order.len(),
        s.nodes[order[x]].incoming + s.nodes[order[x]].outgoing > s.nodes[order[y]].incoming
            + s.nodes[order[y]].outgoing,
    ensures
        x < y,
{
    if y < x {
        assert(ranks_above(s, order[y], order[x]));
    }
}

/// Of two listed documents with as many links, the one whose path comes
/// first comes first.
pub proof fn lemma_ranking_breaks_ties_by_path(s: SnapshotView, order: Seq<int>, x: int, y: int)
    requires
        hub_ranking(s, order),
        0 <= x < order.len(),
        0 <= y < order.len(),
        s.nodes[order[x]].incoming + s.nodes[order[x]].outgoing == s.nodes[order[y]].incoming
            + s.nodes[order[y]].outgoing,
        path_less(s.nodes[order[x]].path, s.nodes[order[y]].path),
    ensures
        x < y,
{
    lemma_path_less_irreflexive(s.nodes[order[x]].path);
    lemma_path_less_total(s.nodes[order[x]].path, s.nodes[order[y]].path);
    if y < x {
        assert(ranks_above(s, order[y], order[x]));
    }
}

/// There is one ranking.
pub proof fn lemma_hub_ranking_unique(s: SnapshotView, o1: Seq<int>, o2: Seq<int>)
    requires
        hub_ranking(s, o1),
        hub_ranking(s, o2),
    ensures
        o1 == o2,
{
    lemma_sorted_same_elements(s, o1, o2);
}

proof fn lemma_sorted_same_elements(s: SnapshotView, o1: Seq<int>, o2: Seq<int>)
    requires
        forall|x: int, y: int|
            0 <= x < y < o1.len() ==> ranks_above(s, #[trigger] o1[x], #[trigger] o1[y]),
        forall|x: int, y: int|
            0 <= x < y < o2.len() ==> ranks_above(s, #[trigger] o2[x], #[trigger] o2[y]),
        forall|i: int| o1.contains(i) <==> o2.contains(i),
    ensures
        o1 == o2,
    decreases o1.len(),
{
    if o1.len() == 0 {
        if o2.len() > 0 {
            assert(o2.contains(o2[0]));
        }
        assert(o1 =~= o2);
    } else {
        assert(o1.contains(o1[0]));
        let y = choose|y: int| 0 <= y < o2.len() && o2[y] == o1[0];
        if y > 0 {
            assert(o2.contains(o2[0]));
            let x = choose|x: int| 0 <= x < o1.len() && o1[x] == o2[0];
            assert(ranks_above(s, o2[0], o2[y]));
            lemma_ranks_above_order(s, o1[0], o2[0], o1[0]);
            if x == 0 {
                assert(false);
            } else {
                assert(ranks_above(s, o1[0], o1[x]));
                assert(false);
            }
        }
        let (t1, t2) = (o1.drop_first(), o2.drop_first());
        assert forall|i: int| t1.contains(i) <==> t2.contains(i) by {
            if t1.contains(i) {
                let x = choose|x: int| 0 <= x < t1.len() && t1[x] == i;
                assert(o1[x + 1] == i);
                assert(ranks_above(s, o1[0], o1[x + 1]));
                lemma_ranks_above_order(s, o1[0], o1[0], o1[0]);
                assert(o2.contains(i));
                let z = choose|z: int| 0 <= z < o2.len() && o2[z] == i;
                assert(z != 0);
                assert(t2[z - 1] == i);
            }
            if t2.contains(i) {
                let x = choose|x: int| 0 <= x < t2.len() && t2[x] == i;
                assert(o2[x + 1] == i);
                assert(ranks_above(s, o2[0], o2[x + 1]));
                lemma_ranks_above_order(s, o2[0], o2[0], o2[0]);
                assert(o1.contains(i));
                let z = choose|z: int| 0 <= z < o1.len() && o1[z] == i;
                assert(z != 0);
                assert(t1[z - 1] == i);
            }
        }
        assert forall|x: int, y: int| 0 <= x < y < t1.len() implies ranks_above(
            s,
            #[trigger] t1[x],
            #[trigger] t1[y],
        ) by {
            assert(t1[x] == o1[x + 1] && t1[y] == o1[y + 1]);
        }
        assert forall|x: int, y: int| 0 <= x < y < t2.len() implies ranks_above(
            s,
            #[trigger] t2[x],
            #[trigger] t2[y],
        ) by {
            assert(t2[x] == o2[x + 1] && t2[y] == o2[y + 1]);
        }
        lemma_sorted_same_elements(s, t1, t2);
        assert(o1 =~= seq![o1[0]] + t1);
        assert(o2 =~= seq![o2[0]] + t2);
    }
}

pub(crate) fn path_less_chars(a: &Vec<char>, b: &Vec<char>) -> (r: bool)
    ensures
        r == path_less(a@, b@),
{
    let mut i: usize = 0;
    assert(a@.skip(0) =~= a@ && b@.skip(0) =~= b@);
    while i < a.len() && i < b.len()
        invariant
            i <= a@.len() && i <= b@.len(),
            path_less(a@, b@) == path_less(a@.skip(i as int), b@.skip(i as int)),
        decreases a@.len() - i,
    {
        assert(a@.skip(i as int)[0] == a@[i as int]);
        assert(b@.skip(i as int)[0] == b@[i as int]);
        if a[i] != b[i] {
            return a[i] < b[i];
        }
        assert(a@.skip(i as int).drop_first() =~= a@.skip(i + 1));
        assert(b@.skip(i as int).drop_first() =~= b@.skip(i + 1));
        i = i + 1;
    }
    a.len() == i && b.len() > i
}

fn degree_of(n: &crate::graph::GraphNode) -> (d: u128)
    ensures
        d == degree(n@),
{
    n.incoming as u128 + n.outgoing as u128
}

fn ranks_above_exec(snapshot: &GraphSnapshot, paths: &Vec<Vec<char>>, i: usize, j: usize) -> (r: bool)
    requires
        i < snapshot@.nodes.len(),
        j < snapshot@.nodes.len(),
        paths@.len() == snapshot@.nodes.len(),
        forall|k: int| 0 <= k < paths@.len() ==> (#[trigger] paths@[k])@ == snapshot@.nodes[k].path,
    ensures
        r == ranks_above(snapshot@, i as int, j as int),
{
    let di = degree_of(&snapshot.nodes[i]);
    let dj = degree_of(&snapshot.nodes[j]);
    assert(snapshot@.nodes[i as int] == snapshot.nodes@[i as int]@);
    assert(snapshot@.nodes[j as int] == snapshot.nodes@[j as int]@);
    if di != dj {
        return di > dj;
    }
    if path_less_chars(&paths[i], &paths[j]) {
        return true;
    }
    if path_less_chars(&paths[j], &paths[i]) {
        proof {
            lemma_path_less_total(paths@[i as int]@, paths@[j as int]@);
        }
        return false;
    }
    proof {
        lemma_path_less_total(paths@[i as int]@, paths@[j as int]@);
    }
    i < j
}

/// The positions of the hub candidates, best hub first.
pub fn hub_order(snapshot: &GraphSnapshot) -> (order: Vec<usize>)
    ensures
        hub_ranking(snapshot@, order@.map_values(|x: usize| x as int)),
{
    let ghost s = snapshot@;
    let n = snapshot.nodes.len();
    let mut paths: Vec<Vec<char>> = Vec::new();
    let mut i: usize = 0;
    while i < n
        invariant
            s == snapshot@,
            n == s.nodes.len(),
            i <= n,
            paths@.len() == i,
            forall|k: int| 0 <= k < i ==> (#[trigger] paths@[k])@ == s.nodes[k].path,
        decreases n - i,
    {
        paths.push(chars_of(snapshot.nodes[i].path.as_str()));
        i = i + 1;
    }
    let mut order: Vec<usize> = Vec::new();
    let mut i: usize = 0;
    while i < n
        invariant
            s == snapshot@,
            n == s.nodes.len(),
            paths@.len() == n,
            forall|k: int| 0 <= k < n ==> (#[trigger] paths@[k])@ == s.nodes[k].path,
            i <= n,
            forall|x: int|
                0 <= x < order@.len() ==> #[trigger] order@[x] < i && hub_candidate(
                    s.nodes[order@[x] as int],
                ),
            forall|j: int|
                0 <= j < i && hub_candidate(#[trigger] s.nodes[j]) ==> exists|x: int|
                    0 <= x < order@.len() && order@[x] == j,
            forall|x: int, y: int|
                0 <= x < y < order@.len() ==> ranks_above(
                    s,
                    #[trigger] order@[x] as int,
                    #[trigger] order@[y] as int,
                ),
        decreases n - i,
    {
        if snapshot.nodes[i].kind != GraphNodeKind::Missing {
            let mut p = order.len();
            while p > 0 && ranks_above_exec(snapshot, &paths, i, order[p - 1])
                invariant
                    s == snapshot@,
                    n == s.nodes.len(),
                    i < n,
                    paths@.len() == n,
                    forall|k: int| 0 <= k < n ==> (#[trigger] paths@[k])@ == s.nodes[k].path,
                    forall|x: int| 0 <= x < order@.len() ==> #[trigger] order@[x] < i,
                    p <= order@.len(),
                    forall|q: int|
                        p <= q < order@.len() ==> ranks_above(s, i as int, #[trigger] order@[q] as int),
                decreases p,
            {
                p = p - 1;
            }
            proof {
                if p > 0 {
                    let last = order@[p - 1] as int;
                    lemma_ranks_above_order(s, i as int, last, i as int);
                    assert(ranks_above(s, last, i as int));
                    assert forall|a: int| 0 <= a < p implies ranks_above(
                        s,
                        #[trigger] order@[a] as int,
                        i as int,
                    ) by {
                        if a < p - 1 {
                            assert(ranks_above(s, order@[a] as int, last));
                            lemma_ranks_above_order(s, order@[a] as int, last, i as int);
                        }
                    }
                }
            }
            let ghost before = order@;
            order.insert(p, i);
            proof {
                assert forall|x: int, y: int| 0 <= x < y < order@.len() implies ranks_above(
                    s,
                    #[trigger] order@[x] as int,
                    #[trigger] order@[y] as int,
                ) by {
                    if y < p {
                        assert(order@[x] == before[x] && order@[y] == before[y]);
                    } else if y == p {
                        assert(order@[x] == before[x]);
                    } else if x < p {
                        assert(order@[x] == before[x] && order@[y] == before[y - 1]);
                        assert(ranks_above(s, before[x] as int, i as int));
                        assert(ranks_above(s, i as int, before[y - 1] as int));
                        lemma_ranks_above_order(s, before[x] as int, i as int, before[y - 1] as int);
                    } else if x == p {
                        assert(order@[y] == before[y - 1]);
                    } else {
                        assert(order@[x] == before[x - 1] && order@[y] == before[y - 1]);
                    }
                }
                assert forall|j: int|
                    0 <= j < i + 1 && hub_candidate(#[trigger] s.nodes[j]) implies exists|x: int|
                    0 <= x < order@.len() && order@[x] == j by {
                    if j == i {
                        assert(order@[p as int] == i);
                    } else {
                        let x = choose|x: int| 0 <= x < before.len() && before[x] == j;
                        if x < p {
                            assert(order@[x] == j);
                        } else {
                            assert(order@[x + 1] == j);
                        }
                    }
                }
                assert forall|x: int| 0 <= x < order@.len() implies #[trigger] order@[x] < i + 1
                    && hub_candidate(s.nodes[order@[x] as int]) by {
                    if x < p {
                        assert(order@[x] == before[x]);
                    } else if x > p {
                        assert(order@[x] == before[x - 1]);
                    }
                }
            }
        }
        i = i + 1;
    }
    proof {
        let o = order@.map_values(|x: usize| x as int);
        assert forall|j: int| 0 <= j < n && hub_candidate(#[trigger] s.nodes[j]) implies o.contains(
            j,
        ) by {
            let x = choose|x: int| 0 <= x < order@.len() && order@[x] == j;
            assert(o[x] == j);
        }
        assert forall|x: int, y: int| 0 <= x < y < o.len() implies ranks_above(
            s,
            #[trigger] o[x],
            #[trigger] o[y],
        ) by {
            assert(o[x] == order@[x] as int && o[y] == order@[y] as int);
        }
    }
    order
}

} // verus!
