//! The shape of each connected component that the graph layout draws: a
//! root, the best-linked note, and rings of the paths one link further out
//! at each step.

use vstd::prelude::*;

use crate::graph::{in_layout, linked, neighbor_set, neighbors, GraphSnapshot, SnapshotView};
use crate::graph_rank::path_less;
use crate::graph_stats::{
    component, components_from, connected, lists_components, paths_sorted, sort_paths, vertex_list,
    vertices,
};
use crate::path_set::{distinct_paths, lemma_distinct_len, lemma_path_set_push, path_set, PathSet};
use crate::text::chars_of;

verus! {

/// `b` is at most `d` links from `a`, edges taken in either direction.
pub open spec fn within_steps(s: SnapshotView, a: Seq<char>, b: Seq<char>, d: nat) -> bool
    decreases d,
{
    if d == 0 {
        a == b
    } else {
        within_steps(s, a, b, (d - 1) as nat) || exists|m: Seq<char>|
            within_steps(s, a, m, (d - 1) as nat) && #[trigger] linked(s, m, b)
    }
}

/// `b` is exactly `d` links from `a`.
pub open spec fn at_distance(s: SnapshotView, a: Seq<char>, b: Seq<char>, d: nat) -> bool {
    within_steps(s, a, b, d) && (d == 0 || !within_steps(s, a, b, (d - 1) as nat))
}

/// The paths exactly `d` links from `a`.
pub open spec fn ring(s: SnapshotView, a: Seq<char>, d: nat) -> Set<Seq<char>> {
    Set::new(|b: Seq<char>| at_distance(s, a, b, d))
}

/// `root` is the path of `members` with the most neighbours, the first in
/// path order among equals.
pub open spec fn is_root(s: SnapshotView, members: Seq<String>, root: Seq<char>) -> bool {
    &&& path_set(members).contains(root)
    &&& forall|k: int|
        0 <= k < members.len() ==> {
            let q = (#[trigger] members[k])@;
            ||| neighbors(s, q).len() < neighbors(s, root).len()
            ||| neighbors(s, q).len() == neighbors(s, root).len() && (q == root || path_less(root, q))
        }
}

/// `levels[d]` is the ring `d + 1` links from `root`, its paths in
/// increasing order; every listed ring is non-empty and the next one is
/// empty.
pub open spec fn rings_from(s: SnapshotView, root: Seq<char>, levels: Seq<Vec<String>>) -> bool {
    &&& forall|d: int|
        0 <= d < levels.len() ==> {
            &&& (#[trigger] levels[d])@.len() > 0
            &&& paths_sorted(levels[d]@)
            &&& path_set(levels[d]@) == ring(s, root, (d + 1) as nat)
        }
    &&& ring(s, root, (levels.len() + 1) as nat) == Set::<Seq<char>>::empty()
}

/// One connected component as the layout draws it.
pub struct ComponentRings {
    /// The component's paths, in increasing order.
    pub members: Vec<String>,
    /// Its best-linked path (see [`is_root`]).
    pub root: String,
    /// The rings around the root (see [`rings_from`]).
    pub levels: Vec<Vec<String>>,
}

/// A path a step beyond `d` links is reached through a path exactly `d`
/// links away.
proof fn lemma_step_through_ring(s: SnapshotView, a: Seq<char>, b: Seq<char>, d: nat)
    requires
        within_steps(s, a, b, d + 1),
        !within_steps(s, a, b, d),
    ensures
        exists|m: Seq<char>| at_distance(s, a, m, d) && #[trigger] linked(s, m, b),
{
    let m = choose|m: Seq<char>| within_steps(s, a, m, d) && #[trigger] linked(s, m, b);
    if d > 0 && within_steps(s, a, m, (d - 1) as nat) {
        assert(within_steps(s, a, b, d));
    }
    assert(at_distance(s, a, m, d));
}

/// Being within fewer steps means being within more.
proof fn lemma_within_more(s: SnapshotView, a: Seq<char>, b: Seq<char>, d: nat, e: nat)
    requires
        within_steps(s, a, b, d),
        d <= e,
    ensures
        within_steps(s, a, b, e),
    decreases e,
{
    if d < e {
        lemma_within_more(s, a, b, d, (e - 1) as nat);
    }
}

/// Linked paths are paths of the graph.
proof fn lemma_linked_in_layout(s: SnapshotView, a: Seq<char>, b: Seq<char>)
    requires
        linked(s, a, b),
    ensures
        in_layout(s, a),
        in_layout(s, b),
{
    let k = choose|k: int| 0 <= k < s.edges.len() && crate::graph::joins(#[trigger] s.edges[k], a, b);
    assert(s.edges[k].source == a || s.edges[k].target == a);
    assert(s.edges[k].source == b || s.edges[k].target == b);
}

/// What is within some steps of a path of the graph is a path of the graph.
proof fn lemma_within_in_layout(s: SnapshotView, a: Seq<char>, b: Seq<char>, d: nat)
    requires
        in_layout(s, a),
        within_steps(s, a, b, d),
    ensures
        in_layout(s, b),
    decreases d,
{
    if d > 0 && !within_steps(s, a, b, (d - 1) as nat) {
        let m = choose|m: Seq<char>| within_steps(s, a, m, (d - 1) as nat) && #[trigger] linked(s, m, b);
        lemma_linked_in_layout(s, m, b);
    } else if d > 0 {
        lemma_within_in_layout(s, a, b, (d - 1) as nat);
    }
}

fn best_linked(snapshot: &GraphSnapshot, members: &Vec<String>) -> (root: String)
    requires
        members@.len() > 0,
        paths_sorted(members@),
    ensures
        is_root(snapshot@, members@, root@),
{
    let ghost s = snapshot@;
    let first = neighbor_set(snapshot, &chars_of(members[0].as_str()));
    proof {
        first.lemma_size();
    }
    let mut best: usize = 0;
    let mut best_degree = first.len();
    let mut k: usize = 1;
    while k < members.len()
        invariant
            s == snapshot@,
            paths_sorted(members@),
            best < k <= members@.len(),
            neighbors(s, members@[best as int]@).finite(),
            best_degree == neighbors(s, members@[best as int]@).len(),
            forall|j: int|
                0 <= j < k ==> {
                    let q = (#[trigger] members@[j])@;
                    ||| neighbors(s, q).len() < best_degree
                    ||| neighbors(s, q).len() == best_degree && j >= best
                },
        decreases members@.len() - k,
    {
        let nb = neighbor_set(snapshot, &chars_of(members[k].as_str()));
        proof {
            nb.lemma_size();
        }
        let degree = nb.len();
        if degree > best_degree {
            best = k;
            best_degree = degree;
        }
        k = k + 1;
    }
    let root = members[best].clone();
    proof {
        assert(path_set(members@).contains(members@[best as int]@));
        assert forall|j: int| 0 <= j < members@.len() implies {
            let q = (#[trigger] members@[j])@;
            ||| neighbors(s, q).len() < neighbors(s, root@).len()
            ||| neighbors(s, q).len() == neighbors(s, root@).len() && (q == root@ || path_less(root@, q))
        } by {
            if j > best {
                assert(path_less(members@[best as int]@, members@[j]@));
            }
        }
    }
    root
}


fn absorb(seen: &mut PathSet, next: &mut Vec<String>, nbrs: &Vec<String>)
    requires
        old(seen).wf(),
        distinct_paths(old(next)@),
        path_set(old(next)@).subset_of(old(seen).set()),
    ensures
        final(seen).wf(),
        final(seen).set() == old(seen).set().union(path_set(nbrs@)),
        path_set(final(next)@) == path_set(old(next)@).union(
            path_set(nbrs@).difference(old(seen).set()),
        ),
        distinct_paths(final(next)@),
        path_set(final(next)@).subset_of(final(seen).set()),
{
    let ghost seen0 = seen.set();
    let ghost next0 = next@;
    let mut t: usize = 0;
    while t < nbrs.len()
        invariant
            t <= nbrs@.len(),
            seen.wf(),
            seen.set() == seen0.union(path_set(nbrs@.take(t as int))),
            path_set(next@) == path_set(next0).union(
                path_set(nbrs@.take(t as int)).difference(seen0),
            ),
            distinct_paths(next@),
            path_set(next@).subset_of(seen.set()),
        decreases nbrs@.len() - t,
    {
        let b = &nbrs[t];
        proof {
            lemma_path_set_push(nbrs@.take(t as int), nbrs@[t as int]);
            assert(nbrs@.take(t + 1) =~= nbrs@.take(t as int).push(nbrs@[t as int]));
        }
        if !seen.contains(b.as_str()) {
            let ghost before = next@;
            seen.insert(b.clone());
            next.push(b.clone());
            proof {
                lemma_path_set_push(before, next@[before.len() as int]);
                assert(next@ =~= before.push(next@[before.len() as int]));
                assert forall|x: int, y: int| 0 <= x < y < next@.len() implies (#[trigger] next@[x])@
                    != (#[trigger] next@[y])@ by {
                    if y == before.len() {
                        assert(path_set(before).contains(before[x]@));
                    } else {
                        assert(next@[x] == before[x] && next@[y] == before[y]);
                    }
                }
            }
        }
        proof {
            assert(seen.set() =~= seen0.union(path_set(nbrs@.take(t + 1))));
            assert(path_set(next@) =~= path_set(next0).union(
                path_set(nbrs@.take(t + 1)).difference(seen0),
            ));
        }
        t = t + 1;
    }
    assert(nbrs@.take(t as int) =~= nbrs@);
}

/// The paths within `d` links of `a`.
pub open spec fn reached(s: SnapshotView, a: Seq<char>, d: nat) -> Set<Seq<char>> {
    Set::new(|b: Seq<char>| within_steps(s, a, b, d))
}

/// The rings around `root`, out to the last non-empty one.
pub fn rings_around(snapshot: &GraphSnapshot, root: &String) -> (levels: Vec<Vec<String>>)
    requires
        in_layout(snapshot@, root@),
    ensures
        rings_from(snapshot@, root@, levels@),
{
    let ghost s = snapshot@;
    let vs = vertex_list(snapshot);
    proof {
        lemma_distinct_len(vs@);
    }
    let mut seen = PathSet::new();
    seen.insert(root.clone());
    let mut frontier: Vec<String> = Vec::new();
    frontier.push(root.clone());
    let mut levels: Vec<Vec<String>> = Vec::new();
    proof {
        assert(seen.set() =~= reached(s, root@, 0));
        lemma_path_set_push(Seq::<String>::empty(), frontier@[0]);
        assert(frontier@ =~= Seq::<String>::empty().push(frontier@[0]));
        assert(path_set(Seq::<String>::empty()) =~= Set::<Seq<char>>::empty());
        assert(path_set(frontier@) =~= ring(s, root@, 0));
    }
    loop
        invariant
            s == snapshot@,
            in_layout(s, root@),
            path_set(vs@) == vertices(s),
            vertices(s).finite(),
            vertices(s).len() == vs@.len(),
            seen.wf(),
            seen.set() == reached(s, root@, levels@.len() as nat),
            distinct_paths(frontier@),
            path_set(frontier@) == ring(s, root@, levels@.len() as nat),
            forall|d: int|
                0 <= d < levels@.len() ==> {
                    &&& (#[trigger] levels@[d])@.len() > 0
                    &&& paths_sorted(levels@[d]@)
                    &&& path_set(levels@[d]@) == ring(s, root@, (d + 1) as nat)
                },
        decreases vs@.len() - seen.size(),
    {
        let ghost d = levels@.len() as nat;
        let ghost w = reached(s, root@, d);
        proof {
            seen.lemma_size();
            assert(w.subset_of(vertices(s))) by {
                assert forall|b: Seq<char>| w.contains(b) implies vertices(s).contains(b) by {
                    lemma_within_in_layout(s, root@, b, d);
                }
            }
            vstd::set_lib::lemma_len_subset(w, vertices(s));
        }
        let mut next: Vec<String> = Vec::new();
        let mut j: usize = 0;
        while j < frontier.len()
            invariant
                s == snapshot@,
                j <= frontier@.len(),
                seen.wf(),
                distinct_paths(next@),
                path_set(next@).subset_of(seen.set()),
                path_set(next@) == Set::new(
                    |b: Seq<char>|
                        !w.contains(b) && exists|jj: int|
                            0 <= jj < j && #[trigger] linked(s, frontier@[jj]@, b),
                ),
                seen.set() == w.union(path_set(next@)),
            decreases frontier@.len() - j,
        {
            let nb = neighbor_set(snapshot, &chars_of(frontier[j].as_str()));
            let nbrs = nb.to_vec();
            let ghost seen0 = seen.set();
            let ghost next0 = path_set(next@);
            absorb(&mut seen, &mut next, &nbrs);
            proof {
                assert(path_set(next@) =~= Set::new(
                    |b: Seq<char>|
                        !w.contains(b) && exists|jj: int|
                            0 <= jj < j + 1 && #[trigger] linked(s, frontier@[jj]@, b),
                )) by {
                    assert forall|b: Seq<char>| path_set(next@).contains(b) implies !w.contains(b)
                        && exists|jj: int| 0 <= jj < j + 1 && #[trigger] linked(s, frontier@[jj]@, b) by {
                        if !next0.contains(b) {
                            assert(neighbors(s, frontier@[j as int]@).contains(b));
                            assert(linked(s, frontier@[j as int]@, b));
                        }
                    }
                    assert forall|b: Seq<char>|
                        !w.contains(b) && (exists|jj: int|
                            0 <= jj < j + 1 && #[trigger] linked(s, frontier@[jj]@, b)) implies path_set(
                        next@,
                    ).contains(b) by {
                        let jj = choose|jj: int| 0 <= jj < j + 1 && #[trigger] linked(s, frontier@[jj]@, b);
                        if jj == j {
                            assert(neighbors(s, frontier@[j as int]@).contains(b));
                            if seen0.contains(b) {
                                assert(next0.contains(b));
                            }
                        } else {
                            assert(next0.contains(b));
                        }
                    }
                }
                assert(seen.set() =~= w.union(path_set(next@)));
            }
            j = j + 1;
        }
        proof {
            assert(path_set(next@) =~= ring(s, root@, d + 1)) by {
                assert forall|b: Seq<char>| path_set(next@).contains(b) implies ring(s, root@, d + 1).contains(b) by {
                    let jj = choose|jj: int| 0 <= jj < frontier@.len() && #[trigger] linked(s, frontier@[jj]@, b);
                    assert(path_set(frontier@).contains(frontier@[jj]@));
                    assert(within_steps(s, root@, frontier@[jj]@, d));
                }
                assert forall|b: Seq<char>| ring(s, root@, d + 1).contains(b) implies path_set(next@).contains(b) by {
                    lemma_step_through_ring(s, root@, b, d);
                    let m = choose|m: Seq<char>| at_distance(s, root@, m, d) && #[trigger] linked(s, m, b);
                    assert(path_set(frontier@).contains(m));
                    let jj = choose|jj: int| 0 <= jj < frontier@.len() && (#[trigger] frontier@[jj])@ == m;
                    assert(linked(s, frontier@[jj]@, b));
                }
            }
            assert(seen.set() =~= reached(s, root@, d + 1)) by {
                assert forall|b: Seq<char>| reached(s, root@, d + 1).contains(b) implies seen.set().contains(b) by {
                    if !w.contains(b) {
                        assert(ring(s, root@, d + 1).contains(b));
                    }
                }
                assert forall|b: Seq<char>| seen.set().contains(b) implies reached(s, root@, d + 1).contains(b) by {
                    if w.contains(b) {
                        lemma_within_more(s, root@, b, d, d + 1);
                    } else {
                        assert(ring(s, root@, d + 1).contains(b));
                    }
                }
            }
        }
        if next.len() == 0 {
            proof {
                assert(ring(s, root@, d + 1) =~= Set::<Seq<char>>::empty()) by {
                    if exists|b: Seq<char>| #[trigger] ring(s, root@, d + 1).contains(b) {
                        let b = choose|b: Seq<char>| #[trigger] ring(s, root@, d + 1).contains(b);
                        assert(path_set(next@).contains(b));
                        let k = choose|k: int| 0 <= k < next@.len() && (#[trigger] next@[k])@ == b;
                    }
                }
            }
            return levels;
        }
        proof {
            seen.lemma_size();
            assert(path_set(next@).contains(next@[0]@));
            assert(!w.contains(next@[0]@));
            assert(seen.set() == w.insert(next@[0]@).union(path_set(next@)));
            assert(w.insert(next@[0]@).subset_of(seen.set()));
            assert(w.insert(next@[0]@).len() == w.len() + 1);
            vstd::set_lib::lemma_len_subset(w.insert(next@[0]@), seen.set());
            assert(seen.set().subset_of(vertices(s))) by {
                assert forall|b: Seq<char>| seen.set().contains(b) implies vertices(s).contains(b) by {
                    lemma_within_in_layout(s, root@, b, d + 1);
                }
            }
            vstd::set_lib::lemma_len_subset(seen.set(), vertices(s));
        }
        let sorted = sort_paths(next.clone());
        let ghost before = levels@;
        levels.push(sorted);
        proof {
            assert forall|e: int| 0 <= e < levels@.len() implies {
                &&& (#[trigger] levels@[e])@.len() > 0
                &&& paths_sorted(levels@[e]@)
                &&& path_set(levels@[e]@) == ring(s, root@, (e + 1) as nat)
            } by {
                if e < before.len() {
                    assert(levels@[e] == before[e]);
                } else {
                    assert(path_set(sorted@).contains(next@[0]@));
                }
            }
        }
        frontier = next;
    }
}

/// Each connected component (as [`components_from`] lists them) with its
/// root and the rings around it.
pub fn component_rings(snapshot: &GraphSnapshot) -> (r: Vec<ComponentRings>)
    ensures
        lists_components(snapshot@, r@.map_values(|c: ComponentRings| c.members)),
        forall|i: int|
            0 <= i < r@.len() ==> is_root(snapshot@, (#[trigger] r@[i]).members@, r@[i].root@)
                && rings_from(snapshot@, r@[i].root@, r@[i].levels@),
{
    let ghost s = snapshot@;
    let comps = components_from(snapshot);
    let mut out: Vec<ComponentRings> = Vec::new();
    let mut i: usize = 0;
    while i < comps.len()
        invariant
            s == snapshot@,
            lists_components(s, comps@),
            i <= comps@.len(),
            out@.len() == i,
            forall|k: int| 0 <= k < i ==> (#[trigger] out@[k]).members@ == comps@[k]@,
            forall|k: int|
                0 <= k < i ==> is_root(s, (#[trigger] out@[k]).members@, out@[k].root@) && rings_from(
                    s,
                    out@[k].root@,
                    out@[k].levels@,
                ),
        decreases comps@.len() - i,
    {
        let members = comps[i].clone();
        assert(members@ =~= comps@[i as int]@);
        let root = best_linked(snapshot, &members);
        proof {
            assert(component(s, members@[0]@).contains(root@));
            assert(vertices(s).contains(root@));
        }
        let levels = rings_around(snapshot, &root);
        out.push(ComponentRings { members, root, levels });
        i = i + 1;
    }
    proof {
        let listed = out@.map_values(|c: ComponentRings| c.members);
        assert forall|k: int| 0 <= k < listed.len() implies (#[trigger] listed[k])@ == comps@[k]@ by {}
        assert forall|k: int|
            0 <= k < listed.len() implies {
                &&& (#[trigger] listed[k])@.len() > 0
                &&& paths_sorted(listed[k]@)
                &&& path_set(listed[k]@) == component(s, listed[k]@[0]@)
            } by {
            assert(listed[k]@ == comps@[k]@);
        }
        assert forall|c: Set<Seq<char>>| #[trigger] crate::graph_stats::components(s).contains(c) implies exists|k: int|
            0 <= k < listed.len() && path_set(listed[k]@) == c by {
            let k = choose|k: int| 0 <= k < comps@.len() && path_set(comps@[k]@) == c;
            assert(listed[k]@ == comps@[k]@);
        }
        assert forall|a: int, b: int|
            0 <= a < b < listed.len() implies crate::graph_stats::component_before(
                (#[trigger] listed[a])@,
                (#[trigger] listed[b])@,
            ) by {
            assert(listed[a]@ == comps@[a]@ && listed[b]@ == comps@[b]@);
        }
    }
    out
}
} // verus!
