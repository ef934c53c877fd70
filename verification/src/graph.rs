//! The knowledge graph's state: the vault snapshot, scope, filters, search,
//! selection, pins, and the protocol that keeps snapshot rebuilds from
//! overwriting newer data.

use vstd::prelude::*;
use vstd::pervasive::VecAdditionalExecFns;

use crate::text::{
    chars_equal, chars_of, contains_seq, extend_chars, has_substring, str_lowercase, string_of,
    to_lowercase, trim_chars, trimmed,
};
use crate::path_set::{distinct_paths, lemma_path_set_push, path_set, PathSet};
use crate::graph_stats::{compute_stats, paths_sorted, sort_paths, stats_match, total_weight, GraphStats};
use crate::graph_rank::{hub_order, hub_ranking};

verus! {

/// Which part of the vault the graph shows.
#[derive(Debug, Clone, Copy, PartialEq, Eq, Structural)]
pub enum GraphScope {
    Global,
    /// The active document and what lies within `depth` links of it.
    Local { depth: u8 },
}

/// `GraphScope::normalized`: a local depth held to one or two.
pub open spec fn normalized_scope(s: GraphScope) -> GraphScope {
    match s {
        GraphScope::Global => GraphScope::Global,
        GraphScope::Local { depth } => GraphScope::Local {
            depth: if depth < 1 {
                1
            } else if depth > 2 {
                2
            } else {
                depth
            },
        },
    }
}

impl GraphScope {
    /// The scope with a local depth clamped to one or two.
    pub fn normalized(self) -> (r: GraphScope)
        ensures
            r == normalized_scope(self),
    {
        match self {
            GraphScope::Global => GraphScope::Global,
            GraphScope::Local { depth } => GraphScope::Local {
                depth: if depth < 1 {
                    1
                } else if depth > 2 {
                    2
                } else {
                    depth
                },
            },
        }
    }
}

/// What a node stands for.
#[derive(Debug, Clone, Copy, PartialEq, Eq, Structural)]
pub enum GraphNodeKind {
    Markdown,
    Pdf,
    /// A link target that does not exist in the vault.
    Missing,
}

/// A document in the graph and how many links reach it and leave it.
#[derive(Debug, Clone, PartialEq, Eq)]
pub struct GraphNode {
    pub path: String,
    pub label: String,
    pub kind: GraphNodeKind,
    pub exists: bool,
    pub incoming: usize,
    pub outgoing: usize,
}

/// A link between two documents, by path.
#[derive(Debug, Clone, PartialEq, Eq)]
pub struct GraphEdge {
    pub source: String,
    pub target: String,
    pub weight: usize,
}

/// The documents of a vault and the links between them.
#[derive(Debug, Clone, PartialEq, Eq)]
pub struct GraphSnapshot {
    pub nodes: Vec<GraphNode>,
    pub edges: Vec<GraphEdge>,
}

/// The mathematical content of a node.
pub struct NodeView {
    pub path: Seq<char>,
    pub label: Seq<char>,
    pub kind: GraphNodeKind,
    pub exists: bool,
    pub incoming: usize,
    pub outgoing: usize,
}

/// The mathematical content of an edge.
pub struct EdgeView {
    pub source: Seq<char>,
    pub target: Seq<char>,
    pub weight: usize,
}

/// The mathematical content of a snapshot.
pub struct SnapshotView {
    pub nodes: Seq<NodeView>,
    pub edges: Seq<EdgeView>,
}

impl View for GraphNode {
    type V = NodeView;

    open spec fn view(&self) -> NodeView {
        NodeView {
            path: self.path@,
            label: self.label@,
            kind: self.kind,
            exists: self.exists,
            incoming: self.incoming,
            outgoing: self.outgoing,
        }
    }
}

impl View for GraphEdge {
    type V = EdgeView;

    open spec fn view(&self) -> EdgeView {
        EdgeView { source: self.source@, target: self.target@, weight: self.weight }
    }
}

impl View for GraphSnapshot {
    type V = SnapshotView;

    open spec fn view(&self) -> SnapshotView {
        SnapshotView {
            nodes: self.nodes@.map_values(|n: GraphNode| n@),
            edges: self.edges@.map_values(|e: GraphEdge| e@),
        }
    }
}

impl GraphSnapshot {
    /// No nodes, no edges.
    pub fn empty() -> (s: GraphSnapshot)
        ensures
            s.nodes@.len() == 0,
            s.edges@.len() == 0,
    {
        GraphSnapshot { nodes: Vec::new(), edges: Vec::new() }
    }
}

fn same_string(a: &String, b: &String) -> (r: bool)
    ensures
        r == (a@ == b@),
{
    chars_equal(&chars_of(a.as_str()), &chars_of(b.as_str()))
}

fn clone_node(n: &GraphNode) -> (r: GraphNode)
    ensures
        r@ == n@,
{
    GraphNode {
        path: n.path.clone(),
        label: n.label.clone(),
        kind: n.kind,
        exists: n.exists,
        incoming: n.incoming,
        outgoing: n.outgoing,
    }
}

fn clone_edge(e: &GraphEdge) -> (r: GraphEdge)
    ensures
        r@ == e@,
{
    GraphEdge { source: e.source.clone(), target: e.target.clone(), weight: e.weight }
}

fn same_node(a: &GraphNode, b: &GraphNode) -> (r: bool)
    ensures
        r == (a@ == b@),
{
    a.kind == b.kind && a.exists == b.exists && a.incoming == b.incoming && a.outgoing
        == b.outgoing && same_string(&a.path, &b.path) && same_string(&a.label, &b.label)
}

fn same_edge(a: &GraphEdge, b: &GraphEdge) -> (r: bool)
    ensures
        r == (a@ == b@),
{
    a.weight == b.weight && same_string(&a.source, &b.source) && same_string(&a.target, &b.target)
}

/// Whether two snapshots hold the same nodes and edges in the same order.
pub fn same_snapshot(a: &GraphSnapshot, b: &GraphSnapshot) -> (r: bool)
    ensures
        r == (a@ == b@),
{
    if a.nodes.len() != b.nodes.len() || a.edges.len() != b.edges.len() {
        proof {
            if a@ == b@ {
                assert(a@.nodes.len() == b@.nodes.len());
                assert(a@.edges.len() == b@.edges.len());
            }
        }
        return false;
    }
    let mut i: usize = 0;
    while i < a.nodes.len()
        invariant
            a.nodes@.len() == b.nodes@.len(),
            i <= a.nodes@.len(),
            forall|j: int| 0 <= j < i ==> (#[trigger] a.nodes@[j])@ == b.nodes@[j]@,
        decreases a.nodes@.len() - i,
    {
        if !same_node(&a.nodes[i], &b.nodes[i]) {
            proof {
                assert(a@.nodes[i as int] != b@.nodes[i as int]);
            }
            return false;
        }
        i = i + 1;
    }
    let mut k: usize = 0;
    while k < a.edges.len()
        invariant
            a.edges@.len() == b.edges@.len(),
            k <= a.edges@.len(),
            forall|j: int| 0 <= j < k ==> (#[trigger] a.edges@[j])@ == b.edges@[j]@,
        decreases a.edges@.len() - k,
    {
        if !same_edge(&a.edges[k], &b.edges[k]) {
            proof {
                assert(a@.edges[k as int] != b@.edges[k as int]);
            }
            return false;
        }
        k = k + 1;
    }
    assert(a@.nodes =~= b@.nodes);
    assert(a@.edges =~= b@.edges);
    true
}

/// Why the visible graph has nothing to draw.
#[derive(Debug, Clone, Copy, PartialEq, Eq, Structural)]
pub enum EmptyReason {
    /// The first snapshot for this vault is still being built.
    Loading,
    /// The vault genuinely contains no indexed documents.
    NoDocuments,
    /// Local scope is selected but no document is open to center it on.
    NeedsActiveDocument,
    /// The search query matched nothing.
    NoSearchMatch,
    /// Every node was removed by the type filters.
    FiltersHideEverything,
}

/// `x + 1`, wrapping to zero past the largest `u64`.
pub open spec fn bump(x: u64) -> u64 {
    if x == u64::MAX {
        0
    } else {
        (x + 1) as u64
    }
}

pub(crate) fn bumped(x: u64) -> (r: u64)
    ensures
        r == bump(x),
{
    x.wrapping_add(1)
}

/// Some node of the snapshot has this path.
pub open spec fn has_node(s: SnapshotView, p: Seq<char>) -> bool {
    exists|i: int| 0 <= i < s.nodes.len() && (#[trigger] s.nodes[i]).path == p
}

/// The path is a node or the end of a link: the places the layout has a
/// position for, so the places that can be pinned.
pub open spec fn in_layout(s: SnapshotView, p: Seq<char>) -> bool {
    has_node(s, p) || exists|k: int|
        0 <= k < s.edges.len() && ((#[trigger] s.edges[k]).source == p || s.edges[k].target == p)
}

/// An optional path, as characters.
pub open spec fn opt_path(o: Option<String>) -> Option<Seq<char>> {
    match o {
        Some(s) => Some(s@),
        None => None,
    }
}

/// The last node with this path (a later node replaces an earlier one in
/// the path index).
pub open spec fn last_node_index(nodes: Seq<NodeView>, p: Seq<char>) -> Option<int>
    decreases nodes.len(),
{
    if nodes.len() == 0 {
        None
    } else if nodes.last().path == p {
        Some(nodes.len() - 1)
    } else {
        last_node_index(nodes.drop_last(), p)
    }
}

proof fn lemma_last_node_index(nodes: Seq<NodeView>, p: Seq<char>)
    ensures
        last_node_index(nodes, p) matches Some(i) ==> 0 <= i < nodes.len() && nodes[i].path == p
            && (forall|j: int| i < j < nodes.len() ==> nodes[j].path != p),
        last_node_index(nodes, p) is None <==> (forall|j: int|
            0 <= j < nodes.len() ==> nodes[j].path != p),
    decreases nodes.len(),
{
    if nodes.len() > 0 && nodes.last().path != p {
        lemma_last_node_index(nodes.drop_last(), p);
        assert forall|j: int| 0 <= j < nodes.len() - 1 implies nodes[j] == nodes.drop_last()[j] by {}
    }
}

fn find_node(snapshot: &GraphSnapshot, p: &Vec<char>) -> (r: Option<usize>)
    ensures
        r matches Some(i) ==> last_node_index(snapshot@.nodes, p@) == Some(i as int),
        r is None ==> last_node_index(snapshot@.nodes, p@) is None,
{
    let ghost nodes = snapshot@.nodes;
    proof {
        lemma_last_node_index(nodes, p@);
    }
    let mut k: usize = snapshot.nodes.len();
    while k > 0
        invariant
            nodes == snapshot@.nodes,
            k <= nodes.len(),
            forall|j: int| k <= j < nodes.len() ==> nodes[j].path != p@,
            last_node_index(nodes, p@) matches Some(i) ==> 0 <= i < nodes.len() && nodes[i].path
                == p@ && (forall|j: int| i < j < nodes.len() ==> nodes[j].path != p@),
            last_node_index(nodes, p@) is None <==> (forall|j: int|
                0 <= j < nodes.len() ==> nodes[j].path != p@),
        decreases k,
    {
        if chars_equal(&chars_of(snapshot.nodes[k - 1].path.as_str()), p) {
            assert(nodes[k - 1].path == p@);
            return Some(k - 1);
        }
        k = k - 1;
    }
    None
}

fn snapshot_has_node(snapshot: &GraphSnapshot, p: &Vec<char>) -> (r: bool)
    ensures
        r == has_node(snapshot@, p@),
{
    proof {
        lemma_last_node_index(snapshot@.nodes, p@);
    }
    match find_node(snapshot, p) {
        Some(i) => true,
        None => false,
    }
}

fn snapshot_in_layout(snapshot: &GraphSnapshot, p: &Vec<char>) -> (r: bool)
    ensures
        r == in_layout(snapshot@, p@),
{
    if snapshot_has_node(snapshot, p) {
        return true;
    }
    let mut k: usize = 0;
    while k < snapshot.edges.len()
        invariant
            k <= snapshot.edges@.len(),
            forall|j: int|
                0 <= j < k ==> (#[trigger] snapshot@.edges[j]).source != p@ && snapshot@.edges[j].target
                    != p@,
        decreases snapshot.edges@.len() - k,
    {
        let e = &snapshot.edges[k];
        if chars_equal(&chars_of(e.source.as_str()), p) || chars_equal(&chars_of(e.target.as_str()), p) {
            assert(snapshot@.edges[k as int].source == p@ || snapshot@.edges[k as int].target == p@);
            return true;
        }
        k = k + 1;
    }
    false
}

fn same_opt_string(a: &Option<String>, b: &Option<String>) -> (r: bool)
    ensures
        r == (opt_path(*a) == opt_path(*b)),
{
    match (a, b) {
        (Some(x), Some(y)) => same_string(x, y),
        (None, None) => true,
        _ => false,
    }
}

/// The bookkeeping of snapshot rebuilds, as plain values.
pub struct RefreshView {
    /// The snapshot is known to be out of date.
    pub dirty: bool,
    /// Bumped on every invalidation.
    pub generation: u64,
    /// The generation a rebuild is running for.
    pub in_flight: Option<u64>,
    /// The last generation a rebuild was started for, since the last retry
    /// or installed snapshot.
    pub last_attempted: Option<u64>,
}

/// A running rebuild is always for the generation last attempted.
pub open spec fn refresh_consistent(r: RefreshView) -> bool {
    r.in_flight matches Some(g) ==> r.last_attempted == Some(g)
}

/// A rebuild should start: the snapshot is stale, none is running, and this
/// generation has not been tried already.
pub open spec fn refresh_due(r: RefreshView) -> bool {
    r.dirty && r.in_flight is None && r.last_attempted != Some(r.generation)
}

/// After an invalidation: stale, under the next generation.
pub open spec fn after_mark_dirty(r: RefreshView) -> RefreshView {
    RefreshView { dirty: true, generation: bump(r.generation), ..r }
}

/// After asking to begin a rebuild: the current generation is reserved when
/// one is due, and handed out.
pub open spec fn after_begin(r: RefreshView) -> (RefreshView, Option<u64>) {
    if refresh_due(r) {
        (
            RefreshView { in_flight: Some(r.generation), last_attempted: Some(r.generation), ..r },
            Some(r.generation),
        )
    } else {
        (r, None)
    }
}

/// After a rebuild for `g` fails: nothing happens unless `g` is the running
/// rebuild; then it stops, and the failure counts when nothing newer
/// invalidated the graph meanwhile.
pub open spec fn after_fail(r: RefreshView, g: u64) -> (RefreshView, bool) {
    if r.in_flight == Some(g) {
        (RefreshView { in_flight: None, ..r }, r.generation == g)
    } else {
        (r, false)
    }
}

/// After a retry: a stale graph with nothing running may try its generation
/// again.
pub open spec fn after_retry(r: RefreshView) -> RefreshView {
    if r.dirty && r.in_flight is None {
        RefreshView { last_attempted: None, ..r }
    } else {
        r
    }
}

/// A rebuild for `g` that completes is installed: it is the running one and
/// nothing invalidated the graph since it began.
pub open spec fn completion_accepted(r: RefreshView, g: u64) -> bool {
    r.in_flight == Some(g) && r.generation == g
}

/// After a snapshot is installed: fresh, nothing running, nothing attempted.
pub open spec fn after_install(r: RefreshView) -> RefreshView {
    RefreshView { dirty: false, generation: r.generation, in_flight: None, last_attempted: None }
}

/// After a rebuild for `g` completes.
pub open spec fn after_complete(r: RefreshView, g: u64) -> RefreshView {
    if completion_accepted(r, g) {
        after_install(r)
    } else if r.in_flight == Some(g) {
        RefreshView { in_flight: None, ..r }
    } else {
        r
    }
}

/// After another vault is opened: stale under a new generation, and any
/// running rebuild forgotten.
pub open spec fn after_vault_change(r: RefreshView) -> RefreshView {
    RefreshView {
        dirty: true,
        generation: bump(r.generation),
        in_flight: None,
        last_attempted: None,
    }
}

/// The pins after toggling `p`: released when pinned, pinned when not, and
/// unchanged when the layout does not place `p`.
pub open spec fn toggled_pins(pins: Set<Seq<char>>, s: SnapshotView, p: Seq<char>) -> Set<
    Seq<char>,
> {
    if !in_layout(s, p) {
        pins
    } else if pins.contains(p) {
        pins.remove(p)
    } else {
        pins.insert(p)
    }
}

/// Beginning a rebuild hands out a generation exactly when one is due, and it
/// is the current one; afterwards nothing is due until the bookkeeping
/// changes again.
pub proof fn lemma_begin_reserves_once(r: RefreshView)
    ensures
        after_begin(r).1 is Some <==> refresh_due(r),
        refresh_due(r) ==> after_begin(r).1 == Some(r.generation),
        !refresh_due(after_begin(r).0),
        refresh_consistent(r) ==> refresh_consistent(after_begin(r).0),
{
}

/// A rebuild during which the graph changed is never installed: the graph
/// stays stale, and a rebuild of the new generation is due at once.
pub proof fn lemma_invalidated_rebuild_is_discarded(r: RefreshView)
    requires
        refresh_due(r),
    ensures
        ({
            let g = r.generation;
            let running = after_mark_dirty(after_begin(r).0);
            let done = after_complete(running, g);
            &&& after_begin(r).1 == Some(g)
            &&& !completion_accepted(running, g)
            &&& done.dirty
            &&& refresh_due(done)
            &&& after_begin(done).1 == Some(bump(g))
            &&& bump(g) != g
        }),
{
}

/// A rebuild that runs undisturbed is installed: the graph is then fresh and
/// no rebuild is due.
pub proof fn lemma_undisturbed_rebuild_is_installed(r: RefreshView)
    requires
        refresh_due(r),
    ensures
        completion_accepted(after_begin(r).0, r.generation),
        !after_complete(after_begin(r).0, r.generation).dirty,
        !refresh_due(after_complete(after_begin(r).0, r.generation)),
{
}

/// A failed rebuild of the current generation is reported and leaves the
/// graph stale, but is not tried again until a retry (which hands out the
/// same generation) or a new invalidation (which hands out another).
pub proof fn lemma_failed_generation_waits(r: RefreshView)
    requires
        refresh_due(r),
    ensures
        ({
            let g = r.generation;
            let (failed, reported) = after_fail(after_begin(r).0, g);
            &&& reported
            &&& failed.dirty
            &&& !refresh_due(failed)
            &&& refresh_due(after_retry(failed))
            &&& after_begin(after_retry(failed)).1 == Some(g)
            &&& refresh_due(after_mark_dirty(failed))
            &&& after_begin(after_mark_dirty(failed)).1 != Some(g)
        }),
{
}

/// A failure of a rebuild the graph already outdated is not reported and
/// does not hold back the new generation.
pub proof fn lemma_stale_failure_does_not_throttle(r: RefreshView)
    requires
        refresh_due(r),
    ensures
        ({
            let g = r.generation;
            let (after, reported) = after_fail(after_mark_dirty(after_begin(r).0), g);
            &&& !reported
            &&& refresh_due(after)
            &&& after_begin(after).1 == Some(bump(g))
            &&& after_begin(after).1 != Some(g)
        }),
{
}

/// The bookkeeping after `k` invalidations in a row.
pub open spec fn dirtied(r: RefreshView, k: nat) -> RefreshView
    decreases k,
{
    if k == 0 {
        r
    } else {
        after_mark_dirty(dirtied(r, (k - 1) as nat))
    }
}

proof fn lemma_dirtied(r: RefreshView, k: nat)
    ensures
        dirtied(r, k).in_flight == r.in_flight,
        dirtied(r, k).last_attempted == r.last_attempted,
        k > 0 ==> dirtied(r, k).dirty,
        k == 0 ==> dirtied(r, k) == r,
        dirtied(r, k).generation as int == (r.generation + k) % 0x1_0000_0000_0000_0000,
    decreases k,
{
    if k > 0 {
        lemma_dirtied(r, (k - 1) as nat);
        let x = dirtied(r, (k - 1) as nat).generation as int;
        let m = 0x1_0000_0000_0000_0000int;
        assert(x == (r.generation + k - 1) % m);
        assert((x + 1) % m == (r.generation + k) % m) by {
            vstd::arithmetic::div_mod::lemma_add_mod_noop(r.generation + k - 1, 1, m);
            vstd::arithmetic::div_mod::lemma_small_mod(1, m as nat);
        }
        assert(0 <= x < m) by {
            vstd::arithmetic::div_mod::lemma_mod_bound(r.generation + k - 1, m);
        }
        if x + 1 < m {
            vstd::arithmetic::div_mod::lemma_small_mod((x + 1) as nat, m as nat);
        } else {
            assert(x + 1 == m);
            assert((x + 1) % m == 0) by {
                vstd::arithmetic::div_mod::lemma_mod_self_0(m);
            }
        }
        assert(bump(x as u64) as int == (x + 1) % m);
    }
}

proof fn lemma_dirtied_moves_generation(r: RefreshView, k: nat)
    requires
        0 < k <= u64::MAX,
    ensures
        dirtied(r, k).generation != r.generation,
{
    lemma_dirtied(r, k);
    let m = 0x1_0000_0000_0000_0000int;
    let g = r.generation as int;
    if g + k < m {
        assert((g + k) % m == g + k) by {
            vstd::arithmetic::div_mod::lemma_small_mod((g + k) as nat, m as nat);
        }
    } else {
        assert((g + k) % m == g + k - m) by {
            vstd::arithmetic::div_mod::lemma_mod_add_multiples_vanish(g + k - m, m);
            vstd::arithmetic::div_mod::lemma_small_mod((g + k - m) as nat, m as nat);
        }
    }
}

/// However many invalidations come while a rebuild runs, it is installed
/// exactly when none came (counting fewer than 2^64 of them, as the
/// generation wraps). Installed, it leaves the graph fresh with nothing due;
/// discarded, it leaves the graph stale with the newest generation due at
/// once.
pub proof fn lemma_completion_after_invalidations(r: RefreshView, k: nat)
    requires
        refresh_due(r),
        k <= u64::MAX,
    ensures
        ({
            let g = r.generation;
            let running = dirtied(after_begin(r).0, k);
            let done = after_complete(running, g);
            &&& after_begin(r).1 == Some(g)
            &&& completion_accepted(running, g) == (k == 0)
            &&& done.in_flight is None
            &&& k == 0 ==> !done.dirty && !refresh_due(done)
            &&& k > 0 ==> done.dirty && refresh_due(done) && done.generation != g
        }),
{
    let started = after_begin(r).0;
    lemma_dirtied(started, k);
    if k > 0 {
        lemma_dirtied_moves_generation(started, k);
    }
}

/// However many invalidations come while a rebuild runs, its failure is
/// reported exactly when none came (counting fewer than 2^64 of them). A
/// reported failure leaves the graph stale without trying the same
/// generation again until a retry or a new invalidation; an unreported one
/// leaves the newest generation due at once.
pub proof fn lemma_failure_after_invalidations(r: RefreshView, k: nat)
    requires
        refresh_due(r),
        k <= u64::MAX,
    ensures
        ({
            let g = r.generation;
            let running = dirtied(after_begin(r).0, k);
            let (failed, reported) = after_fail(running, g);
            &&& reported == (k == 0)
            &&& failed.in_flight is None
            &&& failed.dirty
            &&& k == 0 ==> !refresh_due(failed) && refresh_due(after_retry(failed))
                && refresh_due(after_mark_dirty(failed))
            &&& k > 0 ==> refresh_due(failed)
        }),
{
    let started = after_begin(r).0;
    lemma_dirtied(started, k);
    if k > 0 {
        lemma_dirtied_moves_generation(started, k);
    }
    assert(bump(r.generation) != r.generation);
}

/// Toggling the same pin twice restores the pins.
pub proof fn lemma_toggle_pin_twice(pins: Set<Seq<char>>, s: SnapshotView, p: Seq<char>)
    ensures
        toggled_pins(toggled_pins(pins, s, p), s, p) == pins,
{
    if in_layout(s, p) {
        if pins.contains(p) {
            assert(pins.remove(p).insert(p) =~= pins);
        } else {
            assert(pins.insert(p).remove(p) =~= pins);
        }
    }
}

/// What a node is searched by: its label and its path on two lines,
/// lowercased.
pub open spec fn search_key(n: NodeView) -> Seq<char> {
    str_lowercase(n.label + seq!['\n'] + n.path)
}

/// The query as it is matched: trimmed, then lowercased.
pub open spec fn normalized_query(q: Seq<char>) -> Seq<char> {
    str_lowercase(trimmed(q))
}

/// How many of `nodes` have `q` in their search key.
pub open spec fn count_hits(nodes: Seq<NodeView>, q: Seq<char>) -> nat
    decreases nodes.len(),
{
    if nodes.len() == 0 {
        0
    } else {
        count_hits(nodes.drop_last(), q) + if contains_seq(search_key(nodes.last()), q) {
            1nat
        } else {
            0nat
        }
    }
}

/// How many nodes the query names directly: none for an empty query.
pub open spec fn query_match_count(s: SnapshotView, query: Seq<char>) -> nat {
    let q = normalized_query(query);
    if q.len() == 0 {
        0
    } else {
        count_hits(s.nodes, q)
    }
}

fn search_key_of(n: &GraphNode) -> (r: Vec<char>)
    ensures
        r@ == search_key(n@),
{
    let mut v = chars_of(n.label.as_str());
    v.push('\n');
    extend_chars(&mut v, &chars_of(n.path.as_str()));
    assert(v@ =~= n.label@ + seq!['\n'] + n.path@);
    let joined = string_of(&v);
    chars_of(to_lowercase(joined.as_str()).as_str())
}

fn normalized_query_of(q: &String) -> (r: Vec<char>)
    ensures
        r@ == normalized_query(q@),
{
    let trimmed = string_of(&trim_chars(&chars_of(q.as_str())));
    chars_of(to_lowercase(trimmed.as_str()).as_str())
}

/// The filters a view applies, as plain values.
pub struct FilterView {
    pub scope: GraphScope,
    pub active: Option<Seq<char>>,
    pub show_pdfs: bool,
    pub show_missing: bool,
    pub show_orphans: bool,
    pub query: Seq<char>,
}

/// The edge joins `a` and `b`, in either direction.
pub open spec fn joins(e: EdgeView, a: Seq<char>, b: Seq<char>) -> bool {
    (e.source == a && e.target == b) || (e.source == b && e.target == a)
}

/// Some edge joins `a` and `b`.
pub open spec fn linked(s: SnapshotView, a: Seq<char>, b: Seq<char>) -> bool {
    exists|k: int| 0 <= k < s.edges.len() && joins(#[trigger] s.edges[k], a, b)
}

/// `p` is within `depth` links of `a`: a depth below one counts as one, and
/// one above two as two.
pub open spec fn within_reach(s: SnapshotView, a: Seq<char>, depth: u8, p: Seq<char>) -> bool {
    ||| p == a
    ||| linked(s, a, p)
    ||| depth >= 2 && exists|m: Seq<char>| #[trigger] linked(s, a, m) && linked(s, m, p)
}

/// The scope admits node `i`: every node in global scope; in local scope,
/// with an active document that has a node, the nodes near it (a path that
/// several nodes share is admitted at its last node).
pub open spec fn scope_allows(s: SnapshotView, f: FilterView, i: int) -> bool {
    match f.scope {
        GraphScope::Global => true,
        GraphScope::Local { depth } => {
            &&& f.active matches Some(a)
            &&& has_node(s, a)
            &&& last_node_index(s.nodes, s.nodes[i].path) == Some(i)
            &&& within_reach(s, a, depth, s.nodes[i].path)
        },
    }
}

/// The type filters let the node through.
pub open spec fn passes_type_filters(f: FilterView, n: NodeView) -> bool {
    &&& f.show_pdfs || n.kind != GraphNodeKind::Pdf
    &&& f.show_missing || n.kind != GraphNodeKind::Missing
    &&& f.show_orphans || n.incoming + n.outgoing > 0
}

/// Scope and type filters admit node `i`.
pub open spec fn base_allowed(s: SnapshotView, f: FilterView, i: int) -> bool {
    scope_allows(s, f, i) && passes_type_filters(f, s.nodes[i])
}

/// Node `i` is admitted and the query names it.
pub open spec fn query_hit(s: SnapshotView, f: FilterView, i: int) -> bool {
    base_allowed(s, f, i) && contains_seq(search_key(s.nodes[i]), normalized_query(f.query))
}

/// The nodes the ends of edge `k` resolve to (the last node with each path).
pub open spec fn edge_ends(s: SnapshotView, k: int) -> (Option<int>, Option<int>) {
    (last_node_index(s.nodes, s.edges[k].source), last_node_index(s.nodes, s.edges[k].target))
}

/// Edge `k` keeps admitted node `i` in view as context: its other end is a
/// query hit.
pub open spec fn lends_context(s: SnapshotView, f: FilterView, k: int, i: int) -> bool {
    &&& base_allowed(s, f, i)
    &&& match edge_ends(s, k) {
        (Some(a), Some(b)) => (b == i && query_hit(s, f, a)) || (a == i && query_hit(s, f, b)),
        _ => false,
    }
}

/// Node `i` is drawn: admitted, and with a query, a hit or next to one.
pub open spec fn node_shown(s: SnapshotView, f: FilterView, i: int) -> bool {
    if normalized_query(f.query).len() == 0 {
        base_allowed(s, f, i)
    } else {
        query_hit(s, f, i) || exists|k: int| 0 <= k < s.edges.len() && #[trigger] lends_context(s, f, k, i)
    }
}

/// Edge `k` is drawn: both its ends resolve to drawn nodes.
pub open spec fn edge_shown(s: SnapshotView, f: FilterView, k: int) -> bool {
    match edge_ends(s, k) {
        (Some(a), Some(b)) => node_shown(s, f, a) && node_shown(s, f, b),
        _ => false,
    }
}

/// The items of `xs` whose position is marked in `keep`, in order.
pub open spec fn pick<T>(xs: Seq<T>, keep: Seq<bool>) -> Seq<T>
    decreases xs.len(),
{
    if xs.len() == 0 {
        Seq::empty()
    } else {
        let init = pick(xs.drop_last(), keep);
        if keep[xs.len() - 1] {
            init.push(xs.last())
        } else {
            init
        }
    }
}

/// Picking from a prefix gives a prefix of the picks.
pub proof fn lemma_pick_take<T>(xs: Seq<T>, keep: Seq<bool>, i: int)
    requires
        0 <= i <= xs.len(),
    ensures
        pick(xs.take(i), keep).len() <= pick(xs, keep).len(),
        pick(xs.take(i), keep) == pick(xs, keep).take(pick(xs.take(i), keep).len() as int),
    decreases xs.len() - i,
{
    if i < xs.len() {
        lemma_pick_take(xs, keep, i + 1);
        assert(xs.take(i + 1).drop_last() =~= xs.take(i));
        let a = pick(xs.take(i), keep);
        let b = pick(xs.take(i + 1), keep);
        let full = pick(xs, keep);
        if keep[i] {
            assert(b == a.push(xs[i]));
            assert(full.take(a.len() as int) =~= b.take(a.len() as int));
            assert(b.take(a.len() as int) =~= a);
        } else {
            assert(b == a);
        }
    } else {
        assert(xs.take(i) =~= xs);
        assert(pick(xs, keep).take(pick(xs, keep).len() as int) =~= pick(xs, keep));
    }
}

/// Collecting picks until `limit` are found, or the items run out, gives the
/// first `limit` picks.
pub proof fn lemma_pick_prefix<T>(xs: Seq<T>, keep: Seq<bool>, i: int, limit: usize)
    requires
        0 <= i <= xs.len(),
        pick(xs.take(i), keep).len() <= limit,
        i < xs.len() ==> pick(xs.take(i), keep).len() == limit,
    ensures
        pick(xs.take(i), keep) == first_n(pick(xs, keep), limit),
{
    lemma_pick_take(xs, keep, i);
    if i == xs.len() {
        assert(xs.take(i) =~= xs);
    }
}

/// What is picked is an item whose position is marked.
pub proof fn lemma_pick_members<T>(xs: Seq<T>, keep: Seq<bool>, x: T)
    requires
        pick(xs, keep).contains(x),
    ensures
        exists|i: int| 0 <= i < xs.len() && keep[i] && xs[i] == x,
    decreases xs.len(),
{
    if xs.len() > 0 {
        let init = pick(xs.drop_last(), keep);
        if keep[xs.len() - 1] && x == xs.last() {
        } else {
            if keep[xs.len() - 1] {
                assert(init.push(xs.last()).contains(x));
                let j = choose|j: int| 0 <= j < init.push(xs.last()).len() && init.push(xs.last())[j] == x;
                assert(init.contains(x)) by {
                    assert(j < init.len());
                    assert(init[j] == x);
                }
            }
            lemma_pick_members(xs.drop_last(), keep, x);
            let i = choose|i: int| 0 <= i < xs.drop_last().len() && keep[i] && xs.drop_last()[i] == x;
            assert(xs[i] == x);
        }
    }
}

/// An item whose position is marked is picked.
pub proof fn lemma_pick_contains<T>(xs: Seq<T>, keep: Seq<bool>, i: int)
    requires
        0 <= i < xs.len(),
        keep[i],
    ensures
        pick(xs, keep).contains(xs[i]),
    decreases xs.len(),
{
    let init = pick(xs.drop_last(), keep);
    if i == xs.len() - 1 {
        assert(init.push(xs.last())[init.len() as int] == xs[i]);
    } else {
        lemma_pick_contains(xs.drop_last(), keep, i);
        assert(xs.drop_last()[i] == xs[i]);
        let j = choose|j: int| 0 <= j < init.len() && init[j] == xs[i];
        if keep[xs.len() - 1] {
            assert(init.push(xs.last())[j] == xs[i]);
        }
    }
}

/// Nothing is picked when no position is marked.
pub proof fn lemma_pick_none<T>(xs: Seq<T>, keep: Seq<bool>)
    requires
        forall|i: int| 0 <= i < xs.len() ==> !keep[i],
    ensures
        pick(xs, keep).len() == 0,
    decreases xs.len(),
{
    if xs.len() > 0 {
        lemma_pick_none(xs.drop_last(), keep);
    }
}

/// Every edge the filtered graph draws joins two nodes it draws.
pub proof fn lemma_filtered_edges_join_drawn_nodes(s: SnapshotView, f: FilterView, e: EdgeView)
    requires
        filtered_view(s, f).edges.contains(e),
    ensures
        has_node(filtered_view(s, f), e.source),
        has_node(filtered_view(s, f), e.target),
{
    let keep_nodes = Seq::new(s.nodes.len(), |i: int| node_shown(s, f, i));
    let keep_edges = Seq::new(s.edges.len(), |k: int| edge_shown(s, f, k));
    lemma_pick_members(s.edges, keep_edges, e);
    let k = choose|k: int| 0 <= k < s.edges.len() && keep_edges[k] && s.edges[k] == e;
    lemma_last_node_index(s.nodes, e.source);
    lemma_last_node_index(s.nodes, e.target);
    let (a, b) = (edge_ends(s, k).0->0, edge_ends(s, k).1->0);
    lemma_pick_contains(s.nodes, keep_nodes, a);
    lemma_pick_contains(s.nodes, keep_nodes, b);
    let fv = filtered_view(s, f);
    let x = choose|x: int| 0 <= x < fv.nodes.len() && fv.nodes[x] == s.nodes[a];
    let y = choose|y: int| 0 <= y < fv.nodes.len() && fv.nodes[y] == s.nodes[b];
    assert(fv.nodes[x].path == e.source);
    assert(fv.nodes[y].path == e.target);
}

/// Every node the filtered graph draws is admitted by the scope and the type
/// filters: in local scope, it is the active document or within the scope's
/// depth of it.
pub proof fn lemma_filtered_nodes_are_admitted(s: SnapshotView, f: FilterView, n: NodeView)
    requires
        filtered_view(s, f).nodes.contains(n),
    ensures
        passes_type_filters(f, n),
        f.scope matches GraphScope::Local { depth } ==> (f.active matches Some(a) && within_reach(
            s,
            a,
            depth,
            n.path,
        )),
{
    let keep_nodes = Seq::new(s.nodes.len(), |i: int| node_shown(s, f, i));
    lemma_pick_members(s.nodes, keep_nodes, n);
    let i = choose|i: int| 0 <= i < s.nodes.len() && keep_nodes[i] && s.nodes[i] == n;
    if normalized_query(f.query).len() != 0 && !query_hit(s, f, i) {
        let k = choose|k: int| 0 <= k < s.edges.len() && #[trigger] lends_context(s, f, k, i);
    }
}

/// Without a query every node that scope and type filters admit is drawn;
/// with one, every admitted node the query names is drawn, and so is each
/// admitted node linked to one.
pub proof fn lemma_admitted_nodes_are_drawn(s: SnapshotView, f: FilterView, i: int, k: int)
    requires
        0 <= i < s.nodes.len(),
        base_allowed(s, f, i),
        normalized_query(f.query).len() != 0 ==> query_hit(s, f, i) || (0 <= k < s.edges.len()
            && lends_context(s, f, k, i)),
    ensures
        filtered_view(s, f).nodes.contains(s.nodes[i]),
{
    let keep_nodes = Seq::new(s.nodes.len(), |j: int| node_shown(s, f, j));
    assert(keep_nodes[i]);
    lemma_pick_contains(s.nodes, keep_nodes, i);
}

/// With orphans hidden, and no query, a node the scope and the other type
/// filters admit is drawn exactly when it has a link in either direction:
/// incoming plus outgoing links above zero.
pub proof fn lemma_orphan_filter_counts_links_both_ways(s: SnapshotView, f: FilterView, i: int)
    requires
        0 <= i < s.nodes.len(),
        scope_allows(s, f, i),
        f.show_pdfs || s.nodes[i].kind != GraphNodeKind::Pdf,
        f.show_missing || s.nodes[i].kind != GraphNodeKind::Missing,
        !f.show_orphans,
        normalized_query(f.query).len() == 0,
    ensures
        filtered_view(s, f).nodes.contains(s.nodes[i]) <==> s.nodes[i].incoming
            + s.nodes[i].outgoing > 0,
{
    if s.nodes[i].incoming + s.nodes[i].outgoing > 0 {
        lemma_admitted_nodes_are_drawn(s, f, i, 0);
    }
    if filtered_view(s, f).nodes.contains(s.nodes[i]) {
        lemma_filtered_nodes_are_admitted(s, f, s.nodes[i]);
    }
}

/// Without a query, a node the scope admits is drawn exactly when each type
/// filter lets it through: PDFs only while PDFs are shown, missing targets
/// only while those are shown, and nodes without any link only while
/// orphans are shown.
pub proof fn lemma_type_filters_decide_without_query(s: SnapshotView, f: FilterView, i: int)
    requires
        0 <= i < s.nodes.len(),
        scope_allows(s, f, i),
        normalized_query(f.query).len() == 0,
    ensures
        filtered_view(s, f).nodes.contains(s.nodes[i]) <==> {
            &&& f.show_pdfs || s.nodes[i].kind != GraphNodeKind::Pdf
            &&& f.show_missing || s.nodes[i].kind != GraphNodeKind::Missing
            &&& f.show_orphans || s.nodes[i].incoming + s.nodes[i].outgoing > 0
        },
{
    let n = s.nodes[i];
    if (f.show_pdfs || n.kind != GraphNodeKind::Pdf) && (f.show_missing || n.kind
        != GraphNodeKind::Missing) && (f.show_orphans || n.incoming + n.outgoing > 0) {
        lemma_admitted_nodes_are_drawn(s, f, i, 0);
    }
    if filtered_view(s, f).nodes.contains(n) {
        lemma_filtered_nodes_are_admitted(s, f, n);
    }
}

/// In local scope without an active document that has a node, nothing is
/// drawn.
pub proof fn lemma_local_scope_needs_active_document(s: SnapshotView, f: FilterView)
    requires
        f.scope is Local,
        !(f.active matches Some(a) && has_node(s, a)),
    ensures
        filtered_view(s, f).nodes.len() == 0,
        filtered_view(s, f).edges.len() == 0,
{
    let keep_nodes = Seq::new(s.nodes.len(), |i: int| node_shown(s, f, i));
    assert forall|i: int| 0 <= i < s.nodes.len() implies !keep_nodes[i] by {
        if normalized_query(f.query).len() != 0 && !query_hit(s, f, i) {
            if exists|k: int| 0 <= k < s.edges.len() && #[trigger] lends_context(s, f, k, i) {
                let k = choose|k: int| 0 <= k < s.edges.len() && #[trigger] lends_context(s, f, k, i);
            }
        }
    }
    lemma_pick_none(s.nodes, keep_nodes);
    let keep_edges = Seq::new(s.edges.len(), |k: int| edge_shown(s, f, k));
    assert forall|k: int| 0 <= k < s.edges.len() implies !keep_edges[k] by {
        lemma_last_node_index(s.nodes, s.edges[k].source);
        if let (Some(a), Some(b)) = edge_ends(s, k) {
            assert(!keep_nodes[a]);
        }
    }
    lemma_pick_none(s.edges, keep_edges);
}

/// The graph as scope, filters and query reduce it.
pub open spec fn filtered_view(s: SnapshotView, f: FilterView) -> SnapshotView {
    SnapshotView {
        nodes: pick(s.nodes, Seq::new(s.nodes.len(), |i: int| node_shown(s, f, i))),
        edges: pick(s.edges, Seq::new(s.edges.len(), |k: int| edge_shown(s, f, k))),
    }
}

/// An optional position, as an integer.
pub open spec fn opt_int(o: Option<usize>) -> Option<int> {
    match o {
        Some(i) => Some(i as int),
        None => None,
    }
}

fn edge_endpoints(snapshot: &GraphSnapshot) -> (pairs: Vec<(Option<usize>, Option<usize>)>)
    ensures
        pairs@.len() == snapshot@.edges.len(),
        forall|k: int|
            0 <= k < pairs@.len() ==> (opt_int(#[trigger] pairs@[k].0), opt_int(pairs@[k].1))
                == edge_ends(snapshot@, k),
        forall|k: int|
            0 <= k < pairs@.len() ==> (#[trigger] pairs@[k].0 matches Some(a) ==> a
                < snapshot@.nodes.len()) && (pairs@[k].1 matches Some(b) ==> b
                < snapshot@.nodes.len()),
{
    let mut pairs: Vec<(Option<usize>, Option<usize>)> = Vec::new();
    let mut k: usize = 0;
    while k < snapshot.edges.len()
        invariant
            k <= snapshot@.edges.len(),
            pairs@.len() == k,
            forall|j: int|
                0 <= j < k ==> (opt_int(#[trigger] pairs@[j].0), opt_int(pairs@[j].1))
                    == edge_ends(snapshot@, j),
            forall|j: int|
                0 <= j < k ==> (#[trigger] pairs@[j].0 matches Some(a) ==> a
                    < snapshot@.nodes.len()) && (pairs@[j].1 matches Some(b) ==> b
                    < snapshot@.nodes.len()),
        decreases snapshot@.edges.len() - k,
    {
        let e = &snapshot.edges[k];
        let a = find_node(snapshot, &chars_of(e.source.as_str()));
        let b = find_node(snapshot, &chars_of(e.target.as_str()));
        proof {
            lemma_last_node_index(snapshot@.nodes, e.source@);
            lemma_last_node_index(snapshot@.nodes, e.target@);
        }
        pairs.push((a, b));
        k = k + 1;
    }
    pairs
}

fn is_linked(snapshot: &GraphSnapshot, a: &Vec<char>, b: &Vec<char>) -> (r: bool)
    ensures
        r == linked(snapshot@, a@, b@),
{
    let mut k: usize = 0;
    while k < snapshot.edges.len()
        invariant
            k <= snapshot@.edges.len(),
            forall|j: int| 0 <= j < k ==> !joins(#[trigger] snapshot@.edges[j], a@, b@),
        decreases snapshot@.edges.len() - k,
    {
        let e = &snapshot.edges[k];
        let s = chars_of(e.source.as_str());
        let t = chars_of(e.target.as_str());
        if (chars_equal(&s, a) && chars_equal(&t, b)) || (chars_equal(&s, b) && chars_equal(&t, a)) {
            assert(joins(snapshot@.edges[k as int], a@, b@));
            return true;
        }
        k = k + 1;
    }
    false
}

fn two_links_apart(snapshot: &GraphSnapshot, a: &Vec<char>, p: &Vec<char>) -> (r: bool)
    ensures
        r == exists|m: Seq<char>| #[trigger] linked(snapshot@, a@, m) && linked(snapshot@, m, p@),
{
    let ghost s = snapshot@;
    let mut k: usize = 0;
    while k < snapshot.edges.len()
        invariant
            s == snapshot@,
            k <= s.edges.len(),
            forall|j: int|
                0 <= j < k ==> (#[trigger] s.edges[j].source == p@ ==> !linked(s, a@, s.edges[j].target))
                    && (s.edges[j].target == p@ ==> !linked(s, a@, s.edges[j].source)),
        decreases s.edges.len() - k,
    {
        let e = &snapshot.edges[k];
        let src = chars_of(e.source.as_str());
        let tgt = chars_of(e.target.as_str());
        if chars_equal(&src, p) && is_linked(snapshot, a, &tgt) {
            assert(joins(s.edges[k as int], tgt@, p@));
            assert(linked(s, tgt@, p@));
            return true;
        }
        if chars_equal(&tgt, p) && is_linked(snapshot, a, &src) {
            assert(joins(s.edges[k as int], src@, p@));
            assert(linked(s, src@, p@));
            return true;
        }
        k = k + 1;
    }
    assert forall|m: Seq<char>| linked(s, a@, m) implies !linked(s, m, p@) by {
        if linked(s, m, p@) {
            let j = choose|j: int| 0 <= j < s.edges.len() && joins(#[trigger] s.edges[j], m, p@);
            assert(s.edges[j].source == p@ || s.edges[j].target == p@);
        }
    }
    false
}

/// The node positions of edge `k`'s ends, or the largest `usize` twice when
/// an end has no node.
pub open spec fn edge_pair(s: SnapshotView, k: int) -> (usize, usize) {
    match edge_ends(s, k) {
        (Some(a), Some(b)) => (a as usize, b as usize),
        _ => (usize::MAX, usize::MAX),
    }
}

/// What edge `k` adds to node `i`'s neighbours: its target when `i` is its
/// source, then its source when `i` is its target.
pub open spec fn neighbor_step(s: SnapshotView, k: int, i: int) -> Seq<u32> {
    match edge_ends(s, k) {
        (Some(a), Some(b)) => (if a == i {
            seq![b as u32]
        } else {
            Seq::empty()
        }) + (if b == i {
            seq![a as u32]
        } else {
            Seq::empty()
        }),
        _ => Seq::empty(),
    }
}

/// Node `i`'s neighbours as the first `upto` edges list them.
pub open spec fn neighbors_of(s: SnapshotView, i: int, upto: int) -> Seq<u32>
    decreases upto,
{
    if upto <= 0 {
        Seq::empty()
    } else {
        neighbors_of(s, i, upto - 1) + neighbor_step(s, upto - 1, i)
    }
}

/// A reduced graph with the positional lookups the renderers need: each
/// edge's end positions (aligned with the edges) and each node's neighbours.
pub struct FilteredGraph {
    pub snapshot: GraphSnapshot,
    pub edge_pairs: Vec<(usize, usize)>,
    pub neighbors: Vec<Vec<u32>>,
}

impl FilteredGraph {
    /// The lookups for `snapshot`.
    pub open spec fn indexes(&self) -> bool {
        &&& self.edge_pairs@.len() == self.snapshot@.edges.len()
        &&& forall|k: int|
            0 <= k < self.edge_pairs@.len() ==> #[trigger] self.edge_pairs@[k] == edge_pair(
                self.snapshot@,
                k,
            )
        &&& self.neighbors@.len() == self.snapshot@.nodes.len()
        &&& forall|i: int|
            0 <= i < self.neighbors@.len() ==> (#[trigger] self.neighbors@[i])@ == neighbors_of(
                self.snapshot@,
                i,
                self.snapshot@.edges.len() as int,
            )
    }

    fn build(snapshot: GraphSnapshot) -> (g: FilteredGraph)
        ensures
            g.snapshot@ == snapshot@,
            g.indexes(),
    {
        let ghost s = snapshot@;
        let n = snapshot.nodes.len();
        let pairs = edge_endpoints(&snapshot);
        let mut neighbors: Vec<Vec<u32>> = Vec::new();
        let mut i: usize = 0;
        while i < n
            invariant
                i <= n,
                neighbors@.len() == i,
                forall|j: int| 0 <= j < i ==> (#[trigger] neighbors@[j])@ == Seq::<u32>::empty(),
            decreases n - i,
        {
            neighbors.push(Vec::new());
            i = i + 1;
        }
        let mut edge_pairs: Vec<(usize, usize)> = Vec::new();
        let mut k: usize = 0;
        while k < pairs.len()
            invariant
                s == snapshot@,
                n == s.nodes.len(),
                pairs@.len() == s.edges.len(),
                forall|j: int|
                    0 <= j < pairs@.len() ==> (opt_int(#[trigger] pairs@[j].0), opt_int(
                        pairs@[j].1,
                    )) == edge_ends(s, j),
                forall|j: int|
                    0 <= j < pairs@.len() ==> (#[trigger] pairs@[j].0 matches Some(a) ==> a < n)
                        && (pairs@[j].1 matches Some(b) ==> b < n),
                k <= pairs@.len(),
                edge_pairs@.len() == k,
                forall|j: int| 0 <= j < k ==> #[trigger] edge_pairs@[j] == edge_pair(s, j),
                neighbors@.len() == n,
                forall|i: int|
                    0 <= i < n ==> (#[trigger] neighbors@[i])@ == neighbors_of(s, i, k as int),
            decreases pairs@.len() - k,
        {
            let ghost before = neighbors@;
            match pairs[k] {
                (Some(a), Some(b)) => {
                    edge_pairs.push((a, b));
                    let mut inner: Vec<u32> = Vec::new();
                    neighbors.set_and_swap(a, &mut inner);
                    inner.push(b as u32);
                    neighbors.set_and_swap(a, &mut inner);
                    let ghost middle = neighbors@;
                    let mut inner: Vec<u32> = Vec::new();
                    neighbors.set_and_swap(b, &mut inner);
                    inner.push(a as u32);
                    neighbors.set_and_swap(b, &mut inner);
                    proof {
                        assert forall|i: int| 0 <= i < n implies (#[trigger] neighbors@[i])@
                            == neighbors_of(s, i, k + 1) by {
                            assert(neighbors_of(s, i, k + 1) == neighbors_of(s, i, k as int)
                                + neighbor_step(s, k as int, i));
                            if i == a && i == b {
                                assert(neighbors@[i]@ =~= before[i]@.push(b as u32).push(
                                    a as u32,
                                ));
                            } else if i == a {
                                assert(neighbors@[i] == middle[i]);
                                assert(neighbors@[i]@ =~= before[i]@.push(b as u32));
                            } else if i == b {
                                assert(middle[i] == before[i]);
                                assert(neighbors@[i]@ =~= before[i]@.push(a as u32));
                            } else {
                                assert(neighbors@[i] == before[i]);
                                assert(neighbor_step(s, k as int, i) =~= Seq::<u32>::empty());
                                assert(neighbors@[i]@ =~= before[i]@);
                            }
                        }
                    }
                },
                _ => {
                    edge_pairs.push((usize::MAX, usize::MAX));
                    proof {
                        assert forall|i: int| 0 <= i < n implies (#[trigger] neighbors@[i])@
                            == neighbors_of(s, i, k + 1) by {
                            assert(neighbors_of(s, i, k + 1) == neighbors_of(s, i, k as int)
                                + neighbor_step(s, k as int, i));
                            assert(neighbors_of(s, i, k + 1) =~= neighbors_of(s, i, k as int));
                        }
                    }
                },
            }
            k = k + 1;
        }
        FilteredGraph { snapshot, edge_pairs, neighbors }
    }

    /// The position of the node with this path (the last one, should two
    /// share it).
    pub fn position_of(&self, path: &str) -> (r: Option<usize>)
        ensures
            opt_int(r) == last_node_index(self.snapshot@.nodes, path@),
    {
        find_node(&self.snapshot, &chars_of(path))
    }
}

/// Some edge runs from `source` to `target`.
pub open spec fn has_edge(s: SnapshotView, source: Seq<char>, target: Seq<char>) -> bool {
    exists|k: int|
        0 <= k < s.edges.len() && (#[trigger] s.edges[k]).source == source && s.edges[k].target
            == target
}

/// A note with no links in or out.
pub open spec fn is_unconnected(n: NodeView) -> bool {
    n.kind == GraphNodeKind::Markdown && n.incoming + n.outgoing == 0
}

/// The first `limit` items of `xs`, or all of them.
pub open spec fn first_n<T>(xs: Seq<T>, limit: usize) -> Seq<T> {
    if limit < xs.len() {
        xs.take(limit as int)
    } else {
        xs
    }
}

fn has_edge_between(snapshot: &GraphSnapshot, source: &Vec<char>, target: &Vec<char>) -> (r: bool)
    ensures
        r == has_edge(snapshot@, source@, target@),
{
    let mut k: usize = 0;
    while k < snapshot.edges.len()
        invariant
            k <= snapshot@.edges.len(),
            forall|j: int|
                0 <= j < k ==> !((#[trigger] snapshot@.edges[j]).source == source@
                    && snapshot@.edges[j].target == target@),
        decreases snapshot@.edges.len() - k,
    {
        let e = &snapshot.edges[k];
        if chars_equal(&chars_of(e.source.as_str()), source) && chars_equal(
            &chars_of(e.target.as_str()),
            target,
        ) {
            assert(snapshot@.edges[k as int].source == source@);
            return true;
        }
        k = k + 1;
    }
    false
}

/// The paths joined to `p` by an edge, in either direction.
pub open spec fn neighbors(s: SnapshotView, p: Seq<char>) -> Set<Seq<char>> {
    Set::new(|q: Seq<char>| linked(s, p, q))
}

pub(crate) fn neighbor_set(snapshot: &GraphSnapshot, p: &Vec<char>) -> (r: PathSet)
    ensures
        r.wf(),
        r.set() == neighbors(snapshot@, p@),
{
    let ghost s = snapshot@;
    let mut set = PathSet::new();
    let mut k: usize = 0;
    while k < snapshot.edges.len()
        invariant
            s == snapshot@,
            k <= s.edges.len(),
            set.wf(),
            set.set() == Set::new(
                |q: Seq<char>| exists|j: int| 0 <= j < k && joins(#[trigger] s.edges[j], p@, q),
            ),
        decreases s.edges.len() - k,
    {
        let e = &snapshot.edges[k];
        let ghost before = set.set();
        let src = chars_of(e.source.as_str());
        let tgt = chars_of(e.target.as_str());
        if chars_equal(&src, p) {
            set.insert(string_of(&tgt));
        }
        if chars_equal(&tgt, p) {
            set.insert(string_of(&src));
        }
        proof {
            assert(s.edges[k as int].source == src@ && s.edges[k as int].target == tgt@);
            assert(set.set() =~= Set::new(
                |q: Seq<char>| exists|j: int| 0 <= j < k + 1 && joins(#[trigger] s.edges[j], p@, q),
            )) by {
                assert forall|q: Seq<char>|
                    (exists|j: int| 0 <= j < k + 1 && joins(#[trigger] s.edges[j], p@, q)) implies set.set().contains(
                    q,
                ) by {
                    let j = choose|j: int| 0 <= j < k + 1 && joins(#[trigger] s.edges[j], p@, q);
                    if j < k {
                        assert(before.contains(q));
                    }
                }
            }
        }
        k = k + 1;
    }
    assert(set.set() =~= neighbors(s, p@));
    set
}

/// A note related to another: it shares neighbours with it without being
/// one, listed with the shared neighbours in increasing path order, each with
/// how many neighbours it has.
pub struct RelatedCandidate {
    pub node: GraphNode,
    pub shared: Vec<(String, usize)>,
}

/// Note `i` is a candidate for notes related to `origin`: a markdown note
/// other than `origin`, not joined to it, sharing a neighbour with it.
pub open spec fn related_candidate(s: SnapshotView, origin: Seq<char>, i: int) -> bool {
    let n = s.nodes[i];
    &&& in_layout(s, origin)
    &&& n.path != origin
    &&& n.kind == GraphNodeKind::Markdown
    &&& !neighbors(s, origin).contains(n.path)
    &&& neighbors(s, origin).intersect(neighbors(s, n.path)) != Set::<Seq<char>>::empty()
}

/// The shared neighbours of a candidate, in increasing order, each with its
/// neighbour count.
pub open spec fn lists_shared(s: SnapshotView, origin: Seq<char>, n: NodeView, shared: Seq<(String, usize)>) -> bool {
    let paths = shared.map_values(|e: (String, usize)| e.0);
    &&& paths_sorted(paths)
    &&& path_set(paths) == neighbors(s, origin).intersect(neighbors(s, n.path))
    &&& forall|k: int|
        0 <= k < shared.len() ==> neighbors(s, (#[trigger] shared[k]).0@).finite() && shared[k].1
            == neighbors(s, shared[k].0@).len()
}

/// Every pinned path is one the layout places.
pub open spec fn pins_placed(pins: Set<Seq<char>>, s: SnapshotView) -> bool {
    forall|p: Seq<char>| #[trigger] pins.contains(p) ==> in_layout(s, p)
}

/// The knowledge graph's state.
pub struct GraphState {
    pub visible: bool,
    pub scope: GraphScope,
    pub query: String,
    pub show_pdfs: bool,
    pub show_missing: bool,
    pub show_orphans: bool,
    pub selected_path: Option<String>,
    pub active_path: Option<String>,
    /// Node under the cursor.
    pub hovered_path: Option<String>,
    /// Whether the inspector panel is expanded.
    pub inspector_visible: bool,
    /// Bumped whenever the view should fit the graph again.
    pub fit_revision: u64,
    /// The vault graph and the bookkeeping of its rebuilds.
    pub store: GraphStore,
}

/// The vault graph a [`GraphState`] shows, its pins, and the bookkeeping that
/// keeps a slow rebuild from overwriting newer data. Only `GraphState`'s
/// methods change it.
pub struct GraphStore {
    snapshot: GraphSnapshot,
    pinned: PathSet,
    dirty: bool,
    dirty_generation: u64,
    refresh_in_flight: Option<u64>,
    last_attempted_generation: Option<u64>,
}

/// `o` kept when `keep` holds of its path, else nothing.
pub open spec fn keep_path(o: Option<String>, keep: bool) -> Option<String> {
    if keep {
        o
    } else {
        None
    }
}

impl GraphState {
    /// The current snapshot.
    pub closed spec fn snapshot_view(&self) -> SnapshotView {
        self.store.snapshot@
    }

    /// The pinned paths.
    pub closed spec fn pins(&self) -> Set<Seq<char>> {
        self.store.pinned.set()
    }

    /// The rebuild bookkeeping.
    pub closed spec fn refresh(&self) -> RefreshView {
        RefreshView {
            dirty: self.store.dirty,
            generation: self.store.dirty_generation,
            in_flight: self.store.refresh_in_flight,
            last_attempted: self.store.last_attempted_generation,
        }
    }

    /// The state's invariant: each path pinned once, and a running rebuild is
    /// the one last attempted.
    pub closed spec fn wf(&self) -> bool {
        &&& self.store.pinned.wf()
        &&& refresh_consistent(self.refresh())
        &&& pins_placed(self.pins(), self.snapshot_view())
    }

    /// Only paths the layout places are ever pinned.
    pub proof fn lemma_pins_in_layout(&self, p: Seq<char>)
        requires
            self.wf(),
            self.pins().contains(p),
        ensures
            in_layout(self.snapshot_view(), p),
    {
    }

    /// The graph itself, as opposed to how it is viewed, is as in `other`.
    pub open spec fn same_graph(&self, other: &GraphState) -> bool {
        &&& self.snapshot_view() == other.snapshot_view()
        &&& self.pins() == other.pins()
        &&& self.refresh() == other.refresh()
        &&& opt_path(self.selected_path) == opt_path(other.selected_path)
        &&& opt_path(self.hovered_path) == opt_path(other.hovered_path)
    }

    /// The user-facing settings, which snapshot bookkeeping never touches.
    pub open spec fn settings_unchanged(&self, other: &GraphState) -> bool {
        &&& self.visible == other.visible
        &&& self.scope == other.scope
        &&& self.query@ == other.query@
        &&& self.show_pdfs == other.show_pdfs
        &&& self.show_missing == other.show_missing
        &&& self.show_orphans == other.show_orphans
        &&& self.inspector_visible == other.inspector_visible
        &&& opt_path(self.active_path) == opt_path(other.active_path)
    }

    /// The filters the view applies.
    pub open spec fn filters(&self) -> FilterView {
        FilterView {
            scope: self.scope,
            active: opt_path(self.active_path),
            show_pdfs: self.show_pdfs,
            show_missing: self.show_missing,
            show_orphans: self.show_orphans,
            query: self.query@,
        }
    }

    /// Everything but the rebuild bookkeeping is as in `other`.
    pub open spec fn same_but_refresh(&self, other: &GraphState) -> bool {
        &&& self.settings_unchanged(other)
        &&& opt_path(self.selected_path) == opt_path(other.selected_path)
        &&& opt_path(self.hovered_path) == opt_path(other.hovered_path)
        &&& self.fit_revision == other.fit_revision
        &&& self.snapshot_view() == other.snapshot_view()
        &&& self.pins() == other.pins()
    }

    /// `self` is `before` with `snapshot` installed. A snapshot equal to the
    /// current one changes nothing but the bookkeeping; a new one replaces
    /// it, keeps only the pins the new layout still places, drops a selection
    /// or hover whose node is gone, and asks the view to fit again.
    pub open spec fn installed(&self, before: &GraphState, snapshot: SnapshotView) -> bool {
        &&& self.refresh() == after_install(before.refresh())
        &&& self.settings_unchanged(before)
        &&& if before.snapshot_view() == snapshot {
            &&& self.snapshot_view() == before.snapshot_view()
            &&& self.pins() == before.pins()
            &&& opt_path(self.selected_path) == opt_path(before.selected_path)
            &&& opt_path(self.hovered_path) == opt_path(before.hovered_path)
            &&& self.fit_revision == before.fit_revision
        } else {
            &&& self.snapshot_view() == snapshot
            &&& self.pins() == before.pins().filter(|p: Seq<char>| in_layout(snapshot, p))
            &&& opt_path(self.selected_path) == opt_path(
                keep_path(
                    before.selected_path,
                    before.selected_path matches Some(p) && has_node(snapshot, p@),
                ),
            )
            &&& opt_path(self.hovered_path) == opt_path(
                keep_path(
                    before.hovered_path,
                    before.hovered_path matches Some(p) && has_node(snapshot, p@),
                ),
            )
            &&& self.fit_revision == bump(before.fit_revision)
        }
    }

    /// An empty graph waiting for its first snapshot: global scope, every
    /// filter on, no query, and stale.
    pub fn new() -> (s: GraphState)
        ensures
            s.wf(),
            !s.visible,
            s.scope == GraphScope::Global,
            s.query@.len() == 0,
            s.show_pdfs && s.show_missing && s.show_orphans,
            s.selected_path is None && s.active_path is None && s.hovered_path is None,
            s.inspector_visible,
            s.fit_revision == 0,
            s.snapshot_view().nodes.len() == 0 && s.snapshot_view().edges.len() == 0,
            s.pins() == Set::<Seq<char>>::empty(),
            s.refresh() == (RefreshView {
                dirty: true,
                generation: 0,
                in_flight: None,
                last_attempted: None,
            }),
    {
        GraphState {
            visible: false,
            scope: GraphScope::Global,
            query: String::new(),
            show_pdfs: true,
            show_missing: true,
            show_orphans: true,
            selected_path: None,
            active_path: None,
            hovered_path: None,
            inspector_visible: true,
            fit_revision: 0,
            store: GraphStore {
                snapshot: GraphSnapshot::empty(),
                pinned: PathSet::new(),
                dirty: true,
                dirty_generation: 0,
                refresh_in_flight: None,
                last_attempted_generation: None,
            },
        }
    }

    // -- Refresh protocol ---------------------------------------------------

    /// Whether the snapshot is known to be out of date.
    pub fn is_dirty(&self) -> (r: bool)
        ensures
            r == self.refresh().dirty,
    {
        self.store.dirty
    }

    /// Whether a rebuild is running.
    pub fn is_loading(&self) -> (r: bool)
        ensures
            r == (self.refresh().in_flight is Some),
    {
        self.store.refresh_in_flight.is_some()
    }

    /// Note that the vault changed: the snapshot is stale, under a new
    /// generation.
    pub fn mark_dirty(&mut self)
        requires
            old(self).wf(),
        ensures
            final(self).wf(),
            final(self).refresh() == after_mark_dirty(old(self).refresh()),
            final(self).same_but_refresh(old(self)),
    {
        self.store.dirty = true;
        self.store.dirty_generation = bumped(self.store.dirty_generation);
    }

    /// Whether a debounced rebuild should start. A failed generation is held
    /// until another invalidation or an explicit retry, so a persistent error
    /// cannot make a tight retry loop.
    pub fn refresh_due(&self) -> (r: bool)
        ensures
            r == refresh_due(self.refresh()),
    {
        self.store.dirty && self.store.refresh_in_flight.is_none()
            && match self.store.last_attempted_generation {
            Some(g) => g != self.store.dirty_generation,
            None => true,
        }
    }

    /// Reserve the current generation for one rebuild, when one is due.
    pub fn begin_refresh(&mut self) -> (r: Option<u64>)
        requires
            old(self).wf(),
        ensures
            final(self).wf(),
            (final(self).refresh(), r) == after_begin(old(self).refresh()),
            final(self).same_but_refresh(old(self)),
    {
        if !self.refresh_due() {
            return None;
        }
        let generation = self.store.dirty_generation;
        self.store.refresh_in_flight = Some(generation);
        self.store.last_attempted_generation = Some(generation);
        Some(generation)
    }

    /// Finish a failed rebuild. The failure is reported (`true`) only when it
    /// was for the running rebuild and nothing newer invalidated the graph; a
    /// current-generation failure stays dirty but is not retried until the
    /// graph changes or [`GraphState::retry_refresh`] is called.
    pub fn fail_refresh(&mut self, generation: u64) -> (r: bool)
        requires
            old(self).wf(),
        ensures
            final(self).wf(),
            (final(self).refresh(), r) == after_fail(old(self).refresh(), generation),
            final(self).same_but_refresh(old(self)),
    {
        match self.store.refresh_in_flight {
            Some(g) => {
                if g != generation {
                    return false;
                }
            },
            None => {
                return false;
            },
        }
        self.store.refresh_in_flight = None;
        self.store.dirty_generation == generation
    }

    /// Allow a failed generation to be tried again, for example when the
    /// graph is closed and reopened.
    pub fn retry_refresh(&mut self)
        requires
            old(self).wf(),
        ensures
            final(self).wf(),
            final(self).refresh() == after_retry(old(self).refresh()),
            final(self).same_but_refresh(old(self)),
    {
        if self.store.dirty && self.store.refresh_in_flight.is_none() {
            self.store.last_attempted_generation = None;
        }
    }

    /// Apply a completed rebuild, only if it is the running one and no newer
    /// invalidation came while it ran. Returns whether it was installed.
    pub fn complete_refresh(&mut self, generation: u64, snapshot: GraphSnapshot) -> (r: bool)
        requires
            old(self).wf(),
        ensures
            final(self).wf(),
            r == completion_accepted(old(self).refresh(), generation),
            final(self).refresh() == after_complete(old(self).refresh(), generation),
            r ==> final(self).installed(old(self), snapshot@),
            !r ==> final(self).same_but_refresh(old(self)),
    {
        match self.store.refresh_in_flight {
            Some(g) => {
                if g != generation {
                    return false;
                }
            },
            None => {
                return false;
            },
        }
        self.store.refresh_in_flight = None;
        if self.store.dirty_generation != generation {
            return false;
        }
        self.set_snapshot(snapshot);
        true
    }

    // -- Snapshot -------------------------------------------------------------

    /// Install a freshly built snapshot (see [`GraphState::installed`]).
    pub fn set_snapshot(&mut self, snapshot: GraphSnapshot)
        requires
            old(self).wf(),
        ensures
            final(self).wf(),
            final(self).installed(old(self), snapshot@),
    {
        self.store.refresh_in_flight = None;
        self.store.last_attempted_generation = None;
        if same_snapshot(&self.store.snapshot, &snapshot) {
            self.store.dirty = false;
            return;
        }
        let mut kept = PathSet::new();
        let mut i: usize = 0;
        let n = self.store.pinned.len();
        while i < n
            invariant
                self.store.pinned.wf(),
                n == self.store.pinned.size(),
                i <= n,
                kept.wf(),
                kept.set() == Set::new(
                    |p: Seq<char>|
                        (exists|j: int| 0 <= j < i && #[trigger] self.store.pinned.item(j) == p)
                            && in_layout(snapshot@, p),
                ),
            decreases n - i,
        {
            let p = self.store.pinned.get(i);
            let ghost before = kept.set();
            if snapshot_in_layout(&snapshot, &chars_of(p.as_str())) {
                kept.insert(p.clone());
            }
            proof {
                let target = Set::new(
                    |q: Seq<char>|
                        (exists|j: int| 0 <= j < i + 1 && #[trigger] self.store.pinned.item(j) == q)
                            && in_layout(snapshot@, q),
                );
                assert(kept.set() =~= target) by {
                    assert forall|q: Seq<char>| target.contains(q) implies kept.set().contains(q) by {
                        let j = choose|j: int|
                            0 <= j < i + 1 && #[trigger] self.store.pinned.item(j) == q;
                        if j < i {
                            assert(before.contains(q));
                        }
                    }
                }
            }
            i = i + 1;
        }
        proof {
            self.store.pinned.lemma_items();
            assert(kept.set() =~= self.store.pinned.set().filter(
                |p: Seq<char>| in_layout(snapshot@, p),
            ));
        }
        self.store.pinned = kept;
        let keep_selected = match &self.selected_path {
            Some(p) => snapshot_has_node(&snapshot, &chars_of(p.as_str())),
            None => false,
        };
        if !keep_selected {
            self.selected_path = None;
        }
        let keep_hovered = match &self.hovered_path {
            Some(p) => snapshot_has_node(&snapshot, &chars_of(p.as_str())),
            None => false,
        };
        if !keep_hovered {
            self.hovered_path = None;
        }
        self.store.snapshot = snapshot;
        self.store.dirty = false;
        self.fit_revision = bumped(self.fit_revision);
    }

    /// Drop everything that belongs to the open vault before another is
    /// opened. Filters and scope stay, as user preferences; nodes, pins, the
    /// selection, the active document and any running rebuild go, so content
    /// of the old vault cannot flash up.
    pub fn clear_for_vault_change(&mut self)
        requires
            old(self).wf(),
        ensures
            final(self).wf(),
            final(self).snapshot_view().nodes.len() == 0,
            final(self).snapshot_view().edges.len() == 0,
            final(self).pins() == Set::<Seq<char>>::empty(),
            final(self).selected_path is None,
            final(self).active_path is None,
            final(self).hovered_path is None,
            final(self).refresh() == after_vault_change(old(self).refresh()),
            final(self).fit_revision == bump(old(self).fit_revision),
            final(self).visible == old(self).visible,
            final(self).scope == old(self).scope,
            final(self).query@ == old(self).query@,
            final(self).show_pdfs == old(self).show_pdfs,
            final(self).show_missing == old(self).show_missing,
            final(self).show_orphans == old(self).show_orphans,
            final(self).inspector_visible == old(self).inspector_visible,
    {
        assert(Set::<Seq<char>>::empty().len() == 0);
        self.store.snapshot = GraphSnapshot::empty();
        self.store.pinned.clear();
        self.selected_path = None;
        self.active_path = None;
        self.hovered_path = None;
        self.store.refresh_in_flight = None;
        self.store.last_attempted_generation = None;
        self.store.dirty = true;
        self.store.dirty_generation = bumped(self.store.dirty_generation);
        self.fit_revision = bumped(self.fit_revision);
    }

    // -- Settings -------------------------------------------------------------

    /// Center a local graph on another document; the view fits again when it
    /// changed.
    pub fn set_active_path(&mut self, path: Option<String>)
        requires
            old(self).wf(),
        ensures
            final(self).wf(),
            final(self).same_graph(old(self)),
            opt_path(final(self).active_path) == opt_path(path),
            final(self).fit_revision == if opt_path(old(self).active_path) == opt_path(path) {
                old(self).fit_revision
            } else {
                bump(old(self).fit_revision)
            },
            final(self).visible == old(self).visible,
            final(self).scope == old(self).scope,
            final(self).query@ == old(self).query@,
            final(self).show_pdfs == old(self).show_pdfs,
            final(self).show_missing == old(self).show_missing,
            final(self).show_orphans == old(self).show_orphans,
            final(self).inspector_visible == old(self).inspector_visible,
    {
        if !same_opt_string(&self.active_path, &path) {
            self.active_path = path;
            self.fit_revision = bumped(self.fit_revision);
        }
    }

    /// Switch scope (a local depth is held to one or two); the view fits
    /// again when it changed.
    pub fn set_scope(&mut self, scope: GraphScope)
        requires
            old(self).wf(),
        ensures
            final(self).wf(),
            final(self).same_graph(old(self)),
            final(self).scope == normalized_scope(scope),
            final(self).fit_revision == if old(self).scope == normalized_scope(scope) {
                old(self).fit_revision
            } else {
                bump(old(self).fit_revision)
            },
            final(self).visible == old(self).visible,
            final(self).query@ == old(self).query@,
            final(self).show_pdfs == old(self).show_pdfs,
            final(self).show_missing == old(self).show_missing,
            final(self).show_orphans == old(self).show_orphans,
            final(self).inspector_visible == old(self).inspector_visible,
            opt_path(final(self).active_path) == opt_path(old(self).active_path),
    {
        let scope = scope.normalized();
        if self.scope != scope {
            self.scope = scope;
            self.fit_revision = bumped(self.fit_revision);
        }
    }

    /// Change the search query; the view fits again when it changed.
    pub fn set_query(&mut self, query: String)
        requires
            old(self).wf(),
        ensures
            final(self).wf(),
            final(self).same_graph(old(self)),
            final(self).query@ == query@,
            final(self).fit_revision == if old(self).query@ == query@ {
                old(self).fit_revision
            } else {
                bump(old(self).fit_revision)
            },
            final(self).visible == old(self).visible,
            final(self).scope == old(self).scope,
            final(self).show_pdfs == old(self).show_pdfs,
            final(self).show_missing == old(self).show_missing,
            final(self).show_orphans == old(self).show_orphans,
            final(self).inspector_visible == old(self).inspector_visible,
            opt_path(final(self).active_path) == opt_path(old(self).active_path),
    {
        if !same_string(&self.query, &query) {
            self.query = query;
            self.fit_revision = bumped(self.fit_revision);
        }
    }

    /// Show or hide PDFs; the view fits again when it changed.
    pub fn set_show_pdfs(&mut self, show: bool)
        requires
            old(self).wf(),
        ensures
            final(self).wf(),
            final(self).same_graph(old(self)),
            final(self).show_pdfs == show,
            final(self).fit_revision == if old(self).show_pdfs == show {
                old(self).fit_revision
            } else {
                bump(old(self).fit_revision)
            },
            final(self).visible == old(self).visible,
            final(self).scope == old(self).scope,
            final(self).query@ == old(self).query@,
            final(self).show_missing == old(self).show_missing,
            final(self).show_orphans == old(self).show_orphans,
            final(self).inspector_visible == old(self).inspector_visible,
            opt_path(final(self).active_path) == opt_path(old(self).active_path),
    {
        if self.show_pdfs != show {
            self.show_pdfs = show;
            self.fit_revision = bumped(self.fit_revision);
        }
    }

    /// Show or hide link targets that do not exist; the view fits again when
    /// it changed.
    pub fn set_show_missing(&mut self, show: bool)
        requires
            old(self).wf(),
        ensures
            final(self).wf(),
            final(self).same_graph(old(self)),
            final(self).show_missing == show,
            final(self).fit_revision == if old(self).show_missing == show {
                old(self).fit_revision
            } else {
                bump(old(self).fit_revision)
            },
            final(self).visible == old(self).visible,
            final(self).scope == old(self).scope,
            final(self).query@ == old(self).query@,
            final(self).show_pdfs == old(self).show_pdfs,
            final(self).show_orphans == old(self).show_orphans,
            final(self).inspector_visible == old(self).inspector_visible,
            opt_path(final(self).active_path) == opt_path(old(self).active_path),
    {
        if self.show_missing != show {
            self.show_missing = show;
            self.fit_revision = bumped(self.fit_revision);
        }
    }

    /// Show or hide documents without links; the view fits again when it
    /// changed.
    pub fn set_show_orphans(&mut self, show: bool)
        requires
            old(self).wf(),
        ensures
            final(self).wf(),
            final(self).same_graph(old(self)),
            final(self).show_orphans == show,
            final(self).fit_revision == if old(self).show_orphans == show {
                old(self).fit_revision
            } else {
                bump(old(self).fit_revision)
            },
            final(self).visible == old(self).visible,
            final(self).scope == old(self).scope,
            final(self).query@ == old(self).query@,
            final(self).show_pdfs == old(self).show_pdfs,
            final(self).show_missing == old(self).show_missing,
            final(self).inspector_visible == old(self).inspector_visible,
            opt_path(final(self).active_path) == opt_path(old(self).active_path),
    {
        if self.show_orphans != show {
            self.show_orphans = show;
            self.fit_revision = bumped(self.fit_revision);
        }
    }

    /// Whether a type filter is hiding something.
    pub fn filters_active(&self) -> (r: bool)
        ensures
            r == (!self.show_pdfs || !self.show_missing || !self.show_orphans),
    {
        !self.show_pdfs || !self.show_missing || !self.show_orphans
    }

    /// Turn every type filter back on and clear the query; the view fits
    /// again.
    pub fn reset_filters(&mut self)
        requires
            old(self).wf(),
        ensures
            final(self).wf(),
            final(self).same_graph(old(self)),
            final(self).show_pdfs && final(self).show_missing && final(self).show_orphans,
            final(self).query@.len() == 0,
            final(self).fit_revision == bump(old(self).fit_revision),
            final(self).visible == old(self).visible,
            final(self).scope == old(self).scope,
            final(self).inspector_visible == old(self).inspector_visible,
            opt_path(final(self).active_path) == opt_path(old(self).active_path),
    {
        self.show_pdfs = true;
        self.show_missing = true;
        self.show_orphans = true;
        self.query = String::new();
        self.fit_revision = bumped(self.fit_revision);
    }

    // -- Nodes, selection, pins ----------------------------------------------

    /// The node with this path (the last one, should two share it).
    pub fn node(&self, path: &str) -> (r: Option<&GraphNode>)
        ensures
            match last_node_index(self.snapshot_view().nodes, path@) {
                Some(i) => r matches Some(n) && n@ == self.snapshot_view().nodes[i],
                None => r is None,
            },
    {
        proof {
            lemma_last_node_index(self.snapshot_view().nodes, path@);
        }
        match find_node(&self.store.snapshot, &chars_of(path)) {
            Some(i) => Some(&self.store.snapshot.nodes[i]),
            None => None,
        }
    }

    /// Select a node; a path the graph has no node for selects nothing.
    pub fn select(&mut self, path: Option<String>)
        requires
            old(self).wf(),
        ensures
            final(self).wf(),
            opt_path(final(self).selected_path) == opt_path(
                keep_path(path, path matches Some(p) && has_node(old(self).snapshot_view(), p@)),
            ),
            final(self).snapshot_view() == old(self).snapshot_view(),
            final(self).pins() == old(self).pins(),
            final(self).refresh() == old(self).refresh(),
            opt_path(final(self).hovered_path) == opt_path(old(self).hovered_path),
            final(self).fit_revision == old(self).fit_revision,
            final(self).settings_unchanged(old(self)),
    {
        let keep = match &path {
            Some(p) => snapshot_has_node(&self.store.snapshot, &chars_of(p.as_str())),
            None => false,
        };
        self.selected_path = if keep {
            path
        } else {
            None
        };
    }

    /// Record the node under the cursor; a path the graph has no node for is
    /// dropped.
    pub fn set_hovered(&mut self, path: Option<String>)
        requires
            old(self).wf(),
        ensures
            final(self).wf(),
            opt_path(final(self).hovered_path) == opt_path(
                keep_path(path, path matches Some(p) && has_node(old(self).snapshot_view(), p@)),
            ),
            final(self).snapshot_view() == old(self).snapshot_view(),
            final(self).pins() == old(self).pins(),
            final(self).refresh() == old(self).refresh(),
            opt_path(final(self).selected_path) == opt_path(old(self).selected_path),
            final(self).fit_revision == old(self).fit_revision,
            final(self).settings_unchanged(old(self)),
    {
        let keep = match &path {
            Some(p) => snapshot_has_node(&self.store.snapshot, &chars_of(p.as_str())),
            None => false,
        };
        self.hovered_path = if keep {
            path
        } else {
            None
        };
    }

    /// Whether `path` is pinned.
    pub fn is_pinned(&self, path: &str) -> (r: bool)
        ensures
            r == self.pins().contains(path@),
    {
        self.store.pinned.contains(path)
    }

    /// How many paths are pinned.
    pub fn pinned_count(&self) -> (r: usize)
        requires
            self.wf(),
        ensures
            r == self.pins().len(),
    {
        proof {
            self.store.pinned.lemma_size();
        }
        self.store.pinned.len()
    }

    /// The pinned paths.
    pub fn pinned_paths(&self) -> (r: &PathSet)
        requires
            self.wf(),
        ensures
            r.wf(),
            r.set() == self.pins(),
    {
        &self.store.pinned
    }

    /// Pin a node where it stands, or release it. A path the layout does not
    /// place is left alone.
    pub fn toggle_pin(&mut self, path: &str)
        requires
            old(self).wf(),
        ensures
            final(self).wf(),
            final(self).pins() == toggled_pins(old(self).pins(), old(self).snapshot_view(), path@),
            final(self).snapshot_view() == old(self).snapshot_view(),
            final(self).refresh() == old(self).refresh(),
            opt_path(final(self).selected_path) == opt_path(old(self).selected_path),
            opt_path(final(self).hovered_path) == opt_path(old(self).hovered_path),
            final(self).fit_revision == old(self).fit_revision,
            final(self).settings_unchanged(old(self)),
    {
        let p = chars_of(path);
        if !snapshot_in_layout(&self.store.snapshot, &p) {
            return;
        }
        self.store.pinned.toggle(string_of(&p));
    }

    /// Pin a node the layout places, as dragging it does; a path the layout
    /// does not place is left alone.
    pub fn pin(&mut self, path: &str)
        requires
            old(self).wf(),
        ensures
            final(self).wf(),
            final(self).pins() == if in_layout(old(self).snapshot_view(), path@) {
                old(self).pins().insert(path@)
            } else {
                old(self).pins()
            },
            final(self).snapshot_view() == old(self).snapshot_view(),
            final(self).refresh() == old(self).refresh(),
            opt_path(final(self).selected_path) == opt_path(old(self).selected_path),
            opt_path(final(self).hovered_path) == opt_path(old(self).hovered_path),
            final(self).fit_revision == old(self).fit_revision,
            final(self).settings_unchanged(old(self)),
    {
        let p = chars_of(path);
        if !snapshot_in_layout(&self.store.snapshot, &p) {
            return;
        }
        self.store.pinned.insert(string_of(&p));
    }

    /// Release every pin.
    pub fn unpin_all(&mut self)
        requires
            old(self).wf(),
        ensures
            final(self).wf(),
            final(self).pins() == Set::<Seq<char>>::empty(),
            final(self).snapshot_view() == old(self).snapshot_view(),
            final(self).refresh() == old(self).refresh(),
            opt_path(final(self).selected_path) == opt_path(old(self).selected_path),
            opt_path(final(self).hovered_path) == opt_path(old(self).hovered_path),
            final(self).fit_revision == old(self).fit_revision,
            final(self).settings_unchanged(old(self)),
    {
        self.store.pinned.clear();
    }

    // -- Search and diagnosis ---------------------------------------------------

    /// How many nodes match the query by label or path (not counting the
    /// neighbours the filtered graph keeps around them).
    pub fn query_match_count(&self) -> (r: usize)
        ensures
            r == query_match_count(self.snapshot_view(), self.query@),
    {
        let q = normalized_query_of(&self.query);
        if q.len() == 0 {
            return 0;
        }
        let ghost nodes = self.snapshot_view().nodes;
        let mut count: usize = 0;
        let mut i: usize = 0;
        while i < self.store.snapshot.nodes.len()
            invariant
                nodes == self.snapshot_view().nodes,
                i <= nodes.len(),
                count == count_hits(nodes.take(i as int), q@),
                count <= i,
            decreases nodes.len() - i,
        {
            let key = search_key_of(&self.store.snapshot.nodes[i]);
            assert(nodes.take(i + 1).drop_last() =~= nodes.take(i as int));
            if has_substring(&key, &q) {
                count = count + 1;
            }
            i = i + 1;
        }
        assert(nodes.take(i as int) =~= nodes);
        count
    }

    /// Why the canvas is empty, so the view can say what happened.
    pub fn empty_reason(&self) -> (r: EmptyReason)
        ensures
            r == if self.snapshot_view().nodes.len() == 0 {
                if self.refresh().in_flight is Some || self.refresh().dirty {
                    EmptyReason::Loading
                } else {
                    EmptyReason::NoDocuments
                }
            } else if self.scope is Local && !(self.active_path matches Some(a) && has_node(
                self.snapshot_view(),
                a@,
            )) {
                EmptyReason::NeedsActiveDocument
            } else if trimmed(self.query@).len() != 0 && query_match_count(
                self.snapshot_view(),
                self.query@,
            ) == 0 {
                EmptyReason::NoSearchMatch
            } else {
                EmptyReason::FiltersHideEverything
            },
    {
        if self.store.snapshot.nodes.len() == 0 {
            return if self.is_loading() || self.store.dirty {
                EmptyReason::Loading
            } else {
                EmptyReason::NoDocuments
            };
        }
        let local = match self.scope {
            GraphScope::Local { .. } => true,
            GraphScope::Global => false,
        };
        if local {
            let centered = match &self.active_path {
                Some(a) => self.node(a.as_str()).is_some(),
                None => false,
            };
            proof {
                if let Some(a) = &self.active_path {
                    lemma_last_node_index(self.snapshot_view().nodes, a@);
                }
            }
            if !centered {
                return EmptyReason::NeedsActiveDocument;
            }
        }
        if trim_chars(&chars_of(self.query.as_str())).len() != 0 && self.query_match_count() == 0 {
            return EmptyReason::NoSearchMatch;
        }
        EmptyReason::FiltersHideEverything
    }

    // -- The filtered graph -----------------------------------------------------

    fn allowed_mask(&self) -> (mask: Vec<bool>)
        ensures
            mask@.len() == self.snapshot_view().nodes.len(),
            forall|i: int|
                0 <= i < mask@.len() ==> #[trigger] mask@[i] == base_allowed(
                    self.snapshot_view(),
                    self.filters(),
                    i,
                ),
    {
        let ghost s = self.snapshot_view();
        let ghost f = self.filters();
        let snapshot = &self.store.snapshot;
        let (global, depth) = match self.scope {
            GraphScope::Global => (true, 0u8),
            GraphScope::Local { depth } => (false, depth),
        };
        let center: Option<Vec<char>> = match &self.active_path {
            Some(a) => {
                let ac = chars_of(a.as_str());
                proof {
                    lemma_last_node_index(s.nodes, ac@);
                }
                if find_node(snapshot, &ac).is_some() {
                    Some(ac)
                } else {
                    None
                }
            },
            None => None,
        };
        assert(center matches Some(c) ==> f.active == Some(c@) && has_node(s, c@));
        assert(center is None ==> !(f.active matches Some(a) && has_node(s, a)));
        let mut mask: Vec<bool> = Vec::new();
        let mut i: usize = 0;
        while i < snapshot.nodes.len()
            invariant
                s == snapshot@,
                f == self.filters(),
                global <==> f.scope is Global,
                f.scope matches GraphScope::Local { depth: d } ==> d == depth,
                center matches Some(c) ==> f.active == Some(c@) && has_node(s, c@),
                center is None ==> !(f.active matches Some(a) && has_node(s, a)),
                i <= s.nodes.len(),
                mask@.len() == i,
                forall|j: int| 0 <= j < i ==> #[trigger] mask@[j] == base_allowed(s, f, j),
            decreases s.nodes.len() - i,
        {
            let n = &snapshot.nodes[i];
            let pc = chars_of(n.path.as_str());
            let in_scope = if global {
                true
            } else {
                match &center {
                    None => false,
                    Some(a) => {
                        proof {
                            lemma_last_node_index(s.nodes, pc@);
                        }
                        let is_last = match find_node(snapshot, &pc) {
                            Some(j) => j == i,
                            None => false,
                        };
                        is_last && (chars_equal(&pc, a) || is_linked(snapshot, a, &pc) || (depth
                            >= 2 && two_links_apart(snapshot, a, &pc)))
                    },
                }
            };
            let passes = (self.show_pdfs || n.kind != GraphNodeKind::Pdf) && (self.show_missing
                || n.kind != GraphNodeKind::Missing) && (self.show_orphans || n.incoming > 0
                || n.outgoing > 0);
            assert(s.nodes[i as int] == n@);
            mask.push(in_scope && passes);
            i = i + 1;
        }
        mask
    }

    /// The graph as the scope, the type filters and the query reduce it. With
    /// a query, the nodes next to a match stay in view as its context.
    pub fn compute_filtered(&self) -> (r: GraphSnapshot)
        ensures
            r@ == filtered_view(self.snapshot_view(), self.filters()),
    {
        let ghost s = self.snapshot_view();
        let ghost f = self.filters();
        let snapshot = &self.store.snapshot;
        let n = snapshot.nodes.len();
        let mask = self.allowed_mask();
        let pairs = edge_endpoints(snapshot);
        let q = normalized_query_of(&self.query);
        let shown: Vec<bool> = if q.len() == 0 {
            mask
        } else {
            let mut matched: Vec<bool> = Vec::new();
            let mut i: usize = 0;
            while i < n
                invariant
                    s == snapshot@,
                    n == s.nodes.len(),
                    q@ == normalized_query(f.query),
                    mask@.len() == n,
                    forall|j: int| 0 <= j < n ==> #[trigger] mask@[j] == base_allowed(s, f, j),
                    i <= n,
                    matched@.len() == i,
                    forall|j: int| 0 <= j < i ==> #[trigger] matched@[j] == query_hit(s, f, j),
                decreases n - i,
            {
                let key = search_key_of(&snapshot.nodes[i]);
                let hit = mask[i] && has_substring(&key, &q);
                matched.push(hit);
                i = i + 1;
            }
            let mut contextual: Vec<bool> = Vec::new();
            let mut i: usize = 0;
            while i < n
                invariant
                    n == matched@.len(),
                    i <= n,
                    contextual@ == matched@.take(i as int),
                decreases n - i,
            {
                contextual.push(matched[i]);
                assert(matched@.take(i + 1) =~= matched@.take(i as int).push(matched@[i as int]));
                i = i + 1;
            }
            assert(matched@.take(n as int) =~= matched@);
            let mut k: usize = 0;
            while k < pairs.len()
                invariant
                    s == snapshot@,
                    n == s.nodes.len(),
                    pairs@.len() == s.edges.len(),
                    forall|j: int|
                        0 <= j < pairs@.len() ==> (opt_int(#[trigger] pairs@[j].0), opt_int(
                            pairs@[j].1,
                        )) == edge_ends(s, j),
                    forall|j: int|
                        0 <= j < pairs@.len() ==> (#[trigger] pairs@[j].0 matches Some(a) ==> a
                            < n) && (pairs@[j].1 matches Some(b) ==> b < n),
                    mask@.len() == n,
                    forall|j: int| 0 <= j < n ==> #[trigger] mask@[j] == base_allowed(s, f, j),
                    matched@.len() == n,
                    forall|j: int| 0 <= j < n ==> #[trigger] matched@[j] == query_hit(s, f, j),
                    k <= pairs@.len(),
                    contextual@.len() == n,
                    forall|i: int|
                        0 <= i < n ==> #[trigger] contextual@[i] == (query_hit(s, f, i) || exists|
                            j: int,
                        | 0 <= j < k && #[trigger] lends_context(s, f, j, i)),
                decreases pairs@.len() - k,
            {
                let ghost before = contextual@;
                match pairs[k] {
                    (Some(a), Some(b)) => {
                        if matched[a] && mask[b] {
                            contextual.set(b, true);
                        }
                        if matched[b] && mask[a] {
                            contextual.set(a, true);
                        }
                    },
                    _ => {},
                }
                proof {
                    assert forall|i: int| 0 <= i < n implies #[trigger] contextual@[i] == (query_hit(
                        s,
                        f,
                        i,
                    ) || exists|j: int| 0 <= j < k + 1 && #[trigger] lends_context(s, f, j, i)) by {
                        if lends_context(s, f, k as int, i) {
                        } else {
                            if exists|j: int| 0 <= j < k + 1 && #[trigger] lends_context(s, f, j, i) {
                                let j = choose|j: int|
                                    0 <= j < k + 1 && #[trigger] lends_context(s, f, j, i);
                                assert(j < k);
                            }
                        }
                    }
                }
                k = k + 1;
            }
            contextual
        };
        assert(shown@ =~= Seq::new(s.nodes.len(), |i: int| node_shown(s, f, i)));
        let ghost keep_nodes = shown@;
        let mut nodes: Vec<GraphNode> = Vec::new();
        let mut i: usize = 0;
        while i < n
            invariant
                s == snapshot@,
                n == s.nodes.len(),
                shown@ == keep_nodes,
                keep_nodes.len() == n,
                i <= n,
                nodes@.map_values(|g: GraphNode| g@) == pick(s.nodes.take(i as int), keep_nodes),
            decreases n - i,
        {
            let ghost before = nodes@;
            assert(s.nodes.take(i + 1).drop_last() =~= s.nodes.take(i as int));
            if shown[i] {
                let c = clone_node(&snapshot.nodes[i]);
                nodes.push(c);
                assert(nodes@.map_values(|g: GraphNode| g@) =~= before.map_values(
                    |g: GraphNode| g@,
                ).push(s.nodes[i as int]));
            }
            i = i + 1;
        }
        assert(s.nodes.take(n as int) =~= s.nodes);
        let ghost keep_edges = Seq::new(s.edges.len(), |k: int| edge_shown(s, f, k));
        let mut edges: Vec<GraphEdge> = Vec::new();
        let mut k: usize = 0;
        while k < pairs.len()
            invariant
                s == snapshot@,
                n == s.nodes.len(),
                pairs@.len() == s.edges.len(),
                forall|j: int|
                    0 <= j < pairs@.len() ==> (opt_int(#[trigger] pairs@[j].0), opt_int(
                        pairs@[j].1,
                    )) == edge_ends(s, j),
                forall|j: int|
                    0 <= j < pairs@.len() ==> (#[trigger] pairs@[j].0 matches Some(a) ==> a < n)
                        && (pairs@[j].1 matches Some(b) ==> b < n),
                shown@ == keep_nodes,
                keep_nodes == Seq::new(s.nodes.len(), |i: int| node_shown(s, f, i)),
                keep_edges == Seq::new(s.edges.len(), |k: int| edge_shown(s, f, k)),
                k <= pairs@.len(),
                edges@.map_values(|g: GraphEdge| g@) == pick(s.edges.take(k as int), keep_edges),
            decreases pairs@.len() - k,
        {
            let ghost before = edges@;
            assert(s.edges.take(k + 1).drop_last() =~= s.edges.take(k as int));
            let keep = match pairs[k] {
                (Some(a), Some(b)) => shown[a] && shown[b],
                _ => false,
            };
            assert(keep == keep_edges[k as int]);
            if keep {
                let c = clone_edge(&snapshot.edges[k]);
                edges.push(c);
                assert(edges@.map_values(|g: GraphEdge| g@) =~= before.map_values(
                    |g: GraphEdge| g@,
                ).push(s.edges[k as int]));
            }
            k = k + 1;
        }
        assert(s.edges.take(pairs@.len() as int) =~= s.edges);
        GraphSnapshot { nodes, edges }
    }

    /// The reduced graph the renderers draw, with their lookups.
    pub fn filtered(&self) -> (g: FilteredGraph)
        ensures
            g.snapshot@ == filtered_view(self.snapshot_view(), self.filters()),
            g.indexes(),
    {
        FilteredGraph::build(self.compute_filtered())
    }

    // -- Insights ---------------------------------------------------------------

    /// The nodes that link to `path`, in snapshot order.
    pub fn incoming(&self, path: &str) -> (r: Vec<GraphNode>)
        ensures
            r@.map_values(|g: GraphNode| g@) == pick(
                self.snapshot_view().nodes,
                Seq::new(
                    self.snapshot_view().nodes.len(),
                    |i: int| has_edge(self.snapshot_view(), self.snapshot_view().nodes[i].path, path@),
                ),
            ),
    {
        let ghost s = self.snapshot_view();
        let ghost keep = Seq::new(s.nodes.len(), |i: int| has_edge(s, s.nodes[i].path, path@));
        let target = chars_of(path);
        let snapshot = &self.store.snapshot;
        let mut out: Vec<GraphNode> = Vec::new();
        let mut i: usize = 0;
        while i < snapshot.nodes.len()
            invariant
                s == snapshot@,
                target@ == path@,
                keep == Seq::new(s.nodes.len(), |i: int| has_edge(s, s.nodes[i].path, path@)),
                i <= s.nodes.len(),
                out@.map_values(|g: GraphNode| g@) == pick(s.nodes.take(i as int), keep),
            decreases s.nodes.len() - i,
        {
            let ghost before = out@;
            assert(s.nodes.take(i + 1).drop_last() =~= s.nodes.take(i as int));
            let n = &snapshot.nodes[i];
            if has_edge_between(snapshot, &chars_of(n.path.as_str()), &target) {
                out.push(clone_node(n));
                assert(out@.map_values(|g: GraphNode| g@) =~= before.map_values(|g: GraphNode| g@).push(
                    s.nodes[i as int],
                ));
            }
            i = i + 1;
        }
        assert(s.nodes.take(i as int) =~= s.nodes);
        out
    }

    /// The nodes `path` links to, in snapshot order.
    pub fn outgoing(&self, path: &str) -> (r: Vec<GraphNode>)
        ensures
            r@.map_values(|g: GraphNode| g@) == pick(
                self.snapshot_view().nodes,
                Seq::new(
                    self.snapshot_view().nodes.len(),
                    |i: int| has_edge(self.snapshot_view(), path@, self.snapshot_view().nodes[i].path),
                ),
            ),
    {
        let ghost s = self.snapshot_view();
        let ghost keep = Seq::new(s.nodes.len(), |i: int| has_edge(s, path@, s.nodes[i].path));
        let source = chars_of(path);
        let snapshot = &self.store.snapshot;
        let mut out: Vec<GraphNode> = Vec::new();
        let mut i: usize = 0;
        while i < snapshot.nodes.len()
            invariant
                s == snapshot@,
                source@ == path@,
                keep == Seq::new(s.nodes.len(), |i: int| has_edge(s, path@, s.nodes[i].path)),
                i <= s.nodes.len(),
                out@.map_values(|g: GraphNode| g@) == pick(s.nodes.take(i as int), keep),
            decreases s.nodes.len() - i,
        {
            let ghost before = out@;
            assert(s.nodes.take(i + 1).drop_last() =~= s.nodes.take(i as int));
            let n = &snapshot.nodes[i];
            if has_edge_between(snapshot, &source, &chars_of(n.path.as_str())) {
                out.push(clone_node(n));
                assert(out@.map_values(|g: GraphNode| g@) =~= before.map_values(|g: GraphNode| g@).push(
                    s.nodes[i as int],
                ));
            }
            i = i + 1;
        }
        assert(s.nodes.take(i as int) =~= s.nodes);
        out
    }

    /// Up to `limit` notes with no links at all, in snapshot order.
    pub fn unconnected(&self, limit: usize) -> (r: Vec<GraphNode>)
        ensures
            r@.map_values(|g: GraphNode| g@) == first_n(
                pick(
                    self.snapshot_view().nodes,
                    Seq::new(
                        self.snapshot_view().nodes.len(),
                        |i: int| is_unconnected(self.snapshot_view().nodes[i]),
                    ),
                ),
                limit,
            ),
    {
        let ghost s = self.snapshot_view();
        let ghost keep = Seq::new(s.nodes.len(), |i: int| is_unconnected(s.nodes[i]));
        let snapshot = &self.store.snapshot;
        let mut out: Vec<GraphNode> = Vec::new();
        let mut i: usize = 0;
        while i < snapshot.nodes.len() && out.len() < limit
            invariant
                s == snapshot@,
                keep == Seq::new(s.nodes.len(), |i: int| is_unconnected(s.nodes[i])),
                i <= s.nodes.len(),
                out@.len() <= limit,
                out@.map_values(|g: GraphNode| g@) == pick(s.nodes.take(i as int), keep),
            decreases s.nodes.len() - i,
        {
            let ghost before = out@;
            assert(s.nodes.take(i + 1).drop_last() =~= s.nodes.take(i as int));
            let n = &snapshot.nodes[i];
            if n.kind == GraphNodeKind::Markdown && n.incoming == 0 && n.outgoing == 0 {
                out.push(clone_node(n));
                assert(out@.map_values(|g: GraphNode| g@) =~= before.map_values(|g: GraphNode| g@).push(
                    s.nodes[i as int],
                ));
            }
            i = i + 1;
        }
        proof {
            lemma_pick_prefix(s.nodes, keep, i as int, limit);
        }
        out
    }

    /// Up to `limit` link targets that do not exist, in snapshot order.
    pub fn missing(&self, limit: usize) -> (r: Vec<GraphNode>)
        ensures
            r@.map_values(|g: GraphNode| g@) == first_n(
                pick(
                    self.snapshot_view().nodes,
                    Seq::new(
                        self.snapshot_view().nodes.len(),
                        |i: int| self.snapshot_view().nodes[i].kind == GraphNodeKind::Missing,
                    ),
                ),
                limit,
            ),
    {
        let ghost s = self.snapshot_view();
        let ghost keep = Seq::new(s.nodes.len(), |i: int| s.nodes[i].kind == GraphNodeKind::Missing);
        let snapshot = &self.store.snapshot;
        let mut out: Vec<GraphNode> = Vec::new();
        let mut i: usize = 0;
        while i < snapshot.nodes.len() && out.len() < limit
            invariant
                s == snapshot@,
                keep == Seq::new(s.nodes.len(), |i: int| s.nodes[i].kind == GraphNodeKind::Missing),
                i <= s.nodes.len(),
                out@.len() <= limit,
                out@.map_values(|g: GraphNode| g@) == pick(s.nodes.take(i as int), keep),
            decreases s.nodes.len() - i,
        {
            let ghost before = out@;
            assert(s.nodes.take(i + 1).drop_last() =~= s.nodes.take(i as int));
            let n = &snapshot.nodes[i];
            if n.kind == GraphNodeKind::Missing {
                out.push(clone_node(n));
                assert(out@.map_values(|g: GraphNode| g@) =~= before.map_values(|g: GraphNode| g@).push(
                    s.nodes[i as int],
                ));
            }
            i = i + 1;
        }
        proof {
            lemma_pick_prefix(s.nodes, keep, i as int, limit);
        }
        out
    }

    /// The current snapshot.
    pub fn snapshot(&self) -> (r: &GraphSnapshot)
        ensures
            r@ == self.snapshot_view(),
    {
        &self.store.snapshot
    }

    /// Counts over the whole vault graph.
    pub fn stats(&self) -> (r: GraphStats)
        requires
            total_weight(self.snapshot_view().edges) <= usize::MAX,
        ensures
            stats_match(r, self.snapshot_view()),
    {
        compute_stats(&self.store.snapshot)
    }

    /// Up to `limit` of the documents with the most links, best first (see
    /// [`crate::graph_rank::ranks_above`]); link targets that do not exist
    /// are left out.
    pub fn hubs(&self, limit: usize) -> (r: Vec<GraphNode>)
        ensures
            exists|order: Seq<int>|
                hub_ranking(self.snapshot_view(), order) && r@.map_values(|g: GraphNode| g@)
                    == first_n(order.map_values(|i: int| self.snapshot_view().nodes[i]), limit),
    {
        let ghost s = self.snapshot_view();
        let order = hub_order(&self.store.snapshot);
        let ghost o = order@.map_values(|x: usize| x as int);
        let ghost ranked = o.map_values(|i: int| s.nodes[i]);
        let count = if limit < order.len() {
            limit
        } else {
            order.len()
        };
        let mut out: Vec<GraphNode> = Vec::new();
        let mut x: usize = 0;
        while x < count
            invariant
                s == self.snapshot_view(),
                hub_ranking(s, o),
                o == order@.map_values(|x: usize| x as int),
                ranked == o.map_values(|i: int| s.nodes[i]),
                count <= order@.len(),
                x <= count,
                out@.map_values(|g: GraphNode| g@) == ranked.take(x as int),
            decreases count - x,
        {
            let ghost before = out@;
            let i = order[x];
            assert(o[x as int] == i as int);
            assert(ranked[x as int] == s.nodes[i as int]);
            assert(s.nodes[i as int] == self.store.snapshot.nodes@[i as int]@);
            out.push(clone_node(&self.store.snapshot.nodes[i]));
            assert(out@.map_values(|g: GraphNode| g@) =~= before.map_values(|g: GraphNode| g@).push(
                ranked[x as int],
            ));
            assert(out@.map_values(|g: GraphNode| g@) =~= ranked.take(x + 1));
            x = x + 1;
        }
        assert(first_n(ranked, limit) =~= ranked.take(count as int));
        out
    }

    /// The notes related to `path` (see [`related_candidate`]), in snapshot
    /// order, with what they share; none when `path` is not in the graph.
    pub fn related_candidates(&self, path: &str) -> (r: Vec<RelatedCandidate>)
        ensures
            r@.map_values(|c: RelatedCandidate| c.node@) == pick(
                self.snapshot_view().nodes,
                Seq::new(
                    self.snapshot_view().nodes.len(),
                    |i: int| related_candidate(self.snapshot_view(), path@, i),
                ),
            ),
            forall|k: int|
                0 <= k < r@.len() ==> lists_shared(
                    self.snapshot_view(),
                    path@,
                    (#[trigger] r@[k]).node@,
                    r@[k].shared@,
                ),
    {
        let ghost s = self.snapshot_view();
        let ghost keep = Seq::new(s.nodes.len(), |i: int| related_candidate(s, path@, i));
        let snapshot = &self.store.snapshot;
        let origin = chars_of(path);
        let mut out: Vec<RelatedCandidate> = Vec::new();
        if !snapshot_in_layout(snapshot, &origin) {
            proof {
                assert forall|i: int| 0 <= i < s.nodes.len() implies !keep[i] by {}
                lemma_pick_none(s.nodes, keep);
            }
            return out;
        }
        let origin_set = neighbor_set(snapshot, &origin);
        let origin_list = origin_set.to_vec();
        let mut i: usize = 0;
        while i < snapshot.nodes.len()
            invariant
                s == snapshot@,
                origin@ == path@,
                in_layout(s, path@),
                origin_set.wf(),
                origin_set.set() == neighbors(s, path@),
                path_set(origin_list@) == neighbors(s, path@),
                distinct_paths(origin_list@),
                keep == Seq::new(s.nodes.len(), |i: int| related_candidate(s, path@, i)),
                i <= s.nodes.len(),
                out@.map_values(|c: RelatedCandidate| c.node@) == pick(s.nodes.take(i as int), keep),
                forall|k: int|
                    0 <= k < out@.len() ==> lists_shared(s, path@, (#[trigger] out@[k]).node@, out@[k].shared@),
            decreases s.nodes.len() - i,
        {
            let ghost before = out@;
            assert(s.nodes.take(i + 1).drop_last() =~= s.nodes.take(i as int));
            let n = &snapshot.nodes[i];
            assert(s.nodes[i as int] == n@);
            let np = chars_of(n.path.as_str());
            if !chars_equal(&np, &origin) && n.kind == GraphNodeKind::Markdown && !origin_set.contains(
                n.path.as_str(),
            ) {
                let candidate_set = neighbor_set(snapshot, &np);
                // The shared neighbours, in the origin's order, then sorted.
                let mut shared_paths: Vec<String> = Vec::new();
                let mut k: usize = 0;
                while k < origin_list.len()
                    invariant
                        distinct_paths(origin_list@),
                        k <= origin_list@.len(),
                        candidate_set.set() == neighbors(s, n@.path),
                        distinct_paths(shared_paths@),
                        path_set(shared_paths@) == path_set(origin_list@.take(k as int)).intersect(
                            neighbors(s, n@.path),
                        ),
                    decreases origin_list@.len() - k,
                {
                    let ghost before_shared = shared_paths@;
                    let q = &origin_list[k];
                    assert(origin_list@.take(k + 1) =~= origin_list@.take(k as int).push(origin_list@[k as int]));
                    if candidate_set.contains(q.as_str()) {
                        proof {
                            assert(!path_set(before_shared).contains(q@)) by {
                                if path_set(before_shared).contains(q@) {
                                    assert(path_set(origin_list@.take(k as int)).contains(q@));
                                    let j = choose|j: int| 0 <= j < origin_list@.take(k as int).len() && (#[trigger] origin_list@.take(k as int)[j])@ == q@;
                                    assert(origin_list@[j]@ == origin_list@[k as int]@);
                                }
                            }
                        }
                        shared_paths.push(q.clone());
                        proof {
                            assert forall|a: int, b: int| 0 <= a < b < shared_paths@.len() implies (
                            #[trigger] shared_paths@[a])@ != (#[trigger] shared_paths@[b])@ by {
                                if b == before_shared.len() {
                                    assert(path_set(before_shared).contains(before_shared[a]@));
                                } else {
                                    assert(shared_paths@[a] == before_shared[a]);
                                    assert(shared_paths@[b] == before_shared[b]);
                                }
                            }
                            assert(path_set(shared_paths@) =~= path_set(origin_list@.take(k + 1)).intersect(
                                neighbors(s, n@.path),
                            )) by {
                                lemma_path_set_push(before_shared, shared_paths@[before_shared.len() as int]);
                                lemma_path_set_push(origin_list@.take(k as int), origin_list@[k as int]);
                                assert(shared_paths@ == before_shared.push(shared_paths@[before_shared.len() as int]));
                            }
                        }
                    } else {
                        proof {
                            lemma_path_set_push(origin_list@.take(k as int), origin_list@[k as int]);
                            assert(path_set(shared_paths@) =~= path_set(origin_list@.take(k + 1)).intersect(
                                neighbors(s, n@.path),
                            ));
                        }
                    }
                    k = k + 1;
                }
                assert(origin_list@.take(k as int) =~= origin_list@);
                if shared_paths.len() > 0 {
                    let sorted = sort_paths(shared_paths);
                    let mut shared: Vec<(String, usize)> = Vec::new();
                    let mut t: usize = 0;
                    while t < sorted.len()
                        invariant
                            s == snapshot@,
                            t <= sorted@.len(),
                            shared@.len() == t,
                            forall|j: int| 0 <= j < t ==> (#[trigger] shared@[j]).0 == sorted@[j],
                            forall|j: int|
                                0 <= j < t ==> neighbors(s, (#[trigger] shared@[j]).0@).finite()
                                    && shared@[j].1 == neighbors(s, shared@[j].0@).len(),
                        decreases sorted@.len() - t,
                    {
                        let nb = neighbor_set(snapshot, &chars_of(sorted[t].as_str()));
                        proof {
                            nb.lemma_size();
                        }
                        let entry = (sorted[t].clone(), nb.len());
                        proof {
                            assert(entry.0@ == sorted@[t as int]@);
                        }
                        shared.push(entry);
                        t = t + 1;
                    }
                    proof {
                        let paths = shared@.map_values(|e: (String, usize)| e.0);
                        assert forall|j: int| 0 <= j < paths.len() implies (#[trigger] paths[j])@ == sorted@[j]@ by {}
                        assert(paths_sorted(paths)) by {
                            assert forall|a: int, b: int| 0 <= a < b < paths.len() implies crate::graph_rank::path_less(
                                (#[trigger] paths[a])@,
                                (#[trigger] paths[b])@,
                            ) by {
                                assert(paths[a]@ == sorted@[a]@ && paths[b]@ == sorted@[b]@);
                            }
                        }
                        assert(path_set(paths) =~= path_set(sorted@)) by {
                            assert forall|q: Seq<char>| path_set(paths).contains(q) implies path_set(sorted@).contains(q) by {
                                let j = choose|j: int| 0 <= j < paths.len() && (#[trigger] paths[j])@ == q;
                                assert(sorted@[j]@ == q);
                            }
                            assert forall|q: Seq<char>| path_set(sorted@).contains(q) implies path_set(paths).contains(q) by {
                                let j = choose|j: int| 0 <= j < sorted@.len() && (#[trigger] sorted@[j])@ == q;
                                assert(paths[j]@ == q);
                            }
                        }
                        assert(neighbors(s, path@).intersect(neighbors(s, n@.path)).contains(sorted@[0]@)) by {
                            assert(path_set(sorted@).contains(sorted@[0]@));
                        }
                        assert(keep[i as int]);
                    }
                    out.push(RelatedCandidate { node: clone_node(n), shared });
                    proof {
                        assert(out@.map_values(|c: RelatedCandidate| c.node@) =~= before.map_values(
                            |c: RelatedCandidate| c.node@,
                        ).push(s.nodes[i as int]));
                        assert forall|k: int| 0 <= k < out@.len() implies lists_shared(
                            s,
                            path@,
                            (#[trigger] out@[k]).node@,
                            out@[k].shared@,
                        ) by {
                            if k < before.len() {
                                assert(out@[k] == before[k]);
                            }
                        }
                    }
                } else {
                    proof {
                        assert(path_set(shared_paths@) =~= Set::<Seq<char>>::empty());
                        assert(neighbors(s, path@).intersect(neighbors(s, n@.path)) =~= Set::<Seq<char>>::empty());
                        assert(!keep[i as int]);
                    }
                }
            } else {
                proof {
                    assert(!keep[i as int]);
                }
            }
            i = i + 1;
        }
        assert(s.nodes.take(i as int) =~= s.nodes);
        out
    }
}

/// Installing the same snapshot a second time changes nothing the user
/// sees: the graph, the pins, the selection and hover, the filters and the
/// fit revision stay as the first install left them, and the graph is fresh
/// with no rebuild running.
pub proof fn lemma_same_snapshot_twice(
    before: GraphState,
    mid: GraphState,
    after: GraphState,
    snapshot: SnapshotView,
)
    requires
        mid.installed(&before, snapshot),
        after.installed(&mid, snapshot),
    ensures
        after.snapshot_view() == mid.snapshot_view(),
        after.snapshot_view() == snapshot,
        after.pins() == mid.pins(),
        opt_path(after.selected_path) == opt_path(mid.selected_path),
        opt_path(after.hovered_path) == opt_path(mid.hovered_path),
        after.fit_revision == mid.fit_revision,
        after.settings_unchanged(&mid),
        !after.refresh().dirty,
        after.refresh().in_flight is None,
{
}

} // verus!
