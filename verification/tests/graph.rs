use md_editor::fnv::hash_path;
use md_editor::graph_stats::components_from;
use md_editor::graph::{
    EmptyReason, GraphEdge, GraphNode, GraphNodeKind, GraphScope, GraphSnapshot, GraphState,
};

fn node(path: &str) -> GraphNode {
    GraphNode {
        path: path.to_string(),
        label: path.trim_end_matches(".md").to_string(),
        kind: GraphNodeKind::Markdown,
        exists: true,
        incoming: 0,
        outgoing: 0,
    }
}

fn edge(source: &str, target: &str) -> GraphEdge {
    GraphEdge {
        source: source.to_string(),
        target: target.to_string(),
        weight: 1,
    }
}

fn sample() -> GraphSnapshot {
    GraphSnapshot {
        nodes: ["a.md", "b.md", "c.md", "d.md", "orphan.md"]
            .into_iter()
            .map(node)
            .collect(),
        edges: vec![
            edge("a.md", "b.md"),
            edge("b.md", "c.md"),
            edge("c.md", "d.md"),
        ],
    }
}

fn paths(nodes: &[GraphNode]) -> Vec<String> {
    nodes.iter().map(|node| node.path.clone()).collect()
}

#[test]
fn local_scope_is_bounded_by_depth() {
    let mut state = GraphState::new();
    state.set_snapshot(sample());
    state.set_active_path(Some("a.md".to_string()));
    state.set_scope(GraphScope::Local { depth: 1 });
    assert_eq!(state.filtered().snapshot.nodes.len(), 2);
    state.set_scope(GraphScope::Local { depth: 2 });
    assert_eq!(state.filtered().snapshot.nodes.len(), 3);
}

#[test]
fn local_scope_without_an_active_document_is_empty() {
    let mut state = GraphState::new();
    state.set_snapshot(sample());
    state.set_scope(GraphScope::Local { depth: 2 });
    assert!(state.filtered().snapshot.nodes.is_empty());
}

#[test]
fn query_keeps_matching_node_and_immediate_context() {
    let mut state = GraphState::new();
    state.set_snapshot(sample());
    state.set_query("c".to_string());
    let paths: Vec<_> = state
        .filtered()
        .snapshot
        .nodes
        .iter()
        .map(|node| node.path.clone())
        .collect();
    assert_eq!(paths, vec!["b.md", "c.md", "d.md"]);
}

#[test]
fn identical_snapshot_keeps_view_and_reset_releases_pins() {
    let mut state = GraphState::new();
    let snapshot = sample();
    state.set_snapshot(snapshot.clone());
    let fit_revision = state.fit_revision;
    state.set_snapshot(snapshot);
    assert_eq!(state.fit_revision, fit_revision);
}

#[test]
fn vault_change_clears_snapshot_pins_and_in_flight_refresh() {
    let mut state = GraphState::new();
    state.set_snapshot(sample());
    state.select(Some("a.md".to_string()));
    state.toggle_pin("a.md");
    state.mark_dirty();
    let old_generation = state.begin_refresh().unwrap();

    state.clear_for_vault_change();

    assert!(state.node("a.md").is_none());
    assert!(state.selected_path.is_none());
    assert_eq!(state.pinned_count(), 0);
    assert!(state.refresh_due());
    assert!(!state.complete_refresh(old_generation, sample()));
}

#[test]
fn refresh_discards_snapshot_when_graph_changed_in_flight() {
    let mut state = GraphState::new();
    let first_generation = state.begin_refresh().unwrap();
    assert!(!state.refresh_due());

    state.mark_dirty();
    assert!(!state.complete_refresh(first_generation, sample()));
    assert!(state.is_dirty());
    assert!(state.refresh_due());
    assert!(state.node("a.md").is_none());

    let current_generation = state.begin_refresh().unwrap();
    assert!(state.complete_refresh(current_generation, sample()));
    assert!(!state.is_dirty());
    assert!(!state.refresh_due());
    assert!(state.node("a.md").is_some());
}

#[test]
fn failed_generation_waits_for_retry_or_new_invalidation() {
    let mut state = GraphState::new();
    let generation = state.begin_refresh().unwrap();

    assert!(state.fail_refresh(generation));
    assert!(state.is_dirty());
    assert!(!state.refresh_due());

    state.retry_refresh();
    assert!(state.refresh_due());
    let retry_generation = state.begin_refresh().unwrap();
    assert_eq!(retry_generation, generation);
    assert!(state.fail_refresh(retry_generation));

    state.mark_dirty();
    assert!(state.refresh_due());
    assert_ne!(state.begin_refresh(), Some(generation));
}

#[test]
fn pins_toggle_and_release_without_touching_positions() {
    let mut state = GraphState::new();
    state.set_snapshot(sample());

    state.toggle_pin("a.md");
    assert!(state.is_pinned("a.md"));
    assert_eq!(state.pinned_count(), 1);

    state.toggle_pin("a.md");
    assert!(!state.is_pinned("a.md"));

    state.toggle_pin("b.md");
    state.toggle_pin("c.md");
    state.unpin_all();
    assert_eq!(state.pinned_count(), 0);

    // A path that is not in the layout can never become pinned.
    state.toggle_pin("nowhere.md");
    assert_eq!(state.pinned_count(), 0);
}

#[test]
fn empty_reasons_distinguish_the_ways_a_graph_goes_blank() {
    let mut state = GraphState::new();
    // Nothing loaded yet, and still dirty from construction.
    assert_eq!(state.empty_reason(), EmptyReason::Loading);

    state.set_snapshot(GraphSnapshot::empty());
    assert_eq!(state.empty_reason(), EmptyReason::NoDocuments);

    state.set_snapshot(sample());
    state.set_scope(GraphScope::Local { depth: 1 });
    assert_eq!(state.empty_reason(), EmptyReason::NeedsActiveDocument);

    state.set_scope(GraphScope::Global);
    state.set_query("zzzz-no-such-note".to_string());
    assert_eq!(state.empty_reason(), EmptyReason::NoSearchMatch);

    state.set_query(String::new());
    assert_eq!(state.empty_reason(), EmptyReason::FiltersHideEverything);
}

#[test]
fn resetting_filters_clears_the_query_too() {
    let mut state = GraphState::new();
    state.set_snapshot(sample());
    state.set_show_pdfs(false);
    state.set_query("a".to_string());
    assert!(state.filters_active());

    state.reset_filters();

    assert!(!state.filters_active());
    assert!(state.query.is_empty());
    assert_eq!(state.query_match_count(), 0);
}

#[test]
fn stale_failure_does_not_throttle_the_new_generation() {
    let mut state = GraphState::new();
    let stale_generation = state.begin_refresh().unwrap();
    state.mark_dirty();

    assert!(!state.fail_refresh(stale_generation));
    assert!(state.refresh_due());
    assert_ne!(state.begin_refresh(), Some(stale_generation));
}

// -- Further cases -------------------------------------------------------------

#[test]
fn toggling_a_pin_twice_restores_the_pins() {
    let mut state = GraphState::new();
    state.set_snapshot(sample());
    state.toggle_pin("b.md");
    state.toggle_pin("c.md");
    state.toggle_pin("c.md");
    assert!(state.is_pinned("b.md"));
    assert!(!state.is_pinned("c.md"));
    assert_eq!(state.pinned_count(), 1);
}

#[test]
fn a_new_snapshot_drops_pins_selection_and_hover_it_no_longer_has() {
    let mut state = GraphState::new();
    state.set_snapshot(sample());
    state.toggle_pin("a.md");
    state.toggle_pin("orphan.md");
    state.select(Some("orphan.md".to_string()));
    state.set_hovered(Some("a.md".to_string()));
    let fit = state.fit_revision;

    let smaller = GraphSnapshot {
        nodes: vec![node("a.md"), node("b.md")],
        edges: vec![edge("a.md", "b.md")],
    };
    state.set_snapshot(smaller);

    assert!(state.is_pinned("a.md"));
    assert!(!state.is_pinned("orphan.md"));
    assert!(state.selected_path.is_none());
    assert_eq!(state.hovered_path.as_deref(), Some("a.md"));
    assert_eq!(state.fit_revision, fit + 1);
}

#[test]
fn selecting_an_unknown_path_selects_nothing() {
    let mut state = GraphState::new();
    state.set_snapshot(sample());
    state.select(Some("b.md".to_string()));
    assert_eq!(state.selected_path.as_deref(), Some("b.md"));
    state.select(Some("elsewhere.md".to_string()));
    assert!(state.selected_path.is_none());
    state.set_hovered(Some("elsewhere.md".to_string()));
    assert!(state.hovered_path.is_none());
}

#[test]
fn an_edge_end_without_a_node_can_be_pinned() {
    let mut state = GraphState::new();
    state.set_snapshot(GraphSnapshot {
        nodes: vec![node("a.md")],
        edges: vec![edge("a.md", "ghost.md")],
    });
    state.toggle_pin("ghost.md");
    assert!(state.is_pinned("ghost.md"));
    assert!(state.node("ghost.md").is_none());
}

#[test]
fn settings_fit_the_view_only_when_they_change() {
    let mut state = GraphState::new();
    state.set_snapshot(sample());
    let fit = state.fit_revision;
    state.set_scope(GraphScope::Global);
    state.set_query(String::new());
    state.set_show_pdfs(true);
    state.set_active_path(None);
    assert_eq!(state.fit_revision, fit);
    state.set_scope(GraphScope::Local { depth: 9 });
    assert_eq!(state.scope, GraphScope::Local { depth: 2 });
    assert_eq!(state.fit_revision, fit + 1);
    state.set_scope(GraphScope::Local { depth: 0 });
    assert_eq!(state.scope, GraphScope::Local { depth: 1 });
    state.reset_filters();
    assert_eq!(state.fit_revision, fit + 3);
}

#[test]
fn type_filters_hide_pdfs_missing_targets_and_orphans() {
    let mut pdf = node("paper.pdf");
    pdf.kind = GraphNodeKind::Pdf;
    pdf.incoming = 1;
    let mut missing = node("gone.md");
    missing.kind = GraphNodeKind::Missing;
    missing.incoming = 1;
    let mut a = node("a.md");
    a.outgoing = 2;
    let snapshot = GraphSnapshot {
        nodes: vec![a, pdf, missing, node("lonely.md")],
        edges: vec![edge("a.md", "paper.pdf"), edge("a.md", "gone.md")],
    };
    let mut state = GraphState::new();
    state.set_snapshot(snapshot);
    assert_eq!(state.filtered().snapshot.nodes.len(), 4);
    state.set_show_pdfs(false);
    state.set_show_missing(false);
    state.set_show_orphans(false);
    let filtered = state.filtered();
    assert_eq!(paths(&filtered.snapshot.nodes), vec!["a.md"]);
    assert!(filtered.snapshot.edges.is_empty());
}

#[test]
fn filtered_graph_indexes_edges_and_neighbours() {
    let mut state = GraphState::new();
    state.set_snapshot(GraphSnapshot {
        nodes: vec![node("a.md"), node("b.md"), node("c.md")],
        edges: vec![edge("a.md", "b.md"), edge("b.md", "c.md"), edge("c.md", "x.md")],
    });
    let filtered = state.filtered();
    assert_eq!(filtered.snapshot.edges.len(), 2);
    assert_eq!(filtered.edge_pairs, vec![(0, 1), (1, 2)]);
    assert_eq!(filtered.neighbors, vec![vec![1], vec![0, 2], vec![1]]);
    assert_eq!(filtered.position_of("c.md"), Some(2));
    assert_eq!(filtered.position_of("x.md"), None);
}

#[test]
fn query_counts_label_and_path_matches_ignoring_case_and_spaces() {
    let mut state = GraphState::new();
    state.set_snapshot(sample());
    state.set_query("  A.MD ".to_string());
    assert_eq!(state.query_match_count(), 1);
    state.set_query(".md".to_string());
    assert_eq!(state.query_match_count(), 5);
    state.set_query("   ".to_string());
    assert_eq!(state.query_match_count(), 0);
}

#[test]
fn incoming_and_outgoing_follow_edge_direction() {
    let mut state = GraphState::new();
    state.set_snapshot(sample());
    assert_eq!(paths(&state.incoming("b.md")), vec!["a.md"]);
    assert_eq!(paths(&state.outgoing("b.md")), vec!["c.md"]);
    assert!(state.incoming("a.md").is_empty());
}

#[test]
fn unconnected_and_missing_respect_the_limit() {
    let mut missing = node("gone.md");
    missing.kind = GraphNodeKind::Missing;
    let mut linked = node("linked.md");
    linked.incoming = 1;
    let mut state = GraphState::new();
    state.set_snapshot(GraphSnapshot {
        nodes: vec![node("x.md"), linked, missing, node("y.md"), node("z.md")],
        edges: Vec::new(),
    });
    assert_eq!(paths(&state.unconnected(2)), vec!["x.md", "y.md"]);
    assert_eq!(paths(&state.unconnected(10)), vec!["x.md", "y.md", "z.md"]);
    assert_eq!(paths(&state.missing(10)), vec!["gone.md"]);
    assert!(state.missing(0).is_empty());
}

#[test]
fn hubs_rank_by_links_then_path() {
    let mut hub = node("m.md");
    hub.incoming = 3;
    hub.outgoing = 1;
    let mut b = node("b.md");
    b.incoming = 1;
    let mut a = node("a.md");
    a.outgoing = 1;
    let mut missing = node("gone.md");
    missing.kind = GraphNodeKind::Missing;
    missing.incoming = 9;
    let mut state = GraphState::new();
    state.set_snapshot(GraphSnapshot {
        nodes: vec![b, node("z.md"), hub, missing, a],
        edges: Vec::new(),
    });
    assert_eq!(paths(&state.hubs(10)), vec!["m.md", "a.md", "b.md", "z.md"]);
    assert_eq!(paths(&state.hubs(2)), vec!["m.md", "a.md"]);
}

#[test]
fn stats_count_kinds_links_and_components() {
    let mut pdf = node("p.pdf");
    pdf.kind = GraphNodeKind::Pdf;
    let mut a = node("a.md");
    a.outgoing = 1;
    let mut b = node("b.md");
    b.incoming = 1;
    let mut state = GraphState::new();
    state.set_snapshot(GraphSnapshot {
        nodes: vec![a, b, pdf, node("lone.md")],
        edges: vec![
            GraphEdge { source: "a.md".to_string(), target: "b.md".to_string(), weight: 3 },
            edge("x.md", "y.md"),
        ],
    });
    let stats = state.stats();
    assert_eq!(stats.markdown, 3);
    assert_eq!(stats.pdfs, 1);
    assert_eq!(stats.missing, 0);
    assert_eq!(stats.connections, 4);
    assert_eq!(stats.unconnected, 1);
    // {a, b}, {p.pdf}, {lone}, {x, y}
    assert_eq!(stats.components, 4);
    assert_eq!(stats.documents(), 4);
}

#[test]
fn path_hash_is_fnv1a() {
    assert_eq!(hash_path(""), 0xcbf2_9ce4_8422_2325);
    assert_eq!(hash_path("a"), 0xaf63_dc4c_8601_ec8c);
    assert_eq!(hash_path("foobar"), 0x85944171f73967e8);
}

#[test]
fn local_scope_reaches_two_links_through_either_direction() {
    let mut state = GraphState::new();
    state.set_snapshot(sample());
    state.set_active_path(Some("c.md".to_string()));
    state.set_scope(GraphScope::Local { depth: 1 });
    assert_eq!(paths(&state.filtered().snapshot.nodes), vec!["b.md", "c.md", "d.md"]);
    state.set_scope(GraphScope::Local { depth: 2 });
    assert_eq!(
        paths(&state.filtered().snapshot.nodes),
        vec!["a.md", "b.md", "c.md", "d.md"]
    );
}

#[test]
fn components_are_listed_largest_first_then_by_path() {
    let snapshot = GraphSnapshot {
        nodes: vec![node("b.md"), node("a.md"), node("c.md"), node("lone.md")],
        edges: vec![edge("a.md", "b.md"), edge("c.md", "x.md")],
    };
    let components = components_from(&snapshot);
    assert_eq!(
        components,
        vec![
            vec!["a.md".to_string(), "b.md".to_string()],
            vec!["c.md".to_string(), "x.md".to_string()],
            vec!["lone.md".to_string()],
        ]
    );
    assert!(components_from(&GraphSnapshot::empty()).is_empty());
}

#[test]
fn related_notes_exclude_direct_neighbors() {
    let snapshot = GraphSnapshot {
        nodes: ["a.md", "b.md", "c.md", "shared.md"]
            .into_iter()
            .map(node)
            .collect(),
        edges: vec![
            edge("a.md", "shared.md"),
            edge("b.md", "shared.md"),
            edge("a.md", "c.md"),
        ],
    };
    let mut state = GraphState::new();
    state.set_snapshot(snapshot);
    let related = state.related_candidates("a.md");
    assert_eq!(related.len(), 1);
    assert_eq!(related[0].node.path, "b.md");
    assert_eq!(related[0].shared.len(), 1);
    assert_eq!(related[0].shared[0], ("shared.md".to_string(), 2));
    assert!(state.related_candidates("nowhere.md").is_empty());
}

#[test]
fn component_rings_start_at_the_best_linked_note() {
    let rings = md_editor::graph_rings::component_rings(&sample());
    assert_eq!(rings.len(), 2);
    assert_eq!(rings[0].members, vec!["a.md", "b.md", "c.md", "d.md"]);
    assert_eq!(rings[0].root, "b.md");
    assert_eq!(
        rings[0].levels,
        vec![
            vec!["a.md".to_string(), "c.md".to_string()],
            vec!["d.md".to_string()]
        ]
    );
    assert_eq!(rings[1].root, "orphan.md");
    assert!(rings[1].levels.is_empty());
}
