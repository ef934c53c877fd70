use md_editor::navigation::{NavigationHistory, NavigationTarget};

fn md(path: &str, line: usize) -> NavigationTarget {
    NavigationTarget::Markdown { path: path.to_string(), line, column: 0 }
}

#[test]
fn default_history_is_empty_with_fifty_slots() {
    let h = NavigationHistory::default();
    assert!(h.entries.is_empty());
    assert_eq!(h.current_index, 0);
    assert_eq!(h.max_entries, 50);
}

#[test]
fn back_and_forward_walk_the_visits() {
    let mut h = NavigationHistory::default();
    h.push(md("a.md", 1));
    h.push(md("b.md", 2));
    h.push(md("c.md", 3));
    assert_eq!(h.current_index, 2);
    assert_eq!(h.go_back(), Some(md("b.md", 2)));
    assert_eq!(h.go_back(), Some(md("a.md", 1)));
    assert_eq!(h.go_back(), None);
    assert_eq!(h.go_forward(), Some(md("b.md", 2)));
    assert_eq!(h.go_forward(), Some(md("c.md", 3)));
    assert_eq!(h.go_forward(), None);
}

#[test]
fn pushing_in_the_middle_drops_forward_history() {
    let mut h = NavigationHistory::default();
    h.push(md("a.md", 1));
    h.push(md("b.md", 2));
    h.push(md("c.md", 3));
    h.go_back();
    h.go_back();
    h.push(md("d.md", 4));
    assert_eq!(h.entries.len(), 2);
    assert_eq!(h.current_index, 1);
    assert_eq!(h.go_forward(), None);
    assert_eq!(h.go_back(), Some(md("a.md", 1)));
}

#[test]
fn consecutive_duplicates_are_recorded_once() {
    let mut h = NavigationHistory::default();
    h.push(md("a.md", 1));
    h.push(md("a.md", 1));
    assert_eq!(h.entries.len(), 1);
    h.push(NavigationTarget::Pdf {
        path: "p.pdf".to_string(),
        page: 3,
        scroll_offset_bits: 1.5f32.to_bits(),
        zoom_bits: 1.0f32.to_bits(),
    });
    assert_eq!(h.entries.len(), 2);
}

#[test]
fn the_oldest_visit_goes_when_full() {
    let mut h = NavigationHistory::default();
    for i in 0..55 {
        h.push(md("n.md", i));
    }
    assert_eq!(h.entries.len(), 50);
    assert_eq!(h.entries[0].target, md("n.md", 5));
    assert_eq!(h.current_index, 49);
}

#[test]
fn same_as_compares_every_field() {
    assert!(md("a.md", 1).same_as(&md("a.md", 1)));
    assert!(!md("a.md", 1).same_as(&md("a.md", 2)));
    assert!(!md("a.md", 1).same_as(&md("b.md", 1)));
}

fn pdf(path: &str, page: u16, scroll: f32, zoom: f32) -> NavigationTarget {
    NavigationTarget::Pdf {
        path: path.to_string(),
        page,
        scroll_offset_bits: scroll.to_bits(),
        zoom_bits: zoom.to_bits(),
    }
}

#[test]
fn pdf_positions_compare_as_floats() {
    assert_eq!(pdf("p.pdf", 1, 0.0, 1.0), pdf("p.pdf", 1, -0.0, 1.0));
    assert_ne!(pdf("p.pdf", 1, f32::NAN, 1.0), pdf("p.pdf", 1, f32::NAN, 1.0));
    assert_ne!(pdf("p.pdf", 1, 10.0, 1.0), pdf("p.pdf", 2, 10.0, 1.0));

    let mut h = NavigationHistory::default();
    h.push(pdf("p.pdf", 1, 0.0, 1.0));
    h.push(pdf("p.pdf", 1, -0.0, 1.0));
    assert_eq!(h.entries.len(), 1, "an equal position is not recorded twice");
    h.push(pdf("p.pdf", 1, f32::NAN, 1.0));
    h.push(pdf("p.pdf", 1, f32::NAN, 1.0));
    assert_eq!(h.entries.len(), 3, "a NaN offset never equals itself");
}

#[test]
fn stepping_from_an_index_past_the_end_does_not_fail() {
    let mut history = NavigationHistory::new();
    history.push(NavigationTarget::Markdown { path: "a.md".to_string(), line: 1, column: 0 });
    history.current_index = 1;
    assert!(history.go_forward().is_none());
    assert_eq!(history.current_index, 1);
    let back = history.go_back();
    assert!(matches!(back, Some(NavigationTarget::Markdown { ref path, .. }) if path == "a.md"));
    assert_eq!(history.current_index, 0);
    let mut empty = NavigationHistory::new();
    empty.current_index = 3;
    assert!(empty.go_back().is_none());
    assert!(empty.go_forward().is_none());
}
