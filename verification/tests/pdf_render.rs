use md_editor::pdf_render::{
    clamp_page, link_target_page, render_window, search_hit_target, toc_click_page, Arrival,
    LoadOutcome, PdfRenderState, RenderAction, RenderResult, ScrollAction, SearchJump,
    ViewFollowUp,
};

fn opened(pages: u16) -> PdfRenderState {
    let mut s = PdfRenderState::new(3);
    let out = s.loaded(0, pages, false);
    assert_eq!(
        out,
        LoadOutcome::Opened { follow_up: ViewFollowUp::RenderAll, unavailable: pages == 0 }
    );
    s
}

#[test]
fn opening_blanks_every_page() {
    let s = opened(5);
    assert_eq!(s.total_pages, 5);
    assert_eq!(s.drawn, vec![None; 5]);
    assert!(s.pending.is_empty() && s.stale.is_empty() && s.pending_links.is_empty());
}

#[test]
fn an_empty_document_is_reported_unavailable() {
    let mut s = PdfRenderState::new(3);
    assert_eq!(
        s.loaded(0, 0, false),
        LoadOutcome::Opened { follow_up: ViewFollowUp::RenderAll, unavailable: true }
    );
}

#[test]
fn opening_in_a_fit_mode_waits_for_page_sizes() {
    let mut s = PdfRenderState::new(3);
    s.fit_to_width = true;
    assert_eq!(
        s.loaded(0, 3, false),
        LoadOutcome::Opened { follow_up: ViewFollowUp::Nothing, unavailable: false }
    );
    assert_eq!(
        s.loaded(0, 3, true),
        LoadOutcome::Opened { follow_up: ViewFollowUp::FitToWidth, unavailable: false }
    );
    s.fit_to_width = false;
    s.fit_to_page = true;
    assert_eq!(
        s.loaded(0, 3, true),
        LoadOutcome::Opened { follow_up: ViewFollowUp::FitToPage, unavailable: false }
    );
}

#[test]
fn a_load_of_an_old_generation_is_ignored() {
    let mut s = opened(4);
    s.zoom_changed(0);
    assert_eq!(s.loaded(0, 9, false), LoadOutcome::Ignored);
    assert_eq!(s.total_pages, 4);
}

#[test]
fn a_drawn_page_is_stored_with_its_size() {
    let mut s = opened(3);
    s.pending.insert(1);
    let out = s.render_finished(0, 1, RenderResult::Drawn { width: 600, height: 800 }, false);
    assert_eq!(out, RenderAction::Stored { arrival: Arrival::NotTarget });
    assert_eq!(s.drawn[1], Some((600, 800)));
    assert!(!s.pending.contains(&1));
}

#[test]
fn a_render_from_before_a_rotation_is_dropped() {
    let mut s = opened(3);
    s.pending.insert(2);
    assert_eq!(s.rotate_clockwise(true), ViewFollowUp::RenderVisible);
    assert_eq!(s.rotation, 90);
    s.pending.insert(2);
    let out = s.render_finished(0, 2, RenderResult::Drawn { width: 10, height: 10 }, false);
    assert_eq!(out, RenderAction::Ignored);
    assert_eq!(s.drawn[2], None);
    assert!(!s.pending.contains(&2));
}

#[test]
fn four_turns_bring_the_pages_upright() {
    let mut s = opened(2);
    for expected in [90u16, 180, 270, 0] {
        s.rotate_clockwise(true);
        assert_eq!(s.rotation, expected);
    }
    assert_eq!(s.generation, 4);
    let before = s.generation;
    assert_eq!(s.rotate_clockwise(false), ViewFollowUp::Nothing);
    assert_eq!(s.generation, before);
}

#[test]
fn rotating_in_a_fit_mode_fits_again() {
    let mut s = opened(2);
    s.fit_to_page = true;
    assert_eq!(s.rotate_clockwise(true), ViewFollowUp::FitToPage);
    s.fit_to_width = true;
    assert_eq!(s.rotate_clockwise(true), ViewFollowUp::FitToWidth);
}

#[test]
fn zooming_marks_drawn_pages_stale_and_steers_back() {
    let mut s = opened(4);
    s.render_finished(0, 0, RenderResult::Drawn { width: 1, height: 1 }, false);
    s.render_finished(0, 2, RenderResult::Drawn { width: 1, height: 1 }, false);
    s.fit_to_width = true;
    s.pending.insert(3);
    s.zoom_changed(2);
    assert!(s.stale.contains(&0) && s.stale.contains(&2));
    assert_eq!(s.stale.len(), 2);
    assert!(s.pending.is_empty());
    assert!(!s.fit_to_width);
    assert_eq!(s.toc_target, Some(2));
    assert!(s.programmatic_scroll);
    assert_eq!(s.generation, 1);
    let out = s.render_finished(1, 2, RenderResult::Drawn { width: 2, height: 2 }, true);
    assert_eq!(out, RenderAction::Stored { arrival: Arrival::Arrived { start: 0, end: 3 } });
    assert!(!s.stale.contains(&2));
    assert_eq!(s.toc_target, None);
    assert!(!s.programmatic_scroll);
    assert_eq!(s.current_page, 2);
}

#[test]
fn a_target_page_drawn_before_the_view_arrives_keeps_steering() {
    let mut s = opened(10);
    s.zoom_changed(6);
    let out = s.render_finished(1, 6, RenderResult::Drawn { width: 2, height: 2 }, false);
    assert_eq!(out, RenderAction::Stored { arrival: Arrival::ScrollOn });
    assert!(s.programmatic_scroll);
    assert_eq!(s.scrolled(3, false), ScrollAction::Wait);
    assert_eq!(s.toc_target, Some(6));
    assert_eq!(s.scrolled(6, false), ScrollAction::RenderRange { start: 4, end: 8 });
    assert_eq!(s.toc_target, None);
    assert_eq!(s.current_page, 6);
}

#[test]
fn a_failed_render_names_the_page_and_ends_the_jump() {
    let mut s = opened(5);
    s.zoom_changed(3);
    assert_eq!(
        s.render_finished(1, 3, RenderResult::Failed, false),
        RenderAction::Failed { page_number: 4 }
    );
    assert_eq!(s.toc_target, None);
    assert!(!s.programmatic_scroll);
    s.zoom_changed(1);
    assert_eq!(s.render_finished(2, 1, RenderResult::Skipped, false), RenderAction::Skipped);
    assert_eq!(s.toc_target, None);
}

#[test]
fn links_are_kept_only_for_the_current_generation() {
    let mut s = opened(2);
    s.pending_links.insert(1);
    assert!(s.links_loaded(0, 1));
    assert!(!s.pending_links.contains(&1));
    s.rotate_clockwise(true);
    assert!(!s.links_loaded(0, 0));
}

#[test]
fn ordinary_scrolling_moves_the_current_page() {
    let mut s = opened(40);
    s.pending.insert(1);
    assert_eq!(s.scrolled(3, false), ScrollAction::RenderViewport);
    assert_eq!(s.current_page, 3);
    assert!(s.pending.contains(&1));
    assert_eq!(s.scrolled(20, false), ScrollAction::RenderViewport);
    assert_eq!(s.current_page, 20);
    assert!(s.pending.is_empty());
    assert_eq!(s.scrolled(40, false), ScrollAction::RenderViewport);
    assert_eq!(s.current_page, 20);
}

#[test]
fn a_user_scroll_cancels_a_pending_jump_target() {
    let mut s = opened(10);
    s.toc_target = Some(7);
    assert_eq!(s.scrolled(2, true), ScrollAction::RenderViewport);
    assert_eq!(s.toc_target, None);
    assert_eq!(s.current_page, 2);
}

#[test]
fn page_arithmetic_stays_in_the_document() {
    assert_eq!(clamp_page(7, 5), 4);
    assert_eq!(clamp_page(2, 5), 2);
    assert_eq!(clamp_page(3, 0), 0);
    assert_eq!(render_window(0, 10), (0, 2));
    assert_eq!(render_window(5, 10), (3, 7));
    assert_eq!(render_window(9, 10), (7, 9));
    assert_eq!(toc_click_page(12, 10), 9);
    assert_eq!(toc_click_page(4, 10), 4);
    assert_eq!(link_target_page(70_000, 10), 9);
    assert_eq!(link_target_page(3, 10), 3);
}

#[test]
fn a_search_hit_leads_to_its_first_match() {
    let pages = vec![0u16, 2, 2, 5];
    assert_eq!(search_hit_target(&pages, 2, 8), SearchJump::Match(1));
    assert_eq!(search_hit_target(&pages, 5, 8), SearchJump::Match(3));
    assert_eq!(search_hit_target(&pages, 3, 8), SearchJump::Page(3));
    assert_eq!(search_hit_target(&pages, 30, 8), SearchJump::Page(7));
}

#[test]
fn page_text_cache_drops_the_oldest_page_past_its_limit() {
    let mut s = opened(10);
    for page in 0..3u16 {
        assert!(s.wants_page_text(page));
        s.pending_text.insert(page);
        assert!(!s.wants_page_text(page));
        assert!(s.text_loaded(0, page, Some(format!("text {page}"))));
        assert!(!s.pending_text.contains(&page));
    }
    assert_eq!(s.page_text.len(), 3);
    assert!(s.text_loaded(0, 7, Some("seven".to_string())));
    assert_eq!(s.page_text.len(), 3);
    assert!(!s.page_text.contains_key(&0));
    assert_eq!(s.page_text.get(&7).map(|t| t.as_str()), Some("seven"));
    assert_eq!(s.text_lru, vec![1, 2, 7]);
    assert!(s.wants_page_text(0));
    assert!(!s.wants_page_text(7));
}

#[test]
fn page_text_of_an_old_generation_or_a_failed_read_is_not_kept() {
    let mut s = opened(4);
    s.pending_text.insert(1);
    s.zoom_changed(0);
    assert!(!s.text_loaded(0, 1, Some("late".to_string())));
    assert!(s.page_text.is_empty());
    assert!(!s.pending_text.contains(&1));
    assert!(!s.text_loaded(1, 2, None));
    assert!(s.page_text.is_empty());
}
