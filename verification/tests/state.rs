use md_editor::ink::{
    unsupported_platform_error, EraserMode, InstallStep, PaperStyle, PenCapture, PenPhase,
    StrokeKind, Tool,
};
use md_editor::messages::{SearchWrapStatus, Shortcut, TrackerTab};
use md_editor::overlays::{CitationItem, ModalType, OverlayState};
use md_editor::search::{EditorSearchState, GlobalSearchProgress, PdfSearchState, SearchResult};
use md_editor::workspace::{BacklinkItem, BacklinkTarget, WorkspaceMessage, WorkspaceState};

#[test]
fn close_modal_clears_modal_inputs_without_touching_other_overlays() {
    let mut state = OverlayState {
        active_modal: Some(ModalType::CreateFile),
        modal_input: "note.md".to_string(),
        link_note_picker_search: "note".to_string(),
        command_palette_visible: true,
        toast: Some("Saved".to_string()),
        ..OverlayState::default()
    };

    state.close_modal();

    assert!(state.active_modal.is_none());
    assert!(state.modal_input.is_empty());
    assert!(state.link_note_picker_search.is_empty());
    assert!(state.command_palette_visible);
    assert_eq!(state.toast.as_deref(), Some("Saved"));
}

#[test]
fn palette_close_clears_only_matching_palette() {
    let mut state = OverlayState {
        command_palette_visible: true,
        command_palette_query: "open".to_string(),
        citation_palette_visible: true,
        citation_palette_query: "smith".to_string(),
        ..OverlayState::default()
    };

    state.close_command_palette();

    assert!(!state.command_palette_visible);
    assert!(state.command_palette_query.is_empty());
    assert!(state.citation_palette_visible);
    assert_eq!(state.citation_palette_query, "smith");

    state.close_citation_palette();

    assert!(!state.citation_palette_visible);
    assert!(state.citation_palette_query.is_empty());
}

#[test]
fn reset_clears_all_overlay_state() {
    let mut state = OverlayState {
        active_modal: Some(ModalType::CreateFolder),
        modal_input: "folder".to_string(),
        link_note_picker_search: "link".to_string(),
        command_palette_visible: true,
        command_palette_query: "command".to_string(),
        citation_palette_visible: true,
        citation_palette_query: "citation".to_string(),
        excerpt_mode_active: true,
        excerpts_queue: vec![CitationItem::Selection { text: "quote".to_string(), page_index: 0 }],
        toast: Some("Queued".to_string()),
    };

    state.reset();

    assert!(state.active_modal.is_none());
    assert!(state.modal_input.is_empty());
    assert!(state.link_note_picker_search.is_empty());
    assert!(!state.command_palette_visible);
    assert!(state.command_palette_query.is_empty());
    assert!(!state.citation_palette_visible);
    assert!(state.citation_palette_query.is_empty());
    assert!(!state.excerpt_mode_active);
    assert!(state.excerpts_queue.is_empty());
    assert!(state.toast.is_none());
}

#[test]
fn default_has_no_open_vault_or_document() {
    let state = WorkspaceState::new();

    assert!(state.vault_root.is_none());
    assert!(state.selected_path.is_none());
    assert!(state.active_path.is_none());
    assert!(state.expanded_folders.is_empty());
    assert!(!state.backlinks_visible);
    assert!(state.backlinks.is_empty());
    assert!(state.navigation_history.entries.is_empty());
}

#[test]
fn toggling_folder_expands_then_collapses_same_path() {
    let mut state = WorkspaceState::new();

    assert!(state.update_local(&WorkspaceMessage::FolderToggled("notes".to_string())));
    assert!(state.is_expanded("notes"));

    assert!(state.update_local(&WorkspaceMessage::FolderToggled("notes".to_string())));
    assert!(!state.is_expanded("notes"));
    assert!(!state.update_local(&WorkspaceMessage::CreateFileDialog));
}

#[test]
fn clearing_active_markdown_preserves_vault_selection_and_history() {
    let mut state = WorkspaceState::new();
    state.vault_root = Some("/vault".to_string());
    state.selected_path = Some("notes/current.md".to_string());
    state.active_path = Some("notes/current.md".to_string());
    state.backlinks = vec![BacklinkItem {
        source: BacklinkTarget::MarkdownFile { path: "notes/source.md".to_string() },
        label: "source".to_string(),
        context: Some("link".to_string()),
    }];
    state.navigation_history.push(md_editor::navigation::NavigationTarget::Markdown {
        path: "notes/current.md".to_string(),
        line: 0,
        column: 0,
    });

    state.clear_active_markdown();

    assert!(state.active_path.is_none());
    assert!(state.backlinks.is_empty());
    assert_eq!(state.vault_root.as_deref(), Some("/vault"));
    assert_eq!(state.selected_path.as_deref(), Some("notes/current.md"));
    assert_eq!(state.navigation_history.entries.len(), 1);
}

#[test]
fn editor_result_reset_preserves_query_and_options() {
    let mut state = EditorSearchState {
        query: "needle".to_string(),
        replace: "replacement".to_string(),
        regex: true,
        match_case: true,
        matches: vec![SearchResult { path: "note.md".to_string(), line: 1, context: "needle".to_string() }],
        active_index: Some(0),
        wrap_status: Some(SearchWrapStatus::WrappedForward),
        visible: true,
    };

    state.reset_results();

    assert_eq!(state.query, "needle");
    assert_eq!(state.replace, "replacement");
    assert!(state.regex);
    assert!(state.match_case);
    assert!(state.visible);
    assert!(state.matches.is_empty());
    assert!(state.active_index.is_none());
    assert!(state.wrap_status.is_none());
}

#[test]
fn global_result_reset_clears_pending_work_but_preserves_generation() {
    let mut state = GlobalSearchProgress {
        id: 7,
        pdf_search_id: Some(8),
        pending_db: true,
        pending_pdf: true,
        pending_vault_pdf: true,
        pdf_status: Some("Searching PDFs".to_string()),
        searching: true,
        error: Some("failed".to_string()),
    };
    state.reset_results();
    assert_eq!(state.id, 7);
    assert!(state.error.is_none() && state.pdf_status.is_none() && state.pdf_search_id.is_none());
    assert!(!state.pending_db && !state.pending_pdf && !state.pending_vault_pdf && !state.searching);
    state.pending_pdf = true;
    state.update_searching();
    assert!(state.searching);
    state.pending_pdf = false;
    state.update_searching();
    assert!(!state.searching);
}

#[test]
fn ink_defaults_and_paper_labels() {
    assert_eq!(EraserMode::default(), EraserMode::Partial);
    assert_eq!(StrokeKind::default(), StrokeKind::Pen);
    assert_eq!(PaperStyle::default(), PaperStyle::Dotted);
    let all = PaperStyle::all();
    let labels: Vec<&str> = all.iter().map(|(l, _)| l.as_str()).collect();
    assert_eq!(labels, vec!["Plain", "Ruled", "Grid", "Dots"]);
    assert_eq!(all[3].1, PaperStyle::Dotted);
    assert_ne!(Tool::Pen, Tool::Lasso);
    assert_ne!(PenPhase::Down, PenPhase::Up);
    assert_ne!(TrackerTab::Dashboard, TrackerTab::Config);
    assert_ne!(Shortcut::Save, Shortcut::Escape);
}

#[test]
fn pen_capture_follows_the_window() {
    let mut pen = PenCapture::new();
    assert!(!pen.is_capturing() && !pen.is_available());
    pen.set_capturing(true);
    assert!(pen.is_capturing());

    assert_eq!(pen.plan_install(0), InstallStep::Reject);
    assert_eq!(pen.install(0, Ok(())), Err("window handle was null".to_string()));

    assert_eq!(pen.plan_install(7), InstallStep::CallPlatform);
    assert_eq!(pen.install(7, Err(unsupported_platform_error())), Err("Handwriting input is only implemented on Windows".to_string()));
    assert!(!pen.is_available());

    assert_eq!(pen.install(7, Ok(())), Ok(()));
    assert!(pen.is_available());
    assert_eq!(pen.plan_install(7), InstallStep::AlreadyHooked);
    assert_eq!(pen.install(7, Err("unused".to_string())), Ok(()));
    assert!(pen.is_capturing());
}

#[test]
fn finishing_the_awaited_pdf_search_settles_its_part() {
    let mut state = GlobalSearchProgress {
        id: 3,
        pdf_search_id: Some(11),
        pending_db: false,
        pending_pdf: true,
        pending_vault_pdf: true,
        pdf_status: None,
        searching: true,
        error: None,
    };
    assert!(!state.pdf_search_finished(10));
    assert_eq!(state.pdf_search_id, Some(11));
    assert!(state.pending_pdf && state.searching);
    assert!(state.pdf_search_finished(11));
    assert!(!state.pending_pdf && state.pdf_search_id.is_none());
    assert!(state.searching);
    state.pending_vault_pdf = false;
    state.pdf_search_id = Some(12);
    assert!(state.pdf_search_finished(12));
    assert!(!state.searching);
}

#[test]
fn pdf_result_reset_preserves_query_and_options() {
    let mut state = PdfSearchState {
        query: "needle".to_string(),
        regex: true,
        match_case: true,
        active_index: Some(0),
        searching: true,
        visible: true,
        ..PdfSearchState::default()
    };
    state.page_index.insert(0, vec![0]);

    state.reset_results();

    assert_eq!(state.query, "needle");
    assert!(state.regex);
    assert!(state.match_case);
    assert!(state.visible);
    assert!(state.matches.is_empty());
    assert!(state.page_index.is_empty());
    assert!(state.active_index.is_none());
    assert!(!state.searching);
}

#[test]
fn pen_capture_stays_available_once_installed() {
    let mut pen = PenCapture::new();
    assert_eq!(pen.install(3, Ok(())), Ok(()));
    assert!(pen.is_available());
    assert!(pen.install(9, Err("no hook".to_string())).is_err());
    assert!(pen.is_available());
    pen.set_capturing(false);
    assert!(pen.is_available());
}
