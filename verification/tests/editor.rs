use md_editor::editor::{
    block_number_from_start, bounded_block_scan_range, col_touches_range,
    get_block_context_menu_items, get_equation_number, get_image_number, is_block_editing_line,
    is_checkbox_line, is_first_block_line, is_heading_line, is_pdf_citation_line,
    is_link_target_broken, link_lookup_path, normalized_selection, parse_usize, selected_text, plain_highlight_placeholders, source_col_after_span,
    span_is_inline_edit_target, span_source_range, span_visible_text,
    EditorBlockContextMenuItem, StyledLine, StyledSpan, HOT_PATH_BLOCK_SCAN_LIMIT,
};

fn span(text: &str, rendered: &str) -> StyledSpan {
    let mut s = StyledSpan::plain(text);
    s.rendered = rendered.to_string();
    s
}

fn syntax(text: &str) -> StyledSpan {
    let mut s = span(text, "");
    s.is_syntax = true;
    s
}

fn bold(text: &str) -> StyledSpan {
    let mut s = StyledSpan::plain(text);
    s.bold = true;
    s
}

fn line(spans: Vec<StyledSpan>, block_id: usize) -> StyledLine {
    let mut l = StyledLine::new();
    l.spans = spans;
    l.block_id = block_id;
    l
}

#[test]
fn selections_are_ordered() {
    assert_eq!(normalized_selection(Some((2, 5)), Some((1, 9))), Some(((1, 9), (2, 5))));
    assert_eq!(normalized_selection(Some((1, 3)), Some((1, 7))), Some(((1, 3), (1, 7))));
    assert_eq!(normalized_selection(Some((1, 7)), Some((1, 3))), Some(((1, 3), (1, 7))));
    assert_eq!(normalized_selection(None, Some((1, 3))), None);
}

#[test]
fn scan_windows_stay_in_the_block_and_under_the_limit() {
    assert_eq!(bounded_block_scan_range(5, 3, 0, 0), None);
    assert_eq!(bounded_block_scan_range(0, 1000, 500, 500), Some((373, 628)));
    assert_eq!(bounded_block_scan_range(0, 10, 4, 6), Some((0, 10)));
    assert_eq!(bounded_block_scan_range(0, 10_000, 100, 900), Some((100, 355)));
    assert_eq!(bounded_block_scan_range(10, 20, 0, 100), Some((10, 20)));
    assert_eq!(bounded_block_scan_range(0, usize::MAX, 0, usize::MAX), Some((0, HOT_PATH_BLOCK_SCAN_LIMIT - 1)));
}

#[test]
fn span_ranges_and_inline_editing() {
    // "**bold** rest"
    let l = line(vec![syntax("**"), bold("bold"), syntax("**"), span(" rest", " rest")], 0);
    assert_eq!(span_source_range(&l, 0), Some((0, 2)));
    assert_eq!(span_source_range(&l, 1), Some((2, 6)));
    assert_eq!(span_source_range(&l, 3), Some((8, 13)));
    assert_eq!(span_source_range(&l, 4), None);
    assert_eq!(source_col_after_span(&l.spans[1], 2), 6);
    assert!(col_touches_range(2, 2, 6) && col_touches_range(6, 2, 6) && !col_touches_range(7, 2, 6));
    // The cursor inside the bold word reveals both markers.
    assert!(span_is_inline_edit_target(&l, 0, 4));
    assert!(span_is_inline_edit_target(&l, 2, 4));
    // Far away, the markers stay hidden.
    assert!(!span_is_inline_edit_target(&l, 0, 12));
    assert_eq!(span_visible_text(&l, 0, false, Some(12)), "");
    assert_eq!(span_visible_text(&l, 0, false, Some(4)), "**");
    assert_eq!(span_visible_text(&l, 0, true, None), "**");
    assert_eq!(span_visible_text(&l, 9, true, None), "");
}

#[test]
fn anchors_headings_and_menus() {
    let mut eq = StyledSpan::plain("$$");
    eq.id = Some("equation-12".to_string());
    let mut fig = StyledSpan::plain("![x](y.png)");
    fig.id = Some("figure-3".to_string());
    let lines = vec![line(vec![StyledSpan::plain("text")], 0), line(vec![eq], 1), line(vec![], 1)];
    assert_eq!(get_equation_number(&lines, 1), Some(12));
    assert_eq!(get_equation_number(&lines, 0), None);
    assert_eq!(get_equation_number(&lines, 7), None);
    assert_eq!(block_number_from_start(&lines, 1, "equation-"), Some(12));
    assert_eq!(block_number_from_start(&lines, 2, "equation-"), None);
    assert_eq!(get_image_number(&fig), Some(3));
    assert_eq!(parse_usize(&"+42".chars().collect()), Some(42));
    assert_eq!(parse_usize(&"4x".chars().collect()), None);

    let heading = line(vec![syntax("## "), StyledSpan::plain("Title")], 0);
    assert!(is_heading_line(&heading));
    let mut cb = StyledSpan::plain("[ ]");
    cb.is_checkbox = true;
    let task = line(vec![cb], 1);
    assert!(is_checkbox_line(&task));
    let mut link = StyledSpan::plain("pdf://a.pdf?page=2");
    link.is_link = true;
    let cite = line(vec![link], 2);
    assert!(is_pdf_citation_line(&cite));
    let mut code = line(vec![StyledSpan::plain("let x")], 3);
    code.is_code_block = true;
    let lines = vec![heading, task, cite, code, line(vec![StyledSpan::plain("plain")], 4)];
    assert_eq!(
        get_block_context_menu_items(&lines, 0),
        Some(vec![
            EditorBlockContextMenuItem::ConvertToH1,
            EditorBlockContextMenuItem::ConvertToH2,
            EditorBlockContextMenuItem::ConvertToH3,
            EditorBlockContextMenuItem::ConvertToParagraph,
        ])
    );
    assert_eq!(
        get_block_context_menu_items(&lines, 1),
        Some(vec![EditorBlockContextMenuItem::ToggleCheckbox, EditorBlockContextMenuItem::RemoveCheckbox])
    );
    assert_eq!(get_block_context_menu_items(&lines, 2), Some(vec![EditorBlockContextMenuItem::OpenPdfCitation]));
    assert_eq!(
        get_block_context_menu_items(&lines, 3),
        Some(vec![EditorBlockContextMenuItem::CopyCode, EditorBlockContextMenuItem::SetCodeLanguage])
    );
    assert_eq!(get_block_context_menu_items(&lines, 4), None);
    assert_eq!(get_block_context_menu_items(&lines, 9), None);
    assert!(is_block_editing_line(&lines[3], Some(3), true));
    assert!(!is_block_editing_line(&lines[3], Some(3), false));
    assert!(!is_block_editing_line(&lines[0], Some(0), true));
}

#[test]
fn block_starts_and_placeholders() {
    let lines = plain_highlight_placeholders("a\n\nb");
    assert_eq!(lines.len(), 3);
    assert_eq!(lines[2].block_id, 2);
    assert_eq!(lines[2].spans[0].text, "b");
    assert_eq!(lines[1].spans[0].text, "");
    assert!(is_first_block_line(&lines, 0));
    assert!(is_first_block_line(&lines, 1));
    let same = vec![line(vec![], 4), line(vec![], 4)];
    assert!(is_first_block_line(&same, 0));
    assert!(!is_first_block_line(&same, 1));
    assert!(!is_first_block_line(&same, 2));
}

fn lines(texts: &[&str]) -> Vec<String> {
    texts.iter().map(|t| t.to_string()).collect()
}

#[test]
fn selected_text_joins_lines_and_clamps_columns() {
    let doc = lines(&["héllo world", "second", "third line"]);
    assert_eq!(
        selected_text(&doc, Some((0, 6)), Some((2, 5))),
        Some("world\nsecond\nthird".to_string())
    );
    // Backwards selections read the same; columns past the end stop there.
    assert_eq!(
        selected_text(&doc, Some((1, 99)), Some((0, 1))),
        Some("éllo world\nsecond".to_string())
    );
    assert_eq!(selected_text(&doc, Some((1, 2)), Some((1, 4))), Some("co".to_string()));
}

#[test]
fn selected_text_is_none_without_a_selection_or_text() {
    let doc = lines(&["abc", ""]);
    assert_eq!(selected_text(&doc, None, Some((0, 1))), None);
    assert_eq!(selected_text(&doc, Some((0, 2)), Some((0, 2))), None);
    assert_eq!(selected_text(&doc, Some((1, 0)), Some((1, 5))), None);
    assert_eq!(selected_text(&doc, Some((0, 3)), Some((1, 0))), Some("\n".to_string()));
}

#[test]
fn web_links_and_anchors_are_never_broken() {
    let files = lines(&["notes/a.md"]);
    assert!(!is_link_target_broken("https://example.org/x", "", &files));
    assert!(!is_link_target_broken("http://example.org", "", &files));
    assert!(!is_link_target_broken("ftp://host/file", "", &files));
    assert!(!is_link_target_broken("#heading", "", &files));
    assert_eq!(link_lookup_path("https://example.org/x"), None);
    assert_eq!(link_lookup_path("#heading"), None);
}

#[test]
fn link_lookup_strips_fragments_and_reads_pdf_paths() {
    assert_eq!(link_lookup_path("notes/a.md#sec"), Some("notes/a.md".to_string()));
    assert_eq!(
        link_lookup_path("pdf://papers/x.pdf?page=3"),
        Some("papers/x.pdf".to_string())
    );
    assert_eq!(link_lookup_path("papers/x.pdf#page=2"), Some("papers/x.pdf".to_string()));
    assert_eq!(link_lookup_path("plain"), Some("plain".to_string()));
}

#[test]
fn file_links_are_broken_only_when_nothing_matches() {
    let files = lines(&["notes/a.md", "notes/c.markdown", "papers/x.pdf"]);
    assert!(!is_link_target_broken("notes/a", "notes/a", &files));
    assert!(!is_link_target_broken("notes/c", "notes/c", &files));
    assert!(!is_link_target_broken("notes/a.md#top", "notes/a.md", &files));
    assert!(is_link_target_broken("notes/b", "notes/b", &files));
    assert!(!is_link_target_broken("pdf://papers/x.pdf", "papers/x.pdf", &files));
    assert!(is_link_target_broken("pdf://papers/y.pdf", "papers/y.pdf", &files));
}
