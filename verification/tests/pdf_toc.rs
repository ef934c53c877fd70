use md_editor::pdf_toc::{flatten_pdf_toc, page_toc_entries, toc_after_bookmarks, PdfTocNode, TocEntry};

fn bookmark(title: &str, page: Option<u16>, children: Vec<PdfTocNode>) -> PdfTocNode {
    PdfTocNode {
        title: title.to_string(),
        page_index: page,
        children,
    }
}

fn entry(level: u8, text: &str, line: usize) -> TocEntry {
    TocEntry {
        level,
        text: text.to_string(),
        line,
    }
}

#[test]
fn bookmarks_flatten_in_reading_order_with_levels() {
    let tree = vec![
        bookmark(
            "Intro",
            Some(0),
            vec![bookmark("Motivation", Some(1), Vec::new()), bookmark("Unresolved", None, vec![bookmark("Deep", Some(3), Vec::new())])],
        ),
        bookmark("Methods", Some(4), Vec::new()),
    ];
    let mut out = Vec::new();
    flatten_pdf_toc(&tree, 1, &mut out);
    assert_eq!(
        out,
        vec![
            entry(1, "Intro", 0),
            entry(2, "Motivation", 1),
            entry(3, "Deep", 3),
            entry(1, "Methods", 4),
        ]
    );
}

#[test]
fn nesting_deeper_than_six_stays_at_six() {
    let mut node = bookmark("L8", Some(8), Vec::new());
    for level in (1..8).rev() {
        node = bookmark(&format!("L{level}"), Some(level), vec![node]);
    }
    let mut out = Vec::new();
    flatten_pdf_toc(&vec![node], 1, &mut out);
    let levels: Vec<u8> = out.iter().map(|e| e.level).collect();
    assert_eq!(levels, vec![1, 2, 3, 4, 5, 6, 6, 6]);
}

#[test]
fn page_entries_count_from_one() {
    assert_eq!(
        page_toc_entries(3),
        vec![entry(1, "Page 1", 0), entry(1, "Page 2", 1), entry(1, "Page 3", 2)]
    );
    assert!(page_toc_entries(0).is_empty());
}

#[test]
fn bookmarks_replace_the_page_list_only_when_they_point_at_pages() {
    let pages = Some(page_toc_entries(2));
    let real = vec![bookmark("Intro", Some(0), Vec::new())];
    assert_eq!(
        toc_after_bookmarks(pages.clone(), &real, 2),
        Some(vec![entry(1, "Intro", 0)])
    );

    let dangling = vec![bookmark("Lost", None, Vec::new())];
    assert_eq!(toc_after_bookmarks(pages.clone(), &dangling, 2), pages);

    assert_eq!(toc_after_bookmarks(None, &Vec::new(), 2), Some(page_toc_entries(2)));
    assert_eq!(toc_after_bookmarks(Some(Vec::new()), &Vec::new(), 1), Some(page_toc_entries(1)));
    let shown = Some(vec![entry(1, "Intro", 0)]);
    assert_eq!(toc_after_bookmarks(shown.clone(), &Vec::new(), 5), shown);
}
