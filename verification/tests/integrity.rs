use md_editor::integrity::{
    check_vault_integrity, find_suggested_path, list_all_files, BrokenReference,
    BrokenReferenceKind, IndexedPdf, LinkedAnnotation, NoteLink,
};

fn s(v: &str) -> String {
    v.to_string()
}

#[test]
fn listing_sorts_notes_and_pdfs_and_skips_hidden_entries() {
    let walked = vec![
        s("notes/a.md"),
        s("notes\\b.markdown"),
        s("papers/p.pdf"),
        s(".obsidian/config.md"),
        s("notes/.draft.md"),
        s("image.png"),
        s("UPPER.MD"),
    ];
    let (mds, pdfs) = list_all_files(&walked);
    assert_eq!(mds, vec![s("notes/a.md"), s("notes/b.markdown")]);
    assert_eq!(pdfs, vec![s("papers/p.pdf")]);
}

#[test]
fn suggestions_match_the_file_name_in_the_right_list() {
    let mds = vec![s("archive/missing-note.md"), s("x/other.md")];
    let pdfs = vec![s("archive/missing.pdf")];
    assert_eq!(find_suggested_path("missing-note.md", &mds, &pdfs), Some(s("archive/missing-note.md")));
    assert_eq!(find_suggested_path("missing.PDF", &mds, &pdfs), None);
    assert_eq!(find_suggested_path("a/b/missing.pdf", &mds, &pdfs), Some(s("archive/missing.pdf")));
    assert_eq!(find_suggested_path("gone.md", &mds, &pdfs), None);
    assert_eq!(find_suggested_path("a/..", &mds, &pdfs), None);
}

#[test]
fn integrity_reports_each_kind_of_broken_reference() {
    let mds = vec![s("source.md")];
    let pdfs = vec![s("valid.pdf")];
    let docs = vec![IndexedPdf { document_id: s("doc-1"), vault_relative_path: s("valid.pdf") }];
    let anns = vec![LinkedAnnotation {
        id: s("ann-1"),
        document_id: s("doc-1"),
        page_index: 1,
        linked_note_path: s("missing-note-2.md"),
    }];
    let links = vec![
        NoteLink { source_file: s("source.md"), target: s("missing-note"), line: 0, resolved_path: Some(s("missing-note")) },
        NoteLink { source_file: s("source.md"), target: s(" pdf://missing.pdf?page=1 "), line: 1, resolved_path: None },
        NoteLink { source_file: s("source.md"), target: s("pdf://valid.pdf?page=1&annotation=deleted-ann"), line: 2, resolved_path: None },
        NoteLink { source_file: s("source.md"), target: s("#heading"), line: 3, resolved_path: None },
        NoteLink { source_file: s("source.md"), target: s("https://example.com"), line: 4, resolved_path: None },
    ];
    let broken = check_vault_integrity(&mds, &pdfs, &docs, &anns, &vec![s("ann-1")], &links);
    assert_eq!(
        broken,
        vec![
            BrokenReference {
                kind: BrokenReferenceKind::MissingNote,
                source_file: s("valid.pdf"),
                target: s("missing-note-2.md"),
                detail: s("Annotation ann-1 on page 1"),
            },
            BrokenReference {
                kind: BrokenReferenceKind::MissingNote,
                source_file: s("source.md"),
                target: s("missing-note"),
                detail: s("Line 1"),
            },
            BrokenReference {
                kind: BrokenReferenceKind::MissingPdf,
                source_file: s("source.md"),
                target: s("pdf://missing.pdf?page=1"),
                detail: s("Line 2"),
            },
            BrokenReference {
                kind: BrokenReferenceKind::DeletedAnnotation,
                source_file: s("source.md"),
                target: s("pdf://valid.pdf?page=1&annotation=deleted-ann"),
                detail: s("Line 3, Annotation ID: deleted-ann"),
            },
        ]
    );
}

#[test]
fn integrity_suggests_moved_paths() {
    let mds = vec![s("source.md"), s("archive/missing-note.md")];
    let pdfs = vec![s("archive/missing.pdf")];
    let docs = vec![
        IndexedPdf { document_id: s("d"), vault_relative_path: s("old.pdf") },
        IndexedPdf { document_id: s("d"), vault_relative_path: s("missing.pdf") },
    ];
    let links = vec![
        NoteLink { source_file: s("source.md"), target: s("pdf://missing.pdf?page=1"), line: 0, resolved_path: None },
        NoteLink { source_file: s("source.md"), target: s("missing-note.md"), line: 1, resolved_path: Some(s("missing-note.md")) },
    ];
    let broken = check_vault_integrity(&mds, &pdfs, &docs, &vec![], &vec![], &links);
    assert_eq!(broken.len(), 3);
    assert_eq!(broken[0].source_file, "database");
    assert_eq!(broken[0].target, "missing.pdf");
    assert_eq!(broken[0].detail, "PDF Document ID: d");
    assert_eq!(
        broken[0].kind,
        BrokenReferenceKind::MovedVaultPath { suggested_path: s("archive/missing.pdf") }
    );
    assert_eq!(
        broken[1].kind,
        BrokenReferenceKind::MovedVaultPath { suggested_path: s("archive/missing.pdf") }
    );
    assert_eq!(
        broken[2].kind,
        BrokenReferenceKind::MovedVaultPath { suggested_path: s("archive/missing-note.md") }
    );
}

#[test]
fn annotations_of_unknown_documents_name_a_placeholder() {
    let anns = vec![
        LinkedAnnotation { id: s("a"), document_id: s("nope"), page_index: 12, linked_note_path: s("n.md") },
        LinkedAnnotation { id: s("b"), document_id: s("nope"), page_index: 0, linked_note_path: s("") },
    ];
    let broken = check_vault_integrity(&vec![], &vec![], &vec![], &anns, &vec![], &vec![]);
    assert_eq!(broken.len(), 1);
    assert_eq!(broken[0].source_file, "unknown.pdf");
    assert_eq!(broken[0].detail, "Annotation a on page 12");
}

#[test]
fn a_backslash_inside_a_name_is_part_of_the_name() {
    let walked = vec![s("notes\\.md"), s("papers/.hidden.pdf"), s("a\\.b/c.pdf")];
    let (mds, pdfs) = list_all_files(&walked);
    assert_eq!(mds, vec![s("notes/.md")]);
    assert_eq!(pdfs, vec![s("a/.b/c.pdf")]);
}
