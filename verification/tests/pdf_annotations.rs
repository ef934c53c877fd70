use md_editor::pdf_annotations::{
    annotation_export_file_name, annotation_note, export_outcome_message, join_annotation_tags,
    parse_annotation_tags, AnnotationStatus,
};

fn strings(items: &[&str]) -> Vec<String> {
    items.iter().map(|s| s.to_string()).collect()
}

#[test]
fn tags_are_split_at_commas_and_trimmed() {
    assert_eq!(
        parse_annotation_tags(" method ,  results,theory "),
        strings(&["method", "results", "theory"])
    );
}

#[test]
fn empty_tags_are_dropped() {
    assert_eq!(parse_annotation_tags(",, a ,\t, b,"), strings(&["a", "b"]));
    assert!(parse_annotation_tags("").is_empty());
    assert!(parse_annotation_tags("  ,  ").is_empty());
}

#[test]
fn tags_keep_inner_spaces_and_order() {
    assert_eq!(
        parse_annotation_tags("open question, to read\u{3000}"),
        strings(&["open question", "to read"])
    );
}

#[test]
fn tags_are_shown_comma_separated() {
    assert_eq!(join_annotation_tags(&strings(&["a", "b", "c"])), "a, b, c");
    assert_eq!(join_annotation_tags(&strings(&["solo"])), "solo");
    assert_eq!(join_annotation_tags(&Vec::new()), "");
}

#[test]
fn shown_tags_saved_back_are_unchanged() {
    let tags = parse_annotation_tags("  alpha,beta  , ,gamma delta ");
    let shown = join_annotation_tags(&tags);
    assert_eq!(shown, "alpha, beta, gamma delta");
    assert_eq!(parse_annotation_tags(&shown), tags);
}

#[test]
fn status_toggles_back_and_forth() {
    assert_eq!(AnnotationStatus::Unresolved.toggled(), AnnotationStatus::Resolved);
    assert_eq!(AnnotationStatus::Resolved.toggled(), AnnotationStatus::Unresolved);
    assert_eq!(AnnotationStatus::Resolved.toggled().toggled(), AnnotationStatus::Resolved);
}

#[test]
fn export_name_uses_the_pdf_stem() {
    assert_eq!(annotation_export_file_name("papers/attention.pdf"), "attention-annotations.md");
    assert_eq!(annotation_export_file_name("a/b/report.v2.pdf"), "report.v2-annotations.md");
    assert_eq!(annotation_export_file_name("notes/README"), "README-annotations.md");
    assert_eq!(annotation_export_file_name("hidden/.paper"), ".paper-annotations.md");
}

#[test]
fn export_name_falls_back_to_document() {
    assert_eq!(annotation_export_file_name(""), "document-annotations.md");
    assert_eq!(annotation_export_file_name("papers/.."), "document-annotations.md");
    assert_eq!(annotation_export_file_name("/"), "document-annotations.md");
}

#[test]
fn export_outcomes_are_reported() {
    assert_eq!(
        export_outcome_message(&Ok("/tmp/out.md".to_string())),
        Some("Exported to /tmp/out.md".to_string())
    );
    assert_eq!(export_outcome_message(&Err("Export cancelled".to_string())), None);
    assert_eq!(
        export_outcome_message(&Err("Failed to write file: denied".to_string())),
        Some("Failed to write file: denied".to_string())
    );
}

#[test]
fn a_blank_quick_note_removes_the_note() {
    assert_eq!(annotation_note("  \n\t "), None);
    assert_eq!(annotation_note(""), None);
    assert_eq!(annotation_note("  check eq. 3\n"), Some("check eq. 3".to_string()));
}
