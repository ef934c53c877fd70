use md_editor::pdf_link::{build_pdf_link, hex_value, parse_pdf_link, percent_decode, percent_encode, PdfLinkTarget};

#[test]
fn builds_and_parses_pdf_links_with_markdown_url_special_chars() {
    let link = build_pdf_link("papers/a (b)?c#d&e.pdf", Some(5), Some("ann&id)"));
    assert_eq!(
        link,
        "pdf://papers/a%20%28b%29%3Fc%23d%26e.pdf?page=5&annotation=ann%26id%29"
    );

    assert_eq!(
        parse_pdf_link(&link),
        Some(PdfLinkTarget {
            path: "papers/a (b)?c#d&e.pdf".to_string(),
            page: Some(5),
            annotation_id: Some("ann&id)".to_string()),
        })
    );
}

#[test]
fn parses_legacy_raw_pdf_links() {
    assert_eq!(
        parse_pdf_link("pdf://papers/My PDF File.pdf?page=2&annotation=abc"),
        Some(PdfLinkTarget {
            path: "papers/My PDF File.pdf".to_string(),
            page: Some(2),
            annotation_id: Some("abc".to_string()),
        })
    );
}

#[test]
fn parses_pdf_links_with_hash_delimiter() {
    assert_eq!(
        parse_pdf_link("pdf://papers/My PDF File.pdf#page=5&annotation=xyz"),
        Some(PdfLinkTarget {
            path: "papers/My PDF File.pdf".to_string(),
            page: Some(5),
            annotation_id: Some("xyz".to_string()),
        })
    );
}

#[test]
fn parses_pdf_links_without_prefix() {
    assert_eq!(
        parse_pdf_link("papers/My PDF File.pdf#page=5&annotation=xyz"),
        Some(PdfLinkTarget {
            path: "papers/My PDF File.pdf".to_string(),
            page: Some(5),
            annotation_id: Some("xyz".to_string()),
        })
    );
    assert_eq!(parse_pdf_link("folder.pdf/file.md"), None);
}

#[test]
fn round_trip_keeps_unicode_paths_and_every_query_shape() {
    for (page, annotation) in [
        (None, None),
        (Some(0u16), None),
        (Some(65535u16), None),
        (None, Some("")),
        (Some(12u16), Some("id with spaces & = ?")),
    ] {
        let link = build_pdf_link("Bücher/Über 100%.PDF", page, annotation);
        assert_eq!(
            parse_pdf_link(&link),
            Some(PdfLinkTarget {
                path: "Bücher/Über 100%.PDF".to_string(),
                page,
                annotation_id: annotation.map(str::to_string),
            })
        );
    }
}

#[test]
fn link_without_query_has_no_question_mark() {
    assert_eq!(build_pdf_link("a.pdf", None, None), "pdf://a.pdf");
    assert_eq!(build_pdf_link("a.pdf", None, Some("x")), "pdf://a.pdf?annotation=x");
}

#[test]
fn non_pdf_targets_are_rejected() {
    assert_eq!(parse_pdf_link("pdf://notes/readme.md"), None);
    assert_eq!(parse_pdf_link("https://example.com"), None);
}

#[test]
fn bad_pages_and_unknown_keys_are_ignored() {
    assert_eq!(
        parse_pdf_link("pdf://a.pdf?page=70000&x=1&&page=+7&page=-1&annotation=%zz"),
        Some(PdfLinkTarget {
            path: "a.pdf".to_string(),
            page: Some(7),
            annotation_id: Some("%zz".to_string()),
        })
    );
}

#[test]
fn undecodable_path_is_kept_raw() {
    assert_eq!(
        parse_pdf_link("pdf://100%.pdf"),
        Some(PdfLinkTarget { path: "100%.pdf".to_string(), page: None, annotation_id: None })
    );
}

#[test]
fn percent_helpers_match_their_rules() {
    assert_eq!(percent_encode("a b/~"), "a%20b/~");
    assert_eq!(percent_encode("é"), "%C3%A9");
    assert_eq!(percent_decode("%c3%a9"), Some("é".to_string()));
    assert_eq!(percent_decode("%C3"), None);
    assert_eq!(percent_decode("%4"), None);
    assert_eq!(hex_value(b'f'), Some(15));
    assert_eq!(hex_value(b'F'), Some(15));
    assert_eq!(hex_value(b'9'), Some(9));
    assert_eq!(hex_value(b'g'), None);
}
