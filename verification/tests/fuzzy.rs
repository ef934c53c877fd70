use md_editor::fuzzy::{is_boundary, score, score_checked, score_path, score_path_checked};

#[test]
fn requires_the_query_in_order() {
    assert!(score("Toggle Sidebar", "tsb").is_some());
    assert!(
        score("Toggle Sidebar", "bst").is_none(),
        "out-of-order characters are not a match"
    );
    assert!(score("Toggle Sidebar", "xyz").is_none());
}

#[test]
fn empty_query_matches_everything() {
    assert_eq!(score("anything", ""), Some(0));
}

#[test]
fn word_starts_beat_mid_word_matches() {
    let initials = score("Split View", "sv").unwrap();
    let incidental = score("subversive", "sv").unwrap();
    assert!(
        initials > incidental,
        "initials {initials} should outrank mid-word {incidental}"
    );
}

#[test]
fn runs_beat_scattered_matches() {
    let run = score("search vault", "sea").unwrap();
    let scattered = score("some early answer", "sea").unwrap();
    assert!(
        run > scattered,
        "contiguous {run} should outrank scattered {scattered}"
    );
}

#[test]
fn matching_is_case_insensitive() {
    assert!(score("Study Tracker", "study tracker").is_some());
    assert!(score("study tracker", "STUDY").is_some());
}

#[test]
fn filename_matches_outrank_folder_matches() {
    let in_name = score_path("archive/2026/attention.md", "attention").unwrap();
    let in_folder = score_path("attention/2026/something-unrelated.md", "attention").unwrap();
    assert!(
        in_name > in_folder,
        "filename hit {in_name} should outrank folder hit {in_folder}"
    );
}

#[test]
fn scores_are_never_absurdly_negative_for_long_paths() {
    let deep = score_path(
        "a/very/deeply/nested/set/of/folders/leading/to/the/file/target.md",
        "target",
    );
    assert!(deep.is_some_and(|s| s > 0), "got {deep:?}");
}

#[test]
fn exact_scores_follow_the_point_rules() {
    // 'a' at start: 10 + 18; 'b' adjacent: 10 + 12; minus 2 / 12.
    assert_eq!(score("ab", "ab"), Some(50));
    // 'b' inside a word after a gap of one: 10 - 1.
    assert_eq!(score("axb", "ab"), Some(37));
    // uppercase inside a word: 10 + 10.
    assert_eq!(score("xY", "y"), Some(20));
    // one point per twelve haystack characters is taken off.
    assert_eq!(score("a23456789012", "a"), Some(27));
}

#[test]
fn score_path_adds_the_file_name_bonus() {
    assert_eq!(score_path("ab", "ab"), Some(74));
    assert_eq!(score_path("x/ab", "ab"), Some(74));
    assert_eq!(score_path("ab/x", "zz"), None);
}

#[test]
fn boundaries_are_the_listed_characters() {
    for ch in [' ', '/', '\\', '-', '_', '.', '(', '['] {
        assert!(is_boundary(ch));
    }
    assert!(!is_boundary('a'));
    assert!(!is_boundary(')'));
}

#[test]
fn checked_scores_agree_within_the_limit() {
    assert_eq!(score_checked("Toggle Sidebar", "tsb"), Some(score("Toggle Sidebar", "tsb")));
    assert_eq!(score_checked("Toggle Sidebar", "bst"), Some(None));
    assert_eq!(
        score_path_checked("notes/archive/note.md", "note"),
        Some(score_path("notes/archive/note.md", "note"))
    );
}

#[test]
fn each_matched_character_earns_between_two_and_forty_points() {
    // "ab" in "ab": 10 + 18 at the start, then 10 + 12 for the run; 2 / 12 == 0.
    assert_eq!(score("ab", "ab"), Some(50));
    // A single mid-word match: 10 points, less 24 / 12.
    assert_eq!(score("xxxxxxxxxxbxxxxxxxxxxxxx", "b"), Some(8));
}

#[test]
fn a_path_scores_exactly_when_its_whole_text_does() {
    for (path, query) in [
        ("notes/archive/note.md", "note"),
        ("notes/archive/note.md", "arno"),
        ("notes/archive/note.md", "zzz"),
        ("a/b", "ab"),
        ("a/b", "ba"),
    ] {
        let whole = score(path, query);
        let best = score_path(path, query);
        assert_eq!(best.is_some(), whole.is_some(), "{path} / {query}");
        if let (Some(p), Some(w)) = (best, whole) {
            assert!(p >= w);
        }
    }
}

#[test]
fn the_first_match_earns_between_ten_and_twenty_eight() {
    // Mid-word lowercase first match: ten points, no length penalty.
    assert_eq!(score("xb", "b"), Some(10));
    // First match at the start: twenty-eight.
    assert_eq!(score("b", "b"), Some(28));
    // Two scattered mid-word matches with a long gap: 10, then 10 - 8.
    assert_eq!(score("xaxxxxxxxxb", "ab"), Some(12));
}
