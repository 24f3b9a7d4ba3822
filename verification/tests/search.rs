use notectl::error::{INTERNAL_ERROR, INVALID_PARAMS};
use notectl::search::{extract_preview, present_chunk, score_plan, ScorePlan, SearchError, SearchMode};
use notectl::storage::ChunkEntry;

#[test]
fn test_search_mode_needs_dense() {
    assert!(SearchMode::Hybrid.needs_dense());
    assert!(SearchMode::Dense.needs_dense());
    assert!(!SearchMode::Sparse.needs_dense());
}

#[test]
fn test_search_mode_needs_sparse() {
    assert!(SearchMode::Hybrid.needs_sparse());
    assert!(!SearchMode::Dense.needs_sparse());
    assert!(SearchMode::Sparse.needs_sparse());
}

#[test]
fn test_search_mode_default() {
    assert_eq!(SearchMode::default(), SearchMode::Hybrid);
}

#[test]
fn test_extract_preview_short_text() {
    let text = "Short text";
    assert_eq!(extract_preview(text, 200), "Short text");
}

#[test]
fn test_extract_preview_long_text() {
    let text = "a".repeat(500);
    let preview = extract_preview(&text, 200);
    assert_eq!(preview.len(), 200);
    assert!(preview.chars().all(|c| c == 'a'));
}

#[test]
fn test_extract_preview_exact_length() {
    let text = "exact";
    assert_eq!(extract_preview(text, 5), "exact");
}

#[test]
fn preview_counts_bytes_then_characters() {
    // Four characters of two bytes each: eight bytes, over a limit of five, so the first
    // five characters (all four) are kept.
    assert_eq!(extract_preview("éééé", 5), "éééé");
    assert_eq!(extract_preview("  padded  ", 20), "padded");
    assert_eq!(extract_preview("ab   cd", 4), "ab");
}

#[test]
fn modes_degrade_without_vectors_or_query_vector() {
    assert_eq!(SearchMode::Hybrid.with_vectors(0, 3), SearchMode::Sparse);
    assert_eq!(SearchMode::Dense.with_vectors(2, 3), SearchMode::Sparse);
    assert_eq!(SearchMode::Dense.with_vectors(3, 3), SearchMode::Dense);
    assert_eq!(SearchMode::Sparse.with_vectors(0, 3), SearchMode::Sparse);
    assert_eq!(SearchMode::Hybrid.with_query_vector(false), SearchMode::Sparse);
    assert_eq!(SearchMode::Hybrid.with_query_vector(true), SearchMode::Hybrid);
}

#[test]
fn chunk_presentation() {
    let entry = ChunkEntry {
        id: "a.md:3:Intro".to_string(),
        source_file: "a.md".to_string(),
        line_start: 3,
        line_end: 5,
        heading: Some("Intro".to_string()),
        heading_path: vec!["Title".to_string(), "Intro".to_string()],
    };
    let p = present_chunk(&entry, "  Some text here.  ");
    assert_eq!(p.id, "a.md:3:Intro");
    assert_eq!(p.source_file, "a.md");
    assert_eq!(p.heading, Some("Title > Intro".to_string()));
    assert_eq!(p.preview, "Some text here.");
    let bare = ChunkEntry { heading_path: Vec::new(), ..entry };
    assert_eq!(present_chunk(&bare, "x").heading, Some("Intro".to_string()));
}

#[test]
fn search_error_messages() {
    let e = SearchError::Storage("disk full".to_string());
    assert_eq!(e.message(), "storage error: disk full");
    let c = e.to_capability_error();
    assert_eq!(c.code, INTERNAL_ERROR);
    assert_eq!(c.message, "Storage error: disk full");
    let missing = SearchError::IndexNotFound("/v/.notectl".to_string()).to_capability_error();
    assert_eq!(missing.code, INVALID_PARAMS);
    assert_eq!(missing.message, "Search index not found at: /v/.notectl");
    assert_eq!(SearchError::Other("plain".to_string()).message(), "plain");
}

#[test]
fn every_degraded_mode_can_be_run() {
    for mode in [SearchMode::Hybrid, SearchMode::Dense, SearchMode::Sparse] {
        for n_vectors in [0usize, 2, 3] {
            for has_query in [false, true] {
                let has_vectors = n_vectors == 3;
                let m = mode.with_vectors(n_vectors, 3).with_query_vector(has_query);
                assert!(!m.needs_dense() || (has_vectors && has_query));
                assert!(m.needs_dense() || m.needs_sparse());
                assert!(m == mode || m == SearchMode::Sparse);
                if has_vectors && has_query {
                    assert_eq!(m, mode);
                }
            }
        }
    }
}

#[test]
fn score_plan_follows_the_mode() {
    assert_eq!(score_plan(SearchMode::Dense, true, false, 10), Some(ScorePlan::Dense { k: 10 }));
    assert_eq!(score_plan(SearchMode::Dense, false, true, 10), None);
    assert_eq!(score_plan(SearchMode::Sparse, false, true, 10), Some(ScorePlan::Sparse));
    assert_eq!(score_plan(SearchMode::Sparse, true, false, 10), None);
    assert_eq!(score_plan(SearchMode::Hybrid, true, true, 10), Some(ScorePlan::Hybrid { k: 20 }));
    assert_eq!(score_plan(SearchMode::Hybrid, true, false, 10), None);
    // A search that fell back for missing vectors always has a plan.
    let mode = SearchMode::Hybrid.with_vectors(0, 3).with_query_vector(false);
    assert_eq!(score_plan(mode, false, mode.needs_sparse(), 10), Some(ScorePlan::Sparse));
}
