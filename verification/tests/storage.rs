use notectl::config::{Config, SearchConfig};
use notectl::storage::{
    compute_overall_content_hash, compute_staleness_diff, days_to_ymd, rfc3339_at,
    ChunkConfigSnapshot, FileInfo, RebuildReason, ScannedFile, SearchIndex, SearchManifest,
    StalenessDiff, INDEX_FORMAT_VERSION, vectors_layout, VectorsLayout,
};

fn test_config() -> Config {
    Config {
        exclude_paths: Vec::new(),
        daily_note_patterns: vec!["YYYY-MM-DD.md".to_string()],
        search: SearchConfig::default(),
    }
}

fn snapshot(config: &Config) -> ChunkConfigSnapshot {
    ChunkConfigSnapshot {
        max_tokens: config.search.max_seq_tokens,
        overlap_tokens: config.search.chunk_overlap_tokens,
        min_chunk_size: config.search.min_chunk_tokens,
        merge_threshold: config.search.merge_threshold,
    }
}

#[test]
fn test_manifest_new_empty() {
    let config = test_config();
    let manifest = SearchManifest::new_empty(
        config.search.model_id.clone(),
        config.search.embedding_dim,
        ChunkConfigSnapshot {
            max_tokens: config.search.max_seq_tokens,
            overlap_tokens: config.search.chunk_overlap_tokens,
            min_chunk_size: config.search.min_chunk_tokens,
            merge_threshold: config.search.merge_threshold,
        },
    );

    assert_eq!(manifest.version, INDEX_FORMAT_VERSION);
    assert_eq!(manifest.chunk_count(), 0);
    assert_eq!(manifest.document_count(), 0);
    assert!(!manifest.has_embeddings);
    assert!(manifest.content_hash.is_empty());
}

#[test]
fn test_rfc3339_formatting() {
    // Verify the date algorithm produces reasonable output.
    let (year, month, day) = days_to_ymd(0);
    assert_eq!(year, 1970);
    assert_eq!(month, 1);
    assert_eq!(day, 1);

    // 2024-01-01 is day 19723.
    let (year, month, day) = days_to_ymd(19723);
    assert_eq!(year, 2024);
    assert_eq!(month, 1);
    assert_eq!(day, 1);
}

#[test]
fn test_compute_overall_content_hash_deterministic() {
    let hashes1 = vec![
        ("a.md".to_string(), "hash_a".to_string()),
        ("b.md".to_string(), "hash_b".to_string()),
    ];
    // Same hashes but different order — the same result, since entries are taken in path order.
    let hashes2 = vec![
        ("b.md".to_string(), "hash_b".to_string()),
        ("a.md".to_string(), "hash_a".to_string()),
    ];

    assert_eq!(
        compute_overall_content_hash(&hashes1),
        compute_overall_content_hash(&hashes2)
    );
}

#[test]
fn overall_hash_is_the_hash_of_the_hashes_in_path_order() {
    let hashes = vec![
        ("b.md".to_string(), "hash_b".to_string()),
        ("a.md".to_string(), "old".to_string()),
        ("a.md".to_string(), "hash_a".to_string()),
    ];
    let expected = blake3::hash(b"hash_ahash_b").to_hex().to_string();
    assert_eq!(compute_overall_content_hash(&hashes), expected);
    assert_eq!(expected.len(), 64);
}

#[test]
fn timestamps_in_rfc3339() {
    assert_eq!(rfc3339_at(0), "1970-01-01T00:00:00Z");
    assert_eq!(rfc3339_at(19723 * 86400 + 3661), "2024-01-01T01:01:01Z");
    assert_eq!(rfc3339_at(951_782_400), "2000-02-29T00:00:00Z");
    assert_eq!(days_to_ymd(11016), (2000, 2, 29));
}

fn info(path: &str, content: &str) -> FileInfo {
    FileInfo {
        path: path.to_string(),
        content_hash: blake3::hash(content.as_bytes()).to_hex().to_string(),
        mtime: 1700000000,
        chunk_ids: vec![format!("{path}:0:intro")],
    }
}

/// A file written just now: its modification time is later than the recorded one.
const WRITTEN_NOW: u64 = 1750000000;

fn scanned(path: &str, content: &str) -> ScannedFile {
    ScannedFile {
        path: path.to_string(),
        full_path: format!("/vault/{path}"),
        content: content.to_string(),
        mtime: WRITTEN_NOW,
    }
}

#[test]
fn staleness_of_files() {
    let config = test_config();
    let mut manifest = SearchManifest::new_empty(
        config.search.model_id.clone(),
        config.search.embedding_dim,
        snapshot(&config),
    );
    manifest.files = vec![info("b.md", "bee"), info("a.md", "ay"), info("gone.md", "x")];
    let current = vec![scanned("c.md", "new"), scanned("a.md", "ay"), scanned("b.md", "changed")];
    match compute_staleness_diff(&config, &manifest, &current) {
        StalenessDiff::Incremental { added, modified, removed } => {
            assert_eq!(added, vec!["/vault/c.md".to_string()]);
            assert_eq!(modified, vec!["/vault/b.md".to_string()]);
            assert_eq!(removed, vec!["gone.md".to_string()]);
        }
        _ => panic!("expected an incremental diff"),
    }
    let same = vec![scanned("a.md", "ay"), scanned("b.md", "bee"), scanned("gone.md", "x")];
    assert!(matches!(compute_staleness_diff(&config, &manifest, &same), StalenessDiff::UpToDate));
}

#[test]
fn staleness_from_settings() {
    let config = test_config();
    let manifest = SearchManifest::new_empty("other/model".to_string(), 256, snapshot(&config));
    let diff = compute_staleness_diff(&config, &manifest, &Vec::new());
    assert!(diff.requires_full_rebuild());
    match diff {
        StalenessDiff::FullRebuild(RebuildReason::ModelChanged(m)) => assert_eq!(m, "other/model"),
        _ => panic!("expected a model change"),
    }
    let manifest = SearchManifest::new_empty(config.search.model_id.clone(), 128, snapshot(&config));
    assert!(matches!(
        compute_staleness_diff(&config, &manifest, &Vec::new()),
        StalenessDiff::FullRebuild(RebuildReason::DimensionChanged(128))
    ));
    let mut changed = snapshot(&config);
    changed.max_tokens += 1;
    let manifest = SearchManifest::new_empty(config.search.model_id.clone(), 256, changed);
    assert!(matches!(
        compute_staleness_diff(&config, &manifest, &Vec::new()),
        StalenessDiff::FullRebuild(RebuildReason::ChunkConfigChanged)
    ));
    let manifest = SearchManifest::new_empty(config.search.model_id.clone(), 256, snapshot(&config));
    assert!(!compute_staleness_diff(&config, &manifest, &Vec::new()).requires_full_rebuild());
}

#[test]
fn opening_an_index() {
    let config = test_config();
    let fresh = SearchManifest::new_empty(config.search.model_id.clone(), 256, snapshot(&config));
    let mut stored = SearchManifest::new_empty("m".to_string(), 8, snapshot(&config));
    stored.version = 2;
    let index = SearchIndex::open_or_create(
        "/v/.notectl/search".to_string(),
        Some(stored),
        config.search.model_id.clone(),
        256,
        snapshot(&config),
    );
    assert_eq!(index.base_dir(), "/v/.notectl/search");
    assert_eq!(index.manifest().model_id, fresh.model_id);
    assert_eq!(index.manifest().version, INDEX_FORMAT_VERSION);
    let kept = SearchManifest::new_empty("m".to_string(), 8, snapshot(&config));
    let mut index = SearchIndex::open_or_create("d".to_string(), Some(kept), "x".to_string(), 1, snapshot(&config));
    assert_eq!(index.manifest().model_id, "m");
    index.manifest_mut().has_embeddings = true;
    assert!(index.manifest().has_embeddings);
}

fn empty_manifest(config: &Config) -> SearchManifest {
    SearchManifest::new_empty(config.search.model_id.clone(), config.search.embedding_dim, snapshot(config))
}

#[test]
fn test_staleness_diff_up_to_date() {
    let config = test_config();
    let content = "# Hello\nWorld";
    let mut manifest = empty_manifest(&config);
    manifest.files.push(info("note.md", content));
    let diff = compute_staleness_diff(&config, &manifest, &vec![scanned("note.md", content)]);
    assert!(matches!(diff, StalenessDiff::UpToDate));
}

#[test]
fn test_staleness_diff_modified_file() {
    let config = test_config();
    let mut manifest = empty_manifest(&config);
    manifest.files.push(info("note.md", "# Hello\nWorld"));
    let diff = compute_staleness_diff(&config, &manifest, &vec![scanned("note.md", "# Hello\nWorld\nNew line")]);
    match diff {
        StalenessDiff::Incremental { added, modified, removed } => {
            assert!(added.is_empty());
            assert_eq!(modified.len(), 1);
            assert!(removed.is_empty());
        }
        _ => panic!("Expected Incremental"),
    }
}

#[test]
fn test_staleness_diff_removed_file() {
    let config = test_config();
    let mut manifest = empty_manifest(&config);
    manifest.files.push(info("note1.md", "# Note 1"));
    manifest.files.push(info("note2.md", "# Note 2"));
    let diff = compute_staleness_diff(&config, &manifest, &vec![scanned("note1.md", "# Note 1")]);
    match diff {
        StalenessDiff::Incremental { added, modified, removed } => {
            assert!(added.is_empty());
            assert!(modified.is_empty());
            assert_eq!(removed.len(), 1);
        }
        _ => panic!("Expected Incremental with removed"),
    }
}

#[test]
fn test_staleness_diff_added_file() {
    let config = test_config();
    let mut manifest = empty_manifest(&config);
    manifest.files.push(info("note1.md", "# Note 1"));
    let current = vec![scanned("note1.md", "# Note 1"), scanned("note2.md", "# Note 2")];
    match compute_staleness_diff(&config, &manifest, &current) {
        StalenessDiff::Incremental { added, modified, removed } => {
            assert_eq!(added.len(), 1);
            assert!(modified.is_empty());
            assert!(removed.is_empty());
        }
        _ => panic!("Expected Incremental with added"),
    }
}

#[test]
fn test_staleness_diff_full_rebuild_model_changed() {
    let config = test_config();
    let mut manifest = empty_manifest(&config);
    manifest.model_id = "different/model".to_string();
    manifest.files.push(info("note.md", "content"));
    let diff = compute_staleness_diff(&config, &manifest, &vec![scanned("note.md", "content")]);
    assert!(matches!(diff, StalenessDiff::FullRebuild(RebuildReason::ModelChanged(_))));
}

#[test]
fn test_staleness_diff_full_rebuild_dimension_changed() {
    let config = test_config();
    let mut manifest = empty_manifest(&config);
    manifest.embedding_dim = 512;
    manifest.files.push(info("note.md", "content"));
    let diff = compute_staleness_diff(&config, &manifest, &vec![scanned("note.md", "content")]);
    assert!(matches!(diff, StalenessDiff::FullRebuild(RebuildReason::DimensionChanged(_))));
}

#[test]
fn test_staleness_diff_full_rebuild_chunk_config_changed() {
    let config = test_config();
    let mut manifest = empty_manifest(&config);
    manifest.chunk_config = ChunkConfigSnapshot { max_tokens: 1024, overlap_tokens: 64, min_chunk_size: 32, merge_threshold: 5 };
    manifest.files.push(info("note.md", "content"));
    let diff = compute_staleness_diff(&config, &manifest, &vec![scanned("note.md", "content")]);
    assert!(matches!(diff, StalenessDiff::FullRebuild(RebuildReason::ChunkConfigChanged)));
}

#[test]
fn test_staleness_diff_empty_index() {
    let config = test_config();
    let manifest = empty_manifest(&config);
    let diff = compute_staleness_diff(&config, &manifest, &Vec::new());
    assert!(matches!(diff, StalenessDiff::UpToDate));
}

#[test]
fn touching_a_file_without_changing_it_needs_no_rebuild() {
    let config = test_config();
    let mut manifest = empty_manifest(&config);
    let mut old = info("note.md", "same");
    old.mtime = 1;
    manifest.files.push(old);
    let diff = compute_staleness_diff(&config, &manifest, &vec![scanned("note.md", "same")]);
    assert!(matches!(diff, StalenessDiff::UpToDate));
}

#[test]
fn test_open_or_create_new() {
    let config = test_config();
    let index = SearchIndex::open_or_create(
        "/tmp/index".to_string(),
        None,
        config.search.model_id.clone(),
        config.search.embedding_dim,
        snapshot(&config),
    );
    assert_eq!(index.manifest().version, INDEX_FORMAT_VERSION);
    assert_eq!(index.manifest().chunk_count(), 0);
}

#[test]
fn test_open_or_create_existing() {
    let config = test_config();
    let mut saved = empty_manifest(&config);
    saved.has_embeddings = true;
    let index2 = SearchIndex::open_or_create(
        "/tmp/index".to_string(),
        Some(saved),
        config.search.model_id.clone(),
        config.search.embedding_dim,
        snapshot(&config),
    );
    assert!(index2.manifest().has_embeddings);
}

#[test]
fn test_open_or_create_version_mismatch() {
    let config = test_config();
    let mut old = empty_manifest(&config);
    old.version = 1;
    old.content_hash = "oldhash".to_string();
    let index = SearchIndex::open_or_create(
        "/tmp/index".to_string(),
        Some(old),
        config.search.model_id.clone(),
        config.search.embedding_dim,
        snapshot(&config),
    );
    assert_eq!(index.manifest().version, INDEX_FORMAT_VERSION);
    assert_eq!(index.manifest().chunk_count(), 0);
    assert_eq!(index.manifest().content_hash, "");
}

#[test]
fn chunk_files_are_named_after_their_ids() {
    assert_eq!(notectl::storage::chunk_file_name("notes/a.md:3:Intro"), "notes_a.md_3_Intro.txt");
    assert_eq!(notectl::storage::chunk_file_name("a\\b"), "a_b.txt");
}

#[test]
fn a_file_whose_mtime_is_recorded_counts_as_unchanged() {
    let config = test_config();
    let mut manifest = empty_manifest(&config);
    manifest.files.push(info("note.md", "old content"));
    let mut file = scanned("note.md", "new content");
    file.mtime = 1700000000;
    assert!(matches!(compute_staleness_diff(&config, &manifest, &vec![file]), StalenessDiff::UpToDate));
    let changed = scanned("note.md", "new content");
    match compute_staleness_diff(&config, &manifest, &vec![changed]) {
        StalenessDiff::Incremental { modified, .. } => assert_eq!(modified, vec!["/vault/note.md".to_string()]),
        _ => panic!("expected the file to be modified"),
    }
}

#[test]
fn changing_the_embedding_endpoint_needs_a_full_rebuild() {
    let mut config = test_config();
    let mut manifest = empty_manifest(&config);
    config.search.embedding_api_base = Some("http://localhost:8080/v1".to_string());
    assert!(matches!(
        compute_staleness_diff(&config, &manifest, &Vec::new()),
        StalenessDiff::FullRebuild(RebuildReason::EndpointChanged)
    ));
    manifest.embedding_api_base = Some("http://localhost:8080/v1".to_string());
    assert!(matches!(compute_staleness_diff(&config, &manifest, &Vec::new()), StalenessDiff::UpToDate));
}


fn vectors_header(count: u64, dim: u32) -> Vec<u8> {
    let mut b = count.to_le_bytes().to_vec();
    b.extend_from_slice(&dim.to_le_bytes());
    b
}

#[test]
fn vectors_layout_reads_the_header() {
    assert_eq!(vectors_layout(&[0u8; 11]), VectorsLayout::Empty);
    assert_eq!(vectors_layout(&vectors_header(0, 3)), VectorsLayout::Empty);
    assert_eq!(vectors_layout(&vectors_header(2, 0)), VectorsLayout::Empty);
    let mut b = vectors_header(2, 3);
    assert_eq!(vectors_layout(&b), VectorsLayout::Truncated { expected: 36 });
    b.extend_from_slice(&[0u8; 24]);
    assert_eq!(vectors_layout(&b), VectorsLayout::Vectors { count: 2, dim: 3 });
    let big = vectors_header(u64::MAX, u32::MAX);
    assert_eq!(
        vectors_layout(&big),
        VectorsLayout::Truncated { expected: 12 + (u64::MAX as u128) * (u32::MAX as u128) * 4 }
    );
    assert_eq!(vectors_layout(&vectors_header(0x0102_0304_0506_0708, 1)), VectorsLayout::Truncated {
        expected: 12 + 0x0102_0304_0506_0708u128 * 4
    });
}
