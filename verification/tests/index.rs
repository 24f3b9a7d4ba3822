use notectl::chunker::{Chunk, Chunker, ChunkerConfig};
use notectl::config::Config;
use notectl::index::{
    batch_is_full, index_reset, IndexReset, chunk_ids_for_removed, chunk_title, embed_step, files_in_index_order, finish_build, index_file,
    up_to_date_summary, vector_dim, EmbedStep,
};
use notectl::search::{apply_overrides, freshen, mode_name, Freshen, SearchError, SearchMode};
use notectl::storage::{ChunkConfigSnapshot, FileInfo, SearchManifest, StalenessDiff};

fn manifest() -> SearchManifest {
    SearchManifest::new_empty(
        "m".to_string(),
        8,
        ChunkConfigSnapshot { max_tokens: 512, overlap_tokens: 64, min_chunk_size: 32, merge_threshold: 30 },
    )
}

fn default_chunker() -> Chunker {
    let mut sc = Config::default().search;
    sc.max_seq_tokens = 128;
    sc.chunk_overlap_tokens = 16;
    sc.min_chunk_tokens = 8;
    sc.merge_threshold = 5;
    Chunker::new(ChunkerConfig::from_search_config(&sc))
}

#[test]
fn test_build_processes_files_in_sorted_relative_path_order() {
    let long_enough = |label: &str| {
        format!(
            "# {label}\n\nThis note has enough content to produce at least one chunk from the chunker pipeline for the streaming order regression test."
        )
    };
    let base = "/tmp/vault";
    let walked = vec![
        format!("{base}/z.md"),
        format!("{base}/b/note.md"),
        format!("{base}/a/note.md"),
        format!("{base}/a-note.md"),
    ];
    let chunker = default_chunker();
    let mut source_files: Vec<String> = Vec::new();
    let mut chunks_produced = 0;
    for (rel, _full) in files_in_index_order(base, &walked) {
        let label = rel.trim_end_matches(".md").to_string();
        let indexed = index_file(&chunker, &rel, &long_enough(&label), 0);
        chunks_produced += indexed.chunks.len();
        source_files.extend(indexed.entries.iter().map(|e| e.source_file.clone()));
    }
    assert!(chunks_produced >= 4, "Expected at least one chunk per file");
    let mut sorted = source_files.clone();
    sorted.sort();
    assert_eq!(source_files, sorted, "manifest.chunks must be in ascending source_file string order");
    let a_note_pos = source_files.iter().position(|s| *s == "a-note.md").unwrap();
    let a_slash_note_pos = source_files.iter().position(|s| *s == "a/note.md").unwrap();
    assert!(a_note_pos < a_slash_note_pos, "'a-note.md' must sort before 'a/note.md' under string order");
}

#[test]
fn test_chunk_source_file_is_relative_not_absolute() {
    let base = "/tmp/vault";
    let walked = vec![format!("{base}/sub/note.md")];
    let content = "# Hello\n\nThis is a longer note with enough content to produce chunks from the chunker pipeline.";
    let chunker = default_chunker();
    let ordered = files_in_index_order(base, &walked);
    let indexed = index_file(&chunker, &ordered[0].0, content, 0);
    assert!(!indexed.entries.is_empty(), "Manifest should have chunks");
    for entry in &indexed.entries {
        assert!(
            !entry.source_file.starts_with(base) && !entry.source_file.contains("/tmp"),
            "Chunk source_file '{}' must not contain absolute temp dir path",
            entry.source_file,
        );
    }
}

#[test]
fn indexing_one_file_records_its_path_hash_and_chunks() {
    let chunker = Chunker::new(ChunkerConfig { min_chunk_size: 1, ..Default::default() });
    let indexed = index_file(&chunker, "notes/a.md", "# A\nalpha beta gamma", 42);
    assert_eq!(indexed.info.path, "notes/a.md");
    assert_eq!(indexed.info.mtime, 42);
    assert_eq!(indexed.info.content_hash, blake3::hash("# A\nalpha beta gamma".as_bytes()).to_hex().to_string());
    assert_eq!(indexed.chunks.len(), 1);
    assert_eq!(indexed.chunks[0].source_file, "notes/a.md");
    assert_eq!(indexed.entries[0].id, indexed.chunks[0].id);
    assert_eq!(indexed.info.chunk_ids, vec![indexed.chunks[0].id.clone()]);
    assert_eq!(indexed.entries[0].heading.as_deref(), Some("A"));
    let touched = index_file(&chunker, "notes/a.md", "# A\nalpha beta gamma", 43);
    assert_eq!(touched.info.content_hash, indexed.info.content_hash);
}

#[test]
fn removed_files_give_their_chunk_ids() {
    let mut m = manifest();
    m.files = vec![
        FileInfo { path: "a.md".to_string(), content_hash: "h".to_string(), mtime: 0, chunk_ids: vec!["a:1".to_string(), "a:2".to_string()] },
        FileInfo { path: "b.md".to_string(), content_hash: "h".to_string(), mtime: 0, chunk_ids: vec!["b:1".to_string()] },
        FileInfo { path: "c.md".to_string(), content_hash: "h".to_string(), mtime: 0, chunk_ids: vec!["c:1".to_string()] },
    ];
    let ids = chunk_ids_for_removed(&m, &vec!["c.md".to_string(), "a.md".to_string()]);
    assert_eq!(ids, vec!["a:1".to_string(), "a:2".to_string(), "c:1".to_string()]);
    assert!(chunk_ids_for_removed(&m, &vec![]).is_empty());
}

fn chunk(source: &str, path: &[&str]) -> Chunk {
    Chunk {
        id: format!("{source}:1:x"),
        source_file: source.to_string(),
        line_start: 1,
        line_end: 2,
        heading: None,
        heading_path: path.iter().map(|s| s.to_string()).collect(),
        text: "t".to_string(),
    }
}

#[test]
fn chunk_titles_come_from_headings_or_the_file_name() {
    assert_eq!(chunk_title(&chunk("notes/a.md", &["Top", "Sub"])).as_deref(), Some("Top > Sub"));
    assert_eq!(chunk_title(&chunk("notes/a.md", &["Only"])).as_deref(), Some("Only"));
    assert_eq!(chunk_title(&chunk("notes/my.note.md", &[])).as_deref(), Some("my.note"));
    assert_eq!(chunk_title(&chunk("README", &[])).as_deref(), Some("README"));
    assert_eq!(chunk_title(&chunk("dir/.hidden", &[])).as_deref(), Some(".hidden"));
}

#[test]
fn embedding_failures_degrade_only_before_the_first_batch() {
    assert!(matches!(embed_step(false, true), EmbedStep::Write { start: true }));
    assert!(matches!(embed_step(true, true), EmbedStep::Write { start: false }));
    assert!(matches!(embed_step(false, false), EmbedStep::Degrade));
    assert!(matches!(embed_step(true, false), EmbedStep::Fail));
}

#[test]
fn vector_dimension_comes_from_the_first_vector() {
    assert_eq!(vector_dim(Some(768)).ok(), Some(768));
    match vector_dim(None) {
        Err(SearchError::Other(m)) => assert_eq!(m, "embedding endpoint returned no vectors for a non-empty batch"),
        _ => panic!("expected an error"),
    }
}

#[test]
fn finished_builds_update_the_manifest() {
    let mut m = manifest();
    m.has_embeddings = true;
    let before = up_to_date_summary(&m);
    assert_eq!((before.files_indexed, before.chunks_produced, before.has_embeddings), (0, 0, true));

    let mut config = Config::default();
    config.search.model_id = "other".to_string();
    config.search.max_seq_tokens = 100;
    let files = vec![FileInfo { path: "a.md".to_string(), content_hash: "h".to_string(), mtime: 3, chunk_ids: vec![] }];
    let summary = finish_build(&mut m, &config, files, vec![], "hash".to_string(), "2024-01-01T00:00:00Z".to_string(), false);
    assert_eq!(summary.files_indexed, 1);
    assert_eq!(summary.chunks_produced, 0);
    assert!(!summary.has_embeddings);
    assert_eq!(summary.content_hash, "hash");
    assert_eq!(m.model_id, "other");
    assert_eq!(m.chunk_config.max_tokens, 100);
    assert_eq!(m.last_indexed.as_deref(), Some("2024-01-01T00:00:00Z"));
    assert_eq!(m.files.len(), 1);
}

#[test]
fn stale_indexes_are_rebuilt_unless_turned_off() {
    assert_eq!(freshen(&StalenessDiff::UpToDate, false), Freshen::UpToDate);
    let stale = StalenessDiff::Incremental { added: vec![], modified: vec![], removed: vec!["x".to_string()] };
    assert_eq!(freshen(&stale, false), Freshen::Rebuild);
    assert_eq!(freshen(&stale, true), Freshen::UseStale);
}

#[test]
fn modes_are_named_in_lower_case() {
    assert_eq!(mode_name(SearchMode::Hybrid), "hybrid");
    assert_eq!(mode_name(SearchMode::Dense), "dense");
    assert_eq!(mode_name(SearchMode::Sparse), "sparse");
}

#[test]
fn index_requests_override_model_and_dimension() {
    let mut config = Config::default();
    apply_overrides(&mut config, Some("custom/model".to_string()), Some(128));
    assert_eq!(config.search.model_id, "custom/model");
    assert_eq!(config.search.embedding_dim, 128);
    let mut config = Config::default();
    apply_overrides(&mut config, None, None);
    assert_eq!(config.search.model_id, "google/embedding-gemma-300m");
    assert_eq!(config.search.embedding_dim, 256);
}

#[test]
fn a_build_reacts_to_the_staleness_of_the_index() {
    let mut m = manifest();
    m.files = vec![
        FileInfo { path: "a.md".to_string(), content_hash: "h".to_string(), mtime: 0, chunk_ids: vec!["a:1".to_string()] },
        FileInfo { path: "b.md".to_string(), content_hash: "h".to_string(), mtime: 0, chunk_ids: vec!["b:1".to_string()] },
    ];
    assert!(matches!(index_reset(&StalenessDiff::UpToDate, &m), IndexReset::Keep));
    let rebuild = StalenessDiff::FullRebuild(notectl::storage::RebuildReason::ChunkConfigChanged);
    assert!(matches!(index_reset(&rebuild, &m), IndexReset::ClearAll));
    let incremental = StalenessDiff::Incremental { added: vec![], modified: vec![], removed: vec!["b.md".to_string()] };
    match index_reset(&incremental, &m) {
        IndexReset::RemoveChunks(ids) => assert_eq!(ids, vec!["b:1".to_string()]),
        _ => panic!("expected chunk removal"),
    }
    let none_removed = StalenessDiff::Incremental { added: vec!["/v/c.md".to_string()], modified: vec![], removed: vec![] };
    match index_reset(&none_removed, &m) {
        IndexReset::RemoveChunks(ids) => assert!(ids.is_empty()),
        _ => panic!("expected no removal"),
    }
    assert!(!batch_is_full(31));
    assert!(batch_is_full(32));
}
