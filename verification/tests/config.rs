use notectl::config::{default_daily_note_patterns, parse_uint, Config, SearchConfig, SearchEnv};

fn no_env() -> SearchEnv {
    SearchEnv {
        model_id: None,
        model_revision: None,
        embedding_dim: None,
        max_seq_tokens: None,
        chunk_overlap_tokens: None,
        min_chunk_tokens: None,
        merge_threshold: None,
        dense_weights: None,
        sparse_weights: None,
        cache_dir: None,
        max_results: None,
        exclude_headings: None,
        embedding_api_base: None,
        embedding_api_key: None,
    }
}

#[test]
fn config_test_should_exclude_substring() {
    let config = Config {
        exclude_paths: vec!["Template".to_string(), "Recipes".to_string()],
        daily_note_patterns: default_daily_note_patterns(),
        search: SearchConfig::default(),
    };

    assert!(config.should_exclude("/vault/Templates/note.md"));
    assert!(config.should_exclude("/vault/Recipes/recipe.md"));
    assert!(!config.should_exclude("/vault/Notes/note.md"));
}

#[test]
fn config_test_should_exclude_glob_pattern() {
    let config = Config {
        exclude_paths: vec!["**/Template/**".to_string(), "**/Recipes/**".to_string()],
        daily_note_patterns: default_daily_note_patterns(),
        search: SearchConfig::default(),
    };

    assert!(config.should_exclude("/vault/Template/note.md"));
    assert!(config.should_exclude("/vault/Recipes/recipe.md"));
    assert!(config.should_exclude("/vault/sub/Template/note.md"));
    assert!(!config.should_exclude("/vault/Notes/note.md"));
}

#[test]
fn config_test_default_config() {
    let config = Config::default();
    assert!(config.exclude_paths.is_empty());
    assert!(!config.should_exclude("/vault/anything.md"));
}

#[test]
fn config_test_merge_from_env() {
    let mut config = Config {
        exclude_paths: vec!["Template".to_string()],
        daily_note_patterns: default_daily_note_patterns(),
        search: SearchConfig::default(),
    };

    config.merge_from_env(&Some("Archive, Backup, **/tmp/**".to_string()), &None);

    assert_eq!(config.exclude_paths.len(), 4);
    assert!(config.exclude_paths.contains(&"Template".to_string()));
    assert!(config.exclude_paths.contains(&"Archive".to_string()));
    assert!(config.exclude_paths.contains(&"Backup".to_string()));
    assert!(config.exclude_paths.contains(&"**/tmp/**".to_string()));
    assert_eq!(config.daily_note_patterns, default_daily_note_patterns());
}

#[test]
fn config_test_env_with_empty_patterns() {
    let mut config = Config::default();
    config.merge_from_env(&Some("Archive, , Backup,  ,".to_string()), &None);

    assert_eq!(config.exclude_paths.len(), 2);
    assert!(config.exclude_paths.contains(&"Archive".to_string()));
    assert!(config.exclude_paths.contains(&"Backup".to_string()));
}

#[test]
fn daily_patterns_from_env_are_appended() {
    let mut config = Config::default();
    config.merge_from_env(&None, &Some(" Journal/YYYY-MM-DD.md ,".to_string()));
    assert_eq!(
        config.daily_note_patterns,
        vec![
            "YYYY-MM-DD.md".to_string(),
            "0. PeriodicNotes/YYYY/Daily/MM/YYYY-MM-DD.md".to_string(),
            "Journal/YYYY-MM-DD.md".to_string(),
        ]
    );
    assert!(config.exclude_paths.is_empty());
}

#[test]
fn test_search_config_default() {
    let config = Config::default();
    assert_eq!(config.search.model_id, "google/embedding-gemma-300m");
    assert_eq!(config.search.embedding_dim, 256);
    assert_eq!(config.search.max_seq_tokens, 512);
    assert_eq!(config.search.chunk_overlap_tokens, 64);
    assert_eq!(config.search.min_chunk_tokens, 32);
    assert_eq!(config.search.max_results, 50);
    assert_eq!(config.search.merge_threshold, 30);
    assert_eq!(config.search.cache_dir, ".notectl/search");
    assert!(config.search.model_revision.is_none());
    assert!(config.search.dense_weights.is_none());
    assert!(config.search.sparse_weights.is_none());
}

#[test]
fn test_search_config_all_env_vars() {
    let mut env = no_env();
    env.model_id = Some("custom/model".to_string());
    env.model_revision = Some("v1.0".to_string());
    env.embedding_dim = Some("512".to_string());
    env.max_seq_tokens = Some("1024".to_string());
    env.chunk_overlap_tokens = Some("128".to_string());
    env.min_chunk_tokens = Some("16".to_string());
    env.merge_threshold = Some("50".to_string());
    env.dense_weights = Some("/path/to/dense.bin".to_string());
    env.sparse_weights = Some("/path/to/sparse.bin".to_string());
    env.cache_dir = Some("/custom/cache".to_string());
    env.max_results = Some("100".to_string());

    let mut config = Config::default();
    config.merge_search_from_env(&env);

    assert_eq!(config.search.model_id, "custom/model");
    assert_eq!(config.search.model_revision.as_deref(), Some("v1.0"));
    assert_eq!(config.search.embedding_dim, 512);
    assert_eq!(config.search.max_seq_tokens, 1024);
    assert_eq!(config.search.chunk_overlap_tokens, 128);
    assert_eq!(config.search.min_chunk_tokens, 16);
    assert_eq!(config.search.merge_threshold, 50);
    assert_eq!(config.search.dense_weights.as_deref(), Some("/path/to/dense.bin"));
    assert_eq!(config.search.sparse_weights.as_deref(), Some("/path/to/sparse.bin"));
    assert_eq!(config.search.cache_dir, "/custom/cache");
    assert_eq!(config.search.max_results, 100);
}

#[test]
fn unparsable_numbers_keep_their_setting() {
    let mut env = no_env();
    env.embedding_dim = Some("lots".to_string());
    env.max_results = Some("-3".to_string());
    env.max_seq_tokens = Some("".to_string());
    let mut config = Config::default();
    config.merge_search_from_env(&env);
    assert_eq!(config.search.embedding_dim, 256);
    assert_eq!(config.search.max_results, 50);
    assert_eq!(config.search.max_seq_tokens, 512);
}

#[test]
fn test_should_exclude_heading() {
    let config = SearchConfig {
        exclude_headings: vec!["Query".to_string(), "daily tasks".to_string()],
        ..Default::default()
    };

    assert!(config.should_exclude_heading("Query"));
    assert!(config.should_exclude_heading("QUERY"));
    assert!(config.should_exclude_heading("query"));
    assert!(config.should_exclude_heading("My Dataview Query Block"));
    assert!(config.should_exclude_heading("Daily Tasks"));
    assert!(!config.should_exclude_heading("Notes"));
    assert!(!config.should_exclude_heading("Introduction"));
}

#[test]
fn test_exclude_headings_env_var() {
    let mut env = no_env();
    env.exclude_headings = Some("Query, Daily Tasks, Template".to_string());
    let mut config = Config::default();
    config.merge_search_from_env(&env);

    assert!(config.search.exclude_headings.contains(&"Query".to_string()));
    assert!(config.search.exclude_headings.contains(&"Daily Tasks".to_string()));
    assert!(config.search.exclude_headings.contains(&"Template".to_string()));
}

#[test]
fn numbers_parse_within_their_bound() {
    assert_eq!(parse_uint("512", u32::MAX as u64), Some(512));
    assert_eq!(parse_uint(" 7 ", 100), None);
    assert_eq!(parse_uint("4294967296", u32::MAX as u64), None);
    assert_eq!(parse_uint("+1", 100), Some(1));
    assert_eq!(parse_uint("1x", 100), None);
}

#[test]
fn test_config_default() {
    let config = SearchConfig::default();
    assert_eq!(config.max_results, 50);
}

#[test]
fn test_config_resolve_absolute() {
    let config = SearchConfig { cache_dir: "/tmp/search".to_string(), ..Default::default() };
    assert_eq!(config.resolve_index_dir("/base"), "/tmp/search");
}

#[test]
fn test_config_resolve_relative() {
    let config = SearchConfig { cache_dir: ".notectl/search".to_string(), ..Default::default() };
    assert_eq!(config.resolve_index_dir("/base"), "/base/.notectl/search");
    assert_eq!(config.resolve_index_dir("/base/"), "/base/.notectl/search");
}

#[test]
fn file_and_environment_exclusions_both_apply_after_merging() {
    let mut config = Config {
        exclude_paths: vec!["Template".to_string()],
        daily_note_patterns: default_daily_note_patterns(),
        search: SearchConfig::default(),
    };
    config.merge_from_env(&Some("Recipes, **/Archive/**".to_string()), &None);
    assert!(config.should_exclude("Template/day.md"));
    assert!(config.should_exclude("food/Recipes/soup.md"));
    assert!(config.should_exclude("notes/Archive/old.md"));
    assert!(!config.should_exclude("notes/current.md"));
}
