use notectl::config::{Config, SearchConfig};
use notectl::embeddings::download::{
    default_cache_dir, is_model_ready, models_dir_in, required_files, DownloadError, MODEL_REPO,
};
use notectl::embeddings::embed::{embed_batch_prefixed, TaskType as PromptTask};
use notectl::embeddings::model::{matryoshka_truncate, truncate_and_pad};
use notectl::embeddings::{apply_prefix, truncate, EmbedError, EmbeddingConfig, TaskType};

#[test]
fn test_default_cache_dir() {
    let cache = default_cache_dir();
    assert!(cache.contains("notectl/search/models"));
}

#[test]
fn test_error_display_auth() {
    let err = DownloadError::Auth("invalid token".to_string());
    let msg = err.message();
    assert!(msg.contains("HF_TOKEN"));
    assert!(msg.contains(MODEL_REPO));
}

#[test]
fn test_required_files_not_empty() {
    let files = required_files();
    assert!(!files.is_empty());
    assert!(files.len() >= 8);
}

#[test]
fn embed_test_task_prefix_query() {
    let task = PromptTask::RetrievalQuery;
    let prefixed = task.apply_prefix("test content", None);
    assert_eq!(prefixed, "task: search result | query: test content");
}

#[test]
fn embed_test_task_prefix_document_with_title() {
    let task = PromptTask::RetrievalDocument;
    let prefixed = task.apply_prefix("test content", Some("My Title"));
    assert_eq!(prefixed, "title: My Title | text: test content");
}

#[test]
fn embed_test_task_prefix_document_without_title() {
    let task = PromptTask::RetrievalDocument;
    let prefixed = task.apply_prefix("test content", None);
    assert_eq!(prefixed, "title: none | text: test content");
}

#[test]
fn test_embed_batch_title_pairing() {
    let texts: Vec<String> = vec![
        "text0".into(),
        "text1".into(),
        "text2".into(),
        "text3".into(),
        "text4".into(),
    ];
    let titles: Vec<Option<String>> = vec![
        Some("T0".into()),
        Some("T1".into()),
        Some("T2".into()),
        Some("T3".into()),
        Some("T4".into()),
    ];

    let prefixed = embed_batch_prefixed(&texts, &titles, PromptTask::RetrievalDocument);

    assert_eq!(prefixed.len(), 5);
    assert_eq!(prefixed[0], "title: T0 | text: text0");
    assert_eq!(prefixed[1], "title: T1 | text: text1");
    assert_eq!(prefixed[2], "title: T2 | text: text2");
    assert_eq!(prefixed[3], "title: T3 | text: text3");
    assert_eq!(prefixed[4], "title: T4 | text: text4");
}

#[test]
fn test_embed_batch_with_none_titles() {
    let texts: Vec<String> = vec!["x0".into(), "x1".into(), "x2".into(), "x3".into()];
    let titles: Vec<Option<String>> = vec![Some("X0".into()), None, Some("X2".into()), None];

    let prefixed = embed_batch_prefixed(&texts, &titles, PromptTask::RetrievalDocument);

    assert_eq!(prefixed.len(), 4);
    assert_eq!(prefixed[0], "title: X0 | text: x0");
    assert_eq!(prefixed[1], "title: none | text: x1");
    assert_eq!(prefixed[2], "title: X2 | text: x2");
    assert_eq!(prefixed[3], "title: none | text: x3");
}

#[test]
fn mod_test_task_prefix_query() {
    assert_eq!(
        apply_prefix("hello", None, TaskType::RetrievalQuery),
        "query: hello"
    );
}

#[test]
fn mod_test_task_prefix_document_with_title() {
    assert_eq!(
        apply_prefix("hello", Some("My Title"), TaskType::RetrievalDocument),
        "passage: My Title\nhello"
    );
}

#[test]
fn mod_test_task_prefix_document_without_title() {
    assert_eq!(
        apply_prefix("hello", None, TaskType::RetrievalDocument),
        "passage: hello"
    );
}

#[test]
fn test_truncate_and_pad_over_length_does_not_panic() {
    let input = vec![1u32; 2049];
    let result = truncate_and_pad(&input, 2048, 0);
    assert_eq!(result.len(), 2048);
    assert!(result.iter().all(|&x| x == 1));
}

#[test]
fn test_truncate_and_pad_under_length_pads() {
    let input = vec![1u32; 10];
    let result = truncate_and_pad(&input, 2048, 50256);
    assert_eq!(result.len(), 2048);
    assert!(result[..10].iter().all(|&x| x == 1));
    assert!(result[10..].iter().all(|&x| x == 50256));
}

#[test]
fn mod_test_default_embedding_config() {
    let config = EmbeddingConfig::default();
    assert_eq!(config.model_id, "");
    assert_eq!(config.embedding_dim, 4096);
    assert!(config.api_base.is_none());
    assert!(config.api_key.is_none());
}

#[test]
fn test_embedding_config_from_search_config_none_without_api_base() {
    let config = Config::default();
    assert!(config.search.embedding_api_base.is_none());
    assert!(EmbeddingConfig::from_search_config(&config.search).is_none());
}

#[test]
fn test_embedding_config_from_search_config_some_with_api_base() {
    let mut config = Config::default();
    config.search = SearchConfig {
        embedding_api_base: Some("https://example.com/v1".to_string()),
        ..config.search
    };

    let emb_config = EmbeddingConfig::from_search_config(&config.search).unwrap();
    assert_eq!(emb_config.model_id, config.search.model_id);
    assert_eq!(
        emb_config.embedding_dim,
        config.search.embedding_dim as usize
    );
    assert_eq!(
        emb_config.api_base.as_deref(),
        Some("https://example.com/v1")
    );
}

#[test]
fn embed_error_messages() {
    assert_eq!(EmbedError::Init("no api".to_string()).message(), "Embedding init error: no api");
    assert_eq!(EmbedError::Embed("timeout".to_string()).message(), "Embedding error: timeout");
    assert_eq!(DownloadError::NotFound("x".to_string()).message(), "Model not found: x");
    assert_eq!(DownloadError::IoError("disk".to_string()).message(), "IO error: disk");
}

#[test]
fn model_files_and_readiness() {
    let files = required_files();
    assert_eq!(files[0], "tokenizer.json");
    assert_eq!(files[7], "3_Dense/model.safetensors");
    assert!(is_model_ready(&files));
    assert!(!is_model_ready(&files[1..].to_vec()));
    assert!(!is_model_ready(&Vec::new()));
    assert_eq!(models_dir_in("/home/a/.cache"), "/home/a/.cache/notectl/search/models");
    assert_eq!(models_dir_in("/cache/"), "/cache/notectl/search/models");
}

#[test]
fn test_truncate_shorter_than_target() {
    let emb = vec![1.0f32, 2.0, 3.0];
    let truncated = truncate(emb, 10);
    assert_eq!(truncated.len(), 3);
}

#[test]
fn test_truncate_longer_than_target() {
    let emb = vec![1.0f32, 2.0, 3.0, 4.0, 5.0];
    let truncated = truncate(emb, 3);
    assert_eq!(truncated, vec![1.0, 2.0, 3.0]);
}

#[test]
fn test_matryoshka_truncate_exact() {
    let vec = vec![1.0f32, 2.0, 3.0, 4.0, 5.0];
    let result = matryoshka_truncate(&vec, 5);
    assert_eq!(result, vec);
}

#[test]
fn test_matryoshka_truncate_smaller() {
    let vec = vec![1.0f32, 2.0, 3.0, 4.0, 5.0];
    let result = matryoshka_truncate(&vec, 3);
    assert_eq!(result, vec![1.0, 2.0, 3.0]);
}

#[test]
fn test_matryoshka_truncate_larger() {
    let vec = vec![1.0f32, 2.0];
    let result = matryoshka_truncate(&vec, 5);
    assert_eq!(result, vec);
}
