use notectl::config::Config;
use notectl::tags::{
    collect_unique_tags, count_tags, list_tags_response, search_by_tags_response, ListTagsRequest,
    SearchByTagsRequest, TagCount, TagExtractor,
};

fn extractor() -> TagExtractor {
    TagExtractor::new(Config::default())
}

fn strings(items: &[&str]) -> Vec<String> {
    items.iter().map(|s| s.to_string()).collect()
}

fn file(path: &str, tags: &[&str]) -> (String, Vec<String>) {
    (path.to_string(), strings(tags))
}

#[test]
fn test_extract_frontmatter() {
    let extractor = extractor();

    let content = r#"---
title: My Document
tags:
  - rust
  - programming
---

# Content here
"#;

    let frontmatter = extractor.extract_frontmatter(content).unwrap();
    assert!(frontmatter.is_some());
    assert!(frontmatter.unwrap().contains("tags:"));
}

#[test]
fn frontmatter_is_the_text_between_the_fences() {
    let extractor = extractor();
    let fm = extractor.extract_frontmatter("---\na: 1\nb: 2\n---\nbody").unwrap();
    assert_eq!(fm.as_deref(), Some("a: 1\nb: 2"));
    assert_eq!(extractor.extract_frontmatter("--- \n  ---\nx").unwrap().as_deref(), Some(""));
    assert_eq!(extractor.extract_frontmatter("---\nno closing fence").unwrap(), None);
    assert_eq!(extractor.extract_frontmatter("").unwrap(), None);
    assert_eq!(extractor.extract_frontmatter("text\n---\na\n---").unwrap(), None);
}

#[test]
fn test_parse_tags_array() {
    let extractor = extractor();

    let frontmatter = r#"title: My Document
tags:
  - rust
  - programming
  - cli
"#;

    let tags = extractor.parse_tags_from_frontmatter(frontmatter).unwrap();
    assert_eq!(tags.len(), 3);
    assert!(tags.contains(&"rust".to_string()));
    assert!(tags.contains(&"programming".to_string()));
    assert!(tags.contains(&"cli".to_string()));
}

#[test]
fn test_parse_tags_single_string() {
    let extractor = extractor();

    let frontmatter = r#"title: My Document
tags: single-tag
"#;

    let tags = extractor.parse_tags_from_frontmatter(frontmatter).unwrap();
    assert_eq!(tags.len(), 1);
    assert_eq!(tags[0], "single-tag");
}

#[test]
fn non_text_tags_are_skipped_and_bad_yaml_is_an_error() {
    let extractor = extractor();
    let tags = extractor.parse_tags_from_frontmatter("tags:\n  - 3\n  - keep\n  - [a]\n").unwrap();
    assert_eq!(tags, strings(&["keep"]));
    assert_eq!(extractor.parse_tags_from_frontmatter("tags: 42\n").unwrap().len(), 0);
    assert_eq!(extractor.parse_tags_from_frontmatter("title: x\n").unwrap().len(), 0);
    assert!(extractor.parse_tags_from_frontmatter("tags: [unclosed\n").is_err());
}

#[test]
fn test_extract_tags_from_content() {
    let extractor = extractor();

    let content = r#"---
title: My Document
tags:
  - rust
  - programming
---

# My Document

Some content here.
"#;

    let tags = extractor.extract_tags_from_content(content).unwrap();
    assert_eq!(tags.len(), 2);
    assert!(tags.contains(&"rust".to_string()));
    assert!(tags.contains(&"programming".to_string()));
}

#[test]
fn test_no_frontmatter() {
    let extractor = extractor();

    let content = r#"# My Document

Some content here without frontmatter.
"#;

    let tags = extractor.extract_tags_from_content(content).unwrap();
    assert_eq!(tags.len(), 0);
}

#[test]
fn test_empty_tags_filtered() {
    let extractor = extractor();

    let frontmatter = r#"title: My Document
tags:
  - rust
  - ""
  - programming
  - "  "
  - cli
"#;

    let tags = extractor.parse_tags_from_frontmatter(frontmatter).unwrap();
    assert_eq!(tags.len(), 3);
    assert!(tags.contains(&"rust".to_string()));
    assert!(tags.contains(&"programming".to_string()));
    assert!(tags.contains(&"cli".to_string()));
    assert!(!tags.contains(&"".to_string()));
    assert!(!tags.contains(&"  ".to_string()));
}

#[test]
fn test_empty_string_tag_filtered() {
    let extractor = extractor();

    let frontmatter = r#"title: My Document
tags: ""
"#;

    let tags = extractor.parse_tags_from_frontmatter(frontmatter).unwrap();
    assert_eq!(tags.len(), 0);
}

#[test]
fn unique_tags_are_sorted_and_distinct() {
    let per_file = vec![strings(&["rust", "cli"]), strings(&["cli", "alpha", "rust"]), vec![]];
    assert_eq!(collect_unique_tags(&per_file), strings(&["alpha", "cli", "rust"]));
    assert!(collect_unique_tags(&vec![]).is_empty());
}

fn find<'a>(counts: &'a [TagCount], tag: &str) -> &'a TagCount {
    counts.iter().find(|t| t.tag == tag).unwrap()
}

#[test]
fn test_extract_tags_with_counts_single_file() {
    let counts = count_tags(&vec![strings(&["rust", "programming"])]);
    assert_eq!(counts.len(), 2);
    assert!(counts.iter().any(|t| t.tag == "rust" && t.document_count == 1));
    assert!(counts.iter().any(|t| t.tag == "programming" && t.document_count == 1));
}

#[test]
fn test_extract_tags_with_counts_multiple_files() {
    let counts = count_tags(&vec![strings(&["rust", "programming"]), strings(&["rust", "cli"])]);
    assert_eq!(find(&counts, "rust").document_count, 2);
    assert_eq!(find(&counts, "programming").document_count, 1);
    assert_eq!(find(&counts, "cli").document_count, 1);
    assert_eq!(counts[0].tag, "rust");
}

#[test]
fn counts_are_ordered_by_count_then_tag() {
    let counts = count_tags(&vec![
        strings(&["b", "c"]),
        strings(&["c", "a"]),
        strings(&["b", "c", "d"]),
    ]);
    let got: Vec<(String, usize)> = counts.iter().map(|t| (t.tag.clone(), t.document_count)).collect();
    assert_eq!(
        got,
        vec![
            ("c".to_string(), 3),
            ("b".to_string(), 2),
            ("a".to_string(), 1),
            ("d".to_string(), 1),
        ]
    );
}

#[test]
fn test_extract_tags_with_counts_duplicate_in_same_file() {
    let counts = count_tags(&vec![strings(&["rust", "rust", "programming"])]);
    assert_eq!(find(&counts, "rust").document_count, 1);
}

#[test]
fn test_search_by_tags_or_logic() {
    let files = vec![
        file("/v/file1.md", &["rust", "cli"]),
        file("/v/file2.md", &["python", "cli"]),
        file("/v/file3.md", &["java"]),
    ];
    let results = extractor().search_by_tags(&files, &strings(&["rust", "python"]), false);
    assert_eq!(results.len(), 2);
    assert!(results.iter().any(|f| f.file_name == "file1.md"));
    assert!(results.iter().any(|f| f.file_name == "file2.md"));
}

#[test]
fn test_search_by_tags_and_logic() {
    let files = vec![file("/v/file1.md", &["rust", "cli"]), file("/v/file2.md", &["rust"])];
    let results = extractor().search_by_tags(&files, &strings(&["rust", "cli"]), true);
    assert_eq!(results.len(), 1);
    assert_eq!(results[0].file_name, "file1.md");
}

#[test]
fn test_search_by_tags_case_insensitive() {
    let files = vec![file("/v/file1.md", &["Rust", "CLI"])];
    assert_eq!(extractor().search_by_tags(&files, &strings(&["rust"]), false).len(), 1);
    assert_eq!(extractor().search_by_tags(&files, &strings(&["RUST"]), false).len(), 1);
}

#[test]
fn test_search_by_tags_empty_result() {
    let files = vec![file("/v/file1.md", &["rust"])];
    assert!(extractor().search_by_tags(&files, &strings(&["nonexistent"]), false).is_empty());
}

#[test]
fn test_tagged_file_contains_all_tags() {
    let files = vec![file("/v/file1.md", &["rust", "cli", "tool"])];
    let results = extractor().search_by_tags(&files, &strings(&["rust"]), false);
    assert_eq!(results.len(), 1);
    assert_eq!(results[0].file_path, "/v/file1.md");
    assert_eq!(results[0].matched_tags, strings(&["rust"]));
    assert_eq!(results[0].all_tags, strings(&["rust", "cli", "tool"]));
}

#[test]
fn matched_tags_are_reported_lower_cased() {
    let files = vec![file("/v/a.md", &["Rust"])];
    let results = extractor().search_by_tags(&files, &strings(&["RUST"]), false);
    assert_eq!(results[0].matched_tags, strings(&["rust"]));
}

#[test]
fn tag_listing_filters_and_limits() {
    let counts = count_tags(&vec![strings(&["a", "b"]), strings(&["a", "c"]), strings(&["a", "b"])]);
    let request = ListTagsRequest { path: None, subpath: None, min_count: Some(2), limit: Some(1) };
    let response = list_tags_response(counts, &request);
    assert_eq!(response.total_unique_tags, 3);
    assert!(response.truncated);
    assert_eq!(response.tags.len(), 1);
    assert_eq!(response.tags[0].tag, "a");
    assert_eq!(response.tags[0].document_count, 3);

    let counts = count_tags(&vec![strings(&["a", "b"])]);
    let request = ListTagsRequest { path: None, subpath: None, min_count: None, limit: Some(5) };
    let response = list_tags_response(counts, &request);
    assert!(!response.truncated);
    assert_eq!(response.tags.len(), 2);
}

#[test]
fn tag_search_response_limits_files() {
    let files = vec![file("/v/a.md", &["x"]), file("/v/b.md", &["x"]), file("/v/c.md", &["x"])];
    let found = extractor().search_by_tags(&files, &strings(&["x"]), false);
    let request = SearchByTagsRequest {
        path: None,
        tags: strings(&["x"]),
        match_all: None,
        subpath: None,
        limit: Some(2),
    };
    let response = search_by_tags_response(found, &request);
    assert_eq!(response.total_count, 3);
    assert_eq!(response.files.len(), 2);
    assert_eq!(response.files[1].file_name, "b.md");
}
