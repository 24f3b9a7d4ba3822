use notectl::chunker::{Chunk, Chunker, ChunkerConfig};
use notectl::config::SearchConfig;
use notectl::tokenize;
use std::collections::{HashMap, HashSet};

fn heading_paths(chunks: &[Chunk]) -> HashMap<&str, Vec<String>> {
    let mut heading_to_path: HashMap<&str, Vec<String>> = HashMap::new();
    for chunk in chunks {
        if let Some(ref h) = chunk.heading {
            heading_to_path.insert(h.as_str(), chunk.heading_path.clone());
        }
    }
    heading_to_path
}

fn true_line(content: &str, word: &str) -> usize {
    content.lines().position(|l| l.split_whitespace().any(|w| w == word)).unwrap()
}

#[test]
fn test_chunk_file_basic() {
    let config = ChunkerConfig { min_chunk_size: 5, ..Default::default() };
    let chunker = Chunker::new(config);
    let content = "# My Note\nHello world. This is a longer piece of text for testing chunking.";
    let chunks = chunker.chunk_file("test.md", content);

    assert!(!chunks.is_empty());
    assert!(chunks.iter().any(|c| c.text.contains("Hello world")));
}

#[test]
fn test_chunk_file_with_sections() {
    let config = ChunkerConfig { min_chunk_size: 5, ..Default::default() };
    let chunker = Chunker::new(config);
    let content = r#"# Title
## Section 1
Some content for section one.

## Section 2
Different content here for section two.
"#;
    let chunks = chunker.chunk_file("test.md", content);

    assert!(!chunks.is_empty());
    assert!(chunks.iter().all(|c| !c.heading_path.is_empty() || c.heading.is_some()));
}

#[test]
fn test_long_section_splitting() {
    let config = ChunkerConfig { max_tokens: 20, overlap_tokens: 5, min_chunk_size: 5, ..Default::default() };
    let chunker = Chunker::new(config.clone());

    let long_text: String = (0..100).map(|i| format!("word{}", i)).collect::<Vec<_>>().join(" ");
    let content = format!("# Long Section\n{}", long_text);

    let chunks = chunker.chunk_file("test.md", &content);

    assert!(chunks.len() > 1);
    for chunk in &chunks {
        let tokens = tokenize::count_tokens(&chunk.text);
        assert!(
            tokens <= config.max_tokens + config.overlap_tokens,
            "Chunk has {} tokens, expected <= {}",
            tokens,
            config.max_tokens + config.overlap_tokens
        );
    }
}

#[test]
fn test_tiny_section_merging() {
    let config = ChunkerConfig { merge_threshold: 10, max_tokens: 200, min_chunk_size: 5, ..Default::default() };
    let chunker = Chunker::new(config);

    let content = r#"# Title
## Small One
a b c d e f g h i j k l m n o p q r s t u v w x y z

## Another Small
x y z a b c d e f g h i j k l m n o p q r s t u v w x y z
"#;
    let chunks = chunker.chunk_file("test.md", content);

    assert!(!chunks.is_empty());
}

#[test]
fn test_heading_path_tracking() {
    let config = ChunkerConfig { merge_threshold: 0, min_chunk_size: 1, ..Default::default() };
    let chunker = Chunker::new(config);
    let content = r#"# Main Title
## Chapter 1
### Section 1.1
Some content for section 1.1 to make it non-trivial.

## Chapter 2
Some content for chapter 2 as well.
"#;
    let chunks = chunker.chunk_file("test.md", content);
    let heading_to_path = heading_paths(&chunks);

    let s11_path = heading_to_path.get("Section 1.1").unwrap();
    assert_eq!(s11_path, &["Main Title".to_string(), "Chapter 1".to_string()]);

    let ch2_path = heading_to_path.get("Chapter 2").unwrap();
    assert_eq!(ch2_path, &["Main Title".to_string()]);
}

#[test]
fn test_heading_path_sibling_sections() {
    let config = ChunkerConfig { merge_threshold: 0, min_chunk_size: 1, ..Default::default() };
    let chunker = Chunker::new(config);
    let content = r#"# Alpha
## Beta
Some beta content here for testing.

# Charlie
Charlie content goes here for testing.
"#;
    let chunks = chunker.chunk_file("test.md", content);
    let heading_to_path = heading_paths(&chunks);

    let charlie_path = heading_to_path.get("Charlie").unwrap();
    assert_eq!(charlie_path, &Vec::<String>::new());

    let beta_path = heading_to_path.get("Beta").unwrap();
    assert_eq!(beta_path, &["Alpha".to_string()]);
}

#[test]
fn test_chunk_by_size_fallback() {
    let config = ChunkerConfig { min_chunk_size: 5, ..Default::default() };
    let chunker = Chunker::new(config);
    let content = "word1 word2 word3 word4 word5 word6 word7 word8 word9 word10 word11 word12";
    let chunks = chunker.chunk_file("test.md", content);

    assert!(!chunks.is_empty());
}

#[test]
fn test_empty_content() {
    let config = ChunkerConfig::default();
    let chunker = Chunker::new(config);
    let chunks = chunker.chunk_file("empty.md", "");
    assert!(chunks.is_empty());
}

#[test]
fn test_chunker_config_from_search_config() {
    let sc = SearchConfig {
        max_seq_tokens: 1024,
        chunk_overlap_tokens: 128,
        min_chunk_tokens: 64,
        merge_threshold: 50,
        ..Default::default()
    };

    let cc = ChunkerConfig::from_search_config(&sc);
    assert_eq!(cc.max_tokens, 1024);
    assert_eq!(cc.overlap_tokens, 128);
    assert_eq!(cc.min_chunk_size, 64);
    assert_eq!(cc.merge_threshold, 50);
}

#[test]
fn test_chunk_by_size_fallback_multi_line_line_numbers() {
    let config = ChunkerConfig { max_tokens: 4, min_chunk_size: 3, ..Default::default() };
    let chunker = Chunker::new(config);

    let mut lines: Vec<String> = Vec::new();
    for i in 0..20 {
        lines.push(format!("wordA{} wordB{}", i, i));
    }
    let content = lines.join("\n");

    let chunks = chunker.chunk_file("test.md", &content);
    assert!(chunks.len() > 1, "Expected multiple chunks from multi-line fallback content");

    for w in chunks.windows(2) {
        assert!(
            w[1].line_start >= w[0].line_start,
            "line_start must be non-decreasing: {:?} then {:?}",
            w[0].line_start,
            w[1].line_start
        );
    }

    for chunk in &chunks {
        assert!(chunk.line_end > chunk.line_start, "line_end must be > line_start: chunk {:?}", chunk.id);
    }

    assert_eq!(chunks[0].line_start, 0, "First chunk should start at line 0");

    let expected_last_line = content.lines().count().saturating_sub(1);
    assert_eq!(
        chunks.last().unwrap().line_end,
        expected_last_line,
        "Last chunk should extend to last line of content"
    );
}

#[test]
fn test_long_section_split_distinct_line_spans() {
    let config = ChunkerConfig { max_tokens: 10, overlap_tokens: 0, min_chunk_size: 5, merge_threshold: 0 };
    let chunker = Chunker::new(config);

    let mut section_lines: Vec<String> = Vec::new();
    for i in 0..30 {
        section_lines.push(format!("wordA{} wordB{} wordC{}", i, i, i));
    }
    let section_content = section_lines.join("\n");
    let content = format!("# Big Section\n{}", section_content);

    let chunks = chunker.chunk_file("test.md", &content);

    let section_chunks: Vec<_> =
        chunks.iter().filter(|c| c.heading.as_deref() == Some("Big Section")).collect();

    assert!(
        section_chunks.len() >= 3,
        "Expected at least 3 split chunks, got {} (total chunks: {})",
        section_chunks.len(),
        chunks.len()
    );

    let line_starts: Vec<usize> = section_chunks.iter().map(|c| c.line_start).collect();
    let unique_starts: HashSet<usize> = line_starts.iter().copied().collect();
    assert_eq!(unique_starts.len(), line_starts.len(), "All chunks must have distinct line_start values");

    let line_ends: Vec<usize> = section_chunks.iter().map(|c| c.line_end).collect();
    let unique_ends: HashSet<usize> = line_ends.iter().copied().collect();
    assert_eq!(unique_ends.len(), line_ends.len(), "All chunks must have distinct line_end values");

    for w in section_chunks.windows(2) {
        assert!(w[1].line_start >= w[0].line_start);
    }

    assert_eq!(section_chunks[0].line_start, 1, "First chunk of section should start at file line 1 (0-indexed)");
}

#[test]
fn test_long_section_split_overlap_nonzero_line_spans() {
    let config = ChunkerConfig { max_tokens: 10, overlap_tokens: 3, min_chunk_size: 5, merge_threshold: 0 };
    let chunker = Chunker::new(config.clone());

    let mut section_lines: Vec<String> = Vec::new();
    for i in 0..30 {
        section_lines.push(format!("w{:02} x{:02} y{:02}", i, i, i));
    }
    let section_content = section_lines.join("\n");
    let content = format!("# Big Section\n{}", section_content);

    let chunks = chunker.chunk_file("test.md", &content);

    let section_chunks: Vec<_> =
        chunks.iter().filter(|c| c.heading.as_deref() == Some("Big Section")).collect();

    assert!(section_chunks.len() >= 3, "Expected at least 3 split chunks, got {}", section_chunks.len());

    for chunk in &section_chunks {
        let first_word = chunk.text.split_whitespace().next().unwrap();
        let last_word = chunk.text.split_whitespace().last().unwrap();
        assert_eq!(chunk.line_start, true_line(&content, first_word), "chunk {:?}", chunk.id);
        assert_eq!(chunk.line_end, true_line(&content, last_word), "chunk {:?}", chunk.id);
    }

    for w in section_chunks.windows(2) {
        assert!(w[1].line_start >= w[0].line_start);
    }
}

#[test]
fn test_merged_section_split_overlap_nonzero_line_spans() {
    let config = ChunkerConfig { max_tokens: 10, overlap_tokens: 3, min_chunk_size: 3, merge_threshold: 8 };
    let chunker = Chunker::new(config);

    let content = r"# Title
## Small A
sa0 sa1 sa2
sa3 sa4 sa5

## Small B
sb0 sb1 sb2
sb3 sb4 sb5
";
    let chunks = chunker.chunk_file("test.md", content);

    let merged_chunks: Vec<_> = chunks.iter().filter(|c| c.heading.as_deref() == Some("Small A")).collect();

    assert!(
        merged_chunks.len() >= 2,
        "Expected at least 2 chunks from merged sections, got {}. Chunks: {:?}",
        merged_chunks.len(),
        merged_chunks.iter().map(|c| &c.text).collect::<Vec<_>>()
    );

    for chunk in &merged_chunks {
        let first_word = chunk.text.split_whitespace().next().unwrap();
        let last_word = chunk.text.split_whitespace().last().unwrap();
        assert_eq!(chunk.line_start, true_line(content, first_word), "chunk {:?}", chunk.id);
        assert_eq!(chunk.line_end, true_line(content, last_word), "chunk {:?}", chunk.id);
    }

    for w in merged_chunks.windows(2) {
        assert!(w[1].line_start >= w[0].line_start);
    }

    let total_lines = content.lines().count();
    for (i, chunk) in merged_chunks.iter().enumerate() {
        assert!(chunk.line_start < total_lines, "Chunk {} line_start={}", i, chunk.line_start);
        assert!(chunk.line_end <= total_lines, "Chunk {} line_end={}", i, chunk.line_end);
        assert!(chunk.line_end > chunk.line_start, "Chunk {} has invalid span", i);
    }

    assert_eq!(merged_chunks[0].line_start, 2);
}

#[test]
fn every_chunk_names_its_file() {
    let chunker = Chunker::new(ChunkerConfig { min_chunk_size: 1, merge_threshold: 0, ..Default::default() });
    let chunks = chunker.chunk_file("notes/a.md", "# A\nalpha beta\n# B\ngamma delta");
    assert_eq!(chunks.len(), 2);
    for chunk in &chunks {
        assert_eq!(chunk.source_file, "notes/a.md");
        assert!(chunk.id.starts_with("notes/a.md:"));
    }
    assert_eq!(chunks[0].heading.as_deref(), Some("A"));
    assert_eq!(chunks[1].heading.as_deref(), Some("B"));
}

#[test]
fn tiny_chunks_are_dropped() {
    let chunker = Chunker::new(ChunkerConfig { min_chunk_size: 5, merge_threshold: 0, ..Default::default() });
    let chunks = chunker.chunk_file("a.md", "# A\nx\n# B\none two three four five six");
    assert_eq!(chunks.len(), 1);
    assert_eq!(chunks[0].heading.as_deref(), Some("B"));
}

#[test]
fn split_section_lines_run_forward() {
    let config = ChunkerConfig { max_tokens: 8, overlap_tokens: 3, min_chunk_size: 1, merge_threshold: 0 };
    let chunker = Chunker::new(config);
    let mut body = String::new();
    for line in 0..12 {
        body.push_str(&format!("w{line}a w{line}b w{line}c\n"));
    }
    let content = format!("# Title\n{body}");
    let chunks = chunker.chunk_file("notes/split.md", &content);
    assert!(chunks.len() > 2);
    for c in &chunks {
        assert!(c.line_start <= c.line_end, "{:?}", (c.line_start, c.line_end));
    }
    for w in chunks.windows(2) {
        assert!(w[0].line_start <= w[1].line_start);
    }
    assert_eq!(chunks[0].line_start, 1);
}
