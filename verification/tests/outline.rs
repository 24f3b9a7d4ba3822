use notectl::error::INVALID_PARAMS;
use notectl::outline::{validate_levels, Heading, OutlineExtractor, SearchHeadingsRequest};

fn create_test_extractor() -> OutlineExtractor {
    OutlineExtractor::new()
}

fn one_file(name: &str, content: &str) -> Vec<(String, String, String)> {
    vec![(format!("/vault/{name}"), name.to_string(), content.to_string())]
}

#[test]
fn test_h1_heading() {
    let extractor = create_test_extractor();
    let heading = extractor.parse_heading("# Title", 1);

    assert!(heading.is_some());
    let h = heading.unwrap();
    assert_eq!(h.title, "Title");
    assert_eq!(h.level, 1);
    assert_eq!(h.line_number, 1);
}

#[test]
fn test_h6_heading() {
    let extractor = create_test_extractor();
    let heading = extractor.parse_heading("###### Deep Title", 1);

    assert!(heading.is_some());
    let h = heading.unwrap();
    assert_eq!(h.title, "Deep Title");
    assert_eq!(h.level, 6);
}

#[test]
fn test_heading_with_obsidian_id() {
    let extractor = create_test_extractor();
    let heading = extractor.parse_heading("## Title {#custom-id}", 1);

    assert!(heading.is_some());
    let h = heading.unwrap();
    assert_eq!(h.title, "Title");
    assert_eq!(h.level, 2);
}

#[test]
fn test_not_a_heading_no_space() {
    let extractor = create_test_extractor();
    assert!(extractor.parse_heading("#NoSpace", 1).is_none());
}

#[test]
fn test_too_many_hashes() {
    let extractor = create_test_extractor();
    assert!(extractor.parse_heading("####### Too many", 1).is_none());
}

#[test]
fn test_regular_text() {
    let extractor = create_test_extractor();
    assert!(extractor.parse_heading("Just some text", 1).is_none());
}

#[test]
fn test_heading_with_unicode() {
    let extractor = create_test_extractor();
    let heading = extractor.parse_heading("## 日本語タイトル", 1);

    assert!(heading.is_some());
    let h = heading.unwrap();
    assert_eq!(h.title, "日本語タイトル");
}

#[test]
fn heading_titles_are_trimmed_and_keep_their_line() {
    let extractor = create_test_extractor();
    let h = extractor.parse_heading("###   Spaced out   ", 42).unwrap();
    assert_eq!(h.title, "Spaced out");
    assert_eq!(h.level, 3);
    assert_eq!(h.line_number, 42);
    assert!(h.children.is_empty());
    assert!(extractor.parse_heading("#", 1).is_none());
    assert!(extractor.parse_heading(" # Indented", 1).is_none());
}

#[test]
fn test_simple_document() {
    let extractor = create_test_extractor();
    let content = r"# Title
## Section 1
Some text
### Subsection
More text
## Section 2
Final text";

    let headings = extractor.extract_headings(content);
    assert_eq!(headings.len(), 4);
    assert_eq!(headings[0].title, "Title");
    assert_eq!(headings[0].level, 1);
    assert_eq!(headings[1].title, "Section 1");
    assert_eq!(headings[1].level, 2);
    assert_eq!(headings[2].line_number, 4);
    assert_eq!(headings[3].line_number, 6);
}

#[test]
fn test_headings_in_code_blocks_ignored() {
    let extractor = create_test_extractor();
    let content = r"# Real Heading
```markdown
# Fake Heading in code
```
## Another Real Heading";

    let headings = extractor.extract_headings(content);
    assert_eq!(headings.len(), 2);
    assert_eq!(headings[0].title, "Real Heading");
    assert_eq!(headings[1].title, "Another Real Heading");
}

#[test]
fn test_nested_code_blocks() {
    let extractor = create_test_extractor();
    let content = r"# Real Heading
```
Some code
~~~
# Inside nested
~~~
```
## After Code";

    let headings = extractor.extract_headings(content);
    assert_eq!(headings.len(), 2);
}

#[test]
fn test_simple_hierarchy() {
    let extractor = create_test_extractor();
    let content = r"# Title
## Section 1
### Subsection 1.1
## Section 2";

    let flat_headings = extractor.extract_headings(content);
    let hierarchical = extractor.build_hierarchy(&flat_headings);

    assert_eq!(hierarchical.len(), 1);
    assert_eq!(hierarchical[0].title, "Title");
    assert_eq!(hierarchical[0].children.len(), 2);
    assert_eq!(hierarchical[0].children[0].title, "Section 1");
    assert_eq!(hierarchical[0].children[0].children.len(), 1);
}

#[test]
fn test_level_skipping() {
    let extractor = create_test_extractor();
    let content = r"# Title
### Deep Section
#### Deeper";

    let flat_headings = extractor.extract_headings(content);
    let hierarchical = extractor.build_hierarchy(&flat_headings);

    assert_eq!(hierarchical.len(), 1);
    assert_eq!(hierarchical[0].children.len(), 1);
}

#[test]
fn hierarchy_starts_a_new_root_at_a_shallower_heading() {
    let extractor = create_test_extractor();
    let flat = extractor.extract_headings("## A\n### B\n# C\n## D");
    let tree = extractor.build_hierarchy(&flat);
    assert_eq!(tree.len(), 2);
    assert_eq!(tree[0].title, "A");
    assert_eq!(tree[0].children[0].title, "B");
    assert_eq!(tree[1].title, "C");
    assert_eq!(tree[1].children[0].title, "D");
    let outline = extractor.get_outline("## A\n### B\n# C\n## D", true);
    assert_eq!(outline.len(), 2);
    assert_eq!(extractor.get_outline("## A\n### B\n# C\n## D", false).len(), 4);
}

#[test]
fn test_get_section_basic() {
    let extractor = create_test_extractor();
    let content = r"# Title
## Target Section
Content here
More content
## Next Section
Other content";

    let sections = extractor.get_section(content, "Target Section", false);
    assert_eq!(sections.len(), 1);
    assert_eq!(sections[0].content, "Content here\nMore content");
    assert_eq!(sections[0].start_line, 2);
    assert_eq!(sections[0].end_line, 4);
}

#[test]
fn test_get_section_with_subsections() {
    let extractor = create_test_extractor();
    let content = r"# Title
## Target Section
Content
### Subsection
Sub content
## Next Section
Other";

    let sections = extractor.get_section(content, "Target Section", true);
    assert_eq!(sections.len(), 1);
    assert!(sections[0].content.contains("Sub content"));
}

#[test]
fn test_get_section_without_subsections() {
    let extractor = create_test_extractor();
    let content = r"# Title
## Target Section
Content
### Subsection
Sub content
## Next Section
Other";

    let sections = extractor.get_section(content, "Target Section", false);
    assert_eq!(sections.len(), 1);
    assert!(!sections[0].content.contains("Sub content"));
}

#[test]
fn test_multiple_matching_sections() {
    let extractor = create_test_extractor();
    let content = r"# Title
## Duplicate
First content
## Other
Different
## Duplicate
Second content";

    let sections = extractor.get_section(content, "Duplicate", false);
    assert_eq!(sections.len(), 2);
    assert_eq!(sections[0].content, "First content");
    assert_eq!(sections[1].content, "Second content");
}

#[test]
fn section_titles_match_ignoring_case() {
    let extractor = create_test_extractor();
    let sections = extractor.get_section("# Intro\ntext\n# Other", "intro", false);
    assert_eq!(sections.len(), 1);
    assert_eq!(sections[0].heading.title, "Intro");
    assert_eq!(sections[0].content, "text");
    assert!(extractor.get_section("# Intro\ntext", "Missing", false).is_empty());
}

#[test]
fn test_search_across_files() {
    let extractor = create_test_extractor();
    let mut files = one_file("file1.md", "# Introduction\n## Search Target");
    files.extend(one_file("file2.md", "## Other Section\n# Search Target"));

    let matches = extractor.search_headings(&files, "Search Target", None, None, None);
    assert_eq!(matches.len(), 2);
    assert_eq!(matches[0].file_name, "file1.md");
    assert_eq!(matches[1].file_path, "/vault/file2.md");
}

#[test]
fn test_search_with_level_filter() {
    let extractor = create_test_extractor();
    let files = one_file("file.md", "# Target\n## Target\n### Target");

    let matches = extractor.search_headings(&files, "Target", Some(2), Some(2), None);
    assert_eq!(matches.len(), 1);
    assert_eq!(matches[0].heading.level, 2);
}

#[test]
fn test_search_limit() {
    let extractor = create_test_extractor();
    let files = one_file("file.md", "# Target 1\n# Target 2\n# Target 3");

    let matches = extractor.search_headings(&files, "Target", None, None, Some(2));
    assert_eq!(matches.len(), 2);
}

#[test]
fn a_limit_of_zero_returns_no_heading() {
    let extractor = create_test_extractor();
    let files = one_file("file.md", "# Target 1\n# Target 2");
    assert!(extractor.search_headings(&files, "Target", None, None, Some(0)).is_empty());
    assert_eq!(extractor.search_headings(&files, "Target", None, None, Some(1)).len(), 1);
}

#[test]
fn test_case_insensitive_search() {
    let extractor = create_test_extractor();
    let files = one_file("file.md", "# UPPERCASE\n# lowercase\n# MixedCase");

    let matches = extractor.search_headings(&files, "case", None, None, None);
    assert_eq!(matches.len(), 3);
}

#[test]
fn sections_of_a_document() {
    let extractor = create_test_extractor();
    let sections = extractor.extract_sections_from_content("intro words\n# A\na text\n## B\nb text");
    assert_eq!(sections.len(), 3);
    assert_eq!(sections[0].heading.level, 0);
    assert_eq!(sections[1].heading.title, "A");
    assert_eq!(sections[2].heading.title, "B");
    assert!(sections[2].content.contains("b text"));
}

#[test]
fn level_bounds_are_checked() {
    let request = |min: Option<u8>, max: Option<u8>| SearchHeadingsRequest {
        vault_path: None,
        pattern: "x".to_string(),
        min_level: min,
        max_level: max,
        limit: None,
    };
    assert!(validate_levels(&request(Some(1), Some(6))).is_ok());
    assert!(validate_levels(&request(None, None)).is_ok());
    let err = validate_levels(&request(Some(0), Some(9))).unwrap_err();
    assert_eq!(err.code, INVALID_PARAMS);
    assert_eq!(err.message, "min_level must be between 1 and 6");
    let err = validate_levels(&request(Some(2), Some(7))).unwrap_err();
    assert_eq!(err.message, "max_level must be between 1 and 6");
}

fn document_order(forest: &[Heading], out: &mut Vec<(String, u8, usize)>) {
    for h in forest {
        out.push((h.title.clone(), h.level, h.line_number));
        document_order(&h.children, out);
    }
}

#[test]
fn hierarchy_read_in_document_order_gives_the_headings_back() {
    let extractor = create_test_extractor();
    let content = "## A\n#### B\n### C\n# D\n###### E\n## F\n# G";
    let flat = extractor.extract_headings(content);
    let tree = extractor.build_hierarchy(&flat);
    let mut read = Vec::new();
    document_order(&tree, &mut read);
    let expected: Vec<(String, u8, usize)> = flat.iter().map(|h| (h.title.clone(), h.level, h.line_number)).collect();
    assert_eq!(read, expected);
    assert_eq!(read.len(), 7);
}
