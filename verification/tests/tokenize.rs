use notectl::tokenize::{
    count_tokens, split_long_word_ranges, tokenize_fixed, tokenize_with_overlap,
    tokenize_with_overlap_indexed, MAX_WORD_CHARS,
};

#[test]
fn test_count_tokens_long_unbroken_word_is_not_counted_as_one_token() {
    let blob: String = "a".repeat(1000);
    let tokens = count_tokens(&blob);
    assert_eq!(tokens, 1000usize.div_ceil(MAX_WORD_CHARS));
    assert!(tokens > 1);
}

#[test]
fn test_split_long_word_ranges_preserves_all_bytes_and_char_boundaries() {
    let word = "x".repeat(100);
    let ranges = split_long_word_ranges(&word, 32);
    assert_eq!(ranges.first().unwrap().start, 0);
    assert_eq!(ranges.last().unwrap().end, word.len());
    for w in ranges.windows(2) {
        assert_eq!(w[0].end, w[1].start, "ranges must be contiguous");
    }
    for r in &ranges {
        assert!(word[r.clone()].chars().count() <= 32);
    }
}

#[test]
fn test_split_long_word_ranges_never_splits_mid_utf8_char() {
    let word = "\u{2764}".repeat(50);
    let ranges = split_long_word_ranges(&word, 10);
    for r in ranges {
        let piece = &word[r];
        assert!(piece.chars().count() <= 10);
    }
}

#[test]
fn test_tokenize_with_overlap_indexed_bounds_a_single_giant_word() {
    let blob: String = "z".repeat(10_000);
    let chunks = tokenize_with_overlap_indexed(&blob, 50, 0);
    assert!(
        chunks.len() > 1,
        "a single giant word must be split into multiple chunks"
    );
    for (text, _, _) in &chunks {
        assert!(
            text.len() <= 50 * (MAX_WORD_CHARS + 1),
            "chunk of {} chars exceeds the bound",
            text.len()
        );
    }
}

#[test]
fn test_count_tokens_simple() {
    assert_eq!(count_tokens("hello world"), 2);
    assert_eq!(count_tokens("one two three four"), 4);
    assert_eq!(count_tokens(""), 0);
    assert_eq!(count_tokens("   "), 0);
}

#[test]
fn test_count_tokens_with_extra_whitespace() {
    assert_eq!(count_tokens("hello   world"), 2);
    assert_eq!(count_tokens("\thello\tworld\n"), 2);
}

#[test]
fn test_tokenize_fixed_simple() {
    let text = "one two three four five six seven eight";
    let chunks = tokenize_fixed(text, 4);
    assert_eq!(chunks.len(), 2);
    assert_eq!(chunks[0], "one two three four");
    assert_eq!(chunks[1], "five six seven eight");
}

#[test]
fn test_tokenize_fixed_remainder() {
    let text = "a b c d e f";
    let chunks = tokenize_fixed(text, 4);
    assert_eq!(chunks.len(), 2);
    assert_eq!(chunks[0], "a b c d");
    assert_eq!(chunks[1], "e f");
}

#[test]
fn test_tokenize_with_overlap() {
    let text = "a b c d e f g h i j";
    let chunks = tokenize_with_overlap(text, 4, 2);
    assert_eq!(chunks.len(), 4);
    assert_eq!(chunks[0], "a b c d");
    assert_eq!(chunks[1], "c d e f");
    assert_eq!(chunks[2], "e f g h");
    assert_eq!(chunks[3], "g h i j");
}

#[test]
fn test_tokenize_with_overlap_no_remainder() {
    let text = "a b c d e f";
    let chunks = tokenize_with_overlap(text, 3, 1);
    assert_eq!(chunks.len(), 3);
    assert_eq!(chunks[0], "a b c");
    assert_eq!(chunks[1], "c d e");
    assert_eq!(chunks[2], "e f");
}

#[test]
fn test_tokenize_empty() {
    assert_eq!(tokenize_fixed("", 4), vec![String::new()]);
    assert_eq!(tokenize_with_overlap("", 4, 0), vec![String::new()]);
}

#[test]
fn test_tokenize_zero_max() {
    assert_eq!(tokenize_fixed("hello", 0), vec![String::new()]);
    assert_eq!(tokenize_with_overlap("hello", 0, 0), vec![String::new()]);
}

#[test]
fn test_overlap_ge_max_tokens() {
    let text = "a b c d e f g h i j";
    let chunks = tokenize_with_overlap(text, 4, 10);
    assert_eq!(chunks.len(), 7);
    assert_eq!(chunks[0], "a b c d");
    assert_eq!(chunks[1], "b c d e");
    assert_eq!(chunks[6], "g h i j");
}

#[test]
fn test_overlap_max_one() {
    let text = "a b c";
    let chunks = tokenize_with_overlap(text, 1, 5);
    assert_eq!(chunks.len(), 3);
    assert_eq!(chunks[0], "a");
    assert_eq!(chunks[1], "b");
    assert_eq!(chunks[2], "c");
}

#[test]
fn test_tokenize_with_overlap_indexed_basic() {
    let text = "a b c d e f g h i j";
    let chunks = tokenize_with_overlap_indexed(text, 4, 2);
    assert_eq!(chunks.len(), 4);
    assert_eq!(chunks[0], ("a b c d".to_string(), 0, 4));
    assert_eq!(chunks[1], ("c d e f".to_string(), 2, 6));
    assert_eq!(chunks[2], ("e f g h".to_string(), 4, 8));
    assert_eq!(chunks[3], ("g h i j".to_string(), 6, 10));
}

#[test]
fn test_tokenize_with_overlap_indexed_no_overlap() {
    let text = "a b c d e f";
    let chunks = tokenize_with_overlap_indexed(text, 3, 0);
    assert_eq!(chunks.len(), 2);
    assert_eq!(chunks[0], ("a b c".to_string(), 0, 3));
    assert_eq!(chunks[1], ("d e f".to_string(), 3, 6));
}

#[test]
fn test_tokenize_with_overlap_indexed_remainder() {
    let text = "a b c d e f";
    let chunks = tokenize_with_overlap_indexed(text, 3, 1);
    assert_eq!(chunks.len(), 3);
    assert_eq!(chunks[0], ("a b c".to_string(), 0, 3));
    assert_eq!(chunks[1], ("c d e".to_string(), 2, 5));
    assert_eq!(chunks[2], ("e f".to_string(), 4, 6));
}

#[test]
fn test_tokenize_with_overlap_indexed_empty() {
    let chunks = tokenize_with_overlap_indexed("", 4, 0);
    assert_eq!(chunks.len(), 1);
    assert_eq!(chunks[0], (String::new(), 0, 0));
}

#[test]
fn test_tokenize_with_overlap_indexed_zero_max() {
    let chunks = tokenize_with_overlap_indexed("hello", 0, 0);
    assert_eq!(chunks.len(), 1);
    assert_eq!(chunks[0], (String::new(), 0, 0));
}

#[test]
fn test_tokenize_with_overlap_indexed_consistency() {
    let cases = [
        ("a b c d e f g h i j", 4, 2),
        ("a b c d e f", 3, 1),
        ("hello world", 10, 0),
        ("", 4, 0),
        ("single", 4, 0),
        ("a b c", 1, 5),
    ];
    for (text, max, overlap) in cases {
        let plain = tokenize_with_overlap(text, max, overlap);
        let indexed = tokenize_with_overlap_indexed(text, max, overlap);
        assert_eq!(
            plain.len(),
            indexed.len(),
            "Length mismatch for ({}, {}, {}): plain={}, indexed={}",
            text,
            max,
            overlap,
            plain.len(),
            indexed.len()
        );
        for (i, (p, (_, _, _))) in plain.iter().zip(indexed.iter()).enumerate() {
            assert_eq!(
                p, &indexed[i].0,
                "Text mismatch at index {} for ({}, {}, {})",
                i, text, max, overlap
            );
        }
    }
}

#[test]
fn fixed_equals_zero_overlap_on_samples() {
    for text in ["", "a", "a b c d e f g", "  x  y\tz\nw  "] {
        for max in 0..5 {
            assert_eq!(tokenize_fixed(text, max), tokenize_with_overlap(text, max, 0));
        }
    }
}

#[test]
fn long_words_split_into_pieces_of_at_most_32_chars() {
    let word = format!("{} tail", "b".repeat(70));
    assert_eq!(count_tokens(&word), 4);
    let chunks = tokenize_fixed(&word, 2);
    assert_eq!(chunks[0], format!("{} {}", "b".repeat(32), "b".repeat(32)));
    assert_eq!(chunks[1], format!("{} tail", "b".repeat(6)));
}

#[test]
fn unicode_whitespace_separates_words() {
    assert_eq!(count_tokens("a\u{00a0}b\u{3000}c"), 3);
    let ranges = split_long_word_ranges("é".repeat(5).as_str(), 2);
    let starts: Vec<usize> = ranges.iter().map(|r| r.start).collect();
    assert_eq!(starts, vec![0, 4, 8]);
    assert_eq!(ranges.last().unwrap().end, 10);
}
