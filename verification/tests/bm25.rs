use notectl::bm25::tokenize;

#[test]
fn test_tokenize() {
    let tokens = tokenize("Hello, World! Hello.");
    assert_eq!(tokens, vec!["hello", "world", "hello"]);
}

#[test]
fn terms_split_at_whitespace_and_punctuation() {
    assert_eq!(tokenize("Hello, World!"), vec!["hello", "world"]);
    assert_eq!(tokenize("a-b_c\u{3000}Déjà\tvu"), vec!["a", "b", "c", "déjà", "vu"]);
    assert!(tokenize(" ,.;  ").is_empty());
    assert!(tokenize("").is_empty());
}
