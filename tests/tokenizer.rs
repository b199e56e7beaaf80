use hybrid_rank::{split_tokens, tokenize};

fn strings(v: &[&str]) -> Vec<String> {
    v.iter().map(|s| s.to_string()).collect()
}

#[test]
fn tokenize_lowercases_and_splits() {
    assert_eq!(tokenize("Hello, World! BM25 rocks"), strings(&["hello", "world", "bm25", "rocks"]));
}

#[test]
fn tokenize_drops_short_fragments() {
    assert_eq!(tokenize("a bb c dd-e"), strings(&["bb", "dd"]));
}

#[test]
fn tokenize_empty_and_punctuation_only() {
    assert!(tokenize("").is_empty());
    assert!(tokenize("... --- !!!").is_empty());
}

#[test]
fn tokenize_keeps_duplicates_in_order() {
    assert_eq!(tokenize("cat dog CAT"), strings(&["cat", "dog", "cat"]));
}

#[test]
fn tokenize_unicode_letters() {
    assert_eq!(tokenize("Ünïcode ÄB"), strings(&["ünïcode", "äb"]));
}

#[test]
fn tokenize_counts_characters_not_bytes() {
    // "é" is one character of two bytes: shorter than two characters
    assert_eq!(tokenize("é ab"), strings(&["ab"]));
}

#[test]
fn tokenize_is_deterministic() {
    let text = "The quick brown fox, the QUICK dog";
    assert_eq!(tokenize(text), tokenize(text));
}

#[test]
fn split_tokens_keeps_case_and_splits() {
    assert_eq!(split_tokens("ab Cd-e fgh"), strings(&["ab", "Cd", "fgh"]));
    assert!(split_tokens("x y").is_empty());
}
