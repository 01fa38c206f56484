use cli_utils::words::{count_words, lookup, rank_words};

#[test]
fn test_count_simple() {
    let counts = count_words("hello world hello");
    assert_eq!(lookup(&counts, "hello"), Some(2));
    assert_eq!(lookup(&counts, "world"), Some(1));
}

#[test]
fn test_count_case_insensitive() {
    let counts = count_words("Hello HELLO hello");
    assert_eq!(lookup(&counts, "hello"), Some(3));
    assert_eq!(counts.len(), 1);
}

#[test]
fn test_count_punctuation() {
    let counts = count_words("hello, world! hello.");
    assert_eq!(lookup(&counts, "hello"), Some(2));
    assert_eq!(lookup(&counts, "world"), Some(1));
}

#[test]
fn test_count_empty() {
    let counts = count_words("");
    assert!(counts.is_empty());
}

#[test]
fn test_count_whitespace_only() {
    let counts = count_words("   \n\t  ");
    assert!(counts.is_empty());
}

#[test]
fn test_preserves_apostrophes() {
    let counts = count_words("don't can't won't");
    assert_eq!(lookup(&counts, "don't"), Some(1));
    assert_eq!(lookup(&counts, "can't"), Some(1));
}

#[test]
fn test_rank_words_orders_by_count_then_word() {
    let counts = count_words("b b a a c");
    let ranked = rank_words(counts);
    let view: Vec<(&str, usize)> = ranked.iter().map(|e| (e.0.as_str(), e.1)).collect();
    assert_eq!(view, vec![("a", 2), ("b", 2), ("c", 1)]);
}

#[test]
fn test_pure_punctuation_not_counted() {
    let counts = count_words("... !!! hello");
    assert_eq!(counts.len(), 1);
    assert_eq!(lookup(&counts, "hello"), Some(1));
    assert_eq!(lookup(&counts, ""), None);
}
