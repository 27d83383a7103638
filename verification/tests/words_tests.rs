use moxnode::words::{sorted_unique, tokenize, truncate_words};

fn owned(v: &[&str]) -> Vec<String> {
    v.iter().map(|s| s.to_string()).collect()
}

#[test]
fn tokenize_keeps_long_words_without_stop_words() {
    assert_eq!(
        tokenize("The quick brown fox; WHERE-are things", 4, true),
        owned(&["quick", "brown", "things"])
    );
}

#[test]
fn tokenize_without_stop_filter() {
    assert_eq!(
        tokenize("About THAT rust_lang", 4, false),
        owned(&["about", "that", "rust", "lang"])
    );
}

#[test]
fn tokenize_counts_bytes_not_chars() {
    // "héé" is five bytes long, "abc" only three.
    assert_eq!(tokenize("héé abc", 4, false), owned(&["héé"]));
}

#[test]
fn truncate_words_keeps_the_first_words() {
    assert_eq!(truncate_words("a b  c d", 2), "a b");
    assert_eq!(truncate_words("  one\ttwo  ", 14), "one two");
    assert_eq!(truncate_words("", 3), "");
}

#[test]
fn sorted_unique_sorts_and_dedups() {
    assert_eq!(
        sorted_unique(&owned(&["b", "a", "b", "c", "a"])),
        owned(&["a", "b", "c"])
    );
}
