use melt_rs::bigrams::bigram;
use melt_rs::message::Message;
use melt_rs::text::{tokenize, tokenize_words};
use melt_rs::trigrams::trigram;

#[test]
fn test_get_bigram() {
    let bigrams = bigram("Hello");
    assert_eq!(bigrams, vec!["he", "el", "ll", "lo"]);
}

#[test]
fn test_get_trigram() {
    let trigrams = trigram("Hello, wor杯ld!");
    assert_eq!(
        trigrams,
        vec!["hel", "ell", "llo", "lo,", "o, ", ", w", " wo", "wor", "or杯", "r杯l", "杯ld", "ld!"]
    );
}

#[test]
fn trigram_lowercases() {
    assert_eq!(trigram("ABCD"), vec!["abc", "bcd"]);
}

#[test]
fn trigram_short_text_is_empty() {
    assert!(trigram("").is_empty());
    assert!(trigram("ab").is_empty());
    assert_eq!(trigram("abc"), vec!["abc"]);
}

#[test]
fn trigram_drops_unprintable_code_points() {
    // U+0100 has low byte 0x00 and is not ASCII, so it is dropped.
    assert_eq!(trigram("a\u{100}bc"), vec!["abc"]);
    // U+0141 has low byte 0x41 ('A'), so it is kept.
    assert_eq!(trigram("a\u{141}b"), vec!["a\u{142}b"]);
}

#[test]
fn trigram_deduplicates_in_first_seen_order() {
    assert_eq!(trigram("aaaa"), vec!["aaa"]);
    assert_eq!(trigram("abcabc"), vec!["abc", "bca", "cab"]);
}

#[test]
fn bigram_single_char_is_empty() {
    assert!(bigram("a").is_empty());
    assert_eq!(bigram("abab"), vec!["ab", "ba"]);
}

#[test]
fn tokenize_plain_and_enriched() {
    assert_eq!(tokenize("Abcd", false), vec!["abc", "bcd"]);
    assert_eq!(
        tokenize("Abcd", true),
        vec!["abc", "bcd", "ab", "bc", "cd", "a", "b", "c", "d"]
    );
    assert_eq!(tokenize("aab", true), vec!["aab", "aa", "ab", "a", "b"]);
    assert!(tokenize("", true).is_empty());
    assert!(tokenize("\u{100}", true).is_empty());
}

#[test]
fn tokenize_words_splits_at_spaces() {
    assert_eq!(tokenize_words("abcd efg", false), vec!["abc", "bcd", "efg"]);
    assert_eq!(tokenize_words("ab  cd", true), vec!["ab", "a", "b", "cd", "c", "d"]);
    assert_eq!(tokenize("ab cd", false), vec!["ab ", "b c", " cd"]);
}

#[test]
fn message_trigrams_and_value() {
    let m = Message { json: false, value: "Hello".to_string() };
    assert_eq!(m.get_trigram(), vec!["hel", "ell", "llo"]);
    assert_eq!(m.get_value(), "Hello");
    assert!(!m.clone().json);
}
