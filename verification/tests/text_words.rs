use handy::text::{
    char_is_whitespace, char_to_ascii_lowercase, count_transcript_words, normalize_transcript_word, normalized_words,
};

#[test]
fn normalize_transcript_word_strips_punctuation_and_lowercases_ascii() {
    assert_eq!(normalize_transcript_word("Hello,"), "hello");
    assert_eq!(normalize_transcript_word("\"Don't!\""), "don't");
    assert_eq!(normalize_transcript_word("--"), "");
    assert_eq!(normalize_transcript_word("ÉCOLE"), "École");
}

#[test]
fn normalized_words_drops_words_without_letters_or_digits() {
    assert_eq!(
        normalized_words("  Hello, WORLD -- 42! "),
        vec!["hello".to_string(), "world".to_string(), "42".to_string()]
    );
    assert!(normalized_words(" \t\n ").is_empty());
}

#[test]
fn count_transcript_words_counts_words_with_alphanumerics() {
    assert_eq!(count_transcript_words("one two three four five six seven eight"), 8);
    assert_eq!(count_transcript_words("  hello -- world ... 3 "), 3);
    assert_eq!(count_transcript_words(""), 0);
    assert_eq!(count_transcript_words("?! ..."), 0);
}

#[test]
fn whitespace_is_the_unicode_white_space_set() {
    for c in (0u32..=0x10FFFF).filter_map(char::from_u32) {
        assert_eq!(char_is_whitespace(c), c.is_whitespace(), "{:?}", c);
    }
    assert!(char_is_whitespace(' ') && char_is_whitespace('\u{3000}'));
    assert!(!char_is_whitespace('\u{200B}') && !char_is_whitespace('x'));
    // the same set is what splits words
    assert_eq!(normalized_words("a\u{3000}b\u{85}c\u{0B}d"), vec!["a", "b", "c", "d"]);
}

#[test]
fn ascii_alphanumerics_are_letters_and_digits() {
    for b in 0u8..128 {
        let c = b as char;
        assert_eq!(c.is_alphanumeric(), c.is_ascii_alphanumeric(), "{:?}", c);
    }
}

#[test]
fn char_to_ascii_lowercase_agrees_with_std() {
    assert_eq!(char_to_ascii_lowercase('Q'), 'q');
    assert_eq!(char_to_ascii_lowercase('É'), 'É');
    for c in (0u32..0x11000).filter_map(char::from_u32) {
        assert_eq!(char_to_ascii_lowercase(c), c.to_ascii_lowercase());
    }
}
