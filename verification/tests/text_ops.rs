use doc_indexer::text::{build_pinyin_variants, contains_chinese_chars, generate_trigrams, tokenize, Token};

fn tok(term: &str, start: usize, end: usize) -> Token {
    Token { term: term.to_string(), start, end }
}

#[test]
fn tokenize_lowercases_ascii_words() {
    assert_eq!(
        tokenize("Hello, World 42"),
        vec![tok("hello", 0, 5), tok("world", 7, 12), tok("42", 13, 15)]
    );
}

#[test]
fn tokenize_splits_chinese_runs_into_bigrams() {
    assert_eq!(
        tokenize("你好世界"),
        vec![tok("你好", 0, 2), tok("好世", 1, 3), tok("世界", 2, 4)]
    );
}

#[test]
fn tokenize_keeps_a_lone_chinese_character() {
    assert_eq!(tokenize("a中b"), vec![tok("a", 0, 1), tok("中", 1, 2), tok("b", 2, 3)]);
}

#[test]
fn tokenize_keeps_non_ascii_letters_in_words() {
    assert_eq!(tokenize("Café naïve"), vec![tok("café", 0, 4), tok("naïve", 5, 10)]);
}

#[test]
fn tokenize_of_punctuation_is_empty() {
    assert!(tokenize("!? -- ...").is_empty());
    assert!(tokenize("").is_empty());
}

#[test]
fn trigrams_slide_over_characters() {
    assert_eq!(generate_trigrams("hello"), vec!["hel".to_string(), "ell".to_string(), "llo".to_string()]);
    assert_eq!(generate_trigrams("abc"), vec!["abc".to_string()]);
    assert!(generate_trigrams("go").is_empty());
    assert_eq!(generate_trigrams("你好世界"), vec!["你好世".to_string(), "好世界".to_string()]);
}

#[test]
fn chinese_characters_are_detected() {
    assert!(contains_chinese_chars("abc你"));
    assert!(!contains_chinese_chars("abc"));
    assert!(!contains_chinese_chars(""));
}

#[test]
fn pinyin_variants_of_chinese_terms() {
    assert_eq!(build_pinyin_variants("你好"), Some(("nihao".to_string(), "nh".to_string())));
    assert_eq!(build_pinyin_variants("世界"), Some(("shijie".to_string(), "sj".to_string())));
    assert_eq!(build_pinyin_variants("abc"), None);
    assert_eq!(build_pinyin_variants(""), None);
}

#[test]
fn a_text_has_no_more_tokens_than_characters() {
    for text in ["你好世界", "a b c", "中", "hello", "Café, 你好 x"] {
        assert!(tokenize(text).len() <= text.chars().count());
    }
}
