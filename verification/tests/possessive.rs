use tocken::possessive::strip_possessive;
use tocken::tokenizer::english_possessive_filter;

#[test]
fn test_english_possessive_filter() {
    let cases = [
        ("John's", "John"),
        ("John’s", "John"),
        ("John＇s", "John"),
        ("Johns", "Johns"),
        ("John", "John"),
        ("Johns'", "Johns'"),
        ("John'ss", "John'ss"),
        ("'s", "'s"),
    ];

    for (text, expected) in cases.iter() {
        if let Some(res) = english_possessive_filter(text) {
            assert_eq!(res, *expected);
        }
    }
}

#[test]
fn possessive_suffix_is_stripped_for_each_apostrophe() {
    assert_eq!(english_possessive_filter("John's"), Some("John".to_string()));
    assert_eq!(english_possessive_filter("John\u{2019}s"), Some("John".to_string()));
    assert_eq!(english_possessive_filter("John\u{FF07}s"), Some("John".to_string()));
    assert_eq!(english_possessive_filter("a's"), Some("a".to_string()));
}

#[test]
fn words_without_possessive_suffix_pass() {
    assert_eq!(english_possessive_filter("Johns"), None);
    assert_eq!(english_possessive_filter("John"), None);
    assert_eq!(english_possessive_filter("Johns'"), None);
    assert_eq!(english_possessive_filter("John'ss"), None);
    assert_eq!(english_possessive_filter("John'S"), None);
    assert_eq!(english_possessive_filter("John`s"), None);
    assert_eq!(english_possessive_filter(""), None);
    assert_eq!(english_possessive_filter("s"), None);
}

#[test]
fn two_character_words_are_left_alone() {
    assert_eq!(english_possessive_filter("'s"), None);
    assert_eq!(english_possessive_filter("\u{2019}s"), None);
    assert_eq!(english_possessive_filter("\u{FF07}s"), None);
}

#[test]
fn possessive_length_counts_characters() {
    assert_eq!(english_possessive_filter("é's"), Some("é".to_string()));
    assert_eq!(english_possessive_filter("日本's"), Some("日本".to_string()));
}

#[test]
fn strip_possessive_keeps_other_words() {
    assert_eq!(strip_possessive("John's"), "John");
    assert_eq!(strip_possessive("Johns"), "Johns");
    assert_eq!(strip_possessive("'s"), "'s");
    assert_eq!(strip_possessive(""), "");
}
