use std::borrow::Cow;
use tocken::stopwords::StopwordSet;
use tocken::tokenizer::Normalization;
use tocken::tokenizer::Stemmer;
use tocken::tokenizer::Tokenizer;

fn plain() -> Tokenizer {
    let mut tokenizer = Tokenizer::default();
    tokenizer.stopwords = StopwordSet::new();
    tokenizer.stemmer = Stemmer::Identity;
    tokenizer.norm = Normalization::Identity;
    tokenizer
}

fn strings(words: &[&str]) -> Vec<String> {
    words.iter().map(|w| w.to_string()).collect()
}

#[test]
fn identity_normalization_keeps_the_text() {
    assert_eq!(Normalization::Identity.normalize("Ame\u{301}lie ﬁ"), "Ame\u{301}lie ﬁ");
    assert_eq!(Normalization::Identity.normalize(""), "");
}

#[test]
fn nfd_decomposes() {
    assert_eq!(Normalization::NFD.normalize("\u{e9}"), "e\u{301}");
    assert_eq!(Normalization::NFD.normalize("ﬁ"), "ﬁ");
}

#[test]
fn nfc_composes() {
    assert_eq!(Normalization::NFC.normalize("e\u{301}"), "\u{e9}");
    assert_eq!(Normalization::NFC.normalize("ﬁ"), "ﬁ");
}

#[test]
fn nfkd_decomposes_compatibility_characters() {
    assert_eq!(Normalization::NFKD.normalize("ﬁ\u{e9}"), "fie\u{301}");
}

#[test]
fn nfkc_composes_after_compatibility_decomposition() {
    assert_eq!(Normalization::NFKC.normalize("ﬁe\u{301}"), "fi\u{e9}");
}

#[test]
fn identity_stemmer_keeps_the_word() {
    assert_eq!(Stemmer::Identity.stem("running"), Cow::Borrowed("running"));
}

#[test]
fn snowball_is_the_classic_porter_stemmer() {
    assert_eq!(Stemmer::Snowball.stem("running").as_ref(), "run");
    assert_eq!(Stemmer::Snowball.stem("caresses").as_ref(), "caress");
    assert_eq!(Stemmer::Snowball.stem("ponies").as_ref(), "poni");
    assert_eq!(Stemmer::Snowball.stem("generously").as_ref(), "gener");
}

#[test]
fn porter2_is_the_revised_stemmer() {
    assert_eq!(Stemmer::Porter2.stem("running").as_ref(), "run");
    assert_eq!(Stemmer::Porter2.stem("generously").as_ref(), "generous");
}

#[test]
fn stemmer_length_limit() {
    assert!(Stemmer::Snowball.accepts_len(0));
    assert!(Stemmer::Snowball.accepts_len(0x7fff_ffff));
    assert!(!Stemmer::Snowball.accepts_len(0x8000_0000));
    assert!(!Stemmer::Porter2.accepts_len(0x8000_0000));
    assert!(Stemmer::Identity.accepts_len(0x8000_0000));
}

#[test]
fn words_are_lowercased_and_split_on_word_boundaries() {
    let tokenizer = plain();
    assert_eq!(
        tokenizer.get_token("The quick (\"brown\") fox can't jump 32.3 feet, right?"),
        strings(&["the", "quick", "brown", "fox", "can't", "jump", "32.3", "feet", "right"])
    );
}

#[test]
fn lowercase_can_be_switched_off() {
    let mut tokenizer = plain();
    tokenizer.lowercase = false;
    assert_eq!(tokenizer.get_token("The Quick fox"), strings(&["The", "Quick", "fox"]));
}

#[test]
fn punctuation_and_space_yield_no_token() {
    let tokenizer = plain();
    assert_eq!(tokenizer.get_token(""), Vec::<String>::new());
    assert_eq!(tokenizer.get_token("  ... !? --"), Vec::<String>::new());
}

#[test]
fn possessive_suffix_goes_before_the_stopword_test() {
    let mut tokenizer = plain();
    tokenizer.stopwords = StopwordSet::from_words(strings(&["john"]));
    assert_eq!(tokenizer.get_token("John's dog's bone"), strings(&["dog", "bone"]));
    assert_eq!(tokenizer.process_word("john's"), None);
    assert_eq!(tokenizer.process_word("dog's"), Some("dog".to_string()));
}

#[test]
fn stopword_test_comes_before_stemming() {
    let mut tokenizer = plain();
    tokenizer.stemmer = Stemmer::Snowball;
    tokenizer.stopwords = StopwordSet::from_words(strings(&["run"]));
    assert_eq!(tokenizer.get_token("run running runs"), strings(&["run", "run"]));
}

#[test]
fn tokens_are_stemmed_then_normalized() {
    let mut tokenizer = plain();
    tokenizer.stemmer = Stemmer::Snowball;
    tokenizer.norm = Normalization::NFKC;
    assert_eq!(tokenizer.get_token("ﬁshing Cafe\u{301}s"), strings(&["fishing", "caf\u{e9}"]));
    assert_eq!(tokenizer.process_word("running"), Some("run".to_string()));
}

#[test]
fn a_word_of_which_nothing_is_left_yields_no_token() {
    let tokenizer = plain();
    assert_eq!(tokenizer.process_word(""), None);
    assert_eq!(tokenizer.process_word("a"), Some("a".to_string()));
}

#[test]
fn default_tokenizer_drops_stopwords_and_stems() {
    let tokenizer = Tokenizer::default();
    assert_eq!(
        tokenizer.get_token("The cats were running to John's houses"),
        strings(&["cat", "run", "john", "hous"])
    );
}

#[test]
fn every_word_of_ordinary_text_is_accepted() {
    let tokenizer = Tokenizer::default();
    assert!(tokenizer.accepts("the cat's pyjamas"));
    assert!(tokenizer.accepts(""));
    assert!(tokenizer.accepts_word("pyjamas"));
}

#[test]
fn stopword_set_membership() {
    let mut set = StopwordSet::new();
    assert!(!set.contains("the"));
    assert!(set.insert("the".to_string()));
    assert!(!set.insert("the".to_string()));
    set.extend(&["a", "the", "an"]);
    assert!(set.contains("the"));
    assert!(set.contains("a"));
    assert!(set.contains("an"));
    assert!(!set.contains("The"));
    assert_eq!(set.len(), 3);
    assert_eq!(set.words(), strings(&["the", "a", "an"]));
}

#[test]
fn stopword_set_from_words_drops_duplicates() {
    let set = StopwordSet::from_words(strings(&["b", "a", "b"]));
    assert_eq!(set.words(), strings(&["b", "a"]));
    assert_eq!(set.len(), 2);
}

#[test]
fn default_settings() {
    let tokenizer = Tokenizer::default();
    assert_eq!(tokenizer.min_freq, 5);
    assert!(tokenizer.lowercase);
    assert_eq!(tokenizer.norm, Normalization::Identity);
    assert_eq!(tokenizer.stemmer, Stemmer::Snowball);
    assert_eq!(tokenizer.vocab_len(), 0);
    assert!(tokenizer.stopwords.contains("the"));
    assert!(tokenizer.stopwords.contains("www"));
    assert!(tokenizer.stopwords.contains("wouldn't"));
    assert!(tokenizer.stopwords.contains("的"));
    assert!(!tokenizer.stopwords.contains("cat"));
}
