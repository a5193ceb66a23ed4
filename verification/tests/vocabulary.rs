use tocken::stopwords::StopwordSet;
use tocken::tokenizer::Normalization;
use tocken::tokenizer::Stemmer;
use tocken::tokenizer::Tokenizer;
use tocken::vocabulary::Vocabulary;

fn plain(min_freq: u32) -> Tokenizer {
    let mut tokenizer = Tokenizer::default();
    tokenizer.stopwords = StopwordSet::new();
    tokenizer.stemmer = Stemmer::Identity;
    tokenizer.norm = Normalization::Identity;
    tokenizer.min_freq = min_freq;
    tokenizer
}

fn strings(words: &[&str]) -> Vec<String> {
    words.iter().map(|w| w.to_string()).collect()
}

fn table(tokenizer: &Tokenizer) -> Vec<(String, u32)> {
    tokenizer.vocabulary.entries()
}

fn pairs(entries: &[(&str, u32)]) -> Vec<(String, u32)> {
    entries.iter().map(|(t, id)| (t.to_string(), *id)).collect()
}

#[test]
fn ids_are_assigned_in_first_seen_order() {
    let mut tokenizer = plain(1);
    tokenizer.fit(&strings(&["b a b", "c a"]));
    assert_eq!(table(&tokenizer), pairs(&[("b", 0), ("a", 1), ("c", 2)]));
    assert_eq!(tokenizer.vocabulary.counts(), vec![2, 2, 1]);
    assert_eq!(tokenizer.vocab_len(), 3);
}

#[test]
fn fit_twice_equals_fit_once_on_all_lines() {
    let mut twice = plain(1);
    twice.fit(&strings(&["b a b"]));
    twice.fit(&strings(&["c a"]));
    let mut once = plain(1);
    once.fit(&strings(&["b a b", "c a"]));
    assert_eq!(table(&twice), table(&once));
    assert_eq!(twice.vocabulary.counts(), once.vocabulary.counts());
}

#[test]
fn two_fits_of_the_same_lines_give_the_same_table() {
    let lines = strings(&["the quick brown fox", "jumps over the lazy dog", "the end"]);
    let mut first = Tokenizer::default();
    let mut second = Tokenizer::default();
    first.fit(&lines);
    second.fit(&lines);
    assert_eq!(table(&first), table(&second));
    assert_eq!(first.vocabulary.counts(), second.vocabulary.counts());
}

#[test]
fn vocabulary_never_shrinks_under_fit() {
    let mut tokenizer = plain(1);
    let mut before = tokenizer.vocab_len();
    for line in ["a b", "", "a", "c d e", "e"] {
        tokenizer.fit(&[line.to_string()]);
        assert!(tokenizer.vocab_len() >= before);
        before = tokenizer.vocab_len();
    }
    assert_eq!(before, 5);
}

#[test]
fn ids_are_dense_after_fit_and_trim() {
    let mut tokenizer = plain(2);
    tokenizer.fit(&strings(&["a b c a c d c"]));
    let ids: Vec<u32> = table(&tokenizer).iter().map(|(_, id)| *id).collect();
    assert_eq!(ids, vec![0, 1, 2, 3]);
    tokenizer.trim();
    let ids: Vec<u32> = table(&tokenizer).iter().map(|(_, id)| *id).collect();
    assert_eq!(ids, vec![0, 1]);
    assert_eq!(tokenizer.vocab_len(), 2);
}

#[test]
fn trim_keeps_frequent_tokens_in_the_order_of_their_ids() {
    let mut tokenizer = plain(2);
    tokenizer.fit(&strings(&["a b c a c d c"]));
    tokenizer.trim();
    assert_eq!(table(&tokenizer), pairs(&[("a", 0), ("c", 1)]));
    assert_eq!(tokenizer.vocabulary.counts(), Vec::<u32>::new());
    assert_eq!(tokenizer.tokenize("a b c d"), vec![0, 1]);
}

#[test]
fn trim_threshold_is_inclusive() {
    let mut tokenizer = plain(3);
    tokenizer.fit(&strings(&["x x x y y z z z z"]));
    tokenizer.trim();
    assert_eq!(table(&tokenizer), pairs(&[("x", 0), ("z", 1)]));
}

#[test]
fn trim_with_threshold_zero_keeps_everything() {
    let mut tokenizer = plain(0);
    tokenizer.fit(&strings(&["a b"]));
    tokenizer.trim();
    assert_eq!(table(&tokenizer), pairs(&[("a", 0), ("b", 1)]));
    tokenizer.trim();
    assert_eq!(table(&tokenizer), pairs(&[("a", 0), ("b", 1)]));
}

#[test]
fn second_trim_empties_the_table() {
    let mut tokenizer = plain(1);
    tokenizer.fit(&strings(&["a b"]));
    tokenizer.trim();
    assert_eq!(tokenizer.vocab_len(), 2);
    tokenizer.trim();
    assert_eq!(tokenizer.vocab_len(), 0);
    assert_eq!(tokenizer.tokenize("a b"), Vec::<u32>::new());
}

#[test]
fn fit_after_trim_counts_from_zero() {
    let mut tokenizer = plain(2);
    tokenizer.fit(&strings(&["a a b c c"]));
    tokenizer.trim();
    assert_eq!(table(&tokenizer), pairs(&[("a", 0), ("c", 1)]));
    tokenizer.fit(&strings(&["c d"]));
    assert_eq!(table(&tokenizer), pairs(&[("a", 0), ("c", 1), ("d", 2)]));
    assert_eq!(tokenizer.vocabulary.counts(), vec![0, 1, 1]);
    tokenizer.fit(&[]);
    assert_eq!(tokenizer.vocabulary.counts(), vec![0, 1, 1]);
}

#[test]
fn fit_of_nothing_fills_the_counter() {
    let mut tokenizer = plain(1);
    tokenizer.fit(&strings(&["a b"]));
    tokenizer.trim();
    assert_eq!(tokenizer.vocabulary.counted(), 0);
    tokenizer.fit(&[]);
    assert_eq!(tokenizer.vocabulary.counts(), vec![0, 0]);
}

#[test]
fn stopwords_never_reach_the_table() {
    let mut tokenizer = Tokenizer::default();
    tokenizer.stopwords = StopwordSet::from_words(strings(&["the", "a"]));
    tokenizer.fit(&strings(&["the cat sat"]));
    assert_eq!(table(&tokenizer), pairs(&[("cat", 0), ("sat", 1)]));
}

#[test]
fn unknown_tokens_are_left_out() {
    let mut tokenizer = plain(1);
    tokenizer.fit(&strings(&["the cat sat"]));
    let ids = tokenizer.tokenize("the dog sat");
    assert_eq!(ids, vec![0, 2]);
    assert!(ids.len() < 3);
    assert_eq!(tokenizer.tokenize("dog"), Vec::<u32>::new());
    assert_eq!(tokenizer.tokenize("sat sat the"), vec![2, 2, 0]);
}

#[test]
fn tokenize_does_not_change_the_table() {
    let mut tokenizer = plain(1);
    tokenizer.fit(&strings(&["a b"]));
    let before = table(&tokenizer);
    let counts = tokenizer.vocabulary.counts();
    tokenizer.tokenize("a c c b");
    assert_eq!(table(&tokenizer), before);
    assert_eq!(tokenizer.vocabulary.counts(), counts);
}

#[test]
fn lookup_and_learn_work_on_given_tokens() {
    let mut tokenizer = plain(1);
    tokenizer.learn(strings(&["x", "y", "x"]));
    assert_eq!(table(&tokenizer), pairs(&[("x", 0), ("y", 1)]));
    assert_eq!(tokenizer.vocabulary.counts(), vec![2, 1]);
    assert_eq!(tokenizer.lookup(&strings(&["y", "z", "x", "y"])), vec![1, 0, 1]);
}

#[test]
fn try_tokenize_agrees_with_tokenize() {
    let mut tokenizer = Tokenizer::default();
    tokenizer.fit(&strings(&["running dogs run"]));
    assert_eq!(tokenizer.try_tokenize("the dog runs"), Some(vec![1, 0]));
    assert_eq!(tokenizer.tokenize("the dog runs"), vec![1, 0]);
}

#[test]
fn try_fit_fits_where_there_is_room() {
    let mut tokenizer = plain(1);
    assert!(tokenizer.try_fit(&strings(&["b a b", "c a"])));
    assert_eq!(table(&tokenizer), pairs(&[("b", 0), ("a", 1), ("c", 2)]));
    assert_eq!(tokenizer.vocabulary.counts(), vec![2, 2, 1]);
}

#[test]
fn try_fit_leaves_the_table_where_a_count_would_overflow() {
    let mut tokenizer = plain(1);
    tokenizer.vocabulary =
        Vocabulary::from_entries(pairs(&[("a", 0), ("b", 1)]), vec![7, u32::MAX]).unwrap();
    assert!(!tokenizer.try_fit(&strings(&["a c", "a b"])));
    assert_eq!(table(&tokenizer), pairs(&[("a", 0), ("b", 1)]));
    assert_eq!(tokenizer.vocabulary.counts(), vec![7, u32::MAX]);
    assert!(tokenizer.try_fit(&strings(&["a c"])));
    assert_eq!(tokenizer.vocabulary.counts(), vec![8, u32::MAX, 1]);
}

#[test]
fn vocabulary_operations() {
    let mut vocabulary = Vocabulary::new();
    assert_eq!(vocabulary.len(), 0);
    assert!(vocabulary.has_room("a"));
    vocabulary.learn("a".to_string());
    vocabulary.learn("b".to_string());
    vocabulary.learn("a".to_string());
    assert_eq!(vocabulary.len(), 2);
    assert_eq!(vocabulary.get("a"), Some(0));
    assert_eq!(vocabulary.get("b"), Some(1));
    assert_eq!(vocabulary.get("c"), None);
    assert_eq!(vocabulary.token(1), Some(&"b".to_string()));
    assert_eq!(vocabulary.token(2), None);
    assert_eq!(vocabulary.frequency(0), 2);
    assert_eq!(vocabulary.frequency(1), 1);
    assert_eq!(vocabulary.frequency(2), 0);
    let copy = vocabulary.duplicate();
    assert_eq!(copy.entries(), vocabulary.entries());
    assert_eq!(copy.counts(), vocabulary.counts());
    vocabulary.trim(2);
    assert_eq!(vocabulary.entries(), pairs(&[("a", 0)]));
    assert_eq!(vocabulary.counted(), 0);
    assert_eq!(copy.len(), 2);
}

#[test]
fn has_room_sees_a_full_counter() {
    let vocabulary = Vocabulary::from_entries(pairs(&[("a", 0), ("b", 1)]), vec![u32::MAX]).unwrap();
    assert!(!vocabulary.has_room("a"));
    assert!(vocabulary.has_room("b"));
    assert!(vocabulary.has_room("c"));
}

#[test]
fn entries_round_trip() {
    let mut tokenizer = plain(1);
    tokenizer.fit(&strings(&["b a b", "c a"]));
    let mut entries = table(&tokenizer);
    entries.reverse();
    let restored = Vocabulary::from_entries(entries, tokenizer.vocabulary.counts()).unwrap();
    assert_eq!(restored.entries(), table(&tokenizer));
    assert_eq!(restored.counts(), tokenizer.vocabulary.counts());
    let mut reloaded = plain(1);
    reloaded.vocabulary = restored;
    for text in ["a b c", "c c d a", "", "b"] {
        assert_eq!(reloaded.tokenize(text), tokenizer.tokenize(text));
    }
    assert_eq!(reloaded.vocab_len(), tokenizer.vocab_len());
}

#[test]
fn from_entries_places_each_token_under_its_id() {
    let vocabulary =
        Vocabulary::from_entries(pairs(&[("c", 2), ("a", 0), ("b", 1)]), vec![4, 5]).unwrap();
    assert_eq!(vocabulary.entries(), pairs(&[("a", 0), ("b", 1), ("c", 2)]));
    assert_eq!(vocabulary.counts(), vec![4, 5]);
    assert_eq!(vocabulary.frequency(2), 0);
    assert_eq!(vocabulary.get("c"), Some(2));
}

#[test]
fn from_entries_accepts_the_empty_table() {
    let vocabulary = Vocabulary::from_entries(Vec::new(), Vec::new()).unwrap();
    assert_eq!(vocabulary.len(), 0);
}

#[test]
fn from_entries_rejects_an_id_out_of_range() {
    assert!(Vocabulary::from_entries(pairs(&[("a", 0), ("b", 2)]), vec![]).is_none());
    assert!(Vocabulary::from_entries(pairs(&[("a", 1)]), vec![]).is_none());
}

#[test]
fn from_entries_rejects_a_repeated_id() {
    assert!(Vocabulary::from_entries(pairs(&[("a", 0), ("b", 0)]), vec![]).is_none());
}

#[test]
fn from_entries_rejects_a_repeated_token() {
    assert!(Vocabulary::from_entries(pairs(&[("a", 0), ("a", 1)]), vec![]).is_none());
}

#[test]
fn from_entries_rejects_an_empty_token() {
    assert!(Vocabulary::from_entries(pairs(&[("", 0)]), vec![]).is_none());
}

#[test]
fn from_entries_rejects_a_counter_longer_than_the_table() {
    assert!(Vocabulary::from_entries(pairs(&[("a", 0)]), vec![1, 2]).is_none());
    assert!(Vocabulary::from_entries(pairs(&[("a", 0)]), vec![1]).is_some());
}
