//! The stopword set, and the word lists that the default set is made of.

use crate::listing::lemma_with_words;
use crate::listing::lemma_with_words_concat;
use crate::listing::with_word;
use crate::listing::with_words;
use crate::views::strs;
use crate::views::texts;
use vstd::hash_set::StringHashSet;
use vstd::prelude::*;

verus! {

/// The English stopwords of Lucene's standard analyzer.
pub const ENGLISH_LUCENE: [&'static str; 33] = [
    "a", "an", "and", "are", "as", "at", "be", "but", "by", "for", "if", "in", "into", "is", "it",
    "no", "not", "of", "on", "or", "such", "that", "the", "their", "then", "there", "these",
    "they", "this", "to", "was", "will", "with",
];

/// The stopwords of Lucene's CJK analyzer.
pub const CJK_LUCENE: [&'static str; 35] = [
    "a", "and", "are", "as", "at", "be", "but", "by", "for", "if", "in", "into", "is", "it",
    "no", "not", "of", "on", "or", "s", "such", "t", "that", "the", "their", "then", "there",
    "these", "they", "this", "to", "was", "will", "with", "www",
];

/// The English stopwords of NLTK.
pub const ENGLISH_NLTK: [&'static str; 179] = [
    "i", "me", "my", "myself", "we", "our", "ours", "ourselves", "you", "you're", "you've",
    "you'll", "you'd", "your", "yours", "yourself", "yourselves", "he", "him", "his", "himself",
    "she", "she's", "her", "hers", "herself", "it", "it's", "its", "itself", "they", "them",
    "their", "theirs", "themselves", "what", "which", "who", "whom", "this", "that", "that'll",
    "these", "those", "am", "is", "are", "was", "were", "be", "been", "being", "have", "has",
    "had", "having", "do", "does", "did", "doing", "a", "an", "the", "and", "but", "if", "or",
    "because", "as", "until", "while", "of", "at", "by", "for", "with", "about", "against",
    "between", "into", "through", "during", "before", "after", "above", "below", "to", "from",
    "up", "down", "in", "out", "on", "off", "over", "under", "again", "further", "then", "once",
    "here", "there", "when", "where", "why", "how", "all", "any", "both", "each", "few", "more",
    "most", "other", "some", "such", "no", "nor", "not", "only", "own", "same", "so", "than",
    "too", "very", "s", "t", "can", "will", "just", "don", "don't", "should", "should've", "now",
    "d", "ll", "m", "o", "re", "ve", "y", "ain", "aren", "aren't", "couldn", "couldn't", "didn",
    "didn't", "doesn", "doesn't", "hadn", "hadn't", "hasn", "hasn't", "haven", "haven't", "isn",
    "isn't", "ma", "mightn", "mightn't", "mustn", "mustn't", "needn", "needn't", "shan",
    "shan't", "shouldn", "shouldn't", "wasn", "wasn't", "weren", "weren't", "won", "won't",
    "wouldn", "wouldn't",
];

/// Chinese stopwords of a single character.
pub const CHINESE_NLTK_SINGLE: [&'static str; 96] = [
    "一", "不", "与", "且", "个", "为", "乃", "么", "之", "乎", "也", "了", "于", "些", "从", "他",
    "以", "们", "但", "何", "你", "其", "再", "则", "别", "到", "即", "却", "又", "及", "另", "只",
    "可", "各", "同", "向", "吗", "吧", "呀", "呢", "和", "咱", "哈", "哦", "哪", "啊", "啦", "嗯",
    "嘛", "因", "在", "她", "如", "它", "对", "将", "就", "已", "并", "当", "很", "得", "您", "我",
    "或", "所", "才", "把", "拿", "按", "故", "既", "是", "曾", "最", "有", "来", "某", "此", "每",
    "比", "由", "的", "着", "给", "而", "能", "自", "至", "若", "虽", "被", "让", "该", "谁", "这",
];

/// A set of words that the tokenizer drops.
///
/// `words` lists each word of the set once, in the order in which the words
/// came in; `index` answers the membership test.
pub struct StopwordSet {
    words: Vec<String>,
    index: StringHashSet,
}

impl View for StopwordSet {
    type V = Set<Seq<char>>;

    closed spec fn view(&self) -> Set<Seq<char>> {
        self.index@
    }
}

impl StopwordSet {
    /// The words of the set, each once, in the order in which they came in.
    pub closed spec fn list(&self) -> Seq<Seq<char>> {
        texts(self.words@)
    }

    /// The list holds each word of the set once, and nothing else.
    pub open spec fn wf(&self) -> bool {
        &&& self.list().no_duplicates()
        &&& self.list().to_set() == self@
    }

    /// The empty set.
    pub fn new() -> (set: Self)
        ensures
            set.wf(),
            set@ == Set::<Seq<char>>::empty(),
            set.list() == Seq::<Seq<char>>::empty(),
    {
        let set = StopwordSet { words: Vec::new(), index: StringHashSet::new() };
        assert(texts(set.words@) =~= Seq::empty());
        assert(set.list().to_set() =~= set@);
        set
    }

    /// Whether `word` is a stopword.
    pub fn contains(&self, word: &str) -> (found: bool)
        ensures
            found == self@.contains(word@),
    {
        self.index.contains(word)
    }

    /// Adds `word` to the set; returns whether it was new.
    pub fn insert(&mut self, word: String) -> (added: bool)
        requires
            old(self).wf(),
        ensures
            final(self).wf(),
            final(self)@ == old(self)@.insert(word@),
            final(self).list() == with_word(old(self).list(), word@),
            added == !old(self)@.contains(word@),
    {
        let ghost before = self.list();
        assert(before.contains(word@) <==> before.to_set().contains(word@));
        if self.index.contains(word.as_str()) {
            assert(self@ =~= old(self)@.insert(word@));
            return false;
        }
        let key = word.clone();
        self.index.insert(key);
        self.words.push(word);
        proof {
            let after = self.list();
            assert(after =~= before.push(word@));
            assert forall|i: int, j: int|
                0 <= i < after.len() && 0 <= j < after.len() && i != j implies after[i]
                != after[j] by {
                if i < before.len() {
                    assert(before.contains(before[i]));
                }
                if j < before.len() {
                    assert(before.contains(before[j]));
                }
            }
            assert forall|w: Seq<char>| after.to_set().contains(w) <==> self@.contains(w) by {
                assert(before.to_set().contains(w) <==> old(self)@.contains(w));
                if after.contains(w) {
                    let i = after.index_of(w);
                    if i < before.len() {
                        assert(before[i] == w);
                        assert(before.contains(w));
                    }
                }
                if before.contains(w) {
                    let i = before.index_of(w);
                    assert(after[i] == w);
                }
                if w == word@ {
                    assert(after[before.len() as int] == w);
                }
            }
            assert(after.to_set() =~= self@);
        }
        true
    }

    /// The number of words in the set.
    pub fn len(&self) -> (n: usize)
        requires
            self.wf(),
        ensures
            n == self@.len(),
    {
        proof {
            self.list().unique_seq_to_set();
        }
        self.words.len()
    }

    /// The words of the set, each once, in the order in which they came in.
    pub fn words(&self) -> (words: Vec<String>)
        requires
            self.wf(),
        ensures
            texts(words@) == self.list(),
    {
        let mut words: Vec<String> = Vec::new();
        let n = self.words.len();
        let mut i: usize = 0;
        while i < n
            invariant
                n == self.words@.len(),
                i <= n,
                words@.len() == i,
                texts(words@) == texts(self.words@).take(i as int),
            decreases n - i,
        {
            let word = self.words[i].clone();
            let ghost before = words@;
            let ghost text = word@;
            words.push(word);
            proof {
                assert forall|k: int| 0 <= k <= i implies texts(words@)[k] == texts(
                    self.words@,
                )[k] by {
                    if k < i {
                        assert(words@[k] == before[k]);
                        assert(texts(before)[k] == texts(self.words@).take(i as int)[k]);
                    }
                }
                assert(texts(words@) =~= texts(self.words@).take(i + 1));
            }
            i += 1;
        }
        proof {
            assert(texts(self.words@).take(n as int) =~= texts(self.words@));
        }
        words
    }

    /// The set of the words of `words`, listed in the order in which they
    /// first occur.
    pub fn from_words(words: Vec<String>) -> (set: Self)
        ensures
            set.wf(),
            set@ == texts(words@).to_set(),
            set.list() == with_words(Seq::empty(), texts(words@)),
    {
        let mut set = StopwordSet::new();
        let n = words.len();
        let mut i: usize = 0;
        proof {
            assert(texts(words@).take(0) =~= Seq::empty());
        }
        while i < n
            invariant
                n == words@.len(),
                i <= n,
                set.wf(),
                set.list() == with_words(Seq::empty(), texts(words@).take(i as int)),
            decreases n - i,
        {
            let word = words[i].clone();
            set.insert(word);
            proof {
                let done = texts(words@).take(i as int);
                let next = texts(words@).take(i + 1);
                assert(next.drop_last() =~= done);
            }
            i += 1;
        }
        proof {
            assert(texts(words@).take(n as int) =~= texts(words@));
            lemma_with_words(Seq::empty(), texts(words@));
            assert(Seq::<Seq<char>>::empty().to_set() =~= Set::empty());
            assert(set@ =~= texts(words@).to_set());
        }
        set
    }

    /// Adds every word of `list` to the set.
    pub fn extend(&mut self, list: &[&'static str])
        requires
            old(self).wf(),
        ensures
            final(self).wf(),
            final(self)@ == old(self)@.union(strs(list@).to_set()),
            final(self).list() == with_words(old(self).list(), strs(list@)),
    {
        let n = list.len();
        let mut i: usize = 0;
        proof {
            assert(strs(list@).take(0) =~= Seq::empty());
        }
        while i < n
            invariant
                n == list@.len(),
                i <= n,
                self.wf(),
                self.list() == with_words(old(self).list(), strs(list@).take(i as int)),
            decreases n - i,
        {
            let word = list[i].to_owned();
            self.insert(word);
            proof {
                let done = strs(list@).take(i as int);
                let next = strs(list@).take(i + 1);
                assert(next.drop_last() =~= done);
            }
            i += 1;
        }
        proof {
            assert(strs(list@).take(n as int) =~= strs(list@));
            lemma_with_words(old(self).list(), strs(list@));
        }
    }
}

/// The words of the default stopword set, list after list.
pub open spec fn default_words() -> Seq<Seq<char>> {
    strs(ENGLISH_LUCENE@) + strs(CJK_LUCENE@) + strs(ENGLISH_NLTK@) + strs(CHINESE_NLTK_SINGLE@)
}

/// The default stopword set: the words of the four lists of this module,
/// each once, in the order in which they first occur.
pub fn default_stopwords() -> (set: StopwordSet)
    ensures
        set.wf(),
        set@ == default_words().to_set(),
        set.list() == with_words(Seq::empty(), default_words()),
{
    let mut set = StopwordSet::new();
    set.extend(ENGLISH_LUCENE.as_slice());
    set.extend(CJK_LUCENE.as_slice());
    set.extend(ENGLISH_NLTK.as_slice());
    set.extend(CHINESE_NLTK_SINGLE.as_slice());
    proof {
        let a = strs(ENGLISH_LUCENE@);
        let b = strs(CJK_LUCENE@);
        let c = strs(ENGLISH_NLTK@);
        let d = strs(CHINESE_NLTK_SINGLE@);
        let none = Seq::<Seq<char>>::empty();
        lemma_with_words_concat(none, a, b);
        lemma_with_words_concat(none, a + b, c);
        lemma_with_words_concat(none, a + b + c, d);
        lemma_with_words(none, default_words());
        assert(none.to_set() =~= Set::empty());
        assert(set@ =~= default_words().to_set());
    }
    set
}

} // verus!
