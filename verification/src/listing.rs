//! Lists of words in which no word occurs twice, grown in the order in which
//! the words first occur.

use vstd::prelude::*;

verus! {

/// `list` with `word` at its end, unless it holds `word` already.
pub open spec fn with_word(list: Seq<Seq<char>>, word: Seq<char>) -> Seq<Seq<char>> {
    if list.contains(word) {
        list
    } else {
        list.push(word)
    }
}

/// `list` followed by those of `words` that it does not hold yet, each once,
/// in the order in which they first occur.
pub open spec fn with_words(list: Seq<Seq<char>>, words: Seq<Seq<char>>) -> Seq<Seq<char>>
    decreases words.len(),
{
    if words.len() == 0 {
        list
    } else {
        with_word(with_words(list, words.drop_last()), words.last())
    }
}

/// What is in `with_words(list, words)` is what is in `list` or in `words`.
pub proof fn lemma_with_words(list: Seq<Seq<char>>, words: Seq<Seq<char>>)
    ensures
        with_words(list, words).to_set() =~= list.to_set().union(words.to_set()),
        list.no_duplicates() ==> with_words(list, words).no_duplicates(),
    decreases words.len(),
{
    if words.len() > 0 {
        let front = with_words(list, words.drop_last());
        let all = with_words(list, words);
        lemma_with_words(list, words.drop_last());
        assert forall|w: Seq<char>| all.contains(w) <==> list.contains(w) || words.contains(
            w,
        ) by {
            assert(front.to_set().contains(w) <==> list.to_set().contains(w)
                || words.drop_last().to_set().contains(w));
            if all.contains(w) && !front.contains(w) {
                let k = all.index_of(w);
                if k < front.len() {
                    assert(front[k] == w);
                }
                assert(w == words.last());
                assert(words[words.len() - 1] == w);
            }
            if front.contains(w) {
                let k = front.index_of(w);
                assert(all[k] == w);
            }
            if words.contains(w) {
                let k = words.index_of(w);
                if k < words.len() - 1 {
                    assert(words.drop_last()[k] == w);
                } else if !front.contains(w) {
                    assert(all[front.len() as int] == w);
                }
            }
            if words.drop_last().contains(w) {
                let k = words.drop_last().index_of(w);
                assert(words[k] == w);
            }
        }
        if list.no_duplicates() && !front.contains(words.last()) {
            assert forall|i: int, j: int|
                0 <= i < all.len() && 0 <= j < all.len() && i != j implies all[i] != all[j] by {
                if i < front.len() {
                    assert(front.contains(front[i]));
                }
                if j < front.len() {
                    assert(front.contains(front[j]));
                }
            }
        }
    }
}

/// Adding `first` and then `second` is adding `first + second`.
pub proof fn lemma_with_words_concat(
    list: Seq<Seq<char>>,
    first: Seq<Seq<char>>,
    second: Seq<Seq<char>>,
)
    ensures
        with_words(list, first + second) == with_words(with_words(list, first), second),
    decreases second.len(),
{
    if second.len() == 0 {
        assert(first + second =~= first);
    } else {
        lemma_with_words_concat(list, first, second.drop_last());
        assert((first + second).drop_last() =~= first + second.drop_last());
        assert((first + second).last() == second.last());
    }
}

} // verus!
