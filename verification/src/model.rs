//! The mathematical model of a vocabulary table, and what holds of it.
//!
//! A vocabulary is a sequence of distinct tokens, the id of a token being its
//! position, together with one occurrence count per id. Counts that are
//! missing at the end of the counter read as zero.

use crate::listing::with_words;
use vstd::prelude::*;

verus! {

/// A vocabulary table: `tokens[id]` is the token with that id, `counts[id]`
/// the number of times it was seen.
pub struct VocabularyModel {
    pub tokens: Seq<Seq<char>>,
    pub counts: Seq<nat>,
}

/// Whether every token of `tokens` has at least one character.
pub open spec fn all_nonempty(tokens: Seq<Seq<char>>) -> bool {
    forall|i: int| 0 <= i < tokens.len() ==> (#[trigger] tokens[i]).len() > 0
}

/// How often `token` occurs in `tokens`.
pub open spec fn occurrences(tokens: Seq<Seq<char>>, token: Seq<char>) -> nat
    decreases tokens.len(),
{
    if tokens.len() == 0 {
        0
    } else {
        occurrences(tokens.drop_last(), token) + (if tokens.last() == token {
            1nat
        } else {
            0nat
        })
    }
}

/// Whether `entries`, pairs of a token and its id, and `counts` describe a
/// vocabulary: the tokens are distinct and not empty, the ids are distinct
/// and below the number of entries, which fits in `u32`, and there are no
/// more counts than entries.
pub open spec fn valid_entries(entries: Seq<(Seq<char>, u32)>, counts: Seq<u32>) -> bool {
    &&& entries.len() <= u32::MAX
    &&& counts.len() <= entries.len()
    &&& forall|i: int|
        0 <= i < entries.len() ==> (#[trigger] entries[i]).0.len() > 0 && entries[i].1
            < entries.len()
    &&& forall|i: int, j: int|
        0 <= i < j < entries.len() ==> (#[trigger] entries[i]).0 != (#[trigger] entries[j]).0
            && entries[i].1 != entries[j].1
}

/// The position in `entries` of an entry with this id.
pub open spec fn entry_with_id(entries: Seq<(Seq<char>, u32)>, id: int) -> int {
    choose|i: int| 0 <= i < entries.len() && (#[trigger] entries[i]).1 == id
}

/// Distinct ids below the number of entries leave no gap: every id below
/// that number belongs to exactly one entry.
pub proof fn lemma_entries_cover(entries: Seq<(Seq<char>, u32)>, counts: Seq<u32>)
    requires
        valid_entries(entries, counts),
    ensures
        forall|id: int|
            0 <= id < entries.len() ==> 0 <= #[trigger] entry_with_id(entries, id) < entries.len()
                && entries[entry_with_id(entries, id)].1 == id,
        forall|i: int|
            0 <= i < entries.len() ==> entry_with_id(entries, (#[trigger] entries[i]).1 as int)
                == i,
{
    let n = entries.len() as int;
    let ids = Seq::new(entries.len(), |i: int| entries[i].1 as int);
    assert(ids.no_duplicates()) by {
        assert forall|i: int, j: int| 0 <= i < ids.len() && 0 <= j < ids.len() && i != j implies ids[i]
            != ids[j] by {
            if i < j {
                assert(entries[i].1 != entries[j].1);
            } else {
                assert(entries[j].1 != entries[i].1);
            }
        }
    }
    ids.unique_seq_to_set();
    vstd::seq_lib::seq_to_set_is_finite(ids);
    vstd::set_lib::lemma_int_range(0, n);
    let range = vstd::set_lib::set_int_range(0, n);
    assert(ids.to_set().subset_of(range)) by {
        assert forall|id: int| ids.to_set().contains(id) implies range.contains(id) by {
            let i = choose|i: int| 0 <= i < ids.len() && ids[i] == id;
            assert(entries[i].1 < entries.len());
        }
    }
    vstd::set_lib::lemma_subset_equality(ids.to_set(), range);
    assert forall|id: int| 0 <= id < entries.len() implies 0 <= #[trigger] entry_with_id(
        entries,
        id,
    ) < entries.len() && entries[entry_with_id(entries, id)].1 == id by {
        assert(range.contains(id));
        assert(ids.to_set().contains(id));
        let i = choose|i: int| 0 <= i < ids.len() && ids[i] == id;
        assert(entries[i].1 == id);
    }
    assert forall|i: int| 0 <= i < entries.len() implies entry_with_id(
        entries,
        (#[trigger] entries[i]).1 as int,
    ) == i by {
        let k = entry_with_id(entries, entries[i].1 as int);
        assert(entries[k].1 == entries[i].1);
        if k < i {
            assert(entries[k].1 != entries[i].1);
        } else if i < k {
            assert(entries[i].1 != entries[k].1);
        }
    }
}

impl VocabularyModel {
    /// The vocabulary without tokens.
    pub open spec fn empty() -> Self {
        VocabularyModel { tokens: Seq::empty(), counts: Seq::empty() }
    }

    /// No token occurs twice, none is empty, and there are no more counts
    /// than tokens.
    pub open spec fn wf(self) -> bool {
        &&& self.tokens.no_duplicates()
        &&& all_nonempty(self.tokens)
        &&& self.counts.len() <= self.tokens.len()
    }

    /// Whether every id and every count fits in a `u32`.
    pub open spec fn fits(self) -> bool {
        &&& self.tokens.len() <= u32::MAX
        &&& forall|id: int| 0 <= id < self.counts.len() ==> #[trigger] self.counts[id] <= u32::MAX
    }

    /// The number of tokens.
    pub open spec fn len(self) -> nat {
        self.tokens.len()
    }

    /// Whether `token` is in the vocabulary.
    pub open spec fn contains(self, token: Seq<char>) -> bool {
        self.tokens.contains(token)
    }

    /// The id of `token`, or `None` where the vocabulary does not hold it.
    pub open spec fn id_of(self, token: Seq<char>) -> Option<int> {
        if self.tokens.contains(token) {
            Some(self.tokens.index_of(token))
        } else {
            None
        }
    }

    /// How often the token with this id was seen; zero where the counter
    /// does not reach it.
    pub open spec fn frequency(self, id: int) -> nat {
        if 0 <= id < self.counts.len() {
            self.counts[id]
        } else {
            0
        }
    }

    /// How often `token` was seen; zero where the vocabulary does not hold
    /// it.
    pub open spec fn frequency_of(self, token: Seq<char>) -> nat {
        match self.id_of(token) {
            Some(id) => self.frequency(id),
            None => 0,
        }
    }

    /// One count per token: the counter, filled up with zeros.
    pub open spec fn full_counts(self) -> Seq<nat> {
        Seq::new(self.tokens.len(), |id: int| self.frequency(id))
    }

    /// The same vocabulary with one count per token.
    pub open spec fn padded(self) -> Self {
        VocabularyModel { tokens: self.tokens, counts: self.full_counts() }
    }

    /// The vocabulary after one occurrence of `token`: a token that is new
    /// gets the next id, and the count of the token's id goes up by one.
    pub open spec fn learn(self, token: Seq<char>) -> Self {
        match self.id_of(token) {
            Some(id) => VocabularyModel {
                tokens: self.tokens,
                counts: self.full_counts().update(id, self.frequency(id) + 1),
            },
            None => VocabularyModel {
                tokens: self.tokens.push(token),
                counts: self.full_counts().push(1),
            },
        }
    }

    /// The vocabulary after the occurrences `tokens`, learned in order, with
    /// one count per token even where there was nothing to learn.
    pub open spec fn learn_all(self, tokens: Seq<Seq<char>>) -> Self
        decreases tokens.len(),
    {
        if tokens.len() == 0 {
            self.padded()
        } else {
            self.learn_all(tokens.drop_last()).learn(tokens.last())
        }
    }

    /// The ids of those of `tokens` that the vocabulary holds, in order;
    /// a token that it does not hold leaves no trace.
    pub open spec fn ids_of(self, tokens: Seq<Seq<char>>) -> Seq<u32>
        decreases tokens.len(),
    {
        if tokens.len() == 0 {
            Seq::empty()
        } else {
            let ids = self.ids_of(tokens.drop_last());
            match self.id_of(tokens.last()) {
                Some(id) => ids.push(id as u32),
                None => ids,
            }
        }
    }

    /// Among the tokens with an id below `n`, those seen at least `min_freq`
    /// times, in the order of their ids.
    pub open spec fn survivors(self, min_freq: nat, n: nat) -> Seq<Seq<char>>
        decreases n,
    {
        if n == 0 {
            Seq::empty()
        } else {
            let rest = self.survivors(min_freq, (n - 1) as nat);
            if self.frequency(n - 1) >= min_freq {
                rest.push(self.tokens[n - 1])
            } else {
                rest
            }
        }
    }

    /// The vocabulary after trimming: the tokens seen at least `min_freq`
    /// times, renumbered in the order of their former ids, and no counts.
    pub open spec fn trimmed(self, min_freq: nat) -> Self {
        VocabularyModel {
            tokens: self.survivors(min_freq, self.tokens.len()),
            counts: Seq::empty(),
        }
    }

    /// The ids that some token has.
    pub open spec fn assigned_ids(self) -> Set<int> {
        Set::new(|id: int| exists|token: Seq<char>| self.id_of(token) == Some(id))
    }

    /// Whether the ids in use are exactly `0, 1, ..., len() - 1`.
    pub open spec fn ids_dense(self) -> bool {
        self.assigned_ids() =~= Set::new(|id: int| 0 <= id < self.len())
    }

    /// Whether `token` is in the vocabulary and was seen at least `min_freq`
    /// times.
    pub open spec fn seen_often(self, token: Seq<char>, min_freq: nat) -> bool {
        self.id_of(token) matches Some(id) && self.frequency(id) >= min_freq
    }

    /// Whether `self` agrees with `later` on every token it holds: the token
    /// keeps its id, and its count has not gone down.
    pub open spec fn extended_by(self, later: Self) -> bool {
        &&& self.tokens.len() <= later.tokens.len()
        &&& forall|id: int|
            0 <= id < self.tokens.len() ==> #[trigger] later.tokens[id] == self.tokens[id]
        &&& forall|id: int|
            0 <= id < self.tokens.len() ==> self.frequency(id) <= #[trigger] later.frequency(id)
    }

    /// The id of a token is its position: a token that the vocabulary holds
    /// has an id below `len()`, the token at that position is the token
    /// itself, and a token that it does not hold has none.
    pub proof fn lemma_id_of(self, token: Seq<char>)
        requires
            self.wf(),
        ensures
            match self.id_of(token) {
                Some(id) => 0 <= id < self.len() && self.tokens[id] == token,
                None => !self.contains(token),
            },
            forall|id: int|
                0 <= id < self.len() ==> self.id_of(#[trigger] self.tokens[id]) == Some(id),
    {
        assert forall|id: int| 0 <= id < self.len() implies self.id_of(
            #[trigger] self.tokens[id],
        ) == Some(id) by {
            let t = self.tokens[id];
            assert(self.tokens.contains(t));
            let j = self.tokens.index_of(t);
            assert(0 <= j < self.tokens.len() && self.tokens[j] == t);
        }
    }

    /// Density: the ids in use are exactly `0, 1, ..., len() - 1`, and no two
    /// tokens share one.
    pub proof fn lemma_ids_dense(self)
        requires
            self.wf(),
        ensures
            self.ids_dense(),
            forall|a: Seq<char>, b: Seq<char>|
                #![trigger self.id_of(a), self.id_of(b)]
                self.id_of(a) is Some && self.id_of(a) == self.id_of(b) ==> a == b,
    {
        assert forall|id: int| self.assigned_ids().contains(id) <==> 0 <= id < self.len() by {
            if self.assigned_ids().contains(id) {
                let token = choose|token: Seq<char>| self.id_of(token) == Some(id);
                self.lemma_id_of(token);
            }
            if 0 <= id < self.len() {
                self.lemma_id_of(self.tokens[id]);
                assert(self.id_of(self.tokens[id]) == Some(id));
            }
        }
        assert forall|a: Seq<char>, b: Seq<char>|
            #![trigger self.id_of(a), self.id_of(b)]
            self.id_of(a) is Some && self.id_of(a) == self.id_of(b) implies a == b by {
            self.lemma_id_of(a);
            self.lemma_id_of(b);
        }
    }

    /// Padding changes neither a token, an id nor a frequency.
    pub proof fn lemma_padded(self)
        requires
            self.wf(),
        ensures
            self.padded().wf(),
            self.padded().counts.len() == self.len(),
            self.padded().tokens == self.tokens,
            forall|id: int| self.padded().frequency(id) == #[trigger] self.frequency(id),
            self.fits() ==> self.padded().fits(),
            self.extended_by(self.padded()),
    {
    }

    /// A vocabulary with one count per token is its own padding.
    pub proof fn lemma_padded_full(self)
        requires
            self.counts.len() == self.tokens.len(),
        ensures
            self.padded() == self,
    {
        assert(self.full_counts() =~= self.counts);
    }

    /// One occurrence of a token: the vocabulary stays well formed, keeps
    /// every token under its id, holds the token afterwards, has one count
    /// per token, and only the count of that token has changed, by one.
    pub proof fn lemma_learn(self, token: Seq<char>)
        requires
            self.wf(),
            token.len() > 0,
        ensures
            self.learn(token).wf(),
            self.learn(token).counts.len() == self.learn(token).len(),
            self.extended_by(self.learn(token)),
            self.learn(token).len() == self.len() + (if self.contains(token) {
                0int
            } else {
                1int
            }),
            self.learn(token).id_of(token) is Some,
            self.contains(token) ==> self.learn(token).id_of(token) == self.id_of(token),
            !self.contains(token) ==> self.learn(token).id_of(token) == Some(self.len() as int),
            forall|id: int|
                #![trigger self.learn(token).frequency(id)]
                self.learn(token).frequency(id) == self.frequency(id) + (if Some(id)
                    == self.learn(token).id_of(token) {
                    1int
                } else {
                    0int
                }),
    {
        let after = self.learn(token);
        self.lemma_id_of(token);
        match self.id_of(token) {
            Some(id) => {
                assert(after.tokens == self.tokens);
                assert(after.id_of(token) == Some(id));
            },
            None => {
                assert(after.tokens == self.tokens.push(token));
                assert(after.tokens.no_duplicates()) by {
                    assert forall|i: int, j: int|
                        0 <= i < after.tokens.len() && 0 <= j < after.tokens.len() && i != j implies after.tokens[i]
                        != after.tokens[j] by {
                        if i < self.tokens.len() {
                            assert(self.tokens.contains(self.tokens[i]));
                        }
                        if j < self.tokens.len() {
                            assert(self.tokens.contains(self.tokens[j]));
                        }
                    }
                }
                assert(after.tokens[self.len() as int] == token);
                assert(after.tokens.contains(token));
                after.lemma_id_of(token);
                let j = after.id_of(token)->0;
                assert(j == self.len()) by {
                    if j < self.len() {
                        assert(self.tokens[j] == token);
                        assert(self.tokens.contains(token));
                    }
                }
            },
        }
    }

    /// Learning the occurrences `first` and then `second` is learning
    /// `first + second`.
    pub proof fn lemma_learn_all_concat(self, first: Seq<Seq<char>>, second: Seq<Seq<char>>)
        ensures
            self.learn_all(first + second) == self.learn_all(first).learn_all(second),
        decreases second.len(),
    {
        if second.len() == 0 {
            assert(first + second =~= first);
            self.lemma_learn_all_full(first);
            self.learn_all(first).lemma_padded_full();
        } else {
            self.lemma_learn_all_concat(first, second.drop_last());
            assert((first + second).drop_last() =~= first + second.drop_last());
            assert((first + second).last() == second.last());
        }
    }

    /// After learning there is one count per token.
    pub proof fn lemma_learn_all_full(self, tokens: Seq<Seq<char>>)
        ensures
            self.learn_all(tokens).counts.len() == self.learn_all(tokens).tokens.len(),
    {
    }

    /// Learning one more occurrence after `tokens`.
    pub proof fn lemma_learn_all_push(self, tokens: Seq<Seq<char>>, token: Seq<char>)
        ensures
            self.learn_all(tokens.push(token)) == self.learn_all(tokens).learn(token),
    {
        assert(tokens.push(token).drop_last() =~= tokens);
    }

    /// `extended_by` is transitive.
    pub proof fn lemma_extended_by_transitive(self, middle: Self, later: Self)
        requires
            self.extended_by(middle),
            middle.extended_by(later),
        ensures
            self.extended_by(later),
    {
        assert forall|id: int| 0 <= id < self.tokens.len() implies self.frequency(id)
            <= #[trigger] later.frequency(id) by {
            assert(self.frequency(id) <= middle.frequency(id));
        }
        assert forall|id: int| 0 <= id < self.tokens.len() implies #[trigger] later.tokens[id]
            == self.tokens[id] by {
            assert(middle.tokens[id] == self.tokens[id]);
        }
    }

    /// Monotonic growth: learning never removes a token, never changes an id
    /// and never lowers a count, and it keeps the vocabulary well formed.
    pub proof fn lemma_learn_all(self, tokens: Seq<Seq<char>>)
        requires
            self.wf(),
            all_nonempty(tokens),
        ensures
            self.learn_all(tokens).wf(),
            self.extended_by(self.learn_all(tokens)),
            self.len() <= self.learn_all(tokens).len() <= self.len() + tokens.len(),
            forall|i: int|
                0 <= i < tokens.len() ==> self.learn_all(tokens).contains(#[trigger] tokens[i]),
        decreases tokens.len(),
    {
        if tokens.len() == 0 {
            self.lemma_padded();
        } else {
            let before = self.learn_all(tokens.drop_last());
            let after = self.learn_all(tokens);
            assert(all_nonempty(tokens.drop_last())) by {
                assert forall|i: int| 0 <= i < tokens.drop_last().len() implies (
                #[trigger] tokens.drop_last()[i]).len() > 0 by {
                    assert(tokens.drop_last()[i] == tokens[i]);
                }
            }
            self.lemma_learn_all(tokens.drop_last());
            before.lemma_learn(tokens.last());
            self.lemma_extended_by_transitive(before, after);
            assert forall|i: int| 0 <= i < tokens.len() implies after.contains(
                #[trigger] tokens[i],
            ) by {
                if i < tokens.len() - 1 {
                    assert(tokens.drop_last()[i] == tokens[i]);
                    assert(before.contains(tokens[i]));
                    before.lemma_id_of(tokens[i]);
                    let id = before.id_of(tokens[i])->0;
                    assert(after.tokens[id] == tokens[i]);
                } else {
                    after.lemma_id_of(tokens[i]);
                }
            }
        }
    }

    /// First-seen order: after learning, the tokens are those that the
    /// vocabulary held, followed by the new ones among the occurrences, each
    /// once, in the order in which they first occurred.
    pub proof fn lemma_learn_all_tokens(self, tokens: Seq<Seq<char>>)
        ensures
            self.learn_all(tokens).tokens == with_words(self.tokens, tokens),
        decreases tokens.len(),
    {
        if tokens.len() > 0 {
            self.lemma_learn_all_tokens(tokens.drop_last());
        }
    }

    /// Counting: after learning, the vocabulary holds the tokens that it
    /// held and those that occurred, and the frequency of each token has
    /// grown by the number of its occurrences.
    pub proof fn lemma_learn_all_counts(self, tokens: Seq<Seq<char>>, token: Seq<char>)
        requires
            self.wf(),
            all_nonempty(tokens),
        ensures
            self.learn_all(tokens).contains(token) <==> self.contains(token) || tokens.contains(
                token,
            ),
            self.learn_all(tokens).frequency_of(token) == self.frequency_of(token) + occurrences(
                tokens,
                token,
            ),
        decreases tokens.len(),
    {
        if tokens.len() == 0 {
            self.lemma_padded();
        } else {
            let front = tokens.drop_last();
            let last = tokens.last();
            let before = self.learn_all(front);
            let after = self.learn_all(tokens);
            assert(all_nonempty(front)) by {
                assert forall|i: int| 0 <= i < front.len() implies (#[trigger] front[i]).len()
                    > 0 by {
                    assert(front[i] == tokens[i]);
                }
            }
            self.lemma_learn_all_counts(front, token);
            self.lemma_learn_all(front);
            before.lemma_learn(last);
            before.lemma_id_of(token);
            after.lemma_id_of(token);
            after.lemma_id_of(last);
            assert(tokens.contains(token) <==> front.contains(token) || last == token) by {
                if front.contains(token) {
                    let k = front.index_of(token);
                    assert(tokens[k] == token);
                }
                if last == token {
                    assert(tokens[tokens.len() - 1] == token);
                }
                if tokens.contains(token) {
                    let k = tokens.index_of(token);
                    if k < front.len() {
                        assert(front[k] == token);
                    }
                }
            }
            if before.contains(token) {
                let id = before.id_of(token)->0;
                assert(after.tokens[id] == token);
                assert(after.contains(token));
                assert(after.id_of(token) == Some(id));
                assert(after.frequency(id) == before.frequency(id) + (if Some(id) == after.id_of(
                    last,
                ) {
                    1int
                } else {
                    0int
                }));
            } else if token == last {
                assert(after.id_of(token) == Some(before.len() as int));
                assert(after.frequency(before.len() as int) == before.frequency(
                    before.len() as int,
                ) + 1);
            } else {
                assert(!after.contains(token)) by {
                    if after.contains(token) {
                        let id = after.id_of(token)->0;
                        if id < before.len() {
                            assert(before.tokens[id] == token);
                        }
                    }
                }
            }
        }
    }

    /// What fits after more occurrences fitted before them: if the
    /// vocabulary after `first + second` fits in `u32`, so does the one
    /// after `first`.
    pub proof fn lemma_fits_prefix(self, first: Seq<Seq<char>>, second: Seq<Seq<char>>)
        requires
            self.wf(),
            all_nonempty(first + second),
            self.learn_all(first + second).fits(),
        ensures
            self.learn_all(first).fits(),
    {
        let middle = self.learn_all(first);
        let later = self.learn_all(first + second);
        assert(all_nonempty(first)) by {
            assert forall|i: int| 0 <= i < first.len() implies (#[trigger] first[i]).len() > 0 by {
                assert((first + second)[i] == first[i]);
            }
        }
        assert(all_nonempty(second)) by {
            assert forall|i: int| 0 <= i < second.len() implies (#[trigger] second[i]).len()
                > 0 by {
                assert((first + second)[first.len() + i] == second[i]);
            }
        }
        self.lemma_learn_all(first);
        self.lemma_learn_all_concat(first, second);
        middle.lemma_learn_all(second);
        assert forall|id: int| 0 <= id < middle.counts.len() implies #[trigger] middle.counts[id]
            <= u32::MAX by {
            assert(middle.frequency(id) <= later.frequency(id));
            assert(later.frequency(id) <= u32::MAX) by {
                if id < later.counts.len() {
                    assert(later.counts[id] <= u32::MAX);
                }
            }
        }
    }

    /// What `survivors` holds: exactly the tokens with an id below `n` that
    /// were seen at least `min_freq` times, each once, in the order of their
    /// ids.
    pub proof fn lemma_survivors(self, min_freq: nat, n: nat)
        requires
            self.wf(),
            n <= self.len(),
        ensures
            self.survivors(min_freq, n).len() <= n,
            self.survivors(min_freq, n).no_duplicates(),
            all_nonempty(self.survivors(min_freq, n)),
            forall|token: Seq<char>|
                #![trigger self.survivors(min_freq, n).contains(token)]
                self.survivors(min_freq, n).contains(token) <==> (self.id_of(token) matches Some(
                    id,
                ) && id < n && self.frequency(id) >= min_freq),
            forall|i: int, j: int|
                #![trigger self.survivors(min_freq, n)[i], self.survivors(min_freq, n)[j]]
                0 <= i < j < self.survivors(min_freq, n).len() ==> self.id_of(
                    self.survivors(min_freq, n)[i],
                )->0 < self.id_of(self.survivors(min_freq, n)[j])->0,
        decreases n,
    {
        let kept = self.survivors(min_freq, n);
        if n > 0 {
            let rest = self.survivors(min_freq, (n - 1) as nat);
            let last = self.tokens[n - 1];
            self.lemma_survivors(min_freq, (n - 1) as nat);
            self.lemma_id_of(last);
            assert(!rest.contains(last));
            if self.frequency(n - 1) >= min_freq {
                assert(kept == rest.push(last));
                assert(kept[rest.len() as int] == last);
                assert forall|i: int, j: int| 0 <= i < kept.len() && 0 <= j < kept.len() && i
                    != j implies kept[i] != kept[j] by {
                    if i < rest.len() {
                        assert(rest.contains(rest[i]));
                    }
                    if j < rest.len() {
                        assert(rest.contains(rest[j]));
                    }
                }
                assert forall|token: Seq<char>|
                    #![trigger kept.contains(token)]
                    kept.contains(token) <==> (self.id_of(token) matches Some(id) && id < n
                        && self.frequency(id) >= min_freq) by {
                    self.lemma_id_of(token);
                    if kept.contains(token) {
                        let i = kept.index_of(token);
                        if i < rest.len() {
                            assert(rest[i] == token);
                            assert(rest.contains(token));
                        }
                    }
                    if self.id_of(token) matches Some(id) && id < n && self.frequency(id)
                        >= min_freq {
                        if self.id_of(token)->0 < n - 1 {
                            assert(rest.contains(token));
                            let i = rest.index_of(token);
                            assert(kept[i] == token);
                        } else {
                            assert(token == last);
                        }
                    }
                }
                assert forall|i: int, j: int|
                    #![trigger kept[i], kept[j]]
                    0 <= i < j < kept.len() implies self.id_of(kept[i])->0 < self.id_of(
                    kept[j],
                )->0 by {
                    assert(rest[i] == kept[i]);
                    assert(rest.contains(rest[i]));
                    if j < rest.len() {
                        assert(rest[j] == kept[j]);
                    }
                }
            } else {
                assert(kept == rest);
                assert forall|token: Seq<char>|
                    #![trigger kept.contains(token)]
                    kept.contains(token) <==> (self.id_of(token) matches Some(id) && id < n
                        && self.frequency(id) >= min_freq) by {
                    self.lemma_id_of(token);
                }
            }
        } else {
            assert forall|token: Seq<char>|
                #![trigger kept.contains(token)]
                kept.contains(token) <==> (self.id_of(token) matches Some(id) && id < n
                    && self.frequency(id) >= min_freq) by {
                self.lemma_id_of(token);
            }
        }
    }

    /// Trim correctness: a token is in the trimmed vocabulary exactly if it
    /// was in the vocabulary with a frequency of at least `min_freq`; the
    /// survivors keep their relative order; the result is well formed, fits
    /// wherever the vocabulary did, and has no counts.
    pub proof fn lemma_trimmed(self, min_freq: nat)
        requires
            self.wf(),
        ensures
            self.trimmed(min_freq).wf(),
            self.trimmed(min_freq).len() <= self.len(),
            self.trimmed(min_freq).counts.len() == 0,
            self.fits() ==> self.trimmed(min_freq).fits(),
            forall|token: Seq<char>|
                #![trigger self.trimmed(min_freq).contains(token)]
                self.trimmed(min_freq).contains(token) <==> self.seen_often(token, min_freq),
            forall|a: Seq<char>, b: Seq<char>|
                #![trigger self.trimmed(min_freq).id_of(a), self.trimmed(min_freq).id_of(b)]
                self.trimmed(min_freq).contains(a) && self.trimmed(min_freq).contains(b) ==> (
                self.trimmed(min_freq).id_of(a)->0 < self.trimmed(min_freq).id_of(b)->0
                    <==> self.id_of(a)->0 < self.id_of(b)->0),
    {
        let after = self.trimmed(min_freq);
        let kept = self.survivors(min_freq, self.len());
        self.lemma_survivors(min_freq, self.len());
        assert(after.tokens == kept);
        assert forall|token: Seq<char>|
            #![trigger after.contains(token)]
            after.contains(token) <==> (self.id_of(token) matches Some(id) && self.frequency(id)
                >= min_freq) by {
            self.lemma_id_of(token);
            assert(after.contains(token) == kept.contains(token));
        }
        assert forall|a: Seq<char>, b: Seq<char>|
            #![trigger after.id_of(a), after.id_of(b)]
            after.contains(a) && after.contains(b) implies (after.id_of(a)->0 < after.id_of(b)->0
            <==> self.id_of(a)->0 < self.id_of(b)->0) by {
            after.lemma_id_of(a);
            after.lemma_id_of(b);
            let i = after.id_of(a)->0;
            let j = after.id_of(b)->0;
            assert(kept[i] == a && kept[j] == b);
            if i < j {
                assert(self.id_of(kept[i])->0 < self.id_of(kept[j])->0);
            } else if j < i {
                assert(self.id_of(kept[j])->0 < self.id_of(kept[i])->0);
            }
        }
    }

    /// Unknown-token omission: `ids_of` yields at most one id per token, each
    /// a valid id, and strictly fewer ids than tokens as soon as one of the
    /// tokens is not in the vocabulary.
    pub proof fn lemma_ids_of(self, tokens: Seq<Seq<char>>)
        requires
            self.wf(),
        ensures
            self.ids_of(tokens).len() <= tokens.len(),
            forall|k: int|
                0 <= k < self.ids_of(tokens).len() ==> #[trigger] self.ids_of(tokens)[k]
                    < self.len(),
            (exists|i: int| 0 <= i < tokens.len() && !self.contains(#[trigger] tokens[i]))
                ==> self.ids_of(tokens).len() < tokens.len(),
            (forall|i: int| 0 <= i < tokens.len() ==> self.contains(#[trigger] tokens[i]))
                ==> self.ids_of(tokens).len() == tokens.len(),
        decreases tokens.len(),
    {
        if tokens.len() > 0 {
            let front = tokens.drop_last();
            self.lemma_ids_of(front);
            self.lemma_id_of(tokens.last());
            if exists|i: int| 0 <= i < tokens.len() && !self.contains(#[trigger] tokens[i]) {
                let i = choose|i: int| 0 <= i < tokens.len() && !self.contains(#[trigger] tokens[i]);
                if i < tokens.len() - 1 {
                    assert(front[i] == tokens[i]);
                }
            }
            if forall|i: int| 0 <= i < tokens.len() ==> self.contains(#[trigger] tokens[i]) {
                assert forall|i: int| 0 <= i < front.len() implies self.contains(
                    #[trigger] front[i],
                ) by {
                    assert(front[i] == tokens[i]);
                }
                assert(self.contains(tokens[tokens.len() - 1]));
            }
        }
    }

    /// Looking up one more token after `tokens`.
    pub proof fn lemma_ids_of_push(self, tokens: Seq<Seq<char>>, token: Seq<char>)
        ensures
            self.ids_of(tokens.push(token)) == (match self.id_of(token) {
                Some(id) => self.ids_of(tokens).push(id as u32),
                None => self.ids_of(tokens),
            }),
    {
        assert(tokens.push(token).drop_last() =~= tokens);
    }

    /// The table as pairs of a token and its id, in the order of the ids.
    pub open spec fn entries(self) -> Seq<(Seq<char>, u32)> {
        Seq::new(self.tokens.len(), |id: int| (self.tokens[id], id as u32))
    }

    /// The counter as it is stored.
    pub open spec fn stored_counts(self) -> Seq<u32> {
        Seq::new(self.counts.len(), |id: int| self.counts[id] as u32)
    }

    /// The vocabulary that `entries` and `counts` describe: each token under
    /// the id that its entry gives it.
    pub open spec fn from_entries(entries: Seq<(Seq<char>, u32)>, counts: Seq<u32>) -> Self {
        VocabularyModel {
            tokens: Seq::new(entries.len(), |id: int| entries[entry_with_id(entries, id)].0),
            counts: Seq::new(counts.len(), |id: int| counts[id] as nat),
        }
    }

    /// A vocabulary built from valid entries is well formed, fits, and holds
    /// each entry's token under the entry's id.
    pub proof fn lemma_from_entries(entries: Seq<(Seq<char>, u32)>, counts: Seq<u32>)
        requires
            valid_entries(entries, counts),
        ensures
            Self::from_entries(entries, counts).wf(),
            Self::from_entries(entries, counts).fits(),
            Self::from_entries(entries, counts).len() == entries.len(),
            forall|i: int|
                0 <= i < entries.len() ==> Self::from_entries(entries, counts).id_of(
                    (#[trigger] entries[i]).0,
                ) == Some(entries[i].1 as int),
    {
        let table = Self::from_entries(entries, counts);
        lemma_entries_cover(entries, counts);
        assert(table.tokens.no_duplicates()) by {
            assert forall|a: int, b: int|
                0 <= a < table.tokens.len() && 0 <= b < table.tokens.len() && a != b implies table.tokens[a]
                != table.tokens[b] by {
                let i = entry_with_id(entries, a);
                let j = entry_with_id(entries, b);
                if i < j {
                    assert(entries[i].0 != entries[j].0);
                } else {
                    assert(entries[j].0 != entries[i].0);
                }
            }
        }
        assert(all_nonempty(table.tokens)) by {
            assert forall|id: int| 0 <= id < table.tokens.len() implies (
            #[trigger] table.tokens[id]).len() > 0 by {
                assert(entries[entry_with_id(entries, id)].0.len() > 0);
            }
        }
        assert forall|i: int| 0 <= i < entries.len() implies table.id_of(
            (#[trigger] entries[i]).0,
        ) == Some(entries[i].1 as int) by {
            let id = entries[i].1 as int;
            assert(entry_with_id(entries, id) == i);
            assert(table.tokens[id] == entries[i].0);
            table.lemma_id_of(entries[i].0);
        }
    }

    /// Whether `entries` are the entries of this table in some order.
    pub open spec fn rearranged_as(self, entries: Seq<(Seq<char>, u32)>) -> bool {
        &&& entries.len() == self.len()
        &&& entries.no_duplicates()
        &&& forall|i: int| 0 <= i < entries.len() ==> self.entries().contains(#[trigger] entries[i])
    }

    /// Round trip: the entries of a vocabulary, in whatever order, and its
    /// stored counts are valid, and the vocabulary built from them is the
    /// vocabulary itself.
    pub proof fn lemma_entries_round_trip(self, entries: Seq<(Seq<char>, u32)>)
        requires
            self.wf(),
            self.fits(),
            self.rearranged_as(entries),
        ensures
            self.rearranged_as(self.entries()),
            valid_entries(entries, self.stored_counts()),
            Self::from_entries(entries, self.stored_counts()) == self,
    {
        let counts = self.stored_counts();
        let own = self.entries();
        assert(self.rearranged_as(own)) by {
            assert forall|i: int, j: int| 0 <= i < own.len() && 0 <= j < own.len() && i
                != j implies own[i] != own[j] by {
                assert(own[i].1 == i && own[j].1 == j);
            }
        }
        assert forall|i: int| 0 <= i < entries.len() implies 0 <= (#[trigger] entries[i]).1
            < self.len() && entries[i].0 == self.tokens[entries[i].1 as int] by {
            assert(own.contains(entries[i]));
            let id = own.index_of(entries[i]);
            assert(own[id] == entries[i]);
        }
        assert(valid_entries(entries, counts)) by {
            assert forall|i: int, j: int| 0 <= i < j < entries.len() implies (
            #[trigger] entries[i]).0 != (#[trigger] entries[j]).0 && entries[i].1
                != entries[j].1 by {
                assert(entries[i] != entries[j]);
            }
        }
        lemma_entries_cover(entries, counts);
        let table = Self::from_entries(entries, counts);
        assert(table.tokens =~= self.tokens) by {
            assert forall|id: int| 0 <= id < self.tokens.len() implies table.tokens[id]
                == self.tokens[id] by {
                let i = entry_with_id(entries, id);
                assert(entries[i].1 == id);
            }
        }
        assert(table.counts =~= self.counts) by {
            assert forall|id: int| 0 <= id < self.counts.len() implies table.counts[id]
                == self.counts[id] by {
                assert(self.counts[id] <= u32::MAX);
            }
        }
    }
}

} // verus!
