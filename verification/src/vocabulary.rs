//! The vocabulary table: tokens with dense ids, and how often each was seen.

use crate::model::all_nonempty;
use crate::model::lemma_entries_cover;
use crate::model::valid_entries;
use crate::model::VocabularyModel;
use crate::views::entry_views;
use crate::views::texts;
use vstd::hash_map::StringHashMap;
use vstd::prelude::*;

verus! {

/// A token-to-id table with a frequency counter.
///
/// `tokens[id]` is the token with that id; `index` maps each token back to
/// its id; `counter[id]` counts the occurrences of the token with that id,
/// and an id beyond the end of `counter` counts as never seen.
pub struct Vocabulary {
    tokens: Vec<String>,
    index: StringHashMap<u32>,
    counter: Vec<u32>,
}

impl View for Vocabulary {
    type V = VocabularyModel;

    closed spec fn view(&self) -> VocabularyModel {
        VocabularyModel {
            tokens: texts(self.tokens@),
            counts: Seq::new(self.counter@.len(), |id: int| self.counter@[id] as nat),
        }
    }
}

impl Vocabulary {
    /// The index maps exactly the tokens of the table, each to its id.
    pub closed spec fn indexed(&self) -> bool {
        &&& forall|token: Seq<char>|
            #![trigger self.index@.dom().contains(token)]
            self.index@.dom().contains(token) <==> texts(self.tokens@).contains(token)
        &&& forall|id: int|
            0 <= id < self.tokens@.len() ==> #[trigger] self.index@[self.tokens@[id]@] == id
    }

    /// The table is a well-formed vocabulary whose ids and counts fit in
    /// `u32`, and its index agrees with it.
    pub open spec fn wf(&self) -> bool {
        &&& self@.wf()
        &&& self@.fits()
        &&& self.indexed()
    }

    /// An empty vocabulary.
    pub fn new() -> (vocabulary: Self)
        ensures
            vocabulary.wf(),
            vocabulary@ == VocabularyModel::empty(),
    {
        let vocabulary = Vocabulary {
            tokens: Vec::new(),
            index: StringHashMap::new(),
            counter: Vec::new(),
        };
        assert(vocabulary@.tokens =~= Seq::empty());
        assert(vocabulary@.counts =~= Seq::empty());
        vocabulary
    }

    /// The number of tokens.
    pub fn len(&self) -> (n: usize)
        ensures
            n == self@.len(),
    {
        self.tokens.len()
    }

    /// The id of `token`, if the vocabulary holds it.
    pub fn get(&self, token: &str) -> (id: Option<u32>)
        requires
            self.wf(),
        ensures
            match id {
                Some(id) => self@.id_of(token@) == Some(id as int),
                None => self@.id_of(token@) is None,
            },
    {
        proof {
            self@.lemma_id_of(token@);
        }
        match self.index.get(token) {
            Some(id) => {
                assert(self.index@.dom().contains(token@));
                Some(*id)
            },
            None => {
                assert(!self.index@.dom().contains(token@));
                None
            },
        }
    }

    /// The token with this id, if there is one.
    pub fn token(&self, id: u32) -> (token: Option<&String>)
        ensures
            match token {
                Some(token) => id < self@.len() && token@ == self@.tokens[id as int],
                None => id >= self@.len(),
            },
    {
        if (id as usize) < self.tokens.len() {
            Some(&self.tokens[id as usize])
        } else {
            None
        }
    }

    /// How often the token with this id was seen.
    pub fn frequency(&self, id: u32) -> (count: u32)
        ensures
            count == self@.frequency(id as int),
    {
        if (id as usize) < self.counter.len() {
            self.counter[id as usize]
        } else {
            0
        }
    }

    /// The number of counts that the counter holds.
    pub fn counted(&self) -> (n: usize)
        ensures
            n == self@.counts.len(),
    {
        self.counter.len()
    }

    /// Whether one more occurrence of `token` can be recorded: its count, or
    /// the id that it would get, still fits in `u32`.
    pub fn has_room(&self, token: &str) -> (ok: bool)
        requires
            self.wf(),
        ensures
            ok == self@.learn(token@).fits(),
    {
        let ghost after = self@.learn(token@);
        match self.get(token) {
            Some(id) => {
                let count = self.frequency(id);
                proof {
                    self@.lemma_id_of(token@);
                    assert(after.counts[id as int] == count + 1);
                    if count < u32::MAX {
                        assert forall|k: int| 0 <= k < after.counts.len() implies (
                        #[trigger] after.counts[k]) <= u32::MAX by {
                            if k != id && k < self@.counts.len() {
                                assert(self@.counts[k] <= u32::MAX);
                            }
                        }
                    }
                }
                count < u32::MAX
            },
            None => {
                let n = self.tokens.len();
                proof {
                    if n < u32::MAX {
                        assert forall|k: int| 0 <= k < after.counts.len() implies (
                        #[trigger] after.counts[k]) <= u32::MAX by {
                            if k < self@.counts.len() {
                                assert(self@.counts[k] <= u32::MAX);
                            }
                        }
                    }
                }
                n < 0xffff_ffff
            },
        }
    }

    /// Fills the counter up with zeros, to one count per token.
    pub fn pad(&mut self)
        requires
            old(self).wf(),
        ensures
            final(self).wf(),
            final(self)@ == old(self)@.padded(),
    {
        while self.counter.len() < self.tokens.len()
            invariant
                self.tokens == old(self).tokens,
                self.index == old(self).index,
                old(self).wf(),
                old(self).counter@.len() <= self.counter@.len() <= self.tokens@.len(),
                forall|id: int|
                    0 <= id < self.counter@.len() ==> #[trigger] self.counter@[id] == old(
                        self,
                    )@.frequency(id),
            decreases self.tokens.len() - self.counter.len(),
        {
            self.counter.push(0);
        }
        proof {
            assert(self@.tokens == old(self)@.tokens);
            assert(self@.counts =~= old(self)@.full_counts());
            old(self)@.lemma_padded();
        }
    }

    /// Gives a token that the vocabulary does not hold the next id. The
    /// counter is left as it is.
    fn append(&mut self, token: String)
        requires
            old(self).wf(),
            token@.len() > 0,
            !old(self)@.contains(token@),
            old(self)@.len() < u32::MAX,
        ensures
            final(self).wf(),
            final(self)@.tokens == old(self)@.tokens.push(token@),
            final(self)@.counts == old(self)@.counts,
    {
        let id = self.tokens.len() as u32;
        let key = token.clone();
        self.index.insert(key, id);
        self.tokens.push(token);
        proof {
            let before = old(self)@.tokens;
            let after = self@.tokens;
            assert(after =~= before.push(token@));
            assert(self@.counts =~= old(self)@.counts);
            assert(after.no_duplicates()) by {
                assert forall|i: int, j: int|
                    0 <= i < after.len() && 0 <= j < after.len() && i != j implies after[i]
                    != after[j] by {
                    if i < before.len() {
                        assert(before.contains(before[i]));
                    }
                    if j < before.len() {
                        assert(before.contains(before[j]));
                    }
                }
            }
            assert forall|t: Seq<char>|
                #![trigger self.index@.dom().contains(t)]
                self.index@.dom().contains(t) <==> after.contains(t) by {
                if after.contains(t) {
                    let i = after.index_of(t);
                    if i < before.len() {
                        assert(before[i] == t);
                        assert(before.contains(t));
                    }
                }
                if old(self).index@.dom().contains(t) {
                    assert(before.contains(t));
                    let i = before.index_of(t);
                    assert(after[i] == t);
                }
                if t == token@ {
                    assert(after[before.len() as int] == t);
                }
            }
            assert forall|k: int| 0 <= k < self.tokens@.len() implies #[trigger] self.index@[self.tokens@[k]@]
                == k by {
                if k < before.len() {
                    assert(self.tokens@[k] == old(self).tokens@[k]);
                    assert(before[k] == old(self).tokens@[k]@);
                    assert(before.contains(before[k]));
                    assert(old(self).index@[old(self).tokens@[k]@] == k);
                }
            }
        }
    }

    /// Records one occurrence of a token: a token that is new gets the next
    /// id, and the count of the token's id goes up by one. Before that the
    /// counter is filled up with zeros, to one count per token.
    pub fn learn(&mut self, token: String)
        requires
            old(self).wf(),
            token@.len() > 0,
            old(self)@.learn(token@).fits(),
        ensures
            final(self).wf(),
            final(self)@ == old(self)@.learn(token@),
    {
        proof {
            old(self)@.lemma_learn(token@);
            old(self)@.lemma_id_of(token@);
        }
        self.pad();
        let ghost padded = self@;
        match self.get(token.as_str()) {
            Some(id) => {
                let count = self.counter[id as usize];
                proof {
                    assert(self@.counts[id as int] == count);
                    assert(old(self)@.full_counts()[id as int] == old(self)@.frequency(id as int));
                    assert(old(self)@.id_of(token@) == Some(id as int));
                    assert(old(self)@.learn(token@).counts[id as int] == count + 1);
                }
                self.counter.set(id as usize, count + 1);
                proof {
                    assert(self@.tokens == padded.tokens);
                    assert(self@.counts =~= old(self)@.learn(token@).counts);
                }
            },
            None => {
                self.append(token);
                self.counter.push(1);
                proof {
                    assert(self@.tokens == old(self)@.learn(token@).tokens);
                    assert(self@.counts =~= old(self)@.learn(token@).counts);
                }
            },
        }
    }

    /// Records the occurrences `tokens`, in order, after filling the counter
    /// up with zeros.
    pub fn learn_all(&mut self, tokens: Vec<String>)
        requires
            old(self).wf(),
            all_nonempty(texts(tokens@)),
            old(self)@.learn_all(texts(tokens@)).fits(),
        ensures
            final(self).wf(),
            final(self)@ == old(self)@.learn_all(texts(tokens@)),
    {
        let ghost all = texts(tokens@);
        self.pad();
        let n = tokens.len();
        let mut i: usize = 0;
        proof {
            assert(all.take(0) =~= Seq::empty());
        }
        while i < n
            invariant
                n == tokens@.len(),
                all == texts(tokens@),
                i <= n,
                old(self).wf(),
                all_nonempty(all),
                old(self)@.learn_all(all).fits(),
                self.wf(),
                self@ == old(self)@.learn_all(all.take(i as int)),
            decreases n - i,
        {
            let token = tokens[i].clone();
            proof {
                let done = all.take(i as int);
                let next = all.take(i + 1);
                assert(next =~= done.push(all[i as int]));
                assert(all =~= next + all.skip(i + 1));
                old(self)@.lemma_learn_all_push(done, all[i as int]);
                old(self)@.lemma_fits_prefix(next, all.skip(i + 1));
                assert(token@ == all[i as int]);
            }
            self.learn(token);
            i += 1;
        }
        proof {
            assert(all.take(n as int) =~= all);
        }
    }

    /// The ids of those of `tokens` that the vocabulary holds, in order.
    pub fn ids(&self, tokens: &Vec<String>) -> (ids: Vec<u32>)
        requires
            self.wf(),
        ensures
            ids@ == self@.ids_of(texts(tokens@)),
    {
        let ghost all = texts(tokens@);
        let mut ids: Vec<u32> = Vec::with_capacity(tokens.len());
        let n = tokens.len();
        let mut i: usize = 0;
        proof {
            assert(all.take(0) =~= Seq::empty());
        }
        while i < n
            invariant
                n == tokens@.len(),
                all == texts(tokens@),
                i <= n,
                self.wf(),
                ids@ == self@.ids_of(all.take(i as int)),
            decreases n - i,
        {
            proof {
                assert(all.take(i + 1) =~= all.take(i as int).push(all[i as int]));
                self@.lemma_ids_of_push(all.take(i as int), all[i as int]);
            }
            match self.get(tokens[i].as_str()) {
                Some(id) => {
                    ids.push(id);
                },
                None => {},
            }
            i += 1;
        }
        proof {
            assert(all.take(n as int) =~= all);
        }
        ids
    }

    /// Keeps the tokens seen at least `min_freq` times, renumbers them in
    /// the order of their former ids, and empties the counter.
    pub fn trim(&mut self, min_freq: u32)
        requires
            old(self).wf(),
        ensures
            final(self).wf(),
            final(self)@ == old(self)@.trimmed(min_freq as nat),
    {
        let mut kept = Vocabulary::new();
        let n = self.tokens.len();
        let mut id: usize = 0;
        while id < n
            invariant
                self.wf(),
                n == self.tokens@.len(),
                id <= n,
                kept.wf(),
                kept@.tokens == self@.survivors(min_freq as nat, id as nat),
                kept@.counts.len() == 0,
            decreases n - id,
        {
            proof {
                self@.lemma_survivors(min_freq as nat, id as nat);
                self@.lemma_id_of(self@.tokens[id as int]);
            }
            if self.frequency(id as u32) >= min_freq {
                let token = self.tokens[id].clone();
                assert(token@ == self@.tokens[id as int]);
                kept.append(token);
            }
            id += 1;
        }
        proof {
            assert(kept@.counts =~= Seq::empty());
        }
        *self = kept;
    }

    /// A copy of the vocabulary.
    pub fn duplicate(&self) -> (copy: Self)
        requires
            self.wf(),
        ensures
            copy.wf(),
            copy@ == self@,
    {
        let mut copy = Vocabulary::new();
        let n = self.tokens.len();
        let mut id: usize = 0;
        while id < n
            invariant
                self.wf(),
                n == self.tokens@.len(),
                id <= n,
                copy.wf(),
                copy@.tokens == self@.tokens.take(id as int),
                copy@.counts.len() == 0,
            decreases n - id,
        {
            let token = self.tokens[id].clone();
            proof {
                assert(token@ == self@.tokens[id as int]);
                assert(!copy@.contains(token@)) by {
                    if copy@.contains(token@) {
                        let k = copy@.tokens.index_of(token@);
                        assert(self@.tokens[k] == self@.tokens[id as int]);
                    }
                }
            }
            copy.append(token);
            proof {
                assert(self@.tokens.take(id as int).push(token@) =~= self@.tokens.take(id + 1));
            }
            id += 1;
        }
        let ghost filled = copy;
        let m = self.counter.len();
        let mut k: usize = 0;
        while k < m
            invariant
                m == self.counter@.len(),
                k <= m,
                copy.tokens == filled.tokens,
                copy.index == filled.index,
                copy.counter@ == self.counter@.take(k as int),
            decreases m - k,
        {
            copy.counter.push(self.counter[k]);
            proof {
                assert(self.counter@.take(k as int).push(self.counter@[k as int])
                    =~= self.counter@.take(k + 1));
            }
            k += 1;
        }
        proof {
            assert(self@.tokens.take(n as int) =~= self@.tokens);
            assert(self.counter@.take(m as int) =~= self.counter@);
            assert(copy@.tokens == self@.tokens);
            assert(copy@.counts =~= self@.counts);
        }
        copy
    }

    /// The table as pairs of a token and its id, in the order of the ids.
    pub fn entries(&self) -> (entries: Vec<(String, u32)>)
        requires
            self.wf(),
        ensures
            entry_views(entries@) == self@.entries(),
    {
        let mut entries: Vec<(String, u32)> = Vec::new();
        let n = self.tokens.len();
        let mut id: usize = 0;
        while id < n
            invariant
                self.wf(),
                n == self.tokens@.len(),
                id <= n,
                entries@.len() == id,
                entry_views(entries@) == self@.entries().take(id as int),
            decreases n - id,
        {
            let token = self.tokens[id].clone();
            let ghost before = entries@;
            let ghost text = token@;
            entries.push((token, id as u32));
            proof {
                assert(text == self@.tokens[id as int]);
                assert forall|k: int| 0 <= k <= id implies entry_views(entries@)[k]
                    == self@.entries()[k] by {
                    if k < id {
                        assert(entries@[k] == before[k]);
                        assert(entry_views(before)[k] == self@.entries().take(id as int)[k]);
                    }
                }
                assert(entry_views(entries@) =~= self@.entries().take(id + 1));
            }
            id += 1;
        }
        proof {
            assert(self@.entries().take(n as int) =~= self@.entries());
        }
        entries
    }

    /// The counter as it is stored: one count per id, for the ids that the
    /// counter reaches.
    pub fn counts(&self) -> (counts: Vec<u32>)
        requires
            self.wf(),
        ensures
            counts@ == self@.stored_counts(),
    {
        let mut counts: Vec<u32> = Vec::new();
        let m = self.counter.len();
        let mut id: usize = 0;
        while id < m
            invariant
                m == self.counter@.len(),
                id <= m,
                counts@ == self.counter@.take(id as int),
            decreases m - id,
        {
            counts.push(self.counter[id]);
            proof {
                assert(self.counter@.take(id as int).push(self.counter@[id as int])
                    =~= self.counter@.take(id + 1));
            }
            id += 1;
        }
        proof {
            assert(self.counter@.take(m as int) =~= self.counter@);
            assert(counts@ =~= self@.stored_counts());
        }
        counts
    }

    /// Builds the vocabulary that `entries`, pairs of a token and its id,
    /// and `counter` describe, or returns `None` where they describe none:
    /// where a token is empty or occurs twice, an id occurs twice or is not
    /// below the number of entries, or the counter is longer than the table.
    pub fn from_entries(entries: Vec<(String, u32)>, counter: Vec<u32>) -> (res: Option<Self>)
        ensures
            res is Some <==> valid_entries(entry_views(entries@), counter@),
            res matches Some(vocabulary) ==> vocabulary.wf() && vocabulary@
                == VocabularyModel::from_entries(entry_views(entries@), counter@),
    {
        let ghost pairs = entry_views(entries@);
        let n = entries.len();
        if n > 0xffff_ffff || counter.len() > n {
            return None;
        }
        let mut slots: Vec<usize> = Vec::new();
        let mut k: usize = 0;
        while k < n
            invariant
                k <= n,
                slots@.len() == k,
                forall|id: int| 0 <= id < k ==> #[trigger] slots@[id] == n,
            decreases n - k,
        {
            slots.push(n);
            k += 1;
        }
        let mut i: usize = 0;
        while i < n
            invariant
                n == entries@.len(),
                pairs == entry_views(entries@),
                i <= n,
                slots@.len() == n,
                forall|id: int|
                    0 <= id < n ==> #[trigger] slots@[id] == n || (slots@[id] < i
                        && pairs[slots@[id] as int].1 == id),
                forall|j: int|
                    0 <= j < i ==> (#[trigger] pairs[j]).0.len() > 0 && pairs[j].1 < n
                        && slots@[pairs[j].1 as int] == j,
            decreases n - i,
        {
            let id = entries[i].1 as usize;
            assert(pairs[i as int].1 == id);
            assert(pairs[i as int].0 == entries@[i as int].0@);
            if id >= n || entries[i].0.as_str().is_empty() {
                return None;
            }
            if slots[id] != n {
                proof {
                    let j = slots@[id as int] as int;
                    assert(pairs[j].1 == pairs[i as int].1);
                }
                return None;
            }
            slots.set(id, i);
            i += 1;
        }
        proof {
            assert forall|a: int, b: int| 0 <= a < b < n implies (#[trigger] pairs[a]).1 != (
            #[trigger] pairs[b]).1 by {
                assert(slots@[pairs[a].1 as int] == a);
                assert(slots@[pairs[b].1 as int] == b);
            }
        }
        let mut vocabulary = Vocabulary::new();
        let mut id: usize = 0;
        while id < n
            invariant
                n == entries@.len(),
                n <= u32::MAX,
                pairs == entry_views(entries@),
                id <= n,
                slots@.len() == n,
                forall|j: int|
                    0 <= j < n ==> (#[trigger] pairs[j]).0.len() > 0 && pairs[j].1 < n
                        && slots@[pairs[j].1 as int] == j,
                forall|a: int, b: int|
                    0 <= a < b < n ==> (#[trigger] pairs[a]).1 != (#[trigger] pairs[b]).1,
                forall|k: int|
                    0 <= k < n ==> #[trigger] slots@[k] == n || (slots@[k] < n
                        && pairs[slots@[k] as int].1 == k),
                vocabulary.wf(),
                vocabulary@.counts.len() == 0,
                vocabulary@.tokens.len() == id,
                forall|k: int| 0 <= k < id ==> #[trigger] slots@[k] < n,
                forall|k: int|
                    0 <= k < id ==> #[trigger] vocabulary@.tokens[k] == pairs[slots@[k] as int].0,
            decreases n - id,
        {
            let slot = slots[id];
            if slot >= n {
                proof {
                    if valid_entries(pairs, counter@) {
                        lemma_entries_cover(pairs, counter@);
                        let j = crate::model::entry_with_id(pairs, id as int);
                        assert(pairs[j].1 == id);
                        assert(slots@[pairs[j].1 as int] == j);
                    }
                }
                return None;
            }
            let token = entries[slot].0.clone();
            assert(token@ == pairs[slot as int].0);
            if vocabulary.get(token.as_str()).is_some() {
                proof {
                    vocabulary@.lemma_id_of(token@);
                    let k = vocabulary@.id_of(token@)->0;
                    let other = slots@[k] as int;
                    assert(pairs[other].0 == pairs[slot as int].0);
                    assert(pairs[other].1 == k && pairs[slot as int].1 == id);
                    if other < slot {
                        assert(pairs[other].0 == pairs[slot as int].0);
                    } else {
                        assert(pairs[slot as int].0 == pairs[other].0);
                    }
                }
                return None;
            }
            let ghost earlier = vocabulary@.tokens;
            vocabulary.append(token);
            proof {
                assert forall|k: int| 0 <= k < id + 1 implies #[trigger] vocabulary@.tokens[k]
                    == pairs[slots@[k] as int].0 by {
                    if k < id {
                        assert(vocabulary@.tokens[k] == earlier[k]);
                    }
                }
            }
            id += 1;
        }
        proof {
            assert forall|a: int, b: int| 0 <= a < b < n implies (#[trigger] pairs[a]).0 != (
            #[trigger] pairs[b]).0 by {
                let x = pairs[a].1 as int;
                let y = pairs[b].1 as int;
                assert(slots@[x] == a && slots@[y] == b);
                assert(vocabulary@.tokens[x] == pairs[slots@[x] as int].0);
                assert(vocabulary@.tokens[y] == pairs[slots@[y] as int].0);
                assert(vocabulary@.tokens[x] == pairs[a].0);
                assert(vocabulary@.tokens[y] == pairs[b].0);
            }
            assert(valid_entries(pairs, counter@));
            lemma_entries_cover(pairs, counter@);
            let table = VocabularyModel::from_entries(pairs, counter@);
            assert(vocabulary@.tokens =~= table.tokens) by {
                assert forall|k: int| 0 <= k < n implies vocabulary@.tokens[k]
                    == table.tokens[k] by {
                    let j = crate::model::entry_with_id(pairs, k);
                    assert(pairs[j].1 == k);
                    assert(slots@[pairs[j].1 as int] == j);
                }
            }
        }
        vocabulary.counter = counter;
        proof {
            assert(vocabulary@.counts =~= VocabularyModel::from_entries(pairs, counter@).counts);
            assert(vocabulary@.fits());
        }
        Some(vocabulary)
    }
}

} // verus!
