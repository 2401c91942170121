//! The count of the words that a trainer is fed.

use crate::encoding::corpus_words;
use crate::trainer::{BpeTrainer, TrainError};
use vstd::hash_map::StringHashMap;
use vstd::prelude::*;

verus! {

/// Entry `i` of `list` counts `word`.
pub open spec fn counts_word(list: Seq<(Seq<char>, u64)>, i: int, word: Seq<char>) -> bool {
    0 <= i < list.len() && list[i].0 == word
}

/// The entry of `list` that counts `word`, if one does.
pub open spec fn place_of(list: Seq<(Seq<char>, u64)>, word: Seq<char>) -> Option<int> {
    if exists|i: int| counts_word(list, i, word) {
        Some(choose|i: int| counts_word(list, i, word))
    } else {
        None
    }
}

/// No two entries of `list` count the same word.
pub open spec fn one_entry_each(list: Seq<(Seq<char>, u64)>) -> bool {
    forall|i: int, j: int|
        0 <= i < list.len() && 0 <= j < list.len() && (#[trigger] list[i]).0 == (#[trigger] list[j]).0
            ==> i == j
}

/// `list` after `word` was seen once more, or `None` if its count cannot
/// grow. A word seen for the first time gets a new last entry.
pub open spec fn bumped(list: Seq<(Seq<char>, u64)>, word: Seq<char>) -> Option<
    Seq<(Seq<char>, u64)>,
> {
    match place_of(list, word) {
        Some(i) => if list[i].1 == u64::MAX {
            None
        } else {
            Some(list.update(i, (word, (list[i].1 + 1) as u64)))
        },
        None => Some(list.push((word, 1))),
    }
}

/// `list` after the first `n` words of `words` were seen.
pub open spec fn seen_upto(list: Seq<(Seq<char>, u64)>, words: Seq<Seq<char>>, n: int) -> Option<
    Seq<(Seq<char>, u64)>,
>
    decreases n,
{
    if n <= 0 {
        Some(list)
    } else {
        match seen_upto(list, words, n - 1) {
            None => None,
            Some(l) => bumped(l, words[n - 1]),
        }
    }
}

/// The words of a sequence as character sequences.
pub open spec fn word_texts(words: Seq<String>) -> Seq<Seq<char>> {
    words.map_values(|w: String| w@)
}

/// The sequences as sequences of character sequences.
pub open spec fn sequence_texts(sequences: Seq<Vec<String>>) -> Seq<Seq<Seq<char>>> {
    sequences.map_values(|s: Vec<String>| word_texts(s@))
}

/// The count of the words of the first `n` sequences, or `None` if a count
/// cannot grow.
pub open spec fn fed_upto(sequences: Seq<Seq<Seq<char>>>, n: int) -> Option<Seq<(Seq<char>, u64)>>
    decreases n,
{
    if n <= 0 {
        Some(Seq::empty())
    } else {
        match fed_upto(sequences, n - 1) {
            None => None,
            Some(l) => seen_upto(l, sequences[n - 1], sequences[n - 1].len() as int),
        }
    }
}

/// The count of the words of the sequences: each word once, in the order
/// in which the words were first seen, with the number of times it was seen.
pub open spec fn fed(sequences: Seq<Seq<Seq<char>>>) -> Option<Seq<(Seq<char>, u64)>> {
    fed_upto(sequences, sequences.len() as int)
}

/// Once a count cannot grow, further words cannot help.
pub proof fn lemma_seen_stays_none(
    list: Seq<(Seq<char>, u64)>,
    words: Seq<Seq<char>>,
    i: int,
    n: int,
)
    requires
        seen_upto(list, words, i) is None,
        i <= n,
    ensures
        seen_upto(list, words, n) is None,
    decreases n,
{
    if i < n {
        lemma_seen_stays_none(list, words, i, n - 1);
    }
}

/// Once a count cannot grow, further sequences cannot help.
pub proof fn lemma_fed_stays_none(sequences: Seq<Seq<Seq<char>>>, i: int, n: int)
    requires
        fed_upto(sequences, i) is None,
        i <= n,
    ensures
        fed_upto(sequences, n) is None,
    decreases n,
{
    if i < n {
        lemma_fed_stays_none(sequences, i, n - 1);
    }
}

/// In a list without doubles, the entry found for a word is the one that counts it.
pub proof fn lemma_place_of(list: Seq<(Seq<char>, u64)>, i: int, word: Seq<char>)
    requires
        one_entry_each(list),
        counts_word(list, i, word),
    ensures
        place_of(list, word) == Some(i),
{
    let j = choose|j: int| counts_word(list, j, word);
    assert(list[j].0 == list[i].0);
}

/// A count of words under construction.
struct WordCount {
    list: Vec<(String, u64)>,
    index: StringHashMap<usize>,
}

impl WordCount {
    /// The index leads from each counted word to its entry.
    spec fn wf(&self) -> bool {
        &&& forall|w: Seq<char>| #[trigger]
            self.index@.contains_key(w) ==> self.index@[w] < self.list@.len()
                && self.list@[self.index@[w] as int].0@ == w
        &&& forall|i: int|
            0 <= i < self.list@.len() ==> self.index@.contains_key((#[trigger] self.list@[i]).0@)
                && self.index@[self.list@[i].0@] == i
    }

    /// Counts one more occurrence of `word`. Returns whether the count
    /// could grow; if not, nothing is changed.
    fn bump(&mut self, word: &String) -> (ok: bool)
        requires
            old(self).wf(),
        ensures
            final(self).wf(),
            match bumped(corpus_words(old(self).list@), word@) {
                Some(l) => ok && corpus_words(final(self).list@) == l,
                None => !ok && final(self).list@ == old(self).list@,
            },
    {
        let ghost before = corpus_words(self.list@);
        proof {
            assert forall|i: int, j: int|
                0 <= i < before.len() && 0 <= j < before.len() && (#[trigger] before[i]).0 == (
                #[trigger] before[j]).0 implies i == j by {
                assert(self.index@[self.list@[i].0@] == i);
                assert(self.index@[self.list@[j].0@] == j);
            }
        }
        match self.index.get(word.as_str()) {
            Some(at) => {
                let i = *at;
                proof {
                    assert(counts_word(before, i as int, word@));
                    lemma_place_of(before, i as int, word@);
                }
                let n = self.list[i].1;
                if n == u64::MAX {
                    return false;
                }
                let ghost old_list = self.list@;
                self.list[i].1 = n + 1;
                proof {
                    assert(corpus_words(self.list@) =~= before.update(
                        i as int,
                        (word@, (n + 1) as u64),
                    ));
                    assert forall|k: int| 0 <= k < self.list@.len() implies self.index@.contains_key(
                        (#[trigger] self.list@[k]).0@,
                    ) && self.index@[self.list@[k].0@] == k by {
                        assert(self.list@[k].0@ == old_list[k].0@);
                    }
                }
                true
            },
            None => {
                proof {
                    if exists|i: int| counts_word(before, i, word@) {
                        let i = choose|i: int| counts_word(before, i, word@);
                        assert(self.index@.contains_key(self.list@[i].0@));
                    }
                }
                let i = self.list.len();
                let ghost old_list = self.list@;
                self.list.push((word.clone(), 1));
                self.index.insert(word.clone(), i);
                proof {
                    assert(corpus_words(self.list@) =~= before.push((word@, 1)));
                    assert forall|k: int| 0 <= k < self.list@.len() implies self.index@.contains_key(
                        (#[trigger] self.list@[k]).0@,
                    ) && self.index@[self.list@[k].0@] == k by {
                        if k < i {
                            assert(self.list@[k] == old_list[k]);
                            assert(counts_word(before, k, old_list[k].0@));
                        }
                    }
                }
                true
            },
        }
    }
}

impl BpeTrainer {
    /// Counts the words of the sequences and keeps the count as the words
    /// to train on, in place of those kept before. If a word occurs more
    /// often than can be counted, the trainer is left as it was.
    pub fn feed(&mut self, sequences: &Vec<Vec<String>>) -> (r: Result<(), TrainError>)
        ensures
            final(self)@ == old(self)@,
            match fed(sequence_texts(sequences@)) {
                Some(l) => r is Ok && corpus_words(final(self).words@) == l,
                None => r == Err::<(), TrainError>(TrainError::CorpusTooLarge) && final(self).words
                    == old(self).words,
            },
    {
        let ghost st = sequence_texts(sequences@);
        let mut count = WordCount { list: Vec::new(), index: StringHashMap::new() };
        assert(corpus_words(count.list@) =~= Seq::<(Seq<char>, u64)>::empty());
        let mut i: usize = 0;
        while i < sequences.len()
            invariant
                i <= sequences.len(),
                st == sequence_texts(sequences@),
                *self == *old(self),
                count.wf(),
                fed_upto(st, i as int) == Some(corpus_words(count.list@)),
            decreases sequences.len() - i,
        {
            let words = &sequences[i];
            let ghost start = corpus_words(count.list@);
            let ghost wt = word_texts(words@);
            assert(st[i as int] == wt);
            let mut j: usize = 0;
            while j < words.len()
                invariant
                    j <= words.len(),
                    i < sequences.len(),
                    st == sequence_texts(sequences@),
                    st[i as int] == wt,
                    wt == word_texts(words@),
                    *self == *old(self),
                    count.wf(),
                    fed_upto(st, i as int) == Some(start),
                    seen_upto(start, wt, j as int) == Some(corpus_words(count.list@)),
                decreases words.len() - j,
            {
                assert(wt[j as int] == words@[j as int]@);
                if !count.bump(&words[j]) {
                    proof {
                        lemma_seen_stays_none(start, wt, j + 1, wt.len() as int);
                        assert(fed_upto(st, i + 1) is None);
                        lemma_fed_stays_none(st, i + 1, st.len() as int);
                    }
                    return Err(TrainError::CorpusTooLarge);
                }
                j += 1;
            }
            i += 1;
        }
        self.words = count.list;
        Ok(())
    }
}

} // verus!
