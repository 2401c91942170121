//! The vocabulary: a one-to-one assignment of dense token ids to symbols.

use crate::text::string_of;
use vstd::hash_map::StringHashMap;
use vstd::prelude::*;

verus! {

/// The number of token ids that there are.
pub const MAX_TOKENS: u64 = 0x1_0000_0000;

/// The id of `word` in `vocab`, if it has one.
pub open spec fn token_id(vocab: Seq<Seq<char>>, word: Seq<char>) -> Option<u32> {
    if vocab.contains(word) {
        Some(vocab.index_of(word) as u32)
    } else {
        None
    }
}

/// `vocab` with `word` in it, and the id of `word`: the one it had, or the
/// next free one.
pub open spec fn interned(vocab: Seq<Seq<char>>, word: Seq<char>) -> (Seq<Seq<char>>, u32) {
    if vocab.contains(word) {
        (vocab, vocab.index_of(word) as u32)
    } else {
        (vocab.push(word), vocab.len() as u32)
    }
}

/// `later` begins with all of `earlier`.
pub open spec fn grown_from<T>(later: Seq<T>, earlier: Seq<T>) -> bool {
    earlier.len() <= later.len() && forall|i: int| 0 <= i < earlier.len() ==> later[i] == earlier[i]
}

/// No symbol occurs twice, and every position is a token id.
pub open spec fn is_vocabulary(vocab: Seq<Seq<char>>) -> bool {
    &&& vocab.no_duplicates()
    &&& vocab.len() <= MAX_TOKENS
}

/// In a vocabulary the id of the symbol at position `i` is `i`.
pub proof fn lemma_token_id_of_entry(vocab: Seq<Seq<char>>, i: int)
    requires
        is_vocabulary(vocab),
        0 <= i < vocab.len(),
    ensures
        token_id(vocab, vocab[i]) == Some(i as u32),
{
    assert(vocab.contains(vocab[i]));
}

/// The id that `token_id` finds is a position that holds the symbol.
pub proof fn lemma_token_id_found(vocab: Seq<Seq<char>>, word: Seq<char>)
    requires
        is_vocabulary(vocab),
        vocab.contains(word),
    ensures
        0 <= vocab.index_of(word) < vocab.len(),
        vocab[vocab.index_of(word)] == word,
        token_id(vocab, word) == Some(vocab.index_of(word) as u32),
{
}

/// Interning keeps a vocabulary one, keeps every id that was assigned, and
/// gives `word` an id.
pub proof fn lemma_interned(vocab: Seq<Seq<char>>, word: Seq<char>)
    requires
        is_vocabulary(vocab),
        vocab.contains(word) || vocab.len() < MAX_TOKENS,
    ensures
        is_vocabulary(interned(vocab, word).0),
        grown_from(interned(vocab, word).0, vocab),
        vocab.len() <= interned(vocab, word).0.len() <= vocab.len() + 1,
        interned(vocab, word).0.take(vocab.len() as int) == vocab,
        interned(vocab, word).1 < interned(vocab, word).0.len(),
        interned(vocab, word).0[interned(vocab, word).1 as int] == word,
{
    if vocab.contains(word) {
        assert(vocab.take(vocab.len() as int) =~= vocab);
    } else {
        let grown = vocab.push(word);
        assert(grown.take(vocab.len() as int) =~= vocab);
        assert forall|i: int, j: int|
            0 <= i < grown.len() && 0 <= j < grown.len() && i != j implies grown[i] != grown[j] by {
            if i < vocab.len() && j < vocab.len() {
            } else if i < vocab.len() {
                assert(vocab.contains(vocab[i]));
            } else {
                assert(vocab.contains(vocab[j]));
            }
        }
    }
}

/// A vocabulary under construction.
pub struct Vocab {
    id_to_word: Vec<Vec<char>>,
    word_to_id: StringHashMap<u32>,
}

impl View for Vocab {
    type V = Seq<Seq<char>>;

    /// The symbols, each at the position that is its token id.
    closed spec fn view(&self) -> Seq<Seq<char>> {
        self.id_to_word@.map_values(|w: Vec<char>| w@)
    }
}

impl Vocab {
    /// The two directions of the assignment agree, and every id fits `u32`.
    pub closed spec fn wf(&self) -> bool {
        &&& self.id_to_word@.len() <= MAX_TOKENS
        &&& self.word_to_id@.dom().finite()
        &&& self.word_to_id@.len() == self.id_to_word@.len()
        &&& forall|i: int|
            0 <= i < self@.len() ==> self.word_to_id@.contains_key(#[trigger] self@[i])
                && self.word_to_id@[self@[i]] == i
        &&& forall|k: Seq<char>| #[trigger]
            self.word_to_id@.contains_key(k) ==> self.word_to_id@[k] < self@.len()
                && self@[self.word_to_id@[k] as int] == k
    }

    /// The number of symbols that have an id.
    pub closed spec fn index_len(&self) -> nat {
        self.word_to_id@.len()
    }

    /// The symbols that have an id are as many as the ids that have a symbol.
    pub proof fn lemma_sizes_agree(&self)
        requires
            self.wf(),
        ensures
            self.index_len() == self@.len(),
            is_vocabulary(self@),
    {
        assert forall|i: int, j: int|
            0 <= i < self@.len() && 0 <= j < self@.len() && i != j implies self@[i] != self@[j] by {
            assert(self.word_to_id@[self@[i]] == i);
            assert(self.word_to_id@[self@[j]] == j);
        }
    }

    /// An empty vocabulary.
    pub fn new() -> (v: Vocab)
        ensures
            v.wf(),
            v@ == Seq::<Seq<char>>::empty(),
    {
        let v = Vocab { id_to_word: Vec::new(), word_to_id: StringHashMap::new() };
        assert(v@ =~= Seq::<Seq<char>>::empty());
        v
    }

    /// The number of symbols that have an id.
    pub fn len(&self) -> (n: usize)
        requires
            self.wf(),
        ensures
            n == self@.len(),
            n == self.index_len(),
    {
        self.word_to_id.len()
    }

    /// The symbol with token id `id`.
    pub fn word(&self, id: u32) -> (w: &Vec<char>)
        requires
            id < self@.len(),
        ensures
            w@ == self@[id as int],
    {
        &self.id_to_word[id as usize]
    }

    /// The token id of `word`, if it has one.
    pub fn get(&self, word: &Vec<char>) -> (id: Option<u32>)
        requires
            self.wf(),
        ensures
            id == token_id(self@, word@),
            id matches Some(i) ==> i < self@.len() && self@[i as int] == word@,
            id is None ==> !self@.contains(word@),
    {
        let key = string_of(word);
        proof {
            self.lemma_sizes_agree();
        }
        match self.word_to_id.get(key.as_str()) {
            Some(id) => {
                proof {
                    assert(self@.contains(word@));
                    lemma_token_id_of_entry(self@, *id as int);
                }
                Some(*id)
            },
            None => {
                assert(!self@.contains(word@)) by {
                    if self@.contains(word@) {
                        let i = choose|i: int| 0 <= i < self@.len() && self@[i] == word@;
                        assert(self.word_to_id@.contains_key(self@[i]));
                    }
                }
                None
            },
        }
    }

    /// Gives `word` the next free token id. Returns `None`, and changes
    /// nothing, if `word` is not in the vocabulary and no id is free.
    pub fn intern(&mut self, word: Vec<char>) -> (id: Option<u32>)
        requires
            old(self).wf(),
        ensures
            final(self).wf(),
            old(self)@.contains(word@) || old(self)@.len() < MAX_TOKENS ==> id == Some(
                interned(old(self)@, word@).1,
            ) && final(self)@ == interned(old(self)@, word@).0,
            !old(self)@.contains(word@) && old(self)@.len() >= MAX_TOKENS ==> id is None
                && final(self)@ == old(self)@,
    {
        match self.get(&word) {
            Some(id) => Some(id),
            None => {
                let n = self.id_to_word.len();
                if n as u64 >= MAX_TOKENS {
                    return None;
                }
                let key = string_of(&word);
                let id = n as u32;
                let ghost before = *self;
                self.word_to_id.insert(key, id);
                self.id_to_word.push(word);
                proof {
                    assert(self@ =~= before@.push(word@));
                    assert(!before.word_to_id@.contains_key(word@)) by {
                        if before.word_to_id@.contains_key(word@) {
                            assert(before@[before.word_to_id@[word@] as int] == word@);
                        }
                    }
                    assert(self.word_to_id@.dom() =~= before.word_to_id@.dom().insert(word@));
                    assert forall|i: int| 0 <= i < self@.len() implies self.word_to_id@.contains_key(
                        #[trigger] self@[i],
                    ) && self.word_to_id@[self@[i]] == i by {
                        if i < before@.len() {
                            assert(before.word_to_id@.contains_key(before@[i]));
                        }
                    }
                    assert forall|k: Seq<char>| #[trigger]
                        self.word_to_id@.contains_key(k) implies self.word_to_id@[k] < self@.len()
                        && self@[self.word_to_id@[k] as int] == k by {
                        if k != word@ {
                            assert(before.word_to_id@.contains_key(k));
                        }
                    }
                }
                Some(id)
            },
        }
    }

    /// The symbols as strings, each at the position that is its token id.
    pub fn words(&self) -> (out: Vec<String>)
        ensures
            out@.len() == self@.len(),
            forall|i: int| 0 <= i < out@.len() ==> (#[trigger] out@[i])@ == self@[i],
    {
        let mut out: Vec<String> = Vec::new();
        let mut i: usize = 0;
        while i < self.id_to_word.len()
            invariant
                i <= self.id_to_word.len(),
                out@.len() == i,
                forall|j: int| 0 <= j < i ==> (#[trigger] out@[j])@ == self@[j],
            decreases self.id_to_word.len() - i,
        {
            out.push(string_of(&self.id_to_word[i]));
            i += 1;
        }
        out
    }
}

} // verus!
