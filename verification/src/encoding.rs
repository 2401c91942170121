//! The encoding of the training words as sequences of token ids.

use crate::corpus::{weight_upto, words_below};
use crate::indexing::word_views;
use crate::rules::marker_view;
use crate::text::chars_of;
use crate::trainer::{BpeTrainer, TrainError};
use crate::vocab::{grown_from, interned, lemma_interned, Vocab, MAX_TOKENS};
use crate::word::{symbols_below, Symbol, Word};
use vstd::prelude::*;
use vstd::string::StrSliceExecFns;

verus! {

/// The words of a corpus as character sequences, each with its frequency.
pub open spec fn corpus_words(wc: Seq<(String, u64)>) -> Seq<(Seq<char>, u64)> {
    wc.map_values(|e: (String, u64)| (e.0@, e.1))
}

/// The frequencies of the words of a corpus, in order.
pub open spec fn frequencies(wc: Seq<(Seq<char>, u64)>) -> Seq<u64> {
    wc.map_values(|e: (Seq<char>, u64)| e.1)
}

/// The number of characters in the first `n` words, each word taken as
/// often as it occurs.
pub open spec fn raw_weight_upto(wc: Seq<(Seq<char>, u64)>, n: int) -> int
    decreases n,
{
    if n <= 0 {
        0
    } else {
        raw_weight_upto(wc, n - 1) + wc[n - 1].1 * wc[n - 1].0.len()
    }
}

/// The number of characters in the corpus, each word taken as often as it
/// occurs.
pub open spec fn raw_weight(wc: Seq<(Seq<char>, u64)>) -> int {
    raw_weight_upto(wc, wc.len() as int)
}

/// The most characters that a corpus may hold for the counts to keep track
/// of every merge.
pub const MAX_WEIGHT: u64 = 0x1999_9999_9999_9999;

/// The symbol for character `c` of a word: the character itself, behind
/// the prefix unless it is the first of its word, and before the suffix
/// if it is the last.
pub open spec fn decorated(
    c: char,
    first: bool,
    last: bool,
    prefix: Option<Seq<char>>,
    suffix: Option<Seq<char>>,
) -> Seq<char> {
    let head = if !first && prefix is Some {
        prefix->0
    } else {
        Seq::empty()
    };
    let tail = if last && suffix is Some {
        suffix->0
    } else {
        Seq::empty()
    };
    head + seq![c] + tail
}

/// The vocabulary and the symbols after the first `n` characters of `word`
/// were encoded, or `None` if a symbol needed an id when none was left.
/// A character that is not in the vocabulary by itself is left out; any
/// other gives one symbol, whose decorated form gets an id if it has none.
pub open spec fn encoded_upto(
    vocab: Seq<Seq<char>>,
    word: Seq<char>,
    n: int,
    prefix: Option<Seq<char>>,
    suffix: Option<Seq<char>>,
) -> Option<(Seq<Seq<char>>, Seq<Symbol>)>
    decreases n,
{
    if n <= 0 {
        Some((vocab, Seq::empty()))
    } else {
        match encoded_upto(vocab, word, n - 1, prefix, suffix) {
            None => None,
            Some(before) => {
                let c = word[n - 1];
                if !before.0.contains(seq![c]) {
                    Some(before)
                } else {
                    let d = decorated(c, n - 1 == 0, n == word.len(), prefix, suffix);
                    if !before.0.contains(d) && before.0.len() >= MAX_TOKENS {
                        None
                    } else {
                        let v = interned(before.0, d);
                        Some((v.0, before.1.push(Symbol { c: v.1, len: 1 })))
                    }
                }
            },
        }
    }
}

/// The vocabulary at the moment at which the encoding of `word` comes to a
/// halt at its character `k`, for want of an id; `None` if it does not.
pub open spec fn stalled_in_word(
    vocab: Seq<Seq<char>>,
    word: Seq<char>,
    k: int,
    prefix: Option<Seq<char>>,
    suffix: Option<Seq<char>>,
) -> Option<Seq<Seq<char>>> {
    match encoded_upto(vocab, word, k, prefix, suffix) {
        Some(e) => if encoded_upto(vocab, word, k + 1, prefix, suffix) is None {
            Some(e.0)
        } else {
            None
        },
        None => None,
    }
}

/// The vocabulary and the encoded words after the first `n` words of the
/// corpus were encoded, or `None` if a symbol needed an id when none was left.
pub open spec fn tokenized_upto(
    vocab: Seq<Seq<char>>,
    wc: Seq<(Seq<char>, u64)>,
    n: int,
    prefix: Option<Seq<char>>,
    suffix: Option<Seq<char>>,
) -> Option<(Seq<Seq<char>>, Seq<Seq<Symbol>>)>
    decreases n,
{
    if n <= 0 {
        Some((vocab, Seq::empty()))
    } else {
        match tokenized_upto(vocab, wc, n - 1, prefix, suffix) {
            None => None,
            Some(before) => match encoded_upto(
                before.0,
                wc[n - 1].0,
                wc[n - 1].0.len() as int,
                prefix,
                suffix,
            ) {
                None => None,
                Some(e) => Some((e.0, before.1.push(e.1))),
            },
        }
    }
}

/// The vocabulary at the moment at which the encoding of the corpus comes
/// to a halt at character `k` of word `i`, for want of an id; `None` if it
/// does not.
pub open spec fn stalled_at(
    vocab: Seq<Seq<char>>,
    wc: Seq<(Seq<char>, u64)>,
    i: int,
    k: int,
    prefix: Option<Seq<char>>,
    suffix: Option<Seq<char>>,
) -> Option<Seq<Seq<char>>> {
    match tokenized_upto(vocab, wc, i, prefix, suffix) {
        Some(t) => stalled_in_word(t.0, wc[i].0, k, prefix, suffix),
        None => None,
    }
}

/// The vocabulary and the encoded words after the corpus was encoded.
pub open spec fn tokenized(
    vocab: Seq<Seq<char>>,
    wc: Seq<(Seq<char>, u64)>,
    prefix: Option<Seq<char>>,
    suffix: Option<Seq<char>>,
) -> Option<(Seq<Seq<char>>, Seq<Seq<Symbol>>)> {
    tokenized_upto(vocab, wc, wc.len() as int, prefix, suffix)
}

/// Words that are no longer than the words of the corpus weigh no more.
pub proof fn lemma_weight_below_raw(
    words: Seq<Seq<Symbol>>,
    wc: Seq<(Seq<char>, u64)>,
    n: int,
)
    requires
        0 <= n <= words.len() == wc.len(),
        forall|i: int| 0 <= i < words.len() ==> (#[trigger] words[i]).len() <= wc[i].0.len(),
    ensures
        weight_upto(words, frequencies(wc), n) <= raw_weight_upto(wc, n),
    decreases n,
{
    if n > 0 {
        lemma_weight_below_raw(words, wc, n - 1);
        let i = n - 1;
        assert(words[i].len() <= wc[i].0.len());
        assert(frequencies(wc)[i] == wc[i].1);
        assert(wc[i].1 * words[i].len() <= wc[i].1 * wc[i].0.len()) by (nonlinear_arith)
            requires
                words[i].len() <= wc[i].0.len(),
                0 <= wc[i].1,
        ;
    }
}

/// Every symbol of `word` has one character in `vocab` and covers one.
pub open spec fn unit_symbols(word: Seq<Symbol>, vocab: Seq<Seq<char>>) -> bool {
    forall|j: int|
        0 <= j < word.len() ==> (#[trigger] word[j]).c < vocab.len() && word[j].len == 1
            && vocab[word[j].c as int].len() == 1
}

/// The symbol for character `c` of a word.
pub fn decorate(
    c: char,
    first: bool,
    last: bool,
    prefix: &Option<Vec<char>>,
    suffix: &Option<Vec<char>>,
) -> (d: Vec<char>)
    ensures
        d@ == decorated(c, first, last, marker_view(*prefix), marker_view(*suffix)),
{
    let mut d: Vec<char> = Vec::new();
    if !first {
        match prefix {
            Some(p) => {
                let mut i: usize = 0;
                while i < p.len()
                    invariant
                        i <= p.len(),
                        d@ == p@.take(i as int),
                    decreases p.len() - i,
                {
                    d.push(p[i]);
                    assert(p@.take(i as int).push(p@[i as int]) =~= p@.take(i + 1));
                    i += 1;
                }
                assert(p@.take(p.len() as int) =~= p@);
            },
            None => {},
        }
    }
    let ghost head = d@;
    d.push(c);
    assert(d@ =~= head + seq![c]);
    if last {
        match suffix {
            Some(s) => {
                let mut i: usize = 0;
                assert(s@.take(0) =~= Seq::<char>::empty());
                assert(head + seq![c] + Seq::<char>::empty() =~= head + seq![c]);
                while i < s.len()
                    invariant
                        i <= s.len(),
                        d@ == head + seq![c] + s@.take(i as int),
                    decreases s.len() - i,
                {
                    d.push(s[i]);
                    assert((head + seq![c] + s@.take(i as int)).push(s@[i as int]) =~= head + seq![
                        c,
                    ] + s@.take(i + 1));
                    i += 1;
                }
                assert(s@.take(s.len() as int) =~= s@);
            },
            None => {
                assert(head + seq![c] + Seq::<char>::empty() =~= head + seq![c]);
            },
        }
    } else {
        assert(head + seq![c] + Seq::<char>::empty() =~= head + seq![c]);
    }
    d
}

/// Whether the counts can keep track of every merge in the corpus.
pub fn corpus_fits(wc: &Vec<(String, u64)>) -> (b: bool)
    ensures
        b == (raw_weight(corpus_words(wc@)) <= MAX_WEIGHT),
{
    let ghost words = corpus_words(wc@);
    let mut total: u128 = 0;
    let mut i: usize = 0;
    while i < wc.len()
        invariant
            i <= wc.len(),
            words == corpus_words(wc@),
            total == raw_weight_upto(words, i as int),
            total <= MAX_WEIGHT,
        decreases wc.len() - i,
    {
        let n = wc[i].0.as_str().unicode_len();
        let f = wc[i].1;
        assert(words[i as int] == (wc@[i as int].0@, wc@[i as int].1));
        assert(f * n <= 0xffff_ffff_ffff_ffff * 0xffff_ffff_ffff_ffff) by (nonlinear_arith)
            requires
                0 <= f <= 0xffff_ffff_ffff_ffff,
                0 <= n <= 0xffff_ffff_ffff_ffff,
        ;
        let term: u128 = (f as u128) * (n as u128);
        if term > MAX_WEIGHT as u128 - total {
            proof {
                lemma_raw_weight_mono(words, i + 1, words.len() as int);
            }
            return false;
        }
        total = total + term;
        i += 1;
    }
    true
}

/// The weight of the first words is no more than the weight of more of them.
pub proof fn lemma_raw_weight_mono(wc: Seq<(Seq<char>, u64)>, i: int, n: int)
    requires
        0 <= i <= n,
    ensures
        0 <= raw_weight_upto(wc, i) <= raw_weight_upto(wc, n),
    decreases n,
{
    if i < n {
        lemma_raw_weight_mono(wc, i, n - 1);
        assert(0 <= wc[n - 1].1 * wc[n - 1].0.len()) by (nonlinear_arith)
            requires
                0 <= wc[n - 1].1,
                0 <= wc[n - 1].0.len(),
        ;
    } else {
        lemma_raw_weight_nonneg(wc, i);
    }
}

/// Weights are not negative.
pub proof fn lemma_raw_weight_nonneg(wc: Seq<(Seq<char>, u64)>, n: int)
    ensures
        0 <= raw_weight_upto(wc, n),
    decreases n,
{
    if n > 0 {
        lemma_raw_weight_nonneg(wc, n - 1);
        assert(0 <= wc[n - 1].1 * wc[n - 1].0.len()) by (nonlinear_arith)
            requires
                0 <= wc[n - 1].1,
                0 <= wc[n - 1].0.len(),
        ;
    }
}

impl BpeTrainer {
    /// Encodes one word, giving ids to the symbols that have none.
    pub fn encode_word(
        vocab: &mut Vocab,
        chars: &Vec<char>,
        prefix: &Option<Vec<char>>,
        suffix: &Option<Vec<char>>,
    ) -> (r: Result<Word, TrainError>)
        requires
            old(vocab).wf(),
        ensures
            final(vocab).wf(),
            old(vocab)@.len() <= final(vocab)@.len(),
            match encoded_upto(
                old(vocab)@,
                chars@,
                chars@.len() as int,
                marker_view(*prefix),
                marker_view(*suffix),
            ) {
                Some(e) => r is Ok && final(vocab)@ == e.0 && r->Ok_0@ == e.1,
                None => r == Err::<Word, TrainError>(TrainError::VocabularyFull),
            },
            r is Ok ==> r->Ok_0@.len() <= chars@.len() && symbols_below(
                r->Ok_0@,
                final(vocab)@.len() as int,
            ),
            grown_from(final(vocab)@, old(vocab)@),
            r is Ok && prefix is None && suffix is None ==> unit_symbols(r->Ok_0@, final(vocab)@),
            r is Err ==> exists|k: int|
                0 <= k && #[trigger] stalled_in_word(
                    old(vocab)@,
                    chars@,
                    k,
                    marker_view(*prefix),
                    marker_view(*suffix),
                ) == Some(final(vocab)@),
    {
        let ghost v0 = vocab@;
        let ghost p = marker_view(*prefix);
        let ghost s = marker_view(*suffix);
        let mut word = Word::new();
        let n = chars.len();
        let mut i: usize = 0;
        while i < n
            invariant
                i <= n,
                n == chars@.len(),
                v0 == old(vocab)@,
                p == marker_view(*prefix),
                s == marker_view(*suffix),
                vocab.wf(),
                v0.len() <= vocab@.len(),
                encoded_upto(v0, chars@, i as int, p, s) == Some((vocab@, word@)),
                word@.len() <= i,
                symbols_below(word@, vocab@.len() as int),
                grown_from(vocab@, v0),
                prefix is None && suffix is None ==> unit_symbols(word@, vocab@),
            decreases n - i,
        {
            let c = chars[i];
            let mut bare: Vec<char> = Vec::new();
            bare.push(c);
            assert(bare@ =~= seq![c]);
            if vocab.get(&bare).is_some() {
                let d = decorate(c, i == 0, i + 1 == n, prefix, suffix);
                let ghost here = vocab@;
                let ghost syms = word@;
                let ghost dv = d@;
                proof {
                    vocab.lemma_sizes_agree();
                    if here.contains(d@) || here.len() < MAX_TOKENS {
                        lemma_interned(here, d@);
                    }
                }
                match vocab.intern(d) {
                    Some(id) => {
                        word.add(id, 1);
                        proof {
                            assert(grown_from(vocab@, here));
                            assert forall|j: int| 0 <= j < word@.len() implies (
                            #[trigger] word@[j]).c < vocab@.len() by {
                                if j < syms.len() {
                                    assert(word@[j] == syms[j]);
                                }
                            }
                            if prefix is None && suffix is None {
                                assert(dv =~= seq![c]);
                                assert forall|j: int| 0 <= j < word@.len() implies (
                                #[trigger] word@[j]).c < vocab@.len() && word@[j].len == 1
                                    && vocab@[word@[j].c as int].len() == 1 by {
                                    if j < syms.len() {
                                        assert(word@[j] == syms[j]);
                                    }
                                }
                            }
                        }
                    },
                    None => {
                        proof {
                            assert(!here.contains(dv) && here.len() >= MAX_TOKENS);
                            assert(vocab@ == here);
                            assert(encoded_upto(v0, chars@, i as int, p, s) == Some((here, syms)));
                            assert(here.contains(seq![c]));
                            assert(encoded_upto(v0, chars@, i + 1, p, s) is None);
                            assert(stalled_in_word(v0, chars@, i as int, p, s) == Some(here));
                            lemma_encoded_stays_none(v0, chars@, i + 1, n as int, p, s);
                        }
                        return Err(TrainError::VocabularyFull);
                    },
                }
            }
            i += 1;
        }
        Ok(word)
    }

    /// Encodes the words of the corpus as sequences of token ids, giving
    /// ids to the symbols that have none, and returns the encoded words
    /// and their frequencies.
    pub fn tokenize_words(&self, wc: &Vec<(String, u64)>, vocab: &mut Vocab) -> (r: Result<
        (Vec<Word>, Vec<u64>),
        TrainError,
    >)
        requires
            old(vocab).wf(),
        ensures
            final(vocab).wf(),
            old(vocab)@.len() <= final(vocab)@.len(),
            match tokenized(
                old(vocab)@,
                corpus_words(wc@),
                self@.continuing_subword_prefix,
                self@.end_of_word_suffix,
            ) {
                Some(t) => r is Ok && final(vocab)@ == t.0 && word_views(r->Ok_0.0@) == t.1
                    && r->Ok_0.1@ == frequencies(corpus_words(wc@)),
                None => r == Err::<(Vec<Word>, Vec<u64>), TrainError>(TrainError::VocabularyFull),
            },
            grown_from(final(vocab)@, old(vocab)@),
            r is Err ==> exists|i: int, k: int|
                0 <= i && 0 <= k && #[trigger] stalled_at(
                    old(vocab)@,
                    corpus_words(wc@),
                    i,
                    k,
                    self@.continuing_subword_prefix,
                    self@.end_of_word_suffix,
                ) == Some(final(vocab)@),
            r is Ok && self@.continuing_subword_prefix is None && self@.end_of_word_suffix is None
                ==> forall|k: int|
                0 <= k < r->Ok_0.0@.len() ==> unit_symbols(
                    #[trigger] word_views(r->Ok_0.0@)[k],
                    final(vocab)@,
                ),
            r is Ok ==> r->Ok_0.0@.len() == wc@.len() && words_below(
                word_views(r->Ok_0.0@),
                final(vocab)@.len() as int,
            ) && weight_upto(
                word_views(r->Ok_0.0@),
                r->Ok_0.1@,
                r->Ok_0.0@.len() as int,
            ) <= raw_weight(corpus_words(wc@)),
    {
        let prefix = self.prefix_chars();
        let suffix = self.suffix_chars();
        let ghost p = marker_view(prefix);
        let ghost s = marker_view(suffix);
        let ghost v0 = vocab@;
        let ghost cw = corpus_words(wc@);
        let mut words: Vec<Word> = Vec::new();
        let mut counts: Vec<u64> = Vec::new();
        let mut i: usize = 0;
        assert(word_views(words@) =~= Seq::<Seq<Symbol>>::empty());
        assert(frequencies(cw).take(0) =~= Seq::<u64>::empty());
        while i < wc.len()
            invariant
                i <= wc.len(),
                cw == corpus_words(wc@),
                v0 == old(vocab)@,
                p == self@.continuing_subword_prefix,
                s == self@.end_of_word_suffix,
                p == marker_view(prefix),
                s == marker_view(suffix),
                vocab.wf(),
                v0.len() <= vocab@.len(),
                tokenized_upto(v0, cw, i as int, p, s) == Some((vocab@, word_views(words@))),
                words@.len() == i,
                counts@ == frequencies(cw).take(i as int),
                words_below(word_views(words@), vocab@.len() as int),
                forall|k: int|
                    0 <= k < i ==> (#[trigger] word_views(words@)[k]).len() <= cw[k].0.len(),
                grown_from(vocab@, v0),
                p is None && s is None ==> forall|k: int|
                    0 <= k < i ==> unit_symbols(#[trigger] word_views(words@)[k], vocab@),
            decreases wc.len() - i,
        {
            let chars = chars_of(wc[i].0.as_str());
            assert(cw[i as int] == (wc@[i as int].0@, wc@[i as int].1));
            let ghost done = word_views(words@);
            let ghost vocab_before = vocab@;
            match Self::encode_word(vocab, &chars, &prefix, &suffix) {
                Ok(word) => {
                    words.push(word);
                    counts.push(wc[i].1);
                    proof {
                        assert(word_views(words@) =~= done.push(word@));
                        assert(frequencies(cw).take(i + 1) =~= frequencies(cw).take(i as int).push(
                            cw[i as int].1,
                        ));
                        assert forall|k: int| 0 <= k < words@.len() implies symbols_below(
                            #[trigger] word_views(words@)[k],
                            vocab@.len() as int,
                        ) by {
                            if k < i {
                                assert(symbols_below(done[k], vocab@.len() as int));
                            }
                        }
                        assert forall|k: int| 0 <= k < i + 1 implies (#[trigger] word_views(
                            words@,
                        )[k]).len() <= cw[k].0.len() by {
                            if k < i {
                                assert(word_views(words@)[k] == done[k]);
                            }
                        }
                        assert(grown_from(vocab@, vocab_before));
                        if p is None && s is None {
                            assert forall|k: int| 0 <= k < i + 1 implies unit_symbols(
                                #[trigger] word_views(words@)[k],
                                vocab@,
                            ) by {
                                if k < i {
                                    assert(word_views(words@)[k] == done[k]);
                                    assert(unit_symbols(done[k], vocab_before));
                                }
                            }
                        }
                    }
                },
                Err(e) => {
                    proof {
                        assert(encoded_upto(
                            vocab_before,
                            cw[i as int].0,
                            cw[i as int].0.len() as int,
                            p,
                            s,
                        ) is None);
                        assert(tokenized_upto(v0, cw, i + 1, p, s) is None);
                        let k = choose|k: int|
                            0 <= k && #[trigger] stalled_in_word(
                                vocab_before,
                                chars@,
                                k,
                                marker_view(prefix),
                                marker_view(suffix),
                            ) == Some(vocab@);
                        assert(stalled_at(v0, cw, i as int, k, p, s) == Some(vocab@));
                        lemma_tokenized_stays_none(v0, cw, i + 1, cw.len() as int, p, s);
                    }
                    return Err(TrainError::VocabularyFull);
                },
            }
            i += 1;
        }
        proof {
            assert(frequencies(cw).take(cw.len() as int) =~= frequencies(cw));
            lemma_weight_below_raw(word_views(words@), cw, cw.len() as int);
        }
        Ok((words, counts))
    }
}

/// Once no id is left, encoding further characters cannot help.
pub proof fn lemma_encoded_stays_none(
    vocab: Seq<Seq<char>>,
    word: Seq<char>,
    i: int,
    n: int,
    prefix: Option<Seq<char>>,
    suffix: Option<Seq<char>>,
)
    requires
        encoded_upto(vocab, word, i, prefix, suffix) is None,
        i <= n,
    ensures
        encoded_upto(vocab, word, n, prefix, suffix) is None,
    decreases n,
{
    if i < n {
        lemma_encoded_stays_none(vocab, word, i, n - 1, prefix, suffix);
    }
}

/// Once no id is left, encoding further words cannot help.
pub proof fn lemma_tokenized_stays_none(
    vocab: Seq<Seq<char>>,
    wc: Seq<(Seq<char>, u64)>,
    i: int,
    n: int,
    prefix: Option<Seq<char>>,
    suffix: Option<Seq<char>>,
)
    requires
        tokenized_upto(vocab, wc, i, prefix, suffix) is None,
        i <= n,
    ensures
        tokenized_upto(vocab, wc, n, prefix, suffix) is None,
    decreases n,
{
    if i < n {
        lemma_tokenized_stays_none(vocab, wc, i, n - 1, prefix, suffix);
    }
}

} // verus!
