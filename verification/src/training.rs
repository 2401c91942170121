//! A training run from the words to the model.

use crate::alphabet::{kept_alphabet, with_chars};
use crate::corpus::{
    lemma_below_grows, lemma_held_below, lemma_priced_below, lemma_weight_mono, weight_upto,
    words_below, Corpus, CorpusView,
};
use crate::discovery::{finished, Training, TrainingView};
use crate::encoding::{
    corpus_fits, corpus_words, frequencies, raw_weight, tokenized, MAX_WEIGHT,
};
use crate::indexing::{counted, lemma_counted_below, word_views};
use crate::listing::{listed, load_merges, load_symbols, merges_listed};

use crate::queue::MergeQueue;
use crate::replay::{lemma_stored_upto_below, replayed, store_all, stored_all, Extension, ExtensionView};
use crate::rules::{MergeFilters, Rules, RulesView};
use crate::table::{held_entries, merge_views, priced_entries, MergeView, PairTable};
use crate::text::chars_of;
use crate::trainer::{AddedToken, BpeTrainer, ModelView, TrainError, TrainerView, BPE};
use crate::vocab::{grown_from, interned, lemma_interned, Vocab, MAX_TOKENS};
use crate::laws::{
    begins_with_listed, lemma_finished_run, lemma_grown_twice, lemma_listed_stay,
    lemma_merges_stay, lemma_replayed, merges_pass, merges_sound,
};
use crate::lengths::{
    lemma_counted_short, lemma_held_short, lemma_learned_short, lemma_lens_stay,
    lemma_priced_short, lemma_replayed_lens, lemma_stored_short, lemma_table_stays, merges_short,
    unit_words,
};
use crate::word::{symbols_below, Symbol, Word};
use vstd::prelude::*;

verus! {

/// The listings that carry an earlier training into a new one.
pub struct ExtendSource {
    /// The merges of the earlier training: a header line, then one merge
    /// on each line.
    pub merges: String,
    /// The alphabet of the earlier training: one symbol and its id on each line.
    pub alphabet: String,
    /// The special tokens of the earlier training: one symbol and its id on
    /// each line.
    pub special_tokens: String,
}

/// The listings as mathematical values.
pub struct ExtendView {
    pub merges: Seq<char>,
    pub alphabet: Seq<char>,
    pub special_tokens: Seq<char>,
}

impl View for ExtendSource {
    type V = ExtendView;

    /// The three listings as sequences of characters.
    open spec fn view(&self) -> ExtendView {
        ExtendView {
            merges: self.merges@,
            alphabet: self.alphabet@,
            special_tokens: self.special_tokens@,
        }
    }
}

/// No filter.
pub open spec fn no_filters() -> MergeFilters {
    MergeFilters { sentinel_cap: false, digit_guard: false }
}

/// Every filter.
pub open spec fn all_filters() -> MergeFilters {
    MergeFilters { sentinel_cap: true, digit_guard: true }
}

/// The rules of discovery that the parameters ask for, with the filters
/// `otherwise` where the parameters name none.
pub open spec fn rules_of(cfg: TrainerView, otherwise: MergeFilters) -> RulesView {
    RulesView {
        min_frequency: cfg.min_frequency,
        vocab_size: cfg.vocab_size,
        prefix: cfg.continuing_subword_prefix,
        max_token_length: match cfg.max_token_length {
            Some(m) => m,
            None => usize::MAX,
        },
        filters: match cfg.filters {
            Some(f) => f,
            None => otherwise,
        },
    }
}

/// The vocabulary after the first `n` special tokens got ids, or `None` if
/// one needed an id when none was left. A token that is a symbol already
/// keeps its id.
pub open spec fn with_specials_upto(vocab: Seq<Seq<char>>, tokens: Seq<AddedToken>, n: int) -> Option<
    Seq<Seq<char>>,
>
    decreases n,
{
    if n <= 0 {
        Some(vocab)
    } else {
        match with_specials_upto(vocab, tokens, n - 1) {
            None => None,
            Some(v) => if !v.contains(tokens[n - 1].content@) && v.len() >= MAX_TOKENS {
                None
            } else {
                Some(interned(v, tokens[n - 1].content@).0)
            },
        }
    }
}

/// The vocabulary after the special tokens got ids.
pub open spec fn with_specials(vocab: Seq<Seq<char>>, tokens: Seq<AddedToken>) -> Option<
    Seq<Seq<char>>,
> {
    with_specials_upto(vocab, tokens, tokens.len() as int)
}

/// Once no id is left, further tokens cannot help.
pub proof fn lemma_with_specials_stays_none(
    vocab: Seq<Seq<char>>,
    tokens: Seq<AddedToken>,
    i: int,
    n: int,
)
    requires
        with_specials_upto(vocab, tokens, i) is None,
        i <= n,
    ensures
        with_specials_upto(vocab, tokens, n) is None,
    decreases n,
{
    if i < n {
        lemma_with_specials_stays_none(vocab, tokens, i, n - 1);
    }
}

/// The corpus with the first count of its pairs.
pub open spec fn indexed(words: Seq<Seq<Symbol>>, freqs: Seq<u64>) -> CorpusView {
    CorpusView { words, freqs, pair_counts: counted(words, freqs).0 }
}

/// The candidates that the first count of the pairs gives.
pub open spec fn first_candidates(words: Seq<Seq<Symbol>>, freqs: Seq<u64>) -> Seq<MergeView> {
    priced_entries(counted(words, freqs).1, counted(words, freqs).0)
}

/// The run at the moment at which discovery starts from the words.
pub open spec fn started(vocab: Seq<Seq<char>>, words: Seq<Seq<Symbol>>, freqs: Seq<u64>) -> TrainingView {
    TrainingView {
        vocab,
        corpus: indexed(words, freqs),
        queue: first_candidates(words, freqs),
        merges: Seq::empty(),
    }
}

/// The replay at the moment at which it starts.
pub open spec fn extension_started(
    vocab: Seq<Seq<char>>,
    words: Seq<Seq<Symbol>>,
    freqs: Seq<u64>,
) -> ExtensionView {
    ExtensionView {
        vocab,
        corpus: indexed(words, freqs),
        table: stored_all(Seq::empty(), first_candidates(words, freqs)),
        merges: Seq::empty(),
    }
}

/// The model that a finished run hands over.
pub open spec fn model_of(run: TrainingView, cfg: TrainerView) -> ModelView {
    ModelView {
        vocab: run.vocab,
        merges: run.merges,
        continuing_subword_prefix: cfg.continuing_subword_prefix,
        end_of_word_suffix: cfg.end_of_word_suffix,
    }
}

/// What training from the words alone comes to: the special tokens get
/// the first ids, the alphabet the next; the words are encoded and their
/// pairs counted; then merges are discovered.
pub open spec fn original_outcome(cfg: TrainerView, wc: Seq<(Seq<char>, u64)>) -> Result<
    ModelView,
    TrainError,
> {
    match with_specials(Seq::empty(), cfg.special_tokens) {
        None => Err(TrainError::VocabularyFull),
        Some(v1) => match with_chars(
            v1,
            kept_alphabet(wc, cfg.initial_alphabet, cfg.limit_alphabet),
        ) {
            None => Err(TrainError::VocabularyFull),
            Some(v2) => match tokenized(
                v2,
                wc,
                cfg.continuing_subword_prefix,
                cfg.end_of_word_suffix,
            ) {
                None => Err(TrainError::VocabularyFull),
                Some(t) => Ok(
                    model_of(
                        finished(started(t.0, t.1, frequencies(wc)), rules_of(cfg, no_filters())),
                        cfg,
                    ),
                ),
            },
        },
    }
}

/// What training that goes on from listed merges comes to: the listed
/// alphabet gets the first ids; the words are encoded and their pairs
/// counted; the listed merges are replayed; the listed special tokens and
/// then the configured ones get ids; then further merges are discovered.
pub open spec fn extend_outcome(cfg: TrainerView, wc: Seq<(Seq<char>, u64)>, src: ExtendView) -> Result<
    ModelView,
    TrainError,
> {
    match merges_listed(src.merges) {
        Err(e) => Err(e),
        Ok(list) => match listed(Seq::empty(), src.alphabet) {
            Err(e) => Err(e),
            Ok(v1) => match tokenized(
                v1,
                wc,
                cfg.continuing_subword_prefix,
                cfg.end_of_word_suffix,
            ) {
                None => Err(TrainError::VocabularyFull),
                Some(t) => match replayed(
                    extension_started(t.0, t.1, frequencies(wc)),
                    list,
                    rules_of(cfg, all_filters()),
                ) {
                    Err(e) => Err(e),
                    Ok(x) => match listed(x.vocab, src.special_tokens) {
                        Err(e) => Err(e),
                        Ok(v2) => match with_specials(v2, cfg.special_tokens) {
                            None => Err(TrainError::VocabularyFull),
                            Some(v3) => Ok(
                                model_of(
                                    finished(
                                        TrainingView {
                                            vocab: v3,
                                            corpus: x.corpus,
                                            queue: held_entries(x.table),
                                            merges: x.merges,
                                        },
                                        rules_of(cfg, all_filters()),
                                    ),
                                    cfg,
                                ),
                            ),
                        },
                    },
                },
            },
        },
    }
}

/// The number of characters that no symbol learned from the words alone
/// exceeds where no marker is configured: the configured number, but two
/// at the least, since two characters are merged whatever their length.
pub open spec fn length_limit(cfg: TrainerView) -> int {
    match cfg.max_token_length {
        Some(m) => if m >= 2 {
            m as int
        } else {
            2
        },
        None => usize::MAX as int,
    }
}

/// What holds of every model trained from the words alone: every merge
/// names symbols of the vocabulary and has as its symbol the left one
/// followed by the right one without its marker; every merge is one that
/// the filters let pass; and where no marker is configured, no symbol of a
/// merge is longer than the limit.
pub open spec fn original_laws(cfg: TrainerView, m: ModelView) -> bool {
    &&& merges_sound(m.vocab, m.merges, 0, cfg.continuing_subword_prefix)
    &&& merges_pass(m.vocab, m.merges, 0, rules_of(cfg, no_filters()))
    &&& cfg.continuing_subword_prefix is None && cfg.end_of_word_suffix is None ==> merges_short(
        m.vocab,
        m.merges,
        0,
        length_limit(cfg),
    )
}

/// What holds of every model trained by going on from listed merges: the
/// list of merges begins with the listed merges, in their order; every
/// merge names symbols of the vocabulary and has as its symbol the left one
/// followed by the right one without its marker; every merge behind the
/// listed ones is one that the filters let pass; and where no marker is
/// configured, no symbol of a merge behind the listed ones is longer than
/// the limit.
pub open spec fn extend_laws(cfg: TrainerView, src: ExtendView, m: ModelView) -> bool {
    &&& merges_listed(src.merges) is Ok
    &&& begins_with_listed(m.vocab, m.merges, merges_listed(src.merges)->Ok_0)
    &&& merges_sound(m.vocab, m.merges, 0, cfg.continuing_subword_prefix)
    &&& merges_pass(
        m.vocab,
        m.merges,
        merges_listed(src.merges)->Ok_0.len() as int,
        rules_of(cfg, all_filters()),
    )
    &&& cfg.continuing_subword_prefix is None && cfg.end_of_word_suffix is None ==> merges_short(
        m.vocab,
        m.merges,
        merges_listed(src.merges)->Ok_0.len() as int,
        length_limit(cfg),
    )
}

/// Whether every word has a frequency and the counts can keep track of
/// every merge in the words.
pub fn words_fit(words: &Vec<Word>, freqs: &Vec<u64>) -> (b: bool)
    ensures
        b == (words@.len() == freqs@.len() && weight_upto(
            word_views(words@),
            freqs@,
            words@.len() as int,
        ) <= MAX_WEIGHT),
{
    if words.len() != freqs.len() {
        return false;
    }
    let ghost ws = word_views(words@);
    let mut total: u128 = 0;
    let mut i: usize = 0;
    while i < words.len()
        invariant
            i <= words.len(),
            words@.len() == freqs@.len(),
            ws == word_views(words@),
            total == weight_upto(ws, freqs@, i as int),
            total <= MAX_WEIGHT,
        decreases words.len() - i,
    {
        let n = words[i].len();
        let f = freqs[i];
        assert(ws[i as int] == words@[i as int]@);
        assert(f * n <= 0xffff_ffff_ffff_ffff * 0xffff_ffff_ffff_ffff) by (nonlinear_arith)
            requires
                0 <= f <= 0xffff_ffff_ffff_ffff,
                0 <= n <= 0xffff_ffff_ffff_ffff,
        ;
        let term: u128 = (f as u128) * (n as u128);
        if term > MAX_WEIGHT as u128 - total {
            proof {
                lemma_weight_mono(ws, freqs@, i + 1, ws.len() as int);
            }
            return false;
        }
        total = total + term;
        i += 1;
    }
    true
}

/// Whether every token id in the words has a symbol in the vocabulary.
pub fn words_known(words: &Vec<Word>, vocab: &Vocab) -> (b: bool)
    requires
        vocab.wf(),
    ensures
        b == words_below(word_views(words@), vocab@.len() as int),
{
    let ghost ws = word_views(words@);
    let n = vocab.len();
    let mut i: usize = 0;
    while i < words.len()
        invariant
            i <= words.len(),
            ws == word_views(words@),
            n == vocab@.len(),
            forall|k: int| 0 <= k < i ==> symbols_below(#[trigger] ws[k], n as int),
        decreases words.len() - i,
    {
        let word = &words[i];
        assert(ws[i as int] == word@);
        let mut j: usize = 0;
        let m = word.len();
        while j < m
            invariant
                j <= m,
                m == word@.len(),
                i < words.len(),
                ws == word_views(words@),
                ws[i as int] == word@,
                n == vocab@.len(),
                forall|k: int| 0 <= k < j ==> (#[trigger] word@[k]).c < n,
            decreases m - j,
        {
            if word.symbol(j).c as u64 >= n as u64 {
                assert(!(word@[j as int].c < n));
                assert(!symbols_below(ws[i as int], n as int));
                return false;
            }
            j += 1;
        }
        i += 1;
    }
    true
}

impl BpeTrainer {
    /// The run at the moment at which discovery starts from the encoded
    /// words: their pairs are counted, and every pair with a positive count
    /// has a candidate. Returns `None` if a word has no frequency or a
    /// token id no symbol, or if the counts cannot keep track of every
    /// merge in the words.
    pub fn start_discovery(&self, vocab: Vocab, words: Vec<Word>, freqs: Vec<u64>) -> (run: Option<
        Training,
    >)
        requires
            vocab.wf(),
        ensures
            match run {
                Some(t) => t.wf() && t@ == started(vocab@, word_views(words@), freqs@),
                None => !(words@.len() == freqs@.len() && weight_upto(
                    word_views(words@),
                    freqs@,
                    words@.len() as int,
                ) <= MAX_WEIGHT && words_below(word_views(words@), vocab@.len() as int)),
            },
    {
        if !words_fit(&words, &freqs) || !words_known(&words, &vocab) {
            return None;
        }
        let ghost ws = word_views(words@);
        let (pair_counts, table) = self.count_pairs(&words, &freqs);
        let ghost slots = table@;
        let first = table.into_priced(&pair_counts);
        let mut queue = MergeQueue::new();
        queue.extend(first);
        let corpus = Corpus { words, freqs, pair_counts };
        proof {
            assert(queue@ =~= merge_views(first@));
            assert(corpus@.words == ws);
            vocab.lemma_sizes_agree();
            lemma_counted_below(ws, corpus@.freqs, ws.len() as int, vocab@.len() as int);
            lemma_priced_below(slots, pair_counts@, vocab@.len() as int);
        }
        let run = Training { vocab, corpus, queue, merges: Vec::new() };
        assert(run@ =~= started(vocab@, ws, run@.corpus.freqs));
        Some(run)
    }

    /// The replay at the moment at which it starts from the encoded words:
    /// their pairs are counted, and every pair with a positive count has a
    /// candidate. Returns `None` if a word has no frequency or a token id
    /// no symbol, or if the counts cannot keep track of every merge in the
    /// words.
    pub fn start_replay(&self, vocab: Vocab, words: Vec<Word>, freqs: Vec<u64>) -> (ext: Option<
        Extension,
    >)
        requires
            vocab.wf(),
        ensures
            match ext {
                Some(x) => x.wf() && x@ == extension_started(vocab@, word_views(words@), freqs@),
                None => !(words@.len() == freqs@.len() && weight_upto(
                    word_views(words@),
                    freqs@,
                    words@.len() as int,
                ) <= MAX_WEIGHT && words_below(word_views(words@), vocab@.len() as int)),
            },
    {
        if !words_fit(&words, &freqs) || !words_known(&words, &vocab) {
            return None;
        }
        let ghost ws = word_views(words@);
        let (pair_counts, counted) = self.count_pairs(&words, &freqs);
        let ghost slots = counted@;
        let first = counted.into_priced(&pair_counts);
        let corpus = Corpus { words, freqs, pair_counts };
        let mut table = PairTable::new();
        proof {
            assert(corpus@.words == ws);
            vocab.lemma_sizes_agree();
            lemma_counted_below(ws, corpus@.freqs, ws.len() as int, vocab@.len() as int);
            lemma_priced_below(slots, pair_counts@, vocab@.len() as int);
            lemma_stored_upto_below(
                table@,
                merge_views(first@),
                first@.len() as int,
                vocab@.len() as int,
            );
        }
        store_all(&mut table, first);
        let ext = Extension { vocab, corpus, table, merges: Vec::new() };
        assert(ext@ =~= extension_started(vocab@, ws, ext@.corpus.freqs));
        Some(ext)
    }

    /// Gives the special tokens ids, in the order of the list. A token that
    /// is a symbol already keeps its id.
    pub fn add_special_tokens(&self, vocab: &mut Vocab) -> (r: Result<(), TrainError>)
        requires
            old(vocab).wf(),
        ensures
            final(vocab).wf(),
            grown_from(final(vocab)@, old(vocab)@),
            match with_specials(old(vocab)@, self@.special_tokens) {
                Some(v) => r is Ok && final(vocab)@ == v,
                None => r == Err::<(), TrainError>(TrainError::VocabularyFull),
            },
            r is Err ==> exists|k: int|
                0 <= k && #[trigger] with_specials_upto(old(vocab)@, self@.special_tokens, k) == Some(
                    final(vocab)@,
                ) && with_specials_upto(old(vocab)@, self@.special_tokens, k + 1) is None,
    {
        let ghost v0 = vocab@;
        let ghost tokens = self@.special_tokens;
        let mut i: usize = 0;
        while i < self.special_tokens.len()
            invariant
                i <= self.special_tokens.len(),
                v0 == old(vocab)@,
                tokens == self@.special_tokens,
                vocab.wf(),
                grown_from(vocab@, v0),
                with_specials_upto(v0, tokens, i as int) == Some(vocab@),
            decreases self.special_tokens.len() - i,
        {
            let s = chars_of(self.special_tokens[i].content.as_str());
            let ghost here = vocab@;
            proof {
                vocab.lemma_sizes_agree();
                if here.contains(s@) || here.len() < MAX_TOKENS {
                    lemma_interned(here, s@);
                }
            }
            match vocab.intern(s) {
                Some(_) => {
                    assert(grown_from(vocab@, here));
                },
                None => {
                    proof {
                        assert(with_specials_upto(v0, tokens, i + 1) is None);
                        lemma_with_specials_stays_none(v0, tokens, i + 1, tokens.len() as int);
                    }
                    return Err(TrainError::VocabularyFull);
                },
            }
            i += 1;
        }
        Ok(())
    }

    /// The rules of discovery that the trainer asks for, with the filters
    /// `otherwise` where it names none.
    pub fn rules(&self, otherwise: MergeFilters) -> (r: Rules)
        ensures
            r@ == rules_of(self@, otherwise),
    {
        Rules {
            min_frequency: self.min_frequency,
            vocab_size: self.vocab_size,
            prefix: self.prefix_chars(),
            max_token_length: match self.max_token_length {
                Some(m) => m,
                None => usize::MAX,
            },
            filters: match self.filters {
                Some(f) => f,
                None => otherwise,
            },
        }
    }

    /// The special tokens of the trainer.
    pub fn special_tokens_copy(&self) -> (out: Vec<AddedToken>)
        ensures
            out@ == self.special_tokens@,
    {
        let mut out: Vec<AddedToken> = Vec::new();
        let mut i: usize = 0;
        while i < self.special_tokens.len()
            invariant
                i <= self.special_tokens.len(),
                out@ == self.special_tokens@.take(i as int),
            decreases self.special_tokens.len() - i,
        {
            out.push(self.special_tokens[i].copy());
            assert(self.special_tokens@.take(i + 1) =~= self.special_tokens@.take(i as int).push(
                self.special_tokens@[i as int],
            ));
            i += 1;
        }
        assert(self.special_tokens@.take(self.special_tokens.len() as int)
            =~= self.special_tokens@);
        out
    }

    /// Hands the finished run over to the model.
    fn hand_over(&self, run: Training, model: &mut BPE)
        requires
            run.wf(),
        ensures
            final(model).vocab.wf(),
            final(model)@ == model_of(run@, self@),
    {
        model.vocab = run.vocab;
        model.merges = run.merges;
        model.continuing_subword_prefix = match &self.continuing_subword_prefix {
            Some(s) => Some(s.clone()),
            None => None,
        };
        model.end_of_word_suffix = match &self.end_of_word_suffix {
            Some(s) => Some(s.clone()),
            None => None,
        };
    }

    /// Trains `model` from the words alone, and returns the special tokens
    /// of the trainer. On a fault the model is left as it was.
    pub fn do_train_original(&self, word_counts: &Vec<(String, u64)>, model: &mut BPE) -> (r: Result<
        Vec<AddedToken>,
        TrainError,
    >)
        ensures
            r matches Ok(tokens) ==> tokens@ == self.special_tokens@ && final(model).vocab.wf(),
            r is Ok ==> original_laws(self@, final(model)@),
            r is Err ==> *final(model) == *old(model),
            raw_weight(corpus_words(word_counts@)) > MAX_WEIGHT ==> r == Err::<
                Vec<AddedToken>,
                TrainError,
            >(TrainError::CorpusTooLarge),
            raw_weight(corpus_words(word_counts@)) <= MAX_WEIGHT ==> match original_outcome(
                self@,
                corpus_words(word_counts@),
            ) {
                Ok(m) => r is Ok && final(model)@ == m,
                Err(e) => r matches Err(f) && f == e,
            },
    {
        let ghost cw = corpus_words(word_counts@);
        if !corpus_fits(word_counts) {
            return Err(TrainError::CorpusTooLarge);
        }
        let mut vocab = Vocab::new();
        let kept = self.select_alphabet(word_counts);
        match self.add_special_tokens(&mut vocab) {
            Ok(()) => {},
            Err(e) => {
                return Err(e);
            },
        }
        match Self::add_chars(&mut vocab, &kept) {
            Ok(()) => {},
            Err(e) => {
                return Err(e);
            },
        }
        let (words, freqs) = match self.tokenize_words(word_counts, &mut vocab) {
            Ok(t) => t,
            Err(e) => {
                return Err(e);
            },
        };
        let ghost ws = word_views(words@);
        let mut run = self.start_discovery(vocab, words, freqs).unwrap();
        let rules = self.rules(MergeFilters { sentinel_cap: false, digit_guard: false });
        let ghost s0 = run@;
        let ghost limit = length_limit(self@);
        proof {
            if self@.continuing_subword_prefix is None && self@.end_of_word_suffix is None {
                assert(unit_words(ws, s0.vocab));
                lemma_counted_short(ws, frequencies(cw), ws.len() as int, s0.vocab);
                let c = counted(ws, frequencies(cw));
                lemma_priced_short(c.1, c.0, s0.vocab, 2);
                lemma_lens_stay(ws, s0.queue, s0.vocab, s0.vocab, 2, limit);
                lemma_learned_short(s0, rules@, limit);
            }
            lemma_finished_run(s0, rules@);
        }
        run.run(&rules);
        self.hand_over(run, model);
        Ok(self.special_tokens_copy())
    }

    /// Trains `model` by going on from the listed merges, and returns the
    /// special tokens of the trainer. On a fault the model is left as it
    /// was.
    pub fn do_train_extend(
        &self,
        word_counts: &Vec<(String, u64)>,
        source: &ExtendSource,
        model: &mut BPE,
    ) -> (r: Result<Vec<AddedToken>, TrainError>)
        ensures
            r matches Ok(tokens) ==> tokens@ == self.special_tokens@ && final(model).vocab.wf(),
            r is Ok ==> extend_laws(self@, source@, final(model)@),
            r is Err ==> *final(model) == *old(model),
            raw_weight(corpus_words(word_counts@)) > MAX_WEIGHT ==> r == Err::<
                Vec<AddedToken>,
                TrainError,
            >(TrainError::CorpusTooLarge),
            raw_weight(corpus_words(word_counts@)) <= MAX_WEIGHT ==> match extend_outcome(
                self@,
                corpus_words(word_counts@),
                source@,
            ) {
                Ok(m) => r is Ok && final(model)@ == m,
                Err(e) => r matches Err(f) && f == e,
            },
    {
        let ghost cw = corpus_words(word_counts@);
        if !corpus_fits(word_counts) {
            return Err(TrainError::CorpusTooLarge);
        }
        let list = match load_merges(&chars_of(source.merges.as_str())) {
            Ok(list) => list,
            Err(e) => {
                return Err(e);
            },
        };
        let mut vocab = Vocab::new();
        match load_symbols(&mut vocab, &chars_of(source.alphabet.as_str())) {
            Ok(()) => {},
            Err(e) => {
                return Err(e);
            },
        }
        let (words, freqs) = match self.tokenize_words(word_counts, &mut vocab) {
            Ok(t) => t,
            Err(e) => {
                return Err(e);
            },
        };
        let ghost ws = word_views(words@);
        let mut ext = self.start_replay(vocab, words, freqs).unwrap();
        let rules = self.rules(MergeFilters { sentinel_cap: true, digit_guard: true });
        let ghost x0 = ext@;
        let ghost lv = crate::listing::listed_views(list@);
        match ext.replay(&list, &rules) {
            Ok(()) => {},
            Err(e) => {
                return Err(e);
            },
        }
        let ghost x = ext@;
        let ghost limit = length_limit(self@);
        let ghost plain = self@.continuing_subword_prefix is None && self@.end_of_word_suffix is None;
        proof {
            lemma_replayed(x0, lv, lv.len() as int, rules@);
            assert(lv.take(lv.len() as int) =~= lv);
            if plain {
                assert(unit_words(ws, x0.vocab));
                lemma_counted_short(ws, frequencies(cw), ws.len() as int, x0.vocab);
                let c = counted(ws, frequencies(cw));
                lemma_priced_short(c.1, c.0, x0.vocab, 2);
                let first = first_candidates(ws, frequencies(cw));
                lemma_stored_short(Seq::empty(), first, first.len() as int, (0, 0), x0.vocab, 2);
                lemma_table_stays(x0.table, x0.vocab, x0.vocab, 2, limit);
                assert forall|k: int| 0 <= k < lv.len() implies (#[trigger] lv[k]).0.len()
                    + lv[k].1.len() <= usize::MAX by {
                    assert(lv[k] == (list@[k].0@, list@[k].1@));
                    assert(crate::rules::joined(list@[k].0@, list@[k].1@, rules@.prefix)
                        =~= list@[k].0@ + list@[k].1@);
                }
                lemma_replayed_lens(x0, lv, lv.len() as int, rules@, limit);
            }
        }
        let Extension { vocab, corpus, table, merges } = ext;
        let mut vocab = vocab;
        let ghost replayed_len = vocab@.len();
        match load_symbols(&mut vocab, &chars_of(source.special_tokens.as_str())) {
            Ok(()) => {},
            Err(e) => {
                return Err(e);
            },
        }
        let ghost listed_vocab = vocab@;
        match self.add_special_tokens(&mut vocab) {
            Ok(()) => {},
            Err(e) => {
                return Err(e);
            },
        }
        let ghost slots = table@;
        let waiting = table.into_entries();
        let mut queue = MergeQueue::new();
        queue.extend(waiting);
        proof {
            assert(queue@ =~= merge_views(waiting@));
            vocab.lemma_sizes_agree();
            lemma_below_grows(
                corpus@.words,
                slots,
                Seq::empty(),
                replayed_len as int,
                vocab@.len() as int,
            );
            lemma_held_below(slots, vocab@.len() as int);
        }
        let mut run = Training { vocab, corpus, queue, merges };
        let ghost s0 = run@;
        proof {
            if plain {
                lemma_grown_twice(x.vocab, listed_vocab, s0.vocab);
                lemma_lens_stay(x.corpus.words, Seq::empty(), x.vocab, s0.vocab, limit, limit);
                lemma_table_stays(x.table, x.vocab, s0.vocab, limit, limit);
                lemma_held_short(x.table, s0.vocab, limit);
                lemma_learned_short(s0, rules@, limit);
            }
        }
        run.run(&rules);
        proof {
            let f = run@;
            lemma_finished_run(s0, rules@);
            lemma_grown_twice(x.vocab, listed_vocab, s0.vocab);
            lemma_grown_twice(x.vocab, s0.vocab, f.vocab);
            lemma_listed_stay(x.vocab, x.merges, f.vocab, f.merges, lv);
            lemma_merges_stay(x.vocab, f.vocab, x.merges, 0, rules@);
            assert forall|k: int| 0 <= k < f.merges.len() implies crate::laws::merge_sound(
                f.vocab,
                #[trigger] f.merges[k],
                rules@.prefix,
            ) by {
                if k < x.merges.len() {
                    assert(f.merges[k] == x.merges[k]);
                    assert(crate::laws::merge_sound(f.vocab, x.merges[k], rules@.prefix));
                }
            }
        }
        self.hand_over(run, model);
        Ok(self.special_tokens_copy())
    }

    /// Trains `model`: from the words alone if `extend` is `None`, and by
    /// going on from the listed merges otherwise.
    pub fn do_train(
        &self,
        word_counts: &Vec<(String, u64)>,
        extend: &Option<ExtendSource>,
        model: &mut BPE,
    ) -> (r: Result<Vec<AddedToken>, TrainError>)
        ensures
            r matches Ok(tokens) ==> tokens@ == self.special_tokens@ && final(model).vocab.wf(),
            r is Ok ==> match *extend {
                Some(source) => extend_laws(self@, source@, final(model)@),
                None => original_laws(self@, final(model)@),
            },
            r is Err ==> *final(model) == *old(model),
            raw_weight(corpus_words(word_counts@)) > MAX_WEIGHT ==> r == Err::<
                Vec<AddedToken>,
                TrainError,
            >(TrainError::CorpusTooLarge),
            raw_weight(corpus_words(word_counts@)) <= MAX_WEIGHT ==> match *extend {
                Some(source) => match extend_outcome(
                    self@,
                    corpus_words(word_counts@),
                    source@,
                ) {
                    Ok(m) => r is Ok && final(model)@ == m,
                    Err(e) => r matches Err(f) && f == e,
                },
                None => match original_outcome(self@, corpus_words(word_counts@)) {
                    Ok(m) => r is Ok && final(model)@ == m,
                    Err(e) => r matches Err(f) && f == e,
                },
            },
    {
        match extend {
            Some(source) => self.do_train_extend(word_counts, source, model),
            None => self.do_train_original(word_counts, model),
        }
    }

    /// Trains `model` on the words that were fed.
    pub fn train(&self, extend: &Option<ExtendSource>, model: &mut BPE) -> (r: Result<
        Vec<AddedToken>,
        TrainError,
    >)
        ensures
            r matches Ok(tokens) ==> tokens@ == self.special_tokens@ && final(model).vocab.wf(),
            r is Ok ==> match *extend {
                Some(source) => extend_laws(self@, source@, final(model)@),
                None => original_laws(self@, final(model)@),
            },
            r is Err ==> *final(model) == *old(model),
            raw_weight(corpus_words(self.words@)) > MAX_WEIGHT ==> r == Err::<
                Vec<AddedToken>,
                TrainError,
            >(TrainError::CorpusTooLarge),
            raw_weight(corpus_words(self.words@)) <= MAX_WEIGHT ==> match *extend {
                Some(source) => match extend_outcome(self@, corpus_words(self.words@), source@) {
                    Ok(m) => r is Ok && final(model)@ == m,
                    Err(e) => r matches Err(f) && f == e,
                },
                None => match original_outcome(self@, corpus_words(self.words@)) {
                    Ok(m) => r is Ok && final(model)@ == m,
                    Err(e) => r matches Err(f) && f == e,
                },
            },
    {
        self.do_train(&self.words, extend, model)
    }
}

} // verus!
