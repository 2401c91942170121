//! The trainer, its builder, and what a training run hands over.

use crate::rules::{marker_view, MergeFilters};
use crate::text::chars_of;
use crate::vocab::Vocab;
use crate::word::Pair;
use vstd::prelude::*;

verus! {

/// A token that a tokenizer treats apart from the learned ones.
#[derive(Debug, Clone, PartialEq, Eq)]
pub struct AddedToken {
    /// The symbol.
    pub content: String,
    /// Whether the token matches whole words only.
    pub single_word: bool,
    /// Whether the token takes the whitespace on its left.
    pub lstrip: bool,
    /// Whether the token takes the whitespace on its right.
    pub rstrip: bool,
    /// Whether the token is matched against normalized text.
    pub normalized: bool,
    /// Whether the token is a special one.
    pub special: bool,
}

impl AddedToken {
    /// A special token with the symbol `content`.
    pub fn from(content: String, special: bool) -> (t: AddedToken)
        ensures
            t == (AddedToken {
                content,
                single_word: false,
                lstrip: false,
                rstrip: false,
                normalized: !special,
                special,
            }),
    {
        AddedToken {
            content,
            single_word: false,
            lstrip: false,
            rstrip: false,
            normalized: !special,
            special,
        }
    }

    /// A token equal to this one.
    pub fn copy(&self) -> (t: AddedToken)
        ensures
            t == *self,
    {
        AddedToken {
            content: self.content.clone(),
            single_word: self.single_word,
            lstrip: self.lstrip,
            rstrip: self.rstrip,
            normalized: self.normalized,
            special: self.special,
        }
    }
}

/// Why a training run came to nothing.
#[derive(Clone, Copy, Debug, PartialEq, Eq, Structural)]
pub enum TrainError {
    /// Line `line` of a symbol listing is not a symbol, a space and a number.
    MalformedEntry { line: usize },
    /// Line `line` of a symbol listing gives an id that is not the number
    /// of symbols before it.
    IdOutOfSequence { line: usize },
    /// Line `line` of a symbol listing gives a symbol that has an id already.
    DuplicateSymbol { line: usize },
    /// Line `line` of a merge listing is not two symbols with a space between.
    MalformedMerge { line: usize },
    /// The left symbol of listed merge `rank` is not in the vocabulary.
    MissingLeft { rank: usize },
    /// The right symbol of listed merge `rank` is not in the vocabulary.
    MissingRight { rank: usize },
    /// A symbol needed an id when none was left.
    VocabularyFull,
    /// The words, each taken as often as it occurs, hold more characters
    /// than the counts can keep track of.
    CorpusTooLarge,
}

/// The model that training fills: the symbols with their ids, and the
/// merges in the order in which they are to be applied.
pub struct BPE {
    /// The symbols and their ids, in both directions.
    pub vocab: Vocab,
    /// The merges; the position of a merge in the list is its rank.
    pub merges: Vec<(Pair, u32)>,
    /// The marker that begins every symbol that does not begin a word.
    pub continuing_subword_prefix: Option<String>,
    /// The marker that ends every symbol that ends a word.
    pub end_of_word_suffix: Option<String>,
}

/// A model as mathematical values.
#[verifier::ext_equal]
pub struct ModelView {
    pub vocab: Seq<Seq<char>>,
    pub merges: Seq<(Pair, u32)>,
    pub continuing_subword_prefix: Option<Seq<char>>,
    pub end_of_word_suffix: Option<Seq<char>>,
}

/// The characters of an optional string.
pub open spec fn text_view(s: Option<String>) -> Option<Seq<char>> {
    match s {
        Some(t) => Some(t@),
        None => None,
    }
}

impl View for BPE {
    type V = ModelView;

    /// The symbols, the merges and the markers of the model.
    open spec fn view(&self) -> ModelView {
        ModelView {
            vocab: self.vocab@,
            merges: self.merges@,
            continuing_subword_prefix: text_view(self.continuing_subword_prefix),
            end_of_word_suffix: text_view(self.end_of_word_suffix),
        }
    }
}

impl BPE {
    /// A model without symbols and merges.
    pub fn new() -> (m: BPE)
        ensures
            m.vocab.wf(),
            m@ == (ModelView {
                vocab: Seq::empty(),
                merges: Seq::empty(),
                continuing_subword_prefix: None,
                end_of_word_suffix: None,
            }),
    {
        BPE {
            vocab: Vocab::new(),
            merges: Vec::new(),
            continuing_subword_prefix: None,
            end_of_word_suffix: None,
        }
    }

    /// The symbols, each with its id, in the order of the ids.
    pub fn get_vocab(&self) -> (out: Vec<(String, u32)>)
        requires
            self.vocab.wf(),
        ensures
            out@.len() == self@.vocab.len(),
            forall|i: int|
                0 <= i < out@.len() ==> (#[trigger] out@[i]).0@ == self@.vocab[i] && out@[i].1 == i,
    {
        proof {
            self.vocab.lemma_sizes_agree();
        }
        let mut words = self.vocab.words();
        let mut out: Vec<(String, u32)> = Vec::new();
        let n = words.len();
        let mut i: usize = 0;
        while i < n
            invariant
                i <= n,
                n == words@.len(),
                n == self@.vocab.len(),
                n <= 0x1_0000_0000,
                out@.len() == i,
                forall|j: int| i <= j < n ==> (#[trigger] words@[j])@ == self@.vocab[j],
                forall|j: int|
                    0 <= j < i ==> (#[trigger] out@[j]).0@ == self@.vocab[j] && out@[j].1 == j,
            decreases n - i,
        {
            let mut word = String::new();
            core::mem::swap(&mut word, &mut words[i]);
            out.push((word, i as u32));
            i += 1;
        }
        out
    }
}

/// The parameters of a trainer.
struct Config {
    min_frequency: u64,
    vocab_size: usize,
    show_progress: bool,
    special_tokens: Vec<AddedToken>,
    limit_alphabet: Option<usize>,
    initial_alphabet: Vec<char>,
    continuing_subword_prefix: Option<String>,
    end_of_word_suffix: Option<String>,
    max_token_length: Option<usize>,
    filters: Option<MergeFilters>,
}

/// A `BpeTrainerBuilder` makes a `BpeTrainer` with chosen parameters.
pub struct BpeTrainerBuilder {
    config: Config,
}

/// In charge of training a `BPE` model.
#[non_exhaustive]
#[derive(Debug, Clone, PartialEq, Eq)]
pub struct BpeTrainer {
    /// The minimum frequency a pair must have to produce a merge.
    pub min_frequency: u64,
    /// The target vocabulary size.
    pub vocab_size: usize,
    /// Whether the caller is to show progress while training.
    pub show_progress: bool,
    /// The special tokens that the model should know of.
    pub special_tokens: Vec<AddedToken>,
    /// The number of characters to keep from the words, if it is limited.
    pub limit_alphabet: Option<usize>,
    /// Characters that count as seen however rarely they occur.
    pub initial_alphabet: Vec<char>,
    /// The marker that begins every symbol that does not begin a word.
    pub continuing_subword_prefix: Option<String>,
    /// The marker that ends every symbol that ends a word.
    pub end_of_word_suffix: Option<String>,
    /// The number of characters that no learned symbol is to exceed.
    pub max_token_length: Option<usize>,
    /// The candidates that discovery passes over. `None` stands for none
    /// when training starts from the words alone, and for all when it
    /// goes on from listed merges.
    pub filters: Option<MergeFilters>,
    /// The words fed so far, each with the number of times it was seen.
    pub words: Vec<(String, u64)>,
}

/// The parameters of a trainer as mathematical values.
#[verifier::ext_equal]
pub struct TrainerView {
    pub min_frequency: u64,
    pub vocab_size: usize,
    pub show_progress: bool,
    pub special_tokens: Seq<AddedToken>,
    pub limit_alphabet: Option<usize>,
    pub initial_alphabet: Seq<char>,
    pub continuing_subword_prefix: Option<Seq<char>>,
    pub end_of_word_suffix: Option<Seq<char>>,
    pub max_token_length: Option<usize>,
    pub filters: Option<MergeFilters>,
}

/// The parameters that a builder starts from.
pub open spec fn default_parameters() -> TrainerView {
    TrainerView {
        min_frequency: 0,
        vocab_size: 30000,
        show_progress: true,
        special_tokens: Seq::empty(),
        limit_alphabet: None,
        initial_alphabet: Seq::empty(),
        continuing_subword_prefix: None,
        end_of_word_suffix: None,
        max_token_length: None,
        filters: None,
    }
}

impl View for BpeTrainerBuilder {
    type V = TrainerView;

    /// The parameters that the trainer will have.
    closed spec fn view(&self) -> TrainerView {
        TrainerView {
            min_frequency: self.config.min_frequency,
            vocab_size: self.config.vocab_size,
            show_progress: self.config.show_progress,
            special_tokens: self.config.special_tokens@,
            limit_alphabet: self.config.limit_alphabet,
            initial_alphabet: self.config.initial_alphabet@,
            continuing_subword_prefix: text_view(self.config.continuing_subword_prefix),
            end_of_word_suffix: text_view(self.config.end_of_word_suffix),
            max_token_length: self.config.max_token_length,
            filters: self.config.filters,
        }
    }
}

impl View for BpeTrainer {
    type V = TrainerView;

    /// The parameters of the trainer, without the words that it was fed.
    open spec fn view(&self) -> TrainerView {
        TrainerView {
            min_frequency: self.min_frequency,
            vocab_size: self.vocab_size,
            show_progress: self.show_progress,
            special_tokens: self.special_tokens@,
            limit_alphabet: self.limit_alphabet,
            initial_alphabet: self.initial_alphabet@,
            continuing_subword_prefix: text_view(self.continuing_subword_prefix),
            end_of_word_suffix: text_view(self.end_of_word_suffix),
            max_token_length: self.max_token_length,
            filters: self.filters,
        }
    }
}

impl Default for BpeTrainerBuilder {
    fn default() -> (b: Self)
        ensures
            b@ == default_parameters(),
    {
        Self {
            config: Config {
                min_frequency: 0,
                vocab_size: 30000,
                show_progress: true,
                special_tokens: Vec::new(),
                limit_alphabet: None,
                initial_alphabet: Vec::new(),
                continuing_subword_prefix: None,
                end_of_word_suffix: None,
                max_token_length: None,
                filters: None,
            },
        }
    }
}

impl BpeTrainerBuilder {
    /// Constructs a new `BpeTrainerBuilder`.
    pub fn new() -> (b: Self)
        ensures
            b@ == default_parameters(),
    {
        Self::default()
    }

    /// Sets the expected minimum frequency.
    #[must_use]
    pub fn min_frequency(self, frequency: u64) -> (b: Self)
        ensures
            b@ == (TrainerView { min_frequency: frequency, ..self@ }),
    {
        let mut b = self;
        b.config.min_frequency = frequency;
        b
    }

    /// Sets the vocabulary size.
    #[must_use]
    pub fn vocab_size(self, size: usize) -> (b: Self)
        ensures
            b@ == (TrainerView { vocab_size: size, ..self@ }),
    {
        let mut b = self;
        b.config.vocab_size = size;
        b
    }

    /// Sets whether to show progress.
    #[must_use]
    pub fn show_progress(self, show: bool) -> (b: Self)
        ensures
            b@ == (TrainerView { show_progress: show, ..self@ }),
    {
        let mut b = self;
        b.config.show_progress = show;
        b
    }

    /// Sets the special tokens.
    #[must_use]
    pub fn special_tokens(self, tokens: Vec<AddedToken>) -> (b: Self)
        ensures
            b@ == (TrainerView { special_tokens: tokens@, ..self@ }),
    {
        let mut b = self;
        b.config.special_tokens = tokens;
        b
    }

    /// Limits the alphabet to `limit` characters.
    #[must_use]
    pub fn limit_alphabet(self, limit: usize) -> (b: Self)
        ensures
            b@ == (TrainerView { limit_alphabet: Some(limit), ..self@ }),
    {
        let mut b = self;
        b.config.limit_alphabet = Some(limit);
        b
    }

    /// Sets the initial alphabet.
    #[must_use]
    pub fn initial_alphabet(self, alphabet: Vec<char>) -> (b: Self)
        ensures
            b@ == (TrainerView { initial_alphabet: alphabet@, ..self@ }),
    {
        let mut b = self;
        b.config.initial_alphabet = alphabet;
        b
    }

    /// Sets the marker of symbols that do not begin a word.
    #[must_use]
    pub fn continuing_subword_prefix(self, prefix: String) -> (b: Self)
        ensures
            b@ == (TrainerView { continuing_subword_prefix: Some(prefix@), ..self@ }),
    {
        let mut b = self;
        b.config.continuing_subword_prefix = Some(prefix);
        b
    }

    /// Sets the marker of symbols that end a word.
    #[must_use]
    pub fn end_of_word_suffix(self, suffix: String) -> (b: Self)
        ensures
            b@ == (TrainerView { end_of_word_suffix: Some(suffix@), ..self@ }),
    {
        let mut b = self;
        b.config.end_of_word_suffix = Some(suffix);
        b
    }

    /// Sets the largest number of characters of a learned symbol.
    #[must_use]
    pub fn max_token_length(self, max_token_length: Option<usize>) -> (b: Self)
        ensures
            b@ == (TrainerView { max_token_length, ..self@ }),
    {
        let mut b = self;
        b.config.max_token_length = max_token_length;
        b
    }

    /// Sets the candidates that discovery passes over.
    #[must_use]
    pub fn filters(self, filters: Option<MergeFilters>) -> (b: Self)
        ensures
            b@ == (TrainerView { filters, ..self@ }),
    {
        let mut b = self;
        b.config.filters = filters;
        b
    }

    /// Constructs the final `BpeTrainer`.
    pub fn build(self) -> (t: BpeTrainer)
        ensures
            t@ == self@,
            t.words@ == Seq::<(String, u64)>::empty(),
    {
        BpeTrainer {
            min_frequency: self.config.min_frequency,
            vocab_size: self.config.vocab_size,
            show_progress: self.config.show_progress,
            special_tokens: self.config.special_tokens,
            limit_alphabet: self.config.limit_alphabet,
            initial_alphabet: self.config.initial_alphabet,
            continuing_subword_prefix: self.config.continuing_subword_prefix,
            end_of_word_suffix: self.config.end_of_word_suffix,
            max_token_length: self.config.max_token_length,
            filters: self.config.filters,
            words: Vec::new(),
        }
    }
}

impl Default for BpeTrainer {
    fn default() -> (t: Self)
        ensures
            t@ == default_parameters(),
            t.words@ == Seq::<(String, u64)>::empty(),
    {
        Self::builder().build()
    }
}

impl BpeTrainer {
    /// A trainer with the given minimum frequency and vocabulary size, and
    /// every other parameter as a builder starts with it.
    pub fn new(min_frequency: u64, vocab_size: usize) -> (t: Self)
        ensures
            t@ == (TrainerView { min_frequency, vocab_size, ..default_parameters() }),
            t.words@ == Seq::<(String, u64)>::empty(),
    {
        Self::builder().min_frequency(min_frequency).vocab_size(vocab_size).build()
    }

    /// A builder with the parameters it starts from.
    pub fn builder() -> (b: BpeTrainerBuilder)
        ensures
            b@ == default_parameters(),
    {
        BpeTrainerBuilder::new()
    }

    /// Whether the caller is to show progress.
    pub fn should_show_progress(&self) -> (b: bool)
        ensures
            b == self.show_progress,
    {
        self.show_progress
    }

    /// The characters of the marker of symbols that do not begin a word.
    pub fn prefix_chars(&self) -> (p: Option<Vec<char>>)
        ensures
            marker_view(p) == self@.continuing_subword_prefix,
    {
        match &self.continuing_subword_prefix {
            Some(s) => Some(chars_of(s.as_str())),
            None => None,
        }
    }

    /// The characters of the marker of symbols that end a word.
    pub fn suffix_chars(&self) -> (p: Option<Vec<char>>)
        ensures
            marker_view(p) == self@.end_of_word_suffix,
    {
        match &self.end_of_word_suffix {
            Some(s) => Some(chars_of(s.as_str())),
            None => None,
        }
    }
}

} // verus!
