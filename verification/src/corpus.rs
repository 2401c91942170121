//! The training words with their frequencies and pair counts, and what one
//! merge does to them.

use crate::pairs::{count_added, counts_within, PairCounts};
use crate::table::{
    held_entries, holds_pair, merge_views, noted, priced_entries, slot_of, stored, without, Merge,
    MergeView,
    PairTable,
};
use crate::word::{
    changes_below, lemma_rewrite_ids, lemma_rewrite_shape, merged, symbols_below, unit_changes,
    Change, Pair, Symbol, Word,
};
use vstd::prelude::*;

verus! {

/// The words, how often each occurs, and the count of each pair.
#[verifier::ext_equal]
pub struct CorpusView {
    pub words: Seq<Seq<Symbol>>,
    pub freqs: Seq<u64>,
    pub pair_counts: Map<Pair, int>,
}

/// Every token id in `words` is below `bound`.
pub open spec fn words_below(words: Seq<Seq<Symbol>>, bound: int) -> bool {
    forall|i: int| 0 <= i < words.len() ==> symbols_below(#[trigger] words[i], bound)
}

/// The number of symbols in the first `n` words, each word taken as often
/// as it occurs.
pub open spec fn weight_upto(words: Seq<Seq<Symbol>>, freqs: Seq<u64>, n: int) -> int
    decreases n,
{
    if n <= 0 {
        0
    } else {
        weight_upto(words, freqs, n - 1) + freqs[n - 1] * words[n - 1].len()
    }
}

/// The number of symbols in the first `n` words.
pub open spec fn size_upto(words: Seq<Seq<Symbol>>, n: int) -> int
    decreases n,
{
    if n <= 0 {
        0
    } else {
        size_upto(words, n - 1) + words[n - 1].len()
    }
}

impl CorpusView {
    /// The number of symbols, each word taken as often as it occurs.
    pub open spec fn weight(self) -> int {
        weight_upto(self.words, self.freqs, self.words.len() as int)
    }

    /// The number of symbols.
    pub open spec fn size(self) -> int {
        size_upto(self.words, self.words.len() as int)
    }

    /// Each word has a frequency, and the counts leave room for four
    /// changes for each symbol that a merge can still remove.
    pub open spec fn ok(self) -> bool {
        &&& self.words.len() == self.freqs.len()
        &&& 4 * self.weight() <= i64::MAX
        &&& counts_within(self.pair_counts, i64::MAX - 4 * self.weight())
    }

    /// Every token id in the words is below `bound`.
    pub open spec fn below(self, bound: int) -> bool {
        words_below(self.words, bound)
    }
}

/// Every candidate that `t` holds is for a pair of token ids below `bound`.
pub open spec fn table_below(t: Seq<Option<MergeView>>, bound: int) -> bool {
    forall|i: int|
        0 <= i < t.len() && (#[trigger] t[i]) is Some ==> t[i]->0.pair.0 < bound && t[i]->0.pair.1
            < bound
}

/// Every candidate of `q` is for a pair of token ids below `bound`.
pub open spec fn entries_below(q: Seq<MergeView>, bound: int) -> bool {
    forall|i: int| 0 <= i < q.len() ==> (#[trigger] q[i]).pair.0 < bound && q[i].pair.1 < bound
}

/// The counts and the table after the changes that a rewrite of word `iw`
/// caused were recorded, one after the other: each adds the word's
/// frequency to, or takes it from, the count of its pair, and a gain notes
/// the word as a position of the pair.
pub open spec fn recorded(
    counts: Map<Pair, int>,
    pending: Seq<Option<MergeView>>,
    changes: Seq<Change>,
    iw: usize,
    freq: u64,
) -> (Map<Pair, int>, Seq<Option<MergeView>>)
    decreases changes.len(),
{
    if changes.len() == 0 {
        (counts, pending)
    } else {
        let before = recorded(counts, pending, changes.drop_last(), iw, freq);
        let change = changes.last();
        (
            count_added(before.0, change.0, change.1 * freq),
            if change.1 > 0 {
                noted(before.1, change.0, iw)
            } else {
                before.1
            },
        )
    }
}

/// The corpus and the table after `(a, b)` was rewritten to `c` in word
/// `iw` and the changes were recorded. A position that names no word
/// changes nothing.
pub open spec fn rewritten_word(
    corpus: CorpusView,
    pending: Seq<Option<MergeView>>,
    iw: usize,
    a: u32,
    b: u32,
    c: u32,
    max_len: usize,
) -> (CorpusView, Seq<Option<MergeView>>) {
    if iw < corpus.words.len() && iw < corpus.freqs.len() {
        let m = merged(corpus.words[iw as int], a, b, c, max_len);
        let r = recorded(corpus.pair_counts, pending, m.1, iw, corpus.freqs[iw as int]);
        (
            CorpusView {
                words: corpus.words.update(iw as int, m.0),
                freqs: corpus.freqs,
                pair_counts: r.0,
            },
            r.1,
        )
    } else {
        (corpus, pending)
    }
}

/// The corpus and the table after `(a, b)` was rewritten to `c` in the
/// words at the positions `pos`, taken in order.
pub open spec fn rewritten(
    corpus: CorpusView,
    pending: Seq<Option<MergeView>>,
    pos: Seq<usize>,
    a: u32,
    b: u32,
    c: u32,
    max_len: usize,
) -> (CorpusView, Seq<Option<MergeView>>)
    decreases pos.len(),
{
    if pos.len() == 0 {
        (corpus, pending)
    } else {
        let before = rewritten(corpus, pending, pos.drop_last(), a, b, c, max_len);
        rewritten_word(before.0, before.1, pos.last(), a, b, c, max_len)
    }
}

/// The corpus after the merge of `pair` into `new_id` at the positions
/// `pos`, and the candidates that the merge brings: one for each pair that
/// gained an occurrence and has a positive count afterwards, in the order
/// in which the pairs first gained one.
pub open spec fn applied(
    corpus: CorpusView,
    pair: Pair,
    pos: Seq<usize>,
    new_id: u32,
    max_len: usize,
) -> (CorpusView, Seq<MergeView>) {
    let r = rewritten(corpus, Seq::empty(), pos, pair.0, pair.1, new_id, max_len);
    (r.0, priced_entries(r.1, r.0.pair_counts))
}

/// Replacing a word changes the weight by what the word gained or lost.
pub proof fn lemma_weight_update(
    words: Seq<Seq<Symbol>>,
    freqs: Seq<u64>,
    n: int,
    i: int,
    w: Seq<Symbol>,
)
    requires
        0 <= i < words.len(),
        0 <= n <= words.len(),
    ensures
        weight_upto(words.update(i, w), freqs, n) == weight_upto(words, freqs, n) + if i < n {
            freqs[i] * w.len() - freqs[i] * words[i].len()
        } else {
            0
        },
        size_upto(words.update(i, w), n) == size_upto(words, n) + if i < n {
            w.len() - words[i].len()
        } else {
            0
        },
    decreases n,
{
    if n > 0 {
        lemma_weight_update(words, freqs, n - 1, i, w);
    }
}

/// No word weighs more than all of them together.
pub proof fn lemma_weight_term(words: Seq<Seq<Symbol>>, freqs: Seq<u64>, n: int, i: int)
    requires
        0 <= i < n <= words.len(),
    ensures
        0 <= freqs[i] * words[i].len() <= weight_upto(words, freqs, n),
        0 <= weight_upto(words, freqs, i) <= weight_upto(words, freqs, n),
        0 <= size_upto(words, n),
    decreases n,
{
    lemma_weight_nonneg(words, freqs, n - 1);
    assert(0 <= freqs[n - 1] * words[n - 1].len()) by (nonlinear_arith)
        requires
            0 <= freqs[n - 1],
            0 <= words[n - 1].len(),
    ;
    if i < n - 1 {
        lemma_weight_term(words, freqs, n - 1, i);
    }
}

/// The weight of the first words is no more than the weight of more of them.
pub proof fn lemma_weight_mono(words: Seq<Seq<Symbol>>, freqs: Seq<u64>, i: int, n: int)
    requires
        0 <= i <= n,
    ensures
        0 <= weight_upto(words, freqs, i) <= weight_upto(words, freqs, n),
    decreases n,
{
    lemma_weight_nonneg(words, freqs, i);
    if i < n {
        lemma_weight_mono(words, freqs, i, n - 1);
        assert(0 <= freqs[n - 1] * words[n - 1].len()) by (nonlinear_arith)
            requires
                0 <= freqs[n - 1],
                0 <= words[n - 1].len(),
        ;
    }
}

/// Weights and sizes are not negative.
pub proof fn lemma_weight_nonneg(words: Seq<Seq<Symbol>>, freqs: Seq<u64>, n: int)
    ensures
        0 <= weight_upto(words, freqs, n),
        0 <= size_upto(words, n),
    decreases n,
{
    if n > 0 {
        lemma_weight_nonneg(words, freqs, n - 1);
        assert(0 <= freqs[n - 1] * words[n - 1].len()) by (nonlinear_arith)
            requires
                0 <= freqs[n - 1],
                0 <= words[n - 1].len(),
        ;
    }
}

/// What is below a bound is below every greater bound.
pub proof fn lemma_below_grows(
    words: Seq<Seq<Symbol>>,
    t: Seq<Option<MergeView>>,
    q: Seq<MergeView>,
    bound: int,
    more: int,
)
    requires
        bound <= more,
    ensures
        words_below(words, bound) ==> words_below(words, more),
        table_below(t, bound) ==> table_below(t, more),
        entries_below(q, bound) ==> entries_below(q, more),
{
    if words_below(words, bound) {
        assert forall|i: int| 0 <= i < words.len() implies symbols_below(
            #[trigger] words[i],
            more,
        ) by {
            assert(symbols_below(words[i], bound));
        }
    }
}

/// Storing a candidate below `bound`, or taking one out, keeps a table
/// below `bound`.
pub proof fn lemma_stored_below(t: Seq<Option<MergeView>>, m: MergeView, bound: int)
    requires
        table_below(t, bound),
    ensures
        m.pair.0 < bound && m.pair.1 < bound ==> table_below(stored(t, m), bound),
        table_below(without(t, m.pair), bound),
{
    let w = without(t, m.pair);
    assert forall|i: int| 0 <= i < w.len() && (#[trigger] w[i]) is Some implies w[i]->0.pair.0
        < bound && w[i]->0.pair.1 < bound by {
        assert(t[i] is Some);
    }
    if m.pair.0 < bound && m.pair.1 < bound {
        let s = stored(t, m);
        assert forall|i: int| 0 <= i < s.len() && (#[trigger] s[i]) is Some implies s[i]->0.pair.0
            < bound && s[i]->0.pair.1 < bound by {
            match slot_of(t, m.pair) {
                Some(k) => {
                    assert(holds_pair(t, k, m.pair));
                    if i != k {
                        assert(t[i] is Some);
                    }
                },
                None => {
                    if i < t.len() {
                        assert(t[i] is Some);
                    }
                },
            }
        }
    }
}

/// Recording changes of pairs below `bound` keeps the table below `bound`.
pub proof fn lemma_recorded_below(
    counts: Map<Pair, int>,
    pending: Seq<Option<MergeView>>,
    changes: Seq<Change>,
    iw: usize,
    freq: u64,
    bound: int,
)
    requires
        table_below(pending, bound),
        changes_below(changes, bound),
    ensures
        table_below(recorded(counts, pending, changes, iw, freq).1, bound),
    decreases changes.len(),
{
    if changes.len() > 0 {
        let head = changes.drop_last();
        assert(changes_below(head, bound)) by {
            assert forall|j: int| 0 <= j < head.len() implies (#[trigger] head[j]).0.0 < bound
                && head[j].0.1 < bound by {
                assert(head[j] == changes[j]);
            }
        }
        lemma_recorded_below(counts, pending, head, iw, freq, bound);
        let before = recorded(counts, pending, head, iw, freq);
        let change = changes.last();
        assert(change == changes[changes.len() - 1]);
        if change.1 > 0 {
            let after = noted(before.1, change.0, iw);
            assert forall|i: int| 0 <= i < after.len() && (#[trigger] after[i]) is Some implies after[i]->0.pair.0
                < bound && after[i]->0.pair.1 < bound by {
                match slot_of(before.1, change.0) {
                    Some(k) => {
                        assert(holds_pair(before.1, k, change.0));
                        if i != k {
                            assert(before.1[i] is Some);
                        }
                    },
                    None => {
                        if i < before.1.len() {
                            assert(before.1[i] is Some);
                        }
                    },
                }
            }
        }
    }
}

/// The candidates priced out of a table below `bound` are below `bound`.
pub proof fn lemma_priced_below(t: Seq<Option<MergeView>>, counts: Map<Pair, int>, bound: int)
    requires
        table_below(t, bound),
    ensures
        entries_below(priced_entries(t, counts), bound),
        t.len() == 0 ==> priced_entries(t, counts).len() == 0,
    decreases t.len(),
{
    if t.len() > 0 {
        let head = t.drop_last();
        assert(table_below(head, bound)) by {
            assert forall|i: int| 0 <= i < head.len() && (#[trigger] head[i]) is Some implies head[i]->0.pair.0
                < bound && head[i]->0.pair.1 < bound by {
                assert(head[i] == t[i]);
            }
        }
        lemma_priced_below(head, counts, bound);
        assert(t.last() == t[t.len() - 1]);
    }
}

/// The candidates held by a table below `bound` are below `bound`.
pub proof fn lemma_held_below(t: Seq<Option<MergeView>>, bound: int)
    requires
        table_below(t, bound),
    ensures
        entries_below(held_entries(t), bound),
    decreases t.len(),
{
    if t.len() > 0 {
        let head = t.drop_last();
        assert(table_below(head, bound)) by {
            assert forall|i: int| 0 <= i < head.len() && (#[trigger] head[i]) is Some implies head[i]->0.pair.0
                < bound && head[i]->0.pair.1 < bound by {
                assert(head[i] == t[i]);
            }
        }
        lemma_held_below(head, bound);
        assert(t.last() == t[t.len() - 1]);
    }
}

/// A corpus under training.
pub struct Corpus {
    pub words: Vec<Word>,
    pub freqs: Vec<u64>,
    pub pair_counts: PairCounts,
}

impl View for Corpus {
    type V = CorpusView;

    /// The words, their frequencies and the counts as mathematical values.
    open spec fn view(&self) -> CorpusView {
        CorpusView {
            words: self.words@.map_values(|w: Word| w@),
            freqs: self.freqs@,
            pair_counts: self.pair_counts@,
        }
    }
}

/// Records the changes that a rewrite of word `iw` caused.
pub fn record(
    counts: &mut PairCounts,
    pending: &mut PairTable,
    changes: &Vec<Change>,
    iw: usize,
    freq: u64,
)
    requires
        old(pending).wf(),
        unit_changes(changes@),
        changes@.len() * freq <= i64::MAX,
        counts_within(old(counts)@, i64::MAX - changes@.len() * freq),
    ensures
        final(pending).wf(),
        (final(counts)@, final(pending)@) == recorded(
            old(counts)@,
            old(pending)@,
            changes@,
            iw,
            freq,
        ),
        forall|limit: int|
            0 <= limit && counts_within(old(counts)@, limit) ==> counts_within(
                final(counts)@,
                limit + changes@.len() * freq,
            ),
{
    let n = changes.len();
    let ghost counts0 = counts@;
    let ghost pending0 = pending@;
    let mut k: usize = 0;
    assert(changes@.take(0) =~= Seq::<Change>::empty());
    while k < n
        invariant
            n == changes@.len(),
            k <= n,
            pending.wf(),
            unit_changes(changes@),
            n * freq <= i64::MAX,
            counts_within(counts0, i64::MAX - n * freq),
            (counts@, pending@) == recorded(counts0, pending0, changes@.take(k as int), iw, freq),
            forall|limit: int|
                0 <= limit && counts_within(counts0, limit) ==> counts_within(
                    counts@,
                    limit + k * freq,
                ),
        decreases n - k,
    {
        let change = changes[k];
        let ghost here = counts@;
        proof {
            assert(changes@.take(k + 1).drop_last() =~= changes@.take(k as int));
            assert(changes@.take(k + 1).last() == change);
            assert(n * freq >= freq) by (nonlinear_arith)
                requires
                    n >= 1,
                    freq >= 0,
            ;
            assert((k + 1) * freq == k * freq + freq) by (nonlinear_arith);
            assert((k + 1) * freq <= n * freq) by (nonlinear_arith)
                requires
                    k + 1 <= n,
                    freq >= 0,
            ;
            assert(counts_within(here, i64::MAX - n * freq + k * freq));
            if here.contains_key(change.0) {
                assert(-(i64::MAX - n * freq + k * freq) <= here[change.0] <= i64::MAX - n * freq + k
                    * freq);
            }
        }
        let f = freq as i64;
        let delta: i64 = if change.1 > 0 {
            f
        } else {
            -f
        };
        assert(delta == change.1 * freq) by (nonlinear_arith)
            requires
                change.1 == 1 || change.1 == -1,
                delta == if change.1 > 0 {
                    freq as int
                } else {
                    -(freq as int)
                },
        ;
        counts.add(change.0, delta);
        if change.1 > 0 {
            pending.note(change.0, iw);
        }
        proof {
            assert forall|limit: int| 0 <= limit && counts_within(counts0, limit) implies counts_within(
                counts@,
                limit + (k + 1) * freq,
            ) by {
                assert(0 <= k * freq) by (nonlinear_arith)
                    requires
                        0 <= k,
                        0 <= freq,
                ;
                assert(counts_within(here, limit + k * freq));
                assert forall|p: Pair| counts@.contains_key(p) implies -(limit + (k + 1) * freq)
                    <= #[trigger] counts@[p] <= limit + (k + 1) * freq by {
                    if p == change.0 {
                        if here.contains_key(p) {
                            assert(-(limit + k * freq) <= here[p] <= limit + k * freq);
                        } else {
                            assert(counts@[p] == delta);
                        }
                    } else {
                        assert(here.contains_key(p));
                        assert(-(limit + k * freq) <= here[p] <= limit + k * freq);
                    }
                }
            }
        }
        k += 1;
    }
    assert(changes@.take(n as int) =~= changes@);
}

impl Corpus {
    /// Rewrites `(a, b)` to `c` in word `iw` and records the changes.
    pub fn rewrite_word(
        &mut self,
        pending: &mut PairTable,
        iw: usize,
        a: u32,
        b: u32,
        c: u32,
        max_len: usize,
    )
        requires
            old(self)@.ok(),
            old(pending).wf(),
        ensures
            final(self)@.ok(),
            final(pending).wf(),
            (final(self)@, final(pending)@) == rewritten_word(
                old(self)@,
                old(pending)@,
                iw,
                a,
                b,
                c,
                max_len,
            ),
            final(self)@.size() <= old(self)@.size(),
            final(self)@.size() == old(self)@.size() ==> final(self)@ == old(self)@
                && final(pending)@ == old(pending)@,
            forall|bound: int|
                a < bound && b < bound && c < bound && #[trigger] old(self)@.below(bound)
                    && table_below(old(pending)@, bound) ==> final(self)@.below(bound)
                    && table_below(final(pending)@, bound),
    {
        if iw < self.words.len() {
            let ghost before = self@;
            let ghost pending0 = pending@;
            let ghost word = before.words[iw as int];
            let freq = self.freqs[iw];
            let changes = self.words[iw].merge(a, b, c, max_len);
            let ghost m = merged(word, a, b, c, max_len);
            let ghost mid = CorpusView {
                words: before.words.update(iw as int, m.0),
                freqs: before.freqs,
                pair_counts: before.pair_counts,
            };
            let ghost removed = word.len() - m.0.len();
            proof {
                assert(self@.words =~= before.words.update(iw as int, m.0));
                lemma_rewrite_shape(word, 0, None, a, b, c, max_len);
                assert(word.skip(0) =~= word);
                lemma_weight_update(
                    before.words,
                    before.freqs,
                    before.words.len() as int,
                    iw as int,
                    m.0,
                );
                lemma_weight_term(before.words, before.freqs, before.words.len() as int, iw as int);
                lemma_weight_nonneg(mid.words, mid.freqs, mid.words.len() as int);
                assert(freq * m.0.len() - freq * word.len() == -(freq * removed)) by (nonlinear_arith)
                    requires
                        removed == word.len() - m.0.len(),
                ;
                assert(changes@.len() * freq <= 4 * (freq * removed)) by (nonlinear_arith)
                    requires
                        changes@.len() <= 4 * removed,
                        0 <= freq,
                ;
                assert(freq * removed <= freq * word.len()) by (nonlinear_arith)
                    requires
                        removed <= word.len(),
                        0 <= freq,
                ;
                assert(mid.weight() == before.weight() - freq * removed);
            }
            record(&mut self.pair_counts, pending, &changes, iw, freq);
            proof {
                assert(self@.words =~= mid.words);
                assert(counts_within(self@.pair_counts, i64::MAX - 4 * before.weight() + changes@.len()
                    * freq));
                assert(self@.weight() == mid.weight());
                if removed == 0 {
                    assert(m == (word, Seq::<Change>::empty()));
                    assert(before.words.update(iw as int, word) =~= before.words);
                    assert(changes@.len() == 0);
                    assert(self@ =~= before);
                }
                assert forall|bound: int|
                    a < bound && b < bound && c < bound && #[trigger] before.below(bound)
                        && table_below(pending0, bound) implies self@.below(bound) && table_below(
                    pending@,
                    bound,
                ) by {
                    assert(symbols_below(before.words[iw as int], bound));
                    lemma_rewrite_ids(word, 0, None, a, b, c, max_len, bound);
                    lemma_recorded_below(before.pair_counts, pending0, changes@, iw, freq, bound);
                    assert forall|i: int| 0 <= i < self@.words.len() implies symbols_below(
                        #[trigger] self@.words[i],
                        bound,
                    ) by {
                        if i != iw {
                            assert(symbols_below(before.words[i], bound));
                        }
                    }
                }
            }
        } else {
            assert(self@ =~= old(self)@);
        }
    }

    /// Merges `pair` into `new_id` in the words at the positions `pos`, and
    /// returns the candidates that the merge brings.
    pub fn apply(&mut self, pair: Pair, pos: &Vec<usize>, new_id: u32, max_len: usize) -> (fresh:
        Vec<Merge>)
        requires
            old(self)@.ok(),
        ensures
            final(self)@.ok(),
            (final(self)@, merge_views(fresh@)) == applied(
                old(self)@,
                pair,
                pos@,
                new_id,
                max_len,
            ),
            final(self)@.size() <= old(self)@.size(),
            final(self)@.size() == old(self)@.size() ==> final(self)@ == old(self)@ && fresh@.len()
                == 0,
            forall|bound: int|
                pair.0 < bound && pair.1 < bound && new_id < bound && #[trigger] old(self)@.below(
                    bound,
                ) ==> final(self)@.below(bound) && entries_below(merge_views(fresh@), bound),
    {
        let ghost before = self@;
        let mut pending = PairTable::new();
        let mut k: usize = 0;
        assert(pos@.take(0) =~= Seq::<usize>::empty());
        while k < pos.len()
            invariant
                k <= pos.len(),
                self@.ok(),
                pending.wf(),
                (self@, pending@) == rewritten(
                    before,
                    Seq::empty(),
                    pos@.take(k as int),
                    pair.0,
                    pair.1,
                    new_id,
                    max_len,
                ),
                self@.size() <= before.size(),
                self@.size() == before.size() ==> self@ == before && pending@.len() == 0,
                forall|bound: int|
                    pair.0 < bound && pair.1 < bound && new_id < bound && #[trigger] before.below(
                        bound,
                    ) ==> self@.below(bound) && table_below(pending@, bound),
            decreases pos.len() - k,
        {
            proof {
                assert(pos@.take(k + 1).drop_last() =~= pos@.take(k as int));
                assert(pos@.take(k + 1).last() == pos@[k as int]);
            }
            self.rewrite_word(&mut pending, pos[k], pair.0, pair.1, new_id, max_len);
            k += 1;
        }
        assert(pos@.take(pos.len() as int) =~= pos@);
        let ghost table = pending@;
        let fresh = pending.into_priced(&self.pair_counts);
        proof {
            assert forall|bound: int|
                pair.0 < bound && pair.1 < bound && new_id < bound && #[trigger] before.below(
                    bound,
                ) implies self@.below(bound) && entries_below(merge_views(fresh@), bound) by {
                lemma_priced_below(table, self@.pair_counts, bound);
            }
            if self@.size() == before.size() {
                lemma_priced_below(table, self@.pair_counts, 0);
                assert(merge_views(fresh@).len() == fresh@.len());
            }
        }
        fresh
    }
}

} // verus!
