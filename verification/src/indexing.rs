//! The first count of the pairs of a corpus.

use crate::corpus::{
    lemma_recorded_below, lemma_weight_mono, record, recorded, table_below, weight_upto,
    words_below,
};
use crate::coverage::lemma_counted_positions;
use crate::pairs::{count_of, counts_within, PairCounts};
use crate::replaying::has_pair;
use crate::table::{MergeView, PairTable};
use crate::trainer::BpeTrainer;
use crate::word::{symbols_below, unit_changes, Change, Pair, Symbol, Word};
use vstd::prelude::*;

verus! {

/// The symbols of the words in `words`.
pub open spec fn word_views(words: Seq<Word>) -> Seq<Seq<Symbol>> {
    words.map_values(|w: Word| w@)
}

/// One gained occurrence for each two symbols of `word` that stand side by
/// side, from left to right.
pub open spec fn adjacent(word: Seq<Symbol>) -> Seq<Change> {
    Seq::new(
        if word.len() > 0 {
            (word.len() - 1) as nat
        } else {
            0
        },
        |j: int| ((word[j].c, word[j + 1].c), 1i32),
    )
}

/// The counts of the pairs of the first `n` words, and for each pair the
/// words in which it occurs: every adjacency adds the frequency of its
/// word to the count of its pair and notes the word as a position.
pub open spec fn counted_upto(words: Seq<Seq<Symbol>>, freqs: Seq<u64>, n: int) -> (
    Map<Pair, int>,
    Seq<Option<MergeView>>,
)
    decreases n,
{
    if n <= 0 {
        (Map::empty(), Seq::empty())
    } else {
        let before = counted_upto(words, freqs, n - 1);
        recorded(before.0, before.1, adjacent(words[n - 1]), (n - 1) as usize, freqs[n - 1])
    }
}

/// The counts of the pairs of `words`, and for each pair the words in which
/// it occurs.
pub open spec fn counted(words: Seq<Seq<Symbol>>, freqs: Seq<u64>) -> (
    Map<Pair, int>,
    Seq<Option<MergeView>>,
) {
    counted_upto(words, freqs, words.len() as int)
}

/// The number of times `pair` stands in `word` with its left symbol at one
/// of the first `m` positions.
pub open spec fn stands_upto(word: Seq<Symbol>, pair: Pair, m: int) -> int
    decreases m,
{
    if m <= 0 {
        0
    } else {
        stands_upto(word, pair, m - 1) + if m < word.len() && word[m - 1].c == pair.0 && word[m].c
            == pair.1 {
            1int
        } else {
            0int
        }
    }
}

/// The number of times `pair` stands in `word`.
pub open spec fn occurrences(word: Seq<Symbol>, pair: Pair) -> int {
    stands_upto(word, pair, word.len() - 1)
}

/// The number of times `pair` stands in the first `n` words, each word
/// taken as often as it occurs.
pub open spec fn pair_weight_upto(
    words: Seq<Seq<Symbol>>,
    freqs: Seq<u64>,
    pair: Pair,
    n: int,
) -> int
    decreases n,
{
    if n <= 0 {
        0
    } else {
        pair_weight_upto(words, freqs, pair, n - 1) + freqs[n - 1] * occurrences(words[n - 1], pair)
    }
}

/// The number of times `pair` stands in the words, each word taken as
/// often as it occurs.
pub open spec fn pair_weight(words: Seq<Seq<Symbol>>, freqs: Seq<u64>, pair: Pair) -> int {
    pair_weight_upto(words, freqs, pair, words.len() as int)
}

/// Recording the first `m` adjacencies of a word adds to the count of a
/// pair the frequency of the word for each time that the pair stands
/// among them.
pub proof fn lemma_recorded_weight(
    counts: Map<Pair, int>,
    pending: Seq<Option<MergeView>>,
    word: Seq<Symbol>,
    m: int,
    iw: usize,
    freq: u64,
    pair: Pair,
)
    requires
        0 <= m <= adjacent(word).len(),
    ensures
        count_of(recorded(counts, pending, adjacent(word).take(m), iw, freq).0, pair) == count_of(
            counts,
            pair,
        ) + freq * stands_upto(word, pair, m),
    decreases m,
{
    if m > 0 {
        lemma_recorded_weight(counts, pending, word, m - 1, iw, freq, pair);
        let changes = adjacent(word).take(m);
        assert(changes.drop_last() =~= adjacent(word).take(m - 1));
        assert(changes.last() == ((word[m - 1].c, word[m].c), 1i32));
        let s = stands_upto(word, pair, m - 1);
        assert(freq * (s + 1) == freq * s + freq) by (nonlinear_arith);
    }
}

/// The count of a pair is the number of times that it stands in the words,
/// each word taken as often as it occurs.
pub proof fn lemma_counted_weight(words: Seq<Seq<Symbol>>, freqs: Seq<u64>, n: int, pair: Pair)
    requires
        0 <= n <= words.len(),
    ensures
        count_of(counted_upto(words, freqs, n).0, pair) == pair_weight_upto(words, freqs, pair, n),
    decreases n,
{
    if n > 0 {
        lemma_counted_weight(words, freqs, n - 1, pair);
        let before = counted_upto(words, freqs, n - 1);
        let word = words[n - 1];
        let all = adjacent(word);
        lemma_recorded_weight(
            before.0,
            before.1,
            word,
            all.len() as int,
            (n - 1) as usize,
            freqs[n - 1],
            pair,
        );
        assert(all.take(all.len() as int) =~= all);
        assert(all.len() == if word.len() > 0 {
            word.len() - 1
        } else {
            0
        });
        assert(stands_upto(word, pair, -1) == 0);
    }
}

/// The pairs counted in words below `bound` are below `bound`.
pub proof fn lemma_counted_below(words: Seq<Seq<Symbol>>, freqs: Seq<u64>, n: int, bound: int)
    requires
        0 <= n <= words.len(),
        words_below(words, bound),
    ensures
        table_below(counted_upto(words, freqs, n).1, bound),
    decreases n,
{
    if n > 0 {
        lemma_counted_below(words, freqs, n - 1, bound);
        let before = counted_upto(words, freqs, n - 1);
        assert(symbols_below(words[n - 1], bound));
        lemma_recorded_below(
            before.0,
            before.1,
            adjacent(words[n - 1]),
            (n - 1) as usize,
            freqs[n - 1],
            bound,
        );
    }
}

impl BpeTrainer {
    /// Counts the pairs of `words`, each word taken `counts` times, and
    /// notes for each pair the words in which it occurs.
    pub fn count_pairs(&self, words: &Vec<Word>, counts: &Vec<u64>) -> (index: (
        PairCounts,
        PairTable,
    ))
        requires
            words@.len() == counts@.len(),
            weight_upto(word_views(words@), counts@, words@.len() as int) <= i64::MAX,
        ensures
            index.1.wf(),
            (index.0@, index.1@) == counted(word_views(words@), counts@),
            counts_within(
                index.0@,
                weight_upto(word_views(words@), counts@, words@.len() as int),
            ),
            forall|pair: Pair| #[trigger]
                count_of(index.0@, pair) == pair_weight(word_views(words@), counts@, pair),
            forall|i: int, w: usize|
                0 <= i < index.1@.len() && index.1@[i] is Some ==> (#[trigger] index.1@[i]->0.pos.contains(
                    w,
                ) <==> w < words@.len() && has_pair(
                    word_views(words@)[w as int],
                    index.1@[i]->0.pair.0,
                    index.1@[i]->0.pair.1,
                )),
    {
        let ghost ws = word_views(words@);
        let ghost total = weight_upto(ws, counts@, ws.len() as int);
        let mut pair_counts = PairCounts::new();
        let mut table = PairTable::new();
        let mut i: usize = 0;
        while i < words.len()
            invariant
                i <= words.len(),
                words@.len() == counts@.len(),
                ws == word_views(words@),
                total == weight_upto(ws, counts@, ws.len() as int),
                total <= i64::MAX,
                table.wf(),
                (pair_counts@, table@) == counted_upto(ws, counts@, i as int),
                counts_within(pair_counts@, weight_upto(ws, counts@, i as int)),
            decreases words.len() - i,
        {
            let word = &words[i];
            let n = word.len();
            let mut changes: Vec<Change> = Vec::new();
            let m = if n > 0 {
                n - 1
            } else {
                0
            };
            let mut j: usize = 0;
            while j < m
                invariant
                    n == word@.len(),
                    m == if n > 0 {
                        n - 1
                    } else {
                        0
                    },
                    j <= m,
                    changes@.len() == j,
                    forall|k: int|
                        0 <= k < j ==> #[trigger] changes@[k] == ((word@[k].c, word@[k + 1].c), 1i32),
                decreases n - j,
            {
                changes.push(((word.symbol(j).c, word.symbol(j + 1).c), 1));
                j += 1;
            }
            proof {
                assert(ws[i as int] == word@);
                assert(changes@ =~= adjacent(word@));
                assert(unit_changes(changes@));
                lemma_weight_mono(ws, counts@, i as int, ws.len() as int);
                lemma_weight_mono(ws, counts@, i + 1, ws.len() as int);
                assert(changes@.len() * counts@[i as int] <= counts@[i as int] * word@.len())
                    by (nonlinear_arith)
                    requires
                        changes@.len() <= word@.len(),
                        0 <= counts@[i as int],
                ;
            }
            record(&mut pair_counts, &mut table, &changes, i, counts[i]);
            i += 1;
        }
        proof {
            assert forall|pair: Pair| #[trigger]
                count_of(pair_counts@, pair) == pair_weight(ws, counts@, pair) by {
                lemma_counted_weight(ws, counts@, ws.len() as int, pair);
            }
            assert forall|i: int, w: usize|
                0 <= i < table@.len() && table@[i] is Some implies (#[trigger] table@[i]->0.pos.contains(
                w,
            ) <==> w < words@.len() && has_pair(
                ws[w as int],
                table@[i]->0.pair.0,
                table@[i]->0.pair.1,
            )) by {
                lemma_counted_positions(ws, counts@, i, w);
            }
        }
        (pair_counts, table)
    }
}

} // verus!
