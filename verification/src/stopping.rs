//! Why discovery stops.
//!
//! Every step that does not stop takes a symbol out of the words, or else
//! a candidate out of the queue, or else prices a stale candidate; and
//! none of these can go on for ever.

use crate::corpus::{
    applied, lemma_priced_below, lemma_weight_nonneg, lemma_weight_update, rewritten,
    rewritten_word, CorpusView,
};
use crate::discovery::{
    advanced, finished, lemma_finished, lemma_stale_nonneg, lemma_stale_repriced, run_for, stale,
    step, top_of, TrainingView,
};
use crate::laws::{lemma_run_continues, lemma_top_of};
use crate::pairs::count_of;
use crate::rules::RulesView;
use crate::table::MergeView;
use crate::word::{lemma_rewrite_shape, merged, Change};
use vstd::prelude::*;

verus! {

/// Rewriting never adds a symbol to the words; and where it takes none
/// away, it changes nothing.
pub proof fn lemma_rewritten_size(
    corpus: CorpusView,
    pending: Seq<Option<MergeView>>,
    pos: Seq<usize>,
    a: u32,
    b: u32,
    c: u32,
    max_len: usize,
)
    ensures
        rewritten(corpus, pending, pos, a, b, c, max_len).0.size() <= corpus.size(),
        rewritten(corpus, pending, pos, a, b, c, max_len).0.words.len() == corpus.words.len(),
        rewritten(corpus, pending, pos, a, b, c, max_len).0.size() == corpus.size() ==> rewritten(
            corpus,
            pending,
            pos,
            a,
            b,
            c,
            max_len,
        ) == (corpus, pending),
    decreases pos.len(),
{
    if pos.len() > 0 {
        lemma_rewritten_size(corpus, pending, pos.drop_last(), a, b, c, max_len);
        let before = rewritten(corpus, pending, pos.drop_last(), a, b, c, max_len);
        let after = rewritten_word(before.0, before.1, pos.last(), a, b, c, max_len);
        let iw = pos.last();
        if iw < before.0.words.len() && iw < before.0.freqs.len() {
            let word = before.0.words[iw as int];
            let m = merged(word, a, b, c, max_len);
            lemma_rewrite_shape(word, 0, None, a, b, c, max_len);
            assert(word.skip(0) =~= word);
            lemma_weight_update(
                before.0.words,
                before.0.freqs,
                before.0.words.len() as int,
                iw as int,
                m.0,
            );
            if m.0.len() == word.len() {
                assert(m == (word, Seq::<Change>::empty()));
                assert(before.0.words.update(iw as int, word) =~= before.0.words);
                assert(after.0 =~= before.0);
            }
        }
    }
}

/// A step of discovery that does not stop brings the run closer to its end.
pub proof fn lemma_step_advances(s: TrainingView, r: RulesView)
    requires
        step(s, r) is Some,
    ensures
        advanced(s, step(s, r)->0),
{
    let next = step(s, r)->0;
    lemma_top_of(s.queue);
    let t = top_of(s.queue);
    let top = s.queue[t];
    let now = count_of(s.corpus.pair_counts, top.pair);
    if top.count != now {
        lemma_stale_repriced(s.queue, s.corpus.pair_counts, s.queue.len() as int, t);
    } else if next.merges.len() > s.merges.len() {
        let id = next.merges.last().1;
        lemma_rewritten_size(
            s.corpus,
            Seq::empty(),
            top.pos,
            top.pair.0,
            top.pair.1,
            id,
            r.max_token_length,
        );
        let rw = rewritten(
            s.corpus,
            Seq::empty(),
            top.pos,
            top.pair.0,
            top.pair.1,
            id,
            r.max_token_length,
        );
        assert(next.merges == s.merges.push((top.pair, id)));
        assert(next.corpus == applied(s.corpus, top.pair, top.pos, id, r.max_token_length).0);
        if rw.0.size() == s.corpus.size() {
            lemma_priced_below(rw.1, rw.0.pair_counts, 0);
        }
    }
}

/// Discovery stops: from every run there is a number of steps after which
/// no further step is taken.
pub proof fn lemma_discovery_stops(s: TrainingView, r: RulesView) -> (n: nat)
    ensures
        step(run_for(s, r, n), r) is None,
        step(finished(s, r), r) is None,
    decreases s.corpus.size(), s.queue.len(), stale(s.queue, s.corpus.pair_counts),
{
    if step(s, r) is None {
        assert(run_for(s, r, 0) == s);
        lemma_finished(s, r, 0);
        0
    } else {
        let next = step(s, r)->0;
        lemma_step_advances(s, r);
        lemma_weight_nonneg(s.corpus.words, s.corpus.freqs, s.corpus.words.len() as int);
        lemma_weight_nonneg(next.corpus.words, next.corpus.freqs, next.corpus.words.len() as int);
        lemma_stale_nonneg(s.queue, s.corpus.pair_counts, s.queue.len() as int);
        lemma_stale_nonneg(next.queue, next.corpus.pair_counts, next.queue.len() as int);
        let m = lemma_discovery_stops(next, r);
        assert(run_for(s, r, 0) == s);
        assert(run_for(s, r, 1) == next);
        lemma_run_continues(s, r, 1, m);
        lemma_finished(s, r, (1 + m) as nat);
        (1 + m) as nat
    }
}

} // verus!
