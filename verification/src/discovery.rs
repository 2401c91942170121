//! The discovery of merges: the candidate with the highest count is merged,
//! again and again, until the vocabulary is full or no candidate is left.

use crate::corpus::{applied, entries_below, lemma_weight_nonneg, Corpus, CorpusView};
use crate::pairs::count_of;
use crate::rules::{join, marker_len_of, rejected, rejects, stripped, Rules, RulesView};
use crate::queue::MergeQueue;
use crate::table::{merge_views, outranks, MergeView};
use crate::vocab::{interned, is_vocabulary, lemma_interned, Vocab, MAX_TOKENS};
use crate::word::{symbols_below, Pair};
use vstd::prelude::*;

verus! {

/// A training run at one moment: the vocabulary, the corpus, the candidates
/// that wait, and the merges made so far, first to last.
#[verifier::ext_equal]
pub struct TrainingView {
    pub vocab: Seq<Seq<char>>,
    pub corpus: CorpusView,
    pub queue: Seq<MergeView>,
    pub merges: Seq<(Pair, u32)>,
}

impl TrainingView {
    /// The vocabulary is one, the corpus is sound, and every token id in
    /// the words and the candidates has a symbol.
    pub open spec fn ok(self) -> bool {
        &&& is_vocabulary(self.vocab)
        &&& self.corpus.ok()
        &&& self.corpus.below(self.vocab.len() as int)
        &&& entries_below(self.queue, self.vocab.len() as int)
    }
}

/// Candidate `t` is the one to take from `q`: no candidate is taken before
/// it, and of those that rank with it, it waits first.
pub open spec fn is_top(q: Seq<MergeView>, t: int) -> bool {
    &&& 0 <= t < q.len()
    &&& forall|j: int| 0 <= j < t ==> outranks(q[t], #[trigger] q[j])
    &&& forall|j: int| t < j < q.len() ==> !outranks(#[trigger] q[j], q[t])
}

/// The position of the candidate to take from `q`.
pub open spec fn top_of(q: Seq<MergeView>) -> int {
    choose|t: int| is_top(q, t)
}

/// There is one candidate to take, and no other.
pub proof fn lemma_top_unique(q: Seq<MergeView>, t: int)
    requires
        is_top(q, t),
    ensures
        top_of(q) == t,
{
    let u = top_of(q);
    assert(is_top(q, u));
    if u < t {
        assert(outranks(q[t], q[u]));
        assert(!outranks(q[t], q[u]));
    } else if t < u {
        assert(outranks(q[u], q[t]));
        assert(!outranks(q[u], q[t]));
    }
}

/// The number of candidates among the first `n` of `q` whose count is not
/// the count that their pair has now.
pub open spec fn stale_upto(q: Seq<MergeView>, counts: Map<Pair, int>, n: int) -> int
    decreases n,
{
    if n <= 0 {
        0
    } else {
        stale_upto(q, counts, n - 1) + if q[n - 1].count != count_of(counts, q[n - 1].pair) {
            1int
        } else {
            0int
        }
    }
}

/// The number of candidates in `q` whose count is not the count that their
/// pair has now.
pub open spec fn stale(q: Seq<MergeView>, counts: Map<Pair, int>) -> int {
    stale_upto(q, counts, q.len() as int)
}

/// The number of stale candidates is not negative.
pub proof fn lemma_stale_nonneg(q: Seq<MergeView>, counts: Map<Pair, int>, n: int)
    ensures
        0 <= stale_upto(q, counts, n),
    decreases n,
{
    if n > 0 {
        lemma_stale_nonneg(q, counts, n - 1);
    }
}

/// Pricing one stale candidate anew leaves one stale candidate less.
pub proof fn lemma_stale_repriced(q: Seq<MergeView>, counts: Map<Pair, int>, n: int, t: int)
    requires
        0 <= t < q.len(),
        0 <= n <= q.len(),
        q[t].count != count_of(counts, q[t].pair),
    ensures
        0 <= stale_upto(q, counts, n),
        stale_upto(
            q.update(t, MergeView { count: count_of(counts, q[t].pair), ..q[t] }),
            counts,
            n,
        ) == stale_upto(q, counts, n) - if t < n {
            1int
        } else {
            0int
        },
    decreases n,
{
    if n > 0 {
        lemma_stale_repriced(q, counts, n - 1, t);
    }
}

/// One step of discovery, or `None` where discovery stops.
///
/// Discovery stops when the vocabulary has reached its size or no token id
/// is left, when no candidate waits, or when the candidate to take, priced
/// as its pair counts now, has no occurrence left or fewer than the rules
/// ask for.
/// A candidate whose price is not the count of its pair is priced anew and
/// waits on. A candidate that the filters reject is dropped. Any other is
/// merged: its symbol gets an id, the merge is appended to the list of
/// merges, the words at its positions are rewritten, and the candidates
/// that this brings wait behind the others.
pub open spec fn step(s: TrainingView, r: RulesView) -> Option<TrainingView> {
    if s.vocab.len() >= r.vocab_size || s.vocab.len() >= MAX_TOKENS || s.queue.len() == 0 {
        None
    } else {
        let t = top_of(s.queue);
        let top = s.queue[t];
        let now = count_of(s.corpus.pair_counts, top.pair);
        if top.count != now {
            Some(TrainingView { queue: s.queue.update(t, MergeView { count: now, ..top }), ..s })
        } else if top.count < 1 || r.min_frequency > top.count {
            None
        } else {
            let left = s.vocab[top.pair.0 as int];
            let right = stripped(s.vocab[top.pair.1 as int], r.prefix);
            if rejected(r.filters, left, right) {
                Some(TrainingView { queue: s.queue.remove(t), ..s })
            } else {
                let v = interned(s.vocab, left + right);
                let a = applied(s.corpus, top.pair, top.pos, v.1, r.max_token_length);
                Some(
                    TrainingView {
                        vocab: v.0,
                        corpus: a.0,
                        queue: s.queue.remove(t) + a.1,
                        merges: s.merges.push((top.pair, v.1)),
                    },
                )
            }
        }
    }
}

/// The run after `n` steps from `s`, or after as many as it takes.
pub open spec fn run_for(s: TrainingView, r: RulesView, n: nat) -> TrainingView
    decreases n,
{
    if n == 0 {
        s
    } else {
        let before = run_for(s, r, (n - 1) as nat);
        match step(before, r) {
            Some(next) => next,
            None => before,
        }
    }
}

/// The run from `s` at the moment at which discovery stops, as it always
/// does.
pub open spec fn finished(s: TrainingView, r: RulesView) -> TrainingView {
    run_for(s, r, choose|n: nat| step(run_for(s, r, n), r) is None)
}

/// Once discovery has stopped, further steps change nothing.
pub proof fn lemma_run_stays(s: TrainingView, r: RulesView, n: nat, m: nat)
    requires
        step(run_for(s, r, n), r) is None,
        n <= m,
    ensures
        run_for(s, r, m) == run_for(s, r, n),
    decreases m,
{
    if m > n {
        lemma_run_stays(s, r, n, (m - 1) as nat);
    }
}

/// Wherever discovery is seen to stop, the run is the finished one.
pub proof fn lemma_finished(s: TrainingView, r: RulesView, n: nat)
    requires
        step(run_for(s, r, n), r) is None,
    ensures
        finished(s, r) == run_for(s, r, n),
        step(finished(s, r), r) is None,
{
    let m = choose|m: nat| step(run_for(s, r, m), r) is None;
    if m <= n {
        lemma_run_stays(s, r, m, n);
    } else {
        lemma_run_stays(s, r, n, m);
    }
}

/// The run has come closer to its end: a symbol has left the words, or else
/// a candidate has left the queue, or else a stale candidate was priced.
pub open spec fn advanced(before: TrainingView, after: TrainingView) -> bool {
    ||| after.corpus.size() < before.corpus.size()
    ||| (after.corpus.size() == before.corpus.size() && after.queue.len() < before.queue.len())
    ||| (after.corpus.size() == before.corpus.size() && after.queue.len() == before.queue.len()
        && stale(after.queue, after.corpus.pair_counts) < stale(
        before.queue,
        before.corpus.pair_counts,
    ))
}

/// A training run.
pub struct Training {
    pub vocab: Vocab,
    pub corpus: Corpus,
    pub queue: MergeQueue,
    pub merges: Vec<(Pair, u32)>,
}

impl View for Training {
    type V = TrainingView;

    /// The parts of the run as mathematical values.
    open spec fn view(&self) -> TrainingView {
        TrainingView {
            vocab: self.vocab@,
            corpus: self.corpus@,
            queue: self.queue@,
            merges: self.merges@,
        }
    }
}

impl Training {
    /// The parts are sound, each in itself and with the others.
    pub open spec fn wf(&self) -> bool {
        self.vocab.wf() && self.queue.wf() && self@.ok()
    }

    /// Takes one step of discovery. Returns whether discovery goes on.
    pub fn step(&mut self, rules: &Rules) -> (more: bool)
        requires
            old(self).wf(),
        ensures
            final(self).wf(),
            match step(old(self)@, rules@) {
                Some(next) => more && final(self)@ == next,
                None => !more && final(self)@ == old(self)@,
            },
            more ==> advanced(old(self)@, final(self)@),
    {
        let ghost before = self@;
        let n = self.vocab.len();
        if n >= rules.vocab_size || n as u64 >= MAX_TOKENS || self.queue.len() == 0 {
            return false;
        }
        let slot = self.queue.top().unwrap();
        let ghost t = self.queue.position(slot);
        let now = self.corpus.pair_counts.get(self.queue.entry(slot).pair);
        if self.queue.entry(slot).count != now {
            self.queue.reprice(slot, now);
            proof {
                lemma_stale_repriced(
                    before.queue,
                    before.corpus.pair_counts,
                    before.queue.len() as int,
                    t,
                );
                assert(entries_below(self@.queue, self@.vocab.len() as int)) by {
                    assert forall|i: int| 0 <= i < self@.queue.len() implies (
                    #[trigger] self@.queue[i]).pair.0 < self@.vocab.len() && self@.queue[i].pair.1
                        < self@.vocab.len() by {
                        assert(before.queue[i].pair == self@.queue[i].pair);
                    }
                }
            }
            return true;
        }
        if now < 1 || rules.min_frequency > now as u64 {
            return false;
        }
        let top = self.queue.take(slot);
        assert(top@ == before.queue[t]);
        let left = self.vocab.word(top.pair.0);
        let right = self.vocab.word(top.pair.1);
        let start = marker_len_of(right, &rules.prefix);
        let token = join(left, right, &rules.prefix);
        if rejects(rules.filters, left, right, start, &token) {
            proof {
                assert(entries_below(self@.queue, self@.vocab.len() as int)) by {
                    assert forall|i: int| 0 <= i < self@.queue.len() implies (
                    #[trigger] self@.queue[i]).pair.0 < self@.vocab.len() && self@.queue[i].pair.1
                        < self@.vocab.len() by {
                        if i < t {
                            assert(self@.queue[i] == before.queue[i]);
                        } else {
                            assert(self@.queue[i] == before.queue[i + 1]);
                        }
                    }
                }
                lemma_weight_nonneg(
                    before.corpus.words,
                    before.corpus.freqs,
                    before.corpus.words.len() as int,
                );
            }
            return true;
        }
        proof {
            self.vocab.lemma_sizes_agree();
            lemma_interned(before.vocab, token@);
        }
        let id = self.vocab.intern(token).unwrap();
        self.merges.push((top.pair, id));
        let ghost grown = self.vocab@;
        proof {
            assert(before.corpus.below(grown.len() as int)) by {
                assert forall|i: int| 0 <= i < before.corpus.words.len() implies symbols_below(
                    #[trigger] before.corpus.words[i],
                    grown.len() as int,
                ) by {
                    assert(symbols_below(before.corpus.words[i], before.vocab.len() as int));
                }
            }
        }
        let fresh = self.corpus.apply(top.pair, &top.pos, id, rules.max_token_length);
        let ghost brought = merge_views(fresh@);
        let ghost rest = self.queue@;
        self.queue.extend(fresh);
        proof {
            assert(entries_below(self@.queue, grown.len() as int)) by {
                assert forall|i: int| 0 <= i < self@.queue.len() implies (#[trigger] self@.queue[i]).pair.0
                    < grown.len() && self@.queue[i].pair.1 < grown.len() by {
                    if i < t {
                        assert(self@.queue[i] == before.queue[i]);
                    } else if i < rest.len() {
                        assert(self@.queue[i] == before.queue[i + 1]);
                    } else {
                        assert(self@.queue[i] == brought[i - rest.len()]);
                    }
                }
            }
            lemma_weight_nonneg(
                before.corpus.words,
                before.corpus.freqs,
                before.corpus.words.len() as int,
            );
        }
        true
    }

    /// Discovers merges until discovery stops.
    pub fn run(&mut self, rules: &Rules)
        requires
            old(self).wf(),
        ensures
            final(self).wf(),
            final(self)@ == finished(old(self)@, rules@),
            step(final(self)@, rules@) is None,
    {
        let ghost start = self@;
        let ghost mut n: nat = 0;
        loop
            invariant
                self.wf(),
                self@ == run_for(start, rules@, n),
            ensures
                self.wf(),
                self@ == run_for(start, rules@, n),
                step(self@, rules@) is None,
            decreases
                    self@.corpus.size(),
                    self@.queue.len(),
                    stale(self@.queue, self@.corpus.pair_counts),
        {
            proof {
                lemma_weight_nonneg(
                    self@.corpus.words,
                    self@.corpus.freqs,
                    self@.corpus.words.len() as int,
                );
            }
            let ghost before = self@;
            proof {
                lemma_stale_nonneg(
                    before.queue,
                    before.corpus.pair_counts,
                    before.queue.len() as int,
                );
            }
            let more = self.step(rules);
            if !more {
                break ;
            }
            proof {
                n = n + 1;
                lemma_weight_nonneg(
                    self@.corpus.words,
                    self@.corpus.freqs,
                    self@.corpus.words.len() as int,
                );
                lemma_stale_nonneg(self@.queue, self@.corpus.pair_counts, self@.queue.len() as int);
                assert(advanced(before, self@));
            }
        }
        proof {
            lemma_finished(start, rules@, n);
        }
    }
}

} // verus!
