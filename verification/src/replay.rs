//! The replay of listed merges on a new corpus.

use crate::corpus::{
    applied, entries_below, lemma_below_grows, lemma_stored_below, table_below, Corpus, CorpusView,
};
use crate::rules::{join, joined, Rules, RulesView};
use crate::table::{merge_views, slot_of, stored, without, Merge, MergeView, PairTable};
use crate::trainer::TrainError;
use crate::vocab::{interned, is_vocabulary, lemma_interned, token_id, Vocab, MAX_TOKENS};
use crate::word::Pair;
use vstd::prelude::*;

verus! {

/// A replay at one moment: the vocabulary, the corpus, for each pair the
/// candidate that it has, and the merges made so far, first to last.
#[verifier::ext_equal]
pub struct ExtensionView {
    pub vocab: Seq<Seq<char>>,
    pub corpus: CorpusView,
    pub table: Seq<Option<MergeView>>,
    pub merges: Seq<(Pair, u32)>,
}

impl ExtensionView {
    /// The vocabulary is one, the corpus is sound, and every token id in
    /// the words and the candidates has a symbol.
    pub open spec fn ok(self) -> bool {
        &&& is_vocabulary(self.vocab)
        &&& self.corpus.ok()
        &&& self.corpus.below(self.vocab.len() as int)
        &&& table_below(self.table, self.vocab.len() as int)
    }
}

/// `t` after the first `n` candidates of `entries` were stored, in order.
pub open spec fn stored_upto(t: Seq<Option<MergeView>>, entries: Seq<MergeView>, n: int) -> Seq<
    Option<MergeView>,
>
    decreases n,
{
    if n <= 0 {
        t
    } else {
        stored(stored_upto(t, entries, n - 1), entries[n - 1])
    }
}

/// `t` after the candidates `entries` were stored, in order.
pub open spec fn stored_all(t: Seq<Option<MergeView>>, entries: Seq<MergeView>) -> Seq<
    Option<MergeView>,
> {
    stored_upto(t, entries, entries.len() as int)
}

/// The replay after the merge of `left` and `right`, listed at `rank`, or
/// the fault that keeps it from being made.
///
/// Both symbols must be in the vocabulary. Their merged symbol gets an id
/// and the merge is appended to the list of merges. If the pair has a
/// candidate, the words at its positions are rewritten and the candidates
/// that this brings take the place of those that their pairs had.
pub open spec fn replayed_one(
    s: ExtensionView,
    left: Seq<char>,
    right: Seq<char>,
    rank: usize,
    r: RulesView,
) -> Result<ExtensionView, TrainError> {
    match token_id(s.vocab, left) {
        None => Err(TrainError::MissingLeft { rank }),
        Some(a) => match token_id(s.vocab, right) {
            None => Err(TrainError::MissingRight { rank }),
            Some(b) => {
                let token = joined(left, right, r.prefix);
                if !s.vocab.contains(token) && s.vocab.len() >= MAX_TOKENS {
                    Err(TrainError::VocabularyFull)
                } else {
                    let v = interned(s.vocab, token);
                    let merges = s.merges.push(((a, b), v.1));
                    match slot_of(s.table, (a, b)) {
                        None => Ok(ExtensionView { vocab: v.0, merges, ..s }),
                        Some(i) => {
                            let ap = applied(
                                s.corpus,
                                (a, b),
                                s.table[i]->0.pos,
                                v.1,
                                r.max_token_length,
                            );
                            Ok(
                                ExtensionView {
                                    vocab: v.0,
                                    corpus: ap.0,
                                    table: stored_all(without(s.table, (a, b)), ap.1),
                                    merges,
                                },
                            )
                        },
                    }
                }
            },
        },
    }
}

/// The replay after the first `n` listed merges, or the first fault.
pub open spec fn replayed_upto(
    s: ExtensionView,
    list: Seq<(Seq<char>, Seq<char>)>,
    n: int,
    r: RulesView,
) -> Result<ExtensionView, TrainError>
    decreases n,
{
    if n <= 0 {
        Ok(s)
    } else {
        match replayed_upto(s, list, n - 1, r) {
            Err(e) => Err(e),
            Ok(before) => replayed_one(before, list[n - 1].0, list[n - 1].1, (n - 1) as usize, r),
        }
    }
}

/// The replay after all listed merges, or the first fault.
pub open spec fn replayed(s: ExtensionView, list: Seq<(Seq<char>, Seq<char>)>, r: RulesView) -> Result<
    ExtensionView,
    TrainError,
> {
    replayed_upto(s, list, list.len() as int, r)
}

/// The first fault of a replay is the fault of the whole replay.
pub proof fn lemma_replay_stays_err(
    s: ExtensionView,
    list: Seq<(Seq<char>, Seq<char>)>,
    i: int,
    n: int,
    r: RulesView,
)
    requires
        replayed_upto(s, list, i, r) is Err,
        i <= n,
    ensures
        replayed_upto(s, list, n, r) == replayed_upto(s, list, i, r),
    decreases n,
{
    if i < n {
        lemma_replay_stays_err(s, list, i, n - 1, r);
    }
}

/// Storing candidates below `bound` keeps a table below `bound`.
pub proof fn lemma_stored_upto_below(
    t: Seq<Option<MergeView>>,
    entries: Seq<MergeView>,
    n: int,
    bound: int,
)
    requires
        0 <= n <= entries.len(),
        table_below(t, bound),
        entries_below(entries, bound),
    ensures
        table_below(stored_upto(t, entries, n), bound),
    decreases n,
{
    if n > 0 {
        lemma_stored_upto_below(t, entries, n - 1, bound);
        lemma_stored_below(stored_upto(t, entries, n - 1), entries[n - 1], bound);
    }
}

/// A replay.
pub struct Extension {
    pub vocab: Vocab,
    pub corpus: Corpus,
    pub table: PairTable,
    pub merges: Vec<(Pair, u32)>,
}

impl View for Extension {
    type V = ExtensionView;

    /// The parts of the replay as mathematical values.
    open spec fn view(&self) -> ExtensionView {
        ExtensionView {
            vocab: self.vocab@,
            corpus: self.corpus@,
            table: self.table@,
            merges: self.merges@,
        }
    }
}

/// Stores the candidates `entries` in `table`, in order.
pub fn store_all(table: &mut PairTable, entries: Vec<Merge>)
    requires
        old(table).wf(),
    ensures
        final(table).wf(),
        final(table)@ == stored_all(old(table)@, merge_views(entries@)),
{
    let ghost t0 = table@;
    let ghost all = merge_views(entries@);
    let mut entries = entries;
    let n = entries.len();
    let mut rest: Vec<Merge> = Vec::new();
    // The candidates are taken from the end, so they are turned round first.
    let mut k: usize = 0;
    while entries.len() > 0
        invariant
            entries@.len() + rest@.len() == n,
            n == all.len(),
            forall|j: int| 0 <= j < entries@.len() ==> (#[trigger] entries@[j])@ == all[j],
            forall|j: int| 0 <= j < rest@.len() ==> (#[trigger] rest@[j])@ == all[n - 1 - j],
        decreases entries.len(),
    {
        let m = entries.pop().unwrap();
        rest.push(m);
    }
    while rest.len() > 0
        invariant
            k + rest@.len() == n,
            n == all.len(),
            forall|j: int| 0 <= j < rest@.len() ==> (#[trigger] rest@[j])@ == all[n - 1 - j],
            table.wf(),
            table@ == stored_upto(t0, all, k as int),
        decreases rest.len(),
    {
        let m = rest.pop().unwrap();
        assert(m@ == all[k as int]);
        table.store(m);
        k += 1;
    }
}

impl Extension {
    /// The parts are sound, each in itself and with the others.
    pub open spec fn wf(&self) -> bool {
        self.vocab.wf() && self.table.wf() && self@.ok()
    }

    /// Replays the merge of `left` and `right`, listed at `rank`. On a fault
    /// nothing is changed.
    pub fn replay_one(&mut self, left: &Vec<char>, right: &Vec<char>, rank: usize, rules: &Rules) -> (r:
        Result<(), TrainError>)
        requires
            old(self).wf(),
        ensures
            final(self).wf(),
            match replayed_one(old(self)@, left@, right@, rank, rules@) {
                Ok(next) => r is Ok && final(self)@ == next,
                Err(e) => r == Err::<(), TrainError>(e) && final(self)@ == old(self)@,
            },
            r is Ok ==> joined(left@, right@, rules@.prefix).len() <= usize::MAX,
    {
        let ghost before = self@;
        proof {
            self.vocab.lemma_sizes_agree();
        }
        let a = match self.vocab.get(left) {
            Some(a) => a,
            None => {
                return Err(TrainError::MissingLeft { rank });
            },
        };
        let b = match self.vocab.get(right) {
            Some(b) => b,
            None => {
                return Err(TrainError::MissingRight { rank });
            },
        };
        let token = join(left, right, &rules.prefix);
        let ghost tv = token@;
        proof {
            if before.vocab.contains(tv) || before.vocab.len() < MAX_TOKENS {
                lemma_interned(before.vocab, tv);
            }
        }
        let id = match self.vocab.intern(token) {
            Some(id) => id,
            None => {
                return Err(TrainError::VocabularyFull);
            },
        };
        self.merges.push(((a, b), id));
        let ghost grown = self.vocab@;
        proof {
            lemma_below_grows(
                before.corpus.words,
                before.table,
                Seq::empty(),
                before.vocab.len() as int,
                grown.len() as int,
            );
            assert(before.corpus.below(grown.len() as int));
            assert(table_below(before.table, grown.len() as int));
        }
        match self.table.remove((a, b)) {
            None => {},
            Some(top) => {
                let ghost cleared = self.table@;
                proof {
                    lemma_stored_below(before.table, top@, grown.len() as int);
                }
                let fresh = self.corpus.apply((a, b), &top.pos, id, rules.max_token_length);
                proof {
                    lemma_stored_upto_below(
                        cleared,
                        merge_views(fresh@),
                        fresh@.len() as int,
                        grown.len() as int,
                    );
                }
                store_all(&mut self.table, fresh);
            },
        }
        Ok(())
    }

    /// Replays the listed merges in order, up to the first fault.
    pub fn replay(&mut self, list: &Vec<(Vec<char>, Vec<char>)>, rules: &Rules) -> (r: Result<
        (),
        TrainError,
    >)
        requires
            old(self).wf(),
        ensures
            final(self).wf(),
            match replayed(old(self)@, crate::listing::listed_views(list@), rules@) {
                Ok(done) => r is Ok && final(self)@ == done,
                Err(e) => r == Err::<(), TrainError>(e),
            },
            r is Err ==> exists|k: int|
                0 <= k && #[trigger] replayed_upto(
                    old(self)@,
                    crate::listing::listed_views(list@),
                    k,
                    rules@,
                ) == Ok::<ExtensionView, TrainError>(final(self)@) && replayed_upto(
                    old(self)@,
                    crate::listing::listed_views(list@),
                    k + 1,
                    rules@,
                ) is Err,
            r is Ok ==> forall|k: int|
                0 <= k < list@.len() ==> joined(
                    (#[trigger] list@[k]).0@,
                    list@[k].1@,
                    rules@.prefix,
                ).len() <= usize::MAX,
    {
        let ghost start = self@;
        let ghost lv = crate::listing::listed_views(list@);
        let mut i: usize = 0;
        while i < list.len()
            invariant
                i <= list.len(),
                lv == crate::listing::listed_views(list@),
                start == old(self)@,
                self.wf(),
                replayed_upto(start, lv, i as int, rules@) == Ok::<ExtensionView, TrainError>(self@),
                forall|k: int|
                    0 <= k < i ==> joined((#[trigger] list@[k]).0@, list@[k].1@, rules@.prefix).len()
                        <= usize::MAX,
            decreases list.len() - i,
        {
            assert(lv[i as int] == (list@[i as int].0@, list@[i as int].1@));
            match self.replay_one(&list[i].0, &list[i].1, i, rules) {
                Ok(()) => {},
                Err(e) => {
                    proof {
                        lemma_replay_stays_err(start, lv, i + 1, lv.len() as int, rules@);
                        assert(replayed_upto(start, lv, i + 1, rules@) is Err);
                    }
                    return Err(e);
                },
            }
            i += 1;
        }
        Ok(())
    }
}

} // verus!
