//! What holds of every training run.

use crate::corpus::{
    applied, entries_below, lemma_below_grows, lemma_priced_below, lemma_recorded_below,
    lemma_stored_below, rewritten, rewritten_word, table_below, CorpusView,
};
use crate::discovery::{finished, is_top, run_for, step, top_of, TrainingView};
use crate::pairs::count_of;
use crate::replay::{lemma_stored_upto_below, replayed_one, replayed_upto, ExtensionView};
use crate::rules::{
    digit_boundary, group_count, joined, rejected, stripped, RulesView, MAX_GROUPS,
};
use crate::table::{outranks, slot_of, without, MergeView};

use crate::vocab::{
    grown_from, interned, is_vocabulary, lemma_interned, lemma_token_id_found, token_id,
};
use crate::word::{lemma_rewrite_ids, merged, symbols_below, Pair};
use vstd::prelude::*;

verus! {

/// The vocabulary is one, and every token id in the words and the
/// candidates has a symbol.
pub open spec fn ids_ok(s: TrainingView) -> bool {
    &&& is_vocabulary(s.vocab)
    &&& s.corpus.below(s.vocab.len() as int)
    &&& entries_below(s.queue, s.vocab.len() as int)
}

/// The vocabulary is one, and every token id in the words and the
/// candidates has a symbol.
pub open spec fn extension_ids_ok(s: ExtensionView) -> bool {
    &&& is_vocabulary(s.vocab)
    &&& s.corpus.below(s.vocab.len() as int)
    &&& table_below(s.table, s.vocab.len() as int)
}

/// The merge `m` speaks of symbols that are in `vocab`, and its symbol is
/// the left one followed by the right one without its marker.
pub open spec fn merge_sound(vocab: Seq<Seq<char>>, m: (Pair, u32), prefix: Option<Seq<char>>) -> bool {
    &&& m.0.0 < vocab.len()
    &&& m.0.1 < vocab.len()
    &&& m.1 < vocab.len()
    &&& vocab[m.1 as int] == joined(vocab[m.0.0 as int], vocab[m.0.1 as int], prefix)
}

/// The merge `m` is one that the filters of `r` let pass.
pub open spec fn merge_passes(vocab: Seq<Seq<char>>, m: (Pair, u32), r: RulesView) -> bool {
    &&& r.filters.digit_guard ==> !digit_boundary(
        vocab[m.0.0 as int],
        stripped(vocab[m.0.1 as int], r.prefix),
    )
    &&& r.filters.sentinel_cap ==> group_count(
        joined(vocab[m.0.0 as int], vocab[m.0.1 as int], r.prefix),
    ) <= MAX_GROUPS
}

/// Every merge from rank `from` on is sound.
pub open spec fn merges_sound(
    vocab: Seq<Seq<char>>,
    merges: Seq<(Pair, u32)>,
    from: int,
    prefix: Option<Seq<char>>,
) -> bool {
    forall|k: int| from <= k < merges.len() ==> merge_sound(vocab, #[trigger] merges[k], prefix)
}

/// Every merge from rank `from` on is one that the filters let pass.
pub open spec fn merges_pass(
    vocab: Seq<Seq<char>>,
    merges: Seq<(Pair, u32)>,
    from: int,
    r: RulesView,
) -> bool {
    forall|k: int| from <= k < merges.len() ==> merge_passes(vocab, #[trigger] merges[k], r)
}

/// Among the first `n` candidates of a queue there is one to take.
pub proof fn lemma_top_exists(q: Seq<MergeView>, n: int) -> (t: int)
    requires
        1 <= n <= q.len(),
    ensures
        is_top(q.take(n), t),
    decreases n,
{
    let head = q.take(n);
    if n == 1 {
        assert(is_top(head, 0));
        0
    } else {
        let b = lemma_top_exists(q, n - 1);
        let before = q.take(n - 1);
        assert(forall|j: int| 0 <= j < n - 1 ==> before[j] == head[j]);
        if outranks(head[n - 1], head[b]) {
            assert forall|j: int| 0 <= j < n - 1 implies outranks(head[n - 1], #[trigger] head[j]) by {
                if j < b {
                    assert(outranks(before[b], before[j]));
                } else if j > b {
                    assert(!outranks(before[j], before[b]));
                }
            }
            n - 1
        } else {
            assert forall|j: int| b < j < n implies !outranks(#[trigger] head[j], head[b]) by {
                if j < n - 1 {
                    assert(!outranks(before[j], before[b]));
                }
            }
            assert forall|j: int| 0 <= j < b implies outranks(head[b], #[trigger] head[j]) by {
                assert(outranks(before[b], before[j]));
            }
            b
        }
    }
}

/// A queue that is not empty has a candidate to take: the one that
/// `top_of` names.
pub proof fn lemma_top_of(q: Seq<MergeView>)
    requires
        q.len() > 0,
    ensures
        is_top(q, top_of(q)),
{
    let t = lemma_top_exists(q, q.len() as int);
    assert(q.take(q.len() as int) =~= q);
}

/// Rewriting words below `bound` with ids below `bound` leaves the words
/// and the table below `bound`, and changes neither the number of words
/// nor their frequencies.
pub proof fn lemma_rewritten_below(
    corpus: CorpusView,
    pending: Seq<Option<MergeView>>,
    pos: Seq<usize>,
    a: u32,
    b: u32,
    c: u32,
    max_len: usize,
    bound: int,
)
    requires
        corpus.below(bound),
        table_below(pending, bound),
        a < bound,
        b < bound,
        c < bound,
    ensures
        rewritten(corpus, pending, pos, a, b, c, max_len).0.below(bound),
        table_below(rewritten(corpus, pending, pos, a, b, c, max_len).1, bound),
        rewritten(corpus, pending, pos, a, b, c, max_len).0.freqs == corpus.freqs,
        rewritten(corpus, pending, pos, a, b, c, max_len).0.words.len() == corpus.words.len(),
    decreases pos.len(),
{
    if pos.len() > 0 {
        lemma_rewritten_below(corpus, pending, pos.drop_last(), a, b, c, max_len, bound);
        let before = rewritten(corpus, pending, pos.drop_last(), a, b, c, max_len);
        let iw = pos.last();
        if iw < before.0.words.len() && iw < before.0.freqs.len() {
            let word = before.0.words[iw as int];
            assert(symbols_below(word, bound));
            lemma_rewrite_ids(word, 0, None, a, b, c, max_len, bound);
            let m = merged(word, a, b, c, max_len);
            lemma_recorded_below(
                before.0.pair_counts,
                before.1,
                m.1,
                iw,
                before.0.freqs[iw as int],
                bound,
            );
            let after = rewritten_word(before.0, before.1, iw, a, b, c, max_len);
            assert forall|i: int| 0 <= i < after.0.words.len() implies symbols_below(
                #[trigger] after.0.words[i],
                bound,
            ) by {
                if i != iw {
                    assert(symbols_below(before.0.words[i], bound));
                }
            }
        }
    }
}

/// A merge of ids below `bound` in words below `bound` leaves the words
/// below `bound` and brings candidates below `bound`.
pub proof fn lemma_applied_below(
    corpus: CorpusView,
    pair: Pair,
    pos: Seq<usize>,
    new_id: u32,
    max_len: usize,
    bound: int,
)
    requires
        corpus.below(bound),
        pair.0 < bound,
        pair.1 < bound,
        new_id < bound,
    ensures
        applied(corpus, pair, pos, new_id, max_len).0.below(bound),
        entries_below(applied(corpus, pair, pos, new_id, max_len).1, bound),
{
    lemma_rewritten_below(corpus, Seq::empty(), pos, pair.0, pair.1, new_id, max_len, bound);
    let r = rewritten(corpus, Seq::empty(), pos, pair.0, pair.1, new_id, max_len);
    lemma_priced_below(r.1, r.0.pair_counts, bound);
}

/// What one step of discovery keeps and what it adds: the ids stay
/// sound, the vocabulary and the list of merges only grow, and the list
/// grows by at most one merge, which is sound and which the filters let
/// pass.
pub proof fn lemma_step(s: TrainingView, r: RulesView)
    requires
        ids_ok(s),
        step(s, r) is Some,
    ensures
        ids_ok(step(s, r)->0),
        grown_from(step(s, r)->0.vocab, s.vocab),
        grown_from(step(s, r)->0.merges, s.merges),
        step(s, r)->0.merges.len() <= s.merges.len() + 1,
        merges_sound(step(s, r)->0.vocab, step(s, r)->0.merges, s.merges.len() as int, r.prefix),
        merges_pass(step(s, r)->0.vocab, step(s, r)->0.merges, s.merges.len() as int, r),
{
    let next = step(s, r)->0;
    lemma_top_of(s.queue);
    let t = top_of(s.queue);
    let top = s.queue[t];
    let now = count_of(s.corpus.pair_counts, top.pair);
    let n = s.vocab.len() as int;
    if top.count != now {
        assert forall|i: int| 0 <= i < next.queue.len() implies (#[trigger] next.queue[i]).pair.0 < n
            && next.queue[i].pair.1 < n by {
            assert(s.queue[i].pair == next.queue[i].pair);
        }
    } else {
        let left = s.vocab[top.pair.0 as int];
        let right = stripped(s.vocab[top.pair.1 as int], r.prefix);
        if rejected(r.filters, left, right) {
            assert forall|i: int| 0 <= i < next.queue.len() implies (#[trigger] next.queue[i]).pair.0
                < n && next.queue[i].pair.1 < n by {
                if i < t {
                    assert(next.queue[i] == s.queue[i]);
                } else {
                    assert(next.queue[i] == s.queue[i + 1]);
                }
            }
        } else {
            let token = left + right;
            lemma_interned(s.vocab, token);
            let v = interned(s.vocab, token);
            let m = v.0.len() as int;
            lemma_below_grows(s.corpus.words, Seq::empty(), s.queue, n, m);
            lemma_applied_below(s.corpus, top.pair, top.pos, v.1, r.max_token_length, m);
            let a = applied(s.corpus, top.pair, top.pos, v.1, r.max_token_length);
            let rest = s.queue.remove(t);
            assert forall|i: int| 0 <= i < next.queue.len() implies (#[trigger] next.queue[i]).pair.0 < m
                && next.queue[i].pair.1 < m by {
                if i < t {
                    assert(next.queue[i] == s.queue[i]);
                } else if i < rest.len() {
                    assert(next.queue[i] == s.queue[i + 1]);
                } else {
                    assert(next.queue[i] == a.1[i - rest.len()]);
                }
            }
            assert(v.0[top.pair.0 as int] == s.vocab[top.pair.0 as int]);
            assert(v.0[top.pair.1 as int] == s.vocab[top.pair.1 as int]);
            assert(next.merges[s.merges.len() as int] == (top.pair, v.1));
        }
    }
}

/// Symbols that stay in their places keep merges sound and passing.
pub proof fn lemma_merges_stay(
    earlier: Seq<Seq<char>>,
    later: Seq<Seq<char>>,
    merges: Seq<(Pair, u32)>,
    from: int,
    r: RulesView,
)
    requires
        grown_from(later, earlier),
        merges_sound(earlier, merges, from, r.prefix),
    ensures
        merges_sound(later, merges, from, r.prefix),
        forall|at: int|
            from <= at && #[trigger] merges_pass(earlier, merges, at, r) ==> merges_pass(
                later,
                merges,
                at,
                r,
            ),
{
    assert forall|k: int| from <= k < merges.len() implies merge_sound(
        later,
        #[trigger] merges[k],
        r.prefix,
    ) by {
        assert(merge_sound(earlier, merges[k], r.prefix));
    }
    assert forall|at: int| from <= at && #[trigger] merges_pass(earlier, merges, at, r) implies merges_pass(
        later,
        merges,
        at,
        r,
    ) by {
        assert forall|k: int| at <= k < merges.len() implies merge_passes(
            later,
            #[trigger] merges[k],
            r,
        ) by {
            assert(merge_sound(earlier, merges[k], r.prefix));
            assert(merge_passes(earlier, merges[k], r));
        }
    }
}

/// What a run of discovery keeps and what it adds, after any number of
/// steps: the vocabulary and the list of merges only grow, and every
/// merge that the run adds names symbols of the vocabulary, has as its
/// symbol the left one followed by the right one without its marker, and
/// is one that the filters let pass.
pub proof fn lemma_run(s: TrainingView, r: RulesView, n: nat)
    requires
        ids_ok(s),
    ensures
        ids_ok(run_for(s, r, n)),
        grown_from(run_for(s, r, n).vocab, s.vocab),
        grown_from(run_for(s, r, n).merges, s.merges),
        merges_sound(run_for(s, r, n).vocab, run_for(s, r, n).merges, s.merges.len() as int, r.prefix),
        merges_pass(run_for(s, r, n).vocab, run_for(s, r, n).merges, s.merges.len() as int, r),
    decreases n,
{
    if n > 0 {
        lemma_run(s, r, (n - 1) as nat);
        let before = run_for(s, r, (n - 1) as nat);
        if step(before, r) is Some {
            lemma_step(before, r);
            let after = step(before, r)->0;
            lemma_merges_stay(before.vocab, after.vocab, before.merges, s.merges.len() as int, r);
            assert(merges_pass(after.vocab, before.merges, s.merges.len() as int, r));
            assert forall|k: int| s.merges.len() <= k < after.merges.len() implies merge_sound(
                after.vocab,
                #[trigger] after.merges[k],
                r.prefix,
            ) && merge_passes(after.vocab, after.merges[k], r) by {
                if k < before.merges.len() {
                    assert(after.merges[k] == before.merges[k]);
                    assert(merge_sound(after.vocab, before.merges[k], r.prefix));
                    assert(merge_passes(after.vocab, before.merges[k], r));
                }
            }
        }
    }
}

/// Steps add up: a run of `n + k` steps is a run of `k` steps from where
/// a run of `n` steps ends.
pub proof fn lemma_run_continues(s: TrainingView, r: RulesView, n: nat, k: nat)
    ensures
        run_for(s, r, n + k) == run_for(run_for(s, r, n), r, k),
    decreases k,
{
    if k > 0 {
        lemma_run_continues(s, r, n, (k - 1) as nat);
        assert((n + k - 1) as nat == n + (k - 1) as nat);
    }
}

/// The rank of a merge tells when it was made: the list of merges after
/// fewer steps is the beginning of the list after more steps, so a merge
/// keeps its rank for ever and every merge made later has a higher one.
pub proof fn lemma_ranks_follow_selection(s: TrainingView, r: RulesView, n: nat, m: nat)
    requires
        ids_ok(s),
        n <= m,
    ensures
        grown_from(run_for(s, r, m).merges, run_for(s, r, n).merges),
        grown_from(run_for(s, r, m).vocab, run_for(s, r, n).vocab),
{
    lemma_run(s, r, n);
    lemma_run_continues(s, r, n, (m - n) as nat);
    assert(n + (m - n) as nat == m);
    lemma_run(run_for(s, r, n), r, (m - n) as nat);
}

/// What a finished run of discovery has kept and added (see `lemma_run`).
pub proof fn lemma_finished_run(s: TrainingView, r: RulesView)
    requires
        ids_ok(s),
    ensures
        ids_ok(finished(s, r)),
        grown_from(finished(s, r).vocab, s.vocab),
        grown_from(finished(s, r).merges, s.merges),
        merges_sound(finished(s, r).vocab, finished(s, r).merges, s.merges.len() as int, r.prefix),
        merges_pass(finished(s, r).vocab, finished(s, r).merges, s.merges.len() as int, r),
{
    let n = choose|n: nat| step(run_for(s, r, n), r) is None;
    lemma_run(s, r, n);
}

/// Where the digit guard is on and no marker is configured, no merge that
/// the filters let pass has a left symbol that ends with a digit or a
/// right symbol that begins with one.
pub proof fn lemma_no_digit_boundary(
    vocab: Seq<Seq<char>>,
    merges: Seq<(Pair, u32)>,
    from: int,
    r: RulesView,
)
    requires
        r.prefix is None,
        r.filters.digit_guard,
        merges_pass(vocab, merges, from, r),
    ensures
        forall|k: int|
            from <= k < merges.len() ==> !digit_boundary(
                vocab[(#[trigger] merges[k]).0.0 as int],
                vocab[merges[k].0.1 as int],
            ),
{
    assert forall|k: int| from <= k < merges.len() implies !digit_boundary(
        vocab[(#[trigger] merges[k]).0.0 as int],
        vocab[merges[k].0.1 as int],
    ) by {
        assert(merge_passes(vocab, merges[k], r));
        assert(stripped(vocab[merges[k].0.1 as int], r.prefix) =~= vocab[merges[k].0.1 as int]);
    }
}

/// The list of merges begins with the listed merges, in their order: the
/// merge at each rank below the length of the listing is of the two symbols
/// that the listing names there.
pub open spec fn begins_with_listed(
    vocab: Seq<Seq<char>>,
    merges: Seq<(Pair, u32)>,
    list: Seq<(Seq<char>, Seq<char>)>,
) -> bool {
    &&& list.len() <= merges.len()
    &&& forall|k: int|
        0 <= k < list.len() ==> {
            &&& (#[trigger] merges[k]).0.0 < vocab.len()
            &&& merges[k].0.1 < vocab.len()
            &&& vocab[merges[k].0.0 as int] == list[k].0
            &&& vocab[merges[k].0.1 as int] == list[k].1
        }
}

/// What the replay of one listed merge keeps and what it adds: the ids stay
/// sound, the vocabulary only grows, and the list of merges grows by one
/// sound merge of the two listed symbols.
pub proof fn lemma_replayed_one(
    s: ExtensionView,
    left: Seq<char>,
    right: Seq<char>,
    rank: usize,
    r: RulesView,
)
    requires
        extension_ids_ok(s),
        replayed_one(s, left, right, rank, r) is Ok,
    ensures
        extension_ids_ok(replayed_one(s, left, right, rank, r)->Ok_0),
        grown_from(replayed_one(s, left, right, rank, r)->Ok_0.vocab, s.vocab),
        replayed_one(s, left, right, rank, r)->Ok_0.merges.len() == s.merges.len() + 1,
        grown_from(replayed_one(s, left, right, rank, r)->Ok_0.merges, s.merges),
        merge_sound(
            replayed_one(s, left, right, rank, r)->Ok_0.vocab,
            replayed_one(s, left, right, rank, r)->Ok_0.merges.last(),
            r.prefix,
        ),
        s.vocab[replayed_one(s, left, right, rank, r)->Ok_0.merges.last().0.0 as int] == left,
        s.vocab[replayed_one(s, left, right, rank, r)->Ok_0.merges.last().0.1 as int] == right,
{
    let next = replayed_one(s, left, right, rank, r)->Ok_0;
    let a = token_id(s.vocab, left)->0;
    let b = token_id(s.vocab, right)->0;
    lemma_token_id_found(s.vocab, left);
    lemma_token_id_found(s.vocab, right);
    let token = joined(left, right, r.prefix);
    lemma_interned(s.vocab, token);
    let v = interned(s.vocab, token);
    let n = s.vocab.len() as int;
    let m = v.0.len() as int;
    lemma_below_grows(s.corpus.words, s.table, Seq::empty(), n, m);
    assert(v.0[a as int] == s.vocab[a as int]);
    assert(v.0[b as int] == s.vocab[b as int]);
    match slot_of(s.table, (a, b)) {
        None => {},
        Some(i) => {
            lemma_applied_below(s.corpus, (a, b), s.table[i]->0.pos, v.1, r.max_token_length, m);
            let ap = applied(s.corpus, (a, b), s.table[i]->0.pos, v.1, r.max_token_length);
            lemma_stored_below(s.table, s.table[i]->0, m);
            lemma_stored_upto_below(without(s.table, (a, b)), ap.1, ap.1.len() as int, m);
        },
    }
}

/// What a replay keeps and what it adds: the ids stay sound, the
/// vocabulary only grows, and the list of merges grows by the listed
/// merges, in their order, each of them sound.
pub proof fn lemma_replayed(
    s: ExtensionView,
    list: Seq<(Seq<char>, Seq<char>)>,
    n: int,
    r: RulesView,
)
    requires
        extension_ids_ok(s),
        s.merges.len() == 0,
        0 <= n <= list.len(),
        replayed_upto(s, list, n, r) is Ok,
    ensures
        extension_ids_ok(replayed_upto(s, list, n, r)->Ok_0),
        grown_from(replayed_upto(s, list, n, r)->Ok_0.vocab, s.vocab),
        replayed_upto(s, list, n, r)->Ok_0.merges.len() == n,
        begins_with_listed(
            replayed_upto(s, list, n, r)->Ok_0.vocab,
            replayed_upto(s, list, n, r)->Ok_0.merges,
            list.take(n),
        ),
        merges_sound(
            replayed_upto(s, list, n, r)->Ok_0.vocab,
            replayed_upto(s, list, n, r)->Ok_0.merges,
            0,
            r.prefix,
        ),
    decreases n,
{
    if n > 0 {
        lemma_replayed(s, list, n - 1, r);
        let before = replayed_upto(s, list, n - 1, r)->Ok_0;
        lemma_replayed_one(before, list[n - 1].0, list[n - 1].1, (n - 1) as usize, r);
        let after = replayed_upto(s, list, n, r)->Ok_0;
        assert forall|k: int| 0 <= k < n implies {
            &&& (#[trigger] after.merges[k]).0.0 < after.vocab.len()
            &&& after.merges[k].0.1 < after.vocab.len()
            &&& after.vocab[after.merges[k].0.0 as int] == list.take(n)[k].0
            &&& after.vocab[after.merges[k].0.1 as int] == list.take(n)[k].1
            &&& merge_sound(after.vocab, after.merges[k], r.prefix)
        } by {
            if k < n - 1 {
                assert(after.merges[k] == before.merges[k]);
                assert(list.take(n - 1)[k] == list.take(n)[k]);
                assert(merge_sound(before.vocab, before.merges[k], r.prefix));
            } else {
                assert(after.merges[k] == after.merges.last());
            }
        }
    }
}

/// A list of merges that begins with the listed merges still does so when
/// the vocabulary and the list have grown.
pub proof fn lemma_listed_stay(
    old_vocab: Seq<Seq<char>>,
    old_merges: Seq<(Pair, u32)>,
    vocab: Seq<Seq<char>>,
    merges: Seq<(Pair, u32)>,
    list: Seq<(Seq<char>, Seq<char>)>,
)
    requires
        grown_from(vocab, old_vocab),
        grown_from(merges, old_merges),
        begins_with_listed(old_vocab, old_merges, list),
    ensures
        begins_with_listed(vocab, merges, list),
{
    assert forall|k: int| 0 <= k < list.len() implies {
        &&& (#[trigger] merges[k]).0.0 < vocab.len()
        &&& merges[k].0.1 < vocab.len()
        &&& vocab[merges[k].0.0 as int] == list[k].0
        &&& vocab[merges[k].0.1 as int] == list[k].1
    } by {
        assert(merges[k] == old_merges[k]);
    }
}

/// Growing is passed on: what has grown from something that has grown from
/// a third has grown from the third.
pub proof fn lemma_grown_twice<T>(a: Seq<T>, b: Seq<T>, c: Seq<T>)
    requires
        grown_from(b, a),
        grown_from(c, b),
    ensures
        grown_from(c, a),
{
    assert forall|i: int| 0 <= i < a.len() implies c[i] == a[i] by {
        assert(b[i] == a[i]);
        assert(c[i] == b[i]);
    }
}

} // verus!
