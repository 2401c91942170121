//! Why no symbol that discovery learns is longer than the rules allow.
//!
//! This holds where no marker is configured: then every symbol in a word
//! covers as many characters as it has, a candidate is only ever made for
//! a pair whose merged symbol is short enough, and so is every merge.

use crate::corpus::{
    applied, recorded, rewritten, rewritten_word, CorpusView,
};
use crate::discovery::{finished, run_for, step, top_of, TrainingView};
use crate::encoding::unit_symbols;
use crate::indexing::{adjacent, counted_upto};
use crate::laws::{
    extension_ids_ok, ids_ok, lemma_replayed_one, lemma_run, lemma_step, lemma_top_of,
};
use crate::replay::{replayed_one, replayed_upto, stored_upto, ExtensionView};
use crate::pairs::count_of;
use crate::rules::{joined, rejected, stripped, RulesView};
use crate::table::{
    held_entries, holds_pair, noted, priced_entries, slot_of, stored, without, MergeView,
};
use crate::vocab::{grown_from, interned, lemma_interned, lemma_token_id_found, token_id};
use crate::word::{
    joined_len, left_changes, merged, rewrite, right_changes, symbol_at, Change, Pair, Symbol,
};
use vstd::prelude::*;

verus! {

/// Every symbol of `word` covers as many characters as it has in `vocab`.
pub open spec fn lens_agree(word: Seq<Symbol>, vocab: Seq<Seq<char>>) -> bool {
    forall|j: int|
        0 <= j < word.len() ==> (#[trigger] word[j]).c < vocab.len() && word[j].len
            == vocab[word[j].c as int].len()
}

/// Every symbol of every word covers as many characters as it has in `vocab`.
pub open spec fn words_agree(words: Seq<Seq<Symbol>>, vocab: Seq<Seq<char>>) -> bool {
    forall|i: int| 0 <= i < words.len() ==> lens_agree(#[trigger] words[i], vocab)
}

/// The symbols of `pair` are in `vocab`, and together they have no more
/// than `limit` characters.
pub open spec fn pair_short(vocab: Seq<Seq<char>>, pair: Pair, limit: int) -> bool {
    &&& pair.0 < vocab.len()
    &&& pair.1 < vocab.len()
    &&& vocab[pair.0 as int].len() + vocab[pair.1 as int].len() <= limit
}

/// Every pair that gains an occurrence is short.
pub open spec fn gains_short(changes: Seq<Change>, vocab: Seq<Seq<char>>, limit: int) -> bool {
    forall|j: int|
        0 <= j < changes.len() && (#[trigger] changes[j]).1 > 0 ==> pair_short(
            vocab,
            changes[j].0,
            limit,
        )
}

/// Every candidate that `t` holds is for a short pair.
pub open spec fn table_short(t: Seq<Option<MergeView>>, vocab: Seq<Seq<char>>, limit: int) -> bool {
    forall|i: int|
        0 <= i < t.len() && (#[trigger] t[i]) is Some ==> pair_short(vocab, t[i]->0.pair, limit)
}

/// Every candidate of `q` is for a short pair.
pub open spec fn entries_short(q: Seq<MergeView>, vocab: Seq<Seq<char>>, limit: int) -> bool {
    forall|i: int| 0 <= i < q.len() ==> pair_short(vocab, (#[trigger] q[i]).pair, limit)
}

/// The symbol of every merge from rank `from` on has no more than `limit`
/// characters.
pub open spec fn merges_short(
    vocab: Seq<Seq<char>>,
    merges: Seq<(Pair, u32)>,
    from: int,
    limit: int,
) -> bool {
    forall|k: int|
        from <= k < merges.len() ==> (#[trigger] merges[k]).1 < vocab.len() && vocab[merges[k].1 as int].len()
            <= limit
}

/// The lengths are in order for discovery: the ids are sound, the symbols
/// in the words cover as many characters as they have, and every
/// candidate is for a short pair.
pub open spec fn lens_ok(s: TrainingView, limit: int) -> bool {
    &&& ids_ok(s)
    &&& words_agree(s.corpus.words, s.vocab)
    &&& entries_short(s.queue, s.vocab, limit)
}

/// A rewrite keeps the symbols in agreement with the vocabulary, and
/// reports a gain only for a pair that is short.
pub proof fn lemma_rewrite_lens(
    s: Seq<Symbol>,
    i: int,
    prev: Option<Symbol>,
    a: u32,
    b: u32,
    c: u32,
    max_len: usize,
    vocab: Seq<Seq<char>>,
)
    requires
        0 <= i <= s.len(),
        lens_agree(s, vocab),
        a < vocab.len(),
        b < vocab.len(),
        c < vocab.len(),
        vocab[c as int].len() == vocab[a as int].len() + vocab[b as int].len(),
        vocab[c as int].len() <= usize::MAX,
        prev matches Some(p) ==> p.c < vocab.len() && p.len == vocab[p.c as int].len(),
    ensures
        lens_agree(rewrite(s, i, prev, a, b, c, max_len).0, vocab),
        gains_short(rewrite(s, i, prev, a, b, c, max_len).1, vocab, max_len as int),
    decreases s.len() - i,
{
    if i >= s.len() {
    } else if i + 1 < s.len() && s[i].c == a && s[i + 1].c == b {
        let new = Symbol { c, len: joined_len(s[i].len, s[i + 1].len) };
        assert(new.len == vocab[c as int].len());
        lemma_rewrite_lens(s, i + 2, Some(new), a, b, c, max_len, vocab);
        let rest = rewrite(s, i + 2, Some(new), a, b, c, max_len);
        let l = left_changes(prev, a, new, max_len);
        let r = right_changes(symbol_at(s, i + 2), b, new, max_len);
        assert(gains_short(l, vocab, max_len as int));
        assert(gains_short(r, vocab, max_len as int));
        assert(gains_short(l + r + rest.1, vocab, max_len as int));
    } else {
        lemma_rewrite_lens(s, i + 1, Some(s[i]), a, b, c, max_len, vocab);
    }
}

/// Recording gains of short pairs keeps a table of short pairs.
pub proof fn lemma_recorded_short(
    counts: Map<Pair, int>,
    pending: Seq<Option<MergeView>>,
    changes: Seq<Change>,
    iw: usize,
    freq: u64,
    vocab: Seq<Seq<char>>,
    limit: int,
)
    requires
        table_short(pending, vocab, limit),
        gains_short(changes, vocab, limit),
    ensures
        table_short(recorded(counts, pending, changes, iw, freq).1, vocab, limit),
    decreases changes.len(),
{
    if changes.len() > 0 {
        let head = changes.drop_last();
        assert(gains_short(head, vocab, limit)) by {
            assert forall|j: int| 0 <= j < head.len() && (#[trigger] head[j]).1 > 0 implies pair_short(
                vocab,
                head[j].0,
                limit,
            ) by {
                assert(head[j] == changes[j]);
            }
        }
        lemma_recorded_short(counts, pending, head, iw, freq, vocab, limit);
        let before = recorded(counts, pending, head, iw, freq);
        let change = changes.last();
        assert(change == changes[changes.len() - 1]);
        if change.1 > 0 {
            let after = noted(before.1, change.0, iw);
            assert forall|i: int| 0 <= i < after.len() && (#[trigger] after[i]) is Some implies pair_short(
                vocab,
                after[i]->0.pair,
                limit,
            ) by {
                match slot_of(before.1, change.0) {
                    Some(k) => {
                        assert(holds_pair(before.1, k, change.0));
                        if i != k {
                            assert(before.1[i] is Some);
                        }
                    },
                    None => {
                        if i < before.1.len() {
                            assert(before.1[i] is Some);
                        }
                    },
                }
            }
        }
    }
}

/// The candidates priced out of a table of short pairs are for short pairs.
pub proof fn lemma_priced_short(
    t: Seq<Option<MergeView>>,
    counts: Map<Pair, int>,
    vocab: Seq<Seq<char>>,
    limit: int,
)
    requires
        table_short(t, vocab, limit),
    ensures
        entries_short(priced_entries(t, counts), vocab, limit),
    decreases t.len(),
{
    if t.len() > 0 {
        let head = t.drop_last();
        assert(table_short(head, vocab, limit)) by {
            assert forall|i: int| 0 <= i < head.len() && (#[trigger] head[i]) is Some implies pair_short(
                vocab,
                head[i]->0.pair,
                limit,
            ) by {
                assert(head[i] == t[i]);
            }
        }
        lemma_priced_short(head, counts, vocab, limit);
        assert(t.last() == t[t.len() - 1]);
    }
}

/// Rewriting keeps the words in agreement with the vocabulary and the
/// table one of short pairs.
pub proof fn lemma_rewritten_lens(
    corpus: CorpusView,
    pending: Seq<Option<MergeView>>,
    pos: Seq<usize>,
    a: u32,
    b: u32,
    c: u32,
    max_len: usize,
    vocab: Seq<Seq<char>>,
)
    requires
        words_agree(corpus.words, vocab),
        table_short(pending, vocab, max_len as int),
        a < vocab.len(),
        b < vocab.len(),
        c < vocab.len(),
        vocab[c as int].len() == vocab[a as int].len() + vocab[b as int].len(),
        vocab[c as int].len() <= usize::MAX,
    ensures
        words_agree(rewritten(corpus, pending, pos, a, b, c, max_len).0.words, vocab),
        table_short(rewritten(corpus, pending, pos, a, b, c, max_len).1, vocab, max_len as int),
    decreases pos.len(),
{
    if pos.len() > 0 {
        lemma_rewritten_lens(corpus, pending, pos.drop_last(), a, b, c, max_len, vocab);
        let before = rewritten(corpus, pending, pos.drop_last(), a, b, c, max_len);
        let iw = pos.last();
        if iw < before.0.words.len() && iw < before.0.freqs.len() {
            let word = before.0.words[iw as int];
            assert(lens_agree(word, vocab));
            lemma_rewrite_lens(word, 0, None, a, b, c, max_len, vocab);
            let m = merged(word, a, b, c, max_len);
            lemma_recorded_short(
                before.0.pair_counts,
                before.1,
                m.1,
                iw,
                before.0.freqs[iw as int],
                vocab,
                max_len as int,
            );
            let after = rewritten_word(before.0, before.1, iw, a, b, c, max_len);
            assert forall|i: int| 0 <= i < after.0.words.len() implies lens_agree(
                #[trigger] after.0.words[i],
                vocab,
            ) by {
                if i != iw {
                    assert(lens_agree(before.0.words[i], vocab));
                }
            }
        }
    }
}

/// What agrees with a vocabulary agrees with one that has grown from it.
pub proof fn lemma_lens_stay(
    words: Seq<Seq<Symbol>>,
    q: Seq<MergeView>,
    earlier: Seq<Seq<char>>,
    later: Seq<Seq<char>>,
    limit: int,
    more: int,
)
    requires
        grown_from(later, earlier),
        limit <= more,
    ensures
        words_agree(words, earlier) ==> words_agree(words, later),
        entries_short(q, earlier, limit) ==> entries_short(q, later, more),
{
    if words_agree(words, earlier) {
        assert forall|i: int| 0 <= i < words.len() implies lens_agree(#[trigger] words[i], later) by {
            assert(lens_agree(words[i], earlier));
        }
    }
    if entries_short(q, earlier, limit) {
        assert forall|i: int| 0 <= i < q.len() implies pair_short(later, (#[trigger] q[i]).pair, more) by {
            assert(pair_short(earlier, q[i].pair, limit));
        }
    }
}

/// One step of discovery without marker keeps the lengths in order, and
/// the merge that it may add has a short symbol.
pub proof fn lemma_step_lens(s: TrainingView, r: RulesView, limit: int)
    requires
        lens_ok(s, limit),
        r.prefix is None,
        r.max_token_length <= limit <= usize::MAX,
        step(s, r) is Some,
    ensures
        lens_ok(step(s, r)->0, limit),
        merges_short(step(s, r)->0.vocab, step(s, r)->0.merges, s.merges.len() as int, limit),
{
    let next = step(s, r)->0;
    lemma_step(s, r);
    lemma_top_of(s.queue);
    let t = top_of(s.queue);
    let top = s.queue[t];
    let now = count_of(s.corpus.pair_counts, top.pair);
    if top.count != now {
        assert forall|i: int| 0 <= i < next.queue.len() implies pair_short(
            next.vocab,
            (#[trigger] next.queue[i]).pair,
            limit,
        ) by {
            assert(pair_short(s.vocab, s.queue[i].pair, limit));
        }
    } else {
        let left = s.vocab[top.pair.0 as int];
        let right = stripped(s.vocab[top.pair.1 as int], r.prefix);
        assert(right =~= s.vocab[top.pair.1 as int]);
        if rejected(r.filters, left, right) {
            assert forall|i: int| 0 <= i < next.queue.len() implies pair_short(
                next.vocab,
                (#[trigger] next.queue[i]).pair,
                limit,
            ) by {
                if i < t {
                    assert(pair_short(s.vocab, s.queue[i].pair, limit));
                } else {
                    assert(pair_short(s.vocab, s.queue[i + 1].pair, limit));
                }
            }
        } else {
            let token = left + right;
            assert(pair_short(s.vocab, top.pair, limit));
            lemma_interned(s.vocab, token);
            let v = interned(s.vocab, token);
            lemma_lens_stay(s.corpus.words, s.queue, s.vocab, v.0, limit, limit);
            assert(v.0[top.pair.0 as int] == left);
            assert(v.0[top.pair.1 as int] == right);
            lemma_rewritten_lens(
                s.corpus,
                Seq::empty(),
                top.pos,
                top.pair.0,
                top.pair.1,
                v.1,
                r.max_token_length,
                v.0,
            );
            let rw = rewritten(
                s.corpus,
                Seq::empty(),
                top.pos,
                top.pair.0,
                top.pair.1,
                v.1,
                r.max_token_length,
            );
            lemma_priced_short(rw.1, rw.0.pair_counts, v.0, r.max_token_length as int);
            let a = applied(s.corpus, top.pair, top.pos, v.1, r.max_token_length);
            let rest = s.queue.remove(t);
            assert forall|i: int| 0 <= i < next.queue.len() implies pair_short(
                next.vocab,
                (#[trigger] next.queue[i]).pair,
                limit,
            ) by {
                if i < t {
                    assert(pair_short(v.0, s.queue[i].pair, limit));
                } else if i < rest.len() {
                    assert(pair_short(v.0, s.queue[i + 1].pair, limit));
                } else {
                    assert(next.queue[i] == a.1[i - rest.len()]);
                    assert(pair_short(v.0, a.1[i - rest.len()].pair, r.max_token_length as int));
                }
            }
            assert(next.merges[s.merges.len() as int] == (top.pair, v.1));
        }
    }
}

/// A run of discovery without marker keeps the lengths in order, and
/// every merge that it adds has a short symbol.
pub proof fn lemma_run_lens(s: TrainingView, r: RulesView, limit: int, n: nat)
    requires
        lens_ok(s, limit),
        r.prefix is None,
        r.max_token_length <= limit <= usize::MAX,
    ensures
        lens_ok(run_for(s, r, n), limit),
        merges_short(run_for(s, r, n).vocab, run_for(s, r, n).merges, s.merges.len() as int, limit),
    decreases n,
{
    if n > 0 {
        lemma_run_lens(s, r, limit, (n - 1) as nat);
        lemma_run(s, r, (n - 1) as nat);
        let before = run_for(s, r, (n - 1) as nat);
        if step(before, r) is Some {
            lemma_step(before, r);
            lemma_step_lens(before, r, limit);
            let after = step(before, r)->0;
            assert forall|k: int| s.merges.len() <= k < after.merges.len() implies (
            #[trigger] after.merges[k]).1 < after.vocab.len() && after.vocab[after.merges[k].1 as int].len()
                <= limit by {
                if k < before.merges.len() {
                    assert(after.merges[k] == before.merges[k]);
                    assert(before.merges[k].1 < before.vocab.len());
                }
            }
        }
    }
}

/// No symbol that discovery learns is longer than the rules allow: in a
/// finished run without marker every merge that the run has added has a
/// symbol of no more than `limit` characters.
pub proof fn lemma_learned_short(s: TrainingView, r: RulesView, limit: int)
    requires
        lens_ok(s, limit),
        r.prefix is None,
        r.max_token_length <= limit <= usize::MAX,
    ensures
        merges_short(finished(s, r).vocab, finished(s, r).merges, s.merges.len() as int, limit),
{
    let n = choose|n: nat| step(run_for(s, r, n), r) is None;
    lemma_run_lens(s, r, limit, n);
}

/// The lengths are in order for a replay: the ids are sound, the symbols
/// in the words cover as many characters as they have, and every
/// candidate is for a short pair.
pub open spec fn extension_lens_ok(s: ExtensionView, limit: int) -> bool {
    &&& extension_ids_ok(s)
    &&& words_agree(s.corpus.words, s.vocab)
    &&& table_short(s.table, s.vocab, limit)
}

/// The merged symbol of every one of the first `n` listed merges can be
/// held in memory.
pub open spec fn listed_symbols_fit(list: Seq<(Seq<char>, Seq<char>)>, n: int) -> bool {
    forall|k: int| 0 <= k < n ==> (#[trigger] list[k]).0.len() + list[k].1.len() <= usize::MAX
}

/// Storing candidates for short pairs, or taking one out, keeps a table of
/// short pairs.
pub proof fn lemma_stored_short(
    t: Seq<Option<MergeView>>,
    entries: Seq<MergeView>,
    n: int,
    pair: Pair,
    vocab: Seq<Seq<char>>,
    limit: int,
)
    requires
        0 <= n <= entries.len(),
        table_short(t, vocab, limit),
        entries_short(entries, vocab, limit),
    ensures
        table_short(stored_upto(t, entries, n), vocab, limit),
        table_short(without(t, pair), vocab, limit),
    decreases n,
{
    let w = without(t, pair);
    assert forall|i: int| 0 <= i < w.len() && (#[trigger] w[i]) is Some implies pair_short(
        vocab,
        w[i]->0.pair,
        limit,
    ) by {
        assert(t[i] is Some);
    }
    if n > 0 {
        lemma_stored_short(t, entries, n - 1, pair, vocab, limit);
        let before = stored_upto(t, entries, n - 1);
        let m = entries[n - 1];
        let after = stored(before, m);
        assert forall|i: int| 0 <= i < after.len() && (#[trigger] after[i]) is Some implies pair_short(
            vocab,
            after[i]->0.pair,
            limit,
        ) by {
            match slot_of(before, m.pair) {
                Some(k) => {
                    assert(holds_pair(before, k, m.pair));
                    if i != k {
                        assert(before[i] is Some);
                    }
                },
                None => {
                    if i < before.len() {
                        assert(before[i] is Some);
                    }
                },
            }
        }
    }
}

/// The candidates held by a table of short pairs are for short pairs.
pub proof fn lemma_held_short(t: Seq<Option<MergeView>>, vocab: Seq<Seq<char>>, limit: int)
    requires
        table_short(t, vocab, limit),
    ensures
        entries_short(held_entries(t), vocab, limit),
    decreases t.len(),
{
    if t.len() > 0 {
        let head = t.drop_last();
        assert(table_short(head, vocab, limit)) by {
            assert forall|i: int| 0 <= i < head.len() && (#[trigger] head[i]) is Some implies pair_short(
                vocab,
                head[i]->0.pair,
                limit,
            ) by {
                assert(head[i] == t[i]);
            }
        }
        lemma_held_short(head, vocab, limit);
        assert(t.last() == t[t.len() - 1]);
    }
}

/// A table of short pairs is one for every vocabulary that has grown from
/// its own, and for every greater limit.
pub proof fn lemma_table_stays(
    t: Seq<Option<MergeView>>,
    earlier: Seq<Seq<char>>,
    later: Seq<Seq<char>>,
    limit: int,
    more: int,
)
    requires
        grown_from(later, earlier),
        limit <= more,
        table_short(t, earlier, limit),
    ensures
        table_short(t, later, more),
{
    assert forall|i: int| 0 <= i < t.len() && (#[trigger] t[i]) is Some implies pair_short(
        later,
        t[i]->0.pair,
        more,
    ) by {
        assert(pair_short(earlier, t[i]->0.pair, limit));
    }
}

/// The replay of one listed merge without marker keeps the lengths in order.
pub proof fn lemma_replayed_one_lens(
    s: ExtensionView,
    left: Seq<char>,
    right: Seq<char>,
    rank: usize,
    r: RulesView,
    limit: int,
)
    requires
        extension_lens_ok(s, limit),
        r.prefix is None,
        r.max_token_length <= limit,
        left.len() + right.len() <= usize::MAX,
        replayed_one(s, left, right, rank, r) is Ok,
    ensures
        extension_lens_ok(replayed_one(s, left, right, rank, r)->Ok_0, limit),
{
    lemma_replayed_one(s, left, right, rank, r);
    let a = token_id(s.vocab, left)->0;
    let b = token_id(s.vocab, right)->0;
    lemma_token_id_found(s.vocab, left);
    lemma_token_id_found(s.vocab, right);
    let token = joined(left, right, r.prefix);
    assert(token =~= left + right);
    lemma_interned(s.vocab, token);
    let v = interned(s.vocab, token);
    lemma_lens_stay(s.corpus.words, Seq::empty(), s.vocab, v.0, limit, limit);
    lemma_table_stays(s.table, s.vocab, v.0, limit, limit);
    assert(v.0[a as int] == left);
    assert(v.0[b as int] == right);
    match slot_of(s.table, (a, b)) {
        None => {},
        Some(i) => {
            let pos = s.table[i]->0.pos;
            lemma_rewritten_lens(s.corpus, Seq::empty(), pos, a, b, v.1, r.max_token_length, v.0);
            let rw = rewritten(s.corpus, Seq::empty(), pos, a, b, v.1, r.max_token_length);
            lemma_priced_short(rw.1, rw.0.pair_counts, v.0, r.max_token_length as int);
            let ap = applied(s.corpus, (a, b), pos, v.1, r.max_token_length);
            assert(entries_short(ap.1, v.0, limit)) by {
                assert forall|k: int| 0 <= k < ap.1.len() implies pair_short(
                    v.0,
                    (#[trigger] ap.1[k]).pair,
                    limit,
                ) by {
                    assert(pair_short(v.0, ap.1[k].pair, r.max_token_length as int));
                }
            }
            lemma_stored_short(s.table, Seq::empty(), 0, (a, b), v.0, limit);
            lemma_stored_short(
                without(s.table, (a, b)),
                ap.1,
                ap.1.len() as int,
                (a, b),
                v.0,
                limit,
            );
        },
    }
}

/// A replay without marker keeps the lengths in order.
pub proof fn lemma_replayed_lens(
    s: ExtensionView,
    list: Seq<(Seq<char>, Seq<char>)>,
    n: int,
    r: RulesView,
    limit: int,
)
    requires
        extension_lens_ok(s, limit),
        s.merges.len() == 0,
        r.prefix is None,
        r.max_token_length <= limit,
        0 <= n <= list.len(),
        listed_symbols_fit(list, n),
        replayed_upto(s, list, n, r) is Ok,
    ensures
        extension_lens_ok(replayed_upto(s, list, n, r)->Ok_0, limit),
    decreases n,
{
    if n > 0 {
        lemma_replayed_lens(s, list, n - 1, r, limit);
        let before = replayed_upto(s, list, n - 1, r)->Ok_0;
        assert(list[n - 1].0.len() + list[n - 1].1.len() <= usize::MAX);
        lemma_replayed_one_lens(before, list[n - 1].0, list[n - 1].1, (n - 1) as usize, r, limit);
    }
}

/// Every symbol in the words has one character and covers one.
pub open spec fn unit_words(words: Seq<Seq<Symbol>>, vocab: Seq<Seq<char>>) -> bool {
    forall|i: int| 0 <= i < words.len() ==> unit_symbols(#[trigger] words[i], vocab)
}

/// The first count of the pairs of words whose symbols have one character
/// each notes pairs of two characters only.
pub proof fn lemma_counted_short(
    words: Seq<Seq<Symbol>>,
    freqs: Seq<u64>,
    n: int,
    vocab: Seq<Seq<char>>,
)
    requires
        0 <= n <= words.len(),
        unit_words(words, vocab),
    ensures
        table_short(counted_upto(words, freqs, n).1, vocab, 2),
        words_agree(words, vocab),
    decreases n,
{
    assert forall|i: int| 0 <= i < words.len() implies lens_agree(#[trigger] words[i], vocab) by {
        assert(unit_symbols(words[i], vocab));
    }
    if n > 0 {
        lemma_counted_short(words, freqs, n - 1, vocab);
        let before = counted_upto(words, freqs, n - 1);
        let word = words[n - 1];
        let changes = adjacent(word);
        assert forall|j: int| 0 <= j < changes.len() && (#[trigger] changes[j]).1 > 0 implies pair_short(
            vocab,
            changes[j].0,
            2,
        ) by {
            assert(changes[j].0 == (word[j].c, word[j + 1].c));
            assert(unit_symbols(word, vocab));
            assert(word[j].len == 1);
            assert(word[j + 1].len == 1);
        }
        lemma_recorded_short(before.0, before.1, changes, (n - 1) as usize, freqs[n - 1], vocab, 2);
    }
}

} // verus!
