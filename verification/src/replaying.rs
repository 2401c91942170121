//! Why the list of merges tells what became of the words.
//!
//! Training rewrites a pair only in the words that the candidate names,
//! while a tokenizer that replays the merges rewrites it wherever it
//! stands. The two agree as long as every candidate that is merged names
//! every word in which its pair stands.

use crate::corpus::{applied, rewritten, CorpusView};
use crate::discovery::{run_for, step, top_of, TrainingView};

use crate::rules::{stripped, RulesView};
use crate::table::MergeView;
use crate::word::{merged, rewrite, Change, Pair, Symbol};
use vstd::prelude::*;

verus! {

/// The pair `(a, b)` stands somewhere in `word`.
pub open spec fn has_pair(word: Seq<Symbol>, a: u32, b: u32) -> bool {
    exists|j: int| 0 <= j && j + 1 < word.len() && (#[trigger] word[j]).c == a && word[j + 1].c == b
}

/// The words after `(a, b)` was rewritten to `c` in every one of them.
pub open spec fn merged_everywhere(
    words: Seq<Seq<Symbol>>,
    a: u32,
    b: u32,
    c: u32,
    max_len: usize,
) -> Seq<Seq<Symbol>> {
    Seq::new(words.len(), |i: int| merged(words[i], a, b, c, max_len).0)
}

/// The words after the merges were applied to every one of them, in the
/// order of their ranks.
pub open spec fn replay_all(words: Seq<Seq<Symbol>>, merges: Seq<(Pair, u32)>, max_len: usize) -> Seq<
    Seq<Symbol>,
>
    decreases merges.len(),
{
    if merges.len() == 0 {
        words
    } else {
        let m = merges.last();
        merged_everywhere(replay_all(words, merges.drop_last(), max_len), m.0.0, m.0.1, m.1, max_len)
    }
}

/// The positions `pos` name every word in which `pair` stands, and none twice.
pub open spec fn positions_complete(words: Seq<Seq<Symbol>>, pair: Pair, pos: Seq<usize>) -> bool {
    &&& pos.no_duplicates()
    &&& forall|i: int|
        0 <= i < words.len() && has_pair(#[trigger] words[i], pair.0, pair.1) ==> pos.contains(
            i as usize,
        )
}

/// If the step that discovery takes from `s` is a merge, the candidate
/// that it merges names every word in which its pair stands.
pub open spec fn merges_completely(s: TrainingView, r: RulesView) -> bool {
    step(s, r) is Some && step(s, r)->0.merges.len() > s.merges.len() ==> positions_complete(
        s.corpus.words,
        s.queue[top_of(s.queue)].pair,
        s.queue[top_of(s.queue)].pos,
    )
}

/// A rewrite of a word in which the pair does not stand changes nothing.
pub proof fn lemma_rewrite_nothing(
    s: Seq<Symbol>,
    i: int,
    prev: Option<Symbol>,
    a: u32,
    b: u32,
    c: u32,
    max_len: usize,
)
    requires
        0 <= i <= s.len(),
        !has_pair(s, a, b),
    ensures
        rewrite(s, i, prev, a, b, c, max_len) == (s.skip(i), Seq::<Change>::empty()),
    decreases s.len() - i,
{
    if i >= s.len() {
        assert(s.skip(i) =~= Seq::<Symbol>::empty());
    } else {
        if i + 1 < s.len() && s[i].c == a && s[i + 1].c == b {
            assert(has_pair(s, a, b));
        }
        lemma_rewrite_nothing(s, i + 1, Some(s[i]), a, b, c, max_len);
        assert(seq![s[i]] + s.skip(i + 1) =~= s.skip(i));
    }
}

/// Rewriting at positions of which none occurs twice rewrites each named
/// word once and leaves the others as they are.
pub proof fn lemma_rewritten_words(
    corpus: CorpusView,
    pending: Seq<Option<MergeView>>,
    pos: Seq<usize>,
    a: u32,
    b: u32,
    c: u32,
    max_len: usize,
)
    requires
        corpus.words.len() == corpus.freqs.len(),
        corpus.words.len() <= usize::MAX,
        pos.no_duplicates(),
    ensures
        rewritten(corpus, pending, pos, a, b, c, max_len).0.words.len() == corpus.words.len(),
        rewritten(corpus, pending, pos, a, b, c, max_len).0.freqs == corpus.freqs,
        forall|i: int|
            0 <= i < corpus.words.len() ==> #[trigger] rewritten(
                corpus,
                pending,
                pos,
                a,
                b,
                c,
                max_len,
            ).0.words[i] == if pos.contains(i as usize) {
                merged(corpus.words[i], a, b, c, max_len).0
            } else {
                corpus.words[i]
            },
    decreases pos.len(),
{
    if pos.len() > 0 {
        let head = pos.drop_last();
        let iw = pos.last();
        assert(head.no_duplicates()) by {
            assert forall|x: int, y: int| 0 <= x < head.len() && 0 <= y < head.len() && x != y implies head[x]
                != head[y] by {
                assert(head[x] == pos[x] && head[y] == pos[y]);
            }
        }
        lemma_rewritten_words(corpus, pending, head, a, b, c, max_len);
        let before = rewritten(corpus, pending, head, a, b, c, max_len);
        let after = rewritten(corpus, pending, pos, a, b, c, max_len);
        assert(!head.contains(iw)) by {
            if head.contains(iw) {
                let x = choose|x: int| 0 <= x < head.len() && head[x] == iw;
                assert(pos[x] == pos[pos.len() - 1]);
            }
        }
        assert forall|i: int| 0 <= i < corpus.words.len() implies #[trigger] after.0.words[i] == if pos.contains(
            i as usize,
        ) {
            merged(corpus.words[i], a, b, c, max_len).0
        } else {
            corpus.words[i]
        } by {
            if i == iw {
                assert(pos[pos.len() - 1] == iw);
                assert(pos.contains(i as usize));
            } else {
                if pos.contains(i as usize) {
                    let x = choose|x: int| 0 <= x < pos.len() && pos[x] == i as usize;
                    assert(head[x] == i as usize);
                    assert(head.contains(i as usize));
                }
                if head.contains(i as usize) {
                    let x = choose|x: int| 0 <= x < head.len() && head[x] == i as usize;
                    assert(pos[x] == i as usize);
                }
            }
        }
    }
}

/// A merge at positions that name every word in which the pair stands
/// does to the words what the merge does when it is applied to every word.
pub proof fn lemma_applied_everywhere(
    corpus: CorpusView,
    pair: Pair,
    pos: Seq<usize>,
    new_id: u32,
    max_len: usize,
)
    requires
        corpus.words.len() == corpus.freqs.len(),
        corpus.words.len() <= usize::MAX,
        positions_complete(corpus.words, pair, pos),
    ensures
        applied(corpus, pair, pos, new_id, max_len).0.words == merged_everywhere(
            corpus.words,
            pair.0,
            pair.1,
            new_id,
            max_len,
        ),
        applied(corpus, pair, pos, new_id, max_len).0.freqs == corpus.freqs,
{
    lemma_rewritten_words(corpus, Seq::empty(), pos, pair.0, pair.1, new_id, max_len);
    let after = applied(corpus, pair, pos, new_id, max_len).0.words;
    let everywhere = merged_everywhere(corpus.words, pair.0, pair.1, new_id, max_len);
    assert forall|i: int| 0 <= i < corpus.words.len() implies after[i] == everywhere[i] by {
        if !pos.contains(i as usize) {
            lemma_rewrite_nothing(corpus.words[i], 0, None, pair.0, pair.1, new_id, max_len);
            assert(corpus.words[i].skip(0) =~= corpus.words[i]);
        }
    }
    assert(after =~= everywhere);
}

/// The replay property: as long as every candidate that is merged names
/// every word in which its pair stands, the words after `n` steps of
/// discovery are the words that discovery started from with the merges
/// that it has made applied to them, in the order of their ranks.
pub proof fn lemma_replay(s: TrainingView, r: RulesView, n: nat)
    requires
        s.corpus.words.len() == s.corpus.freqs.len(),
        s.corpus.words.len() <= usize::MAX,
        forall|k: nat| k < n ==> merges_completely(#[trigger] run_for(s, r, k), r),
    ensures
        s.merges.len() <= run_for(s, r, n).merges.len(),
        run_for(s, r, n).corpus.words.len() == run_for(s, r, n).corpus.freqs.len(),
        run_for(s, r, n).corpus.words.len() == s.corpus.words.len(),
        run_for(s, r, n).corpus.words == replay_all(
            s.corpus.words,
            run_for(s, r, n).merges.skip(s.merges.len() as int),
            r.max_token_length,
        ),
    decreases n,
{
    if n == 0 {
        assert(s.merges.skip(s.merges.len() as int) =~= Seq::<(Pair, u32)>::empty());
    } else {
        lemma_replay(s, r, (n - 1) as nat);
        let before = run_for(s, r, (n - 1) as nat);
        let after = run_for(s, r, n);
        let base = s.merges.len() as int;
        if step(before, r) is Some {
            assert(merges_completely(before, r));
            let t = top_of(before.queue);
            let top = before.queue[t];
            if after.merges.len() > before.merges.len() {
                let left = before.vocab[top.pair.0 as int];
                let right = stripped(before.vocab[top.pair.1 as int], r.prefix);
                let v = crate::vocab::interned(before.vocab, left + right);
                lemma_applied_everywhere(before.corpus, top.pair, top.pos, v.1, r.max_token_length);
                assert(after.merges == before.merges.push((top.pair, v.1)));
                assert(after.merges.skip(base).drop_last() =~= before.merges.skip(base));
                assert(after.merges.skip(base).last() == (top.pair, v.1));
            } else {
                assert(after.merges =~= before.merges);
                assert(after.corpus == before.corpus);
            }
        }
    }
}

} // verus!
